use apc::error::CoreError;
use apc::id::{AtomId, ContinuumId, RevisionId, LOGICAL_ID_BYTES};
use apc::idset::RevisionSet;
use apc::merge::MergeState;
use apc::scalar::{ScalarRegister, ScalarRevision};
use apc::state::ContinuumState;

fn state_bytes(value: u64) -> [u8; LOGICAL_ID_BYTES] {
    let mut bytes = [0_u8; LOGICAL_ID_BYTES];
    bytes[LOGICAL_ID_BYTES - 8..].copy_from_slice(&value.to_be_bytes());
    bytes
}

fn state_cid(value: u64) -> ContinuumId {
    ContinuumId::from_bytes(state_bytes(value))
}

fn state_aid(value: u64) -> AtomId {
    AtomId::from_bytes(state_bytes(value))
}

fn state_rid(value: u64) -> RevisionId {
    RevisionId::from_bytes(state_bytes(value))
}

fn state_scalar(id: u64, value: &str) -> ScalarRegister {
    ScalarRegister::from_revisions(vec![ScalarRevision::new(
        state_rid(id),
        value.as_bytes().to_vec(),
        RevisionSet::new(),
    )])
    .unwrap()
}

#[test]
fn merging_distinct_atoms_preserves_both() {
    let mut left = ContinuumState::new(state_cid(1));
    left.atoms_mut().insert_new(state_aid(10), state_scalar(10, "left")).unwrap();

    let mut right = ContinuumState::new(state_cid(1));
    right.atoms_mut().insert_new(state_aid(20), state_scalar(20, "right")).unwrap();

    let merged = left.merge_state(&right).unwrap();
    assert_eq!(merged.atoms().len(), 2);
    assert_eq!(
        merged.atoms().get(state_aid(10)).unwrap().materialized(),
        Some(&b"left".to_vec())
    );
    assert_eq!(
        merged.atoms().get(state_aid(20)).unwrap().materialized(),
        Some(&b"right".to_vec())
    );
}

#[test]
fn shared_atom_delegates_to_its_merge_domain() {
    let mut base = ScalarRegister::new();
    base.assign(state_rid(1), b"base".to_vec()).unwrap();

    let mut left_value = base.clone();
    left_value.assign(state_rid(200), b"left".to_vec()).unwrap();
    let mut right_value = base;
    right_value.assign(state_rid(100), b"right".to_vec()).unwrap();

    let mut left = ContinuumState::new(state_cid(1));
    left.atoms_mut().insert_new(state_aid(10), left_value).unwrap();
    let mut right = ContinuumState::new(state_cid(1));
    right.atoms_mut().insert_new(state_aid(10), right_value).unwrap();

    let merged = left.merge_state(&right).unwrap();
    assert_eq!(
        merged.atoms().get(state_aid(10)).unwrap().materialized(),
        Some(&b"left".to_vec())
    );
}

#[test]
fn different_continua_cannot_merge() {
    let left: ContinuumState<ScalarRegister> = ContinuumState::new(state_cid(1));
    let right: ContinuumState<ScalarRegister> = ContinuumState::new(state_cid(2));

    assert_eq!(
        left.merge_state(&right).unwrap_err(),
        CoreError::ContinuumMismatch {
            left: state_cid(1),
            right: state_cid(2),
        }
    );
}

#[test]
fn duplicate_local_atom_identity_is_rejected() {
    let mut state = ContinuumState::new(state_cid(1));
    state.atoms_mut().insert_new(state_aid(10), state_scalar(1, "a")).unwrap();

    assert_eq!(
        state
            .atoms_mut()
            .insert_new(state_aid(10), state_scalar(2, "b"))
            .unwrap_err(),
        CoreError::DuplicateAtomId { atom_id: state_aid(10) }
    );
}

#[test]
fn continuum_merge_inherits_state_merge_laws_for_sample_states() {
    let mut a = ContinuumState::new(state_cid(1));
    a.atoms_mut().insert_new(state_aid(10), state_scalar(10, "a")).unwrap();
    let mut b = ContinuumState::new(state_cid(1));
    b.atoms_mut().insert_new(state_aid(20), state_scalar(20, "b")).unwrap();
    let mut c = ContinuumState::new(state_cid(1));
    c.atoms_mut().insert_new(state_aid(30), state_scalar(30, "c")).unwrap();

    assert_eq!(a.merge_state(&b).unwrap(), b.merge_state(&a).unwrap());
    assert_eq!(a.merge_state(&a).unwrap(), a);

    let left_grouped = a.merge_state(&b).unwrap().merge_state(&c).unwrap();
    let right_grouped = a.merge_state(&b.merge_state(&c).unwrap()).unwrap();
    assert_eq!(left_grouped, right_grouped);
}

#[test]
fn conflicting_shared_atom_refuses_the_whole_merge() {
    let mut left = ContinuumState::new(state_cid(1));
    left.atoms_mut().insert_new(state_aid(10), state_scalar(1, "left")).unwrap();
    let mut right = ContinuumState::new(state_cid(1));
    right.atoms_mut().insert_new(state_aid(10), state_scalar(1, "right")).unwrap();

    assert_eq!(
        left.merge_state(&right).unwrap_err(),
        CoreError::DuplicateRevisionConflict { revision_id: state_rid(1) }
    );
}

#[test]
fn atom_map_lists_atoms_in_canonical_order() {
    let mut state = ContinuumState::new(state_cid(3));
    state.atoms_mut().insert_new(state_aid(30), state_scalar(3, "c")).unwrap();
    state.atoms_mut().insert_new(state_aid(10), state_scalar(1, "a")).unwrap();
    let listed: Vec<AtomId> = state.atoms().iter().into_iter().map(|(id, _)| id).collect();
    assert_eq!(listed, vec![state_aid(10), state_aid(30)]);
    assert_eq!(state.continuum_id(), state_cid(3));
    assert!(state.atoms().get(state_aid(20)).is_none());
}
