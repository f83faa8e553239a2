use apc::error::CoreError;
use apc::id::{RevisionId, LOGICAL_ID_BYTES};
use apc::idset::RevisionSet;
use apc::scalar::{ScalarRegister, ScalarRevision};

fn scalar_rid(value: u64) -> RevisionId {
    let mut bytes = [0_u8; LOGICAL_ID_BYTES];
    bytes[LOGICAL_ID_BYTES - 8..].copy_from_slice(&value.to_be_bytes());
    RevisionId::from_bytes(bytes)
}

fn scalar_set(ids: &[u64]) -> RevisionSet {
    RevisionSet::from_ids(ids.iter().map(|id| scalar_rid(*id)).collect())
}

fn text(value: &str) -> Vec<u8> {
    value.as_bytes().to_vec()
}

#[test]
fn causal_successor_beats_larger_ancestor_id() {
    let mut register = ScalarRegister::new();
    register.assign(scalar_rid(900), text("ancestor")).unwrap();
    register.assign(scalar_rid(50), text("successor")).unwrap();

    assert_eq!(register.materialized(), Some(&text("successor")));
    assert!(register.is_ancestor(scalar_rid(900), scalar_rid(50)));
}

#[test]
fn concurrent_frontier_uses_only_canonical_id_tie_break() {
    let mut base = ScalarRegister::new();
    base.assign(scalar_rid(1), text("base")).unwrap();

    let mut left = base.clone();
    left.assign(scalar_rid(200), text("left")).unwrap();

    let mut right = base;
    right.assign(scalar_rid(100), text("right")).unwrap();

    let merged = left.merge(&right).unwrap();

    assert_eq!(merged.frontier_ids(), scalar_set(&[100, 200]));
    assert_eq!(merged.materialized(), Some(&text("left")));
    assert!(!merged.is_ancestor(scalar_rid(100), scalar_rid(200)));
    assert!(!merged.is_ancestor(scalar_rid(200), scalar_rid(100)));
}

#[test]
fn join_revision_observes_complete_concurrent_frontier() {
    let mut base = ScalarRegister::new();
    base.assign(scalar_rid(1), text("base")).unwrap();

    let mut left = base.clone();
    left.assign(scalar_rid(800), text("left")).unwrap();
    let mut right = base;
    right.assign(scalar_rid(900), text("right")).unwrap();

    let mut joined = left.merge(&right).unwrap();
    joined.assign(scalar_rid(2), text("joined")).unwrap();

    assert_eq!(joined.frontier_ids(), scalar_set(&[2]));
    assert_eq!(joined.revision(scalar_rid(2)).unwrap().parents, scalar_set(&[800, 900]));
    assert_eq!(joined.materialized(), Some(&text("joined")));
}

#[test]
fn merge_is_commutative_associative_and_idempotent_for_valid_states() {
    let mut base = ScalarRegister::new();
    base.assign(scalar_rid(1), text("base")).unwrap();

    let mut a = base.clone();
    a.assign(scalar_rid(10), text("a")).unwrap();
    let mut b = base.clone();
    b.assign(scalar_rid(20), text("b")).unwrap();
    let mut c = base;
    c.assign(scalar_rid(30), text("c")).unwrap();

    assert_eq!(a.merge(&b).unwrap(), b.merge(&a).unwrap());
    assert_eq!(a.merge(&a).unwrap(), a);

    let left_grouped = a.merge(&b).unwrap().merge(&c).unwrap();
    let right_grouped = a.merge(&b.merge(&c).unwrap()).unwrap();
    assert_eq!(left_grouped, right_grouped);
}

#[test]
fn stale_state_cannot_roll_back_causal_descendant() {
    let mut old = ScalarRegister::new();
    old.assign(scalar_rid(500), text("old")).unwrap();

    let mut current = old.clone();
    current.assign(scalar_rid(10), text("current")).unwrap();

    assert_eq!(current.merge(&old).unwrap().materialized(), Some(&text("current")));
    assert_eq!(old.merge(&current).unwrap().materialized(), Some(&text("current")));
}

#[test]
fn missing_parent_is_rejected() {
    let revision = ScalarRevision::new(scalar_rid(2), text("orphan"), scalar_set(&[1]));
    let error = ScalarRegister::from_revisions(vec![revision]).unwrap_err();

    assert_eq!(
        error,
        CoreError::MissingParent {
            revision_id: scalar_rid(2),
            parent_id: scalar_rid(1),
        }
    );
}

#[test]
fn conflicting_reuse_of_revision_id_is_rejected() {
    let left =
        ScalarRegister::from_revisions(vec![ScalarRevision::new(scalar_rid(1), text("left"), RevisionSet::new())])
            .unwrap();
    let right =
        ScalarRegister::from_revisions(vec![ScalarRevision::new(scalar_rid(1), text("right"), RevisionSet::new())])
            .unwrap();

    assert_eq!(
        left.merge(&right).unwrap_err(),
        CoreError::DuplicateRevisionConflict {
            revision_id: scalar_rid(1),
        }
    );
}

#[test]
fn causal_cycle_is_rejected_on_import() {
    let a = ScalarRevision::new(scalar_rid(1), text("a"), scalar_set(&[2]));
    let b = ScalarRevision::new(scalar_rid(2), text("b"), scalar_set(&[1]));

    let error = ScalarRegister::from_revisions(vec![a, b]).unwrap_err();
    assert!(matches!(error, CoreError::CausalCycle { .. }));
}

#[test]
fn empty_register_materializes_nothing() {
    let register = ScalarRegister::new();
    assert!(register.is_empty());
    assert_eq!(register.materialized(), None);
    assert!(register.frontier_ids().is_empty());
    assert!(register.validate().is_ok());
}

#[test]
fn assign_refuses_a_known_revision_identity() {
    let mut register = ScalarRegister::new();
    register.assign(scalar_rid(1), text("first")).unwrap();
    assert_eq!(
        register.assign(scalar_rid(1), text("again")).unwrap_err(),
        CoreError::DuplicateRevisionConflict { revision_id: scalar_rid(1) }
    );
    assert_eq!(register.len(), 1);
}

#[test]
fn identical_revision_reinsertion_is_harmless() {
    let mut register = ScalarRegister::new();
    register.assign(scalar_rid(1), text("base")).unwrap();
    let copy = register.revision(scalar_rid(1)).unwrap().clone();
    register.insert_revision(copy).unwrap();
    assert_eq!(register.len(), 1);

    let forged = ScalarRevision::new(scalar_rid(1), text("other"), RevisionSet::new());
    assert_eq!(
        register.insert_revision(forged).unwrap_err(),
        CoreError::DuplicateRevisionConflict { revision_id: scalar_rid(1) }
    );
}

#[test]
fn dependency_closure_collects_every_ancestor() {
    let mut register = ScalarRegister::new();
    register.assign(scalar_rid(1), text("a")).unwrap();
    register.assign(scalar_rid(2), text("b")).unwrap();
    register.assign(scalar_rid(3), text("c")).unwrap();

    let closure = register.dependency_closure(&scalar_set(&[2])).unwrap();
    assert_eq!(closure, scalar_set(&[1, 2]));

    assert_eq!(
        register.dependency_closure(&scalar_set(&[7])).unwrap_err(),
        CoreError::UnknownRevision { revision_id: scalar_rid(7) }
    );
}

#[test]
fn from_revisions_accepts_any_order() {
    let a = ScalarRevision::new(scalar_rid(1), text("a"), RevisionSet::new());
    let b = ScalarRevision::new(scalar_rid(2), text("b"), scalar_set(&[1]));
    let register = ScalarRegister::from_revisions(vec![b, a]).unwrap();
    assert_eq!(register.materialized(), Some(&text("b")));
    assert_eq!(register.frontier_ids(), scalar_set(&[2]));
}

#[test]
fn cycle_error_names_the_first_statement_the_depth_first_search_meets_again() {
    // 5 -> 7 -> 6 -> 7: the search from 5 reaches 7, then 6, then meets 7
    // again; 5 is not on the cycle and 6 is its smaller member.
    let revisions = vec![
        ScalarRevision::new(scalar_rid(5), text("five"), scalar_set(&[7])),
        ScalarRevision::new(scalar_rid(6), text("six"), scalar_set(&[7])),
        ScalarRevision::new(scalar_rid(7), text("seven"), scalar_set(&[6])),
    ];
    assert_eq!(
        ScalarRegister::from_revisions(revisions).unwrap_err(),
        CoreError::CausalCycle { revision_id: scalar_rid(7) }
    );

    let a = ScalarRevision::new(scalar_rid(1), text("a"), scalar_set(&[2]));
    let b = ScalarRevision::new(scalar_rid(2), text("b"), scalar_set(&[1]));
    assert_eq!(
        ScalarRegister::from_revisions(vec![b, a]).unwrap_err(),
        CoreError::CausalCycle { revision_id: scalar_rid(1) }
    );
}
