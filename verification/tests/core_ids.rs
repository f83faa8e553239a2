use apc::id::{AtomId, RevisionId, WorkingEpochId, LOGICAL_ID_BYTES};

#[test]
fn canonical_order_is_unsigned_lexicographic_bytes() {
    let mut lower = [0_u8; LOGICAL_ID_BYTES];
    let mut higher = [0_u8; LOGICAL_ID_BYTES];
    lower[0] = 0x7f;
    higher[0] = 0x80;

    assert!(RevisionId::from_bytes(lower) < RevisionId::from_bytes(higher));
}

#[test]
fn typed_ids_do_not_interchange_implicitly() {
    let bytes = [7_u8; LOGICAL_ID_BYTES];
    let atom = AtomId::from_bytes(bytes);
    let revision = RevisionId::from_bytes(bytes);
    let working_epoch = WorkingEpochId::from_bytes(bytes);

    assert_eq!(atom.into_bytes(), revision.into_bytes());
    assert_eq!(working_epoch.into_bytes(), revision.into_bytes());
}

#[test]
fn id_comparison_matches_canonical_byte_order() {
    let mut low = [0_u8; LOGICAL_ID_BYTES];
    let mut high = [0_u8; LOGICAL_ID_BYTES];
    low[31] = 1;
    high[30] = 1;
    let a = RevisionId::from_bytes(low);
    let b = RevisionId::from_bytes(high);
    assert_eq!(a.compare(&b), -1);
    assert_eq!(b.compare(&a), 1);
    assert_eq!(a.compare(&a), 0);
    assert!(a.same(&a));
    assert!(!a.same(&b));
}
