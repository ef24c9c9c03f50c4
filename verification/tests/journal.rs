use vmstate::errors::StateError;
use vmstate::field_id::FieldId;
use vmstate::finalize::FinalizeOperation;
use vmstate::rollback::RollbackOperation;
use vmstate::store::MappingStore;

const M: u64 = 100;
const K1: u64 = 1;
const K2: u64 = 2;
const V1: u64 = 11;
const V2: u64 = 12;

fn fid(value: u64) -> FieldId {
    FieldId::new(value)
}

#[test]
fn test_initialize_and_insert() {
    let mut store = MappingStore::new();
    assert!(!store.contains_mapping(fid(M)));

    let rb = store.apply(&FinalizeOperation::InitializeMapping(fid(M))).expect("initializes");
    assert_eq!(rb, RollbackOperation::RemoveMapping(fid(M)));
    assert!(store.contains_mapping(fid(M)));
    assert_eq!(store.leaves_of(fid(M)), Some(vec![]));

    let rb = store
        .apply(&FinalizeOperation::InsertKeyValue(fid(M), fid(K1), fid(V1)))
        .expect("inserts");
    assert_eq!(rb, RollbackOperation::RemoveKeyValue(fid(M), 0));
    assert_eq!(store.leaves_of(fid(M)), Some(vec![(fid(K1), fid(V1))]));
}

#[test]
fn test_duplicate_mapping_guard() {
    let mut store = MappingStore::new();
    store.apply(&FinalizeOperation::InitializeMapping(fid(M))).expect("initializes");
    assert_eq!(
        store.apply(&FinalizeOperation::InitializeMapping(fid(M))),
        Err(StateError::AlreadyExists)
    );
}

#[test]
fn test_duplicate_key_guard() {
    let mut store = MappingStore::new();
    store.apply(&FinalizeOperation::InitializeMapping(fid(M))).expect("initializes");
    store.apply(&FinalizeOperation::InsertKeyValue(fid(M), fid(K1), fid(V1))).expect("inserts");
    assert_eq!(
        store.apply(&FinalizeOperation::InsertKeyValue(fid(M), fid(K1), fid(V2))),
        Err(StateError::AlreadyExists)
    );
}

#[test]
fn test_missing_mapping_errors() {
    let mut store = MappingStore::new();
    assert_eq!(
        store.apply(&FinalizeOperation::InsertKeyValue(fid(M), fid(K1), fid(V1))),
        Err(StateError::NotFound)
    );
    assert_eq!(
        store.apply(&FinalizeOperation::UpdateKeyValue(fid(M), 0, fid(K1), fid(V1))),
        Err(StateError::NotFound)
    );
    assert_eq!(
        store.apply(&FinalizeOperation::RemoveKeyValue(fid(M), 0)),
        Err(StateError::NotFound)
    );
    assert_eq!(
        store.apply(&FinalizeOperation::RemoveMapping(fid(M))),
        Err(StateError::NotFound)
    );
}

#[test]
fn test_index_out_of_range() {
    let mut store = MappingStore::new();
    store.apply(&FinalizeOperation::InitializeMapping(fid(M))).expect("initializes");
    store.apply(&FinalizeOperation::InsertKeyValue(fid(M), fid(K1), fid(V1))).expect("inserts");
    assert_eq!(
        store.apply(&FinalizeOperation::UpdateKeyValue(fid(M), 1, fid(K1), fid(V2))),
        Err(StateError::OutOfRange)
    );
    assert_eq!(
        store.apply(&FinalizeOperation::RemoveKeyValue(fid(M), 1)),
        Err(StateError::OutOfRange)
    );
}

#[test]
fn test_insert_remove_symmetry() {
    let mut store = MappingStore::new();
    store.apply(&FinalizeOperation::InitializeMapping(fid(M))).expect("initializes");
    store.apply(&FinalizeOperation::InsertKeyValue(fid(M), fid(K1), fid(V1))).expect("inserts");
    let before = store.leaves_of(fid(M)).expect("exists");

    let rb = store
        .apply(&FinalizeOperation::InsertKeyValue(fid(M), fid(K2), fid(V2)))
        .expect("inserts");
    let assigned = match rb {
        RollbackOperation::RemoveKeyValue(_, index) => index,
        _ => panic!("unexpected rollback shape"),
    };
    assert_eq!(assigned, 1);

    store.apply(&FinalizeOperation::RemoveKeyValue(fid(M), assigned)).expect("removes");
    assert_eq!(store.leaves_of(fid(M)).expect("exists"), before);
}

#[test]
fn test_update_rollback_restores_pair() {
    let mut store = MappingStore::new();
    store.apply(&FinalizeOperation::InitializeMapping(fid(M))).expect("initializes");
    store.apply(&FinalizeOperation::InsertKeyValue(fid(M), fid(K1), fid(V1))).expect("inserts");
    let rb = store
        .apply(&FinalizeOperation::UpdateKeyValue(fid(M), 0, fid(K1), fid(V2)))
        .expect("updates");
    assert_eq!(rb, RollbackOperation::UpdateKeyValue(fid(M), 0, fid(K1), fid(V1)));
    assert_eq!(store.leaves_of(fid(M)), Some(vec![(fid(K1), fid(V2))]));

    store.rollback(&rb).expect("rolls back");
    assert_eq!(store.leaves_of(fid(M)), Some(vec![(fid(K1), fid(V1))]));
}

#[test]
fn test_remove_rollback_reseats_leaf() {
    let mut store = MappingStore::new();
    store.apply(&FinalizeOperation::InitializeMapping(fid(M))).expect("initializes");
    store.apply(&FinalizeOperation::InsertKeyValue(fid(M), fid(K1), fid(V1))).expect("inserts");
    store.apply(&FinalizeOperation::InsertKeyValue(fid(M), fid(K2), fid(V2))).expect("inserts");
    let before = store.leaves_of(fid(M)).expect("exists");

    // Remove the first leaf, then undo it: the second leaf's index
    // compacts to 0 and the re-seat restores the exact prior layout.
    let rb = store.apply(&FinalizeOperation::RemoveKeyValue(fid(M), 0)).expect("removes");
    assert_eq!(rb, RollbackOperation::InsertKeyValue(fid(M), 0, fid(K1), fid(V1)));
    assert_eq!(store.leaves_of(fid(M)), Some(vec![(fid(K2), fid(V2))]));

    store.rollback(&rb).expect("rolls back");
    assert_eq!(store.leaves_of(fid(M)).expect("exists"), before);
}

#[test]
fn test_remove_mapping_rollback_restores_snapshot() {
    let mut store = MappingStore::new();
    store.apply(&FinalizeOperation::InitializeMapping(fid(M))).expect("initializes");
    store.apply(&FinalizeOperation::InsertKeyValue(fid(M), fid(K1), fid(V1))).expect("inserts");
    store.apply(&FinalizeOperation::InsertKeyValue(fid(M), fid(K2), fid(V2))).expect("inserts");
    let before = store.leaves_of(fid(M)).expect("exists");

    let rb = store.apply(&FinalizeOperation::RemoveMapping(fid(M))).expect("removes");
    assert!(!store.contains_mapping(fid(M)));

    store.rollback(&rb).expect("rolls back");
    assert_eq!(store.leaves_of(fid(M)).expect("exists"), before);
}

#[test]
fn test_restore_existing_mapping_refused() {
    let mut store = MappingStore::new();
    store.apply(&FinalizeOperation::InitializeMapping(fid(M))).expect("initializes");
    let rb = RollbackOperation::RestoreMapping(fid(M), vec![(fid(K1), fid(V1))]);
    assert_eq!(store.rollback(&rb), Err(StateError::AlreadyExists));
}

#[test]
fn test_journal_rollback_scenario() {
    // Journal [InitializeMapping(M), InsertKeyValue(M,K1,V1),
    // UpdateKeyValue(M,0,K1,V2)] applied, then rolled back in reverse,
    // restores the pre-journal (non-existent) state of mapping M.
    let mut store = MappingStore::new();
    let journal = vec![
        FinalizeOperation::InitializeMapping(fid(M)),
        FinalizeOperation::InsertKeyValue(fid(M), fid(K1), fid(V1)),
        FinalizeOperation::UpdateKeyValue(fid(M), 0, fid(K1), fid(V2)),
    ];
    let rollbacks = store.apply_journal(&journal).expect("applies");
    assert_eq!(store.leaves_of(fid(M)), Some(vec![(fid(K1), fid(V2))]));
    assert_eq!(rollbacks.len(), 3);

    store.rollback_journal(&rollbacks).expect("rolls back");
    assert!(!store.contains_mapping(fid(M)));
}

#[test]
fn test_journal_atomicity_on_failure() {
    // The third entry repeats key K1, so the whole block is refused and
    // every already-applied entry is undone before the call returns.
    let mut store = MappingStore::new();
    let journal = vec![
        FinalizeOperation::InitializeMapping(fid(M)),
        FinalizeOperation::InsertKeyValue(fid(M), fid(K1), fid(V1)),
        FinalizeOperation::InsertKeyValue(fid(M), fid(K1), fid(V2)),
    ];
    assert_eq!(store.apply_journal(&journal), Err(StateError::AlreadyExists));
    assert!(!store.contains_mapping(fid(M)));
}

#[test]
fn test_rollback_mapping_id() {
    assert_eq!(RollbackOperation::RemoveMapping(fid(M)).mapping_id(), fid(M));
    assert_eq!(RollbackOperation::RemoveKeyValue(fid(M), 0).mapping_id(), fid(M));
    assert_eq!(RollbackOperation::UpdateKeyValue(fid(M), 0, fid(K1), fid(V1)).mapping_id(), fid(M));
    assert_eq!(RollbackOperation::InsertKeyValue(fid(M), 0, fid(K1), fid(V1)).mapping_id(), fid(M));
    assert_eq!(RollbackOperation::RestoreMapping(fid(M), vec![]).mapping_id(), fid(M));
}
