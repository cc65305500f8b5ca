use storage_dump::diff::{BlockStateUpdate, ContractStorageDiff, StorageEntry};
use storage_dump::dump::{DumpState, StorageValue};
use storage_dump::felt::Felt;

fn felt(v: u128) -> Felt {
    Felt::from_u128(v)
}

fn stored(v: u128, block: u64) -> Option<StorageValue> {
    Some(StorageValue { value: felt(v), last_updated_block: block })
}

fn entry(key: u128, value: u128) -> StorageEntry {
    StorageEntry { key: felt(key), value: felt(value) }
}

#[test]
fn merge_into_empty_inserts() {
    let mut state = DumpState::new();
    state.merge(felt(1), felt(0xA), 7);
    assert_eq!(state.get(felt(1)), stored(0xA, 7));
    assert_eq!(state.get(felt(2)), None);
}

#[test]
fn merge_same_write_twice_is_idempotent() {
    let mut once = DumpState::new();
    once.merge(felt(5), felt(0x55), 12);
    let mut twice = DumpState::new();
    twice.merge(felt(5), felt(0x55), 12);
    twice.merge(felt(5), felt(0x55), 12);
    assert_eq!(once.slots(), twice.slots());
    assert_eq!(twice.get(felt(5)), stored(0x55, 12));
}

#[test]
fn merge_order_does_not_matter() {
    let mut a = DumpState::new();
    a.merge(felt(3), felt(0x1), 10);
    a.merge(felt(3), felt(0x2), 20);
    let mut b = DumpState::new();
    b.merge(felt(3), felt(0x2), 20);
    b.merge(felt(3), felt(0x1), 10);
    assert_eq!(a.get(felt(3)), stored(0x2, 20));
    assert_eq!(b.get(felt(3)), stored(0x2, 20));
    assert_eq!(a.slots(), b.slots());
}

#[test]
fn merge_keeps_highest_block_in_any_order() {
    let writes = [(0x10u128, 104u64), (0x11, 101), (0x12, 109), (0x13, 103), (0x14, 100)];
    let mut state = DumpState::new();
    for (value, block) in writes {
        state.merge(felt(9), felt(value), block);
    }
    assert_eq!(state.get(felt(9)), stored(0x12, 109));
    let mut reversed = DumpState::new();
    for (value, block) in writes.iter().rev() {
        reversed.merge(felt(9), felt(*value), *block);
    }
    assert_eq!(reversed.get(felt(9)), stored(0x12, 109));
}

#[test]
fn merge_equal_block_keeps_first_value() {
    let mut state = DumpState::new();
    state.merge(felt(4), felt(0xAA), 30);
    state.merge(felt(4), felt(0xBB), 30);
    assert_eq!(state.get(felt(4)), stored(0xAA, 30));
}

#[test]
fn merge_block_applies_entries_in_order() {
    let mut state = DumpState::new();
    state.merge(felt(2), felt(0x99), 50);
    state.merge_block(&vec![entry(1, 0xA), entry(2, 0xB)], 40);
    assert_eq!(state.get(felt(1)), stored(0xA, 40));
    assert_eq!(state.get(felt(2)), stored(0x99, 50));
}

#[test]
fn slots_are_sorted_by_key() {
    let mut state = DumpState::new();
    state.merge(Felt::new(1, 0), felt(0x3), 1);
    state.merge(felt(0xFF), felt(0x2), 2);
    state.merge(felt(0x2), felt(0x1), 3);
    let keys: Vec<Felt> = state.slots().iter().map(|s| s.key).collect();
    assert_eq!(keys, vec![felt(0x2), felt(0xFF), Felt::new(1, 0)]);
    assert_eq!(state.slots()[1].value, StorageValue { value: felt(0x2), last_updated_block: 2 });
}

#[test]
fn slots_of_empty_state() {
    assert!(DumpState::new().slots().is_empty());
}

#[test]
fn filter_without_contract_is_empty() {
    let update = BlockStateUpdate {
        storage_diffs: vec![ContractStorageDiff {
            address: felt(0x77),
            storage_entries: vec![entry(1, 2)],
        }],
    };
    assert!(update.filter(felt(0x42)).is_empty());
    let empty = BlockStateUpdate { storage_diffs: vec![] };
    assert!(empty.filter(felt(0x42)).is_empty());
}

#[test]
fn filter_keeps_matching_entries_in_order() {
    let update = BlockStateUpdate {
        storage_diffs: vec![
            ContractStorageDiff { address: felt(0x42), storage_entries: vec![entry(3, 30), entry(1, 10)] },
            ContractStorageDiff { address: felt(0x77), storage_entries: vec![entry(9, 90)] },
            ContractStorageDiff { address: felt(0x42), storage_entries: vec![entry(2, 20)] },
        ],
    };
    assert_eq!(update.filter(felt(0x42)), vec![entry(3, 30), entry(1, 10), entry(2, 20)]);
    assert_eq!(update.filter(felt(0x77)), vec![entry(9, 90)]);
}
