use storage_dump::diff::{BlockStateUpdate, ContractStorageDiff, StorageEntry};
use storage_dump::dump::{StorageSlot, StorageValue};
use storage_dump::felt::Felt;
use storage_dump::scan::{Config, FetchError, Scan, ScanError};

fn felt(v: u128) -> Felt {
    Felt::from_u128(v)
}

fn block(contract: u128, entries: &[(u128, u128)]) -> BlockStateUpdate {
    BlockStateUpdate {
        storage_diffs: vec![ContractStorageDiff {
            address: felt(contract),
            storage_entries: entries
                .iter()
                .map(|(k, v)| StorageEntry { key: felt(*k), value: felt(*v) })
                .collect(),
        }],
    }
}

fn slot(key: u128, value: u128, block: u64) -> StorageSlot {
    StorageSlot { key: felt(key), value: StorageValue { value: felt(value), last_updated_block: block } }
}

#[test]
fn scan_rejects_inverted_range() {
    let config = Config { from_block: 10, to_block: 9, contract: felt(1) };
    assert!(matches!(Scan::start(config), Err(ScanError::InvalidRange)));
}

#[test]
fn scan_accepts_single_block_range() {
    let config = Config { from_block: 10, to_block: 10, contract: felt(1) };
    let scan = Scan::start(config).ok().unwrap();
    assert_eq!(scan.config_of(), config);
    let report = scan.finish();
    assert!(report.storage.slots().is_empty());
    assert!(report.failed.is_empty());
}

#[test]
fn scan_end_to_end() {
    let contract = 0xC0DE;
    let config = Config { from_block: 100, to_block: 102, contract: felt(contract) };
    let mut scan = Scan::start(config).ok().unwrap();
    scan.record(102, Ok(block(contract, &[(0x1, 0xB), (0x2, 0xC)])));
    scan.record(100, Ok(block(contract, &[(0x1, 0xA)])));
    scan.record(101, Ok(block(0xBEEF, &[(0x1, 0xF)])));
    let report = scan.finish();
    assert_eq!(report.storage.slots(), vec![slot(0x1, 0xB, 102), slot(0x2, 0xC, 102)]);
    assert!(report.failed.is_empty());
}

#[test]
fn scan_tolerates_failed_height() {
    let contract = 0x5;
    let config = Config { from_block: 40, to_block: 45, contract: felt(contract) };
    let mut scan = Scan::start(config).ok().unwrap();
    scan.record(43, Ok(block(contract, &[(0x3, 0x43)])));
    scan.record(40, Ok(block(contract, &[(0x1, 0x40), (0x3, 0x40)])));
    scan.record(42, Err(FetchError::Network));
    scan.record(45, Ok(block(contract, &[(0x5, 0x45)])));
    scan.record(41, Ok(block(contract, &[(0x1, 0x41)])));
    scan.record(44, Ok(block(contract, &[])));
    let report = scan.finish();
    assert_eq!(
        report.storage.slots(),
        vec![slot(0x1, 0x41, 41), slot(0x3, 0x43, 43), slot(0x5, 0x45, 45)]
    );
    assert_eq!(report.failed, vec![42]);
}

#[test]
fn scan_ignores_heights_outside_range() {
    let contract = 0x5;
    let config = Config { from_block: 40, to_block: 45, contract: felt(contract) };
    let mut scan = Scan::start(config).ok().unwrap();
    scan.record(46, Ok(block(contract, &[(0x1, 0x46)])));
    scan.record(39, Err(FetchError::NotFound));
    scan.record(44, Ok(block(contract, &[(0x1, 0x44)])));
    let report = scan.finish();
    assert_eq!(report.storage.slots(), vec![slot(0x1, 0x44, 44)]);
    assert!(report.failed.is_empty());
}

#[test]
fn scan_reports_every_failure() {
    let config = Config { from_block: 1, to_block: 3, contract: felt(7) };
    let mut scan = Scan::start(config).ok().unwrap();
    scan.record(3, Err(FetchError::Malformed));
    scan.record(1, Err(FetchError::NotFound));
    scan.record(2, Ok(block(7, &[(0x9, 0x1)])));
    let report = scan.finish();
    assert_eq!(report.failed, vec![3, 1]);
    assert_eq!(report.storage.slots(), vec![slot(0x9, 0x1, 2)]);
}
