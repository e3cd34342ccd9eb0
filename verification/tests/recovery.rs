use oxendb::storage::disk::DiskManager;
use oxendb::storage::file_header::FileHeader;
use oxendb::storage::file_op::FileOp;
use oxendb::storage::page::{Page, PageId, PageType, PAGE_SIZE};
use oxendb::storage::recovery::{self, RecoveryStats};
use oxendb::storage::wal::record::DecodedRecord;
use oxendb::storage::wal::{TxnId, WalRecord};
use oxendb::{Error, Result};

fn sealed(id: u64, fill: u8) -> Page {
    let mut page = Page::new(PageId(id), PageType::Heap);
    page.payload_mut().fill(fill);
    page.seal();
    page
}

fn image(txn: u64, page: Page) -> WalRecord {
    WalRecord::PageImage {
        txn: TxnId(txn),
        page_id: page.page_id(),
        page,
    }
}

fn header_image(txn: u64, page_count: u64) -> WalRecord {
    WalRecord::PageImage {
        txn: TxnId(txn),
        page_id: PageId::header(),
        page: FileHeader { page_count }.encode(),
    }
}

fn commit(txn: u64) -> WalRecord {
    WalRecord::Commit { txn: TxnId(txn) }
}

fn decoded(records: Vec<WalRecord>) -> Vec<DecodedRecord> {
    records
        .into_iter()
        .enumerate()
        .map(|(seq, record)| DecodedRecord {
            seq: seq as u64,
            record,
            len: 0,
        })
        .collect()
}

/// Performs operations on a file held in memory.
fn perform(file: &mut Vec<u8>, ops: &[FileOp]) {
    for op in ops {
        match op {
            FileOp::Write { offset, bytes } => {
                let start = *offset as usize;
                let end = start + bytes.len();
                if file.len() < end {
                    file.resize(end, 0);
                }
                file[start..end].copy_from_slice(bytes);
            }
            FileOp::SetLen(len) => file.resize(*len as usize, 0),
            FileOp::SyncData | FileOp::SyncAll => {}
        }
    }
}

fn new_db() -> Vec<u8> {
    let (_, ops) = DiskManager::create();
    let mut file = Vec::new();
    perform(&mut file, &ops);
    file
}

fn replay(file: &mut Vec<u8>, records: &[DecodedRecord]) -> Result<RecoveryStats> {
    let replay = recovery::replay(records)?;
    perform(file, &replay.ops);
    Ok(replay.stats)
}

fn page_at(file: &[u8], id: PageId) -> Page {
    let mut page = Page::zeroed();
    let start = id.file_offset() as usize;
    page.as_bytes_mut()
        .copy_from_slice(&file[start..start + PAGE_SIZE]);
    page
}

fn open(file: &[u8]) -> Result<DiskManager> {
    DiskManager::open(file.len() as u64, &page_at(file, PageId::header()))
}

fn read(disk: &DiskManager, file: &[u8], id: PageId) -> Page {
    disk.read_page(id, Ok(page_at(file, id))).unwrap()
}

#[test]
fn replays_committed_and_ignores_incomplete() {
    let mut file = new_db();
    let records = decoded(vec![
        header_image(1, 3),
        image(1, sealed(1, 10)),
        image(1, sealed(2, 20)),
        commit(1),
        image(2, sealed(1, 99)),
    ]);
    let stats = replay(&mut file, &records).unwrap();
    assert_eq!(
        stats,
        RecoveryStats {
            committed_txns: 1,
            incomplete_txns: 1,
            pages_restored: 3
        }
    );

    let disk = open(&file).unwrap();
    assert_eq!(disk.page_count(), 3);
    assert_eq!(read(&disk, &file, PageId(1)).payload()[0], 10);
    assert_eq!(read(&disk, &file, PageId(2)).payload()[0], 20);
}

#[test]
fn later_commits_win() {
    let mut file = new_db();
    let records = decoded(vec![
        header_image(1, 2),
        image(1, sealed(1, 1)),
        commit(1),
        image(2, sealed(1, 2)),
        commit(2),
    ]);
    replay(&mut file, &records).unwrap();
    let disk = open(&file).unwrap();
    assert_eq!(read(&disk, &file, PageId(1)).payload()[0], 2);
}

#[test]
fn repairs_torn_data_page_and_header() {
    let mut file = new_db();
    let records = decoded(vec![header_image(1, 2), image(1, sealed(1, 5)), commit(1)]);
    replay(&mut file, &records).unwrap();

    // Tear both the header and the data page.
    file[..512].fill(0xAA);
    file[PAGE_SIZE + 2048..PAGE_SIZE + 2048 + 512].fill(0xBB);
    assert!(open(&file).is_err());

    replay(&mut file, &records).unwrap();
    let disk = open(&file).unwrap();
    assert_eq!(read(&disk, &file, PageId(1)).payload()[0], 5);
}

#[test]
fn replay_is_idempotent() {
    let mut file = new_db();
    let records = decoded(vec![header_image(1, 2), image(1, sealed(1, 5)), commit(1)]);
    replay(&mut file, &records).unwrap();
    let first = file.clone();
    replay(&mut file, &records).unwrap();
    assert_eq!(file, first);
}

#[test]
fn empty_log_touches_nothing() {
    let mut file = new_db();
    let before = file.clone();
    assert_eq!(replay(&mut file, &[]).unwrap(), RecoveryStats::default());
    assert_eq!(file, before);
    assert!(recovery::replay(&[]).unwrap().ops.is_empty());
}

#[test]
fn refuses_invalid_committed_image() {
    let mut file = new_db();
    let mut bad = sealed(1, 5);
    bad.payload_mut()[0] = 6; // modified after sealing
    let records = decoded(vec![image(1, bad), commit(1)]);
    assert!(matches!(
        replay(&mut file, &records),
        Err(Error::Corruption(_))
    ));
}

#[test]
fn invalid_image_is_named() {
    let mut bad = sealed(1, 5);
    bad.as_bytes_mut()[4] = 9;
    bad.seal();
    let records = decoded(vec![commit(1), image(1, bad)]);
    assert_eq!(
        recovery::replay(&records).unwrap_err().to_string(),
        "data corruption detected: WAL record 1 holds an invalid image of page 1: \
         data corruption detected: page 1: unknown page type 9"
    );
}

#[test]
fn invalid_uncommitted_image_is_ignored() {
    let mut bad = sealed(1, 5);
    bad.payload_mut()[0] = 6;
    let records = decoded(vec![image(1, bad)]);
    let replay = recovery::replay(&records).unwrap();
    assert!(replay.ops.is_empty());
    assert_eq!(replay.stats.incomplete_txns, 1);
}

#[test]
fn writes_pages_in_file_order_then_syncs() {
    let records = decoded(vec![
        image(1, sealed(3, 3)),
        image(1, sealed(1, 1)),
        image(1, sealed(2, 2)),
        image(1, sealed(1, 7)),
        commit(1),
    ]);
    let replay = recovery::replay(&records).unwrap();
    let expected = vec![
        FileOp::write(PAGE_SIZE as u64, sealed(1, 7).as_bytes()),
        FileOp::write(2 * PAGE_SIZE as u64, sealed(2, 2).as_bytes()),
        FileOp::write(3 * PAGE_SIZE as u64, sealed(3, 3).as_bytes()),
        FileOp::SyncAll,
    ];
    assert_eq!(replay.ops, expected);
}

#[test]
fn interrupted_replay_can_be_repeated() {
    let records = decoded(vec![
        header_image(1, 4),
        image(1, sealed(1, 10)),
        image(1, sealed(2, 20)),
        image(1, sealed(3, 30)),
        commit(1),
    ]);
    let mut whole = new_db();
    replay(&mut whole, &records).unwrap();
    let ops = recovery::replay(&records).unwrap().ops;
    for done in 0..ops.len() {
        let mut file = new_db();
        perform(&mut file, &ops[..done]);
        if let FileOp::Write { offset, bytes } = &ops[done] {
            // The next page is torn in the middle.
            perform(&mut file, &[FileOp::write(*offset, &bytes[..1000])]);
        }
        replay(&mut file, &records).unwrap();
        assert_eq!(file, whole, "interrupted at {done}");
    }
}

#[test]
fn any_valid_page_is_a_valid_image() {
    for id in [1, (1 << 52) - 2, (1 << 52) - 1, 1 << 52, u64::MAX] {
        assert!(recovery::validate_image(PageId(id), &sealed(id, 7), 3).is_ok());
    }
    assert!(recovery::validate_image(PageId(1), &sealed(2, 7), 3).is_err());
}

#[test]
fn last_page_with_an_offset_is_replayed() {
    let id = (1 << 52) - 1;
    let records = decoded(vec![image(1, sealed(id, 7)), commit(1)]);
    let replay = recovery::replay(&records).unwrap();
    assert_eq!(replay.stats.pages_restored, 1);
    assert_eq!(
        replay.ops,
        vec![
            FileOp::Write {
                offset: u64::MAX - 4095,
                bytes: sealed(id, 7).as_bytes().to_vec(),
            },
            FileOp::SyncAll,
        ]
    );
}

#[test]
fn page_without_an_offset_is_refused() {
    let id = 1 << 52;
    let records = decoded(vec![
        image(1, sealed(1, 7)),
        image(1, sealed(id, 7)),
        commit(1),
    ]);
    let err = recovery::replay(&records).unwrap_err();
    assert_eq!(
        err.to_string(),
        "data corruption detected: WAL holds an image of page 4503599627370496, \
         which starts beyond the largest file offset"
    );
    // Not committed, it does not matter.
    assert!(recovery::replay(&decoded(vec![image(1, sealed(id, 7))])).is_ok());
}

#[test]
fn invalid_image_is_reported_before_a_page_without_an_offset() {
    let mut bad = sealed(1, 7);
    bad.as_bytes_mut()[100] ^= 1;
    let records = decoded(vec![
        image(1, sealed(1 << 52, 7)),
        image(1, bad),
        commit(1),
    ]);
    let err = recovery::replay(&records).unwrap_err();
    assert!(err.to_string().contains("WAL record 1 holds an invalid image of page 1"));
}
