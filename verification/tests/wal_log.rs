use oxendb::storage::checksum::crc32c;
use oxendb::storage::file_op::FileOp;
use oxendb::storage::page::{Page, PageId, PageType};
use oxendb::storage::wal::log::{encode_header, WAL_HEADER_SIZE};
use oxendb::storage::wal::{OpenedWal, TxnId, Wal, WalRecord};
use oxendb::{Error, Result};

fn image(txn: u64, page_id: u64, fill: u8) -> WalRecord {
    let mut page = Page::new(PageId(page_id), PageType::Heap);
    page.payload_mut().fill(fill);
    page.seal();
    WalRecord::PageImage {
        txn: TxnId(txn),
        page_id: PageId(page_id),
        page,
    }
}

fn commit(txn: u64) -> WalRecord {
    WalRecord::Commit { txn: TxnId(txn) }
}

fn records_of(opened: &OpenedWal) -> Vec<WalRecord> {
    opened.records.iter().map(|r| r.record.clone()).collect()
}

/// Performs operations on a file held in memory.
fn perform(file: &mut Vec<u8>, ops: &[FileOp]) {
    for op in ops {
        match op {
            FileOp::Write { offset, bytes } => {
                let start = *offset as usize;
                let end = start + bytes.len();
                if file.len() < end {
                    file.resize(end, 0);
                }
                file[start..end].copy_from_slice(bytes);
            }
            FileOp::SetLen(len) => file.resize(*len as usize, 0),
            FileOp::SyncData | FileOp::SyncAll => {}
        }
    }
}

fn create() -> (Wal, Vec<u8>) {
    let (wal, ops) = Wal::create();
    let mut file = Vec::new();
    perform(&mut file, &ops);
    (wal, file)
}

fn open(file: &mut Vec<u8>) -> Result<OpenedWal> {
    let opened = Wal::open(file)?;
    perform(file, &opened.repair);
    Ok(opened)
}

fn flush(wal: &mut Wal, file: &mut Vec<u8>) {
    let ops = wal.flush().unwrap();
    perform(file, &ops);
    wal.flushed(Ok(())).unwrap();
}

fn reset(wal: &mut Wal, file: &mut Vec<u8>) {
    let ops = wal.reset().unwrap();
    perform(file, &ops);
    wal.reset_done(Ok(())).unwrap();
}

#[test]
fn flushed_records_survive_reopen() {
    let written = vec![image(1, 1, 1), image(1, 2, 2), commit(1)];
    let (mut wal, mut file) = create();
    for record in &written {
        wal.append(record).unwrap();
    }
    flush(&mut wal, &mut file);
    let opened = open(&mut file).unwrap();
    assert_eq!(records_of(&opened), written);
    assert_eq!(opened.discarded, None);
    assert_eq!(opened.wal.next_seq(), 3);
}

#[test]
fn unflushed_records_are_lost() {
    let (mut wal, mut file) = create();
    wal.append(&commit(1)).unwrap();
    flush(&mut wal, &mut file);
    wal.append(&commit(2)).unwrap();
    assert_eq!(records_of(&open(&mut file).unwrap()), vec![commit(1)]);
}

#[test]
fn torn_tail_is_discarded_at_every_cut() {
    let (mut wal, mut file) = create();
    wal.append(&commit(1)).unwrap();
    flush(&mut wal, &mut file);
    wal.append(&image(2, 5, 9)).unwrap();
    flush(&mut wal, &mut file);
    let full = file;
    let first_end = WAL_HEADER_SIZE + {
        let mut buf = Vec::new();
        commit(1).encode(0, &mut buf);
        buf.len()
    };
    // Every cut inside the record header, then a sample of the body.
    let cuts = (first_end..first_end + 64)
        .chain((first_end + 64..full.len()).step_by(97))
        .chain(full.len() - 8..full.len());
    for cut in cuts {
        let mut file = full[..cut].to_vec();
        let opened = open(&mut file).unwrap();
        assert_eq!(records_of(&opened), vec![commit(1)], "cut at {cut}");
        assert_eq!(opened.discarded.is_some(), cut > first_end, "cut at {cut}");
        assert_eq!(file.len(), first_end);
    }
}

#[test]
fn appends_after_torn_tail_are_readable() {
    let (mut wal, mut file) = create();
    wal.append(&commit(1)).unwrap();
    flush(&mut wal, &mut file);
    file.extend_from_slice(&[0xEE; 100]);

    let mut opened = open(&mut file).unwrap();
    assert_eq!(opened.discarded.as_ref().unwrap().bytes, 100);
    opened.wal.append(&commit(2)).unwrap();
    flush(&mut opened.wal, &mut file);
    assert_eq!(
        records_of(&open(&mut file).unwrap()),
        vec![commit(1), commit(2)]
    );
}

#[test]
fn reset_empties_log_and_continues_sequence() {
    let (mut wal, mut file) = create();
    wal.append(&commit(1)).unwrap();
    wal.append(&commit(2)).unwrap();
    flush(&mut wal, &mut file);
    reset(&mut wal, &mut file);
    assert_eq!(wal.durable_len(), WAL_HEADER_SIZE as u64);
    wal.append(&commit(3)).unwrap();
    flush(&mut wal, &mut file);
    let opened = open(&mut file).unwrap();
    assert_eq!(records_of(&opened), vec![commit(3)]);
    assert_eq!(opened.records[0].seq, 2);
}

#[test]
fn stale_records_behind_new_header_are_ignored() {
    // Simulates a crash during reset after the header was rewritten but
    // before the file was truncated.
    let (mut wal, mut file) = create();
    wal.append(&commit(1)).unwrap();
    flush(&mut wal, &mut file);
    file[..WAL_HEADER_SIZE].copy_from_slice(&encode_header(1));

    let opened = open(&mut file).unwrap();
    assert!(opened.records.is_empty());
    assert_eq!(opened.wal.next_seq(), 1);
    assert_eq!(
        opened.discarded.unwrap().reason,
        "expected sequence number 1, found 0"
    );
}

#[test]
fn truncated_log_with_stale_header_is_empty() {
    // Simulates a crash during reset after the file was truncated but before
    // the header was rewritten.
    let (mut wal, mut file) = create();
    wal.append(&commit(1)).unwrap();
    flush(&mut wal, &mut file);
    file.truncate(WAL_HEADER_SIZE);
    let opened = open(&mut file).unwrap();
    assert!(opened.records.is_empty());
    assert_eq!(opened.discarded, None);
}

#[test]
fn reset_with_pending_records_is_refused() {
    let (mut wal, _file) = create();
    wal.append(&commit(1)).unwrap();
    assert!(matches!(wal.reset(), Err(Error::InvalidArgument(_))));
}

#[test]
fn rejects_bad_headers() {
    assert!(matches!(
        Wal::open(b"not a wal"),
        Err(Error::UnsupportedFormat(_))
    ));

    let mut header = encode_header(0);
    header[20] ^= 1;
    assert!(matches!(Wal::open(&header), Err(Error::Corruption(_))));
}

#[test]
fn wal_header_layout_is_as_documented() {
    let header = encode_header(0x0102_0304);
    assert_eq!(header[0..4], crc32c(&header[4..]).to_le_bytes());
    assert_eq!(&header[4..12], b"oxenWAL\0");
    assert_eq!(header[12..16], 1u32.to_le_bytes());
    assert_eq!(header[16..24], 0x0102_0304u64.to_le_bytes());

    let mut other = header;
    other[12] = 2;
    let checksum = crc32c(&other[4..]);
    other[0..4].copy_from_slice(&checksum.to_le_bytes());
    assert_eq!(
        Wal::open(&other).unwrap_err().to_string(),
        "unsupported file format: WAL format version 2, this build supports version 1"
    );
}

#[test]
fn failed_flush_poisons_the_log() {
    let (mut wal, _file) = create();
    wal.append(&commit(1)).unwrap();
    assert_eq!(wal.flush().unwrap().len(), 2);
    let err = wal
        .flushed(Err(std::io::Error::other("disk full")))
        .unwrap_err();
    assert_eq!(err.to_string(), "I/O error: disk full");
    assert!(matches!(wal.append(&commit(2)), Err(Error::Poisoned(_))));
    assert!(matches!(wal.flush(), Err(Error::Poisoned(_))));
    assert!(matches!(wal.reset(), Err(Error::Poisoned(_))));
    assert_eq!(wal.next_seq(), 1);
}

#[test]
fn failed_reset_poisons_the_log() {
    let (mut wal, _file) = create();
    assert!(wal
        .reset_done(Err(std::io::Error::other("disk full")))
        .is_err());
    assert!(matches!(wal.flush(), Err(Error::Poisoned(_))));
}

#[test]
fn flushing_nothing_does_nothing() {
    let (wal, _file) = create();
    assert!(wal.flush().unwrap().is_empty());
    assert!(wal.has_room(1));
    assert!(!wal.has_room(u64::MAX));
}

#[test]
fn last_sequence_number_is_never_used() {
    let mut file = encode_header(u64::MAX).to_vec();
    commit(1).encode(u64::MAX, &mut file);
    let opened = open(&mut file).unwrap();
    assert!(opened.records.is_empty());
    assert_eq!(opened.wal.next_seq(), u64::MAX);
    assert!(!opened.wal.has_room(1));
    assert_eq!(
        opened.discarded.unwrap().reason,
        "sequence number 18446744073709551615 is out of range"
    );
}

#[test]
fn full_log_that_failed_is_refused_as_poisoned() {
    let mut file = encode_header(u64::MAX).to_vec();
    let mut wal = open(&mut file).unwrap().wal;
    assert!(!wal.has_room(1));
    assert!(wal
        .reset_done(Err(std::io::Error::other("disk full")))
        .is_err());
    for _ in 0..3 {
        assert!(matches!(wal.append(&commit(1)), Err(Error::Poisoned(_))));
        assert!(matches!(wal.flush(), Err(Error::Poisoned(_))));
        assert!(matches!(wal.reset(), Err(Error::Poisoned(_))));
        assert_eq!(wal.next_seq(), u64::MAX);
        assert_eq!(wal.durable_len(), WAL_HEADER_SIZE as u64);
    }
}
