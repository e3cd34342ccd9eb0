//! Simulated crashes during a WAL write.
//!
//! A crash while a commit's records are being written can leave any prefix
//! of them on disk, and because the OS may persist blocks out of order,
//! even a later part without an earlier one. None of these partial states
//! was acknowledged as committed, so recovery must discard all of them.

use oxendb::db::{
    wal_path_for, Database, OpenPlan, Opening, Options, PageMut, PageStep, Publish,
    ReadTxn, TxnPage, WriteTxn,
};
use oxendb::storage::buffer_pool::PageHandle;
use oxendb::storage::disk::DiskManager;
use oxendb::storage::file_op::FileOp;
use oxendb::storage::page::{Page, PageId, PageType, PAGE_SIZE};
use oxendb::Result;

const COUNTERS: u64 = 4;
const COMMITTED: u64 = 5;

/// The two files of a database, held in memory.
#[derive(Clone, Default)]
struct Store {
    data: Option<Vec<u8>>,
    wal: Option<Vec<u8>>,
}

/// An open database and its files.
#[derive(Debug)]
struct Db {
    core: Database,
    data: Vec<u8>,
    wal: Vec<u8>,
}

fn perform(file: &mut Vec<u8>, ops: &[FileOp]) {
    for op in ops {
        match op {
            FileOp::Write { offset, bytes } => {
                let start = *offset as usize;
                let end = start + bytes.len();
                if file.len() < end {
                    file.resize(end, 0);
                }
                file[start..end].copy_from_slice(bytes);
            }
            FileOp::SetLen(len) => file.resize(*len as usize, 0),
            FileOp::SyncData | FileOp::SyncAll => {}
        }
    }
}

fn page_at(file: &[u8], offset: u64) -> Page {
    let mut page = Page::zeroed();
    let start = offset as usize;
    if file.len() >= start + PAGE_SIZE {
        page.as_bytes_mut()
            .copy_from_slice(&file[start..start + PAGE_SIZE]);
    }
    page
}

impl Db {
    fn open(store: Store, options: Options) -> Result<Db> {
        let path = "app.oxen";
        let wal_path = wal_path_for(path)?;
        let plan = Database::open(
            path,
            &wal_path,
            store.data.is_some(),
            store.wal.is_some(),
            &options,
        )?;
        let mut data = store.data.unwrap_or_default();
        let mut wal = store.wal.unwrap_or_default();
        let core = match plan {
            OpenPlan::Create => {
                let (core, data_ops, wal_ops) = Database::create(&options);
                perform(&mut data, &data_ops);
                perform(&mut wal, &wal_ops);
                core?
            }
            OpenPlan::CreateWal => {
                let disk = DiskManager::open(data.len() as u64, &page_at(&data, 0))?;
                let (core, ops) = Database::create_wal(disk, &options);
                perform(&mut wal, &ops);
                core?
            }
            OpenPlan::Recover => {
                let (opening, ops) = Opening::new(&wal)?;
                perform(&mut wal, &ops);
                let (replaying, ops) = opening.replay()?;
                perform(&mut data, &ops);
                let (resetting, ops) =
                    replaying.open_data(data.len() as u64, &page_at(&data, 0))?;
                perform(&mut wal, &ops);
                resetting.finish(Ok(()), &options)?
            }
        };
        Ok(Db { core, data, wal })
    }

    fn into_store(self) -> Store {
        Store {
            data: Some(self.data),
            wal: Some(self.wal),
        }
    }

    /// Does what a step asks for; returns the handle once there is one.
    fn advance(&mut self, id: PageId, step: PageStep) -> Result<Option<PageHandle>> {
        match step {
            PageStep::Ready(handle) => Ok(Some(handle)),
            PageStep::Read(offset) => {
                let found = page_at(&self.data, offset);
                self.core.page_read(id, Ok(found)).map(Some)
            }
            PageStep::Write(frame, op) => {
                perform(&mut self.data, &[op]);
                self.core.page_written(frame, Ok(()))?;
                Ok(None)
            }
        }
    }

    /// Reads a page in a read transaction.
    fn read<R>(&mut self, txn: &ReadTxn, id: PageId, f: impl FnOnce(&Page) -> R) -> Result<R> {
        loop {
            let step = txn.read_page(&mut self.core, id)?;
            if let Some(handle) = self.advance(id, step)? {
                let value = f(self.core.page(&handle));
                self.core.unpin(handle);
                return Ok(value);
            }
        }
    }

    /// Reads a page in a write transaction.
    fn read_own<R>(&mut self, txn: &WriteTxn, id: PageId, f: impl FnOnce(&Page) -> R) -> Result<R> {
        loop {
            let step = match txn.read_page(&mut self.core, id)? {
                TxnPage::Own(page) => return Ok(f(page)),
                TxnPage::Committed(step) => step,
            };
            if let Some(handle) = self.advance(id, step)? {
                let value = f(self.core.page(&handle));
                self.core.unpin(handle);
                return Ok(value);
            }
        }
    }

    /// Changes a page in a write transaction.
    fn change(&mut self, txn: &mut WriteTxn, id: PageId, f: impl FnOnce(&mut Page)) -> Result<()> {
        loop {
            let step = match txn.page_mut(&mut self.core, id)? {
                PageMut::Page(page) => {
                    f(page);
                    return Ok(());
                }
                PageMut::Pending(step) => step,
            };
            if let Some(handle) = self.advance(id, step)? {
                self.core.unpin(handle);
            }
        }
    }

    /// Commits a transaction, and checkpoints if it is time.
    fn commit(&mut self, txn: WriteTxn) -> Result<()> {
        assert!(txn.fits(&self.core));
        let mut commit = match txn.commit(&mut self.core)? {
            Some(commit) => commit,
            None => return Ok(()),
        };
        perform(&mut self.wal, commit.log_ops());
        self.core.commit_logged(Ok(()))?;
        loop {
            match self.core.publish(&mut commit)? {
                Publish::Done => break,
                Publish::Installed => {}
                Publish::Write(frame, op) => {
                    perform(&mut self.data, &[op]);
                    self.core.publish_written(frame, Ok(()))?;
                }
            }
        }
        if self.core.wants_checkpoint() {
            self.checkpoint()?;
        }
        Ok(())
    }

    fn checkpoint(&mut self) -> Result<()> {
        let ops = self.core.checkpoint()?;
        perform(&mut self.data, &ops);
        let ops = self.core.checkpoint_written(Ok(()))?;
        perform(&mut self.wal, &ops);
        self.core.checkpoint_done(Ok(()))
    }
}

fn read_u64(page: &Page) -> u64 {
    u64::from_le_bytes(page.payload()[..8].try_into().unwrap())
}

fn write_u64(page: &mut Page, value: u64) {
    page.payload_mut()[..8].copy_from_slice(&value.to_le_bytes());
}

/// Options that keep every page in memory and never checkpoint on their own,
/// so the data file only changes when a test says so.
fn quiet_options() -> Options {
    Options {
        buffer_pool_pages: 1024,
        auto_checkpoint_bytes: None,
        ..Options::default()
    }
}

/// Creates `count` heap pages holding 0 and returns their ids.
fn create_counters(db: &mut Db, count: u64) -> Vec<PageId> {
    let mut txn = db.core.begin_write().unwrap();
    let ids: Vec<PageId> = (0..count)
        .map(|_| txn.allocate_page(PageType::Heap))
        .collect();
    for &id in &ids {
        db.change(&mut txn, id, |page| write_u64(page, 0)).unwrap();
    }
    db.commit(txn).unwrap();
    ids
}

/// Sets every counter page to `value` in one transaction.
fn set_all(db: &mut Db, ids: &[PageId], value: u64) {
    let mut txn = db.core.begin_write().unwrap();
    for &id in ids {
        db.change(&mut txn, id, |page| write_u64(page, value))
            .unwrap();
    }
    db.commit(txn).unwrap();
}

/// Reads every counter and asserts they all hold the same value, which
/// shows no transaction was partially applied. Returns that value.
fn read_uniform(db: &mut Db, ids: &[PageId]) -> u64 {
    let read = db.core.begin_read().unwrap();
    let values: Vec<u64> = ids
        .iter()
        .map(|&id| db.read(&read, id, read_u64).unwrap())
        .collect();
    assert!(
        values.iter().all(|&v| v == values[0]),
        "partially applied transaction: {values:?}"
    );
    values[0]
}

/// Files captured after `COMMITTED` commits, plus the bytes the next commit
/// appends to the WAL.
struct Scenario {
    data_before: Vec<u8>,
    wal_before: Vec<u8>,
    next_commit: Vec<u8>,
    ids: Vec<PageId>,
}

fn scenario() -> Scenario {
    let mut db = Db::open(Store::default(), quiet_options()).unwrap();
    let ids = create_counters(&mut db, COUNTERS);
    for value in 1..=COMMITTED {
        set_all(&mut db, &ids, value);
    }
    let data_before = db.data.clone();
    let wal_before = db.wal.clone();
    set_all(&mut db, &ids, COMMITTED + 1);
    let wal_after = db.wal.clone();

    assert_eq!(
        db.data, data_before,
        "data file changed without checkpoint"
    );
    assert_eq!(&wal_after[..wal_before.len()], &wal_before[..]);
    let next_commit = wal_after[wal_before.len()..].to_vec();
    Scenario {
        data_before,
        wal_before,
        next_commit,
        ids,
    }
}

/// Restores the pre-commit data file, installs `wal`, recovers, and returns
/// the counters' common value.
fn recover_with_wal(s: &Scenario, wal: &[u8]) -> u64 {
    let store = Store {
        data: Some(s.data_before.clone()),
        wal: Some(wal.to_vec()),
    };
    let mut db = Db::open(store, quiet_options()).unwrap();
    read_uniform(&mut db, &s.ids)
}

#[test]
fn every_prefix_of_an_unacknowledged_commit_is_discarded() {
    let s = scenario();
    let len = s.next_commit.len();
    // Every cut near record boundaries and headers is covered by the sampled
    // step plus the first and last 64 bytes.
    let cuts = (0..64)
        .chain((64..len).step_by(61))
        .chain(len.saturating_sub(64)..len);
    for cut in cuts {
        let mut wal = s.wal_before.clone();
        wal.extend_from_slice(&s.next_commit[..cut]);
        assert_eq!(
            recover_with_wal(&s, &wal),
            COMMITTED,
            "cut at {cut} of {len}"
        );
    }
}

#[test]
fn complete_commit_is_recovered() {
    let s = scenario();
    let mut wal = s.wal_before.clone();
    wal.extend_from_slice(&s.next_commit);
    assert_eq!(recover_with_wal(&s, &wal), COMMITTED + 1);
}

#[test]
fn commit_record_without_earlier_images_is_discarded() {
    // Out-of-order persistence: the tail of the batch (including the commit
    // record) reached disk, but a 4 KiB block in the middle did not.
    let s = scenario();
    let len = s.next_commit.len();
    for hole_start in (0..len - 4096).step_by(1024) {
        let mut batch = s.next_commit.clone();
        batch[hole_start..hole_start + 4096].fill(0);
        let mut wal = s.wal_before.clone();
        wal.extend_from_slice(&batch);
        assert_eq!(
            recover_with_wal(&s, &wal),
            COMMITTED,
            "hole at {hole_start}"
        );
    }
}

#[test]
fn recovery_after_recovery_is_stable() {
    // A crash during recovery itself must be survivable: recovering twice
    // from the same files gives the same answer.
    let s = scenario();
    let mut wal = s.wal_before.clone();
    wal.extend_from_slice(&s.next_commit);
    let store = Store {
        data: Some(s.data_before.clone()),
        wal: Some(wal.clone()),
    };
    let mut db = Db::open(store, quiet_options()).unwrap();
    assert_eq!(read_uniform(&mut db, &s.ids), COMMITTED + 1);
    let recovered_data = db.data;
    // Put the full WAL back, as if the crash happened before it was reset.
    let store = Store {
        data: Some(recovered_data.clone()),
        wal: Some(wal),
    };
    let mut db = Db::open(store, quiet_options()).unwrap();
    assert_eq!(read_uniform(&mut db, &s.ids), COMMITTED + 1);
    assert_eq!(db.data, recovered_data);
}

#[test]
fn torn_checkpoint_is_repaired_from_the_log() {
    let mut db = Db::open(Store::default(), quiet_options()).unwrap();
    let ids = create_counters(&mut db, COUNTERS);
    set_all(&mut db, &ids, 1);
    db.checkpoint().unwrap();
    let more = create_counters(&mut db, 2);
    set_all(&mut db, &ids, 2);
    let before = db.data.clone();
    let wal = db.wal.clone();
    let ops = db.core.checkpoint().unwrap();
    for done in 0..ops.len() {
        let mut data = before.clone();
        perform(&mut data, &ops[..done]);
        if let FileOp::Write { offset, bytes } = &ops[done] {
            let mut torn = bytes.clone();
            torn[100..3000].fill(0xEE);
            perform(&mut data, &[FileOp::write(*offset, &torn)]);
        }
        let store = Store {
            data: Some(data),
            wal: Some(wal.clone()),
        };
        let mut db = Db::open(store, quiet_options()).unwrap();
        assert_eq!(read_uniform(&mut db, &ids), 2, "torn at {done}");
        assert_eq!(read_uniform(&mut db, &more), 0, "torn at {done}");
        assert_eq!(db.core.page_count(), 1 + COUNTERS + 2);
    }
}

#[test]
fn reset_that_was_cut_short_loses_nothing() {
    let mut db = Db::open(Store::default(), quiet_options()).unwrap();
    let ids = create_counters(&mut db, COUNTERS);
    set_all(&mut db, &ids, 3);
    let ops = db.core.checkpoint().unwrap();
    perform(&mut db.data, &ops);
    let ops = db.core.checkpoint_written(Ok(())).unwrap();
    let data = db.data.clone();
    let wal = db.wal.clone();
    for change in &ops[..2] {
        // One of the two changes reached the disk without the other.
        let mut wal = wal.clone();
        match change {
            FileOp::SetLen(len) => wal.truncate(*len as usize),
            FileOp::Write { bytes, .. } => wal[..bytes.len()].copy_from_slice(bytes),
            _ => unreachable!(),
        }
        let store = Store {
            data: Some(data.clone()),
            wal: Some(wal),
        };
        let mut db = Db::open(store, quiet_options()).unwrap();
        assert_eq!(db.core.open_report().recovery.committed_txns, 0);
        assert_eq!(read_uniform(&mut db, &ids), 3);
    }
}

#[test]
fn small_pool_and_frequent_checkpoints_lose_nothing() {
    // Small enough that commits constantly evict pages and checkpoint.
    let options = Options {
        buffer_pool_pages: 8,
        auto_checkpoint_bytes: Some(128 * 1024),
        ..Options::default()
    };
    let mut db = Db::open(Store::default(), options).unwrap();
    let ids = create_counters(&mut db, 24);
    for value in 1..=40 {
        set_all(&mut db, &ids, value);
        // Lose everything in memory at this point and recover.
        let store = Store {
            data: Some(db.data.clone()),
            wal: Some(db.wal.clone()),
        };
        let mut copy = Db::open(store, options).unwrap();
        assert_eq!(read_uniform(&mut copy, &ids), value);
        assert_eq!(read_uniform(&mut db, &ids), value);
    }
}

#[test]
fn hole_at_the_start_of_any_record_discards_the_commit() {
    let s = scenario();
    let image_len = (s.next_commit.len() - 25) / COUNTERS as usize;
    for record in 0..=COUNTERS as usize {
        let start = record * image_len;
        for len in [4, 16, s.next_commit.len() - start] {
            let mut wal = s.wal_before.clone();
            wal.extend_from_slice(&s.next_commit);
            let at = s.wal_before.len() + start;
            wal[at..at + len].fill(0);
            assert_eq!(
                recover_with_wal(&s, &wal),
                COMMITTED,
                "{len} zeros in record {record}"
            );
        }
    }
}

#[test]
fn lost_blocks_discard_the_commit() {
    let s = scenario();
    // Any one block of 512 bytes is missing; the commit record is there.
    for start in (0..s.next_commit.len() - 600).step_by(512) {
        let mut wal = s.wal_before.clone();
        wal.extend_from_slice(&s.next_commit);
        let at = s.wal_before.len() + start;
        wal[at..at + 512].fill(0xFF);
        assert_eq!(recover_with_wal(&s, &wal), COMMITTED, "block at {start}");
    }
}
