use oxendb::db::{
    wal_path_for, Database, OpenPlan, OpenReport, Opening, Options, PageMut, PageStep, Publish,
    ReadTxn, TxnPage, WriteTxn,
};
use oxendb::storage::buffer_pool::PageHandle;
use oxendb::storage::disk::DiskManager;
use oxendb::storage::file_op::FileOp;
use oxendb::storage::page::{Page, PageId, PageType, PAGE_SIZE};
use oxendb::storage::wal::log::{encode_header, WAL_HEADER_SIZE};
use oxendb::storage::wal::Wal;
use oxendb::{Error, Result};

/// The two files of a database, held in memory.
#[derive(Clone, Default)]
struct Store {
    data: Option<Vec<u8>>,
    wal: Option<Vec<u8>>,
}

/// An open database and its files.
#[derive(Debug)]
struct Db {
    core: Database,
    data: Vec<u8>,
    wal: Vec<u8>,
}

fn perform(file: &mut Vec<u8>, ops: &[FileOp]) {
    for op in ops {
        match op {
            FileOp::Write { offset, bytes } => {
                let start = *offset as usize;
                let end = start + bytes.len();
                if file.len() < end {
                    file.resize(end, 0);
                }
                file[start..end].copy_from_slice(bytes);
            }
            FileOp::SetLen(len) => file.resize(*len as usize, 0),
            FileOp::SyncData | FileOp::SyncAll => {}
        }
    }
}

fn page_at(file: &[u8], offset: u64) -> Page {
    let mut page = Page::zeroed();
    let start = offset as usize;
    if file.len() >= start + PAGE_SIZE {
        page.as_bytes_mut()
            .copy_from_slice(&file[start..start + PAGE_SIZE]);
    }
    page
}

impl Db {
    fn open(store: Store, options: Options) -> Result<Db> {
        let path = "app.oxen";
        let wal_path = wal_path_for(path)?;
        let plan = Database::open(
            path,
            &wal_path,
            store.data.is_some(),
            store.wal.is_some(),
            &options,
        )?;
        let mut data = store.data.unwrap_or_default();
        let mut wal = store.wal.unwrap_or_default();
        let core = match plan {
            OpenPlan::Create => {
                let (core, data_ops, wal_ops) = Database::create(&options);
                perform(&mut data, &data_ops);
                perform(&mut wal, &wal_ops);
                core?
            }
            OpenPlan::CreateWal => {
                let disk = DiskManager::open(data.len() as u64, &page_at(&data, 0))?;
                let (core, ops) = Database::create_wal(disk, &options);
                perform(&mut wal, &ops);
                core?
            }
            OpenPlan::Recover => {
                let (opening, ops) = Opening::new(&wal)?;
                perform(&mut wal, &ops);
                let (replaying, ops) = opening.replay()?;
                perform(&mut data, &ops);
                let (resetting, ops) =
                    replaying.open_data(data.len() as u64, &page_at(&data, 0))?;
                perform(&mut wal, &ops);
                resetting.finish(Ok(()), &options)?
            }
        };
        Ok(Db { core, data, wal })
    }

    fn into_store(self) -> Store {
        Store {
            data: Some(self.data),
            wal: Some(self.wal),
        }
    }

    /// Does what a step asks for; returns the handle once there is one.
    fn advance(&mut self, id: PageId, step: PageStep) -> Result<Option<PageHandle>> {
        match step {
            PageStep::Ready(handle) => Ok(Some(handle)),
            PageStep::Read(offset) => {
                let found = page_at(&self.data, offset);
                self.core.page_read(id, Ok(found)).map(Some)
            }
            PageStep::Write(frame, op) => {
                perform(&mut self.data, &[op]);
                self.core.page_written(frame, Ok(()))?;
                Ok(None)
            }
        }
    }

    /// Reads a page in a read transaction.
    fn read<R>(&mut self, txn: &ReadTxn, id: PageId, f: impl FnOnce(&Page) -> R) -> Result<R> {
        loop {
            let step = txn.read_page(&mut self.core, id)?;
            if let Some(handle) = self.advance(id, step)? {
                let value = f(self.core.page(&handle));
                self.core.unpin(handle);
                return Ok(value);
            }
        }
    }

    /// Reads a page in a write transaction.
    fn read_own<R>(&mut self, txn: &WriteTxn, id: PageId, f: impl FnOnce(&Page) -> R) -> Result<R> {
        loop {
            let step = match txn.read_page(&mut self.core, id)? {
                TxnPage::Own(page) => return Ok(f(page)),
                TxnPage::Committed(step) => step,
            };
            if let Some(handle) = self.advance(id, step)? {
                let value = f(self.core.page(&handle));
                self.core.unpin(handle);
                return Ok(value);
            }
        }
    }

    /// Changes a page in a write transaction.
    fn change(&mut self, txn: &mut WriteTxn, id: PageId, f: impl FnOnce(&mut Page)) -> Result<()> {
        loop {
            let step = match txn.page_mut(&mut self.core, id)? {
                PageMut::Page(page) => {
                    f(page);
                    return Ok(());
                }
                PageMut::Pending(step) => step,
            };
            if let Some(handle) = self.advance(id, step)? {
                self.core.unpin(handle);
            }
        }
    }

    /// Commits a transaction, and checkpoints if it is time.
    fn commit(&mut self, txn: WriteTxn) -> Result<()> {
        assert!(txn.fits(&self.core));
        let mut commit = match txn.commit(&mut self.core)? {
            Some(commit) => commit,
            None => return Ok(()),
        };
        perform(&mut self.wal, commit.log_ops());
        self.core.commit_logged(Ok(()))?;
        loop {
            match self.core.publish(&mut commit)? {
                Publish::Done => break,
                Publish::Installed => {}
                Publish::Write(frame, op) => {
                    perform(&mut self.data, &[op]);
                    self.core.publish_written(frame, Ok(()))?;
                }
            }
        }
        if self.core.wants_checkpoint() {
            self.checkpoint()?;
        }
        Ok(())
    }

    fn checkpoint(&mut self) -> Result<()> {
        let ops = self.core.checkpoint()?;
        perform(&mut self.data, &ops);
        let ops = self.core.checkpoint_written(Ok(()))?;
        perform(&mut self.wal, &ops);
        self.core.checkpoint_done(Ok(()))
    }
}

fn read_u64(page: &Page) -> u64 {
    u64::from_le_bytes(page.payload()[..8].try_into().unwrap())
}

fn write_u64(page: &mut Page, value: u64) {
    page.payload_mut()[..8].copy_from_slice(&value.to_le_bytes());
}

fn open(store: Store) -> Db {
    Db::open(
        store,
        Options {
            buffer_pool_pages: 16,
            ..Options::default()
        },
    )
    .unwrap()
}

/// Commits one new heap page holding `value` and returns its id.
fn commit_new_page(db: &mut Db, value: u64) -> PageId {
    let mut txn = db.core.begin_write().unwrap();
    let id = txn.allocate_page(PageType::Heap);
    db.change(&mut txn, id, |page| write_u64(page, value))
        .unwrap();
    db.commit(txn).unwrap();
    id
}

#[test]
fn wal_path_is_next_to_database() {
    assert_eq!(
        wal_path_for("/a/b/app.oxen").unwrap(),
        "/a/b/app.oxen-wal"
    );
    assert!(wal_path_for("/").is_err());
}

#[test]
fn wal_path_reads_paths_as_the_system_does() {
    let cases = [
        ("app", "app-wal"),
        ("./app", "./app-wal"),
        ("/app", "/app-wal"),
        ("//app", "/app-wal"),
        ("a//b", "a/b-wal"),
        ("a/./b", "a/b-wal"),
        ("a/b/", "a/b-wal"),
        ("a/b/.", "a/b-wal"),
        ("a/b/./", "a/b-wal"),
        ("../b", "../b-wal"),
        ("a/...", "a/...-wal"),
        ("a/.b", "a/.b-wal"),
        ("a/b.", "a/b.-wal"),
        ("caf\u{e9}/d\u{e9}", "caf\u{e9}/d\u{e9}-wal"),
    ];
    for (path, wal) in cases {
        assert_eq!(wal_path_for(path).unwrap(), wal, "{path}");
        let name = std::path::Path::new(path).file_name().unwrap();
        let std_wal = std::path::Path::new(path)
            .with_file_name(format!("{}-wal", name.to_str().unwrap()));
        assert_eq!(std_wal.to_str().unwrap(), wal, "{path}");
    }
    for path in ["", "/", "//", ".", "./", "..", "a/..", "/..", "/."] {
        assert_eq!(
            wal_path_for(path).unwrap_err().to_string(),
            format!("invalid argument: {path} is not a file path")
        );
        assert!(std::path::Path::new(path).file_name().is_none(), "{path}");
    }
}

#[test]
fn creates_then_reopens() {
    let db = Db::open(Store::default(), Options::default()).unwrap();
    assert!(db.core.open_report().created);
    assert_eq!(db.core.page_count(), 1);
    let store = db.into_store();
    assert!(!store.data.as_ref().unwrap().is_empty());
    assert!(!store.wal.as_ref().unwrap().is_empty());
    let db = Db::open(store, Options::default()).unwrap();
    assert!(!db.core.open_report().created);
}

#[test]
fn refuses_to_create_when_asked_not_to() {
    let options = Options {
        create_if_missing: false,
        ..Options::default()
    };
    let err = Db::open(Store::default(), options).unwrap_err();
    assert!(
        err.to_string().contains("does not exist"),
        "{}",
        err.to_string()
    );
    assert_eq!(
        err.to_string(),
        "invalid argument: database app.oxen does not exist"
    );
}

#[test]
fn missing_wal_is_recreated() {
    let mut store = Db::open(Store::default(), Options::default())
        .unwrap()
        .into_store();
    store.wal = None;
    let db = Db::open(store, Options::default()).unwrap();
    assert_eq!(db.wal.len(), WAL_HEADER_SIZE);
    assert_eq!(*db.core.open_report(), OpenReport::default());
}

#[test]
fn new_database_reports_that_it_was_created() {
    let (db, data_ops, wal_ops) = Database::create(&Options::default());
    let db = db.unwrap();
    assert_eq!(db.page_count(), 1);
    assert_eq!(
        *db.open_report(),
        OpenReport {
            created: true,
            ..OpenReport::default()
        }
    );
    assert_eq!(data_ops, DiskManager::create().1);
    assert_eq!(wal_ops, Wal::create().1);
}

#[test]
fn files_are_created_even_if_the_pool_is_refused() {
    let options = Options {
        buffer_pool_pages: 0,
        ..Options::default()
    };
    let (db, data_ops, wal_ops) = Database::create(&options);
    assert!(matches!(db, Err(Error::InvalidArgument(_))));
    assert_eq!(data_ops, DiskManager::create().1);
    assert_eq!(wal_ops, Wal::create().1);

    let (disk, _) = DiskManager::create();
    let (db, wal_ops) = Database::create_wal(disk, &options);
    assert!(matches!(db, Err(Error::InvalidArgument(_))));
    assert_eq!(wal_ops, Wal::create().1);
}

#[test]
fn one_write_back_makes_room_for_a_page() {
    let options = Options {
        buffer_pool_pages: 1,
        ..Options::default()
    };
    let mut db = Db::open(Store::default(), options).unwrap();
    let first = commit_new_page(&mut db, 1);
    let second = commit_new_page(&mut db, 2);
    // The second page is dirty and the only one cached.
    match db.core.fetch_page(first).unwrap() {
        PageStep::Write(frame, op) => {
            perform(&mut db.data, &[op]);
            db.core.page_written(frame, Ok(())).unwrap();
        }
        step => panic!("{step:?}"),
    }
    match db.core.fetch_page(first).unwrap() {
        PageStep::Read(offset) => {
            let page = page_at(&db.data, offset);
            let handle = db.core.page_read(first, Ok(page)).unwrap();
            db.core.unpin(handle);
        }
        step => panic!("{step:?}"),
    }
    assert!(matches!(db.core.fetch_page(first), Ok(PageStep::Ready(_))));
    assert_eq!(read_u64(&page_at(&db.data, second.file_offset())), 2);
}

#[test]
fn orphaned_wal_is_refused() {
    let mut store = Db::open(Store::default(), Options::default())
        .unwrap()
        .into_store();
    store.data = None;
    let err = Db::open(store, Options::default()).unwrap_err();
    assert!(err.to_string().contains("does not"), "{}", err.to_string());
    assert_eq!(
        err.to_string(),
        "invalid argument: app.oxen-wal exists but its database file app.oxen does not"
    );
}

#[test]
fn checkpoint_and_close_leave_an_empty_wal() {
    let mut db = Db::open(Store::default(), Options::default()).unwrap();
    db.checkpoint().unwrap();
    db.checkpoint().unwrap();
    assert_eq!(db.wal.len(), WAL_HEADER_SIZE);
}

#[test]
fn rejects_zero_sized_buffer_pool() {
    let options = Options {
        buffer_pool_pages: 0,
        ..Options::default()
    };
    assert!(Db::open(Store::default(), options).is_err());
}

#[test]
fn committed_changes_are_visible() {
    let mut db = open(Store::default());
    let id = commit_new_page(&mut db, 42);
    assert_eq!(db.core.page_count(), 2);
    let read = db.core.begin_read().unwrap();
    assert_eq!(db.read(&read, id, read_u64).unwrap(), 42);
}

#[test]
fn writer_sees_its_own_changes() {
    let mut db = open(Store::default());
    let id = commit_new_page(&mut db, 1);
    let mut txn = db.core.begin_write().unwrap();
    db.change(&mut txn, id, |page| write_u64(page, 2)).unwrap();
    assert_eq!(db.read_own(&txn, id, read_u64).unwrap(), 2);
}

#[test]
fn uncommitted_changes_are_invisible_to_readers() {
    let mut db = open(Store::default());
    let id = commit_new_page(&mut db, 1);
    let mut txn = db.core.begin_write().unwrap();
    db.change(&mut txn, id, |page| write_u64(page, 2)).unwrap();
    let new_id = txn.allocate_page(PageType::Heap);

    let read = db.core.begin_read().unwrap();
    assert_eq!(db.read(&read, id, read_u64).unwrap(), 1);
    assert!(db.read(&read, new_id, read_u64).is_err());
    assert_eq!(read.page_count(), 2);
}

#[test]
fn rollback_discards_changes_and_allocations() {
    let mut db = open(Store::default());
    let id = commit_new_page(&mut db, 1);
    {
        let mut txn = db.core.begin_write().unwrap();
        db.change(&mut txn, id, |page| write_u64(page, 2)).unwrap();
        txn.allocate_page(PageType::Heap);
        txn.rollback();
    }
    {
        let mut txn = db.core.begin_write().unwrap();
        db.change(&mut txn, id, |page| write_u64(page, 3)).unwrap();
        // Dropped without commit.
    }
    let read = db.core.begin_read().unwrap();
    assert_eq!(db.read(&read, id, read_u64).unwrap(), 1);
    assert_eq!(read.page_count(), 2);
    // The rolled-back page id is reused.
    assert_eq!(commit_new_page(&mut db, 5), PageId(2));
}

#[test]
fn commits_survive_reopen_without_checkpoint() {
    let mut db = open(Store::default());
    let ids: Vec<PageId> = (0..5)
        .map(|i| commit_new_page(&mut db, 100 + i))
        .collect();
    // Not closed: the data file header was never updated.
    let mut db = open(db.into_store());
    assert_eq!(db.core.open_report().recovery.committed_txns, 5);
    assert_eq!(db.core.page_count(), 6);
    let read = db.core.begin_read().unwrap();
    for (i, &id) in ids.iter().enumerate() {
        assert_eq!(db.read(&read, id, read_u64).unwrap(), 100 + i as u64);
    }
}

#[test]
fn commits_survive_close_and_reopen() {
    let mut db = open(Store::default());
    let id = commit_new_page(&mut db, 7);
    db.checkpoint().unwrap();
    let mut db = open(db.into_store());
    assert_eq!(db.core.open_report().recovery.committed_txns, 0);
    let read = db.core.begin_read().unwrap();
    assert_eq!(db.read(&read, id, read_u64).unwrap(), 7);
}

#[test]
fn many_pages_through_a_small_buffer_pool() {
    let mut db = open(Store::default()); // 16 frames
    let mut txn = db.core.begin_write().unwrap();
    for i in 0..100 {
        let id = txn.allocate_page(PageType::Heap);
        db.change(&mut txn, id, |page| write_u64(page, i)).unwrap();
    }
    db.commit(txn).unwrap();
    db.checkpoint().unwrap();
    let read = db.core.begin_read().unwrap();
    for i in 0..100 {
        assert_eq!(db.read(&read, PageId(1 + i), read_u64).unwrap(), i);
    }
    let mut db = open(db.into_store());
    let read = db.core.begin_read().unwrap();
    for i in 0..100 {
        assert_eq!(db.read(&read, PageId(1 + i), read_u64).unwrap(), i);
    }
}

#[test]
fn malformed_page_is_rejected_before_logging() {
    let mut db = open(Store::default());
    let id = commit_new_page(&mut db, 1);
    let wal_len_before = db.core.wal_len();

    let mut txn = db.core.begin_write().unwrap();
    // Corrupt the page type byte in the header.
    db.change(&mut txn, id, |page| page.as_bytes_mut()[4] = 0)
        .unwrap();
    let failed = db.commit(txn);
    assert!(matches!(failed, Err(Error::InvalidArgument(_))));
    assert_eq!(
        failed.unwrap_err().to_string(),
        "invalid argument: transaction left page 1 malformed: \
         data corruption detected: page 1: unknown page type 0"
    );
    assert_eq!(db.core.wal_len(), wal_len_before);
    // The database is still usable.
    let read = db.core.begin_read().unwrap();
    assert_eq!(db.read(&read, id, read_u64).unwrap(), 1);
}

#[test]
fn header_page_is_not_accessible() {
    let mut db = open(Store::default());
    let mut txn = db.core.begin_write().unwrap();
    assert!(db.change(&mut txn, PageId::header(), |_| {}).is_err());
    assert_eq!(
        db.change(&mut txn, PageId(1), |_| {})
            .unwrap_err()
            .to_string(),
        "invalid argument: page 1 is not a data page (database has 1 pages)"
    );
}

#[test]
fn poisoned_database_refuses_transactions() {
    let mut db = open(Store::default());
    db.core.poison();
    assert!(matches!(db.core.begin_read(), Err(Error::Poisoned(_))));
    assert!(matches!(db.core.begin_write(), Err(Error::Poisoned(_))));
    assert!(matches!(db.core.checkpoint(), Err(Error::Poisoned(_))));
}

#[test]
fn empty_transaction_logs_nothing() {
    let mut db = open(Store::default());
    let before = db.core.wal_len();
    let txn = db.core.begin_write().unwrap();
    assert!(txn.commit(&mut db.core).unwrap().is_none());
    assert_eq!(db.core.wal_len(), before);
}

#[test]
fn failed_log_write_poisons_the_database() {
    let mut db = open(Store::default());
    let id = commit_new_page(&mut db, 1);
    let mut txn = db.core.begin_write().unwrap();
    db.change(&mut txn, id, |page| write_u64(page, 2)).unwrap();
    assert!(txn.commit(&mut db.core).unwrap().is_some());
    let failed = db
        .core
        .commit_logged(Err(std::io::Error::other("disk full")));
    assert_eq!(failed.unwrap_err().to_string(), "I/O error: disk full");
    assert!(matches!(db.core.begin_read(), Err(Error::Poisoned(_))));
    // Nothing reached the log, so reopening gives the old value.
    let mut db = open(db.into_store());
    let read = db.core.begin_read().unwrap();
    assert_eq!(db.read(&read, id, read_u64).unwrap(), 1);
}

#[test]
fn failed_publish_is_recovered_on_reopen() {
    let mut db = Db::open(
        Store::default(),
        Options {
            buffer_pool_pages: 1,
            ..Options::default()
        },
    )
    .unwrap();
    commit_new_page(&mut db, 1);
    commit_new_page(&mut db, 2);
    // The only frame stays pinned while another page is committed.
    let held = db.core.begin_read().unwrap();
    let step = held.read_page(&mut db.core, PageId(2)).unwrap();
    let _handle = db.advance(PageId(2), step).unwrap().unwrap();
    let mut txn = db.core.begin_write().unwrap();
    let id = txn.allocate_page(PageType::Heap);
    db.change(&mut txn, id, |page| write_u64(page, 3)).unwrap();
    assert!(matches!(
        db.commit(txn),
        Err(Error::ResourceExhausted(_))
    ));
    assert!(matches!(db.core.begin_read(), Err(Error::Poisoned(_))));
    let mut db = open(db.into_store());
    assert_eq!(db.core.page_count(), 4);
    let read = db.core.begin_read().unwrap();
    assert_eq!(db.read(&read, id, read_u64).unwrap(), 3);
}

#[test]
fn checkpoints_follow_the_log_size() {
    let mut db = Db::open(
        Store::default(),
        Options {
            buffer_pool_pages: 8,
            auto_checkpoint_bytes: Some(3 * 4129),
            ..Options::default()
        },
    )
    .unwrap();
    commit_new_page(&mut db, 1); // a header image, a page image, a commit
    assert_eq!(db.core.wal_len(), 24 + 2 * 4129 + 25);
    commit_new_page(&mut db, 2);
    assert_eq!(db.core.wal_len(), WAL_HEADER_SIZE as u64);
    assert_eq!(db.wal.len(), WAL_HEADER_SIZE);
    // Everything is in the data file, even without the log.
    let mut store = db.into_store();
    store.wal = None;
    let mut db = open(store);
    let read = db.core.begin_read().unwrap();
    assert_eq!(db.read(&read, PageId(1), read_u64).unwrap(), 1);
    assert_eq!(db.read(&read, PageId(2), read_u64).unwrap(), 2);
}

#[test]
fn default_options_are_as_documented() {
    let options = Options::default();
    assert_eq!(options.buffer_pool_pages, 4096);
    assert!(options.create_if_missing);
    assert_eq!(options.auto_checkpoint_bytes, Some(4 * 1024 * 1024));
}

#[test]
fn failed_checkpoint_keeps_the_log() {
    let mut db = open(Store::default());
    let id = commit_new_page(&mut db, 9);
    let before = db.core.wal_len();
    let ops = db.core.checkpoint().unwrap();
    assert!(matches!(ops.last(), Some(FileOp::SyncAll)));
    assert!(db
        .core
        .checkpoint_written(Err(std::io::Error::other("disk full")))
        .is_err());
    assert_eq!(db.core.wal_len(), before);
    // The pages are still dirty, so another checkpoint writes them again.
    db.checkpoint().unwrap();
    let mut db = open(db.into_store());
    let read = db.core.begin_read().unwrap();
    assert_eq!(db.read(&read, id, read_u64).unwrap(), 9);
}

#[test]
fn corrupt_page_is_not_handed_out() {
    let mut db = open(Store::default());
    let id = commit_new_page(&mut db, 9);
    db.checkpoint().unwrap();
    let mut store = db.into_store();
    store.data.as_mut().unwrap()[id.file_offset() as usize + 500] ^= 1;
    let mut db = open(store);
    let read = db.core.begin_read().unwrap();
    assert!(matches!(
        db.read(&read, id, read_u64),
        Err(Error::Corruption(_))
    ));
}

#[test]
fn discarded_tail_is_reported() {
    let mut db = open(Store::default());
    commit_new_page(&mut db, 9);
    let mut store = db.into_store();
    store.wal.as_mut().unwrap().extend_from_slice(&[1, 0, 0, 0, 0]);
    let db = open(store);
    let report = db.core.open_report().clone();
    assert_eq!(report.recovery.committed_txns, 1);
    assert_eq!(report.recovery.pages_restored, 2);
    let tail = report.discarded_wal_tail.unwrap();
    assert_eq!(tail.bytes, 5);
    assert_eq!(tail.reason, "impossible record length 1");
}

#[test]
fn full_log_matters_only_to_what_is_logged() {
    let mut store = Db::open(Store::default(), Options::default())
        .unwrap()
        .into_store();
    store.wal = Some(encode_header(u64::MAX).to_vec());
    let mut db = open(store);

    let txn = db.core.begin_write().unwrap();
    assert!(txn.fits(&db.core));
    assert!(matches!(txn.commit(&mut db.core), Ok(None)));

    let mut txn = db.core.begin_write().unwrap();
    let id = txn.allocate_page(PageType::Heap);
    assert!(!txn.fits(&db.core));
    db.change(&mut txn, id, |page| page.as_bytes_mut()[5] = 1)
        .unwrap();
    assert!(txn.fits(&db.core));
    assert!(matches!(
        txn.commit(&mut db.core),
        Err(Error::InvalidArgument(_))
    ));
}

#[test]
fn commit_is_visible_and_durable() {
    let mut db = open(Store::default());
    let kept = commit_new_page(&mut db, 1);
    let changed = commit_new_page(&mut db, 2);

    let mut txn = db.core.begin_write().unwrap();
    let added = txn.allocate_page(PageType::Heap);
    db.change(&mut txn, added, |page| write_u64(page, 4)).unwrap();
    db.change(&mut txn, changed, |page| write_u64(page, 3)).unwrap();
    // Nobody sees this yet.
    let read = db.core.begin_read().unwrap();
    assert_eq!(read.page_count(), 3);
    assert_eq!(db.read(&read, changed, read_u64).unwrap(), 2);
    assert!(db.read(&read, added, read_u64).is_err());
    db.commit(txn).unwrap();

    let mut reopened = open(Store {
        data: Some(db.data.clone()),
        wal: Some(db.wal.clone()),
    });
    for db in [&mut db, &mut reopened] {
        let read = db.core.begin_read().unwrap();
        assert_eq!(read.page_count(), 4);
        assert_eq!(db.read(&read, kept, read_u64).unwrap(), 1);
        assert_eq!(db.read(&read, changed, read_u64).unwrap(), 3);
        assert_eq!(db.read(&read, added, read_u64).unwrap(), 4);
    }
}
