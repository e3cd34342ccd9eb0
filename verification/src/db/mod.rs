//! The database handle: opening, recovery, and closing.
//!
//! A database is a data file plus a write-ahead log next to it named
//! `<data file>-wal`. Opening a database always runs recovery first, so a
//! successfully opened [`Database`] reflects every committed transaction.
//!
//! Nothing here performs I/O. Each operation is a sequence of steps: a step
//! says what is to be done to a file, and the next one takes the outcome.

pub mod consistency;
pub mod opening;
pub mod path;
pub mod txn;

pub use opening::{Opening, Replaying, Resetting};
pub use path::wal_path_for;
pub use txn::{Commit, PageMut, Publish, ReadTxn, TxnPage, WriteTxn};

use vstd::prelude::*;
use vstd::string::*;

use crate::error::{Error, ErrorView, Result};
use crate::storage::buffer_pool::{BufferPool, Fetch, FrameView, PageHandle, PoolView, RoomView};
use crate::storage::disk::DiskManager;
use crate::storage::file_op::{FileOp, FileOpView};
use crate::storage::page::{Page, PageId};
use crate::storage::recovery::RecoveryStats;
use crate::storage::wal::log::{DiscardedTail, WalView};
use crate::storage::wal::{log, TxnId, Wal};
use crate::storage::{
    buffer_pool, bytes, checksum, disk, file_header, file_op, page, recovery,
};

verus! {

/// Settings for opening a database.
#[derive(Debug, Clone, Copy, PartialEq, Eq, Structural)]
pub struct Options {
    /// Number of pages the buffer pool caches in memory.
    pub buffer_pool_pages: usize,
    /// Create the database if it does not exist.
    pub create_if_missing: bool,
    /// Checkpoint after a commit that leaves at least this many bytes in the
    /// WAL. `None` never checkpoints on its own.
    pub auto_checkpoint_bytes: Option<u64>,
}

/// The settings that hold unless others are given.
pub open spec fn default_options() -> Options {
    Options {
        buffer_pool_pages: 4096,
        create_if_missing: true,
        auto_checkpoint_bytes: Some(0x40_0000u64),
    }
}

impl Default for Options {
    fn default() -> (options: Self)
        ensures
            options == default_options(),
    {
        Options {
            // 16 MiB of 4 KiB pages.
            buffer_pool_pages: 4096,
            create_if_missing: true,
            // About a thousand page images.
            auto_checkpoint_bytes: Some(0x40_0000),
        }
    }
}

/// What happened while opening a database.
#[derive(Debug, PartialEq, Eq)]
pub struct OpenReport {
    /// True if the database was newly created.
    pub created: bool,
    /// Results of WAL replay.
    pub recovery: RecoveryStats,
    /// Bytes discarded from the end of the WAL, typically the remains of a
    /// write interrupted by a crash.
    pub discarded_wal_tail: Option<DiscardedTail>,
}

impl Default for OpenReport {
    fn default() -> (report: Self)
        ensures
            !report.created,
            report.recovery == (RecoveryStats {
                committed_txns: 0,
                incomplete_txns: 0,
                pages_restored: 0,
            }),
            report.discarded_wal_tail is None,
    {
        OpenReport {
            created: false,
            recovery: RecoveryStats::default(),
            discarded_wal_tail: None,
        }
    }
}

/// How a database is to be opened.
#[derive(Debug, Clone, Copy, PartialEq, Eq, Structural)]
pub enum OpenPlan {
    /// Neither file exists; both are to be created.
    Create,
    /// The data file exists and the WAL does not, so there is nothing to
    /// recover. The WAL is to be created.
    CreateWal,
    /// Both files exist; recovery is to be run.
    Recover,
}

/// An open oxenDB database.
#[derive(Debug)]
pub struct Database {
    disk: DiskManager,
    pool: BufferPool,
    wal: Wal,
    next_txn: u64,
    /// Set when a failure left in-memory state out of step with the files.
    /// Every later transaction fails until the database is reopened.
    poisoned: bool,
    auto_checkpoint_bytes: Option<u64>,
    report: OpenReport,
}

/// The contents of a [`Database`].
#[verifier::ext_equal]
pub struct DbView {
    pub page_count: u64,
    pub pool: PoolView,
    pub wal: WalView,
    pub next_txn: u64,
    pub poisoned: bool,
    pub auto_checkpoint_bytes: Option<u64>,
}

impl View for Database {
    type V = DbView;

    closed spec fn view(&self) -> DbView {
        DbView {
            page_count: self.disk.count(),
            pool: self.pool@,
            wal: self.wal@,
            next_txn: self.next_txn,
            poisoned: self.poisoned,
            auto_checkpoint_bytes: self.auto_checkpoint_bytes,
        }
    }
}

/// What has to be done next to get at a page.
#[derive(Debug)]
pub enum PageStep {
    /// Nothing: the page is pinned.
    Ready(PageHandle),
    /// The page is to be read from this offset of the data file and given to
    /// [`Database::page_read`].
    Read(u64),
    /// The page in this frame is to be written to the data file and the
    /// outcome given to [`Database::page_written`], to make room.
    Write(usize, FileOp),
}

/// A [`PageStep`], or the error in its place.
pub enum PageStepView {
    Ready(int),
    Read(nat),
    Write(int, FileOpView),
    Failed(ErrorView),
}

/// The database after a step towards page `id`, and what has to be done next.
pub open spec fn fetched(db: DbView, id: PageId) -> (DbView, PageStepView) {
    if db.pool.cached(id) {
        let frame = db.pool.frame_of(id);
        (DbView { pool: db.pool.pinned(frame), ..db }, PageStepView::Ready(frame))
    } else {
        let (pool, room) = db.pool.with_room();
        let (pool, step) = match room {
            RoomView::Exhausted => (
                pool,
                PageStepView::Failed(buffer_pool::exhausted(db.pool.frames.len())),
            ),
            RoomView::Ready => match disk::data_page_error(id, db.page_count) {
                Some(err) => (pool, PageStepView::Failed(err)),
                None => (pool, PageStepView::Read((id.0 * page::PAGE_SIZE) as nat)),
            },
            RoomView::WriteBack(frame) => write_step(pool, frame, db.page_count),
        };
        (DbView { pool, ..db }, step)
    }
}

/// The pool after the page in a frame was sealed, and the write that stores
/// it.
pub open spec fn write_step(pool: PoolView, frame: int, page_count: u64) -> (
    PoolView,
    PageStepView,
) {
    let contents = pool.frames[frame];
    let id = contents.page_id->0;
    let stored = page::sealed(contents.page);
    match disk::write_error(id, page_count, contents.page) {
        Some(err) => (pool, PageStepView::Failed(err)),
        None => (
            pool.with_frame(frame, FrameView { page: stored, ..contents }),
            PageStepView::Write(frame, disk::page_write(id, stored)),
        ),
    }
}

/// The pool after the page in a frame was written to disk.
pub open spec fn clean_frame(pool: PoolView, frame: int) -> PoolView {
    pool.with_frame(frame, FrameView { dirty: false, ..pool.frames[frame] })
}

/// The pool after a page was read from disk and pinned.
pub open spec fn loaded(pool: PoolView, id: PageId, page: Seq<u8>) -> PoolView {
    pool.filled(
        FrameView { page, dirty: false, page_id: Some(id), pins: 1, referenced: true },
    )
}

/// The contents of a page that was read, or the reason it could not be.
pub open spec fn found_view(found: std::result::Result<Page, std::io::Error>) -> std::result::Result<
    Seq<u8>,
    std::io::Error,
> {
    match found {
        Ok(page) => Ok(page@),
        Err(err) => Err(err),
    }
}

/// The database after page `id` was read from the data file, and the frame that
/// holds it now or the error.
pub open spec fn page_read_step(
    db: DbView,
    id: PageId,
    found: std::result::Result<Seq<u8>, std::io::Error>,
) -> (DbView, std::result::Result<int, ErrorView>) {
    match (disk::data_page_error(id, db.page_count), found) {
        (Some(err), _) => (db, Err(err)),
        (None, Err(err)) => (db, Err(ErrorView::Io(err))),
        (None, Ok(contents)) => match disk::page_read(id, db.page_count, contents) {
            Ok(page) => (
                DbView { pool: loaded(db.pool, id, page), ..db },
                Ok(db.pool.free.last() as int),
            ),
            Err(err) => (db, Err(err)),
        },
    }
}

impl PageStep {
    /// Whether this is `step`, a step towards page `id`.
    pub open spec fn shows(self, step: PageStepView, id: PageId) -> bool {
        match self {
            PageStep::Ready(handle) => step == PageStepView::Ready(handle.frame()) && handle.id()
                == id,
            PageStep::Read(offset) => step == PageStepView::Read(offset as nat),
            PageStep::Write(frame, op) => step == PageStepView::Write(frame as int, op@),
        }
    }
}

/// How a database is to be opened, given which of its files exist.
pub open spec fn open_plan(
    path: Seq<char>,
    wal_path: Seq<char>,
    data_exists: bool,
    wal_exists: bool,
    options: Options,
) -> std::result::Result<OpenPlan, ErrorView> {
    if data_exists {
        Ok(
            if wal_exists {
                OpenPlan::Recover
            } else {
                OpenPlan::CreateWal
            },
        )
    } else if !options.create_if_missing {
        Err(ErrorView::InvalidArgument("database "@ + path + " does not exist"@))
    } else if wal_exists {
        Err(
            ErrorView::InvalidArgument(
                wal_path + " exists but its database file "@ + path + " does not"@,
            ),
        )
    } else {
        Ok(OpenPlan::Create)
    }
}

/// The error every use of a poisoned database gives.
pub open spec fn db_poisoned() -> ErrorView {
    ErrorView::Poisoned(
        "an earlier failure left the database in an unknown state; reopen it to recover"@,
    )
}

/// Why a database refuses transactions and checkpoints, if it does.
pub open spec fn refusal(db: DbView) -> Option<ErrorView> {
    if db.poisoned {
        Some(db_poisoned())
    } else {
        None
    }
}

/// A database after a failure left memory out of step with the files.
pub open spec fn poisoned(db: DbView) -> DbView {
    DbView { poisoned: true, ..db }
}

/// A database after the page in a frame was written to the data file, or could
/// not be written.
pub open spec fn page_written_step(db: DbView, frame: int, written: bool) -> DbView {
    if written {
        DbView { pool: clean_frame(db.pool, frame), ..db }
    } else {
        db
    }
}

/// A database that asked for its dirty pages to be written.
pub open spec fn checkpoint_started(db: DbView) -> DbView {
    DbView { pool: buffer_pool::sealed_pool(db.pool, db.pool.frames.len() as int), ..db }
}

/// A database after its dirty pages were written and fsynced, or could not be.
pub open spec fn checkpoint_flushed(db: DbView, written: bool) -> DbView {
    if written {
        DbView { pool: buffer_pool::cleaned_pool(db.pool, db.pool.frames.len() as int), ..db }
    } else {
        db
    }
}

/// A database after its log was emptied, or could not be.
pub open spec fn checkpoint_finished(db: DbView, done: bool) -> DbView {
    DbView {
        wal: if done {
            emptied(db.wal)
        } else {
            log::failed(db.wal)
        },
        ..db
    }
}

/// A database that was just opened: nothing is cached, and transactions are
/// counted from one.
pub open spec fn is_fresh(db: DbView, page_count: u64, wal: WalView, options: Options) -> bool {
    &&& db.page_count == page_count
    &&& db.wal == wal
    &&& db.next_txn == 1
    &&& !db.poisoned
    &&& db.auto_checkpoint_bytes == options.auto_checkpoint_bytes
    &&& buffer_pool::capacity_error(options.buffer_pool_pages) is None
    &&& db.pool == buffer_pool::empty_pool(options.buffer_pool_pages)
}

/// Whether a report says that nothing was replayed and nothing cut off.
pub open spec fn nothing_recovered(report: OpenReport) -> bool {
    &&& report.recovery == (RecoveryStats {
        committed_txns: 0,
        incomplete_txns: 0,
        pages_restored: 0,
    })
    &&& report.discarded_wal_tail is None
}

impl Database {
    /// The database's parts are in order.
    pub closed spec fn wf(self) -> bool {
        &&& self.disk.wf()
        &&& self.pool.wf()
        &&& self.wal@.has_room(0)
    }

    /// What happened while this database was opened.
    pub closed spec fn reported(self) -> OpenReport {
        self.report
    }

    /// What is known of a database whose parts are in order.
    pub proof fn lemma_wf(&self)
        requires
            self.wf(),
        ensures
            1 <= self@.page_count <= disk::MAX_PAGE_COUNT,
            self@.pool.wf(),
            self@.wal.has_room(0),
    {
        self.pool.lemma_wf();
    }

    /// Decides how the database at `path` is to be opened, given which of its
    /// two files exist.
    pub fn open(
        path: &str,
        wal_path: &str,
        data_exists: bool,
        wal_exists: bool,
        options: &Options,
    ) -> (result: Result<OpenPlan>)
        ensures
            ({
                let plan = open_plan(path@, wal_path@, data_exists, wal_exists, *options);
                match result {
                    Ok(chosen) => plan == Ok::<OpenPlan, ErrorView>(chosen),
                    Err(err) => plan == Err::<OpenPlan, ErrorView>(err@),
                }
            }),
    {
        if data_exists {
            // A missing WAL means there is nothing to recover.
            if wal_exists {
                Ok(OpenPlan::Recover)
            } else {
                Ok(OpenPlan::CreateWal)
            }
        } else if !options.create_if_missing {
            let mut msg = "database ".to_owned();
            msg.append(path);
            msg.append(" does not exist");
            Err(Error::InvalidArgument(msg))
        } else if wal_exists {
            // Refuse rather than silently starting over: the WAL may hold
            // committed data whose data file was deleted or moved.
            let mut msg = wal_path.to_owned();
            msg.append(" exists but its database file ");
            msg.append(path);
            msg.append(" does not");
            Err(Error::InvalidArgument(msg))
        } else {
            Ok(OpenPlan::Create)
        }
    }

    /// Creates a database, together with what is to be done to its new, empty
    /// data file and to its new, empty log. Both are created, in this order,
    /// before the database is used or its error reported.
    pub fn create(options: &Options) -> (created: (Result<Self>, Vec<FileOp>, Vec<FileOp>))
        ensures
            match created.0 {
                Ok(db) => {
                    &&& db.wf()
                    &&& is_fresh(db@, 1, log::new_wal(), *options)
                    &&& db.reported().created
                    &&& nothing_recovered(db.reported())
                },
                Err(err) => buffer_pool::capacity_error(options.buffer_pool_pages) == Some(err@),
            },
            file_op::op_views(created.1@) == disk::create_ops(),
            file_op::op_views(created.2@) == log::create_ops(),
    {
        let (disk, data_ops) = DiskManager::create();
        let (wal, wal_ops) = Wal::create();
        let report = OpenReport {
            created: true,
            recovery: RecoveryStats::default(),
            discarded_wal_tail: None,
        };
        (Self::assemble(disk, wal, options, report), data_ops, wal_ops)
    }

    /// Opens a database whose data file is open and whose log is missing:
    /// there is nothing to recover. Also says what is to be done to the new,
    /// empty log, which is created before the database is used or its error
    /// reported.
    pub fn create_wal(disk: DiskManager, options: &Options) -> (created: (
        Result<Self>,
        Vec<FileOp>,
    ))
        requires
            disk.wf(),
        ensures
            match created.0 {
                Ok(db) => {
                    &&& db.wf()
                    &&& is_fresh(db@, disk.count(), log::new_wal(), *options)
                    &&& !db.reported().created
                    &&& nothing_recovered(db.reported())
                },
                Err(err) => buffer_pool::capacity_error(options.buffer_pool_pages) == Some(err@),
            },
            file_op::op_views(created.1@) == log::create_ops(),
    {
        let (wal, wal_ops) = Wal::create();
        (Self::assemble(disk, wal, options, OpenReport::default()), wal_ops)
    }

    /// Puts a database together from its opened files.
    pub fn assemble(
        disk: DiskManager,
        wal: Wal,
        options: &Options,
        report: OpenReport,
    ) -> (result: Result<Self>)
        requires
            disk.wf(),
            wal@.has_room(0),
        ensures
            match result {
                Ok(db) => {
                    &&& buffer_pool::capacity_error(options.buffer_pool_pages) is None
                    &&& db.wf()
                    &&& is_fresh(db@, disk.count(), wal@, *options)
                    &&& db.reported() == report
                },
                Err(err) => buffer_pool::capacity_error(options.buffer_pool_pages) == Some(err@),
            },
    {
        let pool = BufferPool::new(options.buffer_pool_pages)?;
        Ok(
            Database {
                disk,
                pool,
                wal,
                next_txn: 1,
                poisoned: false,
                auto_checkpoint_bytes: options.auto_checkpoint_bytes,
                report,
            },
        )
    }

    /// What happened while this database was opened.
    pub fn open_report(&self) -> (report: &OpenReport)
        ensures
            *report == self.reported(),
    {
        &self.report
    }

    /// Number of pages in the database, including the header page.
    pub fn page_count(&self) -> (count: u64)
        ensures
            count == self@.page_count,
    {
        self.disk.page_count()
    }

    /// Size of the durable part of the log in bytes, including the header.
    pub fn wal_len(&self) -> (len: u64)
        ensures
            len == self@.wal.durable_len,
    {
        self.wal.durable_len()
    }

    /// Fails if the database is poisoned.
    pub fn check_poisoned(&self) -> (result: Result<()>)
        ensures
            match result {
                Ok(_) => refusal(self@) is None,
                Err(err) => refusal(self@) == Some(err@),
            },
    {
        if self.poisoned {
            return Err(
                Error::Poisoned(
                    "an earlier failure left the database in an unknown state; reopen it to recover".to_owned(),
                ),
            );
        }
        Ok(())
    }

    /// Makes every later transaction fail until the database is reopened.
    pub fn poison(&mut self)
        ensures
            old(self).wf() ==> final(self).wf(),
            final(self)@ == poisoned(old(self)@),
            final(self).reported() == old(self).reported(),
    {
        self.poisoned = true;
    }

    /// The id for the next transaction that commits.
    pub(crate) fn next_txn_id(&mut self) -> (txn: TxnId)
        ensures
            old(self).wf() ==> final(self).wf(),
            txn.0 == old(self)@.next_txn,
            final(self)@ == (DbView {
                next_txn: old(self)@.next_txn.wrapping_add(1),
                ..old(self)@
            }),
            final(self).reported() == old(self).reported(),
    {
        let txn = TxnId(self.next_txn);
        self.next_txn = self.next_txn.wrapping_add(1);
        txn
    }

    /// How often page `id` is pinned.
    pub fn pin_count(&self, id: PageId) -> (pins: u32)
        requires
            self.wf(),
        ensures
            pins == if self@.pool.cached(id) {
                self@.pool.frames[self@.pool.frame_of(id)].pins
            } else {
                0
            },
    {
        self.pool.pin_count(id)
    }

    /// Pins page `id`, or says what has to be done first.
    pub fn fetch_page(&mut self, id: PageId) -> (result: Result<PageStep>)
        requires
            old(self).wf(),
            old(self)@.pool.cached(id)
                ==> old(self)@.pool.frames[old(self)@.pool.frame_of(id)].pins < u32::MAX,
        ensures
            final(self).wf(),
            final(self).reported() == old(self).reported(),
            ({
                let (after, step) = fetched(old(self)@, id);
                &&& final(self)@ == after
                &&& match result {
                    Ok(chosen) => chosen.shows(step, id),
                    Err(err) => step == PageStepView::Failed(err@),
                }
            }),
    {
        proof {
            self.pool.lemma_wf();
            buffer_pool::lemma_room(self.pool@);
        }
        match self.pool.fetch_page(id)? {
            Fetch::Hit(handle) => Ok(PageStep::Ready(handle)),
            Fetch::Read => {
                let offset: u64 = self.disk.page_offset(id)?;
                Ok(PageStep::Read(offset))
            },
            Fetch::WriteBack(frame) => {
                let op = self.pool.write_back(frame, &self.disk)?;
                Ok(PageStep::Write(frame, op))
            },
        }
    }

    /// Takes the outcome of writing the page in a frame to the data file. On
    /// failure the page stays dirty.
    pub fn page_written(
        &mut self,
        frame: usize,
        outcome: std::result::Result<(), std::io::Error>,
    ) -> (result: Result<()>)
        requires
            old(self).wf(),
            frame < old(self)@.pool.frames.len(),
            old(self)@.pool.frames[frame as int].page_id is Some,
        ensures
            final(self).wf(),
            final(self).reported() == old(self).reported(),
            final(self)@ == page_written_step(old(self)@, frame as int, outcome is Ok),
            match outcome {
                Ok(_) => result is Ok,
                Err(err) => result matches Err(e) && e@ == ErrorView::Io(err),
            },
    {
        match outcome {
            Ok(_) => {
                self.pool.written_back(frame);
                Ok(())
            },
            Err(err) => Err(Error::Io(err)),
        }
    }

    /// Takes what was read for page `id` from the data file, verifies it and
    /// pins it.
    pub fn page_read(
        &mut self,
        id: PageId,
        found: std::result::Result<Page, std::io::Error>,
    ) -> (result: Result<PageHandle>)
        requires
            old(self).wf(),
            !old(self)@.pool.cached(id),
            old(self)@.pool.free.len() > 0,
        ensures
            final(self).wf(),
            final(self).reported() == old(self).reported(),
            ({
                let (after, outcome) = page_read_step(old(self)@, id, found_view(found));
                &&& final(self)@ == after
                &&& match result {
                    Ok(handle) => {
                        &&& outcome == Ok::<int, ErrorView>(handle.frame())
                        &&& handle.id() == id
                        &&& final(self)@.pool.holds(handle.frame(), id)
                    },
                    Err(err) => outcome == Err::<int, ErrorView>(err@),
                }
            }),
    {
        let page = self.disk.read_page(id, found)?;
        Ok(self.pool.load_page(id, page))
    }

    /// The page behind a handle.
    pub fn page(&self, handle: &PageHandle) -> (page: &Page)
        requires
            self@.pool.holds(handle.frame(), handle.id()),
        ensures
            page@ == self@.pool.frames[handle.frame()].page,
    {
        handle.read(&self.pool)
    }

    /// Gives a handle back.
    pub fn unpin(&mut self, handle: PageHandle)
        requires
            old(self).wf(),
            old(self)@.pool.holds(handle.frame(), handle.id()),
            old(self)@.pool.frames[handle.frame()].pins > 0,
        ensures
            final(self).wf(),
            final(self).reported() == old(self).reported(),
            final(self)@ == (DbView {
                pool: buffer_pool::unpinned(old(self)@.pool, handle.frame()),
                ..old(self)@
            }),
    {
        self.pool.unpin(handle);
    }

    /// Starts a checkpoint, which writes every committed change to the data
    /// file and empties the WAL: returns what is to be done to the data file.
    /// The outcome goes to [`Database::checkpoint_written`].
    ///
    /// Durability never depends on checkpoints; they only keep the WAL
    /// small and make the next open faster.
    pub fn checkpoint(&mut self) -> (result: Result<Vec<FileOp>>)
        requires
            old(self).wf(),
        ensures
            final(self).wf(),
            final(self).reported() == old(self).reported(),
            match result {
                Ok(ops) => {
                    let len = old(self)@.pool.frames.len() as int;
                    &&& refusal(old(self)@) is None
                    &&& buffer_pool::flushable(
                        old(self)@.pool.frames,
                        old(self)@.page_count,
                        len,
                    )
                    &&& file_op::op_views(ops@) == checkpoint_ops(old(self)@)
                    &&& final(self)@ == checkpoint_started(old(self)@)
                },
                Err(err) => if refusal(old(self)@) is Some {
                    refusal(old(self)@) == Some(err@) && final(self)@ == old(self)@
                } else {
                    &&& buffer_pool::flush_fails(
                        old(self)@.pool,
                        old(self)@.page_count,
                        err@,
                        final(self)@.pool,
                    )
                    &&& final(self)@ == (DbView { pool: final(self)@.pool, ..old(self)@ })
                },
            },
    {
        self.check_poisoned()?;
        // Order matters: pages and header must be durable in the data file
        // before the WAL copies of them are discarded. A torn header write
        // here is repaired from the WAL, which is still intact until reset.
        let ghost before = self@;
        let mut ops = self.pool.flush_all(&self.disk)?;
        let ghost pages = ops@;
        ops.push(self.disk.write_file_header());
        ops.push(self.disk.sync());
        assert(file_op::op_views(ops@) =~= checkpoint_ops(before)) by {
            assert(file_op::op_views(pages) == buffer_pool::flush_ops(
                before.pool.frames,
                before.pool.frames.len() as int,
            ));
            assert forall|i: int| 0 <= i < pages.len() implies file_op::op_views(ops@)[i]
                == checkpoint_ops(before)[i] by {
                assert(file_op::op_views(ops@)[i] == file_op::op_views(pages)[i]);
            }
        }
        Ok(ops)
    }

    /// Takes the outcome of the writes to the data file; returns what is to
    /// be done to the WAL. The outcome goes to [`Database::checkpoint_done`].
    pub fn checkpoint_written(
        &mut self,
        outcome: std::result::Result<(), std::io::Error>,
    ) -> (result: Result<Vec<FileOp>>)
        requires
            old(self).wf(),
        ensures
            final(self).wf(),
            final(self).reported() == old(self).reported(),
            final(self)@ == checkpoint_flushed(old(self)@, outcome is Ok),
            match outcome {
                Err(err) => result matches Err(e) && e@ == ErrorView::Io(err),
                Ok(_) => match result {
                    Ok(ops) => log::reset_step(old(self)@.wal) == Ok::<Seq<FileOpView>, ErrorView>(
                        file_op::op_views(ops@),
                    ),
                    Err(err) => log::reset_step(old(self)@.wal) == Err::<
                        Seq<FileOpView>,
                        ErrorView,
                    >(err@),
                },
            },
    {
        match outcome {
            Ok(_) => {
                self.pool.flush_done();
                self.wal.reset()
            },
            Err(err) => Err(Error::Io(err)),
        }
    }

    /// Takes the outcome of emptying the WAL.
    pub fn checkpoint_done(
        &mut self,
        outcome: std::result::Result<(), std::io::Error>,
    ) -> (result: Result<()>)
        requires
            old(self).wf(),
            old(self)@.wal.pending.len() == 0,
        ensures
            final(self).wf(),
            final(self).reported() == old(self).reported(),
            final(self)@ == checkpoint_finished(old(self)@, outcome is Ok),
            match outcome {
                Ok(_) => result is Ok,
                Err(err) => result matches Err(e) && e@ == ErrorView::Io(err),
            },
    {
        self.wal.reset_done(outcome)
    }
}

/// What a checkpoint does to the data file: writes every dirty page, then the
/// header, then makes them durable.
pub open spec fn checkpoint_ops(db: DbView) -> Seq<FileOpView> {
    buffer_pool::flush_ops(db.pool.frames, db.pool.frames.len() as int).push(
        disk::page_write(PageId(0), file_header::encoded_header(db.page_count)),
    ).push(FileOpView::SyncAll)
}

/// A log after every record was removed.
pub open spec fn emptied(wal: WalView) -> WalView {
    WalView { durable_len: log::WAL_HEADER_SIZE as u64, ..wal }
}

impl Clone for OpenReport {
    fn clone(&self) -> (copy: Self)
        ensures
            copy.created == self.created,
            copy.recovery == self.recovery,
            match (self.discarded_wal_tail, copy.discarded_wal_tail) {
                (Some(a), Some(b)) => a.bytes == b.bytes && a.reason@ == b.reason@,
                (None, None) => true,
                _ => false,
            },
    {
        let discarded_wal_tail = match &self.discarded_wal_tail {
            Some(tail) => Some(tail.clone()),
            None => None,
        };
        OpenReport { created: self.created, recovery: self.recovery, discarded_wal_tail }
    }
}

/// By default a missing database is created, 16 MiB of pages are cached, and a
/// checkpoint runs once the log holds 4 MiB.
pub proof fn lemma_default_options()
    ensures
        ({
            let options = default_options();
            &&& options.create_if_missing
            &&& options.buffer_pool_pages * 4096 == 16 * 1024 * 1024
            &&& options.auto_checkpoint_bytes matches Some(limit) && limit == 4 * 1024 * 1024
            &&& buffer_pool::capacity_error(options.buffer_pool_pages) is None
        }),
{
}

/// Whether opening is possible, and how, depends on the files alone where the
/// data file exists: it is opened, with recovery exactly if the log exists too.
/// Only where it is missing do the options matter: then it is created, if that
/// is allowed and no log is left over.
pub proof fn lemma_open_plan(
    path: Seq<char>,
    wal_path: Seq<char>,
    wal_exists: bool,
    options: Options,
)
    ensures
        open_plan(path, wal_path, true, wal_exists, options) == Ok::<OpenPlan, ErrorView>(
            if wal_exists {
                OpenPlan::Recover
            } else {
                OpenPlan::CreateWal
            },
        ),
        open_plan(path, wal_path, false, wal_exists, options) is Ok <==> options.create_if_missing
            && !wal_exists,
        match open_plan(path, wal_path, false, wal_exists, options) {
            Ok(plan) => plan is Create,
            Err(err) => err is InvalidArgument,
        },
{
}

/// A database refuses transactions and checkpoints exactly if it is poisoned.
/// Nothing that is done to it changes that, other than reopening it.
pub proof fn lemma_refused_iff_poisoned(db: DbView, id: PageId, frame: int, done: bool)
    ensures
        refusal(db) is Some <==> db.poisoned,
        refusal(db) matches Some(err) ==> err is Poisoned,
        refusal(poisoned(db)) is Some,
        poisoned(db).page_count == db.page_count,
        poisoned(db).pool == db.pool,
        poisoned(db).wal == db.wal,
        poisoned(db).next_txn == db.next_txn,
        poisoned(db).auto_checkpoint_bytes == db.auto_checkpoint_bytes,
        fetched(db, id).0.poisoned == db.poisoned,
        page_written_step(db, frame, done).poisoned == db.poisoned,
        checkpoint_started(db).poisoned == db.poisoned,
        checkpoint_flushed(db, done).poisoned == db.poisoned,
        checkpoint_finished(db, done).poisoned == db.poisoned,
{
}

/// A database that was just opened has nothing in memory: no page is cached,
/// every frame can be used, and none is pinned. It accepts transactions, and
/// counts them from one.
pub proof fn lemma_fresh_database(db: DbView, page_count: u64, wal: WalView, options: Options)
    requires
        is_fresh(db, page_count, wal, options),
    ensures
        db.pool.wf(),
        db.pool.frames.len() == options.buffer_pool_pages,
        db.pool.free.len() == options.buffer_pool_pages,
        forall|id: PageId| !db.pool.cached(id),
        forall|frame: int|
            0 <= frame < db.pool.frames.len() ==> (#[trigger] db.pool.frames[frame]).pins == 0,
        refusal(db) is None,
        db.page_count == page_count,
        db.wal == wal,
        db.next_txn == 1,
        db.auto_checkpoint_bytes == options.auto_checkpoint_bytes,
{
    buffer_pool::lemma_empty_pool(options.buffer_pool_pages);
}

/// What asking for a page gives. A cached page is pinned at once. Any other is
/// read, from the place `id` times the page size, only if it is a data page,
/// and only into a frame that is free. Without a free frame, another page is
/// written back or thrown out; without any that can be used, the pool is
/// exhausted. Nothing but the pool changes.
pub proof fn lemma_fetch_outcomes(db: DbView, id: PageId)
    requires
        db.pool.wf(),
    ensures
        ({
            let (after, step) = fetched(db, id);
            &&& after == (DbView { pool: after.pool, ..db })
            &&& step is Ready <==> db.pool.cached(id)
            &&& match step {
                PageStepView::Ready(frame) => {
                    &&& db.pool.holds(frame, id) && after.pool.holds(frame, id)
                    &&& after.pool.frames[frame].page == db.pool.frames[frame].page
                    &&& after.pool.frames[frame].dirty == db.pool.frames[frame].dirty
                    &&& after.pool.frames[frame].referenced
                    &&& after.pool.free == db.pool.free && after.pool.hand == db.pool.hand
                    &&& forall|i: int|
                        0 <= i < db.pool.frames.len() && i != frame ==> (
                        #[trigger] after.pool.frames[i]) == db.pool.frames[i]
                    &&& db.pool.frames[frame].pins < u32::MAX ==> after.pool.frames[frame].pins
                        == db.pool.frames[frame].pins + 1
                },
                PageStepView::Read(offset) => {
                    &&& 0 < id.0 < db.page_count
                    &&& offset == id.0 * 4096
                    &&& after.pool.free.len() > 0
                },
                PageStepView::Write(frame, op) => {
                    &&& after.pool.frames[frame].dirty && after.pool.frames[frame].pins == 0
                    &&& op matches FileOpView::Write { offset, bytes } && offset == (
                    after.pool.frames[frame].page_id->0).0 * 4096 && bytes
                        == after.pool.frames[frame].page
                },
                PageStepView::Failed(err) => {
                    ||| err is ResourceExhausted && db.pool.free.len() == 0 && forall|frame: int|
                        0 <= frame < db.pool.frames.len() ==> (
                        #[trigger] db.pool.frames[frame]).pins > 0
                    ||| err is InvalidArgument
                },
            }
            &&& !db.pool.cached(id) && db.pool.free.len() > 0 ==> {
                &&& step is Read <==> 0 < id.0 < db.page_count
                &&& step is Read || step is Failed
                &&& after == db
            }
            &&& !db.pool.cached(id) && 0 < id.0 < db.page_count && db.pool.with_room().1 is Ready
                ==> step is Read
            &&& !db.pool.cached(id) ==> (db.pool.with_room().1 matches RoomView::WriteBack(frame)
                ==> {
                let id = db.pool.frames[frame].page_id->0;
                &&& 0 < id.0 < db.page_count && page::stored_id(db.pool.frames[frame].page) == id
                    ==> step is Write
                &&& step matches PageStepView::Write(at, FileOpView::Write { bytes, .. }) ==> at
                    == frame && bytes == page::sealed(db.pool.frames[frame].page)
            })
        }),
{
    let (after, step) = fetched(db, id);
    if let RoomView::WriteBack(frame) = db.pool.with_room().1 {
        buffer_pool::lemma_room(db.pool);
        let at = db.pool.with_room().0.frames[frame].page_id->0;
        assert(db.pool.with_room().0.holds(frame, at));
    }
    if db.pool.cached(id) {
        let frame = db.pool.frame_of(id);
        assert(db.pool.holds(frame, id));
        assert(after.pool.holds(frame, id));
    } else {
        buffer_pool::lemma_room(db.pool);
        if db.pool.free.len() == 0 {
            buffer_pool::lemma_room_iff_unpinned(db.pool);
        }
    }
}

/// A page that was read is cached as it was found: clean, pinned once and
/// marked as used. It takes a free frame; no other frame changes. Writing a
/// page back makes it clean and changes nothing else.
pub proof fn lemma_loaded_and_cleaned(
    pool: PoolView,
    id: PageId,
    found: Seq<u8>,
    frame: int,
    other: int,
)
    requires
        pool.wf(),
        pool.free.len() > 0,
        0 <= frame < pool.frames.len(),
    ensures
        ({
            let at = pool.free.last() as int;
            let after = loaded(pool, id, found);
            let cleaned = clean_frame(pool, frame);
            &&& after.holds(at, id)
            &&& after.frames[at].page == found
            &&& !after.frames[at].dirty
            &&& after.frames[at].pins == 1
            &&& after.frames[at].referenced
            &&& 0 <= other < pool.frames.len() && other != at ==> after.frames[other]
                == pool.frames[other]
            &&& after.free == pool.free.drop_last() && after.hand == pool.hand
            &&& cleaned.frames[frame] == (FrameView { dirty: false, ..pool.frames[frame] })
            &&& 0 <= other < pool.frames.len() && other != frame ==> cleaned.frames[other]
                == pool.frames[other]
            &&& cleaned.free == pool.free && cleaned.hand == pool.hand
        }),
{
    assert(pool.free[pool.free.len() - 1] < pool.frames.len());
}

/// A page that was read is handed out exactly if it is a data page and what was
/// found is valid: its first four bytes are the checksum of the others, its type
/// is known, and it holds its own id. Anything else changes nothing.
pub proof fn lemma_page_read_outcomes(
    db: DbView,
    id: PageId,
    found: std::result::Result<Seq<u8>, std::io::Error>,
)
    requires
        db.pool.wf(),
        db.pool.free.len() > 0,
        found matches Ok(contents) ==> contents.len() == 4096,
    ensures
        ({
            let (after, outcome) = page_read_step(db, id, found);
            &&& after == (DbView { pool: after.pool, ..db })
            &&& outcome is Ok <==> 0 < id.0 < db.page_count && (found matches Ok(contents) && {
                &&& contents.take(4) == bytes::le_bytes(
                    checksum::crc32c_of(contents.skip(4)) as nat,
                    4,
                )
                &&& contents[4] == 1 || contents[4] == 2
                &&& contents[5] == 0 && contents[6] == 0 && contents[7] == 0
                &&& contents.subrange(8, 16) == bytes::le_bytes(id.0 as nat, 8)
            })
            &&& match outcome {
                Ok(frame) => {
                    &&& after.pool.holds(frame, id)
                    &&& Ok::<Seq<u8>, std::io::Error>(after.pool.frames[frame].page) == found
                    &&& after.pool.frames[frame].pins == 1
                },
                Err(err) => {
                    &&& after == db
                    &&& err is InvalidArgument <==> !(0 < id.0 < db.page_count)
                    &&& 0 < id.0 < db.page_count ==> match found {
                        Ok(_) => err is Corruption,
                        Err(io) => err == ErrorView::Io(io),
                    }
                },
            }
        }),
{
    disk::lemma_data_pages(id, db.page_count);
    assert(db.pool.free[db.pool.free.len() - 1] < db.pool.frames.len());
    if let Ok(contents) = found {
        disk::lemma_page_is_verified(id, db.page_count, contents);
        page::lemma_valid_page(contents, id);
    }
}

/// What the outcomes of a checkpoint make of the database. Once the pages are
/// written, none is dirty; a failure leaves everything as it was. Once the log
/// is emptied, it is as long as its header; if that failed, it is poisoned.
pub proof fn lemma_checkpoint_outcomes(db: DbView, frame: int)
    requires
        0 <= frame < db.pool.frames.len(),
    ensures
        ({
            let flushed = checkpoint_flushed(db, true);
            let done = checkpoint_finished(db, true);
            let failed = checkpoint_finished(db, false);
            &&& !flushed.pool.frames[frame].dirty
            &&& flushed.pool.frames[frame].page == db.pool.frames[frame].page
            &&& flushed.pool.frames[frame].page_id == db.pool.frames[frame].page_id
            &&& flushed.pool.frames[frame].pins == db.pool.frames[frame].pins
            &&& flushed == (DbView { pool: flushed.pool, ..db })
            &&& checkpoint_flushed(db, false) == db
            &&& done == (DbView { wal: done.wal, ..db })
            &&& done.wal.durable_len == 24
            &&& done.wal.pending == db.wal.pending
            &&& done.wal.next_seq == db.wal.next_seq
            &&& done.wal.poisoned == db.wal.poisoned
            &&& failed == (DbView { wal: failed.wal, ..db })
            &&& failed.wal.poisoned
            &&& failed.wal.durable_len == db.wal.durable_len
            &&& checkpoint_started(db) == (DbView { pool: checkpoint_started(db).pool, ..db })
        }),
{
    buffer_pool::lemma_flush_cleans(
        db.pool,
        db.pool.frames.len() as int,
        db.page_count,
        frame,
    );
}

/// What a checkpoint does to the data file, in this order: it writes each dirty
/// page once, then the header, and then fsyncs everything.
pub proof fn lemma_checkpoint_order(db: DbView)
    requires
        db.pool.wf(),
    ensures
        ({
            let ops = checkpoint_ops(db);
            let pages = buffer_pool::dirty_count(db.pool.frames) as int;
            &&& ops.len() == pages + 2
            &&& ops[pages + 1] is SyncAll
            &&& ops[pages] == (FileOpView::Write {
                offset: 0,
                bytes: file_header::encoded_header(db.page_count),
            })
            &&& forall|frame: int|
                0 <= frame < db.pool.frames.len() && (#[trigger] db.pool.frames[frame]).dirty
                    ==> ops.take(pages).contains(
                    FileOpView::Write {
                        offset: ((db.pool.frames[frame].page_id->0).0 * 4096) as nat,
                        bytes: page::sealed(db.pool.frames[frame].page),
                    },
                )
        }),
{
    let frames = db.pool.frames;
    let ops = checkpoint_ops(db);
    let flushes = buffer_pool::flush_ops(frames, frames.len() as int);
    buffer_pool::lemma_flush_writes_dirty_pages(frames, frames.len() as int);
    assert(frames.take(frames.len() as int) =~= frames);
    assert(ops.take(flushes.len() as int) =~= flushes);
}

} // verus!
