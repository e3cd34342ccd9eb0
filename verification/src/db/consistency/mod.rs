//! Why a crash loses nothing that was committed and keeps nothing that was
//! not.
//!
//! At any time the committed state is what recovery would make of the two
//! files: the latest committed image of a page if the log holds one, else the
//! page in the data file. The laws here say what each step of the database
//! does to that state, and what is left of it if power is lost in between.

pub mod checkpoint;
pub mod commit;
pub mod crash;
pub mod durability;
pub mod reading;

use vstd::prelude::*;

use crate::db::{self, DbView, Options};
use crate::storage::buffer_pool::{FrameView, PoolView};
use crate::storage::disk::MAX_PAGE_COUNT;
use crate::storage::file_op::FileOpView;
use crate::storage::page::{PageId, PAGE_SIZE};
use crate::storage::wal::log;
use crate::storage::wal::record::{DecodedView, RecordView};
use crate::storage::{buffer_pool, disk, file_header, file_op, page, recovery};

verus! {

/// The contents of the two files of a database: the data file, and a log
/// file that holds `log`, numbered from `first_seq`.
pub struct Files {
    pub data: Seq<u8>,
    pub log: Seq<RecordView>,
    pub first_seq: u64,
}

impl Files {
    /// The records in the log.
    pub open spec fn records(self) -> Seq<DecodedView> {
        log::numbered(self.log, self.first_seq)
    }

    /// The latest committed image of every page in the log.
    pub open spec fn images(self) -> Map<PageId, Seq<u8>> {
        recovery::replayed(self.records())->Ok_0
    }

    /// A page as committed.
    pub open spec fn committed(self, id: PageId) -> Seq<u8> {
        recovery::restored_page(self.data, self.images(), id)
    }

    /// The log can be read back and replayed.
    pub open spec fn log_ok(self) -> bool {
        &&& log::all_wf(self.log)
        &&& self.first_seq + self.log.len() <= u64::MAX
        &&& recovery::replayed(self.records()) is Ok
    }

    /// The committed state is a valid database with `page_count` pages, and
    /// every page without an image is in the data file.
    pub open spec fn state_ok(self, page_count: u64) -> bool {
        &&& 1 <= page_count <= MAX_PAGE_COUNT
        &&& self.committed(PageId(0)) == file_header::encoded_header(page_count)
        &&& forall|id: PageId|
            0 < id.0 < page_count ==> page::verified_header(#[trigger] self.committed(id), id) is Ok
        &&& forall|id: PageId| #[trigger] self.images().contains_key(id) ==> id.0 < page_count
        &&& forall|id: PageId|
            id.0 < page_count && !(#[trigger] self.images().contains_key(id)) ==> (id.0 + 1)
                * PAGE_SIZE <= self.data.len()
    }

    /// The files after the data file changed.
    pub open spec fn with_data(self, data: Seq<u8>) -> Files {
        Files { data, ..self }
    }
}

/// Whether two pairs of files hold the same committed state.
pub open spec fn same_state(a: Files, b: Files) -> bool {
    forall|id: PageId| #[trigger] a.committed(id) == b.committed(id)
}

/// The log in memory goes on where the log file ends, and no transaction in
/// it has the id of a later one.
pub open spec fn wal_in_step(db: DbView, files: Files) -> bool {
    &&& files.log_ok()
    &&& db.wal.next_seq == files.first_seq + files.log.len()
    &&& db.wal.durable_len == log::log_file(files.log, files.first_seq).len()
    &&& db.wal.pending.len() == 0
    &&& !db.wal.poisoned
    &&& forall|i: int| 0 <= i < files.log.len() ==> (#[trigger] files.log[i]).txn().0 < db.next_txn
}

/// A cached page is a valid data page. If it is dirty, the log holds an image
/// of it. Unless a newer version of it is still to be published, it is the
/// committed one, and if it is clean, so is the one in the data file.
pub open spec fn frame_in_step(
    frame: FrameView,
    id: PageId,
    files: Files,
    page_count: u64,
    left: Set<PageId>,
) -> bool {
    &&& 0 < id.0 < page_count
    &&& frame.page.len() == PAGE_SIZE
    &&& page::verified_header(frame.page, id) is Ok
    &&& frame.dirty ==> files.images().contains_key(id)
    &&& !left.contains(id) ==> frame.page == files.committed(id)
    &&& !left.contains(id) && !frame.dirty ==> disk::page_of(files.data, id) == frame.page
}

/// Every cached page is in step with the files, and every page that is not
/// dirty in the cache is in the data file as committed.
pub open spec fn pool_in_step(
    pool: PoolView,
    files: Files,
    page_count: u64,
    left: Set<PageId>,
) -> bool {
    &&& pool.wf()
    &&& forall|frame: int, id: PageId| #[trigger]
        pool.holds(frame, id) ==> frame_in_step(pool.frames[frame], id, files, page_count, left)
    &&& forall|id: PageId|
        0 < id.0 < page_count && !left.contains(id) && #[trigger] files.images().contains_key(id)
            && !on_disk(files, id) ==> dirty_in(pool, id)
}

/// Whether the data file holds a page as committed.
pub open spec fn on_disk(files: Files, id: PageId) -> bool {
    &&& disk::page_of(files.data, id) == files.committed(id)
    &&& (id.0 + 1) * PAGE_SIZE <= files.data.len()
}

/// Whether a page is cached and dirty.
pub open spec fn dirty_in(pool: PoolView, id: PageId) -> bool {
    exists|frame: int| #[trigger] pool.holds(frame, id) && pool.frames[frame].dirty
}

/// Memory and files are in step, but for the pages `left`, of which newer
/// versions are in the log and still to be published.
pub open spec fn in_step(db: DbView, files: Files, page_count: u64, left: Set<PageId>) -> bool {
    &&& wal_in_step(db, files)
    &&& files.state_ok(page_count)
    &&& pool_in_step(db.pool, files, page_count, left)
    &&& forall|id: PageId| #[trigger]
        left.contains(id) ==> 0 < id.0 < page_count && files.images().contains_key(id)
}

/// What a reader gets at is the committed state.
pub open spec fn readable(db: DbView, files: Files) -> bool {
    &&& files.log_ok()
    &&& files.state_ok(db.page_count)
    &&& pool_in_step(db.pool, files, db.page_count, Set::empty())
}

/// Memory and files are in step.
pub open spec fn consistent(db: DbView, files: Files) -> bool {
    wal_in_step(db, files) && readable(db, files)
}

/// What recovery takes from a log is whole pages.
pub proof fn lemma_images_ok(files: Files)
    requires
        files.log_ok(),
    ensures
        recovery::page_images(files.images()),
{
    assert(log::plain(files.records()) =~= files.log);
    recovery::lemma_images_are_pages(
        files.records(),
        recovery::committed_txns(files.records()),
    );
}

/// A committed page is one page long.
pub proof fn lemma_committed_len(files: Files, id: PageId)
    requires
        files.log_ok(),
    ensures
        files.committed(id).len() == PAGE_SIZE,
{
    lemma_images_ok(files);
}

/// If only pages with an image in the log change in the data file, the
/// committed state stays the same. So power may be lost while such a page is
/// written, and may leave anything in its place.
pub proof fn lemma_logged_pages_may_tear(files: Files, data: Seq<u8>)
    requires
        forall|id: PageId|
            !files.images().contains_key(id) ==> #[trigger] disk::page_of(data, id)
                == disk::page_of(files.data, id),
    ensures
        same_state(files, files.with_data(data)),
{
    let after = files.with_data(data);
    assert(after.images() == files.images());
    assert forall|id: PageId| #[trigger] files.committed(id) == after.committed(id) by {
        assert(disk::page_of(data, id) == disk::page_of(data, id));
    }
}

/// A new database is in step with its files.
pub proof fn lemma_created_in_step(db: DbView, options: Options)
    requires
        db::is_fresh(db, 1, log::new_wal(), options),
    ensures
        ({
            let data = file_op::all_applied(Seq::empty(), disk::create_ops());
            let wal = file_op::all_applied(Seq::empty(), log::create_ops());
            let files = Files { data, log: Seq::empty(), first_seq: 0 };
            &&& wal == log::log_file(files.log, files.first_seq)
            &&& consistent(db, files)
        }),
{
    let header = file_header::encoded_header(1);
    let write = disk::page_write(PageId(0), header);
    let data = file_op::all_applied(Seq::empty(), disk::create_ops());
    let files = Files { data, log: Seq::empty(), first_seq: 0 };
    file_header::lemma_header_round_trips(1);
    file_op::lemma_two_applied(Seq::empty(), write, FileOpView::SyncAll);
    disk::lemma_page_written(Seq::empty(), PageId(0), header);
    lemma_empty_log(files);
    lemma_missing_log_is_empty(db, files, options);
}

/// A data file without a log is a database without anything to recover: once
/// a log is created for it, memory is in step with the two.
pub proof fn lemma_missing_log_is_empty(db: DbView, files: Files, options: Options)
    requires
        files.log.len() == 0,
        files.first_seq == 0,
        files.state_ok(db.page_count),
        db::is_fresh(db, db.page_count, log::new_wal(), options),
    ensures
        file_op::all_applied(Seq::empty(), log::create_ops()) == log::log_file(
            files.log,
            files.first_seq,
        ),
        consistent(db, files),
        forall|id: PageId| #[trigger] files.committed(id) == disk::page_of(files.data, id),
{
    log::lemma_wal_header_len(0);
    file_op::lemma_two_applied(
        Seq::empty(),
        FileOpView::Write { offset: 0, bytes: log::encoded_header(0) },
        FileOpView::SyncAll,
    );
    assert(file_op::written(Seq::empty(), 0, log::encoded_header(0)) =~= log::log_file(
        files.log,
        0,
    ));
    lemma_empty_log(files);
    buffer_pool::lemma_empty_pool(options.buffer_pool_pages);
    lemma_fresh_in_step(db, files);
}

/// Without records, the committed state is the data file.
pub proof fn lemma_empty_log(files: Files)
    requires
        files.log.len() == 0,
    ensures
        files.log_ok(),
        files.images() == Map::<PageId, Seq<u8>>::empty(),
        forall|id: PageId| #[trigger] files.committed(id) == disk::page_of(files.data, id),
{
    assert(files.records() =~= Seq::empty());
}

/// With nothing cached, and nothing in the log, memory is in step with a
/// valid data file.
pub proof fn lemma_fresh_in_step(db: DbView, files: Files)
    requires
        files.log.len() == 0,
        db.pool.wf(),
        forall|id: PageId| !db.pool.cached(id),
        db.wal.next_seq == files.first_seq,
        db.wal.durable_len == log::WAL_HEADER_SIZE,
        db.wal.pending.len() == 0,
        !db.wal.poisoned,
        files.state_ok(db.page_count),
    ensures
        consistent(db, files),
{
    lemma_empty_log(files);
    log::lemma_wal_header_len(files.first_seq);
    assert forall|frame: int, id: PageId| !(#[trigger] db.pool.holds(frame, id)) by {
        assert(!db.pool.cached(id));
    }
}

} // verus!
