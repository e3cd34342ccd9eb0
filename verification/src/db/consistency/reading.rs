//! Reading pages and writing them back leaves the committed state alone.

use vstd::prelude::*;

use super::Files;
use crate::db::{self, consistency, txn, DbView, PageStepView};
use crate::error::ErrorView;
use crate::storage::buffer_pool::{FrameView, PoolView, RoomView};
use crate::storage::page::{PageId, PAGE_SIZE};
use crate::storage::{buffer_pool, disk, file_op, page};

verus! {

/// Making room keeps the cache in step.
pub proof fn lemma_room_in_step(pool: PoolView, files: Files, page_count: u64, left: Set<PageId>)
    requires
        consistency::pool_in_step(pool, files, page_count, left),
    ensures
        consistency::pool_in_step(pool.with_room().0, files, page_count, left),
{
    let (after, room) = pool.with_room();
    buffer_pool::lemma_room(pool);
    assert forall|frame: int, id: PageId| #[trigger] after.holds(frame, id) implies consistency::frame_in_step(
        after.frames[frame],
        id,
        files,
        page_count,
        left,
    ) by {
        assert(pool.holds(frame, id));
    }
    assert forall|id: PageId|
        0 < id.0 < page_count && !left.contains(id) && #[trigger] files.images().contains_key(id)
            && !consistency::on_disk(files, id) implies consistency::dirty_in(
        after,
        id,
    ) by {
        let frame = choose|frame: int| #[trigger] pool.holds(frame, id)
            && pool.frames[frame].dirty;
        assert(after.holds(frame, id));
    }
}

/// Changing the pins or the reference mark of a cached page keeps the cache
/// in step.
pub proof fn lemma_marks_in_step(
    pool: PoolView,
    files: Files,
    page_count: u64,
    left: Set<PageId>,
    at: int,
    contents: FrameView,
)
    requires
        consistency::pool_in_step(pool, files, page_count, left),
        0 <= at < pool.frames.len(),
        pool.frames[at].page_id is Some,
        contents == (FrameView {
            pins: contents.pins,
            referenced: contents.referenced,
            ..pool.frames[at]
        }),
    ensures
        consistency::pool_in_step(pool.with_frame(at, contents), files, page_count, left),
{
    let after = pool.with_frame(at, contents);
    buffer_pool::lemma_with_frame(pool, at, contents);
    assert forall|frame: int, id: PageId| #[trigger] after.holds(frame, id) implies consistency::frame_in_step(
        after.frames[frame],
        id,
        files,
        page_count,
        left,
    ) by {
        assert(pool.holds(frame, id));
    }
    assert forall|id: PageId|
        0 < id.0 < page_count && !left.contains(id) && #[trigger] files.images().contains_key(id)
            && !consistency::on_disk(files, id) implies consistency::dirty_in(
        after,
        id,
    ) by {
        let frame = choose|frame: int| #[trigger] pool.holds(frame, id)
            && pool.frames[frame].dirty;
        assert(after.holds(frame, id));
    }
}

/// Writing a dirty page back: the write is possible, and the page is written
/// as it is. The log holds an image of it, so power may be lost meanwhile.
pub proof fn lemma_write_step(
    pool: PoolView,
    files: Files,
    page_count: u64,
    left: Set<PageId>,
    at: int,
)
    requires
        consistency::pool_in_step(pool, files, page_count, left),
        0 <= at < pool.frames.len(),
        pool.frames[at].page_id is Some,
        pool.frames[at].dirty,
    ensures
        ({
            let id = pool.frames[at].page_id->0;
            &&& db::write_step(pool, at, page_count) == (
                pool,
                PageStepView::Write(at, disk::page_write(id, pool.frames[at].page)),
            )
            &&& files.images().contains_key(id)
        }),
{
    let contents = pool.frames[at];
    let id = contents.page_id->0;
    assert(pool.holds(at, id));
    page::lemma_valid_page_is_sealed(contents.page, id);
    assert(pool.with_frame(at, contents) =~= pool);
}

/// Once a dirty page is written back, the committed state is the same and
/// memory is in step with the files again.
pub proof fn lemma_page_written_back(
    pool: PoolView,
    files: Files,
    page_count: u64,
    left: Set<PageId>,
    at: int,
)
    requires
        consistency::pool_in_step(pool, files, page_count, left),
        files.log_ok(),
        files.state_ok(page_count),
        0 <= at < pool.frames.len(),
        pool.frames[at].page_id is Some,
        pool.frames[at].dirty,
    ensures
        ({
            let id = pool.frames[at].page_id->0;
            let after = files.with_data(
                file_op::applied(files.data, disk::page_write(id, pool.frames[at].page)),
            );
            &&& consistency::same_state(files, after)
            &&& after.images() == files.images()
            &&& after.state_ok(page_count)
            &&& consistency::pool_in_step(db::clean_frame(pool, at), after, page_count, left)
        }),
{
    let contents = pool.frames[at];
    let written = contents.page_id->0;
    let data = file_op::applied(files.data, disk::page_write(written, contents.page));
    let after = files.with_data(data);
    let clean = db::clean_frame(pool, at);
    let cleaned = FrameView { dirty: false, ..contents };
    assert(pool.holds(at, written));
    disk::lemma_page_written(files.data, written, contents.page);
    buffer_pool::lemma_with_frame(pool, at, cleaned);
    assert(after.images() == files.images());
    consistency::lemma_logged_pages_may_tear(files, data);
    assert forall|id: PageId| 0 < id.0 < page_count implies page::verified_header(
        #[trigger] after.committed(id),
        id,
    ) is Ok by {
        assert(files.committed(id) == after.committed(id));
    }
    assert(files.committed(PageId(0)) == after.committed(PageId(0)));
    assert(after.state_ok(page_count)) by {
        assert forall|id: PageId|
            id.0 < page_count && !(#[trigger] after.images().contains_key(id)) implies (id.0 + 1)
            * PAGE_SIZE <= after.data.len() by {
            assert(!files.images().contains_key(id));
        }
    }
    assert forall|frame: int, id: PageId| #[trigger] clean.holds(frame, id) implies consistency::frame_in_step(
        clean.frames[frame],
        id,
        after,
        page_count,
        left,
    ) by {
        assert(pool.holds(frame, id));
        assert(files.committed(id) == after.committed(id));
        if frame != at {
            assert(id != written);
            assert(disk::page_of(data, id) == disk::page_of(files.data, id));
        }
    }
    assert forall|id: PageId|
        0 < id.0 < page_count && !left.contains(id) && #[trigger] after.images().contains_key(id)
            && !consistency::on_disk(after, id) implies consistency::dirty_in(
        clean,
        id,
    ) by {
        assert(files.committed(id) == after.committed(id));
        assert(files.images().contains_key(id));
        assert(id != written);
        assert(disk::page_of(data, id) == disk::page_of(files.data, id));
        let frame = choose|frame: int| #[trigger] pool.holds(frame, id)
            && pool.frames[frame].dirty;
        assert(clean.holds(frame, id));
        assert(frame != at);
    }
}

/// Getting at a page: a step keeps the committed state the same and readable,
/// and in the end gives the committed version of the page. It fails only if
/// every frame is pinned. The log is not touched.
pub proof fn lemma_fetch_gives_committed(db: DbView, files: Files, id: PageId)
    requires
        consistency::readable(db, files),
        0 < id.0 < db.page_count,
    ensures
        ({
            let (after, step) = db::fetched(db, id);
            &&& consistency::readable(after, files)
            &&& after == (DbView { pool: after.pool, ..db })
            &&& match step {
                PageStepView::Ready(frame) => {
                    &&& after.pool.holds(frame, id)
                    &&& after.pool.frames[frame].page == files.committed(id)
                },
                PageStepView::Read(offset) => {
                    let found = disk::page_of(files.data, id);
                    let loaded = DbView {
                        pool: db::loaded(after.pool, id, found),
                        ..after
                    };
                    &&& offset == id.0 * PAGE_SIZE
                    &&& offset + PAGE_SIZE <= files.data.len()
                    &&& found == files.committed(id)
                    &&& disk::page_read(id, db.page_count, found) == Ok::<Seq<u8>, ErrorView>(found)
                    &&& !after.pool.cached(id)
                    &&& after.pool.free.len() > 0
                    &&& consistency::readable(loaded, files)
                },
                PageStepView::Write(frame, op) => {
                    let written = files.with_data(file_op::applied(files.data, op));
                    let cleaned = DbView {
                        pool: db::clean_frame(after.pool, frame),
                        ..after
                    };
                    &&& op == disk::page_write(
                        after.pool.frames[frame].page_id->0,
                        after.pool.frames[frame].page,
                    )
                    &&& files.images().contains_key(after.pool.frames[frame].page_id->0)
                    &&& consistency::same_state(files, written)
                    &&& consistency::readable(cleaned, written)
                },
                PageStepView::Failed(err) => {
                    &&& err == buffer_pool::exhausted(db.pool.frames.len())
                    &&& forall|frame: int|
                        0 <= frame < db.pool.frames.len() ==> (
                        #[trigger] db.pool.frames[frame]).pins > 0
                },
            }
        }),
{
    let count = db.page_count;
    let none = Set::<PageId>::empty();
    let (after, step) = db::fetched(db, id);
    if db.pool.cached(id) {
        let frame = db.pool.frame_of(id);
        assert(db.pool.holds(frame, id));
        lemma_marks_in_step(db.pool, files, count, none, frame, after.pool.frames[frame]);
        assert(after.pool.holds(frame, id));
    } else {
        buffer_pool::lemma_room(db.pool);
        lemma_room_in_step(db.pool, files, count, none);
        let (pool, room) = db.pool.with_room();
        assert(!pool.cached(id)) by {
            if pool.cached(id) {
                assert(db.pool.holds(pool.frame_of(id), id));
            }
        }
        match room {
            RoomView::Exhausted => {
                assert(db.pool.free.len() == 0);
                buffer_pool::lemma_room_iff_unpinned(db.pool);
            },
            RoomView::Ready => {
                let found = disk::page_of(files.data, id);
                assert(consistency::on_disk(files, id)) by {
                    if files.images().contains_key(id) && !consistency::on_disk(files, id) {
                        assert(consistency::dirty_in(db.pool, id));
                    }
                }
                assert(page::verified_header(files.committed(id), id) is Ok);
                lemma_loaded_in_step(pool, files, count, id, found);
            },
            RoomView::WriteBack(frame) => {
                lemma_write_step(pool, files, count, none, frame);
                lemma_page_written_back(pool, files, count, none, frame);
            },
        }
    }
}

/// Caching the committed version of a page keeps the cache in step.
proof fn lemma_loaded_in_step(
    pool: PoolView,
    files: Files,
    page_count: u64,
    id: PageId,
    found: Seq<u8>,
)
    requires
        consistency::pool_in_step(pool, files, page_count, Set::empty()),
        !pool.cached(id),
        pool.free.len() > 0,
        0 < id.0 < page_count,
        found == disk::page_of(files.data, id),
        found == files.committed(id),
        page::verified_header(found, id) is Ok,
    ensures
        consistency::pool_in_step(db::loaded(pool, id, found), files, page_count, Set::empty()),
{
    let none = Set::<PageId>::empty();
    let contents = FrameView {
        page: found,
        dirty: false,
        page_id: Some(id),
        pins: 1,
        referenced: true,
    };
    let after = db::loaded(pool, id, found);
    buffer_pool::lemma_filled(pool, contents, id);
    let at = pool.free.last() as int;
    assert forall|frame: int, other: PageId| #[trigger] after.holds(frame, other) implies
        consistency::frame_in_step(after.frames[frame], other, files, page_count, none) by {
        if frame != at {
            assert(pool.holds(frame, other));
        }
    }
    assert forall|other: PageId|
        0 < other.0 < page_count && !none.contains(other)
            && #[trigger] files.images().contains_key(other) && !consistency::on_disk(
            files,
            other,
        ) implies consistency::dirty_in(after, other) by {
        let frame = choose|frame: int| #[trigger] pool.holds(frame, other)
            && pool.frames[frame].dirty;
        assert(frame != at);
        assert(after.holds(frame, other));
    }
}

/// Giving a page back keeps the committed state readable.
pub proof fn lemma_unpin_keeps_readable(db: DbView, files: Files, frame: int, id: PageId)
    requires
        consistency::readable(db, files),
        db.pool.holds(frame, id),
    ensures
        consistency::readable(
            DbView { pool: buffer_pool::unpinned(db.pool, frame), ..db },
            files,
        ),
{
    let after = buffer_pool::unpinned(db.pool, frame);
    lemma_marks_in_step(
        db.pool,
        files,
        db.page_count,
        Set::empty(),
        frame,
        after.frames[frame],
    );
}

/// A write transaction's first copy of a page is the committed version, and
/// making it leaves the committed state as it is. So a transaction that is
/// rolled back leaves no trace.
pub proof fn lemma_private_copy(db: DbView, files: Files, id: PageId)
    requires
        consistency::consistent(db, files),
        0 < id.0 < db.page_count,
        db::fetched(db, id).1 is Ready,
    ensures
        ({
            let (after, step) = db::fetched(db, id);
            let frame = step->Ready_0;
            &&& db.pool.frames[frame].page == files.committed(id)
            &&& consistency::consistent(
                DbView { pool: buffer_pool::unpinned(after.pool, frame), ..after },
                files,
            )
        }),
{
    let (after, step) = db::fetched(db, id);
    lemma_fetch_gives_committed(db, files, id);
    lemma_unpin_keeps_readable(after, files, step->Ready_0, id);
}

/// Getting at a page takes at most one write and one read. A write makes one
/// frame less dirty, of a page that is not pinned, and after it no other is
/// asked for: the page is to be read, unless it is no data page at all. Once
/// the page was read, it is at hand.
pub proof fn lemma_fetch_ends(db: DbView, id: PageId, found: Seq<u8>)
    requires
        db.pool.wf(),
    ensures
        ({
            let (after, step) = db::fetched(db, id);
            match step {
                PageStepView::Write(frame, _) => {
                    let cleaned = DbView { pool: db::clean_frame(after.pool, frame), ..after };
                    &&& 0 <= frame < db.pool.frames.len()
                    &&& db.pool.frames[frame].pins == 0
                    &&& buffer_pool::dirty_count(cleaned.pool.frames) < buffer_pool::dirty_count(
                        db.pool.frames,
                    )
                    &&& db::fetched(cleaned, id).1 == match disk::data_page_error(
                        id,
                        db.page_count,
                    ) {
                        Some(err) => PageStepView::Failed(err),
                        None => PageStepView::Read((id.0 * PAGE_SIZE) as nat),
                    }
                },
                PageStepView::Read(_) => {
                    let loaded = DbView { pool: db::loaded(after.pool, id, found), ..after };
                    db::fetched(loaded, id).1 is Ready
                },
                _ => true,
            }
        }),
{
    let (after, step) = db::fetched(db, id);
    buffer_pool::lemma_room(db.pool);
    match step {
        PageStepView::Write(frame, _) => {
            let pool = db.pool.with_room().0;
            let contents = FrameView { dirty: false, ..after.pool.frames[frame] };
            let cleaned = db::clean_frame(after.pool, frame);
            buffer_pool::lemma_write_back_makes_room(db.pool, frame, contents);
            assert(cleaned =~= pool.with_frame(frame, contents));
            assert(!cleaned.cached(id)) by {
                if cleaned.cached(id) {
                    let at = cleaned.frame_of(id);
                    assert(pool.holds(at, id));
                    assert(db.pool.holds(at, id));
                }
            }
        },
        PageStepView::Read(_) => {
            let loaded = db::loaded(after.pool, id, found);
            assert(after.pool.free[after.pool.free.len() - 1] < after.pool.frames.len());
            assert(loaded.holds(after.pool.free.last() as int, id));
        },
        _ => {},
    }
}

/// Whether some frame is not pinned, so that room can be made in it.
pub open spec fn has_unpinned(pool: PoolView) -> bool {
    exists|frame: int|
        0 <= frame < pool.frames.len() && (#[trigger] pool.frames[frame]).pins == 0
}

/// Reading page `id` from beginning to end, where `data` is the data file: the
/// page is pinned, with at most `writes` other pages written back to make
/// room, and given back. The result is the database, the data file and the
/// page, if nothing fails on the way.
pub open spec fn read_run(db: DbView, data: Seq<u8>, id: PageId, writes: nat) -> Option<
    (DbView, Seq<u8>, Seq<u8>),
>
    decreases writes,
{
    let (after, step) = db::fetched(db, id);
    match step {
        PageStepView::Ready(frame) => if db.pool.frames[frame].pins == u32::MAX {
            None
        } else {
            Some(
                (
                    DbView { pool: buffer_pool::unpinned(after.pool, frame), ..after },
                    data,
                    after.pool.frames[frame].page,
                ),
            )
        },
        PageStepView::Read(offset) => {
            let found = disk::page_of(data, id);
            let loaded = db::loaded(after.pool, id, found);
            if offset + PAGE_SIZE <= data.len() && disk::page_read(id, db.page_count, found)
                is Ok {
                Some(
                    (
                        DbView {
                            pool: buffer_pool::unpinned(loaded, after.pool.free.last() as int),
                            ..after
                        },
                        data,
                        found,
                    ),
                )
            } else {
                None
            }
        },
        PageStepView::Write(frame, op) => if writes == 0 {
            None
        } else {
            read_run(
                DbView { pool: db::clean_frame(after.pool, frame), ..after },
                file_op::applied(data, op),
                id,
                (writes - 1) as nat,
            )
        },
        PageStepView::Failed(_) => None,
    }
}

/// Reading a page gives its committed version and leaves the committed state
/// as it is, and readable. The number of pages and the log stay the same.
pub proof fn lemma_read_gives_committed(db: DbView, files: Files, id: PageId, writes: nat)
    requires
        consistency::readable(db, files),
        0 < id.0 < db.page_count,
    ensures
        read_run(db, files.data, id, writes) matches Some((after, data, page)) ==> {
            &&& page == files.committed(id)
            &&& consistency::same_state(files, files.with_data(data))
            &&& consistency::readable(after, files.with_data(data))
            &&& after == (DbView { pool: after.pool, ..db })
            &&& has_unpinned(db.pool) ==> has_unpinned(after.pool)
        },
    decreases writes,
{
    let (after, step) = db::fetched(db, id);
    lemma_fetch_gives_committed(db, files, id);
    assert(files.with_data(files.data) == files);
    match step {
        PageStepView::Ready(frame) => {
            let done = buffer_pool::unpinned(after.pool, frame);
            lemma_unpin_keeps_readable(after, files, frame, id);
            if db.pool.frames[frame].pins < u32::MAX {
                assert forall|i: int| 0 <= i < db.pool.frames.len() implies (
                #[trigger] done.frames[i]).pins == db.pool.frames[i].pins by {}
                if has_unpinned(db.pool) {
                    let i = choose|i: int|
                        0 <= i < db.pool.frames.len() && (#[trigger] db.pool.frames[i]).pins == 0;
                    assert(done.frames[i].pins == 0);
                }
            }
        },
        PageStepView::Read(_) => {
            let found = disk::page_of(files.data, id);
            let loaded = DbView { pool: db::loaded(after.pool, id, found), ..after };
            let at = after.pool.free.last() as int;
            assert(after.pool.free[after.pool.free.len() - 1] < after.pool.frames.len());
            assert(loaded.pool.holds(at, id));
            lemma_unpin_keeps_readable(loaded, files, at, id);
            assert(buffer_pool::unpinned(loaded.pool, at).frames[at].pins == 0);
        },
        PageStepView::Write(frame, op) => {
            if writes > 0 {
                let written = files.with_data(file_op::applied(files.data, op));
                let cleaned = DbView { pool: db::clean_frame(after.pool, frame), ..after };
                lemma_read_gives_committed(cleaned, written, id, (writes - 1) as nat);
                if let Some((_, data, _)) = read_run(
                    cleaned,
                    written.data,
                    id,
                    (writes - 1) as nat,
                ) {
                    assert(written.with_data(data) == files.with_data(data));
                    assert forall|other: PageId| #[trigger]
                        files.committed(other) == files.with_data(data).committed(other) by {
                        assert(files.committed(other) == written.committed(other));
                        assert(written.committed(other) == written.with_data(data).committed(
                            other,
                        ));
                    }
                }
                lemma_fetch_ends(db, id, Seq::empty());
                buffer_pool::lemma_room(db.pool);
                assert(cleaned.pool.frames[frame].pins == 0);
            }
        },
        PageStepView::Failed(_) => {},
    }
}

/// Whether page `id` can be pinned: it is cached, and not pinned as often as
/// can be counted, or some frame is not pinned.
pub open spec fn can_pin(pool: PoolView, id: PageId) -> bool {
    if pool.cached(id) {
        pool.frames[pool.frame_of(id)].pins < u32::MAX
    } else {
        has_unpinned(pool)
    }
}

/// Where a page can be pinned, reading it succeeds, with at most one other page
/// written back.
pub proof fn lemma_read_succeeds(db: DbView, files: Files, id: PageId)
    requires
        consistency::readable(db, files),
        0 < id.0 < db.page_count,
        can_pin(db.pool, id),
    ensures
        read_run(db, files.data, id, 1) is Some,
{
    let (after, step) = db::fetched(db, id);
    lemma_fetch_gives_committed(db, files, id);
    if let PageStepView::Write(frame, op) = step {
        let written = files.with_data(file_op::applied(files.data, op));
        let cleaned = DbView { pool: db::clean_frame(after.pool, frame), ..after };
        lemma_fetch_ends(db, id, Seq::empty());
        lemma_fetch_gives_committed(cleaned, written, id);
        assert(read_run(cleaned, written.data, id, 0) is Some);
    }
}

/// A write transaction makes private copies of the pages `ids`, one after the
/// other. The result is the database and the data file, if nothing fails.
pub open spec fn copies_run(db: DbView, data: Seq<u8>, ids: Seq<PageId>) -> Option<
    (DbView, Seq<u8>),
>
    decreases ids.len(),
{
    if ids.len() == 0 {
        Some((db, data))
    } else {
        match read_run(db, data, ids[0], 1) {
            Some((after, written, _)) => copies_run(after, written, ids.skip(1)),
            None => None,
        }
    }
}

/// However many copies a write transaction makes, the committed state stays
/// as it is, and readable.
proof fn lemma_copies_keep_state(db: DbView, files: Files, ids: Seq<PageId>)
    requires
        consistency::readable(db, files),
        forall|i: int| 0 <= i < ids.len() ==> 0 < (#[trigger] ids[i]).0 < db.page_count,
    ensures
        copies_run(db, files.data, ids) matches Some((after, data)) ==> {
            &&& consistency::same_state(files, files.with_data(data))
            &&& consistency::readable(after, files.with_data(data))
            &&& after == (DbView { pool: after.pool, ..db })
        },
    decreases ids.len(),
{
    assert(files.with_data(files.data) == files);
    if ids.len() > 0 {
        lemma_read_gives_committed(db, files, ids[0], 1);
        if let Some((after, written, _)) = read_run(db, files.data, ids[0], 1) {
            let now = files.with_data(written);
            assert forall|i: int| 0 <= i < ids.skip(1).len() implies 0 < (
            #[trigger] ids.skip(1)[i]).0 < after.page_count by {
                assert(ids.skip(1)[i] == ids[i + 1]);
            }
            lemma_copies_keep_state(after, now, ids.skip(1));
            if let Some((_, data)) = copies_run(after, written, ids.skip(1)) {
                assert(now.with_data(data) == files.with_data(data));
                assert forall|id: PageId| #[trigger]
                    files.committed(id) == files.with_data(data).committed(id) by {
                    assert(files.committed(id) == now.committed(id));
                    assert(now.committed(id) == now.with_data(data).committed(id));
                }
            }
        }
    }
}

/// A read transaction is isolated from an open write transaction, and from one
/// that was rolled back. After the write transaction made copies of any pages
/// `ids` and did whatever it likes with them, the number of pages is the same,
/// and a reader gets every data page as committed. A page that only the write
/// transaction has is no data page.
pub proof fn lemma_reader_is_isolated(db: DbView, files: Files, ids: Seq<PageId>, id: PageId)
    requires
        consistency::readable(db, files),
        forall|i: int| 0 <= i < ids.len() ==> 0 < (#[trigger] ids[i]).0 < db.page_count,
    ensures
        copies_run(db, files.data, ids) matches Some((later, data)) ==> {
            &&& later.page_count == db.page_count
            &&& match txn::not_data_page(id, later.page_count) {
                Some(err) => (id.0 == 0 || id.0 >= db.page_count) && err is InvalidArgument,
                None => can_pin(later.pool, id) ==> (read_run(later, data, id, 1) matches Some(
                    (after, end, page),
                ) && {
                    &&& page == files.committed(id)
                    &&& consistency::same_state(files, files.with_data(end))
                    &&& consistency::readable(after, files.with_data(end))
                    &&& after.page_count == db.page_count
                }),
            }
        },
{
    lemma_copies_keep_state(db, files, ids);
    if let Some((later, data)) = copies_run(db, files.data, ids) {
        let now = files.with_data(data);
        if txn::not_data_page(id, later.page_count) is None && can_pin(later.pool, id) {
            lemma_read_succeeds(later, now, id);
            lemma_read_gives_committed(later, now, id, 1);
            if let Some((_, end, _)) = read_run(later, data, id, 1) {
                assert(now.with_data(end) == files.with_data(end));
                assert(files.committed(id) == now.committed(id));
                assert forall|other: PageId| #[trigger]
                    files.committed(other) == files.with_data(end).committed(other) by {
                    assert(files.committed(other) == now.committed(other));
                    assert(now.committed(other) == now.with_data(end).committed(other));
                }
            }
        }
    }
}

} // verus!
