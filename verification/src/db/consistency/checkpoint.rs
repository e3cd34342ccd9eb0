//! A checkpoint moves the committed state into the data file.

use vstd::prelude::*;

use super::Files;
use crate::db::{self, consistency, DbView};
use crate::error::ErrorView;
use crate::storage::buffer_pool::PoolView;
use crate::storage::file_op::FileOpView;
use crate::storage::page::{PageId, PAGE_SIZE};
use crate::storage::wal::log;
use crate::storage::wal::record::DecodedView;
use crate::storage::{buffer_pool, disk, file_header, file_op, page, recovery};

verus! {

/// Where memory and files are in step, every dirty page can be written, and
/// is sealed already.
pub proof fn lemma_checkpoint_possible(db: DbView, files: Files)
    requires
        consistency::consistent(db, files),
    ensures
        buffer_pool::flushable(db.pool.frames, db.page_count, db.pool.frames.len() as int),
        buffer_pool::sealed_pool(db.pool, db.pool.frames.len() as int) == db.pool,
{
    let frames = db.pool.frames;
    assert forall|i: int| 0 <= i < frames.len() implies buffer_pool::frame_error(
        #[trigger] frames[i],
        db.page_count,
    ) is None && (frames[i].dirty ==> page::sealed(frames[i].page) == frames[i].page) by {
        if frames[i].dirty {
            assert(frames[i].page_id is Some);
            let id = frames[i].page_id->0;
            assert(db.pool.holds(i, id));
            page::lemma_valid_page_is_sealed(frames[i].page, id);
        }
    }
    assert(buffer_pool::sealed_pool(db.pool, frames.len() as int) =~= db.pool);
}

/// Whether a data file is on its way from `files` to the committed state:
/// pages with an image may be as committed already, all others are as they
/// were.
pub open spec fn catching_up(files: Files, data: Seq<u8>) -> bool {
    &&& files.data.len() <= data.len()
    &&& forall|id: PageId| #[trigger]
        disk::page_of(data, id) == disk::page_of(files.data, id) || (
        files.images().contains_key(id) && disk::page_of(data, id) == files.committed(id))
}

/// Writing the dirty pages brings them up to the committed state.
proof fn lemma_flush_catches_up(db: DbView, files: Files, end: int)
    requires
        consistency::consistent(db, files),
        0 <= end <= db.pool.frames.len(),
    ensures
        ({
            let data = file_op::all_applied(
                files.data,
                buffer_pool::flush_ops(db.pool.frames, end),
            );
            &&& catching_up(files, data)
            &&& forall|frame: int, id: PageId| #[trigger]
                db.pool.holds(frame, id) && frame < end && db.pool.frames[frame].dirty
                    ==> consistency::on_disk(files.with_data(data), id)
        }),
    decreases end,
{
    let frames = db.pool.frames;
    let ops = buffer_pool::flush_ops(frames, end);
    let data = file_op::all_applied(files.data, ops);
    if end > 0 {
        let at = end - 1;
        lemma_flush_catches_up(db, files, at);
        let before = file_op::all_applied(files.data, buffer_pool::flush_ops(frames, at));
        if frames[at].dirty {
            assert(frames[at].page_id is Some);
            let written = frames[at].page_id->0;
            assert(db.pool.holds(at, written));
            page::lemma_valid_page_is_sealed(frames[at].page, written);
            assert(ops.drop_last() =~= buffer_pool::flush_ops(frames, at));
            disk::lemma_page_written(before, written, frames[at].page);
            assert forall|id: PageId| #[trigger]
                disk::page_of(data, id) == disk::page_of(files.data, id) || (
                files.images().contains_key(id) && disk::page_of(data, id) == files.committed(
                    id,
                )) by {
                if id != written {
                    assert(disk::page_of(data, id) == disk::page_of(before, id));
                }
            }
            assert forall|frame: int, id: PageId| #[trigger]
                db.pool.holds(frame, id) && frame < end && frames[frame].dirty implies consistency::on_disk(
                files.with_data(data),
                id,
            ) by {
                assert(files.with_data(data).committed(id) == files.committed(id)) by {
                    assert(files.images().contains_key(id));
                }
                if id != written {
                    assert(frame != at);
                    assert(consistency::on_disk(files.with_data(before), id));
                    assert(files.with_data(before).committed(id) == files.committed(id));
                    assert(disk::page_of(data, id) == disk::page_of(before, id));
                }
            }
        }
    }
}

/// A checkpoint brings the whole data file up to the committed state. Once
/// its writes are durable, memory is in step with it.
pub proof fn lemma_checkpoint_writes_state(db: DbView, files: Files)
    requires
        consistency::consistent(db, files),
    ensures
        ({
            let data = file_op::all_applied(files.data, db::checkpoint_ops(db));
            let after = files.with_data(data);
            let cleaned = DbView {
                pool: buffer_pool::cleaned_pool(db.pool, db.pool.frames.len() as int),
                ..db
            };
            &&& consistency::same_state(files, after)
            &&& forall|id: PageId| #[trigger] disk::page_of(data, id) == files.committed(id)
            &&& forall|id: PageId| id.0 < db.page_count ==> (id.0 + 1) * PAGE_SIZE <= data.len()
            &&& consistency::consistent(cleaned, after)
        }),
{
    let frames = db.pool.frames;
    let len = frames.len() as int;
    let flushes = buffer_pool::flush_ops(frames, len);
    let header = file_header::encoded_header(db.page_count);
    let ops = db::checkpoint_ops(db);
    let flushed = file_op::all_applied(files.data, flushes);
    let data = file_op::all_applied(files.data, ops);
    let after = files.with_data(data);
    lemma_flush_catches_up(db, files, len);
    let header_write = disk::page_write(PageId(0), header);
    assert(ops.drop_last() =~= flushes.push(header_write));
    assert(flushes.push(header_write).drop_last() =~= flushes);
    assert(file_op::all_applied(files.data, flushes.push(header_write)) == file_op::applied(
        flushed,
        header_write,
    ));
    assert(data == file_op::applied(flushed, header_write));
    file_header::lemma_header_round_trips(db.page_count);
    disk::lemma_page_written(flushed, PageId(0), header);
    assert forall|id: PageId| #[trigger] disk::page_of(data, id) == files.committed(id) by {
        if id.0 != 0 {
            assert(disk::page_of(data, id) == disk::page_of(flushed, id));
            if files.images().contains_key(id) && !consistency::on_disk(files, id) {
                assert(id.0 < db.page_count);
                assert(consistency::dirty_in(db.pool, id));
                let frame = choose|frame: int| #[trigger] db.pool.holds(frame, id)
                    && frames[frame].dirty;
                assert(consistency::on_disk(files.with_data(flushed), id));
                assert(files.with_data(flushed).images() == files.images());
            }
        } else {
            assert(id == PageId(0));
        }
    }
    assert forall|id: PageId| id.0 < db.page_count implies (id.0 + 1) * PAGE_SIZE <= data.len() by {
        if id.0 != 0 {
            if files.images().contains_key(id) && !consistency::on_disk(files, id) {
                assert(consistency::dirty_in(db.pool, id));
                let frame = choose|frame: int| #[trigger] db.pool.holds(frame, id)
                    && frames[frame].dirty;
                assert(consistency::on_disk(files.with_data(flushed), id));
            }
        }
    }
    assert(after.images() == files.images());
    assert forall|id: PageId| #[trigger] files.committed(id) == after.committed(id) by {
        assert(disk::page_of(data, id) == files.committed(id));
    }
    assert(after.state_ok(db.page_count)) by {
        assert(files.committed(PageId(0)) == after.committed(PageId(0)));
        assert forall|id: PageId| 0 < id.0 < db.page_count implies page::verified_header(
            #[trigger] after.committed(id),
            id,
        ) is Ok by {
            assert(files.committed(id) == after.committed(id));
        }
        assert forall|id: PageId|
            id.0 < db.page_count && !(#[trigger] after.images().contains_key(id)) implies (id.0
            + 1) * PAGE_SIZE <= after.data.len() by {
            assert(!files.images().contains_key(id));
        }
    }
    let clean = buffer_pool::cleaned_pool(db.pool, len);
    lemma_clean_pool_wf(db.pool);
    assert forall|frame: int, id: PageId| #[trigger] clean.holds(frame, id) implies consistency::frame_in_step(
        clean.frames[frame],
        id,
        after,
        db.page_count,
        Set::empty(),
    ) by {
        assert(db.pool.holds(frame, id));
        assert(files.committed(id) == after.committed(id));
        assert(disk::page_of(data, id) == files.committed(id));
    }
    assert forall|id: PageId|
        0 < id.0 < db.page_count && #[trigger] after.images().contains_key(id) implies consistency::on_disk(
        after,
        id,
    ) by {
        assert(files.committed(id) == after.committed(id));
        assert(disk::page_of(data, id) == files.committed(id));
    }
}

/// A pool stays well formed when its pages become clean.
proof fn lemma_clean_pool_wf(pool: PoolView)
    requires
        pool.wf(),
    ensures
        buffer_pool::cleaned_pool(pool, pool.frames.len() as int).wf(),
        forall|frame: int, id: PageId| #[trigger]
            buffer_pool::cleaned_pool(pool, pool.frames.len() as int).holds(frame, id)
                == pool.holds(frame, id),
{
    let clean = buffer_pool::cleaned_pool(pool, pool.frames.len() as int);
    assert forall|frame: int, id: PageId| #[trigger] clean.holds(frame, id) == pool.holds(
        frame,
        id,
    ) by {}
    assert forall|a: int, b: int, id: PageId| #[trigger]
        clean.holds(a, id) && #[trigger] clean.holds(b, id) implies a == b by {
        assert(pool.holds(a, id) && pool.holds(b, id));
    }
    assert forall|i: int| 0 <= i < clean.free.len() implies (#[trigger] clean.free[i])
        < clean.frames.len() && clean.frames[clean.free[i] as int].page_id is None by {
        assert(pool.free[i] < pool.frames.len());
    }
    assert forall|frame: int|
        0 <= frame < clean.frames.len() && (#[trigger] clean.frames[frame]).page_id is None implies {
        &&& clean.free.contains(frame as usize)
        &&& clean.frames[frame].pins == 0
        &&& !clean.frames[frame].dirty
    } by {
        assert(pool.frames[frame].page_id is None);
    }
}

/// Whether a torn write to the place of one page leaves every other page as
/// it was.
proof fn lemma_torn_page(before: Seq<u8>, id: PageId, found: Seq<u8>, other: PageId)
    requires
        file_op::torn_write(before, (id.0 * PAGE_SIZE) as nat, PAGE_SIZE as nat, found),
        other != id,
    ensures
        disk::page_of(found, other) == disk::page_of(before, other),
{
    assert forall|i: int| 0 <= i < PAGE_SIZE implies disk::page_of(found, other)[i]
        == disk::page_of(before, other)[i] by {
        let at = other.0 * PAGE_SIZE + i;
        assert(file_op::byte_at(found, at) == file_op::byte_at(before, at));
    }
    assert(disk::page_of(found, other) =~= disk::page_of(before, other));
}

/// If power is lost while a dirty page is written back, the page may be torn
/// in any way: the committed state stays the same, as the log holds an image
/// of the page.
pub proof fn lemma_torn_write_back(db: DbView, files: Files, frame: int, found: Seq<u8>)
    requires
        consistency::consistent(db, files),
        0 <= frame < db.pool.frames.len(),
        db.pool.frames[frame].dirty,
        file_op::torn_write(
            files.data,
            ((db.pool.frames[frame].page_id->0).0 * PAGE_SIZE) as nat,
            PAGE_SIZE as nat,
            found,
        ),
    ensures
        consistency::same_state(files, files.with_data(found)),
{
    assert(db.pool.frames[frame].page_id is Some);
    let id = db.pool.frames[frame].page_id->0;
    assert(db.pool.holds(frame, id));
    assert forall|other: PageId| !files.images().contains_key(other) implies #[trigger]
        disk::page_of(found, other) == disk::page_of(files.data, other) by {
        lemma_torn_page(files.data, id, found, other);
    }
    consistency::lemma_logged_pages_may_tear(files, found);
}

/// If power is lost during a checkpoint, while the page in any frame is
/// written, the page may be torn in any way: the committed state stays the
/// same.
pub proof fn lemma_torn_checkpoint_page(db: DbView, files: Files, frame: int, found: Seq<u8>)
    requires
        consistency::consistent(db, files),
        0 <= frame < db.pool.frames.len(),
        db.pool.frames[frame].dirty,
        file_op::torn_write(
            file_op::all_applied(files.data, buffer_pool::flush_ops(db.pool.frames, frame)),
            ((db.pool.frames[frame].page_id->0).0 * PAGE_SIZE) as nat,
            PAGE_SIZE as nat,
            found,
        ),
    ensures
        consistency::same_state(files, files.with_data(found)),
{
    let before = file_op::all_applied(
        files.data,
        buffer_pool::flush_ops(db.pool.frames, frame),
    );
    assert(db.pool.frames[frame].page_id is Some);
    let id = db.pool.frames[frame].page_id->0;
    assert(db.pool.holds(frame, id));
    lemma_flush_catches_up(db, files, frame);
    assert forall|other: PageId| !files.images().contains_key(other) implies #[trigger]
        disk::page_of(found, other) == disk::page_of(files.data, other) by {
        lemma_torn_page(before, id, found, other);
        assert(disk::page_of(before, other) == disk::page_of(files.data, other));
    }
    consistency::lemma_logged_pages_may_tear(files, found);
}

/// If power is lost during a checkpoint while the header is written: either
/// the log holds an image of the header, and the header may be torn in any
/// way, or the write puts the same bytes where they were.
pub proof fn lemma_torn_checkpoint_header(db: DbView, files: Files, found: Seq<u8>)
    requires
        consistency::consistent(db, files),
    ensures
        ({
            let flushed = file_op::all_applied(
                files.data,
                buffer_pool::flush_ops(db.pool.frames, db.pool.frames.len() as int),
            );
            if files.images().contains_key(PageId(0)) {
                file_op::torn_write(flushed, 0, PAGE_SIZE as nat, found) ==> consistency::same_state(
                    files,
                    files.with_data(found),
                )
            } else {
                file_op::applied(
                    flushed,
                    disk::page_write(PageId(0), file_header::encoded_header(db.page_count)),
                ) == flushed
            }
        }),
{
    let flushed = file_op::all_applied(
        files.data,
        buffer_pool::flush_ops(db.pool.frames, db.pool.frames.len() as int),
    );
    let header = file_header::encoded_header(db.page_count);
    lemma_flush_catches_up(db, files, db.pool.frames.len() as int);
    if files.images().contains_key(PageId(0)) {
        if file_op::torn_write(flushed, 0, PAGE_SIZE as nat, found) {
            assert forall|other: PageId| !files.images().contains_key(other) implies #[trigger]
                disk::page_of(found, other) == disk::page_of(files.data, other) by {
                lemma_torn_page(flushed, PageId(0), found, other);
                assert(disk::page_of(flushed, other) == disk::page_of(files.data, other));
            }
            consistency::lemma_logged_pages_may_tear(files, found);
        }
    } else {
        assert(disk::page_of(flushed, PageId(0)) == disk::page_of(files.data, PageId(0)));
        assert(disk::page_of(flushed, PageId(0)) == header);
        assert((0 + 1) * PAGE_SIZE <= files.data.len());
        let after = file_op::applied(flushed, disk::page_write(PageId(0), header));
        assert forall|i: int| 0 <= i < flushed.len() implies after[i] == flushed[i] by {
            if i < PAGE_SIZE {
                assert(disk::page_of(flushed, PageId(0))[i] == header[i]);
            }
        }
        file_header::lemma_header_round_trips(db.page_count);
        assert(after =~= flushed);
    }
}

/// Once the data file is the committed state, the log can be emptied: the
/// committed state stays the same, and memory is in step with it.
pub proof fn lemma_reset_keeps_state(db: DbView, files: Files)
    requires
        consistency::consistent(db, files),
        forall|id: PageId| #[trigger] disk::page_of(files.data, id) == files.committed(id),
        forall|id: PageId| id.0 < db.page_count ==> (id.0 + 1) * PAGE_SIZE <= files.data.len(),
        forall|frame: int|
            0 <= frame < db.pool.frames.len() ==> !(#[trigger] db.pool.frames[frame]).dirty,
    ensures
        ({
            let after = Files {
                data: files.data,
                log: Seq::empty(),
                first_seq: db.wal.next_seq,
            };
            &&& file_op::all_applied(
                log::log_file(files.log, files.first_seq),
                log::reset_ops(db.wal),
            ) == log::log_file(after.log, after.first_seq)
            &&& consistency::same_state(files, after)
            &&& consistency::consistent(DbView { wal: db::emptied(db.wal), ..db }, after)
        }),
{
    let after = Files { data: files.data, log: Seq::empty(), first_seq: db.wal.next_seq };
    let emptied = DbView { wal: db::emptied(db.wal), ..db };
    log::lemma_reset_empties(log::log_file(files.log, files.first_seq), db.wal);
    log::lemma_wal_header_len(db.wal.next_seq);
    consistency::lemma_empty_log(after);
    assert forall|id: PageId| #[trigger] files.committed(id) == after.committed(id) by {
        assert(disk::page_of(files.data, id) == files.committed(id));
    }
    assert(after.state_ok(db.page_count)) by {
        assert(files.committed(PageId(0)) == after.committed(PageId(0)));
        assert forall|id: PageId| 0 < id.0 < db.page_count implies page::verified_header(
            #[trigger] after.committed(id),
            id,
        ) is Ok by {
            assert(files.committed(id) == after.committed(id));
        }
    }
    assert forall|frame: int, id: PageId| #[trigger] emptied.pool.holds(frame, id) implies
        consistency::frame_in_step(emptied.pool.frames[frame], id, after, db.page_count, Set::empty()) by {
        assert(db.pool.holds(frame, id));
        assert(files.committed(id) == after.committed(id));
    }
}

/// If power is lost while the log is being emptied, after either one of the
/// two changes without the other, recovery finds no record, and the committed
/// state is the data file.
pub proof fn lemma_torn_reset_keeps_state(db: DbView, files: Files)
    requires
        consistency::consistent(db, files),
        forall|id: PageId| #[trigger] disk::page_of(files.data, id) == files.committed(id),
    ensures
        ({
            let file = log::log_file(files.log, files.first_seq);
            let cut_only = log::opened(file_op::resized(file, log::WAL_HEADER_SIZE as nat));
            let header_only = log::opened(
                file_op::written(file, 0, log::encoded_header(db.wal.next_seq)),
            );
            &&& cut_only matches Ok(scan) && recovery::replayed(scan.records) == Ok::<
                Map<PageId, Seq<u8>>,
                ErrorView,
            >(Map::empty())
            &&& header_only matches Ok(scan) && recovery::replayed(scan.records) == Ok::<
                Map<PageId, Seq<u8>>,
                ErrorView,
            >(Map::empty())
        }),
{
    let file = log::log_file(files.log, files.first_seq);
    if files.log.len() > 0 {
        log::lemma_torn_reset_is_empty(files.log, files.first_seq);
    } else {
        log::lemma_wal_header_len(files.first_seq);
        assert(files.log =~= Seq::empty());
        assert(file_op::resized(file, log::WAL_HEADER_SIZE as nat) =~= file);
        assert(file_op::written(file, 0, log::encoded_header(files.first_seq)) =~= file);
        log::lemma_open_reads_back(files.log, files.first_seq);
        assert(log::numbered(files.log, files.first_seq) =~= Seq::empty());
    }
    assert forall|records: Seq<DecodedView>| records.len() == 0 implies
        #[trigger] recovery::replayed(records) == Ok::<Map<PageId, Seq<u8>>, ErrorView>(
        Map::empty(),
    ) by {}
}

/// A checkpoint as a whole: the committed state stays the same, it is then in
/// the data file alone, and memory is in step with it.
pub proof fn lemma_checkpoint_keeps_state(db: DbView, files: Files)
    requires
        consistency::consistent(db, files),
    ensures
        ({
            let data = file_op::all_applied(files.data, db::checkpoint_ops(db));
            let after = Files { data, log: Seq::empty(), first_seq: db.wal.next_seq };
            let done = DbView {
                pool: buffer_pool::cleaned_pool(db.pool, db.pool.frames.len() as int),
                wal: db::emptied(db.wal),
                ..db
            };
            &&& file_op::all_applied(
                log::log_file(files.log, files.first_seq),
                log::reset_ops(db.wal),
            ) == log::log_file(after.log, after.first_seq)
            &&& consistency::same_state(files, after)
            &&& consistency::consistent(done, after)
        }),
{
    let data = file_op::all_applied(files.data, db::checkpoint_ops(db));
    let written = files.with_data(data);
    let after = Files { data, log: Seq::empty(), first_seq: db.wal.next_seq };
    let cleaned = DbView {
        pool: buffer_pool::cleaned_pool(db.pool, db.pool.frames.len() as int),
        ..db
    };
    lemma_checkpoint_writes_state(db, files);
    assert forall|id: PageId| #[trigger] disk::page_of(written.data, id) == written.committed(
        id,
    ) by {
        assert(disk::page_of(data, id) == files.committed(id));
        assert(files.committed(id) == written.committed(id));
    }
    lemma_reset_keeps_state(cleaned, written);
    assert forall|id: PageId| #[trigger] files.committed(id) == after.committed(id) by {
        assert(files.committed(id) == written.committed(id));
        assert(written.committed(id) == after.committed(id));
    }
}

/// The steps of a checkpoint: each leaves memory in step with the files and the
/// committed state as it is, also if it fails. Once the data file is durable no
/// page is dirty, and once the log is emptied it has no records.
pub proof fn lemma_checkpoint_steps(db: DbView, files: Files)
    requires
        consistency::consistent(db, files),
    ensures
        ({
            let started = db::checkpoint_started(db);
            let written = files.with_data(
                file_op::all_applied(files.data, db::checkpoint_ops(db)),
            );
            let flushed = db::checkpoint_flushed(started, true);
            let done = db::checkpoint_finished(flushed, true);
            let after = Files {
                data: written.data,
                log: Seq::empty(),
                first_seq: db.wal.next_seq,
            };
            &&& consistency::consistent(started, files)
            &&& consistency::consistent(db::checkpoint_flushed(started, false), files)
            &&& consistency::consistent(flushed, written)
            &&& consistency::same_state(files, written)
            &&& forall|frame: int|
                0 <= frame < flushed.pool.frames.len() ==> !(
                #[trigger] flushed.pool.frames[frame]).dirty
            &&& log::reset_step(flushed.wal) == Ok::<Seq<FileOpView>, ErrorView>(
                log::reset_ops(flushed.wal),
            )
            &&& file_op::all_applied(
                log::log_file(files.log, files.first_seq),
                log::reset_ops(flushed.wal),
            ) == log::log_file(after.log, after.first_seq)
            &&& consistency::consistent(done, after)
            &&& consistency::same_state(files, after)
            &&& done.wal.durable_len == 24
        }),
{
    lemma_checkpoint_possible(db, files);
    lemma_checkpoint_writes_state(db, files);
    lemma_checkpoint_keeps_state(db, files);
    assert(db::checkpoint_started(db) == db);
}

} // verus!
