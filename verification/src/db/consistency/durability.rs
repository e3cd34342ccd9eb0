//! What is on stable storage when power is lost, and what follows from it.
//!
//! Until a file is fsynced, a crash may lose any write to it. The laws here
//! follow the database through its life with that in mind: whenever power is
//! lost, reopening gives the committed state.

use vstd::prelude::*;

use super::{checkpoint, commit, crash, reading, Files};
use crate::db::txn::TxnView;
use crate::db::{self, consistency, txn, DbView, Options};
use crate::error::ErrorView;
use crate::storage::file_op::FileOpView;
use crate::storage::page::{PageId, PAGE_SIZE};
use crate::storage::wal::log;
use crate::storage::wal::log::WalView;
use crate::storage::{buffer_pool, disk, file_header, file_op, page, page_map, recovery};

verus! {

/// Whether opening the two files that were found gives a database with
/// `page_count` pages, each as committed in `files`.
pub open spec fn reopens_as(
    files: Files,
    page_count: u64,
    found_data: Seq<u8>,
    found_log: Seq<u8>,
) -> bool {
    log::opened(found_log) matches Ok(scan) && recovery::replayed(scan.records) matches Ok(images)
        && {
        let data = recovery::restored(found_data, images);
        &&& disk::opened_file(data) == Ok::<u64, ErrorView>(page_count)
        &&& forall|id: PageId| #[trigger] disk::page_of(data, id) == files.committed(id)
    }
}

/// Whether an operation writes a page as committed.
pub open spec fn writes_committed(files: Files, op: FileOpView) -> bool {
    exists|id: PageId| op == #[trigger] disk::page_write(id, files.committed(id))
}

/// Whether a list of operations does nothing but write pages as committed, and
/// fsync.
pub open spec fn catches_up(files: Files, ops: Seq<FileOpView>) -> bool {
    forall|i: int|
        0 <= i < ops.len() ==> (#[trigger] ops[i]) is SyncData || ops[i] is SyncAll
            || writes_committed(files, ops[i])
}

/// Whichever of such operations are lost, every page is as it was or as
/// committed.
proof fn lemma_some_caught_up(files: Files, ops: Seq<FileOpView>, kept: Seq<bool>)
    requires
        files.log_ok(),
        kept.len() == ops.len(),
        catches_up(files, ops),
    ensures
        ({
            let data = file_op::some_applied(files.data, ops, kept);
            &&& files.data.len() <= data.len()
            &&& forall|id: PageId| #[trigger]
                disk::page_of(data, id) == disk::page_of(files.data, id) || disk::page_of(data, id)
                    == files.committed(id)
        }),
    decreases ops.len(),
{
    if ops.len() > 0 {
        let rest = ops.drop_last();
        assert forall|i: int| 0 <= i < rest.len() implies (#[trigger] rest[i]) is SyncData
            || rest[i] is SyncAll || writes_committed(files, rest[i]) by {
            assert(rest[i] == ops[i]);
        }
        lemma_some_caught_up(files, rest, kept.drop_last());
        let before = file_op::some_applied(files.data, rest, kept.drop_last());
        let op = ops[ops.len() - 1];
        if kept.last() && writes_committed(files, op) {
            let written = choose|id: PageId| op == #[trigger]
                disk::page_write(id, files.committed(id));
            consistency::lemma_committed_len(files, written);
            disk::lemma_page_written(before, written, files.committed(written));
            let data = file_op::applied(before, op);
            assert forall|id: PageId| #[trigger]
                disk::page_of(data, id) == disk::page_of(files.data, id) || disk::page_of(data, id)
                    == files.committed(id) by {
                if id != written {
                    assert(disk::page_of(data, id) == disk::page_of(before, id));
                }
            }
        }
    }
}

/// If power is lost while pages are written as committed, and the log is still
/// whole, reopening gives the committed state.
proof fn lemma_crash_while_catching_up(
    files: Files,
    page_count: u64,
    ops: Seq<FileOpView>,
    found_data: Seq<u8>,
)
    requires
        files.log_ok(),
        files.state_ok(page_count),
        catches_up(files, ops),
        file_op::crash_during(files.data, ops, found_data),
    ensures
        reopens_as(
            files,
            page_count,
            found_data,
            log::log_file(files.log, files.first_seq),
        ),
{
    let done = choose|done: int|
        0 <= done <= ops.len() && #[trigger] file_op::crash_leaves(
            files.data,
            ops.take(done),
            found_data,
        );
    let part = ops.take(done);
    let kept = choose|kept: Seq<bool>| #[trigger]
        file_op::survives(part, kept) && found_data == file_op::some_applied(
            files.data,
            part,
            kept,
        );
    assert forall|i: int| 0 <= i < part.len() implies (#[trigger] part[i]) is SyncData || part[i]
        is SyncAll || writes_committed(files, part[i]) by {
        assert(part[i] == ops[i]);
    }
    lemma_some_caught_up(files, part, kept);
    assert forall|id: PageId| !files.images().contains_key(id) implies #[trigger]
        disk::page_of(found_data, id) == disk::page_of(files.data, id) by {}
    lemma_whole_log_restores(files, page_count, found_data);
}

/// With a whole log, and of the data file every page without an image, opening
/// gives the committed state.
proof fn lemma_whole_log_restores(files: Files, page_count: u64, found_data: Seq<u8>)
    requires
        files.log_ok(),
        files.state_ok(page_count),
        files.data.len() <= found_data.len(),
        forall|id: PageId|
            !files.images().contains_key(id) ==> #[trigger] disk::page_of(found_data, id)
                == disk::page_of(files.data, id),
    ensures
        reopens_as(
            files,
            page_count,
            found_data,
            log::log_file(files.log, files.first_seq),
        ),
        forall|id: PageId| #[trigger]
            disk::page_of(recovery::restored(found_data, files.images()), id) == files.committed(
                id,
            ),
        disk::opened_file(recovery::restored(found_data, files.images())) == Ok::<
            u64,
            ErrorView,
        >(page_count),
{
    let found_log = log::log_file(files.log, files.first_seq);
    log::lemma_open_reads_back(files.log, files.first_seq);
    let scan = log::opened(found_log)->Ok_0;
    let fresh = DbView {
        page_count,
        pool: buffer_pool::empty_pool(1),
        wal: db::emptied(log::opened_wal(scan)),
        next_txn: 1,
        poisoned: false,
        auto_checkpoint_bytes: None,
    };
    let options = Options {
        buffer_pool_pages: 1,
        create_if_missing: true,
        auto_checkpoint_bytes: None,
    };
    crash::lemma_recovery_restores_state(
        files,
        page_count,
        found_data,
        found_log,
        fresh,
        options,
    );
    let data = recovery::restored(found_data, files.images());
    let after = Files { data, log: Seq::empty(), first_seq: scan.next_seq };
    consistency::lemma_empty_log(after);
    assert forall|id: PageId| #[trigger] disk::page_of(data, id) == files.committed(id) by {
        assert(files.committed(id) == after.committed(id));
    }
}

/// With the committed state in the data file, a log that is whole or empty
/// gives it back.
proof fn lemma_log_no_longer_needed(
    files: Files,
    page_count: u64,
    wal: WalView,
    found_data: Seq<u8>,
    found_log: Seq<u8>,
)
    requires
        files.log_ok(),
        files.state_ok(page_count),
        wal.next_seq == files.first_seq + files.log.len(),
        files.data.len() <= found_data.len(),
        forall|id: PageId| #[trigger] disk::page_of(found_data, id) == files.committed(id),
        disk::opened_file(found_data) == Ok::<u64, ErrorView>(page_count),
        file_op::crash_during(
            log::log_file(files.log, files.first_seq),
            log::reset_ops(wal),
            found_log,
        ),
    ensures
        reopens_as(files, page_count, found_data, found_log),
{
    log::lemma_crash_during_reset(files.log, files.first_seq, wal, found_log);
    let scan = log::opened(found_log)->Ok_0;
    if scan.records == files.records() {
        assert forall|id: PageId| !files.images().contains_key(id) implies #[trigger]
            disk::page_of(found_data, id) == disk::page_of(files.data, id) by {
            assert(disk::page_of(found_data, id) == files.committed(id));
        }
        lemma_whole_log_restores(files, page_count, found_data);
    } else {
        assert(scan.records =~= Seq::empty());
        recovery::lemma_empty_log_touches_nothing(found_data);
    }
}

/// What replay writes is the committed state.
proof fn lemma_replay_catches_up(files: Files)
    requires
        files.log_ok(),
    ensures
        catches_up(files, recovery::replay_ops(files.images())),
{
    let images = files.images();
    let list = page_map::listed(images);
    let ops = recovery::replay_ops(images);
    consistency::lemma_images_ok(files);
    page_map::lemma_listed(images);
    assert forall|i: int| 0 <= i < ops.len() implies (#[trigger] ops[i]) is SyncData || ops[i]
        is SyncAll || writes_committed(files, ops[i]) by {
        if i < list.len() {
            page_map::lemma_entry_in_map(list, i);
            assert(ops[i] == disk::page_write(list[i].0, files.committed(list[i].0)));
        }
    }
}

/// Once what replay asks for was done, every image is in the data file even
/// after a crash, and no other page has changed.
pub proof fn lemma_replay_is_durable(
    file: Seq<u8>,
    images: Map<PageId, Seq<u8>>,
    found: Seq<u8>,
)
    requires
        recovery::page_images(images),
        file_op::crash_leaves(file, recovery::replay_ops(images), found),
    ensures
        found == recovery::restored(file, images),
        forall|id: PageId| #[trigger]
            disk::page_of(found, id) == if images.contains_key(id) {
                images[id]
            } else {
                disk::page_of(file, id)
            },
{
    if images != Map::<PageId, Seq<u8>>::empty() {
        file_op::lemma_synced(file, recovery::replay_ops(images), found);
    }
    recovery::lemma_restored(file, images);
}

/// If power is lost while a database is being opened, at any time from the
/// start of replay until the log is emptied, opening it again gives the
/// committed state. The log is not touched before replay is done.
pub proof fn lemma_crash_while_opening(
    files: Files,
    page_count: u64,
    found_data: Seq<u8>,
    found_log: Seq<u8>,
)
    requires
        files.log_ok(),
        files.state_ok(page_count),
        ({
            let ops = recovery::replay_ops(files.images());
            let log_file = log::log_file(files.log, files.first_seq);
            let scan = log::opened(log_file)->Ok_0;
            ||| file_op::crash_during(files.data, ops, found_data) && found_log == log_file
            ||| file_op::crash_leaves(files.data, ops, found_data) && file_op::crash_during(
                log_file,
                log::reset_ops(log::opened_wal(scan)),
                found_log,
            )
        }),
    ensures
        reopens_as(files, page_count, found_data, found_log),
{
    let ops = recovery::replay_ops(files.images());
    let log_file = log::log_file(files.log, files.first_seq);
    lemma_replay_catches_up(files);
    if file_op::crash_during(files.data, ops, found_data) && found_log == log_file {
        lemma_crash_while_catching_up(files, page_count, ops, found_data);
    } else {
        log::lemma_open_reads_back(files.log, files.first_seq);
        let wal = log::opened_wal(log::opened(log_file)->Ok_0);
        consistency::lemma_images_ok(files);
        lemma_replay_is_durable(files.data, files.images(), found_data);
        recovery::lemma_restored(files.data, files.images());
        lemma_whole_log_restores(files, page_count, files.data);
        lemma_log_no_longer_needed(files, page_count, wal, found_data, found_log);
    }
}

/// What a checkpoint writes is the committed state.
proof fn lemma_checkpoint_catches_up(db: DbView, files: Files, end: int)
    requires
        consistency::consistent(db, files),
        0 <= end <= db.pool.frames.len(),
    ensures
        catches_up(files, buffer_pool::flush_ops(db.pool.frames, end)),
        end == db.pool.frames.len() ==> catches_up(files, db::checkpoint_ops(db)),
    decreases end,
{
    let frames = db.pool.frames;
    let ops = buffer_pool::flush_ops(frames, end);
    if end > 0 {
        lemma_checkpoint_catches_up(db, files, end - 1);
        let before = buffer_pool::flush_ops(frames, end - 1);
        assert forall|i: int| 0 <= i < ops.len() implies (#[trigger] ops[i]) is SyncData || ops[i]
            is SyncAll || writes_committed(files, ops[i]) by {
            if i < before.len() {
                assert(ops[i] == before[i]);
            } else {
                assert(frames[end - 1].page_id is Some);
                let id = frames[end - 1].page_id->0;
                assert(db.pool.holds(end - 1, id));
                page::lemma_valid_page_is_sealed(frames[end - 1].page, id);
                assert(ops[i] == disk::page_write(id, files.committed(id)));
            }
        }
    }
    if end == frames.len() {
        let all = db::checkpoint_ops(db);
        assert forall|i: int| 0 <= i < all.len() implies (#[trigger] all[i]) is SyncData || all[i]
            is SyncAll || writes_committed(files, all[i]) by {
            if i < ops.len() {
                assert(all[i] == ops[i]);
            } else if i == ops.len() {
                assert(all[i] == disk::page_write(PageId(0), files.committed(PageId(0))));
            }
        }
    }
}

/// Once what a checkpoint asks for was done, the whole committed state is in
/// the data file even after a crash, without the log. This includes the pages
/// that were written back earlier, in `before`, and not fsynced then.
pub proof fn lemma_checkpoint_is_durable(
    db: DbView,
    files: Files,
    durable: Seq<u8>,
    before: Seq<FileOpView>,
    found: Seq<u8>,
)
    requires
        consistency::consistent(db, files),
        files.data == file_op::all_applied(durable, before),
        file_op::crash_leaves(durable, before + db::checkpoint_ops(db), found),
    ensures
        disk::opened_file(found) == Ok::<u64, ErrorView>(db.page_count),
        forall|id: PageId| #[trigger] disk::page_of(found, id) == files.committed(id),
        files.data.len() <= found.len(),
{
    let ops = db::checkpoint_ops(db);
    assert((before + ops).last() == ops.last());
    file_op::lemma_synced(durable, before + ops, found);
    file_op::lemma_applied_in_turn(durable, before, ops);
    checkpoint::lemma_checkpoint_writes_state(db, files);
    file_header::lemma_header_round_trips(db.page_count);
    assert(disk::page_of(found, PageId(0)) == files.committed(PageId(0)));
    let last = PageId((db.page_count - 1) as u64);
    assert((last.0 + 1) * PAGE_SIZE <= found.len());
    lemma_checkpoint_catches_up(db, files, db.pool.frames.len() as int);
    let kept = Seq::new(ops.len(), |i: int| true);
    file_op::lemma_nothing_lost(files.data, ops, kept);
    lemma_some_caught_up(files, ops, kept);
}

/// If power is lost during a checkpoint, at any time until the log is emptied,
/// reopening gives the committed state. The log is not touched before the data
/// file is durable.
pub proof fn lemma_crash_during_checkpoint(
    db: DbView,
    files: Files,
    found_data: Seq<u8>,
    found_log: Seq<u8>,
)
    requires
        consistency::consistent(db, files),
        ({
            let ops = db::checkpoint_ops(db);
            let log_file = log::log_file(files.log, files.first_seq);
            ||| file_op::crash_during(files.data, ops, found_data) && found_log == log_file
            ||| file_op::crash_leaves(files.data, ops, found_data) && file_op::crash_during(
                log_file,
                log::reset_ops(db.wal),
                found_log,
            )
        }),
    ensures
        reopens_as(files, db.page_count, found_data, found_log),
{
    let ops = db::checkpoint_ops(db);
    let log_file = log::log_file(files.log, files.first_seq);
    lemma_checkpoint_catches_up(db, files, db.pool.frames.len() as int);
    if file_op::crash_during(files.data, ops, found_data) && found_log == log_file {
        lemma_crash_while_catching_up(files, db.page_count, ops, found_data);
    } else {
        assert(Seq::<FileOpView>::empty() + ops =~= ops);
        lemma_checkpoint_is_durable(db, files, files.data, Seq::empty(), found_data);
        lemma_log_no_longer_needed(files, db.page_count, db.wal, found_data, found_log);
    }
}

/// Once what a commit asks for was done to the log, the transaction is on
/// stable storage: reopening after a crash gives the state that it left, even
/// though none of its pages was written to the data file.
pub proof fn lemma_acknowledged_commit_is_on_stable_storage(
    db: DbView,
    files: Files,
    txn: TxnView,
    found_log: Seq<u8>,
)
    requires
        consistency::consistent(db, files),
        commit::can_commit(db, txn),
        file_op::crash_leaves(
            log::log_file(files.log, files.first_seq),
            txn::commit_step(db, txn).1->ops,
            found_log,
        ),
    ensures
        ({
            let after = commit::files_after(db, files, txn);
            &&& reopens_as(after, txn.page_count, files.data, found_log)
            &&& crash::shows_commit(files, txn, db.page_count, after)
        }),
{
    let logged = txn::logged(db, txn);
    let after = commit::files_after(db, files, txn);
    let before_log = log::log_file(files.log, files.first_seq);
    commit::lemma_commit_is_durable(db, files, txn);
    log::lemma_flush_is_durable(before_log, logged.wal, found_log);
    assert(found_log == log::log_file(after.log, after.first_seq)) by {
        let batch = commit::batch_of(db, txn);
        assert(logged.wal.pending =~= log::encoded_records(batch, db.wal.next_seq));
        log::lemma_encoded_in_turn(files.log, batch, files.first_seq);
        assert(found_log =~= log::log_file(after.log, after.first_seq));
    }
    lemma_whole_log_restores(after, txn.page_count, files.data);
    crash::lemma_shows_commit(files, txn, db.page_count, after, after);
}

/// If power is lost while a commit's records are written, reopening gives the
/// state from before the transaction or the one that it left, as far as blocks
/// are not torn.
pub proof fn lemma_crash_during_commit(
    db: DbView,
    files: Files,
    txn: TxnView,
    found_log: Seq<u8>,
)
    requires
        consistency::consistent(db, files),
        commit::can_commit(db, txn),
        file_op::crash_during(
            log::log_file(files.log, files.first_seq),
            txn::commit_step(db, txn).1->ops,
            found_log,
        ),
    ensures
        reopens_as(files, db.page_count, files.data, found_log) || reopens_as(
            commit::files_after(db, files, txn),
            txn.page_count,
            files.data,
            found_log,
        ),
{
    let logged = txn::logged(db, txn);
    let after = commit::files_after(db, files, txn);
    let before_log = log::log_file(files.log, files.first_seq);
    log::lemma_crash_during_flush(before_log, logged.wal, found_log);
    if found_log == before_log {
        lemma_whole_log_restores(files, db.page_count, files.data);
    } else {
        let batch = commit::batch_of(db, txn);
        commit::lemma_commit_is_durable(db, files, txn);
        assert(found_log == log::log_file(after.log, after.first_seq)) by {
            assert(logged.wal.pending =~= log::encoded_records(batch, db.wal.next_seq));
            log::lemma_encoded_in_turn(files.log, batch, files.first_seq);
            assert(found_log =~= log::log_file(after.log, after.first_seq));
        }
        lemma_whole_log_restores(after, txn.page_count, files.data);
    }
}

/// A database that is created is there after a crash: both files open, with
/// the header page alone and nothing to recover.
pub proof fn lemma_created_database_is_durable(found_data: Seq<u8>, found_log: Seq<u8>)
    requires
        file_op::crash_leaves(Seq::empty(), disk::create_ops(), found_data),
        file_op::crash_leaves(Seq::empty(), log::create_ops(), found_log),
    ensures
        disk::opened_file(found_data) == Ok::<u64, ErrorView>(1),
        log::opened(found_log) matches Ok(scan) && recovery::replayed(scan.records) == Ok::<
            Map<PageId, Seq<u8>>,
            ErrorView,
        >(Map::empty()),
{
    file_op::lemma_synced(Seq::empty(), disk::create_ops(), found_data);
    disk::lemma_created_file_opens();
    log::lemma_new_log_is_durable(found_log);
    assert(log::opened(found_log)->Ok_0.records =~= Seq::empty());
}

/// If a page that was written back to make room is lost in a crash, as nothing
/// was fsynced, the committed state is the same: the log has the page.
pub proof fn lemma_lost_write_back(db: DbView, files: Files, id: PageId, found: Seq<u8>)
    requires
        consistency::consistent(db, files),
        0 < id.0 < db.page_count,
        db::fetched(db, id).1 is Write,
        file_op::crash_during(files.data, seq![db::fetched(db, id).1->Write_1], found),
    ensures
        consistency::same_state(files, files.with_data(found)),
        reopens_as(
            files,
            db.page_count,
            found,
            log::log_file(files.log, files.first_seq),
        ),
{
    let (after, step) = db::fetched(db, id);
    let frame = step->Write_0;
    let ops = seq![step->Write_1];
    reading::lemma_fetch_gives_committed(db, files, id);
    reading::lemma_fetch_ends(db, id, Seq::empty());
    let written = after.pool.frames[frame].page_id->0;
    buffer_pool::lemma_room(db.pool);
    assert(after.pool.holds(frame, written));
    assert(after.pool.frames[frame].page == files.committed(written));
    assert(ops[0] == disk::page_write(written, files.committed(written)));
    assert(catches_up(files, ops)) by {
        assert forall|i: int| 0 <= i < ops.len() implies (#[trigger] ops[i]) is SyncData || ops[i]
            is SyncAll || writes_committed(files, ops[i]) by {}
    }
    lemma_crash_while_catching_up(files, db.page_count, ops, found);
    let done = choose|done: int|
        0 <= done <= ops.len() && #[trigger] file_op::crash_leaves(
            files.data,
            ops.take(done),
            found,
        );
    let kept = choose|kept: Seq<bool>| #[trigger]
        file_op::survives(ops.take(done), kept) && found == file_op::some_applied(
            files.data,
            ops.take(done),
            kept,
        );
    assert forall|i: int| 0 <= i < ops.take(done).len() implies (#[trigger] ops.take(done)[i])
        is SyncData || ops.take(done)[i] is SyncAll || writes_committed(
        files,
        ops.take(done)[i],
    ) by {
        assert(ops.take(done)[i] == ops[i]);
    }
    lemma_some_caught_up(files, ops.take(done), kept);
    consistency::lemma_logged_pages_may_tear(files, found);
}

} // verus!
