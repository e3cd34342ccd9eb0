//! Reopening after a crash gives the committed state back.

use vstd::prelude::*;

use super::{commit, reading, Files};
use crate::db::txn::{CommitView, TxnView};
use crate::db::{self, consistency, txn, DbView, Options};
use crate::error::ErrorView;
use crate::storage::page::{PageId, PAGE_SIZE};
use crate::storage::wal::log;
use crate::storage::{buffer_pool, disk, file_header, file_op, page, page_map, recovery};

verus! {

/// Recovery restores the committed state. The log may be found with a torn
/// tail, as long as it replays to the same images, and of the data file every
/// page with an image in the log may be torn. The reopened database has the
/// same pages, and is in step with its files.
pub proof fn lemma_recovery_restores_state(
    files: Files,
    page_count: u64,
    found_data: Seq<u8>,
    found_log: Seq<u8>,
    db: DbView,
    options: Options,
)
    requires
        files.log_ok(),
        files.state_ok(page_count),
        files.data.len() <= found_data.len(),
        forall|id: PageId|
            !files.images().contains_key(id) ==> #[trigger] disk::page_of(found_data, id)
                == disk::page_of(files.data, id),
        log::opened(found_log) is Ok,
        recovery::replayed(log::opened(found_log)->Ok_0.records) == Ok::<
            Map<PageId, Seq<u8>>,
            ErrorView,
        >(files.images()),
        db::is_fresh(
            db,
            page_count,
            db::emptied(log::opened_wal(log::opened(found_log)->Ok_0)),
            options,
        ),
    ensures
        ({
            let scan = log::opened(found_log)->Ok_0;
            let data = recovery::restored(found_data, files.images());
            let wal = file_op::all_applied(
                file_op::all_applied(found_log, log::repair_ops(scan)),
                log::reset_ops(log::opened_wal(scan)),
            );
            let after = Files { data, log: Seq::empty(), first_seq: scan.next_seq };
            &&& disk::opened_file(data) == Ok::<u64, ErrorView>(page_count)
            &&& wal == log::log_file(after.log, after.first_seq)
            &&& consistency::same_state(files, after)
            &&& consistency::consistent(db, after)
        }),
{
    let scan = log::opened(found_log)->Ok_0;
    let images = files.images();
    let data = recovery::restored(found_data, images);
    let after = Files { data, log: Seq::empty(), first_seq: scan.next_seq };
    consistency::lemma_images_ok(files);
    recovery::lemma_restored(found_data, images);
    consistency::lemma_logged_pages_may_tear(files, found_data);
    consistency::lemma_empty_log(after);
    log::lemma_reset_empties(
        file_op::all_applied(found_log, log::repair_ops(scan)),
        log::opened_wal(scan),
    );
    assert forall|id: PageId| #[trigger] files.committed(id) == after.committed(id) by {
        assert(files.committed(id) == files.with_data(found_data).committed(id));
        assert(disk::page_of(data, id) == recovery::restored_page(found_data, images, id));
    }
    assert(files.committed(PageId(0)) == after.committed(PageId(0)));
    file_header::lemma_header_round_trips(page_count);
    assert forall|id: PageId| id.0 < page_count implies (id.0 + 1) * PAGE_SIZE <= data.len() by {
        if !images.contains_key(id) {
            assert((id.0 + 1) * PAGE_SIZE <= files.data.len());
        }
    }
    let last = PageId((page_count - 1) as u64);
    assert((last.0 + 1) * PAGE_SIZE <= data.len());
    assert(disk::page_of(data, PageId(0)) == file_header::encoded_header(page_count));
    assert(after.state_ok(page_count)) by {
        assert forall|id: PageId| 0 < id.0 < page_count implies page::verified_header(
            #[trigger] after.committed(id),
            id,
        ) is Ok by {
            assert(files.committed(id) == after.committed(id));
        }
    }
    buffer_pool::lemma_empty_pool(options.buffer_pool_pages);
    consistency::lemma_fresh_in_step(db, after);
}

/// A commit that was acknowledged survives a crash: the log holds its records,
/// and whatever became of the pages with an image in it, the reopened database
/// has the state that the transaction left.
pub proof fn lemma_acknowledged_commit_survives_crash(
    db: DbView,
    files: Files,
    txn: TxnView,
    found_data: Seq<u8>,
    reopened: DbView,
    options: Options,
)
    requires
        consistency::consistent(db, files),
        commit::can_commit(db, txn),
        files.data.len() <= found_data.len(),
        forall|id: PageId|
            !commit::files_after(db, files, txn).images().contains_key(id) ==> #[trigger] disk::page_of(
                found_data,
                id,
            ) == disk::page_of(files.data, id),
        db::is_fresh(
            reopened,
            txn.page_count,
            db::emptied(
                log::opened_wal(
                    log::opened(
                        log::log_file(commit::files_after(db, files, txn).log, files.first_seq),
                    )->Ok_0,
                ),
            ),
            options,
        ),
    ensures
        ({
            let after = commit::files_after(db, files, txn);
            let recovered = Files {
                data: recovery::restored(found_data, after.images()),
                log: Seq::empty(),
                first_seq: (after.first_seq + after.log.len()) as u64,
            };
            &&& disk::opened_file(recovered.data) == Ok::<u64, ErrorView>(txn.page_count)
            &&& consistency::consistent(reopened, recovered)
            &&& forall|id: PageId| #[trigger]
                recovered.committed(id) == commit::page_after(files, txn, db.page_count, id)
        }),
{
    let after = commit::files_after(db, files, txn);
    let found_log = log::log_file(after.log, after.first_seq);
    let recovered = Files {
        data: recovery::restored(found_data, after.images()),
        log: Seq::empty(),
        first_seq: (after.first_seq + after.log.len()) as u64,
    };
    commit::lemma_commit_is_durable(db, files, txn);
    assert(log::opened(found_log) is Ok && log::opened(found_log)->Ok_0.records == after.records()
        && log::opened(found_log)->Ok_0.next_seq == recovered.first_seq) by {
        log::lemma_open_reads_back(after.log, after.first_seq);
    }
    lemma_recovery_restores_state(
        after,
        txn.page_count,
        found_data,
        found_log,
        reopened,
        options,
    );
    assert forall|id: PageId| #[trigger] recovered.committed(id) == commit::page_after(
        files,
        txn,
        db.page_count,
        id,
    ) by {
        assert(after.committed(id) == recovered.committed(id));
    }
}

/// A commit that was not acknowledged, as a part of its records is missing
/// from the end of the log, leaves no trace: the reopened database has the
/// state from before the transaction.
pub proof fn lemma_unacknowledged_commit_leaves_no_trace(
    db: DbView,
    files: Files,
    txn: TxnView,
    cut: int,
    found_data: Seq<u8>,
    reopened: DbView,
    options: Options,
)
    requires
        consistency::consistent(db, files),
        commit::can_commit(db, txn),
        log::log_file(files.log, files.first_seq).len() <= cut < log::log_file(
            commit::files_after(db, files, txn).log,
            files.first_seq,
        ).len(),
        files.data.len() <= found_data.len(),
        forall|id: PageId|
            !files.images().contains_key(id) ==> #[trigger] disk::page_of(found_data, id)
                == disk::page_of(files.data, id),
        db::is_fresh(
            reopened,
            db.page_count,
            db::emptied(
                log::opened_wal(
                    log::opened(
                        log::log_file(commit::files_after(db, files, txn).log, files.first_seq).take(cut),
                    )->Ok_0,
                ),
            ),
            options,
        ),
    ensures
        ({
            let found_log = log::log_file(
                commit::files_after(db, files, txn).log,
                files.first_seq,
            ).take(cut);
            let recovered = Files {
                data: recovery::restored(found_data, files.images()),
                log: Seq::empty(),
                first_seq: log::opened(found_log)->Ok_0.next_seq,
            };
            &&& disk::opened_file(recovered.data) == Ok::<u64, ErrorView>(db.page_count)
            &&& consistency::consistent(reopened, recovered)
            &&& consistency::same_state(files, recovered)
        }),
{
    let found_log = log::log_file(commit::files_after(db, files, txn).log, files.first_seq).take(cut);
    commit::lemma_torn_commit_leaves_no_trace(db, files, txn, cut);
    lemma_recovery_restores_state(
        files,
        db.page_count,
        found_data,
        found_log,
        reopened,
        options,
    );
}

/// A commit that was not acknowledged, as blocks of its records reached the
/// disk out of order, leaves no trace: whatever stands behind the records that
/// are whole, as long as it does not read as the next one, the reopened
/// database has the state from before the transaction.
pub proof fn lemma_damaged_commit_leaves_no_trace(
    db: DbView,
    files: Files,
    txn: TxnView,
    count: int,
    rest: Seq<u8>,
    found_data: Seq<u8>,
    reopened: DbView,
    options: Options,
)
    requires
        consistency::consistent(db, files),
        commit::can_commit(db, txn),
        0 <= count < commit::batch_of(db, txn).len(),
        log::scanned(rest, (files.first_seq + files.log.len() + count) as u64).records.len() == 0,
        files.data.len() <= found_data.len(),
        forall|id: PageId|
            !files.images().contains_key(id) ==> #[trigger] disk::page_of(found_data, id)
                == disk::page_of(files.data, id),
        db::is_fresh(
            reopened,
            db.page_count,
            db::emptied(
                log::opened_wal(
                    log::opened(commit::damaged_log(db, files, txn, count, rest))->Ok_0,
                ),
            ),
            options,
        ),
    ensures
        ({
            let found_log = commit::damaged_log(db, files, txn, count, rest);
            let recovered = Files {
                data: recovery::restored(found_data, files.images()),
                log: Seq::empty(),
                first_seq: log::opened(found_log)->Ok_0.next_seq,
            };
            &&& disk::opened_file(recovered.data) == Ok::<u64, ErrorView>(db.page_count)
            &&& consistency::consistent(reopened, recovered)
            &&& consistency::same_state(files, recovered)
        }),
{
    commit::lemma_damaged_commit_leaves_no_trace(db, files, txn, count, rest);
    lemma_recovery_restores_state(
        files,
        db.page_count,
        found_data,
        commit::damaged_log(db, files, txn, count, rest),
        reopened,
        options,
    );
}

/// A commit with a hole in its records leaves no trace: if the start of any of
/// them is missing from the log, with zeros in its place, the reopened database
/// has the state from before the transaction, even if the commit record behind
/// the hole is there.
pub proof fn lemma_commit_with_hole_leaves_no_trace(
    db: DbView,
    files: Files,
    txn: TxnView,
    count: int,
    found_log: Seq<u8>,
    found_data: Seq<u8>,
    reopened: DbView,
    options: Options,
)
    requires
        consistency::consistent(db, files),
        commit::can_commit(db, txn),
        commit::has_hole(db, files, txn, count, found_log),
        files.data.len() <= found_data.len(),
        forall|id: PageId|
            !files.images().contains_key(id) ==> #[trigger] disk::page_of(found_data, id)
                == disk::page_of(files.data, id),
        db::is_fresh(
            reopened,
            db.page_count,
            db::emptied(log::opened_wal(log::opened(found_log)->Ok_0)),
            options,
        ),
    ensures
        ({
            let recovered = Files {
                data: recovery::restored(found_data, files.images()),
                log: Seq::empty(),
                first_seq: log::opened(found_log)->Ok_0.next_seq,
            };
            &&& disk::opened_file(recovered.data) == Ok::<u64, ErrorView>(db.page_count)
            &&& consistency::consistent(reopened, recovered)
            &&& consistency::same_state(files, recovered)
        }),
{
    commit::lemma_hole_in_commit_leaves_no_trace(db, files, txn, count, found_log);
    lemma_recovery_restores_state(files, db.page_count, found_data, found_log, reopened, options);
}

/// The database after a transaction was logged and its records made durable.
pub open spec fn made_durable(db: DbView, txn: TxnView) -> DbView {
    txn::commit_logged_step(txn::commit_step(db, txn).0, true)
}

/// Committing a transaction from beginning to end: its records are made
/// durable, and then its pages are published.
pub open spec fn commit_run(db: DbView, files: Files, txn: TxnView) -> Option<(DbView, Files)> {
    match txn::commit_step(db, txn).1 {
        CommitView::Logged { pages, page_count, .. } => commit::publish_run(
            made_durable(db, txn),
            commit::files_after(db, files, txn),
            pages,
            page_count,
            2 * pages.len() + 1,
        ),
        _ => None,
    }
}

/// What a crash, or dropping the database, and recovery make of the files.
pub open spec fn recovered(files: Files) -> Files {
    Files {
        data: recovery::restored(files.data, files.images()),
        log: Seq::empty(),
        first_seq: (files.first_seq + files.log.len()) as u64,
    }
}

/// A commit is visible and durable. It succeeds where some frame is not
/// pinned. Then every later reader sees the transaction's page count, each page
/// that it changed as it left it, but for the checksum, and every other page as
/// before. Reopening the database without a checkpoint shows the same.
pub proof fn lemma_commit_is_visible_and_durable(
    db: DbView,
    files: Files,
    txn: TxnView,
    reopened: DbView,
    options: Options,
)
    requires
        consistency::consistent(db, files),
        commit::can_commit(db, txn),
        reading::has_unpinned(db.pool),
    ensures
        txn::commit_step(db, txn).1 matches CommitView::Logged { ops, .. }
            && file_op::all_applied(log::log_file(files.log, files.first_seq), ops)
            == log::log_file(commit::files_after(db, files, txn).log, files.first_seq),
        commit_run(db, files, txn) matches Some((done, end)) && {
            let found_log = log::log_file(end.log, end.first_seq);
            &&& consistency::consistent(done, end)
            &&& done.page_count == txn.page_count
            &&& shows_commit(files, txn, db.page_count, end)
            &&& forall|id: PageId|
                0 < id.0 < txn.page_count && reading::can_pin(done.pool, id) ==> (
                #[trigger] reading::read_run(done, end.data, id, 1) matches Some((_, _, page))
                    && page == commit::page_after(files, txn, db.page_count, id))
            &&& disk::opened_file(recovered(end).data) == Ok::<u64, ErrorView>(txn.page_count)
            &&& shows_commit(files, txn, db.page_count, recovered(end))
            &&& db::is_fresh(
                reopened,
                txn.page_count,
                db::emptied(log::opened_wal(log::opened(found_log)->Ok_0)),
                options,
            ) ==> consistency::consistent(reopened, recovered(end))
        },
{
    let durable = made_durable(db, txn);
    let after = commit::files_after(db, files, txn);
    let pages = txn::sealed_list(page_map::listed(txn.dirty));
    let left = txn.dirty.dom();
    commit::lemma_commit_is_durable(db, files, txn);
    commit::lemma_publish_starts(db, durable, files, txn);
    commit::lemma_publish_succeeds(
        durable,
        after,
        txn.page_count,
        left,
        pages,
        2 * pages.len() + 1,
    );
    commit::lemma_publish_run(
        durable,
        after,
        txn.page_count,
        left,
        pages,
        2 * pages.len() + 1,
    );
    let (done, end) = commit_run(db, files, txn)->0;
    lemma_shows_commit(files, txn, db.page_count, after, end);
    assert forall|id: PageId|
        0 < id.0 < txn.page_count && reading::can_pin(done.pool, id) implies (
    #[trigger] reading::read_run(done, end.data, id, 1) matches Some((_, _, page)) && page
        == commit::page_after(files, txn, db.page_count, id)) by {
        reading::lemma_read_succeeds(done, end, id);
        reading::lemma_read_gives_committed(done, end, id, 1);
        assert(after.committed(id) == end.committed(id));
    }
    lemma_reopened(end, txn.page_count, reopened, options);
    lemma_shows_commit(files, txn, db.page_count, end, recovered(end));
}

/// Whether the committed state is the one that a transaction left: each page
/// it changed is as it left it, but for the checksum, and every other data page
/// is as in `files`.
pub open spec fn shows_commit(files: Files, txn: TxnView, page_count: u64, now: Files) -> bool {
    &&& forall|id: PageId| #[trigger]
        now.committed(id) == commit::page_after(files, txn, page_count, id)
    &&& forall|id: PageId| #[trigger]
        txn.dirty.contains_key(id) ==> now.committed(id).skip(4) == txn.dirty[id].skip(4)
    &&& forall|id: PageId|
        id.0 > 0 && !txn.dirty.contains_key(id) ==> #[trigger] now.committed(id)
            == files.committed(id)
}

/// Files with the same state show the same commit.
pub proof fn lemma_shows_commit(
    files: Files,
    txn: TxnView,
    page_count: u64,
    before: Files,
    now: Files,
)
    requires
        commit::txn_ok(txn, page_count),
        consistency::same_state(before, now),
        forall|id: PageId| #[trigger]
            before.committed(id) == commit::page_after(files, txn, page_count, id),
    ensures
        shows_commit(files, txn, page_count, now),
{
    assert forall|id: PageId| #[trigger]
        now.committed(id) == commit::page_after(files, txn, page_count, id) by {
        assert(before.committed(id) == now.committed(id));
    }
    assert forall|id: PageId| #[trigger] txn.dirty.contains_key(id) implies now.committed(id).skip(
        4,
    ) == txn.dirty[id].skip(4) by {
        assert(now.committed(id) == page::sealed(txn.dirty[id]));
        page::lemma_seal_sets_checksum(txn.dirty[id]);
    }
}

/// Reopening a database from files that nothing happened to gives the same
/// state.
proof fn lemma_reopened(files: Files, page_count: u64, reopened: DbView, options: Options)
    requires
        files.log_ok(),
        files.state_ok(page_count),
    ensures
        disk::opened_file(recovered(files).data) == Ok::<u64, ErrorView>(page_count),
        consistency::same_state(files, recovered(files)),
        db::is_fresh(
            reopened,
            page_count,
            db::emptied(
                log::opened_wal(log::opened(log::log_file(files.log, files.first_seq))->Ok_0),
            ),
            options,
        ) ==> consistency::consistent(reopened, recovered(files)),
{
    let found_log = log::log_file(files.log, files.first_seq);
    log::lemma_open_reads_back(files.log, files.first_seq);
    let scan = log::opened(found_log)->Ok_0;
    let fresh = DbView {
        page_count,
        pool: buffer_pool::empty_pool(1),
        wal: db::emptied(log::opened_wal(scan)),
        next_txn: 1,
        poisoned: false,
        auto_checkpoint_bytes: None,
    };
    let one = Options {
        buffer_pool_pages: 1,
        create_if_missing: true,
        auto_checkpoint_bytes: None,
    };
    lemma_recovery_restores_state(files, page_count, files.data, found_log, fresh, one);
    if db::is_fresh(
        reopened,
        page_count,
        db::emptied(log::opened_wal(scan)),
        options,
    ) {
        lemma_recovery_restores_state(
            files,
            page_count,
            files.data,
            found_log,
            reopened,
            options,
        );
    }
}

} // verus!
