//! A transaction takes effect as a whole, or not at all.

use vstd::prelude::*;

use super::{reading, Files};
use crate::db::txn::{PublishView, TxnView};
use crate::db::{self, consistency, txn, DbView};
use crate::error::ErrorView;
use crate::storage::buffer_pool::{FrameView, PoolView, RoomView};
use crate::storage::disk::MAX_PAGE_COUNT;
use crate::storage::page::{PageId, PAGE_SIZE};
use crate::storage::wal::record::RecordView;
use crate::storage::wal::{log, record, TxnId};
use crate::storage::{buffer_pool, disk, file_header, file_op, page, page_map, recovery};

verus! {

/// A transaction on a database with `page_count` pages: it has private copies
/// of data pages only, and of every page that it added.
pub open spec fn txn_ok(txn: TxnView, page_count: u64) -> bool {
    &&& 1 <= page_count <= txn.page_count <= MAX_PAGE_COUNT
    &&& txn.dirty.dom().finite()
    &&& forall|id: PageId| #[trigger]
        txn.dirty.contains_key(id) ==> 0 < id.0 < txn.page_count && txn.dirty[id].len() == PAGE_SIZE
    &&& forall|id: PageId|
        page_count <= id.0 < txn.page_count ==> #[trigger] txn.dirty.contains_key(id)
}

/// A transaction starts out well, and stays so when it adds or changes pages.
pub proof fn lemma_txn_stays_ok(txn: TxnView, page_count: u64, id: PageId, page: Seq<u8>)
    requires
        1 <= page_count <= MAX_PAGE_COUNT,
        page.len() == PAGE_SIZE,
    ensures
        txn_ok(TxnView { dirty: Map::empty(), page_count }, page_count),
        txn_ok(txn, page_count) && 0 < id.0 < txn.page_count ==> txn_ok(
            txn::with_page(txn, id, page),
            page_count,
        ),
        txn_ok(txn, page_count) && id.0 == txn.page_count && txn.page_count < MAX_PAGE_COUNT
            ==> txn_ok(
            TxnView {
                dirty: txn.dirty.insert(id, page),
                page_count: (txn.page_count + 1) as u64,
            },
            page_count,
        ),
{
    let fresh = TxnView { dirty: Map::<PageId, Seq<u8>>::empty(), page_count };
    assert(fresh.dirty.dom() =~= Set::empty());
    let changed = txn.dirty.insert(id, page);
    assert(changed.dom() =~= txn.dirty.dom().insert(id));
    if txn_ok(txn, page_count) {
        assert forall|other: PageId| page_count <= other.0 < txn.page_count implies
            #[trigger] changed.contains_key(other) by {
            assert(txn.dirty.contains_key(other));
        }
        assert forall|other: PageId| #[trigger] changed.contains_key(other) && other != id implies 0
            < other.0 < txn.page_count && changed[other].len() == PAGE_SIZE by {
            assert(txn.dirty.contains_key(other));
        }
        if id.0 == txn.page_count && txn.page_count < MAX_PAGE_COUNT {
            assert forall|other: PageId| page_count <= other.0 < txn.page_count + 1 implies
                #[trigger] changed.contains_key(other) by {
                if other != id {
                    assert(txn.dirty.contains_key(other));
                }
            }
        }
    }
}

/// A page as it is once a transaction is committed.
pub open spec fn page_after(files: Files, txn: TxnView, page_count: u64, id: PageId) -> Seq<u8> {
    if txn.dirty.contains_key(id) {
        page::sealed(txn.dirty[id])
    } else if id.0 == 0 && txn.page_count > page_count {
        file_header::encoded_header(txn.page_count)
    } else {
        files.committed(id)
    }
}

/// The records of a transaction, numbered behind a log.
pub open spec fn batch_of(db: DbView, txn: TxnView) -> Seq<RecordView> {
    recovery::txn_records(TxnId(db.next_txn), txn::commit_images(txn, db.page_count))
}

/// The files once a transaction is in the log.
pub open spec fn files_after(db: DbView, files: Files, txn: TxnView) -> Files {
    Files { log: files.log + batch_of(db, txn), ..files }
}

/// What can be committed: a transaction that changed something, left every
/// page valid, and has room in the log.
pub open spec fn can_commit(db: DbView, txn: TxnView) -> bool {
    &&& txn_ok(txn, db.page_count)
    &&& page_map::listed(txn.dirty).len() > 0
    &&& txn::malformed(page_map::listed(txn.dirty)) is None
    &&& db.wal.has_room((page_map::listed(txn.dirty).len() + 2) as nat)
    &&& db.next_txn < u64::MAX
}

/// Where no page is malformed, each is valid once sealed.
proof fn lemma_none_malformed(list: Seq<(PageId, Seq<u8>)>, i: int)
    requires
        txn::malformed(list) is None,
        0 <= i < list.len(),
    ensures
        page::verified_header(page::sealed(list[i].1), list[i].0) is Ok,
    decreases list.len(),
{
    if i < list.len() - 1 {
        lemma_none_malformed(list.drop_last(), i);
    }
}

/// The images of a transaction are valid and in file order, and each is the
/// page as it is once the transaction is committed.
proof fn lemma_commit_images(db: DbView, files: Files, txn: TxnView)
    requires
        can_commit(db, txn),
    ensures
        ({
            let list = txn::commit_images(txn, db.page_count);
            let images = page_map::map_of(list);
            let grew = txn.page_count > db.page_count;
            &&& page_map::ascending(list)
            &&& list.len() <= page_map::listed(txn.dirty).len() + 1
            &&& forall|i: int|
                0 <= i < list.len() ==> recovery::image_error((#[trigger] list[i]).0, list[i].1)
                    is None && list[i].1.len() == PAGE_SIZE && list[i].0.0 <= MAX_PAGE_COUNT
            &&& forall|id: PageId| #[trigger]
                images.contains_key(id) == (txn.dirty.contains_key(id) || (id.0 == 0 && grew))
            &&& forall|id: PageId| #[trigger]
                images.contains_key(id) ==> images[id] == page_after(files, txn, db.page_count, id)
            &&& forall|id: PageId| #[trigger]
                txn.dirty.contains_key(id) ==> page::verified_header(
                    page::sealed(txn.dirty[id]),
                    id,
                ) is Ok && page::sealed(txn.dirty[id]).len() == PAGE_SIZE
        }),
{
    let pages = page_map::listed(txn.dirty);
    let sealed = txn::sealed_list(pages);
    let list = txn::commit_images(txn, db.page_count);
    let images = page_map::map_of(list);
    let grew = txn.page_count > db.page_count;
    let header = (PageId(0), file_header::encoded_header(txn.page_count));
    let skipped: int = if grew {
        1
    } else {
        0
    };
    page_map::lemma_listed(txn.dirty);
    file_header::lemma_header_round_trips(txn.page_count);
    assert forall|i: int| 0 <= i < pages.len() implies {
        &&& txn.dirty.contains_key((#[trigger] pages[i]).0)
        &&& pages[i].1 == txn.dirty[pages[i].0]
        &&& page::verified_header(sealed[i].1, pages[i].0) is Ok
        &&& sealed[i].1.len() == PAGE_SIZE
    } by {
        page_map::lemma_entry_in_map(pages, i);
        lemma_none_malformed(pages, i);
        page::lemma_seal_sets_checksum(pages[i].1);
    }
    assert forall|i: int| skipped <= i < list.len() implies #[trigger] list[i] == (
        pages[i - skipped].0,
        page::sealed(pages[i - skipped].1),
    ) by {}
    assert forall|i: int, j: int| 0 <= i < j < list.len() implies (#[trigger] list[i]).0.0 < (
    #[trigger] list[j]).0.0 by {
        let b = pages[j - skipped];
        if i >= skipped {
            let a = pages[i - skipped];
            assert(a.0.0 < b.0.0);
        } else {
            assert(txn.dirty.contains_key(b.0));
        }
    }
    assert forall|i: int| 0 <= i < list.len() implies recovery::image_error(
        (#[trigger] list[i]).0,
        list[i].1,
    ) is None && list[i].1.len() == PAGE_SIZE && list[i].0.0 <= MAX_PAGE_COUNT by {
        if i >= skipped {
            let a = pages[i - skipped];
            assert(txn.dirty.contains_key(a.0));
        }
    }
    assert forall|id: PageId| #[trigger] images.contains_key(id) == (txn.dirty.contains_key(id) || (
    id.0 == 0 && grew)) by {
        if images.contains_key(id) {
            let i = choose|i: int| 0 <= i < list.len() && (#[trigger] list[i]).0 == id;
            if i >= skipped {
                assert(txn.dirty.contains_key(pages[i - skipped].0));
            }
        }
        if txn.dirty.contains_key(id) {
            assert(page_map::has_id(pages, id));
            let i = choose|i: int| 0 <= i < pages.len() && (#[trigger] pages[i]).0 == id;
            assert(list[i + skipped].0 == id);
        }
        if id.0 == 0 && grew {
            assert(list[0].0 == id);
        }
    }
    assert forall|id: PageId| #[trigger] images.contains_key(id) implies images[id] == page_after(
        files,
        txn,
        db.page_count,
        id,
    ) by {
        let i = choose|i: int| 0 <= i < list.len() && (#[trigger] list[i]).0 == id;
        page_map::lemma_entry_in_map(list, i);
        if i >= skipped {
            assert(txn.dirty.contains_key(pages[i - skipped].0));
        } else {
            assert(list[i] == header);
        }
    }
    assert forall|id: PageId| #[trigger] txn.dirty.contains_key(id) implies page::verified_header(
        page::sealed(txn.dirty[id]),
        id,
    ) is Ok && page::sealed(txn.dirty[id]).len() == PAGE_SIZE by {
        assert(page_map::has_id(pages, id));
        let i = choose|i: int| 0 <= i < pages.len() && (#[trigger] pages[i]).0 == id;
        assert(txn.dirty.contains_key(pages[i].0));
    }
}

/// Once its records are in the log, a transaction is committed as a whole:
/// the committed state has every change it made, and no other.
proof fn lemma_batch_takes_effect(db: DbView, files: Files, txn: TxnView)
    requires
        consistency::wal_in_step(db, files),
        can_commit(db, txn),
    ensures
        ({
            let after = files_after(db, files, txn);
            let batch = batch_of(db, txn);
            let list = txn::commit_images(txn, db.page_count);
            &&& after.log_ok()
            &&& log::all_wf(batch)
            &&& batch.len() == list.len() + 1
            &&& files.first_seq + files.log.len() + batch.len() <= u64::MAX
            &&& after.images() == files.images().union_prefer_right(page_map::map_of(list))
            &&& forall|id: PageId| #[trigger]
                after.committed(id) == page_after(files, txn, db.page_count, id)
        }),
{
    let after = files_after(db, files, txn);
    let batch = batch_of(db, txn);
    let list = txn::commit_images(txn, db.page_count);
    let id = TxnId(db.next_txn);
    let next = (files.first_seq + files.log.len()) as u64;
    lemma_commit_images(db, files, txn);
    let tail = log::numbered(batch, next);
    assert(log::all_wf(batch)) by {
        assert forall|i: int| 0 <= i < batch.len() implies (#[trigger] batch[i]).wf() by {
            if i < list.len() {
                assert(batch[i] == recovery::txn_images(id, list)[i]);
                assert(list[i].1.len() == PAGE_SIZE);
            }
        }
    }
    assert(log::all_wf(after.log)) by {
        assert forall|i: int| 0 <= i < after.log.len() implies (#[trigger] after.log[i]).wf() by {
            if i < files.log.len() {
                assert(files.log[i].wf());
            } else {
                assert(batch[i - files.log.len()].wf());
            }
        }
    }
    assert(after.records() =~= files.records() + tail);
    assert(log::plain(tail) =~= batch);
    assert(recovery::is_new_txn(files.records(), id)) by {
        assert forall|i: int| 0 <= i < files.records().len() implies (
        #[trigger] files.records()[i]).record.txn() != id by {
            assert(files.log[i].txn().0 < db.next_txn);
        }
    }
    recovery::lemma_committed_txn_takes_effect(files.records(), tail, id, list);
    assert forall|page_id: PageId| #[trigger] after.committed(page_id) == page_after(
        files,
        txn,
        db.page_count,
        page_id,
    ) by {
        let images = page_map::map_of(list);
        if images.contains_key(page_id) {
            assert(after.images()[page_id] == images[page_id]);
        } else {
            assert(after.images().contains_key(page_id) == files.images().contains_key(page_id));
        }
    }
}

/// Making a transaction's records durable makes the transaction durable: the
/// log file then holds them, and the committed state is the old one with
/// exactly the transaction's changes. Readers still see the old one, until the
/// transaction's pages are published.
pub proof fn lemma_commit_is_durable(db: DbView, files: Files, txn: TxnView)
    requires
        consistency::consistent(db, files),
        can_commit(db, txn),
    ensures
        ({
            let logged = txn::logged(db, txn);
            let durable = DbView { wal: txn::flushed(logged.wal), ..logged };
            let after = files_after(db, files, txn);
            &&& file_op::all_applied(
                log::log_file(files.log, files.first_seq),
                log::flush_ops(logged.wal),
            ) == log::log_file(after.log, after.first_seq)
            &&& forall|id: PageId| #[trigger]
                after.committed(id) == page_after(files, txn, db.page_count, id)
            &&& after.state_ok(txn.page_count)
            &&& consistency::wal_in_step(durable, after)
            &&& consistency::readable(durable, files)
        }),
{
    let logged = txn::logged(db, txn);
    let durable = DbView { wal: txn::flushed(logged.wal), ..logged };
    let after = files_after(db, files, txn);
    let batch = batch_of(db, txn);
    let next = (files.first_seq + files.log.len()) as u64;
    lemma_batch_takes_effect(db, files, txn);
    lemma_state_after(db, files, txn);
    assert(logged.wal.pending =~= log::encoded_records(batch, next));
    log::lemma_flush_appends(files.log, batch, files.first_seq, logged.wal);
    log::lemma_encoded_in_turn(files.log, batch, files.first_seq);
    log::lemma_encoded_len(batch, next);
    assert(batch.len() <= page_map::listed(txn.dirty).len() + 2);
    log::lemma_room_for_fewer(
        db.wal,
        (page_map::listed(txn.dirty).len() + 2) as nat,
        batch.len(),
    );
    assert(consistency::wal_in_step(durable, after)) by {
        assert forall|i: int| 0 <= i < after.log.len() implies (#[trigger] after.log[i]).txn().0
            < durable.next_txn by {
            if i < files.log.len() {
                assert(files.log[i].txn().0 < db.next_txn);
            } else {
                assert(after.log[i] == batch[i - files.log.len()]);
            }
        }
    }
}

/// The state a transaction leaves is a valid database.
proof fn lemma_state_after(db: DbView, files: Files, txn: TxnView)
    requires
        consistency::wal_in_step(db, files),
        files.state_ok(db.page_count),
        can_commit(db, txn),
    ensures
        files_after(db, files, txn).state_ok(txn.page_count),
{
    let after = files_after(db, files, txn);
    lemma_commit_images(db, files, txn);
    lemma_batch_takes_effect(db, files, txn);
    assert(after.committed(PageId(0)) == page_after(files, txn, db.page_count, PageId(0)));
    assert forall|id: PageId| 0 < id.0 < txn.page_count implies page::verified_header(
        #[trigger] after.committed(id),
        id,
    ) is Ok by {
        if !txn.dirty.contains_key(id) {
            assert(page::verified_header(files.committed(id), id) is Ok);
        }
    }
    assert forall|id: PageId|
        id.0 < txn.page_count && !(#[trigger] after.images().contains_key(id)) implies (id.0 + 1)
        * PAGE_SIZE <= after.data.len() by {
        assert(!files.images().contains_key(id));
        assert(!txn.dirty.contains_key(id));
    }
}

/// Publishing a commit starts from what readers saw until then: all that is
/// missing from the new state is the pages that the transaction changed. The
/// transaction was logged when the database was `then`; pages may have been
/// read and written back since.
pub proof fn lemma_publish_starts(then: DbView, db: DbView, files: Files, txn: TxnView)
    requires
        consistency::wal_in_step(then, files),
        can_commit(then, txn),
        consistency::readable(db, files),
        db.page_count == then.page_count,
        consistency::wal_in_step(db, files_after(then, files, txn)),
    ensures
        ({
            let after = files_after(then, files, txn);
            let remaining = txn::sealed_list(page_map::listed(txn.dirty));
            &&& consistency::in_step(db, after, txn.page_count, txn.dirty.dom())
            &&& to_publish(remaining, after, txn.dirty.dom())
        }),
{
    let after = files_after(then, files, txn);
    let left = txn.dirty.dom();
    lemma_commit_images(then, files, txn);
    lemma_batch_takes_effect(then, files, txn);
    lemma_state_after(then, files, txn);
    lemma_list_to_publish(then, files, txn);
    assert forall|frame: int, id: PageId| #[trigger] db.pool.holds(frame, id) implies consistency::frame_in_step(
        db.pool.frames[frame],
        id,
        after,
        txn.page_count,
        left,
    ) by {
        assert(after.committed(id) == page_after(files, txn, then.page_count, id));
    }
    assert forall|id: PageId|
        0 < id.0 < txn.page_count && !left.contains(id)
            && #[trigger] after.images().contains_key(id) && !consistency::on_disk(after, id) implies consistency::dirty_in(
        db.pool,
        id,
    ) by {
        assert(after.committed(id) == page_after(files, txn, then.page_count, id));
        assert(files.images().contains_key(id));
    }
    assert forall|id: PageId| #[trigger] left.contains(id) implies 0 < id.0 < txn.page_count
        && after.images().contains_key(id) by {
        assert(txn.dirty.contains_key(id));
    }
}

/// Some, but not all, of a transaction's records at the end of the log change
/// nothing.
proof fn lemma_partial_batch_ignored(db: DbView, files: Files, txn: TxnView, count: int)
    requires
        consistency::wal_in_step(db, files),
        0 <= count < batch_of(db, txn).len(),
    ensures
        recovery::replayed(
            log::numbered(files.log + batch_of(db, txn).take(count), files.first_seq),
        ) == Ok::<Map<PageId, Seq<u8>>, ErrorView>(files.images()),
{
    let part = batch_of(db, txn).take(count);
    let list = txn::commit_images(txn, db.page_count);
    let id = TxnId(db.next_txn);
    let next = (files.first_seq + files.log.len()) as u64;
    let tail = log::numbered(part, next);
    let txns = recovery::committed_txns(files.records());
    assert(log::numbered(files.log + part, files.first_seq) =~= files.records() + tail);
    assert(recovery::is_new_txn(files.records(), id)) by {
        assert forall|i: int| 0 <= i < files.records().len() implies (
        #[trigger] files.records()[i]).record.txn() != id by {
            assert(files.log[i].txn().0 < db.next_txn);
        }
    }
    recovery::lemma_new_txn_not_committed(files.records(), id);
    assert forall|i: int| 0 <= i < tail.len() implies (#[trigger] tail[i]).record is PageImage
        && !txns.contains(tail[i].record.txn().0) by {
        assert(tail[i].record == part[i]);
        assert(part[i] == recovery::txn_images(id, list)[i]);
    }
    recovery::lemma_incomplete_txn_ignored(files.records(), tail, txns);
}

/// If power is lost while a transaction's records are written, and any part
/// of them is missing from their end, recovery finds the committed state as it
/// was before: the transaction leaves no trace.
pub proof fn lemma_torn_commit_leaves_no_trace(db: DbView, files: Files, txn: TxnView, cut: int)
    requires
        consistency::consistent(db, files),
        can_commit(db, txn),
        log::log_file(files.log, files.first_seq).len() <= cut < log::log_file(
            files_after(db, files, txn).log,
            files.first_seq,
        ).len(),
    ensures
        ({
            let found = log::log_file(files_after(db, files, txn).log, files.first_seq).take(cut);
            log::opened(found) matches Ok(scan) && recovery::replayed(scan.records) == Ok::<
                Map<PageId, Seq<u8>>,
                ErrorView,
            >(files.images())
        }),
{
    let batch = batch_of(db, txn);
    let count = log::complete_records(
        batch,
        cut - log::log_file(files.log, files.first_seq).len(),
    );
    assert(log::all_wf(batch) && files.first_seq + files.log.len() + batch.len() <= u64::MAX) by {
        lemma_batch_takes_effect(db, files, txn);
    }
    log::lemma_torn_flush(files.log, batch, files.first_seq, cut);
    lemma_partial_batch_ignored(db, files, txn, count as int);
}

/// If power is lost while a transaction's records are written, blocks may
/// reach the disk out of order. Let the first `count` records be whole, but not
/// all of them, and let something that does not read as the next record follow
/// them, whatever stands behind it: the commit record may be there. Recovery
/// finds the committed state as it was before.
pub proof fn lemma_damaged_commit_leaves_no_trace(
    db: DbView,
    files: Files,
    txn: TxnView,
    count: int,
    rest: Seq<u8>,
)
    requires
        consistency::consistent(db, files),
        can_commit(db, txn),
        0 <= count < batch_of(db, txn).len(),
        log::scanned(rest, (files.first_seq + files.log.len() + count) as u64).records.len() == 0,
    ensures
        log::opened(damaged_log(db, files, txn, count, rest)) matches Ok(scan)
            && recovery::replayed(scan.records) == Ok::<Map<PageId, Seq<u8>>, ErrorView>(
            files.images(),
        ),
{
    let batch = batch_of(db, txn);
    let kept = files.log + batch.take(count);
    let next = (files.first_seq + files.log.len() + count) as u64;
    assert(log::all_wf(kept) && files.first_seq + kept.len() <= u64::MAX) by {
        lemma_batch_takes_effect(db, files, txn);
        assert forall|i: int| 0 <= i < kept.len() implies (#[trigger] kept[i]).wf() by {
            if i < files.log.len() {
                assert(files.log[i].wf());
            } else {
                assert(batch[i - files.log.len()].wf());
            }
        }
    }
    log::lemma_open_goes_on(kept, files.first_seq, rest);
    assert(log::numbered(kept, files.first_seq) + log::scanned(rest, next).records
        =~= log::numbered(kept, files.first_seq));
    lemma_partial_batch_ignored(db, files, txn, count);
}

/// A log file whose last records are the first `count` of a transaction, with
/// `rest` behind them.
pub open spec fn damaged_log(
    db: DbView,
    files: Files,
    txn: TxnView,
    count: int,
    rest: Seq<u8>,
) -> Seq<u8> {
    log::log_file(files.log + batch_of(db, txn).take(count), files.first_seq) + rest
}

/// What a hole leaves of a log file: it is as written up to the start of a
/// record of the last transaction, and that record begins with zeros. Behind
/// them may stand anything.
pub open spec fn has_hole(
    db: DbView,
    files: Files,
    txn: TxnView,
    count: int,
    found: Seq<u8>,
) -> bool {
    let whole = log::log_file(files_after(db, files, txn).log, files.first_seq);
    let start = log::log_file(
        files.log + batch_of(db, txn).take(count),
        files.first_seq,
    ).len() as int;
    &&& 0 <= count < batch_of(db, txn).len()
    &&& start + 4 <= found.len()
    &&& found.take(start) == whole.take(start)
    &&& forall|i: int| start <= i < start + 4 ==> found[i] == 0
}

/// If the start of any record of a transaction is missing from the log, with
/// zeros in its place, recovery finds the committed state as it was before,
/// even if everything behind the hole is there, the commit record too.
pub proof fn lemma_hole_in_commit_leaves_no_trace(
    db: DbView,
    files: Files,
    txn: TxnView,
    count: int,
    found: Seq<u8>,
)
    requires
        consistency::consistent(db, files),
        can_commit(db, txn),
        has_hole(db, files, txn, count, found),
    ensures
        log::opened(found) matches Ok(scan) && recovery::replayed(scan.records) == Ok::<
            Map<PageId, Seq<u8>>,
            ErrorView,
        >(files.images()),
{
    let start = log::log_file(
        files.log + batch_of(db, txn).take(count),
        files.first_seq,
    ).len() as int;
    let rest = found.skip(start);
    lemma_log_up_to(db, files, txn, count);
    assert(found =~= damaged_log(db, files, txn, count, rest));
    lemma_zeros_in_commit_leave_no_trace(db, files, txn, count, rest);
}

/// The same where the part of the log from the hole on is given: it begins
/// with four zeros.
pub proof fn lemma_zeros_in_commit_leave_no_trace(
    db: DbView,
    files: Files,
    txn: TxnView,
    count: int,
    rest: Seq<u8>,
)
    requires
        consistency::consistent(db, files),
        can_commit(db, txn),
        0 <= count < batch_of(db, txn).len(),
        rest.len() >= 4,
        forall|i: int| 0 <= i < 4 ==> rest[i] == 0,
    ensures
        log::opened(damaged_log(db, files, txn, count, rest)) matches Ok(scan)
            && recovery::replayed(scan.records) == Ok::<Map<PageId, Seq<u8>>, ErrorView>(
            files.images(),
        ),
{
    record::lemma_zeroed_bytes_invalid(rest);
    lemma_damaged_commit_leaves_no_trace(db, files, txn, count, rest);
}

/// A log file up to the start of a record holds the records before it.
proof fn lemma_log_up_to(db: DbView, files: Files, txn: TxnView, count: int)
    requires
        consistency::wal_in_step(db, files),
        can_commit(db, txn),
        0 <= count <= batch_of(db, txn).len(),
    ensures
        ({
            let whole = log::log_file(files_after(db, files, txn).log, files.first_seq);
            let kept = log::log_file(
                files.log + batch_of(db, txn).take(count),
                files.first_seq,
            );
            kept.len() <= whole.len() && whole.take(kept.len() as int) == kept
        }),
{
    let batch = batch_of(db, txn);
    let kept = files.log + batch.take(count);
    lemma_batch_takes_effect(db, files, txn);
    log::lemma_encoded_in_turn(kept, batch.skip(count), files.first_seq);
    assert(files.log + batch =~= kept + batch.skip(count));
    let whole = log::log_file(files.log + batch, files.first_seq);
    let part = log::log_file(kept, files.first_seq);
    assert(whole =~= part + log::encoded_records(
        batch.skip(count),
        (files.first_seq + kept.len()) as u64,
    ));
    assert(whole.take(part.len() as int) =~= part);
}

/// Whether `remaining` is exactly the pages `left`, each as committed.
pub open spec fn to_publish(
    remaining: Seq<(PageId, Seq<u8>)>,
    files: Files,
    left: Set<PageId>,
) -> bool {
    &&& page_map::ascending(remaining)
    &&& forall|i: int|
        0 <= i < remaining.len() ==> left.contains((#[trigger] remaining[i]).0) && remaining[i].1
            == files.committed(remaining[i].0)
    &&& forall|id: PageId| #[trigger] left.contains(id) ==> page_map::has_id(remaining, id)
}

/// What a commit sets out to publish is what the log says.
proof fn lemma_list_to_publish(db: DbView, files: Files, txn: TxnView)
    requires
        consistency::wal_in_step(db, files),
        can_commit(db, txn),
    ensures
        to_publish(
            txn::sealed_list(page_map::listed(txn.dirty)),
            files_after(db, files, txn),
            txn.dirty.dom(),
        ),
{
    let pages = page_map::listed(txn.dirty);
    let remaining = txn::sealed_list(pages);
    let after = files_after(db, files, txn);
    page_map::lemma_listed(txn.dirty);
    lemma_batch_takes_effect(db, files, txn);
    assert forall|i: int, j: int| 0 <= i < j < remaining.len() implies (#[trigger] remaining[i]).0.0
        < (#[trigger] remaining[j]).0.0 by {
        assert(pages[i].0.0 < pages[j].0.0);
    }
    assert forall|i: int| 0 <= i < remaining.len() implies txn.dirty.dom().contains(
        (#[trigger] remaining[i]).0,
    ) && remaining[i].1 == after.committed(remaining[i].0) by {
        page_map::lemma_entry_in_map(pages, i);
        let id = pages[i].0;
        assert(after.committed(id) == page_after(files, txn, db.page_count, id));
    }
    assert forall|id: PageId| #[trigger] txn.dirty.dom().contains(id) implies page_map::has_id(
        remaining,
        id,
    ) by {
        assert(txn.dirty.contains_key(id));
        assert(page_map::has_id(pages, id));
        let i = choose|i: int| 0 <= i < pages.len() && (#[trigger] pages[i]).0 == id;
        assert(remaining[i].0 == id);
    }
}

/// Caching the committed version of a page that was still to be published
/// brings the cache in step for it.
proof fn lemma_installed_in_step(
    pool: PoolView,
    files: Files,
    page_count: u64,
    left: Set<PageId>,
    id: PageId,
    contents: Seq<u8>,
)
    requires
        consistency::pool_in_step(pool, files, page_count, left),
        files.images().contains_key(id),
        0 < id.0 < page_count,
        contents == files.committed(id),
        contents.len() == PAGE_SIZE,
        page::verified_header(contents, id) is Ok,
        pool.cached(id) || pool.free.len() > 0,
    ensures
        consistency::pool_in_step(
            buffer_pool::installed(pool, id, contents),
            files,
            page_count,
            left.remove(id),
        ),
{
    let after = buffer_pool::installed(pool, id, contents);
    let rest = left.remove(id);
    let at = if pool.cached(id) {
        pool.frame_of(id)
    } else {
        pool.free.last() as int
    };
    if pool.cached(id) {
        assert(pool.holds(at, id));
        buffer_pool::lemma_with_frame(pool, at, after.frames[at]);
    } else {
        buffer_pool::lemma_filled(
            pool,
            FrameView {
                page: contents,
                dirty: true,
                page_id: Some(id),
                pins: 0,
                referenced: true,
            },
            id,
        );
    }
    assert(after.holds(at, id) && after.frames[at].dirty);
    assert forall|frame: int, other: PageId| #[trigger] after.holds(frame, other) implies
        consistency::frame_in_step(after.frames[frame], other, files, page_count, rest) by {
        if frame != at {
            assert(pool.holds(frame, other));
            assert(other != id);
        }
    }
    assert forall|other: PageId|
        0 < other.0 < page_count && !rest.contains(other)
            && #[trigger] files.images().contains_key(other) && !consistency::on_disk(
            files,
            other,
        ) implies consistency::dirty_in(after, other) by {
        if other != id {
            let frame = choose|frame: int| #[trigger] pool.holds(frame, other)
                && pool.frames[frame].dirty;
            assert(frame != at) by {
                if frame == at && !pool.cached(id) {
                    assert(pool.holds(pool.free.last() as int, other));
                }
            }
            assert(after.holds(frame, other));
        }
    }
}

/// Publishing a commit: a step keeps the committed state the same and brings
/// memory one page closer to it, and in the end in step with it. It fails only
/// if every frame is pinned.
pub proof fn lemma_publish_step(
    db: DbView,
    files: Files,
    page_count: u64,
    left: Set<PageId>,
    remaining: Seq<(PageId, Seq<u8>)>,
)
    requires
        consistency::in_step(db, files, page_count, left),
        db.page_count <= page_count,
        to_publish(remaining, files, left),
    ensures
        ({
            let (after, step) = txn::published(db, remaining, page_count);
            &&& after.page_count == page_count
            &&& match step {
                PublishView::Done => consistency::consistent(after, files),
                PublishView::Installed => {
                    let rest = left.remove(remaining[0].0);
                    &&& remaining.len() > 0
                    &&& consistency::in_step(after, files, page_count, rest)
                    &&& to_publish(remaining.skip(1), files, rest)
                },
                PublishView::Write(frame, op) => {
                    let written = files.with_data(file_op::applied(files.data, op));
                    let cleaned = DbView {
                        pool: db::clean_frame(after.pool, frame),
                        ..after
                    };
                    &&& op == disk::page_write(
                        after.pool.frames[frame].page_id->0,
                        after.pool.frames[frame].page,
                    )
                    &&& files.images().contains_key(after.pool.frames[frame].page_id->0)
                    &&& consistency::same_state(files, written)
                    &&& consistency::in_step(cleaned, written, page_count, left)
                    &&& to_publish(remaining, written, left)
                },
                PublishView::Failed(err) => {
                    &&& err == buffer_pool::exhausted(db.pool.frames.len())
                    &&& forall|frame: int|
                        0 <= frame < db.pool.frames.len() ==> (
                        #[trigger] db.pool.frames[frame]).pins > 0
                },
            }
        }),
{
    let (after, step) = txn::published(db, remaining, page_count);
    if remaining.len() == 0 {
        assert forall|id: PageId| !left.contains(id) by {
            if left.contains(id) {
                assert(page_map::has_id(remaining, id));
            }
        }
        assert(left =~= Set::empty());
    } else {
        let (id, contents) = remaining[0];
        let rest = left.remove(id);
        assert(left.contains(id));
        consistency::lemma_committed_len(files, id);
        assert(page::verified_header(files.committed(id), id) is Ok);
        lemma_rest_to_publish(remaining, files, left);
        if db.pool.cached(id) {
            lemma_installed_in_step(db.pool, files, page_count, left, id, contents);
        } else {
            buffer_pool::lemma_room(db.pool);
            reading::lemma_room_in_step(db.pool, files, page_count, left);
            let (pool, room) = db.pool.with_room();
            match room {
                RoomView::Exhausted => {
                    assert(db.pool.free.len() == 0);
                    buffer_pool::lemma_room_iff_unpinned(db.pool);
                },
                RoomView::Ready => {
                    lemma_installed_in_step(pool, files, page_count, left, id, contents);
                },
                RoomView::WriteBack(frame) => {
                    reading::lemma_write_step(pool, files, page_count, left, frame);
                    reading::lemma_page_written_back(pool, files, page_count, left, frame);
                    let op = disk::page_write(
                        pool.frames[frame].page_id->0,
                        pool.frames[frame].page,
                    );
                    let written = files.with_data(file_op::applied(files.data, op));
                    assert forall|i: int| 0 <= i < remaining.len() implies left.contains(
                        (#[trigger] remaining[i]).0,
                    ) && remaining[i].1 == written.committed(remaining[i].0) by {
                        assert(files.committed(remaining[i].0) == written.committed(
                            remaining[i].0,
                        ));
                    }
                    assert forall|other: PageId| #[trigger] left.contains(other) implies 0 < other.0
                        < page_count && written.images().contains_key(other) by {
                        assert(files.images().contains_key(other));
                    }
                },
            }
        }
    }
}

/// Publishing a page takes at most one write. A write makes one frame less
/// dirty, of a page that is not pinned, and the next step publishes a page. So
/// publishing ends.
pub proof fn lemma_publish_ends(
    db: DbView,
    remaining: Seq<(PageId, Seq<u8>)>,
    page_count: u64,
)
    requires
        db.pool.wf(),
    ensures
        ({
            let (after, step) = txn::published(db, remaining, page_count);
            match step {
                PublishView::Write(frame, _) => {
                    let cleaned = DbView { pool: db::clean_frame(after.pool, frame), ..after };
                    &&& 0 <= frame < db.pool.frames.len()
                    &&& db.pool.frames[frame].pins == 0
                    &&& buffer_pool::dirty_count(cleaned.pool.frames) < buffer_pool::dirty_count(
                        db.pool.frames,
                    )
                    &&& txn::published(cleaned, remaining, page_count).1 is Installed
                },
                PublishView::Installed => remaining.len() > 0,
                _ => true,
            }
        }),
{
    let (after, step) = txn::published(db, remaining, page_count);
    if let PublishView::Write(frame, _) = step {
        let pool = db.pool.with_room().0;
        let contents = FrameView { dirty: false, ..after.pool.frames[frame] };
        buffer_pool::lemma_room(db.pool);
        buffer_pool::lemma_write_back_makes_room(db.pool, frame, contents);
        assert(db::clean_frame(after.pool, frame) =~= pool.with_frame(frame, contents));
    }
}

/// Publishing a commit from beginning to end, in at most `steps` steps. The
/// result is the database and its files, if nothing fails on the way.
pub open spec fn publish_run(
    db: DbView,
    files: Files,
    remaining: Seq<(PageId, Seq<u8>)>,
    page_count: u64,
    steps: nat,
) -> Option<(DbView, Files)>
    decreases steps,
{
    if steps == 0 {
        None
    } else {
        let (after, step) = txn::published(db, remaining, page_count);
        let left = (steps - 1) as nat;
        match step {
            PublishView::Done => Some((after, files)),
            PublishView::Installed => publish_run(
                after,
                files,
                remaining.skip(1),
                page_count,
                left,
            ),
            PublishView::Write(frame, op) => publish_run(
                DbView { pool: db::clean_frame(after.pool, frame), ..after },
                files.with_data(file_op::applied(files.data, op)),
                remaining,
                page_count,
                left,
            ),
            PublishView::Failed(_) => None,
        }
    }
}

/// A step of publishing changes nothing but the cache and the page count, and
/// leaves a frame unpinned if one was.
proof fn lemma_publish_keeps_unpinned(
    db: DbView,
    remaining: Seq<(PageId, Seq<u8>)>,
    page_count: u64,
)
    requires
        db.pool.wf(),
        reading::has_unpinned(db.pool),
    ensures
        ({
            let (after, step) = txn::published(db, remaining, page_count);
            match step {
                PublishView::Done | PublishView::Installed => reading::has_unpinned(after.pool),
                PublishView::Write(frame, _) => reading::has_unpinned(
                    db::clean_frame(after.pool, frame),
                ),
                PublishView::Failed(_) => true,
            }
        }),
{
    let (after, step) = txn::published(db, remaining, page_count);
    let free = choose|frame: int|
        0 <= frame < db.pool.frames.len() && (#[trigger] db.pool.frames[frame]).pins == 0;
    buffer_pool::lemma_room(db.pool);
    match step {
        PublishView::Done => {},
        PublishView::Installed => {
            let id = remaining[0].0;
            if db.pool.cached(id) {
                assert(db.pool.holds(db.pool.frame_of(id), id));
                assert(after.pool.frames[free].pins == 0);
            } else {
                let pool = db.pool.with_room().0;
                assert(!pool.cached(id)) by {
                    if pool.cached(id) {
                        assert(db.pool.holds(pool.frame_of(id), id));
                    }
                }
                let at = pool.free[pool.free.len() - 1] as int;
                assert(0 <= at < pool.frames.len());
                assert(after.pool.frames[at].pins == 0);
            }
        },
        PublishView::Write(frame, _) => {
            assert(db::clean_frame(after.pool, frame).frames[frame].pins == 0);
        },
        PublishView::Failed(_) => {},
    }
}

/// Once a commit is published, memory is in step with the files, which hold
/// the committed state as the log has it.
pub proof fn lemma_publish_run(
    db: DbView,
    files: Files,
    page_count: u64,
    left: Set<PageId>,
    remaining: Seq<(PageId, Seq<u8>)>,
    steps: nat,
)
    requires
        consistency::in_step(db, files, page_count, left),
        db.page_count <= page_count,
        to_publish(remaining, files, left),
    ensures
        publish_run(db, files, remaining, page_count, steps) matches Some((done, end)) ==> {
            &&& consistency::consistent(done, end)
            &&& consistency::same_state(files, end)
            &&& end == files.with_data(end.data)
            &&& files.data.len() <= end.data.len()
            &&& done == (DbView { pool: done.pool, page_count, ..db })
            &&& reading::has_unpinned(db.pool) ==> reading::has_unpinned(done.pool)
        },
    decreases steps,
{
    if steps > 0 {
        let (after, step) = txn::published(db, remaining, page_count);
        let less = (steps - 1) as nat;
        lemma_publish_step(db, files, page_count, left, remaining);
        if reading::has_unpinned(db.pool) {
            lemma_publish_keeps_unpinned(db, remaining, page_count);
        }
        match step {
            PublishView::Installed => {
                lemma_publish_run(
                    after,
                    files,
                    page_count,
                    left.remove(remaining[0].0),
                    remaining.skip(1),
                    less,
                );
            },
            PublishView::Write(frame, op) => {
                let written = files.with_data(file_op::applied(files.data, op));
                let cleaned = DbView { pool: db::clean_frame(after.pool, frame), ..after };
                lemma_publish_run(cleaned, written, page_count, left, remaining, less);
                if let Some((done, end)) = publish_run(
                    cleaned,
                    written,
                    remaining,
                    page_count,
                    less,
                ) {
                    assert forall|id: PageId| #[trigger]
                        files.committed(id) == end.committed(id) by {
                        assert(files.committed(id) == written.committed(id));
                        assert(written.committed(id) == end.committed(id));
                    }
                }
            },
            _ => {},
        }
    }
}

/// Where some frame is not pinned, publishing succeeds, with at most two steps
/// for each page.
pub proof fn lemma_publish_succeeds(
    db: DbView,
    files: Files,
    page_count: u64,
    left: Set<PageId>,
    remaining: Seq<(PageId, Seq<u8>)>,
    steps: nat,
)
    requires
        consistency::in_step(db, files, page_count, left),
        db.page_count <= page_count,
        to_publish(remaining, files, left),
        reading::has_unpinned(db.pool),
        steps > 2 * remaining.len(),
    ensures
        publish_run(db, files, remaining, page_count, steps) is Some,
    decreases remaining.len(),
{
    let (after, step) = txn::published(db, remaining, page_count);
    lemma_publish_step(db, files, page_count, left, remaining);
    lemma_publish_ends(db, remaining, page_count);
    lemma_publish_keeps_unpinned(db, remaining, page_count);
    match step {
        PublishView::Done => {},
        PublishView::Installed => {
            lemma_publish_succeeds(
                after,
                files,
                page_count,
                left.remove(remaining[0].0),
                remaining.skip(1),
                (steps - 1) as nat,
            );
        },
        PublishView::Write(frame, op) => {
            let written = files.with_data(file_op::applied(files.data, op));
            let cleaned = DbView { pool: db::clean_frame(after.pool, frame), ..after };
            let (next, _) = txn::published(cleaned, remaining, page_count);
            lemma_publish_step(cleaned, written, page_count, left, remaining);
            lemma_publish_keeps_unpinned(cleaned, remaining, page_count);
            lemma_publish_succeeds(
                next,
                written,
                page_count,
                left.remove(remaining[0].0),
                remaining.skip(1),
                (steps - 2) as nat,
            );
            assert(publish_run(cleaned, written, remaining, page_count, (steps - 1) as nat)
                is Some);
        },
        PublishView::Failed(_) => {
            let frame = choose|frame: int|
                0 <= frame < db.pool.frames.len() && (#[trigger] db.pool.frames[frame]).pins == 0;
            assert(db.pool.frames[frame].pins > 0);
        },
    }
}

/// Without its first page, a list to publish is what is left without it.
proof fn lemma_rest_to_publish(
    remaining: Seq<(PageId, Seq<u8>)>,
    files: Files,
    left: Set<PageId>,
)
    requires
        to_publish(remaining, files, left),
        remaining.len() > 0,
    ensures
        to_publish(remaining.skip(1), files, left.remove(remaining[0].0)),
{
    let rest = remaining.skip(1);
    let first = remaining[0].0;
    assert forall|i: int, j: int| 0 <= i < j < rest.len() implies (#[trigger] rest[i]).0.0 < (
    #[trigger] rest[j]).0.0 by {
        assert(remaining[i + 1].0.0 < remaining[j + 1].0.0);
    }
    assert forall|i: int| 0 <= i < rest.len() implies left.remove(first).contains(
        (#[trigger] rest[i]).0,
    ) && rest[i].1 == files.committed(rest[i].0) by {
        assert(rest[i] == remaining[i + 1]);
        assert(remaining[0].0.0 < remaining[i + 1].0.0);
    }
    assert forall|id: PageId| #[trigger] left.remove(first).contains(id) implies page_map::has_id(
        rest,
        id,
    ) by {
        assert(left.contains(id));
        let i = choose|i: int| 0 <= i < remaining.len() && (#[trigger] remaining[i]).0 == id;
        assert(rest[i - 1].0 == id);
    }
}

/// Which transactions can be committed: those with a copy of at least one page,
/// and the header of every copy in order. Pages of every type count, with any
/// LSN and payload.
pub proof fn lemma_can_commit_iff(db: DbView, txn: TxnView)
    requires
        txn_ok(txn, db.page_count),
        db.wal.has_room((page_map::listed(txn.dirty).len() + 2) as nat),
        db.next_txn < u64::MAX,
        !db.wal.poisoned,
    ensures
        can_commit(db, txn) <==> txn.dirty.dom().len() > 0 && forall|id: PageId| #[trigger]
            txn.dirty.contains_key(id) ==> txn::header_in_order(id, txn.dirty[id]),
        can_commit(db, txn) <==> txn::commit_step(db, txn).1 is Logged,
{
    page_map::lemma_listed(txn.dirty);
    page_map::lemma_list_len(page_map::listed(txn.dirty));
    txn::lemma_commit_outcome(db, txn);
}

} // verus!
