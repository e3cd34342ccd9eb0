//! Crash recovery: replaying committed page images from the WAL.
//!
//! Recovery runs before the data file is opened normally, because the WAL
//! may hold the only intact copy of the file header.

use std::collections::HashSet;

use vstd::prelude::*;
use vstd::string::*;

use crate::error::{Error, ErrorView, Result};
use crate::storage::disk::MAX_PAGE_COUNT;
use crate::storage::file_header::FileHeader;
use crate::storage::file_op::{FileOp, FileOpView};
use crate::storage::page::{Page, PageId, PAGE_SIZE};
use crate::storage::page_map::PageMap;
use crate::storage::wal::record::{DecodedRecord, DecodedView, RecordView};
use crate::storage::wal::{log, TxnId, WalRecord};
use crate::storage::{disk, file_header, file_op, page, page_map};
use crate::{error, text};

verus! {

broadcast use crate::storage::page::lemma_page_len;

/// What recovery did.
#[derive(Debug, Clone, Copy, PartialEq, Eq, Structural)]
pub struct RecoveryStats {
    /// Transactions whose changes were replayed.
    pub committed_txns: usize,
    /// Transactions in the log without a commit record; their changes were
    /// ignored.
    pub incomplete_txns: usize,
    /// Distinct pages written to the data file.
    pub pages_restored: usize,
}

impl Default for RecoveryStats {
    fn default() -> (stats: Self)
        ensures
            stats == (RecoveryStats {
                committed_txns: 0,
                incomplete_txns: 0,
                pages_restored: 0,
            }),
    {
        RecoveryStats { committed_txns: 0, incomplete_txns: 0, pages_restored: 0 }
    }
}

/// What is to be replayed, and into which pages.
#[derive(Debug)]
pub struct Replay {
    /// What recovery does.
    pub stats: RecoveryStats,
    /// Writes the pages to the data file, then fsyncs it.
    pub ops: Vec<FileOp>,
}

/// The transactions with a commit record.
pub open spec fn committed_txns(records: Seq<DecodedView>) -> Set<u64>
    decreases records.len(),
{
    if records.len() == 0 {
        Set::empty()
    } else {
        match records.last().record {
            RecordView::Commit { txn } => committed_txns(records.drop_last()).insert(txn.0),
            RecordView::PageImage { .. } => committed_txns(records.drop_last()),
        }
    }
}

/// The transactions with any record.
pub open spec fn logged_txns(records: Seq<DecodedView>) -> Set<u64>
    decreases records.len(),
{
    if records.len() == 0 {
        Set::empty()
    } else {
        logged_txns(records.drop_last()).insert(records.last().record.txn().0)
    }
}

/// Why `page` is not a valid image of page `page_id`, if it is not one. An
/// image of page 0 is a file header.
pub open spec fn image_error(page_id: PageId, page: Seq<u8>) -> Option<ErrorView> {
    if page_id.0 == 0 {
        match file_header::decoded_header(page) {
            Ok(_) => None,
            Err(err) => Some(err),
        }
    } else {
        match page::verified_header(page, page_id) {
            Ok(_) => None,
            Err(err) => Some(err),
        }
    }
}

/// The error for an invalid image in record `seq`.
pub open spec fn invalid_image(seq: u64, page_id: PageId, err: ErrorView) -> ErrorView {
    ErrorView::Corruption(
        "WAL record "@ + text::decimal_chars(seq as nat) + " holds an invalid image of "@
            + page::page_name(page_id) + ": "@ + error::display_chars(err, Seq::empty()),
    )
}

/// The latest image of every page among the records of the transactions
/// `txns`, or the error for the first of them that is invalid.
pub open spec fn latest_images(records: Seq<DecodedView>, txns: Set<u64>) -> std::result::Result<
    Map<PageId, Seq<u8>>,
    ErrorView,
>
    decreases records.len(),
{
    if records.len() == 0 {
        Ok(Map::empty())
    } else {
        match latest_images(records.drop_last(), txns) {
            Err(err) => Err(err),
            Ok(images) => match records.last().record {
                RecordView::PageImage { txn, page_id, page } if txns.contains(txn.0) => {
                    match image_error(page_id, page) {
                        Some(err) => Err(invalid_image(records.last().seq, page_id, err)),
                        None => Ok(images.insert(page_id, page)),
                    }
                },
                _ => Ok(images),
            },
        }
    }
}

/// Whether every page in the map starts at an offset that is a 64-bit number.
pub open spec fn valid_ids(images: Map<PageId, Seq<u8>>) -> bool {
    forall|id: PageId| #[trigger] images.contains_key(id) ==> id.0 <= MAX_PAGE_COUNT
}

/// The error for an image of a page that no file reaches.
pub open spec fn out_of_reach(page_id: PageId) -> ErrorView {
    ErrorView::Corruption(
        "WAL holds an image of "@ + page::page_name(page_id)
            + ", which starts beyond the largest file offset"@,
    )
}

/// The latest committed image of every page in the log. Every committed image
/// has to be valid, and then each page has to have a place in the file; if one
/// has not, the error names the last such page.
pub open spec fn replayed(records: Seq<DecodedView>) -> std::result::Result<
    Map<PageId, Seq<u8>>,
    ErrorView,
> {
    match latest_images(records, committed_txns(records)) {
        Err(err) => Err(err),
        Ok(images) => if valid_ids(images) {
            Ok(images)
        } else {
            Err(out_of_reach(page_map::listed(images).last().0))
        },
    }
}

/// What replaying the images of a log is reported as.
pub open spec fn is_stats_of(
    stats: RecoveryStats,
    records: Seq<DecodedView>,
    images: Map<PageId, Seq<u8>>,
) -> bool {
    &&& stats.committed_txns == committed_txns(records).len()
    &&& stats.incomplete_txns == logged_txns(records).difference(committed_txns(records)).len()
    &&& stats.pages_restored == images.dom().len()
}

/// The writes that put a list of pages where they belong.
pub open spec fn page_writes(list: Seq<(PageId, Seq<u8>)>) -> Seq<FileOpView> {
    Seq::new(list.len(), |i: int| disk::page_write(list[i].0, list[i].1))
}

/// The operations that put `images` into the data file, in file order. With
/// nothing to put, the file is left alone.
pub open spec fn replay_ops(images: Map<PageId, Seq<u8>>) -> Seq<FileOpView> {
    if images == Map::<PageId, Seq<u8>>::empty() {
        Seq::empty()
    } else {
        page_writes(page_map::listed(images)).push(FileOpView::SyncAll)
    }
}

/// Plans the replay of `records`: the latest committed image of every page
/// goes to the data file, which is then fsynced.
///
/// Replaying the same records twice has the same effect as once.
pub fn replay(records: &[DecodedRecord]) -> (result: Result<Replay>)
    ensures
        ({
            let views = log::record_views(records@);
            match result {
                Ok(replay) => replayed(views) matches Ok(images) && {
                    &&& file_op::op_views(replay.ops@) == replay_ops(images)
                    &&& is_stats_of(replay.stats, views, images)
                },
                Err(err) => replayed(views) == Err::<Map<PageId, Seq<u8>>, ErrorView>(err@),
            }
        }),
{
    broadcast use vstd::std_specs::hash::group_hash_axioms;

    let ghost views = log::record_views(records@);
    let mut committed: HashSet<u64> = HashSet::new();
    let mut all_txns: HashSet<u64> = HashSet::new();
    let mut i: usize = 0;
    while i < records.len()
        invariant
            views == log::record_views(records@),
            i <= records.len(),
            committed@ == committed_txns(views.take(i as int)),
            all_txns@ == logged_txns(views.take(i as int)),
            committed@.subset_of(all_txns@),
            all_txns@.finite(),
        decreases records.len() - i,
    {
        proof {
            let next = views.take(i + 1);
            assert(next.drop_last() =~= views.take(i as int));
            assert(next.last() == records@[i as int]@);
        }
        let txn: u64 = records[i].record.txn().0;
        if let WalRecord::Commit { .. } = &records[i].record {
            committed.insert(txn);
        }
        all_txns.insert(txn);
        i += 1;
    }
    assert(views.take(i as int) =~= views);

    // Later images of a page supersede earlier ones.
    let mut latest = PageMap::new();
    let mut i: usize = 0;
    assert(views.take(0) =~= Seq::empty());
    while i < records.len()
        invariant
            views == log::record_views(records@),
            i <= records.len(),
            committed@ == committed_txns(views),
            latest.wf(),
            latest_images(views.take(i as int), committed@) == Ok::<
                Map<PageId, Seq<u8>>,
                ErrorView,
            >(latest@),
        decreases records.len() - i,
    {
        proof {
            let next = views.take(i + 1);
            assert(next.drop_last() =~= views.take(i as int));
            assert(next.last() == records@[i as int]@);
        }
        if let WalRecord::PageImage { txn, page_id, page } = &records[i].record {
            if committed.contains(&txn.0) {
                let valid = validate_image(*page_id, page, records[i].seq);
                if let Err(err) = valid {
                    proof {
                        lemma_error_stays(views, committed@, i + 1);
                    }
                    return Err(err);
                }
                latest.insert(*page_id, page.clone());
            }
        }
        i += 1;
    }
    assert(views.take(i as int) =~= views);

    proof {
        latest.lemma_list();
        page_map::lemma_list_len(latest.list());
    }
    let ghost list = latest.list();
    check_reach(&latest)?;
    let mut ops: Vec<FileOp> = Vec::new();
    let mut i: usize = 0;
    while i < latest.len()
        invariant
            latest.wf(),
            list == latest.list(),
            latest@ == page_map::map_of(list),
            page_map::ascending(list),
            valid_ids(latest@),
            i <= list.len(),
            file_op::op_views(ops@) == page_writes(list.take(i as int)),
        decreases list.len() - i,
    {
        let (page_id, page) = latest.entry(i);
        proof {
            page_map::lemma_entry_in_map(list, i as int);
            assert(list.take(i + 1) =~= list.take(i as int).push(list[i as int]));
        }
        let op = FileOp::write(page_id.file_offset(), page.as_bytes());
        let ghost before = ops@;
        ops.push(op);
        proof {
            assert(file_op::op_views(ops@) =~= file_op::op_views(before).push(op@));
            assert(page_writes(list.take(i + 1)) =~= page_writes(list.take(i as int)).push(op@));
        }
        i += 1;
    }
    assert(list.take(i as int) =~= list);
    let pages_restored: usize = latest.len();
    if pages_restored > 0 {
        let ghost before = ops@;
        ops.push(FileOp::SyncAll);
        proof {
            page_map::lemma_entry_in_map(list, 0);
            assert(file_op::op_views(ops@) =~= file_op::op_views(before).push(FileOpView::SyncAll));
        }
    }
    proof {
        if list.len() == 0 {
            assert(latest@.dom() =~= Set::empty());
            assert(latest@ =~= Map::empty());
        }
        assert(file_op::op_views(ops@) =~= replay_ops(latest@));
        vstd::set_lib::lemma_len_subset(committed@, all_txns@);
        lemma_difference_len(all_txns@, committed@);
    }
    let stats = RecoveryStats {
        committed_txns: committed.len(),
        incomplete_txns: all_txns.len() - committed.len(),
        pages_restored,
    };
    Ok(Replay { stats, ops })
}

/// Fails unless every page starts at an offset that is a 64-bit number.
fn check_reach(latest: &PageMap) -> (result: Result<()>)
    requires
        latest.wf(),
    ensures
        match result {
            Ok(_) => valid_ids(latest@),
            Err(err) => {
                &&& !valid_ids(latest@)
                &&& err@ == out_of_reach(page_map::listed(latest@).last().0)
            },
        },
{
    let ghost list = latest.list();
    proof {
        latest.lemma_list();
    }
    let len: usize = latest.len();
    if len > 0 {
        // The pages are in file order, so the last one starts last.
        let (last, _) = latest.entry(len - 1);
        if last.0 > MAX_PAGE_COUNT {
            proof {
                page_map::lemma_entry_in_map(list, len - 1);
            }
            let mut msg = "WAL holds an image of ".to_owned();
            msg.append(last.to_string().as_str());
            msg.append(", which starts beyond the largest file offset");
            return Err(Error::Corruption(msg));
        }
    }
    assert forall|id: PageId| #[trigger] latest@.contains_key(id) implies id.0
        <= MAX_PAGE_COUNT by {
        let i = choose|i: int| 0 <= i < list.len() && (#[trigger] list[i]).0 == id;
        if i < len - 1 {
            assert(list[i].0.0 < list[len - 1].0.0);
        }
    }
    Ok(())
}

proof fn lemma_error_stays(records: Seq<DecodedView>, txns: Set<u64>, end: int)
    requires
        0 <= end <= records.len(),
        latest_images(records.take(end), txns) is Err,
    ensures
        latest_images(records, txns) == latest_images(records.take(end), txns),
    decreases records.len() - end,
{
    if end == records.len() {
        assert(records.take(end) =~= records);
    } else {
        assert(records.take(end + 1).drop_last() =~= records.take(end));
        lemma_error_stays(records, txns, end + 1);
    }
}

proof fn lemma_difference_len(all: Set<u64>, part: Set<u64>)
    requires
        all.finite(),
        part.subset_of(all),
    ensures
        part.finite(),
        all.difference(part).len() == all.len() - part.len(),
    decreases part.len(),
{
    vstd::set_lib::lemma_len_subset(part, all);
    if part.len() == 0 {
        assert(all.difference(part) =~= all);
    } else {
        let x = part.choose();
        lemma_difference_len(all, part.remove(x));
        assert(all.difference(part) =~= all.difference(part.remove(x)).remove(x));
    }
}

/// Checks that a logged image is a valid page. The WAL record's own
/// checksum already passed, so a failure here means a bug wrote a bad
/// image, not disk corruption. Refusing to replay it keeps the bug from
/// spreading into the data file.
pub fn validate_image(page_id: PageId, page: &Page, seq: u64) -> (result: Result<()>)
    ensures
        match result {
            Ok(_) => image_error(page_id, page@) is None,
            Err(err) => {
                &&& image_error(page_id, page@) is Some
                &&& err@ == invalid_image(seq, page_id, image_error(page_id, page@)->0)
            },
        },
{
    let failure = if page_id == PageId::header() {
        match FileHeader::decode(page) {
            Ok(_) => None,
            Err(err) => Some(err),
        }
    } else {
        match page.verify(page_id) {
            Ok(_) => None,
            Err(err) => Some(err),
        }
    };
    match failure {
        None => Ok(()),
        Some(err) => {
            let mut msg = "WAL record ".to_owned();
            msg.append(text::decimal(seq as u128).as_str());
            msg.append(" holds an invalid image of ");
            msg.append(page_id.to_string().as_str());
            msg.append(": ");
            msg.append(err.to_string().as_str());
            Err(Error::Corruption(msg))
        },
    }
}

/// Where the last page of an ascending list ends.
pub open spec fn pages_end(list: Seq<(PageId, Seq<u8>)>) -> nat {
    if list.len() == 0 {
        0
    } else {
        ((list.last().0.0 + 1) * PAGE_SIZE) as nat
    }
}

/// The data file after `images` were replayed into it.
pub open spec fn restored(file: Seq<u8>, images: Map<PageId, Seq<u8>>) -> Seq<u8> {
    file_op::all_applied(file, replay_ops(images))
}

/// Whether every image is one page long, and there are finitely many.
pub open spec fn page_images(images: Map<PageId, Seq<u8>>) -> bool {
    &&& images.dom().finite()
    &&& forall|id: PageId| #[trigger]
        images.contains_key(id) ==> images[id].len() == PAGE_SIZE
}

/// A page after replay: the image if there is one, else as the file had it.
pub open spec fn restored_page(file: Seq<u8>, images: Map<PageId, Seq<u8>>, id: PageId) -> Seq<u8> {
    if images.contains_key(id) {
        images[id]
    } else {
        disk::page_of(file, id)
    }
}

/// Writing a list of pages puts each of them into its place and leaves all
/// other pages alone.
pub proof fn lemma_pages_written(file: Seq<u8>, list: Seq<(PageId, Seq<u8>)>)
    requires
        page_map::ascending(list),
        page_images(page_map::map_of(list)),
    ensures
        ({
            let after = file_op::all_applied(file, page_writes(list));
            let images = page_map::map_of(list);
            &&& after.len() == if file.len() < pages_end(list) {
                pages_end(list)
            } else {
                file.len()
            }
            &&& forall|id: PageId| #[trigger]
                disk::page_of(after, id) == restored_page(file, images, id)
        }),
    decreases list.len(),
{
    let ops = page_writes(list);
    let after = file_op::all_applied(file, ops);
    let images = page_map::map_of(list);
    if list.len() == 0 {
        assert forall|id: PageId| !page_map::has_id(list, id) by {}
    } else {
        let front = list.drop_last();
        let (last_id, last_page) = list.last();
        let before = file_op::all_applied(file, page_writes(front));
        page_map::lemma_drop_last(list);
        page_map::lemma_entry_in_map(list, list.len() - 1);
        assert(page_images(page_map::map_of(front))) by {
            assert(page_map::map_of(front).dom() =~= images.dom().remove(last_id));
            assert forall|id: PageId| #[trigger]
                page_map::map_of(front).contains_key(id) implies page_map::map_of(front)[id].len()
                == PAGE_SIZE by {
                assert(images.contains_key(id));
            }
        }
        lemma_pages_written(file, front);
        assert(ops.drop_last() =~= page_writes(front));
        disk::lemma_page_written(before, last_id, last_page);
        if front.len() > 0 {
            assert(list[front.len() - 1].0.0 < list[list.len() - 1].0.0);
        }
        assert forall|id: PageId| #[trigger] disk::page_of(after, id) == restored_page(
            file,
            images,
            id,
        ) by {
            if id != last_id {
                assert(disk::page_of(after, id) == disk::page_of(before, id));
            }
        }
    }
}

/// Replay puts every image into its place and leaves all other pages alone.
/// The file never gets shorter, and every image is inside it.
pub proof fn lemma_restored(file: Seq<u8>, images: Map<PageId, Seq<u8>>)
    requires
        page_images(images),
    ensures
        restored(file, images).len() == if file.len() < pages_end(page_map::listed(images)) {
            pages_end(page_map::listed(images))
        } else {
            file.len()
        },
        forall|id: PageId| #[trigger]
            images.contains_key(id) ==> (id.0 + 1) * PAGE_SIZE <= restored(file, images).len(),
        forall|id: PageId| #[trigger]
            disk::page_of(restored(file, images), id) == restored_page(file, images, id),
{
    let list = page_map::listed(images);
    page_map::lemma_listed(images);
    lemma_pages_written(file, list);
    if images == Map::<PageId, Seq<u8>>::empty() {
        if list.len() > 0 {
            page_map::lemma_entry_in_map(list, 0);
        }
    } else {
        assert(replay_ops(images).drop_last() =~= page_writes(list));
    }
    assert forall|id: PageId| #[trigger] images.contains_key(id) implies (id.0 + 1) * PAGE_SIZE
        <= restored(file, images).len() by {
        assert(page_map::has_id(list, id));
        let i = choose|i: int| 0 <= i < list.len() && (#[trigger] list[i]).0 == id;
        if i < list.len() - 1 {
            assert(list[i].0.0 < list[list.len() - 1].0.0);
        }
    }
}

/// Replaying twice has the same effect as once.
pub proof fn lemma_replay_idempotent(file: Seq<u8>, images: Map<PageId, Seq<u8>>)
    requires
        page_images(images),
        file.len() <= u64::MAX,
    ensures
        restored(restored(file, images), images) == restored(file, images),
{
    let once = restored(file, images);
    lemma_restored(file, images);
    lemma_repaired(file, once, images);
}

/// Replay repairs whatever became of the pages it writes: if `damaged` differs
/// from the file only there, and is no longer than replay makes the file, the
/// result is the same.
pub proof fn lemma_repaired(file: Seq<u8>, damaged: Seq<u8>, images: Map<PageId, Seq<u8>>)
    requires
        page_images(images),
        file.len() <= u64::MAX,
        file.len() <= damaged.len() <= restored(file, images).len(),
        forall|id: PageId|
            !images.contains_key(id) ==> #[trigger] disk::page_of(damaged, id) == disk::page_of(
                file,
                id,
            ),
    ensures
        restored(damaged, images) == restored(file, images),
{
    let a = restored(damaged, images);
    let b = restored(file, images);
    lemma_restored(file, images);
    lemma_restored(damaged, images);
    let list = page_map::listed(images);
    page_map::lemma_listed(images);
    if list.len() > 0 {
        page_map::lemma_entry_in_map(list, list.len() - 1);
        assert(images.contains_key(list.last().0));
    }
    assert forall|id: PageId| #[trigger] disk::page_of(a, id) == disk::page_of(b, id) by {
        assert(disk::page_of(b, id) == restored_page(file, images, id));
        assert(disk::page_of(damaged, id) == disk::page_of(damaged, id));
    }
    disk::lemma_same_file(a, b);
}

/// If power is lost during replay, at any page and with that page torn in any
/// way, replaying again gives what an undisturbed replay gives.
pub proof fn lemma_interrupted_replay(
    file: Seq<u8>,
    images: Map<PageId, Seq<u8>>,
    done: int,
    found: Seq<u8>,
)
    requires
        page_images(images),
        file.len() <= u64::MAX,
        0 <= done < page_map::listed(images).len(),
        file_op::torn_write(
            file_op::all_applied(file, replay_ops(images).take(done)),
            (page_map::listed(images)[done].0.0 * PAGE_SIZE) as nat,
            PAGE_SIZE as nat,
            found,
        ),
    ensures
        restored(found, images) == restored(file, images),
{
    let list = page_map::listed(images);
    let part = list.take(done);
    let before = file_op::all_applied(file, page_writes(part));
    page_map::lemma_listed(images);
    page_map::lemma_entry_in_map(list, done);
    let torn = list[done].0;
    assert(images.contains_key(torn));
    assert(images != Map::<PageId, Seq<u8>>::empty());
    assert(replay_ops(images).take(done) =~= page_writes(part));
    lemma_part_of_list(list, done);
    assert(page_images(page_map::map_of(part))) by {
        page_map::lemma_list_len(part);
        assert forall|id: PageId| #[trigger] page_map::map_of(part).contains_key(id) implies
            page_map::map_of(part)[id].len() == PAGE_SIZE by {
            assert(images.contains_key(id));
        }
    }
    lemma_pages_written(file, part);
    lemma_restored(file, images);
    assert(list[done].0.0 <= list.last().0.0) by {
        if done < list.len() - 1 {
            assert(list[done].0.0 < list[list.len() - 1].0.0);
        }
    }
    if done > 0 {
        assert(part.last() == list[done - 1]);
        assert(list[done - 1].0.0 < list[done].0.0);
    }
    assert forall|id: PageId| !images.contains_key(id) implies #[trigger] disk::page_of(found, id)
        == disk::page_of(file, id) by {
        assert(!page_map::map_of(part).contains_key(id));
        assert(disk::page_of(before, id) == disk::page_of(file, id));
        assert(disk::page_of(found, id) =~= disk::page_of(before, id)) by {
            assert forall|i: int| 0 <= i < PAGE_SIZE implies disk::page_of(found, id)[i]
                == disk::page_of(before, id)[i] by {
                assert(id.0 != torn.0);
                let at = id.0 * PAGE_SIZE + i;
                assert(file_op::byte_at(found, at) == file_op::byte_at(before, at));
            }
        }
    }
    lemma_repaired(file, found, images);
}

/// The first entries of an ascending list stand for a part of its map.
proof fn lemma_part_of_list(list: Seq<(PageId, Seq<u8>)>, end: int)
    requires
        page_map::ascending(list),
        0 <= end <= list.len(),
    ensures
        page_map::ascending(list.take(end)),
        page_map::map_of(list.take(end)).submap_of(page_map::map_of(list)),
    decreases list.len() - end,
{
    if end == list.len() {
        assert(list.take(end) =~= list);
    } else {
        lemma_part_of_list(list, end + 1);
        page_map::lemma_drop_last(list.take(end + 1));
        assert(list.take(end + 1).drop_last() =~= list.take(end));
    }
}

/// The image kept for a page is the last one that a committed transaction
/// logged for it.
pub proof fn lemma_latest_commit_wins(records: Seq<DecodedView>, txns: Set<u64>, at: int)
    requires
        latest_images(records, txns) is Ok,
        0 <= at < records.len(),
        records[at].record is PageImage,
        txns.contains(records[at].record.txn().0),
        forall|later: int|
            at < later < records.len() && records[later].record is PageImage && txns.contains(
                records[later].record.txn().0,
            ) ==> (#[trigger] records[later]).record->page_id != records[at].record->page_id,
    ensures
        ({
            let images = latest_images(records, txns)->Ok_0;
            let id = records[at].record->page_id;
            images.contains_key(id) && images[id] == records[at].record->page
        }),
    decreases records.len(),
{
    let front = records.drop_last();
    if at < records.len() - 1 {
        assert(front[at] == records[at]);
        assert forall|later: int|
            at < later < front.len() && front[later].record is PageImage && txns.contains(
                front[later].record.txn().0,
            ) implies (#[trigger] front[later]).record->page_id
            != front[at].record->page_id by {
            assert(front[later] == records[later]);
        }
        lemma_latest_commit_wins(front, txns, at);
        let last = records[records.len() - 1];
        assert(last == records.last());
    }
}

/// A page without an image from a committed transaction is not touched.
pub proof fn lemma_uncommitted_pages_untouched(
    records: Seq<DecodedView>,
    txns: Set<u64>,
    id: PageId,
)
    requires
        latest_images(records, txns) is Ok,
        forall|i: int|
            0 <= i < records.len() && records[i].record is PageImage && txns.contains(
                records[i].record.txn().0,
            ) ==> (#[trigger] records[i]).record->page_id != id,
    ensures
        !latest_images(records, txns)->Ok_0.contains_key(id),
    decreases records.len(),
{
    if records.len() > 0 {
        let front = records.drop_last();
        assert forall|i: int|
            0 <= i < front.len() && front[i].record is PageImage && txns.contains(
                front[i].record.txn().0,
            ) implies (#[trigger] front[i]).record->page_id != id by {
            assert(front[i] == records[i]);
        }
        lemma_uncommitted_pages_untouched(front, txns, id);
        let last = records[records.len() - 1];
        assert(last == records.last());
    }
}

/// What replay takes from a log is a finite set of whole pages.
pub proof fn lemma_images_are_pages(records: Seq<DecodedView>, txns: Set<u64>)
    requires
        latest_images(records, txns) is Ok,
        log::all_wf(log::plain(records)),
    ensures
        page_images(latest_images(records, txns)->Ok_0),
    decreases records.len(),
{
    if records.len() > 0 {
        let front = records.drop_last();
        assert(log::all_wf(log::plain(front))) by {
            assert forall|i: int| 0 <= i < log::plain(front).len() implies (
            #[trigger] log::plain(front)[i]).wf() by {
                assert(log::plain(front)[i] == log::plain(records)[i]);
            }
        }
        lemma_images_are_pages(front, txns);
        assert(log::plain(records)[records.len() - 1].wf());
    }
}

/// An empty log touches nothing.
pub proof fn lemma_empty_log_touches_nothing(file: Seq<u8>)
    ensures
        replayed(Seq::empty()) == Ok::<Map<PageId, Seq<u8>>, ErrorView>(Map::empty()),
        restored(file, Map::empty()) == file,
{
}

/// A transaction whose commit record is missing leaves no trace: its images
/// at the end of the log change nothing.
pub proof fn lemma_incomplete_txn_ignored(
    records: Seq<DecodedView>,
    tail: Seq<DecodedView>,
    txns: Set<u64>,
)
    requires
        forall|i: int|
            0 <= i < tail.len() ==> (#[trigger] tail[i]).record is PageImage && !txns.contains(
                tail[i].record.txn().0,
            ),
    ensures
        committed_txns(records + tail) == committed_txns(records),
        latest_images(records + tail, txns) == latest_images(records, txns),
    decreases tail.len(),
{
    if tail.len() == 0 {
        assert(records + tail =~= records);
    } else {
        let front = tail.drop_last();
        assert((records + tail).drop_last() =~= records + front);
        assert forall|i: int| 0 <= i < front.len() implies (#[trigger] front[i]).record is PageImage
            && !txns.contains(front[i].record.txn().0) by {
            assert(front[i] == tail[i]);
        }
        lemma_incomplete_txn_ignored(records, front, txns);
        let last = tail[tail.len() - 1];
        assert((records + tail).last() == last);
    }
}

/// The records of a transaction: its page images, then its commit record.
pub open spec fn txn_records(
    txn: TxnId,
    list: Seq<(PageId, Seq<u8>)>,
) -> Seq<RecordView> {
    txn_images(txn, list).push(RecordView::Commit { txn })
}

/// The page images of a transaction.
pub open spec fn txn_images(
    txn: TxnId,
    list: Seq<(PageId, Seq<u8>)>,
) -> Seq<RecordView> {
    Seq::new(
        list.len(),
        |i: int| RecordView::PageImage { txn, page_id: list[i].0, page: list[i].1 },
    )
}

/// Whether a transaction has no record among `records`.
pub open spec fn is_new_txn(records: Seq<DecodedView>, txn: TxnId) -> bool {
    forall|i: int| 0 <= i < records.len() ==> (#[trigger] records[i]).record.txn() != txn
}

/// Counting a transaction as committed does not matter to records that are
/// not its own.
proof fn lemma_other_txn_irrelevant(
    records: Seq<DecodedView>,
    txns: Set<u64>,
    txn: TxnId,
)
    requires
        is_new_txn(records, txn),
    ensures
        latest_images(records, txns.insert(txn.0)) == latest_images(records, txns),
        !committed_txns(records).contains(txn.0),
    decreases records.len(),
{
    if records.len() > 0 {
        let front = records.drop_last();
        assert(is_new_txn(front, txn)) by {
            assert forall|i: int| 0 <= i < front.len() implies (#[trigger] front[i]).record.txn()
                != txn by {
                assert(front[i] == records[i]);
            }
        }
        lemma_other_txn_irrelevant(front, txns, txn);
        assert(records[records.len() - 1].record.txn() != txn);
    }
}

/// A transaction without a record is not committed.
pub proof fn lemma_new_txn_not_committed(records: Seq<DecodedView>, txn: TxnId)
    requires
        is_new_txn(records, txn),
    ensures
        !committed_txns(records).contains(txn.0),
{
    lemma_other_txn_irrelevant(records, Set::empty(), txn);
}

/// Images of a committed transaction take effect in order.
proof fn lemma_images_take_effect(
    records: Seq<DecodedView>,
    tail: Seq<DecodedView>,
    txns: Set<u64>,
    txn: TxnId,
    list: Seq<(PageId, Seq<u8>)>,
)
    requires
        latest_images(records, txns) is Ok,
        txns.contains(txn.0),
        log::plain(tail) == txn_images(txn, list),
        page_map::ascending(list),
        forall|i: int|
            0 <= i < list.len() ==> image_error((#[trigger] list[i]).0, list[i].1) is None,
    ensures
        latest_images(records + tail, txns) == Ok::<Map<PageId, Seq<u8>>, ErrorView>(
            latest_images(records, txns)->Ok_0.union_prefer_right(page_map::map_of(list)),
        ),
        committed_txns(records + tail) == committed_txns(records),
    decreases list.len(),
{
    let images = latest_images(records, txns)->Ok_0;
    assert(tail.len() == log::plain(tail).len() == list.len());
    if list.len() == 0 {
        assert(records + tail =~= records);
        assert forall|id: PageId| !page_map::has_id(list, id) by {}
        assert(images.union_prefer_right(page_map::map_of(list)) =~= images);
    } else {
        let front = list.drop_last();
        let tail_front = tail.drop_last();
        page_map::lemma_drop_last(list);
        assert(log::plain(tail_front) =~= txn_images(txn, front)) by {
            assert forall|i: int| 0 <= i < front.len() implies log::plain(tail_front)[i]
                == txn_images(txn, front)[i] by {
                assert(log::plain(tail)[i] == txn_images(txn, list)[i]);
                assert(tail_front[i] == tail[i] && front[i] == list[i]);
                assert(log::plain(tail_front)[i] == tail_front[i].record);
                assert(log::plain(tail)[i] == tail[i].record);
            }
        }
        assert forall|i: int| 0 <= i < front.len() implies image_error(
            (#[trigger] front[i]).0,
            front[i].1,
        ) is None by {
            assert(front[i] == list[i]);
        }
        lemma_images_take_effect(records, tail_front, txns, txn, front);
        assert((records + tail).drop_last() =~= records + tail_front);
        assert((records + tail).last().record == log::plain(tail)[tail.len() - 1]);
        assert(log::plain(tail)[tail.len() - 1] == txn_images(txn, list)[list.len() - 1]);
        let last = list[list.len() - 1];
        assert(last == list.last());
        assert(images.union_prefer_right(page_map::map_of(front)).insert(last.0, last.1)
            =~= images.union_prefer_right(page_map::map_of(list)));
    }
}

/// A committed transaction takes effect as a whole: behind any log it adds
/// exactly its own images, each of them superseding what was there.
pub proof fn lemma_committed_txn_takes_effect(
    records: Seq<DecodedView>,
    batch: Seq<DecodedView>,
    txn: TxnId,
    list: Seq<(PageId, Seq<u8>)>,
)
    requires
        replayed(records) is Ok,
        is_new_txn(records, txn),
        log::plain(batch) == txn_records(txn, list),
        page_map::ascending(list),
        forall|i: int|
            0 <= i < list.len() ==> image_error((#[trigger] list[i]).0, list[i].1) is None
                && list[i].0.0 <= MAX_PAGE_COUNT,
    ensures
        committed_txns(records + batch) == committed_txns(records).insert(txn.0),
        replayed(records + batch) == Ok::<Map<PageId, Seq<u8>>, ErrorView>(
            replayed(records)->Ok_0.union_prefer_right(page_map::map_of(list)),
        ),
{
    let tail = batch.drop_last();
    let txns = committed_txns(records).insert(txn.0);
    assert(batch.len() == log::plain(batch).len() == list.len() + 1);
    assert(log::plain(tail) =~= txn_images(txn, list)) by {
        assert forall|i: int| 0 <= i < list.len() implies log::plain(tail)[i] == txn_images(
            txn,
            list,
        )[i] by {
            assert(log::plain(batch)[i] == txn_records(txn, list)[i]);
            assert(tail[i] == batch[i]);
            assert(log::plain(tail)[i] == tail[i].record);
            assert(log::plain(batch)[i] == batch[i].record);
        }
    }
    lemma_other_txn_irrelevant(records, committed_txns(records), txn);
    lemma_images_take_effect(records, tail, txns, txn, list);
    assert((records + batch).drop_last() =~= records + tail);
    assert((records + batch).last().record == log::plain(batch)[batch.len() - 1]);
    assert(log::plain(batch)[batch.len() - 1] == txn_records(txn, list)[list.len() as int]);
    let images = replayed(records)->Ok_0;
    assert(valid_ids(images.union_prefer_right(page_map::map_of(list)))) by {
        assert forall|id: PageId| #[trigger]
            images.union_prefer_right(page_map::map_of(list)).contains_key(id) implies id.0
            <= MAX_PAGE_COUNT by {
            if page_map::map_of(list).contains_key(id) {
                let i = choose|i: int| 0 <= i < list.len() && (#[trigger] list[i]).0 == id;
                assert(list[i].0.0 <= MAX_PAGE_COUNT);
            } else {
                assert(images.contains_key(id));
            }
        }
    }
}

/// A transaction is committed exactly if the log has a commit record of it.
pub proof fn lemma_committed_iff(records: Seq<DecodedView>, txn: TxnId)
    ensures
        committed_txns(records).contains(txn.0) <==> exists|i: int|
            0 <= i < records.len() && (#[trigger] records[i]).record == (RecordView::Commit {
                txn,
            }),
        committed_txns(records).finite(),
    decreases records.len(),
{
    if records.len() > 0 {
        let front = records.drop_last();
        lemma_committed_iff(front, txn);
        let last = records.len() - 1;
        assert(records[last] == records.last());
        if committed_txns(records).contains(txn.0) {
            if committed_txns(front).contains(txn.0) {
                let i = choose|i: int|
                    0 <= i < front.len() && (#[trigger] front[i]).record == (RecordView::Commit {
                        txn,
                    });
                assert(records[i] == front[i]);
            } else {
                assert(records[last].record == (RecordView::Commit { txn }));
            }
        }
        if exists|i: int|
            0 <= i < records.len() && (#[trigger] records[i]).record == (RecordView::Commit {
                txn,
            }) {
            let i = choose|i: int|
                0 <= i < records.len() && (#[trigger] records[i]).record == (RecordView::Commit {
                    txn,
                });
            if i < last {
                assert(front[i] == records[i]);
            }
        }
    }
}

/// A transaction is in the log exactly if it has a record there.
pub proof fn lemma_logged_iff(records: Seq<DecodedView>, txn: TxnId)
    ensures
        logged_txns(records).contains(txn.0) <==> exists|i: int|
            0 <= i < records.len() && (#[trigger] records[i]).record.txn() == txn,
        logged_txns(records).finite(),
    decreases records.len(),
{
    if records.len() > 0 {
        let front = records.drop_last();
        lemma_logged_iff(front, txn);
        let last = records.len() - 1;
        assert(records[last] == records.last());
        if logged_txns(records).contains(txn.0) {
            if logged_txns(front).contains(txn.0) {
                let i = choose|i: int|
                    0 <= i < front.len() && (#[trigger] front[i]).record.txn() == txn;
                assert(records[i] == front[i]);
            } else {
                assert(records[last].record.txn() == txn);
            }
        }
        if exists|i: int|
            0 <= i < records.len() && (#[trigger] records[i]).record.txn() == txn {
            let i = choose|i: int|
                0 <= i < records.len() && (#[trigger] records[i]).record.txn() == txn;
            if i < last {
                assert(front[i] == records[i]);
            }
        }
    }
}

/// An image is valid exactly if it is a header, for page 0, or else a page that
/// is valid under its id.
pub proof fn lemma_valid_image(page_id: PageId, page: Seq<u8>)
    ensures
        image_error(page_id, page) is None <==> if page_id.0 == 0 {
            file_header::decoded_header(page) is Ok
        } else {
            page::verified_header(page, page_id) is Ok
        },
{
}

/// Whether record `i` holds an image from one of the transactions `txns`.
pub open spec fn is_image_of(records: Seq<DecodedView>, txns: Set<u64>, i: int) -> bool {
    &&& 0 <= i < records.len()
    &&& records[i].record is PageImage
    &&& txns.contains(records[i].record.txn().0)
}

/// The images of transactions are taken exactly if each of them is valid, and
/// then a page has one exactly if some of them is an image of it. Otherwise
/// the error names the first that is not valid.
pub proof fn lemma_images_taken_iff_valid(records: Seq<DecodedView>, txns: Set<u64>, id: PageId)
    ensures
        match latest_images(records, txns) {
            Ok(images) => {
                &&& forall|i: int| #[trigger]
                    is_image_of(records, txns, i) ==> image_error(
                        records[i].record->page_id,
                        records[i].record->page,
                    ) is None
                &&& images.contains_key(id) <==> exists|i: int| #[trigger]
                    is_image_of(records, txns, i) && records[i].record->page_id == id
            },
            Err(err) => exists|i: int| #[trigger]
                is_image_of(records, txns, i) && err is Corruption && image_error(
                    records[i].record->page_id,
                    records[i].record->page,
                ) is Some && latest_images(records.take(i), txns) is Ok,
        },
    decreases records.len(),
{
    if records.len() > 0 {
        let front = records.drop_last();
        let last = records.len() - 1;
        lemma_images_taken_iff_valid(front, txns, id);
        assert(records[last] == records.last());
        assert forall|i: int| 0 <= i < last implies #[trigger] is_image_of(records, txns, i)
            == is_image_of(front, txns, i) by {
            assert(front[i] == records[i]);
        }
        match latest_images(front, txns) {
            Err(_) => {
                let i = choose|i: int| #[trigger]
                    is_image_of(front, txns, i) && image_error(
                        front[i].record->page_id,
                        front[i].record->page,
                    ) is Some && latest_images(front.take(i), txns) is Ok;
                assert(front.take(i) =~= records.take(i));
                assert(is_image_of(records, txns, i));
            },
            Ok(before) => {
                assert(records.take(last) =~= front);
                if latest_images(records, txns) is Err {
                    assert(is_image_of(records, txns, last));
                } else {
                    let images = latest_images(records, txns)->Ok_0;
                    assert forall|i: int| #[trigger] is_image_of(records, txns, i) implies image_error(
                        records[i].record->page_id,
                        records[i].record->page,
                    ) is None by {
                        if i < last {
                            assert(is_image_of(front, txns, i));
                        }
                    }
                    if images.contains_key(id) {
                        if before.contains_key(id) {
                            let i = choose|i: int| #[trigger]
                                is_image_of(front, txns, i) && front[i].record->page_id == id;
                            assert(is_image_of(records, txns, i));
                        } else {
                            assert(is_image_of(records, txns, last));
                        }
                    }
                    if exists|i: int| #[trigger]
                        is_image_of(records, txns, i) && records[i].record->page_id == id {
                        let i = choose|i: int| #[trigger]
                            is_image_of(records, txns, i) && records[i].record->page_id == id;
                        if i < last {
                            assert(is_image_of(front, txns, i));
                        }
                    }
                }
            },
        }
    }
}

/// A log can be replayed exactly if every image of a committed transaction is
/// valid and of a page that starts at a 64-bit offset. Then the last such image
/// of each page is replayed.
pub proof fn lemma_replayable_iff(records: Seq<DecodedView>, at: int)
    ensures
        ({
            let txns = committed_txns(records);
            let all_good = forall|i: int| #[trigger]
                is_image_of(records, txns, i) ==> image_error(
                    records[i].record->page_id,
                    records[i].record->page,
                ) is None && records[i].record->page_id.0 * 4096 <= u64::MAX;
            &&& replayed(records) is Ok <==> all_good
            &&& replayed(records) matches Err(err) ==> err is Corruption
            &&& replayed(records) matches Ok(images) ==> {
                let id = records[at].record->page_id;
                is_image_of(records, txns, at) && (forall|later: int|
                    later > at && #[trigger] is_image_of(records, txns, later)
                        ==> records[later].record->page_id != id) ==> images.contains_key(id)
                    && images[id] == records[at].record->page
            }
        }),
{
    let txns = committed_txns(records);
    lemma_images_taken_iff_valid(records, txns, PageId(0));
    if let Ok(images) = latest_images(records, txns) {
        assert forall|id: PageId| #[trigger] images.contains_key(id) <==> exists|i: int| #[trigger]
            is_image_of(records, txns, i) && records[i].record->page_id == id by {
            lemma_images_taken_iff_valid(records, txns, id);
        }
        if valid_ids(images) {
            assert forall|i: int| #[trigger]
                is_image_of(records, txns, i) implies records[i].record->page_id.0 * 4096
                <= u64::MAX by {
                assert(images.contains_key(records[i].record->page_id));
            }
        } else {
            let id = choose|id: PageId| #[trigger]
                images.contains_key(id) && id.0 > MAX_PAGE_COUNT;
            let i = choose|i: int| #[trigger]
                is_image_of(records, txns, i) && records[i].record->page_id == id;
            assert(is_image_of(records, txns, i));
        }
        let id = records[at].record->page_id;
        if is_image_of(records, txns, at) && (forall|later: int|
            later > at && #[trigger] is_image_of(records, txns, later)
                ==> records[later].record->page_id != id) {
            assert forall|later: int|
                at < later < records.len() && records[later].record is PageImage && txns.contains(
                    records[later].record.txn().0,
                ) implies (#[trigger] records[later]).record->page_id != id by {
                assert(is_image_of(records, txns, later));
            }
            lemma_latest_commit_wins(records, txns, at);
        }
    }
}

/// Replay writes each image exactly once, whole and in its place, in the order
/// of the pages, and writes nothing else. It fsyncs everything at the end, and
/// does nothing at all where there is nothing to replay.
pub proof fn lemma_replay_writes_images(images: Map<PageId, Seq<u8>>)
    requires
        page_images(images),
    ensures
        ({
            let ops = replay_ops(images);
            let list = page_map::listed(images);
            &&& ops.len() == if images.dom().len() == 0 {
                0
            } else {
                images.dom().len() + 1
            }
            &&& ops.len() > 0 ==> ops.last() is SyncAll
            &&& forall|i: int|
                0 <= i < ops.len() - 1 ==> (#[trigger] ops[i]) == (FileOpView::Write {
                    offset: (list[i].0.0 * 4096) as nat,
                    bytes: images[list[i].0],
                }) && images.contains_key(list[i].0)
            &&& forall|i: int, j: int|
                0 <= i < j < ops.len() - 1 ==> (#[trigger] list[i]).0.0 < (#[trigger] list[j]).0.0
        }),
{
    let list = page_map::listed(images);
    let ops = replay_ops(images);
    page_map::lemma_listed(images);
    page_map::lemma_list_len(list);
    if images.dom().len() == 0 {
        assert(images.dom() =~= Set::empty());
        assert(images =~= Map::empty());
    } else if images == Map::<PageId, Seq<u8>>::empty() {
        assert(images.dom() =~= Set::empty());
    }
    assert forall|i: int| 0 <= i < ops.len() - 1 implies (#[trigger] ops[i])
        == (FileOpView::Write {
        offset: (list[i].0.0 * 4096) as nat,
        bytes: images[list[i].0],
    }) && images.contains_key(list[i].0) by {
        page_map::lemma_entry_in_map(list, i);
    }
}

/// What is reported of a replay adds up: every transaction in the log is
/// counted once, as committed if it has a commit record and as incomplete if it
/// has none, and every page that was written is counted once.
pub proof fn lemma_report_adds_up(
    stats: RecoveryStats,
    records: Seq<DecodedView>,
    images: Map<PageId, Seq<u8>>,
)
    requires
        is_stats_of(stats, records, images),
        images.dom().finite(),
    ensures
        stats.committed_txns + stats.incomplete_txns == logged_txns(records).len(),
        stats.pages_restored == page_map::listed(images).len(),
        stats.committed_txns == 0 <==> forall|i: int|
            0 <= i < records.len() ==> !((#[trigger] records[i]).record is Commit),
        stats.committed_txns + stats.incomplete_txns == 0 <==> records.len() == 0,
{
    let committed = committed_txns(records);
    let logged = logged_txns(records);
    lemma_committed_iff(records, TxnId(0));
    lemma_logged_iff(records, TxnId(0));
    assert(committed.subset_of(logged)) by {
        assert forall|txn: u64| committed.contains(txn) implies #[trigger] logged.contains(
            txn,
        ) by {
            lemma_committed_iff(records, TxnId(txn));
            lemma_logged_iff(records, TxnId(txn));
            let i = choose|i: int|
                0 <= i < records.len() && (#[trigger] records[i]).record == (RecordView::Commit {
                    txn: TxnId(txn),
                });
            assert(records[i].record.txn() == TxnId(txn));
        }
    }
    lemma_difference_len(logged, committed);
    page_map::lemma_listed(images);
    page_map::lemma_list_len(page_map::listed(images));
    if committed.len() == 0 {
        assert(committed =~= Set::empty());
        assert forall|i: int| 0 <= i < records.len() implies !((#[trigger] records[i]).record
            is Commit) by {
            if records[i].record is Commit {
                lemma_committed_iff(records, records[i].record.txn());
                assert(committed.contains(records[i].record.txn().0));
            }
        }
    } else {
        let txn = committed.choose();
        lemma_committed_iff(records, TxnId(txn));
        let i = choose|i: int|
            0 <= i < records.len() && (#[trigger] records[i]).record == (RecordView::Commit {
                txn: TxnId(txn),
            });
        assert(records[i].record is Commit);
    }
    if records.len() > 0 {
        lemma_logged_iff(records, records[0].record.txn());
        assert(logged.contains(records[0].record.txn().0));
    }
}

} // verus!
