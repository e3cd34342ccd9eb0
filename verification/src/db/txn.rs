//! Read and write transactions over pages.
//!
//! This is the lowest transactional layer: it deals in whole pages. Tables,
//! rows, and indexes will be built on top of it.
//!
//! # Isolation
//!
//! - Only one [`WriteTxn`] exists at a time.
//! - A write transaction works on private copies of pages. Nobody else sees
//!   its changes until it commits.
//! - A [`ReadTxn`] sees a consistent snapshot: commits cannot publish
//!   changes while any read transaction is open.

use vstd::prelude::*;
use vstd::string::*;

use super::{Database, DbView, PageStep, PageStepView};
use crate::error::{Error, ErrorView, Result};
use crate::storage::buffer_pool::{Room, RoomView};
use crate::storage::disk::MAX_PAGE_COUNT;
use crate::storage::file_header::FileHeader;
use crate::storage::file_op::{FileOp, FileOpView};
use crate::storage::page::{Page, PageId, PageType};
use crate::storage::page_map::PageMap;
use crate::storage::wal::log::WalView;
use crate::storage::wal::record::RecordView;
use crate::storage::wal::{log, record, TxnId, WalRecord};
use crate::storage::{buffer_pool, bytes, disk, file_header, file_op, page, page_map, recovery};
use crate::{error, text};

verus! {

broadcast use crate::storage::page::lemma_page_len;

/// A read-only view of the committed database.
#[derive(Debug)]
pub struct ReadTxn {
    page_count: u64,
}

/// A transaction that can modify pages. Dropping it without calling
/// [`WriteTxn::commit`] rolls it back.
#[derive(Debug)]
pub struct WriteTxn {
    /// Private copies of every page this transaction touched.
    dirty: PageMap,
    /// Page count including pages allocated by this transaction.
    page_count: u64,
}

/// The contents of a [`WriteTxn`].
#[verifier::ext_equal]
pub struct TxnView {
    pub dirty: Map<PageId, Seq<u8>>,
    pub page_count: u64,
}

/// A page as a write transaction sees it.
#[derive(Debug)]
pub enum TxnPage<'a> {
    /// The transaction's own copy.
    Own(&'a Page),
    /// The committed version; this is what has to be done to get at it.
    Committed(PageStep),
}

/// A write transaction's private, writable copy of a page.
#[derive(Debug)]
pub enum PageMut<'a> {
    /// The copy.
    Page(&'a mut Page),
    /// What has to be done before the copy can be made.
    Pending(PageStep),
}

/// A commit whose records are in the log buffer: they are to be written to
/// the log, and then its pages are to be published.
#[derive(Debug)]
pub struct Commit {
    /// What makes the records durable.
    ops: Vec<FileOp>,
    /// The pages not published yet, the one with the greatest id first.
    pages: Vec<(PageId, Page)>,
    page_count: u64,
}

impl View for WriteTxn {
    type V = TxnView;

    closed spec fn view(&self) -> TxnView {
        TxnView { dirty: self.dirty@, page_count: self.page_count }
    }
}

impl ReadTxn {
    /// Number of pages in the database, including the header page.
    pub closed spec fn count(self) -> u64 {
        self.page_count
    }
}

/// Why page `id` is not a data page of a database with `page_count` pages, if
/// it is not one.
pub open spec fn not_data_page(id: PageId, page_count: u64) -> Option<ErrorView> {
    if id.0 == 0 || id.0 >= page_count {
        Some(
            ErrorView::InvalidArgument(
                page::page_name(id) + " is not a data page (database has "@ + text::decimal_chars(
                    page_count as nat,
                ) + " pages)"@,
            ),
        )
    } else {
        None
    }
}

/// Fails unless page `id` is a data page.
pub fn check_data_page(id: PageId, page_count: u64) -> (result: Result<()>)
    ensures
        match result {
            Ok(_) => not_data_page(id, page_count) is None,
            Err(err) => not_data_page(id, page_count) == Some(err@),
        },
{
    if id == PageId::header() || id.0 >= page_count {
        let mut msg = id.to_string();
        msg.append(" is not a data page (database has ");
        msg.append(text::decimal(page_count as u128).as_str());
        msg.append(" pages)");
        return Err(Error::InvalidArgument(msg));
    }
    Ok(())
}

/// The pages of a list, each sealed.
pub open spec fn sealed_list(list: Seq<(PageId, Seq<u8>)>) -> Seq<(PageId, Seq<u8>)> {
    Seq::new(list.len(), |i: int| (list[i].0, page::sealed(list[i].1)))
}

/// The error for the first page of a list that is not valid once sealed.
pub open spec fn malformed(list: Seq<(PageId, Seq<u8>)>) -> Option<ErrorView>
    decreases list.len(),
{
    if list.len() == 0 {
        None
    } else if malformed(list.drop_last()) is Some {
        malformed(list.drop_last())
    } else {
        let (id, contents) = list.last();
        match page::verified_header(page::sealed(contents), id) {
            Ok(_) => None,
            Err(err) => Some(
                ErrorView::InvalidArgument(
                    "transaction left "@ + page::page_name(id) + " malformed: "@
                        + error::display_chars(err, Seq::empty()),
                ),
            ),
        }
    }
}

/// The images a transaction logs: every page it changed, sealed, and before
/// them the new file header if the database grows.
pub open spec fn commit_images(txn: TxnView, page_count: u64) -> Seq<(PageId, Seq<u8>)> {
    let pages = sealed_list(page_map::listed(txn.dirty));
    if txn.page_count > page_count {
        seq![(PageId(0), file_header::encoded_header(txn.page_count))] + pages
    } else {
        pages
    }
}

/// A log after `records` were appended to its buffer.
pub open spec fn appended(wal: WalView, records: Seq<RecordView>) -> WalView {
    WalView {
        pending: wal.pending + log::encoded_records(records, wal.next_seq),
        next_seq: (wal.next_seq + records.len()) as u64,
        ..wal
    }
}

/// The database after a transaction's records were put into the log buffer.
pub open spec fn logged(db: DbView, txn: TxnView) -> DbView {
    let records = recovery::txn_records(
        TxnId(db.next_txn),
        commit_images(txn, db.page_count),
    );
    DbView {
        wal: appended(db.wal, records),
        next_txn: db.next_txn.wrapping_add(1),
        ..db
    }
}

impl Commit {
    /// What makes the records durable.
    pub closed spec fn log_op_views(self) -> Seq<FileOpView> {
        file_op::op_views(self.ops@)
    }

    /// The pages not published yet, in file order.
    pub closed spec fn remaining(self) -> Seq<(PageId, Seq<u8>)> {
        page_map::page_list(self.pages@).reverse()
    }

    /// The page count once the commit is published.
    pub closed spec fn count(self) -> u64 {
        self.page_count
    }
}

impl Database {
    /// Starts a read-only transaction.
    pub fn begin_read(&self) -> (result: Result<ReadTxn>)
        ensures
            match result {
                Ok(txn) => super::refusal(self@) is None && txn.count() == self@.page_count,
                Err(err) => super::refusal(self@) == Some(err@),
            },
    {
        self.check_poisoned()?;
        Ok(ReadTxn { page_count: self.page_count() })
    }

    /// Starts a write transaction.
    pub fn begin_write(&self) -> (result: Result<WriteTxn>)
        ensures
            match result {
                Ok(txn) => {
                    &&& super::refusal(self@) is None
                    &&& txn.wf()
                    &&& txn@ == begun(self@)
                },
                Err(err) => super::refusal(self@) == Some(err@),
            },
    {
        self.check_poisoned()?;
        Ok(WriteTxn { dirty: PageMap::new(), page_count: self.page_count() })
    }
}

impl ReadTxn {
    /// Number of pages in the database, including the header page.
    pub fn page_count(&self) -> (count: u64)
        ensures
            count == self.count(),
    {
        self.page_count
    }

    /// Pins page `id`, or says what has to be done first.
    pub fn read_page(&self, db: &mut Database, id: PageId) -> (result: Result<PageStep>)
        requires
            old(db).wf(),
            old(db)@.pool.cached(id) ==> old(db)@.pool.frames[old(db)@.pool.frame_of(id)].pins
                < u32::MAX,
        ensures
            final(db).wf(),
            final(db).reported() == old(db).reported(),
            match not_data_page(id, self.count()) {
                Some(err) => {
                    &&& result matches Err(e) && e@ == err
                    &&& final(db)@ == old(db)@
                },
                None => {
                    let (after, step) = super::fetched(old(db)@, id);
                    &&& final(db)@ == after
                    &&& match result {
                        Ok(chosen) => chosen.shows(step, id),
                        Err(err) => step == PageStepView::Failed(err@),
                    }
                },
            },
    {
        check_data_page(id, self.page_count)?;
        db.fetch_page(id)
    }
}

impl WriteTxn {
    /// The private copies are in order.
    pub closed spec fn wf(self) -> bool {
        self.dirty.wf()
    }

    /// Number of pages, including any allocated by this transaction.
    pub fn page_count(&self) -> (count: u64)
        ensures
            count == self@.page_count,
    {
        self.page_count
    }

    /// Page `id` as this transaction sees it, including its own uncommitted
    /// changes.
    pub fn read_page<'a>(&'a self, db: &mut Database, id: PageId) -> (result: Result<TxnPage<'a>>)
        requires
            self.wf(),
            old(db).wf(),
            old(db)@.pool.cached(id) ==> old(db)@.pool.frames[old(db)@.pool.frame_of(id)].pins
                < u32::MAX,
        ensures
            final(db).wf(),
            final(db).reported() == old(db).reported(),
            match seen(self@, id) {
                SeenView::NoPage(err) => {
                    &&& result matches Err(e) && e@ == err
                    &&& final(db)@ == old(db)@
                },
                SeenView::Own(contents) => {
                    &&& result matches Ok(TxnPage::Own(page)) && page@ == contents
                    &&& final(db)@ == old(db)@
                },
                SeenView::Committed => {
                    let (after, step) = super::fetched(old(db)@, id);
                    &&& final(db)@ == after
                    &&& match result {
                        Ok(TxnPage::Own(_)) => false,
                        Ok(TxnPage::Committed(chosen)) => chosen.shows(step, id),
                        Err(err) => step == PageStepView::Failed(err@),
                    }
                },
            },
    {
        check_data_page(id, self.page_count)?;
        if let Some(page) = self.dirty.get(id) {
            return Ok(TxnPage::Own(page));
        }
        let step = db.fetch_page(id)?;
        Ok(TxnPage::Committed(step))
    }

    /// Returns this transaction's private, writable copy of page `id`, or
    /// says what has to be done before it can be made.
    pub fn page_mut<'a>(&'a mut self, db: &mut Database, id: PageId) -> (result: Result<
        PageMut<'a>,
    >)
        requires
            old(self).wf(),
            old(db).wf(),
            old(db)@.pool.cached(id) ==> old(db)@.pool.frames[old(db)@.pool.frame_of(id)].pins
                < u32::MAX,
        ensures
            final(self).wf(),
            final(db).wf(),
            final(db).reported() == old(db).reported(),
            match seen(old(self)@, id) {
                SeenView::NoPage(err) => {
                    &&& result matches Err(e) && e@ == err
                    &&& final(self)@ == old(self)@
                    &&& final(db)@ == old(db)@
                },
                SeenView::Own(contents) => {
                    &&& final(db)@ == old(db)@
                    &&& match result {
                        Ok(PageMut::Page(page)) => {
                            &&& page@ == contents
                            &&& final(self)@ == with_page(old(self)@, id, final(page)@)
                        },
                        _ => false,
                    }
                },
                SeenView::Committed => {
                    let (after, step) = super::fetched(old(db)@, id);
                    match result {
                        Ok(PageMut::Page(page)) => {
                            &&& step matches PageStepView::Ready(frame) && {
                                &&& page@ == old(db)@.pool.frames[frame].page
                                &&& final(db)@ == (DbView {
                                    pool: buffer_pool::unpinned(after.pool, frame),
                                    ..after
                                })
                            }
                            &&& final(self)@ == with_page(old(self)@, id, final(page)@)
                        },
                        Ok(PageMut::Pending(chosen)) => {
                            &&& !(step is Ready)
                            &&& chosen.shows(step, id)
                            &&& final(self)@ == old(self)@
                            &&& final(db)@ == after
                        },
                        Err(err) => {
                            &&& step == PageStepView::Failed(err@)
                            &&& final(self)@ == old(self)@
                            &&& final(db)@ == after
                        },
                    }
                },
            },
    {
        check_data_page(id, self.page_count)?;
        if self.dirty.get(id).is_none() {
            let ghost before = db@;
            match db.fetch_page(id)? {
                PageStep::Ready(handle) => {
                    proof {
                        let frame = handle.frame();
                        assert(before.pool.holds(frame, id));
                        assert(db@.pool.holds(frame, id));
                    }
                    let copy = db.page(&handle).clone();
                    db.unpin(handle);
                    self.dirty.insert(id, copy);
                },
                step => {
                    return Ok(PageMut::Pending(step));
                },
            }
        }
        match self.dirty.get_mut(id) {
            Some(page) => Ok(PageMut::Page(page)),
            None => vstd::pervasive::unreached(),
        }
    }

    /// Adds a new, empty page of the given type and returns its id.
    pub fn allocate_page(&mut self, page_type: PageType) -> (id: PageId)
        requires
            old(self).wf(),
            old(self)@.page_count < MAX_PAGE_COUNT,
        ensures
            final(self).wf(),
            id.0 == old(self)@.page_count,
            final(self)@ == with_new_page(old(self)@, page_type),
    {
        let id = PageId(self.page_count);
        self.page_count += 1;
        self.dirty.insert(id, Page::new(id, page_type));
        id
    }

    /// Whether the log has room for the records that committing this
    /// transaction would log, if it would log any.
    pub fn fits(&self, db: &Database) -> (fits: bool)
        requires
            self.wf(),
        ensures
            fits == has_room_for(db@, self@),
    {
        proof {
            self.dirty.lemma_list();
        }
        let pages: u64 = self.dirty.len() as u64;
        if pages == 0 || db.wal.check_poisoned().is_err() {
            return true;
        }
        (pages <= u64::MAX - 2 && db.wal.has_room(pages + 2)) || any_malformed(&self.dirty)
    }

    /// Seals and checks every page, then puts the transaction's records into
    /// the log buffer. `None` if the transaction changed nothing.
    ///
    /// Everything is checked before anything is logged, so a bad page is
    /// rejected without touching the log. When the records are durable and
    /// the pages published, every change is durable and visible; before that,
    /// none is.
    pub fn commit(self, db: &mut Database) -> (result: Result<Option<Commit>>)
        requires
            self.wf(),
            old(db).wf(),
            self@.page_count <= MAX_PAGE_COUNT,
            has_room_for(old(db)@, self@),
        ensures
            final(db).wf(),
            final(db).reported() == old(db).reported(),
            ({
                let (after, outcome) = commit_step(old(db)@, self@);
                &&& final(db)@ == after
                &&& match result {
                    Ok(None) => outcome is Nothing,
                    Ok(Some(commit)) => outcome == (CommitView::Logged {
                        ops: commit.log_op_views(),
                        pages: commit.remaining(),
                        page_count: commit.count(),
                    }),
                    Err(err) => outcome == CommitView::Refused(err@),
                }
            }),
    {
        proof {
            self.dirty.lemma_list();
        }
        if self.dirty.len() == 0 {
            return Ok(None);
        }
        let page_count: u64 = self.page_count;
        let mut dirty = self.dirty;
        // Validate everything before logging anything.
        match seal_all(&mut dirty) {
            Ok(_) => {},
            Err(err) => {
                return Err(err);
            },
        }
        let grew: bool = page_count > db.page_count();
        let txn = db.next_txn_id();
        match log_pages(db, txn, grew, page_count, dirty) {
            Ok(logged_pages) => {
                let ops = match db.wal.flush() {
                    Ok(ops) => ops,
                    Err(_) => vstd::pervasive::unreached(),
                };
                Ok(Some(Commit { ops, pages: logged_pages, page_count }))
            },
            Err(err) => {
                db.poison();
                Err(err)
            },
        }
    }

    /// Discards every change. Equivalent to dropping the transaction.
    pub fn rollback(self) {
    }
}

/// What becomes of a commit before its records are written to the log.
pub enum CommitView {
    /// There is nothing to commit.
    Nothing,
    /// The records are in the log buffer: `ops` make them durable, and then
    /// `pages` are to be published, with the new page count.
    Logged { ops: Seq<FileOpView>, pages: Seq<(PageId, Seq<u8>)>, page_count: u64 },
    /// It failed.
    Refused(ErrorView),
}

/// The database after a transaction was committed as far as it goes without
/// I/O, and what becomes of the commit.
pub open spec fn commit_step(db: DbView, txn: TxnView) -> (DbView, CommitView) {
    let pages = page_map::listed(txn.dirty);
    if pages.len() == 0 {
        (db, CommitView::Nothing)
    } else if let Some(err) = malformed(pages) {
        (db, CommitView::Refused(err))
    } else if db.wal.poisoned {
        (
            super::poisoned(DbView { next_txn: db.next_txn.wrapping_add(1), ..db }),
            CommitView::Refused(log::wal_poisoned()),
        )
    } else {
        (
            logged(db, txn),
            CommitView::Logged {
                ops: log::flush_ops(logged(db, txn).wal),
                pages: sealed_list(pages),
                page_count: txn.page_count,
            },
        )
    }
}

/// A transaction after it changed one page.
pub open spec fn with_page(txn: TxnView, id: PageId, page: Seq<u8>) -> TxnView {
    TxnView { dirty: txn.dirty.insert(id, page), ..txn }
}

/// What a write transaction sees of a page.
pub enum SeenView {
    /// It is no data page.
    NoPage(ErrorView),
    /// The transaction's own copy.
    Own(Seq<u8>),
    /// The committed version.
    Committed,
}

/// What a write transaction sees of page `id`.
pub open spec fn seen(txn: TxnView, id: PageId) -> SeenView {
    match not_data_page(id, txn.page_count) {
        Some(err) => SeenView::NoPage(err),
        None => if txn.dirty.contains_key(id) {
            SeenView::Own(txn.dirty[id])
        } else {
            SeenView::Committed
        },
    }
}

/// A transaction that was just begun: it has no copies, and as many pages as
/// the database.
pub open spec fn begun(db: DbView) -> TxnView {
    TxnView { dirty: Map::empty(), page_count: db.page_count }
}

/// A transaction after it added an empty page.
pub open spec fn with_new_page(txn: TxnView, page_type: PageType) -> TxnView {
    let id = PageId(txn.page_count);
    TxnView {
        dirty: txn.dirty.insert(id, page::new_page(id, page_type)),
        page_count: (txn.page_count + 1) as u64,
    }
}

/// Whether the log has room for a transaction's records. A transaction that
/// changed nothing, or left a page malformed, logs none, and neither does one
/// on a poisoned log.
pub open spec fn has_room_for(db: DbView, txn: TxnView) -> bool {
    let pages = page_map::listed(txn.dirty);
    pages.len() > 0 && malformed(pages) is None && !db.wal.poisoned ==> db.wal.has_room(
        (pages.len() + 2) as nat,
    )
}

/// Whether some page is not valid once sealed.
fn any_malformed(dirty: &PageMap) -> (found: bool)
    requires
        dirty.wf(),
    ensures
        found == (malformed(dirty.list()) is Some),
{
    let ghost list = dirty.list();
    let len: usize = dirty.len();
    let mut i: usize = 0;
    while i < len
        invariant
            dirty.wf(),
            i <= len == list.len(),
            list == dirty.list(),
            malformed(list.take(i as int)) is None,
        decreases len - i,
    {
        let (id, page) = dirty.entry(i);
        let mut copy = page.clone();
        copy.seal();
        let checked = copy.verify(id);
        assert(list.take(i + 1).drop_last() =~= list.take(i as int));
        if checked.is_err() {
            proof {
                lemma_malformed_stays(list, i + 1);
            }
            return true;
        }
        i += 1;
    }
    assert(list.take(i as int) =~= list);
    false
}

/// Seals every page and checks that it is valid.
fn seal_all(dirty: &mut PageMap) -> (result: Result<()>)
    requires
        old(dirty).wf(),
    ensures
        final(dirty).wf(),
        match result {
            Ok(_) => {
                &&& malformed(old(dirty).list()) is None
                &&& final(dirty).list() == sealed_list(old(dirty).list())
            },
            Err(err) => malformed(old(dirty).list()) == Some(err@),
        },
{
    let ghost list = dirty.list();
    let len: usize = dirty.len();
    let mut i: usize = 0;
    assert(list.take(0) =~= Seq::empty());
    assert(dirty.list() =~= sealed_list(list.take(0)) + list.skip(0));
    while i < len
        invariant
            dirty.wf(),
            i <= len == list.len(),
            list == old(dirty).list(),
            dirty.list() == sealed_list(list.take(i as int)) + list.skip(i as int),
            malformed(list.take(i as int)) is None,
        decreases len - i,
    {
        let (id, _) = dirty.entry(i);
        let page = dirty.entry_mut(i);
        page.seal();
        let checked = page.verify(id);
        proof {
            assert(list.take(i + 1).drop_last() =~= list.take(i as int));
            assert(dirty.list() =~= sealed_list(list.take(i + 1)) + list.skip(i + 1));
        }
        if let Err(err) = checked {
            let mut msg = "transaction left ".to_owned();
            msg.append(id.to_string().as_str());
            msg.append(" malformed: ");
            msg.append(err.to_string().as_str());
            proof {
                lemma_malformed_stays(list, i + 1);
            }
            return Err(Error::InvalidArgument(msg));
        }
        i += 1;
    }
    assert(list.take(i as int) =~= list);
    assert(dirty.list() =~= sealed_list(list));
    Ok(())
}

proof fn lemma_malformed_stays(list: Seq<(PageId, Seq<u8>)>, end: int)
    requires
        0 <= end <= list.len(),
        malformed(list.take(end)) is Some,
    ensures
        malformed(list) == malformed(list.take(end)),
    decreases list.len() - end,
{
    if end == list.len() {
        assert(list.take(end) =~= list);
    } else {
        assert(list.take(end + 1).drop_last() =~= list.take(end));
        lemma_malformed_stays(list, end + 1);
    }
}

/// Appends a record to the log buffer.
proof fn lemma_append_one(wal: WalView, records: Seq<RecordView>, next: RecordView)
    requires
        wal.next_seq + records.len() < u64::MAX,
    ensures
        ({
            let before = appended(wal, records);
            appended(wal, records.push(next)) == (WalView {
                pending: before.pending + record::encoded_record(next, before.next_seq),
                next_seq: (before.next_seq + 1) as u64,
                ..before
            })
        }),
{
    let seq = (wal.next_seq + records.len()) as u64;
    let one = seq![next];
    log::lemma_encoded_in_turn(records, one, wal.next_seq);
    assert(records + one =~= records.push(next));
    assert(one.skip(1) =~= Seq::empty());
    assert(log::encoded_records(one.skip(1), (seq + 1) as u64) =~= Seq::empty());
    assert(log::encoded_records(one, seq) =~= record::encoded_record(next, seq));
    assert(appended(wal, records.push(next)).pending =~= appended(wal, records).pending
        + record::encoded_record(next, seq));
}

/// Puts the images of a transaction and its commit record into the log
/// buffer, and gives the pages back.
fn log_pages(
    db: &mut Database,
    txn: TxnId,
    grew: bool,
    page_count: u64,
    dirty: PageMap,
) -> (result: Result<Vec<(PageId, Page)>>)
    requires
        old(db).wf(),
        !old(db)@.wal.poisoned ==> old(db)@.wal.has_room((dirty.list().len() + 2) as nat),
    ensures
        final(db).wf(),
        final(db).reported() == old(db).reported(),
        match result {
            Ok(pages) => {
                let header = (PageId(0), file_header::encoded_header(page_count));
                let images = if grew {
                    seq![header] + dirty.list()
                } else {
                    dirty.list()
                };
                &&& !old(db)@.wal.poisoned
                &&& page_map::page_list(pages@).reverse() == dirty.list()
                &&& final(db)@ == (DbView {
                    wal: appended(old(db)@.wal, recovery::txn_records(txn, images)),
                    ..old(db)@
                })
            },
            Err(err) => {
                &&& old(db)@.wal.poisoned
                &&& err@ == log::wal_poisoned()
                &&& final(db)@ == old(db)@
            },
        },
{
    db.wal.check_poisoned()?;
    let ghost before = db@;
    let ghost list = dirty.list();
    let ghost count = list.len();
    let ghost header = (PageId(0), file_header::encoded_header(page_count));
    let ghost first = if grew {
        seq![header]
    } else {
        Seq::empty()
    };
    let ghost mut done: Seq<RecordView> = Seq::empty();
    assert(db@.wal =~= appended(before.wal, done));
    if grew {
        let file_header = FileHeader { page_count };
        let image = WalRecord::PageImage {
            txn,
            page_id: PageId::header(),
            page: file_header.encode(),
        };
        proof {
            lemma_append_one(before.wal, done, image@);
            record::lemma_record_round_trips(image@, before.wal.next_seq, Seq::empty());
            log::lemma_room_for_fewer(before.wal, count + 2, 1);
        }
        db.wal.append(&image)?;
        proof {
            done = done.push(image@);
            log::lemma_room_used(before.wal, db@.wal, count + 1);
        }
    } else {
        proof {
            log::lemma_room_for_fewer(before.wal, count + 2, count + 1);
        }
    }
    proof {
        log::lemma_room_for_fewer(db@.wal, count + 1, 0);
    }
    assert(done =~= recovery::txn_images(txn, first));
    let mut todo = dirty.into_reversed();
    assert(page_map::page_list(todo@).len() == todo@.len());
    let mut pages: Vec<(PageId, Page)> = Vec::with_capacity(todo.len());
    while todo.len() > 0
        invariant
            db.wf(),
            db.reported() == old(db).reported(),
            before == old(db)@,
            list == dirty.list(),
            count == list.len(),
            todo@.len() + pages@.len() == count,
            page_map::page_list(todo@) == list.skip(pages@.len() as int).reverse(),
            page_map::page_list(pages@) == list.take(pages@.len() as int),
            done == recovery::txn_images(txn, first + list.take(pages@.len() as int)),
            first.len() <= 1,
            db@ == (DbView { wal: appended(before.wal, done), ..before }),
            before.wal.has_room((count + 2) as nat),
            db@.wal.has_room((todo@.len() + 1) as nat),
            !before.wal.poisoned,
        decreases todo.len(),
    {
        let ghost k = pages@.len() as int;
        let ghost left = todo@;
        if let Some((page_id, page)) = todo.pop() {
            proof {
                let last = left.len() - 1;
                assert(page_map::page_list(left)[last] == list.skip(k).reverse()[last]);
                assert((page_id, page@) == list[k]);
            }
            let image = WalRecord::PageImage { txn, page_id, page };
            proof {
                lemma_append_one(before.wal, done, image@);
                record::lemma_record_round_trips(image@, db@.wal.next_seq, Seq::empty());
                log::lemma_room_for_fewer(db@.wal, left.len() + 1, 1);
            }
            let ghost now = db@.wal;
            db.wal.append(&image)?;
            proof {
                log::lemma_room_used(now, db@.wal, left.len());
                log::lemma_room_for_fewer(db@.wal, left.len(), 0);
                done = done.push(image@);
                assert(first + list.take(k + 1) =~= (first + list.take(k)).push(list[k]));
                assert(done =~= recovery::txn_images(txn, first + list.take(k + 1)));
            }
            if let WalRecord::PageImage { page, .. } = image {
                pages.push((page_id, page));
            }
            proof {
                assert(page_map::page_list(pages@) =~= list.take(k + 1));
                assert(page_map::page_list(todo@) =~= list.skip(k + 1).reverse()) by {
                    assert forall|i: int| 0 <= i < todo@.len() implies page_map::page_list(todo@)[i]
                        == list.skip(k + 1).reverse()[i] by {
                        assert(page_map::page_list(left)[i] == list.skip(k).reverse()[i]);
                    }
                }
            }
        }
    }
    let mark = WalRecord::Commit { txn };
    let ghost now = db@.wal;
    proof {
        record::lemma_record_round_trips(mark@, db@.wal.next_seq, Seq::empty());
        lemma_append_one(before.wal, done, mark@);
        assert(list.take(pages@.len() as int) =~= list);
        assert(done.push(mark@) == recovery::txn_records(txn, first + list));
        assert(grew ==> first + list == seq![header] + list);
        assert(!grew ==> first + list =~= list);
    }
    db.wal.append(&mark)?;
    proof {
        log::lemma_room_used(now, db@.wal, 0);
    }
    let reversed = reverse(pages);
    assert(page_map::page_list(reversed@).reverse() =~= list);
    Ok(reversed)
}

/// The pages of a list in the opposite order.
fn reverse(pages: Vec<(PageId, Page)>) -> (reversed: Vec<(PageId, Page)>)
    ensures
        page_map::page_list(reversed@) == page_map::page_list(pages@).reverse(),
{
    let mut left = pages;
    let mut reversed: Vec<(PageId, Page)> = Vec::with_capacity(left.len());
    while left.len() > 0
        invariant
            left@ == pages@.take(left@.len() as int),
            left@.len() <= pages@.len(),
            reversed@.len() == pages@.len() - left@.len(),
            forall|i: int|
                0 <= i < reversed@.len() ==> reversed@[i] == pages@[pages@.len() - 1 - i],
        decreases left@.len(),
    {
        if let Some(entry) = left.pop() {
            reversed.push(entry);
            assert(left@ =~= pages@.take(left@.len() as int));
        }
    }
    assert(page_map::page_list(reversed@) =~= page_map::page_list(pages@).reverse());
    reversed
}

/// How far publishing a commit has come.
#[derive(Debug)]
pub enum Publish {
    /// Every change is visible.
    Done,
    /// One more page was published.
    Installed,
    /// The page in this frame is to be written to the data file and the
    /// outcome given to [`Database::publish_written`], to make room.
    Write(usize, FileOp),
}

/// A [`Publish`], or the error in its place.
pub enum PublishView {
    Done,
    Installed,
    Write(int, FileOpView),
    Failed(ErrorView),
}

impl Publish {
    /// Whether this is `step`.
    pub open spec fn shows(self, step: PublishView) -> bool {
        match self {
            Publish::Done => step is Done,
            Publish::Installed => step is Installed,
            Publish::Write(frame, op) => step == PublishView::Write(frame as int, op@),
        }
    }
}

/// The error for a page count below the current one.
pub open spec fn shrinks(from: u64, to: u64) -> ErrorView {
    ErrorView::InvalidArgument(
        "cannot shrink the database from "@ + text::decimal_chars(from as nat) + " to "@
            + text::decimal_chars(to as nat) + " pages"@,
    )
}

/// The database after a step of publishing the pages `remaining`, and what
/// has to be done next. Failing would leave memory out of step with the log,
/// so a failure poisons the database.
pub open spec fn published(db: DbView, remaining: Seq<(PageId, Seq<u8>)>, page_count: u64) -> (
    DbView,
    PublishView,
) {
    if page_count < db.page_count {
        (
            DbView { poisoned: true, ..db },
            PublishView::Failed(shrinks(db.page_count, page_count)),
        )
    } else if remaining.len() == 0 {
        (DbView { page_count, ..db }, PublishView::Done)
    } else {
        let (id, contents) = remaining[0];
        if db.pool.cached(id) {
            (
                DbView {
                    page_count,
                    pool: buffer_pool::installed(db.pool, id, contents),
                    ..db
                },
                PublishView::Installed,
            )
        } else {
            let (pool, room) = db.pool.with_room();
            match room {
                RoomView::Ready => (
                    DbView {
                        page_count,
                        pool: buffer_pool::installed(pool, id, contents),
                        ..db
                    },
                    PublishView::Installed,
                ),
                RoomView::Exhausted => (
                    DbView { page_count, pool, poisoned: true, ..db },
                    PublishView::Failed(buffer_pool::exhausted(db.pool.frames.len())),
                ),
                RoomView::WriteBack(frame) => {
                    let (sealed, step) = super::write_step(pool, frame, page_count);
                    match step {
                        PageStepView::Write(_, op) => (
                            DbView { page_count, pool: sealed, ..db },
                            PublishView::Write(frame, op),
                        ),
                        PageStepView::Failed(err) => (
                            DbView { page_count, pool: sealed, poisoned: true, ..db },
                            PublishView::Failed(err),
                        ),
                        _ => (db, PublishView::Done),
                    }
                },
            }
        }
    }
}

impl Commit {
    /// What makes the records durable; the outcome goes to
    /// [`Database::commit_logged`].
    pub fn log_ops(&self) -> (ops: &[FileOp])
        ensures
            file_op::op_views(ops@) == self.log_op_views(),
    {
        self.ops.as_slice()
    }
}

impl Database {
    /// Takes the outcome of writing a commit's records to the log. If this
    /// returns `Ok`, the transaction survives a crash, and its pages are to
    /// be published. A failure poisons the database.
    pub fn commit_logged(
        &mut self,
        outcome: std::result::Result<(), std::io::Error>,
    ) -> (result: Result<()>)
        requires
            old(self).wf(),
        ensures
            final(self).wf(),
            final(self).reported() == old(self).reported(),
            final(self)@ == commit_logged_step(old(self)@, outcome is Ok),
            match outcome {
                Ok(_) => result is Ok,
                Err(err) => result matches Err(e) && e@ == ErrorView::Io(err),
            },
    {
        match self.wal.flushed(outcome) {
            Ok(_) => Ok(()),
            Err(err) => {
                self.poison();
                Err(err)
            },
        }
    }

    /// Publishes the next page of a commit, or says what has to be done
    /// first. No reader may be active. A failure poisons the database.
    pub fn publish(&mut self, commit: &mut Commit) -> (result: Result<Publish>)
        requires
            old(self).wf(),
            old(commit).count() <= MAX_PAGE_COUNT,
        ensures
            final(self).wf(),
            final(self).reported() == old(self).reported(),
            final(commit).count() == old(commit).count(),
            final(commit).log_op_views() == old(commit).log_op_views(),
            ({
                let (after, step) = published(
                    old(self)@,
                    old(commit).remaining(),
                    old(commit).count(),
                );
                &&& final(self)@ == after
                &&& final(commit).remaining() == if step is Installed {
                    old(commit).remaining().skip(1)
                } else {
                    old(commit).remaining()
                }
                &&& match result {
                    Ok(chosen) => chosen.shows(step),
                    Err(err) => step == PublishView::Failed(err@),
                }
            }),
    {
        let ghost before = self@;
        let ghost remaining = commit.remaining();
        proof {
            self.pool.lemma_wf();
            buffer_pool::lemma_room(self.pool@);
        }
        if let Err(err) = self.disk.set_page_count(commit.page_count) {
            self.poison();
            return Err(err);
        }
        let left: usize = commit.pages.len();
        if left == 0 {
            return Ok(Publish::Done);
        }
        let id = commit.pages[left - 1].0;
        assert(remaining[0] == page_map::page_list(commit.pages@)[left - 1]);
        match self.pool.room_for(id) {
            Err(err) => {
                self.poison();
                Err(err)
            },
            Ok(Room::WriteBack(frame)) => match self.pool.write_back(frame, &self.disk) {
                Ok(op) => Ok(Publish::Write(frame, op)),
                Err(err) => {
                    self.poison();
                    Err(err)
                },
            },
            Ok(Room::Ready) => {
                proof {
                    if !before.pool.cached(id) {
                        assert(!self@.pool.cached(id)) by {
                            if self@.pool.cached(id) {
                                assert(before.pool.holds(self@.pool.frame_of(id), id));
                            }
                        }
                    }
                }
                if let Some((page_id, page)) = commit.pages.pop() {
                    self.pool.install_page(page_id, page);
                }
                assert(commit.remaining() =~= remaining.skip(1));
                Ok(Publish::Installed)
            },
        }
    }

    /// Takes the outcome of a write that [`Database::publish`] asked for. A
    /// failure poisons the database.
    pub fn publish_written(
        &mut self,
        frame: usize,
        outcome: std::result::Result<(), std::io::Error>,
    ) -> (result: Result<()>)
        requires
            old(self).wf(),
            frame < old(self)@.pool.frames.len(),
            old(self)@.pool.frames[frame as int].page_id is Some,
        ensures
            final(self).wf(),
            final(self).reported() == old(self).reported(),
            final(self)@ == publish_written_step(old(self)@, frame as int, outcome is Ok),
            match outcome {
                Ok(_) => result is Ok,
                Err(err) => result matches Err(e) && e@ == ErrorView::Io(err),
            },
    {
        match self.page_written(frame, outcome) {
            Ok(_) => Ok(()),
            Err(err) => {
                self.poison();
                Err(err)
            },
        }
    }

    /// Whether the log has grown so much that it is time for a checkpoint.
    pub fn wants_checkpoint(&self) -> (wants: bool)
        ensures
            wants == checkpoint_due(self@),
    {
        match self.auto_checkpoint_bytes {
            Some(limit) => self.wal.durable_len() >= limit,
            None => false,
        }
    }
}

/// Whether the log holds as many bytes as call for a checkpoint.
pub open spec fn checkpoint_due(db: DbView) -> bool {
    match db.auto_checkpoint_bytes {
        Some(limit) => db.wal.durable_len >= limit,
        None => false,
    }
}

/// A database after a commit's records were written to the log, or could not
/// be.
pub open spec fn commit_logged_step(db: DbView, logged: bool) -> DbView {
    if logged {
        DbView { wal: flushed(db.wal), ..db }
    } else {
        super::poisoned(DbView { wal: log::failed(db.wal), ..db })
    }
}

/// A database after a page was written back to make room for a commit's pages,
/// or could not be.
pub open spec fn publish_written_step(db: DbView, frame: int, written: bool) -> DbView {
    if written {
        super::page_written_step(db, frame, true)
    } else {
        super::poisoned(db)
    }
}

/// A log after its pending records were written and fsynced.
pub open spec fn flushed(wal: WalView) -> WalView {
    WalView {
        durable_len: (wal.durable_len + wal.pending.len()) as u64,
        pending: Seq::empty(),
        ..wal
    }
}

/// Whether the header of a page is in order: its type byte is 1 or 2, the
/// three bytes behind it are zero, and the id in it is `id`.
pub open spec fn header_in_order(id: PageId, contents: Seq<u8>) -> bool {
    &&& contents[4] == 1 || contents[4] == 2
    &&& contents[5] == 0 && contents[6] == 0 && contents[7] == 0
    &&& contents.subrange(8, 16) == bytes::le_bytes(id.0 as nat, 8)
}

/// A transaction's pages are refused exactly if the header of one of them is
/// not in order. Nothing else about a page matters: not its type, its LSN, its
/// payload, nor the checksum it had.
pub proof fn lemma_refused_iff_malformed(list: Seq<(PageId, Seq<u8>)>)
    requires
        forall|i: int| 0 <= i < list.len() ==> (#[trigger] list[i]).1.len() == page::PAGE_SIZE,
    ensures
        malformed(list) is None <==> forall|i: int|
            0 <= i < list.len() ==> header_in_order((#[trigger] list[i]).0, list[i].1),
        malformed(list) matches Some(err) ==> err is InvalidArgument,
    decreases list.len(),
{
    if list.len() > 0 {
        let front = list.drop_last();
        let last = list.len() - 1;
        assert forall|i: int| 0 <= i < front.len() implies (#[trigger] front[i]).1.len()
            == page::PAGE_SIZE by {
            assert(front[i] == list[i]);
        }
        lemma_refused_iff_malformed(front);
        let (id, contents) = list[last];
        assert(list.last() == list[last]);
        page::lemma_sealed_layout(contents);
        page::lemma_valid_page(page::sealed(contents), id);
        page::lemma_seal_sets_checksum(contents);
        assert(page::sealed(contents).subrange(8, 16) =~= contents.subrange(8, 16));
        assert(page::verified_header(page::sealed(contents), id) is Ok <==> header_in_order(
            id,
            contents,
        ));
        assert(malformed(list) is None <==> (malformed(front) is None && header_in_order(
            id,
            contents,
        )));
        if malformed(list) is None {
            assert forall|i: int| 0 <= i < list.len() implies header_in_order(
                (#[trigger] list[i]).0,
                list[i].1,
            ) by {
                if i < last {
                    assert(front[i] == list[i]);
                }
            }
        }
        if forall|i: int|
            0 <= i < list.len() ==> header_in_order((#[trigger] list[i]).0, list[i].1) {
            assert(header_in_order(list[last].0, list[last].1));
            assert forall|i: int| 0 <= i < front.len() implies header_in_order(
                (#[trigger] front[i]).0,
                front[i].1,
            ) by {
                assert(front[i] == list[i]);
            }
        }
    }
}

/// A page that was made for a transaction, of any type, is accepted whatever
/// the transaction did to its LSN and its payload.
pub proof fn lemma_new_page_is_accepted(
    id: PageId,
    page_type: PageType,
    lsn: u64,
    payload: Seq<u8>,
)
    requires
        payload.len() == page::PAGE_SIZE - page::PAGE_HEADER_SIZE,
    ensures
        ({
            let made = page::with_lsn(page::new_page(id, page_type), lsn);
            let contents = made.take(page::PAGE_HEADER_SIZE as int) + payload;
            header_in_order(id, contents) && malformed(seq![(id, contents)]) is None
        }),
{
    let new = page::new_page(id, page_type);
    let made = page::with_lsn(new, lsn);
    let contents = made.take(page::PAGE_HEADER_SIZE as int) + payload;
    page::lemma_new_page_is_empty(id, page_type);
    page::lemma_set_lsn(new, lsn);
    assert(contents.subrange(8, 16) =~= new.subrange(8, 16));
    assert(contents[4] == new[4] && contents[5] == new[5] && contents[6] == new[6] && contents[7]
        == new[7]);
    lemma_refused_iff_malformed(seq![(id, contents)]);
}

/// A transaction can use the pages from 1 up to its page count, and no other.
pub proof fn lemma_usable_pages(id: PageId, page_count: u64)
    ensures
        not_data_page(id, page_count) is None <==> 0 < id.0 < page_count,
        not_data_page(id, page_count) matches Some(err) ==> err is InvalidArgument,
{
}

/// Adding a page makes one more page, with the next id: it is empty and of the
/// type asked for, and the transaction can use it at once. Every other copy
/// stays as it is.
pub proof fn lemma_page_added(txn: TxnView, page_type: PageType, other: PageId)
    requires
        txn.page_count < MAX_PAGE_COUNT,
    ensures
        ({
            let after = with_new_page(txn, page_type);
            let id = PageId(txn.page_count);
            &&& after.page_count == txn.page_count + 1
            &&& after.dirty.contains_key(id)
            &&& after.dirty[id].skip(24) == Seq::new(4072, |i: int| 0u8)
            &&& after.dirty[id][4] == if page_type is Free {
                1u8
            } else {
                2u8
            }
            &&& header_in_order(id, after.dirty[id])
            &&& txn.page_count > 0 ==> not_data_page(id, after.page_count) is None
            &&& other != id ==> after.dirty.contains_key(other) == txn.dirty.contains_key(other)
                && (txn.dirty.contains_key(other) ==> after.dirty[other] == txn.dirty[other])
        }),
{
    page::lemma_new_page_is_empty(PageId(txn.page_count), page_type);
}

/// Changing a copy changes that copy alone, and the transaction then sees the
/// change.
pub proof fn lemma_copy_changed(txn: TxnView, id: PageId, page: Seq<u8>, other: PageId)
    ensures
        ({
            let after = with_page(txn, id, page);
            &&& after.dirty.contains_key(id) && after.dirty[id] == page
            &&& after.page_count == txn.page_count
            &&& other != id ==> after.dirty.contains_key(other) == txn.dirty.contains_key(other)
                && (txn.dirty.contains_key(other) ==> after.dirty[other] == txn.dirty[other])
        }),
{
}

/// A commit logs one image of each page that the transaction touched, in the
/// order of the pages, and before them one of the file header exactly if the
/// database grows. The commit record is the last.
pub proof fn lemma_commit_logs_each_page_once(db: DbView, txn: TxnView)
    requires
        txn.dirty.dom().finite(),
    ensures
        ({
            let list = page_map::listed(txn.dirty);
            let grew = txn.page_count > db.page_count;
            let skipped: int = if grew {
                1
            } else {
                0
            };
            let id = TxnId(db.next_txn);
            let records = recovery::txn_records(id, commit_images(txn, db.page_count));
            &&& records.len() == txn.dirty.dom().len() + skipped + 1
            &&& records.last() == (RecordView::Commit { txn: id })
            &&& grew ==> records[0] == (RecordView::PageImage {
                txn: id,
                page_id: PageId(0),
                page: file_header::encoded_header(txn.page_count),
            })
            &&& forall|i: int|
                0 <= i < list.len() ==> {
                    &&& txn.dirty.contains_key((#[trigger] list[i]).0)
                    &&& records[i + skipped] == (RecordView::PageImage {
                        txn: id,
                        page_id: list[i].0,
                        page: page::sealed(txn.dirty[list[i].0]),
                    })
                }
            &&& forall|i: int, j: int|
                0 <= i < j < list.len() ==> (#[trigger] list[i]).0.0 < (#[trigger] list[j]).0.0
            &&& logged(db, txn).wal == appended(db.wal, records)
            &&& logged(db, txn).pool == db.pool
            &&& logged(db, txn).page_count == db.page_count
        }),
{
    let list = page_map::listed(txn.dirty);
    let images = commit_images(txn, db.page_count);
    let id = TxnId(db.next_txn);
    page_map::lemma_listed(txn.dirty);
    page_map::lemma_list_len(list);
    let records = recovery::txn_records(id, images);
    assert(records.last() == records[images.len() as int]);
    assert forall|i: int| 0 <= i < list.len() implies {
        &&& txn.dirty.contains_key((#[trigger] list[i]).0)
        &&& list[i].1 == txn.dirty[list[i].0]
    } by {
        page_map::lemma_entry_in_map(list, i);
    }
}

/// A checkpoint is due from the limit on, and never without one.
pub proof fn lemma_checkpoint_due(db: DbView, limit: u64)
    ensures
        checkpoint_due(DbView { auto_checkpoint_bytes: Some(limit), ..db }) <==> limit
            <= db.wal.durable_len,
        !checkpoint_due(DbView { auto_checkpoint_bytes: None, ..db }),
{
}

/// A commit that could not be logged, or not be published, leaves the database
/// poisoned: from then on it refuses every transaction and checkpoint. A commit
/// that was logged does not, and neither does a page that could not be written
/// back for a reader; that page stays as it is, and dirty.
pub proof fn lemma_failed_commit_poisons(db: DbView, frame: int)
    ensures
        super::refusal(commit_logged_step(db, false)) matches Some(ErrorView::Poisoned(_)),
        commit_logged_step(db, false).wal.poisoned,
        commit_logged_step(db, false).pool == db.pool,
        commit_logged_step(db, false).page_count == db.page_count,
        super::refusal(publish_written_step(db, frame, false)) matches Some(
            ErrorView::Poisoned(_),
        ),
        super::refusal(commit_logged_step(db, true)) == super::refusal(db),
        commit_logged_step(db, true).pool == db.pool,
        commit_logged_step(db, true).page_count == db.page_count,
        super::refusal(publish_written_step(db, frame, true)) == super::refusal(db),
        super::page_written_step(db, frame, false) == db,
        super::refusal(super::checkpoint_flushed(db, false)) == super::refusal(db),
        super::checkpoint_flushed(db, false) == db,
{
}

/// Publishing that fails poisons the database, and only that does.
pub proof fn lemma_failed_publish_poisons(
    db: DbView,
    remaining: Seq<(PageId, Seq<u8>)>,
    page_count: u64,
)
    ensures
        ({
            let (after, step) = published(db, remaining, page_count);
            &&& step is Failed ==> (super::refusal(after) matches Some(ErrorView::Poisoned(_)))
            &&& !(step is Failed) ==> super::refusal(after) == super::refusal(db)
            &&& page_count < db.page_count ==> step is Failed
            &&& !(step is Failed) ==> after.page_count == page_count
        }),
{
    if page_count >= db.page_count && remaining.len() > 0 && !db.pool.cached(remaining[0].0) {
        let (pool, room) = db.pool.with_room();
        if let RoomView::WriteBack(frame) = room {
            let (_, step) = super::write_step(pool, frame, page_count);
            assert(step is Write || step is Failed);
        }
    }
}

/// What publishing does next. Once every page is installed, it is done. A page
/// is installed at once if it is cached or there is room for it. Otherwise the
/// page that has to go is written back first; that, and only that, leaves the
/// page to be published for later. The log is not touched.
pub proof fn lemma_publish_outcomes(
    db: DbView,
    remaining: Seq<(PageId, Seq<u8>)>,
    page_count: u64,
)
    requires
        db.pool.wf(),
        page_count >= db.page_count,
    ensures
        ({
            let (after, step) = published(db, remaining, page_count);
            &&& after.page_count == page_count
            &&& after.wal == db.wal
            &&& after.next_txn == db.next_txn
            &&& after.auto_checkpoint_bytes == db.auto_checkpoint_bytes
            &&& step is Done <==> remaining.len() == 0
            &&& step is Done ==> after.pool == db.pool
            &&& remaining.len() > 0 && (db.pool.cached(remaining[0].0) || db.pool.free.len() > 0
                || db.pool.with_room().1 is Ready) ==> step is Installed
            &&& step is Installed ==> {
                let (id, contents) = remaining[0];
                let frame = after.pool.frame_of(id);
                &&& after.pool.cached(id)
                &&& after.pool.frames[frame].page == contents
                &&& after.pool.frames[frame].dirty
            }
            &&& step matches PublishView::Write(frame, op) ==> {
                let contents = after.pool.frames[frame];
                &&& db.pool.with_room().1 == RoomView::WriteBack(frame)
                &&& contents.dirty && contents.pins == 0
                &&& op == (FileOpView::Write {
                    offset: ((contents.page_id->0).0 * 4096) as nat,
                    bytes: contents.page,
                })
            }
            &&& step matches PublishView::Failed(err) ==> {
                ||| err is ResourceExhausted && db.pool.free.len() == 0 && forall|frame: int|
                    0 <= frame < db.pool.frames.len() ==> (#[trigger] db.pool.frames[frame]).pins
                        > 0
                ||| err is InvalidArgument && db.pool.with_room().1 is WriteBack
            }
        }),
{
    if remaining.len() > 0 {
        let (id, contents) = remaining[0];
        if db.pool.cached(id) {
            buffer_pool::lemma_installed(db.pool, id, contents);
        } else {
            let (pool, room) = db.pool.with_room();
            buffer_pool::lemma_room(db.pool);
            if db.pool.free.len() == 0 {
                buffer_pool::lemma_room_iff_unpinned(db.pool);
            }
            match room {
                RoomView::Ready => {
                    buffer_pool::lemma_installed(pool, id, contents);
                },
                RoomView::WriteBack(frame) => {
                    let at = pool.frames[frame].page_id->0;
                    disk::lemma_page_goes_where_it_belongs(at, page_count, pool.frames[frame].page);
                },
                RoomView::Exhausted => {},
            }
        }
    }
}

/// What becomes of a commit: a transaction without copies commits nothing, and
/// one with copies is logged exactly if the header of every copy is in order
/// and the log was not poisoned. What is refused never touches the log or the
/// cache, and a malformed page changes nothing at all.
pub proof fn lemma_commit_outcome(db: DbView, txn: TxnView)
    requires
        txn.dirty.dom().finite(),
        forall|id: PageId| #[trigger]
            txn.dirty.contains_key(id) ==> txn.dirty[id].len() == page::PAGE_SIZE,
    ensures
        ({
            let (after, outcome) = commit_step(db, txn);
            let in_order = forall|id: PageId| #[trigger]
                txn.dirty.contains_key(id) ==> header_in_order(id, txn.dirty[id]);
            &&& outcome is Nothing <==> txn.dirty.dom().len() == 0
            &&& outcome is Logged <==> txn.dirty.dom().len() > 0 && in_order && !db.wal.poisoned
            &&& outcome is Nothing ==> after == db
            &&& outcome matches CommitView::Refused(err) ==> {
                &&& after.wal == db.wal && after.pool == db.pool && after.page_count
                    == db.page_count
                &&& !in_order ==> after == db && err is InvalidArgument
                &&& in_order ==> err is Poisoned && after.poisoned
            }
        }),
{
    let pages = page_map::listed(txn.dirty);
    page_map::lemma_listed(txn.dirty);
    page_map::lemma_list_len(pages);
    assert forall|i: int| 0 <= i < pages.len() implies {
        &&& txn.dirty.contains_key((#[trigger] pages[i]).0)
        &&& pages[i].1 == txn.dirty[pages[i].0]
        &&& pages[i].1.len() == page::PAGE_SIZE
    } by {
        page_map::lemma_entry_in_map(pages, i);
    }
    lemma_refused_iff_malformed(pages);
    let in_order = forall|id: PageId| #[trigger]
        txn.dirty.contains_key(id) ==> header_in_order(id, txn.dirty[id]);
    if in_order {
        assert forall|i: int| 0 <= i < pages.len() implies header_in_order(
            (#[trigger] pages[i]).0,
            pages[i].1,
        ) by {
            assert(txn.dirty.contains_key(pages[i].0));
        }
    }
    if malformed(pages) is None {
        assert forall|id: PageId| #[trigger] txn.dirty.contains_key(id) implies header_in_order(
            id,
            txn.dirty[id],
        ) by {
            assert(page_map::has_id(pages, id));
            let i = choose|i: int| 0 <= i < pages.len() && (#[trigger] pages[i]).0 == id;
            assert(header_in_order(pages[i].0, pages[i].1));
        }
    }
}

/// A transaction that was just begun sees the committed pages and no others,
/// and has nothing to commit.
pub proof fn lemma_begun(db: DbView, id: PageId)
    requires
        1 <= db.page_count <= MAX_PAGE_COUNT,
    ensures
        !begun(db).dirty.contains_key(id),
        not_data_page(id, begun(db).page_count) is None <==> 0 < id.0 < db.page_count,
        commit_step(db, begun(db)) == (db, CommitView::Nothing),
{
    let list = page_map::listed(begun(db).dirty);
    assert(begun(db).dirty.dom() =~= Set::empty());
    page_map::lemma_listed(begun(db).dirty);
    page_map::lemma_list_len(list);
}

/// A write transaction sees its own changes and otherwise the committed pages:
/// at first every page is the committed one, a page it changed is as it left
/// it, a page it added is there and empty, and no change to one page is seen in
/// another.
pub proof fn lemma_writer_sees_own_changes(
    db: DbView,
    txn: TxnView,
    id: PageId,
    contents: Seq<u8>,
    page_type: PageType,
    other: PageId,
)
    requires
        0 < id.0 < txn.page_count,
        txn.page_count < MAX_PAGE_COUNT,
    ensures
        0 < other.0 < db.page_count ==> seen(begun(db), other) is Committed,
        seen(with_page(txn, id, contents), id) == SeenView::Own(contents),
        other != id ==> seen(with_page(txn, id, contents), other) == seen(txn, other),
        seen(with_new_page(txn, page_type), PageId(txn.page_count)) matches SeenView::Own(page)
            && page.skip(24) == Seq::new(4072, |i: int| 0u8),
        other.0 < txn.page_count && other.0 > 0 ==> seen(with_new_page(txn, page_type), other)
            == seen(txn, other),
        seen(txn, other) is NoPage <==> other.0 == 0 || other.0 >= txn.page_count,
{
    page::lemma_new_page_is_empty(PageId(txn.page_count), page_type);
}

} // verus!
