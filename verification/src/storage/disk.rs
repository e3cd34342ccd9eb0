//! Page-granular access to the database file.
//!
//! [`DiskManager`] is the only code that decides what is read from and
//! written to the database file. It seals every page before writing and
//! verifies every page after reading, so corrupt pages never reach the
//! layers above.

use vstd::prelude::*;
use vstd::string::*;

use crate::error::{Error, ErrorView, Result};
use crate::storage::file_header::FileHeader;
use crate::storage::file_op::{FileOp, FileOpView};
use crate::storage::page::{Page, PageId, PageType, PAGE_SIZE};
use crate::storage::{bytes, file_header, file_op, page};
use crate::text;

verus! {

broadcast use crate::storage::page::lemma_page_len;

/// The most pages a file can have with every offset in it a 64-bit number.
pub const MAX_PAGE_COUNT: u64 = 0xF_FFFF_FFFF_FFFF;

/// Reads, writes, and allocates pages in a single database file.
#[derive(Debug)]
pub struct DiskManager {
    /// The in-memory copy of the header.
    header: FileHeader,
}

/// The bytes of a file where page `id` belongs.
pub open spec fn page_of(file: Seq<u8>, id: PageId) -> Seq<u8> {
    Seq::new(PAGE_SIZE as nat, |i: int| file_op::byte_at(file, id.0 * PAGE_SIZE + i))
}

/// The write that puts `page` where page `id` belongs.
pub open spec fn page_write(id: PageId, page: Seq<u8>) -> FileOpView {
    FileOpView::Write { offset: (id.0 * PAGE_SIZE) as nat, bytes: page }
}

/// The page count of a file of `file_len` bytes that begins with
/// `first_page`, or why it cannot be opened.
pub open spec fn opened(file_len: nat, first_page: Seq<u8>) -> std::result::Result<u64, ErrorView> {
    if file_len < PAGE_SIZE {
        Err(
            ErrorView::UnsupportedFormat(
                "file is "@ + text::decimal_chars(file_len)
                    + " bytes, too small to be an oxenDB database"@,
            ),
        )
    } else {
        match file_header::decoded_header(first_page) {
            Err(err) => Err(err),
            Ok(header) => {
                let expected_len = (header.page_count * PAGE_SIZE) as nat;
                if file_len < expected_len {
                    Err(
                        ErrorView::Corruption(
                            "file is "@ + text::decimal_chars(file_len)
                                + " bytes but header lists "@ + text::decimal_chars(
                                header.page_count as nat,
                            ) + " pages ("@ + text::decimal_chars(expected_len) + " bytes)"@,
                        ),
                    )
                } else {
                    Ok(header.page_count)
                }
            },
        }
    }
}

/// The page count of a file with these contents, or why it cannot be opened.
pub open spec fn opened_file(file: Seq<u8>) -> std::result::Result<u64, ErrorView> {
    opened(file.len(), page_of(file, PageId(0)))
}

/// Why page `id` is not a data page of a file with `page_count` pages, if it
/// is not one.
pub open spec fn data_page_error(id: PageId, page_count: u64) -> Option<ErrorView> {
    if id.0 == 0 {
        Some(
            ErrorView::InvalidArgument(
                "page 0 is the file header and cannot be accessed as a data page"@,
            ),
        )
    } else if id.0 >= page_count {
        Some(
            ErrorView::InvalidArgument(
                page::page_name(id) + " is out of bounds (file has "@ + text::decimal_chars(
                    page_count as nat,
                ) + " pages)"@,
            ),
        )
    } else {
        None
    }
}

/// What reading page `id` gives when the file holds `found` there.
pub open spec fn page_read(id: PageId, page_count: u64, found: Seq<u8>) -> std::result::Result<
    Seq<u8>,
    ErrorView,
> {
    match data_page_error(id, page_count) {
        Some(err) => Err(err),
        None => match page::verified_header(found, id) {
            Ok(_) => Ok(found),
            Err(err) => Err(err),
        },
    }
}

/// Why `page` cannot be written as page `id`, if it cannot.
pub open spec fn write_error(id: PageId, page_count: u64, page: Seq<u8>) -> Option<ErrorView> {
    if data_page_error(id, page_count) is Some {
        data_page_error(id, page_count)
    } else if page::stored_id(page) != id {
        Some(
            ErrorView::InvalidArgument(
                "refusing to write "@ + page::page_name(page::stored_id(page))
                    + " to the location of "@ + page::page_name(id),
            ),
        )
    } else {
        None
    }
}

/// What is done to the empty file of a new database.
pub open spec fn create_ops() -> Seq<FileOpView> {
    seq![page_write(PageId(0), file_header::encoded_header(1)), FileOpView::SyncAll]
}

/// The operations that append a free page to a file with `page_count` pages.
/// The page is written before the header: if power is lost in between, the
/// file is merely longer than the header says.
pub open spec fn allocate_ops(page_count: u64) -> Seq<FileOpView> {
    seq![
        page_write(
            PageId(page_count),
            page::sealed(page::new_page(PageId(page_count), PageType::Free)),
        ),
        page_write(PageId(0), file_header::encoded_header((page_count + 1) as u64)),
    ]
}

/// The number of pages after a page was appended to `page_count` pages, or could
/// not be.
pub open spec fn count_after(page_count: u64, appended: bool) -> int {
    if appended {
        page_count + 1
    } else {
        page_count as int
    }
}

impl DiskManager {
    /// Number of pages in the file, including the header page.
    pub closed spec fn count(self) -> u64 {
        self.header.page_count
    }

    /// There is a header page, and every page has an offset.
    pub open spec fn wf(self) -> bool {
        1 <= self.count() <= MAX_PAGE_COUNT
    }

    /// Creates a new database, together with what is to be done to its new,
    /// empty file.
    pub fn create() -> (created: (Self, Vec<FileOp>))
        ensures
            created.0.wf(),
            created.0.count() == 1,
            file_op::op_views(created.1@) == create_ops(),
    {
        let header = FileHeader::new();
        let disk = DiskManager { header };
        let mut ops: Vec<FileOp> = Vec::new();
        ops.push(disk.write_file_header());
        ops.push(FileOp::SyncAll);
        assert(file_op::op_views(ops@) =~= create_ops());
        (disk, ops)
    }

    /// Opens an existing database file of `file_len` bytes that begins with
    /// `first_page`, and validates its header. A file with less than one page
    /// is refused whatever `first_page` is.
    pub fn open(file_len: u64, first_page: &Page) -> (result: Result<Self>)
        ensures
            match result {
                Ok(disk) => {
                    &&& disk.wf()
                    &&& opened(file_len as nat, first_page@) == Ok::<u64, ErrorView>(disk.count())
                },
                Err(err) => opened(file_len as nat, first_page@) == Err::<u64, ErrorView>(err@),
            },
    {
        if file_len < PAGE_SIZE as u64 {
            let mut msg = "file is ".to_owned();
            msg.append(text::decimal(file_len as u128).as_str());
            msg.append(" bytes, too small to be an oxenDB database");
            return Err(Error::UnsupportedFormat(msg));
        }
        let header = FileHeader::decode(first_page)?;
        proof {
            file_header::lemma_decoded_count_positive(first_page@);
        }
        // A file longer than the header claims is expected after a crash
        // between checkpoints. A shorter file means pages were lost.
        let expected_len: u128 = header.page_count as u128 * PAGE_SIZE as u128;
        if (file_len as u128) < expected_len {
            let mut msg = "file is ".to_owned();
            msg.append(text::decimal(file_len as u128).as_str());
            msg.append(" bytes but header lists ");
            msg.append(text::decimal(header.page_count as u128).as_str());
            msg.append(" pages (");
            msg.append(text::decimal(expected_len).as_str());
            msg.append(" bytes)");
            return Err(Error::Corruption(msg));
        }
        Ok(DiskManager { header })
    }

    /// Number of pages in the file, including the header page.
    pub fn page_count(&self) -> (count: u64)
        ensures
            count == self.count(),
    {
        self.header.page_count
    }

    /// Where page `id` is to be read from; what was found there goes to
    /// [`DiskManager::read_page`].
    pub fn page_offset(&self, id: PageId) -> (result: Result<u64>)
        requires
            self.wf(),
        ensures
            match result {
                Ok(offset) => {
                    &&& data_page_error(id, self.count()) is None
                    &&& offset == id.0 * PAGE_SIZE
                },
                Err(err) => data_page_error(id, self.count()) == Some(err@),
            },
    {
        self.check_data_page(id)?;
        Ok(id.file_offset())
    }

    /// Verifies a data page that was read from the file.
    pub fn read_page(
        &self,
        id: PageId,
        found: std::result::Result<Page, std::io::Error>,
    ) -> (result: Result<Page>)
        ensures
            match (data_page_error(id, self.count()), found) {
                (Some(err), _) => result matches Err(e) && e@ == err,
                (None, Err(io)) => result matches Err(e) && e@ == ErrorView::Io(io),
                (None, Ok(found)) => match result {
                    Ok(page) => page_read(id, self.count(), found@) == Ok::<Seq<u8>, ErrorView>(
                        page@,
                    ),
                    Err(err) => page_read(id, self.count(), found@) == Err::<Seq<u8>, ErrorView>(
                        err@,
                    ),
                },
            },
    {
        self.check_data_page(id)?;
        match found {
            Ok(page) => {
                page.verify(id)?;
                Ok(page)
            },
            Err(err) => Err(Error::Io(err)),
        }
    }

    /// Seals a data page and returns the write that stores it. Does not
    /// fsync; see [`DiskManager::sync`].
    pub fn write_page(&self, id: PageId, page: &mut Page) -> (result: Result<FileOp>)
        requires
            self.wf(),
        ensures
            match result {
                Ok(op) => {
                    &&& write_error(id, self.count(), old(page)@) is None
                    &&& final(page)@ == page::sealed(old(page)@)
                    &&& op@ == page_write(id, page::sealed(old(page)@))
                },
                Err(err) => {
                    &&& write_error(id, self.count(), old(page)@) == Some(err@)
                    &&& final(page)@ == old(page)@
                },
            },
    {
        self.check_data_page(id)?;
        let stored = page.page_id();
        if stored != id {
            let mut msg = "refusing to write ".to_owned();
            msg.append(stored.to_string().as_str());
            msg.append(" to the location of ");
            msg.append(id.to_string().as_str());
            return Err(Error::InvalidArgument(msg));
        }
        page.seal();
        Ok(FileOp::write(id.file_offset(), page.as_bytes()))
    }

    /// What is to be done to append a new [`PageType::Free`] page to the
    /// file; the outcome goes to [`DiskManager::allocated`].
    pub fn allocate_page(&self) -> (ops: Vec<FileOp>)
        requires
            self.wf(),
            self.count() < MAX_PAGE_COUNT,
        ensures
            file_op::op_views(ops@) == allocate_ops(self.count()),
    {
        let id = PageId(self.header.page_count);
        let mut page = Page::new(id, PageType::Free);
        page.seal();
        let updated = FileHeader { page_count: self.header.page_count + 1 };
        let header_page = updated.encode();
        let mut ops: Vec<FileOp> = Vec::new();
        ops.push(FileOp::write(id.file_offset(), page.as_bytes()));
        ops.push(FileOp::write(PageId::header().file_offset(), header_page.as_bytes()));
        assert(file_op::op_views(ops@) =~= allocate_ops(self.count()));
        ops
    }

    /// Takes the outcome of [`DiskManager::allocate_page`] and returns the id
    /// of the new page.
    pub fn allocated(&mut self, outcome: std::result::Result<(), std::io::Error>) -> (result:
        Result<PageId>)
        requires
            old(self).wf(),
            old(self).count() < MAX_PAGE_COUNT,
        ensures
            final(self).wf(),
            final(self).count() == count_after(old(self).count(), outcome is Ok),
            match outcome {
                Ok(_) => result matches Ok(id) && id.0 == old(self).count(),
                Err(err) => result matches Err(e) && e@ == ErrorView::Io(err),
            },
    {
        match outcome {
            Ok(_) => {
                let id = PageId(self.header.page_count);
                self.header = FileHeader { page_count: self.header.page_count + 1 };
                Ok(id)
            },
            Err(err) => Err(Error::Io(err)),
        }
    }

    /// Sets the number of pages. A file never shrinks.
    pub fn set_page_count(&mut self, page_count: u64) -> (result: Result<()>)
        requires
            old(self).wf(),
            page_count <= MAX_PAGE_COUNT,
        ensures
            final(self).wf(),
            result is Ok <==> page_count >= old(self).count(),
            match result {
                Ok(_) => final(self).count() == page_count,
                Err(err) => {
                    &&& final(self).count() == old(self).count()
                    &&& err@ == ErrorView::InvalidArgument(
                        "cannot shrink the database from "@ + text::decimal_chars(
                            old(self).count() as nat,
                        ) + " to "@ + text::decimal_chars(page_count as nat) + " pages"@,
                    )
                },
            },
    {
        if page_count < self.header.page_count {
            let mut msg = "cannot shrink the database from ".to_owned();
            msg.append(text::decimal(self.header.page_count as u128).as_str());
            msg.append(" to ");
            msg.append(text::decimal(page_count as u128).as_str());
            msg.append(" pages");
            return Err(Error::InvalidArgument(msg));
        }
        self.header = FileHeader { page_count };
        Ok(())
    }

    /// The write that stores the header.
    pub fn write_file_header(&self) -> (op: FileOp)
        ensures
            op@ == page_write(PageId(0), file_header::encoded_header(self.count())),
    {
        let page = self.header.encode();
        FileOp::write(PageId::header().file_offset(), page.as_bytes())
    }

    /// Flushes all written data and metadata to stable storage.
    pub fn sync(&self) -> (op: FileOp)
        ensures
            op@ == FileOpView::SyncAll,
    {
        FileOp::SyncAll
    }

    fn check_data_page(&self, id: PageId) -> (result: Result<()>)
        ensures
            match result {
                Ok(_) => data_page_error(id, self.count()) is None,
                Err(err) => data_page_error(id, self.count()) == Some(err@),
            },
    {
        if id == PageId::header() {
            return Err(
                Error::InvalidArgument(
                    "page 0 is the file header and cannot be accessed as a data page".to_owned(),
                ),
            );
        }
        let page_count: u64 = self.page_count();
        if id.0 >= page_count {
            let mut msg = id.to_string();
            msg.append(" is out of bounds (file has ");
            msg.append(text::decimal(page_count as u128).as_str());
            msg.append(" pages)");
            return Err(Error::InvalidArgument(msg));
        }
        Ok(())
    }
}

/// A page that was written is read back; every other page is as it was.
pub proof fn lemma_page_written(file: Seq<u8>, id: PageId, page: Seq<u8>)
    requires
        page.len() == PAGE_SIZE,
    ensures
        ({
            let after = file_op::applied(file, page_write(id, page));
            &&& after.len() == if file.len() < (id.0 + 1) * PAGE_SIZE {
                ((id.0 + 1) * PAGE_SIZE) as nat
            } else {
                file.len()
            }
            &&& page_of(after, id) == page
            &&& forall|other: PageId|
                other != id ==> #[trigger] page_of(after, other) == page_of(file, other)
        }),
{
    let after = file_op::applied(file, page_write(id, page));
    assert(page_of(after, id) =~= page);
    assert forall|other: PageId| other != id implies #[trigger] page_of(after, other) == page_of(
        file,
        other,
    ) by {
        assert(page_of(after, other) =~= page_of(file, other));
    }
}

/// A page that was written reads back as it was sealed. A page whose header is
/// not valid can be written, and is refused when it is read.
pub proof fn lemma_written_page_reads_back(
    file: Seq<u8>,
    id: PageId,
    page_count: u64,
    page: Seq<u8>,
)
    requires
        page.len() == PAGE_SIZE,
        write_error(id, page_count, page) is None,
    ensures
        ({
            let stored = page::sealed(page);
            let after = file_op::applied(file, page_write(id, stored));
            let read = page_read(id, page_count, page_of(after, id));
            if page::decoded_header(page, id) is Ok {
                read == Ok::<Seq<u8>, ErrorView>(stored)
            } else {
                read is Err
            }
        }),
{
    let stored = page::sealed(page);
    page::lemma_seal_sets_checksum(page);
    lemma_page_written(file, id, stored);
    page::lemma_sealed_page_is_valid(page, id);
}

/// A file is its length and its pages.
pub proof fn lemma_same_file(a: Seq<u8>, b: Seq<u8>)
    requires
        a.len() == b.len(),
        a.len() <= (u64::MAX + 1) * PAGE_SIZE,
        forall|id: PageId| #[trigger] page_of(a, id) == page_of(b, id),
    ensures
        a == b,
{
    assert forall|i: int| 0 <= i < a.len() implies a[i] == b[i] by {
        let id = PageId((i / PAGE_SIZE as int) as u64);
        let at = i % PAGE_SIZE as int;
        assert(page_of(a, id)[at] == page_of(b, id)[at]);
    }
    assert(a =~= b);
}

/// A newly created database opens with the header page alone.
pub proof fn lemma_created_file_opens()
    ensures
        opened_file(file_op::all_applied(Seq::empty(), create_ops())) == Ok::<u64, ErrorView>(1),
{
    let header = file_header::encoded_header(1);
    file_header::lemma_header_round_trips(1);
    file_op::lemma_two_applied(Seq::empty(), page_write(PageId(0), header), FileOpView::SyncAll);
    lemma_page_written(Seq::empty(), PageId(0), header);
}

/// Appending a page makes the file one page longer and leaves every earlier
/// data page as it was. If power is lost after the first of the two writes,
/// the file still opens as before.
pub proof fn lemma_allocated_page(file: Seq<u8>, page_count: u64)
    requires
        opened_file(file) == Ok::<u64, ErrorView>(page_count),
        1 <= page_count < MAX_PAGE_COUNT,
    ensures
        ({
            let id = PageId(page_count);
            let ops = allocate_ops(page_count);
            let halfway = file_op::applied(file, ops[0]);
            let after = file_op::all_applied(file, ops);
            &&& opened_file(halfway) == Ok::<u64, ErrorView>(page_count)
            &&& opened_file(after) == Ok::<u64, ErrorView>((page_count + 1) as u64)
            &&& page::verified_header(page_of(after, id), id) matches Ok(header)
                && header.page_type == PageType::Free
            &&& forall|other: PageId|
                0 < other.0 < page_count ==> #[trigger] page_of(after, other) == page_of(
                    file,
                    other,
                ) && page_of(halfway, other) == page_of(file, other)
        }),
{
    let id = PageId(page_count);
    let fresh = page::new_page(id, PageType::Free);
    let new_header = file_header::encoded_header((page_count + 1) as u64);
    let halfway = file_op::applied(file, page_write(id, page::sealed(fresh)));
    page::lemma_seal_sets_checksum(fresh);
    page::lemma_sealed_page_is_valid(fresh, id);
    bytes::lemma_le_u64(page_count);
    assert(fresh.subrange(8, 16) =~= bytes::le_bytes(page_count as nat, 8));
    file_header::lemma_header_round_trips((page_count + 1) as u64);
    file_op::lemma_two_applied(
        file,
        page_write(id, page::sealed(fresh)),
        page_write(PageId(0), new_header),
    );
    lemma_page_written(file, id, page::sealed(fresh));
    lemma_page_written(halfway, PageId(0), new_header);
}

/// A file cut off before its last page is corrupt.
pub proof fn lemma_truncated_file_rejected(file: Seq<u8>, page_count: u64, cut: int)
    requires
        opened_file(file) == Ok::<u64, ErrorView>(page_count),
        PAGE_SIZE <= cut < page_count * PAGE_SIZE,
    ensures
        opened_file(file.take(cut)) matches Err(ErrorView::Corruption(_)),
{
    assert(page_of(file.take(cut), PageId(0)) =~= page_of(file, PageId(0)));
}

/// A file opens exactly if it has a whole first page, that page is a header,
/// and the file has every page that the header lists. It may have more. The
/// page count is the header's.
pub proof fn lemma_file_opens(file_len: nat, first_page: Seq<u8>)
    ensures
        match opened(file_len, first_page) {
            Ok(page_count) => {
                &&& file_len >= 4096
                &&& file_header::decoded_header(first_page) == Ok::<FileHeader, ErrorView>(
                    FileHeader { page_count },
                )
                &&& page_count * 4096 <= file_len
            },
            Err(err) => {
                ||| file_len < 4096 && err is UnsupportedFormat
                ||| file_len >= 4096 && file_header::decoded_header(first_page) == Err::<
                    FileHeader,
                    ErrorView,
                >(err)
                ||| file_len >= 4096 && err is Corruption && (file_header::decoded_header(
                    first_page,
                ) matches Ok(header) && file_len < header.page_count * 4096)
            },
        },
{
}

/// The data pages of a file are the pages from 1 up to the page count.
pub proof fn lemma_data_pages(id: PageId, page_count: u64)
    ensures
        data_page_error(id, page_count) is None <==> 0 < id.0 < page_count,
        data_page_error(id, page_count) matches Some(err) ==> err is InvalidArgument,
{
}

/// Reading a page gives exactly what was found, if it is a data page and what
/// was found is valid as that page; nothing that is not valid is handed out.
pub proof fn lemma_page_is_verified(id: PageId, page_count: u64, found: Seq<u8>)
    ensures
        match page_read(id, page_count, found) {
            Ok(page) => {
                &&& page == found
                &&& 0 < id.0 < page_count
                &&& page::verified_header(found, id) is Ok
            },
            Err(err) => {
                ||| !(0 < id.0 < page_count) && err is InvalidArgument
                ||| 0 < id.0 < page_count && page::verified_header(found, id) == Err::<
                    page::PageHeader,
                    ErrorView,
                >(err)
            },
        },
{
}

/// A page can be written exactly where it belongs: it has to be a data page
/// and to hold its own id.
pub proof fn lemma_page_goes_where_it_belongs(id: PageId, page_count: u64, page: Seq<u8>)
    ensures
        write_error(id, page_count, page) is None <==> 0 < id.0 < page_count && page::stored_id(
            page,
        ) == id,
        write_error(id, page_count, page) matches Some(err) ==> err is InvalidArgument,
{
}

/// A page is written to, and read from, the place `id` times the page size.
pub proof fn lemma_page_place(file: Seq<u8>, id: PageId, page: Seq<u8>, i: int)
    requires
        0 <= i < 4096,
    ensures
        page_of(file, id).len() == 4096,
        id.0 * 4096 + i < file.len() ==> page_of(file, id)[i] == file[id.0 * 4096 + i],
        page_write(id, page) == (FileOpView::Write {
            offset: (id.0 * 4096) as nat,
            bytes: page,
        }),
{
}

/// A page that was allocated is the next one, valid, free and empty, and the
/// header counts it.
pub proof fn lemma_allocated_page_is_free(file: Seq<u8>, page_count: u64)
    requires
        1 <= page_count < MAX_PAGE_COUNT,
    ensures
        ({
            let id = PageId(page_count);
            let after = file_op::all_applied(file, allocate_ops(page_count));
            let page = page_of(after, id);
            &&& page::verified_header(page, id) matches Ok(header) && header.page_type is Free
                && header.lsn == 0
            &&& page.skip(24) == Seq::new(4072, |i: int| 0u8)
            &&& page_of(after, PageId(0)) == file_header::encoded_header((page_count + 1) as u64)
            &&& (page_count + 1) * 4096 <= after.len()
        }),
{
    let id = PageId(page_count);
    let new = page::new_page(id, PageType::Free);
    let stored = page::sealed(new);
    let header = file_header::encoded_header((page_count + 1) as u64);
    let ops = allocate_ops(page_count);
    let first = file_op::applied(file, ops[0]);
    file_op::lemma_two_applied(file, ops[0], ops[1]);
    assert(ops =~= seq![ops[0], ops[1]]);
    page::lemma_new_page_is_empty(id, PageType::Free);
    page::lemma_seal_sets_checksum(new);
    page::lemma_sealed_page_is_valid(new, id);
    file_header::lemma_header_round_trips((page_count + 1) as u64);
    lemma_page_written(file, id, stored);
    lemma_page_written(first, PageId(0), header);
    page::lemma_sealed_layout(new);
    assert(stored.skip(24) =~= new.skip(24));
    assert(page_of(file_op::applied(first, ops[1]), id) == page_of(first, id));
}

/// Allocating a page does not touch the others. The page is written before the
/// header counts it: if only the first write is done, the header and every page
/// that it counts are as they were, and the file opens as before. What could not
/// be appended is not counted.
pub proof fn lemma_allocation_order(file: Seq<u8>, page_count: u64, other: PageId)
    requires
        1 <= page_count < MAX_PAGE_COUNT,
        page_count * 4096 <= file.len(),
    ensures
        ({
            let ops = allocate_ops(page_count);
            let first = file_op::all_applied(file, ops.take(1));
            let after = file_op::all_applied(file, ops);
            &&& ops.len() == 2
            &&& file.len() <= first.len() <= after.len()
            &&& other.0 < page_count ==> page_of(first, other) == page_of(file, other)
            &&& 0 < other.0 < page_count ==> page_of(after, other) == page_of(file, other)
            &&& opened(file.len(), page_of(file, PageId(0))) == Ok::<u64, ErrorView>(page_count)
                ==> opened(first.len(), page_of(first, PageId(0))) == Ok::<u64, ErrorView>(
                page_count,
            )
            &&& opened(after.len(), page_of(after, PageId(0))) == Ok::<u64, ErrorView>(
                (page_count + 1) as u64,
            )
            &&& count_after(page_count, true) == page_count + 1
            &&& count_after(page_count, false) == page_count
        }),
{
    let id = PageId(page_count);
    let new = page::new_page(id, PageType::Free);
    let stored = page::sealed(new);
    let header = file_header::encoded_header((page_count + 1) as u64);
    let ops = allocate_ops(page_count);
    let first = file_op::applied(file, ops[0]);
    let after = file_op::applied(first, ops[1]);
    file_op::lemma_two_applied(file, ops[0], ops[1]);
    assert(ops =~= seq![ops[0], ops[1]]);
    assert(ops.take(1) =~= seq![ops[0]]);
    assert(ops.take(1).drop_last() =~= Seq::empty());
    assert(file_op::all_applied(file, Seq::empty()) == file);
    assert(file_op::all_applied(file, ops.take(1)) == first);
    page::lemma_new_page_is_empty(id, PageType::Free);
    page::lemma_seal_sets_checksum(new);
    file_header::lemma_header_round_trips((page_count + 1) as u64);
    lemma_page_written(file, id, stored);
    lemma_page_written(first, PageId(0), header);
    lemma_allocated_page_is_free(file, page_count);
}

} // verus!
