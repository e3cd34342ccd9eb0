//! Fixed-size pages, the unit of disk I/O and caching.
//!
//! # Page header layout
//!
//! Every page except the file header page starts with a 24-byte header.
//! All integers are little-endian.
//!
//! | Offset | Size | Field                                        |
//! |--------|------|----------------------------------------------|
//! | 0      | 4    | CRC32C of bytes `4..PAGE_SIZE`               |
//! | 4      | 1    | Page type                                    |
//! | 5      | 3    | Reserved, must be zero                       |
//! | 8      | 8    | Page id (detects misdirected reads/writes)   |
//! | 16     | 8    | LSN of the last WAL record applied to page   |

use vstd::prelude::*;
use vstd::string::*;

use crate::error::{Error, ErrorView, Result};
use crate::storage::{bytes, checksum};
use crate::text;

verus! {

/// Size of every page in bytes.
///
/// 4 KiB matches the block size of common filesystems and SSDs, so a page
/// write maps to a single device block.
pub const PAGE_SIZE: usize = 4096;

/// Size of the header at the start of every data page.
pub const PAGE_HEADER_SIZE: usize = 24;

/// Identifies a page by its position in the database file.
///
/// Page `n` lives at byte offset `n * PAGE_SIZE`. Page 0 holds the file header.
#[derive(Debug, Clone, Copy, PartialEq, Eq, PartialOrd, Ord, Hash, Structural)]
pub struct PageId(pub u64);

/// How a page is named in messages.
pub open spec fn page_name(id: PageId) -> Seq<char> {
    "page "@ + text::decimal_chars(id.0 as nat)
}

impl PageId {
    /// The page holding the database file header.
    #[verifier::allow_in_spec]
    pub fn header() -> PageId
        returns
            PageId(0),
    {
        PageId(0)
    }

    /// Byte offset of this page within the database file.
    pub fn file_offset(self) -> (offset: u64)
        requires
            self.0 * PAGE_SIZE <= u64::MAX,
        ensures
            offset == self.0 * PAGE_SIZE,
    {
        self.0 * PAGE_SIZE as u64
    }

    /// The page's name in messages.
    pub fn to_string(self) -> (name: String)
        ensures
            name@ == page_name(self),
    {
        let mut name = "page ".to_owned();
        let number = text::decimal(self.0 as u128);
        name.append(number.as_str());
        name
    }
}

/// What a page is used for.
///
/// Zero is deliberately not a valid type so that an all-zero page (for
/// example, a hole in a sparse file) is never mistaken for real data.
#[derive(Debug, Clone, Copy, PartialEq, Eq, Structural)]
pub enum PageType {
    /// Allocated but not in use.
    Free,
    /// Holds table rows.
    Heap,
}

/// The byte a page type is stored as.
pub open spec fn type_code(page_type: PageType) -> u8 {
    match page_type {
        PageType::Free => 1,
        PageType::Heap => 2,
    }
}

/// The page type a byte stands for, or the byte itself if it stands for none.
pub open spec fn type_of_code(code: u8) -> std::result::Result<PageType, u8> {
    if code == 1 {
        Ok(PageType::Free)
    } else if code == 2 {
        Ok(PageType::Heap)
    } else {
        Err(code)
    }
}

impl PageType {
    /// The byte this type is stored as.
    pub fn code(self) -> (code: u8)
        ensures
            code == type_code(self),
    {
        match self {
            PageType::Free => 1,
            PageType::Heap => 2,
        }
    }
}

impl TryFrom<u8> for PageType {
    type Error = u8;

    fn try_from(value: u8) -> (r: std::result::Result<Self, u8>) {
        match value {
            1 => Ok(PageType::Free),
            2 => Ok(PageType::Heap),
            other => Err(other),
        }
    }
}

impl vstd::std_specs::convert::TryFromSpecImpl<u8> for PageType {
    open spec fn obeys_try_from_spec() -> bool {
        true
    }

    open spec fn try_from_spec(value: u8) -> std::result::Result<Self, u8> {
        type_of_code(value)
    }
}

/// Decoded page header fields.
#[derive(Debug, Clone, Copy, PartialEq, Eq, Structural)]
pub struct PageHeader {
    /// What the page holds.
    pub page_type: PageType,
    /// The page's own id, as written when the page was sealed.
    pub page_id: PageId,
    /// Log sequence number of the last change applied to the page.
    pub lsn: u64,
}

/// A page of zeros.
pub open spec fn zero_page() -> Seq<u8> {
    Seq::new(PAGE_SIZE as nat, |i: int| 0u8)
}

/// A zeroed page with its header fields set, before sealing.
pub open spec fn new_page(page_id: PageId, page_type: PageType) -> Seq<u8> {
    bytes::splice(zero_page().update(4, type_code(page_type)), 8, bytes::le_bytes(page_id.0 as nat, 8))
}

/// The checksum stored in a page.
pub open spec fn stored_checksum(page: Seq<u8>) -> u32 {
    bytes::field(page, 0, 4) as u32
}

/// The checksum of a page's contents.
pub open spec fn computed_checksum(page: Seq<u8>) -> u32 {
    checksum::crc32c_of(page.skip(4))
}

/// The page with its checksum filled in.
pub open spec fn sealed(page: Seq<u8>) -> Seq<u8> {
    bytes::splice(page, 0, bytes::le_bytes(computed_checksum(page) as nat, 4))
}

/// The id stored in a page.
pub open spec fn stored_id(page: Seq<u8>) -> PageId {
    PageId(bytes::field(page, 8, 16) as u64)
}

/// The LSN stored in a page.
pub open spec fn stored_lsn(page: Seq<u8>) -> u64 {
    bytes::field(page, 16, 24) as u64
}

/// The page with another LSN.
pub open spec fn with_lsn(page: Seq<u8>, lsn: u64) -> Seq<u8> {
    bytes::splice(page, 16, bytes::le_bytes(lsn as nat, 8))
}

/// The header of a page that is being read as `expected`, or why it has none.
/// The checksum and the id are not looked at.
pub open spec fn decoded_header(page: Seq<u8>, expected: PageId) -> std::result::Result<
    PageHeader,
    ErrorView,
> {
    match type_of_code(page[4]) {
        Err(raw) => Err(
            ErrorView::Corruption(
                page_name(expected) + ": unknown page type "@ + text::decimal_chars(raw as nat),
            ),
        ),
        Ok(page_type) => if page[5] != 0 || page[6] != 0 || page[7] != 0 {
            Err(ErrorView::Corruption(page_name(expected) + ": reserved header bytes are set"@))
        } else {
            Ok(
                PageHeader {
                    page_type,
                    page_id: stored_id(page),
                    lsn: stored_lsn(page),
                },
            )
        },
    }
}

/// The header of a page that is valid as `expected`, or what is wrong with it.
pub open spec fn verified_header(page: Seq<u8>, expected: PageId) -> std::result::Result<
    PageHeader,
    ErrorView,
> {
    if stored_checksum(page) != computed_checksum(page) {
        Err(
            ErrorView::Corruption(
                page_name(expected) + ": checksum mismatch (stored "@ + text::hex_chars(
                    stored_checksum(page),
                ) + ", computed "@ + text::hex_chars(computed_checksum(page)) + ")"@,
            ),
        )
    } else {
        match decoded_header(page, expected) {
            Err(err) => Err(err),
            Ok(header) => if header.page_id != expected {
                Err(
                    ErrorView::Corruption(
                        page_name(expected) + ": header says it is "@ + page_name(header.page_id),
                    ),
                )
            } else {
                Ok(header)
            },
        }
    }
}

/// An owned, heap-allocated page buffer.
///
/// Pages are boxed so moving a `Page` moves a pointer rather than 4 KiB.
#[derive(Debug, PartialEq, Eq)]
pub struct Page {
    data: Box<[u8; PAGE_SIZE]>,
}

impl View for Page {
    type V = Seq<u8>;

    closed spec fn view(&self) -> Seq<u8> {
        self.data@
    }
}

/// A page always has `PAGE_SIZE` bytes.
pub broadcast proof fn lemma_page_len(page: Page)
    ensures
        #[trigger] page@.len() == PAGE_SIZE,
{
}

/// A page is its bytes.
pub proof fn lemma_page_eq(a: Page, b: Page)
    requires
        a@ == b@,
    ensures
        a == b,
{
    assert(*a.data =~= *b.data) by {
        assert forall|i: int| 0 <= i < PAGE_SIZE implies a.data@[i] == b.data@[i] by {
            assert(a@[i] == b@[i]);
        }
    }
}

impl Page {
    /// Returns a page with every byte set to zero.
    pub fn zeroed() -> (page: Self)
        ensures
            page@ == zero_page(),
    {
        let page = Page { data: Box::new([0u8;PAGE_SIZE]) };
        assert(page@ =~= zero_page());
        page
    }

    /// Returns a zeroed page with an initialized header and LSN 0.
    ///
    /// The checksum is not valid until [`Page::seal`] is called.
    pub fn new(page_id: PageId, page_type: PageType) -> (page: Self)
        ensures
            page@ == new_page(page_id, page_type),
    {
        let mut page = Page::zeroed();
        page.data[4] = page_type.code();
        bytes::set_u64(page.as_bytes_mut(), 8, page_id.0);
        page
    }

    /// The id stored in the header.
    pub fn page_id(&self) -> (id: PageId)
        ensures
            id == stored_id(self@),
    {
        PageId(bytes::get_u64(self.as_bytes(), 8))
    }

    /// Updates the LSN stored in the header.
    pub fn set_lsn(&mut self, lsn: u64)
        ensures
            final(self)@ == with_lsn(old(self)@, lsn),
    {
        bytes::set_u64(self.as_bytes_mut(), 16, lsn);
    }

    /// Bytes after the header, available to the page's owner.
    pub fn payload(&self) -> (payload: &[u8])
        ensures
            payload@ == self@.skip(PAGE_HEADER_SIZE as int),
    {
        self.data.as_slice().split_at(PAGE_HEADER_SIZE).1
    }

    /// Mutable bytes after the header.
    pub fn payload_mut(&mut self) -> (payload: &mut [u8])
        ensures
            payload@ == old(self)@.skip(PAGE_HEADER_SIZE as int),
            final(self)@ == old(self)@.take(PAGE_HEADER_SIZE as int) + final(payload)@,
    {
        let array: &mut [u8; PAGE_SIZE] = &mut self.data;
        let bytes: &mut [u8] = array;
        bytes.split_at_mut(PAGE_HEADER_SIZE).1
    }

    /// Computes and stores the checksum. Call before writing to disk.
    pub fn seal(&mut self)
        ensures
            final(self)@ == sealed(old(self)@),
    {
        let checksum: u32 = checksum::crc32c(self.data.as_slice().split_at(4).1);
        bytes::set_u32(self.as_bytes_mut(), 0, checksum);
    }

    /// Validates a page read from disk as `expected` and returns its header.
    ///
    /// Fails with [`Error::Corruption`] if the checksum does not match, the
    /// header is malformed, or the page claims to be a different page.
    pub fn verify(&self, expected: PageId) -> (result: Result<PageHeader>)
        ensures
            match result {
                Ok(header) => verified_header(self@, expected) == Ok::<PageHeader, ErrorView>(header),
                Err(err) => verified_header(self@, expected) == Err::<PageHeader, ErrorView>(err@),
            },
    {
        let stored: u32 = bytes::get_u32(self.as_bytes(), 0);
        let actual: u32 = checksum::crc32c(self.data.as_slice().split_at(4).1);
        if stored != actual {
            let mut msg = expected.to_string();
            msg.append(": checksum mismatch (stored ");
            msg.append(text::hex(stored).as_str());
            msg.append(", computed ");
            msg.append(text::hex(actual).as_str());
            msg.append(")");
            return Err(Error::Corruption(msg));
        }
        let header = self.decode_header(expected)?;
        if header.page_id != expected {
            let mut msg = expected.to_string();
            msg.append(": header says it is ");
            msg.append(header.page_id.to_string().as_str());
            return Err(Error::Corruption(msg));
        }
        Ok(header)
    }

    fn decode_header(&self, expected: PageId) -> (result: Result<PageHeader>)
        ensures
            match result {
                Ok(header) => decoded_header(self@, expected) == Ok::<PageHeader, ErrorView>(header),
                Err(err) => decoded_header(self@, expected) == Err::<PageHeader, ErrorView>(err@),
            },
    {
        let page_type = match PageType::try_from(self.data[4]) {
            Ok(page_type) => page_type,
            Err(raw) => {
                let mut msg = expected.to_string();
                msg.append(": unknown page type ");
                msg.append(text::decimal(raw as u128).as_str());
                return Err(Error::Corruption(msg));
            },
        };
        if self.data[5] != 0 || self.data[6] != 0 || self.data[7] != 0 {
            let mut msg = expected.to_string();
            msg.append(": reserved header bytes are set");
            return Err(Error::Corruption(msg));
        }
        let page_id = self.page_id();
        let lsn: u64 = bytes::get_u64(self.as_bytes(), 16);
        Ok(PageHeader { page_type, page_id, lsn })
    }

    /// Read-only view of the raw page bytes.
    pub fn as_bytes(&self) -> (bytes: &[u8; PAGE_SIZE])
        ensures
            bytes@ == self@,
    {
        &self.data
    }

    /// Mutable view of the raw page bytes.
    pub fn as_bytes_mut(&mut self) -> (bytes: &mut [u8; PAGE_SIZE])
        ensures
            bytes@ == old(self)@,
            final(self)@ == final(bytes)@,
    {
        &mut self.data
    }
}

impl Clone for Page {
    fn clone(&self) -> (copy: Self)
        ensures
            copy@ == self@,
    {
        Page { data: Box::new(*self.data) }
    }
}

impl Default for Page {
    fn default() -> (page: Self)
        ensures
            page@ == zero_page(),
    {
        Self::zeroed()
    }
}

/// Sealing changes nothing but the checksum, and makes that one right.
pub proof fn lemma_seal_sets_checksum(page: Seq<u8>)
    requires
        page.len() == PAGE_SIZE,
    ensures
        sealed(page).len() == PAGE_SIZE,
        sealed(page).skip(4) == page.skip(4),
        stored_checksum(sealed(page)) == computed_checksum(sealed(page)),
{
    let checksum = computed_checksum(page);
    bytes::lemma_le_u32(checksum);
    assert(sealed(page).skip(4) =~= page.skip(4));
    assert(sealed(page).subrange(0, 4) =~= bytes::le_bytes(checksum as nat, 4));
}

/// Sealing a page that is already sealed changes nothing.
pub proof fn lemma_seal_idempotent(page: Seq<u8>)
    requires
        page.len() == PAGE_SIZE,
    ensures
        sealed(sealed(page)) == sealed(page),
{
    lemma_seal_sets_checksum(page);
    bytes::lemma_le_u32(computed_checksum(page));
    assert(sealed(sealed(page)) =~= sealed(page));
}

/// A sealed page is valid exactly as the page its header names, if the
/// header's type is known and its reserved bytes are zero.
pub proof fn lemma_sealed_page_is_valid(page: Seq<u8>, expected: PageId)
    requires
        page.len() == PAGE_SIZE,
    ensures
        verified_header(sealed(page), expected) is Ok <==> {
            &&& type_of_code(page[4]) is Ok
            &&& page[5] == 0 && page[6] == 0 && page[7] == 0
            &&& stored_id(page) == expected
        },
        verified_header(sealed(page), expected) is Ok ==> decoded_header(page, expected)
            == verified_header(sealed(page), expected),
{
    lemma_seal_sets_checksum(page);
    bytes::lemma_le_u32(computed_checksum(page));
    assert(sealed(page).subrange(8, 16) =~= page.subrange(8, 16));
    assert(sealed(page).subrange(16, 24) =~= page.subrange(16, 24));
}

/// A page built with [`Page::new`], given any LSN and payload and then
/// sealed, verifies and gives back its type, id, LSN and payload.
pub proof fn lemma_page_round_trips(
    page_id: PageId,
    page_type: PageType,
    lsn: u64,
    payload: Seq<u8>,
)
    requires
        payload.len() == PAGE_SIZE - PAGE_HEADER_SIZE,
    ensures
        ({
            let with_lsn = with_lsn(new_page(page_id, page_type), lsn);
            let page = sealed(with_lsn.take(PAGE_HEADER_SIZE as int) + payload);
            &&& verified_header(page, page_id) == Ok::<PageHeader, ErrorView>(
                PageHeader { page_type, page_id, lsn },
            )
            &&& page.skip(PAGE_HEADER_SIZE as int) == payload
        }),
{
    let with_lsn = with_lsn(new_page(page_id, page_type), lsn);
    let page = with_lsn.take(PAGE_HEADER_SIZE as int) + payload;
    bytes::lemma_le_u64(page_id.0);
    bytes::lemma_le_u64(lsn);
    bytes::lemma_le_u32(computed_checksum(page));
    assert(page.subrange(8, 16) =~= bytes::le_bytes(page_id.0 as nat, 8));
    assert(page.subrange(16, 24) =~= bytes::le_bytes(lsn as nat, 8));
    lemma_sealed_page_is_valid(page, page_id);
    assert(sealed(page).skip(PAGE_HEADER_SIZE as int) =~= payload);
}

/// Changing one byte of a valid page, by one or more of its bits, makes it
/// invalid.
pub proof fn lemma_page_change_detected(page: Seq<u8>, expected: PageId, at: int, value: u8)
    requires
        page.len() == PAGE_SIZE,
        verified_header(page, expected) is Ok,
        0 <= at < PAGE_SIZE,
        value != page[at],
    ensures
        verified_header(page.update(at, value), expected) matches Err(ErrorView::Corruption(_)),
{
    let changed = page.update(at, value);
    bytes::lemma_pow256();
    bytes::lemma_le_value_bound(page.subrange(0, 4));
    bytes::lemma_le_value_bound(changed.subrange(0, 4));
    if at < 4 {
        assert(changed.skip(4) =~= page.skip(4));
        assert(changed.subrange(0, 4)[at] != page.subrange(0, 4)[at]);
        if bytes::field(changed, 0, 4) == bytes::field(page, 0, 4) {
            bytes::lemma_le_value_injective(changed.subrange(0, 4), page.subrange(0, 4));
        }
    } else {
        assert(changed.subrange(0, 4) =~= page.subrange(0, 4));
        assert(changed.skip(4) =~= page.skip(4).update(at - 4, value));
        checksum::lemma_detects_byte_change(page.skip(4), at - 4, value);
    }
}

/// A page is valid as at most one page id: a page read from the wrong place
/// is rejected.
pub proof fn lemma_misdirected_page_rejected(page: Seq<u8>, a: PageId, b: PageId)
    requires
        verified_header(page, a) is Ok,
        a != b,
    ensures
        verified_header(page, b) matches Err(ErrorView::Corruption(_)),
{
}

/// An all-zero page is never valid.
pub proof fn lemma_zero_page_rejected(expected: PageId)
    ensures
        verified_header(zero_page(), expected) matches Err(ErrorView::Corruption(_)),
{
}

/// A valid page is sealed: sealing it again changes nothing.
pub proof fn lemma_valid_page_is_sealed(page: Seq<u8>, id: PageId)
    requires
        page.len() == PAGE_SIZE,
        verified_header(page, id) is Ok,
    ensures
        sealed(page) == page,
        stored_id(page) == id,
{
    bytes::lemma_pow256();
    bytes::lemma_le_value_bound(page.subrange(0, 4));
    bytes::lemma_le_value_bytes(page.subrange(0, 4));
    assert(sealed(page) =~= page);
}

/// A page type is stored as a byte of its own: 1 for a free page, 2 for a heap
/// page. No other byte stands for a type.
pub proof fn lemma_page_types(page_type: PageType, code: u8)
    ensures
        type_code(PageType::Free) == 1,
        type_code(PageType::Heap) == 2,
        type_of_code(type_code(page_type)) == Ok::<PageType, u8>(page_type),
        type_of_code(code) is Ok <==> code == 1 || code == 2,
        type_of_code(code) matches Err(raw) ==> raw == code,
{
}

/// A new page is empty: its payload is zeros and its LSN is 0. It has the type
/// and the id it was made with, and nothing else is set.
pub proof fn lemma_new_page_is_empty(page_id: PageId, page_type: PageType)
    ensures
        ({
            let page = new_page(page_id, page_type);
            &&& page.len() == 4096
            &&& page[4] == if page_type is Free {
                1u8
            } else {
                2u8
            }
            &&& page.subrange(8, 16) == bytes::le_bytes(page_id.0 as nat, 8)
            &&& stored_id(page) == page_id
            &&& stored_lsn(page) == 0
            &&& forall|i: int|
                0 <= i < 4096 && i != 4 && !(8 <= i < 16) ==> #[trigger] page[i] == 0
            &&& page.skip(PAGE_HEADER_SIZE as int) == Seq::new(4072, |i: int| 0u8)
        }),
{
    let page = new_page(page_id, page_type);
    bytes::lemma_le_u64(page_id.0);
    bytes::lemma_le_u64(0);
    assert(page.subrange(8, 16) =~= bytes::le_bytes(page_id.0 as nat, 8));
    assert(page.subrange(16, 24) =~= bytes::le_bytes(0, 8)) by {
        reveal_with_fuel(bytes::le_bytes, 9);
    }
    assert(page.skip(PAGE_HEADER_SIZE as int) =~= Seq::new(4072, |i: int| 0u8));
}

/// A page of zeros is nothing but zeros.
pub proof fn lemma_zero_page(i: int)
    ensures
        zero_page().len() == 4096,
        0 <= i < 4096 ==> zero_page()[i] == 0,
{
}

/// Setting the LSN sets the LSN and nothing else.
pub proof fn lemma_set_lsn(page: Seq<u8>, lsn: u64)
    requires
        page.len() == PAGE_SIZE,
    ensures
        with_lsn(page, lsn).len() == PAGE_SIZE,
        stored_lsn(with_lsn(page, lsn)) == lsn,
        forall|i: int|
            0 <= i < PAGE_SIZE && !(16 <= i < 24) ==> #[trigger] with_lsn(page, lsn)[i] == page[i],
{
    bytes::lemma_le_u64(lsn);
    assert(with_lsn(page, lsn).subrange(16, 24) =~= bytes::le_bytes(lsn as nat, 8));
}

/// Sealing puts the checksum of bytes 4 to the end into the first four bytes,
/// lowest first, and changes nothing else.
pub proof fn lemma_sealed_layout(page: Seq<u8>)
    requires
        page.len() == PAGE_SIZE,
    ensures
        sealed(page).len() == PAGE_SIZE,
        sealed(page).take(4) == bytes::le_bytes(checksum::crc32c_of(page.skip(4)) as nat, 4),
        forall|i: int| 4 <= i < PAGE_SIZE ==> #[trigger] sealed(page)[i] == page[i],
{
    bytes::lemma_le_u32(computed_checksum(page));
    assert(sealed(page).take(4) =~= bytes::le_bytes(
        checksum::crc32c_of(page.skip(4)) as nat,
        4,
    ));
}

/// A page is valid as page `id` exactly if its first four bytes are the
/// checksum of the others, its type byte is 1 or 2, the three bytes behind it
/// are zero, and the id in it is `id`. What is read from it is what is stored.
/// Anything else is corruption.
pub proof fn lemma_valid_page(page: Seq<u8>, id: PageId)
    requires
        page.len() == PAGE_SIZE,
    ensures
        verified_header(page, id) is Ok <==> {
            &&& page.take(4) == bytes::le_bytes(checksum::crc32c_of(page.skip(4)) as nat, 4)
            &&& page[4] == 1 || page[4] == 2
            &&& page[5] == 0 && page[6] == 0 && page[7] == 0
            &&& page.subrange(8, 16) == bytes::le_bytes(id.0 as nat, 8)
        },
        verified_header(page, id) matches Ok(header) ==> {
            &&& header.page_type is Free <==> page[4] == 1
            &&& header.page_id == id
            &&& page.subrange(16, 24) == bytes::le_bytes(header.lsn as nat, 8)
        },
        verified_header(page, id) matches Err(err) ==> err is Corruption,
{
    bytes::lemma_pow256();
    bytes::lemma_le_value_bound(page.subrange(0, 4));
    bytes::lemma_le_value_bound(page.subrange(8, 16));
    bytes::lemma_le_value_bound(page.subrange(16, 24));
    bytes::lemma_le_value_bytes(page.subrange(0, 4));
    bytes::lemma_le_value_bytes(page.subrange(8, 16));
    bytes::lemma_le_value_bytes(page.subrange(16, 24));
    bytes::lemma_le_u32(computed_checksum(page));
    bytes::lemma_le_u64(id.0);
    assert(page.take(4) =~= page.subrange(0, 4));
}

} // verus!
