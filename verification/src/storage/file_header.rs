//! The database file header stored in page 0.
//!
//! # Layout
//!
//! All integers are little-endian. Bytes after the listed fields are
//! reserved and written as zero.
//!
//! | Offset | Size | Field                                   |
//! |--------|------|-----------------------------------------|
//! | 0      | 4    | CRC32C of bytes `4..PAGE_SIZE`          |
//! | 4      | 8    | Magic bytes `b"oxenDB\0\0"`             |
//! | 12     | 4    | Format version                          |
//! | 16     | 4    | Page size in bytes                      |
//! | 20     | 8    | Page count, including this header page  |

use vstd::prelude::*;
use vstd::string::*;

use crate::error::{Error, ErrorView, Result};
use crate::storage::page::{Page, PAGE_SIZE};
use crate::storage::{bytes, checksum, page};
use crate::text;

verus! {

/// Identifies a file as an oxenDB database.
pub const MAGIC: [u8; 8] = [0x6F, 0x78, 0x65, 0x6E, 0x44, 0x42, 0, 0];

/// On-disk format version written by this build.
///
/// Bump this whenever the file layout changes incompatibly.
pub const FORMAT_VERSION: u32 = 1;

/// Decoded contents of the file header page.
#[derive(Debug, Clone, Copy, PartialEq, Eq, Structural)]
pub struct FileHeader {
    /// Number of pages in the file, including the header page itself.
    pub page_count: u64,
}

/// The header page of a database with `page_count` pages, before sealing.
pub open spec fn unsealed_header(page_count: u64) -> Seq<u8> {
    bytes::splice(
        bytes::splice(
            bytes::splice(
                bytes::splice(page::zero_page(), 4, MAGIC@),
                12,
                bytes::le_bytes(FORMAT_VERSION as nat, 4),
            ),
            16,
            bytes::le_bytes(PAGE_SIZE as nat, 4),
        ),
        20,
        bytes::le_bytes(page_count as nat, 8),
    )
}

/// The header page of a database with `page_count` pages.
pub open spec fn encoded_header(page_count: u64) -> Seq<u8> {
    page::sealed(unsealed_header(page_count))
}

/// The header in a page, or why there is none. The magic number is looked at
/// first, so that a file of another kind is reported as such.
pub open spec fn decoded_header(page: Seq<u8>) -> std::result::Result<FileHeader, ErrorView> {
    let version = bytes::field(page, 12, 16);
    let page_size = bytes::field(page, 16, 20);
    let page_count = bytes::field(page, 20, 28);
    if page.subrange(4, 12) != MAGIC@ {
        Err(ErrorView::UnsupportedFormat("not an oxenDB database file"@))
    } else if page::stored_checksum(page) != page::computed_checksum(page) {
        Err(
            ErrorView::Corruption(
                "file header checksum mismatch (stored "@ + text::hex_chars(
                    page::stored_checksum(page),
                ) + ", computed "@ + text::hex_chars(page::computed_checksum(page)) + ")"@,
            ),
        )
    } else if version != FORMAT_VERSION {
        Err(
            ErrorView::UnsupportedFormat(
                "file format version "@ + text::decimal_chars(version)
                    + ", this build supports version "@ + text::decimal_chars(
                    FORMAT_VERSION as nat,
                ),
            ),
        )
    } else if page_size != PAGE_SIZE {
        Err(
            ErrorView::UnsupportedFormat(
                "page size "@ + text::decimal_chars(page_size) + ", this build supports "@
                    + text::decimal_chars(PAGE_SIZE as nat),
            ),
        )
    } else if page_count == 0 {
        Err(ErrorView::Corruption("file header reports zero pages"@))
    } else {
        Ok(FileHeader { page_count: page_count as u64 })
    }
}

impl FileHeader {
    /// Header for a newly created database containing only the header page.
    pub fn new() -> (header: Self)
        ensures
            header == (FileHeader { page_count: 1 }),
    {
        FileHeader { page_count: 1 }
    }

    /// Serializes the header into a sealed page.
    pub fn encode(&self) -> (page: Page)
        ensures
            page@ == encoded_header(self.page_count),
    {
        let mut page = Page::zeroed();
        bytes::set_bytes(page.as_bytes_mut(), 4, &MAGIC);
        bytes::set_u32(page.as_bytes_mut(), 12, FORMAT_VERSION);
        bytes::set_u32(page.as_bytes_mut(), 16, PAGE_SIZE as u32);
        bytes::set_u64(page.as_bytes_mut(), 20, self.page_count);
        page.seal();
        page
    }

    /// Parses and validates a header page read from disk.
    pub fn decode(page: &Page) -> (result: Result<Self>)
        ensures
            match result {
                Ok(header) => decoded_header(page@) == Ok::<FileHeader, ErrorView>(header),
                Err(err) => decoded_header(page@) == Err::<FileHeader, ErrorView>(err@),
            },
    {
        let contents: &[u8] = page.as_bytes();
        // Check the magic first so a non-database file gets a clear error
        // instead of a confusing checksum mismatch.
        if !bytes::matches_at(contents, 4, &MAGIC) {
            return Err(Error::UnsupportedFormat("not an oxenDB database file".to_owned()));
        }
        let stored: u32 = bytes::get_u32(contents, 0);
        let actual: u32 = checksum::crc32c(contents.split_at(4).1);
        if stored != actual {
            let mut msg = "file header checksum mismatch (stored ".to_owned();
            msg.append(text::hex(stored).as_str());
            msg.append(", computed ");
            msg.append(text::hex(actual).as_str());
            msg.append(")");
            return Err(Error::Corruption(msg));
        }
        let version: u32 = bytes::get_u32(contents, 12);
        if version != FORMAT_VERSION {
            let mut msg = "file format version ".to_owned();
            msg.append(text::decimal(version as u128).as_str());
            msg.append(", this build supports version ");
            msg.append(text::decimal(FORMAT_VERSION as u128).as_str());
            return Err(Error::UnsupportedFormat(msg));
        }
        let page_size: u32 = bytes::get_u32(contents, 16);
        if page_size as usize != PAGE_SIZE {
            let mut msg = "page size ".to_owned();
            msg.append(text::decimal(page_size as u128).as_str());
            msg.append(", this build supports ");
            msg.append(text::decimal(PAGE_SIZE as u128).as_str());
            return Err(Error::UnsupportedFormat(msg));
        }
        let page_count: u64 = bytes::get_u64(contents, 20);
        if page_count == 0 {
            return Err(Error::corruption("file header reports zero pages"));
        }
        Ok(FileHeader { page_count })
    }
}

impl Default for FileHeader {
    fn default() -> (header: Self)
        ensures
            header == (FileHeader { page_count: 1 }),
    {
        Self::new()
    }
}

/// An encoded header decodes to itself, unless it claims zero pages, which
/// no file has.
pub proof fn lemma_header_round_trips(page_count: u64)
    ensures
        encoded_header(page_count).len() == PAGE_SIZE,
        page_count > 0 ==> decoded_header(encoded_header(page_count)) == Ok::<
            FileHeader,
            ErrorView,
        >(FileHeader { page_count }),
        page_count == 0 ==> decoded_header(encoded_header(page_count)) matches Err(
            ErrorView::Corruption(_),
        ),
{
    let unsealed = unsealed_header(page_count);
    let page = encoded_header(page_count);
    page::lemma_seal_sets_checksum(unsealed);
    bytes::lemma_le_u32(page::computed_checksum(unsealed));
    bytes::lemma_le_u32(FORMAT_VERSION);
    bytes::lemma_le_u32(PAGE_SIZE as u32);
    bytes::lemma_le_u64(page_count);
    assert(page.subrange(4, 12) =~= MAGIC@);
    assert(page.subrange(12, 16) =~= bytes::le_bytes(FORMAT_VERSION as nat, 4));
    assert(page.subrange(16, 20) =~= bytes::le_bytes(PAGE_SIZE as nat, 4));
    assert(page.subrange(20, 28) =~= bytes::le_bytes(page_count as nat, 8));
}

/// Changing one byte of a valid header page, by one or more of its bits,
/// makes it invalid.
pub proof fn lemma_header_change_detected(page: Seq<u8>, at: int, value: u8)
    requires
        page.len() == PAGE_SIZE,
        decoded_header(page) is Ok,
        0 <= at < PAGE_SIZE,
        value != page[at],
    ensures
        decoded_header(page.update(at, value)) is Err,
{
    let changed = page.update(at, value);
    bytes::lemma_pow256();
    bytes::lemma_le_value_bound(page.subrange(0, 4));
    bytes::lemma_le_value_bound(changed.subrange(0, 4));
    if at < 4 {
        assert(changed.skip(4) =~= page.skip(4));
        assert(changed.subrange(0, 4)[at] != page.subrange(0, 4)[at]);
        if bytes::field(changed, 0, 4) == bytes::field(page, 0, 4) {
            bytes::lemma_le_value_injective(changed.subrange(0, 4), page.subrange(0, 4));
        }
    } else {
        assert(changed.subrange(0, 4) =~= page.subrange(0, 4));
        assert(changed.skip(4) =~= page.skip(4).update(at - 4, value));
        checksum::lemma_detects_byte_change(page.skip(4), at - 4, value);
    }
}

/// A decoded header never claims zero pages.
pub proof fn lemma_decoded_count_positive(page: Seq<u8>)
    requires
        page.len() == PAGE_SIZE,
    ensures
        decoded_header(page) matches Ok(header) ==> header.page_count > 0,
{
    bytes::lemma_pow256();
    bytes::lemma_le_value_bound(page.subrange(20, 28));
}

/// The header page, byte by byte: the checksum, the magic number, the version,
/// the page size, the page count, and then zeros.
pub proof fn lemma_header_layout(page_count: u64)
    ensures
        ({
            let page = encoded_header(page_count);
            &&& page.len() == 4096
            &&& page.take(4) == bytes::le_bytes(checksum::crc32c_of(page.skip(4)) as nat, 4)
            &&& page.subrange(4, 12) == seq![
                'o' as u8,
                'x' as u8,
                'e' as u8,
                'n' as u8,
                'D' as u8,
                'B' as u8,
                0u8,
                0u8,
            ]
            &&& page.subrange(12, 16) == seq![1u8, 0u8, 0u8, 0u8]
            &&& page.subrange(16, 20) == seq![0u8, 0x10u8, 0u8, 0u8]
            &&& page.subrange(20, 28) == bytes::le_bytes(page_count as nat, 8)
            &&& forall|i: int| 28 <= i < 4096 ==> #[trigger] page[i] == 0
        }),
{
    let unsealed = unsealed_header(page_count);
    let page = encoded_header(page_count);
    bytes::lemma_le_u32(FORMAT_VERSION);
    bytes::lemma_le_u32(PAGE_SIZE as u32);
    bytes::lemma_u32_layout(FORMAT_VERSION);
    bytes::lemma_u32_layout(PAGE_SIZE as u32);
    bytes::lemma_le_u64(page_count);
    page::lemma_sealed_layout(unsealed);
    page::lemma_seal_sets_checksum(unsealed);
    assert(page.subrange(4, 12) =~= MAGIC@);
    assert(MAGIC@ =~= seq![
        'o' as u8,
        'x' as u8,
        'e' as u8,
        'n' as u8,
        'D' as u8,
        'B' as u8,
        0u8,
        0u8,
    ]);
    assert(page.subrange(12, 16) =~= bytes::le_bytes(FORMAT_VERSION as nat, 4));
    assert(page.subrange(16, 20) =~= bytes::le_bytes(PAGE_SIZE as nat, 4));
    assert(page.subrange(20, 28) =~= bytes::le_bytes(page_count as nat, 8));
}

/// A page is a header exactly if its magic number and checksum are right, its
/// version is 1, its page size is 4096, and it lists at least one page. A file
/// with another magic number, version or page size is of another format; with
/// a wrong checksum, or without pages, it is corrupt. The magic number is
/// looked at first, then the checksum.
pub proof fn lemma_valid_header(page: Seq<u8>)
    requires
        page.len() == PAGE_SIZE,
    ensures
        ({
            let magic = page.subrange(4, 12) == seq![
                'o' as u8,
                'x' as u8,
                'e' as u8,
                'n' as u8,
                'D' as u8,
                'B' as u8,
                0u8,
                0u8,
            ];
            let checked = page.take(4) == bytes::le_bytes(
                checksum::crc32c_of(page.skip(4)) as nat,
                4,
            );
            let version = page.subrange(12, 16) == seq![1u8, 0u8, 0u8, 0u8];
            let size = page.subrange(16, 20) == seq![0u8, 0x10u8, 0u8, 0u8];
            let count = page.subrange(20, 28);
            match decoded_header(page) {
                Ok(header) => {
                    &&& magic && checked && version && size
                    &&& header.page_count > 0
                    &&& count == bytes::le_bytes(header.page_count as nat, 8)
                },
                Err(ErrorView::UnsupportedFormat(_)) => !magic || (checked && !(version && size)),
                Err(ErrorView::Corruption(_)) => magic && (!checked || (version && size && count
                    == bytes::le_bytes(0, 8))),
                Err(_) => false,
            }
        }),
{
    bytes::lemma_pow256();
    bytes::lemma_le_value_bound(page.subrange(0, 4));
    bytes::lemma_le_value_bound(page.subrange(20, 28));
    bytes::lemma_le_value_bytes(page.subrange(0, 4));
    bytes::lemma_le_value_bytes(page.subrange(12, 16));
    bytes::lemma_le_value_bytes(page.subrange(16, 20));
    bytes::lemma_le_value_bytes(page.subrange(20, 28));
    bytes::lemma_le_u32(page::computed_checksum(page));
    bytes::lemma_le_u32(FORMAT_VERSION);
    bytes::lemma_le_u32(PAGE_SIZE as u32);
    bytes::lemma_u32_layout(FORMAT_VERSION);
    bytes::lemma_u32_layout(PAGE_SIZE as u32);
    assert(page.take(4) =~= page.subrange(0, 4));
    assert(MAGIC@ =~= seq![
        'o' as u8,
        'x' as u8,
        'e' as u8,
        'n' as u8,
        'D' as u8,
        'B' as u8,
        0u8,
        0u8,
    ]);
}

} // verus!
