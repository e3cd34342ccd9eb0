//! Encoding and decoding of individual WAL records.
//!
//! # Record layout
//!
//! All integers are little-endian.
//!
//! | Offset | Size | Field                                          |
//! |--------|------|------------------------------------------------|
//! | 0      | 4    | Total record length in bytes, including this   |
//! | 4      | 4    | CRC32C of bytes `8..length`                    |
//! | 8      | 8    | Sequence number (previous record's + 1)        |
//! | 16     | 1    | Record type                                    |
//! | 17     | 8    | Transaction id                                 |
//! | 25     | ...  | Type-specific body                             |
//!
//! Bodies:
//!
//! - `PageImage` (type 1): page id (8 bytes), then the full page (4096 bytes).
//! - `Commit` (type 2): empty.
//!
//! The length is covered by the checksum indirectly: a wrong length makes the
//! checksum cover the wrong bytes, and each type has exactly one valid length.

use vstd::prelude::*;
use vstd::string::*;

use crate::storage::page::{Page, PageId, PAGE_SIZE};
use crate::storage::{bytes, checksum};
use crate::text;

verus! {

broadcast use crate::storage::page::lemma_page_len;

/// Size of the fields common to every record.
pub const RECORD_HEADER_SIZE: usize = 25;

/// Length of a page image record.
pub const PAGE_IMAGE_LEN: usize = RECORD_HEADER_SIZE + 8 + PAGE_SIZE;

/// Length of a commit record.
pub const COMMIT_LEN: usize = RECORD_HEADER_SIZE;

/// Type byte of a page image record.
pub const TYPE_PAGE_IMAGE: u8 = 1;

/// Type byte of a commit record.
pub const TYPE_COMMIT: u8 = 2;

/// Identifies a write transaction within the WAL.
#[derive(Debug, Clone, Copy, PartialEq, Eq, PartialOrd, Ord, Hash, Structural)]
pub struct TxnId(pub u64);

/// A logical WAL record.
#[derive(Debug, PartialEq, Eq)]
pub enum WalRecord {
    /// The full contents of a page as written by a transaction.
    PageImage {
        /// Writing transaction.
        txn: TxnId,
        /// Page the image belongs to.
        page_id: PageId,
        /// The page contents. Sealed before logging.
        page: Page,
    },
    /// Marks a transaction as committed. Its page images take effect, wherever
    /// in the log they stand; a transaction logs them before this record.
    /// Images from transactions without a commit are ignored.
    Commit {
        /// Committing transaction.
        txn: TxnId,
    },
}

/// A record together with the sequence number it was stored under.
#[derive(Debug, PartialEq, Eq)]
pub struct DecodedRecord {
    /// The record's sequence number.
    pub seq: u64,
    /// The record itself.
    pub record: WalRecord,
    /// Number of bytes the record occupied.
    pub len: usize,
}

/// Why a record could not be decoded.
#[derive(Debug, PartialEq, Eq)]
pub enum DecodeError {
    /// The buffer ends before the record does (a torn tail or end of log).
    Incomplete,
    /// The bytes are not a valid record.
    Invalid(String),
}

/// A [`WalRecord`] with its page as a sequence of bytes.
pub enum RecordView {
    PageImage { txn: TxnId, page_id: PageId, page: Seq<u8> },
    Commit { txn: TxnId },
}

impl RecordView {
    /// An image holds one page.
    pub open spec fn wf(self) -> bool {
        self matches RecordView::PageImage { page, .. } ==> page.len() == PAGE_SIZE
    }

    /// The transaction the record belongs to.
    pub open spec fn txn(self) -> TxnId {
        match self {
            RecordView::PageImage { txn, .. } => txn,
            RecordView::Commit { txn } => txn,
        }
    }
}

impl View for WalRecord {
    type V = RecordView;

    open spec fn view(&self) -> RecordView {
        match *self {
            WalRecord::PageImage { txn, page_id, page } => RecordView::PageImage {
                txn,
                page_id,
                page: page@,
            },
            WalRecord::Commit { txn } => RecordView::Commit { txn },
        }
    }
}

/// A [`DecodedRecord`] with its record as a view.
pub struct DecodedView {
    pub seq: u64,
    pub record: RecordView,
    pub len: nat,
}

impl View for DecodedRecord {
    type V = DecodedView;

    open spec fn view(&self) -> DecodedView {
        DecodedView { seq: self.seq, record: self.record@, len: self.len as nat }
    }
}

/// A [`DecodeError`] with its message as a sequence of characters.
pub enum DecodeErrorView {
    Incomplete,
    Invalid(Seq<char>),
}

impl View for DecodeError {
    type V = DecodeErrorView;

    open spec fn view(&self) -> DecodeErrorView {
        match *self {
            DecodeError::Incomplete => DecodeErrorView::Incomplete,
            DecodeError::Invalid(msg) => DecodeErrorView::Invalid(msg@),
        }
    }
}

/// The part of a record that its checksum covers.
pub open spec fn record_body(record: RecordView, seq: u64) -> Seq<u8> {
    match record {
        RecordView::PageImage { txn, page_id, page } => bytes::le_bytes(seq as nat, 8).push(
            TYPE_PAGE_IMAGE,
        ) + bytes::le_bytes(txn.0 as nat, 8) + bytes::le_bytes(page_id.0 as nat, 8) + page,
        RecordView::Commit { txn } => bytes::le_bytes(seq as nat, 8).push(TYPE_COMMIT)
            + bytes::le_bytes(txn.0 as nat, 8),
    }
}

/// The bytes of a record stored under `seq`.
pub open spec fn encoded_record(record: RecordView, seq: u64) -> Seq<u8> {
    let body = record_body(record, seq);
    bytes::le_bytes(8 + body.len(), 4) + bytes::le_bytes(checksum::crc32c_of(body) as nat, 4) + body
}

/// The record at the start of `buf`, or why there is none.
pub open spec fn decoded_record(buf: Seq<u8>) -> Result<DecodedView, DecodeErrorView> {
    if buf.len() < 4 {
        Err(DecodeErrorView::Incomplete)
    } else {
        let len = bytes::field(buf, 0, 4);
        if len != PAGE_IMAGE_LEN && len != COMMIT_LEN {
            Err(
                DecodeErrorView::Invalid(
                    "impossible record length "@ + text::decimal_chars(len),
                ),
            )
        } else if buf.len() < len {
            Err(DecodeErrorView::Incomplete)
        } else {
            let stored = bytes::field(buf, 4, 8) as u32;
            let actual = checksum::crc32c_of(buf.subrange(8, len as int));
            let seq = bytes::field(buf, 8, 16) as u64;
            let record_type = buf[16];
            let txn = TxnId(bytes::field(buf, 17, 25) as u64);
            if stored != actual {
                Err(
                    DecodeErrorView::Invalid(
                        "checksum mismatch (stored "@ + text::hex_chars(stored) + ", computed "@
                            + text::hex_chars(actual) + ")"@,
                    ),
                )
            } else if record_type == TYPE_PAGE_IMAGE && len == PAGE_IMAGE_LEN {
                let page_id = PageId(bytes::field(buf, 25, 33) as u64);
                let page = buf.subrange(33, len as int);
                Ok(DecodedView { seq, record: RecordView::PageImage { txn, page_id, page }, len })
            } else if record_type == TYPE_COMMIT && len == COMMIT_LEN {
                Ok(DecodedView { seq, record: RecordView::Commit { txn }, len })
            } else {
                Err(
                    DecodeErrorView::Invalid(
                        "record type "@ + text::decimal_chars(record_type as nat)
                            + " with length "@ + text::decimal_chars(len),
                    ),
                )
            }
        }
    }
}

impl WalRecord {
    /// The transaction the record belongs to.
    pub fn txn(&self) -> (txn: TxnId)
        ensures
            txn == self@.txn(),
    {
        match self {
            WalRecord::PageImage { txn, .. } => *txn,
            WalRecord::Commit { txn } => *txn,
        }
    }

    /// Appends the encoded record, stored under `seq`, to `out`.
    pub fn encode(&self, seq: u64, out: &mut Vec<u8>)
        ensures
            final(out)@ == old(out)@ + encoded_record(self@, seq),
    {
        broadcast use bytes::lemma_le_bytes_len;

        let (len, record_type): (usize, u8) = match self {
            WalRecord::PageImage { .. } => (PAGE_IMAGE_LEN, TYPE_PAGE_IMAGE),
            WalRecord::Commit { .. } => (COMMIT_LEN, TYPE_COMMIT),
        };
        let mut body: Vec<u8> = Vec::with_capacity(len);
        bytes::push_u64(&mut body, seq);
        body.push(record_type);
        bytes::push_u64(&mut body, self.txn().0);
        if let WalRecord::PageImage { page_id, page, .. } = self {
            bytes::push_u64(&mut body, page_id.0);
            bytes::push_bytes(&mut body, page.as_bytes());
        }
        assert(body@ =~= record_body(self@, seq));
        let checksum: u32 = checksum::crc32c(body.as_slice());
        bytes::push_u32(out, len as u32);
        bytes::push_u32(out, checksum);
        bytes::push_bytes(out, body.as_slice());
        assert(out@ =~= old(out)@ + encoded_record(self@, seq));
    }

    /// Decodes the record at the start of `buf`.
    pub fn decode(buf: &[u8]) -> (result: Result<DecodedRecord, DecodeError>)
        ensures
            match result {
                Ok(decoded) => decoded_record(buf@) == Ok::<DecodedView, DecodeErrorView>(decoded@),
                Err(err) => decoded_record(buf@) == Err::<DecodedView, DecodeErrorView>(err@),
            },
    {
        if buf.len() < 4 {
            return Err(DecodeError::Incomplete);
        }
        let len: usize = bytes::get_u32(buf, 0) as usize;
        if len != PAGE_IMAGE_LEN && len != COMMIT_LEN {
            let mut msg = "impossible record length ".to_owned();
            msg.append(text::decimal(len as u128).as_str());
            return Err(DecodeError::Invalid(msg));
        }
        if buf.len() < len {
            return Err(DecodeError::Incomplete);
        }
        let contents: &[u8] = buf.split_at(len).0;
        let body: &[u8] = contents.split_at(8).1;
        proof {
            assert(body@ =~= buf@.subrange(8, len as int));
        }
        let stored: u32 = bytes::get_u32(buf, 4);
        let actual: u32 = checksum::crc32c(body);
        if stored != actual {
            let mut msg = "checksum mismatch (stored ".to_owned();
            msg.append(text::hex(stored).as_str());
            msg.append(", computed ");
            msg.append(text::hex(actual).as_str());
            msg.append(")");
            return Err(DecodeError::Invalid(msg));
        }
        let seq: u64 = bytes::get_u64(buf, 8);
        let txn = TxnId(bytes::get_u64(buf, 17));
        let record_type: u8 = buf[16];
        let record = if record_type == TYPE_PAGE_IMAGE && len == PAGE_IMAGE_LEN {
            let page_id = PageId(bytes::get_u64(buf, RECORD_HEADER_SIZE));
            let image: &[u8] = contents.split_at(RECORD_HEADER_SIZE + 8).1;
            let mut page = Page::zeroed();
            bytes::set_bytes(page.as_bytes_mut(), 0, image);
            assert(page@ =~= buf@.subrange(33, len as int));
            WalRecord::PageImage { txn, page_id, page }
        } else if record_type == TYPE_COMMIT && len == COMMIT_LEN {
            WalRecord::Commit { txn }
        } else {
            let mut msg = "record type ".to_owned();
            msg.append(text::decimal(record_type as u128).as_str());
            msg.append(" with length ");
            msg.append(text::decimal(len as u128).as_str());
            return Err(DecodeError::Invalid(msg));
        };
        Ok(DecodedRecord { seq, record, len })
    }
}

impl Clone for WalRecord {
    fn clone(&self) -> (copy: Self)
        ensures
            copy@ == self@,
    {
        match self {
            WalRecord::PageImage { txn, page_id, page } => WalRecord::PageImage {
                txn: *txn,
                page_id: *page_id,
                page: page.clone(),
            },
            WalRecord::Commit { txn } => WalRecord::Commit { txn: *txn },
        }
    }
}

impl Clone for DecodedRecord {
    fn clone(&self) -> (copy: Self)
        ensures
            copy@ == self@,
    {
        DecodedRecord { seq: self.seq, record: self.record.clone(), len: self.len }
    }
}

impl Clone for DecodeError {
    fn clone(&self) -> (copy: Self)
        ensures
            copy@ == self@,
    {
        match self {
            DecodeError::Incomplete => DecodeError::Incomplete,
            DecodeError::Invalid(msg) => DecodeError::Invalid(msg.clone()),
        }
    }
}

/// The number of bytes a record takes, which its type alone decides.
pub open spec fn record_len(record: RecordView) -> nat {
    match record {
        RecordView::PageImage { .. } => PAGE_IMAGE_LEN as nat,
        RecordView::Commit { .. } => COMMIT_LEN as nat,
    }
}

/// The fields of an encoded record stand where the layout puts them.
proof fn lemma_record_fields(record: RecordView, seq: u64, rest: Seq<u8>)
    requires
        record.wf(),
    ensures
        ({
            let body = record_body(record, seq);
            let whole = encoded_record(record, seq) + rest;
            let len = record_len(record) as int;
            &&& encoded_record(record, seq).len() == len
            &&& body.len() == len - 8
            &&& bytes::field(whole, 0, 4) == len
            &&& bytes::field(whole, 4, 8) == checksum::crc32c_of(body)
            &&& whole.subrange(8, len) == body
            &&& bytes::field(whole, 8, 16) == seq
            &&& bytes::field(whole, 17, 25) == record.txn().0
            &&& whole.take(len) == encoded_record(record, seq)
            &&& match record {
                RecordView::PageImage { txn, page_id, page } => {
                    &&& whole[16] == TYPE_PAGE_IMAGE
                    &&& bytes::field(whole, 25, 33) == page_id.0
                    &&& whole.subrange(33, len) == page
                },
                RecordView::Commit { txn } => whole[16] == TYPE_COMMIT,
            }
        }),
{
    broadcast use bytes::lemma_le_bytes_len;

    let body = record_body(record, seq);
    let whole = encoded_record(record, seq) + rest;
    let len = record_len(record) as int;
    assert(body.len() == len - 8);
    bytes::lemma_le_u32(len as u32);
    bytes::lemma_le_u32(checksum::crc32c_of(body));
    bytes::lemma_le_u64(seq);
    bytes::lemma_le_u64(record.txn().0);
    assert(whole.subrange(0, 4) =~= bytes::le_bytes(len as nat, 4));
    assert(whole.subrange(4, 8) =~= bytes::le_bytes(checksum::crc32c_of(body) as nat, 4));
    assert(whole.subrange(8, len) =~= body);
    assert(whole.subrange(8, 16) =~= bytes::le_bytes(seq as nat, 8));
    assert(whole.subrange(17, 25) =~= bytes::le_bytes(record.txn().0 as nat, 8));
    assert(whole.take(len) =~= encoded_record(record, seq));
    if let RecordView::PageImage { txn, page_id, page } = record {
        bytes::lemma_le_u64(page_id.0);
        assert(whole.subrange(25, 33) =~= bytes::le_bytes(page_id.0 as nat, 8));
        assert(whole.subrange(33, len) =~= page);
    }
}

/// An encoded record decodes to itself, its sequence number and its length,
/// whatever follows it.
pub proof fn lemma_record_round_trips(record: RecordView, seq: u64, rest: Seq<u8>)
    requires
        record.wf(),
    ensures
        encoded_record(record, seq).len() == record_len(record),
        decoded_record(encoded_record(record, seq) + rest) == Ok::<DecodedView, DecodeErrorView>(
            DecodedView { seq, record, len: record_len(record) },
        ),
{
    lemma_record_fields(record, seq, rest);
}

/// Every strict prefix of an encoded record is an incomplete record.
pub proof fn lemma_truncation_is_incomplete(record: RecordView, seq: u64, cut: int)
    requires
        record.wf(),
        0 <= cut < encoded_record(record, seq).len(),
    ensures
        decoded_record(encoded_record(record, seq).take(cut)) == Err::<
            DecodedView,
            DecodeErrorView,
        >(DecodeErrorView::Incomplete),
{
    lemma_record_fields(record, seq, Seq::empty());
    let whole = encoded_record(record, seq);
    assert(whole + Seq::<u8>::empty() =~= whole);
    if cut >= 4 {
        assert(whole.take(cut).subrange(0, 4) =~= whole.subrange(0, 4));
    }
}

/// Whatever is accepted encodes again to exactly the bytes that were read.
pub proof fn lemma_decoded_record_reencodes(buf: Seq<u8>)
    requires
        decoded_record(buf) is Ok,
    ensures
        ({
            let decoded = decoded_record(buf)->Ok_0;
            &&& decoded.record.wf()
            &&& decoded.len == record_len(decoded.record)
            &&& decoded.len <= buf.len()
            &&& encoded_record(decoded.record, decoded.seq) == buf.take(decoded.len as int)
        }),
{
    broadcast use bytes::lemma_le_bytes_len;

    let decoded = decoded_record(buf)->Ok_0;
    let len = decoded.len as int;
    let body = record_body(decoded.record, decoded.seq);
    bytes::lemma_pow256();
    bytes::lemma_le_value_bound(buf.subrange(4, 8));
    bytes::lemma_le_value_bound(buf.subrange(8, 16));
    bytes::lemma_le_value_bound(buf.subrange(17, 25));
    bytes::lemma_le_value_bytes(buf.subrange(0, 4));
    bytes::lemma_le_value_bytes(buf.subrange(4, 8));
    bytes::lemma_le_value_bytes(buf.subrange(8, 16));
    bytes::lemma_le_value_bytes(buf.subrange(17, 25));
    if decoded.record is PageImage {
        bytes::lemma_le_value_bound(buf.subrange(25, 33));
        bytes::lemma_le_value_bytes(buf.subrange(25, 33));
        assert(buf.subrange(8, len) =~= buf.subrange(8, 16).push(buf[16]) + buf.subrange(17, 25)
            + buf.subrange(25, 33) + buf.subrange(33, len));
    } else {
        assert(buf.subrange(8, len) =~= buf.subrange(8, 16).push(buf[16]) + buf.subrange(17, 25));
    }
    assert(body == buf.subrange(8, len));
    assert(buf.take(len) =~= buf.subrange(0, 4) + buf.subrange(4, 8) + buf.subrange(8, len));
}

/// Changing one byte of an encoded record, by one or more of its bits, makes
/// it invalid, whatever follows it.
pub proof fn lemma_record_change_rejected(
    record: RecordView,
    seq: u64,
    rest: Seq<u8>,
    at: int,
    value: u8,
)
    requires
        record.wf(),
        0 <= at < encoded_record(record, seq).len(),
        value != encoded_record(record, seq)[at],
    ensures
        decoded_record(encoded_record(record, seq).update(at, value) + rest) is Err,
{
    let whole = encoded_record(record, seq) + rest;
    let changed = encoded_record(record, seq).update(at, value) + rest;
    let len = record_len(record) as int;
    lemma_record_fields(record, seq, rest);
    bytes::lemma_pow256();
    bytes::lemma_le_value_bound(changed.subrange(4, 8));
    if at < 4 {
        // The two valid lengths differ in two bytes, so a change to one byte
        // of the length never gives the other.
        assert(changed.subrange(0, 4) =~= whole.subrange(0, 4).update(at, value));
        lemma_lengths_two_bytes_apart();
        bytes::lemma_le_value_bytes(whole.subrange(0, 4));
        bytes::lemma_le_value_bytes(changed.subrange(0, 4));
        assert(changed.subrange(0, 4)[at] == value);
        if at == 0 {
            assert(changed.subrange(0, 4)[1] == whole.subrange(0, 4)[1]);
        } else {
            assert(changed.subrange(0, 4)[0] == whole.subrange(0, 4)[0]);
        }
    } else {
        assert(changed.subrange(0, 4) =~= whole.subrange(0, 4));
        if at < 8 {
            assert(changed.subrange(8, len) =~= whole.subrange(8, len));
            assert(changed.subrange(4, 8)[at - 4] != whole.subrange(4, 8)[at - 4]);
            if bytes::field(changed, 4, 8) == bytes::field(whole, 4, 8) {
                bytes::lemma_le_value_injective(changed.subrange(4, 8), whole.subrange(4, 8));
            }
        } else {
            assert(changed.subrange(4, 8) =~= whole.subrange(4, 8));
            assert(changed.subrange(8, len) =~= whole.subrange(8, len).update(at - 8, value));
            checksum::lemma_detects_byte_change(whole.subrange(8, len), at - 8, value);
        }
    }
}

proof fn lemma_lengths_two_bytes_apart()
    ensures
        bytes::le_bytes(COMMIT_LEN as nat, 4)[0] != bytes::le_bytes(PAGE_IMAGE_LEN as nat, 4)[0],
        bytes::le_bytes(COMMIT_LEN as nat, 4)[1] != bytes::le_bytes(PAGE_IMAGE_LEN as nat, 4)[1],
{
    reveal_with_fuel(bytes::le_bytes, 5);
}

/// Zeroed bytes are never a record.
pub proof fn lemma_zeroed_bytes_invalid(buf: Seq<u8>)
    requires
        buf.len() >= 4,
        forall|i: int| 0 <= i < 4 ==> buf[i] == 0,
    ensures
        decoded_record(buf) matches Err(DecodeErrorView::Invalid(_)),
{
    reveal_with_fuel(bytes::le_value, 5);
    let len = buf.subrange(0, 4);
    assert(len.skip(1)[0] == 0 && len.skip(1).skip(1)[0] == 0 && len.skip(1).skip(1).skip(1)[0]
        == 0);
}

/// A record, byte by byte: its length, the checksum of everything from byte 8
/// on, its number, its type, its transaction, and for a page image the page id
/// and the page.
pub proof fn lemma_record_layout(record: RecordView, seq: u64)
    requires
        record.wf(),
    ensures
        ({
            let whole = encoded_record(record, seq);
            let image = record is PageImage;
            let len: nat = if image {
                4129
            } else {
                25
            };
            &&& whole.len() == len
            &&& whole.take(4) == bytes::le_bytes(len, 4)
            &&& whole.subrange(4, 8) == bytes::le_bytes(
                checksum::crc32c_of(whole.skip(8)) as nat,
                4,
            )
            &&& whole.subrange(8, 16) == bytes::le_bytes(seq as nat, 8)
            &&& whole[16] == if image {
                1u8
            } else {
                2u8
            }
            &&& whole.subrange(17, 25) == bytes::le_bytes(record.txn().0 as nat, 8)
            &&& image ==> {
                &&& whole.subrange(25, 33) == bytes::le_bytes(record->page_id.0 as nat, 8)
                &&& whole.skip(33) == record->page
            }
        }),
{
    broadcast use bytes::lemma_le_bytes_len;

    let whole = encoded_record(record, seq);
    let body = record_body(record, seq);
    let len = record_len(record);
    assert(whole.take(4) =~= bytes::le_bytes(len, 4));
    assert(whole.skip(8) =~= body);
    assert(whole.subrange(4, 8) =~= bytes::le_bytes(checksum::crc32c_of(body) as nat, 4));
    assert(whole.subrange(8, 16) =~= bytes::le_bytes(seq as nat, 8));
    assert(whole.subrange(17, 25) =~= bytes::le_bytes(record.txn().0 as nat, 8));
    if let RecordView::PageImage { txn, page_id, page } = record {
        assert(whole.subrange(25, 33) =~= bytes::le_bytes(page_id.0 as nat, 8));
        assert(whole.skip(33) =~= page);
    }
}

/// Bytes begin with a record exactly if they begin with the encoding of one,
/// and then that is the record. They are an incomplete record exactly if they
/// end before the length or, given a possible length, before that many bytes.
pub proof fn lemma_decoded_iff_encoded(buf: Seq<u8>, record: RecordView, seq: u64)
    ensures
        match decoded_record(buf) {
            Ok(decoded) => {
                &&& decoded.record.wf()
                &&& decoded.len <= buf.len()
                &&& buf.take(decoded.len as int) == encoded_record(decoded.record, decoded.seq)
            },
            Err(DecodeErrorView::Incomplete) => buf.len() < 4 || {
                let len = bytes::le_value(buf.take(4));
                (len == 25 || len == 4129) && buf.len() < len
            },
            Err(DecodeErrorView::Invalid(_)) => buf.len() >= 4 && {
                let len = bytes::le_value(buf.take(4));
                !(len == 25 || len == 4129) || buf.len() >= len
            },
        },
        record.wf() && encoded_record(record, seq).is_prefix_of(buf) ==> (decoded_record(buf)
            matches Ok(decoded) && decoded.record == record && decoded.seq == seq && decoded.len
            == encoded_record(record, seq).len()),
{
    if decoded_record(buf) is Ok {
        lemma_decoded_record_reencodes(buf);
    }
    if buf.len() >= 4 {
        assert(buf.take(4) =~= buf.subrange(0, 4));
    }
    if record.wf() && encoded_record(record, seq).is_prefix_of(buf) {
        let whole = encoded_record(record, seq);
        let rest = buf.skip(whole.len() as int);
        lemma_record_round_trips(record, seq, rest);
        assert(buf =~= whole + rest);
    }
}

} // verus!
