//! The WAL file: a header followed by a sequence of records.
//!
//! # Header layout
//!
//! | Offset | Size | Field                                          |
//! |--------|------|------------------------------------------------|
//! | 0      | 4    | CRC32C of bytes `4..24`                        |
//! | 4      | 8    | Magic bytes `b"oxenWAL\0"`                     |
//! | 12     | 4    | Format version                                 |
//! | 16     | 8    | Sequence number of the first record            |
//!
//! Records follow immediately, see [`super::record`].

use vstd::prelude::*;
use vstd::string::*;

use super::record;
use super::record::{DecodeError, DecodeErrorView, DecodedRecord, DecodedView, RecordView, WalRecord, PAGE_IMAGE_LEN};
use crate::error::{Error, ErrorView, Result};
use crate::storage::file_op::{FileOp, FileOpView};
use crate::storage::{bytes, checksum, file_op};
use crate::text;

verus! {

/// Identifies a file as an oxenDB write-ahead log.
pub const WAL_MAGIC: [u8; 8] = [0x6F, 0x78, 0x65, 0x6E, 0x57, 0x41, 0x4C, 0];

/// WAL format version written by this build.
pub const WAL_FORMAT_VERSION: u32 = 1;

/// Size of the WAL file header.
pub const WAL_HEADER_SIZE: usize = 24;

/// What was found after the last valid record when opening a WAL.
#[derive(Debug, PartialEq, Eq)]
pub struct DiscardedTail {
    /// Number of bytes removed from the end of the file.
    pub bytes: u64,
    /// Why the first discarded byte range was not a valid record.
    pub reason: String,
}

impl Clone for DiscardedTail {
    fn clone(&self) -> (copy: Self)
        ensures
            copy.bytes == self.bytes,
            copy.reason@ == self.reason@,
    {
        DiscardedTail { bytes: self.bytes, reason: self.reason.clone() }
    }
}

/// Result of opening an existing WAL.
#[derive(Debug)]
pub struct OpenedWal {
    /// The log, positioned to append after the last valid record.
    pub wal: Wal,
    /// Every valid record in the log, in order.
    pub records: Vec<DecodedRecord>,
    /// Present if bytes after the last valid record were discarded.
    pub discarded: Option<DiscardedTail>,
    /// Removes the discarded bytes from the file, so later appends are
    /// readable. To be performed before the log is used.
    pub repair: Vec<FileOp>,
}

/// An append-only write-ahead log file.
#[derive(Debug)]
pub struct Wal {
    /// Byte offset just past the last durable record.
    durable_len: u64,
    /// Encoded records appended but not yet flushed.
    pending: Vec<u8>,
    next_seq: u64,
    /// Set after a failed write or fsync. The state of the file is then
    /// unknown, so the log refuses further use until it is reopened.
    poisoned: bool,
}

/// A [`Wal`] with its pending bytes as a sequence.
#[verifier::ext_equal]
pub struct WalView {
    pub durable_len: u64,
    pub pending: Seq<u8>,
    pub next_seq: u64,
    pub poisoned: bool,
}

impl View for Wal {
    type V = WalView;

    closed spec fn view(&self) -> WalView {
        WalView {
            durable_len: self.durable_len,
            pending: self.pending@,
            next_seq: self.next_seq,
            poisoned: self.poisoned,
        }
    }
}

impl WalView {
    /// Whether `count` more records can be appended before sequence numbers
    /// or file offsets run out.
    pub open spec fn has_room(self, count: nat) -> bool {
        &&& self.next_seq + count <= u64::MAX
        &&& self.durable_len + self.pending.len() + count * PAGE_IMAGE_LEN <= u64::MAX
    }
}

/// Where there is room for many records, there is room for few.
pub proof fn lemma_room_for_fewer(wal: WalView, count: nat, fewer: nat)
    requires
        wal.has_room(count),
        fewer <= count,
    ensures
        wal.has_room(fewer),
{
    assert(fewer * PAGE_IMAGE_LEN <= count * PAGE_IMAGE_LEN) by (nonlinear_arith)
        requires
            fewer <= count,
    ;
}

/// A record takes up the room of one.
pub proof fn lemma_room_used(before: WalView, after: WalView, count: nat)
    requires
        before.has_room(count + 1),
        after.next_seq <= before.next_seq + 1,
        after.durable_len == before.durable_len,
        after.pending.len() <= before.pending.len() + PAGE_IMAGE_LEN,
    ensures
        after.has_room(count),
{
    assert((count + 1) * PAGE_IMAGE_LEN == count * PAGE_IMAGE_LEN + PAGE_IMAGE_LEN)
        by (nonlinear_arith);
}

/// The part of a WAL header that its checksum covers.
pub open spec fn header_body(first_seq: u64) -> Seq<u8> {
    WAL_MAGIC@ + bytes::le_bytes(WAL_FORMAT_VERSION as nat, 4) + bytes::le_bytes(
        first_seq as nat,
        8,
    )
}

/// The header of a log whose first record has number `first_seq`.
#[verifier::opaque]
pub open spec fn encoded_header(first_seq: u64) -> Seq<u8> {
    bytes::le_bytes(checksum::crc32c_of(header_body(first_seq)) as nat, 4) + header_body(first_seq)
}

/// The number of the first record of a log, or what is wrong with its header.
pub open spec fn decoded_header(contents: Seq<u8>) -> std::result::Result<u64, ErrorView> {
    let version = bytes::field(contents, 12, 16);
    if contents.len() < WAL_HEADER_SIZE || contents.subrange(4, 12) != WAL_MAGIC@ {
        Err(ErrorView::UnsupportedFormat("not an oxenDB WAL file"@))
    } else if bytes::field(contents, 0, 4) != checksum::crc32c_of(
        contents.subrange(4, WAL_HEADER_SIZE as int),
    ) {
        Err(ErrorView::Corruption("WAL header checksum mismatch"@))
    } else if version != WAL_FORMAT_VERSION {
        Err(
            ErrorView::UnsupportedFormat(
                "WAL format version "@ + text::decimal_chars(version)
                    + ", this build supports version "@ + text::decimal_chars(
                    WAL_FORMAT_VERSION as nat,
                ),
            ),
        )
    } else {
        Ok(bytes::field(contents, 16, 24) as u64)
    }
}

/// What reading the records of a log gives.
#[verifier::ext_equal]
pub struct ScanView {
    /// The valid records, in order.
    pub records: Seq<DecodedView>,
    /// How many bytes they take.
    pub len: nat,
    /// The number the next record is to have.
    pub next_seq: u64,
    /// Why reading stopped, if it stopped before the end.
    pub stop: Option<Seq<char>>,
}

/// A scan that goes on with `rest` after `records`, which take `len` bytes.
pub open spec fn continued(records: Seq<DecodedView>, len: nat, rest: ScanView) -> ScanView {
    ScanView {
        records: records + rest.records,
        len: len + rest.len,
        next_seq: rest.next_seq,
        stop: rest.stop,
    }
}

/// A scan that ends before the next record.
pub open spec fn stopped(next_seq: u64, stop: Option<Seq<char>>) -> ScanView {
    ScanView { records: Seq::empty(), len: 0, next_seq, stop }
}

/// Reads the records in `log`, of which the first is to have number
/// `next_seq`, up to the first one that is incomplete, fails validation or
/// breaks the sequence. No record ever has the last number there is, as none
/// could follow it.
pub open spec fn scanned(log: Seq<u8>, next_seq: u64) -> ScanView
    decreases log.len(),
{
    if log.len() == 0 {
        stopped(next_seq, None)
    } else {
        match record::decoded_record(log) {
            Ok(decoded) => if decoded.seq != next_seq {
                stopped(
                    next_seq,
                    Some(
                        "expected sequence number "@ + text::decimal_chars(next_seq as nat)
                            + ", found "@ + text::decimal_chars(decoded.seq as nat),
                    ),
                )
            } else if next_seq == u64::MAX {
                stopped(
                    next_seq,
                    Some(
                        "sequence number "@ + text::decimal_chars(next_seq as nat)
                            + " is out of range"@,
                    ),
                )
            } else {
                continued(
                    seq![decoded],
                    decoded.len,
                    scanned(log.skip(decoded.len as int), (next_seq + 1) as u64),
                )
            },
            Err(DecodeErrorView::Incomplete) => stopped(next_seq, Some("incomplete record"@)),
            Err(DecodeErrorView::Invalid(reason)) => stopped(next_seq, Some(reason)),
        }
    }
}

/// The views of a list of decoded records.
pub open spec fn record_views(records: Seq<DecodedRecord>) -> Seq<DecodedView> {
    Seq::new(records.len(), |i: int| records[i]@)
}

/// What opening a log file with these contents gives.
pub open spec fn opened(contents: Seq<u8>) -> std::result::Result<ScanView, ErrorView> {
    match decoded_header(contents) {
        Ok(first_seq) => Ok(scanned(contents.skip(WAL_HEADER_SIZE as int), first_seq)),
        Err(err) => Err(err),
    }
}

/// A new log, without records.
pub open spec fn new_wal() -> WalView {
    WalView {
        durable_len: WAL_HEADER_SIZE as u64,
        pending: Seq::empty(),
        next_seq: 0,
        poisoned: false,
    }
}

/// What is done to the empty file of a new log.
pub open spec fn create_ops() -> Seq<FileOpView> {
    seq![FileOpView::Write { offset: 0, bytes: encoded_header(0) }, FileOpView::SyncAll]
}

/// The operations that make pending records durable.
pub open spec fn flush_ops(wal: WalView) -> Seq<FileOpView> {
    if wal.pending.len() == 0 {
        Seq::empty()
    } else {
        seq![
            FileOpView::Write { offset: wal.durable_len as nat, bytes: wal.pending },
            FileOpView::SyncData,
        ]
    }
}

/// The operations that remove every record.
pub open spec fn reset_ops(wal: WalView) -> Seq<FileOpView> {
    seq![
        FileOpView::SetLen(WAL_HEADER_SIZE as nat),
        FileOpView::Write { offset: 0, bytes: encoded_header(wal.next_seq) },
        FileOpView::SyncAll,
    ]
}

/// The error every use of a poisoned log gives.
pub open spec fn wal_poisoned() -> ErrorView {
    ErrorView::Poisoned("an earlier WAL write failed; reopen the database to recover"@)
}

/// What appending a record makes of a log, and its number or the error.
pub open spec fn append_step(wal: WalView, appended: RecordView) -> (
    WalView,
    std::result::Result<u64, ErrorView>,
) {
    if wal.poisoned {
        (wal, Err(wal_poisoned()))
    } else {
        (
            WalView {
                pending: wal.pending + record::encoded_record(appended, wal.next_seq),
                next_seq: (wal.next_seq + 1) as u64,
                ..wal
            },
            Ok(wal.next_seq),
        )
    }
}

/// What is to be done to flush a log, or the error.
pub open spec fn flush_step(wal: WalView) -> std::result::Result<Seq<FileOpView>, ErrorView> {
    if wal.poisoned {
        Err(wal_poisoned())
    } else {
        Ok(flush_ops(wal))
    }
}

/// What is to be done to reset a log, or the error.
pub open spec fn reset_step(wal: WalView) -> std::result::Result<Seq<FileOpView>, ErrorView> {
    if wal.poisoned {
        Err(wal_poisoned())
    } else if wal.pending.len() > 0 {
        Err(ErrorView::InvalidArgument("cannot reset a WAL with unflushed records"@))
    } else {
        Ok(reset_ops(wal))
    }
}

/// A log after a write, truncation or fsync failed.
pub open spec fn failed(wal: WalView) -> WalView {
    WalView { poisoned: true, ..wal }
}

/// Once an operation on its file failed, a log refuses everything: appending,
/// flushing and resetting all give the same error, with or without pending
/// records, and ask for nothing to be done to the file. The log stays as it
/// is, so trying again changes nothing.
pub proof fn lemma_failed_log_refuses(wal: WalView, appended: RecordView)
    ensures
        append_step(failed(wal), appended) == (
            failed(wal),
            Err::<u64, ErrorView>(wal_poisoned()),
        ),
        flush_step(failed(wal)) == Err::<Seq<FileOpView>, ErrorView>(wal_poisoned()),
        reset_step(failed(wal)) == Err::<Seq<FileOpView>, ErrorView>(wal_poisoned()),
        failed(wal).durable_len == wal.durable_len,
        failed(wal).next_seq == wal.next_seq,
        failed(failed(wal)) == failed(wal),
{
}

/// What a log accepts: everything unless it is poisoned, but for a reset while
/// records are pending. An appended record gets the next number and waits behind
/// the others; the durable part does not change before a flush.
pub proof fn lemma_log_accepts(wal: WalView, appended: RecordView)
    requires
        wal.next_seq < u64::MAX,
    ensures
        flush_step(wal) is Ok <==> !wal.poisoned,
        reset_step(wal) is Ok <==> !wal.poisoned && wal.pending.len() == 0,
        !wal.poisoned && wal.pending.len() > 0 ==> (reset_step(wal) matches Err(
            ErrorView::InvalidArgument(_),
        )),
        ({
            let (after, outcome) = append_step(wal, appended);
            &&& outcome is Ok <==> !wal.poisoned
            &&& match outcome {
                Ok(seq) => {
                    &&& seq == wal.next_seq
                    &&& after.next_seq == wal.next_seq + 1
                    &&& after.pending == wal.pending + record::encoded_record(appended, seq)
                    &&& after.durable_len == wal.durable_len
                    &&& !after.poisoned
                },
                Err(err) => err is Poisoned && after == wal,
            }
        }),
        failed(wal).poisoned,
        failed(wal).pending == wal.pending,
{
}

/// The operations that cut off what follows the last valid record.
pub open spec fn repair_ops(scan: ScanView) -> Seq<FileOpView> {
    if scan.stop is Some {
        seq![FileOpView::SetLen(WAL_HEADER_SIZE as nat + scan.len), FileOpView::SyncAll]
    } else {
        Seq::empty()
    }
}

/// A log that was just opened: it goes on after the records that were read.
pub open spec fn opened_wal(scan: ScanView) -> WalView {
    WalView {
        durable_len: (WAL_HEADER_SIZE + scan.len) as u64,
        pending: Seq::empty(),
        next_seq: scan.next_seq,
        poisoned: false,
    }
}

impl OpenedWal {
    /// Whether this is what opening a file of `file_len` bytes gives, where
    /// `scan` is what was read.
    pub open spec fn shows(self, scan: ScanView, file_len: nat) -> bool {
        &&& record_views(self.records@) == scan.records
        &&& self.wal@ == opened_wal(scan)
        &&& file_op::op_views(self.repair@) == repair_ops(scan)
        &&& match self.discarded {
            Some(tail) => {
                &&& scan.stop == Some(tail.reason@)
                &&& tail.bytes == file_len - WAL_HEADER_SIZE - scan.len
            },
            None => scan.stop is None,
        }
    }
}

/// A scan never runs past the end, and reaches it unless it says why not.
pub proof fn lemma_scan_bounds(log: Seq<u8>, next_seq: u64)
    ensures
        scanned(log, next_seq).len <= log.len(),
        scanned(log, next_seq).stop is None ==> scanned(log, next_seq).len == log.len(),
        scanned(log, next_seq).next_seq == next_seq + scanned(log, next_seq).records.len(),
    decreases log.len(),
{
    if log.len() > 0 {
        if let Ok(decoded) = record::decoded_record(log) {
            if decoded.seq == next_seq && next_seq < u64::MAX {
                lemma_scan_bounds(log.skip(decoded.len as int), (next_seq + 1) as u64);
            }
        }
    }
}

impl Wal {
    /// Creates a new, empty WAL, together with what is to be done to its
    /// new, empty file.
    pub fn create() -> (created: (Self, Vec<FileOp>))
        ensures
            created.0@ == new_wal(),
            file_op::op_views(created.1@) == create_ops(),
    {
        let header = encode_header(0);
        let mut ops: Vec<FileOp> = Vec::new();
        ops.push(FileOp::write(0, header.as_slice()));
        ops.push(FileOp::SyncAll);
        let wal = Wal {
            durable_len: WAL_HEADER_SIZE as u64,
            pending: Vec::new(),
            next_seq: 0,
            poisoned: false,
        };
        assert(wal@.pending =~= Seq::empty());
        assert(file_op::op_views(ops@) =~= create_ops());
        (wal, ops)
    }

    /// Opens an existing WAL with these contents and reads every valid
    /// record.
    ///
    /// Reading stops at the first record that is incomplete, fails
    /// validation, or has an unexpected sequence number. Everything from that
    /// point on is the remains of an interrupted write; it is to be cut off
    /// so later appends are readable.
    pub fn open(contents: &[u8]) -> (result: Result<OpenedWal>)
        ensures
            match result {
                Ok(wal) => opened(contents@) is Ok && wal.shows(
                    opened(contents@)->Ok_0,
                    contents@.len(),
                ),
                Err(err) => opened(contents@) == Err::<ScanView, ErrorView>(err@),
            },
    {
        let first_seq: u64 = decode_header(contents)?;
        let ghost log = contents@.skip(WAL_HEADER_SIZE as int);
        let ghost scan = scanned(log, first_seq);
        let mut records: Vec<DecodedRecord> = Vec::new();
        let mut rest: &[u8] = contents.split_at(WAL_HEADER_SIZE).1;
        let mut offset: usize = WAL_HEADER_SIZE;
        let mut next_seq: u64 = first_seq;
        let mut stop_reason: Option<String> = None;
        proof {
            lemma_scan_bounds(log, first_seq);
            assert(rest@ =~= log);
            assert(scan =~= continued(
                record_views(records@),
                (offset - WAL_HEADER_SIZE) as nat,
                scanned(rest@, next_seq),
            ));
        }
        while rest.len() > 0 && stop_reason.is_none()
            invariant
                offset + rest.len() == contents.len(),
                offset >= WAL_HEADER_SIZE,
                stop_reason is None ==> scan == continued(
                    record_views(records@),
                    (offset - WAL_HEADER_SIZE) as nat,
                    scanned(rest@, next_seq),
                ),
                stop_reason matches Some(reason) ==> scan == continued(
                    record_views(records@),
                    (offset - WAL_HEADER_SIZE) as nat,
                    stopped(next_seq, Some(reason@)),
                ),
            decreases
                rest.len(),
                (if stop_reason is None {
                    1int
                } else {
                    0
                }),
        {
            match WalRecord::decode(rest) {
                Ok(decoded) => {
                    let seq: u64 = decoded.seq;
                    let len: usize = decoded.len;
                    if seq != next_seq {
                        let mut reason = "expected sequence number ".to_owned();
                        reason.append(text::decimal(next_seq as u128).as_str());
                        reason.append(", found ");
                        reason.append(text::decimal(seq as u128).as_str());
                        stop_reason = Some(reason);
                    } else if next_seq == u64::MAX {
                        let mut reason = "sequence number ".to_owned();
                        reason.append(text::decimal(next_seq as u128).as_str());
                        reason.append(" is out of range");
                        stop_reason = Some(reason);
                    } else {
                        let ghost before = records@;
                        let ghost read = decoded@;
                        let ghost seen = (offset - WAL_HEADER_SIZE) as nat;
                        let ghost after = scanned(rest@.skip(len as int), (next_seq + 1) as u64);
                        proof {
                            assert(scanned(rest@, next_seq) == continued(
                                seq![read],
                                len as nat,
                                after,
                            ));
                        }
                        records.push(decoded);
                        rest = rest.split_at(len).1;
                        offset += len;
                        next_seq += 1;
                        proof {
                            assert(record_views(records@) + after.records =~= record_views(before)
                                + (seq![read] + after.records));
                        }
                    }
                },
                Err(DecodeError::Incomplete) => {
                    stop_reason = Some("incomplete record".to_owned());
                },
                Err(DecodeError::Invalid(reason)) => {
                    stop_reason = Some(reason);
                },
            }
        }
        proof {
            assert(record_views(records@) + Seq::<DecodedView>::empty() =~= record_views(records@));
        }
        let mut repair: Vec<FileOp> = Vec::new();
        let discarded = match stop_reason {
            Some(reason) => {
                repair.push(FileOp::SetLen(offset as u64));
                repair.push(FileOp::SyncAll);
                Some(DiscardedTail { bytes: (contents.len() - offset) as u64, reason })
            },
            None => None,
        };
        let wal = Wal {
            durable_len: offset as u64,
            pending: Vec::new(),
            next_seq,
            poisoned: false,
        };
        proof {
            assert(wal@ =~= opened_wal(scan));
            assert(file_op::op_views(repair@) =~= repair_ops(scan));
        }
        Ok(OpenedWal { wal, records, discarded, repair })
    }

    /// Whether `count` more records can be appended before sequence numbers
    /// or file offsets run out.
    pub fn has_room(&self, count: u64) -> (room: bool)
        ensures
            room == self@.has_room(count as nat),
    {
        let used: u128 = self.durable_len as u128 + self.pending.len() as u128;
        assert(PAGE_IMAGE_LEN == 4129);
        let needed: u128 = count as u128 * PAGE_IMAGE_LEN as u128;
        self.next_seq as u128 + count as u128 <= u64::MAX as u128 && used + needed
            <= u64::MAX as u128
    }

    /// Buffers a record for the next [`Wal::flush`] and returns its sequence
    /// number. The record is not durable until the flush succeeds.
    pub fn append(&mut self, record: &WalRecord) -> (result: Result<u64>)
        requires
            !old(self)@.poisoned ==> old(self)@.has_room(1),
        ensures
            ({
                let (after, outcome) = append_step(old(self)@, record@);
                &&& final(self)@ == after
                &&& match result {
                    Ok(seq) => outcome == Ok::<u64, ErrorView>(seq),
                    Err(err) => outcome == Err::<u64, ErrorView>(err@),
                }
            }),
    {
        self.check_poisoned()?;
        let seq: u64 = self.next_seq;
        record.encode(seq, &mut self.pending);
        self.next_seq += 1;
        Ok(seq)
    }

    /// What is to be done to the file to make every appended record durable;
    /// its outcome goes to [`Wal::flushed`].
    pub fn flush(&self) -> (result: Result<Vec<FileOp>>)
        ensures
            match result {
                Ok(ops) => flush_step(self@) == Ok::<Seq<FileOpView>, ErrorView>(
                    file_op::op_views(ops@),
                ),
                Err(err) => flush_step(self@) == Err::<Seq<FileOpView>, ErrorView>(err@),
            },
    {
        self.check_poisoned()?;
        let mut ops: Vec<FileOp> = Vec::new();
        if self.pending.len() > 0 {
            ops.push(FileOp::write(self.durable_len, self.pending.as_slice()));
            ops.push(FileOp::SyncData);
        }
        assert(file_op::op_views(ops@) =~= flush_ops(self@));
        Ok(ops)
    }

    /// Takes the outcome of a [`Wal::flush`]. When this returns `Ok`, every
    /// appended record is durable.
    ///
    /// On failure the log is poisoned: retrying an fsync after an error is
    /// not safe on common operating systems, because the kernel may already
    /// have dropped the dirty data. Reopen the database to recover.
    pub fn flushed(&mut self, outcome: std::result::Result<(), std::io::Error>) -> (result: Result<
        (),
    >)
        requires
            old(self)@.has_room(0),
        ensures
            match outcome {
                Ok(_) => {
                    &&& result is Ok
                    &&& final(self)@ == (WalView {
                        durable_len: (old(self)@.durable_len + old(self)@.pending.len()) as u64,
                        pending: Seq::empty(),
                        ..old(self)@
                    })
                },
                Err(err) => {
                    &&& result matches Err(e) && e@ == ErrorView::Io(err)
                    &&& final(self)@ == failed(old(self)@)
                },
            },
    {
        if let Err(err) = outcome {
            self.poisoned = true;
            return Err(Error::Io(err));
        }
        self.durable_len += self.pending.len() as u64;
        self.pending.clear();
        assert(self@.pending =~= Seq::empty());
        Ok(())
    }

    /// What is to be done to the file to remove every record, keeping
    /// sequence numbers increasing; its outcome goes to [`Wal::reset_done`].
    ///
    /// Only do this once every change in the log is durable in the data
    /// file, or those changes will be lost.
    pub fn reset(&self) -> (result: Result<Vec<FileOp>>)
        ensures
            match result {
                Ok(ops) => reset_step(self@) == Ok::<Seq<FileOpView>, ErrorView>(
                    file_op::op_views(ops@),
                ),
                Err(err) => reset_step(self@) == Err::<Seq<FileOpView>, ErrorView>(err@),
            },
    {
        self.check_poisoned()?;
        if self.pending.len() > 0 {
            return Err(
                Error::InvalidArgument("cannot reset a WAL with unflushed records".to_owned()),
            );
        }
        // Either order of the first two is crash-safe: a stale header with no
        // records is empty, and a new header in front of old records rejects
        // them by sequence number.
        let header = encode_header(self.next_seq);
        let mut ops: Vec<FileOp> = Vec::new();
        ops.push(FileOp::SetLen(WAL_HEADER_SIZE as u64));
        ops.push(FileOp::write(0, header.as_slice()));
        ops.push(FileOp::SyncAll);
        assert(file_op::op_views(ops@) =~= reset_ops(self@));
        Ok(ops)
    }

    /// Takes the outcome of a [`Wal::reset`]. On failure the log is poisoned.
    pub fn reset_done(&mut self, outcome: std::result::Result<(), std::io::Error>) -> (result:
        Result<()>)
        ensures
            match outcome {
                Ok(_) => {
                    &&& result is Ok
                    &&& final(self)@ == (WalView {
                        durable_len: WAL_HEADER_SIZE as u64,
                        ..old(self)@
                    })
                },
                Err(err) => {
                    &&& result matches Err(e) && e@ == ErrorView::Io(err)
                    &&& final(self)@ == failed(old(self)@)
                },
            },
    {
        if let Err(err) = outcome {
            self.poisoned = true;
            return Err(Error::Io(err));
        }
        self.durable_len = WAL_HEADER_SIZE as u64;
        Ok(())
    }

    /// Sequence number the next appended record will get.
    pub fn next_seq(&self) -> (seq: u64)
        ensures
            seq == self@.next_seq,
    {
        self.next_seq
    }

    /// Size of the durable part of the log in bytes, including the header.
    pub fn durable_len(&self) -> (len: u64)
        ensures
            len == self@.durable_len,
    {
        self.durable_len
    }

    /// Fails if the log is poisoned.
    pub fn check_poisoned(&self) -> (result: Result<()>)
        ensures
            result is Ok <==> !self@.poisoned,
            result matches Err(err) ==> err@ == wal_poisoned(),
    {
        if self.poisoned {
            return Err(
                Error::Poisoned(
                    "an earlier WAL write failed; reopen the database to recover".to_owned(),
                ),
            );
        }
        Ok(())
    }
}

/// Builds the header of a log whose first record has number `first_seq`.
pub fn encode_header(first_seq: u64) -> (header: [u8; WAL_HEADER_SIZE])
    ensures
        header@ == encoded_header(first_seq),
{
    broadcast use bytes::lemma_le_bytes_len;

    proof {
        reveal(encoded_header);
    }
    let mut header = [0u8;WAL_HEADER_SIZE];
    bytes::set_bytes(&mut header, 4, &WAL_MAGIC);
    bytes::set_u32(&mut header, 12, WAL_FORMAT_VERSION);
    bytes::set_u64(&mut header, 16, first_seq);
    let ghost body = header@.subrange(4, WAL_HEADER_SIZE as int);
    assert(body =~= header_body(first_seq));
    let checksum: u32 = checksum::crc32c(header.as_slice().split_at(4).1);
    bytes::set_u32(&mut header, 0, checksum);
    assert(header@ =~= encoded_header(first_seq));
    header
}

/// Validates the header and returns the first record's sequence number.
pub fn decode_header(contents: &[u8]) -> (result: Result<u64>)
    ensures
        match result {
            Ok(first_seq) => decoded_header(contents@) == Ok::<u64, ErrorView>(first_seq),
            Err(err) => decoded_header(contents@) == Err::<u64, ErrorView>(err@),
        },
{
    if contents.len() < WAL_HEADER_SIZE || !bytes::matches_at(contents, 4, &WAL_MAGIC) {
        return Err(Error::UnsupportedFormat("not an oxenDB WAL file".to_owned()));
    }
    let header: &[u8] = contents.split_at(WAL_HEADER_SIZE).0;
    let covered: &[u8] = header.split_at(4).1;
    assert(covered@ =~= contents@.subrange(4, WAL_HEADER_SIZE as int));
    let stored: u32 = bytes::get_u32(contents, 0);
    if stored != checksum::crc32c(covered) {
        return Err(Error::corruption("WAL header checksum mismatch"));
    }
    let version: u32 = bytes::get_u32(contents, 12);
    if version != WAL_FORMAT_VERSION {
        let mut msg = "WAL format version ".to_owned();
        msg.append(text::decimal(version as u128).as_str());
        msg.append(", this build supports version ");
        msg.append(text::decimal(WAL_FORMAT_VERSION as u128).as_str());
        return Err(Error::UnsupportedFormat(msg));
    }
    Ok(bytes::get_u64(contents, 16))
}

/// The bytes of `records`, numbered from `first_seq`.
pub open spec fn encoded_records(records: Seq<RecordView>, first_seq: u64) -> Seq<u8>
    decreases records.len(),
{
    if records.len() == 0 {
        Seq::empty()
    } else {
        record::encoded_record(records[0], first_seq) + encoded_records(
            records.skip(1),
            (first_seq + 1) as u64,
        )
    }
}

/// A log file that holds exactly `records`, numbered from `first_seq`.
pub open spec fn log_file(records: Seq<RecordView>, first_seq: u64) -> Seq<u8> {
    encoded_header(first_seq) + encoded_records(records, first_seq)
}

/// What reading `records`, numbered from `first_seq`, gives.
pub open spec fn numbered(records: Seq<RecordView>, first_seq: u64) -> Seq<DecodedView> {
    Seq::new(
        records.len(),
        |i: int|
            DecodedView {
                seq: (first_seq + i) as u64,
                record: records[i],
                len: record::record_len(records[i]),
            },
    )
}

/// Records without their numbers.
pub open spec fn plain(records: Seq<DecodedView>) -> Seq<RecordView> {
    Seq::new(records.len(), |i: int| records[i].record)
}

/// Whether every image among `records` holds one page.
pub open spec fn all_wf(records: Seq<RecordView>) -> bool {
    forall|i: int| 0 <= i < records.len() ==> (#[trigger] records[i]).wf()
}

/// How many of `records` are complete in the first `cut` bytes of their
/// encoding.
pub open spec fn complete_records(records: Seq<RecordView>, cut: int) -> nat
    decreases records.len(),
{
    if records.len() == 0 || cut < record::record_len(records[0]) {
        0
    } else {
        1 + complete_records(records.skip(1), cut - record::record_len(records[0]))
    }
}

/// Two runs of records, one after the other, are encoded one after the other.
pub proof fn lemma_encoded_in_turn(a: Seq<RecordView>, b: Seq<RecordView>, first_seq: u64)
    requires
        first_seq + a.len() <= u64::MAX,
    ensures
        encoded_records(a + b, first_seq) == encoded_records(a, first_seq) + encoded_records(
            b,
            (first_seq + a.len()) as u64,
        ),
    decreases a.len(),
{
    if a.len() == 0 {
        assert(a + b =~= b);
        assert(encoded_records(a, first_seq) + encoded_records(b, first_seq) =~= encoded_records(
            b,
            first_seq,
        ));
    } else {
        lemma_encoded_in_turn(a.skip(1), b, (first_seq + 1) as u64);
        assert((a + b).skip(1) =~= a.skip(1) + b);
        assert(encoded_records(a + b, first_seq) =~= encoded_records(a, first_seq)
            + encoded_records(b, (first_seq + a.len()) as u64));
    }
}

/// No record is longer than a page image.
pub proof fn lemma_encoded_len(records: Seq<RecordView>, first_seq: u64)
    requires
        all_wf(records),
    ensures
        encoded_records(records, first_seq).len() <= records.len() * PAGE_IMAGE_LEN,
    decreases records.len(),
{
    if records.len() > 0 {
        lemma_rest_wf(records);
        lemma_encoded_len(records.skip(1), (first_seq + 1) as u64);
        record::lemma_record_round_trips(records[0], first_seq, Seq::empty());
        assert(records.len() * PAGE_IMAGE_LEN == (records.len() - 1) * PAGE_IMAGE_LEN
            + PAGE_IMAGE_LEN) by (nonlinear_arith);
    }
}

/// An encoded record is read back, and reading goes on behind it.
pub proof fn lemma_scan_step(first: RecordView, seq: u64, rest: Seq<u8>)
    requires
        first.wf(),
        seq < u64::MAX,
    ensures
        scanned(record::encoded_record(first, seq) + rest, seq) == continued(
            seq![DecodedView { seq, record: first, len: record::record_len(first) }],
            record::record_len(first),
            scanned(rest, (seq + 1) as u64),
        ),
        record::encoded_record(first, seq).len() == record::record_len(first),
{
    let head = record::encoded_record(first, seq);
    record::lemma_record_round_trips(first, seq, rest);
    assert((head + rest).skip(head.len() as int) =~= rest);
}

/// All but the first of some well-formed records are well formed.
proof fn lemma_rest_wf(records: Seq<RecordView>)
    requires
        all_wf(records),
        records.len() > 0,
    ensures
        records[0].wf(),
        all_wf(records.skip(1)),
{
    assert forall|i: int| 0 <= i < records.skip(1).len() implies (
    #[trigger] records.skip(1)[i]).wf() by {
        assert(records[i + 1].wf());
    }
}

/// Encoded records are read back, and reading goes on behind them.
pub proof fn lemma_scan_reads_back(records: Seq<RecordView>, first_seq: u64, rest: Seq<u8>)
    requires
        all_wf(records),
        first_seq + records.len() <= u64::MAX,
    ensures
        scanned(encoded_records(records, first_seq) + rest, first_seq) == continued(
            numbered(records, first_seq),
            encoded_records(records, first_seq).len(),
            scanned(rest, (first_seq + records.len()) as u64),
        ),
    decreases records.len(),
{
    let log = encoded_records(records, first_seq) + rest;
    let end = scanned(rest, (first_seq + records.len()) as u64);
    if records.len() == 0 {
        assert(log =~= rest);
        assert(numbered(records, first_seq) + end.records =~= end.records);
    } else {
        let next = (first_seq + 1) as u64;
        let head = record::encoded_record(records[0], first_seq);
        let behind = encoded_records(records.skip(1), next);
        lemma_rest_wf(records);
        lemma_scan_step(records[0], first_seq, behind + rest);
        lemma_scan_reads_back(records.skip(1), next, rest);
        assert(log =~= head + (behind + rest));
        let read = DecodedView {
            seq: first_seq,
            record: records[0],
            len: record::record_len(records[0]),
        };
        let others = numbered(records.skip(1), next);
        assert(numbered(records, first_seq) =~= seq![read] + others);
        assert(seq![read] + (others + end.records) =~= (seq![read] + others) + end.records);
    }
}

/// Of a cut-off run of records, exactly the complete ones are read. The rest
/// is an incomplete record, unless the cut is between two records.
pub proof fn lemma_scan_of_prefix(records: Seq<RecordView>, first_seq: u64, cut: int)
    requires
        all_wf(records),
        first_seq + records.len() <= u64::MAX,
        0 <= cut <= encoded_records(records, first_seq).len(),
    ensures
        ({
            let count = complete_records(records, cut);
            let kept = records.take(count as int);
            let scan = scanned(encoded_records(records, first_seq).take(cut), first_seq);
            &&& count <= records.len()
            &&& count == records.len() <==> cut == encoded_records(records, first_seq).len()
            &&& scan.records == numbered(kept, first_seq)
            &&& scan.len == encoded_records(kept, first_seq).len()
            &&& scan.next_seq == first_seq + count
            &&& scan.stop == if scan.len == cut {
                None
            } else {
                Some("incomplete record"@)
            }
        }),
    decreases records.len(),
{
    let all = encoded_records(records, first_seq);
    let log = all.take(cut);
    if records.len() == 0 {
        assert(records.take(0) =~= records);
        assert(numbered(records, first_seq) =~= Seq::empty());
    } else {
        lemma_rest_wf(records);
        let next = (first_seq + 1) as u64;
        let head = record::encoded_record(records[0], first_seq);
        let behind = encoded_records(records.skip(1), next);
        record::lemma_record_round_trips(records[0], first_seq, Seq::empty());
        if cut < record::record_len(records[0]) {
            assert(records.take(0) =~= Seq::empty());
            assert(numbered(records.take(0), first_seq) =~= Seq::empty());
            if cut > 0 {
                record::lemma_truncation_is_incomplete(records[0], first_seq, cut);
                assert(log =~= head.take(cut));
            }
        } else {
            let left = cut - head.len();
            let count = complete_records(records, cut);
            let kept = records.take(count as int);
            lemma_scan_of_prefix(records.skip(1), next, left);
            lemma_scan_step(records[0], first_seq, behind.take(left));
            assert(log =~= head + behind.take(left));
            assert(kept.skip(1) =~= records.skip(1).take(count - 1));
            let read = DecodedView {
                seq: first_seq,
                record: records[0],
                len: record::record_len(records[0]),
            };
            assert(numbered(kept, first_seq) =~= seq![read] + numbered(kept.skip(1), next));
        }
    }
}

/// What a scan accepts encodes again to exactly the bytes that were read.
pub proof fn lemma_scan_reencodes(log: Seq<u8>, first_seq: u64)
    ensures
        ({
            let scan = scanned(log, first_seq);
            &&& all_wf(plain(scan.records))
            &&& scan.len <= log.len()
            &&& scan.next_seq == first_seq + scan.records.len()
            &&& scan.records == numbered(plain(scan.records), first_seq)
            &&& encoded_records(plain(scan.records), first_seq) == log.take(scan.len as int)
        }),
    decreases log.len(),
{
    let scan = scanned(log, first_seq);
    lemma_scan_bounds(log, first_seq);
    if scan.records.len() == 0 {
        assert(scan.records =~= numbered(plain(scan.records), first_seq));
        assert(log.take(scan.len as int) =~= Seq::empty());
    } else {
        let read = record::decoded_record(log)->Ok_0;
        let next = (first_seq + 1) as u64;
        let rest = log.skip(read.len as int);
        let after = scanned(rest, next);
        lemma_scan_reencodes(rest, next);
        record::lemma_decoded_record_reencodes(log);
        assert(plain(scan.records).skip(1) =~= plain(after.records));
        assert(scan.records =~= numbered(plain(scan.records), first_seq)) by {
            assert forall|i: int| 0 <= i < scan.records.len() implies scan.records[i] == numbered(
                plain(scan.records),
                first_seq,
            )[i] by {
                if i > 0 {
                    assert(scan.records[i] == after.records[i - 1]);
                    assert(after.records[i - 1] == numbered(plain(after.records), next)[i - 1]);
                }
            }
        }
        assert(all_wf(plain(scan.records))) by {
            assert forall|i: int| 0 <= i < scan.records.len() implies (
            #[trigger] plain(scan.records)[i]).wf() by {
                if i > 0 {
                    assert(plain(after.records)[i - 1].wf());
                }
            }
        }
        assert(encoded_records(plain(scan.records), first_seq) =~= log.take(scan.len as int));
    }
}

/// A header has its fixed size.
pub proof fn lemma_wal_header_len(first_seq: u64)
    ensures
        encoded_header(first_seq).len() == WAL_HEADER_SIZE,
{
    broadcast use bytes::lemma_le_bytes_len;

    reveal(encoded_header);
}

/// A header decodes to the number it was made for, whatever follows it.
pub proof fn lemma_wal_header_round_trips(first_seq: u64, rest: Seq<u8>)
    ensures
        encoded_header(first_seq).len() == WAL_HEADER_SIZE,
        decoded_header(encoded_header(first_seq) + rest) == Ok::<u64, ErrorView>(first_seq),
{
    broadcast use bytes::lemma_le_bytes_len;

    reveal(encoded_header);
    let whole = encoded_header(first_seq) + rest;
    let body = header_body(first_seq);
    bytes::lemma_le_u32(checksum::crc32c_of(body));
    bytes::lemma_le_u32(WAL_FORMAT_VERSION);
    bytes::lemma_le_u64(first_seq);
    assert(whole.subrange(0, 4) =~= bytes::le_bytes(checksum::crc32c_of(body) as nat, 4));
    assert(whole.subrange(4, 12) =~= WAL_MAGIC@);
    assert(whole.subrange(4, 24) =~= body);
    assert(whole.subrange(12, 16) =~= bytes::le_bytes(WAL_FORMAT_VERSION as nat, 4));
    assert(whole.subrange(16, 24) =~= bytes::le_bytes(first_seq as nat, 8));
}

/// A header that is accepted encodes again to exactly the bytes that were
/// read.
pub proof fn lemma_wal_header_reencodes(contents: Seq<u8>)
    requires
        decoded_header(contents) is Ok,
    ensures
        contents.len() >= WAL_HEADER_SIZE,
        contents.take(WAL_HEADER_SIZE as int) == encoded_header(decoded_header(contents)->Ok_0),
{
    let first_seq = decoded_header(contents)->Ok_0;
    reveal(encoded_header);
    bytes::lemma_pow256();
    bytes::lemma_le_value_bound(contents.subrange(0, 4));
    bytes::lemma_le_value_bound(contents.subrange(16, 24));
    bytes::lemma_le_value_bytes(contents.subrange(0, 4));
    bytes::lemma_le_value_bytes(contents.subrange(12, 16));
    bytes::lemma_le_value_bytes(contents.subrange(16, 24));
    assert(contents.subrange(4, 24) =~= contents.subrange(4, 12) + contents.subrange(12, 16)
        + contents.subrange(16, 24));
    assert(contents.take(24) =~= contents.subrange(0, 4) + contents.subrange(4, 24));
}

/// Changing one byte of a valid header, by one or more of its bits, makes it
/// invalid.
pub proof fn lemma_wal_header_change_rejected(contents: Seq<u8>, at: int, value: u8)
    requires
        decoded_header(contents) is Ok,
        0 <= at < WAL_HEADER_SIZE,
        value != contents[at],
    ensures
        decoded_header(contents.update(at, value)) is Err,
{
    let changed = contents.update(at, value);
    if at < 4 {
        assert(changed.subrange(4, 24) =~= contents.subrange(4, 24));
        assert(changed.subrange(0, 4)[at] != contents.subrange(0, 4)[at]);
        if bytes::field(changed, 0, 4) == bytes::field(contents, 0, 4) {
            bytes::lemma_le_value_injective(changed.subrange(0, 4), contents.subrange(0, 4));
        }
    } else {
        assert(changed.subrange(0, 4) =~= contents.subrange(0, 4));
        assert(changed.subrange(4, 24) =~= contents.subrange(4, 24).update(at - 4, value));
        checksum::lemma_detects_byte_change(contents.subrange(4, 24), at - 4, value);
    }
}

/// Behind a header, opening a file reads the records that follow.
pub proof fn lemma_open_header(first_seq: u64, rest: Seq<u8>)
    ensures
        opened(encoded_header(first_seq) + rest) == Ok::<ScanView, ErrorView>(
            scanned(rest, first_seq),
        ),
{
    let file = encoded_header(first_seq) + rest;
    lemma_wal_header_len(first_seq);
    assert(file.skip(WAL_HEADER_SIZE as int) =~= rest);
    assert(decoded_header(file) == Ok::<u64, ErrorView>(first_seq)) by {
        lemma_wal_header_round_trips(first_seq, rest);
    }
}

/// A record with another number than the expected one ends the log.
proof fn lemma_wrong_number_ends_log(records: Seq<RecordView>, first_seq: u64, expected: u64)
    requires
        all_wf(records),
        records.len() > 0,
        expected != first_seq,
    ensures
        scanned(encoded_records(records, first_seq), expected).records.len() == 0,
        scanned(encoded_records(records, first_seq), expected).next_seq == expected,
{
    lemma_rest_wf(records);
    record::lemma_record_round_trips(
        records[0],
        first_seq,
        encoded_records(records.skip(1), (first_seq + 1) as u64),
    );
}

/// Opening a file that begins as a log file reads the records of that log
/// file, and goes on behind them.
pub proof fn lemma_open_goes_on(records: Seq<RecordView>, first_seq: u64, rest: Seq<u8>)
    requires
        all_wf(records),
        first_seq + records.len() <= u64::MAX,
    ensures
        opened(log_file(records, first_seq) + rest) == Ok::<ScanView, ErrorView>(
            continued(
                numbered(records, first_seq),
                encoded_records(records, first_seq).len(),
                scanned(rest, (first_seq + records.len()) as u64),
            ),
        ),
{
    let kept = encoded_records(records, first_seq) + rest;
    assert(log_file(records, first_seq) + rest =~= encoded_header(first_seq) + kept);
    lemma_open_header(first_seq, kept);
    lemma_scan_reads_back(records, first_seq, rest);
}

/// Opening a log file gives back exactly the records in it.
pub proof fn lemma_open_reads_back(records: Seq<RecordView>, first_seq: u64)
    requires
        all_wf(records),
        first_seq + records.len() <= u64::MAX,
    ensures
        opened(log_file(records, first_seq)) == Ok::<ScanView, ErrorView>(
            ScanView {
                records: numbered(records, first_seq),
                len: encoded_records(records, first_seq).len(),
                next_seq: (first_seq + records.len()) as u64,
                stop: None,
            },
        ),
{
    lemma_open_goes_on(records, first_seq, Seq::empty());
    assert(log_file(records, first_seq) + Seq::<u8>::empty() =~= log_file(records, first_seq));
    assert(numbered(records, first_seq) + Seq::<DecodedView>::empty() =~= numbered(
        records,
        first_seq,
    ));
}

/// Flushing appends exactly the pending records to the log file.
pub proof fn lemma_flush_appends(
    records: Seq<RecordView>,
    batch: Seq<RecordView>,
    first_seq: u64,
    wal: WalView,
)
    requires
        first_seq + records.len() <= u64::MAX,
        wal.durable_len == log_file(records, first_seq).len(),
        wal.pending == encoded_records(batch, (first_seq + records.len()) as u64),
    ensures
        file_op::all_applied(log_file(records, first_seq), flush_ops(wal)) == log_file(
            records + batch,
            first_seq,
        ),
{
    let file = log_file(records, first_seq);
    let ops = flush_ops(wal);
    lemma_encoded_in_turn(records, batch, first_seq);
    if wal.pending.len() == 0 {
        assert(file_op::all_applied(file, ops) == file);
    } else {
        file_op::lemma_two_applied(
            file,
            FileOpView::Write { offset: wal.durable_len as nat, bytes: wal.pending },
            FileOpView::SyncData,
        );
    }
    assert(file_op::all_applied(file, ops) =~= log_file(records + batch, first_seq));
}

/// If power is lost during a flush and any part of the batch is missing from
/// its end, opening the log gives back every earlier record and of the batch
/// only a strict prefix.
pub proof fn lemma_torn_flush(
    records: Seq<RecordView>,
    batch: Seq<RecordView>,
    first_seq: u64,
    cut: int,
)
    requires
        all_wf(records),
        all_wf(batch),
        first_seq + records.len() + batch.len() <= u64::MAX,
        log_file(records, first_seq).len() <= cut < log_file(records + batch, first_seq).len(),
    ensures
        ({
            let found = opened(log_file(records + batch, first_seq).take(cut));
            let count = complete_records(batch, cut - log_file(records, first_seq).len());
            &&& count < batch.len()
            &&& found matches Ok(scan) && scan.records == numbered(
                records + batch.take(count as int),
                first_seq,
            )
        }),
{
    let next = (first_seq + records.len()) as u64;
    let after = encoded_records(batch, next);
    let left = cut - log_file(records, first_seq).len();
    let count = complete_records(batch, left);
    assert(log_file(records + batch, first_seq) =~= log_file(records, first_seq) + after) by {
        lemma_encoded_in_turn(records, batch, first_seq);
    }
    assert(log_file(records + batch, first_seq).take(cut) =~= log_file(records, first_seq)
        + after.take(left));
    lemma_open_goes_on(records, first_seq, after.take(left));
    assert(count < batch.len() && scanned(after.take(left), next).records == numbered(
        batch.take(count as int),
        next,
    )) by {
        lemma_scan_of_prefix(batch, next, left);
    }
    assert(numbered(records + batch.take(count as int), first_seq) =~= numbered(records, first_seq)
        + numbered(batch.take(count as int), next));
}

/// If the beginning of a record never reached the disk, nothing behind it is
/// read, whatever did reach the disk there.
pub proof fn lemma_hole_ends_log(records: Seq<RecordView>, first_seq: u64, rest: Seq<u8>)
    requires
        all_wf(records),
        first_seq + records.len() <= u64::MAX,
        rest.len() >= 4,
        forall|i: int| 0 <= i < 4 ==> rest[i] == 0,
    ensures
        opened(log_file(records, first_seq) + rest) matches Ok(scan) && scan.records == numbered(
            records,
            first_seq,
        ),
{
    let next = (first_seq + records.len()) as u64;
    lemma_open_goes_on(records, first_seq, rest);
    record::lemma_zeroed_bytes_invalid(rest);
    assert(scanned(rest, next).records.len() == 0);
    assert(numbered(records, first_seq) + scanned(rest, next).records =~= numbered(
        records,
        first_seq,
    ));
}

/// Once the discarded bytes are cut off, the file holds exactly the records
/// that were read, so later appends are readable.
pub proof fn lemma_repair_keeps_records(contents: Seq<u8>)
    requires
        opened(contents) is Ok,
    ensures
        ({
            let scan = opened(contents)->Ok_0;
            let first_seq = decoded_header(contents)->Ok_0;
            let records = plain(scan.records);
            &&& all_wf(records)
            &&& first_seq + records.len() <= u64::MAX
            &&& scan.records == numbered(records, first_seq)
            &&& scan.next_seq == first_seq + records.len()
            &&& file_op::all_applied(contents, repair_ops(scan)) == log_file(records, first_seq)
        }),
{
    let scan = opened(contents)->Ok_0;
    let first_seq = decoded_header(contents)->Ok_0;
    let records = plain(scan.records);
    let log = contents.skip(WAL_HEADER_SIZE as int);
    let ops = repair_ops(scan);
    lemma_wal_header_reencodes(contents);
    lemma_scan_reencodes(log, first_seq);
    lemma_scan_bounds(log, first_seq);
    if scan.stop is Some {
        file_op::lemma_two_applied(
            contents,
            FileOpView::SetLen(WAL_HEADER_SIZE as nat + scan.len),
            FileOpView::SyncAll,
        );
    } else {
        assert(file_op::all_applied(contents, ops) == contents);
    }
    assert(file_op::all_applied(contents, ops) =~= log_file(records, first_seq));
}

/// Resetting leaves an empty log that goes on counting where it was.
pub proof fn lemma_reset_empties(file: Seq<u8>, wal: WalView)
    ensures
        file_op::all_applied(file, reset_ops(wal)) == log_file(Seq::empty(), wal.next_seq),
{
    let header = encoded_header(wal.next_seq);
    let emptied = file_op::resized(file, WAL_HEADER_SIZE as nat);
    lemma_wal_header_len(wal.next_seq);
    file_op::lemma_three_applied(
        file,
        FileOpView::SetLen(WAL_HEADER_SIZE as nat),
        FileOpView::Write { offset: 0, bytes: header },
        FileOpView::SyncAll,
    );
    assert(file_op::written(emptied, 0, header) =~= log_file(Seq::empty(), wal.next_seq));
}

/// If power is lost during a reset, after either one of its two changes
/// reached the disk without the other, opening the log gives no record.
pub proof fn lemma_torn_reset_is_empty(records: Seq<RecordView>, first_seq: u64)
    requires
        all_wf(records),
        records.len() > 0,
        first_seq + records.len() <= u64::MAX,
    ensures
        ({
            let file = log_file(records, first_seq);
            let next = (first_seq + records.len()) as u64;
            let cut_only = opened(file_op::resized(file, WAL_HEADER_SIZE as nat));
            let header_only = opened(file_op::written(file, 0, encoded_header(next)));
            &&& cut_only matches Ok(scan) && scan.records.len() == 0
            &&& header_only matches Ok(scan) && scan.records.len() == 0 && scan.next_seq == next
        }),
{
    let file = log_file(records, first_seq);
    let log = encoded_records(records, first_seq);
    let next = (first_seq + records.len()) as u64;
    lemma_wal_header_len(first_seq);
    lemma_wal_header_len(next);
    assert(file_op::resized(file, WAL_HEADER_SIZE as nat) =~= encoded_header(first_seq) + Seq::<
        u8,
    >::empty());
    lemma_open_header(first_seq, Seq::empty());
    assert(file_op::written(file, 0, encoded_header(next)) =~= encoded_header(next) + log);
    lemma_open_header(next, log);
    lemma_wrong_number_ends_log(records, first_seq, next);
}

/// Once what [`Wal::flush`] asks for was done, a crash loses no record: the
/// log file is what it was with every pending byte behind it.
pub proof fn lemma_flush_is_durable(file: Seq<u8>, wal: WalView, found: Seq<u8>)
    requires
        file.len() == wal.durable_len,
        file_op::crash_leaves(file, flush_ops(wal), found),
    ensures
        found == file + wal.pending,
{
    let ops = flush_ops(wal);
    if wal.pending.len() == 0 {
        assert(found =~= file + wal.pending);
    } else {
        assert forall|k: int| 0 <= k < ops.len() implies #[trigger] file_op::settled(ops, k)
            || ops[k] is SyncData || ops[k] is SyncAll by {
            if k == 0 {
                assert(file_op::settles(ops[1], ops[0]));
            }
        }
        file_op::lemma_durable(file, ops, found);
        file_op::lemma_two_applied(file, ops[0], ops[1]);
        assert(ops =~= seq![ops[0], ops[1]]);
        assert(found =~= file + wal.pending);
    }
}

/// If power is lost while records are flushed, the log file is as it was or has
/// all of them, as far as blocks are not torn.
pub proof fn lemma_crash_during_flush(file: Seq<u8>, wal: WalView, found: Seq<u8>)
    requires
        file.len() == wal.durable_len,
        file_op::crash_during(file, flush_ops(wal), found),
    ensures
        found == file || found == file + wal.pending,
{
    let ops = flush_ops(wal);
    let done = choose|done: int|
        0 <= done <= ops.len() && #[trigger] file_op::crash_leaves(file, ops.take(done), found);
    let kept = choose|kept: Seq<bool>| #[trigger]
        file_op::survives(ops.take(done), kept) && found == file_op::some_applied(
            file,
            ops.take(done),
            kept,
        );
    if done == 1 {
        assert(ops.take(1) =~= seq![ops[0]]);
        file_op::lemma_some_of_one(file, ops[0], kept);
        assert(kept[0] ==> found =~= file + wal.pending);
    } else if done == 2 {
        assert(ops.take(2) =~= ops);
        lemma_flush_is_durable(file, wal, found);
    }
}

/// A log that is created is there after a crash, without records.
pub proof fn lemma_new_log_is_durable(found: Seq<u8>)
    requires
        file_op::crash_leaves(Seq::empty(), create_ops(), found),
    ensures
        found == log_file(Seq::empty(), 0),
        opened(found) matches Ok(scan) && scan.records.len() == 0 && scan.next_seq == 0
            && scan.stop is None,
{
    let ops = create_ops();
    file_op::lemma_synced(Seq::empty(), ops, found);
    file_op::lemma_two_applied(Seq::empty(), ops[0], ops[1]);
    assert(ops =~= seq![ops[0], ops[1]]);
    lemma_wal_header_len(0);
    assert(found =~= log_file(Seq::empty(), 0));
    lemma_open_reads_back(Seq::empty(), 0);
}

/// Once what [`Wal::reset`] asks for was done, the log has no records even
/// after a crash, and numbers go on where they were.
pub proof fn lemma_reset_is_durable(file: Seq<u8>, wal: WalView, found: Seq<u8>)
    requires
        file_op::crash_leaves(file, reset_ops(wal), found),
    ensures
        found == log_file(Seq::empty(), wal.next_seq),
        opened(found) matches Ok(scan) && scan.records.len() == 0 && scan.next_seq == wal.next_seq
            && scan.stop is None,
{
    file_op::lemma_synced(file, reset_ops(wal), found);
    lemma_reset_empties(file, wal);
    lemma_open_reads_back(Seq::empty(), wal.next_seq);
}

/// If power is lost while a log is emptied, either all of its records are
/// still there or none is, as far as the header is not torn.
pub proof fn lemma_crash_during_reset(
    records: Seq<RecordView>,
    first_seq: u64,
    wal: WalView,
    found: Seq<u8>,
)
    requires
        all_wf(records),
        first_seq + records.len() == wal.next_seq,
        file_op::crash_during(log_file(records, first_seq), reset_ops(wal), found),
    ensures
        opened(found) matches Ok(scan) && (scan.records == numbered(records, first_seq)
            || scan.records.len() == 0),
{
    let file = log_file(records, first_seq);
    let ops = reset_ops(wal);
    let cut = ops[0];
    let header = ops[1];
    let done = choose|done: int|
        0 <= done <= ops.len() && #[trigger] file_op::crash_leaves(file, ops.take(done), found);
    let kept = choose|kept: Seq<bool>| #[trigger]
        file_op::survives(ops.take(done), kept) && found == file_op::some_applied(
            file,
            ops.take(done),
            kept,
        );
    lemma_open_reads_back(records, first_seq);
    lemma_wal_header_len(first_seq);
    lemma_wal_header_len(wal.next_seq);
    assert(opened(file_op::applied(file, cut)) matches Ok(scan) && scan.records.len() == 0) by {
        if records.len() > 0 {
            lemma_torn_reset_is_empty(records, first_seq);
        } else {
            assert(file_op::applied(file, cut) =~= file);
        }
    }
    assert(opened(file_op::applied(file, header)) matches Ok(scan) && scan.records.len() == 0) by {
        if records.len() > 0 {
            lemma_torn_reset_is_empty(records, first_seq);
        } else {
            assert(file_op::applied(file, header) =~= file);
        }
    }
    assert(opened(file_op::applied(file_op::applied(file, cut), header)) matches Ok(scan)
        && scan.records.len() == 0) by {
        lemma_open_reads_back(Seq::empty(), wal.next_seq);
        assert(file_op::applied(file_op::applied(file, cut), header) =~= log_file(
            Seq::empty(),
            wal.next_seq,
        ));
    }
    if done == 1 {
        assert(ops.take(1) =~= seq![cut]);
        file_op::lemma_some_of_one(file, cut, kept);
    } else if done == 2 {
        assert(ops.take(2) =~= seq![cut, header]);
        file_op::lemma_some_of_two(file, cut, header, kept);
    } else if done == 3 {
        assert(ops.take(3) =~= ops);
        lemma_reset_is_durable(file, wal, found);
    }
}

/// Cutting off what is not a record is durable: after a crash the log reads
/// back with the same records, and nothing is left to be cut off.
pub proof fn lemma_repair_is_durable(contents: Seq<u8>, found: Seq<u8>)
    requires
        opened(contents) is Ok,
        file_op::crash_leaves(contents, repair_ops(opened(contents)->Ok_0), found),
    ensures
        opened(found) matches Ok(scan) && scan.records == opened(contents)->Ok_0.records
            && scan.next_seq == opened(contents)->Ok_0.next_seq && scan.stop is None,
{
    let scan = opened(contents)->Ok_0;
    let ops = repair_ops(scan);
    lemma_repair_keeps_records(contents);
    if scan.stop is Some {
        file_op::lemma_synced(contents, ops, found);
    }
    let records = plain(scan.records);
    let first_seq = decoded_header(contents)->Ok_0;
    lemma_open_reads_back(records, first_seq);
}

/// The header of a log, byte by byte: the checksum of what follows it, the
/// magic number, the version, and the number of the first record.
pub proof fn lemma_wal_header_layout(first_seq: u64)
    ensures
        ({
            let header = encoded_header(first_seq);
            &&& header.len() == 24
            &&& header.take(4) == bytes::le_bytes(checksum::crc32c_of(header.skip(4)) as nat, 4)
            &&& header.subrange(4, 12) == seq![
                'o' as u8,
                'x' as u8,
                'e' as u8,
                'n' as u8,
                'W' as u8,
                'A' as u8,
                'L' as u8,
                0u8,
            ]
            &&& header.subrange(12, 16) == seq![1u8, 0u8, 0u8, 0u8]
            &&& header.subrange(16, 24) == bytes::le_bytes(first_seq as nat, 8)
        }),
{
    broadcast use bytes::lemma_le_bytes_len;

    reveal(encoded_header);
    let header = encoded_header(first_seq);
    let body = header_body(first_seq);
    bytes::lemma_u32_layout(WAL_FORMAT_VERSION);
    assert(header.skip(4) =~= body);
    assert(header.take(4) =~= bytes::le_bytes(checksum::crc32c_of(body) as nat, 4));
    assert(header.subrange(4, 12) =~= WAL_MAGIC@);
    assert(WAL_MAGIC@ =~= seq![
        'o' as u8,
        'x' as u8,
        'e' as u8,
        'n' as u8,
        'W' as u8,
        'A' as u8,
        'L' as u8,
        0u8,
    ]);
    assert(header.subrange(12, 16) =~= bytes::le_bytes(WAL_FORMAT_VERSION as nat, 4));
    assert(header.subrange(16, 24) =~= bytes::le_bytes(first_seq as nat, 8));
}

/// A file is a log exactly if it begins with a header, and then the number of
/// its first record is the header's. A file without the magic number, or of
/// another version, is of another format; one with a wrong checksum is corrupt.
pub proof fn lemma_valid_wal_header(contents: Seq<u8>)
    ensures
        match decoded_header(contents) {
            Ok(first_seq) => encoded_header(first_seq).is_prefix_of(contents),
            Err(ErrorView::UnsupportedFormat(_)) => {
                ||| contents.len() < 24
                ||| contents.subrange(4, 12) != encoded_header(0).subrange(4, 12)
                ||| contents.subrange(12, 16) != encoded_header(0).subrange(12, 16)
            },
            Err(ErrorView::Corruption(_)) => {
                &&& contents.len() >= 24
                &&& contents.subrange(4, 12) == encoded_header(0).subrange(4, 12)
                &&& contents.take(4) != bytes::le_bytes(
                    checksum::crc32c_of(contents.subrange(4, 24)) as nat,
                    4,
                )
            },
            Err(_) => false,
        },
        forall|first_seq: u64| #[trigger]
            encoded_header(first_seq).is_prefix_of(contents) ==> decoded_header(contents) == Ok::<
                u64,
                ErrorView,
            >(first_seq),
{
    lemma_wal_header_layout(0);
    assert(WAL_MAGIC@ =~= encoded_header(0).subrange(4, 12));
    if contents.len() >= 24 {
        bytes::lemma_le_value_bytes(contents.subrange(0, 4));
        bytes::lemma_le_value_bytes(contents.subrange(12, 16));
        bytes::lemma_le_u32(checksum::crc32c_of(contents.subrange(4, 24)));
        bytes::lemma_le_u32(WAL_FORMAT_VERSION);
        bytes::lemma_u32_layout(WAL_FORMAT_VERSION);
        assert(contents.take(4) =~= contents.subrange(0, 4));
    }
    if decoded_header(contents) is Ok {
        lemma_wal_header_reencodes(contents);
    }
    assert forall|first_seq: u64| #[trigger]
        encoded_header(first_seq).is_prefix_of(contents) implies decoded_header(contents) == Ok::<
        u64,
        ErrorView,
    >(first_seq) by {
        let rest = contents.skip(encoded_header(first_seq).len() as int);
        lemma_wal_header_round_trips(first_seq, rest);
        assert(contents =~= encoded_header(first_seq) + rest);
    }
}

/// Reading a log takes as many records as there are: they are encoded one
/// after the other from the start, with numbers that go up by one, and what
/// follows them does not begin with the record that would be next. Reading
/// stops without a reason exactly at the end.
pub proof fn lemma_scan_is_maximal(log: Seq<u8>, first_seq: u64, next: RecordView)
    ensures
        ({
            let scan = scanned(log, first_seq);
            let rest = log.skip(scan.len as int);
            &&& scan.len <= log.len()
            &&& log.take(scan.len as int) == encoded_records(plain(scan.records), first_seq)
            &&& scan.records == numbered(plain(scan.records), first_seq)
            &&& scan.next_seq == first_seq + scan.records.len()
            &&& scan.stop is None <==> scan.len == log.len()
            &&& next.wf() && scan.next_seq < u64::MAX ==> !record::encoded_record(
                next,
                scan.next_seq,
            ).is_prefix_of(rest)
        }),
{
    let scan = scanned(log, first_seq);
    let rest = log.skip(scan.len as int);
    lemma_scan_bounds(log, first_seq);
    lemma_scan_reencodes(log, first_seq);
    lemma_scan_stops(log, first_seq);
    if next.wf() && scan.next_seq < u64::MAX && record::encoded_record(
        next,
        scan.next_seq,
    ).is_prefix_of(rest) {
        record::lemma_decoded_iff_encoded(rest, next, scan.next_seq);
        record::lemma_record_layout(next, scan.next_seq);
    }
}

/// Where a scan stops, the next record does not follow.
proof fn lemma_scan_stops(log: Seq<u8>, first_seq: u64)
    ensures
        ({
            let scan = scanned(log, first_seq);
            let rest = log.skip(scan.len as int);
            &&& scan.len <= log.len()
            &&& scan.stop is None <==> scan.len == log.len()
            &&& rest.len() > 0 && scan.next_seq < u64::MAX ==> !(record::decoded_record(rest)
                matches Ok(decoded) && decoded.seq == scan.next_seq)
        }),
    decreases log.len(),
{
    assert(log.skip(0) =~= log);
    if log.len() > 0 {
        if let Ok(decoded) = record::decoded_record(log) {
            if decoded.seq == first_seq && first_seq < u64::MAX {
                let behind = log.skip(decoded.len as int);
                lemma_scan_stops(behind, (first_seq + 1) as u64);
                let inner = scanned(behind, (first_seq + 1) as u64);
                assert(log.skip((decoded.len + inner.len) as int) =~= behind.skip(
                    inner.len as int,
                ));
            }
        }
    }
}

/// Appending a record gives it the next number and puts its bytes behind those
/// that are pending; nothing else changes. Flushed records count as durable
/// and are no longer pending.
pub proof fn lemma_append_then_flush(
    records: Seq<RecordView>,
    first_seq: u64,
    wal: WalView,
    next: RecordView,
    found: Seq<u8>,
)
    requires
        all_wf(records),
        next.wf(),
        first_seq + records.len() == wal.next_seq,
        wal.next_seq < u64::MAX,
        wal.durable_len == log_file(records, first_seq).len(),
        wal.pending.len() == 0,
        !wal.poisoned,
        file_op::crash_leaves(
            log_file(records, first_seq),
            flush_ops(append_step(wal, next).0),
            found,
        ),
    ensures
        append_step(wal, next).1 == Ok::<u64, ErrorView>(wal.next_seq),
        append_step(wal, next).0.next_seq == wal.next_seq + 1,
        opened(found) matches Ok(scan) && scan.records == numbered(records, first_seq).push(
            DecodedView {
                seq: wal.next_seq,
                record: next,
                len: record::record_len(next),
            },
        ) && scan.next_seq == wal.next_seq + 1,
{
    let after = append_step(wal, next).0;
    let all = records.push(next);
    lemma_flush_is_durable(log_file(records, first_seq), after, found);
    assert(wal.pending + record::encoded_record(next, wal.next_seq) =~= record::encoded_record(
        next,
        wal.next_seq,
    ));
    let one = seq![next];
    lemma_encoded_in_turn(records, one, first_seq);
    assert(one.skip(1) =~= Seq::empty());
    assert(encoded_records(one.skip(1), (wal.next_seq + 1) as u64) =~= Seq::empty());
    assert(encoded_records(one, wal.next_seq) =~= record::encoded_record(next, wal.next_seq));
    assert(records + one =~= all);
    assert(found =~= log_file(all, first_seq));
    lemma_open_reads_back(all, first_seq);
    assert(numbered(all, first_seq) =~= numbered(records, first_seq).push(
        DecodedView { seq: wal.next_seq, record: next, len: record::record_len(next) },
    ));
}

/// A log that was opened goes on where it ended: whatever its file held, once
/// what is no record was cut off, and a record appended and flushed, the file
/// reads back as the records it had with that record behind them.
pub proof fn lemma_opened_log_goes_on(contents: Seq<u8>, next: RecordView, found: Seq<u8>)
    requires
        opened(contents) is Ok,
        opened(contents)->Ok_0.next_seq < u64::MAX,
        contents.len() <= u64::MAX,
        next.wf(),
        file_op::crash_leaves(
            file_op::all_applied(contents, repair_ops(opened(contents)->Ok_0)),
            flush_ops(append_step(opened_wal(opened(contents)->Ok_0), next).0),
            found,
        ),
    ensures
        ({
            let scan = opened(contents)->Ok_0;
            &&& append_step(opened_wal(scan), next).1 == Ok::<u64, ErrorView>(scan.next_seq)
            &&& opened(found) matches Ok(after) && after.records == scan.records.push(
                DecodedView {
                    seq: scan.next_seq,
                    record: next,
                    len: record::record_len(next),
                },
            ) && after.next_seq == scan.next_seq + 1
        }),
{
    let scan = opened(contents)->Ok_0;
    let first_seq = decoded_header(contents)->Ok_0;
    let records = plain(scan.records);
    lemma_repair_keeps_records(contents);
    lemma_scan_reencodes(contents.skip(WAL_HEADER_SIZE as int), first_seq);
    lemma_wal_header_len(first_seq);
    lemma_append_then_flush(records, first_seq, opened_wal(scan), next, found);
}

/// Why reading a log stopped is what is wrong with the bytes where it stopped:
/// they end too early, are no record, or are a record with another number.
pub proof fn lemma_stop_reason(log: Seq<u8>, first_seq: u64)
    ensures
        ({
            let scan = scanned(log, first_seq);
            let rest = log.skip(scan.len as int);
            scan.stop matches Some(reason) ==> match record::decoded_record(rest) {
                Err(DecodeErrorView::Incomplete) => reason == "incomplete record"@,
                Err(DecodeErrorView::Invalid(why)) => reason == why,
                Ok(decoded) => if decoded.seq != scan.next_seq {
                    reason == "expected sequence number "@ + text::decimal_chars(
                        scan.next_seq as nat,
                    ) + ", found "@ + text::decimal_chars(decoded.seq as nat)
                } else {
                    decoded.seq == u64::MAX
                },
            }
        }),
    decreases log.len(),
{
    assert(log.skip(0) =~= log);
    if log.len() > 0 {
        if let Ok(decoded) = record::decoded_record(log) {
            if decoded.seq == first_seq && first_seq < u64::MAX {
                let behind = log.skip(decoded.len as int);
                let inner = scanned(behind, (first_seq + 1) as u64);
                lemma_stop_reason(behind, (first_seq + 1) as u64);
                lemma_scan_stops(behind, (first_seq + 1) as u64);
                assert(log.skip((decoded.len + inner.len) as int) =~= behind.skip(
                    inner.len as int,
                ));
            }
        }
    }
}

} // verus!
