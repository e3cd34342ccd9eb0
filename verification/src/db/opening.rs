//! Opening a database whose data file and log both exist.
//!
//! Recovery runs before the data file is opened normally: committed images,
//! including any header image, go straight into the file. Only then is the
//! file opened and the log emptied.

use vstd::prelude::*;

use super::{Database, OpenReport, Options};
use crate::error::{Error, ErrorView, Result};
use crate::storage::disk::DiskManager;
use crate::storage::file_op::FileOp;
use crate::storage::page::{Page, PageId};
use crate::storage::recovery::RecoveryStats;
use crate::storage::wal::log::{DiscardedTail, ScanView, WalView};
use crate::storage::wal::record::{DecodedRecord, DecodedView, RecordView};
use crate::storage::wal::{log, TxnId, Wal};
use crate::storage::{buffer_pool, disk, file_op, recovery};

verus! {

/// The log was read; its committed changes are to be replayed.
#[derive(Debug)]
pub struct Opening {
    wal: Wal,
    records: Vec<DecodedRecord>,
    discarded: Option<DiscardedTail>,
}

/// The changes are being replayed; then the data file is to be opened.
#[derive(Debug)]
pub struct Replaying {
    wal: Wal,
    stats: RecoveryStats,
    discarded: Option<DiscardedTail>,
}

/// The data file is open; the log is being emptied.
#[derive(Debug)]
pub struct Resetting {
    wal: Wal,
    disk: DiskManager,
    stats: RecoveryStats,
    discarded: Option<DiscardedTail>,
}

/// What was cut off the end of the log, with the reason as characters.
pub open spec fn tail_view(discarded: Option<DiscardedTail>) -> Option<(u64, Seq<char>)> {
    match discarded {
        Some(tail) => Some((tail.bytes, tail.reason@)),
        None => None,
    }
}

/// What is cut off the end of a log file of `file_len` bytes.
pub open spec fn tail_of(scan: ScanView, file_len: nat) -> Option<(u64, Seq<char>)> {
    match scan.stop {
        Some(reason) => Some(((file_len - log::WAL_HEADER_SIZE - scan.len) as u64, reason)),
        None => None,
    }
}

impl Opening {
    /// The log, positioned behind its last valid record.
    pub closed spec fn log(self) -> WalView {
        self.wal@
    }

    /// The records in the log.
    pub closed spec fn read(self) -> Seq<DecodedView> {
        log::record_views(self.records@)
    }

    /// What was cut off the end of the log.
    pub closed spec fn tail(self) -> Option<(u64, Seq<char>)> {
        tail_view(self.discarded)
    }

    /// Reads a log with these contents. Returns what is to be done to the
    /// log to remove what follows its last valid record.
    pub fn new(contents: &[u8]) -> (result: Result<(Opening, Vec<FileOp>)>)
        ensures
            match result {
                Ok((opening, ops)) => log::opened(contents@) matches Ok(scan) && {
                    &&& opening.log() == log::opened_wal(scan)
                    &&& opening.read() == scan.records
                    &&& opening.tail() == tail_of(scan, contents@.len())
                    &&& file_op::op_views(ops@) == log::repair_ops(scan)
                },
                Err(err) => log::opened(contents@) == Err::<ScanView, ErrorView>(err@),
            },
    {
        let opened = Wal::open(contents)?;
        let opening = Opening {
            wal: opened.wal,
            records: opened.records,
            discarded: opened.discarded,
        };
        Ok((opening, opened.repair))
    }

    /// Plans the replay. Returns what is to be done to the data file.
    pub fn replay(self) -> (result: Result<(Replaying, Vec<FileOp>)>)
        ensures
            match result {
                Ok((replaying, ops)) => recovery::replayed(self.read()) matches Ok(images) && {
                    &&& replaying.log() == self.log()
                    &&& replaying.tail() == self.tail()
                    &&& recovery::is_stats_of(replaying.replayed(), self.read(), images)
                    &&& file_op::op_views(ops@) == recovery::replay_ops(images)
                },
                Err(err) => recovery::replayed(self.read()) == Err::<
                    Map<PageId, Seq<u8>>,
                    ErrorView,
                >(err@),
            },
    {
        let replay = recovery::replay(self.records.as_slice())?;
        let replaying = Replaying {
            wal: self.wal,
            stats: replay.stats,
            discarded: self.discarded,
        };
        Ok((replaying, replay.ops))
    }
}

impl Replaying {
    /// The log, positioned behind its last valid record.
    pub closed spec fn log(self) -> WalView {
        self.wal@
    }

    /// What was replayed.
    pub closed spec fn replayed(self) -> RecoveryStats {
        self.stats
    }

    /// What was cut off the end of the log.
    pub closed spec fn tail(self) -> Option<(u64, Seq<char>)> {
        tail_view(self.discarded)
    }

    /// Opens the data file of `file_len` bytes, which begins with
    /// `first_page`. Replay fsynced it, so the log is no longer needed:
    /// returns what is to be done to empty it.
    pub fn open_data(self, file_len: u64, first_page: &Page) -> (result: Result<
        (Resetting, Vec<FileOp>),
    >)
        requires
            !self.log().poisoned,
            self.log().pending.len() == 0,
        ensures
            match result {
                Ok((resetting, ops)) => {
                    &&& disk::opened(file_len as nat, first_page@) == Ok::<u64, ErrorView>(
                        resetting.count(),
                    )
                    &&& 1 <= resetting.count() <= disk::MAX_PAGE_COUNT
                    &&& resetting.log() == self.log()
                    &&& resetting.replayed() == self.replayed()
                    &&& resetting.tail() == self.tail()
                    &&& file_op::op_views(ops@) == log::reset_ops(self.log())
                },
                Err(err) => disk::opened(file_len as nat, first_page@) == Err::<u64, ErrorView>(
                    err@,
                ),
            },
    {
        let disk = DiskManager::open(file_len, first_page)?;
        let ops = self.wal.reset()?;
        let resetting = Resetting {
            wal: self.wal,
            disk,
            stats: self.stats,
            discarded: self.discarded,
        };
        Ok((resetting, ops))
    }
}

impl Resetting {
    /// The log, before it is emptied.
    pub closed spec fn log(self) -> WalView {
        self.wal@
    }

    /// The number of pages in the data file.
    pub closed spec fn count(self) -> u64 {
        self.disk.count()
    }

    /// What was replayed.
    pub closed spec fn replayed(self) -> RecoveryStats {
        self.stats
    }

    /// What was cut off the end of the log.
    pub closed spec fn tail(self) -> Option<(u64, Seq<char>)> {
        tail_view(self.discarded)
    }

    /// Takes the outcome of emptying the log and puts the database together.
    pub fn finish(
        self,
        outcome: std::result::Result<(), std::io::Error>,
        options: &Options,
    ) -> (result: Result<Database>)
        requires
            1 <= self.count() <= disk::MAX_PAGE_COUNT,
            self.log().pending.len() == 0,
        ensures
            match outcome {
                Err(err) => result matches Err(e) && e@ == ErrorView::Io(err),
                Ok(_) => match result {
                    Ok(db) => {
                        &&& buffer_pool::capacity_error(options.buffer_pool_pages) is None
                        &&& db.wf()
                        &&& super::is_fresh(
                            db@,
                            self.count(),
                            super::emptied(self.log()),
                            *options,
                        )
                        &&& !db.reported().created
                        &&& db.reported().recovery == self.replayed()
                        &&& tail_view(db.reported().discarded_wal_tail) == self.tail()
                    },
                    Err(err) => buffer_pool::capacity_error(options.buffer_pool_pages) == Some(err@),
                },
            },
    {
        let mut wal = self.wal;
        wal.reset_done(outcome)?;
        let report = OpenReport {
            created: false,
            recovery: self.stats,
            discarded_wal_tail: self.discarded,
        };
        Database::assemble(self.disk, wal, options, report)
    }
}

/// What is reported as cut off is what the file loses: nothing if every byte
/// was a record, and otherwise all that follows the last one.
pub proof fn lemma_tail_is_what_is_lost(contents: Seq<u8>)
    requires
        log::opened(contents) is Ok,
        contents.len() <= u64::MAX,
    ensures
        ({
            let scan = log::opened(contents)->Ok_0;
            let left = file_op::all_applied(contents, log::repair_ops(scan));
            &&& left.len() <= contents.len()
            &&& left == contents.take(left.len() as int)
            &&& match tail_of(scan, contents.len()) {
                Some((bytes, _)) => bytes > 0 && left.len() + bytes == contents.len(),
                None => left == contents,
            }
        }),
{
    let scan = log::opened(contents)->Ok_0;
    let first_seq = log::decoded_header(contents)->Ok_0;
    let rest = contents.skip(log::WAL_HEADER_SIZE as int);
    let ops = log::repair_ops(scan);
    log::lemma_wal_header_reencodes(contents);
    log::lemma_scan_is_maximal(rest, first_seq, RecordView::Commit { txn: TxnId(0) });
    if scan.stop is Some {
        file_op::lemma_two_applied(contents, ops[0], ops[1]);
        assert(ops =~= seq![ops[0], ops[1]]);
    }
    let left = file_op::all_applied(contents, ops);
    assert(left =~= contents.take(left.len() as int));
}

} // verus!
