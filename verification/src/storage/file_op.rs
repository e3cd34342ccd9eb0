//! What is to be done to a file.
//!
//! The storage layer decides which bytes go where and in which order; it
//! hands these decisions out as lists of operations. Whoever owns the open
//! file performs a list in order, stops at the first operation that fails,
//! and reports the outcome back.

use vstd::prelude::*;

use crate::storage::bytes;

verus! {

/// One operation on an open file.
#[derive(Debug, PartialEq, Eq)]
pub enum FileOp {
    /// Write all of `bytes`, starting at byte `offset`.
    Write {
        /// Where the first byte goes.
        offset: u64,
        /// What is written.
        bytes: Vec<u8>,
    },
    /// Cut the file off, or extend it with zeros, to this many bytes.
    SetLen(u64),
    /// Make the contents written so far durable.
    SyncData,
    /// Make contents and metadata durable.
    SyncAll,
}

impl FileOp {
    /// A write of a copy of `src`.
    pub fn write(offset: u64, src: &[u8]) -> (op: FileOp)
        ensures
            op@ == (FileOpView::Write { offset: offset as nat, bytes: src@ }),
    {
        let mut bytes: Vec<u8> = Vec::with_capacity(src.len());
        bytes::push_bytes(&mut bytes, src);
        assert(bytes@ =~= src@);
        FileOp::Write { offset, bytes }
    }
}

/// A [`FileOp`] with its bytes as a sequence.
pub enum FileOpView {
    Write { offset: nat, bytes: Seq<u8> },
    SetLen(nat),
    SyncData,
    SyncAll,
}

impl View for FileOp {
    type V = FileOpView;

    open spec fn view(&self) -> FileOpView {
        match *self {
            FileOp::Write { offset, bytes } => FileOpView::Write {
                offset: offset as nat,
                bytes: bytes@,
            },
            FileOp::SetLen(len) => FileOpView::SetLen(len as nat),
            FileOp::SyncData => FileOpView::SyncData,
            FileOp::SyncAll => FileOpView::SyncAll,
        }
    }
}

/// The views of a list of operations.
pub open spec fn op_views(ops: Seq<FileOp>) -> Seq<FileOpView> {
    Seq::new(ops.len(), |i: int| ops[i]@)
}

/// The byte of a file at `i`; past the end, files read as zeros.
pub open spec fn byte_at(file: Seq<u8>, i: int) -> u8 {
    if 0 <= i < file.len() {
        file[i]
    } else {
        0
    }
}

/// A file after `bytes` were written at `offset`. A gap between the old end
/// and `offset` is filled with zeros.
pub open spec fn written(file: Seq<u8>, offset: nat, bytes: Seq<u8>) -> Seq<u8> {
    if bytes.len() == 0 {
        file
    } else {
        let end = offset + bytes.len();
        Seq::new(
            if file.len() < end {
                end
            } else {
                file.len()
            },
            |i: int|
                if offset <= i < end {
                    bytes[i - offset]
                } else {
                    byte_at(file, i)
                },
        )
    }
}

/// A file after its length was set.
pub open spec fn resized(file: Seq<u8>, len: nat) -> Seq<u8> {
    Seq::new(len, |i: int| byte_at(file, i))
}

/// A file after one operation.
pub open spec fn applied(file: Seq<u8>, op: FileOpView) -> Seq<u8> {
    match op {
        FileOpView::Write { offset, bytes } => written(file, offset, bytes),
        FileOpView::SetLen(len) => resized(file, len),
        FileOpView::SyncData => file,
        FileOpView::SyncAll => file,
    }
}

/// A file after a list of operations.
pub open spec fn all_applied(file: Seq<u8>, ops: Seq<FileOpView>) -> Seq<u8>
    decreases ops.len(),
{
    if ops.len() == 0 {
        file
    } else {
        applied(all_applied(file, ops.drop_last()), ops.last())
    }
}

/// Applying two lists one after the other is applying them as one list.
pub proof fn lemma_applied_in_turn(file: Seq<u8>, first: Seq<FileOpView>, second: Seq<FileOpView>)
    ensures
        all_applied(all_applied(file, first), second) == all_applied(file, first + second),
    decreases second.len(),
{
    if second.len() == 0 {
        assert(first + second =~= first);
    } else {
        lemma_applied_in_turn(file, first, second.drop_last());
        assert((first + second).drop_last() =~= first + second.drop_last());
    }
}

/// A list of two operations.
pub proof fn lemma_two_applied(file: Seq<u8>, a: FileOpView, b: FileOpView)
    ensures
        all_applied(file, seq![a, b]) == applied(applied(file, a), b),
{
    assert(seq![a, b].drop_last() =~= seq![a]);
    assert(seq![a].drop_last() =~= Seq::empty());
    assert(all_applied(file, Seq::empty()) == file);
    assert(all_applied(file, seq![a]) == applied(file, a));
}

/// A list of three operations.
pub proof fn lemma_three_applied(file: Seq<u8>, a: FileOpView, b: FileOpView, c: FileOpView)
    ensures
        all_applied(file, seq![a, b, c]) == applied(applied(applied(file, a), b), c),
{
    lemma_two_applied(file, a, b);
    assert(seq![a, b, c].drop_last() =~= seq![a, b]);
}

/// Whether `after` may be found in place of the file `before` when power is
/// lost while bytes `offset..offset + len` are being written. Those bytes may
/// hold anything; the rest of the file is as it was.
pub open spec fn torn_write(before: Seq<u8>, offset: nat, len: nat, after: Seq<u8>) -> bool {
    &&& before.len() <= after.len()
    &&& after.len() <= before.len() || after.len() <= offset + len
    &&& forall|i: int|
        !(offset <= i < offset + len) ==> #[trigger] byte_at(after, i) == byte_at(before, i)
}

/// Whether an operation makes the effect of an earlier one durable. Fsyncing
/// the contents alone does not make a new length durable.
pub open spec fn settles(later: FileOpView, earlier: FileOpView) -> bool {
    ||| later is SyncAll
    ||| later is SyncData && earlier is Write
}

/// Whether the effect of operation `k` of a list is durable once the list was
/// performed.
pub open spec fn settled(ops: Seq<FileOpView>, k: int) -> bool {
    exists|j: int| k < j < ops.len() && settles(#[trigger] ops[j], ops[k])
}

/// Whether a crash after `ops` may leave exactly the effects of those
/// operations that `kept` marks: of those that are not durable, any may be
/// lost.
pub open spec fn survives(ops: Seq<FileOpView>, kept: Seq<bool>) -> bool {
    &&& kept.len() == ops.len()
    &&& forall|k: int| 0 <= k < ops.len() && settled(ops, k) ==> #[trigger] kept[k]
}

/// A file after those operations of a list that `kept` marks.
pub open spec fn some_applied(file: Seq<u8>, ops: Seq<FileOpView>, kept: Seq<bool>) -> Seq<u8>
    decreases ops.len(),
{
    if ops.len() == 0 {
        file
    } else {
        let before = some_applied(file, ops.drop_last(), kept.drop_last());
        if kept.last() {
            applied(before, ops.last())
        } else {
            before
        }
    }
}

/// Whether `found` may be found in place of a file, all of it durable, if power
/// is lost after `ops` were performed on it.
pub open spec fn crash_leaves(file: Seq<u8>, ops: Seq<FileOpView>, found: Seq<u8>) -> bool {
    exists|kept: Seq<bool>| #[trigger] survives(ops, kept) && found == some_applied(file, ops, kept)
}

/// Losing nothing but fsyncs loses nothing.
pub proof fn lemma_nothing_lost(file: Seq<u8>, ops: Seq<FileOpView>, kept: Seq<bool>)
    requires
        kept.len() == ops.len(),
        forall|k: int|
            0 <= k < ops.len() ==> #[trigger] kept[k] || ops[k] is SyncData || ops[k] is SyncAll,
    ensures
        some_applied(file, ops, kept) == all_applied(file, ops),
    decreases ops.len(),
{
    if ops.len() > 0 {
        let rest = ops.drop_last();
        let rest_kept = kept.drop_last();
        assert forall|k: int| 0 <= k < rest.len() implies #[trigger] rest_kept[k] || rest[k]
            is SyncData || rest[k] is SyncAll by {
            assert(kept[k] || ops[k] is SyncData || ops[k] is SyncAll);
        }
        lemma_nothing_lost(file, rest, rest_kept);
        assert(kept[ops.len() - 1] || ops[ops.len() - 1] is SyncData || ops[ops.len() - 1]
            is SyncAll);
    }
}

/// If every operation of a list is durable once the list was performed, a
/// crash after it loses nothing.
pub proof fn lemma_durable(file: Seq<u8>, ops: Seq<FileOpView>, found: Seq<u8>)
    requires
        crash_leaves(file, ops, found),
        forall|k: int|
            0 <= k < ops.len() ==> #[trigger] settled(ops, k) || ops[k] is SyncData || ops[k]
                is SyncAll,
    ensures
        found == all_applied(file, ops),
{
    let kept = choose|kept: Seq<bool>| #[trigger]
        survives(ops, kept) && found == some_applied(file, ops, kept);
    assert forall|k: int| 0 <= k < ops.len() implies #[trigger] kept[k] || ops[k] is SyncData
        || ops[k] is SyncAll by {
        assert(settled(ops, k) || ops[k] is SyncData || ops[k] is SyncAll);
    }
    lemma_nothing_lost(file, ops, kept);
}

/// A list that ends by fsyncing everything is durable as a whole.
pub proof fn lemma_synced(file: Seq<u8>, ops: Seq<FileOpView>, found: Seq<u8>)
    requires
        crash_leaves(file, ops, found),
        ops.len() > 0,
        ops.last() is SyncAll,
    ensures
        found == all_applied(file, ops),
{
    let last = ops.len() - 1;
    assert forall|k: int| 0 <= k < ops.len() implies #[trigger] settled(ops, k) || ops[k]
        is SyncData || ops[k] is SyncAll by {
        if k < last {
            assert(settles(ops[last], ops[k]));
        }
    }
    lemma_durable(file, ops, found);
}

/// A write is lost if nothing makes it durable.
pub proof fn lemma_unsynced_write_may_be_lost(file: Seq<u8>, offset: nat, bytes: Seq<u8>)
    ensures
        crash_leaves(file, seq![FileOpView::Write { offset, bytes }], file),
        crash_leaves(
            file,
            seq![FileOpView::SyncAll, FileOpView::Write { offset, bytes }],
            file,
        ),
{
    let write = FileOpView::Write { offset, bytes };
    let one = seq![write];
    let two = seq![FileOpView::SyncAll, write];
    assert(one.drop_last() =~= Seq::empty());
    assert(seq![false].drop_last() =~= Seq::empty());
    assert(some_applied(file, Seq::empty(), Seq::empty()) == file);
    assert(some_applied(file, one, seq![false]) == file);
    assert(survives(one, seq![false]));
    assert(two.drop_last() =~= seq![FileOpView::SyncAll]);
    assert(seq![FileOpView::SyncAll].drop_last() =~= Seq::empty());
    assert(seq![true, false].drop_last() =~= seq![true]);
    assert(seq![true].drop_last() =~= Seq::empty());
    assert(some_applied(file, seq![FileOpView::SyncAll], seq![true]) == file);
    assert(some_applied(file, two, seq![true, false]) == file);
    assert(survives(two, seq![true, false]));
}

/// Where nothing was done, a crash changes nothing.
pub proof fn lemma_nothing_done(file: Seq<u8>, found: Seq<u8>)
    requires
        crash_leaves(file, Seq::empty(), found),
    ensures
        found == file,
{
}

/// Whether `found` may be found in place of a file, all of it durable, if power
/// is lost at any time while `ops` are performed on it.
pub open spec fn crash_during(file: Seq<u8>, ops: Seq<FileOpView>, found: Seq<u8>) -> bool {
    exists|done: int| 0 <= done <= ops.len() && #[trigger] crash_leaves(file, ops.take(done), found)
}

/// A file after an operation, if that was kept.
pub open spec fn applied_if(file: Seq<u8>, op: FileOpView, kept: bool) -> Seq<u8> {
    if kept {
        applied(file, op)
    } else {
        file
    }
}

/// Of a list of one operation, it is lost or not.
pub proof fn lemma_some_of_one(file: Seq<u8>, a: FileOpView, kept: Seq<bool>)
    requires
        kept.len() == 1,
    ensures
        some_applied(file, seq![a], kept) == applied_if(file, a, kept[0]),
{
    assert(seq![a].drop_last() =~= Seq::empty());
    assert(some_applied(file, Seq::empty(), kept.drop_last()) == file);
}

/// Of a list of two operations, each is lost or not.
pub proof fn lemma_some_of_two(file: Seq<u8>, a: FileOpView, b: FileOpView, kept: Seq<bool>)
    requires
        kept.len() == 2,
    ensures
        some_applied(file, seq![a, b], kept) == applied_if(
            applied_if(file, a, kept[0]),
            b,
            kept[1],
        ),
{
    assert(seq![a, b].drop_last() =~= seq![a]);
    lemma_some_of_one(file, a, kept.drop_last());
}

/// Of a list of three operations, each is lost or not.
pub proof fn lemma_some_of_three(
    file: Seq<u8>,
    a: FileOpView,
    b: FileOpView,
    c: FileOpView,
    kept: Seq<bool>,
)
    requires
        kept.len() == 3,
    ensures
        some_applied(file, seq![a, b, c], kept) == applied_if(
            applied_if(applied_if(file, a, kept[0]), b, kept[1]),
            c,
            kept[2],
        ),
{
    assert(seq![a, b, c].drop_last() =~= seq![a, b]);
    lemma_some_of_two(file, a, b, kept.drop_last());
}

/// A write puts its bytes where it says and leaves every other byte as it was.
/// The file gets longer if need be, and never shorter.
pub proof fn lemma_written(file: Seq<u8>, offset: nat, bytes: Seq<u8>, i: int)
    requires
        bytes.len() > 0,
    ensures
        ({
            let after = applied(file, FileOpView::Write { offset, bytes });
            &&& file.len() <= after.len() && offset + bytes.len() <= after.len()
            &&& after.len() == file.len() || after.len() == offset + bytes.len()
            &&& after.subrange(offset as int, (offset + bytes.len()) as int) == bytes
            &&& 0 <= i < file.len() && !(offset <= i < offset + bytes.len()) ==> after[i]
                == file[i]
            &&& file.len() <= i < offset ==> after[i] == 0
        }),
{
    let after = applied(file, FileOpView::Write { offset, bytes });
    assert(after.subrange(offset as int, (offset + bytes.len()) as int) =~= bytes);
}

/// Setting the length cuts a file off, or fills it up with zeros. An fsync
/// changes nothing.
pub proof fn lemma_resized(file: Seq<u8>, len: nat, i: int)
    ensures
        ({
            let after = applied(file, FileOpView::SetLen(len));
            &&& after.len() == len
            &&& 0 <= i < len && i < file.len() ==> after[i] == file[i]
            &&& file.len() <= i < len ==> after[i] == 0
        }),
        applied(file, FileOpView::SyncData) == file,
        applied(file, FileOpView::SyncAll) == file,
{
}

} // verus!
