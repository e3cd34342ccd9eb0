//! In-memory cache of database pages.
//!
//! The buffer pool owns a fixed number of *frames*, each able to hold one
//! page. Callers fetch pages by id and receive a [`PageHandle`], which pins
//! the page in memory until it is given back. When every frame is taken, the
//! CLOCK algorithm picks an unpinned page to evict; a page that differs from
//! its on-disk copy is written back first.
//!
//! The pool performs no I/O. Where a page has to be read or written, it says
//! so and is told when it has been done.

use std::collections::HashMap;

use vstd::prelude::*;
use vstd::string::*;

use crate::error::{Error, ErrorView, Result};
use crate::storage::disk::DiskManager;
use crate::storage::file_op::{FileOp, FileOpView};
use crate::storage::page::{Page, PageId};
use crate::storage::{disk, file_op, page};
use crate::text;

verus! {

broadcast use vstd::std_specs::hash::group_hash_axioms;

/// A cached page and whether it differs from its on-disk copy.
#[derive(Debug)]
struct Frame {
    page: Page,
    dirty: bool,
    /// The page held, if any.
    page_id: Option<PageId>,
    pin_count: u32,
    /// Whether the page was used since the clock hand last passed it.
    referenced: bool,
}

/// A fixed-capacity page cache.
#[derive(Debug)]
pub struct BufferPool {
    frames: Vec<Frame>,
    /// Which frame holds which page.
    page_table: HashMap<u64, usize>,
    /// Frames that hold no page.
    free_frames: Vec<usize>,
    /// Where the search for a page to evict goes on.
    hand: usize,
}

/// A page pinned in the buffer pool. The page cannot be evicted while any
/// handle to it exists.
#[derive(Debug)]
pub struct PageHandle {
    frame_id: usize,
    page_id: PageId,
}

/// How far fetching a page has come.
#[derive(Debug)]
pub enum Fetch {
    /// The page was cached and is now pinned.
    Hit(PageHandle),
    /// There is room for the page: it is to be read from disk and given to
    /// [`BufferPool::load_page`].
    Read,
    /// The page in this frame is to be written back before the page can be
    /// fetched; see [`BufferPool::write_back`].
    WriteBack(usize),
}

/// Whether there is room for a page.
#[derive(Debug)]
pub enum Room {
    /// There is.
    Ready,
    /// Not before the page in this frame is written back; see
    /// [`BufferPool::write_back`].
    WriteBack(usize),
}

/// The contents of a frame.
#[verifier::ext_equal]
pub struct FrameView {
    pub page: Seq<u8>,
    pub dirty: bool,
    pub page_id: Option<PageId>,
    pub pins: u32,
    pub referenced: bool,
}

/// The contents of a pool.
#[verifier::ext_equal]
pub struct PoolView {
    pub frames: Seq<FrameView>,
    pub free: Seq<usize>,
    pub hand: int,
}

impl Frame {
    spec fn view(&self) -> FrameView {
        FrameView {
            page: self.page@,
            dirty: self.dirty,
            page_id: self.page_id,
            pins: self.pin_count,
            referenced: self.referenced,
        }
    }
}

impl View for BufferPool {
    type V = PoolView;

    closed spec fn view(&self) -> PoolView {
        PoolView {
            frames: Seq::new(self.frames@.len(), |i: int| self.frames@[i].view()),
            free: self.free_frames@,
            hand: self.hand as int,
        }
    }
}

impl PageHandle {
    /// The frame that holds the page.
    pub closed spec fn frame(self) -> int {
        self.frame_id as int
    }

    /// The page that is pinned.
    pub closed spec fn id(self) -> PageId {
        self.page_id
    }
}

/// The position after `hand` on a clock with `len` positions.
pub open spec fn next_hand(hand: int, len: int) -> int {
    if hand + 1 == len {
        0
    } else {
        hand + 1
    }
}

/// Moves the clock hand for up to `steps` positions, until it stands at a
/// frame that is neither pinned nor referenced. The reference marks of the
/// frames that it passes are cleared. The result is the frames, the hand, and
/// the frame that was found.
pub open spec fn sweep(frames: Seq<FrameView>, hand: int, steps: nat) -> (
    Seq<FrameView>,
    int,
    Option<int>,
)
    decreases steps,
{
    if steps == 0 {
        (frames, hand, None)
    } else {
        let next = next_hand(hand, frames.len() as int);
        if frames[hand].pins > 0 {
            sweep(frames, next, (steps - 1) as nat)
        } else if frames[hand].referenced {
            let cleared = FrameView { referenced: false, ..frames[hand] };
            sweep(frames.update(hand, cleared), next, (steps - 1) as nat)
        } else {
            (frames, hand, Some(hand))
        }
    }
}

/// What became of the search for a frame.
pub enum RoomView {
    Ready,
    WriteBack(int),
    Exhausted,
}

impl PoolView {
    /// Whether frame `frame` holds page `id`.
    pub open spec fn holds(self, frame: int, id: PageId) -> bool {
        0 <= frame < self.frames.len() && self.frames[frame].page_id == Some(id)
    }

    /// Whether page `id` is cached.
    pub open spec fn cached(self, id: PageId) -> bool {
        exists|frame: int| #[trigger] self.holds(frame, id)
    }

    /// The frame that holds page `id`.
    pub open spec fn frame_of(self, id: PageId) -> int {
        choose|frame: int| #[trigger] self.holds(frame, id)
    }

    /// No page is in two frames, and the free list is exactly the frames
    /// without a page, each of them once. Those are neither pinned nor dirty.
    pub open spec fn wf(self) -> bool {
        &&& 0 <= self.hand < self.frames.len() <= usize::MAX
        &&& forall|a: int, b: int, id: PageId| #[trigger]
            self.holds(a, id) && #[trigger] self.holds(b, id) ==> a == b
        &&& forall|i: int, j: int|
            0 <= i < j < self.free.len() ==> #[trigger] self.free[i] != #[trigger] self.free[j]
        &&& forall|i: int|
            0 <= i < self.free.len() ==> (#[trigger] self.free[i]) < self.frames.len()
                && self.frames[self.free[i] as int].page_id is None
        &&& forall|frame: int|
            0 <= frame < self.frames.len() && (#[trigger] self.frames[frame]).page_id is None ==> {
                &&& self.free.contains(frame as usize)
                &&& self.frames[frame].pins == 0
                &&& !self.frames[frame].dirty
            }
    }

    /// The pool with one frame changed.
    pub open spec fn with_frame(self, frame: int, contents: FrameView) -> PoolView {
        PoolView { frames: self.frames.update(frame, contents), ..self }
    }

    /// The pool after a frame was pinned once more.
    pub open spec fn pinned(self, frame: int) -> PoolView {
        self.with_frame(
            frame,
            FrameView {
                pins: (self.frames[frame].pins + 1) as u32,
                referenced: true,
                ..self.frames[frame]
            },
        )
    }

    /// The pool after a page was put into the last free frame.
    pub open spec fn filled(self, contents: FrameView) -> PoolView {
        PoolView {
            frames: self.frames.update(self.free.last() as int, contents),
            free: self.free.drop_last(),
            ..self
        }
    }

    /// The pool after the page in a frame was thrown out.
    pub open spec fn evicted(self, frame: int) -> PoolView {
        PoolView {
            frames: self.frames.update(
                frame,
                FrameView { page_id: None, ..self.frames[frame] },
            ),
            free: self.free.push(frame as usize),
            hand: next_hand(frame, self.frames.len() as int),
        }
    }

    /// The pool after room was made for another page, and whether there is
    /// room now.
    pub open spec fn with_room(self) -> (PoolView, RoomView) {
        if self.free.len() > 0 {
            (self, RoomView::Ready)
        } else {
            let (frames, hand, found) = sweep(self.frames, self.hand, 2 * self.frames.len());
            let swept = PoolView { frames, hand, ..self };
            match found {
                None => (swept, RoomView::Exhausted),
                Some(frame) => if frames[frame].dirty {
                    (swept, RoomView::WriteBack(frame))
                } else {
                    (swept.evicted(frame), RoomView::Ready)
                },
            }
        }
    }
}

/// Why a pool cannot have `capacity` frames, if it cannot.
pub open spec fn capacity_error(capacity: usize) -> Option<ErrorView> {
    if capacity == 0 {
        Some(ErrorView::InvalidArgument("buffer pool capacity must be at least 1"@))
    } else {
        None
    }
}

/// A pool can have any number of frames but none.
pub proof fn lemma_capacity(capacity: usize)
    ensures
        capacity_error(capacity) is None <==> capacity >= 1,
        capacity_error(capacity) matches Some(err) ==> err is InvalidArgument,
{
}

/// A pool with `capacity` frames and no page. Frames are handed out in
/// ascending order.
pub open spec fn empty_pool(capacity: usize) -> PoolView {
    PoolView {
        frames: Seq::new(
            capacity as nat,
            |i: int|
                FrameView {
                    page: page::zero_page(),
                    dirty: false,
                    page_id: None,
                    pins: 0,
                    referenced: false,
                },
        ),
        free: Seq::new(capacity as nat, |i: int| (capacity - 1 - i) as usize),
        hand: 0,
    }
}

/// Nothing is cached in an empty pool. It has as many frames as it was made
/// with, all of them free, zeroed and never used; the last of the free list, the
/// one to be taken next, is frame 0, and the others follow in order.
pub proof fn lemma_empty_pool(capacity: usize)
    requires
        capacity > 0,
    ensures
        empty_pool(capacity).wf(),
        forall|id: PageId| !empty_pool(capacity).cached(id),
        empty_pool(capacity).frames.len() == capacity,
        empty_pool(capacity).free.len() == capacity,
        empty_pool(capacity).hand == 0,
        forall|frame: int|
            0 <= frame < capacity ==> {
                let contents = #[trigger] empty_pool(capacity).frames[frame];
                &&& contents.page == Seq::new(4096, |i: int| 0u8)
                &&& !contents.dirty && !contents.referenced
                &&& contents.pins == 0
            },
        forall|i: int|
            0 <= i < capacity ==> #[trigger] empty_pool(capacity).free[i] + i + 1 == capacity,
{
    let pool = empty_pool(capacity);
    assert forall|frame: int|
        0 <= frame < pool.frames.len() && (#[trigger] pool.frames[frame]).page_id is None implies {
        &&& pool.free.contains(frame as usize)
        &&& pool.frames[frame].pins == 0
        &&& !pool.frames[frame].dirty
    } by {
        assert(pool.free[capacity - 1 - frame] == frame);
    }
    assert forall|frame: int, id: PageId| !(#[trigger] pool.holds(frame, id)) by {}
}

/// The pool after a new version of a page was cached.
pub open spec fn installed(pool: PoolView, id: PageId, page: Seq<u8>) -> PoolView {
    if pool.cached(id) {
        let frame = pool.frame_of(id);
        pool.with_frame(
            frame,
            FrameView { page, dirty: true, referenced: true, ..pool.frames[frame] },
        )
    } else {
        pool.filled(
            FrameView { page, dirty: true, page_id: Some(id), pins: 0, referenced: true },
        )
    }
}

/// The pool after a handle to a page was given back.
pub open spec fn unpinned(pool: PoolView, frame: int) -> PoolView {
    pool.with_frame(
        frame,
        FrameView { pins: (pool.frames[frame].pins - 1) as u32, ..pool.frames[frame] },
    )
}

/// Why the page in a dirty frame cannot be written back, if it cannot.
pub open spec fn frame_error(frame: FrameView, page_count: u64) -> Option<ErrorView> {
    if frame.dirty {
        disk::write_error(frame.page_id->0, page_count, frame.page)
    } else {
        None
    }
}

/// Whether the dirty pages among the first `end` frames can be written back.
pub open spec fn flushable(frames: Seq<FrameView>, page_count: u64, end: int) -> bool {
    forall|i: int| 0 <= i < end ==> frame_error(#[trigger] frames[i], page_count) is None
}

/// The writes that store the dirty pages among the first `end` frames.
pub open spec fn flush_ops(frames: Seq<FrameView>, end: int) -> Seq<FileOpView>
    decreases end,
{
    if end <= 0 {
        Seq::empty()
    } else if frames[end - 1].dirty {
        flush_ops(frames, end - 1).push(
            disk::page_write(frames[end - 1].page_id->0, page::sealed(frames[end - 1].page)),
        )
    } else {
        flush_ops(frames, end - 1)
    }
}

/// The pool with the dirty pages among the first `end` frames sealed.
pub open spec fn sealed_pool(pool: PoolView, end: int) -> PoolView {
    PoolView {
        frames: Seq::new(
            pool.frames.len(),
            |i: int|
                if i < end && pool.frames[i].dirty {
                    FrameView { page: page::sealed(pool.frames[i].page), ..pool.frames[i] }
                } else {
                    pool.frames[i]
                },
        ),
        ..pool
    }
}

/// Whether flushing fails with `err` at the first page that cannot be written
/// back, leaving the pool as `after`.
pub open spec fn flush_fails(
    pool: PoolView,
    page_count: u64,
    err: ErrorView,
    after: PoolView,
) -> bool {
    exists|end: int|
        0 <= end < pool.frames.len() && #[trigger] flushable(pool.frames, page_count, end)
            && frame_error(pool.frames[end], page_count) == Some(err) && after == sealed_pool(
            pool,
            end,
        )
}

/// The pool with the first `end` frames clean.
pub open spec fn cleaned_pool(pool: PoolView, end: int) -> PoolView {
    PoolView {
        frames: Seq::new(
            pool.frames.len(),
            |i: int|
                if i < end {
                    FrameView { dirty: false, ..pool.frames[i] }
                } else {
                    pool.frames[i]
                },
        ),
        ..pool
    }
}

/// The error for a pool in which every frame is pinned.
pub open spec fn exhausted(capacity: nat) -> ErrorView {
    ErrorView::ResourceExhausted(
        "all "@ + text::decimal_chars(capacity) + " buffer pool frames are in use"@,
    )
}

/// Whether two frames differ in nothing but the reference mark.
pub open spec fn same_page(a: FrameView, b: FrameView) -> bool {
    a == (FrameView { referenced: a.referenced, ..b })
}

/// A sweep changes nothing but reference marks. What it finds is not pinned.
pub proof fn lemma_sweep(frames: Seq<FrameView>, hand: int, steps: nat)
    requires
        0 <= hand < frames.len(),
    ensures
        ({
            let (after, end, found) = sweep(frames, hand, steps);
            &&& after.len() == frames.len()
            &&& 0 <= end < frames.len()
            &&& forall|i: int|
                0 <= i < frames.len() ==> same_page(#[trigger] after[i], frames[i])
            &&& found matches Some(frame) ==> frame == end && frames[frame].pins == 0
                && !after[frame].referenced
        }),
    decreases steps,
{
    if steps > 0 {
        let next = next_hand(hand, frames.len() as int);
        if frames[hand].pins > 0 {
            lemma_sweep(frames, next, (steps - 1) as nat);
        } else if frames[hand].referenced {
            let cleared = FrameView { referenced: false, ..frames[hand] };
            lemma_sweep(frames.update(hand, cleared), next, (steps - 1) as nat);
        }
    }
}

/// Two rounds of the clock find a frame if any is unpinned.
proof fn lemma_sweep_finds(frames: Seq<FrameView>, hand: int, steps: nat, unpinned: int)
    requires
        0 <= hand < frames.len(),
        0 <= unpinned < frames.len(),
        frames[unpinned].pins == 0,
        steps > distance(hand, unpinned, frames.len() as int) + if frames[unpinned].referenced {
            frames.len()
        } else {
            0
        },
    ensures
        sweep(frames, hand, steps).2 is Some,
    decreases steps,
{
    let next = next_hand(hand, frames.len() as int);
    if frames[hand].pins > 0 {
        lemma_sweep_finds(frames, next, (steps - 1) as nat, unpinned);
    } else if frames[hand].referenced {
        let cleared = FrameView { referenced: false, ..frames[hand] };
        lemma_sweep_finds(frames.update(hand, cleared), next, (steps - 1) as nat, unpinned);
    }
}

/// Without a free frame, room can be made exactly if some page is unpinned.
pub proof fn lemma_room_iff_unpinned(pool: PoolView)
    requires
        pool.wf(),
        pool.free.len() == 0,
    ensures
        pool.with_room().1 is Exhausted <==> forall|frame: int|
            0 <= frame < pool.frames.len() ==> (#[trigger] pool.frames[frame]).pins > 0,
{
    let steps = 2 * pool.frames.len();
    lemma_sweep(pool.frames, pool.hand, steps);
    if exists|frame: int|
        0 <= frame < pool.frames.len() && (#[trigger] pool.frames[frame]).pins == 0 {
        let frame = choose|frame: int|
            0 <= frame < pool.frames.len() && (#[trigger] pool.frames[frame]).pins == 0;
        lemma_sweep_finds(pool.frames, pool.hand, steps, frame);
    }
}

/// The pool with other reference marks and another clock hand is as well
/// formed as before.
pub proof fn lemma_marks_irrelevant(pool: PoolView, other: PoolView)
    requires
        pool.wf(),
        other.frames.len() == pool.frames.len(),
        other.free == pool.free,
        0 <= other.hand < other.frames.len(),
        forall|i: int|
            0 <= i < pool.frames.len() ==> same_page(#[trigger] other.frames[i], pool.frames[i]),
    ensures
        other.wf(),
        forall|frame: int, id: PageId| #[trigger]
            other.holds(frame, id) == pool.holds(frame, id),
{
    assert forall|frame: int, id: PageId| #[trigger] other.holds(frame, id) == pool.holds(
        frame,
        id,
    ) by {
        if 0 <= frame < pool.frames.len() {
            assert(same_page(other.frames[frame], pool.frames[frame]));
        }
    }
    assert forall|i: int| 0 <= i < other.free.len() implies (#[trigger] other.free[i])
        < other.frames.len() && other.frames[other.free[i] as int].page_id is None by {
        assert(pool.free[i] < pool.frames.len());
        assert(same_page(other.frames[pool.free[i] as int], pool.frames[pool.free[i] as int]));
    }
    assert forall|frame: int|
        0 <= frame < other.frames.len() && (#[trigger] other.frames[frame]).page_id is None implies {
        &&& other.free.contains(frame as usize)
        &&& other.frames[frame].pins == 0
        &&& !other.frames[frame].dirty
    } by {
        assert(same_page(other.frames[frame], pool.frames[frame]));
        assert(pool.frames[frame].page_id is None);
    }
    assert forall|a: int, b: int, id: PageId| #[trigger]
        other.holds(a, id) && #[trigger] other.holds(b, id) implies a == b by {
        assert(pool.holds(a, id) && pool.holds(b, id));
    }
}

/// Throwing out an unpinned, clean page keeps the pool well formed.
pub proof fn lemma_evicted(pool: PoolView, frame: int)
    requires
        pool.wf(),
        0 <= frame < pool.frames.len(),
        pool.frames[frame].page_id is Some,
        pool.frames[frame].pins == 0,
        !pool.frames[frame].dirty,
    ensures
        pool.evicted(frame).wf(),
        forall|f: int, id: PageId| #[trigger]
            pool.evicted(frame).holds(f, id) == (pool.holds(f, id) && f != frame),
{
    let after = pool.evicted(frame);
    assert(!pool.free.contains(frame as usize)) by {
        if pool.free.contains(frame as usize) {
            let i = choose|i: int| 0 <= i < pool.free.len() && pool.free[i] == frame as usize;
            assert(pool.frames[pool.free[i] as int].page_id is None);
        }
    }
    assert forall|f: int| 0 <= f < after.frames.len() && (#[trigger] after.frames[f]).page_id
        is None implies after.free.contains(f as usize) && after.frames[f].pins == 0
        && !after.frames[f].dirty by {
        if f == frame {
            assert(after.free[after.free.len() - 1] == f as usize);
        } else {
            assert(pool.frames[f].page_id is None);
            let i = choose|i: int| 0 <= i < pool.free.len() && pool.free[i] == f as usize;
            assert(after.free[i] == f as usize);
        }
    }
    assert forall|i: int, j: int| 0 <= i < j < after.free.len() implies #[trigger] after.free[i]
        != #[trigger] after.free[j] by {
        if j == pool.free.len() {
            assert(pool.free.contains(pool.free[i]));
        }
    }
    assert forall|i: int| 0 <= i < after.free.len() implies (#[trigger] after.free[i])
        < after.frames.len() && after.frames[after.free[i] as int].page_id is None by {
        if i < pool.free.len() {
            assert(pool.free[i] < pool.frames.len());
        }
    }
    assert forall|f: int, id: PageId| #[trigger] after.holds(f, id) == (pool.holds(f, id) && f
        != frame) by {}
}

/// Putting a page that is not cached into a free frame keeps the pool well
/// formed.
pub proof fn lemma_filled(pool: PoolView, contents: FrameView, id: PageId)
    requires
        pool.wf(),
        pool.free.len() > 0,
        contents.page_id == Some(id),
        !pool.cached(id),
    ensures
        pool.filled(contents).wf(),
        0 <= pool.free.last() < pool.frames.len(),
        !exists|other: PageId| pool.holds(pool.free.last() as int, other),
        forall|f: int, other: PageId| #[trigger]
            pool.filled(contents).holds(f, other) == if f == pool.free.last() {
                other == id
            } else {
                pool.holds(f, other)
            },
{
    let after = pool.filled(contents);
    let frame = pool.free[pool.free.len() - 1] as int;
    assert(frame < pool.frames.len() && pool.frames[frame].page_id is None);
    assert forall|f: int, other: PageId| #[trigger] after.holds(f, other) == if f == frame {
        other == id
    } else {
        pool.holds(f, other)
    } by {}
    assert forall|a: int, b: int, other: PageId| #[trigger]
        after.holds(a, other) && #[trigger] after.holds(b, other) implies a == b by {
        if a != frame {
            assert(pool.holds(a, other));
        }
        if b != frame {
            assert(pool.holds(b, other));
        }
    }
    assert forall|i: int| 0 <= i < after.free.len() implies (#[trigger] after.free[i])
        < after.frames.len() && after.frames[after.free[i] as int].page_id is None by {
        assert(after.free[i] == pool.free[i]);
        assert(pool.free[i] != pool.free[pool.free.len() - 1]);
    }
    assert forall|f: int| 0 <= f < after.frames.len() && (#[trigger] after.frames[f]).page_id
        is None implies after.free.contains(f as usize) && after.frames[f].pins == 0
        && !after.frames[f].dirty by {
        assert(f != frame);
        assert(pool.frames[f].page_id is None);
        let i = choose|i: int| 0 <= i < pool.free.len() && pool.free[i] == f as usize;
        assert(after.free[i] == f as usize);
    }
}

/// Changing what a frame holds of its page keeps the pool well formed.
pub proof fn lemma_with_frame(pool: PoolView, frame: int, contents: FrameView)
    requires
        pool.wf(),
        0 <= frame < pool.frames.len(),
        pool.frames[frame].page_id is Some,
        contents.page_id == pool.frames[frame].page_id,
    ensures
        pool.with_frame(frame, contents).wf(),
        forall|f: int, id: PageId| #[trigger]
            pool.with_frame(frame, contents).holds(f, id) == pool.holds(f, id),
{
    let after = pool.with_frame(frame, contents);
    assert forall|f: int, id: PageId| #[trigger] after.holds(f, id) == pool.holds(f, id) by {}
    assert forall|f: int| 0 <= f < after.frames.len() && (#[trigger] after.frames[f]).page_id
        is None implies after.free.contains(f as usize) && after.frames[f].pins == 0
        && !after.frames[f].dirty by {
        assert(pool.frames[f].page_id is None);
    }
    assert forall|i: int| 0 <= i < after.free.len() implies (#[trigger] after.free[i])
        < after.frames.len() && after.frames[after.free[i] as int].page_id is None by {
        assert(pool.free[i] < pool.frames.len());
    }
    assert forall|a: int, b: int, id: PageId| #[trigger]
        after.holds(a, id) && #[trigger] after.holds(b, id) implies a == b by {
        assert(pool.holds(a, id) && pool.holds(b, id));
    }
}

/// What making room does: at most one page is thrown out. It is clean, and no
/// handle to it exists. All other pages stay as they are.
pub proof fn lemma_room(pool: PoolView)
    requires
        pool.wf(),
    ensures
        ({
            let (after, room) = pool.with_room();
            &&& after.wf()
            &&& after.frames.len() == pool.frames.len()
            &&& room is Ready ==> after.free.len() > 0
            &&& room matches RoomView::WriteBack(frame) ==> {
                &&& 0 <= frame < after.frames.len()
                &&& after.frames[frame].page_id is Some
                &&& after.frames[frame].dirty
                &&& after.frames[frame].pins == 0
            }
            &&& forall|frame: int, id: PageId| #[trigger]
                after.holds(frame, id) ==> pool.holds(frame, id) && same_page(
                    after.frames[frame],
                    pool.frames[frame],
                )
            &&& forall|frame: int, id: PageId| #[trigger]
                pool.holds(frame, id) && (pool.frames[frame].pins > 0 || pool.frames[frame].dirty
                    || !(room is Ready)) ==> after.holds(frame, id)
            &&& forall|a: int, b: int, id: PageId, other: PageId| #[trigger]
                pool.holds(a, id) && #[trigger] pool.holds(b, other) && !after.holds(a, id)
                    && !after.holds(b, other) ==> a == b
        }),
{
    if pool.free.len() == 0 {
        let (frames, hand, found) = sweep(pool.frames, pool.hand, 2 * pool.frames.len());
        let swept = PoolView { frames, hand, ..pool };
        lemma_sweep(pool.frames, pool.hand, 2 * pool.frames.len());
        lemma_marks_irrelevant(pool, swept);
        if let Some(frame) = found {
            assert(same_page(frames[frame], pool.frames[frame]));
            if swept.frames[frame].page_id is None {
                assert(swept.free.contains(frame as usize));
            }
            if !frames[frame].dirty {
                lemma_evicted(swept, frame);
            }
        }
        let after = pool.with_room().0;
        assert forall|frame: int, id: PageId| #[trigger] after.holds(frame, id) implies pool.holds(
            frame,
            id,
        ) && same_page(after.frames[frame], pool.frames[frame]) by {
            assert(swept.holds(frame, id));
            assert(same_page(swept.frames[frame], pool.frames[frame]));
        }
        assert forall|frame: int, id: PageId| #[trigger]
            pool.holds(frame, id) && (pool.frames[frame].pins > 0 || pool.frames[frame].dirty
                || !(pool.with_room().1 is Ready)) implies after.holds(frame, id) by {
            assert(swept.holds(frame, id));
            assert(same_page(swept.frames[frame], pool.frames[frame]));
        }
        assert forall|a: int, b: int, id: PageId, other: PageId| #[trigger]
            pool.holds(a, id) && #[trigger] pool.holds(b, other) && !after.holds(a, id)
                && !after.holds(b, other) implies a == b by {
            assert(swept.holds(a, id) && swept.holds(b, other));
        }
    }
}

/// How many frames are dirty.
pub open spec fn dirty_count(frames: Seq<FrameView>) -> nat
    decreases frames.len(),
{
    if frames.len() == 0 {
        0
    } else {
        let rest = dirty_count(frames.drop_last());
        if frames.last().dirty {
            rest + 1
        } else {
            rest
        }
    }
}

/// The number of dirty frames depends on which frames are dirty alone.
proof fn lemma_dirty_count_same(a: Seq<FrameView>, b: Seq<FrameView>)
    requires
        a.len() == b.len(),
        forall|i: int| 0 <= i < a.len() ==> (#[trigger] a[i]).dirty == b[i].dirty,
    ensures
        dirty_count(a) == dirty_count(b),
    decreases a.len(),
{
    if a.len() > 0 {
        assert forall|i: int| 0 <= i < a.len() - 1 implies (#[trigger] a.drop_last()[i]).dirty
            == b.drop_last()[i].dirty by {
            assert(a[i].dirty == b[i].dirty);
        }
        lemma_dirty_count_same(a.drop_last(), b.drop_last());
        assert(a[a.len() - 1].dirty == b[a.len() - 1].dirty);
    }
}

/// Where one more frame is clean, one frame less is dirty.
proof fn lemma_dirty_count_less(a: Seq<FrameView>, b: Seq<FrameView>, at: int)
    requires
        a.len() == b.len(),
        0 <= at < a.len(),
        a[at].dirty,
        !b[at].dirty,
        forall|i: int| 0 <= i < a.len() && i != at ==> (#[trigger] a[i]).dirty == b[i].dirty,
    ensures
        dirty_count(a) == dirty_count(b) + 1,
    decreases a.len(),
{
    assert forall|i: int| 0 <= i < a.len() - 1 && i != at implies (
    #[trigger] a.drop_last()[i]).dirty == b.drop_last()[i].dirty by {
        assert(a[i].dirty == b[i].dirty);
    }
    if at == a.len() - 1 {
        lemma_dirty_count_same(a.drop_last(), b.drop_last());
    } else {
        assert(a[a.len() - 1].dirty == b[a.len() - 1].dirty);
        lemma_dirty_count_less(a.drop_last(), b.drop_last(), at);
    }
}

/// Where a page has to be written back to make room, its frame is unpinned.
/// Once it is clean, one frame less is dirty, and there is room: the clock
/// hand still stands at it. What is written may differ from the page in its
/// checksum, so the page is not compared.
pub proof fn lemma_write_back_makes_room(pool: PoolView, frame: int, contents: FrameView)
    requires
        pool.wf(),
        pool.with_room().1 == RoomView::WriteBack(frame),
        contents == (FrameView {
            page: contents.page,
            dirty: false,
            ..pool.with_room().0.frames[frame]
        }),
    ensures
        ({
            let written = pool.with_room().0.with_frame(frame, contents);
            &&& 0 <= frame < pool.frames.len()
            &&& pool.frames[frame].pins == 0
            &&& dirty_count(pool.frames) == dirty_count(written.frames) + 1
            &&& written.with_room().1 is Ready
        }),
{
    let steps = 2 * pool.frames.len();
    let (swept, hand, found) = sweep(pool.frames, pool.hand, steps);
    let written = pool.with_room().0.with_frame(frame, contents);
    lemma_sweep(pool.frames, pool.hand, steps);
    assert(same_page(swept[frame], pool.frames[frame]));
    assert forall|i: int| 0 <= i < pool.frames.len() && i != frame implies (
    #[trigger] pool.frames[i]).dirty == written.frames[i].dirty by {
        assert(same_page(swept[i], pool.frames[i]));
    }
    lemma_dirty_count_less(pool.frames, written.frames, frame);
    assert(sweep(written.frames, frame, 2 * written.frames.len()) == (
        written.frames,
        frame,
        Some(frame),
    ));
}

impl BufferPool {
    /// The page table says which frame holds which page.
    spec fn table_ok(self) -> bool {
        &&& forall|id: u64| #[trigger]
            self.page_table@.contains_key(id) ==> self@.holds(
                self.page_table@[id] as int,
                PageId(id),
            )
        &&& forall|frame: int, id: PageId| #[trigger]
            self@.holds(frame, id) ==> self.page_table@.contains_key(id.0)
    }

    /// The pool's parts agree with each other.
    pub closed spec fn wf(self) -> bool {
        self@.wf() && self.table_ok()
    }

    /// A well-formed pool has a well-formed view.
    pub proof fn lemma_wf(&self)
        requires
            self.wf(),
        ensures
            self@.wf(),
    {
    }

    /// Creates a pool with room for `capacity` pages.
    pub fn new(capacity: usize) -> (result: Result<Self>)
        ensures
            match result {
                Ok(pool) => {
                    &&& capacity_error(capacity) is None
                    &&& pool.wf()
                    &&& pool@ == empty_pool(capacity)
                },
                Err(err) => capacity_error(capacity) == Some(err@),
            },
    {
        if capacity == 0 {
            return Err(
                Error::InvalidArgument("buffer pool capacity must be at least 1".to_owned()),
            );
        }
        let mut frames: Vec<Frame> = Vec::with_capacity(capacity);
        let mut free_frames: Vec<usize> = Vec::with_capacity(capacity);
        // The last frame first, so frames are handed out in ascending order.
        let mut left: usize = capacity;
        while left > 0
            invariant
                left <= capacity,
                frames@.len() == capacity - left,
                free_frames@.len() == capacity - left,
                forall|i: int|
                    0 <= i < frames@.len() ==> (#[trigger] frames@[i]).view() == (FrameView {
                        page: page::zero_page(),
                        dirty: false,
                        page_id: None,
                        pins: 0,
                        referenced: false,
                    }),
                forall|i: int|
                    0 <= i < free_frames@.len() ==> #[trigger] free_frames@[i] == capacity - 1 - i,
            decreases left,
        {
            left -= 1;
            frames.push(
                Frame {
                    page: Page::zeroed(),
                    dirty: false,
                    page_id: None,
                    pin_count: 0,
                    referenced: false,
                },
            );
            free_frames.push(left);
        }
        let pool = BufferPool {
            frames,
            page_table: HashMap::with_capacity(capacity),
            free_frames,
            hand: 0,
        };
        proof {
            assert(pool@ =~= empty_pool(capacity));
            lemma_empty_pool(capacity);
            assert forall|frame: int, id: PageId| !(#[trigger] pool@.holds(frame, id)) by {
                assert(!pool@.cached(id));
            }
        }
        Ok(pool)
    }

    /// Number of frames in the pool.
    pub fn capacity(&self) -> (capacity: usize)
        ensures
            capacity == self@.frames.len(),
    {
        self.frames.len()
    }

    /// The frame that holds page `id`.
    fn find(&self, id: PageId) -> (found: Option<usize>)
        requires
            self.wf(),
        ensures
            match found {
                Some(frame) => {
                    &&& self@.holds(frame as int, id)
                    &&& frame == self@.frame_of(id)
                },
                None => !self@.cached(id),
            },
    {
        match self.page_table.get(&id.0) {
            Some(frame) => {
                assert(self@.holds(*frame as int, id));
                Some(*frame)
            },
            None => None,
        }
    }

    /// Picks a frame to evict: moves the clock hand until it stands at a
    /// frame that is neither pinned nor referenced.
    fn pick_victim(&mut self) -> (found: Option<usize>)
        requires
            old(self).wf(),
        ensures
            final(self).wf(),
            ({
                let (frames, hand, victim) = sweep(
                    old(self)@.frames,
                    old(self)@.hand,
                    2 * old(self)@.frames.len(),
                );
                &&& final(self)@ == (PoolView { frames, hand, ..old(self)@ })
                &&& match found {
                    Some(frame) => victim == Some(frame as int),
                    None => victim is None,
                }
            }),
            match found {
                Some(frame) => {
                    &&& frame < final(self)@.frames.len()
                    &&& final(self)@.frames[frame as int].pins == 0
                },
                None => true,
            },
            forall|frame: int, id: PageId| #[trigger]
                final(self)@.holds(frame, id) == old(self)@.holds(frame, id),
    {
        let len: usize = self.frames.len();
        let ghost before = self@;
        let ghost steps = 2 * len as nat;
        let ghost target = sweep(before.frames, before.hand, steps);
        proof {
            lemma_sweep(before.frames, before.hand, steps);
        }
        let mut left: u128 = 2 * len as u128;
        while left > 0
            invariant
                len == self.frames@.len() == before.frames.len(),
                steps == 2 * len,
                left <= steps,
                target == sweep(before.frames, before.hand, steps),
                target.0.len() == len,
                forall|i: int|
                    0 <= i < len ==> same_page(#[trigger] target.0[i], before.frames[i]),
                target.2 matches Some(frame) ==> frame == target.1 && before.frames[frame].pins
                    == 0,
                old(self)@ == before,
                old(self).wf(),
                before.wf(),
                self@.free == before.free,
                self.page_table == old(self).page_table,
                self.hand < len,
                target == sweep(self@.frames, self@.hand, left as nat),
            decreases left,
        {
            let at: usize = self.hand;
            let ghost now = self@;
            let pinned: bool = self.frames[at].pin_count > 0;
            if !pinned && !self.frames[at].referenced {
                proof {
                    assert(target == (self@.frames, self@.hand, Some(at as int)));
                    lemma_marks_irrelevant(before, self@);
                }
                return Some(at);
            }
            if !pinned {
                self.frames[at].referenced = false;
            }
            self.hand = if at + 1 == len {
                0
            } else {
                at + 1
            };
            left -= 1;
            assert(self@.frames =~= if now.frames[at as int].pins == 0 {
                now.frames.update(
                    at as int,
                    FrameView { referenced: false, ..now.frames[at as int] },
                )
            } else {
                now.frames
            });
        }
        proof {
            assert(target == (self@.frames, self@.hand, None::<int>));
            lemma_marks_irrelevant(before, self@);
        }
        None
    }

    /// Makes room for page `id`, unless it is cached already.
    pub fn room_for(&mut self, id: PageId) -> (result: Result<Room>)
        requires
            old(self).wf(),
        ensures
            final(self).wf(),
            if old(self)@.cached(id) {
                &&& result matches Ok(Room::Ready)
                &&& final(self)@ == old(self)@
            } else {
                let (after, room) = old(self)@.with_room();
                &&& final(self)@ == after
                &&& match result {
                    Ok(Room::Ready) => room is Ready,
                    Ok(Room::WriteBack(frame)) => room == RoomView::WriteBack(frame as int),
                    Err(err) => {
                        &&& room is Exhausted
                        &&& err@ == exhausted(old(self)@.frames.len())
                    },
                }
            },
    {
        if self.find(id).is_some() {
            return Ok(Room::Ready);
        }
        self.make_room()
    }

    /// Makes room for one more page.
    fn make_room(&mut self) -> (result: Result<Room>)
        requires
            old(self).wf(),
        ensures
            final(self).wf(),
            ({
                let (after, room) = old(self)@.with_room();
                &&& final(self)@ == after
                &&& match result {
                    Ok(Room::Ready) => room is Ready,
                    Ok(Room::WriteBack(frame)) => room == RoomView::WriteBack(frame as int),
                    Err(err) => {
                        &&& room is Exhausted
                        &&& err@ == exhausted(old(self)@.frames.len())
                    },
                }
            }),
    {
        if self.free_frames.len() > 0 {
            return Ok(Room::Ready);
        }
        proof {
            lemma_sweep(self@.frames, self@.hand, 2 * self@.frames.len());
        }
        match self.pick_victim() {
            None => {
                let mut msg = "all ".to_owned();
                msg.append(text::decimal(self.capacity() as u128).as_str());
                msg.append(" buffer pool frames are in use");
                Err(Error::ResourceExhausted(msg))
            },
            Some(frame) => {
                if self.frames[frame].dirty {
                    return Ok(Room::WriteBack(frame));
                }
                self.evict(frame);
                Ok(Room::Ready)
            },
        }
    }

    /// Throws out the page in an unpinned, clean frame.
    fn evict(&mut self, frame: usize)
        requires
            old(self).wf(),
            old(self)@.free.len() == 0,
            frame < old(self)@.frames.len(),
            old(self)@.frames[frame as int].pins == 0,
            !old(self)@.frames[frame as int].dirty,
        ensures
            final(self).wf(),
            final(self)@ == old(self)@.evicted(frame as int),
    {
        let ghost before = self@;
        proof {
            if before.frames[frame as int].page_id is None {
                assert(before.free.contains(frame));
            }
            lemma_evicted(before, frame as int);
        }
        let len: usize = self.frames.len();
        if let Some(id) = self.frames[frame].page_id {
            assert(before.holds(frame as int, id));
            self.page_table.remove(&id.0);
            self.frames[frame].page_id = None;
            self.free_frames.push(frame);
            self.hand = if frame + 1 == len {
                0
            } else {
                frame + 1
            };
            proof {
                assert(self@ =~= before.evicted(frame as int));
                assert forall|other: u64| #[trigger]
                    self.page_table@.contains_key(other) implies self@.holds(
                    self.page_table@[other] as int,
                    PageId(other),
                ) by {
                    let f = self.page_table@[other] as int;
                    assert(before.holds(f, PageId(other)));
                    if f == frame {
                        assert(PageId(other) == id);
                    }
                }
                assert forall|f: int, other: PageId| #[trigger]
                    self@.holds(f, other) implies self.page_table@.contains_key(other.0) by {
                    assert(before.holds(f, other));
                    if other == id {
                        assert(before.holds(frame as int, id));
                    }
                }
            }
        }
    }

    /// Returns a pinned handle to page `id` if it is cached; else makes room
    /// for it.
    pub fn fetch_page(&mut self, id: PageId) -> (result: Result<Fetch>)
        requires
            old(self).wf(),
            old(self)@.cached(id) ==> old(self)@.frames[old(self)@.frame_of(id)].pins < u32::MAX,
        ensures
            final(self).wf(),
            if old(self)@.cached(id) {
                let frame = old(self)@.frame_of(id);
                &&& result matches Ok(Fetch::Hit(handle)) && handle.frame() == frame && handle.id()
                    == id
                &&& final(self)@ == old(self)@.pinned(frame)
            } else {
                let (after, room) = old(self)@.with_room();
                &&& final(self)@ == after
                &&& match result {
                    Ok(Fetch::Hit(_)) => false,
                    Ok(Fetch::Read) => room is Ready,
                    Ok(Fetch::WriteBack(frame)) => room == RoomView::WriteBack(frame as int),
                    Err(err) => {
                        &&& room is Exhausted
                        &&& err@ == exhausted(old(self)@.frames.len())
                    },
                }
            },
    {
        let ghost before = self@;
        if let Some(frame) = self.find(id) {
            self.frames[frame].pin_count += 1;
            self.frames[frame].referenced = true;
            proof {
                assert(self@ =~= before.pinned(frame as int));
                lemma_with_frame(before, frame as int, self@.frames[frame as int]);
            }
            return Ok(Fetch::Hit(PageHandle { frame_id: frame, page_id: id }));
        }
        match self.make_room() {
            Ok(Room::Ready) => Ok(Fetch::Read),
            Ok(Room::WriteBack(frame)) => Ok(Fetch::WriteBack(frame)),
            Err(err) => Err(err),
        }
    }

    /// Puts a page that is not cached into a free frame.
    fn fill(&mut self, id: PageId, contents: Frame) -> (frame: usize)
        requires
            old(self).wf(),
            !old(self)@.cached(id),
            old(self)@.free.len() > 0,
            contents.page_id == Some(id),
        ensures
            final(self).wf(),
            final(self)@ == old(self)@.filled(contents.view()),
            frame == old(self)@.free.last(),
            final(self)@.holds(frame as int, id),
    {
        let ghost before = self@;
        let ghost added = contents.view();
        proof {
            lemma_filled(before, added, id);
        }
        let last: usize = self.free_frames.len() - 1;
        let frame: usize = self.free_frames[last];
        self.free_frames.pop();
        assert(frame == before.free[last as int]);
        self.frames[frame] = contents;
        self.page_table.insert(id.0, frame);
        proof {
            assert(self@ =~= before.filled(added));
            assert forall|other: u64| #[trigger] self.page_table@.contains_key(other) implies
                self@.holds(self.page_table@[other] as int, PageId(other)) by {
                if other != id.0 {
                    assert(before.holds(self.page_table@[other] as int, PageId(other)));
                }
            }
            assert forall|f: int, other: PageId| #[trigger] self@.holds(f, other) implies
                self.page_table@.contains_key(other.0) by {
                if f != frame {
                    assert(before.holds(f, other));
                }
            }
        }
        frame
    }

    /// Caches a page that was read from disk, pinned once.
    pub fn load_page(&mut self, id: PageId, page: Page) -> (handle: PageHandle)
        requires
            old(self).wf(),
            !old(self)@.cached(id),
            old(self)@.free.len() > 0,
        ensures
            final(self).wf(),
            final(self)@ == old(self)@.filled(
                (FrameView {
                    page: page@,
                    dirty: false,
                    page_id: Some(id),
                    pins: 1,
                    referenced: true,
                }),
            ),
            handle.frame() == old(self)@.free.last(),
            handle.id() == id,
            final(self)@.holds(handle.frame(), id),
    {
        let frame: usize = self.fill(
            id,
            Frame { page, dirty: false, page_id: Some(id), pin_count: 1, referenced: true },
        );
        PageHandle { frame_id: frame, page_id: id }
    }

    /// Caches a new version of a page, which is not on disk yet. There has to
    /// be room; see [`BufferPool::room_for`].
    pub fn install_page(&mut self, id: PageId, page: Page)
        requires
            old(self).wf(),
            old(self)@.cached(id) || old(self)@.free.len() > 0,
        ensures
            final(self).wf(),
            final(self)@ == installed(old(self)@, id, page@),
    {
        let ghost before = self@;
        match self.find(id) {
            Some(frame) => {
                self.frames[frame].page = page;
                self.frames[frame].dirty = true;
                self.frames[frame].referenced = true;
                proof {
                    assert(self@ =~= installed(before, id, page@));
                    lemma_with_frame(before, frame as int, self@.frames[frame as int]);
                }
            },
            None => {
                self.fill(
                    id,
                    Frame { page, dirty: true, page_id: Some(id), pin_count: 0, referenced: true },
                );
            },
        }
    }

    /// Seals the page in a frame and returns the write that stores it; once
    /// performed, [`BufferPool::written_back`] is to be called.
    pub fn write_back(&mut self, frame: usize, disk: &DiskManager) -> (result: Result<FileOp>)
        requires
            old(self).wf(),
            disk.wf(),
            frame < old(self)@.frames.len(),
            old(self)@.frames[frame as int].page_id is Some,
        ensures
            final(self).wf(),
            ({
                let contents = old(self)@.frames[frame as int];
                let id = contents.page_id->0;
                let error = disk::write_error(id, disk.count(), contents.page);
                match result {
                    Ok(op) => {
                        &&& error is None
                        &&& op@ == disk::page_write(id, page::sealed(contents.page))
                        &&& final(self)@ == old(self)@.with_frame(
                            frame as int,
                            FrameView { page: page::sealed(contents.page), ..contents },
                        )
                    },
                    Err(err) => error == Some(err@) && final(self)@ == old(self)@,
                }
            }),
    {
        let ghost before = self@;
        match self.frames[frame].page_id {
            Some(id) => {
                let result = disk.write_page(id, &mut self.frames[frame].page);
                proof {
                    let contents = before.frames[frame as int];
                    assert(self@ =~= before.with_frame(
                        frame as int,
                        FrameView { page: self@.frames[frame as int].page, ..contents },
                    ));
                    lemma_with_frame(before, frame as int, self@.frames[frame as int]);
                    if result is Err {
                        assert(self@ =~= before);
                    }
                }
                result
            },
            None => vstd::pervasive::unreached(),
        }
    }

    /// Notes that the page in a frame is on disk as it is in memory.
    pub fn written_back(&mut self, frame: usize)
        requires
            old(self).wf(),
            frame < old(self)@.frames.len(),
            old(self)@.frames[frame as int].page_id is Some,
        ensures
            final(self).wf(),
            final(self)@ == old(self)@.with_frame(
                frame as int,
                FrameView { dirty: false, ..old(self)@.frames[frame as int] },
            ),
    {
        let ghost before = self@;
        self.frames[frame].dirty = false;
        proof {
            assert(self@ =~= before.with_frame(frame as int, self@.frames[frame as int]));
            lemma_with_frame(before, frame as int, self@.frames[frame as int]);
        }
    }

    /// Seals every dirty page and returns the writes that store them; once
    /// performed, [`BufferPool::flush_done`] is to be called. Fails at the
    /// first page that has no place in the file.
    pub fn flush_all(&mut self, disk: &DiskManager) -> (result: Result<Vec<FileOp>>)
        requires
            old(self).wf(),
            disk.wf(),
        ensures
            final(self).wf(),
            match result {
                Ok(ops) => {
                    let len = old(self)@.frames.len() as int;
                    &&& flushable(old(self)@.frames, disk.count(), len)
                    &&& file_op::op_views(ops@) == flush_ops(old(self)@.frames, len)
                    &&& final(self)@ == sealed_pool(old(self)@, len)
                },
                Err(err) => flush_fails(old(self)@, disk.count(), err@, final(self)@),
            },
    {
        let ghost before = self@;
        let len: usize = self.frames.len();
        let mut ops: Vec<FileOp> = Vec::new();
        let mut i: usize = 0;
        assert(self@ =~= sealed_pool(before, 0));
        assert(file_op::op_views(ops@) =~= flush_ops(before.frames, 0));
        while i < len
            invariant
                self.wf(),
                disk.wf(),
                before.wf(),
                old(self)@ == before,
                i <= len == before.frames.len(),
                self@ == sealed_pool(before, i as int),
                flushable(before.frames, disk.count(), i as int),
                file_op::op_views(ops@) == flush_ops(before.frames, i as int),
            decreases len - i,
        {
            let ghost contents = before.frames[i as int];
            assert(self@.frames[i as int] == contents);
            if self.frames[i].dirty {
                assert(contents.page_id is Some);
                let written = self.write_back(i, disk);
                match written {
                    Err(err) => {
                        assert(flushable(before.frames, disk.count(), i as int));
                        return Err(err);
                    },
                    Ok(op) => {
                        let ghost pushed = ops@;
                        ops.push(op);
                        assert(file_op::op_views(ops@) =~= file_op::op_views(pushed).push(op@));
                    },
                }
            }
            i += 1;
            assert(self@ =~= sealed_pool(before, i as int));
        }
        Ok(ops)
    }

    /// Notes that every page is on disk as it is in memory.
    pub fn flush_done(&mut self)
        requires
            old(self).wf(),
        ensures
            final(self).wf(),
            final(self)@ == cleaned_pool(old(self)@, old(self)@.frames.len() as int),
    {
        let ghost before = self@;
        let len: usize = self.frames.len();
        let mut i: usize = 0;
        assert(self@ =~= cleaned_pool(before, 0));
        while i < len
            invariant
                self.wf(),
                before.wf(),
                i <= len == before.frames.len(),
                self@ == cleaned_pool(before, i as int),
            decreases len - i,
        {
            let ghost now = self@;
            if self.frames[i].dirty {
                self.written_back(i);
            }
            i += 1;
            assert(self@ =~= cleaned_pool(before, i as int));
        }
    }

    /// Gives a handle back.
    pub fn unpin(&mut self, handle: PageHandle)
        requires
            old(self).wf(),
            old(self)@.holds(handle.frame(), handle.id()),
            old(self)@.frames[handle.frame()].pins > 0,
        ensures
            final(self).wf(),
            final(self)@ == unpinned(old(self)@, handle.frame()),
    {
        let ghost before = self@;
        let frame: usize = handle.frame_id;
        self.frames[frame].pin_count -= 1;
        proof {
            assert(self@ =~= unpinned(before, frame as int));
            lemma_with_frame(before, frame as int, self@.frames[frame as int]);
        }
    }

    /// How often page `id` is pinned.
    pub fn pin_count(&self, id: PageId) -> (pins: u32)
        requires
            self.wf(),
        ensures
            pins == if self@.cached(id) {
                self@.frames[self@.frame_of(id)].pins
            } else {
                0
            },
    {
        match self.find(id) {
            Some(frame) => self.frames[frame].pin_count,
            None => 0,
        }
    }

    /// Whether page `id` is cached and differs from its on-disk copy.
    pub fn is_dirty(&self, id: PageId) -> (dirty: bool)
        requires
            self.wf(),
        ensures
            dirty == (self@.cached(id) && self@.frames[self@.frame_of(id)].dirty),
    {
        match self.find(id) {
            Some(frame) => self.frames[frame].dirty,
            None => false,
        }
    }
}

impl PageHandle {
    /// The id of the pinned page.
    pub fn page_id(&self) -> (id: PageId)
        ensures
            id == self.id(),
    {
        self.page_id
    }

    /// The frame that holds the pinned page.
    pub fn frame_id(&self) -> (frame: usize)
        ensures
            frame == self.frame(),
    {
        self.frame_id
    }

    /// The page, for reading.
    pub fn read<'a>(&self, pool: &'a BufferPool) -> (page: &'a Page)
        requires
            pool@.holds(self.frame(), self.id()),
        ensures
            page@ == pool@.frames[self.frame()].page,
    {
        &pool.frames[self.frame_id].page
    }

    /// The page, for writing. It is dirty from now on.
    pub fn write<'a>(&self, pool: &'a mut BufferPool) -> (page: &'a mut Page)
        requires
            old(pool).wf(),
            old(pool)@.holds(self.frame(), self.id()),
        ensures
            final(pool).wf(),
            page@ == old(pool)@.frames[self.frame()].page,
            final(pool)@ == old(pool)@.with_frame(
                self.frame(),
                (FrameView {
                    page: final(page)@,
                    dirty: true,
                    ..old(pool)@.frames[self.frame()]
                }),
            ),
    {
        let ghost before = pool@;
        let frame: usize = self.frame_id;
        pool.frames[frame].dirty = true;
        let page = &mut pool.frames[frame].page;
        proof {
            let contents = FrameView {
                page: final(page)@,
                dirty: true,
                ..before.frames[frame as int]
            };
            lemma_with_frame(before, frame as int, contents);
            assert(after_borrow(*pool)@ =~= before.with_frame(frame as int, contents));
        }
        page
    }
}

/// Whether the clock hand would pass a frame: it is pinned, or was used since
/// the hand last passed it.
pub open spec fn is_passed(frame: FrameView) -> bool {
    frame.pins > 0 || frame.referenced
}

/// How many positions the clock hand has to move to get from `hand` to
/// `frame`, on a clock with `len` positions.
pub open spec fn distance(hand: int, frame: int, len: int) -> int {
    if frame >= hand {
        frame - hand
    } else {
        frame - hand + len
    }
}

/// The clock hand stops at the first frame that it does not pass. The unpinned
/// frames that it passed have lost their mark, and no other frame has changed.
proof fn lemma_stops_at_first(frames: Seq<FrameView>, hand: int, steps: nat, target: int)
    requires
        0 <= hand < frames.len(),
        0 <= target < frames.len(),
        !is_passed(frames[target]),
        steps > distance(hand, target, frames.len() as int),
        forall|i: int|
            0 <= i < frames.len() && distance(hand, i, frames.len() as int) < distance(
                hand,
                target,
                frames.len() as int,
            ) ==> is_passed(#[trigger] frames[i]),
    ensures
        ({
            let len = frames.len() as int;
            let (after, end, found) = sweep(frames, hand, steps);
            &&& found == Some(target)
            &&& end == target
            &&& after.len() == len
            &&& forall|i: int|
                0 <= i < len ==> #[trigger] after[i] == if frames[i].pins == 0 && distance(
                    hand,
                    i,
                    len,
                ) < distance(hand, target, len) {
                    FrameView { referenced: false, ..frames[i] }
                } else {
                    frames[i]
                }
        }),
    decreases steps,
{
    let len = frames.len() as int;
    if hand != target {
        let next = next_hand(hand, len);
        assert(distance(hand, hand, len) == 0);
        assert(is_passed(frames[hand]));
        assert(distance(next, target, len) == distance(hand, target, len) - 1);
        let less = (steps - 1) as nat;
        let marked = if frames[hand].pins > 0 {
            frames
        } else {
            frames.update(hand, FrameView { referenced: false, ..frames[hand] })
        };
        assert forall|i: int|
            0 <= i < len && distance(next, i, len) < distance(
                next,
                target,
                len,
            ) implies is_passed(#[trigger] marked[i]) by {
            assert(i != hand);
            assert(distance(hand, i, len) == distance(next, i, len) + 1);
            assert(is_passed(frames[i]));
        }
        lemma_stops_at_first(marked, next, less, target);
        let (after, _, _) = sweep(frames, hand, steps);
        assert forall|i: int| 0 <= i < len implies #[trigger] after[i] == if frames[i].pins == 0
            && distance(hand, i, len) < distance(hand, target, len) {
            FrameView { referenced: false, ..frames[i] }
        } else {
            frames[i]
        } by {
            if i != hand {
                assert(marked[i] == frames[i]);
                assert(distance(hand, i, len) == distance(next, i, len) + 1);
            } else {
                assert(distance(next, hand, len) == len - 1);
            }
        }
    }
}

/// The frames after the clock hand moved `count` positions from `hand`.
spec fn after_round(frames: Seq<FrameView>, hand: int, count: int) -> Seq<FrameView> {
    Seq::new(
        frames.len(),
        |i: int|
            if frames[i].pins == 0 && distance(hand, i, frames.len() as int) < count {
                FrameView { referenced: false, ..frames[i] }
            } else {
                frames[i]
            },
    )
}

/// As long as the clock hand passes every frame, it goes on.
proof fn lemma_hand_goes_on(frames: Seq<FrameView>, hand: int, steps: nat, count: nat)
    requires
        0 <= hand < frames.len(),
        count <= frames.len(),
        count <= steps,
        forall|i: int| 0 <= i < frames.len() ==> is_passed(#[trigger] frames[i]),
    ensures
        ({
            let len = frames.len() as int;
            let at = if hand + count < len {
                hand + count
            } else {
                hand + count - len
            };
            sweep(frames, hand, steps) == sweep(
                after_round(frames, hand, count as int),
                at,
                (steps - count) as nat,
            )
        }),
    decreases count,
{
    let len = frames.len() as int;
    if count == 0 {
        assert(after_round(frames, hand, 0) =~= frames);
    } else {
        let less = (count - 1) as nat;
        lemma_hand_goes_on(frames, hand, steps, less);
        let before = after_round(frames, hand, less as int);
        let at = if hand + less < len {
            hand + less
        } else {
            hand + less - len
        };
        assert(distance(hand, at, len) == less);
        assert(before[at] == frames[at]);
        let marked = if before[at].pins > 0 {
            before
        } else {
            before.update(at, FrameView { referenced: false, ..before[at] })
        };
        assert forall|i: int| 0 <= i < len implies #[trigger] marked[i] == after_round(
            frames,
            hand,
            count as int,
        )[i] by {
            if i != at {
                assert(distance(hand, i, len) != less);
            }
        }
        assert(marked =~= after_round(frames, hand, count as int));
        let left = (steps - less) as nat;
        assert(sweep(before, at, left) == sweep(
            marked,
            next_hand(at, len),
            (left - 1) as nat,
        ));
    }
}

/// Which page has to go when there is no free frame: the first one, from the
/// clock hand on, that is neither pinned nor was used since the hand last
/// passed it. If every unpinned page was used, each gets its second chance, and
/// the first unpinned one has to go. The unpinned pages that the hand passed
/// have lost their mark. The hand stays at the page to be written back, and
/// stands behind a page that was thrown out. Nothing else changes.
pub proof fn lemma_second_chance(pool: PoolView, target: int)
    requires
        pool.wf(),
        pool.free.len() == 0,
        0 <= target < pool.frames.len(),
        pool.frames[target].pins == 0,
        ({
            let len = pool.frames.len() as int;
            let all_used = forall|i: int|
                0 <= i < len ==> is_passed(#[trigger] pool.frames[i]);
            &&& all_used || !pool.frames[target].referenced
            &&& forall|i: int|
                0 <= i < len && distance(pool.hand, i, len) < distance(pool.hand, target, len)
                    ==> (#[trigger] pool.frames[i]).pins > 0 || (!all_used
                    && pool.frames[i].referenced)
        }),
    ensures
        match pool.with_room().1 {
            RoomView::Ready => {
                &&& !pool.frames[target].dirty
                &&& pool.with_room().0.free == seq![target as usize]
                &&& pool.with_room().0.frames[target].page_id is None
            },
            RoomView::WriteBack(frame) => frame == target && pool.frames[target].dirty,
            RoomView::Exhausted => false,
        },
        ({
            let len = pool.frames.len() as int;
            let (after, room) = pool.with_room();
            let all_used = forall|i: int|
                0 <= i < len ==> is_passed(#[trigger] pool.frames[i]);
            &&& after.frames.len() == len
            &&& room is WriteBack ==> after.hand == target && after.free.len() == 0
            &&& room is Ready ==> after.hand == if target == len - 1 {
                0
            } else {
                target + 1
            }
            &&& forall|i: int|
                0 <= i < len ==> {
                    &&& (#[trigger] after.frames[i]).page == pool.frames[i].page
                    &&& after.frames[i].pins == pool.frames[i].pins
                    &&& after.frames[i].dirty == pool.frames[i].dirty
                    &&& i != target || room is WriteBack ==> after.frames[i].page_id
                        == pool.frames[i].page_id
                    &&& after.frames[i].referenced == (pool.frames[i].referenced && (
                    pool.frames[i].pins > 0 || !all_used && distance(pool.hand, i, len) >= distance(
                        pool.hand,
                        target,
                        len,
                    )))
                }
        }),
{
    let frames = pool.frames;
    let len = frames.len() as int;
    let steps = 2 * frames.len();
    let all_used = forall|i: int| 0 <= i < len ==> is_passed(#[trigger] frames[i]);
    if all_used {
        lemma_hand_goes_on(frames, pool.hand, steps, frames.len());
        let round = after_round(frames, pool.hand, len);
        assert forall|i: int| 0 <= i < len implies distance(pool.hand, i, len) < len by {}
        assert forall|i: int|
            0 <= i < len && distance(pool.hand, i, len) < distance(
                pool.hand,
                target,
                len,
            ) implies is_passed(#[trigger] round[i]) by {
            assert(frames[i].pins > 0);
        }
        assert(!is_passed(round[target]));
        lemma_stops_at_first(round, pool.hand, frames.len(), target);
    } else {
        assert forall|i: int|
            0 <= i < len && distance(pool.hand, i, len) < distance(
                pool.hand,
                target,
                len,
            ) implies is_passed(#[trigger] frames[i]) by {}
        lemma_stops_at_first(frames, pool.hand, steps, target);
    }
    lemma_room(pool);
    let (after, room) = pool.with_room();
    if room is Ready {
        assert(after.free =~= seq![target as usize]);
    }
}

/// Pinning a page adds one pin and marks the page as used; giving it back takes
/// one pin away. Nothing else changes, neither in the frame nor in the pool.
pub proof fn lemma_pin_and_unpin(pool: PoolView, frame: int)
    requires
        0 <= frame < pool.frames.len(),
    ensures
        pool.frames[frame].pins < u32::MAX ==> ({
            let before = pool.frames[frame];
            let after = pool.pinned(frame);
            &&& after.frames.len() == pool.frames.len()
            &&& after.frames[frame].pins == before.pins + 1
            &&& after.frames[frame].referenced
            &&& after.frames[frame].page == before.page
            &&& after.frames[frame].page_id == before.page_id
            &&& after.frames[frame].dirty == before.dirty
            &&& after.free == pool.free && after.hand == pool.hand
            &&& forall|i: int|
                0 <= i < pool.frames.len() && i != frame ==> (#[trigger] after.frames[i])
                    == pool.frames[i]
        }),
        pool.frames[frame].pins > 0 ==> ({
            let before = pool.frames[frame];
            let after = unpinned(pool, frame);
            &&& after.frames.len() == pool.frames.len()
            &&& after.frames[frame].pins == before.pins - 1
            &&& after.frames[frame].referenced == before.referenced
            &&& after.frames[frame].page == before.page
            &&& after.frames[frame].page_id == before.page_id
            &&& after.frames[frame].dirty == before.dirty
            &&& after.free == pool.free && after.hand == pool.hand
            &&& forall|i: int|
                0 <= i < pool.frames.len() && i != frame ==> (#[trigger] after.frames[i])
                    == pool.frames[i]
        }),
{
}

/// Installing a page: it is then cached as given, dirty and marked as used,
/// pinned as often as before. A page that was not cached takes the next free
/// frame. No other page changes or leaves, and the clock hand stays.
pub proof fn lemma_installed(pool: PoolView, id: PageId, page: Seq<u8>)
    requires
        pool.wf(),
        pool.cached(id) || pool.free.len() > 0,
    ensures
        ({
            let after = installed(pool, id, page);
            &&& after.cached(id)
            &&& after.frames[after.frame_of(id)].page == page
            &&& after.frames[after.frame_of(id)].dirty
            &&& after.frames[after.frame_of(id)].referenced
            &&& after.frames[after.frame_of(id)].pins == if pool.cached(id) {
                pool.frames[pool.frame_of(id)].pins
            } else {
                0
            }
            &&& after.frame_of(id) == if pool.cached(id) {
                pool.frame_of(id)
            } else {
                pool.free.last() as int
            }
            &&& after.free == if pool.cached(id) {
                pool.free
            } else {
                pool.free.drop_last()
            }
            &&& after.hand == pool.hand
            &&& after.frames.len() == pool.frames.len()
            &&& forall|frame: int, other: PageId| #[trigger]
                pool.holds(frame, other) && other != id ==> after.holds(frame, other)
                    && after.frames[frame] == pool.frames[frame]
        }),
{
    let after = installed(pool, id, page);
    if pool.cached(id) {
        let at = pool.frame_of(id);
        assert(pool.holds(at, id));
        lemma_with_frame(pool, at, after.frames[at]);
        assert(after.holds(at, id));
        assert(after.frame_of(id) == at);
    } else {
        let contents = FrameView {
            page,
            dirty: true,
            page_id: Some(id),
            pins: 0,
            referenced: true,
        };
        lemma_filled(pool, contents, id);
        let at = pool.free.last() as int;
        assert(after.holds(at, id));
        assert(after.frame_of(id) == at);
        assert forall|frame: int, other: PageId| #[trigger]
            pool.holds(frame, other) && other != id implies after.holds(frame, other)
            && after.frames[frame] == pool.frames[frame] by {
            assert(frame != at);
        }
    }
}

/// Flushing writes every dirty page of the first `end` frames exactly once,
/// sealed and in its place, and no other page.
pub proof fn lemma_flush_writes_dirty_pages(frames: Seq<FrameView>, end: int)
    requires
        0 <= end <= frames.len(),
    ensures
        flush_ops(frames, end).len() == dirty_count(frames.take(end)),
        forall|frame: int|
            0 <= frame < end && (#[trigger] frames[frame]).dirty ==> flush_ops(
                frames,
                end,
            ).contains(
                FileOpView::Write {
                    offset: ((frames[frame].page_id->0).0 * 4096) as nat,
                    bytes: page::sealed(frames[frame].page),
                },
            ),
    decreases end,
{
    if end > 0 {
        let before = flush_ops(frames, end - 1);
        let after = flush_ops(frames, end);
        lemma_flush_writes_dirty_pages(frames, end - 1);
        assert(frames.take(end).drop_last() =~= frames.take(end - 1));
        assert forall|frame: int| 0 <= frame < end && (#[trigger] frames[frame]).dirty implies after.contains(
            FileOpView::Write {
                offset: ((frames[frame].page_id->0).0 * 4096) as nat,
                bytes: page::sealed(frames[frame].page),
            },
        ) by {
            let op = FileOpView::Write {
                offset: ((frames[frame].page_id->0).0 * 4096) as nat,
                bytes: page::sealed(frames[frame].page),
            };
            if frame < end - 1 {
                assert(before.contains(op));
                let i = choose|i: int| 0 <= i < before.len() && before[i] == op;
                assert(after[i] == op);
            } else {
                assert(after[after.len() - 1] == op);
            }
        }
    } else {
        assert(frames.take(0) =~= Seq::empty());
    }
}

/// Flushing seals the dirty pages among the first `end` frames. Once they are
/// written, those frames are clean. Nothing else changes, and a clean page never
/// stands in the way.
pub proof fn lemma_flush_cleans(pool: PoolView, end: int, page_count: u64, frame: int)
    requires
        0 <= frame < pool.frames.len(),
    ensures
        ({
            let before = pool.frames[frame];
            let sealed = sealed_pool(pool, end);
            let cleaned = cleaned_pool(pool, end);
            &&& sealed.frames.len() == pool.frames.len()
            &&& sealed.free == pool.free && sealed.hand == pool.hand
            &&& sealed.frames[frame].page == if frame < end && before.dirty {
                page::sealed(before.page)
            } else {
                before.page
            }
            &&& sealed.frames[frame].dirty == before.dirty
            &&& sealed.frames[frame].page_id == before.page_id
            &&& sealed.frames[frame].pins == before.pins
            &&& sealed.frames[frame].referenced == before.referenced
            &&& cleaned.frames.len() == pool.frames.len()
            &&& cleaned.free == pool.free && cleaned.hand == pool.hand
            &&& cleaned.frames[frame].dirty == (before.dirty && frame >= end)
            &&& cleaned.frames[frame].page == before.page
            &&& cleaned.frames[frame].page_id == before.page_id
            &&& cleaned.frames[frame].pins == before.pins
            &&& cleaned.frames[frame].referenced == before.referenced
            &&& frame_error(before, page_count) is Some <==> before.dirty && !(0 < (
            before.page_id->0).0 < page_count && page::stored_id(before.page) == before.page_id->0)
        }),
{
}

} // verus!
