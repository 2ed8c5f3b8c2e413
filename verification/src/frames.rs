//! The hot tier.
//!
//! A fixed number of frames, allocated once at open and never grown.
//! `frame_count * block_size` *is* the hot budget: this is the only place
//! arena bytes live in RAM, so the bound on the data footprint is arithmetic
//! on this allocation rather than a hope about the kernel.
//!
//! Residency policy is CLOCK (second-chance): cheap, deterministic, and good
//! enough to prove the primitive. Replacing it later touches this module
//! only.

use crate::aligned::{AlignedBuf, IO_ALIGN};
use crate::bytes::{fill, window_mut};
#[allow(unused_imports)]
use crate::bytes::{overlay, repeated};
use vstd::prelude::*;

verus! {

/// The block recorded for a frame that holds none.
pub const NO_BLOCK: u64 = u64::MAX;

/// Bookkeeping for one frame.
#[derive(Clone, Copy, Debug)]
pub struct FrameMeta {
    /// Logical block held, or [`NO_BLOCK`] if none.
    pub block: u64,
    /// The frame's bytes differ from the backing store.
    pub dirty: bool,
    /// CLOCK reference bit; set on every access, cleared as the hand passes.
    pub referenced: bool,
    /// Loaded speculatively and not asked for yet.
    pub prefetched: bool,
}

impl FrameMeta {
    /// Bookkeeping of a frame that holds nothing.
    pub open spec fn unbound() -> Self {
        FrameMeta { block: NO_BLOCK, dirty: false, referenced: false, prefetched: false }
    }

    /// The frame holds a block.
    pub open spec fn bound(self) -> bool {
        self.block != NO_BLOCK
    }

    /// May the CLOCK hand take this frame? Every bound frame qualifies; a
    /// speculative load takes only clean ones.
    pub open spec fn eligible(self, clean_only: bool) -> bool {
        self.bound() && !(clean_only && self.dirty)
    }

    /// The same bookkeeping with the reference bit cleared.
    pub open spec fn aged(self) -> Self {
        FrameMeta { referenced: false, ..self }
    }
}

/// Every buffer in the list is `n` bytes long.
pub open spec fn each_len(data: Seq<Seq<u8>>, n: nat) -> bool {
    forall|f: int| 0 <= f < data.len() ==> (#[trigger] data[f]).len() == n
}

/// Every id in the list is below `n`.
pub open spec fn each_below(ids: Seq<u32>, n: nat) -> bool {
    forall|i: int| 0 <= i < ids.len() ==> (#[trigger] ids[i]) < n
}

/// What a frame pool holds, as mathematics.
#[verifier::ext_equal]
pub struct PoolState {
    /// Bytes per frame.
    pub block_size: nat,
    /// Bookkeeping per frame.
    pub meta: Seq<FrameMeta>,
    /// Contents per frame.
    pub data: Seq<Seq<u8>>,
    /// Frames on the free list; the last one is handed out first.
    pub free: Seq<u32>,
    /// The frame the CLOCK hand points at.
    pub hand: int,
}

impl PoolState {
    /// Number of frames.
    pub open spec fn count(self) -> nat {
        self.meta.len()
    }

    /// Structural validity: one buffer of `block_size` bytes per frame, the
    /// hand and the free list inside the pool.
    pub open spec fn wf(self) -> bool {
        &&& 0 < self.meta.len() <= u32::MAX
        &&& self.data.len() == self.meta.len()
        &&& each_len(self.data, self.block_size)
        &&& 0 <= self.hand < self.meta.len()
        &&& each_below(self.free, self.meta.len())
    }

    /// A frame id that exists.
    pub open spec fn has(self, f: u32) -> bool {
        f < self.meta.len()
    }

    /// The frame is on the free list.
    pub open spec fn is_free(self, f: u32) -> bool {
        self.free.contains(f)
    }

    /// The same pool with other bookkeeping for frame `f`.
    pub open spec fn with_meta(self, f: u32, m: FrameMeta) -> Self {
        PoolState { meta: self.meta.update(f as int, m), ..self }
    }

    /// The same pool with other contents in frame `f`.
    pub open spec fn with_data(self, f: u32, bytes: Seq<u8>) -> Self {
        PoolState { data: self.data.update(f as int, bytes), ..self }
    }

    /// The pool after a free frame has been handed out.
    pub open spec fn popped(self) -> Self {
        PoolState { free: self.free.drop_last(), ..self }
    }

    /// The pool after frame `f` has been unbound and put on the free list.
    pub open spec fn released(self, f: u32) -> Self {
        PoolState {
            meta: self.meta.update(f as int, FrameMeta::unbound()),
            free: self.free.push(f),
            ..self
        }
    }

    // ---- CLOCK ----------------------------------------------------------

    /// The frame that lies `k` steps ahead of the hand.
    pub open spec fn slot(self, k: int) -> int {
        if self.hand + k < self.meta.len() {
            self.hand + k
        } else {
            self.hand + k - self.meta.len()
        }
    }

    /// How many steps ahead of the hand frame `f` lies.
    pub open spec fn distance(self, f: int) -> int {
        if f >= self.hand {
            f - self.hand
        } else {
            f - self.hand + self.meta.len()
        }
    }

    /// Frame `f` may be taken at once: eligible, and its second chance spent.
    pub open spec fn ripe(self, f: int, clean_only: bool) -> bool {
        self.meta[f].eligible(clean_only) && !self.meta[f].referenced
    }

    /// No ripe frame among the first `k` ahead of the hand.
    pub open spec fn none_ripe_before(self, k: int, clean_only: bool) -> bool {
        forall|f: int| 0 <= f < self.meta.len() && #[trigger] self.distance(f) < k
            ==> !self.ripe(f, clean_only)
    }

    /// No eligible frame among the first `k` ahead of the hand.
    pub open spec fn none_eligible_before(self, k: int, clean_only: bool) -> bool {
        forall|f: int| 0 <= f < self.meta.len() && #[trigger] self.distance(f) < k
            ==> !self.meta[f].eligible(clean_only)
    }

    /// Some frame may be taken.
    pub open spec fn some_eligible(self, clean_only: bool) -> bool {
        exists|f: int| 0 <= f < self.meta.len() && (#[trigger] self.meta[f]).eligible(clean_only)
    }

    /// `v` is the frame CLOCK takes. The hand takes the first ripe frame it
    /// meets; if a whole sweep meets none, every eligible frame has lost its
    /// reference bit and the first eligible one goes.
    pub open spec fn clock_takes(self, v: int, clean_only: bool) -> bool {
        &&& 0 <= v < self.meta.len()
        &&& self.meta[v].eligible(clean_only)
        &&& if self.ripe(v, clean_only) {
            self.none_ripe_before(self.distance(v), clean_only)
        } else {
            &&& self.none_ripe_before(self.meta.len() as int, clean_only)
            &&& self.none_eligible_before(self.distance(v), clean_only)
        }
    }

    /// The frames whose reference bit the sweep that takes `v` clears: the
    /// eligible ones it passed, which is all of them after a whole sweep.
    pub open spec fn passed(self, f: int, v: int, clean_only: bool) -> bool {
        &&& self.meta[f].eligible(clean_only)
        &&& self.ripe(v, clean_only) ==> self.distance(f) < self.distance(v)
    }

    /// The pool after CLOCK has taken `v`: the passed frames aged, the hand
    /// one past `v`.
    pub open spec fn swept(self, v: int, clean_only: bool) -> Self {
        PoolState {
            meta: Seq::new(
                self.meta.len(),
                |f: int|
                    if self.passed(f, v, clean_only) {
                        self.meta[f].aged()
                    } else {
                        self.meta[f]
                    },
            ),
            hand: if v + 1 == self.meta.len() { 0 } else { v + 1 },
            ..self
        }
    }
}

/// The bound frames of a pool with their bookkeeping, in frame order.
pub open spec fn bound_frames(meta: Seq<FrameMeta>) -> Seq<(u32, FrameMeta)>
    decreases meta.len(),
{
    if meta.len() == 0 {
        Seq::empty()
    } else {
        let rest = bound_frames(meta.drop_last());
        if meta.last().bound() {
            rest.push(((meta.len() - 1) as u32, meta.last()))
        } else {
            rest
        }
    }
}

/// How many frames are dirty.
pub open spec fn dirty_frames(meta: Seq<FrameMeta>) -> nat
    decreases meta.len(),
{
    if meta.len() == 0 {
        0
    } else {
        dirty_frames(meta.drop_last()) + if meta.last().dirty { 1nat } else { 0nat }
    }
}

/// A fixed pool of frames with a free list and a CLOCK hand.
pub struct FramePool {
    buf: AlignedBuf,
    block_size: usize,
    meta: Vec<FrameMeta>,
    free: Vec<u32>,
    hand: usize,
}

/// Frame `f` of `n` lies inside a buffer of `n * bs` bytes.
proof fn lemma_frame_in_buffer(f: int, n: int, bs: int)
    by (nonlinear_arith)
    requires
        0 <= f < n,
        0 <= bs,
    ensures
        0 <= f * bs,
        f * bs + bs <= n * bs,
{
}

/// Different frames do not overlap.
proof fn lemma_frames_apart(f: int, g: int, bs: int)
    by (nonlinear_arith)
    requires
        f != g,
        0 <= bs,
    ensures
        f * bs + bs <= g * bs || g * bs + bs <= f * bs,
{
}

impl View for FramePool {
    type V = PoolState;

    closed spec fn view(&self) -> PoolState {
        PoolState {
            block_size: self.block_size as nat,
            meta: self.meta@,
            data: Seq::new(
                self.meta@.len(),
                |f: int|
                    self.buf@.subrange(f * self.block_size, f * self.block_size + self.block_size),
            ),
            free: self.free@,
            hand: self.hand as int,
        }
    }
}

impl FramePool {
    /// The buffer holds exactly one block per frame.
    pub closed spec fn sized(&self) -> bool {
        self.buf@.len() == self.meta@.len() * self.block_size
    }

    /// Validity of a pool. Every constructor establishes it, every method
    /// keeps it.
    pub open spec fn wf(&self) -> bool {
        &&& self.sized()
        &&& self@.wf()
    }

    /// Allocate `frame_count` zeroed frames of `block_size` bytes, all free.
    /// Low frames are handed out first, so a partially used pool is
    /// contiguous.
    pub fn new(frame_count: usize, block_size: usize) -> (pool: Self)
        requires
            0 < frame_count <= u32::MAX,
            0 < block_size,
            (frame_count * block_size) % (IO_ALIGN as int) == 0,
            frame_count * block_size <= isize::MAX,
        ensures
            pool.wf(),
            pool@.block_size == block_size,
            pool@.meta == Seq::new(frame_count as nat, |f: int| FrameMeta::unbound()),
            pool@.data == Seq::new(
                frame_count as nat,
                |f: int| repeated(0, block_size as nat),
            ),
            pool@.free == Seq::new(
                frame_count as nat,
                |i: int| (frame_count - 1 - i) as u32,
            ),
            pool@.hand == 0,
    {
        assert(0 < frame_count * block_size) by (nonlinear_arith)
            requires
                0 < frame_count,
                0 < block_size,
        ;
        let buf = AlignedBuf::zeroed(frame_count * block_size);
        let empty = FrameMeta { block: NO_BLOCK, dirty: false, referenced: false, prefetched: false };
        let meta: Vec<FrameMeta> = vec![empty; frame_count];
        let mut free: Vec<u32> = Vec::new();
        let mut left: usize = frame_count;
        while left > 0
            invariant
                left <= frame_count <= u32::MAX,
                free@ == Seq::new(
                    (frame_count - left) as nat,
                    |i: int| (frame_count - 1 - i) as u32,
                ),
            decreases left,
        {
            left = left - 1;
            free.push(left as u32);
            assert(free@ =~= Seq::new(
                (frame_count - left) as nat,
                |i: int| (frame_count - 1 - i) as u32,
            ));
        }
        let pool = FramePool { buf, block_size, meta, free, hand: 0 };
        proof {
            assert(pool@.meta =~= Seq::new(frame_count as nat, |f: int| FrameMeta::unbound()));
            assert forall|f: int| 0 <= f < frame_count implies #[trigger] pool@.data[f]
                =~= repeated(0, block_size as nat) by {
                lemma_frame_in_buffer(f, frame_count as int, block_size as int);
            }
            assert(pool@.data =~= Seq::new(
                frame_count as nat,
                |f: int| repeated(0, block_size as nat),
            ));
        }
        pool
    }

    /// Number of frames.
    pub fn frame_count(&self) -> (n: usize)
        ensures
            n == self@.count(),
    {
        self.meta.len()
    }

    /// Bytes per frame.
    pub fn block_size(&self) -> (n: usize)
        ensures
            n == self@.block_size,
    {
        self.block_size
    }

    /// Bytes of frame memory allocated — the hot budget as actually held.
    pub fn bytes(&self) -> (n: usize)
        requires
            self.wf(),
        ensures
            n == self@.count() * self@.block_size,
    {
        self.buf.len()
    }

    /// Frames not on the free list.
    pub fn resident_count(&self) -> (n: usize)
        requires
            self@.free.len() <= self@.count(),
        ensures
            n == self@.count() - self@.free.len(),
    {
        self.meta.len() - self.free.len()
    }

    /// Frames whose bytes differ from the backing store.
    pub fn dirty_count(&self) -> (n: usize)
        ensures
            n == dirty_frames(self@.meta),
    {
        let mut n: usize = 0;
        let mut i: usize = 0;
        while i < self.meta.len()
            invariant
                i <= self.meta@.len(),
                n <= i,
                n == dirty_frames(self.meta@.take(i as int)),
            decreases self.meta@.len() - i,
        {
            assert(self.meta@.take(i + 1).drop_last() =~= self.meta@.take(i as int));
            if self.meta[i].dirty {
                n = n + 1;
            }
            i = i + 1;
        }
        assert(self.meta@.take(i as int) =~= self.meta@);
        n
    }

    /// Bookkeeping of a frame.
    pub fn meta(&self, frame: u32) -> (m: FrameMeta)
        requires
            self@.has(frame),
        ensures
            m == self@.meta[frame as int],
    {
        self.meta[frame as usize]
    }

    /// Bytes of a frame.
    pub fn data(&self, frame: u32) -> (s: &[u8])
        requires
            self.wf(),
            self@.has(frame),
        ensures
            s@ == self@.data[frame as int],
    {
        proof {
            lemma_frame_in_buffer(frame as int, self.meta@.len() as int, self.block_size as int);
        }
        let _total: usize = self.buf.len();
        let s: usize = frame as usize * self.block_size;
        &self.buf.as_slice()[s..s + self.block_size]
    }

    /// Bytes of a frame, writable. The other frames keep theirs.
    pub fn data_mut(&mut self, frame: u32) -> (s: &mut [u8])
        requires
            old(self).wf(),
            old(self)@.has(frame),
        ensures
            s@ == old(self)@.data[frame as int],
            final(s)@.len() == s@.len() ==> final(self).wf(),
            final(s)@.len() == s@.len() ==> final(self)@ == old(self)@.with_data(
                frame,
                final(s)@,
            ),
    {
        proof {
            lemma_frame_in_buffer(frame as int, self.meta@.len() as int, self.block_size as int);
        }
        let _total: usize = self.buf.len();
        let start: usize = frame as usize * self.block_size;
        let bs: usize = self.block_size;
        proof {
            let whole = self.buf@;
            let n = self.meta@.len() as int;
            let before = self@.data;
            assert forall|m: Seq<u8>| m.len() == bs implies before.update(frame as int, m) =~= Seq::new(
                n as nat,
                |f: int|
                    (#[trigger] overlay(whole, start as int, m)).subrange(f * bs, f * bs + bs),
            ) by {
                assert forall|f: int| 0 <= f < n implies before.update(frame as int, m)[f]
                    =~= #[trigger] overlay(whole, start as int, m).subrange(f * bs, f * bs + bs) by {
                    lemma_frame_in_buffer(f, n, bs as int);
                    if f != frame {
                        lemma_frames_apart(f, frame as int, bs as int);
                    }
                }
            }
        }
        window_mut(self.buf.as_mut_slice(), start, bs)
    }

    /// Set a frame's reference bit.
    pub fn touch(&mut self, frame: u32)
        requires
            old(self).wf(),
            old(self)@.has(frame),
        ensures
            final(self).wf(),
            final(self)@ == old(self)@.with_meta(
                frame,
                FrameMeta { referenced: true, ..old(self)@.meta[frame as int] },
            ),
    {
        let m = self.meta[frame as usize];
        self.meta[frame as usize] = FrameMeta { referenced: true, ..m };
        assert(self@.data =~= old(self)@.data);
    }

    /// Record that a frame differs from the backing store.
    pub fn mark_dirty(&mut self, frame: u32)
        requires
            old(self).wf(),
            old(self)@.has(frame),
        ensures
            final(self).wf(),
            final(self)@ == old(self)@.with_meta(
                frame,
                FrameMeta { dirty: true, ..old(self)@.meta[frame as int] },
            ),
    {
        let m = self.meta[frame as usize];
        self.meta[frame as usize] = FrameMeta { dirty: true, ..m };
        assert(self@.data =~= old(self)@.data);
    }

    /// Record that a frame equals the backing store.
    pub fn mark_clean(&mut self, frame: u32)
        requires
            old(self).wf(),
            old(self)@.has(frame),
        ensures
            final(self).wf(),
            final(self)@ == old(self)@.with_meta(
                frame,
                FrameMeta { dirty: false, ..old(self)@.meta[frame as int] },
            ),
    {
        let m = self.meta[frame as usize];
        self.meta[frame as usize] = FrameMeta { dirty: false, ..m };
        assert(self@.data =~= old(self)@.data);
    }

    /// Take a free frame if one exists.
    pub fn take_free(&mut self) -> (r: Option<u32>)
        requires
            old(self).wf(),
        ensures
            final(self).wf(),
            old(self)@.free.len() == 0 ==> r is None && final(self)@ == old(self)@,
            old(self)@.free.len() > 0 ==> r == Some(old(self)@.free.last()) && final(self)@
                == old(self)@.popped(),
    {
        let r = self.free.pop();
        assert(self@.data =~= old(self)@.data);
        assert(old(self)@.free.len() > 0 ==> self@.free =~= old(self)@.free.drop_last());
        r
    }

    /// Advance the CLOCK hand to the frame it takes, aging what it passes.
    /// At most two full sweeps: the first clears every reference bit, the
    /// second is guaranteed to find an eligible frame if there is one.
    fn sweep(&mut self, clean_only: bool) -> (r: Option<u32>)
        requires
            old(self).wf(),
        ensures
            final(self).wf(),
            match r {
                Some(v) => {
                    &&& old(self)@.clock_takes(v as int, clean_only)
                    &&& final(self)@ == old(self)@.swept(v as int, clean_only)
                },
                None => {
                    &&& !old(self)@.some_eligible(clean_only)
                    &&& final(self)@ == old(self)@
                },
            },
    {
        let n: usize = self.meta.len();
        let ghost before = self@;
        let mut second: bool = false;
        let mut k: usize = 0;
        while !second || k < n
            invariant
                self.sized(),
                self@.wf(),
                before == old(self)@,
                before.wf(),
                n == before.meta.len(),
                k <= n,
                self@ == (PoolState { meta: self@.meta, hand: self@.hand, ..before }),
                self@.hand == before.slot(k as int) || (k == n && self@.hand == before.hand),
                self@.meta.len() == n,
                forall|f: int| 0 <= f < n ==> #[trigger] self@.meta[f] == (if before.meta[f].eligible(
                    clean_only,
                ) && (second || before.distance(f) < k) {
                    before.meta[f].aged()
                } else {
                    before.meta[f]
                }),
                !second ==> before.none_ripe_before(k as int, clean_only),
                second ==> before.none_ripe_before(n as int, clean_only)
                    && before.none_eligible_before(k as int, clean_only),
            decreases (if second { 0int } else { 1int }), n - k,
        {
            if k == n {
                second = true;
                k = 0;
                continue ;
            }
            let i: usize = self.hand;
            assert(before.distance(i as int) == k);
            if i + 1 == n {
                self.hand = 0;
            } else {
                self.hand = i + 1;
            }
            let m = self.meta[i];
            let ghost mid = self@;
            assert(mid.data =~= before.data);
            if m.block != NO_BLOCK && !(clean_only && m.dirty) {
                if m.referenced {
                    self.meta[i] = FrameMeta { referenced: false, ..m };
                } else {
                    assert(self@ =~= before.swept(i as int, clean_only));
                    return Some(i as u32);
                }
            }
            assert(self@.data =~= before.data);
            k = k + 1;
        }
        assert(self@.meta =~= before.meta) by {
            assert forall|f: int| 0 <= f < n implies #[trigger] self@.meta[f] == before.meta[f] by {
                assert(before.distance(f) < n);
            }
        }
        assert(!before.some_eligible(clean_only)) by {
            assert forall|f: int| 0 <= f < n implies !(#[trigger] before.meta[f]).eligible(
                clean_only,
            ) by {
                assert(before.distance(f) < n);
            }
        }
        assert(self@ =~= before);
        None
    }

    /// CLOCK victim selection. Returns a frame that is currently holding a
    /// block; the caller must write it back if dirty and update the block
    /// map before calling [`FramePool::assign`]. The pool must have no free
    /// frame (the caller must prefer [`FramePool::take_free`]) and at least
    /// one bound one.
    pub fn choose_victim(&mut self) -> (v: u32)
        requires
            old(self).wf(),
            old(self)@.free.len() == 0,
            old(self)@.some_eligible(false),
        ensures
            final(self).wf(),
            old(self)@.clock_takes(v as int, false),
            final(self)@ == old(self)@.swept(v as int, false),
    {
        match self.sweep(false) {
            Some(v) => v,
            None => 0,
        }
    }

    /// Take a frame for a speculative load: a free one, else the clean frame
    /// CLOCK takes. A taken frame arrives detached, with the block it held;
    /// that block's map entry is the caller's to clear. `None` if every
    /// frame is dirty or in the caller's hands already.
    pub fn take_free_or_clean(&mut self) -> (r: Option<(u32, u64)>)
        requires
            old(self).wf(),
        ensures
            final(self).wf(),
            old(self)@.free.len() > 0 ==> r == Some((old(self)@.free.last(), NO_BLOCK)) && final(self)@ == old(self)@.popped(),
            old(self)@.free.len() == 0 ==> match r {
                Some((f, outgoing)) => {
                    &&& old(self)@.clock_takes(f as int, true)
                    &&& outgoing == old(self)@.meta[f as int].block
                    &&& final(self)@ == old(self)@.swept(f as int, true).with_meta(
                        f,
                        FrameMeta::unbound(),
                    )
                },
                None => !old(self)@.some_eligible(true) && final(self)@ == old(self)@,
            },
    {
        match self.take_free() {
            Some(f) => Some((f, NO_BLOCK)),
            None => match self.sweep(true) {
                Some(f) => {
                    let outgoing: u64 = self.meta[f as usize].block;
                    self.meta[f as usize] = FrameMeta {
                        block: NO_BLOCK,
                        dirty: false,
                        referenced: false,
                        prefetched: false,
                    };
                    assert(self@.data =~= old(self)@.data);
                    Some((f, outgoing))
                },
                None => None,
            },
        }
    }

    /// Bind a frame to a block. The frame's contents are whatever the caller
    /// put there; `dirty` says whether they differ from the backing store.
    pub fn assign(&mut self, frame: u32, block: u64, dirty: bool)
        requires
            old(self).wf(),
            old(self)@.has(frame),
        ensures
            final(self).wf(),
            final(self)@ == old(self)@.with_meta(
                frame,
                FrameMeta { block, dirty, referenced: true, prefetched: false },
            ),
    {
        self.meta[frame as usize] = FrameMeta { block, dirty, referenced: true, prefetched: false };
        assert(self@.data =~= old(self)@.data);
    }

    /// Bind a frame to a block nobody asked for yet. It is clean, and a
    /// guess has earned no reference bit.
    pub fn assign_prefetched(&mut self, frame: u32, block: u64)
        requires
            old(self).wf(),
            old(self)@.has(frame),
        ensures
            final(self).wf(),
            final(self)@ == old(self)@.with_meta(
                frame,
                FrameMeta { block, dirty: false, referenced: false, prefetched: true },
            ),
    {
        self.meta[frame as usize] = FrameMeta {
            block,
            dirty: false,
            referenced: false,
            prefetched: true,
        };
        assert(self@.data =~= old(self)@.data);
    }

    /// Someone asked for the frame's block: was it a guess until now?
    pub fn claim_prefetch(&mut self, frame: u32) -> (was: bool)
        requires
            old(self).wf(),
            old(self)@.has(frame),
        ensures
            final(self).wf(),
            was == old(self)@.meta[frame as int].prefetched,
            final(self)@ == old(self)@.with_meta(
                frame,
                FrameMeta { prefetched: false, ..old(self)@.meta[frame as int] },
            ),
    {
        let m = self.meta[frame as usize];
        self.meta[frame as usize] = FrameMeta { prefetched: false, ..m };
        assert(self@.data =~= old(self)@.data);
        m.prefetched
    }

    /// Unbind a frame and return it to the free list. Contents are left in
    /// place (they are garbage from the pool's point of view). Releasing a
    /// dirty frame would lose data.
    pub fn release(&mut self, frame: u32)
        requires
            old(self).wf(),
            old(self)@.has(frame),
            !old(self)@.meta[frame as int].dirty,
        ensures
            final(self).wf(),
            final(self)@ == old(self)@.released(frame),
    {
        self.meta[frame as usize] = FrameMeta {
            block: NO_BLOCK,
            dirty: false,
            referenced: false,
            prefetched: false,
        };
        self.free.push(frame);
        assert(self@.data =~= old(self)@.data);
    }

    /// The bound frames with their bookkeeping, in frame order.
    pub fn resident(&self) -> (r: Vec<(u32, FrameMeta)>)
        requires
            self.wf(),
        ensures
            r@ == bound_frames(self@.meta),
    {
        let mut r: Vec<(u32, FrameMeta)> = Vec::new();
        let mut i: usize = 0;
        while i < self.meta.len()
            invariant
                self.wf(),
                i <= self.meta@.len(),
                r@ == bound_frames(self.meta@.take(i as int)),
            decreases self.meta@.len() - i,
        {
            assert(self.meta@.take(i + 1).drop_last() =~= self.meta@.take(i as int));
            let m = self.meta[i];
            if m.block != NO_BLOCK {
                r.push((i as u32, m));
            }
            i = i + 1;
        }
        assert(self.meta@.take(i as int) =~= self.meta@);
        r
    }

    /// Overwrite every *free* frame with a byte pattern and say how many
    /// there were. Frames that hold a block are untouched, so a correct read
    /// afterwards came from the backing store, not from stale frame memory.
    pub fn scribble_free(&mut self, byte: u8) -> (n: usize)
        requires
            old(self).wf(),
        ensures
            final(self).wf(),
            n == old(self)@.free.len(),
            final(self)@ == (PoolState { data: final(self)@.data, ..old(self)@ }),
            forall|f: u32| #![trigger final(self)@.data[f as int]]
                old(self)@.has(f) ==> final(self)@.data[f as int] == (if old(self)@.is_free(f) {
                    repeated(byte, old(self)@.block_size)
                } else {
                    old(self)@.data[f as int]
                }),
    {
        let n: usize = self.free.len();
        let mut i: usize = 0;
        while i < n
            invariant
                self.wf(),
                n == old(self)@.free.len(),
                i <= n,
                self@ == (PoolState { data: self@.data, ..old(self)@ }),
                forall|f: u32| #![trigger self@.data[f as int]]
                    old(self)@.has(f) ==> self@.data[f as int] == (if old(self)@.free.take(
                        i as int,
                    ).contains(f) {
                        repeated(byte, old(self)@.block_size)
                    } else {
                        old(self)@.data[f as int]
                    }),
            decreases n - i,
        {
            let f: u32 = self.free[i];
            assert(f == old(self)@.free[i as int]);
            let ghost prev = self@;
            fill(self.data_mut(f), byte);
            proof {
                let was = old(self)@.free.take(i as int);
                let now = old(self)@.free.take(i + 1);
                assert(now =~= was.push(f));
                assert forall|g: u32| now.contains(g) <==> (was.contains(g) || g == f) by {
                    if was.contains(g) {
                        let j = choose|j: int| 0 <= j < was.len() && was[j] == g;
                        assert(now[j] == g);
                    }
                    assert(now[i as int] == f);
                }
            }
            i = i + 1;
        }
        assert(old(self)@.free.take(n as int) =~= old(self)@.free);
        n
    }
}

// ---- histories ----------------------------------------------------------

/// What was done to a pool.
pub enum PoolStep {
    /// A free frame was handed out.
    Take,
    /// A frame that was handed out got other bookkeeping: it was bound,
    /// touched, claimed, or marked dirty or clean.
    Mark { f: u32, m: FrameMeta },
    /// A frame that was handed out got other contents.
    Fill { f: u32, bytes: Seq<u8> },
    /// CLOCK took a frame.
    Sweep { v: int, clean_only: bool },
    /// A frame that was handed out was put back.
    Release { f: u32 },
}

/// A pool, and the frames that were handed out and not put back.
#[verifier::ext_equal]
pub struct Loans {
    pub pool: PoolState,
    pub taken: Set<u32>,
}

impl Loans {
    /// What a step does.
    pub open spec fn step(self, op: PoolStep, after: Self) -> bool {
        match op {
            PoolStep::Take => {
                &&& self.pool.free.len() > 0
                &&& after.pool == self.pool.popped()
                &&& after.taken == self.taken.insert(self.pool.free.last())
            },
            PoolStep::Mark { f, m } => {
                &&& self.taken.contains(f)
                &&& after == (Loans { pool: self.pool.with_meta(f, m), ..self })
            },
            PoolStep::Fill { f, bytes } => {
                &&& self.taken.contains(f)
                &&& after == (Loans { pool: self.pool.with_data(f, bytes), ..self })
            },
            PoolStep::Sweep { v, clean_only } => {
                &&& self.pool.clock_takes(v, clean_only)
                &&& after == (Loans { pool: self.pool.swept(v, clean_only), ..self })
            },
            PoolStep::Release { f } => {
                &&& self.taken.contains(f)
                &&& after.pool == self.pool.released(f)
                &&& after.taken == self.taken.remove(f)
            },
        }
    }

    /// A new pool, nothing handed out.
    pub open spec fn fresh(self) -> bool {
        let n = self.pool.meta.len();
        &&& n <= u32::MAX
        &&& self.pool.meta == Seq::new(n, |f: int| FrameMeta::unbound())
        &&& self.pool.free == Seq::new(n, |i: int| (n - 1 - i) as u32)
        &&& self.taken == Set::<u32>::empty()
    }

    /// Every frame is handed out or on the free list, not both; one that is
    /// not handed out holds no block.
    pub open spec fn settled(self) -> bool {
        &&& self.taken.finite()
        &&& self.pool.free.no_duplicates()
        &&& self.taken.len() + self.pool.free.len() == self.pool.meta.len()
        &&& self.pool.meta.len() <= u32::MAX
        &&& forall|f: u32| #[trigger] self.taken.contains(f) ==> f < self.pool.meta.len()
        &&& forall|i: int|
            0 <= i < self.pool.free.len() ==> (#[trigger] self.pool.free[i])
                < self.pool.meta.len() && !self.taken.contains(self.pool.free[i])
        &&& forall|f: int|
            0 <= f < self.pool.meta.len() && (#[trigger] self.pool.meta[f]).bound()
                ==> self.taken.contains(f as u32)
    }
}

/// A step keeps the account straight.
proof fn lemma_settled(a: Loans, op: PoolStep, b: Loans)
    requires
        a.settled(),
        a.step(op, b),
    ensures
        b.settled(),
        b.pool.meta.len() == a.pool.meta.len(),
{
    match op {
        PoolStep::Take => {
            let f = a.pool.free.last();
            assert(a.pool.free[a.pool.free.len() - 1] == f);
            assert(!a.taken.contains(f));
            assert forall|i: int| 0 <= i < b.pool.free.len() implies (#[trigger] b.pool.free[i])
                < b.pool.meta.len() && !b.taken.contains(b.pool.free[i]) by {
                assert(b.pool.free[i] == a.pool.free[i]);
            }
        },
        PoolStep::Sweep { v, clean_only } => {
            assert forall|f: int| 0 <= f < b.pool.meta.len() && (
            #[trigger] b.pool.meta[f]).bound() implies b.taken.contains(f as u32) by {
                assert(a.pool.meta[f].bound());
            }
        },
        PoolStep::Release { f } => {
            assert(a.taken.contains(f));
            assert forall|g: int| 0 <= g < b.pool.meta.len() && (
            #[trigger] b.pool.meta[g]).bound() implies b.taken.contains(g as u32) by {
                assert(g != f);
                assert(a.pool.meta[g].bound());
            }
        },
        _ => {},
    }
}

/// If exactly the frames that were handed out hold a block, there are as many
/// of those.
proof fn lemma_bound_are_taken(meta: Seq<FrameMeta>, taken: Set<u32>)
    requires
        meta.len() <= u32::MAX,
        taken.finite(),
        forall|f: u32| #[trigger] taken.contains(f) ==> f < meta.len() && meta[f as int].bound(),
        forall|f: int|
            0 <= f < meta.len() && (#[trigger] meta[f]).bound() ==> taken.contains(f as u32),
    ensures
        bound_frames(meta).len() == taken.len(),
    decreases meta.len(),
{
    if meta.len() == 0 {
        assert(taken =~= Set::empty());
    } else {
        let less = meta.drop_last();
        let last = (meta.len() - 1) as u32;
        let rest = taken.remove(last);
        assert forall|f: u32| #[trigger] rest.contains(f) implies f < less.len()
            && less[f as int].bound() by {
            assert(taken.contains(f));
        }
        assert forall|f: int| 0 <= f < less.len() && (#[trigger] less[f]).bound() implies rest.contains(
            f as u32,
        ) by {
            assert(meta[f].bound());
        }
        lemma_bound_are_taken(less, rest);
        assert(meta.last() == meta[last as int]);
        assert(taken.contains(last) == meta.last().bound());
    }
}

/// After any history of a pool, as many frames are resident as were handed
/// out and not put back, and never more than there are; and if each of them
/// was bound to a block, these are the frames the pool lists as resident.
pub proof fn law_resident_frames_are_those_taken(h: Seq<Loans>, ops: Seq<PoolStep>)
    requires
        h.len() == ops.len() + 1,
        h[0].fresh(),
        forall|i: int| 0 <= i < ops.len() ==> h[i].step(#[trigger] ops[i], h[i + 1]),
    ensures
        h.last().settled(),
        h.last().pool.meta.len() == h[0].pool.meta.len(),
        h.last().pool.count() - h.last().pool.free.len() == h.last().taken.len(),
        h.last().taken.len() <= h.last().pool.count(),
        (forall|f: u32| #[trigger]
            h.last().taken.contains(f) ==> h.last().pool.meta[f as int].bound()) ==> bound_frames(
            h.last().pool.meta,
        ).len() == h.last().taken.len(),
    decreases ops.len(),
{
    let last = h.last();
    if ops.len() == 0 {
        assert(last.settled());
    } else {
        let n = ops.len() - 1;
        let h1 = h.drop_last();
        let ops1 = ops.drop_last();
        assert forall|i: int| 0 <= i < ops1.len() implies h1[i].step(
            #[trigger] ops1[i],
            h1[i + 1],
        ) by {
            assert(ops1[i] == ops[i]);
        }
        law_resident_frames_are_those_taken(h1, ops1);
        assert(h[n].step(ops[n], h[n + 1]));
        lemma_settled(h[n], ops[n], last);
    }
    if forall|f: u32| #[trigger] last.taken.contains(f) ==> last.pool.meta[f as int].bound() {
        lemma_bound_are_taken(last.pool.meta, last.taken);
    }
}

// ---- what the policy amounts to -----------------------------------------

/// The frame holds a block, and a clean one if only clean ones will do.
pub open spec fn on_offer(m: FrameMeta, clean_only: bool) -> bool {
    m.block != NO_BLOCK && (m.dirty ==> !clean_only)
}

/// Steps from the hand to frame `f`, going up and round.
pub open spec fn steps_to(s: PoolState, f: int) -> int {
    (f - s.hand) % (s.meta.len() as int)
}

proof fn lemma_steps_to(s: PoolState, f: int)
    requires
        s.wf(),
        0 <= f < s.meta.len(),
    ensures
        steps_to(s, f) == s.distance(f),
{
    let n = s.meta.len() as int;
    if f >= s.hand {
        vstd::arithmetic::div_mod::lemma_small_mod((f - s.hand) as nat, n as nat);
    } else {
        vstd::arithmetic::div_mod::lemma_mod_add_multiples_vanish(f - s.hand, n);
        vstd::arithmetic::div_mod::lemma_small_mod((f - s.hand + n) as nat, n as nat);
    }
}

/// The second chance. The frame that is taken is on offer. It was not accessed
/// since the hand last passed it, unless that is so of no frame on offer; and
/// among those that were not accessed, or among all if all were, it is the one
/// that the hand meets first.
pub proof fn law_second_chance(s: PoolState, v: int, clean_only: bool, f: int)
    requires
        s.wf(),
        s.clock_takes(v, clean_only),
        0 <= f < s.meta.len(),
        on_offer(s.meta[f], clean_only),
    ensures
        0 <= v < s.meta.len(),
        on_offer(s.meta[v], clean_only),
        s.meta[v].referenced ==> s.meta[f].referenced,
        !s.meta[f].referenced || s.meta[v].referenced ==> steps_to(s, v) <= steps_to(s, f),
{
    lemma_steps_to(s, v);
    lemma_steps_to(s, f);
    assert(s.distance(f) < s.meta.len());
    assert(s.meta[f].eligible(clean_only));
}

/// What the hand does on its way: the frames on offer that it passed before it
/// took one lose their reference bit, all of them if it went all the way
/// round; nothing else changes, and the hand stops behind the frame it took.
pub proof fn law_the_hand_only_ages_what_it_passes(s: PoolState, v: int, clean_only: bool, f: int)
    requires
        s.wf(),
        s.clock_takes(v, clean_only),
        0 <= f < s.meta.len(),
    ensures
        ({
            let t = s.swept(v, clean_only);
            &&& t.hand == (v + 1) % (s.meta.len() as int)
            &&& t.data == s.data
            &&& t.free == s.free
            &&& t.block_size == s.block_size
            &&& t.meta.len() == s.meta.len()
            &&& t.meta[f].block == s.meta[f].block
            &&& t.meta[f].dirty == s.meta[f].dirty
            &&& t.meta[f].prefetched == s.meta[f].prefetched
            &&& t.meta[f].referenced <==> s.meta[f].referenced && !(on_offer(
                s.meta[f],
                clean_only,
            ) && (s.meta[v].referenced || steps_to(s, f) < steps_to(s, v)))
        }),
{
    lemma_steps_to(s, v);
    lemma_steps_to(s, f);
    let n = s.meta.len();
    if v + 1 < n {
        vstd::arithmetic::div_mod::lemma_small_mod((v + 1) as nat, n);
    } else {
        vstd::arithmetic::div_mod::lemma_mod_self_0(n as int);
    }
    assert(s.meta[f].eligible(clean_only) <==> on_offer(s.meta[f], clean_only));
    assert(s.ripe(v, clean_only) <==> !s.meta[v].referenced);
}

/// There is only one frame that can be taken.
pub proof fn law_the_hand_has_no_choice(s: PoolState, v: int, w: int, clean_only: bool)
    requires
        s.wf(),
        s.clock_takes(v, clean_only),
        s.clock_takes(w, clean_only),
    ensures
        v == w,
{
    law_second_chance(s, v, clean_only, w);
    law_second_chance(s, w, clean_only, v);
    lemma_steps_to(s, v);
    lemma_steps_to(s, w);
}

/// The list of resident frames has exactly the frames that hold a block, each
/// once, in frame order, with their bookkeeping.
pub proof fn law_the_resident_list_is_exact(meta: Seq<FrameMeta>)
    requires
        meta.len() <= u32::MAX,
    ensures
        ({
            let r = bound_frames(meta);
            &&& forall|i: int|
                0 <= i < r.len() ==> (#[trigger] r[i]).0 < meta.len() && r[i].1
                    == meta[r[i].0 as int] && meta[r[i].0 as int].block != NO_BLOCK
            &&& forall|i: int, j: int|
                0 <= i < j < r.len() ==> (#[trigger] r[i]).0 < (#[trigger] r[j]).0
            &&& forall|f: int|
                0 <= f < meta.len() && (#[trigger] meta[f]).block != NO_BLOCK ==> r.contains(
                    (f as u32, meta[f]),
                )
        }),
    decreases meta.len(),
{
    if meta.len() > 0 {
        let less = meta.drop_last();
        law_the_resident_list_is_exact(less);
        let q = bound_frames(less);
        let r = bound_frames(meta);
        assert forall|i: int| 0 <= i < r.len() implies (#[trigger] r[i]).0 < meta.len() && r[i].1
            == meta[r[i].0 as int] && meta[r[i].0 as int].block != NO_BLOCK by {
            if i < q.len() {
                assert(r[i] == q[i]);
                assert(less[q[i].0 as int] == meta[q[i].0 as int]);
            }
        }
        assert forall|i: int, j: int| 0 <= i < j < r.len() implies (#[trigger] r[i]).0 < (
        #[trigger] r[j]).0 by {
            assert(r[i] == q[i]);
            if j < q.len() {
                assert(r[j] == q[j]);
            }
        }
        assert forall|f: int| 0 <= f < meta.len() && (#[trigger] meta[f]).block
            != NO_BLOCK implies r.contains((f as u32, meta[f])) by {
            if f < less.len() {
                assert(less[f] == meta[f]);
                let i = choose|i: int| 0 <= i < q.len() && q[i] == (f as u32, less[f]);
                assert(r[i] == q[i]);
            } else {
                assert(r[r.len() - 1] == (f as u32, meta[f]));
            }
        }
    }
}

/// The dirty frames.
pub open spec fn dirty_set(meta: Seq<FrameMeta>) -> Set<int> {
    Set::new(|f: int| 0 <= f < meta.len() && meta[f].dirty)
}

/// The count of dirty frames is how many there are.
pub proof fn law_the_dirty_count_is_exact(meta: Seq<FrameMeta>)
    ensures
        dirty_set(meta).finite(),
        dirty_frames(meta) == dirty_set(meta).len(),
    decreases meta.len(),
{
    let d = dirty_set(meta);
    if meta.len() == 0 {
        assert(d =~= Set::empty());
    } else {
        let less = meta.drop_last();
        let k = meta.len() - 1;
        law_the_dirty_count_is_exact(less);
        if meta.last().dirty {
            assert(d =~= dirty_set(less).insert(k));
            assert(!dirty_set(less).contains(k));
        } else {
            assert(d =~= dirty_set(less));
        }
    }
}

/// What is put back last is handed out first, and handing it out undoes
/// putting it back; a frame that was put back holds nothing.
pub proof fn law_free_frames_are_stacked(s: PoolState, f: u32)
    requires
        s.wf(),
        s.has(f),
    ensures
        s.released(f).free.last() == f,
        s.released(f).popped().free == s.free,
        s.released(f).data == s.data,
        s.released(f).hand == s.hand,
        s.released(f).meta[f as int].block == NO_BLOCK,
        !s.released(f).meta[f as int].dirty,
        !s.released(f).meta[f as int].referenced,
        !s.released(f).meta[f as int].prefetched,
        forall|g: int|
            0 <= g < s.meta.len() && g != f ==> #[trigger] s.released(f).meta[g] == s.meta[g],
{
    assert(s.released(f).popped().free =~= s.free);
}

} // verus!
