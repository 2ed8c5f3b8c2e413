//! The arena: a logical address space larger than RAM, served from a
//! bounded frame pool with explicit residency.
//!
//! What the arena owns (and a file mapping would not give):
//! - the block map: logical block → resident frame or none
//! - the residency decision on every miss (free frame, else CLOCK victim)
//! - dirty tracking and writeback timing
//! - a checksum per block, verified on every promotion from disk
//! - the counters that describe all of the above
//!
//! What stays with the kernel: physical backing of the frames themselves.
//! See [`crate::footprint`] for how that is measured rather than assumed.
//!
//! The arena does no I/O itself. An operation that needs the pool file
//! returns [`Step::Io`] with what to do; the driver does it and resumes the
//! operation with the reply, until it is ready or has failed. One operation
//! is under way at a time.

#[allow(unused_imports)]
use crate::aligned::IO_ALIGN;
use crate::bytes::{copy_into, fill, window_mut};
#[allow(unused_imports)]
use crate::bytes::{overlay, repeated};
use crate::checksum::{block_checksum, UNWRITTEN};
#[allow(unused_imports)]
use crate::checksum::checksum_of;
use crate::error::LoomError;
use crate::frames::{FrameMeta, FramePool, NO_BLOCK};
#[allow(unused_imports)]
use crate::frames::{dirty_frames, PoolState};
use crate::io::{Action, Reply, Step};
#[allow(unused_imports)]
use crate::io::is_write;
use crate::state::{NO_FRAME, SEQ_RUN_THRESHOLD};
#[allow(unused_imports)]
use crate::state::{claimed_frames, in_claim, placed, ArenaState, Job, Wait};
use crate::stats::{bump, Stats};
#[allow(unused_imports)]
use crate::stats::{bumped, capped, Counters};
#[allow(unused_imports)]
use crate::steps::{
    alike, alike_but, bound_count, keeps, keeps_given, law_resident_count, lemma_alike_both,
    lemma_all_cold, lemma_block_of, lemma_bound, lemma_bound_true, lemma_bumped_twice,
    lemma_dropped, lemma_evicted, lemma_flushed, lemma_keeps_both, lemma_keeps_given_both,
    lemma_keeps_weaken, lemma_popped, lemma_released, lemma_rewritten, lemma_run,
    lemma_same_cells, lemma_same_holdings, lemma_scratched, lemma_skip_holds, lemma_split,
    lemma_swept, lemma_touched, patched, patched_but, same_cells_but, same_ground, shows,
    within, without,
};
use crate::superblock::{
    encode_regions, round_up, Superblock, CHECKSUM_TABLE_OFF, MAX_REGIONS, REGION_TABLE_LEN,
    REGION_TABLE_OFF,
};
#[allow(unused_imports)]
use crate::superblock::{
    law_regions_roundtrip, law_superblock_roundtrip, lemma_block_range, lemma_geometry,
    lemma_header_len, lemma_rounded_up, lemma_rounded_up_above, lemma_rounded_up_below, region_table, rounded_up,
    superblock_bytes,
};
#[allow(unused_imports)]
use crate::ledger::{at_stake, law_regions_are_packed};
use crate::words::words_to_buf;
#[allow(unused_imports)]
use crate::words::bytes_of;
use std::time::Instant;
use vstd::prelude::*;
use vstd::string::*;

verus! {

/// A range of the arena, as handed out by [`Loom::allocate`].
#[derive(Debug, Clone, Copy, PartialEq, Eq, Structural)]
pub struct Region {
    /// Its place in the region table.
    pub id: u32,
    /// Arena byte offset (block-aligned).
    pub offset: u64,
    /// Usable length as requested.
    pub len: u64,
}

/// How a pool is made.
#[derive(Debug, Clone)]
pub struct CreateOptions {
    /// Logical capacity in bytes.
    pub capacity: u64,
    /// Bytes per block.
    pub block_size: u32,
    /// Default hot budget recorded in the pool; `open` may override.
    pub budget: u64,
}

/// How a pool is opened.
#[derive(Debug, Clone)]
pub struct OpenOptions {
    /// Override the pool's recorded default budget.
    pub budget: Option<u64>,
    /// Blocks to read per speculative batch once a sequential run is
    /// detected. `None` uses [`DEFAULT_PREFETCH_DEPTH`]; `Some(0)` disables
    /// prefetch entirely (useful for measuring what it is worth).
    pub prefetch_depth: Option<usize>,
}

impl Default for OpenOptions {
    fn default() -> (o: Self)
        ensures
            o.budget is None,
            o.prefetch_depth is None,
    {
        OpenOptions { budget: None, prefetch_depth: None }
    }
}

/// Blocks per speculative batch. At 64 KiB blocks that is one 1 MiB read
/// instead of sixteen 64 KiB reads — the point is amortising the device
/// round-trip, which dominates everything on a seek-bound device.
pub const DEFAULT_PREFETCH_DEPTH: usize = 16;

/// Static facts about an open arena — the numbers it can state as
/// allocations, not as hopes.
#[derive(Debug, Clone)]
pub struct Info {
    pub path: String,
    pub capacity: u64,
    pub block_size: u32,
    pub nblocks: u64,
    pub budget: u64,
    pub frame_count: usize,
    /// Bytes of frame memory actually allocated (== frame_count * block_size).
    pub hot_bytes_allocated: u64,
    /// Block map + checksum table + region table, in RAM.
    pub metadata_bytes: u64,
    pub regions: usize,
    pub allocated_arena_bytes: u64,
    pub cache_mode: &'static str,
    /// Bytes the backing file currently occupies on disk.
    pub disk_allocated: u64,
}

/// Bytes of one block, found in a frame.
#[derive(Debug, Clone, Copy, PartialEq, Eq, Structural)]
pub struct Located {
    /// The frame.
    pub frame: u32,
    /// Where in the frame they start.
    pub at: usize,
    /// How many there are.
    pub len: usize,
}

/// What the arena waits for, with the clock readings that time it.
enum Pending {
    Nothing,
    Batch { block: u64, count: u64, claimed: Vec<(u64, u32)>, t: Instant },
    Victim { block: u64, full: bool, victim: u32, t: Instant, w: Instant },
    Load { block: u64, frame: u32, t: Instant },
    Flush { frame: u32, w: Instant },
    Table { stage: u32 },
    Barrier,
}

impl Pending {
    spec fn wait(self) -> Wait {
        match self {
            Pending::Nothing => Wait::Nothing,
            Pending::Batch { block, count, claimed, t } => Wait::Batch {
                block,
                count,
                claimed: claimed@,
            },
            Pending::Victim { block, full, victim, t, w } => Wait::Victim { block, full, victim },
            Pending::Load { block, frame, t } => Wait::Load { block, frame },
            Pending::Flush { frame, w } => Wait::Flush { frame },
            Pending::Table { stage } => Wait::Table { stage: stage as int },
            Pending::Barrier => Wait::Barrier,
        }
    }
}

/// The operation under way.
#[derive(Clone, Copy)]
enum Task {
    Idle,
    Read { start: u64, len: usize, done: usize },
    Write { start: u64, len: usize, done: usize },
    Find { start: u64, len: usize },
    Sync,
    Evict,
}

impl Task {
    spec fn job(self) -> Job {
        match self {
            Task::Idle => Job::Idle,
            Task::Read { start, len, done } => Job::Read {
                start,
                len: len as int,
                done: done as int,
            },
            Task::Write { start, len, done } => Job::Write {
                start,
                len: len as int,
                done: done as int,
            },
            Task::Find { start, len } => Job::Find { start, len: len as int },
            Task::Sync => Job::Sync,
            Task::Evict => Job::Evict,
        }
    }
}

/// An open arena.
pub struct Loom {
    sb: Superblock,
    regions: Vec<(u64, u64)>,
    checksums: Vec<u64>,
    map: Vec<u32>,
    frames: FramePool,
    budget: u64,
    stats: Stats,
    dirty_meta: bool,
    prefetch_depth: usize,
    last_miss: Option<u64>,
    seq_run: u32,
    pending: Pending,
    task: Task,
}

impl View for Loom {
    type V = ArenaState;

    closed spec fn view(&self) -> ArenaState {
        ArenaState {
            sb: self.sb,
            regions: self.regions@,
            checksums: self.checksums@,
            map: self.map@,
            frames: self.frames@,
            budget: self.budget,
            stats: self.stats@,
            dirty_meta: self.dirty_meta,
            prefetch_depth: self.prefetch_depth as nat,
            last_miss: self.last_miss,
            seq_run: self.seq_run,
            wait: self.pending.wait(),
            job: self.task.job(),
        }
    }
}

impl Loom {
    /// The frame pool's buffer has its size.
    pub closed spec fn sized(&self) -> bool {
        self.frames.sized()
    }

    /// Validity of an arena. Opening establishes it, every operation keeps
    /// it.
    pub open spec fn wf(&self) -> bool {
        &&& self.sized()
        &&& self@.wf()
    }

    // ---- geometry -------------------------------------------------------

    /// Bytes per block.
    pub fn block_size(&self) -> (n: u32)
        ensures
            n == self@.sb.block_size,
    {
        self.sb.block_size
    }

    /// Logical capacity in bytes.
    pub fn capacity(&self) -> (n: u64)
        ensures
            n == self@.sb.capacity,
    {
        self.sb.capacity
    }

    /// The hot budget in bytes.
    pub fn budget(&self) -> (n: u64)
        ensures
            n == self@.budget,
    {
        self.budget
    }

    /// Frames in the pool.
    pub fn frame_count(&self) -> (n: usize)
        ensures
            n == self@.frames.count(),
    {
        self.frames.frame_count()
    }

    /// What the arena did since it was opened.
    pub fn stats(&self) -> (s: &Stats)
        ensures
            s@ == self@.stats,
    {
        &self.stats
    }

    /// The regions, in the order they were allocated.
    pub fn regions(&self) -> (r: Vec<Region>)
        requires
            self.wf(),
        ensures
            r@ == Seq::new(
                self@.regions.len(),
                |i: int|
                    Region {
                        id: i as u32,
                        offset: self@.regions[i].0,
                        len: self@.regions[i].1,
                    },
            ),
    {
        let mut r: Vec<Region> = Vec::new();
        let n: usize = self.regions.len();
        let mut i: usize = 0;
        while i < n
            invariant
                n == self.regions@.len(),
                n <= MAX_REGIONS,
                i <= n,
                r@ == Seq::new(
                    i as nat,
                    |k: int|
                        Region {
                            id: k as u32,
                            offset: self.regions@[k].0,
                            len: self.regions@[k].1,
                        },
                ),
            decreases n - i,
        {
            let (offset, len) = self.regions[i];
            r.push(Region { id: i as u32, offset, len });
            i = i + 1;
            assert(r@ =~= Seq::new(
                i as nat,
                |k: int|
                    Region { id: k as u32, offset: self.regions@[k].0, len: self.regions@[k].1 },
            ));
        }
        r
    }

    /// Bytes of RAM the arena's bookkeeping takes: four per block for the
    /// map, the checksum table, the region table, the frame table, and the
    /// staging of a speculative read if there is any.
    pub fn metadata_bytes(&self) -> (n: u64)
        requires
            self.wf(),
        ensures
            n == metadata_size(self@),
    {
        let bs: u128 = self.sb.block_size as u128;
        let per_frame: u128 = core::mem::size_of::<FrameMeta>() as u128;
        let frames: u128 = self.frames.frame_count() as u128;
        let depth: u128 = self.prefetch_depth as u128;
        assert(frames * per_frame <= 0xffff_ffff * 0xffff_ffff_ffff_ffff) by (nonlinear_arith)
            requires
                frames <= 0xffff_ffff,
                per_frame <= 0xffff_ffff_ffff_ffff,
        ;
        assert(depth * bs <= 0xffff_ffff * 0xffff_ffff) by (nonlinear_arith)
            requires
                depth <= 0xffff_ffff,
                bs <= 0xffff_ffff,
        ;
        let staging: u128 = if self.prefetch_depth > 1 {
            depth * bs
        } else {
            0
        };
        let sum: u128 = self.map.len() as u128 * 4 + self.sb.checksum_table_len as u128
            + REGION_TABLE_LEN as u128 + frames * per_frame + staging;
        if sum > u64::MAX as u128 {
            u64::MAX
        } else {
            sum as u64
        }
    }

    /// Blocks per speculative read.
    pub fn prefetch_depth(&self) -> (n: usize)
        ensures
            n == self@.prefetch_depth,
    {
        self.prefetch_depth
    }

    /// The static facts, with what the driver knows of the backing file.
    pub fn info(&self, path: String, cache_mode: &'static str, disk_allocated: u64) -> (i: Info)
        requires
            self.wf(),
        ensures
            i.path@ == path@,
            i.capacity == self@.sb.capacity,
            i.block_size == self@.sb.block_size,
            i.nblocks == self@.sb.nblocks,
            i.budget == self@.budget,
            i.frame_count == self@.frames.count(),
            i.hot_bytes_allocated == self@.frames.count() * self@.sb.block_size,
            i.hot_bytes_allocated <= self@.budget,
            i.metadata_bytes == metadata_size(self@),
            i.regions == self@.regions.len(),
            i.allocated_arena_bytes == next_free(self@),
            i.cache_mode == cache_mode,
            i.disk_allocated == disk_allocated,
    {
        Info {
            path,
            capacity: self.sb.capacity,
            block_size: self.sb.block_size,
            nblocks: self.sb.nblocks,
            budget: self.budget,
            frame_count: self.frames.frame_count(),
            hot_bytes_allocated: self.frames.bytes() as u64,
            metadata_bytes: self.metadata_bytes(),
            regions: self.regions.len(),
            allocated_arena_bytes: self.next_free_offset(),
            cache_mode,
            disk_allocated,
        }
    }

    /// Blocks in RAM.
    pub fn resident_blocks(&self) -> (n: usize)
        requires
            self.wf(),
            self@.idle(),
        ensures
            n == bound_count(self@.frames.meta),
    {
        proof {
            law_resident_count(self@);
        }
        self.frames.resident_count()
    }

    /// Blocks whose only copy is in RAM.
    pub fn dirty_blocks(&self) -> (n: usize)
        ensures
            n == dirty_frames(self@.frames.meta),
    {
        self.frames.dirty_count()
    }

    /// Would anything be lost if the arena went away now? A driver that drops
    /// an arena syncs it first where this is so.
    pub fn unsynced(&self) -> (b: bool)
        ensures
            b == at_stake(self@),
    {
        self.frames.dirty_count() > 0 || self.dirty_meta
    }

    /// Byte offset in the backing file of a logical block. Exposed so a
    /// proof can tamper with exactly one block on disk and check detection.
    pub fn backing_offset_of_block(&self, block: u64) -> (n: u64)
        requires
            self@.sb.block_start(block as int) <= u64::MAX,
        ensures
            n == self@.sb.block_start(block as int),
    {
        self.sb.block_off(block)
    }

    /// The block a region offset falls into.
    pub fn block_of_region_offset(&self, r: Region, off: u64) -> (b: u64)
        requires
            self.wf(),
            r.offset + off <= u64::MAX,
        ensures
            b == (r.offset + off) / self@.bs(),
    {
        (r.offset + off) / self.sb.block_size as u64
    }

    // ---- regions --------------------------------------------------------

    /// Where the next region would start.
    fn next_free_offset(&self) -> (n: u64)
        requires
            self.wf(),
        ensures
            n == next_free(self@),
            n <= self@.sb.capacity,
    {
        let n: usize = self.regions.len();
        if n == 0 {
            return 0;
        }
        let (o, l) = self.regions[n - 1];
        assert(self.regions@[n - 1].0 + self.regions@[n - 1].1 <= self.sb.capacity);
        proof {
            lemma_rounded_up_below(o + l, self.sb.capacity as int, self.sb.block_size as int);
        }
        round_up(o + l, self.sb.block_size as u64)
    }

    /// Allocate a region of `len` bytes, block-aligned, from the arena.
    /// Regions are never freed; the region table persists on `sync`.
    pub fn allocate(&mut self, len: u64) -> (r: Result<Region, LoomError>)
        requires
            old(self).wf(),
            old(self)@.idle(),
        ensures
            final(self).wf(),
            match r {
                Ok(region) => {
                    &&& len > 0
                    &&& old(self)@.regions.len() < MAX_REGIONS
                    &&& next_free(old(self)@) + rounded_up(len as int, old(self)@.bs())
                        <= old(self)@.sb.capacity
                    &&& region.id == old(self)@.regions.len()
                    &&& region.offset == next_free(old(self)@)
                    &&& region.len == len
                    &&& final(self)@ == (ArenaState {
                        regions: old(self)@.regions.push((region.offset, len)),
                        dirty_meta: true,
                        ..old(self)@
                    })
                },
                Err(e) => {
                    &&& final(self)@ == old(self)@
                    &&& alloc_refused(old(self)@, len, e)
                },
            },
            len > 0 && old(self)@.regions.len() < MAX_REGIONS && next_free(old(self)@) + rounded_up(
                len as int,
                old(self)@.bs(),
            ) <= old(self)@.sb.capacity ==> r is Ok,
            r is Ok <==> len > 0 && old(self)@.regions.len() < MAX_REGIONS && next_free(old(self)@)
                + len <= old(self)@.sb.capacity,
    {
        proof {
            if len > 0 {
                law_regions_are_packed(self@, len);
            }
        }
        if len == 0 {
            return Err(LoomError::Invalid(String::from_str("alloc of zero bytes")));
        }
        if self.regions.len() >= MAX_REGIONS {
            return Err(LoomError::RegionTableFull { max: MAX_REGIONS });
        }
        let start: u64 = self.next_free_offset();
        let bs: u64 = self.sb.block_size as u64;
        proof {
            lemma_rounded_up(len as int, bs as int);
            vstd::arithmetic::div_mod::lemma_fundamental_div_mod(u64::MAX as int, bs as int);
            vstd::arithmetic::mul::lemma_mul_is_commutative(u64::MAX as int / bs as int, bs as int);
        }
        let most: u64 = u64::MAX / bs * bs;
        if len > most {
            proof {
                lemma_rounded_up_above(len as int, u64::MAX as int, bs as int);
            }
            return Err(LoomError::Invalid(String::from_str("region length overflow")));
        }
        proof {
            vstd::arithmetic::div_mod::lemma_mod_multiples_basic(u64::MAX as int / bs as int, bs as int);
            lemma_rounded_up_below(len as int, most as int, bs as int);
        }
        let whole: u64 = round_up(len, bs);
        if whole > u64::MAX - start {
            return Err(LoomError::Invalid(String::from_str("region length overflow")));
        }
        let end: u64 = start + whole;
        if end > self.sb.capacity {
            return Err(
                LoomError::Capacity { requested: len, available: self.sb.capacity - start },
            );
        }
        proof {
            lemma_rounded_up(len as int, self.sb.block_size as int);
        }
        self.regions.push((start, len));
        self.dirty_meta = true;
        Ok(Region { id: (self.regions.len() - 1) as u32, offset: start, len })
    }

    /// Is `[off, off + len)` inside the region, and the region one of ours?
    fn check_bounds(&self, r: Region, off: u64, len: u64) -> (ok: Result<(), LoomError>)
        ensures
            ok is Ok <==> in_region(self@, r, off as int, len as int),
            ok matches Err(e) ==> e == (LoomError::OutOfBounds {
                region: r.id,
                offset: off,
                len,
                region_len: r.len,
            }),
    {
        if (r.id as usize) < self.regions.len() {
            let (o, l) = self.regions[r.id as usize];
            if o == r.offset && l == r.len && off <= r.len && len <= r.len - off {
                return Ok(());
            }
        }
        Err(LoomError::OutOfBounds { region: r.id, offset: off, len, region_len: r.len })
    }
}

// ---- residency --------------------------------------------------------------

impl Loom {
    /// A lookup that found its block in frame `f`.
    fn serve_hit(&mut self, f: u32, t: &Instant)
        requires
            old(self).sized(),
            old(self)@.steady(),
            old(self)@.wait is Nothing,
            old(self)@.frames.has(f),
        ensures
            final(self).sized(),
            final(self)@.steady(),
            old(self)@.hit(f, final(self)@),
            keeps(old(self)@, final(self)@, -1),
    {
        let ghost pre = self@;
        let ghost m = self@.frames.meta[f as int];
        if self.frames.claim_prefetch(f) {
            self.stats.prefetch_used = bump(self.stats.prefetch_used, 1);
        }
        self.frames.touch(f);
        self.stats.hits = bump(self.stats.hits, 1);
        self.stats.hit_latency.record_since(t);
        proof {
            let touched = pre.frames.with_meta(
                f,
                FrameMeta { prefetched: false, referenced: true, ..m },
            );
            assert(self@.frames =~= touched);
            lemma_touched(pre.frames, f, touched.meta[f as int]);
            lemma_same_holdings(pre, Seq::empty(), touched);
            lemma_same_cells(pre, self@, -1);
            assert(bumped(pre.stats.prefetch_used, 0) == pre.stats.prefetch_used);
        }
    }

    /// Update the sequential-run detector.
    fn note_miss(&mut self, block: u64)
        requires
            old(self)@.last_miss matches Some(p) ==> p < u64::MAX,
        ensures
            final(self)@ == old(self)@.noted(block),
            final(self).sized() == old(self).sized(),
    {
        let follows = match self.last_miss {
            Some(prev) => block == prev + 1,
            None => false,
        };
        if follows {
            self.seq_run = self.seq_run.saturating_add(1);
        } else {
            self.seq_run = 1;
        }
        self.last_miss = Some(block);
    }

    /// Claim frames for a speculative read of `count` blocks from `first`
    /// on. If no frame can be had for a block, fewer are read — a short
    /// batch is still one seek.
    ///
    /// Speculative blocks only take free or clean frames: prefetch must
    /// never turn a read into a writeback. A resident block is never
    /// clobbered — it may be dirty, and the frame is the only copy of those
    /// bytes.
    #[verifier::rlimit(40)]
    fn claim_batch(&mut self, first: u64, count: u64) -> (claimed: Vec<(u64, u32)>)
        requires
            old(self).sized(),
            old(self)@.valid(Seq::empty()),
            old(self)@.wait is Nothing,
            0 < count,
            first + count <= old(self)@.sb.nblocks,
            !old(self)@.resident(first as int),
        ensures
            final(self).sized(),
            claimed@.len() > 0 <==> !old(self)@.exhausted(),
            claimed@.len() == 0 ==> final(self)@ == old(self)@,
            claimed@.len() > 0 ==> {
                &&& final(self)@.valid(claimed_frames(claimed@))
                &&& old(self)@.claimed_for(
                    first as int,
                    count as int,
                    claimed@,
                    final(self)@,
                )
                &&& keeps(old(self)@, final(self)@, -1)
            },
    {
        let ghost pre = self@;
        let mut claimed: Vec<(u64, u32)> = Vec::new();
        let mut more: bool = true;
        let mut i: u64 = 0;
        proof {
            assert(claimed_frames(claimed@) =~= Seq::<u32>::empty());
            assert(bumped(pre.stats.evictions, 0) == pre.stats.evictions);
            lemma_same_cells(pre, pre, -1);
        }
        while i < count && more
            invariant
                pre == old(self)@,
                pre.valid(Seq::empty()),
                pre.wait is Nothing,
                i <= count,
                first + count <= pre.sb.nblocks,
                !pre.resident(first as int),
                self.sized(),
                self@.valid(claimed_frames(claimed@)),
                keeps(pre, self@, -1),
                claimed@.len() <= i,
                self@.frames.free.len() <= pre.frames.free.len(),
                pre.frames.free.len() - self@.frames.free.len() <= claimed@.len(),
                self@ == (ArenaState {
                    map: self@.map,
                    frames: PoolState {
                        meta: self@.frames.meta,
                        free: self@.frames.free,
                        hand: self@.frames.hand,
                        ..pre.frames
                    },
                    stats: Counters {
                        evictions: bumped(
                            pre.stats.evictions,
                            claimed@.len() - (pre.frames.free.len() - self@.frames.free.len()),
                        ),
                        ..pre.stats
                    },
                    ..pre
                }),
                forall|k: int| 0 <= k < claimed@.len() ==> first <= (#[trigger] claimed@[k]).0
                    < first + i && !self@.resident(claimed@[k].0 as int),
                forall|k: int, j: int| 0 <= k < j < claimed@.len() ==> (#[trigger] claimed@[k]).0
                    < (#[trigger] claimed@[j]).0,
                claimed@.len() > 0 ==> claimed@[0].0 == first && !pre.exhausted(),
                claimed@.len() == 0 ==> self@ == pre,
                claimed@.len() == 0 && i > 0 ==> !more,
                !more ==> self@.exhausted(),
                forall|f: int|
                    0 <= f < pre.frames.count() && (#[trigger] pre.frames.meta[f]).dirty
                        ==> self@.frames.meta[f] == pre.frames.meta[f],
                forall|f: int|
                    0 <= f < pre.frames.count() ==> (#[trigger] self@.frames.meta[f])
                        == pre.frames.meta[f] || self@.frames.meta[f] == pre.frames.meta[f].aged()
                        || self@.frames.meta[f] == FrameMeta::unbound(),
                forall|b: int| #[trigger] self@.resident(b) ==> pre.stays(b, self@),
                more ==> forall|b: int|
                    first <= b < first + i && !(#[trigger] pre.resident(b)) ==> in_claim(
                        claimed@,
                        b,
                    ),
                more ==> claim_leads(pre, first as int, self@, claimed@, first + i, first + count),
                !more ==> pre.claims_on(
                    Seq::empty(),
                    first as int,
                    first + count,
                    claimed@,
                    self@,
                ),
            decreases count - i + if more { 1int } else { 0int },
        {
            let b: u64 = first + i;
            let ghost mid = self@;
            let ghost had = claimed@;
            if self.map[b as usize] == NO_FRAME {
                match self.frames.take_free_or_clean() {
                    Some((f, outgoing)) => {
                        if outgoing != NO_BLOCK {
                            proof {
                                assert(mid.frames.meta[f as int].bound());
                            }
                            // The frame arrives detached; its previous
                            // block's map entry is ours to clear.
                            self.map[outgoing as usize] = NO_FRAME;
                            self.stats.evictions = bump(self.stats.evictions, 1);
                            proof {
                                let frames = mid.frames.swept(f as int, true);
                                lemma_swept(mid.frames, f as int, true);
                                lemma_same_holdings(mid, claimed_frames(had), frames);
                                lemma_same_cells(mid, mid.with_frames(frames), -1);
                                lemma_evicted(mid.with_frames(frames), claimed_frames(had), f);
                                assert(self@ =~= mid.with_frames(frames).evicted(f));
                                lemma_keeps_both(mid, mid.with_frames(frames), self@, -1);
                                lemma_bumped_twice(
                                    pre.stats.evictions,
                                    had.len() - (pre.frames.free.len() - mid.frames.free.len()),
                                    1,
                                );
                            }
                        } else {
                            proof {
                                if mid.frames.free.len() == 0 {
                                    assert(mid.frames.meta[f as int].bound());
                                }
                                lemma_popped(mid, claimed_frames(had));
                                assert(self@ =~= mid.with_frames(mid.frames.popped()));
                                lemma_same_cells(mid, self@, -1);
                            }
                        }
                        claimed.push((b, f));
                        proof {
                            assert(mid.spared(f, self@));
                            lemma_claim_goes_on(
                                pre,
                                first as int,
                                mid,
                                had,
                                b as int,
                                first + count,
                                f,
                                self@,
                            );
                            assert(claimed_frames(claimed@) =~= claimed_frames(had).push(f));
                            lemma_keeps_both(pre, mid, self@, -1);
                            assert(!mid.resident(b as int));
                            assert forall|c: int| #[trigger] self@.resident(
                                c,
                            ) implies pre.stays(c, self@) by {
                                assert(mid.resident(c));
                                assert(pre.stays(c, mid));
                                assert(self@.cell(c) == mid.cell(c));
                            }
                            assert forall|k: int| 0 <= k < claimed@.len() implies first <= (
                            #[trigger] claimed@[k]).0 < first + i + 1 && !self@.resident(
                                claimed@[k].0 as int,
                            ) by {
                                if k < had.len() {
                                    assert(claimed@[k] == had[k]);
                                    assert(!mid.resident(had[k].0 as int));
                                }
                            }
                            assert forall|c: int|
                                first <= c < first + i + 1 && !(#[trigger] pre.resident(
                                    c,
                                )) implies in_claim(claimed@, c) by {
                                if c == b {
                                    assert(claimed@[had.len() as int].0 == c);
                                } else {
                                    assert(in_claim(had, c));
                                    let k = choose|k: int|
                                        0 <= k < had.len() && (#[trigger] had[k]).0 == c;
                                    assert(claimed@[k].0 == c);
                                }
                            }
                        }
                    },
                    None => {
                        more = false;
                        assert(mid.claims_on(had, first + i, first + count, had, mid));
                    },
                }
            } else {
                assert(mid.resident(b as int));
                assert(pre.stays(b as int, mid));
                assert(claim_leads(pre, first as int, mid, had, b + 1, first + count)) by {
                    assert forall|c: Seq<(u64, u32)>, after: ArenaState| #[trigger]
                        mid.claims_on(had, b + 1, first + count, c, after) implies pre.claims_on(
                        Seq::empty(),
                        first as int,
                        first + count,
                        c,
                        after,
                    ) by {
                        assert(mid.claims_on(had, b as int, first + count, c, after));
                    }
                }
            }
            i = i + 1;
        }
        proof {
            if more {
                assert(self@.claims_on(claimed@, first + count, first + count, claimed@, self@));
            }
            if claimed@.len() > 0 {
                assert forall|b: int|
                    first <= b < first + count && !(#[trigger] pre.resident(b)) && !in_claim(
                        claimed@,
                        b,
                    ) implies self@.exhausted() by {}
            }
        }
        claimed
    }

    /// Hand back every frame of a claim. Nothing is left half-bound.
    fn return_batch(&mut self, claimed: &Vec<(u64, u32)>)
        requires
            old(self).sized(),
            old(self)@.wait is Nothing,
            old(self)@.valid(claimed_frames(claimed@)),
        ensures
            final(self).sized(),
            final(self)@.valid(Seq::empty()),
            final(self)@ == old(self)@.unclaimed(claimed@, claimed@.len() as int),
            old(self)@.same_arena(final(self)@),
            final(self)@.wait is Nothing,
            keeps(old(self)@, final(self)@, -1),
    {
        let ghost pre = self@;
        let ghost ids = claimed_frames(claimed@);
        let n: usize = claimed.len();
        let mut i: usize = 0;
        assert(ids.skip(0) =~= ids);
        while i < n
            invariant
                n == claimed@.len(),
                ids == claimed_frames(claimed@),
                i <= n,
                self.sized(),
                self@.valid(ids.skip(i as int)),
                self@ == pre.unclaimed(claimed@, i as int),
                pre.same_arena(self@),
                same_ground(pre, self@),
                same_cells_but(pre, self@, -1),
                self@.wait is Nothing,
            decreases n - i,
        {
            let f: u32 = claimed[i].1;
            let ghost mid = self@;
            let ghost held = ids.skip(i as int);
            proof {
                assert(held[0] == f);
                assert(held.contains(f));
                lemma_skip_holds(held);
                assert(held.skip(1) =~= ids.skip(i + 1));
                lemma_released(mid, held, f, ids.skip(i + 1));
            }
            self.frames.release(f);
            i = i + 1;
            proof {
                assert(self@ =~= mid.with_frames(mid.frames.released(f)));
                assert forall|b: int| 0 <= b < pre.nblocks() && b != -1 implies #[trigger] self@.cell(
                    b,
                ) == pre.cell(b) by {
                    assert(mid.cell(b) == pre.cell(b));
                }
            }
        }
        proof {
            assert(ids.skip(n as int) =~= Seq::<u32>::empty());
            lemma_same_cells(pre, self@, -1);
        }
    }

    /// Serve the claims of a speculative read of `count` blocks from `first`
    /// on with the bytes that were read, and say how many could be served.
    ///
    /// A never-written block is zero-filled, not trusted: whatever the disk
    /// holds there is meaningless. A checksum mismatch is skipped silently
    /// rather than reported, because the caller did not ask for the block.
    /// It will be re-read, verified and reported the moment someone does.
    fn admit_batch(&mut self, first: u64, count: u64, claimed: &Vec<(u64, u32)>, bytes: &[u8]) -> (
    loaded: u64)
        requires
            old(self).sized(),
            old(self)@.wait is Nothing,
            old(self)@.valid(claimed_frames(claimed@)),
            first + count <= old(self)@.sb.nblocks,
            bytes@.len() == count * old(self)@.bs(),
            old(self)@.good_claim(first as int, count as int, claimed@),
        ensures
            final(self).sized(),
            final(self)@.valid(Seq::empty()),
            final(self)@ == old(self)@.admitted(
                first as int,
                bytes@,
                claimed@,
                claimed@.len() as int,
            ),
            loaded == old(self)@.admissions(
                first as int,
                bytes@,
                claimed@,
                claimed@.len() as int,
            ),
            old(self)@.same_arena(final(self)@),
            final(self)@.stats == old(self)@.stats,
            final(self)@.wait is Nothing,
            forall|disk: Seq<u8>| #[trigger]
                old(self)@.backed(disk) && bytes@ == disk.subrange(
                    old(self)@.sb.block_start(first as int),
                    old(self)@.sb.block_start(first as int) + count * old(self)@.bs(),
                ) ==> final(self)@.backed(disk) && alike_but(old(self)@, final(self)@, disk, -1),
    {
        let ghost pre = self@;
        let ghost ids = claimed_frames(claimed@);
        let bs: usize = self.sb.block_size as usize;
        let n: usize = claimed.len();
        let span: usize = bytes.len();
        let mut loaded: u64 = 0;
        let mut i: usize = 0;
        assert(ids.skip(0) =~= ids);
        while i < n
            invariant
                n == claimed@.len(),
                span == bytes@.len(),
                ids == claimed_frames(claimed@),
                i <= n,
                loaded <= i,
                pre.wait is Nothing,
                pre.valid(ids),
                bs == pre.bs(),
                first + count <= pre.sb.nblocks,
                bytes@.len() == count * pre.bs(),
                pre.good_claim(first as int, count as int, claimed@),
                self.sized(),
                self@.valid(ids.skip(i as int)),
                self@ == pre.admitted(first as int, bytes@, claimed@, i as int),
                loaded == pre.admissions(first as int, bytes@, claimed@, i as int),
                pre.same_arena(self@),
                same_ground(pre, self@),
                self@.stats == pre.stats,
                self@.wait is Nothing,
                forall|k: int|
                    i <= k < n ==> !self@.resident((#[trigger] claimed@[k]).0 as int),
                forall|disk: Seq<u8>| #[trigger]
                    pre.backed(disk) && bytes@ == disk.subrange(
                        pre.sb.block_start(first as int),
                        pre.sb.block_start(first as int) + count * pre.bs(),
                    ) ==> self@.backed(disk) && alike_but(pre, self@, disk, -1),
            decreases n - i,
        {
            let (b, f) = claimed[i];
            let ghost mid = self@;
            let ghost held = ids.skip(i as int);
            let ghost rest = ids.skip(i + 1);
            let ghost m = FrameMeta { block: b, dirty: false, referenced: false, prefetched: true };
            proof {
                assert(claimed@[i as int].0 == b);
                assert(held[0] == f);
                assert(held.contains(f));
                lemma_skip_holds(held);
                assert(held.skip(1) =~= rest);
                let k = b - first;
                assert(0 <= k * bs && k * bs + bs <= count * bs) by (nonlinear_arith)
                    requires
                        0 <= k < count,
                        0 <= bs,
                ;
                lemma_geometry(pre.sb.block_size, pre.sb.capacity, pre.sb.default_budget);
            }
            let at: usize = (b - first) as usize * bs;
            let src: &[u8] = &bytes[at..at + bs];
            let ghost read = pre.read_of(first as int, bytes@, b as int);
            assert(src@ =~= read);
            let stored: u64 = self.checksums[b as usize];
            let mut good: bool = true;
            if stored == UNWRITTEN {
                fill(self.frames.data_mut(f), 0);
            } else if block_checksum(src) != stored {
                // Nobody asked for this block. It was never mapped, so
                // returning the frame leaves no stale entry behind.
                good = false;
            } else {
                assert(self@.frames.data[f as int].len() == bs);
                copy_into(self.frames.data_mut(f), 0, src);
                assert(overlay(mid.frames.data[f as int], 0, read) =~= read);
            }
            if good {
                self.frames.assign_prefetched(f, b);
                self.map[b as usize] = f;
                loaded = loaded + 1;
                proof {
                    let data = if stored == UNWRITTEN {
                        repeated(0, bs as nat)
                    } else {
                        read
                    };
                    assert(self@ =~= mid.bound_to(f, data, m));
                    lemma_bound(mid, held, f, data, m, rest);
                    assert forall|disk: Seq<u8>| #[trigger]
                        pre.backed(disk) && bytes@ == disk.subrange(
                            pre.sb.block_start(first as int),
                            pre.sb.block_start(first as int) + count * pre.bs(),
                        ) implies self@.backed(disk) && alike_but(pre, self@, disk, -1) by {
                        lemma_block_range(pre.sb, first as int, b - first);
                        lemma_block_range(pre.sb, b as int, 1);
                        lemma_block_range(pre.sb, first as int, count as int);
                        assert(read =~= mid.on_disk(disk, b as int));
                        lemma_bound_true(mid, held, f, data, m, rest, disk);
                        lemma_alike_both(pre, mid, self@, disk, -1);
                    }
                    assert forall|k: int| i + 1 <= k < n implies !self@.resident(
                        (#[trigger] claimed@[k]).0 as int,
                    ) by {
                        assert(claimed@[i as int].0 < claimed@[k].0);
                        assert(!mid.resident(claimed@[k].0 as int));
                    }
                }
            } else {
                proof {
                    lemma_released(mid, held, f, rest);
                }
                self.frames.release(f);
                proof {
                    assert(self@ =~= mid.with_frames(mid.frames.released(f)));
                    lemma_same_cells(mid, self@, -1);
                    assert forall|disk: Seq<u8>| #[trigger]
                        pre.backed(disk) && bytes@ == disk.subrange(
                            pre.sb.block_start(first as int),
                            pre.sb.block_start(first as int) + count * pre.bs(),
                        ) implies self@.backed(disk) && alike_but(pre, self@, disk, -1) by {
                        assert(mid.backed(disk));
                        lemma_alike_both(pre, mid, self@, disk, -1);
                    }
                    assert forall|k: int| i + 1 <= k < n implies !self@.resident(
                        (#[trigger] claimed@[k]).0 as int,
                    ) by {
                        assert(!mid.resident(claimed@[k].0 as int));
                    }
                }
            }
            i = i + 1;
        }
        assert(ids.skip(n as int) =~= Seq::<u32>::empty());
        loaded
    }

    /// Count a miss.
    fn count_miss(&mut self, t: &Instant)
        requires
            old(self)@.stats.wf(),
        ensures
            old(self)@.missed(final(self)@),
            final(self)@.stats.wf(),
            final(self).sized() == old(self).sized(),
    {
        self.stats.misses = bump(self.stats.misses, 1);
        self.stats.miss_latency.record_since(t);
    }

    /// With frame `f` in hand for `block`: bind it at once if no bytes are
    /// needed from disk, else ask for them.
    fn bring_in(&mut self, block: u64, full: bool, f: u32, t: Instant) -> (r: Step<u32>)
        requires
            old(self).sized(),
            old(self)@.wait is Nothing,
            old(self)@.valid(seq![f]),
            block < old(self)@.sb.nblocks,
            !old(self)@.resident(block as int),
        ensures
            final(self).sized(),
            final(self)@.steady(),
            old(self)@.same_arena(final(self)@),
            old(self)@.brought_in(block, full, f, final(self)@),
            final(self)@.lookup_result(block as int, full, r),
            final(self)@.rank() <= 1,
            keeps(
                old(self)@,
                final(self)@,
                if full {
                    block as int
                } else {
                    -1
                },
            ),
    {
        let ghost pre = self@;
        let ghost held: Seq<u32> = seq![f];
        let ghost rest: Seq<u32> = Seq::empty();
        let ghost m = ArenaState::wanted(block);
        proof {
            assert(held[0] == f);
            assert(held.contains(f));
            assert(without(held, f, rest)) by {
                assert forall|g: u32| #[trigger] rest.contains(g) <==> (held.contains(g) && g
                    != f) by {}
            }
            lemma_geometry(pre.sb.block_size, pre.sb.capacity, pre.sb.default_budget);
        }
        if !full {
            let stored: u64 = self.checksums[block as usize];
            if stored != UNWRITTEN {
                proof {
                    lemma_block_range(pre.sb, block as int, 1);
                }
                let offset: u64 = self.sb.block_off(block);
                self.pending = Pending::Load { block, frame: f, t };
                proof {
                    assert(self@ =~= pre.waiting(Wait::Load { block, frame: f }));
                    lemma_same_cells(pre, self@, -1);
                }
                return Step::Io(Action::Read { offset, len: self.sb.block_size as usize });
            }
            fill(self.frames.data_mut(f), 0);
            self.stats.zero_fills = bump(self.stats.zero_fills, 1);
        } else {
            self.stats.full_overwrites = bump(self.stats.full_overwrites, 1);
        }
        self.frames.assign(f, block, false);
        self.map[block as usize] = f;
        let ghost mid = self@;
        self.count_miss(&t);
        proof {
            let data = if full {
                pre.frames.data[f as int]
            } else {
                repeated(0, pre.bs() as nat)
            };
            let s = pre.bound_to(f, data, m);
            assert(mid =~= s.with_stats(mid.stats));
            lemma_bound(pre, held, f, data, m, rest);
            if full {
                lemma_same_cells(pre, self@, block as int);
            } else {
                assert forall|disk: Seq<u8>| #[trigger] pre.backed(disk) implies self@.backed(disk) && alike_but(pre, self@, disk, -1) by {
                    lemma_bound_true(pre, held, f, data, m, rest, disk);
                    lemma_same_cells(s, self@, -1);
                    assert(s.backed(disk));
                    assert forall|c: int| 0 <= c < pre.nblocks() && c != -1 implies #[trigger] self@.block(
                        disk,
                        c,
                    ) == pre.block(disk, c) by {
                        assert(s.block(disk, c) == pre.block(disk, c));
                    }
                }
            }
        }
        Step::Ready(f)
    }

    /// Find a frame for `block`: a free one, else CLOCK's victim, which is
    /// written back first if it is dirty.
    fn make_room(&mut self, block: u64, full: bool, t: Instant) -> (r: Step<u32>)
        requires
            old(self).sized(),
            old(self)@.wait is Nothing,
            old(self)@.steady(),
            block < old(self)@.sb.nblocks,
            !old(self)@.resident(block as int),
        ensures
            final(self).sized(),
            final(self)@.steady(),
            old(self)@.same_arena(final(self)@),
            old(self)@.room_made(block, full, final(self)@),
            final(self)@.lookup_result(block as int, full, r),
            final(self)@.rank() <= 2,
            keeps(
                old(self)@,
                final(self)@,
                if full && r is Ready {
                    block as int
                } else {
                    -1
                },
            ),
    {
        let ghost pre = self@;
        let ghost none: Seq<u32> = Seq::empty();
        if let Some(f) = self.frames.take_free() {
            let ghost s = pre.with_frames(pre.frames.popped());
            proof {
                lemma_popped(pre, none);
                assert(none.push(f) =~= seq![f]);
                assert(self@ =~= s);
                lemma_same_cells(pre, s, -1);
            }
            let r = self.bring_in(block, full, f, t);
            proof {
                let x = if full {
                    block as int
                } else {
                    -1
                };
                lemma_keeps_both(pre, s, self@, x);
            }
            return r;
        }
        proof {
            // No frame is free or in hand, so every frame is bound.
            assert(placed(pre.frames.meta, pre.frames.free, none, 0));
            assert(pre.frames.meta[0].eligible(false));
        }
        let v: u32 = self.frames.choose_victim();
        let ghost s = pre.with_frames(pre.frames.swept(v as int, false));
        proof {
            assert(self@ =~= s);
            lemma_swept(pre.frames, v as int, false);
            lemma_same_holdings(pre, none, s.frames);
            lemma_same_cells(pre, s, -1);
            assert(s.frames.meta[v as int].bound());
        }
        let vm = self.frames.meta(v);
        if vm.dirty {
            proof {
                lemma_block_range(pre.sb, vm.block as int, 1);
            }
            let w = Instant::now();
            let offset: u64 = self.sb.block_off(vm.block);
            let data: Vec<u8> = vstd::slice::slice_to_vec(self.frames.data(v));
            self.pending = Pending::Victim { block, full, victim: v, t, w };
            proof {
                assert(self@ =~= s.waiting(Wait::Victim { block, full, victim: v }));
                lemma_same_cells(pre, self@, -1);
                assert(pre.victim_taken(block, full, v, self@));
            }
            return Step::Io(Action::Write { offset, data });
        }
        let r = self.reuse(block, full, v, t);
        proof {
            assert(pre.victim_taken(block, full, v, self@));
            let x = if full {
                block as int
            } else {
                -1
            };
            lemma_keeps_both(pre, s, self@, x);
        }
        r
    }

    /// Take clean frame `v` from the block it holds and give it to `block`.
    fn reuse(&mut self, block: u64, full: bool, v: u32, t: Instant) -> (r: Step<u32>)
        requires
            old(self).sized(),
            old(self)@.wait is Nothing,
            old(self)@.steady(),
            block < old(self)@.sb.nblocks,
            !old(self)@.resident(block as int),
            old(self)@.frames.has(v),
            old(self)@.frames.free.len() == 0,
            old(self)@.frames.meta[v as int].bound(),
            !old(self)@.frames.meta[v as int].dirty,
        ensures
            final(self).sized(),
            final(self)@.steady(),
            old(self)@.same_arena(final(self)@),
            old(self)@.evicted(v).brought_in(block, full, v, final(self)@),
            final(self)@.lookup_result(block as int, full, r),
            final(self)@.rank() <= 1,
            keeps(
                old(self)@,
                final(self)@,
                if full {
                    block as int
                } else {
                    -1
                },
            ),
    {
        let ghost pre = self@;
        let ghost none: Seq<u32> = Seq::empty();
        let out: u64 = self.frames.meta(v).block;
        self.map[out as usize] = NO_FRAME;
        self.frames.release(v);
        self.stats.evictions = bump(self.stats.evictions, 1);
        let f: u32 = match self.frames.take_free() {
            Some(f) => f,
            None => v,
        };
        proof {
            assert(self@ =~= pre.evicted(v));
            lemma_evicted(pre, none, v);
            assert(none.push(v) =~= seq![v]);
        }
        let r = self.bring_in(block, full, f, t);
        proof {
            let x = if full {
                block as int
            } else {
                -1
            };
            lemma_keeps_both(pre, pre.evicted(v), self@, x);
        }
        r
    }

    /// A dirty frame's bytes have reached the backing store.
    fn finish_flush(&mut self, f: u32, w: &Instant)
        requires
            old(self).sized(),
            old(self)@.wait is Nothing,
            old(self)@.steady(),
            old(self)@.frames.has(f),
            old(self)@.frames.meta[f as int].dirty,
        ensures
            final(self).sized(),
            final(self)@.steady(),
            old(self)@.same_arena(final(self)@),
            old(self)@.flushed(f, final(self)@),
            forall|b: int| final(self)@.resident(b) == old(self)@.resident(b),
            forall|disk: Seq<u8>| #[trigger]
                old(self)@.backed(disk) && old(self)@.on_disk(
                    disk,
                    old(self)@.frames.meta[f as int].block as int,
                ) == old(self)@.frames.data[f as int] ==> final(self)@.backed(disk) && alike_but(
                    old(self)@,
                    final(self)@,
                    disk,
                    -1,
                ),
    {
        let ghost pre = self@;
        let block: u64 = self.frames.meta(f).block;
        proof {
            lemma_geometry(pre.sb.block_size, pre.sb.capacity, pre.sb.default_budget);
            assert(pre.frames.meta[f as int].bound());
        }
        let h: u64 = block_checksum(self.frames.data(f));
        self.checksums[block as usize] = h;
        self.dirty_meta = true;
        self.frames.mark_clean(f);
        self.stats.writebacks = bump(self.stats.writebacks, 1);
        self.stats.bytes_written_backing = bump(
            self.stats.bytes_written_backing,
            self.sb.block_size as u64,
        );
        self.stats.writeback_latency.record_since(w);
        proof {
            assert(pre.flushed(f, self@));
            lemma_flushed(pre, Seq::empty(), f, self@);
        }
    }

    /// The bytes read for `block` are here: verify them and bind the frame,
    /// or leave no poisoned bytes addressable.
    fn finish_load(&mut self, block: u64, f: u32, bytes: &[u8], t: &Instant) -> (r: Result<
        u32,
        LoomError,
    >)
        requires
            old(self).sized(),
            old(self)@.wait is Nothing,
            old(self)@.valid(seq![f]),
            block < old(self)@.sb.nblocks,
            !old(self)@.resident(block as int),
            old(self)@.checksums[block as int] != UNWRITTEN,
            bytes@.len() == old(self)@.bs(),
        ensures
            final(self).sized(),
            final(self)@.steady(),
            final(self)@.wait is Nothing,
            old(self)@.same_arena(final(self)@),
            old(self)@.loaded(block, f, bytes@, final(self)@),
            match r {
                Ok(g) => {
                    &&& g == f
                    &&& checksum_of(bytes@) == old(self)@.checksums[block as int]
                    &&& final(self)@.resident(block as int)
                    &&& final(self)@.map[block as int] == f
                },
                Err(e) => {
                    &&& checksum_of(bytes@) != old(self)@.checksums[block as int]
                    &&& e == (LoomError::Corrupt {
                        block,
                        expected: old(self)@.checksums[block as int],
                        actual: checksum_of(bytes@),
                    })
                },
            },
            forall|disk: Seq<u8>| #[trigger]
                old(self)@.backed(disk) && (bytes@ == old(self)@.on_disk(disk, block as int)
                    || r is Err) ==> final(self)@.backed(disk) && alike_but(
                    old(self)@,
                    final(self)@,
                    disk,
                    -1,
                ),
    {
        let ghost pre = self@;
        let ghost held: Seq<u32> = seq![f];
        let ghost rest: Seq<u32> = Seq::empty();
        let ghost m = ArenaState::wanted(block);
        proof {
            assert(held[0] == f);
            assert(held.contains(f));
            assert(without(held, f, rest)) by {
                assert forall|g: u32| #[trigger] rest.contains(g) <==> (held.contains(g) && g
                    != f) by {}
            }
            lemma_geometry(pre.sb.block_size, pre.sb.capacity, pre.sb.default_budget);
            assert(placed(pre.frames.meta, pre.frames.free, held, f));
            lemma_released(pre, held, f, rest);
        }
        assert(self@.frames.data[f as int].len() == pre.bs());
        copy_into(self.frames.data_mut(f), 0, bytes);
        assert(overlay(pre.frames.data[f as int], 0, bytes@) =~= bytes@);
        self.stats.bytes_read_backing = bump(
            self.stats.bytes_read_backing,
            self.sb.block_size as u64,
        );
        let stored: u64 = self.checksums[block as usize];
        let actual: u64 = block_checksum(self.frames.data(f));
        if actual != stored {
            // Do not leave poisoned bytes addressable.
            fill(self.frames.data_mut(f), 0);
            self.frames.release(f);
            proof {
                let zeros = repeated(0, pre.bs() as nat);
                let s = pre.with_stats(self@.stats);
                let s2 = s.with_frames(s.frames.with_data(f, zeros));
                lemma_scratched(s, held, f, zeros);
                lemma_released(s2, held, f, rest);
                assert(self@ =~= s2.with_frames(s2.frames.released(f)));
                assert forall|b: int| 0 <= b < pre.nblocks() && b != -1 implies #[trigger] self@.cell(
                    b,
                ) == pre.cell(b) by {
                    assert(s2.cell(b) == s.cell(b));
                    assert(s.cell(b) == pre.cell(b));
                }
                lemma_same_cells(pre, self@, -1);
            }
            return Err(LoomError::Corrupt { block, expected: stored, actual });
        }
        self.frames.assign(f, block, false);
        self.map[block as usize] = f;
        let ghost mid = self@;
        self.count_miss(t);
        proof {
            let s = pre.bound_to(f, bytes@, m);
            assert(mid =~= s.with_stats(mid.stats));
            lemma_bound(pre, held, f, bytes@, m, rest);
            assert forall|disk: Seq<u8>| #[trigger]
                pre.backed(disk) && bytes@ == pre.on_disk(disk, block as int) implies self@.backed(
                disk,
            ) && alike_but(pre, self@, disk, -1) by {
                lemma_bound_true(pre, held, f, bytes@, m, rest, disk);
                lemma_same_cells(s, self@, -1);
                assert(s.backed(disk));
                assert forall|c: int| 0 <= c < pre.nblocks() && c != -1 implies #[trigger] self@.block(
                    disk,
                    c,
                ) == pre.block(disk, c) by {
                    assert(s.block(disk, c) == pre.block(disk, c));
                }
            }
        }
        Ok(f)
    }

    /// Make `block` resident. If `full`, the caller promises to overwrite
    /// every byte before reading, so the load from disk is skipped.
    fn ensure_resident(&mut self, block: u64, full: bool) -> (r: Step<u32>)
        requires
            old(self).sized(),
            old(self)@.steady(),
            old(self)@.wait is Nothing,
            block < old(self)@.sb.nblocks,
        ensures
            final(self).sized(),
            final(self)@.steady(),
            old(self)@.same_arena(final(self)@),
            old(self)@.looked_up(block, full, final(self)@),
            final(self)@.lookup_result(block as int, full, r),
            keeps(
                old(self)@,
                final(self)@,
                if full && r is Ready {
                    block as int
                } else {
                    -1
                },
            ),
    {
        let ghost pre = self@;
        let t = Instant::now();
        let f: u32 = self.map[block as usize];
        if f != NO_FRAME {
            assert(pre.resident(block as int));
            self.serve_hit(f, &t);
            proof {
                if full {
                    lemma_keeps_weaken(pre, self@, block as int);
                }
            }
            return Step::Ready(f);
        }
        // Update the sequential-run detector before doing anything else, so
        // the decision is made on the access pattern rather than on what the
        // pool happens to hold.
        proof {
            lemma_geometry(pre.sb.block_size, pre.sb.capacity, pre.sb.default_budget);
        }
        self.note_miss(block);
        let ghost n = self@;
        proof {
            lemma_same_cells(pre, n, -1);
        }
        // Speculate only on an established forward run, never when the caller
        // is about to overwrite the whole block (they want no bytes from disk
        // at all), and never for a block that was never written (it is zeros,
        // and the disk has nothing to say about it).
        if !full && self.prefetch_depth > 1 && self.seq_run >= SEQ_RUN_THRESHOLD
            && self.checksums[block as usize] != UNWRITTEN {
            let left: u64 = self.sb.nblocks - block;
            let count: u64 = if (self.prefetch_depth as u64) < left {
                self.prefetch_depth as u64
            } else {
                left
            };
            if count >= 2 {
                let claimed = self.claim_batch(block, count);
                if claimed.len() > 0 {
                    proof {
                        lemma_block_range(pre.sb, block as int, count as int);
                        let bs = pre.bs();
                        let depth = pre.prefetch_depth as int;
                        let frames = pre.frames.count() as int;
                        assert(0 <= count * bs <= frames * bs) by (nonlinear_arith)
                            requires
                                0 <= count <= depth,
                                4 * depth <= frames,
                                0 <= bs,
                        ;
                    }
                    let offset: u64 = self.sb.block_off(block);
                    let len: usize = count as usize * self.sb.block_size as usize;
                    let ghost c = self@;
                    self.pending = Pending::Batch { block, count, claimed, t };
                    proof {
                        assert(self@ =~= c.waiting(self@.wait));
                        assert(c =~= self@.waiting(Wait::Nothing));
                        lemma_same_cells(c, self@, -1);
                        lemma_keeps_both(n, c, self@, -1);
                        lemma_keeps_both(pre, n, self@, -1);
                    }
                    return Step::Io(Action::Read { offset, len });
                }
            }
        }
        let r = self.make_room(block, full, t);
        proof {
            let x = if full && r is Ready {
                block as int
            } else {
                -1
            };
            lemma_keeps_both(pre, n, self@, x);
        }
        r
    }

    /// Go on with a lookup after the reply it waited for.
    fn resume_resident(&mut self, reply: Reply) -> (r: Step<u32>)
        requires
            old(self).sized(),
            old(self)@.steady(),
            old(self)@.sought() is Some,
            old(self)@.expects(reply),
        ensures
            final(self).sized(),
            final(self)@.steady(),
            old(self)@.same_arena(final(self)@),
            old(self)@.resumed(reply, final(self)@),
            match old(self)@.load_error(reply) {
                Some(e) => r == Step::<u32>::Failed(e) && final(self)@.wait is Nothing,
                None => final(self)@.lookup_result(
                    old(self)@.sought()->0,
                    old(self)@.sought_full(),
                    r,
                ),
            },
            final(self)@.rank() < old(self)@.rank(),
            keeps_given(
                old(self)@,
                reply,
                final(self)@,
                if old(self)@.sought_full() && r is Ready {
                    old(self)@.sought()->0
                } else {
                    -1
                },
            ),
    {
        let ghost pre = self@;
        let ghost s = self@.waiting(Wait::Nothing);
        let mut p = Pending::Nothing;
        core::mem::swap(&mut p, &mut self.pending);
        proof {
            assert(self@ =~= s);
            lemma_same_cells(pre, s, -1);
        }
        match p {
            Pending::Batch { block, count, claimed, t } => match reply {
                Reply::Bytes(bytes) => {
                    let loaded: u64 = self.admit_batch(block, count, &claimed, bytes);
                    self.stats.prefetch_batches = bump(self.stats.prefetch_batches, 1);
                    self.stats.bytes_read_backing = bump(
                        self.stats.bytes_read_backing,
                        bytes.len() as u64,
                    );
                    self.stats.prefetch_blocks = bump(self.stats.prefetch_blocks, loaded);
                    let ghost b = self@;
                    proof {
                        assert(b =~= s.batch_served(
                            block as int,
                            count as int,
                            bytes@,
                            claimed@,
                        ));
                        assert(keeps_given(pre, reply, b, -1)) by {
                            assert forall|disk: Seq<u8>| #[trigger]
                                pre.backed(disk) && pre.answered(disk, reply) implies b.backed(disk) && alike_but(pre, b, disk, -1) by {
                                assert(s.backed(disk));
                                let a = s.admitted(
                                    block as int,
                                    bytes@,
                                    claimed@,
                                    claimed@.len() as int,
                                );
                                assert(a.backed(disk));
                                lemma_same_cells(a, b, -1);
                                lemma_alike_both(pre, s, a, disk, -1);
                                lemma_alike_both(pre, a, b, disk, -1);
                            }
                        }
                    }
                    let f: u32 = self.map[block as usize];
                    if f != NO_FRAME {
                        let _was = self.frames.claim_prefetch(f);
                        self.frames.touch(f);
                        let ghost m = b.frames.meta[f as int];
                        let ghost touched = b.frames.with_meta(
                            f,
                            FrameMeta { prefetched: false, referenced: true, ..m },
                        );
                        proof {
                            assert(b.resident(block as int));
                            assert(self@ =~= b.with_frames(touched));
                            lemma_touched(b.frames, f, touched.meta[f as int]);
                            lemma_same_holdings(b, Seq::empty(), touched);
                        }
                        self.count_miss(&t);
                        proof {
                            assert forall|c: int| 0 <= c < b.nblocks() && c
                                != -1 implies #[trigger] self@.cell(c) == b.cell(c) by {
                                assert(b.with_frames(touched).cell(c) == b.cell(c));
                            }
                            lemma_same_cells(b, self@, -1);
                            lemma_keeps_given_both(pre, reply, b, self@, -1);
                        }
                        return Step::Ready(f);
                    }
                    let r = self.make_room(block, false, t);
                    proof {
                        lemma_keeps_given_both(pre, reply, b, self@, -1);
                    }
                    r
                },
                Reply::Failed(e) => {
                    self.return_batch(&claimed);
                    proof {
                        lemma_keeps_both(pre, s, self@, -1);
                    }
                    Step::Failed(e)
                },
                Reply::Done => Step::Ready(0),
            },
            Pending::Victim { block, full, victim, t, w } => match reply {
                Reply::Done => {
                    self.finish_flush(victim, &w);
                    let ghost c = self@;
                    proof {
                        let x = pre.frames.meta[victim as int].block as int;
                        assert(pre.frames.meta[victim as int].bound());
                        assert(pre.frames.data[victim as int].len() == pre.bs());
                        assert(keeps_given(pre, reply, c, -1)) by {
                            assert forall|disk: Seq<u8>| #[trigger]
                                pre.backed(disk) && pre.answered(disk, reply) implies c.backed(disk) && alike_but(pre, c, disk, -1) by {
                                assert(s.backed(disk));
                                assert(s.on_disk(disk, x) == s.frames.data[victim as int]);
                                assert(c.backed(disk));
                                lemma_alike_both(pre, s, c, disk, -1);
                            }
                        }
                    }
                    let r = self.reuse(block, full, victim, t);
                    proof {
                        assert(s.flushed(victim, c));
                        let x = if full {
                            block as int
                        } else {
                            -1
                        };
                        lemma_keeps_given_both(pre, reply, c, self@, x);
                    }
                    r
                },
                Reply::Failed(e) => Step::Failed(e),
                Reply::Bytes(_) => Step::Ready(0),
            },
            Pending::Load { block, frame, t } => match reply {
                Reply::Bytes(bytes) => {
                    let r = self.finish_load(block, frame, bytes, &t);
                    proof {
                        assert forall|disk: Seq<u8>| #[trigger]
                            pre.backed(disk) && pre.answered(disk, reply) implies self@.backed(disk) && alike_but(pre, self@, disk, -1) by {
                            assert(s.backed(disk));
                            assert(self@.backed(disk));
                            lemma_alike_both(pre, s, self@, disk, -1);
                        }
                    }
                    match r {
                        Ok(f) => Step::Ready(f),
                        Err(e) => Step::Failed(e),
                    }
                },
                Reply::Failed(e) => {
                    proof {
                        let held: Seq<u32> = seq![frame];
                        let rest: Seq<u32> = Seq::empty();
                        assert(held[0] == frame);
                        assert(held.contains(frame));
                        assert(without(held, frame, rest)) by {
                            assert forall|g: u32| #[trigger]
                                rest.contains(g) <==> (held.contains(g) && g != frame) by {}
                        }
                        lemma_released(s, held, frame, rest);
                    }
                    self.frames.release(frame);
                    proof {
                        assert(self@ =~= s.with_frames(s.frames.released(frame)));
                        lemma_same_cells(s, self@, -1);
                        lemma_keeps_both(pre, s, self@, -1);
                    }
                    Step::Failed(e)
                },
                Reply::Done => Step::Ready(0),
            },
            _ => Step::Ready(0),
        }
    }
}

/// Whatever a claim that has come to `had` leads to, the claim that started
/// with `pre` leads to.
spec fn claim_leads(
    pre: ArenaState,
    first: int,
    s: ArenaState,
    had: Seq<(u64, u32)>,
    b: int,
    end: int,
) -> bool {
    forall|c: Seq<(u64, u32)>, after: ArenaState| #[trigger]
        s.claims_on(had, b, end, c, after) ==> pre.claims_on(Seq::empty(), first, end, c, after)
}

/// One more block claimed.
proof fn lemma_claim_goes_on(
    pre: ArenaState,
    first: int,
    s: ArenaState,
    had: Seq<(u64, u32)>,
    b: int,
    end: int,
    f: u32,
    mid: ArenaState,
)
    requires
        claim_leads(pre, first, s, had, b, end),
        0 <= b < end,
        !s.resident(b),
        !s.exhausted(),
        s.spared(f, mid),
    ensures
        claim_leads(pre, first, mid, had.push((b as u64, f)), b + 1, end),
{
    let more = had.push((b as u64, f));
    assert forall|c: Seq<(u64, u32)>, after: ArenaState| #[trigger]
        mid.claims_on(more, b + 1, end, c, after) implies pre.claims_on(
        Seq::empty(),
        first,
        end,
        c,
        after,
    ) by {
        assert(s.claims_on(had, b, end, c, after));
    }
}

// ---- data path --------------------------------------------------------------

/// The bytes of `after` from place `from` up to `to` are the arena's from
/// address `start + from` on, as far as RAM and file agree about their block;
/// the others are those of `before`.
pub open spec fn copied_out(
    s: ArenaState,
    disk: Seq<u8>,
    start: int,
    from: int,
    to: int,
    before: Seq<u8>,
    after: Seq<u8>,
) -> bool {
    &&& after.len() == before.len()
    &&& forall|i: int|
        #![trigger after[i]]
        0 <= i < before.len() ==> if from <= i < to {
            s.honest(disk, (start + i) / s.bs()) ==> after[i] == s.byte(disk, start + i)
        } else {
            after[i] == before[i]
        }
}

/// How many bytes a copy has moved, after a step of it.
pub open spec fn moved<T>(s: ArenaState, len: int, done: int, r: Step<T>) -> int {
    match r {
        Step::Ready(_) => len,
        Step::Failed(_) => done,
        Step::Io(_) => match s.job {
            Job::Read { start, len, done } => done,
            Job::Write { start, len, done } => done,
            _ => done,
        },
    }
}

/// A step of a copy out of the arena, from place `done` on.
pub open spec fn read_step(
    pre: ArenaState,
    start: u64,
    len: int,
    done: int,
    post: ArenaState,
    r: Step<()>,
) -> bool {
    &&& pre.same_pool(post)
    &&& match r {
        Step::Ready(_) => post.idle(),
        Step::Failed(_) => post.idle(),
        Step::Io(a) => {
            &&& post.asks(a)
            &&& post.job matches Job::Read { start: s, len: n, done: d }
            &&& s == start
            &&& n == len
            &&& done <= d
        },
    }
}

/// A step of a copy into the arena, from place `done` on.
pub open spec fn write_step(
    pre: ArenaState,
    start: u64,
    len: int,
    done: int,
    post: ArenaState,
    r: Step<()>,
) -> bool {
    &&& pre.same_pool(post)
    &&& match r {
        Step::Ready(_) => post.idle(),
        Step::Failed(_) => post.idle(),
        Step::Io(a) => {
            &&& post.asks(a)
            &&& post.job matches Job::Write { start: s, len: n, done: d }
            &&& s == start
            &&& n == len
            &&& done <= d
        },
    }
}

impl Loom {
    /// Copy on, with the block of the current place in frame `f`, until the
    /// copy is complete or the file is needed.
    #[verifier::rlimit(40)]
    fn copy_out(&mut self, start: u64, done: usize, f: u32, buf: &mut [u8]) -> (r: Step<()>)
        requires
            old(self).sized(),
            old(self)@.steady(),
            old(self)@.wait is Nothing,
            start + old(buf)@.len() <= old(self)@.sb.capacity,
            done < old(buf)@.len(),
            old(self)@.lookup_result(
                (start + done) / old(self)@.bs(),
                false,
                Step::Ready(f),
            ),
        ensures
            final(self).wf(),
            !(r is Failed),
            read_step(
                old(self)@,
                start,
                old(buf)@.len() as int,
                done as int,
                final(self)@,
                r,
            ),
            old(self)@.read_past(start, old(buf)@.len() as int, done as int, final(self)@),
            moved(final(self)@, old(buf)@.len() as int, done as int, r) > done,
            keeps(old(self)@, final(self)@, -1),
            final(buf)@.len() == old(buf)@.len(),
            forall|disk: Seq<u8>| #[trigger]
                old(self)@.backed(disk) ==> copied_out(
                    old(self)@,
                    disk,
                    start as int,
                    done as int,
                    moved(final(self)@, old(buf)@.len() as int, done as int, r),
                    old(buf)@,
                    final(buf)@,
                ),
    {
        let ghost pre = self@;
        let ghost before = buf@;
        let len: usize = buf.len();
        let bs: u64 = self.sb.block_size as u64;
        let mut done1: usize = done;
        let mut frame: u32 = f;
        proof {
            lemma_same_cells(pre, pre, -1);
        }
        loop
            invariant
                pre == old(self)@,
                before == old(buf)@,
                len == before.len(),
                buf@.len() == len,
                bs == pre.bs(),
                bs > 0,
                start + len <= pre.sb.capacity,
                done <= done1 < len,
                self.sized(),
                self@.steady(),
                pre.same_pool(self@),
                self@.lookup_result((start + done1) / self@.bs(), false, Step::Ready(frame)),
                forall|after: ArenaState| #[trigger]
                    self@.read_past(start, len as int, done1 as int, after) ==> pre.read_past(
                        start,
                        len as int,
                        done as int,
                        after,
                    ),
                keeps(pre, self@, -1),
                forall|disk: Seq<u8>| #[trigger]
                    pre.backed(disk) ==> copied_out(
                        pre,
                        disk,
                        start as int,
                        done as int,
                        done1 as int,
                        before,
                        buf@,
                    ),
            decreases len - done1,
        {
            let ghost mid = self@;
            let ghost was = buf@;
            let abs: u64 = start + done1 as u64;
            proof {
                lemma_block_of(mid, Seq::empty(), abs as int);
            }
            let block: u64 = abs / bs;
            let inb: usize = (abs % bs) as usize;
            let room: usize = bs as usize - inb;
            let n: usize = if room < len - done1 {
                room
            } else {
                len - done1
            };
            assert(mid.frames.data[frame as int].len() == bs);
            let src: &[u8] = &self.frames.data(frame)[inb..inb + n];
            copy_into(buf, done1, src);
            proof {
                assert forall|disk: Seq<u8>| #[trigger] pre.backed(disk) implies copied_out(
                    pre,
                    disk,
                    start as int,
                    done as int,
                    done1 + n,
                    before,
                    buf@,
                ) by {
                    assert(mid.backed(disk));
                    assert forall|i: int|
                        #![trigger buf@[i]]
                        0 <= i < len implies if done <= i < done1 + n {
                        pre.honest(disk, (start + i) / pre.bs()) ==> buf@[i] == pre.byte(
                            disk,
                            start + i,
                        )
                    } else {
                        buf@[i] == before[i]
                    } by {
                        assert(was[i] == was[i]);
                        if done1 <= i < done1 + n {
                            lemma_run(abs as int, n as int, start + i, bs as int);
                            if pre.honest(disk, block as int) {
                                assert(alike(pre, disk, mid, disk, block as int));
                            }
                            assert(buf@[i] == src@[i - done1]);
                            assert(src@[i - done1] == mid.frames.data[frame as int][inb + (i
                                - done1)]);
                        }
                    }
                }
            }
            done1 = done1 + n;
            if done1 >= len {
                self.task = Task::Idle;
                proof {
                    assert(self@ =~= mid.doing(Job::Idle));
                    assert(mid.read_past(start, len as int, done1 - n, self@));
                    lemma_same_cells(mid, self@, -1);
                    lemma_keeps_both(pre, mid, self@, -1);
                }
                return Step::Ready(());
            }
            self.task = Task::Read { start, len, done: done1 };
            let ghost go = self@;
            proof {
                assert(go =~= mid.doing(Job::Read { start, len: len as int, done: done1 as int }));
                lemma_same_cells(mid, go, -1);
                lemma_keeps_both(pre, mid, go, -1);
                lemma_block_of(mid, Seq::empty(), start + done1);
            }
            let next: u64 = (start + done1 as u64) / bs;
            let step = self.ensure_resident(next, false);
            proof {
                lemma_keeps_both(pre, go, self@, -1);
                assert forall|after: ArenaState| #[trigger]
                    self@.read_past(start, len as int, done1 as int, after) implies pre.read_past(
                    start,
                    len as int,
                    done as int,
                    after,
                ) by {
                    assert(mid.read_from(start, len as int, done1 as int, after));
                    assert(mid.read_past(start, len as int, done1 - n, after));
                }
                if !(step is Ready) {
                    assert(self@.read_past(start, len as int, done1 as int, self@));
                }
            }
            match step {
                Step::Ready(g) => {
                    frame = g;
                },
                Step::Io(a) => {
                    return Step::Io(a);
                },
                Step::Failed(e) => {
                    return Step::Failed(e);
                },
            }
        }
    }

    /// Start copying `buf.len()` bytes at `off` of a region into `buf`.
    pub fn read(&mut self, r: Region, off: u64, buf: &mut [u8]) -> (s: Step<()>)
        requires
            old(self).wf(),
            old(self)@.idle(),
        ensures
            final(self).wf(),
            final(buf)@.len() == old(buf)@.len(),
            s is Failed <==> !in_region(old(self)@, r, off as int, old(buf)@.len() as int),
            s matches Step::Failed(e) ==> {
                &&& e == out_of_bounds(r, off, old(buf)@.len() as u64)
                &&& final(self)@ == old(self)@
                &&& final(buf)@ == old(buf)@
            },
            !(s is Failed) ==> {
                let start = (r.offset + off) as u64;
                let len = old(buf)@.len() as int;
                &&& read_step(old(self)@, start, len, 0, final(self)@, s)
                &&& len == 0 ==> final(self)@ == old(self)@
                &&& len > 0 ==> old(self)@.read_from(start, len, 0, final(self)@)
                &&& keeps(old(self)@, final(self)@, -1)
                &&& forall|disk: Seq<u8>| #[trigger]
                    old(self)@.backed(disk) ==> copied_out(
                        old(self)@,
                        disk,
                        start as int,
                        0,
                        moved(final(self)@, len, 0, s),
                        old(buf)@,
                        final(buf)@,
                    )
            },
    {
        let ghost pre = self@;
        let len: usize = buf.len();
        match self.check_bounds(r, off, len as u64) {
            Err(e) => {
                return Step::Failed(e);
            },
            Ok(()) => {},
        }
        assert(self@.regions[r.id as int].0 + self@.regions[r.id as int].1 <= self@.sb.capacity);
        let start: u64 = r.offset + off;
        if len == 0 {
            proof {
                lemma_same_cells(pre, pre, -1);
            }
            return Step::Ready(());
        }
        self.task = Task::Read { start, len, done: 0 };
        let ghost go = self@;
        proof {
            assert(go =~= pre.doing(Job::Read { start, len: len as int, done: 0 }));
            lemma_same_cells(pre, go, -1);
            lemma_block_of(pre, Seq::empty(), start as int);
        }
        let block: u64 = start / self.sb.block_size as u64;
        match self.ensure_resident(block, false) {
            Step::Ready(f) => {
                let ghost mid = self@;
                proof {
                    lemma_keeps_both(pre, go, mid, -1);
                }
                let s = self.copy_out(start, 0, f, buf);
                proof {
                    assert(pre.read_from(start, len as int, 0, self@));
                    lemma_keeps_both(pre, mid, self@, -1);
                    lemma_copied_out(pre, mid, start, 0, moved(self@, len as int, 0, s), old(buf)@, buf@);
                }
                s
            },
            Step::Io(a) => {
                proof {
                    assert(self@.read_past(start, len as int, 0, self@));
                    assert(pre.read_from(start, len as int, 0, self@));
                    lemma_keeps_both(pre, go, self@, -1);
                }
                Step::Io(a)
            },
            Step::Failed(e) => Step::Failed(e),
        }
    }

    /// Go on with a read after the reply it waited for. A block whose bytes
    /// do not have the checksum they were written with is reported, never
    /// returned.
    pub fn resume_read(&mut self, buf: &mut [u8], reply: Reply) -> (s: Step<()>)
        requires
            old(self).wf(),
            old(self)@.job matches Job::Read { start, len, done } && len == old(buf)@.len(),
            old(self)@.expects(reply),
        ensures
            final(self).wf(),
            final(buf)@.len() == old(buf)@.len(),
            match old(self)@.load_error(reply) {
                Some(e) => s == Step::<()>::Failed(e) && final(buf)@ == old(buf)@,
                None => !(s is Failed),
            },
            keeps_given(old(self)@, reply, final(self)@, -1),
            old(self)@.job matches Job::Read { start, len, done } ==> {
                &&& read_step(old(self)@, start, len, done, final(self)@, s)
                &&& old(self)@.read_resumed(reply, final(self)@)
                &&& s is Io ==> moved(final(self)@, len, done, s) > done || final(self)@.rank()
                    < old(self)@.rank()
                &&& forall|disk: Seq<u8>| #[trigger]
                    old(self)@.backed(disk) && old(self)@.answered(disk, reply) ==> copied_out(
                        old(self)@,
                        disk,
                        start as int,
                        done,
                        moved(final(self)@, len, done, s),
                        old(buf)@,
                        final(buf)@,
                    )
            },
    {
        let ghost pre = self@;
        let (start, len, done): (u64, usize, usize) = match self.task {
            Task::Read { start, len, done } => (start, len, done),
            _ => (0, 0, 0),
        };
        match self.resume_resident(reply) {
            Step::Ready(f) => {
                let ghost mid = self@;
                let s = self.copy_out(start, done, f, buf);
                proof {
                    assert(pre.resumed(reply, mid));
                    lemma_keeps_given_both(pre, reply, mid, self@, -1);
                    let to = moved(self@, len as int, done as int, s);
                    assert forall|disk: Seq<u8>| #[trigger]
                        pre.backed(disk) && pre.answered(disk, reply) implies copied_out(
                        pre,
                        disk,
                        start as int,
                        done as int,
                        to,
                        old(buf)@,
                        buf@,
                    ) by {
                        assert(mid.backed(disk));
                        lemma_copied_through(
                            pre,
                            mid,
                            disk,
                            start as int,
                            done as int,
                            to,
                            old(buf)@,
                            buf@,
                        );
                    }
                }
                s
            },
            Step::Io(a) => {
                proof {
                    assert(pre.resumed(reply, self@));
                    assert(self@.read_past(start, len as int, done as int, self@));
                }
                Step::Io(a)
            },
            Step::Failed(e) => {
                let ghost mid = self@;
                self.task = Task::Idle;
                proof {
                    assert(pre.resumed(reply, mid));
                    assert(self@ =~= mid.doing(Job::Idle));
                    lemma_same_cells(mid, self@, -1);
                    lemma_keeps_given_both(pre, reply, mid, self@, -1);
                }
                Step::Failed(e)
            },
        }
    }

    /// Change bytes of a resident block, from arena address `at` on.
    fn put_chunk(&mut self, at: u64, frame: u32, chunk: &[u8])
        requires
            old(self).sized(),
            old(self)@.steady(),
            old(self)@.wait is Nothing,
            old(self)@.frames.has(frame),
            old(self)@.frames.meta[frame as int].bound(),
            chunk@.len() <= old(self)@.bs() - at as int % old(self)@.bs(),
        ensures
            final(self).sized(),
            final(self)@.steady(),
            final(self)@ == old(self)@.rewritten(
                frame,
                overlay(
                    old(self)@.frames.data[frame as int],
                    at as int % old(self)@.bs(),
                    chunk@,
                ),
            ),
    {
        let ghost pre = self@;
        let inb: usize = (at % self.sb.block_size as u64) as usize;
        let ghost was = pre.frames.data[frame as int];
        assert(was.len() == pre.bs());
        copy_into(self.frames.data_mut(frame), inb, chunk);
        self.frames.mark_dirty(frame);
        proof {
            let now = overlay(was, inb as int, chunk@);
            assert(self@ =~= pre.rewritten(frame, now));
            lemma_rewritten(pre, Seq::empty(), frame, now);
        }
    }

    /// Copy on, with the block of the current place in frame `f`, until the
    /// copy is complete or the file is needed.
    #[verifier::rlimit(40)]
    fn copy_in(&mut self, start: u64, done: usize, f: u32, data: &[u8]) -> (r: Step<()>)
        requires
            old(self).sized(),
            old(self)@.steady(),
            old(self)@.wait is Nothing,
            start + data@.len() <= old(self)@.sb.capacity,
            done < data@.len(),
            old(self)@.lookup_result((start + done) / old(self)@.bs(), true, Step::Ready(f)),
        ensures
            final(self).wf(),
            !(r is Failed),
            write_step(
                old(self)@,
                start,
                data@.len() as int,
                done as int,
                final(self)@,
                r,
            ),
            old(self)@.write_past(start, data@, done as int, final(self)@),
            moved(final(self)@, data@.len() as int, done as int, r) >= done + old(self)@.run_at(
                start + done,
                data@.len() - done,
            ),
            old(self)@.run_at(start + done, data@.len() - done) > 0,
            wrote(
                old(self)@,
                final(self)@,
                start + done,
                data@.subrange(
                    done as int,
                    moved(final(self)@, data@.len() as int, done as int, r),
                ),
                -1,
            ),
    {
        let ghost pre = self@;
        let len: usize = data.len();
        let bs: u64 = self.sb.block_size as u64;
        let ghost from = start + done;
        let mut done1: usize = done;
        let mut frame: u32 = f;
        proof {
            lemma_block_of(pre, Seq::empty(), from);
            assert(data@.subrange(done as int, done as int) =~= Seq::<u8>::empty());
            reveal(write_leads);
        }
        loop
            invariant
                pre == old(self)@,
                len == data@.len(),
                bs == pre.bs(),
                bs > 0,
                from == start + done,
                start + len <= pre.sb.capacity,
                done <= done1 < len,
                done1 == done || done1 >= done + pre.run_at(from, len - done),
                self.sized(),
                self@.steady(),
                pre.same_pool(self@),
                self@.lookup_result((start + done1) / self@.bs(), true, Step::Ready(frame)),
                write_leads(pre, start, data@, done as int, self@, done1 as int),
                wrote(
                    pre,
                    self@,
                    from,
                    data@.subrange(done as int, done1 as int),
                    self@.blanked(start + done1, len - done1),
                ),
            decreases len - done1,
        {
            let ghost mid = self@;
            let abs: u64 = start + done1 as u64;
            proof {
                lemma_block_of(mid, Seq::empty(), abs as int);
            }
            let room: usize = bs as usize - (abs % bs) as usize;
            let n: usize = if room < len - done1 {
                room
            } else {
                len - done1
            };
            let chunk: &[u8] = &data[done1..done1 + n];
            self.put_chunk(abs, frame, chunk);
            let ghost w = self@;
            proof {
                lemma_chunk(
                    pre,
                    mid,
                    from,
                    data@.subrange(done as int, done1 as int),
                    frame,
                    chunk@,
                    mid.blanked(abs as int, len - done1),
                );
                assert(data@.subrange(done as int, done1 as int) + chunk@ =~= data@.subrange(
                    done as int,
                    done1 + n,
                ));
            }
            done1 = done1 + n;
            if done1 >= len {
                self.task = Task::Idle;
                proof {
                    assert(self@ =~= w.doing(Job::Idle));
                    assert(mid.write_past(start, data@, done1 - n, self@));
                    lemma_write_leads(
                        pre,
                        start,
                        data@,
                        done as int,
                        mid,
                        done1 - n,
                        self@,
                    );
                    lemma_same_cells(w, self@, -1);
                    lemma_wrote_next(
                        pre,
                        w,
                        self@,
                        from,
                        data@.subrange(done as int, done1 as int),
                        -1,
                    );
                }
                return Step::Ready(());
            }
            self.task = Task::Write { start, len, done: done1 };
            let ghost go = self@;
            proof {
                assert(go =~= w.doing(Job::Write { start, len: len as int, done: done1 as int }));
                lemma_same_cells(w, go, -1);
                lemma_block_of(mid, Seq::empty(), start + done1);
            }
            let abs2: u64 = start + done1 as u64;
            let next: u64 = abs2 / bs;
            let full = abs2 % bs == 0 && len - done1 >= bs as usize;
            let step = self.ensure_resident(next, full);
            proof {
                let x = if full && step is Ready {
                    next as int
                } else {
                    -1
                };
                lemma_keeps_both(w, go, self@, x);
                lemma_write_goes_on(pre, mid, w, go, self@, start, data@, done as int, done1 - n, done1 as int);
                lemma_wrote_next(
                    pre,
                    w,
                    self@,
                    from,
                    data@.subrange(done as int, done1 as int),
                    x,
                );
            }
            match step {
                Step::Ready(g) => {
                    frame = g;
                },
                Step::Io(a) => {
                    return Step::Io(a);
                },
                Step::Failed(e) => {
                    return Step::Failed(e);
                },
            }
        }
    }

    /// Start copying `data` to `off` of a region.
    pub fn write(&mut self, r: Region, off: u64, data: &[u8]) -> (s: Step<()>)
        requires
            old(self).wf(),
            old(self)@.idle(),
        ensures
            final(self).wf(),
            s is Failed <==> !in_region(old(self)@, r, off as int, data@.len() as int),
            s matches Step::Failed(e) ==> {
                &&& e == out_of_bounds(r, off, data@.len() as u64)
                &&& final(self)@ == old(self)@
            },
            !(s is Failed) ==> {
                let start = (r.offset + off) as u64;
                let len = data@.len() as int;
                &&& write_step(old(self)@, start, len, 0, final(self)@, s)
                &&& len == 0 ==> final(self)@ == old(self)@
                &&& len > 0 ==> old(self)@.write_from(start, data@, 0, final(self)@)
                &&& forall|disk: Seq<u8>| #[trigger]
                    old(self)@.backed(disk) ==> final(self)@.backed(disk) && patched(
                        old(self)@,
                        final(self)@,
                        disk,
                        start as int,
                        data@.subrange(0, moved(final(self)@, len, 0, s)),
                    )
            },
    {
        let ghost pre = self@;
        let len: usize = data.len();
        match self.check_bounds(r, off, len as u64) {
            Err(e) => {
                return Step::Failed(e);
            },
            Ok(()) => {},
        }
        assert(self@.regions[r.id as int].0 + self@.regions[r.id as int].1 <= self@.sb.capacity);
        let start: u64 = r.offset + off;
        if len == 0 {
            return Step::Ready(());
        }
        self.task = Task::Write { start, len, done: 0 };
        let ghost go = self@;
        proof {
            assert(go =~= pre.doing(Job::Write { start, len: len as int, done: 0 }));
            lemma_same_cells(pre, go, -1);
            lemma_block_of(pre, Seq::empty(), start as int);
        }
        let bs: u64 = self.sb.block_size as u64;
        let block: u64 = start / bs;
        let full = start % bs == 0 && len >= bs as usize;
        match self.ensure_resident(block, full) {
            Step::Ready(f) => {
                let ghost mid = self@;
                let ghost x = mid.blanked(start as int, len as int);
                let s = self.copy_in(start, 0, f, data);
                proof {
                    assert(full == pre.covers(start + 0, len - 0));
                    assert(block == ((start + 0) / pre.bs()) as u64);
                    assert(pre.write_from(start, data@, 0, self@));
                    lemma_keeps_both(pre, go, mid, x);
                    let patch = data@.subrange(0, moved(self@, len as int, 0, s));
                    assert forall|disk: Seq<u8>| #[trigger] pre.backed(disk) implies self@.backed(
                        disk,
                    ) && patched(pre, self@, disk, start as int, patch) by {
                        assert(x == mid.blanked(start + 0, len - 0));
                        assert(mid.backed(disk));
                        lemma_patched_through(pre, mid, self@, disk, start as int, patch, x);
                    }
                }
                s
            },
            Step::Io(a) => {
                proof {
                    assert(self@.write_past(start, data@, 0, self@));
                    assert(full == pre.covers(start + 0, len - 0));
                    assert(block == ((start + 0) / pre.bs()) as u64);
                    assert(pre.write_from(start, data@, 0, self@));
                    lemma_keeps_both(pre, go, self@, -1);
                    assert forall|disk: Seq<u8>| #[trigger] pre.backed(disk) implies self@.backed(
                        disk,
                    ) && patched(pre, self@, disk, start as int, data@.subrange(0, 0)) by {
                        lemma_same_bytes(pre, self@, disk, start as int, data@.subrange(0, 0));
                    }
                }
                Step::Io(a)
            },
            Step::Failed(e) => Step::Failed(e),
        }
    }

    /// Go on with a write after the reply it waited for. If it fails, the
    /// bytes before the block that could not be brought in are written, the
    /// others are not.
    pub fn resume_write(&mut self, data: &[u8], reply: Reply) -> (s: Step<()>)
        requires
            old(self).wf(),
            old(self)@.job matches Job::Write { start, len, done } && len == data@.len(),
            old(self)@.expects(reply),
        ensures
            final(self).wf(),
            match old(self)@.load_error(reply) {
                Some(e) => s == Step::<()>::Failed(e),
                None => !(s is Failed),
            },
            old(self)@.job matches Job::Write { start, len, done } ==> {
                &&& write_step(old(self)@, start, len, done, final(self)@, s)
                &&& exists|mid: ArenaState| #[trigger]
                    old(self)@.resumed(reply, mid) && if s is Failed {
                        final(self)@ == mid.doing(Job::Idle)
                    } else {
                        mid.write_past(start, data@, done, final(self)@)
                    }
                &&& s is Io ==> moved(final(self)@, len, done, s) > done || final(self)@.rank()
                    < old(self)@.rank()
                &&& forall|disk: Seq<u8>| #[trigger]
                    old(self)@.backed(disk) && old(self)@.answered(disk, reply)
                        ==> final(self)@.backed(disk) && patched(
                        old(self)@,
                        final(self)@,
                        disk,
                        start + done,
                        data@.subrange(done, moved(final(self)@, len, done, s)),
                    )
            },
    {
        let ghost pre = self@;
        let (start, len, done): (u64, usize, usize) = match self.task {
            Task::Write { start, len, done } => (start, len, done),
            _ => (0, 0, 0),
        };
        let step = self.resume_resident(reply);
        let ghost mid = self@;
        assert(pre.resumed(reply, mid));
        match step {
            Step::Ready(f) => {
                let ghost x = mid.blanked(start + done, len - done);
                let s = self.copy_in(start, done, f, data);
                proof {
                    let patch = data@.subrange(
                        done as int,
                        moved(self@, len as int, done as int, s),
                    );
                    assert forall|disk: Seq<u8>| #[trigger]
                        pre.backed(disk) && pre.answered(disk, reply) implies self@.backed(disk)
                        && patched(pre, self@, disk, start + done, patch) by {
                        if !pre.sought_full() {
                            assert(mid.backed(disk));
                        }
                        assert(mid.backed(disk));
                        lemma_patched_through(pre, mid, self@, disk, start + done, patch, x);
                    }
                }
                s
            },
            Step::Io(a) => {
                proof {
                    assert(mid.write_past(start, data@, done as int, mid));
                    assert forall|disk: Seq<u8>| #[trigger]
                        pre.backed(disk) && pre.answered(disk, reply) implies self@.backed(disk)
                        && patched(
                        pre,
                        self@,
                        disk,
                        start + done,
                        data@.subrange(done as int, done as int),
                    ) by {
                        lemma_same_bytes(pre, self@, disk, start + done, data@.subrange(done as int, done as int));
                    }
                }
                Step::Io(a)
            },
            Step::Failed(e) => {
                self.task = Task::Idle;
                proof {
                    assert(self@ =~= mid.doing(Job::Idle));
                    lemma_same_cells(mid, self@, -1);
                    lemma_keeps_given_both(pre, reply, mid, self@, -1);
                    assert forall|disk: Seq<u8>| #[trigger]
                        pre.backed(disk) && pre.answered(disk, reply) implies self@.backed(disk)
                        && patched(
                        pre,
                        self@,
                        disk,
                        start + done,
                        data@.subrange(done as int, done as int),
                    ) by {
                        lemma_same_bytes(pre, self@, disk, start + done, data@.subrange(done as int, done as int));
                    }
                }
                Step::Failed(e)
            },
        }
    }
}

/// Whatever the file holds: outside block `x`, the bytes from `at` on are
/// `patch` and every other byte that RAM and file agreed about is what it
/// was.
pub open spec fn wrote(
    pre: ArenaState,
    post: ArenaState,
    at: int,
    patch: Seq<u8>,
    x: int,
) -> bool {
    forall|disk: Seq<u8>| #[trigger]
        pre.backed(disk) ==> post.backed(disk) && patched_but(
            pre,
            post,
            disk,
            at,
            patch,
            x,
        )
}

/// Whatever a write that has come to place `at` leads to, the write that
/// started with `pre` leads to.
#[verifier::opaque]
spec fn write_leads(
    pre: ArenaState,
    start: u64,
    data: Seq<u8>,
    done: int,
    s: ArenaState,
    at: int,
) -> bool {
    forall|after: ArenaState| #[trigger]
        s.write_past(start, data, at, after) ==> pre.write_past(start, data, done, after)
}

proof fn lemma_write_leads(
    pre: ArenaState,
    start: u64,
    data: Seq<u8>,
    done: int,
    s: ArenaState,
    at: int,
    after: ArenaState,
)
    requires
        write_leads(pre, start, data, done, s, at),
        s.write_past(start, data, at, after),
    ensures
        pre.write_past(start, data, done, after),
{
    reveal(write_leads);
}

/// A write whose next block has been looked up.
proof fn lemma_write_goes_on(
    pre: ArenaState,
    mid: ArenaState,
    w: ArenaState,
    go: ArenaState,
    s: ArenaState,
    start: u64,
    data: Seq<u8>,
    done: int,
    at: int,
    next: int,
)
    requires
        write_leads(pre, start, data, done, mid, at),
        mid.wait is Nothing,
        at < next < data.len(),
        next == at + mid.run_at(start + at, data.len() - at),
        w == mid.rewritten(
            mid.map[(start + at) / mid.bs()],
            overlay(
                mid.frames.data[mid.map[(start + at) / mid.bs()] as int],
                (start + at) % mid.bs(),
                data.subrange(at, next),
            ),
        ),
        go == w.doing(Job::Write { start, len: data.len() as int, done: next }),
        go.looked_up(
            ((start + next) / w.bs()) as u64,
            w.covers(start + next, data.len() - next),
            s,
        ),
    ensures
        write_leads(pre, start, data, done, s, next),
        !(s.wait is Nothing) ==> pre.write_past(start, data, done, s),
{
    reveal(write_leads);
    assert forall|after: ArenaState| #[trigger]
        s.write_past(start, data, next, after) implies pre.write_past(
        start,
        data,
        done,
        after,
    ) by {
        assert(w.write_from(start, data, next, after));
        assert(mid.write_past(start, data, at, after));
    }
    if !(s.wait is Nothing) {
        assert(s.write_past(start, data, next, s));
    }
}

/// A chunk written to the block of the current place.
proof fn lemma_chunk(
    pre: ArenaState,
    mid: ArenaState,
    from: int,
    had: Seq<u8>,
    frame: u32,
    chunk: Seq<u8>,
    x: int,
)
    requires
        mid.valid(Seq::empty()),
        mid.wait is Nothing,
        mid.sb == pre.sb,
        0 <= from,
        from + had.len() + chunk.len() <= mid.sb.capacity,
        mid.frames.has(frame),
        mid.frames.meta[frame as int].bound(),
        mid.frames.meta[frame as int].block == (from + had.len()) / mid.bs(),
        chunk.len() <= mid.bs() - (from + had.len()) % mid.bs(),
        x == -1 || (x == (from + had.len()) / mid.bs() && (from + had.len()) % mid.bs() == 0
            && chunk.len() == mid.bs()),
        wrote(pre, mid, from, had, x),
    ensures
        wrote(
            pre,
            mid.rewritten(
                frame,
                overlay(
                    mid.frames.data[frame as int],
                    (from + had.len()) % mid.bs(),
                    chunk,
                ),
            ),
            from,
            had + chunk,
            -1,
        ),
{
    let at = from + had.len();
    let bs = mid.bs();
    let block = at / bs;
    let was = mid.frames.data[frame as int];
    let now = overlay(was, at % bs, chunk);
    let post = mid.rewritten(frame, now);
    let has = had + chunk;
    assert(was.len() == bs);
    lemma_split(at, bs);
    lemma_rewritten(mid, Seq::empty(), frame, now);
    assert(mid.map[block] == frame);
    assert forall|disk: Seq<u8>| #[trigger] pre.backed(disk) implies post.backed(disk)
        && patched_but(pre, post, disk, from, has, -1) by {
        assert(mid.backed(disk));
        assert(post.backed(disk));
        assert forall|a: int|
            0 <= a < pre.sb.capacity && a / pre.bs() != -1 && (within(a, from, has.len() as int)
                || pre.honest(disk, a / pre.bs())) implies #[trigger] shows(
            pre,
            post,
            disk,
            from,
            has,
            a,
        ) by {
            lemma_block_of(mid, Seq::empty(), a);
            lemma_run(at, chunk.len() as int, a, bs);
            let b = a / bs;
            if b == block {
                assert(post.honest(disk, b));
                assert(post.block(disk, b) == now);
                if !(at <= a < at + chunk.len()) {
                    // Only a block that is kept has such bytes.
                    assert(x == -1);
                    assert(shows(pre, mid, disk, from, had, a));
                    assert(mid.block(disk, b) == was);
                    assert(mid.byte(disk, a) == was[a % bs]);
                }
            } else {
                assert(shows(pre, mid, disk, from, had, a));
                assert(alike(mid, disk, post, disk, b));
                assert(post.byte(disk, a) == mid.byte(disk, a));
            }
        }
    }
}

/// A step that keeps everything, after a write.
proof fn lemma_wrote_next(
    pre: ArenaState,
    mid: ArenaState,
    post: ArenaState,
    at: int,
    patch: Seq<u8>,
    x: int,
)
    requires
        mid.valid(mid.held()),
        mid.sb == pre.sb,
        post.sb == pre.sb,
        wrote(pre, mid, at, patch, -1),
        keeps(mid, post, x),
    ensures
        wrote(pre, post, at, patch, x),
{
    assert forall|disk: Seq<u8>| #[trigger] pre.backed(disk) implies post.backed(disk)
        && patched_but(pre, post, disk, at, patch, x) by {
        assert(mid.backed(disk));
        assert forall|a: int|
            0 <= a < pre.sb.capacity && a / pre.bs() != x && (within(a, at, patch.len() as int)
                || pre.honest(disk, a / pre.bs())) implies #[trigger] shows(
            pre,
            post,
            disk,
            at,
            patch,
            a,
        ) by {
            lemma_block_of(mid, mid.held(), a);
            assert(shows(pre, mid, disk, at, patch, a));
            assert(alike(mid, disk, post, disk, a / pre.bs()));
        }
    }
}

/// A patch on top of a state with the same content, but for a block that the
/// patch covers.
proof fn lemma_patched_through(
    pre: ArenaState,
    mid: ArenaState,
    post: ArenaState,
    disk: Seq<u8>,
    at: int,
    patch: Seq<u8>,
    x: int,
)
    requires
        pre.valid(pre.held()),
        mid.sb == pre.sb,
        alike_but(pre, mid, disk, x),
        patched_but(mid, post, disk, at, patch, -1),
        0 <= at,
        x == -1 || (x == at / pre.bs() && at % pre.bs() == 0 && patch.len() >= pre.bs()),
    ensures
        patched(pre, post, disk, at, patch),
{
    assert forall|a: int|
        0 <= a < pre.sb.capacity && (within(a, at, patch.len() as int) || pre.honest(
            disk,
            a / pre.bs(),
        )) implies #[trigger] shows(pre, post, disk, at, patch, a) by {
        lemma_block_of(pre, pre.held(), a);
        if a / pre.bs() != x {
            if pre.honest(disk, a / pre.bs()) {
                assert(alike(pre, disk, mid, disk, a / pre.bs()));
                assert(mid.byte(disk, a) == pre.byte(disk, a));
            }
        } else {
            lemma_run(at, pre.bs(), a, pre.bs());
        }
        assert(shows(mid, post, disk, at, patch, a));
    }
}

/// Where blocks are the same, bytes are the same: nothing was patched.
proof fn lemma_same_bytes(
    pre: ArenaState,
    post: ArenaState,
    disk: Seq<u8>,
    at: int,
    patch: Seq<u8>,
)
    requires
        pre.valid(pre.held()),
        post.sb == pre.sb,
        alike_but(pre, post, disk, -1),
        patch.len() == 0,
    ensures
        patched(pre, post, disk, at, patch),
{
    assert forall|a: int|
        0 <= a < pre.sb.capacity && (within(a, at, patch.len() as int) || pre.honest(
            disk,
            a / pre.bs(),
        )) implies #[trigger] shows(pre, post, disk, at, patch, a) by {
        lemma_block_of(pre, pre.held(), a);
        assert(alike(pre, disk, post, disk, a / pre.bs()));
    }
}

/// What was copied out of an arena with the same bytes was copied out of this
/// one.
proof fn lemma_copied_through(
    pre: ArenaState,
    mid: ArenaState,
    disk: Seq<u8>,
    start: int,
    from: int,
    to: int,
    before: Seq<u8>,
    after: Seq<u8>,
)
    requires
        pre.valid(pre.held()),
        mid.sb == pre.sb,
        0 <= start,
        start + before.len() <= pre.sb.capacity,
        0 <= from,
        alike_but(pre, mid, disk, -1),
        copied_out(mid, disk, start, from, to, before, after),
    ensures
        copied_out(pre, disk, start, from, to, before, after),
{
    assert forall|i: int|
        #![trigger after[i]]
        0 <= i < before.len() implies if from <= i < to {
        pre.honest(disk, (start + i) / pre.bs()) ==> after[i] == pre.byte(disk, start + i)
    } else {
        after[i] == before[i]
    } by {
        if from <= i < to && pre.honest(disk, (start + i) / pre.bs()) {
            lemma_block_of(pre, pre.held(), start + i);
            assert(alike(pre, disk, mid, disk, (start + i) / pre.bs()));
        }
    }
}

/// What was copied out of an arena with the same content was copied out of
/// this one.
proof fn lemma_copied_out(
    pre: ArenaState,
    mid: ArenaState,
    start: u64,
    from: int,
    to: int,
    before: Seq<u8>,
    after: Seq<u8>,
)
    requires
        pre.valid(pre.held()),
        mid.sb == pre.sb,
        keeps(pre, mid, -1),
        start + before.len() <= pre.sb.capacity,
        0 <= from,
        to <= before.len(),
        forall|disk: Seq<u8>| #[trigger]
            mid.backed(disk) ==> copied_out(mid, disk, start as int, from, to, before, after),
    ensures
        forall|disk: Seq<u8>| #[trigger]
            pre.backed(disk) ==> copied_out(pre, disk, start as int, from, to, before, after),
{
    assert forall|disk: Seq<u8>| #[trigger] pre.backed(disk) implies copied_out(
        pre,
        disk,
        start as int,
        from,
        to,
        before,
        after,
    ) by {
        assert(mid.backed(disk));
        lemma_copied_through(pre, mid, disk, start as int, from, to, before, after);
    }
}

/// The error for an access outside its region.
pub open spec fn out_of_bounds(r: Region, off: u64, len: u64) -> LoomError {
    LoomError::OutOfBounds { region: r.id, offset: off, len, region_len: r.len }
}

// ---- zero-copy access -------------------------------------------------------
//
// A read or write copies between the caller's buffer and the frame. These
// give the caller the frame's bytes directly. Soundness comes from the borrow
// checker rather than a pin count: the slice lives while the arena is
// borrowed, so no other arena call — and therefore no eviction — can happen
// meanwhile.
//
// The cost of that simplicity: one block at a time.

/// The range that a borrow of up to `max` bytes at `off` of a region gets:
/// it stops at the end of the block, and of the region.
pub open spec fn borrowable(s: ArenaState, r: Region, off: u64, max: usize) -> int {
    let left = if max < r.len - off {
        max as int
    } else {
        r.len - off
    };
    s.run_at(r.offset + off, left)
}

/// The bytes at arena address `start`, found in their frame.
pub open spec fn found(s: ArenaState, start: int, len: int, at: Located) -> bool {
    &&& s.resident(start / s.bs())
    &&& s.map[start / s.bs()] == at.frame
    &&& at.at == start % s.bs()
    &&& at.len == len
}

/// A place inside a frame that holds a block.
pub open spec fn located(s: ArenaState, at: Located) -> bool {
    &&& s.frames.has(at.frame)
    &&& s.frames.meta[at.frame as int].bound()
    &&& at.at + at.len <= s.bs()
}

/// The arena address of a place inside a frame.
pub open spec fn address_of(s: ArenaState, at: Located) -> int {
    s.frames.meta[at.frame as int].block * s.bs() + at.at
}

/// A step of a search for the bytes at `start`.
pub open spec fn find_step(
    pre: ArenaState,
    start: u64,
    len: int,
    post: ArenaState,
    r: Step<Located>,
) -> bool {
    &&& pre.same_pool(post)
    &&& match r {
        Step::Ready(at) => {
            &&& post.idle()
            &&& found(post, start as int, len, at)
            &&& located(post, at)
            &&& address_of(post, at) == start
        },
        Step::Failed(_) => post.idle(),
        Step::Io(a) => post.asks(a) && post.job == (Job::Find { start, len }),
    }
}

/// What was found is where it was looked for.
proof fn lemma_found(s: ArenaState, start: int, len: int, at: Located)
    requires
        s.steady(),
        0 <= start < s.sb.capacity,
        0 <= len <= s.bs() - start % s.bs(),
        found(s, start, len, at),
    ensures
        located(s, at),
        address_of(s, at) == start,
{
    lemma_block_of(s, s.held(), start);
    lemma_split(start, s.bs());
    lemma_geometry(s.sb.block_size, s.sb.capacity, s.sb.default_budget);
}

impl Loom {
    /// Start resolving `off` to bytes in a frame, making the block resident
    /// if it isn't. At most `max` bytes, and no more than the block and the
    /// region hold; at least one, or it is out of bounds.
    pub fn locate(&mut self, r: Region, off: u64, max: usize) -> (s: Step<Located>)
        requires
            old(self).wf(),
            old(self)@.idle(),
        ensures
            final(self).wf(),
            s is Failed <==> max == 0 || !in_region(old(self)@, r, off as int, 1),
            s matches Step::Failed(e) ==> {
                &&& e == out_of_bounds(r, off, if max == 0 { 0 } else { 1 })
                &&& final(self)@ == old(self)@
            },
            !(s is Failed) ==> {
                let start = (r.offset + off) as u64;
                let len = borrowable(old(self)@, r, off, max);
                &&& find_step(old(self)@, start, len, final(self)@, s)
                &&& old(self)@.searched(start, len, final(self)@)
            },
            keeps(old(self)@, final(self)@, -1),
    {
        let ghost pre = self@;
        proof {
            lemma_same_cells(pre, pre, -1);
        }
        let least: u64 = if max == 0 {
            0
        } else {
            1
        };
        match self.check_bounds(r, off, least) {
            Err(e) => {
                return Step::Failed(e);
            },
            Ok(()) => {},
        }
        if max == 0 {
            return Step::Failed(
                LoomError::OutOfBounds { region: r.id, offset: off, len: 0, region_len: r.len },
            );
        }
        assert(self@.regions[r.id as int].0 + self@.regions[r.id as int].1 <= self@.sb.capacity);
        let start: u64 = r.offset + off;
        let bs: u64 = self.sb.block_size as u64;
        proof {
            lemma_block_of(pre, Seq::empty(), start as int);
        }
        let inb: u64 = start % bs;
        // Clamp to the block end, and to what the region actually holds.
        let left: u64 = r.len - off;
        let want: u64 = if (max as u64) < left {
            max as u64
        } else {
            left
        };
        let len: u64 = if bs - inb < want {
            bs - inb
        } else {
            want
        };
        self.task = Task::Find { start, len: len as usize };
        let ghost go = self@;
        proof {
            assert(go =~= pre.doing(Job::Find { start, len: len as int }));
            lemma_same_cells(pre, go, -1);
        }
        let step = self.ensure_resident(start / bs, false);
        proof {
            lemma_keeps_both(pre, go, self@, -1);
        }
        match step {
            Step::Ready(f) => {
                let ghost mid = self@;
                self.task = Task::Idle;
                let at = Located { frame: f, at: inb as usize, len: len as usize };
                proof {
                    assert(self@ =~= mid.rested());
                    assert(pre.searched(start, len as int, self@));
                    lemma_same_cells(mid, self@, -1);
                    lemma_keeps_both(pre, mid, self@, -1);
                    lemma_found(self@, start as int, len as int, at);
                }
                Step::Ready(at)
            },
            Step::Io(a) => {
                assert(pre.searched(start, len as int, self@));
                Step::Io(a)
            },
            Step::Failed(e) => Step::Failed(e),
        }
    }

    /// Go on with a search after the reply it waited for.
    pub fn resume_locate(&mut self, reply: Reply) -> (s: Step<Located>)
        requires
            old(self).wf(),
            old(self)@.job is Find,
            old(self)@.expects(reply),
        ensures
            final(self).wf(),
            match old(self)@.load_error(reply) {
                Some(e) => s == Step::<Located>::Failed(e),
                None => !(s is Failed),
            },
            old(self)@.job matches Job::Find { start, len } ==> find_step(
                old(self)@,
                start,
                len,
                final(self)@,
                s,
            ),
            exists|mid: ArenaState| #[trigger]
                old(self)@.resumed(reply, mid) && final(self)@ == mid.rested(),
            s is Io ==> final(self)@.rank() < old(self)@.rank(),
            keeps_given(old(self)@, reply, final(self)@, -1),
    {
        let ghost pre = self@;
        let (start, len): (u64, usize) = match self.task {
            Task::Find { start, len } => (start, len),
            _ => (0, 0),
        };
        let inb: usize = (start % self.sb.block_size as u64) as usize;
        let step = self.resume_resident(reply);
        let ghost mid = self@;
        match step {
            Step::Ready(f) => {
                self.task = Task::Idle;
                let at = Located { frame: f, at: inb, len };
                proof {
                    assert(pre.resumed(reply, mid));
                    assert(self@ =~= mid.rested());
                    lemma_same_cells(mid, self@, -1);
                    lemma_keeps_given_both(pre, reply, mid, self@, -1);
                    lemma_found(self@, start as int, len as int, at);
                }
                Step::Ready(at)
            },
            Step::Io(a) => {
                assert(pre.resumed(reply, mid));
                Step::Io(a)
            },
            Step::Failed(e) => {
                self.task = Task::Idle;
                proof {
                    assert(pre.resumed(reply, mid));
                    assert(self@ =~= mid.rested());
                    lemma_same_cells(mid, self@, -1);
                    lemma_keeps_given_both(pre, reply, mid, self@, -1);
                }
                Step::Failed(e)
            },
        }
    }

    /// Borrow the located bytes **in place**, with no copy. There may be
    /// fewer than were asked for; the length is the caller's signal to loop.
    pub fn with_slice(&mut self, at: Located) -> (s: &[u8])
        requires
            old(self).wf(),
            old(self)@.idle(),
            located(old(self)@, at),
        ensures
            final(self).wf(),
            final(self)@ == old(self)@.with_stats(
                Counters {
                    zero_copy: bumped(old(self)@.stats.zero_copy, 1),
                    ..old(self)@.stats
                },
            ),
            s@ == old(self)@.frames.data[at.frame as int].subrange(at.at as int, at.at + at.len),
            forall|disk: Seq<u8>| #[trigger]
                old(self)@.backed(disk) ==> s@ == old(self)@.contents(
                    disk,
                    address_of(old(self)@, at),
                    at.len as int,
                ),
            keeps(old(self)@, final(self)@, -1),
    {
        let ghost pre = self@;
        self.stats.zero_copy = bump(self.stats.zero_copy, 1);
        proof {
            let data = pre.frames.data[at.frame as int];
            let s = data.subrange(at.at as int, at.at + at.len);
            assert(data.len() == pre.bs());
            lemma_same_cells(pre, self@, -1);
            assert forall|disk: Seq<u8>| #[trigger] pre.backed(disk) implies s == pre.contents(
                disk,
                address_of(pre, at),
                at.len as int,
            ) by {
                lemma_place_bytes(pre, at, disk);
                assert(s =~= pre.contents(disk, address_of(pre, at), at.len as int));
            }
        }
        &self.frames.data(at.frame)[at.at..at.at + at.len]
    }

    /// Mutable in-place borrow. The block is marked dirty unconditionally —
    /// the caller was handed write access, so the arena must take it to be
    /// used.
    pub fn with_slice_mut(&mut self, at: Located) -> (s: &mut [u8])
        requires
            old(self).wf(),
            old(self)@.idle(),
            located(old(self)@, at),
        ensures
            s@ == old(self)@.frames.data[at.frame as int].subrange(at.at as int, at.at + at.len),
            final(s)@.len() == s@.len() ==> {
                &&& final(self).wf()
                &&& final(self)@ == old(self)@.rewritten(
                    at.frame,
                    overlay(
                        old(self)@.frames.data[at.frame as int],
                        at.at as int,
                        final(s)@,
                    ),
                ).with_stats(
                    Counters {
                        zero_copy: bumped(old(self)@.stats.zero_copy, 1),
                        ..old(self)@.stats
                    },
                )
                &&& forall|disk: Seq<u8>| #[trigger]
                    old(self)@.backed(disk) ==> final(self)@.backed(disk) && patched(
                        old(self)@,
                        final(self)@,
                        disk,
                        address_of(old(self)@, at),
                        final(s)@,
                    )
            },
    {
        let ghost pre = self@;
        let ghost was = pre.frames.data[at.frame as int];
        assert(was.len() == pre.bs());
        self.stats.zero_copy = bump(self.stats.zero_copy, 1);
        self.frames.mark_dirty(at.frame);
        proof {
            let st = self@.stats;
            let base = self@;
            assert forall|m: Seq<u8>| m.len() == at.len implies {
                let post = pre.rewritten(
                    at.frame,
                    #[trigger] overlay(was, at.at as int, m),
                ).with_stats(st);
                &&& post == base.with_frames(
                    base.frames.with_data(at.frame, overlay(was, at.at as int, m)),
                )
                &&& post.wf()
                &&& forall|disk: Seq<u8>| #[trigger]
                    pre.backed(disk) ==> post.backed(disk) && patched(
                        pre,
                        post,
                        disk,
                        address_of(pre, at),
                        m,
                    )
            } by {
                let now = overlay(was, at.at as int, m);
                let w = pre.rewritten(at.frame, now);
                let post = w.with_stats(st);
                assert(post =~= base.with_frames(base.frames.with_data(at.frame, now)));
                lemma_rewritten(pre, Seq::empty(), at.frame, now);
                lemma_same_cells(w, post, -1);
                assert forall|disk: Seq<u8>| #[trigger] pre.backed(disk) implies post.backed(disk)
                    && patched(pre, post, disk, address_of(pre, at), m) by {
                    lemma_place_written(pre, at, m, disk);
                    assert(w.backed(disk));
                    let addr = address_of(pre, at);
                    assert forall|a: int|
                        0 <= a < pre.sb.capacity && (within(a, addr, m.len() as int)
                            || pre.honest(disk, a / pre.bs())) implies #[trigger] shows(
                        pre,
                        post,
                        disk,
                        addr,
                        m,
                        a,
                    ) by {
                        assert(shows(pre, w, disk, addr, m, a));
                        lemma_block_of(pre, pre.held(), a);
                        assert(alike(w, disk, post, disk, a / pre.bs()));
                    }
                }
            }
        }
        window_mut(self.frames.data_mut(at.frame), at.at, at.len)
    }
}

/// The bytes of a place in a frame are the arena's at its address.
proof fn lemma_place_bytes(s: ArenaState, at: Located, disk: Seq<u8>)
    requires
        s.wf(),
        located(s, at),
    ensures
        forall|i: int|
            0 <= i < at.len ==> #[trigger] s.byte(disk, address_of(s, at) + i)
                == s.frames.data[at.frame as int][at.at + i],
{
    let b = s.frames.meta[at.frame as int].block as int;
    assert(s.map[b] == at.frame);
    assert forall|i: int| 0 <= i < at.len implies #[trigger] s.byte(disk, address_of(s, at) + i)
        == s.frames.data[at.frame as int][at.at + i] by {
        vstd::arithmetic::div_mod::lemma_fundamental_div_mod_converse(
            address_of(s, at) + i,
            s.bs(),
            b,
            at.at + i,
        );
    }
}

/// Other bytes at a place in a frame are other bytes of the arena at its
/// address.
proof fn lemma_place_written(s: ArenaState, at: Located, m: Seq<u8>, disk: Seq<u8>)
    requires
        s.wf(),
        s.wait is Nothing,
        s.backed(disk),
        located(s, at),
        m.len() == at.len,
    ensures
        ({
            let now = overlay(s.frames.data[at.frame as int], at.at as int, m);
            let post = s.rewritten(at.frame, now);
            &&& post.backed(disk)
            &&& patched(s, post, disk, address_of(s, at), m)
        }),
{
    let bs = s.bs();
    let b = s.frames.meta[at.frame as int].block as int;
    let was = s.frames.data[at.frame as int];
    let now = overlay(was, at.at as int, m);
    let post = s.rewritten(at.frame, now);
    let addr = address_of(s, at);
    assert(was.len() == bs);
    assert(s.map[b] == at.frame);
    lemma_rewritten(s, Seq::empty(), at.frame, now);
    assert(s.backed(disk));
    if at.len > 0 {
        vstd::arithmetic::div_mod::lemma_fundamental_div_mod_converse(addr, bs, b, at.at as int);
        assert(0 <= b * bs) by (nonlinear_arith)
            requires
                0 <= b,
                0 <= bs,
        ;
    }
    assert forall|a: int|
        0 <= a < s.sb.capacity && (within(a, addr, m.len() as int) || s.honest(
            disk,
            a / s.bs(),
        )) implies #[trigger] shows(s, post, disk, addr, m, a) by {
        lemma_block_of(s, s.held(), a);
        if at.len > 0 {
            lemma_run(addr, at.len as int, a, bs);
        }
        if a / bs != b {
            assert(alike(s, disk, post, disk, a / bs));
        } else {
            assert(post.honest(disk, b));
        }
    }
}

// ---- durability -------------------------------------------------------------

impl Loom {
    /// The lowest dirty frame from `from` on.
    fn next_dirty(&self, from: u32) -> (r: Option<u32>)
        requires
            self.sized(),
            self@.steady(),
        ensures
            match r {
                Some(f) => self@.first_dirty(from as int, f as int),
                None => self@.clean_between(from as int, self@.frames.count() as int),
            },
    {
        let n: usize = self.frames.frame_count();
        let mut i: usize = from as usize;
        while i < n
            invariant
                n == self@.frames.count(),
                n <= u32::MAX,
                from <= i,
                self@.clean_between(from as int, i as int),
            decreases n - i,
        {
            if self.frames.meta(i as u32).dirty {
                return Some(i as u32);
            }
            i = i + 1;
        }
        None
    }

    /// The write that puts a dirty frame's bytes where they belong.
    fn flush_action(&self, f: u32) -> (a: Action)
        requires
            self.sized(),
            self@.steady(),
            self@.frames.has(f),
            self@.frames.meta[f as int].bound(),
        ensures
            is_write(
                a,
                self@.sb.block_start(self@.frames.meta[f as int].block as int),
                self@.frames.data[f as int],
            ),
    {
        let block: u64 = self.frames.meta(f).block;
        proof {
            lemma_block_range(self@.sb, block as int, 1);
        }
        let offset: u64 = self.sb.block_off(block);
        Action::Write { offset, data: vstd::slice::slice_to_vec(self.frames.data(f)) }
    }

    /// The write of a table, with `stage` tables written already.
    fn table_action(&self, stage: u32) -> (a: Action)
        requires
            self@.steady(),
            stage <= 2,
        ensures
            stage == 0 ==> is_write(a, CHECKSUM_TABLE_OFF as int, bytes_of(self@.checksums)),
            stage == 1 ==> is_write(a, REGION_TABLE_OFF as int, region_table(self@.regions)),
            stage == 2 ==> is_write(a, 0, superblock_bytes(self@.sb)),
    {
        if stage == 0 {
            proof {
                lemma_geometry(self@.sb.block_size, self@.sb.capacity, self@.sb.default_budget);
            }
            let b = words_to_buf(self.checksums.as_slice());
            Action::Write {
                offset: CHECKSUM_TABLE_OFF,
                data: vstd::slice::slice_to_vec(b.as_slice()),
            }
        } else if stage == 1 {
            let data: Vec<u8> = match encode_regions(self.regions.as_slice()) {
                Ok(b) => vstd::slice::slice_to_vec(b.as_slice()),
                Err(_) => Vec::new(),
            };
            Action::Write { offset: REGION_TABLE_OFF, data }
        } else {
            let b = self.sb.encode();
            Action::Write { offset: 0, data: vstd::slice::slice_to_vec(b.as_slice()) }
        }
    }

    /// Go on with a sync from frame `from` on.
    fn sync_on(&mut self, from: u32) -> (a: Action)
        requires
            old(self).sized(),
            old(self)@.steady(),
            old(self)@.wait is Nothing,
            old(self)@.job is Sync,
            old(self)@.clean_between(0, from as int),
            from <= old(self)@.frames.count(),
        ensures
            final(self).wf(),
            old(self)@.same_arena(final(self)@),
            old(self)@.sync_next(from as int, final(self)@),
            final(self)@.asks(a),
            final(self)@.sync_left() <= 5 + final(self)@.frames.count() - from,
            keeps(old(self)@, final(self)@, -1),
    {
        let ghost pre = self@;
        match self.next_dirty(from) {
            Some(f) => {
                assert(pre.frames.meta[f as int].bound());
                let a = self.flush_action(f);
                self.pending = Pending::Flush { frame: f, w: Instant::now() };
                proof {
                    assert(self@ =~= pre.waiting(Wait::Flush { frame: f }));
                    assert(!pre.clean_between(from as int, pre.frames.count() as int));
                    assert(pre.first_dirty(from as int, f as int));
                    assert forall|g: int| 0 <= g < f implies !(#[trigger] self@.frames.meta[g]).dirty by {
                        assert(pre.frames.meta[g] == self@.frames.meta[g]);
                    }
                    lemma_same_cells(pre, self@, -1);
                }
                a
            },
            None => {
                proof {
                    assert forall|g: int| 0 <= g < pre.frames.count() implies !(
                    #[trigger] pre.frames.meta[g]).dirty by {}
                }
                if self.dirty_meta {
                    let a = self.table_action(0);
                    self.pending = Pending::Table { stage: 0 };
                    proof {
                        assert(self@ =~= pre.waiting(Wait::Table { stage: 0 }));
                        lemma_first_table(pre, self@);
                    }
                    a
                } else {
                    self.pending = Pending::Barrier;
                    proof {
                        assert(self@ =~= pre.waiting(Wait::Barrier));
                        lemma_same_cells(pre, self@, -1);
                    }
                    Action::Sync
                }
            },
        }
    }

    /// Start making everything durable: write back every dirty frame, then
    /// the checksum table, the region table and the superblock if they
    /// changed, then force to stable storage.
    pub fn sync(&mut self) -> (a: Action)
        requires
            old(self).wf(),
            old(self)@.idle(),
        ensures
            final(self).wf(),
            final(self)@.job is Sync,
            old(self)@.same_pool(final(self)@),
            old(self)@.doing(Job::Sync).sync_next(0, final(self)@),
            final(self)@.asks(a),
            keeps(old(self)@, final(self)@, -1),
    {
        let ghost pre = self@;
        self.task = Task::Sync;
        let ghost go = self@;
        proof {
            assert(go =~= pre.doing(Job::Sync));
            lemma_same_cells(pre, go, -1);
        }
        let a = self.sync_on(0);
        proof {
            lemma_keeps_both(pre, go, self@, -1);
        }
        a
    }

    /// Go on with a sync after the reply it waited for. When it is ready, a
    /// clean reopen sees everything written so far.
    pub fn resume_sync(&mut self, reply: Reply) -> (s: Step<()>)
        requires
            old(self).wf(),
            old(self)@.job is Sync,
            old(self)@.expects(reply),
        ensures
            final(self).wf(),
            old(self)@.same_pool(final(self)@),
            old(self)@.sync_resumed(reply, final(self)@),
            match s {
                Step::Io(a) => {
                    &&& final(self)@.job is Sync
                    &&& final(self)@.asks(a)
                    &&& final(self)@.sync_left() < old(self)@.sync_left()
                },
                Step::Ready(_) => {
                    &&& final(self)@.idle()
                    &&& old(self)@.wait is Barrier
                    &&& !final(self)@.dirty_meta
                    &&& final(self)@.all_clean()
                },
                Step::Failed(e) => final(self)@.idle() && reply == Reply::Failed(e),
            },
            reply is Failed <==> s is Failed,
            reply is Done && old(self)@.wait is Barrier ==> s is Ready,
            keeps_given(old(self)@, reply, final(self)@, -1),
    {
        let ghost pre = self@;
        match reply {
            Reply::Failed(e) => {
                self.pending = Pending::Nothing;
                self.task = Task::Idle;
                proof {
                    assert(self@ =~= pre.waiting(Wait::Nothing).doing(Job::Idle));
                    lemma_same_cells(pre, self@, -1);
                }
                return Step::Failed(e);
            },
            _ => {},
        }
        let ghost s = pre.waiting(Wait::Nothing);
        let mut p = Pending::Nothing;
        core::mem::swap(&mut p, &mut self.pending);
        proof {
            assert(self@ =~= s);
            lemma_same_cells(pre, s, -1);
        }
        match p {
            Pending::Flush { frame, w } => {
                self.finish_flush(frame, &w);
                let ghost c = self@;
                proof {
                    lemma_flush_answered(pre, s, frame, c, reply);
                    assert forall|g: int| 0 <= g < frame + 1 implies !(
                    #[trigger] c.frames.meta[g]).dirty by {
                        if g != frame {
                            assert(c.frames.meta[g] == pre.frames.meta[g]);
                        }
                    }
                }
                let a = self.sync_on(frame + 1);
                proof {
                    assert(s.flushed(frame, c));
                    lemma_keeps_given_both(pre, reply, c, self@, -1);
                }
                Step::Io(a)
            },
            Pending::Table { stage } => {
                if stage < 2 {
                    let a = self.table_action(stage + 1);
                    self.pending = Pending::Table { stage: stage + 1 };
                    proof {
                        assert(self@ =~= pre.waiting(Wait::Table { stage: stage + 1 }));
                        lemma_table_answered(pre, stage as int, self@, reply);
                    }
                    Step::Io(a)
                } else {
                    self.dirty_meta = false;
                    self.pending = Pending::Barrier;
                    proof {
                        assert(self@ =~= (ArenaState {
                            dirty_meta: false,
                            wait: Wait::Barrier,
                            ..pre
                        }));
                        lemma_table_answered(pre, stage as int, self@, reply);
                    }
                    Step::Io(Action::Sync)
                }
            },
            _ => {
                self.task = Task::Idle;
                proof {
                    assert(self@ =~= s.doing(Job::Idle));
                    lemma_same_cells(pre, self@, -1);
                }
                Step::Ready(())
            },
        }
    }

    /// Drop clean frames from `from` on, up to the first dirty one, which has
    /// to be written back first.
    fn evict_on(&mut self, from: u32) -> (s: Step<()>)
        requires
            old(self).sized(),
            old(self)@.steady(),
            old(self)@.wait is Nothing,
            old(self)@.job is Evict,
            from <= old(self)@.frames.count(),
            forall|g: int| 0 <= g < from ==> !(#[trigger] old(self)@.frames.meta[g]).bound(),
        ensures
            final(self).wf(),
            old(self)@.same_pool(final(self)@),
            old(self)@.evict_next(from as int, final(self)@),
            match s {
                Step::Io(a) => {
                    &&& final(self)@.job is Evict
                    &&& final(self)@.asks(a)
                    &&& final(self)@.sync_left() <= 5 + final(self)@.frames.count() - from
                },
                Step::Ready(_) => final(self)@.idle() && final(self)@.all_cold(),
                Step::Failed(_) => false,
            },
            keeps(old(self)@, final(self)@, -1),
    {
        let ghost pre = self@;
        let n: usize = self.frames.frame_count();
        let mut i: usize = from as usize;
        proof {
            lemma_same_cells(pre, pre, -1);
        }
        while i < n
            invariant
                pre == old(self)@,
                n == pre.frames.count(),
                n <= u32::MAX,
                from <= i <= n,
                self.sized(),
                self@.steady(),
                self@.wait is Nothing,
                pre.same_arena(self@),
                pre.job is Evict,
                self@ == pre.emptied(from as int, i as int),
                pre.clean_between(from as int, i as int),
                forall|g: int| 0 <= g < i ==> !(#[trigger] self@.frames.meta[g]).bound(),
                forall|g: int| i <= g < n ==> #[trigger] self@.frames.meta[g] == pre.frames.meta[g],
                keeps(pre, self@, -1),
            decreases n - i,
        {
            let f: u32 = i as u32;
            let m = self.frames.meta(f);
            let ghost mid = self@;
            if m.dirty {
                let a = self.flush_action(f);
                self.pending = Pending::Flush { frame: f, w: Instant::now() };
                proof {
                    assert(self@ =~= mid.waiting(Wait::Flush { frame: f }));
                    assert(pre.frames.meta[f as int].dirty);
                    assert(!pre.clean_between(from as int, n as int));
                    assert(pre.first_dirty(from as int, f as int));
                    assert forall|g: int| 0 <= g < f implies !(
                    #[trigger] self@.frames.meta[g]).bound() by {
                        assert(self@.frames.meta[g] == mid.frames.meta[g]);
                    }
                    lemma_same_cells(mid, self@, -1);
                    lemma_keeps_both(pre, mid, self@, -1);
                }
                return Step::Io(a);
            }
            if m.block != NO_BLOCK {
                proof {
                    lemma_dropped(mid, f);
                }
                self.map[m.block as usize] = NO_FRAME;
                self.frames.release(f);
                self.stats.evictions = bump(self.stats.evictions, 1);
                proof {
                    assert(self@ =~= mid.dropped(f));
                    lemma_keeps_both(pre, mid, self@, -1);
                }
            }
            i = i + 1;
        }
        let ghost mid = self@;
        self.task = Task::Idle;
        proof {
            assert(self@ =~= mid.doing(Job::Idle));
            lemma_same_cells(mid, self@, -1);
            lemma_keeps_both(pre, mid, self@, -1);
            assert forall|g: int| 0 <= g < self@.frames.count() implies !(
            #[trigger] self@.frames.meta[g]).bound() by {
                assert(self@.frames.meta[g] == mid.frames.meta[g]);
            }
            lemma_all_cold(self@);
        }
        Step::Ready(())
    }

    /// Start writing back and dropping every resident frame. Afterwards no
    /// arena bytes are in RAM; the next read of any block is a miss served
    /// from the backing store.
    pub fn evict_all(&mut self) -> (s: Step<()>)
        requires
            old(self).wf(),
            old(self)@.idle(),
        ensures
            final(self).wf(),
            old(self)@.same_pool(final(self)@),
            old(self)@.doing(Job::Evict).evict_next(0, final(self)@),
            match s {
                Step::Io(a) => final(self)@.job is Evict && final(self)@.asks(a),
                Step::Ready(_) => final(self)@.idle() && final(self)@.all_cold(),
                Step::Failed(_) => false,
            },
            keeps(old(self)@, final(self)@, -1),
    {
        let ghost pre = self@;
        self.task = Task::Evict;
        let ghost go = self@;
        proof {
            assert(go =~= pre.doing(Job::Evict));
            lemma_same_cells(pre, go, -1);
        }
        let s = self.evict_on(0);
        proof {
            lemma_keeps_both(pre, go, self@, -1);
        }
        s
    }

    /// Go on with an eviction after the reply it waited for.
    pub fn resume_evict_all(&mut self, reply: Reply) -> (s: Step<()>)
        requires
            old(self).wf(),
            old(self)@.job is Evict,
            old(self)@.expects(reply),
        ensures
            final(self).wf(),
            old(self)@.same_pool(final(self)@),
            old(self)@.evict_resumed(reply, final(self)@),
            match s {
                Step::Io(a) => {
                    &&& final(self)@.job is Evict
                    &&& final(self)@.asks(a)
                    &&& final(self)@.sync_left() < old(self)@.sync_left()
                },
                Step::Ready(_) => final(self)@.idle() && final(self)@.all_cold(),
                Step::Failed(e) => final(self)@.idle() && reply == Reply::Failed(e),
            },
            reply is Failed <==> s is Failed,
            keeps_given(old(self)@, reply, final(self)@, -1),
    {
        let ghost pre = self@;
        match reply {
            Reply::Failed(e) => {
                self.pending = Pending::Nothing;
                self.task = Task::Idle;
                proof {
                    assert(self@ =~= pre.waiting(Wait::Nothing).doing(Job::Idle));
                    lemma_same_cells(pre, self@, -1);
                }
                return Step::Failed(e);
            },
            _ => {},
        }
        let ghost s = pre.waiting(Wait::Nothing);
        let mut p = Pending::Nothing;
        core::mem::swap(&mut p, &mut self.pending);
        proof {
            assert(self@ =~= s);
            lemma_same_cells(pre, s, -1);
        }
        match p {
            Pending::Flush { frame, w } => {
                self.finish_flush(frame, &w);
                let ghost c = self@;
                proof {
                    lemma_flush_answered(pre, s, frame, c, reply);
                    lemma_dropped(c, frame);
                }
                let block: u64 = self.frames.meta(frame).block;
                self.map[block as usize] = NO_FRAME;
                self.frames.release(frame);
                self.stats.evictions = bump(self.stats.evictions, 1);
                let ghost d = self@;
                proof {
                    assert(d =~= c.dropped(frame));
                    lemma_keeps_given_both(pre, reply, c, d, -1);
                    assert forall|g: int| 0 <= g < frame + 1 implies !(
                    #[trigger] d.frames.meta[g]).bound() by {
                        if g != frame {
                            assert(d.frames.meta[g] == pre.frames.meta[g]);
                        }
                    }
                }
                let r = self.evict_on(frame + 1);
                proof {
                    assert(s.flushed(frame, c));
                    lemma_keeps_given_both(pre, reply, d, self@, -1);
                }
                r
            },
            _ => Step::Ready(()),
        }
    }

    /// Overwrite every free frame with `byte` and say how many there were.
    /// After an eviction of everything this destroys any stale copy of arena
    /// data in RAM, so a subsequent correct read proves the bytes came from
    /// the backing store.
    pub fn debug_scribble_free_frames(&mut self, byte: u8) -> (n: usize)
        requires
            old(self).wf(),
            old(self)@.idle(),
        ensures
            final(self).wf(),
            n == old(self)@.frames.free.len(),
            final(self)@ == old(self)@.with_frames(
                PoolState { data: final(self)@.frames.data, ..old(self)@.frames },
            ),
            forall|f: u32| #![trigger final(self)@.frames.data[f as int]]
                old(self)@.frames.has(f) ==> final(self)@.frames.data[f as int] == (
                if old(self)@.frames.is_free(f) {
                    repeated(byte, old(self)@.frames.block_size)
                } else {
                    old(self)@.frames.data[f as int]
                }),
            keeps(old(self)@, final(self)@, -1),
    {
        let ghost pre = self@;
        let n: usize = self.frames.scribble_free(byte);
        proof {
            let none: Seq<u32> = Seq::empty();
            assert(self@ =~= pre.with_frames(self@.frames));
            assert forall|f: int| 0 <= f < pre.frames.meta.len() && (
            #[trigger] pre.frames.meta[f]).bound() implies self@.frames.data[f]
                == pre.frames.data[f] by {
                let g = f as u32;
                assert(placed(pre.frames.meta, pre.frames.free, none, g));
                assert(self@.frames.data[g as int] == pre.frames.data[g as int]);
            }
            lemma_same_holdings(pre, none, self@.frames);
            lemma_same_cells(pre, self@, -1);
        }
        n
    }
}

/// A sync that starts with the tables relies on none of them yet.
proof fn lemma_first_table(pre: ArenaState, post: ArenaState)
    requires
        post == pre.waiting(Wait::Table { stage: 0 }),
        pre.dirty_meta,
    ensures
        keeps(pre, post, -1),
{
    assert forall|disk: Seq<u8>| #[trigger] pre.backed(disk) implies post.backed(disk)
        && alike_but(pre, post, disk, -1) by {
    }
}

/// A table that was written is on disk.
proof fn lemma_table_answered(pre: ArenaState, stage: int, post: ArenaState, reply: Reply)
    requires
        pre.steady(),
        pre.wait == (Wait::Table { stage }),
        reply is Done,
        stage < 2 ==> post == pre.waiting(Wait::Table { stage: stage + 1 }),
        stage == 2 ==> post == (ArenaState { dirty_meta: false, wait: Wait::Barrier, ..pre }),
    ensures
        keeps_given(pre, reply, post, -1),
{
    lemma_geometry(pre.sb.block_size, pre.sb.capacity, pre.sb.default_budget);
    law_regions_roundtrip(pre.regions);
    law_superblock_roundtrip(pre.sb);
    lemma_header_len(pre.sb);
    assert forall|disk: Seq<u8>| #[trigger]
        pre.backed(disk) && pre.answered(disk, reply) implies post.backed(disk) && alike_but(
        pre,
        post,
        disk,
        -1,
    ) by {
    }
}

/// A frame whose write went through is on disk.
proof fn lemma_flush_answered(
    pre: ArenaState,
    s: ArenaState,
    frame: u32,
    post: ArenaState,
    reply: Reply,
)
    requires
        pre.steady(),
        pre.wait == (Wait::Flush { frame }),
        s == pre.waiting(Wait::Nothing),
        reply is Done,
        post.sb == pre.sb,
        keeps(pre, s, -1),
        forall|disk: Seq<u8>| #[trigger]
            s.backed(disk) && s.on_disk(disk, s.frames.meta[frame as int].block as int)
                == s.frames.data[frame as int] ==> post.backed(disk) && alike_but(
                s,
                post,
                disk,
                -1,
            ),
    ensures
        keeps_given(pre, reply, post, -1),
{
    assert(pre.frames.data[frame as int].len() == pre.bs());
    assert forall|disk: Seq<u8>| #[trigger]
        pre.backed(disk) && pre.answered(disk, reply) implies post.backed(disk) && alike_but(
        pre,
        post,
        disk,
        -1,
    ) by {
        assert(s.backed(disk));
        assert(s.on_disk(disk, s.frames.meta[frame as int].block as int)
            == s.frames.data[frame as int]);
        assert(post.backed(disk));
        lemma_alike_both(pre, s, post, disk, -1);
    }
}

// ---- a new arena ------------------------------------------------------------

impl Loom {
    /// An arena with nothing in RAM but the tables.
    pub(crate) fn assemble(
        sb: Superblock,
        regions: Vec<(u64, u64)>,
        checksums: Vec<u64>,
        budget: u64,
        frame_count: usize,
        prefetch_depth: usize,
    ) -> (l: Self)
        requires
            sb.wf(),
            sb.nblocks <= usize::MAX,
            0 < frame_count <= u32::MAX,
            frame_count * sb.block_size <= isize::MAX,
        ensures
            l.sized(),
            l@ == empty_arena(
                sb,
                regions@,
                checksums@,
                budget,
                frame_count as nat,
                prefetch_depth as nat,
            ),
    {
        let bs: usize = sb.block_size as usize;
        proof {
            lemma_whole_units(frame_count as int, bs as int);
        }
        let frames = FramePool::new(frame_count, bs);
        let map: Vec<u32> = vec![NO_FRAME; sb.nblocks as usize];
        let l = Loom {
            sb,
            regions,
            checksums,
            map,
            frames,
            budget,
            stats: Stats::default(),
            dirty_meta: false,
            prefetch_depth,
            last_miss: None,
            seq_run: 0,
            pending: Pending::Nothing,
            task: Task::Idle,
        };
        proof {
            let e = empty_arena(
                sb,
                regions@,
                checksums@,
                budget,
                frame_count as nat,
                prefetch_depth as nat,
            );
            assert(l@.map =~= e.map);
            assert(l@.frames.meta =~= e.frames.meta);
            assert(l@.frames.data =~= e.frames.data);
            assert(l@.frames.free =~= e.frames.free);
            assert(l@.frames =~= e.frames);
        }
        l
    }
}

/// An arena with nothing in RAM but the tables.
pub open spec fn empty_arena(
    sb: Superblock,
    regions: Seq<(u64, u64)>,
    checksums: Seq<u64>,
    budget: u64,
    n: nat,
    prefetch_depth: nat,
) -> ArenaState {
    ArenaState {
        sb,
        regions,
        checksums,
        map: Seq::new(sb.nblocks as nat, |b: int| NO_FRAME),
        frames: PoolState {
            block_size: sb.block_size as nat,
            meta: Seq::new(n, |f: int| FrameMeta::unbound()),
            data: Seq::new(n, |f: int| repeated(0, sb.block_size as nat)),
            free: Seq::new(n, |i: int| (n - 1 - i) as u32),
            hand: 0,
        },
        budget,
        stats: Counters::zero(),
        dirty_meta: false,
        prefetch_depth,
        last_miss: None,
        seq_run: 0,
        wait: Wait::Nothing,
        job: Job::Idle,
    }
}

/// Frames of whole I/O units make a buffer of whole I/O units.
proof fn lemma_whole_units(n: int, bs: int)
    requires
        bs % (IO_ALIGN as int) == 0,
    ensures
        (n * bs) % (IO_ALIGN as int) == 0,
{
    let u = IO_ALIGN as int;
    vstd::arithmetic::div_mod::lemma_fundamental_div_mod(bs, u);
    let q = bs / u;
    assert(n * (u * q) == (n * q) * u) by (nonlinear_arith);
    vstd::arithmetic::div_mod::lemma_mod_multiples_basic(n * q, u);
}

/// Where the next region starts: at the first block boundary behind the last
/// one.
pub open spec fn next_free(s: ArenaState) -> int {
    if s.regions.len() == 0 {
        0
    } else {
        rounded_up(s.regions.last().0 + s.regions.last().1, s.bs())
    }
}

/// Why a region is refused.
pub open spec fn alloc_refused(s: ArenaState, len: u64, e: LoomError) -> bool {
    if len == 0 {
        e matches LoomError::Invalid(t) && t@ == "alloc of zero bytes"@
    } else if s.regions.len() >= MAX_REGIONS {
        e == (LoomError::RegionTableFull { max: MAX_REGIONS })
    } else if next_free(s) + rounded_up(len as int, s.bs()) > u64::MAX {
        e matches LoomError::Invalid(t) && t@ == "region length overflow"@
    } else {
        &&& next_free(s) + rounded_up(len as int, s.bs()) > s.sb.capacity
        &&& e == (LoomError::Capacity {
            requested: len,
            available: (s.sb.capacity - next_free(s)) as u64,
        })
    }
}

/// The region is one of the arena's, and the range lies inside it.
pub open spec fn in_region(s: ArenaState, r: Region, off: int, len: int) -> bool {
    &&& r.id < s.regions.len()
    &&& s.regions[r.id as int] == (r.offset, r.len)
    &&& off + len <= r.len
}

/// Bytes of bookkeeping in RAM, capped at 64 bits.
pub open spec fn metadata_size(s: ArenaState) -> u64 {
    capped(
        (4 * s.map.len() + s.sb.checksum_table_len + REGION_TABLE_LEN + s.frames.count()
            * vstd::layout::size_of::<FrameMeta>() + if s.prefetch_depth > 1 {
            s.prefetch_depth * s.bs()
        } else {
            0
        }) as u128,
    )
}

} // verus!
