//! The arena as mathematics.
//!
//! [`ArenaState`] is what an arena holds in RAM. A pool file is a sequence
//! of bytes, `disk`. Together they determine the content of every logical
//! block: a resident block is what its frame holds, a block never written is
//! zeros, any other block is what the file holds. [`ArenaState::honest`] says
//! when RAM and file agree about a block well enough for that to be the
//! truth. A block that was damaged on disk says nothing against the others.

use crate::bytes::{overlay, repeated};
use crate::checksum::{checksum_of, UNWRITTEN};
use crate::error::LoomError;
use crate::frames::{FrameMeta, PoolState};
use crate::io::{is_read, is_write, Action, Reply, Step};
use crate::stats::{bumped, Counters};
use crate::superblock::{
    read_header, region_table, superblock_bytes, Header, Superblock, CHECKSUM_TABLE_OFF,
    MAX_REGIONS, REGION_TABLE_OFF,
};
use crate::words::bytes_of;
use vstd::prelude::*;

verus! {

/// The map entry of a block that is in no frame.
pub const NO_FRAME: u32 = u32::MAX;

/// A sequential run must be this long before speculating. Two consecutive
/// blocks is a coincidence; three is a pattern. Guessing earlier wastes
/// bandwidth on random workloads.
pub const SEQ_RUN_THRESHOLD: u32 = 3;

/// Where the bytes of a block are.
#[verifier::ext_equal]
pub enum Cell {
    /// Not in RAM.
    Cold,
    /// In a frame, equal to the backing store.
    Clean(Seq<u8>),
    /// In a frame, and nowhere else.
    Dirty(Seq<u8>),
}

/// What the arena waits for the driver to do.
#[verifier::ext_equal]
pub enum Wait {
    /// Nothing.
    Nothing,
    /// A speculative read of `count` blocks from `block` on. The claimed
    /// frames are in nobody's hands but the read's.
    Batch { block: u64, count: u64, claimed: Seq<(u64, u32)> },
    /// The writeback of a dirty victim, to make room for `block`.
    Victim { block: u64, full: bool, victim: u32 },
    /// The read of `block`, for a frame taken for it.
    Load { block: u64, frame: u32 },
    /// The writeback of a dirty frame.
    Flush { frame: u32 },
    /// The write of a table, with `stage` tables written already.
    Table { stage: int },
    /// Stable storage.
    Barrier,
}

/// The operation under way.
pub enum Job {
    /// None.
    Idle,
    /// Copying `len` bytes from `start` on out of the arena.
    Read { start: u64, len: int, done: int },
    /// Copying `len` bytes into the arena, from `start` on.
    Write { start: u64, len: int, done: int },
    /// Looking for `len` bytes at `start`, all in one block.
    Find { start: u64, len: int },
    /// Making everything durable.
    Sync,
    /// Emptying the hot tier.
    Evict,
}

/// Frame and block agree about who holds whom, and a dirty frame holds a
/// block.
pub open spec fn linked(map: Seq<u32>, meta: Seq<FrameMeta>) -> bool {
    &&& forall|b: int| 0 <= b < map.len() && #[trigger] map[b] != NO_FRAME ==> map[b] < meta.len()
        && meta[map[b] as int].block == b
    &&& forall|f: int| 0 <= f < meta.len() && (#[trigger] meta[f]).bound() ==> meta[f].block
        < map.len() && map[meta[f].block as int] == f
    &&& forall|f: int| 0 <= f < meta.len() && (#[trigger] meta[f]).dirty ==> meta[f].bound()
}

/// A frame is in exactly one place: it holds a block, it is on the free
/// list, or the operation under way has it.
pub open spec fn placed(meta: Seq<FrameMeta>, free: Seq<u32>, held: Seq<u32>, f: u32) -> bool {
    if meta[f as int].bound() {
        !free.contains(f) && !held.contains(f)
    } else {
        free.contains(f) != held.contains(f)
    }
}

/// Every frame is in exactly one place.
pub open spec fn accounted(meta: Seq<FrameMeta>, free: Seq<u32>, held: Seq<u32>) -> bool {
    &&& free.no_duplicates()
    &&& held.no_duplicates()
    &&& forall|i: int| 0 <= i < held.len() ==> (#[trigger] held[i]) < meta.len()
    &&& forall|f: u32| f < meta.len() ==> #[trigger] placed(meta, free, held, f)
}

/// Every region lies inside the arena.
pub open spec fn regions_fit(regions: Seq<(u64, u64)>, capacity: u64) -> bool {
    &&& regions.len() <= MAX_REGIONS
    &&& forall|i: int| 0 <= i < regions.len() ==> (#[trigger] regions[i]).0 + regions[i].1
        <= capacity
}

/// The frames of a claim.
pub open spec fn claimed_frames(claimed: Seq<(u64, u32)>) -> Seq<u32> {
    Seq::new(claimed.len(), |i: int| claimed[i].1)
}

/// What an open arena holds in RAM.
#[verifier::ext_equal]
pub struct ArenaState {
    /// The pool's geometry.
    pub sb: Superblock,
    /// Offset and length of every region.
    pub regions: Seq<(u64, u64)>,
    /// The checksum table, padding included.
    pub checksums: Seq<u64>,
    /// Per block, the frame that holds it, or [`NO_FRAME`].
    pub map: Seq<u32>,
    /// The frame pool.
    pub frames: PoolState,
    /// The hot budget.
    pub budget: u64,
    /// The counters.
    pub stats: Counters,
    /// The tables in RAM may differ from those on disk.
    pub dirty_meta: bool,
    /// Blocks per speculative read.
    pub prefetch_depth: nat,
    /// The block the last miss was taken on.
    pub last_miss: Option<u64>,
    /// How long the ascending run of misses is.
    pub seq_run: u32,
    /// What the arena waits for.
    pub wait: Wait,
    /// The operation under way.
    pub job: Job,
}

impl ArenaState {
    // ---- validity -------------------------------------------------------

    /// Bytes per block.
    pub open spec fn bs(self) -> int {
        self.sb.block_size as int
    }

    /// Blocks in the arena.
    pub open spec fn nblocks(self) -> int {
        self.sb.nblocks as int
    }

    /// The block is in a frame.
    pub open spec fn resident(self, b: int) -> bool {
        0 <= b < self.map.len() && self.map[b] != NO_FRAME
    }

    /// Structural validity while an operation has the frames in `held`.
    pub open spec fn valid(self, held: Seq<u32>) -> bool {
        &&& self.sb.wf()
        &&& self.sb.file_end() <= u64::MAX
        &&& self.sb.nblocks <= usize::MAX
        &&& self.sb.checksum_table_len <= isize::MAX
        &&& self.frames.wf()
        &&& self.frames.block_size == self.sb.block_size
        &&& self.frames.count() * self.sb.block_size <= self.budget
        &&& self.frames.count() * self.sb.block_size <= isize::MAX
        &&& self.map.len() == self.sb.nblocks
        &&& 8 * self.checksums.len() == self.sb.checksum_table_len
        &&& regions_fit(self.regions, self.sb.capacity)
        &&& linked(self.map, self.frames.meta)
        &&& accounted(self.frames.meta, self.frames.free, held)
        &&& self.stats.wf()
        &&& 4 * self.prefetch_depth <= self.frames.count()
        &&& self.last_miss matches Some(b) ==> b < self.sb.nblocks
    }

    /// The frames the operation under way has.
    pub open spec fn held(self) -> Seq<u32> {
        match self.wait {
            Wait::Batch { block, count, claimed } => claimed_frames(claimed),
            Wait::Load { block, frame } => seq![frame],
            _ => Seq::empty(),
        }
    }

    /// A claim for a speculative read of `count` blocks from `first` on:
    /// `first` itself and some of the others, in order, none resident.
    pub open spec fn good_claim(self, first: int, count: int, claimed: Seq<(u64, u32)>) -> bool {
        &&& 0 < claimed.len() <= count
        &&& claimed[0].0 == first
        &&& forall|i: int| 0 <= i < claimed.len() ==> first <= (#[trigger] claimed[i]).0 < first
            + count && !self.resident(claimed[i].0 as int)
        &&& forall|i: int, j: int| 0 <= i < j < claimed.len() ==> (#[trigger] claimed[i]).0 < (
        #[trigger] claimed[j]).0
    }

    /// What is waited for makes sense.
    pub open spec fn wait_ok(self) -> bool {
        match self.wait {
            Wait::Nothing => true,
            Wait::Batch { block, count, claimed } => {
                &&& 2 <= count <= self.prefetch_depth
                &&& block + count <= self.sb.nblocks
                &&& !self.resident(block as int)
                &&& self.checksums[block as int] != UNWRITTEN
                &&& self.good_claim(block as int, count as int, claimed)
            },
            Wait::Victim { block, full, victim } => {
                &&& block < self.sb.nblocks
                &&& !self.resident(block as int)
                &&& self.frames.has(victim)
                &&& self.frames.meta[victim as int].dirty
                &&& self.frames.free.len() == 0
            },
            Wait::Load { block, frame } => {
                &&& block < self.sb.nblocks
                &&& !self.resident(block as int)
                &&& self.frames.has(frame)
                &&& self.checksums[block as int] != UNWRITTEN
            },
            Wait::Flush { frame } => {
                &&& self.frames.has(frame)
                &&& self.frames.meta[frame as int].dirty
            },
            Wait::Table { stage } => 0 <= stage <= 2 && self.dirty_meta,
            Wait::Barrier => !self.dirty_meta,
        }
    }

    /// Validity but for what the operation under way says of itself.
    pub open spec fn steady(self) -> bool {
        &&& self.valid(self.held())
        &&& self.wait_ok()
    }

    /// The block a lookup waits for.
    pub open spec fn sought(self) -> Option<int> {
        match self.wait {
            Wait::Batch { block, count, claimed } => Some(block as int),
            Wait::Victim { block, full, victim } => Some(block as int),
            Wait::Load { block, frame } => Some(block as int),
            _ => None,
        }
    }

    /// The lookup under way is for a block that will be overwritten whole.
    pub open spec fn sought_full(self) -> bool {
        self.wait matches Wait::Victim { block, full, victim } && full
    }

    /// How many of the bytes from `at` on, at most `left`, are in the block
    /// of `at`.
    pub open spec fn run_at(self, at: int, left: int) -> int {
        if self.bs() - at % self.bs() < left {
            self.bs() - at % self.bs()
        } else {
            left
        }
    }

    /// The bytes from `at` on, at most `left`, cover the block of `at` whole.
    pub open spec fn covers(self, at: int, left: int) -> bool {
        at % self.bs() == 0 && left >= self.bs()
    }

    /// The block that a copy of `left` bytes to `at` overwrites whole before
    /// anything else, or -1.
    pub open spec fn blanked(self, at: int, left: int) -> int {
        if self.covers(at, left) {
            at / self.bs()
        } else {
            -1
        }
    }

    /// No frame is dirty.
    pub open spec fn all_clean(self) -> bool {
        forall|f: int| 0 <= f < self.frames.count() ==> !(#[trigger] self.frames.meta[f]).dirty
    }

    /// The operation under way fits what is waited for.
    pub open spec fn job_ok(self) -> bool {
        match self.job {
            Job::Idle => self.wait is Nothing,
            Job::Read { start, len, done } => {
                &&& start + len <= self.sb.capacity
                &&& 0 <= done < len <= usize::MAX
                &&& self.sought() == Some((start + done) / self.bs())
                &&& !self.sought_full()
            },
            Job::Write { start, len, done } => {
                &&& start + len <= self.sb.capacity
                &&& 0 <= done < len <= usize::MAX
                &&& self.sought() == Some((start + done) / self.bs())
                &&& self.sought_full() ==> self.covers(start + done, len - done)
            },
            Job::Find { start, len } => {
                &&& start < self.sb.capacity
                &&& 0 < len <= self.bs() - start as int % self.bs()
                &&& self.sought() == Some(start as int / self.bs())
                &&& !self.sought_full()
            },
            Job::Sync => match self.wait {
                Wait::Flush { frame } => forall|f: int|
                    0 <= f < frame ==> !(#[trigger] self.frames.meta[f]).dirty,
                Wait::Table { stage } => self.all_clean(),
                Wait::Barrier => self.all_clean(),
                _ => false,
            },
            Job::Evict => match self.wait {
                Wait::Flush { frame } => forall|f: int|
                    0 <= f < frame ==> !(#[trigger] self.frames.meta[f]).bound(),
                _ => false,
            },
        }
    }

    /// Validity of an arena.
    pub open spec fn wf(self) -> bool {
        &&& self.steady()
        &&& self.job_ok()
    }

    /// No operation is under way.
    pub open spec fn idle(self) -> bool {
        self.job is Idle
    }

    // ---- what the driver is asked to do ---------------------------------

    /// The action that is waited for.
    pub open spec fn asks(self, a: Action) -> bool {
        match self.wait {
            Wait::Nothing => false,
            Wait::Batch { block, count, claimed } => is_read(
                a,
                self.sb.block_start(block as int),
                count * self.bs(),
            ),
            Wait::Victim { block, full, victim } => is_write(
                a,
                self.sb.block_start(self.frames.meta[victim as int].block as int),
                self.frames.data[victim as int],
            ),
            Wait::Load { block, frame } => is_read(a, self.sb.block_start(block as int), self.bs()),
            Wait::Flush { frame } => is_write(
                a,
                self.sb.block_start(self.frames.meta[frame as int].block as int),
                self.frames.data[frame as int],
            ),
            Wait::Table { stage } => if stage == 0 {
                is_write(a, CHECKSUM_TABLE_OFF as int, bytes_of(self.checksums))
            } else if stage == 1 {
                is_write(a, REGION_TABLE_OFF as int, region_table(self.regions))
            } else {
                is_write(a, 0, superblock_bytes(self.sb))
            },
            Wait::Barrier => a is Sync,
        }
    }

    /// Where the range starts that is to be read or written.
    pub open spec fn span_start(self) -> int {
        match self.wait {
            Wait::Batch { block, count, claimed } => self.sb.block_start(block as int),
            Wait::Victim { block, full, victim } => self.sb.block_start(
                self.frames.meta[victim as int].block as int,
            ),
            Wait::Load { block, frame } => self.sb.block_start(block as int),
            Wait::Flush { frame } => self.sb.block_start(
                self.frames.meta[frame as int].block as int,
            ),
            Wait::Table { stage } => if stage == 0 {
                CHECKSUM_TABLE_OFF as int
            } else if stage == 1 {
                REGION_TABLE_OFF as int
            } else {
                0
            },
            _ => 0,
        }
    }

    /// How long it is, if it is to be read.
    pub open spec fn span_read(self) -> int {
        match self.wait {
            Wait::Batch { block, count, claimed } => count * self.bs(),
            Wait::Load { block, frame } => self.bs(),
            _ => 0,
        }
    }

    /// The bytes that are to be written there.
    pub open spec fn span_written(self) -> Seq<u8> {
        match self.wait {
            Wait::Victim { block, full, victim } => self.frames.data[victim as int],
            Wait::Flush { frame } => self.frames.data[frame as int],
            Wait::Table { stage } => if stage == 0 {
                bytes_of(self.checksums)
            } else if stage == 1 {
                region_table(self.regions)
            } else {
                superblock_bytes(self.sb)
            },
            _ => Seq::empty(),
        }
    }

    /// A read is waited for.
    pub open spec fn reading(self) -> bool {
        self.wait is Batch || self.wait is Load
    }

    /// The reply is one the action can have.
    pub open spec fn expects(self, reply: Reply) -> bool {
        match reply {
            Reply::Bytes(b) => self.reading() && b@.len() == self.span_read(),
            Reply::Done => !self.reading(),
            Reply::Failed(_) => true,
        }
    }

    /// The reply is the truth about the file as it is after the action: the
    /// bytes that were read are there, the bytes that were written are there.
    pub open spec fn answered(self, disk: Seq<u8>, reply: Reply) -> bool {
        match reply {
            Reply::Bytes(b) => b@ == disk.subrange(
                self.span_start(),
                self.span_start() + self.span_read(),
            ),
            Reply::Done => disk.subrange(
                self.span_start(),
                self.span_start() + self.span_written().len(),
            ) == self.span_written(),
            Reply::Failed(_) => true,
        }
    }

    /// `after` differs from `disk` at most where the action may write,
    /// whether or not it went through.
    pub open spec fn confined(self, disk: Seq<u8>, after: Seq<u8>) -> bool {
        &&& after.len() == disk.len()
        &&& forall|i: int|
            0 <= i < disk.len() && !(self.span_start() <= i < self.span_start()
                + self.span_written().len()) ==> #[trigger] after[i] == disk[i]
    }

    // ---- content --------------------------------------------------------

    /// Where the bytes of block `b` are.
    pub open spec fn cell(self, b: int) -> Cell {
        if self.map[b] == NO_FRAME {
            Cell::Cold
        } else {
            let f = self.map[b] as int;
            if self.frames.meta[f].dirty {
                Cell::Dirty(self.frames.data[f])
            } else {
                Cell::Clean(self.frames.data[f])
            }
        }
    }

    /// The bytes the file holds for block `b`.
    pub open spec fn on_disk(self, disk: Seq<u8>, b: int) -> Seq<u8> {
        disk.subrange(self.sb.block_start(b), self.sb.block_start(b) + self.bs())
    }

    /// The content of block `b` as far as the file is concerned: zeros if it
    /// was never written.
    pub open spec fn cold(self, disk: Seq<u8>, b: int) -> Seq<u8> {
        if self.checksums[b] == UNWRITTEN {
            repeated(0, self.bs() as nat)
        } else {
            self.on_disk(disk, b)
        }
    }

    /// The content of block `b`.
    pub open spec fn block(self, disk: Seq<u8>, b: int) -> Seq<u8> {
        match self.cell(b) {
            Cell::Cold => self.cold(disk, b),
            Cell::Clean(v) => v,
            Cell::Dirty(v) => v,
        }
    }

    /// The byte at arena address `a`.
    pub open spec fn byte(self, disk: Seq<u8>, a: int) -> u8 {
        self.block(disk, a / self.bs())[a % self.bs()]
    }

    /// The `n` bytes from arena address `a` on.
    pub open spec fn contents(self, disk: Seq<u8>, a: int, n: int) -> Seq<u8> {
        Seq::new(n as nat, |i: int| self.byte(disk, a + i))
    }

    // ---- agreement of RAM and file --------------------------------------

    /// The file's bytes of block `b` have the checksum the table has for it.
    pub open spec fn checks_out(self, disk: Seq<u8>, b: int) -> bool {
        self.checksums[b] != UNWRITTEN ==> checksum_of(self.on_disk(disk, b)) == self.checksums[b]
    }

    /// Unless RAM has the only copy of block `b`, the file's copy is intact,
    /// and a copy in RAM is the same.
    pub open spec fn honest(self, disk: Seq<u8>, b: int) -> bool {
        match self.cell(b) {
            Cell::Cold => self.checks_out(disk, b),
            Cell::Clean(v) => self.checks_out(disk, b) && v == self.cold(disk, b),
            Cell::Dirty(v) => true,
        }
    }

    /// The checksum table is on disk.
    pub open spec fn checksums_on(self, disk: Seq<u8>) -> bool {
        disk.subrange(
            CHECKSUM_TABLE_OFF as int,
            CHECKSUM_TABLE_OFF + self.sb.checksum_table_len,
        ) == bytes_of(self.checksums)
    }

    /// The region table is on disk.
    pub open spec fn regions_on(self, disk: Seq<u8>) -> bool {
        disk.subrange(REGION_TABLE_OFF as int, CHECKSUM_TABLE_OFF as int) == region_table(
            self.regions,
        )
    }

    /// The superblock is on disk.
    pub open spec fn header_on(self, disk: Seq<u8>) -> bool {
        read_header(disk.subrange(0, REGION_TABLE_OFF as int)) == Header::Valid(self.sb)
    }

    /// The tables that are on disk, as far as the arena relies on it: all of
    /// them when nothing changed since they were written, otherwise those
    /// that the sync under way has written.
    pub open spec fn tables_on(self, disk: Seq<u8>) -> bool {
        &&& !self.dirty_meta ==> self.checksums_on(disk) && self.regions_on(disk)
            && self.header_on(disk)
        &&& self.wait matches Wait::Table { stage } ==> (stage >= 1 ==> self.checksums_on(disk))
            && (stage >= 2 ==> self.regions_on(disk))
    }

    /// The file is a pool's: it has the pool's length, and the tables that
    /// the arena relies on.
    pub open spec fn backed(self, disk: Seq<u8>) -> bool {
        &&& disk.len() == self.sb.file_end()
        &&& self.tables_on(disk)
    }

    /// RAM and file agree about every block.
    pub open spec fn sound(self, disk: Seq<u8>) -> bool {
        &&& self.backed(disk)
        &&& forall|b: int| 0 <= b < self.nblocks() ==> #[trigger] self.honest(disk, b)
    }

    /// The file alone holds everything: a reopen sees the same arena.
    pub open spec fn durable(self, disk: Seq<u8>) -> bool {
        &&& self.backed(disk)
        &&& !self.dirty_meta
        &&& self.all_clean()
    }

    // ---- what one step does ---------------------------------------------

    /// The run detector after a miss on `block`.
    pub open spec fn noted(self, block: u64) -> Self {
        ArenaState {
            seq_run: if self.last_miss == Some((block - 1) as u64) && block > 0 {
                if self.seq_run < u32::MAX {
                    (self.seq_run + 1) as u32
                } else {
                    u32::MAX
                }
            } else {
                1
            },
            last_miss: Some(block),
            ..self
        }
    }

    /// Blocks a speculative read from `block` on covers.
    pub open spec fn batch_len(self, block: int) -> int {
        if self.prefetch_depth < self.nblocks() - block {
            self.prefetch_depth as int
        } else {
            self.nblocks() - block
        }
    }

    /// A miss on `block` leads to a speculative read: the block was written,
    /// the run is long enough, there is more than one block to read, and a
    /// frame can be had without a writeback.
    pub open spec fn speculates(self, block: int) -> bool {
        &&& self.checksums[block] != UNWRITTEN
        &&& self.prefetch_depth > 1
        &&& self.seq_run >= SEQ_RUN_THRESHOLD
        &&& self.batch_len(block) >= 2
        &&& self.frames.free.len() > 0 || self.frames.some_eligible(true)
    }

    /// Another frame pool.
    pub open spec fn with_frames(self, frames: PoolState) -> Self {
        ArenaState { frames, ..self }
    }

    /// Other counters.
    pub open spec fn with_stats(self, stats: Counters) -> Self {
        ArenaState { stats, ..self }
    }

    /// Waiting for something else.
    pub open spec fn waiting(self, wait: Wait) -> Self {
        ArenaState { wait, ..self }
    }

    /// Another operation under way.
    pub open spec fn doing(self, job: Job) -> Self {
        ArenaState { job, ..self }
    }

    /// Frame `f` taken from the block it holds.
    pub open spec fn evicted(self, f: u32) -> Self {
        ArenaState {
            map: self.map.update(self.frames.meta[f as int].block as int, NO_FRAME),
            frames: self.frames.with_meta(f, FrameMeta::unbound()),
            stats: Counters { evictions: bumped(self.stats.evictions, 1), ..self.stats },
            ..self
        }
    }

    /// Frame `f` filled with `bytes` and bound to `block`.
    pub open spec fn bound_to(self, f: u32, bytes: Seq<u8>, m: FrameMeta) -> Self {
        ArenaState {
            map: self.map.update(m.block as int, f),
            frames: self.frames.with_data(f, bytes).with_meta(f, m),
            ..self
        }
    }

    /// Frame `f` written back. Only the measured latency is left open.
    pub open spec fn flushed(self, f: u32, after: Self) -> bool {
        let b = self.frames.meta[f as int].block as int;
        &&& self.stats.writeback_latency.measured(after.stats.writeback_latency)
        &&& after == ArenaState {
            checksums: self.checksums.update(b, checksum_of(self.frames.data[f as int])),
            dirty_meta: true,
            frames: self.frames.with_meta(
                f,
                FrameMeta { dirty: false, ..self.frames.meta[f as int] },
            ),
            stats: Counters {
                writebacks: bumped(self.stats.writebacks, 1),
                bytes_written_backing: bumped(self.stats.bytes_written_backing, self.bs()),
                writeback_latency: after.stats.writeback_latency,
                ..self.stats
            },
            ..self
        }
    }

    /// Frame `f` given other bytes, and marked so.
    pub open spec fn rewritten(self, f: u32, bytes: Seq<u8>) -> Self {
        self.with_frames(
            self.frames.with_data(f, bytes).with_meta(
                f,
                FrameMeta { dirty: true, ..self.frames.meta[f as int] },
            ),
        )
    }

    /// A hit on frame `f`. Only the measured latency is left open.
    pub open spec fn hit(self, f: u32, after: Self) -> bool {
        let m = self.frames.meta[f as int];
        &&& self.stats.hit_latency.measured(after.stats.hit_latency)
        &&& after == ArenaState {
            frames: self.frames.with_meta(
                f,
                FrameMeta { prefetched: false, referenced: true, ..m },
            ),
            stats: Counters {
                prefetch_used: bumped(self.stats.prefetch_used, if m.prefetched { 1 } else { 0 }),
                hits: bumped(self.stats.hits, 1),
                hit_latency: after.stats.hit_latency,
                ..self.stats
            },
            ..self
        }
    }

    /// The miss counted. Only the measured latency is left open.
    pub open spec fn missed(self, after: Self) -> bool {
        &&& self.stats.miss_latency.measured(after.stats.miss_latency)
        &&& after == self.with_stats(
            Counters {
                misses: bumped(self.stats.misses, 1),
                miss_latency: after.stats.miss_latency,
                ..self.stats
            },
        )
    }

    /// Frames can no longer be had without a writeback.
    pub open spec fn exhausted(self) -> bool {
        self.frames.free.len() == 0 && !self.frames.some_eligible(true)
    }

    /// Block `b` is in the frame it was in, with the same bytes.
    pub open spec fn stays(self, b: int, after: Self) -> bool {
        &&& self.resident(b)
        &&& after.map[b] == self.map[b]
        &&& after.cell(b) == self.cell(b)
    }

    /// Frame `f` had for speculation: a free one, else the one CLOCK takes
    /// among the clean ones, whose block goes cold.
    pub open spec fn spared(self, f: u32, after: Self) -> bool {
        if self.frames.free.len() > 0 {
            &&& f == self.frames.free.last()
            &&& after == self.with_frames(self.frames.popped())
        } else {
            &&& self.frames.clock_takes(f as int, true)
            &&& after == self.with_frames(self.frames.swept(f as int, true)).evicted(f)
        }
    }

    /// A claim that has come to `had` goes on with block `b`: a block in RAM
    /// is passed over, any other gets a frame, until none can be had.
    pub open spec fn claims_on(
        self,
        had: Seq<(u64, u32)>,
        b: int,
        end: int,
        claimed: Seq<(u64, u32)>,
        after: Self,
    ) -> bool
        decreases end - b,
    {
        if b >= end {
            claimed == had && after == self
        } else if self.resident(b) {
            self.claims_on(had, b + 1, end, claimed, after)
        } else if self.exhausted() {
            claimed == had && after == self
        } else {
            exists|f: u32, mid: Self| #[trigger]
                self.spared(f, mid) && mid.claims_on(
                    had.push((b as u64, f)),
                    b + 1,
                    end,
                    claimed,
                    after,
                )
        }
    }

    /// Frames claimed for a speculative read of the blocks from `block` on.
    /// Free frames go first, then clean ones, whose blocks go cold. So no
    /// dirty frame is touched, and every block that was in no frame gets one,
    /// as long as there are frames to be had.
    pub open spec fn claimed_for(
        self,
        block: int,
        count: int,
        claimed: Seq<(u64, u32)>,
        after: Self,
    ) -> bool {
        &&& self.claims_on(Seq::empty(), block, block + count, claimed, after)
        &&& after == (ArenaState {
            map: after.map,
            frames: PoolState {
                meta: after.frames.meta,
                free: after.frames.free,
                hand: after.frames.hand,
                ..self.frames
            },
            stats: Counters {
                evictions: bumped(
                    self.stats.evictions,
                    claimed.len() - (self.frames.free.len() - after.frames.free.len()),
                ),
                ..self.stats
            },
            ..self
        })
        &&& after.good_claim(block, count, claimed)
        &&& forall|f: int|
            0 <= f < self.frames.count() && (#[trigger] self.frames.meta[f]).dirty
                ==> after.frames.meta[f] == self.frames.meta[f]
        &&& forall|f: int|
            0 <= f < self.frames.count() ==> (#[trigger] after.frames.meta[f])
                == self.frames.meta[f] || after.frames.meta[f] == self.frames.meta[f].aged()
                || after.frames.meta[f] == FrameMeta::unbound()
        &&& forall|b: int| #[trigger] after.resident(b) ==> self.stays(b, after)
        &&& forall|b: int|
            block <= b < block + count && !(#[trigger] self.resident(b)) && !in_claim(claimed, b)
                ==> after.exhausted()
    }

    /// A claimed frame filled from the `bytes` that were read for the blocks
    /// from `first` on. A block never written is zeros whatever was read; one
    /// that fails its checksum gives its frame back, because nobody asked for
    /// it.
    pub open spec fn admitted_one(self, first: int, bytes: Seq<u8>, b: u64, f: u32) -> Self {
        let m = FrameMeta { block: b, dirty: false, referenced: false, prefetched: true };
        if self.checksums[b as int] == UNWRITTEN {
            self.bound_to(f, repeated(0, self.bs() as nat), m)
        } else if checksum_of(self.read_of(first, bytes, b as int)) != self.checksums[b as int] {
            self.with_frames(self.frames.released(f))
        } else {
            self.bound_to(f, self.read_of(first, bytes, b as int), m)
        }
    }

    /// The bytes for block `b` among those read for the blocks from `first`
    /// on.
    pub open spec fn read_of(self, first: int, bytes: Seq<u8>, b: int) -> Seq<u8> {
        bytes.subrange((b - first) * self.bs(), (b - first) * self.bs() + self.bs())
    }

    /// What was read for block `b` can be admitted.
    pub open spec fn admissible(self, first: int, bytes: Seq<u8>, b: int) -> bool {
        self.checksums[b] == UNWRITTEN || checksum_of(self.read_of(first, bytes, b))
            == self.checksums[b]
    }

    /// The first `n` claims of a speculative read served.
    pub open spec fn admitted(
        self,
        first: int,
        bytes: Seq<u8>,
        claimed: Seq<(u64, u32)>,
        n: int,
    ) -> Self
        decreases n,
    {
        if n <= 0 {
            self
        } else {
            self.admitted(first, bytes, claimed, n - 1).admitted_one(
                first,
                bytes,
                claimed[n - 1].0,
                claimed[n - 1].1,
            )
        }
    }

    /// How many of the first `n` claims were served.
    pub open spec fn admissions(
        self,
        first: int,
        bytes: Seq<u8>,
        claimed: Seq<(u64, u32)>,
        n: int,
    ) -> int
        decreases n,
    {
        if n <= 0 {
            0
        } else {
            self.admissions(first, bytes, claimed, n - 1) + if self.admissible(
                first,
                bytes,
                claimed[n - 1].0 as int,
            ) {
                1int
            } else {
                0int
            }
        }
    }

    /// The first `n` claimed frames given back.
    pub open spec fn unclaimed(self, claimed: Seq<(u64, u32)>, n: int) -> Self
        decreases n,
    {
        if n <= 0 {
            self
        } else {
            let s = self.unclaimed(claimed, n - 1);
            s.with_frames(s.frames.released(claimed[n - 1].1))
        }
    }

    /// A speculative read of `count` blocks from `first` on served.
    pub open spec fn batch_served(
        self,
        first: int,
        count: int,
        bytes: Seq<u8>,
        claimed: Seq<(u64, u32)>,
    ) -> Self {
        let n = claimed.len() as int;
        let s = self.admitted(first, bytes, claimed, n);
        s.with_stats(
            Counters {
                prefetch_batches: bumped(s.stats.prefetch_batches, 1),
                bytes_read_backing: bumped(s.stats.bytes_read_backing, count * self.bs()),
                prefetch_blocks: bumped(
                    s.stats.prefetch_blocks,
                    self.admissions(first, bytes, claimed, n),
                ),
                ..s.stats
            },
        )
    }

    /// The bookkeeping of a frame that was filled because it was asked for.
    pub open spec fn wanted(block: u64) -> FrameMeta {
        FrameMeta { block, dirty: false, referenced: true, prefetched: false }
    }

    /// A frame in hand for `block`. One that will be overwritten whole needs
    /// no bytes, one never written is zeros; otherwise they are read.
    pub open spec fn brought_in(self, block: u64, full: bool, f: u32, after: Self) -> bool {
        if full {
            self.bound_to(f, self.frames.data[f as int], Self::wanted(block)).with_stats(
                Counters { full_overwrites: bumped(self.stats.full_overwrites, 1), ..self.stats },
            ).missed(after)
        } else if self.checksums[block as int] == UNWRITTEN {
            self.bound_to(f, repeated(0, self.bs() as nat), Self::wanted(block)).with_stats(
                Counters { zero_fills: bumped(self.stats.zero_fills, 1), ..self.stats },
            ).missed(after)
        } else {
            after == self.waiting(Wait::Load { block, frame: f })
        }
    }

    /// A victim taken by CLOCK: written back first if it is dirty.
    pub open spec fn victim_taken(self, block: u64, full: bool, v: u32, after: Self) -> bool {
        let s = self.with_frames(self.frames.swept(v as int, false));
        &&& self.frames.clock_takes(v as int, false)
        &&& if s.frames.meta[v as int].dirty {
            after == s.waiting(Wait::Victim { block, full, victim: v })
        } else {
            s.evicted(v).brought_in(block, full, v, after)
        }
    }

    /// A frame found for `block`: a free one, else CLOCK's victim.
    pub open spec fn room_made(self, block: u64, full: bool, after: Self) -> bool {
        if self.frames.free.len() > 0 {
            self.with_frames(self.frames.popped()).brought_in(
                block,
                full,
                self.frames.free.last(),
                after,
            )
        } else {
            exists|v: u32| #[trigger] self.victim_taken(block, full, v, after)
        }
    }

    /// A lookup of `block`, up to the point where it is done or waits for the
    /// file.
    pub open spec fn looked_up(self, block: u64, full: bool, after: Self) -> bool {
        let n = self.noted(block);
        if self.resident(block as int) {
            self.hit(self.map[block as int], after)
        } else if !full && n.speculates(block as int) {
            &&& after.wait matches Wait::Batch { block: b, count, claimed }
            &&& b == block
            &&& count == n.batch_len(block as int)
            &&& n.claimed_for(
                block as int,
                count as int,
                claimed,
                after.waiting(Wait::Nothing),
            )
        } else {
            n.room_made(block, full, after)
        }
    }

    /// A batch that served the block it was made for: still a miss, but it
    /// cost a shared read rather than its own.
    pub open spec fn batch_hit(self, f: u32, after: Self) -> bool {
        self.with_frames(
            self.frames.with_meta(
                f,
                FrameMeta { prefetched: false, referenced: true, ..self.frames.meta[f as int] },
            ),
        ).missed(after)
    }

    /// Frame `f` filled with the bytes read for `block`.
    pub open spec fn loaded(self, block: u64, f: u32, bytes: Seq<u8>, after: Self) -> bool {
        let s = self.with_stats(
            Counters {
                bytes_read_backing: bumped(self.stats.bytes_read_backing, self.bs()),
                ..self.stats
            },
        );
        if checksum_of(bytes) == self.checksums[block as int] {
            s.bound_to(f, bytes, Self::wanted(block)).missed(after)
        } else {
            after == s.with_frames(
                s.frames.with_data(f, repeated(0, self.bs() as nat)).released(f),
            )
        }
    }

    /// The lookup under way, after the reply it waited for.
    pub open spec fn resumed(self, reply: Reply, after: Self) -> bool {
        let s = self.waiting(Wait::Nothing);
        match self.wait {
            Wait::Batch { block, count, claimed } => match reply {
                Reply::Bytes(bytes) => {
                    let t = s.batch_served(block as int, count as int, bytes@, claimed);
                    if t.resident(block as int) {
                        t.batch_hit(t.map[block as int], after)
                    } else {
                        t.room_made(block, false, after)
                    }
                },
                _ => after == s.unclaimed(claimed, claimed.len() as int),
            },
            Wait::Victim { block, full, victim } => match reply {
                Reply::Done => exists|t: Self| #[trigger]
                    s.flushed(victim, t) && t.evicted(victim).brought_in(
                        block,
                        full,
                        victim,
                        after,
                    ),
                _ => after == s,
            },
            Wait::Load { block, frame } => match reply {
                Reply::Bytes(bytes) => s.loaded(block, frame, bytes@, after),
                _ => after == s.with_frames(s.frames.released(frame)),
            },
            _ => false,
        }
    }

    // ---- copies ---------------------------------------------------------

    /// Looking for the block of `start`, and at rest if it is found.
    pub open spec fn searched(self, start: u64, len: int, after: Self) -> bool {
        exists|mid: Self| #[trigger]
            self.doing(Job::Find { start, len }).looked_up(
                (start as int / self.bs()) as u64,
                false,
                mid,
            ) && after == mid.rested()
    }

    /// At rest if nothing is waited for.
    pub open spec fn rested(self) -> Self {
        if self.wait is Nothing {
            self.doing(Job::Idle)
        } else {
            self
        }
    }

    /// A copy of `len` bytes at `start` out of the arena, from place `done`
    /// on: one block after another is looked up and passed, until the copy is
    /// complete or the file is needed.
    pub open spec fn read_from(self, start: u64, len: int, done: int, after: Self) -> bool
        decreases len - done, 1int,
    {
        exists|mid: Self| #[trigger]
            self.doing(Job::Read { start, len, done }).looked_up(
                ((start + done) / self.bs()) as u64,
                false,
                mid,
            ) && mid.read_past(start, len, done, after)
    }

    /// The same, once the block of place `done` has been looked up.
    pub open spec fn read_past(self, start: u64, len: int, done: int, after: Self) -> bool
        decreases len - done, 0int,
    {
        let next = done + self.run_at(start + done, len - done);
        if !(self.wait is Nothing) {
            after == self
        } else if next >= len || next <= done {
            after == self.doing(Job::Idle)
        } else {
            self.read_from(start, len, next, after)
        }
    }

    /// The copy out of the arena that is under way, after the reply it waited
    /// for.
    pub open spec fn read_resumed(self, reply: Reply, after: Self) -> bool {
        &&& self.job matches Job::Read { start, len, done }
        &&& exists|mid: Self| #[trigger]
            self.resumed(reply, mid) && if self.load_error(reply) is Some {
                after == mid.doing(Job::Idle)
            } else {
                mid.read_past(start, len, done, after)
            }
    }

    /// A copy of `data` to `start`, from place `done` on: one block after
    /// another is looked up and changed, until the copy is complete or the
    /// file is needed. A block that is overwritten whole is not read.
    pub open spec fn write_from(self, start: u64, data: Seq<u8>, done: int, after: Self) -> bool
        decreases data.len() - done, 1int,
    {
        let len = data.len() as int;
        exists|mid: Self| #[trigger]
            self.doing(Job::Write { start, len, done }).looked_up(
                ((start + done) / self.bs()) as u64,
                self.covers(start + done, len - done),
                mid,
            ) && mid.write_past(start, data, done, after)
    }

    /// The same, once the block of place `done` has been looked up.
    pub open spec fn write_past(self, start: u64, data: Seq<u8>, done: int, after: Self) -> bool
        decreases data.len() - done, 0int,
    {
        let at = start + done;
        let next = done + self.run_at(at, data.len() - done);
        if !(self.wait is Nothing) {
            after == self
        } else {
            let f = self.map[at / self.bs()];
            let w = self.rewritten(
                f,
                overlay(
                    self.frames.data[f as int],
                    at % self.bs(),
                    data.subrange(done, next),
                ),
            );
            if next >= data.len() || next <= done {
                after == w.doing(Job::Idle)
            } else {
                w.write_from(start, data, next, after)
            }
        }
    }

    // ---- sync and eviction ----------------------------------------------

    /// Frame `f` is the lowest dirty one from `from` on.
    pub open spec fn first_dirty(self, from: int, f: int) -> bool {
        &&& from <= f < self.frames.count()
        &&& self.frames.meta[f].dirty
        &&& self.clean_between(from, f)
    }

    /// No frame from `from` up to `to` is dirty.
    pub open spec fn clean_between(self, from: int, to: int) -> bool {
        forall|g: int| from <= g < to ==> !(#[trigger] self.frames.meta[g]).dirty
    }

    /// A sync goes on: the next dirty frame, else the tables if they changed,
    /// else stable storage.
    pub open spec fn sync_next(self, from: int, after: Self) -> bool {
        if self.clean_between(from, self.frames.count() as int) {
            after == self.waiting(
                if self.dirty_meta {
                    Wait::Table { stage: 0 }
                } else {
                    Wait::Barrier
                },
            )
        } else {
            exists|f: u32| #[trigger]
                self.first_dirty(from, f as int) && after == self.waiting(Wait::Flush { frame: f })
        }
    }

    /// The sync under way, after the reply it waited for.
    pub open spec fn sync_resumed(self, reply: Reply, after: Self) -> bool {
        let s = self.waiting(Wait::Nothing);
        match reply {
            Reply::Done => match self.wait {
                Wait::Flush { frame } => exists|t: Self| #[trigger]
                    s.flushed(frame, t) && t.sync_next(frame + 1, after),
                Wait::Table { stage } => if stage < 2 {
                    after == self.waiting(Wait::Table { stage: stage + 1 })
                } else {
                    after == (ArenaState { dirty_meta: false, wait: Wait::Barrier, ..self })
                },
                _ => after == s.doing(Job::Idle),
            },
            _ => after == s.doing(Job::Idle),
        }
    }

    /// How far the sync under way is from its end.
    pub open spec fn sync_left(self) -> int {
        match self.wait {
            Wait::Flush { frame } => 5 + self.frames.count() - frame,
            Wait::Table { stage } => 4 - stage,
            Wait::Barrier => 1,
            _ => 0,
        }
    }

    /// Clean frame `f` taken from its block and put on the free list.
    pub open spec fn dropped(self, f: u32) -> Self {
        let s = self.evicted(f);
        s.with_frames(s.frames.released(f))
    }

    /// Every bound frame from `lo` up to `hi` dropped.
    pub open spec fn emptied(self, lo: int, hi: int) -> Self
        decreases hi - lo,
    {
        if hi <= lo {
            self
        } else {
            let s = self.emptied(lo, hi - 1);
            if s.frames.meta[hi - 1].bound() {
                s.dropped((hi - 1) as u32)
            } else {
                s
            }
        }
    }

    /// An eviction goes on with frame `from`: it drops clean frames up to the
    /// next dirty one, which is written back first, or to the end.
    pub open spec fn evict_next(self, from: int, after: Self) -> bool {
        let n = self.frames.count() as int;
        if self.clean_between(from, n) {
            after == self.emptied(from, n).doing(Job::Idle)
        } else {
            exists|f: u32| #[trigger]
                self.first_dirty(from, f as int) && after == self.emptied(from, f as int).waiting(
                    Wait::Flush { frame: f },
                )
        }
    }

    /// The eviction under way, after the reply it waited for.
    pub open spec fn evict_resumed(self, reply: Reply, after: Self) -> bool {
        let s = self.waiting(Wait::Nothing);
        match reply {
            Reply::Done => match self.wait {
                Wait::Flush { frame } => exists|t: Self| #[trigger]
                    s.flushed(frame, t) && t.dropped(frame).evict_next(frame + 1, after),
                _ => false,
            },
            _ => after == s.doing(Job::Idle),
        }
    }

    /// No block is in RAM.
    pub open spec fn all_cold(self) -> bool {
        &&& forall|f: int|
            0 <= f < self.frames.count() ==> !(#[trigger] self.frames.meta[f]).bound()
        &&& forall|b: int| 0 <= b < self.nblocks() ==> !(#[trigger] self.resident(b))
        &&& self.frames.free.len() == self.frames.count()
    }

    /// The error a lookup ends with: the driver's, or the news that what was
    /// read is not what was written.
    pub open spec fn load_error(self, reply: Reply) -> Option<LoomError> {
        match reply {
            Reply::Failed(e) => Some(e),
            Reply::Bytes(bytes) => match self.wait {
                Wait::Load { block, frame } => if checksum_of(bytes@)
                    != self.checksums[block as int] {
                    Some(
                        LoomError::Corrupt {
                            block,
                            expected: self.checksums[block as int],
                            actual: checksum_of(bytes@),
                        },
                    )
                } else {
                    None
                },
                _ => None,
            },
            Reply::Done => None,
        }
    }

    /// The same pool: geometry, regions and limits.
    pub open spec fn same_pool(self, after: Self) -> bool {
        &&& after.sb == self.sb
        &&& after.regions == self.regions
        &&& after.budget == self.budget
        &&& after.prefetch_depth == self.prefetch_depth
        &&& after.frames.count() == self.frames.count()
    }

    /// The same pool, and the same operation under way.
    pub open spec fn same_arena(self, after: Self) -> bool {
        &&& self.same_pool(after)
        &&& after.job == self.job
    }

    /// What a lookup of `block` returns: the frame that holds it, or what has
    /// to be done first.
    pub open spec fn lookup_result(self, block: int, full: bool, r: Step<u32>) -> bool {
        match r {
            Step::Ready(f) => {
                &&& self.wait is Nothing
                &&& self.resident(block)
                &&& self.map[block] == f
            },
            Step::Io(a) => {
                &&& self.asks(a)
                &&& self.sought() == Some(block)
                &&& self.sought_full() ==> full
            },
            Step::Failed(_) => false,
        }
    }

    /// How far the lookup under way is from its end.
    pub open spec fn rank(self) -> int {
        match self.wait {
            Wait::Batch { block, count, claimed } => 3,
            Wait::Victim { block, full, victim } => 2,
            Wait::Load { block, frame } => 1,
            _ => 0,
        }
    }
}

/// A claim holds a frame for block `b`.
pub open spec fn in_claim(claimed: Seq<(u64, u32)>, b: int) -> bool {
    exists|i: int| 0 <= i < claimed.len() && (#[trigger] claimed[i]).0 == b
}

} // verus!
