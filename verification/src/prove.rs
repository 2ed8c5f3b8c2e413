//! The first experiment.
//!
//! The experiment runs step by step against a real pool file on a real
//! device and fails on every false claim: the file is sparse, the footprint
//! stays bounded, every block comes back byte for byte after eviction and
//! across a reopen, one flipped byte on disk is detected, and restoring it
//! clears the error.
//!
//! [`Experiment`] decides; the driver carries out one [`Order`] after another
//! and reports what came of it. The same decisions run at test scale (a
//! few GiB) and at the real scale (128 GiB arena / 8 GiB budget); only the
//! parameters change.

use crate::error::LoomError;
use crate::pattern::xorshift;
#[allow(unused_imports)]
use crate::pattern::{output_of, state_after};
use crate::text::push_dec;
#[allow(unused_imports)]
use crate::text::dec;
use vstd::prelude::*;
use vstd::string::*;

verus! {

/// The parameters of a run.
#[derive(Debug, Clone)]
pub struct ProveConfig {
    pub pool: String,
    pub size: u64,
    pub budget: u64,
    pub block_size: u32,
    pub region: u64,
    pub seed: u64,
    /// Operations in the skewed-access workload.
    pub ops: u64,
    pub baselines: bool,
    pub keep_pool: bool,
    /// Allow region < 4x budget (the run is then not a meaningful proof).
    pub allow_small: bool,
}

/// Fixed allowance for everything in the process that is not frames or
/// metadata: the binary, stacks, the two scratch buffers, histograms,
/// allocator slack. Generous on purpose; it is stated in the report.
pub const PROCESS_SLACK: u64 = 50331648;

/// A fresh pool may occupy this much on disk and still count as sparse.
pub const SPARSE_LIMIT: u64 = 16777216;

/// Every so many blocks the footprint is sampled.
pub const SAMPLE_EVERY: u64 = 256;

/// The tag of the first pattern.
pub const TAG_A: u8 = 65;

/// The tag of the second pattern.
pub const TAG_B: u8 = 66;

/// What free frames are overwritten with after an eviction.
pub const SCRIBBLE: u8 = 0xEE;

/// The byte of a block that is tampered with.
pub const FLIP_BYTE: u64 = 4321;

/// The bit of it that is flipped, and flipped back.
pub const FLIP_MASK: u8 = 0x40;

/// What a run works with.
#[derive(Debug, Clone, Copy, PartialEq, Eq, Structural)]
pub struct Plan {
    /// Bytes of the region.
    pub region: u64,
    /// Blocks of the region.
    pub blocks: u64,
    /// Operations in the skewed-access workload.
    pub ops: u64,
    pub baselines: bool,
    pub keep_pool: bool,
    /// The region is less than four times the budget.
    pub small: bool,
}

/// Why there is nothing to run.
#[derive(Debug)]
pub enum Refusal {
    /// The region is not made of whole blocks.
    Ragged(LoomError),
    /// The region is less than four times the budget, and that was not
    /// allowed.
    TooSmall,
}

impl ProveConfig {
    /// Check the parameters.
    pub fn plan(&self) -> (r: Result<Plan, Refusal>)
        requires
            self.block_size > 0,
            4 * self.budget <= u64::MAX,
        ensures
            match r {
                Ok(p) => {
                    &&& self.region as int % self.block_size as int == 0
                    &&& p.small == (self.region < 4 * self.budget)
                    &&& p.small ==> self.allow_small
                    &&& p.region == self.region
                    &&& p.blocks == self.region as int / self.block_size as int
                    &&& p.blocks * self.block_size == self.region
                    &&& p.ops == self.ops
                    &&& p.baselines == self.baselines
                    &&& p.keep_pool == self.keep_pool
                },
                Err(Refusal::Ragged(e)) => {
                    &&& self.region as int % self.block_size as int != 0
                    &&& e matches LoomError::Invalid(t)
                    &&& t@ == "region "@ + dec(self.region as nat)
                        + " must be a multiple of block size "@ + dec(self.block_size as nat)
                },
                Err(Refusal::TooSmall) => {
                    &&& self.region as int % self.block_size as int == 0
                    &&& self.region < 4 * self.budget
                    &&& !self.allow_small
                },
            },
    {
        let bs: u64 = self.block_size as u64;
        if self.region % bs != 0 {
            let mut t = String::from_str("region ");
            push_dec(&mut t, self.region);
            t.append(" must be a multiple of block size ");
            push_dec(&mut t, bs);
            return Err(Refusal::Ragged(LoomError::Invalid(t)));
        }
        proof {
            vstd::arithmetic::div_mod::lemma_fundamental_div_mod(self.region as int, bs as int);
            vstd::arithmetic::mul::lemma_mul_is_commutative(
                self.region as int / bs as int,
                bs as int,
            );
        }
        let small = self.region < 4 * self.budget;
        if small && !self.allow_small {
            return Err(Refusal::TooSmall);
        }
        Ok(
            Plan {
                region: self.region,
                blocks: self.region / bs,
                ops: self.ops,
                baselines: self.baselines,
                keep_pool: self.keep_pool,
                small,
            },
        )
    }
}

// ---- the skewed workload ------------------------------------------------

/// The state a run's workload starts in; never zero.
pub open spec fn skew_start(seed: u64) -> u64 {
    (seed ^ 0x9E37_79B9_7F4A_7C15) | 1
}

/// The block a random number picks: nine times in ten one of the first
/// `hot`, else any.
pub open spec fn skewed(r: u64, hot: u64, total: u64) -> int {
    if r as int % 100 < 90 {
        (r >> 8) as int % hot as int
    } else {
        (r >> 8) as int % total as int
    }
}

/// Deterministic skewed block sequence: 90% of accesses land in the first
/// `hot_blocks` blocks, the rest uniformly over `total_blocks`.
pub fn skew_sequence(seed: u64, ops: usize, hot_blocks: u64, total_blocks: u64) -> (v: Vec<u64>)
    requires
        0 < hot_blocks,
        0 < total_blocks,
    ensures
        v@ == Seq::new(
            ops as nat,
            |i: int|
                skewed(
                    output_of(state_after(skew_start(seed), (i + 1) as nat)),
                    hot_blocks,
                    total_blocks,
                ) as u64,
        ),
        hot_blocks <= total_blocks ==> forall|i: int|
            0 <= i < v@.len() ==> #[trigger] v@[i] < total_blocks,
{
    let mut state: u64 = (seed ^ 0x9E37_79B9_7F4A_7C15) | 1;
    let mut v: Vec<u64> = Vec::new();
    let mut i: usize = 0;
    while i < ops
        invariant
            i <= ops,
            0 < hot_blocks,
            0 < total_blocks,
            state == state_after(skew_start(seed), i as nat),
            v@ == Seq::new(
                i as nat,
                |k: int|
                    skewed(
                        output_of(state_after(skew_start(seed), (k + 1) as nat)),
                        hot_blocks,
                        total_blocks,
                    ) as u64,
            ),
            hot_blocks <= total_blocks ==> forall|k: int|
                0 <= k < v@.len() ==> #[trigger] v@[k] < total_blocks,
        decreases ops - i,
    {
        let r: u64 = xorshift(&mut state);
        let b: u64 = if r % 100 < 90 {
            (r >> 8) % hot_blocks
        } else {
            (r >> 8) % total_blocks
        };
        v.push(b);
        i = i + 1;
        assert(v@ =~= Seq::new(
            i as nat,
            |k: int|
                skewed(
                    output_of(state_after(skew_start(seed), (k + 1) as nat)),
                    hot_blocks,
                    total_blocks,
                ) as u64,
        ));
    }
    v
}

/// The window nine accesses in ten land in.
pub open spec fn hot_window(frames: u64, total: u64) -> int {
    if 8 * frames / 10 < 1 {
        1
    } else if 8 * frames / 10 > total {
        total as int
    } else {
        8 * frames / 10
    }
}

/// It fits into four fifths of the frames and is as large as that allows; only
/// where that is less than a block it is one block, and where it is more than
/// there are it is all of them.
pub proof fn law_the_hot_window_fits_the_frames(frames: u64, total: u64)
    requires
        0 < total,
    ensures
        1 <= hot_window(frames, total) <= total,
        hot_window(frames, total) > 1 ==> 5 * hot_window(frames, total) <= 4 * frames,
        hot_window(frames, total) < total ==> 5 * (hot_window(frames, total) + 1) > 4 * frames,
{
}

/// Of any hundred consecutive random numbers ninety pick a block of the hot
/// window and ten any block: the one that the number, divided by 256, leaves
/// over.
pub proof fn law_nine_in_ten_are_hot(r: u64, hot: u64, total: u64)
    requires
        0 < hot,
        0 < total,
    ensures
        ({
            let window = if r as int % 100 < 90 {
                hot as int
            } else {
                total as int
            };
            &&& 0 <= skewed(r, hot, total) < window
            &&& (r as int / 256 - skewed(r, hot, total)) % window == 0
        }),
{
    assert(r >> 8 == r / 256) by (bit_vector);
    let window = if r as int % 100 < 90 {
        hot as int
    } else {
        total as int
    };
    let x = r as int / 256;
    vstd::arithmetic::div_mod::lemma_mod_bound(x, window);
    vstd::arithmetic::div_mod::lemma_fundamental_div_mod(x, window);
    vstd::arithmetic::mul::lemma_mul_is_commutative(window, x / window);
    vstd::arithmetic::div_mod::lemma_mod_multiples_basic(x / window, window);
}

/// A run's workload starts in no state that is zero, and runs whose seeds
/// differ in more than the last bit start differently.
pub proof fn law_workloads_start_apart(a: u64, b: u64)
    ensures
        skew_start(a) != 0,
        skew_start(a) == skew_start(b) ==> a / 2 == b / 2,
{
    assert((a ^ 0x9E37_79B9_7F4A_7C15) | 1 != 0) by (bit_vector);
    assert((a ^ 0x9E37_79B9_7F4A_7C15) | 1 == (b ^ 0x9E37_79B9_7F4A_7C15) | 1 ==> a / 2 == b / 2)
        by (bit_vector);
}

/// The window nine accesses in ten land in: four fifths of the frames, at
/// least one block, at most all.
pub fn hot_blocks(frames: u64, total: u64) -> (n: u64)
    requires
        8 * frames <= u64::MAX,
        0 < total,
    ensures
        n == hot_window(frames, total),
        0 < n <= total,
{
    let n: u64 = frames * 8 / 10;
    if n < 1 {
        1
    } else if n > total {
        total
    } else {
        n
    }
}

// ---- the experiment -----------------------------------------------------

/// When the footprint was held against its bound.
#[derive(Debug, Clone, Copy, PartialEq, Eq, Structural)]
pub enum When {
    AfterWriteA,
    AfterReadA,
    AfterReadB,
    AfterSkew,
}

/// A false claim.
#[derive(Debug, Clone, Copy, PartialEq, Eq, Structural)]
pub enum Finding {
    /// The process footprint cannot be measured: the budget has no witness.
    NoWitness,
    /// The pool file exists already.
    PoolExists,
    /// A fresh pool occupies this much on disk.
    NotSparse { allocated: u64 },
    /// More blocks are resident than there are frames.
    TooManyResident,
    /// Less is on disk than what cannot still be in frames.
    NotOnDisk { allocated: u64 },
    /// The footprint exceeded its bound.
    OverBound { when: When, max: u64, bound: u64 },
    /// Blocks are still resident after an eviction of everything.
    StillResident { blocks: u64 },
    /// The first pattern came back wrong after eviction.
    LostA { mismatches: u64, block: u64, at: usize },
    /// The region table came back wrong.
    RegionLost,
    /// The second pattern came back wrong across a reopen.
    LostB { mismatches: u64, block: u64, at: usize },
    /// A flipped byte gave another error than the one it should.
    WrongError,
    /// A flipped byte went undetected.
    Undetected,
    /// The restored block came back without error but wrong.
    WrongAfterRestore,
    /// The restored block still errors.
    ErrorAfterRestore,
    /// An operation failed.
    Aborted,
}

/// Where the experiment stands.
#[derive(Debug, Clone, Copy, PartialEq, Eq, Structural)]
pub enum Phase {
    Measuring,
    Looking,
    Creating,
    Allocating,
    WritingA { b: u64 },
    SamplingA,
    InspectingA,
    EvictingA,
    ReadingA { b: u64 },
    SamplingReadA,
    WritingB { b: u64 },
    Syncing,
    Closing,
    Reopening,
    ReadingB { b: u64 },
    ClosingB,
    Flipping,
    ReadingFlipped,
    Restoring,
    ReadingRestored,
    Cooling,
    Skewing { i: u64 },
    SamplingSkew,
    ClosingSkew,
    Preading,
    Mapping,
    Removing,
    Finished,
}

/// What the driver has to do next.
#[derive(Debug, Clone, Copy, PartialEq, Eq, Structural)]
pub enum Order {
    /// Measure the process footprint before anything is allocated.
    Measure,
    /// Is there a file where the pool will be?
    Look,
    /// Create the pool.
    Create,
    /// Allocate the region.
    Allocate,
    /// Write the pattern of a block; sample the footprint afterwards or not.
    Write { tag: u8, block: u64, sample: bool },
    /// Sample the footprint.
    Sample,
    /// How much is on disk, how many blocks are resident?
    Inspect,
    /// Evict everything and overwrite every free frame.
    Evict { scribble: u8 },
    /// Read a block back and compare it with its pattern.
    Read { tag: u8, block: u64, sample: bool },
    Sync,
    Close,
    /// Open the pool again. Is the region there?
    Reopen,
    /// Flip the bits of `mask` in one byte of a block of the arena, on disk.
    Flip { block: u64, byte: u64, mask: u8 },
    /// Open the pool, read a block of the region back and compare it; close
    /// the pool again or not.
    ReadMiddle { tag: u8, block: u64, close: bool },
    /// Evict everything, to start cold.
    Cool,
    /// Read the block of this place in the skewed sequence.
    Skew { index: u64 },
    /// Read the same blocks from the file directly.
    Pread,
    /// Read the same blocks from a mapping of the file.
    Mmap,
    /// Remove the pool file.
    Remove,
    /// Nothing: the experiment is over.
    Finish,
}

/// How reading the middle block went.
#[derive(Debug, Clone, Copy, PartialEq, Eq, Structural)]
pub enum Middle {
    /// It came back as it was written.
    Equal,
    /// It came back without error but different.
    Different,
    /// The block was reported corrupt.
    Corrupt { block: u64 },
    /// Another error.
    Error,
}

/// What came of an order.
#[derive(Debug, Clone, Copy, PartialEq, Eq, Structural)]
pub enum Event {
    /// It failed.
    Failed,
    /// It is done.
    Done,
    /// The footprint in bytes, if it can be measured.
    Footprint { bytes: Option<u64> },
    /// Is the file there?
    Found { there: bool },
    /// The pool is created and open.
    Created { frames: u64, hot: u64, metadata: u64, disk: u64 },
    /// The region starts at this block.
    Allocated { first: u64 },
    /// The block is written.
    Wrote { sample: Option<u64> },
    /// What is on disk and in frames.
    Inspected { disk: u64, resident: u64 },
    /// What is resident after an eviction.
    Emptied { resident: u64 },
    /// Where the block differs from its pattern, if it does.
    Compared { at: Option<usize>, sample: Option<u64> },
    /// The pool is open again.
    Reopened { same: bool },
    /// The middle block was read.
    Middle { how: Middle },
}

/// What is known so far.
#[derive(Debug, Clone, Copy, PartialEq, Eq)]
pub struct Progress {
    pub phase: Phase,
    /// The footprint before anything was allocated.
    pub start: u64,
    pub frames: u64,
    pub hot: u64,
    pub metadata: u64,
    /// What the footprint may not exceed.
    pub bound: u64,
    /// The largest footprint sampled.
    pub max: Option<u64>,
    /// The block whose byte is flipped.
    pub middle: u64,
    /// Blocks of the current reading pass that came back right.
    pub right: u64,
    /// Blocks of the current reading pass that came back wrong.
    pub wrong: u64,
    /// The first of them, and where it differs.
    pub first_wrong: Option<(u64, usize)>,
    /// Blocks that came back right in the first pass.
    pub right_a: u64,
    /// Blocks that came back right in the second pass.
    pub right_b: u64,
    pub detected: bool,
    pub restored: bool,
}

impl Progress {
    /// Nothing known yet.
    pub open spec fn start() -> Self {
        Progress {
            phase: Phase::Measuring,
            start: 0,
            frames: 0,
            hot: 0,
            metadata: 0,
            bound: 0,
            max: None,
            middle: 0,
            right: 0,
            wrong: 0,
            first_wrong: None,
            right_a: 0,
            right_b: 0,
            detected: false,
            restored: false,
        }
    }

    /// Another phase.
    pub open spec fn at(self, phase: Phase) -> Self {
        Progress { phase, ..self }
    }

    /// A sample of the footprint.
    pub open spec fn sampled(self, sample: Option<u64>) -> Self {
        match sample {
            None => self,
            Some(f) => Progress {
                max: match self.max {
                    Some(m) => if m >= f {
                        Some(m)
                    } else {
                        Some(f)
                    },
                    None => Some(f),
                },
                ..self
            },
        }
    }

    /// One more block compared.
    pub open spec fn compared(self, b: u64, at: Option<usize>) -> Self {
        match at {
            None => Progress { right: (self.right + 1) as u64, ..self },
            Some(pos) => Progress {
                wrong: (self.wrong + 1) as u64,
                first_wrong: if self.first_wrong is None {
                    Some((b, pos))
                } else {
                    self.first_wrong
                },
                ..self
            },
        }
    }

    /// A reading pass begins.
    pub open spec fn tally(self) -> Self {
        Progress { right: 0, wrong: 0, first_wrong: None, ..self }
    }

    /// The footprint exceeded its bound.
    pub open spec fn over(self, when: When) -> Seq<Finding> {
        match self.max {
            Some(m) => if m > self.bound {
                seq![Finding::OverBound { when, max: m, bound: self.bound }]
            } else {
                Seq::empty()
            },
            None => Seq::empty(),
        }
    }
}

/// A sum capped at 64 bits.
pub open spec fn sat(a: int) -> u64 {
    if a > u64::MAX {
        u64::MAX
    } else {
        a as u64
    }
}

/// What the footprint may not exceed: what was there before, the frames, the
/// metadata and the slack.
pub open spec fn bound_of(start: u64, hot: u64, metadata: u64) -> u64 {
    sat(start + hot + metadata + PROCESS_SLACK)
}

/// One finding if the claim is false.
pub open spec fn unless(claim: bool, f: Finding) -> Seq<Finding> {
    if claim {
        Seq::empty()
    } else {
        seq![f]
    }
}

/// The end of the run, with or without the pool file.
pub open spec fn ending(plan: Plan) -> Phase {
    if plan.keep_pool {
        Phase::Finished
    } else {
        Phase::Removing
    }
}

/// The next block of a pass, or what follows it.
pub open spec fn next_of(b: u64, blocks: u64, more: Phase, after: Phase) -> Phase {
    if b + 1 < blocks {
        more
    } else {
        after
    }
}

/// The experiment after an event: what is known, and which claims turned out
/// false.
pub open spec fn advanced(plan: Plan, p: Progress, ev: Event) -> (Progress, Seq<Finding>) {
    let none = Seq::<Finding>::empty();
    match (p.phase, ev) {
        (_, Event::Failed) => (p.at(Phase::Finished), seq![Finding::Aborted]),
        (Phase::Measuring, Event::Footprint { bytes }) => match bytes {
            None => (p.at(Phase::Finished), seq![Finding::NoWitness]),
            Some(f) => (Progress { start: f, ..p }.at(Phase::Looking), none),
        },
        (Phase::Looking, Event::Found { there }) => if there {
            (p.at(Phase::Finished), seq![Finding::PoolExists])
        } else {
            (p.at(Phase::Creating), none)
        },
        (Phase::Creating, Event::Created { frames, hot, metadata, disk }) => (
            Progress {
                frames,
                hot,
                metadata,
                bound: bound_of(p.start, hot, metadata),
                ..p
            }.at(Phase::Allocating),
            unless(disk <= SPARSE_LIMIT, Finding::NotSparse { allocated: disk }),
        ),
        (Phase::Allocating, Event::Allocated { first }) => (
            Progress { middle: sat(first + plan.blocks / 2), ..p }.at(
                if plan.blocks > 0 {
                    Phase::WritingA { b: 0 }
                } else {
                    Phase::SamplingA
                },
            ),
            none,
        ),
        (Phase::WritingA { b }, Event::Wrote { sample }) => (
            p.sampled(sample).at(
                next_of(
                    b,
                    plan.blocks,
                    Phase::WritingA { b: (b + 1) as u64 },
                    Phase::SamplingA,
                ),
            ),
            none,
        ),
        (Phase::SamplingA, Event::Footprint { bytes }) => (
            p.sampled(bytes).at(Phase::InspectingA),
            none,
        ),
        (Phase::InspectingA, Event::Inspected { disk, resident }) => (
            p.at(Phase::EvictingA),
            unless(resident <= p.frames, Finding::TooManyResident) + unless(
                disk >= plan.region - p.hot,
                Finding::NotOnDisk { allocated: disk },
            ) + p.over(When::AfterWriteA),
        ),
        (Phase::EvictingA, Event::Emptied { resident }) => (
            p.tally().at(
                if plan.blocks > 0 {
                    Phase::ReadingA { b: 0 }
                } else {
                    Phase::SamplingReadA
                },
            ),
            unless(resident == 0, Finding::StillResident { blocks: resident }),
        ),
        (Phase::ReadingA { b }, Event::Compared { at, sample }) => (
            p.compared(b, at).sampled(sample).at(
                next_of(
                    b,
                    plan.blocks,
                    Phase::ReadingA { b: (b + 1) as u64 },
                    Phase::SamplingReadA,
                ),
            ),
            none,
        ),
        (Phase::SamplingReadA, Event::Footprint { bytes }) => {
            let q = p.sampled(bytes);
            (
                Progress { right_a: q.right, ..q }.at(
                    if plan.blocks > 0 {
                        Phase::WritingB { b: 0 }
                    } else {
                        Phase::Syncing
                    },
                ),
                (match q.first_wrong {
                    Some((block, at)) => seq![
                        Finding::LostA { mismatches: q.wrong, block, at },
                    ],
                    None => none,
                }) + q.over(When::AfterReadA),
            )
        },
        (Phase::WritingB { b }, Event::Wrote { sample }) => (
            p.sampled(sample).at(
                next_of(
                    b,
                    plan.blocks,
                    Phase::WritingB { b: (b + 1) as u64 },
                    Phase::Syncing,
                ),
            ),
            none,
        ),
        (Phase::Syncing, Event::Done) => (p.at(Phase::Closing), none),
        (Phase::Closing, Event::Done) => (p.at(Phase::Reopening), none),
        (Phase::Reopening, Event::Reopened { same }) => if same {
            (
                p.tally().at(
                    if plan.blocks > 0 {
                        Phase::ReadingB { b: 0 }
                    } else {
                        Phase::ClosingB
                    },
                ),
                none,
            )
        } else {
            (p.at(Phase::Finished), seq![Finding::RegionLost])
        },
        (Phase::ReadingB { b }, Event::Compared { at, sample }) => {
            let q = p.compared(b, at).sampled(sample);
            if b + 1 < plan.blocks {
                (q.at(Phase::ReadingB { b: (b + 1) as u64 }), none)
            } else {
                (
                    Progress { right_b: q.right, ..q }.at(Phase::ClosingB),
                    (match q.first_wrong {
                        Some((block, at)) => seq![
                            Finding::LostB { mismatches: q.wrong, block, at },
                        ],
                        None => none,
                    }) + q.over(When::AfterReadB),
                )
            }
        },
        (Phase::ClosingB, Event::Done) => (p.at(Phase::Flipping), none),
        (Phase::Flipping, Event::Done) => (p.at(Phase::ReadingFlipped), none),
        (Phase::ReadingFlipped, Event::Middle { how }) => match how {
            Middle::Corrupt { block } => if block == p.middle {
                (Progress { detected: true, ..p }.at(Phase::Restoring), none)
            } else {
                (p.at(Phase::Restoring), seq![Finding::WrongError])
            },
            Middle::Error => (p.at(Phase::Restoring), seq![Finding::WrongError]),
            _ => (p.at(Phase::Restoring), seq![Finding::Undetected]),
        },
        (Phase::Restoring, Event::Done) => (p.at(Phase::ReadingRestored), none),
        (Phase::ReadingRestored, Event::Middle { how }) => match how {
            Middle::Equal => (Progress { restored: true, ..p }.at(Phase::Cooling), none),
            Middle::Different => (p.at(Phase::Cooling), seq![Finding::WrongAfterRestore]),
            _ => (p.at(Phase::Cooling), seq![Finding::ErrorAfterRestore]),
        },
        (Phase::Cooling, Event::Done) => (
            p.at(
                if plan.ops > 0 {
                    Phase::Skewing { i: 0 }
                } else {
                    Phase::SamplingSkew
                },
            ),
            none,
        ),
        (Phase::Skewing { i }, Event::Done) => (
            p.at(
                next_of(i, plan.ops, Phase::Skewing { i: (i + 1) as u64 }, Phase::SamplingSkew),
            ),
            none,
        ),
        (Phase::SamplingSkew, Event::Footprint { bytes }) => (
            p.sampled(bytes).at(Phase::ClosingSkew),
            p.sampled(bytes).over(When::AfterSkew),
        ),
        (Phase::ClosingSkew, Event::Done) => (
            p.at(
                if plan.baselines {
                    Phase::Preading
                } else {
                    ending(plan)
                },
            ),
            none,
        ),
        (Phase::Preading, Event::Done) => (p.at(Phase::Mapping), none),
        (Phase::Mapping, Event::Done) => (p.at(ending(plan)), none),
        (Phase::Removing, Event::Done) => (p.at(Phase::Finished), none),
        _ => (p, none),
    }
}

/// What is asked of the driver.
pub open spec fn order_of(plan: Plan, p: Progress) -> Order {
    match p.phase {
        Phase::Measuring => Order::Measure,
        Phase::Looking => Order::Look,
        Phase::Creating => Order::Create,
        Phase::Allocating => Order::Allocate,
        Phase::WritingA { b } => Order::Write {
            tag: TAG_A,
            block: b,
            sample: b as int % SAMPLE_EVERY as int == 0,
        },
        Phase::SamplingA => Order::Sample,
        Phase::InspectingA => Order::Inspect,
        Phase::EvictingA => Order::Evict { scribble: SCRIBBLE },
        Phase::ReadingA { b } => Order::Read {
            tag: TAG_A,
            block: b,
            sample: b as int % SAMPLE_EVERY as int == 0,
        },
        Phase::SamplingReadA => Order::Sample,
        Phase::WritingB { b } => Order::Write {
            tag: TAG_B,
            block: b,
            sample: b as int % SAMPLE_EVERY as int == 0,
        },
        Phase::Syncing => Order::Sync,
        Phase::Closing => Order::Close,
        Phase::Reopening => Order::Reopen,
        Phase::ReadingB { b } => Order::Read {
            tag: TAG_B,
            block: b,
            sample: b as int % SAMPLE_EVERY as int == 0,
        },
        Phase::ClosingB => Order::Close,
        Phase::Flipping => Order::Flip { block: p.middle, byte: FLIP_BYTE, mask: FLIP_MASK },
        Phase::ReadingFlipped => Order::ReadMiddle {
            tag: TAG_B,
            block: plan.blocks / 2,
            close: true,
        },
        Phase::Restoring => Order::Flip { block: p.middle, byte: FLIP_BYTE, mask: FLIP_MASK },
        Phase::ReadingRestored => Order::ReadMiddle {
            tag: TAG_B,
            block: plan.blocks / 2,
            close: false,
        },
        Phase::Cooling => Order::Cool,
        Phase::Skewing { i } => Order::Skew { index: i },
        Phase::SamplingSkew => Order::Sample,
        Phase::ClosingSkew => Order::Close,
        Phase::Preading => Order::Pread,
        Phase::Mapping => Order::Mmap,
        Phase::Removing => Order::Remove,
        Phase::Finished => Order::Finish,
    }
}

/// The event answers the order.
pub open spec fn answers(o: Order, ev: Event) -> bool {
    !(o is Finish) && (ev is Failed || match o {
        Order::Measure => ev is Footprint,
        Order::Look => ev is Found,
        Order::Create => ev is Created,
        Order::Allocate => ev is Allocated,
        Order::Write { .. } => ev is Wrote,
        Order::Sample => ev is Footprint,
        Order::Inspect => ev is Inspected,
        Order::Evict { .. } => ev is Emptied,
        Order::Read { .. } => ev is Compared,
        Order::Reopen => ev is Reopened,
        Order::ReadMiddle { .. } => ev is Middle,
        Order::Finish => false,
        _ => ev is Done,
    })
}

/// How far a phase is along, for counting.
pub open spec fn stage_of(phase: Phase) -> int {
    match phase {
        Phase::Measuring => 0,
        Phase::Looking => 1,
        Phase::Creating => 2,
        Phase::Allocating => 3,
        Phase::WritingA { b } => 4,
        Phase::SamplingA => 5,
        Phase::InspectingA => 6,
        Phase::EvictingA => 7,
        Phase::ReadingA { b } => 8,
        Phase::SamplingReadA => 9,
        Phase::WritingB { b } => 10,
        Phase::Syncing => 11,
        Phase::Closing => 12,
        Phase::Reopening => 13,
        Phase::ReadingB { b } => 14,
        Phase::ClosingB => 15,
        Phase::Flipping => 16,
        Phase::ReadingFlipped => 17,
        Phase::Restoring => 18,
        Phase::ReadingRestored => 19,
        Phase::Cooling => 20,
        Phase::Skewing { i } => 21,
        Phase::SamplingSkew => 22,
        Phase::ClosingSkew => 23,
        Phase::Preading => 24,
        Phase::Mapping => 25,
        Phase::Removing => 26,
        Phase::Finished => 27,
    }
}

/// What every reachable state of a run satisfies: the passes stay inside the
/// region, every compared block is counted, and as long as there is no
/// finding, whatever lies behind was shown.
pub open spec fn coherent(plan: Plan, p: Progress, findings: Seq<Finding>) -> bool {
    let n = plan.blocks;
    let done = stage_of(p.phase);
    &&& match p.phase {
        Phase::WritingA { b } => b < n,
        Phase::ReadingA { b } => b < n && p.right + p.wrong == b,
        Phase::WritingB { b } => b < n,
        Phase::ReadingB { b } => b < n && p.right + p.wrong == b,
        Phase::Skewing { i } => i < plan.ops,
        Phase::SamplingReadA => p.right + p.wrong == n,
        _ => true,
    }
    &&& p.right + p.wrong <= n
    &&& p.wrong > 0 <==> p.first_wrong is Some
    &&& findings.len() == 0 ==> {
        &&& done >= 10 ==> p.right_a == n
        &&& done >= 15 ==> p.right_b == n || n == 0
        &&& done >= 18 ==> p.detected
        &&& done >= 20 ==> p.restored
    }
}

/// The experiment.
pub struct Experiment {
    plan: Plan,
    progress: Progress,
    findings: Vec<Finding>,
}

impl Experiment {
    /// The parameters.
    pub closed spec fn plan(&self) -> Plan {
        self.plan
    }

    /// What is known.
    pub closed spec fn progress(&self) -> Progress {
        self.progress
    }

    /// The false claims.
    pub closed spec fn findings(&self) -> Seq<Finding> {
        self.findings@
    }

    /// Validity of a run.
    pub open spec fn wf(&self) -> bool {
        coherent(self.plan(), self.progress(), self.findings())
    }

    /// Begin.
    pub fn new(plan: Plan) -> (e: Self)
        ensures
            e.wf(),
            e.plan() == plan,
            e.progress() == Progress::start(),
            e.findings() == Seq::<Finding>::empty(),
    {
        Experiment {
            plan,
            progress: Progress {
                phase: Phase::Measuring,
                start: 0,
                frames: 0,
                hot: 0,
                metadata: 0,
                bound: 0,
                max: None,
                middle: 0,
                right: 0,
                wrong: 0,
                first_wrong: None,
                right_a: 0,
                right_b: 0,
                detected: false,
                restored: false,
            },
            findings: Vec::new(),
        }
    }

    /// What is known.
    pub fn known(&self) -> (p: &Progress)
        ensures
            *p == self.progress(),
    {
        &self.progress
    }

    /// The false claims so far.
    pub fn failures(&self) -> (f: &[Finding])
        ensures
            f@ == self.findings(),
    {
        self.findings.as_slice()
    }

    /// Did every claim hold?
    pub fn passed(&self) -> (b: bool)
        ensures
            b == (self.findings().len() == 0),
    {
        self.findings.len() == 0
    }

    /// What has to be done next.
    pub fn order(&self) -> (o: Order)
        ensures
            o == order_of(self.plan(), self.progress()),
    {
        match self.progress.phase {
            Phase::Measuring => Order::Measure,
            Phase::Looking => Order::Look,
            Phase::Creating => Order::Create,
            Phase::Allocating => Order::Allocate,
            Phase::WritingA { b } => Order::Write {
                tag: TAG_A,
                block: b,
                sample: b % SAMPLE_EVERY == 0,
            },
            Phase::SamplingA => Order::Sample,
            Phase::InspectingA => Order::Inspect,
            Phase::EvictingA => Order::Evict { scribble: SCRIBBLE },
            Phase::ReadingA { b } => Order::Read {
                tag: TAG_A,
                block: b,
                sample: b % SAMPLE_EVERY == 0,
            },
            Phase::SamplingReadA => Order::Sample,
            Phase::WritingB { b } => Order::Write {
                tag: TAG_B,
                block: b,
                sample: b % SAMPLE_EVERY == 0,
            },
            Phase::Syncing => Order::Sync,
            Phase::Closing => Order::Close,
            Phase::Reopening => Order::Reopen,
            Phase::ReadingB { b } => Order::Read {
                tag: TAG_B,
                block: b,
                sample: b % SAMPLE_EVERY == 0,
            },
            Phase::ClosingB => Order::Close,
            Phase::Flipping => Order::Flip {
                block: self.progress.middle,
                byte: FLIP_BYTE,
                mask: FLIP_MASK,
            },
            Phase::ReadingFlipped => Order::ReadMiddle {
                tag: TAG_B,
                block: self.plan.blocks / 2,
                close: true,
            },
            Phase::Restoring => Order::Flip {
                block: self.progress.middle,
                byte: FLIP_BYTE,
                mask: FLIP_MASK,
            },
            Phase::ReadingRestored => Order::ReadMiddle {
                tag: TAG_B,
                block: self.plan.blocks / 2,
                close: false,
            },
            Phase::Cooling => Order::Cool,
            Phase::Skewing { i } => Order::Skew { index: i },
            Phase::SamplingSkew => Order::Sample,
            Phase::ClosingSkew => Order::Close,
            Phase::Preading => Order::Pread,
            Phase::Mapping => Order::Mmap,
            Phase::Removing => Order::Remove,
            Phase::Finished => Order::Finish,
        }
    }

    /// Enter another phase.
    fn go(&mut self, phase: Phase)
        ensures
            final(self).plan() == old(self).plan(),
            final(self).findings() == old(self).findings(),
            final(self).progress() == old(self).progress().at(phase),
    {
        self.progress.phase = phase;
    }

    /// Take a sample of the footprint into account.
    fn sample(&mut self, sample: Option<u64>)
        ensures
            final(self).plan() == old(self).plan(),
            final(self).findings() == old(self).findings(),
            final(self).progress() == old(self).progress().sampled(sample),
    {
        if let Some(f) = sample {
            match self.progress.max {
                Some(m) => {
                    if m < f {
                        self.progress.max = Some(f);
                    }
                },
                None => {
                    self.progress.max = Some(f);
                },
            }
        }
    }

    /// Take a compared block into account.
    fn compare(&mut self, b: u64, at: Option<usize>)
        requires
            old(self).progress().right < u64::MAX,
            old(self).progress().wrong < u64::MAX,
        ensures
            final(self).plan() == old(self).plan(),
            final(self).findings() == old(self).findings(),
            final(self).progress() == old(self).progress().compared(b, at),
    {
        match at {
            None => {
                self.progress.right = self.progress.right + 1;
            },
            Some(pos) => {
                self.progress.wrong = self.progress.wrong + 1;
                if self.progress.first_wrong.is_none() {
                    self.progress.first_wrong = Some((b, pos));
                }
            },
        }
    }

    /// Begin a reading pass.
    fn clear_tally(&mut self)
        ensures
            final(self).plan() == old(self).plan(),
            final(self).findings() == old(self).findings(),
            final(self).progress() == old(self).progress().tally(),
    {
        self.progress.right = 0;
        self.progress.wrong = 0;
        self.progress.first_wrong = None;
    }

    /// Record a false claim.
    fn find(&mut self, claim: bool, f: Finding)
        ensures
            final(self).plan() == old(self).plan(),
            final(self).progress() == old(self).progress(),
            final(self).findings() == old(self).findings() + unless(claim, f),
    {
        if !claim {
            self.findings.push(f);
        }
        assert(self.findings@ =~= old(self).findings@ + unless(claim, f));
    }

    /// Hold the footprint against its bound.
    fn check_bound(&mut self, when: When)
        ensures
            final(self).plan() == old(self).plan(),
            final(self).progress() == old(self).progress(),
            final(self).findings() == old(self).findings() + old(self).progress().over(when),
    {
        if let Some(m) = self.progress.max {
            let bound: u64 = self.progress.bound;
            if m > bound {
                self.findings.push(Finding::OverBound { when, max: m, bound });
            }
        }
        assert(self.findings@ =~= old(self).findings@ + old(self).progress.over(when));
    }

    /// The next block of a pass, or what follows it.
    fn step(&mut self, b: u64, blocks: u64, more: Phase, after: Phase)
        requires
            b < u64::MAX,
        ensures
            final(self).plan() == old(self).plan(),
            final(self).findings() == old(self).findings(),
            final(self).progress() == old(self).progress().at(next_of(b, blocks, more, after)),
    {
        if b + 1 < blocks {
            self.go(more);
        } else {
            self.go(after);
        }
    }

    /// Go on with what came of the order.
    pub fn advance(&mut self, ev: Event)
        requires
            old(self).wf(),
            answers(order_of(old(self).plan(), old(self).progress()), ev),
        ensures
            final(self).wf(),
            final(self).plan() == old(self).plan(),
            ({
                let (p, f) = advanced(old(self).plan(), old(self).progress(), ev);
                &&& final(self).progress() == p
                &&& final(self).findings() == old(self).findings() + f
            }),
    {
        let plan = self.plan;
        let n: u64 = plan.blocks;
        let p = self.progress;
        let ghost had = self.findings@;
        proof {
            assert(had + Seq::<Finding>::empty() =~= had);
        }
        match (p.phase, ev) {
            (_, Event::Failed) => {
                self.find(false, Finding::Aborted);
                self.go(Phase::Finished);
            },
            (Phase::Measuring, Event::Footprint { bytes }) => match bytes {
                None => {
                    self.find(false, Finding::NoWitness);
                    self.go(Phase::Finished);
                },
                Some(f) => {
                    self.progress.start = f;
                    self.go(Phase::Looking);
                },
            },
            (Phase::Looking, Event::Found { there }) => {
                if there {
                    self.find(false, Finding::PoolExists);
                    self.go(Phase::Finished);
                } else {
                    self.go(Phase::Creating);
                }
            },
            (Phase::Creating, Event::Created { frames, hot, metadata, disk }) => {
                self.progress.frames = frames;
                self.progress.hot = hot;
                self.progress.metadata = metadata;
                self.progress.bound = p.start.saturating_add(hot).saturating_add(
                    metadata,
                ).saturating_add(PROCESS_SLACK);
                self.find(disk <= SPARSE_LIMIT, Finding::NotSparse { allocated: disk });
                self.go(Phase::Allocating);
            },
            (Phase::Allocating, Event::Allocated { first }) => {
                self.progress.middle = first.saturating_add(n / 2);
                if n > 0 {
                    self.go(Phase::WritingA { b: 0 });
                } else {
                    self.go(Phase::SamplingA);
                }
            },
            (Phase::WritingA { b }, Event::Wrote { sample }) => {
                self.sample(sample);
                self.step(b, n, Phase::WritingA { b: b + 1 }, Phase::SamplingA);
            },
            (Phase::SamplingA, Event::Footprint { bytes }) => {
                self.sample(bytes);
                self.go(Phase::InspectingA);
            },
            (Phase::InspectingA, Event::Inspected { disk, resident }) => {
                self.find(resident <= p.frames, Finding::TooManyResident);
                self.find(
                    disk >= plan.region.saturating_sub(p.hot),
                    Finding::NotOnDisk { allocated: disk },
                );
                self.check_bound(When::AfterWriteA);
                self.go(Phase::EvictingA);
                proof {
                    let a = unless(resident <= p.frames, Finding::TooManyResident);
                    let b = unless(
                        disk >= plan.region - p.hot,
                        Finding::NotOnDisk { allocated: disk },
                    );
                    let c = p.over(When::AfterWriteA);
                    assert(((had + a) + b) + c =~= had + (a + b + c));
                }
            },
            (Phase::EvictingA, Event::Emptied { resident }) => {
                self.find(resident == 0, Finding::StillResident { blocks: resident });
                self.clear_tally();
                if n > 0 {
                    self.go(Phase::ReadingA { b: 0 });
                } else {
                    self.go(Phase::SamplingReadA);
                }
            },
            (Phase::ReadingA { b }, Event::Compared { at, sample }) => {
                self.compare(b, at);
                self.sample(sample);
                self.step(b, n, Phase::ReadingA { b: b + 1 }, Phase::SamplingReadA);
            },
            (Phase::SamplingReadA, Event::Footprint { bytes }) => {
                self.sample(bytes);
                let ghost q = self.progress;
                self.progress.right_a = self.progress.right;
                let ghost mut lost: Seq<Finding> = Seq::empty();
                if let Some((block, at)) = self.progress.first_wrong {
                    let wrong: u64 = self.progress.wrong;
                    self.find(false, Finding::LostA { mismatches: wrong, block, at });
                    proof {
                        lost = seq![Finding::LostA { mismatches: wrong, block, at }];
                    }
                }
                assert(self.findings@ =~= had + lost);
                self.check_bound(When::AfterReadA);
                proof {
                    assert((had + lost) + q.over(When::AfterReadA) =~= had + (lost + q.over(
                        When::AfterReadA,
                    )));
                }
                if n > 0 {
                    self.go(Phase::WritingB { b: 0 });
                } else {
                    self.go(Phase::Syncing);
                }
            },
            (Phase::WritingB { b }, Event::Wrote { sample }) => {
                self.sample(sample);
                self.step(b, n, Phase::WritingB { b: b + 1 }, Phase::Syncing);
            },
            (Phase::Syncing, Event::Done) => {
                self.go(Phase::Closing);
            },
            (Phase::Closing, Event::Done) => {
                self.go(Phase::Reopening);
            },
            (Phase::Reopening, Event::Reopened { same }) => {
                if same {
                    self.clear_tally();
                    if n > 0 {
                        self.go(Phase::ReadingB { b: 0 });
                    } else {
                        self.go(Phase::ClosingB);
                    }
                } else {
                    self.find(false, Finding::RegionLost);
                    self.go(Phase::Finished);
                }
            },
            (Phase::ReadingB { b }, Event::Compared { at, sample }) => {
                self.compare(b, at);
                self.sample(sample);
                if b + 1 < n {
                    self.go(Phase::ReadingB { b: b + 1 });
                } else {
                    let ghost q = self.progress;
                    self.progress.right_b = self.progress.right;
                    let ghost mut lost: Seq<Finding> = Seq::empty();
                    if let Some((block, at)) = self.progress.first_wrong {
                        let wrong: u64 = self.progress.wrong;
                        self.find(false, Finding::LostB { mismatches: wrong, block, at });
                        proof {
                            lost = seq![Finding::LostB { mismatches: wrong, block, at }];
                        }
                    }
                    assert(self.findings@ =~= had + lost);
                    self.check_bound(When::AfterReadB);
                    proof {
                        assert((had + lost) + q.over(When::AfterReadB) =~= had + (lost + q.over(
                            When::AfterReadB,
                        )));
                    }
                    self.go(Phase::ClosingB);
                }
            },
            (Phase::ClosingB, Event::Done) => {
                self.go(Phase::Flipping);
            },
            (Phase::Flipping, Event::Done) => {
                self.go(Phase::ReadingFlipped);
            },
            (Phase::ReadingFlipped, Event::Middle { how }) => {
                match how {
                    Middle::Corrupt { block } => {
                        if block == p.middle {
                            self.progress.detected = true;
                        } else {
                            self.find(false, Finding::WrongError);
                        }
                    },
                    Middle::Error => {
                        self.find(false, Finding::WrongError);
                    },
                    _ => {
                        self.find(false, Finding::Undetected);
                    },
                }
                self.go(Phase::Restoring);
            },
            (Phase::Restoring, Event::Done) => {
                self.go(Phase::ReadingRestored);
            },
            (Phase::ReadingRestored, Event::Middle { how }) => {
                match how {
                    Middle::Equal => {
                        self.progress.restored = true;
                    },
                    Middle::Different => {
                        self.find(false, Finding::WrongAfterRestore);
                    },
                    _ => {
                        self.find(false, Finding::ErrorAfterRestore);
                    },
                }
                self.go(Phase::Cooling);
            },
            (Phase::Cooling, Event::Done) => {
                if plan.ops > 0 {
                    self.go(Phase::Skewing { i: 0 });
                } else {
                    self.go(Phase::SamplingSkew);
                }
            },
            (Phase::Skewing { i }, Event::Done) => {
                self.step(i, plan.ops, Phase::Skewing { i: i + 1 }, Phase::SamplingSkew);
            },
            (Phase::SamplingSkew, Event::Footprint { bytes }) => {
                self.sample(bytes);
                self.check_bound(When::AfterSkew);
                self.go(Phase::ClosingSkew);
            },
            (Phase::ClosingSkew, Event::Done) => {
                if plan.baselines {
                    self.go(Phase::Preading);
                } else if plan.keep_pool {
                    self.go(Phase::Finished);
                } else {
                    self.go(Phase::Removing);
                }
            },
            (Phase::Preading, Event::Done) => {
                self.go(Phase::Mapping);
            },
            (Phase::Mapping, Event::Done) => {
                if plan.keep_pool {
                    self.go(Phase::Finished);
                } else {
                    self.go(Phase::Removing);
                }
            },
            (Phase::Removing, Event::Done) => {
                self.go(Phase::Finished);
            },
            _ => {},
        }
    }
}

/// A run that ends without a finding has shown everything it claims: every
/// block of the region came back byte for byte after an eviction of
/// everything, and again across a reopen; the flipped byte was detected in
/// exactly its block, and restoring it cleared the error.
pub proof fn law_passing_means_shown(plan: Plan, p: Progress, findings: Seq<Finding>)
    requires
        coherent(plan, p, findings),
        p.phase is Finished,
        findings.len() == 0,
        plan.blocks > 0,
    ensures
        p.right_a == plan.blocks,
        p.right_b == plan.blocks,
        p.detected,
        p.restored,
{
}

/// Tampering is undone by itself: the order that restores the byte is the
/// order that flipped it, and flipping twice changes nothing.
pub proof fn law_restoring_undoes_the_flip(plan: Plan, p: Progress, v: u8)
    ensures
        order_of(plan, p.at(Phase::Restoring)) == order_of(plan, p.at(Phase::Flipping)),
        order_of(plan, p.at(Phase::Flipping)) matches Order::Flip { block, byte, mask } && v ^ mask
            != v && (v ^ mask) ^ mask == v,
{
    assert(v ^ 0x40 != v && (v ^ 0x40) ^ 0x40 == v) by (bit_vector);
}

/// No claim, once false, is forgotten.
pub proof fn law_findings_only_grow(
    plan: Plan,
    p: Progress,
    ev: Event,
    findings: Seq<Finding>,
    i: int,
)
    requires
        0 <= i < findings.len(),
    ensures
        (findings + advanced(plan, p, ev).1)[i] == findings[i],
        (findings + advanced(plan, p, ev).1).len() >= findings.len(),
{
}

/// The experiment ends: every event leads to a later phase, or to the next
/// block of the same pass.
pub proof fn law_experiment_goes_forward(plan: Plan, p: Progress, ev: Event, findings: Seq<Finding>)
    requires
        coherent(plan, p, findings),
        answers(order_of(plan, p), ev),
    ensures
        ({
            let q = advanced(plan, p, ev).0;
            ||| stage_of(q.phase) > stage_of(p.phase)
            ||| match (p.phase, q.phase) {
                (Phase::WritingA { b }, Phase::WritingA { b: c }) => b < c < plan.blocks,
                (Phase::ReadingA { b }, Phase::ReadingA { b: c }) => b < c < plan.blocks,
                (Phase::WritingB { b }, Phase::WritingB { b: c }) => b < c < plan.blocks,
                (Phase::ReadingB { b }, Phase::ReadingB { b: c }) => b < c < plan.blocks,
                (Phase::Skewing { i }, Phase::Skewing { i: j }) => i < j < plan.ops,
                _ => false,
            }
        }),
{
}

} // verus!
