//! What a run of the experiment amounts to, from its first order to its last.
//!
//! A run is a sequence of states, each with an order for the driver, and the
//! events that answered the orders. The orders of every run follow one
//! timetable, and a run that ends without a finding has seen every claim
//! hold.

#[allow(unused_imports)]
use crate::prove::{
    advanced, answers, order_of, Event, Finding, Middle, Order, Phase, Plan, Progress, When,
    FLIP_BYTE, FLIP_MASK,
};
use vstd::prelude::*;

verus! {

/// The event answers the order of state `q`, and state `r` comes next.
#[verifier::opaque]
pub open spec fn follows(plan: Plan, q: Progress, ev: Event, r: Progress) -> bool {
    answers(order_of(plan, q), ev) && r == advanced(plan, q, ev).0
}

/// The event gives no finding in state `q`.
#[verifier::opaque]
pub open spec fn agreed(plan: Plan, q: Progress, ev: Event) -> bool {
    advanced(plan, q, ev).1.len() == 0
}

/// The states `p` are those of a run that was told the events `ev`.
pub open spec fn runs(plan: Plan, p: Seq<Progress>, ev: Seq<Event>) -> bool {
    &&& p.len() == ev.len() + 1
    &&& p[0] == Progress::start()
    &&& forall|i: int| 0 <= i < ev.len() ==> follows(plan, p[i], #[trigger] ev[i], p[i + 1])
}

/// No event gave a finding.
pub open spec fn unobjected(plan: Plan, p: Seq<Progress>, ev: Seq<Event>) -> bool {
    forall|i: int| 0 <= i < ev.len() ==> agreed(plan, p[i], #[trigger] ev[i])
}

/// How many orders a run has that nothing cuts short.
pub open spec fn run_length(plan: Plan) -> int {
    19 + 4 * plan.blocks + plan.ops + (if plan.baselines {
        2int
    } else {
        0
    }) + (if plan.keep_pool {
        0int
    } else {
        1
    })
}

/// The order that is given at a time, counted from 0: measure, look, create,
/// allocate; write the first pattern block by block; sample, inspect, evict;
/// read it back block by block; sample; write the second pattern; sync, close,
/// reopen; read it back; close; flip a byte, read, flip it back, read; cool
/// down; the skewed reads; sample, close; the two baselines if they are
/// wanted; remove the pool unless it is kept.
pub open spec fn timetable(plan: Plan, first: u64, i: int) -> Order {
    let n = plan.blocks as int;
    let skew = 17 + 4 * n;
    let tail = skew + plan.ops;
    let bases = if plan.baselines {
        2int
    } else {
        0
    };
    let flip = Order::Flip {
        block: if first + n / 2 > u64::MAX {
            u64::MAX
        } else {
            (first + n / 2) as u64
        },
        byte: 4321,
        mask: 0x40,
    };
    let middle = (n / 2) as u64;
    if i == 0 {
        Order::Measure
    } else if i == 1 {
        Order::Look
    } else if i == 2 {
        Order::Create
    } else if i == 3 {
        Order::Allocate
    } else if i < 4 + n {
        Order::Write { tag: 65, block: (i - 4) as u64, sample: (i - 4) % 256 == 0 }
    } else if i == 4 + n {
        Order::Sample
    } else if i == 5 + n {
        Order::Inspect
    } else if i == 6 + n {
        Order::Evict { scribble: 0xEE }
    } else if i < 7 + 2 * n {
        Order::Read { tag: 65, block: (i - 7 - n) as u64, sample: (i - 7 - n) % 256 == 0 }
    } else if i == 7 + 2 * n {
        Order::Sample
    } else if i < 8 + 3 * n {
        Order::Write { tag: 66, block: (i - 8 - 2 * n) as u64, sample: (i - 8 - 2 * n) % 256 == 0 }
    } else if i == 8 + 3 * n {
        Order::Sync
    } else if i == 9 + 3 * n {
        Order::Close
    } else if i == 10 + 3 * n {
        Order::Reopen
    } else if i < 11 + 4 * n {
        Order::Read { tag: 66, block: (i - 11 - 3 * n) as u64, sample: (i - 11 - 3 * n) % 256 == 0 }
    } else if i == 11 + 4 * n {
        Order::Close
    } else if i == 12 + 4 * n {
        flip
    } else if i == 13 + 4 * n {
        Order::ReadMiddle { tag: 66, block: middle, close: true }
    } else if i == 14 + 4 * n {
        flip
    } else if i == 15 + 4 * n {
        Order::ReadMiddle { tag: 66, block: middle, close: false }
    } else if i == 16 + 4 * n {
        Order::Cool
    } else if i < tail {
        Order::Skew { index: (i - skew) as u64 }
    } else if i == tail {
        Order::Sample
    } else if i == tail + 1 {
        Order::Close
    } else if plan.baselines && i == tail + 2 {
        Order::Pread
    } else if plan.baselines && i == tail + 3 {
        Order::Mmap
    } else if !plan.keep_pool && i == tail + 2 + bases {
        Order::Remove
    } else {
        Order::Finish
    }
}

/// The time of a phase.
pub open spec fn time_of(plan: Plan, phase: Phase) -> int {
    let n = plan.blocks as int;
    let tail = 17 + 4 * n + plan.ops;
    match phase {
        Phase::Measuring => 0,
        Phase::Looking => 1,
        Phase::Creating => 2,
        Phase::Allocating => 3,
        Phase::WritingA { b } => 4 + b,
        Phase::SamplingA => 4 + n,
        Phase::InspectingA => 5 + n,
        Phase::EvictingA => 6 + n,
        Phase::ReadingA { b } => 7 + n + b,
        Phase::SamplingReadA => 7 + 2 * n,
        Phase::WritingB { b } => 8 + 2 * n + b,
        Phase::Syncing => 8 + 3 * n,
        Phase::Closing => 9 + 3 * n,
        Phase::Reopening => 10 + 3 * n,
        Phase::ReadingB { b } => 11 + 3 * n + b,
        Phase::ClosingB => 11 + 4 * n,
        Phase::Flipping => 12 + 4 * n,
        Phase::ReadingFlipped => 13 + 4 * n,
        Phase::Restoring => 14 + 4 * n,
        Phase::ReadingRestored => 15 + 4 * n,
        Phase::Cooling => 16 + 4 * n,
        Phase::Skewing { i } => 17 + 4 * n + i,
        Phase::SamplingSkew => tail,
        Phase::ClosingSkew => tail + 1,
        Phase::Preading => tail + 2,
        Phase::Mapping => tail + 3,
        Phase::Removing => run_length(plan) - 1,
        Phase::Finished => run_length(plan),
    }
}

/// A pass stays in its range, and what is left out does not come up.
pub open spec fn in_time(plan: Plan, phase: Phase) -> bool {
    match phase {
        Phase::WritingA { b } => b < plan.blocks,
        Phase::ReadingA { b } => b < plan.blocks,
        Phase::WritingB { b } => b < plan.blocks,
        Phase::ReadingB { b } => b < plan.blocks,
        Phase::Skewing { i } => i < plan.ops,
        Phase::Preading => plan.baselines,
        Phase::Mapping => plan.baselines,
        Phase::Removing => !plan.keep_pool,
        _ => true,
    }
}

/// The order of a state is that of its time.
proof fn lemma_order(plan: Plan, q: Progress, first: u64)
    requires
        in_time(plan, q.phase),
        time_of(plan, q.phase) >= 4 ==> q.middle == if first + plan.blocks / 2 > u64::MAX {
            u64::MAX as int
        } else {
            first + plan.blocks / 2
        },
    ensures
        order_of(plan, q) == timetable(plan, first, time_of(plan, q.phase)),
        order_of(plan, q) is Finish <==> q.phase is Finished,
{
}

/// The phase that comes next is the next in time.
spec fn next_in_time(plan: Plan, q: Phase, r: Phase) -> bool {
    &&& in_time(plan, r)
    &&& time_of(plan, r) == time_of(plan, q) + 1
}

/// The phases up to the end of the first reading pass.
spec fn early(q: Phase) -> bool {
    match q {
        Phase::Measuring => true,
        Phase::Looking => true,
        Phase::Creating => true,
        Phase::Allocating => true,
        Phase::WritingA { b } => true,
        Phase::SamplingA => true,
        Phase::InspectingA => true,
        Phase::EvictingA => true,
        Phase::ReadingA { b } => true,
        Phase::SamplingReadA => true,
        _ => false,
    }
}

/// The phases up to the flip.
spec fn midway(q: Phase) -> bool {
    match q {
        Phase::WritingB { b } => true,
        Phase::Syncing => true,
        Phase::Closing => true,
        Phase::Reopening => true,
        Phase::ReadingB { b } => true,
        Phase::ClosingB => true,
        Phase::Flipping => true,
        _ => false,
    }
}

proof fn lemma_time_early(plan: Plan, q: Progress, ev: Event)
    requires
        answers(order_of(plan, q), ev),
        in_time(plan, q.phase),
        early(q.phase),
    ensures
        ({
            let (r, f) = advanced(plan, q, ev);
            if r.phase is Finished {
                f.len() > 0
            } else {
                next_in_time(plan, q.phase, r.phase)
            }
        }),
{
}

proof fn lemma_time_midway(plan: Plan, q: Progress, ev: Event)
    requires
        answers(order_of(plan, q), ev),
        in_time(plan, q.phase),
        midway(q.phase),
    ensures
        ({
            let (r, f) = advanced(plan, q, ev);
            if r.phase is Finished {
                f.len() > 0
            } else {
                next_in_time(plan, q.phase, r.phase)
            }
        }),
{
}

proof fn lemma_time_late(plan: Plan, q: Progress, ev: Event)
    requires
        answers(order_of(plan, q), ev),
        in_time(plan, q.phase),
        !early(q.phase),
        !midway(q.phase),
    ensures
        ({
            let (r, f) = advanced(plan, q, ev);
            f.len() > 0 && r.phase is Finished || next_in_time(plan, q.phase, r.phase)
        }),
{
}

/// A state is on time.
proof fn lemma_time(plan: Plan, q: Progress, ev: Event, r: Progress)
    requires
        follows(plan, q, ev, r),
        in_time(plan, q.phase),
    ensures
        !(q.phase is Finished),
        in_time(plan, r.phase),
        !(r.phase is Finished) ==> time_of(plan, r.phase) == time_of(plan, q.phase) + 1,
        agreed(plan, q, ev) ==> time_of(plan, r.phase) == time_of(plan, q.phase) + 1,
        time_of(plan, q.phase) < run_length(plan),
{
    reveal(follows);
    reveal(agreed);
    assert(time_of(plan, q.phase) < run_length(plan));
    if early(q.phase) {
        lemma_time_early(plan, q, ev);
    } else if midway(q.phase) {
        lemma_time_midway(plan, q, ev);
    } else {
        lemma_time_late(plan, q, ev);
    }
}

/// A run that goes on is on time; one without a finding also ends on time.
proof fn lemma_on_time(plan: Plan, p: Seq<Progress>, ev: Seq<Event>, i: int)
    requires
        runs(plan, p, ev),
        0 <= i <= ev.len(),
    ensures
        !(p[i].phase is Finished) ==> time_of(plan, p[i].phase) == i,
        unobjected(plan, p, ev) ==> time_of(plan, p[i].phase) == i,
        in_time(plan, p[i].phase),
        i <= run_length(plan),
        i < ev.len() ==> !(p[i].phase is Finished),
    decreases i,
{
    if i > 0 {
        lemma_on_time(plan, p, ev, i - 1);
        assert(follows(plan, p[i - 1], ev[i - 1], p[i - 1 + 1]));
        lemma_time(plan, p[i - 1], ev[i - 1], p[i]);
        if unobjected(plan, p, ev) {
            assert(agreed(plan, p[i - 1], ev[i - 1]));
        }
    }
    if i < ev.len() {
        assert(follows(plan, p[i], ev[i], p[i + 1]));
        lemma_time(plan, p[i], ev[i], p[i + 1]);
    }
}

/// Where the region starts, as the run was told.
pub open spec fn first_block(ev: Seq<Event>) -> u64 {
    match ev[3] {
        Event::Allocated { first } => first,
        _ => 0,
    }
}

/// What was measured before anything was allocated.
pub open spec fn start_bytes(ev: Seq<Event>) -> int {
    match ev[0] {
        Event::Footprint { bytes } => match bytes {
            Some(b) => b as int,
            None => 0,
        },
        _ => 0,
    }
}

/// What the frames and the metadata take, as the run was told.
pub open spec fn arena_bytes(ev: Seq<Event>) -> int {
    match ev[2] {
        Event::Created { frames, hot, metadata, disk } => hot + metadata,
        _ => 0,
    }
}

/// A sample of the footprint that came with an event.
pub open spec fn sample_in(ev: Event) -> Option<u64> {
    match ev {
        Event::Footprint { bytes } => bytes,
        Event::Wrote { sample } => sample,
        Event::Compared { at, sample } => sample,
        _ => None,
    }
}

/// Where a compared block differed.
pub open spec fn differed(ev: Event) -> Option<usize> {
    match ev {
        Event::Compared { at, sample } => at,
        _ => None,
    }
}

/// How many of the events from `lo` up to `hi` report a block that differs.
pub open spec fn mismatches(ev: Seq<Event>, lo: int, hi: int) -> nat
    decreases hi - lo,
{
    if hi <= lo {
        0
    } else {
        mismatches(ev, lo, hi - 1) + if differed(ev[hi - 1]) is Some {
            1nat
        } else {
            0nat
        }
    }
}

/// Event `j` is the first from `lo` up to `hi` that reports a block that
/// differs.
pub open spec fn first_mismatch(ev: Seq<Event>, lo: int, hi: int, j: int) -> bool {
    &&& lo <= j < hi
    &&& differed(ev[j]) is Some
    &&& forall|k: int| lo <= k < j ==> differed(#[trigger] ev[k]) is None
}

/// What a state knows of the blocks compared from `lo` up to `hi`.
spec fn tallied(q: Progress, ev: Seq<Event>, lo: int, hi: int) -> bool {
    &&& q.wrong == mismatches(ev, lo, hi)
    &&& q.right == hi - lo - mismatches(ev, lo, hi)
    &&& match q.first_wrong {
        None => forall|k: int| lo <= k < hi ==> differed(#[trigger] ev[k]) is None,
        Some((b, at)) => first_mismatch(ev, lo, hi, lo + b) && differed(ev[lo + b]) == Some(at),
    }
}

/// What a state that goes on knows of the events before it.
spec fn informed(plan: Plan, q: Progress, ev: Seq<Event>, i: int) -> bool {
    let n = plan.blocks as int;
    &&& i >= 1 ==> q.start == start_bytes(ev) && ev[0] is Footprint && ev[0]->bytes is Some
    &&& i >= 2 ==> ev[1] == Event::Found { there: false }
    &&& i >= 3 ==> {
        &&& ev[2] matches Event::Created { frames, hot, metadata, disk } && q.frames == frames
            && q.hot == hot && q.metadata == metadata
        &&& q.bound <= start_bytes(ev) + arena_bytes(ev) + 50331648
        &&& q.bound < u64::MAX ==> q.bound == start_bytes(ev) + arena_bytes(ev) + 50331648
    }
    &&& i >= 4 ==> q.middle == if first_block(ev) + n / 2 > u64::MAX {
        u64::MAX as int
    } else {
        first_block(ev) + n / 2
    }
    &&& i <= 3 ==> q.max is None
    &&& forall|j: int|
        3 <= j < i ==> (sample_in(#[trigger] ev[j]) matches Some(s) ==> q.max is Some && s
            <= q.max->0)
    &&& q.max matches Some(m) ==> exists|j: int|
        3 <= j < i && sample_in(#[trigger] ev[j]) == Some(m)
    &&& q.right + q.wrong <= n
    &&& q.phase is ReadingA ==> tallied(q, ev, 7 + n, i)
    &&& q.phase is SamplingReadA ==> tallied(q, ev, 7 + n, i)
    &&& q.phase is ReadingB ==> tallied(q, ev, 11 + 3 * n, i)
}

/// What is known of the pool and its limits.
proof fn lemma_learns(plan: Plan, q: Progress, ev: Event, r: Progress)
    requires
        follows(plan, q, ev, r),
        in_time(plan, q.phase),
        !(r.phase is Finished) || agreed(plan, q, ev),
    ensures
        !(ev is Failed),
        if q.phase is Measuring {
            ev == (Event::Footprint { bytes: Some(r.start) })
        } else {
            r.start == q.start
        },
        q.phase is Looking ==> ev == (Event::Found { there: false }),
        if q.phase is Creating {
            &&& ev matches Event::Created { frames, hot, metadata, disk } && r.frames == frames
                && r.hot == hot && r.metadata == metadata
            &&& r.bound <= q.start + r.hot + r.metadata + 50331648
            &&& r.bound < u64::MAX ==> r.bound == q.start + r.hot + r.metadata + 50331648
        } else {
            r.frames == q.frames && r.hot == q.hot && r.metadata == q.metadata && r.bound
                == q.bound
        },
        if q.phase is Allocating {
            ev matches Event::Allocated { first } && r.middle == if first + plan.blocks / 2
                > u64::MAX {
                u64::MAX as int
            } else {
                first + plan.blocks / 2
            }
        } else {
            r.middle == q.middle
        },
{
    reveal(follows);
    reveal(agreed);
}

/// What is known of the samples and of the pass.
proof fn lemma_counts(plan: Plan, q: Progress, ev: Event, r: Progress)
    requires
        follows(plan, q, ev, r),
        in_time(plan, q.phase),
        q.phase is ReadingA || q.phase is ReadingB ==> q.right < u64::MAX && q.wrong < u64::MAX,
        !(r.phase is Finished) || agreed(plan, q, ev),
    ensures
        if time_of(plan, q.phase) < 3 {
            r.max == q.max
        } else {
            match sample_in(ev) {
                None => r.max == q.max,
                Some(s) => r.max is Some && s <= r.max->0 && (r.max == Some(s) || r.max == q.max)
                    && (q.max is Some ==> q.max->0 <= r.max->0),
            }
        },
        match q.phase {
            Phase::EvictingA => r.right == 0 && r.wrong == 0 && r.first_wrong is None,
            Phase::Reopening => r.right == 0 && r.wrong == 0 && r.first_wrong is None,
            Phase::ReadingA { b } => ev is Compared && compares(q, b, differed(ev), r),
            Phase::ReadingB { b } => ev is Compared && compares(q, b, differed(ev), r),
            _ => r.right == q.right && r.wrong == q.wrong && r.first_wrong == q.first_wrong,
        },
{
    reveal(follows);
    reveal(agreed);
}

/// One more block was compared.
spec fn compares(q: Progress, b: u64, at: Option<usize>, r: Progress) -> bool {
    match at {
        None => r.right == q.right + 1 && r.wrong == q.wrong && r.first_wrong == q.first_wrong,
        Some(x) => r.right == q.right && r.wrong == q.wrong + 1 && r.first_wrong
            == if q.first_wrong is None {
            Some((b, x))
        } else {
            q.first_wrong
        },
    }
}

/// What a state knows of a pass after one more block.
proof fn lemma_tallied(q: Progress, ev: Seq<Event>, lo: int, hi: int, b: u64, r: Progress)
    requires
        lo <= hi < ev.len(),
        hi - lo == b,
        tallied(q, ev, lo, hi),
        compares(q, b, differed(ev[hi]), r),
    ensures
        tallied(r, ev, lo, hi + 1),
{
    assert(mismatches(ev, lo, hi + 1) == mismatches(ev, lo, hi) + if differed(ev[hi]) is Some {
        1nat
    } else {
        0nat
    });
}

proof fn lemma_informed(plan: Plan, p: Seq<Progress>, ev: Seq<Event>, i: int)
    requires
        runs(plan, p, ev),
        0 <= i <= ev.len(),
        !(p[i].phase is Finished) || unobjected(plan, p, ev),
    ensures
        informed(plan, p[i], ev, i),
    decreases i,
{
    if i > 0 {
        let e = ev[i - 1];
        let q = p[i - 1];
        let r = p[i];
        let n = plan.blocks as int;
        assert(follows(plan, q, e, p[i - 1 + 1]));
        if unobjected(plan, p, ev) {
            assert(agreed(plan, q, e));
        }
        lemma_on_time(plan, p, ev, i - 1);
        lemma_on_time(plan, p, ev, i);
        lemma_informed(plan, p, ev, i - 1);
        lemma_time(plan, q, e, r);
        lemma_learns(plan, q, e, r);
        match q.phase {
            Phase::ReadingA { b } => lemma_few_mismatches(ev, 7 + n, i - 1),
            Phase::ReadingB { b } => lemma_few_mismatches(ev, 11 + 3 * n, i - 1),
            _ => {},
        }
        lemma_counts(plan, q, e, r);
        assert(r.max matches Some(m) ==> exists|j: int|
            3 <= j < i && sample_in(#[trigger] ev[j]) == Some(m)) by {
            if r.max is Some {
                if r.max == q.max {
                    let j = choose|j: int|
                        3 <= j < i - 1 && sample_in(#[trigger] ev[j]) == Some(q.max->0);
                    assert(sample_in(ev[j]) == Some(r.max->0));
                } else {
                    assert(sample_in(ev[i - 1]) == Some(r.max->0));
                }
            }
        }
        match q.phase {
            Phase::ReadingA { b } => {
                lemma_tallied(q, ev, 7 + n, i - 1, b, r);
                lemma_few_mismatches(ev, 7 + n, i);
            },
            Phase::ReadingB { b } => {
                lemma_tallied(q, ev, 11 + 3 * n, i - 1, b, r);
                lemma_few_mismatches(ev, 11 + 3 * n, i);
            },
            _ => {},
        }
    }
}

/// No more events report a difference than there are.
proof fn lemma_few_mismatches(ev: Seq<Event>, lo: int, hi: int)
    requires
        lo <= hi,
    ensures
        mismatches(ev, lo, hi) <= hi - lo,
    decreases hi - lo,
{
    if lo < hi {
        lemma_few_mismatches(ev, lo, hi - 1);
    }
}

/// What an event says that gives no finding.
proof fn lemma_agreed(plan: Plan, q: Progress, ev: Event, r: Progress)
    requires
        follows(plan, q, ev, r),
        agreed(plan, q, ev),
        in_time(plan, q.phase),
    ensures
        match q.phase {
            Phase::Creating => ev matches Event::Created { frames, hot, metadata, disk } && disk
                <= 16777216,
            Phase::InspectingA => ev matches Event::Inspected { disk, resident } && resident
                <= q.frames && disk + q.hot >= plan.region,
            Phase::EvictingA => ev == (Event::Emptied { resident: 0 }),
            Phase::ReadingA { b } => ev is Compared,
            Phase::SamplingReadA => q.first_wrong is None,
            Phase::Reopening => ev == (Event::Reopened { same: true }),
            Phase::ReadingB { b } => ev is Compared && (b + 1 == plan.blocks ==> q.first_wrong is None
                && differed(ev) is None),
            Phase::ReadingFlipped => ev == (Event::Middle {
                how: Middle::Corrupt { block: q.middle },
            }),
            Phase::ReadingRestored => ev == (Event::Middle { how: Middle::Equal }),
            Phase::SamplingSkew => r.max matches Some(m) ==> m <= r.bound,
            _ => true,
        },
        time_of(plan, q.phase) > 17 + 4 * plan.blocks + plan.ops ==> sample_in(ev) is None,
{
    reveal(follows);
    reveal(agreed);
}

/// The same in a run.
proof fn lemma_at(plan: Plan, p: Seq<Progress>, ev: Seq<Event>, i: int)
    requires
        runs(plan, p, ev),
        unobjected(plan, p, ev),
        0 <= i < ev.len(),
    ensures
        follows(plan, p[i], ev[i], p[i + 1]),
        agreed(plan, p[i], ev[i]),
        in_time(plan, p[i].phase),
        time_of(plan, p[i].phase) == i,
        informed(plan, p[i], ev, i),
        order_of(plan, p[i]) == timetable(plan, first_block(ev), i),
{
    assert(follows(plan, p[i], ev[i], p[i + 1]));
    assert(agreed(plan, p[i], ev[i]));
    lemma_on_time(plan, p, ev, i);
    lemma_informed(plan, p, ev, i);
    lemma_order(plan, p[i], first_block(ev));
}

/// A run without a finding is as long as the timetable.
proof fn lemma_length(plan: Plan, p: Seq<Progress>, ev: Seq<Event>)
    requires
        runs(plan, p, ev),
        unobjected(plan, p, ev),
        order_of(plan, p.last()) is Finish,
    ensures
        ev.len() == run_length(plan),
{
    let last = ev.len() as int;
    assert(p.last() == p[last]);
    lemma_on_time(plan, p, ev, last);
    assert(p[last].phase is Finished);
}

/// The order that a run gives at any time is the one the timetable has for
/// that time, unless a finding has cut the run short; in particular the order
/// at each place of a pass names the block of that place and the tag of that
/// pass.
pub proof fn law_orders_follow_the_timetable(
    plan: Plan,
    p: Seq<Progress>,
    ev: Seq<Event>,
    i: int,
)
    requires
        runs(plan, p, ev),
        0 <= i <= ev.len(),
    ensures
        !(order_of(plan, p[i]) is Finish) || unobjected(plan, p, ev) ==> order_of(plan, p[i])
            == timetable(plan, first_block(ev), i),
        unobjected(plan, p, ev) ==> (order_of(plan, p[i]) is Finish <==> i == run_length(plan)),
        i <= run_length(plan),
{
    lemma_on_time(plan, p, ev, i);
    if !(p[i].phase is Finished) || unobjected(plan, p, ev) {
        lemma_informed(plan, p, ev, i);
        lemma_order(plan, p[i], first_block(ev));
    }
}

/// In a run that ends without a finding, every block of the region was written
/// with the first pattern; then everything was evicted, and after that and
/// before anything else was written exactly this block was read back with the
/// first pattern and did not differ. The same of the second pattern, with a
/// reopen in place of the eviction.
pub proof fn law_every_block_was_shown(plan: Plan, p: Seq<Progress>, ev: Seq<Event>, b: u64)
    requires
        runs(plan, p, ev),
        unobjected(plan, p, ev),
        order_of(plan, p.last()) is Finish,
        b < plan.blocks,
    ensures
        ({
            let n = plan.blocks as int;
            let wrote_a = 4 + b;
            let evicted = 6 + n;
            let read_a = 7 + n + b;
            let wrote_b = 8 + 2 * n + b;
            let reopened = 10 + 3 * n;
            let read_b = 11 + 3 * n + b;
            &&& wrote_a < evicted < read_a < wrote_b < reopened < read_b < ev.len()
            &&& order_of(plan, p[wrote_a]) matches Order::Write { tag, block, sample } && tag == 65
                && block == b
            &&& order_of(plan, p[evicted]) is Evict
            &&& ev[evicted] == Event::Emptied { resident: 0 }
            &&& order_of(plan, p[read_a]) matches Order::Read { tag, block, sample } && tag == 65
                && block == b
            &&& ev[read_a] matches Event::Compared { at, sample } && at is None
            &&& order_of(plan, p[wrote_b]) matches Order::Write { tag, block, sample } && tag == 66
                && block == b
            &&& order_of(plan, p[reopened]) is Reopen
            &&& ev[reopened] == Event::Reopened { same: true }
            &&& order_of(plan, p[read_b]) matches Order::Read { tag, block, sample } && tag == 66
                && block == b
            &&& ev[read_b] matches Event::Compared { at, sample } && at is None
            &&& forall|j: int| #![trigger p[j]]
                evicted < j < 8 + 2 * n ==> !(order_of(plan, p[j]) is Write)
            &&& forall|j: int| #![trigger p[j]]
                reopened < j < 12 + 4 * n ==> !(order_of(plan, p[j]) is Write)
        }),
{
    let n = plan.blocks as int;
    lemma_length(plan, p, ev);
    lemma_shown_a(plan, p, ev, b);
    lemma_shown_b(plan, p, ev, b);
    assert forall|j: int| #![trigger p[j]] 6 + n < j < 8 + 2 * n implies !(order_of(
        plan,
        p[j],
    ) is Write) by {
        law_orders_follow_the_timetable(plan, p, ev, j);
    }
    assert forall|j: int| #![trigger p[j]] 10 + 3 * n < j < 12 + 4 * n implies !(order_of(
        plan,
        p[j],
    ) is Write) by {
        law_orders_follow_the_timetable(plan, p, ev, j);
    }
}

proof fn lemma_shown_a(plan: Plan, p: Seq<Progress>, ev: Seq<Event>, b: u64)
    requires
        runs(plan, p, ev),
        unobjected(plan, p, ev),
        ev.len() == run_length(plan),
        b < plan.blocks,
    ensures
        ({
            let n = plan.blocks as int;
            &&& order_of(plan, p[4 + b]) matches Order::Write { tag, block, sample } && tag == 65
                && block == b
            &&& order_of(plan, p[6 + n]) is Evict
            &&& ev[6 + n] == Event::Emptied { resident: 0 }
            &&& order_of(plan, p[7 + n + b]) matches Order::Read { tag, block, sample } && tag == 65
                && block == b
            &&& ev[7 + n + b] matches Event::Compared { at, sample } && at is None
        }),
{
    let n = plan.blocks as int;
    lemma_at(plan, p, ev, 4 + b);
    lemma_at(plan, p, ev, 6 + n);
    lemma_agreed(plan, p[6 + n], ev[6 + n], p[6 + n + 1]);
    lemma_at(plan, p, ev, 7 + n + b);
    lemma_agreed(plan, p[7 + n + b], ev[7 + n + b], p[7 + n + b + 1]);
    let s = 7 + 2 * n;
    lemma_at(plan, p, ev, s);
    assert(p[s].phase is SamplingReadA);
    lemma_agreed(plan, p[s], ev[s], p[s + 1]);
    assert(differed(ev[7 + n + b]) is None);
}

proof fn lemma_shown_b(plan: Plan, p: Seq<Progress>, ev: Seq<Event>, b: u64)
    requires
        runs(plan, p, ev),
        unobjected(plan, p, ev),
        ev.len() == run_length(plan),
        b < plan.blocks,
    ensures
        ({
            let n = plan.blocks as int;
            &&& order_of(plan, p[8 + 2 * n + b]) matches Order::Write { tag, block, sample } && tag
                == 66 && block == b
            &&& order_of(plan, p[10 + 3 * n]) is Reopen
            &&& ev[10 + 3 * n] == Event::Reopened { same: true }
            &&& order_of(plan, p[11 + 3 * n + b]) matches Order::Read { tag, block, sample } && tag
                == 66 && block == b
            &&& ev[11 + 3 * n + b] matches Event::Compared { at, sample } && at is None
        }),
{
    let n = plan.blocks as int;
    lemma_at(plan, p, ev, 8 + 2 * n + b);
    lemma_at(plan, p, ev, 10 + 3 * n);
    lemma_agreed(plan, p[10 + 3 * n], ev[10 + 3 * n], p[10 + 3 * n + 1]);
    let i = 11 + 3 * n + b;
    lemma_at(plan, p, ev, i);
    lemma_agreed(plan, p[i], ev[i], p[i + 1]);
    let t = 11 + 3 * n + (n - 1);
    lemma_at(plan, p, ev, t);
    assert(p[t].phase == Phase::ReadingB { b: (n - 1) as u64 });
    lemma_agreed(plan, p[t], ev[t], p[t + 1]);
    assert(differed(ev[i]) is None);
}

/// In a run that ends without a finding, a bit of the middle block of the
/// region was flipped on disk, reading was answered with just that block
/// reported corrupt, the same bit was flipped again, and reading the same
/// block gave what was written.
pub proof fn law_the_flip_was_noticed(plan: Plan, p: Seq<Progress>, ev: Seq<Event>)
    requires
        runs(plan, p, ev),
        unobjected(plan, p, ev),
        order_of(plan, p.last()) is Finish,
        first_block(ev) + plan.blocks <= u64::MAX,
    ensures
        ({
            let n = plan.blocks as int;
            let block = (first_block(ev) + n / 2) as u64;
            &&& 16 + 4 * n < ev.len()
            &&& order_of(plan, p[12 + 4 * n]) matches Order::Flip { block: x, byte, mask } && x
                == block && mask != 0
            &&& order_of(plan, p[13 + 4 * n]) matches Order::ReadMiddle { tag, block: x, close }
                && x == n / 2 && tag == 66 && close
            &&& ev[13 + 4 * n] == (Event::Middle { how: Middle::Corrupt { block } })
            &&& order_of(plan, p[14 + 4 * n]) == order_of(plan, p[12 + 4 * n])
            &&& order_of(plan, p[15 + 4 * n]) matches Order::ReadMiddle { tag, block: x, close }
                && x == n / 2 && tag == 66
            &&& ev[15 + 4 * n] == (Event::Middle { how: Middle::Equal })
        }),
{
    let n = plan.blocks as int;
    lemma_length(plan, p, ev);
    lemma_at(plan, p, ev, 12 + 4 * n);
    lemma_at(plan, p, ev, 13 + 4 * n);
    lemma_at(plan, p, ev, 14 + 4 * n);
    lemma_at(plan, p, ev, 15 + 4 * n);
    lemma_agreed(plan, p[13 + 4 * n], ev[13 + 4 * n], p[13 + 4 * n + 1]);
    lemma_agreed(plan, p[15 + 4 * n], ev[15 + 4 * n], p[15 + 4 * n + 1]);
}

/// In a run that ends without a finding, every sample of the footprint was
/// within what was there before, the frames, the metadata and the fixed
/// allowance; the fresh pool was sparse; and after the first pattern was
/// written no more blocks were resident than there are frames, and all that
/// cannot be in frames was on disk.
pub proof fn law_the_bounds_were_kept(plan: Plan, p: Seq<Progress>, ev: Seq<Event>, j: int)
    requires
        runs(plan, p, ev),
        unobjected(plan, p, ev),
        order_of(plan, p.last()) is Finish,
        3 <= j < ev.len(),
    ensures
        sample_in(ev[j]) matches Some(s) ==> s <= start_bytes(ev) + arena_bytes(ev) + 50331648,
        ev[2] matches Event::Created { frames, hot, metadata, disk } && disk <= 16777216 && (
        ev[5 + plan.blocks as int] matches Event::Inspected { disk: d, resident } && resident
            <= frames && d + hot >= plan.region),
{
    let n = plan.blocks as int;
    let s = 17 + 4 * n + plan.ops;
    lemma_length(plan, p, ev);
    lemma_at(plan, p, ev, s);
    lemma_agreed(plan, p[s], ev[s], p[s + 1]);
    lemma_at(plan, p, ev, s + 1);
    assert(p[s].phase is SamplingSkew);
    if j > s {
        lemma_at(plan, p, ev, j);
        lemma_agreed(plan, p[j], ev[j], p[j + 1]);
    }
    lemma_at(plan, p, ev, 2);
    lemma_agreed(plan, p[2], ev[2], p[3]);
    lemma_at(plan, p, ev, 5 + n);
    lemma_agreed(plan, p[5 + n], ev[5 + n], p[5 + n + 1]);
}

/// What a pass ends with.
spec fn reported(q: Progress, f: Finding, b: bool) -> bool {
    match q.first_wrong {
        None => false,
        Some((block, at)) => f == if b {
            Finding::LostB { mismatches: q.wrong, block, at }
        } else {
            Finding::LostA { mismatches: q.wrong, block, at }
        },
    }
}

proof fn lemma_reported_a(plan: Plan, q: Progress, ev: Event, f: Finding)
    requires
        answers(order_of(plan, q), ev),
        q.phase is SamplingReadA,
        !(ev is Failed),
        f is LostA,
    ensures
        advanced(plan, q, ev).1.contains(f) <==> reported(q, f, false),
        advanced(plan, q, ev).0.right_a == q.right,
{
    let fs = advanced(plan, q, ev).1;
    if q.first_wrong is Some {
        assert(fs[0] is LostA);
        assert(reported(q, fs[0], false));
    }
}

proof fn lemma_reported_b(plan: Plan, q: Progress, ev: Event, f: Finding, r: Progress)
    requires
        answers(order_of(plan, q), ev),
        q.phase matches Phase::ReadingB { b } && b + 1 == plan.blocks && compares(
            q,
            b,
            differed(ev),
            r,
        ),
        q.right < u64::MAX,
        q.wrong < u64::MAX,
        !(ev is Failed),
        f is LostB,
    ensures
        advanced(plan, q, ev).1.contains(f) <==> reported(r, f, true),
        advanced(plan, q, ev).0.right_b == r.right,
{
    let fs = advanced(plan, q, ev).1;
    if r.first_wrong is Some {
        assert(fs[0] is LostB);
        assert(reported(r, fs[0], true));
    }
}

/// The first difference is where it is.
proof fn lemma_first_is_one(q: Progress, ev: Seq<Event>, lo: int, hi: int, b: u64, at: usize, m: u64)
    requires
        tallied(q, ev, lo, hi),
    ensures
        q.first_wrong == Some((b, at)) && q.wrong == m <==> (m == mismatches(ev, lo, hi)
            && first_mismatch(ev, lo, hi, lo + b) && differed(ev[lo + b]) == Some(at)),
{
    if first_mismatch(ev, lo, hi, lo + b) {
        if q.first_wrong is Some {
            let (c, x) = q.first_wrong->0;
            if c < b {
                assert(differed(ev[lo + c]) is None);
            } else if b < c {
                assert(differed(ev[lo + b]) is None);
            }
        } else {
            assert(differed(ev[lo + b]) is None);
        }
    }
}

/// A pass that reads back reports what it saw: nothing where no block
/// differed, else how many did, the first of them and where it differed. The
/// blocks that came back right are counted, too.
pub proof fn law_a_pass_reports_what_it_saw(
    plan: Plan,
    p: Seq<Progress>,
    ev: Seq<Event>,
    b: u64,
    at: usize,
    m: u64,
)
    requires
        runs(plan, p, ev),
        plan.blocks > 0,
    ensures
        ({
            let n = plan.blocks as int;
            let lo = 7 + n;
            let hi = 7 + 2 * n;
            ev.len() > hi && !(order_of(plan, p[hi]) is Finish) && !(ev[hi] is Failed) ==> {
                let (q, f) = advanced(plan, p[hi], ev[hi]);
                &&& f.contains(Finding::LostA { mismatches: m, block: b, at }) <==> (m
                    == mismatches(ev, lo, hi) && first_mismatch(ev, lo, hi, lo + b) && differed(
                    ev[lo + b],
                ) == Some(at))
                &&& q.right_a == n - mismatches(ev, lo, hi)
            }
        }),
        ({
            let n = plan.blocks as int;
            let lo = 11 + 3 * n;
            let hi = 11 + 4 * n;
            ev.len() >= hi && !(order_of(plan, p[hi - 1]) is Finish) && !(ev[hi - 1] is Failed)
                ==> {
                let (q, f) = advanced(plan, p[hi - 1], ev[hi - 1]);
                &&& f.contains(Finding::LostB { mismatches: m, block: b, at }) <==> (m
                    == mismatches(ev, lo, hi) && first_mismatch(ev, lo, hi, lo + b) && differed(
                    ev[lo + b],
                ) == Some(at))
                &&& q.right_b == n - mismatches(ev, lo, hi)
            }
        }),
{
    let n = plan.blocks as int;
    let hi = 7 + 2 * n;
    if ev.len() > hi && !(order_of(plan, p[hi]) is Finish) && !(ev[hi] is Failed) {
        lemma_on_time(plan, p, ev, hi);
        lemma_informed(plan, p, ev, hi);
        assert(follows(plan, p[hi], ev[hi], p[hi + 1]));
        assert(answers(order_of(plan, p[hi]), ev[hi])) by {
            reveal(follows);
        }
        assert(p[hi].phase is SamplingReadA);
        lemma_reported_a(plan, p[hi], ev[hi], Finding::LostA { mismatches: m, block: b, at });
        lemma_first_is_one(p[hi], ev, 7 + n, hi, b, at, m);
    }
    let t = 11 + 4 * n - 1;
    let lo = 11 + 3 * n;
    if ev.len() > t && !(order_of(plan, p[t]) is Finish) && !(ev[t] is Failed) {
        lemma_on_time(plan, p, ev, t);
        lemma_informed(plan, p, ev, t);
        assert(follows(plan, p[t], ev[t], p[t + 1]));
        assert(answers(order_of(plan, p[t]), ev[t])) by {
            reveal(follows);
        }
        let q = p[t];
        assert(q.phase == Phase::ReadingB { b: (n - 1) as u64 });
        lemma_few_mismatches(ev, lo, t);
        let r = q.compared((n - 1) as u64, differed(ev[t]));
        lemma_tallied(q, ev, lo, t, (n - 1) as u64, r);
        lemma_reported_b(plan, q, ev[t], Finding::LostB { mismatches: m, block: b, at }, r);
        lemma_first_is_one(r, ev, lo, t + 1, b, at, m);
    }
}

// ---- findings -----------------------------------------------------------

/// The largest footprint known once an event has come in.
pub open spec fn peak(q: Progress, ev: Event) -> int {
    let a = match q.max {
        Some(m) => m as int,
        None => 0,
    };
    let b = match sample_in(ev) {
        Some(m) => m as int,
        None => 0,
    };
    if a >= b {
        a
    } else {
        b
    }
}

/// The event shows that a claim is false.
pub open spec fn refuted(plan: Plan, q: Progress, ev: Event, f: Finding) -> bool {
    match f {
        Finding::Aborted => ev is Failed,
        Finding::NoWitness => q.phase is Measuring && ev == (Event::Footprint { bytes: None }),
        Finding::PoolExists => ev == (Event::Found { there: true }),
        Finding::NotSparse { allocated } => ev is Created && ev->Created_disk == allocated
            && allocated > 16777216,
        Finding::TooManyResident => ev is Inspected && ev->Inspected_resident > q.frames,
        Finding::NotOnDisk { allocated } => ev is Inspected && ev->Inspected_disk == allocated
            && allocated + q.hot < plan.region,
        Finding::StillResident { blocks } => ev == (Event::Emptied { resident: blocks }) && blocks
            > 0,
        Finding::RegionLost => ev == (Event::Reopened { same: false }),
        Finding::Undetected => q.phase is ReadingFlipped && (ev == (Event::Middle {
            how: Middle::Equal,
        }) || ev == (Event::Middle { how: Middle::Different })),
        Finding::WrongError => q.phase is ReadingFlipped && ev is Middle && !(ev->how is Equal)
            && !(ev->how is Different) && ev->how != (Middle::Corrupt { block: q.middle }),
        Finding::WrongAfterRestore => q.phase is ReadingRestored && ev == (Event::Middle {
            how: Middle::Different,
        }),
        Finding::ErrorAfterRestore => q.phase is ReadingRestored && ev is Middle && !(
        ev->how is Equal) && !(ev->how is Different),
        Finding::OverBound { when, max, bound } => {
            &&& !(ev is Failed)
            &&& bound == q.bound
            &&& max > bound
            &&& max == peak(q, ev)
            &&& match when {
                When::AfterWriteA => q.phase is InspectingA,
                When::AfterReadA => q.phase is SamplingReadA,
                When::AfterReadB => q.phase matches Phase::ReadingB { b } && b + 1 == plan.blocks,
                When::AfterSkew => q.phase is SamplingSkew,
            }
        },
        Finding::LostA { mismatches, block, at } => {
            &&& q.phase is SamplingReadA
            &&& !(ev is Failed)
            &&& q.wrong == mismatches
            &&& q.first_wrong == Some((block, at))
        },
        Finding::LostB { mismatches, block, at } => {
            &&& q.phase matches Phase::ReadingB { b }
            &&& b + 1 == plan.blocks
            &&& ev matches Event::Compared { at: here, sample }
            &&& mismatches == q.wrong + if here is Some {
                1int
            } else {
                0int
            }
            &&& match q.first_wrong {
                Some((c, x)) => c == block && x == at,
                None => here == Some(at) && block == b,
            }
        },
    }
}

proof fn lemma_contains_sum(a: Seq<Finding>, b: Seq<Finding>, f: Finding)
    ensures
        (a + b).contains(f) <==> a.contains(f) || b.contains(f),
{
    if a.contains(f) {
        let i = choose|i: int| 0 <= i < a.len() && a[i] == f;
        assert((a + b)[i] == f);
    }
    if b.contains(f) {
        let i = choose|i: int| 0 <= i < b.len() && b[i] == f;
        assert((a + b)[a.len() + i] == f);
    }
    if (a + b).contains(f) {
        let i = choose|i: int| 0 <= i < (a + b).len() && (a + b)[i] == f;
        if i < a.len() {
            assert(a[i] == f);
        } else {
            assert(b[i - a.len()] == f);
        }
    }
}

proof fn lemma_contains_one(x: Finding, f: Finding)
    ensures
        seq![x].contains(f) <==> x == f,
        !Seq::<Finding>::empty().contains(f),
{
    assert(seq![x][0] == x);
}

/// When the bound was exceeded.
proof fn lemma_over(q: Progress, when: When, f: Finding)
    ensures
        q.over(when).contains(f) <==> q.max is Some && q.max->0 > q.bound && f
            == (Finding::OverBound { when, max: q.max->0, bound: q.bound }),
{
    let m = match q.max {
        Some(m) => m,
        None => 0,
    };
    lemma_contains_one(Finding::OverBound { when, max: m, bound: q.bound }, f);
}

/// A claim is recorded as false exactly when the event shows it, with the
/// numbers that the event and the run so far give.
#[verifier::rlimit(60)]
pub proof fn law_findings_are_deserved(plan: Plan, q: Progress, ev: Event, f: Finding)
    requires
        answers(order_of(plan, q), ev),
        in_time(plan, q.phase),
        q.right < u64::MAX,
        q.wrong < u64::MAX,
        q.wrong > 0 <==> q.first_wrong is Some,
    ensures
        advanced(plan, q, ev).1.contains(f) <==> refuted(plan, q, ev, f),
{
    let fs = advanced(plan, q, ev).1;
    if fs.len() == 1 {
        lemma_contains_one(fs[0], f);
        assert(fs =~= seq![fs[0]]);
    }
    if fs.len() == 0 {
        assert(fs =~= Seq::empty());
        lemma_contains_one(f, f);
    }
    match (q.phase, ev) {
        (Phase::InspectingA, Event::Inspected { disk, resident }) => {
            let a = crate::prove::unless(resident <= q.frames, Finding::TooManyResident);
            let b = crate::prove::unless(
                disk >= plan.region - q.hot,
                Finding::NotOnDisk { allocated: disk },
            );
            let c = q.over(When::AfterWriteA);
            lemma_contains_sum(a + b, c, f);
            lemma_contains_sum(a, b, f);
            lemma_contains_one(Finding::TooManyResident, f);
            lemma_contains_one(Finding::NotOnDisk { allocated: disk }, f);
            lemma_over(q, When::AfterWriteA, f);
        },
        (Phase::SamplingReadA, Event::Footprint { bytes }) => {
            let r = q.sampled(bytes);
            let lost = match q.first_wrong {
                Some((block, at)) => seq![Finding::LostA { mismatches: q.wrong, block, at }],
                None => Seq::empty(),
            };
            lemma_contains_sum(lost, r.over(When::AfterReadA), f);
            lemma_over(r, When::AfterReadA, f);
            if lost.len() > 0 {
                lemma_contains_one(lost[0], f);
            }
        },
        (Phase::ReadingB { b }, Event::Compared { at, sample }) => {
            let r = q.compared(b, at).sampled(sample);
            let lost = match r.first_wrong {
                Some((block, at)) => seq![Finding::LostB { mismatches: r.wrong, block, at }],
                None => Seq::empty(),
            };
            lemma_contains_sum(lost, r.over(When::AfterReadB), f);
            lemma_over(r, When::AfterReadB, f);
            if lost.len() > 0 {
                lemma_contains_one(lost[0], f);
            }
        },
        (Phase::SamplingSkew, Event::Footprint { bytes }) => {
            lemma_over(q.sampled(bytes), When::AfterSkew, f);
        },
        _ => {},
    }
}

} // verus!
