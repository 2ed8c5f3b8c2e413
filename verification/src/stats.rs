//! Counters and latency histograms describing the arena's own behaviour.
//!
//! These are measurements of things the arena did — a hit is a lookup that
//! found a resident frame, a miss is one that had to bring the block in. They
//! are never inferred from machine-wide state. Hit and miss latencies are
//! kept in separate histograms and are never averaged together: a cache hit
//! labelled as disk latency (or vice versa) is exactly the kind of number
//! this project refuses to print.

use vstd::arithmetic::power2::*;
use vstd::prelude::*;
use vstd::std_specs::bits::u64_leading_zeros;

verus! {

/// Buckets of a histogram.
pub const BUCKETS: usize = 160;

// ---- the clock ----------------------------------------------------------

/// `std::time::Instant`: a reading of the monotonic clock.
#[verifier::external_type_specification]
#[verifier::external_body]
pub struct ExInstant(std::time::Instant);

/// `std::time::Instant::now` reads the clock. Nothing is claimed of the
/// reading.
pub assume_specification[ std::time::Instant::now ]() -> (t: std::time::Instant)
;

/// `std::time::Instant::elapsed` reads the clock again and gives the time
/// between the readings. Nothing is claimed of it.
pub assume_specification[ std::time::Instant::elapsed ](t: &std::time::Instant) -> (d:
    std::time::Duration)
;

/// The whole nanoseconds of a duration.
pub uninterp spec fn nanos_of(d: std::time::Duration) -> u128;

/// `std::time::Duration::as_nanos` gives the whole nanoseconds of a duration.
pub assume_specification[ std::time::Duration::as_nanos ](d: &std::time::Duration) -> (n: u128)
    ensures
        n == nanos_of(*d),
;

/// Nanoseconds as a histogram takes them: capped at 64 bits.
pub open spec fn capped(n: u128) -> u64 {
    if n > u64::MAX {
        u64::MAX
    } else {
        n as u64
    }
}

// ---- buckets ------------------------------------------------------------

/// The integer part of the binary logarithm.
pub open spec fn log2(n: nat) -> nat
    decreases n,
{
    if n < 2 {
        0
    } else {
        1 + log2(n / 2)
    }
}

/// `log2` is what its name says.
pub proof fn lemma_log2(n: nat)
    requires
        n > 0,
    ensures
        pow2(log2(n)) <= n < pow2(log2(n) + 1),
    decreases n,
{
    if n < 2 {
        lemma2_to64();
    } else {
        lemma_log2(n / 2);
        lemma_pow2_unfold(log2(n));
        lemma_pow2_unfold(log2(n) + 1);
    }
}

/// A power of two splits into four equal quarters; the one `ns` lies in.
/// Below four the quarters are taken of the value scaled up.
pub open spec fn quarter(ns: u64) -> int {
    let e = log2(ns as nat);
    if e >= 2 {
        ns as int / pow2((e - 2) as nat) as int - 4
    } else {
        ns * pow2((2 - e) as nat) - 4
    }
}

/// The bucket `ns` falls into: four per power of two, the last one open.
pub open spec fn bucket_index(ns: u64) -> int {
    if ns == 0 {
        0
    } else {
        let b = 4 * log2(ns as nat) + quarter(ns);
        if b < BUCKETS {
            b
        } else {
            BUCKETS - 1
        }
    }
}

/// The upper bound of a bucket.
pub open spec fn bucket_bound(b: int) -> int {
    if b < 8 {
        pow2((b / 4 + 1) as nat) as int
    } else {
        (5 + b % 4) * pow2((b / 4 - 2) as nat) - 1
    }
}

/// The quarter is one of four, and locates `ns` within its power of two.
pub proof fn lemma_quarter(ns: u64)
    requires
        ns > 0,
    ensures
        0 <= quarter(ns) < 4,
        log2(ns as nat) < 64,
        log2(ns as nat) >= 2 ==> {
            let p = pow2((log2(ns as nat) - 2) as nat);
            (4 + quarter(ns)) * p <= ns < (5 + quarter(ns)) * p
        },
{
    let e = log2(ns as nat);
    lemma_log2(ns as nat);
    lemma2_to64();
    lemma2_to64_rest();
    if e >= 64 {
        if e > 64 {
            lemma_pow2_strictly_increases(64, e);
        }
    }
    if e >= 2 {
        let p = pow2((e - 2) as nat) as int;
        lemma_pow2_pos((e - 2) as nat);
        lemma_pow2_unfold(e);
        lemma_pow2_unfold((e - 1) as nat);
        lemma_pow2_unfold(e + 1);
        let q = ns as int / p;
        vstd::arithmetic::div_mod::lemma_fundamental_div_mod(ns as int, p);
        vstd::arithmetic::div_mod::lemma_mod_bound(ns as int, p);
        vstd::arithmetic::mul::lemma_mul_is_commutative(p, q);
        assert(4 <= q < 8) by (nonlinear_arith)
            requires
                4 * p <= ns < 8 * p,
                ns == q * p + ns as int % p,
                0 <= ns as int % p < p,
                p > 0,
        ;
        assert((q + 1) * p == q * p + p) by (nonlinear_arith);
    } else if e == 1 {
        assert(ns == 2 || ns == 3);
    } else {
        assert(ns == 1);
    }
}

/// The next bucket's bound is no smaller.
proof fn lemma_bound_step(c: int)
    requires
        0 <= c,
    ensures
        bucket_bound(c) <= bucket_bound(c + 1),
{
    lemma2_to64();
    let b = c + 1;
    if b < 8 {
        assert(bucket_bound(c) == if c < 4 { 2int } else { 4int });
        assert(bucket_bound(b) == if b < 4 { 2int } else { 4int });
    } else if b == 8 {
        assert(bucket_bound(7) == 4);
        assert(bucket_bound(8) == 5 * pow2(0) - 1);
    } else {
        let p = pow2((b / 4 - 2) as nat) as int;
        let q = pow2((c / 4 - 2) as nat) as int;
        lemma_pow2_pos((b / 4 - 2) as nat);
        lemma_pow2_pos((c / 4 - 2) as nat);
        assert(bucket_bound(b) == (5 + b % 4) * p - 1);
        assert(bucket_bound(c) == (5 + c % 4) * q - 1);
        if b % 4 != 0 {
            assert(c % 4 == b % 4 - 1 && c / 4 == b / 4);
            vstd::arithmetic::mul::lemma_mul_inequality(5 + c % 4, 5 + b % 4, p);
        } else {
            assert(c % 4 == 3 && c / 4 == b / 4 - 1);
            lemma_pow2_unfold((b / 4 - 2) as nat);
            assert(p == 2 * q);
            assert((5 + b % 4) * p == 5 * p) by (nonlinear_arith)
                requires
                    b % 4 == 0,
            ;
            assert((5 + c % 4) * q == 8 * q) by (nonlinear_arith)
                requires
                    c % 4 == 3,
            ;
        }
    }
}

/// Bucket bounds never decrease.
pub proof fn law_bounds_monotone(a: int, b: int)
    requires
        0 <= a <= b < BUCKETS,
    ensures
        bucket_bound(a) <= bucket_bound(b),
    decreases b - a,
{
    if a < b {
        law_bounds_monotone(a, b - 1);
        lemma_bound_step(b - 1);
    }
}

/// Up to the last bucket (below 2^40 ns) a value lies at or below the upper
/// bound of its bucket, which exceeds it by a quarter of itself at most, and
/// above the bound of the bucket before.
pub proof fn law_value_below_its_bound(ns: u64)
    requires
        ns < 0x100_0000_0000,
    ensures
        0 <= bucket_index(ns) < BUCKETS,
        ns <= bucket_bound(bucket_index(ns)),
        ns >= 4 ==> 4 * (bucket_bound(bucket_index(ns)) - ns) <= ns,
        ns >= 5 ==> bucket_bound(bucket_index(ns) - 1) < ns,
{
    lemma2_to64();
    lemma2_to64_rest();
    if ns > 0 {
        let e = log2(ns as nat);
        lemma_log2(ns as nat);
        lemma_quarter(ns);
        if e >= 40 {
            if e > 40 {
                lemma_pow2_strictly_increases(40, e);
            }
            assert(false);
        }
        let b = 4 * e + quarter(ns);
        assert(b / 4 == e && b % 4 == quarter(ns));
        if e >= 2 {
            let p = pow2((e - 2) as nat) as int;
            let q = quarter(ns);
            assert((5 + q) * p == (4 + q) * p + p) by (nonlinear_arith);
            assert((4 + q) * p >= 4 * p) by (nonlinear_arith)
                requires
                    q >= 0,
                    p > 0,
            ;
            if ns >= 5 {
                let c = b - 1;
                if q > 0 {
                    assert(c / 4 == e && c % 4 == q - 1);
                    assert(bucket_bound(c) == (5 + (q - 1)) * p - 1);
                } else if e > 2 {
                    assert(c / 4 == e - 1 && c % 4 == 3);
                    lemma_pow2_unfold((e - 2) as nat);
                    assert(bucket_bound(c) == (5 + 3) * pow2((e - 3) as nat) - 1);
                } else {
                    assert(p == 1);
                    assert(ns == 4);
                }
            }
        } else if e == 1 {
            assert(ns < 4);
        } else {
            assert(ns < 2);
        }
    }
}

// ---- totals -------------------------------------------------------------

/// The sum of a list of counts.
pub open spec fn total(counts: Seq<u64>) -> nat
    decreases counts.len(),
{
    if counts.len() == 0 {
        0
    } else {
        total(counts.drop_last()) + counts.last() as nat
    }
}

/// Changing one count changes the sum by as much.
pub proof fn lemma_total_update(counts: Seq<u64>, i: int, v: u64)
    requires
        0 <= i < counts.len(),
    ensures
        total(counts.update(i, v)) == total(counts) - counts[i] + v,
        counts[i] <= total(counts),
    decreases counts.len(),
{
    let now = counts.update(i, v);
    if i == counts.len() - 1 {
        assert(now.drop_last() =~= counts.drop_last());
    } else {
        lemma_total_update(counts.drop_last(), i, v);
        assert(now.drop_last() =~= counts.drop_last().update(i, v));
    }
}

/// A list of zeros sums to zero.
pub proof fn lemma_total_zeros(counts: Seq<u64>)
    requires
        forall|i: int| 0 <= i < counts.len() ==> counts[i] == 0,
    ensures
        total(counts) == 0,
    decreases counts.len(),
{
    if counts.len() > 0 {
        lemma_total_zeros(counts.drop_last());
    }
}

/// The sum of a prefix is at most the sum of the whole.
pub proof fn lemma_total_prefix(counts: Seq<u64>, n: int)
    requires
        0 <= n <= counts.len(),
    ensures
        total(counts.take(n)) <= total(counts),
    decreases counts.len() - n,
{
    if n == counts.len() {
        assert(counts.take(n) =~= counts);
    } else {
        lemma_total_prefix(counts, n + 1);
        assert(counts.take(n + 1).drop_last() =~= counts.take(n));
    }
}

/// The first bucket, from `i` on, at which the running total reaches
/// `target`; the number of buckets if none does.
pub open spec fn reached_at(counts: Seq<u64>, target: nat, i: int) -> int
    decreases counts.len() - i,
{
    if i >= counts.len() {
        counts.len() as int
    } else if total(counts.take(i + 1)) >= target {
        i
    } else {
        reached_at(counts, target, i + 1)
    }
}

// ---- histogram ----------------------------------------------------------

/// What a histogram holds, as mathematics.
#[verifier::ext_equal]
pub struct HistState {
    /// Samples per bucket.
    pub buckets: Seq<u64>,
    /// Samples in all.
    pub count: nat,
    /// The largest sample.
    pub max: nat,
    /// The sum of the samples.
    pub sum: nat,
}

impl HistState {
    /// A histogram without samples.
    pub open spec fn empty() -> Self {
        HistState { buckets: Seq::new(BUCKETS as nat, |i: int| 0u64), count: 0, max: 0, sum: 0 }
    }

    /// Every sample is counted in exactly one bucket, and none is larger
    /// than the largest.
    pub open spec fn wf(self) -> bool {
        &&& self.buckets.len() == BUCKETS
        &&& total(self.buckets) == self.count
        &&& self.sum <= self.count * self.max
    }

    /// The histogram with one more sample.
    pub open spec fn with(self, ns: u64) -> Self {
        HistState {
            buckets: self.buckets.update(
                bucket_index(ns),
                (self.buckets[bucket_index(ns)] + 1) as u64,
            ),
            count: self.count + 1,
            max: if ns > self.max {
                ns as nat
            } else {
                self.max
            },
            sum: self.sum + ns as nat,
        }
    }

    /// The histogram after a measurement: one sample more, unless the count
    /// is at its limit.
    pub open spec fn measured(self, after: Self) -> bool {
        if self.count < u64::MAX {
            exists|ns: u64| after == #[trigger] self.with(ns)
        } else {
            after == self
        }
    }

    /// The mean sample, rounded down, if there are samples.
    pub open spec fn mean(self) -> Option<u64> {
        if self.count == 0 {
            None
        } else {
            Some((self.sum / self.count) as u64)
        }
    }

    /// The value at rank `target`, as the upper bound of its bucket, never
    /// above the largest sample. `None` if there are no samples — unknown is
    /// better than zero.
    pub open spec fn at_rank(self, target: nat) -> Option<int> {
        if self.count == 0 {
            None
        } else {
            let i = reached_at(self.buckets, target, 0);
            if i < BUCKETS && bucket_bound(i) < self.max {
                Some(bucket_bound(i))
            } else {
                Some(self.max as int)
            }
        }
    }
}

/// One more sample keeps a histogram valid.
pub proof fn lemma_with(s: HistState, ns: u64)
    requires
        s.wf(),
        s.count < u64::MAX,
    ensures
        s.with(ns).wf(),
        0 <= bucket_index(ns) < BUCKETS,
        s.buckets[bucket_index(ns)] < u64::MAX,
{
    if ns > 0 {
        lemma_quarter(ns);
    }
    let b = bucket_index(ns);
    lemma_total_update(s.buckets, b, (s.buckets[b] + 1) as u64);
    let m = s.with(ns).max;
    assert(s.sum + ns <= (s.count + 1) * m) by (nonlinear_arith)
        requires
            s.sum <= s.count * s.max,
            s.max <= m,
            ns <= m,
    ;
}

/// A measurement keeps a histogram valid.
pub proof fn lemma_measured(before: HistState, after: HistState)
    requires
        before.wf(),
        before.measured(after),
    ensures
        after.wf(),
{
    if before.count < u64::MAX {
        let ns = choose|ns: u64| after == #[trigger] before.with(ns);
        lemma_with(before, ns);
    }
}

// ---- ranks --------------------------------------------------------------

/// The histogram of a list of samples.
pub open spec fn recorded(samples: Seq<u64>) -> HistState
    decreases samples.len(),
{
    if samples.len() == 0 {
        HistState::empty()
    } else {
        recorded(samples.drop_last()).with(samples.last())
    }
}

/// How many samples are `v` at most.
pub open spec fn at_most(samples: Seq<u64>, v: int) -> nat
    decreases samples.len(),
{
    if samples.len() == 0 {
        0
    } else {
        at_most(samples.drop_last(), v) + if samples.last() <= v {
            1nat
        } else {
            0nat
        }
    }
}

/// How many samples fall into the buckets up to `i`.
pub open spec fn up_to_bucket(samples: Seq<u64>, i: int) -> nat
    decreases samples.len(),
{
    if samples.len() == 0 {
        0
    } else {
        up_to_bucket(samples.drop_last(), i) + if bucket_index(samples.last()) <= i {
            1nat
        } else {
            0nat
        }
    }
}

/// What a histogram knows of its samples.
proof fn lemma_recorded(samples: Seq<u64>, i: int)
    requires
        samples.len() <= u64::MAX,
        0 <= i < BUCKETS,
    ensures
        recorded(samples).wf(),
        recorded(samples).count == samples.len(),
        total(recorded(samples).buckets.take(i + 1)) == up_to_bucket(samples, i),
        at_most(samples, recorded(samples).max as int) == samples.len(),
        recorded(samples).max <= u64::MAX,
    decreases samples.len(),
{
    let h = recorded(samples);
    if samples.len() == 0 {
        lemma_total_zeros(h.buckets);
        lemma_total_zeros(h.buckets.take(i + 1));
    } else {
        let less = samples.drop_last();
        let ns = samples.last();
        let g = recorded(less);
        lemma_recorded(less, i);
        lemma_with(g, ns);
        let b = bucket_index(ns);
        lemma_more_at_most(less, g.max as int, h.max as int);
        let v = (g.buckets[b] + 1) as u64;
        if b <= i {
            assert(h.buckets.take(i + 1) =~= g.buckets.take(i + 1).update(b, v));
            lemma_total_update(g.buckets.take(i + 1), b, v);
        } else {
            assert(h.buckets.take(i + 1) =~= g.buckets.take(i + 1));
        }
    }
}

/// More samples are below a larger value, and never more than there are.
proof fn lemma_more_at_most(samples: Seq<u64>, v: int, w: int)
    requires
        v <= w,
    ensures
        at_most(samples, v) <= at_most(samples, w) <= samples.len(),
    decreases samples.len(),
{
    if samples.len() > 0 {
        lemma_more_at_most(samples.drop_last(), v, w);
    }
}

/// What falls into the buckets up to `i` is at most their bound.
proof fn lemma_buckets_bound(samples: Seq<u64>, i: int)
    requires
        0 <= i < BUCKETS,
        forall|k: int| 0 <= k < samples.len() ==> #[trigger] samples[k] < 0x100_0000_0000,
    ensures
        up_to_bucket(samples, i) <= at_most(samples, bucket_bound(i)),
    decreases samples.len(),
{
    if samples.len() > 0 {
        let less = samples.drop_last();
        assert forall|k: int| 0 <= k < less.len() implies #[trigger] less[k] < 0x100_0000_0000 by {
            assert(less[k] == samples[k]);
        }
        lemma_buckets_bound(less, i);
        let ns = samples.last();
        assert(samples[samples.len() - 1] == ns);
        law_value_below_its_bound(ns);
        if bucket_index(ns) <= i {
            law_bounds_monotone(bucket_index(ns), i);
        }
    }
}

/// The bucket at which a total is reached has it, and a larger total is
/// reached no earlier.
proof fn lemma_reached(counts: Seq<u64>, target: nat, higher: nat, i: int)
    requires
        0 <= i <= counts.len(),
        target <= higher,
    ensures
        i <= reached_at(counts, target, i) <= reached_at(counts, higher, i) <= counts.len(),
        reached_at(counts, target, i) < counts.len() ==> total(
            counts.take(reached_at(counts, target, i) + 1),
        ) >= target,
        i < counts.len() && total(counts) >= target ==> reached_at(counts, target, i)
            < counts.len(),
    decreases counts.len() - i,
{
    if i < counts.len() {
        if i == counts.len() - 1 {
            assert(counts.take(i + 1) =~= counts);
        }
        lemma_reached(counts, target, higher, i + 1);
    }
}

/// The value at a rank: at least so many samples are no larger, it is never
/// above the largest, and there is one exactly if there are samples.
pub proof fn law_value_at_a_rank(samples: Seq<u64>, target: nat)
    requires
        samples.len() <= u64::MAX,
        forall|k: int| 0 <= k < samples.len() ==> #[trigger] samples[k] < 0x100_0000_0000,
        1 <= target,
    ensures
        recorded(samples).at_rank(target) is None <==> samples.len() == 0,
        recorded(samples).at_rank(target) matches Some(v) ==> {
            &&& v <= recorded(samples).max
            &&& target <= samples.len() ==> at_most(samples, v) >= target
        },
{
    let h = recorded(samples);
    lemma_recorded(samples, 0);
    if samples.len() > 0 && target <= samples.len() {
        let i = reached_at(h.buckets, target, 0);
        lemma_reached(h.buckets, target, target, 0);
        lemma_recorded(samples, i);
        lemma_buckets_bound(samples, i);
    }
}

/// A larger value falls into no lower bucket.
proof fn lemma_buckets_ordered(ns: u64, ms: u64)
    requires
        ns <= ms < 0x100_0000_0000,
    ensures
        0 <= bucket_index(ns) <= bucket_index(ms) < BUCKETS,
{
    law_value_below_its_bound(ns);
    law_value_below_its_bound(ms);
    let b = bucket_index(ns);
    let c = bucket_index(ms);
    if ns >= 5 {
        if c < b {
            law_bounds_monotone(c, b - 1);
        }
    } else if ms >= 4 {
        let e = log2(ms as nat);
        lemma_log2(ms as nat);
        lemma_quarter(ms);
        lemma2_to64();
        if e < 2 {
            assert(pow2(e + 1) <= 4);
        }
        lemma_small_buckets();
    } else {
        lemma_small_buckets();
    }
}

/// The buckets of the smallest values.
proof fn lemma_small_buckets()
    ensures
        bucket_index(0) == 0,
        bucket_index(1) == 0,
        bucket_index(2) == 4,
        bucket_index(3) == 6,
        bucket_index(4) == 8,
{
    lemma2_to64();
    reveal_with_fuel(log2, 4);
    assert(log2(1) == 0 && log2(2) == 1 && log2(3) == 1 && log2(4) == 2);
    assert(4int / 1int == 4);
    assert(quarter(4) == 4int / pow2(0) as int - 4);
}

/// Samples up to a value fall into the buckets up to its own.
proof fn lemma_at_most_bucket(samples: Seq<u64>, x: u64)
    requires
        x < 0x100_0000_0000,
    ensures
        at_most(samples, x as int) <= up_to_bucket(samples, bucket_index(x)),
    decreases samples.len(),
{
    if samples.len() > 0 {
        lemma_at_most_bucket(samples.drop_last(), x);
        if samples.last() <= x {
            lemma_buckets_ordered(samples.last(), x);
        }
    }
}

/// More samples fall into more buckets.
proof fn lemma_more_buckets(samples: Seq<u64>, i: int, j: int)
    requires
        i <= j,
    ensures
        up_to_bucket(samples, i) <= up_to_bucket(samples, j),
    decreases samples.len(),
{
    if samples.len() > 0 {
        lemma_more_buckets(samples.drop_last(), i, j);
    }
}

/// `x` is the sample of rank `target`: the smallest value that so many samples
/// do not exceed.
pub open spec fn sample_of_rank(samples: Seq<u64>, target: nat, x: u64) -> bool {
    &&& samples.contains(x)
    &&& at_most(samples, x as int) >= target
    &&& at_most(samples, x - 1) < target
}

/// A total is reached in no bucket before the first that has it.
proof fn lemma_not_reached(counts: Seq<u64>, target: nat, from: int, i: int)
    requires
        0 <= from <= i < counts.len(),
        i < reached_at(counts, target, from),
    ensures
        total(counts.take(i + 1)) < target,
    decreases i - from,
{
    if from < i {
        lemma_not_reached(counts, target, from + 1, i);
    }
}

/// The value at a rank is close to the sample of that rank: fewer samples than
/// the rank fall into lower buckets than the one it is the bound of, so it is
/// no smaller than that sample, no larger than the bound of its bucket, and
/// exceeds it by a quarter at most. (Of a sample below four only the bound of
/// its bucket is promised.)
pub proof fn law_value_at_a_rank_is_close(samples: Seq<u64>, target: nat, x: u64)
    requires
        samples.len() <= u64::MAX,
        forall|k: int| 0 <= k < samples.len() ==> #[trigger] samples[k] < 0x100_0000_0000,
        1 <= target <= samples.len(),
        sample_of_rank(samples, target, x),
    ensures
        ({
            let b = reached_at(recorded(samples).buckets, target, 0);
            &&& 0 <= b < BUCKETS
            &&& up_to_bucket(samples, b - 1) < target
            &&& up_to_bucket(samples, b) >= target
        }),
        recorded(samples).at_rank(target) matches Some(v) && {
            &&& x <= v
            &&& v <= bucket_bound(bucket_index(x))
            &&& x >= 4 ==> 4 * (v - x) <= x
        },
{
    let h = recorded(samples);
    let k = choose|k: int| 0 <= k < samples.len() && samples[k] == x;
    assert(samples[k] < 0x100_0000_0000);
    law_value_at_a_rank(samples, target);
    lemma_recorded(samples, 0);
    let b = reached_at(h.buckets, target, 0);
    lemma_reached(h.buckets, target, target, 0);
    lemma_recorded(samples, b);
    if b > 0 {
        lemma_recorded(samples, b - 1);
        lemma_not_reached(h.buckets, target, 0, b - 1);
    } else {
        lemma_no_bucket(samples);
    }
    let v = h.at_rank(target)->0;
    if v < x {
        lemma_more_at_most(samples, v, x - 1);
    }
    law_value_below_its_bound(x);
    let c = bucket_index(x);
    lemma_at_most_bucket(samples, x);
    if c < b {
        lemma_more_buckets(samples, c, b - 1);
    }
    law_bounds_monotone(b, c);
}

/// No sample falls below the first bucket.
proof fn lemma_no_bucket(samples: Seq<u64>)
    requires
        forall|k: int| 0 <= k < samples.len() ==> #[trigger] samples[k] < 0x100_0000_0000,
    ensures
        up_to_bucket(samples, -1) == 0,
    decreases samples.len(),
{
    if samples.len() > 0 {
        let less = samples.drop_last();
        assert forall|k: int| 0 <= k < less.len() implies #[trigger] less[k] < 0x100_0000_0000 by {
            assert(less[k] == samples[k]);
        }
        lemma_no_bucket(less);
        assert(samples[samples.len() - 1] == samples.last());
        law_value_below_its_bound(samples.last());
    }
}

/// What is counted up to a value and not below it is a sample.
proof fn lemma_counted_is_sample(samples: Seq<u64>, v: int)
    requires
        at_most(samples, v) > at_most(samples, v - 1),
    ensures
        0 <= v <= u64::MAX,
        samples.contains(v as u64),
    decreases samples.len(),
{
    let less = samples.drop_last();
    if samples.last() == v {
        assert(samples[samples.len() - 1] == v as u64);
    } else {
        lemma_counted_is_sample(less, v);
        let k = choose|k: int| 0 <= k < less.len() && less[k] == v as u64;
        assert(samples[k] == v as u64);
    }
}

/// From a value that enough samples do not exceed, down to the smallest.
proof fn lemma_smallest(samples: Seq<u64>, target: nat, v: int) -> (x: u64)
    requires
        1 <= target <= at_most(samples, v),
        -1 <= v,
    ensures
        sample_of_rank(samples, target, x),
    decreases v,
{
    if v == -1 {
        lemma_none_negative(samples);
    }
    if at_most(samples, v - 1) >= target {
        if v == 0 {
            lemma_none_negative(samples);
        }
        lemma_smallest(samples, target, v - 1)
    } else {
        lemma_counted_is_sample(samples, v);
        v as u64
    }
}

/// No sample is negative.
proof fn lemma_none_negative(samples: Seq<u64>)
    ensures
        at_most(samples, -1) == 0,
    decreases samples.len(),
{
    if samples.len() > 0 {
        lemma_none_negative(samples.drop_last());
    }
}

/// Every rank has its sample.
pub proof fn law_every_rank_has_a_sample(samples: Seq<u64>, target: nat) -> (x: u64)
    requires
        samples.len() <= u64::MAX,
        1 <= target <= samples.len(),
    ensures
        sample_of_rank(samples, target, x),
{
    lemma_recorded(samples, 0);
    lemma_smallest(samples, target, recorded(samples).max as int)
}

/// The value grows with the rank.
pub proof fn law_ranks_are_ordered(samples: Seq<u64>, low: nat, high: nat)
    requires
        0 < samples.len() <= u64::MAX,
        low <= high,
    ensures
        recorded(samples).at_rank(low)->0 <= recorded(samples).at_rank(high)->0,
{
    let h = recorded(samples);
    lemma_recorded(samples, 0);
    lemma_reached(h.buckets, low, high, 0);
    let i = reached_at(h.buckets, low, 0);
    let j = reached_at(h.buckets, high, 0);
    if j < BUCKETS {
        law_bounds_monotone(i, j);
    }
}

/// Of one sample, the value at any rank is the sample.
pub proof fn law_one_sample_is_every_rank(ns: u64, target: nat)
    requires
        ns < 0x100_0000_0000,
        1 <= target,
    ensures
        recorded(seq![ns]).at_rank(target) == Some(ns as int),
{
    let one: Seq<u64> = seq![ns];
    let h = recorded(one);
    reveal_with_fuel(recorded, 2);
    reveal_with_fuel(at_most, 2);
    assert(one.drop_last() =~= Seq::empty());
    assert(h.max == ns);
    law_value_at_a_rank(one, 1);
    law_value_at_a_rank(one, target);
    law_ranks_are_ordered(one, 1, target);
}

/// Log-scale histogram: 4 buckets per power of two from 1 ns to ~2^40 ns.
/// It costs 1.3 KiB regardless of sample count, so the histogram never shows
/// up in the footprint being measured.
pub struct LatencyHist {
    buckets: [u64; 160],
    count: u64,
    max_ns: u64,
    sum_ns: u128,
}

impl View for LatencyHist {
    type V = HistState;

    closed spec fn view(&self) -> HistState {
        HistState {
            buckets: self.buckets@,
            count: self.count as nat,
            max: self.max_ns as nat,
            sum: self.sum_ns as nat,
        }
    }
}

impl Clone for LatencyHist {
    fn clone(&self) -> (h: Self)
        ensures
            h@ == self@,
    {
        LatencyHist {
            buckets: self.buckets,
            count: self.count,
            max_ns: self.max_ns,
            sum_ns: self.sum_ns,
        }
    }
}

impl Default for LatencyHist {
    fn default() -> (h: Self)
        ensures
            h@ == HistState::empty(),
            h@.wf(),
    {
        Self::new()
    }
}

impl LatencyHist {
    /// A histogram without samples.
    pub fn new() -> (h: Self)
        ensures
            h@ == HistState::empty(),
            h@.wf(),
    {
        let h = LatencyHist { buckets: [0u64; 160], count: 0, max_ns: 0, sum_ns: 0 };
        proof {
            assert(h@ =~= HistState::empty());
            lemma_total_zeros(h@.buckets);
        }
        h
    }

    /// The bucket a value falls into.
    pub fn bucket_of(ns: u64) -> (b: usize)
        ensures
            b == bucket_index(ns),
            b < BUCKETS,
    {
        if ns == 0 {
            return 0;
        }
        proof {
            lemma_leading_zeros(ns);
            lemma_quarter(ns);
            lemma2_to64();
        }
        let e: u64 = 63 - ns.leading_zeros() as u64;
        let sub: u64 = if e >= 2 {
            proof {
                vstd::bits::lemma_u64_shr_is_div(ns, (e - 2) as u64);
                let x = ns >> ((e - 2) as u64);
                assert(4 <= x < 8 ==> x & 3 == x - 4) by (bit_vector);
            }
            (ns >> (e - 2)) & 3
        } else {
            proof {
                lemma_log2(ns as nat);
                vstd::bits::lemma_u64_shl_is_mul(ns, (2 - e) as u64);
                let x = ns << ((2 - e) as u64);
                assert(4 <= x < 8 ==> x & 3 == x - 4) by (bit_vector);
            }
            (ns << (2 - e)) & 3
        };
        let b: usize = (e * 4 + sub) as usize;
        if b < BUCKETS {
            b
        } else {
            BUCKETS - 1
        }
    }

    /// Upper bound (ns) of a bucket — reported values are "at most this".
    pub fn bucket_upper(b: usize) -> (n: u64)
        requires
            b < BUCKETS,
        ensures
            n == bucket_bound(b as int),
    {
        let e: u64 = (b / 4) as u64;
        let sub: u64 = (b % 4) as u64;
        proof {
            lemma2_to64();
            lemma2_to64_rest();
        }
        if e < 2 {
            proof {
                vstd::bits::lemma_u64_shl_is_mul(1, (e + 1) as u64);
            }
            return 1u64 << (e + 1);
        }
        proof {
            let p = pow2((e - 2) as nat);
            if e - 2 < 37 {
                lemma_pow2_strictly_increases((e - 2) as nat, 37);
            }
            lemma_pow2_pos((e - 2) as nat);
            assert((4 + sub + 1) * p <= 8 * 0x20_0000_0000 && (4 + sub + 1) * p >= 5)
                by (nonlinear_arith)
                requires
                    0 < p <= 0x20_0000_0000,
                    0 <= sub < 4,
            ;
            vstd::bits::lemma_u64_shl_is_mul((4 + sub + 1) as u64, (e - 2) as u64);
        }
        // start of next sub-bucket
        ((4 + sub + 1) << (e - 2)).saturating_sub(1)
    }

    /// Count one sample of `ns` nanoseconds.
    pub fn record_ns(&mut self, ns: u64)
        requires
            old(self)@.wf(),
            old(self)@.count < u64::MAX,
        ensures
            final(self)@.wf(),
            final(self)@ == old(self)@.with(ns),
    {
        let b: usize = Self::bucket_of(ns);
        proof {
            lemma_total_update(self@.buckets, b as int, (self@.buckets[b as int] + 1) as u64);
            let s = self@;
            let m = if ns > s.max {
                ns as nat
            } else {
                s.max
            };
            assert(s.sum + ns <= (s.count + 1) * m && (s.count + 1) * m <= 0xffff_ffff_ffff_ffff
                * 0xffff_ffff_ffff_ffff) by (nonlinear_arith)
                requires
                    s.sum <= s.count * s.max,
                    s.count + 1 <= 0xffff_ffff_ffff_ffff,
                    m <= 0xffff_ffff_ffff_ffff,
                    s.max <= m,
                    ns <= m,
                    m >= 0,
            ;
        }
        self.buckets[b] = self.buckets[b] + 1;
        self.count = self.count + 1;
        self.sum_ns = self.sum_ns + ns as u128;
        if ns > self.max_ns {
            self.max_ns = ns;
        }
        assert(self@ =~= old(self)@.with(ns));
    }

    /// Count one sample.
    pub fn record(&mut self, d: std::time::Duration)
        requires
            old(self)@.wf(),
            old(self)@.count < u64::MAX,
        ensures
            final(self)@.wf(),
            final(self)@ == old(self)@.with(capped(nanos_of(d))),
    {
        let n: u128 = d.as_nanos();
        let ns: u64 = if n > u64::MAX as u128 {
            u64::MAX
        } else {
            n as u64
        };
        self.record_ns(ns);
    }

    /// Count the time since `t`. At the limit of the count the histogram
    /// stays as it is.
    pub(crate) fn record_since(&mut self, t: &std::time::Instant)
        requires
            old(self)@.wf(),
        ensures
            final(self)@.wf(),
            old(self)@.measured(final(self)@),
    {
        let d = t.elapsed();
        if self.count < u64::MAX {
            self.record(d);
        }
    }

    /// Samples counted.
    pub fn count(&self) -> (n: u64)
        ensures
            n == self@.count,
    {
        self.count
    }

    /// The largest sample.
    pub fn max_ns(&self) -> (n: u64)
        ensures
            n == self@.max,
    {
        self.max_ns
    }

    /// The mean sample, rounded down. `None` if there are no samples.
    pub fn mean_ns(&self) -> (r: Option<u64>)
        requires
            self@.wf(),
        ensures
            r == self@.mean(),
            self@.count > 0 ==> self@.sum / self@.count <= self@.max,
    {
        if self.count == 0 {
            None
        } else {
            proof {
                let s = self@;
                let q = s.sum as int / s.count as int;
                vstd::arithmetic::div_mod::lemma_fundamental_div_mod(s.sum as int, s.count as int);
                vstd::arithmetic::div_mod::lemma_mod_bound(s.sum as int, s.count as int);
                assert(q <= s.max) by (nonlinear_arith)
                    requires
                        s.sum == s.count * q + s.sum as int % s.count as int,
                        0 <= s.sum as int % s.count as int,
                        s.sum <= s.count * s.max,
                        s.count > 0,
                ;
            }
            Some((self.sum_ns / self.count as u128) as u64)
        }
    }

    /// The value at a rank, as a bucket upper bound in ns.
    pub fn value_at_rank(&self, target: u64) -> (r: Option<u64>)
        requires
            self@.wf(),
        ensures
            match r {
                Some(v) => self@.at_rank(target as nat) == Some(v as int) && v <= self@.max,
                None => self@.at_rank(target as nat) is None,
            },
    {
        if self.count == 0 {
            return None;
        }
        let mut acc: u64 = 0;
        let mut i: usize = 0;
        while i < BUCKETS
            invariant
                self@.wf(),
                self@.count > 0,
                i <= BUCKETS,
                acc == total(self@.buckets.take(i as int)),
                reached_at(self@.buckets, target as nat, 0) == reached_at(
                    self@.buckets,
                    target as nat,
                    i as int,
                ),
            decreases BUCKETS - i,
        {
            proof {
                lemma_total_prefix(self@.buckets, i + 1);
                assert(self@.buckets.take(i + 1).drop_last() =~= self@.buckets.take(i as int));
                assert(self@.buckets.take(i + 1).last() == self.buckets@[i as int]);
            }
            acc = acc + self.buckets[i];
            if acc >= target {
                let bound: u64 = Self::bucket_upper(i);
                return if bound < self.max_ns {
                    Some(bound)
                } else {
                    Some(self.max_ns)
                };
            }
            i = i + 1;
        }
        Some(self.max_ns)
    }
}

/// The exponent of the leading bit.
proof fn lemma_leading_zeros(ns: u64)
    requires
        ns > 0,
    ensures
        63 - u64_leading_zeros(ns) == log2(ns as nat),
        0 <= u64_leading_zeros(ns) <= 63,
    decreases ns,
{
    reveal(u64_leading_zeros);
    if ns >= 2 {
        lemma_leading_zeros(ns / 2);
        vstd::std_specs::bits::axiom_u64_leading_zeros(ns);
    } else {
        assert(u64_leading_zeros(0) == 64);
        assert(u64_leading_zeros(1) == 63);
    }
}

// ---- counters -----------------------------------------------------------

/// Everything the arena knows about what it has done since open. A counter
/// that passes 2^64 starts over.
pub struct Stats {
    /// Lookups that found the block in a frame.
    pub hits: u64,
    /// Lookups that had to bring the block in (from disk or as zeros).
    pub misses: u64,
    /// Misses served as zeros because the block was never written (no I/O).
    pub zero_fills: u64,
    /// Misses that skipped the load because the caller overwrote the whole block.
    pub full_overwrites: u64,
    /// Batched speculative reads issued (one read each).
    pub prefetch_batches: u64,
    /// Blocks brought in speculatively by those batches.
    pub prefetch_blocks: u64,
    /// Speculative blocks that were later actually asked for. The honest
    /// scoreboard for prefetch: `prefetch_used / prefetch_blocks` is how
    /// often the guess was right, and it is never assumed.
    pub prefetch_used: u64,
    /// Blocks the caller borrowed in place, with no copy.
    pub zero_copy: u64,
    /// Frames reclaimed by the CLOCK policy.
    pub evictions: u64,
    /// Dirty frames written to the backing store (on eviction or sync).
    pub writebacks: u64,
    pub bytes_read_backing: u64,
    pub bytes_written_backing: u64,
    /// Latency of a hit: map lookup + frame address, measured inside the arena.
    pub hit_latency: LatencyHist,
    /// Latency of a miss: victim selection + writeback (if dirty) + read + verify.
    pub miss_latency: LatencyHist,
    /// Latency of a single backing-store writeback.
    pub writeback_latency: LatencyHist,
}

/// The counters of [`Stats`], as mathematics.
#[verifier::ext_equal]
pub struct Counters {
    pub hits: u64,
    pub misses: u64,
    pub zero_fills: u64,
    pub full_overwrites: u64,
    pub prefetch_batches: u64,
    pub prefetch_blocks: u64,
    pub prefetch_used: u64,
    pub zero_copy: u64,
    pub evictions: u64,
    pub writebacks: u64,
    pub bytes_read_backing: u64,
    pub bytes_written_backing: u64,
    pub hit_latency: HistState,
    pub miss_latency: HistState,
    pub writeback_latency: HistState,
}

/// A counter after `n` more events.
pub open spec fn bumped(c: u64, n: int) -> u64 {
    ((c + n) % 0x1_0000_0000_0000_0000) as u64
}

impl Counters {
    /// Nothing happened yet.
    pub open spec fn zero() -> Self {
        Counters {
            hits: 0,
            misses: 0,
            zero_fills: 0,
            full_overwrites: 0,
            prefetch_batches: 0,
            prefetch_blocks: 0,
            prefetch_used: 0,
            zero_copy: 0,
            evictions: 0,
            writebacks: 0,
            bytes_read_backing: 0,
            bytes_written_backing: 0,
            hit_latency: HistState::empty(),
            miss_latency: HistState::empty(),
            writeback_latency: HistState::empty(),
        }
    }

    /// Every histogram is valid.
    pub open spec fn wf(self) -> bool {
        &&& self.hit_latency.wf()
        &&& self.miss_latency.wf()
        &&& self.writeback_latency.wf()
    }
}

impl View for Stats {
    type V = Counters;

    open spec fn view(&self) -> Counters {
        Counters {
            hits: self.hits,
            misses: self.misses,
            zero_fills: self.zero_fills,
            full_overwrites: self.full_overwrites,
            prefetch_batches: self.prefetch_batches,
            prefetch_blocks: self.prefetch_blocks,
            prefetch_used: self.prefetch_used,
            zero_copy: self.zero_copy,
            evictions: self.evictions,
            writebacks: self.writebacks,
            bytes_read_backing: self.bytes_read_backing,
            bytes_written_backing: self.bytes_written_backing,
            hit_latency: self.hit_latency@,
            miss_latency: self.miss_latency@,
            writeback_latency: self.writeback_latency@,
        }
    }
}

impl Clone for Stats {
    fn clone(&self) -> (s: Self)
        ensures
            s@ == self@,
    {
        Stats {
            hits: self.hits,
            misses: self.misses,
            zero_fills: self.zero_fills,
            full_overwrites: self.full_overwrites,
            prefetch_batches: self.prefetch_batches,
            prefetch_blocks: self.prefetch_blocks,
            prefetch_used: self.prefetch_used,
            zero_copy: self.zero_copy,
            evictions: self.evictions,
            writebacks: self.writebacks,
            bytes_read_backing: self.bytes_read_backing,
            bytes_written_backing: self.bytes_written_backing,
            hit_latency: self.hit_latency.clone(),
            miss_latency: self.miss_latency.clone(),
            writeback_latency: self.writeback_latency.clone(),
        }
    }
}

impl Default for Stats {
    fn default() -> (s: Self)
        ensures
            s@ == Counters::zero(),
            s@.wf(),
    {
        Stats {
            hits: 0,
            misses: 0,
            zero_fills: 0,
            full_overwrites: 0,
            prefetch_batches: 0,
            prefetch_blocks: 0,
            prefetch_used: 0,
            zero_copy: 0,
            evictions: 0,
            writebacks: 0,
            bytes_read_backing: 0,
            bytes_written_backing: 0,
            hit_latency: LatencyHist::new(),
            miss_latency: LatencyHist::new(),
            writeback_latency: LatencyHist::new(),
        }
    }
}

/// A counter after `n` more events.
pub(crate) fn bump(c: u64, n: u64) -> (r: u64)
    ensures
        r == bumped(c, n as int),
{
    c.wrapping_add(n)
}

/// The sum of some samples.
pub open spec fn sum_of(samples: Seq<u64>) -> nat
    decreases samples.len(),
{
    if samples.len() == 0 {
        0
    } else {
        sum_of(samples.drop_last()) + samples.last() as nat
    }
}

/// A histogram knows how many samples there were, their sum, and the largest,
/// which is one of them.
pub proof fn law_histograms_keep_count_sum_and_maximum(samples: Seq<u64>, k: int)
    requires
        0 <= k < samples.len(),
    ensures
        recorded(samples).count == samples.len(),
        recorded(samples).sum == sum_of(samples),
        samples[k] <= recorded(samples).max,
        exists|j: int| 0 <= j < samples.len() && #[trigger] samples[j] == recorded(samples).max,
    decreases samples.len(),
{
    let less = samples.drop_last();
    let h = recorded(samples);
    if less.len() == 0 {
        assert(recorded(less) == HistState::empty());
        assert(sum_of(less) == 0);
        assert(samples[0] == h.max);
    } else {
        law_histograms_keep_count_sum_and_maximum(
            less,
            if k < less.len() {
                k
            } else {
                0
            },
        );
        let j = choose|j: int| 0 <= j < less.len() && #[trigger] less[j] == recorded(less).max;
        if samples.last() > recorded(less).max {
            assert(samples[samples.len() - 1] == h.max);
        } else {
            assert(samples[j] == h.max);
        }
        if k < less.len() {
            assert(samples[k] == less[k]);
        }
    }
}

/// The mean is the sum divided by the count, rounded down: between the
/// smallest and the largest sample.
pub proof fn law_the_mean_is_the_mean(samples: Seq<u64>)
    requires
        0 < samples.len() <= u64::MAX,
    ensures
        recorded(samples).mean() is Some,
        recorded(samples).mean()->0 * samples.len() <= sum_of(samples),
        sum_of(samples) < (recorded(samples).mean()->0 + 1) * samples.len(),
        recorded(samples).mean()->0 <= recorded(samples).max,
        recorded(Seq::<u64>::empty()).mean() is None,
{
    let h = recorded(samples);
    law_histograms_keep_count_sum_and_maximum(samples, 0);
    lemma_recorded(samples, 0);
    let n = h.count as int;
    let s = h.sum as int;
    let q = s / n;
    vstd::arithmetic::div_mod::lemma_fundamental_div_mod(s, n);
    vstd::arithmetic::div_mod::lemma_mod_bound(s, n);
    vstd::arithmetic::div_mod::lemma_div_pos_is_pos(s, n);
    assert(q <= h.max && q * n <= s && s < (q + 1) * n) by (nonlinear_arith)
        requires
            s == n * q + s % n,
            0 <= s % n < n,
            s <= n * h.max,
            n > 0,
    ;
}

/// A counter counts: it goes up by what is added, and starts over only when it
/// passes 64 bits.
pub proof fn law_counters_count(c: u64, n: int)
    requires
        0 <= n < 0x1_0000_0000_0000_0000,
    ensures
        c + n <= u64::MAX ==> bumped(c, n) == c + n,
        c + n > u64::MAX ==> bumped(c, n) == c + n - 0x1_0000_0000_0000_0000,
{
    let m = 0x1_0000_0000_0000_0000int;
    if c + n <= u64::MAX {
        vstd::arithmetic::div_mod::lemma_small_mod((c + n) as nat, m as nat);
    } else {
        vstd::arithmetic::div_mod::lemma_mod_multiples_vanish(1, c + n - m, m);
        vstd::arithmetic::div_mod::lemma_small_mod((c + n - m) as nat, m as nat);
    }
}

/// A time that fits 64 bits is taken as it is, a longer one as the longest.
pub proof fn law_times_are_capped(n: u128)
    ensures
        capped(n) <= n,
        n <= u64::MAX ==> capped(n) == n,
        n > u64::MAX ==> capped(n) == u64::MAX,
{
}

} // verus!
