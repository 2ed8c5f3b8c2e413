//! Counters in words.
//!
//! Rates and scaled sizes are fractions, and how a fraction is written is the
//! caller's: the quotient comes in as text. Which number it is a quotient of,
//! which unit that is shown in, which figures there are at all, and how they
//! are put together is decided here.

use crate::error::LoomError;
use crate::faultin::FaultStats;
use crate::faultin_signal::SignalFaultStats;
use crate::footprint::Footprint;
use crate::prove::{Finding, When};
#[allow(unused_imports)]
use crate::stats::HistState;
use crate::stats::{LatencyHist, Stats};
use crate::text::{push_dec, push_hex};
#[allow(unused_imports)]
use crate::text::{dec, hex, hex_padded};
use vstd::prelude::*;
use vstd::string::*;

verus! {

// ---- units --------------------------------------------------------------

/// How a number is shown: divided, with so many decimals, with a unit.
#[derive(Debug, Clone, Copy, PartialEq, Eq)]
pub struct Scale {
    pub divisor: u64,
    pub decimals: usize,
    pub unit: &'static str,
}

/// What a time in nanoseconds is divided by.
pub open spec fn ns_divisor(ns: nat) -> nat {
    if ns < 1_000 {
        1
    } else if ns < 1_000_000 {
        1_000
    } else if ns < 1_000_000_000 {
        1_000_000
    } else {
        1_000_000_000
    }
}

/// The unit that a divisor of nanoseconds gives, and its decimals.
pub open spec fn ns_unit(divisor: nat) -> (Seq<char>, int) {
    if divisor == 1 {
        ("ns"@, 0)
    } else if divisor == 1_000 {
        ("µs"@, 1)
    } else if divisor == 1_000_000 {
        ("ms"@, 2)
    } else {
        ("s"@, 2)
    }
}

/// What a size in bytes is divided by.
pub open spec fn bytes_divisor(b: nat) -> nat {
    if b < 1024 {
        1
    } else if b < 1048576 {
        1024
    } else if b < 1073741824 {
        1048576
    } else if b < 1099511627776 {
        1073741824
    } else {
        1099511627776
    }
}

/// The unit that a divisor of bytes gives, and its decimals.
pub open spec fn bytes_unit(divisor: nat) -> (Seq<char>, int) {
    if divisor == 1 {
        (" B"@, 0)
    } else if divisor == 1024 {
        (" KiB"@, 1)
    } else if divisor == 1048576 {
        (" MiB"@, 1)
    } else if divisor == 1073741824 {
        (" GiB"@, 2)
    } else {
        (" TiB"@, 2)
    }
}

/// A time is shown in the largest unit that it reaches: it is at least one of
/// it, and less than a thousand unless the unit is the second. Nanoseconds are
/// whole; a second is a thousand milliseconds, a millisecond a thousand
/// microseconds, a microsecond a thousand nanoseconds.
pub proof fn law_times_have_the_unit_they_reach(ns: nat, scaled: Seq<char>)
    ensures
        ({
            let d = ns_divisor(ns);
            let unit = ns_unit(d).0;
            &&& ns > 0 ==> d <= ns
            &&& unit != "s"@ ==> ns < 1000 * d
            &&& unit == "ns"@ <==> d == 1
            &&& unit == "µs"@ <==> d == 1000
            &&& unit == "ms"@ <==> d == 1000 * 1000
            &&& unit == "s"@ <==> d == 1000 * 1000 * 1000
            &&& time_text(ns, scaled) == (if d == 1 {
                dec(ns)
            } else {
                scaled
            }) + unit
            &&& ns_unit(d).1 == 0 <==> d == 1
        }),
{
    reveal_strlit("ns");
    reveal_strlit("µs");
    reveal_strlit("ms");
    reveal_strlit("s");
    assert("ns"@[0] == 'n' && "µs"@[0] == 'µ' && "ms"@[0] == 'm' && "s"@[0] == 's');
}

/// A size is shown in the largest unit that it reaches: it is at least one of
/// it, and less than 1024 unless the unit is the largest. Bytes are whole, and
/// each further unit is 1024 of the one before it.
pub proof fn law_sizes_have_the_unit_they_reach(b: nat, scaled: Seq<char>)
    ensures
        ({
            let d = bytes_divisor(b);
            let unit = bytes_unit(d).0;
            &&& b > 0 ==> d <= b
            &&& unit != " TiB"@ ==> b < 1024 * d
            &&& unit == " B"@ <==> d == 1
            &&& unit == " KiB"@ <==> d == 1024
            &&& unit == " MiB"@ <==> d == 1024 * 1024
            &&& unit == " GiB"@ <==> d == 1024 * 1024 * 1024
            &&& unit == " TiB"@ <==> d == 1024 * 1024 * 1024 * 1024
            &&& size_text(b, scaled) == (if d == 1 {
                dec(b)
            } else {
                scaled
            }) + unit
            &&& bytes_unit(d).1 == 0 <==> d == 1
        }),
{
    reveal_strlit(" B");
    reveal_strlit(" KiB");
    reveal_strlit(" MiB");
    reveal_strlit(" GiB");
    reveal_strlit(" TiB");
    assert(" B"@[1] == 'B' && " KiB"@[1] == 'K' && " MiB"@[1] == 'M' && " GiB"@[1] == 'G'
        && " TiB"@[1] == 'T');
}

/// The scale for a time in nanoseconds.
pub fn ns_scale(ns: u64) -> (s: Scale)
    ensures
        s.divisor == ns_divisor(ns as nat),
        s.unit@ == ns_unit(s.divisor as nat).0,
        s.decimals == ns_unit(s.divisor as nat).1,
{
    if ns < 1_000 {
        Scale { divisor: 1, decimals: 0, unit: "ns" }
    } else if ns < 1_000_000 {
        Scale { divisor: 1_000, decimals: 1, unit: "µs" }
    } else if ns < 1_000_000_000 {
        Scale { divisor: 1_000_000, decimals: 2, unit: "ms" }
    } else {
        Scale { divisor: 1_000_000_000, decimals: 2, unit: "s" }
    }
}

/// The scale for a size in bytes.
pub fn bytes_scale(b: u64) -> (s: Scale)
    ensures
        s.divisor == bytes_divisor(b as nat),
        s.unit@ == bytes_unit(s.divisor as nat).0,
        s.decimals == bytes_unit(s.divisor as nat).1,
{
    if b < 1024 {
        Scale { divisor: 1, decimals: 0, unit: " B" }
    } else if b < 1048576 {
        Scale { divisor: 1024, decimals: 1, unit: " KiB" }
    } else if b < 1073741824 {
        Scale { divisor: 1048576, decimals: 1, unit: " MiB" }
    } else if b < 1099511627776 {
        Scale { divisor: 1073741824, decimals: 2, unit: " GiB" }
    } else {
        Scale { divisor: 1099511627776, decimals: 2, unit: " TiB" }
    }
}

/// A number in its unit: a whole number as it is, a divided one as given.
pub open spec fn shown_in(n: nat, s: Scale, scaled: Seq<char>) -> Seq<char> {
    if s.divisor == 1 {
        dec(n) + s.unit@
    } else {
        scaled + s.unit@
    }
}

fn show_in(n: u64, s: Scale, scaled: &str) -> (t: String)
    ensures
        t@ == shown_in(n as nat, s, scaled@),
{
    let mut t = String::new();
    if s.divisor == 1 {
        push_dec(&mut t, n);
        assert(t@ =~= dec(n as nat));
    } else {
        t.append(scaled);
        assert(t@ =~= scaled@);
    }
    t.append(s.unit);
    t
}

/// A time with its unit.
pub open spec fn time_text(ns: nat, scaled: Seq<char>) -> Seq<char> {
    if ns < 1_000 {
        dec(ns) + "ns"@
    } else if ns < 1_000_000 {
        scaled + "µs"@
    } else if ns < 1_000_000_000 {
        scaled + "ms"@
    } else {
        scaled + "s"@
    }
}

/// A size with its unit.
pub open spec fn size_text(b: nat, scaled: Seq<char>) -> Seq<char> {
    if b < 1024 {
        dec(b) + " B"@
    } else if b < 1048576 {
        scaled + " KiB"@
    } else if b < 1073741824 {
        scaled + " MiB"@
    } else if b < 1099511627776 {
        scaled + " GiB"@
    } else {
        scaled + " TiB"@
    }
}

/// A time with its unit; `scaled` is the quotient by the scale's divisor,
/// with the scale's decimals.
pub fn fmt_ns(ns: u64, scaled: &str) -> (t: String)
    ensures
        t@ == time_text(ns as nat, scaled@),
{
    show_in(ns, ns_scale(ns), scaled)
}

/// A size with its unit; `scaled` is the quotient by the scale's divisor,
/// with the scale's decimals.
pub fn fmt_bytes(b: u64, scaled: &str) -> (t: String)
    ensures
        t@ == size_text(b as nat, scaled@),
{
    show_in(b, bytes_scale(b), scaled)
}

fn push_ns(t: &mut String, ns: u64, scaled: &str)
    ensures
        final(t)@ == old(t)@ + time_text(ns as nat, scaled@),
{
    t.append(fmt_ns(ns, scaled).as_str());
}

fn push_bytes(t: &mut String, b: u64, scaled: &str)
    ensures
        final(t)@ == old(t)@ + size_text(b as nat, scaled@),
{
    t.append(fmt_bytes(b, scaled).as_str());
}

// ---- histograms and arena counters --------------------------------------

/// The ranks of two percentiles, and the quotients of a histogram's figures.
#[derive(Clone, Copy)]
pub struct Quotients<'a> {
    /// The rank of the median.
    pub rank50: u64,
    /// The rank of the 99th percentile.
    pub rank99: u64,
    pub p50: &'a str,
    pub p99: &'a str,
    pub max: &'a str,
    pub mean: &'a str,
}

/// The figures of a histogram, as far as it has any samples.
pub open spec fn summary_text(h: HistState, q: Quotients) -> Seq<char> {
    if h.count == 0 {
        "n=0 (no samples)"@
    } else {
        "n="@ + dec(h.count) + " p50≤"@ + time_text(
            h.at_rank(q.rank50 as nat)->0 as nat,
            q.p50@,
        ) + " p99≤"@ + time_text(h.at_rank(q.rank99 as nat)->0 as nat, q.p99@) + " max="@
            + time_text(h.max, q.max@) + " mean="@ + time_text(h.sum / h.count, q.mean@)
    }
}

impl LatencyHist {
    /// The figures of the histogram.
    pub fn summary(&self, q: Quotients) -> (t: String)
        requires
            self@.wf(),
        ensures
            t@ == summary_text(self@, q),
    {
        match (self.value_at_rank(q.rank50), self.value_at_rank(q.rank99), self.mean_ns()) {
            (Some(p50), Some(p99), Some(mean)) => {
                let mut t = String::from_str("n=");
                push_dec(&mut t, self.count());
                t.append(" p50≤");
                push_ns(&mut t, p50, q.p50);
                t.append(" p99≤");
                push_ns(&mut t, p99, q.p99);
                t.append(" max=");
                push_ns(&mut t, self.max_ns(), q.max);
                t.append(" mean=");
                push_ns(&mut t, mean, q.mean);
                t
            },
            _ => String::from_str("n=0 (no samples)"),
        }
    }
}

/// The quotients of an arena's counters.
pub struct StatsQuotients<'a> {
    /// Hits per hundred lookups.
    pub hit_rate: &'a str,
    /// Speculative blocks that were asked for, per hundred of them.
    pub useful: &'a str,
    pub read: &'a str,
    pub written: &'a str,
    pub hit: Quotients<'a>,
    pub miss: Quotients<'a>,
    pub writeback: Quotients<'a>,
}

/// The rate of hits, if there were lookups.
pub open spec fn rate_text(s: Stats, rate: Seq<char>) -> Seq<char> {
    if s.hits == 0 && s.misses == 0 {
        "unknown (no lookups)"@
    } else {
        rate + "%"@
    }
}

/// The use of speculation, if there was any.
pub open spec fn useful_text(s: Stats, useful: Seq<char>) -> Seq<char> {
    if s.prefetch_blocks == 0 {
        "n/a — prefetch issued nothing"@
    } else {
        useful + "% useful"@
    }
}

/// The counters of an arena in words.
pub open spec fn stats_text(s: Stats, q: StatsQuotients) -> Seq<char> {
    "hits: "@ + dec(s.hits as nat) + "  misses: "@ + dec(s.misses as nat) + "  hit rate: "@
        + rate_text(s, q.hit_rate@) + "\n  zero-fills: "@ + dec(s.zero_fills as nat)
        + "  full-overwrites: "@ + dec(s.full_overwrites as nat) + "  evictions: "@ + dec(
        s.evictions as nat,
    ) + "  writebacks: "@ + dec(s.writebacks as nat) + "\n  prefetch: "@ + dec(
        s.prefetch_batches as nat,
    ) + " batches, "@ + dec(s.prefetch_blocks as nat) + " blocks, "@ + dec(
        s.prefetch_used as nat,
    ) + " later used ("@ + useful_text(s, q.useful@) + ")  zero-copy borrows: "@ + dec(
        s.zero_copy as nat,
    ) + "\n  backing read: "@ + size_text(s.bytes_read_backing as nat, q.read@)
        + "  backing written: "@ + size_text(s.bytes_written_backing as nat, q.written@)
        + "\n  hit latency:       "@ + summary_text(s.hit_latency@, q.hit)
        + "\n  miss latency:      "@ + summary_text(s.miss_latency@, q.miss)
        + "\n  writeback latency: "@ + summary_text(s.writeback_latency@, q.writeback) + "\n"@
}

impl Stats {
    /// The counters in words.
    pub fn render(&self, q: &StatsQuotients) -> (t: String)
        requires
            self@.wf(),
        ensures
            t@ == stats_text(*self, *q),
    {
        let mut t = String::from_str("hits: ");
        push_dec(&mut t, self.hits);
        t.append("  misses: ");
        push_dec(&mut t, self.misses);
        t.append("  hit rate: ");
        let ghost a = t@;
        if self.hits == 0 && self.misses == 0 {
            t.append("unknown (no lookups)");
        } else {
            t.append(q.hit_rate);
            t.append("%");
        }
        assert(t@ =~= a + rate_text(*self, q.hit_rate@));
        t.append("\n  zero-fills: ");
        push_dec(&mut t, self.zero_fills);
        t.append("  full-overwrites: ");
        push_dec(&mut t, self.full_overwrites);
        t.append("  evictions: ");
        push_dec(&mut t, self.evictions);
        t.append("  writebacks: ");
        push_dec(&mut t, self.writebacks);
        t.append("\n  prefetch: ");
        push_dec(&mut t, self.prefetch_batches);
        t.append(" batches, ");
        push_dec(&mut t, self.prefetch_blocks);
        t.append(" blocks, ");
        push_dec(&mut t, self.prefetch_used);
        t.append(" later used (");
        let ghost b = t@;
        if self.prefetch_blocks == 0 {
            t.append("n/a — prefetch issued nothing");
        } else {
            t.append(q.useful);
            t.append("% useful");
        }
        assert(t@ =~= b + useful_text(*self, q.useful@));
        t.append(")  zero-copy borrows: ");
        push_dec(&mut t, self.zero_copy);
        t.append("\n  backing read: ");
        push_bytes(&mut t, self.bytes_read_backing, q.read);
        t.append("  backing written: ");
        push_bytes(&mut t, self.bytes_written_backing, q.written);
        t.append("\n  hit latency:       ");
        t.append(self.hit_latency.summary(q.hit).as_str());
        t.append("\n  miss latency:      ");
        t.append(self.miss_latency.summary(q.miss).as_str());
        t.append("\n  writeback latency: ");
        t.append(self.writeback_latency.summary(q.writeback).as_str());
        t.append("\n");
        t
    }
}

// ---- fault counters -----------------------------------------------------

/// A text in quotation marks, with escapes.
pub uninterp spec fn quoted_text(s: Seq<char>) -> Seq<char>;

/// `str`'s `Debug`, as text: the string in quotation marks, special
/// characters escaped. It depends on the string alone; which characters are
/// escaped, and how, is not stated.
#[verifier::external_body]
fn quoted(s: &str) -> (t: String)
    ensures
        t@ == quoted_text(s@),
{
    format!("{s:?}")
}

/// The quotients of a fault arena's counters.
pub struct FaultQuotients<'a> {
    /// Resident bytes.
    pub resident: &'a str,
    /// Peak resident bytes.
    pub peak: &'a str,
    pub load: Quotients<'a>,
    pub wp: Quotients<'a>,
}

/// Texts with commas between them.
pub open spec fn joined(parts: Seq<Seq<char>>) -> Seq<char>
    decreases parts.len(),
{
    if parts.len() == 0 {
        Seq::empty()
    } else if parts.len() == 1 {
        parts[0]
    } else {
        joined(parts.drop_last()) + ", "@ + parts.last()
    }
}

/// The counters of a fault arena in words; `failures` are its failures, each
/// in quotation marks. They are never left out.
pub open spec fn faults_text(
    s: FaultStats,
    extent: nat,
    failures: Seq<Seq<char>>,
    q: FaultQuotients,
) -> Seq<char> {
    let t = "load faults: "@ + dec(s.load_faults as nat) + "  write faults: "@ + dec(
        s.write_faults as nat,
    ) + "  evictions: "@ + dec(s.evictions as nat) + " ("@ + dec(s.writebacks as nat)
        + " needed writeback)\n  resident: "@ + dec(s.resident_extents as nat) + " extents ("@
        + size_text(s.resident_extents as nat * extent, q.resident@) + ")  peak: "@ + size_text(
        s.peak_resident_bytes as nat,
        q.peak@,
    ) + "\n  load latency: "@ + summary_text(s.load_latency@, q.load) + "\n  wp   latency: "@
        + summary_text(s.wp_latency@, q.wp);
    if failures.len() == 0 {
        t
    } else {
        t + "\n  FAILURES ("@ + dec(failures.len()) + "): ["@ + joined(failures) + "]"@
    }
}

/// The texts of a list of strings.
pub open spec fn each_text(v: Seq<String>) -> Seq<Seq<char>> {
    Seq::new(v.len(), |i: int| v[i]@)
}

/// The texts of a list of strings in quotation marks.
pub open spec fn each_quoted(v: Seq<String>) -> Seq<Seq<char>> {
    Seq::new(v.len(), |i: int| quoted_text(v[i]@))
}

/// Texts with commas between them.
pub fn join(parts: &[String]) -> (t: String)
    ensures
        t@ == joined(each_text(parts@)),
{
    let mut t = String::new();
    let mut i: usize = 0;
    assert(t@ =~= Seq::<char>::empty());
    assert(each_text(parts@).take(0) =~= Seq::empty());
    while i < parts.len()
        invariant
            i <= parts@.len(),
            t@ == joined(each_text(parts@).take(i as int)),
        decreases parts@.len() - i,
    {
        let ghost so_far = t@;
        let ghost all = each_text(parts@);
        if i > 0 {
            t.append(", ");
        }
        t.append(parts[i].as_str());
        proof {
            assert(all.take(i + 1).drop_last() =~= all.take(i as int));
            assert(all.take(i + 1).last() == parts@[i as int]@);
            if i == 0 {
                assert(t@ =~= parts@[0]@);
            }
        }
        i = i + 1;
    }
    assert(each_text(parts@).take(i as int) =~= each_text(parts@));
    t
}

impl FaultStats {
    /// The counters in words.
    pub fn render(&self, extent: usize, q: &FaultQuotients) -> (t: String)
        requires
            self.load_latency@.wf(),
            self.wp_latency@.wf(),
            self.resident_extents * extent <= u64::MAX,
        ensures
            t@ == faults_text(*self, extent as nat, each_quoted(self.failures@), *q),
    {
        let mut failures: Vec<String> = Vec::new();
        let mut i: usize = 0;
        while i < self.failures.len()
            invariant
                i <= self.failures@.len(),
                failures@.len() == i,
                forall|k: int|
                    0 <= k < i ==> (#[trigger] failures@[k])@ == quoted_text(self.failures@[k]@),
            decreases self.failures@.len() - i,
        {
            failures.push(quoted(self.failures[i].as_str()));
            i = i + 1;
        }
        assert(each_text(failures@) =~= each_quoted(self.failures@));
        self.render_with(extent, failures.as_slice(), q)
    }

    /// The counters in words, with the failures in quotation marks.
    pub fn render_with(&self, extent: usize, failures: &[String], q: &FaultQuotients) -> (t: String)
        requires
            self.load_latency@.wf(),
            self.wp_latency@.wf(),
            self.resident_extents * extent <= u64::MAX,
        ensures
            t@ == faults_text(*self, extent as nat, each_text(failures@), *q),
    {
        let mut t = String::from_str("load faults: ");
        push_dec(&mut t, self.load_faults);
        t.append("  write faults: ");
        push_dec(&mut t, self.write_faults);
        t.append("  evictions: ");
        push_dec(&mut t, self.evictions);
        t.append(" (");
        push_dec(&mut t, self.writebacks);
        t.append(" needed writeback)\n  resident: ");
        push_dec(&mut t, self.resident_extents);
        t.append(" extents (");
        push_bytes(&mut t, self.resident_extents * extent as u64, q.resident);
        t.append(")  peak: ");
        push_bytes(&mut t, self.peak_resident_bytes, q.peak);
        t.append("\n  load latency: ");
        t.append(self.load_latency.summary(q.load).as_str());
        t.append("\n  wp   latency: ");
        t.append(self.wp_latency.summary(q.wp).as_str());
        if failures.len() > 0 {
            t.append("\n  FAILURES (");
            push_dec(&mut t, failures.len() as u64);
            t.append("): [");
            t.append(join(failures).as_str());
            t.append("]");
        }
        t
    }
}

/// A number with its sign in decimal digits.
pub open spec fn signed(n: int) -> Seq<char> {
    if n < 0 {
        "-"@ + dec((-n) as nat)
    } else {
        dec(n as nat)
    }
}

/// The counters of a signal-backed arena in words. Failures are never left
/// out.
pub open spec fn signal_text(
    s: SignalFaultStats,
    extent: nat,
    resident: Seq<char>,
    peak: Seq<char>,
) -> Seq<char> {
    let t = "load faults: "@ + dec(s.load_faults as nat) + "  write faults: "@ + dec(
        s.write_faults as nat,
    ) + "  evictions: "@ + dec(s.evictions as nat) + " ("@ + dec(s.writebacks as nat)
        + " wrote back)\n  resident: "@ + dec(s.resident_extents as nat) + " extents ("@
        + size_text(s.resident_extents as nat * extent, resident) + ")  peak: "@ + dec(
        s.peak_resident_extents as nat,
    ) + " ("@ + size_text(s.peak_resident_extents as nat * extent, peak) + ")"@;
    if s.failures == 0 {
        t
    } else {
        t + "\n  FAILURES: "@ + dec(s.failures as nat) + " (first at "@ + hex(
            s.first_failure_addr as nat,
        ) + ", errno "@ + signed(s.first_failure_errno as int) + ")"@
    }
}

impl SignalFaultStats {
    /// The counters in words, given the quotients of the resident and of the
    /// peak bytes.
    pub fn render(&self, extent: usize, resident: &str, peak: &str) -> (t: String)
        requires
            self.resident_extents * extent <= usize::MAX,
            self.peak_resident_extents * extent <= usize::MAX,
        ensures
            t@ == signal_text(*self, extent as nat, resident@, peak@),
    {
        let mut t = String::from_str("load faults: ");
        push_dec(&mut t, self.load_faults);
        t.append("  write faults: ");
        push_dec(&mut t, self.write_faults);
        t.append("  evictions: ");
        push_dec(&mut t, self.evictions);
        t.append(" (");
        push_dec(&mut t, self.writebacks);
        t.append(" wrote back)\n  resident: ");
        push_dec(&mut t, self.resident_extents as u64);
        t.append(" extents (");
        push_bytes(&mut t, (self.resident_extents * extent) as u64, resident);
        t.append(")  peak: ");
        push_dec(&mut t, self.peak_resident_extents as u64);
        t.append(" (");
        push_bytes(&mut t, (self.peak_resident_extents * extent) as u64, peak);
        t.append(")");
        if self.failures > 0 {
            t.append("\n  FAILURES: ");
            push_dec(&mut t, self.failures);
            t.append(" (first at ");
            push_hex(&mut t, self.first_failure_addr);
            t.append(", errno ");
            let ghost head = t@;
            let e: i64 = self.first_failure_errno as i64;
            if e < 0 {
                t.append("-");
                push_dec(&mut t, (-e) as u64);
                assert(t@ =~= head + signed(e as int));
            } else {
                push_dec(&mut t, e as u64);
            }
            t.append(")");
        }
        t
    }
}

// ---- the footprint ------------------------------------------------------

/// The quotients of a footprint's sizes; those it does not have are not used.
#[derive(Clone, Copy)]
pub struct FootprintQuotients<'a> {
    pub footprint: &'a str,
    pub compressed: &'a str,
    pub file_resident: &'a str,
    pub resident: &'a str,
}

/// What the platform says of compression.
pub open spec fn compressed_text(f: Footprint, q: FootprintQuotients) -> Seq<char> {
    match f.compressed {
        Some(v) => " (compressed by OS: "@ + size_text(v as nat, q.compressed@) + ")"@,
        None => " (compressed: unknown on this platform)"@,
    }
}

/// What it says of file-backed pages.
pub open spec fn file_text(f: Footprint, q: FootprintQuotients) -> Seq<char> {
    match f.file_resident {
        Some(v) => " file-resident: "@ + size_text(v as nat, q.file_resident@),
        None => Seq::empty(),
    }
}

/// What it says of the whole resident set.
pub open spec fn resident_text(f: Footprint, q: FootprintQuotients) -> Seq<char> {
    match f.resident {
        Some(v) => " rss: "@ + size_text(v as nat, q.resident@),
        None => Seq::empty(),
    }
}

/// A footprint in words, with where it came from.
pub open spec fn footprint_text(f: Footprint, q: FootprintQuotients) -> Seq<char> {
    size_text(f.footprint as nat, q.footprint@) + compressed_text(f, q) + file_text(f, q)
        + resident_text(f, q) + " ["@ + f.source@ + "]"@
}

impl Footprint {
    /// The footprint in words.
    pub fn render(&self, q: &FootprintQuotients) -> (t: String)
        ensures
            t@ == footprint_text(*self, *q),
    {
        let mut t = fmt_bytes(self.footprint, q.footprint);
        let ghost a = t@;
        match self.compressed {
            Some(v) => {
                t.append(" (compressed by OS: ");
                push_bytes(&mut t, v, q.compressed);
                t.append(")");
            },
            None => {
                t.append(" (compressed: unknown on this platform)");
            },
        }
        assert(t@ =~= a + compressed_text(*self, *q));
        let ghost b = t@;
        if let Some(v) = self.file_resident {
            t.append(" file-resident: ");
            push_bytes(&mut t, v, q.file_resident);
        }
        assert(t@ =~= b + file_text(*self, *q));
        let ghost c = t@;
        if let Some(v) = self.resident {
            t.append(" rss: ");
            push_bytes(&mut t, v, q.resident);
        }
        assert(t@ =~= c + resident_text(*self, *q));
        t.append(" [");
        t.append(self.source);
        t.append("]");
        t
    }
}

// ---- the experiment -----------------------------------------------------

/// A number of the experiment, and its quotient by its scale's divisor.
#[derive(Clone, Copy)]
pub struct Figure<'a> {
    pub value: u64,
    pub scaled: &'a str,
}

impl<'a> Figure<'a> {
    /// A time in words.
    pub open spec fn time(self) -> Seq<char> {
        time_text(self.value as nat, self.scaled@)
    }

    /// A size in words.
    pub open spec fn size(self) -> Seq<char> {
        size_text(self.value as nat, self.scaled@)
    }
}

/// The figures of one workload; the last two as far as they are known.
pub struct WorkloadFigures<'a> {
    pub ops: u64,
    /// Seconds, a fraction.
    pub secs: &'a str,
    /// Operations a second, a fraction.
    pub rate: &'a str,
    pub p50: Figure<'a>,
    pub p99: Figure<'a>,
    pub max: Figure<'a>,
    /// Hits per hundred lookups, a fraction.
    pub hit_rate: Option<&'a str>,
    pub footprint: Option<(Footprint, FootprintQuotients<'a>)>,
}

/// Blanks up to a width.
pub open spec fn blanks(len: nat, width: nat) -> Seq<char> {
    Seq::new(
        if len < width {
            (width - len) as nat
        } else {
            0
        },
        |i: int| ' ',
    )
}

/// A workload's hit rate, if it has one.
pub open spec fn workload_rate(f: WorkloadFigures) -> Seq<char> {
    match f.hit_rate {
        Some(rate) => "  hit rate "@ + rate@ + "%"@,
        None => Seq::empty(),
    }
}

/// The footprint a workload left, if it was measured.
pub open spec fn workload_footprint(f: WorkloadFigures) -> Seq<char> {
    match f.footprint {
        Some((fp, q)) => "  footprint after: "@ + footprint_text(fp, q),
        None => Seq::empty(),
    }
}

/// A workload's figures in words.
pub open spec fn workload_text(label: Seq<char>, f: WorkloadFigures) -> Seq<char> {
    label + blanks(label.len(), 10) + " "@ + dec(f.ops as nat) + " ops in "@ + f.secs@ + "s ("@
        + f.rate@ + " ops/s)  p50≤"@ + f.p50.time() + " p99≤"@ + f.p99.time() + " max="@
        + f.max.time() + workload_rate(f) + workload_footprint(f)
}

/// A workload's figures, its label in a column of ten.
pub fn workload(label: &str, f: &WorkloadFigures) -> (t: String)
    ensures
        t@ == workload_text(label@, *f),
{
    let mut t = String::from_str(label);
    let len: usize = label.unicode_len();
    let mut at: usize = len;
    proof {
        reveal_strlit(" ");
        assert(t@ =~= label@ + Seq::new(0, |i: int| ' '));
    }
    while at < 10
        invariant
            len == label@.len(),
            len <= at,
            at <= 10 || at == len,
            t@ == label@ + Seq::new((at - len) as nat, |i: int| ' '),
            " "@ == seq![' '],
        decreases 10 - at,
    {
        t.append(" ");
        at = at + 1;
        assert(t@ =~= label@ + Seq::new((at - len) as nat, |i: int| ' '));
    }
    assert(t@ =~= label@ + blanks(label@.len(), 10));
    t.append(" ");
    push_dec(&mut t, f.ops);
    t.append(" ops in ");
    t.append(f.secs);
    t.append("s (");
    t.append(f.rate);
    t.append(" ops/s)  p50≤");
    push_ns(&mut t, f.p50.value, f.p50.scaled);
    t.append(" p99≤");
    push_ns(&mut t, f.p99.value, f.p99.scaled);
    t.append(" max=");
    push_ns(&mut t, f.max.value, f.max.scaled);
    let ghost a = t@;
    if let Some(rate) = f.hit_rate {
        t.append("  hit rate ");
        t.append(rate);
        t.append("%");
    }
    assert(t@ =~= a + workload_rate(*f));
    let ghost b = t@;
    if let Some((fp, q)) = &f.footprint {
        t.append("  footprint after: ");
        t.append(fp.render(q).as_str());
    }
    assert(t@ =~= b + workload_footprint(*f));
    t
}

/// The figures of a run, as far as they were measured.
pub struct RunFigures<'a> {
    pub region: Figure<'a>,
    pub hot: Figure<'a>,
    /// How many times the region is larger than the hot budget, a fraction.
    pub ratio: &'a str,
    pub bound: Figure<'a>,
    /// The largest footprint seen.
    pub max: Option<Figure<'a>>,
    pub hit_p50: Option<Figure<'a>>,
    pub miss_p50: Option<Figure<'a>>,
    /// The skewed workload, on the arena and on the two baselines.
    pub loom_p99: Option<Figure<'a>>,
    pub pread_p99: Option<Figure<'a>>,
    pub mmap_p99: Option<Figure<'a>>,
}

/// A list of findings, one a line.
pub open spec fn listed(findings: Seq<String>) -> Seq<char>
    decreases findings.len(),
{
    if findings.len() == 0 {
        Seq::empty()
    } else {
        listed(findings.drop_last()) + "  - "@ + findings.last()@ + "\n"@
    }
}

/// A time, or that there is none.
pub open spec fn time_or_none(f: Option<Figure>) -> Seq<char> {
    match f {
        Some(f) => f.time(),
        None => "n/a"@,
    }
}

/// A size, or that it is unknown.
pub open spec fn size_or_unknown(f: Option<Figure>) -> Seq<char> {
    match f {
        Some(f) => f.size(),
        None => "unknown"@,
    }
}

/// The mapped baseline, if it was run.
pub open spec fn mmap_text(f: RunFigures) -> Seq<char> {
    match f.mmap_p99 {
        Some(m) => " vs mmap≤"@ + m.time(),
        None => Seq::empty(),
    }
}

/// The skewed workload against the baselines that were run.
pub open spec fn comparison_text(f: RunFigures) -> Seq<char> {
    match (f.loom_p99, f.pread_p99) {
        (Some(l), Some(p)) => "; skewed workload p99: loom≤"@ + l.time() + " vs pread≤"@
            + p.time() + mmap_text(f),
        _ => Seq::empty(),
    }
}

/// The verdict of a run: its findings, or the success sentence filled with
/// measurements.
pub open spec fn verdict_text(passed: bool, findings: Seq<String>, f: RunFigures) -> Seq<char> {
    if !passed {
        "PROOF FAILED:\n"@ + listed(findings)
    } else {
        "PROOF PASSED. Loom created a logical arena region of "@ + f.region.size()
            + " over a hot budget of "@ + f.hot.size() + " ("@ + f.ratio@
            + "x larger), kept the process footprint at or below "@ + f.bound.size()
            + " (max observed "@ + size_or_unknown(f.max)
            + "), evicted and promoted every block correctly (patterns A and B verified byte-for-byte, B across a close/reopen), detected a single flipped byte on disk and cleared when it was restored, and measured the cost: hit p50≤"@
            + time_or_none(f.hit_p50) + " / miss p50≤"@ + time_or_none(f.miss_p50)
            + comparison_text(f) + "."@
    }
}

fn push_time(t: &mut String, f: Option<Figure>)
    ensures
        final(t)@ == old(t)@ + time_or_none(f),
{
    match f {
        Some(f) => push_ns(t, f.value, f.scaled),
        None => t.append("n/a"),
    }
}

fn push_size(t: &mut String, f: Option<Figure>)
    ensures
        final(t)@ == old(t)@ + size_or_unknown(f),
{
    match f {
        Some(f) => push_bytes(t, f.value, f.scaled),
        None => t.append("unknown"),
    }
}

/// The verdict of a run in words.
pub fn verdict(passed: bool, findings: &Vec<String>, f: &RunFigures) -> (t: String)
    ensures
        t@ == verdict_text(passed, findings@, *f),
{
    if !passed {
        let mut t = String::from_str("PROOF FAILED:\n");
        let mut i: usize = 0;
        assert(t@ =~= "PROOF FAILED:\n"@ + listed(findings@.take(0)));
        while i < findings.len()
            invariant
                i <= findings@.len(),
                t@ == "PROOF FAILED:\n"@ + listed(findings@.take(i as int)),
            decreases findings.len() - i,
        {
            t.append("  - ");
            t.append(findings[i].as_str());
            t.append("\n");
            i = i + 1;
            assert(findings@.take(i as int).drop_last() =~= findings@.take(i - 1));
            assert(t@ =~= "PROOF FAILED:\n"@ + listed(findings@.take(i as int)));
        }
        assert(findings@.take(i as int) =~= findings@);
        return t;
    }
    let mut t = String::from_str("PROOF PASSED. Loom created a logical arena region of ");
    push_bytes(&mut t, f.region.value, f.region.scaled);
    t.append(" over a hot budget of ");
    push_bytes(&mut t, f.hot.value, f.hot.scaled);
    t.append(" (");
    t.append(f.ratio);
    t.append("x larger), kept the process footprint at or below ");
    push_bytes(&mut t, f.bound.value, f.bound.scaled);
    t.append(" (max observed ");
    push_size(&mut t, f.max);
    t.append(
        "), evicted and promoted every block correctly (patterns A and B verified byte-for-byte, B across a close/reopen), detected a single flipped byte on disk and cleared when it was restored, and measured the cost: hit p50≤",
    );
    push_time(&mut t, f.hit_p50);
    t.append(" / miss p50≤");
    push_time(&mut t, f.miss_p50);
    let ghost head = t@;
    if let (Some(l), Some(p)) = (f.loom_p99, f.pread_p99) {
        t.append("; skewed workload p99: loom≤");
        push_ns(&mut t, l.value, l.scaled);
        t.append(" vs pread≤");
        push_ns(&mut t, p.value, p.scaled);
        let ghost mid = t@;
        if let Some(m) = f.mmap_p99 {
            t.append(" vs mmap≤");
            push_ns(&mut t, m.value, m.scaled);
        }
        assert(t@ =~= mid + mmap_text(*f));
    }
    assert(t@ =~= head + comparison_text(*f));
    t.append(".");
    t
}

// ---- findings -----------------------------------------------------------

/// What a finding is about, besides what it says itself.
pub struct Circumstances<'a> {
    /// What went wrong last, in words.
    pub trouble: &'a str,
    /// The pool file.
    pub pool: &'a str,
    /// Bytes of the region.
    pub region: u64,
    /// Bytes of the frames.
    pub hot: u64,
    /// The block that is tampered with.
    pub middle: u64,
}

/// The quotients of the sizes in a sentence, in the order they come.
pub struct SizeQuotients<'a> {
    pub first: &'a str,
    pub second: &'a str,
    pub third: &'a str,
}

/// A point of the experiment in words.
pub open spec fn when_text(w: When) -> Seq<char> {
    match w {
        When::AfterWriteA => "after write A"@,
        When::AfterReadA => "after read A"@,
        When::AfterReadB => "after read B"@,
        When::AfterSkew => "after skew workload"@,
    }
}

fn when_name(w: When) -> (t: &'static str)
    ensures
        t@ == when_text(w),
{
    match w {
        When::AfterWriteA => "after write A",
        When::AfterReadA => "after read A",
        When::AfterReadB => "after read B",
        When::AfterSkew => "after skew workload",
    }
}

/// Blocks that came back wrong, and where the first difference is.
pub open spec fn wrong_text(mismatches: u64, block: u64, at: usize) -> Seq<char> {
    dec(mismatches as nat) + " blocks wrong, first at block "@ + dec(block as nat) + " byte "@
        + dec(at as nat)
}

fn push_wrong(t: &mut String, mismatches: u64, block: u64, at: usize)
    ensures
        final(t)@ == old(t)@ + wrong_text(mismatches, block, at),
{
    let ghost head = t@;
    push_dec(t, mismatches);
    t.append(" blocks wrong, first at block ");
    push_dec(t, block);
    t.append(" byte ");
    push_dec(t, at as u64);
    assert(t@ =~= head + wrong_text(mismatches, block, at));
}

/// A false claim in words.
pub open spec fn finding_text(f: Finding, c: Circumstances, q: SizeQuotients) -> Seq<char> {
    match f {
        Finding::NoWitness => "cannot measure process footprint: "@ + c.trouble@
            + " — the budget has no witness"@,
        Finding::PoolExists => "aborted: invalid argument: "@ + c.pool@
            + " already exists; refusing to overwrite"@,
        Finding::NotSparse { allocated } => "fresh pool occupies "@ + size_text(
            allocated as nat,
            q.first@,
        ) + " on disk; expected a sparse file"@,
        Finding::TooManyResident =>
            "resident blocks exceed frame count (impossible; accounting bug)"@,
        Finding::NotOnDisk { allocated } => "only "@ + size_text(allocated as nat, q.first@)
            + " on disk after writing "@ + size_text(c.region as nat, q.second@) + " with "@
            + size_text(c.hot as nat, q.third@)
            + " hot; evicted data is not on the backing store"@,
        Finding::OverBound { when, max, bound } => "footprint exceeded bound "@ + when_text(when)
            + ": max "@ + size_text(max as nat, q.first@) + " > bound "@ + size_text(
            bound as nat,
            q.second@,
        ) + " (Loom holds arena bytes it did not account for, or the slack is wrong)"@,
        Finding::StillResident { blocks } => dec(blocks as nat)
            + " blocks still resident after evict_all"@,
        Finding::LostA { mismatches, block, at } => "pattern A corrupted after eviction: "@
            + wrong_text(mismatches, block, at),
        Finding::RegionLost => c.trouble@,
        Finding::LostB { mismatches, block, at } => "pattern B lost across reopen: "@
            + wrong_text(mismatches, block, at),
        Finding::WrongError => "tamper produced the wrong error: "@ + c.trouble@,
        Finding::Undetected => "tampered block "@ + dec(c.middle as nat)
            + " read back WITHOUT error — corruption undetected"@,
        Finding::WrongAfterRestore => "restored block read without error but with wrong bytes"@,
        Finding::ErrorAfterRestore => "restored block still errors: "@ + c.trouble@,
        Finding::Aborted => "aborted: "@ + c.trouble@,
    }
}

/// The sizes a finding speaks of.
pub open spec fn sizes_in(f: Finding, c: Circumstances) -> (u64, u64, u64) {
    match f {
        Finding::NotSparse { allocated } => (allocated, 0u64, 0u64),
        Finding::NotOnDisk { allocated } => (allocated, c.region, c.hot),
        Finding::OverBound { when, max, bound } => (max, bound, 0u64),
        _ => (0u64, 0u64, 0u64),
    }
}

/// The sizes a finding speaks of, in the order they come; zero where there is
/// none.
pub fn finding_sizes(f: Finding, c: &Circumstances) -> (r: (u64, u64, u64))
    ensures
        r == sizes_in(f, *c),
{
    match f {
        Finding::NotSparse { allocated } => (allocated, 0, 0),
        Finding::NotOnDisk { allocated } => (allocated, c.region, c.hot),
        Finding::OverBound { max, bound, .. } => (max, bound, 0),
        _ => (0, 0, 0),
    }
}

/// A false claim in words.
pub fn finding(f: Finding, c: &Circumstances, q: &SizeQuotients) -> (t: String)
    ensures
        t@ == finding_text(f, *c, *q),
{
    match f {
        Finding::NoWitness => {
            let mut t = String::from_str("cannot measure process footprint: ");
            t.append(c.trouble);
            t.append(" — the budget has no witness");
            t
        },
        Finding::PoolExists => {
            let mut t = String::from_str("aborted: invalid argument: ");
            t.append(c.pool);
            t.append(" already exists; refusing to overwrite");
            t
        },
        Finding::NotSparse { allocated } => {
            let mut t = String::from_str("fresh pool occupies ");
            push_bytes(&mut t, allocated, q.first);
            t.append(" on disk; expected a sparse file");
            t
        },
        Finding::TooManyResident => String::from_str(
            "resident blocks exceed frame count (impossible; accounting bug)",
        ),
        Finding::NotOnDisk { allocated } => {
            let mut t = String::from_str("only ");
            push_bytes(&mut t, allocated, q.first);
            t.append(" on disk after writing ");
            push_bytes(&mut t, c.region, q.second);
            t.append(" with ");
            push_bytes(&mut t, c.hot, q.third);
            t.append(" hot; evicted data is not on the backing store");
            t
        },
        Finding::OverBound { when, max, bound } => {
            let mut t = String::from_str("footprint exceeded bound ");
            t.append(when_name(when));
            t.append(": max ");
            push_bytes(&mut t, max, q.first);
            t.append(" > bound ");
            push_bytes(&mut t, bound, q.second);
            t.append(
                " (Loom holds arena bytes it did not account for, or the slack is wrong)",
            );
            t
        },
        Finding::StillResident { blocks } => {
            let mut t = String::new();
            push_dec(&mut t, blocks);
            assert(t@ =~= dec(blocks as nat));
            t.append(" blocks still resident after evict_all");
            t
        },
        Finding::LostA { mismatches, block, at } => {
            let mut t = String::from_str("pattern A corrupted after eviction: ");
            push_wrong(&mut t, mismatches, block, at);
            t
        },
        Finding::RegionLost => String::from_str(c.trouble),
        Finding::LostB { mismatches, block, at } => {
            let mut t = String::from_str("pattern B lost across reopen: ");
            push_wrong(&mut t, mismatches, block, at);
            t
        },
        Finding::WrongError => {
            let mut t = String::from_str("tamper produced the wrong error: ");
            t.append(c.trouble);
            t
        },
        Finding::Undetected => {
            let mut t = String::from_str("tampered block ");
            push_dec(&mut t, c.middle);
            t.append(" read back WITHOUT error — corruption undetected");
            t
        },
        Finding::WrongAfterRestore => String::from_str(
            "restored block read without error but with wrong bytes",
        ),
        Finding::ErrorAfterRestore => {
            let mut t = String::from_str("restored block still errors: ");
            t.append(c.trouble);
            t
        },
        Finding::Aborted => {
            let mut t = String::from_str("aborted: ");
            t.append(c.trouble);
            t
        },
    }
}

/// The refusal of a region that is too small to show anything.
pub fn too_small(region: Figure, budget: Figure) -> (e: LoomError)
    ensures
        e matches LoomError::Invalid(t) && t@ == "region "@ + region.size()
            + " is less than 4x budget "@ + budget.size()
            + "; pass --allow-small to run anyway"@,
{
    let mut t = String::from_str("region ");
    push_bytes(&mut t, region.value, region.scaled);
    t.append(" is less than 4x budget ");
    push_bytes(&mut t, budget.value, budget.scaled);
    t.append("; pass --allow-small to run anyway");
    LoomError::Invalid(t)
}

/// What the platform compressed of the process, if anything.
pub open spec fn squeezed_text(f: Footprint, scaled: Seq<char>) -> Seq<char> {
    match f.compressed {
        Some(c) if c > 0 => "  OS has compressed "@ + size_text(c as nat, scaled)
            + " of this process"@,
        _ => Seq::empty(),
    }
}

/// The footprint is within its bound, in words: `q` is for the footprint, the
/// bound and what lies between, `compressed` for what is compressed.
pub fn within_bound(
    when: When,
    max: &Footprint,
    bound: u64,
    q: &SizeQuotients,
    compressed: &str,
) -> (t: String)
    requires
        max.footprint <= bound,
    ensures
        t@ == "[4] footprint "@ + when_text(when) + ": max "@ + size_text(
            max.footprint as nat,
            q.first@,
        ) + " ≤ bound "@ + size_text(bound as nat, q.second@) + "  ("@ + size_text(
            (bound - max.footprint) as nat,
            q.third@,
        ) + " headroom)"@ + squeezed_text(*max, compressed@),
{
    let mut t = String::from_str("[4] footprint ");
    t.append(when_name(when));
    t.append(": max ");
    push_bytes(&mut t, max.footprint, q.first);
    t.append(" ≤ bound ");
    push_bytes(&mut t, bound, q.second);
    t.append("  (");
    push_bytes(&mut t, bound - max.footprint, q.third);
    t.append(" headroom)");
    let ghost head = t@;
    if let Some(c) = max.compressed {
        if c > 0 {
            t.append("  OS has compressed ");
            push_bytes(&mut t, c, compressed);
            t.append(" of this process");
        }
    }
    assert(t@ =~= head + squeezed_text(*max, compressed@));
    t
}

// ---- nothing is left out ------------------------------------------------

/// The part stands somewhere in the whole.
pub open spec fn occurs(part: Seq<char>, whole: Seq<char>) -> bool {
    exists|at: int|
        0 <= at && at + part.len() <= whole.len() && #[trigger] whole.subrange(
            at,
            at + part.len(),
        ) == part
}

proof fn lemma_occurs(a: Seq<char>, part: Seq<char>, b: Seq<char>)
    ensures
        occurs(part, a + part + b),
{
    let whole = a + part + b;
    let at = a.len() as int;
    assert(whole.subrange(at, at + part.len()) =~= part);
}

proof fn lemma_occurs_within(part: Seq<char>, whole: Seq<char>, b: Seq<char>)
    requires
        occurs(part, whole),
    ensures
        occurs(part, whole + b),
{
    let at = choose|at: int|
        0 <= at && at + part.len() <= whole.len() && #[trigger] whole.subrange(
            at,
            at + part.len(),
        ) == part;
    assert((whole + b).subrange(at, at + part.len()) =~= whole.subrange(at, at + part.len()));
}

proof fn lemma_three_behind(a: Seq<char>, b: Seq<char>, c: Seq<char>, d: Seq<char>)
    ensures
        a + b + c + d == a + (b + c + d),
{
    assert(a + b + c + d =~= a + (b + c + d));
}

/// The line a finding is listed on.
pub open spec fn line_of(finding: Seq<char>) -> Seq<char> {
    "  - "@ + finding + "\n"@
}

/// Every finding is listed, on a line of its own, in order.
pub proof fn law_every_finding_is_listed(findings: Seq<String>, i: int)
    requires
        0 <= i < findings.len(),
    ensures
        occurs(line_of(findings[i]@), listed(findings)),
        listed(findings) == listed(findings.drop_last()) + line_of(findings.last()@),
    decreases findings.len(),
{
    let less = findings.drop_last();
    let last = line_of(findings.last()@);
    lemma_three_behind(listed(less), "  - "@, findings.last()@, "\n"@);
    let whole = listed(findings);
    assert(whole == listed(less) + last);
    if i == less.len() {
        lemma_occurs(listed(less), last, Seq::empty());
        assert(listed(less) + last + Seq::empty() =~= whole);
    } else {
        law_every_finding_is_listed(less, i);
        lemma_occurs_within(line_of(less[i]@), listed(less), last);
    }
}

/// A list in words has every part in it.
pub proof fn law_every_part_is_named(parts: Seq<Seq<char>>, i: int)
    requires
        0 <= i < parts.len(),
    ensures
        occurs(parts[i], joined(parts)),
    decreases parts.len(),
{
    let less = parts.drop_last();
    let whole = joined(parts);
    if parts.len() == 1 {
        lemma_occurs(Seq::empty(), parts[0], Seq::empty());
        assert(Seq::<char>::empty() + parts[0] + Seq::<char>::empty() =~= whole);
    } else if i == less.len() {
        lemma_occurs(joined(less) + ", "@, parts[i], Seq::empty());
        assert(joined(less) + ", "@ + parts[i] + Seq::<char>::empty() =~= whole);
    } else {
        law_every_part_is_named(less, i);
        lemma_occurs_within(parts[i], joined(less), ", "@ + parts.last());
        assert(joined(less) + (", "@ + parts.last()) =~= whole);
    }
}

/// A label is padded to its column and no further.
pub proof fn law_columns_line_up(label: Seq<char>, width: nat)
    ensures
        label.len() <= width ==> (label + blanks(label.len(), width)).len() == width,
        label.len() > width ==> blanks(label.len(), width).len() == 0,
        forall|i: int|
            0 <= i < blanks(label.len(), width).len() ==> #[trigger] blanks(label.len(), width)[i]
                == ' ',
{
}

/// A signed number is its amount, behind a minus sign if it is negative.
pub proof fn law_signed_numbers_read_back(n: int)
    ensures
        n >= 0 ==> crate::text::denoted(signed(n), 10) == n,
        n < 0 ==> signed(n)[0] == '-' && crate::text::denoted(signed(n).skip(1), 10) == -n,
{
    reveal_strlit("-");
    if n >= 0 {
        crate::text::law_numerals_denote(n as nat, 10);
    } else {
        crate::text::law_numerals_denote((-n) as nat, 10);
        assert(signed(n).skip(1) =~= dec((-n) as nat));
    }
}

/// The sizes that a finding is said to speak of are those it shows, each with
/// its own quotient.
pub proof fn law_findings_show_their_sizes(f: Finding, c: Circumstances, q: SizeQuotients)
    ensures
        f is NotSparse || f is NotOnDisk || f is OverBound ==> occurs(
            size_text(sizes_in(f, c).0 as nat, q.first@),
            finding_text(f, c, q),
        ),
        f is NotOnDisk || f is OverBound ==> occurs(
            size_text(sizes_in(f, c).1 as nat, q.second@),
            finding_text(f, c, q),
        ),
        f is NotOnDisk ==> occurs(
            size_text(sizes_in(f, c).2 as nat, q.third@),
            finding_text(f, c, q),
        ),
{
    let x = sizes_in(f, c);
    let a = size_text(x.0 as nat, q.first@);
    let b = size_text(x.1 as nat, q.second@);
    let d = size_text(x.2 as nat, q.third@);
    let whole = finding_text(f, c, q);
    match f {
        Finding::NotSparse { allocated } => {
            lemma_occurs(
                "fresh pool occupies "@,
                a,
                " on disk; expected a sparse file"@,
            );
        },
        Finding::NotOnDisk { allocated } => {
            let end = " hot; evicted data is not on the backing store"@;
            let mid = " on disk after writing "@;
            let with = " with "@;
            lemma_occurs("only "@, a, mid);
            lemma_occurs_within(a, "only "@ + a + mid, b);
            lemma_occurs("only "@ + a + mid, b, with);
            lemma_occurs_within(a, "only "@ + a + mid + b, with);
            lemma_occurs_within(a, "only "@ + a + mid + b + with, d);
            lemma_occurs_within(b, "only "@ + a + mid + b + with, d);
            lemma_occurs("only "@ + a + mid + b + with, d, end);
            lemma_occurs_within(a, "only "@ + a + mid + b + with + d, end);
            lemma_occurs_within(b, "only "@ + a + mid + b + with + d, end);
        },
        Finding::OverBound { when, max, bound } => {
            let start = "footprint exceeded bound "@ + when_text(when) + ": max "@;
            let mid = " > bound "@;
            let end = " (Loom holds arena bytes it did not account for, or the slack is wrong)"@;
            lemma_occurs(start, a, mid);
            lemma_occurs_within(a, start + a + mid, b);
            lemma_occurs_within(a, start + a + mid + b, end);
            lemma_occurs(start + a + mid, b, end);
        },
        _ => {},
    }
}

// ---- texts show what they are about --------------------------------------

/// The text has the label, and right behind it the value.
pub open spec fn shows(text: Seq<char>, label: Seq<char>, value: Seq<char>) -> bool {
    occurs(label + value, text)
}

/// Every part stands somewhere in the whole.
spec fn all_occur(parts: Seq<Seq<char>>, whole: Seq<char>) -> bool {
    forall|i: int| 0 <= i < parts.len() ==> occurs(#[trigger] parts[i], whole)
}

/// A text that begins with a label and a value.
proof fn lemma_begin(l: Seq<char>, v: Seq<char>)
    ensures
        all_occur(seq![l + v], l + v),
{
    lemma_occurs(Seq::empty(), l + v, Seq::empty());
    assert(Seq::<char>::empty() + (l + v) + Seq::<char>::empty() =~= l + v);
}

/// A text that goes on.
proof fn lemma_tail(parts: Seq<Seq<char>>, p: Seq<char>, q: Seq<char>)
    requires
        all_occur(parts, p),
    ensures
        all_occur(parts, p + q),
{
    assert forall|i: int| 0 <= i < parts.len() implies occurs(#[trigger] parts[i], p + q) by {
        lemma_occurs_within(parts[i], p, q);
    }
}

/// A text that goes on with a label and a value.
proof fn lemma_more(parts: Seq<Seq<char>>, p: Seq<char>, l: Seq<char>, v: Seq<char>)
    requires
        all_occur(parts, p),
    ensures
        all_occur(parts.push(l + v), p + l + v),
{
    let more = parts.push(l + v);
    assert(p + l + v =~= p + (l + v));
    assert forall|i: int| 0 <= i < more.len() implies occurs(#[trigger] more[i], p + l + v) by {
        if i < parts.len() {
            assert(more[i] == parts[i]);
            lemma_occurs_within(parts[i], p, l + v);
        } else {
            lemma_occurs(p, l + v, Seq::empty());
            assert(p + (l + v) + Seq::<char>::empty() =~= p + (l + v));
        }
    }
}

/// The report of an arena shows every counter behind its name, with all its
/// digits, and the traffic and latencies behind theirs.
pub proof fn law_every_arena_counter_is_shown(s: Stats, q: StatsQuotients)
    ensures
        shows(stats_text(s, q), "hits: "@, dec(s.hits as nat)),
        shows(stats_text(s, q), "  misses: "@, dec(s.misses as nat)),
        shows(stats_text(s, q), "  hit rate: "@, rate_text(s, q.hit_rate@)),
        shows(stats_text(s, q), "\n  zero-fills: "@, dec(s.zero_fills as nat)),
        shows(stats_text(s, q), "  full-overwrites: "@, dec(s.full_overwrites as nat)),
        shows(stats_text(s, q), "  evictions: "@, dec(s.evictions as nat)),
        shows(stats_text(s, q), "  writebacks: "@, dec(s.writebacks as nat)),
        shows(stats_text(s, q), "\n  prefetch: "@, dec(s.prefetch_batches as nat)),
        shows(stats_text(s, q), " batches, "@, dec(s.prefetch_blocks as nat)),
        shows(stats_text(s, q), " blocks, "@, dec(s.prefetch_used as nat)),
        shows(stats_text(s, q), " later used ("@, useful_text(s, q.useful@)),
        shows(stats_text(s, q), ")  zero-copy borrows: "@, dec(s.zero_copy as nat)),
        shows(
            stats_text(s, q),
            "\n  backing read: "@,
            size_text(s.bytes_read_backing as nat, q.read@),
        ),
        shows(
            stats_text(s, q),
            "  backing written: "@,
            size_text(s.bytes_written_backing as nat, q.written@),
        ),
        shows(stats_text(s, q), "\n  hit latency:       "@, summary_text(s.hit_latency@, q.hit)),
        shows(stats_text(s, q), "\n  miss latency:      "@, summary_text(s.miss_latency@, q.miss)),
        shows(
            stats_text(s, q),
            "\n  writeback latency: "@,
            summary_text(s.writeback_latency@, q.writeback),
        ),
{
    lemma_begin("hits: "@, dec(s.hits as nat));
    let p0 = "hits: "@ + dec(s.hits as nat);
    let k0: Seq<Seq<char>> = seq!["hits: "@ + dec(s.hits as nat)];
    lemma_more(k0, p0, "  misses: "@, dec(s.misses as nat));
    let p1 = p0 + "  misses: "@ + dec(s.misses as nat);
    let k1 = k0.push("  misses: "@ + dec(s.misses as nat));
    lemma_more(k1, p1, "  hit rate: "@, rate_text(s, q.hit_rate@));
    let p2 = p1 + "  hit rate: "@ + rate_text(s, q.hit_rate@);
    let k2 = k1.push("  hit rate: "@ + rate_text(s, q.hit_rate@));
    lemma_more(k2, p2, "\n  zero-fills: "@, dec(s.zero_fills as nat));
    let p3 = p2 + "\n  zero-fills: "@ + dec(s.zero_fills as nat);
    let k3 = k2.push("\n  zero-fills: "@ + dec(s.zero_fills as nat));
    lemma_more(k3, p3, "  full-overwrites: "@, dec(s.full_overwrites as nat));
    let p4 = p3 + "  full-overwrites: "@ + dec(s.full_overwrites as nat);
    let k4 = k3.push("  full-overwrites: "@ + dec(s.full_overwrites as nat));
    lemma_more(k4, p4, "  evictions: "@, dec(s.evictions as nat));
    let p5 = p4 + "  evictions: "@ + dec(s.evictions as nat);
    let k5 = k4.push("  evictions: "@ + dec(s.evictions as nat));
    lemma_more(k5, p5, "  writebacks: "@, dec(s.writebacks as nat));
    let p6 = p5 + "  writebacks: "@ + dec(s.writebacks as nat);
    let k6 = k5.push("  writebacks: "@ + dec(s.writebacks as nat));
    lemma_more(k6, p6, "\n  prefetch: "@, dec(s.prefetch_batches as nat));
    let p7 = p6 + "\n  prefetch: "@ + dec(s.prefetch_batches as nat);
    let k7 = k6.push("\n  prefetch: "@ + dec(s.prefetch_batches as nat));
    lemma_more(k7, p7, " batches, "@, dec(s.prefetch_blocks as nat));
    let p8 = p7 + " batches, "@ + dec(s.prefetch_blocks as nat);
    let k8 = k7.push(" batches, "@ + dec(s.prefetch_blocks as nat));
    lemma_more(k8, p8, " blocks, "@, dec(s.prefetch_used as nat));
    let p9 = p8 + " blocks, "@ + dec(s.prefetch_used as nat);
    let k9 = k8.push(" blocks, "@ + dec(s.prefetch_used as nat));
    lemma_more(k9, p9, " later used ("@, useful_text(s, q.useful@));
    let p10 = p9 + " later used ("@ + useful_text(s, q.useful@);
    let k10 = k9.push(" later used ("@ + useful_text(s, q.useful@));
    lemma_more(k10, p10, ")  zero-copy borrows: "@, dec(s.zero_copy as nat));
    let p11 = p10 + ")  zero-copy borrows: "@ + dec(s.zero_copy as nat);
    let k11 = k10.push(")  zero-copy borrows: "@ + dec(s.zero_copy as nat));
    lemma_more(k11, p11, "\n  backing read: "@, size_text(s.bytes_read_backing as nat, q.read@));
    let p12 = p11 + "\n  backing read: "@ + size_text(s.bytes_read_backing as nat, q.read@);
    let k12 = k11.push("\n  backing read: "@ + size_text(s.bytes_read_backing as nat, q.read@));
    lemma_more(
        k12,
        p12,
        "  backing written: "@,
        size_text(s.bytes_written_backing as nat, q.written@),
    );
    let p13 = p12 + "  backing written: "@ + size_text(s.bytes_written_backing as nat, q.written@);
    let k13 = k12.push(
        "  backing written: "@ + size_text(s.bytes_written_backing as nat, q.written@),
    );
    lemma_more(k13, p13, "\n  hit latency:       "@, summary_text(s.hit_latency@, q.hit));
    let p14 = p13 + "\n  hit latency:       "@ + summary_text(s.hit_latency@, q.hit);
    let k14 = k13.push("\n  hit latency:       "@ + summary_text(s.hit_latency@, q.hit));
    lemma_more(k14, p14, "\n  miss latency:      "@, summary_text(s.miss_latency@, q.miss));
    let p15 = p14 + "\n  miss latency:      "@ + summary_text(s.miss_latency@, q.miss);
    let k15 = k14.push("\n  miss latency:      "@ + summary_text(s.miss_latency@, q.miss));
    lemma_more(
        k15,
        p15,
        "\n  writeback latency: "@,
        summary_text(s.writeback_latency@, q.writeback),
    );
    let p16 = p15 + "\n  writeback latency: "@ + summary_text(s.writeback_latency@, q.writeback);
    let k16 = k15.push(
        "\n  writeback latency: "@ + summary_text(s.writeback_latency@, q.writeback),
    );
    lemma_tail(k16, p16, "\n"@);
    let t0 = p16 + "\n"@;
    assert(stats_text(s, q) == t0);
    assert(k16[0] == "hits: "@ + dec(s.hits as nat));
    assert(k16[1] == "  misses: "@ + dec(s.misses as nat));
    assert(k16[2] == "  hit rate: "@ + rate_text(s, q.hit_rate@));
    assert(k16[3] == "\n  zero-fills: "@ + dec(s.zero_fills as nat));
    assert(k16[4] == "  full-overwrites: "@ + dec(s.full_overwrites as nat));
    assert(k16[5] == "  evictions: "@ + dec(s.evictions as nat));
    assert(k16[6] == "  writebacks: "@ + dec(s.writebacks as nat));
    assert(k16[7] == "\n  prefetch: "@ + dec(s.prefetch_batches as nat));
    assert(k16[8] == " batches, "@ + dec(s.prefetch_blocks as nat));
    assert(k16[9] == " blocks, "@ + dec(s.prefetch_used as nat));
    assert(k16[10] == " later used ("@ + useful_text(s, q.useful@));
    assert(k16[11] == ")  zero-copy borrows: "@ + dec(s.zero_copy as nat));
    assert(k16[12] == "\n  backing read: "@ + size_text(s.bytes_read_backing as nat, q.read@));
    assert(k16[13]
        == "  backing written: "@ + size_text(s.bytes_written_backing as nat, q.written@));
    assert(k16[14] == "\n  hit latency:       "@ + summary_text(s.hit_latency@, q.hit));
    assert(k16[15] == "\n  miss latency:      "@ + summary_text(s.miss_latency@, q.miss));
    assert(k16[16] == "\n  writeback latency: "@ + summary_text(s.writeback_latency@, q.writeback));
}

/// The report of a fault arena shows every counter behind its name, and its
/// failures, if there are any: how many, and the list of them.
pub proof fn law_every_fault_counter_is_shown(
    s: FaultStats,
    extent: nat,
    failures: Seq<Seq<char>>,
    q: FaultQuotients,
)
    ensures
        shows(faults_text(s, extent, failures, q), "load faults: "@, dec(s.load_faults as nat)),
        shows(faults_text(s, extent, failures, q), "  write faults: "@, dec(s.write_faults as nat)),
        shows(faults_text(s, extent, failures, q), "  evictions: "@, dec(s.evictions as nat)),
        shows(faults_text(s, extent, failures, q), " ("@, dec(s.writebacks as nat)),
        shows(
            faults_text(s, extent, failures, q),
            " needed writeback)\n  resident: "@,
            dec(s.resident_extents as nat),
        ),
        shows(
            faults_text(s, extent, failures, q),
            " extents ("@,
            size_text(s.resident_extents as nat * extent, q.resident@),
        ),
        shows(
            faults_text(s, extent, failures, q),
            ")  peak: "@,
            size_text(s.peak_resident_bytes as nat, q.peak@),
        ),
        shows(
            faults_text(s, extent, failures, q),
            "\n  load latency: "@,
            summary_text(s.load_latency@, q.load),
        ),
        shows(
            faults_text(s, extent, failures, q),
            "\n  wp   latency: "@,
            summary_text(s.wp_latency@, q.wp),
        ),
        failures.len() > 0 ==> shows(
            faults_text(s, extent, failures, q),
            "\n  FAILURES ("@,
            dec(failures.len()),
        ),
        failures.len() > 0 ==> shows(
            faults_text(s, extent, failures, q),
            "): ["@,
            joined(failures),
        ),
{
    lemma_begin("load faults: "@, dec(s.load_faults as nat));
    let p0 = "load faults: "@ + dec(s.load_faults as nat);
    let k0: Seq<Seq<char>> = seq!["load faults: "@ + dec(s.load_faults as nat)];
    lemma_more(k0, p0, "  write faults: "@, dec(s.write_faults as nat));
    let p1 = p0 + "  write faults: "@ + dec(s.write_faults as nat);
    let k1 = k0.push("  write faults: "@ + dec(s.write_faults as nat));
    lemma_more(k1, p1, "  evictions: "@, dec(s.evictions as nat));
    let p2 = p1 + "  evictions: "@ + dec(s.evictions as nat);
    let k2 = k1.push("  evictions: "@ + dec(s.evictions as nat));
    lemma_more(k2, p2, " ("@, dec(s.writebacks as nat));
    let p3 = p2 + " ("@ + dec(s.writebacks as nat);
    let k3 = k2.push(" ("@ + dec(s.writebacks as nat));
    lemma_more(k3, p3, " needed writeback)\n  resident: "@, dec(s.resident_extents as nat));
    let p4 = p3 + " needed writeback)\n  resident: "@ + dec(s.resident_extents as nat);
    let k4 = k3.push(" needed writeback)\n  resident: "@ + dec(s.resident_extents as nat));
    lemma_more(k4, p4, " extents ("@, size_text(s.resident_extents as nat * extent, q.resident@));
    let p5 = p4 + " extents ("@ + size_text(s.resident_extents as nat * extent, q.resident@);
    let k5 = k4.push(" extents ("@ + size_text(s.resident_extents as nat * extent, q.resident@));
    lemma_more(k5, p5, ")  peak: "@, size_text(s.peak_resident_bytes as nat, q.peak@));
    let p6 = p5 + ")  peak: "@ + size_text(s.peak_resident_bytes as nat, q.peak@);
    let k6 = k5.push(")  peak: "@ + size_text(s.peak_resident_bytes as nat, q.peak@));
    lemma_more(k6, p6, "\n  load latency: "@, summary_text(s.load_latency@, q.load));
    let p7 = p6 + "\n  load latency: "@ + summary_text(s.load_latency@, q.load);
    let k7 = k6.push("\n  load latency: "@ + summary_text(s.load_latency@, q.load));
    lemma_more(k7, p7, "\n  wp   latency: "@, summary_text(s.wp_latency@, q.wp));
    let p8 = p7 + "\n  wp   latency: "@ + summary_text(s.wp_latency@, q.wp);
    let k8 = k7.push("\n  wp   latency: "@ + summary_text(s.wp_latency@, q.wp));
    if !(failures.len() > 0) {
        assert(faults_text(s, extent, failures, q) == p8);
        assert(k8[0] == "load faults: "@ + dec(s.load_faults as nat));
        assert(k8[1] == "  write faults: "@ + dec(s.write_faults as nat));
        assert(k8[2] == "  evictions: "@ + dec(s.evictions as nat));
        assert(k8[3] == " ("@ + dec(s.writebacks as nat));
        assert(k8[4] == " needed writeback)\n  resident: "@ + dec(s.resident_extents as nat));
        assert(k8[5] == " extents ("@ + size_text(s.resident_extents as nat * extent, q.resident@));
        assert(k8[6] == ")  peak: "@ + size_text(s.peak_resident_bytes as nat, q.peak@));
        assert(k8[7] == "\n  load latency: "@ + summary_text(s.load_latency@, q.load));
        assert(k8[8] == "\n  wp   latency: "@ + summary_text(s.wp_latency@, q.wp));
    } else {
        lemma_more(k8, p8, "\n  FAILURES ("@, dec(failures.len()));
        let p9 = p8 + "\n  FAILURES ("@ + dec(failures.len());
        let k9 = k8.push("\n  FAILURES ("@ + dec(failures.len()));
        lemma_more(k9, p9, "): ["@, joined(failures));
        let p10 = p9 + "): ["@ + joined(failures);
        let k10 = k9.push("): ["@ + joined(failures));
        lemma_tail(k10, p10, "]"@);
        assert(faults_text(s, extent, failures, q) == p10 + "]"@);
        assert(k10[0] == "load faults: "@ + dec(s.load_faults as nat));
        assert(k10[1] == "  write faults: "@ + dec(s.write_faults as nat));
        assert(k10[2] == "  evictions: "@ + dec(s.evictions as nat));
        assert(k10[3] == " ("@ + dec(s.writebacks as nat));
        assert(k10[4] == " needed writeback)\n  resident: "@ + dec(s.resident_extents as nat));
        assert(k10[5]
            == " extents ("@ + size_text(s.resident_extents as nat * extent, q.resident@));
        assert(k10[6] == ")  peak: "@ + size_text(s.peak_resident_bytes as nat, q.peak@));
        assert(k10[7] == "\n  load latency: "@ + summary_text(s.load_latency@, q.load));
        assert(k10[8] == "\n  wp   latency: "@ + summary_text(s.wp_latency@, q.wp));
        assert(k10[9] == "\n  FAILURES ("@ + dec(failures.len()));
        assert(k10[10] == "): ["@ + joined(failures));
    }
}

/// The report of a signal-backed arena shows every counter behind its name,
/// and of its failures, if there are any, how many there are and where the
/// first one was.
pub proof fn law_every_signal_counter_is_shown(
    s: SignalFaultStats,
    extent: nat,
    resident: Seq<char>,
    peak: Seq<char>,
)
    ensures
        shows(signal_text(s, extent, resident, peak), "load faults: "@, dec(s.load_faults as nat)),
        shows(
            signal_text(s, extent, resident, peak),
            "  write faults: "@,
            dec(s.write_faults as nat),
        ),
        shows(signal_text(s, extent, resident, peak), "  evictions: "@, dec(s.evictions as nat)),
        shows(signal_text(s, extent, resident, peak), " ("@, dec(s.writebacks as nat)),
        shows(
            signal_text(s, extent, resident, peak),
            " wrote back)\n  resident: "@,
            dec(s.resident_extents as nat),
        ),
        shows(
            signal_text(s, extent, resident, peak),
            " extents ("@,
            size_text(s.resident_extents as nat * extent, resident),
        ),
        shows(
            signal_text(s, extent, resident, peak),
            ")  peak: "@,
            dec(s.peak_resident_extents as nat),
        ),
        shows(
            signal_text(s, extent, resident, peak),
            " ("@,
            size_text(s.peak_resident_extents as nat * extent, peak),
        ),
        s.failures > 0 ==> shows(
            signal_text(s, extent, resident, peak),
            "\n  FAILURES: "@,
            dec(s.failures as nat),
        ),
        s.failures > 0 ==> shows(
            signal_text(s, extent, resident, peak),
            " (first at "@,
            hex(s.first_failure_addr as nat),
        ),
        s.failures > 0 ==> shows(
            signal_text(s, extent, resident, peak),
            ", errno "@,
            signed(s.first_failure_errno as int),
        ),
{
    lemma_begin("load faults: "@, dec(s.load_faults as nat));
    let p0 = "load faults: "@ + dec(s.load_faults as nat);
    let k0: Seq<Seq<char>> = seq!["load faults: "@ + dec(s.load_faults as nat)];
    lemma_more(k0, p0, "  write faults: "@, dec(s.write_faults as nat));
    let p1 = p0 + "  write faults: "@ + dec(s.write_faults as nat);
    let k1 = k0.push("  write faults: "@ + dec(s.write_faults as nat));
    lemma_more(k1, p1, "  evictions: "@, dec(s.evictions as nat));
    let p2 = p1 + "  evictions: "@ + dec(s.evictions as nat);
    let k2 = k1.push("  evictions: "@ + dec(s.evictions as nat));
    lemma_more(k2, p2, " ("@, dec(s.writebacks as nat));
    let p3 = p2 + " ("@ + dec(s.writebacks as nat);
    let k3 = k2.push(" ("@ + dec(s.writebacks as nat));
    lemma_more(k3, p3, " wrote back)\n  resident: "@, dec(s.resident_extents as nat));
    let p4 = p3 + " wrote back)\n  resident: "@ + dec(s.resident_extents as nat);
    let k4 = k3.push(" wrote back)\n  resident: "@ + dec(s.resident_extents as nat));
    lemma_more(k4, p4, " extents ("@, size_text(s.resident_extents as nat * extent, resident));
    let p5 = p4 + " extents ("@ + size_text(s.resident_extents as nat * extent, resident);
    let k5 = k4.push(" extents ("@ + size_text(s.resident_extents as nat * extent, resident));
    lemma_more(k5, p5, ")  peak: "@, dec(s.peak_resident_extents as nat));
    let p6 = p5 + ")  peak: "@ + dec(s.peak_resident_extents as nat);
    let k6 = k5.push(")  peak: "@ + dec(s.peak_resident_extents as nat));
    lemma_more(k6, p6, " ("@, size_text(s.peak_resident_extents as nat * extent, peak));
    let p7 = p6 + " ("@ + size_text(s.peak_resident_extents as nat * extent, peak);
    let k7 = k6.push(" ("@ + size_text(s.peak_resident_extents as nat * extent, peak));
    lemma_tail(k7, p7, ")"@);
    let closed = p7 + ")"@;
    if !(s.failures > 0) {
        assert(signal_text(s, extent, resident, peak) == closed);
        assert(k7[0] == "load faults: "@ + dec(s.load_faults as nat));
        assert(k7[1] == "  write faults: "@ + dec(s.write_faults as nat));
        assert(k7[2] == "  evictions: "@ + dec(s.evictions as nat));
        assert(k7[3] == " ("@ + dec(s.writebacks as nat));
        assert(k7[4] == " wrote back)\n  resident: "@ + dec(s.resident_extents as nat));
        assert(k7[5] == " extents ("@ + size_text(s.resident_extents as nat * extent, resident));
        assert(k7[6] == ")  peak: "@ + dec(s.peak_resident_extents as nat));
        assert(k7[7] == " ("@ + size_text(s.peak_resident_extents as nat * extent, peak));
    } else {
        lemma_more(k7, closed, "\n  FAILURES: "@, dec(s.failures as nat));
        let p8 = closed + "\n  FAILURES: "@ + dec(s.failures as nat);
        let k8 = k7.push("\n  FAILURES: "@ + dec(s.failures as nat));
        lemma_more(k8, p8, " (first at "@, hex(s.first_failure_addr as nat));
        let p9 = p8 + " (first at "@ + hex(s.first_failure_addr as nat);
        let k9 = k8.push(" (first at "@ + hex(s.first_failure_addr as nat));
        lemma_more(k9, p9, ", errno "@, signed(s.first_failure_errno as int));
        let p10 = p9 + ", errno "@ + signed(s.first_failure_errno as int);
        let k10 = k9.push(", errno "@ + signed(s.first_failure_errno as int));
        lemma_tail(k10, p10, ")"@);
        assert(signal_text(s, extent, resident, peak) == p10 + ")"@);
        assert(k10[0] == "load faults: "@ + dec(s.load_faults as nat));
        assert(k10[1] == "  write faults: "@ + dec(s.write_faults as nat));
        assert(k10[2] == "  evictions: "@ + dec(s.evictions as nat));
        assert(k10[3] == " ("@ + dec(s.writebacks as nat));
        assert(k10[4] == " wrote back)\n  resident: "@ + dec(s.resident_extents as nat));
        assert(k10[5] == " extents ("@ + size_text(s.resident_extents as nat * extent, resident));
        assert(k10[6] == ")  peak: "@ + dec(s.peak_resident_extents as nat));
        assert(k10[7] == " ("@ + size_text(s.peak_resident_extents as nat * extent, peak));
        assert(k10[8] == "\n  FAILURES: "@ + dec(s.failures as nat));
        assert(k10[9] == " (first at "@ + hex(s.first_failure_addr as nat));
        assert(k10[10] == ", errno "@ + signed(s.first_failure_errno as int));
    }
}

/// The summary of a histogram shows how many samples there were, the values
/// at the two ranks, the largest and the mean, if there were any.
pub proof fn law_every_latency_figure_is_shown(h: HistState, q: Quotients)
    requires
        h.count > 0,
    ensures
        shows(summary_text(h, q), "n="@, dec(h.count)),
        shows(
            summary_text(h, q),
            " p50≤"@,
            time_text(h.at_rank(q.rank50 as nat)->0 as nat, q.p50@),
        ),
        shows(
            summary_text(h, q),
            " p99≤"@,
            time_text(h.at_rank(q.rank99 as nat)->0 as nat, q.p99@),
        ),
        shows(summary_text(h, q), " max="@, time_text(h.max, q.max@)),
        shows(summary_text(h, q), " mean="@, time_text(h.sum / h.count, q.mean@)),
{
    lemma_begin("n="@, dec(h.count));
    let p0 = "n="@ + dec(h.count);
    let k0: Seq<Seq<char>> = seq!["n="@ + dec(h.count)];
    lemma_more(k0, p0, " p50≤"@, time_text(h.at_rank(q.rank50 as nat)->0 as nat, q.p50@));
    let p1 = p0 + " p50≤"@ + time_text(h.at_rank(q.rank50 as nat)->0 as nat, q.p50@);
    let k1 = k0.push(" p50≤"@ + time_text(h.at_rank(q.rank50 as nat)->0 as nat, q.p50@));
    lemma_more(k1, p1, " p99≤"@, time_text(h.at_rank(q.rank99 as nat)->0 as nat, q.p99@));
    let p2 = p1 + " p99≤"@ + time_text(h.at_rank(q.rank99 as nat)->0 as nat, q.p99@);
    let k2 = k1.push(" p99≤"@ + time_text(h.at_rank(q.rank99 as nat)->0 as nat, q.p99@));
    lemma_more(k2, p2, " max="@, time_text(h.max, q.max@));
    let p3 = p2 + " max="@ + time_text(h.max, q.max@);
    let k3 = k2.push(" max="@ + time_text(h.max, q.max@));
    lemma_more(k3, p3, " mean="@, time_text(h.sum / h.count, q.mean@));
    let p4 = p3 + " mean="@ + time_text(h.sum / h.count, q.mean@);
    let k4 = k3.push(" mean="@ + time_text(h.sum / h.count, q.mean@));
    assert(summary_text(h, q) == p4);
    assert(k4[0] == "n="@ + dec(h.count));
    assert(k4[1] == " p50≤"@ + time_text(h.at_rank(q.rank50 as nat)->0 as nat, q.p50@));
    assert(k4[2] == " p99≤"@ + time_text(h.at_rank(q.rank99 as nat)->0 as nat, q.p99@));
    assert(k4[3] == " max="@ + time_text(h.max, q.max@));
    assert(k4[4] == " mean="@ + time_text(h.sum / h.count, q.mean@));
}


/// Where a pattern came back wrong is said in full: how many blocks, the first
/// of them, and the byte.
pub proof fn law_wrong_blocks_are_named(mismatches: u64, block: u64, at: usize)
    ensures
        ({
            let t = wrong_text(mismatches, block, at);
            &&& dec(mismatches as nat).is_prefix_of(t)
            &&& shows(t, " blocks wrong, first at block "@, dec(block as nat))
            &&& shows(t, " byte "@, dec(at as nat))
        }),
{
    let m = dec(mismatches as nat);
    let none: Seq<Seq<char>> = Seq::empty();
    let a = " blocks wrong, first at block "@;
    let b = " byte "@;
    lemma_more(none, m, a, dec(block as nat));
    let p = m + a + dec(block as nat);
    let k = none.push(a + dec(block as nat));
    lemma_more(k, p, b, dec(at as nat));
    let more = k.push(b + dec(at as nat));
    assert(more[0] == a + dec(block as nat));
    assert(more[1] == b + dec(at as nat));
    let t = wrong_text(mismatches, block, at);
    assert(t == p + b + dec(at as nat));
    assert(m =~= t.subrange(0, m.len() as int));
}

/// A corrupt block is reported with its number and both checksums.
pub proof fn law_corruption_is_named(block: u64, expected: u64, actual: u64)
    ensures
        ({
            let t = LoomError::Corrupt { block, expected, actual }.text();
            &&& shows(t, "block "@, dec(block as nat))
            &&& shows(t, " corrupt: stored checksum "@, hex_padded(expected as nat))
            &&& shows(t, ", read back "@, hex_padded(actual as nat))
        }),
{
    let t = LoomError::Corrupt { block, expected, actual }.text();
    let b = dec(block as nat);
    let x = hex_padded(expected as nat);
    let y = hex_padded(actual as nat);
    lemma_begin("block "@, b);
    let k0: Seq<Seq<char>> = seq!["block "@ + b];
    let p0 = "block "@ + b;
    lemma_more(k0, p0, " corrupt: stored checksum "@, x);
    let k1 = k0.push(" corrupt: stored checksum "@ + x);
    let p1 = p0 + " corrupt: stored checksum "@ + x;
    lemma_more(k1, p1, ", read back "@, y);
    let k2 = k1.push(", read back "@ + y);
    assert(t == p1 + ", read back "@ + y);
    assert(k2[0] == "block "@ + b);
    assert(k2[1] == " corrupt: stored checksum "@ + x);
    assert(k2[2] == ", read back "@ + y);
}

/// An exhausted arena is reported with what was asked for and what is left; an
/// access outside its region with where it was and what the region holds.
pub proof fn law_refusals_name_their_numbers(
    requested: u64,
    available: u64,
    region: u32,
    offset: u64,
    len: u64,
    region_len: u64,
)
    ensures
        ({
            let t = LoomError::Capacity { requested, available }.text();
            &&& shows(t, "arena capacity exhausted: requested "@, dec(requested as nat))
            &&& shows(t, " bytes, "@, dec(available as nat))
        }),
        ({
            let t = LoomError::OutOfBounds { region, offset, len, region_len }.text();
            &&& shows(t, "region "@, dec(region as nat))
            &&& shows(t, ": access ["@, dec(offset as nat))
            &&& shows(t, "+"@, dec(len as nat))
            &&& shows(t, ") outside region of "@, dec(region_len as nat))
        }),
{
    let a = "arena capacity exhausted: requested "@;
    let r = dec(requested as nat);
    let v = dec(available as nat);
    lemma_begin(a, r);
    let k0: Seq<Seq<char>> = seq![a + r];
    lemma_more(k0, a + r, " bytes, "@, v);
    let k1 = k0.push(" bytes, "@ + v);
    let p1 = a + r + " bytes, "@ + v;
    lemma_tail(k1, p1, " available"@);
    assert(LoomError::Capacity { requested, available }.text() == p1 + " available"@);
    assert(k1[0] == a + r);
    assert(k1[1] == " bytes, "@ + v);
    let i = dec(region as nat);
    let o = dec(offset as nat);
    let n = dec(len as nat);
    let w = dec(region_len as nat);
    lemma_begin("region "@, i);
    let j0: Seq<Seq<char>> = seq!["region "@ + i];
    let q0 = "region "@ + i;
    lemma_more(j0, q0, ": access ["@, o);
    let j1 = j0.push(": access ["@ + o);
    let q1 = q0 + ": access ["@ + o;
    lemma_more(j1, q1, ", "@, o);
    let j2 = j1.push(", "@ + o);
    let q2 = q1 + ", "@ + o;
    lemma_more(j2, q2, "+"@, n);
    let j3 = j2.push("+"@ + n);
    let q3 = q2 + "+"@ + n;
    lemma_more(j3, q3, ") outside region of "@, w);
    let j4 = j3.push(") outside region of "@ + w);
    let q4 = q3 + ") outside region of "@ + w;
    lemma_tail(j4, q4, " bytes"@);
    assert(LoomError::OutOfBounds { region, offset, len, region_len }.text() == q4 + " bytes"@);
    assert(j4[0] == "region "@ + i);
    assert(j4[1] == ": access ["@ + o);
    assert(j4[3] == "+"@ + n);
    assert(j4[4] == ") outside region of "@ + w);
}

} // verus!
