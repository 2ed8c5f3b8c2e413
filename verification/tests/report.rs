//! Counters in words.

use loom::error::LoomError;
use loom::faultin::FaultStats;
use loom::faultin_signal::SignalFaultStats;
use loom::footprint::Footprint;
use loom::prove::{Finding, When};
use loom::report::{
    bytes_scale, finding, finding_sizes, fmt_bytes, fmt_ns, join, ns_scale, too_small, verdict,
    within_bound, workload, Circumstances, FaultQuotients, Figure, FootprintQuotients, Quotients,
    RunFigures, Scale, SizeQuotients, StatsQuotients, WorkloadFigures,
};
use loom::stats::{LatencyHist, Stats};

fn scaled(n: u64, s: Scale) -> String {
    format!("{:.*}", s.decimals, n as f64 / s.divisor as f64)
}

fn time(ns: u64) -> String {
    fmt_ns(ns, &scaled(ns, ns_scale(ns)))
}

fn size(b: u64) -> String {
    fmt_bytes(b, &scaled(b, bytes_scale(b)))
}

#[test]
fn times_are_shown_in_their_unit() {
    assert_eq!(time(0), "0ns");
    assert_eq!(time(999), "999ns");
    assert_eq!(time(1_000), "1.0µs");
    assert_eq!(time(83_400), "83.4µs");
    assert_eq!(time(1_500_000), "1.50ms");
    assert_eq!(time(2_340_000_000), "2.34s");
}

#[test]
fn sizes_are_shown_in_their_unit() {
    assert_eq!(size(0), "0 B");
    assert_eq!(size(1023), "1023 B");
    assert_eq!(size(1024), "1.0 KiB");
    assert_eq!(size(1_572_864), "1.5 MiB");
    assert_eq!(size(1 << 30), "1.00 GiB");
    assert_eq!(size(5 << 39), "2.50 TiB");
}

/// Quotients for two samples: the value at each rank is looked up, not given.
fn quotients() -> Quotients<'static> {
    Quotients {
        rank50: 1,
        rank99: 2,
        p50: "a",
        p99: "b",
        max: "9.0",
        mean: "4.5",
    }
}

fn hist() -> LatencyHist {
    let mut h = LatencyHist::new();
    h.record_ns(7);
    h.record_ns(9_000);
    h
}

const HIST: &str = "n=2 p50≤7ns p99≤bµs max=9.0µs mean=4.5µs";

#[test]
fn a_summary_shows_the_histogram() {
    assert_eq!(LatencyHist::new().summary(quotients()), "n=0 (no samples)");
    assert_eq!(hist().summary(quotients()), HIST);
}

fn stats_quotients() -> StatsQuotients<'static> {
    StatsQuotients {
        hit_rate: "75.00",
        useful: "50.0",
        read: "4.0",
        written: "8.0",
        hit: quotients(),
        miss: quotients(),
        writeback: quotients(),
    }
}

#[test]
fn unknown_rates_are_called_unknown() {
    assert_eq!(
        Stats::default().render(&stats_quotients()),
        "hits: 0  misses: 0  hit rate: unknown (no lookups)\n  \
         zero-fills: 0  full-overwrites: 0  evictions: 0  writebacks: 0\n  \
         prefetch: 0 batches, 0 blocks, 0 later used (n/a — prefetch issued nothing)  \
         zero-copy borrows: 0\n  \
         backing read: 0 B  backing written: 0 B\n  \
         hit latency:       n=0 (no samples)\n  miss latency:      n=0 (no samples)\n  \
         writeback latency: n=0 (no samples)\n"
    );
}

#[test]
fn every_counter_is_shown() {
    let mut s = Stats::default();
    s.hits = 3;
    s.misses = 1;
    s.zero_fills = 11;
    s.full_overwrites = 12;
    s.evictions = 13;
    s.writebacks = 14;
    s.prefetch_batches = 2;
    s.prefetch_blocks = 8;
    s.prefetch_used = 4;
    s.zero_copy = 15;
    s.bytes_read_backing = 4096;
    s.bytes_written_backing = 512;
    s.miss_latency = hist();
    assert_eq!(
        s.render(&stats_quotients()),
        format!(
            "hits: 3  misses: 1  hit rate: 75.00%\n  \
             zero-fills: 11  full-overwrites: 12  evictions: 13  writebacks: 14\n  \
             prefetch: 2 batches, 8 blocks, 4 later used (50.0% useful)  zero-copy borrows: 15\n  \
             backing read: 4.0 KiB  backing written: 512 B\n  \
             hit latency:       n=0 (no samples)\n  miss latency:      {HIST}\n  \
             writeback latency: n=0 (no samples)\n"
        )
    );
}

#[test]
fn fault_counters_name_their_failures() {
    let q = FaultQuotients {
        resident: "64.0",
        peak: "p",
        load: quotients(),
        wp: quotients(),
    };
    let mut s = FaultStats::default();
    s.load_faults = 5;
    s.write_faults = 4;
    s.evictions = 3;
    s.writebacks = 2;
    s.resident_extents = 1;
    s.peak_resident_bytes = 7;
    s.load_latency = hist();
    let head = format!(
        "load faults: 5  write faults: 4  evictions: 3 (2 needed writeback)\n  \
         resident: 1 extents (64.0 KiB)  peak: 7 B\n  \
         load latency: {HIST}\n  wp   latency: n=0 (no samples)"
    );
    assert_eq!(s.render(65536, &q), head);
    s.failures.push("why".to_string());
    s.failures.push("a \"b\"\n".to_string());
    assert_eq!(
        s.render(65536, &q),
        format!("{head}\n  FAILURES (2): {:?}", s.failures)
    );
    assert_eq!(
        s.render_with(65536, &[String::from("<x>")], &q),
        format!("{head}\n  FAILURES (1): [<x>]")
    );
    assert_eq!(join(&[]), "");
}

#[test]
fn signal_counters_name_the_first_failure() {
    let mut s = SignalFaultStats {
        load_faults: 5,
        write_faults: 4,
        evictions: 3,
        writebacks: 2,
        resident_extents: 1,
        peak_resident_extents: 6,
        failures: 0,
        first_failure_errno: 5,
        first_failure_addr: 0x1f00,
    };
    let head = "load faults: 5  write faults: 4  evictions: 3 (2 wrote back)\n  \
                resident: 1 extents (512 B)  peak: 6 (3.0 KiB)";
    assert_eq!(s.render(512, "0.5", "3.0"), head);
    s.failures = 2;
    assert_eq!(
        s.render(512, "0.5", "3.0"),
        format!("{head}\n  FAILURES: 2 (first at 0x1f00, errno 5)")
    );
    s.first_failure_errno = -1;
    assert_eq!(
        s.render(512, "0.5", "3.0"),
        format!("{head}\n  FAILURES: 2 (first at 0x1f00, errno -1)")
    );
}

fn footprint() -> Footprint {
    Footprint {
        footprint: 2048,
        compressed: None,
        file_resident: Some(2),
        resident: None,
        source: "here",
    }
}

fn footprint_quotients() -> FootprintQuotients<'static> {
    FootprintQuotients {
        footprint: "2.0",
        compressed: "c",
        file_resident: "fr",
        resident: "r",
    }
}

#[test]
fn a_footprint_shows_what_the_platform_reports() {
    let q = footprint_quotients();
    let mut f = footprint();
    assert_eq!(
        f.render(&q),
        "2.0 KiB (compressed: unknown on this platform) file-resident: 2 B [here]"
    );
    f.compressed = Some(3 << 20);
    f.file_resident = None;
    f.resident = Some(4);
    assert_eq!(f.render(&q), "2.0 KiB (compressed by OS: c MiB) rss: 4 B [here]");
}

fn fig(value: u64, scaled: &'static str) -> Figure<'static> {
    Figure { value, scaled }
}

#[test]
fn a_workload_shows_what_was_measured() {
    let mut f = WorkloadFigures {
        ops: 300,
        secs: "1.50",
        rate: "200",
        p50: fig(1, "-"),
        p99: fig(2_000, "2.0"),
        max: fig(3_000_000, "3.00"),
        hit_rate: Some("75.0"),
        footprint: None,
    };
    assert_eq!(
        workload("loom", &f),
        "loom       300 ops in 1.50s (200 ops/s)  p50≤1ns p99≤2.0µs max=3.00ms  hit rate 75.0%"
    );
    f.hit_rate = None;
    f.footprint = Some((footprint(), footprint_quotients()));
    let tail = "300 ops in 1.50s (200 ops/s)  p50≤1ns p99≤2.0µs max=3.00ms  footprint after: \
                2.0 KiB (compressed: unknown on this platform) file-resident: 2 B [here]";
    assert_eq!(workload("eleven long", &f), format!("eleven long {tail}"));
    assert_eq!(workload("µ", &f), format!("{:<10} {tail}", "µ"));
}

#[test]
fn the_verdict_lists_findings_or_measurements() {
    let mut f = RunFigures {
        region: fig(4096, "4.0"),
        hot: fig(1024, "1.0"),
        ratio: "4.0",
        bound: fig(5, "-"),
        max: None,
        hit_p50: Some(fig(1, "-")),
        miss_p50: None,
        loom_p99: Some(fig(7, "-")),
        pread_p99: Some(fig(8_000, "8.0")),
        mmap_p99: Some(fig(9, "-")),
    };
    let findings = vec![String::from("one"), String::from("two")];
    assert_eq!(
        verdict(false, &findings, &f),
        "PROOF FAILED:\n  - one\n  - two\n"
    );
    let head = "PROOF PASSED. Loom created a logical arena region of 4.0 KiB over a hot budget of \
                1.0 KiB (4.0x larger), kept the process footprint at or below 5 B \
                (max observed unknown), \
                evicted and promoted every block correctly (patterns A and B verified \
                byte-for-byte, B across a close/reopen), detected a single flipped byte on disk \
                and cleared when it was restored, and measured the cost: \
                hit p50≤1ns / miss p50≤n/a";
    assert_eq!(
        verdict(true, &vec![], &f),
        format!("{head}; skewed workload p99: loom≤7ns vs pread≤8.0µs vs mmap≤9ns.")
    );
    f.mmap_p99 = None;
    assert_eq!(
        verdict(true, &vec![], &f),
        format!("{head}; skewed workload p99: loom≤7ns vs pread≤8.0µs.")
    );
    f.pread_p99 = None;
    assert_eq!(verdict(true, &vec![], &f), format!("{head}."));
}

#[test]
fn findings_are_put_into_words() {
    let c = Circumstances {
        trouble: "T",
        pool: "P",
        region: 2048,
        hot: 3,
        middle: 9,
    };
    let q = SizeQuotients {
        first: "1.0",
        second: "2.0",
        third: "3.0",
    };
    let text = |f: Finding| finding(f, &c, &q);
    assert_eq!(
        text(Finding::NoWitness),
        "cannot measure process footprint: T — the budget has no witness"
    );
    assert_eq!(
        text(Finding::PoolExists),
        "aborted: invalid argument: P already exists; refusing to overwrite"
    );
    assert_eq!(
        text(Finding::NotSparse { allocated: 1024 }),
        "fresh pool occupies 1.0 KiB on disk; expected a sparse file"
    );
    assert_eq!(
        text(Finding::TooManyResident),
        "resident blocks exceed frame count (impossible; accounting bug)"
    );
    assert_eq!(
        text(Finding::NotOnDisk { allocated: 1024 }),
        "only 1.0 KiB on disk after writing 2.0 KiB with 3 B hot; \
         evicted data is not on the backing store"
    );
    let over = Finding::OverBound {
        when: When::AfterSkew,
        max: 1024,
        bound: 7,
    };
    assert_eq!(
        text(over),
        "footprint exceeded bound after skew workload: max 1.0 KiB > bound 7 B \
         (Loom holds arena bytes it did not account for, or the slack is wrong)"
    );
    assert_eq!(
        text(Finding::StillResident { blocks: 4 }),
        "4 blocks still resident after evict_all"
    );
    assert_eq!(
        text(Finding::LostA {
            mismatches: 1,
            block: 2,
            at: 3
        }),
        "pattern A corrupted after eviction: 1 blocks wrong, first at block 2 byte 3"
    );
    assert_eq!(text(Finding::RegionLost), "T");
    assert_eq!(
        text(Finding::LostB {
            mismatches: 1,
            block: 2,
            at: 3
        }),
        "pattern B lost across reopen: 1 blocks wrong, first at block 2 byte 3"
    );
    assert_eq!(text(Finding::WrongError), "tamper produced the wrong error: T");
    assert_eq!(
        text(Finding::Undetected),
        "tampered block 9 read back WITHOUT error — corruption undetected"
    );
    assert_eq!(
        text(Finding::WrongAfterRestore),
        "restored block read without error but with wrong bytes"
    );
    assert_eq!(
        text(Finding::ErrorAfterRestore),
        "restored block still errors: T"
    );
    assert_eq!(text(Finding::Aborted), "aborted: T");
    assert_eq!(finding_sizes(over, &c), (1024, 7, 0));
    assert_eq!(
        finding_sizes(Finding::NotOnDisk { allocated: 5 }, &c),
        (5, 2048, 3)
    );
}

#[test]
fn a_small_region_is_refused_in_words() {
    match too_small(fig(2048, "2.0"), fig(1 << 20, "1.0")) {
        LoomError::Invalid(t) => assert_eq!(
            t,
            "region 2.0 KiB is less than 4x budget 1.0 MiB; pass --allow-small to run anyway"
        ),
        other => panic!("{other:?}"),
    }
}

#[test]
fn a_kept_bound_is_put_into_words() {
    let q = SizeQuotients {
        first: "2.0",
        second: "3.0",
        third: "1.0",
    };
    let mut f = footprint();
    let head = "[4] footprint after read B: max 2.0 KiB ≤ bound 3.0 KiB  (1.0 KiB headroom)";
    assert_eq!(within_bound(When::AfterReadB, &f, 3072, &q, "c"), head);
    f.compressed = Some(0);
    assert_eq!(within_bound(When::AfterReadB, &f, 3072, &q, "c"), head);
    f.compressed = Some(5);
    assert_eq!(
        within_bound(When::AfterReadB, &f, 3072, &q, "c"),
        format!("{head}  OS has compressed 5 B of this process")
    );
}
