//! The frame pool and the latency histogram.

use loom::frames::{FramePool, NO_BLOCK};
use loom::stats::{LatencyHist, Stats};
use std::time::Duration;

#[test]
fn free_then_clock() {
    let mut p = FramePool::new(3, 4096);
    assert_eq!(p.bytes(), 3 * 4096);
    let a = p.take_free().unwrap();
    let b = p.take_free().unwrap();
    let c = p.take_free().unwrap();
    assert!(p.take_free().is_none());
    p.assign(a, 10, false);
    p.assign(b, 11, false);
    p.assign(c, 12, false);
    // All referenced: first sweep clears, second sweep evicts a (hand at 0).
    assert_eq!(p.choose_victim(), a);
    // Touch b so it survives; next victim should be c... hand now at 1
    // (after returning a at index 0, hand advanced to 1). b referenced?
    // It was cleared in the first sweep. Re-touch it:
    p.touch(b);
    assert_eq!(p.choose_victim(), c);
    p.mark_clean(a);
    p.release(a);
    assert_eq!(p.resident_count(), 2);
    assert_eq!(p.take_free(), Some(a));
}

#[test]
fn scribble_only_touches_free_frames() {
    let mut p = FramePool::new(2, 4096);
    let a = p.take_free().unwrap();
    p.assign(a, 5, false);
    p.data_mut(a).fill(0xAA);
    let n = p.scribble_free(0x55);
    assert_eq!(n, 1);
    assert!(p.data(a).iter().all(|&x| x == 0xAA));
    let other = if a == 0 { 1 } else { 0 };
    assert!(p.data(other).iter().all(|&x| x == 0x55));
}

#[test]
fn low_frames_are_handed_out_first() {
    let mut p = FramePool::new(4, 4096);
    for f in 0..4 {
        assert_eq!(p.take_free(), Some(f));
    }
    assert_eq!(p.frame_count(), 4);
    assert_eq!(p.block_size(), 4096);
}

#[test]
fn speculation_takes_free_frames_then_clean_ones() {
    let mut p = FramePool::new(3, 4096);
    for b in 0..2u64 {
        let f = p.take_free().unwrap();
        p.assign(f, 20 + b, false);
    }
    p.mark_dirty(0);
    assert_eq!(p.dirty_count(), 1);
    assert_eq!(p.take_free_or_clean(), Some((2, NO_BLOCK)));
    // Frame 0 is dirty: only frame 1 can go, detached.
    assert_eq!(p.take_free_or_clean(), Some((1, 21)));
    assert_eq!(p.meta(1).block, NO_BLOCK);
    assert_eq!(p.take_free_or_clean(), None);
    p.assign_prefetched(1, 33);
    assert!(p.meta(1).prefetched);
    assert!(!p.meta(1).referenced);
    assert!(p.claim_prefetch(1));
    assert!(!p.claim_prefetch(1));
    let r = p.resident();
    assert_eq!(r.len(), 2);
    assert_eq!((r[0].0, r[0].1.block, r[0].1.dirty), (0, 20, true));
    assert_eq!((r[1].0, r[1].1.block), (1, 33));
}

#[test]
fn buckets_are_monotone() {
    let mut last = 0;
    for b in 0..160 {
        let u = LatencyHist::bucket_upper(b);
        assert!(u >= last, "bucket {b}: {u} < {last}");
        last = u;
    }
}

#[test]
fn value_lands_at_or_below_its_upper_bound() {
    for ns in [
        1u64,
        2,
        3,
        5,
        100,
        1023,
        1024,
        65535,
        1_000_000,
        123_456_789,
    ] {
        let b = LatencyHist::bucket_of(ns);
        assert!(
            ns <= LatencyHist::bucket_upper(b),
            "{ns} > upper {} of bucket {b}",
            LatencyHist::bucket_upper(b)
        );
    }
}

/// The value at a percentile.
fn percentile_ns(h: &LatencyHist, p: f64) -> Option<u64> {
    let target = ((h.count() as f64) * p).ceil().max(1.0) as u64;
    h.value_at_rank(target)
}

#[test]
fn percentiles_of_known_distribution() {
    let mut h = LatencyHist::new();
    for i in 1..=1000u64 {
        h.record(Duration::from_nanos(i * 1000));
    }
    let p50 = percentile_ns(&h, 0.5).unwrap();
    let p99 = percentile_ns(&h, 0.99).unwrap();
    // 500µs and 990µs, within one 19% bucket.
    assert!((400_000..=600_000).contains(&p50), "p50={p50}");
    assert!((900_000..=1_000_000).contains(&p99), "p99={p99}");
    assert_eq!(h.max_ns(), 1_000_000);
    assert!(percentile_ns(&h, 0.5).is_some());
    assert!(percentile_ns(&LatencyHist::new(), 0.5).is_none());
}

#[test]
fn ranks_count_samples() {
    let samples = [9u64, 1, 0, 77, 1_000_003, 77, 12_345, 4, 5, 300];
    let mut h = LatencyHist::new();
    assert_eq!(h.value_at_rank(1), None);
    for &s in &samples {
        h.record_ns(s);
    }
    let mut last = 0;
    for rank in 1..=samples.len() as u64 {
        let v = h.value_at_rank(rank).unwrap();
        assert!(last <= v && v <= h.max_ns());
        assert!(samples.iter().filter(|&&s| s <= v).count() as u64 >= rank);
        last = v;
    }
    assert_eq!(h.value_at_rank(10), Some(1_000_003));
    // It is close to the sample of that rank.
    let mut sorted = samples;
    sorted.sort_unstable();
    for (i, &x) in sorted.iter().enumerate() {
        let v = h.value_at_rank(i as u64 + 1).unwrap();
        assert!(x <= v && v <= LatencyHist::bucket_upper(LatencyHist::bucket_of(x)));
        assert!(x < 4 || 4 * (v - x) <= x, "{x} is shown as {v}");
    }
    let mut one = LatencyHist::new();
    one.record_ns(12_345);
    assert_eq!(one.value_at_rank(1), Some(12_345));
    assert_eq!(one.value_at_rank(99), Some(12_345));
}

#[test]
fn resident_frames_are_those_taken_and_not_released() {
    let mut p = FramePool::new(4, 4096);
    let mut taken: Vec<u32> = Vec::new();
    for turn in 0..60u64 {
        if turn % 3 == 2 || taken.len() == 4 {
            let f = taken.remove((turn as usize * 7) % taken.len());
            p.mark_clean(f);
            p.release(f);
        } else {
            let f = p.take_free().unwrap();
            p.assign(f, turn, turn % 2 == 0);
            taken.push(f);
            if taken.len() == 4 {
                let v = p.choose_victim();
                assert!(taken.contains(&v));
            }
        }
        assert_eq!(p.resident_count(), taken.len());
        let mut listed: Vec<u32> = p.resident().iter().map(|&(f, _)| f).collect();
        listed.sort_unstable();
        let mut want = taken.clone();
        want.sort_unstable();
        assert_eq!(listed, want);
    }
}

#[test]
fn a_histogram_knows_its_mean_and_maximum() {
    let mut h = LatencyHist::new();
    assert_eq!(h.mean_ns(), None);
    h.record_ns(10);
    h.record_ns(21);
    assert_eq!(h.mean_ns(), Some(15));
    assert_eq!(h.max_ns(), 21);
    assert_eq!(h.count(), 2);
    assert_eq!(LatencyHist::bucket_of(0), 0);
    assert_eq!(LatencyHist::bucket_of(1), 0);
    assert_eq!(LatencyHist::bucket_of(1024), 40);
    assert_eq!(LatencyHist::bucket_upper(40), 1279);
    assert_eq!(LatencyHist::bucket_of(u64::MAX), 159);
    // A sample too long for 64 bits of nanoseconds is capped.
    let mut h = LatencyHist::new();
    h.record(Duration::from_secs(u64::MAX));
    assert_eq!(h.max_ns(), u64::MAX);
    assert_eq!(h.clone().count(), 1);
}

#[test]
fn counters_start_at_zero() {
    let s = Stats::default();
    assert_eq!((s.hits, s.misses, s.evictions, s.writebacks), (0, 0, 0, 0));
    assert_eq!(s.hit_latency.count(), 0);
}
