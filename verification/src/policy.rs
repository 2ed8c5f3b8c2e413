//! What lookups do to the hot tier: which blocks stay, which leave, what is
//! remembered of an access, what is guessed, and what is counted.

#[allow(unused_imports)]
use crate::checksum::{checksum_of, UNWRITTEN};
#[allow(unused_imports)]
use crate::frames::{on_offer, steps_to, FrameMeta, NO_BLOCK};
#[allow(unused_imports)]
use crate::frames::{law_second_chance, law_the_hand_only_ages_what_it_passes};
#[allow(unused_imports)]
use crate::io::Reply;
#[allow(unused_imports)]
use crate::laws::lemma_admitted;
#[allow(unused_imports)]
use crate::state::{claimed_frames, in_claim, ArenaState, Wait, NO_FRAME};
#[allow(unused_imports)]
use crate::stats::{bumped, Counters};
#[allow(unused_imports)]
use crate::steps::{lemma_evicted, lemma_flushed, lemma_popped, lemma_same_holdings, lemma_swept};
use vstd::prelude::*;

verus! {

/// An arena between operations, or one whose operation is about to look a
/// block up.
pub open spec fn at_rest(s: ArenaState) -> bool {
    s.valid(Seq::empty()) && s.wait is Nothing
}

/// Block `b` is in a frame whose reference bit is set and which is no mere
/// guess.
pub open spec fn remembered(s: ArenaState, b: int) -> bool {
    &&& 0 <= b < s.map.len()
    &&& s.map[b] < s.frames.meta.len()
    &&& s.frames.meta[s.map[b] as int].block == b
    &&& s.frames.meta[s.map[b] as int].referenced
    &&& !s.frames.meta[s.map[b] as int].prefetched
}

/// What bringing a block into frame `f` changes.
proof fn lemma_brought_in(s: ArenaState, block: u64, full: bool, f: u32, post: ArenaState)
    requires
        s.valid(seq![f]),
        s.wait is Nothing,
        block < s.sb.nblocks,
        s.brought_in(block, full, f, post),
    ensures
        f < s.frames.meta.len(),
        post.wait is Nothing <==> full || s.checksums[block as int] == UNWRITTEN,
        post.wait is Nothing || post.wait == (Wait::Load { block, frame: f }),
        post.wait is Nothing ==> {
            &&& remembered(post, block as int)
            &&& post.map == s.map.update(block as int, f)
            &&& !post.frames.meta[f as int].dirty
        },
        !(post.wait is Nothing) ==> post.map == s.map && post.frames == s.frames,
        forall|g: int|
            0 <= g < s.frames.meta.len() && g != f ==> #[trigger] post.frames.meta[g]
                == s.frames.meta[g] && post.frames.data[g] == s.frames.data[g],
        post.frames.meta.len() == s.frames.meta.len(),
        post.frames.free == s.frames.free,
        post.frames.hand == s.frames.hand,
        post.last_miss == s.last_miss,
        post.seq_run == s.seq_run,
        counted(
            s.stats,
            post.stats,
            0,
            if post.wait is Nothing {
                1
            } else {
                0
            },
        ),
        post.stats.evictions == s.stats.evictions,
        post.stats.writebacks == s.stats.writebacks,
        post.stats.bytes_written_backing == s.stats.bytes_written_backing,
        post.stats.bytes_read_backing == s.stats.bytes_read_backing,
        post.stats.full_overwrites == bumped(
            s.stats.full_overwrites,
            if full {
                1
            } else {
                0
            },
        ),
        post.stats.zero_fills == bumped(
            s.stats.zero_fills,
            if !full && s.checksums[block as int] == UNWRITTEN {
                1
            } else {
                0
            },
        ),
{
    let held = seq![f];
    assert(held[0] == f);
    assert(f < s.frames.meta.len());
}

/// Hits and misses went up by so much, each with its time measured; no guess
/// was found to be right.
pub open spec fn counted(a: Counters, b: Counters, hits: int, misses: int) -> bool {
    &&& b.hits == bumped(a.hits, hits)
    &&& b.misses == bumped(a.misses, misses)
    &&& b.prefetch_used == a.prefetch_used
    &&& hits == 0 ==> b.hit_latency == a.hit_latency
    &&& misses == 0 ==> b.miss_latency == a.miss_latency
    &&& misses == 1 ==> a.miss_latency.measured(b.miss_latency)
}

/// An access is remembered: a lookup that is done, hit or miss, leaves its
/// block in a frame with the reference bit set.
pub proof fn law_an_access_sets_the_reference_bit(
    pre: ArenaState,
    block: u64,
    full: bool,
    post: ArenaState,
)
    requires
        at_rest(pre),
        block < pre.sb.nblocks,
        pre.looked_up(block, full, post),
        post.wait is Nothing,
    ensures
        remembered(post, block as int),
{
    let none: Seq<u32> = Seq::empty();
    let n = pre.noted(block);
    if pre.resident(block as int) {
        assert(pre.map[block as int] < pre.frames.meta.len());
    } else {
        assert(n.room_made(block, full, post));
        lemma_room(n, block, full, post);
    }
}

/// What making room changes.
proof fn lemma_room(s: ArenaState, block: u64, full: bool, post: ArenaState)
    requires
        at_rest(s),
        block < s.sb.nblocks,
        !s.resident(block as int),
        s.room_made(block, full, post),
    ensures
        post.wait is Nothing ==> remembered(post, block as int),
        !(post.wait is Batch),
        post.last_miss == s.last_miss,
        post.seq_run == s.seq_run,
        post.frames.meta.len() == s.frames.meta.len(),
        post.map.len() == s.map.len(),
        counted(
            s.stats,
            post.stats,
            0,
            if post.wait is Nothing {
                1
            } else {
                0
            },
        ),
        post.stats.writebacks == s.stats.writebacks,
        post.stats.bytes_written_backing == s.stats.bytes_written_backing,
        post.stats.bytes_read_backing == s.stats.bytes_read_backing,
        // A free frame.
        s.frames.free.len() > 0 ==> {
            &&& !(post.wait is Victim)
            &&& post.stats.evictions == s.stats.evictions
            &&& post.frames.hand == s.frames.hand
            &&& post.frames.free == s.frames.free.drop_last()
            &&& forall|b: int| #[trigger]
                s.resident(b) ==> post.map[b] == s.map[b] && post.frames.meta[s.map[b] as int]
                    == s.frames.meta[s.map[b] as int] && post.frames.data[s.map[b] as int]
                    == s.frames.data[s.map[b] as int]
        },
        // The clock's.
        s.frames.free.len() == 0 ==> exists|v: u32| #[trigger]
            displaced(s, v, block, full, post),
        // What it costs.
        post.wait is Nothing ==> post.stats.full_overwrites == bumped(
            s.stats.full_overwrites,
            if full {
                1
            } else {
                0
            },
        ) && post.stats.zero_fills == bumped(
            s.stats.zero_fills,
            if full {
                0
            } else {
                1
            },
        ),
{
    let none: Seq<u32> = Seq::empty();
    if s.frames.free.len() > 0 {
        let f = s.frames.free.last();
        let p = s.with_frames(s.frames.popped());
        lemma_popped(s, none);
        assert(none.push(f) =~= seq![f]);
        lemma_brought_in(p, block, full, f, post);
        assert forall|b: int| #[trigger] s.resident(b) implies post.map[b] == s.map[b]
            && post.frames.meta[s.map[b] as int] == s.frames.meta[s.map[b] as int]
            && post.frames.data[s.map[b] as int] == s.frames.data[s.map[b] as int] by {
            assert(s.frames.meta[s.map[b] as int].bound());
            assert(s.map[b] != f);
            assert(post.frames.meta[s.map[b] as int] == p.frames.meta[s.map[b] as int]);
        }
    } else {
        let v = choose|v: u32| #[trigger] s.victim_taken(block, full, v, post);
        let w = s.with_frames(s.frames.swept(v as int, false));
        lemma_swept(s.frames, v as int, false);
        lemma_same_holdings(s, none, w.frames);
        law_the_hand_only_ages_what_it_passes(s.frames, v as int, false, v as int);
        law_second_chance(s.frames, v as int, false, v as int);
        if !w.frames.meta[v as int].dirty {
            let e = w.evicted(v);
            lemma_evicted(w, none, v);
            assert(none.push(v) =~= seq![v]);
            lemma_brought_in(e, block, full, v, post);
            assert forall|g: int| 0 <= g < s.frames.meta.len() && g != v implies #[trigger] post.frames.meta[g]
                == s.frames.swept(v as int, false).meta[g] && post.frames.data[g]
                == s.frames.data[g] by {
                assert(e.frames.meta[g] == w.frames.meta[g]);
            }
        }
        assert(displaced(s, v, block, full, post)) by {
            assert forall|b: int| #[trigger] s.resident(b) && s.map[b] != v implies post.map[b]
                == s.map[b] by {
                assert(s.frames.meta[s.map[b] as int].block == b);
            }
        }
    }
}

/// CLOCK takes frame `v` and no other: every other frame keeps its block and
/// its bytes. If `v` is clean, its block leaves and one eviction is counted;
/// if it is dirty, it is written back first and nothing has left yet.
pub open spec fn displaced(
    s: ArenaState,
    v: u32,
    block: u64,
    full: bool,
    post: ArenaState,
) -> bool {
    &&& s.frames.clock_takes(v as int, false)
    &&& post.frames.hand == s.frames.swept(v as int, false).hand
    &&& forall|g: int|
        0 <= g < s.frames.meta.len() && g != v ==> #[trigger] post.frames.meta[g]
            == s.frames.swept(v as int, false).meta[g] && post.frames.data[g] == s.frames.data[g]
    &&& forall|b: int| #[trigger] s.resident(b) && s.map[b] != v ==> post.map[b] == s.map[b]
    &&& if s.frames.meta[v as int].dirty {
        &&& post.wait == (Wait::Victim { block, full, victim: v })
        &&& post.map == s.map
        &&& post.frames.data == s.frames.data
        &&& post.stats == s.stats
    } else {
        &&& !(post.wait is Victim)
        &&& post.stats.evictions == bumped(s.stats.evictions, 1)
        &&& post.map[s.frames.meta[v as int].block as int] == NO_FRAME
    }
}

/// The same of a reply: a lookup that is done after the reply it waited for
/// leaves its block in a frame with the reference bit set, unless it ended
/// with an error. It counts as one miss.
pub proof fn law_a_late_access_sets_the_reference_bit(
    pre: ArenaState,
    reply: Reply,
    post: ArenaState,
)
    requires
        pre.steady(),
        pre.sought() is Some,
        pre.expects(reply),
        pre.resumed(reply, post),
    ensures
        post.wait is Nothing && pre.load_error(reply) is None ==> remembered(
            post,
            pre.sought()->0,
        ),
        counted(
            pre.stats,
            post.stats,
            0,
            if post.wait is Nothing && pre.load_error(reply) is None {
                1
            } else {
                0
            },
        ),
        post.last_miss == pre.last_miss,
        post.seq_run == pre.seq_run,
{
    let s = pre.waiting(Wait::Nothing);
    match pre.wait {
        Wait::Batch { block, count, claimed } => {
            match reply {
                Reply::Bytes(bytes) => {
                    let n = claimed.len() as int;
                    lemma_admitted(s, block as int, count as int, bytes@, claimed, n);
                    let t = s.batch_served(block as int, count as int, bytes@, claimed);
                    let u = s.admitted(block as int, bytes@, claimed, n);
                    lemma_admitted_counts(s, block as int, bytes@, claimed, n);
                    assert(claimed_frames(claimed).skip(n) =~= Seq::empty());
                    if t.resident(block as int) {
                        assert(u.resident(block as int));
                        assert(t.map[block as int] < t.frames.meta.len());
                    } else {
                        lemma_room(t, block, false, post);
                    }
                },
                _ => {
                    lemma_unclaimed_counts(s, claimed, claimed.len() as int);
                },
            }
        },
        Wait::Victim { block, full, victim } => {
            match reply {
                Reply::Done => {
                    let t = choose|t: ArenaState| #[trigger]
                        s.flushed(victim, t) && t.evicted(victim).brought_in(
                            block,
                            full,
                            victim,
                            post,
                        );
                    crate::stats::lemma_measured(
                        s.stats.writeback_latency,
                        t.stats.writeback_latency,
                    );
                    lemma_flushed(s, Seq::empty(), victim, t);
                    lemma_evicted(t, Seq::empty(), victim);
                    assert(Seq::<u32>::empty().push(victim) =~= seq![victim]);
                    lemma_brought_in(t.evicted(victim), block, full, victim, post);
                },
                _ => {},
            }
        },
        Wait::Load { block, frame } => {},
        _ => {},
    }
}

/// Serving claims touches no counter and not the run detector.
proof fn lemma_admitted_counts(
    s: ArenaState,
    first: int,
    bytes: Seq<u8>,
    claimed: Seq<(u64, u32)>,
    n: int,
)
    ensures
        s.admitted(first, bytes, claimed, n).stats == s.stats,
        s.admitted(first, bytes, claimed, n).last_miss == s.last_miss,
        s.admitted(first, bytes, claimed, n).seq_run == s.seq_run,
    decreases n,
{
    if n > 0 {
        lemma_admitted_counts(s, first, bytes, claimed, n - 1);
    }
}

/// It keeps the number of frames and of blocks.
proof fn lemma_admitted_size(
    s: ArenaState,
    first: int,
    bytes: Seq<u8>,
    claimed: Seq<(u64, u32)>,
    n: int,
)
    requires
        0 <= n <= claimed.len(),
        forall|i: int|
            0 <= i < claimed.len() ==> (#[trigger] claimed[i]).0 < s.map.len() && claimed[i].1
                < s.frames.meta.len(),
    ensures
        s.admitted(first, bytes, claimed, n).frames.meta.len() == s.frames.meta.len(),
        s.admitted(first, bytes, claimed, n).map.len() == s.map.len(),
    decreases n,
{
    if n > 0 {
        lemma_admitted_size(s, first, bytes, claimed, n - 1);
        let last = claimed[n - 1];
        assert(last.0 < s.map.len() && last.1 < s.frames.meta.len());
    }
}

/// Giving claims back touches neither counters nor the run detector.
proof fn lemma_unclaimed_counts(s: ArenaState, claimed: Seq<(u64, u32)>, n: int)
    ensures
        s.unclaimed(claimed, n).stats == s.stats,
        s.unclaimed(claimed, n).last_miss == s.last_miss,
        s.unclaimed(claimed, n).seq_run == s.seq_run,
        s.unclaimed(claimed, n).map == s.map,
        s.unclaimed(claimed, n).wait == s.wait,
    decreases n,
{
    if n > 0 {
        lemma_unclaimed_counts(s, claimed, n - 1);
    }
}

/// The frame of a block that was just accessed is not the next one taken while
/// there is a frame that was not accessed since the hand last passed it.
pub proof fn law_the_accessed_frame_is_not_the_next_victim(
    s: ArenaState,
    block: int,
    v: u32,
    f: int,
    clean_only: bool,
)
    requires
        s.frames.wf(),
        remembered(s, block),
        s.frames.clock_takes(v as int, clean_only),
        0 <= f < s.frames.meta.len(),
        on_offer(s.frames.meta[f], clean_only),
        !s.frames.meta[f].referenced,
    ensures
        v != s.map[block],
{
    law_second_chance(s.frames, v as int, clean_only, f);
}

/// A hit is served at once, moves nothing and costs nothing: no block enters
/// or leaves, no byte changes, no other frame is touched, nothing is read or
/// written. It is counted as a hit, and a guess that came true as that.
pub proof fn law_a_hit_moves_nothing(pre: ArenaState, block: u64, full: bool, post: ArenaState)
    requires
        at_rest(pre),
        pre.resident(block as int),
        pre.looked_up(block, full, post),
    ensures
        post.wait is Nothing,
        post.map == pre.map,
        post.frames.data == pre.frames.data,
        post.frames.free == pre.frames.free,
        post.frames.hand == pre.frames.hand,
        post.frames.meta.len() == pre.frames.meta.len(),
        forall|f: int|
            0 <= f < pre.frames.meta.len() && f != pre.map[block as int]
                ==> #[trigger] post.frames.meta[f] == pre.frames.meta[f],
        post.frames.meta[pre.map[block as int] as int].dirty
            == pre.frames.meta[pre.map[block as int] as int].dirty,
        remembered(post, block as int),
        post.checksums == pre.checksums,
        post.dirty_meta == pre.dirty_meta,
        post.last_miss == pre.last_miss,
        post.seq_run == pre.seq_run,
        post.stats.hits == bumped(pre.stats.hits, 1),
        post.stats.misses == pre.stats.misses,
        pre.frames.meta[pre.map[block as int] as int].prefetched ==> post.stats.prefetch_used
            == bumped(pre.stats.prefetch_used, 1),
        !pre.frames.meta[pre.map[block as int] as int].prefetched ==> post.stats.prefetch_used
            == pre.stats.prefetch_used,
        same_traffic(pre.stats, post.stats),
        post.stats.prefetch_batches == pre.stats.prefetch_batches,
        post.stats.prefetch_blocks == pre.stats.prefetch_blocks,
        pre.stats.hit_latency.measured(post.stats.hit_latency),
        post.stats.miss_latency == pre.stats.miss_latency,
{
    assert(pre.map[block as int] < pre.frames.meta.len());
}

/// Nothing was read or written, brought in or thrown out.
pub open spec fn same_traffic(a: Counters, b: Counters) -> bool {
    &&& b.evictions == a.evictions
    &&& b.writebacks == a.writebacks
    &&& b.bytes_read_backing == a.bytes_read_backing
    &&& b.bytes_written_backing == a.bytes_written_backing
    &&& b.zero_fills == a.zero_fills
    &&& b.full_overwrites == a.full_overwrites
}

/// As long as a frame is free, a miss takes a free one: every block in RAM
/// stays, with its bytes and its bookkeeping, the hand does not move and
/// nothing is written back.
pub proof fn law_free_frames_go_first(
    pre: ArenaState,
    block: u64,
    full: bool,
    post: ArenaState,
    b: int,
)
    requires
        at_rest(pre),
        block < pre.sb.nblocks,
        !pre.resident(block as int),
        pre.looked_up(block, full, post),
        !(post.wait is Batch),
        pre.frames.free.len() > 0,
        pre.resident(b),
    ensures
        post.resident(b),
        post.map[b] == pre.map[b],
        post.frames.meta[pre.map[b] as int] == pre.frames.meta[pre.map[b] as int],
        post.frames.data[pre.map[b] as int] == pre.frames.data[pre.map[b] as int],
        post.frames.hand == pre.frames.hand,
        post.frames.free == pre.frames.free.drop_last(),
        post.stats.evictions == pre.stats.evictions,
        !(post.wait is Victim),
{
    let n = pre.noted(block);
    assert(at_rest(n));
    lemma_room(n, block, full, post);
    assert(n.resident(b));
}

/// With no frame free, a miss takes the frame that CLOCK takes, and no other:
/// at most one block leaves RAM. A dirty one is written back before it does.
pub proof fn law_a_miss_displaces_one_block(
    pre: ArenaState,
    block: u64,
    full: bool,
    post: ArenaState,
)
    requires
        at_rest(pre),
        block < pre.sb.nblocks,
        !pre.resident(block as int),
        pre.looked_up(block, full, post),
        !(post.wait is Batch),
        pre.frames.free.len() == 0,
    ensures
        exists|v: u32| #[trigger] displaced(pre, v, block, full, post),
{
    let n = pre.noted(block);
    assert(at_rest(n));
    lemma_room(n, block, full, post);
    let v = choose|v: u32| #[trigger] displaced(n, v, block, full, post);
    assert(displaced(pre, v, block, full, post)) by {
        assert forall|b: int| #[trigger] pre.resident(b) && pre.map[b] != v implies post.map[b]
            == pre.map[b] by {
            assert(n.resident(b));
        }
    }
}

/// A miss that needs no file is counted as one miss: as an overwrite if the
/// block is about to be overwritten whole, else as a block of zeros, for then
/// it was never written. A lookup that waits is not counted yet.
pub proof fn law_a_miss_is_counted_once(
    pre: ArenaState,
    block: u64,
    full: bool,
    post: ArenaState,
)
    requires
        at_rest(pre),
        block < pre.sb.nblocks,
        !pre.resident(block as int),
        pre.looked_up(block, full, post),
    ensures
        post.stats.hits == pre.stats.hits,
        post.stats.hit_latency == pre.stats.hit_latency,
        post.stats.prefetch_used == pre.stats.prefetch_used,
        post.stats.bytes_read_backing == pre.stats.bytes_read_backing,
        post.stats.bytes_written_backing == pre.stats.bytes_written_backing,
        post.stats.writebacks == pre.stats.writebacks,
        post.wait is Nothing ==> {
            &&& post.stats.misses == bumped(pre.stats.misses, 1)
            &&& pre.stats.miss_latency.measured(post.stats.miss_latency)
            &&& full ==> post.stats.full_overwrites == bumped(pre.stats.full_overwrites, 1)
                && post.stats.zero_fills == pre.stats.zero_fills
            &&& !full ==> post.stats.zero_fills == bumped(pre.stats.zero_fills, 1)
                && post.stats.full_overwrites == pre.stats.full_overwrites
                && pre.checksums[block as int] == UNWRITTEN
        },
        !(post.wait is Nothing) ==> post.stats.misses == pre.stats.misses,
        !full && pre.checksums[block as int] == UNWRITTEN ==> !(post.wait is Load) && !(
        post.wait is Batch),
        full ==> !(post.wait is Load) && !(post.wait is Batch),
{
    let n = pre.noted(block);
    assert(at_rest(n));
    if !(post.wait is Batch) {
        assert(n.room_made(block, full, post));
        lemma_room(n, block, full, post);
        lemma_room_waits(n, block, full, post);
    }
}

proof fn lemma_room_waits(s: ArenaState, block: u64, full: bool, post: ArenaState)
    requires
        at_rest(s),
        block < s.sb.nblocks,
        !s.resident(block as int),
        s.room_made(block, full, post),
    ensures
        post.wait is Load ==> !full && s.checksums[block as int] != UNWRITTEN,
        post.wait is Nothing && !full ==> s.checksums[block as int] == UNWRITTEN,
{
    let none: Seq<u32> = Seq::empty();
    if s.frames.free.len() > 0 {
    } else {
        let v = choose|v: u32| #[trigger] s.victim_taken(block, full, v, post);
    }
}

// ---- runs of misses -----------------------------------------------------

/// The last `k` misses were on consecutive blocks, in ascending order.
pub open spec fn ends_in_run(misses: Seq<u64>, k: int) -> bool {
    &&& 0 <= k <= misses.len()
    &&& forall|i: int|
        misses.len() - k <= i < misses.len() ==> #[trigger] misses[i] == misses.last() - (
        misses.len() - 1 - i)
}

/// The run detector knows how the misses so far ended: on which block, and how
/// long the run is that it ends.
pub open spec fn detects(s: ArenaState, misses: Seq<u64>) -> bool {
    if misses.len() == 0 {
        s.last_miss is None
    } else {
        &&& s.last_miss == Some(misses.last())
        &&& s.seq_run >= 1
        &&& ends_in_run(misses, s.seq_run as int)
        &&& !ends_in_run(misses, s.seq_run + 1)
    }
}

/// A lookup keeps the run detector right: a miss is added, a hit is not.
pub proof fn law_runs_of_misses_are_measured(
    pre: ArenaState,
    block: u64,
    full: bool,
    post: ArenaState,
    misses: Seq<u64>,
)
    requires
        at_rest(pre),
        block < pre.sb.nblocks,
        pre.looked_up(block, full, post),
        detects(pre, misses),
        pre.seq_run < u32::MAX,
    ensures
        pre.resident(block as int) ==> detects(post, misses),
        !pre.resident(block as int) ==> detects(post, misses.push(block)),
{
    let n = pre.noted(block);
    let all = misses.push(block);
    if !pre.resident(block as int) {
        assert(at_rest(n));
        if !(post.wait is Batch) {
            lemma_room(n, block, full, post);
        }
        assert(post.last_miss == n.last_miss && post.seq_run == n.seq_run);
        let k = n.seq_run as int;
        assert(all.last() == block);
        if misses.len() > 0 {
            assert(all[all.len() - 2] == misses.last());
        }
        assert(ends_in_run(all, k)) by {
            assert forall|i: int| all.len() - k <= i < all.len() implies #[trigger] all[i]
                == all.last() - (all.len() - 1 - i) by {
                if i < misses.len() {
                    assert(all[i] == misses[i]);
                }
            }
        }
        assert(!ends_in_run(all, k + 1)) by {
            if ends_in_run(all, k + 1) {
                if k == 1 {
                    assert(all[all.len() - 2] == block - 1);
                    if n.seq_run == 1 && pre.last_miss == Some((block - 1) as u64) && block > 0 {
                        assert(pre.seq_run >= 1);
                    }
                } else {
                    assert(ends_in_run(misses, k)) by {
                        assert forall|i: int| misses.len() - k <= i < misses.len() implies #[trigger] misses[i]
                            == misses.last() - (misses.len() - 1 - i) by {
                            assert(all[i] == misses[i]);
                        }
                    }
                }
            }
        }
    }
}

/// Guesses are made on a pattern only: a speculative read comes with the third
/// miss of an ascending run at the earliest, starts at the block asked for,
/// which was written before, covers at least two blocks and never more than
/// the depth or than there are.
pub proof fn law_two_misses_are_a_coincidence(
    pre: ArenaState,
    block: u64,
    full: bool,
    post: ArenaState,
    misses: Seq<u64>,
)
    requires
        at_rest(pre),
        block < pre.sb.nblocks,
        pre.looked_up(block, full, post),
        detects(pre, misses),
        pre.seq_run < u32::MAX,
    ensures
        post.wait is Batch ==> {
            &&& !full
            &&& !pre.resident(block as int)
            &&& pre.checksums[block as int] != UNWRITTEN
            &&& misses.len() >= 2
            &&& misses[misses.len() - 1] == block - 1
            &&& misses[misses.len() - 2] == block - 2
            &&& post.wait->Batch_block == block
            &&& 2 <= post.wait->Batch_count <= pre.prefetch_depth
            &&& block + post.wait->Batch_count <= pre.sb.nblocks
            &&& post.wait->Batch_count == pre.prefetch_depth || block + post.wait->Batch_count
                == pre.sb.nblocks
        },
        !pre.resident(block as int) && !full && pre.checksums[block as int] != UNWRITTEN
            && pre.prefetch_depth >= 2 && block + 2 <= pre.sb.nblocks && misses.len() >= 2
            && misses[misses.len() - 1] == block - 1 && misses[misses.len() - 2] == block - 2 && (
        pre.frames.free.len() > 0 || exists|f: int|
            0 <= f < pre.frames.meta.len() && on_offer(#[trigger] pre.frames.meta[f], true))
            ==> post.wait is Batch,
{
    let n = pre.noted(block);
    law_runs_of_misses_are_measured(pre, block, full, post, misses);
    let all = misses.push(block);
    if !pre.resident(block as int) {
        assert(at_rest(n));
        if !(!full && n.speculates(block as int)) {
            lemma_room(n, block, full, post);
        }
        assert(post.seq_run == n.seq_run);
        if post.wait is Batch {
            assert(ends_in_run(all, post.seq_run as int));
            let k = all.len() - 1;
            assert(all[k - 1] == misses[k - 1]);
            assert(all[k - 2] == misses[k - 2]);
        }
        if misses.len() >= 2 && misses[misses.len() - 1] == block - 1 && misses[misses.len() - 2]
            == block - 2 {
            assert(n.seq_run >= 3) by {
                assert(pre.last_miss == Some((block - 1) as u64));
                assert(ends_in_run(misses, 2)) by {
                    assert(misses.last() == misses[misses.len() - 1]);
                }
                if pre.seq_run == 1 {
                    assert(!ends_in_run(misses, 2));
                }
            }
            if pre.frames.free.len() == 0 && exists|f: int|
                0 <= f < pre.frames.meta.len() && on_offer(#[trigger] pre.frames.meta[f], true) {
                let f = choose|f: int|
                    0 <= f < pre.frames.meta.len() && on_offer(#[trigger] pre.frames.meta[f], true);
                assert(n.frames.meta[f].eligible(true));
            }
        }
    }
}

/// A reply does not change what is known of the misses.
pub proof fn law_replies_are_no_misses(
    pre: ArenaState,
    reply: Reply,
    post: ArenaState,
    misses: Seq<u64>,
)
    requires
        pre.steady(),
        pre.sought() is Some,
        pre.expects(reply),
        pre.resumed(reply, post),
        detects(pre, misses),
    ensures
        detects(post, misses),
{
    law_a_late_access_sets_the_reference_bit(pre, reply, post);
}

// ---- guesses ------------------------------------------------------------

/// Claims for guesses take free frames first: with enough of them, no block
/// leaves RAM, nothing is counted as evicted and no bookkeeping changes.
pub proof fn law_guesses_take_free_frames_first(
    s: ArenaState,
    had: Seq<(u64, u32)>,
    b: int,
    end: int,
    claimed: Seq<(u64, u32)>,
    after: ArenaState,
)
    requires
        s.claims_on(had, b, end, claimed, after),
        s.frames.free.len() >= end - b,
    ensures
        after.map == s.map,
        after.frames.meta == s.frames.meta,
        after.frames.data == s.frames.data,
        after.frames.hand == s.frames.hand,
        after.stats == s.stats,
    decreases end - b,
{
    if b < end {
        if s.resident(b) {
            law_guesses_take_free_frames_first(s, had, b + 1, end, claimed, after);
        } else {
            let (f, mid) = choose|f: u32, mid: ArenaState| #[trigger]
                s.spared(f, mid) && mid.claims_on(
                    had.push((b as u64, f)),
                    b + 1,
                    end,
                    claimed,
                    after,
                );
            law_guesses_take_free_frames_first(
                mid,
                had.push((b as u64, f)),
                b + 1,
                end,
                claimed,
                after,
            );
        }
    }
}

/// The frame had for one guess is a free one, or the one CLOCK takes among the
/// clean ones: then one block leaves, and is counted.
pub proof fn law_a_guess_displaces_at_most_one_clean_block(
    s: ArenaState,
    f: u32,
    mid: ArenaState,
    b: int,
)
    requires
        at_rest(s),
        s.spared(f, mid),
        s.resident(b),
    ensures
        s.frames.free.len() > 0 ==> f == s.frames.free.last() && mid.map[b] == s.map[b]
            && mid.stats == s.stats,
        s.frames.free.len() == 0 ==> {
            &&& s.frames.clock_takes(f as int, true)
            &&& !s.frames.meta[f as int].dirty
            &&& s.map[b] != f ==> mid.map[b] == s.map[b]
            &&& s.map[b] == f ==> mid.map[b] == NO_FRAME
            &&& mid.stats.evictions == bumped(s.stats.evictions, 1)
        },
        mid.frames.data == s.frames.data,
        forall|g: int|
            0 <= g < s.frames.meta.len() && g != f ==> #[trigger] mid.frames.meta[g] == if s.frames.free.len()
                > 0 {
                s.frames.meta[g]
            } else {
                s.frames.swept(f as int, true).meta[g]
            },
{
    if s.frames.free.len() == 0 {
        law_second_chance(s.frames, f as int, true, f as int);
        assert(s.frames.meta[s.map[b] as int].block == b);
        assert(s.frames.meta[f as int].bound());
    }
}

/// How many of the first `n` claimed blocks are resident.
pub open spec fn admitted_count(s: ArenaState, claimed: Seq<(u64, u32)>, n: int) -> nat
    decreases n,
{
    if n <= 0 {
        0
    } else {
        admitted_count(s, claimed, n - 1) + if s.resident(claimed[n - 1].0 as int) {
            1nat
        } else {
            0nat
        }
    }
}

/// A claim whose bytes check out, or that was never written, is served: it is
/// resident, unreferenced, and marked as a guess.
proof fn lemma_taken_in(
    s: ArenaState,
    first: int,
    count: int,
    bytes: Seq<u8>,
    claimed: Seq<(u64, u32)>,
    n: int,
    k: int,
)
    requires
        s.valid(claimed_frames(claimed)),
        s.wait is Nothing,
        0 <= first,
        first + count <= s.nblocks(),
        bytes.len() == count * s.bs(),
        s.good_claim(first, count, claimed),
        0 <= k < n <= claimed.len(),
        s.admissible(first, bytes, claimed[k].0 as int),
    ensures
        ({
            let t = s.admitted(first, bytes, claimed, n);
            &&& t.resident(claimed[k].0 as int)
            &&& t.map[claimed[k].0 as int] == claimed[k].1
            &&& t.frames.meta[claimed[k].1 as int] == (FrameMeta {
                block: claimed[k].0,
                dirty: false,
                referenced: false,
                prefetched: true,
            })
        }),
    decreases n,
{
    let t = s.admitted(first, bytes, claimed, n - 1);
    let u = s.admitted(first, bytes, claimed, n);
    lemma_admitted(s, first, count, bytes, claimed, n - 1);
    let ids = claimed_frames(claimed);
    assert forall|i: int| 0 <= i < claimed.len() implies (#[trigger] claimed[i]).0 < s.map.len()
        && claimed[i].1 < s.frames.meta.len() by {
        assert(ids[i] == claimed[i].1);
    }
    lemma_admitted_size(s, first, bytes, claimed, n - 1);
    assert(ids[k] == claimed[k].1 && ids[k] < s.frames.meta.len());
    assert(ids[n - 1] == claimed[n - 1].1);
    assert(claimed[k].0 < s.map.len());
    assert(t.frames.meta.len() == s.frames.meta.len());
    assert(t.map.len() == s.map.len());
    if k == n - 1 {
        assert(t.checksums == s.checksums);
    } else {
        lemma_taken_in(s, first, count, bytes, claimed, n - 1, k);
        assert(claimed[k].0 < claimed[n - 1].0);
        assert(ids[k] != ids[n - 1]);
    }
}

proof fn lemma_admissions(
    s: ArenaState,
    first: int,
    count: int,
    bytes: Seq<u8>,
    claimed: Seq<(u64, u32)>,
    n: int,
)
    requires
        s.valid(claimed_frames(claimed)),
        s.wait is Nothing,
        0 <= first,
        first + count <= s.nblocks(),
        bytes.len() == count * s.bs(),
        s.good_claim(first, count, claimed),
        0 <= n <= claimed.len(),
    ensures
        s.admissions(first, bytes, claimed, n) == admitted_count(
            s.admitted(first, bytes, claimed, claimed.len() as int),
            claimed,
            n,
        ),
    decreases n,
{
    if n > 0 {
        lemma_admissions(s, first, count, bytes, claimed, n - 1);
        let k = n - 1;
        let all = claimed.len() as int;
        if s.admissible(first, bytes, claimed[k].0 as int) {
            lemma_taken_in(s, first, count, bytes, claimed, all, k);
        } else {
            crate::laws::lemma_left_out(s, first, count, bytes, claimed, all, k);
        }
    }
}

/// A speculative read is counted as one read of so many bytes, and of its
/// blocks those that it brought into RAM. Each of them is clean, and marked as
/// a guess that nobody has asked for.
pub proof fn law_guesses_are_counted_and_marked(
    pre: ArenaState,
    block: u64,
    count: u64,
    claimed: Seq<(u64, u32)>,
    bytes: Seq<u8>,
    k: int,
)
    requires
        pre.steady(),
        pre.wait == (Wait::Batch { block, count, claimed }),
        bytes.len() == count * pre.bs(),
        0 <= k < claimed.len(),
    ensures
        ({
            let t = pre.waiting(Wait::Nothing).batch_served(
                block as int,
                count as int,
                bytes,
                claimed,
            );
            let b = claimed[k].0 as int;
            &&& t.stats.prefetch_batches == bumped(pre.stats.prefetch_batches, 1)
            &&& t.stats.bytes_read_backing == bumped(
                pre.stats.bytes_read_backing,
                count * pre.bs(),
            )
            &&& t.stats.prefetch_blocks == bumped(
                pre.stats.prefetch_blocks,
                admitted_count(t, claimed, claimed.len() as int) as int,
            )
            &&& t.resident(b) <==> pre.checksums[b] == UNWRITTEN || checksum_of(
                bytes.subrange((b - block) * pre.bs(), (b - block) * pre.bs() + pre.bs()),
            ) == pre.checksums[b]
            &&& t.resident(b) ==> t.map[b] == claimed[k].1
                && !t.frames.meta[t.map[b] as int].dirty && !t.frames.meta[t.map[b] as int].referenced
                && t.frames.meta[t.map[b] as int].prefetched
            &&& t.stats.hits == pre.stats.hits && t.stats.misses == pre.stats.misses
            &&& t.stats.prefetch_used == pre.stats.prefetch_used
            &&& t.stats.evictions == pre.stats.evictions
        }),
{
    let s = pre.waiting(Wait::Nothing);
    let n = claimed.len() as int;
    lemma_admitted(s, block as int, count as int, bytes, claimed, n);
    lemma_admitted_counts(s, block as int, bytes, claimed, n);
    lemma_admissions(s, block as int, count as int, bytes, claimed, n);
    let u = s.admitted(block as int, bytes, claimed, n);
    let t = s.batch_served(block as int, count as int, bytes, claimed);
    lemma_same_residents(u, t, claimed, n);
    if s.admissible(block as int, bytes, claimed[k].0 as int) {
        lemma_taken_in(s, block as int, count as int, bytes, claimed, n, k);
    } else {
        crate::laws::lemma_left_out(s, block as int, count as int, bytes, claimed, n, k);
    }
}

proof fn lemma_same_residents(u: ArenaState, t: ArenaState, claimed: Seq<(u64, u32)>, n: int)
    requires
        t.map == u.map,
    ensures
        admitted_count(t, claimed, n) == admitted_count(u, claimed, n),
    decreases n,
{
    if n > 0 {
        lemma_same_residents(u, t, claimed, n - 1);
    }
}

// ---- traffic ------------------------------------------------------------

/// A block that was read because it was asked for is counted with its bytes,
/// whether or not they check out. A failed read is not counted and gives the
/// frame back.
pub proof fn law_a_load_is_counted(pre: ArenaState, reply: Reply, post: ArenaState)
    requires
        pre.steady(),
        pre.wait is Load,
        pre.expects(reply),
        pre.resumed(reply, post),
    ensures
        post.wait is Nothing,
        reply is Bytes ==> post.stats.bytes_read_backing == bumped(
            pre.stats.bytes_read_backing,
            pre.bs(),
        ),
        reply is Failed ==> post.stats == pre.stats,
        pre.load_error(reply) is Some ==> {
            &&& post.map == pre.map
            &&& post.frames.free == pre.frames.free.push(pre.wait->Load_frame)
            &&& !post.frames.meta[pre.wait->Load_frame as int].bound()
            &&& post.stats.misses == pre.stats.misses
        },
        pre.load_error(reply) is None ==> {
            let b = pre.wait->Load_block as int;
            &&& post.frames.data[post.map[b] as int] == reply->Bytes_0@
            &&& post.map[b] == pre.wait->Load_frame
            &&& post.frames.free == pre.frames.free
            &&& post.stats.misses == bumped(pre.stats.misses, 1)
        },
        post.stats.evictions == pre.stats.evictions,
        post.stats.writebacks == pre.stats.writebacks,
        post.stats.zero_fills == pre.stats.zero_fills,
        post.stats.hits == pre.stats.hits,
{
}

/// A writeback cleans the frame and nothing else: it keeps its block, its
/// bytes and its reference bit, the checksum of its bytes is recorded, and one
/// writeback of one block is counted.
pub proof fn law_a_writeback_only_cleans(pre: ArenaState, f: u32, post: ArenaState)
    requires
        pre.valid(pre.held()),
        pre.frames.has(f),
        pre.frames.meta[f as int].dirty,
        pre.flushed(f, post),
    ensures
        !post.frames.meta[f as int].dirty,
        post.frames.meta[f as int].block == pre.frames.meta[f as int].block,
        post.frames.meta[f as int].referenced == pre.frames.meta[f as int].referenced,
        post.frames.meta[f as int].prefetched == pre.frames.meta[f as int].prefetched,
        forall|g: int|
            0 <= g < pre.frames.meta.len() && g != f ==> #[trigger] post.frames.meta[g]
                == pre.frames.meta[g],
        post.frames.data == pre.frames.data,
        post.frames.free == pre.frames.free,
        post.frames.hand == pre.frames.hand,
        post.map == pre.map,
        post.dirty_meta,
        forall|b: int|
            0 <= b < pre.checksums.len() && b != pre.frames.meta[f as int].block
                ==> #[trigger] post.checksums[b] == pre.checksums[b],
        post.checksums[pre.frames.meta[f as int].block as int] == checksum_of(
            pre.frames.data[f as int],
        ),
        post.stats.writebacks == bumped(pre.stats.writebacks, 1),
        post.stats.bytes_written_backing == bumped(pre.stats.bytes_written_backing, pre.bs()),
        post.stats.evictions == pre.stats.evictions,
        post.stats.hits == pre.stats.hits,
        post.stats.misses == pre.stats.misses,
        post.stats.bytes_read_backing == pre.stats.bytes_read_backing,
        pre.stats.writeback_latency.measured(post.stats.writeback_latency),
{
    assert(pre.frames.meta[f as int].bound());
    crate::superblock::lemma_geometry(
        pre.sb.block_size,
        pre.sb.capacity,
        pre.sb.default_budget,
    );
    assert(pre.frames.meta[f as int].block < pre.checksums.len());
}

/// An eviction empties one frame and forgets one block, and is counted once;
/// every other block stays where it is.
pub proof fn law_an_eviction_is_of_one_block(s: ArenaState, f: u32, b: int)
    requires
        s.valid(s.held()),
        s.frames.has(f),
        s.frames.meta[f as int].bound(),
        0 <= b < s.map.len(),
    ensures
        ({
            let t = s.evicted(f);
            &&& t.stats.evictions == bumped(s.stats.evictions, 1)
            &&& t.frames.meta[f as int].block == NO_BLOCK
            &&& s.map[b] == f ==> t.map[b] == NO_FRAME
            &&& s.map[b] != f ==> t.map[b] == s.map[b]
            &&& t.frames.data == s.frames.data
            &&& t.checksums == s.checksums
            &&& t.stats.writebacks == s.stats.writebacks
        }),
{
    assert(s.map[s.frames.meta[f as int].block as int] == f);
    if s.map[b] == f {
        assert(s.frames.meta[s.map[b] as int].block == b);
    }
}

/// A victim that had to be written back is, and leaves: one writeback, one
/// eviction; and if the writeback failed, nothing has changed.
pub proof fn law_a_dirty_victim_is_written_back_first(
    pre: ArenaState,
    reply: Reply,
    post: ArenaState,
)
    requires
        pre.steady(),
        pre.wait is Victim,
        pre.expects(reply),
        pre.resumed(reply, post),
    ensures
        reply is Done ==> {
            let v = pre.wait->victim as int;
            let x = pre.frames.meta[v].block as int;
            &&& post.map[x] == NO_FRAME
            &&& post.checksums[x] == checksum_of(pre.frames.data[v])
            &&& post.dirty_meta
            &&& post.stats.writebacks == bumped(pre.stats.writebacks, 1)
            &&& post.stats.bytes_written_backing == bumped(
                pre.stats.bytes_written_backing,
                pre.bs(),
            )
            &&& post.stats.evictions == bumped(pre.stats.evictions, 1)
        },
        reply is Failed ==> {
            &&& post.map == pre.map
            &&& post.frames == pre.frames
            &&& post.stats == pre.stats
            &&& post.checksums == pre.checksums
        },
{
    let s = pre.waiting(Wait::Nothing);
    if let Wait::Victim { block, full, victim } = pre.wait {
        if reply is Done {
            let t = choose|t: ArenaState| #[trigger]
                s.flushed(victim, t) && t.evicted(victim).brought_in(block, full, victim, post);
            crate::stats::lemma_measured(s.stats.writeback_latency, t.stats.writeback_latency);
            lemma_flushed(s, Seq::empty(), victim, t);
            law_a_writeback_only_cleans(s, victim, t);
            lemma_evicted(t, Seq::empty(), victim);
            assert(Seq::<u32>::empty().push(victim) =~= seq![victim]);
            lemma_brought_in(t.evicted(victim), block, full, victim, post);
            assert(s.map[s.frames.meta[victim as int].block as int] == victim);
        }
    }
}

/// Writing to a frame makes it dirty and changes nothing else of it, nor of
/// any other.
pub proof fn law_writing_only_dirties(s: ArenaState, f: u32, bytes: Seq<u8>, g: int)
    requires
        s.frames.wf(),
        s.frames.has(f),
        0 <= g < s.frames.meta.len(),
    ensures
        ({
            let t = s.rewritten(f, bytes);
            &&& t.frames.meta[f as int].dirty
            &&& t.frames.data[f as int] == bytes
            &&& t.frames.meta[f as int].block == s.frames.meta[f as int].block
            &&& t.frames.meta[f as int].referenced == s.frames.meta[f as int].referenced
            &&& t.frames.meta[f as int].prefetched == s.frames.meta[f as int].prefetched
            &&& g != f ==> t.frames.meta[g] == s.frames.meta[g] && t.frames.data[g]
                == s.frames.data[g]
            &&& t.frames.free == s.frames.free
            &&& t.frames.hand == s.frames.hand
            &&& t.map == s.map
            &&& t.checksums == s.checksums
            &&& t.stats == s.stats
        }),
{
}

/// A reply touches the frame it was waited for and no other: another keeps its
/// block, its bytes and its reference bit.
pub proof fn law_a_reply_touches_only_its_frame(
    pre: ArenaState,
    reply: Reply,
    post: ArenaState,
    g: int,
)
    requires
        pre.steady(),
        pre.expects(reply),
        pre.resumed(reply, post),
        0 <= g < pre.frames.meta.len(),
        match pre.wait {
            Wait::Load { block, frame } => g != frame,
            Wait::Victim { block, full, victim } => g != victim,
            _ => false,
        },
    ensures
        post.frames.meta[g] == pre.frames.meta[g],
        post.frames.data[g] == pre.frames.data[g],
        post.frames.hand == pre.frames.hand,
{
    let s = pre.waiting(Wait::Nothing);
    if let Wait::Victim { block, full, victim } = pre.wait {
        if reply is Done {
            let t = choose|t: ArenaState| #[trigger]
                s.flushed(victim, t) && t.evicted(victim).brought_in(block, full, victim, post);
            crate::stats::lemma_measured(s.stats.writeback_latency, t.stats.writeback_latency);
            lemma_flushed(s, Seq::empty(), victim, t);
            law_a_writeback_only_cleans(s, victim, t);
            lemma_evicted(t, Seq::empty(), victim);
            assert(Seq::<u32>::empty().push(victim) =~= seq![victim]);
            lemma_brought_in(t.evicted(victim), block, full, victim, post);
            assert(t.evicted(victim).frames.meta[g] == t.frames.meta[g]);
        }
    }
}

/// A speculative read touches the frames that were claimed for it and no
/// other.
pub proof fn law_guesses_touch_no_other_frame(
    s: ArenaState,
    first: int,
    bytes: Seq<u8>,
    claimed: Seq<(u64, u32)>,
    n: int,
    g: int,
)
    requires
        0 <= n <= claimed.len(),
        0 <= g < s.frames.meta.len(),
        s.frames.data.len() == s.frames.meta.len(),
        forall|i: int|
            0 <= i < claimed.len() ==> (#[trigger] claimed[i]).1 != g && claimed[i].1
                < s.frames.meta.len(),
    ensures
        s.admitted(first, bytes, claimed, n).frames.meta.len() == s.frames.meta.len(),
        s.admitted(first, bytes, claimed, n).frames.data.len() == s.frames.data.len(),
        s.unclaimed(claimed, n).frames.meta.len() == s.frames.meta.len(),
        s.admitted(first, bytes, claimed, n).frames.meta[g] == s.frames.meta[g],
        s.admitted(first, bytes, claimed, n).frames.data[g] == s.frames.data[g],
        s.admitted(first, bytes, claimed, n).frames.hand == s.frames.hand,
        s.unclaimed(claimed, n).frames.meta[g] == s.frames.meta[g],
        s.unclaimed(claimed, n).frames.data == s.frames.data,
        s.unclaimed(claimed, n).frames.free.len() == s.frames.free.len() + n,
    decreases n,
{
    if n > 0 {
        law_guesses_touch_no_other_frame(s, first, bytes, claimed, n - 1, g);
        let t = s.admitted(first, bytes, claimed, n - 1);
        let last = claimed[n - 1];
        assert(last.1 != g);
    }
}

/// A speculative read leaves no block out: each block of its range was in RAM
/// already or gets a frame, as long as there are frames that can be had
/// without a writeback.
pub proof fn law_guesses_leave_no_block_out(
    pre: ArenaState,
    block: u64,
    full: bool,
    post: ArenaState,
    b: int,
)
    requires
        at_rest(pre),
        block < pre.sb.nblocks,
        pre.looked_up(block, full, post),
        post.wait is Batch,
        block <= b < block + post.wait->Batch_count,
    ensures
        pre.resident(b) || in_claim(post.wait->Batch_claimed, b) || (post.frames.free.len() == 0
            && forall|f: int|
            0 <= f < post.frames.meta.len() ==> !on_offer(#[trigger] post.frames.meta[f], true)),
        post.wait->Batch_claimed.len() > 0,
        post.wait->Batch_claimed[0].0 == block,
{
    let n = pre.noted(block);
    assert(at_rest(n));
    if pre.resident(block as int) {
    } else if !full && n.speculates(block as int) {
        let c = post.waiting(Wait::Nothing);
        if !pre.resident(b) && !in_claim(post.wait->Batch_claimed, b) {
            assert(!n.resident(b));
            assert(c.exhausted());
            assert forall|f: int| 0 <= f < post.frames.meta.len() implies !on_offer(
                #[trigger] post.frames.meta[f],
                true,
            ) by {
                if on_offer(post.frames.meta[f], true) {
                    assert(c.frames.meta[f].eligible(true));
                }
            }
        }
    } else {
        lemma_room(n, block, full, post);
    }
}

/// What a lookup of a block that will be overwritten whole waits for.
proof fn lemma_full_lookup(s: ArenaState, block: u64, mid: ArenaState)
    requires
        s.wait is Nothing,
        s.looked_up(block, true, mid),
    ensures
        mid.wait is Nothing || mid.wait is Victim,
        mid.sb == s.sb,
{
    let n = s.noted(block);
    if !s.resident(block as int) {
        if n.frames.free.len() == 0 {
            let v = choose|v: u32| #[trigger] n.victim_taken(block, true, v, mid);
            assert(n.victim_taken(block, true, v, mid));
        }
    }
}

/// A write of whole blocks reads nothing: from wherever it goes on, it waits
/// for a writeback at most, never for bytes of the file.
pub proof fn law_whole_blocks_are_written_without_reading(
    s: ArenaState,
    start: u64,
    data: Seq<u8>,
    done: int,
    after: ArenaState,
)
    requires
        s.wait is Nothing,
        0 < s.bs(),
        0 <= done < data.len(),
        start as int % s.bs() == 0,
        done % s.bs() == 0,
        data.len() as int % s.bs() == 0,
        s.write_from(start, data, done, after),
    ensures
        after.wait is Nothing || after.wait is Victim,
    decreases data.len() - done,
{
    let bs = s.bs();
    let len = data.len() as int;
    let at = start + done;
    let left = len - done;
    assert(at % bs == 0 && left % bs == 0) by {
        vstd::arithmetic::div_mod::lemma_add_mod_noop(start as int, done, bs);
        vstd::arithmetic::div_mod::lemma_sub_mod_noop(len, done, bs);
        vstd::arithmetic::div_mod::lemma_small_mod(0, bs as nat);
    }
    assert(left >= bs) by {
        if left < bs {
            vstd::arithmetic::div_mod::lemma_small_mod(left as nat, bs as nat);
        }
    }
    assert(s.covers(at, left));
    let mid = choose|mid: ArenaState| #[trigger]
        s.doing(crate::state::Job::Write { start, len, done }).looked_up(
            (at / bs) as u64,
            s.covers(at, left),
            mid,
        ) && mid.write_past(start, data, done, after);
    let go = s.doing(crate::state::Job::Write { start, len, done });
    lemma_full_lookup(go, (at / bs) as u64, mid);
    let next = done + mid.run_at(at, left);
    assert(next == done + bs);
    if mid.wait is Nothing {
        let f = mid.map[at / bs];
        let w = mid.rewritten(
            f,
            crate::bytes::overlay(mid.frames.data[f as int], at % bs, data.subrange(done, next)),
        );
        if next < len {
            assert(next % bs == 0) by {
                vstd::arithmetic::div_mod::lemma_mod_add_multiples_vanish(done, bs);
            }
            assert(w.write_from(start, data, next, after));
            law_whole_blocks_are_written_without_reading(w, start, data, next, after);
        }
    }
}

// ---- lookups of a copy --------------------------------------------------

/// Lookups that are done, as far as 64 bits count them.
pub open spec fn lookups(c: Counters) -> int {
    (c.hits + c.misses) % 0x1_0000_0000_0000_0000
}

/// A lookup that is done is one more.
proof fn lemma_one_lookup(s: ArenaState, block: u64, full: bool, mid: ArenaState)
    requires
        s.wait is Nothing,
        s.looked_up(block, full, mid),
        mid.wait is Nothing,
    ensures
        mid.sb == s.sb,
        lookups(mid.stats) == (lookups(s.stats) + 1) % 0x1_0000_0000_0000_0000,
{
    let n = s.noted(block);
    let m = 0x1_0000_0000_0000_0000int;
    if s.resident(block as int) {
        assert(mid.stats.hits == bumped(s.stats.hits, 1) && mid.stats.misses == s.stats.misses);
    } else {
        if n.frames.free.len() == 0 {
            let v = choose|v: u32| #[trigger] n.victim_taken(block, full, v, mid);
            assert(n.victim_taken(block, full, v, mid));
        }
        assert(mid.stats.misses == bumped(s.stats.misses, 1) && mid.stats.hits == s.stats.hits);
    }
    let a = s.stats.hits as int;
    let b = s.stats.misses as int;
    vstd::arithmetic::div_mod::lemma_add_mod_noop(a + b, 1, m);
    vstd::arithmetic::div_mod::lemma_small_mod(1, m as nat);
    vstd::arithmetic::div_mod::lemma_add_mod_noop(a + 1, b, m);
    vstd::arithmetic::div_mod::lemma_add_mod_noop(a, b + 1, m);
    vstd::arithmetic::div_mod::lemma_small_mod(a as nat, m as nat);
    vstd::arithmetic::div_mod::lemma_small_mod(b as nat, m as nat);
}

/// One more, and then some more.
proof fn lemma_lookups_add_up(a: int, k: int)
    ensures
        ((a + 1) % 0x1_0000_0000_0000_0000 + k) % 0x1_0000_0000_0000_0000 == (a + (1 + k))
            % 0x1_0000_0000_0000_0000,
{
    let m = 0x1_0000_0000_0000_0000int;
    vstd::arithmetic::div_mod::lemma_add_mod_noop(a + 1, k, m);
    vstd::arithmetic::div_mod::lemma_add_mod_noop((a + 1) % m, k, m);
    vstd::arithmetic::div_mod::lemma_mod_twice(a + 1, m);
}

/// How many blocks the bytes from `at` up to `end` lie in.
pub open spec fn blocks_of(s: ArenaState, at: int, end: int) -> int {
    (end - 1) / s.bs() - at / s.bs() + 1
}

/// The next run starts in the next block.
proof fn lemma_next_block(s: ArenaState, at: int, left: int)
    requires
        0 < s.bs(),
        0 <= at,
        0 < left,
        s.run_at(at, left) < left,
    ensures
        (at + s.run_at(at, left)) / s.bs() == at / s.bs() + 1,
{
    let bs = s.bs();
    let n = s.run_at(at, left);
    crate::steps::lemma_split(at, bs);
    let q = at / bs;
    assert(at + n == (q + 1) * bs + 0) by (nonlinear_arith)
        requires
            at == q * bs + at % bs,
            n == bs - at % bs,
    ;
    vstd::arithmetic::div_mod::lemma_fundamental_div_mod_converse(at + n, bs, q + 1, 0);
}

/// A read that is done at once looks each block of its range up once: as many
/// lookups are counted as there are blocks.
pub proof fn law_a_read_looks_each_block_up_once(
    s: ArenaState,
    start: u64,
    len: int,
    done: int,
    after: ArenaState,
)
    requires
        s.wait is Nothing,
        0 < s.bs(),
        0 <= done < len,
        s.read_from(start, len, done, after),
        after.wait is Nothing,
    ensures
        lookups(after.stats) == (lookups(s.stats) + blocks_of(s, start + done, start + len))
            % 0x1_0000_0000_0000_0000,
    decreases len - done,
{
    let bs = s.bs();
    let at = start + done;
    let left = len - done;
    let go = s.doing(crate::state::Job::Read { start, len, done });
    let mid = choose|mid: ArenaState| #[trigger]
        s.doing(crate::state::Job::Read { start, len, done }).looked_up(
            (at / bs) as u64,
            false,
            mid,
        ) && mid.read_past(start, len, done, after);
    let next = done + mid.run_at(at, left);
    assert(mid.wait is Nothing);
    lemma_one_lookup(go, (at / bs) as u64, false, mid);
    crate::ledger::law_a_run_ends_with_its_block(mid, at, left);
    if next < len {
        lemma_next_block(mid, at, left);
        law_a_read_looks_each_block_up_once(mid, start, len, next, after);
        lemma_lookups_add_up(lookups(s.stats), blocks_of(s, start + next, start + len));
    }
}

/// So does a write.
pub proof fn law_a_write_looks_each_block_up_once(
    s: ArenaState,
    start: u64,
    data: Seq<u8>,
    done: int,
    after: ArenaState,
)
    requires
        s.wait is Nothing,
        0 < s.bs(),
        0 <= done < data.len(),
        s.write_from(start, data, done, after),
        after.wait is Nothing,
    ensures
        lookups(after.stats) == (lookups(s.stats) + blocks_of(s, start + done, start + data.len()))
            % 0x1_0000_0000_0000_0000,
    decreases data.len() - done,
{
    let bs = s.bs();
    let len = data.len() as int;
    let at = start + done;
    let left = len - done;
    let go = s.doing(crate::state::Job::Write { start, len, done });
    let mid = choose|mid: ArenaState| #[trigger]
        s.doing(crate::state::Job::Write { start, len, done }).looked_up(
            (at / bs) as u64,
            s.covers(at, left),
            mid,
        ) && mid.write_past(start, data, done, after);
    let next = done + mid.run_at(at, left);
    assert(mid.wait is Nothing);
    lemma_one_lookup(go, (at / bs) as u64, s.covers(at, left), mid);
    crate::ledger::law_a_run_ends_with_its_block(mid, at, left);
    let f = mid.map[at / bs];
    let w = mid.rewritten(
        f,
        crate::bytes::overlay(mid.frames.data[f as int], at % bs, data.subrange(done, next)),
    );
    if next < len {
        lemma_next_block(mid, at, left);
        assert(w.write_from(start, data, next, after));
        law_a_write_looks_each_block_up_once(w, start, data, next, after);
        lemma_lookups_add_up(lookups(s.stats), blocks_of(s, start + next, start + len));
    }
}

} // verus!
