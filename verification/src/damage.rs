//! What becomes of a block that was damaged on disk.
//!
//! Its bytes never reach anyone: a read that touches it ends in an error that
//! names it. Every other block reads as before, and once the old bytes are
//! back on disk the block does, too.

use crate::arena::OpenOptions;
use crate::bytes::repeated;
use crate::checksum::{checksum_of, UNWRITTEN};
use crate::error::LoomError;
use crate::frames::FrameMeta;
use crate::io::Reply;
use crate::laws::{lemma_admitted, lemma_one_held};
use crate::opening::{fresh, frames_for, lemma_fresh, OpenState};
use crate::runs::Moment;
use crate::state::{claimed_frames, ArenaState, Cell, Job, Wait, NO_FRAME};
use crate::stats::{bumped, lemma_measured, Counters};
use crate::steps::{
    alike, lemma_block_of, lemma_bound, lemma_evicted, lemma_flushed, lemma_popped,
    lemma_same_holdings, lemma_split, lemma_swept, lemma_touched,
};
use crate::superblock::{lemma_block_range, lemma_geometry, CHECKSUM_TABLE_OFF, REGION_TABLE_OFF};
use vstd::prelude::*;

verus! {

/// Block `b` was written, its bytes on disk no longer have the checksum they
/// were written with, and no frame holds it.
pub open spec fn spoilt(s: ArenaState, disk: Seq<u8>, b: int) -> bool {
    &&& 0 <= b < s.nblocks()
    &&& s.checksums[b] != UNWRITTEN
    &&& checksum_of(s.on_disk(disk, b)) != s.checksums[b]
    &&& !s.resident(b)
}

/// The steps of a lookup leave a damaged block where it is: what it was
/// written with is kept, and it enters no frame. A lookup that is done was
/// for another block.
pub open spec fn left_alone(pre: ArenaState, block: int, b: int, post: ArenaState) -> bool {
    &&& post.sb == pre.sb
    &&& post.job == pre.job
    &&& post.checksums[b] == pre.checksums[b]
    &&& !post.resident(b)
    &&& post.wait is Nothing ==> post.valid(Seq::empty()) && block != b
}

// ---- lookups ------------------------------------------------------------

proof fn lemma_counted(pre: ArenaState, held: Seq<u32>, post: ArenaState)
    requires
        pre.valid(held),
        post == pre.with_stats(post.stats),
        post.stats.wf(),
    ensures
        post.valid(held),
{
}

proof fn lemma_missed(pre: ArenaState, held: Seq<u32>, post: ArenaState)
    requires
        pre.valid(held),
        pre.missed(post),
    ensures
        post.valid(held),
{
    lemma_measured(pre.stats.miss_latency, post.stats.miss_latency);
    lemma_counted(pre, held, post);
}

proof fn lemma_brought_in_beside(
    s: ArenaState,
    block: u64,
    f: u32,
    disk: Seq<u8>,
    b: int,
    post: ArenaState,
)
    requires
        s.valid(seq![f]),
        s.wait is Nothing,
        block < s.sb.nblocks,
        !s.resident(block as int),
        spoilt(s, disk, b),
        s.brought_in(block, false, f, post),
    ensures
        left_alone(s, block as int, b, post),
{
    if s.checksums[block as int] == UNWRITTEN {
        let held: Seq<u32> = seq![f];
        let none: Seq<u32> = Seq::empty();
        let zeros = repeated(0, s.bs() as nat);
        let m = ArenaState::wanted(block);
        lemma_one_held(f);
        assert(held[0] == f);
        lemma_bound(s, held, f, zeros, m, none);
        let t = s.bound_to(f, zeros, m);
        let u = t.with_stats(post.stats);
        lemma_measured(s.stats.miss_latency, post.stats.miss_latency);
        lemma_counted(t, none, u);
        assert(post == u);
        assert(t.resident(b) == s.resident(b));
    }
}

proof fn lemma_room_beside(
    s: ArenaState,
    block: u64,
    disk: Seq<u8>,
    b: int,
    post: ArenaState,
)
    requires
        s.valid(Seq::empty()),
        s.wait is Nothing,
        block < s.sb.nblocks,
        !s.resident(block as int),
        spoilt(s, disk, b),
        s.room_made(block, false, post),
    ensures
        left_alone(s, block as int, b, post),
{
    let none: Seq<u32> = Seq::empty();
    if s.frames.free.len() > 0 {
        let f = s.frames.free.last();
        let p = s.with_frames(s.frames.popped());
        lemma_popped(s, none);
        assert(none.push(f) =~= seq![f]);
        lemma_brought_in_beside(p, block, f, disk, b, post);
    } else {
        let v = choose|v: u32| #[trigger] s.victim_taken(block, false, v, post);
        let w = s.with_frames(s.frames.swept(v as int, false));
        lemma_swept(s.frames, v as int, false);
        lemma_same_holdings(s, none, w.frames);
        if !w.frames.meta[v as int].dirty {
            let e = w.evicted(v);
            lemma_evicted(w, none, v);
            assert(none.push(v) =~= seq![v]);
            assert(!e.resident(b)) by {
                if b != w.frames.meta[v as int].block {
                    assert(e.resident(b) == w.resident(b));
                }
            }
            assert(!e.resident(block as int)) by {
                if block != w.frames.meta[v as int].block {
                    assert(e.resident(block as int) == w.resident(block as int));
                }
            }
            lemma_brought_in_beside(e, block, v, disk, b, post);
        } else {
            assert(post == w.waiting(Wait::Victim { block, full: false, victim: v }));
        }
    }
}

proof fn lemma_looked_up_beside(
    pre: ArenaState,
    block: u64,
    disk: Seq<u8>,
    b: int,
    post: ArenaState,
)
    requires
        pre.valid(Seq::empty()),
        pre.wait is Nothing,
        block < pre.sb.nblocks,
        spoilt(pre, disk, b),
        pre.looked_up(block, false, post),
    ensures
        left_alone(pre, block as int, b, post),
{
    let none: Seq<u32> = Seq::empty();
    let n = pre.noted(block);
    if pre.resident(block as int) {
        let f = pre.map[block as int];
        let m = FrameMeta { prefetched: false, referenced: true, ..pre.frames.meta[f as int] };
        lemma_touched(pre.frames, f, m);
        lemma_same_holdings(pre, none, pre.frames.with_meta(f, m));
        let t = pre.with_frames(pre.frames.with_meta(f, m));
        lemma_measured(pre.stats.hit_latency, post.stats.hit_latency);
        assert(post == t.with_stats(post.stats));
        lemma_counted(t, none, post);
    } else if n.speculates(block as int) {
        let c = post.waiting(Wait::Nothing);
        assert(!c.resident(b)) by {
            if c.resident(b) {
                assert(n.stays(b, c));
            }
        }
    } else {
        lemma_room_beside(n, block, disk, b, post);
    }
}

proof fn lemma_not_admitted(
    s: ArenaState,
    first: int,
    count: int,
    bytes: Seq<u8>,
    claimed: Seq<(u64, u32)>,
    n: int,
    b: int,
)
    requires
        s.valid(claimed_frames(claimed)),
        s.wait is Nothing,
        0 <= first,
        first + count <= s.nblocks(),
        bytes.len() == count * s.bs(),
        s.good_claim(first, count, claimed),
        0 <= n <= claimed.len(),
        !s.resident(b),
        first <= b < first + count ==> !s.admissible(first, bytes, b),
    ensures
        !s.admitted(first, bytes, claimed, n).resident(b),
        s.admitted(first, bytes, claimed, n).job == s.job,
    decreases n,
{
    if n > 0 {
        lemma_admitted(s, first, count, bytes, claimed, n - 1);
        lemma_not_admitted(s, first, count, bytes, claimed, n - 1, b);
        assert(claimed[n - 1].0 < s.nblocks());
    }
}

/// The bytes a speculative read brings for a block are the file's.
proof fn lemma_read_of_disk(s: ArenaState, disk: Seq<u8>, first: int, count: int, b: int)
    requires
        s.sb.wf(),
        disk.len() == s.sb.file_end(),
        0 <= first <= b < first + count <= s.nblocks(),
    ensures
        s.read_of(
            first,
            disk.subrange(s.sb.block_start(first), s.sb.block_start(first) + count * s.bs()),
            b,
        ) == s.on_disk(disk, b),
{
    let bs = s.bs();
    lemma_block_range(s.sb, first, count);
    lemma_block_range(s.sb, first, b - first);
    lemma_block_range(s.sb, b, 1);
    lemma_block_range(s.sb, b + 1, first + count - b - 1);
    let k = b - first;
    assert(0 <= k * bs && k * bs + bs <= count * bs) by (nonlinear_arith)
        requires
            0 <= k < count,
            0 <= bs,
    ;
    assert(s.read_of(
        first,
        disk.subrange(s.sb.block_start(first), s.sb.block_start(first) + count * bs),
        b,
    ) =~= s.on_disk(disk, b));
}

proof fn lemma_resumed_beside(
    pre: ArenaState,
    disk: Seq<u8>,
    reply: Reply,
    b: int,
    post: ArenaState,
)
    requires
        pre.steady(),
        pre.sought() is Some,
        !pre.sought_full(),
        disk.len() == pre.sb.file_end(),
        pre.expects(reply),
        pre.answered(disk, reply),
        spoilt(pre, disk, b),
        pre.resumed(reply, post),
    ensures
        post.sb == pre.sb,
        post.job == pre.job,
        post.checksums[b] == pre.checksums[b],
        !post.resident(b),
        pre.load_error(reply) is None ==> left_alone(pre, pre.sought()->0, b, post),
{
    let none: Seq<u32> = Seq::empty();
    let s = pre.waiting(Wait::Nothing);
    match pre.wait {
        Wait::Batch { block, count, claimed } => {
            if let Reply::Bytes(bytes) = reply {
                let n = claimed.len() as int;
                let first = block as int;
                lemma_admitted(s, first, count as int, bytes@, claimed, n);
                if first <= b < first + count {
                    lemma_read_of_disk(s, disk, first, count as int, b);
                }
                lemma_not_admitted(s, first, count as int, bytes@, claimed, n, b);
                let a = s.admitted(first, bytes@, claimed, n);
                let t = s.batch_served(first, count as int, bytes@, claimed);
                assert(claimed_frames(claimed).skip(n) =~= none);
                lemma_counted(a, none, t);
                if t.resident(first) {
                    let f = t.map[first];
                    let m = FrameMeta {
                        prefetched: false,
                        referenced: true,
                        ..t.frames.meta[f as int]
                    };
                    lemma_touched(t.frames, f, m);
                    lemma_same_holdings(t, none, t.frames.with_meta(f, m));
                    lemma_missed(t.with_frames(t.frames.with_meta(f, m)), none, post);
                } else {
                    lemma_room_beside(t, block, disk, b, post);
                }
            } else {
                lemma_unclaimed_beside(s, claimed, claimed.len() as int);
            }
        },
        Wait::Victim { block, full, victim } => {
            if let Reply::Done = reply {
                let t = choose|t: ArenaState| #[trigger]
                    s.flushed(victim, t) && t.evicted(victim).brought_in(
                        block,
                        full,
                        victim,
                        post,
                    );
                let x = s.frames.meta[victim as int].block as int;
                assert(s.frames.meta[victim as int].bound());
                lemma_measured(s.stats.writeback_latency, t.stats.writeback_latency);
                lemma_geometry(s.sb.block_size, s.sb.capacity, s.sb.default_budget);
                lemma_flushed(s, none, victim, t);
                lemma_evicted(t, none, victim);
                assert(none.push(victim) =~= seq![victim]);
                let e = t.evicted(victim);
                assert(s.map[x] == victim);
                assert(e.resident(b) == t.resident(b));
                assert(e.resident(block as int) == t.resident(block as int));
                lemma_brought_in_beside(e, block, victim, disk, b, post);
            }
        },
        Wait::Load { block, frame } => {
            lemma_one_held(frame);
            let held: Seq<u32> = seq![frame];
            assert(held[0] == frame);
            if let Reply::Bytes(bytes) = reply {
                if checksum_of(bytes@) == s.checksums[block as int] {
                    let m = ArenaState::wanted(block);
                    let c = s.with_stats(
                        Counters {
                            bytes_read_backing: bumped(
                                s.stats.bytes_read_backing,
                                s.bs(),
                            ),
                            ..s.stats
                        },
                    );
                    lemma_counted(s, held, c);
                    lemma_bound(c, held, frame, bytes@, m, none);
                    lemma_missed(c.bound_to(frame, bytes@, m), none, post);
                    assert(c.bound_to(frame, bytes@, m).resident(b) == c.resident(b));
                }
            }
        },
        _ => {},
    }
}

proof fn lemma_unclaimed_beside(s: ArenaState, claimed: Seq<(u64, u32)>, n: int)
    requires
        0 <= n <= claimed.len(),
    ensures
        s.unclaimed(claimed, n).sb == s.sb,
        s.unclaimed(claimed, n).job == s.job,
        s.unclaimed(claimed, n).map == s.map,
        s.unclaimed(claimed, n).checksums == s.checksums,
    decreases n,
{
    if n > 0 {
        lemma_unclaimed_beside(s, claimed, n - 1);
    }
}

// ---- reads --------------------------------------------------------------

/// Place `p` of a copy from `start` on lies in block `b`, of `bs` bytes.
pub open spec fn touches(bs: int, start: u64, p: int, b: int) -> bool {
    (start + p) / bs == b
}

/// Of the blocks that a copy of `len` bytes from `start` on touches, none but
/// `b` is damaged.
pub open spec fn only_damage(
    s: ArenaState,
    disk: Seq<u8>,
    b: int,
    start: u64,
    len: int,
) -> bool {
    forall|k: int, q: int|
        0 <= q < len && k != b && #[trigger] touches(s.bs(), start, q, k) ==> s.checks_out(disk, k)
}

/// A read of `len` bytes from `start` on waits for the file, at a place not
/// past any byte of block `b`, which is still damaged.
pub open spec fn stuck_before(
    s: ArenaState,
    disk: Seq<u8>,
    b: int,
    start: u64,
    len: int,
) -> bool {
    &&& spoilt(s, disk, b)
    &&& !(s.wait is Nothing)
    &&& s.job matches Job::Read { start: from, len: n, done }
    &&& from == start
    &&& n == len
    &&& forall|p: int| 0 <= p < len && #[trigger] touches(s.bs(), start, p, b) ==> done <= p
}

/// Places of one run lie in one block.
proof fn lemma_one_block(s: ArenaState, start: u64, done: int, left: int, p: int)
    requires
        0 < s.bs(),
        0 <= done <= p < done + s.run_at(start + done, left),
    ensures
        (start + p) / s.bs() == (start + done) / s.bs(),
{
    let bs = s.bs();
    let at = start + done;
    lemma_split(at, bs);
    let q = at / bs;
    let r = at % bs + (p - done);
    assert(start + p == q * bs + r);
    vstd::arithmetic::div_mod::lemma_fundamental_div_mod_converse(start + p, bs, q, r);
}

proof fn lemma_read_from_stops(
    s: ArenaState,
    disk: Seq<u8>,
    b: int,
    start: u64,
    len: int,
    done: int,
    p: int,
    after: ArenaState,
)
    requires
        s.valid(Seq::empty()),
        s.wait is Nothing,
        spoilt(s, disk, b),
        start + len <= s.sb.capacity,
        0 <= done <= p < len,
        touches(s.bs(), start, p, b),
        forall|q: int| 0 <= q < len && #[trigger] touches(s.bs(), start, q, b) ==> done <= q,
        s.read_from(start, len, done, after),
    ensures
        stuck_before(after, disk, b, start, len),
        after.sb == s.sb,
        after.checksums[b] == s.checksums[b],
    decreases len - done, 1int,
{
    let t = s.doing(Job::Read { start, len, done });
    let block = ((start + done) / s.bs()) as u64;
    lemma_block_of(s, Seq::empty(), start + done);
    let mid = choose|mid: ArenaState| #[trigger]
        t.looked_up(block, false, mid) && mid.read_past(start, len, done, after);
    lemma_looked_up_beside(t, block, disk, b, mid);
    lemma_read_past_stops(mid, disk, b, start, len, done, p, after);
}

proof fn lemma_read_past_stops(
    s: ArenaState,
    disk: Seq<u8>,
    b: int,
    start: u64,
    len: int,
    done: int,
    p: int,
    after: ArenaState,
)
    requires
        s.wait is Nothing ==> s.valid(Seq::empty()) && (start + done) / s.bs() != b,
        s.job == (Job::Read { start, len, done }),
        spoilt(s, disk, b),
        start + len <= s.sb.capacity,
        0 < s.bs(),
        0 <= done <= p < len,
        touches(s.bs(), start, p, b),
        forall|q: int| 0 <= q < len && #[trigger] touches(s.bs(), start, q, b) ==> done <= q,
        s.read_past(start, len, done, after),
    ensures
        stuck_before(after, disk, b, start, len),
        after.sb == s.sb,
        after.checksums[b] == s.checksums[b],
    decreases len - done, 0int,
{
    let run = s.run_at(start + done, len - done);
    let next = done + run;
    if s.wait is Nothing {
        lemma_split(start + done, s.bs());
        assert(run >= 1);
        assert forall|q: int| 0 <= q < len && #[trigger] touches(s.bs(), start, q, b) implies next
            <= q by {
            if q < next {
                lemma_one_block(s, start, done, len - done, q);
            }
        }
        assert(next <= p);
        lemma_read_from_stops(s, disk, b, start, len, next, p, after);
    }
}

/// A read that touches a damaged block does not complete in its first step:
/// it waits for the file before the first byte of the block.
pub proof fn law_damage_stops_a_read(
    pre: ArenaState,
    disk: Seq<u8>,
    b: int,
    start: u64,
    len: int,
    p: int,
    post: ArenaState,
)
    requires
        pre.wf(),
        pre.idle(),
        spoilt(pre, disk, b),
        start + len <= pre.sb.capacity,
        0 <= p < len,
        touches(pre.bs(), start, p, b),
        pre.read_from(start, len, 0, post),
    ensures
        stuck_before(post, disk, b, start, len),
        post.sb == pre.sb,
        post.checksums[b] == pre.checksums[b],
{
    lemma_read_from_stops(pre, disk, b, start, len, 0, p, post);
}

/// Nor does it complete in any later step, given true replies: either it
/// still waits before the block, or it ends with the news that a block is
/// corrupt whose bytes on disk are not those it was written with. The block
/// stays out of RAM either way. If it is the only damaged block the read
/// touches, it is the one that is named.
pub proof fn law_damage_is_reported(
    pre: ArenaState,
    disk: Seq<u8>,
    reply: Reply,
    b: int,
    start: u64,
    len: int,
    p: int,
    post: ArenaState,
)
    requires
        pre.wf(),
        stuck_before(pre, disk, b, start, len),
        disk.len() == pre.sb.file_end(),
        0 <= p < len,
        touches(pre.bs(), start, p, b),
        pre.expects(reply),
        !(reply is Failed),
        pre.answered(disk, reply),
        pre.read_resumed(reply, post),
    ensures
        post.sb == pre.sb,
        post.checksums[b] == pre.checksums[b],
        !post.resident(b),
        match pre.load_error(reply) {
            None => stuck_before(post, disk, b, start, len),
            Some(e) => {
                &&& post.idle()
                &&& e matches LoomError::Corrupt { block, expected, actual }
                &&& pre.sought() == Some(block as int)
                &&& !pre.checks_out(disk, block as int)
                &&& expected == pre.checksums[block as int]
                &&& actual == checksum_of(pre.on_disk(disk, block as int))
                &&& only_damage(pre, disk, b, start, len) ==> block == b
            },
        },
{
    let done = pre.job->Read_done;
    let mid = choose|mid: ArenaState| #[trigger]
        pre.resumed(reply, mid) && if pre.load_error(reply) is Some {
            post == mid.doing(Job::Idle)
        } else {
            mid.read_past(start, len, done, post)
        };
    lemma_geometry(pre.sb.block_size, pre.sb.capacity, pre.sb.default_budget);
    lemma_resumed_beside(pre, disk, reply, b, mid);
    if pre.load_error(reply) is None {
        assert forall|q: int| 0 <= q < len && #[trigger] touches(mid.bs(), start, q, b) implies done
            <= q by {
            assert(touches(pre.bs(), start, q, b));
        }
        lemma_read_past_stops(mid, disk, b, start, len, done, p, post);
    } else {
        assert(pre.wait is Load);
        let k = pre.wait->Load_block as int;
        lemma_block_range(pre.sb, k, 1);
        assert(touches(pre.bs(), start, done, k));
    }
}

/// A block that is not damaged loads: a true reply to a lookup for it is no
/// error.
pub proof fn law_intact_blocks_load(s: ArenaState, disk: Seq<u8>, reply: Reply)
    requires
        s.steady(),
        s.sought() matches Some(b) && s.honest(disk, b),
        !(reply is Failed),
        s.answered(disk, reply),
    ensures
        s.load_error(reply) is None,
{
    if let Wait::Load { block, frame } = s.wait {
        assert(s.cell(block as int) == Cell::Cold);
        lemma_block_range(s.sb, block as int, 1);
    }
}

/// The file between an action and its reply: the damaged block is no
/// business of the action.
proof fn lemma_action_beside(s: ArenaState, disk: Seq<u8>, after: Seq<u8>, b: int)
    requires
        s.steady(),
        s.sought() is Some,
        disk.len() == s.sb.file_end(),
        s.confined(disk, after),
        spoilt(s, disk, b),
    ensures
        spoilt(s, after, b),
{
    lemma_geometry(s.sb.block_size, s.sb.capacity, s.sb.default_budget);
    lemma_block_range(s.sb, b, 1);
    if let Wait::Victim { block, full, victim } = s.wait {
        let x = s.frames.meta[victim as int].block as int;
        assert(s.frames.meta[victim as int].bound());
        assert(s.map[x] == victim);
        assert(s.frames.data[victim as int].len() == s.sb.block_size);
        let bs = s.bs();
        assert(x * bs + bs <= b * bs || b * bs + bs <= x * bs) by (nonlinear_arith)
            requires
                x != b,
                0 < bs,
        ;
    }
    assert(s.on_disk(after, b) =~= s.on_disk(disk, b));
}

/// A step of a read with a true reply: the arena as it waited, the file as the
/// action left it, and the arena as it goes on.
#[verifier::opaque]
pub open spec fn reads_on(a: Moment, reply: Reply, b: Moment) -> bool {
    &&& a.arena.wf()
    &&& a.arena.expects(reply)
    &&& !(reply is Failed)
    &&& a.arena.confined(a.disk, b.disk)
    &&& a.arena.answered(b.disk, reply)
    &&& a.arena.read_resumed(reply, b.arena)
}

/// The steps of a read with true replies.
pub open spec fn reading(m: Seq<Moment>, replies: Seq<Reply>) -> bool {
    &&& m.len() == replies.len() + 1
    &&& forall|i: int|
        0 <= i < replies.len() ==> reads_on(m[i], #[trigger] replies[i], m[i + 1])
}

/// What one such step leaves of a damaged block, and what it reports.
pub open spec fn met(
    a: Moment,
    reply: Reply,
    b: Moment,
    block: int,
    start: u64,
    len: int,
) -> bool {
    &&& b.arena.sb == a.arena.sb
    &&& b.disk.len() == a.disk.len()
    &&& b.arena.checksums[block] == a.arena.checksums[block]
    &&& spoilt(b.arena, b.disk, block)
    &&& match a.arena.load_error(reply) {
        None => stuck_before(b.arena, b.disk, block, start, len),
        Some(e) => {
            &&& b.arena.idle()
            &&& e matches LoomError::Corrupt { block: k, expected, actual }
            &&& a.arena.sought() == Some(k as int)
            &&& !a.arena.checks_out(b.disk, k as int)
            &&& expected == a.arena.checksums[k as int]
            &&& actual == checksum_of(a.arena.on_disk(b.disk, k as int))
            &&& only_damage(a.arena, b.disk, block, start, len) ==> k == block
        },
    }
}

proof fn lemma_met(
    a: Moment,
    reply: Reply,
    b: Moment,
    block: int,
    start: u64,
    len: int,
    p: int,
)
    requires
        reads_on(a, reply, b),
        stuck_before(a.arena, a.disk, block, start, len),
        a.disk.len() == a.arena.sb.file_end(),
        0 <= p < len,
        touches(a.arena.bs(), start, p, block),
    ensures
        met(a, reply, b, block, start, len),
{
    reveal(reads_on);
    lemma_action_beside(a.arena, a.disk, b.disk, block);
    law_damage_is_reported(a.arena, b.disk, reply, block, start, len, p, b.arena);
}

/// No step of the read before the last one found a block corrupt.
pub open spec fn so_far_good(m: Seq<Moment>, replies: Seq<Reply>) -> bool {
    forall|i: int|
        0 <= i < replies.len() - 1 ==> m[i].arena.load_error(#[trigger] replies[i]) is None
}

/// Whatever steps it takes, a read that touches a damaged block never
/// completes, copies no byte of the block and does not let it into RAM. The
/// error it ends with names a block that it waited for and that is damaged:
/// this one, if it touches no other.
pub proof fn law_damaged_block_is_never_read(
    m: Seq<Moment>,
    replies: Seq<Reply>,
    b: int,
    start: u64,
    len: int,
    p: int,
)
    requires
        reading(m, replies),
        replies.len() > 0,
        so_far_good(m, replies),
        stuck_before(m[0].arena, m[0].disk, b, start, len),
        m[0].disk.len() == m[0].arena.sb.file_end(),
        0 <= p < len,
        touches(m[0].arena.bs(), start, p, b),
    ensures
        met(m[m.len() - 2], replies.last(), m.last(), b, start, len),
        m.last().arena.sb == m[0].arena.sb,
        m.last().disk.len() == m[0].disk.len(),
        m.last().arena.checksums[b] == m[0].arena.checksums[b],
    decreases replies.len(),
{
    let n = replies.len() - 1;
    if n > 0 {
        let m1 = m.drop_last();
        let r1 = replies.drop_last();
        assert forall|i: int| 0 <= i < r1.len() implies reads_on(
            m1[i],
            #[trigger] r1[i],
            m1[i + 1],
        ) by {
            assert(r1[i] == replies[i]);
        }
        assert forall|i: int| 0 <= i < r1.len() - 1 implies m1[i].arena.load_error(
            #[trigger] r1[i],
        ) is None by {
            assert(r1[i] == replies[i]);
        }
        law_damaged_block_is_never_read(m1, r1, b, start, len, p);
        assert(m[n - 1].arena.load_error(replies[n - 1]) is None);
    }
    assert(replies[n] == replies.last());
    lemma_met(m[n], replies[n], m[n + 1], b, start, len, p);
}

// ---- across a reopen ----------------------------------------------------

/// The file with other bytes in block `b`, and nothing else changed.
pub open spec fn differs_in(s: ArenaState, disk: Seq<u8>, damaged: Seq<u8>, b: int) -> bool {
    &&& damaged.len() == disk.len()
    &&& forall|i: int|
        0 <= i < disk.len() && !(s.sb.block_start(b) <= i < s.sb.block_start(b) + s.bs())
            ==> #[trigger] damaged[i] == disk[i]
}

/// Damage to a block of a closed pool is there when it is opened again, and
/// every other block is as it was.
pub proof fn law_damage_is_there_after_a_reopen(
    s: ArenaState,
    disk: Seq<u8>,
    damaged: Seq<u8>,
    b: int,
    opts: OpenOptions,
)
    requires
        s.wf(),
        s.durable(disk),
        0 <= b < s.nblocks(),
        s.checksums[b] != UNWRITTEN,
        differs_in(s, disk, damaged, b),
        checksum_of(s.on_disk(damaged, b)) != s.checksums[b],
        frames_for(s.sb, opts) > 0,
        (OpenState::Checksums { opts, sb: s.sb, regions: s.regions }).fits(),
    ensures
        s.durable(damaged),
        ({
            let t = fresh(s.sb, s.regions, s.checksums, opts);
            &&& t.wf()
            &&& t.durable(damaged)
            &&& spoilt(t, damaged, b)
            &&& forall|k: int|
                0 <= k < s.nblocks() && k != b && s.honest(disk, k) ==> #[trigger] alike(
                    s,
                    disk,
                    t,
                    damaged,
                    k,
                )
        }),
{
    let sb = s.sb;
    let t = fresh(s.sb, s.regions, s.checksums, opts);
    lemma_geometry(sb.block_size, sb.capacity, sb.default_budget);
    lemma_fresh(s.sb, s.regions, s.checksums, opts);
    lemma_block_range(sb, b, 1);
    let ck = CHECKSUM_TABLE_OFF as int;
    let rt = REGION_TABLE_OFF as int;
    let end = CHECKSUM_TABLE_OFF + sb.checksum_table_len;
    assert(damaged.subrange(ck, end) =~= disk.subrange(ck, end));
    assert(damaged.subrange(rt, ck) =~= disk.subrange(rt, ck));
    assert(damaged.subrange(0, rt) =~= disk.subrange(0, rt));
    assert forall|k: int| 0 <= k < s.nblocks() && k != b && s.honest(disk, k) implies #[trigger] alike(
        s,
        disk,
        t,
        damaged,
        k,
    ) by {
        lemma_block_range(sb, k, 1);
        let bs = s.bs();
        assert(k * bs + bs <= b * bs || b * bs + bs <= k * bs) by (nonlinear_arith)
            requires
                k != b,
                0 < bs,
        ;
        assert(s.on_disk(damaged, k) =~= s.on_disk(disk, k));
        assert(t.cell(k) == Cell::Cold);
        if s.map[k] != NO_FRAME {
            assert(!s.frames.meta[s.map[k] as int].dirty);
        }
    }
}

/// Once its old bytes are back on disk, a damaged block is as it was.
/// `s` is the arena before the damage, `t` one that met it, with the checksum
/// the block was written with and no copy of it.
pub proof fn law_restored_bytes_are_read_again(
    s: ArenaState,
    disk: Seq<u8>,
    t: ArenaState,
    restored: Seq<u8>,
    b: int,
)
    requires
        0 <= b < s.nblocks(),
        s.map.len() == s.nblocks(),
        t.map.len() == s.nblocks(),
        s.honest(disk, b),
        !(s.cell(b) is Dirty),
        t.sb == s.sb,
        t.checksums[b] == s.checksums[b],
        !t.resident(b),
        t.on_disk(restored, b) == s.on_disk(disk, b),
    ensures
        alike(s, disk, t, restored, b),
{
}

} // verus!
