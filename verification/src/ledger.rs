//! Regions, ranges and accounts: where a region goes and which ranges of it
//! may be used, how far one block of a copy reaches, and what the arena says
//! of itself.

#[allow(unused_imports)]
use crate::arena::{
    alloc_refused, borrowable, in_region, metadata_size, next_free, out_of_bounds, Region,
};
#[allow(unused_imports)]
use crate::error::LoomError;
#[allow(unused_imports)]
use crate::frames::{dirty_frames, dirty_set, law_the_dirty_count_is_exact, FrameMeta, NO_BLOCK};
#[allow(unused_imports)]
use crate::io::{is_write, Action};
#[allow(unused_imports)]
use crate::state::{ArenaState, Wait, NO_FRAME};
#[allow(unused_imports)]
use crate::stats::bumped;
#[allow(unused_imports)]
use crate::steps::{bound_count, lemma_bumped_twice, lemma_split};
#[allow(unused_imports)]
use crate::superblock::{
    lemma_geometry, lemma_rounded_up, lemma_rounded_up_below, region_table, rounded_up,
    superblock_bytes,
};
#[allow(unused_imports)]
use crate::words::bytes_of;
use vstd::prelude::*;

verus! {

// ---- regions ------------------------------------------------------------

/// The next region starts at the first block boundary that is not before the
/// end of the last one, so less than a block is left unused between the two;
/// and a region fits exactly if its bytes do.
pub proof fn law_regions_are_packed(s: ArenaState, len: u64)
    requires
        s.steady(),
        len > 0,
    ensures
        next_free(s) % s.bs() == 0,
        next_free(s) <= s.sb.capacity,
        s.regions.len() == 0 ==> next_free(s) == 0,
        s.regions.len() > 0 ==> {
            let end = s.regions.last().0 + s.regions.last().1;
            end <= next_free(s) < end + s.bs()
        },
        next_free(s) + rounded_up(len as int, s.bs()) <= s.sb.capacity <==> next_free(s) + len
            <= s.sb.capacity,
{
    let bs = s.bs();
    let cap = s.sb.capacity as int;
    lemma_geometry(s.sb.block_size, s.sb.capacity, s.sb.default_budget);
    lemma_rounded_up(len as int, bs);
    if s.regions.len() > 0 {
        let last = s.regions[s.regions.len() - 1];
        assert(last.0 + last.1 <= cap);
        lemma_rounded_up(last.0 + last.1, bs);
        lemma_rounded_up_below(last.0 + last.1, cap, bs);
    } else {
        vstd::arithmetic::div_mod::lemma_small_mod(0, bs as nat);
    }
    let next = next_free(s);
    if next + len <= cap {
        vstd::arithmetic::div_mod::lemma_mod_sub_multiples_vanish(cap, bs);
        assert((cap - next) % bs == 0) by {
            lemma_split(cap, bs);
            lemma_split(next, bs);
            let q = cap / bs - next / bs;
            assert(cap - next == q * bs) by (nonlinear_arith)
                requires
                    cap == cap / bs * bs + 0,
                    next == next / bs * bs + 0,
                    q == cap / bs - next / bs,
            ;
            vstd::arithmetic::div_mod::lemma_mod_multiples_basic(q, bs);
        }
        lemma_rounded_up_below(len as int, cap - next, bs);
    }
}

/// A region is refused for a reason: nothing was asked for, the table is full,
/// or there is less left than was asked for; and what is left is said.
pub proof fn law_refusals_are_true(s: ArenaState, len: u64, e: LoomError)
    requires
        s.steady(),
        alloc_refused(s, len, e),
    ensures
        e is Invalid || e is RegionTableFull || e is Capacity,
        len == 0 ==> e is Invalid,
        e matches LoomError::RegionTableFull { max } ==> max == 4095 && s.regions.len() >= 4095,
        e matches LoomError::Capacity { requested, available } ==> {
            &&& requested == len
            &&& available < len
            &&& next_free(s) + available == s.sb.capacity
        },
        e is Invalid ==> len == 0 || next_free(s) + len > s.sb.capacity,
{
    if len > 0 {
        law_regions_are_packed(s, len);
    }
}

/// A region that was just allocated can be used, all of it and nothing beyond:
/// a range is taken for one of its own exactly if it ends within the length
/// that was asked for. Its neighbours are what they were.
pub proof fn law_a_region_is_its_range(
    s: ArenaState,
    len: u64,
    r: Region,
    off: int,
    n: int,
    other: Region,
)
    requires
        r.id == s.regions.len(),
        r.len == len,
    ensures
        ({
            let t = ArenaState { regions: s.regions.push((r.offset, len)), dirty_meta: true, ..s };
            &&& in_region(t, r, off, n) <==> off + n <= len
            &&& in_region(s, other, off, n) ==> in_region(t, other, off, n)
            &&& !in_region(s, r, off, n)
            &&& in_region(t, other, off, n) && !in_region(s, other, off, n) ==> other == r
        }),
{
    let more = s.regions.push((r.offset, len));
    assert(more[r.id as int] == (r.offset, len));
    if in_region(s, other, off, n) {
        assert(more[other.id as int] == s.regions[other.id as int]);
    }
}

/// The error for an access outside a region says what was asked of what.
pub proof fn law_an_access_outside_is_named(r: Region, off: u64, len: u64)
    ensures
        out_of_bounds(r, off, len) matches LoomError::OutOfBounds {
            region,
            offset,
            len: n,
            region_len,
        } && region == r.id && offset == off && n == len && region_len == r.len,
{
}

// ---- ranges -------------------------------------------------------------

/// One block of a copy: it gets on, never leaves the block it starts in, and
/// stops only at the end of the block or of the copy.
pub proof fn law_a_run_ends_with_its_block(s: ArenaState, at: int, left: int)
    requires
        0 < s.bs(),
        0 <= at,
        0 < left,
    ensures
        0 < s.run_at(at, left) <= left,
        (at + s.run_at(at, left) - 1) / s.bs() == at / s.bs(),
        s.run_at(at, left) == left || (at + s.run_at(at, left)) % s.bs() == 0,
{
    let bs = s.bs();
    let n = s.run_at(at, left);
    lemma_split(at, bs);
    let q = at / bs;
    let r = at % bs;
    vstd::arithmetic::div_mod::lemma_fundamental_div_mod_converse(at + n - 1, bs, q, r + n - 1);
    if n < left {
        assert(at + n == (q + 1) * bs) by (nonlinear_arith)
            requires
                at == q * bs + r,
                n == bs - r,
        ;
        vstd::arithmetic::div_mod::lemma_mod_multiples_basic(q + 1, bs);
    }
}

/// A copy overwrites the block it is at whole exactly if it starts at the
/// block's first byte and reaches its last.
pub proof fn law_whole_blocks_are_covered(s: ArenaState, at: int, left: int)
    requires
        0 < s.bs(),
        0 <= at,
        0 < left,
    ensures
        ({
            let first = at / s.bs() * s.bs();
            &&& s.covers(at, left) <==> at == first && at + left >= first + s.bs()
            &&& s.covers(at, left) ==> s.run_at(at, left) == s.bs()
        }),
{
    lemma_split(at, s.bs());
}

/// A borrow gets as many bytes as can be had in place: at most what was asked
/// for, inside the region, in one block; and it is short only where the region
/// or the block ends.
pub proof fn law_a_borrow_is_as_long_as_can_be(s: ArenaState, r: Region, off: u64, max: usize)
    requires
        0 < s.bs(),
        off < r.len,
        max > 0,
    ensures
        ({
            let n = borrowable(s, r, off, max);
            let at = r.offset + off;
            &&& 0 < n <= max
            &&& off + n <= r.len
            &&& (at + n - 1) / s.bs() == at / s.bs()
            &&& n == max || off + n == r.len || (at + n) % s.bs() == 0
        }),
{
    let left = if max < r.len - off {
        max as int
    } else {
        r.len - off
    };
    law_a_run_ends_with_its_block(s, r.offset + off, left);
}

// ---- accounts -----------------------------------------------------------

/// The blocks in RAM.
pub open spec fn resident_set(s: ArenaState) -> Set<int> {
    Set::new(|b: int| 0 <= b < s.map.len() && s.map[b] != NO_FRAME)
}

/// The frames that hold a block.
pub open spec fn bound_set(meta: Seq<FrameMeta>) -> Set<int> {
    Set::new(|f: int| 0 <= f < meta.len() && meta[f].block != NO_BLOCK)
}

/// They are as many as are counted.
pub proof fn law_bound_frames_are_counted(meta: Seq<FrameMeta>)
    ensures
        bound_set(meta).finite(),
        bound_count(meta) == bound_set(meta).len(),
    decreases meta.len(),
{
    let d = bound_set(meta);
    if meta.len() == 0 {
        assert(d =~= Set::empty());
    } else {
        let less = meta.drop_last();
        let k = meta.len() - 1;
        law_bound_frames_are_counted(less);
        if meta.last().bound() {
            assert(d =~= bound_set(less).insert(k));
            assert(!bound_set(less).contains(k));
        } else {
            assert(d =~= bound_set(less));
        }
    }
}

/// Each of them holds another block: the count is that of the blocks in RAM.
pub proof fn law_resident_blocks_are_counted(s: ArenaState)
    requires
        s.valid(s.held()),
    ensures
        resident_set(s).finite(),
        bound_count(s.frames.meta) == resident_set(s).len(),
        resident_set(s).len() <= s.frames.meta.len(),
{
    let frames = bound_set(s.frames.meta);
    let blocks = resident_set(s);
    let hold = |f: int| s.frames.meta[f].block as int;
    law_bound_frames_are_counted(s.frames.meta);
    assert(frames.map(hold) =~= blocks) by {
        assert forall|b: int| blocks.contains(b) implies #[trigger] frames.map(hold).contains(
            b,
        ) by {
            let f = s.map[b] as int;
            assert(s.frames.meta[f].block == b);
            assert(frames.contains(f) && hold(f) == b);
        }
        assert forall|b: int| #[trigger] frames.map(hold).contains(b) implies blocks.contains(
            b,
        ) by {
            let f = choose|f: int| frames.contains(f) && hold(f) == b;
            assert(s.frames.meta[f].bound());
        }
    }
    assert(vstd::relations::injective_on(hold, frames)) by {
        assert forall|f: int, g: int|
            frames.contains(f) && frames.contains(g) && #[trigger] hold(f) == #[trigger] hold(
                g,
            ) implies f == g by {
            assert(s.frames.meta[f].bound() && s.frames.meta[g].bound());
        }
    }
    vstd::set_lib::lemma_map_size(frames, blocks, hold);
    lemma_few_bound(s.frames.meta);
}

proof fn lemma_few_bound(meta: Seq<FrameMeta>)
    ensures
        bound_count(meta) <= meta.len(),
    decreases meta.len(),
{
    if meta.len() > 0 {
        lemma_few_bound(meta.drop_last());
    }
}

/// Something would be lost if the arena went away: a block whose only copy is
/// in RAM, or a change of the tables.
pub open spec fn at_stake(s: ArenaState) -> bool {
    dirty_frames(s.frames.meta) > 0 || s.dirty_meta
}

/// What is not at stake is safe: the file alone holds everything. Whatever
/// changes a byte or a table puts something at stake.
pub proof fn law_nothing_at_stake_is_durable(s: ArenaState, disk: Seq<u8>, f: u32, bytes: Seq<u8>)
    requires
        s.backed(disk),
        s.frames.has(f),
    ensures
        !at_stake(s) ==> s.durable(disk),
        s.durable(disk) ==> !at_stake(s),
        at_stake(s.rewritten(f, bytes)),
{
    law_the_dirty_count_is_exact(s.frames.meta);
    let d = dirty_set(s.frames.meta);
    if dirty_frames(s.frames.meta) == 0 {
        assert forall|g: int| 0 <= g < s.frames.meta.len() implies !(
        #[trigger] s.frames.meta[g]).dirty by {
            if s.frames.meta[g].dirty {
                assert(d.contains(g));
                assert(d.remove(g).len() < d.len());
            }
        }
    }
    if s.all_clean() {
        assert(d =~= Set::empty());
    }
    let t = s.rewritten(f, bytes);
    law_the_dirty_count_is_exact(t.frames.meta);
    let e = dirty_set(t.frames.meta);
    assert(e.contains(f as int));
    assert(e.remove(f as int).len() < e.len());
}

/// How many of the frames from `lo` up to `hi` hold a block.
pub open spec fn bound_between(meta: Seq<FrameMeta>, lo: int, hi: int) -> nat
    decreases hi - lo,
{
    if hi <= lo {
        0
    } else {
        bound_between(meta, lo, hi - 1) + if meta[hi - 1].block != NO_BLOCK {
            1nat
        } else {
            0nat
        }
    }
}

/// Emptying a row of frames empties exactly those, and counts an eviction for
/// each of them that held a block.
pub proof fn law_emptied_frames_are_counted(s: ArenaState, lo: int, hi: int, g: int)
    requires
        0 <= lo <= hi <= s.frames.meta.len() <= u32::MAX,
        0 <= g < s.frames.meta.len(),
    ensures
        ({
            let t = s.emptied(lo, hi);
            &&& t.frames.meta.len() == s.frames.meta.len()
            &&& t.stats.evictions == bumped(
                s.stats.evictions,
                bound_between(s.frames.meta, lo, hi) as int,
            )
            &&& lo <= g < hi ==> t.frames.meta[g].block == NO_BLOCK
            &&& !(lo <= g < hi) ==> t.frames.meta[g] == s.frames.meta[g]
            &&& t.frames.data == s.frames.data
            &&& t.frames.free.len() == s.frames.free.len() + bound_between(s.frames.meta, lo, hi)
            &&& t.stats.writebacks == s.stats.writebacks
            &&& t.checksums == s.checksums
        }),
    decreases hi - lo,
{
    if lo < hi {
        law_emptied_frames_are_counted(s, lo, hi - 1, g);
        law_emptied_frames_are_counted(s, lo, hi - 1, hi - 1);
        lemma_bumped_twice(
            s.stats.evictions,
            bound_between(s.frames.meta, lo, hi - 1) as int,
            1,
        );
    } else {
        vstd::arithmetic::div_mod::lemma_small_mod(
            s.stats.evictions as nat,
            0x1_0000_0000_0000_0000,
        );
    }
}

/// The order in which a sync writes the tables: the checksums, the regions,
/// and last the header, which is at the start of the file.
pub proof fn law_the_header_is_written_last(s: ArenaState, stage: int, a: Action)
    requires
        s.wait == (Wait::Table { stage }),
        s.asks(a),
        0 <= stage <= 2,
    ensures
        stage == 0 ==> is_write(a, 69632, bytes_of(s.checksums)),
        stage == 1 ==> is_write(a, 4096, region_table(s.regions)),
        stage == 2 ==> is_write(a, 0, superblock_bytes(s.sb)),
{
}

/// What the bookkeeping takes adds up: twelve bytes per block at least, a
/// fixed amount more per frame, and a buffer of one block per block of a
/// speculative read, if there are such reads.
pub proof fn law_metadata_adds_up(s: ArenaState, t: ArenaState)
    requires
        s.steady(),
        t == (ArenaState { prefetch_depth: 0, ..s }),
        metadata_size(s) < u64::MAX,
        vstd::layout::size_of::<FrameMeta>() <= usize::MAX,
    ensures
        metadata_size(s) >= 12 * s.sb.nblocks + 65536 + s.frames.count() * vstd::layout::size_of::<
            FrameMeta,
        >(),
        metadata_size(s) == metadata_size(t) + if s.prefetch_depth >= 2 {
            s.prefetch_depth * s.bs()
        } else {
            0
        },
{
    lemma_geometry(s.sb.block_size, s.sb.capacity, s.sb.default_budget);
    let n = s.frames.count() as int;
    let w = vstd::layout::size_of::<FrameMeta>() as int;
    let d = s.prefetch_depth as int;
    let bs = s.bs();
    assert(0 <= n * w <= 0xffff_ffff * 0xffff_ffff_ffff_ffff) by (nonlinear_arith)
        requires
            0 <= n <= 0xffff_ffff,
            0 <= w <= 0xffff_ffff_ffff_ffff,
    ;
    assert(0 <= d * bs <= 0xffff_ffff * 0xffff_ffff) by (nonlinear_arith)
        requires
            0 <= d <= 0xffff_ffff,
            0 <= bs <= 0xffff_ffff,
    ;
}

// ---- syncs --------------------------------------------------------------

/// A sync goes on in this order: a dirty frame, the lowest there is; when none
/// is left, the tables if they changed; then stable storage, and only then.
pub proof fn law_a_sync_goes_in_order(s: ArenaState, from: int, after: ArenaState)
    requires
        s.sync_next(from, after),
        0 <= from,
    ensures
        after.job == s.job,
        after.frames == s.frames,
        after.dirty_meta == s.dirty_meta,
        after.wait is Flush || after.wait is Table || after.wait is Barrier,
        after.wait matches Wait::Flush { frame } ==> {
            &&& from <= frame < s.frames.meta.len()
            &&& s.frames.meta[frame as int].dirty
            &&& forall|f: int| from <= f < frame ==> !(#[trigger] s.frames.meta[f]).dirty
        },
        !(after.wait is Flush) ==> forall|f: int|
            from <= f < s.frames.meta.len() ==> !(#[trigger] s.frames.meta[f]).dirty,
        after.wait matches Wait::Table { stage } ==> stage == 0 && s.dirty_meta,
        after.wait is Barrier ==> !s.dirty_meta,
{
    if !s.clean_between(from, s.frames.count() as int) {
        let f = choose|f: u32| #[trigger]
            s.first_dirty(from, f as int) && after == s.waiting(Wait::Flush { frame: f });
        assert(s.first_dirty(from, f as int));
    }
}

/// A sync ends well only behind a barrier: every writeback and every table is
/// followed by another step, the last table by the barrier, and the tables
/// count as written only then.
pub proof fn law_a_sync_ends_with_a_barrier(
    pre: ArenaState,
    reply: crate::io::Reply,
    post: ArenaState,
)
    requires
        pre.wf(),
        pre.job is Sync,
        pre.sync_resumed(reply, post),
    ensures
        reply is Done && post.job is Idle ==> pre.wait is Barrier && !post.dirty_meta,
        reply is Done && pre.wait is Flush ==> post.wait is Flush || post.wait is Table
            || post.wait is Barrier,
        reply is Done ==> (pre.wait matches Wait::Table { stage } ==> (stage < 2 ==> post.wait == (
        Wait::Table { stage: stage + 1 }) && post.dirty_meta) && (stage == 2 ==> post.wait is Barrier
            && !post.dirty_meta)),
        reply is Done && pre.wait is Barrier ==> post.job is Idle && post.wait is Nothing,
        !(reply is Done) ==> post.job is Idle && post.dirty_meta == pre.dirty_meta && post.frames
            == pre.frames,
{
    let s = pre.waiting(Wait::Nothing);
    if reply is Done {
        if let Wait::Flush { frame } = pre.wait {
            let t = choose|t: ArenaState| #[trigger]
                s.flushed(frame, t) && t.sync_next(frame + 1, post);
            law_a_sync_goes_in_order(t, frame + 1, post);
        }
    }
}

/// In a new arena low frames are handed out first: the one handed out after
/// `k` others is frame `k`.
pub proof fn law_low_frames_go_first(
    sb: crate::superblock::Superblock,
    regions: Seq<(u64, u64)>,
    checksums: Seq<u64>,
    budget: u64,
    n: nat,
    depth: nat,
    k: int,
)
    requires
        0 <= k < n <= u32::MAX,
    ensures
        ({
            let free = crate::arena::empty_arena(sb, regions, checksums, budget, n, depth).frames.free;
            &&& free.len() == n
            &&& free.take(n - k).last() == k
        }),
{
}


/// Each unit is 1024 of the one before it, a block is 64 of the first unless
/// another size is asked for, and a usual speculative read of such blocks is
/// one of the second.
pub proof fn law_units_are_binary()
    ensures
        crate::KIB == 1024,
        crate::MIB == 1024 * crate::KIB,
        crate::GIB == 1024 * crate::MIB,
        crate::DEFAULT_BLOCK_SIZE == 64 * crate::KIB,
        crate::arena::DEFAULT_PREFETCH_DEPTH * crate::DEFAULT_BLOCK_SIZE == crate::MIB,
{
}

} // verus!
