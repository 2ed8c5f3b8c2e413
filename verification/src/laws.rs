//! What holds of the arena as a whole.
//!
//! The contracts of the arena's operations speak of one step at a time. The
//! laws here say what every step keeps, what a reopen sees after a sync, and
//! what can never enter RAM; [`crate::runs`] puts steps together.

use crate::arena::{copied_out, next_free, OpenOptions};
use crate::bytes::repeated;
use crate::checksum::{checksum_of, UNWRITTEN};
use crate::error::LoomError;
use crate::frames::FrameMeta;
use crate::io::{carried_out, Action, Reply};
use crate::opening::{budget_for, creation, depth_for, frames_for, fresh, lemma_fresh, OpenState};
use crate::state::{claimed_frames, linked, regions_fit, ArenaState, Cell, Job, Wait, NO_FRAME};
use crate::stats::lemma_measured;
use crate::steps::{
    alike, bound_count, keeps, keeps_given, law_resident_count, law_writes_are_confined,
    lemma_block_of, lemma_bound, lemma_evicted, lemma_flushed, lemma_popped, lemma_released,
    lemma_same_cells, lemma_same_holdings, lemma_scratched, lemma_skip_holds, lemma_swept,
    lemma_touched, same_cells_but, same_ground, without,
};
use crate::superblock::{
    claimed_regions, law_regions_roundtrip, law_superblock_roundtrip, lemma_geometry,
    lemma_header_len, lemma_rounded_up, lemma_rounded_up_below, listed_regions, read_header,
    region_table, rounded_up, superblock_bytes, Header, Superblock, CHECKSUM_TABLE_OFF,
    MAX_REGIONS, REGION_TABLE_LEN, REGION_TABLE_OFF,
};
use crate::words::{law_words_roundtrip, lemma_zero_words, words_of};
use vstd::prelude::*;

verus! {

// ---- reads and writes ---------------------------------------------------

/// The file is a pool's before and after, and every block that RAM and file
/// agreed about has the same content, and they still agree. (About a block
/// that was damaged on disk nothing is said, and nothing follows from it for
/// the others.)
pub open spec fn same_content(
    pre: ArenaState,
    disk: Seq<u8>,
    post: ArenaState,
    disk2: Seq<u8>,
) -> bool {
    &&& post.sb == pre.sb
    &&& post.backed(disk2)
    &&& forall|b: int|
        0 <= b < pre.nblocks() && pre.honest(disk, b) ==> #[trigger] alike(
            pre,
            disk,
            post,
            disk2,
            b,
        )
}

/// Between an action and its reply, whatever the driver does inside the
/// range the arena gave it leaves the content as it was.
pub proof fn law_action_keeps_content(s: ArenaState, disk: Seq<u8>, disk2: Seq<u8>)
    requires
        s.steady(),
        s.backed(disk),
        s.confined(disk, disk2),
    ensures
        same_content(s, disk, s, disk2),
{
    law_writes_are_confined(s, disk, disk2);
}

/// A step of a read, a search, a sync or an eviction leaves the content as it
/// was, given a true reply.
pub proof fn law_step_keeps_content(
    pre: ArenaState,
    disk: Seq<u8>,
    reply: Reply,
    post: ArenaState,
)
    requires
        pre.steady(),
        pre.backed(disk),
        pre.answered(disk, reply),
        post.sb == pre.sb,
        keeps_given(pre, reply, post, -1),
    ensures
        same_content(pre, disk, post, disk),
{
}

/// So does the start of one.
pub proof fn law_start_keeps_content(pre: ArenaState, disk: Seq<u8>, post: ArenaState)
    requires
        pre.steady(),
        pre.backed(disk),
        post.sb == pre.sb,
        keeps(pre, post, -1),
    ensures
        same_content(pre, disk, post, disk),
{
}

/// Any number of such steps leaves the content as it was.
pub proof fn law_same_content_adds_up(
    a: ArenaState,
    disk: Seq<u8>,
    b: ArenaState,
    disk2: Seq<u8>,
    c: ArenaState,
    disk3: Seq<u8>,
)
    requires
        same_content(a, disk, b, disk2),
        same_content(b, disk2, c, disk3),
    ensures
        same_content(a, disk, c, disk3),
{
    assert forall|k: int| 0 <= k < a.nblocks() && a.honest(disk, k) implies #[trigger] alike(
        a,
        disk,
        c,
        disk3,
        k,
    ) by {
        assert(alike(a, disk, b, disk2, k));
        assert(alike(b, disk2, c, disk3, k));
    }
}

/// So does an allocation.
pub proof fn law_allocation_keeps_content(
    pre: ArenaState,
    disk: Seq<u8>,
    region: (u64, u64),
    post: ArenaState,
)
    requires
        pre.steady(),
        pre.idle(),
        pre.wait is Nothing,
        pre.backed(disk),
        post == (ArenaState { regions: pre.regions.push(region), dirty_meta: true, ..pre }),
    ensures
        same_content(pre, disk, post, disk),
{
    assert forall|b: int| 0 <= b < pre.nblocks() && pre.honest(disk, b) implies #[trigger] alike(
        pre,
        disk,
        post,
        disk,
        b,
    ) by {
        assert(post.cell(b) == pre.cell(b));
    }
}

/// A read that takes several steps reads what its steps read.
pub proof fn law_read_steps_add_up(
    a: ArenaState,
    disk: Seq<u8>,
    b: ArenaState,
    disk2: Seq<u8>,
    start: int,
    from: int,
    mid: int,
    to: int,
    buf0: Seq<u8>,
    buf1: Seq<u8>,
    buf2: Seq<u8>,
)
    requires
        a.steady(),
        0 <= start,
        0 <= from <= mid <= to <= buf0.len(),
        start + buf0.len() <= a.sb.capacity,
        same_content(a, disk, b, disk2),
        copied_out(a, disk, start, from, mid, buf0, buf1),
        copied_out(b, disk2, start, mid, to, buf1, buf2),
    ensures
        copied_out(a, disk, start, from, to, buf0, buf2),
{
    assert forall|i: int|
        #![trigger buf2[i]]
        0 <= i < buf0.len() implies if from <= i < to {
        a.honest(disk, (start + i) / a.bs()) ==> buf2[i] == a.byte(disk, start + i)
    } else {
        buf2[i] == buf0[i]
    } by {
        let was = buf1[i];
        lemma_block_of(a, a.held(), start + i);
        if mid <= i < to && a.honest(disk, (start + i) / a.bs()) {
            assert(alike(a, disk, b, disk2, (start + i) / a.bs()));
        }
    }
}

// ---- durability ---------------------------------------------------------

/// A sync that is ready leaves a file that alone holds everything, given true
/// replies.
pub proof fn law_synced_is_durable(
    pre: ArenaState,
    disk: Seq<u8>,
    reply: Reply,
    post: ArenaState,
)
    requires
        pre.wf(),
        pre.job is Sync,
        pre.wait is Barrier,
        reply is Done,
        pre.backed(disk),
        pre.answered(disk, reply),
        pre.sync_resumed(reply, post),
    ensures
        post.idle(),
        post.durable(disk),
        same_content(pre, disk, post, disk),
{
    assert(post == pre.waiting(Wait::Nothing).doing(Job::Idle));
    lemma_same_cells(pre, post, -1);
    law_start_keeps_content(pre, disk, post);
}

/// After a sync, the file alone holds everything: opening it gives an arena
/// with the same regions and the same content.
pub proof fn law_reopen_sees_everything(s: ArenaState, disk: Seq<u8>, opts: OpenOptions)
    requires
        s.wf(),
        s.durable(disk),
        frames_for(s.sb, opts) > 0,
        (OpenState::Checksums { opts, sb: s.sb, regions: s.regions }).fits(),
    ensures
        read_header(disk.subrange(0, REGION_TABLE_OFF as int)) == Header::Valid(s.sb),
        disk.len() == s.sb.file_end(),
        ({
            let table = disk.subrange(REGION_TABLE_OFF as int, CHECKSUM_TABLE_OFF as int);
            &&& table.len() == REGION_TABLE_LEN
            &&& claimed_regions(table) <= MAX_REGIONS
            &&& listed_regions(table) == s.regions
            &&& regions_fit(s.regions, s.sb.capacity)
        }),
        ({
            let table = disk.subrange(
                CHECKSUM_TABLE_OFF as int,
                CHECKSUM_TABLE_OFF + s.sb.checksum_table_len,
            );
            let t = fresh(s.sb, s.regions, words_of(table), opts);
            &&& t.wf()
            &&& t.durable(disk)
            &&& same_content(s, disk, t, disk)
        }),
{
    lemma_geometry(s.sb.block_size, s.sb.capacity, s.sb.default_budget);
    law_regions_roundtrip(s.regions);
    law_words_roundtrip(s.checksums);
    let t = fresh(s.sb, s.regions, s.checksums, opts);
    lemma_fresh(s.sb, s.regions, s.checksums, opts);
    assert forall|b: int| 0 <= b < s.nblocks() && s.honest(disk, b) implies #[trigger] alike(
        s,
        disk,
        t,
        disk,
        b,
    ) by {
        assert(t.cell(b) == Cell::Cold);
        if s.map[b] != NO_FRAME {
            assert(!s.frames.meta[s.map[b] as int].dirty);
        }
    }
}

/// The file after a pool was created in it.
pub open spec fn created(sb: Superblock, disk: Seq<u8>) -> bool {
    &&& disk.len() == sb.file_end()
    &&& disk.subrange(0, REGION_TABLE_OFF as int) == superblock_bytes(sb)
    &&& disk.subrange(REGION_TABLE_OFF as int, CHECKSUM_TABLE_OFF as int) == region_table(
        Seq::empty(),
    )
    &&& disk.subrange(CHECKSUM_TABLE_OFF as int, sb.data_off as int) == repeated(
        0,
        sb.checksum_table_len as nat,
    )
}

/// Carrying out the plan of a creation, in order, on an empty file creates
/// the pool.
pub proof fn law_plan_creates(sb: Superblock, plan: Seq<Action>)
    requires
        sb.wf(),
        sb.file_end() <= u64::MAX,
        creation(sb, plan),
    ensures
        created(
            sb,
            carried_out(
                carried_out(carried_out(carried_out(Seq::empty(), plan[0]), plan[1]), plan[2]),
                plan[3],
            ),
        ),
{
    lemma_geometry(sb.block_size, sb.capacity, sb.default_budget);
    lemma_header_len(sb);
    law_regions_roundtrip(Seq::empty());
    let d0 = carried_out(Seq::empty(), plan[0]);
    let d1 = carried_out(d0, plan[1]);
    let d2 = carried_out(d1, plan[2]);
    assert(d0.len() == sb.file_end());
    assert(d1.subrange(0, REGION_TABLE_OFF as int) =~= superblock_bytes(sb));
    assert(d2.subrange(0, REGION_TABLE_OFF as int) =~= superblock_bytes(sb));
    assert(d2.subrange(REGION_TABLE_OFF as int, CHECKSUM_TABLE_OFF as int) =~= region_table(
        Seq::empty(),
    ));
    assert(d2.subrange(CHECKSUM_TABLE_OFF as int, sb.data_off as int) =~= repeated(
        0,
        sb.checksum_table_len as nat,
    ));
}

/// A created pool opens to an arena without regions in which every byte is
/// zero.
pub proof fn law_created_pool_is_zeros(sb: Superblock, disk: Seq<u8>, opts: OpenOptions)
    requires
        sb.wf(),
        sb.file_end() <= u64::MAX,
        sb.nblocks <= usize::MAX,
        sb.checksum_table_len <= isize::MAX,
        created(sb, disk),
        frames_for(sb, opts) > 0,
        (OpenState::Checksums { opts, sb, regions: Seq::empty() }).fits(),
    ensures
        read_header(disk.subrange(0, REGION_TABLE_OFF as int)) == Header::Valid(sb),
        listed_regions(
            disk.subrange(REGION_TABLE_OFF as int, CHECKSUM_TABLE_OFF as int),
        ) == Seq::<(u64, u64)>::empty(),
        ({
            let table = disk.subrange(
                CHECKSUM_TABLE_OFF as int,
                CHECKSUM_TABLE_OFF + sb.checksum_table_len,
            );
            let t = fresh(sb, Seq::empty(), words_of(table), opts);
            &&& t.wf()
            &&& t.durable(disk)
            &&& t.sound(disk)
            &&& forall|a: int| 0 <= a < sb.capacity ==> #[trigger] t.byte(disk, a) == 0
        }),
{
    lemma_geometry(sb.block_size, sb.capacity, sb.default_budget);
    law_superblock_roundtrip(sb);
    law_regions_roundtrip(Seq::empty());
    let n = (sb.checksum_table_len / 8) as nat;
    lemma_zero_words(n);
    let zeros = Seq::new(n, |i: int| 0u64);
    let t = fresh(sb, Seq::empty(), zeros, opts);
    lemma_fresh(sb, Seq::empty(), zeros, opts);
    assert forall|b: int| 0 <= b < t.nblocks() implies #[trigger] t.honest(disk, b) by {
        assert(t.cell(b) == Cell::Cold);
        assert(t.checksums[b] == UNWRITTEN);
    }
    assert forall|a: int| 0 <= a < sb.capacity implies #[trigger] t.byte(disk, a) == 0 by {
        lemma_block_of(t, Seq::empty(), a);
        assert(t.checksums[a / t.bs()] == UNWRITTEN);
    }
}

// ---- limits -------------------------------------------------------------

/// The bytes of all blocks in RAM never exceed the budget.
pub proof fn law_hot_bytes_within_budget(s: ArenaState)
    requires
        s.steady(),
        s.wait is Nothing,
    ensures
        bound_count(s.frames.meta) * s.bs() <= s.frames.count() * s.bs(),
        s.frames.count() * s.bs() <= s.budget,
{
    law_resident_count(s);
    vstd::arithmetic::mul::lemma_mul_inequality(
        bound_count(s.frames.meta) as int,
        s.frames.count() as int,
        s.bs(),
    );
}

/// A speculative read is never planned over more than a quarter of the pool.
pub proof fn law_speculation_is_bounded(sb: Superblock, opts: OpenOptions)
    requires
        sb.wf(),
    ensures
        4 * depth_for(sb, opts) <= frames_for(sb, opts),
        opts.prefetch_depth == Some(0usize) ==> depth_for(sb, opts) <= 0,
{
    vstd::arithmetic::div_mod::lemma_div_pos_is_pos(
        budget_for(sb, opts) as int,
        sb.block_size as int,
    );
}

// ---- regions ------------------------------------------------------------

/// Every region starts at a block boundary, behind the whole blocks of the
/// one before it.
pub open spec fn stacked(regions: Seq<(u64, u64)>, bs: int) -> bool {
    &&& forall|i: int| 0 <= i < regions.len() ==> (#[trigger] regions[i]).0 as int % bs == 0
    &&& forall|i: int, j: int| 0 <= i < j < regions.len() ==> rounded_up(
        (#[trigger] regions[i]).0 + regions[i].1,
        bs,
    ) <= (#[trigger] regions[j]).0
}

/// Allocation stacks regions: the next one starts at a block boundary, shares
/// no block with any before it, and ends inside the arena.
pub proof fn law_regions_stack(s: ArenaState, len: u64)
    requires
        s.steady(),
        stacked(s.regions, s.bs()),
        len > 0,
        next_free(s) + rounded_up(len as int, s.bs()) <= s.sb.capacity,
    ensures
        stacked(s.regions.push((next_free(s) as u64, len)), s.bs()),
        next_free(s) + len <= s.sb.capacity,
{
    let bs = s.bs();
    let n = s.regions.len() as int;
    lemma_rounded_up(len as int, bs);
    if n > 0 {
        let last = s.regions[n - 1];
        assert(last.0 + last.1 <= s.sb.capacity);
        lemma_rounded_up(last.0 + last.1, bs);
        lemma_rounded_up_below(last.0 + last.1, s.sb.capacity as int, bs);
        assert forall|i: int| 0 <= i < n implies rounded_up(
            (#[trigger] s.regions[i]).0 + s.regions[i].1,
            bs,
        ) <= next_free(s) by {
            if i < n - 1 {
                assert(rounded_up(s.regions[i].0 + s.regions[i].1, bs) <= s.regions[n - 1].0);
            }
        }
    }
    let next = next_free(s) as u64;
    let more = s.regions.push((next, len));
    assert(next == next_free(s));
    if n == 0 {
        vstd::arithmetic::div_mod::lemma_mod_self_0(bs);
        vstd::arithmetic::div_mod::lemma_small_mod(0, bs as nat);
    }
    assert(next as int % bs == 0);
    assert forall|i: int| 0 <= i < more.len() implies (#[trigger] more[i]).0 as int % bs == 0 by {
        if i < n {
            assert(more[i] == s.regions[i]);
        }
    }
    assert forall|i: int, j: int| 0 <= i < j < more.len() implies rounded_up(
        (#[trigger] more[i]).0 + more[i].1,
        bs,
    ) <= (#[trigger] more[j]).0 by {
        assert(more[i] == s.regions[i]);
        if j < n {
            assert(more[j] == s.regions[j]);
        }
    }
}

/// Stacked regions do not overlap, not even in their blocks.
pub proof fn law_stacked_regions_are_disjoint(
    regions: Seq<(u64, u64)>,
    bs: int,
    i: int,
    j: int,
    a: int,
)
    requires
        0 < bs,
        stacked(regions, bs),
        0 <= i < j < regions.len(),
        regions[i].0 <= a < regions[i].0 + regions[i].1,
    ensures
        a < regions[j].0,
        a / bs < regions[j].0 as int / bs,
{
    let end = regions[i].0 + regions[i].1;
    lemma_rounded_up(end, bs);
    let up = rounded_up(end, bs);
    assert(up <= regions[j].0);
    vstd::arithmetic::div_mod::lemma_fundamental_div_mod(a, bs);
    vstd::arithmetic::div_mod::lemma_mod_bound(a, bs);
    vstd::arithmetic::div_mod::lemma_fundamental_div_mod(regions[j].0 as int, bs);
    let p = a / bs;
    let q = regions[j].0 as int / bs;
    assert(p < q) by (nonlinear_arith)
        requires
            0 < bs,
            bs * p <= a,
            a < bs * q,
    ;
}

// ---- integrity ----------------------------------------------------------

/// What a clean frame holds for block `b` is what the checksum table says it
/// must be: bytes with the stored checksum, or zeros if it was never written.
pub open spec fn vetted(s: ArenaState, b: int) -> bool {
    s.cell(b) matches Cell::Clean(v) ==> if s.checksums[b] == UNWRITTEN {
        v == repeated(0, s.bs() as nat)
    } else {
        checksum_of(v) == s.checksums[b]
    }
}

/// Every clean frame holds vetted bytes, except perhaps that of block `x`.
pub open spec fn all_vetted_but(s: ArenaState, x: int) -> bool {
    forall|b: int| 0 <= b < s.nblocks() && b != x ==> #[trigger] vetted(s, b)
}

/// Cells and checksums decide.
proof fn lemma_vetted_same(pre: ArenaState, post: ArenaState, x: int)
    requires
        all_vetted_but(pre, -1),
        post.sb == pre.sb,
        post.checksums == pre.checksums,
        same_cells_but(pre, post, x),
    ensures
        all_vetted_but(post, x),
{
    assert forall|b: int| 0 <= b < post.nblocks() && b != x implies #[trigger] vetted(post, b) by {
        assert(vetted(pre, b));
        assert(post.cell(b) == pre.cell(b));
    }
}

/// A frame bound to vetted bytes.
proof fn lemma_vetted_bound(
    pre: ArenaState,
    held: Seq<u32>,
    f: u32,
    bytes: Seq<u8>,
    m: FrameMeta,
    rest: Seq<u32>,
    post: ArenaState,
)
    requires
        pre.valid(held),
        pre.wait is Nothing,
        pre.frames.has(f),
        held.contains(f),
        without(held, f, rest),
        m.block < pre.sb.nblocks,
        !pre.resident(m.block as int),
        bytes.len() == pre.sb.block_size,
        !m.dirty,
        all_vetted_but(pre, -1),
        post.map == pre.bound_to(f, bytes, m).map,
        post.frames == pre.bound_to(f, bytes, m).frames,
        post.sb == pre.sb,
        post.checksums == pre.checksums,
    ensures
        all_vetted_but(post, m.block as int),
        (if pre.checksums[m.block as int] == UNWRITTEN {
            bytes == repeated(0, pre.bs() as nat)
        } else {
            checksum_of(bytes) == pre.checksums[m.block as int]
        }) ==> all_vetted_but(post, -1),
{
    let b = m.block as int;
    lemma_bound(pre, held, f, bytes, m, rest);
    assert forall|c: int| 0 <= c < pre.nblocks() && c != b implies #[trigger] post.cell(c)
        == pre.cell(c) by {
        assert(pre.bound_to(f, bytes, m).cell(c) == pre.cell(c));
    }
    lemma_vetted_same(pre, post, b);
    assert(post.cell(b) == pre.bound_to(f, bytes, m).cell(b));
    if (if pre.checksums[b] == UNWRITTEN {
        bytes == repeated(0, pre.bs() as nat)
    } else {
        checksum_of(bytes) == pre.checksums[b]
    }) {
        assert forall|c: int| 0 <= c < post.nblocks() && c != -1 implies #[trigger] vetted(
            post,
            c,
        ) by {
            if c != b {
                assert(all_vetted_but(post, b));
            }
        }
    }
}

/// A list of one id.
pub proof fn lemma_one_held(f: u32)
    ensures
        seq![f].contains(f),
        without(seq![f], f, Seq::empty()),
{
    let held: Seq<u32> = seq![f];
    let rest: Seq<u32> = Seq::empty();
    assert(held[0] == f);
    assert forall|g: u32| #[trigger] rest.contains(g) <==> (held.contains(g) && g != f) by {}
}

/// Serving the first `n` claims of a speculative read, whatever was read.
pub proof fn lemma_admitted(
    s: ArenaState,
    first: int,
    count: int,
    bytes: Seq<u8>,
    claimed: Seq<(u64, u32)>,
    n: int,
)
    requires
        s.valid(claimed_frames(claimed)),
        s.wait is Nothing,
        0 <= first,
        first + count <= s.nblocks(),
        bytes.len() == count * s.bs(),
        s.good_claim(first, count, claimed),
        0 <= n <= claimed.len(),
    ensures
        ({
            let t = s.admitted(first, bytes, claimed, n);
            &&& t.valid(claimed_frames(claimed).skip(n))
            &&& same_ground(s, t)
            &&& t.wait is Nothing
            &&& forall|k: int|
                n <= k < claimed.len() ==> !t.resident((#[trigger] claimed[k]).0 as int)
            &&& forall|b: int| #[trigger] s.resident(b) ==> s.stays(b, t)
            &&& all_vetted_but(s, -1) ==> all_vetted_but(t, -1)
        }),
    decreases n,
{
    let ids = claimed_frames(claimed);
    if n == 0 {
        assert(ids.skip(0) =~= ids);
    } else {
        lemma_admitted(s, first, count, bytes, claimed, n - 1);
        let t = s.admitted(first, bytes, claimed, n - 1);
        let u = s.admitted(first, bytes, claimed, n);
        let (b, f) = claimed[n - 1];
        let held = ids.skip(n - 1);
        let rest = ids.skip(n);
        let m = FrameMeta { block: b, dirty: false, referenced: false, prefetched: true };
        assert(held[0] == f);
        assert(held.contains(f));
        lemma_skip_holds(held);
        assert(held.skip(1) =~= rest);
        let read = t.read_of(first, bytes, b as int);
        let k = b - first;
        let bs = s.bs();
        assert(0 <= k * bs && k * bs + bs <= count * bs) by (nonlinear_arith)
            requires
                0 <= k < count,
                0 <= bs,
        ;
        assert(read.len() == bs);
        assert(!t.resident(b as int));
        if t.checksums[b as int] != UNWRITTEN && checksum_of(read) != t.checksums[b as int] {
            lemma_released(t, held, f, rest);
            if all_vetted_but(s, -1) {
                lemma_vetted_same(t, u, -1);
            }
            assert forall|c: int| #[trigger] s.resident(c) implies s.stays(c, u) by {
                assert(s.stays(c, t));
                assert(u.cell(c) == t.cell(c));
            }
            assert forall|j: int| n <= j < claimed.len() implies !u.resident(
                (#[trigger] claimed[j]).0 as int,
            ) by {
                assert(!t.resident(claimed[j].0 as int));
            }
        } else {
            let data = if t.checksums[b as int] == UNWRITTEN {
                repeated(0, bs as nat)
            } else {
                read
            };
            assert(u == t.bound_to(f, data, m));
            lemma_bound(t, held, f, data, m, rest);
            if all_vetted_but(s, -1) {
                lemma_vetted_bound(t, held, f, data, m, rest, u);
            }
            assert forall|c: int| #[trigger] s.resident(c) implies s.stays(c, u) by {
                assert(s.stays(c, t));
                assert(t.resident(c));
                assert(u.cell(c) == t.cell(c));
            }
            assert forall|j: int| n <= j < claimed.len() implies !u.resident(
                (#[trigger] claimed[j]).0 as int,
            ) by {
                assert(claimed[n - 1].0 < claimed[j].0);
                assert(!t.resident(claimed[j].0 as int));
            }
        }
    }
}

/// A speculative read clobbers nothing, whatever was read: every block that
/// was in RAM is in the same frame with the same bytes. A dirty frame, the
/// only copy of its bytes, is safe.
pub proof fn law_prefetch_clobbers_nothing(
    s: ArenaState,
    first: int,
    count: int,
    bytes: Seq<u8>,
    claimed: Seq<(u64, u32)>,
    b: int,
)
    requires
        s.steady(),
        s.wait == (Wait::Batch { block: first as u64, count: count as u64, claimed }),
        0 <= first <= u64::MAX,
        0 <= count <= u64::MAX,
        bytes.len() == count * s.bs(),
        s.resident(b),
    ensures
        s.stays(b, s.waiting(Wait::Nothing).batch_served(first, count, bytes, claimed)),
{
    let t = s.waiting(Wait::Nothing);
    lemma_admitted(t, first, count, bytes, claimed, claimed.len() as int);
    assert(t.resident(b));
    assert(t.stays(b, t.admitted(first, bytes, claimed, claimed.len() as int)));
}

/// Nor does the claim that precedes it: no dirty frame is touched, and a
/// block that is still in RAM is where it was.
pub proof fn law_claim_spares_dirty_frames(
    pre: ArenaState,
    block: int,
    count: int,
    claimed: Seq<(u64, u32)>,
    post: ArenaState,
    b: int,
)
    requires
        pre.steady(),
        pre.claimed_for(block, count, claimed, post),
        0 <= b < pre.nblocks(),
        pre.cell(b) is Dirty,
        linked(post.map, post.frames.meta),
        pre.same_pool(post),
    ensures
        pre.stays(b, post),
{
    lemma_geometry(pre.sb.block_size, pre.sb.capacity, pre.sb.default_budget);
    let f = pre.map[b] as int;
    assert(pre.frames.meta[f].dirty);
    assert(pre.frames.meta[f].block == b);
    assert(post.frames.meta[f] == pre.frames.meta[f]);
    assert(post.frames.meta[f].bound());
}

/// Bringing a block in.
proof fn lemma_vetted_brought_in(
    s: ArenaState,
    block: u64,
    full: bool,
    f: u32,
    post: ArenaState,
)
    requires
        s.valid(seq![f]),
        s.wait is Nothing,
        block < s.sb.nblocks,
        !s.resident(block as int),
        all_vetted_but(s, -1),
        s.brought_in(block, full, f, post),
    ensures
        all_vetted_but(
            post,
            if full {
                block as int
            } else {
                -1
            },
        ),
{
    let held: Seq<u32> = seq![f];
    let m = ArenaState::wanted(block);
    lemma_one_held(f);
    assert(held[0] == f);
    if full {
        lemma_vetted_bound(s, held, f, s.frames.data[f as int], m, Seq::empty(), post);
    } else if s.checksums[block as int] == UNWRITTEN {
        lemma_vetted_bound(s, held, f, repeated(0, s.bs() as nat), m, Seq::empty(), post);
    } else {
        lemma_vetted_same(s, post, -1);
    }
}

/// Taking a clean frame from its block and bringing another in.
proof fn lemma_vetted_reused(
    s: ArenaState,
    block: u64,
    full: bool,
    v: u32,
    post: ArenaState,
)
    requires
        s.valid(Seq::empty()),
        s.wait is Nothing,
        block < s.sb.nblocks,
        !s.resident(block as int),
        s.frames.has(v),
        s.frames.meta[v as int].bound(),
        !s.frames.meta[v as int].dirty,
        all_vetted_but(s, -1),
        s.evicted(v).brought_in(block, full, v, post),
    ensures
        all_vetted_but(
            post,
            if full {
                block as int
            } else {
                -1
            },
        ),
{
    let none: Seq<u32> = Seq::empty();
    let e = s.evicted(v);
    let x = s.frames.meta[v as int].block as int;
    lemma_evicted(s, none, v);
    assert(none.push(v) =~= seq![v]);
    lemma_vetted_same(s, e, x);
    assert forall|b: int| 0 <= b < e.nblocks() && b != -1 implies #[trigger] vetted(e, b) by {
        if b != x {
            assert(all_vetted_but(e, x));
        }
    }
    lemma_vetted_brought_in(e, block, full, v, post);
}

/// Making room.
proof fn lemma_vetted_room(s: ArenaState, block: u64, full: bool, post: ArenaState)
    requires
        s.steady(),
        s.wait is Nothing,
        block < s.sb.nblocks,
        !s.resident(block as int),
        all_vetted_but(s, -1),
        s.room_made(block, full, post),
    ensures
        all_vetted_but(
            post,
            if full {
                block as int
            } else {
                -1
            },
        ),
{
    let none: Seq<u32> = Seq::empty();
    if s.frames.free.len() > 0 {
        let f = s.frames.free.last();
        let p = s.with_frames(s.frames.popped());
        lemma_popped(s, none);
        assert(none.push(f) =~= seq![f]);
        lemma_vetted_same(s, p, -1);
        lemma_vetted_brought_in(p, block, full, f, post);
    } else {
        let v = choose|v: u32| #[trigger] s.victim_taken(block, full, v, post);
        let w = s.with_frames(s.frames.swept(v as int, false));
        lemma_swept(s.frames, v as int, false);
        lemma_same_holdings(s, none, w.frames);
        lemma_vetted_same(s, w, -1);
        if w.frames.meta[v as int].dirty {
            lemma_vetted_same(w, post, -1);
        } else {
            lemma_vetted_reused(w, block, full, v, post);
        }
    }
}

/// Only verified bytes enter RAM: a lookup admits nothing else. (A block that
/// is about to be overwritten whole is not read at all.)
pub proof fn law_lookup_admits_only_verified_bytes(
    pre: ArenaState,
    block: u64,
    full: bool,
    post: ArenaState,
)
    requires
        pre.steady(),
        pre.wait is Nothing,
        block < pre.sb.nblocks,
        all_vetted_but(pre, -1),
        pre.looked_up(block, full, post),
        post.steady(),
    ensures
        all_vetted_but(
            post,
            if full {
                block as int
            } else {
                -1
            },
        ),
{
    let n = pre.noted(block);
    lemma_vetted_same(pre, n, -1);
    if pre.resident(block as int) {
        let f = pre.map[block as int];
        let m = FrameMeta { prefetched: false, referenced: true, ..pre.frames.meta[f as int] };
        lemma_touched(pre.frames, f, m);
        lemma_same_holdings(pre, Seq::empty(), pre.frames.with_meta(f, m));
        assert forall|b: int| 0 <= b < pre.nblocks() && b != -1 implies #[trigger] post.cell(b)
            == pre.cell(b) by {
            assert(pre.with_frames(pre.frames.with_meta(f, m)).cell(b) == pre.cell(b));
        }
        lemma_vetted_same(pre, post, -1);
    } else if !full && n.speculates(block as int) {
        let c = post.waiting(Wait::Nothing);
        assert forall|b: int| 0 <= b < post.nblocks() && b != -1 implies #[trigger] vetted(
            post,
            b,
        ) by {
            if post.map[b] != NO_FRAME {
                assert(c.resident(b));
                assert(n.stays(b, c));
                assert(vetted(n, b));
                assert(post.cell(b) == n.cell(b));
            }
        }
    } else {
        lemma_vetted_room(n, block, full, post);
    }
}

/// Only verified bytes enter RAM, whatever the driver says the file holds: a
/// byte that changed on disk is reported or left out, never served.
pub proof fn law_reply_admits_only_verified_bytes(
    pre: ArenaState,
    reply: Reply,
    post: ArenaState,
)
    requires
        pre.steady(),
        pre.sought() is Some,
        pre.expects(reply),
        all_vetted_but(pre, -1),
        pre.resumed(reply, post),
    ensures
        all_vetted_but(
            post,
            if pre.sought_full() {
                pre.sought()->0
            } else {
                -1
            },
        ),
{
    let none: Seq<u32> = Seq::empty();
    let s = pre.waiting(Wait::Nothing);
    lemma_vetted_same(pre, s, -1);
    match pre.wait {
        Wait::Batch { block, count, claimed } => {
            if let Reply::Bytes(bytes) = reply {
                let n = claimed.len() as int;
                let first = block as int;
                lemma_admitted(s, first, count as int, bytes@, claimed, n);
                let a = s.admitted(first, bytes@, claimed, n);
                let t = s.batch_served(first, count as int, bytes@, claimed);
                assert(claimed_frames(claimed).skip(n) =~= none);
                lemma_vetted_same(a, t, -1);
                if t.resident(first) {
                    let f = t.map[first];
                    let m = FrameMeta {
                        prefetched: false,
                        referenced: true,
                        ..t.frames.meta[f as int]
                    };
                    lemma_touched(t.frames, f, m);
                    lemma_same_holdings(t, none, t.frames.with_meta(f, m));
                    assert forall|b: int| 0 <= b < t.nblocks() && b != -1 implies #[trigger] post.cell(
                        b,
                    ) == t.cell(b) by {
                        assert(t.with_frames(t.frames.with_meta(f, m)).cell(b) == t.cell(b));
                    }
                    lemma_vetted_same(t, post, -1);
                } else {
                    lemma_vetted_room(t, block, false, post);
                }
            } else {
                lemma_vetted_unclaimed(s, claimed, claimed.len() as int);
            }
        },
        Wait::Victim { block, full, victim } => {
            if let Reply::Done = reply {
                let t = choose|t: ArenaState| #[trigger]
                    s.flushed(victim, t) && t.evicted(victim).brought_in(
                        block,
                        full,
                        victim,
                        post,
                    );
                lemma_vetted_flushed(s, victim, t);
                lemma_vetted_reused(t, block, full, victim, post);
            }
        },
        Wait::Load { block, frame } => {
            lemma_one_held(frame);
            let held: Seq<u32> = seq![frame];
            if let Reply::Bytes(bytes) = reply {
                if checksum_of(bytes@) == s.checksums[block as int] {
                    lemma_vetted_bound(
                        s,
                        held,
                        frame,
                        bytes@,
                        ArenaState::wanted(block),
                        none,
                        post,
                    );
                } else {
                    let zeros = repeated(0, s.bs() as nat);
                    let z = s.with_frames(s.frames.with_data(frame, zeros));
                    lemma_released(s, held, frame, none);
                    lemma_scratched(s, held, frame, zeros);
                    lemma_released(z, held, frame, none);
                    assert forall|b: int| 0 <= b < s.nblocks() && b != -1 implies #[trigger] post.cell(
                        b,
                    ) == s.cell(b) by {
                        assert(z.with_frames(z.frames.released(frame)).cell(b) == z.cell(b));
                        assert(z.cell(b) == s.cell(b));
                    }
                    lemma_vetted_same(s, post, -1);
                }
            } else {
                lemma_released(s, held, frame, none);
                lemma_vetted_same(s, post, -1);
            }
        },
        _ => {},
    }
}

/// Giving claimed frames back.
proof fn lemma_vetted_unclaimed(s: ArenaState, claimed: Seq<(u64, u32)>, n: int)
    requires
        s.valid(claimed_frames(claimed)),
        0 <= n <= claimed.len(),
        all_vetted_but(s, -1),
    ensures
        s.unclaimed(claimed, n).valid(claimed_frames(claimed).skip(n)),
        all_vetted_but(s.unclaimed(claimed, n), -1),
    decreases n,
{
    let ids = claimed_frames(claimed);
    if n == 0 {
        assert(ids.skip(0) =~= ids);
    } else {
        lemma_vetted_unclaimed(s, claimed, n - 1);
        let t = s.unclaimed(claimed, n - 1);
        let f = claimed[n - 1].1;
        let held = ids.skip(n - 1);
        assert(held[0] == f);
        assert(held.contains(f));
        lemma_skip_holds(held);
        assert(held.skip(1) =~= ids.skip(n));
        lemma_released(t, held, f, ids.skip(n));
        lemma_vetted_same(t, s.unclaimed(claimed, n), -1);
    }
}

/// A frame that was written back holds bytes with the checksum that was
/// recorded for them.
proof fn lemma_vetted_flushed(s: ArenaState, f: u32, t: ArenaState)
    requires
        s.steady(),
        s.wait is Nothing,
        s.frames.has(f),
        s.frames.meta[f as int].dirty,
        s.flushed(f, t),
        all_vetted_but(s, -1),
    ensures
        t.valid(Seq::empty()),
        all_vetted_but(t, -1),
        forall|b: int| t.resident(b) == s.resident(b),
{
    let x = s.frames.meta[f as int].block as int;
    lemma_geometry(s.sb.block_size, s.sb.capacity, s.sb.default_budget);
    assert(t.stats.wf()) by {
        assert(s.stats.writeback_latency.measured(t.stats.writeback_latency));
        lemma_measured(s.stats.writeback_latency, t.stats.writeback_latency);
    }
    lemma_flushed(s, Seq::empty(), f, t);
    assert forall|b: int| 0 <= b < t.nblocks() && b != -1 implies #[trigger] vetted(t, b) by {
        if b == x {
            assert(t.checksums[b] == checksum_of(s.frames.data[f as int]));
        } else {
            assert(vetted(s, b));
            assert(t.cell(b) == s.cell(b));
        }
    }
}

/// A block that was never written is not read: no lookup of one asks the
/// driver for bytes.
pub proof fn law_never_written_blocks_are_not_read(s: ArenaState)
    requires
        s.steady(),
        s.reading(),
    ensures
        s.sought() matches Some(b) && s.checksums[b] != UNWRITTEN,
{
}

/// A block that is read because it was asked for is reported corrupt exactly
/// if its bytes on disk no longer have the checksum they were written with,
/// and restoring them clears it.
pub proof fn law_changed_bytes_are_reported(
    s: ArenaState,
    disk: Seq<u8>,
    block: u64,
    frame: u32,
    bytes: &[u8],
)
    requires
        s.steady(),
        s.wait == (Wait::Load { block, frame }),
        s.answered(disk, Reply::Bytes(bytes)),
    ensures
        s.load_error(Reply::Bytes(bytes)) == (if s.checks_out(disk, block as int) {
            None
        } else {
            Some(
                LoomError::Corrupt {
                    block,
                    expected: s.checksums[block as int],
                    actual: checksum_of(s.on_disk(disk, block as int)),
                },
            )
        }),
{
}

/// A claim whose bytes fail their checksum does not become resident.
pub proof fn lemma_left_out(
    s: ArenaState,
    first: int,
    count: int,
    bytes: Seq<u8>,
    claimed: Seq<(u64, u32)>,
    n: int,
    k: int,
)
    requires
        s.valid(claimed_frames(claimed)),
        s.wait is Nothing,
        0 <= first,
        first + count <= s.nblocks(),
        bytes.len() == count * s.bs(),
        s.good_claim(first, count, claimed),
        0 <= k < n <= claimed.len(),
        !s.admissible(first, bytes, claimed[k].0 as int),
    ensures
        !s.admitted(first, bytes, claimed, n).resident(claimed[k].0 as int),
    decreases n,
{
    let t = s.admitted(first, bytes, claimed, n - 1);
    lemma_admitted(s, first, count, bytes, claimed, n - 1);
    if k == n - 1 {
        assert(!t.resident(claimed[n - 1].0 as int));
    } else {
        lemma_left_out(s, first, count, bytes, claimed, n - 1, k);
        assert(claimed[k].0 < claimed[n - 1].0);
    }
}

/// A speculative read reports nothing that nobody asked about: a block whose
/// bytes fail their checksum is left out of RAM, so that asking for it reads
/// it again and reports it.
pub proof fn law_speculation_defers_corruption(
    s: ArenaState,
    block: u64,
    count: u64,
    claimed: Seq<(u64, u32)>,
    bytes: &[u8],
    k: int,
)
    requires
        s.steady(),
        s.wait == (Wait::Batch { block, count, claimed }),
        s.expects(Reply::Bytes(bytes)),
        0 <= k < claimed.len(),
        !s.admissible(block as int, bytes@, claimed[k].0 as int),
    ensures
        s.load_error(Reply::Bytes(bytes)) is None,
        !s.waiting(Wait::Nothing).batch_served(
            block as int,
            count as int,
            bytes@,
            claimed,
        ).resident(claimed[k].0 as int),
{
    let t = s.waiting(Wait::Nothing);
    lemma_left_out(
        t,
        block as int,
        count as int,
        bytes@,
        claimed,
        claimed.len() as int,
        k,
    );
}

/// A sync or an eviction, too, keeps RAM free of anything else.
pub proof fn law_writeback_keeps_verified_bytes(s: ArenaState, f: u32, t: ArenaState)
    requires
        s.steady(),
        s.wait is Nothing,
        s.frames.has(f),
        s.frames.meta[f as int].dirty,
        s.flushed(f, t),
        all_vetted_but(s, -1),
    ensures
        all_vetted_but(t, -1),
{
    lemma_vetted_flushed(s, f, t);
}

} // verus!
