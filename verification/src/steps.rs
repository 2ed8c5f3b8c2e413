//! What every step of the arena keeps.
//!
//! The arena moves blocks between hot and cold in a handful of elementary
//! steps: take a clean frame from its block, bind a frame to a block, write
//! a dirty frame back, change a frame's bytes. Each is shown here to keep
//! the arena valid, RAM and file in agreement, and the content of every
//! block (but the one written to) what it was.


use crate::frames::{FrameMeta, PoolState};
use crate::io::Reply;
use crate::state::{accounted, linked, placed, ArenaState, Cell, Wait, NO_FRAME};
use crate::stats::bumped;
use crate::superblock::{
    law_regions_roundtrip, lemma_block_range, lemma_blocks_apart, lemma_geometry,
    lemma_header_len, CHECKSUM_TABLE_OFF, REGION_TABLE_OFF,
};
use vstd::prelude::*;

verus! {

/// RAM and file still agree about a block, and it has the same content.
pub open spec fn alike(
    pre: ArenaState,
    disk: Seq<u8>,
    post: ArenaState,
    disk2: Seq<u8>,
    b: int,
) -> bool {
    &&& post.honest(disk2, b)
    &&& post.block(disk2, b) == pre.block(disk, b)
}

/// Every block but `x` that RAM and file agreed about has the same content
/// before and after, and they still agree.
pub open spec fn alike_but(pre: ArenaState, post: ArenaState, disk: Seq<u8>, x: int) -> bool {
    forall|b: int|
        0 <= b < pre.nblocks() && b != x && pre.honest(disk, b) ==> #[trigger] alike(
            pre,
            disk,
            post,
            disk,
            b,
        )
}

/// Whatever the file holds: what RAM and file agreed about before, they agree
/// about after, except block `x`, and it has the same content.
pub open spec fn keeps(pre: ArenaState, post: ArenaState, x: int) -> bool {
    forall|disk: Seq<u8>| #[trigger]
        pre.backed(disk) ==> post.backed(disk) && alike_but(pre, post, disk, x)
}

/// The same, given a true reply to what was waited for.
pub open spec fn keeps_given(pre: ArenaState, reply: Reply, post: ArenaState, x: int) -> bool {
    forall|disk: Seq<u8>| #[trigger]
        pre.backed(disk) && pre.answered(disk, reply) ==> post.backed(disk) && alike_but(
            pre,
            post,
            disk,
            x,
        )
}

/// What stays alike twice stays alike.
pub proof fn lemma_alike_both(
    a: ArenaState,
    b: ArenaState,
    c: ArenaState,
    disk: Seq<u8>,
    x: int,
)
    requires
        alike_but(a, b, disk, -1),
        alike_but(b, c, disk, x),
        a.sb == b.sb,
    ensures
        alike_but(a, c, disk, x),
{
    assert forall|k: int| 0 <= k < a.nblocks() && k != x && a.honest(disk, k) implies #[trigger] alike(
        a,
        disk,
        c,
        disk,
        k,
    ) by {
        assert(alike(a, disk, b, disk, k));
        assert(alike(b, disk, c, disk, k));
    }
}

/// Steps that keep everything can be put together.
pub proof fn lemma_keeps_both(a: ArenaState, b: ArenaState, c: ArenaState, x: int)
    requires
        keeps(a, b, -1),
        keeps(b, c, x),
        a.sb == b.sb,
    ensures
        keeps(a, c, x),
{
    assert forall|disk: Seq<u8>| #[trigger] a.backed(disk) implies c.backed(disk) && alike_but(
        a,
        c,
        disk,
        x,
    ) by {
        assert(b.backed(disk));
        lemma_alike_both(a, b, c, disk, x);
    }
}

/// A step after a reply can be put together with one that needs none.
pub proof fn lemma_keeps_given_both(
    a: ArenaState,
    reply: Reply,
    b: ArenaState,
    c: ArenaState,
    x: int,
)
    requires
        keeps_given(a, reply, b, -1),
        keeps(b, c, x),
        a.sb == b.sb,
    ensures
        keeps_given(a, reply, c, x),
{
    assert forall|disk: Seq<u8>| #[trigger]
        a.backed(disk) && a.answered(disk, reply) implies c.backed(disk) && alike_but(
        a,
        c,
        disk,
        x,
    ) by {
        assert(b.backed(disk));
        lemma_alike_both(a, b, c, disk, x);
    }
}

/// What agreement and content depend on besides the cells.
pub open spec fn same_ground(pre: ArenaState, post: ArenaState) -> bool {
    &&& post.sb == pre.sb
    &&& post.regions == pre.regions
    &&& post.checksums == pre.checksums
    &&& post.dirty_meta == pre.dirty_meta
}

/// The cells of all blocks but `x` are the same.
pub open spec fn same_cells_but(pre: ArenaState, post: ArenaState, x: int) -> bool {
    forall|b: int| 0 <= b < pre.nblocks() && b != x ==> #[trigger] post.cell(b) == pre.cell(b)
}

/// An address of the `n` addresses from `at` on.
pub open spec fn within(a: int, at: int, n: int) -> bool {
    at <= a < at + n
}

/// The byte at arena address `a` is what a patch at `at` makes it: that of the
/// patch where it reaches, else what it was. RAM and file agree about its
/// block.
pub open spec fn shows(
    pre: ArenaState,
    post: ArenaState,
    disk: Seq<u8>,
    at: int,
    patch: Seq<u8>,
    a: int,
) -> bool {
    &&& post.honest(disk, a / pre.bs())
    &&& post.byte(disk, a) == (if within(a, at, patch.len() as int) {
        patch[a - at]
    } else {
        pre.byte(disk, a)
    })
}

/// Outside block `x`, the bytes from arena address `at` on are `patch` now,
/// and every other byte of a block that RAM and file agreed about is what it
/// was.
pub open spec fn patched_but(
    pre: ArenaState,
    post: ArenaState,
    disk: Seq<u8>,
    at: int,
    patch: Seq<u8>,
    x: int,
) -> bool {
    forall|a: int|
        0 <= a < pre.sb.capacity && a / pre.bs() != x && (within(a, at, patch.len() as int)
            || pre.honest(disk, a / pre.bs())) ==> #[trigger] shows(
            pre,
            post,
            disk,
            at,
            patch,
            a,
        )
}

/// The bytes from arena address `at` on are `patch` now, and every other byte
/// of a block that RAM and file agreed about is what it was.
pub open spec fn patched(
    pre: ArenaState,
    post: ArenaState,
    disk: Seq<u8>,
    at: int,
    patch: Seq<u8>,
) -> bool {
    forall|a: int|
        0 <= a < pre.sb.capacity && (within(a, at, patch.len() as int) || pre.honest(
            disk,
            a / pre.bs(),
        )) ==> #[trigger] shows(pre, post, disk, at, patch, a)
}

/// Content depends on cells alone.
pub proof fn lemma_same_cells(pre: ArenaState, post: ArenaState, x: int)
    requires
        same_ground(pre, post),
        same_cells_but(pre, post, x),
        !(post.wait is Table),
    ensures
        keeps(pre, post, x),
{
    assert forall|disk: Seq<u8>| #[trigger] pre.backed(disk) implies post.backed(disk)
        && alike_but(pre, post, disk, x) by {
        assert forall|b: int| 0 <= b < pre.nblocks() && b != x && pre.honest(disk, b) implies #[trigger] alike(
            pre,
            disk,
            post,
            disk,
            b,
        ) by {
            assert(post.cell(b) == pre.cell(b));
        }
    }
}

// ---- where frames are ---------------------------------------------------

/// A list after one more push holds what it held and the pushed id.
pub proof fn lemma_push_holds(s: Seq<u32>, f: u32)
    ensures
        forall|g: u32| #[trigger] s.push(f).contains(g) <==> (s.contains(g) || g == f),
        s.no_duplicates() && !s.contains(f) ==> s.push(f).no_duplicates(),
{
    let t = s.push(f);
    assert forall|g: u32| #[trigger] t.contains(g) <==> (s.contains(g) || g == f) by {
        if s.contains(g) {
            let j = choose|j: int| 0 <= j < s.len() && s[j] == g;
            assert(t[j] == g);
        }
        assert(t[s.len() as int] == f);
    }
}

/// A list without its last id holds the others.
pub proof fn lemma_pop_holds(s: Seq<u32>)
    requires
        s.len() > 0,
        s.no_duplicates(),
    ensures
        s.drop_last().no_duplicates(),
        forall|g: u32| #[trigger]
            s.drop_last().contains(g) <==> (s.contains(g) && g != s.last()),
{
    let t = s.drop_last();
    assert forall|g: u32| #[trigger] t.contains(g) <==> (s.contains(g) && g != s.last()) by {
        if t.contains(g) {
            let j = choose|j: int| 0 <= j < t.len() && t[j] == g;
            assert(s[j] == g);
        }
        if s.contains(g) && g != s.last() {
            let j = choose|j: int| 0 <= j < s.len() && s[j] == g;
            assert(t[j] == g);
        }
    }
}

/// A list without its first id holds the others.
pub proof fn lemma_skip_holds(s: Seq<u32>)
    requires
        s.len() > 0,
        s.no_duplicates(),
    ensures
        s.skip(1).no_duplicates(),
        forall|g: u32| #[trigger] s.skip(1).contains(g) <==> (s.contains(g) && g != s[0]),
{
    let t = s.skip(1);
    assert forall|g: u32| #[trigger] t.contains(g) <==> (s.contains(g) && g != s[0]) by {
        if t.contains(g) {
            let j = choose|j: int| 0 <= j < t.len() && t[j] == g;
            assert(s[j + 1] == g);
        }
        if s.contains(g) && g != s[0] {
            let j = choose|j: int| 0 <= j < s.len() && s[j] == g;
            assert(t[j - 1] == g);
        }
    }
}

/// `rest` is `held` without `f`.
pub open spec fn without(held: Seq<u32>, f: u32, rest: Seq<u32>) -> bool {
    &&& rest.no_duplicates()
    &&& forall|g: u32| #[trigger] rest.contains(g) <==> (held.contains(g) && g != f)
}

/// Ids of a list are in it.
pub proof fn lemma_in_range(held: Seq<u32>, rest: Seq<u32>, n: nat)
    requires
        forall|i: int| 0 <= i < held.len() ==> (#[trigger] held[i]) < n,
        forall|g: u32| #[trigger] rest.contains(g) ==> held.contains(g),
    ensures
        forall|i: int| 0 <= i < rest.len() ==> (#[trigger] rest[i]) < n,
{
    assert forall|i: int| 0 <= i < rest.len() implies (#[trigger] rest[i]) < n by {
        assert(rest.contains(rest[i]));
        let j = choose|j: int| 0 <= j < held.len() && held[j] == rest[i];
        assert(held[j] < n);
    }
}

/// Which frames are where depends only on which are bound.
pub proof fn lemma_accounted_same(
    pre: Seq<FrameMeta>,
    post: Seq<FrameMeta>,
    free: Seq<u32>,
    held: Seq<u32>,
)
    requires
        accounted(pre, free, held),
        post.len() == pre.len(),
        forall|f: int| 0 <= f < pre.len() ==> (#[trigger] post[f]).bound() == pre[f].bound(),
    ensures
        accounted(post, free, held),
{
    assert forall|f: u32| f < post.len() implies #[trigger] placed(post, free, held, f) by {
        assert(placed(pre, free, held, f));
        assert(post[f as int].bound() == pre[f as int].bound());
    }
}

/// A frame leaves the free list for the operation under way.
pub proof fn lemma_accounted_pop(meta: Seq<FrameMeta>, free: Seq<u32>, held: Seq<u32>)
    requires
        accounted(meta, free, held),
        free.len() > 0,
        forall|i: int| 0 <= i < free.len() ==> (#[trigger] free[i]) < meta.len(),
    ensures
        !held.contains(free.last()),
        !meta[free.last() as int].bound(),
        accounted(meta, free.drop_last(), held.push(free.last())),
{
    let f = free.last();
    assert(free.contains(f));
    assert(placed(meta, free, held, f));
    lemma_pop_holds(free);
    lemma_push_holds(held, f);
    assert forall|g: u32| g < meta.len() implies #[trigger] placed(
        meta,
        free.drop_last(),
        held.push(f),
        g,
    ) by {
        assert(placed(meta, free, held, g));
    }
}

/// A frame leaves its block for the operation under way.
pub proof fn lemma_accounted_unbind(
    meta: Seq<FrameMeta>,
    free: Seq<u32>,
    held: Seq<u32>,
    f: u32,
)
    requires
        accounted(meta, free, held),
        f < meta.len(),
        meta[f as int].bound(),
    ensures
        accounted(meta.update(f as int, FrameMeta::unbound()), free, held.push(f)),
        !held.contains(f),
{
    let post = meta.update(f as int, FrameMeta::unbound());
    assert(placed(meta, free, held, f));
    lemma_push_holds(held, f);
    assert forall|g: u32| g < post.len() implies #[trigger] placed(post, free, held.push(f), g) by {
        assert(placed(meta, free, held, g));
    }
}

/// A frame of the operation under way goes to a block.
pub proof fn lemma_accounted_bind(
    meta: Seq<FrameMeta>,
    free: Seq<u32>,
    held: Seq<u32>,
    f: u32,
    m: FrameMeta,
    rest: Seq<u32>,
)
    requires
        accounted(meta, free, held),
        f < meta.len(),
        held.contains(f),
        without(held, f, rest),
        m.bound(),
    ensures
        !meta[f as int].bound(),
        accounted(meta.update(f as int, m), free, rest),
{
    let post = meta.update(f as int, m);
    assert(placed(meta, free, held, f));
    lemma_in_range(held, rest, meta.len());
    assert forall|g: u32| g < post.len() implies #[trigger] placed(post, free, rest, g) by {
        assert(placed(meta, free, held, g));
    }
}

/// A frame of the operation under way goes to the free list.
pub proof fn lemma_accounted_release(
    meta: Seq<FrameMeta>,
    free: Seq<u32>,
    held: Seq<u32>,
    f: u32,
    rest: Seq<u32>,
)
    requires
        accounted(meta, free, held),
        f < meta.len(),
        held.contains(f),
        without(held, f, rest),
    ensures
        !meta[f as int].bound(),
        accounted(meta.update(f as int, FrameMeta::unbound()), free.push(f), rest),
{
    let post = meta.update(f as int, FrameMeta::unbound());
    assert(placed(meta, free, held, f));
    lemma_push_holds(free, f);
    lemma_in_range(held, rest, meta.len());
    assert forall|g: u32| g < post.len() implies #[trigger] placed(
        post,
        free.push(f),
        rest,
        g,
    ) by {
        assert(placed(meta, free, held, g));
    }
}

// ---- the elementary steps -----------------------------------------------

/// Two pools whose frames hold the same blocks, dirty or clean, with the
/// same bytes.
pub open spec fn same_holdings(pre: PoolState, post: PoolState) -> bool {
    &&& post.wf()
    &&& post.block_size == pre.block_size
    &&& post.meta.len() == pre.meta.len()
    &&& forall|f: int| 0 <= f < pre.meta.len() ==> (#[trigger] post.meta[f]).block
        == pre.meta[f].block && post.meta[f].dirty == pre.meta[f].dirty
    &&& forall|f: int|
        0 <= f < pre.meta.len() && (#[trigger] pre.meta[f]).bound() ==> post.data[f] == pre.data[f]
}

/// Another pool with the same holdings makes no difference.
pub proof fn lemma_same_holdings(pre: ArenaState, held: Seq<u32>, frames: PoolState)
    requires
        pre.valid(held),
        same_holdings(pre.frames, frames),
        frames.free == pre.frames.free,
    ensures
        pre.with_frames(frames).valid(held),
        same_cells_but(pre, pre.with_frames(frames), -1),
{
    let post = pre.with_frames(frames);
    lemma_accounted_same(pre.frames.meta, frames.meta, frames.free, held);
    assert(linked(post.map, frames.meta)) by {
        assert forall|b: int| 0 <= b < post.map.len() && #[trigger] post.map[b] != NO_FRAME implies
            post.map[b] < frames.meta.len() && frames.meta[post.map[b] as int].block == b by {
            let f = pre.map[b] as int;
            assert(pre.frames.meta[f].block == b);
            assert(frames.meta[f].block == b);
        }
        assert forall|f: int| 0 <= f < frames.meta.len() && (#[trigger] frames.meta[f]).bound()
            implies frames.meta[f].block < post.map.len() && post.map[frames.meta[f].block as int]
            == f by {
            assert(pre.frames.meta[f].bound());
        }
        assert forall|f: int| 0 <= f < frames.meta.len() && (#[trigger] frames.meta[f]).dirty
            implies frames.meta[f].bound() by {
            assert(pre.frames.meta[f].dirty);
        }
    }
    assert forall|b: int| 0 <= b < pre.nblocks() && b != -1 implies #[trigger] post.cell(b)
        == pre.cell(b) by {
        if pre.map[b] != NO_FRAME {
            let f = pre.map[b] as int;
            assert(pre.frames.meta[f].block == b);
            assert(frames.meta[f].block == b);
        }
    }
}

/// Taking a free frame.
pub proof fn lemma_popped(pre: ArenaState, held: Seq<u32>)
    requires
        pre.valid(held),
        pre.frames.free.len() > 0,
    ensures
        pre.with_frames(pre.frames.popped()).valid(held.push(pre.frames.free.last())),
        same_cells_but(pre, pre.with_frames(pre.frames.popped()), -1),
        pre.frames.has(pre.frames.free.last()),
        !pre.frames.meta[pre.frames.free.last() as int].bound(),
{
    let free = pre.frames.free;
    assert(free[free.len() - 1] < pre.frames.meta.len());
    lemma_accounted_pop(pre.frames.meta, free, held);
    assert forall|i: int| 0 <= i < free.drop_last().len() implies (#[trigger] free.drop_last()[i])
        < pre.frames.meta.len() by {
        assert(free[i] < pre.frames.meta.len());
    }
}

/// Taking a clean frame from its block: the block goes cold, and its content
/// is what the file has.
pub proof fn lemma_evicted(pre: ArenaState, held: Seq<u32>, f: u32)
    requires
        pre.valid(held),
        pre.frames.has(f),
        pre.frames.meta[f as int].bound(),
        !pre.frames.meta[f as int].dirty,
        !(pre.wait is Table),
    ensures
        pre.evicted(f).valid(held.push(f)),
        keeps(pre, pre.evicted(f), -1),
        !pre.evicted(f).resident(pre.frames.meta[f as int].block as int),
        forall|b: int|
            b != pre.frames.meta[f as int].block ==> #[trigger] pre.evicted(f).resident(b)
                == pre.resident(b),
        same_cells_but(pre, pre.evicted(f), pre.frames.meta[f as int].block as int),
{
    let post = pre.evicted(f);
    let x = pre.frames.meta[f as int].block as int;
    let meta = pre.frames.meta;
    assert(pre.map[x] == f);
    lemma_accounted_unbind(meta, pre.frames.free, held, f);
    assert(linked(post.map, post.frames.meta)) by {
        assert forall|b: int| 0 <= b < post.map.len() && #[trigger] post.map[b] != NO_FRAME implies
            post.map[b] < post.frames.meta.len() && post.frames.meta[post.map[b] as int].block
            == b by {
            assert(b != x);
            assert(pre.map[b] != NO_FRAME);
            assert(meta[pre.map[b] as int].block == b);
        }
        assert forall|g: int| 0 <= g < post.frames.meta.len() && (
        #[trigger] post.frames.meta[g]).bound() implies post.frames.meta[g].block < post.map.len()
            && post.map[post.frames.meta[g].block as int] == g by {
            assert(g != f);
            assert(meta[g].bound());
            assert(meta[g].block != x);
        }
        assert forall|g: int| 0 <= g < post.frames.meta.len() && (
        #[trigger] post.frames.meta[g]).dirty implies post.frames.meta[g].bound() by {
            assert(meta[g].dirty);
        }
    }
    assert forall|b: int| 0 <= b < pre.nblocks() && b != x implies #[trigger] post.cell(b)
        == pre.cell(b) by {
        if pre.map[b] != NO_FRAME {
            assert(meta[pre.map[b] as int].block == b);
        }
    }
    assert forall|disk: Seq<u8>| #[trigger] pre.backed(disk) implies post.backed(disk)
        && alike_but(pre, post, disk, -1) by {
        assert forall|b: int| 0 <= b < pre.nblocks() && b != -1 && pre.honest(disk, b) implies #[trigger] alike(
            pre,
            disk,
            post,
            disk,
            b,
        ) by {
            if b != x {
                assert(post.cell(b) == pre.cell(b));
            }
        }
    }
}

/// Binding a frame of the operation under way to a block that is in none.
pub proof fn lemma_bound(
    pre: ArenaState,
    held: Seq<u32>,
    f: u32,
    bytes: Seq<u8>,
    m: FrameMeta,
    rest: Seq<u32>,
)
    requires
        pre.valid(held),
        pre.frames.has(f),
        held.contains(f),
        without(held, f, rest),
        m.block < pre.sb.nblocks,
        !pre.resident(m.block as int),
        bytes.len() == pre.sb.block_size,
        !(pre.wait is Table),
    ensures
        pre.bound_to(f, bytes, m).valid(rest),
        same_cells_but(pre, pre.bound_to(f, bytes, m), m.block as int),
        pre.bound_to(f, bytes, m).cell(m.block as int) == (if m.dirty {
            Cell::Dirty(bytes)
        } else {
            Cell::Clean(bytes)
        }),
        keeps(pre, pre.bound_to(f, bytes, m), m.block as int),
        forall|b: int|
            b != m.block ==> #[trigger] pre.bound_to(f, bytes, m).resident(b) == pre.resident(b),
        pre.bound_to(f, bytes, m).resident(m.block as int),
{
    let post = pre.bound_to(f, bytes, m);
    let meta = pre.frames.meta;
    lemma_geometry(pre.sb.block_size, pre.sb.capacity, pre.sb.default_budget);
    lemma_accounted_bind(meta, pre.frames.free, held, f, m, rest);
    assert(linked(post.map, post.frames.meta)) by {
        assert forall|b: int| 0 <= b < post.map.len() && #[trigger] post.map[b] != NO_FRAME implies
            post.map[b] < post.frames.meta.len() && post.frames.meta[post.map[b] as int].block
            == b by {
            if b != m.block {
                assert(pre.map[b] != NO_FRAME);
                assert(meta[pre.map[b] as int].block == b);
            }
        }
        assert forall|g: int| 0 <= g < post.frames.meta.len() && (
        #[trigger] post.frames.meta[g]).bound() implies post.frames.meta[g].block < post.map.len()
            && post.map[post.frames.meta[g].block as int] == g by {
            if g != f {
                assert(meta[g].bound());
                assert(pre.map[meta[g].block as int] == g);
            }
        }
        assert forall|g: int| 0 <= g < post.frames.meta.len() && (
        #[trigger] post.frames.meta[g]).dirty implies post.frames.meta[g].bound() by {
            if g != f {
                assert(meta[g].dirty);
            }
        }
    }
    assert forall|b: int| 0 <= b < pre.nblocks() && b != m.block implies #[trigger] post.cell(b)
        == pre.cell(b) by {
        if pre.map[b] != NO_FRAME {
            assert(meta[pre.map[b] as int].block == b);
        }
    }
    lemma_same_cells(pre, post, m.block as int);
}

/// If the bytes are what the file has for the block, its content stays what
/// it was.
pub proof fn lemma_bound_true(
    pre: ArenaState,
    held: Seq<u32>,
    f: u32,
    bytes: Seq<u8>,
    m: FrameMeta,
    rest: Seq<u32>,
    disk: Seq<u8>,
)
    requires
        pre.valid(held),
        pre.frames.has(f),
        held.contains(f),
        without(held, f, rest),
        m.block < pre.sb.nblocks,
        !pre.resident(m.block as int),
        bytes.len() == pre.sb.block_size,
        !(pre.wait is Table),
        !m.dirty,
        pre.backed(disk),
        bytes == pre.cold(disk, m.block as int),
    ensures
        pre.bound_to(f, bytes, m).backed(disk),
        alike_but(pre, pre.bound_to(f, bytes, m), disk, -1),
{
    let post = pre.bound_to(f, bytes, m);
    lemma_bound(pre, held, f, bytes, m, rest);
    assert(pre.cell(m.block as int) == Cell::Cold);
    assert forall|b: int| 0 <= b < pre.nblocks() && b != -1 && pre.honest(disk, b) implies #[trigger] alike(
        pre,
        disk,
        post,
        disk,
        b,
    ) by {
        if b != m.block {
            assert(post.cell(b) == pre.cell(b));
        }
    }
}

/// Giving a frame of the operation under way back.
pub proof fn lemma_released(pre: ArenaState, held: Seq<u32>, f: u32, rest: Seq<u32>)
    requires
        pre.valid(held),
        pre.frames.has(f),
        held.contains(f),
        without(held, f, rest),
    ensures
        pre.with_frames(pre.frames.released(f)).valid(rest),
        same_cells_but(pre, pre.with_frames(pre.frames.released(f)), -1),
        !pre.frames.meta[f as int].bound(),
        !pre.frames.meta[f as int].dirty,
{
    let post = pre.with_frames(pre.frames.released(f));
    let meta = pre.frames.meta;
    lemma_accounted_release(meta, pre.frames.free, held, f, rest);
    assert(linked(post.map, post.frames.meta)) by {
        assert forall|b: int| 0 <= b < post.map.len() && #[trigger] post.map[b] != NO_FRAME implies
            post.map[b] < post.frames.meta.len() && post.frames.meta[post.map[b] as int].block
            == b by {
            assert(meta[pre.map[b] as int].block == b);
        }
        assert forall|g: int| 0 <= g < post.frames.meta.len() && (
        #[trigger] post.frames.meta[g]).bound() implies post.frames.meta[g].block < post.map.len()
            && post.map[post.frames.meta[g].block as int] == g by {
            assert(meta[g].bound());
        }
        assert forall|g: int| 0 <= g < post.frames.meta.len() && (
        #[trigger] post.frames.meta[g]).dirty implies post.frames.meta[g].bound() by {
            assert(meta[g].dirty);
        }
    }
    assert(!meta[f as int].dirty);
    assert forall|b: int| 0 <= b < pre.nblocks() && b != -1 implies #[trigger] post.cell(b)
        == pre.cell(b) by {
        if pre.map[b] != NO_FRAME {
            assert(meta[pre.map[b] as int].block == b);
        }
    }
}

/// The bytes of a frame that holds no block are nobody's.
pub proof fn lemma_scratched(pre: ArenaState, held: Seq<u32>, f: u32, bytes: Seq<u8>)
    requires
        pre.valid(held),
        pre.frames.has(f),
        !pre.frames.meta[f as int].bound(),
        bytes.len() == pre.sb.block_size,
    ensures
        pre.with_frames(pre.frames.with_data(f, bytes)).valid(held),
        same_cells_but(pre, pre.with_frames(pre.frames.with_data(f, bytes)), -1),
{
    lemma_same_holdings(pre, held, pre.frames.with_data(f, bytes));
}

/// A frame written back, with the file holding its bytes now.
pub proof fn lemma_flushed(pre: ArenaState, held: Seq<u32>, f: u32, post: ArenaState)
    requires
        pre.valid(held),
        pre.frames.has(f),
        pre.frames.meta[f as int].dirty,
        pre.flushed(f, post),
        post.stats.wf(),
        !(pre.wait is Table),
    ensures
        post.valid(held),
        forall|b: int| post.resident(b) == pre.resident(b),
        same_cells_but(pre, post, pre.frames.meta[f as int].block as int),
        post.cell(pre.frames.meta[f as int].block as int) == Cell::Clean(
            pre.frames.data[f as int],
        ),
        forall|disk: Seq<u8>| #[trigger]
            pre.backed(disk) && pre.on_disk(disk, pre.frames.meta[f as int].block as int)
                == pre.frames.data[f as int] ==> post.backed(disk) && alike_but(
                pre,
                post,
                disk,
                -1,
            ),
{
    let x = pre.frames.meta[f as int].block as int;
    let meta = pre.frames.meta;
    assert(pre.map[x] == f);
    let clean = pre.frames.with_meta(f, FrameMeta { dirty: false, ..meta[f as int] });
    lemma_geometry(pre.sb.block_size, pre.sb.capacity, pre.sb.default_budget);
    lemma_accounted_same(meta, clean.meta, pre.frames.free, held);
    assert(linked(post.map, post.frames.meta)) by {
        assert forall|b: int| 0 <= b < post.map.len() && #[trigger] post.map[b] != NO_FRAME implies
            post.map[b] < post.frames.meta.len() && post.frames.meta[post.map[b] as int].block
            == b by {
            assert(meta[pre.map[b] as int].block == b);
        }
        assert forall|g: int| 0 <= g < post.frames.meta.len() && (
        #[trigger] post.frames.meta[g]).bound() implies post.frames.meta[g].block < post.map.len()
            && post.map[post.frames.meta[g].block as int] == g by {
            assert(meta[g].bound());
        }
        assert forall|g: int| 0 <= g < post.frames.meta.len() && (
        #[trigger] post.frames.meta[g]).dirty implies post.frames.meta[g].bound() by {
            assert(meta[g].dirty);
        }
    }
    assert forall|b: int| 0 <= b < pre.nblocks() && b != x implies #[trigger] post.cell(b)
        == pre.cell(b) by {
        if pre.map[b] != NO_FRAME {
            assert(meta[pre.map[b] as int].block == b);
        }
    }
    assert forall|disk: Seq<u8>| #[trigger]
        pre.backed(disk) && pre.on_disk(disk, x) == pre.frames.data[f as int] implies post.backed(
        disk,
    ) && alike_but(pre, post, disk, -1) by {
        assert forall|b: int| 0 <= b < pre.nblocks() && b != -1 && pre.honest(disk, b) implies #[trigger] alike(
            pre,
            disk,
            post,
            disk,
            b,
        ) by {
            if pre.map[b] != NO_FRAME {
                assert(meta[pre.map[b] as int].block == b);
            }
        }
    }
}

/// The bytes of a block's frame changed, and marked so.
pub proof fn lemma_rewritten(pre: ArenaState, held: Seq<u32>, f: u32, bytes: Seq<u8>)
    requires
        pre.valid(held),
        pre.frames.has(f),
        pre.frames.meta[f as int].bound(),
        bytes.len() == pre.sb.block_size,
        !(pre.wait is Table),
    ensures
        ({
            let x = pre.frames.meta[f as int].block as int;
            let post = pre.rewritten(f, bytes);
            &&& post.valid(held)
            &&& same_cells_but(pre, post, x)
            &&& post.cell(x) == Cell::Dirty(bytes)
            &&& 0 <= x < pre.nblocks()
            &&& forall|disk: Seq<u8>| #[trigger]
                pre.backed(disk) ==> post.backed(disk) && alike_but(pre, post, disk, x)
            &&& forall|disk: Seq<u8>| #[trigger] post.honest(disk, x)
        }),
{
    let x = pre.frames.meta[f as int].block as int;
    let meta = pre.frames.meta;
    let post = pre.rewritten(f, bytes);
    assert(pre.map[x] == f);
    lemma_accounted_same(meta, post.frames.meta, pre.frames.free, held);
    assert(linked(post.map, post.frames.meta)) by {
        assert forall|b: int| 0 <= b < post.map.len() && #[trigger] post.map[b] != NO_FRAME implies
            post.map[b] < post.frames.meta.len() && post.frames.meta[post.map[b] as int].block
            == b by {
            assert(meta[pre.map[b] as int].block == b);
        }
        assert forall|g: int| 0 <= g < post.frames.meta.len() && (
        #[trigger] post.frames.meta[g]).bound() implies post.frames.meta[g].block < post.map.len()
            && post.map[post.frames.meta[g].block as int] == g by {
            assert(meta[g].bound());
        }
        assert forall|g: int| 0 <= g < post.frames.meta.len() && (
        #[trigger] post.frames.meta[g]).dirty implies post.frames.meta[g].bound() by {
            assert(g != f ==> meta[g].dirty);
        }
    }
    assert forall|b: int| 0 <= b < pre.nblocks() && b != x implies #[trigger] post.cell(b)
        == pre.cell(b) by {
        if pre.map[b] != NO_FRAME {
            assert(meta[pre.map[b] as int].block == b);
        }
    }
    assert forall|disk: Seq<u8>| #[trigger] pre.backed(disk) implies post.backed(disk)
        && alike_but(pre, post, disk, x) by {
        assert forall|b: int| 0 <= b < pre.nblocks() && b != x && pre.honest(disk, b) implies #[trigger] alike(
            pre,
            disk,
            post,
            disk,
            b,
        ) by {
            assert(post.cell(b) == pre.cell(b));
        }
    }
}

/// A sweep of the CLOCK hand moves no block.
pub proof fn lemma_swept(pre: PoolState, v: int, clean_only: bool)
    requires
        pre.wf(),
        0 <= v < pre.meta.len(),
    ensures
        same_holdings(pre, pre.swept(v, clean_only)),
        forall|f: int|
            0 <= f < pre.meta.len() && clean_only && (#[trigger] pre.meta[f]).dirty ==> pre.swept(
                v,
                clean_only,
            ).meta[f] == pre.meta[f],
{
}

/// Other bits of a frame move no block.
pub proof fn lemma_touched(pre: PoolState, f: u32, m: FrameMeta)
    requires
        pre.wf(),
        pre.has(f),
        m.block == pre.meta[f as int].block,
        m.dirty == pre.meta[f as int].dirty,
    ensures
        same_holdings(pre, pre.with_meta(f, m)),
{
}

/// Agreement about everything is agreement about everything but one block.
pub proof fn lemma_keeps_weaken(pre: ArenaState, post: ArenaState, x: int)
    requires
        keeps(pre, post, -1),
    ensures
        keeps(pre, post, x),
{
    assert forall|disk: Seq<u8>| #[trigger] pre.backed(disk) implies post.backed(disk)
        && alike_but(pre, post, disk, x) by {
        assert(post.backed(disk));
    }
}

/// Counters add up.
pub proof fn lemma_bumped_twice(c: u64, n: int, k: int)
    requires
        0 <= n,
        0 <= k,
    ensures
        bumped(bumped(c, n), k) == bumped(c, n + k),
{
    vstd::arithmetic::div_mod::lemma_add_mod_noop(c + n, k, 0x1_0000_0000_0000_0000);
    vstd::arithmetic::div_mod::lemma_mod_bound(c + n, 0x1_0000_0000_0000_0000);
    vstd::arithmetic::div_mod::lemma_mod_twice(k, 0x1_0000_0000_0000_0000);
    vstd::arithmetic::div_mod::lemma_add_mod_noop(
        (c + n) % 0x1_0000_0000_0000_0000,
        k,
        0x1_0000_0000_0000_0000,
    );
    vstd::arithmetic::div_mod::lemma_mod_twice(c + n, 0x1_0000_0000_0000_0000);
}

// ---- writes to the file -------------------------------------------------

/// A write that the arena asks for does no harm, whether it goes through,
/// fails, or is torn half way: it touches only what RAM has the only good
/// copy of.
pub proof fn law_writes_are_confined(s: ArenaState, disk: Seq<u8>, after: Seq<u8>)
    requires
        s.steady(),
        s.backed(disk),
        s.confined(disk, after),
    ensures
        s.backed(after),
        forall|b: int|
            0 <= b < s.nblocks() && s.honest(disk, b) ==> #[trigger] alike(s, disk, s, after, b),
{
    let sb = s.sb;
    lemma_geometry(sb.block_size, sb.capacity, sb.default_budget);
    law_regions_roundtrip(s.regions);
    lemma_header_len(sb);
    let from = s.span_start();
    let to = from + s.span_written().len();
    match s.wait {
        Wait::Victim { block, full, victim } => {
            let x = s.frames.meta[victim as int].block as int;
            assert(s.frames.meta[victim as int].bound());
            lemma_block_range(sb, x, 1);
            assert(s.frames.data[victim as int].len() == sb.block_size);
        },
        Wait::Flush { frame } => {
            let x = s.frames.meta[frame as int].block as int;
            assert(s.frames.meta[frame as int].bound());
            lemma_block_range(sb, x, 1);
            assert(s.frames.data[frame as int].len() == sb.block_size);
        },
        _ => {},
    }
    assert(s.tables_on(after)) by {
        assert(s.tables_on(disk));
        let ck = CHECKSUM_TABLE_OFF as int;
        let rt = REGION_TABLE_OFF as int;
        let end = CHECKSUM_TABLE_OFF + sb.checksum_table_len;
        if !(s.wait is Table) {
            assert(after.subrange(ck, end) =~= disk.subrange(ck, end));
            assert(after.subrange(rt, ck) =~= disk.subrange(rt, ck));
            assert(after.subrange(0, rt) =~= disk.subrange(0, rt));
        } else {
            if s.wait->stage >= 1 {
                assert(after.subrange(ck, end) =~= disk.subrange(ck, end));
            }
            if s.wait->stage >= 2 {
                assert(after.subrange(rt, ck) =~= disk.subrange(rt, ck));
            }
        }
    }
    assert forall|b: int| 0 <= b < s.nblocks() && s.honest(disk, b) implies #[trigger] alike(
        s,
        disk,
        s,
        after,
        b,
    ) by {
        lemma_block_range(sb, b, 1);
        if !(s.cell(b) is Dirty) {
            match s.wait {
                Wait::Victim { block, full, victim } => {
                    let x = s.frames.meta[victim as int].block as int;
                    assert(s.map[x] == victim);
                    lemma_blocks_apart(sb, x, b);
                },
                Wait::Flush { frame } => {
                    let x = s.frames.meta[frame as int].block as int;
                    assert(s.map[x] == frame);
                    lemma_blocks_apart(sb, x, b);
                },
                _ => {},
            }
            assert(s.on_disk(after, b) =~= s.on_disk(disk, b));
        }
    }
}

// ---- addresses ----------------------------------------------------------

/// An address is its block and its place in the block.
pub proof fn lemma_split(a: int, bs: int)
    requires
        0 <= a,
        0 < bs,
    ensures
        a == a / bs * bs + a % bs,
        0 <= a % bs < bs,
        0 <= a / bs,
{
    vstd::arithmetic::div_mod::lemma_fundamental_div_mod(a, bs);
    vstd::arithmetic::div_mod::lemma_mod_bound(a, bs);
    vstd::arithmetic::mul::lemma_mul_is_commutative(a / bs, bs);
    vstd::arithmetic::div_mod::lemma_div_pos_is_pos(a, bs);
}

/// An address inside the arena lies in one of its blocks.
pub proof fn lemma_block_of(s: ArenaState, held: Seq<u32>, a: int)
    requires
        s.valid(held),
        0 <= a < s.sb.capacity,
    ensures
        0 <= a / s.bs() < s.nblocks(),
        0 <= a % s.bs() < s.bs(),
{
    let bs = s.bs();
    lemma_geometry(s.sb.block_size, s.sb.capacity, s.sb.default_budget);
    lemma_split(a, bs);
    let q = a / bs;
    assert(q < s.nblocks()) by (nonlinear_arith)
        requires
            q * bs <= a,
            a < s.nblocks() * bs,
            0 < bs,
    ;
}

/// The addresses of a run inside one block are those of that block whose
/// place lies in the run.
pub proof fn lemma_run(at: int, n: int, a: int, bs: int)
    requires
        0 <= at,
        0 <= a,
        0 < bs,
        0 <= n <= bs - at % bs,
    ensures
        at <= a < at + n <==> a / bs == at / bs && at % bs <= a % bs < at % bs + n,
        a / bs == at / bs ==> a - at == a % bs - at % bs,
{
    lemma_split(at, bs);
    lemma_split(a, bs);
    let p = at / bs;
    let q = a / bs;
    if at <= a < at + n {
        assert(p == q) by (nonlinear_arith)
            requires
                0 < bs,
                p * bs <= q * bs + a % bs,
                q * bs + a % bs < p * bs + bs,
                0 <= a % bs < bs,
        ;
    }
}

// ---- counting frames ----------------------------------------------------

/// How many frames hold a block.
pub open spec fn bound_count(meta: Seq<FrameMeta>) -> nat
    decreases meta.len(),
{
    if meta.len() == 0 {
        0
    } else {
        bound_count(meta.drop_last()) + if meta.last().bound() {
            1nat
        } else {
            0nat
        }
    }
}

/// If the free list holds exactly the frames without a block, the others are
/// the rest of the pool.
pub proof fn lemma_bound_count(meta: Seq<FrameMeta>, free: Seq<u32>)
    requires
        meta.len() <= u32::MAX,
        free.no_duplicates(),
        forall|i: int| 0 <= i < free.len() ==> (#[trigger] free[i]) < meta.len(),
        forall|f: u32| f < meta.len() ==> (#[trigger] free.contains(f)) == !meta[f as int].bound(),
    ensures
        free.len() + bound_count(meta) == meta.len(),
    decreases meta.len(),
{
    if meta.len() == 0 {
        if free.len() > 0 {
            assert(free[0] < meta.len());
        }
    } else {
        let top = (meta.len() - 1) as u32;
        let less = meta.drop_last();
        assert(free.contains(top) == !meta[top as int].bound());
        if free.contains(top) {
            let k = choose|k: int| 0 <= k < free.len() && free[k] == top;
            let rest = free.remove(k);
            assert forall|i: int| 0 <= i < rest.len() implies (#[trigger] rest[i]) < less.len() by {
                let j = if i < k {
                    i
                } else {
                    i + 1
                };
                assert(rest[i] == free[j]);
                assert(free[j] != free[k]);
            }
            assert forall|f: u32| f < less.len() implies (#[trigger] rest.contains(f))
                == !less[f as int].bound() by {
                assert(free.contains(f) == !meta[f as int].bound());
                if free.contains(f) {
                    let j = choose|j: int| 0 <= j < free.len() && free[j] == f;
                    assert(rest[if j < k { j } else { j - 1 }] == f);
                }
                if rest.contains(f) {
                    let i = choose|i: int| 0 <= i < rest.len() && rest[i] == f;
                    assert(free[if i < k { i } else { i + 1 }] == f);
                }
            }
            lemma_bound_count(less, rest);
        } else {
            assert forall|i: int| 0 <= i < free.len() implies (#[trigger] free[i]) < less.len() by {
                assert(free.contains(free[i]));
            }
            assert forall|f: u32| f < less.len() implies (#[trigger] free.contains(f))
                == !less[f as int].bound() by {
                assert(free.contains(f) == !meta[f as int].bound());
            }
            lemma_bound_count(less, free);
        }
    }
}

/// Between operations, every frame that is not on the free list holds a
/// block.
pub proof fn law_resident_count(s: ArenaState)
    requires
        s.steady(),
        s.wait is Nothing,
    ensures
        s.frames.free.len() + bound_count(s.frames.meta) == s.frames.count(),
{
    let none: Seq<u32> = Seq::empty();
    assert forall|f: u32| f < s.frames.meta.len() implies (#[trigger] s.frames.free.contains(f))
        == !s.frames.meta[f as int].bound() by {
        assert(placed(s.frames.meta, s.frames.free, none, f));
    }
    lemma_bound_count(s.frames.meta, s.frames.free);
}

/// Where no frame holds a block, all are free.
pub proof fn lemma_all_cold(s: ArenaState)
    requires
        s.steady(),
        s.wait is Nothing,
        forall|f: int| 0 <= f < s.frames.count() ==> !(#[trigger] s.frames.meta[f]).bound(),
    ensures
        s.all_cold(),
{
    law_resident_count(s);
    lemma_none_bound(s.frames.meta);
    assert forall|b: int| 0 <= b < s.nblocks() implies !(#[trigger] s.resident(b)) by {
        if s.resident(b) {
            assert(s.frames.meta[s.map[b] as int].block == b);
            lemma_geometry(s.sb.block_size, s.sb.capacity, s.sb.default_budget);
        }
    }
}

/// Nothing bound counts as nothing.
proof fn lemma_none_bound(meta: Seq<FrameMeta>)
    requires
        forall|f: int| 0 <= f < meta.len() ==> !(#[trigger] meta[f]).bound(),
    ensures
        bound_count(meta) == 0,
    decreases meta.len(),
{
    if meta.len() > 0 {
        lemma_none_bound(meta.drop_last());
    }
}

/// Dropping a clean frame: its block goes cold, its content is what the file
/// has.
pub proof fn lemma_dropped(pre: ArenaState, f: u32)
    requires
        pre.valid(Seq::empty()),
        pre.wait is Nothing,
        pre.frames.has(f),
        pre.frames.meta[f as int].bound(),
        !pre.frames.meta[f as int].dirty,
    ensures
        pre.dropped(f).valid(Seq::empty()),
        keeps(pre, pre.dropped(f), -1),
{
    let none: Seq<u32> = Seq::empty();
    let s = pre.evicted(f);
    let held = none.push(f);
    lemma_evicted(pre, none, f);
    assert(held[0] == f);
    assert(held.contains(f));
    assert(without(held, f, none)) by {
        assert forall|g: u32| #[trigger] none.contains(g) <==> (held.contains(g) && g != f) by {}
    }
    lemma_released(s, held, f, none);
    lemma_same_cells(s, pre.dropped(f), -1);
    lemma_keeps_both(pre, s, pre.dropped(f), -1);
}

} // verus!
