//! What holds of whole runs.
//!
//! A run is any number of steps, one after another: of reads, writes,
//! borrows, searches, syncs, evictions, allocations and reopenings, and of
//! the actions in between. What one step does is in the contracts; what it
//! keeps is in [`crate::laws`].

use crate::arena::{copied_out, OpenOptions};
use crate::laws::{
    created, law_created_pool_is_zeros, law_read_steps_add_up, law_same_content_adds_up,
    same_content,
};
use crate::opening::{fresh, frames_for, OpenState};
use crate::state::{ArenaState, Cell};
use crate::steps::{alike, lemma_block_of, patched, shows, within};
use crate::superblock::{Superblock, CHECKSUM_TABLE_OFF};
use crate::words::words_of;
use vstd::prelude::*;

verus! {

/// An arena and its file.
#[verifier::ext_equal]
pub struct Moment {
    pub arena: ArenaState,
    pub disk: Seq<u8>,
}

impl Moment {
    /// The byte at arena address `a`.
    pub open spec fn byte(self, a: int) -> u8 {
        self.arena.byte(self.disk, a)
    }

    /// RAM and file agree about the block of arena address `a`.
    pub open spec fn trusts(self, a: int) -> bool {
        self.arena.honest(self.disk, a / self.arena.bs())
    }
}

/// What a step does to the content.
pub enum Change {
    /// It keeps it.
    Nothing,
    /// The bytes from arena address `at` on become `bytes`: a step of a
    /// write, or a borrow that was written to.
    Patch { at: int, bytes: Seq<u8> },
}

/// A step from one moment to the next.
pub open spec fn happens(a: Moment, c: Change, b: Moment) -> bool {
    match c {
        Change::Nothing => same_content(a.arena, a.disk, b.arena, b.disk),
        Change::Patch { at, bytes } => {
            &&& b.disk == a.disk
            &&& b.arena.sb == a.arena.sb
            &&& patched(a.arena, b.arena, a.disk, at, bytes)
        },
    }
}

/// A run: the moments, and what happened between each and the next.
pub open spec fn runs(m: Seq<Moment>, c: Seq<Change>) -> bool {
    &&& m.len() == c.len() + 1
    &&& forall|i: int| 0 <= i < c.len() ==> happens(m[i], #[trigger] c[i], m[i + 1])
}

/// The byte that was last put at arena address `a`, if any was.
pub open spec fn last_put(c: Seq<Change>, a: int) -> Option<u8>
    decreases c.len(),
{
    if c.len() == 0 {
        None
    } else {
        match c.last() {
            Change::Patch { at, bytes } if within(a, at, bytes.len() as int) => Some(
                bytes[a - at],
            ),
            _ => last_put(c.drop_last(), a),
        }
    }
}

/// Whatever happened, a byte is the one that was put there last, and if none
/// was, it is what it was.
pub proof fn law_last_put_stays(m: Seq<Moment>, c: Seq<Change>, a: int)
    requires
        runs(m, c),
        m[0].arena.steady(),
        0 <= a < m[0].arena.sb.capacity,
        last_put(c, a) is Some || m[0].trusts(a),
    ensures
        m.last().arena.sb == m[0].arena.sb,
        m.last().trusts(a),
        m.last().byte(a) == match last_put(c, a) {
            Some(v) => v,
            None => m[0].byte(a),
        },
    decreases c.len(),
{
    if c.len() > 0 {
        let n = c.len() as int;
        let m1 = m.drop_last();
        let c1 = c.drop_last();
        assert(happens(m[n - 1], c[n - 1], m[n]));
        assert(runs(m1, c1)) by {
            assert forall|i: int| 0 <= i < c1.len() implies happens(
                m1[i],
                #[trigger] c1[i],
                m1[i + 1],
            ) by {
                assert(c1[i] == c[i]);
            }
        }
        assert(m1.last() == m[n - 1]);
        lemma_same_geometry(m1, c1);
        lemma_block_of(m[0].arena, m[0].arena.held(), a);
        let k = a / m[0].arena.bs();
        if last_put(c1, a) is Some || m[0].trusts(a) {
            law_last_put_stays(m1, c1, a);
        }
        match c[n - 1] {
            Change::Nothing => {
                assert(alike(m[n - 1].arena, m[n - 1].disk, m[n].arena, m[n].disk, k));
            },
            Change::Patch { at, bytes } => {
                assert(shows(m[n - 1].arena, m[n].arena, m[n - 1].disk, at, bytes, a));
            },
        }
    }
}

/// A run keeps the geometry.
proof fn lemma_same_geometry(m: Seq<Moment>, c: Seq<Change>)
    requires
        runs(m, c),
    ensures
        m.last().arena.sb == m[0].arena.sb,
    decreases c.len(),
{
    if c.len() > 0 {
        let n = c.len() as int;
        assert(happens(m[n - 1], c[n - 1], m[n]));
        assert forall|i: int| 0 <= i < c.drop_last().len() implies happens(
            m.drop_last()[i],
            #[trigger] c.drop_last()[i],
            m.drop_last()[i + 1],
        ) by {
            assert(c.drop_last()[i] == c[i]);
        }
        lemma_same_geometry(m.drop_last(), c.drop_last());
    }
}

// ---- writes and reads in any number of steps ------------------------------

/// The steps of a write of `data` to `at`; `marks` is how far it had come at
/// each moment.
pub open spec fn written(c: Seq<Change>, marks: Seq<int>, at: int, data: Seq<u8>) -> bool {
    &&& marks.len() == c.len() + 1
    &&& marks[0] == 0
    &&& forall|i: int|
        0 <= i < c.len() ==> {
            &&& 0 <= marks[i] <= marks[i + 1] <= data.len()
            &&& match #[trigger] c[i] {
                Change::Nothing => marks[i + 1] == marks[i],
                Change::Patch { at: place, bytes } => place == at + marks[i] && bytes
                    == data.subrange(marks[i], marks[i + 1]),
            }
        }
}

/// The steps of a write put its data, as far as they have come, and nothing
/// else.
pub proof fn law_write_is_its_steps(
    c: Seq<Change>,
    marks: Seq<int>,
    at: int,
    data: Seq<u8>,
    a: int,
)
    requires
        written(c, marks, at, data),
    ensures
        0 <= marks.last() <= data.len(),
        last_put(c, a) == (if within(a, at, marks.last()) {
            Some(data[a - at])
        } else {
            None::<u8>
        }),
    decreases c.len(),
{
    if c.len() > 0 {
        let c1 = c.drop_last();
        let marks1 = marks.drop_last();
        let step = c[c.len() - 1];
        assert forall|i: int| 0 <= i < c1.len() implies {
            &&& 0 <= marks1[i] <= marks1[i + 1] <= data.len()
            &&& match #[trigger] c1[i] {
                Change::Nothing => marks1[i + 1] == marks1[i],
                Change::Patch { at: place, bytes } => place == at + marks1[i] && bytes
                    == data.subrange(marks1[i], marks1[i + 1]),
            }
        } by {
            assert(c1[i] == c[i]);
        }
        law_write_is_its_steps(c1, marks1, at, data, a);
    }
}

/// No step puts a byte into the `n` addresses from `at` on.
pub open spec fn untouched(c: Seq<Change>, at: int, n: int) -> bool {
    forall|i: int|
        0 <= i < c.len() ==> match #[trigger] c[i] {
            Change::Nothing => true,
            Change::Patch { at: place, bytes } => place + bytes.len() <= at || at + n <= place,
        }
}

/// Steps that put nothing at an address leave what was put there before.
proof fn lemma_put_before(c: Seq<Change>, k: int, at: int, n: int, a: int)
    requires
        0 <= k <= c.len(),
        untouched(c.skip(k), at, n),
        within(a, at, n),
    ensures
        last_put(c, a) == last_put(c.take(k), a),
    decreases c.len() - k,
{
    if k == c.len() {
        assert(c.take(k) =~= c);
    } else {
        let c1 = c.drop_last();
        assert(c.skip(k)[c.len() - 1 - k] == c.last());
        assert forall|i: int| 0 <= i < c1.skip(k).len() implies match #[trigger] c1.skip(k)[i] {
            Change::Nothing => true,
            Change::Patch { at: place, bytes } => place + bytes.len() <= at || at + n <= place,
        } by {
            assert(c1.skip(k)[i] == c.skip(k)[i]);
        }
        lemma_put_before(c1, k, at, n, a);
        assert(c1.take(k) =~= c.take(k));
    }
}

/// The steps of a read from `start` on; `marks` is how far it had come at each
/// moment, `bufs` what the buffer held.
pub open spec fn reads(
    m: Seq<Moment>,
    marks: Seq<int>,
    bufs: Seq<Seq<u8>>,
    start: int,
) -> bool {
    &&& m.len() > 0
    &&& marks.len() == m.len()
    &&& bufs.len() == m.len()
    &&& m[0].arena.backed(m[0].disk)
    &&& 0 <= marks[0] <= bufs[0].len()
    &&& forall|i: int|
        0 <= i < m.len() - 1 ==> {
            &&& marks[i] <= marks[i + 1] <= bufs[0].len()
            &&& same_content(
                (#[trigger] m[i]).arena,
                m[i].disk,
                m[i + 1].arena,
                m[i + 1].disk,
            )
            &&& copied_out(
                m[i].arena,
                m[i].disk,
                start,
                marks[i],
                marks[i + 1],
                bufs[i],
                bufs[i + 1],
            )
        }
}

/// A read in any number of steps reads what the arena held when it began,
/// however few frames there are and however many blocks it spans.
pub proof fn law_read_is_its_steps(
    m: Seq<Moment>,
    marks: Seq<int>,
    bufs: Seq<Seq<u8>>,
    start: int,
)
    requires
        reads(m, marks, bufs, start),
        m[0].arena.steady(),
        0 <= start,
        start + bufs[0].len() <= m[0].arena.sb.capacity,
    ensures
        same_content(m[0].arena, m[0].disk, m.last().arena, m.last().disk),
        marks[0] <= marks.last() <= bufs[0].len(),
        copied_out(
            m[0].arena,
            m[0].disk,
            start,
            marks[0],
            marks.last(),
            bufs[0],
            bufs.last(),
        ),
    decreases m.len(),
{
    let n = m.len() - 1;
    if n > 0 {
        let m1 = m.drop_last();
        let marks1 = marks.drop_last();
        let bufs1 = bufs.drop_last();
        assert(reads(m1, marks1, bufs1, start)) by {
            assert forall|i: int| 0 <= i < m1.len() - 1 implies {
                &&& marks1[i] <= marks1[i + 1] <= bufs1[0].len()
                &&& same_content(
                    (#[trigger] m1[i]).arena,
                    m1[i].disk,
                    m1[i + 1].arena,
                    m1[i + 1].disk,
                )
                &&& copied_out(
                    m1[i].arena,
                    m1[i].disk,
                    start,
                    marks1[i],
                    marks1[i + 1],
                    bufs1[i],
                    bufs1[i + 1],
                )
            } by {
                assert(m1[i] == m[i]);
            }
        }
        law_read_is_its_steps(m1, marks1, bufs1, start);
        let p = m[n - 1];
        assert(m1.last() == p);
        law_same_content_adds_up(m[0].arena, m[0].disk, p.arena, p.disk, m[n].arena, m[n].disk);
        law_read_steps_add_up(
            m[0].arena,
            m[0].disk,
            p.arena,
            p.disk,
            start,
            marks[0],
            marks[n - 1],
            marks[n],
            bufs[0],
            bufs[n - 1],
            bufs[n],
        );
    }
}

/// A read gives back what was written, in however many steps, whatever
/// happened in between: evictions, promotions, writebacks, syncs, reopenings,
/// and writes to other bytes. `c` begins with the `k` steps of the write; the
/// read begins where the run `m` ends.
pub proof fn law_read_gives_back_what_was_written(
    m: Seq<Moment>,
    c: Seq<Change>,
    k: int,
    progress: Seq<int>,
    at: int,
    data: Seq<u8>,
    r: Seq<Moment>,
    marks: Seq<int>,
    bufs: Seq<Seq<u8>>,
)
    requires
        runs(m, c),
        m[0].arena.steady(),
        0 <= at,
        at + data.len() <= m[0].arena.sb.capacity,
        0 <= k <= c.len(),
        written(c.take(k), progress, at, data),
        progress.last() == data.len(),
        untouched(c.skip(k), at, data.len() as int),
        reads(r, marks, bufs, at),
        r[0] == m.last(),
        r[0].arena.steady(),
        marks[0] == 0,
        marks.last() == data.len(),
        bufs[0].len() == data.len(),
    ensures
        bufs.last() == data,
{
    lemma_same_geometry(m, c);
    law_read_is_its_steps(r, marks, bufs, at);
    let got = bufs.last();
    assert forall|i: int| 0 <= i < data.len() implies got[i] == data[i] by {
        law_write_is_its_steps(c.take(k), progress, at, data, at + i);
        lemma_put_before(c, k, at, data.len() as int, at + i);
        law_last_put_stays(m, c, at + i);
    }
    assert(got =~= data);
}

/// Bytes that no step put anything at read as they did before.
pub proof fn law_read_beside_writes(
    m: Seq<Moment>,
    c: Seq<Change>,
    at: int,
    r: Seq<Moment>,
    marks: Seq<int>,
    bufs: Seq<Seq<u8>>,
)
    requires
        runs(m, c),
        m[0].arena.steady(),
        0 <= at,
        at + bufs[0].len() <= m[0].arena.sb.capacity,
        untouched(c, at, bufs[0].len() as int),
        forall|a: int| within(a, at, bufs[0].len() as int) ==> #[trigger] m[0].trusts(a),
        reads(r, marks, bufs, at),
        r[0] == m.last(),
        r[0].arena.steady(),
        marks[0] == 0,
        marks.last() == bufs[0].len(),
    ensures
        bufs.last() == m[0].arena.contents(m[0].disk, at, bufs[0].len() as int),
{
    lemma_same_geometry(m, c);
    law_read_is_its_steps(r, marks, bufs, at);
    let got = bufs.last();
    let n = bufs[0].len() as int;
    let want = m[0].arena.contents(m[0].disk, at, n);
    assert forall|i: int| 0 <= i < n implies got[i] == want[i] by {
        assert(m[0].trusts(at + i));
        assert(c.skip(0) =~= c);
        lemma_put_before(c, 0, at, n, at + i);
        assert(c.take(0).len() == 0);
        law_last_put_stays(m, c, at + i);
    }
    assert(got =~= want);
}

/// What is left in a mutable borrow of the bytes from `at` on is what later
/// reads give, also after eviction and reopening, and what a later borrow
/// shows. The borrow is the first step of the run.
pub proof fn law_borrowed_bytes_are_read_back(
    m: Seq<Moment>,
    c: Seq<Change>,
    at: int,
    bytes: Seq<u8>,
    r: Seq<Moment>,
    marks: Seq<int>,
    bufs: Seq<Seq<u8>>,
)
    requires
        runs(m, c),
        m[0].arena.steady(),
        0 <= at,
        at + bytes.len() <= m[0].arena.sb.capacity,
        c.len() > 0,
        c[0] == (Change::Patch { at, bytes }),
        untouched(c.skip(1), at, bytes.len() as int),
        reads(r, marks, bufs, at),
        r[0] == m.last(),
        r[0].arena.steady(),
        marks[0] == 0,
        marks.last() == bytes.len(),
        bufs[0].len() == bytes.len(),
    ensures
        bufs.last() == bytes,
        m.last().arena.contents(m.last().disk, at, bytes.len() as int) == bytes,
{
    let progress = seq![0int, bytes.len() as int];
    assert(bytes.subrange(0, bytes.len() as int) =~= bytes);
    law_read_gives_back_what_was_written(m, c, 1, progress, at, bytes, r, marks, bufs);
    let now = m.last().arena.contents(m.last().disk, at, bytes.len() as int);
    assert forall|i: int| 0 <= i < bytes.len() implies now[i] == bytes[i] by {
        law_write_is_its_steps(c.take(1), progress, at, bytes, at + i);
        lemma_put_before(c, 1, at, bytes.len() as int, at + i);
        law_last_put_stays(m, c, at + i);
    }
    assert(now =~= bytes);
}

/// A mutable borrow makes its block dirty, even if nothing was written.
pub proof fn law_borrow_dirties(s: ArenaState, b: int, bytes: Seq<u8>)
    requires
        s.steady(),
        s.resident(b),
    ensures
        s.rewritten(s.map[b], bytes).cell(b) == Cell::Dirty(bytes),
{
}

/// A byte of a pool that nothing was ever put at is zero.
pub proof fn law_never_written_is_zero(
    m: Seq<Moment>,
    c: Seq<Change>,
    sb: Superblock,
    opts: OpenOptions,
    a: int,
)
    requires
        sb.wf(),
        sb.file_end() <= u64::MAX,
        sb.nblocks <= usize::MAX,
        sb.checksum_table_len <= isize::MAX,
        frames_for(sb, opts) > 0,
        (OpenState::Checksums { opts, sb, regions: Seq::empty() }).fits(),
        runs(m, c),
        created(sb, m[0].disk),
        m[0].arena == fresh(
            sb,
            Seq::empty(),
            words_of(
                m[0].disk.subrange(
                    CHECKSUM_TABLE_OFF as int,
                    CHECKSUM_TABLE_OFF + sb.checksum_table_len,
                ),
            ),
            opts,
        ),
        0 <= a < sb.capacity,
        last_put(c, a) is None,
    ensures
        m.last().trusts(a),
        m.last().byte(a) == 0,
{
    law_created_pool_is_zeros(sb, m[0].disk, opts);
    lemma_block_of(m[0].arena, m[0].arena.held(), a);
    law_last_put_stays(m, c, a);
}

} // verus!
