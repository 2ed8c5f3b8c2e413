//! Creating and opening pools.
//!
//! A pool is created by a fixed plan of file operations, and opened by
//! reading its header, its region table and its checksum table, each examined
//! before the next is asked for.

use crate::arena::{CreateOptions, Loom, OpenOptions, DEFAULT_PREFETCH_DEPTH};
#[allow(unused_imports)]
use crate::arena::empty_arena;
#[allow(unused_imports)]
use crate::checksum::xxh3_64_of;
use crate::error::LoomError;
use crate::io::Action;
#[allow(unused_imports)]
use crate::io::{is_read, is_write};
#[allow(unused_imports)]
use crate::state::{placed, regions_fit, ArenaState};
use crate::stats::bump;
#[allow(unused_imports)]
use crate::stats::{bumped, lemma_total_zeros, HistState};
#[allow(unused_imports)]
use crate::steps::{lemma_all_cold, lemma_split};
use crate::superblock::{
    decode_regions, encode_regions, Superblock, CHECKSUM_TABLE_OFF, MAX_REGIONS,
    REGION_TABLE_LEN, REGION_TABLE_OFF, SUPERBLOCK_LEN,
};
#[allow(unused_imports)]
use crate::superblock::{
    block_size_text, capacity_text, claimed_regions, geometry, header_error, lemma_geometry,
    listed_regions, read_header, region_table, superblock_bytes, valid_block_size,
    valid_capacity, Header,
};
use crate::text::push_dec;
#[allow(unused_imports)]
use crate::text::dec;
use crate::words::words_from_bytes;
#[allow(unused_imports)]
use crate::words::words_of;
use vstd::prelude::*;
use vstd::string::*;

verus! {

/// Why a pool cannot be created.
pub open spec fn create_refused(opts: CreateOptions, e: LoomError) -> bool {
    e matches LoomError::Invalid(t) && t@ == (if !valid_block_size(opts.block_size) {
        block_size_text(opts.block_size)
    } else if !valid_capacity(opts.block_size, opts.capacity) {
        capacity_text(opts.block_size, opts.capacity)
    } else {
        "budget "@ + dec(opts.budget as nat) + " smaller than one block ("@ + dec(
            opts.block_size as nat,
        ) + ")"@
    })
}

/// A pool can be created: a valid geometry, and a budget of at least one
/// block.
pub open spec fn creatable(opts: CreateOptions) -> bool {
    &&& valid_block_size(opts.block_size)
    &&& valid_capacity(opts.block_size, opts.capacity)
    &&& opts.budget >= opts.block_size
}

/// What it takes to create a pool: a sparse file of the right length, the
/// superblock, an empty region table, and stable storage. The checksum table
/// is left as sparse zeros: no block was ever written.
pub open spec fn creation(sb: Superblock, plan: Seq<Action>) -> bool {
    &&& plan.len() == 4
    &&& plan[0] == (Action::SetLen { len: sb.file_end() as u64 })
    &&& is_write(plan[1], 0, superblock_bytes(sb))
    &&& is_write(plan[2], REGION_TABLE_OFF as int, region_table(Seq::empty()))
    &&& plan[3] is Sync
}

impl Loom {
    /// What the driver has to do, in order, to create a pool in a new empty
    /// file. A file too long for a 64-bit offset is the caller's to rule out.
    pub fn create(opts: &CreateOptions) -> (r: Result<Vec<Action>, LoomError>)
        requires
            creatable(*opts) ==> geometry(
                opts.block_size,
                opts.capacity,
                opts.budget,
            ).file_end() <= u64::MAX,
        ensures
            match r {
                Ok(plan) => {
                    &&& creatable(*opts)
                    &&& creation(
                        geometry(opts.block_size, opts.capacity, opts.budget),
                        plan@,
                    )
                },
                Err(e) => !creatable(*opts) && create_refused(*opts, e),
            },
    {
        let sb = match Superblock::new(opts.block_size, opts.capacity, opts.budget) {
            Ok(sb) => sb,
            Err(e) => {
                return Err(e);
            },
        };
        if opts.budget < opts.block_size as u64 {
            let mut t = String::from_str("budget ");
            push_dec(&mut t, opts.budget);
            t.append(" smaller than one block (");
            push_dec(&mut t, opts.block_size as u64);
            t.append(")");
            return Err(LoomError::Invalid(t));
        }
        let header = sb.encode();
        let none: Vec<(u64, u64)> = Vec::new();
        let table: Vec<u8> = match encode_regions(none.as_slice()) {
            Ok(b) => vstd::slice::slice_to_vec(b.as_slice()),
            Err(_) => Vec::new(),
        };
        let mut plan: Vec<Action> = Vec::new();
        plan.push(Action::SetLen { len: sb.file_len() });
        plan.push(
            Action::Write { offset: 0, data: vstd::slice::slice_to_vec(header.as_slice()) },
        );
        plan.push(Action::Write { offset: REGION_TABLE_OFF, data: table });
        plan.push(Action::Sync);
        assert(none@ =~= Seq::<(u64, u64)>::empty());
        Ok(plan)
    }

    /// Start opening a pool: its header is read first.
    pub fn open(opts: OpenOptions) -> (r: (Opening, Action))
        ensures
            r.0@ == (OpenState::Header { opts }),
            is_read(r.1, 0, SUPERBLOCK_LEN as int),
    {
        (
            Opening { opts, stage: Stage::Header },
            Action::Read { offset: 0, len: SUPERBLOCK_LEN as usize },
        )
    }
}

/// How far the opening of a pool is, as mathematics.
pub enum OpenState {
    /// The header is being read.
    Header { opts: OpenOptions },
    /// The region table is being read.
    Regions { opts: OpenOptions, sb: Superblock },
    /// The checksum table is being read.
    Checksums { opts: OpenOptions, sb: Superblock, regions: Seq<(u64, u64)> },
}

/// A pool being opened.
pub struct Opening {
    opts: OpenOptions,
    stage: Stage,
}

enum Stage {
    Header,
    Regions { sb: Superblock },
    Checksums { sb: Superblock, regions: Vec<(u64, u64)> },
}

impl View for Opening {
    type V = OpenState;

    closed spec fn view(&self) -> OpenState {
        match self.stage {
            Stage::Header => OpenState::Header { opts: self.opts },
            Stage::Regions { sb } => OpenState::Regions { opts: self.opts, sb },
            Stage::Checksums { sb, regions } => OpenState::Checksums {
                opts: self.opts,
                sb,
                regions: regions@,
            },
        }
    }
}

impl OpenState {
    /// What was read so far makes sense.
    pub open spec fn wf(self) -> bool {
        match self {
            OpenState::Header { opts } => true,
            OpenState::Regions { opts, sb } => sb.wf() && sb.file_end() <= u64::MAX,
            OpenState::Checksums { opts, sb, regions } => {
                &&& sb.wf()
                &&& sb.file_end() <= u64::MAX
                &&& sb.nblocks <= usize::MAX
                &&& sb.checksum_table_len <= isize::MAX
                &&& regions_fit(regions, sb.capacity)
            },
        }
    }

    /// Bytes of the read that is waited for.
    pub open spec fn wants(self) -> int {
        match self {
            OpenState::Header { opts } => SUPERBLOCK_LEN as int,
            OpenState::Regions { opts, sb } => REGION_TABLE_LEN as int,
            OpenState::Checksums { opts, sb, regions } => sb.checksum_table_len as int,
        }
    }

    /// What comes next fits into this machine's memory: the tables, then the
    /// frames.
    pub open spec fn fits(self) -> bool {
        match self {
            OpenState::Header { opts } => true,
            OpenState::Regions { opts, sb } => {
                &&& sb.nblocks <= usize::MAX
                &&& sb.checksum_table_len <= isize::MAX
            },
            OpenState::Checksums { opts, sb, regions } => {
                &&& frames_for(sb, opts) <= u32::MAX
                &&& frames_for(sb, opts) * sb.block_size <= isize::MAX
            },
        }
    }
}

/// The hot budget of an arena.
pub open spec fn budget_for(sb: Superblock, opts: OpenOptions) -> u64 {
    match opts.budget {
        Some(b) => b,
        None => sb.default_budget,
    }
}

/// How many frames the budget pays for.
pub open spec fn frames_for(sb: Superblock, opts: OpenOptions) -> int {
    budget_for(sb, opts) as int / sb.block_size as int
}

/// Blocks per speculative read: what was asked for, but never more than a
/// quarter of the pool. A batch that evicts most of the hot set to make room
/// for guesses is a thrash machine, not a prefetcher.
pub open spec fn depth_for(sb: Superblock, opts: OpenOptions) -> int {
    let asked = match opts.prefetch_depth {
        Some(d) => d as int,
        None => DEFAULT_PREFETCH_DEPTH as int,
    };
    if asked < frames_for(sb, opts) / 4 {
        asked
    } else {
        frames_for(sb, opts) / 4
    }
}

/// An arena just opened: nothing in RAM but the tables.
pub open spec fn fresh(
    sb: Superblock,
    regions: Seq<(u64, u64)>,
    checksums: Seq<u64>,
    opts: OpenOptions,
) -> ArenaState {
    empty_arena(
        sb,
        regions,
        checksums,
        budget_for(sb, opts),
        frames_for(sb, opts) as nat,
        depth_for(sb, opts) as nat,
    )
}

/// A region lies outside the arena.
pub open spec fn stray(region: (u64, u64), capacity: u64) -> bool {
    region.0 + region.1 > capacity
}

/// The first region of the list that lies outside the arena.
pub open spec fn first_stray(regions: Seq<(u64, u64)>, capacity: u64, i: int) -> bool {
    &&& 0 <= i < regions.len()
    &&& stray(regions[i], capacity)
    &&& forall|j: int| 0 <= j < i ==> !stray(#[trigger] regions[j], capacity)
}

/// The file is as long as the header says. The length is compared without
/// bound; its text is that of the 64-bit sum.
pub open spec fn length_text(file_len: u64, sb: Superblock) -> Seq<char> {
    "file length "@ + dec(file_len as nat) + " does not match superblock geometry "@ + dec(
        bumped(sb.data_off, sb.capacity as int) as nat,
    )
}

/// Why a region table is refused for a region.
pub open spec fn stray_text(i: int, region: (u64, u64), capacity: u64) -> Seq<char> {
    "region "@ + dec(i as nat) + " ["@ + dec(region.0 as nat) + ", +"@ + dec(region.1 as nat)
        + ") exceeds capacity "@ + dec(capacity as nat)
}

/// What the next reply leads to.
pub enum OpenStep {
    /// More has to be read.
    Io(Opening, Action),
    /// The arena is open.
    Ready(Loom),
    /// The file is not a pool, or cannot be opened this way.
    Failed(LoomError),
}

/// The header examined: is it a pool's, and does the file have the pool's
/// length?
pub open spec fn header_step(
    opts: OpenOptions,
    bytes: Seq<u8>,
    file_len: u64,
    r: OpenStep,
) -> bool {
    match read_header(bytes) {
        Header::Valid(sb) => if sb.file_end() == file_len {
            &&& r matches OpenStep::Io(o, a)
            &&& o@ == (OpenState::Regions { opts, sb })
            &&& is_read(a, REGION_TABLE_OFF as int, REGION_TABLE_LEN as int)
        } else {
            &&& r matches OpenStep::Failed(e)
            &&& e matches LoomError::BadSuperblock(t)
            &&& t@ == length_text(file_len, sb)
        },
        _ => r matches OpenStep::Failed(e) && header_error(
            bytes,
            xxh3_64_of(bytes.subrange(0, 56)),
            e,
        ),
    }
}

/// The region table examined.
pub open spec fn regions_step(opts: OpenOptions, sb: Superblock, bytes: Seq<u8>, r: OpenStep) -> bool {
    let regions = listed_regions(bytes);
    if claimed_regions(bytes) > MAX_REGIONS {
        &&& r matches OpenStep::Failed(e)
        &&& e matches LoomError::BadSuperblock(t)
        &&& t@ == "region table claims "@ + dec(claimed_regions(bytes) as nat) + " regions (max "@
            + dec(MAX_REGIONS as nat) + ")"@
    } else if regions_fit(regions, sb.capacity) {
        &&& r matches OpenStep::Io(o, a)
        &&& o@ == (OpenState::Checksums { opts, sb, regions })
        &&& is_read(a, CHECKSUM_TABLE_OFF as int, sb.checksum_table_len as int)
    } else {
        &&& r matches OpenStep::Failed(e)
        &&& e matches LoomError::BadSuperblock(t)
        &&& exists|i: int| #[trigger]
            first_stray(regions, sb.capacity, i) && t@ == stray_text(i, regions[i], sb.capacity)
    }
}

/// The checksum table is here, and the budget decides.
pub open spec fn checksums_step(
    opts: OpenOptions,
    sb: Superblock,
    regions: Seq<(u64, u64)>,
    bytes: Seq<u8>,
    r: OpenStep,
) -> bool {
    if frames_for(sb, opts) == 0 {
        &&& r matches OpenStep::Failed(e)
        &&& e matches LoomError::Invalid(t)
        &&& t@ == "budget "@ + dec(budget_for(sb, opts) as nat) + " yields zero frames of "@ + dec(
            sb.block_size as nat,
        ) + " bytes"@
    } else {
        &&& r matches OpenStep::Ready(l)
        &&& l.wf()
        &&& l@ == fresh(sb, regions, words_of(bytes), opts)
    }
}

impl Opening {
    /// Does what comes next fit into this machine's memory? To be asked
    /// before a reply is handed over.
    pub fn fits(&self) -> (b: bool)
        requires
            self@.wf(),
        ensures
            b == self@.fits(),
    {
        match &self.stage {
            Stage::Header => true,
            Stage::Regions { sb } => {
                sb.nblocks <= usize::MAX as u64 && sb.checksum_table_len <= isize::MAX as u64
            },
            Stage::Checksums { sb, regions } => {
                let budget: u64 = match self.opts.budget {
                    Some(b) => b,
                    None => sb.default_budget,
                };
                let count: u64 = budget / sb.block_size as u64;
                proof {
                    lemma_frames_in_budget(*sb, self.opts);
                }
                count <= u32::MAX as u64 && count * sb.block_size as u64 <= isize::MAX as u64
            },
        }
    }

    /// Go on with the bytes that were read. `file_len` is the length of the
    /// file; only the header is held against it.
    pub fn resume(self, bytes: &[u8], file_len: u64) -> (r: OpenStep)
        requires
            self@.wf(),
            self@.fits(),
            bytes@.len() == self@.wants(),
        ensures
            r matches OpenStep::Io(o, a) ==> o@.wf(),
            match self@ {
                OpenState::Header { opts } => header_step(opts, bytes@, file_len, r),
                OpenState::Regions { opts, sb } => regions_step(opts, sb, bytes@, r),
                OpenState::Checksums { opts, sb, regions } => checksums_step(
                    opts,
                    sb,
                    regions,
                    bytes@,
                    r,
                ),
            },
    {
        let opts = self.opts;
        match self.stage {
            Stage::Header => Self::header_read(opts, bytes, file_len),
            Stage::Regions { sb } => Self::regions_read(opts, sb, bytes),
            Stage::Checksums { sb, regions } => Self::checksums_read(opts, sb, regions, bytes),
        }
    }

    fn header_read(opts: OpenOptions, bytes: &[u8], file_len: u64) -> (r: OpenStep)
        ensures
            r matches OpenStep::Io(o, a) ==> o@.wf(),
            header_step(opts, bytes@, file_len, r),
    {
        let sb = match Superblock::decode(bytes) {
            Ok(sb) => sb,
            Err(e) => {
                return OpenStep::Failed(e);
            },
        };
        if sb.capacity > u64::MAX - sb.data_off || file_len != sb.data_off + sb.capacity {
            let mut t = String::from_str("file length ");
            push_dec(&mut t, file_len);
            t.append(" does not match superblock geometry ");
            push_dec(&mut t, bump(sb.data_off, sb.capacity));
            return OpenStep::Failed(LoomError::BadSuperblock(t));
        }
        OpenStep::Io(
            Opening { opts, stage: Stage::Regions { sb } },
            Action::Read { offset: REGION_TABLE_OFF, len: REGION_TABLE_LEN as usize },
        )
    }

    fn regions_read(opts: OpenOptions, sb: Superblock, bytes: &[u8]) -> (r: OpenStep)
        requires
            sb.wf(),
            sb.file_end() <= u64::MAX,
            sb.nblocks <= usize::MAX,
            sb.checksum_table_len <= isize::MAX,
            bytes@.len() == REGION_TABLE_LEN,
        ensures
            r matches OpenStep::Io(o, a) ==> o@.wf(),
            regions_step(opts, sb, bytes@, r),
    {
        let regions: Vec<(u64, u64)> = match decode_regions(bytes) {
            Ok(v) => v,
            Err(e) => {
                return OpenStep::Failed(e);
            },
        };
        let n: usize = regions.len();
        let mut i: usize = 0;
        while i < n
            invariant
                n == regions@.len(),
                n <= MAX_REGIONS,
                regions@ == listed_regions(bytes@),
                claimed_regions(bytes@) <= MAX_REGIONS,
                i <= n,
                forall|j: int| 0 <= j < i ==> !stray(#[trigger] regions@[j], sb.capacity),
            decreases n - i,
        {
            let (off, len) = regions[i];
            if len > u64::MAX - off || off + len > sb.capacity {
                let mut t = String::from_str("region ");
                push_dec(&mut t, i as u64);
                t.append(" [");
                push_dec(&mut t, off);
                t.append(", +");
                push_dec(&mut t, len);
                t.append(") exceeds capacity ");
                push_dec(&mut t, sb.capacity);
                proof {
                    assert(first_stray(regions@, sb.capacity, i as int));
                    assert(regions@[i as int].0 + regions@[i as int].1 > sb.capacity);
                    assert(!regions_fit(regions@, sb.capacity));
                }
                return OpenStep::Failed(LoomError::BadSuperblock(t));
            }
            i = i + 1;
        }
        assert forall|j: int| 0 <= j < regions@.len() implies (#[trigger] regions@[j]).0
            + regions@[j].1 <= sb.capacity by {
            assert(!stray(regions@[j], sb.capacity));
        }
        proof {
            lemma_geometry(sb.block_size, sb.capacity, sb.default_budget);
        }
        let len: usize = sb.checksum_table_len as usize;
        OpenStep::Io(
            Opening { opts, stage: Stage::Checksums { sb, regions } },
            Action::Read { offset: CHECKSUM_TABLE_OFF, len },
        )
    }

    fn checksums_read(
        opts: OpenOptions,
        sb: Superblock,
        regions: Vec<(u64, u64)>,
        bytes: &[u8],
    ) -> (r: OpenStep)
        requires
            (OpenState::Checksums { opts, sb, regions: regions@ }).wf(),
            (OpenState::Checksums { opts, sb, regions: regions@ }).fits(),
            bytes@.len() == sb.checksum_table_len,
        ensures
            !(r is Io),
            checksums_step(opts, sb, regions@, bytes@, r),
    {
        proof {
            lemma_geometry(sb.block_size, sb.capacity, sb.default_budget);
            lemma_frames_in_budget(sb, opts);
        }
        let checksums: Vec<u64> = words_from_bytes(bytes);
        let budget: u64 = match opts.budget {
            Some(b) => b,
            None => sb.default_budget,
        };
        let count: u64 = budget / sb.block_size as u64;
        if count == 0 {
            let mut t = String::from_str("budget ");
            push_dec(&mut t, budget);
            t.append(" yields zero frames of ");
            push_dec(&mut t, sb.block_size as u64);
            t.append(" bytes");
            return OpenStep::Failed(LoomError::Invalid(t));
        }
        let frame_count: usize = count as usize;
        let asked: usize = match opts.prefetch_depth {
            Some(d) => d,
            None => DEFAULT_PREFETCH_DEPTH,
        };
        let prefetch_depth: usize = if asked < frame_count / 4 {
            asked
        } else {
            frame_count / 4
        };
        let l = Loom::assemble(sb, regions, checksums, budget, frame_count, prefetch_depth);
        proof {
            lemma_fresh(sb, regions@, words_of(bytes@), opts);
        }
        OpenStep::Ready(l)
    }
}

/// An arena has the budget it is opened with, whatever its pool records, and
/// the recorded one where it is opened without; it has as many frames as that
/// budget pays for, and is refused only where that is none.
pub proof fn law_the_budget_asked_for_is_the_budget(
    opts: OpenOptions,
    sb: Superblock,
    regions: Seq<(u64, u64)>,
    bytes: Seq<u8>,
    r: OpenStep,
)
    requires
        (OpenState::Checksums { opts, sb, regions }).wf(),
        checksums_step(opts, sb, regions, bytes, r),
    ensures
        opts.budget matches Some(b) ==> (r is Ready <==> b >= sb.block_size),
        opts.budget is None ==> (r is Ready <==> sb.default_budget >= sb.block_size),
        r matches OpenStep::Ready(l) ==> {
            &&& opts.budget matches Some(b) ==> l@.budget == b
            &&& opts.budget is None ==> l@.budget == sb.default_budget
            &&& l@.frames.meta.len() * sb.block_size <= l@.budget
            &&& l@.budget < l@.frames.meta.len() * sb.block_size + sb.block_size
            &&& l@.frames.meta.len() == l@.budget as int / sb.block_size as int
            &&& l@.frames.block_size == sb.block_size
            &&& l@.frames.free.len() == l@.frames.meta.len()
            &&& l@.frames.data.len() == l@.frames.meta.len()
        },
{
    let b = budget_for(sb, opts) as int;
    let s = sb.block_size as int;
    let n = frames_for(sb, opts);
    lemma_geometry(sb.block_size, sb.capacity, sb.default_budget);
    vstd::arithmetic::div_mod::lemma_fundamental_div_mod(b, s);
    vstd::arithmetic::div_mod::lemma_mod_bound(b, s);
    vstd::arithmetic::div_mod::lemma_div_pos_is_pos(b, s);
    vstd::arithmetic::mul::lemma_mul_is_commutative(s, n);
    if b >= s {
        assert(n > 0) by (nonlinear_arith)
            requires
                b >= s,
                s > 0,
                b < n * s + s,
        ;
    } else {
        assert(n == 0) by (nonlinear_arith)
            requires
                b < s,
                s > 0,
                0 <= n,
                n * s <= b,
        ;
    }
}

/// Two openings of one pool: whatever default the pool records, the same
/// budget gives the same arena, and a larger budget never fewer frames.
pub proof fn law_the_default_budget_is_only_a_default(
    a: Superblock,
    b: Superblock,
    x: OpenOptions,
    y: OpenOptions,
)
    requires
        a.wf(),
        a.block_size == b.block_size,
        x.budget is Some,
        y.budget is Some,
    ensures
        x == y ==> frames_for(a, x) == frames_for(b, y) && budget_for(a, x) == budget_for(b, y)
            && depth_for(a, x) == depth_for(b, y),
        x.budget->0 <= y.budget->0 ==> frames_for(a, x) <= frames_for(b, y),
        x.budget == y.budget ==> frames_for(a, x) == frames_for(b, y),
{
    lemma_geometry(a.block_size, a.capacity, a.default_budget);
    if x.budget->0 <= y.budget->0 {
        vstd::arithmetic::div_mod::lemma_div_is_ordered(
            x.budget->0 as int,
            y.budget->0 as int,
            a.block_size as int,
        );
    }
}

/// A speculative read never takes more than a quarter of the frames; where the
/// depth that was asked for stays within that, it is the depth, else there is
/// no larger one. Without a wish the depth is the usual one, or the quarter.
pub proof fn law_speculation_takes_at_most_a_quarter(
    opts: OpenOptions,
    sb: Superblock,
    regions: Seq<(u64, u64)>,
    bytes: Seq<u8>,
    r: OpenStep,
)
    requires
        (OpenState::Checksums { opts, sb, regions }).wf(),
        checksums_step(opts, sb, regions, bytes, r),
    ensures
        r matches OpenStep::Ready(l) ==> {
            let n = l@.frames.meta.len();
            let d = l@.prefetch_depth;
            &&& 4 * d <= n
            &&& opts.prefetch_depth matches Some(k) ==> d <= k && (4 * k <= n ==> d == k) && (4 * k
                > n ==> 4 * d + 4 > n)
            &&& opts.prefetch_depth is None ==> d <= DEFAULT_PREFETCH_DEPTH && (4
                * DEFAULT_PREFETCH_DEPTH <= n ==> d == DEFAULT_PREFETCH_DEPTH) && (4
                * DEFAULT_PREFETCH_DEPTH > n ==> 4 * d + 4 > n)
        },
{
    lemma_frames_in_budget(sb, opts);
}

/// A freshly opened arena has the pool's header, regions and checksums, and
/// nothing else: no block in RAM, nothing changed, nothing counted, no run of
/// misses, nothing under way.
pub proof fn law_a_fresh_arena_is_empty(
    opts: OpenOptions,
    sb: Superblock,
    regions: Seq<(u64, u64)>,
    bytes: Seq<u8>,
    r: OpenStep,
)
    requires
        (OpenState::Checksums { opts, sb, regions }).wf(),
        checksums_step(opts, sb, regions, bytes, r),
    ensures
        r matches OpenStep::Ready(l) ==> {
            &&& l@.sb == sb
            &&& l@.regions == regions
            &&& l@.checksums == words_of(bytes)
            &&& forall|b: int| 0 <= b < sb.nblocks ==> !#[trigger] l@.resident(b)
            &&& forall|f: int|
                0 <= f < l@.frames.meta.len() ==> !(#[trigger] l@.frames.meta[f]).bound()
            &&& forall|f: u32| f < l@.frames.meta.len() ==> #[trigger] l@.frames.free.contains(f)
            &&& !l@.dirty_meta
            &&& l@.last_miss is None
            &&& l@.seq_run == 0
            &&& l@.wait is Nothing
            &&& l@.job is Idle
            &&& l@.stats.hits == 0 && l@.stats.misses == 0 && l@.stats.evictions == 0
            &&& l@.stats.writebacks == 0 && l@.stats.bytes_read_backing == 0
            &&& l@.stats.bytes_written_backing == 0
        },
{
    if r is Ready {
        let l = r->Ready_0@;
        let n = l.frames.meta.len();
        assert forall|f: u32| f < n implies #[trigger] l.frames.free.contains(f) by {
            assert(l.frames.free[n - 1 - f] == f);
        }
    }
}

/// A pool opens with the header it was created with, in a file of exactly the
/// length the plan sets: just as long as header, tables and all the blocks.
pub proof fn law_created_pools_are_sized_right(opts: CreateOptions, plan: Seq<Action>)
    requires
        creatable(opts),
        geometry(opts.block_size, opts.capacity, opts.budget).file_end() <= u64::MAX,
        creation(geometry(opts.block_size, opts.capacity, opts.budget), plan),
    ensures
        ({
            let sb = geometry(opts.block_size, opts.capacity, opts.budget);
            &&& sb.block_size == opts.block_size
            &&& sb.capacity == opts.capacity
            &&& sb.default_budget == opts.budget
            &&& sb.nblocks * sb.block_size == opts.capacity
            &&& plan[0] matches Action::SetLen { len } && len == sb.data_off + opts.capacity
            &&& plan[0] matches Action::SetLen { len } && forall|b: int|
                0 <= b < sb.nblocks ==> CHECKSUM_TABLE_OFF + 8 * sb.nblocks <= #[trigger] sb.block_start(b)
                    && sb.block_start(b) + sb.block_size <= len
        }),
{
    let sb = geometry(opts.block_size, opts.capacity, opts.budget);
    lemma_geometry(opts.block_size, opts.capacity, opts.budget);
    assert forall|b: int| 0 <= b < sb.nblocks implies CHECKSUM_TABLE_OFF + 8 * sb.nblocks
        <= #[trigger] sb.block_start(b) && sb.block_start(b) + sb.block_size <= sb.file_end() by {
        crate::superblock::lemma_block_range(sb, b, 1);
    }
}

/// What is read of a file is examined before more is asked for: a file that is
/// opened had a sound header, the length that the header says, and only
/// regions inside the arena.
pub proof fn law_only_sound_files_are_opened(
    opts: OpenOptions,
    head: Seq<u8>,
    file_len: u64,
    a: OpenStep,
    table: Seq<u8>,
    b: OpenStep,
)
    requires
        header_step(opts, head, file_len, a),
        a matches OpenStep::Io(o, x) && (o@ matches OpenState::Regions { opts: p, sb }
            && regions_step(p, sb, table, b)),
    ensures
        ({
            let sb = a->Io_0@->Regions_sb;
            &&& read_header(head) == Header::Valid(sb)
            &&& file_len == sb.data_off + sb.capacity
            &&& b matches OpenStep::Io(o, x) ==> {
                &&& o@ matches OpenState::Checksums { opts: p, sb: t, regions } && p == opts && t
                    == sb && forall|i: int|
                    0 <= i < regions.len() ==> (#[trigger] regions[i]).0 + regions[i].1
                        <= sb.capacity
                &&& o@ matches OpenState::Checksums { opts: p, sb: t, regions } && regions.len()
                    <= MAX_REGIONS
            }
            &&& b is Io || b matches OpenStep::Failed(LoomError::BadSuperblock(_))
        }),
{
}

/// A freshly opened arena is valid.
pub proof fn lemma_fresh(
    sb: Superblock,
    regions: Seq<(u64, u64)>,
    checksums: Seq<u64>,
    opts: OpenOptions,
)
    requires
        (OpenState::Checksums { opts, sb, regions }).wf(),
        (OpenState::Checksums { opts, sb, regions }).fits(),
        frames_for(sb, opts) > 0,
        8 * checksums.len() == sb.checksum_table_len,
    ensures
        fresh(sb, regions, checksums, opts).wf(),
        fresh(sb, regions, checksums, opts).all_cold(),
{
    let s = fresh(sb, regions, checksums, opts);
    let n = frames_for(sb, opts) as nat;
    let none: Seq<u32> = Seq::empty();
    let meta = s.frames.meta;
    let free = s.frames.free;
    lemma_frames_in_budget(sb, opts);
    lemma_geometry(sb.block_size, sb.capacity, sb.default_budget);
    assert forall|f: u32| f < meta.len() implies #[trigger] placed(meta, free, none, f) by {
        assert(free[n - 1 - f] == f);
        assert(free.contains(f));
    }
    lemma_total_zeros(HistState::empty().buckets);
    assert(s.steady());
    lemma_all_cold(s);
}

/// The frames fit the budget.
proof fn lemma_frames_in_budget(sb: Superblock, opts: OpenOptions)
    requires
        sb.wf(),
    ensures
        0 <= frames_for(sb, opts),
        frames_for(sb, opts) * sb.block_size <= budget_for(sb, opts),
{
    let b = budget_for(sb, opts) as int;
    lemma_split(b, sb.block_size as int);
}

} // verus!
