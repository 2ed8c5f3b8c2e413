//! Transparent fault-in: a real pointer into an arena larger than RAM.
//!
//! The application receives a pointer spanning the whole arena and
//! dereferences it normally. The arena runs only on faults: once a page is
//! mapped, a hit is free.
//!
//! The fault transport is Linux `userfaultfd`, registered for missing and
//! write-protected pages:
//! - **missing**: the page has no backing yet. Load the containing extent
//!   from the pool and map it in, write-protected.
//! - **write-protected**: the page is present, so this access is a *write*.
//!   Mark the extent dirty and lift the protection. This is exact dirty
//!   tracking — no assuming every touched page was written.
//! - **eviction**: write the extent back if dirty, then release its pages.
//!   The next touch faults as missing again.
//!
//! This module decides; the driver moves bytes and talks to the kernel. Each
//! fault is a short exchange: the arena names a [`FaultAction`], the driver
//! says whether it went through.
//!
//! Fault granularity is a page (4 KiB) but the **load** unit is an extent
//! (default 64 KiB), because a 4 KiB round trip to a 10 ms device is
//! ruinous.

use crate::error::LoomError;
use crate::stats::{bump, LatencyHist};
#[allow(unused_imports)]
use crate::stats::{bumped, HistState};
use crate::text::{push_dec, push_hex};
#[allow(unused_imports)]
use crate::text::{dec, hex};
use std::collections::VecDeque;
use std::time::Instant;
use vstd::prelude::*;
use vstd::string::*;

verus! {

// ---- kernel interface ---------------------------------------------------

/// The API version asked for.
pub const UFFD_API: u64 = 0xAA;

/// The ioctl type of every userfaultfd request.
pub const UFFDIO: u32 = 0xAA;

pub const UFFDIO_REGISTER_MODE_MISSING: u64 = 1;
pub const UFFDIO_REGISTER_MODE_WP: u64 = 2;
pub const UFFDIO_COPY_MODE_WP: u64 = 2;
pub const UFFD_FEATURE_PAGEFAULT_FLAG_WP: u64 = 16;

/// The event of a page fault.
pub const UFFD_EVENT_PAGEFAULT: u8 = 0x12;

/// Flag of a fault on a write-protected page.
pub const UFFD_PAGEFAULT_FLAG_WP: u64 = 2;

/// The number of a request that reads and writes `size` bytes: direction,
/// size, type and number, in fields of 2, 14, 8 and 8 bits. Computed rather
/// than transcribed: a hand-copied constant is exactly the kind of thing that
/// compiles cleanly and is silently wrong.
pub fn iowr(ty: u32, nr: u32, size: u32) -> (n: u32)
    requires
        ty < 256,
        nr < 256,
        size < 16384,
    ensures
        n == 3 * 0x4000_0000 + size * 0x1_0000 + ty * 0x100 + nr,
        n >> 30 == 3,
        (n >> 16) & 0x3fff == size,
        (n >> 8) & 0xff == ty,
        n & 0xff == nr,
{
    assert({
        let n = (3u32 << 30) | (size << 16) | (ty << 8) | nr;
        n >> 30 == 3 && (n >> 16) & 0x3fff == size && (n >> 8) & 0xff == ty && n & 0xff == nr
    }) by (bit_vector)
        requires
            ty < 256,
            nr < 256,
            size < 16384,
    ;
    assert(((3u32 << 30) | (size << 16) | (ty << 8) | nr) == 3 * 0x4000_0000 + size * 0x1_0000 + ty
        * 0x100 + nr) by (bit_vector)
        requires
            ty < 256,
            nr < 256,
            size < 16384,
    ;
    (3u32 << 30) | (size << 16) | (ty << 8) | nr
}

// ---- configuration ------------------------------------------------------

/// Bytes loaded per fault. A page is 4 KiB but a 4 KiB round trip to a 10 ms
/// device is ruinous; one fault should pay for a useful span.
pub const DEFAULT_EXTENT: usize = 65536;

/// How much of an arena may be addressed and mapped.
#[derive(Debug, Clone)]
pub struct FaultOptions {
    /// Bytes of the arena the program may address.
    pub len: usize,
    /// Bytes loaded and mapped per fault.
    pub extent: usize,
    /// Hard cap on mapped arena bytes. This is the budget, and it is enforced
    /// by counting extents that were mapped — not hoped for.
    pub resident_budget: usize,
}

impl FaultOptions {
    /// The default extent.
    pub fn new(len: usize, resident_budget: usize) -> (o: Self)
        ensures
            o.len == len,
            o.extent == DEFAULT_EXTENT,
            o.resident_budget == resident_budget,
    {
        FaultOptions { len, extent: DEFAULT_EXTENT, resident_budget }
    }
}

/// A geometry that can work: whole pages per extent, whole extents, inside
/// the region, and a budget of at least one extent.
pub open spec fn workable(len: int, extent: int, budget: int, page: int, region_len: int) -> bool {
    &&& extent != 0 && extent % page == 0
    &&& len != 0 && len % extent == 0
    &&& len <= region_len
    &&& budget / extent > 0
}

/// Why a geometry cannot work.
pub open spec fn unworkable_text(
    len: int,
    extent: int,
    budget: int,
    page: int,
    region_len: int,
) -> Seq<char> {
    if extent == 0 || extent % page != 0 {
        "extent "@ + dec(extent as nat) + " must be a non-zero multiple of the page size "@ + dec(
            page as nat,
        )
    } else if len == 0 || len % extent != 0 {
        "len "@ + dec(len as nat) + " must be a non-zero multiple of extent "@ + dec(extent as nat)
    } else if len > region_len {
        "len "@ + dec(len as nat) + " exceeds region length "@ + dec(region_len as nat)
    } else {
        "resident budget "@ + dec(budget as nat) + " is smaller than one extent ("@ + dec(
            extent as nat,
        ) + ")"@
    }
}

/// Hold a geometry against the page size and the region; how many extents
/// the budget pays for.
pub(crate) fn check_geometry(
    len: usize,
    extent: usize,
    budget: usize,
    page: usize,
    region_len: u64,
) -> (r: Result<usize, LoomError>)
    requires
        page > 0,
    ensures
        match r {
            Ok(n) => {
                &&& workable(len as int, extent as int, budget as int, page as int, region_len as int)
                &&& n == budget as int / extent as int
                &&& 0 < n
                &&& n * extent <= budget
            },
            Err(e) => {
                &&& !workable(
                    len as int,
                    extent as int,
                    budget as int,
                    page as int,
                    region_len as int,
                )
                &&& e matches LoomError::Invalid(t)
                &&& t@ == unworkable_text(
                    len as int,
                    extent as int,
                    budget as int,
                    page as int,
                    region_len as int,
                )
            },
        },
{
    if extent == 0 || extent % page != 0 {
        let mut t = String::from_str("extent ");
        push_dec(&mut t, extent as u64);
        t.append(" must be a non-zero multiple of the page size ");
        push_dec(&mut t, page as u64);
        return Err(LoomError::Invalid(t));
    }
    if len == 0 || len % extent != 0 {
        let mut t = String::from_str("len ");
        push_dec(&mut t, len as u64);
        t.append(" must be a non-zero multiple of extent ");
        push_dec(&mut t, extent as u64);
        return Err(LoomError::Invalid(t));
    }
    if len as u64 > region_len {
        let mut t = String::from_str("len ");
        push_dec(&mut t, len as u64);
        t.append(" exceeds region length ");
        push_dec(&mut t, region_len);
        return Err(LoomError::Invalid(t));
    }
    let max: usize = budget / extent;
    if max == 0 {
        let mut t = String::from_str("resident budget ");
        push_dec(&mut t, budget as u64);
        t.append(" is smaller than one extent (");
        push_dec(&mut t, extent as u64);
        t.append(")");
        return Err(LoomError::Invalid(t));
    }
    proof {
        vstd::arithmetic::div_mod::lemma_fundamental_div_mod(budget as int, extent as int);
        vstd::arithmetic::div_mod::lemma_mod_bound(budget as int, extent as int);
        vstd::arithmetic::mul::lemma_mul_is_commutative(max as int, extent as int);
    }
    Ok(max)
}

// ---- counters -----------------------------------------------------------

/// Everything the fault path did. Counters only; no inference.
pub struct FaultStats {
    /// Faults on missing pages, which had to be loaded.
    pub load_faults: u64,
    /// Faults on protected pages: the access was a write.
    pub write_faults: u64,
    /// Extents evicted to stay inside the budget.
    pub evictions: u64,
    /// Evictions that had to write back because the extent was dirty.
    pub writebacks: u64,
    /// Extents currently mapped.
    pub resident_extents: u64,
    /// Peak mapped bytes observed. The witness for the budget.
    pub peak_resident_bytes: u64,
    pub load_latency: LatencyHist,
    pub wp_latency: LatencyHist,
    /// Faults that could not be resolved. Never silent: the address and the
    /// reason are recorded, and the faulting thread is left blocked rather
    /// than resumed onto wrong bytes.
    pub failures: Vec<String>,
}

impl Default for FaultStats {
    fn default() -> (s: Self)
        ensures
            s@ == FaultCounts::zero(),
            s.resident_extents == 0,
    {
        let s = FaultStats {
            load_faults: 0,
            write_faults: 0,
            evictions: 0,
            writebacks: 0,
            resident_extents: 0,
            peak_resident_bytes: 0,
            load_latency: LatencyHist::new(),
            wp_latency: LatencyHist::new(),
            failures: Vec::new(),
        };
        assert(s@.failures =~= FaultCounts::zero().failures);
        s
    }
}

/// The counters of [`FaultStats`], as mathematics.
#[verifier::ext_equal]
pub struct FaultCounts {
    pub load_faults: u64,
    pub write_faults: u64,
    pub evictions: u64,
    pub writebacks: u64,
    pub peak: u64,
    pub load_latency: HistState,
    pub wp_latency: HistState,
    pub failures: Seq<Seq<char>>,
}

impl FaultCounts {
    /// Nothing happened yet.
    pub open spec fn zero() -> Self {
        FaultCounts {
            load_faults: 0,
            write_faults: 0,
            evictions: 0,
            writebacks: 0,
            peak: 0,
            load_latency: HistState::empty(),
            wp_latency: HistState::empty(),
            failures: Seq::empty(),
        }
    }
}

impl View for FaultStats {
    type V = FaultCounts;

    open spec fn view(&self) -> FaultCounts {
        FaultCounts {
            load_faults: self.load_faults,
            write_faults: self.write_faults,
            evictions: self.evictions,
            writebacks: self.writebacks,
            peak: self.peak_resident_bytes,
            load_latency: self.load_latency@,
            wp_latency: self.wp_latency@,
            failures: Seq::new(self.failures@.len(), |i: int| self.failures@[i]@),
        }
    }
}

// ---- messages -----------------------------------------------------------

/// What a message from the kernel is about.
#[derive(Debug)]
pub enum Fault {
    /// A page of this extent is missing.
    Missing { ext: usize },
    /// A page of this extent is write-protected.
    WriteProtected { ext: usize },
    /// Nothing that can be resolved; the text says why.
    Unresolvable(String),
}

/// An offset lies in the extent it is divided into.
proof fn lemma_extent_holds(d: int, extent: int)
    requires
        0 <= d,
        0 < extent,
    ensures
        d / extent * extent <= d < d / extent * extent + extent,
{
    vstd::arithmetic::div_mod::lemma_fundamental_div_mod(d, extent);
    vstd::arithmetic::div_mod::lemma_mod_bound(d, extent);
    vstd::arithmetic::mul::lemma_mul_is_commutative(d / extent, extent);
}

/// Read a message. A write to a missing page is a missing page: the extent is
/// mapped write-protected, so the retried store faults again and is recorded
/// then.
pub fn classify(event: u8, flags: u64, address: u64, base: usize, len: usize, extent: usize) -> (f:
    Fault)
    requires
        extent > 0,
        base + len <= usize::MAX,
    ensures
        if event != UFFD_EVENT_PAGEFAULT {
            f matches Fault::Unresolvable(t) && t@ == "unexpected uffd event "@ + hex(event as nat)
        } else if !(base <= address < base + len) {
            f matches Fault::Unresolvable(t) && t@ == "fault at "@ + hex(address as nat)
                + " outside arena"@
        } else if flags & UFFD_PAGEFAULT_FLAG_WP != 0 {
            f matches Fault::WriteProtected { ext } && ext == (address - base) / extent as int
        } else {
            f matches Fault::Missing { ext } && ext == (address - base) / extent as int
        },
        f matches Fault::WriteProtected { ext } ==> base + ext * extent <= address < base + ext
            * extent + extent,
        f matches Fault::Missing { ext } ==> base + ext * extent <= address < base + ext * extent
            + extent,
{
    proof {
        if base <= address {
            lemma_extent_holds(address - base, extent as int);
        }
    }
    if event != UFFD_EVENT_PAGEFAULT {
        let mut t = String::from_str("unexpected uffd event ");
        push_hex(&mut t, event as u64);
        return Fault::Unresolvable(t);
    }
    if address < base as u64 || address >= (base + len) as u64 {
        let mut t = String::from_str("fault at ");
        push_hex(&mut t, address);
        t.append(" outside arena");
        return Fault::Unresolvable(t);
    }
    let ext: usize = (address as usize - base) / extent;
    if flags & UFFD_PAGEFAULT_FLAG_WP != 0 {
        Fault::WriteProtected { ext }
    } else {
        Fault::Missing { ext }
    }
}

/// A message that came in part.
pub fn short_read_text(got: usize) -> (t: String)
    ensures
        t@ == "short read from uffd: "@ + dec(got as nat) + " bytes"@,
{
    let mut t = String::from_str("short read from uffd: ");
    push_dec(&mut t, got as u64);
    t.append(" bytes");
    t
}

/// A fault that could not be resolved.
pub fn unresolved_text(address: u64, ext: usize, e: &LoomError) -> (t: String)
    ensures
        ({
            let head = "unresolved fault at "@ + hex(address as nat) + " (extent "@ + dec(
                ext as nat,
            ) + "): "@;
            &&& !(e is Io) ==> t@ == head + e.text()
            &&& e is Io ==> (head + e.text()).is_prefix_of(t@)
        }),
{
    let mut t = String::from_str("unresolved fault at ");
    push_hex(&mut t, address);
    t.append(" (extent ");
    push_dec(&mut t, ext as u64);
    t.append("): ");
    let ghost head = t@;
    let m = e.message();
    t.append(m.as_str());
    proof {
        if e is Io {
            let want = head + e.text();
            assert(want =~= t@.subrange(0, want.len() as int)) by {
                assert(e.text() =~= m@.subrange(0, e.text().len() as int));
            }
        }
    }
    t
}

// ---- residency ----------------------------------------------------------

/// What the driver has to do next.
#[derive(Debug, Clone, Copy, PartialEq, Eq, Structural)]
pub enum FaultAction {
    /// Copy the extent's bytes out of the mapping and write them to the
    /// arena.
    WriteBack { ext: usize },
    /// Release the extent's pages.
    Release { ext: usize },
    /// Read the extent's bytes from the arena and map them in,
    /// write-protected.
    Fetch { ext: usize },
    /// Lift the extent's write protection.
    Unprotect { ext: usize },
    /// Write-protect the extent again.
    Protect { ext: usize },
}

/// Where a fault stands.
#[derive(Debug, Clone, Copy, PartialEq, Eq, Structural)]
pub enum FaultStep {
    /// This has to be done first.
    Act(FaultAction),
    /// The faulting access may be retried.
    Resolved,
}

/// The fault being resolved, or the extent being flushed.
pub enum Resolving {
    /// None.
    Nothing,
    /// Room is made for `ext`: the victim is written back.
    WriteBack { ext: usize, victim: usize },
    /// Room is made for `ext`: the victim's pages are released.
    Release { ext: usize, victim: usize },
    /// `ext` is mapped.
    Fetch { ext: usize },
    /// `ext` becomes writable.
    Unprotect { ext: usize },
    /// `ext` is flushed: it is write-protected first, so that no later write
    /// goes unnoticed.
    Protect { ext: usize },
    /// `ext` is flushed: its bytes are written back.
    Save { ext: usize },
}

enum Pending {
    Nothing,
    WriteBack { ext: usize, victim: usize, t: Instant },
    Release { ext: usize, victim: usize, t: Instant },
    Fetch { ext: usize, t: Instant },
    Unprotect { ext: usize, t: Instant },
    Protect { ext: usize },
    Save { ext: usize },
}

impl Pending {
    spec fn resolving(self) -> Resolving {
        match self {
            Pending::Nothing => Resolving::Nothing,
            Pending::WriteBack { ext, victim, t } => Resolving::WriteBack { ext, victim },
            Pending::Release { ext, victim, t } => Resolving::Release { ext, victim },
            Pending::Fetch { ext, t } => Resolving::Fetch { ext },
            Pending::Unprotect { ext, t } => Resolving::Unprotect { ext },
            Pending::Protect { ext } => Resolving::Protect { ext },
            Pending::Save { ext } => Resolving::Save { ext },
        }
    }
}

/// What a transparent arena keeps track of, as mathematics.
#[verifier::ext_equal]
pub struct FaultState {
    /// Addressable bytes.
    pub len: nat,
    /// Bytes per extent.
    pub extent: nat,
    /// Extents the budget pays for.
    pub max: nat,
    /// Mapped extents, in the order they arrived.
    pub order: Seq<usize>,
    /// Per extent: is it mapped?
    pub mapped: Seq<bool>,
    /// Per extent: was it written to? Of an extent that is not mapped this
    /// says nothing.
    pub dirty: Seq<bool>,
    /// The counters.
    pub counts: FaultCounts,
    /// The fault being resolved, or the extent being flushed.
    pub resolving: Resolving,
}

/// The list holds exactly the marked extents, each once.
pub open spec fn lists(order: Seq<usize>, mapped: Seq<bool>) -> bool {
    &&& order.no_duplicates()
    &&& forall|i: int| 0 <= i < order.len() ==> (#[trigger] order[i]) < mapped.len()
    &&& forall|e: usize| e < mapped.len() ==> #[trigger] mapped[e as int] == order.contains(e)
}

impl FaultState {
    /// Validity: the list of mapped extents is exact and within the budget,
    /// and the peak is a witness for it.
    pub open spec fn wf(self) -> bool {
        &&& 0 < self.extent
        &&& 0 < self.max
        &&& self.max * self.extent <= usize::MAX
        &&& self.len == self.mapped.len() * self.extent
        &&& self.len <= usize::MAX
        &&& self.dirty.len() == self.mapped.len()
        &&& lists(self.order, self.mapped)
        &&& self.order.len() <= self.max
        &&& self.order.len() * self.extent <= self.counts.peak <= self.max * self.extent
        &&& self.counts.load_latency.wf()
        &&& self.counts.wp_latency.wf()
        &&& match self.resolving {
            Resolving::Nothing => true,
            Resolving::WriteBack { ext, victim } => {
                &&& ext < self.mapped.len()
                &&& self.order.len() == self.max
                &&& victim == self.order[0]
                &&& self.dirty[victim as int]
            },
            Resolving::Release { ext, victim } => {
                &&& ext < self.mapped.len()
                &&& self.order.len() == self.max
                &&& victim == self.order[0]
            },
            Resolving::Fetch { ext } => ext < self.mapped.len() && self.order.len() < self.max,
            Resolving::Unprotect { ext } => ext < self.mapped.len(),
            Resolving::Protect { ext } => {
                &&& ext < self.mapped.len()
                &&& self.mapped[ext as int]
                &&& self.dirty[ext as int]
            },
            Resolving::Save { ext } => {
                &&& ext < self.mapped.len()
                &&& self.mapped[ext as int]
                &&& self.dirty[ext as int]
            },
        }
    }

    /// The action that is waited for.
    pub open spec fn asks(self) -> Option<FaultAction> {
        match self.resolving {
            Resolving::Nothing => None,
            Resolving::WriteBack { ext, victim } => Some(FaultAction::WriteBack { ext: victim }),
            Resolving::Release { ext, victim } => Some(FaultAction::Release { ext: victim }),
            Resolving::Fetch { ext } => Some(FaultAction::Fetch { ext }),
            Resolving::Unprotect { ext } => Some(FaultAction::Unprotect { ext }),
            Resolving::Protect { ext } => Some(FaultAction::Protect { ext }),
            Resolving::Save { ext } => Some(FaultAction::WriteBack { ext }),
        }
    }

    /// The same arena resolving something else.
    pub open spec fn with_resolving(self, resolving: Resolving) -> Self {
        FaultState { resolving, ..self }
    }

    /// A missing page of `ext`: map the extent if there is room, else make
    /// room. The oldest extent goes first, written back if it is dirty. The
    /// budget is never exceeded, not even transiently.
    pub open spec fn missing(self, ext: usize) -> Self {
        self.with_resolving(
            if self.order.len() < self.max {
                Resolving::Fetch { ext }
            } else if self.dirty[self.order[0] as int] {
                Resolving::WriteBack { ext, victim: self.order[0] }
            } else {
                Resolving::Release { ext, victim: self.order[0] }
            },
        )
    }

    /// The oldest extent gone.
    pub open spec fn released(self) -> Self {
        let v = self.order[0] as int;
        FaultState {
            order: self.order.skip(1),
            mapped: self.mapped.update(v, false),
            dirty: self.dirty.update(v, false),
            counts: FaultCounts { evictions: bumped(self.counts.evictions, 1), ..self.counts },
            ..self
        }
    }

    /// `ext` mapped, clean, the youngest. Only the measured latency is left
    /// open.
    pub open spec fn mapped_in(self, ext: usize, after: Self) -> bool {
        let bytes = (self.order.len() + 1) * self.extent;
        &&& self.counts.load_latency.measured(after.counts.load_latency)
        &&& after == (FaultState {
            order: self.order.push(ext),
            mapped: self.mapped.update(ext as int, true),
            dirty: self.dirty.update(ext as int, false),
            counts: FaultCounts {
                load_faults: bumped(self.counts.load_faults, 1),
                load_latency: after.counts.load_latency,
                peak: if bytes > self.counts.peak {
                    bytes as u64
                } else {
                    self.counts.peak
                },
                ..self.counts
            },
            resolving: Resolving::Nothing,
            ..self
        })
    }

    /// `ext` writable and dirty. If it was evicted since the fault, the mark
    /// says nothing until it is mapped again, which clears it. Only the
    /// measured latency is left open.
    pub open spec fn unprotected(self, ext: usize, after: Self) -> bool {
        &&& self.counts.wp_latency.measured(after.counts.wp_latency)
        &&& after == (FaultState {
            dirty: self.dirty.update(ext as int, true),
            counts: FaultCounts {
                write_faults: bumped(self.counts.write_faults, 1),
                wp_latency: after.counts.wp_latency,
                ..self.counts
            },
            resolving: Resolving::Nothing,
            ..self
        })
    }

    /// What follows when the action that was waited for went through.
    pub open spec fn went_through(self, after: Self) -> bool {
        match self.resolving {
            Resolving::Nothing => false,
            Resolving::WriteBack { ext, victim } => after == (FaultState {
                counts: FaultCounts {
                    writebacks: bumped(self.counts.writebacks, 1),
                    ..self.counts
                },
                resolving: Resolving::Release { ext, victim },
                ..self
            }),
            Resolving::Release { ext, victim } => after == self.released().missing(ext),
            Resolving::Fetch { ext } => self.mapped_in(ext, after),
            Resolving::Unprotect { ext } => self.unprotected(ext, after),
            Resolving::Protect { ext } => after == self.with_resolving(Resolving::Save { ext }),
            Resolving::Save { ext } => after == (FaultState {
                dirty: self.dirty.update(ext as int, false),
                resolving: Resolving::Nothing,
                ..self
            }),
        }
    }

    /// How many actions are left at most.
    pub open spec fn distance(self) -> int {
        match self.resolving {
            Resolving::Nothing => 0,
            Resolving::Unprotect { ext } => 1,
            Resolving::Fetch { ext } => 1,
            Resolving::Save { ext } => 1,
            Resolving::Protect { ext } => 2,
            Resolving::Release { ext, victim } => 2,
            Resolving::WriteBack { ext, victim } => 3,
        }
    }
}

/// The dirty extents among the first `n` of a list, in its order.
pub open spec fn dirty_among(order: Seq<usize>, dirty: Seq<bool>, n: int) -> Seq<usize>
    decreases n,
{
    if n <= 0 {
        Seq::empty()
    } else {
        let rest = dirty_among(order, dirty, n - 1);
        if dirty[order[n - 1] as int] {
            rest.push(order[n - 1])
        } else {
            rest
        }
    }
}

/// Residency bookkeeping of a transparent arena.
pub struct FaultArena {
    len: usize,
    extent: usize,
    max_extents: usize,
    /// Mapped extents in arrival order. FIFO eviction: simple, and honest
    /// about being simple.
    order: VecDeque<usize>,
    mapped: Vec<bool>,
    dirty: Vec<bool>,
    stats: FaultStats,
    pending: Pending,
}

impl View for FaultArena {
    type V = FaultState;

    closed spec fn view(&self) -> FaultState {
        FaultState {
            len: self.len as nat,
            extent: self.extent as nat,
            max: self.max_extents as nat,
            order: self.order@,
            mapped: self.mapped@,
            dirty: self.dirty@,
            counts: self.stats@,
            resolving: self.pending.resolving(),
        }
    }
}

/// The oldest extent leaves the list.
proof fn lemma_oldest_leaves(order: Seq<usize>, mapped: Seq<bool>)
    requires
        lists(order, mapped),
        order.len() > 0,
    ensures
        lists(order.skip(1), mapped.update(order[0] as int, false)),
{
    let rest = order.skip(1);
    let now = mapped.update(order[0] as int, false);
    assert(order[0] < mapped.len());
    assert forall|e: usize| e < now.len() implies #[trigger] now[e as int] == rest.contains(e) by {
        assert(mapped[e as int] == order.contains(e));
        if rest.contains(e) {
            let j = choose|j: int| 0 <= j < rest.len() && rest[j] == e;
            assert(order[j + 1] == e);
        }
        if order.contains(e) && e != order[0] {
            let j = choose|j: int| 0 <= j < order.len() && order[j] == e;
            assert(rest[j - 1] == e);
        }
    }
    assert forall|i: int| 0 <= i < rest.len() implies (#[trigger] rest[i]) < now.len() by {
        assert(order[i + 1] < mapped.len());
    }
}

/// A new extent joins the list.
proof fn lemma_youngest_joins(order: Seq<usize>, mapped: Seq<bool>, ext: usize)
    requires
        lists(order, mapped),
        ext < mapped.len(),
        !mapped[ext as int],
    ensures
        lists(order.push(ext), mapped.update(ext as int, true)),
{
    let more = order.push(ext);
    let now = mapped.update(ext as int, true);
    assert(!order.contains(ext));
    assert forall|e: usize| e < now.len() implies #[trigger] now[e as int] == more.contains(e) by {
        assert(mapped[e as int] == order.contains(e));
        if order.contains(e) {
            let j = choose|j: int| 0 <= j < order.len() && order[j] == e;
            assert(more[j] == e);
        }
        assert(more[order.len() as int] == ext);
    }
}

impl FaultArena {
    /// An arena of `opts.len` addressable bytes over a region, nothing mapped
    /// yet; `page` is the machine's page size.
    pub fn new(region_len: u64, opts: &FaultOptions, page: usize) -> (r: Result<Self, LoomError>)
        requires
            page > 0,
        ensures
            match r {
                Ok(a) => {
                    &&& workable(
                        opts.len as int,
                        opts.extent as int,
                        opts.resident_budget as int,
                        page as int,
                        region_len as int,
                    )
                    &&& a@.wf()
                    &&& a@ == untouched(
                        opts.len as nat,
                        opts.extent as nat,
                        opts.resident_budget as nat,
                    )
                },
                Err(e) => {
                    &&& !workable(
                        opts.len as int,
                        opts.extent as int,
                        opts.resident_budget as int,
                        page as int,
                        region_len as int,
                    )
                    &&& e matches LoomError::Invalid(t)
                    &&& t@ == unworkable_text(
                        opts.len as int,
                        opts.extent as int,
                        opts.resident_budget as int,
                        page as int,
                        region_len as int,
                    )
                },
            },
    {
        let max_extents: usize = match check_geometry(
            opts.len,
            opts.extent,
            opts.resident_budget,
            page,
            region_len,
        ) {
            Ok(n) => n,
            Err(e) => {
                return Err(e);
            },
        };
        let n: usize = opts.len / opts.extent;
        proof {
            vstd::arithmetic::div_mod::lemma_fundamental_div_mod(
                opts.len as int,
                opts.extent as int,
            );
            vstd::arithmetic::mul::lemma_mul_is_commutative(n as int, opts.extent as int);
        }
        let a = FaultArena {
            len: opts.len,
            extent: opts.extent,
            max_extents,
            order: VecDeque::new(),
            mapped: vec![false; n],
            dirty: vec![false; n],
            stats: FaultStats::default(),
            pending: Pending::Nothing,
        };
        proof {
            assert(a@.mapped =~= Seq::new(n as nat, |e: int| false));
            assert(a@.dirty =~= Seq::new(n as nat, |e: int| false));
            assert(a@.order =~= Seq::empty());
            crate::stats::lemma_total_zeros(HistState::empty().buckets);
        }
        Ok(a)
    }

    /// Addressable bytes. Never zero — `new` rejects a zero length.
    pub fn len(&self) -> (n: usize)
        ensures
            n == self@.len,
    {
        self.len
    }

    /// Bytes per extent.
    pub fn extent(&self) -> (n: usize)
        ensures
            n == self@.extent,
    {
        self.extent
    }

    /// Mapped bytes right now — the enforced budget, counted from what was
    /// actually mapped.
    pub fn resident_bytes(&self) -> (n: usize)
        requires
            self@.wf(),
        ensures
            n == self@.order.len() * self@.extent,
            n <= self@.max * self@.extent,
    {
        assert(self@.order.len() * self@.extent <= self@.max * self@.extent) by (nonlinear_arith)
            requires
                self@.order.len() <= self@.max,
        ;
        self.order.len() * self.extent
    }

    /// The budget in bytes, in whole extents.
    pub fn budget_bytes(&self) -> (n: usize)
        requires
            self@.wf(),
        ensures
            n == self@.max * self@.extent,
    {
        self.max_extents * self.extent
    }

    /// Is the extent mapped?
    pub fn is_mapped(&self, ext: usize) -> (b: bool)
        requires
            ext < self@.mapped.len(),
        ensures
            b == self@.mapped[ext as int],
    {
        self.mapped[ext]
    }

    /// Snapshot of the fault counters.
    pub fn stats(&self) -> (s: FaultStats)
        ensures
            s@ == self@.counts,
            s.resident_extents == self@.order.len(),
    {
        let n: usize = self.stats.failures.len();
        let mut failures: Vec<String> = Vec::new();
        let mut i: usize = 0;
        while i < n
            invariant
                n == self.stats.failures@.len(),
                i <= n,
                failures@.len() == i,
                forall|k: int| 0 <= k < i ==> #[trigger] failures@[k]@ == self.stats.failures@[k]@,
            decreases n - i,
        {
            failures.push(String::from_str(self.stats.failures[i].as_str()));
            i = i + 1;
        }
        let s = FaultStats {
            load_faults: self.stats.load_faults,
            write_faults: self.stats.write_faults,
            evictions: self.stats.evictions,
            writebacks: self.stats.writebacks,
            resident_extents: self.order.len() as u64,
            peak_resident_bytes: self.stats.peak_resident_bytes,
            load_latency: self.stats.load_latency.clone(),
            wp_latency: self.stats.wp_latency.clone(),
            failures,
        };
        assert(s@.failures =~= self.stats@.failures);
        s
    }

    /// Record a fault that could not be resolved.
    pub fn record_failure(&mut self, text: String)
        requires
            old(self)@.wf(),
        ensures
            final(self)@.wf(),
            final(self)@ == (FaultState {
                counts: FaultCounts {
                    failures: old(self)@.counts.failures.push(text@),
                    ..old(self)@.counts
                },
                ..old(self)@
            }),
    {
        self.stats.failures.push(text);
        assert(self@.counts.failures =~= old(self)@.counts.failures.push(text@));
    }

    /// Start resolving a fault on a missing page of `ext`.
    pub fn missing(&mut self, ext: usize) -> (a: FaultAction)
        requires
            old(self)@.wf(),
            old(self)@.resolving is Nothing,
            ext < old(self)@.mapped.len(),
        ensures
            final(self)@.wf(),
            final(self)@ == old(self)@.missing(ext),
            final(self)@.asks() == Some(a),
    {
        let t = Instant::now();
        self.make_room(ext, t)
    }

    /// Map the extent if there is room, else make room.
    fn make_room(&mut self, ext: usize, t: Instant) -> (a: FaultAction)
        requires
            old(self)@.wf(),
            old(self)@.resolving is Nothing,
            ext < old(self)@.mapped.len(),
        ensures
            final(self)@.wf(),
            final(self)@ == old(self)@.missing(ext),
            final(self)@.asks() == Some(a),
    {
        if self.order.len() < self.max_extents {
            self.pending = Pending::Fetch { ext, t };
            assert(self@ =~= old(self)@.missing(ext));
            return FaultAction::Fetch { ext };
        }
        let victim: usize = self.order[0];
        assert(self@.order[0] < self@.mapped.len());
        if self.dirty[victim] {
            self.pending = Pending::WriteBack { ext, victim, t };
            assert(self@ =~= old(self)@.missing(ext));
            FaultAction::WriteBack { ext: victim }
        } else {
            self.pending = Pending::Release { ext, victim, t };
            assert(self@ =~= old(self)@.missing(ext));
            FaultAction::Release { ext: victim }
        }
    }

    /// Start resolving a fault on a write-protected page of `ext`: the access
    /// is a write to a present page.
    pub fn write_protected(&mut self, ext: usize) -> (a: FaultAction)
        requires
            old(self)@.wf(),
            old(self)@.resolving is Nothing,
            ext < old(self)@.mapped.len(),
        ensures
            final(self)@.wf(),
            final(self)@ == old(self)@.with_resolving(Resolving::Unprotect { ext }),
            a == (FaultAction::Unprotect { ext }),
    {
        self.pending = Pending::Unprotect { ext, t: Instant::now() };
        assert(self@ =~= old(self)@.with_resolving(Resolving::Unprotect { ext }));
        FaultAction::Unprotect { ext }
    }

    /// The action that was waited for went through. The kernel maps no page
    /// twice. A write fault may be older than the eviction of its extent; its
    /// page is then missing when the access is retried.
    pub fn went_through(&mut self) -> (s: FaultStep)
        requires
            old(self)@.wf(),
            !(old(self)@.resolving is Nothing),
            old(self)@.resolving matches Resolving::Fetch { ext } ==> !old(self)@.mapped[ext as int],
        ensures
            final(self)@.wf(),
            old(self)@.went_through(final(self)@),
            match s {
                FaultStep::Act(a) => final(self)@.asks() == Some(a) && final(self)@.distance()
                    < old(self)@.distance(),
                FaultStep::Resolved => final(self)@.resolving is Nothing,
            },
    {
        let ghost pre = self@;
        let mut p = Pending::Nothing;
        core::mem::swap(&mut p, &mut self.pending);
        match p {
            Pending::WriteBack { ext, victim, t } => {
                self.stats.writebacks = bump(self.stats.writebacks, 1);
                self.pending = Pending::Release { ext, victim, t };
                assert(pre.went_through(self@));
                FaultStep::Act(FaultAction::Release { ext: victim })
            },
            Pending::Release { ext, victim, t } => {
                proof {
                    assert(pre.order[0] < pre.mapped.len());
                    lemma_oldest_leaves(pre.order, pre.mapped);
                }
                let _oldest = self.order.pop_front();
                self.mapped[victim] = false;
                self.dirty[victim] = false;
                self.stats.evictions = bump(self.stats.evictions, 1);
                proof {
                    assert(pre.order.skip(1) =~= pre.order.subrange(1, pre.order.len() as int));
                    assert(self@ =~= pre.released().with_resolving(Resolving::Nothing));
                    let n = pre.order.len() as int;
                    let x = pre.extent as int;
                    assert((n - 1) * x <= n * x) by (nonlinear_arith)
                        requires
                            0 <= x,
                    ;
                }
                let a = self.make_room(ext, t);
                assert(self@ =~= pre.released().missing(ext));
                FaultStep::Act(a)
            },
            Pending::Fetch { ext, t } => {
                proof {
                    lemma_youngest_joins(pre.order, pre.mapped, ext);
                    let n = pre.order.len() as int;
                    let x = pre.extent as int;
                    let m = pre.max as int;
                    assert(0 <= (n + 1) * x && (n + 1) * x <= m * x) by (nonlinear_arith)
                        requires
                            0 <= x,
                            0 <= n,
                            n + 1 <= m,
                    ;
                }
                self.mapped[ext] = true;
                self.dirty[ext] = false;
                self.order.push_back(ext);
                let bytes: u64 = (self.order.len() * self.extent) as u64;
                self.stats.load_faults = bump(self.stats.load_faults, 1);
                self.stats.load_latency.record_since(&t);
                if bytes > self.stats.peak_resident_bytes {
                    self.stats.peak_resident_bytes = bytes;
                }
                assert(pre.mapped_in(ext, self@));
                FaultStep::Resolved
            },
            Pending::Unprotect { ext, t } => {
                self.dirty[ext] = true;
                self.stats.write_faults = bump(self.stats.write_faults, 1);
                self.stats.wp_latency.record_since(&t);
                assert(pre.unprotected(ext, self@));
                FaultStep::Resolved
            },
            Pending::Protect { ext } => {
                self.pending = Pending::Save { ext };
                assert(self@ =~= pre.with_resolving(Resolving::Save { ext }));
                FaultStep::Act(FaultAction::WriteBack { ext })
            },
            Pending::Save { ext } => {
                self.dirty[ext] = false;
                assert(pre.went_through(self@));
                FaultStep::Resolved
            },
            Pending::Nothing => FaultStep::Resolved,
        }
    }

    /// The action that was waited for failed. What was done before it stays
    /// done; the faulting thread stays blocked, because waking it onto bytes
    /// that failed to load would hand it silent garbage.
    pub fn gave_up(&mut self)
        requires
            old(self)@.wf(),
        ensures
            final(self)@.wf(),
            final(self)@ == old(self)@.with_resolving(Resolving::Nothing),
    {
        self.pending = Pending::Nothing;
        assert(self@ =~= old(self)@.with_resolving(Resolving::Nothing));
    }

    /// The dirty extents, in the order they arrived: what a flush has to
    /// write back.
    pub fn dirty_extents(&self) -> (v: Vec<usize>)
        requires
            self@.wf(),
        ensures
            v@ == dirty_among(self@.order, self@.dirty, self@.order.len() as int),
            v@.no_duplicates(),
            forall|e: usize| #[trigger]
                v@.contains(e) <==> e < self@.mapped.len() && self@.mapped[e as int]
                    && self@.dirty[e as int],
    {
        let n: usize = self.order.len();
        let mut v: Vec<usize> = Vec::new();
        let mut i: usize = 0;
        while i < n
            invariant
                self@.wf(),
                n == self.order@.len(),
                i <= n,
                v@ == dirty_among(self.order@, self.dirty@, i as int),
            decreases n - i,
        {
            let e: usize = self.order[i];
            assert(self@.order[i as int] < self@.mapped.len());
            if self.dirty[e] {
                v.push(e);
            }
            i = i + 1;
        }
        proof {
            law_flush_list_is_exact(self@);
        }
        v
    }

    /// Start flushing a mapped extent that is dirty: it is protected, written
    /// back, and then clean. Its mapping stays in place.
    pub fn flush(&mut self, ext: usize) -> (a: FaultAction)
        requires
            old(self)@.wf(),
            old(self)@.resolving is Nothing,
            ext < old(self)@.mapped.len(),
            old(self)@.mapped[ext as int],
            old(self)@.dirty[ext as int],
        ensures
            final(self)@.wf(),
            final(self)@ == old(self)@.with_resolving(Resolving::Protect { ext }),
            a == (FaultAction::Protect { ext }),
    {
        self.pending = Pending::Protect { ext };
        assert(self@ =~= old(self)@.with_resolving(Resolving::Protect { ext }));
        FaultAction::Protect { ext }
    }
}

// ---- what the program sees ----------------------------------------------

/// What lies behind the pointer, extent by extent.
#[verifier::ext_equal]
pub struct Memory {
    /// Are there pages?
    pub present: Seq<bool>,
    /// The bytes in the mapping; meaningless where there are no pages.
    pub mapping: Seq<Seq<u8>>,
    /// The bytes in the region.
    pub pool: Seq<Seq<u8>>,
    /// Can the program write to the extent without a fault?
    pub writable: Seq<bool>,
}

impl Memory {
    /// What carrying out an action does to the memory.
    pub open spec fn carried_out(self, a: FaultAction, after: Self) -> bool {
        match a {
            FaultAction::WriteBack { ext } => after == (Memory {
                pool: self.pool.update(ext as int, self.mapping[ext as int]),
                ..self
            }),
            FaultAction::Release { ext } => {
                &&& after.pool == self.pool
                &&& after.present == self.present.update(ext as int, false)
                &&& after.writable == self.writable.update(ext as int, false)
                &&& after.mapping == self.mapping.update(ext as int, after.mapping[ext as int])
            },
            FaultAction::Fetch { ext } => after == (Memory {
                present: self.present.update(ext as int, true),
                mapping: self.mapping.update(ext as int, self.pool[ext as int]),
                writable: self.writable.update(ext as int, false),
                ..self
            }),
            FaultAction::Unprotect { ext } => after == (Memory {
                writable: self.writable.update(ext as int, self.present[ext as int]),
                ..self
            }),
            FaultAction::Protect { ext } => after == (Memory {
                writable: self.writable.update(ext as int, false),
                ..self
            }),
        }
    }
}

impl FaultState {
    /// What the program sees in an extent: the mapped bytes, or those that
    /// its access would bring in.
    pub open spec fn seen(self, m: Memory, e: int) -> Seq<u8> {
        if self.mapped[e] {
            m.mapping[e]
        } else {
            m.pool[e]
        }
    }

    /// The bookkeeping is true of the memory: what can be written without a
    /// fault is mapped and counts as dirty, and what does not count as dirty
    /// is in the pool.
    pub open spec fn tracks(self, m: Memory) -> bool {
        &&& m.present == self.mapped
        &&& m.mapping.len() == self.mapped.len()
        &&& m.pool.len() == self.mapped.len()
        &&& m.writable.len() == self.mapped.len()
        &&& forall|e: int|
            #![trigger m.writable[e]]
            #![trigger self.dirty[e]]
            0 <= e < self.mapped.len() && m.writable[e] ==> self.mapped[e] && self.dirty[e]
        &&& forall|e: int|
            #![trigger self.mapped[e]]
            #![trigger self.dirty[e]]
            0 <= e < self.mapped.len() && self.mapped[e] && !self.dirty[e] ==> m.mapping[e]
                == m.pool[e]
        &&& self.resolving matches Resolving::Release { ext, victim } ==> m.mapping[victim as int]
            == m.pool[victim as int]
        &&& self.resolving matches Resolving::Save { ext } ==> !m.writable[ext as int]
    }
}

/// Eviction, loading, promotion and flushing change nothing that the program
/// sees, and the bookkeeping stays true: dirty tracking is exact.
pub proof fn law_actions_change_nothing_seen(
    s: FaultState,
    m: Memory,
    a: FaultAction,
    after: Memory,
    post: FaultState,
)
    requires
        s.wf(),
        s.tracks(m),
        s.asks() == Some(a),
        m.carried_out(a, after),
        s.resolving matches Resolving::Fetch { ext } ==> !s.mapped[ext as int],
        s.went_through(post),
    ensures
        post.tracks(after),
        forall|e: int| 0 <= e < s.mapped.len() ==> #[trigger] post.seen(after, e) == s.seen(m, e),
{
    if s.resolving is WriteBack || s.resolving is Release {
        assert(s.order[0] < s.mapped.len());
        assert(s.mapped[s.order[0] as int] == s.order.contains(s.order[0]));
        assert(s.order.contains(s.order[0])) by {
            assert(s.order[0] == s.order[0]);
        }
    }
    if let Resolving::Release { ext, victim } = s.resolving {
        let mid = s.released();
        assert forall|e: int| 0 <= e < s.mapped.len() && post.mapped[e] && !post.dirty[e] implies
            after.mapping[e] == after.pool[e] by {
            assert(s.mapped[e]);
        }
        if post.resolving is Release {
            assert(post.order[0] == s.order[1]);
            assert(s.order[1] != s.order[0]);
            assert(s.order[1] < s.mapped.len());
            assert(s.mapped[s.order[1] as int] == s.order.contains(s.order[1]));
        }
    }
}

/// Starting on a fault or on a flush, and giving up on one, changes nothing
/// that the program sees.
pub proof fn law_starts_change_nothing_seen(s: FaultState, m: Memory, ext: usize)
    requires
        s.wf(),
        s.tracks(m),
        ext < s.mapped.len(),
    ensures
        s.with_resolving(Resolving::Nothing).tracks(m),
        s.missing(ext).tracks(m),
        s.with_resolving(Resolving::Unprotect { ext }).tracks(m),
        s.with_resolving(Resolving::Protect { ext }).tracks(m),
        forall|e: int, r: Resolving|
            0 <= e < s.mapped.len() ==> #[trigger] s.with_resolving(r).seen(m, e) == s.seen(m, e),
        forall|e: int|
            0 <= e < s.mapped.len() ==> #[trigger] s.missing(ext).seen(m, e) == s.seen(m, e),
{
    if s.missing(ext).resolving is Release {
        assert(s.order[0] < s.mapped.len());
        assert(s.mapped[s.order[0] as int] == s.order.contains(s.order[0]));
    }
}

/// What the program writes, it sees; and it sees no other change. A write
/// needs an extent that can be written without a fault, and the program
/// stands still while a fault is resolved.
pub proof fn law_writes_are_seen(s: FaultState, m: Memory, ext: int, bytes: Seq<u8>)
    requires
        s.wf(),
        s.tracks(m),
        s.resolving is Nothing,
        0 <= ext < s.mapped.len(),
        m.writable[ext],
    ensures
        ({
            let after = Memory { mapping: m.mapping.update(ext, bytes), ..m };
            &&& s.tracks(after)
            &&& s.seen(after, ext) == bytes
            &&& forall|e: int|
                0 <= e < s.mapped.len() && e != ext ==> #[trigger] s.seen(after, e) == s.seen(m, e)
        }),
{
    let after = Memory { mapping: m.mapping.update(ext, bytes), ..m };
    assert(s.dirty[ext]);
    assert(s.mapped[ext]);
    assert forall|e: int| 0 <= e < s.mapped.len() && s.mapped[e] && !s.dirty[e] implies
        after.mapping[e] == after.pool[e] by {
        assert(e != ext);
    }
}

/// What is not dirty is in the pool: once every dirty extent is flushed, the
/// pool holds all that the program sees.
pub proof fn law_flushed_bytes_are_in_the_pool(s: FaultState, m: Memory, e: int)
    requires
        s.wf(),
        s.tracks(m),
        0 <= e < s.mapped.len(),
        !s.dirty[e],
    ensures
        m.pool[e] == s.seen(m, e),
{
}

/// A new arena is true of a memory that nothing was mapped into.
pub proof fn law_a_new_arena_sees_the_pool(s: FaultState, m: Memory)
    requires
        s.wf(),
        s.order.len() == 0,
        s.resolving is Nothing,
        m.present == Seq::new(s.mapped.len(), |e: int| false),
        m.mapping.len() == s.mapped.len(),
        m.pool.len() == s.mapped.len(),
        m.writable == Seq::new(s.mapped.len(), |e: int| false),
    ensures
        s.tracks(m),
        forall|e: int| 0 <= e < s.mapped.len() ==> #[trigger] s.seen(m, e) == m.pool[e],
{
    let n = s.mapped.len() as int;
    let x = s.extent as int;
    assert(n <= n * x) by (nonlinear_arith)
        requires
            0 <= n,
            0 < x,
    ;
    assert forall|e: int| 0 <= e < s.mapped.len() implies !#[trigger] s.mapped[e] by {
        assert(s.mapped[e as usize as int] == s.order.contains(e as usize));
    }
    assert(m.present =~= s.mapped);
}

/// Mapped bytes never exceed the budget, now or at the peak, whatever the
/// order of faults.
pub proof fn law_mapped_bytes_within_budget(s: FaultState, budget: int)
    requires
        s.wf(),
        s.max == budget / s.extent as int,
        0 <= budget,
    ensures
        s.order.len() * s.extent <= budget,
        s.counts.peak <= budget,
{
    vstd::arithmetic::div_mod::lemma_fundamental_div_mod(budget, s.extent as int);
    vstd::arithmetic::div_mod::lemma_mod_bound(budget, s.extent as int);
    vstd::arithmetic::mul::lemma_mul_is_commutative(s.max as int, s.extent as int);
}

/// Only a write makes an extent dirty: whatever else a fault leads to, an
/// extent that was clean is clean. A pass that only reads writes nothing
/// back.
pub proof fn law_only_writes_dirty(pre: FaultState, post: FaultState, e: int)
    requires
        pre.wf(),
        pre.went_through(post),
        0 <= e < pre.dirty.len(),
        !pre.dirty[e],
        post.dirty[e],
    ensures
        pre.resolving matches Resolving::Unprotect { ext } && ext == e,
{
    if let Resolving::Release { ext, victim } = pre.resolving {
        assert(pre.order[0] < pre.mapped.len());
    }
}

// ---- what has to be flushed ---------------------------------------------

/// The dirty extents among the first `n` are those of the first `n` that are
/// dirty.
proof fn lemma_dirty_among(order: Seq<usize>, dirty: Seq<bool>, n: int)
    requires
        0 <= n <= order.len(),
        order.no_duplicates(),
    ensures
        forall|e: usize| #[trigger]
            dirty_among(order, dirty, n).contains(e) <==> order.take(n).contains(e)
                && dirty[e as int],
        dirty_among(order, dirty, n).no_duplicates(),
        dirty_among(order, dirty, n).len() <= n,
    decreases n,
{
    let all = dirty_among(order, dirty, n);
    if n > 0 {
        lemma_dirty_among(order, dirty, n - 1);
        let less = dirty_among(order, dirty, n - 1);
        let x = order[n - 1];
        assert(order.take(n) =~= order.take(n - 1).push(x));
        assert(!order.take(n - 1).contains(x));
        assert(!less.contains(x));
        assert forall|e: usize| #[trigger] all.contains(e) <==> order.take(n).contains(e)
            && dirty[e as int] by {
            assert(less.contains(e) <==> order.take(n - 1).contains(e) && dirty[e as int]);
            assert(order.take(n).contains(e) <==> order.take(n - 1).contains(e) || e == x) by {
                let before = order.take(n - 1);
                if before.contains(e) {
                    let k = choose|k: int| 0 <= k < before.len() && before[k] == e;
                    assert(order.take(n)[k] == e);
                }
                assert(order.take(n)[n - 1] == x);
            }
            if dirty[x as int] {
                assert(all == less.push(x));
                assert(all[less.len() as int] == x);
                if less.contains(e) {
                    let k = choose|k: int| 0 <= k < less.len() && less[k] == e;
                    assert(all[k] == e);
                }
            }
        }
    }
}

/// What has to be flushed is listed completely, and nothing else: an extent
/// is on the list exactly if it is mapped and dirty, and once.
pub proof fn law_flush_list_is_exact(s: FaultState)
    requires
        s.wf(),
    ensures
        ({
            let list = dirty_among(s.order, s.dirty, s.order.len() as int);
            &&& list.no_duplicates()
            &&& forall|e: usize| #[trigger]
                list.contains(e) <==> e < s.mapped.len() && s.mapped[e as int] && s.dirty[e as int]
        }),
{
    let n = s.order.len() as int;
    let list = dirty_among(s.order, s.dirty, n);
    lemma_dirty_among(s.order, s.dirty, n);
    assert(s.order.take(n) =~= s.order);
    assert forall|e: usize| #[trigger] list.contains(e) <==> e < s.mapped.len()
        && s.mapped[e as int] && s.dirty[e as int] by {
        if s.order.contains(e) {
            let k = choose|k: int| 0 <= k < s.order.len() && s.order[k] == e;
            assert(s.order[k] < s.mapped.len());
        }
        if e < s.mapped.len() {
            assert(s.mapped[e as int] == s.order.contains(e));
        }
    }
}

/// When nothing is left to flush, the pool holds everything that the program
/// sees.
pub proof fn law_nothing_to_flush_means_all_is_in_the_pool(s: FaultState, m: Memory)
    requires
        s.wf(),
        s.tracks(m),
        s.mapped.len() <= usize::MAX,
        dirty_among(s.order, s.dirty, s.order.len() as int).len() == 0,
    ensures
        forall|e: int| 0 <= e < s.mapped.len() ==> #[trigger] s.seen(m, e) == m.pool[e],
{
    law_flush_list_is_exact(s);
    let list = dirty_among(s.order, s.dirty, s.order.len() as int);
    assert forall|e: int| 0 <= e < s.mapped.len() implies #[trigger] s.seen(m, e) == m.pool[e] by {
        assert(!list.contains(e as usize));
    }
}

/// A flush that went through takes exactly its extent off the list.
pub proof fn law_a_flush_shortens_the_list(s: FaultState, post: FaultState, e: usize)
    requires
        s.wf(),
        post.wf(),
        s.resolving is Save,
        s.went_through(post),
    ensures
        dirty_among(post.order, post.dirty, post.order.len() as int).contains(e)
            <==> dirty_among(s.order, s.dirty, s.order.len() as int).contains(e) && e
            != s.resolving->Save_ext,
{
    law_flush_list_is_exact(s);
    law_flush_list_is_exact(post);
}

// ---- which extents come and go ------------------------------------------

/// What a fault, a flush or nothing is about.
pub open spec fn aim(s: FaultState) -> Option<usize> {
    match s.resolving {
        Resolving::Nothing => None,
        Resolving::WriteBack { ext, victim } => Some(ext),
        Resolving::Release { ext, victim } => Some(ext),
        Resolving::Fetch { ext } => Some(ext),
        Resolving::Unprotect { ext } => Some(ext),
        Resolving::Protect { ext } => Some(ext),
        Resolving::Save { ext } => Some(ext),
    }
}

/// A fault on a missing page is about its extent from the start, whatever has
/// to go first.
pub proof fn law_a_missing_extent_is_fetched(s: FaultState, ext: usize)
    requires
        s.wf(),
        s.resolving is Nothing,
        ext < s.mapped.len(),
    ensures
        aim(s.missing(ext)) == Some(ext),
        s.missing(ext).asks() matches Some(a) && !(a is Unprotect) && !(a is Protect),
{
}

/// A step of a fault stays with its extent until it is resolved; the last
/// step of one on a missing page maps it, clean, and of one on a protected
/// page makes it dirty.
pub proof fn law_a_fault_is_resolved_where_it_happened(s: FaultState, post: FaultState)
    requires
        s.wf(),
        s.went_through(post),
        s.resolving is WriteBack || s.resolving is Release || s.resolving is Fetch
            || s.resolving is Unprotect,
    ensures
        post.resolving is Nothing || aim(post) == aim(s),
        post.resolving is Nothing ==> {
            let e = aim(s)->0 as int;
            if s.asks()->0 is Unprotect {
                post.dirty[e] && post.mapped == s.mapped
            } else {
                post.mapped[e] && !post.dirty[e]
            }
        },
        forall|e: int|
            0 <= e < s.mapped.len() && !(#[trigger] s.mapped[e]) && post.mapped[e] ==> Some(
                e as usize,
            ) == aim(s),
{
}

/// Extents leave in the order in which they came, one at a time, and only
/// when the budget is used up: what is released is the oldest, and nothing
/// else changes places.
pub proof fn law_the_oldest_extent_leaves_first(s: FaultState, post: FaultState)
    requires
        s.wf(),
        s.went_through(post),
    ensures
        s.asks() matches Some(FaultAction::Release { ext }) ==> {
            &&& s.order == seq![ext] + post.order
            &&& !post.mapped[ext as int]
            &&& s.order.len() == s.max
        },
        s.asks() matches Some(FaultAction::Fetch { ext }) ==> {
            &&& post.order == s.order + seq![ext]
            &&& s.order.len() < s.max
        },
        !(s.asks()->0 is Release) && !(s.asks()->0 is Fetch) ==> post.order == s.order
            && post.mapped == s.mapped,
{
    if s.resolving is Release {
        assert(s.order =~= seq![s.order[0]] + s.order.skip(1));
        assert(s.order[0] < s.mapped.len());
    }
    if s.resolving is Fetch {
        assert(post.order =~= s.order + seq![s.resolving->Fetch_ext]);
    }
}

/// Every counter counts what the driver did: loads, write faults, evictions
/// and the writebacks that evictions needed.
pub proof fn law_fault_counters_count_actions(s: FaultState, post: FaultState)
    requires
        s.wf(),
        s.went_through(post),
        s.counts.load_faults < u64::MAX,
        s.counts.write_faults < u64::MAX,
        s.counts.evictions < u64::MAX,
        s.counts.writebacks < u64::MAX,
    ensures
        post.counts.load_faults - s.counts.load_faults == if s.asks()->0 is Fetch {
            1int
        } else {
            0
        },
        post.counts.write_faults - s.counts.write_faults == if s.asks()->0 is Unprotect {
            1int
        } else {
            0
        },
        post.counts.evictions - s.counts.evictions == if s.asks()->0 is Release {
            1int
        } else {
            0
        },
        post.counts.writebacks - s.counts.writebacks == if s.asks()->0 is WriteBack
            && !(s.resolving is Save) {
            1int
        } else {
            0
        },
        post.counts.failures == s.counts.failures,
        post.counts.peak >= post.order.len() * post.extent,
        post.counts.peak == s.counts.peak || post.counts.peak == post.order.len() * post.extent,
        post.counts.peak >= s.counts.peak,
        s.counts.load_latency.count < u64::MAX ==> post.counts.load_latency.count
            - s.counts.load_latency.count == if s.asks()->0 is Fetch {
            1int
        } else {
            0
        },
        s.counts.wp_latency.count < u64::MAX ==> post.counts.wp_latency.count
            - s.counts.wp_latency.count == if s.asks()->0 is Unprotect {
            1int
        } else {
            0
        },
{
    let n = s.order.len() as int;
    let x = s.extent as int;
    let m = s.max as int;
    if s.resolving is Fetch {
        assert(0 <= (n + 1) * x && (n + 1) * x <= m * x) by (nonlinear_arith)
            requires
                0 <= x,
                0 <= n,
                n + 1 <= m,
        ;
    }
    if s.resolving is Release {
        assert((n - 1) * x <= n * x) by (nonlinear_arith)
            requires
                0 <= x,
        ;
    }
}

/// A workable geometry tiles the addressable bytes with whole extents of
/// whole pages, inside the region, and its budget holds at least one of them.
pub proof fn law_a_workable_geometry_tiles(
    len: int,
    extent: int,
    budget: int,
    page: int,
    region_len: int,
)
    requires
        0 <= len,
        0 <= extent,
        0 <= budget,
        0 < page,
    ensures
        workable(len, extent, budget, page, region_len) <==> {
            &&& 0 < len <= region_len
            &&& 0 < extent <= budget
            &&& (exists|k: int| 0 < k && #[trigger] (k * page) == extent)
            &&& (exists|k: int| 0 < k && #[trigger] (k * extent) == len)
        },
{
    if extent > 0 {
        let q = extent / page;
        let n = len / extent;
        vstd::arithmetic::div_mod::lemma_fundamental_div_mod(extent, page);
        vstd::arithmetic::div_mod::lemma_fundamental_div_mod(len, extent);
        vstd::arithmetic::div_mod::lemma_fundamental_div_mod(budget, extent);
        vstd::arithmetic::div_mod::lemma_mod_bound(budget, extent);
        vstd::arithmetic::mul::lemma_mul_is_commutative(q, page);
        vstd::arithmetic::mul::lemma_mul_is_commutative(n, extent);
        let b = budget / extent;
        assert(b > 0 <==> extent <= budget) by (nonlinear_arith)
            requires
                budget == extent * b + budget % extent,
                0 <= budget % extent < extent,
                0 <= budget,
        ;
        if workable(len, extent, budget, page, region_len) {
            assert(q * page == extent && n * extent == len);
            assert(q > 0) by (nonlinear_arith)
                requires
                    q * page == extent,
                    0 < extent,
                    0 < page,
            ;
            assert(n > 0) by (nonlinear_arith)
                requires
                    n * extent == len,
                    0 < len,
                    0 < extent,
            ;
        }
        if exists|k: int| 0 < k && #[trigger] (k * page) == extent {
            let k = choose|k: int| 0 < k && #[trigger] (k * page) == extent;
            vstd::arithmetic::div_mod::lemma_mod_multiples_basic(k, page);
        }
        if exists|k: int| 0 < k && #[trigger] (k * extent) == len {
            let k = choose|k: int| 0 < k && #[trigger] (k * extent) == len;
            vstd::arithmetic::div_mod::lemma_mod_multiples_basic(k, extent);
        }
    }
}

/// An arena nothing was mapped in yet.
pub open spec fn untouched(len: nat, extent: nat, budget: nat) -> FaultState {
    let n = len / extent;
    FaultState {
        len,
        extent,
        max: budget / extent,
        order: Seq::empty(),
        mapped: Seq::new(n, |e: int| false),
        dirty: Seq::new(n, |e: int| false),
        counts: FaultCounts::zero(),
        resolving: Resolving::Nothing,
    }
}

/// A new arena covers the bytes asked for with extents of the size asked for,
/// and may map as many of them at a time as the budget asked for holds: they
/// fit, and one more would not. Nothing is mapped, dirty or counted.
pub proof fn law_a_new_arena_has_what_was_asked_for(
    len: nat,
    extent: nat,
    budget: nat,
    page: int,
    region_len: int,
)
    requires
        0 < page,
        workable(len as int, extent as int, budget as int, page, region_len),
    ensures
        ({
            let s = untouched(len, extent, budget);
            &&& s.len == len
            &&& s.extent == extent
            &&& s.mapped.len() * extent == len
            &&& s.dirty.len() == s.mapped.len()
            &&& s.max * extent <= budget < s.max * extent + extent
            &&& s.max > 0
            &&& s.order.len() == 0
            &&& forall|e: int| 0 <= e < s.mapped.len() ==> !#[trigger] s.mapped[e] && !s.dirty[e]
            &&& s.asks() is None
            &&& s.counts.peak == 0
        }),
{
    let x = extent as int;
    vstd::arithmetic::div_mod::lemma_fundamental_div_mod(len as int, x);
    vstd::arithmetic::div_mod::lemma_fundamental_div_mod(budget as int, x);
    vstd::arithmetic::div_mod::lemma_mod_bound(budget as int, x);
    vstd::arithmetic::mul::lemma_mul_is_commutative(len as int / x, x);
    vstd::arithmetic::mul::lemma_mul_is_commutative(budget as int / x, x);
}

} // verus!
