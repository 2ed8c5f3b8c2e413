//! Transparent fault-in via a signal handler.
//!
//! Same architecture as [`crate::faultin`] — a raw pointer over an arena
//! larger than RAM, resolved on demand — but the fault transport is a
//! `SIGSEGV`/`SIGBUS` handler plus `mprotect` instead of `userfaultfd`.
//!
//! ```text
//!   absent   ──read fault──▶  load extent, readable     (clean, resident)
//!   clean    ──write fault─▶  mark dirty, writable
//!   resident ──evicted─────▶  write back if dirty, inaccessible, pages released
//! ```
//!
//! Read-only access never reaches the write state, so dirty tracking is
//! exact: a pass that only reads produces zero write faults and zero
//! writebacks.
//!
//! Everything here is preallocated when the arena is made; resolving a fault
//! only reads and writes existing slots, so a signal handler may do it. The
//! handler performs each [`SignalAction`] and says how it went.

use crate::error::LoomError;
use crate::faultin::check_geometry;
#[allow(unused_imports)]
use crate::faultin::{unworkable_text, workable, Memory};
use crate::stats::bump;
#[allow(unused_imports)]
use crate::stats::bumped;
use vstd::prelude::*;
use vstd::string::*;

verus! {

/// Bytes loaded and mapped per fault. A page-sized round trip to a 10 ms
/// device is ruinous; one fault should pay for a useful span.
pub const DEFAULT_EXTENT: usize = 65536;

/// How much of an arena may be addressed and mapped.
#[derive(Debug, Clone)]
pub struct SignalFaultOptions {
    /// Bytes of the arena the program may address.
    pub len: usize,
    /// Bytes loaded and mapped per fault.
    pub extent: usize,
    /// Hard cap on mapped arena bytes.
    pub resident_budget: usize,
}

impl SignalFaultOptions {
    /// The default extent.
    pub fn new(len: usize, resident_budget: usize) -> (o: Self)
        ensures
            o.len == len,
            o.extent == DEFAULT_EXTENT,
            o.resident_budget == resident_budget,
    {
        SignalFaultOptions { len, extent: DEFAULT_EXTENT, resident_budget }
    }
}

/// The extent is not mapped.
pub const ST_ABSENT: u8 = 0;

/// The extent is mapped, and equal to the arena's bytes.
pub const ST_CLEAN: u8 = 1;

/// The extent is mapped and was written to.
pub const ST_DIRTY: u8 = 2;

/// A failed read or write of the arena, as an error number.
pub const EIO: i32 = 5;

/// A fault that nothing explains, as an error number.
pub const EACCES: i32 = 13;

/// Counters of the fault path.
#[derive(Debug, Clone, Copy, PartialEq, Eq, Structural)]
pub struct SignalFaultCounters {
    pub load_faults: u64,
    pub write_faults: u64,
    pub evictions: u64,
    pub writebacks: u64,
    pub peak_resident_extents: usize,
    /// Faults that could not be resolved. Non-zero here means the process was
    /// left in a state that could not honestly be recovered from.
    pub failures: u64,
    /// Error number of the first failure, so a failure is diagnosable rather
    /// than merely counted.
    pub first_failure_errno: i32,
    /// Address of the first failure.
    pub first_failure_addr: u64,
}

impl SignalFaultCounters {
    /// Nothing happened yet.
    pub open spec fn zero() -> Self {
        SignalFaultCounters {
            load_faults: 0,
            write_faults: 0,
            evictions: 0,
            writebacks: 0,
            peak_resident_extents: 0,
            failures: 0,
            first_failure_errno: 0,
            first_failure_addr: 0,
        }
    }

    /// One more failure; the first one's particulars stay.
    pub open spec fn failed(self, errno: i32, addr: u64) -> Self {
        SignalFaultCounters {
            failures: bumped(self.failures, 1),
            first_failure_errno: if self.first_failure_errno == 0 {
                errno
            } else {
                self.first_failure_errno
            },
            first_failure_addr: if self.first_failure_addr == 0 {
                addr
            } else {
                self.first_failure_addr
            },
            ..self
        }
    }
}

impl Default for SignalFaultCounters {
    fn default() -> (c: Self)
        ensures
            c == SignalFaultCounters::zero(),
    {
        SignalFaultCounters {
            load_faults: 0,
            write_faults: 0,
            evictions: 0,
            writebacks: 0,
            peak_resident_extents: 0,
            failures: 0,
            first_failure_errno: 0,
            first_failure_addr: 0,
        }
    }
}

/// Snapshot of the counters, for printing and asserting.
#[derive(Debug, Clone, Copy, PartialEq, Eq, Structural)]
pub struct SignalFaultStats {
    pub load_faults: u64,
    pub write_faults: u64,
    pub evictions: u64,
    pub writebacks: u64,
    pub resident_extents: usize,
    pub peak_resident_extents: usize,
    pub failures: u64,
    pub first_failure_errno: i32,
    pub first_failure_addr: u64,
}

// ---- the handler's decisions --------------------------------------------

/// Is a faulting address the arena's to explain? With no arena installed the
/// base is zero and nothing is claimed.
pub fn claims(base: usize, end: usize, addr: usize) -> (b: bool)
    ensures
        b == (base != 0 && base <= addr < end),
{
    base != 0 && addr >= base && addr < end
}

/// What was installed for a signal before.
#[derive(Debug, Clone, Copy, PartialEq, Eq, Structural)]
pub enum Disposition {
    /// The default action.
    Default,
    /// Ignored.
    Ignored,
    /// A handler that takes the signal's information.
    Informed,
    /// A handler that takes the signal only.
    Plain,
}

/// What to do with a fault that is not the arena's, or that it could not
/// resolve.
#[derive(Debug, Clone, Copy, PartialEq, Eq, Structural)]
pub enum Chain {
    /// Restore the default action and raise the signal again, so the process
    /// dies the way it would have without the arena.
    Die,
    /// Call the saved handler with the signal's information.
    CallInformed,
    /// Call the saved handler with the signal.
    CallPlain,
}

/// Pass a fault on to whatever was installed before. Swallowing another
/// subsystem's fault would silently break crash reporting for the whole
/// process.
pub fn chain(saved: Option<Disposition>) -> (c: Chain)
    ensures
        c == match saved {
            Some(Disposition::Informed) => Chain::CallInformed,
            Some(Disposition::Plain) => Chain::CallPlain,
            _ => Chain::Die,
        },
{
    match saved {
        Some(Disposition::Informed) => Chain::CallInformed,
        Some(Disposition::Plain) => Chain::CallPlain,
        _ => Chain::Die,
    }
}

/// One arena per process: a second one is refused.
pub fn already_installed() -> (e: LoomError)
    ensures
        e matches LoomError::Unsupported(t) && t@
            == "a signal-backed arena is already installed in this process; the handler finds its arena from the faulting address, so only one may exist"@,
{
    LoomError::Unsupported(
        String::from_str(
            "a signal-backed arena is already installed in this process; the handler finds its arena from the faulting address, so only one may exist",
        ),
    )
}

// ---- residency ----------------------------------------------------------

/// What the handler has to do next.
#[derive(Debug, Clone, Copy, PartialEq, Eq, Structural)]
pub enum SignalAction {
    /// Make the extent readable and writable.
    Open { ext: usize },
    /// Copy the extent's bytes out and write them to the arena.
    WriteBack { ext: usize },
    /// Make the extent inaccessible and release its pages.
    Close { ext: usize },
    /// Read the extent's bytes from the arena and copy them in.
    Load { ext: usize },
    /// Make the extent read-only.
    Seal { ext: usize },
}

/// Where a fault stands.
#[derive(Debug, Clone, Copy, PartialEq, Eq, Structural)]
pub enum SignalStep {
    /// This has to be done first.
    Act(SignalAction),
    /// The faulting instruction may be retried.
    Resolved,
    /// The fault cannot be resolved, with an error number.
    Failed(i32),
}

/// The fault being resolved, or the extent being flushed.
#[derive(Debug, Clone, Copy, PartialEq, Eq, Structural)]
pub enum Resolving {
    /// None.
    Nothing,
    /// A clean extent becomes writable.
    Promote { ext: usize },
    /// Room is made for `ext`: the victim is written back.
    WriteBack { ext: usize, victim: usize },
    /// Room is made for `ext`: the victim is closed.
    Close { ext: usize, victim: usize },
    /// `ext` is opened for filling.
    Open { ext: usize },
    /// `ext` is filled.
    Load { ext: usize },
    /// `ext` is made read-only, so that the first real write is observable.
    Seal { ext: usize },
    /// `ext` is flushed: its bytes are written back.
    Save { ext: usize },
    /// `ext` is flushed: it is made read-only again, so that no later write
    /// goes unnoticed.
    Reseal { ext: usize },
}

/// What a signal-backed arena keeps track of, as mathematics.
#[verifier::ext_equal]
pub struct SignalState {
    /// Address of the first byte.
    pub base: nat,
    /// Addressable bytes.
    pub len: nat,
    /// Bytes per extent.
    pub extent: nat,
    /// Extents the budget pays for.
    pub max: nat,
    /// Per extent: absent, clean or dirty.
    pub state: Seq<u8>,
    /// Resident extents, in the order they arrived.
    pub order: Seq<usize>,
    /// The counters.
    pub counters: SignalFaultCounters,
    /// The fault being resolved, or the extent being flushed.
    pub resolving: Resolving,
}

/// The list holds exactly the extents that are not absent, each once.
pub open spec fn lists_present(order: Seq<usize>, state: Seq<u8>) -> bool {
    &&& order.no_duplicates()
    &&& forall|i: int| 0 <= i < order.len() ==> (#[trigger] order[i]) < state.len()
    &&& forall|e: usize|
        e < state.len() ==> (#[trigger] state[e as int] != ST_ABSENT) == order.contains(e)
}

impl SignalState {
    /// Validity: the list of resident extents is exact and within the budget,
    /// and the peak is a witness.
    pub open spec fn wf(self) -> bool {
        &&& 0 < self.extent
        &&& 0 < self.max
        &&& self.max * self.extent <= usize::MAX
        &&& self.len == self.state.len() * self.extent
        &&& self.base + self.len <= usize::MAX
        &&& lists_present(self.order, self.state)
        &&& self.order.len() <= self.max
        &&& self.order.len() <= self.counters.peak_resident_extents <= self.max
        &&& match self.resolving {
            Resolving::Nothing => true,
            Resolving::Promote { ext } => ext < self.state.len() && self.state[ext as int]
                == ST_CLEAN,
            Resolving::WriteBack { ext, victim } => {
                &&& self.absent(ext)
                &&& self.order.len() == self.max
                &&& victim == self.order[0]
                &&& self.state[victim as int] == ST_DIRTY
            },
            Resolving::Close { ext, victim } => {
                &&& self.absent(ext)
                &&& self.order.len() == self.max
                &&& victim == self.order[0]
            },
            Resolving::Open { ext } => self.absent(ext) && self.order.len() < self.max,
            Resolving::Load { ext } => self.absent(ext) && self.order.len() < self.max,
            Resolving::Seal { ext } => self.absent(ext) && self.order.len() < self.max,
            Resolving::Save { ext } => ext < self.state.len() && self.state[ext as int] == ST_DIRTY,
            Resolving::Reseal { ext } => ext < self.state.len() && self.state[ext as int]
                == ST_DIRTY,
        }
    }

    /// The extent exists and is not resident.
    pub open spec fn absent(self, ext: usize) -> bool {
        ext < self.state.len() && self.state[ext as int] == ST_ABSENT
    }

    /// The action that is waited for.
    pub open spec fn asks(self) -> Option<SignalAction> {
        match self.resolving {
            Resolving::Nothing => None,
            Resolving::Promote { ext } => Some(SignalAction::Open { ext }),
            Resolving::WriteBack { ext, victim } => Some(SignalAction::WriteBack { ext: victim }),
            Resolving::Close { ext, victim } => Some(SignalAction::Close { ext: victim }),
            Resolving::Open { ext } => Some(SignalAction::Open { ext }),
            Resolving::Load { ext } => Some(SignalAction::Load { ext }),
            Resolving::Seal { ext } => Some(SignalAction::Seal { ext }),
            Resolving::Save { ext } => Some(SignalAction::WriteBack { ext }),
            Resolving::Reseal { ext } => Some(SignalAction::Seal { ext }),
        }
    }

    /// The same arena resolving something else.
    pub open spec fn with_resolving(self, resolving: Resolving) -> Self {
        SignalState { resolving, ..self }
    }

    /// An absent extent: open it if there is room, else make room. The oldest
    /// extent goes first, written back if it is dirty.
    pub open spec fn room_for(self, ext: usize) -> Self {
        self.with_resolving(
            if self.order.len() < self.max {
                Resolving::Open { ext }
            } else if self.state[self.order[0] as int] == ST_DIRTY {
                Resolving::WriteBack { ext, victim: self.order[0] }
            } else {
                Resolving::Close { ext, victim: self.order[0] }
            },
        )
    }

    /// The extent of an address inside the arena.
    pub open spec fn extent_of(self, addr: int) -> int {
        (addr - self.base) / self.extent as int
    }

    /// A fault at `addr`: a clean extent is present and readable, so the
    /// fault is a write; an absent one has to be loaded; a dirty one is
    /// writable already, and the fault is not the arena's to explain.
    pub open spec fn faulted(self, addr: int) -> Self {
        let ext = self.extent_of(addr);
        if self.state[ext] == ST_CLEAN {
            self.with_resolving(Resolving::Promote { ext: ext as usize })
        } else if self.state[ext] == ST_DIRTY {
            self
        } else {
            self.room_for(ext as usize)
        }
    }

    /// The oldest extent gone.
    pub open spec fn closed_oldest(self) -> Self {
        SignalState {
            order: self.order.skip(1),
            state: self.state.update(self.order[0] as int, ST_ABSENT),
            counters: SignalFaultCounters {
                evictions: bumped(self.counters.evictions, 1),
                ..self.counters
            },
            ..self
        }
    }

    /// What follows when the action that was waited for went through.
    pub open spec fn went_through(self) -> Self {
        match self.resolving {
            Resolving::Nothing => self,
            Resolving::Promote { ext } => SignalState {
                state: self.state.update(ext as int, ST_DIRTY),
                counters: SignalFaultCounters {
                    write_faults: bumped(self.counters.write_faults, 1),
                    ..self.counters
                },
                resolving: Resolving::Nothing,
                ..self
            },
            Resolving::WriteBack { ext, victim } => SignalState {
                counters: SignalFaultCounters {
                    writebacks: bumped(self.counters.writebacks, 1),
                    ..self.counters
                },
                resolving: Resolving::Close { ext, victim },
                ..self
            },
            Resolving::Close { ext, victim } => self.closed_oldest().room_for(ext),
            Resolving::Open { ext } => self.with_resolving(Resolving::Load { ext }),
            Resolving::Load { ext } => self.with_resolving(Resolving::Seal { ext }),
            Resolving::Seal { ext } => SignalState {
                state: self.state.update(ext as int, ST_CLEAN),
                order: self.order.push(ext),
                counters: SignalFaultCounters {
                    load_faults: bumped(self.counters.load_faults, 1),
                    peak_resident_extents: if self.order.len() + 1
                        > self.counters.peak_resident_extents {
                        (self.order.len() + 1) as usize
                    } else {
                        self.counters.peak_resident_extents
                    },
                    ..self.counters
                },
                resolving: Resolving::Nothing,
                ..self
            },
            Resolving::Save { ext } => self.with_resolving(Resolving::Reseal { ext }),
            Resolving::Reseal { ext } => SignalState {
                state: self.state.update(ext as int, ST_CLEAN),
                resolving: Resolving::Nothing,
                ..self
            },
        }
    }

    /// The error number of a failed action: reading and writing the arena
    /// have one of their own, the others are the kernel's.
    pub open spec fn errno_of(self, errno: i32) -> i32 {
        match self.resolving {
            Resolving::WriteBack { ext, victim } => EIO,
            Resolving::Load { ext } => EIO,
            Resolving::Save { ext } => EIO,
            _ => errno,
        }
    }

    /// How many actions are left at most.
    pub open spec fn distance(self) -> int {
        match self.resolving {
            Resolving::Nothing => 0,
            Resolving::Promote { ext } => 1,
            Resolving::Seal { ext } => 1,
            Resolving::Reseal { ext } => 1,
            Resolving::Save { ext } => 2,
            Resolving::Load { ext } => 2,
            Resolving::Open { ext } => 3,
            Resolving::Close { ext, victim } => 4,
            Resolving::WriteBack { ext, victim } => 5,
        }
    }
}

/// Bookkeeping of a transparent arena backed by a signal handler.
pub struct SignalFaultArena {
    base: usize,
    len: usize,
    extent: usize,
    max_extents: usize,
    /// `ST_*` per extent.
    state: Vec<u8>,
    /// Resident extents in arrival order, as a fixed ring. FIFO eviction —
    /// simple, and honest about being simple.
    ring: Vec<usize>,
    ring_head: usize,
    ring_len: usize,
    counters: SignalFaultCounters,
    resolving: Resolving,
}

/// Where the `i`-th entry of a ring lies.
spec fn slot(head: int, i: int, size: int) -> int {
    if head + i < size {
        head + i
    } else {
        head + i - size
    }
}

/// The entries of a ring, oldest first.
spec fn entries(ring: Seq<usize>, head: int, n: int) -> Seq<usize> {
    Seq::new(n as nat, |i: int| ring[slot(head, i, ring.len() as int)])
}

impl View for SignalFaultArena {
    type V = SignalState;

    closed spec fn view(&self) -> SignalState {
        SignalState {
            base: self.base as nat,
            len: self.len as nat,
            extent: self.extent as nat,
            max: self.max_extents as nat,
            state: self.state@,
            order: entries(self.ring@, self.ring_head as int, self.ring_len as int),
            counters: self.counters,
            resolving: self.resolving,
        }
    }
}

/// The oldest extent leaves the list.
proof fn lemma_oldest_closed(order: Seq<usize>, state: Seq<u8>)
    requires
        lists_present(order, state),
        order.len() > 0,
    ensures
        lists_present(order.skip(1), state.update(order[0] as int, ST_ABSENT)),
{
    let rest = order.skip(1);
    let now = state.update(order[0] as int, ST_ABSENT);
    assert(order[0] < state.len());
    assert forall|e: usize| e < now.len() implies (#[trigger] now[e as int] != ST_ABSENT)
        == rest.contains(e) by {
        assert((state[e as int] != ST_ABSENT) == order.contains(e));
        if rest.contains(e) {
            let j = choose|j: int| 0 <= j < rest.len() && rest[j] == e;
            assert(order[j + 1] == e);
        }
        if order.contains(e) && e != order[0] {
            let j = choose|j: int| 0 <= j < order.len() && order[j] == e;
            assert(rest[j - 1] == e);
        }
    }
    assert forall|i: int| 0 <= i < rest.len() implies (#[trigger] rest[i]) < now.len() by {
        assert(order[i + 1] < state.len());
    }
}

/// A loaded extent joins the list.
proof fn lemma_loaded_joins(order: Seq<usize>, state: Seq<u8>, ext: usize)
    requires
        lists_present(order, state),
        ext < state.len(),
        state[ext as int] == ST_ABSENT,
    ensures
        lists_present(order.push(ext), state.update(ext as int, ST_CLEAN)),
{
    let more = order.push(ext);
    let now = state.update(ext as int, ST_CLEAN);
    assert((state[ext as int] != ST_ABSENT) == order.contains(ext));
    assert(!order.contains(ext));
    assert forall|e: usize| e < now.len() implies (#[trigger] now[e as int] != ST_ABSENT)
        == more.contains(e) by {
        assert((state[e as int] != ST_ABSENT) == order.contains(e));
        if order.contains(e) {
            let j = choose|j: int| 0 <= j < order.len() && order[j] == e;
            assert(more[j] == e);
        }
        assert(more[order.len() as int] == ext);
    }
}

/// A resident extent that stays resident.
proof fn lemma_still_present(order: Seq<usize>, state: Seq<u8>, ext: int, now: u8)
    requires
        lists_present(order, state),
        0 <= ext < state.len(),
        state[ext] != ST_ABSENT,
        now != ST_ABSENT,
    ensures
        lists_present(order, state.update(ext, now)),
{
    assert forall|e: usize| e < state.len() implies (#[trigger] state.update(ext, now)[e as int]
        != ST_ABSENT) == order.contains(e) by {
        assert((state[e as int] != ST_ABSENT) == order.contains(e));
    }
}

impl SignalFaultArena {
    /// The ring has its size, and every extent one of the three states.
    pub closed spec fn sized(&self) -> bool {
        &&& self.ring@.len() == self.max_extents
        &&& self.ring_len <= self.max_extents
        &&& self.ring_head < self.max_extents
        &&& forall|e: int|
            0 <= e < self.state@.len() ==> #[trigger] self.state@[e] == ST_ABSENT || self.state@[e]
                == ST_CLEAN || self.state@[e] == ST_DIRTY
    }

    /// Validity of an arena.
    pub open spec fn wf(&self) -> bool {
        &&& self.sized()
        &&& self@.wf()
    }

    /// Hold a geometry against the page size and the region, before any
    /// address space is reserved.
    pub fn check(opts: &SignalFaultOptions, page: usize, region_len: u64) -> (r: Result<
        (),
        LoomError,
    >)
        requires
            page > 0,
        ensures
            r is Ok <==> workable(
                opts.len as int,
                opts.extent as int,
                opts.resident_budget as int,
                page as int,
                region_len as int,
            ),
            r matches Err(e) ==> {
                &&& e matches LoomError::Invalid(t)
                &&& t@ == unworkable_text(
                    opts.len as int,
                    opts.extent as int,
                    opts.resident_budget as int,
                    page as int,
                    region_len as int,
                )
            },
    {
        match check_geometry(opts.len, opts.extent, opts.resident_budget, page, region_len) {
            Ok(_) => Ok(()),
            Err(e) => Err(e),
        }
    }

    /// An arena of `opts.len` addressable bytes from `base` on, nothing
    /// mapped yet.
    pub fn new(base: usize, region_len: u64, opts: &SignalFaultOptions, page: usize) -> (r: Result<
        Self,
        LoomError,
    >)
        requires
            page > 0,
            base + opts.len <= usize::MAX,
        ensures
            match r {
                Ok(a) => {
                    &&& workable(
                        opts.len as int,
                        opts.extent as int,
                        opts.resident_budget as int,
                        page as int,
                        region_len as int,
                    )
                    &&& a.wf()
                    &&& a@ == untouched(
                        base as nat,
                        opts.len as nat,
                        opts.extent as nat,
                        opts.resident_budget as nat,
                    )
                },
                Err(e) => {
                    &&& !workable(
                        opts.len as int,
                        opts.extent as int,
                        opts.resident_budget as int,
                        page as int,
                        region_len as int,
                    )
                    &&& e matches LoomError::Invalid(t)
                    &&& t@ == unworkable_text(
                        opts.len as int,
                        opts.extent as int,
                        opts.resident_budget as int,
                        page as int,
                        region_len as int,
                    )
                },
            },
    {
        let max_extents: usize = match check_geometry(
            opts.len,
            opts.extent,
            opts.resident_budget,
            page,
            region_len,
        ) {
            Ok(n) => n,
            Err(e) => {
                return Err(e);
            },
        };
        let n: usize = opts.len / opts.extent;
        proof {
            vstd::arithmetic::div_mod::lemma_fundamental_div_mod(
                opts.len as int,
                opts.extent as int,
            );
            vstd::arithmetic::mul::lemma_mul_is_commutative(n as int, opts.extent as int);
        }
        let a = SignalFaultArena {
            base,
            len: opts.len,
            extent: opts.extent,
            max_extents,
            state: vec![ST_ABSENT; n],
            ring: vec![0usize; max_extents],
            ring_head: 0,
            ring_len: 0,
            counters: SignalFaultCounters::default(),
            resolving: Resolving::Nothing,
        };
        proof {
            assert(a@.state =~= Seq::new(n as nat, |e: int| ST_ABSENT));
            assert(a@.order =~= Seq::empty());
        }
        Ok(a)
    }

    /// Address of the first byte.
    pub fn base(&self) -> (n: usize)
        ensures
            n == self@.base,
    {
        self.base
    }

    /// Addressable bytes. Never zero — `new` rejects a zero length.
    pub fn len(&self) -> (n: usize)
        ensures
            n == self@.len,
    {
        self.len
    }

    /// Bytes per extent.
    pub fn extent(&self) -> (n: usize)
        ensures
            n == self@.extent,
    {
        self.extent
    }

    /// The budget in bytes, in whole extents.
    pub fn budget_bytes(&self) -> (n: usize)
        requires
            self.wf(),
        ensures
            n == self@.max * self@.extent,
    {
        self.max_extents * self.extent
    }

    /// Snapshot of the counters.
    pub fn stats(&self) -> (s: SignalFaultStats)
        ensures
            s == (SignalFaultStats {
                load_faults: self@.counters.load_faults,
                write_faults: self@.counters.write_faults,
                evictions: self@.counters.evictions,
                writebacks: self@.counters.writebacks,
                resident_extents: self@.order.len() as usize,
                peak_resident_extents: self@.counters.peak_resident_extents,
                failures: self@.counters.failures,
                first_failure_errno: self@.counters.first_failure_errno,
                first_failure_addr: self@.counters.first_failure_addr,
            }),
    {
        SignalFaultStats {
            load_faults: self.counters.load_faults,
            write_faults: self.counters.write_faults,
            evictions: self.counters.evictions,
            writebacks: self.counters.writebacks,
            resident_extents: self.ring_len,
            peak_resident_extents: self.counters.peak_resident_extents,
            failures: self.counters.failures,
            first_failure_errno: self.counters.first_failure_errno,
            first_failure_addr: self.counters.first_failure_addr,
        }
    }

    /// Start resolving a fault at an address of the arena.
    pub fn resolve(&mut self, addr: usize) -> (s: SignalStep)
        requires
            old(self).wf(),
            old(self)@.resolving is Nothing,
            old(self)@.base <= addr < old(self)@.base + old(self)@.len,
        ensures
            final(self).wf(),
            final(self)@ == old(self)@.faulted(addr as int),
            match s {
                SignalStep::Act(a) => final(self)@.asks() == Some(a),
                SignalStep::Resolved => false,
                SignalStep::Failed(e) => {
                    &&& e == EACCES
                    &&& old(self)@.state[old(self)@.extent_of(addr as int)] == ST_DIRTY
                },
            },
            s is Failed <==> old(self)@.state[old(self)@.extent_of(addr as int)] == ST_DIRTY,
    {
        let ghost pre = self@;
        let ext: usize = (addr - self.base) / self.extent;
        proof {
            let off = addr - pre.base;
            let x = pre.extent as int;
            vstd::arithmetic::div_mod::lemma_fundamental_div_mod(off, x);
            vstd::arithmetic::div_mod::lemma_mod_bound(off, x);
            let q = off / x;
            let n = pre.state.len() as int;
            assert(q < n) by (nonlinear_arith)
                requires
                    x * q <= off,
                    off < n * x,
                    0 < x,
            ;
        }
        let st: u8 = self.state[ext];
        if st == ST_CLEAN {
            self.resolving = Resolving::Promote { ext };
            assert(self@ =~= pre.faulted(addr as int));
            SignalStep::Act(SignalAction::Open { ext })
        } else if st == ST_DIRTY {
            SignalStep::Failed(EACCES)
        } else {
            let a = self.make_room(ext);
            assert(self@ =~= pre.faulted(addr as int));
            SignalStep::Act(a)
        }
    }

    /// Open the extent if there is room, else make room.
    fn make_room(&mut self, ext: usize) -> (a: SignalAction)
        requires
            old(self).wf(),
            old(self)@.resolving is Nothing,
            old(self)@.absent(ext),
        ensures
            final(self).wf(),
            final(self)@ == old(self)@.room_for(ext),
            final(self)@.asks() == Some(a),
    {
        if self.ring_len < self.max_extents {
            self.resolving = Resolving::Open { ext };
            assert(self@ =~= old(self)@.room_for(ext));
            return SignalAction::Open { ext };
        }
        let victim: usize = self.ring[self.ring_head];
        assert(self@.order[0] == victim);
        assert(self@.order[0] < self@.state.len());
        if self.state[victim] == ST_DIRTY {
            self.resolving = Resolving::WriteBack { ext, victim };
            assert(self@ =~= old(self)@.room_for(ext));
            SignalAction::WriteBack { ext: victim }
        } else {
            self.resolving = Resolving::Close { ext, victim };
            assert(self@ =~= old(self)@.room_for(ext));
            SignalAction::Close { ext: victim }
        }
    }

    /// The action that was waited for went through.
    pub fn went_through(&mut self) -> (s: SignalStep)
        requires
            old(self).wf(),
            !(old(self)@.resolving is Nothing),
        ensures
            final(self).wf(),
            final(self)@ == old(self)@.went_through(),
            match s {
                SignalStep::Act(a) => final(self)@.asks() == Some(a) && final(self)@.distance()
                    < old(self)@.distance(),
                SignalStep::Resolved => final(self)@.resolving is Nothing,
                SignalStep::Failed(_) => false,
            },
    {
        let ghost pre = self@;
        let r = self.resolving;
        self.resolving = Resolving::Nothing;
        match r {
            Resolving::Promote { ext } => {
                self.state[ext] = ST_DIRTY;
                self.counters.write_faults = bump(self.counters.write_faults, 1);
                proof {
                    lemma_still_present(pre.order, pre.state, ext as int, ST_DIRTY);
                    assert(self@ =~= pre.went_through());
                }
                SignalStep::Resolved
            },
            Resolving::WriteBack { ext, victim } => {
                self.counters.writebacks = bump(self.counters.writebacks, 1);
                self.resolving = Resolving::Close { ext, victim };
                assert(self@ =~= pre.went_through());
                SignalStep::Act(SignalAction::Close { ext: victim })
            },
            Resolving::Close { ext, victim } => {
                proof {
                    assert(pre.order[0] < pre.state.len());
                    lemma_oldest_closed(pre.order, pre.state);
                    if ext == victim {
                        assert((pre.state[victim as int] != ST_ABSENT) == pre.order.contains(
                            victim,
                        ));
                        assert(pre.order[0] == victim);
                    }
                }
                self.state[victim] = ST_ABSENT;
                if self.ring_head + 1 == self.max_extents {
                    self.ring_head = 0;
                } else {
                    self.ring_head = self.ring_head + 1;
                }
                self.ring_len = self.ring_len - 1;
                self.counters.evictions = bump(self.counters.evictions, 1);
                proof {
                    assert(self@.order =~= pre.order.skip(1));
                    assert(self@ =~= pre.closed_oldest().with_resolving(Resolving::Nothing));
                }
                let a = self.make_room(ext);
                assert(self@ =~= pre.went_through());
                SignalStep::Act(a)
            },
            Resolving::Open { ext } => {
                self.resolving = Resolving::Load { ext };
                assert(self@ =~= pre.went_through());
                SignalStep::Act(SignalAction::Load { ext })
            },
            Resolving::Load { ext } => {
                self.resolving = Resolving::Seal { ext };
                assert(self@ =~= pre.went_through());
                SignalStep::Act(SignalAction::Seal { ext })
            },
            Resolving::Seal { ext } => {
                proof {
                    lemma_loaded_joins(pre.order, pre.state, ext);
                }
                self.state[ext] = ST_CLEAN;
                let left: usize = self.max_extents - self.ring_head;
                let tail: usize = if self.ring_len < left {
                    self.ring_head + self.ring_len
                } else {
                    self.ring_len - left
                };
                self.ring[tail] = ext;
                self.ring_len = self.ring_len + 1;
                self.counters.load_faults = bump(self.counters.load_faults, 1);
                if self.ring_len > self.counters.peak_resident_extents {
                    self.counters.peak_resident_extents = self.ring_len;
                }
                proof {
                    assert(self@.order =~= pre.order.push(ext));
                    assert(self@ =~= pre.went_through());
                }
                SignalStep::Resolved
            },
            Resolving::Save { ext } => {
                self.resolving = Resolving::Reseal { ext };
                assert(self@ =~= pre.went_through());
                SignalStep::Act(SignalAction::Seal { ext })
            },
            Resolving::Reseal { ext } => {
                self.state[ext] = ST_CLEAN;
                proof {
                    lemma_still_present(pre.order, pre.state, ext as int, ST_CLEAN);
                    assert(self@ =~= pre.went_through());
                }
                SignalStep::Resolved
            },
            Resolving::Nothing => SignalStep::Resolved,
        }
    }

    /// The action that was waited for failed, with an error number from the
    /// kernel where there is one. What was done before it stays done.
    pub fn gave_up(&mut self, errno: i32) -> (e: i32)
        requires
            old(self).wf(),
        ensures
            final(self).wf(),
            final(self)@ == old(self)@.with_resolving(Resolving::Nothing),
            e == old(self)@.errno_of(errno),
    {
        let e: i32 = match self.resolving {
            Resolving::WriteBack { .. } => EIO,
            Resolving::Load { .. } => EIO,
            Resolving::Save { .. } => EIO,
            _ => errno,
        };
        self.resolving = Resolving::Nothing;
        assert(self@ =~= old(self)@.with_resolving(Resolving::Nothing));
        e
    }

    /// Record a fault that could not be resolved.
    pub fn record_failure(&mut self, errno: i32, addr: u64)
        requires
            old(self).wf(),
        ensures
            final(self).wf(),
            final(self)@ == (SignalState {
                counters: old(self)@.counters.failed(errno, addr),
                ..old(self)@
            }),
    {
        self.counters.failures = bump(self.counters.failures, 1);
        if self.counters.first_failure_errno == 0 {
            self.counters.first_failure_errno = errno;
        }
        if self.counters.first_failure_addr == 0 {
            self.counters.first_failure_addr = addr;
        }
    }

    /// The dirty extents, in the order they arrived: what a flush has to
    /// write back.
    pub fn dirty_extents(&self) -> (v: Vec<usize>)
        requires
            self.wf(),
        ensures
            v@ == dirty_of(self@.order, self@.state, self@.order.len() as int),
            v@.no_duplicates(),
            forall|e: usize| #[trigger]
                v@.contains(e) <==> e < self@.state.len() && self@.state[e as int] == ST_DIRTY,
    {
        let mut v: Vec<usize> = Vec::new();
        let mut i: usize = 0;
        while i < self.ring_len
            invariant
                self.wf(),
                i <= self.ring_len,
                v@ == dirty_of(self@.order, self@.state, i as int),
            decreases self.ring_len - i,
        {
            let left: usize = self.max_extents - self.ring_head;
            let at: usize = if i < left {
                self.ring_head + i
            } else {
                i - left
            };
            let e: usize = self.ring[at];
            assert(self@.order[i as int] == e);
            assert(self@.order[i as int] < self@.state.len());
            if self.state[e] == ST_DIRTY {
                v.push(e);
            }
            i = i + 1;
        }
        proof {
            law_flush_list_is_exact(self@);
        }
        v
    }

    /// Start flushing a dirty extent: it is written back, made read-only, and
    /// then clean.
    pub fn flush(&mut self, ext: usize) -> (a: SignalAction)
        requires
            old(self).wf(),
            old(self)@.resolving is Nothing,
            ext < old(self)@.state.len(),
            old(self)@.state[ext as int] == ST_DIRTY,
        ensures
            final(self).wf(),
            final(self)@ == old(self)@.with_resolving(Resolving::Save { ext }),
            a == (SignalAction::WriteBack { ext }),
    {
        self.resolving = Resolving::Save { ext };
        assert(self@ =~= old(self)@.with_resolving(Resolving::Save { ext }));
        SignalAction::WriteBack { ext }
    }
}

/// The dirty extents among the first `n` of a list, in its order.
pub open spec fn dirty_of(order: Seq<usize>, state: Seq<u8>, n: int) -> Seq<usize>
    decreases n,
{
    if n <= 0 {
        Seq::empty()
    } else {
        let rest = dirty_of(order, state, n - 1);
        if state[order[n - 1] as int] == ST_DIRTY {
            rest.push(order[n - 1])
        } else {
            rest
        }
    }
}

// ---- one arena per process ----------------------------------------------

/// The one place for a signal-backed arena in a process. The handler finds
/// its arena from the faulting address, so there is no second one.
pub struct Place {
    /// An arena is alive.
    pub installed: bool,
}

impl Place {
    /// Take the place for an arena. A geometry that cannot work is refused
    /// first. A refusal changes nothing, so an installed arena goes on
    /// serving its range.
    pub fn install(
        &mut self,
        opts: &SignalFaultOptions,
        page: usize,
        region_len: u64,
    ) -> (r: Result<(), LoomError>)
        requires
            page > 0,
        ensures
            ({
                let fits = workable(
                    opts.len as int,
                    opts.extent as int,
                    opts.resident_budget as int,
                    page as int,
                    region_len as int,
                );
                match r {
                    Ok(_) => fits && !old(self).installed && final(self).installed,
                    Err(LoomError::Invalid(t)) => {
                        &&& !fits
                        &&& *final(self) == *old(self)
                        &&& t@ == unworkable_text(
                            opts.len as int,
                            opts.extent as int,
                            opts.resident_budget as int,
                            page as int,
                            region_len as int,
                        )
                    },
                    Err(e) => {
                        &&& fits
                        &&& old(self).installed
                        &&& *final(self) == *old(self)
                        &&& e matches LoomError::Unsupported(t)
                        &&& t@
                            == "a signal-backed arena is already installed in this process; the handler finds its arena from the faulting address, so only one may exist"@
                    },
                }
            }),
    {
        match SignalFaultArena::check(opts, page, region_len) {
            Ok(_) => if self.installed {
                Err(already_installed())
            } else {
                self.installed = true;
                Ok(())
            },
            Err(e) => Err(e),
        }
    }

    /// The arena is gone.
    pub fn vacate(&mut self)
        ensures
            !final(self).installed,
    {
        self.installed = false;
    }
}

/// What happened to the place.
pub enum Tenure {
    /// An arena took it.
    Installed,
    /// An arena was refused.
    Refused,
    /// The arena left it.
    Vacated,
}

/// What each of these does to it.
pub open spec fn tenure_step(a: Place, t: Tenure, b: Place) -> bool {
    match t {
        Tenure::Installed => !a.installed && b.installed,
        Tenure::Refused => b == a,
        Tenure::Vacated => !b.installed,
    }
}

/// A place that nobody vacates stays taken.
proof fn lemma_stays_installed(h: Seq<Place>, t: Seq<Tenure>, i: int, j: int)
    requires
        h.len() == t.len() + 1,
        forall|k: int| 0 <= k < t.len() ==> tenure_step(h[k], #[trigger] t[k], h[k + 1]),
        0 <= i < j <= t.len(),
        t[i] is Installed,
        forall|k: int| i < k < j ==> !(#[trigger] t[k] is Vacated),
    ensures
        h[j].installed,
    decreases j - i,
{
    if j == i + 1 {
        assert(tenure_step(h[i], t[i], h[i + 1]));
    } else {
        lemma_stays_installed(h, t, i, j - 1);
        assert(tenure_step(h[j - 1], t[j - 1], h[j]));
    }
}

/// Whatever was asked for, no two arenas are alive at once: between two that
/// took the place, the first one left it.
pub proof fn law_one_arena_at_a_time(h: Seq<Place>, t: Seq<Tenure>, i: int, j: int)
    requires
        h.len() == t.len() + 1,
        forall|k: int| 0 <= k < t.len() ==> tenure_step(h[k], #[trigger] t[k], h[k + 1]),
        0 <= i < j < t.len(),
        t[i] is Installed,
        t[j] is Installed,
    ensures
        exists|k: int| i < k < j && #[trigger] t[k] is Vacated,
{
    if forall|k: int| i < k < j ==> !(#[trigger] t[k] is Vacated) {
        lemma_stays_installed(h, t, i, j);
        assert(tenure_step(h[j], t[j], h[j + 1]));
    }
}

// ---- what the program sees ----------------------------------------------

/// What carrying out an action does to the memory.
pub open spec fn carried_out(m: Memory, a: SignalAction, after: Memory) -> bool {
    match a {
        SignalAction::Open { ext } => after == (Memory {
            writable: m.writable.update(ext as int, true),
            ..m
        }),
        SignalAction::WriteBack { ext } => after == (Memory {
            pool: m.pool.update(ext as int, m.mapping[ext as int]),
            ..m
        }),
        SignalAction::Close { ext } => {
            &&& after.pool == m.pool
            &&& after.writable == m.writable.update(ext as int, false)
            &&& after.mapping == m.mapping.update(ext as int, after.mapping[ext as int])
        },
        SignalAction::Load { ext } => after == (Memory {
            mapping: m.mapping.update(ext as int, m.pool[ext as int]),
            ..m
        }),
        SignalAction::Seal { ext } => after == (Memory {
            writable: m.writable.update(ext as int, false),
            ..m
        }),
    }
}

impl SignalState {
    /// What the program sees in an extent: the resident bytes, or those that
    /// its access would bring in.
    pub open spec fn seen(self, m: Memory, e: int) -> Seq<u8> {
        if self.state[e] == ST_ABSENT {
            m.pool[e]
        } else {
            m.mapping[e]
        }
    }

    /// The extent is open only to be filled.
    pub open spec fn filling(self, e: int) -> bool {
        match self.resolving {
            Resolving::Load { ext } => ext == e,
            Resolving::Seal { ext } => ext == e,
            _ => false,
        }
    }

    /// The bookkeeping is true of the memory: what can be written without a
    /// fault counts as dirty, and what does not count as dirty is in the pool.
    pub open spec fn tracks(self, m: Memory) -> bool {
        &&& m.mapping.len() == self.state.len()
        &&& m.pool.len() == self.state.len()
        &&& m.writable.len() == self.state.len()
        &&& forall|e: int|
            #![trigger m.writable[e]]
            #![trigger self.state[e]]
            0 <= e < self.state.len() && m.writable[e] ==> self.state[e] == ST_DIRTY
                || self.filling(e)
        &&& forall|e: int|
            #![trigger self.state[e]]
            0 <= e < self.state.len() && self.state[e] != ST_ABSENT && self.state[e] != ST_DIRTY
                ==> m.mapping[e] == m.pool[e]
        &&& match self.resolving {
            Resolving::Close { ext, victim } => m.mapping[victim as int] == m.pool[victim as int],
            Resolving::Seal { ext } => m.mapping[ext as int] == m.pool[ext as int],
            Resolving::Reseal { ext } => m.mapping[ext as int] == m.pool[ext as int],
            _ => true,
        }
    }
}

/// Eviction, loading, promotion and flushing change nothing that the program
/// sees, and the bookkeeping stays true: dirty tracking is exact.
pub proof fn law_actions_change_nothing_seen(
    s: SignalState,
    m: Memory,
    a: SignalAction,
    after: Memory,
)
    requires
        s.wf(),
        s.tracks(m),
        s.asks() == Some(a),
        carried_out(m, a, after),
    ensures
        s.went_through().tracks(after),
        forall|e: int|
            0 <= e < s.state.len() ==> #[trigger] s.went_through().seen(after, e) == s.seen(m, e),
{
    let post = s.went_through();
    if s.resolving is WriteBack || s.resolving is Close {
        assert(s.order[0] < s.state.len());
        assert((s.state[s.order[0] as int] != ST_ABSENT) == s.order.contains(s.order[0]));
        assert(s.order.contains(s.order[0])) by {
            assert(s.order[0] == s.order[0]);
        }
    }
    if let Resolving::Close { ext, victim } = s.resolving {
        if post.resolving is Close {
            assert(post.order[0] == s.order[1]);
            assert(s.order[1] != s.order[0]);
            assert(s.order[1] < s.state.len());
            assert((s.state[s.order[1] as int] != ST_ABSENT) == s.order.contains(s.order[1]));
        }
    }
}

/// Starting on a fault or on a flush, and giving up on one, changes nothing
/// that the program sees. Giving up while an extent is being filled leaves it
/// open: the handler before this one then decides what becomes of the
/// program.
pub proof fn law_starts_change_nothing_seen(s: SignalState, m: Memory, addr: int, ext: usize)
    requires
        s.wf(),
        s.tracks(m),
        forall|e: int| 0 <= e < s.state.len() ==> !#[trigger] s.filling(e),
        s.base <= addr < s.base + s.len,
        0 <= s.extent_of(addr) < s.state.len(),
    ensures
        s.with_resolving(Resolving::Nothing).tracks(m),
        s.resolving is Nothing ==> s.faulted(addr).tracks(m),
        s.with_resolving(Resolving::Save { ext }).tracks(m),
        forall|e: int, r: Resolving|
            0 <= e < s.state.len() ==> #[trigger] s.with_resolving(r).seen(m, e) == s.seen(m, e),
        forall|e: int|
            0 <= e < s.state.len() ==> #[trigger] s.faulted(addr).seen(m, e) == s.seen(m, e),
{
    assert forall|e: int| 0 <= e < s.state.len() && m.writable[e] implies s.state[e]
        == ST_DIRTY by {
        assert(!s.filling(e));
    }
    let f = s.faulted(addr);
    if f.resolving is Close {
        assert(s.order[0] < s.state.len());
        assert((s.state[s.order[0] as int] != ST_ABSENT) == s.order.contains(s.order[0]));
    }
}

/// What the program writes, it sees; and it sees no other change. A write
/// needs an extent that can be written without a fault, and the program
/// stands still while a fault is resolved.
pub proof fn law_writes_are_seen(s: SignalState, m: Memory, ext: int, bytes: Seq<u8>)
    requires
        s.wf(),
        s.tracks(m),
        s.resolving is Nothing,
        0 <= ext < s.state.len(),
        m.writable[ext],
    ensures
        ({
            let after = Memory { mapping: m.mapping.update(ext, bytes), ..m };
            &&& s.tracks(after)
            &&& s.seen(after, ext) == bytes
            &&& forall|e: int|
                0 <= e < s.state.len() && e != ext ==> #[trigger] s.seen(after, e) == s.seen(m, e)
        }),
{
    assert(s.state[ext] == ST_DIRTY);
}

/// What is not dirty is in the pool: once every dirty extent is flushed, the
/// pool holds all that the program sees.
pub proof fn law_flushed_bytes_are_in_the_pool(s: SignalState, m: Memory, e: int)
    requires
        s.wf(),
        s.tracks(m),
        0 <= e < s.state.len(),
        s.state[e] != ST_DIRTY,
    ensures
        m.pool[e] == s.seen(m, e),
{
}

/// A new arena is true of a memory that is closed to the program.
pub proof fn law_a_new_arena_sees_the_pool(s: SignalState, m: Memory)
    requires
        s.wf(),
        s.order.len() == 0,
        s.resolving is Nothing,
        m.mapping.len() == s.state.len(),
        m.pool.len() == s.state.len(),
        m.writable == Seq::new(s.state.len(), |e: int| false),
    ensures
        s.tracks(m),
        forall|e: int| 0 <= e < s.state.len() ==> #[trigger] s.seen(m, e) == m.pool[e],
{
    let n = s.state.len() as int;
    let x = s.extent as int;
    assert(n <= n * x) by (nonlinear_arith)
        requires
            0 <= n,
            0 < x,
    ;
    assert forall|e: int| 0 <= e < s.state.len() implies #[trigger] s.state[e] == ST_ABSENT by {
        assert((s.state[e as usize as int] != ST_ABSENT) == s.order.contains(e as usize));
    }
}

/// Mapped bytes never exceed the budget, now or at the peak, whatever the
/// order of faults.
pub proof fn law_mapped_extents_within_budget(s: SignalState, budget: int)
    requires
        s.wf(),
        s.max == budget / s.extent as int,
        0 <= budget,
    ensures
        s.order.len() * s.extent <= budget,
        s.counters.peak_resident_extents * s.extent <= budget,
{
    let x = s.extent as int;
    vstd::arithmetic::div_mod::lemma_fundamental_div_mod(budget, x);
    vstd::arithmetic::div_mod::lemma_mod_bound(budget, x);
    vstd::arithmetic::mul::lemma_mul_is_commutative(s.max as int, x);
    vstd::arithmetic::mul::lemma_mul_inequality(s.order.len() as int, s.max as int, x);
    vstd::arithmetic::mul::lemma_mul_inequality(
        s.counters.peak_resident_extents as int,
        s.max as int,
        x,
    );
}

/// Only a write fault makes an extent dirty: a pass that only reads writes
/// nothing back.
pub proof fn law_only_promotion_dirties(s: SignalState, e: int)
    requires
        s.wf(),
        0 <= e < s.state.len(),
        s.state[e] != ST_DIRTY,
        s.went_through().state[e] == ST_DIRTY,
    ensures
        s.resolving matches Resolving::Promote { ext } && ext == e,
{
    if let Resolving::Close { ext, victim } = s.resolving {
        assert(s.order[0] < s.state.len());
    }
}

// ---- what has to be flushed ---------------------------------------------

/// The dirty extents among the first `n` are those of the first `n` that are
/// dirty.
proof fn lemma_dirty_of(order: Seq<usize>, state: Seq<u8>, n: int)
    requires
        0 <= n <= order.len(),
        order.no_duplicates(),
    ensures
        forall|e: usize| #[trigger]
            dirty_of(order, state, n).contains(e) <==> order.take(n).contains(e)
                && state[e as int] == ST_DIRTY,
        dirty_of(order, state, n).no_duplicates(),
    decreases n,
{
    let all = dirty_of(order, state, n);
    if n > 0 {
        lemma_dirty_of(order, state, n - 1);
        let less = dirty_of(order, state, n - 1);
        let before = order.take(n - 1);
        let x = order[n - 1];
        assert(order.take(n) =~= before.push(x));
        assert(!before.contains(x));
        assert(!less.contains(x));
        assert forall|e: usize| #[trigger] all.contains(e) <==> order.take(n).contains(e)
            && state[e as int] == ST_DIRTY by {
            assert(less.contains(e) <==> before.contains(e) && state[e as int] == ST_DIRTY);
            assert(order.take(n).contains(e) <==> before.contains(e) || e == x) by {
                if before.contains(e) {
                    let k = choose|k: int| 0 <= k < before.len() && before[k] == e;
                    assert(order.take(n)[k] == e);
                }
                assert(order.take(n)[n - 1] == x);
            }
            if state[x as int] == ST_DIRTY {
                assert(all == less.push(x));
                assert(all[less.len() as int] == x);
                if less.contains(e) {
                    let k = choose|k: int| 0 <= k < less.len() && less[k] == e;
                    assert(all[k] == e);
                }
            }
        }
    }
}

/// What has to be flushed is listed completely, and nothing else: an extent
/// is on the list exactly if it is dirty, and once.
pub proof fn law_flush_list_is_exact(s: SignalState)
    requires
        s.wf(),
    ensures
        ({
            let list = dirty_of(s.order, s.state, s.order.len() as int);
            &&& list.no_duplicates()
            &&& forall|e: usize| #[trigger]
                list.contains(e) <==> e < s.state.len() && s.state[e as int] == ST_DIRTY
        }),
{
    let n = s.order.len() as int;
    let list = dirty_of(s.order, s.state, n);
    lemma_dirty_of(s.order, s.state, n);
    assert(s.order.take(n) =~= s.order);
    assert forall|e: usize| #[trigger] list.contains(e) <==> e < s.state.len()
        && s.state[e as int] == ST_DIRTY by {
        if s.order.contains(e) {
            let k = choose|k: int| 0 <= k < s.order.len() && s.order[k] == e;
            assert(s.order[k] < s.state.len());
        }
        if e < s.state.len() {
            assert((s.state[e as int] != ST_ABSENT) == s.order.contains(e));
        }
    }
}

/// A flush that went through takes exactly its extent off the list.
pub proof fn law_a_flush_shortens_the_list(s: SignalState, e: usize)
    requires
        s.wf(),
        s.resolving is Reseal,
        s.went_through().wf(),
    ensures
        ({
            let t = s.went_through();
            dirty_of(t.order, t.state, t.order.len() as int).contains(e) <==> dirty_of(
                s.order,
                s.state,
                s.order.len() as int,
            ).contains(e) && e != s.resolving->Reseal_ext
        }),
{
    law_flush_list_is_exact(s);
    law_flush_list_is_exact(s.went_through());
}

// ---- which extents come and go ------------------------------------------

/// What a fault, a flush or nothing is about.
pub open spec fn aim(s: SignalState) -> Option<usize> {
    match s.resolving {
        Resolving::Nothing => None,
        Resolving::Promote { ext } => Some(ext),
        Resolving::WriteBack { ext, victim } => Some(ext),
        Resolving::Close { ext, victim } => Some(ext),
        Resolving::Open { ext } => Some(ext),
        Resolving::Load { ext } => Some(ext),
        Resolving::Seal { ext } => Some(ext),
        Resolving::Save { ext } => Some(ext),
        Resolving::Reseal { ext } => Some(ext),
    }
}

/// A fault is about the extent that holds its address.
pub proof fn law_a_fault_is_about_its_extent(s: SignalState, addr: int)
    requires
        s.wf(),
        s.resolving is Nothing,
        s.base <= addr < s.base + s.len,
    ensures
        0 <= s.extent_of(addr) < s.state.len(),
        s.base + s.extent_of(addr) * s.extent <= addr < s.base + s.extent_of(addr) * s.extent
            + s.extent,
        s.state[s.extent_of(addr)] != ST_DIRTY ==> aim(s.faulted(addr)) == Some(
            s.extent_of(addr) as usize,
        ),
        s.state[s.extent_of(addr)] == ST_CLEAN <==> s.faulted(addr).resolving is Promote,
        s.state[s.extent_of(addr)] == ST_DIRTY ==> s.faulted(addr) == s,
{
    let x = s.extent as int;
    let d = addr - s.base;
    let e = d / x;
    vstd::arithmetic::div_mod::lemma_fundamental_div_mod(d, x);
    vstd::arithmetic::div_mod::lemma_mod_bound(d, x);
    vstd::arithmetic::mul::lemma_mul_is_commutative(e, x);
    let n = s.state.len() as int;
    assert(0 <= e < n) by (nonlinear_arith)
        requires
            d == e * x + d % x,
            0 <= d % x < x,
            0 <= d < n * x,
    ;
    assert(n <= n * x) by (nonlinear_arith)
        requires
            0 <= n,
            0 < x,
    ;
}

/// A step of a fault stays with its extent until it is resolved. The last step
/// leaves the extent of an absent page clean, that of a clean one dirty; no
/// other extent comes in.
pub proof fn law_a_fault_is_resolved_where_it_happened(s: SignalState)
    requires
        s.wf(),
        !(s.resolving is Nothing),
        !(s.resolving is Save),
        !(s.resolving is Reseal),
    ensures
        ({
            let t = s.went_through();
            let e = aim(s)->0 as int;
            &&& t.resolving is Nothing || aim(t) == aim(s)
            &&& t.resolving is Nothing ==> t.state[e] == if s.state[e] == ST_CLEAN {
                ST_DIRTY
            } else {
                ST_CLEAN
            }
            &&& forall|k: int|
                0 <= k < s.state.len() && k != e ==> #[trigger] t.state[k] == s.state[k]
                    || t.state[k] == ST_ABSENT
        }),
{
    if s.resolving is Close {
        assert(s.order[0] < s.state.len());
    }
}

/// Extents leave in the order in which they came, one at a time, and only
/// when the budget is used up.
pub proof fn law_the_oldest_extent_leaves_first(s: SignalState)
    requires
        s.wf(),
        !(s.resolving is Nothing),
    ensures
        ({
            let t = s.went_through();
            &&& s.asks() matches Some(SignalAction::Close { ext }) ==> {
                &&& s.order == seq![ext] + t.order
                &&& t.state[ext as int] == ST_ABSENT
                &&& s.order.len() == s.max
            }
            &&& s.asks() matches Some(SignalAction::Seal { ext }) ==> !(s.resolving is Reseal)
                ==> {
                &&& t.order == s.order + seq![ext]
                &&& s.order.len() < s.max
            }
            &&& !(s.asks()->0 is Close) && !(s.asks()->0 is Seal) ==> t.order == s.order
        }),
{
    if s.resolving is Close {
        assert(s.order =~= seq![s.order[0]] + s.order.skip(1));
        assert(s.order[0] < s.state.len());
    }
    if s.resolving is Seal {
        assert(s.went_through().order =~= s.order + seq![s.resolving->Seal_ext]);
    }
}

/// Every counter counts what was done: loads, write faults, evictions and the
/// writebacks that evictions needed.
pub proof fn law_fault_counters_count_actions(s: SignalState)
    requires
        s.wf(),
        s.counters.load_faults < u64::MAX,
        s.counters.write_faults < u64::MAX,
        s.counters.evictions < u64::MAX,
        s.counters.writebacks < u64::MAX,
        !(s.resolving is Nothing),
    ensures
        ({
            let c = s.counters;
            let t = s.went_through();
            let d = t.counters;
            &&& d.load_faults - c.load_faults == t.order.len() - s.order.len() + (d.evictions
                - c.evictions)
            &&& d.evictions - c.evictions == if s.asks()->0 is Close {
                1int
            } else {
                0
            }
            &&& d.write_faults - c.write_faults == if s.resolving is Promote {
                1int
            } else {
                0
            }
            &&& d.writebacks - c.writebacks == if s.asks()->0 is WriteBack && !(
            s.resolving is Save) {
                1int
            } else {
                0
            }
            &&& d.failures == c.failures
            &&& d.peak_resident_extents >= t.order.len()
            &&& d.peak_resident_extents == c.peak_resident_extents || d.peak_resident_extents
                == t.order.len()
        }),
{
    let m = s.max as int;
    let x = s.extent as int;
    assert(m <= m * x) by (nonlinear_arith)
        requires
            0 <= m,
            0 < x,
    ;
}

/// Failures are counted, and the first one's particulars are kept, whatever
/// fails later.
pub proof fn law_the_first_failure_is_kept(
    c: SignalFaultCounters,
    errno: i32,
    addr: u64,
    later: i32,
    elsewhere: u64,
)
    requires
        c.failures < u64::MAX - 1,
        c.first_failure_errno == 0,
        c.first_failure_addr == 0,
        errno != 0,
        addr != 0,
    ensures
        c.failed(errno, addr).failed(later, elsewhere).failures == c.failures + 2,
        c.failed(errno, addr).failed(later, elsewhere).first_failure_errno == errno,
        c.failed(errno, addr).failed(later, elsewhere).first_failure_addr == addr,
{
}

/// An arena nothing was mapped in yet.
pub open spec fn untouched(base: nat, len: nat, extent: nat, budget: nat) -> SignalState {
    SignalState {
        base,
        len,
        extent,
        max: budget / extent,
        state: Seq::new(len / extent, |e: int| ST_ABSENT),
        order: Seq::empty(),
        counters: SignalFaultCounters::zero(),
        resolving: Resolving::Nothing,
    }
}

/// A new arena covers the bytes asked for with extents of the size asked for,
/// and may map as many of them at a time as the budget asked for holds: they
/// fit, and one more would not. Nothing is mapped.
pub proof fn law_a_new_arena_has_what_was_asked_for(
    base: nat,
    len: nat,
    extent: nat,
    budget: nat,
    page: int,
    region_len: int,
)
    requires
        0 < page,
        workable(len as int, extent as int, budget as int, page, region_len),
    ensures
        ({
            let s = untouched(base, len, extent, budget);
            &&& s.base == base
            &&& s.len == len
            &&& s.extent == extent
            &&& s.state.len() * extent == len
            &&& s.max * extent <= budget < s.max * extent + extent
            &&& s.max > 0
            &&& s.order.len() == 0
            &&& forall|e: int| 0 <= e < s.state.len() ==> #[trigger] s.state[e] == ST_ABSENT
            &&& s.asks() is None
        }),
{
    let x = extent as int;
    vstd::arithmetic::div_mod::lemma_fundamental_div_mod(len as int, x);
    vstd::arithmetic::div_mod::lemma_fundamental_div_mod(budget as int, x);
    vstd::arithmetic::div_mod::lemma_mod_bound(budget as int, x);
    vstd::arithmetic::mul::lemma_mul_is_commutative(len as int / x, x);
    vstd::arithmetic::mul::lemma_mul_is_commutative(budget as int / x, x);
}

/// A failure to read or write the arena is reported as an I/O error; any other
/// failed action as the kernel reported it.
pub proof fn law_arena_failures_are_io_errors(s: SignalState, errno: i32)
    ensures
        s.asks() matches Some(a) ==> s.errno_of(errno) == if a is Load || a is WriteBack {
            5i32
        } else {
            errno
        },
{
}

} // verus!
