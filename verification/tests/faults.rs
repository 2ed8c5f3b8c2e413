//! Transparent fault-in: geometry, residency, messages.

use loom::error::LoomError;
use loom::faultin::{
    classify, iowr, short_read_text, unresolved_text, Fault, FaultAction, FaultArena, FaultOptions,
    FaultStep, UFFDIO,
};
use loom::faultin_signal::{
    already_installed, chain, claims, Chain, Disposition, Place, SignalAction, SignalFaultArena,
    SignalFaultOptions, SignalStep,
};

const EXT: usize = 64 * 1024;

fn arena(extents: usize, budget: usize) -> FaultArena {
    FaultArena::new(
        (extents * EXT) as u64,
        &FaultOptions::new(extents * EXT, budget * EXT),
        4096,
    )
    .unwrap()
}

/// Resolve a fault on a missing page; what was asked for on the way.
fn touch(a: &mut FaultArena, ext: usize) -> Vec<FaultAction> {
    let mut asked = vec![a.missing(ext)];
    loop {
        match a.went_through() {
            FaultStep::Act(next) => asked.push(next),
            FaultStep::Resolved => return asked,
        }
    }
}

fn dirty(a: &mut FaultArena, ext: usize) {
    assert_eq!(a.write_protected(ext), FaultAction::Unprotect { ext });
    assert_eq!(a.went_through(), FaultStep::Resolved);
}

#[test]
fn rejects_geometry_that_cannot_work() {
    let e = FaultArena::new(
        (16 * EXT) as u64,
        &FaultOptions {
            len: 16 * EXT,
            extent: 64 * 1024,
            resident_budget: 1024,
        },
        4096,
    )
    .err()
    .expect("must refuse a budget below one extent");
    assert!(
        e.message().contains("smaller than one extent"),
        "{}",
        e.message()
    );
}

#[test]
fn every_refusal_of_a_geometry() {
    let refuse = |len: usize, extent: usize, budget: usize, region: u64| -> String {
        let o = FaultOptions {
            len,
            extent,
            resident_budget: budget,
        };
        let s = SignalFaultOptions {
            len,
            extent,
            resident_budget: budget,
        };
        let a = FaultArena::new(region, &o, 4096).err().unwrap().message();
        let b = SignalFaultArena::check(&s, 4096, region)
            .err()
            .unwrap()
            .message();
        let c = SignalFaultArena::new(4096, region, &s, 4096)
            .err()
            .unwrap()
            .message();
        assert_eq!(a, b);
        assert_eq!(a, c);
        a
    };
    assert_eq!(
        refuse(8192, 5000, 8192, 8192),
        "invalid argument: extent 5000 must be a non-zero multiple of the page size 4096"
    );
    assert_eq!(
        refuse(8192, 0, 8192, 8192),
        "invalid argument: extent 0 must be a non-zero multiple of the page size 4096"
    );
    assert_eq!(
        refuse(8193, 4096, 8192, 8192),
        "invalid argument: len 8193 must be a non-zero multiple of extent 4096"
    );
    assert_eq!(
        refuse(8192, 4096, 8192, 8191),
        "invalid argument: len 8192 exceeds region length 8191"
    );
    assert_eq!(
        refuse(8192, 4096, 4095, 8192),
        "invalid argument: resident budget 4095 is smaller than one extent (4096)"
    );
}

#[test]
fn reading_through_takes_no_writes_and_stays_bounded() {
    let mut a = arena(16, 4);
    for ext in 0..16 {
        touch(&mut a, ext);
        assert!(a.resident_bytes() <= a.budget_bytes());
    }
    let s = a.stats();
    assert_eq!(s.load_faults, 16);
    assert_eq!(s.evictions, 12);
    assert_eq!(s.writebacks, 0);
    assert_eq!(s.write_faults, 0);
    assert_eq!(s.resident_extents, 4);
    assert_eq!(s.peak_resident_bytes, 4 * EXT as u64);
    assert_eq!(s.load_latency.count(), 16);
    assert!(s.failures.is_empty());
    assert_eq!(a.len(), 16 * EXT);
    assert_eq!(a.extent(), EXT);
}

#[test]
fn the_oldest_extent_goes_first_written_back_if_dirty() {
    let mut a = arena(4, 2);
    assert_eq!(touch(&mut a, 0), vec![FaultAction::Fetch { ext: 0 }]);
    assert_eq!(touch(&mut a, 1), vec![FaultAction::Fetch { ext: 1 }]);
    dirty(&mut a, 0);
    assert_eq!(
        touch(&mut a, 2),
        vec![
            FaultAction::WriteBack { ext: 0 },
            FaultAction::Release { ext: 0 },
            FaultAction::Fetch { ext: 2 },
        ]
    );
    assert_eq!(
        touch(&mut a, 3),
        vec![
            FaultAction::Release { ext: 1 },
            FaultAction::Fetch { ext: 3 },
        ]
    );
    assert!(!a.is_mapped(0));
    assert!(a.is_mapped(3));
    let s = a.stats();
    assert_eq!((s.evictions, s.writebacks, s.write_faults), (2, 1, 1));
}

#[test]
fn a_failed_action_leaves_what_was_done() {
    let mut a = arena(4, 1);
    touch(&mut a, 0);
    dirty(&mut a, 0);
    assert_eq!(a.missing(1), FaultAction::WriteBack { ext: 0 });
    a.gave_up();
    assert!(a.is_mapped(0));
    assert_eq!(a.dirty_extents(), vec![0]);
    a.record_failure(unresolved_text(
        0x10,
        1,
        &LoomError::Invalid(String::from("why")),
    ));
    assert_eq!(
        a.stats().failures,
        vec!["unresolved fault at 0x10 (extent 1): invalid argument: why"]
    );
    // A failed flush leaves the extent dirty, a flush that went through clean.
    assert_eq!(a.flush(0), FaultAction::Protect { ext: 0 });
    assert_eq!(
        a.went_through(),
        FaultStep::Act(FaultAction::WriteBack { ext: 0 })
    );
    a.gave_up();
    assert_eq!(a.dirty_extents(), vec![0]);
    assert_eq!(a.flush(0), FaultAction::Protect { ext: 0 });
    a.went_through();
    assert_eq!(a.went_through(), FaultStep::Resolved);
    assert!(a.dirty_extents().is_empty());
    assert_eq!(a.stats().writebacks, 0);
    // A write after the flush is noticed again.
    dirty(&mut a, 0);
    assert_eq!(a.dirty_extents(), vec![0]);
    a.flush(0);
    a.went_through();
    a.went_through();
    assert_eq!(a.missing(1), FaultAction::Release { ext: 0 });
}

#[test]
fn a_write_fault_may_be_older_than_an_eviction() {
    let mut a = arena(4, 1);
    touch(&mut a, 0);
    touch(&mut a, 1);
    assert!(!a.is_mapped(0));
    // The fault on extent 0 was queued before it was evicted: the fault
    // counts, there is nothing to flush, and the retried access misses and
    // finds the extent clean.
    dirty(&mut a, 0);
    assert!(a.dirty_extents().is_empty());
    assert_eq!(a.stats().write_faults, 1);
    touch(&mut a, 0);
    assert!(a.is_mapped(0));
    assert!(a.dirty_extents().is_empty());
    assert_eq!(a.missing(1), FaultAction::Release { ext: 0 });
    assert_eq!(a.stats().writebacks, 0);
}

#[test]
fn messages_are_told_apart() {
    let c = |event: u8, flags: u64, address: u64| classify(event, flags, address, 0x1000, 0x3000, 0x1000);
    assert!(matches!(c(0x12, 0, 0x1000), Fault::Missing { ext: 0 }));
    assert!(matches!(c(0x12, 1, 0x3fff), Fault::Missing { ext: 2 }));
    assert!(matches!(
        c(0x12, 3, 0x2000),
        Fault::WriteProtected { ext: 1 }
    ));
    match c(0x12, 0, 0x4000) {
        Fault::Unresolvable(t) => assert_eq!(t, "fault at 0x4000 outside arena"),
        other => panic!("{other:?}"),
    }
    match c(0x13, 0, 0x1000) {
        Fault::Unresolvable(t) => assert_eq!(t, "unexpected uffd event 0x13"),
        other => panic!("{other:?}"),
    }
    assert_eq!(short_read_text(7), "short read from uffd: 7 bytes");
}

#[test]
fn request_numbers_match_the_kernel() {
    // UFFDIO_API, UFFDIO_REGISTER, UFFDIO_COPY, UFFDIO_WRITEPROTECT.
    assert_eq!(iowr(UFFDIO, 0x3F, 24), 0xC018_AA3F);
    assert_eq!(iowr(UFFDIO, 0x00, 32), 0xC020_AA00);
    assert_eq!(iowr(UFFDIO, 0x03, 40), 0xC028_AA03);
    assert_eq!(iowr(UFFDIO, 0x06, 24), 0xC018_AA06);
}

// ---- the signal backend -----------------------------------------------------

const BASE: usize = 0x10_0000;

fn signal(extents: usize, budget: usize) -> SignalFaultArena {
    SignalFaultArena::new(
        BASE,
        (extents * EXT) as u64,
        &SignalFaultOptions::new(extents * EXT, budget * EXT),
        4096,
    )
    .unwrap()
}

fn fault(a: &mut SignalFaultArena, ext: usize) -> Vec<SignalAction> {
    let mut asked = Vec::new();
    let mut s = a.resolve(BASE + ext * EXT + 17);
    loop {
        match s {
            SignalStep::Act(act) => asked.push(act),
            SignalStep::Resolved => return asked,
            SignalStep::Failed(e) => panic!("errno {e}"),
        }
        s = a.went_through();
    }
}

#[test]
fn a_read_then_a_write_then_an_eviction() {
    let mut a = signal(4, 2);
    assert_eq!(
        fault(&mut a, 1),
        vec![
            SignalAction::Open { ext: 1 },
            SignalAction::Load { ext: 1 },
            SignalAction::Seal { ext: 1 },
        ]
    );
    // Present and readable, so the next fault is a write.
    assert_eq!(fault(&mut a, 1), vec![SignalAction::Open { ext: 1 }]);
    // Already writable: not the arena's to explain.
    assert_eq!(a.resolve(BASE + EXT), SignalStep::Failed(13));
    fault(&mut a, 2);
    assert_eq!(
        fault(&mut a, 3),
        vec![
            SignalAction::WriteBack { ext: 1 },
            SignalAction::Close { ext: 1 },
            SignalAction::Open { ext: 3 },
            SignalAction::Load { ext: 3 },
            SignalAction::Seal { ext: 3 },
        ]
    );
    let s = a.stats();
    assert_eq!((s.load_faults, s.write_faults), (3, 1));
    assert_eq!((s.evictions, s.writebacks), (1, 1));
    assert_eq!((s.resident_extents, s.peak_resident_extents), (2, 2));
    assert_eq!(s.failures, 0);
}

#[test]
fn the_ring_wraps_around() {
    let mut a = signal(10, 3);
    for round in 0..3 {
        for ext in 0..10 {
            fault(&mut a, ext);
            let s = a.stats();
            assert!(s.peak_resident_extents * a.extent() <= a.budget_bytes());
            assert_eq!(s.load_faults, round * 10 + ext as u64 + 1);
        }
    }
    assert_eq!(a.stats().evictions, 27);
    assert_eq!(a.stats().writebacks, 0);
    // Everything but the last three is absent again.
    for ext in [7, 8, 9] {
        assert_eq!(fault(&mut a, ext), vec![SignalAction::Open { ext }]);
    }
    assert_eq!(a.dirty_extents(), vec![7, 8, 9]);
    assert_eq!(a.flush(8), SignalAction::WriteBack { ext: 8 });
    assert_eq!(
        a.went_through(),
        SignalStep::Act(SignalAction::Seal { ext: 8 })
    );
    assert_eq!(a.went_through(), SignalStep::Resolved);
    assert_eq!(a.dirty_extents(), vec![7, 9]);
    assert_eq!(a.stats().writebacks, 0);
    // A write after the flush is noticed again.
    assert_eq!(fault(&mut a, 8), vec![SignalAction::Open { ext: 8 }]);
    assert_eq!(a.flush(9), SignalAction::WriteBack { ext: 9 });
    assert_eq!(a.gave_up(0), 5);
    assert_eq!(a.dirty_extents(), vec![7, 8, 9]);
}

#[test]
fn a_failure_is_recorded_once() {
    let mut a = signal(4, 1);
    fault(&mut a, 0);
    fault(&mut a, 0);
    assert_eq!(
        a.resolve(BASE + EXT),
        SignalStep::Act(SignalAction::WriteBack { ext: 0 })
    );
    // A failed write of the arena has an error number of its own.
    assert_eq!(a.gave_up(99), 5);
    a.record_failure(5, 0x77);
    assert_eq!(
        a.resolve(BASE + EXT),
        SignalStep::Act(SignalAction::WriteBack { ext: 0 })
    );
    assert_eq!(
        a.went_through(),
        SignalStep::Act(SignalAction::Close { ext: 0 })
    );
    assert_eq!(a.gave_up(12), 12);
    a.record_failure(12, 0x88);
    let s = a.stats();
    assert_eq!(s.failures, 2);
    assert_eq!(s.first_failure_errno, 5);
    assert_eq!(s.first_failure_addr, 0x77);
    assert_eq!(a.base(), BASE);
    assert_eq!(a.len(), 4 * EXT);
}

#[test]
fn faults_outside_the_range_are_passed_on() {
    assert!(claims(0x1000, 0x2000, 0x1000));
    assert!(claims(0x1000, 0x2000, 0x1fff));
    assert!(!claims(0x1000, 0x2000, 0x2000));
    assert!(!claims(0x1000, 0x2000, 0xfff));
    assert!(!claims(0, 0x2000, 0x1000));
    assert_eq!(chain(None), Chain::Die);
    assert_eq!(chain(Some(Disposition::Default)), Chain::Die);
    assert_eq!(chain(Some(Disposition::Ignored)), Chain::Die);
    assert_eq!(chain(Some(Disposition::Informed)), Chain::CallInformed);
    assert_eq!(chain(Some(Disposition::Plain)), Chain::CallPlain);
    assert!(already_installed().message().contains("already installed"));
}

#[test]
fn one_arena_at_a_time() {
    let mut place = Place { installed: false };
    let opts = |extents: usize| SignalFaultOptions::new(extents * EXT, EXT);
    let len = (4 * EXT) as u64;
    assert!(matches!(
        place.install(&opts(5), 4096, len),
        Err(LoomError::Invalid(_))
    ));
    assert!(!place.installed);
    place.install(&opts(4), 4096, len).unwrap();
    match place.install(&opts(4), 4096, len) {
        Err(LoomError::Unsupported(t)) => assert!(t.contains("already installed")),
        other => panic!("{other:?}"),
    }
    assert!(matches!(
        place.install(&opts(0), 4096, len),
        Err(LoomError::Invalid(_))
    ));
    assert!(place.installed);
    place.vacate();
    place.install(&opts(4), 4096, len).unwrap();
    let a = SignalFaultArena::new(0x10000, len, &opts(4), 4096).unwrap();
    let s = a.stats();
    assert_eq!((s.load_faults, s.write_faults, s.failures), (0, 0, 0));
}

// ---- what the program sees ----------------------------------------------------

/// A mapping and a pool of one number per extent.
struct Machine {
    mapping: Vec<u64>,
    present: Vec<bool>,
    writable: Vec<bool>,
    pool: Vec<u64>,
}

impl Machine {
    fn new(n: usize) -> Machine {
        Machine {
            mapping: vec![0xDEAD; n],
            present: vec![false; n],
            writable: vec![false; n],
            pool: (0..n as u64).collect(),
        }
    }
}

/// A small deterministic stream.
fn next(x: &mut u64) -> usize {
    *x ^= *x >> 12;
    *x ^= *x << 25;
    *x ^= *x >> 27;
    (x.wrapping_mul(0x2545_F491_4F6C_DD1D) >> 33) as usize
}

#[test]
fn a_pointer_sees_what_was_written_through_it() {
    let n = 12;
    let mut a = arena(n, 5);
    let mut m = Machine::new(n);
    let mut model: Vec<u64> = m.pool.clone();
    let settle = |a: &mut FaultArena, m: &mut Machine, first: FaultAction| {
        let mut action = first;
        loop {
            match action {
                FaultAction::WriteBack { ext } => m.pool[ext] = m.mapping[ext],
                FaultAction::Release { ext } => {
                    m.mapping[ext] = 0xDEAD;
                    m.present[ext] = false;
                    m.writable[ext] = false;
                }
                FaultAction::Fetch { ext } => {
                    m.mapping[ext] = m.pool[ext];
                    m.present[ext] = true;
                    m.writable[ext] = false;
                }
                FaultAction::Unprotect { ext } => m.writable[ext] = true,
                FaultAction::Protect { ext } => m.writable[ext] = false,
            }
            match a.went_through() {
                FaultStep::Act(b) => action = b,
                FaultStep::Resolved => break,
            }
        }
    };
    let mut x = 88172645463325252u64;
    for round in 0..5000u64 {
        let ext = next(&mut x) % n;
        if !m.present[ext] {
            let first = a.missing(ext);
            settle(&mut a, &mut m, first);
        }
        assert_eq!(m.mapping[ext], model[ext]);
        if next(&mut x) % 3 == 0 {
            if !m.writable[ext] {
                let first = a.write_protected(ext);
                settle(&mut a, &mut m, first);
            }
            m.mapping[ext] = round;
            model[ext] = round;
        }
        if round % 97 == 0 {
            for ext in a.dirty_extents() {
                let first = a.flush(ext);
                settle(&mut a, &mut m, first);
            }
            assert_eq!(m.pool, model);
        }
        assert!(a.resident_bytes() <= a.budget_bytes());
    }
    assert!(a.stats().writebacks > 0);
}

#[test]
fn a_signal_backed_pointer_sees_what_was_written_through_it() {
    let n = 12;
    let mut a = signal(n, 5);
    let mut m = Machine::new(n);
    let mut model: Vec<u64> = m.pool.clone();
    let settle = |a: &mut SignalFaultArena, m: &mut Machine, first: SignalStep| {
        let mut step = first;
        loop {
            match step {
                SignalStep::Act(SignalAction::Open { ext }) => {
                    m.present[ext] = true;
                    m.writable[ext] = true;
                }
                SignalStep::Act(SignalAction::WriteBack { ext }) => m.pool[ext] = m.mapping[ext],
                SignalStep::Act(SignalAction::Close { ext }) => {
                    m.mapping[ext] = 0xDEAD;
                    m.present[ext] = false;
                    m.writable[ext] = false;
                }
                SignalStep::Act(SignalAction::Load { ext }) => m.mapping[ext] = m.pool[ext],
                SignalStep::Act(SignalAction::Seal { ext }) => m.writable[ext] = false,
                SignalStep::Resolved => break,
                SignalStep::Failed(e) => panic!("errno {e}"),
            }
            step = a.went_through();
        }
    };
    let mut x = 1181783497276652981u64;
    for round in 0..5000u64 {
        let ext = next(&mut x) % n;
        if !m.present[ext] {
            let first = a.resolve(BASE + ext * EXT);
            settle(&mut a, &mut m, first);
        }
        assert_eq!(m.mapping[ext], model[ext]);
        if next(&mut x) % 3 == 0 {
            if !m.writable[ext] {
                let first = a.resolve(BASE + ext * EXT + 5);
                settle(&mut a, &mut m, first);
            }
            m.mapping[ext] = round;
            model[ext] = round;
        }
        if round % 97 == 0 {
            for ext in a.dirty_extents() {
                let first = SignalStep::Act(a.flush(ext));
                settle(&mut a, &mut m, first);
            }
            assert_eq!(m.pool, model);
        }
    }
    assert!(a.stats().writebacks > 0);
}
