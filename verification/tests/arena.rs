//! The arena, driven against a file in memory.

use loom::arena::{CreateOptions, Located, Loom, OpenOptions, Region};
use loom::error::LoomError;
use loom::io::{Action, Reply, Step};
use loom::opening::{OpenStep, Opening};
use loom::pattern;
use loom::superblock::{MAX_REGIONS, REGION_TABLE_OFF};

const BS: u32 = 4096 * 4; // 16 KiB blocks keep tests fast

/// A file in memory, and what was asked of it.
struct Disk {
    bytes: Vec<u8>,
    reads: u64,
    writes: u64,
    syncs: u64,
    /// Fail the next action.
    fail: bool,
}

impl Disk {
    fn empty() -> Disk {
        Disk {
            bytes: Vec::new(),
            reads: 0,
            writes: 0,
            syncs: 0,
            fail: false,
        }
    }

    fn perform(&mut self, a: Action) -> Result<Option<Vec<u8>>, LoomError> {
        if self.fail {
            self.fail = false;
            return Err(LoomError::Unsupported(String::from("device gone")));
        }
        match a {
            Action::Read { offset, len } => {
                self.reads += 1;
                let at = offset as usize;
                Ok(Some(self.bytes[at..at + len].to_vec()))
            }
            Action::Write { offset, data } => {
                self.writes += 1;
                let at = offset as usize;
                self.bytes[at..at + data.len()].copy_from_slice(&data);
                Ok(None)
            }
            Action::SetLen { len } => {
                self.bytes.resize(len as usize, 0);
                Ok(None)
            }
            Action::Sync => {
                self.syncs += 1;
                Ok(None)
            }
        }
    }
}

/// An arena and its file.
struct Pool {
    loom: Loom,
    disk: Disk,
}

fn open_disk(mut disk: Disk, opts: OpenOptions) -> Result<Pool, LoomError> {
    let (mut opening, mut action): (Opening, Action) = Loom::open(opts);
    loop {
        let bytes = disk.perform(action)?.unwrap();
        assert!(opening.fits());
        let len = disk.bytes.len() as u64;
        match opening.resume(&bytes, len) {
            OpenStep::Io(o, a) => {
                opening = o;
                action = a;
            }
            OpenStep::Ready(loom) => return Ok(Pool { loom, disk }),
            OpenStep::Failed(e) => return Err(e),
        }
    }
}

fn create_with(cap: u64, bs: u32, budget: u64, open: OpenOptions) -> Result<Pool, LoomError> {
    let plan = Loom::create(&CreateOptions {
        capacity: cap,
        block_size: bs,
        budget,
    })?;
    let mut disk = Disk::empty();
    for a in plan {
        disk.perform(a)?;
    }
    open_disk(disk, open)
}

fn create(cap: u64, budget: u64) -> Pool {
    create_with(cap, BS, budget, OpenOptions::default()).unwrap()
}

impl Pool {
    fn read(&mut self, r: Region, off: u64, buf: &mut [u8]) -> Result<(), LoomError> {
        let mut s = self.loom.read(r, off, buf);
        loop {
            match s {
                Step::Ready(()) => return Ok(()),
                Step::Failed(e) => return Err(e),
                Step::Io(a) => {
                    s = match self.disk.perform(a) {
                        Ok(Some(v)) => self.loom.resume_read(buf, Reply::Bytes(&v)),
                        Ok(None) => self.loom.resume_read(buf, Reply::Done),
                        Err(e) => self.loom.resume_read(buf, Reply::Failed(e)),
                    }
                }
            }
        }
    }

    fn write(&mut self, r: Region, off: u64, data: &[u8]) -> Result<(), LoomError> {
        let mut s = self.loom.write(r, off, data);
        loop {
            match s {
                Step::Ready(()) => return Ok(()),
                Step::Failed(e) => return Err(e),
                Step::Io(a) => {
                    s = match self.disk.perform(a) {
                        Ok(Some(v)) => self.loom.resume_write(data, Reply::Bytes(&v)),
                        Ok(None) => self.loom.resume_write(data, Reply::Done),
                        Err(e) => self.loom.resume_write(data, Reply::Failed(e)),
                    }
                }
            }
        }
    }

    fn locate(&mut self, r: Region, off: u64, max: usize) -> Result<Located, LoomError> {
        let mut s = self.loom.locate(r, off, max);
        loop {
            match s {
                Step::Ready(at) => return Ok(at),
                Step::Failed(e) => return Err(e),
                Step::Io(a) => {
                    s = match self.disk.perform(a) {
                        Ok(Some(v)) => self.loom.resume_locate(Reply::Bytes(&v)),
                        Ok(None) => self.loom.resume_locate(Reply::Done),
                        Err(e) => self.loom.resume_locate(Reply::Failed(e)),
                    }
                }
            }
        }
    }

    fn sync(&mut self) -> Result<(), LoomError> {
        let mut a = self.loom.sync();
        loop {
            let s = match self.disk.perform(a) {
                Ok(_) => self.loom.resume_sync(Reply::Done),
                Err(e) => self.loom.resume_sync(Reply::Failed(e)),
            };
            match s {
                Step::Ready(()) => return Ok(()),
                Step::Failed(e) => return Err(e),
                Step::Io(next) => a = next,
            }
        }
    }

    fn evict_all(&mut self) -> Result<(), LoomError> {
        let mut s = self.loom.evict_all();
        loop {
            match s {
                Step::Ready(()) => return Ok(()),
                Step::Failed(e) => return Err(e),
                Step::Io(a) => {
                    s = match self.disk.perform(a) {
                        Ok(_) => self.loom.resume_evict_all(Reply::Done),
                        Err(e) => self.loom.resume_evict_all(Reply::Failed(e)),
                    }
                }
            }
        }
    }

    fn close(mut self) -> Disk {
        self.sync().unwrap();
        self.disk
    }
}

#[test]
fn write_read_roundtrip_with_eviction_under_budget() {
    // 64 blocks arena, 4 frames budget: everything must cycle through disk.
    let mut l = create(64 * BS as u64, 4 * BS as u64);
    let r = l.loom.allocate(60 * BS as u64 + 100).unwrap();
    let mut buf = vec![0u8; BS as usize];
    for b in 0..60u64 {
        pattern::fill(1, b'A', b, &mut buf);
        l.write(r, b * BS as u64, &buf).unwrap();
    }
    assert!(l.loom.resident_blocks() <= 4);
    assert!(l.loom.stats().evictions >= 56);
    l.evict_all().unwrap();
    assert_eq!(l.loom.resident_blocks(), 0);
    l.loom.debug_scribble_free_frames(0xEE);
    let mut got = vec![0u8; BS as usize];
    for b in 0..60u64 {
        pattern::fill(1, b'A', b, &mut buf);
        l.read(r, b * BS as u64, &mut got).unwrap();
        assert_eq!(pattern::first_mismatch(&buf, &got), None, "block {b}");
    }
    // Tail 100 bytes never written -> zeros.
    let mut tail = vec![1u8; 100];
    l.read(r, 60 * BS as u64, &mut tail).unwrap();
    assert!(tail.iter().all(|&x| x == 0));
    l.close();
}

#[test]
fn unaligned_writes_span_blocks_and_persist_across_reopen() {
    let data: Vec<u8> = (0..(3 * BS as usize + 777)).map(|i| (i * 7) as u8).collect();
    let disk = {
        let mut l = create(16 * BS as u64, 2 * BS as u64);
        let r = l.loom.allocate(10 * BS as u64).unwrap();
        l.write(r, BS as u64 / 2 + 13, &data).unwrap();
        l.close()
    };
    let mut l = open_disk(
        disk,
        OpenOptions {
            budget: Some(BS as u64),
            prefetch_depth: None,
        },
    )
    .unwrap();
    let regs = l.loom.regions();
    assert_eq!(regs.len(), 1);
    let r = regs[0];
    let mut got = vec![0u8; data.len()];
    l.read(r, BS as u64 / 2 + 13, &mut got).unwrap();
    assert_eq!(pattern::first_mismatch(&data, &got), None);
    // Byte just before the write is still zero.
    let mut one = [9u8; 1];
    l.read(r, BS as u64 / 2 + 12, &mut one).unwrap();
    assert_eq!(one[0], 0);
    l.close();
}

#[test]
fn corruption_is_detected_and_restoring_clears_it() {
    let (mut disk, r, off) = {
        let mut l = create(8 * BS as u64, 2 * BS as u64);
        let r = l.loom.allocate(4 * BS as u64).unwrap();
        let buf = vec![0x5Au8; BS as usize];
        l.write(r, 2 * BS as u64, &buf).unwrap();
        let block = l.loom.block_of_region_offset(r, 2 * BS as u64);
        let off = l.loom.backing_offset_of_block(block);
        (l.close(), r, off as usize)
    };
    // Flip one byte on disk at unchanged size.
    assert_eq!(disk.bytes[off + 100], 0x5A);
    disk.bytes[off + 100] = 0x5B;
    let mut disk = {
        let mut l = open_disk(disk, OpenOptions::default()).unwrap();
        let mut got = vec![0u8; BS as usize];
        let e = l
            .read(r, 2 * BS as u64, &mut got)
            .expect_err("must detect");
        match e {
            LoomError::Corrupt { block, .. } => assert_eq!(block, 2),
            other => panic!("wrong error: {other:?}"),
        }
        // Other blocks still readable.
        l.read(r, 0, &mut got).unwrap();
        assert!(got.iter().all(|&x| x == 0));
        l.close()
    };
    // Restore the byte: the false-positive check.
    disk.bytes[off + 100] = 0x5A;
    let mut l = open_disk(disk, OpenOptions::default()).unwrap();
    let mut got = vec![0u8; BS as usize];
    l.read(r, 2 * BS as u64, &mut got).unwrap();
    assert!(got.iter().all(|&x| x == 0x5A));
    l.close();
}

#[test]
fn bounds_and_capacity_errors() {
    let mut l = create(4 * BS as u64, BS as u64);
    let r = l.loom.allocate(2 * BS as u64).unwrap();
    let mut b = [0u8; 8];
    assert!(matches!(
        l.read(r, 2 * BS as u64 - 4, &mut b),
        Err(LoomError::OutOfBounds { .. })
    ));
    assert!(matches!(
        l.loom.allocate(3 * BS as u64),
        Err(LoomError::Capacity { .. })
    ));
    let r2 = l.loom.allocate(2 * BS as u64).unwrap();
    assert_eq!(r2.offset, 2 * BS as u64);
    assert!(matches!(
        l.loom.allocate(1),
        Err(LoomError::Capacity { .. })
    ));
    l.close();
}

#[test]
fn hot_bytes_never_exceed_budget() {
    let l = create(1024 * BS as u64, 7 * BS as u64 + 123);
    assert_eq!(l.loom.frame_count(), 7);
    let info = l.loom.info(String::from("pool"), "memory", 0);
    assert_eq!(info.hot_bytes_allocated, 7 * BS as u64);
    assert_eq!(info.budget, 7 * BS as u64 + 123);
    assert_eq!(info.nblocks, 1024);
    assert_eq!(info.cache_mode, "memory");
}

#[test]
fn zero_copy_agrees_with_copying_read_and_persists() {
    let expect: Vec<u8> = (0..BS as usize).map(|i| (i * 31 % 251) as u8).collect();
    let disk = {
        let mut l = create(32 * BS as u64, 4 * BS as u64);
        let r = l.loom.allocate(16 * BS as u64).unwrap();
        // Write via the zero-copy path.
        let at = l.locate(r, 5 * BS as u64, BS as usize).unwrap();
        let dst = l.loom.with_slice_mut(at);
        dst.copy_from_slice(&expect);
        assert_eq!(dst.len(), BS as usize, "whole block should be contiguous");
        // Force it out of RAM entirely, then read it back both ways.
        l.evict_all().unwrap();
        l.loom.debug_scribble_free_frames(0x77);
        let mut copied = vec![0u8; BS as usize];
        l.read(r, 5 * BS as u64, &mut copied).unwrap();
        assert_eq!(pattern::first_mismatch(&expect, &copied), None);
        l.evict_all().unwrap();
        l.loom.debug_scribble_free_frames(0x88);
        let at = l.locate(r, 5 * BS as u64, BS as usize).unwrap();
        let borrowed = l.loom.with_slice(at).to_vec();
        assert_eq!(pattern::first_mismatch(&expect, &borrowed), None);
        assert!(l.loom.stats().zero_copy >= 2);
        l.close()
    };
    // And across a reopen, so the dirty flag really was set.
    let mut l = open_disk(disk, OpenOptions::default()).unwrap();
    let r = l.loom.regions()[0];
    let at = l.locate(r, 5 * BS as u64, BS as usize).unwrap();
    let got = l.loom.with_slice(at).to_vec();
    assert_eq!(pattern::first_mismatch(&expect, &got), None);
    l.close();
}

#[test]
fn zero_copy_stops_at_the_block_boundary() {
    let mut l = create(8 * BS as u64, 2 * BS as u64);
    let r = l.loom.allocate(4 * BS as u64).unwrap();
    // Ask for two blocks' worth starting 100 bytes in; must be clamped.
    let at = l.locate(r, 100, 2 * BS as usize).unwrap();
    let got = l.loom.with_slice(at).len();
    assert_eq!(got, BS as usize - 100);
    l.close();
}

/// The dangerous case. A dirty frame is the ONLY copy of those bytes; a
/// speculative read that overwrote it would destroy data silently.
#[test]
fn prefetch_never_clobbers_a_dirty_frame() {
    let precious = vec![0xABu8; BS as usize];
    let mut l = create(256 * BS as u64, 32 * BS as u64);
    let r = l.loom.allocate(200 * BS as u64).unwrap();
    // Lay down a pattern everywhere so reads have something to verify.
    let mut scratch = vec![0u8; BS as usize];
    for b in 0..200u64 {
        pattern::fill(9, b'P', b, &mut scratch);
        l.write(r, b * BS as u64, &scratch).unwrap();
    }
    l.sync().unwrap();
    l.evict_all().unwrap();

    // Dirty exactly one block, in the middle of what we are about to scan.
    l.write(r, 60 * BS as u64, &precious).unwrap();
    assert_eq!(l.loom.dirty_blocks(), 1);

    // Now scan sequentially straight through it. This is the pattern that
    // triggers prefetch batches covering block 60.
    for b in 50..80u64 {
        pattern::fill(9, b'P', b, &mut scratch);
        let mut got = vec![0u8; BS as usize];
        l.read(r, b * BS as u64, &mut got).unwrap();
        if b == 60 {
            // Still the dirty bytes, NOT what is on disk.
            assert_eq!(
                pattern::first_mismatch(&precious, &got),
                None,
                "prefetch clobbered a dirty frame: block 60 lost its unflushed bytes"
            );
        } else {
            assert_eq!(pattern::first_mismatch(&scratch, &got), None, "block {b}");
        }
    }
    assert!(
        l.loom.stats().prefetch_batches > 0,
        "sequential scan should have triggered prefetch"
    );
    // And the dirty bytes survive a real round trip.
    l.sync().unwrap();
    l.evict_all().unwrap();
    let mut got = vec![0u8; BS as usize];
    l.read(r, 60 * BS as u64, &mut got).unwrap();
    assert_eq!(pattern::first_mismatch(&precious, &got), None);
    l.close();
}

/// Prefetch must cut the number of device round-trips on a sequential scan,
/// and must be switchable off so the claim is measurable.
#[test]
fn prefetch_cuts_device_round_trips_and_can_be_disabled() {
    let disk = {
        let mut l = create(512 * BS as u64, 64 * BS as u64);
        let r = l.loom.allocate(400 * BS as u64).unwrap();
        let mut scratch = vec![0u8; BS as usize];
        for b in 0..400u64 {
            pattern::fill(3, b'Q', b, &mut scratch);
            l.write(r, b * BS as u64, &scratch).unwrap();
        }
        l.close()
    };
    let scan = |disk: Disk, depth: Option<usize>| -> (Disk, u64, u64, u64) {
        let mut l = open_disk(
            disk,
            OpenOptions {
                budget: Some(64 * BS as u64),
                prefetch_depth: depth,
            },
        )
        .unwrap();
        let r = l.loom.regions()[0];
        let mut scratch = vec![0u8; BS as usize];
        let mut got = vec![0u8; BS as usize];
        for b in 0..400u64 {
            pattern::fill(3, b'Q', b, &mut scratch);
            l.read(r, b * BS as u64, &mut got).unwrap();
            assert_eq!(pattern::first_mismatch(&scratch, &got), None, "block {b}");
        }
        let st = l.loom.stats().clone();
        let disk = l.close();
        (
            disk,
            st.prefetch_batches,
            st.prefetch_blocks,
            st.prefetch_used,
        )
    };

    let (disk, off_batches, _, _) = scan(disk, Some(0));
    assert_eq!(off_batches, 0, "prefetch_depth 0 must issue no batches");

    let (_, batches, blocks, used) = scan(disk, None);
    assert!(
        batches > 0,
        "default prefetch should batch a sequential scan"
    );
    assert!(blocks > 0);
    // A pure forward scan is the best case: almost every speculative block
    // should be asked for. Assert most, not all — the first two blocks
    // precede run detection and the tail is clamped.
    assert!(
        used * 10 >= blocks * 8,
        "prefetch was mostly wasted: {used} of {blocks} used"
    );
    // 400 blocks in `batches` reads is the whole point.
    assert!(
        batches < 200,
        "expected far fewer batches than blocks, got {batches}"
    );
}

/// A speculative read must not report corruption the caller never asked
/// about — but the moment they DO ask, it must be reported.
#[test]
fn prefetch_defers_corruption_until_the_block_is_asked_for() {
    let bad_block;
    let mut disk;
    {
        let mut l = create(128 * BS as u64, 16 * BS as u64);
        let r = l.loom.allocate(100 * BS as u64).unwrap();
        let mut scratch = vec![0u8; BS as usize];
        for b in 0..100u64 {
            pattern::fill(5, b'R', b, &mut scratch);
            l.write(r, b * BS as u64, &scratch).unwrap();
        }
        bad_block = l.loom.block_of_region_offset(r, 40 * BS as u64);
        let off = l.loom.backing_offset_of_block(bad_block) as usize;
        disk = l.close();
        assert_ne!(disk.bytes[off + 77], 0xFF);
        disk.bytes[off + 77] = 0xFF;
    }
    let mut l = open_disk(disk, OpenOptions::default()).unwrap();
    let r = l.loom.regions()[0];
    let mut got = vec![0u8; BS as usize];
    // Scan up to (not into) the bad block — prefetch will have spanned it,
    // and must not have failed the run.
    for b in 30..40u64 {
        l.read(r, b * BS as u64, &mut got).unwrap();
    }
    // Now ask for it directly. Now it must be reported.
    match l.read(r, 40 * BS as u64, &mut got) {
        Err(LoomError::Corrupt { block, .. }) => assert_eq!(block, bad_block),
        other => panic!("corruption not reported when asked for: {other:?}"),
    }
    l.close();
}

#[test]
fn refused_reads_and_writes_change_nothing() {
    let mut l = create(4 * BS as u64, BS as u64);
    let r = l.loom.allocate(100).unwrap();
    let stranger = Region {
        id: 7,
        offset: 0,
        len: 100,
    };
    let mut buf = [3u8; 4];
    match l.read(stranger, 0, &mut buf) {
        Err(LoomError::OutOfBounds {
            region,
            offset,
            len,
            region_len,
        }) => assert_eq!((region, offset, len, region_len), (7, 0, 4, 100)),
        other => panic!("{other:?}"),
    }
    assert_eq!(buf, [3u8; 4]);
    assert!(l.write(r, 98, &buf).is_err());
    assert!(l.write(r, u64::MAX, &buf).is_err());
    assert_eq!(l.loom.resident_blocks(), 0);
    // An access of nothing is always granted inside the region.
    l.read(r, 100, &mut []).unwrap();
    assert!(l.locate(r, 0, 0).is_err());
    assert!(l.locate(r, 100, 1).is_err());
}

#[test]
fn allocation_refusals_name_their_reason() {
    let mut l = create(4 * BS as u64, BS as u64);
    match l.loom.allocate(0) {
        Err(LoomError::Invalid(t)) => assert_eq!(t, "alloc of zero bytes"),
        other => panic!("{other:?}"),
    }
    let r = l.loom.allocate(1).unwrap();
    assert_eq!((r.id, r.offset, r.len), (0, 0, 1));
    match l.loom.allocate(4 * BS as u64) {
        Err(LoomError::Capacity {
            requested,
            available,
        }) => {
            assert_eq!(requested, 4 * BS as u64);
            assert_eq!(available, 3 * BS as u64);
        }
        other => panic!("{other:?}"),
    }
    for len in [u64::MAX - BS as u64 + 1, u64::MAX - BS as u64 + 2, u64::MAX] {
        match l.loom.allocate(len) {
            Err(LoomError::Invalid(t)) => assert_eq!(t, "region length overflow"),
            other => panic!("{other:?}"),
        }
    }
    assert_eq!(l.loom.regions().len(), 1);
    assert_eq!(l.loom.allocate(5).unwrap().offset, BS as u64);
}

#[test]
fn the_region_table_fills_up() {
    let mut l = create_with(5000 * 4096, 4096, 4096, OpenOptions::default()).unwrap();
    for i in 0..MAX_REGIONS {
        assert_eq!(l.loom.allocate(4096).unwrap().id as usize, i);
    }
    match l.loom.allocate(1) {
        Err(LoomError::RegionTableFull { max }) => assert_eq!(max, MAX_REGIONS),
        other => panic!("{other:?}"),
    }
    let disk = l.close();
    let l = open_disk(disk, OpenOptions::default()).unwrap();
    let regions = l.loom.regions();
    assert_eq!(regions.len(), MAX_REGIONS);
    assert_eq!(regions[4094].offset, 4094 * 4096);
}

#[test]
fn a_fresh_pool_reads_as_zeros_without_io() {
    let mut l = create(8 * BS as u64, 2 * BS as u64);
    let r = l.loom.allocate(8 * BS as u64).unwrap();
    let before = l.disk.reads;
    let mut buf = vec![7u8; 8 * BS as usize];
    l.read(r, 0, &mut buf).unwrap();
    assert!(buf.iter().all(|&b| b == 0));
    assert_eq!(l.disk.reads, before);
    assert_eq!(l.loom.stats().zero_fills, 8);
    assert_eq!(l.loom.stats().misses, 8);
    assert_eq!(l.loom.stats().evictions, 6);
    assert_eq!(l.loom.stats().writebacks, 0);
    assert_eq!(l.loom.stats().miss_latency.count(), 8);
}

#[test]
fn never_written_blocks_are_not_speculated_on() {
    let mut l = create(64 * BS as u64, 32 * BS as u64);
    assert_eq!(l.loom.prefetch_depth(), 8);
    let r = l.loom.allocate(16 * BS as u64).unwrap();
    let before = l.disk.reads;
    let mut buf = vec![1u8; 3 * BS as usize];
    l.read(r, 0, &mut buf).unwrap();
    assert!(buf.iter().all(|&b| b == 0));
    assert_eq!(l.disk.reads, before);
    let s = l.loom.stats();
    assert_eq!((s.misses, s.zero_fills), (3, 3));
    assert_eq!((s.bytes_read_backing, s.prefetch_batches), (0, 0));
    // A written block at the end of such a run is, and what was never written
    // beside it is zeros whatever the file holds there.
    let data = vec![9u8; BS as usize];
    l.write(r, 6 * BS as u64, &data).unwrap();
    l.evict_all().unwrap();
    let at = l.loom.backing_offset_of_block(7) as usize;
    l.disk.bytes[at] = 0x77;
    let mut all = vec![1u8; 8 * BS as usize];
    l.read(r, 0, &mut all).unwrap();
    assert_eq!(l.loom.stats().prefetch_batches, 1);
    assert_eq!(all[6 * BS as usize..7 * BS as usize], data[..]);
    assert!(all[7 * BS as usize..].iter().all(|&b| b == 0));
}

#[test]
fn what_is_left_in_a_borrow_is_read_back() {
    let mut l = create(8 * BS as u64, 2 * BS as u64);
    let r = l.loom.allocate(8 * BS as u64).unwrap();
    let at = l.locate(r, 3 * BS as u64 - 5, 100).unwrap();
    let s = l.loom.with_slice_mut(at);
    assert_eq!(s, &[0; 5]);
    s.copy_from_slice(b"borrw");
    // Write access alone makes a block dirty.
    let at = l.locate(r, 0, 1).unwrap();
    l.loom.with_slice_mut(at);
    assert_eq!(l.loom.dirty_blocks(), 2);
    l.evict_all().unwrap();
    let mut got = [0u8; 7];
    l.read(r, 3 * BS as u64 - 6, &mut got).unwrap();
    assert_eq!(&got, b"\0borrw\0");
    let mut l = open_disk(l.close(), OpenOptions::default()).unwrap();
    let at = l.locate(r, 3 * BS as u64 - 5, 5).unwrap();
    assert_eq!(l.loom.with_slice(at), b"borrw");
}

#[test]
fn a_damaged_block_hurts_no_other() {
    let mut l = create(16 * BS as u64, 2 * BS as u64);
    let r = l.loom.allocate(16 * BS as u64).unwrap();
    let data: Vec<u8> = (0..8 * BS as usize).map(|i| (i % 251) as u8).collect();
    l.write(r, 0, &data).unwrap();
    let mut disk = l.close();
    let mut l = open_disk(disk, OpenOptions::default()).unwrap();
    let hurt = l.loom.backing_offset_of_block(5) as usize + 77;
    l.disk.bytes[hurt] ^= 1;
    for b in 0..8usize {
        let mut got = vec![0xAA; BS as usize];
        let back = l.read(r, (b * BS as usize) as u64, &mut got);
        if b == 5 {
            assert!(matches!(back, Err(LoomError::Corrupt { block: 5, .. })));
            assert!(got.iter().all(|&x| x == 0xAA));
        } else {
            back.unwrap();
            assert_eq!(got, &data[b * BS as usize..(b + 1) * BS as usize]);
        }
    }
    // A read that reaches it stops before it.
    let mut got = vec![0xAA; 4 * BS as usize];
    let back = l.read(r, 3 * BS as u64, &mut got);
    assert!(matches!(back, Err(LoomError::Corrupt { block: 5, .. })));
    assert_eq!(got[..2 * BS as usize], data[3 * BS as usize..5 * BS as usize]);
    assert!(got[2 * BS as usize..].iter().all(|&x| x == 0xAA));
    l.disk.bytes[hurt] ^= 1;
    l.read(r, 3 * BS as u64, &mut got).unwrap();
    assert_eq!(got, &data[3 * BS as usize..7 * BS as usize]);
    disk = l.close();
    assert!(disk.syncs > 0);
}

#[test]
fn a_full_overwrite_skips_the_load() {
    let mut l = create(4 * BS as u64, BS as u64);
    let r = l.loom.allocate(4 * BS as u64).unwrap();
    let buf = vec![1u8; BS as usize];
    l.write(r, 0, &buf).unwrap();
    l.evict_all().unwrap();
    let before = l.disk.reads;
    l.write(r, 0, &buf).unwrap();
    assert_eq!(l.disk.reads, before);
    assert_eq!(l.loom.stats().full_overwrites, 2);
    l.evict_all().unwrap();
    l.write(r, 1, &buf[..10]).unwrap();
    assert_eq!(l.disk.reads, before + 1);
    assert_eq!(l.loom.stats().bytes_read_backing, BS as u64);
}

#[test]
fn a_write_leaves_its_neighbours_alone() {
    let mut l = create(8 * BS as u64, 2 * BS as u64);
    let r = l.loom.allocate(4 * BS as u64).unwrap();
    let base: Vec<u8> = (0..4 * BS as usize).map(|i| (i % 239) as u8).collect();
    l.write(r, 0, &base).unwrap();
    let patch = vec![0xFFu8; BS as usize];
    l.write(r, BS as u64 - 5, &patch).unwrap();
    let mut want = base.clone();
    want[BS as usize - 5..2 * BS as usize - 5].copy_from_slice(&patch);
    let mut got = vec![0u8; 4 * BS as usize];
    l.read(r, 0, &mut got).unwrap();
    assert_eq!(pattern::first_mismatch(&want, &got), None);
}

#[test]
fn a_failed_writeback_keeps_the_only_copy() {
    let mut l = create(4 * BS as u64, BS as u64);
    let r = l.loom.allocate(4 * BS as u64).unwrap();
    let one = vec![1u8; BS as usize];
    l.write(r, 0, &one).unwrap();
    l.disk.fail = true;
    let mut buf = vec![0u8; BS as usize];
    match l.read(r, BS as u64, &mut buf) {
        Err(LoomError::Unsupported(t)) => assert_eq!(t, "device gone"),
        other => panic!("{other:?}"),
    }
    l.disk.fail = true;
    assert!(l.sync().is_err());
    l.disk.fail = true;
    assert!(l.evict_all().is_err());
    assert_eq!(l.loom.dirty_blocks(), 1);
    l.read(r, 0, &mut buf).unwrap();
    assert_eq!(pattern::first_mismatch(&one, &buf), None);
    // The device is back.
    l.read(r, BS as u64, &mut buf).unwrap();
    assert_eq!(buf[0], 0);
    l.read(r, 0, &mut buf).unwrap();
    assert_eq!(pattern::first_mismatch(&one, &buf), None);
}

#[test]
fn a_failed_load_gives_its_frames_back() {
    let mut l = create(64 * BS as u64, 8 * BS as u64);
    let r = l.loom.allocate(64 * BS as u64).unwrap();
    let mut buf = vec![0u8; BS as usize];
    for b in 0..64u64 {
        pattern::fill(2, b'L', b, &mut buf);
        l.write(r, b * BS as u64, &buf).unwrap();
    }
    l.sync().unwrap();
    l.evict_all().unwrap();
    // A single load.
    l.disk.fail = true;
    assert!(l.read(r, 0, &mut buf).is_err());
    assert_eq!(l.loom.resident_blocks(), 0);
    // A speculative one.
    for b in 0..2u64 {
        l.read(r, b * BS as u64, &mut buf).unwrap();
    }
    l.disk.fail = true;
    assert!(l.read(r, 2 * BS as u64, &mut buf).is_err());
    assert_eq!(l.loom.resident_blocks(), 2);
    for b in 0..64u64 {
        let mut want = vec![0u8; BS as usize];
        pattern::fill(2, b'L', b, &mut want);
        l.read(r, b * BS as u64, &mut buf).unwrap();
        assert_eq!(pattern::first_mismatch(&want, &buf), None, "block {b}");
    }
}

#[test]
fn sync_writes_tables_only_when_they_changed() {
    let mut l = create(4 * BS as u64, 2 * BS as u64);
    let r = l.loom.allocate(2 * BS as u64).unwrap();
    assert!(l.loom.unsynced());
    l.write(r, 0, &[1, 2, 3]).unwrap();
    let (w, s) = (l.disk.writes, l.disk.syncs);
    l.sync().unwrap();
    // One block, three tables.
    assert_eq!(l.disk.writes, w + 4);
    assert_eq!(l.disk.syncs, s + 1);
    assert_eq!(l.loom.dirty_blocks(), 0);
    assert!(!l.loom.unsynced());
    l.sync().unwrap();
    assert_eq!(l.disk.writes, w + 4);
    assert_eq!(l.disk.syncs, s + 2);
    assert_eq!(l.loom.stats().writebacks, 1);
    assert_eq!(l.loom.stats().bytes_written_backing, BS as u64);
}

#[test]
fn creation_is_refused_for_its_reason() {
    let refuse = |capacity: u64, block_size: u32, budget: u64| -> String {
        match Loom::create(&CreateOptions {
            capacity,
            block_size,
            budget,
        }) {
            Err(LoomError::Invalid(t)) => t,
            other => panic!("{other:?}"),
        }
    };
    assert_eq!(
        refuse(65536, 1000, 1000),
        "block size 1000 must be a non-zero multiple of 4096"
    );
    assert_eq!(
        refuse(5000, 4096, 4096),
        "capacity 5000 must be a non-zero multiple of block size 4096"
    );
    assert_eq!(
        refuse(8192, 4096, 4095),
        "budget 4095 smaller than one block (4096)"
    );
}

#[test]
fn opening_is_refused_for_its_reason() {
    let fresh = || create(4 * BS as u64, BS as u64).disk;
    let refuse = |disk: Disk, opts: OpenOptions| -> LoomError {
        match open_disk(disk, opts) {
            Err(e) => e,
            Ok(_) => panic!("must refuse"),
        }
    };
    let mut d = fresh();
    d.bytes[0] = b'X';
    assert!(matches!(
        refuse(d, OpenOptions::default()),
        LoomError::BadMagic { .. }
    ));
    let mut d = fresh();
    let len = d.bytes.len();
    d.bytes.push(0);
    assert_eq!(
        refuse(d, OpenOptions::default()).message(),
        format!(
            "bad superblock: file length {} does not match superblock geometry {}",
            len + 1,
            len
        )
    );
    let mut d = fresh();
    let at = REGION_TABLE_OFF as usize;
    d.bytes[at] = 0;
    d.bytes[at + 1] = 16;
    assert_eq!(
        refuse(d, OpenOptions::default()).message(),
        "bad superblock: region table claims 4096 regions (max 4095)"
    );
    let mut d = fresh();
    d.bytes[at] = 1;
    d.bytes[at + 8] = 1;
    d.bytes[at + 16 + 2] = 1;
    assert_eq!(
        refuse(d, OpenOptions::default()).message(),
        "bad superblock: region 0 [1, +65536) exceeds capacity 65536"
    );
    assert_eq!(
        refuse(
            fresh(),
            OpenOptions {
                budget: Some(100),
                prefetch_depth: None
            }
        )
        .message(),
        "invalid argument: budget 100 yields zero frames of 16384 bytes"
    );
}

#[test]
fn prefetch_is_capped_at_a_quarter_of_the_pool() {
    let open = |budget: u64, depth: Option<usize>| -> usize {
        create_with(
            64 * 4096,
            4096,
            budget,
            OpenOptions {
                budget: None,
                prefetch_depth: depth,
            },
        )
        .unwrap()
        .loom
        .prefetch_depth()
    };
    assert_eq!(open(64 * 4096, None), 16);
    assert_eq!(open(32 * 4096, None), 8);
    assert_eq!(open(32 * 4096, Some(3)), 3);
    assert_eq!(open(32 * 4096, Some(100)), 8);
    assert_eq!(open(3 * 4096, None), 0);
    assert_eq!(open(64 * 4096, Some(0)), 0);
}

#[test]
fn metadata_is_accounted_for() {
    let l = create_with(
        64 * 4096,
        4096,
        64 * 4096,
        OpenOptions {
            budget: None,
            prefetch_depth: Some(4),
        },
    )
    .unwrap();
    // Map, checksum table, region table, frame table, staging.
    assert_eq!(
        l.loom.metadata_bytes(),
        4 * 64 + 4096 + 65536 + 64 * 16 + 4 * 4096
    );
    assert_eq!(l.loom.block_size(), 4096);
    assert_eq!(l.loom.capacity(), 64 * 4096);
    assert_eq!(l.loom.budget(), 64 * 4096);
}

#[test]
fn evict_all_writes_back_exactly_the_dirty_frames() {
    let mut l = create(16 * BS as u64, 8 * BS as u64);
    let r = l.loom.allocate(16 * BS as u64).unwrap();
    let mut buf = vec![0u8; BS as usize];
    for b in 0..6u64 {
        l.read(r, b * BS as u64, &mut buf).unwrap();
    }
    l.write(r, 2 * BS as u64, &[1]).unwrap();
    l.write(r, 5 * BS as u64, &[1]).unwrap();
    let w = l.disk.writes;
    l.evict_all().unwrap();
    assert_eq!(l.disk.writes, w + 2);
    assert_eq!(l.loom.stats().evictions, 6);
    assert_eq!(l.loom.resident_blocks(), 0);
    assert_eq!(l.loom.debug_scribble_free_frames(1), 8);
}

/// Reads, writes, borrows, evictions, syncs, reopenings and failing devices in
/// any order: the arena is a plain array of bytes that is also the file.
#[test]
fn a_long_run_agrees_with_a_plain_array() {
    const LEN: usize = 12 * BS as usize + 345;
    let mut pool = create(16 * BS as u64, 5 * BS as u64);
    let mut r = pool.loom.allocate(LEN as u64).unwrap();
    let mut model = vec![0u8; LEN];
    let mut state = 0x1234_5678_9ABC_DEF1u64;
    let mut draw = move |below: u64| -> u64 {
        state ^= state >> 12;
        state ^= state << 25;
        state ^= state >> 27;
        (state.wrapping_mul(0x2545_F491_4F6C_DD1D) >> 16) % below
    };
    for turn in 0..1500u64 {
        let at = draw(LEN as u64) as usize;
        let len = 1 + draw((LEN - at).min(3 * BS as usize) as u64) as usize;
        match draw(20) {
            0..=6 => {
                let mut got = vec![0xAAu8; len];
                pool.read(r, at as u64, &mut got).unwrap();
                assert_eq!(pattern::first_mismatch(&model[at..at + len], &got), None);
            }
            7..=12 => {
                let data: Vec<u8> = (0..len).map(|i| (i as u64 * 31 + turn) as u8).collect();
                pool.write(r, at as u64, &data).unwrap();
                model[at..at + len].copy_from_slice(&data);
            }
            13..=14 => {
                let l = pool.locate(r, at as u64, len).unwrap();
                let seen = pool.loom.with_slice(l);
                assert!(!seen.is_empty() && seen.len() <= len);
                assert_eq!(seen, &model[at..at + seen.len()]);
            }
            15..=16 => {
                let l = pool.locate(r, at as u64, len).unwrap();
                let seen = pool.loom.with_slice_mut(l);
                for (i, b) in seen.iter_mut().enumerate() {
                    *b = turn as u8 ^ i as u8;
                    model[at + i] = *b;
                }
            }
            17 => pool.evict_all().unwrap(),
            18 => {
                // A read that meets a failing device fails or needs none of
                // it, and loses nothing.
                pool.disk.fail = true;
                let mut got = vec![0u8; len];
                if pool.read(r, at as u64, &mut got).is_ok() {
                    assert_eq!(got, &model[at..at + len]);
                }
                pool.disk.fail = false;
            }
            _ => {
                let budget = (1 + draw(6)) * BS as u64;
                let depth = draw(9) as usize;
                pool = open_disk(
                    pool.close(),
                    OpenOptions {
                        budget: Some(budget),
                        prefetch_depth: Some(depth),
                    },
                )
                .unwrap();
                r = pool.loom.regions()[0];
            }
        }
    }
    let mut got = vec![0u8; LEN];
    pool.read(r, 0, &mut got).unwrap();
    assert_eq!(pattern::first_mismatch(&model, &got), None);
}
