//! Loom — a userspace buffer manager that gives a process a bounded RAM
//! footprint over a storage-backed logical arena larger than RAM.
//!
//! ```text
//! Application
//!      │  allocate / read / write
//!      ▼
//! ┌──────────────────────┐
//! │     LOOM ARENA       │  logical address space
//! └──────────┬───────────┘
//!            │  block map + CLOCK residency policy
//!     ┌──────┴──────┐
//!     ▼             ▼
//!   HOT           COLD
//!   frame pool    pool file
//! ```
//!
//! What the arena owns: the logical address space, the block map, the frame
//! pool (which *is* the hot budget), the residency decision on every miss,
//! dirty tracking, writeback, a checksum per block, and the counters
//! describing all of it.
//!
//! What the OS still owns: physical backing of the frames. That is measured
//! (see [`footprint`]) instead of asserted.
//!
//! What is not done: freeing regions, surviving a crash between syncs,
//! compression, learning device characteristics.
//!
//! The library does no I/O. It decides, and a driver acts: an operation on an
//! arena hands out file operations one at a time and takes the replies (see
//! [`io`]). [`state`] says what an arena holds, [`steps`] what every step
//! keeps, [`laws`] what holds of the whole. [`policy`] is about which blocks
//! stay in RAM and what is counted, [`ledger`] about regions and accounts,
//! [`trial`] about what a run of the experiment shows.

use vstd::prelude::*;

pub mod aligned;
pub mod arena;
pub mod args;
pub mod bytes;
pub mod checksum;
pub mod damage;
pub mod error;
pub mod faultin;
pub mod faultin_signal;
pub mod footprint;
pub mod frames;
pub mod io;
pub mod laws;
pub mod ledger;
pub mod opening;
pub mod pattern;
pub mod policy;
pub mod prove;
pub mod report;
pub mod runs;
pub mod state;
pub mod stats;
pub mod steps;
pub mod superblock;
pub mod text;
pub mod trial;
pub mod words;

pub use arena::{CreateOptions, Info, Loom, OpenOptions, Region};
pub use error::LoomError;
pub use stats::Stats;

verus! {

pub const KIB: u64 = 1024;

pub const MIB: u64 = 1048576;

pub const GIB: u64 = 1073741824;

/// Default block size. 64 KiB keeps the block map at 64 MiB for a 128 GiB
/// arena (4 KiB blocks would need 1 GiB) while keeping sub-block
/// read-modify-write cheap. HDD backends will want larger; it is a pool
/// parameter, fixed when the pool is created.
pub const DEFAULT_BLOCK_SIZE: u32 = 65536;

} // verus!
