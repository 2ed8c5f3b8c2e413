//! Every failure path names itself. There is no error variant that means
//! "something went wrong"; each one carries the condition that caused it, so
//! a caller can distinguish a bad pool file from a bad argument from a
//! corrupt block.

use crate::text::{push_byte_list, push_dec, push_hex_padded};
#[allow(unused_imports)]
use crate::text::{byte_list, dec, hex_padded};
use vstd::prelude::*;
use vstd::string::*;

verus! {

/// `std::io::Error`: an operating system error. It is carried, never read.
#[verifier::external_type_specification]
#[verifier::external_body]
pub struct ExIoError(std::io::Error);

/// What went wrong.
#[derive(Debug)]
#[allow(inconsistent_fields)]
pub enum LoomError {
    /// An OS call failed. `op` names the call, `ctx` names what it was
    /// operating on, `source` is the raw errno-backed error.
    Io { op: &'static str, ctx: String, source: std::io::Error },
    /// The pool file does not start with the pool magic.
    BadMagic { found: [u8; 8] },
    /// The pool file is a pool but from an incompatible format version.
    Version { found: u32, supported: u32 },
    /// The superblock is internally inconsistent (e.g. block size not a
    /// multiple of the I/O alignment, or table offsets overlapping).
    BadSuperblock(String),
    /// A block's stored checksum does not match the bytes read back from the
    /// backing store. This is surfaced, never masked.
    Corrupt { block: u64, expected: u64, actual: u64 },
    /// The arena has no room for the requested region.
    Capacity { requested: u64, available: u64 },
    /// A read or write addressed bytes outside its region.
    OutOfBounds { region: u32, offset: u64, len: u64, region_len: u64 },
    /// An argument violates a structural constraint (alignment, zero size,
    /// budget smaller than one block, ...).
    Invalid(String),
    /// The region table is full (it has a fixed size).
    RegionTableFull { max: usize },
    /// A capability this build/platform does not provide. The string names
    /// exactly what is missing and why.
    Unsupported(String),
}

/// `std::io::Error`'s `Display`, as text. What it prints is the operating
/// system's wording, so nothing is claimed of it.
#[verifier::external_body]
fn os_error_text(e: &std::io::Error) -> (s: String)
{
    e.to_string()
}

impl LoomError {
    /// The error in words; for an `Io`, the part before the operating system's
    /// own words.
    pub open spec fn text(self) -> Seq<char> {
        match self {
            LoomError::Io { op, ctx, source } => op@ + "("@ + ctx@ + "): "@,
            LoomError::BadMagic { found } => "not a Loom pool (magic bytes "@ + byte_list(found@)
                + ")"@,
            LoomError::Version { found, supported } => "pool format version "@ + dec(found as nat)
                + " not supported (this build supports "@ + dec(supported as nat) + ")"@,
            LoomError::BadSuperblock(s) => "bad superblock: "@ + s@,
            LoomError::Corrupt { block, expected, actual } => "block "@ + dec(block as nat)
                + " corrupt: stored checksum "@ + hex_padded(expected as nat) + ", read back "@
                + hex_padded(actual as nat),
            LoomError::Capacity { requested, available } =>
                "arena capacity exhausted: requested "@ + dec(requested as nat) + " bytes, "@ + dec(
                available as nat,
            ) + " available"@,
            LoomError::OutOfBounds { region, offset, len, region_len } => "region "@ + dec(
                region as nat,
            ) + ": access ["@ + dec(offset as nat) + ", "@ + dec(offset as nat) + "+"@ + dec(
                len as nat,
            ) + ") outside region of "@ + dec(region_len as nat) + " bytes"@,
            LoomError::Invalid(s) => "invalid argument: "@ + s@,
            LoomError::RegionTableFull { max } => "region table full ("@ + dec(max as nat)
                + " regions max in v0)"@,
            LoomError::Unsupported(s) => "unsupported: "@ + s@,
        }
    }

    /// The error in words. An `Io` ends in whatever the operating system
    /// calls it.
    pub fn message(&self) -> (s: String)
        ensures
            self is Io ==> self.text().is_prefix_of(s@),
            !(self is Io) ==> s@ == self.text(),
    {
        match self {
            LoomError::Io { source, .. } => {
                let s = self.message_with(os_error_text(source).as_str());
                assert(self.text() =~= s@.subrange(0, self.text().len() as int));
                s
            },
            _ => self.message_with(""),
        }
    }

    /// The error in words, with the operating system's own for an `Io`.
    pub fn message_with(&self, os: &str) -> (s: String)
        ensures
            s@ == if self is Io {
                self.text() + os@
            } else {
                self.text()
            },
    {
        match self {
            LoomError::Io { op, ctx, .. } => {
                let mut s = String::from_str(op);
                s.append("(");
                s.append(ctx.as_str());
                s.append("): ");
                s.append(os);
                s
            },
            LoomError::BadMagic { found } => {
                let mut s = String::from_str("not a Loom pool (magic bytes ");
                push_byte_list(&mut s, found.as_slice());
                s.append(")");
                s
            },
            LoomError::Version { found, supported } => {
                let mut s = String::from_str("pool format version ");
                push_dec(&mut s, *found as u64);
                s.append(" not supported (this build supports ");
                push_dec(&mut s, *supported as u64);
                s.append(")");
                s
            },
            LoomError::BadSuperblock(why) => {
                let mut s = String::from_str("bad superblock: ");
                s.append(why.as_str());
                s
            },
            LoomError::Corrupt { block, expected, actual } => {
                let mut s = String::from_str("block ");
                push_dec(&mut s, *block);
                s.append(" corrupt: stored checksum ");
                push_hex_padded(&mut s, *expected);
                s.append(", read back ");
                push_hex_padded(&mut s, *actual);
                s
            },
            LoomError::Capacity { requested, available } => {
                let mut s = String::from_str("arena capacity exhausted: requested ");
                push_dec(&mut s, *requested);
                s.append(" bytes, ");
                push_dec(&mut s, *available);
                s.append(" available");
                s
            },
            LoomError::OutOfBounds { region, offset, len, region_len } => {
                let mut s = String::from_str("region ");
                push_dec(&mut s, *region as u64);
                s.append(": access [");
                push_dec(&mut s, *offset);
                s.append(", ");
                push_dec(&mut s, *offset);
                s.append("+");
                push_dec(&mut s, *len);
                s.append(") outside region of ");
                push_dec(&mut s, *region_len);
                s.append(" bytes");
                s
            },
            LoomError::Invalid(why) => {
                let mut s = String::from_str("invalid argument: ");
                s.append(why.as_str());
                s
            },
            LoomError::RegionTableFull { max } => {
                let mut s = String::from_str("region table full (");
                push_dec(&mut s, *max as u64);
                s.append(" regions max in v0)");
                s
            },
            LoomError::Unsupported(why) => {
                let mut s = String::from_str("unsupported: ");
                s.append(why.as_str());
                s
            },
        }
    }
}

} // verus!
