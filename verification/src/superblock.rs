//! On-disk layout of a pool file.
//!
//! ```text
//! offset 0            superblock          4 KiB   (this struct, little-endian)
//! offset 4 KiB        region table        64 KiB  (u64 count, then (offset,len) pairs)
//! offset 68 KiB       checksum table      nblocks * 8 bytes, rounded up to 4 KiB
//! data_off            block data          nblocks * block_size
//! ```
//!
//! Logical block `n` lives at `data_off + n * block_size` — an identity
//! mapping. There is deliberately no backing-block allocator: the file is
//! sparse, so unwritten logical blocks cost nothing on disk, and the mapping
//! needs no metadata that could be lost. Everything above `data_off` is
//! rebuildable from the superblock alone.
//!
//! The superblock and both tables are written with the same aligned,
//! cache-bypassing I/O as data.

use crate::aligned::{AlignedBuf, IO_ALIGN};
use crate::bytes::copy_into;
#[allow(unused_imports)]
use crate::bytes::repeated;
#[allow(unused_imports)]
use crate::checksum::xxh3_64_of;
use crate::error::LoomError;
use crate::text::{push_dec, push_hex};
#[allow(unused_imports)]
use crate::text::{dec, hex};
use crate::words::{get_word, words_to_buf};
#[allow(unused_imports)]
use crate::words::{bytes_of, lemma_word_of_bytes, word_at};
use vstd::bytes::*;
use vstd::prelude::*;
use vstd::string::*;

verus! {

/// The first eight bytes of every pool: `LOOMPOOL`.
pub const MAGIC: [u8; 8] = [0x4c, 0x4f, 0x4f, 0x4d, 0x50, 0x4f, 0x4f, 0x4c];

/// The on-disk format this build reads and writes.
pub const FORMAT_VERSION: u32 = 1;

/// Bytes of the superblock.
pub const SUPERBLOCK_LEN: u64 = 4096;

/// Where the region table starts.
pub const REGION_TABLE_OFF: u64 = 4096;

/// Bytes of the region table.
pub const REGION_TABLE_LEN: u64 = 65536;

/// Regions the table has room for.
pub const MAX_REGIONS: usize = 4095;

/// Where the checksum table starts.
pub const CHECKSUM_TABLE_OFF: u64 = 69632;

/// The smallest multiple of `unit` that is at least `v`.
pub open spec fn rounded_up(v: int, unit: int) -> int {
    ((v + unit - 1) / unit) * unit
}

/// `rounded_up` is what its name says.
pub proof fn lemma_rounded_up(v: int, unit: int)
    requires
        0 <= v,
        0 < unit,
    ensures
        v <= rounded_up(v, unit) < v + unit,
        rounded_up(v, unit) % unit == 0,
{
    let q = (v + unit - 1) / unit;
    vstd::arithmetic::div_mod::lemma_fundamental_div_mod(v + unit - 1, unit);
    vstd::arithmetic::div_mod::lemma_mod_bound(v + unit - 1, unit);
    vstd::arithmetic::mul::lemma_mul_is_commutative(q, unit);
    vstd::arithmetic::div_mod::lemma_mod_multiples_basic(q, unit);
}

/// A multiple of `unit` is not moved by rounding up, and bounds the rounding
/// of everything below it.
pub proof fn lemma_rounded_up_below(v: int, bound: int, unit: int)
    requires
        0 <= v <= bound,
        0 < unit,
        bound % unit == 0,
    ensures
        rounded_up(v, unit) <= bound,
{
    lemma_rounded_up(v, unit);
    let r = rounded_up(v, unit);
    if r > bound {
        vstd::arithmetic::div_mod::lemma_fundamental_div_mod(r, unit);
        vstd::arithmetic::div_mod::lemma_fundamental_div_mod(bound, unit);
        let a = r / unit;
        let b = bound / unit;
        assert(a * unit > b * unit ==> a >= b + 1) by (nonlinear_arith)
            requires
                0 < unit,
        ;
        assert(a >= b + 1 ==> a * unit >= b * unit + unit) by (nonlinear_arith)
            requires
                0 < unit,
        ;
        vstd::arithmetic::mul::lemma_mul_is_commutative(a, unit);
        vstd::arithmetic::mul::lemma_mul_is_commutative(b, unit);
    }
}

/// What lies above the last multiple under a bound is rounded up above it.
pub proof fn lemma_rounded_up_above(v: int, bound: int, unit: int)
    requires
        0 <= bound,
        bound / unit * unit < v,
        0 < unit,
    ensures
        rounded_up(v, unit) > bound,
{
    let q = bound / unit;
    vstd::arithmetic::div_mod::lemma_fundamental_div_mod(bound, unit);
    assert(0 <= q * unit) by (nonlinear_arith)
        requires
            q == bound / unit,
            0 <= bound,
            0 < unit,
    ;
    lemma_rounded_up(v, unit);
    let r = rounded_up(v, unit);
    vstd::arithmetic::div_mod::lemma_fundamental_div_mod(r, unit);
    let a = r / unit;
    assert(a >= q + 1) by (nonlinear_arith)
        requires
            a * unit > q * unit,
            0 < unit,
    ;
    assert(a * unit >= q * unit + unit) by (nonlinear_arith)
        requires
            a >= q + 1,
            0 < unit,
    ;
    vstd::arithmetic::mul::lemma_mul_is_commutative(a, unit);
    vstd::arithmetic::mul::lemma_mul_is_commutative(q, unit);
}

/// Round `v` up to a multiple of `unit`.
pub fn round_up(v: u64, unit: u64) -> (r: u64)
    requires
        0 < unit,
        rounded_up(v as int, unit as int) <= u64::MAX,
    ensures
        r == rounded_up(v as int, unit as int),
{
    proof {
        lemma_rounded_up(v as int, unit as int);
        vstd::arithmetic::div_mod::lemma_fundamental_div_mod(v as int, unit as int);
        vstd::arithmetic::div_mod::lemma_mod_bound(v as int, unit as int);
        vstd::arithmetic::mul::lemma_mul_is_commutative(v as int / unit as int, unit as int);
        lemma_rounded_up_exact(v as int, unit as int);
    }
    let over: u64 = v % unit;
    if over == 0 {
        v
    } else {
        let down: u64 = v - over;
        down + unit
    }
}

/// Rounding up adds what is missing to the next multiple.
proof fn lemma_rounded_up_exact(v: int, unit: int)
    requires
        0 <= v,
        0 < unit,
    ensures
        v % unit == 0 ==> rounded_up(v, unit) == v,
        v % unit != 0 ==> rounded_up(v, unit) == v - v % unit + unit,
{
    vstd::arithmetic::div_mod::lemma_fundamental_div_mod(v, unit);
    vstd::arithmetic::div_mod::lemma_mod_bound(v, unit);
    let q = v / unit;
    let m = v % unit;
    vstd::arithmetic::mul::lemma_mul_is_commutative(q, unit);
    if m == 0 {
        vstd::arithmetic::div_mod::lemma_fundamental_div_mod_converse(
            v + unit - 1,
            unit,
            q,
            unit - 1,
        );
    } else {
        assert((q + 1) * unit == q * unit + unit) by (nonlinear_arith);
        vstd::arithmetic::div_mod::lemma_fundamental_div_mod_converse(
            v + unit - 1,
            unit,
            q + 1,
            m - 1,
        );
    }
}

/// The geometry of a pool.
#[derive(Debug, Clone, PartialEq, Eq, Structural)]
pub struct Superblock {
    /// Bytes per block.
    pub block_size: u32,
    /// Logical arena capacity in bytes (a multiple of block_size).
    pub capacity: u64,
    /// Hot budget recorded at init; `open` may override it.
    pub default_budget: u64,
    /// Blocks in the arena.
    pub nblocks: u64,
    /// Bytes of the checksum table.
    pub checksum_table_len: u64,
    /// Where block data starts.
    pub data_off: u64,
}

/// A block size the I/O can serve.
pub open spec fn valid_block_size(block_size: u32) -> bool {
    block_size != 0 && block_size as int % IO_ALIGN as int == 0
}

/// A capacity made of whole blocks.
pub open spec fn valid_capacity(block_size: u32, capacity: u64) -> bool {
    capacity != 0 && capacity as int % block_size as int == 0
}

/// The geometry that follows from block size, capacity and budget.
pub open spec fn geometry(block_size: u32, capacity: u64, default_budget: u64) -> Superblock {
    let nblocks = capacity as int / block_size as int;
    let table = rounded_up(nblocks * 8, IO_ALIGN as int);
    Superblock {
        block_size,
        capacity,
        default_budget,
        nblocks: nblocks as u64,
        checksum_table_len: table as u64,
        data_off: (CHECKSUM_TABLE_OFF + table) as u64,
    }
}

/// Why a block size is refused.
pub open spec fn block_size_text(block_size: u32) -> Seq<char> {
    "block size "@ + dec(block_size as nat) + " must be a non-zero multiple of "@ + dec(
        IO_ALIGN as nat,
    )
}

/// Why a capacity is refused.
pub open spec fn capacity_text(block_size: u32, capacity: u64) -> Seq<char> {
    "capacity "@ + dec(capacity as nat) + " must be a non-zero multiple of block size "@ + dec(
        block_size as nat,
    )
}

/// The bytes of the header that its checksum covers.
pub open spec fn header_fields(sb: Superblock) -> Seq<u8> {
    MAGIC@ + spec_u32_to_le_bytes(FORMAT_VERSION) + spec_u32_to_le_bytes(sb.block_size)
        + spec_u64_to_le_bytes(sb.capacity) + spec_u64_to_le_bytes(sb.default_budget)
        + spec_u64_to_le_bytes(sb.nblocks) + spec_u64_to_le_bytes(sb.checksum_table_len)
        + spec_u64_to_le_bytes(sb.data_off)
}

/// A superblock's bytes, given the checksum of its fields. The rest of its
/// I/O unit is zero.
pub open spec fn header_bytes(sb: Superblock, h: u64) -> Seq<u8> {
    header_fields(sb) + spec_u64_to_le_bytes(h) + repeated(0, 4032)
}

/// A superblock's bytes.
pub open spec fn superblock_bytes(sb: Superblock) -> Seq<u8> {
    header_bytes(sb, xxh3_64_of(header_fields(sb)))
}

/// A 32-bit little-endian field.
pub open spec fn field32(b: Seq<u8>, at: int) -> u32 {
    spec_u32_from_le_bytes(b.subrange(at, at + 4))
}

/// A 64-bit little-endian field.
pub open spec fn field64(b: Seq<u8>, at: int) -> u64 {
    spec_u64_from_le_bytes(b.subrange(at, at + 8))
}

/// The fields a header stores, whether or not they make sense.
pub open spec fn stored_fields(b: Seq<u8>) -> Superblock {
    Superblock {
        block_size: field32(b, 12),
        capacity: field64(b, 16),
        default_budget: field64(b, 24),
        nblocks: field64(b, 32),
        checksum_table_len: field64(b, 40),
        data_off: field64(b, 48),
    }
}

/// What a header says, in the order in which it is examined.
pub enum Header {
    /// Too few bytes to hold one.
    Short,
    /// The magic is another.
    Magic,
    /// The format version is another.
    Version,
    /// The stored checksum is not that of the fields.
    Torn,
    /// No pool has this geometry, for the reason given.
    Geometry(Seq<char>),
    /// The derived fields are not those that follow from the others.
    Derived,
    /// A pool.
    Valid(Superblock),
}

/// Examine a header whose fields have the checksum `h`.
pub open spec fn examine(b: Seq<u8>, h: u64) -> Header {
    let sb = stored_fields(b);
    if b.len() < 64 {
        Header::Short
    } else if b.subrange(0, 8) != MAGIC@ {
        Header::Magic
    } else if field32(b, 8) != FORMAT_VERSION {
        Header::Version
    } else if field64(b, 56) != h {
        Header::Torn
    } else if !valid_block_size(sb.block_size) {
        Header::Geometry(block_size_text(sb.block_size))
    } else if !valid_capacity(sb.block_size, sb.capacity) {
        Header::Geometry(capacity_text(sb.block_size, sb.capacity))
    } else if geometry(sb.block_size, sb.capacity, sb.default_budget) != sb {
        Header::Derived
    } else {
        Header::Valid(sb)
    }
}

/// Examine a header.
pub open spec fn read_header(b: Seq<u8>) -> Header {
    examine(b, xxh3_64_of(b.subrange(0, 56)))
}

/// A superblock as debug text.
pub open spec fn superblock_text(sb: Superblock) -> Seq<char> {
    "Superblock { block_size: "@ + dec(sb.block_size as nat) + ", capacity: "@ + dec(
        sb.capacity as nat,
    ) + ", default_budget: "@ + dec(sb.default_budget as nat) + ", nblocks: "@ + dec(
        sb.nblocks as nat,
    ) + ", checksum_table_len: "@ + dec(sb.checksum_table_len as nat) + ", data_off: "@ + dec(
        sb.data_off as nat,
    ) + " }"@
}

/// The error that a header which is not a pool's gives.
pub open spec fn header_error(b: Seq<u8>, h: u64, e: LoomError) -> bool {
    match examine(b, h) {
        Header::Short => e matches LoomError::BadSuperblock(t) && t@ == "buffer too short ("@ + dec(
            b.len(),
        ) + " bytes)"@,
        Header::Magic => e matches LoomError::BadMagic { found } && found@ == b.subrange(0, 8),
        Header::Version => e matches LoomError::Version { found, supported } && found == field32(
            b,
            8,
        ) && supported == FORMAT_VERSION,
        Header::Torn => e matches LoomError::BadSuperblock(t) && t@
            == "header checksum mismatch (stored "@ + hex(field64(b, 56) as nat) + ", computed "@
            + hex(h as nat) + ")"@,
        Header::Geometry(why) => e matches LoomError::BadSuperblock(t) && t@ == "invalid argument: "@
            + why,
        Header::Derived => {
            let sb = stored_fields(b);
            e matches LoomError::BadSuperblock(t) && t@ == "derived fields disagree: stored "@
                + superblock_text(sb) + ", recomputed "@ + superblock_text(
                geometry(sb.block_size, sb.capacity, sb.default_budget),
            )
        },
        Header::Valid(_) => false,
    }
}

/// Copy eight bytes out.
fn first_eight(b: &[u8]) -> (a: [u8; 8])
    requires
        b@.len() >= 8,
    ensures
        a@ == b@.subrange(0, 8),
{
    let a: [u8; 8] = [b[0], b[1], b[2], b[3], b[4], b[5], b[6], b[7]];
    assert(a@ =~= b@.subrange(0, 8));
    a
}

/// Equality of eight-byte arrays.
fn same_eight(a: &[u8; 8], b: &[u8; 8]) -> (same: bool)
    ensures
        same == (a@ == b@),
{
    let mut i: usize = 0;
    while i < 8
        invariant
            i <= 8,
            a@.len() == 8,
            b@.len() == 8,
            forall|j: int| 0 <= j < i ==> a@[j] == b@[j],
        decreases 8 - i,
    {
        if a[i] != b[i] {
            return false;
        }
        i = i + 1;
    }
    assert(a@ =~= b@);
    true
}

/// The derived fields fit their types, and the table holds one word per
/// block.
pub proof fn lemma_geometry(block_size: u32, capacity: u64, default_budget: u64)
    requires
        valid_block_size(block_size),
        valid_capacity(block_size, capacity),
    ensures
        ({
            let sb = geometry(block_size, capacity, default_budget);
            &&& sb.nblocks * block_size == capacity
            &&& 0 < sb.nblocks <= 0x10_0000_0000_0000
            &&& 8 * sb.nblocks <= sb.checksum_table_len < 8 * sb.nblocks + IO_ALIGN
            &&& sb.checksum_table_len as int % IO_ALIGN as int == 0
            &&& sb.data_off == CHECKSUM_TABLE_OFF + sb.checksum_table_len
            &&& sb.data_off as int % IO_ALIGN as int == 0
        }),
{
    let n = capacity as int / block_size as int;
    vstd::arithmetic::div_mod::lemma_fundamental_div_mod(capacity as int, block_size as int);
    vstd::arithmetic::mul::lemma_mul_is_commutative(n, block_size as int);
    assert(0 < n <= 0x10_0000_0000_0000) by (nonlinear_arith)
        requires
            n * block_size == capacity,
            0 < capacity <= 0xffff_ffff_ffff_ffff,
            block_size >= 4096,
    ;
    lemma_rounded_up(n * 8, IO_ALIGN as int);
}

/// Every block lies behind the tables and inside the file.
pub proof fn lemma_block_range(sb: Superblock, b: int, n: int)
    requires
        sb.wf(),
        0 <= b,
        0 <= n,
        b + n <= sb.nblocks,
    ensures
        CHECKSUM_TABLE_OFF + sb.checksum_table_len <= sb.block_start(b),
        sb.block_start(b) + n * sb.block_size == sb.block_start(b + n),
        sb.block_start(b + n) <= sb.file_end(),
{
    lemma_geometry(sb.block_size, sb.capacity, sb.default_budget);
    let bs = sb.block_size as int;
    assert(0 <= b * bs && b * bs + n * bs == (b + n) * bs && (b + n) * bs <= sb.nblocks * bs)
        by (nonlinear_arith)
        requires
            0 <= b,
            0 <= n,
            b + n <= sb.nblocks,
            0 <= bs,
    ;
}

/// Different blocks do not overlap.
pub proof fn lemma_blocks_apart(sb: Superblock, a: int, b: int)
    requires
        a != b,
    ensures
        sb.block_start(a) + sb.block_size <= sb.block_start(b) || sb.block_start(b) + sb.block_size
            <= sb.block_start(a),
{
    let bs = sb.block_size as int;
    assert(a * bs + bs <= b * bs || b * bs + bs <= a * bs) by (nonlinear_arith)
        requires
            a != b,
            0 <= bs,
    ;
}

impl Superblock {
    /// The fields agree with one another.
    pub open spec fn wf(self) -> bool {
        &&& valid_block_size(self.block_size)
        &&& valid_capacity(self.block_size, self.capacity)
        &&& self == geometry(self.block_size, self.capacity, self.default_budget)
    }

    /// The length of the pool file, as a number without bound.
    pub open spec fn file_end(self) -> int {
        self.data_off + self.capacity
    }

    /// Where a block lies in the pool file, as a number without bound.
    pub open spec fn block_start(self, block: int) -> int {
        self.data_off + block * self.block_size
    }

    /// The geometry of a pool, or why there is none.
    pub fn new(block_size: u32, capacity: u64, default_budget: u64) -> (r: Result<Self, LoomError>)
        ensures
            match r {
                Ok(sb) => {
                    &&& valid_block_size(block_size)
                    &&& valid_capacity(block_size, capacity)
                    &&& sb == geometry(block_size, capacity, default_budget)
                    &&& sb.wf()
                },
                Err(e) => {
                    &&& !(valid_block_size(block_size) && valid_capacity(block_size, capacity))
                    &&& e matches LoomError::Invalid(t)
                    &&& t@ == if !valid_block_size(block_size) {
                        block_size_text(block_size)
                    } else {
                        capacity_text(block_size, capacity)
                    }
                },
            },
    {
        if block_size == 0 || block_size as usize % IO_ALIGN != 0 {
            let mut t = String::from_str("block size ");
            push_dec(&mut t, block_size as u64);
            t.append(" must be a non-zero multiple of ");
            push_dec(&mut t, IO_ALIGN as u64);
            return Err(LoomError::Invalid(t));
        }
        if capacity == 0 || capacity % block_size as u64 != 0 {
            let mut t = String::from_str("capacity ");
            push_dec(&mut t, capacity);
            t.append(" must be a non-zero multiple of block size ");
            push_dec(&mut t, block_size as u64);
            return Err(LoomError::Invalid(t));
        }
        proof {
            lemma_geometry(block_size, capacity, default_budget);
        }
        let nblocks: u64 = capacity / block_size as u64;
        let raw: u64 = nblocks * 8;
        proof {
            lemma_rounded_up(raw as int, IO_ALIGN as int);
        }
        let checksum_table_len: u64 = round_up(raw, IO_ALIGN as u64);
        let data_off: u64 = CHECKSUM_TABLE_OFF + checksum_table_len;
        Ok(
            Superblock {
                block_size,
                capacity,
                default_budget,
                nblocks,
                checksum_table_len,
                data_off,
            },
        )
    }

    /// Length of the pool file.
    pub fn file_len(&self) -> (n: u64)
        requires
            self.file_end() <= u64::MAX,
        ensures
            n == self.file_end(),
    {
        self.data_off + self.capacity
    }

    /// Where a block lies in the pool file.
    pub fn block_off(&self, block: u64) -> (n: u64)
        requires
            self.block_start(block as int) <= u64::MAX,
        ensures
            n == self.block_start(block as int),
    {
        assert(0 <= block * self.block_size) by (nonlinear_arith)
            requires
                0 <= block,
                0 <= self.block_size,
        ;
        self.data_off + block * self.block_size as u64
    }

    /// The header's bytes up to its checksum, in an otherwise zero I/O unit.
    fn encode_fields(&self) -> (b: AlignedBuf)
        ensures
            b@ == header_fields(*self) + repeated(0, 4040),
    {
        let mut b = AlignedBuf::zeroed(IO_ALIGN);
        let magic = MAGIC;
        let v = u32_to_le_bytes(FORMAT_VERSION);
        let f0 = u32_to_le_bytes(self.block_size);
        let f1 = u64_to_le_bytes(self.capacity);
        let f2 = u64_to_le_bytes(self.default_budget);
        let f3 = u64_to_le_bytes(self.nblocks);
        let f4 = u64_to_le_bytes(self.checksum_table_len);
        let f5 = u64_to_le_bytes(self.data_off);
        copy_into(b.as_mut_slice(), 0, magic.as_slice());
        copy_into(b.as_mut_slice(), 8, v.as_slice());
        copy_into(b.as_mut_slice(), 12, f0.as_slice());
        copy_into(b.as_mut_slice(), 16, f1.as_slice());
        copy_into(b.as_mut_slice(), 24, f2.as_slice());
        copy_into(b.as_mut_slice(), 32, f3.as_slice());
        copy_into(b.as_mut_slice(), 40, f4.as_slice());
        copy_into(b.as_mut_slice(), 48, f5.as_slice());
        assert(b@ =~= header_fields(*self) + repeated(0, 4040));
        b
    }

    /// The superblock's bytes, given the checksum of its fields.
    pub fn encode_hashed(&self, h: u64) -> (b: AlignedBuf)
        ensures
            b@ == header_bytes(*self, h),
    {
        let mut b = self.encode_fields();
        let hash = u64_to_le_bytes(h);
        proof {
            lemma_header_len(*self);
        }
        copy_into(b.as_mut_slice(), 56, hash.as_slice());
        assert(b@ =~= header_bytes(*self, h));
        b
    }

    /// The superblock's bytes. A checksum over the fields makes a torn
    /// superblock detectable.
    pub fn encode(&self) -> (b: AlignedBuf)
        ensures
            b@ == superblock_bytes(*self),
    {
        let b = self.encode_fields();
        proof {
            lemma_header_len(*self);
        }
        let h: u64 = xxhash_rust::xxh3::xxh3_64(&b.as_slice()[0..56]);
        assert(b@.subrange(0, 56) =~= header_fields(*self));
        self.encode_hashed(h)
    }

    /// Append the superblock as debug text.
    fn push_text(&self, t: &mut String)
        ensures
            final(t)@ == old(t)@ + superblock_text(*self),
    {
        t.append("Superblock { block_size: ");
        push_dec(t, self.block_size as u64);
        t.append(", capacity: ");
        push_dec(t, self.capacity);
        t.append(", default_budget: ");
        push_dec(t, self.default_budget);
        t.append(", nblocks: ");
        push_dec(t, self.nblocks);
        t.append(", checksum_table_len: ");
        push_dec(t, self.checksum_table_len);
        t.append(", data_off: ");
        push_dec(t, self.data_off);
        t.append(" }");
        assert(t@ =~= old(t)@ + superblock_text(*self));
    }

    /// Read a superblock back, given the checksum of its fields.
    pub fn decode_hashed(b: &[u8], h: u64) -> (r: Result<Self, LoomError>)
        ensures
            match r {
                Ok(sb) => examine(b@, h) == Header::Valid(sb) && sb.wf(),
                Err(e) => header_error(b@, h, e),
            },
    {
        if b.len() < 64 {
            let mut t = String::from_str("buffer too short (");
            push_dec(&mut t, b.len() as u64);
            t.append(" bytes)");
            return Err(LoomError::BadSuperblock(t));
        }
        let magic = first_eight(b);
        if !same_eight(&magic, &MAGIC) {
            return Err(LoomError::BadMagic { found: magic });
        }
        let version: u32 = u32_from_le_bytes(&b[8..12]);
        if version != FORMAT_VERSION {
            return Err(LoomError::Version { found: version, supported: FORMAT_VERSION });
        }
        let stored_h: u64 = u64_from_le_bytes(&b[56..64]);
        if stored_h != h {
            let mut t = String::from_str("header checksum mismatch (stored ");
            push_hex(&mut t, stored_h);
            t.append(", computed ");
            push_hex(&mut t, h);
            t.append(")");
            return Err(LoomError::BadSuperblock(t));
        }
        let sb = Superblock {
            block_size: u32_from_le_bytes(&b[12..16]),
            capacity: u64_from_le_bytes(&b[16..24]),
            default_budget: u64_from_le_bytes(&b[24..32]),
            nblocks: u64_from_le_bytes(&b[32..40]),
            checksum_table_len: u64_from_le_bytes(&b[40..48]),
            data_off: u64_from_le_bytes(&b[48..56]),
        };
        // Recompute derived fields and demand agreement.
        match Superblock::new(sb.block_size, sb.capacity, sb.default_budget) {
            Err(e) => Err(LoomError::BadSuperblock(e.message())),
            Ok(expect) => {
                if expect != sb {
                    let mut t = String::from_str("derived fields disagree: stored ");
                    sb.push_text(&mut t);
                    t.append(", recomputed ");
                    expect.push_text(&mut t);
                    return Err(LoomError::BadSuperblock(t));
                }
                Ok(sb)
            },
        }
    }

    /// Read a superblock back.
    pub fn decode(b: &[u8]) -> (r: Result<Self, LoomError>)
        ensures
            match r {
                Ok(sb) => read_header(b@) == Header::Valid(sb) && sb.wf(),
                Err(e) => header_error(b@, xxh3_64_of(b@.subrange(0, 56)), e),
            },
    {
        if b.len() < 56 {
            return Self::decode_hashed(b, 0);
        }
        let h: u64 = xxhash_rust::xxh3::xxh3_64(&b[0..56]);
        Self::decode_hashed(b, h)
    }
}

/// The fields take 56 bytes, the whole superblock one I/O unit.
pub proof fn lemma_header_len(sb: Superblock)
    ensures
        header_fields(sb).len() == 56,
        superblock_bytes(sb).len() == SUPERBLOCK_LEN,
{
    lemma_auto_spec_u64_to_from_le_bytes();
    lemma_auto_spec_u32_to_from_le_bytes();
    let h = xxh3_64_of(header_fields(sb));
    assert(spec_u64_to_le_bytes(h).len() == 8);
    assert(spec_u32_to_le_bytes(FORMAT_VERSION).len() == 4);
    assert(spec_u32_to_le_bytes(sb.block_size).len() == 4);
    assert(spec_u64_to_le_bytes(sb.capacity).len() == 8);
    assert(spec_u64_to_le_bytes(sb.default_budget).len() == 8);
    assert(spec_u64_to_le_bytes(sb.nblocks).len() == 8);
    assert(spec_u64_to_le_bytes(sb.checksum_table_len).len() == 8);
    assert(spec_u64_to_le_bytes(sb.data_off).len() == 8);
}

/// Decoding an encoded superblock gives it back.
pub proof fn law_superblock_roundtrip(sb: Superblock)
    requires
        sb.wf(),
    ensures
        read_header(superblock_bytes(sb)) == Header::Valid(sb),
{
    lemma_header_len(sb);
    lemma_auto_spec_u64_to_from_le_bytes();
    lemma_auto_spec_u32_to_from_le_bytes();
    let b = superblock_bytes(sb);
    let h = xxh3_64_of(header_fields(sb));
    assert(b.subrange(0, 56) =~= header_fields(sb));
    assert(b.subrange(0, 8) =~= MAGIC@);
    assert(b.subrange(8, 12) =~= spec_u32_to_le_bytes(FORMAT_VERSION));
    assert(b.subrange(12, 16) =~= spec_u32_to_le_bytes(sb.block_size));
    assert(b.subrange(16, 24) =~= spec_u64_to_le_bytes(sb.capacity));
    assert(b.subrange(24, 32) =~= spec_u64_to_le_bytes(sb.default_budget));
    assert(b.subrange(32, 40) =~= spec_u64_to_le_bytes(sb.nblocks));
    assert(b.subrange(40, 48) =~= spec_u64_to_le_bytes(sb.checksum_table_len));
    assert(b.subrange(48, 56) =~= spec_u64_to_le_bytes(sb.data_off));
    assert(b.subrange(56, 64) =~= spec_u64_to_le_bytes(h));
    assert(stored_fields(b) == sb);
}

// ---- region table -------------------------------------------------------

/// Words of the region table: the count, then offset and length of each
/// region, then zeros.
pub open spec fn region_words(regions: Seq<(u64, u64)>) -> Seq<u64> {
    Seq::new(
        8192,
        |i: int|
            if i == 0 {
                regions.len() as u64
            } else if i > 2 * regions.len() {
                0
            } else if i % 2 == 1 {
                regions[(i - 1) / 2].0
            } else {
                regions[(i - 1) / 2].1
            },
    )
}

/// The region table's bytes.
pub open spec fn region_table(regions: Seq<(u64, u64)>) -> Seq<u8> {
    bytes_of(region_words(regions))
}

/// How many regions a table claims.
pub open spec fn claimed_regions(b: Seq<u8>) -> u64 {
    word_at(b, 0)
}

/// The regions of a table.
pub open spec fn listed_regions(b: Seq<u8>) -> Seq<(u64, u64)> {
    Seq::new(
        claimed_regions(b) as nat,
        |i: int| (word_at(b, 1 + 2 * i), word_at(b, 2 + 2 * i)),
    )
}

/// Region table codec. Regions are (offset, len) in arena bytes, appended
/// in allocation order; regions are never freed.
pub fn encode_regions(regions: &[(u64, u64)]) -> (r: Result<AlignedBuf, LoomError>)
    ensures
        match r {
            Ok(b) => regions@.len() <= MAX_REGIONS && b@ == region_table(regions@) && b@.len()
                == REGION_TABLE_LEN,
            Err(e) => {
                &&& regions@.len() > MAX_REGIONS
                &&& e matches LoomError::RegionTableFull { max }
                &&& max == MAX_REGIONS
            },
        },
{
    if regions.len() > MAX_REGIONS {
        return Err(LoomError::RegionTableFull { max: MAX_REGIONS });
    }
    let n: usize = regions.len();
    let mut w: Vec<u64> = vec![0u64; 8192];
    w[0] = n as u64;
    let mut i: usize = 0;
    while i < n
        invariant
            n == regions@.len(),
            n <= MAX_REGIONS,
            i <= n,
            w@.len() == 8192,
            forall|k: int| 0 <= k < 8192 ==> #[trigger] w@[k] == (if k <= 2 * i {
                region_words(regions@)[k]
            } else {
                0
            }),
        decreases n - i,
    {
        let (off, len) = regions[i];
        w[1 + 2 * i] = off;
        w[2 + 2 * i] = len;
        i = i + 1;
    }
    assert(w@ =~= region_words(regions@));
    Ok(words_to_buf(w.as_slice()))
}

/// Read a region table back.
pub fn decode_regions(b: &[u8]) -> (r: Result<Vec<(u64, u64)>, LoomError>)
    requires
        b@.len() >= 8,
        claimed_regions(b@) <= MAX_REGIONS ==> b@.len() >= 8 + 16 * claimed_regions(b@),
    ensures
        match r {
            Ok(v) => claimed_regions(b@) <= MAX_REGIONS && v@ == listed_regions(b@),
            Err(e) => {
                &&& claimed_regions(b@) > MAX_REGIONS
                &&& e matches LoomError::BadSuperblock(t)
                &&& t@ == "region table claims "@ + dec(claimed_regions(b@) as nat)
                    + " regions (max "@ + dec(MAX_REGIONS as nat) + ")"@
            },
        },
{
    let claimed: u64 = get_word(b, 0);
    if claimed > MAX_REGIONS as u64 {
        let mut t = String::from_str("region table claims ");
        push_dec(&mut t, claimed);
        t.append(" regions (max ");
        push_dec(&mut t, MAX_REGIONS as u64);
        t.append(")");
        return Err(LoomError::BadSuperblock(t));
    }
    let n: usize = claimed as usize;
    let mut v: Vec<(u64, u64)> = Vec::with_capacity(n);
    let mut i: usize = 0;
    while i < n
        invariant
            n == claimed_regions(b@),
            n <= MAX_REGIONS,
            b@.len() >= 8 + 16 * n,
            i <= n,
            v@ == listed_regions(b@).take(i as int),
        decreases n - i,
    {
        let off: u64 = get_word(b, 1 + 2 * i);
        let len: u64 = get_word(b, 2 + 2 * i);
        v.push((off, len));
        i = i + 1;
        assert(v@ =~= listed_regions(b@).take(i as int));
    }
    assert(listed_regions(b@).take(n as int) =~= listed_regions(b@));
    Ok(v)
}

/// Decoding an encoded region table gives the regions back.
pub proof fn law_regions_roundtrip(regions: Seq<(u64, u64)>)
    requires
        regions.len() <= MAX_REGIONS,
    ensures
        claimed_regions(region_table(regions)) == regions.len(),
        listed_regions(region_table(regions)) == regions,
        region_table(regions).len() == REGION_TABLE_LEN,
{
    let w = region_words(regions);
    let b = region_table(regions);
    lemma_word_of_bytes(w, 0);
    assert forall|i: int| 0 <= i < regions.len() implies listed_regions(b)[i] == regions[i] by {
        lemma_word_of_bytes(w, 1 + 2 * i);
        lemma_word_of_bytes(w, 2 + 2 * i);
    }
    assert(listed_regions(b) =~= regions);
}

// ---- the layout of a pool -----------------------------------------------

/// Where everything is in a superblock: the magic, the version, six fields and
/// their checksum, little-endian, one behind the other, then zeros.
pub proof fn law_superblock_layout(sb: Superblock, h: u64)
    ensures
        ({
            let b = header_bytes(sb, h);
            &&& b.len() == 4096
            &&& b.subrange(0, 8) == seq![0x4cu8, 0x4f, 0x4f, 0x4d, 0x50, 0x4f, 0x4f, 0x4c]
            &&& spec_u32_from_le_bytes(b.subrange(8, 12)) == 1
            &&& spec_u32_from_le_bytes(b.subrange(12, 16)) == sb.block_size
            &&& spec_u64_from_le_bytes(b.subrange(16, 24)) == sb.capacity
            &&& spec_u64_from_le_bytes(b.subrange(24, 32)) == sb.default_budget
            &&& spec_u64_from_le_bytes(b.subrange(32, 40)) == sb.nblocks
            &&& spec_u64_from_le_bytes(b.subrange(40, 48)) == sb.checksum_table_len
            &&& spec_u64_from_le_bytes(b.subrange(48, 56)) == sb.data_off
            &&& spec_u64_from_le_bytes(b.subrange(56, 64)) == h
            &&& forall|i: int| 64 <= i < 4096 ==> #[trigger] b[i] == 0
            &&& superblock_bytes(sb) == header_bytes(
                sb,
                xxh3_64_of(superblock_bytes(sb).subrange(0, 56)),
            )
        }),
{
    lemma_header_len(sb);
    lemma_auto_spec_u64_to_from_le_bytes();
    lemma_auto_spec_u32_to_from_le_bytes();
    let b = header_bytes(sb, h);
    assert(MAGIC@ =~= seq![0x4cu8, 0x4f, 0x4f, 0x4d, 0x50, 0x4f, 0x4f, 0x4c]);
    assert(b.subrange(0, 8) =~= MAGIC@);
    assert(b.subrange(8, 12) =~= spec_u32_to_le_bytes(FORMAT_VERSION));
    assert(b.subrange(12, 16) =~= spec_u32_to_le_bytes(sb.block_size));
    assert(b.subrange(16, 24) =~= spec_u64_to_le_bytes(sb.capacity));
    assert(b.subrange(24, 32) =~= spec_u64_to_le_bytes(sb.default_budget));
    assert(b.subrange(32, 40) =~= spec_u64_to_le_bytes(sb.nblocks));
    assert(b.subrange(40, 48) =~= spec_u64_to_le_bytes(sb.checksum_table_len));
    assert(b.subrange(48, 56) =~= spec_u64_to_le_bytes(sb.data_off));
    assert(b.subrange(56, 64) =~= spec_u64_to_le_bytes(h));
    assert(superblock_bytes(sb).subrange(0, 56) =~= header_fields(sb));
}

/// A header that is taken for a pool's has the magic, this version, the
/// checksum of its own fields, a block size the I/O can serve, a capacity of
/// whole blocks, and room for a checksum per block before the data.
pub proof fn law_a_header_is_examined_whole(b: Seq<u8>, h: u64)
    requires
        examine(b, h) is Valid,
    ensures
        ({
            let sb = examine(b, h)->Valid_0;
            &&& b.len() >= 64
            &&& b.subrange(0, 8) == seq![0x4cu8, 0x4f, 0x4f, 0x4d, 0x50, 0x4f, 0x4f, 0x4c]
            &&& spec_u32_from_le_bytes(b.subrange(8, 12)) == 1
            &&& spec_u64_from_le_bytes(b.subrange(56, 64)) == h
            &&& spec_u32_from_le_bytes(b.subrange(12, 16)) == sb.block_size
            &&& spec_u64_from_le_bytes(b.subrange(16, 24)) == sb.capacity
            &&& spec_u64_from_le_bytes(b.subrange(24, 32)) == sb.default_budget
            &&& sb.block_size >= 4096
            &&& sb.block_size % 4096 == 0
            &&& sb.capacity > 0
            &&& sb.nblocks * sb.block_size == sb.capacity
            &&& sb.checksum_table_len >= 8 * sb.nblocks
            &&& sb.checksum_table_len < 8 * sb.nblocks + 4096
            &&& sb.checksum_table_len % 4096 == 0
            &&& sb.data_off == 69632 + sb.checksum_table_len
        }),
{
    let sb = stored_fields(b);
    assert(MAGIC@ =~= seq![0x4cu8, 0x4f, 0x4f, 0x4d, 0x50, 0x4f, 0x4f, 0x4c]);
    lemma_geometry(sb.block_size, sb.capacity, sb.default_budget);
}

/// The blocks lie behind the tables, one behind the other without a gap, up to
/// the end of the file.
pub proof fn law_blocks_fill_the_file(sb: Superblock, b: int)
    requires
        sb.wf(),
        0 <= b < sb.nblocks,
    ensures
        sb.block_start(0) == 69632 + sb.checksum_table_len,
        sb.block_start(b + 1) == sb.block_start(b) + sb.block_size,
        sb.block_start(sb.nblocks as int) == sb.file_end(),
        sb.file_end() == sb.block_start(0) + sb.capacity,
        sb.block_start(b) % 4096 == 0,
{
    lemma_geometry(sb.block_size, sb.capacity, sb.default_budget);
    let bs = sb.block_size as int;
    assert((b + 1) * bs == b * bs + bs) by (nonlinear_arith);
    assert(0 * bs == 0);
    let k = bs / 4096;
    assert(bs == 4096 * k);
    assert(b * bs == (b * k) * 4096) by (nonlinear_arith)
        requires
            bs == 4096 * k,
    ;
}

/// Where everything is in a region table: how many regions there are, then the
/// offset and the length of each, in order.
pub proof fn law_region_table_layout(regions: Seq<(u64, u64)>, i: int)
    requires
        regions.len() <= MAX_REGIONS,
        0 <= i < regions.len(),
    ensures
        ({
            let t = region_table(regions);
            &&& t.len() == 65536
            &&& word_at(t, 0) == regions.len()
            &&& word_at(t, 1 + 2 * i) == regions[i].0
            &&& word_at(t, 2 + 2 * i) == regions[i].1
        }),
{
    let w = region_words(regions);
    lemma_word_of_bytes(w, 0);
    lemma_word_of_bytes(w, 1 + 2 * i);
    lemma_word_of_bytes(w, 2 + 2 * i);
    assert((1 + 2 * i) % 2 == 1 && (1 + 2 * i - 1) / 2 == i);
    assert((2 + 2 * i) % 2 == 0 && (2 + 2 * i - 1) / 2 == i);
}

/// Headers are examined in order, each check only where those before it were
/// passed: the length, the magic, the version, the checksum, the geometry.
pub proof fn law_headers_are_examined_in_order(b: Seq<u8>, h: u64)
    ensures
        ({
            let magic = b.subrange(0, 8) == seq![0x4cu8, 0x4f, 0x4f, 0x4d, 0x50, 0x4f, 0x4f, 0x4c];
            let version = spec_u32_from_le_bytes(b.subrange(8, 12));
            let stored = spec_u64_from_le_bytes(b.subrange(56, 64));
            &&& examine(b, h) is Short <==> b.len() < 64
            &&& examine(b, h) is Magic <==> b.len() >= 64 && !magic
            &&& examine(b, h) is Version <==> b.len() >= 64 && magic && version != 1
            &&& examine(b, h) is Torn <==> b.len() >= 64 && magic && version == 1 && stored != h
        }),
{
    assert(MAGIC@ =~= seq![0x4cu8, 0x4f, 0x4f, 0x4d, 0x50, 0x4f, 0x4f, 0x4c]);
}

} // verus!
