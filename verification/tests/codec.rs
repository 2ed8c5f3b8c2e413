//! Superblock, tables, checksums, patterns and text.

use loom::aligned::{AlignedBuf, IO_ALIGN};
use loom::checksum::{avoid_sentinel, block_checksum, UNWRITTEN};
use loom::error::LoomError;
use loom::io::{Next, Outcome, Transfer};
use loom::pattern::{fill, fill_from, first_mismatch};
use loom::superblock::{decode_regions, encode_regions, round_up, Superblock, MAX_REGIONS};

#[test]
fn roundtrip() {
    let sb = Superblock::new(65536, 1 << 30, 64 << 20).unwrap();
    assert_eq!(sb.nblocks, 16384);
    assert_eq!(sb.checksum_table_len, 16384 * 8); // already 4K multiple
    let enc = sb.encode();
    let dec = Superblock::decode(&enc).unwrap();
    assert_eq!(sb, dec);
}

#[test]
fn rejects_bad_magic_version_and_torn_header() {
    let sb = Superblock::new(65536, 1 << 30, 0).unwrap();
    let mut enc = sb.encode();
    enc.as_mut_slice()[0] = b'X';
    assert!(matches!(
        Superblock::decode(&enc),
        Err(LoomError::BadMagic { .. })
    ));
    let mut enc = sb.encode();
    enc.as_mut_slice()[8] = 9;
    assert!(matches!(
        Superblock::decode(&enc),
        Err(LoomError::Version { .. })
    ));
    let mut enc = sb.encode();
    enc.as_mut_slice()[20] ^= 1; // capacity bit
    assert!(matches!(
        Superblock::decode(&enc),
        Err(LoomError::BadSuperblock(_))
    ));
}

#[test]
fn rejects_bad_geometry() {
    assert!(Superblock::new(4000, 1 << 30, 0).is_err());
    assert!(Superblock::new(65536, 65536 + 1, 0).is_err());
    assert!(Superblock::new(65536, 0, 0).is_err());
}

#[test]
fn regions_roundtrip() {
    let r = vec![(0u64, 100u64), (100, 4096), (4196, 1 << 40)];
    let enc = encode_regions(&r).unwrap();
    assert_eq!(decode_regions(&enc).unwrap(), r);
    assert_eq!(
        decode_regions(&encode_regions(&[]).unwrap()).unwrap(),
        vec![]
    );
}

#[test]
fn a_region_table_has_a_limit() {
    let r = vec![(0u64, 1u64); MAX_REGIONS];
    assert_eq!(decode_regions(&encode_regions(&r).unwrap()).unwrap(), r);
    let r = vec![(0u64, 1u64); MAX_REGIONS + 1];
    assert!(matches!(
        encode_regions(&r),
        Err(LoomError::RegionTableFull { max: 4095 })
    ));
}

#[test]
fn the_header_is_laid_out_as_documented() {
    let sb = Superblock::new(4096, 3 * 4096, 0x0102).unwrap();
    assert_eq!(sb.nblocks, 3);
    assert_eq!(sb.checksum_table_len, 4096);
    assert_eq!(sb.data_off, 69632 + 4096);
    assert_eq!(sb.file_len(), 69632 + 4096 + 3 * 4096);
    assert_eq!(sb.block_off(2), 69632 + 4096 + 2 * 4096);
    let b = sb.encode();
    assert_eq!(&b[0..8], b"LOOMPOOL");
    assert_eq!(&b[8..16], &[1, 0, 0, 0, 0, 16, 0, 0]);
    assert_eq!(&b[24..32], &[2, 1, 0, 0, 0, 0, 0, 0]);
    assert!(b[64..].iter().all(|&x| x == 0));
    assert_eq!(b.len(), 4096);
}

#[test]
fn a_header_is_examined_in_order() {
    let sb = Superblock::new(4096, 4096, 7).unwrap();
    match Superblock::decode(&[0u8; 10]) {
        Err(LoomError::BadSuperblock(t)) => assert_eq!(t, "buffer too short (10 bytes)"),
        other => panic!("{other:?}"),
    }
    match Superblock::decode(&[0u8; 60]) {
        Err(LoomError::BadSuperblock(t)) => assert_eq!(t, "buffer too short (60 bytes)"),
        other => panic!("{other:?}"),
    }
    // Given the checksum, the fields decide.
    let b = sb.encode_hashed(0x1234);
    assert_eq!(Superblock::decode_hashed(&b, 0x1234).unwrap(), sb);
    match Superblock::decode_hashed(&b, 0x99) {
        Err(LoomError::BadSuperblock(t)) => {
            assert_eq!(t, "header checksum mismatch (stored 0x1234, computed 0x99)")
        }
        other => panic!("{other:?}"),
    }
    let mut b = sb.encode_hashed(5);
    b.as_mut_slice()[12] = 1;
    match Superblock::decode_hashed(&b, 5) {
        Err(LoomError::BadSuperblock(t)) => assert_eq!(
            t,
            "invalid argument: block size 4097 must be a non-zero multiple of 4096"
        ),
        other => panic!("{other:?}"),
    }
    let mut b = sb.encode_hashed(5);
    b.as_mut_slice()[32] = 2;
    match Superblock::decode_hashed(&b, 5) {
        Err(LoomError::BadSuperblock(t)) => assert_eq!(
            t,
            format!(
                "derived fields disagree: stored {:?}, recomputed {:?}",
                Superblock {
                    nblocks: 2,
                    ..sb.clone()
                },
                sb
            )
        ),
        other => panic!("{other:?}"),
    }
}

#[test]
fn rounding_up() {
    assert_eq!(round_up(0, 4096), 0);
    assert_eq!(round_up(1, 4096), 4096);
    assert_eq!(round_up(4096, 4096), 4096);
    assert_eq!(round_up(4097, 4096), 8192);
}

#[test]
fn never_returns_sentinel() {
    // A zero-hash preimage is not easily found; assert the mapping logic
    // directly on a known non-zero input and on empty input.
    assert_ne!(block_checksum(&[]), UNWRITTEN);
    assert_ne!(block_checksum(&[0u8; 4096]), UNWRITTEN);
}

#[test]
fn the_sentinel_is_remapped() {
    assert_eq!(avoid_sentinel(0), 1);
    assert_eq!(avoid_sentinel(1), 1);
    assert_eq!(avoid_sentinel(77), 77);
    // XXH3 of nothing, without a seed.
    assert_eq!(block_checksum(&[]), 0x2D06_8005_38D3_94C2);
}

#[test]
fn detects_single_bit_flip() {
    let mut a = vec![7u8; 65536];
    let h1 = block_checksum(&a);
    a[12345] ^= 0x01;
    let h2 = block_checksum(&a);
    assert_ne!(h1, h2);
}

#[test]
fn deterministic_and_distinct() {
    let mut a = vec![0u8; 4096];
    let mut b = vec![0u8; 4096];
    fill(7, b'A', 42, &mut a);
    fill(7, b'A', 42, &mut b);
    assert_eq!(a, b);
    fill(7, b'B', 42, &mut b);
    assert_ne!(a, b);
    fill(7, b'A', 43, &mut b);
    assert_ne!(a, b);
    fill(8, b'A', 42, &mut b);
    assert_ne!(a, b);
}

#[test]
fn the_stream_is_xorshift_star() {
    let mut buf = vec![0u8; 19];
    fill_from(1, &mut buf);
    let mut x: u64 = 1;
    let mut want = Vec::new();
    for _ in 0..3 {
        x ^= x >> 12;
        x ^= x << 25;
        x ^= x >> 27;
        want.extend_from_slice(&x.wrapping_mul(0x2545_F491_4F6C_DD1D).to_le_bytes());
    }
    assert_eq!(buf, want[..19]);
    assert_eq!(&buf[..8], &0x47E4_CE4B_896C_DD1Du64.to_le_bytes());
    // A shorter buffer gets a prefix of what a longer one gets.
    let mut long = vec![0u8; 100];
    let mut short = vec![0u8; 33];
    fill(1, b'Z', 9, &mut long);
    fill(1, b'Z', 9, &mut short);
    assert_eq!(short, long[..33]);
}

#[test]
fn mismatch_position() {
    let a = [1u8, 2, 3, 4];
    let mut b = a;
    assert_eq!(first_mismatch(&a, &b), None);
    b[2] = 9;
    assert_eq!(first_mismatch(&a, &b), Some(2));
    assert_eq!(first_mismatch(&a, &b[..3]), Some(2));
    assert_eq!(first_mismatch(&a, &a[..3]), Some(3));
}

#[test]
fn aligned_and_zeroed() {
    let b = AlignedBuf::zeroed(IO_ALIGN * 3);
    assert!(b.iter().all(|&x| x == 0));
    assert_eq!(b.len(), IO_ALIGN * 3);
}

#[test]
fn buffers_are_writable() {
    let mut b = AlignedBuf::zeroed(IO_ALIGN);
    b.as_mut_slice()[5] = 9;
    assert_eq!(b.as_slice()[5], 9);
}

#[test]
fn errors_name_themselves() {
    let io = LoomError::Io {
        op: "open",
        ctx: String::from("pool"),
        source: std::io::Error::from(std::io::ErrorKind::NotFound),
    };
    assert!(io.message().starts_with("open(pool): "));
    assert!(io.message().len() > "open(pool): ".len());
    assert_eq!(io.message_with("gone"), "open(pool): gone");
    assert_eq!(
        LoomError::BadMagic {
            found: [1, 2, 3, 40, 5, 6, 7, 255]
        }
        .message(),
        "not a Loom pool (magic bytes [1, 2, 3, 40, 5, 6, 7, 255])"
    );
    assert_eq!(
        LoomError::Version {
            found: 9,
            supported: 1
        }
        .message(),
        "pool format version 9 not supported (this build supports 1)"
    );
    assert_eq!(
        LoomError::BadSuperblock(String::from("x")).message(),
        "bad superblock: x"
    );
    assert_eq!(
        LoomError::Corrupt {
            block: 2,
            expected: 0xAB,
            actual: u64::MAX
        }
        .message(),
        "block 2 corrupt: stored checksum 0x00000000000000ab, read back 0xffffffffffffffff"
    );
    assert_eq!(
        LoomError::Capacity {
            requested: 10,
            available: 3
        }
        .message(),
        "arena capacity exhausted: requested 10 bytes, 3 available"
    );
    assert_eq!(
        LoomError::OutOfBounds {
            region: 1,
            offset: 2,
            len: 3,
            region_len: 4
        }
        .message(),
        "region 1: access [2, 2+3) outside region of 4 bytes"
    );
    assert_eq!(
        LoomError::Invalid(String::from("y")).message(),
        "invalid argument: y"
    );
    assert_eq!(
        LoomError::RegionTableFull { max: 4095 }.message(),
        "region table full (4095 regions max in v0)"
    );
    assert_eq!(
        LoomError::Unsupported(String::from("z")).message(),
        "unsupported: z"
    );
}

#[test]
fn a_transfer_takes_as_many_calls_as_it_takes() {
    let mut t = Transfer::new(10);
    assert!(!t.is_complete());
    assert_eq!(t.advance(Outcome::Moved(4)), Next::Again);
    assert_eq!(t.advance(Outcome::Interrupted), Next::Again);
    assert_eq!(t.done, 4);
    assert_eq!(t.advance(Outcome::Moved(6)), Next::Complete);
    assert!(t.is_complete());
    let mut t = Transfer::new(10);
    assert_eq!(t.advance(Outcome::Moved(0)), Next::Stalled);
    assert_eq!(t.advance(Outcome::Failed), Next::Failed);
    assert_eq!(t.done, 0);
    assert!(Transfer::new(0).is_complete());
}
