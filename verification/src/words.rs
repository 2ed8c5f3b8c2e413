//! Little-endian words.
//!
//! The tables of a pool file are arrays of 64-bit little-endian words.

use crate::aligned::{AlignedBuf, IO_ALIGN};
use crate::bytes::copy_into;
#[allow(unused_imports)]
use crate::bytes::repeated;
use vstd::bytes::*;
use vstd::prelude::*;

verus! {

/// Word `i` of a byte sequence.
pub open spec fn word_at(b: Seq<u8>, i: int) -> u64 {
    spec_u64_from_le_bytes(b.subrange(8 * i, 8 * i + 8))
}

/// The words of a byte sequence.
pub open spec fn words_of(b: Seq<u8>) -> Seq<u64> {
    Seq::new(b.len() / 8, |i: int| word_at(b, i))
}

/// The bytes of a word sequence.
pub open spec fn bytes_of(w: Seq<u64>) -> Seq<u8> {
    Seq::new(8 * w.len(), |k: int| spec_u64_to_le_bytes(w[k / 8])[k % 8])
}

/// Word `i` of the bytes of `w` is `w[i]`, and its bytes are the little-endian
/// ones.
pub proof fn lemma_word_of_bytes(w: Seq<u64>, i: int)
    requires
        0 <= i < w.len(),
    ensures
        bytes_of(w).subrange(8 * i, 8 * i + 8) == spec_u64_to_le_bytes(w[i]),
        word_at(bytes_of(w), i) == w[i],
{
    lemma_auto_spec_u64_to_from_le_bytes();
    assert(spec_u64_to_le_bytes(w[i]).len() == 8);
    assert(bytes_of(w).subrange(8 * i, 8 * i + 8) =~= spec_u64_to_le_bytes(w[i])) by {
        assert forall|k: int| 0 <= k < 8 implies bytes_of(w)[8 * i + k] == spec_u64_to_le_bytes(
            w[i],
        )[k] by {
            assert((8 * i + k) / 8 == i && (8 * i + k) % 8 == k);
        }
    }
}

/// Decoding the bytes of a word sequence gives the words back.
pub proof fn law_words_roundtrip(w: Seq<u64>)
    ensures
        words_of(bytes_of(w)) == w,
{
    assert(words_of(bytes_of(w)) =~= w) by {
        assert forall|i: int| 0 <= i < w.len() implies word_at(bytes_of(w), i) == w[i] by {
            lemma_word_of_bytes(w, i);
        }
    }
}

/// Encoding the words of whole words' worth of bytes gives the bytes back.
pub proof fn law_bytes_roundtrip(b: Seq<u8>)
    requires
        b.len() % 8 == 0,
    ensures
        bytes_of(words_of(b)) == b,
{
    lemma_auto_spec_u64_to_from_le_bytes();
    assert(bytes_of(words_of(b)) =~= b) by {
        assert forall|k: int| 0 <= k < b.len() implies bytes_of(words_of(b))[k] == b[k] by {
            let i = k / 8;
            let s = b.subrange(8 * i, 8 * i + 8);
            assert(spec_u64_to_le_bytes(spec_u64_from_le_bytes(s)) == s);
            assert(s[k % 8] == b[k]);
        }
    }
}

/// Zero words are zero bytes.
pub proof fn lemma_zero_words(n: nat)
    ensures
        bytes_of(Seq::new(n, |i: int| 0u64)) == repeated(0, 8 * n),
        words_of(repeated(0, 8 * n)) == Seq::new(n, |i: int| 0u64),
{
    let w = Seq::new(n, |i: int| 0u64);
    spec_u64_to_le_bytes_to_open(0);
    assert(0u64 & 0xff == 0 && (0u64 >> 8) & 0xff == 0 && (0u64 >> 16) & 0xff == 0 && (0u64 >> 24)
        & 0xff == 0 && (0u64 >> 32) & 0xff == 0 && (0u64 >> 40) & 0xff == 0 && (0u64 >> 48) & 0xff
        == 0 && (0u64 >> 56) & 0xff == 0) by (bit_vector);
    assert(spec_u64_to_le_bytes(0) =~= repeated(0, 8));
    assert(bytes_of(w) =~= repeated(0, 8 * n));
    law_words_roundtrip(w);
}

/// Read word `i`.
pub(crate) fn get_word(b: &[u8], i: usize) -> (v: u64)
    requires
        8 * i + 8 <= b@.len(),
    ensures
        v == word_at(b@, i as int),
{
    let total: usize = b.len();
    u64_from_le_bytes(&b[8 * i..8 * i + 8])
}

/// Decode a table of words.
pub(crate) fn words_from_bytes(b: &[u8]) -> (w: Vec<u64>)
    ensures
        w@ == words_of(b@),
{
    let n: usize = b.len() / 8;
    let mut w: Vec<u64> = Vec::with_capacity(n);
    let mut i: usize = 0;
    while i < n
        invariant
            i <= n,
            n == b@.len() / 8,
            w@ == words_of(b@).take(i as int),
        decreases n - i,
    {
        w.push(get_word(b, i));
        i = i + 1;
        assert(w@ =~= words_of(b@).take(i as int));
    }
    assert(words_of(b@).take(n as int) =~= words_of(b@));
    w
}

/// Encode a table of words.
pub(crate) fn words_to_buf(w: &[u64]) -> (b: AlignedBuf)
    requires
        w@.len() > 0,
        (8 * w@.len()) % (IO_ALIGN as nat) == 0,
        8 * w@.len() <= isize::MAX,
    ensures
        b@ == bytes_of(w@),
{
    let n: usize = w.len();
    let mut b = AlignedBuf::zeroed(8 * n);
    let mut i: usize = 0;
    while i < n
        invariant
            n == w@.len(),
            8 * n <= isize::MAX,
            i <= n,
            b@.len() == 8 * n,
            forall|k: int| 0 <= k < 8 * i ==> #[trigger] b@[k] == bytes_of(w@)[k],
        decreases n - i,
    {
        let ghost before = b@;
        let bytes = u64_to_le_bytes(w[i]);
        copy_into(b.as_mut_slice(), 8 * i, bytes.as_slice());
        proof {
            lemma_word_of_bytes(w@, i as int);
            let le = spec_u64_to_le_bytes(w@[i as int]);
            assert forall|k: int| 0 <= k < 8 * (i + 1) implies #[trigger] b@[k] == bytes_of(w@)[k] by {
                if k >= 8 * i {
                    assert(b@[k] == le[k - 8 * i]);
                    assert(bytes_of(w@).subrange(8 * i, 8 * i + 8)[k - 8 * i] == bytes_of(w@)[k]);
                }
            }
        }
        i = i + 1;
    }
    assert(b@ =~= bytes_of(w@));
    b
}

} // verus!
