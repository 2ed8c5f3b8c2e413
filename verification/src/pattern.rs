//! Deterministic block content for proofs and tests.
//!
//! `fill(seed, tag, block, buf)` produces the same bytes on every machine
//! and every run. Verification regenerates the pattern rather than keeping a
//! copy, so a proof over an 80 GiB region needs no 80 GiB of reference data
//! — which is also why the proof itself cannot accidentally hold the arena
//! in RAM.

use vstd::bytes::*;
use vstd::prelude::*;

verus! {

/// The XXH3 64-bit hash of `data` with a seed.
pub uninterp spec fn xxh3_64_seeded(data: Seq<u8>, seed: u64) -> u64;

/// `xxhash_rust::xxh3::xxh3_64_with_seed` returns the seeded XXH3 64-bit hash
/// of its input. The hash is a function of the input bytes and the seed
/// alone; which function is not stated.
pub assume_specification[ xxhash_rust::xxh3::xxh3_64_with_seed ](input: &[u8], seed: u64) -> (h: u64)
    ensures
        h == xxh3_64_seeded(input@, seed),
;

/// The multiplier of xorshift64*.
pub const STAR: u64 = 0x2545_F491_4F6C_DD1D;

/// The next state of the xorshift64* generator.
pub open spec fn scrambled(x: u64) -> u64 {
    let a = x ^ (x >> 12);
    let b = a ^ (a << 25);
    b ^ (b >> 27)
}

/// The generator's state after `k` steps from `x`.
pub open spec fn state_after(x: u64, k: nat) -> u64
    decreases k,
{
    if k == 0 {
        x
    } else {
        scrambled(state_after(x, (k - 1) as nat))
    }
}

/// What the generator gives out in a state.
pub open spec fn output_of(x: u64) -> u64 {
    ((x * STAR) % 0x1_0000_0000_0000_0000) as u64
}

/// Byte `i` of the stream that starts in state `x`: the outputs of the
/// successive states, little-endian.
pub open spec fn stream_byte(x: u64, i: int) -> u8 {
    spec_u64_to_le_bytes(output_of(state_after(x, (i / 8 + 1) as nat)))[i % 8]
}

/// The first `n` bytes of the stream.
pub open spec fn stream(x: u64, n: nat) -> Seq<u8> {
    Seq::new(n, |i: int| stream_byte(x, i))
}

/// What is hashed for a block: its number, little-endian, and the tag.
pub open spec fn pattern_key(tag: u8, block: u64) -> Seq<u8> {
    spec_u64_to_le_bytes(block).push(tag)
}

/// The state a block's stream starts in; never zero.
pub open spec fn pattern_start(seed: u64, tag: u8, block: u64) -> u64 {
    xxh3_64_seeded(pattern_key(tag, block), seed) | 1
}

/// One step of xorshift64*: advance the state, give out a number.
pub(crate) fn xorshift(state: &mut u64) -> (v: u64)
    ensures
        *final(state) == scrambled(*old(state)),
        v == output_of(scrambled(*old(state))),
{
    let mut x: u64 = *state;
    x = x ^ (x >> 12);
    x = x ^ (x << 25);
    x = x ^ (x >> 27);
    *state = x;
    x.wrapping_mul(STAR)
}

/// Fill a buffer from the stream that starts in state `x`.
pub fn fill_from(x: u64, buf: &mut [u8])
    ensures
        final(buf)@ == stream(x, old(buf)@.len()),
{
    let n: usize = buf.len();
    let mut state: u64 = x;
    let mut at: usize = 0;
    while at < n
        invariant
            at <= n,
            n == buf@.len(),
            n == old(buf)@.len(),
            at % 8 == 0 || at == n,
            at < n ==> state == state_after(x, (at / 8) as nat),
            forall|i: int| 0 <= i < at ==> buf@[i] == stream_byte(x, i),
        decreases n - at,
    {
        let v: u64 = xorshift(&mut state);
        let word = u64_to_le_bytes(v);
        assert(v == output_of(state_after(x, (at / 8 + 1) as nat)));
        let take: usize = if n - at < 8 {
            n - at
        } else {
            8
        };
        let mut j: usize = 0;
        while j < take
            invariant
                j <= take <= 8,
                at + take <= n,
                at % 8 == 0,
                n == buf@.len(),
                word@ == spec_u64_to_le_bytes(v),
                word@.len() == 8,
                v == output_of(state_after(x, (at / 8 + 1) as nat)),
                forall|i: int| 0 <= i < at + j ==> buf@[i] == stream_byte(x, i),
            decreases take - j,
        {
            buf[at + j] = word[j];
            assert((at + j) / 8 == at / 8 && (at + j) % 8 == j);
            j = j + 1;
        }
        at = at + take;
    }
    assert(buf@ =~= stream(x, old(buf)@.len()));
}

/// Fill a buffer with the pattern of a block: xorshift64* seeded from
/// (seed, tag, block).
pub fn fill(seed: u64, tag: u8, block: u64, buf: &mut [u8])
    ensures
        final(buf)@ == stream(pattern_start(seed, tag, block), old(buf)@.len()),
{
    let mut key: Vec<u8> = u64_to_le_bytes(block);
    key.push(tag);
    let x: u64 = xxhash_rust::xxh3::xxh3_64_with_seed(key.as_slice(), seed) | 1;
    fill_from(x, buf);
}

/// A shorter buffer gets a prefix of what a longer one gets.
pub proof fn law_pattern_prefix(seed: u64, tag: u8, block: u64, short: nat, long: nat)
    requires
        short <= long,
    ensures
        stream(pattern_start(seed, tag, block), short) == stream(
            pattern_start(seed, tag, block),
            long,
        ).take(short as int),
{
    let x = pattern_start(seed, tag, block);
    assert(stream(x, short) =~= stream(x, long).take(short as int));
}

/// `p` is where the two sequences first differ: at an unequal byte, or where
/// the shorter one ends.
pub open spec fn differ_first_at(a: Seq<u8>, b: Seq<u8>, p: int) -> bool {
    &&& 0 <= p <= a.len()
    &&& p <= b.len()
    &&& forall|i: int| 0 <= i < p ==> a[i] == b[i]
    &&& if p < a.len() && p < b.len() {
        a[p] != b[p]
    } else {
        a.len() != b.len()
    }
}

/// Byte offset of the first mismatch, if any.
pub fn first_mismatch(expected: &[u8], actual: &[u8]) -> (r: Option<usize>)
    ensures
        match r {
            Some(p) => differ_first_at(expected@, actual@, p as int),
            None => expected@ == actual@,
        },
{
    let n: usize = if expected.len() < actual.len() {
        expected.len()
    } else {
        actual.len()
    };
    let mut i: usize = 0;
    while i < n
        invariant
            i <= n,
            n <= expected@.len(),
            n <= actual@.len(),
            forall|j: int| 0 <= j < i ==> expected@[j] == actual@[j],
        decreases n - i,
    {
        if expected[i] != actual[i] {
            return Some(i);
        }
        i = i + 1;
    }
    if expected.len() != actual.len() {
        Some(n)
    } else {
        assert(expected@ =~= actual@);
        None
    }
}

/// The state before a step.
pub open spec fn unscrambled(y: u64) -> u64 {
    let b = y ^ (y >> 27) ^ (y >> 54);
    let a = b ^ (b << 25) ^ (b << 50);
    a ^ (a >> 12) ^ (a >> 24) ^ (a >> 36) ^ (a >> 48) ^ (a >> 60)
}

/// A step can be undone, so the generator never runs two states together; and
/// it never leaves the states that are not zero.
pub proof fn law_a_step_can_be_undone(x: u64)
    ensures
        unscrambled(scrambled(x)) == x,
        x != 0 ==> scrambled(x) != 0,
{
    let a = x ^ (x >> 12);
    let b = a ^ (a << 25);
    let y = b ^ (b >> 27);
    assert(y ^ (y >> 27) ^ (y >> 54) == b) by (bit_vector)
        requires
            y == b ^ (b >> 27),
    ;
    assert(b ^ (b << 25) ^ (b << 50) == a) by (bit_vector)
        requires
            b == a ^ (a << 25),
    ;
    assert(a ^ (a >> 12) ^ (a >> 24) ^ (a >> 36) ^ (a >> 48) ^ (a >> 60) == x) by (bit_vector)
        requires
            a == x ^ (x >> 12),
    ;
    assert(0u64 ^ (0u64 >> 27) ^ (0u64 >> 54) == 0 && 0u64 ^ (0u64 << 25) ^ (0u64 << 50) == 0
        && 0u64 ^ (0u64 >> 12) ^ (0u64 >> 24) ^ (0u64 >> 36) ^ (0u64 >> 48) ^ (0u64 >> 60) == 0)
        by (bit_vector);
}

/// What a generator gives out tells its state: the multiplier has an inverse.
pub proof fn law_outputs_tell_states_apart(x: u64)
    ensures
        (output_of(x) * 0x5907_1D96_D81E_CD35) % 0x1_0000_0000_0000_0000 == x,
{
    let m = 0x1_0000_0000_0000_0000int;
    let s = STAR as int;
    let v = 0x5907_1D96_D81E_CD35int;
    assert(0x2545_F491_4F6C_DD1Dint * v == 1 + 934034299265436267int * m);
    let y = x * s;
    vstd::arithmetic::div_mod::lemma_mul_mod_noop_left(y, v, m);
    vstd::arithmetic::mul::lemma_mul_is_associative(x as int, s, v);
    assert(x * (s * v) == x + (x * 934034299265436267int) * m) by (nonlinear_arith)
        requires
            s * v == 1 + 934034299265436267int * m,
    ;
    vstd::arithmetic::div_mod::lemma_mod_multiples_vanish(x * 934034299265436267int, x as int, m);
    vstd::arithmetic::mul::lemma_mul_is_commutative(x * 934034299265436267int, m);
    vstd::arithmetic::div_mod::lemma_small_mod(x as nat, m as nat);
    vstd::arithmetic::div_mod::lemma_mod_bound(y, m);
}

/// A stream is the outputs of the states after the first, one after another,
/// eight bytes each, little-endian: its words give the states back.
pub proof fn law_streams_are_made_of_outputs(x: u64, n: nat, k: int)
    requires
        0 <= k,
        8 * k + 8 <= n,
    ensures
        spec_u64_from_le_bytes(stream(x, n).subrange(8 * k, 8 * k + 8)) == output_of(
            state_after(x, (k + 1) as nat),
        ),
        state_after(x, (k + 1) as nat) == scrambled(state_after(x, k as nat)),
        state_after(x, 0) == x,
{
    lemma_auto_spec_u64_to_from_le_bytes();
    let v = output_of(state_after(x, (k + 1) as nat));
    assert(stream(x, n).subrange(8 * k, 8 * k + 8) =~= spec_u64_to_le_bytes(v)) by {
        assert forall|i: int| 0 <= i < 8 implies stream(x, n).subrange(8 * k, 8 * k + 8)[i]
            == #[trigger] spec_u64_to_le_bytes(v)[i] by {
            assert((8 * k + i) / 8 == k && (8 * k + i) % 8 == i);
        }
    }
}

/// No two blocks, and no two tags, are hashed as the same bytes.
pub proof fn law_every_block_has_its_own_key(t: u8, b: u64, u: u8, c: u64)
    ensures
        pattern_key(t, b) == pattern_key(u, c) ==> t == u && b == c,
        pattern_key(t, b).len() == 9,
        pattern_key(t, b)[8] == t,
        spec_u64_from_le_bytes(pattern_key(t, b).take(8)) == b,
{
    lemma_auto_spec_u64_to_from_le_bytes();
    assert(pattern_key(t, b).take(8) =~= spec_u64_to_le_bytes(b));
    assert(pattern_key(u, c).take(8) =~= spec_u64_to_le_bytes(c));
    assert(pattern_key(u, c)[8] == u);
}

/// There is only one place where two sequences first differ, and there is none
/// if they are the same.
pub proof fn law_the_first_difference_is_one(a: Seq<u8>, b: Seq<u8>, p: int, q: int)
    requires
        differ_first_at(a, b, p),
    ensures
        a != b,
        a.take(p) == b.take(p),
        differ_first_at(a, b, q) ==> p == q,
{
    assert(a.take(p) =~= b.take(p));
    if differ_first_at(a, b, q) {
        if p < q {
            assert(a[p] == b[p]);
        } else if q < p {
            assert(a[q] == b[q]);
        }
    }
}

} // verus!
