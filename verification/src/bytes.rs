//! Byte ranges: overlaying one on another, copying and filling.

use vstd::prelude::*;

verus! {

/// `base` with the bytes from `at` on replaced by `patch`.
pub open spec fn overlay(base: Seq<u8>, at: int, patch: Seq<u8>) -> Seq<u8> {
    Seq::new(
        base.len(),
        |i: int|
            if at <= i < at + patch.len() {
                patch[i - at]
            } else {
                base[i]
            },
    )
}

/// `n` copies of `byte`.
pub open spec fn repeated(byte: u8, n: nat) -> Seq<u8> {
    Seq::new(n, |i: int| byte)
}

/// The `n` bytes from `at` on, writable.
pub(crate) fn window_mut(s: &mut [u8], at: usize, n: usize) -> (w: &mut [u8])
    requires
        at + n <= old(s)@.len(),
    ensures
        w@ == old(s)@.subrange(at as int, at + n),
        final(w)@.len() == n ==> final(s)@ == overlay(old(s)@, at as int, final(w)@),
{
    proof {
        assert forall|m: Seq<u8>| m.len() == n implies #[trigger] overlay(s@, at as int, m)
            =~= s@.subrange(0, at as int) + (m + s@.subrange(at as int, s@.len() as int).subrange(
            n as int,
            s@.len() - at,
        )) by {}
    }
    let (_before, rest) = s.split_at_mut(at);
    let (mine, _after) = rest.split_at_mut(n);
    mine
}

/// Set every byte of a slice.
pub(crate) fn fill(s: &mut [u8], byte: u8)
    ensures
        final(s)@ == repeated(byte, old(s)@.len()),
{
    let n: usize = s.len();
    let mut i: usize = 0;
    while i < n
        invariant
            n == s@.len(),
            n == old(s)@.len(),
            i <= n,
            forall|j: int| 0 <= j < i ==> s@[j] == byte,
        decreases n - i,
    {
        s[i] = byte;
        i = i + 1;
    }
    assert(s@ =~= repeated(byte, old(s)@.len()));
}

/// Copy `src` over the bytes of `dst` from `at` on.
pub(crate) fn copy_into(dst: &mut [u8], at: usize, src: &[u8])
    requires
        at + src@.len() <= old(dst)@.len(),
    ensures
        final(dst)@ == overlay(old(dst)@, at as int, src@),
{
    let n: usize = src.len();
    let total: usize = dst.len();
    let mut i: usize = 0;
    while i < n
        invariant
            n == src@.len(),
            at + n <= total,
            dst@.len() == total,
            total == old(dst)@.len(),
            i <= n,
            dst@ == overlay(old(dst)@, at as int, src@.take(i as int)),
        decreases n - i,
    {
        dst[at + i] = src[i];
        i = i + 1;
        assert(dst@ =~= overlay(old(dst)@, at as int, src@.take(i as int)));
    }
    assert(src@.take(n as int) =~= src@);
}

/// Overlaying puts the patch where it belongs and leaves the rest: the length
/// is kept, the patch reads back, and every other byte is what it was.
pub proof fn law_overlay_is_local(base: Seq<u8>, at: int, patch: Seq<u8>, i: int)
    requires
        0 <= at,
        at + patch.len() <= base.len(),
        0 <= i < base.len(),
    ensures
        overlay(base, at, patch).len() == base.len(),
        overlay(base, at, patch).subrange(at, at + patch.len()) == patch,
        !(at <= i < at + patch.len()) ==> overlay(base, at, patch)[i] == base[i],
        overlay(base, at, base.subrange(at, at + patch.len())) == base,
{
    assert(overlay(base, at, patch).subrange(at, at + patch.len()) =~= patch);
    assert(overlay(base, at, base.subrange(at, at + patch.len())) =~= base);
}

} // verus!
