//! Numbers as text.
//!
//! Error messages quote offsets, lengths and checksums. These functions
//! append them to a string in the notations the messages use: decimal,
//! hexadecimal, hexadecimal padded to sixteen digits, and a bracketed list
//! of bytes.

use vstd::prelude::*;
use vstd::string::*;

verus! {

/// The digit `d`, below sixteen.
pub open spec fn digit(d: nat) -> char {
    if d < 10 {
        (d + 48) as char
    } else {
        (d + 87) as char
    }
}

/// `n` written in the given base, without leading zeros.
pub open spec fn numeral(n: nat, base: nat) -> Seq<char>
    decreases n,
{
    if n < base || base < 2 {
        seq![digit(n)]
    } else {
        proof {
            vstd::arithmetic::div_mod::lemma_div_decreases(n as int, base as int);
        }
        numeral(n / base, base).push(digit(n % base))
    }
}

/// `n` in decimal.
pub open spec fn dec(n: nat) -> Seq<char> {
    numeral(n, 10)
}

/// `n` in hexadecimal, prefixed.
pub open spec fn hex(n: nat) -> Seq<char> {
    "0x"@ + numeral(n, 16)
}

/// The last `width` hexadecimal digits of `n`.
pub open spec fn hex_digits(n: nat, width: nat) -> Seq<char>
    decreases width,
{
    if width == 0 {
        Seq::empty()
    } else {
        hex_digits(n / 16, (width - 1) as nat).push(digit(n % 16))
    }
}

/// `n` in hexadecimal, prefixed, padded with zeros to sixteen digits.
pub open spec fn hex_padded(n: nat) -> Seq<char> {
    "0x"@ + hex_digits(n, 16)
}

/// The bytes in decimal, separated by commas.
pub open spec fn comma_list(b: Seq<u8>) -> Seq<char>
    decreases b.len(),
{
    if b.len() == 0 {
        Seq::empty()
    } else if b.len() == 1 {
        dec(b[0] as nat)
    } else {
        comma_list(b.drop_last()) + ", "@ + dec(b.last() as nat)
    }
}

/// The bytes as a bracketed list.
pub open spec fn byte_list(b: Seq<u8>) -> Seq<char> {
    "["@ + comma_list(b) + "]"@
}

/// Append one digit.
fn push_digit(s: &mut String, d: u64)
    requires
        d < 16,
    ensures
        final(s)@ == old(s)@.push(digit(d as nat)),
{
    let t: &str = match d {
        0 => "0",
        1 => "1",
        2 => "2",
        3 => "3",
        4 => "4",
        5 => "5",
        6 => "6",
        7 => "7",
        8 => "8",
        9 => "9",
        10 => "a",
        11 => "b",
        12 => "c",
        13 => "d",
        14 => "e",
        _ => "f",
    };
    proof {
        reveal_strlit("0");
        reveal_strlit("1");
        reveal_strlit("2");
        reveal_strlit("3");
        reveal_strlit("4");
        reveal_strlit("5");
        reveal_strlit("6");
        reveal_strlit("7");
        reveal_strlit("8");
        reveal_strlit("9");
        reveal_strlit("a");
        reveal_strlit("b");
        reveal_strlit("c");
        reveal_strlit("d");
        reveal_strlit("e");
        reveal_strlit("f");
        assert(t@ =~= seq![digit(d as nat)]);
    }
    s.append(t);
    assert(s@ =~= old(s)@.push(digit(d as nat)));
}

/// Append `v` in the given base.
fn push_numeral(s: &mut String, v: u64, base: u64)
    requires
        2 <= base <= 16,
    ensures
        final(s)@ == old(s)@ + numeral(v as nat, base as nat),
    decreases v,
{
    proof {
        vstd::arithmetic::div_mod::lemma_mod_bound(v as int, base as int);
    }
    if v >= base {
        proof {
            vstd::arithmetic::div_mod::lemma_div_decreases(v as int, base as int);
        }
        push_numeral(s, v / base, base);
    } else {
        proof {
            vstd::arithmetic::div_mod::lemma_small_mod(v as nat, base as nat);
        }
    }
    push_digit(s, v % base);
    assert(s@ =~= old(s)@ + numeral(v as nat, base as nat));
}

/// Append `v` in decimal.
pub fn push_dec(s: &mut String, v: u64)
    ensures
        final(s)@ == old(s)@ + dec(v as nat),
{
    push_numeral(s, v, 10);
}

/// Append `v` in hexadecimal.
pub fn push_hex(s: &mut String, v: u64)
    ensures
        final(s)@ == old(s)@ + hex(v as nat),
{
    s.append("0x");
    push_numeral(s, v, 16);
    assert(s@ =~= old(s)@ + hex(v as nat));
}

/// Append the last `width` hexadecimal digits of `v`.
fn push_hex_digits(s: &mut String, v: u64, width: u64)
    ensures
        final(s)@ == old(s)@ + hex_digits(v as nat, width as nat),
    decreases width,
{
    if width > 0 {
        push_hex_digits(s, v / 16, width - 1);
        push_digit(s, v % 16);
    }
    assert(s@ =~= old(s)@ + hex_digits(v as nat, width as nat));
}

/// Append `v` in hexadecimal, padded to sixteen digits.
pub fn push_hex_padded(s: &mut String, v: u64)
    ensures
        final(s)@ == old(s)@ + hex_padded(v as nat),
{
    s.append("0x");
    push_hex_digits(s, v, 16);
    assert(s@ =~= old(s)@ + hex_padded(v as nat));
}

/// Append the bytes as a bracketed list.
pub fn push_byte_list(s: &mut String, b: &[u8])
    ensures
        final(s)@ == old(s)@ + byte_list(b@),
{
    s.append("[");
    let mut i: usize = 0;
    while i < b.len()
        invariant
            i <= b@.len(),
            s@ == old(s)@ + ("["@ + comma_list(b@.take(i as int))),
        decreases b@.len() - i,
    {
        assert(b@.take(i + 1).drop_last() =~= b@.take(i as int));
        let ghost before = s@;
        if i > 0 {
            s.append(", ");
        }
        push_dec(s, b[i] as u64);
        i = i + 1;
        assert(s@ =~= old(s)@ + ("["@ + comma_list(b@.take(i as int))));
    }
    assert(b@.take(i as int) =~= b@);
    s.append("]");
    assert(s@ =~= old(s)@ + byte_list(b@));
}

// ---- what numerals denote -----------------------------------------------

/// The number a digit stands for.
pub open spec fn digit_value(c: char) -> int {
    if '0' <= c <= '9' {
        c as int - '0' as int
    } else if 'a' <= c <= 'f' {
        10 + (c as int - 'a' as int)
    } else {
        -1
    }
}

/// The number a row of digits stands for in a base.
pub open spec fn denoted(s: Seq<char>, base: int) -> int
    decreases s.len(),
{
    if s.len() == 0 {
        0
    } else {
        base * denoted(s.drop_last(), base) + digit_value(s.last())
    }
}

/// Every character is a digit of the base.
pub open spec fn digits_of(s: Seq<char>, base: int) -> bool {
    forall|i: int| 0 <= i < s.len() ==> 0 <= digit_value(#[trigger] s[i]) < base
}

/// A digit stands for itself.
proof fn lemma_digit(d: nat)
    requires
        d < 16,
    ensures
        digit_value(digit(d)) == d,
        digit(d) == '0' <==> d == 0,
{
}

/// A numeral denotes its number: it is made of digits of its base, there is at
/// least one, the first is no zero unless it is the only one, and read in that
/// base they give the number back.
pub proof fn law_numerals_denote(n: nat, base: nat)
    requires
        2 <= base <= 16,
    ensures
        denoted(numeral(n, base), base as int) == n,
        digits_of(numeral(n, base), base as int),
        numeral(n, base).len() > 0,
        numeral(n, base)[0] == '0' <==> n == 0,
        n < base <==> numeral(n, base).len() == 1,
    decreases n,
{
    let s = numeral(n, base);
    if n < base {
        lemma_digit(n);
        assert(s.drop_last() =~= Seq::empty());
        reveal_with_fuel(denoted, 2);
    } else {
        let b = base as int;
        let q = n / base;
        let r = n % base;
        vstd::arithmetic::div_mod::lemma_div_decreases(n as int, b);
        vstd::arithmetic::div_mod::lemma_fundamental_div_mod(n as int, b);
        vstd::arithmetic::div_mod::lemma_mod_bound(n as int, b);
        law_numerals_denote(q, base);
        lemma_digit(r);
        let t = numeral(q, base);
        assert(s.drop_last() =~= t);
        assert(s[0] == t[0]);
        assert(q > 0) by (nonlinear_arith)
            requires
                n == base * q + r,
                r < base,
                n >= base,
        ;
        assert forall|i: int| 0 <= i < s.len() implies 0 <= digit_value(#[trigger] s[i]) < b by {
            if i < t.len() {
                assert(s[i] == t[i]);
            }
        }
    }
}

/// A number in decimal reads back as that number, and so no two numbers look
/// the same.
pub proof fn law_decimals_tell_numbers_apart(n: nat, m: nat)
    ensures
        denoted(dec(n), 10) == n,
        digits_of(dec(n), 10),
        dec(n) == dec(m) ==> n == m,
{
    law_numerals_denote(n, 10);
    law_numerals_denote(m, 10);
}

/// The same in hexadecimal, behind `0x`.
pub proof fn law_hexadecimals_tell_numbers_apart(n: nat, m: nat)
    ensures
        hex(n).len() > 2,
        hex(n)[0] == '0',
        hex(n)[1] == 'x',
        denoted(hex(n).skip(2), 16) == n,
        digits_of(hex(n).skip(2), 16),
        hex(n) == hex(m) ==> n == m,
{
    reveal_strlit("0x");
    law_numerals_denote(n, 16);
    law_numerals_denote(m, 16);
    assert(hex(n).skip(2) =~= numeral(n, 16));
    assert(hex(m).skip(2) =~= numeral(m, 16));
}

/// A row of hexadecimal digits has its width and denotes the number as far as
/// the width goes.
proof fn lemma_hex_digits(n: nat, width: nat)
    ensures
        hex_digits(n, width).len() == width,
        digits_of(hex_digits(n, width), 16),
        denoted(hex_digits(n, width), 16) == n as int % vstd::arithmetic::power::pow(16, width),
    decreases width,
{
    let s = hex_digits(n, width);
    if width == 0 {
        vstd::arithmetic::power::lemma_pow0(16);
    } else {
        let w = (width - 1) as nat;
        let t = hex_digits(n / 16, w);
        let p = vstd::arithmetic::power::pow(16, w);
        lemma_hex_digits(n / 16, w);
        lemma_digit(n % 16);
        assert(s.drop_last() =~= t);
        vstd::arithmetic::power::lemma_pow_positive(16, w);
        reveal(vstd::arithmetic::power::pow);
        assert(vstd::arithmetic::power::pow(16, width) == 16 * p);
        vstd::arithmetic::div_mod::lemma_mod_breakdown(n as int, 16, p);
        assert forall|i: int| 0 <= i < s.len() implies 0 <= digit_value(#[trigger] s[i]) < 16 by {
            if i < t.len() {
                assert(s[i] == t[i]);
            }
        }
    }
}

/// A 64-bit number in hexadecimal, padded, has sixteen digits behind `0x` and
/// reads back as that number.
pub proof fn law_padded_hexadecimals_read_back(n: u64)
    ensures
        hex_padded(n as nat).len() == 18,
        hex_padded(n as nat)[0] == '0',
        hex_padded(n as nat)[1] == 'x',
        digits_of(hex_padded(n as nat).skip(2), 16),
        denoted(hex_padded(n as nat).skip(2), 16) == n,
{
    reveal_strlit("0x");
    lemma_hex_digits(n as nat, 16);
    assert(hex_padded(n as nat).skip(2) =~= hex_digits(n as nat, 16));
    reveal(vstd::arithmetic::power::pow);
    reveal_with_fuel(vstd::arithmetic::power::pow, 18);
    assert(vstd::arithmetic::power::pow(16, 16) == 0x1_0000_0000_0000_0000);
    vstd::arithmetic::div_mod::lemma_small_mod(n as nat, 0x1_0000_0000_0000_0000);
}

} // verus!
