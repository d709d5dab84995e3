//! Human-readable sizes: "500 B", "1.50 KB", "1.00 TB".
//!
//! The text is that of the size as a double-precision float divided by the unit,
//! shown with two decimals: the size is rounded to 53 significant bits (ties to
//! even, as an integer-to-float conversion does), and the quotient to hundredths
//! (ties to even, as float formatting does). Both are computed here exactly on
//! integers.

use vstd::prelude::*;
use crate::text::{decimal, digit_char, push_char, push_decimal};

verus! {

/// 2 to the power `n`.
pub open spec fn pow2(n: nat) -> nat
    decreases n,
{
    if n == 0 { 1 } else { 2 * pow2((n - 1) as nat) }
}

/// Number of binary digits of `n` (0 for 0).
pub open spec fn bit_length(n: nat) -> nat
    decreases n,
{
    if n == 0 { 0 } else { 1 + bit_length(n / 2) }
}

/// `n / d` rounded to the nearest integer, ties to the even one.
pub open spec fn round_half_even(n: nat, d: nat) -> nat {
    let q = n / d;
    let r = n % d;
    if 2 * r > d || (2 * r == d && q % 2 == 1) { q + 1 } else { q }
}

/// `n` rounded to 53 significant bits, ties to even: its value as an `f64`.
pub open spec fn as_f64(n: nat) -> nat {
    if n < pow2(53) {
        n
    } else {
        let p = pow2((bit_length(n) - 53) as nat);
        round_half_even(n, p) * p
    }
}

/// The exponent of the largest binary unit (KB to TB) that `n` reaches.
pub open spec fn unit_exponent(n: nat) -> nat {
    if n >= pow2(40) { 40 } else if n >= pow2(30) { 30 } else if n >= pow2(20) { 20 } else { 10 }
}

/// The name of a unit.
pub open spec fn unit_name(e: nat) -> Seq<char> {
    if e == 40 { seq!['T', 'B'] }
    else if e == 30 { seq!['G', 'B'] }
    else if e == 20 { seq!['M', 'B'] }
    else { seq!['K', 'B'] }
}

/// The text of a size: whole bytes below 1 KB, else hundredths of the unit.
pub open spec fn spec_format_size(bytes: u64) -> Seq<char> {
    if bytes < 1024 {
        decimal(bytes as nat) + seq![' ', 'B']
    } else {
        let e = unit_exponent(bytes as nat);
        let hundredths = round_half_even(as_f64(bytes as nat) * 100, pow2(e));
        decimal(hundredths / 100) + seq!['.', digit_char((hundredths % 100) / 10), digit_char(
            hundredths % 10,
        ), ' '] + unit_name(e)
    }
}

proof fn lemma_pow2_positive(n: nat)
    ensures
        pow2(n) >= 1,
    decreases n,
{
    if n > 0 {
        lemma_pow2_positive((n - 1) as nat);
    }
}

proof fn lemma_pow2_monotonic(a: nat, b: nat)
    requires
        a <= b,
    ensures
        pow2(a) <= pow2(b),
    decreases b,
{
    lemma_pow2_positive(b);
    if b > a {
        lemma_pow2_monotonic(a, (b - 1) as nat);
    }
}

/// `n < 2^k` exactly when it has at most `k` binary digits.
proof fn lemma_bit_length(n: nat, k: nat)
    ensures
        n < pow2(k) <==> bit_length(n) <= k,
    decreases k,
{
    lemma_pow2_positive(k);
    if k > 0 && n > 0 {
        lemma_bit_length(n / 2, (k - 1) as nat);
    } else if k == 0 && n > 0 {
        assert(bit_length(n) == 1 + bit_length(n / 2));
    }
}

/// The powers of two that sizes need.
proof fn lemma_pow2_values()
    ensures
        pow2(10) == 1024,
        pow2(11) == 2048,
        pow2(20) == 0x10_0000,
        pow2(30) == 0x4000_0000,
        pow2(40) == 0x100_0000_0000,
        pow2(53) == 0x20_0000_0000_0000,
        pow2(63) == 0x8000_0000_0000_0000,
        pow2(64) == 0x1_0000_0000_0000_0000,
{
    reveal_with_fuel(pow2, 12);
    assert(pow2(11) == 2048);
    assert(pow2(20) == 0x10_0000) by {
        reveal_with_fuel(pow2, 10);
    }
    assert(pow2(30) == 0x4000_0000) by {
        reveal_with_fuel(pow2, 11);
    }
    assert(pow2(40) == 0x100_0000_0000) by {
        reveal_with_fuel(pow2, 11);
    }
    assert(pow2(53) == 0x20_0000_0000_0000) by {
        reveal_with_fuel(pow2, 14);
    }
    assert(pow2(63) == 0x8000_0000_0000_0000) by {
        reveal_with_fuel(pow2, 11);
    }
    assert(pow2(64) == 0x1_0000_0000_0000_0000);
}

fn pow2_exec(n: u32) -> (r: u64)
    requires
        n <= 63,
    ensures
        r == pow2(n as nat),
{
    let mut r: u64 = 1;
    let mut k: u32 = 0;
    while k < n
        invariant
            k <= n <= 63,
            r == pow2(k as nat),
        decreases n - k,
    {
        proof {
            lemma_pow2_monotonic((k + 1) as nat, 63);
            lemma_pow2_values();
        }
        r = r * 2;
        k = k + 1;
    }
    r
}

fn round_half_even_exec(n: u128, d: u128) -> (r: u128)
    requires
        0 < d <= 0x1_0000_0000_0000_0000,
        n < 0x1_0000_0000_0000_0000_0000_0000_0000,
    ensures
        r == round_half_even(n as nat, d as nat),
{
    let q: u128 = n / d;
    let rem: u128 = n % d;
    if 2 * rem > d || (2 * rem == d && q % 2 == 1) {
        q + 1
    } else {
        q
    }
}

/// The size as a human-readable text with two decimals and a binary unit.
pub fn format_size(bytes: u64) -> (r: String)
    ensures
        r@ == spec_format_size(bytes),
{
    let mut s: String = String::new();
    if bytes < 1024 {
        push_decimal(&mut s, bytes as u128);
        push_char(&mut s, ' ');
        push_char(&mut s, 'B');
        proof {
            assert(s@ =~= spec_format_size(bytes));
        }
        return s;
    }
    proof {
        lemma_pow2_values();
    }
    let (e, unit): (u32, char) = if bytes >= 0x100_0000_0000 {
        (40, 'T')
    } else if bytes >= 0x4000_0000 {
        (30, 'G')
    } else if bytes >= 0x10_0000 {
        (20, 'M')
    } else {
        (10, 'K')
    };
    // The size as a float: exact below 2^53, else rounded to 53 significant bits.
    let value: u128 = if bytes < 0x20_0000_0000_0000 {
        bytes as u128
    } else {
        let mut length: u32 = 0;
        let mut x: u64 = bytes;
        proof {
            lemma_bit_length(bytes as nat, 64);
            lemma_bit_length(bytes as nat, 53);
        }
        while x > 0
            invariant
                length + bit_length(x as nat) == bit_length(bytes as nat),
                length <= 64,
                bit_length(bytes as nat) <= 64,
            decreases x,
        {
            x = x / 2;
            length = length + 1;
        }
        let p: u64 = pow2_exec(length - 53);
        proof {
            lemma_pow2_monotonic((length - 53) as nat, 11);
            lemma_pow2_positive((length - 53) as nat);
            lemma_pow2_values();
        }
        let q: u128 = round_half_even_exec(bytes as u128, p as u128);
        proof {
            assert(q <= bytes as nat + 1) by (nonlinear_arith)
                requires
                    q == round_half_even(bytes as nat, p as nat),
                    p >= 1,
            ;
            assert(q * p <= 0x1_0000_0000_0000_0000 * 2048) by (nonlinear_arith)
                requires
                    q <= 0x1_0000_0000_0000_0000,
                    p <= 2048,
            ;
        }
        q * p as u128
    };
    proof {
        assert(value == as_f64(bytes as nat));
        assert(value * 100 < 0x1_0000_0000_0000_0000_0000_0000_0000);
    }
    let unit_size: u64 = pow2_exec(e);
    proof {
        lemma_pow2_positive(e as nat);
        lemma_pow2_monotonic(e as nat, 64);
    }
    let hundredths: u128 = round_half_even_exec(value * 100, unit_size as u128);
    let ghost before = s@;
    push_decimal(&mut s, hundredths / 100);
    push_char(&mut s, '.');
    push_char(&mut s, digit_char_exec(((hundredths % 100) / 10) as u8));
    push_char(&mut s, digit_char_exec((hundredths % 10) as u8));
    push_char(&mut s, ' ');
    push_char(&mut s, unit);
    push_char(&mut s, 'B');
    proof {
        assert(s@ =~= spec_format_size(bytes));
    }
    s
}

fn digit_char_exec(d: u8) -> (c: char)
    requires
        d < 10,
    ensures
        c == digit_char(d as nat),
{
    if d == 0 { '0' }
    else if d == 1 { '1' }
    else if d == 2 { '2' }
    else if d == 3 { '3' }
    else if d == 4 { '4' }
    else if d == 5 { '5' }
    else if d == 6 { '6' }
    else if d == 7 { '7' }
    else if d == 8 { '8' }
    else { '9' }
}

} // verus!
