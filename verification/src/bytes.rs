//! Little-endian integers in byte sequences.

use vstd::prelude::*;

verus! {

/// The value of an unsigned little-endian number made of all bytes of `s`.
pub open spec fn le_uint(s: Seq<u8>) -> nat
    decreases s.len(),
{
    if s.len() == 0 {
        0
    } else {
        s[0] as nat + 256 * le_uint(s.drop_first())
    }
}

/// 256 to the power `n`.
pub open spec fn pow256(n: nat) -> nat
    decreases n,
{
    if n == 0 {
        1
    } else {
        256 * pow256((n - 1) as nat)
    }
}

/// Two bytes at `i`, little-endian.
pub open spec fn u16_at(s: Seq<u8>, i: int) -> nat {
    s[i] as nat + 256 * s[i + 1] as nat
}

/// Four bytes at `i`, little-endian.
pub open spec fn u32_at(s: Seq<u8>, i: int) -> nat {
    u16_at(s, i) + 65536 * u16_at(s, i + 2)
}

/// Eight bytes at `i`, little-endian.
pub open spec fn u64_at(s: Seq<u8>, i: int) -> nat {
    u32_at(s, i) + 4294967296 * u32_at(s, i + 4)
}

pub fn read_u16(s: &[u8], i: usize) -> (r: u16)
    requires
        i + 2 <= s.len(),
    ensures
        r == u16_at(s@, i as int),
{
    s[i] as u16 + 256 * (s[i + 1] as u16)
}

pub fn read_u32(s: &[u8], i: usize) -> (r: u32)
    requires
        i + 4 <= s.len(),
    ensures
        r == u32_at(s@, i as int),
{
    let lo: u16 = read_u16(s, i);
    let hi: u16 = read_u16(s, i + 2);
    lo as u32 + 65536 * (hi as u32)
}

pub fn read_u64(s: &[u8], i: usize) -> (r: u64)
    requires
        i + 8 <= s.len(),
    ensures
        r == u64_at(s@, i as int),
{
    let lo: u32 = read_u32(s, i);
    let hi: u32 = read_u32(s, i + 4);
    lo as u64 + 4294967296 * (hi as u64)
}


/// The value of a signed little-endian number of `s.len()` bytes (two's complement).
pub open spec fn le_int(s: Seq<u8>) -> int {
    let v = le_uint(s);
    if v >= pow256(s.len()) / 2 {
        v - pow256(s.len())
    } else {
        v as int
    }
}

pub proof fn lemma_pow256_monotonic(a: nat, b: nat)
    requires
        a <= b,
    ensures
        1 <= pow256(a) <= pow256(b),
    decreases b,
{
    if b > a {
        lemma_pow256_monotonic(a, (b - 1) as nat);
    } else if a > 0 {
        lemma_pow256_monotonic((a - 1) as nat, (a - 1) as nat);
    }
}

pub proof fn lemma_pow256_eight()
    ensures
        pow256(8) == 0x1_0000_0000_0000_0000,
{
    reveal_with_fuel(pow256, 9);
}

pub proof fn lemma_le_uint_bound(s: Seq<u8>)
    ensures
        le_uint(s) < pow256(s.len()),
    decreases s.len(),
{
    if s.len() > 0 {
        lemma_le_uint_bound(s.drop_first());
    }
}

/// Reads an unsigned little-endian number of at most eight bytes.
pub fn read_uint_le(bytes: &[u8]) -> (r: u64)
    requires
        bytes@.len() <= 8,
    ensures
        r == le_uint(bytes@),
{
    let n: usize = bytes.len();
    let mut acc: u64 = 0;
    let mut i: usize = n;
    proof {
        assert(bytes@.skip(n as int) =~= Seq::<u8>::empty());
        lemma_pow256_eight();
    }
    while i > 0
        invariant
            i <= n,
            n == bytes@.len(),
            n <= 8,
            acc == le_uint(bytes@.skip(i as int)),
            acc < pow256((n - i) as nat),
            pow256(8) == 0x1_0000_0000_0000_0000,
        decreases i,
    {
        let b: u8 = bytes[i - 1];
        proof {
            assert(bytes@.skip(i - 1).drop_first() =~= bytes@.skip(i as int));
            lemma_pow256_monotonic((n - i + 1) as nat, 8);
            assert(pow256((n - i + 1) as nat) == 256 * pow256((n - i) as nat));
        }
        acc = acc * 256 + b as u64;
        i = i - 1;
    }
    proof {
        assert(bytes@.skip(0) =~= bytes@);
    }
    acc
}

/// 256 to the power `n` for `n <= 8`, widened so that `n == 8` fits.
fn pow256_exec(n: usize) -> (r: i128)
    requires
        n <= 8,
    ensures
        r == pow256(n as nat),
{
    let mut r: i128 = 1;
    let mut k: usize = 0;
    while k < n
        invariant
            k <= n <= 8,
            r == pow256(k as nat),
        decreases n - k,
    {
        proof {
            lemma_pow256_monotonic((k + 1) as nat, 8);
            lemma_pow256_eight();
        }
        r = r * 256;
        k = k + 1;
    }
    r
}

/// Reads a signed (two's complement) little-endian number of one to eight bytes.
pub fn read_int_le(bytes: &[u8]) -> (r: i64)
    requires
        1 <= bytes@.len() <= 8,
    ensures
        r == le_int(bytes@),
{
    let value: u64 = read_uint_le(bytes);
    let full: i128 = pow256_exec(bytes.len());
    proof {
        lemma_le_uint_bound(bytes@);
        lemma_pow256_monotonic(1, bytes@.len());
        lemma_pow256_monotonic(bytes@.len(), 8);
        lemma_pow256_eight();
        reveal_with_fuel(pow256, 2);
    }
    if (value as i128) >= full / 2 {
        (value as i128 - full) as i64
    } else {
        value as i64
    }
}

} // verus!
