//! Round-to-nearest binary32 arithmetic, carried out exactly in integers.
//!
//! A binary32 number has a 24-bit significand. Converting an integer to it,
//! dividing, and writing the quotient to one decimal place are each a
//! rounding to the nearest representable value with ties going to the even
//! neighbour. These functions perform those roundings on integers so that a
//! figure can be written exactly as a binary32 computation would write it.

use vstd::prelude::*;
use vstd::arithmetic::power2::{pow2, lemma_pow2_pos, lemma_pow2_unfold, lemma_pow2_adds, lemma_pow2_strictly_increases, lemma2_to64};
use vstd::arithmetic::div_mod::{lemma_div_denominator, lemma_fundamental_div_mod, lemma_div_is_ordered, lemma_multiply_divide_lt, lemma_mod_pos_bound, lemma_div_by_multiple};
use vstd::arithmetic::mul::{lemma_mul_inequality, lemma_mul_is_commutative, lemma_mul_is_associative};

verus! {

/// Number of binary digits of `n`; zero has none.
pub open spec fn bit_len(n: nat) -> nat
    decreases n,
{
    if n == 0 { 0 } else { 1 + bit_len(n / 2) }
}

/// `num / den` rounded to the nearest integer, ties to the even one.
pub open spec fn round_half_even(num: nat, den: nat) -> nat {
    let q = num / den;
    let r = num % den;
    if r > den - r || (r == den - r && q % 2 == 1) { q + 1 } else { q }
}

/// The binary32 value nearest to `n`: `n` itself when it fits in 24 bits,
/// otherwise `n` rounded to a multiple of the power of two that leaves 24
/// significant bits.
pub open spec fn binary32_of(n: nat) -> nat {
    if bit_len(n) <= 24 {
        n
    } else {
        let s = (bit_len(n) - 24) as nat;
        round_half_even(n, pow2(s)) * pow2(s)
    }
}

/// The binary32 value nearest to `num / den`, for `num >= den > 0`, as a
/// significand and a power-of-two exponent: `sig * 2^exp`.
pub open spec fn binary32_quotient(num: nat, den: nat) -> (nat, int) {
    let scaled = num * pow2(23);
    let e = (bit_len(scaled / den) - 24) as nat;
    (round_half_even(scaled, den * pow2(e)), e - 23)
}

/// `sig * 2^exp` written to one decimal place, counted in tenths, ties to
/// the even tenth.
pub open spec fn tenths_of(sig: nat, exp: int) -> nat {
    if exp >= 0 {
        sig * pow2(exp as nat) * 10
    } else {
        round_half_even(10 * sig, pow2((-exp) as nat))
    }
}

pub proof fn lemma_pow2_128()
    ensures
        pow2(128) == 0x1_0000_0000_0000_0000_0000_0000_0000_0000nat,
        pow2(64) == 0x1_0000_0000_0000_0000nat,
{
    lemma2_to64();
    lemma_pow2_adds(64, 64);
}

/// Powers of two grow with the exponent.
pub proof fn lemma_pow2_le(a: nat, b: nat)
    requires
        a <= b,
    ensures
        pow2(a) <= pow2(b),
{
    if a < b {
        lemma_pow2_strictly_increases(a, b);
    }
}

/// `bit_len(n)` brackets `n` between consecutive powers of two.
pub proof fn lemma_bit_len(n: nat)
    ensures
        n < pow2(bit_len(n)),
        n > 0 ==> pow2((bit_len(n) - 1) as nat) <= n,
    decreases n,
{
    lemma2_to64();
    if n > 0 {
        lemma_bit_len(n / 2);
        lemma_pow2_unfold(bit_len(n));
        if n / 2 > 0 {
            lemma_pow2_unfold((bit_len(n) - 1) as nat);
        }
    }
}

/// A number below `2^k` has at most `k` bits; one at least `2^k` has more.
pub proof fn lemma_bit_len_bounds(n: nat, k: nat)
    ensures
        n < pow2(k) ==> bit_len(n) <= k,
        pow2(k) <= n ==> bit_len(n) > k,
{
    lemma_bit_len(n);
    if n < pow2(k) && bit_len(n) > k {
        lemma_pow2_le(k, (bit_len(n) - 1) as nat);
    }
    if pow2(k) <= n && bit_len(n) <= k {
        lemma_pow2_le(bit_len(n), k);
    }
}

/// `2^k` as a `u128`.
pub fn pow2_u128(k: u32) -> (p: u128)
    requires
        k < 128,
    ensures
        p == pow2(k as nat),
{
    let mut p: u128 = 1;
    let mut i: u32 = 0;
    proof {
        lemma2_to64();
    }
    while i < k
        invariant
            i <= k < 128,
            p == pow2(i as nat),
        decreases k - i,
    {
        proof {
            lemma_pow2_unfold((i + 1) as nat);
            lemma_pow2_le((i + 1) as nat, 127);
            lemma_pow2_128();
            lemma_pow2_strictly_increases(127, 128);
            lemma_pow2_unfold(128);
        }
        p = p * 2;
        i = i + 1;
    }
    p
}

/// Number of binary digits of `n`.
pub fn bit_len_u128(n: u128) -> (b: u32)
    ensures
        b == bit_len(n as nat),
        b <= 128,
{
    proof {
        lemma_pow2_128();
        lemma_bit_len_bounds(n as nat, 128);
    }
    let mut v = n;
    let mut k: u32 = 0;
    while v > 0
        invariant
            bit_len(n as nat) == k + bit_len(v as nat),
            bit_len(n as nat) <= 128,
        decreases v,
    {
        v = v / 2;
        k = k + 1;
    }
    k
}

/// `num / den`, rounded to nearest with ties to even.
pub fn round_half_even_u128(num: u128, den: u128) -> (r: u128)
    requires
        den > 0,
        num / den < u128::MAX,
    ensures
        r == round_half_even(num as nat, den as nat),
        r <= num / den + 1,
{
    let q = num / den;
    let rem = num % den;
    if rem > den - rem || (rem == den - rem && q % 2 == 1) {
        q + 1
    } else {
        q
    }
}

/// The binary32 value nearest to an integer below `2^63`.
pub fn binary32_of_u64(a: u64) -> (x: u128)
    requires
        a < 0x8000_0000_0000_0000,
    ensures
        x == binary32_of(a as nat),
        x <= 0x8000_0000_0000_0000,
        a >= 1_000_000 ==> x >= 1_000_000,
{
    proof {
        lemma2_to64();
        lemma_pow2_unfold(64);
        lemma_bit_len_bounds(a as nat, 63);
    }
    let len = bit_len_u128(a as u128);
    if len <= 24 {
        return a as u128;
    }
    let s = len - 24;
    let p = pow2_u128(s);
    proof {
        lemma_bit_len(a as nat);
        lemma_pow2_adds(s as nat, 24);
        lemma_pow2_adds(s as nat, 23);
        lemma_pow2_le((s + 24) as nat, 63);
        lemma_pow2_pos(s as nat);
        lemma_mul_is_commutative(p as int, pow2(24) as int);
        lemma_multiply_divide_lt(a as int, p as int, pow2(24) as int);
        lemma_div_is_ordered((pow2(23) * p) as int, a as int, p as int);
        lemma_div_by_multiple(pow2(23) as int, p as int);
    }
    let m = round_half_even_u128(a as u128, p);
    proof {
        lemma_mul_inequality(m as int, pow2(24) as int, p as int);
        lemma_mul_inequality(pow2(23) as int, (a as int) / (p as int), p as int);
        lemma_pow2_le(1, s as nat);
        assert(m >= pow2(23));
        lemma_mul_inequality(pow2(23) as int, m as int, p as int);
        lemma_mul_inequality(2, p as int, pow2(23) as int);
        assert(m * p >= 2 * pow2(23));
    }
    m * p
}

/// Tenths of `a / 1_000_000` as binary32 arithmetic writes them: `a`
/// converted to binary32, divided by one million with binary32 rounding,
/// and written to one decimal place.
pub open spec fn binary32_millions_tenths(a: nat) -> nat {
    let (sig, exp) = binary32_quotient(binary32_of(a), 1_000_000);
    tenths_of(sig, exp)
}

/// [`binary32_millions_tenths`], computed.
pub fn millions_tenths(a: u64) -> (t: u64)
    requires
        1_000_000 <= a < 0x8000_0000_0000_0000,
    ensures
        t == binary32_millions_tenths(a as nat),
{
    let x = binary32_of_u64(a);
    proof {
        lemma2_to64();
        lemma_pow2_unfold(64);
    }
    let two23 = pow2_u128(23);
    let scaled = x * two23;
    let z = scaled / 1_000_000;
    proof {
        lemma_div_is_ordered((1_000_000 * pow2(23)) as int, scaled as int, 1_000_000);
        lemma_div_by_multiple(pow2(23) as int, 1_000_000);
        lemma_bit_len_bounds(z as nat, 23);
        lemma_pow2_adds(64, 3);
        lemma_pow2_unfold(67);
        lemma_pow2_unfold(66);
        lemma_pow2_unfold(65);
        lemma_bit_len_bounds(z as nat, 67);
    }
    let len = bit_len_u128(z);
    let e = len - 24;
    let pe = pow2_u128(e);
    proof {
        lemma_pow2_le(e as nat, 43);
        lemma_pow2_adds(32, 11);
        lemma_pow2_pos(e as nat);
        lemma_mul_inequality(pe as int, pow2(43) as int, 1_000_000);
    }
    let den = 1_000_000 * pe;
    proof {
        lemma_div_denominator(scaled as int, 1_000_000, pe as int);
        lemma_bit_len(z as nat);
        lemma_pow2_adds(e as nat, 24);
        lemma_mul_is_commutative(pe as int, pow2(24) as int);
        lemma_multiply_divide_lt(z as int, pe as int, pow2(24) as int);
    }
    let sig = round_half_even_u128(scaled, den);
    assert(sig <= 0x100_0000);
    if e >= 23 {
        let k = e - 23;
        let pk = pow2_u128(k);
        proof {
            lemma_pow2_le(k as nat, 20);
            lemma_mul_inequality(sig as int, 0x100_0000, pk as int);
            lemma_mul_inequality(pk as int, pow2(20) as int, 0x100_0000);
        }
        let t = sig * pk * 10;
        t as u64
    } else {
        let k = 23 - e;
        let pk = pow2_u128(k);
        proof {
            lemma_pow2_pos(k as nat);
        }
        let t = round_half_even_u128(10 * sig, pk);
        proof {
            lemma_div_is_ordered(0, (10 * sig) as int, pk as int);
            assert((10 * sig) as int / pk as int <= 10 * sig) by {
                vstd::arithmetic::div_mod::lemma_div_is_ordered_by_denominator((10 * sig) as int, 1, pk as int);
            }
        }
        t as u64
    }
}

} // verus!
