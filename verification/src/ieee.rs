//! Scaled integers as double precision numbers, computed with integers.
//!
//! A decimal number is stored as an integer and a power of ten. Its double is the
//! quotient of two doubles: the integer, rounded to 53 significant bits, and the power of
//! ten, which is exact up to 10^22. Both roundings go to the nearest value and to the
//! even one of two that are equally near.
use vstd::arithmetic::power2::{
    lemma2_to64, lemma2_to64_rest, lemma_pow2_adds, lemma_pow2_strictly_increases,
    lemma_pow2_unfold, pow2,
};
use vstd::prelude::*;

verus! {

pub const TWO52: u128 = 0x10_0000_0000_0000;

pub const TWO53: u128 = 0x20_0000_0000_0000;

/// A fraction `num / den`, and the exponent `exp` of the power of two that it was divided
/// by.
pub struct Scaled {
    pub num: nat,
    pub den: nat,
    pub exp: int,
}

/// `num / den` doubled until it is at least 2^52.
pub open spec fn scale_up(num: nat, den: nat, exp: int) -> Scaled
    decreases
            if num < TWO52 * den {
                TWO52 * den - num
            } else {
                0
            },
{
    if 0 < num < TWO52 * den {
        scale_up(2 * num, den, exp - 1)
    } else {
        Scaled { num, den, exp }
    }
}

/// `num / den` halved until it is less than 2^53.
pub open spec fn scale_down(num: nat, den: nat, exp: int) -> Scaled
    decreases
            if num >= TWO53 * den {
                num - TWO53 * den + 1
            } else {
                0
            },
{
    if den > 0 && num >= TWO53 * den {
        scale_down(num, 2 * den, exp + 1)
    } else {
        Scaled { num, den, exp }
    }
}

/// The positive fraction `num / den` as a number in `2^52 .. 2^53` and a power of two.
pub open spec fn normalized(num: nat, den: nat) -> Scaled {
    let s = scale_up(num, den, 0);
    scale_down(s.num, s.den, s.exp)
}

/// `num / den` rounded to the nearest integer, to the even one of two.
pub open spec fn nearest(num: nat, den: nat) -> nat {
    let q = num / den;
    let r = num % den;
    if 2 * r > den || (2 * r == den && q % 2 == 1) {
        q + 1
    } else {
        q
    }
}

/// `n` rounded to 53 significant bits.
pub open spec fn rounded53(n: nat) -> nat {
    let s = scale_down(n, 1, 0);
    nearest(s.num, s.den) * s.den
}

/// The bits of the double nearest to the fraction `num / den`: the exponent, biased by
/// 1023, above the 52 bits of the fraction. A number that rounds up to 2^53 carries into
/// the exponent.
pub open spec fn fraction_bits(num: nat, den: nat) -> int {
    if num == 0 {
        0
    } else {
        let s = normalized(num, den);
        (s.exp + 1075) * TWO52 + nearest(s.num, s.den) - TWO52
    }
}

/// 10^k.
pub open spec fn pow10(k: nat) -> nat
    decreases k,
{
    if k == 0 {
        1
    } else {
        10 * pow10((k - 1) as nat)
    }
}

/// The bits of the double that stands for `v / 10^k`.
pub open spec fn scaled_bits(v: int, k: nat) -> int {
    if v < 0 {
        0x8000_0000_0000_0000 + fraction_bits(rounded53((-v) as nat), pow10(k))
    } else {
        fraction_bits(rounded53(v as nat), pow10(k))
    }
}

fn round_nearest(num: u128, den: u128) -> (r: u128)
    requires
        0 < den < 0x1_0000_0000_0000_0000_0000_0000_0000,
        num < TWO53 * den,
    ensures
        r == nearest(num as nat, den as nat),
        r <= TWO53,
{
    let q: u128 = num / den;
    let r: u128 = num % den;
    proof {
        lemma_quotient_below(num as int, den as int, TWO53 as int);
    }
    if 2 * r > den || (2 * r == den && q % 2 == 1) {
        q + 1
    } else {
        q
    }
}

proof fn lemma_quotient_below(num: int, den: int, bound: int)
    requires
        0 < den,
        0 <= num < bound * den,
    ensures
        0 <= num / den < bound,
        0 <= num % den < den,
{
    assert(0 <= num / den < bound) by (nonlinear_arith)
        requires
            0 < den,
            0 <= num < bound * den,
    ;
}

proof fn lemma_pow10_small(k: nat)
    requires
        k <= 18,
    ensures
        1 <= pow10(k) <= 1_000_000_000_000_000_000,
{
    reveal_with_fuel(pow10, 19);
}

fn power_of_ten(k: u8) -> (r: u64)
    requires
        k <= 18,
    ensures
        r == pow10(k as nat),
        1 <= r <= 1_000_000_000_000_000_000,
{
    let mut r: u64 = 1;
    let mut i: u8 = 0;
    while i < k
        invariant
            i <= k <= 18,
            r == pow10(i as nat),
        decreases k - i,
    {
        proof {
            lemma_pow10_small((i + 1) as nat);
        }
        r = 10 * r;
        i = i + 1;
    }
    proof {
        lemma_pow10_small(k as nat);
    }
    r
}

/// An exponent below that of a bound.
proof fn lemma_exponent_below(i: nat, k: nat)
    requires
        pow2(i) < pow2(k),
    ensures
        i < k,
{
    if i > k {
        lemma_pow2_strictly_increases(k, i);
    }
}

/// Computes `scale_down`.
fn shrink(num: u128, den: u128, exp: i16) -> (r: (u128, i16))
    requires
        0 < den < 0x1000_0000_0000_0000,
        num < 0x1_0000_0000_0000_0000 || num < TWO53 * den,
        -112 <= exp <= 0,
    ensures
        scale_down(num as nat, den as nat, exp as int) == (Scaled {
            num: num as nat,
            den: r.0 as nat,
            exp: r.1 as int,
        }),
        0 < r.0 < 0x1000_0000_0000_0000,
        num < TWO53 * r.0,
        r.0 == den || num >= TWO52 * r.0,
        exp <= r.1 <= exp + 11,
{
    let mut d: u128 = den;
    let mut e: i16 = exp;
    proof {
        lemma2_to64();
        assert(pow2(0) == 1);
    }
    while num >= TWO53 * d
        invariant
            0 < d < 0x1000_0000_0000_0000,
            num < 0x1_0000_0000_0000_0000 || num < TWO53 * d,
            d == den || num >= TWO52 * d,
            exp <= e <= exp + 11,
            -112 <= exp <= 0,
            pow2((e - exp) as nat) <= d,
            scale_down(num as nat, den as nat, exp as int) == scale_down(
                num as nat,
                d as nat,
                e as int,
            ),
        decreases exp + 11 - e,
    {
        proof {
            let i = (e - exp) as nat;
            lemma2_to64();
            assert(d < 2048);
            lemma_exponent_below(i, 11);
            lemma_pow2_unfold((i + 1) as nat);
        }
        d = 2 * d;
        e = e + 1;
    }
    (d, e)
}

/// Computes `scale_up`.
fn grow(num: u64, den: u128) -> (r: (u128, i16))
    requires
        0 < num,
        0 < den <= 1_000_000_000_000_000_000,
    ensures
        scale_up(num as nat, den as nat, 0) == (Scaled {
            num: r.0 as nat,
            den: den as nat,
            exp: r.1 as int,
        }),
        r.0 < 0x1_0000_0000_0000_0000 || r.0 < TWO53 * den,
        r.0 >= TWO52 * den,
        -112 <= r.1 <= 0,
{
    let mut n: u128 = num as u128;
    let mut e: i16 = 0;
    proof {
        lemma2_to64();
        assert(pow2(0) == 1);
    }
    while n < TWO52 * den
        invariant
            0 < n,
            n < 0x1_0000_0000_0000_0000 || n < TWO53 * den,
            0 < den <= 1_000_000_000_000_000_000,
            -112 <= e <= 0,
            pow2((-e) as nat) <= n,
            scale_up(num as nat, den as nat, 0) == scale_up(n as nat, den as nat, e as int),
        decreases e + 112,
    {
        proof {
            let j = (-e) as nat;
            lemma2_to64_rest();
            lemma_pow2_adds(60, 52);
            assert(pow2(112) == 0x1000_0000_0000_0000 * 0x10_0000_0000_0000);
            lemma_exponent_below(j, 112);
            lemma_pow2_unfold((j + 1) as nat);
        }
        n = 2 * n;
        e = e - 1;
    }
    (n, e)
}

/// `n` rounded to 53 significant bits.
fn round53(n: u64) -> (r: u64)
    requires
        n <= 0x8000_0000_0000_0000,
    ensures
        r == rounded53(n as nat),
        n > 0 ==> r > 0,
{
    let (d, _e): (u128, i16) = shrink(n as u128, 1, 0);
    let m: u128 = round_nearest(n as u128, d);
    proof {
        assert(m * d <= 0xffff_ffff_ffff_ffff && (n > 0 ==> m * d > 0)) by {
            lemma_rounded_size(n as int, d as int, m as int);
        }
    }
    (m * d) as u64
}

/// A number of at most 2^63, rounded to a multiple of `d`, still fits 64 bits.
proof fn lemma_rounded_size(n: int, d: int, m: int)
    requires
        0 <= n <= 0x8000_0000_0000_0000,
        0 < d,
        n < TWO53 * d,
        d == 1 || n >= TWO52 * d,
        m == nearest(n as nat, d as nat),
    ensures
        m * d <= 0xffff_ffff_ffff_ffff,
        n > 0 ==> m * d > 0,
{
    let q = n / d;
    assert(q * d <= n && n < q * d + d && q >= 0) by (nonlinear_arith)
        requires
            d > 0,
            q == n / d,
            n >= 0,
    ;
    assert((q + 1) * d == q * d + d) by (nonlinear_arith);
    if d == 1 {
        assert(n / 1 == n);
    } else {
        assert(q >= TWO52) by (nonlinear_arith)
            requires
                n >= TWO52 * d,
                n < q * d + d,
                d > 0,
        ;
        assert(q * d > 0) by (nonlinear_arith)
            requires
                q > 0,
                d > 0,
        ;
    }
}

/// A fraction of at least `b` does not round to less.
proof fn lemma_nearest_at_least(num: int, den: int, b: int)
    requires
        0 < den,
        0 <= b,
        num >= b * den,
    ensures
        nearest(num as nat, den as nat) >= b,
{
    assert(num >= 0) by (nonlinear_arith)
        requires
            0 < den,
            0 <= b,
            num >= b * den,
    ;
    assert(num / den >= b) by (nonlinear_arith)
        requires
            0 < den,
            0 <= b,
            num >= b * den,
    ;
}

/// The bits of the double that stands for `v / 10^k`.
pub fn scaled_to_bits(v: i64, k: u8) -> (r: u64)
    requires
        k <= 18,
    ensures
        r == scaled_bits(v as int, k as nat),
{
    if v == 0 {
        return 0;
    }
    let abs: u64 = if v < 0 {
        (-(v as i128)) as u64
    } else {
        v as u64
    };
    let num: u64 = round53(abs);
    let den: u128 = power_of_ten(k) as u128;
    let (n, e): (u128, i16) = grow(num, den);
    let (d, e): (u128, i16) = shrink(n, den, e);
    let m: u128 = round_nearest(n, d);
    proof {
        lemma_nearest_at_least(n as int, d as int, TWO52 as int);
    }
    let bits: u64 = (e + 1075) as u64 * 0x10_0000_0000_0000 + (m - TWO52) as u64;
    if v < 0 {
        0x8000_0000_0000_0000 + bits
    } else {
        bits
    }
}

} // verus!
