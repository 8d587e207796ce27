//! What number a scaled column is worth: the double that is nearest to it.
use crate::bytes::{be64, le16, le32, le64, signed};
use crate::extract::field_value;
use crate::ieee::{
    fraction_bits, nearest, normalized, pow10, rounded53, scale_down, scale_up, scaled_bits,
};
use crate::ods::Desc;
use crate::value_laws::{
    big_endian, lemma_little2, lemma_little4, lemma_little8, lemma_written, little_endian,
};
use vstd::arithmetic::power2::{lemma2_to64, lemma_pow2_adds, pow2};
use vstd::arithmetic::power::pow;
use vstd::prelude::*;

verus! {

/// The mantissa of a double, with its leading bit.
pub open spec fn mantissa(bits: int) -> int {
    0x10_0000_0000_0000 + bits % 0x10_0000_0000_0000
}

/// The power of two that the mantissa of a double is multiplied by.
pub open spec fn exponent(bits: int) -> int {
    bits / 0x10_0000_0000_0000 - 1075
}

/// Whether `m * 2^e` is as near to `num / den` as a number with that `e` can be, and `m` is
/// even where it is halfway.
pub open spec fn is_nearest(num: int, den: int, m: int, e: int) -> bool {
    if e >= 0 {
        let step = pow2(e as nat) * den;
        let off = num - m * step;
        &&& -step <= 2 * off <= step
        &&& 2 * off == step || 2 * off == -step ==> m % 2 == 0
    } else {
        let off = num * pow2((-e) as nat) - m * den;
        &&& -den <= 2 * off <= den
        &&& 2 * off == den || 2 * off == -den ==> m % 2 == 0
    }
}

proof fn lemma_scale_up(num: nat, den: nat, exp: int)
    requires
        num > 0,
        den > 0,
    ensures
        ({
            let r = scale_up(num, den, exp);
            &&& r.den == den
            &&& r.exp <= exp
            &&& r.num == num * pow2((exp - r.exp) as nat)
            &&& r.num >= 0x10_0000_0000_0000 * den
            &&& r.exp < exp ==> r.num < 0x20_0000_0000_0000 * den
        }),
    decreases
            if num < 0x10_0000_0000_0000 * den {
                0x10_0000_0000_0000 * den - num
            } else {
                0
            },
{
    let r = scale_up(num, den, exp);
    lemma2_to64();
    if num < 0x10_0000_0000_0000 * den {
        lemma_scale_up(2 * num, den, exp - 1);
        let k = (exp - 1 - r.exp) as nat;
        lemma_pow2_adds(1, k);
        assert(1 + k == exp - r.exp);
        assert(2 * num * pow2(k) == num * (2 * pow2(k))) by (nonlinear_arith);
        assert(pow2(1 + k) == 2 * pow2(k));
        if k == 0 {
            assert(2 * num * pow2(k) == 2 * num) by (nonlinear_arith)
                requires
                    pow2(k) == 1,
            ;
        }
    } else {
        assert(num * 1 == num);
    }
}

proof fn lemma_scale_down(num: nat, den: nat, exp: int)
    requires
        den > 0,
        num >= 0x10_0000_0000_0000 * den,
    ensures
        ({
            let r = scale_down(num, den, exp);
            &&& r.num == num
            &&& r.exp >= exp
            &&& r.den == den * pow2((r.exp - exp) as nat)
            &&& r.den > 0
            &&& 0x10_0000_0000_0000 * r.den <= num < 0x20_0000_0000_0000 * r.den
            &&& num < 0x20_0000_0000_0000 * den ==> r.exp == exp
        }),
    decreases
            if num >= 0x20_0000_0000_0000 * den {
                num - 0x20_0000_0000_0000 * den + 1
            } else {
                0
            },
{
    let r = scale_down(num, den, exp);
    lemma2_to64();
    if num >= 0x20_0000_0000_0000 * den {
        lemma_scale_down(num, 2 * den, exp + 1);
        let k = (r.exp - exp - 1) as nat;
        lemma_pow2_adds(1, k);
        assert(2 * den * pow2(k) == den * (2 * pow2(k))) by (nonlinear_arith);
        assert(pow2(1 + k) == 2 * pow2(k));
    } else {
        assert(den * 1 == den);
    }
}

proof fn lemma_nearest(num: nat, den: nat)
    requires
        den > 0,
    ensures
        ({
            let off = num - nearest(num, den) * den;
            &&& -den <= 2 * off <= den
            &&& 2 * off == den || 2 * off == -den ==> nearest(num, den) % 2 == 0
        }),
        0x10_0000_0000_0000 * den <= num < 0x20_0000_0000_0000 * den ==> 0x10_0000_0000_0000
            <= nearest(num, den) <= 0x20_0000_0000_0000,
{
    let q = num / den;
    let r = num % den;
    assert(num == q * den + r && 0 <= r < den) by (nonlinear_arith)
        requires
            den > 0,
            q == num / den,
            r == num % den,
    ;
    assert((q + 1) * den == q * den + den) by (nonlinear_arith);
    if 0x10_0000_0000_0000 * den <= num < 0x20_0000_0000_0000 * den {
        assert(0x10_0000_0000_0000 <= q < 0x20_0000_0000_0000) by (nonlinear_arith)
            requires
                den > 0,
                num == q * den + r,
                0 <= r < den,
                0x10_0000_0000_0000 * den <= num < 0x20_0000_0000_0000 * den,
        ;
    }
}

proof fn lemma_halved(num: int, p: int, den: int)
    requires
        den > 0,
        -den <= 2 * (num * (2 * p) - 0x20_0000_0000_0000 * den) <= den,
    ensures
        -den < 2 * (num * p - 0x10_0000_0000_0000 * den) < den,
{
    assert(num * (2 * p) == 2 * (num * p)) by (nonlinear_arith);
}

/// A quotient of whole numbers becomes the double that is nearest to it, and of two that are
/// equally near the even one.
#[verifier::rlimit(40)]
pub proof fn law_quotient_is_the_nearest_double(num: nat, den: nat)
    requires
        num > 0,
        den > 0,
    ensures
        is_nearest(
            num as int,
            den as int,
            mantissa(fraction_bits(num, den)),
            exponent(fraction_bits(num, den)),
        ),
        0x10_0000_0000_0000 <= mantissa(fraction_bits(num, den)) < 0x20_0000_0000_0000,
{
    let up = scale_up(num, den, 0);
    let s = normalized(num, den);
    lemma2_to64();
    lemma_scale_up(num, den, 0);
    lemma_scale_down(up.num, up.den, up.exp);
    lemma_nearest(s.num, s.den);
    let q = nearest(s.num, s.den) as int;
    let bits = fraction_bits(num, den);
    let m = mantissa(bits);
    let e = exponent(bits);
    let x = s.exp;
    assert(bits == (x + 1075) * 0x10_0000_0000_0000 + q - 0x10_0000_0000_0000);
    if q < 0x20_0000_0000_0000 {
        assert(m == q && e == x) by (nonlinear_arith)
            requires
                0x10_0000_0000_0000 <= q < 0x20_0000_0000_0000,
                bits == (x + 1075) * 0x10_0000_0000_0000 + q - 0x10_0000_0000_0000,
                m == 0x10_0000_0000_0000 + bits % 0x10_0000_0000_0000,
                e == bits / 0x10_0000_0000_0000 - 1075,
        ;
    } else {
        assert(m == 0x10_0000_0000_0000 && e == x + 1) by (nonlinear_arith)
            requires
                q == 0x20_0000_0000_0000,
                bits == (x + 1075) * 0x10_0000_0000_0000 + q - 0x10_0000_0000_0000,
                m == 0x10_0000_0000_0000 + bits % 0x10_0000_0000_0000,
                e == bits / 0x10_0000_0000_0000 - 1075,
        ;
    }
    if up.exp < 0 {
        assert(s.exp == up.exp);
        assert(s.num == num * pow2((-x) as nat));
        assert(s.den == den * pow2(0));
        assert(s.den == den) by (nonlinear_arith)
            requires
                s.den == den * pow2(0),
                pow2(0) == 1,
        ;
        if e != x {
            let p = pow2((-e) as nat) as int;
            lemma_pow2_adds(1, (-e) as nat);
            assert(1 + (-e) as nat == (-x) as nat);
            lemma_halved(num as int, p, den as int);
            if e == 0 {
                assert(p == 1);
                assert(num * 1 == num);
                assert(pow2(0) * den == den) by (nonlinear_arith)
                    requires
                        pow2(0) == 1,
                ;
            }
        }
    } else {
        assert(up.num == num) by (nonlinear_arith)
            requires
                up.num == num * pow2(0),
                pow2(0) == 1,
        ;
        assert(s.den == den * pow2(x as nat));
        assert(den * pow2(x as nat) == pow2(x as nat) * den) by (nonlinear_arith);
        if e != x {
            lemma_pow2_adds(1, x as nat);
            let step = pow2(e as nat) * den;
            assert(pow2(e as nat) == 2 * pow2(x as nat));
            assert(step == 2 * s.den) by (nonlinear_arith)
                requires
                    step == pow2(e as nat) * den,
                    pow2(e as nat) == 2 * pow2(x as nat),
                    s.den == den * pow2(x as nat),
            ;
            assert(m * step == q * s.den) by (nonlinear_arith)
                requires
                    m == 0x10_0000_0000_0000,
                    q == 0x20_0000_0000_0000,
                    step == 2 * s.den,
            ;
        }
    }
}

/// A whole number of at most 53 bits is kept, and a longer one becomes the nearest that has
/// no more than 53 that count.
pub proof fn law_long_number_is_rounded(n: nat)
    ensures
        n < 0x20_0000_0000_0000 ==> rounded53(n) == n,
        n >= 0x20_0000_0000_0000 ==> exists|j: nat|
            {
                let step = #[trigger] pow2(j) as int;
                &&& 0x10_0000_0000_0000 * step <= n < 0x20_0000_0000_0000 * step
                &&& rounded53(n) as int % step == 0
                &&& -step <= 2 * (n - rounded53(n)) <= step
            },
{
    lemma2_to64();
    let s = scale_down(n, 1, 0);
    if n < 0x20_0000_0000_0000 {
        assert(s.den == 1 && s.num == n);
        assert(n / 1 == n && n % 1 == 0);
        assert(nearest(n, 1) == n);
    } else {
        lemma_scale_down(n, 1, 0);
        lemma_nearest(s.num, s.den);
        let j = s.exp as nat;
        assert(1 * pow2(j) == pow2(j));
        let step = pow2(j) as int;
        let q = nearest(s.num, s.den) as int;
        assert(s.den == step);
        assert((q * step) % step == 0) by (nonlinear_arith)
            requires
                step > 0,
        ;
    }
}

/// The double that stands for a whole number, scaled: its sign, and the double that is nearest
/// to the quotient by a power of ten.
pub open spec fn scaled_double(v: int, places: nat) -> int {
    let n = if v < 0 {
        -v
    } else {
        v
    };
    (if v < 0 {
        0x8000_0000_0000_0000int
    } else {
        0
    }) + (if n == 0 {
        0
    } else {
        fraction_bits(rounded53(n as nat), pow(10, places) as nat)
    })
}

proof fn lemma_pow10(k: nat)
    ensures
        pow10(k) == pow(10, k),
        pow10(k) > 0,
    decreases k,
{
    reveal(pow);
    if k > 0 {
        lemma_pow10((k - 1) as nat);
    }
}

/// A number with places behind the point is the whole number of its field by the power of ten
/// that its scale says, with the sign of that number.
pub proof fn law_scaled_number(rec: Seq<u8>, desc: Desc, width: int)
    requires
        desc.dtype == 8 && width == 2 || desc.dtype == 9 && width == 4 || (desc.dtype == 10
            || desc.dtype == 19) && width == 8,
        -18 <= desc.scale < 0,
        desc.offset + width <= rec.len(),
    ensures
        match field_value(rec, desc) {
            Some(v) => {
                let n = little_endian(rec.subrange(desc.offset as int, desc.offset + width));
                let half = pow2((8 * width - 1) as nat);
                let whole = if n < half {
                    n
                } else {
                    n - 2 * half
                };
                &&& v.len() == 8
                &&& big_endian(v) == scaled_double(whole, (-desc.scale) as nat)
                    % 0x1_0000_0000_0000_0000
            },
            None => false,
        },
{
    let s = desc.offset as int;
    let k = (-desc.scale) as nat;
    lemma2_to64();
    lemma_pow10(k);
    lemma_pow2_adds(31, 32);
    assert(pow2(15) == 0x8000 && pow2(31) == 0x8000_0000 && pow2(63) == 0x8000_0000_0000_0000);
    law_long_number_is_rounded(0);
    let v = if width == 2 {
        lemma_little2(rec, s);
        signed(le16(rec, s), 16)
    } else if width == 4 {
        lemma_little4(rec, s);
        signed(le32(rec, s), 32)
    } else {
        lemma_little8(rec, s);
        signed(le64(rec, s), 64)
    };
    assert(scaled_bits(v, k) == scaled_double(v, k));
    assert(field_value(rec, desc) == Some(be64(scaled_bits(v, k))));
    lemma_written(scaled_bits(v, k));
}

} // verus!
