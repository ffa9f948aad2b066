//! Decimal literals as binary64 values: the binary64 nearest to `m × 10^e`,
//! ties to even, computed exactly with integers.
use vstd::prelude::*;
use vstd::arithmetic::power2::{pow2, lemma_pow2_unfold, lemma_pow2_pos, lemma_pow2_strictly_increases, lemma2_to64, lemma2_to64_rest};
use vstd::arithmetic::div_mod::{lemma_fundamental_div_mod, lemma_fundamental_div_mod_converse, lemma_div_denominator};
use crate::float_bits::{two52, f_neg, f_biased, f_frac, f_mant, f_exp};

verus! {

/// `10^k`.
pub open spec fn pow10(k: nat) -> nat
    decreases k,
{
    if k == 0 {
        1
    } else {
        10 * pow10((k - 1) as nat)
    }
}

/// The numerator of the decimal `m × 10^e` written as a fraction over
/// [`dec_den`].
pub open spec fn dec_num(m: u64, e: int) -> int {
    if e >= 0 {
        m * pow10(e as nat)
    } else {
        m as int
    }
}

/// The denominator of the decimal `m × 10^e`.
pub open spec fn dec_den(e: int) -> int {
    if e >= 0 {
        1
    } else {
        pow10((-e) as nat) as int
    }
}

/// `num / den − value(b)`, scaled by `den` and, for a negative binary
/// exponent, by `2^-f_exp(b)`, so that it is an integer.
pub open spec fn near_diff(num: int, den: int, b: u64) -> int {
    let q = f_mant(b);
    let e = f_exp(b);
    if e >= 0 {
        num - q * (pow2(e as nat) * den)
    } else {
        num * pow2((-e) as nat) - q * den
    }
}

/// The spacing `2^f_exp(b)` of the binary64 values around `b`, at the same
/// scale as [`near_diff`].
pub open spec fn near_unit(den: int, b: u64) -> int {
    let e = f_exp(b);
    if e >= 0 {
        pow2(e as nat) * den
    } else {
        den
    }
}

/// `b` is a positive normal binary64 and the one nearest to `num / den`,
/// ties going to the even significand: the distance to `num / den` is at
/// most half the spacing above `b` and half the spacing below it (a quarter
/// of `b`'s own spacing when `b` is a power of two, whose predecessor lies
/// closer), and a distance of exactly half goes to an even significand.
pub open spec fn is_nearest_binary64(num: int, den: int, b: u64) -> bool {
    let d = near_diff(num, den, b);
    let w = near_unit(den, b);
    let q = f_mant(b);
    let low_edge = q == two52() && f_biased(b) > 1;
    &&& !f_neg(b)
    &&& 1 <= f_biased(b) <= 2046
    &&& 2 * d <= w
    &&& (if low_edge { -4 * d <= w } else { -2 * d <= w })
    &&& (2 * d == w ==> q % 2 == 0)
    &&& (!low_edge && -2 * d == w ==> q % 2 == 0)
}

/// The bits of the decimal literal `m × 10^e`: `0` for zero, else the
/// nearest binary64.
pub open spec fn is_decimal_bits(m: u64, e: int, b: u64) -> bool {
    if m == 0 {
        b == 0
    } else {
        is_nearest_binary64(dec_num(m, e), dec_den(e), b)
    }
}

/// Powers of ten grow with the exponent.
proof fn lemma_pow10_mono(i: nat, j: nat)
    requires
        i <= j,
    ensures
        1 <= pow10(i) <= pow10(j),
    decreases j,
{
    if j == 0 {
    } else if i < j {
        lemma_pow10_mono(i, (j - 1) as nat);
    } else {
        lemma_pow10_mono((i - 1) as nat, (j - 1) as nat);
    }
}

/// `10^k` for `k <= 38`.
fn pow10_u128(k: u32) -> (p: u128)
    requires
        k <= 38,
    ensures
        p == pow10(k as nat),
        p <= 100000000000000000000000000000000000000,
{
    proof {
        reveal_with_fuel(pow10, 39);
        assert(pow10(38) == 100000000000000000000000000000000000000);
    }
    let mut p: u128 = 1;
    let mut i: u32 = 0;
    while i < k
        invariant
            i <= k <= 38,
            p == pow10(i as nat),
            pow10(38) == 100000000000000000000000000000000000000,
        decreases k - i,
    {
        proof {
            lemma_pow10_mono((i + 1) as nat, 38);
        }
        p = p * 10;
        i = i + 1;
    }
    proof {
        lemma_pow10_mono(i as nat, 38);
    }
    p
}

/// The decimal literals the conversion takes: a positive exponent of at most
/// 38 whose value fits in 128 bits, or a negative one of at most 22.
pub open spec fn dec_in_range(m: u64, e: int) -> bool {
    if e >= 0 {
        e <= 38 && m * pow10(e as nat) <= u128::MAX
    } else {
        e >= -22
    }
}

/// The bits of the decimal literal `m × 10^e`, for the literals
/// [`dec_in_range`] admits.
pub fn decimal_to_binary64(m: u64, e: i32) -> (r: Option<u64>)
    ensures
        r is Some <==> dec_in_range(m, e as int),
        r matches Some(b) ==> is_decimal_bits(m, e as int, b),
{
    if e < -22 || e > 38 {
        return None;
    }
    let k: u32 = if e >= 0 { e as u32 } else { (-e) as u32 };
    let p = pow10_u128(k);
    let n0: u128 = if e >= 0 {
        match (m as u128).checked_mul(p) {
            Some(x) => x,
            None => {
                return None;
            },
        }
    } else {
        m as u128
    };
    if m == 0 {
        return Some(0);
    }
    let ghost num: int = dec_num(m, e as int);
    let ghost den: int = dec_den(e as int);
    proof {
        lemma2_to64();
        lemma2_to64_rest();
        if e < 0 {
            lemma_pow10_mono(k as nat, 22);
            reveal_with_fuel(pow10, 23);
            assert(pow10(22) == 10000000000000000000000);
        }
    }
    let mut n: u128 = n0;
    let mut d: u128 = if e >= 0 { 1 } else { p };
    let mut a: u32 = 0;
    let mut c: u32 = 0;
    proof {
        reveal_with_fuel(pow10, 1);
        lemma_pow10_mono(0, k as nat);
        assert(pow2(0) == 1) by {
            lemma2_to64();
        }
        assert(n == num * pow2(0));
        assert(d == den * pow2(0));
        assert(num >= 1) by (nonlinear_arith)
            requires
                num == (if e >= 0 { m * pow10(k as nat) } else { m as int }),
                m >= 1,
                pow10(k as nat) >= 1,
        ;
    }
    // Scale the denominator up until the quotient has at most 53 bits.
    while n / d >= 0x20000000000000
        invariant
            1 <= num,
            1 <= den <= 10000000000000000000000,
            a == 0,
            n == num * pow2(a as nat),
            d == den * pow2(c as nat),
            1 <= d <= 0x10000000000000000000,
            c <= 75,
            c > 0 ==> n / d >= 0x10000000000000,
        decreases 75 - c,
    {
        proof {
            lemma_fundamental_div_mod(n as int, d as int);
            assert(d * 0x20000000000000 <= n) by (nonlinear_arith)
                requires
                    n == d * (n / d) + n % d,
                    n % d >= 0,
                    n / d >= 0x20000000000000,
                    d >= 1,
            ;
            lemma2_to64_rest();
            lemma_pow2_pos(c as nat);
            assert(pow2(c as nat) <= d) by (nonlinear_arith)
                requires
                    d == den * pow2(c as nat),
                    den >= 1,
                    pow2(c as nat) > 0,
            ;
            if c >= 75 {
                if c > 75 {
                    lemma_pow2_strictly_increases(75, c as nat);
                }
                lemma2_to64();
                vstd::arithmetic::power2::lemma_pow2_adds(75, 53);
                vstd::arithmetic::power2::lemma_pow2_adds(64, 64);
                assert(pow2(128) == 0x100000000000000000000000000000000) by (nonlinear_arith)
                    requires
                        pow2(128) == pow2(64) * pow2(64),
                        pow2(64) == 0x10000000000000000,
                ;
                assert(false);
            }
            lemma_div_denominator(n as int, d as int, 2);
            lemma_pow2_unfold((c + 1) as nat);
        }
        d = d * 2;
        c = c + 1;
        proof {
            assert(d == den * pow2(c as nat)) by (nonlinear_arith)
                requires
                    d == 2 * (den * pow2((c - 1) as nat)),
                    pow2(c as nat) == 2 * pow2((c - 1) as nat),
            ;
        }
    }
    // Scale the numerator up until the quotient has at least 53 bits.
    while n / d < 0x10000000000000
        invariant
            1 <= num,
            1 <= den <= 10000000000000000000000,
            a == 0 || c == 0,
            n == num * pow2(a as nat),
            d == den * pow2(c as nat),
            1 <= d <= 0x10000000000000000000,
            c <= 75,
            a <= 126,
            c > 0 ==> n / d >= 0x10000000000000,
            n / d < 0x20000000000000,
        decreases 126 - a,
    {
        proof {
            lemma2_to64();
            lemma_fundamental_div_mod(n as int, d as int);
            assert(n < 0x10000000000000 * d) by (nonlinear_arith)
                requires
                    n == d * (n / d) + n % d,
                    n % d < d,
                    n / d < 0x10000000000000,
                    n / d >= 0,
            ;
            assert(c == 0);
            assert(pow2(c as nat) == 1);
            assert(den * 1 == den);
            assert(d == den);
            lemma_pow2_pos(a as nat);
            assert(pow2(a as nat) <= n) by (nonlinear_arith)
                requires
                    n == num * pow2(a as nat),
                    num >= 1,
                    pow2(a as nat) > 0,
            ;
            lemma2_to64_rest();
            if a >= 126 {
                if a > 126 {
                    lemma_pow2_strictly_increases(126, a as nat);
                }
                vstd::arithmetic::power2::lemma_pow2_adds(63, 63);
                assert(pow2(126) == 0x40000000000000000000000000000000) by (nonlinear_arith)
                    requires
                        pow2(126) == pow2(63) * pow2(63),
                        pow2(63) == 0x8000000000000000,
                ;
                assert(n < 0x10000000000000 * 10000000000000000000000) by (nonlinear_arith)
                    requires
                        n < 0x10000000000000 * d,
                        d <= 10000000000000000000000,
                ;
                assert(false);
            }
            lemma_pow2_unfold((a + 1) as nat);
        }
        n = n * 2;
        a = a + 1;
        proof {
            assert(n == num * pow2(a as nat)) by (nonlinear_arith)
                requires
                    n == 2 * (num * pow2((a - 1) as nat)),
                    pow2(a as nat) == 2 * pow2((a - 1) as nat),
            ;
            lemma_fundamental_div_mod(n as int, d as int);
            assert(n / d < 0x20000000000000) by (nonlinear_arith)
                requires
                    n == d * (n / d) + n % d,
                    n % d >= 0,
                    n < 0x20000000000000 * d,
                    d >= 1,
            ;
        }
    }
    let q0 = n / d;
    let r = n % d;
    proof {
        lemma_fundamental_div_mod(n as int, d as int);
    }
    let up = 2 * r > d || (2 * r == d && q0 % 2 == 1);
    let q1: u128 = if up { q0 + 1 } else { q0 };
    let renorm = q1 == 0x20000000000000;
    let q: u128 = if renorm { 0x10000000000000 } else { q1 };
    let biased: u64 = if renorm { 1076 + c as u64 - a as u64 } else { 1075 + c as u64 - a as u64 };
    let bits: u64 = biased * 0x10000000000000 + (q - 0x10000000000000) as u64;
    proof {
        lemma_fundamental_div_mod_converse(bits as int, two52(), biased as int, (q - 0x10000000000000) as int);
        assert(f_biased(bits) == biased);
        assert(f_frac(bits) == q - 0x10000000000000);
        lemma_round_nearest(num, den, n as int, d as int, a as nat, c as nat, q0 as int, r as int, up, renorm, bits);
    }
    Some(bits)
}

/// The rounding step: `q0` and `r` are the quotient and remainder of `n / d`
/// for the scaled fraction `n / d = num / den × 2^(a − c)`; rounding `q0`
/// half to even (and renormalising a carry into bit 53) gives the nearest
/// binary64.
proof fn lemma_round_nearest(num: int, den: int, n: int, d: int, a: nat, c: nat, q0: int, r: int, up: bool, renorm: bool, bits: u64)
    requires
        1 <= num,
        1 <= den,
        a == 0 || c == 0,
        n == num * pow2(a),
        d == den * pow2(c),
        1 <= d,
        n == d * q0 + r,
        0 <= r < d,
        0x10000000000000 <= q0 < 0x20000000000000,
        up == (2 * r > d || (2 * r == d && q0 % 2 == 1)),
        renorm == (up && q0 + 1 == 0x20000000000000),
        !f_neg(bits),
        f_mant(bits) == (if renorm { 0x10000000000000 } else if up { q0 + 1 } else { q0 }),
        f_exp(bits) == (if renorm { c - a + 1 } else { c - a }),
        2 <= f_biased(bits) <= 2046,
    ensures
        is_nearest_binary64(num, den, bits),
{
    lemma2_to64();
    let q = f_mant(bits);
    let e = f_exp(bits);
    let dd = near_diff(num, den, bits);
    let w = near_unit(den, bits);
    if !renorm {
        assert(dd == n - q * d && w == d) by {
            if a == 0 {
                assert(pow2(0) == 1) by {
                    lemma2_to64();
                }
                assert(pow2(a) == 1);
                assert(num * 1 == num);
                assert(num * pow2(a) == num);
                assert(q * (pow2(e as nat) * den) == q * d) by (nonlinear_arith)
                    requires
                        d == den * pow2(c),
                        e == c,
                ;
                assert(pow2(e as nat) * den == d) by (nonlinear_arith)
                    requires
                        d == den * pow2(c),
                        e == c,
                ;
            } else {
                assert(c == 0);
                assert(pow2(c) == 1);
                assert(den * 1 == den);
                assert(d == den);
                assert(num * pow2((-e) as nat) == n);
            }
        }
        if up {
            assert(dd == r - d) by (nonlinear_arith)
                requires
                    dd == n - q * d,
                    q == q0 + 1,
                    n == d * q0 + r,
            ;
        } else {
            assert(dd == r) by (nonlinear_arith)
                requires
                    dd == n - q * d,
                    q == q0,
                    n == d * q0 + r,
            ;
        }
    } else {
        assert(q == 0x10000000000000);
        if a == 0 {
            assert(pow2(0) == 1) by {
                lemma2_to64();
            }
            vstd::arithmetic::power2::lemma_pow2_unfold((c + 1) as nat);
            assert(e == c + 1);
            assert(w == 2 * d) by (nonlinear_arith)
                requires
                    w == pow2(e as nat) * den,
                    pow2(e as nat) == 2 * pow2(c),
                    d == den * pow2(c),
            ;
            assert(dd == r - d) by (nonlinear_arith)
                requires
                    dd == num - q * (pow2(e as nat) * den),
                    pow2(e as nat) * den == 2 * d,
                    q == 0x10000000000000,
                    n == num,
                    n == d * q0 + r,
                    q0 == 0x1fffffffffffff,
            ;
        } else {
            assert(c == 0);
            assert(pow2(c) == 1);
            assert(den * 1 == den);
            assert(d == den);
            vstd::arithmetic::power2::lemma_pow2_unfold(a);
            if a == 1 {
                assert(e == 0);
                assert(2 * dd == r - d) by (nonlinear_arith)
                    requires
                        dd == num - q * (pow2(0) * den),
                        pow2(0) == 1,
                        q == 0x10000000000000,
                        n == num * pow2(1),
                        pow2(1) == 2 * pow2(0),
                        d == den,
                        n == d * q0 + r,
                        q0 == 0x1fffffffffffff,
                ;
                assert(w == d);
            } else {
                assert(e == 1 - a);
                assert((-e) as nat == (a - 1) as nat);
                assert(2 * dd == r - d) by (nonlinear_arith)
                    requires
                        dd == num * pow2((a - 1) as nat) - q * den,
                        q == 0x10000000000000,
                        n == num * pow2(a),
                        pow2(a) == 2 * pow2((a - 1) as nat),
                        d == den,
                        n == d * q0 + r,
                        q0 == 0x1fffffffffffff,
                ;
                assert(w == d);
            }
        }
    }
}

} // verus!
