//! Exact integer reasoning about IEEE-754 binary64 values held as their raw
//! bits: truncation toward zero and ordering against an `i64`. Nothing here
//! rounds; every answer is the exact mathematical one.
use vstd::prelude::*;
use vstd::arithmetic::power2::{pow2, lemma_pow2_pos, lemma_pow2_adds, lemma_pow2_strictly_increases, lemma2_to64, lemma2_to64_rest};
use vstd::bits::{lemma_u64_shr_is_div, lemma_u64_shl_is_mul, lemma_u64_low_bits_mask_is_mod, low_bits_mask};

verus! {

/// `2^52`, the implicit leading bit of a normal binary64 significand.
pub open spec fn two52() -> int {
    0x10000000000000
}

/// The sign bit.
pub open spec fn f_neg(b: u64) -> bool {
    b >= 0x8000000000000000
}

/// The biased exponent field (11 bits).
pub open spec fn f_biased(b: u64) -> int {
    (b as int / two52()) % 2048
}

/// The fraction field (52 bits).
pub open spec fn f_frac(b: u64) -> int {
    b as int % two52()
}

/// Not-a-number.
pub open spec fn f_is_nan(b: u64) -> bool {
    f_biased(b) == 2047 && f_frac(b) != 0
}

/// An infinity.
pub open spec fn f_is_inf(b: u64) -> bool {
    f_biased(b) == 2047 && f_frac(b) == 0
}

/// The integer significand of a finite value.
pub open spec fn f_mant(b: u64) -> int {
    if f_biased(b) == 0 {
        f_frac(b)
    } else {
        f_frac(b) + two52()
    }
}

/// The binary exponent of a finite value: its magnitude is
/// `f_mant(b) * 2^f_exp(b)`.
pub open spec fn f_exp(b: u64) -> int {
    if f_biased(b) == 0 {
        -1074
    } else {
        f_biased(b) - 1075
    }
}

/// The finite value lies in `[-2^63, 2^63)`.
pub open spec fn f_in_i64_range(b: u64) -> bool {
    let k = -f_exp(b);
    let lim = pow2(63) as int;
    if f_exp(b) >= 0 {
        if f_neg(b) {
            f_mant(b) * pow2(f_exp(b) as nat) <= lim
        } else {
            f_mant(b) * pow2(f_exp(b) as nat) < lim
        }
    } else {
        if f_neg(b) {
            f_mant(b) <= lim * pow2(k as nat)
        } else {
            f_mant(b) < lim * pow2(k as nat)
        }
    }
}

/// The magnitude truncated toward zero.
pub open spec fn f_trunc_mag(b: u64) -> int {
    if f_exp(b) >= 0 {
        f_mant(b) * pow2(f_exp(b) as nat)
    } else {
        f_mant(b) / (pow2((-f_exp(b)) as nat) as int)
    }
}

/// The value truncated toward zero, when it is finite and lies in the `i64`
/// range (`NUM2LONG` on a Float); `None` otherwise.
pub open spec fn spec_float_trunc(b: u64) -> Option<int> {
    if f_biased(b) == 2047 || !f_in_i64_range(b) {
        None
    } else if f_neg(b) {
        Some(-f_trunc_mag(b))
    } else {
        Some(f_trunc_mag(b))
    }
}

/// The sign of an integer: `-1`, `0` or `1`.
pub open spec fn sgn(x: int) -> int {
    if x < 0 {
        -1
    } else if x > 0 {
        1
    } else {
        0
    }
}

/// `a <=> b` for an integer `a` and the float whose bits are `b`, decided
/// exactly: `None` for NaN.
pub open spec fn spec_int_order_float(a: int, b: u64) -> Option<int> {
    if f_is_nan(b) {
        None
    } else if f_is_inf(b) {
        Some(if f_neg(b) { 1int } else { -1int })
    } else {
        let sm = if f_neg(b) { -f_mant(b) } else { f_mant(b) };
        if f_exp(b) >= 0 {
            Some(sgn(a - sm * pow2(f_exp(b) as nat)))
        } else {
            Some(sgn(a * pow2((-f_exp(b)) as nat) - sm))
        }
    }
}

/// The raw fields of `b`: sign, biased exponent, fraction.
fn decode(b: u64) -> (r: (bool, u64, u64))
    ensures
        r.0 == f_neg(b),
        r.1 == f_biased(b),
        r.2 == f_frac(b),
        r.1 < 2048,
        r.2 < two52(),
{
    let neg = b >= 0x8000000000000000u64;
    let exp = (b >> 52u64) & 0x7ffu64;
    let frac = b & 0xfffffffffffffu64;
    assert((b >> 52u64) & 0x7ffu64 == (b / 0x10000000000000u64) % 2048) by (bit_vector);
    assert(b & 0xfffffffffffffu64 == b % 0x10000000000000u64) by (bit_vector);
    assert((b >> 52u64) & 0x7ffu64 < 2048) by (bit_vector);
    assert(b & 0xfffffffffffffu64 < 0x10000000000000u64) by (bit_vector);
    (neg, exp, frac)
}

/// Whether `b` encodes a NaN.
pub fn float_is_nan(b: u64) -> (r: bool)
    ensures
        r == f_is_nan(b),
{
    let (_neg, exp, frac) = decode(b);
    exp == 2047 && frac != 0
}

proof fn lemma_pow2_52_63()
    ensures
        pow2(52) == two52(),
        pow2(63) == 0x8000000000000000,
        pow2(11) == 2048,
        pow2(10) == 1024,
        pow2(64) == 0x10000000000000000,
{
    lemma2_to64();
    lemma2_to64_rest();
}

/// Truncation toward zero of a finite float inside the `i64` range.
pub fn float_trunc_i64(b: u64) -> (r: Option<i64>)
    ensures
        r matches Some(v) ==> spec_float_trunc(b) == Some(v as int),
        r is None ==> spec_float_trunc(b) is None,
{
    let (neg, exp, frac) = decode(b);
    proof {
        lemma_pow2_52_63();
    }
    if exp == 2047 {
        return None;
    }
    let mant: u64 = if exp == 0 { frac } else { frac + 0x10000000000000u64 };
    assert(mant == f_mant(b));
    assert(mant < 0x20000000000000u64);
    if exp >= 1075 {
        let e: u64 = exp - 1075;
        assert(e == f_exp(b));
        if e <= 10 {
            proof {
                if e < 10 {
                    lemma_pow2_strictly_increases(e as nat, 10);
                }
                lemma_pow2_pos(e as nat);
                assert(mant * pow2(e as nat) < 0x8000000000000000) by (nonlinear_arith)
                    requires mant < 0x20000000000000, pow2(e as nat) <= 1024, pow2(e as nat) > 0;
                lemma_u64_shl_is_mul(mant, e);
            }
            let mag = mant << e;
            assert(mag == f_trunc_mag(b));
            assert(mag < 0x8000000000000000u64);
            if neg {
                return Some(0i64 - mag as i64);
            } else {
                return Some(mag as i64);
            }
        } else {
            proof {
                assert(mant >= two52());
                if e > 11 {
                    lemma_pow2_strictly_increases(11, e as nat);
                    lemma_pow2_adds(52, 11);
                    assert(mant * pow2(e as nat) > 0x8000000000000000) by (nonlinear_arith)
                        requires mant >= 0x10000000000000, pow2(e as nat) > 2048;
                } else if mant > 0x10000000000000 {
                    assert(mant * pow2(e as nat) > 0x8000000000000000) by (nonlinear_arith)
                        requires mant > 0x10000000000000, pow2(e as nat) == 2048;
                } else {
                    assert(mant * pow2(e as nat) == 0x8000000000000000);
                }
            }
            if neg && mant == 0x10000000000000u64 && e == 11 {
                return Some(i64::MIN);
            }
            return None;
        }
    } else {
        let k: u64 = if exp == 0 { 1074 } else { 1075 - exp };
        assert(k as int == -f_exp(b));
        proof {
            lemma_pow2_pos(k as nat);
            assert(mant < 0x8000000000000000 * pow2(k as nat)) by (nonlinear_arith)
                requires mant < 0x20000000000000, pow2(k as nat) >= 1;
        }
        let t: u64 = if k >= 64 {
            proof {
                if k > 64 {
                    lemma_pow2_strictly_increases(64, k as nat);
                }
                vstd::arithmetic::div_mod::lemma_basic_div(mant as int, pow2(k as nat) as int);
            }
            0
        } else {
            proof {
                lemma_u64_shr_is_div(mant, k);
            }
            mant >> k
        };
        assert(t == f_trunc_mag(b));
        proof {
            vstd::arithmetic::div_mod::lemma_div_is_ordered_by_denominator(mant as int, 1, pow2(k as nat) as int);
        }
        assert(t <= mant);
        if neg {
            return Some(0i64 - t as i64);
        } else {
            return Some(t as i64);
        }
    }
}

/// `a <=> f` for an integer and the float with bits `b`, decided exactly
/// (a plain `as f64` cast would collapse `2^53 + 1` onto `2^53`): `-1`, `0`
/// or `1`, or `None` when the float is NaN.
pub fn int_order_float(a: i64, b: u64) -> (r: Option<i8>)
    ensures
        r matches Some(v) ==> spec_int_order_float(a as int, b) == Some(v as int),
        r is None ==> spec_int_order_float(a as int, b) is None,
{
    let (neg, exp, frac) = decode(b);
    proof {
        lemma_pow2_52_63();
    }
    if exp == 2047 {
        if frac != 0 {
            return None;
        }
        return Some(if neg { 1i8 } else { -1i8 });
    }
    let mant: u64 = if exp == 0 { frac } else { frac + 0x10000000000000u64 };
    assert(mant == f_mant(b));
    assert(mant < 0x20000000000000u64);
    if exp >= 1075 {
        let e: u64 = exp - 1075;
        assert(e == f_exp(b));
        if e <= 10 {
            proof {
                if e < 10 {
                    lemma_pow2_strictly_increases(e as nat, 10);
                }
                lemma_pow2_pos(e as nat);
                assert(mant * pow2(e as nat) < 0x8000000000000000) by (nonlinear_arith)
                    requires mant < 0x20000000000000, pow2(e as nat) <= 1024, pow2(e as nat) > 0;
                lemma_u64_shl_is_mul(mant, e);
            }
            let mag = mant << e;
            let sv: i64 = if neg { 0i64 - mag as i64 } else { mag as i64 };
            proof {
                let sm = if neg { -f_mant(b) } else { f_mant(b) };
                assert(sm * pow2(e as nat) == sv) by (nonlinear_arith)
                    requires sm == (if neg { -(mant as int) } else { mant as int }),
                        mag == mant * pow2(e as nat),
                        sv == (if neg { -(mag as int) } else { mag as int });
            }
            if a < sv {
                return Some(-1i8);
            } else if a > sv {
                return Some(1i8);
            } else {
                return Some(0i8);
            }
        } else {
            proof {
                assert(mant >= two52());
                if e > 11 {
                    lemma_pow2_strictly_increases(11, e as nat);
                    assert(mant * pow2(e as nat) > 0x8000000000000000) by (nonlinear_arith)
                        requires mant >= 0x10000000000000, pow2(e as nat) > 2048;
                } else if mant > 0x10000000000000 {
                    assert(mant * pow2(e as nat) > 0x8000000000000000) by (nonlinear_arith)
                        requires mant > 0x10000000000000, pow2(e as nat) == 2048;
                } else {
                    assert(mant * pow2(e as nat) == 0x8000000000000000);
                }
            }
            if !neg {
                return Some(-1i8);
            }
            proof {
                let sm = -f_mant(b);
                assert(sm * pow2(e as nat) == -(mant * pow2(e as nat))) by (nonlinear_arith)
                    requires sm == -(mant as int);
            }
            if mant == 0x10000000000000u64 && e == 11 && a == i64::MIN {
                return Some(0i8);
            }
            return Some(1i8);
        }
    } else {
        let k: u64 = if exp == 0 { 1074 } else { 1075 - exp };
        assert(k as int == -f_exp(b));
        let ghost p: int = pow2(k as nat) as int;
        proof {
            lemma_pow2_pos(k as nat);
        }
        let (t, rem): (u64, u64) = if k >= 64 {
            proof {
                if k > 64 {
                    lemma_pow2_strictly_increases(64, k as nat);
                }
                vstd::arithmetic::div_mod::lemma_basic_div(mant as int, p);
                vstd::arithmetic::div_mod::lemma_small_mod(mant as nat, p as nat);
            }
            (0, mant)
        } else {
            proof {
                lemma_u64_shr_is_div(mant, k);
                vstd::arithmetic::div_mod::lemma_fundamental_div_mod(mant as int, p);
                vstd::arithmetic::div_mod::lemma_mod_bound(mant as int, p);
                vstd::arithmetic::div_mod::lemma_div_is_ordered_by_denominator(mant as int, 1, p);
            }
            let t = mant >> k;
            proof {
                assert(t * p <= mant) by (nonlinear_arith)
                    requires t * p + (mant as int % p) == mant, mant as int % p >= 0;
                assert(t * p < 0x20000000000000);
                lemma_u64_shl_is_mul(t, k);
            }
            let tp = t << k;
            (t, mant - tp)
        };
        assert(mant == t * p + rem && 0 <= rem < p);
        assert(t <= mant);
        let sv: i64 = if neg { 0i64 - t as i64 } else { t as i64 };
        proof {
            if neg {
                assert(a * p + mant == (a + t) * p + rem) by (nonlinear_arith)
                    requires mant == t * p + rem;
            } else {
                assert(a * p - mant == (a - t) * p - rem) by (nonlinear_arith)
                    requires mant == t * p + rem;
            }
        }
        if a < sv {
            proof {
                if neg {
                    assert((a + t) * p + rem < 0) by (nonlinear_arith)
                        requires a + t <= -1, rem < p, p > 0;
                } else {
                    assert((a - t) * p - rem < 0) by (nonlinear_arith)
                        requires a - t <= -1, rem >= 0, p > 0;
                }
            }
            return Some(-1i8);
        } else if a > sv {
            proof {
                if neg {
                    assert((a + t) * p + rem > 0) by (nonlinear_arith)
                        requires a + t >= 1, rem >= 0, p > 0;
                } else {
                    assert((a - t) * p - rem > 0) by (nonlinear_arith)
                        requires a - t >= 1, rem < p, p > 0;
                }
            }
            return Some(1i8);
        } else if rem == 0 {
            return Some(0i8);
        } else {
            return Some(if neg { 1i8 } else { -1i8 });
        }
    }
}


/// The magnitude field of a non-NaN encoding `k` (sign bit clear) scaled to
/// an integer: a finite value `m * 2^e` becomes `m * 2^(e + 1074)`, and the
/// infinity lies beyond every finite magnitude.
pub open spec fn mag_of_key(k: int) -> int {
    let biased = k / two52();
    let frac = k % two52();
    if biased >= 2047 {
        pow2(2100) as int
    } else if biased == 0 {
        frac
    } else {
        (frac + two52()) * pow2((biased - 1) as nat)
    }
}

/// The value of a non-NaN float scaled by `2^1074`, with the infinities
/// placed beyond every finite value; `-0.0` and `0.0` coincide.
pub open spec fn f_val(b: u64) -> int {
    let k = b as int % pow2(63) as int;
    if f_neg(b) {
        -mag_of_key(k)
    } else {
        mag_of_key(k)
    }
}

/// `a <=> b` for two floats given by their bits (`Float#<=>`): `-1`, `0` or
/// `1`, or `None` when either is NaN.
pub open spec fn spec_float_order(a: u64, b: u64) -> Option<int> {
    if f_is_nan(a) || f_is_nan(b) {
        None
    } else {
        Some(sgn(f_val(a) - f_val(b)))
    }
}

proof fn lemma_mag_step(e: nat, f: int)
    requires
        0 <= f < two52(),
    ensures
        (f + two52()) * pow2(e) < two52() * pow2(e + 1),
        two52() * pow2(e) <= (f + two52()) * pow2(e),
{
    lemma_pow2_adds(e, 1);
    lemma_pow2_pos(e);
    vstd::arithmetic::power2::lemma2_to64();
    assert((f + two52()) * pow2(e) < two52() * (pow2(e) * 2)) by (nonlinear_arith)
        requires f < two52(), pow2(e) > 0;
    assert(two52() * pow2(e) <= (f + two52()) * pow2(e)) by (nonlinear_arith)
        requires f >= 0, pow2(e) > 0;
}

/// Magnitudes grow strictly with the encoding.
proof fn lemma_mag_monotone(k1: int, k2: int)
    requires
        0 <= k1 < k2 <= 2047 * two52(),
    ensures
        mag_of_key(k1) < mag_of_key(k2),
        mag_of_key(k1) >= 0,
        mag_of_key(k1) == 0 <==> k1 == 0,
{
    let e1 = k1 / two52();
    let f1 = k1 % two52();
    let e2 = k2 / two52();
    let f2 = k2 % two52();
    vstd::arithmetic::div_mod::lemma_fundamental_div_mod(k1, two52());
    vstd::arithmetic::div_mod::lemma_fundamental_div_mod(k2, two52());
    vstd::arithmetic::div_mod::lemma_mod_bound(k1, two52());
    vstd::arithmetic::div_mod::lemma_mod_bound(k2, two52());
    assert(e1 <= e2 <= 2047) by (nonlinear_arith)
        requires k1 < k2, k2 <= 2047 * two52(), k1 == two52() * e1 + f1, k2 == two52() * e2 + f2,
            0 <= f1 < two52(), 0 <= f2 < two52(), k1 >= 0;
    assert(e1 >= 0) by (nonlinear_arith)
        requires k1 == two52() * e1 + f1, 0 <= f1 < two52(), k1 >= 0;
    if e1 >= 1 {
        lemma_pow2_pos((e1 - 1) as nat);
        assert(mag_of_key(k1) >= two52()) by (nonlinear_arith)
            requires mag_of_key(k1) == (f1 + two52()) * pow2((e1 - 1) as nat), f1 >= 0,
                pow2((e1 - 1) as nat) >= 1;
    }
    if e1 == e2 {
        assert(f1 < f2) by (nonlinear_arith)
            requires k1 < k2, k1 == two52() * e1 + f1, k2 == two52() * e2 + f2, e1 == e2;
        if e1 >= 1 && e1 < 2047 {
            lemma_pow2_pos((e1 - 1) as nat);
            assert((f1 + two52()) * pow2((e1 - 1) as nat) < (f2 + two52()) * pow2((e1 - 1) as nat))
                by (nonlinear_arith)
                requires f1 < f2, pow2((e1 - 1) as nat) > 0;
        }
        if e1 == 2047 {
            assert(k2 > 2047 * two52()) by (nonlinear_arith)
                requires k2 == two52() * e2 + f2, e2 == 2047, f2 > f1, f1 >= 0;
        }
    } else {
        if e2 == 2047 {
            assert(e1 <= 2046);
            lemma_pow2_52_63();
            lemma_pow2_strictly_increases(52, 2100);
            if e1 >= 1 {
                lemma_mag_step((e1 - 1) as nat, f1);
                lemma_pow2_strictly_increases(e1 as nat, 2048);
                lemma_pow2_adds(52, 2048);
                assert(two52() * pow2(e1 as nat) < two52() * pow2(2048)) by (nonlinear_arith)
                    requires pow2(e1 as nat) < pow2(2048);
            }
        } else {
            lemma_mag_step((e2 - 1) as nat, f2);
            if e1 == 0 {
                lemma_pow2_pos((e2 - 1) as nat);
                assert(f1 < two52() * pow2((e2 - 1) as nat)) by (nonlinear_arith)
                    requires f1 < two52(), pow2((e2 - 1) as nat) >= 1;
            } else {
                lemma_mag_step((e1 - 1) as nat, f1);
                if e1 < e2 - 1 {
                    lemma_pow2_strictly_increases(e1 as nat, (e2 - 1) as nat);
                }
                assert(two52() * pow2(e1 as nat) <= two52() * pow2((e2 - 1) as nat)) by (nonlinear_arith)
                    requires pow2(e1 as nat) <= pow2((e2 - 1) as nat);
            }
        }
    }
}

/// Magnitudes order exactly as their encodings do.
proof fn lemma_mag_order(k1: int, k2: int)
    requires
        0 <= k1 <= 2047 * two52(),
        0 <= k2 <= 2047 * two52(),
    ensures
        sgn(mag_of_key(k1) - mag_of_key(k2)) == sgn(k1 - k2),
        mag_of_key(k1) >= 0,
        mag_of_key(k2) >= 0,
        mag_of_key(k1) == 0 <==> k1 == 0,
        mag_of_key(k2) == 0 <==> k2 == 0,
{
    if k1 < k2 {
        lemma_mag_monotone(k1, k2);
        if k2 < 2047 * two52() {
            lemma_mag_monotone(k2, 2047 * two52());
        }
    } else if k2 < k1 {
        lemma_mag_monotone(k2, k1);
        if k1 < 2047 * two52() {
            lemma_mag_monotone(k1, 2047 * two52());
        }
    } else if k1 < 2047 * two52() {
        lemma_mag_monotone(k1, 2047 * two52());
    } else {
        lemma_pow2_pos(2100);
        lemma_pow2_52_63();
        assert(k1 / two52() == 2047);
    }
}

/// `a <=> b` on two floats given by their bits, decided exactly.
pub fn float_order(a: u64, b: u64) -> (r: Option<i8>)
    ensures
        r matches Some(v) ==> spec_float_order(a, b) == Some(v as int),
        r is None ==> spec_float_order(a, b) is None,
{
    let (_, ea, fa) = decode(a);
    let (_, eb, fb) = decode(b);
    if (ea == 2047 && fa != 0) || (eb == 2047 && fb != 0) {
        return None;
    }
    let ka: u64 = a & 0x7fffffffffffffffu64;
    let kb: u64 = b & 0x7fffffffffffffffu64;
    proof {
        lemma_pow2_52_63();
        assert(a & 0x7fffffffffffffffu64 == a % 0x8000000000000000u64) by (bit_vector);
        assert(b & 0x7fffffffffffffffu64 == b % 0x8000000000000000u64) by (bit_vector);
        assert((a % 0x8000000000000000u64) / 0x10000000000000u64 == (a / 0x10000000000000u64)
            % 2048) by (bit_vector);
        assert((b % 0x8000000000000000u64) / 0x10000000000000u64 == (b / 0x10000000000000u64)
            % 2048) by (bit_vector);
        assert((a % 0x8000000000000000u64) % 0x10000000000000u64 == a % 0x10000000000000u64)
            by (bit_vector);
        assert((b % 0x8000000000000000u64) % 0x10000000000000u64 == b % 0x10000000000000u64)
            by (bit_vector);
        vstd::arithmetic::div_mod::lemma_fundamental_div_mod(ka as int, two52());
        vstd::arithmetic::div_mod::lemma_fundamental_div_mod(kb as int, two52());
        assert(ka as int == two52() * ea + fa);
        assert(kb as int == two52() * eb + fb);
        assert(ka <= 2047 * two52()) by (nonlinear_arith)
            requires ka as int == two52() * ea + fa, ea <= 2047, fa < two52(),
                ea == 2047 ==> fa == 0;
        assert(kb <= 2047 * two52()) by (nonlinear_arith)
            requires kb as int == two52() * eb + fb, eb <= 2047, fb < two52(),
                eb == 2047 ==> fb == 0;
        lemma_mag_order(ka as int, kb as int);
    }
    let sa: i128 = if a >= 0x8000000000000000u64 { 0i128 - ka as i128 } else { ka as i128 };
    let sb: i128 = if b >= 0x8000000000000000u64 { 0i128 - kb as i128 } else { kb as i128 };
    if sa < sb {
        Some(-1i8)
    } else if sa > sb {
        Some(1i8)
    } else {
        Some(0i8)
    }
}

} // verus!
