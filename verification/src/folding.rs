//! Constant folding of value-pinned method calls on literal receivers: the
//! conservative deterministic core. A fold answers `Some` only when the result
//! is exactly what Ruby computes; on any doubt (an unmodeled method, overflow,
//! a zero divisor, a non-ASCII case mapping) it declines with `None`.
use vstd::prelude::*;
use vstd::arithmetic::power::pow;
use crate::scalar::{Scalar, ScalarV, opt_view, checked_int, int_to_decimal, i64_to_decimal};
use crate::text::{str_eq, to_chars, from_chars};
use crate::float_bits::{sgn, spec_int_order_float, int_order_float, spec_float_order, float_order};
use vstd::arithmetic::power2::pow2;
use crate::lookup::{spec_lookup, LookupV, LookupFold, fold_str_lookup};
use crate::kernel::STRING_FOLD_BYTE_LIMIT;
use crate::types::{scalar_eq, scalar_copy};

verus! {

/// The `(class, method)` pairs of the Rust-foldable catalogue.
pub open spec fn spec_is_foldable(class: Seq<char>, m: Seq<char>) -> bool {
    if class == "Integer"@ {
        m == "+"@ || m == "-"@ || m == "*"@ || m == "/"@ || m == "%"@ || m == "**"@ || m == "&"@
            || m == "|"@ || m == "^"@ || m == "<<"@ || m == ">>"@ || m == "<"@ || m == "<="@
            || m == ">"@ || m == ">="@ || m == "=="@ || m == "<=>"@ || m == "abs"@ || m == "succ"@
            || m == "pred"@ || m == "even?"@ || m == "odd?"@ || m == "zero?"@ || m == "to_s"@
    } else if class == "Float"@ {
        m == "+"@ || m == "-"@ || m == "*"@ || m == "<"@ || m == "<="@ || m == ">"@ || m == ">="@
            || m == "=="@ || m == "<=>"@ || m == "abs"@
    } else if class == "TrueClass"@ || class == "FalseClass"@ || class == "NilClass"@ {
        m == "!"@ || m == "&"@ || m == "|"@ || m == "=="@
    } else if class == "Symbol"@ {
        m == "to_s"@ || m == "=="@ || m == "<=>"@
    } else if class == "String"@ {
        m == "upcase"@ || m == "downcase"@ || m == "reverse"@ || m == "length"@ || m == "size"@
            || m == "+"@ || m == "*"@ || m == "=="@ || m == "<=>"@ || m == "empty?"@ || m == "[]"@
            || m == "slice"@ || m == "byteslice"@ || m == "index"@ || m == "rindex"@
            || m == "byteindex"@ || m == "byterindex"@ || m == "getbyte"@
    } else {
        false
    }
}


/// Whether a `(class, method)` pair is in the Rust-foldable catalogue at all —
/// the foldability decision, which executes nothing.
pub fn is_foldable(class: &str, method: &str) -> (r: bool)
    ensures
        r == spec_is_foldable(class@, method@),
{
    let m = method;
    if str_eq(class, "Integer") {
        str_eq(m, "+") || str_eq(m, "-") || str_eq(m, "*") || str_eq(m, "/") || str_eq(m, "%")
            || str_eq(m, "**") || str_eq(m, "&") || str_eq(m, "|") || str_eq(m, "^")
            || str_eq(m, "<<") || str_eq(m, ">>") || str_eq(m, "<") || str_eq(m, "<=")
            || str_eq(m, ">") || str_eq(m, ">=") || str_eq(m, "==") || str_eq(m, "<=>")
            || str_eq(m, "abs") || str_eq(m, "succ") || str_eq(m, "pred") || str_eq(m, "even?")
            || str_eq(m, "odd?") || str_eq(m, "zero?") || str_eq(m, "to_s")
    } else if str_eq(class, "Float") {
        str_eq(m, "+") || str_eq(m, "-") || str_eq(m, "*") || str_eq(m, "<") || str_eq(m, "<=")
            || str_eq(m, ">") || str_eq(m, ">=") || str_eq(m, "==") || str_eq(m, "<=>")
            || str_eq(m, "abs")
    } else if str_eq(class, "TrueClass") || str_eq(class, "FalseClass") || str_eq(
        class,
        "NilClass",
    ) {
        str_eq(m, "!") || str_eq(m, "&") || str_eq(m, "|") || str_eq(m, "==")
    } else if str_eq(class, "Symbol") {
        str_eq(m, "to_s") || str_eq(m, "==") || str_eq(m, "<=>")
    } else if str_eq(class, "String") {
        str_eq(m, "upcase") || str_eq(m, "downcase") || str_eq(m, "reverse") || str_eq(
            m,
            "length",
        ) || str_eq(m, "size") || str_eq(m, "+") || str_eq(m, "*") || str_eq(m, "==") || str_eq(
            m,
            "<=>",
        ) || str_eq(m, "empty?") || str_eq(m, "[]") || str_eq(m, "slice") || str_eq(
            m,
            "byteslice",
        ) || str_eq(m, "index") || str_eq(m, "rindex") || str_eq(m, "byteindex") || str_eq(
            m,
            "byterindex",
        ) || str_eq(m, "getbyte")
    } else {
        false
    }
}

/// The `(receiver class, method)` pairs that may be routed to the Ruby
/// sidecar: a small verified subset. It meets the core's catalogue only at
/// `Integer#to_s`, whose radix form the core declines (see
/// [`lemma_sidecar_overlap`]).
pub open spec fn spec_sidecar_foldable(class: Seq<char>, m: Seq<char>) -> bool {
    (class == "Integer"@ && (m == "to_s"@ || m == "gcd"@)) || (class == "Float"@ && m
        == "round"@) || (class == "String"@ && (m == "%"@ || m == "center"@ || m == "ljust"@ || m
        == "rjust"@ || m == "tr"@ || m == "sub"@ || m == "strip"@))
}

/// Whether a `(receiver class, method)` is safe to route to the Ruby sidecar.
pub fn sidecar_foldable(receiver_class: &str, method: &str) -> (r: bool)
    ensures
        r == spec_sidecar_foldable(receiver_class@, method@),
{
    let m = method;
    (str_eq(receiver_class, "Integer") && (str_eq(m, "to_s") || str_eq(m, "gcd"))) || (str_eq(
        receiver_class,
        "Float",
    ) && str_eq(m, "round")) || (str_eq(receiver_class, "String") && (str_eq(m, "%") || str_eq(
        m,
        "center",
    ) || str_eq(m, "ljust") || str_eq(m, "rjust") || str_eq(m, "tr") || str_eq(m, "sub")
        || str_eq(m, "strip")))
}

/// The Ruby class name of a scalar literal.
pub open spec fn spec_scalar_class(s: ScalarV) -> Seq<char> {
    match s {
        ScalarV::Int(_) => "Integer"@,
        ScalarV::Float(_) => "Float"@,
        ScalarV::Str(_) => "String"@,
        ScalarV::Sym(_) => "Symbol"@,
        ScalarV::Bool(true) => "TrueClass"@,
        ScalarV::Bool(false) => "FalseClass"@,
        ScalarV::Nil => "NilClass"@,
    }
}

/// The Ruby class name of a scalar literal — the receiver-class key that gates
/// [`sidecar_foldable`].
pub fn scalar_class(s: &Scalar) -> (r: &'static str)
    ensures
        r@ == spec_scalar_class(s@),
{
    match s {
        Scalar::Int(_) => "Integer",
        Scalar::Float(_) => "Float",
        Scalar::Str(_) => "String",
        Scalar::Sym(_) => "Symbol",
        Scalar::Bool(true) => "TrueClass",
        Scalar::Bool(false) => "FalseClass",
        Scalar::Nil => "NilClass",
    }
}

/// `center` / `ljust` / `rjust` whose width argument exceeds the byte limit.
pub open spec fn spec_sidecar_blows_up(m: Seq<char>, args: Seq<ScalarV>) -> bool {
    (m == "center"@ || m == "ljust"@ || m == "rjust"@) && args.len() > 0 && (args[0] is Int)
        && args[0]->Int_0 > STRING_FOLD_BYTE_LIMIT
}

/// Whether a padding call would build a string past the byte limit, so the
/// sidecar must not run it.
pub fn sidecar_blows_up(method: &str, args: &[Scalar]) -> (r: bool)
    ensures
        r == spec_sidecar_blows_up(method@, args@.map_values(|s: Scalar| s@)),
{
    if !(str_eq(method, "center") || str_eq(method, "ljust") || str_eq(method, "rjust")) {
        return false;
    }
    if args.len() == 0 {
        return false;
    }
    match &args[0] {
        Scalar::Int(w) => *w > STRING_FOLD_BYTE_LIMIT as i64,
        _ => false,
    }
}

// --- Integer ---------------------------------------------------------------

/// Ruby's `Integer#/`: division rounding toward negative infinity. Verus's
/// `/` is Euclidean, which floors only for a positive divisor.
pub open spec fn spec_floor_div(a: int, b: int) -> int {
    if b > 0 {
        a / b
    } else {
        (-a) / (-b)
    }
}

/// Ruby's `Integer#%`: the remainder takes the sign of the divisor (floored
/// modulo). Verus's `%` is the Euclidean remainder, in `[0, |b|)`.
pub open spec fn spec_ruby_mod(a: int, b: int) -> int {
    let r = a % b;
    if b < 0 && r != 0 {
        r + b
    } else {
        r
    }
}

/// `a <=> s` for an Integer receiver (`rb_int_cmp`): `-1`/`0`/`1` against a
/// numeric literal, `nil` against NaN or anything else.
pub open spec fn spec_int_order_scalar(a: i64, s: ScalarV) -> ScalarV {
    match s {
        ScalarV::Int(b) => ScalarV::Int(sgn(a - b) as i64),
        ScalarV::Float(b) => match spec_int_order_float(a as int, b) {
            Some(o) => ScalarV::Int(o as i64),
            None => ScalarV::Nil,
        },
        _ => ScalarV::Nil,
    }
}

/// An Integer binary operator on an Integer argument. Every arithmetic
/// result that leaves the `i64` range declines (Ruby would promote it).
pub open spec fn spec_int_binary(a: i64, m: Seq<char>, b: i64) -> Option<ScalarV> {
    if m == "+"@ {
        checked_int(a + b)
    } else if m == "-"@ {
        checked_int(a - b)
    } else if m == "*"@ {
        checked_int(a * b)
    } else if m == "/"@ {
        if b == 0 {
            None
        } else {
            checked_int(spec_floor_div(a as int, b as int))
        }
    } else if m == "%"@ {
        if b == 0 {
            None
        } else {
            Some(ScalarV::Int(spec_ruby_mod(a as int, b as int) as i64))
        }
    } else if m == "**"@ {
        if b < 0 || b > u32::MAX {
            None
        } else {
            checked_int(pow(a as int, b as nat))
        }
    } else if m == "&"@ {
        Some(ScalarV::Int(a & b))
    } else if m == "|"@ {
        Some(ScalarV::Int(a | b))
    } else if m == "^"@ {
        Some(ScalarV::Int(a ^ b))
    } else if m == "<<"@ {
        if 0 <= b < 64 {
            checked_int(a * pow2(b as nat))
        } else {
            None
        }
    } else if m == ">>"@ {
        if 0 <= b < 64 {
            Some(ScalarV::Int(a >> (b as u64)))
        } else {
            None
        }
    } else if m == "<"@ {
        Some(ScalarV::Bool(a < b))
    } else if m == "<="@ {
        Some(ScalarV::Bool(a <= b))
    } else if m == ">"@ {
        Some(ScalarV::Bool(a > b))
    } else if m == ">="@ {
        Some(ScalarV::Bool(a >= b))
    } else if m == "=="@ {
        Some(ScalarV::Bool(a == b))
    } else {
        None
    }
}

/// A fold on an Integer receiver.
pub open spec fn spec_fold_int(a: i64, m: Seq<char>, args: Seq<ScalarV>) -> Option<ScalarV> {
    if args.len() == 0 && m == "abs"@ {
        checked_int(if a < 0 { -a } else { a as int })
    } else if args.len() == 0 && m == "succ"@ {
        checked_int(a + 1)
    } else if args.len() == 0 && m == "pred"@ {
        checked_int(a - 1)
    } else if args.len() == 0 && m == "even?"@ {
        Some(ScalarV::Bool(a % 2 == 0))
    } else if args.len() == 0 && m == "odd?"@ {
        Some(ScalarV::Bool(a % 2 != 0))
    } else if args.len() == 0 && m == "zero?"@ {
        Some(ScalarV::Bool(a == 0))
    } else if args.len() == 0 && m == "to_s"@ {
        Some(ScalarV::Str(int_to_decimal(a as int)))
    } else if args.len() == 1 && m == "<=>"@ {
        Some(spec_int_order_scalar(a, args[0]))
    } else if args.len() == 1 && (args[0] is Int) {
        spec_int_binary(a, m, args[0]->Int_0)
    } else {
        None
    }
}

/// Ruby's `Integer#%` on machine integers. Every remainder by `-1` is `0`,
/// `i64::MIN % -1` included, where the machine remainder would overflow.
pub fn ruby_mod(a: i64, b: i64) -> (r: i64)
    requires
        b != 0,
    ensures
        r == spec_ruby_mod(a as int, b as int),
{
    if b == -1 {
        assert((a as int) % -1 == 0) by (nonlinear_arith);
        return 0;
    }
    proof {
        assert(0 <= (a as int) % (b as int) < (if b < 0 { -(b as int) } else { b as int }))
            by (nonlinear_arith)
            requires b != 0;
    }
    let e = a.checked_rem_euclid(b).unwrap();
    if b < 0 && e != 0 {
        e + b
    } else {
        e
    }
}

/// Ruby's `Integer#/` on machine integers; `None` when the quotient leaves
/// the `i64` range (only `i64::MIN / -1`).
fn floor_div(a: i64, b: i64) -> (r: Option<i64>)
    requires
        b != 0,
    ensures
        r is Some <==> i64::MIN <= spec_floor_div(a as int, b as int) <= i64::MAX,
        r matches Some(q) ==> q == spec_floor_div(a as int, b as int),
{
    if b > 0 {
        proof {
            assert(i64::MIN <= (a as int) / (b as int) <= i64::MAX) by (nonlinear_arith)
                requires b > 0, i64::MIN <= a <= i64::MAX;
        }
        a.checked_div_euclid(b)
    } else {
        let na: i128 = 0i128 - a as i128;
        let nb: i128 = 0i128 - b as i128;
        proof {
            assert(-0x8000000000000000 <= (na as int) / (nb as int) <= 0x8000000000000000)
                by (nonlinear_arith)
                requires nb >= 1, -0x8000000000000000 <= na <= 0x8000000000000000;
        }
        let q: i128 = na.checked_div_euclid(nb).unwrap();
        if q > i64::MAX as i128 || q < i64::MIN as i128 {
            None
        } else {
            Some(q as i64)
        }
    }
}

/// Each further factor of an `a` with `|a| >= 2` at least doubles the
/// magnitude of a power.
proof fn lemma_pow_abs_doubles(a: int, n: nat, k: nat)
    requires
        a <= -2 || a >= 2,
        n < k,
    ensures
        abs_int(pow(a, k)) >= 2 * abs_int(pow(a, n)),
    decreases k - n,
{
    vstd::arithmetic::power::lemma_pow_adds(a, (k - 1) as nat, 1);
    vstd::arithmetic::power::lemma_pow1(a);
    let p = pow(a, (k - 1) as nat);
    assert(abs_int(p * a) >= 2 * abs_int(p)) by (nonlinear_arith)
        requires a <= -2 || a >= 2;
    if n < k - 1 {
        lemma_pow_abs_doubles(a, n, (k - 1) as nat);
    }
}

/// `(-1) ** n` alternates in sign.
proof fn lemma_pow_minus_one(n: nat)
    ensures
        pow(-1, n) == (if n % 2 == 0 { 1int } else { -1int }),
    decreases n,
{
    vstd::arithmetic::power::lemma_pow0(-1);
    if n > 0 {
        lemma_pow_minus_one((n - 1) as nat);
        vstd::arithmetic::power::lemma_pow_adds(-1, (n - 1) as nat, 1);
        vstd::arithmetic::power::lemma_pow1(-1);
    }
}

/// The absolute value of an integer.
pub open spec fn abs_int(x: int) -> int {
    if x < 0 {
        -x
    } else {
        x
    }
}

/// `a ** b` with an exponent in the `u32` range, when it fits an `i64`.
fn checked_pow_i64(a: i64, b: i64) -> (r: Option<i64>)
    requires
        0 <= b <= u32::MAX,
    ensures
        r is Some <==> i64::MIN <= pow(a as int, b as nat) <= i64::MAX,
        r matches Some(q) ==> q == pow(a as int, b as nat),
{
    if a == 0 || a == 1 || a == -1 {
        proof {
            vstd::arithmetic::power::lemma_pow0(a as int);
            if a == 0 && b > 0 {
                vstd::arithmetic::power::lemma0_pow(b as nat);
            }
            if a == 1 {
                vstd::arithmetic::power::lemma1_pow(b as nat);
            }
            if a == -1 {
                lemma_pow_minus_one(b as nat);
            }
        }
        if a == 0 {
            return Some(if b > 0 { 0 } else { 1 });
        } else if a == 1 {
            return Some(1);
        } else {
            let odd = b.checked_rem_euclid(2).unwrap() == 1;
            return Some(if odd { -1 } else { 1 });
        }
    }
    let mut acc: i64 = 1;
    let mut i: i64 = 0;
    proof {
        vstd::arithmetic::power::lemma_pow0(a as int);
    }
    while i < b
        invariant
            0 <= i <= b <= u32::MAX,
            a <= -2 || a >= 2,
            acc as int == pow(a as int, i as nat),
        decreases b - i,
    {
        proof {
            vstd::arithmetic::power::lemma_pow_adds(a as int, i as nat, 1);
            vstd::arithmetic::power::lemma_pow1(a as int);
        }
        match acc.checked_mul(a) {
            Some(v) => {
                acc = v;
                i = i + 1;
            },
            None => {
                proof {
                    if i + 1 < b {
                        lemma_pow_abs_doubles(a as int, (i + 1) as nat, b as nat);
                    }
                }
                return None;
            },
        }
    }
    Some(acc)
}

/// Ruby's `Integer#<<` for a shift count in `0..64`, when the exact result
/// fits an `i64`.
fn checked_shl_exact(a: i64, b: i64) -> (r: Option<i64>)
    requires
        0 <= b < 64,
    ensures
        r is Some <==> i64::MIN <= a * pow2(b as nat) <= i64::MAX,
        r matches Some(q) ==> q == a * pow2(b as nat),
{
    let sh: u32 = b as u32;
    proof {
        vstd::arithmetic::power2::lemma_pow2_strictly_increases(b as nat, 64);
        vstd::arithmetic::power2::lemma2_to64_rest();
        vstd::bits::lemma_u64_shl_is_mul(1, sh as u64);
        vstd::arithmetic::power2::lemma_pow2_pos(b as nat);
    }
    let p64: u64 = 1u64 << (sh as u64);
    let p: i128 = p64 as i128;
    assert(p == pow2(b as nat));
    proof {
        if b < 63 {
            vstd::arithmetic::power2::lemma_pow2_strictly_increases(b as nat, 63);
        }
        vstd::arithmetic::power2::lemma2_to64_rest();
        assert((a as int) * p <= 0x8000000000000000 * 0x8000000000000000) by (nonlinear_arith)
            requires -0x8000000000000000 <= a < 0x8000000000000000, 0 < p <= 0x8000000000000000;
        assert((a as int) * p >= -0x8000000000000000 * 0x8000000000000000) by (nonlinear_arith)
            requires -0x8000000000000000 <= a < 0x8000000000000000, 0 < p <= 0x8000000000000000;
    }
    let v: i128 = (a as i128) * p;
    if v < i64::MIN as i128 || v > i64::MAX as i128 {
        None
    } else {
        Some(v as i64)
    }
}

/// A sign as a machine integer.
fn sign_of(less: bool, greater: bool) -> (r: i64)
    ensures
        r == (if less { -1int } else if greater { 1int } else { 0int }),
{
    if less {
        -1
    } else if greater {
        1
    } else {
        0
    }
}

/// `rb_int_cmp` on a scalar argument.
fn int_order_scalar(a: i64, s: &Scalar) -> (r: Scalar)
    ensures
        r@ == spec_int_order_scalar(a, s@),
{
    match s {
        Scalar::Int(b) => Scalar::Int(sign_of(a < *b, a > *b)),
        Scalar::Float(b) => match int_order_float(a, *b) {
            Some(o) => Scalar::Int(o as i64),
            None => Scalar::Nil,
        },
        _ => Scalar::Nil,
    }
}

/// A machine integer result as an Integer carrier.
fn int_result(v: Option<i64>) -> (o: Option<Scalar>)
    ensures
        opt_view(o) == (match v {
            Some(x) => Some(ScalarV::Int(x)),
            None => None,
        }),
{
    match v {
        Some(x) => Some(Scalar::Int(x)),
        None => None,
    }
}

/// An Integer binary operator on an Integer argument.
fn fold_int_binary(a: i64, m: &str, b: i64) -> (r: Option<Scalar>)
    ensures
        opt_view(r) == spec_int_binary(a, m@, b),
{
    if str_eq(m, "+") {
        int_result(a.checked_add(b))
    } else if str_eq(m, "-") {
        int_result(a.checked_sub(b))
    } else if str_eq(m, "*") {
        int_result(a.checked_mul(b))
    } else if str_eq(m, "/") {
        if b == 0 { None } else { int_result(floor_div(a, b)) }
    } else if str_eq(m, "%") {
        if b == 0 { None } else { Some(Scalar::Int(ruby_mod(a, b))) }
    } else if str_eq(m, "**") {
        if b < 0 || b > u32::MAX as i64 { None } else { int_result(checked_pow_i64(a, b)) }
    } else if str_eq(m, "&") {
        Some(Scalar::Int(a & b))
    } else if str_eq(m, "|") {
        Some(Scalar::Int(a | b))
    } else if str_eq(m, "^") {
        Some(Scalar::Int(a ^ b))
    } else if str_eq(m, "<<") {
        if 0 <= b && b < 64 { int_result(checked_shl_exact(a, b)) } else { None }
    } else if str_eq(m, ">>") {
        if 0 <= b && b < 64 { Some(Scalar::Int(a >> (b as u64))) } else { None }
    } else if str_eq(m, "<") {
        Some(Scalar::Bool(a < b))
    } else if str_eq(m, "<=") {
        Some(Scalar::Bool(a <= b))
    } else if str_eq(m, ">") {
        Some(Scalar::Bool(a > b))
    } else if str_eq(m, ">=") {
        Some(Scalar::Bool(a >= b))
    } else if str_eq(m, "==") {
        Some(Scalar::Bool(a == b))
    } else {
        None
    }
}

/// A fold on an Integer receiver. Its `/` and `%` are Ruby's floor
/// division and modulo pair: see [`lemma_int_div_mod`] and
/// [`lemma_int_div_mod_defined`].
pub fn fold_int(a: i64, m: &str, args: &[Scalar]) -> (r: Option<Scalar>)
    ensures
        opt_view(r) == spec_fold_int(a, m@, args@.map_values(|s: Scalar| s@)),
{
    let ghost av = args@.map_values(|s: Scalar| s@);
    if args.len() == 0 {
        if str_eq(m, "abs") {
            return if a == i64::MIN {
                None
            } else {
                Some(Scalar::Int(if a < 0 { -a } else { a }))
            };
        } else if str_eq(m, "succ") {
            return int_result(a.checked_add(1));
        } else if str_eq(m, "pred") {
            return int_result(a.checked_sub(1));
        } else if str_eq(m, "even?") {
            return Some(Scalar::Bool(a.checked_rem_euclid(2).unwrap() == 0));
        } else if str_eq(m, "odd?") {
            return Some(Scalar::Bool(a.checked_rem_euclid(2).unwrap() != 0));
        } else if str_eq(m, "zero?") {
            return Some(Scalar::Bool(a == 0));
        } else if str_eq(m, "to_s") {
            let digits = i64_to_decimal(a);
            return Some(Scalar::Str(from_chars(digits.as_slice())));
        }
        return None;
    }
    if args.len() == 1 {
        assert(av[0] == args@[0]@);
        if str_eq(m, "<=>") {
            return Some(int_order_scalar(a, &args[0]));
        }
        match &args[0] {
            Scalar::Int(b) => {
                return fold_int_binary(a, m, *b);
            },
            _ => {
                return None;
            },
        }
    }
    None
}

// --- Float -----------------------------------------------------------------

/// `Float#<=>` on a scalar argument (`flo_cmp`).
pub open spec fn spec_float_order_scalar(a: u64, s: ScalarV) -> ScalarV {
    match s {
        ScalarV::Float(b) => match spec_float_order(a, b) {
            Some(o) => ScalarV::Int(o as i64),
            None => ScalarV::Nil,
        },
        ScalarV::Int(b) => match spec_int_order_float(b as int, a) {
            Some(o) => ScalarV::Int((-o) as i64),
            None => ScalarV::Nil,
        },
        _ => ScalarV::Nil,
    }
}

/// The float arithmetic operators, whose rounded results the library leaves
/// to the caller (`Float#+`, `#-`, `#*`).
pub open spec fn is_float_arith(m: Seq<char>) -> bool {
    m == "+"@ || m == "-"@ || m == "*"@
}

/// A fold on a Float receiver, other than the rounded arithmetic of
/// [`is_float_arith`].
pub open spec fn spec_fold_float(a: u64, m: Seq<char>, args: Seq<ScalarV>) -> Option<ScalarV> {
    if m == "abs"@ && args.len() == 0 {
        Some(ScalarV::Float((a as int % 0x8000000000000000) as u64))
    } else if m == "<=>"@ && args.len() == 1 {
        Some(spec_float_order_scalar(a, args[0]))
    } else if args.len() == 1 && (args[0] is Float) {
        let o = spec_float_order(a, args[0]->Float_0);
        if m == "<"@ {
            Some(ScalarV::Bool(o == Some(-1int)))
        } else if m == "<="@ {
            Some(ScalarV::Bool(o == Some(-1int) || o == Some(0int)))
        } else if m == ">"@ {
            Some(ScalarV::Bool(o == Some(1int)))
        } else if m == ">="@ {
            Some(ScalarV::Bool(o == Some(1int) || o == Some(0int)))
        } else if m == "=="@ {
            Some(ScalarV::Bool(o == Some(0int)))
        } else {
            None
        }
    } else {
        None
    }
}

/// An order as a machine integer, `nil` when undecided.
fn order_scalar(o: Option<i8>) -> (r: Scalar)
    ensures
        r@ == (match o {
            Some(v) => ScalarV::Int(v as i64),
            None => ScalarV::Nil,
        }),
{
    match o {
        Some(v) => Scalar::Int(v as i64),
        None => Scalar::Nil,
    }
}

/// A fold on a Float receiver.
fn fold_float(a: u64, m: &str, args: &[Scalar]) -> (r: Option<Scalar>)
    ensures
        opt_view(r) == spec_fold_float(a, m@, args@.map_values(|s: Scalar| s@)),
{
    let ghost av = args@.map_values(|s: Scalar| s@);
    if str_eq(m, "abs") && args.len() == 0 {
        let bits = a & 0x7fffffffffffffffu64;
        assert(a & 0x7fffffffffffffffu64 == a % 0x8000000000000000u64) by (bit_vector);
        return Some(Scalar::Float(bits));
    }
    if args.len() != 1 {
        return None;
    }
    assert(av[0] == args@[0]@);
    if str_eq(m, "<=>") {
        return Some(
            match &args[0] {
                Scalar::Float(b) => order_scalar(float_order(a, *b)),
                Scalar::Int(b) => match int_order_float(*b, a) {
                    Some(o) => Scalar::Int(0i64 - o as i64),
                    None => Scalar::Nil,
                },
                _ => Scalar::Nil,
            },
        );
    }
    let b = match &args[0] {
        Scalar::Float(b) => *b,
        _ => {
            return None;
        },
    };
    let o = float_order(a, b);
    let lt = o == Some(-1i8);
    let eq = o == Some(0i8);
    let gt = o == Some(1i8);
    if str_eq(m, "<") {
        Some(Scalar::Bool(lt))
    } else if str_eq(m, "<=") {
        Some(Scalar::Bool(lt || eq))
    } else if str_eq(m, ">") {
        Some(Scalar::Bool(gt))
    } else if str_eq(m, ">=") {
        Some(Scalar::Bool(gt || eq))
    } else if str_eq(m, "==") {
        Some(Scalar::Bool(eq))
    } else {
        None
    }
}

// --- Bool and Nil ----------------------------------------------------------

/// The boolean value of an operand the core models exactly: a Bool or `nil`.
pub open spec fn spec_truthy(s: ScalarV) -> Option<bool> {
    match s {
        ScalarV::Bool(b) => Some(b),
        ScalarV::Nil => Some(false),
        _ => None,
    }
}

/// A Bool result from an optional truth value.
pub open spec fn bool_of(t: Option<bool>) -> Option<ScalarV> {
    match t {
        Some(b) => Some(ScalarV::Bool(b)),
        None => None,
    }
}

/// A fold on a `true` / `false` receiver. `false & x` and `true | x` answer
/// without looking at `x`.
pub open spec fn spec_fold_bool(a: bool, m: Seq<char>, args: Seq<ScalarV>) -> Option<ScalarV> {
    if m == "!"@ && args.len() == 0 {
        Some(ScalarV::Bool(!a))
    } else if m == "&"@ && args.len() == 1 {
        if !a {
            Some(ScalarV::Bool(false))
        } else {
            bool_of(spec_truthy(args[0]))
        }
    } else if m == "|"@ && args.len() == 1 {
        if a {
            Some(ScalarV::Bool(true))
        } else {
            bool_of(spec_truthy(args[0]))
        }
    } else if m == "=="@ && args.len() == 1 && (args[0] is Bool) {
        Some(ScalarV::Bool(a == args[0]->Bool_0))
    } else {
        None
    }
}

/// A fold on a `nil` receiver.
pub open spec fn spec_fold_nil(m: Seq<char>, args: Seq<ScalarV>) -> Option<ScalarV> {
    if m == "!"@ && args.len() == 0 {
        Some(ScalarV::Bool(true))
    } else if m == "&"@ && args.len() == 1 {
        Some(ScalarV::Bool(false))
    } else if m == "|"@ && args.len() == 1 {
        bool_of(spec_truthy(args[0]))
    } else if m == "=="@ && args.len() == 1 {
        Some(ScalarV::Bool(args[0] is Nil))
    } else {
        None
    }
}

/// The truth value of a Bool or `nil` operand.
fn truthy(s: &Scalar) -> (r: Option<bool>)
    ensures
        r == spec_truthy(s@),
{
    match s {
        Scalar::Bool(b) => Some(*b),
        Scalar::Nil => Some(false),
        _ => None,
    }
}

/// A Bool carrier from an optional truth value.
fn bool_result(t: Option<bool>) -> (r: Option<Scalar>)
    ensures
        opt_view(r) == bool_of(t),
{
    match t {
        Some(b) => Some(Scalar::Bool(b)),
        None => None,
    }
}

fn fold_bool(a: bool, m: &str, args: &[Scalar]) -> (r: Option<Scalar>)
    ensures
        opt_view(r) == spec_fold_bool(a, m@, args@.map_values(|s: Scalar| s@)),
{
    let ghost av = args@.map_values(|s: Scalar| s@);
    if str_eq(m, "!") && args.len() == 0 {
        return Some(Scalar::Bool(!a));
    }
    if args.len() != 1 {
        return None;
    }
    assert(av[0] == args@[0]@);
    if str_eq(m, "&") {
        if !a { Some(Scalar::Bool(false)) } else { bool_result(truthy(&args[0])) }
    } else if str_eq(m, "|") {
        if a { Some(Scalar::Bool(true)) } else { bool_result(truthy(&args[0])) }
    } else if str_eq(m, "==") {
        match &args[0] {
            Scalar::Bool(b) => Some(Scalar::Bool(a == *b)),
            _ => None,
        }
    } else {
        None
    }
}

fn fold_nil(m: &str, args: &[Scalar]) -> (r: Option<Scalar>)
    ensures
        opt_view(r) == spec_fold_nil(m@, args@.map_values(|s: Scalar| s@)),
{
    let ghost av = args@.map_values(|s: Scalar| s@);
    if str_eq(m, "!") && args.len() == 0 {
        return Some(Scalar::Bool(true));
    }
    if args.len() != 1 {
        return None;
    }
    assert(av[0] == args@[0]@);
    if str_eq(m, "&") {
        Some(Scalar::Bool(false))
    } else if str_eq(m, "|") {
        bool_result(truthy(&args[0]))
    } else if str_eq(m, "==") {
        Some(Scalar::Bool(matches!(args[0], Scalar::Nil)))
    } else {
        None
    }
}

// --- Symbol and String -----------------------------------------------------

/// Lexicographic order of two character sequences by code point — for
/// UTF-8 text this is also the byte order Ruby's `String#<=>` uses.
pub open spec fn lex_order(a: Seq<char>, b: Seq<char>) -> int
    decreases a.len(),
{
    if a.len() == 0 {
        if b.len() == 0 { 0 } else { -1 }
    } else if b.len() == 0 {
        1
    } else if a[0] < b[0] {
        -1
    } else if a[0] > b[0] {
        1
    } else {
        lex_order(a.drop_first(), b.drop_first())
    }
}

proof fn lemma_lex_order_skip(a: Seq<char>, b: Seq<char>, i: int)
    requires
        0 <= i <= a.len(),
        i <= b.len(),
        forall|j: int| 0 <= j < i ==> a[j] == b[j],
    ensures
        lex_order(a, b) == lex_order(a.subrange(i, a.len() as int), b.subrange(i, b.len() as int)),
    decreases i,
{
    if i > 0 {
        lemma_lex_order_skip(a.drop_first(), b.drop_first(), i - 1);
        assert(a.drop_first().subrange(i - 1, a.len() - 1) =~= a.subrange(i, a.len() as int));
        assert(b.drop_first().subrange(i - 1, b.len() - 1) =~= b.subrange(i, b.len() as int));
    } else {
        assert(a.subrange(0, a.len() as int) =~= a);
        assert(b.subrange(0, b.len() as int) =~= b);
    }
}

/// The lexicographic order of two strings: `-1`, `0` or `1`.
pub fn lex_order_str(a: &str, b: &str) -> (r: i64)
    ensures
        r == lex_order(a@, b@),
{
    let va = to_chars(a);
    let vb = to_chars(b);
    let mut i: usize = 0;
    while i < va.len() && i < vb.len()
        invariant
            0 <= i <= va@.len(),
            i <= vb@.len(),
            va@ == a@,
            vb@ == b@,
            forall|j: int| 0 <= j < i ==> va@[j] == vb@[j],
        decreases va@.len() - i,
    {
        if va[i] != vb[i] {
            let x = va[i];
            let y = vb[i];
            proof {
                lemma_lex_order_skip(a@, b@, i as int);
                let sa = a@.subrange(i as int, a@.len() as int);
                let sb = b@.subrange(i as int, b@.len() as int);
                assert(sa[0] == a@[i as int]);
                assert(sb[0] == b@[i as int]);
                assert(sa.len() > 0 && sb.len() > 0);
                assert(sa[0] == x && sb[0] == y);
                assert(lex_order(sa, sb) == (if x < y { -1int } else { 1int }));
            }
            return if x < y { -1 } else { 1 };
        }
        i = i + 1;
    }
    proof {
        lemma_lex_order_skip(a@, b@, i as int);
    }
    if i < va.len() {
        1
    } else if i < vb.len() {
        -1
    } else {
        0
    }
}

/// A fold on a Symbol receiver.
pub open spec fn spec_fold_sym(a: Seq<char>, m: Seq<char>, args: Seq<ScalarV>) -> Option<ScalarV> {
    if m == "to_s"@ && args.len() == 0 {
        Some(ScalarV::Str(a))
    } else if m == "=="@ && args.len() == 1 {
        Some(ScalarV::Bool(args[0] == ScalarV::Sym(a)))
    } else if m == "<=>"@ && args.len() == 1 {
        match args[0] {
            ScalarV::Sym(b) => Some(ScalarV::Int(lex_order(a, b) as i64)),
            _ => Some(ScalarV::Nil),
        }
    } else {
        None
    }
}

fn fold_sym(a: &String, m: &str, args: &[Scalar]) -> (r: Option<Scalar>)
    ensures
        opt_view(r) == spec_fold_sym(a@, m@, args@.map_values(|s: Scalar| s@)),
{
    let ghost av = args@.map_values(|s: Scalar| s@);
    if str_eq(m, "to_s") && args.len() == 0 {
        return Some(Scalar::Str(a.clone()));
    }
    if args.len() != 1 {
        return None;
    }
    assert(av[0] == args@[0]@);
    if str_eq(m, "==") {
        match &args[0] {
            Scalar::Sym(b) => Some(Scalar::Bool(str_eq(a.as_str(), b.as_str()))),
            _ => Some(Scalar::Bool(false)),
        }
    } else if str_eq(m, "<=>") {
        match &args[0] {
            Scalar::Sym(b) => Some(Scalar::Int(lex_order_str(a.as_str(), b.as_str()))),
            _ => Some(Scalar::Nil),
        }
    } else {
        None
    }
}

/// ASCII upper-casing of one character.
pub open spec fn ascii_upper(c: char) -> char {
    if 'a' <= c && c <= 'z' {
        ((c as u32) - 32) as char
    } else {
        c
    }
}

/// ASCII lower-casing of one character.
pub open spec fn ascii_lower(c: char) -> char {
    if 'A' <= c && c <= 'Z' {
        ((c as u32) + 32) as char
    } else {
        c
    }
}

/// `n` copies of `a`, end to end.
pub open spec fn repeat_chars(a: Seq<char>, n: nat) -> Seq<char>
    decreases n,
{
    if n == 0 {
        Seq::empty()
    } else {
        repeat_chars(a, (n - 1) as nat) + a
    }
}

/// The String lookup methods, which may fold to `nil`.
pub open spec fn is_lookup_method(m: Seq<char>) -> bool {
    m == "[]"@ || m == "slice"@ || m == "byteslice"@ || m == "index"@ || m == "rindex"@
        || m == "byteindex"@ || m == "byterindex"@ || m == "getbyte"@
}

/// A fold on a String receiver. Case mapping and reversal answer only on
/// ASCII text; repetition is capped at the fold byte limit.
pub open spec fn spec_fold_str(a: Seq<char>, m: Seq<char>, args: Seq<ScalarV>) -> Option<ScalarV> {
    if args.len() == 0 && (m == "length"@ || m == "size"@) {
        Some(ScalarV::Int(a.len() as i64))
    } else if args.len() == 0 && m == "empty?"@ {
        Some(ScalarV::Bool(a.len() == 0))
    } else if args.len() == 0 && m == "upcase"@ && vstd::utf8::is_ascii_chars(a) {
        Some(ScalarV::Str(a.map_values(|c: char| ascii_upper(c))))
    } else if args.len() == 0 && m == "downcase"@ && vstd::utf8::is_ascii_chars(a) {
        Some(ScalarV::Str(a.map_values(|c: char| ascii_lower(c))))
    } else if args.len() == 0 && m == "reverse"@ && vstd::utf8::is_ascii_chars(a) {
        Some(ScalarV::Str(a.reverse()))
    } else if m == "+"@ && args.len() == 1 && (args[0] is Str) {
        Some(ScalarV::Str(a + args[0]->Str_0))
    } else if m == "*"@ && args.len() == 1 && (args[0] is Int) {
        let n = args[0]->Int_0;
        if n < 0 || n > 4096 {
            None
        } else {
            Some(ScalarV::Str(repeat_chars(a, n as nat)))
        }
    } else if m == "=="@ && args.len() == 1 {
        Some(ScalarV::Bool(args[0] == ScalarV::Str(a)))
    } else if m == "<=>"@ && args.len() == 1 {
        match args[0] {
            ScalarV::Str(b) => Some(ScalarV::Int(lex_order(a, b) as i64)),
            _ => Some(ScalarV::Nil),
        }
    } else if is_lookup_method(m) {
        match spec_lookup(a, m, args) {
            LookupV::Value(v) => Some(v),
            _ => None,
        }
    } else {
        None
    }
}

/// A character-by-character case mapping of ASCII text.
fn map_ascii(a: &str, upper: bool) -> (r: String)
    ensures
        r@ == (if upper {
            a@.map_values(|c: char| ascii_upper(c))
        } else {
            a@.map_values(|c: char| ascii_lower(c))
        }),
{
    let cs = to_chars(a);
    let mut out: Vec<char> = Vec::new();
    let mut i: usize = 0;
    while i < cs.len()
        invariant
            0 <= i <= cs@.len(),
            cs@ == a@,
            out@.len() == i,
            forall|j: int|
                0 <= j < i ==> out@[j] == (if upper {
                    ascii_upper(cs@[j])
                } else {
                    ascii_lower(cs@[j])
                }),
        decreases cs@.len() - i,
    {
        let c = cs[i];
        let d = if upper && 'a' <= c && c <= 'z' {
            ((c as u8) - 32u8) as char
        } else if !upper && 'A' <= c && c <= 'Z' {
            ((c as u8) + 32u8) as char
        } else {
            c
        };
        out.push(d);
        i = i + 1;
    }
    let r = from_chars(out.as_slice());
    proof {
        if upper {
            assert(out@ =~= a@.map_values(|c: char| ascii_upper(c)));
        } else {
            assert(out@ =~= a@.map_values(|c: char| ascii_lower(c)));
        }
    }
    r
}

/// The characters of `a` in reverse order.
fn reverse_str(a: &str) -> (r: String)
    ensures
        r@ == a@.reverse(),
{
    let cs = to_chars(a);
    let mut out: Vec<char> = Vec::new();
    let mut i: usize = cs.len();
    while i > 0
        invariant
            0 <= i <= cs@.len(),
            cs@ == a@,
            out@ =~= cs@.subrange(i as int, cs@.len() as int).reverse(),
        decreases i,
    {
        i = i - 1;
        out.push(cs[i]);
        assert(out@ =~= cs@.subrange(i as int, cs@.len() as int).reverse());
    }
    from_chars(out.as_slice())
}

/// `n` copies of `a`.
fn repeat_str(a: &str, n: i64) -> (r: String)
    requires
        0 <= n <= 4096,
    ensures
        r@ == repeat_chars(a@, n as nat),
{
    let cs = to_chars(a);
    let mut out: Vec<char> = Vec::new();
    let mut k: i64 = 0;
    while k < n
        invariant
            0 <= k <= n,
            cs@ == a@,
            out@ == repeat_chars(a@, k as nat),
        decreases n - k,
    {
        let mut j: usize = 0;
        let ghost before = out@;
        while j < cs.len()
            invariant
                0 <= j <= cs@.len(),
                out@ == before + cs@.take(j as int),
            decreases cs@.len() - j,
        {
            out.push(cs[j]);
            j = j + 1;
            assert(cs@.take(j as int) =~= cs@.take((j - 1) as int).push(cs@[j - 1]));
        }
        assert(cs@.take(cs@.len() as int) =~= cs@);
        k = k + 1;
    }
    from_chars(out.as_slice())
}

/// Concatenation of two strings.
fn concat_str(a: &str, b: &str) -> (r: String)
    ensures
        r@ == a@ + b@,
{
    let mut cs = to_chars(a);
    let ds = to_chars(b);
    let mut j: usize = 0;
    while j < ds.len()
        invariant
            0 <= j <= ds@.len(),
            ds@ == b@,
            cs@ == a@ + b@.take(j as int),
        decreases ds@.len() - j,
    {
        cs.push(ds[j]);
        j = j + 1;
        assert(b@.take(j as int) =~= b@.take((j - 1) as int).push(b@[j - 1]));
    }
    assert(b@.take(b@.len() as int) =~= b@);
    from_chars(cs.as_slice())
}

/// Whether `m` names a String lookup.
fn lookup_method(m: &str) -> (r: bool)
    ensures
        r == is_lookup_method(m@),
{
    str_eq(m, "[]") || str_eq(m, "slice") || str_eq(m, "byteslice") || str_eq(m, "index")
        || str_eq(m, "rindex") || str_eq(m, "byteindex") || str_eq(m, "byterindex") || str_eq(
        m,
        "getbyte",
    )
}

fn fold_str(a: &String, m: &str, args: &[Scalar]) -> (r: Option<Scalar>)
    ensures
        opt_view(r) == spec_fold_str(a@, m@, args@.map_values(|s: Scalar| s@)),
{
    let ghost av = args@.map_values(|s: Scalar| s@);
    let s = a.as_str();
    let n = args.len();
    if n == 1 {
        assert(av[0] == args@[0]@);
    }
    if n == 0 && (str_eq(m, "length") || str_eq(m, "size")) {
        let cs = to_chars(s);
        Some(Scalar::Int(cs.len() as i64))
    } else if n == 0 && str_eq(m, "empty?") {
        let cs = to_chars(s);
        Some(Scalar::Bool(cs.len() == 0))
    } else if n == 0 && str_eq(m, "upcase") && s.is_ascii() {
        Some(Scalar::Str(map_ascii(s, true)))
    } else if n == 0 && str_eq(m, "downcase") && s.is_ascii() {
        Some(Scalar::Str(map_ascii(s, false)))
    } else if n == 0 && str_eq(m, "reverse") && s.is_ascii() {
        Some(Scalar::Str(reverse_str(s)))
    } else if str_eq(m, "+") && n == 1 && matches!(args[0], Scalar::Str(_)) {
        match &args[0] {
            Scalar::Str(b) => Some(Scalar::Str(concat_str(s, b.as_str()))),
            _ => None,
        }
    } else if str_eq(m, "*") && n == 1 && matches!(args[0], Scalar::Int(_)) {
        match &args[0] {
            Scalar::Int(k) => {
                if *k < 0 || *k > 4096 {
                    None
                } else {
                    Some(Scalar::Str(repeat_str(s, *k)))
                }
            },
            _ => None,
        }
    } else if str_eq(m, "==") && n == 1 {
        Some(
            Scalar::Bool(
                match &args[0] {
                    Scalar::Str(b) => str_eq(s, b.as_str()),
                    _ => false,
                },
            ),
        )
    } else if str_eq(m, "<=>") && n == 1 {
        Some(
            match &args[0] {
                Scalar::Str(b) => Scalar::Int(lex_order_str(s, b.as_str())),
                _ => Scalar::Nil,
            },
        )
    } else if lookup_method(m) {
        let l = fold_str_lookup(s, m, args);
        let r = l.into_value();
        proof {
            match l@ {
                LookupV::Value(v) => {
                    assert(r is Some);
                },
                _ => {},
            }
        }
        r
    } else {
        None
    }
}

// --- The dispatcher --------------------------------------------------------

/// A fold on any literal receiver: `Some` exactly when the call is in the
/// conservative deterministic core and Ruby's answer is computed exactly.
/// Float `+` / `-` / `*` (rounded arithmetic) are not decided here.
pub open spec fn spec_fold(r: ScalarV, m: Seq<char>, args: Seq<ScalarV>) -> Option<ScalarV> {
    match r {
        ScalarV::Int(a) => spec_fold_int(a, m, args),
        ScalarV::Float(a) => spec_fold_float(a, m, args),
        ScalarV::Bool(a) => spec_fold_bool(a, m, args),
        ScalarV::Nil => spec_fold_nil(m, args),
        ScalarV::Sym(a) => spec_fold_sym(a, m, args),
        ScalarV::Str(a) => spec_fold_str(a, m, args),
    }
}

/// Fold a value-pinned method call on a literal receiver: the receiver, the
/// method name and the already-pinned argument scalars give `Some(result)`
/// when the call is in the conservative deterministic core and the result is
/// exactly Ruby's, else `None` — never a guess.
pub fn fold(receiver: &Scalar, method: &str, args: &[Scalar]) -> (r: Option<Scalar>)
    ensures
        opt_view(r) == spec_fold(receiver@, method@, args@.map_values(|s: Scalar| s@)),
{
    match receiver {
        Scalar::Int(a) => fold_int(*a, method, args),
        Scalar::Float(a) => fold_float(*a, method, args),
        Scalar::Bool(a) => fold_bool(*a, method, args),
        Scalar::Nil => fold_nil(method, args),
        Scalar::Sym(a) => fold_sym(a, method, args),
        Scalar::Str(a) => fold_str(a, method, args),
    }
}

/// Runs a purity-gated fold that the core declines by executing the real
/// Ruby method (the sidecar). The library never does that itself: an
/// application implements it. An implementation answers through `answer`:
/// the same receiver, method and arguments get the same answer on every
/// call (a sidecar that may be unavailable keeps declining what it once
/// declined, for instance by remembering its answers).
pub trait RubyFolder {
    /// What this folder answers for `receiver.method(*args)`.
    spec fn answer(&self, receiver: ScalarV, method: Seq<char>, args: Seq<ScalarV>) -> Option<ScalarV>;

    /// `receiver.method(*args)` on scalar literals, or `None` when declined
    /// or unavailable.
    fn fold(&self, receiver: &Scalar, method: &str, args: &[Scalar]) -> (r: Option<Scalar>)
        ensures
            opt_view(r) == self.answer(receiver@, method@, args@.map_values(|s: Scalar| s@)),
    ;
}

/// The folder that declines everything: typing without a sidecar.
pub struct NoFolder;

impl RubyFolder for NoFolder {
    open spec fn answer(&self, receiver: ScalarV, method: Seq<char>, args: Seq<ScalarV>) -> Option<ScalarV> {
        None
    }

    fn fold(&self, receiver: &Scalar, method: &str, args: &[Scalar]) -> (r: Option<Scalar>) {
        None
    }
}

/// One remembered answer: receiver, method, arguments and result.
pub open spec fn entry_view(e: (Scalar, String, Vec<Scalar>, Scalar)) -> (ScalarV, Seq<char>, Seq<ScalarV>, ScalarV) {
    (e.0@, e.1@, e.2@.map_values(|s: Scalar| s@), e.3@)
}

/// The first remembered answer from position `k` on for a call, if any.
pub open spec fn table_answer(t: Seq<(ScalarV, Seq<char>, Seq<ScalarV>, ScalarV)>, k: int, r: ScalarV, m: Seq<char>, a: Seq<ScalarV>) -> Option<ScalarV>
    decreases t.len() - k,
{
    if k < 0 || k >= t.len() {
        None
    } else if t[k].0 == r && t[k].1 == m && t[k].2 == a {
        Some(t[k].3)
    } else {
        table_answer(t, k + 1, r, m, a)
    }
}

/// A folder that answers from a table of remembered answers, the first
/// entry for a call winning, and declines every call it has no entry for.
pub struct TableFolder {
    entries: Vec<(Scalar, String, Vec<Scalar>, Scalar)>,
}

/// Equality of two scalar lists, by view.
fn scalars_eq(a: &[Scalar], b: &Vec<Scalar>) -> (r: bool)
    ensures
        r == (a@.map_values(|s: Scalar| s@) == b@.map_values(|s: Scalar| s@)),
{
    let ghost va = a@.map_values(|s: Scalar| s@);
    let ghost vb = b@.map_values(|s: Scalar| s@);
    if a.len() != b.len() {
        assert(va.len() != vb.len());
        return false;
    }
    let mut i: usize = 0;
    while i < a.len()
        invariant
            a@.len() == b@.len(),
            va == a@.map_values(|s: Scalar| s@),
            vb == b@.map_values(|s: Scalar| s@),
            0 <= i <= a@.len(),
            forall|j: int| 0 <= j < i ==> va[j] == vb[j],
        decreases a@.len() - i,
    {
        if !scalar_eq(&a[i], &b[i]) {
            assert(va[i as int] != vb[i as int]);
            return false;
        }
        i = i + 1;
    }
    assert(va =~= vb);
    true
}

impl TableFolder {
    /// The remembered answers, in the order they were added.
    pub closed spec fn table(&self) -> Seq<(ScalarV, Seq<char>, Seq<ScalarV>, ScalarV)> {
        self.entries@.map_values(|e: (Scalar, String, Vec<Scalar>, Scalar)| entry_view(e))
    }

    /// A table with no answers.
    pub fn new() -> (r: TableFolder)
        ensures
            r.table() == Seq::<(ScalarV, Seq<char>, Seq<ScalarV>, ScalarV)>::empty(),
    {
        let r = TableFolder { entries: Vec::new() };
        assert(r.table() =~= Seq::<(ScalarV, Seq<char>, Seq<ScalarV>, ScalarV)>::empty());
        r
    }

    /// Remember `result` as the answer for `receiver.method(*args)`.
    pub fn add(&mut self, receiver: Scalar, method: &str, args: Vec<Scalar>, result: Scalar)
        ensures
            final(self).table() == old(self).table().push(
                (receiver@, method@, args@.map_values(|s: Scalar| s@), result@),
            ),
    {
        let e = (receiver, method.to_owned(), args, result);
        self.entries.push(e);
        assert(self.table() =~= old(self).table().push(entry_view(e)));
    }
}

impl RubyFolder for TableFolder {
    open spec fn answer(&self, receiver: ScalarV, method: Seq<char>, args: Seq<ScalarV>) -> Option<ScalarV> {
        table_answer(self.table(), 0, receiver, method, args)
    }

    fn fold(&self, receiver: &Scalar, method: &str, args: &[Scalar]) -> (r: Option<Scalar>) {
        let ghost t = self.table();
        let ghost av = args@.map_values(|s: Scalar| s@);
        let mut k: usize = 0;
        while k < self.entries.len()
            invariant
                0 <= k <= self.entries@.len(),
                t == self.table(),
                av == args@.map_values(|s: Scalar| s@),
                table_answer(t, 0, receiver@, method@, av) == table_answer(t, k as int, receiver@, method@, av),
            decreases self.entries@.len() - k,
        {
            let e = &self.entries[k];
            assert(t[k as int] == entry_view(*e));
            if scalar_eq(&e.0, receiver) && str_eq(e.1.as_str(), method) && scalars_eq(args, &e.2) {
                return Some(scalar_copy(&e.3));
            }
            k = k + 1;
        }
        None
    }
}

/// A sidecar's answers as a function of the call.
pub type FoldOracle = spec_fn(ScalarV, Seq<char>, Seq<ScalarV>) -> Option<ScalarV>;

/// What an optional folder answers, as a function of the call: nothing
/// without a folder.
pub open spec fn folder_oracle<F: RubyFolder>(folder: Option<&F>) -> FoldOracle {
    |r: ScalarV, m: Seq<char>, a: Seq<ScalarV>|
        match folder {
            Some(f) => f.answer(r, m, a),
            None => None,
        }
}

/// The sidecar answers of typing without a folder: none.
pub open spec fn no_folder() -> FoldOracle {
    folder_oracle::<NoFolder>(None)
}

/// The value-pinned fold with a sidecar answering through `fo`: the core's
/// answer when it has one; else, for a call that is safe to route, the
/// sidecar's answer for the same receiver, method and arguments; else
/// nothing.
pub open spec fn spec_fold_routed(r: ScalarV, m: Seq<char>, args: Seq<ScalarV>, fo: FoldOracle) -> Option<ScalarV> {
    match spec_fold(r, m, args) {
        Some(v) => Some(v),
        None => if spec_sidecar_foldable(spec_scalar_class(r), m) {
            fo(r, m, args)
        } else {
            None
        },
    }
}

/// The value-pinned fold with the sidecar as fallback: see
/// [`spec_fold_routed`].
pub fn fold_with_folder<F: RubyFolder>(folder: Option<&F>, receiver: &Scalar, method: &str, args: &[Scalar]) -> (r: Option<Scalar>)
    ensures
        opt_view(r) == spec_fold_routed(receiver@, method@, args@.map_values(|s: Scalar| s@), folder_oracle(folder)),
{
    match fold(receiver, method, args) {
        Some(v) => Some(v),
        None => match folder {
            Some(f) => if sidecar_foldable(scalar_class(receiver), method) {
                f.fold(receiver, method, args)
            } else {
                None
            },
            None => None,
        },
    }
}

/// Whether `method` on `recv` is one of the String lookups, which can fold
/// to `nil`.
pub open spec fn spec_is_str_lookup(recv: ScalarV, m: Seq<char>) -> bool {
    (recv is Str) && is_lookup_method(m)
}

/// Whether `method` on `recv` is one of the String lookups, which can fold to
/// `nil` and so change the receiver's class downstream.
pub fn is_str_lookup(recv: &Scalar, method: &str) -> (r: bool)
    ensures
        r == spec_is_str_lookup(recv@, method@),
{
    matches!(recv, Scalar::Str(_)) && lookup_method(method)
}

/// Whether `method` on `recv` is a `<=>` that may answer `nil`.
pub open spec fn spec_is_nilable_order(recv: ScalarV, m: Seq<char>) -> bool {
    m == "<=>"@ && ((recv is Int) || (recv is Float) || (recv is Str) || (recv is Sym))
}

/// Whether `method` on a pinned `recv` is a nilable `<=>`: it folds to
/// `-1`/`0`/`1` or `nil`, on an Integer, Float, String or Symbol receiver.
pub fn is_nilable_cmp(recv: &Scalar, method: &str) -> (r: bool)
    ensures
        r == spec_is_nilable_order(recv@, method@),
{
    str_eq(method, "<=>") && match recv {
        Scalar::Int(_) | Scalar::Float(_) | Scalar::Str(_) | Scalar::Sym(_) => true,
        _ => false,
    }
}

/// Whether `method` on a pinned `recv` can fold to `nil`.
pub fn fold_can_go_nil(recv: &Scalar, method: &str) -> (r: bool)
    ensures
        r == (spec_is_str_lookup(recv@, method@) || spec_is_nilable_order(recv@, method@)),
{
    is_str_lookup(recv, method) || is_nilable_cmp(recv, method)
}

// --- Laws ------------------------------------------------------------------

/// Every fold the core answers is in the foldability catalogue: a `Some`
/// from [`fold`] means [`is_foldable`] holds of the receiver's class and the
/// method.
pub proof fn lemma_fold_in_catalogue(r: ScalarV, m: Seq<char>, args: Seq<ScalarV>)
    requires
        spec_fold(r, m, args) is Some,
    ensures
        spec_is_foldable(spec_scalar_class(r), m),
{
    reveal_class_names();
}

/// The receiver class names are pairwise distinct.
proof fn reveal_class_names()
    ensures
        "Integer"@ != "Float"@,
        "Integer"@ != "TrueClass"@,
        "Integer"@ != "FalseClass"@,
        "Integer"@ != "NilClass"@,
        "Integer"@ != "Symbol"@,
        "Integer"@ != "String"@,
        "Float"@ != "TrueClass"@,
        "Float"@ != "FalseClass"@,
        "Float"@ != "NilClass"@,
        "Float"@ != "Symbol"@,
        "Float"@ != "String"@,
        "TrueClass"@ != "Symbol"@,
        "TrueClass"@ != "String"@,
        "FalseClass"@ != "Symbol"@,
        "FalseClass"@ != "String"@,
        "NilClass"@ != "Symbol"@,
        "NilClass"@ != "String"@,
        "Symbol"@ != "String"@,
{
    reveal_strlit("Integer");
    reveal_strlit("Float");
    reveal_strlit("String");
    reveal_strlit("TrueClass");
    reveal_strlit("FalseClass");
    reveal_strlit("NilClass");
    reveal_strlit("Symbol");
    assert("Integer"@.len() == 7);
    assert("Float"@.len() == 5);
    assert("Symbol"@[1] == 'y');
    assert("String"@[1] == 't');
    assert("TrueClass"@[0] == 'T');
    assert("FalseClass"@[0] == 'F');
    assert("NilClass"@[0] == 'N');
}

/// A fold answers `nil` only for the calls [`fold_can_go_nil`] names: the
/// String lookups and the nilable `<=>`.
pub proof fn lemma_nil_only_from_nilable_folds(r: ScalarV, m: Seq<char>, args: Seq<ScalarV>)
    requires
        spec_fold(r, m, args) == Some(ScalarV::Nil),
    ensures
        spec_is_str_lookup(r, m) || spec_is_nilable_order(r, m),
{
    match r {
        ScalarV::Int(a) => {
            if !(args.len() == 1 && m == "<=>"@) && args.len() == 1 && (args[0] is Int) {
                assert(spec_int_binary(a, m, args[0]->Int_0) != Some(ScalarV::Nil));
            }
        },
        _ => {},
    }
}

/// Integer division and modulo agree with each other on every divisor:
/// `a == b * (a / b) + a % b`, with the remainder on the divisor's side of
/// zero (`0 <= r < b` for `b > 0`, `b < r <= 0` for `b < 0`).
pub proof fn lemma_int_div_mod(a: i64, b: i64, q: i64, r: i64)
    requires
        spec_fold(ScalarV::Int(a), "/"@, seq![ScalarV::Int(b)]) == Some(ScalarV::Int(q)),
        spec_fold(ScalarV::Int(a), "%"@, seq![ScalarV::Int(b)]) == Some(ScalarV::Int(r)),
    ensures
        a == b * q + r,
        b > 0 ==> 0 <= r < b,
        b < 0 ==> b < r <= 0,
{
    let args = seq![ScalarV::Int(b)];
    assert(args[0] is Int && args[0]->Int_0 == b);
    reveal_strlit("/");
    reveal_strlit("%");
    reveal_strlit("<=>");
    reveal_strlit("abs");
    reveal_strlit("+");
    reveal_strlit("-");
    reveal_strlit("*");
    assert("/"@[0] == '/');
    assert("%"@[0] == '%');
    assert("+"@[0] == '+');
    assert("-"@[0] == '-');
    assert("*"@[0] == '*');
    assert(b != 0);
    let x = a as int;
    let d = b as int;
    vstd::arithmetic::div_mod::lemma_fundamental_div_mod(x, d);
    assert(0 <= x % d < (if d < 0 { -d } else { d })) by (nonlinear_arith)
        requires d != 0;
    if d > 0 {
        assert(q == x / d);
        assert(r == x % d);
    } else {
        let e = -d;
        vstd::arithmetic::div_mod::lemma_fundamental_div_mod(-x, e);
        assert(0 <= (-x) % e < e) by (nonlinear_arith)
            requires e > 0;
        assert(q == (-x) / e);
        let s = (-x) % e;
        if s == 0 {
            assert(x == d * q) by (nonlinear_arith)
                requires -x == e * q + 0, e == -d;
            let t = x % d;
            let qq = x / d;
            assert(t == 0) by (nonlinear_arith)
                requires x == d * qq + t, x == d * q, 0 <= t < e, e == -d;
            assert(r == 0);
        } else {
            assert(x == (q + 1) * d + (e - s)) by (nonlinear_arith)
                requires -x == e * q + s, e == -d;
            let t = x % d;
            let qq = x / d;
            assert(t == e - s) by (nonlinear_arith)
                requires x == d * qq + t, x == (q + 1) * d + (e - s), 0 <= t < e, 0 < s < e,
                    e == -d;
            assert(r == -s);
            assert(x == d * q + (-s)) by (nonlinear_arith)
                requires -x == e * q + s, e == -d;
        }
    }
}

/// Integer division and modulo fold on every divisor but zero, with one
/// exception: `i64::MIN / -1`, whose quotient leaves the `i64` range (its
/// remainder, `0`, still folds). Together with [`lemma_int_div_mod`] this is
/// Ruby's floor division and modulo pair.
pub proof fn lemma_int_div_mod_defined(a: i64, b: i64)
    requires
        b != 0,
    ensures
        spec_fold(ScalarV::Int(a), "%"@, seq![ScalarV::Int(b)]) == Some(ScalarV::Int(spec_ruby_mod(a as int, b as int) as i64)),
        !(a == i64::MIN && b == -1) ==> spec_fold(ScalarV::Int(a), "/"@, seq![ScalarV::Int(b)]) == Some(
            ScalarV::Int(spec_floor_div(a as int, b as int) as i64),
        ),
        !(a == i64::MIN && b == -1) ==> i64::MIN <= spec_floor_div(a as int, b as int) <= i64::MAX,
        a == i64::MIN && b == -1 ==> spec_fold(ScalarV::Int(a), "/"@, seq![ScalarV::Int(b)]) is None,
{
    let args = seq![ScalarV::Int(b)];
    assert(args[0] is Int && args[0]->Int_0 == b);
    reveal_strlit("/");
    reveal_strlit("%");
    reveal_strlit("<=>");
    reveal_strlit("abs");
    reveal_strlit("+");
    reveal_strlit("-");
    reveal_strlit("*");
    assert("/"@[0] == '/');
    assert("%"@[0] == '%');
    assert("+"@[0] == '+');
    assert("-"@[0] == '-');
    assert("*"@[0] == '*');
    assert("<=>"@.len() == 3);
    let x = a as int;
    let d = b as int;
    if d > 0 {
        assert(i64::MIN <= x / d <= i64::MAX) by (nonlinear_arith)
            requires d > 0, i64::MIN <= x <= i64::MAX;
    } else {
        let e = -d;
        if e == 1 {
            assert((-x) / e == -x);
        } else {
            assert(-0x7fffffffffffffff <= (-x) / e <= 0x4000000000000000) by (nonlinear_arith)
                requires e >= 2, -0x7fffffffffffffff <= -x <= 0x8000000000000000;
        }
    }
    let r = spec_ruby_mod(x, d);
    assert(0 <= x % d < (if d < 0 { -d } else { d })) by (nonlinear_arith)
        requires d != 0;
    assert(i64::MIN <= r <= i64::MAX);
}

/// A String lookup folds to exactly the value the lookup answers, and
/// declines wherever the lookup raises or cannot carry its result.
pub proof fn lemma_fold_agrees_with_lookup(a: Seq<char>, m: Seq<char>, args: Seq<ScalarV>)
    requires
        is_lookup_method(m),
    ensures
        spec_fold(ScalarV::Str(a), m, args) == (match spec_lookup(a, m, args) {
            LookupV::Value(v) => Some(v),
            _ => None,
        }),
{
    reveal_strlit("[]");
    reveal_strlit("slice");
    reveal_strlit("byteslice");
    reveal_strlit("index");
    reveal_strlit("rindex");
    reveal_strlit("byteindex");
    reveal_strlit("byterindex");
    reveal_strlit("getbyte");
    reveal_strlit("length");
    reveal_strlit("size");
    reveal_strlit("empty?");
    reveal_strlit("upcase");
    reveal_strlit("downcase");
    reveal_strlit("reverse");
    reveal_strlit("+");
    reveal_strlit("*");
    reveal_strlit("==");
    reveal_strlit("<=>");
    assert("[]"@.len() == 2 && "[]"@[0] == '[');
    assert("slice"@.len() == 5 && "slice"@[0] == 's');
    assert("byteslice"@.len() == 9);
    assert("index"@.len() == 5 && "index"@[0] == 'i');
    assert("rindex"@.len() == 6 && "rindex"@[0] == 'r');
    assert("byteindex"@.len() == 9);
    assert("byterindex"@.len() == 10);
    assert("getbyte"@.len() == 7 && "getbyte"@[0] == 'g');
    assert("length"@.len() == 6 && "length"@[0] == 'l');
    assert("size"@.len() == 4);
    assert("empty?"@.len() == 6 && "empty?"@[0] == 'e');
    assert("upcase"@.len() == 6 && "upcase"@[0] == 'u');
    assert("downcase"@.len() == 8);
    assert("reverse"@.len() == 7 && "reverse"@[0] == 'r' && "reverse"@[1] == 'e');
    assert("rindex"@[1] == 'i');
    assert("+"@.len() == 1 && "*"@.len() == 1);
    assert("=="@.len() == 2 && "=="@[0] == '=');
    assert("<=>"@.len() == 3);
}

/// Swapping the operands of a lexicographic comparison negates it.
proof fn lemma_lex_order_antisymmetric(a: Seq<char>, b: Seq<char>)
    ensures
        lex_order(a, b) == -lex_order(b, a),
        -1 <= lex_order(a, b) <= 1,
    decreases a.len(),
{
    if a.len() > 0 && b.len() > 0 && a[0] == b[0] {
        lemma_lex_order_antisymmetric(a.drop_first(), b.drop_first());
    }
}

/// `v` and `w` are the answers of `x <=> y` and `y <=> x`: the same order
/// with opposite signs, or `nil` both ways.
pub open spec fn mirrored_orders(v: ScalarV, w: ScalarV) -> bool {
    match (v, w) {
        (ScalarV::Int(p), ScalarV::Int(q)) => -1 <= p <= 1 && q == -p,
        (ScalarV::Nil, ScalarV::Nil) => true,
        _ => false,
    }
}

/// A number, a string or a symbol.
pub open spec fn is_orderable(x: ScalarV) -> bool {
    x is Int || x is Float || x is Str || x is Sym
}

/// `<=>` is antisymmetric over numbers, strings and symbols: both
/// directions fold, and swapping the operands negates a decided order and
/// keeps an undecided one (`nil`, against NaN or another kind) undecided.
pub proof fn lemma_order_antisymmetric(x: ScalarV, y: ScalarV)
    requires
        is_orderable(x),
        is_orderable(y),
    ensures
        spec_fold(x, "<=>"@, seq![y]) is Some,
        spec_fold(y, "<=>"@, seq![x]) is Some,
        mirrored_orders(spec_fold(x, "<=>"@, seq![y])->Some_0, spec_fold(y, "<=>"@, seq![x])->Some_0),
{
    reveal_strlit("<=>");
    reveal_strlit("abs");
    reveal_strlit("to_s");
    reveal_strlit("==");
    reveal_strlit("+");
    reveal_strlit("*");
    reveal_strlit("length");
    reveal_strlit("size");
    reveal_strlit("empty?");
    reveal_strlit("upcase");
    reveal_strlit("downcase");
    reveal_strlit("reverse");
    assert("<=>"@.len() == 3 && "<=>"@[0] == '<');
    assert("abs"@[0] == 'a' && "to_s"@.len() == 4 && "=="@.len() == 2 && "+"@.len() == 1 && "*"@.len() == 1);
    assert("length"@.len() == 6 && "size"@.len() == 4 && "empty?"@.len() == 6 && "upcase"@.len() == 6);
    assert("downcase"@.len() == 8 && "reverse"@.len() == 7);
    assert(!is_lookup_method("<=>"@)) by {
        reveal_strlit("[]");
        reveal_strlit("slice");
        reveal_strlit("byteslice");
        reveal_strlit("index");
        reveal_strlit("rindex");
        reveal_strlit("byteindex");
        reveal_strlit("byterindex");
        reveal_strlit("getbyte");
        assert("[]"@.len() == 2 && "slice"@.len() == 5 && "byteslice"@.len() == 9 && "index"@.len() == 5);
        assert("rindex"@.len() == 6 && "byteindex"@.len() == 9 && "byterindex"@.len() == 10 && "getbyte"@.len() == 7);
    }
    let ax = seq![x];
    let ay = seq![y];
    assert(ax.len() == 1 && ax[0] == x);
    assert(ay.len() == 1 && ay[0] == y);
    match (x, y) {
        (ScalarV::Str(a), ScalarV::Str(b)) => {
            lemma_lex_order_antisymmetric(a, b);
        },
        (ScalarV::Sym(a), ScalarV::Sym(b)) => {
            lemma_lex_order_antisymmetric(a, b);
        },
        _ => {},
    }
}

/// The sidecar and the Rust core overlap in exactly one pair: the core folds
/// the argument-less `Integer#to_s`, the sidecar takes the radix form.
pub proof fn lemma_sidecar_overlap(class: Seq<char>, m: Seq<char>)
    requires
        spec_sidecar_foldable(class, m),
        spec_is_foldable(class, m),
    ensures
        class == "Integer"@ && m == "to_s"@,
{
    reveal_strlit("to_s");
    assert("to_s"@.len() == 4);
    reveal_strlit("gcd");
    assert("gcd"@.len() == 3);
    reveal_strlit("round");
    assert("round"@.len() == 5);
    reveal_strlit("%");
    assert("%"@.len() == 1);
    reveal_strlit("center");
    assert("center"@.len() == 6);
    reveal_strlit("ljust");
    assert("ljust"@.len() == 5);
    reveal_strlit("rjust");
    assert("rjust"@.len() == 5);
    reveal_strlit("tr");
    assert("tr"@.len() == 2);
    reveal_strlit("sub");
    assert("sub"@.len() == 3);
    reveal_strlit("strip");
    assert("strip"@.len() == 5);
    reveal_strlit("+");
    assert("+"@.len() == 1);
    reveal_strlit("-");
    assert("-"@.len() == 1);
    reveal_strlit("*");
    assert("*"@.len() == 1);
    reveal_strlit("/");
    assert("/"@.len() == 1);
    reveal_strlit("**");
    assert("**"@.len() == 2);
    reveal_strlit("&");
    assert("&"@.len() == 1);
    reveal_strlit("|");
    assert("|"@.len() == 1);
    reveal_strlit("^");
    assert("^"@.len() == 1);
    reveal_strlit("<<");
    assert("<<"@.len() == 2);
    reveal_strlit(">>");
    assert(">>"@.len() == 2);
    reveal_strlit("<");
    assert("<"@.len() == 1);
    reveal_strlit("<=");
    assert("<="@.len() == 2);
    reveal_strlit(">");
    assert(">"@.len() == 1);
    reveal_strlit(">=");
    assert(">="@.len() == 2);
    reveal_strlit("==");
    assert("=="@.len() == 2);
    reveal_strlit("<=>");
    assert("<=>"@.len() == 3);
    reveal_strlit("abs");
    assert("abs"@.len() == 3);
    reveal_strlit("succ");
    assert("succ"@.len() == 4);
    reveal_strlit("pred");
    assert("pred"@.len() == 4);
    reveal_strlit("even?");
    assert("even?"@.len() == 5);
    reveal_strlit("odd?");
    assert("odd?"@.len() == 4);
    reveal_strlit("zero?");
    assert("zero?"@.len() == 5);
    reveal_strlit("upcase");
    assert("upcase"@.len() == 6);
    reveal_strlit("downcase");
    assert("downcase"@.len() == 8);
    reveal_strlit("reverse");
    assert("reverse"@.len() == 7);
    reveal_strlit("length");
    assert("length"@.len() == 6);
    reveal_strlit("size");
    assert("size"@.len() == 4);
    reveal_strlit("empty?");
    assert("empty?"@.len() == 6);
    reveal_strlit("[]");
    assert("[]"@.len() == 2);
    reveal_strlit("slice");
    assert("slice"@.len() == 5);
    reveal_strlit("byteslice");
    assert("byteslice"@.len() == 9);
    reveal_strlit("index");
    assert("index"@.len() == 5);
    reveal_strlit("rindex");
    assert("rindex"@.len() == 6);
    reveal_strlit("byteindex");
    assert("byteindex"@.len() == 9);
    reveal_strlit("byterindex");
    assert("byterindex"@.len() == 10);
    reveal_strlit("getbyte");
    assert("getbyte"@.len() == 7);
    reveal_strlit("!");
    assert("!"@.len() == 1);
    assert("gcd"@[0] == 'g' && "abs"@[0] == 'a' && "<=>"@[0] == '<');
    assert("%"@[0] == '%' && "+"@[0] == '+' && "*"@[0] == '*');
    assert("center"@[0] == 'c' && "upcase"@[0] == 'u' && "length"@[0] == 'l' && "rindex"@[0] == 'r');
    assert("ljust"@[0] == 'l' && "rjust"@[0] == 'r' && "slice"@[0] == 's' && "index"@[0] == 'i');
    assert("strip"@[1] == 't' && "slice"@[1] == 'l');
    assert("tr"@[0] == 't' && "=="@[0] == '=' && "[]"@[0] == '[');
    assert("sub"@[0] == 's');
    reveal_class_names();
}


/// A proper prefix orders first: `a <=> a + s` is `-1` and `a + s <=> a`
/// is `1` for every non-empty `s`.
pub proof fn lemma_lex_order_prefix_first(a: Seq<char>, s: Seq<char>)
    requires
        s.len() > 0,
    ensures
        lex_order(a, a + s) == -1,
        lex_order(a + s, a) == 1,
    decreases a.len(),
{
    if a.len() > 0 {
        assert((a + s).drop_first() =~= a.drop_first() + s);
        assert((a + s)[0] == a[0]);
        lemma_lex_order_prefix_first(a.drop_first(), s);
    } else {
        assert(a + s =~= s);
    }
}

/// `<=>` of two strings, or of two symbols, folds to their lexicographic
/// order.
proof fn lemma_text_order_folds(a: Seq<char>, b: Seq<char>)
    ensures
        spec_fold(ScalarV::Str(a), "<=>"@, seq![ScalarV::Str(b)]) == Some(ScalarV::Int(lex_order(a, b) as i64)),
        spec_fold(ScalarV::Sym(a), "<=>"@, seq![ScalarV::Sym(b)]) == Some(ScalarV::Int(lex_order(a, b) as i64)),
{
    reveal_strlit("<=>");
    reveal_strlit("to_s");
    reveal_strlit("==");
    reveal_strlit("+");
    reveal_strlit("*");
    reveal_strlit("length");
    reveal_strlit("size");
    reveal_strlit("empty?");
    reveal_strlit("upcase");
    reveal_strlit("downcase");
    reveal_strlit("reverse");
    assert("<=>"@.len() == 3 && "<=>"@[0] == '<');
    assert("to_s"@.len() == 4 && "=="@.len() == 2 && "+"@.len() == 1 && "*"@.len() == 1);
    assert("length"@.len() == 6 && "size"@.len() == 4 && "empty?"@.len() == 6 && "upcase"@.len() == 6);
    assert("downcase"@.len() == 8 && "reverse"@.len() == 7);
    let args = seq![ScalarV::Str(b)];
    assert(args.len() == 1 && args[0] == ScalarV::Str(b));
    let sargs = seq![ScalarV::Sym(b)];
    assert(sargs.len() == 1 && sargs[0] == ScalarV::Sym(b));
}

/// A string or symbol that is a proper prefix of another orders first
/// under `<=>`, and the longer one orders after it: `"abc" <=> "abcd"` and
/// `:ab <=> :abc` are `-1`, `"" <=> "a"` too.
pub proof fn lemma_prefix_orders_first(a: Seq<char>, s: Seq<char>)
    requires
        s.len() > 0,
    ensures
        spec_fold(ScalarV::Str(a), "<=>"@, seq![ScalarV::Str(a + s)]) == Some(ScalarV::Int(-1i64)),
        spec_fold(ScalarV::Str(a + s), "<=>"@, seq![ScalarV::Str(a)]) == Some(ScalarV::Int(1i64)),
        spec_fold(ScalarV::Sym(a), "<=>"@, seq![ScalarV::Sym(a + s)]) == Some(ScalarV::Int(-1i64)),
        spec_fold(ScalarV::Sym(a + s), "<=>"@, seq![ScalarV::Sym(a)]) == Some(ScalarV::Int(1i64)),
{
    lemma_lex_order_prefix_first(a, s);
    lemma_text_order_folds(a, a + s);
    lemma_text_order_folds(a + s, a);
}


/// The first differing character decides the order: after a common prefix
/// `p`, the string continuing with the smaller character orders first.
pub proof fn lemma_lex_order_first_difference(p: Seq<char>, x: char, y: char, q: Seq<char>, r: Seq<char>)
    requires
        x < y,
    ensures
        lex_order(p + seq![x] + q, p + seq![y] + r) == -1,
        lex_order(p + seq![y] + r, p + seq![x] + q) == 1,
    decreases p.len(),
{
    let a = p + seq![x] + q;
    let b = p + seq![y] + r;
    if p.len() > 0 {
        assert(a.drop_first() =~= p.drop_first() + seq![x] + q);
        assert(b.drop_first() =~= p.drop_first() + seq![y] + r);
        assert(a[0] == p[0] && b[0] == p[0]);
        lemma_lex_order_first_difference(p.drop_first(), x, y, q, r);
    } else {
        assert(a[0] == x);
        assert(b[0] == y);
    }
}

} // verus!
