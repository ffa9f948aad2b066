use vstd::prelude::*;

verus! {

/// A value-pinned literal carrier.
#[derive(Debug, Clone, PartialEq)]
pub enum Scalar {
    Int(i64),
    Float(u64),
    Str(String),
    Sym(String),
    Bool(bool),
    Nil,
}

pub enum ScalarV {
    Int(i64),
    Float(u64),
    Str(Seq<char>),
    Sym(Seq<char>),
    Bool(bool),
    Nil,
}

impl View for Scalar {
    type V = ScalarV;
    open spec fn view(&self) -> ScalarV {
        match self {
            Scalar::Int(i) => ScalarV::Int(*i),
            Scalar::Float(f) => ScalarV::Float(*f),
            Scalar::Str(s) => ScalarV::Str(s@),
            Scalar::Sym(s) => ScalarV::Sym(s@),
            Scalar::Bool(b) => ScalarV::Bool(*b),
            Scalar::Nil => ScalarV::Nil,
        }
    }
}

/// The view of an optional scalar.
pub open spec fn opt_view(o: Option<Scalar>) -> Option<ScalarV> {
    match o {
        Some(s) => Some(s@),
        None => None,
    }
}

/// `Some(Int(x))` when `x` fits an `i64`, else `None` (Ruby would promote to
/// a Bignum, which no carrier models).
pub open spec fn checked_int(x: int) -> Option<ScalarV> {
    if i64::MIN <= x <= i64::MAX {
        Some(ScalarV::Int(x as i64))
    } else {
        None
    }
}

/// The digit character for `d` (`0-9`, then `a-z` or `A-Z`).
pub open spec fn digit_char(d: nat, upper: bool) -> char {
    if d < 10 {
        (48 + d) as char
    } else if upper {
        (55 + d) as char
    } else {
        (87 + d) as char
    }
}

/// The base-`r` digits of `n`, most significant first, no leading zeros
/// (`"0"` for zero).
pub open spec fn radix_digits(n: nat, r: nat, upper: bool) -> Seq<char>
    decreases n,
{
    if r < 2 || n < r {
        seq![digit_char(n, upper)]
    } else {
        proof {
            vstd::arithmetic::div_mod::lemma_div_decreases(n as int, r as int);
        }
        radix_digits(n / r, r, upper).push(digit_char(n % r, upper))
    }
}

/// Ruby's `Integer#to_s` (base 10) of `i`.
pub open spec fn int_to_decimal(i: int) -> Seq<char> {
    if i < 0 {
        seq!['-'] + radix_digits((-i) as nat, 10, false)
    } else {
        radix_digits(i as nat, 10, false)
    }
}

/// Appends the base-`r` digits of `n` to `out`.
pub fn push_radix_digits(out: &mut Vec<char>, n: u128, r: u128, upper: bool)
    requires
        2 <= r <= 36,
    ensures
        final(out)@ == old(out)@ + radix_digits(n as nat, r as nat, upper),
    decreases n,
{
    if n >= r {
        proof {
            vstd::arithmetic::div_mod::lemma_div_decreases(n as int, r as int);
        }
        push_radix_digits(out, n / r, r, upper);
    }
    let d = (n % r) as u8;
    let c = if d < 10 {
        (48 + d) as char
    } else if upper {
        (55 + d) as char
    } else {
        (87 + d) as char
    };
    out.push(c);
    proof {
        assert(c == digit_char((n % r) as nat, upper));
        if n >= r {
            assert(radix_digits(n as nat, r as nat, upper) == radix_digits(
                (n / r) as nat,
                r as nat,
                upper,
            ).push(digit_char((n % r) as nat, upper)));
        } else {
            vstd::arithmetic::div_mod::lemma_small_mod(n as nat, r as nat);
        }
    }
}

/// `i.to_s` — the decimal spelling of an `i64`.
pub fn i64_to_decimal(i: i64) -> (s: Vec<char>)
    ensures
        s@ == int_to_decimal(i as int),
{
    let mut out: Vec<char> = Vec::new();
    if i < 0 {
        out.push('-');
        let mag: u128 = (0i128 - (i as i128)) as u128;
        push_radix_digits(&mut out, mag, 10, false);
    } else {
        push_radix_digits(&mut out, i as u128, 10, false);
    }
    out
}

} // verus!
