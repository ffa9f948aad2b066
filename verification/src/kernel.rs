//! Fold-time evaluators for the receiverless `Kernel` conversions: `format`
//! / `sprintf`, `String()` and `Integer()`. Each answers `Some` only when the
//! result is exactly Ruby's; on any doubt (an unsupported directive, an
//! argument mismatch Ruby raises on, an oversized result) it answers `None`.
use vstd::prelude::*;
use crate::scalar::{Scalar, ScalarV, radix_digits, int_to_decimal, push_radix_digits, i64_to_decimal, opt_view, digit_char};
use crate::text::str_eq;
use crate::text::{to_chars, from_chars, push_char};
use crate::offsets::{enc_len, utf8_width, lemma_encode_concat, lemma_encode_single, lemma_enc_take_step, lemma_enc_take_strict};
use vstd::utf8::encode_utf8;
use crate::float_bits::{spec_float_trunc, float_trunc_i64};

verus! {

/// A folded string larger than this many bytes declines; also the cap on any
/// single `sprintf` width or precision.
pub const STRING_FOLD_BYTE_LIMIT: usize = 4096;

// --- Characters ------------------------------------------------------------

/// An ASCII decimal digit.
pub open spec fn is_digit(c: char) -> bool {
    '0' <= c && c <= '9'
}

/// ASCII whitespace as Rust's `is_ascii_whitespace` has it: space, tab, line
/// feed, form feed and carriage return.
pub open spec fn is_ascii_ws(c: char) -> bool {
    c == ' ' || c == '\t' || c == '\n' || c == '\x0C' || c == '\r'
}

/// The value of a base-36 digit (`0-9`, then `a-z` / `A-Z`), if `c` is one.
pub open spec fn digit36(c: char) -> Option<int> {
    if '0' <= c && c <= '9' {
        Some(c as int - 48)
    } else if 'a' <= c && c <= 'z' {
        Some(c as int - 87)
    } else if 'A' <= c && c <= 'Z' {
        Some(c as int - 55)
    } else {
        None
    }
}

/// `n` copies of `c`.
pub open spec fn fill(c: char, n: nat) -> Seq<char> {
    Seq::new(n, |_i: int| c)
}

/// `n` copies of `c`.
fn fill_chars(out: &mut Vec<char>, c: char, n: usize)
    ensures
        final(out)@ == old(out)@ + fill(c, n as nat),
{
    let mut k: usize = 0;
    while k < n
        invariant
            0 <= k <= n,
            out@ == old(out)@ + fill(c, k as nat),
        decreases n - k,
    {
        out.push(c);
        k = k + 1;
        assert(out@ =~= old(out)@ + fill(c, k as nat));
    }
}

/// Append `s` to `out`.
fn append(out: &mut Vec<char>, s: &Vec<char>)
    ensures
        final(out)@ == old(out)@ + s@,
{
    let mut k: usize = 0;
    while k < s.len()
        invariant
            0 <= k <= s@.len(),
            out@ == old(out)@ + s@.take(k as int),
        decreases s@.len() - k,
    {
        out.push(s[k]);
        k = k + 1;
        assert(out@ =~= old(out)@ + s@.take(k as int));
    }
    assert(s@.take(s@.len() as int) =~= s@);
}

// --- Kernel#String ---------------------------------------------------------

/// `String(v)` / `v.to_s` of a scalar, except a Float, whose spelling
/// (Ruby's shortest round-trip form) is not computed here.
pub open spec fn spec_string_of(s: ScalarV) -> Option<Seq<char>> {
    match s {
        ScalarV::Int(n) => Some(int_to_decimal(n as int)),
        ScalarV::Str(v) => Some(v),
        ScalarV::Sym(v) => Some(v),
        ScalarV::Bool(b) => Some(if b { "true"@ } else { "false"@ }),
        ScalarV::Nil => Some(Seq::empty()),
        ScalarV::Float(_) => None,
    }
}

/// Ruby `Kernel#String(v)` / `v.to_s` for a value-pinned scalar. A Float
/// answers `None`: its spelling is left to the caller.
pub fn ruby_string_of(s: &Scalar) -> (r: Option<String>)
    ensures
        match r {
            Some(t) => spec_string_of(s@) == Some(t@),
            None => spec_string_of(s@) is None,
        },
{
    match s {
        Scalar::Int(n) => {
            let d = i64_to_decimal(*n);
            Some(from_chars(d.as_slice()))
        },
        Scalar::Str(v) => Some(v.clone()),
        Scalar::Sym(v) => Some(v.clone()),
        Scalar::Bool(b) => {
            let t = if *b { "true" } else { "false" };
            let r = t.to_owned();
            Some(r)
        },
        Scalar::Nil => Some(String::new()),
        Scalar::Float(_) => None,
    }
}

// --- Kernel#Integer --------------------------------------------------------

/// The characters of `s` with the ASCII whitespace at both ends removed.
pub open spec fn trim_ws(s: Seq<char>) -> Seq<char>
    decreases s.len(),
{
    if s.len() > 0 && is_ascii_ws(s[0]) {
        trim_ws(s.drop_first())
    } else if s.len() > 0 && is_ascii_ws(s.last()) {
        trim_ws(s.drop_last())
    } else {
        s
    }
}

/// Whether `s` starts with the two-character radix marker `0<m>`, in either
/// case.
pub open spec fn has_ci_prefix(s: Seq<char>, m: char) -> bool {
    s.len() >= 2 && s[0] == '0' && (s[1] == m || s[1] as int == m as int - 32)
}

/// The base a radix prefix names and the text after it: `0x`, `0b`, `0o`,
/// `0d` in either case, or a leading `0` of a longer numeral (C-style octal,
/// the `0` kept as a digit).
pub open spec fn radix_prefix(s: Seq<char>) -> (Option<int>, Seq<char>) {
    if has_ci_prefix(s, 'x') {
        (Some(16), s.subrange(2, s.len() as int))
    } else if has_ci_prefix(s, 'b') {
        (Some(2), s.subrange(2, s.len() as int))
    } else if has_ci_prefix(s, 'o') {
        (Some(8), s.subrange(2, s.len() as int))
    } else if has_ci_prefix(s, 'd') {
        (Some(10), s.subrange(2, s.len() as int))
    } else if s.len() > 1 && s[0] == '0' {
        (Some(8), s)
    } else {
        (None, s)
    }
}

/// Scan a digit stream in base `b` from position `k`, with value `acc` so
/// far and `prev` telling whether the previous character was a digit: `_`
/// is allowed strictly between two digits, every other character must be a
/// digit of the base, and the stream must end on a digit.
pub open spec fn scan_digits(d: Seq<char>, b: int, k: int, acc: int, prev: bool) -> Option<int>
    decreases d.len() - k,
{
    if k < 0 || k >= d.len() {
        if prev { Some(acc) } else { None }
    } else if d[k] == '_' {
        if prev && k + 1 < d.len() {
            scan_digits(d, b, k + 1, acc, false)
        } else {
            None
        }
    } else {
        match digit36(d[k]) {
            Some(x) => if x < b {
                scan_digits(d, b, k + 1, acc * b + x, true)
            } else {
                None
            },
            None => None,
        }
    }
}

/// Ruby's `Integer(str, base)` on a string: optional surrounding whitespace,
/// an optional sign, an optional radix prefix consistent with `base`, then a
/// non-empty digit stream; `None` on anything Ruby raises on or a value
/// outside `i64`.
pub open spec fn spec_parse_int(input: Seq<char>, base: Option<int>) -> Option<int> {
    if !vstd::utf8::is_ascii_chars(input) {
        None
    } else {
        let s = trim_ws(input);
        let neg = s.len() > 0 && s[0] == '-';
        let rest = if s.len() > 0 && (s[0] == '+' || s[0] == '-') { s.drop_first() } else { s };
        let (pb, digits) = radix_prefix(rest);
        let eb: Option<int> = match (base, pb) {
            (None, None) => Some(10),
            (None, Some(x)) => Some(x),
            (Some(x), None) => Some(x),
            (Some(x), Some(y)) => if x == y { Some(x) } else { None },
        };
        match eb {
            None => None,
            Some(b) => if b < 2 || b > 36 || digits.len() == 0 {
                None
            } else {
                match scan_digits(digits, b, 0, 0, false) {
                    None => None,
                    Some(v) => {
                        let sv = if neg { -v } else { v };
                        if i64::MIN <= sv <= i64::MAX { Some(sv) } else { None }
                    },
                }
            },
        }
    }
}


/// `Integer(arg)` / `Integer(str, base)` of a scalar: an Integer is itself
/// (a base beside it raises), a finite Float in range truncates toward zero,
/// a String parses; everything else raises.
pub open spec fn spec_ruby_integer(arg: ScalarV, base: Option<int>) -> Option<int> {
    match arg {
        ScalarV::Int(n) => if base is None { Some(n as int) } else { None },
        ScalarV::Float(f) => if base is Some { None } else { spec_float_trunc(f) },
        ScalarV::Str(s) => spec_parse_int(s, base),
        _ => None,
    }
}

/// The optional base as a mathematical integer.
pub open spec fn base_view(base: Option<i64>) -> Option<int> {
    match base {
        Some(b) => Some(b as int),
        None => None,
    }
}

/// Whether a character is ASCII whitespace.
fn ascii_ws(c: char) -> (r: bool)
    ensures
        r == is_ascii_ws(c),
{
    c == ' ' || c == '\t' || c == '\n' || c == '\x0C' || c == '\r'
}

/// Trimming is taking the range between the outer whitespace runs.
proof fn lemma_trim(s: Seq<char>, lo: int, hi: int)
    requires
        0 <= lo <= hi <= s.len(),
        forall|i: int| 0 <= i < lo ==> is_ascii_ws(s[i]),
        forall|i: int| hi <= i < s.len() ==> is_ascii_ws(s[i]),
        lo < s.len() ==> !is_ascii_ws(s[lo]),
        hi > lo ==> !is_ascii_ws(s[hi - 1]),
        lo == s.len() ==> hi == lo,
    ensures
        trim_ws(s) == s.subrange(lo, hi),
    decreases s.len(),
{
    if s.len() > 0 && is_ascii_ws(s[0]) {
        let t = s.drop_first();
        assert(lo > 0);
        lemma_trim(t, lo - 1, hi - 1);
        assert(t.subrange(lo - 1, hi - 1) =~= s.subrange(lo, hi));
    } else if s.len() > 0 && is_ascii_ws(s.last()) {
        let t = s.drop_last();
        assert(lo == 0);
        assert(hi < s.len());
        lemma_trim(t, lo, hi);
        assert(t.subrange(lo, hi) =~= s.subrange(lo, hi));
    } else {
        if s.len() > 0 {
            assert(lo == 0);
            assert(hi == s.len());
        }
        assert(s.subrange(lo, hi) =~= s);
    }
}

/// A scan that succeeds never ends below the value it started from.
proof fn lemma_scan_ge(d: Seq<char>, b: int, k: int, acc: int, prev: bool)
    requires
        acc >= 0,
        b >= 2,
    ensures
        scan_digits(d, b, k, acc, prev) matches Some(v) ==> v >= acc,
    decreases d.len() - k,
{
    if 0 <= k < d.len() {
        if d[k] == '_' {
            lemma_scan_ge(d, b, k + 1, acc, false);
        } else {
            match digit36(d[k]) {
                Some(x) => if x < b {
                    assert(acc * b + x >= acc) by (nonlinear_arith)
                        requires acc >= 0, b >= 2, x >= 0;
                    lemma_scan_ge(d, b, k + 1, acc * b + x, true);
                },
                None => {},
            }
        }
    }
}

/// The value of a base-36 digit character.
fn digit_of(c: char) -> (r: Option<i64>)
    ensures
        match r {
            Some(x) => digit36(c) == Some(x as int),
            None => digit36(c) is None,
        },
{
    if '0' <= c && c <= '9' {
        Some((c as u32 - 48) as i64)
    } else if 'a' <= c && c <= 'z' {
        Some((c as u32 - 87) as i64)
    } else if 'A' <= c && c <= 'Z' {
        Some((c as u32 - 55) as i64)
    } else {
        None
    }
}

/// Case-insensitive equality of two ASCII characters.
pub open spec fn ci_eq(a: char, b: char) -> bool {
    crate::folding::ascii_lower(a) == crate::folding::ascii_lower(b)
}

/// Case-insensitive strip of a two-character radix marker: the rest of `s`
/// when its first two characters match `prefix` ignoring ASCII case.
pub fn strip_ci_prefix(s: &str, prefix: &str) -> (r: Option<String>)
    requires
        prefix@.len() == 2,
    ensures
        r is Some <==> (s@.len() >= 2 && ci_eq(s@[0], prefix@[0]) && ci_eq(s@[1], prefix@[1])),
        r matches Some(t) ==> t@ == s@.subrange(2, s@.len() as int),
{
    let sc = to_chars(s);
    let pc = to_chars(prefix);
    if sc.len() >= 2 && lower(sc[0]) == lower(pc[0]) && lower(sc[1]) == lower(pc[1]) {
        Some(crate::text::string_of_range(sc.as_slice(), 2, sc.len()))
    } else {
        None
    }
}

/// ASCII lower-casing of one character.
fn lower(c: char) -> (r: char)
    ensures
        r == crate::folding::ascii_lower(c),
{
    if 'A' <= c && c <= 'Z' {
        ((c as u8) + 32u8) as char
    } else {
        c
    }
}

/// The range of `cs` between its outer whitespace runs.
fn trim_range(cs: &Vec<char>) -> (r: (usize, usize))
    ensures
        r.0 <= r.1 <= cs@.len(),
        trim_ws(cs@) == cs@.subrange(r.0 as int, r.1 as int),
{
    let n = cs.len();
    let mut lo: usize = 0;
    while lo < n && ascii_ws(cs[lo])
        invariant
            0 <= lo <= n == cs@.len(),
            forall|i: int| 0 <= i < lo ==> is_ascii_ws(cs@[i]),
        decreases n - lo,
    {
        lo = lo + 1;
    }
    let mut hi: usize = n;
    while hi > lo && ascii_ws(cs[hi - 1])
        invariant
            lo <= hi <= n == cs@.len(),
            forall|i: int| 0 <= i < lo ==> is_ascii_ws(cs@[i]),
            lo < n ==> !is_ascii_ws(cs@[lo as int]),
            forall|i: int| hi <= i < n ==> is_ascii_ws(cs@[i]),
        decreases hi - lo,
    {
        hi = hi - 1;
    }
    proof {
        lemma_trim(cs@, lo as int, hi as int);
    }
    (lo, hi)
}

/// The radix prefix of `cs[p..hi]`: the base it names and where the digits
/// start.
fn prefix_of(cs: &Vec<char>, p: usize, hi: usize) -> (r: (Option<i64>, usize))
    requires
        p <= hi <= cs@.len(),
    ensures
        p <= r.1 <= hi,
        base_view(r.0) == radix_prefix(cs@.subrange(p as int, hi as int)).0,
        cs@.subrange(r.1 as int, hi as int) == radix_prefix(cs@.subrange(p as int, hi as int)).1,
{
    let ghost rest = cs@.subrange(p as int, hi as int);
    let len = hi - p;
    let c0: char = if len >= 1 { cs[p] } else { ' ' };
    let c1: char = if len >= 2 { cs[p + 1] } else { ' ' };
    let r: (Option<i64>, usize) = if len >= 2 && c0 == '0' && (c1 == 'x' || c1 == 'X') {
        (Some(16), p + 2)
    } else if len >= 2 && c0 == '0' && (c1 == 'b' || c1 == 'B') {
        (Some(2), p + 2)
    } else if len >= 2 && c0 == '0' && (c1 == 'o' || c1 == 'O') {
        (Some(8), p + 2)
    } else if len >= 2 && c0 == '0' && (c1 == 'd' || c1 == 'D') {
        (Some(10), p + 2)
    } else if len > 1 && c0 == '0' {
        (Some(8), p)
    } else {
        (None, p)
    };
    proof {
        if len >= 1 {
            assert(rest[0] == c0);
        }
        if len >= 2 {
            assert(rest[1] == c1);
        }
        if len >= 2 {
            assert(rest.subrange(2, rest.len() as int) =~= cs@.subrange(p as int + 2, hi as int));
        }
    }
    r
}

/// Scan the digit stream `cs[start..hi]` in base `eb`: `Some(v)` is its
/// value when the stream is valid and `v <= 2^63`.
fn scan_range(cs: &Vec<char>, start: usize, hi: usize, eb: i64) -> (r: Option<i128>)
    requires
        start <= hi <= cs@.len(),
        2 <= eb <= 36,
    ensures
        match r {
            Some(v) => scan_digits(cs@.subrange(start as int, hi as int), eb as int, 0, 0, false) == Some(v as int)
                && 0 <= v <= 0x8000000000000000,
            None => match scan_digits(cs@.subrange(start as int, hi as int), eb as int, 0, 0, false) {
                Some(v) => v > 0x8000000000000000,
                None => true,
            },
        },
{
    let ghost digits = cs@.subrange(start as int, hi as int);
    let mut acc: i128 = 0;
    let mut prev = false;
    let mut k = start;
    while k < hi
        invariant
            start <= k <= hi <= cs@.len(),
            2 <= eb <= 36,
            0 <= acc <= 0x8000000000000000,
            digits == cs@.subrange(start as int, hi as int),
            scan_digits(digits, eb as int, 0, 0, false) == scan_digits(digits, eb as int, (k - start) as int, acc as int, prev),
        decreases hi - k,
    {
        let c = cs[k];
        let ghost j = (k - start) as int;
        assert(digits[j] == c);
        if c == '_' {
            if !prev || hi - k <= 1 {
                return None;
            }
            prev = false;
        } else {
            let x = match digit_of(c) {
                Some(x) => x,
                None => {
                    return None;
                },
            };
            if x >= eb {
                return None;
            }
            proof {
                assert(acc * eb <= 0x8000000000000000 * 36) by (nonlinear_arith)
                    requires 0 <= acc <= 0x8000000000000000, 2 <= eb <= 36;
            }
            let next: i128 = acc * (eb as i128) + (x as i128);
            if next > 0x8000000000000000i128 {
                proof {
                    lemma_scan_ge(digits, eb as int, j + 1, next as int, true);
                }
                return None;
            }
            acc = next;
            prev = true;
        }
        k = k + 1;
    }
    if !prev {
        return None;
    }
    Some(acc)
}

/// Parse a string exactly as Ruby's `Integer(str, base)` does.
pub fn parse_ruby_integer_str(input: &str, base: Option<i64>) -> (r: Option<i64>)
    ensures
        match r {
            Some(v) => spec_parse_int(input@, base_view(base)) == Some(v as int),
            None => spec_parse_int(input@, base_view(base)) is None,
        },
{
    if !input.is_ascii() {
        return None;
    }
    let cs = to_chars(input);
    let (lo, hi) = trim_range(&cs);
    let ghost s = cs@.subrange(lo as int, hi as int);
    let mut p = lo;
    let neg = p < hi && cs[p] == '-';
    if p < hi && (cs[p] == '+' || cs[p] == '-') {
        p = p + 1;
    }
    proof {
        if lo < hi {
            assert(s[0] == cs@[lo as int]);
        }
        let rest = if s.len() > 0 && (s[0] == '+' || s[0] == '-') { s.drop_first() } else { s };
        assert(rest =~= cs@.subrange(p as int, hi as int));
    }
    let (pb, start) = prefix_of(&cs, p, hi);
    let eb: i64 = match (base, pb) {
        (None, None) => 10,
        (None, Some(x)) => x,
        (Some(x), None) => x,
        (Some(x), Some(y)) => {
            if x == y {
                x
            } else {
                return None;
            }
        },
    };
    if eb < 2 || eb > 36 || start >= hi {
        return None;
    }
    let v = match scan_range(&cs, start, hi, eb) {
        Some(v) => v,
        None => {
            return None;
        },
    };
    let sv: i128 = if neg { -v } else { v };
    if sv < i64::MIN as i128 || sv > i64::MAX as i128 {
        return None;
    }
    Some(sv as i64)
}

/// Ruby `Kernel#Integer(arg)` / `Integer(str, base)`: `Some(i)` only when
/// Ruby yields exactly `i` and it fits an `i64`.
pub fn ruby_integer(arg: &Scalar, base: Option<i64>) -> (r: Option<i64>)
    ensures
        match r {
            Some(v) => spec_ruby_integer(arg@, base_view(base)) == Some(v as int),
            None => spec_ruby_integer(arg@, base_view(base)) is None,
        },
{
    match arg {
        Scalar::Int(n) => match base {
            None => Some(*n),
            Some(_) => None,
        },
        Scalar::Float(f) => {
            if base.is_some() {
                return None;
            }
            float_trunc_i64(*f)
        },
        Scalar::Str(s) => parse_ruby_integer_str(s.as_str(), base),
        _ => None,
    }
}

/// The characters of `s` without its underscores, when every underscore
/// sits strictly between two ASCII digits.
pub open spec fn spec_strip_underscores(s: Seq<char>) -> Option<Seq<char>> {
    if forall|i: int| 0 <= i < s.len() && #[trigger] s[i] == '_' ==> (i > 0 && is_digit(s[i - 1])
        && i + 1 < s.len() && is_digit(s[i + 1])) {
        Some(s.filter(|c: char| c != '_'))
    } else {
        None
    }
}

/// Return `input` with `_` removed, but only when every `_` sits strictly
/// between two ASCII digits; otherwise `None`.
pub fn strip_underscores_between_digits(input: &str) -> (r: Option<String>)
    ensures
        match r {
            Some(t) => spec_strip_underscores(input@) == Some(t@),
            None => spec_strip_underscores(input@) is None,
        },
{
    let cs = to_chars(input);
    let mut out: Vec<char> = Vec::new();
    let mut i: usize = 0;
    while i < cs.len()
        invariant
            0 <= i <= cs@.len(),
            cs@ == input@,
            forall|j: int| 0 <= j < i && #[trigger] cs@[j] == '_' ==> (j > 0 && is_digit(cs@[j - 1])
                && j + 1 < cs@.len() && is_digit(cs@[j + 1])),
            out@ == cs@.take(i as int).filter(|c: char| c != '_'),
        decreases cs@.len() - i,
    {
        let c = cs[i];
        proof {
            assert(cs@.take(i as int + 1).drop_last() =~= cs@.take(i as int));
            reveal(Seq::filter);
            assert(cs@.take(i as int + 1).last() == c);
        }
        if c == '_' {
            let prev_digit = i > 0 && '0' <= cs[i - 1] && cs[i - 1] <= '9';
            let next_digit = cs.len() - i > 1 && '0' <= cs[i + 1] && cs[i + 1] <= '9';
            if !prev_digit || !next_digit {
                return None;
            }
        } else {
            out.push(c);
        }
        i = i + 1;
    }
    assert(cs@.take(cs@.len() as int) =~= cs@);
    Some(from_chars(out.as_slice()))
}


// --- Kernel#Float (the text) ---------------------------------------------

/// The first position at or after `i` that is not an ASCII digit.
pub open spec fn digits_end(s: Seq<char>, i: int) -> int
    decreases s.len() - i,
{
    if 0 <= i < s.len() && is_digit(s[i]) {
        digits_end(s, i + 1)
    } else {
        i
    }
}

/// The end of an optional fraction starting at `b`: past `.` and at least
/// one digit; `b` itself without a `.`; `-1` for a `.` without a digit after.
pub open spec fn fraction_end(s: Seq<char>, b: int) -> int {
    if 0 <= b < s.len() && s[b] == '.' {
        let d = digits_end(s, b + 1);
        if d > b + 1 { d } else { -1 }
    } else {
        b
    }
}

/// The end of an optional exponent starting at `c`: past `e`/`E`, an
/// optional sign and at least one digit; `c` itself without an `e`; `-1`
/// for an exponent without digits.
pub open spec fn exponent_end(s: Seq<char>, c: int) -> int {
    if 0 <= c < s.len() && (s[c] == 'e' || s[c] == 'E') {
        let f: int = if c + 1 < s.len() && (s[c + 1] == '+' || s[c + 1] == '-') { c + 2 } else { c + 1 };
        let g = digits_end(s, f);
        if g > f { g } else { -1 }
    } else {
        c
    }
}

/// A decimal float literal as `Float()` takes it: an optional sign, digits,
/// optionally `.` and digits, optionally an exponent, and nothing else. A
/// `.` needs a digit on both sides.
pub open spec fn float_grammar(s: Seq<char>) -> bool {
    let a: int = if s.len() > 0 && (s[0] == '+' || s[0] == '-') { 1 } else { 0 };
    let b = digits_end(s, a);
    let c = fraction_end(s, b);
    b > a && c >= 0 && exponent_end(s, c) == s.len()
}

/// The text `Float(str)` reads a value from: `str` without surrounding
/// whitespace and without the `_` between digits, when it is ASCII and a
/// decimal float literal; `None` for everything else (hexadecimal floats,
/// `inf` / `nan`, a misplaced `_` or `.`).
pub open spec fn spec_float_text(input: Seq<char>) -> Option<Seq<char>> {
    if !vstd::utf8::is_ascii_chars(input) {
        None
    } else {
        match spec_strip_underscores(trim_ws(input)) {
            Some(c) => if float_grammar(c) { Some(c) } else { None },
            None => None,
        }
    }
}

/// The first position at or after `i` that is not an ASCII digit.
fn skip_digits(s: &Vec<char>, i: usize) -> (r: usize)
    requires
        i <= s@.len(),
    ensures
        r == digits_end(s@, i as int),
        i <= r <= s@.len(),
{
    let mut j = i;
    while j < s.len() && '0' <= s[j] && s[j] <= '9'
        invariant
            i <= j <= s@.len(),
            digits_end(s@, i as int) == digits_end(s@, j as int),
        decreases s@.len() - j,
    {
        j = j + 1;
    }
    j
}

/// Whether `s` is a decimal float literal.
fn float_grammar_ok(s: &Vec<char>) -> (r: bool)
    ensures
        r == float_grammar(s@),
{
    let n = s.len();
    let a: usize = if n > 0 && (s[0] == '+' || s[0] == '-') { 1 } else { 0 };
    let b = skip_digits(s, a);
    if b <= a {
        return false;
    }
    let c: usize = if b < n && s[b] == '.' {
        let d = skip_digits(s, b + 1);
        if d > b + 1 {
            d
        } else {
            return false;
        }
    } else {
        b
    };
    assert(fraction_end(s@, b as int) == c);
    let e: usize = if c < n && (s[c] == 'e' || s[c] == 'E') {
        let f: usize = if c + 1 < n && (s[c + 1] == '+' || s[c + 1] == '-') { c + 2 } else { c + 1 };
        let g = skip_digits(s, f);
        if g > f {
            g
        } else {
            return false;
        }
    } else {
        c
    };
    assert(exponent_end(s@, c as int) == e);
    e == n
}

/// The text Ruby's `Float(str)` reads a value from: see
/// [`spec_float_text`]. Turning it into a binary64 value is left to the
/// caller.
pub fn ruby_float_text(input: &str) -> (r: Option<String>)
    ensures
        match r {
            Some(t) => spec_float_text(input@) == Some(t@),
            None => spec_float_text(input@) is None,
        },
{
    if !input.is_ascii() {
        return None;
    }
    let cs = to_chars(input);
    let (lo, hi) = trim_range(&cs);
    let t = crate::text::string_of_range(cs.as_slice(), lo, hi);
    let cleaned = match strip_underscores_between_digits(t.as_str()) {
        Some(c) => c,
        None => {
            return None;
        },
    };
    let cc = to_chars(cleaned.as_str());
    if float_grammar_ok(&cc) {
        Some(cleaned)
    } else {
        None
    }
}

// --- Kernel#format ---------------------------------------------------------

/// The flags of one `%` directive.
#[derive(Clone, Copy, Debug)]
pub struct Flags {
    pub minus: bool,
    pub zero: bool,
    pub plus: bool,
    pub space: bool,
    pub hash: bool,
}

/// No flag set.
pub open spec fn no_flags() -> Flags {
    Flags { minus: false, zero: false, plus: false, space: false, hash: false }
}

/// A flag character of a directive.
pub open spec fn is_flag(c: char) -> bool {
    c == '-' || c == '0' || c == '+' || c == ' ' || c == '#'
}

/// `f` with the flag `c` set.
pub open spec fn set_flag(f: Flags, c: char) -> Flags {
    if c == '-' {
        Flags { minus: true, ..f }
    } else if c == '0' {
        Flags { zero: true, ..f }
    } else if c == '+' {
        Flags { plus: true, ..f }
    } else if c == ' ' {
        Flags { space: true, ..f }
    } else {
        Flags { hash: true, ..f }
    }
}

/// The flags of the run of flag characters from `i`, added to `f`, and the
/// position after the run.
pub open spec fn flags_from(t: Seq<char>, i: int, f: Flags) -> (Flags, int)
    decreases t.len() - i,
{
    if 0 <= i < t.len() && is_flag(t[i]) {
        flags_from(t, i + 1, set_flag(f, t[i]))
    } else {
        (f, i)
    }
}

/// The decimal value of the run of digits from `i` added onto `acc`, and the
/// position after the run.
pub open spec fn decimal_from(t: Seq<char>, i: int, acc: nat) -> (nat, int)
    decreases t.len() - i,
{
    if 0 <= i < t.len() && is_digit(t[i]) {
        decimal_from(t, i + 1, acc * 10 + (t[i] as nat - 48) as nat)
    } else {
        (acc, i)
    }
}

/// The digits with a precision applied: at least `p` of them, zero-padded,
/// and none at all for a zero value under precision `0`.
pub open spec fn with_precision(digits: Seq<char>, is_zero: bool, precision: Option<nat>) -> Seq<char> {
    match precision {
        Some(p) => if is_zero && p == 0 {
            Seq::empty()
        } else if digits.len() < p {
            fill('0', (p - digits.len()) as nat) + digits
        } else {
            digits
        },
        None => digits,
    }
}

/// `sign` and `body` padded to `width`: spaces on the right under `-`, zeros
/// between sign and body under `0` (unless a precision was given), spaces on
/// the left otherwise.
pub open spec fn spec_pad(body: Seq<char>, sign: Seq<char>, f: Flags, width: Option<nat>, precision_given: bool) -> Seq<char> {
    let content = sign + body;
    match width {
        None => content,
        Some(w) => if content.len() >= w {
            content
        } else {
            let p = (w - content.len()) as nat;
            if f.minus {
                content + fill(' ', p)
            } else if f.zero && !precision_given {
                sign + fill('0', p) + body
            } else {
                fill(' ', p) + content
            }
        },
    }
}

/// `%d` / `%i` / `%u` of an integer in `radix`.
pub open spec fn spec_fmt_integer(value: int, radix: nat, upper: bool, f: Flags, width: Option<nat>, precision: Option<nat>) -> Seq<char> {
    let mag = if value < 0 { -value } else { value };
    let digits = with_precision(radix_digits(mag as nat, radix, upper), value == 0, precision);
    let sign = if value < 0 {
        seq!['-']
    } else if f.plus {
        seq!['+']
    } else if f.space {
        seq![' ']
    } else {
        Seq::empty()
    };
    spec_pad(digits, sign, f, width, precision is Some)
}

/// `%x` / `%X` / `%o` / `%b` / `%B` of a non-negative integer: the sign
/// column (`+` or a space under those flags), then the alternate prefix
/// under `#`, then the digits; zero padding goes between prefix and digits.
pub open spec fn spec_fmt_radix(v: int, radix: nat, upper: bool, alt: Seq<char>, f: Flags, width: Option<nat>, precision: Option<nat>) -> Seq<char> {
    let digits = with_precision(radix_digits(v as nat, radix, upper), v == 0, precision);
    let sign = if f.plus {
        seq!['+']
    } else if f.space {
        seq![' ']
    } else {
        Seq::empty()
    };
    let prefix = if f.hash && v != 0 { alt } else { Seq::empty() };
    spec_pad(digits, sign + prefix, f, width, precision is Some)
}

/// `%s` / `%p` / `%c` of a string: truncated to the precision, then padded
/// with spaces.
pub open spec fn spec_fmt_string(s: Seq<char>, f: Flags, width: Option<nat>, precision: Option<nat>) -> Seq<char> {
    let t = match precision {
        Some(p) => if p < s.len() { s.take(p as int) } else { s },
        None => s,
    };
    match width {
        None => t,
        Some(w) => if t.len() >= w {
            t
        } else if f.minus {
            t + fill(' ', (w - t.len()) as nat)
        } else {
            fill(' ', (w - t.len()) as nat) + t
        },
    }
}

/// The integer of a `%d` argument: an Integer, or a finite Float in range
/// truncated toward zero.
pub open spec fn spec_int_value(s: ScalarV) -> Option<int> {
    match s {
        ScalarV::Int(n) => Some(n as int),
        ScalarV::Float(f) => spec_float_trunc(f),
        _ => None,
    }
}

/// Printable ASCII other than `#`, or a space: the characters whose escape
/// Ruby's `inspect` and a plain quoting agree on.
pub open spec fn is_simple_char(c: char) -> bool {
    ('!' <= c && c <= '~' && c != '#') || c == ' '
}

/// A string every character of which is simple.
pub open spec fn spec_is_simple_string(s: Seq<char>) -> bool {
    forall|i: int| 0 <= i < s.len() ==> is_simple_char(#[trigger] s[i])
}

/// An ASCII letter.
pub open spec fn is_alpha(c: char) -> bool {
    ('a' <= c && c <= 'z') || ('A' <= c && c <= 'Z')
}

/// A symbol whose inspect is exactly `:name`: a bare identifier.
pub open spec fn spec_is_simple_symbol(s: Seq<char>) -> bool {
    s.len() > 0 && (is_alpha(s[0]) || s[0] == '_') && forall|i: int|
        0 <= i < s.len() ==> (is_alpha(#[trigger] s[i]) || is_digit(s[i]) || s[i] == '_')
}

/// A simple string quoted the way `inspect` spells it: `"` and `\` escaped.
pub open spec fn quote(s: Seq<char>) -> Seq<char>
    decreases s.len(),
{
    if s.len() == 0 {
        Seq::empty()
    } else {
        let c = s.last();
        quote(s.drop_last()) + (if c == '"' || c == '\\' { seq!['\\', c] } else { seq![c] })
    }
}

/// `inspect` of a scalar, restricted to the shapes spelled here: an Integer,
/// a Bool, `nil`, a bare-identifier Symbol and a simple String.
pub open spec fn spec_inspect(s: ScalarV) -> Option<Seq<char>> {
    match s {
        ScalarV::Int(n) => Some(int_to_decimal(n as int)),
        ScalarV::Bool(b) => Some(if b { "true"@ } else { "false"@ }),
        ScalarV::Nil => Some("nil"@),
        ScalarV::Sym(v) => if spec_is_simple_symbol(v) { Some(seq![':'] + v) } else { None },
        ScalarV::Str(v) => if spec_is_simple_string(v) { Some(seq!['"'] + quote(v) + seq!['"']) } else { None },
        ScalarV::Float(_) => None,
    }
}

/// The `%c` character: a code point, or a one-character String.
pub open spec fn spec_char_value(s: ScalarV) -> Option<Seq<char>> {
    match s {
        ScalarV::Int(n) => if 0 <= n <= 0x10FFFF && !(0xD800 <= n <= 0xDFFF) {
            Some(seq![(n as u32) as char])
        } else {
            None
        },
        ScalarV::Str(v) => if v.len() == 1 { Some(v) } else { None },
        _ => None,
    }
}

/// The text of one conversion and the next argument position.
pub open spec fn spec_segment(conv: char, f: Flags, width: Option<nat>, precision: Option<nat>, args: Seq<ScalarV>, argi: int) -> Option<(Seq<char>, int)> {
    if !(0 <= argi < args.len()) {
        None
    } else {
        let a = args[argi];
        if conv == 'd' || conv == 'i' || conv == 'u' {
            match spec_int_value(a) {
                Some(v) => Some((spec_fmt_integer(v, 10, false, f, width, precision), argi + 1)),
                None => None,
            }
        } else if conv == 'x' || conv == 'X' || conv == 'o' || conv == 'b' || conv == 'B' {
            match a {
                ScalarV::Int(n) => if n >= 0 {
                    let radix: nat = if conv == 'x' || conv == 'X' { 16 } else if conv == 'o' { 8 } else { 2 };
                    let alt = if conv == 'x' { "0x"@ } else if conv == 'X' { "0X"@ } else if conv == 'o' { "0"@ } else if conv == 'b' { "0b"@ } else { "0B"@ };
                    Some((spec_fmt_radix(n as int, radix, conv == 'X', alt, f, width, precision), argi + 1))
                } else {
                    None
                },
                _ => None,
            }
        } else if conv == 's' {
            match spec_string_of(a) {
                Some(s) => Some((spec_fmt_string(s, f, width, precision), argi + 1)),
                None => None,
            }
        } else if conv == 'p' {
            match spec_inspect(a) {
                Some(s) => Some((spec_fmt_string(s, f, width, precision), argi + 1)),
                None => None,
            }
        } else if conv == 'c' {
            if precision is Some {
                None
            } else {
                match spec_char_value(a) {
                    Some(s) => Some((spec_fmt_string(s, f, width, None), argi + 1)),
                    None => None,
                }
            }
        } else {
            None
        }
    }
}

/// The end of a `format` run: every argument consumed and the output within
/// the byte limit.
pub open spec fn sp_finish(args: Seq<ScalarV>, argi: int, out: Seq<char>) -> Option<Seq<char>> {
    if argi != args.len() || enc_len(out) > STRING_FOLD_BYTE_LIMIT {
        None
    } else {
        Some(out)
    }
}

/// The directive whose flags start at `s`, just past its `%`: its flags,
/// width, precision and the position of its conversion character. `None` for
/// a dynamic (`*`) width or precision, a positional (`$`) reference, a width
/// or precision past the limit, or a template that ends first.
pub open spec fn spec_directive(t: Seq<char>, s: int) -> Option<(Flags, Option<nat>, Option<nat>, int)> {
    let (f, fe) = flags_from(t, s, no_flags());
    let (wv, we) = decimal_from(t, fe, 0);
    if (fe < t.len() && t[fe] == '*') || (we < t.len() && t[we] == '$') || (we > fe && wv > STRING_FOLD_BYTE_LIMIT) {
        None
    } else {
        let width: Option<nat> = if we > fe { Some(wv) } else { None };
        let has_prec = we < t.len() && t[we] == '.';
        let (pv, pe) = if has_prec { decimal_from(t, we + 1, 0) } else { (0nat, we) };
        if has_prec && ((we + 1 < t.len() && t[we + 1] == '*') || pv > STRING_FOLD_BYTE_LIMIT) {
            None
        } else if pe >= t.len() || pe < s {
            None
        } else {
            Some((f, width, if has_prec { Some(pv) } else { None }, pe))
        }
    }
}

/// `format` from template position `i` on, with `argi` arguments consumed
/// and `out` rendered so far.
pub open spec fn sp_from(t: Seq<char>, i: int, args: Seq<ScalarV>, argi: int, out: Seq<char>) -> Option<Seq<char>>
    decreases t.len() - i,
{
    if i < 0 || i >= t.len() {
        sp_finish(args, argi, out)
    } else if t[i] != '%' {
        let o = out.push(t[i]);
        if enc_len(o) > STRING_FOLD_BYTE_LIMIT { None } else { sp_from(t, i + 1, args, argi, o) }
    } else if i + 1 >= t.len() {
        None
    } else if t[i + 1] == '%' {
        sp_from(t, i + 2, args, argi, out.push('%'))
    } else {
        match spec_directive(t, i + 1) {
            None => None,
            Some((f, width, precision, pe)) => match spec_segment(t[pe], f, width, precision, args, argi) {
                None => None,
                Some((seg, argi2)) => {
                    let o = out + seg;
                    if enc_len(o) > STRING_FOLD_BYTE_LIMIT { None } else { sp_from(t, pe + 1, args, argi2, o) }
                },
            },
        }
    }
}

/// Ruby `format` / `sprintf` over a template and value-pinned arguments.
pub open spec fn spec_sprintf(t: Seq<char>, args: Seq<ScalarV>) -> Option<Seq<char>> {
    sp_from(t, 0, args, 0, Seq::empty())
}

/// An optional machine size as an optional natural number.
pub open spec fn opt_nat(o: Option<usize>) -> Option<nat> {
    match o {
        Some(n) => Some(n as nat),
        None => None,
    }
}

/// The base-`radix` digits of `mag`, lowercase or uppercase.
pub fn to_radix(mag: u128, radix: u32, upper: bool) -> (r: Vec<char>)
    requires
        2 <= radix <= 36,
    ensures
        r@ == radix_digits(mag as nat, radix as nat, upper),
{
    let mut out: Vec<char> = Vec::new();
    push_radix_digits(&mut out, mag, radix as u128, upper);
    assert(out@ =~= radix_digits(mag as nat, radix as nat, upper));
    out
}

/// The digits with the precision applied.
fn apply_precision(digits: Vec<char>, is_zero: bool, precision: Option<usize>) -> (r: Vec<char>)
    ensures
        r@ == with_precision(digits@, is_zero, opt_nat(precision)),
{
    match precision {
        Some(p) => {
            if is_zero && p == 0 {
                Vec::new()
            } else if digits.len() < p {
                let mut v: Vec<char> = Vec::new();
                fill_chars(&mut v, '0', p - digits.len());
                append(&mut v, &digits);
                assert(v@ =~= fill('0', (p - digits@.len()) as nat) + digits@);
                v
            } else {
                digits
            }
        },
        None => digits,
    }
}

/// `sign` then `body`, padded to `width` per the flags; `precision_given`
/// turns the `0` flag off.
pub fn pad(body: Vec<char>, sign: Vec<char>, flags: Flags, width: Option<usize>, precision_given: bool) -> (r: Vec<char>)
    ensures
        r@ == spec_pad(body@, sign@, flags, opt_nat(width), precision_given),
{
    let mut out: Vec<char> = Vec::new();
    match width {
        None => {
            append(&mut out, &sign);
            append(&mut out, &body);
            assert(out@ =~= sign@ + body@);
        },
        Some(w) => {
            if body.len() >= w || sign.len() >= w - body.len() {
                append(&mut out, &sign);
                append(&mut out, &body);
                assert(out@ =~= sign@ + body@);
            } else {
                let padding = w - body.len() - sign.len();
                if flags.minus {
                    append(&mut out, &sign);
                    append(&mut out, &body);
                    fill_chars(&mut out, ' ', padding);
                    assert(out@ =~= sign@ + body@ + fill(' ', padding as nat));
                } else if flags.zero && !precision_given {
                    append(&mut out, &sign);
                    fill_chars(&mut out, '0', padding);
                    append(&mut out, &body);
                    assert(out@ =~= sign@ + fill('0', padding as nat) + body@);
                } else {
                    fill_chars(&mut out, ' ', padding);
                    append(&mut out, &sign);
                    append(&mut out, &body);
                    assert(out@ =~= fill(' ', padding as nat) + (sign@ + body@));
                }
            }
        },
    }
    out
}

/// `%s` / `%p` / `%c` formatting of `s`: truncated to the precision, then
/// padded with spaces to the width.
pub fn fmt_string(s: &Vec<char>, flags: Flags, width: Option<usize>, precision: Option<usize>) -> (r: Vec<char>)
    ensures
        r@ == spec_fmt_string(s@, flags, opt_nat(width), opt_nat(precision)),
{
    let n: usize = match precision {
        Some(p) => if p < s.len() { p } else { s.len() },
        None => s.len(),
    };
    let mut t: Vec<char> = Vec::new();
    let mut k: usize = 0;
    while k < n
        invariant
            0 <= k <= n <= s@.len(),
            t@ == s@.take(k as int),
        decreases n - k,
    {
        t.push(s[k]);
        k = k + 1;
        assert(t@ =~= s@.take(k as int));
    }
    let ghost tt = match opt_nat(precision) {
        Some(p) => if p < s@.len() { s@.take(p as int) } else { s@ },
        None => s@,
    };
    assert(t@ =~= tt);
    match width {
        None => t,
        Some(w) => {
            if t.len() >= w {
                t
            } else {
                let mut out: Vec<char> = Vec::new();
                if flags.minus {
                    append(&mut out, &t);
                    fill_chars(&mut out, ' ', w - t.len());
                    assert(out@ =~= t@ + fill(' ', (w - t@.len()) as nat));
                } else {
                    fill_chars(&mut out, ' ', w - t.len());
                    append(&mut out, &t);
                    assert(out@ =~= fill(' ', (w - t@.len()) as nat) + t@);
                }
                out
            }
        },
    }
}

/// `%d` / `%i` / `%u` formatting of `value` in `radix`.
pub fn fmt_integer(value: i64, radix: u32, upper: bool, flags: Flags, width: Option<usize>, precision: Option<usize>) -> (r: Vec<char>)
    requires
        2 <= radix <= 36,
    ensures
        r@ == spec_fmt_integer(value as int, radix as nat, upper, flags, opt_nat(width), opt_nat(precision)),
{
    let neg = value < 0;
    let mag: u128 = if neg { (0i128 - (value as i128)) as u128 } else { value as u128 };
    let digits = apply_precision(to_radix(mag, radix, upper), value == 0, precision);
    let mut sign: Vec<char> = Vec::new();
    if neg {
        sign.push('-');
    } else if flags.plus {
        sign.push('+');
    } else if flags.space {
        sign.push(' ');
    }
    proof {
        let ghost es = if value < 0 {
            seq!['-']
        } else if flags.plus {
            seq!['+']
        } else if flags.space {
            seq![' ']
        } else {
            Seq::<char>::empty()
        };
        assert(sign@ =~= es);
    }
    pad(digits, sign, flags, width, precision.is_some())
}

/// `%x` / `%X` / `%o` / `%b` / `%B` formatting of a non-negative integer,
/// with the alternate prefix `alt` under the `#` flag.
fn fmt_radix_arg(v: i64, radix: u32, upper: bool, alt: &str, flags: Flags, width: Option<usize>, precision: Option<usize>) -> (r: Vec<char>)
    requires
        v >= 0,
        2 <= radix <= 36,
    ensures
        r@ == spec_fmt_radix(v as int, radix as nat, upper, alt@, flags, opt_nat(width), opt_nat(precision)),
{
    let digits = apply_precision(to_radix(v as u128, radix, upper), v == 0, precision);
    let mut col: Vec<char> = Vec::new();
    if flags.plus {
        col.push('+');
    } else if flags.space {
        col.push(' ');
    }
    let ghost sign = col@;
    if flags.hash && v != 0 {
        let a = to_chars(alt);
        append(&mut col, &a);
    }
    let ghost ep = if flags.hash && v != 0 { alt@ } else { Seq::<char>::empty() };
    let ghost es = if flags.plus {
        seq!['+']
    } else if flags.space {
        seq![' ']
    } else {
        Seq::<char>::empty()
    };
    assert(sign =~= es);
    assert(col@ =~= es + ep);
    pad(digits, col, flags, width, precision.is_some())
}

/// The integer of a `%d` argument: an Integer, or a finite Float in range
/// truncated toward zero.
fn int_value(s: &Scalar) -> (r: Option<i64>)
    ensures
        match r {
            Some(v) => spec_int_value(s@) == Some(v as int),
            None => spec_int_value(s@) is None,
        },
{
    match s {
        Scalar::Int(n) => Some(*n),
        Scalar::Float(f) => float_trunc_i64(*f),
        _ => None,
    }
}

/// Whether a character is simple for `inspect`.
fn simple_char(c: char) -> (r: bool)
    ensures
        r == is_simple_char(c),
{
    ('!' <= c && c <= '~' && c != '#') || c == ' '
}

/// Whether every character of `s` is simple for `inspect`.
pub fn is_simple_string(s: &Vec<char>) -> (r: bool)
    ensures
        r == spec_is_simple_string(s@),
{
    let mut k: usize = 0;
    while k < s.len()
        invariant
            0 <= k <= s@.len(),
            forall|j: int| 0 <= j < k ==> is_simple_char(#[trigger] s@[j]),
        decreases s@.len() - k,
    {
        if !simple_char(s[k]) {
            return false;
        }
        k = k + 1;
    }
    true
}

/// Whether a character is an ASCII letter.
fn alpha(c: char) -> (r: bool)
    ensures
        r == is_alpha(c),
{
    ('a' <= c && c <= 'z') || ('A' <= c && c <= 'Z')
}

/// Whether `s` is a bare identifier.
pub fn is_simple_symbol(s: &Vec<char>) -> (r: bool)
    ensures
        r == spec_is_simple_symbol(s@),
{
    if s.len() == 0 || !(alpha(s[0]) || s[0] == '_') {
        return false;
    }
    let mut k: usize = 0;
    while k < s.len()
        invariant
            0 <= k <= s@.len(),
            forall|j: int| 0 <= j < k ==> (is_alpha(#[trigger] s@[j]) || is_digit(s@[j]) || s@[j] == '_'),
        decreases s@.len() - k,
    {
        let c = s[k];
        if !(alpha(c) || ('0' <= c && c <= '9') || c == '_') {
            return false;
        }
        k = k + 1;
    }
    true
}

/// `s` quoted as `inspect` spells a simple string.
fn quoted(s: &Vec<char>) -> (r: Vec<char>)
    ensures
        r@ == seq!['"'] + quote(s@) + seq!['"'],
{
    let mut out: Vec<char> = Vec::new();
    out.push('"');
    let mut k: usize = 0;
    while k < s.len()
        invariant
            0 <= k <= s@.len(),
            out@ == seq!['"'] + quote(s@.take(k as int)),
        decreases s@.len() - k,
    {
        let c = s[k];
        if c == '"' || c == '\\' {
            out.push('\\');
        }
        out.push(c);
        proof {
            let tk = s@.take(k as int + 1);
            assert(tk.drop_last() =~= s@.take(k as int));
            assert(tk.last() == c);
        }
        k = k + 1;
        assert(out@ =~= seq!['"'] + quote(s@.take(k as int)));
    }
    out.push('"');
    assert(s@.take(s@.len() as int) =~= s@);
    assert(out@ =~= seq!['"'] + quote(s@) + seq!['"']);
    out
}

/// `inspect` of a scalar, for the shapes spelled here.
fn ruby_inspect(s: &Scalar) -> (r: Option<Vec<char>>)
    ensures
        match r {
            Some(v) => spec_inspect(s@) == Some(v@),
            None => spec_inspect(s@) is None,
        },
{
    match s {
        Scalar::Int(n) => Some(i64_to_decimal(*n)),
        Scalar::Bool(b) => Some(if *b { to_chars("true") } else { to_chars("false") }),
        Scalar::Nil => Some(to_chars("nil")),
        Scalar::Sym(v) => {
            let cs = to_chars(v.as_str());
            if is_simple_symbol(&cs) {
                let mut out: Vec<char> = Vec::new();
                out.push(':');
                append(&mut out, &cs);
                assert(out@ =~= seq![':'] + v@);
                Some(out)
            } else {
                None
            }
        },
        Scalar::Str(v) => {
            let cs = to_chars(v.as_str());
            if is_simple_string(&cs) {
                Some(quoted(&cs))
            } else {
                None
            }
        },
        Scalar::Float(_) => None,
    }
}

/// std `char::from_u32`: the character whose code point is `cp`, or `None`
/// when `cp` is a surrogate (`0xD800..=0xDFFF`) or past `0x10FFFF`.
#[verifier::external_body]
fn char_from_u32(cp: u32) -> (r: Option<char>)
    ensures
        r matches Some(c) ==> c as u32 == cp,
        r is None <==> (cp > 0x10FFFF || (0xD800 <= cp <= 0xDFFF)),
{
    char::from_u32(cp)
}

/// The `%c` character of a scalar: a code point, or a one-character String.
fn char_value(s: &Scalar) -> (r: Option<Vec<char>>)
    ensures
        match r {
            Some(v) => spec_char_value(s@) == Some(v@),
            None => spec_char_value(s@) is None,
        },
{
    match s {
        Scalar::Int(n) => {
            if *n < 0 || *n > 0xFFFF_FFFF {
                return None;
            }
            match char_from_u32(*n as u32) {
                Some(c) => {
                    let v = vec![c];
                    proof {
                        vstd::utf8::char_u32_cast(c, *n as u32);
                    }
                    assert(v@ =~= seq![(*n as u32) as char]);
                    Some(v)
                },
                None => None,
            }
        },
        Scalar::Str(v) => {
            let cs = to_chars(v.as_str());
            if cs.len() == 1 {
                Some(cs)
            } else {
                None
            }
        },
        _ => None,
    }
}

/// Whether a character is a directive flag.
fn flag_char(c: char) -> (r: bool)
    ensures
        r == is_flag(c),
{
    c == '-' || c == '0' || c == '+' || c == ' ' || c == '#'
}

/// The flags of the run of flag characters from `s`, and the position after
/// the run.
fn scan_flags(t: &Vec<char>, s: usize) -> (r: (Flags, usize))
    requires
        s <= t@.len(),
    ensures
        (r.0, r.1 as int) == flags_from(t@, s as int, no_flags()),
        s <= r.1 <= t@.len(),
{
    let mut f = Flags { minus: false, zero: false, plus: false, space: false, hash: false };
    let mut k: usize = s;
    while k < t.len() && flag_char(t[k])
        invariant
            s <= k <= t@.len(),
            flags_from(t@, s as int, no_flags()) == flags_from(t@, k as int, f),
        decreases t@.len() - k,
    {
        let c = t[k];
        if c == '-' {
            f.minus = true;
        } else if c == '0' {
            f.zero = true;
        } else if c == '+' {
            f.plus = true;
        } else if c == ' ' {
            f.space = true;
        } else {
            f.hash = true;
        }
        k = k + 1;
    }
    (f, k)
}

/// The value of the run of decimal digits from `s`, capped just past the
/// limit, and the position after the run.
fn scan_decimal(t: &Vec<char>, s: usize) -> (r: (usize, usize))
    requires
        s <= t@.len(),
    ensures
        r.1 as int == decimal_from(t@, s as int, 0).1,
        s <= r.1 <= t@.len(),
        r.0 <= STRING_FOLD_BYTE_LIMIT ==> r.0 as nat == decimal_from(t@, s as int, 0).0,
        r.0 > STRING_FOLD_BYTE_LIMIT <==> decimal_from(t@, s as int, 0).0 > STRING_FOLD_BYTE_LIMIT,
{
    let mut cap: usize = 0;
    let ghost mut acc: nat = 0;
    let mut k: usize = s;
    while k < t.len() && '0' <= t[k] && t[k] <= '9'
        invariant
            s <= k <= t@.len(),
            decimal_from(t@, s as int, 0) == decimal_from(t@, k as int, acc),
            cap == (if acc > STRING_FOLD_BYTE_LIMIT { STRING_FOLD_BYTE_LIMIT as nat + 1 } else { acc }),
        decreases t@.len() - k,
    {
        let d: usize = (t[k] as u32 - 48) as usize;
        proof {
            acc = acc * 10 + (t@[k as int] as nat - 48) as nat;
        }
        if cap <= STRING_FOLD_BYTE_LIMIT {
            let next = cap * 10 + d;
            cap = if next > STRING_FOLD_BYTE_LIMIT { STRING_FOLD_BYTE_LIMIT + 1 } else { next };
        }
        k = k + 1;
    }
    (cap, k)
}

/// The directive whose flags start at `s`, as `spec_directive` reads it.
fn directive(t: &Vec<char>, s: usize) -> (r: Option<(Flags, Option<usize>, Option<usize>, usize)>)
    requires
        s <= t@.len(),
    ensures
        match r {
            Some((f, w, p, pe)) => spec_directive(t@, s as int) == Some((f, opt_nat(w), opt_nat(p), pe as int))
                && s <= pe < t@.len(),
            None => spec_directive(t@, s as int) is None,
        },
{
    let (f, fe) = scan_flags(t, s);
    if fe < t.len() && t[fe] == '*' {
        return None;
    }
    let (wv, we) = scan_decimal(t, fe);
    if we < t.len() && t[we] == '$' {
        return None;
    }
    if we > fe && wv > STRING_FOLD_BYTE_LIMIT {
        return None;
    }
    let width: Option<usize> = if we > fe { Some(wv) } else { None };
    let has_prec = we < t.len() && t[we] == '.';
    let mut precision: Option<usize> = None;
    let mut pe: usize = we;
    if has_prec {
        if we + 1 < t.len() && t[we + 1] == '*' {
            return None;
        }
        let (pv, e) = scan_decimal(t, we + 1);
        if pv > STRING_FOLD_BYTE_LIMIT {
            return None;
        }
        precision = Some(pv);
        pe = e;
    }
    if pe >= t.len() || pe < s {
        return None;
    }
    Some((f, width, precision, pe))
}

/// The text of one conversion `conv` of the argument at `argi`, and the next
/// argument position.
fn segment(conv: char, flags: Flags, width: Option<usize>, precision: Option<usize>, args: &[Scalar], argi: usize) -> (r: Option<(Vec<char>, usize)>)
    ensures
        match r {
            Some((v, a)) => spec_segment(conv, flags, opt_nat(width), opt_nat(precision), args@.map_values(|x: Scalar| x@), argi as int) == Some((v@, a as int)),
            None => spec_segment(conv, flags, opt_nat(width), opt_nat(precision), args@.map_values(|x: Scalar| x@), argi as int) is None,
        },
        r matches Some((v, a)) ==> argi < args@.len() && a == argi + 1,
{
    let ghost av = args@.map_values(|x: Scalar| x@);
    if argi >= args.len() {
        return None;
    }
    let arg = &args[argi];
    assert(av[argi as int] == arg@);
    if conv == 'd' || conv == 'i' || conv == 'u' {
        match int_value(arg) {
            Some(v) => Some((fmt_integer(v, 10, false, flags, width, precision), argi + 1)),
            None => None,
        }
    } else if conv == 'x' || conv == 'X' || conv == 'o' || conv == 'b' || conv == 'B' {
        match arg {
            Scalar::Int(n) => {
                if *n < 0 {
                    return None;
                }
                let radix: u32 = if conv == 'x' || conv == 'X' { 16 } else if conv == 'o' { 8 } else { 2 };
                let alt: &str = if conv == 'x' { "0x" } else if conv == 'X' { "0X" } else if conv == 'o' { "0" } else if conv == 'b' { "0b" } else { "0B" };
                Some((fmt_radix_arg(*n, radix, conv == 'X', alt, flags, width, precision), argi + 1))
            },
            _ => None,
        }
    } else if conv == 's' {
        match ruby_string_of(arg) {
            Some(st) => {
                let cs = to_chars(st.as_str());
                Some((fmt_string(&cs, flags, width, precision), argi + 1))
            },
            None => None,
        }
    } else if conv == 'p' {
        match ruby_inspect(arg) {
            Some(cs) => Some((fmt_string(&cs, flags, width, precision), argi + 1)),
            None => None,
        }
    } else if conv == 'c' {
        if precision.is_some() {
            return None;
        }
        match char_value(arg) {
            Some(cs) => Some((fmt_string(&cs, flags, width, None), argi + 1)),
            None => None,
        }
    } else {
        None
    }
}

/// The UTF-8 length of `s` when it is at most `cap`; past `cap` (by at most
/// four) otherwise.
fn enc_len_capped(s: &Vec<char>, cap: usize) -> (r: usize)
    requires
        cap <= STRING_FOLD_BYTE_LIMIT,
    ensures
        r <= cap ==> r as int == enc_len(s@),
        r > cap <==> enc_len(s@) > cap,
        r <= cap + 4,
{
    let mut acc: usize = 0;
    let mut k: usize = 0;
    while k < s.len()
        invariant
            0 <= k <= s@.len(),
            cap <= STRING_FOLD_BYTE_LIMIT,
            acc <= cap,
            acc as int == enc_len(s@.take(k as int)),
        decreases s@.len() - k,
    {
        proof {
            lemma_enc_take_step(s@, k as int);
        }
        acc = acc + utf8_width(s[k]);
        k = k + 1;
        if acc > cap {
            proof {
                if k < s@.len() {
                    lemma_enc_take_strict(s@, k as int, s@.len() as int);
                }
                assert(s@.take(s@.len() as int) =~= s@);
            }
            return acc;
        }
    }
    assert(s@.take(s@.len() as int) =~= s@);
    acc
}

/// Ruby `Kernel#format` / `sprintf` over a template and value-pinned
/// arguments. `Some` only for the supported directive subset with exactly as
/// many arguments as directives consume and an output within the byte limit;
/// `None` on an unsupported or malformed directive, an argument Ruby raises
/// on, or an oversized result.
pub fn sprintf(template: &str, args: &[Scalar]) -> (r: Option<String>)
    ensures
        match r {
            Some(s) => spec_sprintf(template@, args@.map_values(|a: Scalar| a@)) == Some(s@),
            None => spec_sprintf(template@, args@.map_values(|a: Scalar| a@)) is None,
        },
{
    let ghost av = args@.map_values(|a: Scalar| a@);
    let t = to_chars(template);
    let mut out: Vec<char> = Vec::new();
    let mut ob: usize = 0;
    let mut argi: usize = 0;
    let mut i: usize = 0;
    proof {
        assert(encode_utf8(Seq::<char>::empty()) =~= Seq::<u8>::empty());
    }
    while i < t.len()
        invariant
            0 <= i <= t@.len(),
            t@ == template@,
            argi <= args@.len(),
            ob as int == enc_len(out@),
            ob <= STRING_FOLD_BYTE_LIMIT + i / 2,
            av == args@.map_values(|a: Scalar| a@),
            spec_sprintf(t@, av) == sp_from(t@, i as int, av, argi as int, out@),
        decreases t@.len() - i,
    {
        let c = t[i];
        if c != '%' {
            proof {
                lemma_encode_concat(out@, seq![c]);
                lemma_encode_single(c);
                assert(out@.push(c) =~= out@ + seq![c]);
            }
            out.push(c);
            ob = ob + utf8_width(c);
            i = i + 1;
            if ob > STRING_FOLD_BYTE_LIMIT {
                return None;
            }
        } else if i + 1 >= t.len() {
            return None;
        } else if t[i + 1] == '%' {
            proof {
                lemma_encode_concat(out@, seq!['%']);
                lemma_encode_single('%');
                assert(out@.push('%') =~= out@ + seq!['%']);
            }
            out.push('%');
            ob = ob + 1;
            i = i + 2;
        } else {
            match directive(&t, i + 1) {
                None => {
                    return None;
                },
                Some((f, w, p, pe)) => {
                    match segment(t[pe], f, w, p, args, argi) {
                        None => {
                            return None;
                        },
                        Some((seg, a2)) => {
                            let sb = enc_len_capped(&seg, STRING_FOLD_BYTE_LIMIT);
                            proof {
                                lemma_encode_concat(out@, seg@);
                            }
                            if sb > STRING_FOLD_BYTE_LIMIT || ob + sb > STRING_FOLD_BYTE_LIMIT {
                                return None;
                            }
                            append(&mut out, &seg);
                            ob = ob + sb;
                            i = pe + 1;
                            argi = a2;
                        },
                    }
                },
            }
        }
    }
    if argi != args.len() || ob > STRING_FOLD_BYTE_LIMIT {
        return None;
    }
    Some(from_chars(out.as_slice()))
}

/// The receiverless `Kernel` conversion `m` of pinned arguments: `format` /
/// `sprintf` of a String template, `String(v)`, `Integer(v)` and
/// `Integer(str, base)`. `Float(v)` is not folded here.
pub open spec fn spec_kernel_conversion(m: Seq<char>, cs: Seq<ScalarV>) -> Option<ScalarV> {
    if m == "format"@ || m == "sprintf"@ {
        if cs.len() >= 1 {
            match cs[0] {
                ScalarV::Str(t) => match spec_sprintf(t, cs.drop_first()) {
                    Some(o) => Some(ScalarV::Str(o)),
                    None => None,
                },
                _ => None,
            }
        } else {
            None
        }
    } else if m == "String"@ {
        if cs.len() == 1 {
            match spec_string_of(cs[0]) {
                Some(o) => Some(ScalarV::Str(o)),
                None => None,
            }
        } else {
            None
        }
    } else if m == "Integer"@ {
        if cs.len() == 1 {
            match spec_ruby_integer(cs[0], None) {
                Some(v) => Some(ScalarV::Int(v as i64)),
                None => None,
            }
        } else if cs.len() == 2 {
            match cs[1] {
                ScalarV::Int(b) => match spec_ruby_integer(cs[0], Some(b as int)) {
                    Some(v) => Some(ScalarV::Int(v as i64)),
                    None => None,
                },
                _ => None,
            }
        } else {
            None
        }
    } else {
        None
    }
}

/// The receiverless `Kernel` conversion `m` of pinned arguments.
pub fn kernel_conversion(m: &str, args: &[Scalar]) -> (r: Option<Scalar>)
    ensures
        opt_view(r) == spec_kernel_conversion(m@, args@.map_values(|a: Scalar| a@)),
{
    let ghost av = args@.map_values(|a: Scalar| a@);
    if str_eq(m, "format") || str_eq(m, "sprintf") {
        if args.len() >= 1 {
            assert(av[0] == args@[0]@);
            match &args[0] {
                Scalar::Str(t) => {
                    let rest = args_after_first(args);
                    assert(rest@.map_values(|a: Scalar| a@) =~= av.drop_first());
                    match sprintf(t.as_str(), rest.as_slice()) {
                        Some(o) => Some(Scalar::Str(o)),
                        None => None,
                    }
                },
                _ => None,
            }
        } else {
            None
        }
    } else if str_eq(m, "String") {
        if args.len() == 1 {
            assert(av[0] == args@[0]@);
            match ruby_string_of(&args[0]) {
                Some(o) => Some(Scalar::Str(o)),
                None => None,
            }
        } else {
            None
        }
    } else if str_eq(m, "Integer") {
        if args.len() == 1 {
            assert(av[0] == args@[0]@);
            match ruby_integer(&args[0], None) {
                Some(v) => Some(Scalar::Int(v)),
                None => None,
            }
        } else if args.len() == 2 {
            assert(av[0] == args@[0]@);
            assert(av[1] == args@[1]@);
            match &args[1] {
                Scalar::Int(b) => match ruby_integer(&args[0], Some(*b)) {
                    Some(v) => Some(Scalar::Int(v)),
                    None => None,
                },
                _ => None,
            }
        } else {
            None
        }
    } else {
        None
    }
}

/// A copy of every argument but the first.
fn args_after_first(args: &[Scalar]) -> (r: Vec<Scalar>)
    requires
        args@.len() >= 1,
    ensures
        r@.map_values(|a: Scalar| a@) == args@.map_values(|a: Scalar| a@).drop_first(),
{
    let ghost av = args@.map_values(|a: Scalar| a@);
    let mut out: Vec<Scalar> = Vec::new();
    let mut k: usize = 1;
    while k < args.len()
        invariant
            1 <= k <= args@.len(),
            av == args@.map_values(|a: Scalar| a@),
            out@.map_values(|a: Scalar| a@) == av.subrange(1, k as int),
        decreases args@.len() - k,
    {
        let ghost o0 = out@.map_values(|a: Scalar| a@);
        out.push(crate::types::scalar_copy(&args[k]));
        k = k + 1;
        assert(out@.map_values(|a: Scalar| a@) =~= o0.push(av[k - 1]));
        assert(av.subrange(1, k as int) =~= av.subrange(1, k - 1).push(av[k - 1]));
    }
    assert(av.subrange(1, args@.len() as int) =~= av.drop_first());
    out
}

/// Every result of `sp_from` stays within the byte limit.
proof fn lemma_sp_from_bounded(t: Seq<char>, i: int, args: Seq<ScalarV>, argi: int, out: Seq<char>)
    ensures
        sp_from(t, i, args, argi, out) matches Some(o) ==> enc_len(o) <= STRING_FOLD_BYTE_LIMIT,
    decreases t.len() - i,
{
    if i < 0 || i >= t.len() {
    } else if t[i] != '%' {
        lemma_sp_from_bounded(t, i + 1, args, argi, out.push(t[i]));
    } else if i + 1 >= t.len() {
    } else if t[i + 1] == '%' {
        lemma_sp_from_bounded(t, i + 2, args, argi, out.push('%'));
    } else {
        match spec_directive(t, i + 1) {
            None => {},
            Some((f, width, precision, pe)) => match spec_segment(t[pe], f, width, precision, args, argi) {
                None => {},
                Some((seg, argi2)) => {
                    lemma_sp_from_bounded(t, pe + 1, args, argi2, out + seg);
                },
            },
        }
    }
}

/// A `format` result is never larger than the byte limit: a template or an
/// argument list that would render more declines instead.
pub proof fn lemma_sprintf_within_limit(t: Seq<char>, args: Seq<ScalarV>)
    ensures
        spec_sprintf(t, args) matches Some(o) ==> enc_len(o) <= STRING_FOLD_BYTE_LIMIT,
{
    lemma_sp_from_bounded(t, 0, args, 0, Seq::empty());
}

/// A template without directives renders as itself when it fits the byte
/// limit, and declines any argument: every argument must be consumed.
pub proof fn lemma_sprintf_plain_template(t: Seq<char>, args: Seq<ScalarV>)
    requires
        forall|k: int| 0 <= k < t.len() ==> t[k] != '%',
    ensures
        spec_sprintf(t, args) == (if args.len() == 0 && enc_len(t) <= STRING_FOLD_BYTE_LIMIT {
            Some(t)
        } else {
            None
        }),
{
    lemma_plain_from(t, 0, args, Seq::empty());
    assert(Seq::<char>::empty() + t.subrange(0, t.len() as int) =~= t);
}

/// An argument that a successful `format` left unconsumed makes it decline:
/// Ruby raises on an argument count that does not match the template.
pub proof fn lemma_sprintf_extra_argument(t: Seq<char>, args: Seq<ScalarV>, x: ScalarV)
    requires
        spec_sprintf(t, args) is Some,
    ensures
        spec_sprintf(t, args.push(x)) is None,
{
    lemma_sp_from_extra(t, 0, args, 0, Seq::empty(), x);
}

/// Each step of a run that succeeds reads the same arguments with one more
/// at the end, and then ends with that one unconsumed.
proof fn lemma_sp_from_extra(t: Seq<char>, i: int, args: Seq<ScalarV>, argi: int, out: Seq<char>, x: ScalarV)
    requires
        sp_from(t, i, args, argi, out) is Some,
    ensures
        sp_from(t, i, args.push(x), argi, out) is None,
    decreases t.len() - i,
{
    let a2 = args.push(x);
    if i < 0 || i >= t.len() {
    } else if t[i] != '%' {
        let o = out.push(t[i]);
        if enc_len(o) <= STRING_FOLD_BYTE_LIMIT {
            lemma_sp_from_extra(t, i + 1, args, argi, o, x);
        }
    } else if i + 1 >= t.len() {
    } else if t[i + 1] == '%' {
        lemma_sp_from_extra(t, i + 2, args, argi, out.push('%'), x);
    } else {
        match spec_directive(t, i + 1) {
            None => {},
            Some((f, width, precision, pe)) => {
                match spec_segment(t[pe], f, width, precision, args, argi) {
                    None => {},
                    Some((seg, argi2)) => {
                        assert(a2[argi] == args[argi]);
                        assert(spec_segment(t[pe], f, width, precision, a2, argi) == spec_segment(t[pe], f, width, precision, args, argi));
                        let o = out + seg;
                        if enc_len(o) <= STRING_FOLD_BYTE_LIMIT {
                            lemma_sp_from_extra(t, pe + 1, args, argi2, o, x);
                        }
                    },
                }
            },
        }
    }
}

/// `c` is an ASCII digit of base `b`.
pub open spec fn is_base_digit(c: char, b: int) -> bool {
    &&& digit36(c) matches Some(x) && x < b
    &&& c <= '\u{7f}'
}

/// A digit's character reads back as that digit.
proof fn lemma_digit_char(d: nat, u: bool)
    requires
        d < 36,
    ensures
        digit36(digit_char(d, u)) == Some(d as int),
        digit_char(d, u) <= '\u{7f}',
        d != 0 ==> digit_char(d, u) != '0',
        !is_ascii_ws(digit_char(d, u)),
        digit_char(d, u) != '_' && digit_char(d, u) != '+' && digit_char(d, u) != '-',
{
}

/// Every character of a radix spelling is a digit of its base; the
/// spelling is not empty and, for a positive value, does not start with `0`.
proof fn lemma_radix_digits_shape(n: nat, r: nat, u: bool)
    requires
        2 <= r <= 36,
    ensures
        radix_digits(n, r, u).len() >= 1,
        forall|k: int| 0 <= k < radix_digits(n, r, u).len() ==> is_base_digit(#[trigger] radix_digits(n, r, u)[k], r as int),
        n > 0 ==> radix_digits(n, r, u)[0] != '0',
    decreases n,
{
    if n < r {
        lemma_digit_char(n, u);
        assert(radix_digits(n, r, u) == seq![digit_char(n, u)]);
        assert(seq![digit_char(n, u)][0] == digit_char(n, u));
    } else {
        vstd::arithmetic::div_mod::lemma_div_decreases(n as int, r as int);
        vstd::arithmetic::div_mod::lemma_div_pos_is_pos(n as int, r as int);
        assert(n / r > 0) by {
            vstd::arithmetic::div_mod::lemma_div_is_ordered(r as int, n as int, r as int);
            vstd::arithmetic::div_mod::lemma_div_basics(r as int);
        }
        lemma_radix_digits_shape(n / r, r, u);
        lemma_digit_char(n % r, u);
        let p = radix_digits(n / r, r, u);
        assert(radix_digits(n, r, u) == p.push(digit_char(n % r, u)));
        assert(p.push(digit_char(n % r, u))[0] == p[0]);
        assert forall|k: int| 0 <= k < p.push(digit_char(n % r, u)).len() implies is_base_digit(
            #[trigger] p.push(digit_char(n % r, u))[k],
            r as int,
        ) by {
            if k < p.len() {
                assert(p.push(digit_char(n % r, u))[k] == p[k]);
            }
        }
    }
}

/// Scanning a digit stream with one more digit at the end goes one step
/// further: the value so far times the base, plus that digit.
proof fn lemma_scan_push(d: Seq<char>, b: int, k: int, acc: int, prev: bool, c: char)
    requires
        0 <= k < d.len(),
        forall|j: int| 0 <= j < d.len() ==> is_base_digit(#[trigger] d[j], b),
        is_base_digit(c, b),
        c != '_',
    ensures
        scan_digits(d.push(c), b, k, acc, prev) == (match scan_digits(d, b, k, acc, prev) {
            Some(x) => Some(x * b + digit36(c)->Some_0),
            None => None,
        }),
    decreases d.len() - k,
{
    let e = d.push(c);
    assert(e[k] == d[k]);
    assert(is_base_digit(d[k], b));
    assert(d[k] != '_');
    let x0 = digit36(d[k])->Some_0;
    let a1 = acc * b + x0;
    assert(x0 < b);
    assert(scan_digits(e, b, k, acc, prev) == scan_digits(e, b, k + 1, a1, true));
    assert(scan_digits(d, b, k, acc, prev) == scan_digits(d, b, k + 1, a1, true));
    if k + 1 < d.len() {
        lemma_scan_push(d, b, k + 1, a1, true, c);
    } else {
        assert(e[k + 1] == c);
        let cx = digit36(c)->Some_0;
        assert(scan_digits(d, b, k + 1, a1, true) == Some(a1));
        assert(scan_digits(e, b, k + 2, a1 * b + cx, true) == Some(a1 * b + cx));
        assert(scan_digits(e, b, k + 1, a1, true) == scan_digits(e, b, k + 2, a1 * b + cx, true));
    }
}

/// The radix spelling of `n` scans back to `n`.
proof fn lemma_scan_radix(n: nat, r: nat, u: bool)
    requires
        2 <= r <= 36,
    ensures
        scan_digits(radix_digits(n, r, u), r as int, 0, 0, false) == Some(n as int),
    decreases n,
{
    lemma_radix_digits_shape(n, r, u);
    if n < r {
        lemma_digit_char(n, u);
        let d = radix_digits(n, r, u);
        assert(d == seq![digit_char(n, u)]);
        assert(d[0] != '_');
        assert(scan_digits(d, r as int, 1, n as int, true) == Some(n as int));
        assert(scan_digits(d, r as int, 0, 0, false) == scan_digits(d, r as int, 1, 0 * (r as int) + n, true));
    } else {
        vstd::arithmetic::div_mod::lemma_div_decreases(n as int, r as int);
        vstd::arithmetic::div_mod::lemma_fundamental_div_mod(n as int, r as int);
        lemma_scan_radix(n / r, r, u);
        lemma_radix_digits_shape(n / r, r, u);
        lemma_digit_char(n % r, u);
        let p = radix_digits(n / r, r, u);
        lemma_scan_push(p, r as int, 0, 0, false, digit_char(n % r, u));
        assert(radix_digits(n, r, u) == p.push(digit_char(n % r, u)));
        assert((n / r) as int * (r as int) + (n % r) as int == n as int) by (nonlinear_arith)
            requires n as int == (r as int) * ((n / r) as int) + (n % r) as int;
    }
}

/// A radix spelling without sign or prefix parses back, in its own base, to
/// the value it spells, whenever that value fits an `i64`.
pub proof fn lemma_parse_radix_spelling(v: nat, r: nat, u: bool)
    requires
        2 <= r <= 36,
        v <= i64::MAX,
    ensures
        spec_parse_int(radix_digits(v, r, u), Some(r as int)) == Some(v as int),
{
    lemma_parse_digits(v, r, u, Some(r as int));
}

/// The spelling of an Integer parses back to it, with no base or base 10.
pub proof fn lemma_integer_spelling_round_trip(n: i64)
    ensures
        spec_parse_int(int_to_decimal(n as int), None) == Some(n as int),
        spec_parse_int(int_to_decimal(n as int), Some(10)) == Some(n as int),
{
    if n >= 0 {
        lemma_parse_digits(n as nat, 10, false, None);
        lemma_parse_digits(n as nat, 10, false, Some(10));
    } else {
        let m = (-(n as int)) as nat;
        let d = radix_digits(m, 10, false);
        let s = seq!['-'] + d;
        lemma_radix_digits_shape(m, 10, false);
        lemma_scan_radix(m, 10, false);
        assert(s[0] == '-');
        assert(s.last() == d.last());
        assert(is_base_digit(d[d.len() - 1], 10));
        lemma_digit_not_ws(d.last());
        assert(trim_ws(s) == s);
        assert(s.drop_first() =~= d);
        assert(vstd::utf8::is_ascii_chars(s)) by {
            assert forall|i: int| 0 <= i < s.len() implies '\0' <= #[trigger] s[i] <= '\u{7f}' by {
                if i > 0 {
                    assert(s[i] == d[i - 1]);
                    assert(is_base_digit(d[i - 1], 10));
                }
            }
        }
        if m > 0 && d.len() >= 2 {
            assert(d[0] != '0');
        }
    }
}

/// A base digit is not whitespace.
proof fn lemma_digit_not_ws(c: char)
    requires
        digit36(c) is Some,
    ensures
        !is_ascii_ws(c),
        c != '_' && c != '+' && c != '-',
{
}

/// An unsigned radix spelling parses back to its value under no base (for
/// base 10) or under its own base.
proof fn lemma_parse_digits(v: nat, r: nat, u: bool, base: Option<int>)
    requires
        2 <= r <= 36,
        v <= i64::MAX,
        base == Some(r as int) || (base is None && r == 10),
    ensures
        spec_parse_int(radix_digits(v, r, u), base) == Some(v as int),
{
    let d = radix_digits(v, r, u);
    lemma_radix_digits_shape(v, r, u);
    lemma_scan_radix(v, r, u);
    assert(is_base_digit(d[0], r as int));
    assert(is_base_digit(d[d.len() - 1], r as int));
    lemma_digit_not_ws(d[0]);
    lemma_digit_not_ws(d.last());
    assert(trim_ws(d) == d);
    assert(vstd::utf8::is_ascii_chars(d)) by {
        assert forall|i: int| 0 <= i < d.len() implies '\0' <= #[trigger] d[i] <= '\u{7f}' by {
            assert(is_base_digit(d[i], r as int));
        }
    }
    if v > 0 && d.len() >= 2 {
        assert(d[0] != '0');
    }
    if v == 0 {
        assert(d.len() == 1);
    }
}

/// Without directives, `sp_from` copies the rest of the template.
proof fn lemma_plain_from(t: Seq<char>, i: int, args: Seq<ScalarV>, out: Seq<char>)
    requires
        0 <= i <= t.len(),
        forall|k: int| 0 <= k < t.len() ==> t[k] != '%',
        enc_len(out) <= STRING_FOLD_BYTE_LIMIT,
    ensures
        sp_from(t, i, args, 0, out) == (if args.len() == 0 && enc_len(out + t.subrange(i, t.len() as int)) <= STRING_FOLD_BYTE_LIMIT {
            Some(out + t.subrange(i, t.len() as int))
        } else {
            None
        }),
    decreases t.len() - i,
{
    if i == t.len() {
        assert(out + t.subrange(i, t.len() as int) =~= out);
    } else {
        let o = out.push(t[i]);
        assert(out + t.subrange(i, t.len() as int) =~= o + t.subrange(i + 1, t.len() as int));
        lemma_encode_concat(o, t.subrange(i + 1, t.len() as int));
        if enc_len(o) <= STRING_FOLD_BYTE_LIMIT {
            lemma_plain_from(t, i + 1, args, o);
        }
    }
}


/// Without the `-` flag, and without zero padding (no `0` flag, or a
/// precision given), padding right-justifies: the result is spaces followed
/// by the sign and the body, exactly as wide as the width when they are
/// narrower.
pub proof fn lemma_pad_right_justifies(body: Seq<char>, sign: Seq<char>, f: Flags, w: nat, precision_given: bool)
    requires
        !f.minus,
        !(f.zero && !precision_given),
    ensures
        ({
            let r = spec_pad(body, sign, f, Some(w), precision_given);
            let c = sign + body;
            &&& r.len() == (if c.len() >= w { c.len() } else { w })
            &&& r.subrange(r.len() - c.len(), r.len() as int) == c
            &&& forall|k: int| 0 <= k < r.len() - c.len() ==> r[k] == ' '
        }),
{
    let r = spec_pad(body, sign, f, Some(w), precision_given);
    let c = sign + body;
    if c.len() >= w {
        assert(r.subrange(0, r.len() as int) =~= r);
    } else {
        let p = (w - c.len()) as nat;
        assert(r == fill(' ', p) + c);
        assert(r.subrange(r.len() - c.len(), r.len() as int) =~= c);
    }
}

/// A width-padded integer conversion without `-` and without zero padding
/// is the unpadded conversion (sign and digits) preceded by spaces up to the
/// width: `%5d` of `-42` is `  -42`.
pub proof fn lemma_padded_integer_ends_with_unpadded(value: int, radix: nat, upper: bool, f: Flags, w: nat, precision: Option<nat>)
    requires
        !f.minus,
        !(f.zero && precision is None),
    ensures
        ({
            let r = spec_fmt_integer(value, radix, upper, f, Some(w), precision);
            let u = spec_fmt_integer(value, radix, upper, f, None, precision);
            &&& r.len() == (if u.len() >= w { u.len() } else { w })
            &&& r.subrange(r.len() - u.len(), r.len() as int) == u
            &&& forall|k: int| 0 <= k < r.len() - u.len() ==> r[k] == ' '
        }),
{
    let mag = if value < 0 { -value } else { value };
    let digits = with_precision(radix_digits(mag as nat, radix, upper), value == 0, precision);
    let sign = if value < 0 {
        seq!['-']
    } else if f.plus {
        seq!['+']
    } else if f.space {
        seq![' ']
    } else {
        Seq::empty()
    };
    lemma_pad_right_justifies(digits, sign, f, w, precision is Some);
}


/// Under `-` padding goes to the right: the sign and the body come first,
/// then spaces up to the width. Under `0` without `-` or a precision, zeros
/// go between the sign and the body. Padding never cuts: a result at least
/// as wide as the width is the sign and the body unchanged.
pub proof fn lemma_pad_left_and_zero(body: Seq<char>, sign: Seq<char>, f: Flags, w: nat, precision_given: bool)
    ensures
        ({
            let r = spec_pad(body, sign, f, Some(w), precision_given);
            let c = sign + body;
            &&& r.len() == (if c.len() >= w { c.len() } else { w })
            &&& c.len() >= w ==> r == c
            &&& f.minus ==> r.subrange(0, c.len() as int) == c && forall|k: int| c.len() <= k < r.len() ==> r[k] == ' '
            &&& !f.minus && f.zero && !precision_given ==> r.subrange(0, sign.len() as int) == sign && r.subrange(
                r.len() - body.len(),
                r.len() as int,
            ) == body && forall|k: int| sign.len() <= k < r.len() - body.len() ==> r[k] == '0'
        }),
{
    let r = spec_pad(body, sign, f, Some(w), precision_given);
    let c = sign + body;
    if c.len() >= w {
        assert(r.subrange(0, c.len() as int) =~= c);
        assert(r.subrange(0, sign.len() as int) =~= sign);
        assert(r.subrange(r.len() - body.len(), r.len() as int) =~= body);
    } else {
        let p = (w - c.len()) as nat;
        if f.minus {
            assert(r.subrange(0, c.len() as int) =~= c);
        } else if f.zero && !precision_given {
            assert(r.subrange(0, sign.len() as int) =~= sign);
            assert(r.subrange(r.len() - body.len(), r.len() as int) =~= body);
        }
    }
}

} // verus!
