//! Tokens of the Ruby subset the parser reads.
use vstd::prelude::*;
use crate::text::push_char;

verus! {

/// The kind of a token.
#[derive(Debug, Clone, Copy, PartialEq, Eq, Structural)]
pub enum TokKind {
    /// A lower-case identifier or keyword, possibly ending in `?` or `!`.
    Ident,
    /// A capitalised constant name.
    Const,
    /// `@x`, `@@x` or `$x`.
    IVar,
    /// An integer literal; the value is in `Tok::value`.
    Int,
    /// A floating-point literal.
    Float,
    /// A string literal without interpolation; its contents are the text.
    Str,
    /// A string literal with `#{…}` interpolation.
    DStr,
    /// A symbol literal `:name`; the name is the text.
    Sym,
    /// A hash label `name:`; the name is the text.
    Label,
    /// Punctuation or an operator.
    Op,
    /// A line break or `;`.
    Newline,
}

/// One token with its byte range.
#[derive(Debug)]
pub struct Tok {
    pub kind: TokKind,
    pub text: String,
    /// An integer literal's value; a float literal's decimal digits, or `-1`
    /// when they do not fit.
    pub value: i64,
    /// A float literal's decimal exponent: its value is `value × 10^exp10`.
    pub exp10: i32,
    pub start: usize,
    pub end: usize,
    /// Whitespace separates this token from the previous one.
    pub space_before: bool,
}

/// Every token lies within the source and has an ordered byte range.
pub open spec fn toks_wf(toks: Seq<Tok>, len: nat) -> bool {
    forall|i: int| 0 <= i < toks.len() ==> (#[trigger] toks[i]).start <= toks[i].end <= len
}

/// An identifier character: a letter, a digit or `_`.
pub open spec fn spec_ident_byte(b: u8) -> bool {
    (b >= 97 && b <= 122) || (b >= 65 && b <= 90) || (b >= 48 && b <= 57) || b == 95
}

/// An identifier character.
fn is_ident_byte(b: u8) -> (r: bool)
    ensures
        r == spec_ident_byte(b),
{
    (b >= 97 && b <= 122) || (b >= 65 && b <= 90) || (b >= 48 && b <= 57) || b == 95
}

/// The text of `src[i..j]` as a string (ASCII bytes only).
fn ascii_text(src: &[u8], i: usize, j: usize) -> (r: Option<String>)
    requires
        i <= j <= src@.len(),
    ensures
        r is Some <==> (forall|k: int| i <= k < j ==> src@[k] < 128),
        r matches Some(s) ==> s@ == Seq::new((j - i) as nat, |k: int| src@[i + k] as char),
{
    let mut s = String::new();
    let mut k = i;
    assert(s@ =~= Seq::new(0nat, |x: int| src@[i + x] as char));
    while k < j
        invariant
            i <= k <= j <= src@.len(),
            forall|x: int| i <= x < k ==> src@[x] < 128,
            s@ == Seq::new((k - i) as nat, |x: int| src@[i + x] as char),
        decreases j - k,
    {
        let b = src[k];
        if b >= 128 {
            return None;
        }
        push_char(&mut s, b as char);
        k = k + 1;
        assert(s@ =~= Seq::new((k - i) as nat, |x: int| src@[i + x] as char));
    }
    Some(s)
}

/// The three-byte operators.
pub open spec fn spec_op3(b0: u8, b1: u8, b2: u8) -> bool {
    (b0 == 60 && b1 == 61 && b2 == 62) || (b0 == 61 && b1 == 61 && b2 == 61)
        || (b0 == 46 && b1 == 46 && b2 == 46) || (b0 == 42 && b1 == 42 && b2 == 61)
        || (b0 == 60 && b1 == 60 && b2 == 61) || (b0 == 62 && b1 == 62 && b2 == 61)
        || (b0 == 38 && b1 == 38 && b2 == 61) || (b0 == 124 && b1 == 124 && b2 == 61)
}

/// The two-byte operators.
pub open spec fn spec_op2(b0: u8, b1: u8) -> bool {
    (b0 == 61 && (b1 == 61 || b1 == 126 || b1 == 62)) || (b0 == 33 && (b1 == 61 || b1 == 126))
        || (b0 == 62 && (b1 == 61 || b1 == 62)) || (b0 == 60 && (b1 == 61 || b1 == 60)) || (b0 == 38
        && (b1 == 38 || b1 == 46 || b1 == 61)) || (b0 == 124 && (b1 == 124 || b1 == 61)) || (b0
        == 42 && (b1 == 42 || b1 == 61)) || (b0 == 43 && b1 == 61) || (b0 == 45 && (b1 == 61 || b1
        == 62)) || (b0 == 47 && b1 == 61) || (b0 == 37 && b1 == 61) || (b0 == 94 && b1 == 61) || (
    b0 == 58 && b1 == 58) || (b0 == 46 && b1 == 46)
}

/// The length of the longest operator starting at `i`.
pub open spec fn spec_op_len(src: Seq<u8>, i: int) -> int {
    let n = src.len() - i;
    if n > 2 && spec_op3(src[i], src[i + 1], src[i + 2]) {
        3
    } else if n > 1 && spec_op2(src[i], src[i + 1]) {
        2
    } else {
        1
    }
}

/// The operators, longest first.
fn op_len(src: &[u8], i: usize) -> (r: usize)
    requires
        i < src@.len(),
    ensures
        1 <= r <= src@.len() - i,
        r == spec_op_len(src@, i as int),
{
    let n = src.len() - i;
    let b0 = src[i];
    let b1: u8 = if n > 1 { src[i + 1] } else { 0 };
    let b2: u8 = if n > 2 { src[i + 2] } else { 0 };
    if n > 2 && ((b0 == 60 && b1 == 61 && b2 == 62) || (b0 == 61 && b1 == 61 && b2 == 61)
        || (b0 == 46 && b1 == 46 && b2 == 46) || (b0 == 42 && b1 == 42 && b2 == 61)
        || (b0 == 60 && b1 == 60 && b2 == 61) || (b0 == 62 && b1 == 62 && b2 == 61)
        || (b0 == 38 && b1 == 38 && b2 == 61) || (b0 == 124 && b1 == 124 && b2 == 61)) {
        return 3;
    }
    if n > 1 {
        let two = (b0 == 61 && (b1 == 61 || b1 == 126 || b1 == 62)) || (b0 == 33 && (b1 == 61
            || b1 == 126)) || (b0 == 62 && (b1 == 61 || b1 == 62)) || (b0 == 60 && (b1 == 61
            || b1 == 60)) || (b0 == 38 && (b1 == 38 || b1 == 46 || b1 == 61)) || (b0 == 124
            && (b1 == 124 || b1 == 61)) || (b0 == 42 && (b1 == 42 || b1 == 61)) || (b0 == 43
            && b1 == 61) || (b0 == 45 && (b1 == 61 || b1 == 62)) || (b0 == 47 && b1 == 61) || (
        b0 == 37 && b1 == 61) || (b0 == 94 && b1 == 61) || (b0 == 58 && b1 == 58) || (b0 == 46
            && b1 == 46);
        if two {
            return 2;
        }
    }
    1
}

/// A byte of punctuation the lexer takes as an operator.
pub open spec fn spec_op_byte(b: u8) -> bool {
    b == 43 || b == 45 || b == 42 || b == 47 || b == 37 || b == 61 || b == 60 || b == 62
        || b == 33 || b == 38 || b == 124 || b == 94 || b == 126 || b == 63 || b == 58 || b == 44
        || b == 46 || b == 40 || b == 41 || b == 91 || b == 93 || b == 123 || b == 125
}

/// Whether a byte is punctuation the lexer takes as an operator.
fn is_op_byte(b: u8) -> (r: bool)
    ensures
        r == spec_op_byte(b),
{
    b == 43 || b == 45 || b == 42 || b == 47 || b == 37 || b == 61 || b == 60 || b == 62
        || b == 33 || b == 38 || b == 124 || b == 94 || b == 126 || b == 63 || b == 58 || b == 44
        || b == 46 || b == 40 || b == 41 || b == 91 || b == 93 || b == 123 || b == 125
}

/// A blank byte: a space, a tab, a carriage return, a line feed or `;`.
pub open spec fn spec_blank_byte(b: u8) -> bool {
    b == 32 || b == 9 || b == 13 || b == 10 || b == 59
}

/// Every byte of `src` is blank.
pub open spec fn blank_text(src: Seq<u8>) -> bool {
    forall|k: int| 0 <= k < src.len() ==> spec_blank_byte(#[trigger] src[k])
}

/// Every byte is an ASCII decimal digit.
pub open spec fn all_decimal(src: Seq<u8>) -> bool {
    forall|k: int| 0 <= k < src.len() ==> 48 <= #[trigger] src[k] <= 57
}

/// The value of a run of decimal digits.
pub open spec fn decimal_value(src: Seq<u8>) -> int
    decreases src.len(),
{
    if src.len() == 0 {
        0
    } else {
        decimal_value(src.drop_last()) * 10 + (src.last() - 48)
    }
}

/// The source is one decimal literal (no leading zero) whose value fits an
/// `i64`.
pub open spec fn lone_decimal(src: Seq<u8>) -> bool {
    src.len() > 0 && all_decimal(src) && (src[0] != 48 || src.len() == 1) && decimal_value(src) <= i64::MAX
}

/// A longer prefix of digits has at least the value of a shorter one.
proof fn lemma_decimal_prefix(src: Seq<u8>, k: int)
    requires
        all_decimal(src),
        0 <= k <= src.len(),
    ensures
        0 <= decimal_value(src.take(k)) <= decimal_value(src),
    decreases src.len() - k,
{
    if k < src.len() {
        lemma_decimal_prefix(src, k + 1);
        assert(src.take(k + 1).drop_last() =~= src.take(k));
        assert(src.take(k + 1).last() == src[k]);
    } else {
        assert(src.take(k) =~= src);
        lemma_decimal_nonneg(src);
    }
}

/// The value of digits is never negative.
proof fn lemma_decimal_nonneg(src: Seq<u8>)
    requires
        all_decimal(src),
    ensures
        0 <= decimal_value(src),
    decreases src.len(),
{
    if src.len() > 0 {
        assert(all_decimal(src.drop_last()));
        lemma_decimal_nonneg(src.drop_last());
    }
}

/// Every token is a line break.
pub open spec fn all_breaks(toks: Seq<Tok>) -> bool {
    forall|k: int| 0 <= k < toks.len() ==> (#[trigger] toks[k]).kind == TokKind::Newline
}

/// The tokens of `src`, or `None` on text outside the subset (a non-ASCII
/// byte, an unterminated literal, an integer past the `i64` range).
/// Blank text always lexes, to line breaks alone.
pub fn lex(src: &[u8]) -> (r: Option<Vec<Tok>>)
    ensures
        r matches Some(t) ==> toks_wf(t@, src@.len()),
        blank_text(src@) ==> r is Some && all_breaks(r->0@),
        lone_decimal(src@) ==> r is Some && r->0@.len() == 1 && r->0@[0].kind == TokKind::Int && r->0@[0].value
            == decimal_value(src@) && r->0@[0].start == 0 && r->0@[0].end == src@.len(),
{
    let mut toks: Vec<Tok> = Vec::new();
    let mut i: usize = 0;
    let mut space = false;
    while i < src.len()
        invariant
            0 <= i <= src@.len(),
            toks_wf(toks@, src@.len()),
            blank_text(src@) ==> all_breaks(toks@),
            lone_decimal(src@) ==> (i == 0 && toks@.len() == 0) || (i == src@.len() && toks@.len() == 1 && toks@[0].kind
                == TokKind::Int && toks@[0].value == decimal_value(src@) && toks@[0].start == 0 && toks@[0].end == src@.len()),
        decreases src@.len() - i,
    {
        let b = src[i];
        assert(b == src@[i as int]);
        if b == 32 || b == 9 || b == 13 {
            space = true;
            i = i + 1;
        } else if b == 92 && src.len() - i > 1 && src[i + 1] == 10 {
            space = true;
            i = i + 2;
        } else if b == 35 {
            let start = i;
            i = i + 1;
            while i < src.len() && src[i] != 10
                invariant
                    start < i <= src@.len(),
                decreases src@.len() - i,
            {
                i = i + 1;
            }
        } else if b == 10 || b == 59 {
            toks.push(Tok { kind: TokKind::Newline, text: String::new(), value: 0, exp10: 0, start: i, end: i + 1, space_before: space });
            space = false;
            i = i + 1;
        } else if (b >= 97 && b <= 122) || b == 95 || (b >= 65 && b <= 90) {
            let start = i;
            i = i + 1;
            while i < src.len() && is_ident_byte(src[i])
                invariant
                    start < i <= src@.len(),
                decreases src@.len() - i,
            {
                i = i + 1;
            }
            if i < src.len() && (src[i] == 63 || src[i] == 33) && !(src.len() - i > 1 && src[i + 1] == 61) {
                i = i + 1;
            }
            let text = ascii_text(src, start, i)?;
            if i < src.len() && src[i] == 58 && !(src.len() - i > 1 && src[i + 1] == 58) && !(b >= 65 && b <= 90) {
                toks.push(Tok { kind: TokKind::Label, text, value: 0, exp10: 0, start, end: i + 1, space_before: space });
                i = i + 1;
            } else {
                let kind = if b >= 65 && b <= 90 { TokKind::Const } else { TokKind::Ident };
                toks.push(Tok { kind, text, value: 0, exp10: 0, start, end: i, space_before: space });
            }
            space = false;
        } else if b == 64 || b == 36 {
            let start = i;
            i = i + 1;
            if i < src.len() && src[i] == 64 {
                i = i + 1;
            }
            while i < src.len() && is_ident_byte(src[i])
                invariant
                    start < i <= src@.len(),
                decreases src@.len() - i,
            {
                i = i + 1;
            }
            let text = ascii_text(src, start, i)?;
            toks.push(Tok { kind: TokKind::IVar, text, value: 0, exp10: 0, start, end: i, space_before: space });
            space = false;
        } else if b >= 48 && b <= 57 {
            let start = i;
            let mut v: i64 = 0;
            assert(!blank_text(src@)) by {
                assert(!spec_blank_byte(src@[start as int]));
            }
            while i < src.len() && ((src[i] >= 48 && src[i] <= 57) || src[i] == 95)
                invariant
                    start <= i <= src@.len(),
                    0 <= v,
                    !blank_text(src@),
                    lone_decimal(src@) ==> start == 0 && v == decimal_value(src@.take(i as int)),
                decreases src@.len() - i,
            {
                proof {
                    if lone_decimal(src@) {
                        lemma_decimal_prefix(src@, i + 1);
                        assert(src@.take(i + 1).drop_last() =~= src@.take(i as int));
                        assert(src@.take(i + 1).last() == src@[i as int]);
                        assert(48 <= src@[i as int] <= 57);
                    }
                }
                if src[i] != 95 {
                    let d = (src[i] - 48) as i64;
                    v = v.checked_mul(10)?.checked_add(d)?;
                }
                i = i + 1;
            }
            proof {
                if lone_decimal(src@) {
                    if i < src@.len() {
                        assert(48 <= src@[i as int] <= 57);
                    }
                    assert(src@.take(i as int) =~= src@);
                }
            }
            let mut mant: i64 = v;
            let mut fits = true;
            let mut frac: i32 = 0;
            let mut is_float = false;
            if src.len() - i > 1 && src[i] == 46 && src[i + 1] >= 48 && src[i + 1] <= 57 {
                is_float = true;
                i = i + 1;
                while i < src.len() && ((src[i] >= 48 && src[i] <= 57) || src[i] == 95)
                    invariant
                        start <= i <= src@.len(),
                        0 <= mant,
                        0 <= frac <= 1000,
                    decreases src@.len() - i,
                {
                    if src[i] != 95 && fits {
                        let d = (src[i] - 48) as i64;
                        match mant.checked_mul(10) {
                            Some(x) => match x.checked_add(d) {
                                Some(y) => {
                                    mant = y;
                                },
                                None => {
                                    fits = false;
                                },
                            },
                            None => {
                                fits = false;
                            },
                        }
                        if frac < 1000 {
                            frac = frac + 1;
                        } else {
                            fits = false;
                        }
                    }
                    i = i + 1;
                }
            }
            let mut exp: i32 = 0;
            if i < src.len() && (src[i] == 101 || src[i] == 69) {
                let mut j = i + 1;
                let mut neg = false;
                if j < src.len() && (src[j] == 43 || src[j] == 45) {
                    neg = src[j] == 45;
                    j = j + 1;
                }
                if j < src.len() && src[j] >= 48 && src[j] <= 57 {
                    is_float = true;
                    i = j;
                    while i < src.len() && ((src[i] >= 48 && src[i] <= 57) || src[i] == 95)
                        invariant
                            start <= i <= src@.len(),
                            0 <= exp <= 1000,
                        decreases src@.len() - i,
                    {
                        if src[i] != 95 {
                            if exp < 100 {
                                exp = exp * 10 + (src[i] - 48) as i32;
                            } else {
                                fits = false;
                            }
                        }
                        i = i + 1;
                    }
                    if neg {
                        exp = -exp;
                    }
                }
            }
            if is_float {
                if i == start {
                    return None;
                }
                let value: i64 = if fits { mant } else { -1 };
                toks.push(Tok { kind: TokKind::Float, text: String::new(), value, exp10: exp - frac, start, end: i, space_before: space });
            } else {
                if i == start {
                    return None;
                }
                toks.push(Tok { kind: TokKind::Int, text: String::new(), value: v, exp10: 0, start, end: i, space_before: space });
            }
            space = false;
        } else if b == 39 || b == 34 {
            let start = i;
            let quote = b;
            i = i + 1;
            let mut s = String::new();
            let mut interp = false;
            assert(!blank_text(src@)) by {
                assert(!spec_blank_byte(src@[start as int]));
            }
            while i < src.len() && src[i] != quote
                invariant
                    start < i <= src@.len(),
                    !blank_text(src@),
                decreases src@.len() - i,
            {
                let c = src[i];
                if c >= 128 {
                    return None;
                }
                if c == 92 && src.len() - i > 1 {
                    let e = src[i + 1];
                    if e >= 128 {
                        return None;
                    }
                    let out: char = if quote == 34 && e == 110 {
                        '\n'
                    } else if quote == 34 && e == 116 {
                        '\t'
                    } else if quote == 39 && e != 39 && e != 92 {
                        push_char(&mut s, '\\');
                        e as char
                    } else {
                        e as char
                    };
                    push_char(&mut s, out);
                    i = i + 2;
                } else {
                    if quote == 34 && c == 35 && src.len() - i > 1 && src[i + 1] == 123 {
                        interp = true;
                    }
                    push_char(&mut s, c as char);
                    i = i + 1;
                }
            }
            if i >= src.len() {
                return None;
            }
            i = i + 1;
            let kind = if interp { TokKind::DStr } else { TokKind::Str };
            toks.push(Tok { kind, text: s, value: 0, exp10: 0, start, end: i, space_before: space });
            space = false;
        } else if b == 58 && src.len() - i > 1 && ((src[i + 1] >= 97 && src[i + 1] <= 122) || src[i + 1] == 95 || (src[i + 1] >= 65 && src[i + 1] <= 90)) {
            let start = i;
            i = i + 1;
            let ns = i;
            while i < src.len() && is_ident_byte(src[i])
                invariant
                    ns <= i <= src@.len(),
                    start < ns,
                decreases src@.len() - i,
            {
                i = i + 1;
            }
            if i < src.len() && (src[i] == 63 || src[i] == 33 || src[i] == 61) {
                i = i + 1;
            }
            let text = ascii_text(src, ns, i)?;
            toks.push(Tok { kind: TokKind::Sym, text, value: 0, exp10: 0, start, end: i, space_before: space });
            space = false;
        } else if is_op_byte(b) {
            let n = op_len(src, i);
            let text = ascii_text(src, i, i + n)?;
            toks.push(Tok { kind: TokKind::Op, text, value: 0, exp10: 0, start: i, end: i + n, space_before: space });
            space = false;
            i = i + n;
        } else {
            return None;
        }
    }
    Some(toks)
}

} // verus!
