//! String lookups (`[]`, `slice`, `byteslice`, `index`, `rindex`,
//! `byteindex`, `byterindex`, `getbyte`) on pinned scalar arguments. The
//! character-domain lookups answer character positions, the byte-domain ones
//! answer positions in the UTF-8 encoding, exactly as CRuby does.
use vstd::prelude::*;
use vstd::utf8::{encode_utf8, encode_scalar, char_is_scalar};
use vstd::string::StringSliceAdditionalSpecFns;
use crate::scalar::{Scalar, ScalarV};
use crate::float_bits::{spec_float_trunc, float_trunc_i64};
use crate::text::{str_eq, to_chars, string_of_range};
use crate::offsets::{enc_len, byte_to_char, char_index_at_byte, lemma_enc_len_bounds};

verus! {

/// `needle` occurs in `hay` starting at position `p`.
pub open spec fn matches_at<A>(hay: Seq<A>, needle: Seq<A>, p: int) -> bool {
    0 <= p && p + needle.len() <= hay.len() && hay.subrange(p, p + needle.len()) == needle
}

/// The first occurrence of `needle` in `hay` at or after `from`.
#[verifier::opaque]
pub open spec fn first_match<A>(hay: Seq<A>, needle: Seq<A>, from: int) -> Option<int> {
    if exists|p: int| from <= p && matches_at(hay, needle, p) {
        Some(
            choose|p: int|
                from <= p && matches_at(hay, needle, p) && forall|q: int|
                    from <= q < p ==> !matches_at(hay, needle, q),
        )
    } else {
        None
    }
}

/// The last occurrence of `needle` in `hay` starting at or before `cap`.
#[verifier::opaque]
pub open spec fn last_match<A>(hay: Seq<A>, needle: Seq<A>, cap: int) -> Option<int> {
    if exists|p: int| p <= cap && matches_at(hay, needle, p) {
        Some(
            choose|p: int|
                p <= cap && matches_at(hay, needle, p) && forall|q: int|
                    p < q <= cap ==> !matches_at(hay, needle, q),
        )
    } else {
        None
    }
}

proof fn lemma_first_match_is<A>(hay: Seq<A>, needle: Seq<A>, from: int, p: int)
    requires
        from <= p,
        matches_at(hay, needle, p),
        forall|q: int| from <= q < p ==> !matches_at(hay, needle, q),
    ensures
        first_match(hay, needle, from) == Some(p),
{
    reveal(first_match);
    let c = choose|c: int|
        from <= c && matches_at(hay, needle, c) && forall|q: int|
            from <= q < c ==> !matches_at(hay, needle, q);
    assert(from <= c && matches_at(hay, needle, c));
    if c < p {
        assert(!matches_at(hay, needle, c));
    }
    if p < c {
        assert(!matches_at(hay, needle, p));
    }
}

proof fn lemma_last_match_is<A>(hay: Seq<A>, needle: Seq<A>, cap: int, p: int)
    requires
        p <= cap,
        matches_at(hay, needle, p),
        forall|q: int| p < q <= cap ==> !matches_at(hay, needle, q),
    ensures
        last_match(hay, needle, cap) == Some(p),
{
    reveal(last_match);
    let c = choose|c: int|
        c <= cap && matches_at(hay, needle, c) && forall|q: int|
            c < q <= cap ==> !matches_at(hay, needle, q);
    assert(c <= cap && matches_at(hay, needle, c));
    if c < p {
        assert(!matches_at(hay, needle, p));
    }
    if p < c {
        assert(!matches_at(hay, needle, c));
    }
}

proof fn lemma_first_match_none<A>(hay: Seq<A>, needle: Seq<A>, from: int)
    requires
        forall|q: int| from <= q ==> !matches_at(hay, needle, q),
    ensures
        first_match(hay, needle, from) is None,
{
    reveal(first_match);
}

proof fn lemma_last_match_none<A>(hay: Seq<A>, needle: Seq<A>, cap: int)
    requires
        forall|q: int| q <= cap ==> !matches_at(hay, needle, q),
    ensures
        last_match(hay, needle, cap) is None,
{
    reveal(last_match);
}

/// Whether `needle` occurs in `hay` at `p` (characters).
fn chars_match_at(hay: &[char], needle: &[char], p: usize) -> (r: bool)
    requires
        p + needle@.len() <= hay@.len(),
    ensures
        r == matches_at(hay@, needle@, p as int),
{
    let n = hay.len();
    let mut j: usize = 0;
    while j < needle.len()
        invariant
            n == hay@.len(),
            p + needle@.len() <= hay@.len(),
            0 <= j <= needle@.len(),
            forall|i: int| 0 <= i < j ==> hay@[p + i] == needle@[i],
        decreases needle@.len() - j,
    {
        if hay[p + j] != needle[j] {
            assert(hay@.subrange(p as int, p + needle@.len())[j as int] != needle@[j as int]);
            return false;
        }
        j = j + 1;
    }
    assert(hay@.subrange(p as int, p + needle@.len()) =~= needle@);
    true
}

/// Whether `needle` occurs in `hay` at `p` (bytes).
fn bytes_match_at(hay: &[u8], needle: &[u8], p: usize) -> (r: bool)
    requires
        p + needle@.len() <= hay@.len(),
    ensures
        r == matches_at(hay@, needle@, p as int),
{
    let n = hay.len();
    let mut j: usize = 0;
    while j < needle.len()
        invariant
            n == hay@.len(),
            p + needle@.len() <= hay@.len(),
            0 <= j <= needle@.len(),
            forall|i: int| 0 <= i < j ==> hay@[p + i] == needle@[i],
        decreases needle@.len() - j,
    {
        if hay[p + j] != needle[j] {
            assert(hay@.subrange(p as int, p + needle@.len())[j as int] != needle@[j as int]);
            return false;
        }
        j = j + 1;
    }
    assert(hay@.subrange(p as int, p + needle@.len()) =~= needle@);
    true
}

/// The first occurrence of `needle` in `hay` at or after `from` (characters).
pub fn find_first_chars(hay: &[char], needle: &[char], from: usize) -> (r: Option<usize>)
    ensures
        r matches Some(p) ==> first_match(hay@, needle@, from as int) == Some(p as int),
        r is None ==> first_match(hay@, needle@, from as int) is None,
{
    if needle.len() > hay.len() {
        assert forall|p: int| from <= p implies !matches_at(hay@, needle@, p) by {}
        proof {
            lemma_first_match_none(hay@, needle@, from as int);
        }
        return None;
    }
    let last = hay.len() - needle.len();
    if from > last {
        assert forall|q: int| from <= q implies !matches_at(hay@, needle@, q) by {}
        proof {
            lemma_first_match_none(hay@, needle@, from as int);
        }
        return None;
    }
    let mut p = from;
    loop
        invariant
            last + needle@.len() == hay@.len(),
            from <= p <= last,
            forall|q: int| from <= q < p ==> !matches_at(hay@, needle@, q),
        decreases last - p,
    {
        if chars_match_at(hay, needle, p) {
            proof {
                lemma_first_match_is(hay@, needle@, from as int, p as int);
            }
            return Some(p);
        }
        if p == last {
            assert forall|q: int| from <= q implies !matches_at(hay@, needle@, q) by {}
            proof {
                lemma_first_match_none(hay@, needle@, from as int);
            }
            return None;
        }
        p = p + 1;
    }
}

/// The first occurrence of `needle` in `hay` at or after `from` (bytes).
pub fn byte_find(hay: &[u8], needle: &[u8], from: usize) -> (r: Option<usize>)
    ensures
        r matches Some(p) ==> first_match(hay@, needle@, from as int) == Some(p as int),
        r is None ==> first_match(hay@, needle@, from as int) is None,
{
    if needle.len() > hay.len() {
        assert forall|p: int| from <= p implies !matches_at(hay@, needle@, p) by {}
        proof {
            lemma_first_match_none(hay@, needle@, from as int);
        }
        return None;
    }
    let last = hay.len() - needle.len();
    if from > last {
        assert forall|q: int| from <= q implies !matches_at(hay@, needle@, q) by {}
        proof {
            lemma_first_match_none(hay@, needle@, from as int);
        }
        return None;
    }
    let mut p = from;
    loop
        invariant
            last + needle@.len() == hay@.len(),
            from <= p <= last,
            forall|q: int| from <= q < p ==> !matches_at(hay@, needle@, q),
        decreases last - p,
    {
        if bytes_match_at(hay, needle, p) {
            proof {
                lemma_first_match_is(hay@, needle@, from as int, p as int);
            }
            return Some(p);
        }
        if p == last {
            assert forall|q: int| from <= q implies !matches_at(hay@, needle@, q) by {}
            proof {
                lemma_first_match_none(hay@, needle@, from as int);
            }
            return None;
        }
        p = p + 1;
    }
}

/// The last occurrence of `needle` in `hay` starting at or before `cap`
/// (characters).
pub fn find_last_chars(hay: &[char], needle: &[char], cap: usize) -> (r: Option<usize>)
    ensures
        r matches Some(p) ==> last_match(hay@, needle@, cap as int) == Some(p as int),
        r is None ==> last_match(hay@, needle@, cap as int) is None,
{
    if needle.len() > hay.len() {
        assert forall|p: int| p <= cap implies !matches_at(hay@, needle@, p) by {}
        proof {
            lemma_last_match_none(hay@, needle@, cap as int);
        }
        return None;
    }
    let last = hay.len() - needle.len();
    let start = if cap < last { cap } else { last };
    let mut p = start;
    loop
        invariant
            p <= start,
            start <= cap,
            start + needle@.len() <= hay@.len(),
            start == cap || start + needle@.len() == hay@.len(),
            forall|q: int| p < q <= cap ==> !matches_at(hay@, needle@, q),
        decreases p,
    {
        if chars_match_at(hay, needle, p) {
            proof {
                lemma_last_match_is(hay@, needle@, cap as int, p as int);
            }
            return Some(p);
        }
        if p == 0 {
            assert forall|q: int| q <= cap implies !matches_at(hay@, needle@, q) by {}
            proof {
                lemma_last_match_none(hay@, needle@, cap as int);
            }
            return None;
        }
        p = p - 1;
    }
}

/// The last occurrence of `needle` in `hay` starting at or before `cap`
/// (bytes).
pub fn byte_rfind(hay: &[u8], needle: &[u8], cap: usize) -> (r: Option<usize>)
    ensures
        r matches Some(p) ==> last_match(hay@, needle@, cap as int) == Some(p as int),
        r is None ==> last_match(hay@, needle@, cap as int) is None,
{
    if needle.len() > hay.len() {
        assert forall|p: int| p <= cap implies !matches_at(hay@, needle@, p) by {}
        proof {
            lemma_last_match_none(hay@, needle@, cap as int);
        }
        return None;
    }
    let last = hay.len() - needle.len();
    let start = if cap < last { cap } else { last };
    let mut p = start;
    loop
        invariant
            p <= start,
            start <= cap,
            start + needle@.len() <= hay@.len(),
            start == cap || start + needle@.len() == hay@.len(),
            forall|q: int| p < q <= cap ==> !matches_at(hay@, needle@, q),
        decreases p,
    {
        if bytes_match_at(hay, needle, p) {
            proof {
                lemma_last_match_is(hay@, needle@, cap as int, p as int);
            }
            return Some(p);
        }
        if p == 0 {
            assert forall|q: int| q <= cap implies !matches_at(hay@, needle@, q) by {}
            proof {
                lemma_last_match_none(hay@, needle@, cap as int);
            }
            return None;
        }
        p = p - 1;
    }
}

/// The outcome of a String lookup fold on pinned scalar arguments.
#[derive(Debug)]
pub enum LookupFold {
    /// The exact Ruby answer.
    Value(Scalar),
    /// An argument list Ruby raises on (`TypeError`, `ArgumentError`,
    /// `RangeError`).
    Raises,
    /// Computable, but the result cannot ride a `Scalar`: a `byteslice` that
    /// cuts inside a multibyte character.
    Decline,
}

/// The view of a [`LookupFold`].
pub enum LookupV {
    Value(ScalarV),
    Raises,
    Decline,
}

impl View for LookupFold {
    type V = LookupV;

    open spec fn view(&self) -> LookupV {
        match self {
            LookupFold::Value(s) => LookupV::Value(s@),
            LookupFold::Raises => LookupV::Raises,
            LookupFold::Decline => LookupV::Decline,
        }
    }
}

impl LookupFold {
    /// `Some` for a value, `None` otherwise.
    pub fn into_value(self) -> (r: Option<Scalar>)
        ensures
            r matches Some(s) ==> self@ == LookupV::Value(s@),
            r is None ==> !(self@ is Value),
    {
        match self {
            LookupFold::Value(s) => Some(s),
            _ => None,
        }
    }
}

/// `NUM2LONG` of a pinned argument: an Integer is itself, a Float truncates
/// toward zero when finite and in range; anything else raises.
pub open spec fn spec_to_int(s: ScalarV) -> Option<int> {
    match s {
        ScalarV::Int(i) => Some(i as int),
        ScalarV::Float(b) => spec_float_trunc(b),
        _ => None,
    }
}

/// `NUM2LONG` of a pinned argument.
pub fn to_int(s: &Scalar) -> (r: Option<i64>)
    ensures
        r matches Some(v) ==> spec_to_int(s@) == Some(v as int),
        r is None ==> spec_to_int(s@) is None,
{
    match s {
        Scalar::Int(i) => Some(*i),
        Scalar::Float(b) => float_trunc_i64(*b),
        _ => None,
    }
}

/// A negative position counts from the end.
pub open spec fn from_end(i: int, len: int) -> int {
    if i < 0 {
        i + len
    } else {
        i
    }
}

/// The smaller of two integers.
pub open spec fn min_int(a: int, b: int) -> int {
    if a < b {
        a
    } else {
        b
    }
}

/// A found position as an Integer, a miss as `nil`.
pub open spec fn pos_or_nil(p: Option<int>) -> ScalarV {
    match p {
        Some(p) => ScalarV::Int(p as i64),
        None => ScalarV::Nil,
    }
}

/// The strings whose UTF-8 encoding fits the `i64` positions a lookup
/// answers in.
pub open spec fn fits_i64(a: Seq<char>) -> bool {
    enc_len(a) <= i64::MAX
}

/// `String#getbyte(i)`.
pub open spec fn spec_getbyte(bytes: Seq<u8>, i: int) -> ScalarV {
    let j = from_end(i, bytes.len() as int);
    if 0 <= j < bytes.len() {
        ScalarV::Int(bytes[j] as i64)
    } else {
        ScalarV::Nil
    }
}

/// `String#index(sub, offset)`, in characters.
pub open spec fn spec_index(a: Seq<char>, sub: Seq<char>, offset: int) -> ScalarV {
    let o = from_end(offset, a.len() as int);
    if 0 <= o <= a.len() {
        pos_or_nil(first_match(a, sub, o))
    } else {
        ScalarV::Nil
    }
}

/// `String#rindex(sub, pos)`, in characters: the last occurrence starting at
/// or before `pos`.
pub open spec fn spec_rindex(a: Seq<char>, sub: Seq<char>, pos: int) -> ScalarV {
    let o = from_end(pos, a.len() as int);
    if o < 0 {
        ScalarV::Nil
    } else {
        pos_or_nil(last_match(a, sub, min_int(o, a.len() as int)))
    }
}

/// `String#byteindex(sub, offset)`, in bytes.
pub open spec fn spec_byteindex(ab: Seq<u8>, sb: Seq<u8>, offset: int) -> ScalarV {
    let o = from_end(offset, ab.len() as int);
    if 0 <= o <= ab.len() {
        pos_or_nil(first_match(ab, sb, o))
    } else {
        ScalarV::Nil
    }
}

/// `String#byterindex(sub, offset)`, in bytes.
pub open spec fn spec_byterindex(ab: Seq<u8>, sb: Seq<u8>, offset: int) -> ScalarV {
    let o = from_end(offset, ab.len() as int);
    if o < 0 {
        ScalarV::Nil
    } else {
        pos_or_nil(last_match(ab, sb, min_int(o, ab.len() as int)))
    }
}

/// `String#[](i)`: the one-character string at `i`.
pub open spec fn spec_char_at(a: Seq<char>, i: int) -> ScalarV {
    let j = from_end(i, a.len() as int);
    if 0 <= j < a.len() {
        ScalarV::Str(seq![a[j]])
    } else {
        ScalarV::Nil
    }
}

/// `String#[](start, count)` in characters (`rb_str_subpos`).
pub open spec fn spec_substr_chars(a: Seq<char>, start: int, count: int) -> ScalarV {
    let len = a.len() as int;
    let st = from_end(start, len);
    if count < 0 || st < 0 || st > len {
        ScalarV::Nil
    } else {
        ScalarV::Str(a.subrange(st, min_int(st + count, len)))
    }
}

/// `String#byteslice(start, count)`: the characters between two byte offsets
/// when both fall on character boundaries, else the byte string cannot ride a
/// scalar.
pub open spec fn spec_substr_bytes(a: Seq<char>, start: int, count: int) -> LookupV {
    let len = enc_len(a);
    let st = from_end(start, len);
    if count < 0 || st < 0 || st > len {
        LookupV::Value(ScalarV::Nil)
    } else {
        let end = min_int(st + count, len);
        match (byte_to_char(a, st), byte_to_char(a, end)) {
            (Some(k1), Some(k2)) => LookupV::Value(ScalarV::Str(a.subrange(k1, k2))),
            _ => LookupV::Decline,
        }
    }
}

/// `String#byteslice(index)`: the one byte at `index` (from the end when
/// negative), or `nil` when no byte stands there, the end of the string
/// included.
pub open spec fn spec_byte_slice_at(a: Seq<char>, i: int) -> LookupV {
    let st = from_end(i, enc_len(a));
    if st < 0 || st >= enc_len(a) {
        LookupV::Value(ScalarV::Nil)
    } else {
        spec_substr_bytes(a, i, 1)
    }
}

/// The four index methods.
pub open spec fn is_index_method(m: Seq<char>) -> bool {
    m == "index"@ || m == "rindex"@ || m == "byteindex"@ || m == "byterindex"@
}

/// One of the four index methods with an explicit offset.
pub open spec fn spec_index_dispatch(a: Seq<char>, m: Seq<char>, sub: Seq<char>, o: int) -> ScalarV {
    if m == "index"@ {
        spec_index(a, sub, o)
    } else if m == "rindex"@ {
        spec_rindex(a, sub, o)
    } else if m == "byteindex"@ {
        spec_byteindex(encode_utf8(a), encode_utf8(sub), o)
    } else {
        spec_byterindex(encode_utf8(a), encode_utf8(sub), o)
    }
}

/// The default offset of an index method called without one: the start for
/// `index`/`byteindex`, the end for `rindex`/`byterindex`.
pub open spec fn default_offset(a: Seq<char>, m: Seq<char>) -> int {
    if m == "index"@ || m == "byteindex"@ {
        0
    } else if m == "rindex"@ {
        a.len() as int
    } else {
        enc_len(a)
    }
}

/// `receiver.method(*args)` for a String lookup on pinned scalars.
pub open spec fn spec_lookup(a: Seq<char>, m: Seq<char>, args: Seq<ScalarV>) -> LookupV {
    if !fits_i64(a) {
        LookupV::Decline
    } else if m == "getbyte"@ && args.len() == 1 {
        match spec_to_int(args[0]) {
            Some(i) => LookupV::Value(spec_getbyte(encode_utf8(a), i)),
            None => LookupV::Raises,
        }
    } else if (m == "[]"@ || m == "slice"@) && args.len() == 1 {
        match args[0] {
            ScalarV::Str(sub) => LookupV::Value(
                if exists|p: int| matches_at(a, sub, p) {
                    ScalarV::Str(sub)
                } else {
                    ScalarV::Nil
                },
            ),
            _ => match spec_to_int(args[0]) {
                Some(i) => LookupV::Value(spec_char_at(a, i)),
                None => LookupV::Raises,
            },
        }
    } else if m == "byteslice"@ && args.len() == 1 {
        match spec_to_int(args[0]) {
            Some(i) => spec_byte_slice_at(a, i),
            None => LookupV::Raises,
        }
    } else if (m == "[]"@ || m == "slice"@) && args.len() == 2 {
        match (spec_to_int(args[0]), spec_to_int(args[1])) {
            (Some(s), Some(c)) => LookupV::Value(spec_substr_chars(a, s, c)),
            _ => LookupV::Raises,
        }
    } else if m == "byteslice"@ && args.len() == 2 {
        match (spec_to_int(args[0]), spec_to_int(args[1])) {
            (Some(s), Some(c)) => spec_substr_bytes(a, s, c),
            _ => LookupV::Raises,
        }
    } else if is_index_method(m) && args.len() == 1 && (args[0] is Str) {
        LookupV::Value(spec_index_dispatch(a, m, args[0]->Str_0, default_offset(a, m)))
    } else if is_index_method(m) && args.len() == 2 && (args[0] is Str) {
        match spec_to_int(args[1]) {
            Some(o) => LookupV::Value(spec_index_dispatch(a, m, args[0]->Str_0, o)),
            None => LookupV::Raises,
        }
    } else {
        LookupV::Raises
    }
}

/// A found position as an Integer, a miss as `nil`.
fn pos_scalar(p: Option<usize>, Ghost(bound): Ghost<int>) -> (r: Scalar)
    requires
        bound <= i64::MAX,
        p matches Some(q) ==> q <= bound,
    ensures
        r@ == pos_or_nil(match p {
            Some(q) => Some(q as int),
            None => None,
        }),
{
    match p {
        Some(q) => Scalar::Int(q as i64),
        None => Scalar::Nil,
    }
}

/// A first occurrence exists whenever some occurrence does.
proof fn lemma_first_exists<A>(hay: Seq<A>, needle: Seq<A>, from: int, w: int)
    requires
        from <= w,
        matches_at(hay, needle, w),
    ensures
        exists|p: int|
            from <= p && matches_at(hay, needle, p) && forall|q: int|
                from <= q < p ==> !matches_at(hay, needle, q),
    decreases w - from,
{
    if matches_at(hay, needle, from) {
        assert(from <= from && matches_at(hay, needle, from) && forall|q: int|
            from <= q < from ==> !matches_at(hay, needle, q));
    } else {
        lemma_first_exists(hay, needle, from + 1, w);
        let p = choose|p: int|
            from + 1 <= p && matches_at(hay, needle, p) && forall|q: int|
                from + 1 <= q < p ==> !matches_at(hay, needle, q);
        assert(from <= p && matches_at(hay, needle, p) && forall|q: int|
            from <= q < p ==> !matches_at(hay, needle, q));
    }
}

/// A first occurrence is an occurrence.
proof fn lemma_first_match_le<A>(hay: Seq<A>, needle: Seq<A>, from: int)
    ensures
        first_match(hay, needle, from) matches Some(p) ==> from <= p <= hay.len(),
{
    reveal(first_match);
    if exists|p: int| from <= p && matches_at(hay, needle, p) {
        let w = choose|p: int| from <= p && matches_at(hay, needle, p);
        lemma_first_exists(hay, needle, from, w);
    }
}

/// A last occurrence at or before `cap` exists whenever some occurrence does.
proof fn lemma_last_exists<A>(hay: Seq<A>, needle: Seq<A>, cap: int, w: int)
    requires
        w <= cap,
        matches_at(hay, needle, w),
    ensures
        exists|p: int|
            p <= cap && matches_at(hay, needle, p) && forall|q: int|
                p < q <= cap ==> !matches_at(hay, needle, q),
    decreases cap - w,
{
    if matches_at(hay, needle, cap) {
        assert(cap <= cap && matches_at(hay, needle, cap) && forall|q: int|
            cap < q <= cap ==> !matches_at(hay, needle, q));
    } else {
        lemma_last_exists(hay, needle, cap - 1, w);
        let p = choose|p: int|
            p <= cap - 1 && matches_at(hay, needle, p) && forall|q: int|
                p < q <= cap - 1 ==> !matches_at(hay, needle, q);
        assert(p <= cap && matches_at(hay, needle, p) && forall|q: int|
            p < q <= cap ==> !matches_at(hay, needle, q));
    }
}

/// A last occurrence is an occurrence at or before the cap.
proof fn lemma_last_match_le<A>(hay: Seq<A>, needle: Seq<A>, cap: int)
    ensures
        last_match(hay, needle, cap) matches Some(p) ==> 0 <= p <= cap && p <= hay.len(),
{
    reveal(last_match);
    if exists|p: int| p <= cap && matches_at(hay, needle, p) {
        let w = choose|p: int| p <= cap && matches_at(hay, needle, p);
        lemma_last_exists(hay, needle, cap, w);
    }
}

/// `String#getbyte(i)` on the encoding `ab`.
fn fold_getbyte(ab: &[u8], i: i64) -> (r: Scalar)
    requires
        ab@.len() <= i64::MAX,
    ensures
        r@ == spec_getbyte(ab@, i as int),
{
    let len = ab.len() as i64;
    let j = if i < 0 { i + len } else { i };
    if 0 <= j && j < len {
        Scalar::Int(ab[j as usize] as i64)
    } else {
        Scalar::Nil
    }
}

/// `String#index(sub, offset)` on characters.
fn fold_index(a: &[char], sub: &[char], offset: i64) -> (r: Scalar)
    requires
        a@.len() <= i64::MAX,
    ensures
        r@ == spec_index(a@, sub@, offset as int),
{
    let len = a.len() as i64;
    let o = if offset < 0 { offset + len } else { offset };
    if !(0 <= o && o <= len) {
        return Scalar::Nil;
    }
    let p = find_first_chars(a, sub, o as usize);
    proof {
        lemma_first_match_le(a@, sub@, o as int);
    }
    pos_scalar(p, Ghost(a@.len() as int))
}

/// `String#rindex(sub, pos)` on characters.
fn fold_rindex(a: &[char], sub: &[char], pos: i64) -> (r: Scalar)
    requires
        a@.len() <= i64::MAX,
    ensures
        r@ == spec_rindex(a@, sub@, pos as int),
{
    let len = a.len() as i64;
    let o = if pos < 0 { pos + len } else { pos };
    if o < 0 {
        return Scalar::Nil;
    }
    let cap = if o < len { o } else { len };
    let p = find_last_chars(a, sub, cap as usize);
    proof {
        lemma_last_match_le(a@, sub@, cap as int);
    }
    pos_scalar(p, Ghost(a@.len() as int))
}

/// `String#byteindex(sub, offset)` on the encoding.
fn fold_byteindex(ab: &[u8], sb: &[u8], offset: i64) -> (r: Scalar)
    requires
        ab@.len() <= i64::MAX,
    ensures
        r@ == spec_byteindex(ab@, sb@, offset as int),
{
    let len = ab.len() as i64;
    let o = if offset < 0 { offset + len } else { offset };
    if !(0 <= o && o <= len) {
        return Scalar::Nil;
    }
    let p = byte_find(ab, sb, o as usize);
    proof {
        lemma_first_match_le(ab@, sb@, o as int);
    }
    pos_scalar(p, Ghost(ab@.len() as int))
}

/// `String#byterindex(sub, offset)` on the encoding.
fn fold_byterindex(ab: &[u8], sb: &[u8], offset: i64) -> (r: Scalar)
    requires
        ab@.len() <= i64::MAX,
    ensures
        r@ == spec_byterindex(ab@, sb@, offset as int),
{
    let len = ab.len() as i64;
    let o = if offset < 0 { offset + len } else { offset };
    if o < 0 {
        return Scalar::Nil;
    }
    let cap = if o < len { o } else { len };
    let p = byte_rfind(ab, sb, cap as usize);
    proof {
        lemma_last_match_le(ab@, sb@, cap as int);
    }
    pos_scalar(p, Ghost(ab@.len() as int))
}

/// `String#[](i)` on characters.
fn char_at(a: &[char], i: i64) -> (r: Scalar)
    requires
        a@.len() <= i64::MAX,
    ensures
        r@ == spec_char_at(a@, i as int),
{
    let len = a.len() as i64;
    let j = if i < 0 { i + len } else { i };
    if 0 <= j && j < len {
        let s = string_of_range(a, j as usize, (j + 1) as usize);
        assert(a@.subrange(j as int, j + 1) =~= seq![a@[j as int]]);
        Scalar::Str(s)
    } else {
        Scalar::Nil
    }
}

/// `String#[](start, count)` on characters.
fn substr_chars(a: &[char], start: i64, count: i64) -> (r: Scalar)
    requires
        a@.len() <= i64::MAX,
    ensures
        r@ == spec_substr_chars(a@, start as int, count as int),
{
    let len = a.len() as i64;
    let st = if start < 0 { start + len } else { start };
    if count < 0 || st < 0 || st > len {
        return Scalar::Nil;
    }
    let end = if count >= len - st { len } else { st + count };
    Scalar::Str(string_of_range(a, st as usize, end as usize))
}

/// `String#byteslice(start, count)`: `nbytes` is the encoded length of `a`.
fn substr_bytes(a: &[char], nbytes: usize, start: i64, count: i64) -> (r: LookupFold)
    requires
        nbytes == enc_len(a@),
        nbytes <= i64::MAX,
    ensures
        r@ == spec_substr_bytes(a@, start as int, count as int),
{
    let len = nbytes as i64;
    let st = if start < 0 { start + len } else { start };
    if count < 0 || st < 0 || st > len {
        return LookupFold::Value(Scalar::Nil);
    }
    let end = if count >= len - st { len } else { st + count };
    let k1 = char_index_at_byte(a, st as usize);
    let k2 = char_index_at_byte(a, end as usize);
    match (k1, k2) {
        (Some(k1), Some(k2)) => {
            proof {
                lemma_enc_len_bounds(a@);
                if k1 > k2 {
                    crate::offsets::lemma_enc_take_strict(a@, k2 as int, k1 as int);
                }
            }
            let ghost w1 = choose|k: int| 0 <= k <= a@.len() && enc_len(a@.take(k)) == st as int;
            let ghost w2 = choose|k: int| 0 <= k <= a@.len() && enc_len(a@.take(k)) == end as int;
            assert(0 <= k1 <= a@.len() && enc_len(a@.take(k1 as int)) == st as int);
            assert(0 <= k2 <= a@.len() && enc_len(a@.take(k2 as int)) == end as int);
            if k1 > k2 {
                assert(false);
            }
            LookupFold::Value(Scalar::Str(string_of_range(a, k1, k2)))
        },
        _ => LookupFold::Decline,
    }
}

/// One of the four index methods with an explicit offset, on the receiver's
/// characters `ac` and encoding `ab`.
fn index_dispatch(ac: &[char], ab: &[u8], m: &str, sub: &str, o: i64) -> (r: Scalar)
    requires
        ab@ == encode_utf8(ac@),
        ab@.len() <= i64::MAX,
        ac@.len() <= ab@.len(),
    ensures
        r@ == spec_index_dispatch(ac@, m@, sub@, o as int),
{
    if str_eq(m, "index") {
        let sc = to_chars(sub);
        fold_index(ac, sc.as_slice(), o)
    } else if str_eq(m, "rindex") {
        let sc = to_chars(sub);
        fold_rindex(ac, sc.as_slice(), o)
    } else if str_eq(m, "byteindex") {
        fold_byteindex(ab, sub.as_bytes(), o)
    } else {
        fold_byterindex(ab, sub.as_bytes(), o)
    }
}

/// Whether `needle` occurs anywhere in `hay`, read off a search from the
/// start.
proof fn lemma_occurs_iff_first<A>(hay: Seq<A>, needle: Seq<A>)
    ensures
        (exists|p: int| matches_at(hay, needle, p)) <==> first_match(hay, needle, 0) is Some,
{
    reveal(first_match);
    if exists|p: int| matches_at(hay, needle, p) {
        let w = choose|p: int| matches_at(hay, needle, p);
        assert(0 <= w && matches_at(hay, needle, w));
    }
    if first_match(hay, needle, 0) is Some {
        let w = choose|p: int| 0 <= p && matches_at(hay, needle, p);
        assert(matches_at(hay, needle, w));
    }
}

/// `String#[](sub)`: the needle itself when it occurs, else `nil`.
fn substring_lookup(ac: &[char], sub: &String) -> (r: Scalar)
    ensures
        r@ == (if exists|p: int| matches_at(ac@, sub@, p) {
            ScalarV::Str(sub@)
        } else {
            ScalarV::Nil
        }),
{
    let sc = to_chars(sub.as_str());
    proof {
        lemma_occurs_iff_first(ac@, sc@);
    }
    let found = find_first_chars(ac, sc.as_slice(), 0);
    if found.is_some() {
        Scalar::Str(sub.clone())
    } else {
        Scalar::Nil
    }
}

/// `String#[]` / `#slice` / `#byteslice` / `#index` / `#rindex` /
/// `#byteindex` / `#byterindex` / `#getbyte` on a pinned receiver and pinned
/// arguments: the exact Ruby answer (including `nil`), `Raises` for an argument
/// list Ruby raises on, `Decline` for a `byteslice` that cuts a character.
#[verifier::rlimit(60)]
pub fn fold_str_lookup(a: &str, method: &str, args: &[Scalar]) -> (r: LookupFold)
    ensures
        r@ == spec_lookup(a@, method@, args@.map_values(|s: Scalar| s@)),
{
    let ghost av = args@.map_values(|s: Scalar| s@);
    let ab = a.as_bytes();
    let nbytes = ab.len();
    if nbytes as u128 > i64::MAX as u128 {
        return LookupFold::Decline;
    }
    let ac = to_chars(a);
    proof {
        lemma_enc_len_bounds(a@);
    }
    let n = args.len();
    if n >= 1 {
        assert(av[0] == args@[0]@);
    }
    if n >= 2 {
        assert(av[1] == args@[1]@);
    }
    if str_eq(method, "getbyte") && n == 1 {
        return match to_int(&args[0]) {
            Some(i) => LookupFold::Value(fold_getbyte(ab, i)),
            None => LookupFold::Raises,
        };
    }
    let square = str_eq(method, "[]") || str_eq(method, "slice");
    let bslice = str_eq(method, "byteslice");
    if square && n == 1 {
        return match &args[0] {
            Scalar::Str(sub) => LookupFold::Value(substring_lookup(ac.as_slice(), sub)),
            _ => match to_int(&args[0]) {
                Some(i) => LookupFold::Value(char_at(ac.as_slice(), i)),
                None => LookupFold::Raises,
            },
        };
    }
    if bslice && n == 1 {
        return match to_int(&args[0]) {
            Some(i) => {
                let st: i64 = if i < 0 { i + nbytes as i64 } else { i };
                if st < 0 || st >= nbytes as i64 {
                    LookupFold::Value(Scalar::Nil)
                } else {
                    substr_bytes(ac.as_slice(), nbytes, i, 1)
                }
            },
            None => LookupFold::Raises,
        };
    }
    if square && n == 2 {
        return match (to_int(&args[0]), to_int(&args[1])) {
            (Some(st), Some(c)) => LookupFold::Value(substr_chars(ac.as_slice(), st, c)),
            _ => LookupFold::Raises,
        };
    }
    if bslice && n == 2 {
        return match (to_int(&args[0]), to_int(&args[1])) {
            (Some(st), Some(c)) => substr_bytes(ac.as_slice(), nbytes, st, c),
            _ => LookupFold::Raises,
        };
    }
    let idx = str_eq(method, "index") || str_eq(method, "rindex") || str_eq(method, "byteindex")
        || str_eq(method, "byterindex");
    if idx && (n == 1 || n == 2) {
        if let Scalar::Str(sub) = &args[0] {
            if n == 1 {
                let o: i64 = if str_eq(method, "index") || str_eq(method, "byteindex") {
                    0
                } else if str_eq(method, "rindex") {
                    ac.len() as i64
                } else {
                    nbytes as i64
                };
                return LookupFold::Value(index_dispatch(ac.as_slice(), ab, method, sub.as_str(), o));
            } else {
                return match to_int(&args[1]) {
                    Some(o) => LookupFold::Value(index_dispatch(ac.as_slice(), ab, method, sub.as_str(), o)),
                    None => LookupFold::Raises,
                };
            }
        }
    }
    LookupFold::Raises
}

} // verus!
