//! The correspondence between character positions and UTF-8 byte positions of
//! a string.
use vstd::prelude::*;
use vstd::utf8::{encode_utf8, encode_scalar, char_is_scalar, has_width_1_encoding, has_width_2_encoding, has_width_3_encoding, has_width_4_encoding};

verus! {

/// The UTF-8 length of a character sequence, in bytes.
pub open spec fn enc_len(s: Seq<char>) -> int {
    encode_utf8(s).len() as int
}

/// The character index whose UTF-8 byte offset in `s` is `off`, if `off` is a
/// character boundary.
pub open spec fn byte_to_char(s: Seq<char>, off: int) -> Option<int> {
    if exists|k: int| 0 <= k <= s.len() && enc_len(s.take(k)) == off {
        Some(choose|k: int| 0 <= k <= s.len() && enc_len(s.take(k)) == off)
    } else {
        None
    }
}

/// Encoding distributes over concatenation.
pub proof fn lemma_encode_concat(x: Seq<char>, y: Seq<char>)
    ensures
        encode_utf8(x + y) == encode_utf8(x) + encode_utf8(y),
    decreases x.len(),
{
    if x.len() == 0 {
        assert(x + y =~= y);
        assert(encode_utf8(x) =~= Seq::<u8>::empty());
        assert(encode_utf8(x) + encode_utf8(y) =~= encode_utf8(y));
    } else {
        assert((x + y).drop_first() =~= x.drop_first() + y);
        assert((x + y)[0] == x[0]);
        lemma_encode_concat(x.drop_first(), y);
        assert(encode_utf8(x + y) =~= encode_scalar(x[0] as u32) + encode_utf8(x.drop_first() + y));
        assert(encode_utf8(x) + encode_utf8(y) =~= encode_scalar(x[0] as u32) + (encode_utf8(x.drop_first()) + encode_utf8(y)));
    }
}

/// A character encodes to between one and four bytes.
pub proof fn lemma_scalar_width(c: char)
    ensures
        1 <= encode_scalar(c as u32).len() <= 4,
{
    char_is_scalar(c);
}

/// The encoding of a single character.
pub proof fn lemma_encode_single(c: char)
    ensures
        encode_utf8(seq![c]) == encode_scalar(c as u32),
{
    assert(seq![c].drop_first() =~= Seq::<char>::empty());
    assert(encode_utf8(Seq::<char>::empty()) =~= Seq::<u8>::empty());
    assert(encode_scalar(c as u32) + Seq::<u8>::empty() =~= encode_scalar(c as u32));
}

/// At least one byte per character, at most four.
pub proof fn lemma_enc_len_bounds(s: Seq<char>)
    ensures
        s.len() <= enc_len(s) <= 4 * s.len(),
    decreases s.len(),
{
    if s.len() > 0 {
        lemma_scalar_width(s[0]);
        lemma_enc_len_bounds(s.drop_first());
    }
}

/// One more character extends the prefix encoding by that character's bytes.
pub proof fn lemma_enc_take_step(s: Seq<char>, k: int)
    requires
        0 <= k < s.len(),
    ensures
        encode_utf8(s.take(k + 1)) == encode_utf8(s.take(k)) + encode_scalar(s[k] as u32),
{
    assert(s.take(k + 1) =~= s.take(k) + seq![s[k]]);
    lemma_encode_concat(s.take(k), seq![s[k]]);
    lemma_encode_single(s[k]);
}

/// Prefix encodings grow strictly with the prefix.
pub proof fn lemma_enc_take_strict(s: Seq<char>, k1: int, k2: int)
    requires
        0 <= k1 < k2 <= s.len(),
    ensures
        enc_len(s.take(k1)) < enc_len(s.take(k2)),
{
    assert(s.take(k2) =~= s.take(k1) + s.subrange(k1, k2));
    lemma_encode_concat(s.take(k1), s.subrange(k1, k2));
    lemma_enc_len_bounds(s.subrange(k1, k2));
}

/// A character position survives the round trip through its byte offset:
/// the byte offset of the first `n` characters is a boundary, and the
/// character position there is `n` again.
pub proof fn lemma_char_byte_round_trip(s: Seq<char>, n: int)
    requires
        0 <= n <= s.len(),
    ensures
        byte_to_char(s, enc_len(s.take(n))) == Some(n),
{
    let off = enc_len(s.take(n));
    assert(0 <= n <= s.len() && enc_len(s.take(n)) == off);
    let k = choose|k: int| 0 <= k <= s.len() && enc_len(s.take(k)) == off;
    if k < n {
        lemma_enc_take_strict(s, k, n);
    } else if n < k {
        lemma_enc_take_strict(s, n, k);
    }
}

/// The number of bytes in the UTF-8 encoding of `c`.
pub fn utf8_width(c: char) -> (w: usize)
    ensures
        w == encode_scalar(c as u32).len(),
{
    proof {
        char_is_scalar(c);
    }
    let u = c as u32;
    if u < 0x80 {
        1
    } else if u < 0x800 {
        2
    } else if u < 0x10000 {
        3
    } else {
        4
    }
}

/// The byte offset of character `n` of `a`, or the byte length of `a` when
/// `a` has no character `n`.
pub fn char_to_byte(a: &str, n: usize) -> (r: usize)
    ensures
        r == enc_len(a@.take(if n < a@.len() { n as int } else { a@.len() as int })),
{
    let nbytes = a.as_bytes().len();
    let cs = crate::text::to_chars(a);
    let mut k: usize = 0;
    let mut acc: usize = 0;
    proof {
        assert(cs@.take(0) =~= Seq::<char>::empty());
        assert(encode_utf8(Seq::<char>::empty()) =~= Seq::<u8>::empty());
    }
    while k < cs.len() && k < n
        invariant
            0 <= k <= cs@.len(),
            k <= n,
            cs@ == a@,
            nbytes == enc_len(a@),
            acc == enc_len(cs@.take(k as int)),
        decreases cs@.len() - k,
    {
        proof {
            lemma_enc_take_step(cs@, k as int);
            if k + 1 < cs@.len() {
                lemma_enc_take_strict(cs@, k + 1, cs@.len() as int);
            }
            assert(cs@.take(cs@.len() as int) =~= cs@);
        }
        acc = acc + utf8_width(cs[k]);
        k = k + 1;
    }
    acc
}

/// The character index of the byte offset `off` in `s`, if `off` falls on a
/// character boundary.
pub fn char_index_at_byte(s: &[char], off: usize) -> (r: Option<usize>)
    requires
        enc_len(s@) <= usize::MAX,
    ensures
        r matches Some(k) ==> byte_to_char(s@, off as int) == Some(k as int),
        r is None ==> byte_to_char(s@, off as int) is None,
{
    let mut k: usize = 0;
    let mut acc: usize = 0;
    proof {
        assert(s@.take(0) =~= Seq::<char>::empty());
        assert(encode_utf8(Seq::<char>::empty()) =~= Seq::<u8>::empty());
    }
    while k < s.len()
        invariant
            0 <= k <= s@.len(),
            acc == enc_len(s@.take(k as int)),
            enc_len(s@) <= usize::MAX,
            forall|j: int| 0 <= j < k ==> enc_len(s@.take(j)) != off,
        decreases s@.len() - k,
    {
        if acc == off {
            proof {
                let c = choose|j: int| 0 <= j <= s@.len() && enc_len(s@.take(j)) == off;
                if c < k {
                    lemma_enc_take_strict(s@, c, k as int);
                } else if c > k {
                    lemma_enc_take_strict(s@, k as int, c);
                }
            }
            return Some(k);
        }
        if acc > off {
            proof {
                assert forall|j: int| 0 <= j <= s@.len() implies enc_len(s@.take(j)) != off by {
                    if j > k {
                        lemma_enc_take_strict(s@, k as int, j);
                    }
                }
            }
            return None;
        }
        proof {
            lemma_enc_take_step(s@, k as int);
            if k + 1 < s@.len() {
                lemma_enc_take_strict(s@, k + 1, s@.len() as int);
            }
            assert(s@.take(s@.len() as int) =~= s@);
        }
        let w = utf8_width(s[k]);
        acc = acc + w;
        k = k + 1;
    }
    assert(s@.take(k as int) =~= s@);
    if acc == off {
        return Some(k);
    }
    proof {
        assert forall|j: int| 0 <= j <= s@.len() implies enc_len(s@.take(j)) != off by {
            if j < k {
            }
        }
    }
    None
}

} // verus!
