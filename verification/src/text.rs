//! Character-level helpers shared by the folds: conversions between `str` and
//! character vectors, and comparisons stated over the character view.
use vstd::prelude::*;

verus! {

/// The characters of `s`, in order.
pub fn to_chars(s: &str) -> (v: Vec<char>)
    ensures
        v@ == s@,
{
    broadcast use vstd::string::group_string_axioms;
    let mut v: Vec<char> = Vec::new();
    for c in it: s.chars()
        invariant
            v@ == it.seq().take(it.index() as int),
            it.seq() == s@,
    {
        v.push(c);
    }
    v
}

/// Appends one character: calls std's `String::push`, whose documentation
/// says it appends the given `char` to the end of the string. The contract
/// states exactly that, over the character view.
#[verifier::external_body]
pub(crate) fn push_char(s: &mut String, c: char)
    ensures
        final(s)@ == old(s)@.push(c),
{
    s.push(c);
}

/// The string holding exactly the characters `cs`.
pub fn from_chars(cs: &[char]) -> (s: String)
    ensures
        s@ == cs@,
{
    let mut s = String::new();
    let mut i: usize = 0;
    while i < cs.len()
        invariant
            0 <= i <= cs@.len(),
            s@ == cs@.take(i as int),
        decreases cs@.len() - i,
    {
        push_char(&mut s, cs[i]);
        i = i + 1;
        assert(cs@.take(i as int) =~= cs@.take((i - 1) as int).push(cs@[i - 1]));
    }
    assert(cs@.take(cs@.len() as int) =~= cs@);
    s
}

/// Whether two character sequences are equal.
pub fn chars_eq(a: &[char], b: &[char]) -> (r: bool)
    ensures
        r == (a@ == b@),
{
    if a.len() != b.len() {
        return false;
    }
    let mut i: usize = 0;
    while i < a.len()
        invariant
            a@.len() == b@.len(),
            0 <= i <= a@.len(),
            forall|j: int| 0 <= j < i ==> a@[j] == b@[j],
        decreases a@.len() - i,
    {
        if a[i] != b[i] {
            return false;
        }
        i = i + 1;
    }
    assert(a@ =~= b@);
    true
}

/// Whether two strings hold the same characters.
pub fn str_eq(a: &str, b: &str) -> (r: bool)
    ensures
        r == (a@ == b@),
{
    let va = to_chars(a);
    let vb = to_chars(b);
    chars_eq(va.as_slice(), vb.as_slice())
}

/// The string holding the characters of `cs` between positions `i` and `j`.
pub fn string_of_range(cs: &[char], i: usize, j: usize) -> (s: String)
    requires
        i <= j <= cs@.len(),
    ensures
        s@ == cs@.subrange(i as int, j as int),
{
    let mut s = String::new();
    let mut k: usize = i;
    while k < j
        invariant
            i <= k <= j <= cs@.len(),
            s@ == cs@.subrange(i as int, k as int),
        decreases j - k,
    {
        push_char(&mut s, cs[k]);
        k = k + 1;
        assert(cs@.subrange(i as int, k as int) =~= cs@.subrange(i as int, (k - 1) as int).push(cs@[k - 1]));
    }
    s
}

/// A constant name qualified by the enclosing namespace: `prefix::name`,
/// or `name` alone at the top level (no or an empty prefix).
pub fn qualify_self(prefix: Option<&str>, name: &str) -> (r: String)
    ensures
        r@ == (match prefix {
            Some(p) => if p@.len() > 0 { p@ + "::"@ + name@ } else { name@ },
            None => name@,
        }),
{
    match prefix {
        Some(p) => {
            if to_chars(p).len() > 0 {
                let mut out = p.to_owned();
                push_char(&mut out, ':');
                push_char(&mut out, ':');
                let ghost mid = out@;
                let cs = to_chars(name);
                let mut i: usize = 0;
                while i < cs.len()
                    invariant
                        0 <= i <= cs@.len(),
                        cs@ == name@,
                        out@ == mid + cs@.take(i as int),
                    decreases cs@.len() - i,
                {
                    push_char(&mut out, cs[i]);
                    i = i + 1;
                    assert(out@ =~= mid + cs@.take(i as int));
                }
                proof {
                    reveal_strlit("::");
                    assert(cs@.take(cs@.len() as int) =~= cs@);
                    assert(mid =~= p@ + "::"@);
                }
                out
            } else {
                name.to_owned()
            }
        },
        None => name.to_owned(),
    }
}

} // verus!
