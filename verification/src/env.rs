//! The flat binding environment a flow pass threads: local name to type id.
use vstd::prelude::*;
use crate::text::str_eq;

verus! {

/// The binding of `k` in a list of entries: the LAST entry for `k` wins.
pub open spec fn env_lookup(s: Seq<(String, usize)>, k: Seq<char>) -> Option<nat>
    decreases s.len(),
{
    if s.len() == 0 {
        None
    } else if s.last().0@ == k {
        Some(s.last().1 as nat)
    } else {
        env_lookup(s.drop_last(), k)
    }
}

/// The map an entry list denotes.
pub open spec fn env_map(s: Seq<(String, usize)>) -> Map<Seq<char>, nat> {
    Map::new(|k: Seq<char>| env_lookup(s, k) is Some, |k: Seq<char>| env_lookup(s, k)->Some_0)
}

/// A name is bound exactly when some entry names it.
pub proof fn lemma_lookup_some(s: Seq<(String, usize)>, k: Seq<char>)
    ensures
        (env_lookup(s, k) is Some) <==> (exists|j: int| 0 <= j < s.len() && s[j].0@ == k),
    decreases s.len(),
{
    if s.len() > 0 {
        lemma_lookup_some(s.drop_last(), k);
        if env_lookup(s.drop_last(), k) is Some {
            let j = choose|j: int| 0 <= j < s.drop_last().len() && s.drop_last()[j].0@ == k;
            assert(s[j].0@ == k);
        }
        if exists|j: int| 0 <= j < s.len() && s[j].0@ == k {
            let j = choose|j: int| 0 <= j < s.len() && s[j].0@ == k;
            if j < s.len() - 1 {
                assert(s.drop_last()[j].0@ == k);
            }
        }
    }
}

/// Entries past the last one for `k` do not change its binding.
proof fn lemma_lookup_take(s: Seq<(String, usize)>, k: Seq<char>, i: int)
    requires
        0 <= i <= s.len(),
        forall|j: int| i <= j < s.len() ==> s[j].0@ != k,
    ensures
        env_lookup(s, k) == env_lookup(s.take(i), k),
    decreases s.len() - i,
{
    if i < s.len() {
        assert(s.drop_last().take(i) =~= s.take(i));
        lemma_lookup_take(s.drop_last(), k, i);
    } else {
        assert(s.take(i) =~= s);
    }
}

/// Pointwise agreement: a binding in the joined environment survives only when
/// both sides bind the name to the identical type; every disagreement, and
/// every name bound on one side only, widens to `u`.
pub open spec fn spec_join(a: Map<Seq<char>, nat>, b: Map<Seq<char>, nat>, u: nat) -> Map<
    Seq<char>,
    nat,
> {
    Map::new(
        |k: Seq<char>| a.contains_key(k) || b.contains_key(k),
        |k: Seq<char>|
            if a.contains_key(k) && b.contains_key(k) && a[k] == b[k] {
                a[k]
            } else {
                u
            },
    )
}

/// A local-variable environment: name to type id.
pub struct TypeEnv {
    entries: Vec<(String, usize)>,
}

impl View for TypeEnv {
    type V = Map<Seq<char>, nat>;

    closed spec fn view(&self) -> Map<Seq<char>, nat> {
        env_map(self.entries@)
    }
}

impl TypeEnv {
    /// The empty environment.
    pub fn new() -> (r: TypeEnv)
        ensures
            r@ == Map::<Seq<char>, nat>::empty(),
    {
        let r = TypeEnv { entries: Vec::new() };
        assert(r@ =~= Map::<Seq<char>, nat>::empty());
        r
    }

    /// The binding of `name`.
    pub fn get(&self, name: &str) -> (r: Option<usize>)
        ensures
            r is Some <==> self@.contains_key(name@),
            r matches Some(v) ==> self@[name@] == v,
    {
        let mut i: usize = self.entries.len();
        assert(self.entries@.take(i as int) =~= self.entries@);
        while i > 0
            invariant
                0 <= i <= self.entries@.len(),
                env_lookup(self.entries@, name@) == env_lookup(self.entries@.take(i as int), name@),
            decreases i,
        {
            i = i - 1;
            if str_eq(self.entries[i].0.as_str(), name) {
                proof {
                    let t = self.entries@.take(i as int + 1);
                    assert(t.last() == self.entries@[i as int]);
                }
                return Some(self.entries[i].1);
            }
            proof {
                let t = self.entries@.take(i as int + 1);
                assert(t.drop_last() =~= self.entries@.take(i as int));
            }
        }
        assert(self.entries@.take(0) =~= Seq::<(String, usize)>::empty());
        None
    }

    /// Bind `name` to `v`.
    pub fn insert(&mut self, name: &str, v: usize)
        ensures
            final(self)@ == old(self)@.insert(name@, v as nat),
    {
        let ghost old_entries = self.entries@;
        self.entries.push((name.to_owned(), v));
        proof {
            assert(self.entries@.drop_last() =~= old_entries);
            assert(self@ =~= old(self)@.insert(name@, v as nat));
        }
    }

    /// A copy of the environment.
    pub fn copy(&self) -> (r: TypeEnv)
        ensures
            r@ == self@,
    {
        let mut out: Vec<(String, usize)> = Vec::new();
        let mut i: usize = 0;
        while i < self.entries.len()
            invariant
                0 <= i <= self.entries@.len(),
                out@.len() == i,
                forall|j: int| 0 <= j < i ==> out@[j].0@ == self.entries@[j].0@ && out@[j].1
                    == self.entries@[j].1,
            decreases self.entries@.len() - i,
        {
            let k = self.entries[i].0.clone();
            out.push((k, self.entries[i].1));
            i = i + 1;
        }
        let r = TypeEnv { entries: out };
        proof {
            assert forall|k: Seq<char>| #[trigger] env_lookup(out@, k) == env_lookup(self.entries@, k) by {
                lemma_lookup_same(out@, self.entries@, k);
            }
            assert(r@ =~= self@);
        }
        r
    }

    /// The names bound, with repeats.
    pub fn names(&self) -> (r: Vec<String>)
        ensures
            forall|k: Seq<char>| self@.contains_key(k) <==> exists|j: int| 0 <= j < r@.len() && r@[j]@ == k,
    {
        let mut out: Vec<String> = Vec::new();
        let mut i: usize = 0;
        while i < self.entries.len()
            invariant
                0 <= i <= self.entries@.len(),
                out@.len() == i,
                forall|j: int| 0 <= j < i ==> out@[j]@ == self.entries@[j].0@,
            decreases self.entries@.len() - i,
        {
            out.push(self.entries[i].0.clone());
            i = i + 1;
        }
        proof {
            assert forall|k: Seq<char>| self@.contains_key(k) <==> exists|j: int| 0 <= j < out@.len() && out@[j]@ == k by {
                lemma_lookup_some(self.entries@, k);
                if exists|j: int| 0 <= j < out@.len() && out@[j]@ == k {
                    let j = choose|j: int| 0 <= j < out@.len() && out@[j]@ == k;
                    assert(self.entries@[j].0@ == k);
                }
                if self@.contains_key(k) {
                    let j = choose|j: int| 0 <= j < self.entries@.len() && self.entries@[j].0@ == k;
                    assert(out@[j]@ == k);
                }
            }
        }
        out
    }
}

/// Entry lists with the same names and ids bind alike.
proof fn lemma_lookup_same(a: Seq<(String, usize)>, b: Seq<(String, usize)>, k: Seq<char>)
    requires
        a.len() == b.len(),
        forall|j: int| 0 <= j < a.len() ==> a[j].0@ == b[j].0@ && a[j].1 == b[j].1,
    ensures
        env_lookup(a, k) == env_lookup(b, k),
    decreases a.len(),
{
    if a.len() > 0 {
        lemma_lookup_same(a.drop_last(), b.drop_last(), k);
    }
}

/// Join two branch environments: a binding survives only when both sides map
/// it to the IDENTICAL type id; every disagreement, and every local bound in
/// only one branch, widens to `u`.
pub fn join_flow_envs(a: &TypeEnv, b: &TypeEnv, u: usize) -> (r: TypeEnv)
    ensures
        r@ == spec_join(a@, b@, u as nat),
{
    let mut out = TypeEnv::new();
    let names_a = a.names();
    let mut i: usize = 0;
    while i < names_a.len()
        invariant
            0 <= i <= names_a@.len(),
            forall|k: Seq<char>| a@.contains_key(k) <==> exists|j: int| 0 <= j < names_a@.len() && names_a@[j]@ == k,
            forall|k: Seq<char>|
                #[trigger] out@.contains_key(k) <==> exists|j: int| 0 <= j < i && names_a@[j]@ == k,
            forall|k: Seq<char>| #[trigger] out@.contains_key(k) ==> out@[k] == spec_join(a@, b@, u as nat)[k],
        decreases names_a@.len() - i,
    {
        let k = names_a[i].as_str();
        let av = a.get(k);
        let bv = b.get(k);
        let v = match (av, bv) {
            (Some(x), Some(y)) => if x == y { x } else { u },
            _ => u,
        };
        proof {
            assert(a@.contains_key(k@));
        }
        out.insert(k, v);
        i = i + 1;
    }
    let names_b = b.names();
    let mut i: usize = 0;
    while i < names_b.len()
        invariant
            0 <= i <= names_b@.len(),
            forall|k: Seq<char>| b@.contains_key(k) <==> exists|j: int| 0 <= j < names_b@.len() && names_b@[j]@ == k,
            forall|k: Seq<char>|
                #[trigger] out@.contains_key(k) <==> (a@.contains_key(k) || exists|j: int| 0 <= j < i && names_b@[j]@ == k),
            forall|k: Seq<char>| #[trigger] out@.contains_key(k) ==> out@[k] == spec_join(a@, b@, u as nat)[k],
        decreases names_b@.len() - i,
    {
        let k = names_b[i].as_str();
        if a.get(k).is_none() {
            proof {
                assert(b@.contains_key(k@));
            }
            out.insert(k, u);
        }
        i = i + 1;
    }
    assert(out@ =~= spec_join(a@, b@, u as nat));
    out
}

} // verus!
