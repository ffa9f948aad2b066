//! Small name-keyed tables for the flow passes: a map from local names to
//! class names, and a set of local names. Both keep their entries in
//! insertion order; the last entry for a name decides.
use vstd::prelude::*;
use crate::text::str_eq;

verus! {

/// The last entry for `k`, if any: `Some(Some(v))` when it binds `v`,
/// `Some(None)` when it removed `k`.
pub open spec fn arm_lookup(s: Seq<(String, Option<String>)>, k: Seq<char>) -> Option<Option<Seq<char>>>
    decreases s.len(),
{
    if s.len() == 0 {
        None
    } else if s.last().0@ == k {
        match s.last().1 {
            Some(v) => Some(Some(v@)),
            None => Some(None),
        }
    } else {
        arm_lookup(s.drop_last(), k)
    }
}

/// A map from local names to class names.
pub struct NameMap {
    entries: Vec<(String, Option<String>)>,
}

impl View for NameMap {
    type V = Map<Seq<char>, Seq<char>>;

    closed spec fn view(&self) -> Map<Seq<char>, Seq<char>> {
        Map::new(
            |k: Seq<char>| arm_lookup(self.entries@, k) matches Some(Some(_)),
            |k: Seq<char>| arm_lookup(self.entries@, k)->Some_0->Some_0,
        )
    }
}

impl NameMap {
    /// The empty map.
    pub fn new() -> (r: NameMap)
        ensures
            r@ == Map::<Seq<char>, Seq<char>>::empty(),
    {
        let r = NameMap { entries: Vec::new() };
        assert(r@ =~= Map::<Seq<char>, Seq<char>>::empty());
        r
    }

    /// The class bound to `name`, if any.
    pub fn get(&self, name: &str) -> (r: Option<String>)
        ensures
            r is Some <==> self@.contains_key(name@),
            r matches Some(v) ==> v@ == self@[name@],
    {
        let mut i: usize = self.entries.len();
        assert(self.entries@.take(i as int) =~= self.entries@);
        while i > 0
            invariant
                0 <= i <= self.entries@.len(),
                arm_lookup(self.entries@, name@) == arm_lookup(self.entries@.take(i as int), name@),
            decreases i,
        {
            i = i - 1;
            if str_eq(self.entries[i].0.as_str(), name) {
                proof {
                    let t = self.entries@.take(i as int + 1);
                    assert(t.last() == self.entries@[i as int]);
                }
                return match &self.entries[i].1 {
                    Some(v) => Some(v.clone()),
                    None => None,
                };
            }
            proof {
                let t = self.entries@.take(i as int + 1);
                assert(t.drop_last() =~= self.entries@.take(i as int));
            }
        }
        assert(self.entries@.take(0) =~= Seq::<(String, Option<String>)>::empty());
        None
    }

    /// Bind `name` to `v`.
    pub fn insert(&mut self, name: &str, v: String)
        ensures
            final(self)@ == old(self)@.insert(name@, v@),
    {
        let ghost old_entries = self.entries@;
        self.entries.push((name.to_owned(), Some(v)));
        proof {
            assert(self.entries@.drop_last() =~= old_entries);
            assert(self@ =~= old(self)@.insert(name@, v@));
        }
    }

    /// Drop the binding of `name`.
    pub fn remove(&mut self, name: &str)
        ensures
            final(self)@ == old(self)@.remove(name@),
    {
        let ghost old_entries = self.entries@;
        self.entries.push((name.to_owned(), None));
        proof {
            assert(self.entries@.drop_last() =~= old_entries);
            assert(self@ =~= old(self)@.remove(name@));
        }
    }
}

/// The last entry for `k`, if any: whether it added or removed `k`.
pub open spec fn member_lookup(s: Seq<(String, bool)>, k: Seq<char>) -> Option<bool>
    decreases s.len(),
{
    if s.len() == 0 {
        None
    } else if s.last().0@ == k {
        Some(s.last().1)
    } else {
        member_lookup(s.drop_last(), k)
    }
}

/// A set of local names.
pub struct NameSet {
    entries: Vec<(String, bool)>,
}

impl View for NameSet {
    type V = Set<Seq<char>>;

    closed spec fn view(&self) -> Set<Seq<char>> {
        Set::new(|k: Seq<char>| member_lookup(self.entries@, k) == Some(true))
    }
}

impl NameSet {
    /// The empty set.
    pub fn new() -> (r: NameSet)
        ensures
            r@ == Set::<Seq<char>>::empty(),
    {
        let r = NameSet { entries: Vec::new() };
        assert(r@ =~= Set::<Seq<char>>::empty());
        r
    }

    /// Whether `name` is in the set.
    pub fn contains(&self, name: &str) -> (r: bool)
        ensures
            r == self@.contains(name@),
    {
        let mut i: usize = self.entries.len();
        assert(self.entries@.take(i as int) =~= self.entries@);
        while i > 0
            invariant
                0 <= i <= self.entries@.len(),
                member_lookup(self.entries@, name@) == member_lookup(self.entries@.take(i as int), name@),
            decreases i,
        {
            i = i - 1;
            if str_eq(self.entries[i].0.as_str(), name) {
                proof {
                    let t = self.entries@.take(i as int + 1);
                    assert(t.last() == self.entries@[i as int]);
                }
                return self.entries[i].1;
            }
            proof {
                let t = self.entries@.take(i as int + 1);
                assert(t.drop_last() =~= self.entries@.take(i as int));
            }
        }
        assert(self.entries@.take(0) =~= Seq::<(String, bool)>::empty());
        false
    }

    /// Add `name`.
    pub fn insert(&mut self, name: &str)
        ensures
            final(self)@ == old(self)@.insert(name@),
    {
        let ghost old_entries = self.entries@;
        self.entries.push((name.to_owned(), true));
        proof {
            assert(self.entries@.drop_last() =~= old_entries);
            assert(self@ =~= old(self)@.insert(name@));
        }
    }

    /// Drop `name`.
    pub fn remove(&mut self, name: &str)
        ensures
            final(self)@ == old(self)@.remove(name@),
    {
        let ghost old_entries = self.entries@;
        self.entries.push((name.to_owned(), false));
        proof {
            assert(self.entries@.drop_last() =~= old_entries);
            assert(self@ =~= old(self)@.remove(name@));
        }
    }

    /// A copy of the set.
    pub fn copy(&self) -> (r: NameSet)
        ensures
            r@ == self@,
    {
        let mut out: Vec<(String, bool)> = Vec::new();
        let mut i: usize = 0;
        while i < self.entries.len()
            invariant
                0 <= i <= self.entries@.len(),
                out@.len() == i,
                forall|j: int| 0 <= j < i ==> out@[j].0@ == self.entries@[j].0@ && out@[j].1 == self.entries@[j].1,
            decreases self.entries@.len() - i,
        {
            out.push((self.entries[i].0.clone(), self.entries[i].1));
            i = i + 1;
        }
        let r = NameSet { entries: out };
        proof {
            assert forall|k: Seq<char>| #[trigger] member_lookup(out@, k) == member_lookup(self.entries@, k) by {
                lemma_member_same(out@, self.entries@, k);
            }
            assert(r@ =~= self@);
        }
        r
    }
}

/// Entry lists with the same names and flags hold the same members.
proof fn lemma_member_same(a: Seq<(String, bool)>, b: Seq<(String, bool)>, k: Seq<char>)
    requires
        a.len() == b.len(),
        forall|j: int| 0 <= j < a.len() ==> a[j].0@ == b[j].0@ && a[j].1 == b[j].1,
    ensures
        member_lookup(a, k) == member_lookup(b, k),
    decreases a.len(),
{
    if a.len() > 0 {
        lemma_member_same(a.drop_last(), b.drop_last(), k);
    }
}

} // verus!
