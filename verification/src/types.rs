//! The type carriers the flow passes thread: a hash-consed table of type
//! nodes, so that two types are the same exactly when their ids are.
use vstd::prelude::*;
use crate::scalar::{Scalar, ScalarV};
use crate::text::str_eq;

verus! {

/// The core classes whose bare instances (`Nominal[C]`) the typer
/// represents: the two collection classes, `String`, and the two numeric
/// classes the `Kernel` conversions return.
#[derive(Debug, Clone, Copy, PartialEq, Eq, Structural)]
pub enum CoreClass {
    Array,
    Hash,
    String,
    Integer,
    Float,
}

impl CoreClass {
    /// The class name.
    pub fn name(&self) -> (r: &'static str)
        ensures
            r@ == class_name(*self),
    {
        match self {
            CoreClass::Array => "Array",
            CoreClass::Hash => "Hash",
            CoreClass::String => "String",
            CoreClass::Integer => "Integer",
            CoreClass::Float => "Float",
        }
    }
}

/// The name of a core class.
pub open spec fn class_name(c: CoreClass) -> Seq<char> {
    match c {
        CoreClass::Array => "Array"@,
        CoreClass::Hash => "Hash"@,
        CoreClass::String => "String"@,
        CoreClass::Integer => "Integer"@,
        CoreClass::Float => "Float"@,
    }
}

/// One type node; the children of a `Tuple` and the values of a `HashShape`
/// are ids of earlier nodes of the same table.
#[derive(Debug)]
pub enum TyNode {
    /// `Dynamic[top]`: nothing is known.
    Untyped,
    /// A value-pinned literal.
    Constant(Scalar),
    /// An array literal of known arity.
    Tuple(Vec<usize>),
    /// A hash literal with static keys, in first-insertion order.
    HashShape(Vec<(Scalar, usize)>),
    /// A bare instance of a core class.
    Nominal(CoreClass),
    /// A union of earlier types, at least two, none of them a union.
    Union(Vec<usize>),
}

/// The view of a [`TyNode`].
pub enum TyV {
    Untyped,
    Constant(ScalarV),
    Tuple(Seq<usize>),
    HashShape(Seq<(ScalarV, usize)>),
    Nominal(CoreClass),
    Union(Seq<usize>),
}

/// The view of one hash-shape member.
pub open spec fn member_view(m: (Scalar, usize)) -> (ScalarV, usize) {
    (m.0@, m.1)
}

impl View for TyNode {
    type V = TyV;

    open spec fn view(&self) -> TyV {
        match self {
            TyNode::Untyped => TyV::Untyped,
            TyNode::Constant(s) => TyV::Constant(s@),
            TyNode::Tuple(v) => TyV::Tuple(v@),
            TyNode::HashShape(v) => TyV::HashShape(v@.map_values(|m: (Scalar, usize)| member_view(m))),
            TyNode::Nominal(c) => TyV::Nominal(*c),
            TyNode::Union(v) => TyV::Union(v@),
        }
    }
}

/// The id of `Dynamic[top]`.
pub open spec fn untyped_id() -> nat {
    0
}

/// The id of the bare `Nominal[C]` of a core class.
pub open spec fn nominal_id(c: CoreClass) -> nat {
    match c {
        CoreClass::Array => 1,
        CoreClass::Hash => 2,
        CoreClass::String => 3,
        CoreClass::Integer => 4,
        CoreClass::Float => 5,
    }
}

/// Every id a node refers to is below `bound`.
pub open spec fn ty_children_below(n: TyV, bound: int) -> bool {
    match n {
        TyV::Tuple(es) => forall|k: int| 0 <= k < es.len() ==> es[k] < bound,
        TyV::HashShape(ms) => forall|k: int| 0 <= k < ms.len() ==> ms[k].1 < bound,
        TyV::Union(ms) => forall|k: int| 0 <= k < ms.len() ==> ms[k] < bound,
        _ => true,
    }
}

/// A type table is hash-consed: it starts with the six fixed nodes, every
/// node refers only to earlier ids, and no node occurs twice.
pub open spec fn table_wf(t: Seq<TyV>) -> bool {
    &&& t.len() >= 6
    &&& t[0] == TyV::Untyped
    &&& t[1] == TyV::Nominal(CoreClass::Array)
    &&& t[2] == TyV::Nominal(CoreClass::Hash)
    &&& t[3] == TyV::Nominal(CoreClass::String)
    &&& t[4] == TyV::Nominal(CoreClass::Integer)
    &&& t[5] == TyV::Nominal(CoreClass::Float)
    &&& forall|i: int| 0 <= i < t.len() ==> #[trigger] ty_children_below(t[i], i)
    &&& forall|i: int, j: int| 0 <= i < j < t.len() ==> t[i] != t[j]
}

/// The id of `n` in `t` and the table after interning it: the existing id
/// when `n` is already there, else a fresh one at the end.
pub open spec fn spec_intern(t: Seq<TyV>, n: TyV) -> (nat, Seq<TyV>) {
    if exists|i: int| 0 <= i < t.len() && t[i] == n {
        ((choose|i: int| 0 <= i < t.len() && t[i] == n) as nat, t)
    } else {
        (t.len(), t.push(n))
    }
}

/// Interning keeps the table hash-consed, keeps every earlier id, and
/// returns an id that denotes `n`.
pub proof fn lemma_intern(t: Seq<TyV>, n: TyV)
    requires
        table_wf(t),
        ty_children_below(n, t.len() as int),
    ensures
        table_wf(spec_intern(t, n).1),
        spec_intern(t, n).0 < spec_intern(t, n).1.len(),
        spec_intern(t, n).1[spec_intern(t, n).0 as int] == n,
        t.len() <= spec_intern(t, n).1.len(),
        forall|i: int| 0 <= i < t.len() ==> spec_intern(t, n).1[i] == t[i],
{
    if exists|i: int| 0 <= i < t.len() && t[i] == n {
    } else {
        let t2 = t.push(n);
        assert forall|i: int, j: int| 0 <= i < j < t2.len() implies t2[i] != t2[j] by {
            if j == t.len() {
                assert(t2[i] == t[i]);
            }
        }
        assert forall|i: int| 0 <= i < t2.len() implies #[trigger] ty_children_below(t2[i], i) by {
            if i < t.len() {
                assert(t2[i] == t[i]);
                assert(ty_children_below(t[i], i));
            }
        }
    }
}

/// The members a type brings to a union: a union's own members, any other
/// type itself.
pub open spec fn union_members(tbl: Seq<TyV>, t: nat) -> Seq<usize> {
    if t < tbl.len() && tbl[t as int] is Union {
        tbl[t as int]->Union_0
    } else {
        seq![t as usize]
    }
}

/// `acc` followed by the members of `ms` that it lacks, in order, each once.
pub open spec fn union_add(acc: Seq<usize>, ms: Seq<usize>) -> Seq<usize>
    decreases ms.len(),
{
    if ms.len() == 0 {
        acc
    } else {
        let a = union_add(acc, ms.drop_last());
        if a.contains(ms.last()) {
            a
        } else {
            a.push(ms.last())
        }
    }
}

/// The join of two types and the table after it: a type joined with itself
/// is itself, `Dynamic[top]` absorbs everything, and otherwise the members of
/// both (unions flattened, duplicates dropped, first occurrence first) form
/// a union.
pub open spec fn spec_ty_join(tbl: Seq<TyV>, a: nat, b: nat) -> (nat, Seq<TyV>) {
    if a == b {
        (a, tbl)
    } else if a == untyped_id() || b == untyped_id() {
        (untyped_id(), tbl)
    } else {
        let ms = union_add(union_members(tbl, a), union_members(tbl, b));
        if ms.len() == 1 {
            (ms[0] as nat, tbl)
        } else {
            spec_intern(tbl, TyV::Union(ms))
        }
    }
}

/// Adding members keeps every id below a bound that all of them are below.
proof fn lemma_union_add_below(acc: Seq<usize>, ms: Seq<usize>, bound: int)
    requires
        forall|k: int| 0 <= k < acc.len() ==> acc[k] < bound,
        forall|k: int| 0 <= k < ms.len() ==> ms[k] < bound,
    ensures
        forall|k: int| 0 <= k < union_add(acc, ms).len() ==> union_add(acc, ms)[k] < bound,
    decreases ms.len(),
{
    if ms.len() > 0 {
        lemma_union_add_below(acc, ms.drop_last(), bound);
        let a = union_add(acc, ms.drop_last());
        assert(ms.last() < bound);
        if !a.contains(ms.last()) {
            assert forall|k: int| 0 <= k < a.push(ms.last()).len() implies a.push(ms.last())[k] < bound by {
                if k < a.len() {
                    assert(a.push(ms.last())[k] == a[k]);
                }
            }
        }
    }
}

/// A copy of an id list.
fn ids_copy(v: &Vec<usize>) -> (r: Vec<usize>)
    ensures
        r@ == v@,
{
    let mut out: Vec<usize> = Vec::new();
    let mut i: usize = 0;
    while i < v.len()
        invariant
            0 <= i <= v@.len(),
            out@ == v@.take(i as int),
        decreases v@.len() - i,
    {
        out.push(v[i]);
        i = i + 1;
        assert(out@ =~= v@.take(i as int));
    }
    assert(v@.take(v@.len() as int) =~= v@);
    out
}

/// `acc` followed by the members of `ms` that it lacks.
fn union_add_ids(acc: Vec<usize>, ms: &Vec<usize>) -> (r: Vec<usize>)
    ensures
        r@ == union_add(acc@, ms@),
{
    let mut out = acc;
    let ghost acc0 = out@;
    let mut i: usize = 0;
    assert(ms@.take(0) =~= Seq::<usize>::empty());
    while i < ms.len()
        invariant
            0 <= i <= ms@.len(),
            out@ == union_add(acc0, ms@.take(i as int)),
        decreases ms@.len() - i,
    {
        let m = ms[i];
        let mut found = false;
        let mut j: usize = 0;
        while j < out.len()
            invariant
                0 <= j <= out@.len(),
                found == exists|k: int| 0 <= k < j && out@[k] == m,
            decreases out@.len() - j,
        {
            if out[j] == m {
                found = true;
            }
            j = j + 1;
        }
        assert(found == out@.contains(m));
        assert(ms@.take(i + 1).drop_last() =~= ms@.take(i as int));
        if !found {
            out.push(m);
        }
        i = i + 1;
    }
    assert(ms@.take(ms@.len() as int) =~= ms@);
    out
}

/// The hash-consing type interner.
pub struct Interner {
    nodes: Vec<TyNode>,
}

impl View for Interner {
    type V = Seq<TyV>;

    closed spec fn view(&self) -> Seq<TyV> {
        self.nodes@.map_values(|n: TyNode| n@)
    }
}

/// Equality of two scalars, by view.
pub fn scalar_eq(a: &Scalar, b: &Scalar) -> (r: bool)
    ensures
        r == (a@ == b@),
{
    match (a, b) {
        (Scalar::Int(x), Scalar::Int(y)) => *x == *y,
        (Scalar::Float(x), Scalar::Float(y)) => *x == *y,
        (Scalar::Bool(x), Scalar::Bool(y)) => *x == *y,
        (Scalar::Nil, Scalar::Nil) => true,
        (Scalar::Str(x), Scalar::Str(y)) => str_eq(x.as_str(), y.as_str()),
        (Scalar::Sym(x), Scalar::Sym(y)) => str_eq(x.as_str(), y.as_str()),
        _ => false,
    }
}

/// A copy of a scalar.
pub fn scalar_copy(s: &Scalar) -> (r: Scalar)
    ensures
        r@ == s@,
{
    match s {
        Scalar::Int(x) => Scalar::Int(*x),
        Scalar::Float(x) => Scalar::Float(*x),
        Scalar::Bool(x) => Scalar::Bool(*x),
        Scalar::Nil => Scalar::Nil,
        Scalar::Str(x) => Scalar::Str(x.clone()),
        Scalar::Sym(x) => Scalar::Sym(x.clone()),
    }
}

/// Equality of two id lists.
fn ids_eq(a: &Vec<usize>, b: &Vec<usize>) -> (r: bool)
    ensures
        r == (a@ == b@),
{
    if a.len() != b.len() {
        return false;
    }
    let mut i: usize = 0;
    while i < a.len()
        invariant
            a@.len() == b@.len(),
            0 <= i <= a@.len(),
            forall|j: int| 0 <= j < i ==> a@[j] == b@[j],
        decreases a@.len() - i,
    {
        if a[i] != b[i] {
            return false;
        }
        i = i + 1;
    }
    assert(a@ =~= b@);
    true
}

/// Equality of two hash-shape member lists, by view.
fn members_eq(a: &Vec<(Scalar, usize)>, b: &Vec<(Scalar, usize)>) -> (r: bool)
    ensures
        r == (a@.map_values(|m: (Scalar, usize)| member_view(m)) == b@.map_values(
            |m: (Scalar, usize)| member_view(m),
        )),
{
    let ghost va = a@.map_values(|m: (Scalar, usize)| member_view(m));
    let ghost vb = b@.map_values(|m: (Scalar, usize)| member_view(m));
    if a.len() != b.len() {
        assert(va.len() != vb.len());
        return false;
    }
    let mut i: usize = 0;
    while i < a.len()
        invariant
            a@.len() == b@.len(),
            va == a@.map_values(|m: (Scalar, usize)| member_view(m)),
            vb == b@.map_values(|m: (Scalar, usize)| member_view(m)),
            0 <= i <= a@.len(),
            forall|j: int| 0 <= j < i ==> va[j] == vb[j],
        decreases a@.len() - i,
    {
        if !scalar_eq(&a[i].0, &b[i].0) || a[i].1 != b[i].1 {
            assert(va[i as int] != vb[i as int]);
            return false;
        }
        i = i + 1;
    }
    assert(va =~= vb);
    true
}

/// Equality of two type nodes, by view.
fn node_eq(a: &TyNode, b: &TyNode) -> (r: bool)
    ensures
        r == (a@ == b@),
{
    match (a, b) {
        (TyNode::Untyped, TyNode::Untyped) => true,
        (TyNode::Constant(x), TyNode::Constant(y)) => scalar_eq(x, y),
        (TyNode::Tuple(x), TyNode::Tuple(y)) => ids_eq(x, y),
        (TyNode::HashShape(x), TyNode::HashShape(y)) => members_eq(x, y),
        (TyNode::Nominal(x), TyNode::Nominal(y)) => *x == *y,
        (TyNode::Union(x), TyNode::Union(y)) => ids_eq(x, y),
        _ => false,
    }
}

impl Interner {
    /// The table holding just the fixed nodes: `Dynamic[top]` and the bare
    /// `Array`, `Hash`, `String`, `Integer` and `Float` instances.
    pub fn new() -> (r: Interner)
        ensures
            table_wf(r@),
            r@.len() == 6,
    {
        let mut nodes: Vec<TyNode> = Vec::new();
        nodes.push(TyNode::Untyped);
        nodes.push(TyNode::Nominal(CoreClass::Array));
        nodes.push(TyNode::Nominal(CoreClass::Hash));
        nodes.push(TyNode::Nominal(CoreClass::String));
        nodes.push(TyNode::Nominal(CoreClass::Integer));
        nodes.push(TyNode::Nominal(CoreClass::Float));
        let r = Interner { nodes };
        assert(r@[0] == TyV::Untyped);
        assert(forall|i: int| 0 <= i < r@.len() ==> #[trigger] ty_children_below(r@[i], i));
        r
    }

    /// The id of `Dynamic[top]`.
    pub fn untyped(&self) -> (r: usize)
        ensures
            r == untyped_id(),
    {
        0
    }

    /// The number of interned types.
    pub fn len(&self) -> (r: usize)
        ensures
            r == self@.len(),
    {
        self.nodes.len()
    }

    /// The node behind an id.
    pub fn get(&self, id: usize) -> (r: &TyNode)
        requires
            id < self@.len(),
        ensures
            r@ == self@[id as int],
    {
        &self.nodes[id]
    }

    /// The members a type brings to a union.
    pub fn members(&self, t: usize) -> (r: Vec<usize>)
        requires
            t < self@.len(),
        ensures
            r@ == union_members(self@, t as nat),
    {
        match self.get(t) {
            TyNode::Union(ms) => ids_copy(ms),
            _ => {
                let mut v: Vec<usize> = Vec::new();
                v.push(t);
                assert(v@ =~= seq![t]);
                v
            },
        }
    }

    /// The join of two types: see [`spec_ty_join`].
    pub fn join(&mut self, a: usize, b: usize) -> (r: usize)
        requires
            table_wf(old(self)@),
            a < old(self)@.len(),
            b < old(self)@.len(),
        ensures
            (r as nat, final(self)@) == spec_ty_join(old(self)@, a as nat, b as nat),
            table_wf(final(self)@),
            r < final(self)@.len(),
            old(self)@.len() <= final(self)@.len(),
            forall|i: int| 0 <= i < old(self)@.len() ==> final(self)@[i] == old(self)@[i],
    {
        if a == b {
            return a;
        }
        if a == 0 || b == 0 {
            return 0;
        }
        let ma = self.members(a);
        let mb = self.members(b);
        let ms = union_add_ids(ma, &mb);
        proof {
            let t = self@;
            if t[a as int] is Union {
                assert(ty_children_below(t[a as int], a as int));
            }
            if t[b as int] is Union {
                assert(ty_children_below(t[b as int], b as int));
            }
            lemma_union_add_below(union_members(t, a as nat), union_members(t, b as nat), t.len() as int);
        }
        if ms.len() == 1 {
            return ms[0];
        }
        self.intern(TyNode::Union(ms))
    }

    /// Intern a node: the id of an equal node when there is one, else a new id.
    pub fn intern(&mut self, n: TyNode) -> (r: usize)
        requires
            table_wf(old(self)@),
            ty_children_below(n@, old(self)@.len() as int),
        ensures
            (r as nat, final(self)@) == spec_intern(old(self)@, n@),
            table_wf(final(self)@),
            r < final(self)@.len(),
            final(self)@[r as int] == n@,
            old(self)@.len() <= final(self)@.len(),
            forall|i: int| 0 <= i < old(self)@.len() ==> final(self)@[i] == old(self)@[i],
    {
        proof {
            lemma_intern(self@, n@);
        }
        let mut i: usize = 0;
        while i < self.nodes.len()
            invariant
                0 <= i <= self.nodes@.len(),
                self@ == old(self)@,
                table_wf(self@),
                forall|j: int| 0 <= j < i ==> self@[j] != n@,
            decreases self.nodes@.len() - i,
        {
            if node_eq(&self.nodes[i], &n) {
                proof {
                    assert(self@[i as int] == n@);
                    let c = choose|k: int| 0 <= k < self@.len() && self@[k] == n@;
                    assert(c == i);
                }
                return i;
            }
            i = i + 1;
        }
        let r = self.nodes.len();
        self.nodes.push(n);
        proof {
            assert(self@ =~= old(self)@.push(n@));
        }
        r
    }
}

} // verus!
