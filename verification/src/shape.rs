//! Projections on value-pinned shapes: reads, arities and set operations on
//! a `Tuple` receiver, static-key reads and reshapes on a `HashShape`
//! receiver. Each answers `Some` only when the result is exactly what Ruby
//! computes for the pinned values; any doubt declines.
use vstd::prelude::*;
use crate::scalar::{Scalar, ScalarV};
use crate::types::{TyV, TyNode, Interner, table_wf, spec_intern, ty_children_below, scalar_eq, scalar_copy, member_view};
use crate::float_bits::{f_is_nan, float_is_nan};
use crate::flow::{const_of, consts_of, consts_of_ids, find_key, extends};
use crate::text::str_eq;
use crate::types::untyped_id;
use crate::folding::{spec_fold, fold_with_folder, spec_fold_routed, folder_oracle, FoldOracle, RubyFolder};
use crate::scalar::opt_view;

verus! {

/// The node behind an id of the table, if it is one.
pub open spec fn node_at(tbl: Seq<TyV>, t: nat) -> Option<TyV> {
    if t < tbl.len() {
        Some(tbl[t as int])
    } else {
        None
    }
}

/// The views of a list of scalars.
pub open spec fn scalars_view(v: Seq<Scalar>) -> Seq<ScalarV> {
    v.map_values(|s: Scalar| s@)
}

/// A pinned scalar that `eql?` relates to itself: anything but a NaN.
pub open spec fn self_eql(s: ScalarV) -> bool {
    match s {
        ScalarV::Float(b) => !f_is_nan(b),
        _ => true,
    }
}

/// The scalars a `Tuple`'s elements pin, when each is a `Constant` other
/// than a NaN.
pub open spec fn tuple_values(tbl: Seq<TyV>, es: Seq<usize>) -> Option<Seq<ScalarV>> {
    match consts_of(tbl, es) {
        Some(v) => if forall|k: int| 0 <= k < v.len() ==> self_eql(#[trigger] v[k]) {
            Some(v)
        } else {
            None
        },
        None => None,
    }
}

/// The elements of `x`, each kept at its first occurrence.
pub open spec fn dedup(x: Seq<ScalarV>) -> Seq<ScalarV>
    decreases x.len(),
{
    if x.len() == 0 {
        Seq::empty()
    } else {
        let p = dedup(x.drop_last());
        if p.contains(x.last()) {
            p
        } else {
            p.push(x.last())
        }
    }
}

/// The set operations of `Array`.
#[derive(Clone, Copy, PartialEq, Eq, Structural)]
pub enum SetOp {
    /// `&`: the elements of the receiver also in the argument, without
    /// repeats, in receiver order.
    Intersection,
    /// `|`: the receiver's then the argument's elements, without repeats.
    Union,
    /// `-`: the receiver's elements absent from the argument, repeats kept.
    Difference,
}

/// `a op b` under `eql?`.
pub open spec fn set_apply(op: SetOp, a: Seq<ScalarV>, b: Seq<ScalarV>) -> Seq<ScalarV> {
    match op {
        SetOp::Intersection => dedup(a.filter(|s: ScalarV| b.contains(s))),
        SetOp::Union => dedup(a + b),
        SetOp::Difference => a.filter(|s: ScalarV| !b.contains(s)),
    }
}

/// The receiver values `a` combined with each argument `Tuple` in turn.
pub open spec fn set_fold(tbl: Seq<TyV>, a: Seq<ScalarV>, ats: Seq<usize>, op: SetOp) -> Option<Seq<ScalarV>>
    decreases ats.len(),
{
    if ats.len() == 0 {
        Some(a)
    } else {
        match set_fold(tbl, a, ats.drop_last(), op) {
            None => None,
            Some(acc) => match node_at(tbl, ats.last() as nat) {
                Some(TyV::Tuple(oes)) => match tuple_values(tbl, oes) {
                    Some(o) => Some(set_apply(op, acc, o)),
                    None => None,
                },
                _ => None,
            },
        }
    }
}

/// More arguments than this decline a set operation.
pub const MAX_SET_OPERATION_ARITY: usize = 8;

/// A wider result than this declines a set operation.
pub const MAX_SET_OPERATION_SIZE: usize = 64;

/// The values of a set operation on a `Tuple` with elements `es`, when the
/// receiver and every one of one to eight arguments are fully pinned
/// `Tuple`s and the result is at most 64 wide.
pub open spec fn set_values(tbl: Seq<TyV>, es: Seq<usize>, ats: Seq<usize>, op: SetOp) -> Option<Seq<ScalarV>> {
    if ats.len() == 0 || ats.len() > MAX_SET_OPERATION_ARITY {
        None
    } else {
        match tuple_values(tbl, es) {
            None => None,
            Some(a) => match set_fold(tbl, a, ats, op) {
                Some(r) => if r.len() > MAX_SET_OPERATION_SIZE {
                    None
                } else {
                    Some(r)
                },
                None => None,
            },
        }
    }
}

/// Intern a `Constant` for each value in turn.
pub open spec fn intern_consts(tbl: Seq<TyV>, vals: Seq<ScalarV>) -> (Seq<usize>, Seq<TyV>)
    decreases vals.len(),
{
    if vals.len() == 0 {
        (Seq::empty(), tbl)
    } else {
        let (ids, t1) = intern_consts(tbl, vals.drop_last());
        let (i, t2) = spec_intern(t1, TyV::Constant(vals.last()));
        (ids.push(i as usize), t2)
    }
}

/// The number of truthy values: all but `nil` and `false`.
pub open spec fn truthy_count(v: Seq<ScalarV>) -> nat
    decreases v.len(),
{
    if v.len() == 0 {
        0
    } else {
        truthy_count(v.drop_last()) + (if v.last() == ScalarV::Nil || v.last() == ScalarV::Bool(false) { 0nat } else { 1nat })
    }
}

/// A negative index counts from the end.
pub open spec fn real_index(i: int, len: int) -> int {
    if i < 0 {
        len + i
    } else {
        i
    }
}

// --- Executable set operations ----------------------------------------------

/// Whether `v` holds a scalar equal to `s`.
fn contains_scalar(v: &Vec<Scalar>, s: &Scalar) -> (r: bool)
    ensures
        r == scalars_view(v@).contains(s@),
{
    let ghost sv = scalars_view(v@);
    let mut k: usize = 0;
    while k < v.len()
        invariant
            0 <= k <= v@.len(),
            sv == scalars_view(v@),
            forall|j: int| 0 <= j < k ==> sv[j] != s@,
        decreases v@.len() - k,
    {
        if scalar_eq(&v[k], s) {
            assert(sv[k as int] == s@);
            return true;
        }
        k = k + 1;
    }
    false
}

/// `a op b` under `eql?`.
pub fn set_apply_exec(op: SetOp, a: &Vec<Scalar>, b: &Vec<Scalar>) -> (r: Vec<Scalar>)
    ensures
        scalars_view(r@) == set_apply(op, scalars_view(a@), scalars_view(b@)),
{
    let ghost av = scalars_view(a@);
    let ghost bv = scalars_view(b@);
    let mut out: Vec<Scalar> = Vec::new();
    match op {
        SetOp::Intersection => {
            let ghost p = |s: ScalarV| bv.contains(s);
            let mut k: usize = 0;
            while k < a.len()
                invariant
                    0 <= k <= a@.len(),
                    av == scalars_view(a@),
                    bv == scalars_view(b@),
                    p == (|s: ScalarV| bv.contains(s)),
                    scalars_view(out@) == dedup(av.take(k as int).filter(p)),
                decreases a@.len() - k,
            {
                let ghost f0 = av.take(k as int).filter(p);
                proof {
                    assert(av.take(k as int + 1).drop_last() =~= av.take(k as int));
                    assert(av.take(k as int + 1).last() == av[k as int]);
                    reveal(Seq::filter);
                }
                if contains_scalar(b, &a[k]) {
                    assert(av.take(k as int + 1).filter(p) == f0.push(av[k as int]));
                    assert(f0.push(av[k as int]).drop_last() =~= f0);
                    if !contains_scalar(&out, &a[k]) {
                        let ghost o0 = scalars_view(out@);
                        out.push(scalar_copy(&a[k]));
                        assert(scalars_view(out@) =~= o0.push(av[k as int]));
                    }
                } else {
                    assert(av.take(k as int + 1).filter(p) == f0);
                }
                k = k + 1;
            }
            assert(av.take(a@.len() as int) =~= av);
        },
        SetOp::Union => {
            let mut k: usize = 0;
            while k < a.len()
                invariant
                    0 <= k <= a@.len(),
                    av == scalars_view(a@),
                    scalars_view(out@) == dedup(av.take(k as int)),
                decreases a@.len() - k,
            {
                proof {
                    assert(av.take(k as int + 1).drop_last() =~= av.take(k as int));
                    assert(av.take(k as int + 1).last() == av[k as int]);
                }
                if !contains_scalar(&out, &a[k]) {
                    let ghost o0 = scalars_view(out@);
                    out.push(scalar_copy(&a[k]));
                    assert(scalars_view(out@) =~= o0.push(av[k as int]));
                }
                k = k + 1;
            }
            assert(av.take(a@.len() as int) =~= av);
            let mut j: usize = 0;
            while j < b.len()
                invariant
                    0 <= j <= b@.len(),
                    av == scalars_view(a@),
                    bv == scalars_view(b@),
                    scalars_view(out@) == dedup(av + bv.take(j as int)),
                decreases b@.len() - j,
            {
                proof {
                    assert((av + bv.take(j as int + 1)).drop_last() =~= av + bv.take(j as int));
                    assert((av + bv.take(j as int + 1)).last() == bv[j as int]);
                }
                if !contains_scalar(&out, &b[j]) {
                    let ghost o0 = scalars_view(out@);
                    out.push(scalar_copy(&b[j]));
                    assert(scalars_view(out@) =~= o0.push(bv[j as int]));
                }
                j = j + 1;
            }
            assert(av + bv.take(b@.len() as int) =~= av + bv);
        },
        SetOp::Difference => {
            let ghost p = |s: ScalarV| !bv.contains(s);
            let mut k: usize = 0;
            while k < a.len()
                invariant
                    0 <= k <= a@.len(),
                    av == scalars_view(a@),
                    bv == scalars_view(b@),
                    p == (|s: ScalarV| !bv.contains(s)),
                    scalars_view(out@) == av.take(k as int).filter(p),
                decreases a@.len() - k,
            {
                proof {
                    assert(av.take(k as int + 1).drop_last() =~= av.take(k as int));
                    assert(av.take(k as int + 1).last() == av[k as int]);
                    reveal(Seq::filter);
                }
                if !contains_scalar(b, &a[k]) {
                    let ghost o0 = scalars_view(out@);
                    out.push(scalar_copy(&a[k]));
                    assert(scalars_view(out@) =~= o0.push(av[k as int]));
                }
                k = k + 1;
            }
            assert(av.take(a@.len() as int) =~= av);
        },
    }
    out
}

/// The scalars a `Tuple`'s elements pin, when each is a `Constant` other
/// than a NaN.
fn tuple_values_exec(it: &Interner, es: &Vec<usize>) -> (r: Option<Vec<Scalar>>)
    requires
        forall|k: int| 0 <= k < es@.len() ==> es@[k] < it@.len(),
    ensures
        match r {
            Some(v) => tuple_values(it@, es@) == Some(scalars_view(v@)),
            None => tuple_values(it@, es@) is None,
        },
{
    match consts_of_ids(it, es) {
        None => None,
        Some(v) => {
            let ghost sv = scalars_view(v@);
            assert(consts_of(it@, es@) == Some(sv));
            let mut k: usize = 0;
            while k < v.len()
                invariant
                    0 <= k <= v@.len(),
                    sv == scalars_view(v@),
                    consts_of(it@, es@) == Some(sv),
                    forall|j: int| 0 <= j < k ==> self_eql(#[trigger] sv[j]),
                decreases v@.len() - k,
            {
                match &v[k] {
                    Scalar::Float(b) => {
                        if float_is_nan(*b) {
                            assert(sv[k as int] == v@[k as int]@);
                            assert(!self_eql(sv[k as int]));
                            assert(consts_of(it@, es@)->Some_0 == sv);
                            return None;
                        }
                    },
                    _ => {},
                }
                k = k + 1;
            }
            Some(v)
        },
    }
}

/// A `None` combination stays `None` as more arguments come.
proof fn lemma_set_fold_none(tbl: Seq<TyV>, a: Seq<ScalarV>, ats: Seq<usize>, op: SetOp, k: int)
    requires
        0 <= k <= ats.len(),
        set_fold(tbl, a, ats.take(k), op) is None,
    ensures
        set_fold(tbl, a, ats, op) is None,
    decreases ats.len() - k,
{
    if k < ats.len() {
        assert(ats.take(k + 1).drop_last() =~= ats.take(k));
        lemma_set_fold_none(tbl, a, ats, op, k + 1);
    } else {
        assert(ats.take(k) =~= ats);
    }
}

/// The values of a set operation on a `Tuple` with elements `es`.
fn set_values_exec(it: &Interner, es: &Vec<usize>, ats: &Vec<usize>, op: SetOp) -> (r: Option<Vec<Scalar>>)
    requires
        table_wf(it@),
        forall|k: int| 0 <= k < es@.len() ==> es@[k] < it@.len(),
        forall|k: int| 0 <= k < ats@.len() ==> ats@[k] < it@.len(),
    ensures
        match r {
            Some(v) => set_values(it@, es@, ats@, op) == Some(scalars_view(v@)),
            None => set_values(it@, es@, ats@, op) is None,
        },
{
    if ats.len() == 0 || ats.len() > MAX_SET_OPERATION_ARITY {
        return None;
    }
    let a = match tuple_values_exec(it, es) {
        Some(a) => a,
        None => {
            return None;
        },
    };
    let ghost av = scalars_view(a@);
    let mut acc = a;
    let mut k: usize = 0;
    assert(ats@.take(0) =~= Seq::<usize>::empty());
    while k < ats.len()
        invariant
            0 <= k <= ats@.len(),
            1 <= ats@.len() <= MAX_SET_OPERATION_ARITY,
            table_wf(it@),
            tuple_values(it@, es@) == Some(av),
            forall|j: int| 0 <= j < ats@.len() ==> ats@[j] < it@.len(),
            set_fold(it@, av, ats@.take(k as int), op) == Some(scalars_view(acc@)),
        decreases ats@.len() - k,
    {
        proof {
            assert(ats@.take(k as int + 1).drop_last() =~= ats@.take(k as int));
            assert(ats@.take(k as int + 1).last() == ats@[k as int]);
        }
        let t = ats[k];
        match it.get(t) {
            TyNode::Tuple(oes) => {
                proof {
                    assert(it@[t as int] == TyV::Tuple(oes@));
                    assert(crate::types::ty_children_below(it@[t as int], t as int));
                    assert(TyV::Tuple(oes@)->Tuple_0 == oes@);
                }
                match tuple_values_exec(it, oes) {
                    Some(o) => {
                        acc = set_apply_exec(op, &acc, &o);
                    },
                    None => {
                        proof {
                            lemma_set_fold_none(it@, av, ats@, op, k as int + 1);
                        }
                        return None;
                    },
                }
            },
            _ => {
                proof {
                    lemma_set_fold_none(it@, av, ats@, op, k as int + 1);
                }
                return None;
            },
        }
        k = k + 1;
    }
    assert(ats@.take(ats@.len() as int) =~= ats@);
    if acc.len() > MAX_SET_OPERATION_SIZE {
        return None;
    }
    Some(acc)
}

/// Intern a `Constant` for each value in turn.
fn intern_scalars(it: &mut Interner, vals: &Vec<Scalar>) -> (r: Vec<usize>)
    requires
        table_wf(old(it)@),
    ensures
        (r@, final(it)@) == intern_consts(old(it)@, scalars_view(vals@)),
        table_wf(final(it)@),
        extends(old(it)@, final(it)@),
        forall|k: int| 0 <= k < r@.len() ==> r@[k] < final(it)@.len(),
{
    let ghost t0 = it@;
    let ghost vv = scalars_view(vals@);
    let mut ids: Vec<usize> = Vec::new();
    let mut k: usize = 0;
    assert(vv.take(0) =~= Seq::<ScalarV>::empty());
    while k < vals.len()
        invariant
            0 <= k <= vals@.len(),
            t0 == old(it)@,
            vv == scalars_view(vals@),
            table_wf(it@),
            extends(t0, it@),
            (ids@, it@) == intern_consts(t0, vv.take(k as int)),
            forall|j: int| 0 <= j < ids@.len() ==> ids@[j] < it@.len(),
        decreases vals@.len() - k,
    {
        proof {
            assert(vv.take(k as int + 1).drop_last() =~= vv.take(k as int));
            assert(vv.take(k as int + 1).last() == vv[k as int]);
        }
        let i = it.intern(TyNode::Constant(scalar_copy(&vals[k])));
        ids.push(i);
        k = k + 1;
    }
    assert(vv.take(vals@.len() as int) =~= vv);
    ids
}

// --- Tuple projections -------------------------------------------------------

/// A `Constant` pinning `s`.
pub open spec fn cst(s: ScalarV) -> TyV {
    TyV::Constant(s)
}

/// The result of a set operation `op` on a `Tuple` with elements `es`: the
/// `Tuple` of its pinned values.
pub open spec fn set_tuple(tbl: Seq<TyV>, es: Seq<usize>, ats: Seq<usize>, op: SetOp) -> Option<(nat, Seq<TyV>)> {
    match set_values(tbl, es, ats, op) {
        Some(v) => {
            let (ids, t1) = intern_consts(tbl, v);
            Some(spec_intern(t1, TyV::Tuple(ids)))
        },
        None => None,
    }
}

/// A read, an arity or a set operation on a value-pinned `Tuple` receiver
/// `rt` whose arguments have types `ats`; `None` when the receiver is no
/// `Tuple` or the call is not one folded here.
///
/// `first` / `last` give the end element (`nil` when empty); `size`,
/// `length`, `count` the arity; `empty?` whether it is zero; `at(i)` the
/// element at a pinned integer index (negative from the end), declining out
/// of range; `[i]` the same but `nil` out of range; `deconstruct` the
/// receiver itself; `&` / `intersection`, `|` / `union`, `-` / `difference`
/// the set operation as a `Tuple`; `intersect?` whether the intersection is
/// non-empty; `one?` whether exactly one element is truthy.
pub open spec fn s_tuple_proj(tbl: Seq<TyV>, rt: nat, m: Seq<char>, ats: Seq<usize>) -> Option<(nat, Seq<TyV>)> {
    match node_at(tbl, rt) {
        Some(TyV::Tuple(es)) => {
            if m == "first"@ && ats.len() == 0 {
                Some(if es.len() > 0 { (es[0] as nat, tbl) } else { spec_intern(tbl, cst(ScalarV::Nil)) })
            } else if m == "last"@ && ats.len() == 0 {
                Some(if es.len() > 0 { (es.last() as nat, tbl) } else { spec_intern(tbl, cst(ScalarV::Nil)) })
            } else if (m == "size"@ || m == "length"@ || m == "count"@) && ats.len() == 0 {
                Some(spec_intern(tbl, cst(ScalarV::Int(es.len() as i64))))
            } else if m == "empty?"@ && ats.len() == 0 {
                Some(spec_intern(tbl, cst(ScalarV::Bool(es.len() == 0))))
            } else if m == "at"@ && ats.len() == 1 {
                match const_of(tbl, ats[0] as nat) {
                    Some(ScalarV::Int(i)) => {
                        let r = real_index(i as int, es.len() as int);
                        if 0 <= r < es.len() { Some((es[r] as nat, tbl)) } else { None }
                    },
                    _ => None,
                }
            } else if m == "deconstruct"@ && ats.len() == 0 {
                Some((rt, tbl))
            } else if m == "&"@ || m == "intersection"@ {
                set_tuple(tbl, es, ats, SetOp::Intersection)
            } else if m == "|"@ || m == "union"@ {
                set_tuple(tbl, es, ats, SetOp::Union)
            } else if m == "-"@ || m == "difference"@ {
                set_tuple(tbl, es, ats, SetOp::Difference)
            } else if m == "intersect?"@ {
                match set_values(tbl, es, ats, SetOp::Intersection) {
                    Some(v) => {
                        let (_ids, t1) = intern_consts(tbl, v);
                        Some(spec_intern(t1, cst(ScalarV::Bool(v.len() > 0))))
                    },
                    None => None,
                }
            } else if m == "one?"@ && ats.len() == 0 {
                match tuple_values(tbl, es) {
                    Some(v) => Some(spec_intern(tbl, cst(ScalarV::Bool(truthy_count(v) == 1)))),
                    None => None,
                }
            } else if m == "[]"@ && ats.len() == 1 {
                match const_of(tbl, ats[0] as nat) {
                    Some(ScalarV::Int(i)) => {
                        let r = real_index(i as int, es.len() as int);
                        if 0 <= r < es.len() { Some((es[r] as nat, tbl)) } else { Some(spec_intern(tbl, cst(ScalarV::Nil))) }
                    },
                    _ => None,
                }
            } else {
                None
            }
        },
        _ => None,
    }
}

/// What a projection promises of the table and the id it answers.
pub open spec fn proj_ok(r: Option<usize>, spec: Option<(nat, Seq<TyV>)>, t0: Seq<TyV>, t1: Seq<TyV>) -> bool {
    &&& table_wf(t1)
    &&& extends(t0, t1)
    &&& match r {
        Some(x) => spec == Some((x as nat, t1)) && x < t1.len(),
        None => spec is None && t1 == t0,
    }
}

/// The pinned integer a type id denotes, if it is one.
fn pinned_int(it: &Interner, t: usize) -> (r: Option<i64>)
    requires
        t < it@.len(),
    ensures
        match r {
            Some(i) => const_of(it@, t as nat) == Some(ScalarV::Int(i)),
            None => !(const_of(it@, t as nat) matches Some(ScalarV::Int(_))),
        },
{
    match it.get(t) {
        TyNode::Constant(Scalar::Int(i)) => Some(*i),
        _ => None,
    }
}

/// The interned `Constant` for `s`.
fn intern_const(it: &mut Interner, s: Scalar) -> (r: usize)
    requires
        table_wf(old(it)@),
    ensures
        (r as nat, final(it)@) == spec_intern(old(it)@, cst(s@)),
        table_wf(final(it)@),
        extends(old(it)@, final(it)@),
        r < final(it)@.len(),
{
    it.intern(TyNode::Constant(s))
}

/// The result of a set operation on a `Tuple` with elements `es`.
fn set_tuple_exec(it: &mut Interner, es: &Vec<usize>, ats: &Vec<usize>, op: SetOp) -> (r: Option<usize>)
    requires
        table_wf(old(it)@),
        forall|k: int| 0 <= k < es@.len() ==> es@[k] < old(it)@.len(),
        forall|k: int| 0 <= k < ats@.len() ==> ats@[k] < old(it)@.len(),
    ensures
        proj_ok(r, set_tuple(old(it)@, es@, ats@, op), old(it)@, final(it)@),
{
    match set_values_exec(it, es, ats, op) {
        Some(v) => {
            let ids = intern_scalars(it, &v);
            Some(it.intern(TyNode::Tuple(ids)))
        },
        None => None,
    }
}

/// A copy of a list of ids.
fn ids_copy(v: &Vec<usize>) -> (r: Vec<usize>)
    ensures
        r@ == v@,
{
    let mut out: Vec<usize> = Vec::new();
    let mut k: usize = 0;
    while k < v.len()
        invariant
            0 <= k <= v@.len(),
            out@ == v@.take(k as int),
        decreases v@.len() - k,
    {
        out.push(v[k]);
        k = k + 1;
        assert(out@ =~= v@.take(k as int));
    }
    assert(v@.take(v@.len() as int) =~= v@);
    out
}

/// The number of truthy values.
fn truthy_count_exec(v: &Vec<Scalar>) -> (r: usize)
    ensures
        r as nat == truthy_count(scalars_view(v@)),
{
    let ghost sv = scalars_view(v@);
    let mut n: usize = 0;
    let mut k: usize = 0;
    while k < v.len()
        invariant
            0 <= k <= v@.len(),
            sv == scalars_view(v@),
            n <= k,
            n as nat == truthy_count(sv.take(k as int)),
        decreases v@.len() - k,
    {
        proof {
            assert(sv.take(k as int + 1).drop_last() =~= sv.take(k as int));
            assert(sv.take(k as int + 1).last() == v@[k as int]@);
        }
        match &v[k] {
            Scalar::Nil => {},
            Scalar::Bool(false) => {},
            _ => {
                n = n + 1;
            },
        }
        k = k + 1;
    }
    assert(sv.take(v@.len() as int) =~= sv);
    n
}

/// A read, an arity or a set operation on a value-pinned `Tuple` receiver.
pub fn tuple_projection(it: &mut Interner, rt: usize, m: &str, ats: &Vec<usize>) -> (r: Option<usize>)
    requires
        table_wf(old(it)@),
        rt < old(it)@.len(),
        forall|k: int| 0 <= k < ats@.len() ==> ats@[k] < old(it)@.len(),
    ensures
        proj_ok(r, s_tuple_proj(old(it)@, rt as nat, m@, ats@), old(it)@, final(it)@),
{
    let es = match it.get(rt) {
        TyNode::Tuple(es) => ids_copy(es),
        _ => {
            return None;
        },
    };
    proof {
        assert(TyV::Tuple(es@)->Tuple_0 == es@);
        assert(crate::types::ty_children_below(it@[rt as int], rt as int));
    }
    let n = es.len();
    if str_eq(m, "first") && ats.len() == 0 {
        if n > 0 {
            Some(es[0])
        } else {
            Some(intern_const(it, Scalar::Nil))
        }
    } else if str_eq(m, "last") && ats.len() == 0 {
        if n > 0 {
            Some(es[n - 1])
        } else {
            Some(intern_const(it, Scalar::Nil))
        }
    } else if (str_eq(m, "size") || str_eq(m, "length") || str_eq(m, "count")) && ats.len() == 0 {
        Some(intern_const(it, Scalar::Int(n as i64)))
    } else if str_eq(m, "empty?") && ats.len() == 0 {
        Some(intern_const(it, Scalar::Bool(n == 0)))
    } else if str_eq(m, "at") && ats.len() == 1 {
        match pinned_int(it, ats[0]) {
            Some(i) => {
                let ni = n as i128;
                let r: i128 = if i < 0 { ni + i as i128 } else { i as i128 };
                if 0 <= r && r < ni {
                    Some(es[r as usize])
                } else {
                    None
                }
            },
            None => None,
        }
    } else if str_eq(m, "deconstruct") && ats.len() == 0 {
        Some(rt)
    } else if str_eq(m, "&") || str_eq(m, "intersection") {
        set_tuple_exec(it, &es, ats, SetOp::Intersection)
    } else if str_eq(m, "|") || str_eq(m, "union") {
        set_tuple_exec(it, &es, ats, SetOp::Union)
    } else if str_eq(m, "-") || str_eq(m, "difference") {
        set_tuple_exec(it, &es, ats, SetOp::Difference)
    } else if str_eq(m, "intersect?") {
        match set_values_exec(it, &es, ats, SetOp::Intersection) {
            Some(v) => {
                let _ids = intern_scalars(it, &v);
                Some(intern_const(it, Scalar::Bool(v.len() > 0)))
            },
            None => None,
        }
    } else if str_eq(m, "one?") && ats.len() == 0 {
        match tuple_values_exec(it, &es) {
            Some(v) => {
                let c = truthy_count_exec(&v);
                Some(intern_const(it, Scalar::Bool(c == 1)))
            },
            None => None,
        }
    } else if str_eq(m, "[]") && ats.len() == 1 {
        match pinned_int(it, ats[0]) {
            Some(i) => {
                let ni = n as i128;
                let r: i128 = if i < 0 { ni + i as i128 } else { i as i128 };
                if 0 <= r && r < ni {
                    Some(es[r as usize])
                } else {
                    Some(intern_const(it, Scalar::Nil))
                }
            },
            None => None,
        }
    } else {
        None
    }
}

// --- HashShape projections ---------------------------------------------------

/// The views of a member list.
pub open spec fn mv(ms: Seq<(Scalar, usize)>) -> Seq<(ScalarV, usize)> {
    ms.map_values(|m: (Scalar, usize)| member_view(m))
}

/// The value type a read of `key` gives: the member's value, or `nil` for a
/// missing key.
pub open spec fn read_step(tbl: Seq<TyV>, ms: Seq<(ScalarV, usize)>, key: ScalarV) -> (nat, Seq<TyV>) {
    match find_key(ms, key) {
        Some(j) => (ms[j].1 as nat, tbl),
        None => spec_intern(tbl, cst(ScalarV::Nil)),
    }
}

/// `dig` through a chain of pinned keys: each step reads its key; a
/// `HashShape` goes on with the next key, a `nil` ends the chain, anything
/// else declines.
pub open spec fn s_dig(tbl: Seq<TyV>, ms: Seq<(ScalarV, usize)>, ats: Seq<usize>) -> Option<(nat, Seq<TyV>)>
    decreases ats.len(),
{
    if ats.len() == 0 {
        None
    } else {
        match const_of(tbl, ats[0] as nat) {
            None => None,
            Some(key) => {
                let (v, t1) = read_step(tbl, ms, key);
                if ats.len() == 1 {
                    Some((v, t1))
                } else {
                    match node_at(t1, v) {
                        Some(TyV::HashShape(ms2)) => s_dig(t1, ms2, ats.drop_first()),
                        Some(TyV::Constant(ScalarV::Nil)) => Some((v, t1)),
                        _ => None,
                    }
                }
            },
        }
    }
}

/// The reads of each key in turn.
pub open spec fn read_steps(tbl: Seq<TyV>, ms: Seq<(ScalarV, usize)>, keys: Seq<ScalarV>) -> (Seq<usize>, Seq<TyV>)
    decreases keys.len(),
{
    if keys.len() == 0 {
        (Seq::empty(), tbl)
    } else {
        let (vs, t1) = read_steps(tbl, ms, keys.drop_last());
        let (v, t2) = read_step(t1, ms, keys.last());
        (vs.push(v as usize), t2)
    }
}

/// The members for the keys present, in key order, each once.
pub open spec fn slice_members(ms: Seq<(ScalarV, usize)>, keys: Seq<ScalarV>) -> Seq<(ScalarV, usize)>
    decreases keys.len(),
{
    if keys.len() == 0 {
        Seq::empty()
    } else {
        let out = slice_members(ms, keys.drop_last());
        let k = keys.last();
        if find_key(out, k) is Some {
            out
        } else {
            match find_key(ms, k) {
                Some(j) => out.push(ms[j]),
                None => out,
            }
        }
    }
}

/// The members whose key is none of `keys`, in receiver order.
pub open spec fn except_members(ms: Seq<(ScalarV, usize)>, keys: Seq<ScalarV>) -> Seq<(ScalarV, usize)> {
    ms.filter(|m: (ScalarV, usize)| !keys.contains(m.0))
}

/// The keys and values of an inverted shape: each value, which must be a
/// pinned `Constant` not seen before, becomes a key whose value is the old
/// key.
pub open spec fn invert_pairs(tbl: Seq<TyV>, ms: Seq<(ScalarV, usize)>) -> Option<(Seq<ScalarV>, Seq<ScalarV>)>
    decreases ms.len(),
{
    if ms.len() == 0 {
        Some((Seq::empty(), Seq::empty()))
    } else {
        match invert_pairs(tbl, ms.drop_last()) {
            None => None,
            Some((nks, ovs)) => match const_of(tbl, ms.last().1 as nat) {
                Some(vs) => if nks.contains(vs) {
                    None
                } else {
                    Some((nks.push(vs), ovs.push(ms.last().0)))
                },
                None => None,
            },
        }
    }
}

/// The members of an inverted shape, interning each new value in turn.
pub open spec fn intern_inverted(tbl: Seq<TyV>, nks: Seq<ScalarV>, ovs: Seq<ScalarV>) -> (Seq<(ScalarV, usize)>, Seq<TyV>)
    decreases ovs.len(),
{
    if ovs.len() == 0 || nks.len() != ovs.len() {
        (Seq::empty(), tbl)
    } else {
        let (ms, t1) = intern_inverted(tbl, nks.drop_last(), ovs.drop_last());
        let (id, t2) = spec_intern(t1, cst(ovs.last()));
        (ms.push((nks.last(), id as usize)), t2)
    }
}

/// A static-key read or reshape on a value-pinned `HashShape` receiver `rt`
/// whose arguments have types `ats`; `None` when the receiver is no
/// `HashShape`, a key argument is not pinned, or the call is not one folded
/// here. Keys are compared by `eql?`.
///
/// `[k]` reads the key's value (`nil` when missing); `fetch(k)` the same but
/// declines on a missing key (Ruby raises); `dig(k, …)` reads through a
/// chain; `has_key?` / `key?` / `member?` / `include?` answer presence;
/// `values_at(k, …)` the `Tuple` of reads in argument order; `slice(k, …)`
/// the present members in argument order; `except(k, …)` the other members
/// in receiver order; `invert` the inverted shape, declining unless every
/// value is pinned and distinct.
pub open spec fn s_hash_proj(tbl: Seq<TyV>, rt: nat, m: Seq<char>, ats: Seq<usize>) -> Option<(nat, Seq<TyV>)> {
    match node_at(tbl, rt) {
        Some(TyV::HashShape(ms)) => {
            if (m == "[]"@ || m == "fetch"@) && ats.len() == 1 {
                match const_of(tbl, ats[0] as nat) {
                    None => None,
                    Some(key) => if m == "fetch"@ && find_key(ms, key) is None {
                        None
                    } else {
                        Some(read_step(tbl, ms, key))
                    },
                }
            } else if m == "dig"@ && ats.len() > 0 {
                s_dig(tbl, ms, ats)
            } else if (m == "has_key?"@ || m == "key?"@ || m == "member?"@ || m == "include?"@) && ats.len() == 1 {
                match const_of(tbl, ats[0] as nat) {
                    None => None,
                    Some(key) => Some(spec_intern(tbl, cst(ScalarV::Bool(find_key(ms, key) is Some)))),
                }
            } else if m == "values_at"@ && ats.len() > 0 {
                match consts_of(tbl, ats) {
                    None => None,
                    Some(keys) => {
                        let (vs, t1) = read_steps(tbl, ms, keys);
                        Some(spec_intern(t1, TyV::Tuple(vs)))
                    },
                }
            } else if m == "slice"@ && ats.len() > 0 {
                match consts_of(tbl, ats) {
                    None => None,
                    Some(keys) => Some(spec_intern(tbl, TyV::HashShape(slice_members(ms, keys)))),
                }
            } else if m == "except"@ && ats.len() > 0 {
                match consts_of(tbl, ats) {
                    None => None,
                    Some(keys) => Some(spec_intern(tbl, TyV::HashShape(except_members(ms, keys)))),
                }
            } else if m == "invert"@ && ats.len() == 0 {
                match invert_pairs(tbl, ms) {
                    None => None,
                    Some((nks, ovs)) => {
                        let (nm, t1) = intern_inverted(tbl, nks, ovs);
                        Some(spec_intern(t1, TyV::HashShape(nm)))
                    },
                }
            } else {
                None
            }
        },
        _ => None,
    }
}

/// A copy of a member list.
fn members_copy(ms: &Vec<(Scalar, usize)>) -> (r: Vec<(Scalar, usize)>)
    ensures
        mv(r@) == mv(ms@),
{
    let mut out: Vec<(Scalar, usize)> = Vec::new();
    let mut k: usize = 0;
    while k < ms.len()
        invariant
            0 <= k <= ms@.len(),
            mv(out@) == mv(ms@).take(k as int),
        decreases ms@.len() - k,
    {
        let ghost o0 = mv(out@);
        out.push((scalar_copy(&ms[k].0), ms[k].1));
        k = k + 1;
        assert(mv(out@) =~= mv(ms@).take(k as int)) by {
            assert(mv(out@) =~= o0.push(member_view(ms@[k - 1])));
            assert(mv(ms@).take(k as int) =~= mv(ms@).take(k - 1).push(mv(ms@)[k - 1]));
        }
    }
    assert(mv(ms@).take(ms@.len() as int) =~= mv(ms@));
    out
}

/// The first position of `key` among the members, if any.
fn find_member(ms: &Vec<(Scalar, usize)>, key: &Scalar) -> (r: Option<usize>)
    ensures
        match r {
            Some(j) => find_key(mv(ms@), key@) == Some(j as int) && j < ms@.len(),
            None => find_key(mv(ms@), key@) is None,
        },
{
    let ghost m = mv(ms@);
    let mut j: usize = 0;
    while j < ms.len()
        invariant
            0 <= j <= ms@.len(),
            m == mv(ms@),
            find_key(m.take(j as int), key@) is None,
        decreases ms@.len() - j,
    {
        proof {
            assert(m.take(j as int + 1).drop_last() =~= m.take(j as int));
        }
        if scalar_eq(&ms[j].0, key) {
            proof {
                crate::flow::lemma_find_key_prefix(m, key@, j as int);
            }
            return Some(j);
        }
        j = j + 1;
    }
    assert(m.take(m.len() as int) =~= m);
    None
}

/// Every member's value is an id below `bound`.
pub open spec fn members_below(ms: Seq<(ScalarV, usize)>, bound: int) -> bool {
    forall|k: int| 0 <= k < ms.len() ==> ms[k].1 < bound
}

/// The value type a read of `key` gives.
fn read_step_exec(it: &mut Interner, ms: &Vec<(Scalar, usize)>, key: &Scalar) -> (r: usize)
    requires
        table_wf(old(it)@),
        members_below(mv(ms@), old(it)@.len() as int),
    ensures
        (r as nat, final(it)@) == read_step(old(it)@, mv(ms@), key@),
        table_wf(final(it)@),
        extends(old(it)@, final(it)@),
        r < final(it)@.len(),
{
    match find_member(ms, key) {
        Some(j) => {
            assert(mv(ms@)[j as int].1 == ms@[j as int].1);
            ms[j].1
        },
        None => intern_const(it, Scalar::Nil),
    }
}

/// `dig` through the keys `ats[k..]`.
fn dig_exec(it: &mut Interner, ms: &Vec<(Scalar, usize)>, ats: &Vec<usize>, k: usize) -> (r: Option<usize>)
    requires
        table_wf(old(it)@),
        k <= ats@.len(),
        members_below(mv(ms@), old(it)@.len() as int),
        forall|j: int| 0 <= j < ats@.len() ==> ats@[j] < old(it)@.len(),
    ensures
        proj_ok(r, s_dig(old(it)@, mv(ms@), ats@.subrange(k as int, ats@.len() as int)), old(it)@, final(it)@),
    decreases ats@.len() - k,
{
    let ghost rest = ats@.subrange(k as int, ats@.len() as int);
    if k >= ats.len() {
        return None;
    }
    assert(rest[0] == ats@[k as int]);
    let key = match it.get(ats[k]) {
        TyNode::Constant(s) => scalar_copy(s),
        _ => {
            return None;
        },
    };
    let v = read_step_exec(it, ms, &key);
    if ats.len() - k == 1 {
        return Some(v);
    }
    proof {
        assert(rest.drop_first() =~= ats@.subrange(k as int + 1, ats@.len() as int));
    }
    let next = match it.get(v) {
        TyNode::HashShape(ms2) => Some(members_copy(ms2)),
        TyNode::Constant(Scalar::Nil) => None,
        _ => {
            return None;
        },
    };
    match next {
        Some(ms2) => {
            proof {
                assert(TyV::HashShape(mv(ms2@))->HashShape_0 == mv(ms2@));
                assert(crate::types::ty_children_below(it@[v as int], v as int));
            }
            dig_exec(it, &ms2, ats, k + 1)
        },
        None => Some(v),
    }
}

/// The reads of each key in turn.
fn read_steps_exec(it: &mut Interner, ms: &Vec<(Scalar, usize)>, keys: &Vec<Scalar>) -> (r: Vec<usize>)
    requires
        table_wf(old(it)@),
        members_below(mv(ms@), old(it)@.len() as int),
    ensures
        (r@, final(it)@) == read_steps(old(it)@, mv(ms@), scalars_view(keys@)),
        table_wf(final(it)@),
        extends(old(it)@, final(it)@),
        forall|j: int| 0 <= j < r@.len() ==> r@[j] < final(it)@.len(),
{
    let ghost t0 = it@;
    let ghost kv = scalars_view(keys@);
    let mut vs: Vec<usize> = Vec::new();
    let mut k: usize = 0;
    assert(kv.take(0) =~= Seq::<ScalarV>::empty());
    while k < keys.len()
        invariant
            0 <= k <= keys@.len(),
            t0 == old(it)@,
            kv == scalars_view(keys@),
            table_wf(it@),
            extends(t0, it@),
            members_below(mv(ms@), it@.len() as int),
            (vs@, it@) == read_steps(t0, mv(ms@), kv.take(k as int)),
            forall|j: int| 0 <= j < vs@.len() ==> vs@[j] < it@.len(),
        decreases keys@.len() - k,
    {
        proof {
            assert(kv.take(k as int + 1).drop_last() =~= kv.take(k as int));
            assert(kv.take(k as int + 1).last() == keys@[k as int]@);
        }
        let v = read_step_exec(it, ms, &keys[k]);
        vs.push(v);
        k = k + 1;
    }
    assert(kv.take(keys@.len() as int) =~= kv);
    vs
}

/// The members for the keys present, in key order, each once.
fn slice_exec(ms: &Vec<(Scalar, usize)>, keys: &Vec<Scalar>) -> (r: Vec<(Scalar, usize)>)
    ensures
        mv(r@) == slice_members(mv(ms@), scalars_view(keys@)),
{
    let ghost kv = scalars_view(keys@);
    let mut out: Vec<(Scalar, usize)> = Vec::new();
    let mut k: usize = 0;
    assert(kv.take(0) =~= Seq::<ScalarV>::empty());
    assert(mv(out@) =~= Seq::<(ScalarV, usize)>::empty());
    while k < keys.len()
        invariant
            0 <= k <= keys@.len(),
            kv == scalars_view(keys@),
            mv(out@) == slice_members(mv(ms@), kv.take(k as int)),
        decreases keys@.len() - k,
    {
        proof {
            assert(kv.take(k as int + 1).drop_last() =~= kv.take(k as int));
            assert(kv.take(k as int + 1).last() == keys@[k as int]@);
        }
        if find_member(&out, &keys[k]).is_none() {
            match find_member(ms, &keys[k]) {
                Some(j) => {
                    let ghost o0 = mv(out@);
                    out.push((scalar_copy(&ms[j].0), ms[j].1));
                    assert(mv(out@) =~= o0.push(mv(ms@)[j as int]));
                },
                None => {},
            }
        }
        k = k + 1;
    }
    assert(kv.take(keys@.len() as int) =~= kv);
    out
}

/// The members whose key is none of `keys`, in receiver order.
fn except_exec(ms: &Vec<(Scalar, usize)>, keys: &Vec<Scalar>) -> (r: Vec<(Scalar, usize)>)
    ensures
        mv(r@) == except_members(mv(ms@), scalars_view(keys@)),
{
    let ghost kv = scalars_view(keys@);
    let ghost m = mv(ms@);
    let ghost p = |e: (ScalarV, usize)| !kv.contains(e.0);
    let mut out: Vec<(Scalar, usize)> = Vec::new();
    let mut k: usize = 0;
    assert(m.take(0) =~= Seq::<(ScalarV, usize)>::empty());
    assert(mv(out@) =~= Seq::<(ScalarV, usize)>::empty());
    while k < ms.len()
        invariant
            0 <= k <= ms@.len(),
            kv == scalars_view(keys@),
            m == mv(ms@),
            p == (|e: (ScalarV, usize)| !kv.contains(e.0)),
            mv(out@) == m.take(k as int).filter(p),
        decreases ms@.len() - k,
    {
        proof {
            assert(m.take(k as int + 1).drop_last() =~= m.take(k as int));
            assert(m.take(k as int + 1).last() == m[k as int]);
            reveal(Seq::filter);
        }
        if !contains_scalar(keys, &ms[k].0) {
            let ghost o0 = mv(out@);
            out.push((scalar_copy(&ms[k].0), ms[k].1));
            assert(mv(out@) =~= o0.push(m[k as int]));
        }
        k = k + 1;
    }
    assert(m.take(ms@.len() as int) =~= m);
    out
}

/// A `None` inversion stays `None` as more members come.
proof fn lemma_invert_none(tbl: Seq<TyV>, ms: Seq<(ScalarV, usize)>, k: int)
    requires
        0 <= k <= ms.len(),
        invert_pairs(tbl, ms.take(k)) is None,
    ensures
        invert_pairs(tbl, ms) is None,
    decreases ms.len() - k,
{
    if k < ms.len() {
        assert(ms.take(k + 1).drop_last() =~= ms.take(k));
        lemma_invert_none(tbl, ms, k + 1);
    } else {
        assert(ms.take(k) =~= ms);
    }
}

/// The inverted shape of a member list, when every value is pinned and
/// distinct.
fn invert_exec(it: &mut Interner, ms: &Vec<(Scalar, usize)>) -> (r: Option<usize>)
    requires
        table_wf(old(it)@),
        members_below(mv(ms@), old(it)@.len() as int),
    ensures
        proj_ok(r, match invert_pairs(old(it)@, mv(ms@)) {
            None => None,
            Some((nks, ovs)) => {
                let (nm, t1) = intern_inverted(old(it)@, nks, ovs);
                Some(spec_intern(t1, TyV::HashShape(nm)))
            },
        }, old(it)@, final(it)@),
{
    let ghost m = mv(ms@);
    let mut nks: Vec<Scalar> = Vec::new();
    let mut ovs: Vec<Scalar> = Vec::new();
    let mut k: usize = 0;
    assert(m.take(0) =~= Seq::<(ScalarV, usize)>::empty());
    assert(scalars_view(nks@) =~= Seq::<ScalarV>::empty());
    assert(scalars_view(ovs@) =~= Seq::<ScalarV>::empty());
    while k < ms.len()
        invariant
            0 <= k <= ms@.len(),
            m == mv(ms@),
            table_wf(it@),
            members_below(m, it@.len() as int),
            nks@.len() == k,
            ovs@.len() == k,
            invert_pairs(it@, m.take(k as int)) == Some((scalars_view(nks@), scalars_view(ovs@))),
        decreases ms@.len() - k,
    {
        proof {
            assert(m.take(k as int + 1).drop_last() =~= m.take(k as int));
            assert(m.take(k as int + 1).last() == m[k as int]);
        }
        let vs = match it.get(ms[k].1) {
            TyNode::Constant(s) => scalar_copy(s),
            _ => {
                proof {
                    lemma_invert_none(it@, m, k as int + 1);
                }
                return None;
            },
        };
        if contains_scalar(&nks, &vs) {
            proof {
                lemma_invert_none(it@, m, k as int + 1);
            }
            return None;
        }
        let ghost n0 = scalars_view(nks@);
        let ghost o0 = scalars_view(ovs@);
        nks.push(vs);
        ovs.push(scalar_copy(&ms[k].0));
        assert(scalars_view(nks@) =~= n0.push(vs@));
        assert(scalars_view(ovs@) =~= o0.push(m[k as int].0));
        k = k + 1;
    }
    assert(m.take(ms@.len() as int) =~= m);
    let ghost t0 = it@;
    let ghost nv = scalars_view(nks@);
    let ghost ov = scalars_view(ovs@);
    let mut out: Vec<(Scalar, usize)> = Vec::new();
    let mut j: usize = 0;
    assert(nv.take(0) =~= Seq::<ScalarV>::empty());
    assert(ov.take(0) =~= Seq::<ScalarV>::empty());
    assert(mv(out@) =~= Seq::<(ScalarV, usize)>::empty());
    while j < ovs.len()
        invariant
            0 <= j <= ovs@.len(),
            nks@.len() == ovs@.len(),
            nv == scalars_view(nks@),
            ov == scalars_view(ovs@),
            table_wf(it@),
            extends(t0, it@),
            (mv(out@), it@) == intern_inverted(t0, nv.take(j as int), ov.take(j as int)),
            members_below(mv(out@), it@.len() as int),
        decreases ovs@.len() - j,
    {
        proof {
            assert(nv.take(j as int + 1).drop_last() =~= nv.take(j as int));
            assert(ov.take(j as int + 1).drop_last() =~= ov.take(j as int));
            assert(nv.take(j as int + 1).last() == nks@[j as int]@);
            assert(ov.take(j as int + 1).last() == ovs@[j as int]@);
        }
        let id = intern_const(it, scalar_copy(&ovs[j]));
        let ghost o0 = mv(out@);
        out.push((scalar_copy(&nks[j]), id));
        assert(mv(out@) =~= o0.push((nks@[j as int]@, id)));
        j = j + 1;
    }
    assert(nv.take(nks@.len() as int) =~= nv);
    assert(ov.take(ovs@.len() as int) =~= ov);
    proof {
        assert(TyV::HashShape(mv(out@))->HashShape_0 == mv(out@));
    }
    Some(it.intern(TyNode::HashShape(out)))
}

/// A static-key read or reshape on a value-pinned `HashShape` receiver.
pub fn hash_projection(it: &mut Interner, rt: usize, m: &str, ats: &Vec<usize>) -> (r: Option<usize>)
    requires
        table_wf(old(it)@),
        rt < old(it)@.len(),
        forall|k: int| 0 <= k < ats@.len() ==> ats@[k] < old(it)@.len(),
    ensures
        proj_ok(r, s_hash_proj(old(it)@, rt as nat, m@, ats@), old(it)@, final(it)@),
{
    let ms = match it.get(rt) {
        TyNode::HashShape(ms) => members_copy(ms),
        _ => {
            return None;
        },
    };
    proof {
        assert(TyV::HashShape(mv(ms@))->HashShape_0 == mv(ms@));
        assert(crate::types::ty_children_below(it@[rt as int], rt as int));
    }
    if (str_eq(m, "[]") || str_eq(m, "fetch")) && ats.len() == 1 {
        let key = match it.get(ats[0]) {
            TyNode::Constant(s) => scalar_copy(s),
            _ => {
                return None;
            },
        };
        if str_eq(m, "fetch") && find_member(&ms, &key).is_none() {
            return None;
        }
        Some(read_step_exec(it, &ms, &key))
    } else if str_eq(m, "dig") && ats.len() > 0 {
        proof {
            assert(ats@.subrange(0, ats@.len() as int) =~= ats@);
        }
        dig_exec(it, &ms, ats, 0)
    } else if (str_eq(m, "has_key?") || str_eq(m, "key?") || str_eq(m, "member?") || str_eq(m, "include?")) && ats.len() == 1 {
        let key = match it.get(ats[0]) {
            TyNode::Constant(s) => scalar_copy(s),
            _ => {
                return None;
            },
        };
        let present = find_member(&ms, &key).is_some();
        Some(intern_const(it, Scalar::Bool(present)))
    } else if str_eq(m, "values_at") && ats.len() > 0 {
        match consts_of_ids(it, ats) {
            None => None,
            Some(keys) => {
                let vs = read_steps_exec(it, &ms, &keys);
                Some(it.intern(TyNode::Tuple(vs)))
            },
        }
    } else if str_eq(m, "slice") && ats.len() > 0 {
        match consts_of_ids(it, ats) {
            None => None,
            Some(keys) => {
                let out = slice_exec(&ms, &keys);
                proof {
                    lemma_slice_below(mv(ms@), scalars_view(keys@), rt as int);
                    assert(TyV::HashShape(mv(out@))->HashShape_0 == mv(out@));
                }
                Some(it.intern(TyNode::HashShape(out)))
            },
        }
    } else if str_eq(m, "except") && ats.len() > 0 {
        match consts_of_ids(it, ats) {
            None => None,
            Some(keys) => {
                let out = except_exec(&ms, &keys);
                proof {
                    lemma_except_below(mv(ms@), scalars_view(keys@), rt as int);
                    assert(TyV::HashShape(mv(out@))->HashShape_0 == mv(out@));
                }
                Some(it.intern(TyNode::HashShape(out)))
            },
        }
    } else if str_eq(m, "invert") && ats.len() == 0 {
        invert_exec(it, &ms)
    } else {
        None
    }
}

/// The members a slice keeps stay below any bound the receiver's do.
proof fn lemma_slice_below(ms: Seq<(ScalarV, usize)>, keys: Seq<ScalarV>, bound: int)
    requires
        members_below(ms, bound),
    ensures
        members_below(slice_members(ms, keys), bound),
    decreases keys.len(),
{
    if keys.len() > 0 {
        lemma_slice_below(ms, keys.drop_last(), bound);
        crate::flow::lemma_find_key_range(ms, keys.last());
    }
}

/// The members an exception keeps stay below any bound the receiver's do.
proof fn lemma_except_below(ms: Seq<(ScalarV, usize)>, keys: Seq<ScalarV>, bound: int)
    requires
        members_below(ms, bound),
    ensures
        members_below(except_members(ms, keys), bound),
{
    let p = |m: (ScalarV, usize)| !keys.contains(m.0);
    assert forall|k: int| 0 <= k < ms.filter(p).len() implies ms.filter(p)[k].1 < bound by {
        let e = ms.filter(p)[k];
        assert(ms.filter(p).contains(e));
        ms.lemma_filter_contains_rev(p, e);
        let i = choose|i: int| 0 <= i < ms.len() && ms[i] == e;
        assert(ms[i].1 < bound);
    }
}

// --- The dispatch cascade ----------------------------------------------------

/// The fold tier: a call on a pinned receiver with pinned arguments gives
/// its pinned result, when the fold core has one or, for a call safe to
/// route, when the sidecar answering through `fo` has one.
pub open spec fn s_fold_tier(fo: FoldOracle, tbl: Seq<TyV>, rt: nat, m: Seq<char>, ats: Seq<usize>) -> Option<ScalarV> {
    match (const_of(tbl, rt), consts_of(tbl, ats)) {
        (Some(s), Some(cs)) => spec_fold_routed(s, m, cs, fo),
        _ => None,
    }
}

/// The type of a block-free call `m` on a receiver of type `rt` with
/// arguments of types `ats`, and the table after it: the fold of pinned
/// values (with the sidecar `fo` behind the core), else a `Tuple`
/// projection, else a `HashShape` projection, else `Dynamic[top]`.
pub open spec fn s_dispatch(fo: FoldOracle, tbl: Seq<TyV>, rt: nat, m: Seq<char>, ats: Seq<usize>) -> (nat, Seq<TyV>) {
    match s_fold_tier(fo, tbl, rt, m, ats) {
        Some(v) => spec_intern(tbl, cst(v)),
        None => match s_tuple_proj(tbl, rt, m, ats) {
            Some(x) => x,
            None => match s_hash_proj(tbl, rt, m, ats) {
                Some(x) => x,
                None => (untyped_id(), tbl),
            },
        },
    }
}

/// The type of a block-free call `m` on a receiver of type `rt` with
/// arguments of types `ats`.
pub fn dispatch<F: RubyFolder>(it: &mut Interner, rt: usize, m: &str, ats: &Vec<usize>, folder: Option<&F>) -> (r: usize)
    requires
        table_wf(old(it)@),
        rt < old(it)@.len(),
        forall|k: int| 0 <= k < ats@.len() ==> ats@[k] < old(it)@.len(),
    ensures
        (r as nat, final(it)@) == s_dispatch(folder_oracle(folder), old(it)@, rt as nat, m@, ats@),
        table_wf(final(it)@),
        extends(old(it)@, final(it)@),
        r < final(it)@.len(),
{
    let folded: Option<Scalar> = match it.get(rt) {
        TyNode::Constant(s) => {
            let rs = scalar_copy(s);
            match consts_of_ids(it, ats) {
                Some(cs) => fold_with_folder(folder, &rs, m, cs.as_slice()),
                None => None,
            }
        },
        _ => None,
    };
    match folded {
        Some(v) => {
            return intern_const(it, v);
        },
        None => {},
    }
    match tuple_projection(it, rt, m, ats) {
        Some(x) => {
            return x;
        },
        None => {},
    }
    match hash_projection(it, rt, m, ats) {
        Some(x) => x,
        None => 0,
    }
}

// --- Laws of the set operations ----------------------------------------------

/// No element occurs twice.
pub open spec fn no_dups(x: Seq<ScalarV>) -> bool {
    forall|i: int, j: int| 0 <= i < j < x.len() ==> x[i] != x[j]
}

/// `dedup` keeps exactly the elements of its input, each once.
proof fn lemma_dedup(x: Seq<ScalarV>)
    ensures
        no_dups(dedup(x)),
        forall|e: ScalarV| dedup(x).contains(e) <==> x.contains(e),
    decreases x.len(),
{
    if x.len() > 0 {
        lemma_dedup(x.drop_last());
        let p = dedup(x.drop_last());
        assert forall|e: ScalarV| dedup(x).contains(e) <==> x.contains(e) by {
            if x.contains(e) {
                let k = choose|k: int| 0 <= k < x.len() && x[k] == e;
                if k < x.len() - 1 {
                    assert(x.drop_last()[k] == e);
                    assert(x.drop_last().contains(e));
                    assert(p.contains(e));
                    let j = choose|j: int| 0 <= j < p.len() && p[j] == e;
                    if !p.contains(x.last()) {
                        assert(p.push(x.last())[j] == e);
                    }
                } else {
                    assert(e == x.last());
                    if !p.contains(e) {
                        assert(p.push(e)[p.len() as int] == e);
                    }
                }
            }
            if dedup(x).contains(e) {
                if p.contains(e) {
                    assert(x.drop_last().contains(e));
                    let k = choose|k: int| 0 <= k < x.drop_last().len() && x.drop_last()[k] == e;
                    assert(x[k] == e);
                } else {
                    let k = choose|k: int| 0 <= k < dedup(x).len() && dedup(x)[k] == e;
                    if k < p.len() {
                        assert(p[k] == e);
                    } else {
                        assert(x[x.len() - 1] == e);
                    }
                }
            }
        }
    }
}

/// `Array#&` and `Array#|` never repeat an element: the intersection holds
/// exactly the receiver's elements also in the argument, the union exactly
/// the elements of either; `Array#-` holds exactly the receiver's elements
/// absent from the argument, in receiver order with their repeats.
pub proof fn lemma_set_operations(a: Seq<ScalarV>, b: Seq<ScalarV>)
    ensures
        no_dups(set_apply(SetOp::Intersection, a, b)),
        forall|e: ScalarV| set_apply(SetOp::Intersection, a, b).contains(e) <==> (a.contains(e) && b.contains(e)),
        no_dups(set_apply(SetOp::Union, a, b)),
        forall|e: ScalarV| set_apply(SetOp::Union, a, b).contains(e) <==> (a.contains(e) || b.contains(e)),
        forall|e: ScalarV| set_apply(SetOp::Difference, a, b).contains(e) <==> (a.contains(e) && !b.contains(e)),
        set_apply(SetOp::Difference, a, b) == a.filter(|s: ScalarV| !b.contains(s)),
{
    let pin = |s: ScalarV| b.contains(s);
    let pout = |s: ScalarV| !b.contains(s);
    lemma_dedup(a.filter(pin));
    lemma_dedup(a + b);
    assert forall|e: ScalarV| a.filter(pin).contains(e) <==> (a.contains(e) && b.contains(e)) by {
        if a.filter(pin).contains(e) {
            a.lemma_filter_contains_rev(pin, e);
            let k = choose|k: int| 0 <= k < a.filter(pin).len() && a.filter(pin)[k] == e;
            a.filter_lemma(pin);
            assert(pin(a.filter(pin)[k]));
        }
        if a.contains(e) && b.contains(e) {
            let k = choose|k: int| 0 <= k < a.len() && a[k] == e;
            a.filter_lemma(pin);
            assert(a.filter(pin).contains(a[k]));
        }
    }
    assert forall|e: ScalarV| (a + b).contains(e) <==> (a.contains(e) || b.contains(e)) by {
        if (a + b).contains(e) {
            let k = choose|k: int| 0 <= k < (a + b).len() && (a + b)[k] == e;
            if k < a.len() {
                assert(a[k] == e);
            } else {
                assert(b[k - a.len()] == e);
            }
        }
        if a.contains(e) {
            let k = choose|k: int| 0 <= k < a.len() && a[k] == e;
            assert((a + b)[k] == e);
        }
        if b.contains(e) {
            let k = choose|k: int| 0 <= k < b.len() && b[k] == e;
            assert((a + b)[a.len() + k] == e);
        }
    }
    assert forall|e: ScalarV| a.filter(pout).contains(e) <==> (a.contains(e) && !b.contains(e)) by {
        if a.filter(pout).contains(e) {
            a.lemma_filter_contains_rev(pout, e);
            let k = choose|k: int| 0 <= k < a.filter(pout).len() && a.filter(pout)[k] == e;
            a.filter_lemma(pout);
            assert(pout(a.filter(pout)[k]));
        }
        if a.contains(e) && !b.contains(e) {
            let k = choose|k: int| 0 <= k < a.len() && a[k] == e;
            a.filter_lemma(pout);
            assert(a.filter(pout).contains(a[k]));
        }
    }
}

} // verus!
