//! Possible-nil receivers: which calls have a bare-local receiver that is
//! certainly `C | nil` at the call and unguarded since it was bound.
//!
//! The walk threads, straight-line and in source order, the type bindings
//! of the current scope, the nilable locals (each with the class `C` of its
//! non-nil value), and the locals bound to an `Array.new` array the typer
//! keeps as a bare `Array` instance. Any construct it does not model forgets
//! every nilable local; a block body starts with none; a guard or a
//! safe-navigation call on a local forgets that local.
use vstd::prelude::*;
use crate::ast::{Ast, Node, Span, span_of, all_below};
use crate::env::TypeEnv;
use crate::names::{NameMap, NameSet};
use crate::scalar::ScalarV;
use crate::text::str_eq;
use crate::types::{CoreClass, TyNode, TyV, Interner, table_wf, untyped_id, class_name};
use crate::flow::{
    Write, writes_view, writes_upto, arg_writes_all, mutates_view, spec_widen, widen_flow_writes,
    span_within, s_type_of, type_of, env_ok, extends, bind_upto, tuple_elems, bind_targets,
    lemma_children_below, lemma_env_ok_grows, collect_flow_writes, indexed_flow_writes,
};

verus! {

/// The largest `Array.new` size the typer may still keep as a literal
/// `Tuple`; a larger constant size, or none at all, gives a bare `Array`.
pub const ARRAY_NEW_TUPLE_LIMIT: i64 = 16;

/// What the walk threads: the type bindings of the current scope, the type
/// table, the nilable locals with their non-nil class, the locals of
/// `Array.new` provenance, and the class recorded at each call id so far.
#[verifier::ext_equal]
pub struct NilSt {
    pub env: Map<Seq<char>, nat>,
    pub tbl: Seq<TyV>,
    pub nil: Map<Seq<char>, Seq<char>>,
    pub prov: Set<Seq<char>>,
    pub out: Seq<Option<Seq<char>>>,
}

/// The per-program inputs of the walk: every write, and the certain
/// nilable method returns as `(receiver class, method, non-nil class)`.
pub struct NilCtx {
    pub writes: Seq<(Span, Seq<char>)>,
    pub returns: Seq<(Seq<char>, Seq<char>, Seq<char>)>,
}

/// A call that narrows `nil` away from its receiver.
pub open spec fn is_nil_guard(m: Seq<char>) -> bool {
    m == "nil?"@ || m == "present?"@ || m == "blank?"@ || m == "presence"@
}

/// The locals written inside `span`.
pub open spec fn written_within(writes: Seq<(Span, Seq<char>)>, span: Span) -> Set<Seq<char>> {
    Set::new(|k: Seq<char>| exists|j: int| 0 <= j < writes.len() && writes[j].1 == k && span_within(writes[j].0, span))
}

/// The names a multi-write binds.
pub open spec fn target_names(targets: Seq<String>) -> Set<Seq<char>> {
    Set::new(|k: Seq<char>| exists|j: int| 0 <= j < targets.len() && targets[j]@ == k)
}

/// The class of the values of a non-constant type: `Array` for a `Tuple`,
/// `Hash` for a `HashShape`, the class itself for a bare instance; nothing
/// for `Dynamic[top]`.
pub open spec fn class_of(tbl: Seq<TyV>, t: nat) -> Option<Seq<char>> {
    if t < tbl.len() {
        match tbl[t as int] {
            TyV::Tuple(_) => Some("Array"@),
            TyV::HashShape(_) => Some("Hash"@),
            TyV::Nominal(c) => Some(class_name(c)),
            _ => None,
        }
    } else {
        None
    }
}

/// Whether `t` is a value-pinned `Constant`.
pub open spec fn is_constant_ty(tbl: Seq<TyV>, t: nat) -> bool {
    t < tbl.len() && tbl[t as int] is Constant
}

/// Whether `t` is an integer constant above the tuple limit.
pub open spec fn is_big_size(tbl: Seq<TyV>, t: nat) -> bool {
    t < tbl.len() && (tbl[t as int] matches TyV::Constant(ScalarV::Int(n)) && n > ARRAY_NEW_TUPLE_LIMIT)
}

/// The non-nil class of the first entry for `(cls, m)` among the certain
/// nilable returns, if any.
pub open spec fn return_arm(rets: Seq<(Seq<char>, Seq<char>, Seq<char>)>, cls: Seq<char>, m: Seq<char>) -> Option<Seq<char>>
    decreases rets.len(),
{
    if rets.len() == 0 {
        None
    } else if rets[0].0 == cls && rets[0].1 == m {
        Some(rets[0].2)
    } else {
        return_arm(rets.drop_first(), cls, m)
    }
}

/// The non-nil class of `Regexp.last_match` with arguments `args`: a
/// `MatchData` with none, a `String` with one plain argument; a splat or
/// more arguments decline.
pub open spec fn last_match_arm(nodes: Seq<Node>, args: Seq<usize>) -> Option<Seq<char>> {
    if args.len() == 0 {
        Some("MatchData"@)
    } else if args.len() == 1 && args[0] < nodes.len() {
        if nodes[args[0] as int] is Other || nodes[args[0] as int] is Statements {
            None
        } else {
            Some("String"@)
        }
    } else {
        None
    }
}

/// Whether `rhs` is an `Array.new` the typer keeps as a bare `Array`: no
/// size argument, or a first argument that types to an integer constant
/// above the tuple limit.
pub open spec fn s_array_new_prov(nodes: Seq<Node>, rhs: int, env: Map<Seq<char>, nat>, tbl: Seq<TyV>) -> (bool, Seq<TyV>) {
    if 0 <= rhs < nodes.len() {
        match nodes[rhs] {
            Node::Call { receiver: Some(recv), method, args, .. } => if method@ == "new"@ && recv < rhs
                && (nodes[recv as int] matches Node::ConstantRead { name, .. } && name@ == "Array"@) {
                if args@.len() == 0 {
                    (true, tbl)
                } else if args@[0] < rhs {
                    let (ft, t1) = s_type_of(nodes, args@[0] as int, env, tbl);
                    (is_big_size(t1, ft), t1)
                } else {
                    (false, tbl)
                }
            } else {
                (false, tbl)
            },
            _ => (false, tbl),
        }
    } else {
        (false, tbl)
    }
}

/// The non-nil class of a nilable value, if `value` is one of the modelled
/// sources: `Regexp.last_match`; a one-`Range` slice `[]` of a `String`
/// value; the same slice of an `Array` value of `Array.new` provenance (a
/// local marked so, or an `Array.new` call itself); or a method whose certain
/// nilable return the context lists for the receiver's class. A receiver
/// that types to a `Constant`, or to nothing known, declines.
pub open spec fn s_nil_source(nodes: Seq<Node>, value: int, env: Map<Seq<char>, nat>, prov: Set<Seq<char>>, tbl: Seq<TyV>, rets: Seq<(Seq<char>, Seq<char>, Seq<char>)>) -> (Option<Seq<char>>, Seq<TyV>) {
    if 0 <= value < nodes.len() {
        match nodes[value] {
            Node::Call { receiver: Some(recv), method, args, block_body, .. } => if block_body@.len() == 0
                && recv < value && all_below(args@, value) {
                if method@ == "last_match"@ && (nodes[recv as int] matches Node::ConstantRead { name, .. } && name@ == "Regexp"@) {
                    (last_match_arm(nodes, args@), tbl)
                } else {
                    let (rt, t1) = s_type_of(nodes, recv as int, env, tbl);
                    if is_constant_ty(t1, rt) {
                        (None, t1)
                    } else {
                        match class_of(t1, rt) {
                            None => (None, t1),
                            Some(cls) => {
                                let range_slice = method@ == "[]"@ && args@.len() == 1 && nodes[args@[0] as int] is Range;
                                if range_slice && cls == "String"@ {
                                    (Some("String"@), t1)
                                } else if range_slice && cls == "Array"@ {
                                    match nodes[recv as int] {
                                        Node::LocalVariableRead { name, .. } => (if prov.contains(name@) { Some("Array"@) } else { None }, t1),
                                        _ => {
                                            let (p, t2) = s_array_new_prov(nodes, recv as int, env, t1);
                                            (if p { Some("Array"@) } else { None }, t2)
                                        },
                                    }
                                } else {
                                    (return_arm(rets, cls, method@), t1)
                                }
                            },
                        }
                    }
                }
            } else {
                (None, tbl)
            },
            _ => (None, tbl),
        }
    } else {
        (None, tbl)
    }
}

/// Walk a list of statements in turn.
pub open spec fn n_list(nodes: Seq<Node>, ids: Seq<usize>, bound: int, st: NilSt, ctx: NilCtx) -> NilSt
    decreases bound, 3int, ids.len(),
{
    if ids.len() == 0 {
        st
    } else {
        let s1 = n_list(nodes, ids.drop_last(), bound, st, ctx);
        if ids.last() < bound {
            n_stmt(nodes, ids.last() as int, s1, ctx)
        } else {
            s1
        }
    }
}

/// Walk a list of argument expressions in turn.
pub open spec fn n_args(nodes: Seq<Node>, ids: Seq<usize>, bound: int, st: NilSt, ctx: NilCtx) -> NilSt
    decreases bound, 3int, ids.len(),
{
    if ids.len() == 0 {
        st
    } else {
        let s1 = n_args(nodes, ids.drop_last(), bound, st, ctx);
        if ids.last() < bound {
            n_expr(nodes, ids.last() as int, s1, ctx)
        } else {
            s1
        }
    }
}

/// One statement's effect. A local write walks its value, then binds the
/// local: nilable with the value's non-nil class when the value is a
/// modelled source (else not nilable), of `Array.new` provenance when the
/// value is one, and typed as the value. A multi-write binds its targets
/// as neither; a compound write makes its target untyped and neither. A
/// call is walked as an expression; a `def`, `class` or `module` body is
/// walked from empty state without touching the enclosing one; any other
/// statement widens the locals written inside it, drops their provenance,
/// and forgets every nilable local.
pub open spec fn n_stmt(nodes: Seq<Node>, id: int, st: NilSt, ctx: NilCtx) -> NilSt
    decreases id + 1, 2int, 0nat,
{
    if id < 0 || id >= nodes.len() {
        st
    } else {
        match nodes[id] {
            Node::Statements { body, .. } => if all_below(body@, id) {
                n_list(nodes, body@, id, st, ctx)
            } else {
                st
            },
            Node::LocalVariableWrite { name, value, .. } => if value < id {
                let s1 = n_expr(nodes, value as int, st, ctx);
                let (src, t1) = s_nil_source(nodes, value as int, s1.env, s1.prov, s1.tbl, ctx.returns);
                let (p, t2) = s_array_new_prov(nodes, value as int, s1.env, t1);
                let (vt, t3) = s_type_of(nodes, value as int, s1.env, t2);
                NilSt {
                    env: s1.env.insert(name@, vt),
                    tbl: t3,
                    nil: match src {
                        Some(c) => s1.nil.insert(name@, c),
                        None => s1.nil.remove(name@),
                    },
                    prov: if p { s1.prov.insert(name@) } else { s1.prov.remove(name@) },
                    out: s1.out,
                }
            } else {
                st
            },
            Node::MultiWrite { targets, value, .. } => if value < id {
                let s1 = n_expr(nodes, value as int, st, ctx);
                let (t, t1) = s_type_of(nodes, value as int, s1.env, s1.tbl);
                NilSt {
                    env: bind_upto(targets@, targets@.len() as int, tuple_elems(t1, t, targets@.len() as int), s1.env),
                    tbl: t1,
                    nil: s1.nil.remove_keys(target_names(targets@)),
                    prov: s1.prov.difference(target_names(targets@)),
                    out: s1.out,
                }
            } else {
                st
            },
            Node::LocalVariableOpWrite { name, .. } => NilSt {
                env: st.env.insert(name@, untyped_id()),
                tbl: st.tbl,
                nil: st.nil.remove(name@),
                prov: st.prov.remove(name@),
                out: st.out,
            },
            Node::Call { .. } => n_expr(nodes, id, st, ctx),
            Node::Definition { body, .. } => n_scope(nodes, body@, id, st, ctx),
            Node::ClassDef { body, .. } => n_scope(nodes, body@, id, st, ctx),
            Node::ModuleDef { body, .. } => n_scope(nodes, body@, id, st, ctx),
            _ => NilSt {
                env: spec_widen(ctx.writes, span_of(nodes[id]), st.env),
                tbl: st.tbl,
                nil: Map::empty(),
                prov: st.prov.difference(written_within(ctx.writes, span_of(nodes[id]))),
                out: st.out,
            },
        }
    }
}

/// A nested scope's body, walked from empty state; the enclosing state
/// stays as it was.
pub open spec fn n_scope(nodes: Seq<Node>, body: Seq<usize>, id: int, st: NilSt, ctx: NilCtx) -> NilSt
    decreases id + 1, 0int, 0nat,
{
    if all_below(body, id) && 0 <= id < nodes.len() {
        let s1 = n_list(nodes, body, id, NilSt { env: Map::empty(), tbl: st.tbl, nil: Map::empty(), prov: Set::empty(), out: st.out }, ctx);
        NilSt { env: st.env, tbl: s1.tbl, nil: st.nil, prov: st.prov, out: s1.out }
    } else {
        st
    }
}

/// An expression's effect. A call walks its receiver; on a bare-local
/// receiver it records the local's non-nil class when the local is
/// nilable, the call is not safe navigation and not a nil guard, and a
/// guard or safe-navigation call forgets the local; then it walks its
/// arguments, and a block body from the current bindings and provenance but
/// no nilable locals, after which the locals written inside the call are
/// widened, lose their provenance, and every nilable local is forgotten. A
/// logical operator forgets every nilable local and walks both operands.
pub open spec fn n_expr(nodes: Seq<Node>, id: int, st: NilSt, ctx: NilCtx) -> NilSt
    decreases id + 1, 1int, 0nat,
{
    if id < 0 || id >= nodes.len() {
        st
    } else {
        match nodes[id] {
            Node::Call { receiver, method, args, block_body, safe_nav, span } => if (receiver matches Some(r) ==> r < id)
                && all_below(args@, id) && all_below(block_body@, id) {
                let s1 = match receiver {
                    Some(r) => n_expr(nodes, r as int, st, ctx),
                    None => st,
                };
                let s2 = match receiver {
                    Some(r) => match nodes[r as int] {
                        Node::LocalVariableRead { name, .. } => {
                            let guard = is_nil_guard(method@);
                            NilSt {
                                env: s1.env,
                                tbl: s1.tbl,
                                nil: if safe_nav || guard { s1.nil.remove(name@) } else { s1.nil },
                                prov: s1.prov,
                                out: if !safe_nav && !guard && s1.nil.contains_key(name@) {
                                    s1.out.update(id, Some(s1.nil[name@]))
                                } else {
                                    s1.out
                                },
                            }
                        },
                        _ => s1,
                    },
                    None => s1,
                };
                let s3 = n_args(nodes, args@, id, s2, ctx);
                if block_body@.len() > 0 {
                    let b = n_list(
                        nodes,
                        block_body@,
                        id,
                        NilSt { env: s3.env, tbl: s3.tbl, nil: Map::empty(), prov: s3.prov, out: s3.out },
                        ctx,
                    );
                    NilSt {
                        env: spec_widen(ctx.writes, span, s3.env),
                        tbl: b.tbl,
                        nil: Map::empty(),
                        prov: s3.prov.difference(written_within(ctx.writes, span)),
                        out: b.out,
                    }
                } else {
                    s3
                }
            } else {
                st
            },
            Node::Logical { left, right, .. } => if left < id && right < id {
                let s0 = NilSt { env: st.env, tbl: st.tbl, nil: Map::empty(), prov: st.prov, out: st.out };
                let s1 = n_expr(nodes, left as int, s0, ctx);
                n_expr(nodes, right as int, s1, ctx)
            } else {
                st
            },
            _ => st,
        }
    }
}


// --- The walk ------------------------------------------------------------------

/// The class names of a record vector.
pub open spec fn arms_view(o: Seq<Option<String>>) -> Seq<Option<Seq<char>>> {
    o.map_values(|a: Option<String>| arm_opt(a))
}

/// The view of one record.
pub open spec fn arm_opt(a: Option<String>) -> Option<Seq<char>> {
    match a {
        Some(s) => Some(s@),
        None => None,
    }
}

/// The view of the certain nilable returns.
pub open spec fn returns_view(r: Seq<(String, String, String)>) -> Seq<(Seq<char>, Seq<char>, Seq<char>)> {
    r.map_values(|e: (String, String, String)| (e.0@, e.1@, e.2@))
}

/// The walk context of concrete inputs.
pub open spec fn nctx(writes: Seq<Write>, rets: Seq<(String, String, String)>) -> NilCtx {
    NilCtx { writes: writes_view(writes), returns: returns_view(rets) }
}

/// The walk state of concrete values.
pub open spec fn nst(env: Map<Seq<char>, nat>, tbl: Seq<TyV>, nil: Map<Seq<char>, Seq<char>>, prov: Set<Seq<char>>, out: Seq<Option<Seq<char>>>) -> NilSt {
    NilSt { env, tbl, nil, prov, out }
}

/// The walk invariants: a well-formed program and table, every binding an
/// id of the table, and one record slot per node.
pub open spec fn nwalk_ok(ast: &Ast, env: Map<Seq<char>, nat>, tbl: Seq<TyV>, out: Seq<Option<Seq<char>>>) -> bool {
    &&& ast.wf()
    &&& table_wf(tbl)
    &&& env_ok(env, tbl)
    &&& out.len() == ast.nodes@.len()
}

/// A walk step from `(t0, out0)` that lands on the state `s` and keeps the
/// walk invariants.
pub open spec fn nlands(
    s: NilSt,
    env1: Map<Seq<char>, nat>,
    t0: Seq<TyV>,
    t1: Seq<TyV>,
    nil1: Map<Seq<char>, Seq<char>>,
    prov1: Set<Seq<char>>,
    out0: Seq<Option<Seq<char>>>,
    out1: Seq<Option<Seq<char>>>,
) -> bool {
    &&& env1 == s.env
    &&& t1 == s.tbl
    &&& nil1 == s.nil
    &&& prov1 == s.prov
    &&& out1 == s.out
    &&& table_wf(t1)
    &&& extends(t0, t1)
    &&& env_ok(env1, t1)
    &&& out1.len() == out0.len()
}

/// Whether `m` is a nil guard.
fn guard_method(m: &str) -> (r: bool)
    ensures
        r == is_nil_guard(m@),
{
    str_eq(m, "nil?") || str_eq(m, "present?") || str_eq(m, "blank?") || str_eq(m, "presence")
}

/// Drop the provenance of every local written inside `span`.
fn unmark_written(writes: &Vec<Write>, span: Span, prov: &mut NameSet)
    ensures
        final(prov)@ == old(prov)@.difference(written_within(writes_view(writes@), span)),
{
    let ghost w = writes_view(writes@);
    let mut i: usize = 0;
    assert(old(prov)@.difference(written_within(w.take(0), span)) =~= old(prov)@);
    while i < writes.len()
        invariant
            0 <= i <= writes@.len(),
            w == writes_view(writes@),
            prov@ == old(prov)@.difference(written_within(w.take(i as int), span)),
        decreases writes@.len() - i,
    {
        let within = span.0 <= writes[i].0.0 && writes[i].0.1 <= span.1;
        if within {
            prov.remove(writes[i].1.as_str());
        }
        proof {
            let a = w.take(i as int);
            let b = w.take(i as int + 1);
            assert(b[i as int] == w[i as int]);
            assert forall|k: Seq<char>| written_within(b, span).contains(k) == (written_within(a, span).contains(k) || (within && k == w[i as int].1)) by {
                if written_within(b, span).contains(k) {
                    let j = choose|j: int| 0 <= j < b.len() && b[j].1 == k && span_within(b[j].0, span);
                    if j < i {
                        assert(a[j] == b[j]);
                    }
                }
                if written_within(a, span).contains(k) {
                    let j = choose|j: int| 0 <= j < a.len() && a[j].1 == k && span_within(a[j].0, span);
                    assert(b[j] == a[j]);
                }
            }
            assert(prov@ =~= old(prov)@.difference(written_within(b, span)));
        }
        i = i + 1;
    }
    assert(w.take(writes@.len() as int) =~= w);
}

/// The class of the values of a non-constant type.
fn class_of_ty(it: &Interner, t: usize) -> (r: Option<&'static str>)
    requires
        t < it@.len(),
    ensures
        (match r {
            Some(s) => Some(s@),
            None => None,
        }) == class_of(it@, t as nat),
{
    match it.get(t) {
        TyNode::Tuple(_) => Some("Array"),
        TyNode::HashShape(_) => Some("Hash"),
        TyNode::Nominal(c) => Some(c.name()),
        _ => None,
    }
}

/// The non-nil class of the first certain nilable return for `(cls, m)`.
fn return_arm_of(rets: &Vec<(String, String, String)>, cls: &str, m: &str) -> (r: Option<String>)
    ensures
        arm_opt(r) == return_arm(returns_view(rets@), cls@, m@),
{
    let ghost rv = returns_view(rets@);
    let mut i: usize = 0;
    assert(rv.skip(0) =~= rv);
    while i < rets.len()
        invariant
            0 <= i <= rets@.len(),
            rv == returns_view(rets@),
            return_arm(rv, cls@, m@) == return_arm(rv.skip(i as int), cls@, m@),
        decreases rets@.len() - i,
    {
        assert(rv.skip(i as int)[0] == rv[i as int]);
        assert(rv.skip(i as int).drop_first() =~= rv.skip(i as int + 1));
        if str_eq(rets[i].0.as_str(), cls) && str_eq(rets[i].1.as_str(), m) {
            return Some(rets[i].2.clone());
        }
        i = i + 1;
    }
    None
}

/// Whether `rhs` is an `Array.new` the typer keeps as a bare `Array`.
fn array_new_prov(ast: &Ast, rhs: usize, env: &TypeEnv, it: &mut Interner) -> (r: bool)
    requires
        ast.wf(),
        rhs < ast.nodes@.len(),
        table_wf(old(it)@),
        env_ok(env@, old(it)@),
    ensures
        (r, final(it)@) == s_array_new_prov(ast.nodes@, rhs as int, env@, old(it)@),
        table_wf(final(it)@),
        extends(old(it)@, final(it)@),
{
    proof {
        lemma_children_below(ast.nodes@, rhs as int);
        assert(extends(it@, it@));
    }
    match ast.get(rhs) {
        Node::Call { receiver: Some(recv), method, args, .. } => {
            if !str_eq(method.as_str(), "new") {
                return false;
            }
            match ast.get(*recv) {
                Node::ConstantRead { name, .. } => {
                    if !str_eq(name.as_str(), "Array") {
                        return false;
                    }
                },
                _ => {
                    return false;
                },
            }
            if args.len() == 0 {
                return true;
            }
            let ft = type_of(ast, args[0], env, it);
            match it.get(ft) {
                TyNode::Constant(crate::scalar::Scalar::Int(n)) => *n > ARRAY_NEW_TUPLE_LIMIT,
                _ => false,
            }
        },
        _ => false,
    }
}

/// The non-nil class of a nilable source value, if `value` is one.
fn nil_source(ast: &Ast, value: usize, env: &TypeEnv, prov: &NameSet, it: &mut Interner, rets: &Vec<(String, String, String)>) -> (r: Option<String>)
    requires
        ast.wf(),
        value < ast.nodes@.len(),
        table_wf(old(it)@),
        env_ok(env@, old(it)@),
    ensures
        (arm_opt(r), final(it)@) == s_nil_source(ast.nodes@, value as int, env@, prov@, old(it)@, returns_view(rets@)),
        table_wf(final(it)@),
        extends(old(it)@, final(it)@),
{
    proof {
        lemma_children_below(ast.nodes@, value as int);
        assert(extends(it@, it@));
    }
    match ast.get(value) {
        Node::Call { receiver: Some(recv), method, args, block_body, .. } => {
            if block_body.len() != 0 {
                return None;
            }
            let recv = *recv;
            if str_eq(method.as_str(), "last_match") {
                let is_regexp = match ast.get(recv) {
                    Node::ConstantRead { name, .. } => str_eq(name.as_str(), "Regexp"),
                    _ => false,
                };
                if is_regexp {
                    if args.len() == 0 {
                        return Some("MatchData".to_owned());
                    }
                    if args.len() == 1 {
                        return match ast.get(args[0]) {
                            Node::Other { .. } | Node::Statements { .. } => None,
                            _ => Some("String".to_owned()),
                        };
                    }
                    return None;
                }
            }
            let rt = type_of(ast, recv, env, it);
            match it.get(rt) {
                TyNode::Constant(_) => {
                    return None;
                },
                _ => {},
            }
            let cls = match class_of_ty(it, rt) {
                Some(c) => c,
                None => {
                    return None;
                },
            };
            let range_slice = str_eq(method.as_str(), "[]") && args.len() == 1 && match ast.get(args[0]) {
                Node::Range { .. } => true,
                _ => false,
            };
            if range_slice && str_eq(cls, "String") {
                return Some("String".to_owned());
            }
            if range_slice && str_eq(cls, "Array") {
                let p = match ast.get(recv) {
                    Node::LocalVariableRead { name, .. } => prov.contains(name.as_str()),
                    _ => array_new_prov(ast, recv, env, it),
                };
                return if p { Some("Array".to_owned()) } else { None };
            }
            return_arm_of(rets, cls, method.as_str())
        },
        _ => None,
    }
}


/// Walk a list of statements in turn.
fn nil_list(
    ast: &Ast,
    ids: &Vec<usize>,
    bound: usize,
    env: &mut TypeEnv,
    it: &mut Interner,
    nil: &mut NameMap,
    prov: &mut NameSet,
    out: &mut Vec<Option<String>>,
    writes: &Vec<Write>,
    rets: &Vec<(String, String, String)>,
)
    requires
        nwalk_ok(ast, old(env)@, old(it)@, arms_view(old(out)@)),
        bound <= ast.nodes@.len(),
    ensures
        nlands(
            n_list(ast.nodes@, ids@, bound as int, nst(old(env)@, old(it)@, old(nil)@, old(prov)@, arms_view(old(out)@)), nctx(writes@, rets@)),
            final(env)@, old(it)@, final(it)@, final(nil)@, final(prov)@, arms_view(old(out)@), arms_view(final(out)@),
        ),
    decreases bound, 3int, ids@.len(),
{
    let ghost ctx = nctx(writes@, rets@);
    let ghost st0 = nst(env@, it@, nil@, prov@, arms_view(out@));
    let ghost t0 = it@;
    let ghost o0 = arms_view(out@);
    let mut k: usize = 0;
    assert(ids@.take(0) =~= Seq::<usize>::empty());
    while k < ids.len()
        invariant
            0 <= k <= ids@.len(),
            bound <= ast.nodes@.len(),
            ctx == nctx(writes@, rets@),
            nwalk_ok(ast, env@, it@, arms_view(out@)),
            extends(t0, it@),
            arms_view(out@).len() == o0.len(),
            st0 == nst(old(env)@, old(it)@, old(nil)@, old(prov)@, arms_view(old(out)@)),
            t0 == old(it)@,
            o0 == arms_view(old(out)@),
            n_list(ast.nodes@, ids@.take(k as int), bound as int, st0, ctx) == nst(env@, it@, nil@, prov@, arms_view(out@)),
        decreases ids@.len() - k,
    {
        proof {
            assert(ids@.take(k as int + 1).drop_last() =~= ids@.take(k as int));
            assert(ids@.take(k as int + 1).last() == ids@[k as int]);
        }
        let id = ids[k];
        if id < bound {
            nil_stmt(ast, id, env, it, nil, prov, out, writes, rets);
        }
        k = k + 1;
    }
    assert(ids@.take(ids@.len() as int) =~= ids@);
}

/// Walk a list of argument expressions in turn.
fn nil_args(
    ast: &Ast,
    ids: &Vec<usize>,
    bound: usize,
    env: &mut TypeEnv,
    it: &mut Interner,
    nil: &mut NameMap,
    prov: &mut NameSet,
    out: &mut Vec<Option<String>>,
    writes: &Vec<Write>,
    rets: &Vec<(String, String, String)>,
)
    requires
        nwalk_ok(ast, old(env)@, old(it)@, arms_view(old(out)@)),
        bound <= ast.nodes@.len(),
    ensures
        nlands(
            n_args(ast.nodes@, ids@, bound as int, nst(old(env)@, old(it)@, old(nil)@, old(prov)@, arms_view(old(out)@)), nctx(writes@, rets@)),
            final(env)@, old(it)@, final(it)@, final(nil)@, final(prov)@, arms_view(old(out)@), arms_view(final(out)@),
        ),
    decreases bound, 3int, ids@.len(),
{
    let ghost ctx = nctx(writes@, rets@);
    let ghost st0 = nst(env@, it@, nil@, prov@, arms_view(out@));
    let ghost t0 = it@;
    let ghost o0 = arms_view(out@);
    let mut k: usize = 0;
    assert(ids@.take(0) =~= Seq::<usize>::empty());
    while k < ids.len()
        invariant
            0 <= k <= ids@.len(),
            bound <= ast.nodes@.len(),
            ctx == nctx(writes@, rets@),
            nwalk_ok(ast, env@, it@, arms_view(out@)),
            extends(t0, it@),
            arms_view(out@).len() == o0.len(),
            st0 == nst(old(env)@, old(it)@, old(nil)@, old(prov)@, arms_view(old(out)@)),
            t0 == old(it)@,
            o0 == arms_view(old(out)@),
            n_args(ast.nodes@, ids@.take(k as int), bound as int, st0, ctx) == nst(env@, it@, nil@, prov@, arms_view(out@)),
        decreases ids@.len() - k,
    {
        proof {
            assert(ids@.take(k as int + 1).drop_last() =~= ids@.take(k as int));
            assert(ids@.take(k as int + 1).last() == ids@[k as int]);
        }
        let id = ids[k];
        if id < bound {
            nil_expr(ast, id, env, it, nil, prov, out, writes, rets);
        }
        k = k + 1;
    }
    assert(ids@.take(ids@.len() as int) =~= ids@);
}

/// A nested scope's body, walked from empty state.
#[verifier::loop_isolation(false)]
fn nil_scope(
    ast: &Ast,
    body: &Vec<usize>,
    id: usize,
    env: &mut TypeEnv,
    it: &mut Interner,
    nil: &mut NameMap,
    prov: &mut NameSet,
    out: &mut Vec<Option<String>>,
    writes: &Vec<Write>,
    rets: &Vec<(String, String, String)>,
)
    requires
        nwalk_ok(ast, old(env)@, old(it)@, arms_view(old(out)@)),
        id < ast.nodes@.len(),
    ensures
        nlands(
            n_scope(ast.nodes@, body@, id as int, nst(old(env)@, old(it)@, old(nil)@, old(prov)@, arms_view(old(out)@)), nctx(writes@, rets@)),
            final(env)@, old(it)@, final(it)@, final(nil)@, final(prov)@, arms_view(old(out)@), arms_view(final(out)@),
        ),
    decreases id + 1, 0int, 0nat,
{
    let mut k: usize = 0;
    while k < body.len()
        invariant
            0 <= k <= body@.len(),
            forall|j: int| 0 <= j < k ==> body@[j] < id,
        decreases body@.len() - k,
    {
        if body[k] >= id {
            proof {
                assert(!all_below(body@, id as int));
                assert(extends(it@, it@));
            }
            return;
        }
        k = k + 1;
    }
    let ghost t0 = it@;
    let mut fenv = TypeEnv::new();
    let mut fnil = NameMap::new();
    let mut fprov = NameSet::new();
    proof {
        assert(env_ok(fenv@, it@));
    }
    nil_list(ast, body, id, &mut fenv, it, &mut fnil, &mut fprov, out, writes, rets);
    proof {
        lemma_env_ok_grows(env@, t0, it@);
    }
}

/// Bind the targets of a multi-write as neither nilable nor of provenance.
fn unmark_targets(targets: &Vec<String>, nil: &mut NameMap, prov: &mut NameSet)
    ensures
        final(nil)@ == old(nil)@.remove_keys(target_names(targets@)),
        final(prov)@ == old(prov)@.difference(target_names(targets@)),
{
    let mut i: usize = 0;
    assert(old(nil)@.remove_keys(target_names(targets@.take(0))) =~= old(nil)@);
    assert(old(prov)@.difference(target_names(targets@.take(0))) =~= old(prov)@);
    while i < targets.len()
        invariant
            0 <= i <= targets@.len(),
            nil@ == old(nil)@.remove_keys(target_names(targets@.take(i as int))),
            prov@ == old(prov)@.difference(target_names(targets@.take(i as int))),
        decreases targets@.len() - i,
    {
        nil.remove(targets[i].as_str());
        prov.remove(targets[i].as_str());
        proof {
            let a = targets@.take(i as int);
            let b = targets@.take(i as int + 1);
            assert(b[i as int] == targets@[i as int]);
            assert forall|k: Seq<char>| target_names(b).contains(k) == (target_names(a).contains(k) || k == targets@[i as int]@) by {
                if target_names(b).contains(k) {
                    let j = choose|j: int| 0 <= j < b.len() && b[j]@ == k;
                    if j < i {
                        assert(a[j] == b[j]);
                    }
                }
                if target_names(a).contains(k) {
                    let j = choose|j: int| 0 <= j < a.len() && a[j]@ == k;
                    assert(b[j] == a[j]);
                }
            }
            assert(nil@ =~= old(nil)@.remove_keys(target_names(b)));
            assert(prov@ =~= old(prov)@.difference(target_names(b)));
        }
        i = i + 1;
    }
    assert(targets@.take(targets@.len() as int) =~= targets@);
}

/// One statement's effect.
fn nil_stmt(
    ast: &Ast,
    id: usize,
    env: &mut TypeEnv,
    it: &mut Interner,
    nil: &mut NameMap,
    prov: &mut NameSet,
    out: &mut Vec<Option<String>>,
    writes: &Vec<Write>,
    rets: &Vec<(String, String, String)>,
)
    requires
        nwalk_ok(ast, old(env)@, old(it)@, arms_view(old(out)@)),
        id < ast.nodes@.len(),
    ensures
        nlands(
            n_stmt(ast.nodes@, id as int, nst(old(env)@, old(it)@, old(nil)@, old(prov)@, arms_view(old(out)@)), nctx(writes@, rets@)),
            final(env)@, old(it)@, final(it)@, final(nil)@, final(prov)@, arms_view(old(out)@), arms_view(final(out)@),
        ),
    decreases id + 1, 2int, 0nat,
{
    proof {
        lemma_children_below(ast.nodes@, id as int);
        assert(extends(it@, it@));
    }
    let ghost t0 = it@;
    match ast.get(id) {
        Node::Statements { body, .. } => {
            nil_list(ast, body, id, env, it, nil, prov, out, writes, rets);
        },
        Node::LocalVariableWrite { name, value, .. } => {
            let v = *value;
            nil_expr(ast, v, env, it, nil, prov, out, writes, rets);
            let ghost t1 = it@;
            let src = nil_source(ast, v, env, prov, it, rets);
            proof {
                lemma_env_ok_grows(env@, t1, it@);
            }
            let ghost t2 = it@;
            let p = array_new_prov(ast, v, env, it);
            proof {
                lemma_env_ok_grows(env@, t2, it@);
            }
            let vt = type_of(ast, v, env, it);
            env.insert(name.as_str(), vt);
            match src {
                Some(c) => nil.insert(name.as_str(), c),
                None => nil.remove(name.as_str()),
            }
            if p {
                prov.insert(name.as_str());
            } else {
                prov.remove(name.as_str());
            }
        },
        Node::MultiWrite { targets, value, .. } => {
            let v = *value;
            nil_expr(ast, v, env, it, nil, prov, out, writes, rets);
            let ghost t1 = it@;
            let t = type_of(ast, v, env, it);
            proof {
                lemma_env_ok_grows(env@, t1, it@);
            }
            bind_targets(targets, t, it, env);
            unmark_targets(targets, nil, prov);
        },
        Node::LocalVariableOpWrite { name, .. } => {
            env.insert(name.as_str(), 0);
            nil.remove(name.as_str());
            prov.remove(name.as_str());
        },
        Node::Call { .. } => {
            nil_expr(ast, id, env, it, nil, prov, out, writes, rets);
        },
        Node::Definition { body, .. } => {
            nil_scope(ast, body, id, env, it, nil, prov, out, writes, rets);
        },
        Node::ClassDef { body, .. } => {
            nil_scope(ast, body, id, env, it, nil, prov, out, writes, rets);
        },
        Node::ModuleDef { body, .. } => {
            nil_scope(ast, body, id, env, it, nil, prov, out, writes, rets);
        },
        _ => {
            let span = crate::ast::node_span(ast.get(id));
            widen_flow_writes(writes, span, env);
            unmark_written(writes, span, prov);
            *nil = NameMap::new();
        },
    }
}

/// An expression's effect.
fn nil_expr(
    ast: &Ast,
    id: usize,
    env: &mut TypeEnv,
    it: &mut Interner,
    nil: &mut NameMap,
    prov: &mut NameSet,
    out: &mut Vec<Option<String>>,
    writes: &Vec<Write>,
    rets: &Vec<(String, String, String)>,
)
    requires
        nwalk_ok(ast, old(env)@, old(it)@, arms_view(old(out)@)),
        id < ast.nodes@.len(),
    ensures
        nlands(
            n_expr(ast.nodes@, id as int, nst(old(env)@, old(it)@, old(nil)@, old(prov)@, arms_view(old(out)@)), nctx(writes@, rets@)),
            final(env)@, old(it)@, final(it)@, final(nil)@, final(prov)@, arms_view(old(out)@), arms_view(final(out)@),
        ),
    decreases id + 1, 1int, 0nat,
{
    proof {
        lemma_children_below(ast.nodes@, id as int);
        assert(extends(it@, it@));
    }
    let ghost t0 = it@;
    match ast.get(id) {
        Node::Call { receiver, method, args, block_body, safe_nav, span } => {
            match receiver {
                Some(r) => {
                    nil_expr(ast, *r, env, it, nil, prov, out, writes, rets);
                    match ast.get(*r) {
                        Node::LocalVariableRead { name, .. } => {
                            let guard = guard_method(method.as_str());
                            if !*safe_nav && !guard {
                                match nil.get(name.as_str()) {
                                    Some(arm) => {
                                        let ghost o = out@;
                                        out.set(id, Some(arm));
                                        proof {
                                            assert(arms_view(out@) =~= arms_view(o).update(id as int, Some(nil@[name@])));
                                        }
                                    },
                                    None => {},
                                }
                            }
                            if *safe_nav || guard {
                                nil.remove(name.as_str());
                            }
                        },
                        _ => {},
                    }
                },
                None => {},
            }
            nil_args(ast, args, id, env, it, nil, prov, out, writes, rets);
            if block_body.len() > 0 {
                let mut benv = env.copy();
                let mut bnil = NameMap::new();
                let mut bprov = prov.copy();
                let ghost tb = it@;
                nil_list(ast, block_body, id, &mut benv, it, &mut bnil, &mut bprov, out, writes, rets);
                proof {
                    lemma_env_ok_grows(env@, tb, it@);
                }
                *nil = NameMap::new();
                widen_flow_writes(writes, *span, env);
                unmark_written(writes, *span, prov);
            }
        },
        Node::Logical { left, right, .. } => {
            *nil = NameMap::new();
            nil_expr(ast, *left, env, it, nil, prov, out, writes, rets);
            nil_expr(ast, *right, env, it, nil, prov, out, writes, rets);
        },
        _ => {},
    }
}


/// The possible-nil snapshots of the program: the walk of the program body
/// from empty state, over every write the program makes (including the
/// in-place argument mutations `mutates` names) and the certain nilable
/// returns `rets`.
pub open spec fn spec_nil(
    nodes: Seq<Node>,
    mutates: Seq<(Seq<char>, usize)>,
    rets: Seq<(Seq<char>, Seq<char>, Seq<char>)>,
    tbl: Seq<TyV>,
) -> NilSt {
    let ctx = NilCtx {
        writes: writes_upto(nodes, nodes.len() as int, false) + arg_writes_all(nodes, nodes.len() as int, mutates),
        returns: rets,
    };
    let root = nodes.len() - 1;
    let st0 = NilSt {
        env: Map::empty(),
        tbl,
        nil: Map::empty(),
        prov: Set::empty(),
        out: Seq::new(nodes.len(), |i: int| None::<Seq<char>>),
    };
    match nodes[root] {
        Node::Program { body, .. } => n_list(nodes, body@, root, st0, ctx),
        _ => st0,
    }
}

/// For each call id, the class `C` when the call's receiver is a bare local
/// that is certainly `C | nil` there: bound to a nilable source and not
/// guarded, narrowed or rebound since. `mutated_params` names, for methods
/// known to mutate an argument in place, the method and the argument
/// position; `nilable_returns` lists the methods whose return is certainly
/// nilable, as `(receiver class, method, non-nil class)`.
pub fn nilable_receiver_snapshots(
    ast: &Ast,
    mutated_params: &Vec<(String, usize)>,
    nilable_returns: &Vec<(String, String, String)>,
    it: &mut Interner,
) -> (r: Vec<Option<String>>)
    requires
        ast.wf(),
        table_wf(old(it)@),
    ensures
        arms_view(r@) == spec_nil(ast.nodes@, mutates_view(mutated_params@), returns_view(nilable_returns@), old(it)@).out,
        final(it)@ == spec_nil(ast.nodes@, mutates_view(mutated_params@), returns_view(nilable_returns@), old(it)@).tbl,
        r@.len() == ast.nodes@.len(),
        table_wf(final(it)@),
{
    let mut out: Vec<Option<String>> = Vec::new();
    let mut i: usize = 0;
    while i < ast.nodes.len()
        invariant
            0 <= i <= ast.nodes@.len(),
            arms_view(out@) == Seq::<Option<Seq<char>>>::new(i as nat, |j: int| None::<Seq<char>>),
            out@.len() == i,
        decreases ast.nodes@.len() - i,
    {
        let ghost o = out@;
        out.push(None);
        i = i + 1;
        proof {
            assert forall|j: int| 0 <= j < out@.len() implies arms_view(out@)[j] == None::<Seq<char>> by {
                if j < o.len() {
                    assert(out@[j] == o[j]);
                    assert(arms_view(o)[j] == None::<Seq<char>>);
                }
            }
            assert(arms_view(out@) =~= Seq::<Option<Seq<char>>>::new(i as nat, |j: int| None::<Seq<char>>));
        }
    }
    let mut writes = collect_flow_writes(ast);
    let extra = indexed_flow_writes(ast, mutated_params);
    let ghost w1 = writes@;
    let mut k: usize = 0;
    while k < extra.len()
        invariant
            0 <= k <= extra@.len(),
            writes@ == w1 + extra@.take(k as int),
        decreases extra@.len() - k,
    {
        writes.push((extra[k].0, extra[k].1.clone()));
        k = k + 1;
        assert(writes@ =~= w1 + extra@.take(k as int));
    }
    proof {
        assert(extra@.take(extra@.len() as int) =~= extra@);
        assert(writes_view(writes@) =~= writes_view(w1) + writes_view(extra@));
    }
    let root = ast.root();
    let mut env = TypeEnv::new();
    let mut nil = NameMap::new();
    let mut prov = NameSet::new();
    proof {
        assert(extends(it@, it@));
    }
    match ast.get(root) {
        Node::Program { body, .. } => {
            proof {
                lemma_children_below(ast.nodes@, root as int);
            }
            nil_list(ast, body, root, &mut env, it, &mut nil, &mut prov, &mut out, &writes, nilable_returns);
        },
        _ => {},
    }
    proof {
        assert(out@.len() == arms_view(out@).len());
    }
    out
}


// --- Laws --------------------------------------------------------------------

/// A call whose receiver is a bare local read, made without safe navigation,
/// of a method that is not a nil guard.
pub open spec fn is_plain_local_call(nodes: Seq<Node>, i: int) -> bool {
    &&& 0 <= i < nodes.len()
    &&& nodes[i] matches Node::Call { receiver: Some(r), method, safe_nav, .. }
    &&& !safe_nav
    &&& !is_nil_guard(method@)
    &&& r < nodes.len()
    &&& nodes[r as int] is LocalVariableRead
}

/// A non-nil class the sources can give: `String`, `Array`, `MatchData`, or
/// one listed among the certain nilable returns.
pub open spec fn is_source_class(rets: Seq<(Seq<char>, Seq<char>, Seq<char>)>, a: Seq<char>) -> bool {
    a == "String"@ || a == "Array"@ || a == "MatchData"@ || exists|j: int| 0 <= j < rets.len() && rets[j].2 == a
}

/// Every record sits on a plain local call and names a source class.
pub open spec fn nil_records_ok(nodes: Seq<Node>, rets: Seq<(Seq<char>, Seq<char>, Seq<char>)>, out: Seq<Option<Seq<char>>>) -> bool {
    forall|i: int| 0 <= i < out.len() && (#[trigger] out[i]) is Some ==> is_plain_local_call(nodes, i) && is_source_class(rets, out[i]->Some_0)
}

/// The walk state invariant the laws rest on.
pub open spec fn nil_inv(nodes: Seq<Node>, ctx: NilCtx, st: NilSt) -> bool {
    &&& nil_records_ok(nodes, ctx.returns, st.out)
    &&& st.out.len() == nodes.len()
    &&& forall|k: Seq<char>| #[trigger] st.nil.contains_key(k) ==> is_source_class(ctx.returns, st.nil[k])
}

proof fn lemma_return_arm_listed(rets: Seq<(Seq<char>, Seq<char>, Seq<char>)>, cls: Seq<char>, m: Seq<char>)
    ensures
        return_arm(rets, cls, m) matches Some(a) ==> is_source_class(rets, a),
    decreases rets.len(),
{
    if rets.len() > 0 && !(rets[0].0 == cls && rets[0].1 == m) {
        lemma_return_arm_listed(rets.drop_first(), cls, m);
        if let Some(a) = return_arm(rets.drop_first(), cls, m) {
            if a != "String"@ && a != "Array"@ && a != "MatchData"@ {
                let j = choose|j: int| 0 <= j < rets.drop_first().len() && rets.drop_first()[j].2 == a;
                assert(rets[j + 1].2 == a);
            }
        }
    }
}

proof fn lemma_source_class(nodes: Seq<Node>, value: int, env: Map<Seq<char>, nat>, prov: Set<Seq<char>>, tbl: Seq<TyV>, rets: Seq<(Seq<char>, Seq<char>, Seq<char>)>)
    ensures
        s_nil_source(nodes, value, env, prov, tbl, rets).0 matches Some(a) ==> is_source_class(rets, a),
{
    if 0 <= value < nodes.len() {
        match nodes[value] {
            Node::Call { receiver: Some(recv), method, args, block_body, .. } => {
                if block_body@.len() == 0 && recv < value && all_below(args@, value) {
                    let (rt, t1) = s_type_of(nodes, recv as int, env, tbl);
                    if let Some(cls) = class_of(t1, rt) {
                        lemma_return_arm_listed(rets, cls, method@);
                    }
                }
            },
            _ => {},
        }
    }
}

proof fn lemma_list_inv(nodes: Seq<Node>, ids: Seq<usize>, bound: int, st: NilSt, ctx: NilCtx)
    requires
        nil_inv(nodes, ctx, st),
    ensures
        nil_inv(nodes, ctx, n_list(nodes, ids, bound, st, ctx)),
    decreases bound, 3int, ids.len(),
{
    if ids.len() > 0 {
        lemma_list_inv(nodes, ids.drop_last(), bound, st, ctx);
        if ids.last() < bound {
            lemma_stmt_inv(nodes, ids.last() as int, n_list(nodes, ids.drop_last(), bound, st, ctx), ctx);
        }
    }
}

proof fn lemma_args_inv(nodes: Seq<Node>, ids: Seq<usize>, bound: int, st: NilSt, ctx: NilCtx)
    requires
        nil_inv(nodes, ctx, st),
    ensures
        nil_inv(nodes, ctx, n_args(nodes, ids, bound, st, ctx)),
    decreases bound, 3int, ids.len(),
{
    if ids.len() > 0 {
        lemma_args_inv(nodes, ids.drop_last(), bound, st, ctx);
        if ids.last() < bound {
            lemma_expr_inv(nodes, ids.last() as int, n_args(nodes, ids.drop_last(), bound, st, ctx), ctx);
        }
    }
}

proof fn lemma_scope_inv(nodes: Seq<Node>, body: Seq<usize>, id: int, st: NilSt, ctx: NilCtx)
    requires
        nil_inv(nodes, ctx, st),
    ensures
        nil_inv(nodes, ctx, n_scope(nodes, body, id, st, ctx)),
    decreases id + 1, 0int, 0nat,
{
    if all_below(body, id) && 0 <= id < nodes.len() {
        lemma_list_inv(nodes, body, id, NilSt { env: Map::empty(), tbl: st.tbl, nil: Map::empty(), prov: Set::empty(), out: st.out }, ctx);
    }
}

proof fn lemma_stmt_inv(nodes: Seq<Node>, id: int, st: NilSt, ctx: NilCtx)
    requires
        nil_inv(nodes, ctx, st),
    ensures
        nil_inv(nodes, ctx, n_stmt(nodes, id, st, ctx)),
    decreases id + 1, 2int, 0nat,
{
    if 0 <= id < nodes.len() {
        match nodes[id] {
            Node::Statements { body, .. } => {
                if all_below(body@, id) {
                    lemma_list_inv(nodes, body@, id, st, ctx);
                }
            },
            Node::LocalVariableWrite { name, value, .. } => {
                if value < id {
                    lemma_expr_inv(nodes, value as int, st, ctx);
                    let s1 = n_expr(nodes, value as int, st, ctx);
                    lemma_source_class(nodes, value as int, s1.env, s1.prov, s1.tbl, ctx.returns);
                    let r = n_stmt(nodes, id, st, ctx);
                    assert forall|k: Seq<char>| #[trigger] r.nil.contains_key(k) implies is_source_class(ctx.returns, r.nil[k]) by {
                        if k != name@ {
                            assert(s1.nil.contains_key(k));
                        }
                    }
                }
            },
            Node::MultiWrite { value, .. } => {
                if value < id {
                    lemma_expr_inv(nodes, value as int, st, ctx);
                }
            },
            Node::Call { .. } => lemma_expr_inv(nodes, id, st, ctx),
            Node::Definition { body, .. } => lemma_scope_inv(nodes, body@, id, st, ctx),
            Node::ClassDef { body, .. } => lemma_scope_inv(nodes, body@, id, st, ctx),
            Node::ModuleDef { body, .. } => lemma_scope_inv(nodes, body@, id, st, ctx),
            _ => {},
        }
    }
}

proof fn lemma_expr_inv(nodes: Seq<Node>, id: int, st: NilSt, ctx: NilCtx)
    requires
        nil_inv(nodes, ctx, st),
    ensures
        nil_inv(nodes, ctx, n_expr(nodes, id, st, ctx)),
    decreases id + 1, 1int, 0nat,
{
    if 0 <= id < nodes.len() {
        match nodes[id] {
            Node::Call { receiver, method, args, block_body, safe_nav, span } => {
                if (receiver matches Some(r) ==> r < id) && all_below(args@, id) && all_below(block_body@, id) {
                    let s1 = match receiver {
                        Some(r) => n_expr(nodes, r as int, st, ctx),
                        None => st,
                    };
                    if let Some(r) = receiver {
                        lemma_expr_inv(nodes, r as int, st, ctx);
                    }
                    let s2 = match receiver {
                        Some(r) => match nodes[r as int] {
                            Node::LocalVariableRead { name, .. } => {
                                let guard = is_nil_guard(method@);
                                NilSt {
                                    env: s1.env,
                                    tbl: s1.tbl,
                                    nil: if safe_nav || guard { s1.nil.remove(name@) } else { s1.nil },
                                    prov: s1.prov,
                                    out: if !safe_nav && !guard && s1.nil.contains_key(name@) {
                                        s1.out.update(id, Some(s1.nil[name@]))
                                    } else {
                                        s1.out
                                    },
                                }
                            },
                            _ => s1,
                        },
                        None => s1,
                    };
                    assert(nil_inv(nodes, ctx, s2)) by {
                        if let Some(r) = receiver {
                            if let Node::LocalVariableRead { name, .. } = nodes[r as int] {
                                assert forall|i: int| 0 <= i < s2.out.len() && (#[trigger] s2.out[i]) is Some implies
                                    is_plain_local_call(nodes, i) && is_source_class(ctx.returns, s2.out[i]->Some_0) by {
                                    if i != id || !(!safe_nav && !is_nil_guard(method@) && s1.nil.contains_key(name@)) {
                                        assert(s2.out[i] == s1.out[i]);
                                    }
                                }
                                assert forall|k: Seq<char>| #[trigger] s2.nil.contains_key(k) implies is_source_class(ctx.returns, s2.nil[k]) by {
                                    assert(s1.nil.contains_key(k));
                                }
                            }
                        }
                    }
                    lemma_args_inv(nodes, args@, id, s2, ctx);
                    let s3 = n_args(nodes, args@, id, s2, ctx);
                    if block_body@.len() > 0 {
                        lemma_list_inv(nodes, block_body@, id, NilSt { env: s3.env, tbl: s3.tbl, nil: Map::empty(), prov: s3.prov, out: s3.out }, ctx);
                    }
                }
            },
            Node::Logical { left, right, .. } => {
                if left < id && right < id {
                    let s0 = NilSt { env: st.env, tbl: st.tbl, nil: Map::empty(), prov: st.prov, out: st.out };
                    lemma_expr_inv(nodes, left as int, s0, ctx);
                    lemma_expr_inv(nodes, right as int, n_expr(nodes, left as int, s0, ctx), ctx);
                }
            },
            _ => {},
        }
    }
}

/// The possible-nil pass records only at calls whose receiver is a bare
/// local, made without safe navigation and not to a nil guard, and what it
/// records is always the non-nil class of one of the modelled sources.
pub proof fn lemma_nil_records_only_at_plain_local_calls(
    nodes: Seq<Node>,
    mutates: Seq<(Seq<char>, usize)>,
    rets: Seq<(Seq<char>, Seq<char>, Seq<char>)>,
    tbl: Seq<TyV>,
    i: int,
)
    requires
        0 <= i < nodes.len(),
        spec_nil(nodes, mutates, rets, tbl).out[i] is Some,
    ensures
        is_plain_local_call(nodes, i),
        is_source_class(rets, spec_nil(nodes, mutates, rets, tbl).out[i]->Some_0),
{
    let ctx = NilCtx {
        writes: writes_upto(nodes, nodes.len() as int, false) + arg_writes_all(nodes, nodes.len() as int, mutates),
        returns: rets,
    };
    let st0 = NilSt {
        env: Map::empty(),
        tbl,
        nil: Map::empty(),
        prov: Set::empty(),
        out: Seq::new(nodes.len(), |j: int| None::<Seq<char>>),
    };
    assert(nil_inv(nodes, ctx, st0));
    match nodes[nodes.len() - 1] {
        Node::Program { body, .. } => {
            lemma_list_inv(nodes, body@, nodes.len() - 1, st0, ctx);
        },
        _ => {},
    }
}


/// A guard call — `nil?`, `present?`, `blank?` or `presence` — on a local
/// is never recorded, and afterwards the local is no longer nilable, so no
/// later call on it is recorded until it is rebound to a nil source. The
/// bindings, the table and the provenance are untouched.
pub proof fn lemma_guard_call_clears_local(nodes: Seq<Node>, id: int, r: int, name: Seq<char>, st: NilSt, ctx: NilCtx)
    requires
        0 <= id < nodes.len(),
        nodes[id] matches Node::Call { receiver: Some(rr), method, args, block_body, .. } && rr == r && args@.len() == 0
            && block_body@.len() == 0 && (method@ == "nil?"@ || method@ == "present?"@ || method@ == "blank?"@
            || method@ == "presence"@),
        0 <= r < id,
        nodes[r] matches Node::LocalVariableRead { name: n, .. } && n@ == name,
    ensures
        n_expr(nodes, id, st, ctx).out == st.out,
        !n_expr(nodes, id, st, ctx).nil.contains_key(name),
        forall|k: Seq<char>| k != name ==> (#[trigger] n_expr(nodes, id, st, ctx).nil.contains_key(k)) == st.nil.contains_key(k),
        n_expr(nodes, id, st, ctx).env == st.env,
        n_expr(nodes, id, st, ctx).tbl == st.tbl,
{
    assert(n_expr(nodes, r, st, ctx) == st);
    let a = nodes[id]->Call_args;
    let s2 = NilSt { env: st.env, tbl: st.tbl, nil: st.nil.remove(name), prov: st.prov, out: st.out };
    assert(n_args(nodes, a@, id, s2, ctx) == s2);
    assert(n_expr(nodes, id, st, ctx) == s2);
}

/// A call on a local that is not nilable records nothing at that call.
pub proof fn lemma_call_on_non_nilable_local_unrecorded(nodes: Seq<Node>, id: int, r: int, name: Seq<char>, st: NilSt, ctx: NilCtx)
    requires
        0 <= id < nodes.len(),
        nodes[id] matches Node::Call { receiver: Some(rr), args, block_body, .. } && rr == r && args@.len() == 0
            && block_body@.len() == 0,
        0 <= r < id,
        nodes[r] matches Node::LocalVariableRead { name: n, .. } && n@ == name,
        !st.nil.contains_key(name),
    ensures
        n_expr(nodes, id, st, ctx).out == st.out,
{
    assert(n_expr(nodes, r, st, ctx) == st);
    let a = nodes[id]->Call_args;
    let sn = nodes[id]->Call_safe_nav;
    let guard = is_nil_guard(nodes[id]->Call_method@);
    let s2 = NilSt {
        env: st.env,
        tbl: st.tbl,
        nil: if sn || guard { st.nil.remove(name) } else { st.nil },
        prov: st.prov,
        out: st.out,
    };
    assert(n_args(nodes, a@, id, s2, ctx) == s2);
    assert(n_expr(nodes, id, st, ctx) == s2);
}

} // verus!
