//! The flow-constant substrate: for every `if` / `unless` / ternary
//! predicate, the type it folds to under the branch-joined environment that
//! dominates it. A predicate recorded as a `Constant` is always truthy or
//! always falsey; any doubt widens the locals involved, so a recorded
//! constant is never a guess.
use vstd::prelude::*;
use crate::ast::{Ast, Node, Span, span_of, all_below};
use crate::env::{TypeEnv, spec_join, join_flow_envs};
use crate::types::{TyV, Interner, table_wf, untyped_id};
use crate::flow::{
    Write, writes_view, writes_upto, arg_writes_all, mutates_view, spec_widen, widen_flow_writes,
    s_type_of, type_of, env_ok, extends, bind_upto, tuple_elems, bind_targets, lemma_children_below,
    lemma_env_ok_grows, collect_flow_writes, indexed_flow_writes,
};

verus! {

/// What the predicate walk threads: the bindings of the current scope, the
/// type table, and the predicate type recorded at each node id so far.
#[verifier::ext_equal]
pub struct PredSt {
    pub env: Map<Seq<char>, nat>,
    pub tbl: Seq<TyV>,
    pub out: Seq<Option<usize>>,
}

/// Walk a list of statements in turn.
pub open spec fn p_list(nodes: Seq<Node>, ids: Seq<usize>, bound: int, st: PredSt, w: Seq<(Span, Seq<char>)>) -> PredSt
    decreases bound, 1int, ids.len(),
{
    if ids.len() == 0 {
        st
    } else {
        let s1 = p_list(nodes, ids.drop_last(), bound, st, w);
        if ids.last() < bound {
            p_stmt(nodes, ids.last() as int, s1, w)
        } else {
            s1
        }
    }
}

/// One statement's effect. A local write first widens the locals its value
/// writes, records the predicate of an `if` value, then binds the value's
/// type; a multi-write binds its targets; a compound write widens its
/// target; an `if` records its predicate's type, walks both branches from
/// the dominating bindings and keeps only what they agree on, then widens
/// the locals its predicate writes; a `def`, `class` or `module` body is
/// walked from empty bindings without touching the enclosing ones; anything
/// else (loops, blocks, `case`, calls, logical operators) widens every local
/// written inside it and is not entered.
pub open spec fn p_stmt(nodes: Seq<Node>, id: int, st: PredSt, w: Seq<(Span, Seq<char>)>) -> PredSt
    decreases id + 1, 1int, 0nat,
{
    if id < 0 || id >= nodes.len() {
        st
    } else {
        match nodes[id] {
            Node::Statements { body, .. } => if all_below(body@, id) {
                p_list(nodes, body@, id, st, w)
            } else {
                st
            },
            Node::LocalVariableWrite { name, value, .. } => if value < id {
                let env1 = spec_widen(w, span_of(nodes[value as int]), st.env);
                let (out1, t1) = match nodes[value as int] {
                    Node::If { predicate, .. } => if predicate < value {
                        let (pt, tp) = s_type_of(nodes, predicate as int, env1, st.tbl);
                        (st.out.update(value as int, Some(pt as usize)), tp)
                    } else {
                        (st.out, st.tbl)
                    },
                    _ => (st.out, st.tbl),
                };
                let (t, t2) = s_type_of(nodes, value as int, env1, t1);
                PredSt { env: env1.insert(name@, t), tbl: t2, out: out1 }
            } else {
                st
            },
            Node::MultiWrite { targets, value, .. } => if value < id {
                let env1 = spec_widen(w, span_of(nodes[value as int]), st.env);
                let (t, t1) = s_type_of(nodes, value as int, env1, st.tbl);
                PredSt {
                    env: bind_upto(targets@, targets@.len() as int, tuple_elems(t1, t, targets@.len() as int), env1),
                    tbl: t1,
                    out: st.out,
                }
            } else {
                st
            },
            Node::LocalVariableOpWrite { name, .. } => PredSt { env: st.env.insert(name@, untyped_id()), tbl: st.tbl, out: st.out },
            Node::If { predicate, then_body, else_body, .. } => if predicate < id && all_below(then_body@, id)
                && all_below(else_body@, id) {
                let (pt, t1) = s_type_of(nodes, predicate as int, st.env, st.tbl);
                let o1 = st.out.update(id, Some(pt as usize));
                let s_then = p_list(nodes, then_body@, id, PredSt { env: st.env, tbl: t1, out: o1 }, w);
                let s_else = p_list(nodes, else_body@, id, PredSt { env: st.env, tbl: s_then.tbl, out: s_then.out }, w);
                PredSt {
                    env: spec_widen(w, span_of(nodes[predicate as int]), spec_join(s_then.env, s_else.env, untyped_id())),
                    tbl: s_else.tbl,
                    out: s_else.out,
                }
            } else {
                st
            },
            Node::Definition { body, .. } => p_scope(nodes, body@, id, st, w),
            Node::ClassDef { body, .. } => p_scope(nodes, body@, id, st, w),
            Node::ModuleDef { body, .. } => p_scope(nodes, body@, id, st, w),
            _ => PredSt { env: spec_widen(w, span_of(nodes[id]), st.env), tbl: st.tbl, out: st.out },
        }
    }
}

/// A nested scope's body, walked from empty bindings; the enclosing
/// bindings stay as they were.
pub open spec fn p_scope(nodes: Seq<Node>, body: Seq<usize>, id: int, st: PredSt, w: Seq<(Span, Seq<char>)>) -> PredSt
    decreases id + 1, 0int, 0nat,
{
    if all_below(body, id) && 0 <= id < nodes.len() {
        let s1 = p_list(nodes, body, id, PredSt { env: Map::empty(), tbl: st.tbl, out: st.out }, w);
        PredSt { env: st.env, tbl: s1.tbl, out: s1.out }
    } else {
        st
    }
}

/// The walk state of concrete values.
pub open spec fn pst(env: Map<Seq<char>, nat>, tbl: Seq<TyV>, out: Seq<Option<usize>>) -> PredSt {
    PredSt { env, tbl, out }
}

/// The walk invariants: a well-formed program and table, every binding and
/// every record an id of the table, and one record slot per node.
pub open spec fn pwalk_ok(ast: &Ast, env: Map<Seq<char>, nat>, tbl: Seq<TyV>, out: Seq<Option<usize>>) -> bool {
    &&& ast.wf()
    &&& table_wf(tbl)
    &&& env_ok(env, tbl)
    &&& out.len() == ast.nodes@.len()
}

/// A walk step from `(t0, out0)` that lands on the state `s` and keeps the
/// walk invariants.
pub open spec fn plands(s: PredSt, env1: Map<Seq<char>, nat>, t0: Seq<TyV>, t1: Seq<TyV>, out0: Seq<Option<usize>>, out1: Seq<Option<usize>>) -> bool {
    &&& env1 == s.env
    &&& t1 == s.tbl
    &&& out1 == s.out
    &&& table_wf(t1)
    &&& extends(t0, t1)
    &&& env_ok(env1, t1)
    &&& out1.len() == out0.len()
}

/// Joined bindings of two valid environments are valid.
proof fn lemma_join_ok(a: Map<Seq<char>, nat>, b: Map<Seq<char>, nat>, tbl: Seq<TyV>)
    requires
        env_ok(a, tbl),
        env_ok(b, tbl),
        tbl.len() > 0,
    ensures
        env_ok(spec_join(a, b, untyped_id()), tbl),
{
    assert forall|k: Seq<char>| #[trigger] spec_join(a, b, untyped_id()).contains_key(k) implies spec_join(a, b, untyped_id())[k] < tbl.len() by {
        if a.contains_key(k) && b.contains_key(k) && a[k] == b[k] {
            assert(a[k] < tbl.len());
        }
    }
}

/// Walk a list of statements in turn.
fn pred_list(ast: &Ast, ids: &Vec<usize>, bound: usize, env: &mut TypeEnv, it: &mut Interner, out: &mut Vec<Option<usize>>, writes: &Vec<Write>)
    requires
        pwalk_ok(ast, old(env)@, old(it)@, old(out)@),
        bound <= ast.nodes@.len(),
    ensures
        plands(
            p_list(ast.nodes@, ids@, bound as int, pst(old(env)@, old(it)@, old(out)@), writes_view(writes@)),
            final(env)@, old(it)@, final(it)@, old(out)@, final(out)@,
        ),
    decreases bound, 1int, ids@.len(),
{
    let ghost w = writes_view(writes@);
    let ghost st0 = pst(env@, it@, out@);
    let ghost t0 = it@;
    let ghost o0 = out@;
    let mut k: usize = 0;
    assert(ids@.take(0) =~= Seq::<usize>::empty());
    while k < ids.len()
        invariant
            0 <= k <= ids@.len(),
            bound <= ast.nodes@.len(),
            w == writes_view(writes@),
            pwalk_ok(ast, env@, it@, out@),
            extends(t0, it@),
            out@.len() == o0.len(),
            st0 == pst(old(env)@, old(it)@, old(out)@),
            t0 == old(it)@,
            o0 == old(out)@,
            p_list(ast.nodes@, ids@.take(k as int), bound as int, st0, w) == pst(env@, it@, out@),
        decreases ids@.len() - k,
    {
        proof {
            assert(ids@.take(k as int + 1).drop_last() =~= ids@.take(k as int));
            assert(ids@.take(k as int + 1).last() == ids@[k as int]);
        }
        let id = ids[k];
        if id < bound {
            pred_stmt(ast, id, env, it, out, writes);
        }
        k = k + 1;
    }
    assert(ids@.take(ids@.len() as int) =~= ids@);
}

/// A nested scope's body, walked from empty bindings.
#[verifier::loop_isolation(false)]
fn pred_scope(ast: &Ast, body: &Vec<usize>, id: usize, env: &mut TypeEnv, it: &mut Interner, out: &mut Vec<Option<usize>>, writes: &Vec<Write>)
    requires
        pwalk_ok(ast, old(env)@, old(it)@, old(out)@),
        id < ast.nodes@.len(),
    ensures
        plands(
            p_scope(ast.nodes@, body@, id as int, pst(old(env)@, old(it)@, old(out)@), writes_view(writes@)),
            final(env)@, old(it)@, final(it)@, old(out)@, final(out)@,
        ),
    decreases id + 1, 0int, 0nat,
{
    let mut k: usize = 0;
    while k < body.len()
        invariant
            0 <= k <= body@.len(),
            forall|j: int| 0 <= j < k ==> body@[j] < id,
        decreases body@.len() - k,
    {
        if body[k] >= id {
            proof {
                assert(!all_below(body@, id as int));
                assert(extends(it@, it@));
            }
            return;
        }
        k = k + 1;
    }
    let ghost t0 = it@;
    let mut fresh = TypeEnv::new();
    proof {
        assert(env_ok(fresh@, it@));
    }
    pred_list(ast, body, id, &mut fresh, it, out, writes);
    proof {
        lemma_env_ok_grows(env@, t0, it@);
    }
}

/// One statement's effect.
fn pred_stmt(ast: &Ast, id: usize, env: &mut TypeEnv, it: &mut Interner, out: &mut Vec<Option<usize>>, writes: &Vec<Write>)
    requires
        pwalk_ok(ast, old(env)@, old(it)@, old(out)@),
        id < ast.nodes@.len(),
    ensures
        plands(
            p_stmt(ast.nodes@, id as int, pst(old(env)@, old(it)@, old(out)@), writes_view(writes@)),
            final(env)@, old(it)@, final(it)@, old(out)@, final(out)@,
        ),
    decreases id + 1, 1int, 0nat,
{
    proof {
        lemma_children_below(ast.nodes@, id as int);
    }
    let ghost t0 = it@;
    match ast.get(id) {
        Node::Statements { body, .. } => {
            pred_list(ast, body, id, env, it, out, writes);
        },
        Node::LocalVariableWrite { name, value, .. } => {
            let v = *value;
            proof {
                lemma_children_below(ast.nodes@, v as int);
            }
            widen_flow_writes(writes, crate::ast::node_span(ast.get(v)), env);
            match ast.get(v) {
                Node::If { predicate, .. } => {
                    let ghost tb = it@;
                    let pt = type_of(ast, *predicate, env, it);
                    proof {
                        lemma_env_ok_grows(env@, tb, it@);
                    }
                    out.set(v, Some(pt));
                },
                _ => {},
            }
            let ghost tb = it@;
            let t = type_of(ast, v, env, it);
            proof {
                lemma_env_ok_grows(env@, tb, it@);
            }
            env.insert(name.as_str(), t);
        },
        Node::MultiWrite { targets, value, .. } => {
            let v = *value;
            widen_flow_writes(writes, crate::ast::node_span(ast.get(v)), env);
            let ghost tb = it@;
            let t = type_of(ast, v, env, it);
            proof {
                lemma_env_ok_grows(env@, tb, it@);
            }
            bind_targets(targets, t, it, env);
        },
        Node::LocalVariableOpWrite { name, .. } => {
            env.insert(name.as_str(), 0);
        },
        Node::If { predicate, then_body, else_body, .. } => {
            let p = *predicate;
            let pt = type_of(ast, p, env, it);
            proof {
                lemma_env_ok_grows(env@, t0, it@);
            }
            out.set(id, Some(pt));
            let mut te = env.copy();
            pred_list(ast, then_body, id, &mut te, it, out, writes);
            proof {
                lemma_env_ok_grows(env@, t0, it@);
            }
            let mut fe = env.copy();
            let ghost t2 = it@;
            pred_list(ast, else_body, id, &mut fe, it, out, writes);
            proof {
                lemma_env_ok_grows(te@, t2, it@);
                lemma_join_ok(te@, fe@, it@);
            }
            let mut j = join_flow_envs(&te, &fe, 0);
            widen_flow_writes(writes, crate::ast::node_span(ast.get(p)), &mut j);
            *env = j;
        },
        Node::Definition { body, .. } => {
            pred_scope(ast, body, id, env, it, out, writes);
        },
        Node::ClassDef { body, .. } => {
            pred_scope(ast, body, id, env, it, out, writes);
        },
        Node::ModuleDef { body, .. } => {
            pred_scope(ast, body, id, env, it, out, writes);
        },
        _ => {
            widen_flow_writes(writes, crate::ast::node_span(ast.get(id)), env);
        },
    }
}

/// The predicate snapshots of the program: for each `if` / `unless` /
/// ternary node id reached by the walk (and each `if` assigned to a local),
/// the type its predicate folds to under the dominating bindings.
/// `mutated_params` names, for methods known to mutate an argument in place,
/// the method and the argument position.
pub open spec fn spec_truthy(nodes: Seq<Node>, mutates: Seq<(Seq<char>, usize)>, tbl: Seq<TyV>) -> PredSt {
    let w = writes_upto(nodes, nodes.len() as int, false) + arg_writes_all(nodes, nodes.len() as int, mutates);
    let root = nodes.len() - 1;
    let st0 = PredSt { env: Map::empty(), tbl, out: Seq::new(nodes.len(), |i: int| None::<usize>) };
    match nodes[root] {
        Node::Program { body, .. } => p_list(nodes, body@, root, st0, w),
        _ => st0,
    }
}

/// The predicate snapshots of the program, one slot per node id.
pub fn always_truthy_snapshots(ast: &Ast, mutated_params: &Vec<(String, usize)>, it: &mut Interner) -> (r: Vec<Option<usize>>)
    requires
        ast.wf(),
        table_wf(old(it)@),
    ensures
        r@ == spec_truthy(ast.nodes@, mutates_view(mutated_params@), old(it)@).out,
        final(it)@ == spec_truthy(ast.nodes@, mutates_view(mutated_params@), old(it)@).tbl,
        r@.len() == ast.nodes@.len(),
        table_wf(final(it)@),
{
    let mut out: Vec<Option<usize>> = Vec::new();
    let mut i: usize = 0;
    while i < ast.nodes.len()
        invariant
            0 <= i <= ast.nodes@.len(),
            out@ == Seq::<Option<usize>>::new(i as nat, |j: int| None::<usize>),
        decreases ast.nodes@.len() - i,
    {
        out.push(None);
        i = i + 1;
        assert(out@ =~= Seq::<Option<usize>>::new(i as nat, |j: int| None::<usize>));
    }
    let mut writes = collect_flow_writes(ast);
    let extra = indexed_flow_writes(ast, mutated_params);
    let ghost w1 = writes@;
    let mut k: usize = 0;
    while k < extra.len()
        invariant
            0 <= k <= extra@.len(),
            writes@ == w1 + extra@.take(k as int),
        decreases extra@.len() - k,
    {
        writes.push((extra[k].0, extra[k].1.clone()));
        k = k + 1;
        assert(writes@ =~= w1 + extra@.take(k as int));
    }
    proof {
        assert(extra@.take(extra@.len() as int) =~= extra@);
        assert(writes_view(writes@) =~= writes_view(w1) + writes_view(extra@));
    }
    let root = ast.root();
    let mut env = TypeEnv::new();
    proof {
        assert(extends(it@, it@));
    }
    match ast.get(root) {
        Node::Program { body, .. } => {
            proof {
                lemma_children_below(ast.nodes@, root as int);
            }
            pred_list(ast, body, root, &mut env, it, &mut out, &writes);
        },
        _ => {},
    }
    out
}

// --- Laws --------------------------------------------------------------------

/// Every record sits on an `if` / `unless` / ternary node.
pub open spec fn pred_records_ok(nodes: Seq<Node>, out: Seq<Option<usize>>) -> bool {
    forall|i: int| 0 <= i < out.len() && (#[trigger] out[i]) is Some ==> (0 <= i < nodes.len() && nodes[i] is If)
}

proof fn lemma_plist_records(nodes: Seq<Node>, ids: Seq<usize>, bound: int, st: PredSt, w: Seq<(Span, Seq<char>)>)
    requires
        pred_records_ok(nodes, st.out),
        st.out.len() == nodes.len(),
    ensures
        pred_records_ok(nodes, p_list(nodes, ids, bound, st, w).out),
        p_list(nodes, ids, bound, st, w).out.len() == st.out.len(),
    decreases bound, 1int, ids.len(),
{
    if ids.len() > 0 {
        lemma_plist_records(nodes, ids.drop_last(), bound, st, w);
        let s1 = p_list(nodes, ids.drop_last(), bound, st, w);
        if ids.last() < bound {
            lemma_pstmt_records(nodes, ids.last() as int, s1, w);
        }
    }
}

proof fn lemma_pscope_records(nodes: Seq<Node>, body: Seq<usize>, id: int, st: PredSt, w: Seq<(Span, Seq<char>)>)
    requires
        pred_records_ok(nodes, st.out),
        st.out.len() == nodes.len(),
    ensures
        pred_records_ok(nodes, p_scope(nodes, body, id, st, w).out),
        p_scope(nodes, body, id, st, w).out.len() == st.out.len(),
    decreases id + 1, 0int, 0nat,
{
    if all_below(body, id) && 0 <= id < nodes.len() {
        lemma_plist_records(nodes, body, id, PredSt { env: Map::empty(), tbl: st.tbl, out: st.out }, w);
    }
}

proof fn lemma_pstmt_records(nodes: Seq<Node>, id: int, st: PredSt, w: Seq<(Span, Seq<char>)>)
    requires
        pred_records_ok(nodes, st.out),
        st.out.len() == nodes.len(),
    ensures
        pred_records_ok(nodes, p_stmt(nodes, id, st, w).out),
        p_stmt(nodes, id, st, w).out.len() == st.out.len(),
    decreases id + 1, 1int, 0nat,
{
    if 0 <= id < nodes.len() {
        match nodes[id] {
            Node::Statements { body, .. } => {
                if all_below(body@, id) {
                    lemma_plist_records(nodes, body@, id, st, w);
                }
            },
            Node::LocalVariableWrite { value, .. } => {
                if value < id {
                    match nodes[value as int] {
                        Node::If { predicate, .. } => {
                            if predicate < value {
                                let (pt, tp) = s_type_of(nodes, predicate as int, spec_widen(w, span_of(nodes[value as int]), st.env), st.tbl);
                                let o = st.out.update(value as int, Some(pt as usize));
                                assert forall|i: int| 0 <= i < o.len() && (#[trigger] o[i]) is Some implies (0 <= i < nodes.len() && nodes[i] is If) by {
                                    if i != value {
                                        assert(o[i] == st.out[i]);
                                    }
                                }
                            }
                        },
                        _ => {},
                    }
                }
            },
            Node::If { predicate, then_body, else_body, .. } => {
                if predicate < id && all_below(then_body@, id) && all_below(else_body@, id) {
                    let (pt, t1) = s_type_of(nodes, predicate as int, st.env, st.tbl);
                    let o1 = st.out.update(id, Some(pt as usize));
                    assert forall|i: int| 0 <= i < o1.len() && (#[trigger] o1[i]) is Some implies (0 <= i < nodes.len() && nodes[i] is If) by {
                        if i != id {
                            assert(o1[i] == st.out[i]);
                        }
                    }
                    let s0 = PredSt { env: st.env, tbl: t1, out: o1 };
                    lemma_plist_records(nodes, then_body@, id, s0, w);
                    let s_then = p_list(nodes, then_body@, id, s0, w);
                    lemma_plist_records(nodes, else_body@, id, PredSt { env: st.env, tbl: s_then.tbl, out: s_then.out }, w);
                }
            },
            Node::Definition { body, .. } => lemma_pscope_records(nodes, body@, id, st, w),
            Node::ClassDef { body, .. } => lemma_pscope_records(nodes, body@, id, st, w),
            Node::ModuleDef { body, .. } => lemma_pscope_records(nodes, body@, id, st, w),
            _ => {},
        }
    }
}

/// The substrate records a predicate type only at `if` / `unless` /
/// ternary nodes.
pub proof fn lemma_truthy_records_only_at_ifs(nodes: Seq<Node>, mutates: Seq<(Seq<char>, usize)>, tbl: Seq<TyV>, i: int)
    requires
        0 <= i < nodes.len(),
        spec_truthy(nodes, mutates, tbl).out[i] is Some,
    ensures
        nodes[i] is If,
{
    let w = writes_upto(nodes, nodes.len() as int, false) + arg_writes_all(nodes, nodes.len() as int, mutates);
    let st0 = PredSt { env: Map::empty(), tbl, out: Seq::new(nodes.len(), |j: int| None::<usize>) };
    assert(pred_records_ok(nodes, st0.out));
    match nodes[nodes.len() - 1] {
        Node::Program { body, .. } => {
            lemma_plist_records(nodes, body@, nodes.len() - 1, st0, w);
        },
        _ => {},
    }
}


/// A compound assignment (`x += e`, `x ||= e`, …) leaves its local untyped:
/// the walk binds it to `Dynamic[top]`, so a later read of it types to
/// `Dynamic[top]` and no predicate folds from its earlier constant.
pub proof fn lemma_op_write_unpins_local(
    nodes: Seq<Node>,
    id: int,
    st: PredSt,
    w: Seq<(Span, Seq<char>)>,
    name: Seq<char>,
    j: int,
)
    requires
        0 <= id < nodes.len(),
        nodes[id] matches Node::LocalVariableOpWrite { name: n, .. } && n@ == name,
        0 <= j < nodes.len(),
        nodes[j] matches Node::LocalVariableRead { name: m, .. } && m@ == name,
    ensures
        p_stmt(nodes, id, st, w).env.contains_key(name),
        p_stmt(nodes, id, st, w).env[name] == untyped_id(),
        s_type_of(nodes, j, p_stmt(nodes, id, st, w).env, p_stmt(nodes, id, st, w).tbl) == (
            untyped_id(),
            p_stmt(nodes, id, st, w).tbl,
        ),
{
}

} // verus!
