//! Collection-shape receiver survival: which calls have a bare-local receiver
//! that still carries an Array or Hash at the call, threaded through a
//! program's statements in source order.
use vstd::prelude::*;
use crate::ast::{Ast, Node, Span, span_of, children, all_below, nodes_wf, node_span};
use crate::env::{TypeEnv, spec_join, join_flow_envs};
use crate::scalar::{Scalar, ScalarV, opt_view};
use crate::text::str_eq;
use crate::types::{CoreClass, TyNode, TyV, Interner, table_wf, ty_children_below, spec_intern, spec_ty_join, untyped_id, nominal_id, scalar_copy};
use crate::folding::{spec_fold, fold, FoldOracle, RubyFolder, NoFolder, folder_oracle, no_folder};
use crate::shape::{s_dispatch, dispatch, node_at};
use crate::kernel::{spec_kernel_conversion, kernel_conversion};

verus! {

// --- Mutator tables --------------------------------------------------------

/// The in-place Array mutators.
pub open spec fn is_array_mutator(m: Seq<char>) -> bool {
    m == "<<"@ || m == "push"@ || m == "append"@ || m == "prepend"@ || m == "unshift"@ || m
        == "concat"@ || m == "insert"@ || m == "pop"@ || m == "shift"@ || m == "delete"@ || m
        == "delete_at"@ || m == "delete_if"@ || m == "reject!"@ || m == "clear"@ || m
        == "compact!"@ || m == "replace"@ || m == "fill"@ || m == "[]="@ || m == "map!"@ || m
        == "collect!"@ || m == "select!"@ || m == "filter!"@ || m == "keep_if"@ || m == "uniq!"@
        || m == "flatten!"@ || m == "sort!"@ || m == "sort_by!"@ || m == "reverse!"@ || m
        == "rotate!"@ || m == "shuffle!"@ || m == "slice!"@
}

/// The in-place Hash mutators.
pub open spec fn is_hash_mutator(m: Seq<char>) -> bool {
    m == "[]="@ || m == "store"@ || m == "delete"@ || m == "delete_if"@ || m == "reject!"@ || m
        == "select!"@ || m == "filter!"@ || m == "keep_if"@ || m == "clear"@ || m == "compact!"@
        || m == "merge!"@ || m == "update"@ || m == "transform_keys!"@ || m
        == "transform_values!"@ || m == "replace"@
}

/// Every in-place mutator of either table.
pub open spec fn is_mutator(m: Seq<char>) -> bool {
    is_array_mutator(m) || is_hash_mutator(m)
}

/// Whether `m` is an in-place Array mutator.
pub fn array_mutator(m: &str) -> (r: bool)
    ensures
        r == is_array_mutator(m@),
{
    str_eq(m, "<<") || str_eq(m, "push") || str_eq(m, "append") || str_eq(m, "prepend")
        || str_eq(m, "unshift") || str_eq(m, "concat") || str_eq(m, "insert") || str_eq(m, "pop")
        || str_eq(m, "shift") || str_eq(m, "delete") || str_eq(m, "delete_at") || str_eq(
        m,
        "delete_if",
    ) || str_eq(m, "reject!") || str_eq(m, "clear") || str_eq(m, "compact!") || str_eq(
        m,
        "replace",
    ) || str_eq(m, "fill") || str_eq(m, "[]=") || str_eq(m, "map!") || str_eq(m, "collect!")
        || str_eq(m, "select!") || str_eq(m, "filter!") || str_eq(m, "keep_if") || str_eq(
        m,
        "uniq!",
    ) || str_eq(m, "flatten!") || str_eq(m, "sort!") || str_eq(m, "sort_by!") || str_eq(
        m,
        "reverse!",
    ) || str_eq(m, "rotate!") || str_eq(m, "shuffle!") || str_eq(m, "slice!")
}

/// Whether `m` is an in-place Hash mutator.
pub fn hash_mutator(m: &str) -> (r: bool)
    ensures
        r == is_hash_mutator(m@),
{
    str_eq(m, "[]=") || str_eq(m, "store") || str_eq(m, "delete") || str_eq(m, "delete_if")
        || str_eq(m, "reject!") || str_eq(m, "select!") || str_eq(m, "filter!") || str_eq(
        m,
        "keep_if",
    ) || str_eq(m, "clear") || str_eq(m, "compact!") || str_eq(m, "merge!") || str_eq(
        m,
        "update",
    ) || str_eq(m, "transform_keys!") || str_eq(m, "transform_values!") || str_eq(m, "replace")
}

// --- Flow writes -----------------------------------------------------------

/// A recorded write: the span that contains it and the local it touches.
pub type Write = (Span, String);

/// The view of a write list.
pub open spec fn writes_view(w: Seq<Write>) -> Seq<(Span, Seq<char>)> {
    w.map_values(|e: Write| (e.0, e.1@))
}

/// The names a multi-write binds, each keyed by the whole statement's span.
pub open spec fn multi_write_entries(targets: Seq<String>, span: Span) -> Seq<(Span, Seq<char>)> {
    targets.map_values(|t: String| (span, t@))
}

/// The rebinds node `i` performs: a local (op-)assignment or the targets of
/// a multi-write.
pub open spec fn node_rebinds(nodes: Seq<Node>, i: int) -> Seq<(Span, Seq<char>)> {
    match nodes[i] {
        Node::LocalVariableWrite { name, span, .. } => seq![(span, name@)],
        Node::LocalVariableOpWrite { name, span, .. } => seq![(span, name@)],
        Node::MultiWrite { targets, span, .. } => multi_write_entries(targets@, span),
        _ => Seq::empty(),
    }
}

/// The bare local a call's receiver reads, if any.
pub open spec fn receiver_local(nodes: Seq<Node>, receiver: Option<usize>) -> Option<Seq<char>> {
    match receiver {
        Some(r) => if r < nodes.len() {
            match nodes[r as int] {
                Node::LocalVariableRead { name, .. } => Some(name@),
                _ => None,
            }
        } else {
            None
        },
        None => None,
    }
}

/// The writes node `i` performs: its rebinds, and an in-place mutator call on
/// a bare local.
pub open spec fn node_writes(nodes: Seq<Node>, i: int) -> Seq<(Span, Seq<char>)> {
    match nodes[i] {
        Node::Call { receiver, method, span, .. } => if is_mutator(method@) {
            match receiver_local(nodes, receiver) {
                Some(n) => seq![(span, n)],
                None => Seq::empty(),
            }
        } else {
            Seq::empty()
        },
        _ => node_rebinds(nodes, i),
    }
}

/// The writes of the first `n` nodes, in id order.
pub open spec fn writes_upto(nodes: Seq<Node>, n: int, rebinds_only: bool) -> Seq<(Span, Seq<char>)>
    decreases n,
{
    if n <= 0 {
        Seq::empty()
    } else {
        writes_upto(nodes, n - 1, rebinds_only) + (if rebinds_only {
            node_rebinds(nodes, n - 1)
        } else {
            node_writes(nodes, n - 1)
        })
    }
}

/// The view of a write list grows by the view of the pushed write.
proof fn lemma_writes_view_push(s: Seq<Write>, e: Write)
    ensures
        writes_view(s.push(e)) == writes_view(s).push((e.0, e.1@)),
{
    assert(writes_view(s.push(e)) =~= writes_view(s).push((e.0, e.1@)));
}

/// Append the targets of a multi-write, keyed by `span`.
fn push_targets(out: &mut Vec<Write>, targets: &Vec<String>, span: Span)
    ensures
        writes_view(final(out)@) == writes_view(old(out)@) + multi_write_entries(targets@, span),
{
    let mut j: usize = 0;
    while j < targets.len()
        invariant
            0 <= j <= targets@.len(),
            writes_view(out@) == writes_view(old(out)@) + multi_write_entries(targets@, span).take(j as int),
        decreases targets@.len() - j,
    {
        let ghost prev = out@;
        out.push((span, targets[j].clone()));
        proof {
            lemma_writes_view_push(prev, (span, targets@[j as int]));
        }
        j = j + 1;
        assert(multi_write_entries(targets@, span).take(j as int) =~= multi_write_entries(targets@, span).take(j - 1).push((span, targets@[j - 1]@)));
        assert(writes_view(out@) =~= writes_view(old(out)@) + multi_write_entries(targets@, span).take(j as int));
    }
    assert(multi_write_entries(targets@, span).take(targets@.len() as int) =~= multi_write_entries(targets@, span));
}

/// The name of a bare local read at `r`, if it is one.
fn local_read_name(ast: &Ast, r: Option<usize>) -> (out: Option<&String>)
    ensures
        out matches Some(n) ==> receiver_local(ast.nodes@, r) == Some(n@),
        out is None ==> receiver_local(ast.nodes@, r) is None,
{
    match r {
        Some(r) => if r < ast.len() {
            match ast.get(r) {
                Node::LocalVariableRead { name, .. } => Some(name),
                _ => None,
            }
        } else {
            None
        },
        None => None,
    }
}

/// Every flow write of the arena, once, for span-containment widening:
/// local rebinds, multi-write targets, and in-place mutator calls on a bare
/// local (the mutator forgets the literal shape). With `rebinds_only` the
/// mutator entries are left out: a mutation keeps a nominal carrier while a
/// rebind kills it, and the merged table cannot tell them apart.
pub fn collect_writes(ast: &Ast, rebinds_only: bool) -> (r: Vec<Write>)
    ensures
        writes_view(r@) == writes_upto(ast.nodes@, ast.nodes@.len() as int, rebinds_only),
{
    let mut out: Vec<Write> = Vec::new();
    let mut i: usize = 0;
    while i < ast.len()
        invariant
            0 <= i <= ast.nodes@.len(),
            writes_view(out@) == writes_upto(ast.nodes@, i as int, rebinds_only),
        decreases ast.nodes@.len() - i,
    {
        let ghost before = out@;
        let node = ast.get(i);
        match node {
            Node::LocalVariableWrite { name, span, .. } => {
                out.push((*span, name.clone()));
                proof {
                    lemma_writes_view_push(before, (*span, *name));
                }
            },
            Node::LocalVariableOpWrite { name, span, .. } => {
                out.push((*span, name.clone()));
                proof {
                    lemma_writes_view_push(before, (*span, *name));
                }
            },
            Node::MultiWrite { targets, span, .. } => {
                push_targets(&mut out, targets, *span);
            },
            Node::Call { receiver, method, span, .. } => {
                if !rebinds_only && (array_mutator(method.as_str()) || hash_mutator(method.as_str())) {
                    match local_read_name(ast, *receiver) {
                        Some(n) => {
                            out.push((*span, n.clone()));
                            proof {
                                lemma_writes_view_push(before, (*span, *n));
                            }
                        },
                        None => {},
                    }
                }
            },
            _ => {},
        }
        proof {
            let add = if rebinds_only { node_rebinds(ast.nodes@, i as int) } else { node_writes(ast.nodes@, i as int) };
            assert(writes_view(out@) =~= writes_view(before) + add);
        }
        i = i + 1;
    }
    out
}

/// Every flow write: rebinds and in-place mutations.
pub fn collect_flow_writes(ast: &Ast) -> (r: Vec<Write>)
    ensures
        writes_view(r@) == writes_upto(ast.nodes@, ast.nodes@.len() as int, false),
{
    collect_writes(ast, false)
}

/// The rebinds only.
pub fn collect_rebind_writes(ast: &Ast) -> (r: Vec<Write>)
    ensures
        writes_view(r@) == writes_upto(ast.nodes@, ast.nodes@.len() as int, true),
{
    collect_writes(ast, true)
}

/// The argument-position mutations of node `i`: each argument that is a bare
/// local read in a position whose callee mutates that parameter in place.
pub open spec fn node_arg_writes(nodes: Seq<Node>, i: int, mutates: Seq<(Seq<char>, usize)>) -> Seq<(Span, Seq<char>)> {
    match nodes[i] {
        Node::Call { method, args, span, .. } => arg_writes_upto(nodes, method@, args@, span, mutates, args@.len() as int),
        _ => Seq::empty(),
    }
}

/// The argument-position mutations among the first `k` arguments of a call.
pub open spec fn arg_writes_upto(nodes: Seq<Node>, m: Seq<char>, args: Seq<usize>, span: Span, mutates: Seq<(Seq<char>, usize)>, k: int) -> Seq<(Span, Seq<char>)>
    decreases k,
{
    if k <= 0 {
        Seq::empty()
    } else {
        arg_writes_upto(nodes, m, args, span, mutates, k - 1) + (if mutates.contains((m, (k - 1) as usize)) {
            match receiver_local(nodes, Some(args[k - 1])) {
                Some(n) => seq![(span, n)],
                None => Seq::empty(),
            }
        } else {
            Seq::empty()
        })
    }
}

/// The argument-position mutations of the first `n` nodes.
pub open spec fn arg_writes_all(nodes: Seq<Node>, n: int, mutates: Seq<(Seq<char>, usize)>) -> Seq<(Span, Seq<char>)>
    decreases n,
{
    if n <= 0 {
        Seq::empty()
    } else {
        arg_writes_all(nodes, n - 1, mutates) + node_arg_writes(nodes, n - 1, mutates)
    }
}

/// The view of a mutated-parameter table.
pub open spec fn mutates_view(t: Seq<(String, usize)>) -> Seq<(Seq<char>, usize)> {
    t.map_values(|e: (String, usize)| (e.0@, e.1))
}

/// Whether the table lists parameter `k` of `method` as mutated in place.
fn mutates_param(table: &Vec<(String, usize)>, method: &str, k: usize) -> (r: bool)
    ensures
        r == mutates_view(table@).contains((method@, k)),
{
    let mut i: usize = 0;
    while i < table.len()
        invariant
            0 <= i <= table@.len(),
            forall|j: int| 0 <= j < i ==> mutates_view(table@)[j] != (method@, k),
        decreases table@.len() - i,
    {
        if table[i].1 == k && str_eq(table[i].0.as_str(), method) {
            assert(mutates_view(table@)[i as int] == (method@, k));
            return true;
        }
        i = i + 1;
    }
    false
}

/// The flow writes that need a cross-procedure fact: an argument passed to a
/// callee that mutates the matching positional parameter in place (`table`
/// lists each such `(method, parameter index)`), keyed by the whole call's
/// span, so the enclosing construct widens the local.
pub fn indexed_flow_writes(ast: &Ast, table: &Vec<(String, usize)>) -> (r: Vec<Write>)
    ensures
        writes_view(r@) == arg_writes_all(ast.nodes@, ast.nodes@.len() as int, mutates_view(table@)),
{
    let mut out: Vec<Write> = Vec::new();
    let mut i: usize = 0;
    while i < ast.len()
        invariant
            0 <= i <= ast.nodes@.len(),
            writes_view(out@) == arg_writes_all(ast.nodes@, i as int, mutates_view(table@)),
        decreases ast.nodes@.len() - i,
    {
        let ghost before = out@;
        match ast.get(i) {
            Node::Call { method, args, span, .. } => {
                let mut k: usize = 0;
                while k < args.len()
                    invariant
                        0 <= k <= args@.len(),
                        ast.nodes@[i as int] == (Node::Call { receiver: ast.nodes@[i as int]->receiver, method: *method, args: *args, block_body: ast.nodes@[i as int]->block_body, safe_nav: ast.nodes@[i as int]->safe_nav, span: *span }),
                        writes_view(out@) == writes_view(before) + arg_writes_upto(ast.nodes@, method@, args@, *span, mutates_view(table@), k as int),
                    decreases args@.len() - k,
                {
                    let ghost mid = out@;
                    if mutates_param(table, method.as_str(), k) {
                        match local_read_name(ast, Some(args[k])) {
                            Some(n) => {
                                let ghost prev = out@;
                                out.push((*span, n.clone()));
                                proof {
                                    lemma_writes_view_push(prev, (*span, *n));
                                }
                            },
                            None => {},
                        }
                    }
                    k = k + 1;
                    assert(writes_view(out@) =~= writes_view(before) + arg_writes_upto(ast.nodes@, method@, args@, *span, mutates_view(table@), k as int));
                }
            },
            _ => {},
        }
        assert(writes_view(out@) =~= writes_view(before) + node_arg_writes(ast.nodes@, i as int, mutates_view(table@)));
        i = i + 1;
    }
    out
}

/// `inner` lies within `outer`.
pub open spec fn span_within(inner: Span, outer: Span) -> bool {
    outer.0 <= inner.0 && inner.1 <= outer.1
}

/// Widen to `Dynamic[top]` every local whose write lies within `span`, in
/// write order.
pub open spec fn spec_widen(writes: Seq<(Span, Seq<char>)>, span: Span, env: Map<Seq<char>, nat>) -> Map<Seq<char>, nat>
    decreases writes.len(),
{
    if writes.len() == 0 {
        env
    } else {
        let e = spec_widen(writes.drop_last(), span, env);
        if span_within(writes.last().0, span) {
            e.insert(writes.last().1, untyped_id())
        } else {
            e
        }
    }
}

/// Widen (to `Dynamic[top]`) every tracked local whose write span is
/// contained in `span` — the conservative invalidation a control-flow
/// construct applies.
pub fn widen_flow_writes(writes: &Vec<Write>, span: Span, env: &mut TypeEnv)
    ensures
        final(env)@ == spec_widen(writes_view(writes@), span, old(env)@),
        forall|tbl: Seq<TyV>| env_ok(old(env)@, tbl) && tbl.len() > 0 ==> #[trigger] env_ok(final(env)@, tbl),
{
    proof {
        assert forall|tbl: Seq<TyV>| env_ok(old(env)@, tbl) && tbl.len() > 0 implies #[trigger] env_ok(spec_widen(writes_view(writes@), span, old(env)@), tbl) by {
            lemma_widen_ok(writes_view(writes@), span, old(env)@, tbl);
        }
    }
    let mut i: usize = 0;
    while i < writes.len()
        invariant
            0 <= i <= writes@.len(),
            env@ == spec_widen(writes_view(writes@).take(i as int), span, old(env)@),
        decreases writes@.len() - i,
    {
        let ghost w = writes_view(writes@);
        proof {
            assert(w.take(i as int + 1).drop_last() =~= w.take(i as int));
        }
        if span.0 <= writes[i].0.0 && writes[i].0.1 <= span.1 {
            env.insert(writes[i].1.as_str(), 0);
        }
        i = i + 1;
    }
    assert(writes_view(writes@).take(writes@.len() as int) =~= writes_view(writes@));
}

/// Re-applied carriers keep every binding a valid id.
pub proof fn lemma_apply_ok(env: Map<Seq<char>, nat>, c: Map<Seq<char>, nat>, rebinds: Seq<(Span, Seq<char>)>, span: Span, tbl: Seq<TyV>)
    requires
        env_ok(env, tbl),
        env_ok(c, tbl),
    ensures
        env_ok(apply_carriers(env, c, rebinds, span), tbl),
{
}

/// Bindings valid in a table stay valid as it grows.
pub proof fn lemma_env_ok_grows(env: Map<Seq<char>, nat>, t0: Seq<TyV>, t1: Seq<TyV>)
    requires
        env_ok(env, t0),
        extends(t0, t1),
    ensures
        env_ok(env, t1),
{
}

/// Widening keeps every binding a valid id.
pub proof fn lemma_widen_ok(writes: Seq<(Span, Seq<char>)>, span: Span, env: Map<Seq<char>, nat>, tbl: Seq<TyV>)
    requires
        env_ok(env, tbl),
        tbl.len() > 0,
    ensures
        env_ok(spec_widen(writes, span, env), tbl),
    decreases writes.len(),
{
    if writes.len() > 0 {
        lemma_widen_ok(writes.drop_last(), span, env, tbl);
    }
}

/// Whether `name` is rebound (not merely mutated) somewhere inside `span`.
pub open spec fn spec_rebound_within(rebinds: Seq<(Span, Seq<char>)>, span: Span, name: Seq<char>) -> bool {
    exists|j: int| 0 <= j < rebinds.len() && rebinds[j].1 == name && span_within(rebinds[j].0, span)
}

/// Whether `name` is rebound (not merely mutated) somewhere inside `span`.
pub fn rebound_within(rebinds: &Vec<Write>, span: Span, name: &str) -> (r: bool)
    ensures
        r == spec_rebound_within(writes_view(rebinds@), span, name@),
{
    let ghost w = writes_view(rebinds@);
    let mut i: usize = 0;
    while i < rebinds.len()
        invariant
            0 <= i <= rebinds@.len(),
            w == writes_view(rebinds@),
            forall|j: int| 0 <= j < i ==> !(w[j].1 == name@ && span_within(w[j].0, span)),
        decreases rebinds@.len() - i,
    {
        if str_eq(rebinds[i].1.as_str(), name) && span.0 <= rebinds[i].0.0 && rebinds[i].0.1 <= span.1 {
            assert(w[i as int].1 == name@ && span_within(w[i as int].0, span));
            return true;
        }
        i = i + 1;
    }
    false
}


// --- Expression types ------------------------------------------------------

/// The pinned scalar a literal node denotes as a hash key, if it is one.
pub open spec fn static_key(n: Node) -> Option<ScalarV> {
    match n {
        Node::SymbolLit { value, .. } => Some(ScalarV::Sym(value@)),
        Node::StringLit { value, .. } => Some(ScalarV::Str(value@)),
        Node::IntegerLit { value, .. } => Some(ScalarV::Int(value)),
        Node::FloatLit { value, .. } => Some(ScalarV::Float(value)),
        Node::TrueLit { .. } => Some(ScalarV::Bool(true)),
        Node::FalseLit { .. } => Some(ScalarV::Bool(false)),
        Node::NilLit { .. } => Some(ScalarV::Nil),
        _ => None,
    }
}

/// An array element that stands for more than one value or none (a splat,
/// a `return`), after which the literal's arity is unknown.
pub open spec fn is_opaque_element(n: Node) -> bool {
    (n is Statements) || (n is Other) || (n is Return)
}

/// The first position of `key` among the members, if any.
pub open spec fn find_key(members: Seq<(ScalarV, usize)>, key: ScalarV) -> Option<int>
    decreases members.len(),
{
    if members.len() == 0 {
        None
    } else {
        match find_key(members.drop_last(), key) {
            Some(j) => Some(j),
            None => if members.last().0 == key {
                Some(members.len() - 1)
            } else {
                None
            },
        }
    }
}

/// Add a member; an existing key keeps its first position and takes the
/// last value.
pub open spec fn upsert(members: Seq<(ScalarV, usize)>, key: ScalarV, v: usize) -> Seq<(ScalarV, usize)> {
    match find_key(members, key) {
        Some(j) => members.update(j, (key, v)),
        None => members.push((key, v)),
    }
}

/// The scalar a type id pins, if it is a `Constant`.
pub open spec fn const_of(tbl: Seq<TyV>, t: nat) -> Option<ScalarV> {
    if t < tbl.len() {
        match tbl[t as int] {
            TyV::Constant(s) => Some(s),
            _ => None,
        }
    } else {
        None
    }
}

/// The scalars a list of type ids pins, when every one is a `Constant`.
pub open spec fn consts_of(tbl: Seq<TyV>, ts: Seq<usize>) -> Option<Seq<ScalarV>>
    decreases ts.len(),
{
    if ts.len() == 0 {
        Some(Seq::empty())
    } else {
        match (consts_of(tbl, ts.drop_last()), const_of(tbl, ts.last() as nat)) {
            (Some(p), Some(s)) => Some(p.push(s)),
            _ => None,
        }
    }
}

/// The core class a constant names for `.new`, if it is `Array`, `Hash`
/// or `String`.
pub open spec fn new_class(n: Node) -> Option<CoreClass> {
    match n {
        Node::ConstantRead { name, .. } => if name@ == "Array"@ {
            Some(CoreClass::Array)
        } else if name@ == "Hash"@ {
            Some(CoreClass::Hash)
        } else if name@ == "String"@ {
            Some(CoreClass::String)
        } else {
            None
        },
        _ => None,
    }
}

/// The type of expression `id` under `env`, and the type table after the
/// types it interned. Literals pin `Constant`s, array and hash literals give
/// `Tuple`s and `HashShape`s, a local read gives its binding, `Array.new` /
/// `Hash.new` / `String.new` (with or without a block) give the bare class, a block-free
/// call dispatches by [`s_dispatch`] over the types of its receiver and
/// arguments, a receiverless call by [`s_implicit`]; everything else is
/// `Dynamic[top]`. Every argument is typed, left to right, before dispatch.
pub open spec fn s_type_of_f(fo: FoldOracle, nodes: Seq<Node>, id: int, env: Map<Seq<char>, nat>, tbl: Seq<TyV>) -> (nat, Seq<TyV>)
    decreases id + 1, 0int,
{
    if id < 0 || id >= nodes.len() {
        (untyped_id(), tbl)
    } else {
        match nodes[id] {
            Node::StringLit { value, .. } => spec_intern(tbl, TyV::Constant(ScalarV::Str(value@))),
            Node::IntegerLit { value, .. } => spec_intern(tbl, TyV::Constant(ScalarV::Int(value))),
            Node::FloatLit { value, .. } => spec_intern(tbl, TyV::Constant(ScalarV::Float(value))),
            Node::SymbolLit { value, .. } => spec_intern(tbl, TyV::Constant(ScalarV::Sym(value@))),
            Node::NilLit { .. } => spec_intern(tbl, TyV::Constant(ScalarV::Nil)),
            Node::TrueLit { .. } => spec_intern(tbl, TyV::Constant(ScalarV::Bool(true))),
            Node::FalseLit { .. } => spec_intern(tbl, TyV::Constant(ScalarV::Bool(false))),
            Node::LocalVariableRead { name, .. } => if env.contains_key(name@) {
                (env[name@], tbl)
            } else {
                (untyped_id(), tbl)
            },
            Node::MultiWrite { value, .. } => if value < id {
                s_type_of_f(fo, nodes, value as int, env, tbl)
            } else {
                (untyped_id(), tbl)
            },
            Node::ArrayLit { elements, .. } => if elements@.len() == 0 {
                spec_intern(tbl, TyV::Tuple(Seq::empty()))
            } else if !all_below(elements@, id) {
                (untyped_id(), tbl)
            } else if exists|k: int| 0 <= k < elements@.len() && is_opaque_element(nodes[elements@[k] as int]) {
                (nominal_id(CoreClass::Array), tbl)
            } else {
                let (ts, t1) = s_type_list_f(fo, nodes, elements@, id, env, tbl);
                spec_intern(t1, TyV::Tuple(ts))
            },
            Node::HashLit { elements, all_assoc, .. } => if !all_assoc {
                (nominal_id(CoreClass::Hash), tbl)
            } else if !all_below(elements@, id) {
                (untyped_id(), tbl)
            } else {
                s_hash_shape_f(fo, nodes, elements@, 0, id, env, tbl, Seq::empty())
            },
            Node::Call { receiver: Some(r), method, args, block_body, .. } => if method@ == "new"@ && r < id
                && new_class(nodes[r as int]) is Some {
                (nominal_id(new_class(nodes[r as int])->Some_0), tbl)
            } else if block_body@.len() == 0 && r < id && all_below(args@, id) {
                let (rt, t1) = s_type_of_f(fo, nodes, r as int, env, tbl);
                let (ats, t2) = s_type_list_f(fo, nodes, args@, id, env, t1);
                s_dispatch(fo, t2, rt, method@, ats)
            } else {
                (untyped_id(), tbl)
            },
            Node::Call { receiver: None, method, args, .. } => s_implicit_f(fo, nodes, id, method@, args@, env, tbl),
            Node::If { predicate, then_body, else_body, is_unless, .. } => if predicate < id && all_below(then_body@, id)
                && all_below(else_body@, id) {
                let (then_ty, t1) = s_branch_value_f(fo, nodes, then_body@, id, env, tbl);
                let (else_ty, t2) = if else_body@.len() == 0 {
                    spec_intern(t1, TyV::Constant(ScalarV::Nil))
                } else {
                    s_branch_value_f(fo, nodes, else_body@, id, env, t1)
                };
                let (pt, t3) = s_type_of_f(fo, nodes, predicate as int, env, t2);
                match polarity(t3, pt) {
                    Some(true) => (if is_unless { else_ty } else { then_ty }, t3),
                    Some(false) => (if is_unless { then_ty } else { else_ty }, t3),
                    None => spec_ty_join(t3, then_ty, else_ty),
                }
            } else {
                (untyped_id(), tbl)
            },
            Node::Case { branches, else_body, .. } => if all_below(branches@, id) && all_below(else_body@, id) {
                let (acc, t1) = s_case_branches_f(fo, nodes, branches@, id, env, tbl);
                let (else_ty, t2) = if else_body@.len() == 0 {
                    spec_intern(t1, TyV::Constant(ScalarV::Nil))
                } else {
                    s_branch_value_f(fo, nodes, else_body@, id, env, t1)
                };
                match acc {
                    Some(a) => spec_ty_join(t2, a, else_ty),
                    None => (else_ty, t2),
                }
            } else {
                (untyped_id(), tbl)
            },
            _ => (untyped_id(), tbl),
        }
    }
}

/// The join of the values of a `case`'s `when` clauses, left to right
/// (`None` when there are none), and the table after them.
pub open spec fn s_case_branches_f(fo: FoldOracle, nodes: Seq<Node>, branches: Seq<usize>, bound: int, env: Map<Seq<char>, nat>, tbl: Seq<TyV>) -> (Option<nat>, Seq<TyV>)
    decreases bound, branches.len() + 3,
{
    if branches.len() == 0 {
        (None, tbl)
    } else {
        let (acc, t1) = s_case_branches_f(fo, nodes, branches.drop_last(), bound, env, tbl);
        let (v, t2) = if branches.last() < bound {
            s_stmt_value_f(fo, nodes, branches.last() as int, env, t1)
        } else {
            (untyped_id(), t1)
        };
        match acc {
            None => (Some(v), t2),
            Some(a) => {
                let (j, t3) = spec_ty_join(t2, a, v);
                (Some(j), t3)
            },
        }
    }
}

/// Whether a value of type `t` is always truthy (`Some(true)`), always
/// falsey (`Some(false)`: only `nil` and `false`), or not known.
pub open spec fn polarity(tbl: Seq<TyV>, t: nat) -> Option<bool> {
    match node_at(tbl, t) {
        Some(TyV::Constant(ScalarV::Nil)) => Some(false),
        Some(TyV::Constant(ScalarV::Bool(false))) => Some(false),
        Some(TyV::Constant(_)) => Some(true),
        Some(TyV::Tuple(_)) => Some(true),
        Some(TyV::HashShape(_)) => Some(true),
        Some(TyV::Nominal(_)) => Some(true),
        _ => None,
    }
}

/// The value a branch body evaluates to: its last statement's value, or
/// `nil` for an empty body.
pub open spec fn s_branch_value_f(fo: FoldOracle, nodes: Seq<Node>, body: Seq<usize>, bound: int, env: Map<Seq<char>, nat>, tbl: Seq<TyV>) -> (nat, Seq<TyV>)
    decreases bound, 2int,
{
    if body.len() == 0 {
        spec_intern(tbl, TyV::Constant(ScalarV::Nil))
    } else if body.last() < bound {
        s_stmt_value_f(fo, nodes, body.last() as int, env, tbl)
    } else {
        (untyped_id(), tbl)
    }
}

/// The value one statement evaluates to: a statement group's last
/// statement, a `when` clause's last body statement (or last condition when
/// the body is empty), an assignment's right-hand side, or the statement's
/// own type.
pub open spec fn s_stmt_value_f(fo: FoldOracle, nodes: Seq<Node>, id: int, env: Map<Seq<char>, nat>, tbl: Seq<TyV>) -> (nat, Seq<TyV>)
    decreases id + 1, 1int,
{
    if id < 0 || id >= nodes.len() {
        (untyped_id(), tbl)
    } else {
        match nodes[id] {
            Node::Statements { body, .. } => if body@.len() == 0 {
                spec_intern(tbl, TyV::Constant(ScalarV::Nil))
            } else if body@.last() < id {
                s_stmt_value_f(fo, nodes, body@.last() as int, env, tbl)
            } else {
                (untyped_id(), tbl)
            },
            Node::When { conditions, body, .. } => {
                let tail: Option<usize> = if body@.len() > 0 {
                    Some(body@.last())
                } else if conditions@.len() > 0 {
                    Some(conditions@.last())
                } else {
                    None
                };
                match tail {
                    Some(t) => if t < id {
                        s_stmt_value_f(fo, nodes, t as int, env, tbl)
                    } else {
                        (untyped_id(), tbl)
                    },
                    None => spec_intern(tbl, TyV::Constant(ScalarV::Nil)),
                }
            },
            Node::LocalVariableWrite { value, .. } => if value < id { s_type_of_f(fo, nodes, value as int, env, tbl) } else { (untyped_id(), tbl) },
            Node::LocalVariableOpWrite { value, .. } => if value < id { s_type_of_f(fo, nodes, value as int, env, tbl) } else { (untyped_id(), tbl) },
            Node::MultiWrite { value, .. } => if value < id { s_type_of_f(fo, nodes, value as int, env, tbl) } else { (untyped_id(), tbl) },
            Node::InstanceVariableWrite { value, .. } => if value < id { s_type_of_f(fo, nodes, value as int, env, tbl) } else { (untyped_id(), tbl) },
            _ => s_type_of_f(fo, nodes, id, env, tbl),
        }
    }
}

/// The types of a list of expressions, left to right.
pub open spec fn s_type_list_f(fo: FoldOracle, nodes: Seq<Node>, ids: Seq<usize>, bound: int, env: Map<Seq<char>, nat>, tbl: Seq<TyV>) -> (Seq<usize>, Seq<TyV>)
    decreases bound, ids.len() + 1,
{
    if ids.len() == 0 {
        (Seq::empty(), tbl)
    } else {
        let (ts, t1) = s_type_list_f(fo, nodes, ids.drop_last(), bound, env, tbl);
        if ids.last() < bound {
            let (t, t2) = s_type_of_f(fo, nodes, ids.last() as int, env, t1);
            (ts.push(t as usize), t2)
        } else {
            (ts.push(0usize), t1)
        }
    }
}

/// The `HashShape` of a hash literal's flattened pairs from pair position
/// `k` on, or `Nominal[Hash]` when a key is not a pinned literal.
pub open spec fn s_hash_shape_f(fo: FoldOracle, nodes: Seq<Node>, elems: Seq<usize>, k: int, bound: int, env: Map<Seq<char>, nat>, tbl: Seq<TyV>, members: Seq<(ScalarV, usize)>) -> (nat, Seq<TyV>)
    decreases bound, elems.len() + 1 - k,
{
    if k < 0 || k + 1 >= elems.len() {
        spec_intern(tbl, TyV::HashShape(members))
    } else if elems[k] >= bound || elems[k + 1] >= bound {
        (untyped_id(), tbl)
    } else {
        match static_key(nodes[elems[k] as int]) {
            None => (nominal_id(CoreClass::Hash), tbl),
            Some(key) => {
                let (v, t1) = s_type_of_f(fo, nodes, elems[k + 1] as int, env, tbl);
                s_hash_shape_f(fo, nodes, elems, k + 2, bound, env, t1, upsert(members, key, v as usize))
            },
        }
    }
}

/// The receiverless calls typed here: the printers `p` / `pp` and the
/// `Kernel` conversions.
pub open spec fn is_kernel_name(m: Seq<char>) -> bool {
    m == "p"@ || m == "pp"@ || m == "format"@ || m == "sprintf"@ || m == "String"@ || m == "Hash"@
        || m == "Integer"@ || m == "Float"@ || m == "Array"@ || m == "rand"@
}

/// The file defines an instance method named `m` somewhere.
pub open spec fn defines_method(nodes: Seq<Node>, m: Seq<char>) -> bool {
    exists|i: int| 0 <= i < nodes.len() && (#[trigger] nodes[i] matches Node::Definition { name: Some(n), .. } && n@ == m)
}

/// Some argument is a splat or a forwarding argument, whose arity is unknown.
pub open spec fn has_splat(nodes: Seq<Node>, args: Seq<usize>) -> bool {
    exists|k: int| 0 <= k < args.len() && ((#[trigger] nodes[args[k] as int]) is Other || nodes[args[k] as int] is Statements)
}

/// The type of a receiverless call `m(args)` at node `id`. A name defined as
/// a method in the file, or a name other than the printers and conversions,
/// gives `Dynamic[top]`; so does a splat argument, except that `format` /
/// `sprintf` with one then give `String`. `p` / `pp` give `nil`, the one
/// argument's type, or the `Tuple` of the arguments' types; `Hash(v)` passes
/// a `HashShape` through and turns `nil` or `[]` into the empty shape;
/// `Array(v)` passes a `Tuple` through, turns `nil` into `[]` and a pinned
/// scalar into a one-element `Tuple`, and gives `Array` otherwise; `rand`
/// gives `Float`, and `Integer` with one argument that is not a range
/// literal; the conversions of pinned arguments give their pinned result,
/// and otherwise the class [`conversion_nominal`] names.
pub open spec fn s_implicit_f(fo: FoldOracle, nodes: Seq<Node>, id: int, m: Seq<char>, args: Seq<usize>, env: Map<Seq<char>, nat>, tbl: Seq<TyV>) -> (nat, Seq<TyV>)
    decreases id, args.len() + 2,
{
    if !is_kernel_name(m) || defines_method(nodes, m) || !all_below(args, id) {
        (untyped_id(), tbl)
    } else if has_splat(nodes, args) {
        if (m == "format"@ || m == "sprintf"@) && args.len() >= 1 {
            (nominal_id(CoreClass::String), tbl)
        } else {
            (untyped_id(), tbl)
        }
    } else if m == "p"@ || m == "pp"@ {
        if args.len() == 0 {
            spec_intern(tbl, TyV::Constant(ScalarV::Nil))
        } else if args.len() == 1 {
            s_type_of_f(fo, nodes, args[0] as int, env, tbl)
        } else {
            let (ts, t1) = s_type_list_f(fo, nodes, args, id, env, tbl);
            spec_intern(t1, TyV::Tuple(ts))
        }
    } else if m == "Hash"@ {
        if args.len() != 1 {
            (untyped_id(), tbl)
        } else {
            let (t, t1) = s_type_of_f(fo, nodes, args[0] as int, env, tbl);
            match node_at(t1, t) {
                Some(TyV::HashShape(_)) => (t, t1),
                Some(TyV::Constant(ScalarV::Nil)) => spec_intern(t1, TyV::HashShape(Seq::empty())),
                Some(TyV::Tuple(es)) => if es.len() == 0 {
                    spec_intern(t1, TyV::HashShape(Seq::empty()))
                } else {
                    (untyped_id(), t1)
                },
                _ => (untyped_id(), t1),
            }
        }
    } else if m == "Array"@ {
        if args.len() != 1 {
            (untyped_id(), tbl)
        } else {
            let (t, t1) = s_type_of_f(fo, nodes, args[0] as int, env, tbl);
            match node_at(t1, t) {
                Some(TyV::Tuple(_)) => (t, t1),
                Some(TyV::Constant(ScalarV::Nil)) => spec_intern(t1, TyV::Tuple(Seq::empty())),
                Some(TyV::Constant(_)) => spec_intern(t1, TyV::Tuple(seq![t as usize])),
                _ => (nominal_id(CoreClass::Array), t1),
            }
        }
    } else if m == "rand"@ {
        if args.len() == 0 {
            (nominal_id(CoreClass::Float), tbl)
        } else if args.len() == 1 {
            if nodes[args[0] as int] is Range {
                (untyped_id(), tbl)
            } else {
                let (t, t1) = s_type_of_f(fo, nodes, args[0] as int, env, tbl);
                (nominal_id(CoreClass::Integer), t1)
            }
        } else {
            (untyped_id(), tbl)
        }
    } else {
        let (ts, t1) = s_type_list_f(fo, nodes, args, id, env, tbl);
        match consts_of(t1, ts) {
            Some(cs) => match spec_kernel_conversion(m, cs) {
                Some(v) => spec_intern(t1, TyV::Constant(v)),
                None => (conversion_nominal(m, args.len() as int), t1),
            },
            None => (conversion_nominal(m, args.len() as int), t1),
        }
    }
}

/// The class a `Kernel` conversion returns when its value does not fold, for
/// an arity it accepts: `String` for `format` / `sprintf` with a template
/// and for `String(x)`, `Float` for `Float(x)`, `Integer` for `Integer(x)`
/// and `Integer(x, base)`; `Dynamic[top]` for any other arity.
/// The type of expression `id` under `env` when typing without a sidecar,
/// and the type table after it: see [`s_type_of_f`].
pub open spec fn s_type_of(nodes: Seq<Node>, id: int, env: Map<Seq<char>, nat>, tbl: Seq<TyV>) -> (nat, Seq<TyV>) {
    s_type_of_f(no_folder(), nodes, id, env, tbl)
}

pub open spec fn conversion_nominal(m: Seq<char>, n: int) -> nat {
    if (m == "format"@ || m == "sprintf"@) && n >= 1 {
        nominal_id(CoreClass::String)
    } else if m == "String"@ && n == 1 {
        nominal_id(CoreClass::String)
    } else if m == "Float"@ && n == 1 {
        nominal_id(CoreClass::Float)
    } else if m == "Integer"@ && (n == 1 || n == 2) {
        nominal_id(CoreClass::Integer)
    } else {
        untyped_id()
    }
}

/// Every binding is an id of the table.
pub open spec fn env_ok(env: Map<Seq<char>, nat>, tbl: Seq<TyV>) -> bool {
    forall|k: Seq<char>| #[trigger] env.contains_key(k) ==> env[k] < tbl.len()
}

/// The table grew from `t0` to `t1`, keeping every earlier id.
pub open spec fn extends(t0: Seq<TyV>, t1: Seq<TyV>) -> bool {
    &&& t0.len() <= t1.len()
    &&& forall|i: int| 0 <= i < t0.len() ==> t1[i] == t0[i]
}

/// The pinned-literal key of a hash element, if it is one.
fn static_key_of(n: &Node) -> (r: Option<Scalar>)
    ensures
        opt_view(r) == static_key(*n),
{
    match n {
        Node::SymbolLit { value, .. } => Some(Scalar::Sym(value.clone())),
        Node::StringLit { value, .. } => Some(Scalar::Str(value.clone())),
        Node::IntegerLit { value, .. } => Some(Scalar::Int(*value)),
        Node::FloatLit { value, .. } => Some(Scalar::Float(*value)),
        Node::TrueLit { .. } => Some(Scalar::Bool(true)),
        Node::FalseLit { .. } => Some(Scalar::Bool(false)),
        Node::NilLit { .. } => Some(Scalar::Nil),
        _ => None,
    }
}

/// The view of a member list.
pub open spec fn members_view(m: Seq<(Scalar, usize)>) -> Seq<(ScalarV, usize)> {
    m.map_values(|e: (Scalar, usize)| (e.0@, e.1))
}

/// Add a member with last-wins value and first-wins position.
fn upsert_member(members: &mut Vec<(Scalar, usize)>, key: Scalar, v: usize)
    ensures
        members_view(final(members)@) == upsert(members_view(old(members)@), key@, v),
{
    let ghost mv = members_view(members@);
    let mut j: usize = 0;
    while j < members.len()
        invariant
            0 <= j <= members@.len(),
            members@ == old(members)@,
            mv == members_view(members@),
            find_key(mv.take(j as int), key@) is None,
        decreases members@.len() - j,
    {
        proof {
            assert(mv.take(j as int + 1).drop_last() =~= mv.take(j as int));
        }
        if crate::types::scalar_eq(&members[j].0, &key) {
            proof {
                lemma_find_key_prefix(mv, key@, j as int);
            }
            members.set(j, (key, v));
            proof {
                assert(members_view(members@) =~= mv.update(j as int, (key@, v)));
            }
            return;
        }
        j = j + 1;
    }
    assert(mv.take(mv.len() as int) =~= mv);
    members.push((key, v));
    proof {
        assert(members_view(members@) =~= mv.push((key@, v)));
    }
}

/// A found key lies within the member list.
pub proof fn lemma_find_key_range(m: Seq<(ScalarV, usize)>, key: ScalarV)
    ensures
        find_key(m, key) matches Some(j) ==> 0 <= j < m.len(),
    decreases m.len(),
{
    if m.len() > 0 {
        lemma_find_key_range(m.drop_last(), key);
    }
}

/// Adding a member keeps every value below a bound both sides respect.
proof fn lemma_upsert_below(m: Seq<(ScalarV, usize)>, key: ScalarV, v: usize, bound: int)
    requires
        forall|j: int| 0 <= j < m.len() ==> m[j].1 < bound,
        v < bound,
    ensures
        forall|j: int| 0 <= j < upsert(m, key, v).len() ==> upsert(m, key, v)[j].1 < bound,
{
    lemma_find_key_range(m, key);
}

/// A key first seen at `j` is found there.
pub proof fn lemma_find_key_prefix(m: Seq<(ScalarV, usize)>, key: ScalarV, j: int)
    requires
        0 <= j < m.len(),
        m[j].0 == key,
        find_key(m.take(j), key) is None,
    ensures
        find_key(m, key) == Some(j),
    decreases m.len(),
{
    if j == m.len() - 1 {
        assert(m.drop_last() =~= m.take(j));
    } else {
        assert(m.drop_last().take(j) =~= m.take(j));
        lemma_find_key_prefix(m.drop_last(), key, j);
    }
}


/// The pinned scalars of a list of type ids, when all are `Constant`s.
pub fn consts_of_ids(it: &Interner, ts: &Vec<usize>) -> (r: Option<Vec<Scalar>>)
    requires
        forall|k: int| 0 <= k < ts@.len() ==> ts@[k] < it@.len(),
    ensures
        match r {
            Some(v) => consts_of(it@, ts@) == Some(v@.map_values(|s: Scalar| s@)),
            None => consts_of(it@, ts@) is None,
        },
{
    let mut out: Vec<Scalar> = Vec::new();
    let mut k: usize = 0;
    while k < ts.len()
        invariant
            0 <= k <= ts@.len(),
            forall|j: int| 0 <= j < ts@.len() ==> ts@[j] < it@.len(),
            consts_of(it@, ts@.take(k as int)) == Some(out@.map_values(|s: Scalar| s@)),
        decreases ts@.len() - k,
    {
        proof {
            assert(ts@.take(k as int + 1).drop_last() =~= ts@.take(k as int));
        }
        match it.get(ts[k]) {
            TyNode::Constant(s) => {
                let ghost prev = out@;
                out.push(scalar_copy(s));
                proof {
                    assert(out@.map_values(|s: Scalar| s@) =~= prev.map_values(|s: Scalar| s@).push(s@));
                }
            },
            _ => {
                proof {
                    lemma_consts_none(it@, ts@, k as int + 1);
                    assert(ts@.take(ts@.len() as int) =~= ts@);
                }
                return None;
            },
        }
        k = k + 1;
    }
    assert(ts@.take(ts@.len() as int) =~= ts@);
    Some(out)
}

/// A non-constant among the first `k` ids spoils every longer prefix.
proof fn lemma_consts_none(tbl: Seq<TyV>, ts: Seq<usize>, k: int)
    requires
        0 < k <= ts.len(),
        consts_of(tbl, ts.take(k)) is None,
    ensures
        consts_of(tbl, ts) is None,
    decreases ts.len() - k,
{
    if k < ts.len() {
        assert(ts.take(k + 1).drop_last() =~= ts.take(k));
        lemma_consts_none(tbl, ts, k + 1);
    } else {
        assert(ts.take(k) =~= ts);
    }
}

/// The child ids of a well-formed arena's node at `id` are all below `id`,
/// field by field.
pub proof fn lemma_children_below(nodes: Seq<Node>, id: int)
    requires
        nodes_wf(nodes),
        0 <= id < nodes.len(),
    ensures
        match nodes[id] {
            Node::Program { body, .. } => all_below(body@, id),
            Node::Statements { body, .. } => all_below(body@, id),
            Node::ArrayLit { elements, .. } => all_below(elements@, id),
            Node::HashLit { elements, .. } => all_below(elements@, id),
            Node::LocalVariableWrite { value, .. } => value < id,
            Node::LocalVariableOpWrite { value, .. } => value < id,
            Node::MultiWrite { value, .. } => value < id,
            Node::InstanceVariableWrite { value, .. } => value < id,
            Node::Call { receiver, args, block_body, .. } => all_below(args@, id) && all_below(
                block_body@,
                id,
            ) && (receiver matches Some(r) ==> r < id),
            Node::Logical { left, right, .. } => left < id && right < id,
            Node::Return { values, .. } => all_below(values@, id),
            Node::If { predicate, then_body, else_body, .. } => predicate < id && all_below(
                then_body@,
                id,
            ) && all_below(else_body@, id),
            Node::Case { predicate, branches, else_body, .. } => all_below(branches@, id)
                && all_below(else_body@, id) && (predicate matches Some(p) ==> p < id),
            Node::When { conditions, body, .. } => all_below(conditions@, id) && all_below(
                body@,
                id,
            ),
            Node::Loop { predicate, body, .. } => predicate < id && all_below(body@, id),
            Node::Definition { body, .. } => all_below(body@, id),
            Node::ClassDef { body, .. } => all_below(body@, id),
            Node::ModuleDef { body, .. } => all_below(body@, id),
            _ => true,
        },
{
    let c = children(nodes[id]);
    assert(all_below(c, id));
    match nodes[id] {
        Node::Call { receiver, args, block_body, .. } => {
            let off: int = if receiver is Some { 1 } else { 0 };
            assert forall|k: int| 0 <= k < args@.len() implies args@[k] < id by {
                assert(c[off + k] == args@[k]);
            }
            assert forall|k: int| 0 <= k < block_body@.len() implies block_body@[k] < id by {
                assert(c[off + args@.len() + k] == block_body@[k]);
            }
            if receiver is Some {
                assert(c[0] == receiver->Some_0);
            }
        },
        Node::If { predicate, then_body, else_body, .. } => {
            assert(c[0] == predicate);
            assert forall|k: int| 0 <= k < then_body@.len() implies then_body@[k] < id by {
                assert(c[1 + k] == then_body@[k]);
            }
            assert forall|k: int| 0 <= k < else_body@.len() implies else_body@[k] < id by {
                assert(c[1 + then_body@.len() + k] == else_body@[k]);
            }
        },
        Node::Case { predicate, branches, else_body, .. } => {
            let off: int = if predicate is Some { 1 } else { 0 };
            assert forall|k: int| 0 <= k < branches@.len() implies branches@[k] < id by {
                assert(c[off + k] == branches@[k]);
            }
            assert forall|k: int| 0 <= k < else_body@.len() implies else_body@[k] < id by {
                assert(c[off + branches@.len() + k] == else_body@[k]);
            }
            if predicate is Some {
                assert(c[0] == predicate->Some_0);
            }
        },
        Node::When { conditions, body, .. } => {
            assert forall|k: int| 0 <= k < conditions@.len() implies conditions@[k] < id by {
                assert(c[k] == conditions@[k]);
            }
            assert forall|k: int| 0 <= k < body@.len() implies body@[k] < id by {
                assert(c[conditions@.len() + k] == body@[k]);
            }
        },
        Node::Loop { predicate, body, .. } => {
            assert(c[0] == predicate);
            assert forall|k: int| 0 <= k < body@.len() implies body@[k] < id by {
                assert(c[1 + k] == body@[k]);
            }
        },
        Node::Logical { left, right, .. } => {
            assert(c[0] == left);
            assert(c[1] == right);
        },
        Node::LocalVariableWrite { value, .. } => {
            assert(c[0] == value);
        },
        Node::LocalVariableOpWrite { value, .. } => {
            assert(c[0] == value);
        },
        Node::MultiWrite { value, .. } => {
            assert(c[0] == value);
        },
        Node::InstanceVariableWrite { value, .. } => {
            assert(c[0] == value);
        },
        _ => {},
    }
}

/// Whether some element of an array literal is opaque.
fn has_opaque_element(ast: &Ast, elements: &Vec<usize>) -> (r: bool)
    requires
        forall|k: int| 0 <= k < elements@.len() ==> elements@[k] < ast.nodes@.len(),
    ensures
        r == exists|k: int| 0 <= k < elements@.len() && is_opaque_element(ast.nodes@[elements@[k] as int]),
{
    let mut k: usize = 0;
    while k < elements.len()
        invariant
            0 <= k <= elements@.len(),
            forall|j: int| 0 <= j < elements@.len() ==> elements@[j] < ast.nodes@.len(),
            forall|j: int| 0 <= j < k ==> !is_opaque_element(ast.nodes@[elements@[j] as int]),
        decreases elements@.len() - k,
    {
        match ast.get(elements[k]) {
            Node::Statements { .. } | Node::Other { .. } | Node::Return { .. } => {
                assert(is_opaque_element(ast.nodes@[elements@[k as int] as int]));
                return true;
            },
            _ => {},
        }
        k = k + 1;
    }
    false
}

/// The type of expression `id` under `env`.
pub fn type_of_with_folder<F: RubyFolder>(ast: &Ast, id: usize, env: &TypeEnv, folder: Option<&F>, it: &mut Interner) -> (r: usize)
    requires
        ast.wf(),
        id < ast.nodes@.len(),
        table_wf(old(it)@),
        env_ok(env@, old(it)@),
    ensures
        (r as nat, final(it)@) == s_type_of_f(folder_oracle(folder), ast.nodes@, id as int, env@, old(it)@),
        table_wf(final(it)@),
        extends(old(it)@, final(it)@),
        r < final(it)@.len(),
    decreases id + 1, 0int,
{
    proof {
        lemma_children_below(ast.nodes@, id as int);
    }
    match ast.get(id) {
        Node::StringLit { value, .. } => it.intern(TyNode::Constant(Scalar::Str(value.clone()))),
        Node::IntegerLit { value, .. } => it.intern(TyNode::Constant(Scalar::Int(*value))),
        Node::FloatLit { value, .. } => it.intern(TyNode::Constant(Scalar::Float(*value))),
        Node::SymbolLit { value, .. } => it.intern(TyNode::Constant(Scalar::Sym(value.clone()))),
        Node::NilLit { .. } => it.intern(TyNode::Constant(Scalar::Nil)),
        Node::TrueLit { .. } => it.intern(TyNode::Constant(Scalar::Bool(true))),
        Node::FalseLit { .. } => it.intern(TyNode::Constant(Scalar::Bool(false))),
        Node::LocalVariableRead { name, .. } => match env.get(name.as_str()) {
            Some(t) => t,
            None => 0,
        },
        Node::MultiWrite { value, .. } => type_of_with_folder(ast, *value, env, folder, it),
        Node::ArrayLit { elements, .. } => {
            if elements.len() == 0 {
                return it.intern(TyNode::Tuple(Vec::new()));
            }
            if has_opaque_element(ast, elements) {
                return 1;
            }
            let ts = type_list(ast, elements, id, env, folder, it);
            it.intern(TyNode::Tuple(ts))
        },
        Node::HashLit { elements, all_assoc, .. } => {
            if !*all_assoc {
                return 2;
            }
            hash_shape(ast, elements, id, env, folder, it)
        },
        Node::Call { receiver: Some(r), method, args, block_body, .. } => {
            if str_eq(method.as_str(), "new") {
                match ast.get(*r) {
                    Node::ConstantRead { name, .. } => {
                        if str_eq(name.as_str(), "Array") {
                            return 1;
                        }
                        if str_eq(name.as_str(), "Hash") {
                            return 2;
                        }
                        if str_eq(name.as_str(), "String") {
                            return 3;
                        }
                    },
                    _ => {},
                }
            }
            if block_body.len() != 0 {
                return 0;
            }
            let rt = type_of_with_folder(ast, *r, env, folder, it);
            let ats = type_list(ast, args, id, env, folder, it);
            dispatch(it, rt, method.as_str(), &ats, folder)
        },
        Node::Call { receiver: None, method, args, .. } => implicit_call(ast, id, method, args, env, folder, it),
        Node::If { predicate, then_body, else_body, is_unless, .. } => {
            let then_ty = branch_value(ast, then_body, id, env, folder, it);
            let ghost t1 = it@;
            let else_ty = if else_body.len() == 0 {
                it.intern(TyNode::Constant(Scalar::Nil))
            } else {
                branch_value(ast, else_body, id, env, folder, it)
            };
            proof {
                lemma_env_ok_grows(env@, old(it)@, it@);
            }
            let pt = type_of_with_folder(ast, *predicate, env, folder, it);
            match polarity_of(it, pt) {
                Some(true) => if *is_unless { else_ty } else { then_ty },
                Some(false) => if *is_unless { then_ty } else { else_ty },
                None => it.join(then_ty, else_ty),
            }
        },
        Node::Case { branches, else_body, .. } => {
            let mut acc: Option<usize> = None;
            let mut k: usize = 0;
            assert(branches@.take(0) =~= Seq::<usize>::empty());
            while k < branches.len()
                invariant
                    0 <= k <= branches@.len(),
                    all_below(branches@, id as int),
                    ast.wf(),
                    id < ast.nodes@.len(),
                    table_wf(it@),
                    extends(old(it)@, it@),
                    env_ok(env@, it@),
                    env_ok(env@, old(it)@),
                    it@ == s_case_branches_f(folder_oracle(folder), ast.nodes@, branches@.take(k as int), id as int, env@, old(it)@).1,
                    acc is None <==> s_case_branches_f(folder_oracle(folder), ast.nodes@, branches@.take(k as int), id as int, env@, old(it)@).0 is None,
                    acc matches Some(x) ==> s_case_branches_f(folder_oracle(folder), ast.nodes@, branches@.take(k as int), id as int, env@, old(it)@).0
                        == Some(x as nat) && x < it@.len(),
                decreases branches@.len() - k,
            {
                let ghost t0 = it@;
                assert(branches@.take(k + 1).drop_last() =~= branches@.take(k as int));
                assert(branches@.take(k + 1).last() == branches@[k as int]);
                let v = stmt_value(ast, branches[k], env, folder, it);
                proof {
                    lemma_env_ok_grows(env@, t0, it@);
                }
                acc = match acc {
                    None => Some(v),
                    Some(a) => Some(it.join(a, v)),
                };
                proof {
                    lemma_env_ok_grows(env@, old(it)@, it@);
                }
                k = k + 1;
            }
            assert(branches@.take(branches@.len() as int) =~= branches@);
            let else_ty = if else_body.len() == 0 {
                it.intern(TyNode::Constant(Scalar::Nil))
            } else {
                branch_value(ast, else_body, id, env, folder, it)
            };
            match acc {
                Some(a) => it.join(a, else_ty),
                None => else_ty,
            }
        },
        _ => 0,
    }
}

/// Whether the file defines an instance method named `m`.
fn file_defines_method(ast: &Ast, m: &str) -> (r: bool)
    ensures
        r == defines_method(ast.nodes@, m@),
{
    let mut i: usize = 0;
    while i < ast.nodes.len()
        invariant
            0 <= i <= ast.nodes@.len(),
            forall|j: int| 0 <= j < i ==> !(#[trigger] ast.nodes@[j] matches Node::Definition { name: Some(n), .. } && n@ == m@),
        decreases ast.nodes@.len() - i,
    {
        match &ast.nodes[i] {
            Node::Definition { name: Some(n), .. } => {
                if str_eq(n.as_str(), m) {
                    return true;
                }
            },
            _ => {},
        }
        i = i + 1;
    }
    false
}

/// Whether some argument is a splat or a forwarding argument.
fn has_splat_arg(ast: &Ast, args: &Vec<usize>) -> (r: bool)
    requires
        forall|k: int| 0 <= k < args@.len() ==> args@[k] < ast.nodes@.len(),
    ensures
        r == has_splat(ast.nodes@, args@),
{
    let mut k: usize = 0;
    while k < args.len()
        invariant
            0 <= k <= args@.len(),
            forall|j: int| 0 <= j < args@.len() ==> args@[j] < ast.nodes@.len(),
            forall|j: int| 0 <= j < k ==> !((#[trigger] ast.nodes@[args@[j] as int]) is Other || ast.nodes@[args@[j] as int] is Statements),
        decreases args@.len() - k,
    {
        match ast.get(args[k]) {
            Node::Other { .. } | Node::Statements { .. } => {
                return true;
            },
            _ => {},
        }
        k = k + 1;
    }
    false
}

/// The type of a receiverless call `m(args)` at node `id`.
fn implicit_call<F: RubyFolder>(ast: &Ast, id: usize, m: &String, args: &Vec<usize>, env: &TypeEnv, folder: Option<&F>, it: &mut Interner) -> (r: usize)
    requires
        ast.wf(),
        id < ast.nodes@.len(),
        all_below(args@, id as int),
        table_wf(old(it)@),
        env_ok(env@, old(it)@),
    ensures
        (r as nat, final(it)@) == s_implicit_f(folder_oracle(folder), ast.nodes@, id as int, m@, args@, env@, old(it)@),
        table_wf(final(it)@),
        extends(old(it)@, final(it)@),
        r < final(it)@.len(),
    decreases id, args@.len() + 2,
{
    let ms = m.as_str();
    let is_printer = str_eq(ms, "p") || str_eq(ms, "pp");
    let is_kernel = is_printer || str_eq(ms, "format") || str_eq(ms, "sprintf") || str_eq(ms, "String") || str_eq(ms, "Hash")
        || str_eq(ms, "Integer") || str_eq(ms, "Float") || str_eq(ms, "Array") || str_eq(ms, "rand");
    if !is_kernel || file_defines_method(ast, ms) {
        return 0;
    }
    if has_splat_arg(ast, args) {
        if (str_eq(ms, "format") || str_eq(ms, "sprintf")) && args.len() >= 1 {
            return 3;
        }
        return 0;
    }
    if is_printer {
        if args.len() == 0 {
            return it.intern(TyNode::Constant(Scalar::Nil));
        }
        if args.len() == 1 {
            return type_of_with_folder(ast, args[0], env, folder, it);
        }
        let ts = type_list(ast, args, id, env, folder, it);
        return it.intern(TyNode::Tuple(ts));
    }
    if str_eq(ms, "Hash") {
        if args.len() != 1 {
            return 0;
        }
        let t = type_of_with_folder(ast, args[0], env, folder, it);
        let kind: u8 = match it.get(t) {
            TyNode::HashShape(_) => 0,
            TyNode::Constant(Scalar::Nil) => 1,
            TyNode::Tuple(es) => if es.len() == 0 { 1 } else { 2 },
            _ => 2,
        };
        if kind == 0 {
            return t;
        } else if kind == 1 {
            let empty: Vec<(Scalar, usize)> = Vec::new();
            proof {
                assert(empty@.map_values(|mm: (Scalar, usize)| crate::types::member_view(mm)) =~= Seq::<(ScalarV, usize)>::empty());
            }
            return it.intern(TyNode::HashShape(empty));
        } else {
            return 0;
        }
    }
    if str_eq(ms, "Array") {
        if args.len() != 1 {
            return 0;
        }
        let t = type_of_with_folder(ast, args[0], env, folder, it);
        let kind: u8 = match it.get(t) {
            TyNode::Tuple(_) => 0,
            TyNode::Constant(Scalar::Nil) => 1,
            TyNode::Constant(_) => 2,
            _ => 3,
        };
        if kind == 0 {
            return t;
        } else if kind == 1 {
            return it.intern(TyNode::Tuple(Vec::new()));
        } else if kind == 2 {
            let one = vec![t];
            assert(one@ =~= seq![t]);
            return it.intern(TyNode::Tuple(one));
        } else {
            return 1;
        }
    }
    if str_eq(ms, "rand") {
        if args.len() == 0 {
            return 5;
        }
        if args.len() == 1 {
            match ast.get(args[0]) {
                Node::Range { .. } => {
                    return 0;
                },
                _ => {},
            }
            let _t = type_of_with_folder(ast, args[0], env, folder, it);
            return 4;
        }
        return 0;
    }
    let ts = type_list(ast, args, id, env, folder, it);
    let fallback = conversion_class_id(ms, args.len());
    match consts_of_ids(it, &ts) {
        Some(cs) => {
            proof {
                assert(cs@.map_values(|a: Scalar| a@) =~= cs@.map_values(|s: Scalar| s@));
            }
            match kernel_conversion(ms, cs.as_slice()) {
                Some(v) => it.intern(TyNode::Constant(v)),
                None => fallback,
            }
        },
        None => fallback,
    }
}

/// The class a `Kernel` conversion returns when its value does not fold.
fn conversion_class_id(m: &str, n: usize) -> (r: usize)
    ensures
        r == conversion_nominal(m@, n as int),
{
    if (str_eq(m, "format") || str_eq(m, "sprintf")) && n >= 1 {
        3
    } else if str_eq(m, "String") && n == 1 {
        3
    } else if str_eq(m, "Float") && n == 1 {
        5
    } else if str_eq(m, "Integer") && (n == 1 || n == 2) {
        4
    } else {
        0
    }
}

/// Whether a value of type `t` is always truthy, always falsey, or not known.
fn polarity_of(it: &Interner, t: usize) -> (r: Option<bool>)
    requires
        t < it@.len(),
    ensures
        r == polarity(it@, t as nat),
{
    match it.get(t) {
        TyNode::Constant(Scalar::Nil) => Some(false),
        TyNode::Constant(Scalar::Bool(false)) => Some(false),
        TyNode::Constant(_) => Some(true),
        TyNode::Tuple(_) => Some(true),
        TyNode::HashShape(_) => Some(true),
        TyNode::Nominal(_) => Some(true),
        TyNode::Untyped => None,
        TyNode::Union(_) => None,
    }
}

/// The value a branch body evaluates to.
fn branch_value<F: RubyFolder>(ast: &Ast, body: &Vec<usize>, bound: usize, env: &TypeEnv, folder: Option<&F>, it: &mut Interner) -> (r: usize)
    requires
        ast.wf(),
        bound <= ast.nodes@.len(),
        table_wf(old(it)@),
        env_ok(env@, old(it)@),
    ensures
        (r as nat, final(it)@) == s_branch_value_f(folder_oracle(folder), ast.nodes@, body@, bound as int, env@, old(it)@),
        table_wf(final(it)@),
        extends(old(it)@, final(it)@),
        r < final(it)@.len(),
    decreases bound, 2int,
{
    if body.len() == 0 {
        return it.intern(TyNode::Constant(Scalar::Nil));
    }
    let last = body[body.len() - 1];
    if last < bound {
        stmt_value(ast, last, env, folder, it)
    } else {
        proof {
            assert(extends(it@, it@));
        }
        0
    }
}

/// The value one statement evaluates to.
fn stmt_value<F: RubyFolder>(ast: &Ast, id: usize, env: &TypeEnv, folder: Option<&F>, it: &mut Interner) -> (r: usize)
    requires
        ast.wf(),
        id < ast.nodes@.len(),
        table_wf(old(it)@),
        env_ok(env@, old(it)@),
    ensures
        (r as nat, final(it)@) == s_stmt_value_f(folder_oracle(folder), ast.nodes@, id as int, env@, old(it)@),
        table_wf(final(it)@),
        extends(old(it)@, final(it)@),
        r < final(it)@.len(),
    decreases id + 1, 1int,
{
    proof {
        lemma_children_below(ast.nodes@, id as int);
        assert(extends(it@, it@));
    }
    match ast.get(id) {
        Node::Statements { body, .. } => {
            if body.len() == 0 {
                it.intern(TyNode::Constant(Scalar::Nil))
            } else {
                stmt_value(ast, body[body.len() - 1], env, folder, it)
            }
        },
        Node::When { conditions, body, .. } => {
            if body.len() > 0 {
                stmt_value(ast, body[body.len() - 1], env, folder, it)
            } else if conditions.len() > 0 {
                stmt_value(ast, conditions[conditions.len() - 1], env, folder, it)
            } else {
                it.intern(TyNode::Constant(Scalar::Nil))
            }
        },
        Node::LocalVariableWrite { value, .. } => type_of_with_folder(ast, *value, env, folder, it),
        Node::LocalVariableOpWrite { value, .. } => type_of_with_folder(ast, *value, env, folder, it),
        Node::MultiWrite { value, .. } => type_of_with_folder(ast, *value, env, folder, it),
        Node::InstanceVariableWrite { value, .. } => type_of_with_folder(ast, *value, env, folder, it),
        _ => type_of_with_folder(ast, id, env, folder, it),
    }
}

/// The types of a list of expressions, left to right.
fn type_list<F: RubyFolder>(ast: &Ast, ids: &Vec<usize>, bound: usize, env: &TypeEnv, folder: Option<&F>, it: &mut Interner) -> (r: Vec<usize>)
    requires
        ast.wf(),
        bound <= ast.nodes@.len(),
        all_below(ids@, bound as int),
        table_wf(old(it)@),
        env_ok(env@, old(it)@),
    ensures
        (r@, final(it)@) == s_type_list_f(folder_oracle(folder), ast.nodes@, ids@, bound as int, env@, old(it)@),
        table_wf(final(it)@),
        extends(old(it)@, final(it)@),
        forall|k: int| 0 <= k < r@.len() ==> r@[k] < final(it)@.len(),
    decreases bound, ids@.len() + 1,
{
    let mut out: Vec<usize> = Vec::new();
    let mut k: usize = 0;
    let ghost t0 = it@;
    while k < ids.len()
        invariant
            0 <= k <= ids@.len(),
            t0 == old(it)@,
            ast.wf(),
            bound <= ast.nodes@.len(),
            all_below(ids@, bound as int),
            table_wf(it@),
            extends(t0, it@),
            env_ok(env@, t0),
            (out@, it@) == s_type_list_f(folder_oracle(folder), ast.nodes@, ids@.take(k as int), bound as int, env@, t0),
            forall|j: int| 0 <= j < out@.len() ==> out@[j] < it@.len(),
        decreases ids@.len() - k,
    {
        proof {
            assert(ids@.take(k as int + 1).drop_last() =~= ids@.take(k as int));
            assert(ids@.take(k as int + 1).last() == ids@[k as int]);
        }
        let t = type_of_with_folder(ast, ids[k], env, folder, it);
        out.push(t);
        k = k + 1;
    }
    assert(ids@.take(ids@.len() as int) =~= ids@);
    out
}

/// The `HashShape` of a hash literal's flattened pairs.
fn hash_shape<F: RubyFolder>(ast: &Ast, elems: &Vec<usize>, bound: usize, env: &TypeEnv, folder: Option<&F>, it: &mut Interner) -> (r: usize)
    requires
        ast.wf(),
        bound <= ast.nodes@.len(),
        all_below(elems@, bound as int),
        table_wf(old(it)@),
        env_ok(env@, old(it)@),
    ensures
        (r as nat, final(it)@) == s_hash_shape_f(folder_oracle(folder), ast.nodes@, elems@, 0, bound as int, env@, old(it)@, Seq::empty()),
        table_wf(final(it)@),
        extends(old(it)@, final(it)@),
        r < final(it)@.len(),
    decreases bound, elems@.len() + 1,
{
    let mut members: Vec<(Scalar, usize)> = Vec::new();
    let mut k: usize = 0;
    let ghost t0 = it@;
    assert(members_view(members@) =~= Seq::<(ScalarV, usize)>::empty());
    while k < elems.len() && elems.len() - k >= 2
        invariant
            0 <= k <= elems@.len(),
            t0 == old(it)@,
            ast.wf(),
            bound <= ast.nodes@.len(),
            all_below(elems@, bound as int),
            table_wf(it@),
            extends(t0, it@),
            env_ok(env@, t0),
            forall|j: int| 0 <= j < members@.len() ==> members_view(members@)[j].1 < it@.len(),
            s_hash_shape_f(folder_oracle(folder), ast.nodes@, elems@, 0, bound as int, env@, t0, Seq::empty())
                == s_hash_shape_f(folder_oracle(folder), ast.nodes@, elems@, k as int, bound as int, env@, it@, members_view(members@)),
        decreases elems@.len() - k,
    {
        match static_key_of(ast.get(elems[k])) {
            None => {
                return 2;
            },
            Some(key) => {
                let v = type_of_with_folder(ast, elems[k + 1], env, folder, it);
                proof {
                    lemma_upsert_below(members_view(members@), key@, v, it@.len() as int);
                }
                upsert_member(&mut members, key, v);
            },
        }
        k = k + 2;
    }
    proof {
        assert(members_view(members@) =~= members@.map_values(
            |m: (Scalar, usize)| crate::types::member_view(m),
        ));
    }
    it.intern(TyNode::HashShape(members))
}

/// The type of expression `id` under `env`, typing without a sidecar.
pub fn type_of(ast: &Ast, id: usize, env: &TypeEnv, it: &mut Interner) -> (r: usize)
    requires
        ast.wf(),
        id < ast.nodes@.len(),
        table_wf(old(it)@),
        env_ok(env@, old(it)@),
    ensures
        (r as nat, final(it)@) == s_type_of(ast.nodes@, id as int, env@, old(it)@),
        table_wf(final(it)@),
        extends(old(it)@, final(it)@),
        r < final(it)@.len(),
{
    type_of_with_folder::<NoFolder>(ast, id, env, None, it)
}


// --- The top-level environment ---------------------------------------------

/// Bind one top-level statement: a local write binds its name to the type of
/// its value, a multi-write binds its targets, a statement group binds each
/// of its statements in turn; anything else binds nothing.
pub open spec fn s_bind_stmt(nodes: Seq<Node>, id: int, env: Map<Seq<char>, nat>, tbl: Seq<TyV>) -> (Map<Seq<char>, nat>, Seq<TyV>)
    decreases id + 1, 0int,
{
    if id < 0 || id >= nodes.len() {
        (env, tbl)
    } else {
        match nodes[id] {
            Node::LocalVariableWrite { name, value, .. } => if value < id {
                let (t, t1) = s_type_of(nodes, value as int, env, tbl);
                (env.insert(name@, t), t1)
            } else {
                (env, tbl)
            },
            Node::MultiWrite { targets, value, .. } => if value < id {
                let (t, t1) = s_type_of(nodes, value as int, env, tbl);
                (bind_upto(targets@, targets@.len() as int, tuple_elems(t1, t, targets@.len() as int), env), t1)
            } else {
                (env, tbl)
            },
            Node::Statements { body, .. } => if all_below(body@, id) {
                s_bind_list(nodes, body@, id, env, tbl)
            } else {
                (env, tbl)
            },
            _ => (env, tbl),
        }
    }
}

/// Bind each statement of a list in turn.
pub open spec fn s_bind_list(nodes: Seq<Node>, ids: Seq<usize>, bound: int, env: Map<Seq<char>, nat>, tbl: Seq<TyV>) -> (Map<Seq<char>, nat>, Seq<TyV>)
    decreases bound, ids.len() + 1,
{
    if ids.len() == 0 {
        (env, tbl)
    } else {
        let (e1, t1) = s_bind_list(nodes, ids.drop_last(), bound, env, tbl);
        if ids.last() < bound {
            s_bind_stmt(nodes, ids.last() as int, e1, t1)
        } else {
            (e1, t1)
        }
    }
}

/// The environment of the program's top-level statements, bound in source
/// order, and the table after it.
pub open spec fn s_toplevel_env(nodes: Seq<Node>, tbl: Seq<TyV>) -> (Map<Seq<char>, nat>, Seq<TyV>) {
    let root = nodes.len() - 1;
    match nodes[root] {
        Node::Program { body, .. } => s_bind_list(nodes, body@, root, Map::empty(), tbl),
        _ => (Map::empty(), tbl),
    }
}

/// Bind one top-level statement into `env`.
fn bind_statement(ast: &Ast, id: usize, env: &mut TypeEnv, it: &mut Interner)
    requires
        ast.wf(),
        id < ast.nodes@.len(),
        table_wf(old(it)@),
        env_ok(old(env)@, old(it)@),
    ensures
        (final(env)@, final(it)@) == s_bind_stmt(ast.nodes@, id as int, old(env)@, old(it)@),
        table_wf(final(it)@),
        extends(old(it)@, final(it)@),
        env_ok(final(env)@, final(it)@),
    decreases id + 1, 0int,
{
    proof {
        lemma_children_below(ast.nodes@, id as int);
    }
    match ast.get(id) {
        Node::LocalVariableWrite { name, value, .. } => {
            let ghost tb = it@;
            let t = type_of(ast, *value, env, it);
            proof {
                lemma_env_ok_grows(env@, tb, it@);
            }
            env.insert(name.as_str(), t);
        },
        Node::MultiWrite { targets, value, .. } => {
            let ghost tb = it@;
            let t = type_of(ast, *value, env, it);
            proof {
                lemma_env_ok_grows(env@, tb, it@);
            }
            bind_targets(targets, t, it, env);
        },
        Node::Statements { body, .. } => {
            bind_list(ast, body, id, env, it);
        },
        _ => {},
    }
}

/// Bind each statement of a list in turn.
fn bind_list(ast: &Ast, ids: &Vec<usize>, bound: usize, env: &mut TypeEnv, it: &mut Interner)
    requires
        ast.wf(),
        bound <= ast.nodes@.len(),
        all_below(ids@, bound as int),
        table_wf(old(it)@),
        env_ok(old(env)@, old(it)@),
    ensures
        (final(env)@, final(it)@) == s_bind_list(ast.nodes@, ids@, bound as int, old(env)@, old(it)@),
        table_wf(final(it)@),
        extends(old(it)@, final(it)@),
        env_ok(final(env)@, final(it)@),
    decreases bound, ids@.len() + 1,
{
    let ghost t0 = it@;
    let ghost e0 = env@;
    let mut k: usize = 0;
    assert(ids@.take(0) =~= Seq::<usize>::empty());
    while k < ids.len()
        invariant
            0 <= k <= ids@.len(),
            t0 == old(it)@,
            e0 == old(env)@,
            ast.wf(),
            bound <= ast.nodes@.len(),
            all_below(ids@, bound as int),
            table_wf(it@),
            extends(t0, it@),
            env_ok(env@, it@),
            (env@, it@) == s_bind_list(ast.nodes@, ids@.take(k as int), bound as int, e0, t0),
        decreases ids@.len() - k,
    {
        proof {
            assert(ids@.take(k as int + 1).drop_last() =~= ids@.take(k as int));
            assert(ids@.take(k as int + 1).last() == ids@[k as int]);
        }
        bind_statement(ast, ids[k], env, it);
        k = k + 1;
    }
    assert(ids@.take(ids@.len() as int) =~= ids@);
}

/// The environment of the program's top-level statements: each local write
/// (also inside a statement group) binds its name to its value's type, in
/// source order; nested scopes and control flow bind nothing.
pub fn build_toplevel_env(ast: &Ast, it: &mut Interner) -> (r: TypeEnv)
    requires
        ast.wf(),
        table_wf(old(it)@),
    ensures
        (r@, final(it)@) == s_toplevel_env(ast.nodes@, old(it)@),
        table_wf(final(it)@),
        extends(old(it)@, final(it)@),
        env_ok(r@, final(it)@),
{
    let mut env = TypeEnv::new();
    let root = ast.root();
    proof {
        lemma_children_below(ast.nodes@, root as int);
        assert(extends(it@, it@));
    }
    match ast.get(root) {
        Node::Program { body, .. } => {
            bind_list(ast, body, root, &mut env, it);
        },
        _ => {},
    }
    env
}

// --- The collection-shape walk: specification -------------------------------

/// What a flow walk threads: the bindings of the current scope, the type
/// table, and the collection class recorded at each call id so far.
#[verifier::ext_equal]
pub struct FlowSt {
    pub env: Map<Seq<char>, nat>,
    pub tbl: Seq<TyV>,
    pub out: Seq<Option<CoreClass>>,
}

/// The per-program write tables: every write (rebinds and in-place
/// mutations), and the rebinds alone.
pub struct FlowCtx {
    pub writes: Seq<(Span, Seq<char>)>,
    pub rebinds: Seq<(Span, Seq<char>)>,
}

/// The collection class a receiver carrier dispatches as: a `Tuple` as
/// Array, a `HashShape` as Hash, a kept `Nominal[Array|Hash]` as itself;
/// every other carrier declines.
pub open spec fn carrier(tbl: Seq<TyV>, t: nat) -> Option<CoreClass> {
    if t < tbl.len() {
        match tbl[t as int] {
            TyV::Tuple(_) => Some(CoreClass::Array),
            TyV::HashShape(_) => Some(CoreClass::Hash),
            TyV::Nominal(CoreClass::Array) => Some(CoreClass::Array),
            TyV::Nominal(CoreClass::Hash) => Some(CoreClass::Hash),
            _ => None,
        }
    } else {
        None
    }
}

/// The collection class a local keeps after the in-place mutator `m`, or
/// `None` when nothing survives: a `Tuple` under an Array mutator and a
/// `HashShape` under a Hash mutator keep the nominal, an already-nominal
/// carrier under a mutator of its own table stays, and everything else
/// (another table's mutator, a non-collection carrier) declines.
pub open spec fn widen_for_mutator(tbl: Seq<TyV>, t: nat, m: Seq<char>) -> Option<CoreClass> {
    if t < tbl.len() {
        match tbl[t as int] {
            TyV::Tuple(_) => if is_array_mutator(m) { Some(CoreClass::Array) } else { None },
            TyV::HashShape(_) => if is_hash_mutator(m) { Some(CoreClass::Hash) } else { None },
            TyV::Nominal(CoreClass::Array) => if is_array_mutator(m) { Some(CoreClass::Array) } else { None },
            TyV::Nominal(CoreClass::Hash) => if is_hash_mutator(m) { Some(CoreClass::Hash) } else { None },
            _ => None,
        }
    } else {
        None
    }
}

/// The binding of `n` in `env`, if any.
pub open spec fn binding(env: Map<Seq<char>, nat>, n: Option<Seq<char>>) -> Option<nat> {
    match n {
        Some(k) => if env.contains_key(k) { Some(env[k]) } else { None },
        None => None,
    }
}

/// Bind the first `n` targets of a multi-write: elementwise from a `Tuple`
/// with enough elements, else to `Dynamic[top]`.
pub open spec fn bind_upto(targets: Seq<String>, n: int, elems: Option<Seq<usize>>, env: Map<Seq<char>, nat>) -> Map<Seq<char>, nat>
    decreases n,
{
    if n <= 0 {
        env
    } else {
        let e = bind_upto(targets, n - 1, elems, env);
        match elems {
            Some(es) => e.insert(targets[n - 1]@, es[n - 1] as nat),
            None => e.insert(targets[n - 1]@, untyped_id()),
        }
    }
}

/// The element ids a multi-write's right-hand side hands out, when it is a
/// `Tuple` of at least `k` elements.
pub open spec fn tuple_elems(tbl: Seq<TyV>, t: nat, k: int) -> Option<Seq<usize>> {
    if t < tbl.len() {
        match tbl[t as int] {
            TyV::Tuple(es) => if es.len() >= k { Some(es) } else { None },
            _ => None,
        }
    } else {
        None
    }
}

/// The smallest span covering the nodes `ids[..k]`.
pub open spec fn hull_upto(nodes: Seq<Node>, ids: Seq<usize>, k: int) -> Option<Span>
    decreases k,
{
    if k <= 0 {
        None
    } else {
        let h = hull_upto(nodes, ids, k - 1);
        if ids[k - 1] < nodes.len() {
            let s = span_of(nodes[ids[k - 1] as int]);
            match h {
                None => Some(s),
                Some(p) => Some((if p.0 < s.0 { p.0 } else { s.0 }, if p.1 > s.1 { p.1 } else { s.1 })),
            }
        } else {
            h
        }
    }
}

/// The collection carriers a block body's in-place mutations leave on outer
/// locals, over the calls among the first `n` nodes that lie within `hull`:
/// each `local.m(…)` applies against the carrier the walk has so far, or the
/// pre-block one.
pub open spec fn carriers_upto(nodes: Seq<Node>, n: int, hull: Span, pre: Map<Seq<char>, nat>, tbl: Seq<TyV>) -> Map<Seq<char>, nat>
    decreases n,
{
    if n <= 0 {
        Map::empty()
    } else {
        let c = carriers_upto(nodes, n - 1, hull, pre, tbl);
        match nodes[n - 1] {
            Node::Call { receiver, method, safe_nav, span, .. } => if !safe_nav && span_within(span, hull) {
                match receiver_local(nodes, receiver) {
                    Some(name) => {
                        let cur = if c.contains_key(name) {
                            Some(c[name])
                        } else if pre.contains_key(name) {
                            Some(pre[name])
                        } else {
                            None
                        };
                        match cur {
                            Some(t) => match widen_for_mutator(tbl, t, method@) {
                                Some(cls) => c.insert(name, nominal_id(cls)),
                                None => c,
                            },
                            None => c,
                        }
                    },
                    None => c,
                }
            } else {
                c
            },
            _ => c,
        }
    }
}

/// The outer-local carriers a block body's mutations leave.
pub open spec fn block_carriers(nodes: Seq<Node>, block: Seq<usize>, pre: Map<Seq<char>, nat>, tbl: Seq<TyV>) -> Map<Seq<char>, nat> {
    match hull_upto(nodes, block, block.len() as int) {
        Some(h) => carriers_upto(nodes, nodes.len() as int, h, pre, tbl),
        None => Map::empty(),
    }
}

/// Re-apply a block's carriers to the outer bindings, except for a local the
/// call itself rebinds.
pub open spec fn apply_carriers(env: Map<Seq<char>, nat>, c: Map<Seq<char>, nat>, rebinds: Seq<(Span, Seq<char>)>, span: Span) -> Map<Seq<char>, nat> {
    Map::new(
        |k: Seq<char>| env.contains_key(k) || (c.contains_key(k) && !spec_rebound_within(rebinds, span, k)),
        |k: Seq<char>| if c.contains_key(k) && !spec_rebound_within(rebinds, span, k) { c[k] } else { env[k] },
    )
}

/// The state after a widening of every write within `span`.
pub open spec fn widened(st: FlowSt, ctx: FlowCtx, span: Span) -> FlowSt {
    FlowSt { env: spec_widen(ctx.writes, span, st.env), tbl: st.tbl, out: st.out }
}

/// Walk a list of statements (`as_stmt`) or expressions in order.
pub open spec fn s_list(nodes: Seq<Node>, ids: Seq<usize>, bound: int, st: FlowSt, ctx: FlowCtx, as_stmt: bool, pos: bool) -> FlowSt
    decreases bound, 4int, ids.len(),
{
    if ids.len() == 0 {
        st
    } else {
        let st1 = s_list(nodes, ids.drop_last(), bound, st, ctx, as_stmt, pos);
        if ids.last() < bound {
            if as_stmt {
                s_stmt(nodes, ids.last() as int, st1, ctx, pos)
            } else {
                s_expr(nodes, ids.last() as int, st1, ctx, pos)
            }
        } else {
            st1
        }
    }
}

/// One statement's effect. A `def` / `class` / `module` body is an
/// independent scope walked on a fresh environment; an unmodeled statement
/// (`while`, an ivar write, …) widens every write it contains.
pub open spec fn s_stmt(nodes: Seq<Node>, id: int, st: FlowSt, ctx: FlowCtx, pos: bool) -> FlowSt
    decreases id + 1, 3int, 0nat,
{
    if id < 0 || id >= nodes.len() {
        st
    } else {
        match nodes[id] {
            Node::Statements { body, .. } => s_list(nodes, body@, id, st, ctx, true, pos),
            Node::LocalVariableWrite { .. } => s_expr(nodes, id, st, ctx, pos),
            Node::MultiWrite { .. } => s_expr(nodes, id, st, ctx, pos),
            Node::LocalVariableOpWrite { .. } => s_expr(nodes, id, st, ctx, pos),
            Node::Call { .. } => s_expr(nodes, id, st, ctx, pos),
            Node::Return { values, .. } => s_list(nodes, values@, id, st, ctx, false, false),
            Node::If { .. } => s_if(nodes, id, st, ctx, pos),
            Node::Case { .. } => s_case(nodes, id, st, ctx, pos),
            Node::Definition { body, .. } => s_scope_body(nodes, body@, id, st, ctx),
            Node::ClassDef { body, .. } => s_scope_body(nodes, body@, id, st, ctx),
            Node::ModuleDef { body, .. } => s_scope_body(nodes, body@, id, st, ctx),
            _ => widened(st, ctx, span_of(nodes[id])),
        }
    }
}

/// A nested scope's body walked on a fresh environment, leaving the
/// enclosing bindings alone.
pub open spec fn s_scope_body(nodes: Seq<Node>, body: Seq<usize>, id: int, st: FlowSt, ctx: FlowCtx) -> FlowSt
    decreases id + 1, 2int, 1nat,
{
    if id < 0 {
        st
    } else {
        let inner = s_list(nodes, body, id, FlowSt { env: Map::empty(), tbl: st.tbl, out: st.out }, ctx, true, true);
        FlowSt { env: st.env, tbl: inner.tbl, out: inner.out }
    }
}

/// One expression's effect: record collection-typed receiver uses, thread
/// rebinds, apply the keep-nominal mutator widening, and widen every write
/// of an unmodeled construct.
pub open spec fn s_expr(nodes: Seq<Node>, id: int, st: FlowSt, ctx: FlowCtx, pos: bool) -> FlowSt
    decreases id + 1, 2int, 0nat,
{
    if id < 0 || id >= nodes.len() {
        st
    } else {
        match nodes[id] {
            Node::Call { receiver, method, args, block_body, safe_nav, span } => {
                let st1 = match receiver {
                    Some(r) => if r < id { s_expr(nodes, r as int, st, ctx, false) } else { st },
                    None => st,
                };
                let local = if safe_nav { None } else { receiver_local(nodes, receiver) };
                let bound_ty = binding(st1.env, local);
                let out2 = match bound_ty {
                    Some(t) => match carrier(st1.tbl, t) {
                        Some(c) => st1.out.update(id, Some(c)),
                        None => st1.out,
                    },
                    None => st1.out,
                };
                let kept = match bound_ty {
                    Some(t) => widen_for_mutator(st1.tbl, t, method@),
                    None => None,
                };
                let st2 = s_list(nodes, args@, id, FlowSt { env: st1.env, tbl: st1.tbl, out: out2 }, ctx, false, false);
                let st3 = if block_body@.len() != 0 && pos {
                    let b = s_list(nodes, block_body@, id, st2, ctx, true, true);
                    let c = block_carriers(nodes, block_body@, st2.env, b.tbl);
                    FlowSt {
                        env: apply_carriers(spec_widen(ctx.writes, span, st2.env), c, ctx.rebinds, span),
                        tbl: b.tbl,
                        out: b.out,
                    }
                } else {
                    widened(st2, ctx, span)
                };
                match (local, kept) {
                    (Some(n), Some(c)) => if !spec_rebound_within(ctx.rebinds, span, n) {
                        FlowSt { env: st3.env.insert(n, nominal_id(c)), tbl: st3.tbl, out: st3.out }
                    } else {
                        st3
                    },
                    _ => st3,
                }
            },
            Node::Logical { left, right, span, .. } => {
                let s1 = if left < id { s_expr(nodes, left as int, st, ctx, false) } else { st };
                let s2 = if right < id { s_expr(nodes, right as int, s1, ctx, false) } else { s1 };
                FlowSt { env: spec_widen(ctx.writes, span, st.env), tbl: s2.tbl, out: s2.out }
            },
            Node::LocalVariableWrite { name, value, .. } => if value < id {
                let s1 = s_expr(nodes, value as int, st, ctx, pos);
                let (t, tb) = s_type_of(nodes, value as int, s1.env, s1.tbl);
                FlowSt { env: s1.env.insert(name@, t), tbl: tb, out: s1.out }
            } else {
                st
            },
            Node::MultiWrite { targets, value, .. } => if value < id {
                let s1 = s_expr(nodes, value as int, st, ctx, pos);
                let (t, tb) = s_type_of(nodes, value as int, s1.env, s1.tbl);
                FlowSt {
                    env: bind_upto(targets@, targets@.len() as int, tuple_elems(tb, t, targets@.len() as int), s1.env),
                    tbl: tb,
                    out: s1.out,
                }
            } else {
                st
            },
            Node::LocalVariableOpWrite { name, value, .. } => if value < id {
                let s1 = s_expr(nodes, value as int, st, ctx, false);
                FlowSt { env: s1.env.insert(name@, untyped_id()), tbl: s1.tbl, out: s1.out }
            } else {
                st
            },
            Node::If { .. } => s_if(nodes, id, st, ctx, false),
            Node::Case { .. } => s_case(nodes, id, st, ctx, pos),
            _ => widened(st, ctx, span_of(nodes[id])),
        }
    }
}

/// An `if` / `unless`: both edges run on the post-predicate bindings and
/// are joined by identical type id only.
pub open spec fn s_if(nodes: Seq<Node>, id: int, st: FlowSt, ctx: FlowCtx, pos: bool) -> FlowSt
    decreases id + 1, 1int, 0nat,
{
    if id < 0 || id >= nodes.len() {
        st
    } else {
        match nodes[id] {
            Node::If { predicate, then_body, else_body, is_unless, .. } => {
                let s1 = if predicate < id { s_expr(nodes, predicate as int, st, ctx, false) } else { st };
                let truthy = if is_unless { else_body@ } else { then_body@ };
                let falsey = if is_unless { then_body@ } else { else_body@ };
                let t = s_list(nodes, truthy, id, s1, ctx, true, pos);
                let f = s_list(nodes, falsey, id, FlowSt { env: s1.env, tbl: t.tbl, out: t.out }, ctx, true, pos);
                FlowSt { env: spec_join(t.env, f.env, untyped_id()), tbl: f.tbl, out: f.out }
            },
            _ => st,
        }
    }
}

/// The `when` clauses of a `case`, in order: each runs on the pre-`case`
/// bindings `pre` and is joined into the accumulated environment. A clause
/// that is not a `when` stops the walk, widening every write of the `case`.
pub open spec fn s_branches(nodes: Seq<Node>, brs: Seq<usize>, bound: int, pre: Map<Seq<char>, nat>, case_span: Span, acc: FlowSt, ctx: FlowCtx, pos: bool) -> (FlowSt, bool)
    decreases bound, 4int, brs.len(),
{
    if brs.len() == 0 {
        (acc, false)
    } else {
        let (a, stop) = s_branches(nodes, brs.drop_last(), bound, pre, case_span, acc, ctx, pos);
        let br = brs.last();
        if stop || br >= bound {
            (a, stop)
        } else {
            match nodes[br as int] {
                Node::When { conditions, body, .. } => {
                    let t1 = s_list(nodes, conditions@, br as int, FlowSt { env: pre, tbl: a.tbl, out: a.out }, ctx, false, false);
                    let t2 = s_list(nodes, body@, br as int, t1, ctx, true, pos);
                    (FlowSt { env: spec_join(a.env, t2.env, untyped_id()), tbl: t2.tbl, out: t2.out }, false)
                },
                _ => (FlowSt { env: spec_widen(ctx.writes, case_span, pre), tbl: a.tbl, out: a.out }, true),
            }
        }
    }
}

/// A `case` / `when`: every clause runs on the pre-`case` bindings and all
/// of them are joined together with the pre-`case` bindings (the implicit
/// no-match path) and the `else` body.
pub open spec fn s_case(nodes: Seq<Node>, id: int, st: FlowSt, ctx: FlowCtx, pos: bool) -> FlowSt
    decreases id + 1, 1int, 0nat,
{
    if id < 0 || id >= nodes.len() {
        st
    } else {
        match nodes[id] {
            Node::Case { predicate, branches, else_body, span } => {
                let s1 = match predicate {
                    Some(p) => if p < id { s_expr(nodes, p as int, st, ctx, false) } else { st },
                    None => st,
                };
                let (a, stop) = s_branches(nodes, branches@, id, s1.env, span, s1, ctx, pos);
                if stop {
                    a
                } else {
                    let e = s_list(nodes, else_body@, id, FlowSt { env: s1.env, tbl: a.tbl, out: a.out }, ctx, true, pos);
                    FlowSt { env: spec_join(a.env, e.env, untyped_id()), tbl: e.tbl, out: e.out }
                }
            },
            _ => st,
        }
    }
}


// --- The collection-shape walk ---------------------------------------------

/// The write tables as a [`FlowCtx`].
pub open spec fn ctx_of(writes: Seq<Write>, rebinds: Seq<Write>) -> FlowCtx {
    FlowCtx { writes: writes_view(writes), rebinds: writes_view(rebinds) }
}

/// The walk state as a [`FlowSt`].
pub open spec fn st_of(env: Map<Seq<char>, nat>, tbl: Seq<TyV>, out: Seq<Option<CoreClass>>) -> FlowSt {
    FlowSt { env, tbl, out }
}

/// What every walker needs: a well-formed arena, a hash-consed table, valid
/// bindings and one record slot per node.
pub open spec fn walk_ok(ast: &Ast, env: Map<Seq<char>, nat>, tbl: Seq<TyV>, out: Seq<Option<CoreClass>>) -> bool {
    &&& ast.wf()
    &&& table_wf(tbl)
    &&& env_ok(env, tbl)
    &&& out.len() == ast.nodes@.len()
}

/// A walk step from `(env0, t0, out0)` to `(env1, t1, out1)` that lands on
/// the state `s` and keeps the walk invariants.
pub open spec fn lands(s: FlowSt, env1: Map<Seq<char>, nat>, t0: Seq<TyV>, t1: Seq<TyV>, out0: Seq<Option<CoreClass>>, out1: Seq<Option<CoreClass>>) -> bool {
    &&& env1 == s.env
    &&& t1 == s.tbl
    &&& out1 == s.out
    &&& table_wf(t1)
    &&& extends(t0, t1)
    &&& env_ok(env1, t1)
    &&& out1.len() == out0.len()
}

/// The collection class a carrier dispatches as.
fn carrier_of(it: &Interner, t: usize) -> (r: Option<CoreClass>)
    requires
        t < it@.len(),
    ensures
        r == carrier(it@, t as nat),
{
    match it.get(t) {
        TyNode::Tuple(_) => Some(CoreClass::Array),
        TyNode::HashShape(_) => Some(CoreClass::Hash),
        TyNode::Nominal(CoreClass::Array) => Some(CoreClass::Array),
        TyNode::Nominal(CoreClass::Hash) => Some(CoreClass::Hash),
        _ => None,
    }
}

/// The collection class a local keeps after the in-place mutator `m`.
fn kept_after_mutator(it: &Interner, t: usize, m: &str) -> (r: Option<CoreClass>)
    requires
        t < it@.len(),
    ensures
        r == widen_for_mutator(it@, t as nat, m@),
{
    match it.get(t) {
        TyNode::Tuple(_) => if array_mutator(m) { Some(CoreClass::Array) } else { None },
        TyNode::HashShape(_) => if hash_mutator(m) { Some(CoreClass::Hash) } else { None },
        TyNode::Nominal(CoreClass::Array) => if array_mutator(m) { Some(CoreClass::Array) } else { None },
        TyNode::Nominal(CoreClass::Hash) => if hash_mutator(m) { Some(CoreClass::Hash) } else { None },
        _ => None,
    }
}

/// The id of the bare `Nominal[C]`.
fn nominal(c: CoreClass) -> (r: usize)
    ensures
        r == nominal_id(c),
{
    match c {
        CoreClass::Array => 1,
        CoreClass::Hash => 2,
        CoreClass::String => 3,
        CoreClass::Integer => 4,
        CoreClass::Float => 5,
    }
}

/// Bind the targets of a multi-write.
pub fn bind_targets(targets: &Vec<String>, t: usize, it: &Interner, env: &mut TypeEnv)
    requires
        t < it@.len(),
        table_wf(it@),
        env_ok(old(env)@, it@),
    ensures
        final(env)@ == bind_upto(targets@, targets@.len() as int, tuple_elems(it@, t as nat, targets@.len() as int), old(env)@),
        env_ok(final(env)@, it@),
{
    let ghost elems = tuple_elems(it@, t as nat, targets@.len() as int);
    let es: Option<&Vec<usize>> = match it.get(t) {
        TyNode::Tuple(es) => if es.len() >= targets.len() { Some(es) } else { None },
        _ => None,
    };
    proof {
        assert(ty_children_below(it@[t as int], t as int));
    }
    let mut i: usize = 0;
    while i < targets.len()
        invariant
            0 <= i <= targets@.len(),
            table_wf(it@),
            t < it@.len(),
            elems == tuple_elems(it@, t as nat, targets@.len() as int),
            es matches Some(v) ==> elems == Some(v@) && v@.len() >= targets@.len() && (forall|k: int| 0 <= k < v@.len() ==> v@[k] < it@.len()),
            es is None ==> elems is None,
            env@ == bind_upto(targets@, i as int, elems, old(env)@),
            env_ok(env@, it@),
        decreases targets@.len() - i,
    {
        let v = match es {
            Some(v) => v[i],
            None => 0,
        };
        env.insert(targets[i].as_str(), v);
        i = i + 1;
    }
}

/// The smallest span covering the nodes `ids`.
fn span_hull(ast: &Ast, ids: &Vec<usize>) -> (r: Option<Span>)
    ensures
        r == hull_upto(ast.nodes@, ids@, ids@.len() as int),
{
    let mut h: Option<Span> = None;
    let mut k: usize = 0;
    while k < ids.len()
        invariant
            0 <= k <= ids@.len(),
            h == hull_upto(ast.nodes@, ids@, k as int),
        decreases ids@.len() - k,
    {
        if ids[k] < ast.len() {
            let s = node_span(ast.get(ids[k]));
            h = match h {
                None => Some(s),
                Some(p) => Some((if p.0 < s.0 { p.0 } else { s.0 }, if p.1 > s.1 { p.1 } else { s.1 })),
            };
        }
        k = k + 1;
    }
    h
}

/// The carriers a block body's in-place mutations leave on outer locals.
fn block_mutations(ast: &Ast, block: &Vec<usize>, pre: &TypeEnv, it: &Interner) -> (r: TypeEnv)
    requires
        table_wf(it@),
        env_ok(pre@, it@),
    ensures
        r@ == block_carriers(ast.nodes@, block@, pre@, it@),
        env_ok(r@, it@),
{
    let mut c = TypeEnv::new();
    let hull = match span_hull(ast, block) {
        Some(h) => h,
        None => {
            return c;
        },
    };
    let mut i: usize = 0;
    while i < ast.len()
        invariant
            0 <= i <= ast.nodes@.len(),
            table_wf(it@),
            env_ok(pre@, it@),
            hull_upto(ast.nodes@, block@, block@.len() as int) == Some(hull),
            c@ == carriers_upto(ast.nodes@, i as int, hull, pre@, it@),
            env_ok(c@, it@),
        decreases ast.nodes@.len() - i,
    {
        match ast.get(i) {
            Node::Call { receiver, method, safe_nav, span, .. } => {
                if !*safe_nav && hull.0 <= span.0 && span.1 <= hull.1 {
                    match local_read_name(ast, *receiver) {
                        Some(name) => {
                            let cur = match c.get(name.as_str()) {
                                Some(t) => Some(t),
                                None => pre.get(name.as_str()),
                            };
                            match cur {
                                Some(t) => match kept_after_mutator(it, t, method.as_str()) {
                                    Some(cls) => {
                                        c.insert(name.as_str(), nominal(cls));
                                    },
                                    None => {},
                                },
                                None => {},
                            }
                        },
                        None => {},
                    }
                }
            },
            _ => {},
        }
        i = i + 1;
    }
    c
}

/// Re-apply a block's carriers to the outer bindings, except for a local the
/// call itself rebinds.
fn reapply_carriers(env: &mut TypeEnv, c: &TypeEnv, rebinds: &Vec<Write>, span: Span)
    ensures
        final(env)@ == apply_carriers(old(env)@, c@, writes_view(rebinds@), span),
{
    let names = c.names();
    let ghost rb = writes_view(rebinds@);
    let mut i: usize = 0;
    while i < names.len()
        invariant
            0 <= i <= names@.len(),
            rb == writes_view(rebinds@),
            forall|k: Seq<char>| c@.contains_key(k) <==> exists|j: int| 0 <= j < names@.len() && names@[j]@ == k,
            forall|k: Seq<char>| #[trigger] env@.contains_key(k) <==> (old(env)@.contains_key(k) || ((exists|j: int| 0 <= j < i && names@[j]@ == k) && !spec_rebound_within(rb, span, k))),
            forall|k: Seq<char>| #[trigger] env@.contains_key(k) ==> env@[k] == (if (exists|j: int| 0 <= j < i && names@[j]@ == k) && !spec_rebound_within(rb, span, k) { c@[k] } else { old(env)@[k] }),
        decreases names@.len() - i,
    {
        let n = names[i].as_str();
        if !rebound_within(rebinds, span, n) {
            match c.get(n) {
                Some(v) => {
                    env.insert(n, v);
                },
                None => {},
            }
        }
        proof {
            assert(c@.contains_key(names@[i as int]@));
        }
        i = i + 1;
    }
    proof {
        assert(env@ =~= apply_carriers(old(env)@, c@, writes_view(rebinds@), span));
    }
}



/// Walk a list of statements (`as_stmt`) or expressions in order.
fn walk_list(
    ast: &Ast,
    ids: &Vec<usize>,
    bound: usize,
    env: &mut TypeEnv,
    it: &mut Interner,
    out: &mut Vec<Option<CoreClass>>,
    writes: &Vec<Write>,
    rebinds: &Vec<Write>,
    as_stmt: bool,
    pos: bool,
)
    requires
        walk_ok(ast, old(env)@, old(it)@, old(out)@),
        bound <= ast.nodes@.len(),
    ensures
        lands(
            s_list(ast.nodes@, ids@, bound as int, st_of(old(env)@, old(it)@, old(out)@), ctx_of(writes@, rebinds@), as_stmt, pos),
            final(env)@, old(it)@, final(it)@, old(out)@, final(out)@,
        ),
    decreases bound, 4int, ids@.len(),
{
    let ghost ctx = ctx_of(writes@, rebinds@);
    let ghost st0 = st_of(env@, it@, out@);
    let ghost t0 = it@;
    let ghost o0 = out@;
    let mut k: usize = 0;
    while k < ids.len()
        invariant
            0 <= k <= ids@.len(),
            bound <= ast.nodes@.len(),
            ctx == ctx_of(writes@, rebinds@),
            t0.len() >= 0,
            walk_ok(ast, env@, it@, out@),
            extends(t0, it@),
            out@.len() == o0.len(),
            st0 == st_of(old(env)@, old(it)@, old(out)@),
            t0 == old(it)@,
            o0 == old(out)@,
            s_list(ast.nodes@, ids@.take(k as int), bound as int, st0, ctx, as_stmt, pos) == st_of(env@, it@, out@),
        decreases ids@.len() - k,
    {
        proof {
            assert(ids@.take(k as int + 1).drop_last() =~= ids@.take(k as int));
            assert(ids@.take(k as int + 1).last() == ids@[k as int]);
        }
        let id = ids[k];
        if id < bound {
            if as_stmt {
                walk_stmt(ast, id, env, it, out, writes, rebinds, pos);
            } else {
                walk_expr(ast, id, env, it, out, writes, rebinds, pos);
            }
        }
        k = k + 1;
    }
    assert(ids@.take(ids@.len() as int) =~= ids@);
}

/// One statement's effect.
fn walk_stmt(
    ast: &Ast,
    id: usize,
    env: &mut TypeEnv,
    it: &mut Interner,
    out: &mut Vec<Option<CoreClass>>,
    writes: &Vec<Write>,
    rebinds: &Vec<Write>,
    pos: bool,
)
    requires
        walk_ok(ast, old(env)@, old(it)@, old(out)@),
        id < ast.nodes@.len(),
    ensures
        lands(
            s_stmt(ast.nodes@, id as int, st_of(old(env)@, old(it)@, old(out)@), ctx_of(writes@, rebinds@), pos),
            final(env)@, old(it)@, final(it)@, old(out)@, final(out)@,
        ),
    decreases id + 1, 3int, 0nat,
{
    proof {
        lemma_children_below(ast.nodes@, id as int);
    }
    match ast.get(id) {
        Node::Statements { body, .. } => {
            walk_list(ast, body, id, env, it, out, writes, rebinds, true, pos);
        },
        Node::LocalVariableWrite { .. } | Node::MultiWrite { .. } | Node::LocalVariableOpWrite { .. } | Node::Call { .. } => {
            walk_expr(ast, id, env, it, out, writes, rebinds, pos);
        },
        Node::Return { values, .. } => {
            walk_list(ast, values, id, env, it, out, writes, rebinds, false, false);
        },
        Node::If { .. } => {
            walk_if(ast, id, env, it, out, writes, rebinds, pos);
        },
        Node::Case { .. } => {
            walk_case(ast, id, env, it, out, writes, rebinds, pos);
        },
        Node::Definition { body, .. } | Node::ClassDef { body, .. } | Node::ModuleDef { body, .. } => {
            let mut inner = TypeEnv::new();
            walk_list(ast, body, id, &mut inner, it, out, writes, rebinds, true, true);
        },
        other => {
            widen_flow_writes(writes, node_span(other), env);
        },
    }
}

/// One expression's effect.
fn walk_expr(
    ast: &Ast,
    id: usize,
    env: &mut TypeEnv,
    it: &mut Interner,
    out: &mut Vec<Option<CoreClass>>,
    writes: &Vec<Write>,
    rebinds: &Vec<Write>,
    pos: bool,
)
    requires
        walk_ok(ast, old(env)@, old(it)@, old(out)@),
        id < ast.nodes@.len(),
    ensures
        lands(
            s_expr(ast.nodes@, id as int, st_of(old(env)@, old(it)@, old(out)@), ctx_of(writes@, rebinds@), pos),
            final(env)@, old(it)@, final(it)@, old(out)@, final(out)@,
        ),
    decreases id + 1, 2int, 0nat,
{
    proof {
        lemma_children_below(ast.nodes@, id as int);
    }
    match ast.get(id) {
        Node::Call { receiver, method, args, block_body, safe_nav, span } => {
            match receiver {
                Some(r) => {
                    walk_expr(ast, *r, env, it, out, writes, rebinds, false);
                },
                None => {},
            }
            let local: Option<&String> = if *safe_nav {
                None
            } else {
                local_read_name(ast, *receiver)
            };
            let bound_ty: Option<usize> = match local {
                Some(n) => env.get(n.as_str()),
                None => None,
            };
            let kept: Option<CoreClass> = match bound_ty {
                Some(t) => {
                    match carrier_of(it, t) {
                        Some(c) => {
                            out.set(id, Some(c));
                        },
                        None => {},
                    }
                    kept_after_mutator(it, t, method.as_str())
                },
                None => None,
            };
            walk_list(ast, args, id, env, it, out, writes, rebinds, false, false);
            if block_body.len() != 0 && pos {
                let pre = env.copy();
                let mut benv = env.copy();
                let ghost tb = it@;
                walk_list(ast, block_body, id, &mut benv, it, out, writes, rebinds, true, true);
                proof {
                    lemma_env_ok_grows(env@, tb, it@);
                    lemma_env_ok_grows(pre@, tb, it@);
                }
                widen_flow_writes(writes, *span, env);
                assert(env_ok(env@, it@));
                let c = block_mutations(ast, block_body, &pre, it);
                let ghost before = env@;
                reapply_carriers(env, &c, rebinds, *span);
                proof {
                    lemma_apply_ok(before, c@, writes_view(rebinds@), *span, it@);
                }
            } else {
                widen_flow_writes(writes, *span, env);
                assert(env_ok(env@, it@));
            }
            match (local, kept) {
                (Some(n), Some(c)) => {
                    if !rebound_within(rebinds, *span, n.as_str()) {
                        env.insert(n.as_str(), nominal(c));
                    }
                },
                _ => {},
            }
        },
        Node::Logical { left, right, span, .. } => {
            let mut scratch = env.copy();
            let ghost tb = it@;
            walk_expr(ast, *left, &mut scratch, it, out, writes, rebinds, false);
            walk_expr(ast, *right, &mut scratch, it, out, writes, rebinds, false);
            proof {
                lemma_env_ok_grows(env@, tb, it@);
            }
            widen_flow_writes(writes, *span, env);
                assert(env_ok(env@, it@));
        },
        Node::LocalVariableWrite { name, value, .. } => {
            walk_expr(ast, *value, env, it, out, writes, rebinds, pos);
            let ghost tb = it@;
            let t = type_of(ast, *value, env, it);
            proof {
                lemma_env_ok_grows(env@, tb, it@);
            }
            env.insert(name.as_str(), t);
        },
        Node::MultiWrite { targets, value, .. } => {
            walk_expr(ast, *value, env, it, out, writes, rebinds, pos);
            let ghost tb = it@;
            let t = type_of(ast, *value, env, it);
            proof {
                lemma_env_ok_grows(env@, tb, it@);
            }
            bind_targets(targets, t, it, env);
        },
        Node::LocalVariableOpWrite { name, value, .. } => {
            walk_expr(ast, *value, env, it, out, writes, rebinds, false);
            env.insert(name.as_str(), 0);
        },
        Node::If { .. } => {
            walk_if(ast, id, env, it, out, writes, rebinds, false);
        },
        Node::Case { .. } => {
            walk_case(ast, id, env, it, out, writes, rebinds, pos);
        },
        other => {
            widen_flow_writes(writes, node_span(other), env);
            assert(env_ok(env@, it@));
        },
    }
}

/// An `if` / `unless`.
fn walk_if(
    ast: &Ast,
    id: usize,
    env: &mut TypeEnv,
    it: &mut Interner,
    out: &mut Vec<Option<CoreClass>>,
    writes: &Vec<Write>,
    rebinds: &Vec<Write>,
    pos: bool,
)
    requires
        walk_ok(ast, old(env)@, old(it)@, old(out)@),
        id < ast.nodes@.len(),
    ensures
        lands(
            s_if(ast.nodes@, id as int, st_of(old(env)@, old(it)@, old(out)@), ctx_of(writes@, rebinds@), pos),
            final(env)@, old(it)@, final(it)@, old(out)@, final(out)@,
        ),
    decreases id + 1, 1int, 0nat,
{
    proof {
        lemma_children_below(ast.nodes@, id as int);
    }
    match ast.get(id) {
        Node::If { predicate, then_body, else_body, is_unless, .. } => {
            walk_expr(ast, *predicate, env, it, out, writes, rebinds, false);
            let (truthy, falsey) = if *is_unless {
                (else_body, then_body)
            } else {
                (then_body, else_body)
            };
            let mut t = env.copy();
            walk_list(ast, truthy, id, &mut t, it, out, writes, rebinds, true, pos);
            let mut f = env.copy();
            walk_list(ast, falsey, id, &mut f, it, out, writes, rebinds, true, pos);
            let j = join_flow_envs(&t, &f, 0);
            *env = j;
        },
        _ => {},
    }
}

/// A `case` / `when`.
#[verifier::loop_isolation(false)]
fn walk_case(
    ast: &Ast,
    id: usize,
    env: &mut TypeEnv,
    it: &mut Interner,
    out: &mut Vec<Option<CoreClass>>,
    writes: &Vec<Write>,
    rebinds: &Vec<Write>,
    pos: bool,
)
    requires
        walk_ok(ast, old(env)@, old(it)@, old(out)@),
        id < ast.nodes@.len(),
    ensures
        lands(
            s_case(ast.nodes@, id as int, st_of(old(env)@, old(it)@, old(out)@), ctx_of(writes@, rebinds@), pos),
            final(env)@, old(it)@, final(it)@, old(out)@, final(out)@,
        ),
    decreases id + 1, 1int, 0nat,
{
    proof {
        lemma_children_below(ast.nodes@, id as int);
    }
    match ast.get(id) {
        Node::Case { predicate, branches, else_body, span } => {
            match predicate {
                Some(p) => {
                    walk_expr(ast, *p, env, it, out, writes, rebinds, false);
                },
                None => {},
            }
            let ghost ctx = ctx_of(writes@, rebinds@);
            let ghost s1 = st_of(env@, it@, out@);
            let ghost t1 = it@;
            let ghost o1 = out@;
            let mut acc = env.copy();
            let mut k: usize = 0;
            while k < branches.len()
                invariant
                    0 <= k <= branches@.len(),
                    id < ast.nodes@.len(),
                    all_below(branches@, id as int),
                    ctx == ctx_of(writes@, rebinds@),
                    walk_ok(ast, env@, it@, out@),
                    env_ok(acc@, it@),
                    env@ == s1.env,
                    s1.tbl == t1,
                    s1.out == o1,
                    extends(t1, it@),
                    out@.len() == o1.len(),
                    s_branches(ast.nodes@, branches@.take(k as int), id as int, s1.env, *span, s1, ctx, pos) == (st_of(acc@, it@, out@), false),
                decreases branches@.len() - k,
            {
                proof {
                    assert(branches@.take(k as int + 1).drop_last() =~= branches@.take(k as int));
                    assert(branches@.take(k as int + 1).last() == branches@[k as int]);
                }
                let br = branches[k];
                match ast.get(br) {
                    Node::When { conditions, body, .. } => {
                        proof {
                            lemma_children_below(ast.nodes@, br as int);
                        }
                        let mut t = env.copy();
                        walk_list(ast, conditions, br, &mut t, it, out, writes, rebinds, false, false);
                        walk_list(ast, body, br, &mut t, it, out, writes, rebinds, true, pos);
                        acc = join_flow_envs(&acc, &t, 0);
                    },
                    _ => {
                        widen_flow_writes(writes, *span, env);
                        proof {
                            lemma_branches_stop(ast.nodes@, branches@, k as int + 1, id as int, s1.env, *span, s1, ctx, pos);
                            assert(branches@.take(branches@.len() as int) =~= branches@);
                        }
                        return;
                    },
                }
                k = k + 1;
            }
            proof {
                assert(branches@.take(branches@.len() as int) =~= branches@);
            }
            let mut e = env.copy();
            walk_list(ast, else_body, id, &mut e, it, out, writes, rebinds, true, pos);
            let j = join_flow_envs(&acc, &e, 0);
            *env = j;
        },
        _ => {},
    }
}

/// Once the clause walk has stopped, later clauses change nothing.
proof fn lemma_branches_stop(nodes: Seq<Node>, brs: Seq<usize>, k: int, bound: int, pre: Map<Seq<char>, nat>, case_span: Span, acc: FlowSt, ctx: FlowCtx, pos: bool)
    requires
        0 < k <= brs.len(),
        s_branches(nodes, brs.take(k), bound, pre, case_span, acc, ctx, pos).1,
    ensures
        s_branches(nodes, brs, bound, pre, case_span, acc, ctx, pos) == s_branches(nodes, brs.take(k), bound, pre, case_span, acc, ctx, pos),
    decreases brs.len() - k,
{
    if k < brs.len() {
        assert(brs.take(k + 1).drop_last() =~= brs.take(k));
        lemma_branches_stop(nodes, brs, k + 1, bound, pre, case_span, acc, ctx, pos);
    } else {
        assert(brs.take(k) =~= brs);
    }
}

/// The per-call-node collection-shape snapshot map: for every call whose
/// receiver is a bare local that still carries a collection at the call (a
/// literal `Tuple`/`HashShape` seed, or a `Nominal[Array|Hash]` an in-place
/// mutator kept), the class it dispatches as, indexed by call id.
/// `mutated_params` lists each `(method, parameter index)` whose callee
/// mutates that positional parameter in place.
pub fn collection_shape_snapshots(ast: &Ast, mutated_params: &Vec<(String, usize)>, it: &mut Interner) -> (r: Vec<Option<CoreClass>>)
    requires
        ast.wf(),
        table_wf(old(it)@),
    ensures
        r@ == spec_snapshots(ast.nodes@, mutates_view(mutated_params@), old(it)@).out,
        final(it)@ == spec_snapshots(ast.nodes@, mutates_view(mutated_params@), old(it)@).tbl,
        r@.len() == ast.nodes@.len(),
        table_wf(final(it)@),
{
    let mut out: Vec<Option<CoreClass>> = Vec::new();
    let mut i: usize = 0;
    while i < ast.len()
        invariant
            0 <= i <= ast.nodes@.len(),
            out@ == Seq::<Option<CoreClass>>::new(i as nat, |j: int| None::<CoreClass>),
        decreases ast.nodes@.len() - i,
    {
        out.push(None);
        i = i + 1;
        assert(out@ =~= Seq::<Option<CoreClass>>::new(i as nat, |j: int| None::<CoreClass>));
    }
    let mut writes = collect_flow_writes(ast);
    let extra = indexed_flow_writes(ast, mutated_params);
    let ghost w1 = writes@;
    let mut k: usize = 0;
    while k < extra.len()
        invariant
            0 <= k <= extra@.len(),
            writes@ == w1 + extra@.take(k as int),
        decreases extra@.len() - k,
    {
        writes.push((extra[k].0, extra[k].1.clone()));
        k = k + 1;
        assert(writes@ =~= w1 + extra@.take(k as int));
    }
    proof {
        assert(extra@.take(extra@.len() as int) =~= extra@);
        assert(writes_view(writes@) =~= writes_view(w1) + writes_view(extra@));
    }
    let rebinds = collect_rebind_writes(ast);
    let root = ast.root();
    let mut env = TypeEnv::new();
    match ast.get(root) {
        Node::Program { body, .. } => {
            proof {
                lemma_children_below(ast.nodes@, root as int);
            }
            walk_list(ast, body, root, &mut env, it, &mut out, &writes, &rebinds, true, true);
        },
        _ => {},
    }
    out
}

/// The snapshot walk's final state: the program body walked in statement
/// position from empty bindings and no records.
pub open spec fn spec_snapshots(nodes: Seq<Node>, mutates: Seq<(Seq<char>, usize)>, tbl: Seq<TyV>) -> FlowSt {
    let ctx = FlowCtx {
        writes: writes_upto(nodes, nodes.len() as int, false) + arg_writes_all(nodes, nodes.len() as int, mutates),
        rebinds: writes_upto(nodes, nodes.len() as int, true),
    };
    let st0 = FlowSt { env: Map::empty(), tbl, out: Seq::new(nodes.len(), |j: int| None::<CoreClass>) };
    match nodes.last() {
        Node::Program { body, .. } => s_list(nodes, body@, nodes.len() - 1, st0, ctx, true, true),
        _ => st0,
    }
}


// --- Laws ------------------------------------------------------------------

/// Widening sets every local written within `span` to `Dynamic[top]` and
/// leaves every other binding as it was.
pub proof fn lemma_widen_effect(writes: Seq<(Span, Seq<char>)>, span: Span, env: Map<Seq<char>, nat>, k: Seq<char>)
    ensures
        (exists|j: int| 0 <= j < writes.len() && writes[j].1 == k && span_within(writes[j].0, span))
            ==> spec_widen(writes, span, env).contains_key(k) && spec_widen(writes, span, env)[k] == untyped_id(),
        !(exists|j: int| 0 <= j < writes.len() && writes[j].1 == k && span_within(writes[j].0, span))
            ==> (spec_widen(writes, span, env).contains_key(k) == env.contains_key(k)
            && (env.contains_key(k) ==> spec_widen(writes, span, env)[k] == env[k])),
    decreases writes.len(),
{
    if writes.len() > 0 {
        let w = writes.drop_last();
        lemma_widen_effect(w, span, env, k);
        if exists|j: int| 0 <= j < writes.len() && writes[j].1 == k && span_within(writes[j].0, span) {
            let j = choose|j: int| 0 <= j < writes.len() && writes[j].1 == k && span_within(writes[j].0, span);
            if j < writes.len() - 1 {
                assert(w[j] == writes[j]);
            }
        } else {
            assert forall|j: int| 0 <= j < w.len() implies !(w[j].1 == k && span_within(w[j].0, span)) by {
                assert(w[j] == writes[j]);
            }
        }
    }
}

/// The join is symmetric.
pub proof fn lemma_join_commutes(a: Map<Seq<char>, nat>, b: Map<Seq<char>, nat>, u: nat)
    ensures
        spec_join(a, b, u) == spec_join(b, a, u),
{
    assert(spec_join(a, b, u) =~= spec_join(b, a, u));
}

/// Joining an environment with itself changes nothing.
pub proof fn lemma_join_idempotent(a: Map<Seq<char>, nat>, u: nat)
    ensures
        spec_join(a, a, u) == a,
{
    assert(spec_join(a, a, u) =~= a);
}

/// A binding survives a join exactly when both edges hold the identical type
/// id; any disagreement, or a binding on one edge only, becomes `u`.
pub proof fn lemma_join_keeps_only_agreement(a: Map<Seq<char>, nat>, b: Map<Seq<char>, nat>, u: nat, k: Seq<char>)
    requires
        a.contains_key(k) || b.contains_key(k),
    ensures
        spec_join(a, b, u).contains_key(k),
        (a.contains_key(k) && b.contains_key(k) && a[k] == b[k]) ==> spec_join(a, b, u)[k] == a[k],
        !(a.contains_key(k) && b.contains_key(k) && a[k] == b[k]) ==> spec_join(a, b, u)[k] == u,
{
}

/// Node `i` is a call whose receiver is a bare local, dispatched without
/// safe navigation.
pub open spec fn is_local_call(nodes: Seq<Node>, i: int) -> bool {
    0 <= i < nodes.len() && match nodes[i] {
        Node::Call { receiver, safe_nav, .. } => !safe_nav && receiver_local(nodes, receiver) is Some,
        _ => false,
    }
}

/// Every record sits on such a call.
pub open spec fn records_ok(nodes: Seq<Node>, out: Seq<Option<CoreClass>>) -> bool {
    forall|i: int| 0 <= i < out.len() && (#[trigger] out[i]) is Some ==> is_local_call(nodes, i)
}

proof fn lemma_list_records(nodes: Seq<Node>, ids: Seq<usize>, bound: int, st: FlowSt, ctx: FlowCtx, as_stmt: bool, pos: bool)
    requires
        records_ok(nodes, st.out),
        st.out.len() == nodes.len(),
    ensures
        records_ok(nodes, s_list(nodes, ids, bound, st, ctx, as_stmt, pos).out),
        s_list(nodes, ids, bound, st, ctx, as_stmt, pos).out.len() == st.out.len(),
    decreases bound, 4int, ids.len(),
{
    if ids.len() > 0 {
        lemma_list_records(nodes, ids.drop_last(), bound, st, ctx, as_stmt, pos);
        let st1 = s_list(nodes, ids.drop_last(), bound, st, ctx, as_stmt, pos);
        if ids.last() < bound {
            if as_stmt {
                lemma_stmt_records(nodes, ids.last() as int, st1, ctx, pos);
            } else {
                lemma_expr_records(nodes, ids.last() as int, st1, ctx, pos);
            }
        }
    }
}

proof fn lemma_stmt_records(nodes: Seq<Node>, id: int, st: FlowSt, ctx: FlowCtx, pos: bool)
    requires
        records_ok(nodes, st.out),
        st.out.len() == nodes.len(),
    ensures
        records_ok(nodes, s_stmt(nodes, id, st, ctx, pos).out),
        s_stmt(nodes, id, st, ctx, pos).out.len() == st.out.len(),
    decreases id + 1, 3int, 0nat,
{
    if 0 <= id < nodes.len() {
        match nodes[id] {
            Node::Statements { body, .. } => lemma_list_records(nodes, body@, id, st, ctx, true, pos),
            Node::LocalVariableWrite { .. } => lemma_expr_records(nodes, id, st, ctx, pos),
            Node::MultiWrite { .. } => lemma_expr_records(nodes, id, st, ctx, pos),
            Node::LocalVariableOpWrite { .. } => lemma_expr_records(nodes, id, st, ctx, pos),
            Node::Call { .. } => lemma_expr_records(nodes, id, st, ctx, pos),
            Node::Return { values, .. } => lemma_list_records(nodes, values@, id, st, ctx, false, false),
            Node::If { .. } => lemma_if_records(nodes, id, st, ctx, pos),
            Node::Case { .. } => lemma_case_records(nodes, id, st, ctx, pos),
            Node::Definition { body, .. } => lemma_scope_records(nodes, body@, id, st, ctx),
            Node::ClassDef { body, .. } => lemma_scope_records(nodes, body@, id, st, ctx),
            Node::ModuleDef { body, .. } => lemma_scope_records(nodes, body@, id, st, ctx),
            _ => {},
        }
    }
}

proof fn lemma_scope_records(nodes: Seq<Node>, body: Seq<usize>, id: int, st: FlowSt, ctx: FlowCtx)
    requires
        records_ok(nodes, st.out),
        st.out.len() == nodes.len(),
    ensures
        records_ok(nodes, s_scope_body(nodes, body, id, st, ctx).out),
        s_scope_body(nodes, body, id, st, ctx).out.len() == st.out.len(),
    decreases id + 1, 2int, 1nat,
{
    if id >= 0 {
        lemma_list_records(nodes, body, id, FlowSt { env: Map::empty(), tbl: st.tbl, out: st.out }, ctx, true, true);
    }
}

proof fn lemma_expr_records(nodes: Seq<Node>, id: int, st: FlowSt, ctx: FlowCtx, pos: bool)
    requires
        records_ok(nodes, st.out),
        st.out.len() == nodes.len(),
    ensures
        records_ok(nodes, s_expr(nodes, id, st, ctx, pos).out),
        s_expr(nodes, id, st, ctx, pos).out.len() == st.out.len(),
    decreases id + 1, 2int, 0nat,
{
    if 0 <= id < nodes.len() {
        match nodes[id] {
            Node::Call { receiver, method, args, block_body, safe_nav, span } => {
                let st1 = match receiver {
                    Some(r) => if r < id { s_expr(nodes, r as int, st, ctx, false) } else { st },
                    None => st,
                };
                match receiver {
                    Some(r) => if r < id { lemma_expr_records(nodes, r as int, st, ctx, false); },
                    None => {},
                }
                let local = if safe_nav { None } else { receiver_local(nodes, receiver) };
                let bound_ty = binding(st1.env, local);
                let out2 = match bound_ty {
                    Some(t) => match carrier(st1.tbl, t) {
                        Some(c) => st1.out.update(id, Some(c)),
                        None => st1.out,
                    },
                    None => st1.out,
                };
                assert(out2.len() == st1.out.len());
                assert(records_ok(nodes, out2)) by {
                    assert forall|i: int| 0 <= i < out2.len() && (#[trigger] out2[i]) is Some implies is_local_call(nodes, i) by {
                        if bound_ty is Some && carrier(st1.tbl, bound_ty->Some_0) is Some && i == id {
                            assert(local is Some);
                            assert(receiver_local(nodes, receiver) is Some);
                        } else {
                            assert(out2[i] == st1.out[i]);
                        }
                    }
                }
                let st1b = FlowSt { env: st1.env, tbl: st1.tbl, out: out2 };
                lemma_list_records(nodes, args@, id, st1b, ctx, false, false);
                let st2 = s_list(nodes, args@, id, st1b, ctx, false, false);
                if block_body@.len() != 0 && pos {
                    lemma_list_records(nodes, block_body@, id, st2, ctx, true, true);
                }
            },
            Node::Logical { left, right, span, .. } => {
                let s1 = if left < id { s_expr(nodes, left as int, st, ctx, false) } else { st };
                if left < id {
                    lemma_expr_records(nodes, left as int, st, ctx, false);
                }
                if right < id {
                    lemma_expr_records(nodes, right as int, s1, ctx, false);
                }
            },
            Node::LocalVariableWrite { value, .. } => if value < id {
                lemma_expr_records(nodes, value as int, st, ctx, pos);
            },
            Node::MultiWrite { value, .. } => if value < id {
                lemma_expr_records(nodes, value as int, st, ctx, pos);
            },
            Node::LocalVariableOpWrite { value, .. } => if value < id {
                lemma_expr_records(nodes, value as int, st, ctx, false);
            },
            Node::If { .. } => lemma_if_records(nodes, id, st, ctx, false),
            Node::Case { .. } => lemma_case_records(nodes, id, st, ctx, pos),
            _ => {},
        }
    }
}

proof fn lemma_if_records(nodes: Seq<Node>, id: int, st: FlowSt, ctx: FlowCtx, pos: bool)
    requires
        records_ok(nodes, st.out),
        st.out.len() == nodes.len(),
    ensures
        records_ok(nodes, s_if(nodes, id, st, ctx, pos).out),
        s_if(nodes, id, st, ctx, pos).out.len() == st.out.len(),
    decreases id + 1, 1int, 0nat,
{
    if 0 <= id < nodes.len() {
        match nodes[id] {
            Node::If { predicate, then_body, else_body, is_unless, .. } => {
                let s1 = if predicate < id { s_expr(nodes, predicate as int, st, ctx, false) } else { st };
                if predicate < id {
                    lemma_expr_records(nodes, predicate as int, st, ctx, false);
                }
                let truthy = if is_unless { else_body@ } else { then_body@ };
                let falsey = if is_unless { then_body@ } else { else_body@ };
                lemma_list_records(nodes, truthy, id, s1, ctx, true, pos);
                let t = s_list(nodes, truthy, id, s1, ctx, true, pos);
                lemma_list_records(nodes, falsey, id, FlowSt { env: s1.env, tbl: t.tbl, out: t.out }, ctx, true, pos);
            },
            _ => {},
        }
    }
}

proof fn lemma_branches_records(nodes: Seq<Node>, brs: Seq<usize>, bound: int, pre: Map<Seq<char>, nat>, case_span: Span, acc: FlowSt, ctx: FlowCtx, pos: bool)
    requires
        records_ok(nodes, acc.out),
        acc.out.len() == nodes.len(),
    ensures
        records_ok(nodes, s_branches(nodes, brs, bound, pre, case_span, acc, ctx, pos).0.out),
        s_branches(nodes, brs, bound, pre, case_span, acc, ctx, pos).0.out.len() == acc.out.len(),
    decreases bound, 4int, brs.len(),
{
    if brs.len() > 0 {
        lemma_branches_records(nodes, brs.drop_last(), bound, pre, case_span, acc, ctx, pos);
        let (a, stop) = s_branches(nodes, brs.drop_last(), bound, pre, case_span, acc, ctx, pos);
        let br = brs.last();
        if !stop && br < bound {
            match nodes[br as int] {
                Node::When { conditions, body, .. } => {
                    let t0 = FlowSt { env: pre, tbl: a.tbl, out: a.out };
                    lemma_list_records(nodes, conditions@, br as int, t0, ctx, false, false);
                    let t1 = s_list(nodes, conditions@, br as int, t0, ctx, false, false);
                    lemma_list_records(nodes, body@, br as int, t1, ctx, true, pos);
                },
                _ => {},
            }
        }
    }
}

proof fn lemma_case_records(nodes: Seq<Node>, id: int, st: FlowSt, ctx: FlowCtx, pos: bool)
    requires
        records_ok(nodes, st.out),
        st.out.len() == nodes.len(),
    ensures
        records_ok(nodes, s_case(nodes, id, st, ctx, pos).out),
        s_case(nodes, id, st, ctx, pos).out.len() == st.out.len(),
    decreases id + 1, 1int, 0nat,
{
    if 0 <= id < nodes.len() {
        match nodes[id] {
            Node::Case { predicate, branches, else_body, span } => {
                let s1 = match predicate {
                    Some(p) => if p < id { s_expr(nodes, p as int, st, ctx, false) } else { st },
                    None => st,
                };
                match predicate {
                    Some(p) => if p < id { lemma_expr_records(nodes, p as int, st, ctx, false); },
                    None => {},
                }
                lemma_branches_records(nodes, branches@, id, s1.env, span, s1, ctx, pos);
                let (a, stop) = s_branches(nodes, branches@, id, s1.env, span, s1, ctx, pos);
                if !stop {
                    lemma_list_records(nodes, else_body@, id, FlowSt { env: s1.env, tbl: a.tbl, out: a.out }, ctx, true, pos);
                }
            },
            _ => {},
        }
    }
}

/// The snapshot walk records a collection class only at a call whose
/// receiver is a bare local dispatched without safe navigation: an ivar, a
/// chained call, a constant or a `&.` receiver never carries a record.
pub proof fn lemma_snapshots_only_at_local_calls(nodes: Seq<Node>, mutates: Seq<(Seq<char>, usize)>, tbl: Seq<TyV>, i: int)
    requires
        0 <= i < nodes.len(),
        spec_snapshots(nodes, mutates, tbl).out[i] is Some,
    ensures
        is_local_call(nodes, i),
{
    let ctx = FlowCtx {
        writes: writes_upto(nodes, nodes.len() as int, false) + arg_writes_all(nodes, nodes.len() as int, mutates),
        rebinds: writes_upto(nodes, nodes.len() as int, true),
    };
    let st0 = FlowSt { env: Map::empty(), tbl, out: Seq::new(nodes.len(), |j: int| None::<CoreClass>) };
    assert(records_ok(nodes, st0.out));
    match nodes.last() {
        Node::Program { body, .. } => {
            lemma_list_records(nodes, body@, nodes.len() - 1, st0, ctx, true, true);
        },
        _ => {},
    }
}

/// A block-free call on a value-pinned receiver with value-pinned
/// arguments that the fold core declines, and that is safe to route, types
/// to the constant the sidecar answers for that receiver, method and those
/// arguments.
pub proof fn lemma_sidecar_answers_call(
    fo: FoldOracle,
    nodes: Seq<Node>,
    id: int,
    env: Map<Seq<char>, nat>,
    tbl: Seq<TyV>,
    rt: nat,
    t1: Seq<TyV>,
    ats: Seq<usize>,
    t2: Seq<TyV>,
    s: ScalarV,
    cs: Seq<ScalarV>,
    v: ScalarV,
)
    requires
        0 <= id < nodes.len(),
        nodes[id] matches Node::Call { receiver: Some(r), method, args, block_body, .. } && block_body@.len() == 0 && r < id
            && all_below(args@, id) && !(method@ == "new"@ && new_class(nodes[r as int]) is Some) && (rt, t1) == s_type_of_f(
            fo,
            nodes,
            r as int,
            env,
            tbl,
        ) && (ats, t2) == s_type_list_f(fo, nodes, args@, id, env, t1) && spec_fold(s, method@, cs) is None
            && crate::folding::spec_sidecar_foldable(crate::folding::spec_scalar_class(s), method@) && fo(s, method@, cs)
            == Some(v),
        const_of(t2, rt) == Some(s),
        consts_of(t2, ats) == Some(cs),
    ensures
        s_type_of_f(fo, nodes, id, env, tbl) == spec_intern(t2, TyV::Constant(v)),
{
}

/// `p(x)` / `pp(x)` types exactly as its one argument: the printer returns
/// its argument unchanged, unless the file defines a method of that name or
/// the argument is a splat.
pub proof fn lemma_p_identity(nodes: Seq<Node>, id: int, m: Seq<char>, a: usize, env: Map<Seq<char>, nat>, tbl: Seq<TyV>)
    requires
        m == "p"@ || m == "pp"@,
        a < id,
        !defines_method(nodes, m),
        !(nodes[a as int] is Other || nodes[a as int] is Statements),
    ensures
        s_implicit_f(no_folder(), nodes, id, m, seq![a], env, tbl) == s_type_of(nodes, a as int, env, tbl),
{
    assert(is_kernel_name(m));
    assert(seq![a][0] == a);
    assert(all_below(seq![a], id));
    assert(!has_splat(nodes, seq![a]));
}


/// An `if` / `unless` whose predicate's truth is known types as its live
/// branch: an `if` as its `then` branch under a truthy predicate and as its
/// `else` branch (`nil` when absent) under a falsey one; an `unless` the
/// other way round, its body running only under a falsey predicate.
pub proof fn lemma_known_predicate_picks_live_branch(
    fo: FoldOracle,
    nodes: Seq<Node>,
    id: int,
    env: Map<Seq<char>, nat>,
    tbl: Seq<TyV>,
    then_ty: nat,
    t1: Seq<TyV>,
    else_ty: nat,
    t2: Seq<TyV>,
    pt: nat,
    t3: Seq<TyV>,
)
    requires
        0 <= id < nodes.len(),
        nodes[id] matches Node::If { predicate, then_body, else_body, .. } && predicate < id && all_below(then_body@, id)
            && all_below(else_body@, id) && (then_ty, t1) == s_branch_value_f(fo, nodes, then_body@, id, env, tbl)
            && (else_ty, t2) == (if else_body@.len() == 0 {
            spec_intern(t1, TyV::Constant(ScalarV::Nil))
        } else {
            s_branch_value_f(fo, nodes, else_body@, id, env, t1)
        }) && (pt, t3) == s_type_of_f(fo, nodes, predicate as int, env, t2),
    ensures
        !nodes[id]->If_is_unless && polarity(t3, pt) == Some(true) ==> s_type_of_f(fo, nodes, id, env, tbl) == (then_ty, t3),
        !nodes[id]->If_is_unless && polarity(t3, pt) == Some(false) ==> s_type_of_f(fo, nodes, id, env, tbl) == (else_ty, t3),
        nodes[id]->If_is_unless && polarity(t3, pt) == Some(true) ==> s_type_of_f(fo, nodes, id, env, tbl) == (else_ty, t3),
        nodes[id]->If_is_unless && polarity(t3, pt) == Some(false) ==> s_type_of_f(fo, nodes, id, env, tbl) == (then_ty, t3),
{
}

} // verus!
