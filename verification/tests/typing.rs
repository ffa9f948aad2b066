use rigor_infer::folding::TableFolder;
use rigor_infer::flow::type_of_with_folder;
use rigor_infer::ast::{Ast, Node};
use rigor_infer::env::TypeEnv;
use rigor_infer::flow::{build_toplevel_env, type_of};
use rigor_infer::parser::parse;
use rigor_infer::scalar::Scalar;
use rigor_infer::truthy::always_truthy_snapshots;
use rigor_infer::types::{CoreClass, Interner, TyNode};

fn lower_src(src: &[u8]) -> Ast {
    parse(src).expect("source parses")
}

fn inspect(s: &Scalar) -> String {
    match s {
        Scalar::Int(n) => n.to_string(),
        Scalar::Float(b) => f64::from_bits(*b).to_string(),
        Scalar::Str(v) => format!("{v:?}"),
        Scalar::Sym(v) => format!(":{v}"),
        Scalar::Bool(b) => b.to_string(),
        Scalar::Nil => "nil".to_string(),
    }
}

/// A rendering of a type: `Dynamic[top]`, `nil`, `Constant[v]`, `Tuple[..]`,
/// `{k => v, ..}` or a class name.
fn describe(i: &Interner, t: usize) -> String {
    match i.get(t) {
        TyNode::Untyped => "Dynamic[top]".to_string(),
        TyNode::Constant(Scalar::Nil) => "nil".to_string(),
        TyNode::Constant(s) => format!("Constant[{}]", inspect(s)),
        TyNode::Tuple(es) => format!(
            "Tuple[{}]",
            es.iter().map(|&e| describe(i, e)).collect::<Vec<_>>().join(", ")
        ),
        TyNode::HashShape(ms) => format!(
            "{{{}}}",
            ms.iter()
                .map(|(k, v)| format!("{} => {}", inspect(k), describe(i, *v)))
                .collect::<Vec<_>>()
                .join(", ")
        ),
        TyNode::Nominal(c) => c.name().to_string(),
        TyNode::Union(ms) => ms.iter().map(|&m| describe(i, m)).collect::<Vec<_>>().join(" | "),
    }
}

fn find_call(ast: &Ast, name: &str) -> usize {
    ast.nodes
        .iter()
        .position(|n| matches!(n, Node::Call { method, .. } if method == name))
        .unwrap_or_else(|| panic!("expected a call to `{name}`"))
}

fn find_hash(ast: &Ast) -> usize {
    ast.nodes
        .iter()
        .position(|n| matches!(n, Node::HashLit { .. }))
        .expect("expected a hash literal")
}

fn members(ty: &TyNode) -> &Vec<(Scalar, usize)> {
    match ty {
        TyNode::HashShape(m) => m,
        other => panic!("expected HashShape, got {other:?}"),
    }
}

fn last_call_ty(src: &[u8]) -> String {
    let ast = lower_src(src);
    let mut i = Interner::new();
    let env = TypeEnv::new();
    let call_id = ast
        .nodes
        .iter()
        .rposition(|n| matches!(n, Node::Call { receiver: Some(_), .. }))
        .unwrap();
    let ty = type_of(&ast, call_id, &env, &mut i);
    describe(&i, ty)
}

fn type_of_projection(src: &[u8], method: &str) -> (Interner, usize) {
    let ast = lower_src(src);
    let mut i = Interner::new();
    let env = build_toplevel_env(&ast, &mut i);
    let call = find_call(&ast, method);
    let ty = type_of(&ast, call, &env, &mut i);
    (i, ty)
}

#[test]
fn types_string_and_integer_literals() {
    let ast = lower_src(b"\"Hello\"\n42\n");
    let mut i = Interner::new();
    let env = TypeEnv::new();
    let str_id = ast.nodes.iter().position(|n| matches!(n, Node::StringLit { .. })).unwrap();
    let int_id = ast.nodes.iter().position(|n| matches!(n, Node::IntegerLit { .. })).unwrap();
    let str_ty = type_of(&ast, str_id, &env, &mut i);
    assert!(matches!(i.get(str_ty), TyNode::Constant(Scalar::Str(s)) if s == "Hello"));
    let int_ty = type_of(&ast, int_id, &env, &mut i);
    assert!(matches!(i.get(int_ty), TyNode::Constant(Scalar::Int(42))));
}

#[test]
fn tuple_projection_folds() {
    let case = |src: &[u8], expect: &str| {
        let ast = lower_src(src);
        let mut i = Interner::new();
        let env = TypeEnv::new();
        let call_id = ast
            .nodes
            .iter()
            .position(|n| matches!(n, Node::Call { receiver: Some(_), .. }))
            .unwrap();
        let ty = type_of(&ast, call_id, &env, &mut i);
        assert_eq!(describe(&i, ty), expect, "src={}", String::from_utf8_lossy(src));
    };
    case(b"[1, 2, 3].first\n", "Constant[1]");
    case(b"[1, 2, 3].last\n", "Constant[3]");
    case(b"[1, 2, 3].size\n", "Constant[3]");
    case(b"[10, 20][1]\n", "Constant[20]");
    case(b"[10, 20][-1]\n", "Constant[20]");
    case(b"[1, 2].empty?\n", "Constant[false]");
    case(b"[].first\n", "nil");
    case(b"[1, 2][9]\n", "nil");
}

#[test]
fn kernel_p_pp_identity_typing() {
    let describe_ty = |src: &[u8], want_recv_none: bool| -> String {
        let ast = lower_src(src);
        let mut i = Interner::new();
        let env = TypeEnv::new();
        let call_id = ast
            .nodes
            .iter()
            .enumerate()
            .filter_map(|(id, n)| match n {
                Node::Call { receiver, method, .. }
                    if receiver.is_none() == want_recv_none && (method == "p" || method == "pp") =>
                {
                    Some(id)
                }
                _ => None,
            })
            .last()
            .unwrap();
        let ty = type_of(&ast, call_id, &env, &mut i);
        describe(&i, ty)
    };
    assert_eq!(describe_ty(b"p 42\n", true), "Constant[42]");
    assert_eq!(describe_ty(b"p(1, \"a\")\n", true), "Tuple[Constant[1], Constant[\"a\"]]");
    assert_eq!(describe_ty(b"p\n", true), "nil");
    assert_eq!(describe_ty(b"pp 42\n", true), "Constant[42]");
    assert_eq!(describe_ty(b"p(42) { 1 }\n", true), "Constant[42]");
    assert_eq!(describe_ty(b"p({a: 1})\n", true), "{:a => Constant[1]}");
    assert_eq!(describe_ty(b"Kernel.p(42)\n", false), "Dynamic[top]");
    assert_eq!(describe_ty(b"def p(*a); nil; end\np 42\n", true), "Dynamic[top]");
    assert_eq!(describe_ty(b"a = [1, 2]\np(*a)\n", true), "Dynamic[top]");
    assert_eq!(describe_ty(b"p some_unknown_local\n", true), "Dynamic[top]");
}

#[test]
fn flow_snapshot_folds_straight_line_constant() {
    let ast = lower_src(b"x = 5\nif x\n  noop\nend\n");
    let mut i = Interner::new();
    let snaps = always_truthy_snapshots(&ast, &Vec::new(), &mut i);
    let if_id = ast.nodes.iter().position(|n| matches!(n, Node::If { .. })).unwrap();
    let ty = snaps[if_id].expect("predicate snapshot recorded");
    assert!(matches!(i.get(ty), TyNode::Constant(Scalar::Int(5))));
}

#[test]
fn flow_snapshot_widens_conditional_reassignment() {
    let ast = lower_src(b"x = 5\nif g\n  x = f\nend\nif x\n  noop\nend\n");
    let mut i = Interner::new();
    let snaps = always_truthy_snapshots(&ast, &Vec::new(), &mut i);
    let ifs: Vec<usize> = ast
        .nodes
        .iter()
        .enumerate()
        .filter_map(|(id, n)| matches!(n, Node::If { .. }).then_some(id))
        .collect();
    assert_eq!(ifs.len(), 2, "expected two if nodes");
    let ty2 = snaps[ifs[1]].expect("second if recorded");
    assert!(
        !matches!(i.get(ty2), TyNode::Constant(_)),
        "x must be widened to non-constant after a conditional reassignment"
    );
}

fn last_if_predicate_is_constant(src: &[u8]) -> bool {
    let ast = lower_src(src);
    let mut i = Interner::new();
    let snaps = always_truthy_snapshots(&ast, &Vec::new(), &mut i);
    let last_if = ast
        .nodes
        .iter()
        .rposition(|n| matches!(n, Node::If { .. }))
        .expect("at least one if node");
    let ty = snaps[last_if].expect("predicate snapshot recorded for a top-level if");
    matches!(i.get(ty), TyNode::Constant(_))
}

#[test]
fn mutation_widening_p2_no_mutation_keeps_firing() {
    assert!(last_if_predicate_is_constant(b"results = []\nif results.count > 1\n  noop\nend\n"));
    assert!(last_if_predicate_is_constant(b"results = []\nif results.count < 1\n  noop\nend\n"));
}

#[test]
fn mutation_widening_non_mutator_call_keeps_firing() {
    assert!(last_if_predicate_is_constant(
        b"results = []\nresults.map { |x| x }\nif results.count > 1\n  noop\nend\n"
    ));
}

#[test]
fn mutation_widening_p3_straight_line_push_stops_firing() {
    assert!(!last_if_predicate_is_constant(
        b"results = []\nresults.push(1)\nif results.count > 1\n  noop\nend\n"
    ));
}

#[test]
fn mutation_widening_p4_push_under_if_modifier_stops_firing() {
    assert!(!last_if_predicate_is_constant(
        b"results = []\nresults.push(1) if cond\nif results.count > 1\n  noop\nend\n"
    ));
}

#[test]
fn mutation_widening_p1_block_nested_case_stops_firing() {
    let src = b"results = []\nxs.each do |t|\n  case t\n  when 1\n    results.push(t)\n  when 2\n    results.pop\n  end\nend\nif results.count > 1\n  noop\nend\n";
    assert!(!last_if_predicate_is_constant(src));
    let src_lt = b"results = []\nxs.each do |t|\n  case t\n  when 1\n    results.push(t)\n  end\nend\nif results.count < 1\n  noop\nend\n";
    assert!(!last_if_predicate_is_constant(src_lt));
}

#[test]
fn mutation_widening_p5_rebind_in_block_stops_firing() {
    assert!(!last_if_predicate_is_constant(
        b"results = []\nxs.each do |t|\n  results = results + [t]\nend\nif results.count > 1\n  noop\nend\n"
    ));
}

#[test]
fn mutation_widening_p7_shovel_in_block_stops_firing() {
    assert!(!last_if_predicate_is_constant(
        b"results = []\nxs.each do |t|\n  results << t\nend\nif results.count > 1\n  noop\nend\n"
    ));
}

#[test]
fn local_read_resolves_from_env() {
    let ast = lower_src(b"s = \"Hello\"\ns.length\n");
    let mut i = Interner::new();
    let env = build_toplevel_env(&ast, &mut i);
    let t = env.get("s").expect("s bound");
    assert!(matches!(i.get(t), TyNode::Constant(Scalar::Str(s)) if s == "Hello"));
}

#[test]
fn unknown_receiver_is_dynamic_top() {
    let ast = lower_src(b"x.foo\n");
    let mut i = Interner::new();
    let env = build_toplevel_env(&ast, &mut i);
    let recv_id = ast
        .nodes
        .iter()
        .find_map(|n| match n {
            Node::Call { receiver: Some(r), method, .. } if method == "foo" => Some(*r),
            _ => None,
        })
        .unwrap();
    let ty = type_of(&ast, recv_id, &env, &mut i);
    assert_eq!(ty, i.untyped());
}

#[test]
fn folds_integer_addition_to_constant() {
    let ast = lower_src(b"1 + 2\n");
    let mut i = Interner::new();
    let env = build_toplevel_env(&ast, &mut i);
    let call = find_call(&ast, "+");
    let ty = type_of(&ast, call, &env, &mut i);
    assert!(matches!(i.get(ty), TyNode::Constant(Scalar::Int(3))));
}

#[test]
fn folds_nullary_integer_succ_to_constant() {
    let ast = lower_src(b"42.succ\n");
    let mut i = Interner::new();
    let env = build_toplevel_env(&ast, &mut i);
    let call = find_call(&ast, "succ");
    let ty = type_of(&ast, call, &env, &mut i);
    assert!(matches!(i.get(ty), TyNode::Constant(Scalar::Int(43))));
}

#[test]
fn folds_string_upcase_to_constant() {
    let ast = lower_src(b"\"hi\".upcase\n");
    let mut i = Interner::new();
    let env = build_toplevel_env(&ast, &mut i);
    let call = find_call(&ast, "upcase");
    let ty = type_of(&ast, call, &env, &mut i);
    assert!(matches!(i.get(ty), TyNode::Constant(Scalar::Str(s)) if s == "HI"));
}

#[test]
fn folds_string_length_to_constant() {
    let ast = lower_src(b"\"hello\".length\n");
    let mut i = Interner::new();
    let env = build_toplevel_env(&ast, &mut i);
    let call = find_call(&ast, "length");
    let ty = type_of(&ast, call, &env, &mut i);
    assert!(matches!(i.get(ty), TyNode::Constant(Scalar::Int(5))));
}

#[test]
fn hash_last_wins_keeps_first_position_last_value() {
    let ast = lower_src(b"{ a: 1, b: 2, a: 3 }\n");
    let mut i = Interner::new();
    let env = build_toplevel_env(&ast, &mut i);
    let ty = type_of(&ast, find_hash(&ast), &env, &mut i);
    let m = members(i.get(ty));
    assert_eq!(m.len(), 2);
    assert_eq!(m[0].0, Scalar::Sym("a".into()));
    assert!(matches!(i.get(m[0].1), TyNode::Constant(Scalar::Int(3))));
    assert_eq!(m[1].0, Scalar::Sym("b".into()));
    assert!(matches!(i.get(m[1].1), TyNode::Constant(Scalar::Int(2))));
}

#[test]
fn hash_dup_integer_key_last_wins() {
    let ast = lower_src(b"{ 1 => 1, 1 => 9 }\n");
    let mut i = Interner::new();
    let env = build_toplevel_env(&ast, &mut i);
    let ty = type_of(&ast, find_hash(&ast), &env, &mut i);
    let m = members(i.get(ty));
    assert_eq!(m.len(), 1);
    assert_eq!(m[0].0, Scalar::Int(1));
    assert!(matches!(i.get(m[0].1), TyNode::Constant(Scalar::Int(9))));
}

#[test]
fn hash_dynamic_key_degrades_to_hash_nominal() {
    let ast = lower_src(b"{ foo => 1 }\n");
    let mut i = Interner::new();
    let env = build_toplevel_env(&ast, &mut i);
    let ty = type_of(&ast, find_hash(&ast), &env, &mut i);
    assert!(matches!(i.get(ty), TyNode::Nominal(CoreClass::Hash)));
}

#[test]
fn hash_index_folds_present_and_missing_keys() {
    let (i, ty) = type_of_projection(b"v = { a: 1, b: \"s\" }[:b]\n", "[]");
    assert!(matches!(i.get(ty), TyNode::Constant(Scalar::Str(s)) if s == "s"));
    let (i, ty) = type_of_projection(b"v = { a: 1 }[:z]\n", "[]");
    assert!(matches!(i.get(ty), TyNode::Constant(Scalar::Nil)));
}

#[test]
fn hash_index_on_integer_key_folds() {
    let (i, ty) = type_of_projection(b"v = { 1 => \"x\" }[1]\n", "[]");
    assert!(matches!(i.get(ty), TyNode::Constant(Scalar::Str(s)) if s == "x"));
}

#[test]
fn hash_fetch_present_folds_missing_declines() {
    let (i, ty) = type_of_projection(b"v = { a: 1 }.fetch(:a)\n", "fetch");
    assert!(matches!(i.get(ty), TyNode::Constant(Scalar::Int(1))));
    let (i, ty) = type_of_projection(b"v = { a: 1 }.fetch(:z)\n", "fetch");
    assert!(!matches!(i.get(ty), TyNode::Constant(_)), "fetch miss must not fold to a Constant");
}

#[test]
fn hash_has_key_folds_to_bool() {
    for (src, expect) in [
        (b"v = { a: 1 }.has_key?(:a)\n".as_slice(), true),
        (b"v = { a: 1 }.has_key?(:z)\n".as_slice(), false),
    ] {
        let (i, ty) = type_of_projection(src, "has_key?");
        assert!(matches!(i.get(ty), TyNode::Constant(Scalar::Bool(b)) if *b == expect));
    }
    let (i, ty) = type_of_projection(b"v = { a: 1 }.key?(:a)\n", "key?");
    assert!(matches!(i.get(ty), TyNode::Constant(Scalar::Bool(true))));
    let (i, ty) = type_of_projection(b"v = { a: 1 }.include?(:z)\n", "include?");
    assert!(matches!(i.get(ty), TyNode::Constant(Scalar::Bool(false))));
}

#[test]
fn hash_values_at_folds_to_tuple_in_arg_order() {
    let (i, ty) = type_of_projection(b"v = { a: 1, b: 2 }.values_at(:b, :z, :a)\n", "values_at");
    let TyNode::Tuple(elems) = i.get(ty) else { panic!("expected Tuple, got {:?}", i.get(ty)) };
    let got: Vec<String> = elems.iter().map(|&e| describe(&i, e)).collect();
    assert_eq!(got, vec!["Constant[2]", "nil", "Constant[1]"]);
}

#[test]
fn hash_slice_keeps_present_keys_in_arg_order() {
    let (i, ty) = type_of_projection(b"v = { a: 1, b: 2, c: 3 }.slice(:c, :a)\n", "slice");
    let m = members(i.get(ty));
    assert_eq!(m.len(), 2);
    assert_eq!(m[0].0, Scalar::Sym("c".into()));
    assert_eq!(m[1].0, Scalar::Sym("a".into()));
}

#[test]
fn hash_except_drops_keys_in_receiver_order() {
    let (i, ty) = type_of_projection(b"v = { a: 1, b: 2, c: 3 }.except(:b)\n", "except");
    let keys: Vec<Scalar> = members(i.get(ty)).iter().map(|m| m.0.clone()).collect();
    assert_eq!(keys, vec![Scalar::Sym("a".into()), Scalar::Sym("c".into())]);
}

#[test]
fn hash_invert_swaps_keys_and_values() {
    let (i, ty) = type_of_projection(b"v = { a: 1, b: 2 }.invert\n", "invert");
    let m = members(i.get(ty));
    assert_eq!(m.len(), 2);
    assert_eq!(m[0].0, Scalar::Int(1));
    assert!(matches!(i.get(m[0].1), TyNode::Constant(Scalar::Sym(s)) if s == "a"));
    assert_eq!(m[1].0, Scalar::Int(2));
    assert!(matches!(i.get(m[1].1), TyNode::Constant(Scalar::Sym(s)) if s == "b"));
}

#[test]
fn hash_invert_declines_on_value_collision() {
    let (i, ty) = type_of_projection(b"v = { a: 1, b: 1 }.invert\n", "invert");
    assert!(!matches!(i.get(ty), TyNode::HashShape(_)), "collision must not fold to a HashShape");
}

#[test]
fn hash_dig_folds_single_and_nested_chains() {
    let (i, ty) = type_of_projection(b"v = { a: 1 }.dig(:a)\n", "dig");
    assert!(matches!(i.get(ty), TyNode::Constant(Scalar::Int(1))));
    let (i, ty) = type_of_projection(b"v = { a: { b: 5 } }.dig(:a, :b)\n", "dig");
    assert!(matches!(i.get(ty), TyNode::Constant(Scalar::Int(5))));
    let (i, ty) = type_of_projection(b"v = { a: { b: 5 } }.dig(:a, :z)\n", "dig");
    assert!(matches!(i.get(ty), TyNode::Constant(Scalar::Nil)));
}

#[test]
fn hash_projection_declines_on_dynamic_key() {
    let (i, ty) = type_of_projection(b"v = { a: 1 }[foo]\n", "[]");
    assert!(!matches!(i.get(ty), TyNode::Constant(Scalar::Int(1))));
}

#[test]
fn method_param_read_is_dynamic_top() {
    let ast = lower_src(b"def foo(x)\n  x.bar\nend\n");
    let mut i = Interner::new();
    let env = build_toplevel_env(&ast, &mut i);
    let recv = ast
        .nodes
        .iter()
        .find_map(|n| match n {
            Node::Call { receiver: Some(r), method, .. } if method == "bar" => Some(*r),
            _ => None,
        })
        .unwrap();
    let ty = type_of(&ast, recv, &env, &mut i);
    assert_eq!(ty, i.untyped());
}

#[test]
fn ivar_and_self_and_const_reads_are_dynamic_top() {
    for src in [b"@x.foo\n".as_slice(), b"self.foo\n".as_slice(), b"Foo.foo\n".as_slice()] {
        let ast = lower_src(src);
        let mut i = Interner::new();
        let env = build_toplevel_env(&ast, &mut i);
        let recv = ast
            .nodes
            .iter()
            .find_map(|n| match n {
                Node::Call { receiver: Some(r), method, .. } if method == "foo" => Some(*r),
                _ => None,
            })
            .unwrap();
        let ty = type_of(&ast, recv, &env, &mut i);
        assert_eq!(ty, i.untyped(), "receiver of {src:?} must be Dynamic[top]");
    }
}

#[test]
fn non_deterministic_or_unknown_call_is_dynamic_top() {
    let mut i = Interner::new();
    let ast = lower_src(b"42.sample\n");
    let env = build_toplevel_env(&ast, &mut i);
    let call = find_call(&ast, "sample");
    let ty = type_of(&ast, call, &env, &mut i);
    assert_eq!(ty, i.untyped());
}

#[test]
fn tuple_set_operations_fold() {
    assert_eq!(last_call_ty(b"[1, 2] & [2]\n"), "Tuple[Constant[2]]");
    assert_eq!(last_call_ty(b"[1] | [2]\n"), "Tuple[Constant[1], Constant[2]]");
    assert_eq!(last_call_ty(b"[1, 1, 2] - [2]\n"), "Tuple[Constant[1], Constant[1]]");
    assert_eq!(last_call_ty(b"[1, 2].intersection([2, 3], [2])\n"), "Tuple[Constant[2]]");
    assert_eq!(last_call_ty(b"[1, 2].intersect?([3])\n"), "Constant[false]");
    assert_eq!(last_call_ty(b"[1, 2].intersect?([2])\n"), "Constant[true]");
}

#[test]
fn tuple_one_and_at_fold() {
    assert_eq!(last_call_ty(b"[nil, false, 3].one?\n"), "Constant[true]");
    assert_eq!(last_call_ty(b"[nil, 2, 3].one?\n"), "Constant[false]");
    assert_eq!(last_call_ty(b"[1, 2, 3].at(1)\n"), "Constant[2]");
    assert_eq!(last_call_ty(b"[1, 2, 3].at(-1)\n"), "Constant[3]");
}

// --- Further cases -----------------------------------------------------------

#[test]
fn tuple_set_operations_decline_without_a_pinned_tuple() {
    assert_eq!(last_call_ty(b"[1, 2, 3].at(9)\n"), "Dynamic[top]");
    assert_eq!(last_call_ty(b"[1, 2] & unknown_thing\n"), "Dynamic[top]");
    assert_eq!(last_call_ty(b"[1, unknown_thing] & [1]\n"), "Dynamic[top]");
    assert_eq!(last_call_ty(b"[1, 2].intersection\n"), "Dynamic[top]");
    assert_eq!(last_call_ty(b"[1, 2].union([1], [2], [3], [4], [5], [6], [7], [8], [9])\n"), "Dynamic[top]");
}

#[test]
fn tuple_set_operations_dedup_and_order() {
    assert_eq!(last_call_ty(b"[2, 1, 2] | [3, 1]\n"), "Tuple[Constant[2], Constant[1], Constant[3]]");
    assert_eq!(last_call_ty(b"[1, 1, 2].intersection([1])\n"), "Tuple[Constant[1]]");
    assert_eq!(last_call_ty(b"[:a, \"a\"].difference([\"a\"])\n"), "Tuple[Constant[:a]]");
    assert_eq!(last_call_ty(b"[1, 2].deconstruct\n"), "Tuple[Constant[1], Constant[2]]");
    assert_eq!(last_call_ty(b"[1, 2, 3].count\n"), "Constant[3]");
    assert_eq!(last_call_ty(b"[].empty?\n"), "Constant[true]");
    assert_eq!(last_call_ty(b"[].last\n"), "nil");
}

#[test]
fn kernel_conversions_type_to_pinned_results() {
    let describe_last = |src: &[u8]| -> String {
        let ast = lower_src(src);
        let mut i = Interner::new();
        let env = build_toplevel_env(&ast, &mut i);
        let call_id = ast
            .nodes
            .iter()
            .rposition(|n| matches!(n, Node::Call { receiver: None, .. }))
            .unwrap();
        let ty = type_of(&ast, call_id, &env, &mut i);
        describe(&i, ty)
    };
    assert_eq!(describe_last(b"format(\"%05d\", 42)\n"), "Constant[\"00042\"]");
    assert_eq!(describe_last(b"sprintf(\"%s-%s\", :a, 1)\n"), "Constant[\"a-1\"]");
    assert_eq!(describe_last(b"String(42)\n"), "Constant[\"42\"]");
    assert_eq!(describe_last(b"Integer(\"0x1A\")\n"), "Constant[26]");
    assert_eq!(describe_last(b"Integer(\"11\", 2)\n"), "Constant[3]");
    assert_eq!(describe_last(b"Integer(\"abc\")\n"), "Integer");
    assert_eq!(describe_last(b"Hash(nil)\n"), "{}");
    assert_eq!(describe_last(b"Hash({a: 1})\n"), "{:a => Constant[1]}");
    assert_eq!(describe_last(b"Hash([])\n"), "{}");
    assert_eq!(describe_last(b"Hash([1])\n"), "Dynamic[top]");
    assert_eq!(describe_last(b"Array(nil)\n"), "Tuple[]");
    assert_eq!(describe_last(b"Array(5)\n"), "Tuple[Constant[5]]");
    assert_eq!(describe_last(b"Array([1])\n"), "Tuple[Constant[1]]");
    assert_eq!(describe_last(b"x = 5\nformat(\"%d\", x)\n"), "Constant[\"5\"]");
    assert_eq!(describe_last(b"def format(*a); end\nformat(\"%d\", 1)\n"), "Dynamic[top]");
    assert_eq!(describe_last(b"puts(1)\n"), "Dynamic[top]");
}

/// A conversion whose value does not fold still types as the class it
/// returns, for an arity it accepts; `rand` types by arity.
#[test]
fn kernel_conversions_fall_back_to_their_class() {
    let describe_last = |src: &[u8]| -> String {
        let ast = lower_src(src);
        let mut i = Interner::new();
        let env = build_toplevel_env(&ast, &mut i);
        let call_id = ast
            .nodes
            .iter()
            .rposition(|n| matches!(n, Node::Call { receiver: None, .. }))
            .unwrap();
        let ty = type_of(&ast, call_id, &env, &mut i);
        describe(&i, ty)
    };
    assert_eq!(describe_last(b"def f(x)\n  format(\"%d\", x)\nend\n"), "String");
    assert_eq!(describe_last(b"format(\"%d\", \"abc\")\n"), "String");
    assert_eq!(describe_last(b"a = [1]\nformat(*a)\n"), "String");
    assert_eq!(describe_last(b"a = [1]\np(*a)\n"), "Dynamic[top]");
    assert_eq!(describe_last(b"def f(x)\n  String(x)\nend\n"), "String");
    assert_eq!(describe_last(b"def f(x)\n  Float(x)\nend\n"), "Float");
    assert_eq!(describe_last(b"def f(x)\n  Integer(x, 16)\nend\n"), "Integer");
    assert_eq!(describe_last(b"Integer(\"1\", 2, 3)\n"), "Dynamic[top]");
    assert_eq!(describe_last(b"String()\n"), "Dynamic[top]");
    assert_eq!(describe_last(b"rand\n"), "Float");
    assert_eq!(describe_last(b"rand(5)\n"), "Integer");
    assert_eq!(describe_last(b"def f(c)\n  rand(c)\nend\n"), "Integer");
    assert_eq!(describe_last(b"rand(1..5)\n"), "Dynamic[top]");
    assert_eq!(describe_last(b"rand(1, 2)\n"), "Dynamic[top]");
}

#[test]
fn multi_write_binds_tuple_slots() {
    let ast = lower_src(b"a, b = [1, \"x\"]\nc, d = 5\n");
    let mut i = Interner::new();
    let env = build_toplevel_env(&ast, &mut i);
    assert_eq!(describe(&i, env.get("a").unwrap()), "Constant[1]");
    assert_eq!(describe(&i, env.get("b").unwrap()), "Constant[\"x\"]");
    assert_eq!(describe(&i, env.get("c").unwrap()), "Dynamic[top]");
    assert_eq!(describe(&i, env.get("d").unwrap()), "Dynamic[top]");
}

#[test]
fn toplevel_env_skips_nested_scopes() {
    let ast = lower_src(b"x = 1\ndef f\n  y = 2\nend\nif c\n  z = 3\nend\n");
    let mut i = Interner::new();
    let env = build_toplevel_env(&ast, &mut i);
    assert_eq!(describe(&i, env.get("x").unwrap()), "Constant[1]");
    assert!(env.get("y").is_none());
    assert!(env.get("z").is_none());
}

#[test]
fn truthy_snapshots_cover_nested_scopes_and_if_values() {
    let ast = lower_src(b"def f\n  y = nil\n  if y\n    1\n  end\nend\nv = if true then 1 else 2 end\n");
    let mut i = Interner::new();
    let snaps = always_truthy_snapshots(&ast, &Vec::new(), &mut i);
    let ifs: Vec<usize> = ast
        .nodes
        .iter()
        .enumerate()
        .filter_map(|(id, n)| matches!(n, Node::If { .. }).then_some(id))
        .collect();
    assert_eq!(ifs.len(), 2);
    assert_eq!(describe(&i, snaps[ifs[0]].unwrap()), "nil");
    assert_eq!(describe(&i, snaps[ifs[1]].unwrap()), "Constant[true]");
}

#[test]
fn if_expression_elides_known_branches() {
    let describe_if = |src: &[u8]| -> String {
        let ast = lower_src(src);
        let mut i = Interner::new();
        let env = TypeEnv::new();
        let if_id = ast.nodes.iter().position(|n| matches!(n, Node::If { .. })).unwrap();
        let ty = type_of(&ast, if_id, &env, &mut i);
        describe(&i, ty)
    };
    assert_eq!(describe_if(b"if true then 1 else 2 end\n"), "Constant[1]");
    assert_eq!(describe_if(b"if nil then 1 else 2 end\n"), "Constant[2]");
    assert_eq!(describe_if(b"unless nil then 1 else 2 end\n"), "Constant[1]");
    assert_eq!(describe_if(b"if [] then :a end\n"), "Constant[:a]");
    assert_eq!(describe_if(b"if false then :a end\n"), "nil");
    assert_eq!(describe_if(b"x = if 1 then {k: 2} end\n"), "{:k => Constant[2]}");
    // An undecided predicate gives the union of both branches.
    assert_eq!(describe_if(b"if c then 1 else 2 end\n"), "Constant[1] | Constant[2]");
}

#[test]
fn core_class_new_gives_the_bare_class() {
    assert_eq!(last_call_ty(b"Array.new\n"), "Array");
    assert_eq!(last_call_ty(b"String.new(\"x\")\n"), "String");
    assert_eq!(last_call_ty(b"::Array.new\n"), "Array");
    assert_eq!(last_call_ty(b"Array.new(3) { |i| i }\n"), "Array");
    assert_eq!(last_call_ty(b"Hash.new(0)\n"), "Hash");
    assert_eq!(last_call_ty(b"Set.new\n"), "Dynamic[top]");
}

#[test]
fn ternary_is_an_if_expression() {
    let ast = lower_src(b"v = true ? 1 : 2\nw = c ? 1 : (d ? 2 : 3)\n");
    let mut i = Interner::new();
    let env = build_toplevel_env(&ast, &mut i);
    assert_eq!(describe(&i, env.get("v").unwrap()), "Constant[1]");
    assert_eq!(describe(&i, env.get("w").unwrap()), "Constant[1] | Constant[2] | Constant[3]");
    let ifs = ast.nodes.iter().filter(|n| matches!(n, Node::If { .. })).count();
    assert_eq!(ifs, 3);
    let snaps = always_truthy_snapshots(&ast, &Vec::new(), &mut i);
    let first_if = ast.nodes.iter().position(|n| matches!(n, Node::If { .. })).unwrap();
    assert_eq!(describe(&i, snaps[first_if].unwrap()), "Constant[true]");
}

/// The class the values of `ty` belong to, where the type says: a constant's
/// class, `Array` for a tuple, `Hash` for a hash shape, a bare instance's
/// class.
fn class_name_of(i: &Interner, ty: usize) -> Option<&'static str> {
    match i.get(ty) {
        TyNode::Untyped => None,
        TyNode::Constant(Scalar::Int(_)) => Some("Integer"),
        TyNode::Constant(Scalar::Float(_)) => Some("Float"),
        TyNode::Constant(Scalar::Str(_)) => Some("String"),
        TyNode::Constant(Scalar::Sym(_)) => Some("Symbol"),
        TyNode::Constant(Scalar::Bool(true)) => Some("TrueClass"),
        TyNode::Constant(Scalar::Bool(false)) => Some("FalseClass"),
        TyNode::Constant(Scalar::Nil) => Some("NilClass"),
        TyNode::Tuple(_) => Some("Array"),
        TyNode::HashShape(_) => Some("Hash"),
        TyNode::Nominal(c) => Some(c.name()),
        TyNode::Union(_) => None,
    }
}

/// The type of the last receiver-bearing call, by class name where it has
/// one, else rendered.
fn ty_of_last_recv_call(src: &[u8]) -> String {
    let ast = lower_src(src);
    let mut i = Interner::new();
    let env = TypeEnv::new();
    let call_id = ast
        .nodes
        .iter()
        .rposition(|n| matches!(n, Node::Call { receiver: Some(_), .. }))
        .unwrap();
    let ty = type_of(&ast, call_id, &env, &mut i);
    class_name_of(&i, ty).map(str::to_string).unwrap_or_else(|| describe(&i, ty))
}

#[test]
fn block_call_on_unmodeled_or_dynamic_is_silent_dynamic() {
    let ast = lower_src(b"x.each { |e| e }\n");
    let mut i = Interner::new();
    let env = build_toplevel_env(&ast, &mut i);
    let call = find_call(&ast, "each");
    let ty = type_of(&ast, call, &env, &mut i);
    assert_eq!(ty, i.untyped(), "block call on Dynamic receiver must be Dynamic[top]");
}

#[test]
fn unknown_constant_new_is_dynamic() {
    let ast = lower_src(b"w = Widget.new\nw.foo\n");
    let mut i = Interner::new();
    let env = build_toplevel_env(&ast, &mut i);
    let w_ty = env.get("w").expect("w should be bound");
    assert_eq!(w_ty, i.untyped(), "unknown-constant .new must be Dynamic[top]");
}

#[test]
fn divergent_overloads_stay_dynamic() {
    assert_eq!(last_call_ty(b"r, w = IO.pipe\n"), "Dynamic[top]");
}

#[test]
fn s2a_divergent_overloads_and_block_form_decline() {
    assert_eq!(ty_of_last_recv_call(b"m = Regexp.last_match(2)\n"), "Dynamic[top]");
    assert_eq!(ty_of_last_recv_call(b"x = Dir.glob('*.rb') { |f| f }\n"), "Dynamic[top]");
}

#[test]
fn s2b_project_env_shadow_declines() {
    assert_eq!(ty_of_last_recv_call(b"ENV = Object.new\ndef f\n  x = ENV.keys\nend\n"), "Dynamic[top]");
    assert_eq!(ty_of_last_recv_call(b"module ENV\nend\ndef f\n  x = ENV.keys\nend\n"), "Dynamic[top]");
    assert_eq!(ty_of_last_recv_call(b"def f\n  x = ENV.frobnicate_zzz\nend\n"), "Dynamic[top]");
}

#[test]
fn s2e_ambiguous_qualified_path_declines() {
    let src = b"module B\n  module C\n    PR = { top: 1 }.freeze\n  end\nend\n\nmodule A\n  module B\n    module C\n      PR = { nested: 1 }.freeze\n    end\n  end\n\n  class Use\n    def f\n      x = B::C::PR.keys\n    end\n  end\nend\n";
    assert_eq!(ty_of_last_recv_call(src), "Dynamic[top]");
    assert_eq!(ty_of_last_recv_call(b"def f\n  x = ::No::Such::CONST_ZZZ.keys\nend\n"), "Dynamic[top]");
}

#[test]
fn s2e_cross_namespace_path_declines() {
    let src = b"module G\n  module Client\n    class Blob\n      ATTRS = { a: 1 }.freeze\n    end\n\n    class Stitcher\n      def f\n        x = G::Client::Blob::ATTRS.keys\n      end\n    end\n  end\nend\n";
    assert_eq!(ty_of_last_recv_call(src), "Dynamic[top]");
}

#[test]
fn s2b_nilable_object_constant_return_declines() {
    assert_eq!(ty_of_last_recv_call(b"def f\n  x = ENV['HOME']\nend\n"), "Dynamic[top]");
}

#[test]
fn typed_literals_pin_constants() {
    let ast = lower_src(b"nil\ntrue\nfalse\n:foo\n2.5\n");
    let mut i = Interner::new();
    let env = TypeEnv::new();
    let pick = |pred: fn(&Node) -> bool| ast.nodes.iter().position(pred).unwrap();
    let nil = pick(|n| matches!(n, Node::NilLit { .. }));
    let t = pick(|n| matches!(n, Node::TrueLit { .. }));
    let f = pick(|n| matches!(n, Node::FalseLit { .. }));
    let sym = pick(|n| matches!(n, Node::SymbolLit { .. }));
    let fl = pick(|n| matches!(n, Node::FloatLit { .. }));
    let mut ty_of = |id: usize| {
        let t = type_of(&ast, id, &env, &mut i);
        match i.get(t) {
            TyNode::Constant(s) => s.clone(),
            other => panic!("expected a Constant, got {other:?}"),
        }
    };
    assert_eq!(ty_of(nil), Scalar::Nil);
    assert_eq!(ty_of(t), Scalar::Bool(true));
    assert_eq!(ty_of(f), Scalar::Bool(false));
    assert_eq!(ty_of(sym), Scalar::Sym("foo".into()));
    assert_eq!(ty_of(fl), Scalar::Float(2.5f64.to_bits()));
}

#[test]
fn hash_shape_pins_widened_scalar_keys() {
    let ast = lower_src(b"{ 1 => 2, 1.5 => 3, true => 4, false => 5, nil => 6, :s => 7, \"k\" => 8 }\n");
    let mut i = Interner::new();
    let env = build_toplevel_env(&ast, &mut i);
    let ty = type_of(&ast, find_hash(&ast), &env, &mut i);
    let keys: Vec<Scalar> = members(i.get(ty)).iter().map(|m| m.0.clone()).collect();
    assert_eq!(
        keys,
        vec![
            Scalar::Int(1),
            Scalar::Float(1.5f64.to_bits()),
            Scalar::Bool(true),
            Scalar::Bool(false),
            Scalar::Nil,
            Scalar::Sym("s".into()),
            Scalar::Str("k".into()),
        ]
    );
}

#[test]
fn hash_float_keys_collide_by_value() {
    let ast = lower_src(b"{ 1.0 => :a, 1.00 => :b }\n");
    let mut i = Interner::new();
    let env = build_toplevel_env(&ast, &mut i);
    let ty = type_of(&ast, find_hash(&ast), &env, &mut i);
    let m = members(i.get(ty));
    assert_eq!(m.len(), 1);
    assert_eq!(m[0].0, Scalar::Float(1.0f64.to_bits()));
    assert!(matches!(i.get(m[0].1), TyNode::Constant(Scalar::Sym(s)) if s == "b"));
}

#[test]
fn hash_int_and_float_keys_are_distinct() {
    let ast = lower_src(b"{ 1 => :i, 1.0 => :f }\n");
    let mut i = Interner::new();
    let env = build_toplevel_env(&ast, &mut i);
    let ty = type_of(&ast, find_hash(&ast), &env, &mut i);
    let m = members(i.get(ty));
    assert_eq!(m.len(), 2);
    assert_eq!(m[0].0, Scalar::Int(1));
    assert_eq!(m[1].0, Scalar::Float(1.0f64.to_bits()));
}

#[test]
fn tuple_set_operations_use_eql_not_equality() {
    assert_eq!(last_call_ty(b"[1] & [1.0]\n"), "Tuple[]");
    assert_eq!(last_call_ty(b"[1] | [1.0]\n"), "Tuple[Constant[1], Constant[1]]");
}

/// Float literals type to the binary64 nearest their decimal value.
#[test]
fn float_literals_round_to_nearest() {
    for text in ["0.1", "2.5", "1e5", "1.5e-3", "3.141592653589793", "0.30000000000000004", "1_000.25", "6.02e23", "9007199254740993.0", "1e-19", "123456789012345678.9"] {
        let src = format!("{text}\n");
        let ast = lower_src(src.as_bytes());
        let mut i = Interner::new();
        let env = TypeEnv::new();
        let id = ast.nodes.iter().position(|n| matches!(n, Node::FloatLit { .. }));
        let expected: f64 = text.replace('_', "").parse().unwrap();
        match id {
            Some(id) => {
                let t = type_of(&ast, id, &env, &mut i);
                assert!(matches!(i.get(t), TyNode::Constant(Scalar::Float(b)) if *b == expected.to_bits()), "{text}");
            }
            None => panic!("{text} is not a float literal"),
        }
    }
    // Past the exact range the literal is left untyped.
    let ast = lower_src(b"1e400\n");
    assert!(!ast.nodes.iter().any(|n| matches!(n, Node::FloatLit { .. })));
}

fn describe_first(src: &[u8], is_target: fn(&Node) -> bool) -> String {
    let ast = lower_src(src);
    let mut i = Interner::new();
    let env = TypeEnv::new();
    let id = ast.nodes.iter().position(is_target).unwrap();
    let ty = type_of(&ast, id, &env, &mut i);
    describe(&i, ty)
}

#[test]
fn if_expression_unions_and_elides_branches() {
    let describe = |src: &[u8]| describe_first(src, |n| matches!(n, Node::If { .. }));
    // Unknown predicate → union of both branches (a missing else ⇒ nil).
    assert_eq!(describe(b"if c then 1 else 2 end\n"), "Constant[1] | Constant[2]");
    assert_eq!(describe(b"if c then 1 end\n"), "Constant[1] | nil");
    // Truthy constant predicate → then branch only (elided).
    assert_eq!(describe(b"if true then 1 else 2 end\n"), "Constant[1]");
    // Falsey predicate → else branch only.
    assert_eq!(describe(b"if nil then 1 else 2 end\n"), "Constant[2]");
}

#[test]
fn case_expression_unions_branch_values() {
    let describe = |src: &[u8]| describe_first(src, |n| matches!(n, Node::Case { .. }));
    assert_eq!(
        describe(b"case x\nwhen 1 then 10\nwhen 2 then 20\nelse 30\nend\n"),
        "Constant[10] | Constant[20] | Constant[30]"
    );
    // No else → nil joins the union (a non-exhaustive case returns nil).
    assert_eq!(describe(b"case x\nwhen 1 then 10\nend\n"), "Constant[10] | nil");
}

#[test]
fn join_flattens_dedups_and_absorbs() {
    let describe = |src: &[u8]| describe_first(src, |n| matches!(n, Node::Case { .. }));
    // A repeated branch value appears once; unions of unions flatten.
    assert_eq!(describe(b"case x\nwhen 1 then 10\nwhen 2 then 10\nelse 20\nend\n"), "Constant[10] | Constant[20]");
    assert_eq!(
        describe(b"case x\nwhen 1 then (if c then 1 else 2 end)\nelse 3\nend\n"),
        "Constant[1] | Constant[2] | Constant[3]"
    );
    // An unknown branch makes the whole value unknown.
    assert_eq!(describe(b"case x\nwhen 1 then foo\nelse 3\nend\n"), "Dynamic[top]");
    // Every branch the same: no union at all.
    assert_eq!(describe(b"case x\nwhen 1 then 7\nelse 7\nend\n"), "Constant[7]");
}

#[test]
fn type_call_routes_sidecar_foldable_to_folder() {
    let ast = lower_src(b"255.to_s(16)\n");
    let call_id = ast.nodes.iter().position(|n| matches!(n, Node::Call { .. })).expect("a call node");
    let mut table = TableFolder::new();
    table.add(Scalar::Int(255), "to_s", vec![Scalar::Int(16)], Scalar::Str("ff".into()));
    // With a folder: the declined-by-Rust base-arg `to_s` folds to the
    // folder's result.
    let mut i = Interner::new();
    let env = build_toplevel_env(&ast, &mut i);
    let ty = type_of_with_folder(&ast, call_id, &env, Some(&table), &mut i);
    assert!(matches!(i.get(ty), TyNode::Constant(Scalar::Str(s)) if s == "ff"));
    // Without a folder: no constant.
    let ty2 = type_of(&ast, call_id, &env, &mut i);
    assert!(!matches!(i.get(ty2), TyNode::Constant(_)), "no folder means no constant");
    // The folded constant flows into the next call, which the core folds.
    let ast = lower_src(b"255.to_s(16).length\n");
    let last = ast.nodes.iter().rposition(|n| matches!(n, Node::Call { .. })).unwrap();
    let ty3 = type_of_with_folder(&ast, last, &env, Some(&table), &mut i);
    assert!(matches!(i.get(ty3), TyNode::Constant(Scalar::Int(2))));
}
