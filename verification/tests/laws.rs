use rigor_infer::decimal::decimal_to_binary64;
use rigor_infer::ast::Node;
use rigor_infer::env::{join_flow_envs, TypeEnv};
use rigor_infer::flow::{collect_flow_writes, widen_flow_writes};
use rigor_infer::kernel::{sprintf, strip_ci_prefix};
use rigor_infer::parser::parse;
use rigor_infer::scalar::Scalar;
use rigor_infer::shape::{set_apply_exec, SetOp};
use rigor_infer::types::{Interner, TyNode};

#[test]
fn join_keeps_only_agreeing_bindings() {
    let mut a = TypeEnv::new();
    a.insert("x", 5);
    a.insert("y", 6);
    a.insert("only_a", 7);
    let mut b = TypeEnv::new();
    b.insert("x", 5);
    b.insert("y", 9);
    let j = join_flow_envs(&a, &b, 0);
    assert_eq!(j.get("x"), Some(5));
    assert_eq!(j.get("y"), Some(0));
    assert_eq!(j.get("only_a"), Some(0));
    assert_eq!(j.get("absent"), None);
    // The join is symmetric and idempotent.
    let k = join_flow_envs(&b, &a, 0);
    for n in ["x", "y", "only_a", "absent"] {
        assert_eq!(j.get(n), k.get(n));
    }
    let s = join_flow_envs(&a, &a, 0);
    for n in ["x", "y", "only_a"] {
        assert_eq!(s.get(n), a.get(n));
    }
}

#[test]
fn widening_resets_only_locals_written_inside_the_span() {
    let ast = parse(b"x = 1\ny = 2\nif c\n  x = 3\nend\n").expect("parses");
    let writes = collect_flow_writes(&ast);
    let if_span = ast
        .nodes
        .iter()
        .find_map(|n| match n {
            Node::If { span, .. } => Some(*span),
            _ => None,
        })
        .unwrap();
    let mut env = TypeEnv::new();
    env.insert("x", 4);
    env.insert("y", 5);
    widen_flow_writes(&writes, if_span, &mut env);
    assert_eq!(env.get("x"), Some(0));
    assert_eq!(env.get("y"), Some(5));
}

#[test]
fn interning_is_hash_consing() {
    let mut i = Interner::new();
    let a = i.intern(TyNode::Constant(Scalar::Int(1)));
    let b = i.intern(TyNode::Constant(Scalar::Str("1".into())));
    let c = i.intern(TyNode::Constant(Scalar::Int(1)));
    assert_eq!(a, c);
    assert_ne!(a, b);
    let t1 = i.intern(TyNode::Tuple(vec![a, b]));
    let t2 = i.intern(TyNode::Tuple(vec![c, b]));
    assert_eq!(t1, t2);
    assert_eq!(i.len(), 9);
    assert_eq!(i.untyped(), 0);
}

#[test]
fn sprintf_result_never_exceeds_the_limit() {
    for w in [4090usize, 4095, 4096, 4097, 5000] {
        let t = format!("%{w}s");
        match sprintf(&t, &[Scalar::Str("x".into())]) {
            Some(o) => assert!(o.len() <= 4096),
            None => assert!(w > 4096),
        }
    }
    assert_eq!(sprintf("plain", &[Scalar::Int(1)]), None);
    assert_eq!(sprintf("plain", &[]).as_deref(), Some("plain"));
}

#[test]
fn set_operations_never_repeat() {
    let v = |xs: &[i64]| xs.iter().map(|&x| Scalar::Int(x)).collect::<Vec<_>>();
    assert_eq!(set_apply_exec(SetOp::Intersection, &v(&[1, 1, 2, 3]), &v(&[1, 3, 3])), v(&[1, 3]));
    assert_eq!(set_apply_exec(SetOp::Union, &v(&[3, 1, 3]), &v(&[2, 1])), v(&[3, 1, 2]));
    assert_eq!(set_apply_exec(SetOp::Difference, &v(&[1, 2, 1, 3]), &v(&[3])), v(&[1, 2, 1]));
    // Integer 1 and Float 1.0 are not `eql?`.
    let f = vec![Scalar::Float(1.0f64.to_bits())];
    assert_eq!(set_apply_exec(SetOp::Intersection, &v(&[1]), &f), vec![]);
}

#[test]
fn case_insensitive_radix_prefix() {
    assert_eq!(strip_ci_prefix("0X1f", "0x").as_deref(), Some("1f"));
    assert_eq!(strip_ci_prefix("0b101", "0x"), None);
    assert_eq!(strip_ci_prefix("0", "0x"), None);
    assert_eq!(strip_ci_prefix("0o", "0o").as_deref(), Some(""));
}

#[test]
fn truthy_records_sit_on_ifs_only() {
    let ast = parse(b"x = 1\nif x\n  y = x.succ\n  if y > 1 then 3 end\nend\nz = if x then 1 else 2 end\nwhile x\n  if x then 1 end\nend\n")
        .expect("parses");
    let mut i = Interner::new();
    let snaps = rigor_infer::truthy::always_truthy_snapshots(&ast, &Vec::new(), &mut i);
    assert_eq!(snaps.len(), ast.nodes.len());
    let mut recorded = 0;
    for (k, s) in snaps.iter().enumerate() {
        if s.is_some() {
            recorded += 1;
            assert!(matches!(ast.nodes[k], Node::If { .. }));
        }
    }
    // The two statement `if`s and the `if` on the right of `z =`; the `if`
    // inside the loop is not entered.
    assert_eq!(recorded, 3);
}

/// The decimal conversion agrees with the platform's correctly rounded
/// parse on every decimal it accepts, and accepts exactly the decimals with
/// a negative exponent down to -22 or a value below 2^128.
#[test]
fn decimal_conversion_is_correctly_rounded() {
    let mut seed: u64 = 0x9e3779b97f4a7c15;
    for _ in 0..40000 {
        seed ^= seed << 13;
        seed ^= seed >> 7;
        seed ^= seed << 17;
        let m = match seed % 4 {
            0 => seed >> 11,
            1 => seed >> 40,
            2 => seed % 1000,
            _ => seed,
        };
        let e = ((seed >> 3) % 61) as i32 - 22;
        let fits = e < 0 || (m as u128).checked_mul(10u128.pow(e as u32)).is_some();
        if fits {
            let expected: f64 = format!("{m}e{e}").parse().unwrap();
            assert_eq!(decimal_to_binary64(m, e), Some(expected.to_bits()), "{m}e{e}");
        } else {
            assert_eq!(decimal_to_binary64(m, e), None, "{m}e{e}");
        }
    }
    assert_eq!(decimal_to_binary64(5, 39), None);
    assert_eq!(decimal_to_binary64(5, -23), None);
    assert_eq!(decimal_to_binary64(u64::MAX, 38), None);
    assert_eq!(decimal_to_binary64(1, 38), Some(1e38f64.to_bits()));
    assert_eq!(decimal_to_binary64(0, 3), Some(0));
}
