use rigor_infer::folding::fold;
use rigor_infer::kernel::{parse_ruby_integer_str, ruby_integer, ruby_string_of, sprintf, to_radix};
use rigor_infer::lookup::{fold_str_lookup, LookupFold};
use rigor_infer::scalar::Scalar;
use rigor_infer::types::{Interner, TyNode};

fn s(x: &str) -> Scalar {
    Scalar::Str(x.to_string())
}

fn fl(x: f64) -> Scalar {
    Scalar::Float(x.to_bits())
}

#[test]
fn order_is_antisymmetric() {
    let vals = [
        Scalar::Int(1),
        Scalar::Int(-3),
        fl(1.0),
        fl(2.5),
        fl(f64::NAN),
        s("abc"),
        s("abd"),
        s(""),
        Scalar::Sym("a".into()),
        Scalar::Sym("b".into()),
    ];
    for x in &vals {
        for y in &vals {
            let v = fold(x, "<=>", std::slice::from_ref(y)).expect("orders fold");
            let w = fold(y, "<=>", std::slice::from_ref(x)).expect("orders fold");
            match (v, w) {
                (Scalar::Int(p), Scalar::Int(q)) => {
                    assert!((-1..=1).contains(&p));
                    assert_eq!(q, -p);
                }
                (Scalar::Nil, Scalar::Nil) => {}
                other => panic!("unmirrored orders {:?}", other),
            }
        }
    }
    assert_eq!(fold(&Scalar::Int(1), "<=>", &[fl(2.0)]), Some(Scalar::Int(-1)));
    assert_eq!(fold(&s("a"), "<=>", &[Scalar::Int(1)]), Some(Scalar::Nil));
}

#[test]
fn string_lookup_fold_agrees_with_the_lookup() {
    let cases: Vec<(&str, &str, Vec<Scalar>)> = vec![
        ("héllo", "[]", vec![Scalar::Int(1)]),
        ("héllo", "byteslice", vec![Scalar::Int(2)]),
        ("héllo", "byteslice", vec![Scalar::Int(1), Scalar::Int(2)]),
        ("abc", "index", vec![s("c")]),
        ("abc", "rindex", vec![s("z")]),
        ("abc", "getbyte", vec![Scalar::Int(0)]),
        ("abc", "slice", vec![s("x")]),
        ("abc", "[]", vec![Scalar::Nil]),
    ];
    for (a, m, args) in cases {
        let expected = match fold_str_lookup(a, m, &args) {
            LookupFold::Value(v) => Some(v),
            LookupFold::Raises | LookupFold::Decline => None,
        };
        assert_eq!(fold(&s(a), m, &args), expected, "{a}.{m}");
    }
}

#[test]
fn extra_argument_makes_format_decline() {
    assert_eq!(sprintf("%d-%s", &[Scalar::Int(1), s("a")]).as_deref(), Some("1-a"));
    assert_eq!(sprintf("%d-%s", &[Scalar::Int(1), s("a"), Scalar::Nil]), None);
    assert_eq!(sprintf("plain", &[]).as_deref(), Some("plain"));
    assert_eq!(sprintf("plain", &[Scalar::Int(0)]), None);
}

#[test]
fn integer_spelling_round_trips() {
    for n in [0i64, 7, -7, 10, 100, -1000, i64::MAX, i64::MIN] {
        let t = ruby_string_of(&Scalar::Int(n)).expect("integers spell");
        assert_eq!(ruby_integer(&Scalar::Str(t.clone()), None), Some(n));
        assert_eq!(ruby_integer(&Scalar::Str(n.to_string()), Some(10)), Some(n));
        assert_eq!(parse_ruby_integer_str(&t, None), Some(n));
    }
}

#[test]
fn radix_spelling_round_trips() {
    for v in [0i64, 1, 8, 255, 4096, i64::MAX] {
        for r in [2u32, 8, 10, 16] {
            for upper in [false, true] {
                let t: String = to_radix(v as u128, r, upper).into_iter().collect();
                assert_eq!(parse_ruby_integer_str(&t, Some(r as i64)), Some(v), "{t} in base {r}");
            }
        }
    }
}

#[test]
fn join_of_branch_types() {
    let mut i = Interner::new();
    let one = i.intern(TyNode::Constant(Scalar::Int(1)));
    let two = i.intern(TyNode::Constant(Scalar::Int(2)));
    let nil = i.intern(TyNode::Constant(Scalar::Nil));
    assert_eq!(i.join(one, one), one);
    assert_eq!(i.join(one, 0), 0);
    let u = i.join(one, two);
    assert!(matches!(i.get(u), TyNode::Union(ms) if ms == &vec![one, two]));
    let v = i.join(u, nil);
    assert!(matches!(i.get(v), TyNode::Union(ms) if ms == &vec![one, two, nil]));
    // Joining again is idempotent and hash-consed.
    assert_eq!(i.join(v, one), v);
    assert_eq!(i.join(one, two), u);
}
