use rigor_infer::folding::{
    fold, fold_int, fold_with_folder, is_foldable, scalar_class, sidecar_blows_up, sidecar_foldable, NoFolder, RubyFolder,
    TableFolder,
};
use rigor_infer::lookup::{fold_str_lookup, LookupFold};
use rigor_infer::scalar::Scalar;

#[test]
fn folds_integer_arithmetic() {
    assert_eq!(fold(&Scalar::Int(1), "+", &[Scalar::Int(2)]), Some(Scalar::Int(3)));
    assert_eq!(fold(&Scalar::Int(7), "%", &[Scalar::Int(3)]), Some(Scalar::Int(1)));
    // Ruby `%` sign-of-divisor: -7 % 3 == 2.
    assert_eq!(fold(&Scalar::Int(-7), "%", &[Scalar::Int(3)]), Some(Scalar::Int(2)));
    // Floor division: -7 / 2 == -4.
    assert_eq!(fold(&Scalar::Int(-7), "/", &[Scalar::Int(2)]), Some(Scalar::Int(-4)));
    assert_eq!(fold(&Scalar::Int(2), "**", &[Scalar::Int(10)]), Some(Scalar::Int(1024)));
    assert_eq!(fold(&Scalar::Int(-5), "abs", &[]), Some(Scalar::Int(5)));
    assert_eq!(fold(&Scalar::Int(4), "even?", &[]), Some(Scalar::Bool(true)));
    assert_eq!(fold(&Scalar::Int(3), "to_s", &[]), Some(Scalar::Str("3".into())));
}

#[test]
fn declines_unsound_integer_cases() {
    // Divide by zero, negative exponent, and overflow all decline.
    assert_eq!(fold(&Scalar::Int(1), "/", &[Scalar::Int(0)]), None);
    assert_eq!(fold(&Scalar::Int(2), "**", &[Scalar::Int(-1)]), None);
    assert_eq!(fold(&Scalar::Int(i64::MAX), "+", &[Scalar::Int(1)]), None);
    // Mixed-type argument declines (caller only pins same-kind scalars).
    assert_eq!(fold(&Scalar::Int(1), "+", &[Scalar::Str("x".into())]), None);
}

#[test]
fn folds_string_ascii_ops() {
    assert_eq!(fold(&Scalar::Str("hi".into()), "upcase", &[]), Some(Scalar::Str("HI".into())));
    assert_eq!(fold(&Scalar::Str("HELLO".into()), "downcase", &[]), Some(Scalar::Str("hello".into())));
    assert_eq!(fold(&Scalar::Str("hello".into()), "length", &[]), Some(Scalar::Int(5)));
    assert_eq!(fold(&Scalar::Str("ab".into()), "+", &[Scalar::Str("cd".into())]), Some(Scalar::Str("abcd".into())));
    assert_eq!(fold(&Scalar::Str("ab".into()), "*", &[Scalar::Int(3)]), Some(Scalar::Str("ababab".into())));
    assert_eq!(fold(&Scalar::Str("".into()), "empty?", &[]), Some(Scalar::Bool(true)));
}

#[test]
fn declines_non_ascii_case_ops() {
    // upcase on multibyte declines (locale-sensitive -> sidecar), but
    // length still folds (codepoint count is exact).
    assert_eq!(fold(&Scalar::Str("café".into()), "upcase", &[]), None);
    assert_eq!(fold(&Scalar::Str("café".into()), "length", &[]), Some(Scalar::Int(4)));
}

#[test]
fn folds_bool_nil_symbol_logic() {
    assert_eq!(fold(&Scalar::Bool(true), "!", &[]), Some(Scalar::Bool(false)));
    assert_eq!(fold(&Scalar::Bool(true), "&", &[Scalar::Nil]), Some(Scalar::Bool(false)));
    assert_eq!(fold(&Scalar::Nil, "!", &[]), Some(Scalar::Bool(true)));
    assert_eq!(fold(&Scalar::Sym("foo".into()), "to_s", &[]), Some(Scalar::Str("foo".into())));
    assert_eq!(
        fold(&Scalar::Sym("a".into()), "==", &[Scalar::Sym("a".into())]),
        Some(Scalar::Bool(true))
    );
}

/// Every expectation is plain Ruby's answer.
#[test]
fn folds_string_lookups() {
    let s = |v: &str| Scalar::Str(v.into());
    let abc = s("abc");
    let i = Scalar::Int;
    let cases: &[(&str, Vec<Scalar>, Scalar)] = &[
        ("[]", vec![i(0)], s("a")),
        ("[]", vec![i(-1)], s("c")),
        ("[]", vec![i(3)], Scalar::Nil),
        ("[]", vec![i(99)], Scalar::Nil),
        ("[]", vec![i(-4)], Scalar::Nil),
        ("[]", vec![i(1), i(2)], s("bc")),
        ("[]", vec![i(3), i(1)], s("")),
        ("[]", vec![i(4), i(1)], Scalar::Nil),
        ("[]", vec![i(-2), i(5)], s("bc")),
        ("[]", vec![i(-4), i(1)], Scalar::Nil),
        ("[]", vec![i(1), i(-1)], Scalar::Nil),
        ("[]", vec![s("b")], s("b")),
        ("[]", vec![s("z")], Scalar::Nil),
        ("slice", vec![i(0)], s("a")),
        ("slice", vec![i(1), i(1)], s("b")),
        ("slice", vec![s("bc")], s("bc")),
        ("byteslice", vec![i(0)], s("a")),
        ("byteslice", vec![i(-1)], s("c")),
        ("byteslice", vec![i(5)], Scalar::Nil),
        ("byteslice", vec![i(1), i(2)], s("bc")),
        ("index", vec![s("b")], i(1)),
        ("index", vec![s("z")], Scalar::Nil),
        ("index", vec![s("b"), i(1)], i(1)),
        ("index", vec![s("b"), i(2)], Scalar::Nil),
        ("index", vec![s(""), i(3)], i(3)),
        ("index", vec![s(""), i(4)], Scalar::Nil),
        ("index", vec![s("c"), i(-1)], i(2)),
        ("index", vec![s("a"), i(-9)], Scalar::Nil),
    ];
    for (method, args, want) in cases {
        assert_eq!(fold(&abc, method, args).as_ref(), Some(want), "{method}{args:?}");
    }
    assert_eq!(fold(&s(""), "index", &[s("")]), Some(i(0)));
}

/// The nilable lookups. Every expectation is plain Ruby's answer; a hit
/// answers the constant, a miss answers `nil`.
#[test]
fn folds_nilable_string_lookups() {
    let s = |v: &str| Scalar::Str(v.into());
    let i = Scalar::Int;
    let abc = s("abc");
    let cases: &[(&str, Vec<Scalar>, Scalar)] = &[
        ("getbyte", vec![i(0)], i(97)),
        ("getbyte", vec![i(-1)], i(99)),
        ("getbyte", vec![i(2)], i(99)),
        ("getbyte", vec![i(3)], Scalar::Nil),
        ("getbyte", vec![i(9)], Scalar::Nil),
        ("getbyte", vec![i(-4)], Scalar::Nil),
        ("getbyte", vec![Scalar::Float(1.5f64.to_bits())], i(98)), // Float truncates
        ("getbyte", vec![Scalar::Float(9.9f64.to_bits())], Scalar::Nil),
        ("rindex", vec![s("b")], i(1)),
        ("rindex", vec![s("z")], Scalar::Nil),
        ("rindex", vec![s("")], i(3)),
        ("rindex", vec![s("b"), i(0)], Scalar::Nil),
        ("rindex", vec![s("b"), i(-1)], i(1)),
        ("rindex", vec![s("a"), i(0)], i(0)),
        ("rindex", vec![s("ca"), i(2)], Scalar::Nil),
        ("byteindex", vec![s("b")], i(1)),
        ("byteindex", vec![s("z")], Scalar::Nil),
        ("byteindex", vec![s("b"), i(2)], Scalar::Nil),
        ("byteindex", vec![s("c"), i(-1)], i(2)),
        ("byterindex", vec![s("b")], i(1)),
        ("byterindex", vec![s("z")], Scalar::Nil),
        ("byterindex", vec![s("b"), i(-2)], i(1)),
        ("byterindex", vec![s("c"), i(4)], i(2)), // offset past end searches all
    ];
    for (method, args, want) in cases {
        assert_eq!(fold(&abc, method, args).as_ref(), Some(want), "{method}{args:?}");
    }
    // `"abcabc".rindex("ca", 2)` bounds the match's START, not its end.
    assert_eq!(fold(&s("abcabc"), "rindex", &[s("ca"), i(2)]), Some(i(2)));
    // Byte-domain lookups answer BYTE offsets on multibyte receivers.
    let hel = s("héllo");
    assert_eq!(fold(&hel, "index", &[s("l")]), Some(i(2)));
    assert_eq!(fold(&hel, "byteindex", &[s("l")]), Some(i(3)));
    assert_eq!(fold(&hel, "rindex", &[s("l")]), Some(i(3)));
    assert_eq!(fold(&hel, "byterindex", &[s("l")]), Some(i(4)));
    assert_eq!(fold(&hel, "getbyte", &[i(2)]), Some(i(0xa9)));
    assert_eq!(fold(&hel, "[]", &[i(1)]), Some(s("é")));
    assert_eq!(fold(&abc, "index", &[s("é")]), Some(Scalar::Nil));
    assert_eq!(fold(&abc, "index", &[s("b"), Scalar::Float(1.5f64.to_bits())]), Some(i(1)));
}

/// A pinned argument list Ruby raises on is [`LookupFold::Raises`]; the
/// dispatch site declines to `Dynamic`, and `fold` surfaces `None`.
#[test]
fn string_lookups_raise_on_ill_typed_pins() {
    let s = |v: &str| Scalar::Str(v.into());
    let abc = s("abc");
    let cases: &[(&str, Vec<Scalar>)] = &[
        ("byteslice", vec![s("a")]),
        ("[]", vec![Scalar::Nil]),
        ("[]", vec![Scalar::Sym("b".into())]),
        ("[]", vec![Scalar::Bool(true)]),
        ("index", vec![Scalar::Int(1)]),
        ("index", vec![s("b"), s("x")]),
        ("index", vec![]),
        ("index", vec![s("b"), Scalar::Int(0), Scalar::Int(1)]),
        ("rindex", vec![Scalar::Int(1)]),
        ("rindex", vec![s("b"), Scalar::Nil]),
        ("getbyte", vec![s("x")]),
        ("getbyte", vec![Scalar::Nil]),
        ("getbyte", vec![Scalar::Float(f64::NAN.to_bits())]),
        ("getbyte", vec![Scalar::Float(1e19f64.to_bits())]), // out of long range
        ("getbyte", vec![Scalar::Int(0), Scalar::Int(1)]),
    ];
    for (method, args) in cases {
        match fold_str_lookup("abc", method, args) {
            LookupFold::Raises => {}
            other => panic!("{method}{args:?}: expected Raises, got {other:?}"),
        }
        assert_eq!(fold(&abc, method, args), None);
    }
    // A `byteslice` that lands inside a multibyte character is
    // `LookupFold::Decline` — the byte string cannot ride `Scalar::Str`.
    match fold_str_lookup("héllo", "byteslice", &[Scalar::Int(2)]) {
        LookupFold::Decline => {}
        other => panic!("expected Decline, got {other:?}"),
    }
}

/// `<=>` folds: `-1`/`0`/`1` against a same-domain argument,
/// `nil` against NaN or a non-comparable one.
#[test]
fn folds_nilable_cmp() {
    let i = Scalar::Int;
    assert_eq!(fold(&Scalar::Float(1.0f64.to_bits()), "<=>", &[i(2)]), Some(i(-1)));
    assert_eq!(fold(&Scalar::Float(1.0f64.to_bits()), "<=>", &[i(1)]), Some(i(0)));
    assert_eq!(fold(&Scalar::Float(2.0f64.to_bits()), "<=>", &[i(1)]), Some(i(1)));
    assert_eq!(fold(&Scalar::Float(1.0f64.to_bits()), "<=>", &[Scalar::Str("x".into())]), Some(Scalar::Nil));
    assert_eq!(fold(&Scalar::Float(1.0f64.to_bits()), "<=>", &[Scalar::Float(f64::NAN.to_bits())]), Some(Scalar::Nil));
    assert_eq!(fold(&i(1), "<=>", &[i(2)]), Some(i(-1)));
    assert_eq!(fold(&i(1), "<=>", &[Scalar::Str("x".into())]), Some(Scalar::Nil));
    assert_eq!(fold(&i(1), "<=>", &[Scalar::Float(f64::NAN.to_bits())]), Some(Scalar::Nil));
    // `rb_int_cmp` is exact across the f64 boundary, not a plain cast.
    assert_eq!(
        fold(&i(9_007_199_254_740_993), "<=>", &[Scalar::Float(9_007_199_254_740_992.0f64.to_bits())]),
        Some(i(1))
    );
    let a = Scalar::Str("a".into());
    assert_eq!(fold(&a, "<=>", &[Scalar::Str("b".into())]), Some(i(-1)));
    assert_eq!(fold(&a, "<=>", &[i(1)]), Some(Scalar::Nil));
    let sym = Scalar::Sym("a".into());
    assert_eq!(fold(&sym, "<=>", &[Scalar::Sym("b".into())]), Some(i(-1)));
    assert_eq!(fold(&sym, "<=>", &[Scalar::Str("a".into())]), Some(Scalar::Nil));
}

#[test]
fn unknown_method_declines() {
    assert_eq!(fold(&Scalar::Int(1), "sample", &[]), None);
    assert_eq!(fold(&Scalar::Str("x".into()), "lenght", &[]), None);
}

#[test]
fn is_foldable_mirrors_fold() {
    assert!(is_foldable("Integer", "+"));
    assert!(is_foldable("String", "upcase"));
    assert!(!is_foldable("Array", "sample"));
    assert!(!is_foldable("String", "gsub")); // sidecar territory
}

#[test]
fn sidecar_foldable_is_reference_verified_subset() {
    // Every entry folds exactly as real Ruby computes it.
    assert!(sidecar_foldable("Integer", "to_s"));
    assert!(sidecar_foldable("Integer", "gcd"));
    assert!(sidecar_foldable("Float", "round"));
    assert!(sidecar_foldable("String", "%"));
    assert!(sidecar_foldable("String", "center"));
    assert!(sidecar_foldable("String", "rjust"));
    // Non-deterministic / unverified stay OUT (never route what could diverge).
    assert!(!sidecar_foldable("Array", "sample"));
    assert!(!sidecar_foldable("Integer", "+")); // Rust core owns it
    assert!(!sidecar_foldable("String", "gsub")); // unverified — not routed
}

#[test]
fn sidecar_declines_a_pad_past_the_byte_limit() {
    assert!(!sidecar_blows_up("center", &[Scalar::Int(4096)]));
    assert!(sidecar_blows_up("center", &[Scalar::Int(4097)]));
    assert!(sidecar_blows_up("ljust", &[Scalar::Int(3_000_000_000), Scalar::Str("-".into())]));
    assert!(!sidecar_blows_up("tr", &[Scalar::Int(9999)]));
}

#[test]
fn scalar_class_maps_carriers() {
    assert_eq!(scalar_class(&Scalar::Int(1)), "Integer");
    assert_eq!(scalar_class(&Scalar::Float(1.0f64.to_bits())), "Float");
    assert_eq!(scalar_class(&Scalar::Str("x".into())), "String");
    assert_eq!(scalar_class(&Scalar::Bool(true)), "TrueClass");
    assert_eq!(scalar_class(&Scalar::Nil), "NilClass");
}

#[test]
fn remainder_by_minus_one_is_zero() {
    assert_eq!(fold(&Scalar::Int(i64::MIN), "%", &[Scalar::Int(-1)]), Some(Scalar::Int(0)));
    assert_eq!(fold(&Scalar::Int(7), "%", &[Scalar::Int(-1)]), Some(Scalar::Int(0)));
    // The quotient leaves the i64 range: declined.
    assert_eq!(fold(&Scalar::Int(i64::MIN), "/", &[Scalar::Int(-1)]), None);
}

#[test]
fn one_index_byteslice_at_the_end_is_nil() {
    let s = |x: &str| Scalar::Str(x.to_string());
    assert_eq!(fold(&s("abc"), "byteslice", &[Scalar::Int(3)]), Some(Scalar::Nil));
    assert_eq!(fold(&s("abc"), "byteslice", &[Scalar::Int(-4)]), Some(Scalar::Nil));
    assert_eq!(fold(&s("abc"), "byteslice", &[Scalar::Int(2)]), Some(s("c")));
    // The two-index form at the end answers the empty string.
    assert_eq!(fold(&s("abc"), "byteslice", &[Scalar::Int(3), Scalar::Int(1)]), Some(s("")));
    assert!(matches!(fold_str_lookup("abc", "byteslice", &[Scalar::Int(3)]), LookupFold::Value(Scalar::Nil)));
}

#[test]
fn declined_routable_fold_goes_to_the_folder() {
    let mut table = TableFolder::new();
    table.add(Scalar::Int(255), "to_s", vec![Scalar::Int(16)], Scalar::Str("ff".into()));
    table.add(Scalar::Int(1), "+", vec![Scalar::Int(2)], Scalar::Int(99));
    table.add(Scalar::Int(1), "frobnicate", vec![], Scalar::Int(7));
    // The core declines the radix `to_s`; the folder answers it.
    assert_eq!(
        fold_with_folder(Some(&table), &Scalar::Int(255), "to_s", &[Scalar::Int(16)]),
        Some(Scalar::Str("ff".into()))
    );
    // The folder is asked about the call's own arguments.
    assert_eq!(fold_with_folder(Some(&table), &Scalar::Int(255), "to_s", &[Scalar::Int(2)]), None);
    // Without a folder it stays declined.
    assert_eq!(fold_with_folder::<TableFolder>(None, &Scalar::Int(255), "to_s", &[Scalar::Int(16)]), None);
    // A call the core folds never reaches the folder.
    assert_eq!(fold_with_folder(Some(&table), &Scalar::Int(1), "+", &[Scalar::Int(2)]), Some(Scalar::Int(3)));
    // A call that is not safe to route is never sent.
    assert_eq!(fold_with_folder(Some(&table), &Scalar::Int(1), "frobnicate", &[]), None);
    // The table answers directly, first entry first.
    assert_eq!(table.fold(&Scalar::Int(1), "frobnicate", &[]), Some(Scalar::Int(7)));
    assert_eq!(NoFolder.fold(&Scalar::Int(1), "frobnicate", &[]), None);
}

#[test]
fn integer_division_and_modulo_pair() {
    for a in [-7i64, 7, 0, i64::MIN, i64::MAX, -1] {
        for b in [2i64, -2, 3, -3, 1, -1, i64::MAX, i64::MIN] {
            if a == i64::MIN && b == -1 {
                assert_eq!(fold_int(a, "/", &[Scalar::Int(b)]), None);
                assert_eq!(fold_int(a, "%", &[Scalar::Int(b)]), Some(Scalar::Int(0)));
                continue;
            }
            let q = match fold_int(a, "/", &[Scalar::Int(b)]) {
                Some(Scalar::Int(q)) => q,
                other => panic!("{a} / {b} gave {other:?}"),
            };
            let r = match fold_int(a, "%", &[Scalar::Int(b)]) {
                Some(Scalar::Int(r)) => r,
                other => panic!("{a} % {b} gave {other:?}"),
            };
            assert_eq!(a as i128, q as i128 * b as i128 + r as i128);
            assert!((r as i128).abs() < (b as i128).abs());
            assert!(r == 0 || (r < 0) == (b < 0));
        }
    }
}
