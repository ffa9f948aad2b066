use rigor_infer::ast::{Ast, Node};
use rigor_infer::nilflow::nilable_receiver_snapshots;
use rigor_infer::parser::parse;
use rigor_infer::types::Interner;

/// The possible-nil snapshot vector for `src`, with no callee known to
/// mutate a parameter and the given certain nilable returns.
fn nil_snaps_with(src: &[u8], returns: &[(&str, &str, &str)]) -> (Ast, Vec<Option<String>>) {
    let ast = parse(src).expect("source parses");
    let mut i = Interner::new();
    let rets: Vec<(String, String, String)> =
        returns.iter().map(|(c, m, a)| (c.to_string(), m.to_string(), a.to_string())).collect();
    let snaps = nilable_receiver_snapshots(&ast, &Vec::new(), &rets, &mut i);
    (ast, snaps)
}

fn nil_snaps(src: &[u8]) -> (Ast, Vec<Option<String>>) {
    nil_snaps_with(src, &[])
}

/// The id of the first call named `method` whose receiver is a bare read of
/// the local `recv`.
fn local_call(ast: &Ast, recv: &str, method: &str) -> Option<usize> {
    ast.nodes.iter().position(|n| match n {
        Node::Call { receiver: Some(r), method: m, .. } if m == method => {
            matches!(&ast.nodes[*r], Node::LocalVariableRead { name, .. } if name == recv)
        }
        _ => false,
    })
}

/// The class recorded at the first `recv.method` call.
fn last_match_use_arm(src: &[u8], recv: &str, method: &str) -> Option<String> {
    let (ast, snaps) = nil_snaps(src);
    let id = local_call(&ast, recv, method)?;
    snaps[id].clone()
}

fn no_snapshot(snaps: &[Option<String>]) -> bool {
    snaps.iter().all(|s| s.is_none())
}

/// A nilable String slice bound in a nested block, with its receiver typed
/// by a `String.new` in an outer block, is recorded at the same-block use.
#[test]
fn nil_snapshot_fires_on_block_scope_string_slice() {
    let (ast, snaps) = nil_snaps(
        b"outer do\n  s = String.new(\"hello\")\n  inner do\n    sub = s[0..2]\n    n = sub.size\n  end\nend\n",
    );
    let use_id = local_call(&ast, "sub", "size").expect("sub.size call present");
    assert_eq!(snaps[use_id].as_deref(), Some("String"));
}

/// An `Array.new(n > 16)` slice is a source.
#[test]
fn nil_snapshot_array_new_large_slice_fires() {
    let (ast, snaps) = nil_snaps(b"arr = Array.new(300000) { |i| i }\nsub = arr[0..5]\nn = sub.size\n");
    let use_id = local_call(&ast, "sub", "size").expect("sub.size call present");
    assert_eq!(snaps[use_id].as_deref(), Some("Array"));
}

/// A small `Array.new(n <= 16)`, an array literal and a `.map` result are
/// not of `Array.new` provenance, so their slices are not sources.
#[test]
fn nil_snapshot_small_array_new_and_literal_slices_decline() {
    for src in [
        b"arr = Array.new(10) { |i| i }\nsub = arr[0..5]\nn = sub.size\n".as_slice(),
        b"arr = [1, 2, 3]\nsub = arr[0..1]\nn = sub.size\n".as_slice(),
        b"arr = [1, 2, 3].map { |x| x }\nsub = arr[0..1]\nn = sub.size\n".as_slice(),
    ] {
        let (_, snaps) = nil_snaps(src);
        assert!(
            no_snapshot(&snaps),
            "small/literal/.map array slice must not mint a nilable fact: {:?}",
            std::str::from_utf8(src).unwrap()
        );
    }
}

/// A guard (`if`) between the slice source and the use clears the fact.
#[test]
fn nil_snapshot_declines_on_guard_between_source_and_use() {
    let (ast, snaps) = nil_snaps(b"s = String.new(\"abc\")\nsub = s[0..1]\nif sub\n  noop\nend\nn = sub.size\n");
    let use_id = local_call(&ast, "sub", "size").expect("sub.size call present");
    assert_eq!(snaps[use_id], None, "an intervening guard must decline");
}

/// `Regexp.last_match(n)` is a `String` source, with or without a leading
/// `::`.
#[test]
fn p2_regexp_last_match_int_arg_is_string_source() {
    for src in [
        b"content = ::Regexp.last_match(2)\nnew = content.gsub(\"a\", \"b\")\n".as_slice(),
        b"content = Regexp.last_match(1)\nnew = content.gsub(\"a\", \"b\")\n".as_slice(),
    ] {
        assert_eq!(
            last_match_use_arm(src, "content", "gsub").as_deref(),
            Some("String"),
            "Regexp.last_match(int) must mint a String|nil source: {:?}",
            std::str::from_utf8(src).unwrap()
        );
    }
}

/// `Regexp.last_match(name)` is a `String` source for a symbol or string.
#[test]
fn p2_regexp_last_match_name_arg_is_string_source() {
    for src in [b"c = Regexp.last_match(:key)\nn = c.upcase\n".as_slice(), b"c = Regexp.last_match(\"key\")\nn = c.upcase\n".as_slice()] {
        assert_eq!(last_match_use_arm(src, "c", "upcase").as_deref(), Some("String"));
    }
}

/// `Regexp.last_match` with no argument is a `MatchData` source.
#[test]
fn p2_regexp_last_match_zero_arg_is_matchdata_source() {
    let src = b"m = Regexp.last_match\nfull = m[0]\nb = m.begin(0)\n";
    assert_eq!(last_match_use_arm(src, "m", "[]").as_deref(), Some("MatchData"));
    assert_eq!(last_match_use_arm(src, "m", "begin").as_deref(), Some("MatchData"));
}

/// Any single plain argument gives a `String` source.
#[test]
fn p2_regexp_last_match_non_literal_arg_is_string_source() {
    assert_eq!(
        last_match_use_arm(b"i = 2\nc = Regexp.last_match(i)\nn = c.gsub(\"a\", \"b\")\n", "c", "gsub").as_deref(),
        Some("String")
    );
}

/// A splat or several arguments, another constant, a guard between bind
/// and use, and a safe-navigation use all record nothing.
#[test]
fn p2_regexp_last_match_declines() {
    assert_eq!(last_match_use_arm(b"a = [1]\nc = Regexp.last_match(*a)\nn = c.gsub(\"a\", \"b\")\n", "c", "gsub"), None);
    assert_eq!(last_match_use_arm(b"c = Regexp.last_match(1, 2)\nn = c.gsub(\"a\", \"b\")\n", "c", "gsub"), None);
    assert_eq!(last_match_use_arm(b"c = Foo.last_match(2)\nn = c.gsub(\"a\", \"b\")\n", "c", "gsub"), None);
    assert_eq!(
        last_match_use_arm(b"c = Regexp.last_match(2)\nif c\n  noop\nend\nn = c.gsub(\"a\", \"b\")\n", "c", "gsub"),
        None
    );
    assert_eq!(last_match_use_arm(b"c = Regexp.last_match(2)\nn = c&.gsub(\"a\", \"b\")\n", "c", "gsub"), None);
}

/// A same-named block parameter does not inherit an outer nilable fact.
#[test]
fn nil_snapshot_block_param_shadow_does_not_leak() {
    let (_, snaps) = nil_snaps(b"sub = String.new(\"x\")[0..2]\n[1, 2].each do |sub|\n  n = sub.size\nend\n");
    assert!(no_snapshot(&snaps), "an outer fact must not leak past a same-named block param");
}

// --- Own cases -------------------------------------------------------------

/// A certain nilable return listed for the receiver's class is a source;
/// the same method on a pinned literal receiver is not (the literal folds).
#[test]
fn listed_nilable_return_is_a_source() {
    let rets = [("String", "byteslice", "String")];
    let (ast, snaps) = nil_snaps_with(b"s = String.new(\"abc\")\nb = s.byteslice(0)\nn = b.size\n", &rets);
    assert_eq!(snaps[local_call(&ast, "b", "size").unwrap()].as_deref(), Some("String"));
    let (_, snaps) = nil_snaps_with(b"b = \"abc\".byteslice(0)\nn = b.size\n", &rets);
    assert!(no_snapshot(&snaps));
    let (_, snaps) = nil_snaps(b"s = String.new(\"abc\")\nb = s.byteslice(0)\nn = b.size\n");
    assert!(no_snapshot(&snaps));
    // An array literal is an `Array` receiver too.
    let (ast, snaps) = nil_snaps_with(b"a = [1, 2]\nb = a.sample\nn = b.succ\n", &[("Array", "sample", "Integer")]);
    assert_eq!(snaps[local_call(&ast, "b", "succ").unwrap()].as_deref(), Some("Integer"));
}

/// A nil guard call records nothing and narrows the later uses; a rebind
/// or a compound write drops the fact.
#[test]
fn guards_and_rebinds_drop_the_fact() {
    let (_, snaps) = nil_snaps(b"c = Regexp.last_match(1)\nc.nil?\nn = c.upcase\n");
    assert!(no_snapshot(&snaps));
    let (_, snaps) = nil_snaps(b"c = Regexp.last_match(1)\nc = 1\nn = c.upcase\n");
    assert!(no_snapshot(&snaps));
    let (_, snaps) = nil_snaps(b"c = Regexp.last_match(1)\nc ||= \"x\"\nn = c.upcase\n");
    assert!(no_snapshot(&snaps));
    let (_, snaps) = nil_snaps(b"c = Regexp.last_match(1)\na, c = [1, 2]\nn = c.upcase\n");
    assert!(no_snapshot(&snaps));
}

/// Every use before the fact is dropped is recorded; a block or a logical
/// operator forgets every fact; a `def` body starts from nothing.
#[test]
fn uses_record_until_the_fact_is_dropped() {
    let (ast, snaps) = nil_snaps(b"c = Regexp.last_match(1)\nx = c.upcase\ny = c.downcase\nxs.each { |v| v }\nz = c.strip\n");
    assert_eq!(snaps[local_call(&ast, "c", "upcase").unwrap()].as_deref(), Some("String"));
    assert_eq!(snaps[local_call(&ast, "c", "downcase").unwrap()].as_deref(), Some("String"));
    assert_eq!(snaps[local_call(&ast, "c", "strip").unwrap()], None);
    let (ast, snaps) = nil_snaps(b"c = Regexp.last_match(1)\nok = a && b\nz = c.strip\n");
    assert_eq!(snaps[local_call(&ast, "c", "strip").unwrap()], None);
    let (_, snaps) = nil_snaps(b"c = Regexp.last_match(1)\ndef f\n  c.strip\nend\n");
    assert!(no_snapshot(&snaps));
}

/// Every record sits on a call with a bare-local receiver, made without
/// safe navigation and not to a nil guard, and names a source class.
#[test]
fn records_sit_on_plain_local_calls() {
    let src = b"c = Regexp.last_match(1)\nx = c.upcase\nc&.strip\nm = Regexp.last_match\ny = m[0]\nz = m.nil?\nw = m.begin(0)\n";
    let (ast, snaps) = nil_snaps(src);
    let mut seen = 0;
    for (i, s) in snaps.iter().enumerate() {
        if let Some(arm) = s {
            seen += 1;
            assert!(["String", "Array", "MatchData"].contains(&arm.as_str()));
            match &ast.nodes[i] {
                Node::Call { receiver: Some(r), method, safe_nav, .. } => {
                    assert!(!safe_nav);
                    assert!(!["nil?", "present?", "blank?", "presence"].contains(&method.as_str()));
                    assert!(matches!(ast.nodes[*r], Node::LocalVariableRead { .. }));
                }
                _ => panic!("record off a call"),
            }
        }
    }
    assert_eq!(seen, 2);
}
