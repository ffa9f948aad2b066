use rigor_infer::text::qualify_self;
use rigor_infer::offsets::char_to_byte;
use rigor_infer::ast::Node;
use rigor_infer::lexer::{lex, TokKind};
use rigor_infer::parser::parse;

#[test]
fn blank_source_parses_to_an_empty_program() {
    let ast = parse(b"  \n;\t\r\n").expect("blank text parses");
    assert_eq!(ast.nodes.len(), 1);
    match &ast.nodes[0] {
        Node::Program { body, span } => {
            assert!(body.is_empty());
            assert_eq!(*span, (0, 7));
        }
        other => panic!("expected a program, got {:?}", other),
    }
}

#[test]
fn blank_text_lexes_to_line_breaks() {
    let toks = lex(b" \n ;\t").expect("blank text lexes");
    assert_eq!(toks.len(), 2);
    assert!(toks.iter().all(|t| t.kind == TokKind::Newline));
    assert_eq!((toks[0].start, toks[0].end), (1, 2));
    assert_eq!((toks[1].start, toks[1].end), (3, 4));
}

#[test]
fn lone_integer_statement() {
    let ast = parse(b"42\n").expect("parses");
    assert_eq!(ast.nodes.len(), 2);
    assert!(matches!(ast.nodes[0], Node::IntegerLit { value: 42, span: (0, 2) }));
    match &ast.nodes[1] {
        Node::Program { body, .. } => assert_eq!(body, &vec![0]),
        other => panic!("expected a program, got {:?}", other),
    }
}

#[test]
fn negative_literal_folds_the_sign() {
    let ast = parse(b"-7").expect("parses");
    assert!(matches!(ast.nodes[0], Node::IntegerLit { value: -7, .. }));
    let ast = parse(b"- 7").expect("parses");
    assert!(matches!(&ast.nodes[1], Node::Call { method, .. } if method == "-@"));
}

#[test]
fn value_keywords_and_literals() {
    let ast = parse(b"nil\ntrue\n'a'\n:b\n@c\n").expect("parses");
    assert!(matches!(ast.nodes[0], Node::NilLit { .. }));
    assert!(matches!(ast.nodes[1], Node::TrueLit { .. }));
    assert!(matches!(&ast.nodes[2], Node::StringLit { value, .. } if value == "a"));
    assert!(matches!(&ast.nodes[3], Node::SymbolLit { value, .. } if value == "b"));
    assert!(matches!(&ast.nodes[4], Node::VariableRead { name, .. } if name == "@c"));
}

#[test]
fn empty_hash_literal() {
    let ast = parse(b"{\n}\n").expect("parses");
    match &ast.nodes[0] {
        Node::HashLit { elements, all_assoc, .. } => {
            assert!(elements.is_empty());
            assert!(*all_assoc);
        }
        other => panic!("expected a hash, got {:?}", other),
    }
}

#[test]
fn empty_keyword_constructs() {
    let ast = parse(b"case\nend\n").expect("parses");
    assert!(matches!(&ast.nodes[0], Node::Case { predicate: None, branches, else_body, .. }
        if branches.is_empty() && else_body.is_empty()));
    let ast = parse(b"def m\nend\n").expect("parses");
    assert!(matches!(&ast.nodes[0], Node::Definition { name: Some(n), body, .. } if n == "m" && body.is_empty()));
    let ast = parse(b"class Foo\nend\n").expect("parses");
    assert!(matches!(&ast.nodes[0], Node::ClassDef { name, body, .. } if name == "Foo" && body.is_empty()));
    let ast = parse(b"module Bar end").expect("parses");
    assert!(matches!(&ast.nodes[0], Node::ModuleDef { name, body, .. } if name == "Bar" && body.is_empty()));
}

#[test]
fn conditions_over_a_lone_literal() {
    let ast = parse(b"if 1\nend\n").expect("parses");
    assert!(matches!(ast.nodes[0], Node::IntegerLit { value: 1, .. }));
    assert!(matches!(&ast.nodes[1], Node::If { predicate: 0, then_body, else_body, is_unless: false, .. }
        if then_body.is_empty() && else_body.is_empty()));
    let ast = parse(b"until 2\nend\n").expect("parses");
    assert!(matches!(ast.nodes[0], Node::IntegerLit { value: 2, .. }));
    assert!(matches!(&ast.nodes[1], Node::Loop { predicate: 0, body, is_until: true, .. } if body.is_empty()));
}

#[test]
fn local_read_after_write() {
    let ast = parse(b"x = 1\nx\n").expect("parses");
    assert!(matches!(&ast.nodes[2], Node::LocalVariableRead { name, span: (6, 7) } if name == "x"));
}

#[test]
fn bare_call_without_arguments() {
    let ast = parse(b"foo\n").expect("parses");
    assert!(matches!(&ast.nodes[0], Node::Call { receiver: None, method, args, block_body, safe_nav: false, .. }
        if method == "foo" && args.is_empty() && block_body.is_empty()));
}

#[test]
fn lone_decimal_source() {
    let ast = parse(b"12345").expect("parses");
    assert_eq!(ast.nodes.len(), 2);
    assert!(matches!(ast.nodes[0], Node::IntegerLit { value: 12345, span: (0, 5) }));
    assert!(matches!(&ast.nodes[1], Node::Program { body, .. } if body == &vec![0]));
    let ast = parse(b"9223372036854775807").expect("parses");
    assert!(matches!(ast.nodes[0], Node::IntegerLit { value: i64::MAX, .. }));
    let toks = lex(b"0").expect("lexes");
    assert_eq!(toks.len(), 1);
    assert_eq!((toks[0].kind, toks[0].value, toks[0].start, toks[0].end), (TokKind::Int, 0, 0, 1));
}

#[test]
fn char_positions_to_byte_offsets() {
    assert_eq!(char_to_byte("héllo", 0), 0);
    assert_eq!(char_to_byte("héllo", 2), 3);
    assert_eq!(char_to_byte("héllo", 5), 6);
    assert_eq!(char_to_byte("héllo", 9), 6);
}

#[test]
fn qualified_constant_names() {
    assert_eq!(qualify_self(Some("A::B"), "C"), "A::B::C");
    assert_eq!(qualify_self(Some(""), "C"), "C");
    assert_eq!(qualify_self(None, "C"), "C");
}
