#![verifier::loop_isolation(false)]
//! A recursive-descent parser for the Ruby subset the flow passes read,
//! lowering straight into the children-first arena of [`crate::ast`]. It
//! stands in for a full Ruby parser: it reads ASCII source only and declines
//! what lies outside the subset. Its contracts fix the tree for blank
//! sources, lone decimal literals and the per-construct forms each parsing
//! function states; for other text they say only that a tree that comes back
//! is well formed and within the source.
use vstd::prelude::*;
use crate::ast::{Ast, Node, Span, span_of, children, all_below, nodes_wf, fields_below, lemma_fields_below, spans_within};
use crate::lexer::{Tok, TokKind, lex, toks_wf, blank_text, all_breaks, lone_decimal, decimal_value};
use crate::text::str_eq;
use crate::decimal::decimal_to_binary64;

verus! {

/// The local names of one scope; a hard scope (`def`, `class`, `module`)
/// hides the enclosing ones, a block scope does not.
pub struct Scope {
    names: Vec<String>,
    hard: bool,
}

/// The parser state: the tokens, the cursor, the arena built so far and the
/// scope stack that tells local reads from method calls.
pub struct Parser {
    toks: Vec<Tok>,
    /// The length of the source, in bytes.
    src_len: usize,
    pos: usize,
    nodes: Vec<Node>,
    scopes: Vec<Scope>,
    no_do: bool,
}

/// The keywords of the subset.
pub open spec fn spec_is_keyword(t: Seq<char>) -> bool {
    t == "def"@
        || t == "end"@
        || t == "if"@
        || t == "unless"@
        || t == "else"@
        || t == "elsif"@
        || t == "case"@
        || t == "when"@
        || t == "then"@
        || t == "while"@
        || t == "until"@
        || t == "do"@
        || t == "class"@
        || t == "module"@
        || t == "return"@
        || t == "next"@
        || t == "break"@
        || t == "nil"@
        || t == "true"@
        || t == "false"@
        || t == "self"@
        || t == "and"@
        || t == "or"@
        || t == "not"@
        || t == "begin"@
        || t == "rescue"@
        || t == "ensure"@
        || t == "in"@
        || t == "redo"@
        || t == "retry"@
        || t == "alias"@
        || t == "undef"@
        || t == "yield"@
        || t == "super"@
}

/// Whether `t` is a keyword of the subset.
fn is_keyword(t: &str) -> (r: bool)
    ensures
        r == spec_is_keyword(t@),
{
    str_eq(t, "def") || str_eq(t, "end") || str_eq(t, "if") || str_eq(t, "unless") || str_eq(t, "else")
        || str_eq(t, "elsif") || str_eq(t, "case") || str_eq(t, "when") || str_eq(t, "then")
        || str_eq(t, "while") || str_eq(t, "until") || str_eq(t, "do") || str_eq(t, "class")
        || str_eq(t, "module") || str_eq(t, "return") || str_eq(t, "next") || str_eq(t, "break")
        || str_eq(t, "nil") || str_eq(t, "true") || str_eq(t, "false") || str_eq(t, "self")
        || str_eq(t, "and") || str_eq(t, "or") || str_eq(t, "not") || str_eq(t, "begin")
        || str_eq(t, "rescue") || str_eq(t, "ensure") || str_eq(t, "in") || str_eq(t, "redo")
        || str_eq(t, "retry") || str_eq(t, "alias") || str_eq(t, "undef") || str_eq(t, "yield")
        || str_eq(t, "super")
}

/// The compound assignment operators.
pub open spec fn spec_is_op_assign(t: Seq<char>) -> bool {
    t == "+="@
        || t == "-="@
        || t == "*="@
        || t == "/="@
        || t == "%="@
        || t == "**="@
        || t == "||="@
        || t == "&&="@
        || t == "|="@
        || t == "&="@
        || t == "^="@
        || t == "<<="@
        || t == ">>="@
}

/// Whether an operator text is a compound assignment (`+=`, `||=`, …).
fn is_op_assign(t: &str) -> (r: bool)
    ensures
        r == spec_is_op_assign(t@),
{
    str_eq(t, "+=") || str_eq(t, "-=") || str_eq(t, "*=") || str_eq(t, "/=") || str_eq(t, "%=")
        || str_eq(t, "**=") || str_eq(t, "||=") || str_eq(t, "&&=") || str_eq(t, "|=") || str_eq(
        t,
        "&=",
    ) || str_eq(t, "^=") || str_eq(t, "<<=") || str_eq(t, ">>=")
}

/// The binding power of a binary operator, or 0 when `t` is not one.
pub open spec fn spec_binop_prec(t: Seq<char>) -> u32 {
    if t == "||"@ {
        1
    } else if t == "&&"@ {
        2
    } else if t == ".."@ || t == "..."@ {
        3
    } else if t == "<=>"@ || t == "=="@ || t == "==="@ || t == "!="@ || t == "=~"@ || t == "!~"@ {
        4
    } else if t == "<"@ || t == "<="@ || t == ">"@ || t == ">="@ {
        5
    } else if t == "|"@ || t == "^"@ {
        6
    } else if t == "&"@ {
        7
    } else if t == "<<"@ || t == ">>"@ {
        8
    } else if t == "+"@ || t == "-"@ {
        9
    } else if t == "*"@ || t == "/"@ || t == "%"@ {
        10
    } else if t == "**"@ {
        12
    } else {
        0
    }
}

/// The binding power of a binary operator, or 0 when `t` is not one.
fn binop_prec(t: &str) -> (r: u32)
    ensures
        r <= 12,
        r == spec_binop_prec(t@),
{
    if str_eq(t, "||") {
        1
    } else if str_eq(t, "&&") {
        2
    } else if str_eq(t, "..") || str_eq(t, "...") {
        3
    } else if str_eq(t, "<=>") || str_eq(t, "==") || str_eq(t, "===") || str_eq(t, "!=") || str_eq(
        t,
        "=~",
    ) || str_eq(t, "!~") {
        4
    } else if str_eq(t, "<") || str_eq(t, "<=") || str_eq(t, ">") || str_eq(t, ">=") {
        5
    } else if str_eq(t, "|") || str_eq(t, "^") {
        6
    } else if str_eq(t, "&") {
        7
    } else if str_eq(t, "<<") || str_eq(t, ">>") {
        8
    } else if str_eq(t, "+") || str_eq(t, "-") {
        9
    } else if str_eq(t, "*") || str_eq(t, "/") || str_eq(t, "%") {
        10
    } else if str_eq(t, "**") {
        12
    } else {
        0
    }
}

/// The token at `i` is the operator `t`.
pub open spec fn tok_op(toks: Seq<Tok>, i: int, t: Seq<char>) -> bool {
    0 <= i < toks.len() && toks[i].kind == TokKind::Op && toks[i].text@ == t
}

/// The token at `i` is the identifier or keyword `t`.
pub open spec fn tok_kw(toks: Seq<Tok>, i: int, t: Seq<char>) -> bool {
    0 <= i < toks.len() && toks[i].kind == TokKind::Ident && toks[i].text@ == t
}

/// The token at `i` is a line break.
pub open spec fn tok_newline(toks: Seq<Tok>, i: int) -> bool {
    0 <= i < toks.len() && toks[i].kind == TokKind::Newline
}

/// The token at `i` ends a statement list: the end of the tokens, a closing
/// keyword or a closing bracket.
pub open spec fn tok_terminator(toks: Seq<Tok>, i: int) -> bool {
    i >= toks.len() || tok_kw(toks, i, "end"@) || tok_kw(toks, i, "else"@) || tok_kw(toks, i, "elsif"@)
        || tok_kw(toks, i, "when"@) || tok_kw(toks, i, "rescue"@) || tok_kw(toks, i, "ensure"@)
        || tok_kw(toks, i, "in"@) || tok_kw(toks, i, "then"@) || tok_op(toks, i, "}"@) || tok_op(toks, i, ")"@)
        || tok_op(toks, i, "]"@)
}

/// The token at `i` is a statement modifier keyword.
pub open spec fn tok_modifier(toks: Seq<Tok>, i: int) -> bool {
    tok_kw(toks, i, "if"@) || tok_kw(toks, i, "unless"@) || tok_kw(toks, i, "while"@) || tok_kw(toks, i, "until"@)
        || tok_kw(toks, i, "rescue"@)
}

/// The first position at or after `i` that is not a line break.
pub open spec fn skip_breaks(toks: Seq<Tok>, i: int) -> int
    decreases toks.len() - i,
{
    if 0 <= i < toks.len() && toks[i].kind == TokKind::Newline {
        skip_breaks(toks, i + 1)
    } else {
        i
    }
}

/// Skipping line breaks never moves backwards, nor past the end.
proof fn lemma_skip_breaks(toks: Seq<Tok>, i: int)
    ensures
        i <= skip_breaks(toks, i),
        0 <= i <= toks.len() ==> skip_breaks(toks, i) <= toks.len(),
    decreases toks.len() - i,
{
    if 0 <= i < toks.len() && toks[i].kind == TokKind::Newline {
        lemma_skip_breaks(toks, i + 1);
    }
}

/// Over tokens that are all line breaks, skipping them reaches the end.
proof fn lemma_skip_all_breaks(toks: Seq<Tok>, i: int)
    requires
        all_breaks(toks),
        0 <= i <= toks.len(),
    ensures
        skip_breaks(toks, i) == toks.len(),
    decreases toks.len() - i,
{
    if i < toks.len() {
        lemma_skip_all_breaks(toks, i + 1);
    }
}

/// The names of one scope and whether it is hard.
spec fn scope_view(sc: Scope) -> (Seq<Seq<char>>, bool) {
    (sc.names@.map_values(|n: String| n@), sc.hard)
}

/// The scope stack, innermost last.
spec fn scopes_view(s: Seq<Scope>) -> Seq<(Seq<Seq<char>>, bool)> {
    s.map_values(|sc: Scope| scope_view(sc))
}

/// `name` is declared in a scope visible from the innermost one: searching
/// outwards, up to and including the first hard scope.
spec fn local_in(scopes: Seq<(Seq<Seq<char>>, bool)>, name: Seq<char>) -> bool
    decreases scopes.len(),
{
    if scopes.len() == 0 {
        false
    } else if scopes.last().0.contains(name) {
        true
    } else if scopes.last().1 {
        false
    } else {
        local_in(scopes.drop_last(), name)
    }
}

/// From `i` on, the tokens read `a, b, … =` with at least two targets
/// counted from `start`: identifiers that are not keywords, separated by
/// commas.
pub open spec fn multi_assign_from(toks: Seq<Tok>, start: int, i: int) -> bool
    decreases toks.len() - i,
{
    if !(0 <= i < toks.len()) || toks[i].kind != TokKind::Ident || spec_is_keyword(toks[i].text@) {
        false
    } else if i + 1 >= toks.len() || toks[i + 1].kind != TokKind::Op {
        false
    } else if toks[i + 1].text@ == "="@ {
        i + 1 - start > 1
    } else if toks[i + 1].text@ != ","@ {
        false
    } else {
        multi_assign_from(toks, start, i + 2)
    }
}

/// The token at `i` ends an operand: the end of the tokens, or a line break
/// that no `.` continues on the next line.
pub open spec fn ends_expr(toks: Seq<Tok>, i: int) -> bool {
    i >= toks.len() || (0 <= i && toks[i].kind == TokKind::Newline && !tok_op(toks, i + 1, "."@))
}

/// The node for the integer literal token at `i`.
pub open spec fn int_lit_at(toks: Seq<Tok>, i: int) -> Node {
    Node::IntegerLit { value: toks[i].value, span: (toks[i].start, toks[i].end) }
}

/// `out` is `old` with `id` appended.
pub open spec fn pushed_id(out: Seq<usize>, old: Seq<usize>, id: int) -> bool {
    out.len() == old.len() + 1 && out.last() == id && out.drop_last() == old
}

/// A token that can start an argument list without parentheses: a literal,
/// a name that is not a keyword, or one of the value keywords.
pub open spec fn command_arg_tok(t: Tok) -> bool {
    match t.kind {
        TokKind::Int | TokKind::Float | TokKind::Str | TokKind::DStr | TokKind::Sym | TokKind::Const
        | TokKind::IVar | TokKind::Label => true,
        TokKind::Ident => !spec_is_keyword(t.text@) || spec_is_value_kw(t.text@),
        _ => false,
    }
}

/// The keywords that stand for a value: `nil`, `true`, `false`, `self`.
pub open spec fn spec_is_value_kw(t: Seq<char>) -> bool {
    t == "nil"@ || t == "true"@ || t == "false"@ || t == "self"@
}

/// The node for a value keyword over `span`.
pub open spec fn value_kw_node(t: Seq<char>, span: Span) -> Node {
    if t == "nil"@ {
        Node::NilLit { span }
    } else if t == "true"@ {
        Node::TrueLit { span }
    } else if t == "false"@ {
        Node::FalseLit { span }
    } else {
        Node::SelfExpr { span }
    }
}

/// `n` is the node for the literal token `t`: a string, a symbol, an
/// instance variable, or an interpolated string (kept opaque).
pub open spec fn literal_node(t: Tok, n: Node) -> bool {
    let span = (t.start, t.end);
    match t.kind {
        TokKind::Str => n matches Node::StringLit { value, span: s } && value@ == t.text@ && s == span,
        TokKind::Sym => n matches Node::SymbolLit { value, span: s } && value@ == t.text@ && s == span,
        TokKind::IVar => n matches Node::VariableRead { name, span: s } && name@ == t.text@ && s == span,
        TokKind::DStr => n == Node::Other { jump: false, span },
        _ => false,
    }
}

impl Parser {
    /// The cursor is at an integer literal.
    pub closed spec fn at_int(&self) -> bool {
        self.pos < self.toks@.len() && self.toks@[self.pos as int].kind == TokKind::Int
    }

    /// The cursor is at an integer literal that ends its expression.
    pub closed spec fn at_lone_int(&self) -> bool {
        self.at_int() && ends_expr(self.toks@, self.pos + 1)
    }

    /// The node for the integer literal at the cursor.
    pub closed spec fn int_node(&self) -> Node {
        int_lit_at(self.toks@, self.pos as int)
    }

    /// From `old`, the integer literal at the cursor was read into one new
    /// node and nothing else changed in the arena.
    pub closed spec fn read_int(&self, old: Parser) -> bool {
        &&& self.pos == old.pos + 1
        &&& self.nodes@ == old.nodes@.push(old.int_node())
    }

    /// The cursor is within the tokens and the arena is well formed.
    pub closed spec fn ok(&self) -> bool {
        &&& self.pos <= self.toks@.len()
        &&& nodes_wf(self.nodes@)
        &&& toks_wf(self.toks@, self.src_len as nat)
        &&& spans_within(self.nodes@, self.src_len as int)
    }

    /// A parse step from `old`: still well formed, the arena and the cursor
    /// only grew, the tokens are untouched.
    pub closed spec fn stepped(&self, old: Parser) -> bool {
        &&& self.ok()
        &&& old.nodes@.len() <= self.nodes@.len()
        &&& old.pos <= self.pos
        &&& self.toks@ == old.toks@
        &&& self.src_len == old.src_len
    }

    /// The number of nodes so far.
    pub closed spec fn size(&self) -> nat {
        self.nodes@.len()
    }

    /// Append a node whose children are all earlier nodes.
    fn push(&mut self, n: Node) -> (id: usize)
        requires
            old(self).ok(),
            fields_below(n, old(self).nodes@.len() as int),
            span_of(n).0 <= span_of(n).1,
            span_of(n).1 <= old(self).src_len,
        ensures
            final(self).stepped(*old(self)),
            id == old(self).nodes@.len(),
            final(self).nodes@ == old(self).nodes@.push(n),
            final(self).pos == old(self).pos,
    {
        proof {
            lemma_fields_below(n, self.nodes@.len() as int);
        }
        let id = self.nodes.len();
        self.nodes.push(n);
        proof {
            assert forall|i: int| 0 <= i < self.nodes@.len() implies {
                &&& #[trigger] all_below(children(self.nodes@[i]), i)
                &&& span_of(self.nodes@[i]).0 <= span_of(self.nodes@[i]).1
            } by {
                if i < id {
                    assert(self.nodes@[i] == old(self).nodes@[i]);
                }
            }
        }
        id
    }

    /// The kind of the current token.
    fn kind(&self) -> (r: Option<TokKind>)
        ensures
            r is Some ==> self.pos < self.toks@.len(),
            r == (if self.pos < self.toks@.len() { Some(self.toks@[self.pos as int].kind) } else { None }),
    {
        if self.pos < self.toks.len() {
            Some(self.toks[self.pos].kind)
        } else {
            None
        }
    }

    /// The kind of the token after the current one.
    fn kind2(&self) -> (r: Option<TokKind>)
        ensures
            r is Some ==> self.pos + 1 < self.toks@.len(),
            r == (if self.pos + 1 < self.toks@.len() { Some(self.toks@[self.pos + 1].kind) } else { None }),
    {
        if self.pos < self.toks.len() && self.toks.len() - self.pos > 1 {
            Some(self.toks[self.pos + 1].kind)
        } else {
            None
        }
    }

    /// Whether the current token is the operator `t`.
    fn at_op(&self, t: &str) -> (r: bool)
        ensures
            r ==> self.pos < self.toks@.len(),
            r == tok_op(self.toks@, self.pos as int, t@),
    {
        self.pos < self.toks.len() && self.toks[self.pos].kind == TokKind::Op && str_eq(
            self.toks[self.pos].text.as_str(),
            t,
        )
    }

    /// Whether the token after the current one is the operator `t`.
    fn at_op2(&self, t: &str) -> (r: bool)
        ensures
            r ==> self.pos + 1 < self.toks@.len(),
            r == tok_op(self.toks@, self.pos + 1, t@),
    {
        self.pos < self.toks.len() && self.toks.len() - self.pos > 1 && self.toks[self.pos + 1].kind
            == TokKind::Op && str_eq(self.toks[self.pos + 1].text.as_str(), t)
    }

    /// Whether the current token is the keyword `t`.
    fn at_kw(&self, t: &str) -> (r: bool)
        ensures
            r ==> self.pos < self.toks@.len(),
            r == tok_kw(self.toks@, self.pos as int, t@),
    {
        self.pos < self.toks.len() && self.toks[self.pos].kind == TokKind::Ident && str_eq(
            self.toks[self.pos].text.as_str(),
            t,
        )
    }

    /// Whether the current token is a line break.
    fn at_newline(&self) -> (r: bool)
        ensures
            r ==> self.pos < self.toks@.len(),
            r == tok_newline(self.toks@, self.pos as int),
    {
        self.pos < self.toks.len() && self.toks[self.pos].kind == TokKind::Newline
    }

    /// Whether whitespace precedes the current token.
    fn space_before(&self) -> (r: bool)
        ensures
            r == (self.pos < self.toks@.len() && self.toks@[self.pos as int].space_before),
    {
        self.pos < self.toks.len() && self.toks[self.pos].space_before
    }

    /// The start of the current token (the end of the last one at the end).
    fn here(&self) -> (r: usize)
        requires
            self.ok(),
        ensures
            r <= self.src_len,
            r == (if self.pos < self.toks@.len() {
                self.toks@[self.pos as int].start
            } else if self.pos > 0 {
                self.toks@[self.pos - 1].end
            } else {
                0
            }),
    {
        if self.pos < self.toks.len() {
            self.toks[self.pos].start
        } else if self.pos > 0 && self.pos - 1 < self.toks.len() {
            self.toks[self.pos - 1].end
        } else {
            0
        }
    }

    /// The span from `start` to the end of the last consumed token.
    fn span_from(&self, start: usize) -> (r: Span)
        requires
            self.ok(),
            start <= self.src_len,
        ensures
            r.0 <= r.1,
            r.0 == start,
            r.1 <= self.src_len,
            r.1 == (if self.pos > 0 && self.pos - 1 < self.toks@.len() && self.toks@[self.pos - 1].end >= start {
                self.toks@[self.pos - 1].end
            } else {
                start
            }),
    {
        let e = if self.pos > 0 && self.pos - 1 < self.toks.len() {
            self.toks[self.pos - 1].end
        } else {
            start
        };
        (start, if e < start { start } else { e })
    }

    /// Consume the current token.
    fn bump(&mut self)
        requires
            old(self).ok(),
        ensures
            final(self).stepped(*old(self)),
            final(self).nodes@ == old(self).nodes@,
            final(self).scopes@ == old(self).scopes@,
            final(self).no_do == old(self).no_do,
            old(self).pos >= old(self).toks@.len() ==> final(self).pos == old(self).pos,
            old(self).pos < old(self).toks@.len() ==> final(self).pos == old(self).pos + 1,
    {
        if self.pos < self.toks.len() {
            self.pos = self.pos + 1;
        }
    }

    /// Consume the operator `t`, or fail.
    fn expect_op(&mut self, t: &str) -> (r: Option<()>)
        requires
            old(self).ok(),
        ensures
            final(self).stepped(*old(self)),
            final(self).nodes@ == old(self).nodes@,
            final(self).scopes@ == old(self).scopes@,
            final(self).no_do == old(self).no_do,
            r is Some <==> tok_op(old(self).toks@, old(self).pos as int, t@),
            final(self).pos == (if r is Some { old(self).pos + 1 } else { old(self).pos as int }),
    {
        if self.at_op(t) {
            self.bump();
            Some(())
        } else {
            None
        }
    }

    /// Consume the keyword `t`, or fail.
    fn expect_kw(&mut self, t: &str) -> (r: Option<()>)
        requires
            old(self).ok(),
        ensures
            final(self).stepped(*old(self)),
            final(self).nodes@ == old(self).nodes@,
            final(self).scopes@ == old(self).scopes@,
            final(self).no_do == old(self).no_do,
            r is Some <==> tok_kw(old(self).toks@, old(self).pos as int, t@),
            final(self).pos == (if r is Some { old(self).pos + 1 } else { old(self).pos as int }),
    {
        if self.at_kw(t) {
            self.bump();
            Some(())
        } else {
            None
        }
    }

    /// Skip line breaks.
    fn skip_newlines(&mut self)
        requires
            old(self).ok(),
        ensures
            final(self).stepped(*old(self)),
            final(self).nodes@ == old(self).nodes@,
            final(self).scopes@ == old(self).scopes@,
            final(self).no_do == old(self).no_do,
            final(self).pos == skip_breaks(old(self).toks@, old(self).pos as int),
    {
        while self.at_newline()
            invariant
                self.stepped(*old(self)),
                self.nodes@ == old(self).nodes@,
                self.scopes@ == old(self).scopes@,
                self.no_do == old(self).no_do,
                skip_breaks(old(self).toks@, old(self).pos as int) == skip_breaks(self.toks@, self.pos as int),
            decreases self.toks@.len() - self.pos,
        {
            self.bump();
        }
    }

    /// The text of the current token.
    fn text(&self) -> (r: String)
        ensures
            r@ == (if self.pos < self.toks@.len() { self.toks@[self.pos as int].text@ } else { Seq::<char>::empty() }),
    {
        if self.pos < self.toks.len() {
            self.toks[self.pos].text.clone()
        } else {
            String::new()
        }
    }

    /// Whether `name` is a local of the current scope chain.
    fn is_local(&self, name: &str) -> (r: bool)
        ensures
            r == local_in(scopes_view(self.scopes@), name@),
    {
        let ghost v = scopes_view(self.scopes@);
        let mut i = self.scopes.len();
        assert(v.take(i as int) =~= v);
        while i > 0
            invariant
                i <= self.scopes@.len(),
                v == scopes_view(self.scopes@),
                local_in(v, name@) == local_in(v.take(i as int), name@),
            decreases i,
        {
            i = i - 1;
            let sc = &self.scopes[i];
            let ghost t = v.take(i as int + 1);
            assert(t.last() == scope_view(self.scopes@[i as int]));
            assert(t.drop_last() =~= v.take(i as int));
            let mut j: usize = 0;
            while j < sc.names.len()
                invariant
                    0 <= j <= sc.names@.len(),
                    forall|k: int| 0 <= k < j ==> sc.names@[k]@ != name@,
                decreases sc.names@.len() - j,
            {
                if str_eq(sc.names[j].as_str(), name) {
                    assert(t.last().0[j as int] == name@);
                    return true;
                }
                j = j + 1;
            }
            assert(!t.last().0.contains(name@));
            if sc.hard {
                return false;
            }
        }
        assert(v.take(0) =~= Seq::<(Seq<Seq<char>>, bool)>::empty());
        false
    }

    /// Declare `name` in the innermost scope.
    fn declare(&mut self, name: &str)
        requires
            old(self).ok(),
        ensures
            final(self).stepped(*old(self)),
            final(self).nodes@ == old(self).nodes@,
            final(self).pos == old(self).pos,
            final(self).no_do == old(self).no_do,
            scopes_view(final(self).scopes@) == (if old(self).scopes@.len() == 0 {
                seq![(seq![name@], true)]
            } else {
                scopes_view(old(self).scopes@).update(
                    old(self).scopes@.len() - 1,
                    (scopes_view(old(self).scopes@).last().0.push(name@), scopes_view(old(self).scopes@).last().1),
                )
            }),
    {
        let ghost v0 = scopes_view(self.scopes@);
        let n = self.scopes.len();
        if n == 0 {
            self.scopes.push(Scope { names: Vec::new(), hard: true });
        }
        let last = self.scopes.len() - 1;
        let ghost mid = self.scopes@;
        let mut sc = self.scopes.remove(last);
        let ghost names0 = sc.names@;
        sc.names.push(name.to_owned());
        self.scopes.push(sc);
        proof {
            assert(self.scopes@ =~= mid.update(last as int, sc));
            assert(scope_view(sc).0 =~= scope_view(mid[last as int]).0.push(name@));
            if n == 0 {
                assert(scope_view(mid[0]).0 =~= Seq::<Seq<char>>::empty());
                assert(scopes_view(self.scopes@) =~= seq![(seq![name@], true)]);
            } else {
                assert(mid == old(self).scopes@);
                assert(scopes_view(self.scopes@) =~= v0.update(last as int, (v0.last().0.push(name@), v0.last().1)));
            }
        }
    }

    /// Open a scope.
    fn open_scope(&mut self, hard: bool)
        requires
            old(self).ok(),
        ensures
            final(self).stepped(*old(self)),
            final(self).nodes@ == old(self).nodes@,
            final(self).pos == old(self).pos,
            final(self).no_do == old(self).no_do,
            scopes_view(final(self).scopes@) == scopes_view(old(self).scopes@).push((Seq::<Seq<char>>::empty(), hard)),
    {
        let sc = Scope { names: Vec::new(), hard };
        self.scopes.push(sc);
        proof {
            assert(scope_view(sc).0 =~= Seq::<Seq<char>>::empty());
            assert(scopes_view(self.scopes@) =~= scopes_view(old(self).scopes@).push((Seq::<Seq<char>>::empty(), hard)));
        }
    }

    /// Close the innermost scope.
    fn close_scope(&mut self)
        requires
            old(self).ok(),
        ensures
            final(self).stepped(*old(self)),
            final(self).nodes@ == old(self).nodes@,
            final(self).pos == old(self).pos,
            final(self).no_do == old(self).no_do,
            scopes_view(final(self).scopes@) == (if old(self).scopes@.len() > 0 {
                scopes_view(old(self).scopes@).drop_last()
            } else {
                scopes_view(old(self).scopes@)
            }),
    {
        if self.scopes.len() > 0 {
            self.scopes.pop();
            proof {
                assert(scopes_view(self.scopes@) =~= scopes_view(old(self).scopes@).drop_last());
            }
        }
    }

    /// Whether the current token ends a statement list.
    fn at_terminator(&self) -> (r: bool)
        ensures
            r == tok_terminator(self.toks@, self.pos as int),
    {
        self.pos >= self.toks.len() || self.at_kw("end") || self.at_kw("else") || self.at_kw("elsif")
            || self.at_kw("when") || self.at_kw("rescue") || self.at_kw("ensure") || self.at_kw("in")
            || self.at_kw("then") || self.at_op("}") || self.at_op(")") || self.at_op("]")
    }

    /// Whether the current token is a statement modifier keyword.
    fn at_modifier(&self) -> (r: bool)
        ensures
            r ==> self.pos < self.toks@.len(),
            r == tok_modifier(self.toks@, self.pos as int),
    {
        self.at_kw("if") || self.at_kw("unless") || self.at_kw("while") || self.at_kw("until")
            || self.at_kw("rescue")
    }

    /// Statements up to a terminator, appended to `out`.
    fn stmts(&mut self, d: usize, out: &mut Vec<usize>) -> (r: Option<()>)
        requires
            old(self).ok(),
            all_below(old(out)@, old(self).nodes@.len() as int),
        ensures
            final(self).stepped(*old(self)),
            all_below(final(out)@, final(self).nodes@.len() as int),
            d >= 1 && tok_terminator(old(self).toks@, skip_breaks(old(self).toks@, old(self).pos as int)) ==> r is Some
                && final(out)@ == old(out)@ && final(self).nodes@ == old(self).nodes@
                && final(self).pos == skip_breaks(old(self).toks@, old(self).pos as int),
            ({
                let t = old(self).toks@;
                let i = skip_breaks(t, old(self).pos as int);
                d >= 9 && i < t.len() && t[i].kind == TokKind::Int && ends_expr(t, i + 1) && tok_terminator(t, skip_breaks(t, i + 1))
                    ==> r is Some && pushed_id(final(out)@, old(out)@, old(self).nodes@.len() as int)
                    && final(self).nodes@ == old(self).nodes@.push(int_lit_at(t, i)) && final(self).pos == skip_breaks(t, i + 1)
            }),
        decreases d, 0int,
    {
        if d == 0 {
            return None;
        }
        let ghost t = old(self).toks@;
        let ghost i = skip_breaks(t, old(self).pos as int);
        proof {
            lemma_skip_breaks(t, old(self).pos as int);
        }
        let ghost lone = d >= 9 && i < t.len() && t[i].kind == TokKind::Int && ends_expr(t, i + 1) && tok_terminator(t, skip_breaks(t, i + 1));
        loop
            invariant
                self.stepped(*old(self)),
                all_below(out@, self.nodes@.len() as int),
                t == old(self).toks@,
                i == skip_breaks(t, old(self).pos as int),
                d >= 1 && tok_terminator(t, i) ==> self.pos == old(self).pos && out@ == old(out)@ && self.nodes@ == old(self).nodes@,
                lone ==> (self.pos == old(self).pos && out@ == old(out)@ && self.nodes@ == old(self).nodes@) || (self.pos == i + 1
                    && pushed_id(out@, old(out)@, old(self).nodes@.len() as int) && self.nodes@ == old(self).nodes@.push(int_lit_at(t, i))),
            decreases self.toks@.len() - self.pos,
        {
            self.skip_newlines();
            if self.at_terminator() {
                return Some(());
            }
            let p0 = self.pos;
            let s = self.stmt(d - 1)?;
            let ghost out0 = out@;
            out.push(s);
            assert(out@.drop_last() =~= out0);
            if self.pos == p0 {
                return None;
            }
            if !self.at_newline() && !self.at_terminator() {
                return None;
            }
        }
    }

    /// One statement with its trailing modifiers.
    fn stmt(&mut self, d: usize) -> (r: Option<usize>)
        requires
            old(self).ok(),
        ensures
            final(self).stepped(*old(self)),
            r matches Some(id) ==> id < final(self).nodes@.len(),
            old(self).at_lone_int() && d >= 8 ==> r is Some && r->0 == old(self).nodes@.len() && final(self).read_int(*old(self)),
        decreases d, 1int,
    {
        if d == 0 {
            return None;
        }
        let start = self.here();
        let mut e = self.expr_stmt(d - 1)?;
        while self.at_modifier()
            invariant
                self.stepped(*old(self)),
                e < self.nodes@.len(),
                old(self).at_lone_int() && d >= 8 ==> e == old(self).nodes@.len() && self.read_int(*old(self)),
            decreases self.toks@.len() - self.pos,
        {
            let is_unless = self.at_kw("unless");
            let is_if = self.at_kw("if") || is_unless;
            let is_until = self.at_kw("until");
            let is_rescue = self.at_kw("rescue");
            self.bump();
            let cond = self.expr_stmt(d - 1)?;
            let span = self.span_from(start);
            if is_rescue {
                e = self.push(Node::Other { jump: false, span });
            } else if is_if {
                let mut then_body: Vec<usize> = Vec::new();
                then_body.push(e);
                e = self.push(Node::If { predicate: cond, then_body, else_body: Vec::new(), is_unless, span });
            } else {
                let mut body: Vec<usize> = Vec::new();
                body.push(e);
                e = self.push(Node::Loop { predicate: cond, body, is_until, span });
            }
        }
        Some(e)
    }

    /// `a and b` / `a or b` chains.
    fn expr_stmt(&mut self, d: usize) -> (r: Option<usize>)
        requires
            old(self).ok(),
        ensures
            final(self).stepped(*old(self)),
            r matches Some(id) ==> id < final(self).nodes@.len(),
            old(self).at_lone_int() && d >= 7 ==> r is Some && r->0 == old(self).nodes@.len() && final(self).read_int(*old(self)),
        decreases d, 1int,
    {
        if d == 0 {
            return None;
        }
        let start = self.here();
        let mut left = self.not_expr(d - 1)?;
        while self.at_kw("and") || self.at_kw("or")
            invariant
                self.stepped(*old(self)),
                left < self.nodes@.len(),
                old(self).at_lone_int() && d >= 7 ==> left == old(self).nodes@.len() && self.read_int(*old(self)),
            decreases self.toks@.len() - self.pos,
        {
            let is_and = self.at_kw("and");
            self.bump();
            self.skip_newlines();
            let right = self.not_expr(d - 1)?;
            let span = self.span_from(start);
            left = self.push(Node::Logical { left, right, is_and, span });
        }
        Some(left)
    }

    /// `not e`.
    fn not_expr(&mut self, d: usize) -> (r: Option<usize>)
        requires
            old(self).ok(),
        ensures
            final(self).stepped(*old(self)),
            r matches Some(id) ==> id < final(self).nodes@.len(),
            old(self).at_lone_int() && d >= 6 ==> r is Some && r->0 == old(self).nodes@.len() && final(self).read_int(*old(self)),
        decreases d, 1int,
    {
        if d == 0 {
            return None;
        }
        if self.at_kw("not") {
            let start = self.here();
            self.bump();
            let e = self.not_expr(d - 1)?;
            let span = self.span_from(start);
            let mut args: Vec<usize> = Vec::new();
            return Some(self.push(Node::Call { receiver: Some(e), method: "!".to_owned(), args, block_body: Vec::new(), safe_nav: false, span }));
        }
        self.assign(d - 1)
    }

    /// Whether the token after the current one is a compound assignment
    /// (or, with `plain`, also a plain `=`).
    fn next_is_op_assign(&self, plain: bool) -> (r: bool)
        ensures
            r == (self.pos + 1 < self.toks@.len() && self.toks@[self.pos + 1].kind == TokKind::Op && (
            spec_is_op_assign(self.toks@[self.pos + 1].text@) || (plain && self.toks@[self.pos + 1].text@ == "="@))),
    {
        if self.pos < self.toks.len() && self.toks.len() - self.pos > 1 {
            let t = &self.toks[self.pos + 1];
            t.kind == TokKind::Op && (is_op_assign(t.text.as_str()) || (plain && str_eq(t.text.as_str(), "=")))
        } else {
            false
        }
    }

    /// Whether a multiple assignment `a, b = …` starts here.
    fn at_multi_assign(&self) -> (r: bool)
        ensures
            r == multi_assign_from(self.toks@, self.pos as int, self.pos as int),
    {
        let mut i = self.pos;
        loop
            invariant
                self.pos <= i,
                multi_assign_from(self.toks@, self.pos as int, self.pos as int) == multi_assign_from(self.toks@, self.pos as int, i as int),
            decreases self.toks@.len() - i,
        {
            if i >= self.toks.len() || self.toks[i].kind != TokKind::Ident {
                return false;
            }
            if is_keyword(self.toks[i].text.as_str()) {
                return false;
            }
            i = i + 1;
            if i >= self.toks.len() || self.toks[i].kind != TokKind::Op {
                return false;
            }
            if str_eq(self.toks[i].text.as_str(), "=") {
                return i - self.pos > 1;
            }
            if !str_eq(self.toks[i].text.as_str(), ",") {
                return false;
            }
            i = i + 1;
        }
    }

    /// Assignments, else an operator expression.
    fn assign(&mut self, d: usize) -> (r: Option<usize>)
        requires
            old(self).ok(),
        ensures
            final(self).stepped(*old(self)),
            r matches Some(id) ==> id < final(self).nodes@.len(),
            old(self).at_lone_int() && d >= 5 ==> r is Some && r->0 == old(self).nodes@.len() && final(self).read_int(*old(self)),
        decreases d, 1int,
    {
        if d == 0 {
            return None;
        }
        let start = self.here();
        let k = self.kind();
        if k == Some(TokKind::Ident) && !is_keyword(self.text().as_str()) {
            if self.at_multi_assign() {
                let mut targets: Vec<String> = Vec::new();
                loop
                    invariant
                        self.stepped(*old(self)),
                    decreases self.toks@.len() - self.pos,
                {
                    let name = self.text();
                    let p0 = self.pos;
                    self.bump();
                    self.declare(name.as_str());
                    targets.push(name);
                    if self.at_op(",") {
                        self.bump();
                    } else {
                        break;
                    }
                    if self.pos == p0 {
                        return None;
                    }
                }
                self.expect_op("=")?;
                self.skip_newlines();
                let value = self.rhs_list(d - 1)?;
                let span = self.span_from(start);
                return Some(self.push(Node::MultiWrite { targets, value, span }));
            }
            if self.at_op2("=") {
                let name = self.text();
                self.bump();
                self.bump();
                self.declare(name.as_str());
                self.skip_newlines();
                let value = self.assign(d - 1)?;
                let span = self.span_from(start);
                return Some(self.push(Node::LocalVariableWrite { name, value, span }));
            }
            if self.next_is_op_assign(false) {
                let name = self.text();
                self.bump();
                let op = self.text();
                self.bump();
                self.declare(name.as_str());
                self.skip_newlines();
                let value = self.assign(d - 1)?;
                let span = self.span_from(start);
                return Some(self.push(Node::LocalVariableOpWrite { name, op, value, span }));
            }
        }
        if k == Some(TokKind::IVar) && self.at_op2("=") {
            let name = self.text();
            self.bump();
            self.bump();
            self.skip_newlines();
            let value = self.assign(d - 1)?;
            let span = self.span_from(start);
            return Some(self.push(Node::InstanceVariableWrite { name, value, span }));
        }
        if (k == Some(TokKind::IVar) || k == Some(TokKind::Const)) && self.next_is_op_assign(true) {
            self.bump();
            self.bump();
            self.skip_newlines();
            let _value = self.assign(d - 1)?;
            let span = self.span_from(start);
            return Some(self.push(Node::Other { jump: false, span }));
        }
        let e = self.binary(d - 1, 1)?;
        if self.at_op("=") {
            let (target, method, args) = match &self.nodes[e] {
                Node::Call { receiver: Some(r), method, args, block_body, .. } => {
                    if block_body.len() != 0 {
                        return None;
                    }
                    let m = if str_eq(method.as_str(), "[]") {
                        "[]=".to_owned()
                    } else if args.len() == 0 {
                        let mut m = method.clone();
                        crate::text::push_char(&mut m, '=');
                        m
                    } else {
                        return None;
                    };
                    (*r, m, copy_ids(args))
                },
                _ => {
                    return None;
                },
            };
            proof {
                assert(all_below(children(self.nodes@[e as int]), e as int));
                lemma_fields_below(self.nodes@[e as int], e as int);
            }
            self.bump();
            self.skip_newlines();
            let value = self.assign(d - 1)?;
            let mut args2 = args;
            args2.push(value);
            let span = self.span_from(start);
            return Some(self.push(Node::Call { receiver: Some(target), method, args: args2, block_body: Vec::new(), safe_nav: false, span }));
        }
        if self.pos < self.toks.len() && self.toks[self.pos].kind == TokKind::Op && is_op_assign(self.toks[self.pos].text.as_str()) {
            self.bump();
            self.skip_newlines();
            let _value = self.assign(d - 1)?;
            let span = self.span_from(start);
            return Some(self.push(Node::Other { jump: false, span }));
        }
        Some(e)
    }

    /// The right-hand side of a multiple assignment: one value, or several
    /// gathered into an array literal.
    fn rhs_list(&mut self, d: usize) -> (r: Option<usize>)
        requires
            old(self).ok(),
        ensures
            final(self).stepped(*old(self)),
            r matches Some(id) ==> id < final(self).nodes@.len(),
            old(self).at_lone_int() && d >= 8 ==> r is Some && r->0 == old(self).nodes@.len() && final(self).read_int(*old(self)),
        decreases d, 1int,
    {
        if d == 0 {
            return None;
        }
        let start = self.here();
        let first = self.arg(d - 1)?;
        if !self.at_op(",") {
            return Some(first);
        }
        let mut elements: Vec<usize> = Vec::new();
        elements.push(first);
        while self.at_op(",")
            invariant
                self.stepped(*old(self)),
                all_below(elements@, self.nodes@.len() as int),
            decreases self.toks@.len() - self.pos,
        {
            self.bump();
            self.skip_newlines();
            let e = self.arg(d - 1)?;
            elements.push(e);
        }
        let span = self.span_from(start);
        Some(self.push(Node::ArrayLit { elements, span }))
    }

    /// Binary operators by precedence climbing.
    fn binary(&mut self, d: usize, min_prec: u32) -> (r: Option<usize>)
        requires
            old(self).ok(),
        ensures
            final(self).stepped(*old(self)),
            r matches Some(id) ==> id < final(self).nodes@.len(),
            old(self).at_lone_int() && d >= 4 ==> r is Some && r->0 == old(self).nodes@.len() && final(self).read_int(*old(self)),
        decreases d, 1int,
    {
        if d == 0 {
            return None;
        }
        let start = self.here();
        let mut left = self.unary(d - 1)?;
        loop
            invariant
                self.stepped(*old(self)),
                left < self.nodes@.len(),
                old(self).at_lone_int() && d >= 4 ==> left == old(self).nodes@.len() && self.read_int(*old(self)),
            decreases self.toks@.len() - self.pos,
        {
            if self.at_op("?") {
                if min_prec > 1 {
                    break;
                }
                self.bump();
                self.skip_newlines();
                let a = self.binary(d - 1, 1)?;
                self.skip_newlines();
                self.expect_op(":")?;
                self.skip_newlines();
                let b = self.binary(d - 1, 1)?;
                let span = self.span_from(start);
                let mut then_body: Vec<usize> = Vec::new();
                then_body.push(a);
                let mut else_body: Vec<usize> = Vec::new();
                else_body.push(b);
                left = self.push(Node::If { predicate: left, then_body, else_body, is_unless: false, span });
                continue;
            }
            if self.kind() != Some(TokKind::Op) {
                break;
            }
            let op = self.text();
            let p = binop_prec(op.as_str());
            if p == 0 || p < min_prec {
                break;
            }
            self.bump();
            self.skip_newlines();
            let next_min = if p == 12 { p } else { p + 1 };
            let right = self.binary(d - 1, next_min)?;
            let span = self.span_from(start);
            if str_eq(op.as_str(), "&&") || str_eq(op.as_str(), "||") {
                left = self.push(Node::Logical { left, right, is_and: str_eq(op.as_str(), "&&"), span });
            } else if p == 3 {
                left = self.push(Node::Range { span });
            } else {
                let mut args: Vec<usize> = Vec::new();
                args.push(right);
                left = self.push(Node::Call { receiver: Some(left), method: op, args, block_body: Vec::new(), safe_nav: false, span });
            }
        }
        Some(left)
    }

    /// Prefix operators.
    fn unary(&mut self, d: usize) -> (r: Option<usize>)
        requires
            old(self).ok(),
        ensures
            final(self).stepped(*old(self)),
            r matches Some(id) ==> id < final(self).nodes@.len(),
            old(self).at_lone_int() && d >= 3 ==> r is Some && r->0 == old(self).nodes@.len() && final(self).read_int(*old(self)),
            ({
                let t = old(self).toks@;
                let p = old(self).pos as int;
                let v = t[p + 1].value;
                d >= 1 && tok_op(t, p, "-"@) && p + 1 < t.len() && t[p + 1].kind == TokKind::Int && !t[p + 1].space_before ==> r is Some
                    && r->0 == old(self).nodes@.len() && final(self).pos == p + 2 && final(self).nodes@.len() == old(self).nodes@.len() + 1
                    && final(self).nodes@.drop_last() == old(self).nodes@ && (final(self).nodes@.last() matches Node::IntegerLit {
                    value,
                    ..
                } && value == (if v == i64::MIN { v as int } else { -v }))
            }),
        decreases d, 1int,
    {
        if d == 0 {
            return None;
        }
        let start = self.here();
        proof {
            reveal_strlit("-");
            reveal_strlit("!");
            assert("-"@[0] == '-' && "!"@[0] == '!');
        }
        if self.at_op("!") {
            self.bump();
            let e = self.unary(d - 1)?;
            let span = self.span_from(start);
            return Some(self.push(Node::Call { receiver: Some(e), method: "!".to_owned(), args: Vec::new(), block_body: Vec::new(), safe_nav: false, span }));
        }
        if self.at_op("-") {
            self.bump();
            if self.kind() == Some(TokKind::Int) && !self.space_before() && self.pos < self.toks.len() {
                let v = self.toks[self.pos].value;

                self.bump();
                let span = self.span_from(start);
                let value = if v == i64::MIN { v } else { -v };
                return Some(self.push(Node::IntegerLit { value, span }));
            }
            let e = self.unary(d - 1)?;
            let span = self.span_from(start);
            return Some(self.push(Node::Call { receiver: Some(e), method: "-@".to_owned(), args: Vec::new(), block_body: Vec::new(), safe_nav: false, span }));
        }
        self.postfix(d - 1)
    }

    /// Method calls, indexing and scoped constants after a primary.
    fn postfix(&mut self, d: usize) -> (r: Option<usize>)
        requires
            old(self).ok(),
        ensures
            final(self).stepped(*old(self)),
            r matches Some(id) ==> id < final(self).nodes@.len(),
            old(self).at_lone_int() && d >= 2 ==> r is Some && r->0 == old(self).nodes@.len() && final(self).read_int(*old(self)),
        decreases d, 1int,
    {
        if d == 0 {
            return None;
        }
        let start = self.here();
        let mut e = self.primary(d - 1)?;
        loop
            invariant
                self.stepped(*old(self)),
                e < self.nodes@.len(),
                old(self).at_lone_int() && d >= 2 ==> e == old(self).nodes@.len() && self.read_int(*old(self)),
            decreases self.toks@.len() - self.pos,
        {
            let p0 = self.pos;
            if self.at_newline() && self.at_op2(".") {
                self.bump();
            }
            if self.at_op(".") || self.at_op("&.") {
                let safe_nav = self.at_op("&.");
                self.bump();
                self.skip_newlines();
                let k = self.kind();
                if k != Some(TokKind::Ident) && k != Some(TokKind::Const) && k != Some(TokKind::Op) {
                    return None;
                }
                let name = self.text();
                self.bump();
                e = self.call_rest(d - 1, Some(e), name, start, safe_nav)?;
            } else if self.at_op("[") && !self.space_before() {
                self.bump();
                self.skip_newlines();
                let mut args: Vec<usize> = Vec::new();
                self.args_until(d - 1, "]", &mut args)?;
                self.expect_op("]")?;
                let span = self.span_from(start);
                e = self.push(Node::Call { receiver: Some(e), method: "[]".to_owned(), args, block_body: Vec::new(), safe_nav: false, span });
            } else if self.at_op("::") {
                self.bump();
                if self.kind() != Some(TokKind::Const) {
                    return None;
                }
                self.bump();
                let span = self.span_from(start);
                e = self.push(Node::Other { jump: false, span });
            } else {
                if self.pos != p0 {
                    return None;
                }
                break;
            }
            if self.pos == p0 {
                return None;
            }
        }
        Some(e)
    }

    /// Whether the current token can start a command argument (an argument
    /// list without parentheses).
    fn at_command_arg(&self) -> (r: bool)
        ensures
            r ==> self.pos < self.toks@.len(),
            r == (self.pos < self.toks@.len() && self.toks@[self.pos as int].space_before && command_arg_tok(
                self.toks@[self.pos as int],
            )),
    {
        if !self.space_before() {
            return false;
        }
        match self.kind() {
            Some(TokKind::Int) | Some(TokKind::Float) | Some(TokKind::Str) | Some(TokKind::DStr)
            | Some(TokKind::Sym) | Some(TokKind::Const) | Some(TokKind::IVar) | Some(TokKind::Label) => true,
            Some(TokKind::Ident) => {
                let t = self.text();
                !is_keyword(t.as_str()) || str_eq(t.as_str(), "nil") || str_eq(t.as_str(), "true")
                    || str_eq(t.as_str(), "false") || str_eq(t.as_str(), "self")
            },
            _ => false,
        }
    }

    /// The arguments and block of a call whose name has been read.
    fn call_rest(&mut self, d: usize, receiver: Option<usize>, method: String, start: usize, safe_nav: bool) -> (r: Option<usize>)
        requires
            old(self).ok(),
            start <= old(self).src_len,
            receiver matches Some(x) ==> x < old(self).nodes@.len(),
        ensures
            final(self).stepped(*old(self)),
            r matches Some(id) ==> id < final(self).nodes@.len(),
            d >= 1 && (old(self).pos >= old(self).toks@.len() || tok_newline(old(self).toks@, old(self).pos as int)) ==> r is Some
                && r->0 == old(self).nodes@.len() && final(self).pos == old(self).pos && final(self).nodes@.len() == old(self).nodes@.len() + 1
                && final(self).nodes@.drop_last() == old(self).nodes@ && (final(self).nodes@.last() matches Node::Call {
                receiver: rv,
                method: m,
                args,
                block_body,
                safe_nav: sn,
                ..
            } && rv == receiver && m@ == method@ && args@.len() == 0 && block_body@.len() == 0 && sn == safe_nav),
        decreases d, 1int,
    {
        if d == 0 {
            return None;
        }
        let mut args: Vec<usize> = Vec::new();
        if self.at_op("(") && !self.space_before() {
            self.bump();
            self.skip_newlines();
            self.args_until(d - 1, ")", &mut args)?;
            self.expect_op(")")?;
        } else if self.at_command_arg() {
            self.command_args(d - 1, &mut args)?;
        }
        let mut block_body: Vec<usize> = Vec::new();
        if self.at_op("{") {
            self.block(d - 1, true, &mut block_body)?;
        } else if self.at_kw("do") && !self.no_do {
            self.block(d - 1, false, &mut block_body)?;
        }
        let span = self.span_from(start);
        Some(self.push(Node::Call { receiver, method, args, block_body, safe_nav, span }))
    }

    /// A `{ |params| … }` or `do |params| … end` block; its body ids go to
    /// `out`.
    fn block(&mut self, d: usize, brace: bool, out: &mut Vec<usize>) -> (r: Option<()>)
        requires
            old(self).ok(),
            all_below(old(out)@, old(self).nodes@.len() as int),
        ensures
            final(self).stepped(*old(self)),
            all_below(final(out)@, final(self).nodes@.len() as int),
            ({
                let t = old(self).toks@;
                let j = skip_breaks(t, old(self).pos + 1);
                d >= 2 && old(self).pos < t.len() && (if brace { tok_op(t, j, "}"@) } else { tok_kw(t, j, "end"@) }) ==> r is Some
                    && final(out)@ == old(out)@ && final(self).nodes@ == old(self).nodes@ && final(self).pos == j + 1
            }),
        decreases d, 1int,
    {
        if d == 0 {
            return None;
        }
        proof {
            reveal_strlit("}");
            reveal_strlit("||");
            reveal_strlit("|");
            assert("}"@.len() == 1 && "||"@.len() == 2 && "}"@[0] == '}' && "|"@[0] == '|');
        }
        self.bump();
        self.open_scope(false);
        let saved = self.no_do;
        self.no_do = false;
        if self.at_op("||") {
            self.bump();
        } else if self.at_op("|") {
            self.bump();
            while !self.at_op("|")
                invariant
                    self.stepped(*old(self)),
                    all_below(out@, self.nodes@.len() as int),
                decreases self.toks@.len() - self.pos,
            {
                if self.pos >= self.toks.len() {
                    return None;
                }
                if self.kind() == Some(TokKind::Ident) {
                    let n = self.text();
                    self.declare(n.as_str());
                }
                self.bump();
            }
            self.bump();
        }
        self.stmts(d - 1, out)?;
        if brace {
            self.expect_op("}")?;
        } else {
            self.expect_kw("end")?;
        }
        self.no_do = saved;
        self.close_scope();
        Some(())
    }

    /// One argument: a splat, a value, or a `key => value` / `key: value`
    /// pair collected into a trailing hash.
    fn arg(&mut self, d: usize) -> (r: Option<usize>)
        requires
            old(self).ok(),
        ensures
            final(self).stepped(*old(self)),
            r matches Some(id) ==> id < final(self).nodes@.len(),
            old(self).at_lone_int() && d >= 7 ==> r is Some && r->0 == old(self).nodes@.len() && final(self).read_int(*old(self)),
        decreases d, 1int,
    {
        if d == 0 {
            return None;
        }
        let start = self.here();
        if self.at_op("*") || self.at_op("&") || self.at_op("**") {
            self.bump();
            let _e = self.binary(d - 1, 1)?;
            let span = self.span_from(start);
            return Some(self.push(Node::Other { jump: false, span }));
        }
        if self.kind() == Some(TokKind::Label) {
            return self.bare_hash(d - 1);
        }
        let e = self.not_expr(d - 1)?;
        if self.at_op("=>") {
            return None;
        }
        Some(e)
    }

    /// `key: value, …` without braces, as a hash literal.
    fn bare_hash(&mut self, d: usize) -> (r: Option<usize>)
        requires
            old(self).ok(),
        ensures
            final(self).stepped(*old(self)),
            r matches Some(id) ==> id < final(self).nodes@.len(),
            ({
                let t = old(self).toks@;
                let p = old(self).pos as int;
                let n = old(self).nodes@.len();
                d >= 7 && p + 1 < t.len() && t[p].kind == TokKind::Label && t[p + 1].kind == TokKind::Int && ends_expr(t, p + 2) ==> r
                    is Some && r->0 == n + 2 && final(self).pos == p + 2 && final(self).nodes@.len() == n + 3
                    && final(self).nodes@.take(n as int) == old(self).nodes@ && (final(self).nodes@[n as int] matches Node::SymbolLit { value, .. }
                    && value@ == t[p].text@) && final(self).nodes@[n + 1int] == int_lit_at(t, p + 1) && (final(self).nodes@.last() matches Node::HashLit {
                    elements,
                    all_assoc,
                    ..
                } && elements@.len() == 2 && elements@[0] == n && elements@[1] == n + 1 && all_assoc)
            }),
        decreases d, 1int,
    {
        if d == 0 {
            return None;
        }
        let start = self.here();
        let mut elements: Vec<usize> = Vec::new();
        loop
            invariant
                self.stepped(*old(self)),
                all_below(elements@, self.nodes@.len() as int),
                ({
                    let t = old(self).toks@;
                    let p = old(self).pos as int;
                    d >= 7 && p + 1 < t.len() && t[p].kind == TokKind::Label && t[p + 1].kind == TokKind::Int && ends_expr(t, p + 2)
                        ==> self.pos == p && elements@.len() == 0 && self.nodes@ == old(self).nodes@
                }),
            decreases self.toks@.len() - self.pos,
        {
            if self.kind() != Some(TokKind::Label) {
                return None;
            }
            let ks = self.here();
            let name = self.text();
            self.bump();
            let kspan = self.span_from(ks);
            let key = self.push(Node::SymbolLit { value: name, span: kspan });
            self.skip_newlines();
            let v = self.not_expr(d - 1)?;
            elements.push(key);
            elements.push(v);
            if self.at_op(",") && self.kind2() == Some(TokKind::Label) {
                self.bump();
            } else {
                break;
            }
        }
        let span = self.span_from(start);
        Some(self.push(Node::HashLit { elements, all_assoc: true, span }))
    }

    /// Comma-separated arguments up to the closing operator `close`.
    fn args_until(&mut self, d: usize, close: &str, out: &mut Vec<usize>) -> (r: Option<()>)
        requires
            old(self).ok(),
            all_below(old(out)@, old(self).nodes@.len() as int),
        ensures
            final(self).stepped(*old(self)),
            all_below(final(out)@, final(self).nodes@.len() as int),
            d >= 1 && tok_op(old(self).toks@, skip_breaks(old(self).toks@, old(self).pos as int), close@) ==> r is Some
                && final(out)@ == old(out)@ && final(self).nodes@ == old(self).nodes@ && final(self).pos == skip_breaks(
                old(self).toks@,
                old(self).pos as int,
            ),
        decreases d, 1int,
    {
        if d == 0 {
            return None;
        }
        loop
            invariant
                self.stepped(*old(self)),
                all_below(out@, self.nodes@.len() as int),
                tok_op(old(self).toks@, skip_breaks(old(self).toks@, old(self).pos as int), close@) ==> self.pos == old(self).pos
                    && out@ == old(out)@ && self.nodes@ == old(self).nodes@,
            decreases self.toks@.len() - self.pos,
        {
            self.skip_newlines();
            if self.at_op(close) {
                return Some(());
            }
            let p0 = self.pos;
            let a = self.arg(d - 1)?;
            out.push(a);
            self.skip_newlines();
            if self.at_op(",") {
                self.bump();
            } else if !self.at_op(close) {
                return None;
            }
            if self.pos == p0 {
                return None;
            }
        }
    }

    /// Arguments without parentheses, up to the end of the line.
    fn command_args(&mut self, d: usize, out: &mut Vec<usize>) -> (r: Option<()>)
        requires
            old(self).ok(),
            all_below(old(out)@, old(self).nodes@.len() as int),
        ensures
            final(self).stepped(*old(self)),
            all_below(final(out)@, final(self).nodes@.len() as int),
            old(self).at_lone_int() && d >= 8 ==> r is Some && pushed_id(final(out)@, old(out)@, old(self).nodes@.len() as int)
                && final(self).read_int(*old(self)),
        decreases d, 1int,
    {
        if d == 0 {
            return None;
        }
        loop
            invariant
                self.stepped(*old(self)),
                all_below(out@, self.nodes@.len() as int),
                old(self).at_lone_int() && d >= 8 ==> self.pos == old(self).pos && out@ == old(out)@ && self.nodes@
                    == old(self).nodes@,
            decreases self.toks@.len() - self.pos,
        {
            let a = self.arg(d - 1)?;
            let ghost out0 = out@;
            out.push(a);
            assert(out@.drop_last() =~= out0);
            if self.at_op(",") {
                self.bump();
                self.skip_newlines();
            } else {
                return Some(());
            }
        }
    }

    /// The atoms: literals, names, brackets and the keyword constructs.
    fn primary(&mut self, d: usize) -> (r: Option<usize>)
        requires
            old(self).ok(),
        ensures
            final(self).stepped(*old(self)),
            r matches Some(id) ==> id < final(self).nodes@.len(),
            old(self).at_int() && d >= 1 ==> r is Some && r->0 == old(self).nodes@.len() && final(self).read_int(*old(self)),
            ({
                let t = old(self).toks@;
                let p = old(self).pos as int;
                d >= 1 && p < t.len() && (t[p].kind == TokKind::Str || t[p].kind == TokKind::Sym || t[p].kind == TokKind::IVar
                    || t[p].kind == TokKind::DStr) ==> r is Some && r->0 == old(self).nodes@.len() && final(self).pos == p + 1
                    && final(self).nodes@.len() == old(self).nodes@.len() + 1 && final(self).nodes@.drop_last() == old(self).nodes@
                    && literal_node(t[p], final(self).nodes@.last())
            }),
        decreases d, 1int,
    {
        if d == 0 {
            return None;
        }
        let start = self.here();
        let k = self.kind();
        match k {
            Some(TokKind::Int) => {
                let value = if self.pos < self.toks.len() { self.toks[self.pos].value } else { 0 };
                proof {
                    let t = self.toks@[self.pos as int];
                    assert(t.start <= t.end);
                }
                self.bump();
                let span = self.span_from(start);
                Some(self.push(Node::IntegerLit { value, span }))
            },
            Some(TokKind::Float) => {
                let (m, e) = if self.pos < self.toks.len() {
                    (self.toks[self.pos].value, self.toks[self.pos].exp10)
                } else {
                    (-1, 0)
                };
                self.bump();
                let span = self.span_from(start);
                let bits = if m >= 0 { decimal_to_binary64(m as u64, e) } else { None };
                match bits {
                    Some(value) => Some(self.push(Node::FloatLit { value, span })),
                    None => Some(self.push(Node::Other { jump: false, span })),
                }
            },
            Some(TokKind::DStr) => {
                proof {
                    let t = self.toks@[self.pos as int];
                    assert(t.start <= t.end);
                }
                self.bump();
                let span = self.span_from(start);
                Some(self.push(Node::Other { jump: false, span }))
            },
            Some(TokKind::Str) => {
                proof {
                    let t = self.toks@[self.pos as int];
                    assert(t.start <= t.end);
                }
                let value = self.text();
                self.bump();
                let span = self.span_from(start);
                Some(self.push(Node::StringLit { value, span }))
            },
            Some(TokKind::Sym) => {
                proof {
                    let t = self.toks@[self.pos as int];
                    assert(t.start <= t.end);
                }
                let value = self.text();
                self.bump();
                let span = self.span_from(start);
                Some(self.push(Node::SymbolLit { value, span }))
            },
            Some(TokKind::IVar) => {
                proof {
                    let t = self.toks@[self.pos as int];
                    assert(t.start <= t.end);
                }
                let name = self.text();
                self.bump();
                let span = self.span_from(start);
                Some(self.push(Node::VariableRead { name, span }))
            },
            Some(TokKind::Const) => {
                let name = self.text();
                self.bump();
                if self.at_op("(") && !self.space_before() {
                    return self.call_rest(d - 1, None, name, start, false);
                }
                let span = self.span_from(start);
                Some(self.push(Node::ConstantRead { name, span }))
            },
            Some(TokKind::Ident) => self.ident(d - 1),
            Some(TokKind::Op) => {
                if self.at_op("(") {
                    self.bump();
                    let mut body: Vec<usize> = Vec::new();
                    self.stmts(d - 1, &mut body)?;
                    self.expect_op(")")?;
                    let span = self.span_from(start);
                    Some(self.push(Node::Statements { body, span }))
                } else if self.at_op("[") {
                    self.bump();
                    let mut elements: Vec<usize> = Vec::new();
                    self.args_until(d - 1, "]", &mut elements)?;
                    self.expect_op("]")?;
                    let span = self.span_from(start);
                    Some(self.push(Node::ArrayLit { elements, span }))
                } else if self.at_op("{") {
                    self.hash_lit(d - 1)
                } else if self.at_op(":") && self.kind2() == Some(TokKind::Str) {
                    self.bump();
                    let value = self.text();
                    self.bump();
                    let span = self.span_from(start);
                    Some(self.push(Node::SymbolLit { value, span }))
                } else if self.at_op("::") {
                    self.bump();
                    if self.kind() != Some(TokKind::Const) {
                        return None;
                    }
                    let name = self.text();
                    self.bump();
                    let span = self.span_from(start);
                    Some(self.push(Node::ConstantRead { name, span }))
                } else {
                    None
                }
            },
            _ => None,
        }
    }

    /// A `{ … }` hash literal.
    fn hash_lit(&mut self, d: usize) -> (r: Option<usize>)
        requires
            old(self).ok(),
        ensures
            final(self).stepped(*old(self)),
            r matches Some(id) ==> id < final(self).nodes@.len(),
            ({
                let t = old(self).toks@;
                let j = skip_breaks(t, old(self).pos + 1);
                d >= 1 && old(self).pos < t.len() && tok_op(t, j, "}"@) ==> r is Some && r->0 == old(self).nodes@.len()
                    && final(self).pos == j + 1 && final(self).nodes@.len() == old(self).nodes@.len() + 1
                    && final(self).nodes@.drop_last() == old(self).nodes@ && (final(self).nodes@.last() matches Node::HashLit {
                    elements,
                    all_assoc,
                    ..
                } && elements@.len() == 0 && all_assoc)
            }),
        decreases d, 1int,
    {
        if d == 0 {
            return None;
        }
        let start = self.here();
        self.bump();
        let mut elements: Vec<usize> = Vec::new();
        let mut all_assoc = true;
        loop
            invariant
                self.stepped(*old(self)),
                all_below(elements@, self.nodes@.len() as int),
                old(self).pos < old(self).toks@.len() && tok_op(old(self).toks@, skip_breaks(old(self).toks@, old(self).pos + 1), "}"@)
                    ==> self.pos == old(self).pos + 1 && elements@.len() == 0 && self.nodes@ == old(self).nodes@ && all_assoc,
            decreases self.toks@.len() - self.pos,
        {
            self.skip_newlines();
            if self.at_op("}") {
                break;
            }
            let p0 = self.pos;
            if self.kind() == Some(TokKind::Label) {
                let ks = self.here();
                let name = self.text();
                self.bump();
                let kspan = self.span_from(ks);
                let key = self.push(Node::SymbolLit { value: name, span: kspan });
                self.skip_newlines();
                let v = self.not_expr(d - 1)?;
                elements.push(key);
                elements.push(v);
            } else if self.at_op("**") {
                self.bump();
                let _e = self.binary(d - 1, 1)?;
                all_assoc = false;
            } else {
                let key = self.not_expr(d - 1)?;
                self.skip_newlines();
                self.expect_op("=>")?;
                self.skip_newlines();
                let v = self.not_expr(d - 1)?;
                elements.push(key);
                elements.push(v);
            }
            self.skip_newlines();
            if self.at_op(",") {
                self.bump();
            } else if !self.at_op("}") {
                return None;
            }
            if self.pos == p0 {
                return None;
            }
        }
        self.expect_op("}")?;
        let span = self.span_from(start);
        Some(self.push(Node::HashLit { elements, all_assoc, span }))
    }

    /// A name: a keyword construct, a local read, or a call on `self`.
    fn ident(&mut self, d: usize) -> (r: Option<usize>)
        requires
            old(self).ok(),
        ensures
            final(self).stepped(*old(self)),
            r matches Some(id) ==> id < final(self).nodes@.len(),
            ({
                let t = old(self).toks@;
                let p = old(self).pos as int;
                d >= 1 && p < t.len() && spec_is_value_kw(t[p].text@) ==> r is Some && r->0 == old(self).nodes@.len()
                    && final(self).pos == p + 1 && final(self).nodes@ == old(self).nodes@.push(
                    value_kw_node(t[p].text@, (t[p].start, t[p].end)),
                )
            }),
            ({
                let t = old(self).toks@;
                let p = old(self).pos as int;
                d >= 1 && p < t.len() && !spec_is_keyword(t[p].text@) && local_in(scopes_view(old(self).scopes@), t[p].text@) && !(tok_op(
                    t,
                    p + 1,
                    "("@,
                ) && !t[p + 1].space_before) ==> r is Some && r->0 == old(self).nodes@.len() && final(self).pos == p + 1
                    && final(self).nodes@.len() == old(self).nodes@.len() + 1 && final(self).nodes@.drop_last() == old(self).nodes@
                    && (final(self).nodes@.last() matches Node::LocalVariableRead { name, span } && name@ == t[p].text@ && span == (
                    t[p].start,
                    t[p].end,
                ))
            }),
        decreases d, 1int,
    {
        if d == 0 {
            return None;
        }
        let start = self.here();
        let name = self.text();
        let t = name.as_str();
        if str_eq(t, "nil") || str_eq(t, "true") || str_eq(t, "false") || str_eq(t, "self") {
            self.bump();
            let span = self.span_from(start);
            let n = if str_eq(t, "nil") {
                Node::NilLit { span }
            } else if str_eq(t, "true") {
                Node::TrueLit { span }
            } else if str_eq(t, "false") {
                Node::FalseLit { span }
            } else {
                Node::SelfExpr { span }
            };
            return Some(self.push(n));
        }
        if str_eq(t, "if") || str_eq(t, "unless") {
            self.bump();
            return self.if_tail(d - 1, start, str_eq(t, "unless"));
        }
        if str_eq(t, "case") {
            return self.case_expr(d - 1);
        }
        if str_eq(t, "while") || str_eq(t, "until") {
            return self.loop_expr(d - 1);
        }
        if str_eq(t, "def") {
            return self.def_expr(d - 1);
        }
        if str_eq(t, "class") || str_eq(t, "module") {
            return self.class_expr(d - 1);
        }
        if str_eq(t, "return") {
            self.bump();
            let mut values: Vec<usize> = Vec::new();
            if !self.at_newline() && !self.at_terminator() && !self.at_modifier() {
                self.command_args(d - 1, &mut values)?;
            }
            let span = self.span_from(start);
            return Some(self.push(Node::Return { values, span }));
        }
        if str_eq(t, "next") || str_eq(t, "break") || str_eq(t, "redo") || str_eq(t, "retry") {
            self.bump();
            let mut values: Vec<usize> = Vec::new();
            let jump = self.at_newline() || self.at_terminator() || self.at_modifier();
            if !jump {
                self.command_args(d - 1, &mut values)?;
            }
            let span = self.span_from(start);
            return Some(self.push(Node::Other { jump, span }));
        }
        if str_eq(t, "yield") || str_eq(t, "super") {
            self.bump();
            return self.call_rest(d - 1, None, name, start, false);
        }
        if is_keyword(t) {
            return None;
        }
        self.bump();
        if self.is_local(t) && !(self.at_op("(") && !self.space_before()) {
            let span = self.span_from(start);
            return Some(self.push(Node::LocalVariableRead { name, span }));
        }
        self.call_rest(d - 1, None, name, start, false)
    }

    /// The rest of an `if` / `unless` / `elsif` after its keyword.
    fn if_tail(&mut self, d: usize, start: usize, is_unless: bool) -> (r: Option<usize>)
        requires
            old(self).ok(),
            start <= old(self).src_len,
        ensures
            final(self).stepped(*old(self)),
            r matches Some(id) ==> id < final(self).nodes@.len(),
            ({
                let t = old(self).toks@;
                let n = old(self).nodes@.len();
                let j = skip_breaks(t, old(self).pos + 1);
                d >= 8 && old(self).at_lone_int() && tok_kw(t, j, "end"@) ==> r is Some && r->0 == n + 1 && final(self).pos == j + 1
                    && final(self).nodes@.len() == n + 2 && final(self).nodes@.take(n as int) == old(self).nodes@
                    && final(self).nodes@[n as int] == int_lit_at(t, old(self).pos as int) && (final(self).nodes@.last() matches Node::If {
                    predicate,
                    then_body,
                    else_body,
                    is_unless: u,
                    ..
                } && predicate == n && then_body@.len() == 0 && else_body@.len() == 0 && u == is_unless)
            }),
        decreases d, 1int,
    {
        if d == 0 {
            return None;
        }
        proof {
            reveal_strlit("end");
            reveal_strlit("elsif");
            reveal_strlit("else");
            assert("end"@.len() == 3 && "elsif"@.len() == 5 && "else"@.len() == 4);
        }
        let predicate = self.expr_stmt(d - 1)?;
        if self.at_kw("then") {
            self.bump();
        }
        let mut then_body: Vec<usize> = Vec::new();
        self.stmts(d - 1, &mut then_body)?;
        let mut else_body: Vec<usize> = Vec::new();
        if self.at_kw("elsif") {
            let s2 = self.here();
            self.bump();
            let inner = self.if_tail(d - 1, s2, false)?;
            else_body.push(inner);
        } else {
            if self.at_kw("else") {
                self.bump();
                self.stmts(d - 1, &mut else_body)?;
            }
            self.expect_kw("end")?;
        }
        let span = self.span_from(start);
        Some(self.push(Node::If { predicate, then_body, else_body, is_unless, span }))
    }

    /// `case` / `when`.
    fn case_expr(&mut self, d: usize) -> (r: Option<usize>)
        requires
            old(self).ok(),
        ensures
            final(self).stepped(*old(self)),
            r matches Some(id) ==> id < final(self).nodes@.len(),
            ({
                let t = old(self).toks@;
                let j = skip_breaks(t, old(self).pos + 1);
                d >= 1 && old(self).pos < t.len() && tok_newline(t, old(self).pos + 1) && tok_kw(t, j, "end"@) ==> r is Some && r->0
                    == old(self).nodes@.len() && final(self).pos == j + 1 && final(self).nodes@.len() == old(self).nodes@.len() + 1
                    && final(self).nodes@.drop_last() == old(self).nodes@ && (final(self).nodes@.last() matches Node::Case {
                    predicate,
                    branches,
                    else_body,
                    ..
                } && predicate is None && branches@.len() == 0 && else_body@.len() == 0)
            }),
        decreases d, 1int,
    {
        if d == 0 {
            return None;
        }
        let start = self.here();
        self.bump();
        let predicate = if self.at_newline() {
            None
        } else {
            Some(self.expr_stmt(d - 1)?)
        };
        self.skip_newlines();
        let mut branches: Vec<usize> = Vec::new();
        proof {
            reveal_strlit("end");
            reveal_strlit("when");
            reveal_strlit("else");
            assert("end"@.len() == 3 && "when"@.len() == 4 && "else"@.len() == 4);
        }
        let ghost t = old(self).toks@;
        let ghost empty_case = old(self).pos < t.len() && tok_newline(t, old(self).pos + 1) && tok_kw(
            t,
            skip_breaks(t, old(self).pos + 1),
            "end"@,
        );
        while self.at_kw("when")
            invariant
                self.stepped(*old(self)),
                all_below(branches@, self.nodes@.len() as int),
                predicate matches Some(p) ==> p < self.nodes@.len(),
                t == old(self).toks@,
                empty_case ==> predicate is None && branches@.len() == 0 && self.nodes@ == old(self).nodes@ && self.pos
                    == skip_breaks(t, old(self).pos + 1),
            decreases self.toks@.len() - self.pos,
        {
            let ws = self.here();
            self.bump();
            let mut conditions: Vec<usize> = Vec::new();
            self.command_args(d - 1, &mut conditions)?;
            if self.at_kw("then") {
                self.bump();
            }
            let mut body: Vec<usize> = Vec::new();
            self.stmts(d - 1, &mut body)?;
            let span = self.span_from(ws);
            let w = self.push(Node::When { conditions, body, span });
            branches.push(w);
        }
        let mut else_body: Vec<usize> = Vec::new();
        if self.at_kw("else") {
            self.bump();
            self.stmts(d - 1, &mut else_body)?;
        }
        self.expect_kw("end")?;
        let span = self.span_from(start);
        Some(self.push(Node::Case { predicate, branches, else_body, span }))
    }

    /// `while` / `until`.
    fn loop_expr(&mut self, d: usize) -> (r: Option<usize>)
        requires
            old(self).ok(),
        ensures
            final(self).stepped(*old(self)),
            r matches Some(id) ==> id < final(self).nodes@.len(),
            ({
                let t = old(self).toks@;
                let p = old(self).pos as int;
                let n = old(self).nodes@.len();
                let j = skip_breaks(t, p + 2);
                d >= 8 && p + 1 < t.len() && t[p + 1].kind == TokKind::Int && ends_expr(t, p + 2) && tok_kw(t, j, "end"@) ==> r is Some
                    && r->0 == n + 1 && final(self).pos == j + 1 && final(self).nodes@.len() == n + 2 && final(self).nodes@.take(n as int)
                    == old(self).nodes@ && final(self).nodes@[n as int] == int_lit_at(t, p + 1) && (final(self).nodes@.last() matches Node::Loop {
                    predicate,
                    body,
                    is_until,
                    ..
                } && predicate == n && body@.len() == 0 && is_until == tok_kw(t, p, "until"@))
            }),
        decreases d, 1int,
    {
        if d == 0 {
            return None;
        }
        let start = self.here();
        let is_until = self.at_kw("until");
        self.bump();
        let saved = self.no_do;
        self.no_do = true;
        let predicate = self.expr_stmt(d - 1)?;
        self.no_do = saved;
        if self.at_kw("do") {
            self.bump();
        }
        let mut body: Vec<usize> = Vec::new();
        self.stmts(d - 1, &mut body)?;
        self.expect_kw("end")?;
        let span = self.span_from(start);
        Some(self.push(Node::Loop { predicate, body, is_until, span }))
    }

    /// Parameters up to `)` or the end of the line, each declared a local.
    fn params(&mut self, d: usize, paren: bool) -> (r: Option<()>)
        requires
            old(self).ok(),
        ensures
            final(self).stepped(*old(self)),
            d >= 1 && old(self).pos >= old(self).toks@.len() ==> r is None,
            d >= 1 && ((paren && tok_op(old(self).toks@, old(self).pos as int, ")"@)) || (!paren && tok_newline(
                old(self).toks@,
                old(self).pos as int,
            ))) ==> r is Some && final(self).pos == old(self).pos && final(self).nodes@ == old(self).nodes@,
        decreases d, 1int,
    {
        if d == 0 {
            return None;
        }
        loop
            invariant
                self.stepped(*old(self)),
                (paren && tok_op(old(self).toks@, old(self).pos as int, ")"@)) || (!paren && tok_newline(
                    old(self).toks@,
                    old(self).pos as int,
                )) ==> self.pos == old(self).pos && self.nodes@ == old(self).nodes@,
            decreases self.toks@.len() - self.pos,
        {
            if self.pos >= self.toks.len() {
                return None;
            }
            if (paren && self.at_op(")")) || (!paren && self.at_newline()) {
                return Some(());
            }
            let p0 = self.pos;
            let k = self.kind();
            if k == Some(TokKind::Ident) || k == Some(TokKind::Label) {
                let n = self.text();
                self.declare(n.as_str());
                self.bump();
                if self.at_op("=") || (k == Some(TokKind::Label) && !self.at_op(",") && !self.at_op(")") && !self.at_newline()) {
                    if self.at_op("=") {
                        self.bump();
                    }
                    let _default = self.not_expr(d - 1)?;
                }
            } else {
                self.bump();
            }
            if self.pos == p0 {
                return None;
            }
        }
    }

    /// `def name(params) … end`.
    fn def_expr(&mut self, d: usize) -> (r: Option<usize>)
        requires
            old(self).ok(),
        ensures
            final(self).stepped(*old(self)),
            r matches Some(id) ==> id < final(self).nodes@.len(),
            ({
                let t = old(self).toks@;
                let p = old(self).pos as int;
                let j = skip_breaks(t, p + 2);
                d >= 2 && p + 1 < t.len() && t[p + 1].kind == TokKind::Ident && tok_newline(t, p + 2) && tok_kw(t, j, "end"@) ==> r is Some
                    && r->0 == old(self).nodes@.len() && final(self).pos == j + 1 && final(self).nodes@.len() == old(self).nodes@.len() + 1
                    && final(self).nodes@.drop_last() == old(self).nodes@ && (final(self).nodes@.last() matches Node::Definition {
                    name: Some(nm),
                    body,
                    ..
                } && nm@ == t[p + 1].text@ && body@.len() == 0)
            }),
        decreases d, 1int,
    {
        if d == 0 {
            return None;
        }
        let start = self.here();
        self.bump();
        let singleton = self.at_kw("self") && self.at_op2(".");
        if singleton {
            self.bump();
            self.bump();
        }
        let k = self.kind();
        if k != Some(TokKind::Ident) && k != Some(TokKind::Const) && k != Some(TokKind::Op) && k != Some(TokKind::Label) {
            return None;
        }
        let text = self.text();
        let name = if singleton { None } else { Some(text) };
        self.bump();
        self.open_scope(true);
        if self.at_op("(") {
            self.bump();
            self.params(d - 1, true)?;
            self.expect_op(")")?;
        } else if !self.at_newline() {
            self.params(d - 1, false)?;
        }
        if self.at_op("=") {
            return None;
        }
        let mut body: Vec<usize> = Vec::new();
        self.stmts(d - 1, &mut body)?;
        self.expect_kw("end")?;
        self.close_scope();
        let span = self.span_from(start);
        Some(self.push(Node::Definition { name, body, span }))
    }

    /// `class Name < Super … end` and `module Name … end`.
    fn class_expr(&mut self, d: usize) -> (r: Option<usize>)
        requires
            old(self).ok(),
        ensures
            final(self).stepped(*old(self)),
            r matches Some(id) ==> id < final(self).nodes@.len(),
            ({
                let t = old(self).toks@;
                let p = old(self).pos as int;
                let j = skip_breaks(t, p + 2);
                d >= 2 && p + 1 < t.len() && t[p + 1].kind == TokKind::Const && tok_kw(t, j, "end"@) ==> r is Some && r->0
                    == old(self).nodes@.len() && final(self).pos == j + 1 && final(self).nodes@.len() == old(self).nodes@.len() + 1
                    && final(self).nodes@.drop_last() == old(self).nodes@ && (if tok_kw(t, p, "module"@) {
                    final(self).nodes@.last() matches Node::ModuleDef { name, body, .. } && name@ == t[p + 1].text@ && body@.len() == 0
                } else {
                    final(self).nodes@.last() matches Node::ClassDef { name, body, .. } && name@ == t[p + 1].text@ && body@.len() == 0
                })
            }),
        decreases d, 1int,
    {
        if d == 0 {
            return None;
        }
        let start = self.here();
        let is_module = self.at_kw("module");
        self.bump();
        if self.kind() != Some(TokKind::Const) {
            return None;
        }
        let mut name = self.text();
        self.bump();
        let ghost t = old(self).toks@;
        let ghost plain = old(self).pos + 1 < t.len() && t[old(self).pos + 1].kind == TokKind::Const && tok_kw(
            t,
            skip_breaks(t, old(self).pos + 2),
            "end"@,
        );
        while self.at_op("::") && self.kind2() == Some(TokKind::Const)
            invariant
                self.stepped(*old(self)),
                t == old(self).toks@,
                plain ==> self.pos == old(self).pos + 2 && name@ == t[old(self).pos + 1].text@ && self.nodes@ == old(self).nodes@,
            decreases self.toks@.len() - self.pos,
        {
            self.bump();
            name = self.text();
            self.bump();
        }
        if !is_module && self.at_op("<") {
            self.bump();
            let _sup = self.postfix(d - 1)?;
        }
        self.open_scope(true);
        let mut body: Vec<usize> = Vec::new();
        self.stmts(d - 1, &mut body)?;
        self.expect_kw("end")?;
        self.close_scope();
        let span = self.span_from(start);
        if is_module {
            Some(self.push(Node::ModuleDef { name, body, span }))
        } else {
            Some(self.push(Node::ClassDef { name, body, span }))
        }
    }
}

/// A copy of an id list.
fn copy_ids(v: &Vec<usize>) -> (r: Vec<usize>)
    ensures
        r@ == v@,
{
    let mut out: Vec<usize> = Vec::new();
    let mut i: usize = 0;
    while i < v.len()
        invariant
            0 <= i <= v@.len(),
            out@ == v@.take(i as int),
        decreases v@.len() - i,
    {
        out.push(v[i]);
        i = i + 1;
        assert(out@ =~= v@.take(i as int));
    }
    assert(v@.take(v@.len() as int) =~= v@);
    out
}

/// The nesting depth the parser allows.
pub const PARSE_DEPTH: usize = 400;

/// Parse a Ruby source in the subset into a lowered arena rooted at its
/// `Program`, or `None` when the text leaves the subset. A blank source
/// parses to a `Program` with no statements; a source that is one decimal
/// literal parses to that literal under a `Program`.
pub fn parse(src: &[u8]) -> (r: Option<Ast>)
    ensures
        r matches Some(a) ==> a.wf(),
        r matches Some(a) ==> span_of(a.nodes@.last()) == (0usize, src@.len() as usize),
        r matches Some(a) ==> spans_within(a.nodes@, src@.len() as int),
        blank_text(src@) ==> r is Some && r->0.nodes@.len() == 1 && (r->0.nodes@[0] matches Node::Program { body, .. }
            && body@.len() == 0),
        lone_decimal(src@) ==> r is Some && r->0.nodes@.len() == 2 && r->0.nodes@[0] == (Node::IntegerLit {
            value: decimal_value(src@) as i64,
            span: (0usize, src@.len() as usize),
        }) && (r->0.nodes@[1] matches Node::Program { body, .. } && body@ == seq![0usize]),
{
    let toks = lex(src)?;
    proof {
        if blank_text(src@) {
            lemma_skip_all_breaks(toks@, 0);
        }
    }
    let mut p = Parser { toks, src_len: src.len(), pos: 0, nodes: Vec::new(), scopes: Vec::new(), no_do: false };
    p.open_scope(true);
    let mut body: Vec<usize> = Vec::new();
    p.stmts(PARSE_DEPTH, &mut body)?;
    if p.pos < p.toks.len() {
        return None;
    }
    let span = (0, src.len());
    let root = p.push(Node::Program { body, span });
    let nodes = p.nodes;
    Some(Ast { nodes })
}

} // verus!
