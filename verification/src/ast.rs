//! The lowered syntax tree the flow passes walk: an arena of nodes in which
//! every node's children come before it, so that a walk from the root always
//! moves to smaller ids.
use vstd::prelude::*;

verus! {

/// A byte range `[start, end)` of the source.
pub type Span = (usize, usize);

/// One lowered syntax node. Child fields hold arena ids.
#[derive(Debug)]
pub enum Node {
    /// The whole file.
    Program { body: Vec<usize>, span: Span },
    /// A parenthesised or `begin`-less statement group.
    Statements { body: Vec<usize>, span: Span },
    IntegerLit { value: i64, span: Span },
    /// A float literal, by the bits of its binary64 value.
    FloatLit { value: u64, span: Span },
    StringLit { value: String, span: Span },
    SymbolLit { value: String, span: Span },
    NilLit { span: Span },
    TrueLit { span: Span },
    FalseLit { span: Span },
    SelfExpr { span: Span },
    /// `[a, b]`.
    ArrayLit { elements: Vec<usize>, span: Span },
    /// `{ k => v, … }` flattened to `k, v, …`; `all_assoc` is false when an
    /// element is not a plain pair (a `**` splat).
    HashLit { elements: Vec<usize>, all_assoc: bool, span: Span },
    LocalVariableRead { name: String, span: Span },
    LocalVariableWrite { name: String, value: usize, span: Span },
    /// `x op= v`.
    LocalVariableOpWrite { name: String, op: String, value: usize, span: Span },
    /// `a, b = v`.
    MultiWrite { targets: Vec<String>, value: usize, span: Span },
    /// `@x`.
    VariableRead { name: String, span: Span },
    /// `@x = v`.
    InstanceVariableWrite { name: String, value: usize, span: Span },
    ConstantRead { name: String, span: Span },
    /// A method call; `block_body` is the body of a `do`/`{}` block.
    Call {
        receiver: Option<usize>,
        method: String,
        args: Vec<usize>,
        block_body: Vec<usize>,
        safe_nav: bool,
        span: Span,
    },
    /// `a && b`, `a || b`, `a and b`, `a or b`.
    Logical { left: usize, right: usize, is_and: bool, span: Span },
    Return { values: Vec<usize>, span: Span },
    /// `if`/`unless`, statement or modifier form.
    If {
        predicate: usize,
        then_body: Vec<usize>,
        else_body: Vec<usize>,
        is_unless: bool,
        span: Span,
    },
    /// `case`/`when`.
    Case { predicate: Option<usize>, branches: Vec<usize>, else_body: Vec<usize>, span: Span },
    /// One `when` clause.
    When { conditions: Vec<usize>, body: Vec<usize>, span: Span },
    /// `while`/`until`.
    Loop { predicate: usize, body: Vec<usize>, is_until: bool, span: Span },
    /// `def name`; a singleton `def self.name` has no name.
    Definition { name: Option<String>, body: Vec<usize>, span: Span },
    ClassDef { name: String, body: Vec<usize>, span: Span },
    ModuleDef { name: String, body: Vec<usize>, span: Span },
    /// A range literal `a..b` / `a...b`; its operands are not kept.
    Range { span: Span },
    /// Anything else; `jump` marks an argument-less `next`/`break`.
    Other { jump: bool, span: Span },
}

/// The span of a node.
pub open spec fn span_of(n: Node) -> Span {
    match n {
        Node::Program { span, .. } => span,
        Node::Statements { span, .. } => span,
        Node::IntegerLit { span, .. } => span,
        Node::FloatLit { span, .. } => span,
        Node::StringLit { span, .. } => span,
        Node::SymbolLit { span, .. } => span,
        Node::NilLit { span } => span,
        Node::TrueLit { span } => span,
        Node::FalseLit { span } => span,
        Node::SelfExpr { span } => span,
        Node::ArrayLit { span, .. } => span,
        Node::HashLit { span, .. } => span,
        Node::LocalVariableRead { span, .. } => span,
        Node::LocalVariableWrite { span, .. } => span,
        Node::LocalVariableOpWrite { span, .. } => span,
        Node::MultiWrite { span, .. } => span,
        Node::VariableRead { span, .. } => span,
        Node::InstanceVariableWrite { span, .. } => span,
        Node::ConstantRead { span, .. } => span,
        Node::Call { span, .. } => span,
        Node::Logical { span, .. } => span,
        Node::Return { span, .. } => span,
        Node::If { span, .. } => span,
        Node::Case { span, .. } => span,
        Node::When { span, .. } => span,
        Node::Loop { span, .. } => span,
        Node::Definition { span, .. } => span,
        Node::ClassDef { span, .. } => span,
        Node::ModuleDef { span, .. } => span,
        Node::Range { span } => span,
        Node::Other { span, .. } => span,
    }
}

/// Every child id of a node.
pub open spec fn children(n: Node) -> Seq<usize> {
    match n {
        Node::Program { body, .. } => body@,
        Node::Statements { body, .. } => body@,
        Node::ArrayLit { elements, .. } => elements@,
        Node::HashLit { elements, .. } => elements@,
        Node::LocalVariableWrite { value, .. } => seq![value],
        Node::LocalVariableOpWrite { value, .. } => seq![value],
        Node::MultiWrite { value, .. } => seq![value],
        Node::InstanceVariableWrite { value, .. } => seq![value],
        Node::Call { receiver, args, block_body, .. } => match receiver {
            Some(r) => seq![r] + args@ + block_body@,
            None => args@ + block_body@,
        },
        Node::Logical { left, right, .. } => seq![left, right],
        Node::Return { values, .. } => values@,
        Node::If { predicate, then_body, else_body, .. } => seq![predicate] + then_body@
            + else_body@,
        Node::Case { predicate, branches, else_body, .. } => match predicate {
            Some(p) => seq![p] + branches@ + else_body@,
            None => branches@ + else_body@,
        },
        Node::When { conditions, body, .. } => conditions@ + body@,
        Node::Loop { predicate, body, .. } => seq![predicate] + body@,
        Node::Definition { body, .. } => body@,
        Node::ClassDef { body, .. } => body@,
        Node::ModuleDef { body, .. } => body@,
        _ => Seq::empty(),
    }
}

/// Every child field of a node is below `bound`, field by field.
pub open spec fn fields_below(n: Node, bound: int) -> bool {
    match n {
        Node::Program { body, .. } => all_below(body@, bound),
        Node::Statements { body, .. } => all_below(body@, bound),
        Node::ArrayLit { elements, .. } => all_below(elements@, bound),
        Node::HashLit { elements, .. } => all_below(elements@, bound),
        Node::LocalVariableWrite { value, .. } => value < bound,
        Node::LocalVariableOpWrite { value, .. } => value < bound,
        Node::MultiWrite { value, .. } => value < bound,
        Node::InstanceVariableWrite { value, .. } => value < bound,
        Node::Call { receiver, args, block_body, .. } => all_below(args@, bound) && all_below(
            block_body@,
            bound,
        ) && (receiver matches Some(r) ==> r < bound),
        Node::Logical { left, right, .. } => left < bound && right < bound,
        Node::Return { values, .. } => all_below(values@, bound),
        Node::If { predicate, then_body, else_body, .. } => predicate < bound && all_below(
            then_body@,
            bound,
        ) && all_below(else_body@, bound),
        Node::Case { predicate, branches, else_body, .. } => all_below(branches@, bound)
            && all_below(else_body@, bound) && (predicate matches Some(p) ==> p < bound),
        Node::When { conditions, body, .. } => all_below(conditions@, bound) && all_below(
            body@,
            bound,
        ),
        Node::Loop { predicate, body, .. } => predicate < bound && all_below(body@, bound),
        Node::Definition { body, .. } => all_below(body@, bound),
        Node::ClassDef { body, .. } => all_below(body@, bound),
        Node::ModuleDef { body, .. } => all_below(body@, bound),
        _ => true,
    }
}

/// The children of a node are below `bound` exactly when each of its child
/// fields is.
pub proof fn lemma_fields_below(n: Node, bound: int)
    ensures
        fields_below(n, bound) <==> all_below(children(n), bound),
{
    let c = children(n);
    match n {
        Node::Call { receiver, args, block_body, .. } => {
            let off: int = if receiver is Some { 1 } else { 0 };
            assert forall|k: int| 0 <= k < args@.len() implies c[off + k] == args@[k] by {}
            assert forall|k: int| 0 <= k < block_body@.len() implies c[off + args@.len() + k] == block_body@[k] by {}
            if receiver is Some {
                assert(c[0] == receiver->Some_0);
            }
            if fields_below(n, bound) {
                assert forall|k: int| 0 <= k < c.len() implies c[k] < bound by {
                    if k < off {
                    } else if k < off + args@.len() {
                        assert(c[k] == args@[k - off]);
                    } else {
                        assert(c[k] == block_body@[k - off - args@.len()]);
                    }
                }
            }
            if all_below(c, bound) {
                assert forall|k: int| 0 <= k < args@.len() implies args@[k] < bound by {
                    assert(c[off + k] == args@[k]);
                }
                assert forall|k: int| 0 <= k < block_body@.len() implies block_body@[k] < bound by {
                    assert(c[off + args@.len() + k] == block_body@[k]);
                }
            }
        },
        Node::If { predicate, then_body, else_body, .. } => {
            if fields_below(n, bound) {
                assert forall|k: int| 0 <= k < c.len() implies c[k] < bound by {
                    if k == 0 {
                    } else if k < 1 + then_body@.len() {
                        assert(c[k] == then_body@[k - 1]);
                    } else {
                        assert(c[k] == else_body@[k - 1 - then_body@.len()]);
                    }
                }
            }
            if all_below(c, bound) {
                assert(c[0] == predicate);
                assert forall|k: int| 0 <= k < then_body@.len() implies then_body@[k] < bound by {
                    assert(c[1 + k] == then_body@[k]);
                }
                assert forall|k: int| 0 <= k < else_body@.len() implies else_body@[k] < bound by {
                    assert(c[1 + then_body@.len() + k] == else_body@[k]);
                }
            }
        },
        Node::Case { predicate, branches, else_body, .. } => {
            let off: int = if predicate is Some { 1 } else { 0 };
            if fields_below(n, bound) {
                assert forall|k: int| 0 <= k < c.len() implies c[k] < bound by {
                    if k < off {
                    } else if k < off + branches@.len() {
                        assert(c[k] == branches@[k - off]);
                    } else {
                        assert(c[k] == else_body@[k - off - branches@.len()]);
                    }
                }
            }
            if all_below(c, bound) {
                if predicate is Some {
                    assert(c[0] == predicate->Some_0);
                }
                assert forall|k: int| 0 <= k < branches@.len() implies branches@[k] < bound by {
                    assert(c[off + k] == branches@[k]);
                }
                assert forall|k: int| 0 <= k < else_body@.len() implies else_body@[k] < bound by {
                    assert(c[off + branches@.len() + k] == else_body@[k]);
                }
            }
        },
        Node::When { conditions, body, .. } => {
            if fields_below(n, bound) {
                assert forall|k: int| 0 <= k < c.len() implies c[k] < bound by {
                    if k < conditions@.len() {
                        assert(c[k] == conditions@[k]);
                    } else {
                        assert(c[k] == body@[k - conditions@.len()]);
                    }
                }
            }
            if all_below(c, bound) {
                assert forall|k: int| 0 <= k < conditions@.len() implies conditions@[k] < bound by {
                    assert(c[k] == conditions@[k]);
                }
                assert forall|k: int| 0 <= k < body@.len() implies body@[k] < bound by {
                    assert(c[conditions@.len() + k] == body@[k]);
                }
            }
        },
        Node::Loop { predicate, body, .. } => {
            if fields_below(n, bound) {
                assert forall|k: int| 0 <= k < c.len() implies c[k] < bound by {
                    if k > 0 {
                        assert(c[k] == body@[k - 1]);
                    }
                }
            }
            if all_below(c, bound) {
                assert(c[0] == predicate);
                assert forall|k: int| 0 <= k < body@.len() implies body@[k] < bound by {
                    assert(c[1 + k] == body@[k]);
                }
            }
        },
        Node::Logical { left, right, .. } => {
            if all_below(c, bound) {
                assert(c[0] == left);
                assert(c[1] == right);
            }
        },
        Node::LocalVariableWrite { value, .. } => {
            if all_below(c, bound) {
                assert(c[0] == value);
            }
        },
        Node::LocalVariableOpWrite { value, .. } => {
            if all_below(c, bound) {
                assert(c[0] == value);
            }
        },
        Node::MultiWrite { value, .. } => {
            if all_below(c, bound) {
                assert(c[0] == value);
            }
        },
        Node::InstanceVariableWrite { value, .. } => {
            if all_below(c, bound) {
                assert(c[0] == value);
            }
        },
        _ => {},
    }
}

/// Every id in `ids` is below `bound`.
pub open spec fn all_below(ids: Seq<usize>, bound: int) -> bool {
    forall|k: int| 0 <= k < ids.len() ==> ids[k] < bound
}

/// The node at every id has only children of smaller ids, and a well-formed
/// span.
pub open spec fn nodes_wf(nodes: Seq<Node>) -> bool {
    forall|i: int|
        0 <= i < nodes.len() ==> {
            &&& #[trigger] all_below(children(nodes[i]), i)
            &&& span_of(nodes[i]).0 <= span_of(nodes[i]).1
        }
}

/// Every node's span ends within the first `len` bytes.
pub open spec fn spans_within(nodes: Seq<Node>, len: int) -> bool {
    forall|i: int| 0 <= i < nodes.len() ==> #[trigger] span_of(nodes[i]).1 <= len
}

/// A lowered program: the arena, rooted at its last node, a `Program`.
pub struct Ast {
    pub nodes: Vec<Node>,
}

impl Ast {
    /// The arena is ordered children-first and its last node is the
    /// `Program` root.
    pub open spec fn wf(&self) -> bool {
        &&& nodes_wf(self.nodes@)
        &&& self.nodes@.len() > 0
        &&& self.nodes@.last() is Program
    }

    /// The root id.
    pub fn root(&self) -> (r: usize)
        requires
            self.wf(),
        ensures
            r == self.nodes@.len() - 1,
    {
        self.nodes.len() - 1
    }

    /// The node at `id`.
    pub fn get(&self, id: usize) -> (r: &Node)
        requires
            id < self.nodes@.len(),
        ensures
            *r == self.nodes@[id as int],
    {
        &self.nodes[id]
    }

    /// The number of nodes.
    pub fn len(&self) -> (r: usize)
        ensures
            r == self.nodes@.len(),
    {
        self.nodes.len()
    }
}

/// The span of a node.
pub fn node_span(n: &Node) -> (r: Span)
    ensures
        r == span_of(*n),
{
    match n {
        Node::Program { span, .. } => *span,
        Node::Statements { span, .. } => *span,
        Node::IntegerLit { span, .. } => *span,
        Node::FloatLit { span, .. } => *span,
        Node::StringLit { span, .. } => *span,
        Node::SymbolLit { span, .. } => *span,
        Node::NilLit { span } => *span,
        Node::TrueLit { span } => *span,
        Node::FalseLit { span } => *span,
        Node::SelfExpr { span } => *span,
        Node::ArrayLit { span, .. } => *span,
        Node::HashLit { span, .. } => *span,
        Node::LocalVariableRead { span, .. } => *span,
        Node::LocalVariableWrite { span, .. } => *span,
        Node::LocalVariableOpWrite { span, .. } => *span,
        Node::MultiWrite { span, .. } => *span,
        Node::VariableRead { span, .. } => *span,
        Node::InstanceVariableWrite { span, .. } => *span,
        Node::ConstantRead { span, .. } => *span,
        Node::Call { span, .. } => *span,
        Node::Logical { span, .. } => *span,
        Node::Return { span, .. } => *span,
        Node::If { span, .. } => *span,
        Node::Case { span, .. } => *span,
        Node::When { span, .. } => *span,
        Node::Loop { span, .. } => *span,
        Node::Definition { span, .. } => *span,
        Node::ClassDef { span, .. } => *span,
        Node::ModuleDef { span, .. } => *span,
        Node::Range { span } => *span,
        Node::Other { span, .. } => *span,
    }
}

} // verus!
