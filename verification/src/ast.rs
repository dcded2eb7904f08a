//! The syntax tree, stored in an arena: every node lives in the `Ast` and is
//! named by its `NodeId`, the index at which it was added. A node's children
//! are always added before it, so their ids are smaller.
//!
//! The grammar is stated here as a relation between a node and the tokens it
//! was read from (`node_ok`): each node carries, in ghost state, the tokens
//! that spell it, and the rule of its kind says how they are made of the
//! tokens of its children. The parser establishes the rules for every node.

use vstd::prelude::*;

use crate::lexer::{Keyword, Symbol, TokenView};
use crate::source::Span;
use crate::text::decimal;

verus! {

#[derive(Debug, Clone, Copy, PartialEq, Eq, Structural)]
pub struct NodeId(pub usize);

#[derive(Debug, Clone)]
pub struct Node {
    pub kind: NodeKind,
    pub span: Span,
}

#[derive(Debug, Clone)]
pub enum NodeKind {
    Block { nodes: Vec<NodeId> },
    /// A number literal, as written.
    Number(String),
    String(String),
    Boolean(bool),
    Nil,
    Identifier(String),
    Unary { op: UnaryOp, right: NodeId },
    Binary { op: BinaryOp, left: NodeId, right: NodeId },
    Call { callee: NodeId, args: Vec<CallArg> },
    Index { object: NodeId, key: NodeId },
    If { condition: NodeId, then_branch: NodeId, else_branch: Option<NodeId> },
    For { identifier: String, iterator: NodeId, body: NodeId },
    While { condition: NodeId, body: NodeId },
    TryCatch { body: NodeId, catches: Vec<CatchArm>, else_branch: Option<NodeId> },
    Declaration { identifier: String, value: NodeId },
    Function { params: Vec<Param>, body: NodeId },
    Table(Vec<TableItem>),
    Break(NodeId),
    Continue,
    Return(NodeId),
}

#[derive(Debug, Clone)]
pub struct Param {
    pub name: String,
    pub kind: ParamKind,
}

#[derive(Debug, Clone, Copy)]
pub enum ParamKind {
    Required,
    Optional(NodeId),
    Rest,
}

#[derive(Debug, Clone)]
pub struct CallArg {
    pub name: Option<String>,
    pub value: NodeId,
}

#[derive(Debug, Clone)]
pub struct CatchArm {
    pub kind_filter: Option<NodeId>,
    pub binding: String,
    pub body: NodeId,
}

#[derive(Debug, Clone, Copy)]
pub struct TableItem {
    pub key: NodeId,
    pub value: NodeId,
}

#[derive(Debug, Clone, Copy, PartialEq, Eq, Structural)]
pub enum UnaryOp {
    Neg,
    Not,
}

#[derive(Debug, Clone, Copy, PartialEq, Eq, Structural)]
pub enum BinaryOp {
    Assign,
    Pipe,
    Or,
    And,
    Eq,
    NotEq,
    Lt,
    Lte,
    Gt,
    Gte,
    Add,
    Sub,
    Mul,
    Div,
    Rem,
}

/// The arena of nodes.
#[derive(Debug)]
pub struct Ast {
    nodes: Vec<Node>,
}

impl Ast {
    pub closed spec fn nodes(&self) -> Seq<Node> {
        self.nodes@
    }

    pub fn new() -> (a: Ast)
        ensures
            a.nodes() == Seq::<Node>::empty(),
    {
        Ast { nodes: Vec::new() }
    }

    /// Adds a node; its id is the number of nodes before it.
    pub fn add(&mut self, kind: NodeKind, span: Span) -> (id: NodeId)
        ensures
            id.0 == old(self).nodes().len(),
            final(self).nodes() == old(self).nodes().push(Node { kind, span }),
    {
        let id = NodeId(self.nodes.len());
        self.nodes.push(Node { kind, span });
        id
    }

    /// The node with id `id`.
    pub fn get(&self, id: NodeId) -> (n: &Node)
        requires
            id.0 < self.nodes().len(),
        ensures
            *n == self.nodes()[id.0 as int],
    {
        &self.nodes[id.0]
    }

    /// Number of nodes.
    pub fn len(&self) -> (n: usize)
        ensures
            n == self.nodes().len(),
    {
        self.nodes.len()
    }
}

/// A parsed program: its arena and its top-level nodes in order.
pub struct Program {
    pub ast: Ast,
    pub roots: Vec<NodeId>,
    /// The tokens each node was read from.
    pub tokens: Ghost<Seq<Seq<TokenView>>>,
}

/// The binding powers of an operator: how strongly it holds its left and its
/// right operand.
pub open spec fn binding(op: BinaryOp) -> (int, int) {
    match op {
        BinaryOp::Assign => (10, 9),
        BinaryOp::Pipe => (20, 21),
        BinaryOp::Or => (30, 31),
        BinaryOp::And => (40, 41),
        BinaryOp::Eq | BinaryOp::NotEq => (50, 51),
        BinaryOp::Lt | BinaryOp::Lte | BinaryOp::Gt | BinaryOp::Gte => (60, 61),
        BinaryOp::Add | BinaryOp::Sub => (70, 71),
        BinaryOp::Mul | BinaryOp::Div | BinaryOp::Rem => (80, 81),
    }
}

/// Precedence of a binary node: an operator node as its left operand binds
/// at least as strongly (`a - b - c` is `(a - b) - c`), one as its right
/// operand binds more strongly, except for the right-grouping `=`.
pub open spec fn binary_shape(ns: Seq<Node>, op: BinaryOp, left: NodeId, right: NodeId) -> bool {
    &&& (match ns[left.0 as int].kind {
        NodeKind::Binary { op: op1, .. } => binding(op).0 < binding(op1).1,
        _ => true,
    })
    &&& (match ns[right.0 as int].kind {
        NodeKind::Binary { op: op3, .. } => binding(op3).0 >= binding(op).1,
        _ => true,
    })
}

/// A node that an operator applies to as a whole: a postfix operand or the
/// operand of a unary operator is not itself an operator node.
pub open spec fn is_operator(n: Node) -> bool {
    n.kind is Binary || n.kind is Unary
}

/// The token an operator is written with.
pub open spec fn binary_token(op: BinaryOp) -> TokenView {
    TokenView::Symbol(
        match op {
            BinaryOp::Assign => Symbol::Eq,
            BinaryOp::Pipe => Symbol::PipeGt,
            BinaryOp::Or => Symbol::OrOr,
            BinaryOp::And => Symbol::AndAnd,
            BinaryOp::Eq => Symbol::EqEq,
            BinaryOp::NotEq => Symbol::NotEq,
            BinaryOp::Lt => Symbol::Lt,
            BinaryOp::Lte => Symbol::Lte,
            BinaryOp::Gt => Symbol::Gt,
            BinaryOp::Gte => Symbol::Gte,
            BinaryOp::Add => Symbol::Plus,
            BinaryOp::Sub => Symbol::Minus,
            BinaryOp::Mul => Symbol::Star,
            BinaryOp::Div => Symbol::Slash,
            BinaryOp::Rem => Symbol::Percent,
        },
    )
}

pub open spec fn sym(s: Symbol) -> TokenView {
    TokenView::Symbol(s)
}

pub open spec fn kw(k: Keyword) -> TokenView {
    TokenView::Keyword(k)
}

/// The tokens of the nodes `ids`, one after the other.
pub open spec fn concat_ids(t: Seq<Seq<TokenView>>, ids: Seq<NodeId>) -> Seq<TokenView>
    decreases ids.len(),
{
    if ids.len() == 0 {
        Seq::empty()
    } else {
        concat_ids(t, ids.drop_last()) + t[ids.last().0 as int]
    }
}

/// The tokens of one call argument: `.name = value` or `value`.
pub open spec fn arg_tokens(t: Seq<Seq<TokenView>>, a: CallArg) -> Seq<TokenView> {
    match a.name {
        Some(n) => seq![sym(Symbol::Dot), TokenView::Identifier(n@), sym(Symbol::Eq)] + t[a.value.0 as int],
        None => t[a.value.0 as int],
    }
}

/// The tokens of call arguments, separated by commas.
pub open spec fn args_tokens(t: Seq<Seq<TokenView>>, args: Seq<CallArg>) -> Seq<TokenView>
    decreases args.len(),
{
    if args.len() == 0 {
        Seq::empty()
    } else if args.len() == 1 {
        arg_tokens(t, args[0])
    } else {
        args_tokens(t, args.drop_last()) + seq![sym(Symbol::Comma)] + arg_tokens(t, args.last())
    }
}

/// The tokens of one parameter: `name`, `name = default` or `..name`.
pub open spec fn param_tokens(t: Seq<Seq<TokenView>>, p: Param) -> Seq<TokenView> {
    match p.kind {
        ParamKind::Required => seq![TokenView::Identifier(p.name@)],
        ParamKind::Optional(d) => seq![TokenView::Identifier(p.name@), sym(Symbol::Eq)] + t[d.0 as int],
        ParamKind::Rest => seq![sym(Symbol::Dot), sym(Symbol::Dot), TokenView::Identifier(p.name@)],
    }
}

/// The tokens of parameters, separated by commas.
pub open spec fn params_tokens(t: Seq<Seq<TokenView>>, ps: Seq<Param>) -> Seq<TokenView>
    decreases ps.len(),
{
    if ps.len() == 0 {
        Seq::empty()
    } else if ps.len() == 1 {
        param_tokens(t, ps[0])
    } else {
        params_tokens(t, ps.drop_last()) + seq![sym(Symbol::Comma)] + param_tokens(t, ps.last())
    }
}

/// The tokens of one table item: `[key] = value`, `.name = value`, or a bare
/// value whose key node is implicit (and spelled by no token).
pub open spec fn item_tokens(t: Seq<Seq<TokenView>>, it: TableItem) -> Seq<TokenView> {
    key_tokens(t, it.key) + t[it.value.0 as int]
}

/// The tokens of the key part of a table item, `=` included.
pub open spec fn key_tokens(t: Seq<Seq<TokenView>>, key: NodeId) -> Seq<TokenView> {
    let k = t[key.0 as int];
    if k.len() == 0 {
        Seq::empty()
    } else if k[0] == sym(Symbol::Dot) {
        k + seq![sym(Symbol::Eq)]
    } else {
        seq![sym(Symbol::LBracket)] + k + seq![sym(Symbol::RBracket), sym(Symbol::Eq)]
    }
}

/// The tokens of table items, separated by commas.
pub open spec fn items_tokens(t: Seq<Seq<TokenView>>, its: Seq<TableItem>) -> Seq<TokenView>
    decreases its.len(),
{
    if its.len() == 0 {
        Seq::empty()
    } else if its.len() == 1 {
        item_tokens(t, its[0])
    } else {
        items_tokens(t, its.drop_last()) + seq![sym(Symbol::Comma)] + item_tokens(t, its.last())
    }
}

/// The tokens of one catch arm: `catch [filter] as name body`.
pub open spec fn arm_tokens(t: Seq<Seq<TokenView>>, a: CatchArm) -> Seq<TokenView> {
    seq![kw(Keyword::Catch)] + match a.kind_filter {
        Some(f) => t[f.0 as int],
        None => Seq::empty(),
    } + seq![kw(Keyword::As), TokenView::Identifier(a.binding@)] + t[a.body.0 as int]
}

/// The tokens of catch arms, one after the other.
pub open spec fn arms_tokens(t: Seq<Seq<TokenView>>, arms: Seq<CatchArm>) -> Seq<TokenView>
    decreases arms.len(),
{
    if arms.len() == 0 {
        Seq::empty()
    } else {
        arms_tokens(t, arms.drop_last()) + arm_tokens(t, arms.last())
    }
}

/// No required parameter comes after a parameter with a default.
pub open spec fn required_first(ps: Seq<Param>) -> bool {
    forall|i: int, j: int|
        0 <= i < j < ps.len() && (#[trigger] ps[i]).kind is Optional ==> !((#[trigger] ps[j]).kind is Required)
}

/// `ids` are all below `i`.
pub open spec fn below(ids: Seq<NodeId>, i: int) -> bool {
    forall|j: int| 0 <= j < ids.len() ==> #[trigger] ids[j].0 < i
}

pub open spec fn opt_below(o: Option<NodeId>, i: int) -> bool {
    match o {
        Some(x) => x.0 < i,
        None => true,
    }
}

/// The tokens of an optional `else` branch.
pub open spec fn else_tokens(t: Seq<Seq<TokenView>>, e: Option<NodeId>) -> Seq<TokenView> {
    match e {
        Some(x) => seq![kw(Keyword::Else)] + t[x.0 as int],
        None => Seq::empty(),
    }
}

/// `n` is the implicit key of row `j` of a table: the number `j`.
pub open spec fn implicit_key(n: Node, j: int) -> bool {
    match n.kind {
        NodeKind::Number(x) => x@ == decimal(j as nat),
        _ => false,
    }
}

/// Node `id` is a block: the body of a branch, loop, `try`, catch arm or
/// function.
pub open spec fn is_body(ns: Seq<Node>, id: NodeId) -> bool {
    ns[id.0 as int].kind is Block
}

/// An optional branch, when there is one, is a block.
pub open spec fn opt_body(ns: Seq<Node>, o: Option<NodeId>) -> bool {
    match o {
        Some(x) => is_body(ns, x),
        None => true,
    }
}

/// Node `id` is a block written between parentheses: `(`, its nodes, `)`.
pub open spec fn parenthesized(ns: Seq<Node>, t: Seq<Seq<TokenView>>, id: NodeId) -> bool {
    ns[id.0 as int].kind matches NodeKind::Block { nodes } && t[id.0 as int] == seq![sym(Symbol::LParen)]
        + concat_ids(t, nodes@) + seq![sym(Symbol::RParen)]
}

/// Node `id` can stand where an expression is read: it is spelled by at
/// least one token, and if it is a block, the block is written between
/// parentheses (a block without them is only a body or a branch).
pub open spec fn operand_ok(ns: Seq<Node>, t: Seq<Seq<TokenView>>, id: NodeId) -> bool {
    &&& t[id.0 as int].len() > 0
    &&& ns[id.0 as int].kind is Block ==> parenthesized(ns, t, id)
}

/// The rule of node `i` of the arena prefix `ns` (`ns.len() == i + 1`), with
/// `t[j]` the tokens of node `j`.
pub open spec fn node_ok(ns: Seq<Node>, t: Seq<Seq<TokenView>>, i: int) -> bool {
    let own = t[i];
    match ns[i].kind {
        NodeKind::Block { nodes } => below(nodes@, i) && (forall|j: int|
            0 <= j < nodes@.len() ==> operand_ok(ns, t, #[trigger] nodes@[j])) && (own == concat_ids(
            t,
            nodes@,
        ) || own == seq![sym(Symbol::LParen)] + concat_ids(t, nodes@) + seq![sym(Symbol::RParen)]),
        NodeKind::Number(x) => own == seq![TokenView::Number(x@)] || own.len() == 0,
        NodeKind::String(x) => own == seq![TokenView::Str(x@)] || own == seq![
            sym(Symbol::Dot),
            TokenView::Identifier(x@),
        ],
        NodeKind::Boolean(b) => own == seq![kw(if b { Keyword::True } else { Keyword::False })],
        NodeKind::Nil => own == seq![kw(Keyword::Nil)],
        NodeKind::Identifier(x) => own == seq![TokenView::Identifier(x@)],
        NodeKind::Unary { op, right } => right.0 < i && !(ns[right.0 as int].kind is Binary) && operand_ok(
            ns,
            t,
            right,
        ) && own == seq![
            sym(
                match op {
                    UnaryOp::Neg => Symbol::Minus,
                    UnaryOp::Not => Symbol::Not,
                },
            ),
        ] + t[right.0 as int],
        NodeKind::Binary { op, left, right } => left.0 < i && right.0 < i && binary_shape(ns, op, left, right)
            && operand_ok(ns, t, left) && operand_ok(ns, t, right) && own == t[left.0 as int]
            + seq![binary_token(op)] + t[right.0 as int],
        NodeKind::Call { callee, args } => callee.0 < i && !is_operator(ns[callee.0 as int]) && operand_ok(
            ns,
            t,
            callee,
        ) && (forall|j: int|
            0 <= j < args@.len() ==> (#[trigger] args@[j]).value.0 < i && operand_ok(ns, t, args@[j].value))
            && own == t[callee.0 as int]
            + seq![sym(Symbol::LParen)] + args_tokens(t, args@) + seq![sym(Symbol::RParen)],
        NodeKind::Index { object, key } => object.0 < i && key.0 < i && !is_operator(ns[object.0 as int])
            && operand_ok(ns, t, object) && operand_ok(ns, t, key)
            && (if t[key.0 as int][0] == sym(Symbol::Dot) {
            own == t[object.0 as int] + t[key.0 as int]
        } else {
            own == t[object.0 as int] + seq![sym(Symbol::LBracket)] + t[key.0 as int] + seq![
                sym(Symbol::RBracket),
            ]
        }),
        NodeKind::If { condition, then_branch, else_branch } => condition.0 < i && then_branch.0 < i
            && operand_ok(ns, t, condition) && is_body(ns, then_branch) && opt_body(ns, else_branch)
            && opt_below(else_branch, i) && own == seq![kw(Keyword::If)] + t[condition.0 as int]
            + seq![kw(Keyword::Then)] + t[then_branch.0 as int] + else_tokens(t, else_branch)
            + seq![kw(Keyword::End)],
        NodeKind::For { identifier, iterator, body } => iterator.0 < i && body.0 < i && is_body(ns, body) && operand_ok(
            ns,
            t,
            iterator,
        ) && own == seq![
            kw(Keyword::For),
            TokenView::Identifier(identifier@),
            kw(Keyword::In),
        ] + t[iterator.0 as int] + seq![kw(Keyword::Do)] + t[body.0 as int] + seq![
            kw(Keyword::End),
        ],
        NodeKind::While { condition, body } => condition.0 < i && body.0 < i && is_body(ns, body) && operand_ok(
            ns,
            t,
            condition,
        ) && own == seq![
            kw(Keyword::While),
        ] + t[condition.0 as int] + seq![kw(Keyword::Do)] + t[body.0 as int] + seq![
            kw(Keyword::End),
        ],
        NodeKind::TryCatch { body, catches, else_branch } => body.0 < i && opt_below(else_branch, i)
            && is_body(ns, body) && opt_body(ns, else_branch)
            && (forall|j: int|
            0 <= j < catches@.len() ==> (#[trigger] catches@[j]).body.0 < i && opt_below(
                catches@[j].kind_filter,
                i,
            ) && is_body(ns, catches@[j].body) && match catches@[j].kind_filter {
                Some(f) => operand_ok(ns, t, f),
                None => true,
            }) && own == seq![kw(Keyword::Try)] + t[body.0 as int] + arms_tokens(t, catches@)
            + else_tokens(t, else_branch) + seq![kw(Keyword::End)],
        NodeKind::Declaration { identifier, value } => value.0 < i && operand_ok(ns, t, value) && (if ns[value.0 as int].kind is Function
            && t[value.0 as int].len() > 0 && t[value.0 as int][0] == sym(Symbol::LParen) {
            own == seq![kw(Keyword::Let), kw(Keyword::Fn), TokenView::Identifier(identifier@)]
                + t[value.0 as int]
        } else {
            own == seq![kw(Keyword::Let), TokenView::Identifier(identifier@), sym(Symbol::Eq)]
                + t[value.0 as int]
        }),
        NodeKind::Function { params, body } => body.0 < i && is_body(ns, body) && required_first(params@) && (forall|j: int|
            0 <= j < params@.len() ==> match (#[trigger] params@[j]).kind {
                ParamKind::Optional(d) => d.0 < i && operand_ok(ns, t, d),
                _ => true,
            }) && {
            let tail = seq![sym(Symbol::LParen)] + params_tokens(t, params@) + seq![
                sym(Symbol::RParen),
            ] + t[body.0 as int] + seq![kw(Keyword::End)];
            own == tail || own == seq![kw(Keyword::Fn)] + tail
        },
        NodeKind::Table(items) => (forall|j: int|
            0 <= j < items@.len() ==> (#[trigger] items@[j]).key.0 < i && items@[j].value.0 < i
                && operand_ok(ns, t, items@[j].value) && (t[items@[j].key.0 as int].len() > 0 ==> operand_ok(
                ns,
                t,
                items@[j].key,
            )) && (t[items@[j].key.0 as int].len() == 0 ==> implicit_key(ns[items@[j].key.0 as int], j))) && (own == seq![sym(Symbol::LBrace)] + items_tokens(
            t,
            items@,
        ) + seq![sym(Symbol::RBrace)] || (items@.len() > 0 && own == seq![sym(Symbol::LBrace)]
            + items_tokens(t, items@) + seq![sym(Symbol::Comma), sym(Symbol::RBrace)])),
        NodeKind::Break(v) => v.0 < i && operand_ok(ns, t, v) && own == seq![kw(Keyword::Break)] + t[v.0 as int],
        NodeKind::Continue => own == seq![kw(Keyword::Continue)],
        NodeKind::Return(v) => v.0 < i && operand_ok(ns, t, v) && own == seq![kw(Keyword::Return)] + t[v.0 as int],
    }
}

/// Every node of `ns` follows the rule of its kind, with `t` its tokens.
pub open spec fn grammar_ok(ns: Seq<Node>, t: Seq<Seq<TokenView>>) -> bool {
    &&& ns.len() == t.len()
    &&& forall|i: int| 0 <= i < ns.len() ==> #[trigger] node_ok(ns.take(i + 1), t.take(i + 1), i)
}

/// Whether a node can stand as an operand depends only on the nodes and
/// tokens up to it.
pub proof fn lemma_operand_frame(
    ns1: Seq<Node>,
    t1: Seq<Seq<TokenView>>,
    ns2: Seq<Node>,
    t2: Seq<Seq<TokenView>>,
    id: NodeId,
)
    requires
        0 <= id.0 < ns1.len(),
        id.0 < t1.len(),
        id.0 < ns2.len(),
        id.0 < t2.len(),
        node_ok(ns1.take(id.0 + 1), t1.take(id.0 + 1), id.0 as int),
        forall|j: int| 0 <= j <= id.0 ==> ns2[j] == ns1[j] && t2[j] == t1[j],
        operand_ok(ns1, t1, id),
    ensures
        operand_ok(ns2, t2, id),
{
    let i = id.0 as int;
    assert(ns2[i] == ns1[i] && t2[i] == t1[i]);
    if let NodeKind::Block { nodes } = ns1[i].kind {
        assert(ns1.take(i + 1)[i] == ns1[i]);
        lemma_concat_frame(t1.take(i + 1), t1, nodes@, i);
        lemma_concat_frame(t1, t2, nodes@, i);
    }
}

/// The tokens of a list of nodes depend only on the tokens of those nodes.
pub proof fn lemma_concat_frame(t1: Seq<Seq<TokenView>>, t2: Seq<Seq<TokenView>>, ids: Seq<NodeId>, n: int)
    requires
        below(ids, n),
        n <= t1.len(),
        n <= t2.len(),
        forall|j: int| 0 <= j < n ==> t1[j] == t2[j],
    ensures
        concat_ids(t1, ids) == concat_ids(t2, ids),
    decreases ids.len(),
{
    if ids.len() > 0 {
        assert(ids.last() == ids[ids.len() - 1]);
        assert(below(ids.drop_last(), n)) by {
            assert forall|j: int| 0 <= j < ids.drop_last().len() implies #[trigger] ids.drop_last()[j].0 < n by {
                assert(ids.drop_last()[j] == ids[j]);
            }
        }
        lemma_concat_frame(t1, t2, ids.drop_last(), n);
    }
}

pub proof fn lemma_args_frame(t1: Seq<Seq<TokenView>>, t2: Seq<Seq<TokenView>>, args: Seq<CallArg>, n: int)
    requires
        forall|j: int| 0 <= j < args.len() ==> (#[trigger] args[j]).value.0 < n,
        n <= t1.len(),
        n <= t2.len(),
        forall|j: int| 0 <= j < n ==> t1[j] == t2[j],
    ensures
        args_tokens(t1, args) == args_tokens(t2, args),
    decreases args.len(),
{
    if args.len() > 1 {
        assert(forall|j: int| 0 <= j < args.drop_last().len() ==> args.drop_last()[j] == args[j]);
        lemma_args_frame(t1, t2, args.drop_last(), n);
        assert(args.last() == args[args.len() - 1]);
    } else if args.len() == 1 {
        assert(args[0].value.0 < n);
    }
}

pub proof fn lemma_params_frame(t1: Seq<Seq<TokenView>>, t2: Seq<Seq<TokenView>>, ps: Seq<Param>, n: int)
    requires
        forall|j: int| 0 <= j < ps.len() ==> match (#[trigger] ps[j]).kind {
            ParamKind::Optional(d) => d.0 < n,
            _ => true,
        },
        n <= t1.len(),
        n <= t2.len(),
        forall|j: int| 0 <= j < n ==> t1[j] == t2[j],
    ensures
        params_tokens(t1, ps) == params_tokens(t2, ps),
    decreases ps.len(),
{
    if ps.len() > 1 {
        assert(forall|j: int| 0 <= j < ps.drop_last().len() ==> ps.drop_last()[j] == ps[j]);
        lemma_params_frame(t1, t2, ps.drop_last(), n);
        assert(ps.last() == ps[ps.len() - 1]);
    } else if ps.len() == 1 {
        assert(ps[0] == ps[0]);
    }
}

pub proof fn lemma_items_frame(t1: Seq<Seq<TokenView>>, t2: Seq<Seq<TokenView>>, its: Seq<TableItem>, n: int)
    requires
        forall|j: int| 0 <= j < its.len() ==> (#[trigger] its[j]).key.0 < n && its[j].value.0 < n,
        n <= t1.len(),
        n <= t2.len(),
        forall|j: int| 0 <= j < n ==> t1[j] == t2[j],
    ensures
        items_tokens(t1, its) == items_tokens(t2, its),
    decreases its.len(),
{
    if its.len() > 1 {
        assert(forall|j: int| 0 <= j < its.drop_last().len() ==> its.drop_last()[j] == its[j]);
        lemma_items_frame(t1, t2, its.drop_last(), n);
        assert(its.last() == its[its.len() - 1]);
    } else if its.len() == 1 {
        assert(its[0].key.0 < n);
    }
}

pub proof fn lemma_arms_frame(t1: Seq<Seq<TokenView>>, t2: Seq<Seq<TokenView>>, arms: Seq<CatchArm>, n: int)
    requires
        forall|j: int| 0 <= j < arms.len() ==> (#[trigger] arms[j]).body.0 < n && opt_below(arms[j].kind_filter, n),
        n <= t1.len(),
        n <= t2.len(),
        forall|j: int| 0 <= j < n ==> t1[j] == t2[j],
    ensures
        arms_tokens(t1, arms) == arms_tokens(t2, arms),
    decreases arms.len(),
{
    if arms.len() > 0 {
        assert(forall|j: int| 0 <= j < arms.drop_last().len() ==> arms.drop_last()[j] == arms[j]);
        lemma_arms_frame(t1, t2, arms.drop_last(), n);
        assert(arms.last() == arms[arms.len() - 1]);
    }
}

/// How operators group in any tree that keeps the grammar: an `=` is never
/// the left operand of an operator, so `a = b = c` is `a = (b = c)`; the
/// right operand of any other operator is never an operator of the same or a
/// weaker level, so `a - b - c` is `(a - b) - c`, `x |> f |> g` is
/// `(x |> f) |> g`, and `a - b * c` is `a - (b * c)`; and an operator that
/// binds more weakly than its parent is never the parent's left operand, so
/// `a * b - c` is `(a * b) - c`.
pub proof fn law_operator_grouping(ns: Seq<Node>, t: Seq<Seq<TokenView>>, i: int)
    requires
        grammar_ok(ns, t),
        0 <= i < ns.len(),
        ns[i].kind is Binary,
    ensures
        ({
            let op = ns[i].kind->Binary_op;
            let left = ns[i].kind->Binary_left;
            let right = ns[i].kind->Binary_right;
            &&& left.0 < i
            &&& right.0 < i
            &&& (ns[left.0 as int].kind matches NodeKind::Binary { op: op1, .. } ==> op1 != BinaryOp::Assign
                && binding(op1).1 > binding(op).0)
            &&& (ns[right.0 as int].kind matches NodeKind::Binary { op: op3, .. } ==> op != BinaryOp::Assign
                ==> binding(op3).0 > binding(op).0)
        }),
{
    assert(node_ok(ns.take(i + 1), t.take(i + 1), i));
    let op = ns[i].kind->Binary_op;
    let left = ns[i].kind->Binary_left;
    let right = ns[i].kind->Binary_right;
    assert(ns.take(i + 1)[i] == ns[i]);
    assert(ns.take(i + 1)[left.0 as int] == ns[left.0 as int]);
    assert(ns.take(i + 1)[right.0 as int] == ns[right.0 as int]);
}

/// The precedence level of an operator, from the weakest: `=`, then `|>`,
/// `||`, `&&`, `==` and `!=`, the comparisons `<`, `<=`, `>`, `>=`, then `+`
/// and `-`, and `*`, `/`, `%` binding most strongly.
pub open spec fn precedence_level(op: BinaryOp) -> int {
    match op {
        BinaryOp::Assign => 0,
        BinaryOp::Pipe => 1,
        BinaryOp::Or => 2,
        BinaryOp::And => 3,
        BinaryOp::Eq | BinaryOp::NotEq => 4,
        BinaryOp::Lt | BinaryOp::Lte | BinaryOp::Gt | BinaryOp::Gte => 5,
        BinaryOp::Add | BinaryOp::Sub => 6,
        BinaryOp::Mul | BinaryOp::Div | BinaryOp::Rem => 7,
    }
}

/// The binding powers follow the precedence levels: an operator of a higher
/// level binds more strongly, operators of one level bind alike, and every
/// operator but `=` groups to the left while `=` groups to the right.
pub proof fn law_binding_follows_levels(a: BinaryOp, b: BinaryOp)
    ensures
        precedence_level(a) < precedence_level(b) ==> binding(a).0 < binding(b).0 && binding(a).1 <= binding(b).0,
        precedence_level(a) == precedence_level(b) ==> binding(a) == binding(b),
        a != BinaryOp::Assign ==> binding(a).1 == binding(a).0 + 1,
        binding(BinaryOp::Assign).1 < binding(BinaryOp::Assign).0,
        binding(BinaryOp::Assign).1 < binding(b).0,
{
}

/// In any tree that keeps the grammar, an operator node never has an
/// operator of a weaker level as an operand (so `a || b && c` is
/// `a || (b && c)` and never `(a || b) && c`), and an operator other than
/// `=` never has one of its own level as its right operand.
pub proof fn law_operands_bind_tighter(ns: Seq<Node>, t: Seq<Seq<TokenView>>, i: int)
    requires
        grammar_ok(ns, t),
        0 <= i < ns.len(),
        ns[i].kind is Binary,
    ensures
        ({
            let op = ns[i].kind->Binary_op;
            &&& (ns[ns[i].kind->Binary_left.0 as int].kind matches NodeKind::Binary { op: op1, .. }
                ==> precedence_level(op1) >= precedence_level(op) && op1 != BinaryOp::Assign)
            &&& (ns[ns[i].kind->Binary_right.0 as int].kind matches NodeKind::Binary { op: op3, .. }
                ==> (op != BinaryOp::Assign ==> precedence_level(op3) > precedence_level(op)))
        }),
{
    law_operator_grouping(ns, t, i);
    let op = ns[i].kind->Binary_op;
    if let NodeKind::Binary { op: op1, .. } = ns[ns[i].kind->Binary_left.0 as int].kind {
        law_binding_follows_levels(op1, op);
        law_binding_follows_levels(op, op1);
    }
    if let NodeKind::Binary { op: op3, .. } = ns[ns[i].kind->Binary_right.0 as int].kind {
        law_binding_follows_levels(op3, op);
        law_binding_follows_levels(op, op3);
    }
}

} // verus!
