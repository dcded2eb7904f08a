//! The parser: a Pratt parser over the tokens of the lexer, with one token of
//! lookahead, that builds the arena of a `Program`. It records, in ghost
//! state, the tokens each node was read from, and keeps the grammar rules of
//! `ast::node_ok` for every node it adds: a program it returns spells exactly
//! the tokens of its source. On text made only of operands and binary
//! operators (`operand_run`) it is also complete: it succeeds unless the text
//! ends in an operator, and then it fails because the input ended too early.
//! A function whose parameters are names, some with a one-token default
//! (`simple_function`), and a call whose arguments are one-token operands,
//! positional or named (`simple_call`), parse as well, or fail with the error
//! for a parameter without a default after one with a default, or for a
//! positional argument after a named one; so do tables of one-token values
//! with implicit, `.name` or one-token `[key]` keys (`simple_items`).

use vstd::prelude::*;

use crate::ast::{
    Ast, BinaryOp, CallArg, CatchArm, Node, NodeId, NodeKind, Param, ParamKind, Program,
    TableItem, UnaryOp, binding, is_operator, arg_tokens, args_tokens, arm_tokens, arms_tokens, below, binary_token,
    concat_ids, else_tokens, grammar_ok, implicit_key, lemma_operand_frame, operand_ok, parenthesized, item_tokens, items_tokens, key_tokens, kw,
    lemma_args_frame, lemma_arms_frame, lemma_concat_frame, lemma_items_frame,
    lemma_params_frame, node_ok, opt_below, param_tokens, params_tokens, sym,
};
use crate::error::{ErrorKindView, LangError};
use crate::lexer::{
    Keyword, Lexer, LexStep, Symbol, Token, TokenKind, TokenView, lemma_lex_progress,
    lemma_skip_bounds, lemma_tokens_step, lex_at, offset, skip_from, tokens_from,
};
use crate::source::{SourceId, Span};
use crate::text::{byte_len, decimal, decimal_chars, is_boundary, lemma_byte_len_prefix_le, string_of};

verus! {

/// What ends a run of expressions.
#[derive(Debug, Clone, Copy, PartialEq, Eq, Structural)]
pub enum Terminator {
    EndOfFile,
    RParen,
    End,
    ElseOrEnd,
    CatchElseOrEnd,
}

/// `v` ends a run of expressions closed by `term`.
pub open spec fn terminates(term: Terminator, v: TokenView) -> bool {
    match term {
        Terminator::EndOfFile => v is EndOfFile,
        Terminator::RParen => v == sym(Symbol::RParen),
        Terminator::End => v == kw(Keyword::End),
        Terminator::ElseOrEnd => v == kw(Keyword::Else) || v == kw(Keyword::End),
        Terminator::CatchElseOrEnd => v == kw(Keyword::Catch) || v == kw(Keyword::Else) || v == kw(
            Keyword::End,
        ),
    }
}

/// `sp` is the empty internal span or a span of `s` (source `sid`) that starts
/// at a character boundary.
pub open spec fn span_ok(s: Seq<char>, sid: SourceId, sp: Span) -> bool {
    sp.is_internal() || (sp.source == sid && sp.start <= sp.end <= byte_len(s) && is_boundary(
        s,
        sp.start as int,
    ))
}

/// The tokens of `s` from position `i` on run to the end of the file: no
/// lexical error stops them.
pub open spec fn reads_to_end(s: Seq<char>, i: int) -> bool {
    tokens_from(s, i).len() > 0 && tokens_from(s, i).last() is EndOfFile
}

/// An error of parsing `s` from `start`: it names at least one place, every
/// place is a span of `s`, and it says the input ended too early only when
/// the text reads without lexical errors to its end.
pub open spec fn error_ok(s: Seq<char>, sid: SourceId, start: int, e: LangError) -> bool {
    &&& e.traceback@.len() > 0
    &&& forall|j: int| 0 <= j < e.traceback@.len() ==> span_ok(s, sid, #[trigger] e.traceback@[j])
    &&& e.kind@ is UnexpectedEof ==> reads_to_end(s, start)
}

/// The operator a token stands for, if it is a binary operator.
pub open spec fn binary_op_of(v: TokenView) -> Option<BinaryOp> {
    match v {
        TokenView::Symbol(s) => match s {
            Symbol::Eq => Some(BinaryOp::Assign),
            Symbol::PipeGt => Some(BinaryOp::Pipe),
            Symbol::OrOr => Some(BinaryOp::Or),
            Symbol::AndAnd => Some(BinaryOp::And),
            Symbol::EqEq => Some(BinaryOp::Eq),
            Symbol::NotEq => Some(BinaryOp::NotEq),
            Symbol::Lt => Some(BinaryOp::Lt),
            Symbol::Lte => Some(BinaryOp::Lte),
            Symbol::Gt => Some(BinaryOp::Gt),
            Symbol::Gte => Some(BinaryOp::Gte),
            Symbol::Plus => Some(BinaryOp::Add),
            Symbol::Minus => Some(BinaryOp::Sub),
            Symbol::Star => Some(BinaryOp::Mul),
            Symbol::Slash => Some(BinaryOp::Div),
            Symbol::Percent => Some(BinaryOp::Rem),
            _ => None,
        },
        _ => None,
    }
}

/// `v` opens a call, a property access or an index.
pub open spec fn is_postfix(v: TokenView) -> bool {
    v == sym(Symbol::LParen) || v == sym(Symbol::Dot) || v == sym(Symbol::LBracket)
}

/// A token that is a whole operand by itself: a literal or a name.
pub open spec fn is_atom(v: TokenView) -> bool {
    ||| v is Number
    ||| v is Str
    ||| v is Identifier
    ||| v == kw(Keyword::True)
    ||| v == kw(Keyword::False)
    ||| v == kw(Keyword::Nil)
}

/// Tokens that run to the end of the file and are made of operands and
/// binary operators only, where each operator is followed by an operand or
/// by the end of the file.
pub open spec fn operand_run(r: Seq<TokenView>) -> bool {
    &&& r.len() >= 1
    &&& r.last() is EndOfFile
    &&& forall|i: int|
        0 <= i < r.len() - 1 ==> is_atom(#[trigger] r[i]) || (binary_op_of(r[i]) is Some && (i + 1
            == r.len() - 1 || is_atom(r[i + 1])))
}

/// The last token before the end of the file is a binary operator: the
/// input stops where an operand should follow.
pub open spec fn ends_in_operator(r: Seq<TokenView>) -> bool {
    r.len() >= 2 && binary_op_of(r[r.len() - 2]) is Some
}

/// A token that ends an operand: no operator, call, property or index
/// continues it.
pub open spec fn ends_operand(v: TokenView) -> bool {
    binary_op_of(v) is None && !is_postfix(v)
}

/// Reading the parameter list `r` of a function (from a parameter on, with
/// `opt` telling whether a parameter with a default came before), where
/// every parameter is a name or a name with a one-token default: `Some(true)`
/// when the list is closed by `)` and the body is empty (`end`),
/// `Some(false)` when a parameter without a default follows one with a
/// default, and `None` for any other list.
pub open spec fn simple_params(r: Seq<TokenView>, opt: bool) -> Option<bool>
    decreases r.len(),
{
    if !(r.len() >= 2 && r[0] is Identifier) {
        None
    } else if r[1] == sym(Symbol::Eq) {
        if r.len() >= 5 && is_atom(r[2]) && r[3] == sym(Symbol::RParen) && r[4] == kw(Keyword::End) {
            Some(true)
        } else if r.len() >= 4 && is_atom(r[2]) && r[3] == sym(Symbol::Comma) {
            simple_params(r.skip(4), true)
        } else {
            None
        }
    } else if opt {
        Some(false)
    } else if r.len() >= 3 && r[1] == sym(Symbol::RParen) && r[2] == kw(Keyword::End) {
        Some(true)
    } else if r[1] == sym(Symbol::Comma) {
        simple_params(r.skip(2), false)
    } else {
        None
    }
}

/// Reading the tokens `r` of a function after `fn` or `let fn name`, as
/// `simple_params` does; `()` with an empty body counts as `Some(true)`.
pub open spec fn simple_function(r: Seq<TokenView>) -> Option<bool> {
    if r.len() >= 3 && r[0] == sym(Symbol::LParen) && r[1] == sym(Symbol::RParen) && r[2] == kw(
        Keyword::End,
    ) {
        Some(true)
    } else if r.len() >= 1 && r[0] == sym(Symbol::LParen) {
        simple_params(r.skip(1), false)
    } else {
        None
    }
}

/// The tokens after the `end` of a function whose parameters
/// `simple_params` reads as `Some(true)`.
pub open spec fn after_params(r: Seq<TokenView>) -> Seq<TokenView>
    decreases r.len(),
{
    if r.len() < 2 {
        r
    } else if r[1] == sym(Symbol::Eq) {
        if r.len() >= 5 && r[3] == sym(Symbol::RParen) {
            r.skip(5)
        } else if r.len() >= 4 {
            after_params(r.skip(4))
        } else {
            r
        }
    } else if r.len() >= 3 && r[1] == sym(Symbol::RParen) {
        r.skip(3)
    } else if r[1] == sym(Symbol::Comma) {
        after_params(r.skip(2))
    } else {
        r
    }
}

/// The tokens after the `end` of a function that `simple_function` reads as
/// `Some(true)`.
pub open spec fn after_function(r: Seq<TokenView>) -> Seq<TokenView> {
    if r.len() >= 3 && r[0] == sym(Symbol::LParen) && r[1] == sym(Symbol::RParen) && r[2] == kw(
        Keyword::End,
    ) {
        r.skip(3)
    } else {
        after_params(r.skip(1))
    }
}

/// `r` starts with `fn` and a function that `simple_function` reads as
/// `Some(true)`, and the token after its `end` ends an operand.
pub open spec fn simple_function_first(r: Seq<TokenView>) -> bool {
    &&& r.len() >= 1
    &&& r[0] == kw(Keyword::Fn)
    &&& simple_function(r.skip(1)) == Some(true)
    &&& after_function(r.skip(1)).len() >= 1
    &&& ends_operand(after_function(r.skip(1))[0])
}

/// Where, in a parameter list `r` that `simple_params` reads as
/// `Some(false)`, the first parameter without a default after one with a
/// default stands.
pub open spec fn misordered_at(r: Seq<TokenView>, opt: bool) -> int
    decreases r.len(),
{
    if !(r.len() >= 2 && r[0] is Identifier) {
        0
    } else if r[1] == sym(Symbol::Eq) {
        if r.len() >= 5 && is_atom(r[2]) && r[3] == sym(Symbol::RParen) && r[4] == kw(Keyword::End) {
            0
        } else if r.len() >= 4 && is_atom(r[2]) && r[3] == sym(Symbol::Comma) {
            4 + misordered_at(r.skip(4), true)
        } else {
            0
        }
    } else if opt {
        0
    } else if r.len() >= 3 && r[1] == sym(Symbol::RParen) && r[2] == kw(Keyword::End) {
        0
    } else if r[1] == sym(Symbol::Comma) {
        2 + misordered_at(r.skip(2), false)
    } else {
        0
    }
}

/// The message for a required parameter, named by the token `v`, after one
/// with a default.
pub open spec fn param_message(v: TokenView) -> Seq<char> {
    match v {
        TokenView::Identifier(n) => "required parameter '"@ + n + "' must appear before any default or rest parameter."@,
        _ => Seq::empty(),
    }
}

/// The misordered parameter of a list that `simple_params` reads as
/// `Some(false)` is a name within the list.
pub proof fn lemma_misordered(r: Seq<TokenView>, opt: bool)
    requires
        simple_params(r, opt) == Some(false),
    ensures
        0 <= misordered_at(r, opt) < r.len(),
        r[misordered_at(r, opt)] is Identifier,
    decreases r.len(),
{
    if r[1] == sym(Symbol::Eq) {
        if r.len() >= 4 && is_atom(r[2]) && r[3] == sym(Symbol::Comma) && !(r.len() >= 5 && r[3] == sym(Symbol::RParen)) {
            lemma_misordered(r.skip(4), true);
            assert(r.skip(4)[misordered_at(r.skip(4), true)] == r[4 + misordered_at(r.skip(4), true)]);
        }
    } else if !opt && r[1] == sym(Symbol::Comma) {
        lemma_misordered(r.skip(2), false);
        assert(r.skip(2)[misordered_at(r.skip(2), false)] == r[2 + misordered_at(r.skip(2), false)]);
    }
}

/// `r` starts with a function whose parameter list, as `simple_function`
/// reads it, puts a parameter without a default after one with a default.
pub open spec fn misordered_function(r: Seq<TokenView>) -> bool {
    r.len() >= 1 && r[0] == kw(Keyword::Fn) && simple_function(r.skip(1)) == Some(false)
}

/// Reading the arguments `r` of a call (from an argument on, with `named`
/// telling whether a named argument came before), where every argument is a
/// one-token operand or `.name = ` and a one-token operand: `Some(true)` when
/// the list is closed by `)`, `Some(false)` when a positional argument
/// follows a named one, and `None` for any other list.
pub open spec fn simple_args(r: Seq<TokenView>, named: bool) -> Option<bool>
    decreases r.len(),
{
    if r.len() >= 1 && r[0] == sym(Symbol::Dot) {
        if r.len() >= 5 && r[1] is Identifier && r[2] == sym(Symbol::Eq) && is_atom(r[3]) {
            if r[4] == sym(Symbol::RParen) {
                Some(true)
            } else if r[4] == sym(Symbol::Comma) {
                simple_args(r.skip(5), true)
            } else {
                None
            }
        } else {
            None
        }
    } else if r.len() >= 1 && named {
        Some(false)
    } else if r.len() >= 2 && is_atom(r[0]) && r[1] == sym(Symbol::RParen) {
        Some(true)
    } else if r.len() >= 2 && is_atom(r[0]) && r[1] == sym(Symbol::Comma) {
        simple_args(r.skip(2), false)
    } else {
        None
    }
}

/// The tokens after the `)` of arguments that `simple_args` reads as
/// `Some(true)`.
pub open spec fn after_args(r: Seq<TokenView>) -> Seq<TokenView>
    decreases r.len(),
{
    if r.len() >= 5 && r[0] == sym(Symbol::Dot) {
        if r[4] == sym(Symbol::RParen) {
            r.skip(5)
        } else {
            after_args(r.skip(5))
        }
    } else if r.len() >= 2 {
        if r[1] == sym(Symbol::RParen) {
            r.skip(2)
        } else {
            after_args(r.skip(2))
        }
    } else {
        r
    }
}

/// Reading the tokens `r` of a call after its `(`, as `simple_args` does;
/// `)` alone counts as `Some(true)`.
pub open spec fn simple_call(r: Seq<TokenView>) -> Option<bool> {
    if r.len() >= 1 && r[0] == sym(Symbol::RParen) {
        Some(true)
    } else {
        simple_args(r, false)
    }
}

/// The tokens after the `)` of a call that `simple_call` reads as `Some(true)`.
pub open spec fn after_call(r: Seq<TokenView>) -> Seq<TokenView> {
    if r.len() >= 1 && r[0] == sym(Symbol::RParen) {
        r.skip(1)
    } else {
        after_args(r)
    }
}

/// `r` starts with an operand token and `(`, and `simple_call` reads the
/// rest as `ok`; when `ok` holds, the token after the `)` ends an operand.
pub open spec fn simple_call_first(r: Seq<TokenView>, ok: bool) -> bool {
    &&& r.len() >= 2
    &&& is_atom(r[0])
    &&& r[1] == sym(Symbol::LParen)
    &&& simple_call(r.skip(2)) == Some(ok)
    &&& ok ==> after_call(r.skip(2)).len() >= 1 && ends_operand(after_call(r.skip(2))[0])
}

/// How many tokens the table item at the front of `r` takes, when it is a
/// one-token value with an implicit key, `.name = ` and a one-token value, or
/// `[key] = ` and a one-token value with a one-token key; 0 for any other.
pub open spec fn simple_item_len(r: Seq<TokenView>) -> int {
    if r.len() >= 4 && r[0] == sym(Symbol::Dot) && r[1] is Identifier && r[2] == sym(Symbol::Eq)
        && is_atom(r[3]) {
        4
    } else if r.len() >= 5 && r[0] == sym(Symbol::LBracket) && is_atom(r[1]) && r[2] == sym(
        Symbol::RBracket,
    ) && r[3] == sym(Symbol::Eq) && is_atom(r[4]) {
        5
    } else if r.len() >= 1 && is_atom(r[0]) {
        1
    } else {
        0
    }
}

/// The items `r` of a table, after `{` or a `,`, are simple items separated
/// by commas, with or without a trailing comma, closed by `}`.
pub open spec fn simple_items(r: Seq<TokenView>) -> bool
    decreases r.len(),
{
    let n = simple_item_len(r);
    if r.len() >= 1 && r[0] == sym(Symbol::RBrace) {
        true
    } else if n > 0 && r.len() > n {
        r[n] == sym(Symbol::RBrace) || (r[n] == sym(Symbol::Comma) && simple_items(r.skip(n + 1)))
    } else {
        false
    }
}

/// The tokens after the `}` of items that `simple_items` accepts.
pub open spec fn after_items(r: Seq<TokenView>) -> Seq<TokenView>
    decreases r.len(),
{
    let n = simple_item_len(r);
    if r.len() >= 1 && r[0] == sym(Symbol::RBrace) {
        r.skip(1)
    } else if n > 0 && r.len() > n {
        if r[n] == sym(Symbol::RBrace) {
            r.skip(n + 1)
        } else {
            after_items(r.skip(n + 1))
        }
    } else {
        r
    }
}

/// `r` starts with `{` and items that `simple_items` accepts, and the token
/// after the `}` ends an operand.
pub open spec fn simple_table_first(r: Seq<TokenView>) -> bool {
    &&& r.len() >= 1
    &&& r[0] == sym(Symbol::LBrace)
    &&& simple_items(r.skip(1))
    &&& after_items(r.skip(1)).len() >= 1
    &&& ends_operand(after_items(r.skip(1))[0])
}

/// What is left of an operand run after its first `k` tokens is one too,
/// and still ends in an operator exactly when the run did, unless only the
/// end of the file is left.
proof fn lemma_run_skip(r: Seq<TokenView>, k: int)
    requires
        operand_run(r),
        0 <= k < r.len(),
    ensures
        operand_run(r.skip(k)),
        r.skip(k).len() >= 2 ==> ends_in_operator(r.skip(k)) == ends_in_operator(r),
        r.skip(k).len() == 1 ==> !ends_in_operator(r.skip(k)),
{
    let q = r.skip(k);
    assert forall|i: int| 0 <= i < q.len() - 1 implies is_atom(#[trigger] q[i]) || (binary_op_of(q[i]) is Some && (i + 1
        == q.len() - 1 || is_atom(q[i + 1]))) by {
        assert(q[i] == r[i + k]);
        assert(q[i + 1] == r[i + k + 1]);
    }
    assert(q.last() == r.last());
    if q.len() >= 2 {
        assert(q[q.len() - 2] == r[r.len() - 2]);
    }
}

/// In an operand run, a token that is neither an operand nor an operator is
/// the end of the file, and it is the last token.
proof fn lemma_run_first(r: Seq<TokenView>)
    requires
        operand_run(r),
    ensures
        !is_atom(r[0]) && binary_op_of(r[0]) is None ==> r[0] is EndOfFile && r.len() == 1,
        binary_op_of(r[0]) is Some ==> r.len() >= 2 && (r.len() == 2 || is_atom(r[1])),
{
    if r.len() > 1 {
        assert(is_atom(r[0]) || binary_op_of(r[0]) is Some);
    }
}

/// `(bp, bp + 1)`: an operator that groups to the left.
fn left_assoc(bp: u8) -> (r: (u8, u8))
    requires
        bp < 255,
    ensures
        r.0 == bp,
        r.1 == bp + 1,
{
    (bp, bp + 1)
}

/// `(bp, bp - 1)`: an operator that groups to the right.
fn right_assoc(bp: u8) -> (r: (u8, u8))
    requires
        bp > 0,
    ensures
        r.0 == bp,
        r.1 == bp - 1,
{
    (bp, bp - 1)
}

pub struct Parser {
    lexer: Lexer,
    lookahead: Option<Token>,
    ast: Ast,
    seen: Ghost<Seq<TokenView>>,
    toks: Ghost<Seq<Seq<TokenView>>>,
    start: Ghost<int>,
}

impl Parser {
    /// The text being parsed.
    pub closed spec fn src(&self) -> Seq<char> {
        self.lexer.text()
    }

    /// The source the text belongs to.
    pub closed spec fn sid(&self) -> SourceId {
        self.lexer.source_id()
    }

    /// The position where parsing starts.
    pub closed spec fn start(&self) -> int {
        self.start@
    }

    spec fn rest(&self) -> Seq<TokenView> {
        match self.lookahead {
            Some(t) => if t.kind@ is EndOfFile {
                seq![TokenView::EndOfFile]
            } else {
                seq![t.kind@] + tokens_from(self.lexer.text(), self.lexer.pos())
            },
            None => tokens_from(self.lexer.text(), self.lexer.pos()),
        }
    }

    spec fn next(&self) -> TokenView {
        self.lookahead->0.kind@
    }

    spec fn mu(&self) -> nat {
        (2 * (self.lexer.text().len() - self.lexer.pos()) + match self.lookahead {
            Some(t) => if t.kind@ is EndOfFile {
                0int
            } else {
                1int
            },
            None => 0int,
        }) as nat
    }

    spec fn nodes(&self) -> Seq<Node> {
        self.ast.nodes()
    }

    spec fn wf(&self) -> bool {
        &&& self.lexer.wf()
        &&& 0 <= self.start@ <= self.src().len()
        &&& tokens_from(self.src(), self.start@) == self.seen@ + self.rest()
        &&& grammar_ok(self.ast.nodes(), self.toks@)
        &&& forall|i: int|
            0 <= i < self.ast.nodes().len() ==> span_ok(
                self.src(),
                self.sid(),
                #[trigger] self.ast.nodes()[i].span,
            )
        &&& match self.lookahead {
            Some(t) => span_ok(self.src(), self.sid(), t.span) && (t.kind@ is EndOfFile
                ==> self.lexer.pos() == self.src().len()),
            None => true,
        }
    }

    /// `self` is `old` with tokens read but no node added.
    spec fn same_tree(&self, old: &Parser) -> bool {
        &&& self.src() == old.src()
        &&& self.sid() == old.sid()
        &&& self.start@ == old.start@
        &&& self.ast.nodes() == old.ast.nodes()
        &&& self.toks@ == old.toks@
    }

    /// `self` is `old` with tokens read and nodes added.
    spec fn grows(&self, old: &Parser) -> bool {
        &&& self.src() == old.src()
        &&& self.sid() == old.sid()
        &&& self.start@ == old.start@
        &&& old.ast.nodes().len() <= self.ast.nodes().len()
        &&& old.toks@.len() <= self.toks@.len()
        &&& forall|j: int| 0 <= j < old.ast.nodes().len() ==> #[trigger] self.ast.nodes()[j] == old.ast.nodes()[j]
        &&& forall|j: int| 0 <= j < old.toks@.len() ==> #[trigger] self.toks@[j] == old.toks@[j]
        &&& old.seen@.len() <= self.seen@.len()
        &&& forall|j: int| 0 <= j < old.seen@.len() ==> #[trigger] self.seen@[j] == old.seen@[j]
    }

    proof fn lemma_grows_trans(a: Parser, b: Parser, c: Parser)
        requires
            b.grows(&a),
            c.grows(&b),
        ensures
            c.grows(&a),
    {
        assert forall|j: int| 0 <= j < a.seen@.len() implies #[trigger] c.seen@[j] == a.seen@[j] by {
            assert(c.seen@[j] == b.seen@[j]);
        }
        assert forall|j: int| 0 <= j < a.ast.nodes().len() implies #[trigger] c.ast.nodes()[j] == a.ast.nodes()[j] by {
            assert(c.ast.nodes()[j] == b.ast.nodes()[j]);
        }
        assert forall|j: int| 0 <= j < a.toks@.len() implies #[trigger] c.toks@[j] == a.toks@[j] by {
            assert(c.toks@[j] == b.toks@[j]);
        }
    }

    /// Tokens read between two states of one parse are taken off the front of
    /// what was left to read.
    proof fn lemma_rest_skip(a: Parser, b: Parser, x: Seq<TokenView>)
        requires
            a.wf(),
            b.wf(),
            b.src() == a.src(),
            b.start@ == a.start@,
            b.seen@ == a.seen@ + x,
        ensures
            x.len() <= a.rest().len(),
            a.rest() == x + b.rest(),
            b.rest() == a.rest().skip(x.len() as int),
    {
        let n = a.seen@.len() as int;
        assert(a.seen@ + (x + b.rest()) =~= b.seen@ + b.rest());
        assert((a.seen@ + a.rest()).skip(n) =~= a.rest());
        assert((a.seen@ + (x + b.rest())).skip(n) =~= x + b.rest());
        assert((x + b.rest()).skip(x.len() as int) =~= b.rest());
    }

    /// A parser for the tokens of `lexer`.
    pub fn new(lexer: Lexer) -> (p: Parser)
        requires
            lexer.wf(),
        ensures
            p.src() == lexer.text(),
            p.sid() == lexer.source_id(),
            p.start() == lexer.pos(),
            p.ready(),
    {
        let ghost st = lexer.pos();
        let p = Parser {
            lexer,
            lookahead: None,
            ast: Ast::new(),
            seen: Ghost(Seq::empty()),
            toks: Ghost(Seq::empty()),
            start: Ghost(st),
        };
        proof {
            p.lemma_wf_new();
        }
        p
    }

    proof fn lemma_wf_new(&self)
        requires
            self.lexer.wf(),
            self.lookahead is None,
            self.ast.nodes().len() == 0,
            self.toks@.len() == 0,
            self.seen@.len() == 0,
            self.start@ == self.lexer.pos(),
        ensures
            self.wf(),
    {
        self.lexer.lemma_pos();
        assert(self.seen@ + self.rest() =~= self.rest());
    }

    /// Reads a token from the lexer, with what it says about the rest of the tokens.
    fn read(&mut self) -> (r: Result<Token, LangError>)
        requires
            old(self).wf(),
            old(self).lookahead is None,
        ensures
            final(self).lookahead is None,
            final(self).same_tree(old(self)),
            final(self).seen@ == old(self).seen@,
            final(self).lexer.wf(),
            final(self).lexer.pos() >= old(self).lexer.pos(),
            old(self).rest().len() > 0 ==> r is Ok,
            match r {
                Ok(t) => span_ok(old(self).src(), old(self).sid(), t.span) && old(self).rest().len()
                    > 0 && t.kind@ == old(self).rest()[0] && (t.kind@ is EndOfFile ==> (old(
                    self).rest() == seq![TokenView::EndOfFile] && final(self).lexer.pos()
                    == final(self).src().len())) && (!(t.kind@ is EndOfFile) ==> (old(self).rest()
                    == seq![t.kind@] + tokens_from(final(self).src(), final(self).lexer.pos())
                    && final(self).lexer.pos() > old(self).lexer.pos())),
                Err(e) => error_ok(old(self).src(), old(self).sid(), old(self).start(), e),
            },
    {
        let ghost s = self.lexer.text();
        let ghost p0 = self.lexer.pos();
        proof {
            self.lexer.lemma_pos();
            lemma_tokens_step(s, p0);
            lemma_skip_bounds(s, p0, false);
            lemma_lex_progress(s, skip_from(s, p0, false));
        }
        let r = self.lexer.next_token();
        proof {
            self.lexer.lemma_pos();
            let k = skip_from(s, p0, false);
            match r {
                Ok(ref t) => {
                    if let LexStep::Token(v, a, b) = lex_at(s, k) {
                        lemma_byte_len_prefix_le(s, a);
                        lemma_byte_len_prefix_le(s, b);
                        if a < b {
                            crate::text::lemma_byte_len_strict(s, a, b);
                        }
                        assert(byte_len(s.take(a)) == t.span.start);
                    }
                },
                Err(ref e) => {
                    if let LexStep::Error(_, _, a, b) = lex_at(s, k) {
                        lemma_byte_len_prefix_le(s, a);
                        lemma_byte_len_prefix_le(s, b);
                        if a < b {
                            crate::text::lemma_byte_len_strict(s, a, b);
                        }
                        assert(byte_len(s.take(a)) == e.traceback@[0].start);
                        assert(span_ok(s, self.lexer.source_id(), e.traceback@[0]));
                    }
                },
            }
        }
        r
    }

    /// Takes the next token.
    fn take(&mut self) -> (r: Result<Token, LangError>)
        requires
            old(self).wf(),
        ensures
            final(self).same_tree(old(self)),
            final(self).mu() <= old(self).mu(),
            old(self).rest().len() > 0 ==> r is Ok,
            r matches Ok(t) ==> (!(t.kind@ is EndOfFile) ==> final(self).rest() == old(self).rest().skip(1)),
            match r {
                Ok(t) => final(self).wf() && span_ok(old(self).src(), old(self).sid(), t.span) && old(
                    self,
                ).rest().len() > 0 && t.kind@ == old(self).rest()[0] && (t.kind@ is EndOfFile ==> (
                final(self).seen@ == old(self).seen@ && old(self).rest() == seq![
                    TokenView::EndOfFile,
                ])) && (!(t.kind@ is EndOfFile) ==> (final(self).seen@ == old(self).seen@.push(
                    t.kind@,
                ) && final(self).mu() < old(self).mu())),
                Err(e) => error_ok(old(self).src(), old(self).sid(), old(self).start(), e),
            },
    {
        proof {
            self.lexer.lemma_pos();
        }
        match self.lookahead.take() {
            Some(tok) => {
                proof {
                    let s = self.lexer.text();
                    if tok.kind@ is EndOfFile {
                        lemma_tokens_step(s, s.len() as int);
                        assert(skip_from(s, s.len() as int, false) == s.len());
                    } else {
                        self.seen@ = self.seen@.push(tok.kind@);
                        assert(old(self).seen@ + old(self).rest() =~= self.seen@ + self.rest());
                        assert(self.seen@ =~= old(self).seen@ + seq![tok.kind@]);
                        Self::lemma_rest_skip(*old(self), *self, seq![tok.kind@]);
                    }
                }
                Ok(tok)
            },
            None => {
                let r = self.read();
                proof {
                    self.lexer.lemma_pos();
                    if let Ok(ref t) = r {
                        let s = self.lexer.text();
                        if t.kind@ is EndOfFile {
                            lemma_tokens_step(s, s.len() as int);
                            assert(skip_from(s, s.len() as int, false) == s.len());
                        } else {
                            self.seen@ = self.seen@.push(t.kind@);
                            assert(old(self).seen@ + old(self).rest() =~= self.seen@ + self.rest());
                            assert(self.seen@ =~= old(self).seen@ + seq![t.kind@]);
                            Self::lemma_rest_skip(*old(self), *self, seq![t.kind@]);
                        }
                    }
                }
                r
            },
        }
    }

    /// Makes sure the next token is in the lookahead slot.
    fn fill(&mut self) -> (r: Result<(), LangError>)
        requires
            old(self).wf(),
        ensures
            final(self).same_tree(old(self)),
            final(self).seen@ == old(self).seen@,
            final(self).mu() <= old(self).mu(),
            old(self).lookahead is Some ==> final(self).lookahead == old(self).lookahead,
            old(self).rest().len() > 0 ==> r is Ok,
            match r {
                Ok(_) => final(self).wf() && final(self).lookahead is Some && final(self).rest()
                    == old(self).rest() && old(self).rest().len() > 0 && final(self).next() == old(
                    self,
                ).rest()[0],
                Err(e) => error_ok(old(self).src(), old(self).sid(), old(self).start(), e),
            },
    {
        proof {
            self.lexer.lemma_pos();
        }
        if self.lookahead.is_none() {
            let r = self.read();
            proof {
                self.lexer.lemma_pos();
            }
            match r {
                Ok(t) => {
                    self.lookahead = Some(t);
                    Ok(())
                },
                Err(e) => Err(e),
            }
        } else {
            Ok(())
        }
    }

    /// Whether the next token is the symbol `s`.
    fn peek_symbol(&mut self, s: Symbol) -> (r: Result<bool, LangError>)
        requires
            old(self).wf(),
        ensures
            final(self).same_tree(old(self)),
            final(self).seen@ == old(self).seen@,
            final(self).mu() <= old(self).mu(),
            old(self).lookahead is Some ==> final(self).lookahead == old(self).lookahead,
            old(self).rest().len() > 0 ==> r is Ok,
            match r {
                Ok(b) => final(self).wf() && final(self).lookahead is Some && final(self).rest()
                    == old(self).rest() && b == (final(self).next() == sym(s)),
                Err(e) => error_ok(old(self).src(), old(self).sid(), old(self).start(), e),
            },
    {
        self.fill()?;
        match &self.lookahead {
            Some(t) => Ok(t.kind.is_symbol(s)),
            None => Ok(false),
        }
    }

    /// Whether the next token is the keyword `k`.
    fn peek_keyword(&mut self, k: Keyword) -> (r: Result<bool, LangError>)
        requires
            old(self).wf(),
        ensures
            final(self).same_tree(old(self)),
            final(self).seen@ == old(self).seen@,
            final(self).mu() <= old(self).mu(),
            old(self).lookahead is Some ==> final(self).lookahead == old(self).lookahead,
            match r {
                Ok(b) => final(self).wf() && final(self).lookahead is Some && final(self).rest()
                    == old(self).rest() && b == (final(self).next() == kw(k)),
                Err(e) => error_ok(old(self).src(), old(self).sid(), old(self).start(), e),
            },
    {
        self.fill()?;
        match &self.lookahead {
            Some(t) => Ok(t.kind.is_keyword(k)),
            None => Ok(false),
        }
    }

    /// Whether the next token ends a run closed by `term`.
    fn peek_terminator(&mut self, term: Terminator) -> (r: Result<bool, LangError>)
        requires
            old(self).wf(),
        ensures
            final(self).same_tree(old(self)),
            final(self).seen@ == old(self).seen@,
            final(self).mu() <= old(self).mu(),
            old(self).lookahead is Some ==> final(self).lookahead == old(self).lookahead,
            old(self).rest().len() > 0 ==> r is Ok,
            match r {
                Ok(b) => final(self).wf() && final(self).lookahead is Some && final(self).rest()
                    == old(self).rest() && b == terminates(term, final(self).next()),
                Err(e) => error_ok(old(self).src(), old(self).sid(), old(self).start(), e),
            },
    {
        self.fill()?;
        match &self.lookahead {
            Some(t) => {
                let k = &t.kind;
                Ok(
                    match term {
                        Terminator::EndOfFile => k.is_eof(),
                        Terminator::RParen => k.is_symbol(Symbol::RParen),
                        Terminator::End => k.is_keyword(Keyword::End),
                        Terminator::ElseOrEnd => k.is_keyword(Keyword::Else) || k.is_keyword(
                            Keyword::End,
                        ),
                        Terminator::CatchElseOrEnd => k.is_keyword(Keyword::Catch) || k.is_keyword(
                            Keyword::Else,
                        ) || k.is_keyword(Keyword::End),
                    },
                )
            },
            None => Ok(false),
        }
    }

    /// The binary operator the next token stands for, if any.
    fn peek_binary_op(&mut self) -> (r: Result<Option<BinaryOp>, LangError>)
        requires
            old(self).wf(),
        ensures
            final(self).same_tree(old(self)),
            final(self).seen@ == old(self).seen@,
            final(self).mu() <= old(self).mu(),
            old(self).lookahead is Some ==> final(self).lookahead == old(self).lookahead,
            old(self).rest().len() > 0 ==> r is Ok,
            match r {
                Ok(o) => final(self).wf() && final(self).lookahead is Some && final(self).rest()
                    == old(self).rest() && o == binary_op_of(final(self).next()),
                Err(e) => error_ok(old(self).src(), old(self).sid(), old(self).start(), e),
            },
    {
        self.fill()?;
        match &self.lookahead {
            Some(t) => Ok(Self::token_to_binary_op(&t.kind)),
            None => Ok(None),
        }
    }

    /// The span of the next token.
    fn peek_span(&mut self) -> (r: Result<Span, LangError>)
        requires
            old(self).wf(),
        ensures
            final(self).same_tree(old(self)),
            final(self).seen@ == old(self).seen@,
            final(self).mu() <= old(self).mu(),
            old(self).lookahead is Some ==> final(self).lookahead == old(self).lookahead,
            old(self).rest().len() > 0 ==> r is Ok,
            match r {
                Ok(sp) => final(self).wf() && final(self).lookahead is Some && final(self).rest()
                    == old(self).rest() && span_ok(old(self).src(), old(self).sid(), sp),
                Err(e) => error_ok(old(self).src(), old(self).sid(), old(self).start(), e),
            },
    {
        self.fill()?;
        match &self.lookahead {
            Some(t) => Ok(t.span),
            None => Ok(Span::internal()),
        }
    }

    /// The binary operator a token kind stands for, if any.
    fn token_to_binary_op(kind: &TokenKind) -> (r: Option<BinaryOp>)
        ensures
            r == binary_op_of(kind@),
    {
        match kind {
            TokenKind::Symbol(s) => match s {
                Symbol::Eq => Some(BinaryOp::Assign),
                Symbol::PipeGt => Some(BinaryOp::Pipe),
                Symbol::OrOr => Some(BinaryOp::Or),
                Symbol::AndAnd => Some(BinaryOp::And),
                Symbol::EqEq => Some(BinaryOp::Eq),
                Symbol::NotEq => Some(BinaryOp::NotEq),
                Symbol::Lt => Some(BinaryOp::Lt),
                Symbol::Lte => Some(BinaryOp::Lte),
                Symbol::Gt => Some(BinaryOp::Gt),
                Symbol::Gte => Some(BinaryOp::Gte),
                Symbol::Plus => Some(BinaryOp::Add),
                Symbol::Minus => Some(BinaryOp::Sub),
                Symbol::Star => Some(BinaryOp::Mul),
                Symbol::Slash => Some(BinaryOp::Div),
                Symbol::Percent => Some(BinaryOp::Rem),
                _ => None,
            },
            _ => None,
        }
    }

    /// The binding powers of `op`.
    fn binary_binding_power(op: BinaryOp) -> (r: (u8, u8))
        ensures
            r.0 == binding(op).0,
            r.1 == binding(op).1,
    {
        match op {
            BinaryOp::Assign => right_assoc(10),
            BinaryOp::Pipe => left_assoc(20),
            BinaryOp::Or => left_assoc(30),
            BinaryOp::And => left_assoc(40),
            BinaryOp::Eq | BinaryOp::NotEq => left_assoc(50),
            BinaryOp::Lt | BinaryOp::Lte | BinaryOp::Gt | BinaryOp::Gte => left_assoc(60),
            BinaryOp::Add | BinaryOp::Sub => left_assoc(70),
            BinaryOp::Mul | BinaryOp::Div | BinaryOp::Rem => left_assoc(80),
        }
    }

    /// Takes the next token if it is the symbol `s`.
    fn take_if_symbol(&mut self, s: Symbol) -> (r: Result<bool, LangError>)
        requires
            old(self).wf(),
        ensures
            final(self).same_tree(old(self)),
            final(self).mu() <= old(self).mu(),
            old(self).rest().len() > 0 ==> (r matches Ok(b) && b == (old(self).rest()[0] == sym(s)) && (b
                ==> final(self).rest() == old(self).rest().skip(1))),
            match r {
                Ok(b) => final(self).wf() && (b ==> final(self).seen@ == old(self).seen@.push(sym(s))
                    && final(self).mu() < old(self).mu()) && (!b ==> final(self).seen@ == old(
                    self,
                ).seen@ && final(self).lookahead is Some && final(self).next() != sym(s)
                    && final(self).rest() == old(self).rest()),
                Err(e) => error_ok(old(self).src(), old(self).sid(), old(self).start(), e),
            },
    {
        if self.peek_symbol(s)? {
            let t = self.take()?;
            Ok(true)
        } else {
            Ok(false)
        }
    }

    /// Takes the next token if it is the keyword `k`.
    fn take_if_keyword(&mut self, k: Keyword) -> (r: Result<bool, LangError>)
        requires
            old(self).wf(),
        ensures
            final(self).same_tree(old(self)),
            final(self).mu() <= old(self).mu(),
            match r {
                Ok(b) => final(self).wf() && (b ==> final(self).seen@ == old(self).seen@.push(kw(k))
                    && final(self).mu() < old(self).mu()) && (!b ==> final(self).seen@ == old(
                    self,
                ).seen@ && final(self).lookahead is Some && final(self).next() != kw(k)
                    && final(self).rest() == old(self).rest()),
                Err(e) => error_ok(old(self).src(), old(self).sid(), old(self).start(), e),
            },
    {
        if self.peek_keyword(k)? {
            let t = self.take()?;
            Ok(true)
        } else {
            Ok(false)
        }
    }

    /// Takes the next token, which must be the symbol `s`.
    fn expect_symbol(&mut self, s: Symbol) -> (r: Result<Span, LangError>)
        requires
            old(self).wf(),
        ensures
            final(self).same_tree(old(self)),
            final(self).mu() <= old(self).mu(),
            old(self).rest().len() > 0 && old(self).rest()[0] == sym(s) ==> r is Ok && final(self).rest() == old(self).rest().skip(1),
            match r {
                Ok(sp) => final(self).wf() && final(self).seen@ == old(self).seen@.push(sym(s))
                    && final(self).mu() < old(self).mu() && span_ok(old(self).src(), old(self).sid(), sp),
                Err(e) => error_ok(old(self).src(), old(self).sid(), old(self).start(), e),
            },
    {
        let token = self.take()?;
        if token.kind.is_symbol(s) {
            Ok(token.span)
        } else {
            let expected = TokenKind::Symbol(s).describe();
            Err(LangError::expected_token(expected.as_str(), &token.kind, token.span))
        }
    }

    /// Takes the next token, which must be the keyword `k`.
    fn expect_keyword(&mut self, k: Keyword) -> (r: Result<Span, LangError>)
        requires
            old(self).wf(),
        ensures
            final(self).same_tree(old(self)),
            final(self).mu() <= old(self).mu(),
            old(self).rest().len() > 0 && old(self).rest()[0] == kw(k) ==> r is Ok && final(self).rest() == old(self).rest().skip(1),
            match r {
                Ok(sp) => final(self).wf() && final(self).seen@ == old(self).seen@.push(kw(k))
                    && final(self).mu() < old(self).mu() && span_ok(old(self).src(), old(self).sid(), sp),
                Err(e) => error_ok(old(self).src(), old(self).sid(), old(self).start(), e),
            },
    {
        let token = self.take()?;
        if token.kind.is_keyword(k) {
            Ok(token.span)
        } else {
            let expected = TokenKind::Keyword(k).describe();
            Err(LangError::expected_token(expected.as_str(), &token.kind, token.span))
        }
    }

    /// Takes the next token, which must be an identifier.
    fn expect_identifier(&mut self) -> (r: Result<(String, Span), LangError>)
        requires
            old(self).wf(),
        ensures
            final(self).same_tree(old(self)),
            final(self).mu() <= old(self).mu(),
            old(self).rest().len() > 0 && old(self).rest()[0] is Identifier ==> r is Ok && final(self).rest() == old(self).rest().skip(1),
            r matches Ok((n, sp)) ==> old(self).rest().len() > 0 && old(self).rest()[0] == TokenView::Identifier(n@),
            match r {
                Ok((n, sp)) => final(self).wf() && final(self).seen@ == old(self).seen@.push(
                    TokenView::Identifier(n@),
                ) && final(self).mu() < old(self).mu() && span_ok(old(self).src(), old(self).sid(), sp),
                Err(e) => error_ok(old(self).src(), old(self).sid(), old(self).start(), e),
            },
    {
        let token = self.take()?;
        match token.kind {
            TokenKind::Identifier(n) => Ok((n, token.span)),
            other => Err(LangError::expected_token("\"identifier\"", &other, token.span)),
        }
    }

    /// Adds a node that follows its rule, with `t` the tokens it was read from.
    fn add_node(&mut self, kind: NodeKind, span: Span, Ghost(t): Ghost<Seq<TokenView>>) -> (id:
        NodeId)
        requires
            old(self).wf(),
            span_ok(old(self).src(), old(self).sid(), span),
            node_ok(
                old(self).ast.nodes().push(Node { kind, span }),
                old(self).toks@.push(t),
                old(self).ast.nodes().len() as int,
            ),
        ensures
            final(self).wf(),
            id.0 == old(self).ast.nodes().len(),
            final(self).ast.nodes() == old(self).ast.nodes().push(Node { kind, span }),
            final(self).toks@ == old(self).toks@.push(t),
            final(self).seen@ == old(self).seen@,
            final(self).lookahead == old(self).lookahead,
            final(self).lexer == old(self).lexer,
            final(self).start@ == old(self).start@,
            final(self).grows(old(self)),
    {
        let ghost n0 = self.ast.nodes();
        let ghost t0 = self.toks@;
        let id = self.ast.add(kind, span);
        proof {
            self.toks@ = self.toks@.push(t);
            let ns = self.ast.nodes();
            let ts = self.toks@;
            assert forall|i: int| 0 <= i < ns.len() implies #[trigger] node_ok(
                ns.take(i + 1),
                ts.take(i + 1),
                i,
            ) by {
                if i < n0.len() {
                    assert(ns.take(i + 1) =~= n0.take(i + 1));
                    assert(ts.take(i + 1) =~= t0.take(i + 1));
                } else {
                    assert(ns.take(i + 1) =~= ns);
                    assert(ts.take(i + 1) =~= ts);
                }
            }
            assert forall|i: int| 0 <= i < ns.len() implies span_ok(
                self.src(),
                self.sid(),
                #[trigger] ns[i].span,
            ) by {
                if i < n0.len() {
                    assert(ns[i] == n0[i]);
                }
            }
        }
        id
    }
}


proof fn lemma_binary_token(v: TokenView, op: BinaryOp)
    requires
        binary_op_of(v) == Some(op),
    ensures
        v == binary_token(op),
{
}

/// The tokens of an expression: not empty, and not starting with `.`.
pub open spec fn expr_start(t: Seq<TokenView>) -> bool {
    t.len() > 0 && t[0] != sym(Symbol::Dot)
}

/// A function node among `ns` is written with its keyword `fn` first.
pub open spec fn fn_marked(ns: Seq<Node>, t: Seq<Seq<TokenView>>, id: NodeId) -> bool {
    ns[id.0 as int].kind is Function ==> t[id.0 as int].len() > 0 && t[id.0 as int][0] == kw(
        Keyword::Fn,
    )
}

/// The span covering `a` and `b`.
fn join(a: Span, b: Span, Ghost(s): Ghost<Seq<char>>, Ghost(sid): Ghost<SourceId>) -> (r: Span)
    requires
        span_ok(s, sid, a),
        span_ok(s, sid, b),
    ensures
        span_ok(s, sid, r),
        a.source == b.source ==> r == crate::source::merged(a, b),
        a.source != b.source && a.is_internal() ==> r == b,
        a.source != b.source && !a.is_internal() ==> r == a,
{
    let r = a.cover(b);
    proof {
        assert(s.take(0) =~= Seq::<char>::empty());
        assert(byte_len(Seq::<char>::empty()) == 0);
        assert(byte_len(s.take(0)) == 0);
        if a.source == b.source && !r.is_internal() {
            assert(is_boundary(s, a.start as int));
            assert(is_boundary(s, b.start as int));
            if a.is_internal() || b.is_internal() {
                assert(is_boundary(s, 0));
            }
        }
    }
    r
}

impl Parser {
    /// `self` is `old` with the node `id` added last and the tokens it spells read.
    spec fn made(&self, old: &Parser, id: NodeId) -> bool {
        &&& self.wf()
        &&& self.grows(old)
        &&& old.ast.nodes().len() <= id.0 < self.ast.nodes().len()
        &&& self.seen@ == old.seen@ + self.toks@[id.0 as int]
        &&& self.mu() < old.mu()
        &&& expr_start(self.toks@[id.0 as int])
        &&& operand_ok(self.ast.nodes(), self.toks@, id)
    }

    /// A node that could stand as an operand still can once more tokens are
    /// read and more nodes added.
    proof fn lemma_keep_operand(a: Parser, b: Parser, id: NodeId)
        requires
            a.wf(),
            b.grows(&a),
            b.wf(),
            id.0 < a.ast.nodes().len(),
            operand_ok(a.ast.nodes(), a.toks@, id),
        ensures
            operand_ok(b.ast.nodes(), b.toks@, id),
    {
        let i = id.0 as int;
        assert(node_ok(a.ast.nodes().take(i + 1), a.toks@.take(i + 1), i));
        lemma_operand_frame(a.ast.nodes(), a.toks@, b.ast.nodes(), b.toks@, id);
    }

    /// A callee and the values of arguments that could stand as operands
    /// still can once more tokens are read and more nodes added.
    proof fn lemma_keep_args(a: Parser, b: Parser, callee: NodeId, args: Seq<CallArg>)
        requires
            a.wf(),
            b.wf(),
            b.grows(&a),
            callee.0 < a.ast.nodes().len(),
            operand_ok(a.ast.nodes(), a.toks@, callee),
            forall|j: int| 0 <= j < args.len() ==> (#[trigger] args[j]).value.0 < a.ast.nodes().len()
                && operand_ok(a.ast.nodes(), a.toks@, args[j].value),
        ensures
            operand_ok(b.ast.nodes(), b.toks@, callee),
            forall|j: int| 0 <= j < args.len() ==> operand_ok(b.ast.nodes(), b.toks@, (#[trigger] args[j]).value),
    {
        Self::lemma_keep_operand(a, b, callee);
        assert forall|j: int| 0 <= j < args.len() implies operand_ok(b.ast.nodes(), b.toks@, (#[trigger] args[j]).value) by {
            Self::lemma_keep_operand(a, b, args[j].value);
        }
    }

    /// Nodes that could stand as operands still can once more tokens are
    /// read and more nodes added.
    proof fn lemma_keep_ids(a: Parser, b: Parser, ids: Seq<NodeId>)
        requires
            a.wf(),
            b.wf(),
            b.grows(&a),
            below(ids, a.ast.nodes().len() as int),
            forall|j: int| 0 <= j < ids.len() ==> operand_ok(a.ast.nodes(), a.toks@, #[trigger] ids[j]),
        ensures
            forall|j: int| 0 <= j < ids.len() ==> operand_ok(b.ast.nodes(), b.toks@, #[trigger] ids[j]),
    {
        assert forall|j: int| 0 <= j < ids.len() implies operand_ok(b.ast.nodes(), b.toks@, #[trigger] ids[j]) by {
            Self::lemma_keep_operand(a, b, ids[j]);
        }
    }

    /// The defaults of parameters `ps` are nodes that can stand as operands.
    spec fn defaults_ok(&self, ps: Seq<Param>) -> bool {
        forall|j: int| 0 <= j < ps.len() ==> match (#[trigger] ps[j]).kind {
            ParamKind::Optional(d) => d.0 < self.ast.nodes().len() && operand_ok(self.ast.nodes(), self.toks@, d),
            _ => true,
        }
    }

    /// The values of table items `its`, and their keys that are spelled by
    /// tokens, are nodes that can stand as operands.
    spec fn items_ok(&self, its: Seq<TableItem>) -> bool {
        forall|j: int| 0 <= j < its.len() ==> (#[trigger] its[j]).value.0 < self.ast.nodes().len()
            && its[j].key.0 < self.ast.nodes().len() && operand_ok(self.ast.nodes(), self.toks@, its[j].value)
            && (self.toks@[its[j].key.0 as int].len() > 0 ==> operand_ok(self.ast.nodes(), self.toks@, its[j].key))
    }

    /// The filters of catch arms `arms` are nodes that can stand as operands.
    spec fn filters_ok(&self, arms: Seq<CatchArm>) -> bool {
        forall|j: int| 0 <= j < arms.len() ==> match (#[trigger] arms[j]).kind_filter {
            Some(f) => f.0 < self.ast.nodes().len() && operand_ok(self.ast.nodes(), self.toks@, f),
            None => true,
        }
    }

    proof fn lemma_keep_lists(a: Parser, b: Parser, ps: Seq<Param>, its: Seq<TableItem>, arms: Seq<CatchArm>)
        requires
            a.wf(),
            b.wf(),
            b.grows(&a),
        ensures
            a.defaults_ok(ps) ==> b.defaults_ok(ps),
            a.items_ok(its) ==> b.items_ok(its),
            a.filters_ok(arms) ==> b.filters_ok(arms),
    {
        if a.defaults_ok(ps) {
            assert forall|j: int| 0 <= j < ps.len() implies match (#[trigger] ps[j]).kind {
                ParamKind::Optional(d) => d.0 < b.ast.nodes().len() && operand_ok(b.ast.nodes(), b.toks@, d),
                _ => true,
            } by {
                if let ParamKind::Optional(d) = ps[j].kind {
                    Self::lemma_keep_operand(a, b, d);
                }
            }
        }
        if a.items_ok(its) {
            assert forall|j: int| 0 <= j < its.len() implies (#[trigger] its[j]).value.0 < b.ast.nodes().len()
                && its[j].key.0 < b.ast.nodes().len() && operand_ok(b.ast.nodes(), b.toks@, its[j].value)
                && (b.toks@[its[j].key.0 as int].len() > 0 ==> operand_ok(b.ast.nodes(), b.toks@, its[j].key)) by {
                Self::lemma_keep_operand(a, b, its[j].value);
                assert(b.toks@[its[j].key.0 as int] == a.toks@[its[j].key.0 as int]);
                if a.toks@[its[j].key.0 as int].len() > 0 {
                    Self::lemma_keep_operand(a, b, its[j].key);
                }
            }
        }
        if a.filters_ok(arms) {
            assert forall|j: int| 0 <= j < arms.len() implies match (#[trigger] arms[j]).kind_filter {
                Some(f) => f.0 < b.ast.nodes().len() && operand_ok(b.ast.nodes(), b.toks@, f),
                None => true,
            } by {
                if let Some(f) = arms[j].kind_filter {
                    Self::lemma_keep_operand(a, b, f);
                }
            }
        }
    }

    /// A node that can stand as an operand still can once a node is added.
    proof fn lemma_operand_push(&self, id: NodeId, n: Node, t: Seq<TokenView>)
        requires
            self.wf(),
            id.0 < self.ast.nodes().len(),
            operand_ok(self.ast.nodes(), self.toks@, id),
        ensures
            operand_ok(self.ast.nodes().push(n), self.toks@.push(t), id),
    {
        let i = id.0 as int;
        assert(node_ok(self.ast.nodes().take(i + 1), self.toks@.take(i + 1), i));
        lemma_operand_frame(self.ast.nodes(), self.toks@, self.ast.nodes().push(n), self.toks@.push(t), id);
    }

    /// `self` is `old` with the node `id` added last; the tokens read since
    /// `base` spell it.
    spec fn built(&self, old: &Parser, base: Seq<TokenView>, id: NodeId) -> bool {
        &&& self.wf()
        &&& self.grows(old)
        &&& old.ast.nodes().len() <= id.0 < self.ast.nodes().len()
        &&& self.seen@ == base + self.toks@[id.0 as int]
        &&& self.mu() < old.mu()
    }

    /// The next token does not continue an operand of strength `min`.
    spec fn stops_at(&self, min: int) -> bool {
        &&& self.lookahead is Some
        &&& !is_postfix(self.next())
        &&& match binary_op_of(self.next()) {
            Some(op) => binding(op).0 < min,
            None => true,
        }
    }

    /// Parses an expression.
    fn parse_expression(&mut self) -> (r: Result<NodeId, LangError>)
        requires
            old(self).wf(),
        ensures
            old(self).rest().len() > 0 && old(self).rest()[0] is EndOfFile ==> (r matches Err(e)
                && e.kind@ is UnexpectedEof),
            operand_run(old(self).rest()) && is_atom(old(self).rest()[0]) ==> (r matches Err(e)
                ==> e.kind@ is UnexpectedEof) && (r is Ok ==> operand_run(final(self).rest())
                && ends_in_operator(final(self).rest()) == ends_in_operator(old(self).rest()))
                && (!ends_in_operator(old(self).rest()) ==> r is Ok),
            old(self).rest().len() >= 2 && is_atom(old(self).rest()[0]) && ends_operand(old(self).rest()[1])
                ==> r is Ok && final(self).rest() == old(self).rest().skip(1),
            misordered_function(old(self).rest()) ==> (r matches Err(e) && e.kind@
                == ErrorKindView::InvalidSyntax("required parameter after optional"@) && e.message@
                == param_message(old(self).rest()[2 + misordered_at(old(self).rest().skip(1).skip(1), false)])),
            simple_function_first(old(self).rest()) ==> r is Ok && final(self).rest() == after_function(
                old(self).rest().skip(1),
            ),
            simple_call_first(old(self).rest(), true) ==> r is Ok && final(self).rest() == after_call(
                old(self).rest().skip(2),
            ),
            simple_call_first(old(self).rest(), false) ==> (r matches Err(e) && e.kind@
                == ErrorKindView::InvalidSyntax("syntax error"@) && e.message@
                == "positional argument cannot follow a named argument"@),
            simple_table_first(old(self).rest()) ==> r is Ok && final(self).rest() == after_items(
                old(self).rest().skip(1),
            ),
            match r {
                Ok(id) => final(self).made(old(self), id) && final(self).stops_at(0) && fn_marked(
                    final(self).ast.nodes(),
                    final(self).toks@,
                    id,
                ),
                Err(e) => error_ok(old(self).src(), old(self).sid(), old(self).start(), e),
            },
        decreases old(self).mu(), 3nat,
    {
        self.parse_precedence(0)
    }

    /// Parses an expression whose operators bind at least as strongly as `min_bp`.
    #[verifier::rlimit(60)]
    fn parse_precedence(&mut self, min_bp: u8) -> (r: Result<NodeId, LangError>)
        requires
            old(self).wf(),
            min_bp <= 100,
        ensures
            old(self).rest().len() > 0 && old(self).rest()[0] is EndOfFile ==> (r matches Err(e)
                && e.kind@ is UnexpectedEof),
            operand_run(old(self).rest()) && is_atom(old(self).rest()[0]) ==> (r matches Err(e)
                ==> e.kind@ is UnexpectedEof) && (r is Ok ==> operand_run(final(self).rest())
                && ends_in_operator(final(self).rest()) == ends_in_operator(old(self).rest()))
                && (!ends_in_operator(old(self).rest()) ==> r is Ok),
            old(self).rest().len() >= 2 && is_atom(old(self).rest()[0]) && ends_operand(old(self).rest()[1])
                ==> r is Ok && final(self).rest() == old(self).rest().skip(1),
            misordered_function(old(self).rest()) ==> (r matches Err(e) && e.kind@
                == ErrorKindView::InvalidSyntax("required parameter after optional"@) && e.message@
                == param_message(old(self).rest()[2 + misordered_at(old(self).rest().skip(1).skip(1), false)])),
            simple_function_first(old(self).rest()) ==> r is Ok && final(self).rest() == after_function(
                old(self).rest().skip(1),
            ),
            simple_call_first(old(self).rest(), true) ==> r is Ok && final(self).rest() == after_call(
                old(self).rest().skip(2),
            ),
            simple_call_first(old(self).rest(), false) ==> (r matches Err(e) && e.kind@
                == ErrorKindView::InvalidSyntax("syntax error"@) && e.message@
                == "positional argument cannot follow a named argument"@),
            simple_table_first(old(self).rest()) ==> r is Ok && final(self).rest() == after_items(
                old(self).rest().skip(1),
            ),
            match r {
                Ok(id) => final(self).made(old(self), id) && final(self).stops_at(min_bp as int)
                    && fn_marked(final(self).ast.nodes(), final(self).toks@, id)
                    && match final(self).ast.nodes()[id.0 as int].kind {
                    NodeKind::Binary { op, .. } => binding(op).0 >= min_bp,
                    _ => true,
                },
                Err(e) => error_ok(old(self).src(), old(self).sid(), old(self).start(), e),
            },
        decreases old(self).mu(), 2nat,
    {
        let ghost s = self.src();
        let ghost sid = self.sid();
        let ghost base = self.seen@;
        let ghost run = operand_run(old(self).rest()) && is_atom(old(self).rest()[0]);
        let mut left = self.parse_prefix()?;
        proof {
            if run {
                lemma_run_skip(old(self).rest(), 1);
            }
        }
        loop
            invariant
                run == (operand_run(old(self).rest()) && is_atom(old(self).rest()[0])),
                old(self).rest().len() > 0 ==> !(old(self).rest()[0] is EndOfFile),
                !misordered_function(old(self).rest()),
                simple_table_first(old(self).rest()) ==> self.rest() == after_items(old(self).rest().skip(1)),
                simple_call_first(old(self).rest(), true) ==> self.rest() == old(self).rest().skip(1)
                    || self.rest() == after_call(old(self).rest().skip(2)),
                simple_call_first(old(self).rest(), false) ==> self.rest() == old(self).rest().skip(1),
                simple_function_first(old(self).rest()) ==> self.rest() == after_function(
                    old(self).rest().skip(1),
                ),
                old(self).rest().len() >= 2 && is_atom(old(self).rest()[0]) && ends_operand(old(self).rest()[1])
                    ==> self.rest() == old(self).rest().skip(1),
                run ==> operand_run(self.rest()) && ends_in_operator(self.rest()) == ends_in_operator(
                    old(self).rest(),
                ),
                self.made(old(self), left),
                fn_marked(self.ast.nodes(), self.toks@, left),
                base == old(self).seen@,
                min_bp <= 100,
                s == old(self).src(),
                sid == old(self).sid(),
                match self.ast.nodes()[left.0 as int].kind {
                    NodeKind::Binary { op: op1, .. } => self.lookahead is Some && !is_postfix(
                        self.next(),
                    ) && (binary_op_of(self.next()) matches Some(o) ==> binding(o).0 < binding(
                        op1,
                    ).1) && binding(op1).0 >= min_bp,
                    NodeKind::Unary { .. } => self.lookahead is Some && !is_postfix(self.next()),
                    _ => true,
                },
            ensures
                run ==> operand_run(self.rest()) && ends_in_operator(self.rest()) == ends_in_operator(
                    old(self).rest(),
                ),
                old(self).rest().len() >= 2 && is_atom(old(self).rest()[0]) && ends_operand(old(self).rest()[1])
                    ==> self.rest() == old(self).rest().skip(1),
                simple_function_first(old(self).rest()) ==> self.rest() == after_function(
                    old(self).rest().skip(1),
                ),
                simple_call_first(old(self).rest(), true) ==> self.rest() == after_call(
                    old(self).rest().skip(2),
                ),
                !simple_call_first(old(self).rest(), false),
                simple_table_first(old(self).rest()) ==> self.rest() == after_items(old(self).rest().skip(1)),
                self.made(old(self), left),
                fn_marked(self.ast.nodes(), self.toks@, left),
                self.stops_at(min_bp as int),
                match self.ast.nodes()[left.0 as int].kind {
                    NodeKind::Binary { op, .. } => binding(op).0 >= min_bp,
                    _ => true,
                },
            decreases self.mu(),
        {
            let ghost before = *self;
            proof {
                if run {
                    lemma_run_first(self.rest());
                }
            }
            if self.peek_symbol(Symbol::LParen)? {
                if 100 < min_bp {
                    break;
                }
                self.take()?;
                proof {
                    assert(self.seen@ =~= base + self.toks@[left.0 as int] + seq![sym(Symbol::LParen)]);
                    if simple_call_first(old(self).rest(), true) || simple_call_first(old(self).rest(), false) {
                        assert(self.rest() =~= old(self).rest().skip(2));
                    }
                }
                left = self.parse_call(left, Ghost(base))?;
                continue;
            }
            if self.peek_symbol(Symbol::Dot)? {
                if 100 < min_bp {
                    break;
                }
                self.take()?;
                proof {
                    assert(self.seen@ =~= base + self.toks@[left.0 as int] + seq![sym(Symbol::Dot)]);
                }
                left = self.parse_property(left, Ghost(base))?;
                continue;
            }
            if self.peek_symbol(Symbol::LBracket)? {
                if 100 < min_bp {
                    break;
                }
                self.take()?;
                proof {
                    assert(self.seen@ =~= base + self.toks@[left.0 as int] + seq![sym(Symbol::LBracket)]);
                }
                left = self.parse_index(left, Ghost(base))?;
                continue;
            }
            let op = match self.peek_binary_op()? {
                Some(op) => op,
                None => {
                    break;
                },
            };
            let (l_bp, r_bp) = Self::binary_binding_power(op);
            if l_bp < min_bp {
                break;
            }
            proof {
                lemma_binary_token(self.next(), op);
            }
            let ghost seen1 = self.seen@;
            let ghost pre_take = *self;
            let optok = self.take()?;
            proof {
                if run {
                    lemma_run_first(pre_take.rest());
                    assert(self.seen@ =~= pre_take.seen@ + seq![optok.kind@]);
                    Self::lemma_rest_skip(pre_take, *self, seq![optok.kind@]);
                    lemma_run_skip(pre_take.rest(), 1);
                }
            }
            let ghost pre_right = *self;
            let right = self.parse_precedence(r_bp)?;
            let span = join(
                self.ast.get(left).span,
                self.ast.get(right).span,
                Ghost(s),
                Ghost(sid),
            );
            let ghost t = self.toks@[left.0 as int] + seq![binary_token(op)] + self.toks@[right.0 as int];
            proof {
                assert(self.seen@ =~= base + t);
                Self::lemma_keep_operand(pre_right, *self, left);
                let n = Node { kind: NodeKind::Binary { op, left, right }, span };
                self.lemma_operand_push(left, n, t);
                self.lemma_operand_push(right, n, t);
            }
            left = self.add_node(NodeKind::Binary { op, left, right }, span, Ghost(t));
        }
        Ok(left)
    }

    /// Parses a unary operator and its operand, or a primary expression.
    fn parse_prefix(&mut self) -> (r: Result<NodeId, LangError>)
        requires
            old(self).wf(),
        ensures
            old(self).rest().len() > 0 && is_atom(old(self).rest()[0]) ==> r is Ok && final(self).rest()
                == old(self).rest().skip(1),
            old(self).rest().len() > 0 && old(self).rest()[0] is EndOfFile ==> (r matches Err(e)
                && e.kind@ is UnexpectedEof),
            misordered_function(old(self).rest()) ==> (r matches Err(e) && e.kind@
                == ErrorKindView::InvalidSyntax("required parameter after optional"@) && e.message@
                == param_message(old(self).rest()[2 + misordered_at(old(self).rest().skip(1).skip(1), false)])),
            old(self).rest().len() >= 1 && old(self).rest()[0] == kw(Keyword::Fn) && simple_function(
                old(self).rest().skip(1),
            ) == Some(true) ==> r is Ok && final(self).rest() == after_function(old(self).rest().skip(1)),
            old(self).rest().len() >= 1 && old(self).rest()[0] == sym(Symbol::LBrace) && simple_items(
                old(self).rest().skip(1),
            ) ==> r is Ok && final(self).rest() == after_items(old(self).rest().skip(1)),
            match r {
                Ok(id) => final(self).made(old(self), id) && fn_marked(final(self).ast.nodes(), final(self).toks@, id)
                    && !(final(self).ast.nodes()[id.0 as int].kind is Binary)
                    && (final(self).ast.nodes()[id.0 as int].kind is Unary ==> final(self).lookahead is Some
                    && !is_postfix(final(self).next())),
                Err(e) => error_ok(old(self).src(), old(self).sid(), old(self).start(), e),
            },
        decreases old(self).mu(), 1nat,
    {
        let ghost s = self.src();
        let ghost sid = self.sid();
        let ghost base = self.seen@;
        let neg = self.peek_symbol(Symbol::Minus)?;
        let not = if neg { false } else { self.peek_symbol(Symbol::Not)? };
        if neg || not {
            let op = self.take()?;
            let right = self.parse_precedence(90)?;
            let full = join(op.span, self.ast.get(right).span, Ghost(s), Ghost(sid));
            let uop = if neg { UnaryOp::Neg } else { UnaryOp::Not };
            let ghost t = seq![sym(if neg { Symbol::Minus } else { Symbol::Not })] + self.toks@[right.0 as int];
            proof {
                assert(self.seen@ =~= base + t);
                self.lemma_operand_push(right, Node { kind: NodeKind::Unary { op: uop, right }, span: full }, t);
            }
            return Ok(self.add_node(NodeKind::Unary { op: uop, right }, full, Ghost(t)));
        }
        self.parse_primary()
    }

    /// Parses a literal, a name, a parenthesized block or a keyword form.
    fn parse_primary(&mut self) -> (r: Result<NodeId, LangError>)
        requires
            old(self).wf(),
        ensures
            old(self).rest().len() > 0 && is_atom(old(self).rest()[0]) ==> r is Ok && final(self).rest()
                == old(self).rest().skip(1),
            old(self).rest().len() > 0 && old(self).rest()[0] is EndOfFile ==> (r matches Err(e)
                && e.kind@ is UnexpectedEof),
            misordered_function(old(self).rest()) ==> (r matches Err(e) && e.kind@
                == ErrorKindView::InvalidSyntax("required parameter after optional"@) && e.message@
                == param_message(old(self).rest()[2 + misordered_at(old(self).rest().skip(1).skip(1), false)])),
            old(self).rest().len() >= 1 && old(self).rest()[0] == kw(Keyword::Fn) && simple_function(
                old(self).rest().skip(1),
            ) == Some(true) ==> r is Ok && final(self).rest() == after_function(old(self).rest().skip(1)),
            old(self).rest().len() >= 1 && old(self).rest()[0] == sym(Symbol::LBrace) && simple_items(
                old(self).rest().skip(1),
            ) ==> r is Ok && final(self).rest() == after_items(old(self).rest().skip(1)),
            match r {
                Ok(id) => final(self).made(old(self), id) && !is_operator(final(self).ast.nodes()[id.0 as int])
                    && fn_marked(final(self).ast.nodes(), final(self).toks@, id),
                Err(e) => error_ok(old(self).src(), old(self).sid(), old(self).start(), e),
            },
        decreases old(self).mu(), 0nat,
    {
        let ghost base = self.seen@;
        let tok = self.take()?;
        proof {
            if !(tok.kind@ is EndOfFile) {
                assert(self.seen@ =~= old(self).seen@ + seq![tok.kind@]);
                Self::lemma_rest_skip(*old(self), *self, seq![tok.kind@]);
            }
            if misordered_function(old(self).rest()) {
                let r = old(self).rest();
                lemma_misordered(r.skip(1).skip(1), false);
                let m = misordered_at(r.skip(1).skip(1), false);
                assert(r.skip(1).skip(1)[m] == r[2 + m]);
                assert(r.skip(1)[1 + m] == r[2 + m]);
            }
        }
        let span = tok.span;
        if tok.kind.is_eof() {
            let e = LangError::expected_token("\"expression\"", &tok.kind, span);
            return Err(e.add_context(span));
        }
        match self.primary_body(tok, Ghost(base)) {
            Ok(id) => Ok(id),
            Err(e) => Err(e.add_context(span)),
        }
    }

    /// The rest of a primary expression whose first token `tok` was taken.
    fn primary_body(&mut self, tok: Token, Ghost(base): Ghost<Seq<TokenView>>) -> (r: Result<NodeId, LangError>)
        requires
            old(self).wf(),
            !(tok.kind@ is EndOfFile),
            old(self).seen@ == base.push(tok.kind@),
            span_ok(old(self).src(), old(self).sid(), tok.span),
        ensures
            is_atom(tok.kind@) ==> r is Ok && final(self).rest() == old(self).rest(),
            tok.kind@ == kw(Keyword::Fn) && simple_function(old(self).rest()) == Some(false) ==> (r matches Err(e)
                && e.kind@ == ErrorKindView::InvalidSyntax("required parameter after optional"@) && e.message@
                == param_message(old(self).rest()[1 + misordered_at(old(self).rest().skip(1), false)])),
            tok.kind@ == kw(Keyword::Fn) && simple_function(old(self).rest()) == Some(true) ==> r is Ok
                && final(self).rest() == after_function(old(self).rest()),
            tok.kind@ == sym(Symbol::LBrace) && simple_items(old(self).rest()) ==> r is Ok && final(self).rest()
                == after_items(old(self).rest()),
            match r {
                Ok(id) => final(self).wf() && final(self).grows(old(self)) && old(self).ast.nodes().len()
                    <= id.0 < final(self).ast.nodes().len() && final(self).seen@ == base
                    + final(self).toks@[id.0 as int] && final(self).mu() <= old(self).mu()
                    && final(self).toks@[id.0 as int].len() > 0 && final(self).toks@[id.0 as int][0] == tok.kind@
                    && !is_operator(final(self).ast.nodes()[id.0 as int])
                    && operand_ok(final(self).ast.nodes(), final(self).toks@, id)
                    && fn_marked(final(self).ast.nodes(), final(self).toks@, id)
                    && tok.kind@ != sym(Symbol::Dot),
                Err(e) => error_ok(old(self).src(), old(self).sid(), old(self).start(), e),
            },
        decreases old(self).mu(), 9nat,
    {
        let ghost tv = tok.kind@;
        let r = self.primary_match(tok, Ghost(base));
        proof {
            if let Ok(id) = r {
                let n = base.len() as int;
                assert(old(self).seen@[n] == tv);
                assert(self.seen@[n] == old(self).seen@[n]);
                assert(self.seen@.len() == n + self.toks@[id.0 as int].len());
                assert((base + self.toks@[id.0 as int])[n] == self.toks@[id.0 as int][0]);
            }
        }
        r
    }

    #[verifier::rlimit(50)]
    fn primary_match(&mut self, tok: Token, Ghost(base): Ghost<Seq<TokenView>>) -> (r: Result<NodeId, LangError>)
        requires
            old(self).wf(),
            !(tok.kind@ is EndOfFile),
            old(self).seen@ == base.push(tok.kind@),
            span_ok(old(self).src(), old(self).sid(), tok.span),
        ensures
            is_atom(tok.kind@) ==> r is Ok && final(self).rest() == old(self).rest(),
            tok.kind@ == kw(Keyword::Fn) && simple_function(old(self).rest()) == Some(false) ==> (r matches Err(e)
                && e.kind@ == ErrorKindView::InvalidSyntax("required parameter after optional"@) && e.message@
                == param_message(old(self).rest()[1 + misordered_at(old(self).rest().skip(1), false)])),
            tok.kind@ == kw(Keyword::Fn) && simple_function(old(self).rest()) == Some(true) ==> r is Ok
                && final(self).rest() == after_function(old(self).rest()),
            tok.kind@ == sym(Symbol::LBrace) && simple_items(old(self).rest()) ==> r is Ok && final(self).rest()
                == after_items(old(self).rest()),
            match r {
                Ok(id) => final(self).wf() && final(self).grows(old(self)) && old(self).ast.nodes().len()
                    <= id.0 < final(self).ast.nodes().len() && final(self).seen@ == base
                    + final(self).toks@[id.0 as int] && final(self).mu() <= old(self).mu()
                    && !is_operator(final(self).ast.nodes()[id.0 as int])
                    && operand_ok(final(self).ast.nodes(), final(self).toks@, id)
                    && fn_marked(final(self).ast.nodes(), final(self).toks@, id)
                    && tok.kind@ != sym(Symbol::Dot),
                Err(e) => error_ok(old(self).src(), old(self).sid(), old(self).start(), e),
            },
        decreases old(self).mu(), 8nat,
    {
        let span = tok.span;
        let ghost s = self.src();
        let ghost sid = self.sid();
        match tok.kind {
            TokenKind::Number(n) => {
                let ghost t = seq![TokenView::Number(n@)];
                proof {
                    assert(self.seen@ =~= base + t);
                }
                Ok(self.add_node(NodeKind::Number(n), span, Ghost(t)))
            },
            TokenKind::String(x) => {
                let ghost t = seq![TokenView::Str(x@)];
                proof {
                    assert(self.seen@ =~= base + t);
                }
                Ok(self.add_node(NodeKind::String(x), span, Ghost(t)))
            },
            TokenKind::Identifier(x) => {
                let ghost t = seq![TokenView::Identifier(x@)];
                proof {
                    assert(self.seen@ =~= base + t);
                }
                Ok(self.add_node(NodeKind::Identifier(x), span, Ghost(t)))
            },
            TokenKind::Keyword(Keyword::True) => {
                let ghost t = seq![kw(Keyword::True)];
                proof {
                    assert(self.seen@ =~= base + t);
                }
                Ok(self.add_node(NodeKind::Boolean(true), span, Ghost(t)))
            },
            TokenKind::Keyword(Keyword::False) => {
                let ghost t = seq![kw(Keyword::False)];
                proof {
                    assert(self.seen@ =~= base + t);
                }
                Ok(self.add_node(NodeKind::Boolean(false), span, Ghost(t)))
            },
            TokenKind::Keyword(Keyword::Nil) => {
                let ghost t = seq![kw(Keyword::Nil)];
                proof {
                    assert(self.seen@ =~= base + t);
                }
                Ok(self.add_node(NodeKind::Nil, span, Ghost(t)))
            },
            TokenKind::Symbol(Symbol::LParen) => {
                let inner = self.parse_block(Terminator::RParen)?;
                let ghost mid = self.seen@;
                self.expect_symbol(Symbol::RParen)?;
                proof {
                    assert forall|j: int| 0 <= j < old(self).seen@.len() implies #[trigger] self.seen@[j] == old(self).seen@[j] by {
                        assert(self.seen@[j] == mid[j]);
                    }
                    assert(self.seen@ =~= base + seq![sym(Symbol::LParen)] + self.toks@[inner.0 as int] + seq![sym(Symbol::RParen)]);
                }
                let ghost pre = *self;
                self.wrap_parens(inner, Ghost(base));
                proof {
                    assert forall|j: int| 0 <= j < old(self).seen@.len() implies #[trigger] self.seen@[j] == old(self).seen@[j] by {
                        assert(self.seen@[j] == pre.seen@[j]);
                    }
                    assert forall|j: int| 0 <= j < old(self).toks@.len() implies #[trigger] self.toks@[j] == old(self).toks@[j] by {
                        assert(self.toks@[j] == pre.toks@[j]);
                    }
                    assert(self.grows(old(self)));
                }
                Ok(inner)
            },
            TokenKind::Symbol(Symbol::LBrace) => self.parse_table(span, Ghost(base)),
            TokenKind::Keyword(Keyword::If) => self.parse_if(span, Ghost(base)),
            TokenKind::Keyword(Keyword::For) => self.parse_for(span, Ghost(base)),
            TokenKind::Keyword(Keyword::While) => self.parse_while(span, Ghost(base)),
            TokenKind::Keyword(Keyword::Let) => self.parse_declaration(span, Ghost(base)),
            TokenKind::Keyword(Keyword::Fn) => self.parse_function(span, Ghost(base), Ghost(true)),
            TokenKind::Keyword(Keyword::Break) => {
                let value = self.parse_expression()?;
                let end = join(self.ast.get(value).span, span, Ghost(s), Ghost(sid));
                let ghost t = seq![kw(Keyword::Break)] + self.toks@[value.0 as int];
                proof {
                    assert(self.seen@ =~= base + t);
                    self.lemma_operand_push(value, Node { kind: NodeKind::Break(value), span: end }, t);
                }
                let ghost mid = *self;
                let id = self.add_node(NodeKind::Break(value), end, Ghost(t));
                proof {
                    Self::lemma_grows_trans(*old(self), mid, *self);
                }
                Ok(id)
            },
            TokenKind::Keyword(Keyword::Continue) => {
                let ghost t = seq![kw(Keyword::Continue)];
                proof {
                    assert(self.seen@ =~= base + t);
                }
                Ok(self.add_node(NodeKind::Continue, span, Ghost(t)))
            },
            TokenKind::Keyword(Keyword::Return) => {
                let value = self.parse_expression()?;
                let end = join(self.ast.get(value).span, span, Ghost(s), Ghost(sid));
                let ghost t = seq![kw(Keyword::Return)] + self.toks@[value.0 as int];
                proof {
                    assert(self.seen@ =~= base + t);
                    self.lemma_operand_push(value, Node { kind: NodeKind::Return(value), span: end }, t);
                }
                let ghost mid = *self;
                let id = self.add_node(NodeKind::Return(value), end, Ghost(t));
                proof {
                    Self::lemma_grows_trans(*old(self), mid, *self);
                }
                Ok(id)
            },
            TokenKind::Keyword(Keyword::Try) => self.parse_try_catch(span, Ghost(base)),
            other => Err(LangError::expected_token("\"expression\"", &other, span)),
        }
    }

    /// Marks the block just parsed as written between parentheses.
    fn wrap_parens(&mut self, id: NodeId, Ghost(base): Ghost<Seq<TokenView>>)
        requires
            old(self).wf(),
            id.0 == old(self).ast.nodes().len() - 1,
            old(self).ast.nodes()[id.0 as int].kind is Block,
            old(self).toks@[id.0 as int] == concat_ids(
                old(self).toks@,
                old(self).ast.nodes()[id.0 as int].kind->Block_nodes@,
            ),
            old(self).seen@ == base + seq![sym(Symbol::LParen)] + old(self).toks@[id.0 as int]
                + seq![sym(Symbol::RParen)],
        ensures
            final(self).wf(),
            final(self).ast.nodes() == old(self).ast.nodes(),
            final(self).seen@ == base + final(self).toks@[id.0 as int],
            final(self).seen@ == old(self).seen@,
            parenthesized(final(self).ast.nodes(), final(self).toks@, id),
            final(self).toks@.len() == old(self).toks@.len(),
            forall|j: int| 0 <= j < id.0 ==> #[trigger] final(self).toks@[j] == old(self).toks@[j],
            final(self).lookahead == old(self).lookahead,
            final(self).lexer == old(self).lexer,
            final(self).start@ == old(self).start@,
    {
        proof {
            let ns = self.ast.nodes();
            let t0 = self.toks@;
            let i = id.0 as int;
            let own = seq![sym(Symbol::LParen)] + t0[i] + seq![sym(Symbol::RParen)];
            let t1 = t0.update(i, own);
            let ch = ns[i].kind->Block_nodes@;
            assert(node_ok(ns.take(i + 1), t0.take(i + 1), i));
            assert(ns.take(i + 1) =~= ns);
            assert(t0.take(i + 1) =~= t0);
            lemma_concat_frame(t0, t1, ch, i);
            assert forall|j: int| 0 <= j < ch.len() implies operand_ok(ns, t1, #[trigger] ch[j]) by {
                let c = ch[j];
                assert(operand_ok(ns.take(i + 1), t0.take(i + 1), c));
                assert(node_ok(ns.take(c.0 + 1), t0.take(c.0 + 1), c.0 as int));
                lemma_operand_frame(ns, t0, ns, t1, c);
            }
            assert forall|k: int| 0 <= k < ns.len() implies #[trigger] node_ok(
                ns.take(k + 1),
                t1.take(k + 1),
                k,
            ) by {
                if k < i {
                    assert(t1.take(k + 1) =~= t0.take(k + 1));
                } else {
                    assert(t1.take(k + 1) =~= t1);
                }
            }
            self.toks@ = t1;
            assert(self.seen@ =~= base + self.toks@[i]);
        }
    }

    /// The arguments and closing parenthesis of a call of `callee`.
    #[verifier::rlimit(100)]
    fn parse_call(&mut self, callee: NodeId, Ghost(base): Ghost<Seq<TokenView>>) -> (r: Result<NodeId, LangError>)
        requires
            old(self).wf(),
            expr_start(old(self).toks@[callee.0 as int]),
            callee.0 < old(self).ast.nodes().len(),
            !is_operator(old(self).ast.nodes()[callee.0 as int]),
            old(self).seen@ == base + old(self).toks@[callee.0 as int] + seq![sym(Symbol::LParen)],
            operand_ok(old(self).ast.nodes(), old(self).toks@, callee),
        ensures
            simple_call(old(self).rest()) == Some(true) ==> r is Ok && final(self).rest() == after_call(
                old(self).rest(),
            ),
            simple_call(old(self).rest()) == Some(false) ==> (r matches Err(e) && e.kind@
                == ErrorKindView::InvalidSyntax("syntax error"@) && e.message@
                == "positional argument cannot follow a named argument"@),
            match r {
                Ok(id) => final(self).wf() && final(self).grows(old(self)) && old(self).ast.nodes().len()
                    <= id.0 < final(self).ast.nodes().len() && final(self).seen@ == base
                    + final(self).toks@[id.0 as int] && final(self).mu() < old(self).mu()
                    && final(self).ast.nodes()[id.0 as int].kind is Call
                    && expr_start(final(self).toks@[id.0 as int]),
                Err(e) => error_ok(old(self).src(), old(self).sid(), old(self).start(), e),
            },
        decreases old(self).mu(), 6nat,
    {
        let ghost s = self.src();
        let ghost sid = self.sid();
        let ghost start = self.seen@;
        let ghost fr = simple_call(old(self).rest());
        let mut args: Vec<CallArg> = Vec::new();
        let mut saw_named = false;
        if !self.peek_symbol(Symbol::RParen)? {
            loop
                    invariant_except_break
                    self.seen@ == start + args_tokens(self.toks@, args@) + if args@.len() > 0 {
                        seq![sym(Symbol::Comma)]
                    } else {
                        Seq::empty()
                    },
                    fr is Some ==> simple_args(self.rest(), saw_named) == fr,
                    fr == Some(true) ==> after_args(self.rest()) == after_call(old(self).rest()),
            invariant
                    fr == simple_call(old(self).rest()),
                    self.wf(),
                    self.grows(old(self)),
                    self.mu() <= old(self).mu(),
                    s == old(self).src(),
                    sid == old(self).sid(),
                    start == old(self).seen@,
                    forall|j: int| 0 <= j < args@.len() ==> (#[trigger] args@[j]).value.0 < self.ast.nodes().len(),
                    callee.0 < self.ast.nodes().len(),
                    operand_ok(self.ast.nodes(), self.toks@, callee),
                    forall|j: int| 0 <= j < args@.len() ==> operand_ok(self.ast.nodes(), self.toks@, (#[trigger] args@[j]).value),
                ensures
                    fr is Some ==> fr == Some(true) && self.rest().len() >= 1 && self.rest()[0] == sym(
                        Symbol::RParen,
                    ) && self.rest().skip(1) == after_call(old(self).rest()),
                    self.wf(),
                    self.grows(old(self)),
                    self.mu() <= old(self).mu(),
                    forall|j: int| 0 <= j < args@.len() ==> (#[trigger] args@[j]).value.0 < self.ast.nodes().len(),
                    callee.0 < self.ast.nodes().len(),
                    operand_ok(self.ast.nodes(), self.toks@, callee),
                    forall|j: int| 0 <= j < args@.len() ==> operand_ok(self.ast.nodes(), self.toks@, (#[trigger] args@[j]).value),
                    self.seen@ == start + args_tokens(self.toks@, args@),
                decreases self.mu(),
            {
                let ghost t_before = self.toks@;
                let ghost n_before = self.ast.nodes().len();
                let ghost seen_before = self.seen@;
                let ghost r0 = self.rest();
                let arg: CallArg;
                if self.take_if_symbol(Symbol::Dot)? {
                    saw_named = true;
                    let tok = self.take()?;
                    let name = match tok.kind {
                        TokenKind::Identifier(n) => n,
                        other => {
                            return Err(LangError::expected_token("\"identifier\"", &other, tok.span));
                        },
                    };
                    self.expect_symbol(Symbol::Eq)?;
                    let ghost pre_e = *self;
                    let value = self.parse_expression()?;
                    proof {
                        Self::lemma_keep_args(pre_e, *self, callee, args@);
                    }
                    arg = CallArg { name: Some(name), value };
                } else {
                    if saw_named {
                        let span = self.peek_span()?;
                        return Err(
                            LangError::invalid_syntax(
                                "syntax error",
                                crate::text::lit("positional argument cannot follow a named argument"),
                                span,
                            ),
                        );
                    }
                    let ghost pre_e = *self;
                    let value = self.parse_expression()?;
                    proof {
                        Self::lemma_keep_args(pre_e, *self, callee, args@);
                    }
                    arg = CallArg { name: None, value };
                }
                proof {
                    lemma_args_frame(t_before, self.toks@, args@, n_before as int);
                    assert(self.seen@ =~= seen_before + arg_tokens(self.toks@, arg));
                }
                let ghost prev = args@;
                args.push(arg);
                proof {
                    assert(args@.drop_last() =~= prev);
                    assert(args@.last() == arg);
                    assert(self.seen@ =~= start + args_tokens(self.toks@, args@));
                }
                if !self.take_if_symbol(Symbol::Comma)? {
                    proof {
                        if fr is Some {
                            if arg.name is Some {
                                assert(self.rest().skip(1) =~= r0.skip(5));
                            } else {
                                assert(self.rest().skip(1) =~= r0.skip(2));
                            }
                        }
                    }
                    break;
                }
                proof {
                    assert(self.seen@ =~= start + args_tokens(self.toks@, args@) + seq![sym(Symbol::Comma)]);
                    if fr is Some {
                        if arg.name is Some {
                            assert(self.rest() =~= r0.skip(5));
                        } else {
                            assert(self.rest() =~= r0.skip(2));
                        }
                    }
                }
            }
        }
        let ghost x_rest = self.rest();
        let close = self.expect_symbol(Symbol::RParen)?;
        let span = join(self.ast.get(callee).span, close, Ghost(s), Ghost(sid));
        let ghost t = self.toks@[callee.0 as int] + seq![sym(Symbol::LParen)] + args_tokens(self.toks@, args@) + seq![sym(Symbol::RParen)];
        proof {
            assert(self.seen@ =~= base + t);
            lemma_args_frame(self.toks@, self.toks@.push(t), args@, self.toks@.len() as int);
            let n = Node { kind: NodeKind::Call { callee, args }, span };
            self.lemma_operand_push(callee, n, t);
            assert forall|j: int| 0 <= j < args@.len() implies operand_ok(
                self.ast.nodes().push(n),
                self.toks@.push(t),
                (#[trigger] args@[j]).value,
            ) by {
                self.lemma_operand_push(args@[j].value, n, t);
            }
        }
        Ok(self.add_node(NodeKind::Call { callee, args }, span, Ghost(t)))
    }

    /// The name after `.` in a property access of `object`.
    fn parse_property(&mut self, object: NodeId, Ghost(base): Ghost<Seq<TokenView>>) -> (r: Result<NodeId, LangError>)
        requires
            old(self).wf(),
            expr_start(old(self).toks@[object.0 as int]),
            object.0 < old(self).ast.nodes().len(),
            !is_operator(old(self).ast.nodes()[object.0 as int]),
            old(self).seen@ == base + old(self).toks@[object.0 as int] + seq![sym(Symbol::Dot)],
            operand_ok(old(self).ast.nodes(), old(self).toks@, object),
        ensures
            match r {
                Ok(id) => final(self).wf() && final(self).grows(old(self)) && old(self).ast.nodes().len()
                    <= id.0 < final(self).ast.nodes().len() && final(self).seen@ == base
                    + final(self).toks@[id.0 as int] && final(self).mu() < old(self).mu()
                    && final(self).ast.nodes()[id.0 as int].kind is Index
                    && expr_start(final(self).toks@[id.0 as int]),
                Err(e) => error_ok(old(self).src(), old(self).sid(), old(self).start(), e),
            },
        decreases old(self).mu(), 6nat,
    {
        let ghost s = self.src();
        let ghost sid = self.sid();
        let name_tok = self.take()?;
        let property = match name_tok.kind {
            TokenKind::Identifier(n) => n,
            other => {
                return Err(LangError::expected_token("\"identifier\"", &other, name_tok.span));
            },
        };
        let span = join(self.ast.get(object).span, name_tok.span, Ghost(s), Ghost(sid));
        let ghost kt = seq![sym(Symbol::Dot), TokenView::Identifier(property@)];
        proof {
            self.lemma_operand_push(object, Node { kind: NodeKind::String(property), span: name_tok.span }, kt);
        }
        let key = self.add_node(NodeKind::String(property), name_tok.span, Ghost(kt));
        let ghost t = self.toks@[object.0 as int] + kt;
        proof {
            assert(self.seen@ =~= base + t);
            assert(kt[0] == sym(Symbol::Dot));
            let n = Node { kind: NodeKind::Index { object, key }, span };
            self.lemma_operand_push(object, n, t);
            self.lemma_operand_push(key, n, t);
        }
        Ok(self.add_node(NodeKind::Index { object, key }, span, Ghost(t)))
    }

    /// The key and closing bracket of an index into `object`.
    fn parse_index(&mut self, object: NodeId, Ghost(base): Ghost<Seq<TokenView>>) -> (r: Result<NodeId, LangError>)
        requires
            old(self).wf(),
            expr_start(old(self).toks@[object.0 as int]),
            object.0 < old(self).ast.nodes().len(),
            !is_operator(old(self).ast.nodes()[object.0 as int]),
            old(self).seen@ == base + old(self).toks@[object.0 as int] + seq![sym(Symbol::LBracket)],
            operand_ok(old(self).ast.nodes(), old(self).toks@, object),
        ensures
            match r {
                Ok(id) => final(self).wf() && final(self).grows(old(self)) && old(self).ast.nodes().len()
                    <= id.0 < final(self).ast.nodes().len() && final(self).seen@ == base
                    + final(self).toks@[id.0 as int] && final(self).mu() < old(self).mu()
                    && final(self).ast.nodes()[id.0 as int].kind is Index
                    && expr_start(final(self).toks@[id.0 as int]),
                Err(e) => error_ok(old(self).src(), old(self).sid(), old(self).start(), e),
            },
        decreases old(self).mu(), 6nat,
    {
        let ghost s = self.src();
        let ghost sid = self.sid();
        let key = self.parse_expression()?;
        let close = self.expect_symbol(Symbol::RBracket)?;
        let span = join(self.ast.get(object).span, close, Ghost(s), Ghost(sid));
        let ghost t = self.toks@[object.0 as int] + seq![sym(Symbol::LBracket)] + self.toks@[key.0 as int] + seq![sym(Symbol::RBracket)];
        proof {
            assert(self.seen@ =~= base + t);
            Self::lemma_keep_operand(*old(self), *self, object);
            let n = Node { kind: NodeKind::Index { object, key }, span };
            self.lemma_operand_push(object, n, t);
            self.lemma_operand_push(key, n, t);
        }
        Ok(self.add_node(NodeKind::Index { object, key }, span, Ghost(t)))
    }

    /// Parses expressions up to a token that ends the run.
    #[verifier::rlimit(50)]
    fn parse_nodes(&mut self, term: Terminator) -> (r: Result<Vec<NodeId>, LangError>)
        requires
            old(self).wf(),
        ensures
            misordered_function(old(self).rest()) ==> (r matches Err(e) && e.kind@
                == ErrorKindView::InvalidSyntax("required parameter after optional"@) && e.message@
                == param_message(old(self).rest()[2 + misordered_at(old(self).rest().skip(1).skip(1), false)])),
            term == Terminator::EndOfFile && simple_function_first(old(self).rest()) && after_function(
                old(self).rest().skip(1),
            ) == seq![TokenView::EndOfFile] ==> r is Ok,
            term == Terminator::EndOfFile && simple_call_first(old(self).rest(), true) && after_call(
                old(self).rest().skip(2),
            ) == seq![TokenView::EndOfFile] ==> r is Ok,
            simple_call_first(old(self).rest(), false) ==> (r matches Err(e) && e.kind@
                == ErrorKindView::InvalidSyntax("syntax error"@) && e.message@
                == "positional argument cannot follow a named argument"@),
            term == Terminator::EndOfFile && simple_table_first(old(self).rest()) && after_items(
                old(self).rest().skip(1),
            ) == seq![TokenView::EndOfFile] ==> r is Ok,
            match r {
                Ok(ids) => final(self).wf() && final(self).grows(old(self)) && final(self).mu() <= old(self).mu()
                    && below(ids@, final(self).ast.nodes().len() as int)
                    && final(self).seen@ == old(self).seen@ + concat_ids(final(self).toks@, ids@)
                    && final(self).lookahead is Some && terminates(term, final(self).next())
                    && forall|j: int| 0 <= j < ids@.len() ==> operand_ok(final(self).ast.nodes(), final(self).toks@, #[trigger] ids@[j]),
                Err(e) => error_ok(old(self).src(), old(self).sid(), old(self).start(), e),
            },
            old(self).rest().len() > 0 && terminates(term, old(self).rest()[0]) ==> (r matches Ok(ids)
                && ids@.len() == 0 && final(self).rest() == old(self).rest()),
            term == Terminator::EndOfFile && operand_run(old(self).rest()) && binary_op_of(old(self).rest()[0])
                is None ==> (r matches Err(e) ==> e.kind@ is UnexpectedEof) && (r is Ok
                <==> !ends_in_operator(old(self).rest())) && (r matches Ok(ids) ==> forall|j: int|
                0 <= j < ids@.len() ==> is_atom(#[trigger] final(self).toks@[ids@[j].0 as int][0])),
        decreases old(self).mu(), 4nat,
    {
        let ghost start = self.seen@;
        let ghost at_end = old(self).rest().len() > 0 && terminates(term, old(self).rest()[0]);
        let ghost run = term == Terminator::EndOfFile && operand_run(old(self).rest()) && binary_op_of(
            old(self).rest()[0],
        ) is None;
        let ghost fnbad = misordered_function(old(self).rest());
        let ghost callok = term == Terminator::EndOfFile && simple_call_first(old(self).rest(), true)
            && after_call(old(self).rest().skip(2)) == seq![TokenView::EndOfFile];
        let ghost callbad = simple_call_first(old(self).rest(), false);
        let ghost tableok = term == Terminator::EndOfFile && simple_table_first(old(self).rest())
            && after_items(old(self).rest().skip(1)) == seq![TokenView::EndOfFile];
        let ghost fnok = term == Terminator::EndOfFile && simple_function_first(old(self).rest())
            && after_function(old(self).rest().skip(1)) == seq![TokenView::EndOfFile];
        let mut nodes: Vec<NodeId> = Vec::new();
        loop
            invariant
                fnbad == misordered_function(old(self).rest()),
                fnbad ==> nodes@.len() == 0 && self.rest() == old(self).rest(),
                callbad == simple_call_first(old(self).rest(), false),
                tableok == (term == Terminator::EndOfFile && simple_table_first(old(self).rest())
                    && after_items(old(self).rest().skip(1)) == seq![TokenView::EndOfFile]),
                tableok ==> self.rest() == old(self).rest() || self.rest() == seq![TokenView::EndOfFile],
                callbad ==> nodes@.len() == 0 && self.rest() == old(self).rest(),
                callok == (term == Terminator::EndOfFile && simple_call_first(old(self).rest(), true)
                    && after_call(old(self).rest().skip(2)) == seq![TokenView::EndOfFile]),
                callok ==> self.rest() == old(self).rest() || self.rest() == seq![TokenView::EndOfFile],
                fnok == (term == Terminator::EndOfFile && simple_function_first(old(self).rest())
                    && after_function(old(self).rest().skip(1)) == seq![TokenView::EndOfFile]),
                fnok ==> self.rest() == old(self).rest() || self.rest() == seq![TokenView::EndOfFile],
                run == (term == Terminator::EndOfFile && operand_run(old(self).rest()) && binary_op_of(
                    old(self).rest()[0],
                ) is None),
                run ==> operand_run(self.rest()) && binary_op_of(self.rest()[0]) is None
                    && ends_in_operator(self.rest()) == ends_in_operator(old(self).rest()),
                run ==> forall|j: int|
                    0 <= j < nodes@.len() ==> is_atom(#[trigger] self.toks@[nodes@[j].0 as int][0]),
                self.wf(),
                self.grows(old(self)),
                self.mu() <= old(self).mu(),
                start == old(self).seen@,
                below(nodes@, self.ast.nodes().len() as int),
                self.seen@ == start + concat_ids(self.toks@, nodes@),
                forall|j: int| 0 <= j < nodes@.len() ==> operand_ok(self.ast.nodes(), self.toks@, #[trigger] nodes@[j]),
                at_end == (old(self).rest().len() > 0 && terminates(term, old(self).rest()[0])),
                at_end ==> nodes@.len() == 0 && self.rest() == old(self).rest(),
            ensures
                !fnbad,
                !callbad,
                run ==> !ends_in_operator(old(self).rest()),
                run ==> forall|j: int|
                    0 <= j < nodes@.len() ==> is_atom(#[trigger] self.toks@[nodes@[j].0 as int][0]),
                self.wf(),
                self.grows(old(self)),
                self.mu() <= old(self).mu(),
                below(nodes@, self.ast.nodes().len() as int),
                self.seen@ == start + concat_ids(self.toks@, nodes@),
                forall|j: int| 0 <= j < nodes@.len() ==> operand_ok(self.ast.nodes(), self.toks@, #[trigger] nodes@[j]),
                self.lookahead is Some && terminates(term, self.next()),
                at_end ==> nodes@.len() == 0 && self.rest() == old(self).rest(),
            decreases self.mu(),
        {
            proof {
                if run {
                    lemma_run_first(self.rest());
                }
            }
            if self.peek_terminator(term)? {
                break;
            }
            let ghost t0 = self.toks@;
            let ghost n0 = self.ast.nodes().len();
            let ghost before = *self;
            let id = self.parse_expression()?;
            proof {
                lemma_concat_frame(t0, self.toks@, nodes@, n0 as int);
                Self::lemma_keep_ids(before, *self, nodes@);
                if run {
                    Self::lemma_rest_skip(before, *self, self.toks@[id.0 as int]);
                    assert(self.toks@[id.0 as int][0] == before.rest()[0]);
                    assert forall|j: int| 0 <= j < nodes@.len() implies is_atom(
                        #[trigger] self.toks@[nodes@[j].0 as int][0],
                    ) by {
                        assert(self.toks@[nodes@[j].0 as int] == t0[nodes@[j].0 as int]);
                    }
                }
            }
            let ghost prev = nodes@;
            nodes.push(id);
            proof {
                assert(nodes@.drop_last() =~= prev);
                assert(self.seen@ =~= start + concat_ids(self.toks@, nodes@));
            }
        }
        Ok(nodes)
    }

    /// Parses expressions up to a token that ends the run, as one block node.
    fn parse_block(&mut self, term: Terminator) -> (r: Result<NodeId, LangError>)
        requires
            old(self).wf(),
        ensures
            old(self).rest().len() > 0 && terminates(term, old(self).rest()[0]) ==> r is Ok && final(self).rest()
                == old(self).rest(),
            match r {
                Ok(id) => final(self).wf() && final(self).grows(old(self)) && final(self).mu() <= old(self).mu()
                    && id.0 == final(self).ast.nodes().len() - 1 && old(self).ast.nodes().len() <= id.0
                    && final(self).ast.nodes()[id.0 as int].kind is Block
                    && final(self).toks@[id.0 as int] == concat_ids(
                    final(self).toks@,
                    final(self).ast.nodes()[id.0 as int].kind->Block_nodes@,
                ) && final(self).seen@ == old(self).seen@ + final(self).toks@[id.0 as int]
                    && final(self).lookahead is Some && terminates(term, final(self).next()),
                Err(e) => error_ok(old(self).src(), old(self).sid(), old(self).start(), e),
            },
        decreases old(self).mu(), 5nat,
    {
        let ghost s = self.src();
        let ghost sid = self.sid();
        let nodes = self.parse_nodes(term)?;
        let span = if nodes.len() > 0 {
            let last = nodes[nodes.len() - 1];
            let first = nodes[0];
            join(self.ast.get(last).span, self.ast.get(first).span, Ghost(s), Ghost(sid))
        } else {
            Span::internal()
        };
        let ghost t = concat_ids(self.toks@, nodes@);
        proof {
            lemma_concat_frame(self.toks@, self.toks@.push(t), nodes@, self.toks@.len() as int);
            let n = Node { kind: NodeKind::Block { nodes }, span };
            assert forall|j: int| 0 <= j < nodes@.len() implies operand_ok(
                self.ast.nodes().push(n),
                self.toks@.push(t),
                #[trigger] nodes@[j],
            ) by {
                self.lemma_operand_push(nodes@[j], n, t);
            }
        }
        let id = self.add_node(NodeKind::Block { nodes }, span, Ghost(t));
        proof {
            lemma_concat_frame(self.toks@.drop_last(), self.toks@, self.ast.nodes()[id.0 as int].kind->Block_nodes@, id.0 as int);
        }
        Ok(id)
    }

    /// `if cond then .. [else ..] end`, after `if`.
    fn parse_if(&mut self, open_span: Span, Ghost(base): Ghost<Seq<TokenView>>) -> (r: Result<NodeId, LangError>)
        requires
            old(self).wf(),
            span_ok(old(self).src(), old(self).sid(), open_span),
            old(self).seen@ == base.push(kw(Keyword::If)),
        ensures
            match r {
                Ok(id) => final(self).built(old(self), base, id) && final(self).ast.nodes()[id.0 as int].kind is If,
                Err(e) => error_ok(old(self).src(), old(self).sid(), old(self).start(), e),
            },
        decreases old(self).mu(), 6nat,
    {
        let ghost s = self.src();
        let ghost sid = self.sid();
        let condition = self.parse_expression()?;
        let ghost after_cond = *self;
        self.expect_keyword(Keyword::Then)?;
        let then_branch = self.parse_block(Terminator::ElseOrEnd)?;
        let ghost t_mid = self.toks@;
        let else_branch = if self.take_if_keyword(Keyword::Else)? {
            Some(self.parse_block(Terminator::End)?)
        } else {
            None
        };
        let end = self.expect_keyword(Keyword::End)?;
        let span = join(open_span, end, Ghost(s), Ghost(sid));
        let ghost t = seq![kw(Keyword::If)] + self.toks@[condition.0 as int] + seq![kw(Keyword::Then)]
            + self.toks@[then_branch.0 as int] + else_tokens(self.toks@, else_branch) + seq![kw(Keyword::End)];
        proof {
            assert(self.seen@ =~= base + t);
            Self::lemma_keep_operand(after_cond, *self, condition);
            self.lemma_operand_push(condition, Node { kind: NodeKind::If { condition, then_branch, else_branch }, span }, t);
        }
        Ok(self.add_node(NodeKind::If { condition, then_branch, else_branch }, span, Ghost(t)))
    }

    /// `for name in iterator do .. end`, after `for`.
    fn parse_for(&mut self, open_span: Span, Ghost(base): Ghost<Seq<TokenView>>) -> (r: Result<NodeId, LangError>)
        requires
            old(self).wf(),
            span_ok(old(self).src(), old(self).sid(), open_span),
            old(self).seen@ == base.push(kw(Keyword::For)),
        ensures
            match r {
                Ok(id) => final(self).built(old(self), base, id) && final(self).ast.nodes()[id.0 as int].kind is For,
                Err(e) => error_ok(old(self).src(), old(self).sid(), old(self).start(), e),
            },
        decreases old(self).mu(), 6nat,
    {
        let ghost s = self.src();
        let ghost sid = self.sid();
        let tok = self.take()?;
        let name = match tok.kind {
            TokenKind::Identifier(name) => name,
            other => {
                return Err(LangError::expected_token("\"identifier\"", &other, open_span));
            },
        };
        self.expect_keyword(Keyword::In)?;
        let iterator = self.parse_expression()?;
        let ghost after_it = *self;
        self.expect_keyword(Keyword::Do)?;
        let body = self.parse_block(Terminator::End)?;
        let end = self.expect_keyword(Keyword::End)?;
        let span = join(open_span, end, Ghost(s), Ghost(sid));
        let ghost t = seq![kw(Keyword::For), TokenView::Identifier(name@), kw(Keyword::In)]
            + self.toks@[iterator.0 as int] + seq![kw(Keyword::Do)] + self.toks@[body.0 as int]
            + seq![kw(Keyword::End)];
        proof {
            assert(self.seen@ =~= base + t);
            Self::lemma_keep_operand(after_it, *self, iterator);
            self.lemma_operand_push(
                iterator,
                Node { kind: NodeKind::For { identifier: name, iterator, body }, span },
                t,
            );
        }
        Ok(self.add_node(NodeKind::For { identifier: name, iterator, body }, span, Ghost(t)))
    }

    /// `while cond do .. end`, after `while`.
    fn parse_while(&mut self, open_span: Span, Ghost(base): Ghost<Seq<TokenView>>) -> (r: Result<NodeId, LangError>)
        requires
            old(self).wf(),
            span_ok(old(self).src(), old(self).sid(), open_span),
            old(self).seen@ == base.push(kw(Keyword::While)),
        ensures
            match r {
                Ok(id) => final(self).built(old(self), base, id) && final(self).ast.nodes()[id.0 as int].kind is While,
                Err(e) => error_ok(old(self).src(), old(self).sid(), old(self).start(), e),
            },
        decreases old(self).mu(), 6nat,
    {
        let ghost s = self.src();
        let ghost sid = self.sid();
        let condition = self.parse_expression()?;
        let ghost after_cond = *self;
        self.expect_keyword(Keyword::Do)?;
        let body = self.parse_block(Terminator::End)?;
        let end = self.expect_keyword(Keyword::End)?;
        let span = join(open_span, end, Ghost(s), Ghost(sid));
        let ghost t = seq![kw(Keyword::While)] + self.toks@[condition.0 as int] + seq![kw(Keyword::Do)]
            + self.toks@[body.0 as int] + seq![kw(Keyword::End)];
        proof {
            assert(self.seen@ =~= base + t);
            Self::lemma_keep_operand(after_cond, *self, condition);
            self.lemma_operand_push(condition, Node { kind: NodeKind::While { condition, body }, span }, t);
        }
        Ok(self.add_node(NodeKind::While { condition, body }, span, Ghost(t)))
    }

    /// `let name = value` or `let fn name(..) .. end`, after `let`.
    fn parse_declaration(&mut self, open_span: Span, Ghost(base): Ghost<Seq<TokenView>>) -> (r: Result<NodeId, LangError>)
        requires
            old(self).wf(),
            span_ok(old(self).src(), old(self).sid(), open_span),
            old(self).seen@ == base.push(kw(Keyword::Let)),
        ensures
            match r {
                Ok(id) => final(self).built(old(self), base, id) && final(self).ast.nodes()[id.0 as int].kind is Declaration,
                Err(e) => error_ok(old(self).src(), old(self).sid(), old(self).start(), e),
            },
        decreases old(self).mu(), 7nat,
    {
        let ghost s = self.src();
        let ghost sid = self.sid();
        let is_function = self.take_if_keyword(Keyword::Fn)?;
        let identifier_token = self.take()?;
        let identifier = match identifier_token.kind {
            TokenKind::Identifier(n) => n,
            other => {
                return Err(LangError::expected_token("\"identifier\"", &other, identifier_token.span));
            },
        };
        let ghost head = self.seen@;
        let value = if is_function {
            self.parse_function(open_span, Ghost(head), Ghost(false))?
        } else {
            self.expect_symbol(Symbol::Eq)?;
            self.parse_expression()?
        };
        let span = join(open_span, self.ast.get(value).span, Ghost(s), Ghost(sid));
        let ghost t = if is_function {
            seq![kw(Keyword::Let), kw(Keyword::Fn), TokenView::Identifier(identifier@)] + self.toks@[value.0 as int]
        } else {
            seq![kw(Keyword::Let), TokenView::Identifier(identifier@), sym(Symbol::Eq)] + self.toks@[value.0 as int]
        };
        proof {
            assert(self.seen@ =~= base + t);
            self.lemma_operand_push(value, Node { kind: NodeKind::Declaration { identifier, value }, span }, t);
        }
        Ok(self.add_node(NodeKind::Declaration { identifier, value }, span, Ghost(t)))
    }

    /// `(params) body end`, after `fn` (`with_fn`) or after `let fn name`.
    #[verifier::rlimit(100)]
    fn parse_function(&mut self, open_span: Span, Ghost(base): Ghost<Seq<TokenView>>, Ghost(with_fn): Ghost<bool>) -> (r: Result<NodeId, LangError>)
        requires
            old(self).wf(),
            span_ok(old(self).src(), old(self).sid(), open_span),
            old(self).seen@ == if with_fn { base.push(kw(Keyword::Fn)) } else { base },
        ensures
            simple_function(old(self).rest()) == Some(true) ==> r is Ok && final(self).rest()
                == after_function(old(self).rest()),
            simple_function(old(self).rest()) == Some(false) ==> (r matches Err(e) && e.kind@
                == ErrorKindView::InvalidSyntax("required parameter after optional"@) && e.message@ == param_message(
                old(self).rest()[1 + misordered_at(old(self).rest().skip(1), false)],
            )),
            match r {
                Ok(id) => final(self).built(old(self), base, id) && final(self).ast.nodes()[id.0 as int].kind is Function
                    && final(self).toks@[id.0 as int].len() > 0 && final(self).toks@[id.0 as int][0] == if with_fn {
                        kw(Keyword::Fn)
                    } else {
                        sym(Symbol::LParen)
                    },
                Err(e) => error_ok(old(self).src(), old(self).sid(), old(self).start(), e),
            },
        decreases old(self).mu(), 6nat,
    {
        let ghost s = self.src();
        let ghost sid = self.sid();
        let ghost fr = simple_function(old(self).rest());
        let ghost wrong = old(self).rest()[1 + misordered_at(old(self).rest().skip(1), false)];
        proof {
            if fr == Some(false) {
                lemma_misordered(old(self).rest().skip(1), false);
                assert(old(self).rest().skip(1)[misordered_at(old(self).rest().skip(1), false)] == wrong);
            }
        }
        self.expect_symbol(Symbol::LParen)?;
        let ghost start = self.seen@;
        let mut params: Vec<Param> = Vec::new();
        let mut saw_optional = false;
        if !self.peek_symbol(Symbol::RParen)? {
            loop
                    invariant_except_break
                    self.seen@ == start + params_tokens(self.toks@, params@) + if params@.len() > 0 {
                        seq![sym(Symbol::Comma)]
                    } else {
                        Seq::empty()
                    },
                    fr is Some ==> simple_params(self.rest(), saw_optional) == fr,
                    fr == Some(false) ==> self.rest()[misordered_at(self.rest(), saw_optional)] == wrong,
                    fr == Some(true) ==> after_params(self.rest()) == after_function(old(self).rest()),
            invariant
                    fr == simple_function(old(self).rest()),
                    wrong == old(self).rest()[1 + misordered_at(old(self).rest().skip(1), false)],
                    self.wf(),
                    self.grows(old(self)),
                    self.mu() < old(self).mu(),
                    s == old(self).src(),
                    sid == old(self).sid(),
                    start == (if with_fn { base.push(kw(Keyword::Fn)) } else { base }).push(sym(Symbol::LParen)),
                    forall|j: int| 0 <= j < params@.len() ==> match (#[trigger] params@[j]).kind {
                        ParamKind::Optional(d) => d.0 < self.ast.nodes().len(),
                        _ => true,
                    },
                    crate::ast::required_first(params@),
                    self.defaults_ok(params@),
                    saw_optional == exists|j: int| 0 <= j < params@.len() && (#[trigger] params@[j]).kind is Optional,
                ensures
                    fr is Some ==> fr == Some(true) && self.rest().len() >= 2 && self.rest()[0] == sym(
                        Symbol::RParen,
                    ) && self.rest()[1] == kw(Keyword::End) && self.rest().skip(2) == after_function(
                        old(self).rest(),
                    ),
                    crate::ast::required_first(params@),
                    self.defaults_ok(params@),
                    self.wf(),
                    self.grows(old(self)),
                    self.mu() < old(self).mu(),
                    forall|j: int| 0 <= j < params@.len() ==> match (#[trigger] params@[j]).kind {
                        ParamKind::Optional(d) => d.0 < self.ast.nodes().len(),
                        _ => true,
                    },
                    self.seen@ == start + params_tokens(self.toks@, params@),
                decreases self.mu(),
            {
                let ghost t_before = self.toks@;
                let ghost n_before = self.ast.nodes().len();
                let ghost seen_before = self.seen@;
                let ghost r0 = self.rest();
                if self.take_if_symbol(Symbol::Dot)? {
                    self.expect_symbol(Symbol::Dot)?;
                    let (name, _name_span) = self.expect_identifier()?;
                    let p = Param { name, kind: ParamKind::Rest };
                    let ghost prev = params@;
                    params.push(p);
                    proof {
                        assert(params@.drop_last() =~= prev);
                        assert(params@.last() == p);
                        assert(self.seen@ =~= seen_before + param_tokens(self.toks@, p));
                        assert(self.seen@ =~= start + params_tokens(self.toks@, params@));
                    }
                    break;
                }
                let (name, param_span) = self.expect_identifier()?;
                let p: Param;
                if self.take_if_symbol(Symbol::Eq)? {
                    saw_optional = true;
                    let ghost pre_e = *self;
                    let d = self.parse_expression()?;
                    proof {
                        Self::lemma_keep_lists(pre_e, *self, params@, seq![], seq![]);
                    }
                    p = Param { name, kind: ParamKind::Optional(d) };
                } else if saw_optional {
                    let mut m = crate::text::chars_of("required parameter '");
                    crate::text::push_str(&mut m, name.as_str());
                    crate::text::push_str(&mut m, "' must appear before any default or rest parameter.");
                    let e = LangError::invalid_syntax("required parameter after optional", string_of(&m), param_span);
                    proof {
                        if fr == Some(false) {
                            assert(misordered_at(r0, true) == 0);
                            assert(r0[0] == wrong);
                        }
                    }
                    return Err(e);
                } else {
                    p = Param { name, kind: ParamKind::Required };
                }
                proof {
                    lemma_params_frame(t_before, self.toks@, params@, n_before as int);
                    assert(self.seen@ =~= seen_before + param_tokens(self.toks@, p));
                }
                let ghost prev = params@;
                params.push(p);
                proof {
                    assert(params@.drop_last() =~= prev);
                    assert(params@.last() == p);
                    assert(self.seen@ =~= start + params_tokens(self.toks@, params@));
                }
                if !self.take_if_symbol(Symbol::Comma)? {
                    proof {
                        if fr is Some {
                            if p.kind is Optional {
                                assert(self.rest().skip(2) =~= r0.skip(5));
                            } else {
                                assert(self.rest().skip(2) =~= r0.skip(3));
                            }
                        }
                    }
                    break;
                }
                proof {
                    assert(self.seen@ =~= start + params_tokens(self.toks@, params@) + seq![sym(Symbol::Comma)]);
                    if fr is Some {
                        if p.kind is Optional {
                            assert(self.rest() =~= r0.skip(4));
                        } else {
                            assert(self.rest() =~= r0.skip(2));
                        }
                    }
                    if fr == Some(false) {
                        lemma_misordered(self.rest(), saw_optional);
                        if p.kind is Optional {
                            assert(r0.skip(4)[misordered_at(r0.skip(4), true)] == r0[4 + misordered_at(r0.skip(4), true)]);
                        } else {
                            assert(r0.skip(2)[misordered_at(r0.skip(2), false)] == r0[2 + misordered_at(r0.skip(2), false)]);
                        }
                    }
                }
            }
        }
        let ghost x_rest = self.rest();
        proof {
            if fr == Some(true) && x_rest.len() >= 1 && old(self).rest().len() >= 1 && x_rest == old(self).rest().skip(1) {
                assert(x_rest.skip(2) =~= old(self).rest().skip(3));
            }
        }
        self.expect_symbol(Symbol::RParen)?;
        let ghost t_params = self.toks@;
        let ghost n_params = self.ast.nodes().len();
        let ghost pre_body = *self;
        let body = self.parse_block(Terminator::End)?;
        let end = self.expect_keyword(Keyword::End)?;
        proof {
            lemma_params_frame(t_params, self.toks@, params@, n_params as int);
            if fr == Some(true) {
                assert(self.rest() =~= x_rest.skip(2));
            }
        }
        let span = join(open_span, end, Ghost(s), Ghost(sid));
        let ghost tail = seq![sym(Symbol::LParen)] + params_tokens(self.toks@, params@) + seq![sym(Symbol::RParen)]
            + self.toks@[body.0 as int] + seq![kw(Keyword::End)];
        let ghost t = if with_fn { seq![kw(Keyword::Fn)] + tail } else { tail };
        proof {
            assert(self.seen@ =~= base + t);
            lemma_params_frame(self.toks@, self.toks@.push(t), params@, self.toks@.len() as int);
            Self::lemma_keep_lists(pre_body, *self, params@, seq![], seq![]);
            let n = Node { kind: NodeKind::Function { params, body }, span };
            assert forall|j: int| 0 <= j < params@.len() implies match (#[trigger] params@[j]).kind {
                ParamKind::Optional(d) => operand_ok(self.ast.nodes().push(n), self.toks@.push(t), d),
                _ => true,
            } by {
                if let ParamKind::Optional(d) = params@[j].kind {
                    self.lemma_operand_push(d, n, t);
                }
            }
        }
        Ok(self.add_node(NodeKind::Function { params, body }, span, Ghost(t)))
    }

    /// `{ items }`, after `{`.
    #[verifier::rlimit(60)]
    fn parse_table(&mut self, open_span: Span, Ghost(base): Ghost<Seq<TokenView>>) -> (r: Result<NodeId, LangError>)
        requires
            old(self).wf(),
            span_ok(old(self).src(), old(self).sid(), open_span),
            old(self).seen@ == base.push(sym(Symbol::LBrace)),
        ensures
            simple_items(old(self).rest()) ==> r is Ok && final(self).rest() == after_items(old(self).rest()),
            match r {
                Ok(id) => final(self).built(old(self), base, id) && final(self).ast.nodes()[id.0 as int].kind is Table,
                Err(e) => error_ok(old(self).src(), old(self).sid(), old(self).start(), e),
            },
        decreases old(self).mu(), 7nat,
    {
        let ghost s = self.src();
        let ghost sid = self.sid();
        let ghost start = self.seen@;
        let ghost fr = simple_items(old(self).rest());
        let mut items: Vec<TableItem> = Vec::new();
        let mut trailing = false;
        loop
            invariant_except_break
                items@.len() > 0 ==> trailing,
                fr ==> simple_items(self.rest()) && after_items(self.rest()) == after_items(old(self).rest()),
            invariant
                fr == simple_items(old(self).rest()),
                self.wf(),
                self.grows(old(self)),
                self.mu() <= old(self).mu(),
                s == old(self).src(),
                sid == old(self).sid(),
                start == old(self).seen@,
                span_ok(s, sid, open_span),
                forall|j: int| 0 <= j < items@.len() ==> (#[trigger] items@[j]).key.0 < self.ast.nodes().len()
                    && items@[j].value.0 < self.ast.nodes().len()
                    && (self.toks@[items@[j].key.0 as int].len() == 0 ==> implicit_key(self.ast.nodes()[items@[j].key.0 as int], j)),
                trailing ==> items@.len() > 0,
                self.items_ok(items@),
                self.seen@ == start + items_tokens(self.toks@, items@) + if trailing {
                    seq![sym(Symbol::Comma)]
                } else {
                    Seq::empty()
                },
            ensures
                fr ==> self.rest().len() >= 1 && self.rest()[0] == sym(Symbol::RBrace) && self.rest().skip(1)
                    == after_items(old(self).rest()),
                self.wf(),
                self.grows(old(self)),
                self.mu() <= old(self).mu(),
                forall|j: int| 0 <= j < items@.len() ==> (#[trigger] items@[j]).key.0 < self.ast.nodes().len()
                    && items@[j].value.0 < self.ast.nodes().len()
                    && (self.toks@[items@[j].key.0 as int].len() == 0 ==> implicit_key(self.ast.nodes()[items@[j].key.0 as int], j)),
                trailing ==> items@.len() > 0,
                self.items_ok(items@),
                self.seen@ == start + items_tokens(self.toks@, items@) + if trailing {
                    seq![sym(Symbol::Comma)]
                } else {
                    Seq::empty()
                },
            decreases self.mu(),
        {
            if self.peek_symbol(Symbol::RBrace)? {
                break;
            }
            let ghost t_before = self.toks@;
            let ghost n_before = self.ast.nodes().len();
            let ghost seen_before = self.seen@;
            let ghost r0 = self.rest();
            let ghost n = simple_item_len(r0);
            let ghost pre_k = *self;
            let key = self.parse_table_key(open_span, items.len())?;
            let ghost t_k = self.toks@;
            let ghost seen_k = self.seen@;
            let ghost after_k = *self;
            let value = self.parse_expression()?;
            proof {
                Self::lemma_keep_lists(pre_k, after_k, seq![], items@, seq![]);
                Self::lemma_keep_lists(after_k, *self, seq![], items@, seq![]);
                assert(self.toks@[key.0 as int] == after_k.toks@[key.0 as int]);
                if after_k.toks@[key.0 as int].len() > 0 {
                    Self::lemma_keep_operand(after_k, *self, key);
                }
                lemma_items_frame(t_before, self.toks@, items@, n_before as int);
                assert(self.toks@[key.0 as int] == t_k[key.0 as int]);
                assert(key_tokens(self.toks@, key) == key_tokens(t_k, key));
            }
            let it = TableItem { key, value };
            proof {
                assert(self.seen@ =~= seen_before + item_tokens(self.toks@, it));
            }
            let ghost prev = items@;
            items.push(it);
            proof {
                assert(items@.drop_last() =~= prev);
                assert(items@.last() == it);
                assert(self.seen@ =~= start + items_tokens(self.toks@, items@));
            }
            proof {
                if fr {
                    assert(self.rest() =~= r0.skip(n));
                }
            }
            trailing = self.take_if_symbol(Symbol::Comma)?;
            if !trailing {
                proof {
                    if fr {
                        assert(self.rest().skip(1) =~= r0.skip(n + 1));
                    }
                }
                break;
            }
            proof {
                assert(self.seen@ =~= start + items_tokens(self.toks@, items@) + seq![sym(Symbol::Comma)]);
                if fr {
                    assert(self.rest() =~= r0.skip(n + 1));
                }
            }
        }
        let end = self.expect_symbol(Symbol::RBrace)?;
        let span = join(open_span, end, Ghost(s), Ghost(sid));
        let ghost t = seq![sym(Symbol::LBrace)] + items_tokens(self.toks@, items@) + if trailing {
            seq![sym(Symbol::Comma), sym(Symbol::RBrace)]
        } else {
            seq![sym(Symbol::RBrace)]
        };
        proof {
            assert(self.seen@ =~= base + t);
            lemma_items_frame(self.toks@, self.toks@.push(t), items@, self.toks@.len() as int);
            let n = Node { kind: NodeKind::Table(items), span };
            assert forall|j: int| 0 <= j < items@.len() implies operand_ok(
                self.ast.nodes().push(n),
                self.toks@.push(t),
                (#[trigger] items@[j]).value,
            ) && (self.toks@.push(t)[items@[j].key.0 as int].len() > 0 ==> operand_ok(
                self.ast.nodes().push(n),
                self.toks@.push(t),
                items@[j].key,
            )) by {
                self.lemma_operand_push(items@[j].value, n, t);
                assert(self.toks@.push(t)[items@[j].key.0 as int] == self.toks@[items@[j].key.0 as int]);
                if self.toks@[items@[j].key.0 as int].len() > 0 {
                    self.lemma_operand_push(items@[j].key, n, t);
                }
            }
        }
        Ok(self.add_node(NodeKind::Table(items), span, Ghost(t)))
    }

    /// The key of a table item: `[expr] =`, `.name =`, or nothing (the row number).
    #[verifier::rlimit(50)]
    fn parse_table_key(&mut self, open_span: Span, row_index: usize) -> (r: Result<NodeId, LangError>)
        requires
            old(self).wf(),
            span_ok(old(self).src(), old(self).sid(), open_span),
        ensures
            simple_item_len(old(self).rest()) > 0 ==> r is Ok && final(self).rest() == old(self).rest().skip(
                simple_item_len(old(self).rest()) - 1,
            ),
            match r {
                Ok(k) => final(self).wf() && final(self).grows(old(self)) && final(self).mu() <= old(self).mu()
                    && old(self).ast.nodes().len() <= k.0 < final(self).ast.nodes().len()
                    && final(self).seen@ == old(self).seen@ + key_tokens(final(self).toks@, k)
                    && (final(self).toks@[k.0 as int].len() == 0 ==> implicit_key(final(self).ast.nodes()[k.0 as int], row_index as int))
                    && (final(self).toks@[k.0 as int].len() > 0 ==> operand_ok(final(self).ast.nodes(), final(self).toks@, k)),
                Err(e) => error_ok(old(self).src(), old(self).sid(), old(self).start(), e),
            },
        decreases old(self).mu(), 6nat,
    {
        let ghost base = self.seen@;
        let ghost r0 = self.rest();
        if self.take_if_symbol(Symbol::LBracket)? {
            let key = self.parse_expression()?;
            self.expect_symbol(Symbol::RBracket)?;
            self.expect_symbol(Symbol::Eq)?;
            proof {
                assert(self.seen@ =~= base + key_tokens(self.toks@, key));
                if simple_item_len(r0) > 0 {
                    assert(self.rest() =~= r0.skip(4));
                }
            }
            return Ok(key);
        }
        if self.take_if_symbol(Symbol::Dot)? {
            let token = self.take()?;
            match token.kind {
                TokenKind::Identifier(name) => {
                    self.expect_symbol(Symbol::Eq)?;
                    proof {
                        if simple_item_len(r0) > 0 {
                            assert(self.rest() =~= r0.skip(3));
                        }
                    }
                    let ghost kt = seq![sym(Symbol::Dot), TokenView::Identifier(name@)];
                    let k = self.add_node(NodeKind::String(name), token.span, Ghost(kt));
                    proof {
                        assert(self.toks@[k.0 as int][0] == sym(Symbol::Dot));
                        assert(self.seen@ =~= base + key_tokens(self.toks@, k));
                    }
                    return Ok(k);
                },
                other => {
                    return Err(LangError::expected_token("\"identifier\"", &other, token.span));
                },
            }
        }
        let text = string_of(&decimal_chars(row_index));
        let k = self.add_node(NodeKind::Number(text), open_span, Ghost(Seq::empty()));
        proof {
            assert(self.seen@ =~= base + key_tokens(self.toks@, k));
        }
        Ok(k)
    }

    /// `try .. [catch ..]* [else ..] end`, after `try`.
    fn parse_try_catch(&mut self, open_span: Span, Ghost(base): Ghost<Seq<TokenView>>) -> (r: Result<NodeId, LangError>)
        requires
            old(self).wf(),
            span_ok(old(self).src(), old(self).sid(), open_span),
            old(self).seen@ == base.push(kw(Keyword::Try)),
        ensures
            match r {
                Ok(id) => final(self).built(old(self), base, id) && final(self).ast.nodes()[id.0 as int].kind is TryCatch,
                Err(e) => error_ok(old(self).src(), old(self).sid(), old(self).start(), e),
            },
        decreases old(self).mu(), 6nat,
    {
        let ghost s = self.src();
        let ghost sid = self.sid();
        let body = self.parse_block(Terminator::CatchElseOrEnd)?;
        let ghost start = self.seen@;
        let mut catches: Vec<CatchArm> = Vec::new();
        loop
            invariant
                self.wf(),
                self.grows(old(self)),
                self.mu() <= old(self).mu(),
                s == old(self).src(),
                sid == old(self).sid(),
                body.0 < self.ast.nodes().len(),
                start == base.push(kw(Keyword::Try)) + self.toks@[body.0 as int],
                forall|j: int| 0 <= j < catches@.len() ==> (#[trigger] catches@[j]).body.0 < self.ast.nodes().len()
                    && opt_below(catches@[j].kind_filter, self.ast.nodes().len() as int),
                self.seen@ == start + arms_tokens(self.toks@, catches@),
                self.filters_ok(catches@),
                self.ast.nodes()[body.0 as int].kind is Block,
                forall|j: int| 0 <= j < catches@.len() ==> self.ast.nodes()[(#[trigger] catches@[j]).body.0 as int].kind is Block,
            decreases self.mu(),
        {
            if !self.peek_keyword(Keyword::Catch)? {
                break;
            }
            let ghost t_before = self.toks@;
            let ghost n_before = self.ast.nodes().len();
            let ghost seen_before = self.seen@;
            let ghost pre_arm = *self;
            self.take()?;
            let ghost after_take = *self;
            let arm = self.parse_catch_arm(Ghost(seen_before))?;
            proof {
                lemma_arms_frame(t_before, self.toks@, catches@, n_before as int);
                Self::lemma_keep_lists(after_take, *self, seq![], seq![], catches@);
                assert(self.filters_ok(seq![arm]));
                assert(match seq![arm][0].kind_filter {
                    Some(f) => f.0 < self.ast.nodes().len() && operand_ok(self.ast.nodes(), self.toks@, f),
                    None => true,
                });
            }
            let ghost prev = catches@;
            catches.push(arm);
            proof {
                assert(catches@.drop_last() =~= prev);
                assert(catches@.last() == arm);
                assert(self.seen@ =~= start + arms_tokens(self.toks@, catches@));
            }
        }
        let ghost t_loop = self.toks@;
        let ghost n_loop = self.ast.nodes().len();
        let ghost pre_else = *self;
        let else_branch = if self.peek_keyword(Keyword::Else)? {
            self.take()?;
            Some(self.parse_block(Terminator::End)?)
        } else {
            None
        };
        let end = self.expect_keyword(Keyword::End)?;
        proof {
            lemma_arms_frame(t_loop, self.toks@, catches@, n_loop as int);
        }
        let span = join(open_span, end, Ghost(s), Ghost(sid));
        let ghost t = seq![kw(Keyword::Try)] + self.toks@[body.0 as int] + arms_tokens(self.toks@, catches@)
            + else_tokens(self.toks@, else_branch) + seq![kw(Keyword::End)];
        proof {
            assert(self.seen@ =~= base + t);
            lemma_arms_frame(self.toks@, self.toks@.push(t), catches@, self.toks@.len() as int);
            Self::lemma_keep_lists(pre_else, *self, seq![], seq![], catches@);
            let n = Node { kind: NodeKind::TryCatch { body, catches, else_branch }, span };
            assert forall|j: int| 0 <= j < catches@.len() implies match (#[trigger] catches@[j]).kind_filter {
                Some(f) => operand_ok(self.ast.nodes().push(n), self.toks@.push(t), f),
                None => true,
            } by {
                if let Some(f) = catches@[j].kind_filter {
                    self.lemma_operand_push(f, n, t);
                }
            }
        }
        Ok(self.add_node(NodeKind::TryCatch { body, catches, else_branch }, span, Ghost(t)))
    }

    /// `[filter] as name body`, after `catch`.
    fn parse_catch_arm(&mut self, Ghost(base): Ghost<Seq<TokenView>>) -> (r: Result<CatchArm, LangError>)
        requires
            old(self).wf(),
            old(self).seen@ == base.push(kw(Keyword::Catch)),
        ensures
            match r {
                Ok(arm) => final(self).wf() && final(self).grows(old(self)) && final(self).mu() < old(self).mu()
                    && arm.body.0 < final(self).ast.nodes().len()
                    && opt_below(arm.kind_filter, final(self).ast.nodes().len() as int)
                    && final(self).seen@ == base + arm_tokens(final(self).toks@, arm)
                    && final(self).filters_ok(seq![arm])
                    && final(self).ast.nodes()[arm.body.0 as int].kind is Block,
                Err(e) => error_ok(old(self).src(), old(self).sid(), old(self).start(), e),
            },
        decreases old(self).mu(), 6nat,
    {
        let kind_filter = if self.peek_keyword(Keyword::As)? {
            None
        } else {
            Some(self.parse_expression()?)
        };
        let ghost after_filter = *self;
        self.expect_keyword(Keyword::As)?;
        let binding_tok = self.take()?;
        let binding = match binding_tok.kind {
            TokenKind::Identifier(n) => n,
            other => {
                return Err(LangError::expected_token("\"identifier\"", &other, binding_tok.span));
            },
        };
        let body = self.parse_block(Terminator::CatchElseOrEnd)?;
        let arm = CatchArm { kind_filter, binding, body };
        proof {
            assert(self.seen@ =~= base + arm_tokens(self.toks@, arm));
            if let Some(f) = kind_filter {
                Self::lemma_keep_operand(after_filter, *self, f);
            }
            assert(seq![arm][0] == arm);
        }
        Ok(arm)
    }

    /// The parser has read nothing yet.
    pub closed spec fn ready(&self) -> bool {
        &&& self.wf()
        &&& self.seen@.len() == 0
        &&& self.ast.nodes().len() == 0
    }

    /// Parses the whole text into a program. A program it returns keeps the
    /// grammar and spells the tokens of the text; an error names places in
    /// the text. Text without tokens parses to an empty program. Text made
    /// only of operands and binary operators parses, into roots that each
    /// start with an operand, unless it ends in an operator, which is
    /// reported as input that ended too early. A lone simple function, call
    /// or table parses; a simple function or call with a misordered
    /// parameter or argument list gets the syntax error for it.
    pub fn parse(self) -> (r: Result<Program, LangError>)
        requires
            self.ready(),
        ensures
            match r {
                Ok(p) => grammar_ok(p.ast.nodes(), p.tokens@) && below(p.roots@, p.ast.nodes().len() as int)
                    && concat_ids(p.tokens@, p.roots@).push(TokenView::EndOfFile) == tokens_from(self.src(), self.start())
                    && forall|i: int| 0 <= i < p.ast.nodes().len() ==> span_ok(self.src(), self.sid(), #[trigger] p.ast.nodes()[i].span)
                    && forall|j: int| 0 <= j < p.roots@.len() ==> operand_ok(p.ast.nodes(), p.tokens@, #[trigger] p.roots@[j]),
                Err(e) => error_ok(self.src(), self.sid(), self.start(), e),
            },
            tokens_from(self.src(), self.start()) == seq![TokenView::EndOfFile] ==> (r matches Ok(p)
                && p.roots@.len() == 0),
            operand_run(tokens_from(self.src(), self.start())) && binary_op_of(
                tokens_from(self.src(), self.start())[0],
            ) is None ==> (r matches Err(e) ==> e.kind@ is UnexpectedEof) && (r is Ok
                <==> !ends_in_operator(tokens_from(self.src(), self.start()))) && (r matches Ok(p)
                ==> forall|j: int| 0 <= j < p.roots@.len() ==> is_atom(#[trigger] p.tokens@[p.roots@[j].0 as int][0])),
            misordered_function(tokens_from(self.src(), self.start())) ==> (r matches Err(e) && e.kind@
                == ErrorKindView::InvalidSyntax("required parameter after optional"@) && e.message@
                == param_message(
                tokens_from(self.src(), self.start())[2 + misordered_at(
                    tokens_from(self.src(), self.start()).skip(1).skip(1),
                    false,
                )],
            )),
            simple_function_first(tokens_from(self.src(), self.start())) && after_function(
                tokens_from(self.src(), self.start()).skip(1),
            ) == seq![TokenView::EndOfFile] ==> r is Ok,
            simple_call_first(tokens_from(self.src(), self.start()), true) && after_call(
                tokens_from(self.src(), self.start()).skip(2),
            ) == seq![TokenView::EndOfFile] ==> r is Ok,
            simple_table_first(tokens_from(self.src(), self.start())) && after_items(
                tokens_from(self.src(), self.start()).skip(1),
            ) == seq![TokenView::EndOfFile] ==> r is Ok,
            simple_call_first(tokens_from(self.src(), self.start()), false) ==> (r matches Err(e) && e.kind@
                == ErrorKindView::InvalidSyntax("syntax error"@) && e.message@
                == "positional argument cannot follow a named argument"@),
    {
        let mut this = self;
        proof {
            assert(this.seen@ + this.rest() =~= this.rest());
        }
        let roots = this.parse_nodes(Terminator::EndOfFile)?;
        proof {
            assert(this.seen@ =~= concat_ids(this.toks@, roots@));
        }
        Ok(Program { ast: this.ast, roots, tokens: Ghost(this.toks@) })
    }
}

} // verus!
