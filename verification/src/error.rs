//! Errors. `LangError` is what reading, parsing and running a program report:
//! a kind with its subkind, a message, and a traceback of spans, the first
//! where the error arose and the rest the calls it passed through. A kind of
//! `UnexpectedEOF` marks input that ended too early (the REPL then asks for
//! more). `NativeError` is the lighter error of built-in operations.

use vstd::prelude::*;

use crate::source::{SourceMap, Span};
use crate::text::{append_chars, chars_of, lit, push_str, string_of};

verus! {

#[derive(Debug, Clone)]
pub enum LangErrorKind {
    InvalidInput { subkind: &'static str },
    InvalidSyntax { subkind: &'static str },
    UnexpectedEOF { subkind: &'static str },
    RuntimeError { subkind: String },
}

/// The kind of an error with its subkind as text.
pub enum ErrorKindView {
    InvalidInput(Seq<char>),
    InvalidSyntax(Seq<char>),
    UnexpectedEof(Seq<char>),
    Runtime(Seq<char>),
}

impl View for LangErrorKind {
    type V = ErrorKindView;

    open spec fn view(&self) -> ErrorKindView {
        match self {
            LangErrorKind::InvalidInput { subkind } => ErrorKindView::InvalidInput(subkind@),
            LangErrorKind::InvalidSyntax { subkind } => ErrorKindView::InvalidSyntax(subkind@),
            LangErrorKind::UnexpectedEOF { subkind } => ErrorKindView::UnexpectedEof(subkind@),
            LangErrorKind::RuntimeError { subkind } => ErrorKindView::Runtime(subkind@),
        }
    }
}

/// The headline of an error kind, such as `invalid syntax: unexpected token`.
pub open spec fn kind_headline(k: ErrorKindView) -> Seq<char> {
    match k {
        ErrorKindView::InvalidInput(s) => "invalid input: "@ + s,
        ErrorKindView::InvalidSyntax(s) => "invalid syntax: "@ + s,
        ErrorKindView::UnexpectedEof(s) => "unexpected end of file: "@ + s,
        ErrorKindView::Runtime(s) => "runtime error: "@ + s,
    }
}

/// One frame of a stack trace: its location and, when there is one, its line.
pub open spec fn trace_frame(m: SourceMap, span: Span) -> Seq<char> {
    "\n  at "@ + m.location_text(span) + match m.line_text(span) {
        Some(l) => "  "@ + l,
        None => Seq::<char>::empty(),
    }
}

/// The frames of `tb[1..k]`, most recent (highest index) first.
pub open spec fn trace_frames(m: SourceMap, tb: Seq<Span>, k: int) -> Seq<char>
    decreases k,
{
    if k <= 1 {
        Seq::<char>::empty()
    } else {
        trace_frame(m, tb[k - 1]) + trace_frames(m, tb, k - 1)
    }
}

#[derive(Debug, Clone)]
pub struct LangError {
    pub kind: LangErrorKind,
    pub message: String,
    pub traceback: Vec<Span>,
}

impl LangError {
    pub open spec fn is_invalid_input(&self, sub: Seq<char>) -> bool {
        self.kind@ == ErrorKindView::InvalidInput(sub)
    }

    pub open spec fn is_unexpected_eof(&self) -> bool {
        self.kind@ is UnexpectedEof
    }

    /// The one-line summary: headline and message.
    pub open spec fn summary(&self) -> Seq<char> {
        kind_headline(self.kind@) + " ("@ + self.message@ + ")"@
    }

    /// The full report against a source map.
    pub open spec fn report(&self, m: SourceMap) -> Seq<char> {
        let tb = self.traceback@;
        self.summary() + "\n\n"@ + (if tb.len() > 0 {
            "at "@ + m.location_text(tb[0]) + "\n"@ + m.context_text(tb[0], 3, 1)
        } else {
            Seq::<char>::empty()
        }) + (if tb.len() > 1 {
            "\n\nstack trace (most recent call last):"@ + trace_frames(m, tb, tb.len() as int)
        } else {
            Seq::<char>::empty()
        })
    }

    pub fn new(kind: LangErrorKind, message: String, traceback: Vec<Span>) -> (e: LangError)
        ensures
            e.kind@ == kind@,
            e.message@ == message@,
            e.traceback@ == traceback@,
    {
        LangError { kind, message, traceback }
    }

    pub fn invalid_input(subkind: &'static str, message: String, span: Span) -> (e: LangError)
        ensures
            e.kind@ == ErrorKindView::InvalidInput(subkind@),
            e.message@ == message@,
            e.traceback@ == seq![span],
    {
        let mut tb: Vec<Span> = Vec::new();
        tb.push(span);
        Self::new(LangErrorKind::InvalidInput { subkind }, message, tb)
    }

    pub fn invalid_syntax(subkind: &'static str, message: String, span: Span) -> (e: LangError)
        ensures
            e.kind@ == ErrorKindView::InvalidSyntax(subkind@),
            e.message@ == message@,
            e.traceback@ == seq![span],
    {
        let mut tb: Vec<Span> = Vec::new();
        tb.push(span);
        Self::new(LangErrorKind::InvalidSyntax { subkind }, message, tb)
    }

    pub fn runtime_error(subkind: String, message: String, traceback: Vec<Span>) -> (e: LangError)
        ensures
            e.kind@ == ErrorKindView::Runtime(subkind@),
            e.message@ == message@,
            e.traceback@ == traceback@,
    {
        Self::new(LangErrorKind::RuntimeError { subkind }, message, traceback)
    }

    /// The error for a token other than the one expected: input that ends
    /// early is incomplete (`missing ..`), any other token is a syntax error.
    /// `expected` is how the expected item is written in the message.
    pub fn expected_token(expected: &str, got: &crate::lexer::TokenKind, span: Span) -> (e:
        LangError)
        ensures
            e.traceback@ == seq![span],
            got@ is EndOfFile ==> e.kind@ == ErrorKindView::UnexpectedEof("expected token"@)
                && e.message@ == "missing "@ + expected@,
            !(got@ is EndOfFile) ==> e.kind@ == ErrorKindView::InvalidSyntax("unexpected token"@)
                && e.message@ == "exepcted "@ + expected@ + "; got "@
                + crate::lexer::token_debug(got@),
    {
        if got.is_eof() {
            let mut m: Vec<char> = chars_of("missing ");
            push_str(&mut m, expected);
            let mut tb: Vec<Span> = Vec::new();
            tb.push(span);
            Self::new(
                LangErrorKind::UnexpectedEOF { subkind: "expected token" },
                string_of(&m),
                tb,
            )
        } else {
            let mut m: Vec<char> = chars_of("exepcted ");
            push_str(&mut m, expected);
            push_str(&mut m, "; got ");
            let d = got.describe();
            push_str(&mut m, d.as_str());
            Self::invalid_syntax("unexpected token", string_of(&m), span)
        }
    }

    /// The same error with `span` added to its traceback.
    pub fn add_context(self, span: Span) -> (e: LangError)
        ensures
            e.kind@ == self.kind@,
            e.message@ == self.message@,
            e.traceback@ == self.traceback@.push(span),
    {
        let mut e = self;
        e.traceback.push(span);
        e
    }

    /// The one-line summary, such as `invalid syntax: unexpected token (...)`.
    pub fn extract(&self) -> (r: String)
        ensures
            r@ == self.summary(),
    {
        let mut out: Vec<char> = match &self.kind {
            LangErrorKind::InvalidInput { subkind } => {
                let mut v = chars_of("invalid input: ");
                push_str(&mut v, subkind);
                v
            },
            LangErrorKind::InvalidSyntax { subkind } => {
                let mut v = chars_of("invalid syntax: ");
                push_str(&mut v, subkind);
                v
            },
            LangErrorKind::UnexpectedEOF { subkind } => {
                let mut v = chars_of("unexpected end of file: ");
                push_str(&mut v, subkind);
                v
            },
            LangErrorKind::RuntimeError { subkind } => {
                let mut v = chars_of("runtime error: ");
                push_str(&mut v, subkind.as_str());
                v
            },
        };
        push_str(&mut out, " (");
        push_str(&mut out, self.message.as_str());
        push_str(&mut out, ")");
        string_of(&out)
    }

    /// The report: summary, the location and numbered lines of the first
    /// span, then the other spans as a stack trace, most recent call last.
    pub fn display(&self, source_map: &SourceMap) -> (r: String)
        requires
            source_map.wf(),
            forall|i: int|
                0 <= i < self.traceback@.len() ==> source_map.valid_span(
                    #[trigger] self.traceback@[i],
                ),
        ensures
            r@ == self.report(*source_map),
    {
        let head = self.extract();
        let mut out: Vec<char> = chars_of(head.as_str());
        push_str(&mut out, "\n\n");
        let n = self.traceback.len();
        if n > 0 {
            let first = self.traceback[0];
            push_str(&mut out, "at ");
            let loc = source_map.format_location(first);
            push_str(&mut out, loc.as_str());
            push_str(&mut out, "\n");
            let _ = source_map.get_location(first);
            let ctx = source_map.render_span_context(first, 3, 1);
            push_str(&mut out, ctx.as_str());
        }
        let ghost base = out@;
        if n > 1 {
            push_str(&mut out, "\n\nstack trace (most recent call last):");
            let ghost head2 = out@;
            let mut k: usize = n;
            while k > 1
                invariant
                    1 <= k <= n == self.traceback@.len(),
                    source_map.wf(),
                    forall|i: int|
                        0 <= i < self.traceback@.len() ==> source_map.valid_span(
                            #[trigger] self.traceback@[i],
                        ),
                    out@ + trace_frames(*source_map, self.traceback@, k as int) == head2
                        + trace_frames(*source_map, self.traceback@, n as int),
                decreases k,
            {
                let span = self.traceback[k - 1];
                let ghost before = out@;
                push_str(&mut out, "\n  at ");
                let loc = source_map.format_location(span);
                push_str(&mut out, loc.as_str());
                match source_map.extract_line(span) {
                    Some(line) => {
                        push_str(&mut out, "  ");
                        push_str(&mut out, line.as_str());
                    },
                    None => {},
                }
                proof {
                    assert(out@ =~= before + trace_frame(*source_map, span));
                    assert(trace_frames(*source_map, self.traceback@, k as int) =~= trace_frame(
                        *source_map,
                        span,
                    ) + trace_frames(*source_map, self.traceback@, k - 1));
                    assert(out@ + trace_frames(*source_map, self.traceback@, k - 1) =~= before
                        + trace_frames(*source_map, self.traceback@, k as int));
                }
                k = k - 1;
            }
            proof {
                assert(trace_frames(*source_map, self.traceback@, 1) =~= Seq::<char>::empty());
                assert(out@ =~= head2 + trace_frames(*source_map, self.traceback@, n as int));
            }
        }
        proof {
            assert(out@ =~= self.report(*source_map));
        }
        string_of(&out)
    }
}

#[derive(Debug, Clone)]
pub struct NativeError {
    pub kind: &'static str,
    pub message: String,
}

impl NativeError {
    pub fn new(kind: &'static str, message: String) -> (e: NativeError)
        ensures
            e.kind@ == kind@,
            e.message@ == message@,
    {
        NativeError { kind, message }
    }

    /// The error for operands of the wrong types: `invalid operands for 'op': a and b`.
    pub fn operation_type_error(op: &str, a: &str, b: &str) -> (e: NativeError)
        ensures
            e.kind@ == "type error"@,
            e.message@ == "invalid operands for '"@ + op@ + "': "@ + a@ + " and "@ + b@,
    {
        let mut m: Vec<char> = chars_of("invalid operands for '");
        push_str(&mut m, op);
        push_str(&mut m, "': ");
        push_str(&mut m, a);
        push_str(&mut m, " and ");
        push_str(&mut m, b);
        Self::new("type error", string_of(&m))
    }
}

} // verus!
