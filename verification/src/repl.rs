//! Deciding whether the REPL has a complete input: input that ends in an
//! empty line is complete; otherwise it is incomplete exactly when parsing
//! it fails because it ended too early (input without tokens parses).

use vstd::prelude::*;

use crate::ast::Program;
use crate::error::LangError;
use crate::lexer::{tokens_from, Lexer, TokenView};
use crate::parser::{
    binary_op_of, ends_in_operator, misordered_function, operand_run, reads_to_end, simple_call_first, Parser,
};
use crate::source::SourceMap;
use crate::strings::ends_with;
use crate::text::{byte_len, lit};

verus! {

/// Whether the input is ready to run.
#[derive(Debug, Clone, Copy, PartialEq, Eq, Structural)]
pub enum Validation {
    Complete,
    Incomplete,
}

/// The verdict on an input from the result of parsing it: incomplete when
/// parsing failed because the input ended too early.
pub fn validation_of(parsed: &Result<Program, LangError>) -> (v: Validation)
    ensures
        v == (if parsed matches Err(e) && e.is_unexpected_eof() {
            Validation::Incomplete
        } else {
            Validation::Complete
        }),
{
    match parsed {
        Err(e) => match e.kind {
            crate::error::LangErrorKind::UnexpectedEOF { .. } => Validation::Incomplete,
            _ => Validation::Complete,
        },
        Ok(_) => Validation::Complete,
    }
}

/// Whether `input` is ready to run: it ends in an empty line, or it parses,
/// or it fails to parse for another reason than ending too early. It is
/// incomplete only when its text reads without lexical errors to the end
/// and holds at least one token. Text made only of operands and binary
/// operators is incomplete exactly when it ends in an operator; a function
/// or a call whose parameter or argument list is misordered is a syntax
/// error, so it is complete.
pub fn validate(input: &str) -> (v: Validation)
    requires
        byte_len(input@) < usize::MAX,
    ensures
        input@.len() >= 2 && input@.skip(input@.len() - 2) == "\n\n"@ ==> v == Validation::Complete,
        tokens_from(input@, 0) == seq![TokenView::EndOfFile] ==> v == Validation::Complete,
        v == Validation::Incomplete ==> reads_to_end(input@, 0) && tokens_from(input@, 0).len() > 1,
        !(input@.len() >= 2 && input@.skip(input@.len() - 2) == "\n\n"@) && operand_run(
            tokens_from(input@, 0),
        ) && binary_op_of(tokens_from(input@, 0)[0]) is None ==> (v == Validation::Incomplete
            <==> ends_in_operator(tokens_from(input@, 0))),
        misordered_function(tokens_from(input@, 0)) || simple_call_first(tokens_from(input@, 0), false)
            ==> v == Validation::Complete,
{
    proof {
        reveal_strlit("\n\n");
    }
    if ends_with(input, "\n\n") {
        return Validation::Complete;
    }
    let mut probe_map = SourceMap::new();
    let probe = probe_map.add(lit("<repl>"), lit(input));
    let parsed = Parser::new(Lexer::new(probe)).parse();
    validation_of(&parsed)
}

} // verus!
