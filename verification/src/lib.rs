use vstd::prelude::*;

pub mod text;
pub mod source;
pub mod error;
pub mod lexer;
pub mod ast;
pub mod parser;
pub mod env;
pub mod call;
pub mod strings;
pub mod value;
pub mod regex;
pub mod utf8;
pub mod json;
pub mod number;
pub mod module;
pub mod cli;
pub mod repl;

verus! {

} // verus!
