use vstd::prelude::*;

pub mod ast;
pub mod compile;
pub mod errors;
pub mod lexer;
pub mod log_parser;
pub mod nfa;
pub mod schema;

verus! {

} // verus!
