//! A front end for a small expression language: a scanner that turns source
//! text into tokens, a recursive-descent parser that turns tokens into an
//! expression tree, and a printer that renders a tree in prefix notation.

pub mod expr;
pub mod grammar;
pub mod lexicon;
pub mod number;
pub mod parser;
pub mod scanner;
pub mod text;
pub mod token;
pub mod utils;

use crate::expr::Expr;
use crate::grammar::parse_expression;
use crate::lexicon::scan;
use crate::parser::{expression, PResult};
use crate::scanner::{error_views, LexError, Scanner};
use vstd::prelude::*;

verus! {

/// What a source text was found to hold.
pub struct Analysis {
    /// The lexical errors of the text, in the order they were found.
    pub errors: Vec<LexError>,
    /// The expression that the text starts with, or why it starts with none.
    pub result: PResult<Expr>,
}

/// Scans `src` and parses the expression that its tokens start with. The
/// scanner goes on after an error and the parser reads the tokens it
/// gave; the parser stops at its first error. Tokens after the expression
/// are not read.
pub fn run(src: &str) -> (out: Analysis)
    ensures
        error_views(out.errors@) == scan(src@).errors,
        match parse_expression(scan(src@).tokens) {
            Ok((tree, n)) => out.result matches Ok(expr) && expr@ == tree && tree.printable(),
            Err(error) => out.result matches Err(e) && e@ == error,
        },
{
    let mut scanner = Scanner::new();
    let tokens = scanner.scan_tokens(src);
    let result = match expression(tokens.as_slice()) {
        Ok((expr, _)) => Ok(expr),
        Err(error) => Err(error),
    };
    Analysis { errors: scanner.into_errors(), result }
}

} // verus!
