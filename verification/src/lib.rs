use vstd::prelude::*;

pub mod lexer;
pub mod literal;
pub mod node;
pub mod parser;
pub mod token;

pub use node::Ast;
pub use node::Node;
pub use parser::ParserError;
pub use token::Token;
pub use token::TokenKind;
pub use token::TokenPosition;

use crate::lexer::{spec_filter, spec_tokenize};
use crate::parser::spec_parse;

verus! {

/// The configuration language front end: a byte buffer in, a typed
/// top-level mapping or a diagnosis out.
pub struct Kfg;

impl Kfg {
    /// Runs the whole pipeline: tokenize, filter, parse.
    pub fn parse(buffer: &[u8]) -> (r: Result<Ast, ParserError>)
        requires
            buffer@.len() < usize::MAX,
        ensures
            match spec_parse(spec_filter(spec_tokenize(buffer@))) {
                Ok(m) => r matches Ok(ast) && ast.view() == m && ast.wf(),
                Err(e) => r matches Err(pe) && pe.view() == e,
            },
    {
        let tokens = lexer::lex(buffer);
        parser::parse(tokens.as_slice())
    }
}

} // verus!
