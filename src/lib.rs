//! A front end for a small query language over log files:
//! `SELECT <fields> FROM '<file>' [WHERE <field> (= | LIKE) '<value>'] [LIMIT [LAST] <n>]`.
//!
//! The lexer turns a query into tokens, the parser turns the tokens into a
//! tree. Both are specified by spec functions (`lexer::lex`,
//! `grammar::parse_query`) that their executable code is proved to follow;
//! `laws` states and proves properties of the grammar.
use vstd::prelude::*;

pub mod grammar;
pub mod laws;
pub mod lexer;
pub mod parser;

pub use grammar::{Expected, ParseError};
pub use lexer::{consume_identifier, consume_number, consume_string, tokenize, LexError, LexItem};
pub use parser::{parse_token_stream, ASTNode, GrammarItem, LimitDirection, Parser, WhereComparator};

use grammar::parse_query;
use parser::parsed_as;

verus! {

/// Parses `query` into its syntax tree, or returns the first error in it.
pub fn get_ast_for_query(query: String) -> (r: Result<ASTNode, ParseError>)
    ensures
        parsed_as(r, parse_query(query@)),
{
    let mut parser = Parser::new(query);
    parser.parse()
}

} // verus!
