//! The grammar of a query, as spec functions over token sequences:
//!
//! ```text
//! query        := "SELECT" field_list "FROM" StringLiteral [where_clause] [limit_clause] EOF
//! field_list   := Identifier { "," Identifier }
//! where_clause := "WHERE" Identifier ("=" | "LIKE") StringLiteral
//! limit_clause := "LIMIT" ["LAST"] Number
//! ```
//!
//! Keywords are identifiers with an exact, upper-case text; they are reserved
//! only where the grammar looks for them.
use vstd::prelude::*;
use crate::lexer::{lex, LexError, LexItem, TokenView};
use crate::parser::{LimitDirection, WhereComparator};

verus! {

/// What the parser looked for when it found something else.
#[derive(Debug, Clone, Copy, PartialEq, Eq, Structural)]
pub enum Expected {
    Select,
    From,
    Identifier,
    Comma,
    StringLiteral,
    Comparator,
    Number,
    EndOfInput,
}

/// Why a query could not be parsed.
#[derive(Debug, Clone, PartialEq)]
pub enum ParseError {
    /// The query could not be tokenized.
    Lex(LexError),
    /// A token other than the one the grammar asks for; `None` is the end of input.
    Unexpected { expected: Expected, found: Option<LexItem> },
    /// The keyword `FROM` where a field name should stand.
    ExpectedIdentifierGotKeyword,
    /// A comma right before `FROM`.
    DanglingComma,
}

pub enum ParseErrorView {
    Lex(LexError),
    Unexpected { expected: Expected, found: Option<TokenView> },
    ExpectedIdentifierGotKeyword,
    DanglingComma,
}

pub open spec fn token_view(o: Option<LexItem>) -> Option<TokenView> {
    match o {
        Some(t) => Some(t@),
        None => None,
    }
}

impl View for ParseError {
    type V = ParseErrorView;

    open spec fn view(&self) -> ParseErrorView {
        match self {
            ParseError::Lex(e) => ParseErrorView::Lex(*e),
            ParseError::Unexpected { expected, found } => ParseErrorView::Unexpected {
                expected: *expected,
                found: token_view(*found),
            },
            ParseError::ExpectedIdentifierGotKeyword => ParseErrorView::ExpectedIdentifierGotKeyword,
            ParseError::DanglingComma => ParseErrorView::DanglingComma,
        }
    }
}

/// The condition of a WHERE clause.
pub struct ConditionModel {
    pub field: Seq<char>,
    pub comparator: WhereComparator,
    pub value: Seq<char>,
}

/// The bound of a LIMIT clause.
pub struct LimitModel {
    pub count: usize,
    pub direction: LimitDirection,
}

/// What a query says: the fields and file it reads, and its optional clauses.
pub struct QueryModel {
    pub fields: Seq<Seq<char>>,
    pub filename: Seq<char>,
    pub condition: Option<ConditionModel>,
    pub limit: Option<LimitModel>,
}

pub open spec fn kw_select() -> Seq<char> {
    seq!['S', 'E', 'L', 'E', 'C', 'T']
}

pub open spec fn kw_from() -> Seq<char> {
    seq!['F', 'R', 'O', 'M']
}

pub open spec fn kw_where() -> Seq<char> {
    seq!['W', 'H', 'E', 'R', 'E']
}

pub open spec fn kw_like() -> Seq<char> {
    seq!['L', 'I', 'K', 'E']
}

pub open spec fn kw_limit() -> Seq<char> {
    seq!['L', 'I', 'M', 'I', 'T']
}

pub open spec fn kw_last() -> Seq<char> {
    seq!['L', 'A', 'S', 'T']
}

/// The token at index `i`, or `None` past the end.
pub open spec fn at(t: Seq<TokenView>, i: int) -> Option<TokenView> {
    if 0 <= i < t.len() {
        Some(t[i])
    } else {
        None
    }
}

/// Whether `tok` is the identifier `w`.
pub open spec fn is_word(tok: Option<TokenView>, w: Seq<char>) -> bool {
    tok == Some(TokenView::Identifier(w))
}

pub open spec fn unexpected(expected: Expected, found: Option<TokenView>) -> ParseErrorView {
    ParseErrorView::Unexpected { expected, found }
}

/// The field list that starts at index `i`, and the index of the `FROM` that ends it.
pub open spec fn field_list(t: Seq<TokenView>, i: int) -> Result<(Seq<Seq<char>>, int), ParseErrorView>
    decreases t.len() - i,
{
    match at(t, i) {
        Some(TokenView::Identifier(name)) => {
            if name == kw_from() {
                Err(ParseErrorView::ExpectedIdentifierGotKeyword)
            } else if is_word(at(t, i + 1), kw_from()) {
                Ok((seq![name], i + 1))
            } else if at(t, i + 1) == Some(TokenView::Comma) {
                if is_word(at(t, i + 2), kw_from()) {
                    Err(ParseErrorView::DanglingComma)
                } else {
                    match field_list(t, i + 2) {
                        Ok((rest, j)) => Ok((seq![name] + rest, j)),
                        Err(e) => Err(e),
                    }
                }
            } else {
                Err(unexpected(Expected::Comma, at(t, i + 1)))
            }
        },
        other => Err(unexpected(Expected::Identifier, other)),
    }
}

/// The field list and file name that start at index `i`, and the index after them.
pub open spec fn log_file_clause(t: Seq<TokenView>, i: int) -> Result<
    (Seq<Seq<char>>, Seq<char>, int),
    ParseErrorView,
> {
    match field_list(t, i) {
        Err(e) => Err(e),
        Ok((fields, j)) => match at(t, j + 1) {
            Some(TokenView::Str(filename)) => Ok((fields, filename, j + 2)),
            other => Err(unexpected(Expected::StringLiteral, other)),
        },
    }
}

/// The WHERE clause at index `k`, if one starts there, and the index after it.
pub open spec fn where_clause(t: Seq<TokenView>, k: int) -> Result<
    (Option<ConditionModel>, int),
    ParseErrorView,
> {
    if !is_word(at(t, k), kw_where()) {
        Ok((None, k))
    } else {
        match at(t, k + 1) {
            Some(TokenView::Identifier(field)) => {
                let comparator = if at(t, k + 2) == Some(TokenView::Equals) {
                    Some(WhereComparator::StrictEquals)
                } else if is_word(at(t, k + 2), kw_like()) {
                    Some(WhereComparator::Like)
                } else {
                    None
                };
                match comparator {
                    None => Err(unexpected(Expected::Comparator, at(t, k + 2))),
                    Some(comparator) => match at(t, k + 3) {
                        Some(TokenView::Str(value)) => Ok(
                            (Some(ConditionModel { field, comparator, value }), k + 4),
                        ),
                        other => Err(unexpected(Expected::StringLiteral, other)),
                    },
                }
            },
            other => Err(unexpected(Expected::Identifier, other)),
        }
    }
}

/// The LIMIT clause at index `k`, if one starts there, and the index after it.
pub open spec fn limit_clause(t: Seq<TokenView>, k: int) -> Result<
    (Option<LimitModel>, int),
    ParseErrorView,
> {
    if !is_word(at(t, k), kw_limit()) {
        Ok((None, k))
    } else {
        let last = is_word(at(t, k + 1), kw_last());
        let direction = if last {
            LimitDirection::Last
        } else {
            LimitDirection::First
        };
        let n = if last {
            k + 2
        } else {
            k + 1
        };
        match at(t, n) {
            Some(TokenView::Number(count)) => Ok((Some(LimitModel { count, direction }), n + 1)),
            other => Err(unexpected(Expected::Number, other)),
        }
    }
}

/// The query that the tokens `t` spell, or the first syntax error in them.
pub open spec fn parse_tokens(t: Seq<TokenView>) -> Result<QueryModel, ParseErrorView> {
    if !is_word(at(t, 0), kw_select()) {
        Err(unexpected(Expected::Select, at(t, 0)))
    } else {
        match log_file_clause(t, 1) {
            Err(e) => Err(e),
            Ok((fields, filename, j)) => match where_clause(t, j) {
                Err(e) => Err(e),
                Ok((condition, k)) => match limit_clause(t, k) {
                    Err(e) => Err(e),
                    Ok((limit, m)) => if at(t, m) == Some(TokenView::EOF) {
                        Ok(QueryModel { fields, filename, condition, limit })
                    } else {
                        Err(unexpected(Expected::EndOfInput, at(t, m)))
                    },
                },
            },
        }
    }
}

/// The query that the text `s` spells, or the first error in it.
pub open spec fn parse_query(s: Seq<char>) -> Result<QueryModel, ParseErrorView> {
    match lex(s) {
        Err(e) => Err(ParseErrorView::Lex(e)),
        Ok(t) => parse_tokens(t),
    }
}

} // verus!
