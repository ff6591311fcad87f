//! The syntax tree of a query and the recursive-descent parser that builds it.
use vstd::prelude::*;
use vstd::string::StrSliceExecFns;
use crate::grammar::{
    at, field_list, is_word, kw_from, kw_last, kw_like, kw_limit, kw_select, kw_where,
    limit_clause, log_file_clause, parse_query, parse_tokens, unexpected, where_clause,
    ConditionModel, Expected, LimitModel, ParseError, ParseErrorView, QueryModel,
};
use crate::lexer::{tokenize, LexItem, TokenView};

verus! {

/// Which end of the file a LIMIT counts from.
#[derive(Debug, Clone, Copy, PartialEq, Eq, Structural)]
pub enum LimitDirection {
    First,
    Last,
}

/// How a WHERE clause compares a field with its value.
#[derive(Debug, Clone, Copy, PartialEq, Eq, Structural)]
pub enum WhereComparator {
    StrictEquals,
    Like,
}

/// What a node of the syntax tree stands for.
#[derive(Debug, PartialEq, Clone)]
pub enum GrammarItem {
    Query,
    LogFile { fields: Vec<String>, filename: String },
    Condition { field: String, mode: WhereComparator, value: String },
    Limit { number_of_rows: usize, direction: LimitDirection },
    LogResult,
}

/// A node of the syntax tree. The root is a `Query` whose left child is the
/// `LogFile`; its right child, present only when the query has a WHERE or a
/// LIMIT clause, is a `LogResult` holding the `Condition` on its left and the
/// `Limit` on its right.
#[derive(Debug)]
pub struct ASTNode {
    pub left: Option<Box<ASTNode>>,
    pub right: Option<Box<ASTNode>>,
    pub entry: GrammarItem,
}

impl ASTNode {
    pub fn new(entry: GrammarItem, left: Option<Box<ASTNode>>, right: Option<Box<ASTNode>>) -> (r:
        ASTNode)
        ensures
            r.entry == entry,
            r.left == left,
            r.right == right,
    {
        ASTNode { entry, left, right }
    }
}

fn clone_tree(n: &ASTNode) -> (r: ASTNode)
    decreases n,
{
    let left = match &n.left {
        Some(b) => Some(Box::new(clone_tree(b))),
        None => None,
    };
    let right = match &n.right {
        Some(b) => Some(Box::new(clone_tree(b))),
        None => None,
    };
    ASTNode { left, right, entry: n.entry.clone() }
}

impl Clone for ASTNode {
    fn clone(&self) -> Self {
        clone_tree(self)
    }
}

pub open spec fn strings_view(v: Seq<String>) -> Seq<Seq<char>> {
    v.map_values(|s: String| s@)
}

/// `n` is a leaf for the file `filename` and the fields `fields`.
pub open spec fn is_log_file_node(n: ASTNode, fields: Seq<Seq<char>>, filename: Seq<char>) -> bool {
    &&& n.left is None
    &&& n.right is None
    &&& match n.entry {
        GrammarItem::LogFile { fields: fs, filename: f } => strings_view(fs@) == fields && f@
            == filename,
        _ => false,
    }
}

/// `n` is a leaf for the condition `c`.
pub open spec fn is_condition_node(n: ASTNode, c: ConditionModel) -> bool {
    &&& n.left is None
    &&& n.right is None
    &&& match n.entry {
        GrammarItem::Condition { field, mode, value } => field@ == c.field && mode == c.comparator
            && value@ == c.value,
        _ => false,
    }
}

/// `n` is a leaf for the limit `l`.
pub open spec fn is_limit_node(n: ASTNode, l: LimitModel) -> bool {
    &&& n.left is None
    &&& n.right is None
    &&& n.entry == GrammarItem::Limit { number_of_rows: l.count, direction: l.direction }
}

pub open spec fn holds_condition(n: Option<Box<ASTNode>>, c: Option<ConditionModel>) -> bool {
    match (n, c) {
        (None, None) => true,
        (Some(b), Some(c)) => is_condition_node(*b, c),
        _ => false,
    }
}

pub open spec fn holds_limit(n: Option<Box<ASTNode>>, l: Option<LimitModel>) -> bool {
    match (n, l) {
        (None, None) => true,
        (Some(b), Some(l)) => is_limit_node(*b, l),
        _ => false,
    }
}

/// `ast` is the syntax tree of the query `q`.
pub open spec fn represents(ast: ASTNode, q: QueryModel) -> bool {
    &&& ast.entry is Query
    &&& ast.left matches Some(lf) && is_log_file_node(*lf, q.fields, q.filename)
    &&& if q.condition is None && q.limit is None {
        ast.right is None
    } else {
        &&& ast.right matches Some(res)
        &&& res.entry is LogResult
        &&& holds_condition(res.left, q.condition)
        &&& holds_limit(res.right, q.limit)
    }
}

/// `r` is the outcome `m`: the tree of the same query, or the same error.
pub open spec fn parsed_as(r: Result<ASTNode, ParseError>, m: Result<QueryModel, ParseErrorView>) -> bool {
    match (r, m) {
        (Ok(ast), Ok(q)) => represents(ast, q),
        (Err(e), Err(ev)) => e@ == ev,
        _ => false,
    }
}

pub open spec fn ref_view(o: Option<&LexItem>) -> Option<TokenView> {
    match o {
        Some(t) => Some(t@),
        None => None,
    }
}

proof fn lemma_keyword_literals()
    ensures
        "SELECT"@ == kw_select(),
        "FROM"@ == kw_from(),
        "WHERE"@ == kw_where(),
        "LIKE"@ == kw_like(),
        "LIMIT"@ == kw_limit(),
        "LAST"@ == kw_last(),
{
    reveal_strlit("SELECT");
    reveal_strlit("FROM");
    reveal_strlit("WHERE");
    reveal_strlit("LIKE");
    reveal_strlit("LIMIT");
    reveal_strlit("LAST");
    assert("SELECT"@ =~= kw_select());
    assert("FROM"@ =~= kw_from());
    assert("WHERE"@ =~= kw_where());
    assert("LIKE"@ =~= kw_like());
    assert("LIMIT"@ =~= kw_limit());
    assert("LAST"@ =~= kw_last());
}

/// Whether `s` holds exactly the text `w`.
fn text_is(s: &String, w: &str) -> (r: bool)
    ensures
        r == (s@ == w@),
{
    let a = s.as_str();
    let n = a.unicode_len();
    let m = w.unicode_len();
    if n != m {
        return false;
    }
    let mut i: usize = 0;
    while i < n
        invariant
            a@ == s@,
            n == a@.len(),
            m == w@.len(),
            n == m,
            i <= n,
            forall|k: int| 0 <= k < i ==> a@[k] == w@[k],
        decreases n - i,
    {
        if a.get_char(i) != w.get_char(i) {
            return false;
        }
        i = i + 1;
    }
    assert(a@ =~= w@);
    true
}

/// Whether `tok` is the identifier `w`.
fn is_keyword(tok: Option<&LexItem>, w: &str) -> (r: bool)
    ensures
        r == is_word(ref_view(tok), w@),
{
    match tok {
        Some(LexItem::Identifier(s)) => text_is(s, w),
        _ => false,
    }
}

/// A copy of the token `tok`, to report it in an error.
fn copy_token(tok: Option<&LexItem>) -> (r: Option<LexItem>)
    ensures
        crate::grammar::token_view(r) == ref_view(tok),
{
    match tok {
        Some(LexItem::Identifier(s)) => Some(LexItem::Identifier(s.clone())),
        Some(LexItem::Str(s)) => Some(LexItem::Str(s.clone())),
        Some(LexItem::Equals) => Some(LexItem::Equals),
        Some(LexItem::Number(n)) => Some(LexItem::Number(*n)),
        Some(LexItem::Comma) => Some(LexItem::Comma),
        Some(LexItem::EOF) => Some(LexItem::EOF),
        None => None,
    }
}

/// A parser for one query: it tokenizes the query, then reads the tokens
/// from left to right with one token of lookahead.
pub struct Parser {
    query: String,
    token_index: usize,
    token_stream: Vec<LexItem>,
}

impl Parser {
    /// The text of the query this parser reads.
    pub closed spec fn query_text(&self) -> Seq<char> {
        self.query@
    }

    spec fn tokens(&self) -> Seq<TokenView> {
        self.token_stream@.map_values(|t: LexItem| t@)
    }

    /// Same query and tokens; only the position may differ.
    spec fn same_input(&self, other: &Parser) -> bool {
        &&& self.query == other.query
        &&& self.token_stream == other.token_stream
    }

    pub fn new(query: String) -> (r: Parser)
        ensures
            r.query_text() == query@,
    {
        Parser { query, token_stream: Vec::new(), token_index: 0 }
    }

    fn current_token(&self) -> (r: Option<&LexItem>)
        ensures
            ref_view(r) == at(self.tokens(), self.token_index as int),
    {
        if self.token_index < self.token_stream.len() {
            Some(&self.token_stream[self.token_index])
        } else {
            None
        }
    }

    fn next_token(&self) -> (r: Option<&LexItem>)
        ensures
            ref_view(r) == at(self.tokens(), self.token_index + 1),
    {
        if self.token_index < self.token_stream.len() && self.token_index + 1
            < self.token_stream.len() {
            Some(&self.token_stream[self.token_index + 1])
        } else {
            None
        }
    }

    fn consume_token(&mut self)
        requires
            old(self).token_index < old(self).token_stream.len(),
        ensures
            final(self).same_input(old(self)),
            final(self).token_index == old(self).token_index + 1,
    {
        self.token_index = self.token_index + 1;
    }

    fn expect_eof(&self) -> (r: Result<(), ParseError>)
        ensures
            r is Ok <==> at(self.tokens(), self.token_index as int) == Some(TokenView::EOF),
            r matches Err(e) ==> e@ == unexpected(
                Expected::EndOfInput,
                at(self.tokens(), self.token_index as int),
            ),
    {
        let tok = self.current_token();
        match tok {
            Some(LexItem::EOF) => Ok(()),
            _ => Err(ParseError::Unexpected { expected: Expected::EndOfInput, found: copy_token(tok) }),
        }
    }

    /// Whether the current token is `=`.
    fn expect_equals(&self) -> (r: bool)
        ensures
            r == (at(self.tokens(), self.token_index as int) == Some(TokenView::Equals)),
    {
        match self.current_token() {
            Some(LexItem::Equals) => true,
            _ => false,
        }
    }

    fn expect_identifier(&self) -> (r: Result<String, ParseError>)
        ensures
            match at(self.tokens(), self.token_index as int) {
                Some(TokenView::Identifier(v)) => r matches Ok(s) && s@ == v,
                other => r matches Err(e) && e@ == unexpected(Expected::Identifier, other),
            },
    {
        let tok = self.current_token();
        match tok {
            Some(LexItem::Identifier(s)) => Ok(s.clone()),
            _ => Err(ParseError::Unexpected { expected: Expected::Identifier, found: copy_token(tok) }),
        }
    }

    fn expect_number(&self) -> (r: Result<usize, ParseError>)
        ensures
            match at(self.tokens(), self.token_index as int) {
                Some(TokenView::Number(v)) => r == Ok::<usize, ParseError>(v),
                other => r matches Err(e) && e@ == unexpected(Expected::Number, other),
            },
    {
        let tok = self.current_token();
        match tok {
            Some(LexItem::Number(n)) => Ok(*n),
            _ => Err(ParseError::Unexpected { expected: Expected::Number, found: copy_token(tok) }),
        }
    }

    fn expect_string_literal(&self) -> (r: Result<String, ParseError>)
        ensures
            match at(self.tokens(), self.token_index as int) {
                Some(TokenView::Str(v)) => r matches Ok(s) && s@ == v,
                other => r matches Err(e) && e@ == unexpected(Expected::StringLiteral, other),
            },
    {
        let tok = self.current_token();
        match tok {
            Some(LexItem::Str(s)) => Ok(s.clone()),
            _ => Err(
                ParseError::Unexpected { expected: Expected::StringLiteral, found: copy_token(tok) },
            ),
        }
    }

    /// Reads the field list up to the `FROM` that ends it, and stops at that `FROM`.
    fn expect_select_field_list(&mut self) -> (r: Result<Vec<String>, ParseError>)
        requires
            old(self).token_index <= old(self).token_stream.len(),
        ensures
            final(self).same_input(old(self)),
            final(self).token_index <= final(self).token_stream.len(),
            match r {
                Ok(fields) => field_list(old(self).tokens(), old(self).token_index as int) == Ok::<
                    (Seq<Seq<char>>, int),
                    ParseErrorView,
                >((strings_view(fields@), final(self).token_index as int)),
                Err(e) => field_list(old(self).tokens(), old(self).token_index as int) == Err::<
                    (Seq<Seq<char>>, int),
                    ParseErrorView,
                >(e@),
            },
    {
        let ghost start = *self;
        let ghost t = self.tokens();
        let ghost i0 = self.token_index as int;
        let mut fields: Vec<String> = Vec::new();
        loop
            invariant
                start == *old(self),
                t == old(self).tokens(),
                i0 == old(self).token_index as int,
                self.same_input(&start),
                self.tokens() == t,
                self.token_index <= self.token_stream.len(),
                field_list(t, i0) == prepend_fields(
                    strings_view(fields@),
                    field_list(t, self.token_index as int),
                ),
            decreases self.token_stream.len() - self.token_index,
        {
            let ghost done = strings_view(fields@);
            let ghost i = self.token_index as int;
            proof {
                lemma_keyword_literals();
            }
            let cur = self.current_token();
            let name = match cur {
                Some(LexItem::Identifier(s)) => s.clone(),
                _ => {
                    return Err(
                        ParseError::Unexpected { expected: Expected::Identifier, found: copy_token(cur) },
                    );
                },
            };
            if text_is(&name, "FROM") {
                return Err(ParseError::ExpectedIdentifierGotKeyword);
            }
            if is_keyword(self.next_token(), "FROM") {
                proof {
                    lemma_strings_push(fields@, name);
                    assert(done.push(name@) =~= done + seq![name@]);
                }
                fields.push(name);
                self.consume_token();
                return Ok(fields);
            }
            self.consume_token();
            let sep = self.current_token();
            match sep {
                Some(LexItem::Comma) => {},
                _ => {
                    return Err(
                        ParseError::Unexpected { expected: Expected::Comma, found: copy_token(sep) },
                    );
                },
            }
            if is_keyword(self.next_token(), "FROM") {
                return Err(ParseError::DanglingComma);
            }
            proof {
                lemma_strings_push(fields@, name);
                lemma_prepend_field(done, name@, field_list(t, i + 2));
            }
            fields.push(name);
            self.consume_token();
        }
    }

    /// Reads the field list, `FROM` and the file name.
    fn parse_log_file(&mut self) -> (r: Result<ASTNode, ParseError>)
        requires
            old(self).token_index <= old(self).token_stream.len(),
        ensures
            final(self).same_input(old(self)),
            final(self).token_index <= final(self).token_stream.len(),
            match r {
                Ok(node) => log_file_clause(old(self).tokens(), old(self).token_index as int) matches Ok(
                    (fields, filename, j),
                ) && is_log_file_node(node, fields, filename) && final(self).token_index == j,
                Err(e) => log_file_clause(old(self).tokens(), old(self).token_index as int) == Err::<
                    (Seq<Seq<char>>, Seq<char>, int),
                    ParseErrorView,
                >(e@),
            },
    {
        let ghost t = self.tokens();
        let ghost i0 = self.token_index as int;
        let fields = match self.expect_select_field_list() {
            Ok(f) => f,
            Err(e) => {
                return Err(e);
            },
        };
        proof {
            lemma_field_list_ends_at_from(t, i0);
        }
        self.consume_token();
        let filename = match self.expect_string_literal() {
            Ok(s) => s,
            Err(e) => {
                return Err(e);
            },
        };
        self.consume_token();
        Ok(ASTNode::new(GrammarItem::LogFile { fields, filename }, None, None))
    }

    /// Reads a WHERE clause; the current token is `WHERE`.
    fn parse_condition(&mut self) -> (r: Result<ASTNode, ParseError>)
        requires
            old(self).token_index <= old(self).token_stream.len(),
            is_word(at(old(self).tokens(), old(self).token_index as int), kw_where()),
        ensures
            final(self).same_input(old(self)),
            final(self).token_index <= final(self).token_stream.len(),
            match r {
                Ok(node) => where_clause(old(self).tokens(), old(self).token_index as int) matches Ok(
                    (Some(c), j),
                ) && is_condition_node(node, c) && final(self).token_index == j,
                Err(e) => where_clause(old(self).tokens(), old(self).token_index as int) == Err::<
                    (Option<ConditionModel>, int),
                    ParseErrorView,
                >(e@),
            },
    {
        proof {
            lemma_keyword_literals();
        }
        self.consume_token();
        let field = match self.expect_identifier() {
            Ok(s) => s,
            Err(e) => {
                return Err(e);
            },
        };
        self.consume_token();
        let mode = if self.expect_equals() {
            WhereComparator::StrictEquals
        } else if is_keyword(self.current_token(), "LIKE") {
            WhereComparator::Like
        } else {
            return Err(
                ParseError::Unexpected {
                    expected: Expected::Comparator,
                    found: copy_token(self.current_token()),
                },
            );
        };
        self.consume_token();
        let value = match self.expect_string_literal() {
            Ok(s) => s,
            Err(e) => {
                return Err(e);
            },
        };
        self.consume_token();
        Ok(ASTNode::new(GrammarItem::Condition { field, mode, value }, None, None))
    }

    /// Reads a LIMIT clause; the current token is `LIMIT`.
    fn parse_limit(&mut self) -> (r: Result<ASTNode, ParseError>)
        requires
            old(self).token_index <= old(self).token_stream.len(),
            is_word(at(old(self).tokens(), old(self).token_index as int), kw_limit()),
        ensures
            final(self).same_input(old(self)),
            final(self).token_index <= final(self).token_stream.len(),
            match r {
                Ok(node) => limit_clause(old(self).tokens(), old(self).token_index as int) matches Ok(
                    (Some(l), j),
                ) && is_limit_node(node, l) && final(self).token_index == j,
                Err(e) => limit_clause(old(self).tokens(), old(self).token_index as int) == Err::<
                    (Option<LimitModel>, int),
                    ParseErrorView,
                >(e@),
            },
    {
        proof {
            lemma_keyword_literals();
        }
        self.consume_token();
        let direction = if is_keyword(self.current_token(), "LAST") {
            self.consume_token();
            LimitDirection::Last
        } else {
            LimitDirection::First
        };
        let number_of_rows = match self.expect_number() {
            Ok(n) => n,
            Err(e) => {
                return Err(e);
            },
        };
        self.consume_token();
        Ok(ASTNode::new(GrammarItem::Limit { number_of_rows, direction }, None, None))
    }

    /// Tokenizes the query and parses it. Returns the syntax tree, or the
    /// first lexical or syntax error. Each call starts afresh from the query.
    pub fn parse(&mut self) -> (r: Result<ASTNode, ParseError>)
        ensures
            final(self).query_text() == old(self).query_text(),
            parsed_as(r, parse_query(old(self).query_text())),
    {
        let tokens = match tokenize(&self.query) {
            Ok(ts) => ts,
            Err(e) => {
                return Err(ParseError::Lex(e));
            },
        };
        self.token_stream = tokens;
        self.token_index = 0;
        self.parse_tokens_read()
    }

    /// Parses the tokens this parser holds, from the first one on.
    fn parse_tokens_read(&mut self) -> (r: Result<ASTNode, ParseError>)
        requires
            old(self).token_index == 0,
        ensures
            final(self).same_input(old(self)),
            parsed_as(r, parse_tokens(old(self).tokens())),
    {
        proof {
            lemma_keyword_literals();
        }
        if !is_keyword(self.current_token(), "SELECT") {
            return Err(
                ParseError::Unexpected {
                    expected: Expected::Select,
                    found: copy_token(self.current_token()),
                },
            );
        }
        self.consume_token();
        let log_file_node = match self.parse_log_file() {
            Ok(n) => n,
            Err(e) => {
                return Err(e);
            },
        };
        let condition = if is_keyword(self.current_token(), "WHERE") {
            match self.parse_condition() {
                Ok(n) => Some(Box::new(n)),
                Err(e) => {
                    return Err(e);
                },
            }
        } else {
            None
        };
        let limit = if is_keyword(self.current_token(), "LIMIT") {
            match self.parse_limit() {
                Ok(n) => Some(Box::new(n)),
                Err(e) => {
                    return Err(e);
                },
            }
        } else {
            None
        };
        match self.expect_eof() {
            Ok(()) => {},
            Err(e) => {
                return Err(e);
            },
        }
        let result = if condition.is_some() || limit.is_some() {
            Some(Box::new(ASTNode::new(GrammarItem::LogResult, condition, limit)))
        } else {
            None
        };
        Ok(ASTNode::new(GrammarItem::Query, Some(Box::new(log_file_node)), result))
    }
}

/// Parses a sequence of tokens, as `tokenize` gives them, into a syntax tree.
pub fn parse_token_stream(tokens: Vec<LexItem>) -> (r: Result<ASTNode, ParseError>)
    ensures
        parsed_as(r, parse_tokens(tokens@.map_values(|t: LexItem| t@))),
{
    let mut parser = Parser { query: String::new(), token_index: 0, token_stream: tokens };
    parser.parse_tokens_read()
}

/// The fields `done` followed by those of the list `rest`.
pub open spec fn prepend_fields(
    done: Seq<Seq<char>>,
    rest: Result<(Seq<Seq<char>>, int), ParseErrorView>,
) -> Result<(Seq<Seq<char>>, int), ParseErrorView> {
    match rest {
        Ok((fields, j)) => Ok((done + fields, j)),
        Err(e) => Err(e),
    }
}

proof fn lemma_strings_push(v: Seq<String>, x: String)
    ensures
        strings_view(v.push(x)) == strings_view(v).push(x@),
{
    assert(strings_view(v.push(x)) =~= strings_view(v).push(x@));
}

proof fn lemma_prepend_field(
    done: Seq<Seq<char>>,
    name: Seq<char>,
    rest: Result<(Seq<Seq<char>>, int), ParseErrorView>,
)
    ensures
        prepend_fields(
            done,
            match rest {
                Ok((fields, j)) => Ok((seq![name] + fields, j)),
                Err(e) => Err(e),
            },
        ) == prepend_fields(done.push(name), rest),
{
    if let Ok((fields, j)) = rest {
        assert(done + (seq![name] + fields) =~= done.push(name) + fields);
    }
}

/// A field list that parses holds at least one field and ends at a `FROM`.
pub proof fn lemma_field_list_ends_at_from(t: Seq<TokenView>, i: int)
    ensures
        field_list(t, i) matches Ok((fields, j)) ==> fields.len() >= 1 && is_word(
            at(t, j),
            kw_from(),
        ),
    decreases t.len() - i,
{
    if at(t, i) is Some && at(t, i + 1) == Some(TokenView::Comma) {
        lemma_field_list_ends_at_from(t, i + 2);
    }
}

} // verus!
