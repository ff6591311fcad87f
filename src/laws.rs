//! Properties of the query grammar, proved over token sequences.
use vstd::prelude::*;
use crate::grammar::{
    at, field_list, is_word, kw_from, kw_last, kw_like, kw_limit, kw_select, kw_where,
    limit_clause, log_file_clause, parse_query, parse_tokens, unexpected, where_clause,
    ConditionModel, Expected, LimitModel, ParseError, ParseErrorView, QueryModel,
};
use crate::lexer::TokenView;
use crate::parser::{
    parsed_as, strings_view, ASTNode, GrammarItem, LimitDirection, WhereComparator,
};

verus! {

/// A field list the grammar accepts: at least one name, none of them `FROM`.
pub open spec fn valid_fields(fields: Seq<Seq<char>>) -> bool {
    &&& fields.len() >= 1
    &&& forall|k: int| 0 <= k < fields.len() ==> fields[k] != kw_from()
}

/// The names of `fields` separated by commas.
pub open spec fn field_tokens(fields: Seq<Seq<char>>) -> Seq<TokenView>
    decreases fields.len(),
{
    if fields.len() == 0 {
        seq![]
    } else if fields.len() == 1 {
        seq![TokenView::Identifier(fields[0])]
    } else {
        seq![TokenView::Identifier(fields[0]), TokenView::Comma] + field_tokens(fields.drop_first())
    }
}

/// `SELECT <fields> FROM '<filename>'`.
pub open spec fn from_tokens(fields: Seq<Seq<char>>, filename: Seq<char>) -> Seq<TokenView> {
    seq![TokenView::Identifier(kw_select())] + field_tokens(fields) + seq![
        TokenView::Identifier(kw_from()),
        TokenView::Str(filename),
    ]
}

pub open spec fn comparator_token(c: WhereComparator) -> TokenView {
    match c {
        WhereComparator::StrictEquals => TokenView::Equals,
        WhereComparator::Like => TokenView::Identifier(kw_like()),
    }
}

/// `WHERE <field> (= | LIKE) '<value>'`, or nothing.
pub open spec fn where_tokens(c: Option<ConditionModel>) -> Seq<TokenView> {
    match c {
        None => seq![],
        Some(c) => seq![
            TokenView::Identifier(kw_where()),
            TokenView::Identifier(c.field),
            comparator_token(c.comparator),
            TokenView::Str(c.value),
        ],
    }
}

/// `LIMIT [LAST] <n>`, or nothing.
pub open spec fn limit_tokens(l: Option<LimitModel>) -> Seq<TokenView> {
    match l {
        None => seq![],
        Some(l) => match l.direction {
            LimitDirection::First => seq![
                TokenView::Identifier(kw_limit()),
                TokenView::Number(l.count),
            ],
            LimitDirection::Last => seq![
                TokenView::Identifier(kw_limit()),
                TokenView::Identifier(kw_last()),
                TokenView::Number(l.count),
            ],
        },
    }
}

/// The tokens of the query `q`, written out in the order the grammar asks for.
pub open spec fn query_tokens(q: QueryModel) -> Seq<TokenView> {
    from_tokens(q.fields, q.filename) + where_tokens(q.condition) + limit_tokens(q.limit) + seq![
        TokenView::EOF,
    ]
}

proof fn lemma_keywords_distinct()
    ensures
        kw_where() != kw_limit(),
        kw_where() != kw_from(),
        kw_select() != kw_from(),
{
    assert(kw_where()[0] != kw_limit()[0]);
    assert(kw_where()[0] != kw_from()[0]);
    assert(kw_select()[0] != kw_from()[0]);
}

proof fn lemma_field_tokens_len(fields: Seq<Seq<char>>)
    requires
        fields.len() >= 1,
    ensures
        field_tokens(fields).len() == 2 * fields.len() - 1,
    decreases fields.len(),
{
    if fields.len() > 1 {
        lemma_field_tokens_len(fields.drop_first());
    }
}

proof fn lemma_field_list_of(t: Seq<TokenView>, i: int, fields: Seq<Seq<char>>)
    requires
        valid_fields(fields),
        0 <= i,
        i + field_tokens(fields).len() < t.len(),
        t.subrange(i, i + field_tokens(fields).len()) == field_tokens(fields),
        is_word(at(t, i + field_tokens(fields).len()), kw_from()),
    ensures
        field_list(t, i) == Ok::<(Seq<Seq<char>>, int), ParseErrorView>(
            (fields, i + field_tokens(fields).len()),
        ),
    decreases fields.len(),
{
    let ft = field_tokens(fields);
    let len = ft.len() as int;
    lemma_field_tokens_len(fields);
    assert(t[i] == t.subrange(i, i + len)[0]);
    if fields.len() > 1 {
        let rest = fields.drop_first();
        lemma_field_tokens_len(rest);
        assert(t[i + 1] == t.subrange(i, i + len)[1]);
        assert(t.subrange(i + 2, i + len) =~= t.subrange(i, i + len).subrange(2, len));
        assert(ft.subrange(2, len) =~= field_tokens(rest));
        assert(t[i + 2] == t.subrange(i + 2, i + len)[0]);
        assert(rest[0] == fields[1]);
        assert(valid_fields(rest)) by {
            assert forall|k: int| 0 <= k < rest.len() implies rest[k] != kw_from() by {
                assert(rest[k] == fields[k + 1]);
            }
        }
        lemma_field_list_of(t, i + 2, rest);
        assert(seq![fields[0]] + rest =~= fields);
    } else {
        assert(seq![fields[0]] =~= fields);
    }
}

proof fn lemma_log_file_prefix(fields: Seq<Seq<char>>, filename: Seq<char>, rest: Seq<TokenView>)
    requires
        valid_fields(fields),
    ensures
        ({
            let p = from_tokens(fields, filename);
            let t = p + rest;
            &&& is_word(at(t, 0), kw_select())
            &&& log_file_clause(t, 1) == Ok::<(Seq<Seq<char>>, Seq<char>, int), ParseErrorView>(
                (fields, filename, p.len() as int),
            )
        }),
{
    let ft = field_tokens(fields);
    let p = from_tokens(fields, filename);
    let t = p + rest;
    let n = ft.len() as int;
    lemma_field_tokens_len(fields);
    assert(t.subrange(1, 1 + n) =~= ft);
    assert(t[1 + n] == TokenView::Identifier(kw_from()));
    lemma_field_list_of(t, 1, fields);
    assert(t[2 + n] == TokenView::Str(filename));
}

/// Field lists and optional clauses survive parsing: the tokens of a query,
/// written out in grammar order, parse back to that same query, with its
/// fields in their order and number, and with a condition or a limit exactly
/// when the tokens hold that clause.
pub proof fn lemma_query_tokens_round_trip(q: QueryModel)
    requires
        valid_fields(q.fields),
    ensures
        parse_tokens(query_tokens(q)) == Ok::<QueryModel, ParseErrorView>(q),
{
    let p = from_tokens(q.fields, q.filename);
    let w = where_tokens(q.condition);
    let l = limit_tokens(q.limit);
    let t = query_tokens(q);
    let n = p.len() as int;
    lemma_keywords_distinct();
    assert(t =~= p + (w + l + seq![TokenView::EOF]));
    lemma_log_file_prefix(q.fields, q.filename, w + l + seq![TokenView::EOF]);
    let k = n + w.len();
    assert(where_clause(t, n) == Ok::<(Option<ConditionModel>, int), ParseErrorView>(
        (q.condition, k),
    )) by {
        match q.condition {
            None => {
                assert(w.len() == 0);
                if l.len() > 0 {
                    assert(t[n] == l[0]);
                } else {
                    assert(t[n] == TokenView::EOF);
                }
            },
            Some(c) => {
                assert(t[n] == TokenView::Identifier(kw_where()));
                assert(t[n + 1] == TokenView::Identifier(c.field));
                assert(t[n + 2] == comparator_token(c.comparator));
                assert(t[n + 3] == TokenView::Str(c.value));
            },
        }
    }
    let m = k + l.len();
    assert(limit_clause(t, k) == Ok::<(Option<LimitModel>, int), ParseErrorView>((q.limit, m)))
        by {
        match q.limit {
            None => {
                assert(t[k] == TokenView::EOF);
            },
            Some(lim) => {
                assert(t[k] == TokenView::Identifier(kw_limit()));
                match lim.direction {
                    LimitDirection::First => {
                        assert(t[k + 1] == TokenView::Number(lim.count));
                    },
                    LimitDirection::Last => {
                        assert(t[k + 1] == TokenView::Identifier(kw_last()));
                        assert(t[k + 2] == TokenView::Number(lim.count));
                    },
                }
            },
        }
    }
    assert(t[m] == TokenView::EOF);
}

/// WHERE must come before LIMIT: once a LIMIT clause has been read, a `WHERE`
/// that follows it is left over, and the query is rejected there.
pub proof fn lemma_limit_before_where_fails(
    fields: Seq<Seq<char>>,
    filename: Seq<char>,
    condition: Option<ConditionModel>,
    limit: LimitModel,
    rest: Seq<TokenView>,
)
    requires
        valid_fields(fields),
        rest.len() > 0,
        rest[0] == TokenView::Identifier(kw_where()),
    ensures
        parse_tokens(
            from_tokens(fields, filename) + where_tokens(condition) + limit_tokens(Some(limit))
                + rest,
        ) == Err::<QueryModel, ParseErrorView>(
            unexpected(Expected::EndOfInput, Some(TokenView::Identifier(kw_where()))),
        ),
{
    let p = from_tokens(fields, filename);
    let w = where_tokens(condition);
    let l = limit_tokens(Some(limit));
    let t = p + w + l + rest;
    let n = p.len() as int;
    lemma_keywords_distinct();
    assert(t =~= p + (w + l + rest));
    lemma_log_file_prefix(fields, filename, w + l + rest);
    let k = n + w.len();
    assert(where_clause(t, n) == Ok::<(Option<ConditionModel>, int), ParseErrorView>(
        (condition, k),
    )) by {
        match condition {
            None => {
                assert(t[n] == TokenView::Identifier(kw_limit()));
            },
            Some(c) => {
                assert(t[n] == TokenView::Identifier(kw_where()));
                assert(t[n + 1] == TokenView::Identifier(c.field));
                assert(t[n + 2] == comparator_token(c.comparator));
                assert(t[n + 3] == TokenView::Str(c.value));
            },
        }
    }
    let m = k + l.len();
    assert(limit_clause(t, k) == Ok::<(Option<LimitModel>, int), ParseErrorView>(
        (Some(limit), m),
    )) by {
        assert(t[k] == TokenView::Identifier(kw_limit()));
        match limit.direction {
            LimitDirection::First => {
                assert(t[k + 1] == TokenView::Number(limit.count));
            },
            LimitDirection::Last => {
                assert(t[k + 1] == TokenView::Identifier(kw_last()));
                assert(t[k + 2] == TokenView::Number(limit.count));
            },
        }
    }
    assert(t[m] == rest[0]);
}

/// The comparator `LIKE` is matched exactly: any other identifier in its
/// place, such as `like` or `Like`, is rejected.
pub proof fn lemma_comparator_word_must_be_like(
    fields: Seq<Seq<char>>,
    filename: Seq<char>,
    field: Seq<char>,
    word: Seq<char>,
    rest: Seq<TokenView>,
)
    requires
        valid_fields(fields),
        word != kw_like(),
    ensures
        parse_tokens(
            from_tokens(fields, filename) + seq![
                TokenView::Identifier(kw_where()),
                TokenView::Identifier(field),
                TokenView::Identifier(word),
            ] + rest,
        ) == Err::<QueryModel, ParseErrorView>(
            unexpected(Expected::Comparator, Some(TokenView::Identifier(word))),
        ),
{
    let p = from_tokens(fields, filename);
    let c = seq![
        TokenView::Identifier(kw_where()),
        TokenView::Identifier(field),
        TokenView::Identifier(word),
    ];
    let t = p + c + rest;
    let n = p.len() as int;
    assert(t =~= p + (c + rest));
    lemma_log_file_prefix(fields, filename, c + rest);
    assert(t[n] == TokenView::Identifier(kw_where()));
    assert(t[n + 1] == TokenView::Identifier(field));
    assert(t[n + 2] == TokenView::Identifier(word));
}

/// `=` in a WHERE clause always gives a strict comparison: if the query parses,
/// its condition compares the field named there with `StrictEquals`.
pub proof fn lemma_equals_is_strict(
    fields: Seq<Seq<char>>,
    filename: Seq<char>,
    field: Seq<char>,
    rest: Seq<TokenView>,
)
    requires
        valid_fields(fields),
    ensures
        parse_tokens(
            from_tokens(fields, filename) + seq![
                TokenView::Identifier(kw_where()),
                TokenView::Identifier(field),
                TokenView::Equals,
            ] + rest,
        ) matches Ok(q) ==> q.condition matches Some(c) && c.field == field && c.comparator
            == WhereComparator::StrictEquals,
{
    let p = from_tokens(fields, filename);
    let c = seq![
        TokenView::Identifier(kw_where()),
        TokenView::Identifier(field),
        TokenView::Equals,
    ];
    let t = p + c + rest;
    let n = p.len() as int;
    assert(t =~= p + (c + rest));
    lemma_log_file_prefix(fields, filename, c + rest);
    assert(t[n] == TokenView::Identifier(kw_where()));
    assert(t[n + 1] == TokenView::Identifier(field));
    assert(t[n + 2] == TokenView::Equals);
}

/// Two grammar items that are the same once their text is seen as characters.
pub open spec fn same_item(a: GrammarItem, b: GrammarItem) -> bool {
    match (a, b) {
        (GrammarItem::Query, GrammarItem::Query) => true,
        (GrammarItem::LogResult, GrammarItem::LogResult) => true,
        (
            GrammarItem::LogFile { fields: f1, filename: n1 },
            GrammarItem::LogFile { fields: f2, filename: n2 },
        ) => strings_view(f1@) == strings_view(f2@) && n1@ == n2@,
        (
            GrammarItem::Condition { field: f1, mode: m1, value: v1 },
            GrammarItem::Condition { field: f2, mode: m2, value: v2 },
        ) => f1@ == f2@ && m1 == m2 && v1@ == v2@,
        (
            GrammarItem::Limit { number_of_rows: c1, direction: d1 },
            GrammarItem::Limit { number_of_rows: c2, direction: d2 },
        ) => c1 == c2 && d1 == d2,
        _ => false,
    }
}

/// Two trees of the same shape whose nodes hold the same items.
pub open spec fn same_tree(a: ASTNode, b: ASTNode) -> bool
    decreases a,
{
    &&& same_item(a.entry, b.entry)
    &&& match (a.left, b.left) {
        (None, None) => true,
        (Some(x), Some(y)) => same_tree(*x, *y),
        _ => false,
    }
    &&& match (a.right, b.right) {
        (None, None) => true,
        (Some(x), Some(y)) => same_tree(*x, *y),
        _ => false,
    }
}

/// Parsing is deterministic: two parses of the same query text give the same
/// error, or two trees of the same shape with the same contents.
pub proof fn lemma_parse_is_deterministic(
    s: Seq<char>,
    r1: Result<ASTNode, ParseError>,
    r2: Result<ASTNode, ParseError>,
)
    requires
        parsed_as(r1, parse_query(s)),
        parsed_as(r2, parse_query(s)),
    ensures
        match (r1, r2) {
            (Ok(a), Ok(b)) => same_tree(a, b),
            (Err(e1), Err(e2)) => e1@ == e2@,
            _ => false,
        },
{
    if let (Ok(_), Ok(_)) = (r1, r2) {
        reveal_with_fuel(same_tree, 3);
    }
}

} // verus!
