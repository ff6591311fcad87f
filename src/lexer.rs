//! Tokenizer: a query string becomes a sequence of tokens ending in `EOF`.
use vstd::prelude::*;
use vstd::string::StrSliceExecFns;

verus! {

/// One token of a query.
#[derive(Debug, PartialEq, Clone)]
pub enum LexItem {
    Identifier(String),
    Str(String),
    Equals,
    Number(usize),
    Comma,
    EOF,
}

/// A token with its text as a sequence of characters.
pub enum TokenView {
    Identifier(Seq<char>),
    Str(Seq<char>),
    Equals,
    Number(usize),
    Comma,
    EOF,
}

impl View for LexItem {
    type V = TokenView;

    open spec fn view(&self) -> TokenView {
        match self {
            LexItem::Identifier(s) => TokenView::Identifier(s@),
            LexItem::Str(s) => TokenView::Str(s@),
            LexItem::Equals => TokenView::Equals,
            LexItem::Number(n) => TokenView::Number(*n),
            LexItem::Comma => TokenView::Comma,
            LexItem::EOF => TokenView::EOF,
        }
    }
}

/// Why a query could not be tokenized.
#[derive(Debug, Clone, Copy, PartialEq, Eq, Structural)]
pub enum LexError {
    /// A character that starts no token.
    UnexpectedChar(char),
    /// A run of digits whose value does not fit in a `usize`.
    NumberOutOfRange,
}

/// Whether `c` has the Unicode Alphabetic property.
pub uninterp spec fn alphabetic(c: char) -> bool;

/// Relies on `char::is_alphabetic`: whether `c` is alphabetic, which depends on `c` alone.
#[verifier::external_body]
fn is_alphabetic(c: char) -> (r: bool)
    ensures
        r == alphabetic(c),
{
    c.is_alphabetic()
}

pub open spec fn is_digit(c: char) -> bool {
    '0' as u32 <= c as u32 <= '9' as u32
}

pub open spec fn digit_value(c: char) -> int {
    c as u32 - '0' as u32
}

/// The value of a sequence of decimal digits, most significant first.
pub open spec fn digits_value(d: Seq<char>) -> int
    decreases d.len(),
{
    if d.len() == 0 {
        0
    } else {
        digits_value(d.drop_last()) * 10 + digit_value(d.last())
    }
}

/// The end of the run of digits that starts at `i`.
pub open spec fn digit_run_end(s: Seq<char>, i: int) -> int
    decreases s.len() - i,
{
    if 0 <= i < s.len() && is_digit(s[i]) {
        digit_run_end(s, i + 1)
    } else {
        i
    }
}

/// The end of the run of alphabetic characters that starts at `i`.
pub open spec fn alpha_run_end(s: Seq<char>, i: int) -> int
    decreases s.len() - i,
{
    if 0 <= i < s.len() && alphabetic(s[i]) {
        alpha_run_end(s, i + 1)
    } else {
        i
    }
}

/// The index of the first `'` at or after `i`, or the end of `s`.
pub open spec fn quote_or_end(s: Seq<char>, i: int) -> int
    decreases s.len() - i,
{
    if i >= s.len() {
        s.len() as int
    } else if 0 <= i && s[i] == '\'' {
        i
    } else {
        quote_or_end(s, i + 1)
    }
}

/// `t` put in front of the tokens of `rest`, if there are any.
pub open spec fn cons(t: TokenView, rest: Result<Seq<TokenView>, LexError>) -> Result<
    Seq<TokenView>,
    LexError,
> {
    match rest {
        Ok(ts) => Ok(seq![t] + ts),
        Err(e) => Err(e),
    }
}

/// The tokens of the query `s`, or the first lexical error in it.
pub open spec fn lex(s: Seq<char>) -> Result<Seq<TokenView>, LexError> {
    lex_from(s, 0)
}

/// The tokens of `s` from index `i` on.
pub open spec fn lex_from(s: Seq<char>, i: int) -> Result<Seq<TokenView>, LexError>
    decreases s.len() - i, 0int,
{
    if i < 0 || i >= s.len() {
        Ok(seq![TokenView::EOF])
    } else {
        let c = s[i];
        if is_digit(c) {
            lex_number(s, i + 1, digit_value(c))
        } else if c == '\'' {
            lex_string(s, i + 1, i + 1)
        } else if c == '=' {
            cons(TokenView::Equals, lex_from(s, i + 1))
        } else if c == ',' {
            cons(TokenView::Comma, lex_from(s, i + 1))
        } else if c == ' ' {
            lex_from(s, i + 1)
        } else if alphabetic(c) {
            lex_identifier(s, i, i + 1)
        } else {
            Err(LexError::UnexpectedChar(c))
        }
    }
}

/// Inside a number whose digits before `i` have the value `acc`.
pub open spec fn lex_number(s: Seq<char>, i: int, acc: int) -> Result<Seq<TokenView>, LexError>
    decreases s.len() - i, 1int,
{
    if 0 <= i < s.len() && is_digit(s[i]) {
        lex_number(s, i + 1, acc * 10 + digit_value(s[i]))
    } else if acc > usize::MAX {
        Err(LexError::NumberOutOfRange)
    } else {
        cons(TokenView::Number(acc as usize), lex_from(s, i))
    }
}

/// Inside a string literal whose text starts at `start`; `i` is the next character.
/// A literal with no closing quote runs to the end of the input.
pub open spec fn lex_string(s: Seq<char>, start: int, i: int) -> Result<Seq<TokenView>, LexError>
    decreases s.len() - i, 1int,
{
    if i >= s.len() {
        cons(TokenView::Str(s.subrange(start, s.len() as int)), lex_from(s, i))
    } else if s[i] == '\'' {
        cons(TokenView::Str(s.subrange(start, i)), lex_from(s, i + 1))
    } else {
        lex_string(s, start, i + 1)
    }
}

/// Inside an identifier that starts at `start`; `i` is the next character.
pub open spec fn lex_identifier(s: Seq<char>, start: int, i: int) -> Result<
    Seq<TokenView>,
    LexError,
>
    decreases s.len() - i, 1int,
{
    if 0 <= i < s.len() && alphabetic(s[i]) {
        lex_identifier(s, start, i + 1)
    } else {
        cons(TokenView::Identifier(s.subrange(start, i)), lex_from(s, i))
    }
}

/// What `tokenize` returns, seen through the tokens' views.
pub open spec fn lexed(r: Result<Vec<LexItem>, LexError>) -> Result<Seq<TokenView>, LexError> {
    match r {
        Ok(v) => Ok(v@.map_values(|t: LexItem| t@)),
        Err(e) => Err(e),
    }
}

/// The tokens `done` followed by those of `rest`.
pub open spec fn prepend(done: Seq<TokenView>, rest: Result<Seq<TokenView>, LexError>) -> Result<
    Seq<TokenView>,
    LexError,
> {
    match rest {
        Ok(ts) => Ok(done + ts),
        Err(e) => Err(e),
    }
}

proof fn lemma_prepend_cons(done: Seq<TokenView>, t: TokenView, rest: Result<Seq<TokenView>, LexError>)
    ensures
        prepend(done, cons(t, rest)) == prepend(done.push(t), rest),
{
    if let Ok(ts) = rest {
        assert(done + (seq![t] + ts) =~= done.push(t) + ts);
    }
}

proof fn lemma_views_push(items: Seq<LexItem>, x: LexItem)
    ensures
        items.push(x).map_values(|t: LexItem| t@) == items.map_values(|t: LexItem| t@).push(x@),
{
    assert(items.push(x).map_values(|t: LexItem| t@) =~= items.map_values(|t: LexItem| t@).push(
        x@,
    ));
}

proof fn lemma_digit_run_end_bounds(s: Seq<char>, i: int)
    requires
        0 <= i <= s.len(),
    ensures
        i <= digit_run_end(s, i) <= s.len(),
    decreases s.len() - i,
{
    if i < s.len() && is_digit(s[i]) {
        lemma_digit_run_end_bounds(s, i + 1);
    }
}

proof fn lemma_alpha_run_end_bounds(s: Seq<char>, i: int)
    requires
        0 <= i <= s.len(),
    ensures
        i <= alpha_run_end(s, i) <= s.len(),
    decreases s.len() - i,
{
    if i < s.len() && alphabetic(s[i]) {
        lemma_alpha_run_end_bounds(s, i + 1);
    }
}

proof fn lemma_quote_or_end_bounds(s: Seq<char>, i: int)
    requires
        0 <= i <= s.len(),
    ensures
        i <= quote_or_end(s, i) <= s.len(),
        quote_or_end(s, i) < s.len() ==> s[quote_or_end(s, i)] == '\'',
    decreases s.len() - i,
{
    if i < s.len() && s[i] != '\'' {
        lemma_quote_or_end_bounds(s, i + 1);
    }
}

proof fn lemma_lex_identifier(s: Seq<char>, start: int, i: int)
    requires
        0 <= start < i <= s.len(),
    ensures
        lex_identifier(s, start, i) == cons(
            TokenView::Identifier(s.subrange(start, alpha_run_end(s, i))),
            lex_from(s, alpha_run_end(s, i)),
        ),
    decreases s.len() - i,
{
    if i < s.len() && alphabetic(s[i]) {
        lemma_lex_identifier(s, start, i + 1);
    }
}

proof fn lemma_lex_string(s: Seq<char>, start: int, i: int)
    requires
        0 <= start <= i <= s.len(),
    ensures
        ({
            let e = quote_or_end(s, i);
            lex_string(s, start, i) == cons(
                TokenView::Str(s.subrange(start, e)),
                lex_from(s, if e < s.len() { e + 1 } else { e }),
            )
        }),
    decreases s.len() - i,
{
    if i < s.len() && s[i] != '\'' {
        lemma_lex_string(s, start, i + 1);
    }
}

proof fn lemma_digits_value_step(s: Seq<char>, start: int, i: int)
    requires
        0 <= start <= i < s.len(),
    ensures
        digits_value(s.subrange(start, i + 1)) == digits_value(s.subrange(start, i)) * 10
            + digit_value(s[i]),
{
    assert(s.subrange(start, i + 1).drop_last() =~= s.subrange(start, i));
}

proof fn lemma_lex_number(s: Seq<char>, start: int, i: int)
    requires
        0 <= start < i <= s.len(),
    ensures
        ({
            let e = digit_run_end(s, i);
            let v = digits_value(s.subrange(start, e));
            lex_number(s, i, digits_value(s.subrange(start, i))) == if v > usize::MAX {
                Err(LexError::NumberOutOfRange)
            } else {
                cons(TokenView::Number(v as usize), lex_from(s, e))
            }
        }),
    decreases s.len() - i,
{
    if i < s.len() && is_digit(s[i]) {
        lemma_digits_value_step(s, start, i);
        lemma_lex_number(s, start, i + 1);
    }
}

/// Reads the text of a string literal that starts at `start` (just after the
/// opening quote): everything up to the next `'`, or to the end of the input.
/// Returns the text and the index where it stopped.
pub fn consume_string(input: &str, start: usize) -> (r: (String, usize))
    requires
        start <= input@.len(),
    ensures
        r.1 == quote_or_end(input@, start as int),
        r.0@ == input@.subrange(start as int, r.1 as int),
{
    let n = input.unicode_len();
    let mut k: usize = start;
    while k < n && input.get_char(k) != '\''
        invariant
            n == input@.len(),
            start <= k <= n,
            quote_or_end(input@, k as int) == quote_or_end(input@, start as int),
        decreases n - k,
    {
        k = k + 1;
    }
    (input.substring_char(start, k).to_owned(), k)
}

/// Reads the run of alphabetic characters that starts at `start`.
/// Returns its text and the index where it ends.
pub fn consume_identifier(input: &str, start: usize) -> (r: (String, usize))
    requires
        start <= input@.len(),
    ensures
        r.1 == alpha_run_end(input@, start as int),
        r.0@ == input@.subrange(start as int, r.1 as int),
{
    let n = input.unicode_len();
    let mut k: usize = start;
    while k < n && is_alphabetic(input.get_char(k))
        invariant
            n == input@.len(),
            start <= k <= n,
            alpha_run_end(input@, k as int) == alpha_run_end(input@, start as int),
        decreases n - k,
    {
        k = k + 1;
    }
    (input.substring_char(start, k).to_owned(), k)
}

/// Reads the run of decimal digits that starts at `start`.
/// Returns its value and the index where it ends, or `NumberOutOfRange` when
/// the value does not fit in a `usize`.
pub fn consume_number(input: &str, start: usize) -> (r: Result<(usize, usize), LexError>)
    requires
        start <= input@.len(),
    ensures
        ({
            let e = digit_run_end(input@, start as int);
            let v = digits_value(input@.subrange(start as int, e));
            match r {
                Ok((value, end)) => end == e && value == v,
                Err(err) => err == LexError::NumberOutOfRange && v > usize::MAX,
            }
        }),
{
    let n = input.unicode_len();
    proof {
        lemma_digit_run_end_bounds(input@, start as int);
    }
    let mut k: usize = start;
    let mut acc: usize = 0;
    let mut too_large = false;
    while k < n
        invariant
            n == input@.len(),
            start <= k <= n,
            digit_run_end(input@, k as int) == digit_run_end(input@, start as int),
            !too_large ==> acc == digits_value(input@.subrange(start as int, k as int)),
            too_large ==> digits_value(input@.subrange(start as int, k as int)) > usize::MAX,
        ensures
            digit_run_end(input@, k as int) == k,
        decreases n - k,
    {
        let c = input.get_char(k);
        if !((c as u32) >= ('0' as u32) && (c as u32) <= ('9' as u32)) {
            break;
        }
        proof {
            lemma_digits_value_step(input@, start as int, k as int);
        }
        let d = (c as u32 - '0' as u32) as usize;
        if !too_large {
            match acc.checked_mul(10) {
                Some(m) => match m.checked_add(d) {
                    Some(a) => {
                        acc = a;
                    },
                    None => {
                        too_large = true;
                    },
                },
                None => {
                    too_large = true;
                },
            }
        }
        k = k + 1;
    }
    if too_large {
        Err(LexError::NumberOutOfRange)
    } else {
        Ok((acc, k))
    }
}

/// Splits a query into tokens. Spaces separate tokens; a run of digits is a
/// number, a run of alphabetic characters an identifier, text between two `'`
/// a string literal; `=` and `,` stand alone. Any other character is an error.
/// The tokens end with one `EOF`.
pub fn tokenize(input: &String) -> (r: Result<Vec<LexItem>, LexError>)
    ensures
        lexed(r) == lex(input@),
{
    let s = input.as_str();
    let n = s.unicode_len();
    let mut result: Vec<LexItem> = Vec::new();
    let mut i: usize = 0;
    while i < n
        invariant
            s@ == input@,
            n == s@.len(),
            i <= n,
            lex(s@) == prepend(result@.map_values(|t: LexItem| t@), lex_from(s@, i as int)),
        decreases n - i,
    {
        let ghost items = result@;
        let ghost done = items.map_values(|t: LexItem| t@);
        let ch = s.get_char(i);
        if (ch as u32) >= ('0' as u32) && (ch as u32) <= ('9' as u32) {
            proof {
                lemma_lex_number(s@, i as int, i as int + 1);
                lemma_digits_value_step(s@, i as int, i as int);
                lemma_digit_run_end_bounds(s@, i as int + 1);
            }
            match consume_number(s, i) {
                Ok((value, end)) => {
                    proof {
                        lemma_prepend_cons(done, TokenView::Number(value), lex_from(s@, end as int));
                    }
                    result.push(LexItem::Number(value));
            proof {
                lemma_views_push(items, result@.last());
            }
                    i = end;
                },
                Err(e) => {
                    return Err(e);
                },
            }
        } else if ch == '\'' {
            let (text, end) = consume_string(s, i + 1);
            proof {
                lemma_lex_string(s@, i as int + 1, i as int + 1);
                lemma_quote_or_end_bounds(s@, i as int + 1);
            }
            let next = if end < n {
                end + 1
            } else {
                end
            };
            proof {
                lemma_prepend_cons(done, TokenView::Str(text@), lex_from(s@, next as int));
            }
            result.push(LexItem::Str(text));
            proof {
                lemma_views_push(items, result@.last());
            }
            i = next;
        } else if ch == '=' {
            proof {
                lemma_prepend_cons(done, TokenView::Equals, lex_from(s@, i + 1));
            }
            result.push(LexItem::Equals);
            proof {
                lemma_views_push(items, result@.last());
            }
            i = i + 1;
        } else if ch == ',' {
            proof {
                lemma_prepend_cons(done, TokenView::Comma, lex_from(s@, i + 1));
            }
            result.push(LexItem::Comma);
            proof {
                lemma_views_push(items, result@.last());
            }
            i = i + 1;
        } else if ch == ' ' {
            i = i + 1;
        } else if is_alphabetic(ch) {
            let (text, end) = consume_identifier(s, i);
            proof {
                lemma_lex_identifier(s@, i as int, i as int + 1);
                lemma_alpha_run_end_bounds(s@, i as int + 1);
                lemma_prepend_cons(done, TokenView::Identifier(text@), lex_from(s@, end as int));
            }
            result.push(LexItem::Identifier(text));
            proof {
                lemma_views_push(items, result@.last());
            }
            i = end;
        } else {
            return Err(LexError::UnexpectedChar(ch));
        }
    }
    let ghost done = result@.map_values(|t: LexItem| t@);
    result.push(LexItem::EOF);
    assert(result@.map_values(|t: LexItem| t@) =~= done + seq![TokenView::EOF]);
    Ok(result)
}

} // verus!
