//! The concrete syntax of queries.
//!
//! An expression is a symbol, a variable, a quoted string or a parenthesised
//! list of expressions, separated by whitespace. A word is a maximal run of
//! characters other than whitespace, parentheses and double quotes; a word of
//! two or more characters that starts with `?` is a variable (its name keeps
//! the `?`), any other word is a symbol. A double-quoted string is a symbol
//! whose name is the text between the quotes.

use vstd::prelude::*;

use crate::ast::{Expr, ExprV};

verus! {

pub open spec fn is_space(c: char) -> bool {
    c == ' ' || c == '\t' || c == '\n' || c == '\r'
}

pub open spec fn is_word_char(c: char) -> bool {
    !is_space(c) && c != '(' && c != ')' && c != '"'
}

/// The number of whitespace characters at `pos` and after.
pub open spec fn space_len(s: Seq<char>, pos: int) -> nat
    decreases s.len() - pos,
{
    if 0 <= pos < s.len() && is_space(s[pos]) {
        1 + space_len(s, pos + 1)
    } else {
        0
    }
}

/// The number of word characters at `pos` and after.
pub open spec fn word_len(s: Seq<char>, pos: int) -> nat
    decreases s.len() - pos,
{
    if 0 <= pos < s.len() && is_word_char(s[pos]) {
        1 + word_len(s, pos + 1)
    } else {
        0
    }
}

/// The number of characters at `pos` and after before the next double quote.
pub open spec fn quoted_len(s: Seq<char>, pos: int) -> nat
    decreases s.len() - pos,
{
    if 0 <= pos < s.len() && s[pos] != '"' {
        1 + quoted_len(s, pos + 1)
    } else {
        0
    }
}

/// The expression for the word `w`.
pub open spec fn word_expr(w: Seq<char>) -> ExprV {
    if w.len() >= 2 && w[0] == '?' {
        ExprV::Variable(w)
    } else {
        ExprV::Symbol(w)
    }
}

/// The expression that starts exactly at `pos`, and the position after it.
pub open spec fn parse_expr_at(s: Seq<char>, pos: int) -> Option<(ExprV, int)>
    decreases s.len() - pos, 0int,
{
    if !(0 <= pos < s.len()) {
        None
    } else if s[pos] == '(' {
        match parse_items_at(s, pos + 1) {
            Some((items, q)) => Some((ExprV::List(items), q)),
            None => None,
        }
    } else if s[pos] == ')' {
        None
    } else if s[pos] == '"' {
        let n = quoted_len(s, pos + 1);
        if pos + 1 + n < s.len() {
            Some((ExprV::Symbol(s.subrange(pos + 1, pos + 1 + n)), pos + 2 + n))
        } else {
            None
        }
    } else {
        let n = word_len(s, pos);
        Some((word_expr(s.subrange(pos, pos + n)), pos + n))
    }
}

/// The items of a list from `pos` up to and including its closing parenthesis,
/// and the position after that parenthesis.
pub open spec fn parse_items_at(s: Seq<char>, pos: int) -> Option<(Seq<ExprV>, int)>
    decreases s.len() - pos, 1int,
{
    if !(0 <= pos <= s.len()) {
        None
    } else {
        let p = pos + space_len(s, pos);
        if p >= s.len() {
            None
        } else if s[p] == ')' {
            Some((Seq::empty(), p + 1))
        } else {
            match parse_expr_at(s, p) {
                None => None,
                Some((e, q)) => if p < q <= s.len() {
                    match parse_items_at(s, q) {
                        Some((es, r)) => Some((seq![e] + es, r)),
                        None => None,
                    }
                } else {
                    None
                },
            }
        }
    }
}

/// The expression that `s` spells, surrounded by any amount of whitespace.
pub open spec fn parse_text(s: Seq<char>) -> Option<ExprV> {
    match parse_expr_at(s, space_len(s, 0) as int) {
        Some((e, q)) => if 0 <= q <= s.len() && q + space_len(s, q) == s.len() {
            Some(e)
        } else {
            None
        },
        None => None,
    }
}

/// The text is not an expression of the grammar.
#[derive(Debug, Clone, Copy, PartialEq, Eq)]
pub struct SyntaxError;

/// Parses the text of one expression.
#[derive(Debug, Clone, Copy)]
pub struct ExprParser;

impl ExprParser {
    pub fn new() -> (r: ExprParser) {
        ExprParser
    }

    /// The expression the whole of `text` spells, or an error if it spells none.
    pub fn parse(&self, text: &str) -> (r: Result<Expr, SyntaxError>)
        ensures
            match r {
                Ok(e) => parse_text(text@) == Some(e@),
                Err(_) => parse_text(text@) is None,
            },
    {
        let chars = chars_of(text);
        let start = skip_space(&chars, 0);
        match parse_expr_exec(text, &chars, start) {
            Some((e, q)) => {
                if skip_space(&chars, q) == chars.len() {
                    Ok(e)
                } else {
                    Err(SyntaxError)
                }
            },
            None => Err(SyntaxError),
        }
    }
}

/// The characters of `text`.
pub(crate) fn chars_of(text: &str) -> (r: Vec<char>)
    ensures
        r@ == text@,
{
    let n = text.unicode_len();
    let mut out: Vec<char> = Vec::new();
    let mut i: usize = 0;
    while i < n
        invariant
            n == text@.len(),
            i <= n,
            out@ =~= text@.take(i as int),
        decreases n - i,
    {
        out.push(text.get_char(i));
        i = i + 1;
    }
    proof {
        assert(text@.take(n as int) =~= text@);
    }
    out
}

/// The position of the first non-whitespace character at `pos` or after.
fn skip_space(chars: &Vec<char>, pos: usize) -> (r: usize)
    requires
        pos <= chars@.len(),
    ensures
        r == pos + space_len(chars@, pos as int),
        r <= chars@.len(),
{
    let mut p = pos;
    while p < chars.len() && (chars[p] == ' ' || chars[p] == '\t' || chars[p] == '\n' || chars[p]
        == '\r')
        invariant
            pos <= p <= chars@.len(),
            pos + space_len(chars@, pos as int) == p + space_len(chars@, p as int),
        decreases chars@.len() - p,
    {
        p = p + 1;
    }
    p
}

/// The position after the word that starts at `pos`.
fn skip_word(chars: &Vec<char>, pos: usize) -> (r: usize)
    requires
        pos <= chars@.len(),
    ensures
        r == pos + word_len(chars@, pos as int),
        r <= chars@.len(),
{
    let mut p = pos;
    while p < chars.len() && !(chars[p] == ' ' || chars[p] == '\t' || chars[p] == '\n' || chars[p]
        == '\r' || chars[p] == '(' || chars[p] == ')' || chars[p] == '"')
        invariant
            pos <= p <= chars@.len(),
            pos + word_len(chars@, pos as int) == p + word_len(chars@, p as int),
        decreases chars@.len() - p,
    {
        p = p + 1;
    }
    p
}

/// The position of the next double quote at `pos` or after, or the end.
fn skip_quoted(chars: &Vec<char>, pos: usize) -> (r: usize)
    requires
        pos <= chars@.len(),
    ensures
        r == pos + quoted_len(chars@, pos as int),
        r <= chars@.len(),
{
    let mut p = pos;
    while p < chars.len() && chars[p] != '"'
        invariant
            pos <= p <= chars@.len(),
            pos + quoted_len(chars@, pos as int) == p + quoted_len(chars@, p as int),
        decreases chars@.len() - p,
    {
        p = p + 1;
    }
    p
}

/// The text of `text` between the character positions `from` and `to`.
fn slice_string(text: &str, from: usize, to: usize) -> (r: String)
    requires
        from <= to <= text@.len(),
    ensures
        r@ == text@.subrange(from as int, to as int),
{
    let part = text.substring_char(from, to);
    part.to_string()
}

fn parse_expr_exec(text: &str, chars: &Vec<char>, pos: usize) -> (r: Option<(Expr, usize)>)
    requires
        chars@ == text@,
        pos <= chars@.len(),
    ensures
        match r {
            Some((e, q)) => parse_expr_at(chars@, pos as int) == Some((e@, q as int)) && q
                <= chars@.len(),
            None => parse_expr_at(chars@, pos as int) is None,
        },
    decreases chars@.len() - pos, 0int,
{
    if pos >= chars.len() {
        return None;
    }
    let c = chars[pos];
    if c == '(' {
        match parse_items_exec(text, chars, pos + 1) {
            Some((items, q)) => {
                let e = Expr::List(items);
                proof {
                    crate::ast::lemma_list_view(items);
                }
                Some((e, q))
            },
            None => None,
        }
    } else if c == ')' {
        None
    } else if c == '"' {
        let end = skip_quoted(chars, pos + 1);
        if end < chars.len() {
            Some((Expr::Symbol(slice_string(text, pos + 1, end)), end + 1))
        } else {
            None
        }
    } else {
        let end = skip_word(chars, pos);
        let w = slice_string(text, pos, end);
        if end - pos >= 2 && c == '?' {
            Some((Expr::Variable(w), end))
        } else {
            Some((Expr::Symbol(w), end))
        }
    }
}

fn parse_items_exec(text: &str, chars: &Vec<char>, pos: usize) -> (r: Option<(Vec<Expr>, usize)>)
    requires
        chars@ == text@,
        pos <= chars@.len(),
    ensures
        match r {
            Some((es, q)) => parse_items_at(chars@, pos as int) == Some((
                es@.map_values(|e: Expr| e@),
                q as int,
            )) && q <= chars@.len(),
            None => parse_items_at(chars@, pos as int) is None,
        },
    decreases chars@.len() - pos, 1int,
{
    let p = skip_space(chars, pos);
    if p >= chars.len() {
        return None;
    }
    if chars[p] == ')' {
        let es: Vec<Expr> = Vec::new();
        proof {
            assert(es@.map_values(|e: Expr| e@) =~= Seq::<ExprV>::empty());
        }
        return Some((es, p + 1));
    }
    match parse_expr_exec(text, chars, p) {
        None => None,
        Some((e, q)) => {
            if p < q && q <= chars.len() {
                match parse_items_exec(text, chars, q) {
                    Some((rest, r)) => {
                        let mut es: Vec<Expr> = Vec::new();
                        let ghost ev = e@;
                        es.push(e);
                        let mut rest = rest;
                        let ghost rv = rest@.map_values(|x: Expr| x@);
                        es.append(&mut rest);
                        proof {
                            assert(es@.map_values(|x: Expr| x@) =~= seq![ev] + rv);
                        }
                        Some((es, r))
                    },
                    None => None,
                }
            } else {
                None
            }
        }
    }
}

/// `t` differs from `s` at most by one whitespace character standing for another.
spec fn same_shape(s: Seq<char>, t: Seq<char>) -> bool {
    &&& s.len() == t.len()
    &&& forall|p: int|
        0 <= p < s.len() ==> (is_space(#[trigger] s[p]) == is_space(t[p])) && (!is_space(s[p]) ==> s[p]
            == t[p])
}

proof fn lemma_space_len_eq(s: Seq<char>, t: Seq<char>, p: int)
    requires
        same_shape(s, t),
    ensures
        space_len(s, p) == space_len(t, p),
    decreases s.len() - p,
{
    if 0 <= p < s.len() && is_space(s[p]) {
        lemma_space_len_eq(s, t, p + 1);
    }
}

proof fn lemma_word_len_eq(s: Seq<char>, t: Seq<char>, p: int)
    requires
        same_shape(s, t),
        0 <= p,
    ensures
        word_len(s, p) == word_len(t, p),
        p + word_len(s, p) <= s.len() || word_len(s, p) == 0,
        forall|k: int| p <= k < p + word_len(s, p) ==> s[k] == t[k],
    decreases s.len() - p,
{
    if 0 <= p < s.len() && is_word_char(s[p]) {
        lemma_word_len_eq(s, t, p + 1);
        assert(s[p] == t[p]);
    }
}

proof fn lemma_parse_expr_eq(s: Seq<char>, t: Seq<char>, pos: int)
    requires
        same_shape(s, t),
        forall|p: int| 0 <= p < s.len() ==> #[trigger] s[p] != '"',
    ensures
        parse_expr_at(s, pos) == parse_expr_at(t, pos),
    decreases s.len() - pos, 0int,
{
    if 0 <= pos < s.len() {
        assert(is_space(s[pos]) == is_space(t[pos]));
        assert(s[pos] != '"');
        if s[pos] == '(' {
            lemma_parse_items_eq(s, t, pos + 1);
        } else if s[pos] != ')' {
            lemma_word_len_eq(s, t, pos);
            let n = word_len(s, pos);
            assert(s.subrange(pos, pos + n) =~= t.subrange(pos, pos + n));
        }
    }
}

proof fn lemma_parse_items_eq(s: Seq<char>, t: Seq<char>, pos: int)
    requires
        same_shape(s, t),
        forall|p: int| 0 <= p < s.len() ==> #[trigger] s[p] != '"',
    ensures
        parse_items_at(s, pos) == parse_items_at(t, pos),
    decreases s.len() - pos, 1int,
{
    if 0 <= pos <= s.len() {
        lemma_space_len_eq(s, t, pos);
        let p = pos + space_len(s, pos);
        if p < s.len() {
            assert(is_space(s[p]) == is_space(t[p]));
            if s[p] != ')' {
                lemma_parse_expr_eq(s, t, p);
                match parse_expr_at(s, p) {
                    Some((e, q)) => {
                        if p < q <= s.len() {
                            lemma_parse_items_eq(s, t, q);
                        }
                    },
                    None => {},
                }
            }
        }
    }
}

/// Whitespace is any of space, tab, newline and carriage return, and they are
/// interchangeable: in a text without quoted strings, putting any one of them in
/// place of another, anywhere, leaves what the text parses to unchanged.
pub proof fn law_whitespace_interchangeable(s: Seq<char>, i: int, c: char)
    requires
        0 <= i < s.len(),
        s[i] == ' ' || s[i] == '\t' || s[i] == '\n' || s[i] == '\r',
        c == ' ' || c == '\t' || c == '\n' || c == '\r',
        forall|p: int| 0 <= p < s.len() ==> #[trigger] s[p] != '"',
    ensures
        parse_text(s.update(i, c)) == parse_text(s),
{
    let t = s.update(i, c);
    assert(same_shape(s, t)) by {
        assert forall|p: int| 0 <= p < s.len() implies (is_space(#[trigger] s[p]) == is_space(t[p])) && (
        !is_space(s[p]) ==> s[p] == t[p]) by {
            if p != i {
                assert(t[p] == s[p]);
            }
        }
    }
    lemma_space_len_eq(s, t, 0);
    let start = space_len(s, 0) as int;
    lemma_parse_expr_eq(s, t, start);
    match parse_expr_at(s, start) {
        Some((e, q)) => {
            lemma_space_len_eq(s, t, q);
        },
        None => {},
    }
}

} // verus!
