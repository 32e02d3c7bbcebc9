//! The query parser.
//!
//! Grammar (no nesting of boolean queries; `ALNUM` is the ASCII
//! alphanumeric class, `WS` a space or tab):
//!
//! ```text
//! query        := term_q | phrase_q | boolean_q
//! term_q       := ALNUM+
//! phrase_q     := '"' (ALNUM+ (WS+ ALNUM+)*)? '"'
//! boolean_q    := boolean_term (WS+ boolean_term)+
//! boolean_term := occur_sign? (term_q | phrase_q)
//! occur_sign   := '+' | '-'
//! ```
//!
//! The parser succeeds only when the whole input belongs to the
//! grammar; anything else, trailing garbage included, is an
//! `InvalidQuery` error. A bare term parses as `Term`, a single quoted
//! phrase as `Phrase`, and two or more boolean terms as `Boolean`; a
//! token without a sign is tagged `Should`, `+` maps to `Must` and `-`
//! to `MustNot`.

use vstd::prelude::*;

use crate::query::BooleanQuery;
use crate::query::Occur;
use crate::query::PhraseQuery;
use crate::query::Query;
use crate::query::QueryView;
use crate::query::SubQuery;
use crate::query::SubQueryView;
use crate::query::TermQuery;

verus! {

/// The ASCII alphanumeric class.
pub open spec fn is_alnum(c: char) -> bool {
    ('0' <= c && c <= '9') || ('a' <= c && c <= 'z') || ('A' <= c && c <= 'Z')
}

/// The separator class inside queries: space or tab.
pub open spec fn is_qspace(c: char) -> bool {
    c == ' ' || c == '\t'
}

/// End of the alphanumeric run starting at `i`.
pub open spec fn alnum_end(s: Seq<char>, i: int) -> int
    decreases s.len() - i,
{
    if i < 0 || i >= s.len() || !is_alnum(s[i]) {
        i
    } else {
        alnum_end(s, i + 1)
    }
}

/// End of the whitespace run starting at `i`.
pub open spec fn space_end(s: Seq<char>, i: int) -> int
    decreases s.len() - i,
{
    if i < 0 || i >= s.len() || !is_qspace(s[i]) {
        i
    } else {
        space_end(s, i + 1)
    }
}

proof fn lemma_alnum_end_bounds(s: Seq<char>, i: int)
    requires
        0 <= i <= s.len(),
    ensures
        i <= alnum_end(s, i) <= s.len(),
    decreases s.len() - i,
{
    if i < s.len() && is_alnum(s[i]) {
        lemma_alnum_end_bounds(s, i + 1);
    }
}

proof fn lemma_space_end_bounds(s: Seq<char>, i: int)
    requires
        0 <= i <= s.len(),
    ensures
        i <= space_end(s, i) <= s.len(),
    decreases s.len() - i,
{
    if i < s.len() && is_qspace(s[i]) {
        lemma_space_end_bounds(s, i + 1);
    }
}

/// A term at `i`: a nonempty alphanumeric run; yields the position
/// after it and its content.
pub open spec fn sp_term(s: Seq<char>, i: int) -> Option<(int, Seq<char>)> {
    let e = alnum_end(s, i);
    if 0 <= i && e > i {
        Some((e, s.subrange(i, e)))
    } else {
        None
    }
}

/// The word list of a phrase body at `i`: one or more terms separated
/// by runs of whitespace, read greedily while a term follows.
pub open spec fn sp_words(s: Seq<char>, i: int) -> Option<(int, Seq<Seq<char>>)>
    decreases s.len() - i,
    via sp_words_decreases
{
    if i < 0 || i > s.len() {
        None
    } else {
        match sp_term(s, i) {
            None => None,
            Some((e, w)) => {
                let ws = space_end(s, e);
                if ws > e && ws < s.len() && is_alnum(s[ws]) {
                    match sp_words(s, ws) {
                        None => None,
                        Some((e2, rest)) => Some((e2, seq![w] + rest)),
                    }
                } else {
                    Some((e, seq![w]))
                }
            },
        }
    }
}

#[via_fn]
proof fn sp_words_decreases(s: Seq<char>, i: int) {
    if 0 <= i <= s.len() {
        lemma_alnum_end_bounds(s, i);
        if sp_term(s, i) is Some {
            lemma_space_end_bounds(s, alnum_end(s, i));
        }
    }
}

/// A phrase at `i`: a quote, an optional word list, and a quote.
pub open spec fn sp_phrase(s: Seq<char>, i: int) -> Option<(int, Seq<Seq<char>>)> {
    if 0 <= i && i < s.len() && s[i] == '"' {
        if i + 1 < s.len() && s[i + 1] == '"' {
            Some((i + 2, Seq::empty()))
        } else {
            match sp_words(s, i + 1) {
                None => None,
                Some((e, ws)) => if e < s.len() && s[e] == '"' {
                    Some((e + 1, ws))
                } else {
                    None
                },
            }
        }
    } else {
        None
    }
}

/// A boolean term at `i`: an optional occurrence sign, then a term or
/// a phrase.
pub open spec fn sp_bterm(s: Seq<char>, i: int) -> Option<(int, (Occur, SubQueryView))> {
    if i < 0 || i > s.len() {
        None
    } else {
        let occ = if i < s.len() && s[i] == '+' {
            Occur::Must
        } else if i < s.len() && s[i] == '-' {
            Occur::MustNot
        } else {
            Occur::Should
        };
        let j = if occ == Occur::Should {
            i
        } else {
            i + 1
        };
        if j < s.len() && s[j] == '"' {
            match sp_phrase(s, j) {
                None => None,
                Some((e, ws)) => Some((e, (occ, SubQueryView::Phrase(ws)))),
            }
        } else {
            match sp_term(s, j) {
                None => None,
                Some((e, w)) => Some((e, (occ, SubQueryView::Term(w)))),
            }
        }
    }
}

/// A subquery at `i`: a quoted phrase when a quote follows, a term
/// otherwise.
pub open spec fn sp_subquery(s: Seq<char>, i: int) -> Option<(int, SubQueryView)> {
    if i < 0 || i > s.len() {
        None
    } else if i < s.len() && s[i] == '"' {
        match sp_phrase(s, i) {
            None => None,
            Some((e, ws)) => Some((e, SubQueryView::Phrase(ws))),
        }
    } else {
        match sp_term(s, i) {
            None => None,
            Some((e, w)) => Some((e, SubQueryView::Term(w))),
        }
    }
}

/// True for a character that can begin a boolean term.
pub open spec fn starts_bterm(c: char) -> bool {
    c == '+' || c == '-' || c == '"' || is_alnum(c)
}

proof fn lemma_sp_bterm_advances(s: Seq<char>, i: int)
    requires
        0 <= i <= s.len(),
    ensures
        match sp_bterm(s, i) {
            Some((e, item)) => i < e <= s.len(),
            None => true,
        },
{
    lemma_alnum_end_bounds(s, i);
    if i < s.len() {
        lemma_alnum_end_bounds(s, i + 1);
    }
    if i < s.len() && (s[i] == '+' || s[i] == '-') {
        if i + 1 < s.len() && s[i + 1] == '"' {
            lemma_sp_phrase_advances(s, i + 1);
        }
    } else {
        if i < s.len() && s[i] == '"' {
            lemma_sp_phrase_advances(s, i);
        }
    }
}

proof fn lemma_sp_words_advances(s: Seq<char>, i: int)
    requires
        0 <= i <= s.len(),
    ensures
        match sp_words(s, i) {
            Some((e, ws)) => i < e <= s.len(),
            None => true,
        },
    decreases s.len() - i,
{
    lemma_alnum_end_bounds(s, i);
    if sp_term(s, i) is Some {
        let e = alnum_end(s, i);
        lemma_space_end_bounds(s, e);
        let ws = space_end(s, e);
        if ws > e && ws < s.len() && is_alnum(s[ws]) {
            lemma_sp_words_advances(s, ws);
        }
    }
}

proof fn lemma_sp_phrase_advances(s: Seq<char>, i: int)
    requires
        0 <= i <= s.len(),
    ensures
        match sp_phrase(s, i) {
            Some((e, ws)) => i < e <= s.len(),
            None => true,
        },
{
    if 0 <= i && i < s.len() && s[i] == '"' {
        lemma_sp_words_advances(s, i + 1);
    }
}

/// A boolean term list at `i`: one or more boolean terms separated by
/// runs of whitespace, read greedily while a boolean term follows.
pub open spec fn sp_blist(s: Seq<char>, i: int) -> Option<(int, Seq<(Occur, SubQueryView)>)>
    decreases s.len() - i,
    via sp_blist_decreases
{
    if i < 0 || i > s.len() {
        None
    } else {
        match sp_bterm(s, i) {
            None => None,
            Some((e, item)) => {
                let ws = space_end(s, e);
                if ws > e && ws < s.len() && starts_bterm(s[ws]) {
                    match sp_blist(s, ws) {
                        None => None,
                        Some((e2, rest)) => Some((e2, seq![item] + rest)),
                    }
                } else {
                    Some((e, seq![item]))
                }
            },
        }
    }
}

#[via_fn]
proof fn sp_blist_decreases(s: Seq<char>, i: int) {
    if 0 <= i <= s.len() {
        lemma_sp_bterm_advances(s, i);
        if sp_bterm(s, i) is Some {
            let e = sp_bterm(s, i)->Some_0.0;
            lemma_space_end_bounds(s, e);
        }
    }
}

/// The whole-input parse: a bare term, a single quoted phrase, or a
/// boolean query of two or more terms; everything else is invalid.
pub open spec fn parse_spec(s: Seq<char>) -> Option<QueryView> {
    if sp_term(s, 0) matches Some((e, w)) && e == s.len() {
        Some(QueryView::Term(sp_term(s, 0)->Some_0.1))
    } else if sp_phrase(s, 0) matches Some((e, ws)) && e == s.len() {
        Some(QueryView::Phrase(sp_phrase(s, 0)->Some_0.1))
    } else if sp_blist(s, 0) matches Some((e, items)) && e == s.len() && items.len() >= 2 {
        Some(QueryView::Boolean(sp_blist(s, 0)->Some_0.1))
    } else {
        None
    }
}

/// Error of the query parser: the input does not belong to the grammar
/// or has trailing garbage. The payload carries the unconsumed tail of
/// the input for diagnostics: what remains after the longest leading
/// boolean term list, or the whole input when not even one boolean term
/// starts it.
#[derive(Debug, PartialEq, Clone)]
pub enum ParseError {
    InvalidQuery(String),
}

/// Position up to which a leading boolean term list consumes the input;
/// 0 when none starts it. The suffix from here on is the unconsumed
/// tail reported on a parse error.
pub open spec fn consumed_upto(s: Seq<char>) -> int {
    match sp_blist(s, 0) {
        Some((e, items)) => e,
        None => 0,
    }
}

/// Executable test for the ASCII alphanumeric class.
pub fn is_alnum_exec(c: char) -> (r: bool)
    ensures
        r == is_alnum(c),
{
    ('0' <= c && c <= '9') || ('a' <= c && c <= 'z') || ('A' <= c && c <= 'Z')
}

/// Executable test for the query separator class.
pub fn is_qspace_exec(c: char) -> (r: bool)
    ensures
        r == is_qspace(c),
{
    c == ' ' || c == '\t'
}

fn alnum_end_exec(s: &str, i: usize) -> (e: usize)
    requires
        i <= s@.len(),
    ensures
        e == alnum_end(s@, i as int),
        i <= e <= s@.len(),
{
    let n: usize = s.unicode_len();
    let mut e: usize = i;
    while e < n && is_alnum_exec(s.get_char(e))
        invariant
            i <= e <= n,
            n == s@.len(),
            alnum_end(s@, i as int) == alnum_end(s@, e as int),
        decreases n - e,
    {
        e = e + 1;
    }
    e
}

fn space_end_exec(s: &str, i: usize) -> (e: usize)
    requires
        i <= s@.len(),
    ensures
        e == space_end(s@, i as int),
        i <= e <= s@.len(),
{
    let n: usize = s.unicode_len();
    let mut e: usize = i;
    while e < n && is_qspace_exec(s.get_char(e))
        invariant
            i <= e <= n,
            n == s@.len(),
            space_end(s@, i as int) == space_end(s@, e as int),
        decreases n - e,
    {
        e = e + 1;
    }
    e
}

fn parse_term_at(s: &str, i: usize) -> (r: Option<(usize, TermQuery)>)
    requires
        i <= s@.len(),
    ensures
        match r {
            Some((e, tq)) => sp_term(s@, i as int) == Some((e as int, tq@)) && i < e <= s@.len(),
            None => sp_term(s@, i as int) is None,
        },
{
    let e = alnum_end_exec(s, i);
    if e > i {
        let w: String = s.substring_char(i, e).to_owned();
        Some((e, TermQuery::new(w)))
    } else {
        None
    }
}

fn parse_words_at(s: &str, i: usize) -> (r: Option<(usize, Vec<String>)>)
    requires
        i <= s@.len(),
    ensures
        match r {
            Some((e, v)) => {
                &&& i < e <= s@.len()
                &&& sp_words(s@, i as int) matches Some((e2, ws)) && e2 == e as int && ws
                    == v@.map_values(|t: String| t@)
            },
            None => sp_words(s@, i as int) is None,
        },
    decreases s@.len() - i,
{
    let n: usize = s.unicode_len();
    let e = alnum_end_exec(s, i);
    if e <= i {
        return None;
    }
    let w: String = s.substring_char(i, e).to_owned();
    let ws = space_end_exec(s, e);
    if ws > e && ws < n && is_alnum_exec(s.get_char(ws)) {
        match parse_words_at(s, ws) {
            None => None,
            Some((e2, rest)) => {
                let mut v = rest;
                v.insert(0, w);
                proof {
                    let m = |t: String| t@;
                    assert(v@ =~= seq![w] + rest@);
                    assert(v@.map_values(m) =~= seq![w@] + rest@.map_values(m));
                }
                Some((e2, v))
            },
        }
    } else {
        let mut v: Vec<String> = Vec::new();
        v.push(w);
        proof {
            let m = |t: String| t@;
            assert(v@.map_values(m) =~= seq![w@]);
        }
        Some((e, v))
    }
}

fn parse_phrase_at(s: &str, i: usize) -> (r: Option<(usize, PhraseQuery)>)
    requires
        i <= s@.len(),
    ensures
        match r {
            Some((e, pq)) => {
                &&& i < e <= s@.len()
                &&& sp_phrase(s@, i as int) matches Some((e2, ws)) && e2 == e as int && ws == pq@
            },
            None => sp_phrase(s@, i as int) is None,
        },
{
    let n: usize = s.unicode_len();
    if i < n && s.get_char(i) == '"' {
        if i + 1 < n && s.get_char(i + 1) == '"' {
            let pq = PhraseQuery::new(Vec::new());
            proof {
                let m = |t: String| t@;
                assert(Seq::<String>::empty().map_values(m) =~= Seq::<Seq<char>>::empty());
            }
            Some((i + 2, pq))
        } else {
            match parse_words_at(s, i + 1) {
                None => None,
                Some((e, v)) => {
                    if e < n && s.get_char(e) == '"' {
                        Some((e + 1, PhraseQuery::new(v)))
                    } else {
                        None
                    }
                },
            }
        }
    } else {
        None
    }
}

fn parse_bterm_at(s: &str, i: usize) -> (r: Option<(usize, (Occur, SubQuery))>)
    requires
        i <= s@.len(),
    ensures
        match r {
            Some((e, item)) => {
                &&& i < e <= s@.len()
                &&& sp_bterm(s@, i as int) matches Some((e2, it2)) && e2 == e as int && it2 == (
                item.0,
                item.1@,
                )
            },
            None => sp_bterm(s@, i as int) is None,
        },
{
    let n: usize = s.unicode_len();
    let (occ, j): (Occur, usize) = if i < n && s.get_char(i) == '+' {
        (Occur::Must, i + 1)
    } else if i < n && s.get_char(i) == '-' {
        (Occur::MustNot, i + 1)
    } else {
        (Occur::Should, i)
    };
    if j < n && s.get_char(j) == '"' {
        match parse_phrase_at(s, j) {
            None => None,
            Some((e, pq)) => Some((e, (occ, SubQuery::Phrase(pq)))),
        }
    } else {
        match parse_term_at(s, j) {
            None => None,
            Some((e, tq)) => Some((e, (occ, SubQuery::Term(tq)))),
        }
    }
}

fn parse_blist_at(s: &str, i: usize) -> (r: Option<(usize, Vec<(Occur, SubQuery)>)>)
    requires
        i <= s@.len(),
    ensures
        match r {
            Some((e, v)) => {
                &&& i < e <= s@.len()
                &&& sp_blist(s@, i as int) matches Some((e2, items)) && e2 == e as int && items
                    == v@.map_values(|q: (Occur, SubQuery)| (q.0, q.1@))
            },
            None => sp_blist(s@, i as int) is None,
        },
    decreases s@.len() - i,
{
    let n: usize = s.unicode_len();
    match parse_bterm_at(s, i) {
        None => None,
        Some((e, item)) => {
            let ws = space_end_exec(s, e);
            if ws > e && ws < n && starts_bterm_exec(s.get_char(ws)) {
                match parse_blist_at(s, ws) {
                    None => None,
                    Some((e2, rest)) => {
                        let mut v = rest;
                        v.insert(0, item);
                        proof {
                            let m = |q: (Occur, SubQuery)| (q.0, q.1@);
                            assert(v@ =~= seq![item] + rest@);
                            assert(v@.map_values(m) =~= seq![(item.0, item.1@)] + rest@.map_values(
                                m,
                            ));
                        }
                        Some((e2, v))
                    },
                }
            } else {
                let mut v: Vec<(Occur, SubQuery)> = Vec::new();
                v.push(item);
                proof {
                    let m = |q: (Occur, SubQuery)| (q.0, q.1@);
                    assert(v@.map_values(m) =~= seq![(item.0, item.1@)]);
                }
                Some((e, v))
            }
        },
    }
}

/// Executable test for characters that can begin a boolean term.
fn starts_bterm_exec(c: char) -> (r: bool)
    ensures
        r == starts_bterm(c),
{
    c == '+' || c == '-' || c == '"' || is_alnum_exec(c)
}

/// The query parser. All methods are position-based recursive descent
/// over the input characters; `parse` accepts exactly the grammar.
pub struct QueryParser {}

impl QueryParser {
    /// Parses a whole query string. Returns the AST exactly when the
    /// input belongs to the grammar; otherwise an `InvalidQuery` error
    /// carrying the unconsumed tail of the input.
    pub fn parse(query: &str) -> (r: Result<Query, ParseError>)
        ensures
            match r {
                Ok(q) => parse_spec(query@) == Some(q@),
                Err(e) => parse_spec(query@) is None && (e matches ParseError::InvalidQuery(tail)
                    && tail@ == query@.skip(consumed_upto(query@))),
            },
    {
        Self::query(query)
    }

    /// The grammar's top alternative: a whole-input term, a whole-input
    /// phrase, or a whole-input boolean query of two or more terms.
    pub fn query(query: &str) -> (r: Result<Query, ParseError>)
        ensures
            match r {
                Ok(q) => parse_spec(query@) == Some(q@),
                Err(e) => parse_spec(query@) is None && (e matches ParseError::InvalidQuery(tail)
                    && tail@ == query@.skip(consumed_upto(query@))),
            },
    {
        let n: usize = query.unicode_len();
        match parse_term_at(query, 0) {
            Some((e, tq)) => {
                if e == n {
                    return Ok(Query::Term(tq));
                }
            },
            None => {},
        }
        match parse_phrase_at(query, 0) {
            Some((e, pq)) => {
                if e == n {
                    return Ok(Query::Phrase(pq));
                }
            },
            None => {},
        }
        match parse_blist_at(query, 0) {
            Some((e, v)) => {
                if e == n && v.len() >= 2 {
                    return Ok(Query::Boolean(BooleanQuery::new(v)));
                }
                let tail: String = query.substring_char(e, n).to_owned();
                Err(ParseError::InvalidQuery(tail))
            },
            None => {
                let tail: String = query.substring_char(0, n).to_owned();
                proof {
                    assert(query@.subrange(0, n as int) =~= query@.skip(0));
                }
                Err(ParseError::InvalidQuery(tail))
            },
        }
    }

    /// Parses one leading term, returning the position after it.
    pub fn term_query(query: &str) -> (r: Result<(usize, TermQuery), ParseError>)
        ensures
            match r {
                Ok((e, tq)) => sp_term(query@, 0) == Some((e as int, tq@)),
                Err(e) => sp_term(query@, 0) is None && (e matches ParseError::InvalidQuery(tail)
                    && tail@ == query@),
            },
    {
        match parse_term_at(query, 0) {
            Some(p) => Ok(p),
            None => Err(ParseError::InvalidQuery(Self::whole_input(query))),
        }
    }

    /// Parses the whole input as one term.
    pub fn simple_term_query(query: &str) -> (r: Result<TermQuery, ParseError>)
        ensures
            match r {
                Ok(tq) => sp_term(query@, 0) == Some((query@.len() as int, tq@)),
                Err(e) => !(sp_term(query@, 0) matches Some((e2, w)) && e2 == query@.len()) && (
                e matches ParseError::InvalidQuery(tail) && tail@ == query@),
            },
    {
        let n: usize = query.unicode_len();
        match parse_term_at(query, 0) {
            Some((e, tq)) => {
                if e == n {
                    Ok(tq)
                } else {
                    Err(ParseError::InvalidQuery(Self::whole_input(query)))
                }
            },
            None => Err(ParseError::InvalidQuery(Self::whole_input(query))),
        }
    }

    /// Parses one leading quoted phrase, returning the position after it.
    pub fn phrase_query(query: &str) -> (r: Result<(usize, PhraseQuery), ParseError>)
        ensures
            match r {
                Ok((e, pq)) => sp_phrase(query@, 0) matches Some((e2, ws)) && e2 == e as int && ws
                    == pq@,
                Err(e) => sp_phrase(query@, 0) is None && (e matches ParseError::InvalidQuery(
                    tail,
                ) && tail@ == query@),
            },
    {
        match parse_phrase_at(query, 0) {
            Some(p) => Ok(p),
            None => Err(ParseError::InvalidQuery(Self::whole_input(query))),
        }
    }

    /// Parses the whole input as one quoted phrase.
    pub fn simple_phrase_query(query: &str) -> (r: Result<PhraseQuery, ParseError>)
        ensures
            match r {
                Ok(pq) => sp_phrase(query@, 0) matches Some((e2, ws)) && e2 == query@.len() && ws
                    == pq@,
                Err(e) => !(sp_phrase(query@, 0) matches Some((e2, ws)) && e2 == query@.len()) && (
                e matches ParseError::InvalidQuery(tail) && tail@ == query@),
            },
    {
        let n: usize = query.unicode_len();
        match parse_phrase_at(query, 0) {
            Some((e, pq)) => {
                if e == n {
                    Ok(pq)
                } else {
                    Err(ParseError::InvalidQuery(Self::whole_input(query)))
                }
            },
            None => Err(ParseError::InvalidQuery(Self::whole_input(query))),
        }
    }

    /// Parses one leading subquery — a term or a quoted phrase, without
    /// an occurrence sign — returning the position after it.
    pub fn subquery(query: &str) -> (r: Result<(usize, SubQuery), ParseError>)
        ensures
            match r {
                Ok((e, sq)) => sp_subquery(query@, 0) matches Some((e2, v)) && e2 == e as int && v
                    == sq@,
                Err(e) => sp_subquery(query@, 0) is None && (e matches ParseError::InvalidQuery(
                    tail,
                ) && tail@ == query@),
            },
    {
        let n: usize = query.unicode_len();
        if n > 0 && query.get_char(0) == '"' {
            match parse_phrase_at(query, 0) {
                Some((e, pq)) => Ok((e, SubQuery::Phrase(pq))),
                None => Err(ParseError::InvalidQuery(Self::whole_input(query))),
            }
        } else {
            match parse_term_at(query, 0) {
                Some((e, tq)) => Ok((e, SubQuery::Term(tq))),
                None => Err(ParseError::InvalidQuery(Self::whole_input(query))),
            }
        }
    }

    /// Parses one leading boolean term (optional sign, then a term or a
    /// phrase), returning the position after it.
    pub fn _boolean_term(query: &str) -> (r: Result<(usize, (Occur, SubQuery)), ParseError>)
        ensures
            match r {
                Ok((e, item)) => sp_bterm(query@, 0) == Some((e as int, (item.0, item.1@))),
                Err(e) => sp_bterm(query@, 0) is None && (e matches ParseError::InvalidQuery(tail)
                    && tail@ == query@),
            },
    {
        match parse_bterm_at(query, 0) {
            Some(p) => Ok(p),
            None => Err(ParseError::InvalidQuery(Self::whole_input(query))),
        }
    }

    /// Parses a leading boolean term list, returning the position
    /// after it.
    pub fn boolean_query(query: &str) -> (r: Result<(usize, BooleanQuery), ParseError>)
        ensures
            match r {
                Ok((e, bq)) => sp_blist(query@, 0) matches Some((e2, items)) && e2 == e as int
                    && items == bq@,
                Err(e) => sp_blist(query@, 0) is None && (e matches ParseError::InvalidQuery(tail)
                    && tail@ == query@),
            },
    {
        match parse_blist_at(query, 0) {
            Some((e, v)) => Ok((e, BooleanQuery::new(v))),
            None => Err(ParseError::InvalidQuery(Self::whole_input(query))),
        }
    }

    /// The whole input, copied for an error report.
    fn whole_input(query: &str) -> (r: String)
        ensures
            r@ == query@,
    {
        let n: usize = query.unicode_len();
        let r = query.substring_char(0, n).to_owned();
        proof {
            assert(query@.subrange(0, n as int) =~= query@);
        }
        r
    }
}

} // verus!
