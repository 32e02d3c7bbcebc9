//! The query AST: term, phrase and boolean queries with their `Should` /
//! `Must` / `MustNot` occurrence tags.
//!
//! Term and phrase evaluation beyond what `Searcher` already covers is a
//! deliberate stub in the current scope: `execute` returns the empty
//! sequence so the parser has a target, and a later extension will
//! evaluate through `Searcher` primitives.

use vstd::prelude::*;

use crate::index::Index;
use crate::searcher::SearchResult;

verus! {

/// Occurrence tag of a subquery inside a boolean query.
#[derive(Debug, PartialEq, Eq, Structural, Clone, Copy)]
pub enum Occur {
    Should,
    Must,
    MustNot,
}

/// A query for a single surface term.
#[derive(Debug, PartialEq, Clone)]
pub struct TermQuery {
    term: String,
}

impl View for TermQuery {
    type V = Seq<char>;

    closed spec fn view(&self) -> Seq<char> {
        self.term@
    }
}

impl TermQuery {
    pub fn new(term: String) -> (r: TermQuery)
        ensures
            r@ == term@,
    {
        TermQuery { term }
    }

    /// Evaluation stub: returns no results in the current scope.
    pub fn execute(&self, index: &Index) -> (r: Vec<SearchResult>)
        ensures
            r@ == Seq::<SearchResult>::empty(),
    {
        let _ = index;
        let r: Vec<SearchResult> = Vec::new();
        proof {
            assert(r@ =~= Seq::<SearchResult>::empty());
        }
        r
    }
}

/// A query for an ordered sequence of surface terms.
#[derive(Debug, PartialEq, Clone)]
pub struct PhraseQuery {
    terms: Vec<String>,
}

impl View for PhraseQuery {
    type V = Seq<Seq<char>>;

    closed spec fn view(&self) -> Seq<Seq<char>> {
        self.terms@.map_values(|t: String| t@)
    }
}

impl PhraseQuery {
    pub fn new(terms: Vec<String>) -> (r: PhraseQuery)
        ensures
            r@ == terms@.map_values(|t: String| t@),
    {
        PhraseQuery { terms }
    }

    /// Evaluation stub: returns no results in the current scope.
    pub fn execute(&self, index: &Index) -> (r: Vec<SearchResult>)
        ensures
            r@ == Seq::<SearchResult>::empty(),
    {
        let _ = index;
        let r: Vec<SearchResult> = Vec::new();
        proof {
            assert(r@ =~= Seq::<SearchResult>::empty());
        }
        r
    }
}

/// A boolean subquery: a term or a phrase (boolean queries do not nest).
#[derive(Debug, PartialEq, Clone)]
pub enum SubQuery {
    Term(TermQuery),
    Phrase(PhraseQuery),
}

/// Content of a `SubQuery`.
pub enum SubQueryView {
    Term(Seq<char>),
    Phrase(Seq<Seq<char>>),
}

impl View for SubQuery {
    type V = SubQueryView;

    open spec fn view(&self) -> SubQueryView {
        match self {
            SubQuery::Term(t) => SubQueryView::Term(t@),
            SubQuery::Phrase(p) => SubQueryView::Phrase(p@),
        }
    }
}

impl SubQuery {
    /// Evaluation stub: returns no results in the current scope.
    pub fn execute(&self, index: &Index) -> (r: Vec<SearchResult>)
        ensures
            r@ == Seq::<SearchResult>::empty(),
    {
        match self {
            SubQuery::Term(t) => t.execute(index),
            SubQuery::Phrase(p) => p.execute(index),
        }
    }
}

/// An ordered sequence of tagged subqueries.
#[derive(Debug, PartialEq, Clone)]
pub struct BooleanQuery {
    queries: Vec<(Occur, SubQuery)>,
}

impl View for BooleanQuery {
    type V = Seq<(Occur, SubQueryView)>;

    closed spec fn view(&self) -> Seq<(Occur, SubQueryView)> {
        self.queries@.map_values(|q: (Occur, SubQuery)| (q.0, q.1@))
    }
}

impl BooleanQuery {
    pub fn new(queries: Vec<(Occur, SubQuery)>) -> (r: BooleanQuery)
        ensures
            r@ == queries@.map_values(|q: (Occur, SubQuery)| (q.0, q.1@)),
    {
        BooleanQuery { queries }
    }

    /// Evaluation stub: returns no results in the current scope.
    pub fn execute(&self, index: &Index) -> (r: Vec<SearchResult>)
        ensures
            r@ == Seq::<SearchResult>::empty(),
    {
        let _ = index;
        let r: Vec<SearchResult> = Vec::new();
        proof {
            assert(r@ =~= Seq::<SearchResult>::empty());
        }
        r
    }
}

/// A parsed query: a bare term, a quoted phrase, or a boolean
/// combination of tagged terms and phrases.
#[derive(Debug, PartialEq, Clone)]
pub enum Query {
    Term(TermQuery),
    Phrase(PhraseQuery),
    Boolean(BooleanQuery),
}

/// Content of a `Query`.
pub enum QueryView {
    Term(Seq<char>),
    Phrase(Seq<Seq<char>>),
    Boolean(Seq<(Occur, SubQueryView)>),
}

impl View for Query {
    type V = QueryView;

    open spec fn view(&self) -> QueryView {
        match self {
            Query::Term(t) => QueryView::Term(t@),
            Query::Phrase(p) => QueryView::Phrase(p@),
            Query::Boolean(b) => QueryView::Boolean(b@),
        }
    }
}

impl Query {
    /// Evaluation stub: returns no results in the current scope.
    pub fn execute(&self, index: &Index) -> (r: Vec<SearchResult>)
        ensures
            r@ == Seq::<SearchResult>::empty(),
    {
        match self {
            Query::Term(t) => t.execute(index),
            Query::Phrase(p) => p.execute(index),
            Query::Boolean(b) => b.execute(index),
        }
    }
}

} // verus!
