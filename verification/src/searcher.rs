//! Document-at-a-time disjunctive search over an `Index`.
//!
//! A query is tokenized like a document; one cursor per token occurrence
//! walks that term's postings list. The merge visits candidate documents
//! in ascending id order, scoring each document by the number of cursors
//! that hold it (a fixed +1 per matching cursor), and the best `k`
//! results leave in score-descending, document-id-ascending order.

use vstd::prelude::*;
use vstd::multiset::Multiset;

use crate::analyzer::analyze;
use crate::analyzer::tokens_of;
use crate::analyzer::Token;
use crate::index::Index;
use crate::index::PostingsList;
use crate::index::PostingsListView;

verus! {

/// One scored hit: a document id and the number of query-term matches.
#[derive(Debug, PartialEq, Clone, Copy)]
pub struct SearchResult {
    pub doc_id: usize,
    pub score: u64,
}

/// True when `t` is a term of `ix` whose postings list holds `d`.
pub open spec fn term_matches(ix: Index, t: Seq<char>, d: usize) -> bool {
    match ix.spec_get(t) {
        Some(pl) => pl.contains_doc(d),
        None => false,
    }
}

/// The score of document `d` for the token sequence `toks`: the number
/// of tokens, counted with multiplicity, whose postings list holds `d`.
pub open spec fn doc_score(ix: Index, toks: Seq<Seq<char>>, d: usize) -> nat
    decreases toks.len(),
{
    if toks.len() == 0 {
        0
    } else {
        doc_score(ix, toks.drop_last(), d) + if term_matches(ix, toks.last(), d) {
            1nat
        } else {
            0nat
        }
    }
}

/// A document matches when at least one query token's list holds it.
pub open spec fn matched(ix: Index, toks: Seq<Seq<char>>, d: usize) -> bool {
    doc_score(ix, toks, d) > 0
}

/// The result order: higher score first, ties by ascending document id.
pub open spec fn result_beats(a: SearchResult, b: SearchResult) -> bool {
    a.score > b.score || (a.score == b.score && a.doc_id < b.doc_id)
}

/// True when some entry of `rs` is for document `d`.
pub open spec fn in_results(rs: Seq<SearchResult>, d: usize) -> bool {
    exists|i: int| 0 <= i < rs.len() && rs[i].doc_id == d
}

/// Number of postings lists among `pls` that hold `d`.
pub open spec fn slots_score(pls: Seq<PostingsListView>, d: usize) -> nat
    decreases pls.len(),
{
    if pls.len() == 0 {
        0
    } else {
        slots_score(pls.drop_last(), d) + if pls.last().contains_doc(d) {
            1nat
        } else {
            0nat
        }
    }
}

proof fn lemma_slots_score_pos(pls: Seq<PostingsListView>, d: usize)
    ensures
        (slots_score(pls, d) > 0) <==> exists|ci: int| 0 <= ci < pls.len()
            && pls[ci].contains_doc(d),
    decreases pls.len(),
{
    if pls.len() > 0 {
        lemma_slots_score_pos(pls.drop_last(), d);
        if slots_score(pls, d) > 0 {
            if pls.last().contains_doc(d) {
                assert(pls[pls.len() - 1].contains_doc(d));
            } else {
                let ci = choose|ci: int| 0 <= ci < pls.drop_last().len()
                    && pls.drop_last()[ci].contains_doc(d);
                assert(pls[ci].contains_doc(d));
            }
        }
        if exists|ci: int| 0 <= ci < pls.len() && pls[ci].contains_doc(d) {
            let ci = choose|ci: int| 0 <= ci < pls.len() && pls[ci].contains_doc(d);
            if ci < pls.len() - 1 {
                assert(pls.drop_last()[ci].contains_doc(d));
            }
        }
    }
}

/// A moving pointer into one postings list. `next_doc` holds the
/// document id under the pointer; it is left in place once the list is
/// exhausted, and cursor users drop the cursor at that point.
#[derive(Clone, Copy)]
pub struct Cursor<'a> {
    postings_list: &'a PostingsList,
    position: usize,
    pub next_doc: Option<usize>,
}

impl<'a> Cursor<'a> {
    /// The postings list this cursor walks.
    pub closed spec fn pl(self) -> PostingsListView {
        self.postings_list@
    }

    /// The pointer sits on a real posting and `next_doc` mirrors it.
    pub closed spec fn wf(self) -> bool {
        &&& self.position < self.pl().docs.len()
        &&& self.next_doc == Some(self.pl().docs[self.position as int])
    }

    /// Current position in the postings list.
    pub closed spec fn spec_position(self) -> usize {
        self.position
    }

    /// The `next_doc` field: the document id under the pointer.
    pub closed spec fn spec_next_doc(self) -> Option<usize> {
        self.next_doc
    }

    /// A cursor on position 0 of `postings_list`, or `None` when the
    /// list is empty.
    pub fn new(postings_list: &'a PostingsList) -> (r: Option<Cursor<'a>>)
        ensures
            match r {
                Some(c) => postings_list@.docs.len() > 0 && c.wf() && c.pl() == postings_list@
                    && c.spec_position() == 0 && c.spec_next_doc() == Some(postings_list@.docs[0]),
                None => postings_list@.docs.len() == 0,
            },
    {
        let head: usize = 0;
        match postings_list.get_doc_id(head) {
            Some(doc_id) => Some(Cursor { postings_list, position: 0, next_doc: Some(doc_id) }),
            None => None,
        }
    }

    /// Steps to the next posting and reports `true`; at the end of the
    /// list it reports `false` and leaves the cursor untouched.
    pub fn next(&mut self) -> (r: bool)
        requires
            old(self).wf(),
        ensures
            final(self).pl() == old(self).pl(),
            r == (old(self).spec_position() + 1 < old(self).pl().docs.len()),
            r ==> final(self).wf() && final(self).spec_position() == old(self).spec_position() + 1
                && final(self).spec_next_doc() == Some(
                final(self).pl().docs[final(self).spec_position() as int],
            ),
            !r ==> *final(self) == *old(self),
    {
        let n: usize = self.postings_list.len();
        let next_doc = self.postings_list.get_doc_id(self.position + 1);
        if let Some(next_doc) = next_doc {
            self.position = self.position + 1;
            self.next_doc = Some(next_doc);
            true
        } else {
            false
        }
    }
}

/// A read-only searching view over an `Index`.
pub struct Searcher<'a> {
    index: &'a Index,
}

impl<'a> Searcher<'a> {
    /// The index being searched.
    pub closed spec fn spec_index_ref(self) -> Index {
        *self.index
    }

    pub fn new(index: &'a Index) -> (r: Searcher<'a>)
        ensures
            r.spec_index_ref() == *index,
    {
        Self { index }
    }

    /// Document-at-a-time disjunctive merge with top-`k` retention.
    ///
    /// Returns at most `k` results: the matched documents with the
    /// highest scores (ties broken by ascending document id), ordered by
    /// descending score and ascending document id, each carrying its
    /// exact score. Duplicate query tokens contribute one cursor each,
    /// so they score matching documents once per occurrence.
    #[verifier::rlimit(100)]
    pub fn search(&self, text: &String, k: usize) -> (r: Vec<SearchResult>)
        requires
            self.spec_index_ref().wf(),
        ensures
            search_contract(self.spec_index_ref(), tokens_of(text@), k, r@),
    {
        let ix: &Index = self.index;
        let ghost gix = *self.index;
        let ghost toks = tokens_of(text@);
        let tokens: Vec<Token> = analyze(text);

        // Build one cursor per query token whose term has a nonempty
        // postings list; `pls` shadows the postings list of each slot.
        let mut cursors: Vec<Option<Cursor>> = Vec::new();
        let ghost mut pls: Seq<PostingsListView> = Seq::empty();
        let mut ti: usize = 0;
        while ti < tokens.len()
            invariant
                gix.wf(),
                *ix == gix,
                tokens@.len() == toks.len(),
                forall|j: int| 0 <= j < toks.len() ==> tokens@[j]@ == toks[j],
                ti <= tokens.len(),
                cursors@.len() == pls.len(),
                forall|ci: int| #![trigger cursors@[ci]] 0 <= ci < cursors@.len()
                    ==> match cursors@[ci] {
                    Some(c) => c.wf() && c.pl() == pls[ci] && c.spec_position() == 0,
                    None => false,
                },
                forall|ci: int| 0 <= ci < pls.len() ==> (#[trigger] pls[ci]).sorted(),
                forall|d: usize| #![trigger slots_score(pls, d)] slots_score(pls, d) == doc_score(
                    gix,
                    toks.take(ti as int),
                    d,
                ),
            decreases tokens@.len() - ti,
        {
            let ghost w = toks[ti as int];
            proof {
                assert(toks.take(ti + 1).drop_last() =~= toks.take(ti as int));
                assert(toks.take(ti + 1).last() == w);
            }
            let tok: &Token = &tokens[ti];
            let ghost pls0 = pls;
            match ix.get_postings_list(&tok.token) {
                Some(pl) => {
                    proof {
                        ix.lemma_get_valid(w);
                    }
                    match Cursor::new(pl) {
                        Some(c) => {
                            cursors.push(Some(c));
                            proof {
                                pls = pls.push(pl@);
                                assert(pls.drop_last() =~= pls0);
                            }
                        },
                        None => {
                            proof {
                                assert(forall|d: usize| !pl@.contains_doc(d));
                            }
                        },
                    }
                },
                None => {},
            }
            ti = ti + 1;
            proof {
                assert forall|d: usize| #![trigger slots_score(pls, d)] slots_score(pls, d)
                    == doc_score(gix, toks.take(ti as int), d) by {
                    assert(doc_score(gix, toks.take(ti as int), d) == doc_score(
                        gix,
                        toks.take(ti - 1),
                        d,
                    ) + if term_matches(gix, w, d) {
                        1nat
                    } else {
                        0nat
                    });
                    assert(slots_score(pls0, d) == doc_score(gix, toks.take(ti - 1), d));
                }
            }
        }
        proof {
            assert(toks.take(toks.len() as int) =~= toks);
        }

        // Document-at-a-time merge: repeatedly take the least document id
        // held by any live cursor, count the cursors holding it, and
        // advance them. Results come out in ascending document id order.
        let mut results: Vec<SearchResult> = Vec::new();
        let ghost mut bound: int = 0;
        loop
            invariant_except_break
                cursors@.len() == pls.len(),
                0 <= bound <= usize::MAX as int + 1,
                forall|ci: int| #![trigger cursors@[ci]] 0 <= ci < cursors@.len()
                    ==> match cursors@[ci] {
                    Some(c) => c.wf() && c.pl() == pls[ci] && c.pl().docs[c.spec_position() as int]
                        >= bound && forall|j: int| 0 <= j < c.spec_position()
                        ==> c.pl().docs[j] < bound,
                    None => forall|j: int| 0 <= j < pls[ci].docs.len() ==> pls[ci].docs[j] < bound,
                },
                forall|ci: int| 0 <= ci < pls.len() ==> (#[trigger] pls[ci]).sorted(),
                forall|d: usize| #![trigger slots_score(pls, d)] slots_score(pls, d) == doc_score(
                    gix,
                    toks,
                    d,
                ),
                forall|i: int| #![trigger results@[i]] 0 <= i < results@.len() ==> {
                    &&& results@[i].doc_id < bound
                    &&& matched(gix, toks, results@[i].doc_id)
                    &&& results@[i].score == doc_score(gix, toks, results@[i].doc_id)
                },
                forall|i: int, j: int| 0 <= i < j < results@.len() ==> results@[i].doc_id
                    < results@[j].doc_id,
                forall|d: usize| d < bound && matched(gix, toks, d) ==> in_results(results@, d),
            ensures
                forall|i: int| #![trigger results@[i]] 0 <= i < results@.len() ==> {
                    &&& matched(gix, toks, results@[i].doc_id)
                    &&& results@[i].score == doc_score(gix, toks, results@[i].doc_id)
                },
                forall|i: int, j: int| 0 <= i < j < results@.len() ==> results@[i].doc_id
                    < results@[j].doc_id,
                forall|d: usize| matched(gix, toks, d) ==> in_results(results@, d),
            decreases usize::MAX as int + 1 - bound,
        {
            // Find the least current document id over the live cursors.
            let mut min_doc: Option<usize> = None;
            let mut ci: usize = 0;
            while ci < cursors.len()
                invariant
                    cursors@.len() == pls.len(),
                    ci <= cursors@.len(),
                    forall|cj: int| #![trigger cursors@[cj]] 0 <= cj < cursors@.len()
                        ==> match cursors@[cj] {
                        Some(c) => c.wf() && c.pl() == pls[cj] && c.pl().docs[c.spec_position() as int]
                            >= bound,
                        None => true,
                    },
                    match min_doc {
                        Some(m) => {
                            &&& m >= bound
                            &&& exists|cj: int| 0 <= cj < ci && match #[trigger] cursors@[cj] {
                                Some(c) => c.next_doc == Some(m),
                                None => false,
                            }
                            &&& forall|cj: int| 0 <= cj < ci ==> match #[trigger] cursors@[cj] {
                                Some(c) => c.pl().docs[c.spec_position() as int] >= m,
                                None => true,
                            }
                        },
                        None => forall|cj: int| 0 <= cj < ci ==> (#[trigger] cursors@[cj]) is None,
                    },
                decreases cursors@.len() - ci,
            {
                let slot: Option<Cursor> = cursors[ci];
                match slot {
                    Some(c) => {
                        let nd: usize = match c.next_doc {
                            Some(nd) => nd,
                            None => 0,  // unreachable: a live cursor always holds a doc
                        };
                        match min_doc {
                            None => { min_doc = Some(nd); },
                            Some(m) => {
                                if nd < m {
                                    min_doc = Some(nd);
                                }
                            },
                        }
                    },
                    None => {},
                }
                ci = ci + 1;
            }
            match min_doc {
                None => {
                    // Every cursor is exhausted: all matched documents have
                    // been scored.
                    proof {
                        assert forall|d: usize| matched(gix, toks, d) implies in_results(
                            results@,
                            d,
                        ) by {
                            lemma_slots_score_pos(pls, d);
                            let cj = choose|cj: int| 0 <= cj < pls.len()
                                && pls[cj].contains_doc(d);
                            assert(cursors@[cj] is None);
                            let j = choose|j: int| 0 <= j < pls[cj].docs.len()
                                && pls[cj].docs[j] == d;
                            assert(pls[cj].docs[j] < bound);
                        }
                    }
                    break ;
                },
                Some(d) => {
                    // No document in [bound, d) matches: d is the least id
                    // still held by any cursor.
                    proof {
                        assert forall|d2: usize| bound <= d2 < d implies !matched(
                            gix,
                            toks,
                            d2,
                        ) by {
                            if slots_score(pls, d2) > 0 {
                                lemma_slots_score_pos(pls, d2);
                                let cj = choose|cj: int| 0 <= cj < pls.len()
                                    && pls[cj].contains_doc(d2);
                                let j = choose|j: int| 0 <= j < pls[cj].docs.len()
                                    && pls[cj].docs[j] == d2;
                                match cursors@[cj] {
                                    Some(c) => {
                                        assert(j >= c.spec_position());
                                        assert(pls[cj].docs[j] >= pls[cj].docs[c.spec_position() as int]);
                                    },
                                    None => {},
                                }
                            }
                        }
                    }
                    proof {
                        // d itself matches: the cursor that supplied the
                        // minimum holds it.
                        assert(exists|cj: int| 0 <= cj < cursors@.len()
                            && match #[trigger] cursors@[cj] {
                            Some(c) => c.next_doc == Some(d),
                            None => false,
                        });
                        let cj = choose|cj: int| #![trigger cursors@[cj]] 0 <= cj < cursors@.len()
                            && match cursors@[cj] {
                            Some(c) => c.next_doc == Some(d),
                            None => false,
                        };
                        match cursors@[cj] {
                            Some(c) => {
                                assert(c.pl().docs[c.spec_position() as int] == d);
                                assert(pls[cj].contains_doc(d));
                            },
                            None => {},
                        }
                        lemma_slots_score_pos(pls, d);
                        assert(matched(gix, toks, d));
                    }
                    // Count the cursors holding d and advance each of them.
                    let mut score: u64 = 0;
                    let mut ci: usize = 0;
                    while ci < cursors.len()
                        invariant
                            cursors@.len() == pls.len(),
                            ci <= cursors@.len(),
                            bound <= d as int,
                            score <= ci,
                            score == slots_score(pls.take(ci as int), d),
                            forall|cj: int| 0 <= cj < pls.len() ==> (
                            #[trigger] pls[cj]).sorted(),
                            // slots not yet visited still sit at their old place
                            forall|cj: int| #![trigger cursors@[cj]] ci <= cj < cursors@.len()
                                ==> match cursors@[cj] {
                                Some(c) => c.wf() && c.pl() == pls[cj] && c.pl().docs[c.spec_position() as int]
                                    >= d && forall|j: int| 0 <= j < c.spec_position()
                                    ==> c.pl().docs[j] < bound,
                                None => forall|j: int| 0 <= j < pls[cj].docs.len()
                                    ==> pls[cj].docs[j] < bound,
                            },
                            // visited slots have moved past d
                            forall|cj: int| #![trigger cursors@[cj]] 0 <= cj < ci
                                ==> match cursors@[cj] {
                                Some(c) => c.wf() && c.pl() == pls[cj] && c.pl().docs[c.spec_position() as int]
                                    > d && forall|j: int| 0 <= j < c.spec_position()
                                    ==> c.pl().docs[j] <= d,
                                None => forall|j: int| 0 <= j < pls[cj].docs.len()
                                    ==> pls[cj].docs[j] <= d,
                            },
                        decreases cursors@.len() - ci,
                    {
                        let ghost pl_ci = pls[ci as int];
                        proof {
                            assert(pls.take(ci + 1).drop_last() =~= pls.take(ci as int));
                            assert(pls.take(ci + 1).last() == pl_ci);
                        }
                        let slot: &mut Option<Cursor> = &mut cursors[ci];
                        let cur: Option<Cursor> = *slot;
                        match cur {
                            Some(c) => {
                                let nd: usize = match c.next_doc {
                                    Some(nd) => nd,
                                    None => 0,  // unreachable: live cursors hold a doc
                                };
                                if nd == d {
                                    proof {
                                        assert(pl_ci.contains_doc(d));
                                    }
                                    score = score + 1;
                                    let mut c2 = c;
                                    let advanced = c2.next();
                                    if advanced {
                                        *slot = Some(c2);
                                    } else {
                                        *slot = None;
                                        proof {
                                            assert forall|j: int| 0 <= j
                                                < pl_ci.docs.len() implies pl_ci.docs[j] <= d by {
                                                assert(j <= c.spec_position());
                                            }
                                        }
                                    }
                                } else {
                                    proof {
                                        // d is not in this list at or after the
                                        // cursor, and everything before is < d
                                        if pl_ci.contains_doc(d) {
                                            let j = choose|j: int| 0 <= j < pl_ci.docs.len()
                                                && pl_ci.docs[j] == d;
                                            assert(j >= c.spec_position());
                                            assert(pl_ci.docs[j]
                                                >= pl_ci.docs[c.spec_position() as int]);
                                        }
                                    }
                                }
                            },
                            None => {
                                proof {
                                    if pl_ci.contains_doc(d) {
                                        let j = choose|j: int| 0 <= j < pl_ci.docs.len()
                                            && pl_ci.docs[j] == d;
                                    }
                                }
                            },
                        }
                        ci = ci + 1;
                    }
                    proof {
                        assert(pls.take(pls.len() as int) =~= pls);
                        assert(score == doc_score(gix, toks, d));
                    }
                    let ghost res0 = results@;
                    results.push(SearchResult { doc_id: d, score });
                    proof {
                        assert forall|d2: usize| d2 < d + 1 && matched(
                            gix,
                            toks,
                            d2,
                        ) implies in_results(results@, d2) by {
                            if d2 < bound {
                                assert(in_results(res0, d2));
                                let i = choose|i: int| 0 <= i < res0.len() && res0[i].doc_id
                                    == d2;
                                assert(results@[i].doc_id == d2);
                            } else if d2 == d {
                                assert(results@[results@.len() - 1].doc_id == d);
                            }
                        }
                        bound = d + 1;
                    }
                },
            }
        }

        // Order by descending score, ascending document id.
        let sorted: Vec<SearchResult> = sort_results(results);

        // Keep the k best.
        let mut sorted = sorted;
        let final_len: usize = if k < sorted.len() {
            k
        } else {
            sorted.len()
        };
        let ghost full = sorted@;
        sorted.truncate(final_len);
        proof {
            broadcast use vstd::seq_lib::group_to_multiset_ensures;

            assert(sorted@ =~= full.subrange(0, final_len as int));
            // every reported entry is a merge result, so it is a matched
            // document carrying its exact score
            assert forall|i: int| #![trigger sorted@[i]] 0 <= i < sorted@.len() implies matched(
                gix,
                toks,
                sorted@[i].doc_id,
            ) && sorted@[i].score == doc_score(gix, toks, sorted@[i].doc_id) by {
                let e = sorted@[i];
                assert(full[i] == e);
                assert(full.contains(e));
                assert(full.to_multiset().count(e) > 0);
                assert(results@.to_multiset().count(e) > 0);
                assert(results@.contains(e));
                let j = choose|j: int| 0 <= j < results@.len() && results@[j] == e;
                assert(results@[j] == e);
            }
            // every matched document is reported or beaten by k results
            assert forall|d: usize| matched(gix, toks, d) implies in_results(sorted@, d) || (
            sorted@.len() == k && forall|i: int| 0 <= i < sorted@.len() ==> result_key_beats(
                #[trigger] sorted@[i],
                doc_score(gix, toks, d),
                d,
            )) by {
                assert(in_results(results@, d));
                let i = choose|i: int| 0 <= i < results@.len() && results@[i].doc_id == d;
                let e = results@[i];
                assert(results@.contains(e));
                assert(results@.to_multiset().count(e) > 0);
                assert(full.to_multiset().count(e) > 0);
                assert(full.contains(e));
                let si = choose|si: int| 0 <= si < full.len() && full[si] == e;
                if si < final_len {
                    assert(sorted@[si].doc_id == d);
                } else {
                    assert(full.len() > k);
                    assert forall|q: int| 0 <= q < sorted@.len() implies result_key_beats(
                        #[trigger] sorted@[q],
                        doc_score(gix, toks, d),
                        d,
                    ) by {
                        assert(full[q] == sorted@[q]);
                        assert(result_beats(full[q], full[si]));
                    }
                }
            }
        }
        sorted
    }
}

impl Index {
    /// Document-at-a-time disjunctive search over this index; see
    /// `Searcher::search` for the full contract.
    pub fn search(&self, text: &String, k: usize) -> (r: Vec<SearchResult>)
        requires
            self.wf(),
        ensures
            search_contract(*self, tokens_of(text@), k, r@),
    {
        Searcher::new(self).search(text, k)
    }
}

/// Insertion sort of merge results into the result order: descending
/// score, ascending document id. Input entries carry distinct document
/// ids (they arrive in ascending id order).
#[verifier::rlimit(100)]
fn sort_results(results: Vec<SearchResult>) -> (sorted: Vec<SearchResult>)
    requires
        forall|i: int, j: int| 0 <= i < j < results@.len() ==> results@[i].doc_id
            < results@[j].doc_id,
    ensures
        sorted@.len() == results@.len(),
        forall|i: int, j: int| 0 <= i < j < sorted@.len() ==> result_beats(sorted@[i], sorted@[j]),
        sorted@.to_multiset() == results@.to_multiset(),
{
    broadcast use vstd::seq_lib::group_to_multiset_ensures;

    let mut sorted: Vec<SearchResult> = Vec::new();
    let mut ri: usize = 0;
    proof {
        assert(results@.take(0).to_multiset() =~= Multiset::<SearchResult>::empty());
        assert(sorted@.to_multiset() =~= Multiset::<SearchResult>::empty());
    }
    while ri < results.len()
        invariant
            ri <= results@.len(),
            sorted@.len() == ri,
            forall|i: int, j: int| 0 <= i < j < results@.len() ==> results@[i].doc_id
                < results@[j].doc_id,
            forall|i: int, j: int| 0 <= i < j < sorted@.len() ==> result_beats(
                sorted@[i],
                sorted@[j],
            ),
            sorted@.to_multiset() == results@.take(ri as int).to_multiset(),
        decreases results@.len() - ri,
    {
        broadcast use vstd::seq_lib::group_to_multiset_ensures;

        let x: SearchResult = results[ri];
        proof {
            // x's document id differs from every id already placed
            assert forall|i: int| #![trigger sorted@[i]] 0 <= i
                < sorted@.len() implies sorted@[i].doc_id != x.doc_id by {
                assert(sorted@.contains(sorted@[i]));
                assert(sorted@.to_multiset().count(sorted@[i]) > 0);
                assert(results@.take(ri as int).to_multiset().count(sorted@[i]) > 0);
                assert(results@.take(ri as int).contains(sorted@[i]));
                let j = choose|j: int| 0 <= j < ri && results@.take(ri as int)[j] == sorted@[i];
                assert(results@[j] == sorted@[i]);
            }
        }
        let ghost sorted0 = sorted@;
        let p: usize = insert_result(&mut sorted, x);
        ri = ri + 1;
        proof {
            lemma_insert_to_multiset(sorted0, x, p as int);
            assert(results@.take(ri as int).drop_last() =~= results@.take(ri - 1));
            assert(results@.take(ri - 1).push(x) =~= results@.take(ri as int));
            assert(results@.take(ri - 1).push(x).to_multiset() == results@.take(
                ri - 1,
            ).to_multiset().insert(x));
        }
    }
    proof {
        assert(results@.take(results@.len() as int) =~= results@);
    }
    sorted
}

/// Inserting anywhere adds exactly one copy of the element to the
/// multiset of a sequence.
proof fn lemma_insert_to_multiset(s0: Seq<SearchResult>, x: SearchResult, p: int)
    requires
        0 <= p <= s0.len(),
    ensures
        s0.insert(p, x).to_multiset() == s0.to_multiset().insert(x),
{
    broadcast use vstd::seq_lib::group_to_multiset_ensures;
    broadcast use vstd::seq_lib::lemma_multiset_commutative;

    let a = s0.subrange(0, p);
    let b = s0.subrange(p, s0.len() as int);
    assert(s0.insert(p, x) == a.push(x) + b);
    assert((a.push(x) + b).to_multiset() == a.push(x).to_multiset().add(b.to_multiset()));
    assert(a.push(x).to_multiset() == a.to_multiset().insert(x));
    assert(s0 =~= a + b);
    assert(s0.to_multiset() == a.to_multiset().add(b.to_multiset()));
    assert(a.to_multiset().insert(x).add(b.to_multiset()) =~= a.to_multiset().add(
        b.to_multiset(),
    ).insert(x));
}

/// Inserts `x` at its place in a sequence already in the result order,
/// returning the position it took.
fn insert_result(sorted: &mut Vec<SearchResult>, x: SearchResult) -> (p: usize)
    requires
        forall|i: int, j: int| 0 <= i < j < old(sorted)@.len() ==> result_beats(
            old(sorted)@[i],
            old(sorted)@[j],
        ),
        forall|i: int| 0 <= i < old(sorted)@.len() ==> (#[trigger] old(sorted)@[i]).doc_id
            != x.doc_id,
    ensures
        forall|i: int, j: int| 0 <= i < j < final(sorted)@.len() ==> result_beats(
            final(sorted)@[i],
            final(sorted)@[j],
        ),
        0 <= p <= old(sorted)@.len(),
        final(sorted)@ == old(sorted)@.insert(p as int, x),
{
    let mut p: usize = 0;
    while p < sorted.len() && beats(&sorted[p], &x)
        invariant
            sorted@ == old(sorted)@,
            p <= sorted@.len(),
            forall|q: int| 0 <= q < p ==> result_beats(#[trigger] sorted@[q], x),
        decreases sorted@.len() - p,
    {
        p = p + 1;
    }
    proof {
        if p < sorted@.len() {
            assert(result_beats(x, sorted@[p as int]));
        }
        lemma_insert_keeps_order(sorted@, x, p as int);
    }
    sorted.insert(p, x);
    p
}

proof fn lemma_insert_keeps_order(s0: Seq<SearchResult>, x: SearchResult, p: int)
    requires
        0 <= p <= s0.len(),
        forall|i: int, j: int| 0 <= i < j < s0.len() ==> result_beats(s0[i], s0[j]),
        forall|q: int| 0 <= q < p ==> result_beats(#[trigger] s0[q], x),
        p < s0.len() ==> result_beats(x, s0[p]),
    ensures
        forall|i: int, j: int| 0 <= i < j < s0.insert(p, x).len() ==> result_beats(
            s0.insert(p, x)[i],
            s0.insert(p, x)[j],
        ),
{
    s0.insert_ensures(p, x);
    let s1 = s0.insert(p, x);
    assert forall|i: int, j: int| 0 <= i < j < s1.len() implies result_beats(s1[i], s1[j]) by {
        if i > p {
            assert(s1[(i - 1) + 1] == s0[i - 1]);
        }
        if j > p {
            assert(s1[(j - 1) + 1] == s0[j - 1]);
        }
        if i == p && j > p {
            assert(result_beats(x, s0[p]));
            if j - 1 > p {
                assert(result_beats(s0[p], s0[j - 1]));
            }
        }
    }
}

/// Executable comparison in the result order.
fn beats(a: &SearchResult, b: &SearchResult) -> (r: bool)
    ensures
        r == result_beats(*a, *b),
{
    a.score > b.score || (a.score == b.score && a.doc_id < b.doc_id)
}

/// `a` precedes a hypothetical result with score `s` and document `d`.
pub open spec fn result_key_beats(a: SearchResult, s: nat, d: usize) -> bool {
    a.score > s || (a.score == s && a.doc_id < d)
}

/// What `search` promises: at most `k` results; each result is a matched
/// document with its exact score; results are strictly ordered by
/// descending score then ascending document id; and every matched
/// document either appears or is beaten by `k` reported results.
pub open spec fn search_contract(
    ix: Index,
    toks: Seq<Seq<char>>,
    k: usize,
    rs: Seq<SearchResult>,
) -> bool {
    &&& rs.len() <= k
    &&& forall|i: int| #![trigger rs[i]] 0 <= i < rs.len() ==> matched(ix, toks, rs[i].doc_id)
        && rs[i].score == doc_score(ix, toks, rs[i].doc_id)
    &&& forall|i: int, j: int| 0 <= i < j < rs.len() ==> result_beats(rs[i], rs[j])
    &&& forall|d: usize| matched(ix, toks, d) ==> in_results(rs, d) || (rs.len() == k && forall|
        i: int,
    |
        0 <= i < rs.len() ==> result_key_beats(#[trigger] rs[i], doc_score(ix, toks, d), d))
}

} // verus!
