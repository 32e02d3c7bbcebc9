//! The inverted index: a mapping from term to its postings list, plus a
//! monotonically assigned document id counter.
//!
//! Document ids are assigned in strictly increasing, gap-free order
//! starting at 1. Every postings list keeps its document ids strictly
//! increasing and within `[1, max_doc_id]`, and each `(term, doc_id)`
//! pair occurs at most once.

use vstd::prelude::*;
use vstd::hash_map::StringHashMap;

use crate::analyzer::analyze;
use crate::analyzer::lemma_tokens_from_len;
use crate::analyzer::tokens_of;
use crate::analyzer::Token;

verus! {

/// Mathematical content of a `PostingsList`: the parallel sequences of
/// document ids and term frequencies.
#[verifier::ext_equal]
pub struct PostingsListView {
    pub docs: Seq<usize>,
    pub freqs: Seq<u32>,
}

impl PostingsListView {
    /// The two parallel sequences always have equal length.
    pub open spec fn wf(self) -> bool {
        self.docs.len() == self.freqs.len()
    }

    /// Document ids appear in strictly increasing order.
    pub open spec fn sorted(self) -> bool {
        forall|i: int, j: int| 0 <= i < j < self.docs.len() ==> self.docs[i] < self.docs[j]
    }

    /// Every document id lies in `[1, max]`.
    pub open spec fn in_range(self, max: usize) -> bool {
        forall|i: int| 0 <= i < self.docs.len() ==> 1 <= #[trigger] self.docs[i] <= max
    }

    /// True when the list holds `doc` somewhere.
    pub open spec fn contains_doc(self, doc: usize) -> bool {
        exists|i: int| 0 <= i < self.docs.len() && self.docs[i] == doc
    }
}

/// Parallel arrays of document ids and term frequencies for one term.
/// Entries are appended on the write path in strictly increasing
/// document id order; the component itself does not check that order.
#[derive(Debug)]
pub struct PostingsList {
    docs: Vec<usize>,
    freqs: Vec<u32>,
}

impl View for PostingsList {
    type V = PostingsListView;

    closed spec fn view(&self) -> PostingsListView {
        PostingsListView { docs: self.docs@, freqs: self.freqs@ }
    }
}

impl PostingsList {
    /// Creates an empty postings list.
    pub fn new() -> (r: PostingsList)
        ensures
            r@.docs == Seq::<usize>::empty(),
            r@.freqs == Seq::<u32>::empty(),
    {
        PostingsList { docs: Vec::new(), freqs: Vec::new() }
    }

    /// Number of postings in the list.
    pub fn len(&self) -> (r: usize)
        ensures
            r == self@.docs.len(),
    {
        self.docs.len()
    }

    /// Appends one `(doc_id, freq)` posting. The caller keeps document
    /// ids strictly increasing; this method appends unconditionally.
    pub fn add(&mut self, doc_id: usize, freq: u32)
        ensures
            final(self)@.docs == old(self)@.docs.push(doc_id),
            final(self)@.freqs == old(self)@.freqs.push(freq),
    {
        self.docs.push(doc_id);
        self.freqs.push(freq);
    }

    /// The document id at position `index`, or `None` past the end.
    pub fn get_doc_id(&self, index: usize) -> (r: Option<usize>)
        ensures
            index < self@.docs.len() ==> r == Some(self@.docs[index as int]),
            index >= self@.docs.len() ==> r is None,
    {
        if index < self.docs.len() {
            Some(self.docs[index])
        } else {
            None
        }
    }

    /// The frequency at position `index`, or `None` past the end.
    pub fn get_freq(&self, index: usize) -> (r: Option<u32>)
        ensures
            index < self@.freqs.len() ==> r == Some(self@.freqs[index as int]),
            index >= self@.freqs.len() ==> r is None,
    {
        if index < self.freqs.len() {
            Some(self.freqs[index])
        } else {
            None
        }
    }
}

/// Number of occurrences of `t` among the tokens `toks`.
pub open spec fn count_of(toks: Seq<Seq<char>>, t: Seq<char>) -> nat
    decreases toks.len(),
{
    if toks.len() == 0 {
        0
    } else {
        count_of(toks.drop_last(), t) + if toks.last() == t {
            1nat
        } else {
            0nat
        }
    }
}

/// A term occurs at most as often as there are tokens.
pub proof fn lemma_count_of_le_len(toks: Seq<Seq<char>>, t: Seq<char>)
    ensures
        count_of(toks, t) <= toks.len(),
    decreases toks.len(),
{
    if toks.len() > 0 {
        lemma_count_of_le_len(toks.drop_last(), t);
    }
}

/// An inverted index: term -> postings list, plus the highest assigned
/// document id. Terms are additionally kept in first-insertion order so
/// the index can be enumerated (for serialization).
pub struct Index {
    term_list: Vec<String>,
    postings: Vec<PostingsList>,
    slot_of: StringHashMap<usize>,
    max_doc_id: usize,
}

impl Index {
    /// The highest document id assigned so far; 0 for an empty index.
    pub closed spec fn spec_max_doc_id(&self) -> usize {
        self.max_doc_id
    }

    /// Terms of the index, in first-insertion order.
    pub closed spec fn spec_terms(&self) -> Seq<Seq<char>> {
        self.term_list@.map_values(|s: String| s@)
    }

    /// The postings lists of the index, in term order.
    pub closed spec fn spec_postings(&self) -> Seq<PostingsListView> {
        self.postings@.map_values(|p: PostingsList| p@)
    }

    /// The postings list stored for the `i`-th term.
    pub closed spec fn spec_postings_at(&self, i: int) -> PostingsListView {
        self.postings@[i]@
    }

    /// The two parallel sequences of a well-formed index line up.
    pub proof fn lemma_wf_lens(&self)
        requires
            self.wf(),
        ensures
            self.spec_postings().len() == self.spec_terms().len(),
    {
    }

    /// The postings list mapped to `t`, if `t` is a term of the index.
    pub closed spec fn spec_get(&self, t: Seq<char>) -> Option<PostingsListView> {
        if self.slot_of@.dom().contains(t) {
            Some(self.postings@[self.slot_of@[t] as int]@)
        } else {
            None
        }
    }

    /// Internal consistency: the term list and the postings arena run in
    /// parallel, the map sends each term to its slot, terms are unique,
    /// and every postings list is well-formed, strictly increasing and
    /// confined to `[1, max_doc_id]`.
    pub closed spec fn wf(&self) -> bool {
        &&& self.term_list@.len() == self.postings@.len()
        &&& forall|t: Seq<char>| #[trigger] self.slot_of@.dom().contains(t) ==> {
            &&& self.slot_of@[t] < self.term_list@.len()
            &&& self.term_list@[self.slot_of@[t] as int]@ == t
        }
        &&& forall|i: int| #![trigger self.term_list@[i]] 0 <= i < self.term_list@.len() ==> {
            &&& self.slot_of@.dom().contains(self.term_list@[i]@)
            &&& self.slot_of@[self.term_list@[i]@] == i
        }
        &&& forall|i: int| 0 <= i < self.postings@.len() ==> {
            &&& (#[trigger] self.postings@[i])@.wf()
            &&& self.postings@[i]@.sorted()
            &&& self.postings@[i]@.in_range(self.max_doc_id)
        }
    }

    /// Every postings list of a well-formed index is well-formed,
    /// strictly increasing, and confined to `[1, max_doc_id]`.
    pub proof fn lemma_get_valid(&self, t: Seq<char>)
        requires
            self.wf(),
        ensures
            match self.spec_get(t) {
                Some(pl) => pl.wf() && pl.sorted() && pl.in_range(self.spec_max_doc_id()),
                None => true,
            },
    {
    }

    /// A term has a postings list exactly when it occurs in the term
    /// list.
    pub proof fn lemma_get_some_iff_term(&self, t: Seq<char>)
        requires
            self.wf(),
        ensures
            (self.spec_get(t) is Some) <==> exists|i: int| 0 <= i < self.spec_terms().len()
                && self.spec_terms()[i] == t,
    {
        if self.spec_get(t) is Some {
            let i = self.slot_of@[t] as int;
            assert(self.spec_terms()[i] == self.term_list@[i]@);
            assert(self.spec_terms()[i] == t);
        }
        if exists|i: int| 0 <= i < self.spec_terms().len() && self.spec_terms()[i] == t {
            let i = choose|i: int| 0 <= i < self.spec_terms().len() && self.spec_terms()[i] == t;
            assert(self.term_list@[i]@ == t);
            assert(self.slot_of@.dom().contains(self.term_list@[i]@));
        }
    }

    /// Each stored postings list of a well-formed index is well-formed,
    /// strictly increasing and confined to `[1, max_doc_id]`.
    pub proof fn lemma_postings_valid(&self, k: int)
        requires
            self.wf(),
            0 <= k < self.spec_postings().len(),
        ensures
            self.spec_postings()[k].wf(),
            self.spec_postings()[k].sorted(),
            self.spec_postings()[k].in_range(self.spec_max_doc_id()),
    {
        assert(self.spec_postings()[k] == self.postings@[k]@);
    }

    /// Distinct term slots hold terms with distinct content.
    pub proof fn lemma_terms_unique(&self, i: int, j: int)
        requires
            self.wf(),
            0 <= i < self.spec_terms().len(),
            0 <= j < self.spec_terms().len(),
            i != j,
        ensures
            self.spec_terms()[i] != self.spec_terms()[j],
    {
        assert(self.spec_terms()[i] == self.term_list@[i]@);
        assert(self.spec_terms()[j] == self.term_list@[j]@);
        assert(self.slot_of@[(self.term_list@[i])@] == i);
        assert(self.slot_of@[(self.term_list@[j])@] == j);
    }

    /// Creates an empty index with `max_doc_id == 0`.
    pub fn new() -> (r: Index)
        ensures
            r.wf(),
            r.spec_max_doc_id() == 0,
            r.spec_terms() == Seq::<Seq<char>>::empty(),
            r.spec_postings() == Seq::<PostingsListView>::empty(),
            forall|t: Seq<char>| #[trigger] r.spec_get(t) is None,
    {
        let r = Index {
            term_list: Vec::new(),
            postings: Vec::new(),
            slot_of: StringHashMap::new(),
            max_doc_id: 0,
        };
        proof {
            assert(r.spec_terms() =~= Seq::<Seq<char>>::empty());
            assert(r.spec_postings() =~= Seq::<PostingsListView>::empty());
        }
        r
    }

    /// Exposes the highest assigned document id.
    pub fn max_doc_id(&self) -> (r: usize)
        ensures
            r == self.spec_max_doc_id(),
    {
        self.max_doc_id
    }

    /// Number of distinct terms in the index.
    pub fn num_terms(&self) -> (r: usize)
        ensures
            r == self.spec_terms().len(),
    {
        self.term_list.len()
    }

    /// The `i`-th term in first-insertion order.
    pub fn term_at(&self, i: usize) -> (r: &String)
        requires
            i < self.spec_terms().len(),
        ensures
            r@ == self.spec_terms()[i as int],
    {
        &self.term_list[i]
    }

    /// The postings list of the `i`-th term.
    pub fn postings_at(&self, i: usize) -> (r: &PostingsList)
        requires
            self.wf(),
            i < self.spec_terms().len(),
        ensures
            r@ == self.spec_postings_at(i as int),
            r@ == self.spec_postings()[i as int],
            self.spec_get(self.spec_terms()[i as int]) == Some(r@),
    {
        &self.postings[i]
    }

    /// The postings list for `term`, or `None` when `term` never
    /// occurred in an added document. A lookup miss is not an error.
    pub fn get_postings_list(&self, term: &String) -> (r: Option<&PostingsList>)
        requires
            self.wf(),
        ensures
            match r {
                Some(pl) => self.spec_get(term@) == Some(pl@),
                None => self.spec_get(term@) is None,
            },
    {
        match self.slot_of.get(term.as_str()) {
            Some(i) => Some(&self.postings[*i]),
            None => None,
        }
    }

    /// Sets the document id counter of a still-empty index; the
    /// deserializer reads the counter after the term entries.
    pub(crate) fn set_max_doc_id(&mut self, m: usize)
        requires
            old(self).wf(),
            old(self).spec_terms().len() == 0,
        ensures
            final(self).wf(),
            final(self).spec_max_doc_id() == m,
            final(self).spec_terms() == old(self).spec_terms(),
            final(self).spec_postings() == old(self).spec_postings(),
            forall|t: Seq<char>| #[trigger] final(self).spec_get(t) == old(self).spec_get(t),
    {
        proof {
            assert forall|t: Seq<char>| !(#[trigger] self.slot_of@.dom().contains(t)) by {
                if self.slot_of@.dom().contains(t) {
                    assert(self.slot_of@[t] < self.term_list@.len());
                }
            }
        }
        self.max_doc_id = m;
    }

    /// Appends one `(term, postings list)` entry to an index whose
    /// counter is already set; the deserializer rebuilds entries in
    /// file order.
    pub(crate) fn push_entry(&mut self, term: String, pl: PostingsList)
        requires
            old(self).wf(),
            old(self).spec_get(term@) is None,
            pl@.wf(),
            pl@.sorted(),
            pl@.in_range(old(self).spec_max_doc_id()),
        ensures
            final(self).wf(),
            final(self).spec_max_doc_id() == old(self).spec_max_doc_id(),
            final(self).spec_terms() == old(self).spec_terms().push(term@),
            final(self).spec_postings() == old(self).spec_postings().push(pl@),
            final(self).spec_get(term@) == Some(pl@),
            forall|t: Seq<char>| t != term@ ==> #[trigger] final(self).spec_get(t) == old(
                self,
            ).spec_get(t),
    {
        let ghost pre = *self;
        let new_slot: usize = self.term_list.len();
        self.term_list.push(term.clone());
        self.postings.push(pl);
        self.slot_of.insert(term, new_slot);
        proof {
            assert(self.term_list@[new_slot as int]@ == self.spec_terms()[new_slot as int]);
            assert(self.spec_terms() =~= pre.spec_terms().push(self.term_list@[new_slot as int]@));
            assert(self.spec_postings() =~= pre.spec_postings().push(
                self.postings@[new_slot as int]@,
            ));
            assert forall|t: Seq<char>|
                t != self.term_list@[new_slot as int]@ implies #[trigger] self.spec_get(t)
                == pre.spec_get(t) by {
                if pre.slot_of@.dom().contains(t) {
                    assert(pre.slot_of@[t] < new_slot);
                }
            }
        }
    }

    /// Tokenizes `text`, aggregates one frequency per distinct term, and
    /// appends one `(doc_id, freq)` posting to each such term's list
    /// under the freshly assigned document id `max_doc_id + 1`.
    ///
    /// For every term content `t`: when `t` occurs `k > 0` times among
    /// the tokens of `text`, the posting `(max_doc_id + 1, k)` is
    /// appended to `t`'s list (the list is created when absent); lists
    /// of terms that do not occur in `text` are untouched.
    pub fn add(&mut self, text: &String)
        requires
            old(self).wf(),
            old(self).spec_max_doc_id() < usize::MAX,
            text@.len() < u32::MAX,
        ensures
            final(self).wf(),
            final(self).spec_max_doc_id() == old(self).spec_max_doc_id() + 1,
            forall|t: Seq<char>| #![trigger final(self).spec_get(t)] {
                let k = count_of(tokens_of(text@), t);
                if k == 0 {
                    final(self).spec_get(t) == old(self).spec_get(t)
                } else {
                    match old(self).spec_get(t) {
                        Some(pl) => final(self).spec_get(t) == Some(
                            PostingsListView {
                                docs: pl.docs.push((old(self).spec_max_doc_id() + 1) as usize),
                                freqs: pl.freqs.push(k as u32),
                            },
                        ),
                        None => final(self).spec_get(t) == Some(
                            PostingsListView {
                                docs: seq![(old(self).spec_max_doc_id() + 1) as usize],
                                freqs: seq![k as u32],
                            },
                        ),
                    }
                }
            },
    {
        let tokens: Vec<Token> = analyze(text);
        let ghost toks = tokens_of(text@);
        proof {
            lemma_tokens_from_len(text@, 0);
        }
        // Aggregate per-document term frequencies, recording each distinct
        // term once in first-occurrence order.
        let mut fterms: Vec<String> = Vec::new();
        let mut fmap: StringHashMap<u32> = StringHashMap::new();
        let mut ti: usize = 0;
        while ti < tokens.len()
            invariant
                tokens@.len() == toks.len(),
                forall|k: int| 0 <= k < toks.len() ==> tokens@[k]@ == toks[k],
                toks.len() < u32::MAX,
                ti <= tokens.len(),
                forall|t: Seq<char>| #[trigger] fmap@.dom().contains(t) ==> fmap@[t]
                    == count_of(toks.take(ti as int), t) && 1 <= fmap@[t],
                forall|t: Seq<char>| !(#[trigger] fmap@.dom().contains(t)) ==> count_of(
                    toks.take(ti as int),
                    t,
                ) == 0,
                forall|j: int| #![trigger fterms@[j]] 0 <= j < fterms@.len()
                    ==> fmap@.dom().contains(fterms@[j]@),
                forall|t: Seq<char>| #[trigger] fmap@.dom().contains(t) ==> exists|j: int| 0 <= j
                    < fterms@.len() && fterms@[j]@ == t,
                forall|j1: int, j2: int| 0 <= j1 < j2 < fterms@.len() ==> fterms@[j1]@
                    != fterms@[j2]@,
            decreases tokens@.len() - ti,
        {
            let tok: &Token = &tokens[ti];
            let ghost w = toks[ti as int];
            proof {
                assert(tok.token@ == w);
                assert(toks.take(ti + 1).drop_last() =~= toks.take(ti as int));
                assert(toks.take(ti + 1).last() == w);
                assert forall|t: Seq<char>| true implies count_of(toks.take(ti + 1), t) == count_of(
                    toks.take(ti as int),
                    t,
                ) + if w == t {
                    1nat
                } else {
                    0nat
                } by {
                    assert(count_of(toks.take(ti + 1), t) == count_of(
                        toks.take(ti + 1).drop_last(),
                        t,
                    ) + if toks.take(ti + 1).last() == t {
                        1nat
                    } else {
                        0nat
                    });
                }
                lemma_count_of_le_len(toks.take(ti as int), w);
            }
            let ghost fmap0 = fmap@;
            let ghost fterms0 = fterms@;
            let prev: Option<&u32> = fmap.get(tok.token.as_str());
            match prev {
                Some(c) => {
                    let c2: u32 = *c + 1;
                    fmap.insert(tok.token.clone(), c2);
                },
                None => {
                    fmap.insert(tok.token.clone(), 1);
                    fterms.push(tok.token.clone());
                    proof {
                        assert(fterms@[fterms@.len() - 1]@ == w);
                    }
                },
            }
            ti = ti + 1;
            proof {
                assert forall|t: Seq<char>| #[trigger] fmap@.dom().contains(t) implies exists|
                    j: int,
                |
                    0 <= j < fterms@.len() && fterms@[j]@ == t by {
                    if fmap0.dom().contains(t) {
                        let j = choose|j: int| 0 <= j < fterms0.len() && fterms0[j]@ == t;
                        assert(fterms@[j]@ == t);
                    } else {
                        assert(t == w);
                        assert(fterms@[fterms@.len() - 1]@ == w);
                    }
                }
            }
        }
        proof {
            assert(toks.take(tokens@.len() as int) =~= toks);
        }
        // Commit one posting per distinct term under the new document id.
        let doc_id: usize = self.max_doc_id + 1;
        let ghost old_self = *self;
        let mut fi: usize = 0;
        while fi < fterms.len()
            invariant
                old_self.wf(),
                old_self.max_doc_id < usize::MAX,
                doc_id == old_self.max_doc_id + 1,
                self.max_doc_id == old_self.max_doc_id,
                self.term_list@.len() == self.postings@.len(),
                fi <= fterms@.len(),
                // the frequency map is final and describes toks
                forall|t: Seq<char>| #[trigger] fmap@.dom().contains(t) ==> fmap@[t] == count_of(
                    toks,
                    t,
                ) && 1 <= fmap@[t],
                forall|t: Seq<char>| !(#[trigger] fmap@.dom().contains(t)) ==> count_of(toks, t)
                    == 0,
                forall|j: int| #![trigger fterms@[j]] 0 <= j < fterms@.len()
                    ==> fmap@.dom().contains(fterms@[j]@),
                forall|t: Seq<char>| #[trigger] fmap@.dom().contains(t) ==> exists|j: int| 0 <= j
                    < fterms@.len() && fterms@[j]@ == t,
                forall|j1: int, j2: int| 0 <= j1 < j2 < fterms@.len() ==> fterms@[j1]@
                    != fterms@[j2]@,
                // structural invariants, with lists confined to [1, doc_id]
                forall|t: Seq<char>| #[trigger] self.slot_of@.dom().contains(t) ==> {
                    &&& self.slot_of@[t] < self.term_list@.len()
                    &&& self.term_list@[self.slot_of@[t] as int]@ == t
                },
                forall|i: int| #![trigger self.term_list@[i]] 0 <= i < self.term_list@.len() ==> {
                    &&& self.slot_of@.dom().contains(self.term_list@[i]@)
                    &&& self.slot_of@[self.term_list@[i]@] == i
                },
                forall|i: int| 0 <= i < self.postings@.len() ==> {
                    &&& (#[trigger] self.postings@[i])@.wf()
                    &&& self.postings@[i]@.sorted()
                    &&& self.postings@[i]@.in_range(doc_id)
                },
                // terms processed so far carry the new posting
                forall|j: int| #![trigger fterms@[j]] 0 <= j < fi ==> {
                    let t = fterms@[j]@;
                    match old_self.spec_get(t) {
                        Some(pl) => self.spec_get(t) == Some(
                            PostingsListView {
                                docs: pl.docs.push(doc_id),
                                freqs: pl.freqs.push(count_of(toks, t) as u32),
                            },
                        ),
                        None => self.spec_get(t) == Some(
                            PostingsListView {
                                docs: seq![doc_id],
                                freqs: seq![count_of(toks, t) as u32],
                            },
                        ),
                    }
                },
                // all other terms are untouched
                forall|t: Seq<char>| #![trigger self.spec_get(t)] (forall|j: int| 0 <= j < fi
                    ==> #[trigger] fterms@[j]@ != t) ==> self.spec_get(t) == old_self.spec_get(t),
            decreases fterms@.len() - fi,
        {
            let term: &String = &fterms[fi];
            let ghost t = term@;
            proof {
                // the current term was not processed in an earlier round
                assert forall|j: int| 0 <= j < fi implies #[trigger] fterms@[j]@ != t by {}
                assert(self.spec_get(t) == old_self.spec_get(t));
            }
            let cnt_ref: Option<&u32> = fmap.get(term.as_str());
            let cnt: u32 = *cnt_ref.unwrap();
            proof {
                assert(cnt == count_of(toks, t));
            }
            let ghost pre_self = *self;
            let slot: Option<&usize> = self.slot_of.get(term.as_str());
            match slot {
                Some(i) => {
                    let i: usize = *i;
                    proof {
                        assert(pre_self.term_list@[i as int]@ == t);
                        assert(old_self.spec_get(t) == Some(pre_self.postings@[i as int]@));
                    }
                    let pl: &mut PostingsList = &mut self.postings[i];
                    pl.add(doc_id, cnt);
                    proof {
                        assert(self.term_list@ == pre_self.term_list@);
                        assert(self.slot_of@ == pre_self.slot_of@);
                        assert(self.postings@ =~= pre_self.postings@.update(
                            i as int,
                            self.postings@[i as int],
                        ));
                        let old_pl = pre_self.postings@[i as int]@;
                        assert(old_pl.in_range(old_self.max_doc_id));
                        assert(self.postings@[i as int]@.docs == old_pl.docs.push(doc_id));
                        assert forall|a: int, b: int|
                            0 <= a < b
                                < self.postings@[i as int]@.docs.len() implies self.postings@[i
                            as int]@.docs[a] < self.postings@[i as int]@.docs[b] by {
                            if b < old_pl.docs.len() {
                            } else {
                                assert(self.postings@[i as int]@.docs[b] == doc_id);
                                assert(old_pl.docs[a] <= old_self.max_doc_id);
                            }
                        }
                        // other slots are untouched
                        assert forall|t2: Seq<char>| t2 != t implies #[trigger] self.spec_get(t2)
                            == pre_self.spec_get(t2) by {
                            if self.slot_of@.dom().contains(t2) {
                                assert(self.term_list@[self.slot_of@[t2] as int]@ == t2);
                                assert(self.slot_of@[t2] != i);
                            }
                        }
                        assert(self.spec_get(t) == Some(
                            PostingsListView {
                                docs: old_pl.docs.push(doc_id),
                                freqs: old_pl.freqs.push(cnt),
                            },
                        ));
                    }
                },
                None => {
                    proof {
                        assert(old_self.spec_get(t) is None);
                    }
                    let mut pl = PostingsList::new();
                    pl.add(doc_id, cnt);
                    let new_slot: usize = self.term_list.len();
                    self.term_list.push(term.clone());
                    self.postings.push(pl);
                    self.slot_of.insert(term.clone(), new_slot);
                    proof {
                        assert(self.term_list@[new_slot as int]@ == t);
                        assert(self.postings@[new_slot as int]@.docs =~= seq![doc_id]);
                        assert(self.postings@[new_slot as int]@.freqs =~= seq![cnt]);
                        assert(self.slot_of@ == pre_self.slot_of@.insert(t, new_slot));
                        assert forall|t2: Seq<char>| t2 != t implies #[trigger] self.spec_get(t2)
                            == pre_self.spec_get(t2) by {
                            if pre_self.slot_of@.dom().contains(t2) {
                                assert(pre_self.slot_of@[t2] < new_slot);
                            }
                        }
                        assert(self.spec_get(t) == Some(
                            PostingsListView { docs: seq![doc_id], freqs: seq![cnt] },
                        ));
                    }
                },
            }
            fi = fi + 1;
            proof {
                assert forall|j: int| #![trigger fterms@[j]] 0 <= j < fi implies {
                    let t3 = fterms@[j]@;
                    match old_self.spec_get(t3) {
                        Some(pl) => self.spec_get(t3) == Some(
                            PostingsListView {
                                docs: pl.docs.push(doc_id),
                                freqs: pl.freqs.push(count_of(toks, t3) as u32),
                            },
                        ),
                        None => self.spec_get(t3) == Some(
                            PostingsListView {
                                docs: seq![doc_id],
                                freqs: seq![count_of(toks, t3) as u32],
                            },
                        ),
                    }
                } by {
                    if j < fi - 1 {
                        assert(fterms@[j]@ != t);
                    }
                }
            }
        }
        let ghost pre_final = *self;
        self.max_doc_id = doc_id;
        proof {
            assert forall|t: Seq<char>| #![trigger self.spec_get(t)] true implies {
                let k = count_of(toks, t);
                if k == 0 {
                    self.spec_get(t) == old_self.spec_get(t)
                } else {
                    match old_self.spec_get(t) {
                        Some(pl) => self.spec_get(t) == Some(
                            PostingsListView {
                                docs: pl.docs.push(doc_id),
                                freqs: pl.freqs.push(k as u32),
                            },
                        ),
                        None => self.spec_get(t) == Some(
                            PostingsListView { docs: seq![doc_id], freqs: seq![k as u32] },
                        ),
                    }
                }
            } by {
                assert(self.spec_get(t) == pre_final.spec_get(t));
                if count_of(toks, t) == 0 {
                    assert forall|j: int| #![trigger fterms@[j]] 0 <= j
                        < fterms@.len() implies fterms@[j]@ != t by {
                        assert(fmap@.dom().contains(fterms@[j]@));
                    }
                } else {
                    assert(fmap@.dom().contains(t));
                    let j = choose|j: int| 0 <= j < fterms@.len() && fterms@[j]@ == t;
                    assert(fterms@[j]@ == t);
                }
            }
        }
    }
}

} // verus!
