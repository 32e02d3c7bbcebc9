//! Byte-level serialization of an `Index` for segment files.
//!
//! Layout, all integers little-endian: a u64 term count `N`; then `N`
//! entries, each a u64 term byte length, the term's UTF-8 bytes, a u64
//! postings count `M` and `M` postings of u64 document id and u32
//! frequency; then the u64 `max_doc_id`.
//!
//! `decode` accepts a byte string exactly when it is the encoding of a
//! well-formed index: it validates lengths, UTF-8, document id order and
//! range, and term uniqueness while parsing, and finally checks that the
//! rebuilt index re-encodes to the input bytes, so a successful decode
//! returns an index whose encoding is the input.

use vstd::prelude::*;
use vstd::bytes::spec_u32_to_le_bytes;
use vstd::bytes::spec_u64_to_le_bytes;
use vstd::bytes::u32_from_le_bytes;
use vstd::bytes::u32_to_le_bytes;
use vstd::bytes::u64_from_le_bytes;
use vstd::bytes::u64_to_le_bytes;
use vstd::bytes::lemma_auto_spec_u32_to_from_le_bytes;
use vstd::bytes::lemma_auto_spec_u64_to_from_le_bytes;
use vstd::bytes::spec_u32_from_le_bytes;
use vstd::bytes::spec_u64_from_le_bytes;
use vstd::slice::slice_subrange;
use vstd::utf8::encode_utf8;
use vstd::utf8::encode_utf8_decode_utf8;

use crate::index::Index;
use crate::index::PostingsList;
use crate::index::PostingsListView;

verus! {

/// Error for malformed segment bytes: a truncated header, a length
/// prefix overrunning the data, invalid UTF-8, document ids out of
/// order or range, a duplicate term, or trailing garbage.
#[derive(Debug, PartialEq, Eq, Structural, Clone, Copy)]
pub enum CodecError {
    Malformed,
}

/// Bytes of the postings of `pl` from position `j` on.
pub open spec fn enc_postings_from(pl: PostingsListView, j: int) -> Seq<u8>
    decreases pl.docs.len() - j,
{
    if j < 0 || j >= pl.docs.len() {
        Seq::empty()
    } else {
        spec_u64_to_le_bytes(pl.docs[j] as u64) + spec_u32_to_le_bytes(pl.freqs[j])
            + enc_postings_from(pl, j + 1)
    }
}

/// Bytes of one term entry: term byte length, term bytes, postings
/// count, postings.
pub open spec fn enc_entry(t: Seq<char>, pl: PostingsListView) -> Seq<u8> {
    spec_u64_to_le_bytes(encode_utf8(t).len() as u64) + encode_utf8(t) + spec_u64_to_le_bytes(
        pl.docs.len() as u64,
    ) + enc_postings_from(pl, 0)
}

/// Bytes of the entries from index `e` on.
pub open spec fn enc_entries_from(
    terms: Seq<Seq<char>>,
    pls: Seq<PostingsListView>,
    e: int,
) -> Seq<u8>
    decreases terms.len() - e,
{
    if e < 0 || e >= terms.len() {
        Seq::empty()
    } else {
        enc_entry(terms[e], pls[e]) + enc_entries_from(terms, pls, e + 1)
    }
}

/// The segment encoding of an index given by its terms, postings lists
/// and document id counter.
pub open spec fn enc_index(
    terms: Seq<Seq<char>>,
    pls: Seq<PostingsListView>,
    max_doc_id: usize,
) -> Seq<u8> {
    spec_u64_to_le_bytes(terms.len() as u64) + enc_entries_from(terms, pls, 0)
        + spec_u64_to_le_bytes(max_doc_id as u64)
}

/// Serializes `ix` into segment bytes.
pub fn encode(ix: &Index) -> (r: Vec<u8>)
    requires
        ix.wf(),
    ensures
        r@ == enc_index(ix.spec_terms(), ix.spec_postings(), ix.spec_max_doc_id()),
{
    proof {
        ix.lemma_wf_lens();
    }
    let ghost terms = ix.spec_terms();
    let ghost pls = ix.spec_postings();
    let n: usize = ix.num_terms();
    let mut out: Vec<u8> = u64_to_le_bytes(n as u64);
    let mut e: usize = 0;
    while e < n
        invariant
            ix.wf(),
            terms == ix.spec_terms(),
            pls == ix.spec_postings(),
            n == terms.len(),
            e <= n,
            out@ + enc_entries_from(terms, pls, e as int) == spec_u64_to_le_bytes(n as u64)
                + enc_entries_from(terms, pls, 0),
        decreases n - e,
    {
        let term: &String = ix.term_at(e);
        let pl: &PostingsList = ix.postings_at(e);
        proof {
            ix.lemma_get_valid(terms[e as int]);
        }
        let ghost out0 = out@;
        let mut tb: Vec<u8> = term.as_str().as_bytes_vec();
        let mut tl: Vec<u8> = u64_to_le_bytes(tb.len() as u64);
        out.append(&mut tl);
        out.append(&mut tb);
        let m: usize = pl.len();
        let mut ml: Vec<u8> = u64_to_le_bytes(m as u64);
        out.append(&mut ml);
        let ghost out1 = out@;
        let mut j: usize = 0;
        while j < m
            invariant
                pl@ == pls[e as int],
                m == pl@.docs.len(),
                m == pl@.freqs.len(),
                j <= m,
                out@ + enc_postings_from(pl@, j as int) == out1 + enc_postings_from(pl@, 0),
            decreases m - j,
        {
            let doc: usize = pl.get_doc_id(j).unwrap();
            let freq: u32 = pl.get_freq(j).unwrap();
            let ghost outp = out@;
            let mut db: Vec<u8> = u64_to_le_bytes(doc as u64);
            let mut fb: Vec<u8> = u32_to_le_bytes(freq);
            out.append(&mut db);
            out.append(&mut fb);
            proof {
                assert(out@ =~= outp + (spec_u64_to_le_bytes(doc as u64) + spec_u32_to_le_bytes(
                    freq,
                )));
                assert(outp + (spec_u64_to_le_bytes(doc as u64) + spec_u32_to_le_bytes(freq))
                    + enc_postings_from(pl@, j + 1) =~= outp + enc_postings_from(pl@, j as int));
            }
            j = j + 1;
        }
        e = e + 1;
        proof {
            assert(ix.wf());
            let t = terms[e - 1];
            let plv = pls[e - 1];
            assert(tb@ == Seq::<u8>::empty());
            assert(out@ =~= out0 + enc_entry(t, plv)) by {
                assert(out1 =~= out0 + (spec_u64_to_le_bytes(encode_utf8(t).len() as u64)
                    + encode_utf8(t) + spec_u64_to_le_bytes(plv.docs.len() as u64)));
                assert(out@ =~= out1 + enc_postings_from(plv, 0));
            }
            assert(out0 + (enc_entry(t, plv) + enc_entries_from(terms, pls, e as int)) =~= out0
                + enc_entry(t, plv) + enc_entries_from(terms, pls, e as int));
            assert(enc_entries_from(terms, pls, e - 1) == enc_entry(t, plv) + enc_entries_from(
                terms,
                pls,
                e as int,
            ));
        }
    }
    let mut mb: Vec<u8> = u64_to_le_bytes(ix.max_doc_id() as u64);
    let ghost out_end = out@;
    out.append(&mut mb);
    proof {
        assert(enc_entries_from(terms, pls, n as int) == Seq::<u8>::empty());
        assert(out_end =~= spec_u64_to_le_bytes(n as u64) + enc_entries_from(terms, pls, 0));
        assert(out@ =~= enc_index(terms, pls, ix.spec_max_doc_id()));
    }
    out
}

/// Equal concatenations with equally long first parts have equal parts.
proof fn lemma_prefix_split(a1: Seq<u8>, b1: Seq<u8>, a2: Seq<u8>, b2: Seq<u8>)
    requires
        a1 + b1 == a2 + b2,
        a1.len() == a2.len(),
    ensures
        a1 == a2,
        b1 == b2,
{
    assert forall|i: int| 0 <= i < a1.len() implies a1[i] == a2[i] by {
        assert((a1 + b1)[i] == a1[i]);
        assert((a2 + b2)[i] == a2[i]);
    }
    assert(a1 =~= a2);
    assert((a1 + b1).len() == a1.len() + b1.len());
    assert((a2 + b2).len() == a2.len() + b2.len());
    assert((a1 + b1).len() == (a2 + b2).len());
    assert(b1.len() == b2.len());
    assert forall|i: int| 0 <= i < b1.len() implies b1[i] == b2[i] by {
        assert((a1 + b1)[a1.len() + i] == b1[i]);
        assert((a2 + b2)[a2.len() + i] == b2[i]);
    }
    assert(b1 =~= b2);
}

/// A postings block encodes 12 bytes per posting.
proof fn lemma_enc_postings_len(pl: PostingsListView, j: int)
    requires
        0 <= j <= pl.docs.len(),
    ensures
        enc_postings_from(pl, j).len() == 12 * (pl.docs.len() - j),
    decreases pl.docs.len() - j,
{
    lemma_auto_spec_u64_to_from_le_bytes();
    lemma_auto_spec_u32_to_from_le_bytes();
    if j < pl.docs.len() {
        lemma_enc_postings_len(pl, j + 1);
    }
}

/// Equal postings blocks of equally long well-formed lists carry equal
/// postings.
proof fn lemma_enc_postings_inj(p1: PostingsListView, p2: PostingsListView, j: int)
    requires
        p1.wf(),
        p2.wf(),
        p1.docs.len() == p2.docs.len(),
        0 <= j <= p1.docs.len(),
        enc_postings_from(p1, j) == enc_postings_from(p2, j),
    ensures
        forall|q: int| j <= q < p1.docs.len() ==> p1.docs[q] == p2.docs[q] && p1.freqs[q]
            == p2.freqs[q],
    decreases p1.docs.len() - j,
{
    lemma_auto_spec_u64_to_from_le_bytes();
    lemma_auto_spec_u32_to_from_le_bytes();
    if j < p1.docs.len() {
        let d1 = spec_u64_to_le_bytes(p1.docs[j] as u64);
        let f1 = spec_u32_to_le_bytes(p1.freqs[j]);
        let r1 = enc_postings_from(p1, j + 1);
        let d2 = spec_u64_to_le_bytes(p2.docs[j] as u64);
        let f2 = spec_u32_to_le_bytes(p2.freqs[j]);
        let r2 = enc_postings_from(p2, j + 1);
        assert((d1 + f1) + r1 =~= d1 + f1 + r1);
        assert((d2 + f2) + r2 =~= d2 + f2 + r2);
        lemma_prefix_split(d1 + f1, r1, d2 + f2, r2);
        lemma_prefix_split(d1, f1, d2, f2);
        assert(spec_u64_from_le_bytes(d1) == spec_u64_from_le_bytes(d2));
        assert(p1.docs[j] == p2.docs[j]);
        assert(spec_u32_from_le_bytes(f1) == spec_u32_from_le_bytes(f2));
        lemma_enc_postings_inj(p1, p2, j + 1);
    }
}

/// Equal entry blocks over equally many terms carry equal terms and
/// postings lists.
proof fn lemma_enc_entries_inj(
    t1: Seq<Seq<char>>,
    p1: Seq<PostingsListView>,
    t2: Seq<Seq<char>>,
    p2: Seq<PostingsListView>,
    e: int,
)
    requires
        t1.len() == p1.len(),
        t2.len() == p2.len(),
        t1.len() == t2.len(),
        forall|k: int| 0 <= k < p1.len() ==> (#[trigger] p1[k]).wf() && p1[k].docs.len()
            <= u64::MAX,
        forall|k: int| 0 <= k < p2.len() ==> (#[trigger] p2[k]).wf() && p2[k].docs.len()
            <= u64::MAX,
        forall|k: int| 0 <= k < t1.len() ==> encode_utf8(#[trigger] t1[k]).len() <= u64::MAX,
        forall|k: int| 0 <= k < t2.len() ==> encode_utf8(#[trigger] t2[k]).len() <= u64::MAX,
        0 <= e <= t1.len(),
        enc_entries_from(t1, p1, e) == enc_entries_from(t2, p2, e),
    ensures
        forall|q: int| e <= q < t1.len() ==> t1[q] == t2[q] && p1[q] == p2[q],
    decreases t1.len() - e,
{
    lemma_auto_spec_u64_to_from_le_bytes();
    if e < t1.len() {
        let u1 = encode_utf8(t1[e]);
        let u2 = encode_utf8(t2[e]);
        let l1 = spec_u64_to_le_bytes(u1.len() as u64);
        let l2 = spec_u64_to_le_bytes(u2.len() as u64);
        let m1 = spec_u64_to_le_bytes(p1[e].docs.len() as u64);
        let m2 = spec_u64_to_le_bytes(p2[e].docs.len() as u64);
        let b1 = enc_postings_from(p1[e], 0);
        let b2 = enc_postings_from(p2[e], 0);
        let r1 = enc_entries_from(t1, p1, e + 1);
        let r2 = enc_entries_from(t2, p2, e + 1);
        assert(enc_entries_from(t1, p1, e) =~= l1 + (u1 + (m1 + (b1 + r1))));
        assert(enc_entries_from(t2, p2, e) =~= l2 + (u2 + (m2 + (b2 + r2))));
        lemma_prefix_split(l1, u1 + (m1 + (b1 + r1)), l2, u2 + (m2 + (b2 + r2)));
        assert(u1.len() == u2.len());
        lemma_prefix_split(u1, m1 + (b1 + r1), u2, m2 + (b2 + r2));
        encode_utf8_decode_utf8(t1[e]);
        encode_utf8_decode_utf8(t2[e]);
        assert(t1[e] == t2[e]);
        lemma_prefix_split(m1, b1 + r1, m2, b2 + r2);
        assert(p1[e].docs.len() == p2[e].docs.len());
        lemma_enc_postings_len(p1[e], 0);
        lemma_enc_postings_len(p2[e], 0);
        lemma_prefix_split(b1, r1, b2, r2);
        lemma_enc_postings_inj(p1[e], p2[e], 0);
        assert(p1[e].docs =~= p2[e].docs);
        assert(p1[e].freqs =~= p2[e].freqs);
        assert(p1[e] =~= p2[e]);
        lemma_enc_entries_inj(t1, p1, t2, p2, e + 1);
    }
}

/// The encoding is injective: two indexes made of well-formed postings
/// lists with equal segment bytes hold the same terms, the same
/// postings and the same document id counter. Together with `decode`'s
/// contract this pins the round trip down: a successful decode of an
/// index's encoding returns exactly that index's content.
pub proof fn lemma_encode_injective(
    t1: Seq<Seq<char>>,
    p1: Seq<PostingsListView>,
    m1: usize,
    t2: Seq<Seq<char>>,
    p2: Seq<PostingsListView>,
    m2: usize,
)
    requires
        t1.len() == p1.len(),
        t2.len() == p2.len(),
        t1.len() <= u64::MAX,
        t2.len() <= u64::MAX,
        forall|k: int| 0 <= k < p1.len() ==> (#[trigger] p1[k]).wf() && p1[k].docs.len()
            <= u64::MAX,
        forall|k: int| 0 <= k < p2.len() ==> (#[trigger] p2[k]).wf() && p2[k].docs.len()
            <= u64::MAX,
        forall|k: int| 0 <= k < t1.len() ==> encode_utf8(#[trigger] t1[k]).len() <= u64::MAX,
        forall|k: int| 0 <= k < t2.len() ==> encode_utf8(#[trigger] t2[k]).len() <= u64::MAX,
        enc_index(t1, p1, m1) == enc_index(t2, p2, m2),
    ensures
        t1 == t2,
        p1 == p2,
        m1 == m2,
{
    lemma_auto_spec_u64_to_from_le_bytes();
    let n1 = spec_u64_to_le_bytes(t1.len() as u64);
    let n2 = spec_u64_to_le_bytes(t2.len() as u64);
    let e1 = enc_entries_from(t1, p1, 0);
    let e2 = enc_entries_from(t2, p2, 0);
    let x1 = spec_u64_to_le_bytes(m1 as u64);
    let x2 = spec_u64_to_le_bytes(m2 as u64);
    assert(enc_index(t1, p1, m1) =~= n1 + (e1 + x1));
    assert(enc_index(t2, p2, m2) =~= n2 + (e2 + x2));
    lemma_prefix_split(n1, e1 + x1, n2, e2 + x2);
    assert(t1.len() == t2.len());
    assert(e1.len() == e2.len());
    lemma_prefix_split(e1, x1, e2, x2);
    assert(m1 == m2);
    lemma_enc_entries_inj(t1, p1, t2, p2, 0);
    assert(t1 =~= t2);
    assert(p1 =~= p2);
}

/// The content an encodable index presents to the codec: parallel term
/// and postings sequences with distinct terms, every list well-formed,
/// strictly increasing and confined to `[1, max_doc_id]`.
pub open spec fn codec_content(
    terms: Seq<Seq<char>>,
    pls: Seq<PostingsListView>,
    max_doc_id: usize,
) -> bool {
    &&& terms.len() == pls.len()
    &&& forall|i: int, j: int| 0 <= i < j < terms.len() ==> terms[i] != terms[j]
    &&& forall|k: int| 0 <= k < pls.len() ==> (#[trigger] pls[k]).wf() && pls[k].sorted()
        && pls[k].in_range(max_doc_id)
}

/// A well-formed postings list without an id bound yet: what `decode`
/// knows of a parsed entry before reading `max_doc_id`.
pub open spec fn entry_valid(pl: PostingsListView) -> bool {
    &&& pl.wf()
    &&& pl.sorted()
    &&& forall|q: int| 0 <= q < pl.docs.len() ==> 1 <= #[trigger] pl.docs[q]
}

proof fn lemma_split_at(s: Seq<u8>, b: Seq<u8>, r: Seq<u8>)
    requires
        s == b + r,
    ensures
        s.len() == b.len() + r.len(),
        s.subrange(0, b.len() as int) == b,
        s.skip(b.len() as int) == r,
{
    assert(s.subrange(0, b.len() as int) =~= b);
    assert(s.skip(b.len() as int) =~= r);
}

proof fn lemma_subrange_of_skip(s: Seq<u8>, a: int, y: int)
    requires
        0 <= a,
        0 <= y,
        a + y <= s.len(),
    ensures
        s.subrange(a, a + y) == s.skip(a).subrange(0, y),
{
    assert(s.subrange(a, a + y) =~= s.skip(a).subrange(0, y));
}

/// An entry encodes to 16 header bytes plus the term bytes plus 12
/// bytes per posting.
proof fn lemma_enc_entry_len(t: Seq<char>, pl: PostingsListView)
    ensures
        enc_entry(t, pl).len() == 16 + encode_utf8(t).len() + 12 * pl.docs.len(),
{
    lemma_auto_spec_u64_to_from_le_bytes();
    lemma_enc_postings_len(pl, 0);
}

/// Every entry takes at least 16 bytes.
proof fn lemma_enc_entries_min_len(t: Seq<Seq<char>>, pls: Seq<PostingsListView>, e: int)
    requires
        0 <= e <= t.len(),
    ensures
        enc_entries_from(t, pls, e).len() >= 16 * (t.len() - e),
    decreases t.len() - e,
{
    if e < t.len() {
        lemma_enc_entry_len(t[e], pls[e]);
        lemma_enc_entries_min_len(t, pls, e + 1);
    }
}

/// What the header of an encoding fixes: the first eight bytes carry
/// the term count, the remainder carries the entries and the counter,
/// and the whole string is at least 16 bytes plus 16 per entry.
proof fn lemma_candidate_header(
    t: Seq<Seq<char>>,
    pls: Seq<PostingsListView>,
    m: usize,
    b: Seq<u8>,
)
    requires
        codec_content(t, pls, m),
        enc_index(t, pls, m) == b,
    ensures
        16 + 16 * t.len() <= b.len(),
        b.subrange(0, 8) == spec_u64_to_le_bytes(t.len() as u64),
        b.skip(8) == enc_entries_from(t, pls, 0) + spec_u64_to_le_bytes(m as u64),
{
    lemma_auto_spec_u64_to_from_le_bytes();
    lemma_enc_entries_min_len(t, pls, 0);
    let a = spec_u64_to_le_bytes(t.len() as u64);
    let ents = enc_entries_from(t, pls, 0);
    let x = spec_u64_to_le_bytes(m as u64);
    assert(b =~= a + (ents + x));
    lemma_split_at(b, a, ents + x);
    assert((ents + x).len() == ents.len() + x.len());
}

/// Reads a little-endian u64 at `p`, or fails on truncation.
fn read_u64(bytes: &Vec<u8>, p: usize) -> (r: Option<(u64, usize)>)
    ensures
        match r {
            Some((v, p2)) => p2 == p + 8 && p + 8 <= bytes@.len() && v == spec_u64_from_le_bytes(
                bytes@.subrange(p as int, p + 8),
            ),
            None => p + 8 > bytes@.len(),
        },
{
    if p <= bytes.len() && bytes.len() - p >= 8 {
        let v = u64_from_le_bytes(slice_subrange(bytes.as_slice(), p, p + 8));
        Some((v, p + 8))
    } else {
        None
    }
}

/// Reads a little-endian u32 at `p`, or fails on truncation.
fn read_u32(bytes: &Vec<u8>, p: usize) -> (r: Option<(u32, usize)>)
    ensures
        match r {
            Some((v, p2)) => p2 == p + 4 && p + 4 <= bytes@.len() && v == spec_u32_from_le_bytes(
                bytes@.subrange(p as int, p + 4),
            ),
            None => p + 4 > bytes@.len(),
        },
{
    if p <= bytes.len() && bytes.len() - p >= 4 {
        let v = u32_from_le_bytes(slice_subrange(bytes.as_slice(), p, p + 4));
        Some((v, p + 4))
    } else {
        None
    }
}

/// Relies on String::from_utf8: returns the string whose UTF-8
/// encoding is the given bytes, and fails exactly on invalid UTF-8.
#[verifier::external_body]
fn bytes_to_string(bytes: Vec<u8>) -> (r: Option<String>)
    ensures
        match r {
            Some(s) => encode_utf8(s@) == bytes@,
            None => forall|t: Seq<char>| encode_utf8(t) != bytes@,
        },
{
    match String::from_utf8(bytes) {
        Ok(s) => Some(s),
        Err(_) => None,
    }
}

/// Compares two byte strings.
fn bytes_eq(a: &Vec<u8>, b: &Vec<u8>) -> (r: bool)
    ensures
        r == (a@ == b@),
{
    if a.len() != b.len() {
        proof {
            assert(a@ != b@);
        }
        return false;
    }
    let n = a.len();
    let mut i: usize = 0;
    while i < n
        invariant
            n == a@.len() == b@.len(),
            i <= n,
            forall|j: int| 0 <= j < i ==> a@[j] == b@[j],
        decreases n - i,
    {
        if a[i] != b[i] {
            return false;
        }
        i = i + 1;
    }
    proof {
        assert(a@ =~= b@);
    }
    true
}

/// A well-formed index presents codec-ready content. Together with
/// `encode`'s exact contract, `decode`'s contract and
/// `lemma_encode_injective`, this pins the round trip down: decoding
/// the encoding of any well-formed index succeeds and returns exactly
/// that index's terms, postings and document id counter.
pub proof fn lemma_index_codec_content(ix: Index)
    requires
        ix.wf(),
    ensures
        codec_content(ix.spec_terms(), ix.spec_postings(), ix.spec_max_doc_id()),
{
    ix.lemma_wf_lens();
    assert forall|i: int, j: int| 0 <= i < j < ix.spec_terms().len() implies ix.spec_terms()[i]
        != ix.spec_terms()[j] by {
        ix.lemma_terms_unique(i, j);
    }
    assert forall|k: int| #![trigger ix.spec_postings()[k]] 0 <= k
        < ix.spec_postings().len() implies ix.spec_postings()[k].wf()
        && ix.spec_postings()[k].sorted() && ix.spec_postings()[k].in_range(
        ix.spec_max_doc_id(),
    ) by {
        ix.lemma_postings_valid(k);
    }
}

/// Parses one term entry at `p`: term byte length, term bytes,
/// postings count, postings. Fails exactly when the suffix at `p` does
/// not begin with the encoding of an entry whose postings list is
/// well-formed, strictly increasing and positive; on success the parsed
/// entry is the one any such encoding carries.
fn parse_entry(bytes: &Vec<u8>, p: usize) -> (r: Option<(String, PostingsList, usize)>)
    requires
        p <= bytes@.len(),
    ensures
        match r {
            Some((term, pl, p2)) => {
                &&& p < p2 <= bytes@.len()
                &&& entry_valid(pl@)
                &&& forall|t2: Seq<char>, pl2: PostingsListView, rest: Seq<u8>|
                    entry_valid(pl2) && bytes@.skip(p as int) == #[trigger] (enc_entry(t2, pl2)
                        + rest) ==> t2 == term@ && pl2 == pl@ && rest == bytes@.skip(p2 as int)
            },
            None => forall|t2: Seq<char>, pl2: PostingsListView, rest: Seq<u8>|
                entry_valid(pl2) ==> bytes@.skip(p as int) != #[trigger] (enc_entry(t2, pl2)
                    + rest),
        },
{
    let blen: usize = bytes.len();
    proof {
        lemma_auto_spec_u64_to_from_le_bytes();
        lemma_auto_spec_u32_to_from_le_bytes();
    }
    // term byte length
    let (tl64, p1): (u64, usize) = match read_u64(bytes, p) {
        Some(x) => x,
        None => {
            proof {
                assert forall|t2: Seq<char>, pl2: PostingsListView, rest: Seq<u8>|
                    entry_valid(pl2) implies bytes@.skip(p as int) != #[trigger] (enc_entry(
                    t2,
                    pl2,
                ) + rest) by {
                    if bytes@.skip(p as int) == enc_entry(t2, pl2) + rest {
                        lemma_enc_entry_len(t2, pl2);
                        assert((enc_entry(t2, pl2) + rest).len() == enc_entry(t2, pl2).len()
                            + rest.len());
                        assert(bytes@.skip(p as int).len() >= 16);
                    }
                }
            }
            return None;
        },
    };
    // tie the read value to any candidate entry encoding
    proof {
        assert forall|t2: Seq<char>, pl2: PostingsListView, rest: Seq<u8>|
            entry_valid(pl2) && bytes@.skip(p as int) == #[trigger] (enc_entry(t2, pl2)
                + rest) implies encode_utf8(t2).len() <= usize::MAX && tl64 == encode_utf8(
            t2,
        ).len() && bytes@.skip(p1 as int) == encode_utf8(t2) + (spec_u64_to_le_bytes(
            pl2.docs.len() as u64,
        ) + (enc_postings_from(pl2, 0) + rest)) by {
            let suf = bytes@.skip(p as int);
            let u2 = encode_utf8(t2);
            let tail = u2 + (spec_u64_to_le_bytes(pl2.docs.len() as u64) + (enc_postings_from(
                pl2,
                0,
            ) + rest));
            lemma_enc_entry_len(t2, pl2);
            lemma_enc_postings_len(pl2, 0);
            assert(suf =~= spec_u64_to_le_bytes(u2.len() as u64) + tail);
            lemma_split_at(suf, spec_u64_to_le_bytes(u2.len() as u64), tail);
            assert(tail.len() == u2.len() + (8 + (12 * pl2.docs.len() + rest.len())));
            assert(u2.len() <= suf.len());
            assert(suf.len() == blen - p);
            lemma_subrange_of_skip(bytes@, p as int, 8);
            assert(bytes@.subrange(p as int, p + 8) == spec_u64_to_le_bytes(u2.len() as u64));
            assert(bytes@.skip(p1 as int) =~= suf.skip(8));
        }
    }
    if tl64 > usize::MAX as u64 || blen - p1 < (tl64 as usize) {
        proof {
            assert forall|t2: Seq<char>, pl2: PostingsListView, rest: Seq<u8>|
                entry_valid(pl2) implies bytes@.skip(p as int) != #[trigger] (enc_entry(t2, pl2)
                + rest) by {
                if bytes@.skip(p as int) == enc_entry(t2, pl2) + rest {
                    lemma_enc_entry_len(t2, pl2);
                    assert((encode_utf8(t2) + (spec_u64_to_le_bytes(pl2.docs.len() as u64) + (
                    enc_postings_from(pl2, 0) + rest))).len() >= encode_utf8(t2).len());
                    assert(bytes@.skip(p1 as int).len() == blen - p1);
                }
            }
        }
        return None;
    }
    let tl: usize = tl64 as usize;
    let tb: Vec<u8> = vstd::slice::slice_to_vec(slice_subrange(bytes.as_slice(), p1, p1 + tl));
    proof {
        assert forall|t2: Seq<char>, pl2: PostingsListView, rest: Seq<u8>|
            entry_valid(pl2) && bytes@.skip(p as int) == #[trigger] (enc_entry(t2, pl2)
                + rest) implies tb@ == encode_utf8(t2) by {
            let u2 = encode_utf8(t2);
            let tail2 = spec_u64_to_le_bytes(pl2.docs.len() as u64) + (enc_postings_from(pl2, 0)
                + rest);
            lemma_split_at(bytes@.skip(p1 as int), u2, tail2);
            lemma_subrange_of_skip(bytes@, p1 as int, tl as int);
        }
    }
    let p_t: usize = p1 + tl;
    let term: String = match bytes_to_string(tb) {
        Some(s) => s,
        None => {
            proof {
                assert forall|t2: Seq<char>, pl2: PostingsListView, rest: Seq<u8>|
                    entry_valid(pl2) implies bytes@.skip(p as int) != #[trigger] (enc_entry(
                    t2,
                    pl2,
                ) + rest) by {
                    if bytes@.skip(p as int) == enc_entry(t2, pl2) + rest {
                        assert(tb@ == encode_utf8(t2));
                    }
                }
            }
            return None;
        },
    };
    // postings count
    let (m64, pp0): (u64, usize) = match read_u64(bytes, p_t) {
        Some(x) => x,
        None => {
            proof {
                assert forall|t2: Seq<char>, pl2: PostingsListView, rest: Seq<u8>|
                    entry_valid(pl2) implies bytes@.skip(p as int) != #[trigger] (enc_entry(
                    t2,
                    pl2,
                ) + rest) by {
                    if bytes@.skip(p as int) == enc_entry(t2, pl2) + rest {
                        let u2 = encode_utf8(t2);
                        let tail2 = spec_u64_to_le_bytes(pl2.docs.len() as u64) + (
                        enc_postings_from(pl2, 0) + rest);
                        lemma_split_at(bytes@.skip(p1 as int), u2, tail2);
                        assert(bytes@.skip(p_t as int) =~= bytes@.skip(p1 as int).skip(tl as int));
                        assert(bytes@.skip(p_t as int).len() == blen - p_t);
                        assert(tail2.len() == 8 + (enc_postings_from(pl2, 0) + rest).len());
                    }
                }
            }
            return None;
        },
    };
    proof {
        assert forall|t2: Seq<char>, pl2: PostingsListView, rest: Seq<u8>|
            entry_valid(pl2) && bytes@.skip(p as int) == #[trigger] (enc_entry(t2, pl2)
                + rest) implies pl2.docs.len() <= usize::MAX && m64 == pl2.docs.len()
            && bytes@.skip(pp0 as int) == enc_postings_from(pl2, 0) + rest by {
            let u2 = encode_utf8(t2);
            let tail2 = spec_u64_to_le_bytes(pl2.docs.len() as u64) + (enc_postings_from(pl2, 0)
                + rest);
            lemma_split_at(bytes@.skip(p1 as int), u2, tail2);
            assert(bytes@.skip(p_t as int) =~= bytes@.skip(p1 as int).skip(tl as int));
            lemma_split_at(
                bytes@.skip(p_t as int),
                spec_u64_to_le_bytes(pl2.docs.len() as u64),
                enc_postings_from(pl2, 0) + rest,
            );
            lemma_enc_postings_len(pl2, 0);
            assert(12 * pl2.docs.len() <= bytes@.skip(p_t as int).len());
            assert(bytes@.skip(p_t as int).len() == blen - p_t);
            lemma_subrange_of_skip(bytes@, p_t as int, 8);
            assert(bytes@.skip(pp0 as int) =~= bytes@.skip(p_t as int).skip(8));
        }
    }
    if m64 > usize::MAX as u64 {
        proof {
            assert forall|t2: Seq<char>, pl2: PostingsListView, rest: Seq<u8>|
                entry_valid(pl2) implies bytes@.skip(p as int) != #[trigger] (enc_entry(t2, pl2)
                + rest) by {
                if bytes@.skip(p as int) == enc_entry(t2, pl2) + rest {
                    assert(pl2.docs.len() <= usize::MAX && m64 == pl2.docs.len());
                }
            }
        }
        return None;
    }
    let m: usize = m64 as usize;
    let mut pl = PostingsList::new();
    let mut pcur: usize = pp0;
    let mut prev_doc: usize = 0;
    let mut j: usize = 0;
    proof {
        assert forall|t2: Seq<char>, pl2: PostingsListView, rest: Seq<u8>|
            entry_valid(pl2) && bytes@.skip(p as int) == #[trigger] (enc_entry(t2, pl2)
                + rest) implies pl2.docs.len() == m && pl@.docs == pl2.docs.take(0)
            && pl@.freqs == pl2.freqs.take(0) by {
            assert(pl2.docs.take(0) =~= Seq::<usize>::empty());
            assert(pl2.freqs.take(0) =~= Seq::<u32>::empty());
        }
    }
    while j < m
        invariant
            blen == bytes@.len(),
            pp0 <= pcur <= blen,
            j <= m,
            pl@.docs.len() == j,
            pl@.freqs.len() == j,
            pl@.sorted(),
            forall|q: int| 0 <= q < j ==> 1 <= #[trigger] pl@.docs[q] <= prev_doc,
            j > 0 ==> prev_doc == pl@.docs[j - 1],
            j == 0 ==> prev_doc == 0,
            forall|t2: Seq<char>, pl2: PostingsListView, rest: Seq<u8>|
                entry_valid(pl2) && bytes@.skip(p as int) == #[trigger] (enc_entry(t2, pl2)
                    + rest) ==> {
                    &&& pl2.docs.len() == m
                    &&& bytes@.skip(pcur as int) == enc_postings_from(pl2, j as int) + rest
                    &&& pl@.docs == pl2.docs.take(j as int)
                    &&& pl@.freqs == pl2.freqs.take(j as int)
                },
        decreases m - j,
    {
        proof {
            lemma_auto_spec_u64_to_from_le_bytes();
            lemma_auto_spec_u32_to_from_le_bytes();
        }
        let (doc64, pd): (u64, usize) = match read_u64(bytes, pcur) {
            Some(x) => x,
            None => {
                proof {
                    assert forall|t2: Seq<char>, pl2: PostingsListView, rest: Seq<u8>|
                        entry_valid(pl2) implies bytes@.skip(p as int) != #[trigger] (enc_entry(
                        t2,
                        pl2,
                    ) + rest) by {
                        if bytes@.skip(p as int) == enc_entry(t2, pl2) + rest {
                            lemma_enc_postings_len(pl2, j as int);
                            assert((enc_postings_from(pl2, j as int) + rest).len()
                                == enc_postings_from(pl2, j as int).len() + rest.len());
                            assert(bytes@.skip(pcur as int).len() == blen - pcur);
                        }
                    }
                }
                return None;
            },
        };
        let (freq, pf): (u32, usize) = match read_u32(bytes, pd) {
            Some(x) => x,
            None => {
                proof {
                    assert forall|t2: Seq<char>, pl2: PostingsListView, rest: Seq<u8>|
                        entry_valid(pl2) implies bytes@.skip(p as int) != #[trigger] (enc_entry(
                        t2,
                        pl2,
                    ) + rest) by {
                        if bytes@.skip(p as int) == enc_entry(t2, pl2) + rest {
                            lemma_enc_postings_len(pl2, j as int);
                            assert((enc_postings_from(pl2, j as int) + rest).len()
                                == enc_postings_from(pl2, j as int).len() + rest.len());
                            assert(bytes@.skip(pcur as int).len() == blen - pcur);
                        }
                    }
                }
                return None;
            },
        };
        proof {
            assert forall|t2: Seq<char>, pl2: PostingsListView, rest: Seq<u8>|
                entry_valid(pl2) && bytes@.skip(p as int) == #[trigger] (enc_entry(t2, pl2)
                    + rest) implies doc64 == pl2.docs[j as int] && freq == pl2.freqs[j as int]
                && bytes@.skip(pf as int) == enc_postings_from(pl2, j + 1) + rest by {
                let d2 = spec_u64_to_le_bytes(pl2.docs[j as int] as u64);
                let f2 = spec_u32_to_le_bytes(pl2.freqs[j as int]);
                let tailp = f2 + (enc_postings_from(pl2, j + 1) + rest);
                assert(bytes@.skip(pcur as int) =~= d2 + tailp);
                lemma_split_at(bytes@.skip(pcur as int), d2, tailp);
                lemma_subrange_of_skip(bytes@, pcur as int, 8);
                assert(bytes@.skip(pd as int) =~= bytes@.skip(pcur as int).skip(8));
                lemma_split_at(bytes@.skip(pd as int), f2, enc_postings_from(pl2, j + 1) + rest);
                lemma_subrange_of_skip(bytes@, pd as int, 4);
                assert(bytes@.skip(pf as int) =~= bytes@.skip(pd as int).skip(4));
            }
        }
        if doc64 > usize::MAX as u64 {
            proof {
                assert forall|t2: Seq<char>, pl2: PostingsListView, rest: Seq<u8>|
                    entry_valid(pl2) implies bytes@.skip(p as int) != #[trigger] (enc_entry(
                    t2,
                    pl2,
                ) + rest) by {
                    if bytes@.skip(p as int) == enc_entry(t2, pl2) + rest {
                        assert(doc64 == pl2.docs[j as int]);
                        assert(pl2.docs[j as int] <= usize::MAX);
                    }
                }
            }
            return None;
        }
        let doc: usize = doc64 as usize;
        if doc <= prev_doc {
            proof {
                assert forall|t2: Seq<char>, pl2: PostingsListView, rest: Seq<u8>|
                    entry_valid(pl2) implies bytes@.skip(p as int) != #[trigger] (enc_entry(
                    t2,
                    pl2,
                ) + rest) by {
                    if bytes@.skip(p as int) == enc_entry(t2, pl2) + rest {
                        if j > 0 {
                            assert(pl@.docs[j - 1] == pl2.docs[j - 1]);
                            assert(pl2.docs[j - 1] < pl2.docs[j as int]);
                        } else {
                            assert(1 <= pl2.docs[j as int]);
                        }
                    }
                }
            }
            return None;
        }
        pl.add(doc, freq);
        prev_doc = doc;
        j = j + 1;
        pcur = pf;
        proof {
            assert forall|t2: Seq<char>, pl2: PostingsListView, rest: Seq<u8>|
                entry_valid(pl2) && bytes@.skip(p as int) == #[trigger] (enc_entry(t2, pl2)
                    + rest) implies pl@.docs == pl2.docs.take(j as int) && pl@.freqs
                == pl2.freqs.take(j as int) by {
                assert(pl2.docs.take(j as int) =~= pl2.docs.take(j - 1).push(pl2.docs[j - 1]));
                assert(pl2.freqs.take(j as int) =~= pl2.freqs.take(j - 1).push(pl2.freqs[j - 1]));
            }
        }
    }
    proof {
        assert forall|t2: Seq<char>, pl2: PostingsListView, rest: Seq<u8>|
            entry_valid(pl2) && bytes@.skip(p as int) == #[trigger] (enc_entry(t2, pl2)
                + rest) implies t2 == term@ && pl2 == pl@ && rest == bytes@.skip(pcur as int) by {
            encode_utf8_decode_utf8(t2);
            encode_utf8_decode_utf8(term@);
            assert(pl@.docs =~= pl2.docs);
            assert(pl@.freqs =~= pl2.freqs);
            assert(pl@ =~= pl2);
            assert(enc_postings_from(pl2, m as int) == Seq::<u8>::empty());
            assert(Seq::<u8>::empty() + rest =~= rest);
        }
    }
    Some((term, pl, pcur))
}

/// Deserializes segment bytes into an `Index`.
///
/// Succeeds exactly on byte strings that are the encoding of some
/// well-formed index content: on `Ok` the returned index is well-formed
/// and re-encodes to the input bytes; on `Err` no well-formed content
/// encodes to them. Truncation, a length prefix overrunning the data,
/// invalid UTF-8, unsorted or out-of-range document ids, a duplicate
/// term, trailing garbage — all are `CodecError`, and nothing partially
/// decoded escapes.
#[verifier::rlimit(100)]
pub fn decode(bytes: &Vec<u8>) -> (r: Result<Index, CodecError>)
    ensures
        match r {
            Ok(ix) => ix.wf() && enc_index(ix.spec_terms(), ix.spec_postings(),
            ix.spec_max_doc_id()) == bytes@,
            Err(e) => e == CodecError::Malformed && forall|
                t: Seq<Seq<char>>,
                pls: Seq<PostingsListView>,
                m: usize,
            | #[trigger] codec_content(t, pls, m) ==> enc_index(t, pls, m) != bytes@,
        },
{
    let blen: usize = bytes.len();
    proof {
        lemma_auto_spec_u64_to_from_le_bytes();
    }
    let (n_terms, p_start): (u64, usize) = match read_u64(bytes, 0) {
        Some(x) => x,
        None => {
            proof {
                assert forall|t: Seq<Seq<char>>, pls: Seq<PostingsListView>, m: usize| #[trigger]
                    codec_content(t, pls, m) implies enc_index(t, pls, m) != bytes@ by {
                    if enc_index(t, pls, m) == bytes@ {
                        lemma_candidate_header(t, pls, m, bytes@);
                    }
                }
            }
            return Err(CodecError::Malformed);
        },
    };
    proof {
        assert forall|t: Seq<Seq<char>>, pls: Seq<PostingsListView>, m: usize|
            codec_content(t, pls, m) && enc_index(t, pls, m) == bytes@ implies t.len()
            < usize::MAX && n_terms == t.len() && bytes@.skip(p_start as int) == enc_entries_from(
            t,
            pls,
            0,
        ) + spec_u64_to_le_bytes(m as u64) by {
            lemma_candidate_header(t, pls, m, bytes@);
        }
    }
    if n_terms > usize::MAX as u64 {
        proof {
            assert forall|t: Seq<Seq<char>>, pls: Seq<PostingsListView>, m: usize| #[trigger]
                codec_content(t, pls, m) implies enc_index(t, pls, m) != bytes@ by {}
        }
        return Err(CodecError::Malformed);
    }
    let n: usize = n_terms as usize;
    let mut entries: Vec<(String, PostingsList)> = Vec::new();
    let mut p: usize = p_start;
    let mut e: usize = 0;
    while e < n
        invariant
            blen == bytes@.len(),
            p <= blen,
            e <= n,
            entries@.len() == e,
            forall|k: int| 0 <= k < entries@.len() ==> entry_valid((#[trigger] entries@[k]).1@),
            forall|t: Seq<Seq<char>>, pls: Seq<PostingsListView>, m: usize|
                codec_content(t, pls, m) && enc_index(t, pls, m) == bytes@ ==> {
                    &&& t.len() == n
                    &&& bytes@.skip(p as int) == enc_entries_from(t, pls, e as int)
                        + spec_u64_to_le_bytes(m as u64)
                    &&& forall|k: int| 0 <= k < e ==> (#[trigger] entries@[k]).0@ == t[k]
                        && entries@[k].1@ == pls[k]
                },
        decreases n - e,
    {
        let step = parse_entry(bytes, p);
        match step {
            None => {
                proof {
                    assert forall|t: Seq<Seq<char>>, pls: Seq<PostingsListView>, m: usize|
                        #[trigger] codec_content(t, pls, m) implies enc_index(t, pls, m)
                        != bytes@ by {
                        if enc_index(t, pls, m) == bytes@ {
                            assert(enc_entries_from(t, pls, e as int) == enc_entry(
                                t[e as int],
                                pls[e as int],
                            ) + enc_entries_from(t, pls, e + 1));
                            assert(bytes@.skip(p as int) =~= enc_entry(t[e as int], pls[e as int])
                                + (enc_entries_from(t, pls, e + 1) + spec_u64_to_le_bytes(
                                m as u64,
                            )));
                            assert(entry_valid(pls[e as int]));
                        }
                    }
                }
                return Err(CodecError::Malformed);
            },
            Some((term, pl, p2)) => {
                let ghost entries0 = entries@;
                entries.push((term, pl));
                proof {
                    assert forall|t: Seq<Seq<char>>, pls: Seq<PostingsListView>, m: usize|
                        codec_content(t, pls, m) && enc_index(t, pls, m) == bytes@ implies {
                        &&& bytes@.skip(p2 as int) == enc_entries_from(t, pls, e + 1)
                            + spec_u64_to_le_bytes(m as u64)
                        &&& forall|k: int| 0 <= k < e + 1 ==> (#[trigger] entries@[k]).0@ == t[k]
                            && entries@[k].1@ == pls[k]
                    } by {
                        assert(enc_entries_from(t, pls, e as int) == enc_entry(
                            t[e as int],
                            pls[e as int],
                        ) + enc_entries_from(t, pls, e + 1));
                        assert(bytes@.skip(p as int) =~= enc_entry(t[e as int], pls[e as int]) + (
                        enc_entries_from(t, pls, e + 1) + spec_u64_to_le_bytes(m as u64)));
                        assert(entry_valid(pls[e as int]));
                        assert(t[e as int] == term@ && pls[e as int] == pl@);
                        assert forall|k: int| 0 <= k < e + 1 implies (#[trigger] entries@[k]).0@
                            == t[k] && entries@[k].1@ == pls[k] by {
                            if k < e {
                                assert(entries@[k] == entries0[k]);
                            }
                        }
                    }
                }
                e = e + 1;
                p = p2;
            },
        }
    }
    let (max64, p_end): (u64, usize) = match read_u64(bytes, p) {
        Some(x) => x,
        None => {
            proof {
                assert forall|t: Seq<Seq<char>>, pls: Seq<PostingsListView>, m: usize| #[trigger]
                    codec_content(t, pls, m) implies enc_index(t, pls, m) != bytes@ by {
                    if enc_index(t, pls, m) == bytes@ {
                        assert(enc_entries_from(t, pls, n as int) == Seq::<u8>::empty());
                        assert(bytes@.skip(p as int) =~= spec_u64_to_le_bytes(m as u64));
                        assert(bytes@.skip(p as int).len() == 8);
                        assert(bytes@.skip(p as int).len() == blen - p);
                    }
                }
            }
            return Err(CodecError::Malformed);
        },
    };
    proof {
        assert forall|t: Seq<Seq<char>>, pls: Seq<PostingsListView>, m: usize|
            codec_content(t, pls, m) && enc_index(t, pls, m) == bytes@ implies max64 == m && p_end
            == blen by {
            assert(enc_entries_from(t, pls, n as int) == Seq::<u8>::empty());
            assert(bytes@.skip(p as int) =~= spec_u64_to_le_bytes(m as u64));
            assert(bytes@.skip(p as int).len() == blen - p);
            lemma_subrange_of_skip(bytes@, p as int, 8);
            assert(bytes@.subrange(p as int, p + 8) =~= bytes@.skip(p as int).subrange(0, 8));
            assert(bytes@.subrange(p as int, p + 8) =~= spec_u64_to_le_bytes(m as u64));
        }
    }
    if max64 > usize::MAX as u64 || p_end != blen {
        proof {
            assert forall|t: Seq<Seq<char>>, pls: Seq<PostingsListView>, m: usize| #[trigger]
                codec_content(t, pls, m) implies enc_index(t, pls, m) != bytes@ by {}
        }
        return Err(CodecError::Malformed);
    }
    let max_doc_id: usize = max64 as usize;

    // The parsed content now pins every candidate: any well-formed
    // content encoding to these bytes equals what was parsed.
    let ghost gterms = entries@.map_values(|en: (String, PostingsList)| en.0@);
    let ghost gpls = entries@.map_values(|en: (String, PostingsList)| en.1@);
    proof {
        assert forall|t: Seq<Seq<char>>, pls: Seq<PostingsListView>, m: usize|
            codec_content(t, pls, m) && enc_index(t, pls, m) == bytes@ implies t == gterms && pls
            == gpls && m == max_doc_id by {
            assert(t =~= gterms);
            assert(pls =~= gpls);
        }
    }

    // Rebuild the index, validating document id range and term
    // uniqueness; order and parallel lengths were enforced while parsing.
    let mut ix = Index::new();
    ix.set_max_doc_id(max_doc_id);
    let ghost total = gterms.len();
    proof {
        assert(ix.spec_terms() =~= gterms.take(0));
        assert(ix.spec_postings() =~= gpls.take(0));
    }
    while entries.len() > 0
        invariant
            ix.wf(),
            ix.spec_max_doc_id() == max_doc_id,
            total == gterms.len() == gpls.len(),
            entries@.len() <= total,
            ix.spec_terms().len() == total - entries@.len(),
            ix.spec_terms() == gterms.take(total - entries@.len()),
            ix.spec_postings() == gpls.take(total - entries@.len()),
            forall|k: int| 0 <= k < entries@.len() ==> (#[trigger] entries@[k]).0@ == gterms[total
                - entries@.len() + k] && entries@[k].1@ == gpls[total - entries@.len() + k],
            forall|k: int| 0 <= k < gpls.len() ==> entry_valid(#[trigger] gpls[k]),
            forall|t: Seq<Seq<char>>, pls: Seq<PostingsListView>, m: usize|
                codec_content(t, pls, m) && enc_index(t, pls, m) == bytes@ ==> t == gterms && pls
                    == gpls && m == max_doc_id,
        decreases entries@.len(),
    {
        let ghost pushed = total - entries@.len();
        let ghost entries0 = entries@;
        let (term, pl) = entries.remove(0);
        proof {
            assert(term == entries0[0].0 && pl == entries0[0].1);
            assert forall|k: int| 0 <= k < entries@.len() implies (#[trigger] entries@[k]).0@
                == gterms[pushed + 1 + k] && entries@[k].1@ == gpls[pushed + 1 + k] by {
                assert(entries@[k] == entries0[k + 1]);
            }
        }
        if ix.get_postings_list(&term).is_some() {
            proof {
                ix.lemma_get_some_iff_term(term@);
                assert forall|t: Seq<Seq<char>>, pls: Seq<PostingsListView>, m: usize| #[trigger]
                    codec_content(t, pls, m) implies enc_index(t, pls, m) != bytes@ by {
                    if enc_index(t, pls, m) == bytes@ {
                        let i = choose|i: int| 0 <= i < ix.spec_terms().len() && ix.spec_terms()[i]
                            == term@;
                        assert(gterms[i] == term@);
                        assert(gterms[pushed as int] == term@);
                        assert(t[i] == t[pushed as int]);
                    }
                }
            }
            return Err(CodecError::Malformed);
        }
        let m: usize = pl.len();
        let mut jj: usize = 0;
        while jj < m
            invariant
                m == pl@.docs.len(),
                jj <= m,
                total == gterms.len() == gpls.len(),
                0 <= pushed < total,
                forall|q: int| 0 <= q < pl@.docs.len() ==> 1 <= #[trigger] pl@.docs[q],
                forall|q: int| 0 <= q < jj ==> #[trigger] pl@.docs[q] <= max_doc_id,
                pl@ == gpls[pushed as int],
                forall|t: Seq<Seq<char>>, pls: Seq<PostingsListView>, m2: usize|
                    codec_content(t, pls, m2) && enc_index(t, pls, m2) == bytes@ ==> t == gterms
                        && pls == gpls && m2 == max_doc_id,
            decreases m - jj,
        {
            let doc: usize = pl.get_doc_id(jj).unwrap();
            if doc > max_doc_id {
                proof {
                    assert forall|t: Seq<Seq<char>>, pls: Seq<PostingsListView>, m2: usize|
                        #[trigger] codec_content(t, pls, m2) implies enc_index(t, pls, m2)
                        != bytes@ by {
                        if enc_index(t, pls, m2) == bytes@ {
                            assert(t == gterms && pls == gpls && m2 == max_doc_id);
                            assert(pls.len() == t.len());
                            assert(0 <= pushed < pls.len());
                            assert(pls[pushed as int].in_range(m2));
                            assert(gpls[pushed as int].in_range(m2));
                            assert(pl@.in_range(m2));
                            assert(pl@.docs[jj as int] <= m2);
                        }
                    }
                }
                return Err(CodecError::Malformed);
            }
            jj = jj + 1;
        }
        ix.push_entry(term, pl);
        proof {
            assert(ix.spec_terms() =~= gterms.take(pushed + 1));
            assert(ix.spec_postings() =~= gpls.take(pushed + 1));
        }
    }

    // A successful decode re-encodes to the input bytes.
    let re: Vec<u8> = encode(&ix);
    if bytes_eq(&re, bytes) {
        Ok(ix)
    } else {
        proof {
            assert forall|t: Seq<Seq<char>>, pls: Seq<PostingsListView>, m: usize| #[trigger]
                codec_content(t, pls, m) implies enc_index(t, pls, m) != bytes@ by {
                if enc_index(t, pls, m) == bytes@ {
                    assert(ix.spec_terms() =~= gterms);
                    assert(ix.spec_postings() =~= gpls);
                    assert(re@ == enc_index(t, pls, m));
                }
            }
        }
        Err(CodecError::Malformed)
    }
}

} // verus!
