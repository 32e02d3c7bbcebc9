//! Whitespace tokenization of document text.
//!
//! `analyze` splits text on maximal runs of ASCII whitespace, preserving
//! order and duplicates. No casefolding, normalization or punctuation
//! stripping is performed.

use vstd::prelude::*;

verus! {

/// True for the five ASCII whitespace characters.
pub open spec fn is_space(c: char) -> bool {
    c == ' ' || c == '\t' || c == '\n' || c == '\r' || c == '\x0c'
}

/// Position of the first whitespace character at or after `i`, or the
/// length of `s` when the rest of `s` is whitespace-free.
pub open spec fn word_end(s: Seq<char>, i: int) -> int
    decreases s.len() - i,
{
    if i < 0 || i >= s.len() || is_space(s[i]) {
        i
    } else {
        word_end(s, i + 1)
    }
}

/// The token sequence of the suffix of `s` that starts at `i`.
pub open spec fn tokens_from(s: Seq<char>, i: int) -> Seq<Seq<char>>
    decreases s.len() - i,
    via tokens_from_decreases
{
    if i < 0 || i >= s.len() {
        Seq::empty()
    } else if is_space(s[i]) {
        tokens_from(s, i + 1)
    } else {
        seq![s.subrange(i, word_end(s, i))] + tokens_from(s, word_end(s, i))
    }
}

#[via_fn]
proof fn tokens_from_decreases(s: Seq<char>, i: int) {
    if 0 <= i && i < s.len() && !is_space(s[i]) {
        lemma_word_end_bounds(s, i + 1);
        assert(word_end(s, i) == word_end(s, i + 1));
    }
}

/// The sequence of tokens of `s`: the maximal whitespace-free runs of `s`,
/// in order.
pub open spec fn tokens_of(s: Seq<char>) -> Seq<Seq<char>> {
    tokens_from(s, 0)
}

/// One surface term produced by `analyze`. Equality is by string content.
#[derive(Debug, PartialEq, Clone)]
pub struct Token {
    pub token: String,
}

impl View for Token {
    type V = Seq<char>;

    open spec fn view(&self) -> Seq<char> {
        self.token@
    }
}

proof fn lemma_word_end_bounds(s: Seq<char>, i: int)
    requires
        0 <= i <= s.len(),
    ensures
        i <= word_end(s, i) <= s.len(),
        forall|j: int| i <= j < word_end(s, i) ==> !is_space(s[j]),
        word_end(s, i) < s.len() ==> is_space(s[word_end(s, i)]),
    decreases s.len() - i,
{
    if i < s.len() && !is_space(s[i]) {
        lemma_word_end_bounds(s, i + 1);
    }
}

/// Splits `text` into tokens on maximal runs of ASCII whitespace.
/// Empty or whitespace-only input yields the empty sequence.
pub fn analyze(text: &String) -> (r: Vec<Token>)
    ensures
        r@.len() == tokens_of(text@).len(),
        forall|k: int| 0 <= k < r@.len() ==> r@[k]@ == tokens_of(text@)[k],
{
    let s: &str = text.as_str();
    let n: usize = s.unicode_len();
    let mut out: Vec<Token> = Vec::new();
    let mut i: usize = 0;
    while i < n
        invariant
            n == s@.len(),
            s@ == text@,
            0 <= i <= n,
            tokens_of(text@) == out@.map_values(|t: Token| t@) + tokens_from(s@, i as int),
        decreases n - i,
    {
        let c = s.get_char(i);
        if is_space_exec(c) {
            i = i + 1;
        } else {
            proof {
                lemma_word_end_bounds(s@, i as int);
            }
            let mut j: usize = i + 1;
            while j < n && !is_space_exec(s.get_char(j))
                invariant
                    n == s@.len(),
                    i < j <= n,
                    forall|t: int| i <= t < j ==> !is_space(s@[t]),
                decreases n - j,
            {
                j = j + 1;
            }
            assert(word_end(s@, i as int) == j as int) by {
                lemma_word_end_agrees(s@, i as int, j as int);
            }
            let word: String = s.substring_char(i, j).to_owned();
            out.push(Token { token: word });
            proof {
                assert(out@.map_values(|t: Token| t@) =~= out@.subrange(
                    0,
                    out@.len() - 1,
                ).map_values(|t: Token| t@) + seq![s@.subrange(i as int, j as int)]);
            }
            i = j;
        }
    }
    proof {
        assert(r_matches_tokens(out@, text@)) by {
            assert(tokens_of(text@) =~= out@.map_values(|t: Token| t@));
        }
    }
    out
}

spec fn r_matches_tokens(r: Seq<Token>, text: Seq<char>) -> bool {
    r.len() == tokens_of(text).len() && forall|k: int|
        0 <= k < r.len() ==> r[k]@ == tokens_of(text)[k]
}

proof fn lemma_word_end_agrees(s: Seq<char>, i: int, j: int)
    requires
        0 <= i < j <= s.len(),
        forall|t: int| i <= t < j ==> !is_space(s[t]),
        j < s.len() ==> is_space(s[j]),
    ensures
        word_end(s, i) == j,
    decreases j - i,
{
    assert(word_end(s, i) == word_end(s, i + 1));
    if i + 1 < j {
        lemma_word_end_agrees(s, i + 1, j);
    } else {
        assert(word_end(s, j) == j);
    }
}

/// A text never has more tokens than characters: each token holds at
/// least one character.
pub proof fn lemma_tokens_from_len(s: Seq<char>, i: int)
    requires
        0 <= i <= s.len(),
    ensures
        tokens_from(s, i).len() <= s.len() - i,
    decreases s.len() - i,
{
    if i < s.len() {
        if is_space(s[i]) {
            lemma_tokens_from_len(s, i + 1);
        } else {
            lemma_word_end_bounds(s, i + 1);
            assert(word_end(s, i) == word_end(s, i + 1));
            lemma_tokens_from_len(s, word_end(s, i));
        }
    }
}

/// A word: nonempty and free of whitespace, as every token is.
pub open spec fn wordlike(t: Seq<char>) -> bool {
    t.len() > 0 && forall|j: int| 0 <= j < t.len() ==> !is_space(t[j])
}

/// Every token of a text is nonempty and free of whitespace.
pub proof fn lemma_tokens_from_shape(s: Seq<char>, i: int)
    requires
        0 <= i <= s.len(),
    ensures
        forall|k: int| 0 <= k < tokens_from(s, i).len() ==> wordlike(
            #[trigger] tokens_from(s, i)[k],
        ),
    decreases s.len() - i,
{
    if i < s.len() {
        if is_space(s[i]) {
            lemma_tokens_from_shape(s, i + 1);
            assert forall|k: int| 0 <= k < tokens_from(s, i).len() implies wordlike(
                #[trigger] tokens_from(s, i)[k],
            ) by {
                assert(tokens_from(s, i)[k] == tokens_from(s, i + 1)[k]);
            }
        } else {
            lemma_word_end_bounds(s, i);
            lemma_word_end_bounds(s, i + 1);
            assert(word_end(s, i) == word_end(s, i + 1));
            let e = word_end(s, i);
            lemma_tokens_from_shape(s, e);
            let w = s.subrange(i, e);
            assert(w.len() > 0);
            assert forall|j: int| 0 <= j < w.len() implies !is_space(w[j]) by {
                assert(w[j] == s[i + j]);
            }
            assert(wordlike(w));
            assert(tokens_from(s, i) == seq![w] + tokens_from(s, e));
            assert forall|k: int| 0 <= k < tokens_from(s, i).len() implies wordlike(
                #[trigger] tokens_from(s, i)[k],
            ) by {
                if k == 0 {
                    assert((seq![w] + tokens_from(s, e))[0] == w);
                } else {
                    assert((seq![w] + tokens_from(s, e))[k] == tokens_from(s, e)[k - 1]);
                }
            }
        }
    }
}

/// `tokens_from` on a suffix is tokenization of that suffix.
proof fn lemma_tokens_from_suffix(s: Seq<char>, i: int)
    requires
        0 <= i <= s.len(),
    ensures
        tokens_from(s, i) == tokens_of(s.skip(i)),
    decreases s.len() - i,
{
    let t = s.skip(i);
    if i < s.len() {
        if is_space(s[i]) {
            lemma_tokens_from_suffix(s, i + 1);
            assert(t.skip(1) =~= s.skip(i + 1));
            lemma_tokens_from_suffix(t, 1);
        } else {
            lemma_word_end_bounds(s, i);
            let e = word_end(s, i);
            assert forall|q: int| 0 <= q < e - i implies !is_space(t[q]) by {
                assert(t[q] == s[i + q]);
            }
            if e - i < t.len() {
                assert(t[e - i] == s[e]);
            }
            lemma_word_end_agrees(t, 0, e - i);
            assert(word_end(t, 0) == e - i);
            assert(s.subrange(i, e) =~= t.subrange(0, e - i));
            lemma_tokens_from_suffix(s, e);
            lemma_tokens_from_suffix(t, e - i);
            assert(t.skip(e - i) =~= s.skip(e));
            assert(tokens_from(s, i) == seq![s.subrange(i, e)] + tokens_from(s, e));
            assert(tokens_from(t, 0) == seq![t.subrange(0, e - i)] + tokens_from(t, e - i));
        }
    } else {
        assert(t.len() == 0);
    }
}

/// The text that joins the given tokens with single spaces.
pub open spec fn join_tokens(ts: Seq<Seq<char>>) -> Seq<char>
    decreases ts.len(),
{
    if ts.len() == 0 {
        Seq::empty()
    } else if ts.len() == 1 {
        ts[0]
    } else {
        ts[0] + seq![' '] + join_tokens(ts.drop_first())
    }
}

/// Tokenizing a single-space join of words gives back the words.
pub proof fn lemma_join_tokens(ts: Seq<Seq<char>>)
    requires
        forall|k: int| 0 <= k < ts.len() ==> wordlike(#[trigger] ts[k]),
    ensures
        tokens_of(join_tokens(ts)) == ts,
    decreases ts.len(),
{
    if ts.len() == 0 {
    } else if ts.len() == 1 {
        let s = ts[0];
        assert(wordlike(s));
        lemma_word_end_agrees(s, 0, s.len() as int);
        assert(tokens_of(s) == seq![s.subrange(0, s.len() as int)] + tokens_from(
            s,
            s.len() as int,
        ));
        assert(s.subrange(0, s.len() as int) =~= s);
        assert(tokens_of(s) =~= seq![s]);
        assert(ts =~= seq![s]);
    } else {
        let w = ts[0];
        let rest = ts.drop_first();
        let s = join_tokens(ts);
        let wl = w.len() as int;
        assert(wordlike(w));
        assert(s == w + seq![' '] + join_tokens(rest));
        assert forall|q: int| 0 <= q < wl implies !is_space(s[q]) by {
            assert(s[q] == w[q]);
        }
        assert(s[wl] == ' ');
        lemma_word_end_agrees(s, 0, wl);
        assert(tokens_of(s) == seq![s.subrange(0, wl)] + tokens_from(s, wl));
        assert(s.subrange(0, wl) =~= w);
        assert(tokens_from(s, wl) == tokens_from(s, wl + 1));
        lemma_tokens_from_suffix(s, wl + 1);
        assert(s.skip(wl + 1) =~= join_tokens(rest));
        assert forall|k: int| 0 <= k < rest.len() implies wordlike(#[trigger] rest[k]) by {
            assert(rest[k] == ts[k + 1]);
        }
        lemma_join_tokens(rest);
        assert(tokens_of(s) =~= seq![w] + rest);
        assert(ts =~= seq![w] + rest);
    }
}

/// Tokenization is idempotent through a single-space join: joining the
/// tokens of any text with single spaces and tokenizing again gives the
/// same token sequence.
pub proof fn lemma_analyze_idempotent(text: Seq<char>)
    ensures
        tokens_of(join_tokens(tokens_of(text))) == tokens_of(text),
{
    lemma_tokens_from_shape(text, 0);
    lemma_join_tokens(tokens_of(text));
}

/// Executable test for ASCII whitespace, matching `is_space`.
pub fn is_space_exec(c: char) -> (r: bool)
    ensures
        r == is_space(c),
{
    c == ' ' || c == '\t' || c == '\n' || c == '\r' || c == '\x0c'
}

} // verus!
