//! Subsequence fuzzy matching with a quality score.
//!
//! A non-empty query matches a search string when the query's bytes occur in
//! the string, in order, with ASCII letters compared case-insensitively.  The
//! matcher walks the string left to right and takes each query byte at its
//! first opportunity; the score rewards contiguous runs, matches at word
//! starts, and case-exact matches, so that a matched entry never scores 0.

use vstd::prelude::*;

verus! {

/// ASCII case folding: upper-case letters are mapped to lower case, every
/// other byte is left alone.
pub open spec fn fold_spec(b: u8) -> u8 {
    if 65 <= b && b <= 90 {
        (b + 32) as u8
    } else {
        b
    }
}

/// Executable twin of `fold_spec`.
pub fn fold_byte(b: u8) -> (r: u8)
    ensures
        r == fold_spec(b),
{
    if 65 <= b && b <= 90 {
        b + 32
    } else {
        b
    }
}

/// Bytes that separate words inside a search string; a match right after one
/// of these earns the word-start bonus.
pub open spec fn is_separator_spec(b: u8) -> bool {
    b == 32 || b == 45 || b == 95 || b == 46 || b == 47
}

/// Executable twin of `is_separator_spec`.
pub fn is_separator(b: u8) -> (r: bool)
    ensures
        r == is_separator_spec(b),
{
    b == 32 || b == 45 || b == 95 || b == 46 || b == 47
}

/// The greedy matcher, as a relation on suffixes: does the query suffix
/// `p[qi..]` match the text suffix `t[ti..]`, taking each query byte at the
/// first position where it fits?
pub open spec fn match_from(t: Seq<u8>, p: Seq<u8>, ti: int, qi: int) -> bool
    decreases t.len() - ti
        when 0 <= ti <= t.len()
{
    if qi >= p.len() {
        true
    } else if ti >= t.len() {
        false
    } else if fold_spec(t[ti]) == fold_spec(p[qi]) {
        match_from(t, p, ti + 1, qi + 1)
    } else {
        match_from(t, p, ti + 1, qi)
    }
}

/// The byte positions in `t` that the greedy matcher takes for `p[qi..]`,
/// starting the walk at `ti`.  Positions are absolute offsets into `t`.
pub open spec fn indices_from(t: Seq<u8>, p: Seq<u8>, ti: int, qi: int) -> Seq<int>
    decreases t.len() - ti
        when 0 <= ti <= t.len()
{
    if qi >= p.len() || ti >= t.len() {
        Seq::empty()
    } else if fold_spec(t[ti]) == fold_spec(p[qi]) {
        seq![ti] + indices_from(t, p, ti + 1, qi + 1)
    } else {
        indices_from(t, p, ti + 1, qi)
    }
}

/// Quality contributed by matching query byte `pb` at position `ti` of `t`,
/// when the previous query byte was taken at position `last` (or `last < 0`
/// when there is none): one point for the match itself, two more when the
/// match continues a run, one more at a word start, one more when the case
/// agrees exactly.
pub open spec fn bonus_spec(t: Seq<u8>, ti: int, pb: u8, last: int) -> int {
    1 + (if last >= 0 && ti == last + 1 {
        2int
    } else {
        0int
    }) + (if ti == 0 || is_separator_spec(t[ti - 1]) {
        1int
    } else {
        0int
    }) + (if t[ti] == pb {
        1int
    } else {
        0int
    })
}

/// Total score gathered by the greedy matcher from state `(ti, qi, last)` on.
pub open spec fn score_from(t: Seq<u8>, p: Seq<u8>, ti: int, qi: int, last: int) -> int
    decreases t.len() - ti
        when 0 <= ti <= t.len()
{
    if qi >= p.len() || ti >= t.len() {
        0
    } else if fold_spec(t[ti]) == fold_spec(p[qi]) {
        bonus_spec(t, ti, p[qi], last) + score_from(t, p, ti + 1, qi + 1, ti)
    } else {
        score_from(t, p, ti + 1, qi, last)
    }
}

/// Does the non-empty query `p` fuzzy-match the search string `t`?
pub open spec fn fuzzy_matches(t: Seq<u8>, p: Seq<u8>) -> bool {
    match_from(t, p, 0, 0)
}

/// The matched byte offsets reported for query `p` against `t`.
pub open spec fn fuzzy_indices_spec(t: Seq<u8>, p: Seq<u8>) -> Seq<int> {
    indices_from(t, p, 0, 0)
}

/// The score reported for query `p` against `t`.
pub open spec fn fuzzy_score_spec(t: Seq<u8>, p: Seq<u8>) -> int {
    score_from(t, p, 0, 0, -1)
}

/// `w` embeds `p[qi..]` into `t` at strictly increasing positions, all at or
/// after `ti`, matching bytes up to case folding.
pub open spec fn is_witness_from(t: Seq<u8>, p: Seq<u8>, ti: int, qi: int, w: Seq<int>) -> bool {
    &&& w.len() == p.len() - qi
    &&& forall|k: int|
        0 <= k < w.len() ==> ti <= #[trigger] w[k] < t.len() && fold_spec(t[w[k]]) == fold_spec(
            p[qi + k],
        )
    &&& forall|k: int| 0 < k < w.len() ==> #[trigger] w[k] > w[k - 1]
}

/// `p` is a subsequence of `t` up to case folding: some strictly increasing
/// choice of positions in `t` spells out `p`.
pub open spec fn is_subsequence(p: Seq<u8>, t: Seq<u8>) -> bool {
    exists|w: Seq<int>| is_witness_from(t, p, 0, 0, w)
}

/// When the greedy matcher accepts a suffix pair, an embedding of that query
/// suffix into the text exists.
proof fn lemma_match_from_gives_witness(t: Seq<u8>, p: Seq<u8>, ti: int, qi: int)
    requires
        0 <= ti <= t.len(),
        0 <= qi <= p.len(),
        match_from(t, p, ti, qi),
    ensures
        exists|w: Seq<int>| is_witness_from(t, p, ti, qi, w),
    decreases t.len() - ti,
{
    if qi >= p.len() {
        let w = Seq::<int>::empty();
        assert(is_witness_from(t, p, ti, qi, w));
    } else if fold_spec(t[ti]) == fold_spec(p[qi]) {
        lemma_match_from_gives_witness(t, p, ti + 1, qi + 1);
        let ti1 = ti + 1;
        let qi1 = qi + 1;
        let w0 = choose|w0: Seq<int>| is_witness_from(t, p, ti1, qi1, w0);
        let w = seq![ti] + w0;
        assert forall|k: int| 0 <= k < w.len() implies ti <= #[trigger] w[k] < t.len()
            && fold_spec(t[w[k]]) == fold_spec(p[qi + k]) by {
            if k > 0 {
                assert(w[k] == w0[k - 1]);
            }
        }
        assert forall|k: int| 0 < k < w.len() implies #[trigger] w[k] > w[k - 1] by {
            if k == 1 {
                assert(w[1] == w0[0] >= ti + 1);
            } else {
                assert(w[k] == w0[k - 1] && w[k - 1] == w0[k - 2]);
            }
        }
        assert(is_witness_from(t, p, ti, qi, w));
    } else {
        lemma_match_from_gives_witness(t, p, ti + 1, qi);
        let ti1 = ti + 1;
        let w0 = choose|w0: Seq<int>| is_witness_from(t, p, ti1, qi, w0);
        assert(is_witness_from(t, p, ti, qi, w0));
    }
}

/// When an embedding of the query suffix exists, the greedy matcher accepts:
/// taking the first fitting position never loses a match.
proof fn lemma_witness_gives_match_from(t: Seq<u8>, p: Seq<u8>, ti: int, qi: int, w: Seq<int>)
    requires
        0 <= ti <= t.len(),
        0 <= qi <= p.len(),
        is_witness_from(t, p, ti, qi, w),
    ensures
        match_from(t, p, ti, qi),
    decreases t.len() - ti,
{
    if qi >= p.len() {
    } else {
        assert(w.len() > 0);
        assert(ti <= w[0] < t.len());
        if fold_spec(t[ti]) == fold_spec(p[qi]) {
            let w2 = w.skip(1);
            assert forall|k: int| 0 <= k < w2.len() implies ti + 1 <= #[trigger] w2[k] < t.len()
                && fold_spec(t[w2[k]]) == fold_spec(p[qi + 1 + k]) by {
                assert(w2[k] == w[k + 1]);
                assert(w[k + 1] > w[k + 1 - 1] || k + 1 == 0);
                if k == 0 {
                    assert(w[1] > w[0] >= ti);
                } else {
                    assert(w[k + 1] > w[k] > w[k - 1] || k < 1);
                    assert(w[k + 1] >= ti + 1) by {
                        assert(w[k + 1] > w[k] && w[k] >= ti);
                    }
                }
            }
            assert forall|k: int| 0 < k < w2.len() implies #[trigger] w2[k] > w2[k - 1] by {
                assert(w2[k] == w[k + 1] && w2[k - 1] == w[k]);
            }
            assert(is_witness_from(t, p, ti + 1, qi + 1, w2));
            lemma_witness_gives_match_from(t, p, ti + 1, qi + 1, w2);
        } else {
            assert(w[0] != ti);
            assert forall|k: int| 0 <= k < w.len() implies ti + 1 <= #[trigger] w[k] by {
                if k == 0 {
                    assert(w[0] > ti || w[0] == ti);
                } else {
                    assert(w[k] >= ti) by {
                        assert(ti <= w[k] < t.len());
                    }
                    assert(w[k] != ti) by {
                        if k > 0 {
                            assert(w[k] > w[k - 1] >= ti);
                        }
                    }
                }
            }
            assert(is_witness_from(t, p, ti + 1, qi, w));
            lemma_witness_gives_match_from(t, p, ti + 1, qi, w);
        }
    }
}

/// The matcher accepts a query exactly when the query is a case-folded
/// subsequence of the search string.  In particular a query that embeds into
/// the string never scores 0, and once trailing bytes make the embedding
/// impossible the match is gone.
pub proof fn lemma_match_iff_subsequence(t: Seq<u8>, p: Seq<u8>)
    ensures
        fuzzy_matches(t, p) <==> is_subsequence(p, t),
{
    if fuzzy_matches(t, p) {
        lemma_match_from_gives_witness(t, p, 0, 0);
    }
    if is_subsequence(p, t) {
        let w = choose|w: Seq<int>| is_witness_from(t, p, 0, 0, w);
        lemma_witness_gives_match_from(t, p, 0, 0, w);
    }
}

/// A successful greedy match of a non-exhausted query gathers at least one
/// point per remaining query byte.
proof fn lemma_score_from_lower(t: Seq<u8>, p: Seq<u8>, ti: int, qi: int, last: int)
    requires
        0 <= ti <= t.len(),
        0 <= qi <= p.len(),
        match_from(t, p, ti, qi),
    ensures
        score_from(t, p, ti, qi, last) >= p.len() - qi,
    decreases t.len() - ti,
{
    if qi >= p.len() || ti >= t.len() {
    } else if fold_spec(t[ti]) == fold_spec(p[qi]) {
        lemma_score_from_lower(t, p, ti + 1, qi + 1, ti);
    } else {
        lemma_score_from_lower(t, p, ti + 1, qi, last);
    }
}

/// Each matched byte is worth at most 5 points, so the total score is small.
proof fn lemma_score_from_upper(t: Seq<u8>, p: Seq<u8>, ti: int, qi: int, last: int)
    requires
        0 <= ti <= t.len(),
        0 <= qi <= p.len(),
    ensures
        score_from(t, p, ti, qi, last) <= 5 * (p.len() - qi),
        score_from(t, p, ti, qi, last) >= 0,
    decreases t.len() - ti,
{
    if qi >= p.len() || ti >= t.len() {
    } else if fold_spec(t[ti]) == fold_spec(p[qi]) {
        lemma_score_from_upper(t, p, ti + 1, qi + 1, ti);
    } else {
        lemma_score_from_upper(t, p, ti + 1, qi, last);
    }
}

/// A successful match of a non-empty query always earns a positive score.
pub proof fn lemma_match_score_positive(t: Seq<u8>, p: Seq<u8>)
    requires
        p.len() > 0,
        fuzzy_matches(t, p),
    ensures
        fuzzy_score_spec(t, p) >= 1,
{
    lemma_score_from_lower(t, p, 0, 0, -1);
}

/// Fuzzy-match the non-empty query `pattern` against `text`.
///
/// Returns the score and the matched byte offsets into `text` when the query
/// is a case-folded subsequence of the text, and `None` otherwise.  The
/// offsets are strictly increasing and the score of a match is positive.
pub fn fuzzy_match(text: &[u8], pattern: &[u8]) -> (r: Option<(i64, Vec<usize>)>)
    requires
        1 <= pattern@.len() <= 0xffff_ffff,
        text@.len() <= 0xffff_ffff,
    ensures
        r is Some <==> fuzzy_matches(text@, pattern@),
        match r {
            Some((score, idx)) => {
                &&& score == fuzzy_score_spec(text@, pattern@)
                &&& score >= 1
                &&& idx@.map_values(|u: usize| u as int) == fuzzy_indices_spec(text@, pattern@)
                &&& forall|k: int| 0 <= k < idx@.len() ==> #[trigger] idx@[k] < text@.len()
                &&& forall|k: int| 0 < k < idx@.len() ==> #[trigger] idx@[k] > idx@[k - 1]
            },
            None => true,
        },
{
    let t_len = text.len();
    let p_len = pattern.len();
    let mut ti: usize = 0;
    let mut qi: usize = 0;
    let mut score: i64 = 0;
    let mut last: i64 = -1;
    let mut idx: Vec<usize> = Vec::new();
    while ti < t_len && qi < p_len
        invariant
            t_len == text@.len(),
            p_len == pattern@.len(),
            1 <= p_len <= 0xffff_ffff,
            t_len <= 0xffff_ffff,
            0 <= ti <= t_len,
            0 <= qi <= p_len,
            qi <= ti,
            fuzzy_matches(text@, pattern@) == match_from(text@, pattern@, ti as int, qi as int),
            fuzzy_score_spec(text@, pattern@) == score + score_from(
                text@,
                pattern@,
                ti as int,
                qi as int,
                last as int,
            ),
            fuzzy_indices_spec(text@, pattern@) == idx@.map_values(|u: usize| u as int)
                + indices_from(text@, pattern@, ti as int, qi as int),
            idx@.len() == qi,
            qi <= score <= 5 * qi,
            last < ti,
            qi == 0 ==> last == -1,
            qi > 0 ==> 0 <= last && idx@[qi - 1] == last,
            forall|k: int| 0 <= k < idx@.len() ==> #[trigger] idx@[k] < ti,
            forall|k: int| 0 < k < idx@.len() ==> #[trigger] idx@[k] > idx@[k - 1],
        decreases t_len - ti,
    {
        let tb = text[ti];
        let pb = pattern[qi];
        if fold_byte(tb) == fold_byte(pb) {
            let mut bonus: i64 = 1;
            if last >= 0 && ti as i64 == last + 1 {
                bonus += 2;
            }
            if ti == 0 || is_separator(text[ti - 1]) {
                bonus += 1;
            }
            if tb == pb {
                bonus += 1;
            }
            assert(bonus == bonus_spec(text@, ti as int, pattern@[qi as int], last as int));
            let ghost old_idx = idx@;
            score = score + bonus;
            idx.push(ti);
            assert(old_idx.map_values(|u: usize| u as int) + (seq![ti as int] + indices_from(
                text@,
                pattern@,
                ti + 1,
                qi + 1,
            )) =~= idx@.map_values(|u: usize| u as int) + indices_from(
                text@,
                pattern@,
                ti + 1,
                qi + 1,
            ));
            last = ti as i64;
            qi = qi + 1;
        }
        ti = ti + 1;
    }
    if qi == p_len {
        assert(match_from(text@, pattern@, ti as int, qi as int));
        assert(score_from(text@, pattern@, ti as int, qi as int, last as int) == 0);
        assert(indices_from(text@, pattern@, ti as int, qi as int) =~= Seq::<int>::empty());
        assert(idx@.map_values(|u: usize| u as int) + Seq::<int>::empty() =~= idx@.map_values(
            |u: usize| u as int,
        ));
        Some((score, idx))
    } else {
        assert(ti == t_len);
        assert(!match_from(text@, pattern@, ti as int, qi as int));
        None
    }
}

} // verus!

