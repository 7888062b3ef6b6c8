//! The mathematical model of substring matching: what it means for the word
//! to occur at a position, and the greedy left-to-right count of
//! non-overlapping occurrences that every scanner and strategy is held to.

use vstd::prelude::*;

verus! {

/// The word `w` occurs in `text` starting at byte offset `q`.
pub open spec fn match_at(text: Seq<u8>, w: Seq<u8>, q: int) -> bool {
    &&& 0 <= q
    &&& q + w.len() <= text.len()
    &&& forall|t: int| 0 <= t < w.len() ==> text[q + t] == w[t]
}

/// Greedy left-to-right count of non-overlapping occurrences of `w` in
/// `text`, counting only occurrences that end strictly after offset `cut`.
///
/// Scanning walks the text from the left; at each occurrence the scan resumes
/// immediately after it (non-overlapping semantics), and the occurrence is
/// counted unless it ends at or before `cut`.  The `cut` threshold is how a
/// fragment declines to count matches that lie entirely inside the overlap
/// it shares with its predecessor.  An empty word matches nowhere.
pub open spec fn trimmed_count(text: Seq<u8>, w: Seq<u8>, cut: int) -> nat
    decreases text.len(),
{
    if w.len() == 0 || text.len() < w.len() {
        0
    } else if match_at(text, w, 0) {
        (if w.len() > cut { 1nat } else { 0nat })
            + trimmed_count(text.skip(w.len() as int), w, cut - w.len())
    } else {
        trimmed_count(text.skip(1), w, cut - 1)
    }
}

/// The greedy count of non-overlapping occurrences of `w` in `text`.
pub open spec fn occurrence_count(text: Seq<u8>, w: Seq<u8>) -> nat {
    trimmed_count(text, w, 0)
}

/// `w` repeated `k` times, back to back.
pub open spec fn repeat_word(w: Seq<u8>, k: nat) -> Seq<u8>
    decreases k,
{
    if k == 0 {
        Seq::<u8>::empty()
    } else {
        w + repeat_word(w, (k - 1) as nat)
    }
}

/// Occurring at `q` in the whole text is occurring at 0 in the tail that
/// starts at `q`.
pub proof fn lemma_match_at_shift(text: Seq<u8>, w: Seq<u8>, q: int)
    requires
        0 <= q <= text.len(),
    ensures
        match_at(text, w, q) <==> match_at(text.skip(q), w, 0),
{
    if match_at(text, w, q) {
        assert forall|t: int| 0 <= t < w.len() implies text.skip(q)[t] == w[t] by {
            assert(text[q + t] == w[t]);
        }
    }
    if match_at(text.skip(q), w, 0) {
        assert forall|t: int| 0 <= t < w.len() implies text[q + t] == w[t] by {
            assert(text.skip(q)[t] == w[t]);
        }
    }
}

/// When the word does not occur at the front of the text, the greedy count
/// is unchanged by stepping one byte forward.
pub proof fn lemma_step_no_match(text: Seq<u8>, w: Seq<u8>, cut: int)
    requires
        w.len() >= 1,
        text.len() >= 1,
        !match_at(text, w, 0),
    ensures
        trimmed_count(text, w, cut) == trimmed_count(text.skip(1), w, cut - 1),
{
    if text.len() < w.len() {
        assert(trimmed_count(text, w, cut) == 0);
        assert(text.skip(1).len() < w.len());
        assert(trimmed_count(text.skip(1), w, cut - 1) == 0);
    }
}

/// When the word occurs at the front of the text, the greedy count takes that
/// occurrence (counted if it ends past `cut`) and resumes after it.
pub proof fn lemma_step_match(text: Seq<u8>, w: Seq<u8>, cut: int)
    requires
        w.len() >= 1,
        match_at(text, w, 0),
    ensures
        trimmed_count(text, w, cut) == (if w.len() > cut { 1nat } else { 0nat })
            + trimmed_count(text.skip(w.len() as int), w, cut - w.len()),
{
}

/// Stepping over a stretch of positions where the word does not occur leaves
/// the greedy count unchanged.
pub proof fn lemma_advance_no_match(text: Seq<u8>, w: Seq<u8>, cut: int, a: int, b: int)
    requires
        w.len() >= 1,
        0 <= a <= b <= text.len(),
        forall|q: int| a <= q < b ==> !match_at(text, w, q),
    ensures
        trimmed_count(text.skip(a), w, cut - a) == trimmed_count(text.skip(b), w, cut - b),
    decreases b - a,
{
    if a < b {
        assert(!match_at(text, w, a));
        lemma_match_at_shift(text, w, a);
        lemma_step_no_match(text.skip(a), w, cut - a);
        assert(text.skip(a).skip(1) =~= text.skip(a + 1));
        lemma_advance_no_match(text, w, cut, a + 1, b);
    }
}

/// Occurring at offset `t` of the tail that starts at `a` is occurring at
/// `a + t` in the whole text.
pub proof fn lemma_match_at_shift_gen(text: Seq<u8>, w: Seq<u8>, a: int, t: int)
    requires
        0 <= a <= text.len(),
        0 <= t,
    ensures
        match_at(text.skip(a), w, t) <==> match_at(text, w, a + t),
{
    if match_at(text.skip(a), w, t) {
        assert forall|u: int| 0 <= u < w.len() implies text[a + t + u] == w[u] by {
            assert(text.skip(a)[t + u] == w[u]);
        }
    }
    if match_at(text, w, a + t) {
        assert forall|u: int| 0 <= u < w.len() implies text.skip(a)[t + u] == w[u] by {
            assert(text[a + t + u] == w[u]);
        }
    }
}

/// A text in which the word occurs nowhere counts zero.
pub proof fn lemma_no_match_count_zero(text: Seq<u8>, w: Seq<u8>, cut: int)
    requires
        w.len() >= 1,
        forall|p: int| !match_at(text, w, p),
    ensures
        trimmed_count(text, w, cut) == 0,
{
    lemma_advance_no_match(text, w, cut, 0, text.len() as int);
    assert(text.skip(0) =~= text);
    assert(text.skip(text.len() as int).len() == 0);
}

/// A text in which the word occurs at exactly one position counts one,
/// unless that occurrence ends at or before the cut, in which case it
/// counts zero.
pub proof fn lemma_unique_match_count(text: Seq<u8>, w: Seq<u8>, cut: int, p0: int)
    requires
        w.len() >= 1,
        match_at(text, w, p0),
        forall|p: int| p != p0 ==> !match_at(text, w, p),
    ensures
        trimmed_count(text, w, cut) == if p0 + w.len() > cut {
            1nat
        } else {
            0nat
        },
{
    let m = w.len() as int;
    lemma_advance_no_match(text, w, cut, 0, p0);
    assert(text.skip(0) =~= text);
    lemma_match_at_shift(text, w, p0);
    lemma_step_match(text.skip(p0), w, cut - p0);
    assert(text.skip(p0).skip(m) =~= text.skip(p0 + m));
    let tail = text.skip(p0 + m);
    assert forall|p: int| !match_at(tail, w, p) by {
        if match_at(tail, w, p) {
            lemma_match_at_shift_gen(text, w, p0 + m, p);
            assert(match_at(text, w, p0 + m + p));
        }
    }
    lemma_no_match_count_zero(tail, w, cut - p0 - m);
}

/// The greedy count never exceeds the length of the text.
pub proof fn lemma_count_le_len(text: Seq<u8>, w: Seq<u8>, cut: int)
    ensures
        trimmed_count(text, w, cut) <= text.len(),
    decreases text.len(),
{
    if w.len() == 0 || text.len() < w.len() {
    } else if match_at(text, w, 0) {
        lemma_count_le_len(text.skip(w.len() as int), w, cut - w.len());
    } else {
        lemma_count_le_len(text.skip(1), w, cut - 1);
    }
}

/// A `cut` at or below zero trims nothing: the count is the plain greedy
/// occurrence count.
pub proof fn lemma_cut_nonpos(text: Seq<u8>, w: Seq<u8>, cut: int)
    requires
        cut <= 0,
    ensures
        trimmed_count(text, w, cut) == occurrence_count(text, w),
    decreases text.len(),
{
    if w.len() == 0 || text.len() < w.len() {
    } else if match_at(text, w, 0) {
        lemma_cut_nonpos(text.skip(w.len() as int), w, cut - w.len());
        lemma_cut_nonpos(text.skip(w.len() as int), w, 0 - w.len());
    } else {
        lemma_cut_nonpos(text.skip(1), w, cut - 1);
        lemma_cut_nonpos(text.skip(1), w, -1);
    }
}

/// A buffer that is exactly the word repeated `k` times, with nothing in
/// between, holds exactly `k` non-overlapping occurrences of the word.
pub proof fn lemma_repeated_word_count(w: Seq<u8>, k: nat)
    requires
        w.len() >= 1,
    ensures
        repeat_word(w, k).len() == k * w.len(),
        occurrence_count(repeat_word(w, k), w) == k,
    decreases k,
{
    if k == 0 {
        assert(repeat_word(w, 0).len() == 0);
    } else {
        let tail = repeat_word(w, (k - 1) as nat);
        lemma_repeated_word_count(w, (k - 1) as nat);
        let text = repeat_word(w, k);
        assert(text == w + tail);
        assert(text.len() == k * w.len()) by (nonlinear_arith)
            requires
                text.len() == w.len() + tail.len(),
                tail.len() == (k - 1) * w.len(),
                k >= 1,
        ;
        assert(match_at(text, w, 0)) by {
            assert forall|t: int| 0 <= t < w.len() implies text[t] == w[t] by {
                assert(text[t] == (w + tail)[t]);
            }
        }
        lemma_step_match(text, w, 0);
        assert(text.skip(w.len() as int) =~= tail);
        lemma_cut_nonpos(tail, w, 0 - w.len());
    }
}

} // verus!
