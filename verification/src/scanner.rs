//! The fragment scanner: it counts non-overlapping occurrences of a
//! compiled word inside one window of the buffer, scanning each byte once
//! and falling back through the failure table on a mismatch, and is proved
//! to return exactly the greedy occurrence count of the window.

use vstd::prelude::*;
use crate::model::{
    match_at, trimmed_count, lemma_match_at_shift, lemma_step_match, lemma_advance_no_match,
};
use crate::pattern::{border_eq, entry_ok, table_ok, CompiledPattern};

verus! {

/// While the first `j` bytes of the word match the text at `s` and the next
/// byte mismatches, no occurrence can start before the failure table's
/// fallback position: it would give the word's length-`j` prefix a border
/// longer than its longest one.
proof fn lemma_fallback_no_match(win: Seq<u8>, w: Seq<u8>, table: Seq<usize>, s: int, j: int)
    requires
        table_ok(w, table),
        1 <= j < w.len(),
        0 <= s,
        s + j < win.len(),
        forall|t: int| 0 <= t < j ==> win[s + t] == w[t],
        win[s + j] != w[j],
    ensures
        forall|q: int| s <= q < s + (j - table[j - 1]) ==> !match_at(win, w, q),
{
    let j2 = table[j - 1] as int;
    assert(entry_ok(w, table, j));
    assert forall|q: int| s <= q < s + (j - j2) implies !match_at(win, w, q) by {
        if match_at(win, w, q) {
            if q == s {
                assert(win[s + j] == w[j]);
            } else {
                let d = q - s;
                assert(border_eq(w, j, j - d)) by {
                    assert forall|t: int| 0 <= t < j - d implies #[trigger] w[t] == w[j - (j - d)
                        + t] by {
                        assert(win[q + t] == w[t]);
                        assert(win[s + (d + t)] == w[d + t]);
                    }
                }
                assert(!border_eq(w, j, j - d));
            }
        }
    }
}

/// Counts the non-overlapping occurrences of the compiled word in the
/// window `buffer[lo..hi]`, skipping occurrences that end at or before
/// offset `cut` of the window (those lie entirely inside the overlap the
/// window shares with its predecessor and are counted there).
///
/// The scan reads each window byte once: a mismatch falls back through the
/// failure table instead of rescanning, and after a full occurrence the
/// scan resumes right after it, so overlapping occurrences are not counted
/// twice.
pub fn count_in_window(buffer: &Vec<u8>, lo: usize, hi: usize, pat: &CompiledPattern, cut: usize) -> (c:
    u64)
    requires
        pat.wf(),
        lo <= hi <= buffer@.len(),
    ensures
        c == trimmed_count(buffer@.subrange(lo as int, hi as int), pat.word@, cut as int),
{
    let ghost win = buffer@.subrange(lo as int, hi as int);
    let ghost w = pat.word@;
    let m = pat.word.len();
    let mut i: usize = lo;
    let mut j: usize = 0;
    let mut count: u64 = 0;
    proof {
        assert(win.skip(0) =~= win);
    }
    while i < hi
        invariant
            pat.wf(),
            m == w.len(),
            w == pat.word@,
            lo <= i <= hi <= buffer@.len(),
            win == buffer@.subrange(lo as int, hi as int),
            j < m,
            j <= i - lo,
            forall|t: int| 0 <= t < j ==> win[i - lo - j + t] == w[t],
            (count as int) * (m as int) <= i - lo - j,
            trimmed_count(win, w, cut as int) == count + trimmed_count(
                win.skip(i - lo - j),
                w,
                cut - (i - lo - j),
            ),
        decreases hi - i, j,
    {
        let ghost s = i - lo - j;
        proof {
            assert(win[i - lo] == buffer@[i as int]);
        }
        if buffer[i] == pat.word[j] {
            i = i + 1;
            j = j + 1;
            if j == m {
                proof {
                    assert(match_at(win, w, s)) by {
                        assert forall|t: int| 0 <= t < w.len() implies win[s + t] == w[t] by {}
                    }
                    lemma_match_at_shift(win, w, s);
                    lemma_step_match(win.skip(s), w, cut - s);
                    assert(win.skip(s).skip(m as int) =~= win.skip(s + m));
                    assert((count + 1) * (m as int) <= i - lo) by (nonlinear_arith)
                        requires
                            (count as int) * (m as int) <= s,
                            s + m == i - lo,
                    ;
                    assert(count + 1 <= (count + 1) * (m as int)) by (nonlinear_arith)
                        requires
                            m >= 1,
                            count >= 0,
                    ;
                }
                if i - lo > cut {
                    count = count + 1;
                }
                j = 0;
            }
        } else if j > 0 {
            proof {
                lemma_fallback_no_match(win, w, pat.table@, s, j as int);
                let j2 = pat.table@[j - 1] as int;
                assert(entry_ok(w, pat.table@, j as int));
                lemma_advance_no_match(win, w, cut as int, s, s + (j - j2));
                assert forall|t: int| 0 <= t < j2 implies win[i - lo - j2 + t] == w[t] by {
                    assert(w[t] == w[j - j2 + t]);
                    assert(win[s + (j - j2 + t)] == w[j - j2 + t]);
                }
            }
            j = pat.table[j - 1];
        } else {
            proof {
                assert(!match_at(win, w, s));
                lemma_advance_no_match(win, w, cut as int, s, s + 1);
            }
            i = i + 1;
        }
    }
    proof {
        assert(win.skip(i - lo - j).len() < m);
        assert(trimmed_count(win.skip(i - lo - j), w, cut - (i - lo - j)) == 0);
    }
    count
}

} // verus!
