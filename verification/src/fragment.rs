//! The fragmenter: it splits a buffer into a list of windows (fragments)
//! that cover it completely, each overlapping its predecessor by a fixed
//! amount so that an occurrence straddling a window boundary lies whole in
//! one window.  The per-fragment counts are summed by the strategies; a
//! fragment declines to count occurrences that lie entirely inside the
//! overlap it shares with its predecessor, so those are counted once, by
//! the predecessor.

use vstd::prelude::*;
use vstd::arithmetic::div_mod::{
    lemma_fundamental_div_mod, lemma_fundamental_div_mod_converse_div, lemma_div_is_ordered,
    lemma_mod_bound,
};
use crate::model::{
    trimmed_count, occurrence_count, match_at, lemma_count_le_len, lemma_no_match_count_zero,
    lemma_unique_match_count,
};

verus! {

/// One window of the buffer: the half-open byte range `[start, end)`.
#[derive(Clone, Copy, PartialEq, Eq, Structural, Debug)]
pub struct Fragment {
    /// First byte offset of the window.
    pub start: usize,
    /// One past the last byte offset of the window.
    pub end: usize,
}

/// How many fragments a buffer of `len` bytes yields for fragment size
/// `size`: the ceiling of `len / size`.
pub open spec fn frag_count(len: int, size: int) -> int {
    (len + size - 1) / size
}

/// Where fragment `k` starts: `k * size`, pulled back by the overlap, but
/// never before the buffer's start.
pub open spec fn plan_start(size: int, lap: int, k: int) -> int {
    if k * size >= lap {
        k * size - lap
    } else {
        0
    }
}

/// Where fragment `k` ends: one full fragment past `k * size`, but never
/// past the buffer's end.
pub open spec fn plan_end(len: int, size: int, k: int) -> int {
    if k * size + size <= len {
        k * size + size
    } else {
        len
    }
}

/// The full fragment list of a buffer of `len` bytes.
pub open spec fn plan_frags(len: int, size: int, lap: int) -> Seq<Fragment> {
    Seq::new(
        frag_count(len, size) as nat,
        |k: int|
            Fragment {
                start: plan_start(size, lap, k) as usize,
                end: plan_end(len, size, k) as usize,
            },
    )
}

/// Every fragment is a well-formed range inside a buffer of `len` bytes.
pub open spec fn frags_valid(frags: Seq<Fragment>, len: int) -> bool {
    forall|k: int|
        0 <= k < frags.len() ==> (#[trigger] frags[k]).start <= frags[k].end && frags[k].end
            <= len
}

/// The length of the overlap fragment `k` shares with its predecessor,
/// measured from the fragment's own start.  Occurrences that end inside it
/// are the predecessor's to count.
pub open spec fn frag_cut_at(frags: Seq<Fragment>, k: int) -> int {
    if k == 0 {
        0
    } else if frags[k - 1].end > frags[k].start {
        frags[k - 1].end - frags[k].start
    } else {
        0
    }
}

/// What fragment `k` contributes to the total: the greedy occurrence count
/// of its window, without the occurrences that end inside its overlap.
pub open spec fn frag_term(buffer: Seq<u8>, frags: Seq<Fragment>, w: Seq<u8>, k: int) -> nat {
    trimmed_count(
        buffer.subrange(frags[k].start as int, frags[k].end as int),
        w,
        frag_cut_at(frags, k),
    )
}

/// The sum of the contributions of fragments `a` up to (excluding) `b`.
pub open spec fn span_total(
    buffer: Seq<u8>,
    frags: Seq<Fragment>,
    w: Seq<u8>,
    a: int,
    b: int,
) -> nat
    decreases b - a,
{
    if a < b {
        frag_term(buffer, frags, w, a) + span_total(buffer, frags, w, a + 1, b)
    } else {
        0
    }
}

/// The engine's result on a buffer: the sum of all fragment contributions.
pub open spec fn fragment_total(buffer: Seq<u8>, frags: Seq<Fragment>, w: Seq<u8>) -> nat {
    span_total(buffer, frags, w, 0, frags.len() as int)
}

/// Fragment sums over adjacent index spans add up.
pub proof fn lemma_span_concat(
    buffer: Seq<u8>,
    frags: Seq<Fragment>,
    w: Seq<u8>,
    a: int,
    b: int,
    c: int,
)
    requires
        a <= b <= c,
    ensures
        span_total(buffer, frags, w, a, c) == span_total(buffer, frags, w, a, b) + span_total(
            buffer,
            frags,
            w,
            b,
            c,
        ),
    decreases b - a,
{
    if a < b {
        lemma_span_concat(buffer, frags, w, a + 1, b, c);
    }
}

/// Fragment `k` of a plan starts at `k * size` less the overlap and ends
/// where the next fragment's raw start or the buffer ends; in particular
/// `k * size` lies inside the buffer.
pub proof fn lemma_plan_index(len: usize, size: usize, lap: usize, k: int)
    requires
        1 <= size,
        lap < size,
        0 <= k < frag_count(len as int, size as int),
    ensures
        k * size < len,
        plan_frags(len as int, size as int, lap as int)[k].start == plan_start(
            size as int,
            lap as int,
            k,
        ),
        plan_frags(len as int, size as int, lap as int)[k].end == plan_end(
            len as int,
            size as int,
            k,
        ),
        0 <= plan_start(size as int, lap as int, k),
        plan_start(size as int, lap as int, k) <= k * size,
        k * size < plan_end(len as int, size as int, k) <= len,
        plan_start(size as int, lap as int, k) <= plan_end(len as int, size as int, k),
        k >= 1 ==> plan_start(size as int, lap as int, k) == k * size - lap,
{
    let l = len as int;
    let s = size as int;
    let n = frag_count(l, s);
    assert(n * s <= l + s - 1) by (nonlinear_arith)
        requires
            n == (l + s - 1) / s,
            s >= 1,
            l >= 0,
    ;
    assert(k * s <= (n - 1) * s) by (nonlinear_arith)
        requires
            k <= n - 1,
            s >= 1,
    ;
    assert((n - 1) * s == n * s - s) by (nonlinear_arith);
    assert(k * s < l);
    assert(k >= 1 ==> k * s >= s) by (nonlinear_arith)
        requires
            s >= 1,
    ;
    assert(k * s >= 0) by (nonlinear_arith)
        requires
            k >= 0,
            s >= 1,
    ;
    assert(0 <= plan_start(s, lap as int, k) <= k * s);
    assert(k * s < plan_end(l, s, k) <= l);
}

/// Splits a buffer of `len` bytes into fragments of `size` bytes, each
/// pulled back over its predecessor by `lap` bytes of overlap.
///
/// The fragments cover `[0, len)` in order, and an occurrence of at most
/// `lap + 1` bytes that straddles a fragment boundary lies whole in the
/// fragment that owns the boundary.
pub fn build_fragments(len: usize, size: usize, lap: usize) -> (v: Vec<Fragment>)
    requires
        1 <= size,
        lap < size,
    ensures
        v@ == plan_frags(len as int, size as int, lap as int),
{
    let mut v: Vec<Fragment> = Vec::new();
    let mut pos: usize = 0;
    proof {
        assert(v@.len() * size == 0) by (nonlinear_arith)
            requires
                v@.len() == 0,
        ;
    }
    while pos < len
        invariant
            1 <= size,
            lap < size,
            pos == if v@.len() * size <= len {
                (v@.len() * size) as int
            } else {
                len as int
            },
            v@.len() >= 1 ==> (v@.len() - 1) * size < len,
            forall|j: int|
                0 <= j < v@.len() ==> (#[trigger] v@[j]).start == plan_start(
                    size as int,
                    lap as int,
                    j,
                ) && v@[j].end == plan_end(len as int, size as int, j),
        decreases len - pos,
    {
        let ghost k = v@.len() as int;
        proof {
            assert(pos == k * size);
            assert((k + 1) * size == k * size + size) by (nonlinear_arith);
        }
        let start = if pos >= lap {
            pos - lap
        } else {
            0
        };
        let end = if len - pos > size {
            pos + size
        } else {
            len
        };
        v.push(Fragment { start, end });
        pos = end;
    }
    proof {
        let l = len as int;
        let s = size as int;
        let k = v@.len() as int;
        if k == 0 {
            assert(len == 0);
            assert(frag_count(l, s) == 0) by {
                lemma_fundamental_div_mod_converse_div(l + s - 1, s, 0, l + s - 1);
            }
        } else {
            assert(k * s >= l);
            assert((k - 1) * s < l);
            assert(k * s == (k - 1) * s + s) by (nonlinear_arith);
            assert(frag_count(l, s) == k) by {
                lemma_fundamental_div_mod_converse_div(l + s - 1, s, k, l + s - 1 - k * s);
            }
        }
        assert(v@ =~= plan_frags(l, s, lap as int));
    }
    v
}

/// The engine's total on a plan's fragment list is at most twice the buffer
/// plus one fragment size: each byte is scanned by at most one fragment and
/// one overlap.  This is what lets a 64-bit accumulator hold the total.
pub proof fn lemma_plan_total_bound(buffer: Seq<u8>, len: usize, size: usize, lap: usize, w: Seq<u8>)
    requires
        1 <= size,
        lap < size,
        buffer.len() == len,
    ensures
        fragment_total(buffer, plan_frags(len as int, size as int, lap as int), w) <= 2 * len
            + size,
{
    let frags = plan_frags(len as int, size as int, lap as int);
    let n = frags.len() as int;
    lemma_plan_prefix_bound(buffer, len, size, lap, w, n);
    if n >= 1 {
        lemma_plan_index(len, size, lap, n - 1);
        assert(n * lap <= n * size) by (nonlinear_arith)
            requires
                lap <= size,
                n >= 0,
        ;
        assert(n * size == (n - 1) * size + size) by (nonlinear_arith);
    } else {
        assert(n * lap == 0) by (nonlinear_arith)
            requires
                n == 0,
        ;
    }
}

/// The first `b` fragments of a plan contribute at most the bytes they
/// cover beyond their overlaps, plus one overlap each.
proof fn lemma_plan_prefix_bound(
    buffer: Seq<u8>,
    len: usize,
    size: usize,
    lap: usize,
    w: Seq<u8>,
    b: int,
)
    requires
        1 <= size,
        lap < size,
        buffer.len() == len,
        0 <= b <= frag_count(len as int, size as int),
    ensures
        span_total(buffer, plan_frags(len as int, size as int, lap as int), w, 0, b) <= (if b * size
            <= len {
            b * size
        } else {
            len as int
        }) + b * lap,
    decreases b,
{
    let l = len as int;
    let s = size as int;
    let frags = plan_frags(l, s, lap as int);
    if b > 0 {
        lemma_plan_prefix_bound(buffer, len, size, lap, w, b - 1);
        lemma_span_concat(buffer, frags, w, 0, b - 1, b);
        lemma_plan_index(len, size, lap, b - 1);
        let win = buffer.subrange(frags[b - 1].start as int, frags[b - 1].end as int);
        lemma_count_le_len(win, w, frag_cut_at(frags, b - 1));
        assert((b - 1) * s == b * s - s) by (nonlinear_arith);
        assert((b - 1) * lap == b * lap - lap) by (nonlinear_arith);
        assert(plan_start(s, lap as int, b - 1) >= (b - 1) * s - lap);
        let capb = if b * s <= l {
            b * s
        } else {
            l
        };
        let capb1 = if (b - 1) * s <= l {
            (b - 1) * s
        } else {
            l
        };
        assert(span_total(buffer, frags, w, 0, b - 1) <= capb1 + (b - 1) * lap);
        assert(span_total(buffer, frags, w, b, b) == 0);
        assert(span_total(buffer, frags, w, b - 1, b) == frag_term(buffer, frags, w, b - 1)
            + span_total(buffer, frags, w, b, b));
        assert(plan_end(l, s, b - 1) == capb);
        assert(win.len() == capb - plan_start(s, lap as int, b - 1));
        assert(frag_term(buffer, frags, w, b - 1) <= win.len());
        assert(capb1 <= (b - 1) * s);
        assert(span_total(buffer, frags, w, 0, b) <= capb + b * lap);
    } else {
        assert(b * s == 0 && b * lap == 0) by (nonlinear_arith)
            requires
                b == 0,
        ;
    }
}

/// A fragment list on a buffer shorter than the word contributes nothing:
/// no window can hold even one occurrence.
pub proof fn lemma_overlong_word(buffer: Seq<u8>, frags: Seq<Fragment>, w: Seq<u8>)
    requires
        frags_valid(frags, buffer.len() as int),
        w.len() > buffer.len(),
    ensures
        fragment_total(buffer, frags, w) == 0,
{
    lemma_overlong_word_span(buffer, frags, w, 0, frags.len() as int);
}

proof fn lemma_overlong_word_span(
    buffer: Seq<u8>,
    frags: Seq<Fragment>,
    w: Seq<u8>,
    a: int,
    b: int,
)
    requires
        frags_valid(frags, buffer.len() as int),
        w.len() > buffer.len(),
        0 <= a,
        b <= frags.len(),
    ensures
        span_total(buffer, frags, w, a, b) == 0,
    decreases b - a,
{
    if a < b {
        let win = buffer.subrange(frags[a].start as int, frags[a].end as int);
        assert(win.len() < w.len());
        assert(trimmed_count(win, w, frag_cut_at(frags, a)) == 0);
        lemma_overlong_word_span(buffer, frags, w, a + 1, b);
    }
}

/// A buffer that fits in one fragment yields exactly its plain greedy
/// occurrence count: one window, no overlap, nothing trimmed.
pub proof fn lemma_single_fragment(buffer: Seq<u8>, size: usize, lap: usize, w: Seq<u8>)
    requires
        1 <= buffer.len() <= size,
        lap < size,
    ensures
        fragment_total(buffer, plan_frags(buffer.len() as int, size as int, lap as int), w)
            == occurrence_count(buffer, w),
{
    let l = buffer.len() as int;
    let s = size as int;
    let frags = plan_frags(l, s, lap as int);
    assert(frag_count(l, s) == 1) by {
        lemma_fundamental_div_mod_converse_div(l + s - 1, s, 1, l - 1);
    }
    assert(frags[0].start == 0 && frags[0].end == l);
    assert(buffer.subrange(0, l) =~= buffer);
    assert(span_total(buffer, frags, w, 1, 1) == 0);
}

/// If each fragment of a span contributes one occurrence for a single
/// index and none elsewhere, the span's total is one exactly when it
/// covers that index.
proof fn lemma_span_indicator(
    buffer: Seq<u8>,
    frags: Seq<Fragment>,
    w: Seq<u8>,
    k: int,
    a: int,
    b: int,
)
    requires
        0 <= a <= b <= frags.len(),
        forall|j: int|
            a <= j < b ==> frag_term(buffer, frags, w, j) == (if j == k {
                1nat
            } else {
                0nat
            }),
    ensures
        span_total(buffer, frags, w, a, b) == if a <= k < b {
            1nat
        } else {
            0nat
        },
    decreases b - a,
{
    if a < b {
        lemma_span_indicator(buffer, frags, w, k, a + 1, b);
    }
}

/// A buffer in which the word occurs at exactly one position is counted
/// exactly once — not zero times and not twice — wherever that occurrence
/// lies: in the middle of a fragment, straddling a fragment boundary, or
/// entirely inside an overlap, as long as the overlap is at least one byte
/// shorter than the word.  The occurrence is seen by the fragment that
/// holds its last byte; a second fragment that also sees it declines to
/// count it, because it ends inside that fragment's overlap.
pub proof fn lemma_unique_occurrence_counted_once(
    buffer: Seq<u8>,
    size: usize,
    lap: usize,
    w: Seq<u8>,
    q: int,
)
    requires
        1 <= size,
        lap < size,
        1 <= w.len(),
        w.len() - 1 <= lap,
        buffer.len() <= usize::MAX,
        match_at(buffer, w, q),
        forall|p: int| p != q ==> !match_at(buffer, w, p),
    ensures
        fragment_total(buffer, plan_frags(buffer.len() as int, size as int, lap as int), w) == 1,
{
    let l = buffer.len() as int;
    let s = size as int;
    let m = w.len() as int;
    let frags = plan_frags(l, s, lap as int);
    let n = frag_count(l, s);
    let k = (q + m - 1) / s;
    lemma_fundamental_div_mod(q + m - 1, s);
    lemma_mod_bound(q + m - 1, s);
    assert(k * s <= q + m - 1 < k * s + s) by {
        assert(q + m - 1 == s * k + (q + m - 1) % s);
        assert(s * k == k * s) by (nonlinear_arith);
    }
    assert(k >= 0) by {
        if k < 0 {
            assert(k * s <= (-1) * s) by (nonlinear_arith)
                requires
                    k <= -1,
                    s >= 1,
            ;
        }
    }
    assert(l >= 1);
    lemma_div_is_ordered(q + m - 1, l - 1, s);
    lemma_fundamental_div_mod(l - 1, s);
    lemma_mod_bound(l - 1, s);
    assert(n == (l - 1) / s + 1) by {
        assert(s * ((l - 1) / s) == ((l - 1) / s) * s) by (nonlinear_arith);
        assert(((l - 1) / s + 1) * s == ((l - 1) / s) * s + s) by (nonlinear_arith);
        lemma_fundamental_div_mod_converse_div(l + s - 1, s, (l - 1) / s + 1, (l - 1) % s);
    }
    assert(0 <= k < n);
    assert forall|j: int| 0 <= j < n implies frag_term(buffer, frags, w, j) == (if j == k {
        1nat
    } else {
        0nat
    }) by {
        lemma_plan_index(buffer.len() as usize, size, lap, j);
        let sj = plan_start(s, lap as int, j);
        let ej = plan_end(l, s, j);
        let win = buffer.subrange(sj, ej);
        let cutj = frag_cut_at(frags, j);
        // the cut of every fragment but the first is the overlap itself
        if j >= 1 {
            lemma_plan_index(buffer.len() as usize, size, lap, j - 1);
            assert((j - 1) * s == j * s - s) by (nonlinear_arith);
            assert(plan_end(l, s, j - 1) == j * s);
            assert(frags[j - 1].end == j * s);
            assert(frags[j].start == j * s - lap);
            assert(cutj == lap);
        } else {
            assert(cutj == 0);
        }
        if sj <= q && q + m <= ej {
            // the window holds the occurrence, at exactly one position
            assert(match_at(win, w, q - sj)) by {
                assert forall|t: int| 0 <= t < m implies win[q - sj + t] == w[t] by {
                    assert(buffer[q + t] == w[t]);
                }
            }
            assert forall|p: int| p != q - sj implies !match_at(win, w, p) by {
                if match_at(win, w, p) {
                    assert forall|t: int| 0 <= t < m implies buffer[sj + p + t] == w[t] by {
                        assert(win[p + t] == w[t]);
                    }
                    assert(match_at(buffer, w, sj + p));
                }
            }
            lemma_unique_match_count(win, w, cutj, q - sj);
            if j < k {
                // impossible: the window would end before the occurrence
                assert((j + 1) * s <= k * s) by (nonlinear_arith)
                    requires
                        j + 1 <= k,
                        s >= 1,
                ;
                assert(j * s + s == (j + 1) * s) by (nonlinear_arith);
                assert(ej <= k * s);
                assert(false);
            } else if j == k {
                // counted: the occurrence ends past the overlap
                assert(q + m - sj > cutj);
            } else {
                // trimmed: the occurrence lies entirely inside the overlap
                assert((k + 1) * s <= j * s) by (nonlinear_arith)
                    requires
                        k + 1 <= j,
                        s >= 1,
                ;
                assert(k * s + s == (k + 1) * s) by (nonlinear_arith);
                assert(q + m <= j * s);
                assert(j >= 1);
                assert(q + m - sj <= cutj);
            }
        } else {
            // the window does not hold the occurrence, so it holds no
            // occurrence at all
            assert forall|p: int| !match_at(win, w, p) by {
                if match_at(win, w, p) {
                    assert forall|t: int| 0 <= t < m implies buffer[sj + p + t] == w[t] by {
                        assert(win[p + t] == w[t]);
                    }
                    assert(match_at(buffer, w, sj + p));
                    assert(sj + p == q);
                    assert(sj <= q && q + m <= ej);
                }
            }
            lemma_no_match_count_zero(win, w, cutj);
            if j == k {
                // impossible: fragment k always holds the occurrence
                assert(sj <= q) by {
                    if j >= 1 {
                        assert(q >= k * s - (m - 1) >= k * s - lap);
                    }
                }
                assert(q + m <= ej) by {
                    assert(q + m <= k * s + s);
                    assert(q + m <= l);
                }
                assert(false);
            }
        }
    }
    lemma_span_indicator(buffer, frags, w, k, 0, n);
}

/// An occurrence window that straddles the raw boundary `k * size` between
/// two fragments lies whole inside fragment `k`, and inside no other
/// fragment, whenever the overlap is at least one byte shorter than the
/// word.  The straddling occurrence is therefore seen by exactly one
/// scanner.
pub proof fn lemma_straddling_window(len: usize, size: usize, lap: usize, m: int, q: int, k: int)
    requires
        1 <= size,
        lap < size,
        1 <= m,
        m - 1 <= lap,
        0 <= q,
        q + m <= len,
        1 <= k < frag_count(len as int, size as int),
        q < k * size < q + m,
    ensures
        plan_frags(len as int, size as int, lap as int)[k].start <= q,
        q + m <= plan_frags(len as int, size as int, lap as int)[k].end,
        forall|j: int|
            0 <= j < plan_frags(len as int, size as int, lap as int).len() && j != k
                ==> !((#[trigger] plan_frags(len as int, size as int, lap as int)[j]).start <= q
                && q + m <= plan_frags(len as int, size as int, lap as int)[j].end),
{
    let l = len as int;
    let s = size as int;
    let frags = plan_frags(l, s, lap as int);
    lemma_plan_index(len, size, lap, k);
    assert(frags[k].start == k * s - lap);
    assert(q >= k * s - m + 1 >= k * s - lap);
    assert(q + m <= k * s - 1 + m <= k * s + lap);
    assert(k * s + lap < k * s + s);
    assert(plan_end(l, s, k) >= if k * s + s <= l {
        k * s + s
    } else {
        l
    });
    assert(q + m <= frags[k].end);
    assert forall|j: int| 0 <= j < frags.len() && j != k implies !((#[trigger] frags[j]).start
        <= q && q + m <= frags[j].end) by {
        lemma_plan_index(len, size, lap, j);
        if j < k {
            assert((j + 1) * s <= k * s) by (nonlinear_arith)
                requires
                    j + 1 <= k,
                    s >= 1,
            ;
            assert(frags[j].end <= plan_end(l, s, j));
            assert(plan_end(l, s, j) <= j * s + s);
            assert(j * s + s == (j + 1) * s) by (nonlinear_arith);
            assert(frags[j].end < q + m);
        } else {
            assert(k * s + s <= j * s) by (nonlinear_arith)
                requires
                    k + 1 <= j,
                    s >= 1,
            ;
            assert(frags[j].start == j * s - lap);
            assert(frags[j].start > q);
        }
    }
}

} // verus!
