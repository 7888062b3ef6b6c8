//! The pattern compiler: it turns a search word into a reusable failure
//! table (the partial-match table of the classic linear-time string-search
//! algorithm), proved to hold, at each position, the length of the longest
//! proper prefix of the word up to that position that is also its suffix.

use vstd::prelude::*;

verus! {

/// The errors a counting run can end in.
#[derive(Clone, Copy, PartialEq, Eq, Structural, Debug)]
pub enum CountError {
    /// The search word was empty or otherwise degenerate.
    InvalidPattern,
    /// A parallel strategy was asked to run with zero workers.
    ConfigError,
    /// A worker pool could not be brought up or a worker failed.
    WorkerFailure,
}

/// The first `k` bytes of `w` equal the `k` bytes that end at offset `n`.
/// With `k < n` this says the length-`n` prefix of `w` has a border of
/// length `k`: a proper prefix that is also a suffix.
pub open spec fn border_eq(w: Seq<u8>, n: int, k: int) -> bool {
    forall|t: int| 0 <= t < k ==> #[trigger] w[t] == w[n - k + t]
}

/// `k` is the length of a proper border of the length-`n` prefix of `w`.
pub open spec fn is_border(w: Seq<u8>, n: int, k: int) -> bool {
    0 <= k < n <= w.len() && border_eq(w, n, k)
}

/// No border of the length-`n` prefix of `w` is longer than `c - 1`.
pub open spec fn no_border_above(w: Seq<u8>, n: int, c: int) -> bool {
    forall|k: int| c < k < n ==> !(#[trigger] border_eq(w, n, k))
}

/// Entry `n - 1` of the table holds the longest border length of the
/// length-`n` prefix of `w`.
pub open spec fn entry_ok(w: Seq<u8>, table: Seq<usize>, n: int) -> bool {
    &&& is_border(w, n, table[n - 1] as int)
    &&& no_border_above(w, n, table[n - 1] as int)
}

/// The first `j` entries of the table are correct.
pub open spec fn table_ok_upto(w: Seq<u8>, table: Seq<usize>, j: int) -> bool {
    forall|n: int| 1 <= n <= j ==> #[trigger] entry_ok(w, table, n)
}

/// The whole table is the word's failure table.
pub open spec fn table_ok(w: Seq<u8>, table: Seq<usize>) -> bool {
    &&& table.len() == w.len()
    &&& table_ok_upto(w, table, w.len() as int)
}

/// A search word together with its failure table.
pub struct CompiledPattern {
    /// The bytes of the search word.
    pub word: Vec<u8>,
    /// `table[i]` is the length of the longest proper prefix of
    /// `word[0..=i]` that is also a suffix of it; `table[0] == 0`.
    pub table: Vec<usize>,
}

impl CompiledPattern {
    /// The word is non-empty and the table is its failure table.
    pub open spec fn wf(self) -> bool {
        &&& self.word@.len() >= 1
        &&& table_ok(self.word@, self.table@)
    }
}

/// A border of a border is a border: borders nest transitively.
proof fn lemma_border_trans(w: Seq<u8>, n: int, c: int, k: int)
    requires
        is_border(w, n, c),
        is_border(w, c, k),
    ensures
        is_border(w, n, k),
{
    assert forall|t: int| 0 <= t < k implies #[trigger] w[t] == w[n - k + t] by {
        assert(w[t] == w[c - k + t]);
        assert(w[c - k + t] == w[n - c + (c - k + t)]);
    }
}

/// Of two borders of the same prefix, the shorter is a border of the longer.
proof fn lemma_border_nested(w: Seq<u8>, n: int, b: int, c: int)
    requires
        is_border(w, n, b),
        is_border(w, n, c),
        b < c,
    ensures
        is_border(w, c, b),
{
    assert forall|t: int| 0 <= t < b implies #[trigger] w[t] == w[c - b + t] by {
        assert(w[t] == w[n - b + t]);
        assert(w[c - b + t] == w[n - c + (c - b + t)]);
    }
}

/// A border of the prefix extended by one byte, shortened by one byte, is a
/// border of the unextended prefix.
proof fn lemma_border_shrink(w: Seq<u8>, n: int, k: int)
    requires
        1 <= k <= n < w.len(),
        border_eq(w, n + 1, k),
    ensures
        border_eq(w, n, k - 1),
{
    assert forall|t: int| 0 <= t < k - 1 implies #[trigger] w[t] == w[n - (k - 1) + t] by {
        assert(w[t] == w[n + 1 - k + t]);
    }
}

/// At the start of the step that fills entry `n`, no border of the extended
/// prefix can be longer than one plus the longest border of the current one.
proof fn lemma_entry_bound(w: Seq<u8>, table: Seq<usize>, n: int)
    requires
        1 <= n < w.len(),
        n <= table.len(),
        table_ok_upto(w, table, n),
    ensures
        no_border_above(w, n + 1, table[n - 1] + 1),
{
    assert(entry_ok(w, table, n));
    let c = table[n - 1] as int;
    assert forall|k: int| c + 1 < k < n + 1 implies !(#[trigger] border_eq(w, n + 1, k)) by {
        if border_eq(w, n + 1, k) {
            lemma_border_shrink(w, n, k);
            assert(is_border(w, n, k - 1));
            assert(!border_eq(w, n, k - 1));
        }
    }
}

/// Falling back along the table keeps every border of the extended prefix at
/// or below one plus the fallback length: the byte after the current border
/// mismatches, so the chain of shorter borders loses no candidate.
proof fn lemma_fallback(w: Seq<u8>, table: Seq<usize>, n: int, len: int)
    requires
        1 <= len < n < w.len(),
        n <= table.len(),
        table_ok_upto(w, table, n),
        is_border(w, n, len),
        no_border_above(w, n + 1, len + 1),
        w[n] != w[len],
    ensures
        is_border(w, n, table[len - 1] as int) || table[len - 1] == 0,
        (table[len - 1] as int) < len,
        no_border_above(w, n + 1, table[len - 1] + 1),
{
    assert(entry_ok(w, table, len));
    let len2 = table[len - 1] as int;
    assert(is_border(w, len, len2));
    if len2 > 0 {
        lemma_border_trans(w, n, len, len2);
    }
    assert forall|k: int| len2 + 1 < k < n + 1 implies !(#[trigger] border_eq(w, n + 1, k)) by {
        if border_eq(w, n + 1, k) {
            assert(k <= len + 1);
            if k == len + 1 {
                // the border would force the mismatching bytes to agree
                assert(w[len] == w[n + 1 - k + len]);
                assert(false);
            } else {
                lemma_border_shrink(w, n, k);
                assert(is_border(w, n, k - 1));
                if k - 1 == len {
                    assert(border_eq(w, n + 1, k) && k - 1 == len);
                    assert(w[len - 1] == w[n - len + len - 1]);
                    // k - 1 == len contradicts k <= len
                    assert(false);
                } else {
                    lemma_border_nested(w, n, k - 1, len);
                    assert(is_border(w, len, k - 1));
                    assert(!border_eq(w, len, k - 1));
                }
            }
        }
    }
}

/// Builds the failure table of a search word.
///
/// An empty word is rejected with `CountError::InvalidPattern`; any other
/// word compiles, and the resulting table is proved to hold at each position
/// the longest proper prefix of the word up to there that is also its suffix.
pub fn compile_pattern(word: &Vec<u8>) -> (r: Result<CompiledPattern, CountError>)
    ensures
        word@.len() == 0 <==> r == Err::<CompiledPattern, CountError>(CountError::InvalidPattern),
        r matches Err(e) ==> e == CountError::InvalidPattern,
        r matches Ok(p) ==> p.wf() && p.word@ == word@,
{
    let m = word.len();
    if m == 0 {
        return Err(CountError::InvalidPattern);
    }
    let mut table: Vec<usize> = Vec::new();
    table.push(0);
    let mut len: usize = 0;
    let mut i: usize = 1;
    assert(is_border(word@, 1, 0));
    assert(entry_ok(word@, table@, 1));
    while i < m
        invariant
            1 <= i <= m,
            m == word@.len(),
            table@.len() == i,
            table_ok_upto(word@, table@, i as int),
            len == table@[i - 1],
            (len as int) < i,
        decreases m - i,
    {
        proof {
            assert(entry_ok(word@, table@, i as int));
            lemma_entry_bound(word@, table@, i as int);
        }
        while len > 0 && word[i] != word[len]
            invariant
                1 <= i < m,
                m == word@.len(),
                table@.len() == i,
                table_ok_upto(word@, table@, i as int),
                (len as int) < i,
                len == 0 || is_border(word@, i as int, len as int),
                no_border_above(word@, i + 1, len + 1),
            decreases len,
        {
            proof {
                lemma_fallback(word@, table@, i as int, len as int);
            }
            len = table[len - 1];
        }
        let ghost tprev = table@;
        if word[i] == word[len] {
            proof {
                let ghost wv = word@;
                let ghost n = i as int;
                let ghost l = len as int;
                assert(is_border(wv, n + 1, l + 1)) by {
                    assert forall|t: int| 0 <= t < l + 1 implies #[trigger] wv[t] == wv[n + 1 - (l + 1)
                        + t] by {
                        if t < l {
                            assert(wv[t] == wv[n - l + t]);
                        }
                    }
                }
            }
            len = len + 1;
            table.push(len);
        } else {
            proof {
                // here len == 0 and the bytes mismatch, so even a border of
                // length 1 is impossible
                assert(is_border(word@, i + 1, 0));
                assert forall|k: int| 0 < k < i + 1 implies !(#[trigger] border_eq(
                    word@,
                    i + 1,
                    k,
                )) by {
                    if border_eq(word@, i + 1, k) {
                        if k == 1 {
                            assert(word@[0] == word@[i + 1 - 1]);
                        }
                    }
                }
            }
            table.push(0);
            len = 0;
        }
        i = i + 1;
        proof {
            assert(entry_ok(word@, table@, i as int));
            assert forall|n: int| 1 <= n <= i implies #[trigger] entry_ok(word@, table@, n) by {
                if n < i {
                    assert(entry_ok(word@, tprev, n));
                    assert(table@[n - 1] == tprev[n - 1]);
                }
            }
        }
    }
    Ok(CompiledPattern { word: word.clone(), table })
}

} // verus!
