//! The execution strategies: a sequential fold over the fragment list, a
//! manually partitioned run with one result slot per worker, and a
//! data-parallel reduction on a bounded worker pool.  All three are proved
//! to return the sum of the per-fragment counts, so a run's total does not
//! depend on the strategy or on worker scheduling.

use vstd::prelude::*;
use vstd::arithmetic::div_mod::lemma_fundamental_div_mod;
use vstd::arithmetic::mul::lemma_mul_inequality;
use crate::fragment::{
    Fragment, frag_cut_at, frag_term, span_total, fragment_total, frags_valid, plan_frags,
    lemma_span_concat, lemma_plan_index, lemma_plan_total_bound, build_fragments,
};
use crate::pattern::{CompiledPattern, CountError, compile_pattern};
use crate::scanner::count_in_window;
use rayon::iter::{IndexedParallelIterator, IntoParallelIterator, ParallelIterator};

verus! {

/// How many bytes one fragment covers beyond its overlap.
pub const FRAGMENT_SIZE: usize = 2 * 1024 * 1024;

/// How many bytes each fragment shares with its predecessor.  An
/// occurrence of up to `OVERLAP_SIZE + 1` bytes that straddles a fragment
/// boundary lies whole in the later fragment.
pub const OVERLAP_SIZE: usize = 256;

/// The largest buffer the engine accepts: it keeps the total of a run,
/// which is at most twice the buffer length plus one fragment, inside the
/// 64-bit accumulator.
pub const MAX_BUFFER_LEN: u64 = 0x7fff_ffff_0000_0000;

/// The three interchangeable scheduling policies for one counting run.
#[derive(Clone, Copy, PartialEq, Eq, Structural, Debug)]
pub enum Strategy {
    /// Fold the fragment list on the calling thread.
    Sequential,
    /// Partition the fragment list into one contiguous chunk per worker;
    /// each worker fills its own result slot, and the slots are summed
    /// after every worker has finished.
    Manual,
    /// Map the scanner over the fragments on a bounded worker pool and
    /// combine the counts by associative summation.
    DataParallel,
}

/// What the engine returns for a buffer and a word: the sum of the
/// per-fragment counts of the buffer's fragment plan.
pub open spec fn engine_total(buffer: Seq<u8>, w: Seq<u8>) -> nat {
    fragment_total(
        buffer,
        plan_frags(buffer.len() as int, FRAGMENT_SIZE as int, OVERLAP_SIZE as int),
        w,
    )
}

/// Where chunk `t` of a ceil-partition of `n` fragments into chunks of
/// `chunk` begins; past the last chunk it is clipped to `n`.
pub open spec fn chunk_lo(n: int, chunk: int, t: int) -> int {
    if t * chunk <= n {
        t * chunk
    } else {
        n
    }
}

/// Counts the occurrences that fragment `k` contributes: its window's
/// greedy count, without occurrences that end inside the overlap with the
/// previous fragment.
pub fn scan_fragment_at(buffer: &Vec<u8>, frags: &Vec<Fragment>, pat: &CompiledPattern, k: usize) -> (c:
    u64)
    requires
        pat.wf(),
        frags_valid(frags@, buffer@.len() as int),
        k < frags@.len(),
    ensures
        c == frag_term(buffer@, frags@, pat.word@, k as int),
{
    let f = frags[k];
    let cut: usize = if k > 0 {
        let prev_end = frags[k - 1].end;
        if prev_end > f.start {
            prev_end - f.start
        } else {
            0
        }
    } else {
        0
    };
    assert(cut == frag_cut_at(frags@, k as int));
    count_in_window(buffer, f.start, f.end, pat, cut)
}

/// Any span's subtotal fits wherever the whole total fits.
proof fn lemma_span_le_total(buffer: Seq<u8>, frags: Seq<Fragment>, w: Seq<u8>, a: int, b: int)
    requires
        0 <= a <= b <= frags.len(),
    ensures
        span_total(buffer, frags, w, a, b) <= fragment_total(buffer, frags, w),
{
    lemma_span_concat(buffer, frags, w, 0, a, frags.len() as int);
    lemma_span_concat(buffer, frags, w, a, b, frags.len() as int);
}

/// Sums the contributions of fragments `a` up to `b` on the calling
/// thread.
pub fn scan_span(buffer: &Vec<u8>, pat: &CompiledPattern, frags: &Vec<Fragment>, a: usize, b: usize) -> (c:
    u64)
    requires
        pat.wf(),
        frags_valid(frags@, buffer@.len() as int),
        a <= b <= frags@.len(),
        fragment_total(buffer@, frags@, pat.word@) <= u64::MAX,
    ensures
        c == span_total(buffer@, frags@, pat.word@, a as int, b as int),
{
    let ghost w = pat.word@;
    let mut acc: u64 = 0;
    let mut k: usize = a;
    while k < b
        invariant
            pat.wf(),
            w == pat.word@,
            frags_valid(frags@, buffer@.len() as int),
            a <= k <= b <= frags@.len(),
            fragment_total(buffer@, frags@, w) <= u64::MAX,
            acc == span_total(buffer@, frags@, w, a as int, k as int),
        decreases b - k,
    {
        proof {
            lemma_span_concat(buffer@, frags@, w, a as int, k as int, k + 1);
            assert(span_total(buffer@, frags@, w, k + 1, k + 1) == 0);
            assert(span_total(buffer@, frags@, w, k as int, k + 1) == frag_term(
                buffer@,
                frags@,
                w,
                k as int,
            ) + span_total(buffer@, frags@, w, k + 1, k + 1));
            lemma_span_le_total(buffer@, frags@, w, a as int, k + 1);
        }
        let c = scan_fragment_at(buffer, frags, pat, k);
        acc = acc + c;
        k = k + 1;
    }
    acc
}

/// The sequential strategy: a fold of the scanner over the whole fragment
/// list on the calling thread.
pub fn count_sequential(buffer: &Vec<u8>, pat: &CompiledPattern, frags: &Vec<Fragment>) -> (c: u64)
    requires
        pat.wf(),
        frags_valid(frags@, buffer@.len() as int),
        fragment_total(buffer@, frags@, pat.word@) <= u64::MAX,
    ensures
        c == fragment_total(buffer@, frags@, pat.word@),
{
    scan_span(buffer, pat, frags, 0, frags.len())
}

/// Counts the occurrences of chunk `t` of the ceil-partition of the
/// fragment list into chunks of `chunk` fragments.  This is the unit of
/// work one manual-coordination worker performs.
pub fn scan_chunk(buffer: &Vec<u8>, pat: &CompiledPattern, frags: &Vec<Fragment>, chunk: usize, t: usize) -> (c:
    u64)
    requires
        pat.wf(),
        frags_valid(frags@, buffer@.len() as int),
        chunk >= 1,
        t < frags@.len(),
        fragment_total(buffer@, frags@, pat.word@) <= u64::MAX,
    ensures
        c == span_total(
            buffer@,
            frags@,
            pat.word@,
            chunk_lo(frags@.len() as int, chunk as int, t as int),
            chunk_lo(frags@.len() as int, chunk as int, t + 1),
        ),
{
    let n = frags.len();
    proof {
        lemma_fundamental_div_mod(n as int, chunk as int);
        if t <= n / chunk {
            lemma_mul_inequality(t as int, (n / chunk) as int, chunk as int);
        }
        if t + 1 <= n / chunk {
            lemma_mul_inequality(t + 1, (n / chunk) as int, chunk as int);
        }
        lemma_mul_inequality(t as int, t + 1, chunk as int);
    }
    let lo: usize = if t <= n / chunk {
        t * chunk
    } else {
        n
    };
    let hi: usize = if t + 1 <= n / chunk {
        (t + 1) * chunk
    } else {
        n
    };
    proof {
        if t > n / chunk {
            assert((n / chunk) + 1 <= t as int);
            lemma_mul_inequality((n / chunk) + 1, t as int, chunk as int);
            assert(((n / chunk) + 1) * chunk == (n / chunk) * chunk + chunk) by (nonlinear_arith);
            assert(t as int * chunk > n);
        }
        if t + 1 > n / chunk {
            lemma_mul_inequality((n / chunk) + 1, t + 1, chunk as int);
            assert(((n / chunk) + 1) * chunk == (n / chunk) * chunk + chunk) by (nonlinear_arith);
            assert((t + 1) * chunk > n);
        }
        assert(lo == chunk_lo(n as int, chunk as int, t as int));
        assert(hi == chunk_lo(n as int, chunk as int, t + 1));
        assert(lo <= hi);
    }
    scan_span(buffer, pat, frags, lo, hi)
}

/// Runs one manual-coordination worker per chunk on a pool of
/// `threads` workers; worker `t` writes its chunk's count into slot `t` of
/// the result vector, and the pool is joined before the vector is
/// returned.
///
/// Relies on `rayon::ThreadPoolBuilder::build` to bring up the pool (its
/// failure is reported as `WorkerFailure`, never as a partial count), on
/// `rayon::ThreadPool::install` to run the closure to completion inside
/// the pool, and on `IndexedParallelIterator::collect_into_vec`, which
/// stores the result of the verified `scan_chunk` for index `t` at
/// position `t`, preserving order and length.  A worker panic would
/// propagate out of `install` and abort the run, so a returned vector
/// always holds every worker's count.
#[verifier::external_body]
fn run_chunk_counts(
    buffer: &Vec<u8>,
    pat: &CompiledPattern,
    frags: &Vec<Fragment>,
    chunk: usize,
    nchunks: usize,
    threads: usize,
) -> (r: Result<Vec<u64>, CountError>)
    requires
        pat.wf(),
        frags_valid(frags@, buffer@.len() as int),
        chunk >= 1,
        threads >= 1,
        nchunks <= frags@.len(),
        fragment_total(buffer@, frags@, pat.word@) <= u64::MAX,
    ensures
        r matches Ok(v) ==> v@.len() == nchunks && forall|t: int|
            0 <= t < nchunks ==> v@[t] == span_total(
                buffer@,
                frags@,
                pat.word@,
                chunk_lo(frags@.len() as int, chunk as int, t),
                chunk_lo(frags@.len() as int, chunk as int, t + 1),
            ),
        r matches Err(e) ==> e == CountError::WorkerFailure,
{
    let pool = match rayon::ThreadPoolBuilder::new().num_threads(threads).build() {
        Ok(p) => p,
        Err(_) => return Err(CountError::WorkerFailure),
    };
    let mut out: Vec<u64> = Vec::new();
    pool.install(|| {
        (0..nchunks).into_par_iter().map(|t| scan_chunk(buffer, pat, frags, chunk, t)).collect_into_vec(
            &mut out,
        )
    });
    Ok(out)
}

/// The manual-coordination strategy: the fragment list is partitioned into
/// `thread_count` contiguous chunks by ceiling division, one worker scans
/// each chunk into its own result slot, and the slots are summed once
/// every worker has finished.
///
/// A zero worker count is rejected with `ConfigError`; a pool that cannot
/// be brought up is reported as `WorkerFailure` rather than as a partial
/// count.
pub fn count_manual(buffer: &Vec<u8>, pat: &CompiledPattern, frags: &Vec<Fragment>, thread_count: usize) -> (r:
    Result<u64, CountError>)
    requires
        pat.wf(),
        frags_valid(frags@, buffer@.len() as int),
        fragment_total(buffer@, frags@, pat.word@) <= u64::MAX,
    ensures
        r matches Ok(c) ==> thread_count >= 1 && c == fragment_total(buffer@, frags@, pat.word@),
        r == Err::<u64, CountError>(CountError::ConfigError) <==> thread_count == 0,
        r matches Err(e) ==> e == CountError::ConfigError || e == CountError::WorkerFailure,
{
    let ghost w = pat.word@;
    if thread_count == 0 {
        return Err(CountError::ConfigError);
    }
    let n = frags.len();
    if n == 0 {
        return Ok(0);
    }
    let chunk = (n - 1) / thread_count + 1;
    let nchunks = (n - 1) / chunk + 1;
    proof {
        let ni = n as int;
        let ci = chunk as int;
        let q = (ni - 1) / ci;
        lemma_fundamental_div_mod(n - 1, thread_count as int);
        lemma_fundamental_div_mod(ni - 1, ci);
        assert(nchunks <= n);
        // the last chunk reaches the end of the fragment list
        assert(nchunks == q + 1);
        assert((q + 1) * ci == q * ci + ci) by (nonlinear_arith);
        assert(ci * q == q * ci) by (nonlinear_arith);
        assert(nchunks * ci >= ni);
        assert(chunk_lo(ni, ci, nchunks as int) == ni);
    }
    let counts = match run_chunk_counts(buffer, pat, frags, chunk, nchunks, thread_count) {
        Ok(v) => v,
        Err(_) => {
            return Err(CountError::WorkerFailure);
        },
    };
    let mut acc: u64 = 0;
    let mut t: usize = 0;
    while t < nchunks
        invariant
            counts@.len() == nchunks,
            t <= nchunks,
            n == frags@.len(),
            chunk >= 1,
            w == pat.word@,
            fragment_total(buffer@, frags@, w) <= u64::MAX,
            chunk_lo(n as int, chunk as int, nchunks as int) == n,
            forall|u: int|
                0 <= u < nchunks ==> counts@[u] == span_total(
                    buffer@,
                    frags@,
                    w,
                    chunk_lo(n as int, chunk as int, u),
                    chunk_lo(n as int, chunk as int, u + 1),
                ),
            acc == span_total(buffer@, frags@, w, 0, chunk_lo(n as int, chunk as int, t as int)),
        decreases nchunks - t,
    {
        proof {
            lemma_mul_inequality(t as int, t + 1, chunk as int);
            lemma_mul_inequality(t + 1, nchunks as int, chunk as int);
            let lo = chunk_lo(n as int, chunk as int, t as int);
            let hi = chunk_lo(n as int, chunk as int, t + 1);
            assert(0 <= lo <= hi <= n);
            lemma_span_concat(buffer@, frags@, w, 0, lo, hi);
            lemma_span_le_total(buffer@, frags@, w, 0, hi);
        }
        let c = counts[t];
        acc = acc + c;
        t = t + 1;
    }
    Ok(acc)
}

/// Runs the data-parallel reduction: the scanner is mapped over the
/// fragment indices on a pool of `threads` workers and the per-fragment
/// counts are summed.
///
/// Relies on `rayon::ThreadPoolBuilder::build` to bring up the pool (its
/// failure is reported as `WorkerFailure`, never as a partial count), on
/// `rayon::ThreadPool::install` to run the reduction to completion inside
/// the pool, and on `ParallelIterator::sum`, which reduces the results of
/// the verified `scan_fragment_at` with `+` in an unspecified order; as
/// 64-bit addition is associative and commutative and the whole total fits
/// in 64 bits by the precondition, every order gives the sum of the
/// per-fragment counts.  A worker panic would propagate out of `install`
/// and abort the run.
#[verifier::external_body]
fn run_parallel_total(buffer: &Vec<u8>, pat: &CompiledPattern, frags: &Vec<Fragment>, threads: usize) -> (r:
    Result<u64, CountError>)
    requires
        pat.wf(),
        frags_valid(frags@, buffer@.len() as int),
        threads >= 1,
        fragment_total(buffer@, frags@, pat.word@) <= u64::MAX,
    ensures
        r matches Ok(c) ==> c == fragment_total(buffer@, frags@, pat.word@),
        r matches Err(e) ==> e == CountError::WorkerFailure,
{
    let pool = match rayon::ThreadPoolBuilder::new().num_threads(threads).build() {
        Ok(p) => p,
        Err(_) => return Err(CountError::WorkerFailure),
    };
    let total = pool.install(|| {
        (0..frags.len()).into_par_iter().map(|k| scan_fragment_at(buffer, frags, pat, k)).sum::<
            u64,
        >()
    });
    Ok(total)
}

/// The data-parallel strategy: a map-reduce of the scanner over the
/// fragment list on a bounded worker pool.
///
/// A zero worker count is rejected with `ConfigError`; a pool that cannot
/// be brought up is reported as `WorkerFailure` rather than as a partial
/// count.
pub fn count_data_parallel(
    buffer: &Vec<u8>,
    pat: &CompiledPattern,
    frags: &Vec<Fragment>,
    thread_count: usize,
) -> (r: Result<u64, CountError>)
    requires
        pat.wf(),
        frags_valid(frags@, buffer@.len() as int),
        fragment_total(buffer@, frags@, pat.word@) <= u64::MAX,
    ensures
        r matches Ok(c) ==> thread_count >= 1 && c == fragment_total(buffer@, frags@, pat.word@),
        r == Err::<u64, CountError>(CountError::ConfigError) <==> thread_count == 0,
        r matches Err(e) ==> e == CountError::ConfigError || e == CountError::WorkerFailure,
{
    if thread_count == 0 {
        return Err(CountError::ConfigError);
    }
    match run_parallel_total(buffer, pat, frags, thread_count) {
        Ok(c) => Ok(c),
        Err(_) => Err(CountError::WorkerFailure),
    }
}

/// A word strictly longer than the buffer is counted zero times: no
/// fragment's window can hold even one occurrence.
pub proof fn lemma_engine_overlong_word(buffer: Seq<u8>, w: Seq<u8>)
    requires
        w.len() > buffer.len(),
        buffer.len() <= usize::MAX,
    ensures
        engine_total(buffer, w) == 0,
{
    let frags = plan_frags(buffer.len() as int, FRAGMENT_SIZE as int, OVERLAP_SIZE as int);
    assert forall|k: int| 0 <= k < frags.len() implies (#[trigger] frags[k]).start <= frags[k].end
        && frags[k].end <= buffer.len() by {
        lemma_plan_index(buffer.len() as usize, FRAGMENT_SIZE, OVERLAP_SIZE, k);
    }
    crate::fragment::lemma_overlong_word(buffer, frags, w);
}

/// A buffer that is exactly the word repeated `k` times, and small enough
/// to fit in one fragment, is counted exactly `k` times: non-overlapping
/// occurrences of `"aa"` in `"aaaa"` number two, not three.
pub proof fn lemma_engine_repeated_word(w: Seq<u8>, k: nat)
    requires
        w.len() >= 1,
        k >= 1,
        k * w.len() <= FRAGMENT_SIZE,
    ensures
        engine_total(crate::model::repeat_word(w, k), w) == k,
{
    crate::model::lemma_repeated_word_count(w, k);
    let buffer = crate::model::repeat_word(w, k);
    assert(buffer.len() >= w.len()) by (nonlinear_arith)
        requires
            buffer.len() == k * w.len(),
            k >= 1,
            w.len() >= 1,
    ;
    crate::fragment::lemma_single_fragment(buffer, FRAGMENT_SIZE, OVERLAP_SIZE, w);
}

/// A buffer in which the word occurs at exactly one position is counted
/// exactly once — not zero times and not twice — even when the occurrence
/// straddles a fragment boundary or lies entirely inside an overlap, for
/// every word short enough for the engine's overlap.
pub proof fn lemma_engine_unique_occurrence(buffer: Seq<u8>, w: Seq<u8>, q: int)
    requires
        1 <= w.len() <= OVERLAP_SIZE + 1,
        buffer.len() <= usize::MAX,
        crate::model::match_at(buffer, w, q),
        forall|p: int| p != q ==> !crate::model::match_at(buffer, w, p),
    ensures
        engine_total(buffer, w) == 1,
{
    crate::fragment::lemma_unique_occurrence_counted_once(buffer, FRAGMENT_SIZE, OVERLAP_SIZE, w, q);
}

/// Counts the non-overlapping occurrences of `word` in `buffer` under the
/// chosen strategy.
///
/// An empty word is rejected with `InvalidPattern`, and a zero
/// `thread_count` with `ConfigError` for the two parallel strategies
/// (the sequential strategy ignores `thread_count`).  Every successful
/// run returns the same total, whatever the strategy and scheduling: the
/// sum of the per-fragment counts of the buffer's fragment plan.  The
/// sequential strategy cannot fail on a non-empty word; a parallel one
/// fails only with `WorkerFailure`, when its worker pool cannot be
/// brought up.
pub fn count_occurrences(buffer: &Vec<u8>, word: &Vec<u8>, strategy: Strategy, thread_count: usize) -> (r:
    Result<u64, CountError>)
    requires
        buffer@.len() <= MAX_BUFFER_LEN,
    ensures
        r == Err::<u64, CountError>(CountError::InvalidPattern) <==> word@.len() == 0,
        r == Err::<u64, CountError>(CountError::ConfigError) <==> word@.len() > 0 && strategy
            != Strategy::Sequential && thread_count == 0,
        r matches Ok(c) ==> c == engine_total(buffer@, word@),
        word@.len() > 0 && strategy == Strategy::Sequential ==> (r matches Ok(_)),
{
    let pat = match compile_pattern(word) {
        Ok(p) => p,
        Err(e) => {
            return Err(e);
        },
    };
    match strategy {
        Strategy::Sequential => {},
        _ => {
            if thread_count == 0 {
                return Err(CountError::ConfigError);
            }
        },
    }
    let frags = build_fragments(buffer.len(), FRAGMENT_SIZE, OVERLAP_SIZE);
    proof {
        assert forall|k: int| 0 <= k < frags@.len() implies (#[trigger] frags@[k]).start
            <= frags@[k].end && frags@[k].end <= buffer@.len() by {
            lemma_plan_index(buffer.len(), FRAGMENT_SIZE, OVERLAP_SIZE, k);
        }
        lemma_plan_total_bound(buffer@, buffer.len(), FRAGMENT_SIZE, OVERLAP_SIZE, pat.word@);
    }
    match strategy {
        Strategy::Sequential => Ok(count_sequential(buffer, &pat, &frags)),
        Strategy::Manual => count_manual(buffer, &pat, &frags, thread_count),
        Strategy::DataParallel => count_data_parallel(buffer, &pat, &frags, thread_count),
    }
}

} // verus!
