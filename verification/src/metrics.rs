//! The metrics collector: it derives a run's figures from samples taken
//! around a strategy invocation.  The caller samples a monotonic clock,
//! the process CPU time and the resident memory before and after the run
//! and hands the plain values in; everything here is integer arithmetic,
//! so the derived CPU utilisation can never be negative, NaN or infinite,
//! and a run too short to measure reports zero utilisation rather than a
//! division by zero.

use vstd::prelude::*;

verus! {

/// The figures of one (word, strategy) run.
pub struct RunMetrics {
    /// The occurrence count the strategy returned.
    pub count: u64,
    /// Wall-clock duration of the run, in microseconds.
    pub elapsed_micros: u64,
    /// CPU utilisation across all cores, in hundredths of a percent.
    pub cpu_hundredths: u64,
    /// Resident memory change over the run, in bytes; negative when the
    /// system reclaimed memory between the samples.
    pub memory_delta_bytes: i64,
}

/// CPU utilisation in hundredths of a percent: the CPU time consumed,
/// divided by the wall-clock time available on all cores.  Zero when the
/// run was too short to measure, when the core count is degenerate or
/// when the CPU clock did not advance; clipped at the accumulator's top.
pub open spec fn cpu_hundredths_of(cpu_start: int, cpu_end: int, elapsed: int, cores: int) -> int {
    if elapsed <= 0 || cores <= 0 || cpu_end <= cpu_start {
        0
    } else if (cpu_end - cpu_start) * 10000 / (elapsed * cores) > u64::MAX {
        u64::MAX as int
    } else {
        (cpu_end - cpu_start) * 10000 / (elapsed * cores)
    }
}

/// The signed memory change, clipped only at the width of the report
/// field.
pub open spec fn mem_delta_of(before: int, after: int) -> int {
    if after - before > i64::MAX {
        i64::MAX as int
    } else if after - before < i64::MIN {
        i64::MIN as int
    } else {
        after - before
    }
}

/// Derives the CPU-utilisation figure from the samples around a run.
pub fn cpu_percent_hundredths(cpu_start_micros: u64, cpu_end_micros: u64, elapsed_micros: u64, cores: u64) -> (r:
    u64)
    ensures
        r == cpu_hundredths_of(
            cpu_start_micros as int,
            cpu_end_micros as int,
            elapsed_micros as int,
            cores as int,
        ),
        elapsed_micros == 0 ==> r == 0,
{
    if elapsed_micros == 0 || cores == 0 || cpu_end_micros <= cpu_start_micros {
        return 0;
    }
    let delta = cpu_end_micros - cpu_start_micros;
    proof {
        assert((elapsed_micros as int) * (cores as int) <= 0xffff_ffff_ffff_ffff
            * 0xffff_ffff_ffff_ffff) by (nonlinear_arith)
            requires
                elapsed_micros <= 0xffff_ffff_ffff_ffffu64,
                cores <= 0xffff_ffff_ffff_ffffu64,
                elapsed_micros >= 1,
                cores >= 1,
        ;
        assert((elapsed_micros as int) * (cores as int) >= 1) by (nonlinear_arith)
            requires
                elapsed_micros >= 1,
                cores >= 1,
        ;
    }
    let num: u128 = (delta as u128) * 10000;
    let den: u128 = (elapsed_micros as u128) * (cores as u128);
    let raw: u128 = num / den;
    if raw > u64::MAX as u128 {
        u64::MAX
    } else {
        raw as u64
    }
}

/// Derives the signed memory change from the samples around a run.
pub fn memory_delta(before_bytes: u64, after_bytes: u64) -> (d: i64)
    ensures
        d == mem_delta_of(before_bytes as int, after_bytes as int),
{
    if after_bytes >= before_bytes {
        let d = after_bytes - before_bytes;
        if d > i64::MAX as u64 {
            i64::MAX
        } else {
            d as i64
        }
    } else {
        let d = before_bytes - after_bytes;
        if d >= 0x8000_0000_0000_0000u64 {
            i64::MIN
        } else {
            -(d as i64)
        }
    }
}

/// Folds the samples taken around a strategy run into its report.
///
/// The CPU figure is never negative and never the result of a division by
/// zero: a run whose measured duration is zero reports zero utilisation.
/// The memory figure is signed and clipped only at the field's width.
pub fn collect_metrics(
    count: u64,
    elapsed_micros: u64,
    cpu_start_micros: u64,
    cpu_end_micros: u64,
    mem_before_bytes: u64,
    mem_after_bytes: u64,
    cores: u64,
) -> (m: RunMetrics)
    ensures
        m.count == count,
        m.elapsed_micros == elapsed_micros,
        m.cpu_hundredths == cpu_hundredths_of(
            cpu_start_micros as int,
            cpu_end_micros as int,
            elapsed_micros as int,
            cores as int,
        ),
        elapsed_micros == 0 ==> m.cpu_hundredths == 0,
        m.memory_delta_bytes == mem_delta_of(mem_before_bytes as int, mem_after_bytes as int),
{
    RunMetrics {
        count,
        elapsed_micros,
        cpu_hundredths: cpu_percent_hundredths(
            cpu_start_micros,
            cpu_end_micros,
            elapsed_micros,
            cores,
        ),
        memory_delta_bytes: memory_delta(mem_before_bytes, mem_after_bytes),
    }
}

} // verus!
