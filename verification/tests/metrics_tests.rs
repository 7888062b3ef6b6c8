use wordcount::metrics::{collect_metrics, cpu_percent_hundredths, memory_delta};

#[test]
fn cpu_figure_for_a_fully_busy_core() {
    // 1000 us of CPU over 1000 us of wall clock on one core: 100.00 %
    assert_eq!(cpu_percent_hundredths(0, 1000, 1000, 1), 10000);
}

#[test]
fn cpu_figure_is_normalised_by_core_count() {
    // one busy core out of four: 25.00 %
    assert_eq!(cpu_percent_hundredths(500, 1500, 1000, 4), 2500);
}

#[test]
fn zero_elapsed_time_reports_zero_utilisation() {
    let m = collect_metrics(7, 0, 0, 1_000_000, 0, 0, 8);
    assert_eq!(m.cpu_hundredths, 0);
    assert_eq!(m.count, 7);
    assert_eq!(m.elapsed_micros, 0);
}

#[test]
fn zero_cores_reports_zero_utilisation() {
    assert_eq!(cpu_percent_hundredths(0, 1000, 1000, 0), 0);
}

#[test]
fn backwards_cpu_clock_reports_zero_utilisation() {
    assert_eq!(cpu_percent_hundredths(2000, 1000, 1000, 2), 0);
}

#[test]
fn memory_delta_is_signed() {
    assert_eq!(memory_delta(1000, 1500), 500);
    assert_eq!(memory_delta(1500, 1000), -500);
    assert_eq!(memory_delta(1000, 1000), 0);
}

#[test]
fn collected_metrics_carry_the_samples() {
    let m = collect_metrics(42, 2000, 100, 1100, 4096, 1024, 2);
    assert_eq!(m.count, 42);
    assert_eq!(m.elapsed_micros, 2000);
    // 1000 us of CPU over 2000 us on two cores: 25.00 %
    assert_eq!(m.cpu_hundredths, 2500);
    assert_eq!(m.memory_delta_bytes, -3072);
}
