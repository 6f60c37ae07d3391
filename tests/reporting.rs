use haversine_calculator::metrics::{Benchmark, BenchmarkOnDrop};
use haversine_calculator::report::aggregate_slots;

fn visit(bench: &mut Benchmark, label: &'static str, slot: usize, start: u64, end: u64) {
    let guard = BenchmarkOnDrop::new(bench, label, slot, start);
    guard.exit(bench, end);
}

#[test]
fn nested_label_never_reported() {
    let mut bench = Benchmark::init(0);
    let root = BenchmarkOnDrop::new(&mut bench, "outer", 0, 0);
    visit(&mut bench, "inner", 1, 10, 20);
    root.exit(&mut bench, 50);
    let report = bench.report(50, 1000);
    assert_eq!(report.rows.len(), 1);
    assert_eq!(report.rows[0].label, "outer");
    assert_eq!(report.rows[0].exclusive_cycles, 50);
    assert_eq!(report.rows[0].child_cycles, 10);
    assert!(report.rows.iter().all(|r| r.label != "inner"));
}

#[test]
fn report_aggregates_shared_labels() {
    let mut bench = Benchmark::init(1000);
    visit(&mut bench, "read", 2, 0, 10);
    visit(&mut bench, "parse", 5, 10, 40);
    visit(&mut bench, "read", 9, 40, 45);
    let before = bench.byte_carry();
    assert_eq!(before, 0);
    let report = bench.report(4000, 1_000);
    assert_eq!(report.wall_ticks, 1_000);
    assert_eq!(report.cpu_freq, 3_000_000_000);
    assert_eq!(report.total_cycles, 45);
    assert_eq!(report.rows.len(), 2);
    assert_eq!(report.rows[0].label, "read");
    assert_eq!(report.rows[0].exclusive_cycles, 15);
    assert_eq!(report.rows[1].label, "parse");
    assert_eq!(report.rows[1].exclusive_cycles, 30);
}

#[test]
fn report_sums_exceed_u64() {
    let mut bench = Benchmark::init(0);
    visit(&mut bench, "big", 0, 0, u64::MAX);
    visit(&mut bench, "big", 1, 0, u64::MAX);
    let rows = aggregate_slots(bench.slots());
    assert_eq!(rows.len(), 1);
    assert_eq!(rows[0].exclusive_cycles, 2 * (u64::MAX as u128));
    let report = bench.report(0, 1);
    assert_eq!(report.total_cycles, 2 * (u64::MAX as u128));
}

#[test]
fn empty_session_reports_nothing() {
    let bench = Benchmark::init(0);
    let report = bench.report(0, 5);
    assert!(report.rows.is_empty());
    assert_eq!(report.total_cycles, 0);
    assert_eq!(report.cpu_freq, 0);
}

#[test]
fn report_keeps_bytes_and_children() {
    let mut bench = Benchmark::init(0);
    let root = BenchmarkOnDrop::new(&mut bench, "decode", 4, 0);
    let child = BenchmarkOnDrop::new(&mut bench, "read", 5, 5);
    haversine_calculator::metrics::record_bytes(&mut bench, 2048);
    child.exit(&mut bench, 25);
    root.exit(&mut bench, 100);
    let report = bench.report(100, 100);
    assert_eq!(report.rows.len(), 1);
    assert_eq!(report.rows[0].bytes, 2048);
    assert_eq!(report.rows[0].child_cycles, 20);
}
