use haversine_calculator::metrics::{
    estimate_frequency, os_freq, record_bytes, Benchmark, BenchmarkOnDrop, SLOT_COUNT,
};
use haversine_calculator::report::same_label;

fn visit(bench: &mut Benchmark, label: &'static str, slot: usize, start: u64, end: u64) {
    let guard = BenchmarkOnDrop::new(bench, label, slot, start);
    guard.exit(bench, end);
}

#[test]
fn init_starts_empty() {
    let bench = Benchmark::init(42);
    assert_eq!(bench.start_cpu(), 42);
    assert_eq!(bench.depth(), 0);
    assert_eq!(bench.child_carry(), 0);
    assert_eq!(bench.byte_carry(), 0);
    assert_eq!(bench.slots().len(), SLOT_COUNT);
    let last = bench.slot(SLOT_COUNT - 1);
    assert_eq!(last.exclusive_cycles, 0);
    assert_eq!(last.label, "");
}

#[test]
fn flat_visits_sum_per_slot() {
    let mut bench = Benchmark::init(0);
    visit(&mut bench, "read", 0, 10, 30);
    visit(&mut bench, "parse", 1, 30, 100);
    visit(&mut bench, "read", 0, 100, 105);
    assert_eq!(bench.slot(0).exclusive_cycles, 25);
    assert_eq!(bench.slot(1).exclusive_cycles, 70);
    assert_eq!(bench.slot(0).child_cycles, 0);
    assert_eq!(bench.slot(1).child_cycles, 0);
    assert_eq!(bench.depth(), 0);
}

#[test]
fn root_with_one_direct_child() {
    let mut bench = Benchmark::init(0);
    let root = BenchmarkOnDrop::new(&mut bench, "root", 3, 100);
    let child = BenchmarkOnDrop::new(&mut bench, "child", 4, 200);
    assert_eq!(bench.depth(), 2);
    child.exit(&mut bench, 500);
    assert_eq!(bench.child_carry(), 300);
    root.exit(&mut bench, 1000);
    let r = bench.slot(3);
    assert_eq!(r.child_cycles, 300);
    assert_eq!(r.exclusive_cycles, 900);
    assert!(r.exclusive_cycles >= r.child_cycles);
    assert_eq!(bench.slot(4).exclusive_cycles, 0);
    assert_eq!(bench.slot(4).label, "child");
    assert_eq!(bench.child_carry(), 0);
}

#[test]
fn grandchild_folded_into_child() {
    let mut bench = Benchmark::init(0);
    let root = BenchmarkOnDrop::new(&mut bench, "root", 0, 0);
    let child = BenchmarkOnDrop::new(&mut bench, "child", 1, 10);
    let grand = BenchmarkOnDrop::new(&mut bench, "grand", 2, 20);
    assert_eq!(bench.depth(), 3);
    grand.exit(&mut bench, 50);
    assert_eq!(bench.child_carry(), 0);
    child.exit(&mut bench, 70);
    root.exit(&mut bench, 100);
    assert_eq!(bench.slot(2).exclusive_cycles, 0);
    assert_eq!(bench.slot(1).exclusive_cycles, 0);
    assert_eq!(bench.slot(0).child_cycles, 60);
    assert_eq!(bench.slot(0).exclusive_cycles, 100);
}

#[test]
fn depth_back_to_zero_after_nesting() {
    let mut bench = Benchmark::init(0);
    let root = BenchmarkOnDrop::new(&mut bench, "root", 0, 0);
    for i in 0..5u64 {
        let a = BenchmarkOnDrop::new(&mut bench, "a", 1, i);
        let b = BenchmarkOnDrop::new(&mut bench, "b", 2, i);
        let c = BenchmarkOnDrop::new(&mut bench, "c", 3, i);
        c.exit(&mut bench, i + 1);
        b.exit(&mut bench, i + 2);
        a.exit(&mut bench, i + 3);
    }
    assert_eq!(bench.depth(), 1);
    root.exit(&mut bench, 100);
    assert_eq!(bench.depth(), 0);
}

#[test]
fn bytes_go_to_root() {
    let mut bench = Benchmark::init(0);
    let root = BenchmarkOnDrop::new(&mut bench, "root", 7, 0);
    let child = BenchmarkOnDrop::new(&mut bench, "child", 8, 1);
    record_bytes(&mut bench, 100);
    child.exit(&mut bench, 2);
    assert_eq!(bench.byte_carry(), 100);
    root.exit(&mut bench, 3);
    assert_eq!(bench.slot(7).bytes, 100);
    assert_eq!(bench.slot(8).bytes, 0);
    assert_eq!(bench.byte_carry(), 0);
}

#[test]
fn bytes_without_open_guard_wait_for_next_root() {
    let mut bench = Benchmark::init(0);
    record_bytes(&mut bench, 64);
    assert_eq!(bench.byte_carry(), 64);
    visit(&mut bench, "later", 5, 0, 9);
    assert_eq!(bench.slot(5).bytes, 64);
    assert_eq!(bench.byte_carry(), 0);
}

#[test]
fn counter_wraparound_is_measured() {
    let mut bench = Benchmark::init(0);
    visit(&mut bench, "wrap", 0, u64::MAX - 4, 5);
    assert_eq!(bench.slot(0).exclusive_cycles, 10);
}

#[test]
fn accumulators_wrap() {
    let mut bench = Benchmark::init(0);
    visit(&mut bench, "big", 0, 0, u64::MAX);
    visit(&mut bench, "big", 0, 0, 2);
    assert_eq!(bench.slot(0).exclusive_cycles, 1);
}

#[test]
fn label_is_last_writer() {
    let mut bench = Benchmark::init(0);
    visit(&mut bench, "first", 9, 0, 1);
    visit(&mut bench, "second", 9, 1, 2);
    assert_eq!(bench.slot(9).label, "second");
    assert_eq!(bench.slot(9).exclusive_cycles, 2);
}

#[test]
fn frequency_three_gigahertz() {
    assert_eq!(estimate_frequency(3_000_000_000, 1_000_000_000), 3_000_000_000);
}

#[test]
fn frequency_rounds_down() {
    assert_eq!(estimate_frequency(10, 3), 3_333_333_333);
    assert_eq!(estimate_frequency(u64::MAX, 1), u64::MAX as u128 * 1_000_000_000);
}

#[test]
fn os_freq_is_nanoseconds() {
    assert_eq!(os_freq(), 1_000_000_000);
}

#[test]
fn labels_compare_by_text() {
    assert!(same_label("Parse float", "Parse float"));
    assert!(!same_label("Parse float", "Parse floa"));
    assert!(!same_label("abc", "abd"));
    assert!(same_label("", ""));
    assert!(same_label("größe", "größe"));
    assert!(!same_label("größe", "grösse"));
}
