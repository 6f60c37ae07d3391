use vstd::prelude::*;
use vstd::string::StringSliceAdditionalSpecFns;
use crate::metrics::{Benchmark, Slot, SLOT_COUNT, elapsed, frequency, estimate_frequency};

verus! {

/// Totals of all slots that share one label.
#[derive(Clone, Copy)]
pub struct LabelTotals {
    pub label: &'static str,
    pub exclusive_cycles: u128,
    pub child_cycles: u128,
    pub bytes: u128,
}

/// The row that a slot starts when its label is first seen.
pub open spec fn row_of(s: Slot) -> LabelTotals {
    LabelTotals {
        label: s.label,
        exclusive_cycles: s.exclusive_cycles as u128,
        child_cycles: s.child_cycles as u128,
        bytes: s.bytes as u128,
    }
}

/// A row with a slot of its label added in.
pub open spec fn add_slot(r: LabelTotals, s: Slot) -> LabelTotals {
    LabelTotals {
        label: r.label,
        exclusive_cycles: (r.exclusive_cycles + s.exclusive_cycles) as u128,
        child_cycles: (r.child_cycles + s.child_cycles) as u128,
        bytes: (r.bytes + s.bytes) as u128,
    }
}

/// Index of the last row labelled `label`, or -1 when there is none.
pub open spec fn find_label(rows: Seq<LabelTotals>, label: Seq<char>) -> int
    decreases rows.len(),
{
    if rows.len() == 0 {
        -1
    } else if rows.last().label@ == label {
        rows.len() - 1
    } else {
        find_label(rows.drop_last(), label)
    }
}

/// The table aggregated by label, in order of first appearance. Slots that
/// never closed as a root (no exclusive cycles) are left out.
pub open spec fn aggregate(slots: Seq<Slot>) -> Seq<LabelTotals>
    decreases slots.len(),
{
    if slots.len() == 0 {
        seq![]
    } else {
        let rows = aggregate(slots.drop_last());
        let s = slots.last();
        if s.exclusive_cycles == 0 {
            rows
        } else {
            let k = find_label(rows, s.label@);
            if k < 0 {
                rows.push(row_of(s))
            } else {
                rows.update(k, add_slot(rows[k], s))
            }
        }
    }
}

/// Sum of the exclusive cycles of all slots.
pub open spec fn total_exclusive(slots: Seq<Slot>) -> int
    decreases slots.len(),
{
    if slots.len() == 0 {
        0
    } else {
        total_exclusive(slots.drop_last()) + slots.last().exclusive_cycles
    }
}

proof fn lemma_find_label_bounds(rows: Seq<LabelTotals>, label: Seq<char>)
    ensures
        -1 <= find_label(rows, label) < rows.len(),
        find_label(rows, label) >= 0 ==> rows[find_label(rows, label)].label@ == label,
        find_label(rows, label) < 0 ==> forall|k: int|
            0 <= k < rows.len() ==> #[trigger] rows[k].label@ != label,
    decreases rows.len(),
{
    if rows.len() > 0 {
        lemma_find_label_bounds(rows.drop_last(), label);
        if find_label(rows, label) < 0 {
            assert forall|k: int| 0 <= k < rows.len() implies #[trigger] rows[k].label@ != label by {
                if k < rows.len() - 1 {
                    assert(rows.drop_last()[k] == rows[k]);
                }
            }
        }
    }
}

proof fn lemma_find_label_prefix(rows: Seq<LabelTotals>, label: Seq<char>, j: int)
    requires
        0 <= j <= rows.len(),
        forall|k: int| j <= k < rows.len() ==> #[trigger] rows[k].label@ != label,
    ensures
        find_label(rows, label) == find_label(rows.subrange(0, j), label),
    decreases rows.len(),
{
    if rows.len() > j {
        assert(rows.drop_last() =~= rows.subrange(0, rows.len() - 1));
        assert(rows.subrange(0, rows.len() - 1).subrange(0, j) =~= rows.subrange(0, j));
        lemma_find_label_prefix(rows.drop_last(), label, j);
    } else {
        assert(rows.subrange(0, j) =~= rows);
    }
}

/// Every row of the aggregate is bounded by `n` slots' worth of cycles and
/// bytes, where `n` is the number of slots.
proof fn lemma_aggregate_bounded(slots: Seq<Slot>)
    ensures
        forall|k: int| 0 <= k < aggregate(slots).len() ==> {
            &&& #[trigger] aggregate(slots)[k].exclusive_cycles <= slots.len() * u64::MAX
            &&& aggregate(slots)[k].child_cycles <= slots.len() * u64::MAX
            &&& aggregate(slots)[k].bytes <= slots.len() * u64::MAX
        },
    decreases slots.len(),
{
    if slots.len() > 0 {
        lemma_aggregate_bounded(slots.drop_last());
        lemma_find_label_bounds(aggregate(slots.drop_last()), slots.last().label@);
        let n = slots.len();
        assert((n - 1) * u64::MAX + u64::MAX == n * u64::MAX) by (nonlinear_arith);
        assert(0 <= (n - 1) * u64::MAX) by (nonlinear_arith) requires n >= 1;
    }
}

/// A label appears in the report only through a slot of that label with
/// exclusive cycles: every row has exclusive cycles, and a label whose slots
/// never closed as a root (all their exclusive cycles are zero) has no row,
/// even where those slots were entered and exited.
pub proof fn lemma_report_omits_idle_labels(slots: Seq<Slot>, label: Seq<char>)
    requires
        slots.len() <= SLOT_COUNT,
    ensures
        forall|k: int| 0 <= k < aggregate(slots).len() ==> {
            &&& #[trigger] aggregate(slots)[k].exclusive_cycles > 0
            &&& exists|j: int|
                0 <= j < slots.len() && slots[j].label@ == aggregate(slots)[k].label@
                    && slots[j].exclusive_cycles > 0
        },
        (forall|j: int| 0 <= j < slots.len() && #[trigger] slots[j].label@ == label
            ==> slots[j].exclusive_cycles == 0) ==> forall|k: int|
            0 <= k < aggregate(slots).len() ==> #[trigger] aggregate(slots)[k].label@ != label,
    decreases slots.len(),
{
    if slots.len() > 0 {
        let prefix = slots.drop_last();
        let n = slots.len() - 1;
        let last = slots.last();
        let rows = aggregate(prefix);
        lemma_report_omits_idle_labels(prefix, label);
        lemma_aggregate_bounded(prefix);
        lemma_find_label_bounds(rows, last.label@);
        assert(n * u64::MAX + u64::MAX <= u128::MAX) by (nonlinear_arith)
            requires
                n < SLOT_COUNT,
        ;
        assert forall|k: int| 0 <= k < aggregate(slots).len() implies {
            &&& #[trigger] aggregate(slots)[k].exclusive_cycles > 0
            &&& exists|j: int|
                0 <= j < slots.len() && slots[j].label@ == aggregate(slots)[k].label@
                    && slots[j].exclusive_cycles > 0
        } by {
            if last.exclusive_cycles != 0 && (k == rows.len() || k == find_label(rows, last.label@)) {
                assert(slots[n] == last);
            } else {
                assert(k < rows.len() && aggregate(slots)[k] == rows[k]);
                assert(rows[k].exclusive_cycles > 0);
                let j = choose|j: int|
                    0 <= j < prefix.len() && prefix[j].label@ == rows[k].label@
                        && prefix[j].exclusive_cycles > 0;
                assert(prefix[j] == slots[j]);
            }
        }
        if forall|j: int| 0 <= j < slots.len() && #[trigger] slots[j].label@ == label
            ==> slots[j].exclusive_cycles == 0 {
            assert forall|k: int| 0 <= k < aggregate(slots).len() implies #[trigger] aggregate(
                slots,
            )[k].label@ != label by {
                assert(aggregate(slots)[k].exclusive_cycles > 0);
                let j = choose|j: int|
                    0 <= j < slots.len() && slots[j].label@ == aggregate(slots)[k].label@
                        && slots[j].exclusive_cycles > 0;
            }
        }
    }
}

/// Whether two labels hold the same text.
pub fn same_label(a: &str, b: &str) -> (r: bool)
    ensures
        r == (a@ == b@),
{
    let x = a.as_bytes();
    let y = b.as_bytes();
    if x.len() != y.len() {
        return false;
    }
    let mut i: usize = 0;
    while i < x.len()
        invariant
            x@ == a.spec_bytes(),
            y@ == b.spec_bytes(),
            x@.len() == y@.len(),
            i <= x@.len(),
            forall|k: int| 0 <= k < i ==> x@[k] == y@[k],
        decreases x@.len() - i,
    {
        if x[i] != y[i] {
            return false;
        }
        i = i + 1;
    }
    proof {
        assert(x@ =~= y@);
        vstd::utf8::encode_utf8_decode_utf8(a@);
        vstd::utf8::encode_utf8_decode_utf8(b@);
    }
    true
}

/// Index of the last row labelled `label`, if there is one.
fn find_row(rows: &Vec<LabelTotals>, label: &str) -> (r: Option<usize>)
    ensures
        match r {
            Some(k) => k == find_label(rows@, label@),
            None => find_label(rows@, label@) < 0,
        },
{
    let mut j: usize = rows.len();
    while j > 0
        invariant
            j <= rows@.len(),
            forall|k: int| j <= k < rows@.len() ==> #[trigger] rows@[k].label@ != label@,
        decreases j,
    {
        if same_label(rows[j - 1].label, label) {
            proof {
                lemma_find_label_prefix(rows@, label@, j as int);
                assert(rows@.subrange(0, j as int).last() == rows@[j - 1]);
            }
            return Some(j - 1);
        }
        j = j - 1;
    }
    proof {
        lemma_find_label_prefix(rows@, label@, 0);
    }
    None
}

/// Aggregates a table by label, as `aggregate` says.
pub fn aggregate_slots(slots: &Vec<Slot>) -> (rows: Vec<LabelTotals>)
    requires
        slots@.len() <= SLOT_COUNT,
    ensures
        rows@ == aggregate(slots@),
{
    let mut rows: Vec<LabelTotals> = Vec::new();
    let mut i: usize = 0;
    while i < slots.len()
        invariant
            i <= slots@.len() <= SLOT_COUNT,
            rows@ == aggregate(slots@.subrange(0, i as int)),
        decreases slots@.len() - i,
    {
        let s = slots[i];
        proof {
            assert(slots@.subrange(0, i + 1).drop_last() =~= slots@.subrange(0, i as int));
            lemma_aggregate_bounded(slots@.subrange(0, i as int));
            assert(i * u64::MAX + u64::MAX <= u128::MAX) by (nonlinear_arith)
                requires
                    i < SLOT_COUNT,
            ;
        }
        if s.exclusive_cycles != 0 {
            match find_row(&rows, s.label) {
                None => {
                    rows.push(
                        LabelTotals {
                            label: s.label,
                            exclusive_cycles: s.exclusive_cycles as u128,
                            child_cycles: s.child_cycles as u128,
                            bytes: s.bytes as u128,
                        },
                    );
                },
                Some(k) => {
                    proof {
                        lemma_find_label_bounds(rows@, s.label@);
                    }
                    let r = rows[k];
                    rows.set(
                        k,
                        LabelTotals {
                            label: r.label,
                            exclusive_cycles: r.exclusive_cycles + s.exclusive_cycles as u128,
                            child_cycles: r.child_cycles + s.child_cycles as u128,
                            bytes: r.bytes + s.bytes as u128,
                        },
                    );
                },
            }
        }
        i = i + 1;
    }
    proof {
        assert(slots@.subrange(0, slots@.len() as int) =~= slots@);
    }
    rows
}

/// Sum of the exclusive cycles of a table, as `total_exclusive` says.
pub fn total_exclusive_cycles(slots: &Vec<Slot>) -> (r: u128)
    requires
        slots@.len() <= SLOT_COUNT,
    ensures
        r == total_exclusive(slots@),
{
    let mut total: u128 = 0;
    let mut i: usize = 0;
    while i < slots.len()
        invariant
            i <= slots@.len() <= SLOT_COUNT,
            total == total_exclusive(slots@.subrange(0, i as int)),
            total <= i * u64::MAX,
        decreases slots@.len() - i,
    {
        proof {
            assert(slots@.subrange(0, i + 1).drop_last() =~= slots@.subrange(0, i as int));
            assert(i * u64::MAX + u64::MAX == (i + 1) * u64::MAX) by (nonlinear_arith);
            assert((i + 1) * u64::MAX <= SLOT_COUNT * u64::MAX) by (nonlinear_arith)
                requires
                    i < SLOT_COUNT,
            ;
        }
        total = total + slots[i].exclusive_cycles as u128;
        i = i + 1;
    }
    proof {
        assert(slots@.subrange(0, slots@.len() as int) =~= slots@);
    }
    total
}

/// What a session's end reports: its length on the wall clock, the
/// estimated frequency, the exclusive cycles of all slots, and the table
/// aggregated by label.
pub struct Report {
    pub wall_ticks: u128,
    pub cpu_freq: u128,
    pub total_cycles: u128,
    pub rows: Vec<LabelTotals>,
}

impl Benchmark {
    /// Ends the session at cycle reading `end_cpu`, `wall_ticks` wall-clock
    /// ticks after it started, and builds its report.
    pub fn report(&self, end_cpu: u64, wall_ticks: u128) -> (r: Report)
        requires
            self.wf(),
            wall_ticks > 0,
        ensures
            r.wall_ticks == wall_ticks,
            r.cpu_freq == frequency(elapsed(self@.start_cpu, end_cpu), wall_ticks),
            r.total_cycles == total_exclusive(self@.slots),
            r.rows@ == aggregate(self@.slots),
    {
        let cycles = end_cpu.wrapping_sub(self.start_cpu());
        let cpu_freq = estimate_frequency(cycles, wall_ticks);
        let slots = self.slots();
        Report {
            wall_ticks,
            cpu_freq,
            total_cycles: total_exclusive_cycles(slots),
            rows: aggregate_slots(slots),
        }
    }
}

} // verus!
