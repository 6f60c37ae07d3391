use vstd::prelude::*;

verus! {

/// Number of slots in the table; a call site's slot id is below this.
pub const SLOT_COUNT: usize = 1024;

/// Wall-clock ticks per second of the reference clock (nanoseconds).
pub const TICKS_PER_SECOND: u64 = 1_000_000_000;

/// The accumulators of one instrumented call site.
#[derive(Clone, Copy)]
pub struct Slot {
    /// Cycles of this site's closes that left no scope open.
    pub exclusive_cycles: u64,
    /// Cycles handed up by direct children at those closes.
    pub child_cycles: u64,
    /// Bytes attributed at those closes.
    pub bytes: u64,
    /// Label of the last entry into this slot.
    pub label: &'static str,
}

/// A slot that was never touched.
pub open spec fn empty_slot(s: Slot) -> bool {
    s.exclusive_cycles == 0 && s.child_cycles == 0 && s.bytes == 0 && s.label@.len() == 0
}

/// The state of a measurement session as the contracts see it.
pub struct SessionView {
    pub start_cpu: u64,
    pub slots: Seq<Slot>,
    pub depth: nat,
    pub child_carry: u64,
    pub byte_carry: u64,
}

/// Sum of two counters, wrapping at 2^64.
pub open spec fn wadd(a: u64, b: u64) -> u64 {
    vstd::wrapping::u64_specs::wrapping_add(a, b)
}

/// Cycles between two readings of a wrapping counter.
pub open spec fn elapsed(start: u64, end: u64) -> u64 {
    vstd::wrapping::u64_specs::wrapping_sub(end, start)
}

/// The state after a guard enters `slot` with `label`.
pub open spec fn enter_state(s: SessionView, label: &'static str, slot: int) -> SessionView {
    SessionView {
        depth: s.depth + 1,
        slots: s.slots.update(slot, Slot { label, ..s.slots[slot] }),
        ..s
    }
}

/// The state after the guard of `slot` exits, having spanned `cycles`.
///
/// A close that leaves no scope open takes its own cycles and the pending
/// carries into its slot; a close that leaves exactly the root open adds its
/// cycles to the carry; deeper closes change nothing but the depth.
pub open spec fn exit_state(s: SessionView, slot: int, cycles: u64) -> SessionView {
    let depth = (s.depth - 1) as nat;
    if depth == 0 {
        let old_slot = s.slots[slot];
        SessionView {
            depth,
            slots: s.slots.update(
                slot,
                Slot {
                    exclusive_cycles: wadd(old_slot.exclusive_cycles, cycles),
                    child_cycles: wadd(old_slot.child_cycles, s.child_carry),
                    bytes: wadd(old_slot.bytes, s.byte_carry),
                    ..old_slot
                },
            ),
            child_carry: 0,
            byte_carry: 0,
            ..s
        }
    } else if depth == 1 {
        SessionView { depth, child_carry: wadd(s.child_carry, cycles), ..s }
    } else {
        SessionView { depth, ..s }
    }
}

/// The state after `amount` bytes are recorded.
pub open spec fn bytes_state(s: SessionView, amount: u64) -> SessionView {
    SessionView { byte_carry: wadd(s.byte_carry, amount), ..s }
}

/// A measurement session: the slot table, the number of open guards and the
/// cycles and bytes not yet attributed to a root close.
pub struct Benchmark {
    start_cpu: u64,
    slots: Vec<Slot>,
    depth: usize,
    child_carry: u64,
    byte_carry: u64,
}

impl View for Benchmark {
    type V = SessionView;

    closed spec fn view(&self) -> SessionView {
        SessionView {
            start_cpu: self.start_cpu,
            slots: self.slots@,
            depth: self.depth as nat,
            child_carry: self.child_carry,
            byte_carry: self.byte_carry,
        }
    }
}

impl Benchmark {
    /// The table has its fixed size.
    pub open spec fn wf(&self) -> bool {
        self@.slots.len() == SLOT_COUNT
    }

    /// Starts a session at cycle reading `start_cpu`, with an empty table,
    /// no open guard and nothing carried.
    pub fn init(start_cpu: u64) -> (r: Self)
        ensures
            r.wf(),
            r@.start_cpu == start_cpu,
            r@.slots.len() == SLOT_COUNT,
            forall|i: int| 0 <= i < SLOT_COUNT ==> empty_slot(#[trigger] r@.slots[i]),
            r@.depth == 0,
            r@.child_carry == 0,
            r@.byte_carry == 0,
    {
        let mut slots: Vec<Slot> = Vec::new();
        let mut i: usize = 0;
        while i < SLOT_COUNT
            invariant
                i <= SLOT_COUNT,
                slots@.len() == i,
                forall|k: int| 0 <= k < i ==> empty_slot(#[trigger] slots@[k]),
            decreases SLOT_COUNT - i,
        {
            proof {
                reveal_strlit("");
            }
            slots.push(Slot { exclusive_cycles: 0, child_cycles: 0, bytes: 0, label: "" });
            i = i + 1;
        }
        Benchmark { start_cpu, slots, depth: 0, child_carry: 0, byte_carry: 0 }
    }
}

impl Benchmark {
    /// Cycle reading taken when the session started.
    pub fn start_cpu(&self) -> (r: u64)
        ensures
            r == self@.start_cpu,
    {
        self.start_cpu
    }

    /// Number of guards currently open.
    pub fn depth(&self) -> (r: usize)
        ensures
            r == self@.depth,
    {
        self.depth
    }

    /// Cycles handed up by direct children of the open root, not yet attributed.
    pub fn child_carry(&self) -> (r: u64)
        ensures
            r == self@.child_carry,
    {
        self.child_carry
    }

    /// Bytes recorded since the last root close, not yet attributed.
    pub fn byte_carry(&self) -> (r: u64)
        ensures
            r == self@.byte_carry,
    {
        self.byte_carry
    }

    /// The whole slot table.
    pub fn slots(&self) -> (r: &Vec<Slot>)
        ensures
            r@ == self@.slots,
    {
        &self.slots
    }

    /// The accumulators of slot `id`.
    pub fn slot(&self, id: usize) -> (r: Slot)
        requires
            self.wf(),
            id < SLOT_COUNT,
        ensures
            r == self@.slots[id as int],
    {
        self.slots[id]
    }
}

/// The open guard of one instrumented region: its slot and the cycle reading
/// taken on entry.
pub struct BenchmarkOnDrop {
    start: u64,
    slot: usize,
}

impl BenchmarkOnDrop {
    /// Cycle reading taken on entry.
    pub closed spec fn start_cycles(&self) -> u64 {
        self.start
    }

    /// The slot this guard accounts to.
    pub closed spec fn slot_id(&self) -> int {
        self.slot as int
    }

    /// Enters the region of call site `slot`, labelled `name`, at cycle
    /// reading `start`: one more guard is open and the slot takes the label.
    pub fn new(bench: &mut Benchmark, name: &'static str, slot: usize, start: u64) -> (r: Self)
        requires
            old(bench).wf(),
            slot < SLOT_COUNT,
            old(bench)@.depth < usize::MAX,
        ensures
            final(bench).wf(),
            final(bench)@ == enter_state(old(bench)@, name, slot as int),
            r.slot_id() == slot,
            r.start_cycles() == start,
    {
        bench.depth = bench.depth + 1;
        bench.slots[slot].label = name;
        BenchmarkOnDrop { start, slot }
    }

    /// Leaves the region at cycle reading `end` and accounts for the cycles
    /// it spanned, as `exit_state` says.
    pub fn exit(self, bench: &mut Benchmark, end: u64)
        requires
            old(bench).wf(),
            self.slot_id() < SLOT_COUNT,
            old(bench)@.depth > 0,
        ensures
            final(bench).wf(),
            final(bench)@ == exit_state(old(bench)@, self.slot_id(), elapsed(self.start_cycles(), end)),
    {
        bench.depth = bench.depth - 1;
        let cycles = end.wrapping_sub(self.start);
        if bench.depth == 0 {
            let child = bench.child_carry;
            let bytes = bench.byte_carry;
            let old_slot = bench.slots[self.slot];
            bench.slots[self.slot] = Slot {
                exclusive_cycles: old_slot.exclusive_cycles.wrapping_add(cycles),
                child_cycles: old_slot.child_cycles.wrapping_add(child),
                bytes: old_slot.bytes.wrapping_add(bytes),
                label: old_slot.label,
            };
            bench.child_carry = 0;
            bench.byte_carry = 0;
        } else if bench.depth == 1 {
            bench.child_carry = bench.child_carry.wrapping_add(cycles);
        }
    }
}

/// Adds `bytes` to the bytes pending for the next root close. With no guard
/// open they wait for the next root to close.
pub fn record_bytes(bench: &mut Benchmark, bytes: u64)
    ensures
        final(bench).wf() == old(bench).wf(),
        final(bench)@ == bytes_state(old(bench)@, bytes),
{
    bench.byte_carry = bench.byte_carry.wrapping_add(bytes);
}

/// Ticks per second of the wall clock that frequencies are measured against.
pub fn os_freq() -> (r: u64)
    ensures
        r == TICKS_PER_SECOND,
{
    TICKS_PER_SECOND
}

/// The frequency that `cycle_delta` cycles over `wall_delta` wall-clock ticks
/// amount to, in cycles per second.
pub open spec fn frequency(cycle_delta: u64, wall_delta: u128) -> int {
    cycle_delta * TICKS_PER_SECOND / wall_delta as int
}

/// Estimates the cycle counter's frequency from the cycles and the wall-clock
/// ticks that passed over one span.
pub fn estimate_frequency(cycle_delta: u64, wall_delta: u128) -> (r: u128)
    requires
        wall_delta > 0,
    ensures
        r == frequency(cycle_delta, wall_delta),
{
    let ticks = os_freq();
    assert(cycle_delta * ticks <= u64::MAX * TICKS_PER_SECOND) by (nonlinear_arith)
        requires
            ticks == TICKS_PER_SECOND,
    ;
    (cycle_delta as u128) * (ticks as u128) / wall_delta
}

} // verus!
