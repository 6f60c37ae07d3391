//! Laws of the one-level attribution model, stated over the session states
//! that the guards' contracts produce.
use vstd::prelude::*;
use crate::metrics::{SessionView, wadd, elapsed, enter_state, exit_state, bytes_state};

verus! {

/// One guarded region with no other region open around it or inside it: its
/// label, its slot and the cycle readings on entry and on exit.
pub struct Visit {
    pub label: &'static str,
    pub slot: usize,
    pub start: u64,
    pub end: u64,
}

/// The state after the visits, one after the other.
pub open spec fn run_visits(s: SessionView, visits: Seq<Visit>) -> SessionView
    decreases visits.len(),
{
    if visits.len() == 0 {
        s
    } else {
        let v = visits.last();
        let before = run_visits(s, visits.drop_last());
        exit_state(enter_state(before, v.label, v.slot as int), v.slot as int, elapsed(v.start, v.end))
    }
}

/// `base` plus the cycles of every visit of `slot`, wrapping at 2^64.
pub open spec fn visit_cycles(visits: Seq<Visit>, slot: int, base: u64) -> u64
    decreases visits.len(),
{
    if visits.len() == 0 {
        base
    } else {
        let v = visits.last();
        let before = visit_cycles(visits.drop_last(), slot, base);
        if v.slot == slot {
            wadd(before, elapsed(v.start, v.end))
        } else {
            before
        }
    }
}

/// Regions that neither nest nor overlap: each slot's exclusive cycles grow
/// by exactly the cycles of its own visits, and no child cycles are added.
pub proof fn lemma_flat_visits(s: SessionView, visits: Seq<Visit>)
    requires
        s.depth == 0,
        s.child_carry == 0,
        forall|i: int| 0 <= i < visits.len() ==> #[trigger] visits[i].slot < s.slots.len(),
    ensures
        run_visits(s, visits).depth == 0,
        run_visits(s, visits).child_carry == 0,
        run_visits(s, visits).slots.len() == s.slots.len(),
        forall|k: int| 0 <= k < s.slots.len() ==> {
            &&& #[trigger] run_visits(s, visits).slots[k].exclusive_cycles == visit_cycles(
                visits,
                k,
                s.slots[k].exclusive_cycles,
            )
            &&& run_visits(s, visits).slots[k].child_cycles == s.slots[k].child_cycles
        },
    decreases visits.len(),
{
    if visits.len() > 0 {
        let prefix = visits.drop_last();
        assert forall|i: int| 0 <= i < prefix.len() implies #[trigger] prefix[i].slot
            < s.slots.len() by {
            assert(prefix[i] == visits[i]);
        }
        lemma_flat_visits(s, prefix);
        let v = visits.last();
        assert(visits[visits.len() - 1] == v);
        let before = run_visits(s, prefix);
        let r = run_visits(s, visits);
        assert forall|k: int| 0 <= k < s.slots.len() implies {
            &&& #[trigger] r.slots[k].exclusive_cycles == visit_cycles(
                visits,
                k,
                s.slots[k].exclusive_cycles,
            )
            &&& r.slots[k].child_cycles == s.slots[k].child_cycles
        } by {
            assert(before.slots[k].exclusive_cycles == visit_cycles(
                prefix,
                k,
                s.slots[k].exclusive_cycles,
            ));
            assert(wadd(before.slots[k].child_cycles, 0) == before.slots[k].child_cycles);
        }
    }
}

/// A root with exactly one direct child and nothing deeper: the root's slot
/// takes the child's cycles as child cycles, and its own whole span, child
/// included, as exclusive cycles, so the latter are never the smaller.
///
/// The root is entered at `t0`, the child spans `t1` to `t2`, and the root
/// exits at `t3`.
pub proof fn lemma_direct_child(
    s: SessionView,
    root_label: &'static str,
    root: int,
    child_label: &'static str,
    child: int,
    t0: u64,
    t1: u64,
    t2: u64,
    t3: u64,
)
    requires
        s.depth == 0,
        s.child_carry == 0,
        0 <= root < s.slots.len(),
        0 <= child < s.slots.len(),
        s.slots[root].exclusive_cycles == 0,
        s.slots[root].child_cycles == 0,
        t0 <= t1 <= t2 <= t3,
    ensures
        ({
            let inside = enter_state(enter_state(s, root_label, root), child_label, child);
            let r = exit_state(exit_state(inside, child, elapsed(t1, t2)), root, elapsed(t0, t3));
            &&& r.depth == 0
            &&& r.slots[root].child_cycles == t2 - t1
            &&& r.slots[root].exclusive_cycles == t3 - t0
            &&& r.slots[root].exclusive_cycles >= r.slots[root].child_cycles
        }),
{
}

/// Three levels, root, child and grandchild: the grandchild's slot gets no
/// exclusive cycles of its own, and the root's child cycles are the child's
/// whole span, which holds the grandchild's.
///
/// The child spans `c0` to `c1`, the grandchild `g0` to `g1` inside it, and
/// the root `r0` to `r1` around both.
pub proof fn lemma_grandchild_folded(
    s: SessionView,
    root_label: &'static str,
    root: int,
    child_label: &'static str,
    child: int,
    grand_label: &'static str,
    grand: int,
    r0: u64,
    c0: u64,
    g0: u64,
    g1: u64,
    c1: u64,
    r1: u64,
)
    requires
        s.depth == 0,
        s.child_carry == 0,
        0 <= root < s.slots.len(),
        0 <= child < s.slots.len(),
        0 <= grand < s.slots.len(),
        grand != root,
        s.slots[grand].exclusive_cycles == 0,
        s.slots[root].child_cycles == 0,
        r0 <= c0 <= g0 <= g1 <= c1 <= r1,
    ensures
        ({
            let opened = enter_state(
                enter_state(enter_state(s, root_label, root), child_label, child),
                grand_label,
                grand,
            );
            let r = exit_state(
                exit_state(exit_state(opened, grand, elapsed(g0, g1)), child, elapsed(c0, c1)),
                root,
                elapsed(r0, r1),
            );
            &&& r.depth == 0
            &&& r.slots[grand].exclusive_cycles == 0
            &&& r.slots[root].child_cycles == c1 - c0
            &&& r.slots[root].child_cycles >= g1 - g0
        }),
{
}

/// Bytes recorded inside a nested scope, or while no scope is open, are
/// attributed to the root slot when that root closes, and nothing stays
/// carried.
pub proof fn lemma_bytes_to_root(
    s: SessionView,
    root_label: &'static str,
    root: int,
    child_label: &'static str,
    child: int,
    amount: u64,
    root_cycles: u64,
    child_cycles: u64,
)
    requires
        s.depth == 0,
        s.byte_carry == 0,
        0 <= root < s.slots.len(),
        0 <= child < s.slots.len(),
        s.slots[root].bytes == 0,
    ensures
        ({
            let inside = enter_state(enter_state(s, root_label, root), child_label, child);
            let closed = exit_state(
                exit_state(bytes_state(inside, amount), child, child_cycles),
                root,
                root_cycles,
            );
            &&& closed.slots[root].bytes == amount
            &&& closed.byte_carry == 0
        }),
        ({
            let early = enter_state(bytes_state(s, amount), root_label, root);
            let closed = exit_state(early, root, root_cycles);
            &&& closed.slots[root].bytes == amount
            &&& closed.byte_carry == 0
        }),
{
}

/// One operation on a session: a guard entering a slot, the guard of a slot
/// exiting after some cycles, or bytes being recorded.
pub enum GuardEvent {
    Enter { label: &'static str, slot: usize },
    Exit { slot: usize, cycles: u64 },
    Bytes { amount: u64 },
}

/// The state after one event.
pub open spec fn apply(s: SessionView, e: GuardEvent) -> SessionView {
    match e {
        GuardEvent::Enter { label, slot } => enter_state(s, label, slot as int),
        GuardEvent::Exit { slot, cycles } => exit_state(s, slot as int, cycles),
        GuardEvent::Bytes { amount } => bytes_state(s, amount),
    }
}

/// The state after the events, in order.
pub open spec fn run(s: SessionView, events: Seq<GuardEvent>) -> SessionView
    decreases events.len(),
{
    if events.len() == 0 {
        s
    } else {
        run(apply(s, events[0]), events.drop_first())
    }
}

/// How an event changes the number of open guards.
pub open spec fn depth_change(e: GuardEvent) -> int {
    match e {
        GuardEvent::Enter { .. } => 1,
        GuardEvent::Exit { .. } => -1,
        GuardEvent::Bytes { .. } => 0,
    }
}

/// Guards opened minus guards closed by the events.
pub open spec fn net_depth(events: Seq<GuardEvent>) -> int
    decreases events.len(),
{
    if events.len() == 0 {
        0
    } else {
        depth_change(events[0]) + net_depth(events.drop_first())
    }
}

/// Starting with `open` guards open, no event closes a guard when none is open.
pub open spec fn never_underflows(open: int, events: Seq<GuardEvent>) -> bool
    decreases events.len(),
{
    if events.len() == 0 {
        true
    } else {
        let next = open + depth_change(events[0]);
        next >= 0 && never_underflows(next, events.drop_first())
    }
}

/// Events that close every guard they open, each after it was opened.
pub open spec fn balanced(events: Seq<GuardEvent>) -> bool {
    never_underflows(0, events) && net_depth(events) == 0
}

proof fn lemma_run_depth(s: SessionView, events: Seq<GuardEvent>)
    requires
        never_underflows(s.depth as int, events),
    ensures
        run(s, events).depth == s.depth + net_depth(events),
    decreases events.len(),
{
    if events.len() > 0 {
        lemma_run_depth(apply(s, events[0]), events.drop_first());
    }
}

proof fn lemma_never_underflows_raise(open: int, events: Seq<GuardEvent>)
    requires
        never_underflows(open, events),
    ensures
        never_underflows(open + 1, events),
    decreases events.len(),
{
    if events.len() > 0 {
        lemma_never_underflows_raise(open + depth_change(events[0]), events.drop_first());
    }
}

proof fn lemma_push_event(open: int, events: Seq<GuardEvent>, e: GuardEvent)
    requires
        never_underflows(open, events),
        open + net_depth(events) + depth_change(e) >= 0,
    ensures
        never_underflows(open, events.push(e)),
        net_depth(events.push(e)) == net_depth(events) + depth_change(e),
    decreases events.len(),
{
    let pushed = events.push(e);
    if events.len() == 0 {
        assert(pushed[0] == e);
        assert(pushed.drop_first().len() == 0);
        assert(net_depth(pushed.drop_first()) == 0);
        assert(never_underflows(open + depth_change(e), pushed.drop_first()));
    } else {
        assert(pushed[0] == events[0]);
        assert(pushed.drop_first() =~= events.drop_first().push(e));
        lemma_push_event(open + depth_change(events[0]), events.drop_first(), e);
    }
}

/// A top-level guard closes with the session's depth back at zero, however
/// deeply guards nested inside it.
pub proof fn lemma_depth_restored(
    s: SessionView,
    label: &'static str,
    slot: usize,
    inner: Seq<GuardEvent>,
    cycles: u64,
)
    requires
        s.depth == 0,
        balanced(inner),
    ensures
        run(
            s,
            seq![GuardEvent::Enter { label, slot }] + inner + seq![
                GuardEvent::Exit { slot, cycles },
            ],
        ).depth == 0,
{
    let enter = GuardEvent::Enter { label, slot };
    let exit = GuardEvent::Exit { slot, cycles };
    let events = seq![enter] + inner + seq![exit];
    assert(events[0] == enter);
    assert(events.drop_first() =~= inner.push(exit));
    lemma_never_underflows_raise(0, inner);
    lemma_push_event(1, inner, exit);
    lemma_run_depth(apply(s, enter), inner.push(exit));
}

} // verus!
