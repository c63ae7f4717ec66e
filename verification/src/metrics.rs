//! Counters for the cost of segment max/min.
use vstd::prelude::*;

use crate::scatter::Tensor3;

verus! {

/// Runtime counters for segment max/min on host snapshots.
///
/// The winners are chosen on values that were copied from the device; these
/// counters make that cost visible.
#[derive(Clone, Copy, Debug, PartialEq, Eq, Structural)]
pub struct ScatterMetrics {
    /// Number of segment max/min calls.
    pub calls: u64,
    /// Number of `[query, edge, dim]` values inspected.
    pub elements: u64,
    /// Nanoseconds spent copying values from the device.
    pub snapshot_nanos: u64,
    /// Nanoseconds spent choosing winners.
    pub scan_nanos: u64,
    /// Nanoseconds spent gathering the winners' values.
    pub gather_nanos: u64,
}

/// What one segment max/min call adds to the counters.
#[derive(Clone, Copy, Debug, PartialEq, Eq, Structural)]
pub struct ScatterCall {
    /// Number of `[query, edge, dim]` values inspected.
    pub elements: usize,
    /// Nanoseconds spent copying values from the device.
    pub snapshot: u128,
    /// Nanoseconds spent choosing winners.
    pub scan: u128,
    /// Nanoseconds spent gathering the winners' values.
    pub gather: u128,
}

/// `a - b`, or zero where that is negative.
pub open spec fn excess(a: u64, b: u64) -> int {
    if a > b {
        a - b
    } else {
        0
    }
}

/// `a + b` on a counter that starts over after its largest value.
pub open spec fn rolled(a: u64, b: int) -> int {
    (a + b) % 0x1_0000_0000_0000_0000
}

/// `n`, or the largest counter value where that is less.
pub open spec fn capped(n: u128) -> u64 {
    if n > u64::MAX {
        u64::MAX
    } else {
        n as u64
    }
}

/// Nanoseconds as a counter holds them.
pub fn duration_nanos(nanos: u128) -> (r: u64)
    ensures
        r == capped(nanos),
{
    if nanos > u64::MAX as u128 {
        u64::MAX
    } else {
        nanos as u64
    }
}

impl Default for ScatterMetrics {
    fn default() -> (r: ScatterMetrics)
        ensures
            r == (ScatterMetrics {
                calls: 0,
                elements: 0,
                snapshot_nanos: 0,
                scan_nanos: 0,
                gather_nanos: 0,
            }),
    {
        ScatterMetrics { calls: 0, elements: 0, snapshot_nanos: 0, scan_nanos: 0, gather_nanos: 0 }
    }
}

impl ScatterMetrics {
    /// Returns `self - earlier`, saturating at zero per field.
    pub fn saturating_sub(self, earlier: ScatterMetrics) -> (r: ScatterMetrics)
        ensures
            r.calls == excess(self.calls, earlier.calls),
            r.elements == excess(self.elements, earlier.elements),
            r.snapshot_nanos == excess(self.snapshot_nanos, earlier.snapshot_nanos),
            r.scan_nanos == excess(self.scan_nanos, earlier.scan_nanos),
            r.gather_nanos == excess(self.gather_nanos, earlier.gather_nanos),
    {
        ScatterMetrics {
            calls: self.calls.saturating_sub(earlier.calls),
            elements: self.elements.saturating_sub(earlier.elements),
            snapshot_nanos: self.snapshot_nanos.saturating_sub(earlier.snapshot_nanos),
            scan_nanos: self.scan_nanos.saturating_sub(earlier.scan_nanos),
            gather_nanos: self.gather_nanos.saturating_sub(earlier.gather_nanos),
        }
    }

    /// Total measured nanoseconds across snapshot, scan and gather.
    pub fn total_nanos(self) -> (r: u64)
        requires
            self.snapshot_nanos + self.scan_nanos + self.gather_nanos <= u64::MAX,
        ensures
            r == self.snapshot_nanos + self.scan_nanos + self.gather_nanos,
    {
        self.snapshot_nanos + self.scan_nanos + self.gather_nanos
    }

    /// `after` are the counters after one more call.
    pub open spec fn is_recorded(self, call: ScatterCall, after: ScatterMetrics) -> bool {
        &&& after.calls == rolled(self.calls, 1)
        &&& after.elements == rolled(self.elements, call.elements as int)
        &&& after.snapshot_nanos == rolled(self.snapshot_nanos, capped(call.snapshot) as int)
        &&& after.scan_nanos == rolled(self.scan_nanos, capped(call.scan) as int)
        &&& after.gather_nanos == rolled(self.gather_nanos, capped(call.gather) as int)
    }

    /// The counters after one more call that inspected `elements` values and
    /// took the given times.
    pub fn recorded(self, elements: usize, snapshot: u128, scan: u128, gather: u128) -> (r:
        ScatterMetrics)
        ensures
            self.is_recorded((ScatterCall { elements, snapshot, scan, gather }), r),
    {
        ScatterMetrics {
            calls: self.calls.wrapping_add(1),
            elements: self.elements.wrapping_add(elements as u64),
            snapshot_nanos: self.snapshot_nanos.wrapping_add(duration_nanos(snapshot)),
            scan_nanos: self.scan_nanos.wrapping_add(duration_nanos(scan)),
            gather_nanos: self.gather_nanos.wrapping_add(duration_nanos(gather)),
        }
    }
}

/// As long as a counter does not start over, the difference of two readings is
/// what was added between them.
pub proof fn readings_differ_by_what_was_added(before: u64, added: int, after: u64)
    requires
        0 <= added,
        before + added <= u64::MAX,
        after == rolled(before, added),
    ensures
        excess(after, before) == added,
{
}

/// Reads the counters, which stay as they are.
pub fn scatter_metrics(counters: &ScatterMetrics) -> (r: ScatterMetrics)
    ensures
        r == *counters,
{
    *counters
}

/// Resets the counters.
pub fn reset_scatter_metrics(counters: &mut ScatterMetrics)
    ensures
        *final(counters) == (ScatterMetrics {
            calls: 0,
            elements: 0,
            snapshot_nanos: 0,
            scan_nanos: 0,
            gather_nanos: 0,
        }),
{
    *counters = ScatterMetrics::default();
}

/// Counts one more call.
pub fn record_scatter_metrics(
    counters: &mut ScatterMetrics,
    elements: usize,
    snapshot: u128,
    scan: u128,
    gather: u128,
)
    ensures
        old(counters).is_recorded(
            (ScatterCall { elements, snapshot, scan, gather }),
            *final(counters),
        ),
{
    let now: ScatterMetrics = *counters;
    *counters = now.recorded(elements, snapshot, scan, gather);
}

/// Counts one more call, which inspected every value of `values`.
pub fn record_call(
    counters: &mut ScatterMetrics,
    values: &Tensor3,
    snapshot: u128,
    scan: u128,
    gather: u128,
)
    requires
        values.wf(),
    ensures
        old(counters).is_recorded(
            (ScatterCall {
                elements: (values.queries * values.items * values.dims) as usize,
                snapshot,
                scan,
                gather,
            }),
            *final(counters),
        ),
{
    record_scatter_metrics(counters, values.elements(), snapshot, scan, gather);
}

/// The sum over `calls` of what each of them adds to one counter.
pub open spec fn added(calls: Seq<ScatterCall>, part: spec_fn(ScatterCall) -> nat) -> nat
    decreases calls.len(),
{
    if calls.len() == 0 {
        0
    } else {
        added(calls.drop_last(), part) + part(calls.last())
    }
}

/// The counters went from `states[0]` through one state after each call.
pub open spec fn is_history(calls: Seq<ScatterCall>, states: Seq<ScatterMetrics>) -> bool {
    &&& states.len() == calls.len() + 1
    &&& forall|i: int|
        0 <= i < calls.len() ==> #[trigger] states[i].is_recorded(calls[i], states[i + 1])
}

/// After a reset and any number of calls the counters hold the number of calls
/// and the sums of what they added, as long as none starts over. Without calls
/// all of them are zero.
pub proof fn counters_add_up_over_calls(calls: Seq<ScatterCall>, states: Seq<ScatterMetrics>)
    requires
        is_history(calls, states),
        states[0] == (ScatterMetrics {
            calls: 0,
            elements: 0,
            snapshot_nanos: 0,
            scan_nanos: 0,
            gather_nanos: 0,
        }),
        calls.len() <= u64::MAX,
        added(calls, |c: ScatterCall| c.elements as nat) <= u64::MAX,
        added(calls, |c: ScatterCall| capped(c.snapshot) as nat) <= u64::MAX,
        added(calls, |c: ScatterCall| capped(c.scan) as nat) <= u64::MAX,
        added(calls, |c: ScatterCall| capped(c.gather) as nat) <= u64::MAX,
    ensures
        states.last().calls == calls.len(),
        states.last().elements == added(calls, |c: ScatterCall| c.elements as nat),
        states.last().snapshot_nanos == added(calls, |c: ScatterCall| capped(c.snapshot) as nat),
        states.last().scan_nanos == added(calls, |c: ScatterCall| capped(c.scan) as nat),
        states.last().gather_nanos == added(calls, |c: ScatterCall| capped(c.gather) as nat),
    decreases calls.len(),
{
    if calls.len() > 0 {
        let before = calls.drop_last();
        let until = states.drop_last();
        assert forall|i: int| 0 <= i < before.len() implies #[trigger] until[i].is_recorded(
            before[i],
            until[i + 1],
        ) by {
            assert(states[i].is_recorded(calls[i], states[i + 1]));
        }
        counters_add_up_over_calls(before, until);
        let i = calls.len() - 1;
        assert(states[i].is_recorded(calls[i], states[i + 1]));
    }
}

/// The number of values in tensors of the given `[queries, edges, dims]`.
pub open spec fn values_in(shapes: Seq<(nat, nat, nat)>) -> nat
    decreases shapes.len(),
{
    if shapes.len() == 0 {
        0
    } else {
        let (queries, edges, dims) = shapes.last();
        values_in(shapes.drop_last()) + queries * edges * dims
    }
}

/// Calls that inspect each value of their tensors once add up to the number of
/// those values.
pub proof fn calls_inspect_each_value_once(
    shapes: Seq<(nat, nat, nat)>,
    calls: Seq<ScatterCall>,
)
    requires
        shapes.len() == calls.len(),
        forall|i: int|
            0 <= i < calls.len() ==> (#[trigger] calls[i]).elements == shapes[i].0 * shapes[i].1
                * shapes[i].2,
    ensures
        added(calls, |c: ScatterCall| c.elements as nat) == values_in(shapes),
    decreases calls.len(),
{
    if calls.len() > 0 {
        let (fewer, before) = (shapes.drop_last(), calls.drop_last());
        assert forall|i: int| 0 <= i < before.len() implies (#[trigger] before[i]).elements
            == fewer[i].0 * fewer[i].1 * fewer[i].2 by {
            assert(before[i] == calls[i]);
        }
        calls_inspect_each_value_once(fewer, before);
        assert(calls[calls.len() - 1] == calls.last());
    }
}

/// A difference of counters is what has to be added to the earlier one to get the
/// later one, and zero where nothing has to.
pub proof fn differences_stop_at_zero(later: u64, earlier: u64)
    ensures
        earlier <= later ==> earlier + excess(later, earlier) == later,
        later <= earlier ==> excess(later, earlier) == 0,
{
}

/// What recording adds, while nothing starts over: one call, its values, and its
/// times in nanoseconds, of which a counter holds at most its largest value. A
/// counter that does start over has lost two to the sixty-fourth.
pub proof fn recording_adds_one_call(
    before: ScatterMetrics,
    call: ScatterCall,
    after: ScatterMetrics,
)
    requires
        before.is_recorded(call, after),
    ensures
        after.calls == if before.calls < u64::MAX {
            before.calls + 1
        } else {
            0
        },
        before.elements + call.elements <= u64::MAX ==> after.elements == before.elements
            + call.elements,
        before.elements + call.elements > u64::MAX ==> after.elements == before.elements
            + call.elements - 0x1_0000_0000_0000_0000,
        before.snapshot_nanos + call.snapshot <= u64::MAX ==> after.snapshot_nanos
            == before.snapshot_nanos + call.snapshot,
        before.scan_nanos + call.scan <= u64::MAX ==> after.scan_nanos == before.scan_nanos
            + call.scan,
        before.gather_nanos + call.gather <= u64::MAX ==> after.gather_nanos == before.gather_nanos
            + call.gather,
        call.snapshot > u64::MAX && before.snapshot_nanos == 0 ==> after.snapshot_nanos == u64::MAX,
        call.scan > u64::MAX && before.scan_nanos == 0 ==> after.scan_nanos == u64::MAX,
        call.gather > u64::MAX && before.gather_nanos == 0 ==> after.gather_nanos == u64::MAX,
{
}

/// Durations are held as they are, up to the largest value of a counter.
pub proof fn durations_are_held_up_to_the_largest(n: u128)
    ensures
        n <= u64::MAX ==> capped(n) == n,
        n >= u64::MAX ==> capped(n) == u64::MAX,
{
}

/// Rolling over keeps the sum, but for whole rounds of the counter.
pub proof fn rolling_loses_whole_rounds(a: u64, b: u64)
    ensures
        rolled(a, b as int) == a + b || rolled(a, b as int) == a + b - 0x1_0000_0000_0000_0000,
        0 <= rolled(a, b as int) <= u64::MAX,
{
}

} // verus!
