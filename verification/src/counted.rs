//! Segment max/min that counts itself.
//!
//! A call chooses the winners on a snapshot of the values, hands them to the
//! caller's `gather`, and records itself in the counters: one call, every value
//! of the snapshot, and the times that the caller's `clock` shows.
use vstd::prelude::*;

use crate::metrics::{record_call, ScatterMetrics};
use crate::scatter::{segment_winners, Tensor3};

verus! {

/// `out` is what `gather` makes of the winners of every segment.
pub open spec fn is_gathered<T, G: Fn(&Vec<Option<usize>>) -> T>(
    values: Tensor3,
    segments: Seq<usize>,
    num_segments: usize,
    minimum: bool,
    gather: G,
    out: T,
) -> bool {
    exists|winners: Vec<Option<usize>>|
        #[trigger] crate::scatter::is_winner_table(
            values,
            segments,
            num_segments,
            minimum,
            winners@,
        ) && call_ensures(gather, (&winners,), out)
}

/// The time from reading `start` to reading `end`; zero if the clock went back.
pub open spec fn elapsed(start: u128, end: u128) -> u128 {
    if end > start {
        (end - start) as u128
    } else {
        0
    }
}

/// The counters went from `before` to `after` by one call on `values`, with the
/// snapshot time given and the other two between three readings of `clock`.
pub open spec fn is_counted<C: Fn() -> u128>(
    before: ScatterMetrics,
    values: Tensor3,
    snapshot: u128,
    clock: C,
    after: ScatterMetrics,
) -> bool {
    exists|a: u128, b: u128, c: u128|
        #[trigger] call_ensures(clock, (), a) && #[trigger] call_ensures(clock, (), b)
            && #[trigger] call_ensures(clock, (), c) && before.is_recorded(
            (crate::metrics::ScatterCall {
                elements: (values.queries * values.items * values.dims) as usize,
                snapshot,
                scan: elapsed(a, b),
                gather: elapsed(b, c),
            }),
            after,
        )
}

/// Segment maximum on a snapshot, counted once.
pub fn counted_scatter_max<T, C: Fn() -> u128, G: Fn(&Vec<Option<usize>>) -> T>(
    counters: &mut ScatterMetrics,
    values: &Tensor3,
    segments: &[usize],
    num_segments: usize,
    snapshot: u128,
    clock: C,
    gather: G,
) -> (out: T)
    requires
        values.wf(),
        segments@.len() == values.items,
        forall|e: int| 0 <= e < segments@.len() ==> (#[trigger] segments@[e]) < num_segments,
        call_requires(clock, ()),
        forall|winners: Vec<Option<usize>>| #[trigger]
            crate::scatter::is_winner_table(*values, segments@, num_segments, false, winners@)
                ==> call_requires(gather, (&winners,)),
    ensures
        is_gathered(*values, segments@, num_segments, false, gather, out),
        is_counted(*old(counters), *values, snapshot, clock, *final(counters)),
{
    let a: u128 = clock();
    let winners: Vec<Option<usize>> = segment_winners(values, segments, num_segments, false);
    let b: u128 = clock();
    let out: T = gather(&winners);
    let c: u128 = clock();
    record_call(counters, values, snapshot, b.saturating_sub(a), c.saturating_sub(b));
    out
}

/// Segment maximum and minimum on one snapshot, counted once.
pub fn counted_scatter_max_min<T, C: Fn() -> u128, G: Fn(&Vec<Option<usize>>) -> T>(
    counters: &mut ScatterMetrics,
    values: &Tensor3,
    segments: &[usize],
    num_segments: usize,
    snapshot: u128,
    clock: C,
    gather: G,
) -> (out: (T, T))
    requires
        values.wf(),
        segments@.len() == values.items,
        forall|e: int| 0 <= e < segments@.len() ==> (#[trigger] segments@[e]) < num_segments,
        call_requires(clock, ()),
        forall|minimum: bool, winners: Vec<Option<usize>>| #[trigger]
            crate::scatter::is_winner_table(*values, segments@, num_segments, minimum, winners@)
                ==> call_requires(gather, (&winners,)),
    ensures
        is_gathered(*values, segments@, num_segments, false, gather, out.0),
        is_gathered(*values, segments@, num_segments, true, gather, out.1),
        is_counted(*old(counters), *values, snapshot, clock, *final(counters)),
{
    let a: u128 = clock();
    let most: Vec<Option<usize>> = segment_winners(values, segments, num_segments, false);
    let least: Vec<Option<usize>> = segment_winners(values, segments, num_segments, true);
    let b: u128 = clock();
    let max: T = gather(&most);
    let min: T = gather(&least);
    let c: u128 = clock();
    record_call(counters, values, snapshot, b.saturating_sub(a), c.saturating_sub(b));
    (max, min)
}

/// The `[queries, edges, dims]` of each tensor.
pub open spec fn shapes_of(tensors: Seq<Tensor3>) -> Seq<(nat, nat, nat)> {
    tensors.map_values(
        |t: Tensor3| (t.queries as nat, t.items as nat, t.dims as nat),
    )
}

/// After a reset and any number of calls, each counted once, the counters show
/// how many calls there were and how many values their tensors held together,
/// as long as neither starts over. Without calls both are zero.
pub proof fn counted_calls_add_up<C: Fn() -> u128>(
    tensors: Seq<Tensor3>,
    snapshots: Seq<u128>,
    clock: C,
    states: Seq<ScatterMetrics>,
)
    requires
        states.len() == tensors.len() + 1,
        snapshots.len() == tensors.len(),
        states[0].calls == 0,
        states[0].elements == 0,
        forall|i: int| 0 <= i < tensors.len() ==> (#[trigger] tensors[i]).wf(),
        forall|i: int|
            0 <= i < tensors.len() ==> is_counted(
                states[i],
                #[trigger] tensors[i],
                snapshots[i],
                clock,
                states[i + 1],
            ),
        tensors.len() <= u64::MAX,
        crate::metrics::values_in(shapes_of(tensors)) <= u64::MAX,
    ensures
        states.last().calls == tensors.len(),
        states.last().elements == crate::metrics::values_in(shapes_of(tensors)),
    decreases tensors.len(),
{
    if tensors.len() > 0 {
        let (fewer, earlier, until) = (
            tensors.drop_last(),
            snapshots.drop_last(),
            states.drop_last(),
        );
        assert forall|i: int| 0 <= i < fewer.len() implies (#[trigger] fewer[i]).wf() && is_counted(
            until[i],
            fewer[i],
            earlier[i],
            clock,
            until[i + 1],
        ) by {
            assert(tensors[i].wf());
            assert(is_counted(states[i], tensors[i], snapshots[i], clock, states[i + 1]));
        }
        assert(shapes_of(tensors).drop_last() =~= shapes_of(fewer));
        let k = tensors.len() - 1;
        let t = tensors[k];
        assert(t.wf());
        assert(t.values@.len() == t.values.len());
        counted_calls_add_up(fewer, earlier, clock, until);
        assert(is_counted(states[k], t, snapshots[k], clock, states[k + 1]));
    }
}

/// The times that a call adds are those between readings of the clock: from the
/// first to the second it scans, from the second to the third it gathers. It
/// counts itself once and with every value of its tensor.
pub proof fn counted_times_lie_between_readings<C: Fn() -> u128>(
    before: ScatterMetrics,
    values: Tensor3,
    snapshot: u128,
    clock: C,
    after: ScatterMetrics,
) -> (readings: (u128, u128, u128))
    requires
        values.wf(),
        is_counted(before, values, snapshot, clock, after),
    ensures
        call_ensures(clock, (), readings.0),
        call_ensures(clock, (), readings.1),
        call_ensures(clock, (), readings.2),
        before.calls < u64::MAX ==> after.calls == before.calls + 1,
        before.elements + values.queries * values.items * values.dims <= u64::MAX ==> after.elements
            == before.elements + values.queries * values.items * values.dims,
        before.snapshot_nanos + snapshot <= u64::MAX ==> after.snapshot_nanos
            == before.snapshot_nanos + snapshot,
        readings.0 <= readings.1 && before.scan_nanos + (readings.1 - readings.0) <= u64::MAX
            ==> after.scan_nanos == before.scan_nanos + (readings.1 - readings.0),
        readings.1 <= readings.2 && before.gather_nanos + (readings.2 - readings.1) <= u64::MAX
            ==> after.gather_nanos == before.gather_nanos + (readings.2 - readings.1),
        readings.1 < readings.0 ==> after.scan_nanos == before.scan_nanos,
        readings.2 < readings.1 ==> after.gather_nanos == before.gather_nanos,
{
    let (a, b, c) = choose|a: u128, b: u128, c: u128|
        #[trigger] call_ensures(clock, (), a) && #[trigger] call_ensures(clock, (), b)
            && #[trigger] call_ensures(clock, (), c) && before.is_recorded(
            (crate::metrics::ScatterCall {
                elements: (values.queries * values.items * values.dims) as usize,
                snapshot,
                scan: elapsed(a, b),
                gather: elapsed(b, c),
            }),
            after,
        );
    assert(values.values@.len() == values.values.len());
    (a, b, c)
}

/// The result is what `gather` makes of one table of winners, whose entries
/// [`crate::scatter::winners_by_values`] describes.
pub proof fn results_are_gathered_from_the_winners<T, G: Fn(&Vec<Option<usize>>) -> T>(
    values: Tensor3,
    segments: Seq<usize>,
    num_segments: usize,
    minimum: bool,
    gather: G,
    out: T,
    winners: Seq<Option<usize>>,
) -> (handed: Vec<Option<usize>>)
    requires
        is_gathered(values, segments, num_segments, minimum, gather, out),
        crate::scatter::is_winner_table(values, segments, num_segments, minimum, winners),
    ensures
        handed@ == winners,
        call_ensures(gather, (&handed,), out),
{
    let handed = choose|w: Vec<Option<usize>>| #[trigger]
        crate::scatter::is_winner_table(values, segments, num_segments, minimum, w@)
            && call_ensures(gather, (&w,), out);
    crate::scatter::winner_tables_agree(
        values,
        segments,
        num_segments,
        minimum,
        handed@,
        winners,
    );
    handed
}

} // verus!
