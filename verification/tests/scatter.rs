//! Segment maximum and minimum.
use ricci::csr::{
    scatter_max_min_indices_wgpu, scatter_max_min_wgpu, segment_argmax_min_kernel, segment_csr,
};
use ricci::counted::{counted_scatter_max, counted_scatter_max_min};
use ricci::ieee::Single;
use ricci::metrics::{
    duration_nanos, record_call, record_scatter_metrics, reset_scatter_metrics, scatter_metrics,
    ScatterMetrics,
};
use ricci::scatter::{
    gather, scatter_max, scatter_max_min, scatter_min, segment_winners, Tensor3,
};

fn single(x: f32) -> Single {
    Single { bits: x.to_bits() }
}

fn t3(data: Vec<f32>, shape: [usize; 3]) -> Tensor3 {
    Tensor3 {
        queries: shape[0],
        items: shape[1],
        dims: shape[2],
        values: data.into_iter().map(single).collect(),
    }
}

fn floats(t: &Tensor3) -> Vec<f32> {
    t.values.iter().map(|s| f32::from_bits(s.bits)).collect()
}

fn sample() -> Tensor3 {
    t3(
        vec![
            1.0, -2.0, 5.0, 0.5, 3.0, -7.0, 4.0, 0.25, -1.0, 2.0, -5.0, -0.5, -3.0, 7.0, -4.0,
            -0.25,
        ],
        [2, 4, 2],
    )
}

#[test]
fn max_matches_naive_loop() {
    // edges -> segments [0, 1, 0, 1]; segment 2 empty.
    let segs = [0usize, 1, 0, 1];
    let out = scatter_max(&sample(), &segs, 3, single(0.0));
    let v = floats(&out);
    // q0: seg0 = max(e0, e2) = [3, -2]; seg1 = max(e1, e3) = [5, 0.5];
    // seg2 empty = fill 0.
    assert_eq!(&v[0..6], &[3.0, -2.0, 5.0, 0.5, 0.0, 0.0]);
    // q1: seg0 = [-1, 7]; seg1 = [-4, -0.25].
    assert_eq!(&v[6..12], &[-1.0, 7.0, -4.0, -0.25, 0.0, 0.0]);
    assert_eq!([out.queries, out.items, out.dims], [2, 3, 2]);
}

#[test]
fn min_is_negated_max() {
    let segs = [0usize, 0, 1];
    let vals = t3(vec![1.0, 5.0, -2.0, 4.0, 3.0, 0.0], [1, 3, 2]);
    let out = scatter_min(&vals, &segs, 3, single(9.0));
    assert_eq!(floats(&out), vec![-2.0, 4.0, 3.0, 0.0, 9.0, 9.0]);
}

#[test]
fn fused_matches_separate() {
    let segs = [0usize, 1, 0, 1];
    let vals = sample();
    let (mx, mn) = scatter_max_min(&vals, &segs, 3);
    let mx_ref = scatter_max(&vals, &segs, 3, single(0.0));
    let mn_ref = scatter_min(&vals, &segs, 3, single(0.0));
    assert_eq!(mx, mx_ref);
    assert_eq!(mn, mn_ref);
}

#[test]
fn wgpu_matches_host_fused_max_min() {
    let segs = [0usize, 1, 0, 1];
    let vals = t3(
        vec![
            1.0, 2.0, 5.0, 0.5, 5.0, -7.0, 4.0, 0.5, -1.0, 2.0, -5.0, -0.5, -3.0, 7.0, -4.0, -0.5,
        ],
        [2, 4, 2],
    );
    let (mx, mn) = scatter_max_min_wgpu(&vals, &segs, 3);
    let (mx_ref, mn_ref) = scatter_max_min(&vals, &segs, 3);
    assert_eq!(mx, mx_ref);
    assert_eq!(mn, mn_ref);
}

#[test]
fn winners_are_the_first_of_equal_values() {
    let segs = [1usize, 1, 0, 1];
    let vals = t3(vec![2.0, 7.0, 1.0, 7.0], [1, 4, 1]);
    assert_eq!(segment_winners(&vals, &segs, 3, false), vec![Some(2), Some(1), None]);
    assert_eq!(segment_winners(&vals, &segs, 3, true), vec![Some(2), Some(0), None]);
    // Zeros of both signs are equal.
    let zeros = t3(vec![-0.0, 0.0, -0.0], [1, 3, 1]);
    assert_eq!(segment_winners(&zeros, &[0, 0, 0], 1, false), vec![Some(0)]);
    assert_eq!(segment_winners(&zeros, &[0, 0, 0], 1, true), vec![Some(0)]);
}

#[test]
fn a_leading_nan_stays_and_a_later_one_loses() {
    let vals = t3(vec![f32::NAN, 3.0, 1.0, f32::NAN], [1, 4, 1]);
    let segs = [0usize, 0, 1, 1];
    assert_eq!(segment_winners(&vals, &segs, 2, false), vec![Some(0), Some(2)]);
    assert_eq!(segment_winners(&vals, &segs, 2, true), vec![Some(0), Some(2)]);
    let (idx_max, idx_min, mask) = scatter_max_min_indices_wgpu(&vals, &segs, 2);
    assert_eq!(idx_max, vec![0, 2]);
    assert_eq!(idx_min, vec![0, 2]);
    assert_eq!(mask, vec![true, true]);
}

#[test]
fn empty_segments_take_the_fill_whatever_the_values() {
    let vals = t3(vec![f32::INFINITY, f32::NAN], [1, 2, 1]);
    let segs = [1usize, 1];
    let fill = single(f32::NEG_INFINITY);
    assert_eq!(floats(&scatter_max(&vals, &segs, 3, fill))[2], f32::NEG_INFINITY);
    assert_eq!(floats(&scatter_max(&vals, &segs, 3, fill))[1], f32::INFINITY);
    assert_eq!(floats(&scatter_min(&vals, &segs, 3, fill))[0], f32::NEG_INFINITY);
    let (mx, mn) = scatter_max_min(&vals, &segs, 3);
    assert_eq!((floats(&mx)[0], floats(&mn)[2]), (0.0, 0.0));
    let (mx, mn) = scatter_max_min_wgpu(&vals, &segs, 3);
    assert_eq!((floats(&mx)[0], floats(&mn)[2]), (0.0, 0.0));
}

#[test]
fn no_edges_no_queries_no_dims() {
    let vals = t3(vec![], [2, 0, 1]);
    assert_eq!(floats(&scatter_max(&vals, &[], 2, single(4.0))), vec![4.0; 4]);
    let vals = t3(vec![], [0, 3, 2]);
    assert_eq!(floats(&scatter_min(&vals, &[0, 1, 0], 2, single(4.0))), Vec::<f32>::new());
    let vals = t3(vec![], [2, 3, 0]);
    let (mx, _) = scatter_max_min_wgpu(&vals, &[0, 1, 0], 2);
    assert_eq!([mx.queries, mx.items, mx.dims, mx.values.len()], [2, 2, 0, 0]);
}

#[test]
fn minimum_is_at_most_maximum_and_both_are_values() {
    let segs = [0usize, 1, 0, 1];
    let vals = sample();
    let (mx, mn) = scatter_max_min(&vals, &segs, 2);
    for b in 0..2 {
        for n in 0..2 {
            for k in 0..2 {
                let (hi, lo) = (mx.get(b, n, k), mn.get(b, n, k));
                assert!(!lo.gt(&hi));
                let of: Vec<Single> =
                    (0..4).filter(|&e| segs[e] == n).map(|e| vals.get(b, e, k)).collect();
                assert!(of.contains(&hi) && of.contains(&lo));
                assert!(of.iter().all(|v| !v.gt(&hi) && !lo.gt(v)));
            }
        }
    }
}

#[test]
fn other_segments_leave_a_reduction_alone() {
    let segs = [0usize, 1, 0];
    let a = t3(vec![1.0, 9.0, 2.0], [1, 3, 1]);
    let b = t3(vec![1.0, -9.0, 2.0], [1, 3, 1]);
    let fill = single(0.0);
    assert_eq!(floats(&scatter_max(&a, &segs, 2, fill))[0], 2.0);
    assert_eq!(floats(&scatter_max(&b, &segs, 2, fill))[0], 2.0);
}

#[test]
fn gathering_reads_the_named_edges() {
    let vals = t3(vec![1.0, 2.0, 3.0, 4.0], [1, 2, 2]);
    let out = gather(&vals, 2, &vec![Some(1), Some(0), None, Some(1)], single(-8.0));
    assert_eq!(floats(&out), vec![3.0, 2.0, -8.0, 4.0]);
}

#[test]
fn grouping_sorts_edges_by_segment() {
    let (order, offsets) = segment_csr(&[2, 0, 2, 1, 0, 2], 4);
    assert_eq!(order, vec![1, 4, 3, 0, 2, 5]);
    assert_eq!(offsets, vec![0, 2, 3, 6, 6]);
    let (order, offsets) = segment_csr(&[], 2);
    assert_eq!((order.len(), offsets), (0, vec![0, 0, 0]));
    let (order, offsets) = segment_csr(&[], 0);
    assert_eq!((order.len(), offsets), (0, vec![0]));
}

#[test]
fn kernel_decodes_its_position() {
    let vals = sample();
    let (order, offsets) = segment_csr(&[0, 1, 0, 1], 3);
    // Position of query 1, segment 1, dimension 0.
    let p = (3 + 1) * 2;
    assert_eq!(segment_argmax_min_kernel(&vals, &order, &offsets, p), (3, 1, true));
    // Query 0, segment 2, dimension 1: empty.
    assert_eq!(segment_argmax_min_kernel(&vals, &order, &offsets, 5), (0, 0, false));
    // Query 0, segment 0, dimension 1.
    assert_eq!(segment_argmax_min_kernel(&vals, &order, &offsets, 1), (0, 2, true));
}

#[test]
fn indices_match_the_host_winners() {
    let segs = [0usize, 1, 0, 1];
    let vals = sample();
    let (idx_max, idx_min, mask) = scatter_max_min_indices_wgpu(&vals, &segs, 3);
    let most = segment_winners(&vals, &segs, 3, false);
    let least = segment_winners(&vals, &segs, 3, true);
    for p in 0..12 {
        let of = |i: usize| if mask[p] { Some(i) } else { None };
        assert_eq!(of(idx_max[p]), most[p]);
        assert_eq!(of(idx_min[p]), least[p]);
        if !mask[p] {
            assert_eq!((idx_max[p], idx_min[p]), (0, 0));
        }
    }
}

#[test]
fn counters_record_and_subtract() {
    let before = ScatterMetrics::default();
    let after = before.recorded(24, 100, 20, 3);
    assert_eq!(
        after,
        ScatterMetrics {
            calls: 1,
            elements: 24,
            snapshot_nanos: 100,
            scan_nanos: 20,
            gather_nanos: 3,
        }
    );
    let later = after.recorded(6, 1, 1, 1);
    let between = later.saturating_sub(after);
    assert_eq!((between.calls, between.elements, between.total_nanos()), (1, 6, 3));
    assert_eq!(before.saturating_sub(later), ScatterMetrics::default());
    assert_eq!(later.total_nanos(), 126);
}

#[test]
fn counters_cap_durations_and_roll_over() {
    assert_eq!(duration_nanos(7), 7);
    assert_eq!(duration_nanos(u64::MAX as u128), u64::MAX);
    assert_eq!(duration_nanos(u64::MAX as u128 + 1), u64::MAX);
    let full = ScatterMetrics { calls: u64::MAX, ..ScatterMetrics::default() };
    assert_eq!(full.recorded(0, 0, 0, 0).calls, 0);
    let late = ScatterMetrics::default().recorded(0, 0, 5, 0).recorded(0, 0, u128::MAX, 0);
    assert_eq!(late.scan_nanos, 4);
}

#[test]
fn kernel_needs_no_order_in_a_block() {
    let vals = t3(vec![4.0, 7.0, 7.0, 1.0, 1.0, 4.0], [1, 6, 1]);
    let offsets = vec![0i64, 6];
    for order in [
        vec![0i64, 1, 2, 3, 4, 5],
        vec![5, 4, 3, 2, 1, 0],
        vec![2, 4, 0, 5, 1, 3],
        vec![3, 2, 1, 4, 5, 0],
    ] {
        // The smallest edge of the equal maxima 1, 2 and of the equal minima 3, 4.
        assert_eq!(segment_argmax_min_kernel(&vals, &order, &offsets, 0), (1, 3, true));
    }
    // Zeros of both signs are equal.
    let zeros = t3(vec![0.0, -0.0], [1, 2, 1]);
    assert_eq!(segment_argmax_min_kernel(&zeros, &vec![1, 0], &vec![0, 2], 0), (0, 0, true));
}

#[test]
fn kernel_keeps_a_nan_only_if_listed_first() {
    let vals = t3(vec![2.0, f32::NAN, 5.0], [1, 3, 1]);
    let offsets = vec![0i64, 3];
    assert_eq!(segment_argmax_min_kernel(&vals, &vec![1, 0, 2], &offsets, 0), (1, 1, true));
    assert_eq!(segment_argmax_min_kernel(&vals, &vec![2, 1, 0], &offsets, 0), (2, 0, true));
    assert_eq!(segment_argmax_min_kernel(&vals, &vec![0, 2, 1], &offsets, 0), (2, 0, true));
}

#[test]
fn counters_add_up_over_several_calls() {
    let mut counters = ScatterMetrics::default().recorded(99, 9, 9, 9);
    reset_scatter_metrics(&mut counters);
    assert_eq!(scatter_metrics(&counters), ScatterMetrics::default());
    let mut elements = 0;
    for (i, shape) in [[2usize, 4, 2], [1, 3, 5], [0, 7, 2], [3, 1, 1]].into_iter().enumerate() {
        let n = shape[0] * shape[1] * shape[2];
        let t = t3(vec![0.5; n], shape);
        assert_eq!(t.elements(), n);
        record_scatter_metrics(&mut counters, t.elements(), i as u128, 10, 100);
        elements += n as u64;
    }
    let s = scatter_metrics(&counters);
    assert_eq!((s.calls, s.elements), (4, elements));
    assert_eq!((s.snapshot_nanos, s.scan_nanos, s.gather_nanos), (6, 40, 400));
    assert_eq!(scatter_metrics(&counters), s);
}

#[test]
fn winners_are_chosen_for_each_dimension() {
    let vals = t3(vec![1.0, 9.0, 5.0, 2.0, 3.0, 4.0], [1, 3, 2]);
    // dim 0 winner: edge 1 (5.0); dim 1 winner: edge 0 (9.0).
    assert_eq!(segment_winners(&vals, &[0, 0, 0], 1, false), vec![Some(1), Some(0)]);
}

#[test]
fn nans_of_other_segments_do_not_matter() {
    let vals = t3(vec![1.0, f32::NAN, 3.0], [1, 3, 1]);
    let segs = [0usize, 1, 0];
    let fill = single(0.0);
    assert_eq!(floats(&scatter_max(&vals, &segs, 2, fill))[0], 3.0);
    assert_eq!(floats(&scatter_min(&vals, &segs, 2, fill))[0], 1.0);
}

#[test]
fn calls_record_every_value_of_their_tensor() {
    let mut counters = ScatterMetrics::default();
    record_call(&mut counters, &sample(), 5, 6, 7);
    assert_eq!((counters.calls, counters.elements), (1, 16));
    assert_eq!(
        (counters.snapshot_nanos, counters.scan_nanos, counters.gather_nanos),
        (5, 6, 7)
    );
}

#[test]
fn counted_calls_count_themselves_once() {
    let segs = [0usize, 1, 0, 1];
    let vals = sample();
    let ticks = std::cell::Cell::new(0u128);
    let clock = || {
        // Reads 0, 1, 4, 9, 16, ...
        let t = ticks.get();
        ticks.set(t + 1);
        t * t
    };
    let read = |w: &Vec<Option<usize>>| gather(&vals, 3, w, single(0.0));
    let mut counters = ScatterMetrics::default();
    let max = counted_scatter_max(&mut counters, &vals, &segs, 3, 50, clock, read);
    assert_eq!(max, scatter_max(&vals, &segs, 3, single(0.0)));
    assert_eq!(
        counters,
        ScatterMetrics {
            calls: 1,
            elements: 16,
            snapshot_nanos: 50,
            scan_nanos: 1,
            gather_nanos: 3,
        }
    );
    let pair = counted_scatter_max_min(&mut counters, &vals, &segs, 3, 2, clock, read);
    assert_eq!(pair, scatter_max_min(&vals, &segs, 3));
    assert_eq!((counters.calls, counters.elements), (2, 32));
    assert_eq!(
        (counters.snapshot_nanos, counters.scan_nanos, counters.gather_nanos),
        (52, 1 + 7, 3 + 9)
    );
}
