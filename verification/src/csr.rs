//! Segment max/min on edges grouped by segment.
//!
//! The edges are sorted by segment once, as a compressed sparse row layout; each
//! result entry is then independent of the others and scans only the block of
//! its own segment. That is the shape of the work on a device that computes
//! all entries in parallel.
use vstd::prelude::*;

use crate::ieee::Single;
use crate::scatter::Tensor3;

verus! {

/// The largest number of edges that device indices can address.
pub const MAX_EDGES: usize = 0x7fff_ffff;

/// The edges of the segments before `s`.
pub open spec fn below(segments: Seq<usize>, s: int) -> spec_fn(int) -> bool {
    |e: int| segments[e] < s
}

/// The edges of segment `s`.
pub open spec fn belongs(segments: Seq<usize>, s: int) -> spec_fn(int) -> bool {
    |e: int| segments[e] == s
}

/// Where the block of segment `s` starts when the edges are sorted by segment:
/// after all edges of earlier segments.
pub open spec fn block_start(segments: Seq<usize>, s: int) -> nat {
    crate::select::count(segments.len(), below(segments, s))
}

/// How many edges before `upto` belong to segment `s`.
pub open spec fn members_before(segments: Seq<usize>, s: int, upto: int) -> nat {
    crate::select::count(upto as nat, belongs(segments, s))
}

/// Where edge `e` goes: after the edges of earlier segments, and after the
/// earlier edges of its own.
pub open spec fn rank(segments: Seq<usize>, e: int) -> nat {
    block_start(segments, segments[e] as int) + members_before(segments, segments[e] as int, e)
}

/// Counting fewer indices gives a smaller count, by one at least where an index
/// left out satisfies the predicate.
proof fn lemma_count_grows(a: nat, b: nat, p: spec_fn(int) -> bool)
    requires
        a <= b,
    ensures
        crate::select::count(a, p) <= crate::select::count(b, p),
        a < b && p(a as int) ==> crate::select::count(a, p) < crate::select::count(b, p),
    decreases b,
{
    if a < b {
        lemma_count_grows(a, (b - 1) as nat, p);
    }
}

/// The block of a segment ends where the next one starts.
proof fn lemma_block_length(segments: Seq<usize>, s: int, n: nat)
    ensures
        crate::select::count(n, below(segments, s + 1)) == crate::select::count(
            n,
            below(segments, s),
        ) + members_before(segments, s, n as int),
    decreases n,
{
    if n > 0 {
        lemma_block_length(segments, s, (n - 1) as nat);
    }
}

/// Later blocks start later.
proof fn lemma_blocks_ascend(segments: Seq<usize>, s: int, t: int, n: nat)
    requires
        s <= t,
    ensures
        crate::select::count(n, below(segments, s)) <= crate::select::count(
            n,
            below(segments, t),
        ),
    decreases n,
{
    if n > 0 {
        lemma_blocks_ascend(segments, s, t, (n - 1) as nat);
    }
}

/// No segment comes before the first, and all edges come before the end.
proof fn lemma_block_ends(segments: Seq<usize>, num_segments: int, n: nat)
    requires
        n <= segments.len(),
        forall|e: int| 0 <= e < segments.len() ==> (#[trigger] segments[e]) < num_segments,
    ensures
        crate::select::count(n, below(segments, 0)) == 0,
        crate::select::count(n, below(segments, num_segments)) == n,
    decreases n,
{
    if n > 0 {
        lemma_block_ends(segments, num_segments, (n - 1) as nat);
        assert(segments[n - 1] < num_segments);
    }
}

/// An edge goes inside the block of its segment.
proof fn lemma_rank_in_block(segments: Seq<usize>, e: int)
    requires
        0 <= e < segments.len(),
    ensures
        block_start(segments, segments[e] as int) <= rank(segments, e) < block_start(
            segments,
            segments[e] + 1,
        ) <= segments.len(),
{
    let s = segments[e] as int;
    crate::select::lemma_count_bound(segments.len(), below(segments, s + 1));
    lemma_block_length(segments, s, segments.len());
    lemma_count_grows(e as nat, segments.len(), belongs(segments, s));
}

/// Different edges go to different places, in the order of segments first and
/// of edges second.
proof fn lemma_rank_order(segments: Seq<usize>, d: int, e: int)
    requires
        0 <= d < e < segments.len(),
    ensures
        rank(segments, d) != rank(segments, e),
        segments[d] == segments[e] ==> rank(segments, d) < rank(segments, e),
{
    let (s, t) = (segments[d] as int, segments[e] as int);
    lemma_rank_in_block(segments, d);
    lemma_rank_in_block(segments, e);
    if s == t {
        lemma_count_grows(d as nat, e as nat, belongs(segments, s));
    } else if s < t {
        lemma_blocks_ascend(segments, s + 1, t, segments.len());
    } else {
        lemma_blocks_ascend(segments, t + 1, s, segments.len());
    }
}

/// Every count below the number of members is the count before some member.
proof fn lemma_member_with_count(segments: Seq<usize>, s: int, n: nat, c: nat) -> (e: int)
    requires
        c < members_before(segments, s, n as int),
    ensures
        0 <= e < n,
        segments[e] == s,
        members_before(segments, s, e) == c,
    decreases n,
{
    if c < members_before(segments, s, n - 1) {
        lemma_member_with_count(segments, s, (n - 1) as nat, c)
    } else {
        n - 1
    }
}

/// `edge_order` lists the edges sorted by segment, keeping the order of the
/// edges of one segment, and `offsets` says where each segment's block starts
/// and, last, where the list ends.
pub open spec fn is_csr(
    segments: Seq<usize>,
    num_segments: int,
    edge_order: Seq<i64>,
    offsets: Seq<i64>,
) -> bool {
    &&& edge_order.len() == segments.len()
    &&& offsets.len() == num_segments + 1
    &&& forall|s: int|
        0 <= s <= num_segments ==> #[trigger] offsets[s] == block_start(segments, s)
    &&& forall|e: int|
        0 <= e < segments.len() ==> edge_order[#[trigger] rank(segments, e) as int] == e
}

/// The number of edges of every segment.
fn segment_counts(segments: &[usize], num_segments: usize) -> (counts: Vec<usize>)
    requires
        forall|e: int| 0 <= e < segments@.len() ==> (#[trigger] segments@[e]) < num_segments,
    ensures
        counts@.len() == num_segments,
        forall|s: int|
            0 <= s < num_segments ==> #[trigger] counts@[s] == members_before(
                segments@,
                s,
                segments@.len() as int,
            ),
{
    let mut counts: Vec<usize> = Vec::new();
    while counts.len() < num_segments
        invariant
            counts@.len() <= num_segments,
            forall|s: int| 0 <= s < counts@.len() ==> #[trigger] counts@[s] == 0,
        decreases num_segments - counts@.len(),
    {
        counts.push(0);
    }
    let mut edge: usize = 0;
    while edge < segments.len()
        invariant
            forall|e: int| 0 <= e < segments@.len() ==> (#[trigger] segments@[e]) < num_segments,
            edge <= segments@.len(),
            counts@.len() == num_segments,
            forall|s: int|
                0 <= s < num_segments ==> #[trigger] counts@[s] == members_before(
                    segments@,
                    s,
                    edge as int,
                ),
        decreases segments@.len() - edge,
    {
        let segment: usize = segments[edge];
        proof {
            crate::select::lemma_count_bound(edge as nat, belongs(segments@, segment as int));
        }
        let seen: usize = counts[segment];
        counts.set(segment, seen + 1);
        edge = edge + 1;
    }
    counts
}

/// Groups the edges by segment: their order, and the offsets of the blocks.
pub fn segment_csr(segments: &[usize], num_segments: usize) -> (r: (Vec<i64>, Vec<i64>))
    requires
        segments@.len() <= MAX_EDGES,
        num_segments < usize::MAX,
        forall|e: int| 0 <= e < segments@.len() ==> (#[trigger] segments@[e]) < num_segments,
    ensures
        is_csr(segments@, num_segments as int, r.0@, r.1@),
{
    let counts: Vec<usize> = segment_counts(segments, num_segments);
    let mut offsets: Vec<i64> = Vec::new();
    let mut cursor: Vec<usize> = Vec::new();
    let mut start: usize = 0;
    let mut segment: usize = 0;
    proof {
        lemma_block_ends(segments@, num_segments as int, segments@.len());
    }
    offsets.push(0);
    while segment < num_segments
        invariant
            segments@.len() <= MAX_EDGES,
            forall|e: int| 0 <= e < segments@.len() ==> (#[trigger] segments@[e]) < num_segments,
            counts@.len() == num_segments,
            forall|s: int|
                0 <= s < num_segments ==> #[trigger] counts@[s] == members_before(
                    segments@,
                    s,
                    segments@.len() as int,
                ),
            segment <= num_segments,
            start == block_start(segments@, segment as int),
            start <= MAX_EDGES,
            offsets@.len() == segment + 1,
            cursor@.len() == segment,
            forall|s: int|
                0 <= s <= segment ==> #[trigger] offsets@[s] == block_start(segments@, s),
            forall|s: int| 0 <= s < segment ==> #[trigger] cursor@[s] == block_start(segments@, s),
        decreases num_segments - segment,
    {
        proof {
            lemma_block_length(segments@, segment as int, segments@.len());
            crate::select::lemma_count_bound(segments@.len(), below(segments@, segment + 1));
        }
        cursor.push(start);
        start = start + counts[segment];
        offsets.push(start as i64);
        segment = segment + 1;
    }
    let mut edge_order: Vec<i64> = Vec::new();
    while edge_order.len() < segments.len()
        invariant
            edge_order@.len() <= segments@.len(),
        decreases segments@.len() - edge_order@.len(),
    {
        edge_order.push(0);
    }
    let mut edge: usize = 0;
    while edge < segments.len()
        invariant
            segments@.len() <= MAX_EDGES,
            forall|e: int| 0 <= e < segments@.len() ==> (#[trigger] segments@[e]) < num_segments,
            edge <= segments@.len(),
            edge_order@.len() == segments@.len(),
            cursor@.len() == num_segments,
            forall|s: int|
                0 <= s < num_segments ==> #[trigger] cursor@[s] == block_start(segments@, s)
                    + members_before(segments@, s, edge as int),
            forall|e: int|
                0 <= e < edge ==> edge_order@[#[trigger] rank(segments@, e) as int] == e,
        decreases segments@.len() - edge,
    {
        let segment: usize = segments[edge];
        let pos: usize = cursor[segment];
        proof {
            lemma_rank_in_block(segments@, edge as int);
            assert forall|e: int| 0 <= e < edge implies #[trigger] rank(segments@, e) != pos
                && rank(segments@, e) < segments@.len() by {
                lemma_rank_in_block(segments@, e);
                lemma_rank_order(segments@, e, edge as int);
            }
        }
        edge_order.set(pos, edge as i64);
        cursor.set(segment, pos + 1);
        edge = edge + 1;
    }
    (edge_order, offsets)
}

/// Position `p` lies in the block of segment `s`.
pub open spec fn in_block(offsets: Seq<i64>, s: int, p: int) -> bool {
    0 <= s && s + 1 < offsets.len() && offsets[s] <= p < offsets[s + 1]
}

/// The edges that the block of segment `s` lists.
pub open spec fn listed(edge_order: Seq<i64>, offsets: Seq<i64>, s: int) -> spec_fn(int) -> bool {
    |e: int| exists|p: int| #[trigger] in_block(offsets, s, p) && edge_order[p] == e
}

/// The blocks lie inside `edge_order` and list edges below `edges`.
pub open spec fn is_grouped(edge_order: Seq<i64>, offsets: Seq<i64>, edges: int) -> bool {
    &&& forall|s: int|
        0 <= s < offsets.len() ==> 0 <= #[trigger] offsets[s] <= edge_order.len()
    &&& forall|s: int, t: int| 0 <= s <= t < offsets.len() ==> offsets[s] <= offsets[t]
    &&& forall|s: int, p: int| #[trigger]
        in_block(offsets, s, p) ==> 0 <= edge_order[p] < edges
}

/// The block of segment `s` lists its edges in ascending order.
pub open spec fn block_ascends(edge_order: Seq<i64>, offsets: Seq<i64>, s: int) -> bool {
    forall|p: int, q: int| #[trigger]
        in_block(offsets, s, p) && #[trigger] in_block(offsets, s, q) && p < q ==> edge_order[p]
            < edge_order[q]
}

/// `w` wins the maximum of `col` over the edges that `order` lists from `start`
/// up to `end`, or is `None` if there are none.
///
/// A NaN wins if and only if it is listed first. Otherwise the largest number
/// wins, and of equal ones the smallest edge, in whatever order they are
/// listed.
pub open spec fn is_listed_max(
    col: Seq<Single>,
    order: Seq<i64>,
    start: int,
    end: int,
    w: Option<usize>,
) -> bool {
    match w {
        None => start >= end,
        Some(w) => {
            &&& exists|p: int| start <= p < end && #[trigger] order[p] == w
            &&& if col[order[start] as int].nan() {
                w == order[start]
            } else {
                &&& !col[w as int].nan()
                &&& forall|p: int|
                    start <= p < end ==> !col[#[trigger] order[p] as int].exceeds(col[w as int])
                &&& forall|p: int|
                    start <= p < end && col[#[trigger] order[p] as int].ties(col[w as int]) ==> w
                        <= order[p]
            }
        },
    }
}

/// A list has at most one winner.
pub proof fn listed_winner_is_unique(
    col: Seq<Single>,
    order: Seq<i64>,
    start: int,
    end: int,
    v: Option<usize>,
    w: Option<usize>,
)
    requires
        is_listed_max(col, order, start, end, v),
        is_listed_max(col, order, start, end, w),
    ensures
        v == w,
{
    if let (Some(x), Some(y)) = (v, w) {
        let p = choose|p: int| start <= p < end && #[trigger] order[p] == x;
        let q = choose|p: int| start <= p < end && #[trigger] order[p] == y;
        assert(order[p] == x && order[q] == y);
    }
}

/// Without NaNs the order of a list does not matter: two lists of the same edges
/// have the same winner.
pub proof fn listed_order_does_not_matter(
    col: Seq<Single>,
    a: Seq<i64>,
    b: Seq<i64>,
    v: Option<usize>,
    w: Option<usize>,
)
    requires
        is_listed_max(col, a, 0, a.len() as int, v),
        is_listed_max(col, b, 0, b.len() as int, w),
        forall|e: i64| #[trigger] a.contains(e) <==> b.contains(e),
        forall|p: int| 0 <= p < a.len() ==> !col[#[trigger] a[p] as int].nan(),
    ensures
        v == w,
{
    assert forall|p: int| 0 <= p < a.len() implies b.contains(#[trigger] a[p]) by {
        assert(a.contains(a[p]));
    }
    assert forall|q: int| 0 <= q < b.len() implies a.contains(#[trigger] b[q]) by {
        assert(b.contains(b[q]));
    }
    if a.len() > 0 {
        assert(b.contains(a[0]));
    }
    if b.len() > 0 {
        assert(a.contains(b[0]));
    }
    if let (Some(x), Some(y)) = (v, w) {
        let p = choose|p: int| 0 <= p < a.len() && #[trigger] a[p] == x;
        let q = choose|q: int| 0 <= q < b.len() && #[trigger] b[q] == y;
        assert(b.contains(a[p]));
        assert(a.contains(b[q]));
        let at_b = b.index_of(a[p]);
        let at_a = a.index_of(b[q]);
        let first = a.index_of(b[0]);
        assert(!col[a[first] as int].nan());
        assert(b[at_b] == x && a[at_a] == y);
    }
}

/// On a list in ascending order the winner is the one that a scan of the edges
/// by index finds.
pub proof fn ascending_lists_agree_with_the_scan(
    col: Seq<Single>,
    order: Seq<i64>,
    offsets: Seq<i64>,
    edges: int,
    s: int,
    w: Option<usize>,
)
    requires
        is_grouped(order, offsets, edges),
        0 <= s,
        s + 1 < offsets.len(),
        block_ascends(order, offsets, s),
        is_listed_max(col, order, offsets[s] as int, offsets[s + 1] as int, w),
    ensures
        crate::scatter::is_first_max(col, listed(order, offsets, s), edges, w),
{
    let member = listed(order, offsets, s);
    let (start, end) = (offsets[s] as int, offsets[s + 1] as int);
    match w {
        None => {
            assert forall|e: int| 0 <= e < edges implies !#[trigger] member(e) by {}
        },
        Some(w) => {
            let p = choose|p: int| start <= p < end && #[trigger] order[p] == w;
            assert(in_block(offsets, s, p));
            assert(in_block(offsets, s, start));
            let first = order[start] as int;
            assert(member(w as int));
            assert(member(first));
            assert forall|e: int| 0 <= e < first implies !#[trigger] member(e) by {
                if member(e) {
                    let q = choose|q: int| #[trigger] in_block(offsets, s, q) && order[q] == e;
                    assert(start == q || order[start] < order[q]);
                }
            }
            assert(crate::scatter::leads(member, first));
            if !col[first].nan() {
                assert forall|f: int|
                    0 <= f < edges && #[trigger] crate::scatter::leads(member, f) implies f
                    == first by {
                    assert(member(f));
                }
                assert forall|e: int| 0 <= e < edges && #[trigger] member(e) implies !col[e].exceeds(
                    col[w as int],
                ) by {
                    let q = choose|q: int| #[trigger] in_block(offsets, s, q) && order[q] == e;
                    assert(order[q] == e);
                }
                assert forall|e: int|
                    0 <= e < w && #[trigger] member(e) && !col[e].nan() implies col[w as int].exceeds(
                    col[e],
                ) by {
                    let q = choose|q: int| #[trigger] in_block(offsets, s, q) && order[q] == e;
                    assert(order[q] == e);
                }
            }
        },
    }
}

/// The edge at a position of a block.
proof fn lemma_block_entry(
    segments: Seq<usize>,
    num_segments: int,
    edge_order: Seq<i64>,
    offsets: Seq<i64>,
    s: int,
    p: int,
) -> (e: int)
    requires
        is_csr(segments, num_segments, edge_order, offsets),
        in_block(offsets, s, p),
    ensures
        0 <= e < segments.len(),
        segments[e] == s,
        edge_order[p] == e,
        rank(segments, e) == p,
{
    lemma_block_length(segments, s, segments.len());
    assert(offsets[s] == block_start(segments, s));
    assert(offsets[s + 1] == block_start(segments, s + 1));
    let e = lemma_member_with_count(
        segments,
        s,
        segments.len(),
        (p - block_start(segments, s)) as nat,
    );
    assert(rank(segments, e) == p);
    e
}

/// In the layout of [`segment_csr`] the blocks are consecutive, cover all edges,
/// and the block of a segment lists exactly its edges, in ascending order.
pub proof fn blocks_list_their_segments(
    segments: Seq<usize>,
    num_segments: int,
    edge_order: Seq<i64>,
    offsets: Seq<i64>,
)
    requires
        0 <= num_segments,
        is_csr(segments, num_segments, edge_order, offsets),
        forall|e: int| 0 <= e < segments.len() ==> (#[trigger] segments[e]) < num_segments,
    ensures
        offsets[0] == 0,
        offsets[num_segments] == segments.len(),
        is_grouped(edge_order, offsets, segments.len() as int),
        forall|s: int|
            0 <= s < num_segments ==> #[trigger] block_ascends(edge_order, offsets, s),
        forall|s: int|
            0 <= s < num_segments ==> #[trigger] listed(edge_order, offsets, s)
                == crate::scatter::in_segment(segments, s),
{
    lemma_block_ends(segments, num_segments, segments.len());
    assert forall|s: int| 0 <= s < offsets.len() implies 0 <= #[trigger] offsets[s]
        <= edge_order.len() by {
        crate::select::lemma_count_bound(segments.len(), below(segments, s));
    }
    assert forall|s: int, t: int| 0 <= s <= t < offsets.len() implies offsets[s] <= offsets[t] by {
        lemma_blocks_ascend(segments, s, t, segments.len());
    }
    assert forall|s: int, p: int| #[trigger] in_block(offsets, s, p) implies 0 <= edge_order[p]
        < segments.len() by {
        let e = lemma_block_entry(segments, num_segments, edge_order, offsets, s, p);
    }
    assert forall|s: int| 0 <= s < num_segments implies #[trigger] block_ascends(
        edge_order,
        offsets,
        s,
    ) by {
        assert forall|p: int, q: int| #[trigger]
            in_block(offsets, s, p) && #[trigger] in_block(offsets, s, q) && p
                < q implies edge_order[p] < edge_order[q] by {
            let d = lemma_block_entry(segments, num_segments, edge_order, offsets, s, p);
            let e = lemma_block_entry(segments, num_segments, edge_order, offsets, s, q);
            if e < d {
                lemma_rank_order(segments, e, d);
            }
        }
    }
    assert forall|s: int| 0 <= s < num_segments implies #[trigger] listed(edge_order, offsets, s)
        == crate::scatter::in_segment(segments, s) by {
        let (have, want) = (
            listed(edge_order, offsets, s),
            crate::scatter::in_segment(segments, s),
        );
        assert forall|e: int| #[trigger] have(e) == want(e) by {
            if have(e) {
                let p = choose|p: int| #[trigger] in_block(offsets, s, p) && edge_order[p] == e;
                let d = lemma_block_entry(segments, num_segments, edge_order, offsets, s, p);
            }
            if want(e) {
                lemma_rank_in_block(segments, e);
                assert(offsets[s] == block_start(segments, s));
                assert(offsets[s + 1] == block_start(segments, s + 1));
                assert(in_block(offsets, s, rank(segments, e) as int));
            }
        }
        assert(have =~= want);
    }
}

/// The winner that an index and its occupancy mark stand for.
pub open spec fn marked(occupied: bool, index: usize) -> Option<usize> {
    if occupied {
        Some(index)
    } else {
        None
    }
}

/// The edges that win the maximum and the minimum at one position of the
/// result, and whether the position's segment has edges at all. Where it has
/// none, both indices are zero.
///
/// A block may list its edges in any order: of equal values the one with the
/// smallest edge wins.
pub fn segment_argmax_min_kernel(
    values: &Tensor3,
    edge_order: &Vec<i64>,
    offsets: &Vec<i64>,
    position: usize,
) -> (r: (usize, usize, bool))
    requires
        values.wf(),
        offsets@.len() >= 1,
        is_grouped(edge_order@, offsets@, values.items as int),
        position < values.queries * (offsets@.len() - 1) * values.dims,
    ensures
        ({
            let (d, n) = (values.dims as int, offsets@.len() - 1);
            let (b, s, k) = (position as int / d / n, (position as int / d) % n, position as int % d);
            let (start, end) = (offsets@[s] as int, offsets@[s + 1] as int);
            let col = values.column(b, k);
            &&& is_listed_max(col, edge_order@, start, end, marked(r.2, r.0))
            &&& is_listed_max(
                crate::scatter::oriented(col, true),
                edge_order@,
                start,
                end,
                marked(r.2, r.1),
            )
            &&& !r.2 ==> r.0 == 0 && r.1 == 0
        }),
{
    let num_segments: usize = offsets.len() - 1;
    proof {
        crate::scatter::lemma_slot_split(
            position as int,
            values.queries as int,
            num_segments as int,
            values.dims as int,
        );
    }
    let k: usize = position % values.dims;
    let segment: usize = (position / values.dims) % num_segments;
    let query: usize = position / values.dims / num_segments;
    let ghost s = segment as int;
    let ghost col = values.column(query as int, k as int);
    let ghost flipped = crate::scatter::oriented(col, true);
    assert(0 <= offsets@[s] <= edge_order@.len());
    assert(0 <= offsets@[s + 1] <= edge_order@.len());
    assert(edge_order@.len() == edge_order.len());
    let start: usize = offsets[segment] as usize;
    let end: usize = offsets[segment + 1] as usize;
    if start == end {
        return (0, 0, false);
    }
    assert(in_block(offsets@, s, start as int));
    let first_edge: usize = edge_order[start] as usize;
    let mut best_max_edge: usize = first_edge;
    let mut best_min_edge: usize = first_edge;
    let mut best_max: Single = values.get(query, first_edge, k);
    let mut best_min: Single = best_max;
    let mut pos: usize = start + 1;
    proof {
        assert(edge_order@[start as int] == first_edge);
        crate::ieee::negation_mirrors_order(best_max, best_max);
        assert(flipped[first_edge as int] == best_max.negated());
    }
    while pos < end
        invariant
            values.wf(),
            is_grouped(edge_order@, offsets@, values.items as int),
            query < values.queries,
            k < values.dims,
            s == segment,
            segment + 1 < offsets@.len(),
            offsets@[s] == start,
            offsets@[s + 1] == end,
            end <= edge_order@.len(),
            col == values.column(query as int, k as int),
            flipped == crate::scatter::oriented(col, true),
            start < pos <= end,
            0 <= edge_order@[start as int] < values.items,
            best_max_edge < values.items,
            best_min_edge < values.items,
            best_max == col[best_max_edge as int],
            best_min == col[best_min_edge as int],
            is_listed_max(col, edge_order@, start as int, pos as int, Some(best_max_edge)),
            is_listed_max(flipped, edge_order@, start as int, pos as int, Some(best_min_edge)),
        decreases end - pos,
    {
        assert(in_block(offsets@, s, pos as int));
        let edge: usize = edge_order[pos] as usize;
        let candidate: Single = values.get(query, edge, k);
        let above: bool = candidate.gt(&best_max) || (candidate.equals(&best_max) && edge
            < best_max_edge);
        let below: bool = best_min.gt(&candidate) || (candidate.equals(&best_min) && edge
            < best_min_edge);
        proof {
            crate::ieee::negation_mirrors_order(candidate, best_min);
            crate::ieee::negation_mirrors_order(best_min, candidate);
            lemma_listed_step(
                col,
                edge_order@,
                start as int,
                pos as int,
                best_max_edge,
                edge,
            );
            lemma_listed_step(
                flipped,
                edge_order@,
                start as int,
                pos as int,
                best_min_edge,
                edge,
            );
        }
        if above {
            best_max = candidate;
            best_max_edge = edge;
        }
        if below {
            best_min = candidate;
            best_min_edge = edge;
        }
        pos = pos + 1;
    }
    (best_max_edge, best_min_edge, true)
}

/// One more listed edge either displaces the winner or does not.
proof fn lemma_listed_step(
    col: Seq<Single>,
    order: Seq<i64>,
    start: int,
    pos: int,
    w: usize,
    edge: usize,
)
    requires
        0 <= start < pos < order.len(),
        order[pos] == edge,
        is_listed_max(col, order, start, pos, Some(w)),
    ensures
        is_listed_max(
            col,
            order,
            start,
            pos + 1,
            if col[edge as int].exceeds(col[w as int]) || (col[edge as int].ties(col[w as int])
                && edge < w) {
                Some(edge)
            } else {
                Some(w)
            },
        ),
{
    let p = choose|p: int| start <= p < pos && #[trigger] order[p] == w;
    assert(start <= p < pos + 1 && order[p] == w);
    assert(start <= pos < pos + 1 && order[pos] == edge);
}

/// `index` and `occupied` mark the winner of every entry, with index zero for
/// the entries of empty segments.
pub open spec fn is_index_table(
    values: Tensor3,
    segments: Seq<usize>,
    num_segments: usize,
    minimum: bool,
    index: Seq<usize>,
    occupied: Seq<bool>,
) -> bool {
    &&& index.len() == occupied.len()
    &&& crate::scatter::is_winner_table(
        values,
        segments,
        num_segments,
        minimum,
        winners_of(index, occupied),
    )
    &&& forall|p: int| 0 <= p < index.len() && !occupied[p] ==> #[trigger] index[p] == 0
}

/// The winners that indices and occupancy marks stand for.
pub open spec fn winners_of(index: Seq<usize>, occupied: Seq<bool>) -> Seq<Option<usize>> {
    Seq::new(index.len(), |p: int| marked(occupied[p], index[p]))
}

/// The winner at one position, once the edges are grouped.
spec fn wins_at(
    values: Tensor3,
    segments: Seq<usize>,
    num_segments: usize,
    minimum: bool,
    p: int,
    w: Option<usize>,
) -> bool {
    let (d, n) = (values.dims as int, num_segments as int);
    crate::scatter::is_winner(values.column(p / d / n, p % d), segments, (p / d) % n, minimum, w)
}

/// Winners at all positions make a table.
proof fn lemma_winners_at_positions(
    values: Tensor3,
    segments: Seq<usize>,
    num_segments: usize,
    minimum: bool,
    index: Seq<usize>,
    occupied: Seq<bool>,
)
    requires
        index.len() == occupied.len(),
        index.len() == values.queries * num_segments * values.dims,
        forall|p: int|
            0 <= p < index.len() ==> wins_at(
                values,
                segments,
                num_segments,
                minimum,
                p,
                marked(occupied[p], #[trigger] index[p]),
            ),
        forall|p: int| 0 <= p < index.len() && !occupied[p] ==> #[trigger] index[p] == 0,
    ensures
        is_index_table(values, segments, num_segments, minimum, index, occupied),
{
    let winners = winners_of(index, occupied);
    let (items, dims) = (num_segments as int, values.dims as int);
    assert forall|b: int, n: int, k: int|
        0 <= b < values.queries && 0 <= n < num_segments && 0 <= k
            < values.dims implies crate::scatter::is_winner(
        values.column(b, k),
        segments,
        n,
        minimum,
        #[trigger] winners[crate::scatter::slot(b, n, k, items, dims)],
    ) by {
        let p = crate::scatter::slot(b, n, k, items, dims);
        crate::scatter::lemma_slot_bound(b, n, k, values.queries as int, items, dims);
        crate::scatter::lemma_slot_split(p, values.queries as int, items, dims);
        crate::scatter::lemma_slot_injective(
            b,
            n,
            k,
            p / dims / items,
            (p / dims) % items,
            p % dims,
            items,
            dims,
        );
        assert(wins_at(
            values,
            segments,
            num_segments,
            minimum,
            p,
            marked(occupied[p], index[p]),
        ));
    }
}

/// The winning indices of the maximum and of the minimum, and the occupancy
/// marks, each an array shaped `[queries, num_segments, dims]`.
pub fn scatter_max_min_indices_wgpu(
    values: &Tensor3,
    segments: &[usize],
    num_segments: usize,
) -> (r: (Vec<usize>, Vec<usize>, Vec<bool>))
    requires
        values.wf(),
        segments@.len() == values.items,
        segments@.len() <= MAX_EDGES,
        num_segments < usize::MAX,
        values.queries * num_segments <= usize::MAX,
        values.queries * num_segments * values.dims <= usize::MAX,
        forall|e: int| 0 <= e < segments@.len() ==> (#[trigger] segments@[e]) < num_segments,
    ensures
        is_index_table(*values, segments@, num_segments, false, r.0@, r.2@),
        is_index_table(*values, segments@, num_segments, true, r.1@, r.2@),
{
    let (edge_order, offsets) = segment_csr(segments, num_segments);
    proof {
        blocks_list_their_segments(segments@, num_segments as int, edge_order@, offsets@);
    }
    let total: usize = values.queries * num_segments * values.dims;
    let mut idx_max: Vec<usize> = Vec::new();
    let mut idx_min: Vec<usize> = Vec::new();
    let mut mask: Vec<bool> = Vec::new();
    let mut position: usize = 0;
    while position < total
        invariant
            values.wf(),
            segments@.len() == values.items,
            offsets@.len() == num_segments + 1,
            is_grouped(edge_order@, offsets@, values.items as int),
            forall|s: int|
                0 <= s < num_segments ==> #[trigger] block_ascends(edge_order@, offsets@, s),
            forall|s: int|
                0 <= s < num_segments ==> #[trigger] listed(edge_order@, offsets@, s)
                    == crate::scatter::in_segment(segments@, s),
            total == values.queries * num_segments * values.dims,
            position <= total,
            idx_max@.len() == position,
            idx_min@.len() == position,
            mask@.len() == position,
            forall|p: int|
                0 <= p < position ==> wins_at(
                    *values,
                    segments@,
                    num_segments,
                    false,
                    p,
                    marked(mask@[p], #[trigger] idx_max@[p]),
                ),
            forall|p: int|
                0 <= p < position ==> wins_at(
                    *values,
                    segments@,
                    num_segments,
                    true,
                    p,
                    marked(mask@[p], #[trigger] idx_min@[p]),
                ),
            forall|p: int| 0 <= p < position && !mask@[p] ==> #[trigger] idx_max@[p] == 0,
            forall|p: int| 0 <= p < position && !mask@[p] ==> #[trigger] idx_min@[p] == 0,
        decreases total - position,
    {
        let (most, least, occupied) = segment_argmax_min_kernel(
            values,
            &edge_order,
            &offsets,
            position,
        );
        proof {
            let (d, n) = (values.dims as int, num_segments as int);
            crate::scatter::lemma_slot_split(position as int, values.queries as int, n, d);
            let s = (position as int / d) % n;
            let col = values.column(position as int / d / n, position as int % d);
            assert(listed(edge_order@, offsets@, s) == crate::scatter::in_segment(segments@, s));
            assert(block_ascends(edge_order@, offsets@, s));
            ascending_lists_agree_with_the_scan(
                col,
                edge_order@,
                offsets@,
                values.items as int,
                s,
                marked(occupied, most),
            );
            ascending_lists_agree_with_the_scan(
                crate::scatter::oriented(col, true),
                edge_order@,
                offsets@,
                values.items as int,
                s,
                marked(occupied, least),
            );
            assert(wins_at(
                *values,
                segments@,
                num_segments,
                false,
                position as int,
                marked(occupied, most),
            ));
            assert(wins_at(
                *values,
                segments@,
                num_segments,
                true,
                position as int,
                marked(occupied, least),
            ));
        }
        idx_max.push(most);
        idx_min.push(least);
        mask.push(occupied);
        position = position + 1;
    }
    proof {
        lemma_winners_at_positions(*values, segments@, num_segments, false, idx_max@, mask@);
        lemma_winners_at_positions(*values, segments@, num_segments, true, idx_min@, mask@);
    }
    (idx_max, idx_min, mask)
}

/// The winners that indices and occupancy marks stand for.
fn unmark(index: &Vec<usize>, occupied: &Vec<bool>) -> (winners: Vec<Option<usize>>)
    requires
        index@.len() == occupied@.len(),
    ensures
        winners@ == winners_of(index@, occupied@),
{
    let mut winners: Vec<Option<usize>> = Vec::new();
    let mut p: usize = 0;
    while p < index.len()
        invariant
            index@.len() == occupied@.len(),
            p <= index@.len(),
            winners@.len() == p,
            forall|o: int|
                0 <= o < p ==> #[trigger] winners@[o] == marked(occupied@[o], index@[o]),
        decreases index@.len() - p,
    {
        winners.push(
            if occupied[p] {
                Some(index[p])
            } else {
                None
            },
        );
        p = p + 1;
    }
    assert(winners@ =~= winners_of(index@, occupied@));
    winners
}

/// Segment maximum and minimum, computed on grouped edges. Empty segments come
/// back as positive zero in both.
pub fn scatter_max_min_wgpu(
    values: &Tensor3,
    segments: &[usize],
    num_segments: usize,
) -> (out: (Tensor3, Tensor3))
    requires
        values.wf(),
        segments@.len() == values.items,
        segments@.len() <= MAX_EDGES,
        num_segments < usize::MAX,
        values.queries * num_segments <= usize::MAX,
        values.queries * num_segments * values.dims <= usize::MAX,
        forall|e: int| 0 <= e < segments@.len() ==> (#[trigger] segments@[e]) < num_segments,
    ensures
        crate::scatter::reduces(
            *values,
            segments@,
            num_segments,
            false,
            (Single { bits: 0 }),
            out.0,
        ),
        crate::scatter::reduces(
            *values,
            segments@,
            num_segments,
            true,
            (Single { bits: 0 }),
            out.1,
        ),
{
    let (idx_max, idx_min, mask) = scatter_max_min_indices_wgpu(values, segments, num_segments);
    let most: Vec<Option<usize>> = unmark(&idx_max, &mask);
    let least: Vec<Option<usize>> = unmark(&idx_min, &mask);
    let fill: Single = Single { bits: 0 };
    proof {
        crate::scatter::lemma_winners_name_edges(*values, segments@, num_segments, false, most@);
        crate::scatter::lemma_winners_name_edges(*values, segments@, num_segments, true, least@);
    }
    let max: Tensor3 = crate::scatter::gather(values, num_segments, &most, fill);
    let min: Tensor3 = crate::scatter::gather(values, num_segments, &least, fill);
    proof {
        crate::scatter::lemma_winners_reduce(
            *values,
            segments@,
            num_segments,
            false,
            most@,
            fill,
            max,
        );
        crate::scatter::lemma_winners_reduce(
            *values,
            segments@,
            num_segments,
            true,
            least@,
            fill,
            min,
        );
    }
    (max, min)
}

/// What grouping does, on the ids: the offsets start at zero, never go down, and
/// end at the number of edges. Between two of them stand edges with the id in
/// question, in ascending order, and every edge stands between the offsets of its
/// id.
pub proof fn grouping_by_ids(
    segments: Seq<usize>,
    num_segments: int,
    edge_order: Seq<i64>,
    offsets: Seq<i64>,
)
    requires
        0 <= num_segments,
        is_csr(segments, num_segments, edge_order, offsets),
        forall|e: int| 0 <= e < segments.len() ==> (#[trigger] segments[e]) < num_segments,
    ensures
        edge_order.len() == segments.len(),
        offsets.len() == num_segments + 1,
        offsets[0] == 0,
        offsets[num_segments] == segments.len(),
        forall|s: int, t: int| 0 <= s <= t <= num_segments ==> offsets[s] <= offsets[t],
        forall|s: int, p: int|
            0 <= s < num_segments && #[trigger] offsets[s] <= p < offsets[s + 1] ==> 0
                <= #[trigger] edge_order[p] < segments.len() && segments[edge_order[p] as int] == s,
        forall|s: int, p: int, q: int|
            0 <= s < num_segments && #[trigger] offsets[s] <= p < q < offsets[s + 1]
                ==> #[trigger] edge_order[p] < #[trigger] edge_order[q],
        forall|e: int|
            0 <= e < segments.len() ==> exists|p: int|
                offsets[(#[trigger] segments[e]) as int] <= p < offsets[segments[e] + 1]
                    && #[trigger] edge_order[p] == e,
{
    blocks_list_their_segments(segments, num_segments, edge_order, offsets);
    assert forall|s: int, p: int|
        0 <= s < num_segments && #[trigger] offsets[s] <= p < offsets[s + 1] implies 0
        <= #[trigger] edge_order[p] < segments.len() && segments[edge_order[p] as int] == s by {
        assert(in_block(offsets, s, p));
        let member = listed(edge_order, offsets, s);
        assert(member == crate::scatter::in_segment(segments, s));
        assert(member(edge_order[p] as int));
    }
    assert forall|s: int, p: int, q: int|
        0 <= s < num_segments && #[trigger] offsets[s] <= p < q < offsets[s
            + 1] implies #[trigger] edge_order[p] < #[trigger] edge_order[q] by {
        assert(block_ascends(edge_order, offsets, s));
        assert(in_block(offsets, s, p));
        assert(in_block(offsets, s, q));
    }
    assert forall|e: int| 0 <= e < segments.len() implies exists|p: int|
        offsets[(#[trigger] segments[e]) as int] <= p < offsets[segments[e] + 1]
            && #[trigger] edge_order[p] == e by {
        let s = segments[e] as int;
        let member = listed(edge_order, offsets, s);
        assert(member == crate::scatter::in_segment(segments, s));
        assert(member(e));
        let p = choose|p: int| #[trigger] in_block(offsets, s, p) && edge_order[p] == e;
        assert(edge_order[p] == e);
    }
}

/// What the winner of a list is, on the values: it is listed; a NaN that is listed
/// first wins; otherwise the winner is a number, no listed value exceeds it, and
/// no smaller edge is listed with an equal value.
pub proof fn listed_winner_by_values(
    col: Seq<Single>,
    order: Seq<i64>,
    start: int,
    end: int,
    w: Option<usize>,
)
    requires
        is_listed_max(col, order, start, end, w),
    ensures
        w is None <==> start >= end,
        w matches Some(x) ==> {
            &&& exists|p: int| start <= p < end && #[trigger] order[p] == x
            &&& col[order[start] as int].nan() ==> x == order[start]
            &&& !col[order[start] as int].nan() ==> !col[x as int].nan() && forall|p: int|
                start <= p < end ==> !col[#[trigger] order[p] as int].exceeds(col[x as int]) && (
                col[order[p] as int].ties(col[x as int]) ==> x <= order[p])
        },
{
}

/// What indices and marks stand for: position `(b * num_segments + n) * dims + k`
/// is marked if and only if some edge has id `n`; its index is zero where it is
/// not, and where it is, the winner that [`crate::scatter::winners_by_values`]
/// describes.
pub proof fn indices_by_ids(
    values: Tensor3,
    segments: Seq<usize>,
    num_segments: usize,
    minimum: bool,
    index: Seq<usize>,
    occupied: Seq<bool>,
    winners: Seq<Option<usize>>,
    b: int,
    n: int,
    k: int,
)
    requires
        segments.len() == values.items,
        is_index_table(values, segments, num_segments, minimum, index, occupied),
        crate::scatter::is_winner_table(values, segments, num_segments, minimum, winners),
        0 <= b < values.queries,
        0 <= n < num_segments,
        0 <= k < values.dims,
    ensures
        ({
            let p = (b * num_segments + n) * values.dims + k;
            &&& index.len() == winners.len() && occupied.len() == winners.len()
            &&& occupied[p] <==> exists|e: int|
                0 <= e < segments.len() && #[trigger] segments[e] == n
            &&& !occupied[p] ==> index[p] == 0 && winners[p] is None
            &&& occupied[p] ==> winners[p] == Some(index[p])
        }),
{
    let p = (b * num_segments + n) * values.dims + k;
    crate::scatter::lemma_slot_bound(
        b,
        n,
        k,
        values.queries as int,
        num_segments as int,
        values.dims as int,
    );
    assert(p == crate::scatter::slot(b, n, k, num_segments as int, values.dims as int));
    crate::scatter::winner_tables_agree(
        values,
        segments,
        num_segments,
        minimum,
        winners_of(index, occupied),
        winners,
    );
    assert(winners[p] == marked(occupied[p], index[p]));
    crate::scatter::winners_by_values(values, segments, num_segments, minimum, winners, b, n, k);
}

} // verus!
