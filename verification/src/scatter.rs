//! Exact segment max/min over edge lists.
//!
//! Each edge carries a vector of values for each query, and belongs to one
//! segment (its target node). The segment statistics are selections: every
//! result is the value of one winning edge, so winners are chosen by comparing
//! and results are read back by index. Callers that differentiate through the
//! result gather from their own values with the winning indices; the choice
//! itself is piecewise constant and carries no gradient.
use vstd::prelude::*;

use crate::ieee::Single;

verus! {

/// Values shaped `[queries, items, dims]`, in row-major order.
#[derive(Clone, Debug, PartialEq, Eq)]
pub struct Tensor3 {
    /// Extent of the first axis.
    pub queries: usize,
    /// Extent of the second axis: edges of an input, segments of a result.
    pub items: usize,
    /// Extent of the third axis.
    pub dims: usize,
    /// The values, the last axis running fastest.
    pub values: Vec<Single>,
}

/// Position of entry `[b, i, k]` in an array with extents `items` and `dims`
/// along its last two axes.
pub open spec fn slot(b: int, i: int, k: int, items: int, dims: int) -> int {
    crate::index::cell(crate::index::cell(b, i, items), k, dims)
}

/// An entry inside the array has a position inside it.
pub proof fn lemma_slot_bound(
    b: int,
    i: int,
    k: int,
    queries: int,
    items: int,
    dims: int,
)
    requires
        0 <= b < queries,
        0 <= i < items,
        0 <= k < dims,
    ensures
        0 <= crate::index::cell(b, i, items) < queries * items,
        0 <= b * items <= crate::index::cell(b, i, items),
        0 <= crate::index::cell(b, i, items) * dims <= slot(b, i, k, items, dims) < queries * items
            * dims,
{
    crate::index::lemma_cell_bound(b, i, queries, items);
    crate::index::lemma_cell_bound(crate::index::cell(b, i, items), k, queries * items, dims);
}

impl Tensor3 {
    /// One value for each entry.
    pub open spec fn wf(self) -> bool {
        self.values@.len() == self.queries * self.items * self.dims
    }

    /// Entry `[b, i, k]`.
    pub open spec fn at(self, b: int, i: int, k: int) -> Single {
        self.values@[slot(b, i, k, self.items as int, self.dims as int)]
    }

    /// The values of query `b` and dimension `k`, one per item.
    pub open spec fn column(self, b: int, k: int) -> Seq<Single> {
        Seq::new(self.items as nat, |i: int| self.at(b, i, k))
    }

    /// Number of entries.
    pub fn elements(&self) -> (n: usize)
        requires
            self.wf(),
        ensures
            n == self.queries * self.items * self.dims,
    {
        self.values.len()
    }

    /// Reads entry `[b, i, k]`.
    pub fn get(&self, b: usize, i: usize, k: usize) -> (r: Single)
        requires
            self.wf(),
            b < self.queries,
            i < self.items,
            k < self.dims,
        ensures
            r == self.at(b as int, i as int, k as int),
    {
        proof {
            lemma_slot_bound(
                b as int,
                i as int,
                k as int,
                self.queries as int,
                self.items as int,
                self.dims as int,
            );
            assert(self.values@.len() == self.values.len());
            assert(crate::index::cell(b as int, i as int, self.items as int)
                <= crate::index::cell(b as int, i as int, self.items as int) * self.dims)
                by (nonlinear_arith)
                requires
                    self.dims >= 1,
                    crate::index::cell(b as int, i as int, self.items as int) >= 0,
            ;
        }
        self.values[(b * self.items + i) * self.dims + k]
    }
}

/// No member comes before `f`, itself a member.
pub open spec fn leads(member: spec_fn(int) -> bool, f: int) -> bool {
    member(f) && forall|e: int| 0 <= e < f ==> !#[trigger] member(e)
}

/// `w` is the member below `upto` that wins the maximum of `col`, or `None` if
/// there is no member.
///
/// Among numbers the largest wins, and of equal ones the first. No number
/// displaces a NaN and no NaN displaces a number, so a NaN wins if and only if
/// it leads.
pub open spec fn is_first_max(
    col: Seq<Single>,
    member: spec_fn(int) -> bool,
    upto: int,
    w: Option<usize>,
) -> bool {
    match w {
        None => forall|e: int| 0 <= e < upto ==> !#[trigger] member(e),
        Some(w) => {
            &&& w < upto
            &&& member(w as int)
            &&& if col[w as int].nan() {
                leads(member, w as int)
            } else {
                &&& forall|f: int| 0 <= f < upto && #[trigger] leads(member, f) ==> !col[f].nan()
                &&& forall|e: int|
                    0 <= e < upto && #[trigger] member(e) ==> !col[e].exceeds(col[w as int])
                &&& forall|e: int|
                    0 <= e < w && #[trigger] member(e) && !col[e].nan() ==> col[w as int].exceeds(
                        col[e],
                    )
            }
        },
    }
}

/// There is at most one winner.
pub proof fn winner_is_unique(
    col: Seq<Single>,
    member: spec_fn(int) -> bool,
    upto: int,
    v: Option<usize>,
    w: Option<usize>,
)
    requires
        is_first_max(col, member, upto, v),
        is_first_max(col, member, upto, w),
    ensures
        v == w,
{
    if let (Some(x), Some(y)) = (v, w) {
        assert(member(x as int) && member(y as int));
        if col[x as int].nan() {
            assert(leads(member, x as int));
        }
        if col[y as int].nan() {
            assert(leads(member, y as int));
        }
    }
}

/// Where no member is a NaN, the winning value is the maximum: it belongs to a
/// member and no member exceeds it.
pub proof fn winner_is_maximum(
    col: Seq<Single>,
    member: spec_fn(int) -> bool,
    upto: int,
    w: usize,
    e: int,
)
    requires
        is_first_max(col, member, upto, Some(w)),
        forall|x: int| 0 <= x < upto && #[trigger] member(x) ==> !col[x].nan(),
        0 <= e < upto,
        member(e),
    ensures
        member(w as int),
        col[e].number() <= col[w as int].number(),
{
    assert(!col[w as int].nan());
    assert(!col[e].nan());
    assert(!col[e].exceeds(col[w as int]));
}

/// One more element either displaces the winner or does not.
proof fn lemma_scan_step(
    col: Seq<Single>,
    member: spec_fn(int) -> bool,
    e: int,
    w: Option<usize>,
)
    requires
        0 <= e <= usize::MAX,
        is_first_max(col, member, e, w),
    ensures
        is_first_max(
            col,
            member,
            e + 1,
            if member(e) && match w {
                None => true,
                Some(x) => col[e].exceeds(col[x as int]),
            } {
                Some(e as usize)
            } else {
                w
            },
        ),
{
    if member(e) {
        match w {
            None => {
                assert(leads(member, e));
                assert forall|f: int| 0 <= f < e + 1 && #[trigger] leads(member, f) implies f
                    == e by {
                    assert(member(f));
                }
            },
            Some(x) => {
                assert(member(x as int));
                assert(!leads(member, e)) by {
                    assert(0 <= x < e && member(x as int));
                }
                if col[e].exceeds(col[x as int]) {
                    assert(!col[x as int].nan());
                    assert forall|f: int| 0 <= f < e + 1 && #[trigger] leads(member, f) implies !col[f].nan() by {
                        assert(f != e);
                    }
                    assert forall|y: int| 0 <= y < e && #[trigger] member(y) && !col[y].nan() implies col[e].exceeds(
                        col[y],
                    ) by {
                        assert(!col[y].exceeds(col[x as int]));
                    }
                } else {
                    assert forall|f: int| 0 <= f < e + 1 && #[trigger] leads(member, f) implies f
                        < e by {}
                }
            },
        }
    } else {
        assert(!leads(member, e));
    }
}

/// The values of `col`, negated where the minimum is sought: the minimum is
/// the maximum of the negated values.
pub open spec fn oriented(col: Seq<Single>, minimum: bool) -> Seq<Single> {
    if minimum {
        col.map_values(|v: Single| v.negated())
    } else {
        col
    }
}

/// The edges of segment `n`.
pub open spec fn in_segment(segments: Seq<usize>, n: int) -> spec_fn(int) -> bool {
    |e: int| 0 <= e < segments.len() && segments[e] == n
}

/// `w` is the edge of segment `n` that wins the maximum (or the minimum) of
/// `col`, or `None` if the segment has no edge.
pub open spec fn is_winner(
    col: Seq<Single>,
    segments: Seq<usize>,
    n: int,
    minimum: bool,
    w: Option<usize>,
) -> bool {
    is_first_max(oriented(col, minimum), in_segment(segments, n), segments.len() as int, w)
}

/// The winning edge of every segment in the column of query `b` and dimension
/// `k`.
fn column_winners(
    values: &Tensor3,
    b: usize,
    k: usize,
    segments: &[usize],
    num_segments: usize,
    minimum: bool,
) -> (winners: Vec<Option<usize>>)
    requires
        values.wf(),
        b < values.queries,
        k < values.dims,
        segments@.len() == values.items,
        forall|e: int| 0 <= e < segments@.len() ==> (#[trigger] segments@[e]) < num_segments,
    ensures
        winners@.len() == num_segments,
        forall|n: int|
            0 <= n < num_segments ==> is_winner(
                values.column(b as int, k as int),
                segments@,
                n,
                minimum,
                #[trigger] winners@[n],
            ),
{
    let ghost col = oriented(values.column(b as int, k as int), minimum);
    let mut winners: Vec<Option<usize>> = Vec::new();
    while winners.len() < num_segments
        invariant
            winners@.len() <= num_segments,
            forall|n: int| 0 <= n < winners@.len() ==> #[trigger] winners@[n] is None,
        decreases num_segments - winners@.len(),
    {
        winners.push(None);
    }
    let mut edge: usize = 0;
    while edge < segments.len()
        invariant
            values.wf(),
            b < values.queries,
            k < values.dims,
            segments@.len() == values.items,
            forall|e: int| 0 <= e < segments@.len() ==> (#[trigger] segments@[e]) < num_segments,
            col == oriented(values.column(b as int, k as int), minimum),
            edge <= segments@.len(),
            winners@.len() == num_segments,
            forall|n: int|
                0 <= n < num_segments ==> is_first_max(
                    col,
                    in_segment(segments@, n),
                    edge as int,
                    #[trigger] winners@[n],
                ),
        decreases segments@.len() - edge,
    {
        let n: usize = segments[edge];
        let v: Single = values.get(b, edge, k);
        let ghost before = winners@;
        let wins: bool = match winners[n] {
            None => true,
            Some(best) => {
                let held: Single = values.get(b, best, k);
                if minimum {
                    held.gt(&v)
                } else {
                    v.gt(&held)
                }
            },
        };
        proof {
            assert(is_first_max(col, in_segment(segments@, n as int), edge as int, before[n as int]));
            if let Some(best) = before[n as int] {
                crate::ieee::negation_mirrors_order(v, values.at(b as int, best as int, k as int));
                assert(col[edge as int] == if minimum {
                    v.negated()
                } else {
                    v
                });
                assert(wins == col[edge as int].exceeds(col[best as int]));
            }
        }
        if wins {
            winners.set(n, Some(edge));
        }
        proof {
            assert forall|m: int| 0 <= m < num_segments implies is_first_max(
                col,
                in_segment(segments@, m),
                edge + 1,
                #[trigger] winners@[m],
            ) by {
                assert(is_first_max(col, in_segment(segments@, m), edge as int, before[m]));
                lemma_scan_step(col, in_segment(segments@, m), edge as int, before[m]);
                assert(in_segment(segments@, m)(edge as int) == (m == n));
            }
        }
        edge = edge + 1;
    }
    winners
}

/// Different entries have different positions.
pub proof fn lemma_slot_injective(
    b: int,
    i: int,
    k: int,
    c: int,
    j: int,
    l: int,
    items: int,
    dims: int,
)
    requires
        0 <= i < items,
        0 <= j < items,
        0 <= k < dims,
        0 <= l < dims,
        slot(b, i, k, items, dims) == slot(c, j, l, items, dims),
    ensures
        b == c && i == j && k == l,
{
    crate::index::lemma_cell_order(
        crate::index::cell(b, i, items),
        k,
        crate::index::cell(c, j, items),
        l,
        dims,
    );
    crate::index::lemma_cell_order(b, i, c, j, items);
}

/// `out` begins the row-major array whose entry `[b, i, k]` is a result of
/// `entry(b, i, k)`.
spec fn begins_table<T, F: Fn(usize, usize, usize) -> T>(
    entry: F,
    items: usize,
    dims: usize,
    out: Seq<T>,
) -> bool {
    forall|b: usize, i: usize, k: usize|
        i < items && k < dims && slot(b as int, i as int, k as int, items as int, dims as int)
            < out.len() ==> call_ensures(
            entry,
            (b, i, k),
            #[trigger] out[slot(b as int, i as int, k as int, items as int, dims as int)],
        )
}

/// The next entry extends a table.
proof fn lemma_extends_table<T, F: Fn(usize, usize, usize) -> T>(
    entry: F,
    items: usize,
    dims: usize,
    out: Seq<T>,
    b: usize,
    i: usize,
    k: usize,
    value: T,
)
    requires
        begins_table(entry, items, dims, out),
        i < items,
        k < dims,
        out.len() == slot(b as int, i as int, k as int, items as int, dims as int),
        call_ensures(entry, (b, i, k), value),
    ensures
        begins_table(entry, items, dims, out.push(value)),
{
    let longer = out.push(value);
    assert forall|c: usize, j: usize, l: usize|
        j < items && l < dims && slot(c as int, j as int, l as int, items as int, dims as int)
            < longer.len() implies call_ensures(
        entry,
        (c, j, l),
        #[trigger] longer[slot(c as int, j as int, l as int, items as int, dims as int)],
    ) by {
        let p = slot(c as int, j as int, l as int, items as int, dims as int);
        lemma_slot_bound(c as int, j as int, l as int, c + 1, items as int, dims as int);
        if p == out.len() {
            lemma_slot_injective(
                c as int,
                j as int,
                l as int,
                b as int,
                i as int,
                k as int,
                items as int,
                dims as int,
            );
        } else {
            assert(longer[p] == out[p]);
        }
    }
}

/// The value of `entry` at every `[b, i, k]`, in row-major order.
fn tabulate<T, F: Fn(usize, usize, usize) -> T>(
    queries: usize,
    items: usize,
    dims: usize,
    entry: F,
) -> (out: Vec<T>)
    requires
        forall|b: usize, i: usize, k: usize|
            b < queries && i < items && k < dims ==> #[trigger] call_requires(entry, (b, i, k)),
    ensures
        out@.len() == queries * items * dims,
        forall|b: usize, i: usize, k: usize|
            b < queries && i < items && k < dims ==> call_ensures(
                entry,
                (b, i, k),
                #[trigger] out@[slot(b as int, i as int, k as int, items as int, dims as int)],
            ),
{
    let mut out: Vec<T> = Vec::new();
    let mut b: usize = 0;
    assert(0 * items * dims == 0) by (nonlinear_arith);
    while b < queries
        invariant
            b <= queries,
            out@.len() == b * items * dims,
            begins_table(entry, items, dims, out@),
            forall|c: usize, j: usize, l: usize|
                c < queries && j < items && l < dims ==> #[trigger] call_requires(
                    entry,
                    (c, j, l),
                ),
        decreases queries - b,
    {
        let mut i: usize = 0;
        while i < items
            invariant
                b < queries,
                i <= items,
                out@.len() == crate::index::cell(b as int, i as int, items as int) * dims,
                begins_table(entry, items, dims, out@),
                forall|c: usize, j: usize, l: usize|
                    c < queries && j < items && l < dims ==> #[trigger] call_requires(
                        entry,
                        (c, j, l),
                    ),
            decreases items - i,
        {
            let mut k: usize = 0;
            while k < dims
                invariant
                    b < queries,
                    i < items,
                    k <= dims,
                    out@.len() == slot(b as int, i as int, k as int, items as int, dims as int),
                    begins_table(entry, items, dims, out@),
                    forall|c: usize, j: usize, l: usize|
                        c < queries && j < items && l < dims ==> #[trigger] call_requires(
                            entry,
                            (c, j, l),
                        ),
                decreases dims - k,
            {
                let value: T = entry(b, i, k);
                proof {
                    lemma_extends_table(entry, items, dims, out@, b, i, k, value);
                }
                out.push(value);
                k = k + 1;
            }
            proof {
                let row = crate::index::cell(b as int, i as int, items as int);
                assert(row * dims + dims == (row + 1) * dims) by (nonlinear_arith);
            }
            i = i + 1;
        }
        assert(crate::index::cell(b as int, items as int, items as int) == (b + 1) * items)
            by (nonlinear_arith);
        b = b + 1;
    }
    proof {
        assert forall|c: usize, j: usize, l: usize|
            c < queries && j < items && l < dims implies call_ensures(
            entry,
            (c, j, l),
            #[trigger] out@[slot(c as int, j as int, l as int, items as int, dims as int)],
        ) by {
            lemma_slot_bound(
                c as int,
                j as int,
                l as int,
                queries as int,
                items as int,
                dims as int,
            );
        }
    }
    out
}

/// `winners[b, n, k]` is the edge that wins segment `n` in query `b` and
/// dimension `k`.
pub open spec fn is_winner_table(
    values: Tensor3,
    segments: Seq<usize>,
    num_segments: usize,
    minimum: bool,
    winners: Seq<Option<usize>>,
) -> bool {
    &&& winners.len() == values.queries * num_segments * values.dims
    &&& forall|b: int, n: int, k: int|
        0 <= b < values.queries && 0 <= n < num_segments && 0 <= k < values.dims ==> is_winner(
            values.column(b, k),
            segments,
            n,
            minimum,
            #[trigger] winners[slot(b, n, k, num_segments as int, values.dims as int)],
        )
}

/// The winning edge of every segment, for each query and dimension, in an
/// array shaped `[queries, num_segments, dims]`; `None` marks an empty segment.
pub fn segment_winners(
    values: &Tensor3,
    segments: &[usize],
    num_segments: usize,
    minimum: bool,
) -> (winners: Vec<Option<usize>>)
    requires
        values.wf(),
        segments@.len() == values.items,
        forall|e: int| 0 <= e < segments@.len() ==> (#[trigger] segments@[e]) < num_segments,
    ensures
        is_winner_table(*values, segments@, num_segments, minimum, winners@),
{
    let columns: Vec<Vec<Vec<Option<usize>>>> = query_winners(
        values,
        segments,
        num_segments,
        minimum,
    );
    let entry = |b: usize, n: usize, k: usize| -> (w: Option<usize>)
        requires
            b < columns@.len(),
            k < columns@[b as int]@.len(),
            n < columns@[b as int]@[k as int]@.len(),
        ensures
            w == columns@[b as int]@[k as int]@[n as int],
    { columns[b][k][n] };
    let winners: Vec<Option<usize>> = tabulate(
        values.queries,
        num_segments,
        values.dims,
        entry,
    );
    proof {
        assert forall|b: int, n: int, k: int|
            0 <= b < values.queries && 0 <= n < num_segments && 0 <= k
                < values.dims implies is_winner(
            values.column(b, k),
            segments@,
            n,
            minimum,
            #[trigger] winners@[slot(b, n, k, num_segments as int, values.dims as int)],
        ) by {
            let (x, y, z) = (b as usize, n as usize, k as usize);
            assert(winners@[slot(
                x as int,
                y as int,
                z as int,
                num_segments as int,
                values.dims as int,
            )] == columns@[b]@[k]@[n]);
        }
    }
    winners
}

/// The winners of every column, by query and dimension.
fn query_winners(
    values: &Tensor3,
    segments: &[usize],
    num_segments: usize,
    minimum: bool,
) -> (columns: Vec<Vec<Vec<Option<usize>>>>)
    requires
        values.wf(),
        segments@.len() == values.items,
        forall|e: int| 0 <= e < segments@.len() ==> (#[trigger] segments@[e]) < num_segments,
    ensures
        columns@.len() == values.queries,
        forall|b: int|
            0 <= b < values.queries ==> (#[trigger] columns@[b])@.len() == values.dims,
        forall|b: int, k: int|
            0 <= b < values.queries && 0 <= k < values.dims ==> (
            #[trigger] columns@[b]@[k])@.len() == num_segments,
        forall|b: int, k: int, n: int|
            0 <= b < values.queries && 0 <= k < values.dims && 0 <= n < num_segments ==> is_winner(
                values.column(b, k),
                segments@,
                n,
                minimum,
                #[trigger] columns@[b]@[k]@[n],
            ),
{
    let mut columns: Vec<Vec<Vec<Option<usize>>>> = Vec::new();
    let mut b: usize = 0;
    while b < values.queries
        invariant
            values.wf(),
            segments@.len() == values.items,
            forall|e: int| 0 <= e < segments@.len() ==> (#[trigger] segments@[e]) < num_segments,
            b <= values.queries,
            columns@.len() == b,
            forall|c: int| 0 <= c < b ==> (#[trigger] columns@[c])@.len() == values.dims,
            forall|c: int, k: int|
                0 <= c < b && 0 <= k < values.dims ==> (#[trigger] columns@[c]@[k])@.len()
                    == num_segments,
            forall|c: int, k: int, n: int|
                0 <= c < b && 0 <= k < values.dims && 0 <= n < num_segments ==> is_winner(
                    values.column(c, k),
                    segments@,
                    n,
                    minimum,
                    #[trigger] columns@[c]@[k]@[n],
                ),
        decreases values.queries - b,
    {
        let mut of_query: Vec<Vec<Option<usize>>> = Vec::new();
        let mut k: usize = 0;
        while k < values.dims
            invariant
                values.wf(),
                b < values.queries,
                segments@.len() == values.items,
                forall|e: int|
                    0 <= e < segments@.len() ==> (#[trigger] segments@[e]) < num_segments,
                k <= values.dims,
                of_query@.len() == k,
                forall|l: int| 0 <= l < k ==> (#[trigger] of_query@[l])@.len() == num_segments,
                forall|l: int, n: int|
                    0 <= l < k && 0 <= n < num_segments ==> is_winner(
                        values.column(b as int, l),
                        segments@,
                        n,
                        minimum,
                        #[trigger] of_query@[l]@[n],
                    ),
            decreases values.dims - k,
        {
            of_query.push(column_winners(values, b, k, segments, num_segments, minimum));
            k = k + 1;
        }
        columns.push(of_query);
        b = b + 1;
    }
    columns
}

/// The value of the winner, or `fill` where there is none.
pub open spec fn chosen(col: Seq<Single>, w: Option<usize>, fill: Single) -> Single {
    match w {
        None => fill,
        Some(e) => col[e as int],
    }
}

/// `winners` has an entry for every segment, query and dimension, and names
/// only edges that `values` has.
pub open spec fn names_edges(
    values: Tensor3,
    num_segments: usize,
    winners: Seq<Option<usize>>,
) -> bool {
    &&& winners.len() == values.queries * num_segments * values.dims
    &&& forall|p: int|
        0 <= p < winners.len() ==> (#[trigger] winners[p] matches Some(e) ==> e < values.items)
}

/// The value that wins entry `[b, n, k]`.
fn gathered(
    values: &Tensor3,
    num_segments: usize,
    winners: &Vec<Option<usize>>,
    fill: Single,
    b: usize,
    n: usize,
    k: usize,
) -> (r: Single)
    requires
        values.wf(),
        names_edges(*values, num_segments, winners@),
        b < values.queries,
        n < num_segments,
        k < values.dims,
    ensures
        r == chosen(
            values.column(b as int, k as int),
            winners@[slot(b as int, n as int, k as int, num_segments as int, values.dims as int)],
            fill,
        ),
{
    proof {
        lemma_slot_bound(
            b as int,
            n as int,
            k as int,
            values.queries as int,
            num_segments as int,
            values.dims as int,
        );
        let row = crate::index::cell(b as int, n as int, num_segments as int);
        let dims = values.dims as int;
        assert(row <= row * dims) by (nonlinear_arith)
            requires
                dims >= 1,
                row >= 0,
        ;
        assert(winners@.len() == winners.len());
    }
    match winners[(b * num_segments + n) * values.dims + k] {
        None => fill,
        Some(e) => values.get(b, e, k),
    }
}

/// Reads the values of the winners, and `fill` where there is none.
pub fn gather(
    values: &Tensor3,
    num_segments: usize,
    winners: &Vec<Option<usize>>,
    fill: Single,
) -> (out: Tensor3)
    requires
        values.wf(),
        names_edges(*values, num_segments, winners@),
    ensures
        out.wf(),
        out.queries == values.queries,
        out.items == num_segments,
        out.dims == values.dims,
        forall|b: int, n: int, k: int|
            0 <= b < out.queries && 0 <= n < out.items && 0 <= k < out.dims ==> #[trigger] out.at(
                b,
                n,
                k,
            ) == chosen(
                values.column(b, k),
                winners@[slot(b, n, k, num_segments as int, values.dims as int)],
                fill,
            ),
{
    let entry = |b: usize, n: usize, k: usize| -> (r: Single)
        requires
            b < values.queries,
            n < num_segments,
            k < values.dims,
        ensures
            r == chosen(
                values.column(b as int, k as int),
                winners@[slot(
                    b as int,
                    n as int,
                    k as int,
                    num_segments as int,
                    values.dims as int,
                )],
                fill,
            ),
    { gathered(values, num_segments, winners, fill, b, n, k) };
    let cells: Vec<Single> = tabulate(values.queries, num_segments, values.dims, entry);
    let out = Tensor3 {
        queries: values.queries,
        items: num_segments,
        dims: values.dims,
        values: cells,
    };
    proof {
        assert forall|b: int, n: int, k: int|
            0 <= b < out.queries && 0 <= n < out.items && 0 <= k
                < out.dims implies #[trigger] out.at(b, n, k) == chosen(
            values.column(b, k),
            winners@[slot(b, n, k, num_segments as int, values.dims as int)],
            fill,
        ) by {
            let (x, y, z) = (b as usize, n as usize, k as usize);
            let at = slot(x as int, y as int, z as int, num_segments as int, values.dims as int);
            assert(call_ensures(entry, (x, y, z), cells@[at]));
        }
    }
    out
}

/// `r` is the maximum (or the minimum) of `col` over the edges of segment `n`,
/// or `fill` if it has none.
pub open spec fn is_reduction(
    col: Seq<Single>,
    segments: Seq<usize>,
    n: int,
    minimum: bool,
    fill: Single,
    r: Single,
) -> bool {
    exists|w: Option<usize>|
        #[trigger] is_winner(col, segments, n, minimum, w) && r == chosen(col, w, fill)
}

/// `out`, shaped `[queries, num_segments, dims]`, holds the reduction of every
/// segment in every column of `values`.
pub open spec fn reduces(
    values: Tensor3,
    segments: Seq<usize>,
    num_segments: usize,
    minimum: bool,
    fill: Single,
    out: Tensor3,
) -> bool {
    &&& out.wf()
    &&& out.queries == values.queries
    &&& out.items == num_segments
    &&& out.dims == values.dims
    &&& forall|b: int, n: int, k: int|
        0 <= b < out.queries && 0 <= n < out.items && 0 <= k < out.dims ==> is_reduction(
            values.column(b, k),
            segments,
            n,
            minimum,
            fill,
            #[trigger] out.at(b, n, k),
        )
}

/// Every position inside the array is the position of one entry.
pub proof fn lemma_slot_split(p: int, queries: int, items: int, dims: int)
    requires
        0 <= p < queries * items * dims,
        0 <= queries,
        0 <= items,
        0 <= dims,
    ensures
        0 < dims,
        0 < items,
        0 <= p / dims / items < queries,
        0 <= (p / dims) % items < items,
        0 <= p % dims < dims,
        slot(p / dims / items, (p / dims) % items, p % dims, items, dims) == p,
{
    assert(0 <= queries * items) by (nonlinear_arith)
        requires
            0 <= queries,
            0 <= items,
    ;
    crate::index::lemma_cell_split(p, queries * items, dims);
    crate::index::lemma_cell_split(p / dims, queries, items);
}

/// Winners are edges.
pub proof fn lemma_winners_name_edges(
    values: Tensor3,
    segments: Seq<usize>,
    num_segments: usize,
    minimum: bool,
    winners: Seq<Option<usize>>,
)
    requires
        segments.len() == values.items,
        is_winner_table(values, segments, num_segments, minimum, winners),
    ensures
        names_edges(values, num_segments, winners),
{
    assert forall|p: int| 0 <= p < winners.len() implies (#[trigger] winners[p] matches Some(e)
        ==> e < values.items) by {
        let (items, dims) = (num_segments as int, values.dims as int);
        lemma_slot_split(p, values.queries as int, items, dims);
        let (b, n, k) = (p / dims / items, (p / dims) % items, p % dims);
        assert(is_winner(
            values.column(b, k),
            segments,
            n,
            minimum,
            winners[slot(b, n, k, items, dims)],
        ));
    }
}

/// The values of the winners are the reduction.
pub proof fn lemma_winners_reduce(
    values: Tensor3,
    segments: Seq<usize>,
    num_segments: usize,
    minimum: bool,
    winners: Seq<Option<usize>>,
    fill: Single,
    out: Tensor3,
)
    requires
        is_winner_table(values, segments, num_segments, minimum, winners),
        out.wf(),
        out.queries == values.queries,
        out.items == num_segments,
        out.dims == values.dims,
        forall|b: int, n: int, k: int|
            0 <= b < out.queries && 0 <= n < out.items && 0 <= k < out.dims ==> #[trigger] out.at(
                b,
                n,
                k,
            ) == chosen(
                values.column(b, k),
                winners[slot(b, n, k, num_segments as int, values.dims as int)],
                fill,
            ),
    ensures
        reduces(values, segments, num_segments, minimum, fill, out),
{
    assert forall|b: int, n: int, k: int|
        0 <= b < out.queries && 0 <= n < out.items && 0 <= k < out.dims implies is_reduction(
        values.column(b, k),
        segments,
        n,
        minimum,
        fill,
        #[trigger] out.at(b, n, k),
    ) by {
        let w = winners[slot(b, n, k, num_segments as int, values.dims as int)];
        assert(is_winner(values.column(b, k), segments, n, minimum, w));
    }
}

/// Segment maximum over an edge list, batched over queries.
///
/// `values` is shaped `[queries, edges, dims]` and `segments[e]` is the segment
/// of edge `e`. Entry `[b, n, k]` of the result is the maximum of
/// `values[b, e, k]` over the edges with `segments[e] == n`, or `fill` where
/// there is no such edge.
pub fn scatter_max(
    values: &Tensor3,
    segments: &[usize],
    num_segments: usize,
    fill: Single,
) -> (out: Tensor3)
    requires
        values.wf(),
        segments@.len() == values.items,
        forall|e: int| 0 <= e < segments@.len() ==> (#[trigger] segments@[e]) < num_segments,
    ensures
        reduces(*values, segments@, num_segments, false, fill, out),
{
    let winners: Vec<Option<usize>> = segment_winners(values, segments, num_segments, false);
    proof {
        lemma_winners_name_edges(*values, segments@, num_segments, false, winners@);
    }
    let out: Tensor3 = gather(values, num_segments, &winners, fill);
    proof {
        lemma_winners_reduce(*values, segments@, num_segments, false, winners@, fill, out);
    }
    out
}

/// Segment maximum and minimum of the same values. Empty segments come back as
/// positive zero in both.
pub fn scatter_max_min(
    values: &Tensor3,
    segments: &[usize],
    num_segments: usize,
) -> (out: (Tensor3, Tensor3))
    requires
        values.wf(),
        segments@.len() == values.items,
        forall|e: int| 0 <= e < segments@.len() ==> (#[trigger] segments@[e]) < num_segments,
    ensures
        reduces(*values, segments@, num_segments, false, (Single { bits: 0 }), out.0),
        reduces(*values, segments@, num_segments, true, (Single { bits: 0 }), out.1),
{
    let most: Vec<Option<usize>> = segment_winners(values, segments, num_segments, false);
    let least: Vec<Option<usize>> = segment_winners(values, segments, num_segments, true);
    let fill: Single = Single { bits: 0 };
    proof {
        lemma_winners_name_edges(*values, segments@, num_segments, false, most@);
        lemma_winners_name_edges(*values, segments@, num_segments, true, least@);
    }
    let max: Tensor3 = gather(values, num_segments, &most, fill);
    let min: Tensor3 = gather(values, num_segments, &least, fill);
    proof {
        lemma_winners_reduce(*values, segments@, num_segments, false, most@, fill, max);
        lemma_winners_reduce(*values, segments@, num_segments, true, least@, fill, min);
    }
    (max, min)
}

impl Tensor3 {
    /// Every value negated.
    pub fn neg(&self) -> (r: Tensor3)
        requires
            self.wf(),
        ensures
            r.wf(),
            r.queries == self.queries,
            r.items == self.items,
            r.dims == self.dims,
            forall|p: int|
                0 <= p < self.values@.len() ==> #[trigger] r.values@[p]
                    == self.values@[p].negated(),
    {
        let mut values: Vec<Single> = Vec::new();
        let mut p: usize = 0;
        while p < self.values.len()
            invariant
                p <= self.values@.len(),
                values@.len() == p,
                forall|o: int|
                    0 <= o < p ==> #[trigger] values@[o] == self.values@[o].negated(),
            decreases self.values@.len() - p,
        {
            values.push(self.values[p].neg());
            p = p + 1;
        }
        Tensor3 { queries: self.queries, items: self.items, dims: self.dims, values }
    }
}

/// The minimum is the negated maximum of the negated values.
pub proof fn minimum_is_negated_maximum(
    col: Seq<Single>,
    segments: Seq<usize>,
    n: int,
    fill: Single,
    r: Single,
)
    requires
        segments.len() == col.len(),
    ensures
        is_reduction(col, segments, n, true, fill, r) <==> is_reduction(
            col.map_values(|v: Single| v.negated()),
            segments,
            n,
            false,
            fill.negated(),
            r.negated(),
        ),
{
    let flipped = col.map_values(|v: Single| v.negated());
    crate::ieee::negation_mirrors_order(r, r);
    crate::ieee::negation_mirrors_order(fill, fill);
    assert forall|w: Option<usize>| #[trigger]
        is_winner(col, segments, n, true, w) implies chosen(flipped, w, fill.negated())
        == chosen(col, w, fill).negated() by {}
    if is_reduction(col, segments, n, true, fill, r) {
        let w = choose|w: Option<usize>|
            #[trigger] is_winner(col, segments, n, true, w) && r == chosen(col, w, fill);
        assert(is_winner(flipped, segments, n, false, w));
    }
    if is_reduction(flipped, segments, n, false, fill.negated(), r.negated()) {
        let w = choose|w: Option<usize>| #[trigger]
            is_winner(flipped, segments, n, false, w) && r.negated() == chosen(
                flipped,
                w,
                fill.negated(),
            );
        assert(is_winner(col, segments, n, true, w));
        let v = chosen(col, w, fill);
        crate::ieee::negation_mirrors_order(v, v);
    }
}

/// Segment minimum over an edge list: [`scatter_max`] of the negated values and
/// fill, negated.
pub fn scatter_min(
    values: &Tensor3,
    segments: &[usize],
    num_segments: usize,
    fill: Single,
) -> (out: Tensor3)
    requires
        values.wf(),
        segments@.len() == values.items,
        forall|e: int| 0 <= e < segments@.len() ==> (#[trigger] segments@[e]) < num_segments,
    ensures
        reduces(*values, segments@, num_segments, true, fill, out),
{
    let flipped: Tensor3 = values.neg();
    let most: Tensor3 = scatter_max(&flipped, segments, num_segments, fill.neg());
    let out: Tensor3 = most.neg();
    proof {
        assert forall|b: int, n: int, k: int|
            0 <= b < out.queries && 0 <= n < out.items && 0 <= k < out.dims implies is_reduction(
            values.column(b, k),
            segments@,
            n,
            true,
            fill,
            #[trigger] out.at(b, n, k),
        ) by {
            let col = values.column(b, k);
            lemma_slot_bound(
                b,
                n,
                k,
                out.queries as int,
                out.items as int,
                out.dims as int,
            );
            let r = most.at(b, n, k);
            assert(out.at(b, n, k) == r.negated());
            crate::ieee::negation_mirrors_order(r, r);
            assert forall|e: int| 0 <= e < values.items implies #[trigger] flipped.at(b, e, k)
                == values.at(b, e, k).negated() by {
                lemma_slot_bound(
                    b,
                    e,
                    k,
                    values.queries as int,
                    values.items as int,
                    values.dims as int,
                );
            }
            assert(flipped.column(b, k) =~= col.map_values(|v: Single| v.negated()));
            minimum_is_negated_maximum(col, segments@, n, fill, out.at(b, n, k));
        }
    }
    out
}

/// A segment has one reduction.
pub proof fn reduction_is_unique(
    col: Seq<Single>,
    segments: Seq<usize>,
    n: int,
    minimum: bool,
    fill: Single,
    r: Single,
    s: Single,
)
    requires
        is_reduction(col, segments, n, minimum, fill, r),
        is_reduction(col, segments, n, minimum, fill, s),
    ensures
        r == s,
{
    let v = choose|w: Option<usize>|
        #[trigger] is_winner(col, segments, n, minimum, w) && r == chosen(col, w, fill);
    let w = choose|w: Option<usize>|
        #[trigger] is_winner(col, segments, n, minimum, w) && s == chosen(col, w, fill);
    winner_is_unique(
        oriented(col, minimum),
        in_segment(segments, n),
        segments.len() as int,
        v,
        w,
    );
}

/// Whichever way the winners were chosen, they are the same edges.
pub proof fn winner_tables_agree(
    values: Tensor3,
    segments: Seq<usize>,
    num_segments: usize,
    minimum: bool,
    a: Seq<Option<usize>>,
    b: Seq<Option<usize>>,
)
    requires
        is_winner_table(values, segments, num_segments, minimum, a),
        is_winner_table(values, segments, num_segments, minimum, b),
    ensures
        a == b,
{
    assert forall|p: int| 0 <= p < a.len() implies a[p] == b[p] by {
        let (items, dims) = (num_segments as int, values.dims as int);
        lemma_slot_split(p, values.queries as int, items, dims);
        let (q, n, k) = (p / dims / items, (p / dims) % items, p % dims);
        let at = slot(q, n, k, items, dims);
        assert(is_winner(values.column(q, k), segments, n, minimum, a[at]));
        assert(is_winner(values.column(q, k), segments, n, minimum, b[at]));
        winner_is_unique(
            oriented(values.column(q, k), minimum),
            in_segment(segments, n),
            segments.len() as int,
            a[at],
            b[at],
        );
    }
    assert(a =~= b);
}

/// Whichever way the reduction was computed, the result is the same: the pair
/// of [`scatter_max_min`] is that of [`scatter_max`] and [`scatter_min`] with
/// a fill of positive zero.
pub proof fn reductions_agree(
    values: Tensor3,
    segments: Seq<usize>,
    num_segments: usize,
    minimum: bool,
    fill: Single,
    a: Tensor3,
    b: Tensor3,
)
    requires
        reduces(values, segments, num_segments, minimum, fill, a),
        reduces(values, segments, num_segments, minimum, fill, b),
    ensures
        a.queries == b.queries && a.items == b.items && a.dims == b.dims,
        a.values@ == b.values@,
{
    assert forall|p: int| 0 <= p < a.values@.len() implies a.values@[p] == b.values@[p] by {
        let (items, dims) = (num_segments as int, values.dims as int);
        lemma_slot_split(p, values.queries as int, items, dims);
        let (q, n, k) = (p / dims / items, (p / dims) % items, p % dims);
        reduction_is_unique(
            values.column(q, k),
            segments,
            n,
            minimum,
            fill,
            a.at(q, n, k),
            b.at(q, n, k),
        );
    }
    assert(a.values@ =~= b.values@);
}

/// A segment without edges reduces to the fill, whatever the values are.
pub proof fn empty_segment_is_filled(
    col: Seq<Single>,
    segments: Seq<usize>,
    n: int,
    minimum: bool,
    fill: Single,
    r: Single,
)
    requires
        is_reduction(col, segments, n, minimum, fill, r),
        forall|e: int| 0 <= e < segments.len() ==> (#[trigger] segments[e]) != n,
    ensures
        r == fill,
{
    let w = choose|w: Option<usize>|
        #[trigger] is_winner(col, segments, n, minimum, w) && r == chosen(col, w, fill);
    assert(w is None);
}

/// Without NaNs among them, the reduction of a segment's edges is one of its values and
/// bounds all of them: from above for the maximum, from below for the minimum.
pub proof fn reduction_is_attained_bound(
    col: Seq<Single>,
    segments: Seq<usize>,
    n: int,
    minimum: bool,
    fill: Single,
    r: Single,
    e: int,
)
    requires
        segments.len() == col.len(),
        is_reduction(col, segments, n, minimum, fill, r),
        forall|x: int|
            0 <= x < segments.len() && segments[x] == n ==> !(#[trigger] col[x]).nan(),
        0 <= e < segments.len(),
        segments[e] == n,
    ensures
        exists|x: int| 0 <= x < segments.len() && segments[x] == n && r == #[trigger] col[x],
        minimum ==> r.number() <= col[e].number(),
        !minimum ==> r.number() >= col[e].number(),
{
    let w = choose|w: Option<usize>|
        #[trigger] is_winner(col, segments, n, minimum, w) && r == chosen(col, w, fill);
    let member = in_segment(segments, n);
    assert(member(e));
    assert(w is Some);
    let x = w->Some_0 as int;
    assert(r == col[x]);
    let turned = oriented(col, minimum);
    assert forall|y: int| 0 <= y < segments.len() && #[trigger] member(y) implies !turned[y].nan() by {
        assert(!col[y].nan());
        crate::ieee::negation_mirrors_order(col[y], col[y]);
    }
    winner_is_maximum(turned, member, segments.len() as int, w->Some_0, e);
    crate::ieee::negation_mirrors_order(col[e], col[e]);
    crate::ieee::negation_mirrors_order(col[x], col[x]);
}

/// Only the edges of a segment bear on its reduction.
pub proof fn other_segments_do_not_matter(
    col: Seq<Single>,
    other: Seq<Single>,
    segments: Seq<usize>,
    n: int,
    minimum: bool,
    fill: Single,
    r: Single,
)
    requires
        segments.len() == col.len(),
        segments.len() == other.len(),
        forall|e: int|
            0 <= e < segments.len() && segments[e] == n ==> #[trigger] col[e] == other[e],
        is_reduction(col, segments, n, minimum, fill, r),
    ensures
        is_reduction(other, segments, n, minimum, fill, r),
{
    let w = choose|w: Option<usize>|
        #[trigger] is_winner(col, segments, n, minimum, w) && r == chosen(col, w, fill);
    let member = in_segment(segments, n);
    let (old_col, new_col) = (oriented(col, minimum), oriented(other, minimum));
    assert forall|e: int| 0 <= e < segments.len() && #[trigger] member(e) implies old_col[e]
        == new_col[e] by {
        assert(col[e] == other[e]);
    }
    if let Some(x) = w {
        assert(member(x as int));
        assert forall|f: int|
            0 <= f < segments.len() && #[trigger] leads(member, f) implies old_col[f]
            == new_col[f] by {
            assert(member(f));
        }
    }
    assert(is_winner(other, segments, n, minimum, w));
}

/// Without NaNs among its edges, the minimum of a segment is at most its maximum.
pub proof fn minimum_is_at_most_maximum(
    col: Seq<Single>,
    segments: Seq<usize>,
    n: int,
    fill: Single,
    least: Single,
    most: Single,
)
    requires
        segments.len() == col.len(),
        is_reduction(col, segments, n, true, fill, least),
        is_reduction(col, segments, n, false, fill, most),
        forall|x: int|
            0 <= x < segments.len() && segments[x] == n ==> !(#[trigger] col[x]).nan(),
    ensures
        least.number() <= most.number(),
{
    if exists|e: int| 0 <= e < segments.len() && #[trigger] segments[e] == n {
        let e = choose|e: int| 0 <= e < segments.len() && #[trigger] segments[e] == n;
        reduction_is_attained_bound(col, segments, n, true, fill, least, e);
        reduction_is_attained_bound(col, segments, n, false, fill, most, e);
    } else {
        empty_segment_is_filled(col, segments, n, true, fill, least);
        empty_segment_is_filled(col, segments, n, false, fill, most);
    }
}

/// Where entries lie: the last axis runs fastest, then the items, and then the
/// queries.
pub proof fn entries_by_position(t: Tensor3, b: int, i: int, k: int)
    requires
        0 <= i < t.items,
    ensures
        slot(b, i, k, t.items as int, t.dims as int) == (b * t.items + i) * t.dims + k,
        t.at(b, i, k) == t.values@[(b * t.items + i) * t.dims + k],
        t.column(b, k).len() == t.items,
        t.column(b, k)[i] == t.values@[(b * t.items + i) * t.dims + k],
{
}

/// What is read for a winner, and what for none.
pub proof fn winners_are_read_or_filled(col: Seq<Single>, e: usize, fill: Single)
    ensures
        chosen(col, None, fill) == fill,
        chosen(col, Some(e), fill) == col[e as int],
{
}

/// `e` beats `w` in the direction sought.
spec fn beats(minimum: bool, e: Single, w: Single) -> bool {
    if minimum {
        w.exceeds(e)
    } else {
        e.exceeds(w)
    }
}

proof fn lemma_winner_facts(
    col: Seq<Single>,
    segments: Seq<usize>,
    n: int,
    minimum: bool,
    w: Option<usize>,
)
    requires
        col.len() == segments.len(),
        is_winner(col, segments, n, minimum, w),
    ensures
        w is None <==> forall|e: int| 0 <= e < segments.len() ==> (#[trigger] segments[e]) != n,
        w matches Some(x) ==> {
            &&& x < segments.len()
            &&& segments[x as int] == n
            &&& col[x as int].nan() ==> forall|e: int|
                0 <= e < x ==> (#[trigger] segments[e]) != n
            &&& !col[x as int].nan() ==> {
                &&& forall|e: int|
                    0 <= e < segments.len() && (#[trigger] segments[e]) == n ==> !beats(
                        minimum,
                        col[e],
                        col[x as int],
                    )
                &&& forall|e: int|
                    0 <= e < x && (#[trigger] segments[e]) == n && !col[e].nan() ==> beats(
                        minimum,
                        col[x as int],
                        col[e],
                    )
                &&& forall|f: int|
                    0 <= f < segments.len() && (#[trigger] segments[f]) == n && (forall|e: int|
                        0 <= e < f ==> (#[trigger] segments[e]) != n) ==> !col[f].nan()
            }
        },
{
    let member = in_segment(segments, n);
    let turned = oriented(col, minimum);
    assert forall|e: int| 0 <= e < segments.len() implies #[trigger] member(e) == (segments[e]
        == n) by {}
    if let Some(x) = w {
        assert(member(x as int));
        assert forall|e: int| 0 <= e < segments.len() implies (turned[e].nan() == (
        #[trigger] col[e]).nan()) && turned[e].exceeds(turned[x as int]) == beats(
            minimum,
            col[e],
            col[x as int],
        ) && turned[x as int].exceeds(turned[e]) == beats(minimum, col[x as int], col[e]) by {
            crate::ieee::negation_mirrors_order(col[e], col[x as int]);
            crate::ieee::negation_mirrors_order(col[x as int], col[e]);
        }
        if col[x as int].nan() {
            assert(leads(member, x as int));
            assert forall|e: int| 0 <= e < x implies (#[trigger] segments[e]) != n by {
                assert(!member(e));
            }
        } else {
            assert forall|e: int|
                0 <= e < segments.len() && (#[trigger] segments[e]) == n implies !beats(
                minimum,
                col[e],
                col[x as int],
            ) by {
                assert(member(e));
                assert(col[e].nan() == turned[e].nan());
            }
            assert forall|e: int|
                0 <= e < x && (#[trigger] segments[e]) == n && !col[e].nan() implies beats(
                minimum,
                col[x as int],
                col[e],
            ) by {
                assert(member(e));
                assert(col[e].nan() == turned[e].nan());
            }
            assert forall|f: int|
                0 <= f < segments.len() && (#[trigger] segments[f]) == n && (forall|e: int|
                    0 <= e < f ==> (#[trigger] segments[e]) != n) implies !col[f].nan() by {
                assert(member(f));
                assert forall|e: int| 0 <= e < f implies !#[trigger] member(e) by {
                    assert(segments[e] != n);
                }
                assert(leads(member, f));
                assert(col[f].nan() == turned[f].nan());
            }
        }
    } else {
        assert forall|e: int| 0 <= e < segments.len() implies (#[trigger] segments[e]) != n by {
            assert(!member(e));
        }
    }
}

/// What the winner of segment `n` in query `b` and dimension `k` is, on the
/// values and the segment ids. There is none if and only if no edge has id `n`.
/// Otherwise it has id `n`. If its value is a NaN, no earlier edge has id `n`. If
/// not, the first edge with id `n` is no NaN either, no edge with id `n` has a
/// better value, and every earlier one that is no NaN has a worse.
pub proof fn winners_by_values(
    values: Tensor3,
    segments: Seq<usize>,
    num_segments: usize,
    minimum: bool,
    winners: Seq<Option<usize>>,
    b: int,
    n: int,
    k: int,
)
    requires
        segments.len() == values.items,
        is_winner_table(values, segments, num_segments, minimum, winners),
        0 <= b < values.queries,
        0 <= n < num_segments,
        0 <= k < values.dims,
    ensures
        winners.len() == values.queries * num_segments * values.dims,
        ({
            let of = |e: int| values.values@[(b * values.items + e) * values.dims + k];
            match winners[(b * num_segments + n) * values.dims + k] {
                None => forall|e: int|
                    0 <= e < segments.len() ==> (#[trigger] segments[e]) != n,
                Some(x) => {
                    &&& x < segments.len()
                    &&& segments[x as int] == n
                    &&& of(x as int).nan() ==> forall|e: int|
                        0 <= e < x ==> (#[trigger] segments[e]) != n
                    &&& !of(x as int).nan() ==> {
                        &&& forall|e: int|
                            0 <= e < segments.len() && (#[trigger] segments[e]) == n
                                ==> if minimum {
                                !of(x as int).exceeds(of(e))
                            } else {
                                !of(e).exceeds(of(x as int))
                            }
                        &&& forall|e: int|
                            0 <= e < x && (#[trigger] segments[e]) == n && !of(e).nan()
                                ==> if minimum {
                                of(e).exceeds(of(x as int))
                            } else {
                                of(x as int).exceeds(of(e))
                            }
                        &&& forall|f: int|
                            0 <= f < segments.len() && (#[trigger] segments[f]) == n && (forall|
                                e: int,
                            |
                                0 <= e < f ==> (#[trigger] segments[e]) != n) ==> !of(f).nan()
                    }
                },
            }
        }),
{
    let at = slot(b, n, k, num_segments as int, values.dims as int);
    assert(at == (b * num_segments + n) * values.dims + k);
    let col = values.column(b, k);
    assert(is_winner(col, segments, n, minimum, winners[at]));
    lemma_winner_facts(col, segments, n, minimum, winners[at]);
    let of = |e: int| values.values@[(b * values.items + e) * values.dims + k];
    assert forall|e: int| 0 <= e < segments.len() implies #[trigger] of(e) == col[e] by {
        entries_by_position(values, b, e, k);
    }
    if let Some(x) = winners[at] {
        assert(of(x as int) == col[x as int]);
        assert forall|e: int| 0 <= e < segments.len() && (#[trigger] segments[e])
            == n implies if minimum {
            !of(x as int).exceeds(of(e))
        } else {
            !of(e).exceeds(of(x as int))
        } || of(x as int).nan() by {
            assert(of(e) == col[e]);
        }
        assert forall|e: int| 0 <= e < x && (#[trigger] segments[e]) == n && !of(
            e,
        ).nan() implies if minimum {
            of(e).exceeds(of(x as int))
        } else {
            of(x as int).exceeds(of(e))
        } || of(x as int).nan() by {
            assert(of(e) == col[e]);
        }
        assert forall|f: int|
            0 <= f < segments.len() && (#[trigger] segments[f]) == n && (forall|e: int|
                0 <= e < f ==> (#[trigger] segments[e]) != n) implies !of(f).nan() || of(
            x as int,
        ).nan() by {
            assert(of(f) == col[f]);
        }
    }
}

/// What a reduction holds for segment `n` in query `b` and dimension `k`: the
/// fill if no edge has id `n`, and otherwise the value of an edge with that id,
/// which is the winner as [`winners_by_values`] has it.
pub proof fn reductions_by_values(
    values: Tensor3,
    segments: Seq<usize>,
    num_segments: usize,
    minimum: bool,
    fill: Single,
    out: Tensor3,
    b: int,
    n: int,
    k: int,
) -> (winner: Option<usize>)
    requires
        segments.len() == values.items,
        reduces(values, segments, num_segments, minimum, fill, out),
        0 <= b < values.queries,
        0 <= n < num_segments,
        0 <= k < values.dims,
    ensures
        out.queries == values.queries && out.items == num_segments && out.dims == values.dims,
        out.values@.len() == values.queries * num_segments * values.dims,
        ({
            let of = |e: int| values.values@[(b * values.items + e) * values.dims + k];
            let r = out.values@[(b * num_segments + n) * values.dims + k];
            match winner {
                None => r == fill && forall|e: int|
                    0 <= e < segments.len() ==> (#[trigger] segments[e]) != n,
                Some(x) => {
                    &&& x < segments.len()
                    &&& segments[x as int] == n
                    &&& r == of(x as int)
                    &&& r.nan() ==> forall|e: int| 0 <= e < x ==> (#[trigger] segments[e]) != n
                    &&& !r.nan() ==> {
                        &&& forall|e: int|
                            0 <= e < segments.len() && (#[trigger] segments[e]) == n
                                ==> if minimum {
                                !r.exceeds(of(e))
                            } else {
                                !of(e).exceeds(r)
                            }
                        &&& forall|e: int|
                            0 <= e < x && (#[trigger] segments[e]) == n && !of(e).nan()
                                ==> if minimum {
                                of(e).exceeds(r)
                            } else {
                                r.exceeds(of(e))
                            }
                        &&& forall|f: int|
                            0 <= f < segments.len() && (#[trigger] segments[f]) == n && (forall|
                                e: int,
                            |
                                0 <= e < f ==> (#[trigger] segments[e]) != n) ==> !of(f).nan()
                    }
                },
            }
        }),
{
    let col = values.column(b, k);
    let r = out.at(b, n, k);
    entries_by_position(out, b, n, k);
    assert(is_reduction(col, segments, n, minimum, fill, r));
    let w = choose|w: Option<usize>|
        #[trigger] is_winner(col, segments, n, minimum, w) && r == chosen(col, w, fill);
    lemma_winner_facts(col, segments, n, minimum, w);
    let of = |e: int| values.values@[(b * values.items + e) * values.dims + k];
    assert forall|e: int| 0 <= e < segments.len() implies #[trigger] of(e) == col[e] by {
        entries_by_position(values, b, e, k);
    }
    if let Some(x) = w {
        assert(of(x as int) == col[x as int]);
        assert forall|e: int| 0 <= e < segments.len() && (#[trigger] segments[e])
            == n implies if minimum {
            !r.exceeds(of(e))
        } else {
            !of(e).exceeds(r)
        } || r.nan() by {
            assert(of(e) == col[e]);
        }
        assert forall|e: int| 0 <= e < x && (#[trigger] segments[e]) == n && !of(
            e,
        ).nan() implies if minimum {
            of(e).exceeds(r)
        } else {
            r.exceeds(of(e))
        } || r.nan() by {
            assert(of(e) == col[e]);
        }
        assert forall|f: int|
            0 <= f < segments.len() && (#[trigger] segments[f]) == n && (forall|e: int|
                0 <= e < f ==> (#[trigger] segments[e]) != n) implies !of(f).nan() || r.nan() by {
            assert(of(f) == col[f]);
        }
    }
    w
}

} // verus!
