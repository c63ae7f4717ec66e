//! Homomorphism-count node features.
//!
//! Message passing tells nodes apart only up to color refinement, so it cannot
//! count cycles. Rooted closed-walk counts carry that information: the feature
//! is a named graph quantity. [`hom_profile`] assembles walk counts and
//! closed-walk counts as a feature matrix.
use vstd::prelude::*;

use crate::hops::NeighborLists;
use crate::ieee::{Double, Single};
use crate::matrix::Matrix;

verus! {

impl graphops::Graph for NeighborLists {
    fn node_count(&self) -> (n: usize)
        ensures
            n == self@.len(),
    {
        self.0.len()
    }

    fn neighbors(&self, node: usize) -> (list: Vec<usize>)
        ensures
            node < self@.len() ==> list@ == self@[node as int],
    {
        if node < self.0.len() {
            self.0[node].clone()
        } else {
            Vec::new()
        }
    }
}

/// The sum of `last(u)` over the walks of `len` edges that start at `v`, where
/// `u` is the node that the walk ends at.
pub open spec fn tally(
    lists: Seq<Seq<usize>>,
    v: int,
    len: nat,
    last: spec_fn(int) -> nat,
) -> nat
    decreases len, 0nat,
{
    if len == 0 {
        last(v)
    } else {
        tally_over(lists, lists[v], lists[v].len(), (len - 1) as nat, last)
    }
}

/// The sum of the tallies of `len` edges from the first `n` nodes of `starts`.
/// Ids beyond the node count lead nowhere.
pub open spec fn tally_over(
    lists: Seq<Seq<usize>>,
    starts: Seq<usize>,
    n: nat,
    len: nat,
    last: spec_fn(int) -> nat,
) -> nat
    decreases len, n,
{
    if n == 0 {
        0
    } else {
        tally_over(lists, starts, (n - 1) as nat, len, last) + if starts[n - 1] < lists.len() {
            tally(lists, starts[n - 1] as int, len, last)
        } else {
            0
        }
    }
}

/// One for every node.
pub open spec fn anywhere() -> spec_fn(int) -> nat {
    |u: int| 1
}

/// One for node `v` and zero for the others.
pub open spec fn only_at(v: int) -> spec_fn(int) -> nat {
    |u: int|
        if u == v {
            1
        } else {
            0
        }
}

/// The number of walks of `len` edges that start at `v`.
pub open spec fn walks(lists: Seq<Seq<usize>>, v: int, len: nat) -> nat {
    tally(lists, v, len, anywhere())
}

/// The number of walks of `len` edges that start and end at `v`.
pub open spec fn closed_walks(lists: Seq<Seq<usize>>, v: int, len: nat) -> nat {
    tally(lists, v, len, only_at(v))
}

/// The 64-bit patterns that the walk counts of length `len` come back as.
pub uninterp spec fn walk_count_bits(lists: Seq<Seq<usize>>, len: nat) -> Seq<u64>;

/// The 64-bit patterns that the closed-walk counts of length `len` come back as.
pub uninterp spec fn closed_walk_count_bits(lists: Seq<Seq<usize>>, len: nat) -> Seq<u64>;

/// Walk counts of length `len` from each node.
///
/// Calls `graphops::walk_counts` and hands out the bit patterns of its vector.
/// That function adds up ones in the 64-bit format, so the contract claims that
/// each entry is a pattern such sums can have, and denotes the exact count where
/// that is at most two to the fifty-third; beyond that the sums may round, and
/// nothing is said but that the patterns depend on the graph and the length
/// alone.
#[verifier::external_body]
fn walk_counts(graph: &NeighborLists, len: usize) -> (counts: Vec<u64>)
    ensures
        counts@ == walk_count_bits(graph@, len as nat),
        counts@.len() == graph@.len(),
        forall|v: int|
            0 <= v < graph@.len() ==> (Double { bits: #[trigger] counts@[v] }).counts() && (walks(
                graph@,
                v,
                len as nat,
            ) <= 0x20_0000_0000_0000 ==> (Double { bits: counts@[v] }).denotes(
                walks(graph@, v, len as nat),
            )),
{
    graphops::walk_counts(graph, len).into_iter().map(|count| count.to_bits()).collect()
}

/// Closed-walk counts of length `len` at each node.
///
/// Calls `graphops::closed_walk_counts` and hands out the bit patterns of its
/// vector. The contract claims of closed walks what that of [`walk_counts`]
/// claims of walks.
#[verifier::external_body]
fn closed_walk_counts(graph: &NeighborLists, len: usize) -> (counts: Vec<u64>)
    ensures
        counts@ == closed_walk_count_bits(graph@, len as nat),
        counts@.len() == graph@.len(),
        forall|v: int|
            0 <= v < graph@.len() ==> (Double { bits: #[trigger] counts@[v] }).counts() && (
            closed_walks(graph@, v, len as nat) <= 0x20_0000_0000_0000 ==> (Double {
                bits: counts@[v],
            }).denotes(closed_walks(graph@, v, len as nat))),
{
    graphops::closed_walk_counts(graph, len).into_iter().map(|count| count.to_bits()).collect()
}

/// A dense matrix of 32-bit features, one row per node.
#[derive(Clone, Debug, PartialEq, Eq)]
pub struct Features {
    /// Number of rows.
    pub nodes: usize,
    /// Number of columns.
    pub width: usize,
    /// The cells, row by row.
    pub cells: Vec<Single>,
}

impl Features {
    /// One cell for each node and feature.
    pub open spec fn wf(self) -> bool {
        self.cells@.len() == self.nodes * self.width
    }

    /// Feature `j` of node `v`.
    pub open spec fn at(self, v: int, j: int) -> Single {
        self.cells@[crate::index::cell(v, j, self.width as int)]
    }

    /// Reads feature `j` of node `v`.
    pub fn get(&self, v: usize, j: usize) -> (r: Single)
        requires
            self.wf(),
            v < self.nodes,
            j < self.width,
        ensures
            r == self.at(v as int, j as int),
    {
        proof {
            crate::index::lemma_cell_bound(
                v as int,
                j as int,
                self.nodes as int,
                self.width as int,
            );
            assert(self.cells@.len() == self.cells.len());
        }
        self.cells[v * self.width + j]
    }
}

/// Every count of `column` is a pattern that counts can have.
pub open spec fn holds_counts(column: Seq<u64>, nodes: nat) -> bool {
    &&& column.len() == nodes
    &&& forall|v: int| 0 <= v < nodes ==> (Double { bits: #[trigger] column[v] }).counts()
}

/// Feature matrix with the given columns of 64-bit counts, each count rounded
/// to the 32-bit format.
pub fn assemble(nodes: usize, columns: &Vec<Vec<u64>>) -> (out: Features)
    requires
        forall|j: int|
            0 <= j < columns@.len() ==> holds_counts((#[trigger] columns@[j])@, nodes as nat),
    ensures
        out.wf(),
        out.nodes == nodes,
        out.width == columns@.len(),
        forall|v: int, j: int|
            0 <= v < nodes && 0 <= j < columns@.len() ==> (Double {
                bits: columns@[j]@[v],
            }).rounds_to(#[trigger] out.at(v, j)),
{
    let width: usize = columns.len();
    let mut cells: Vec<Single> = Vec::new();
    let mut v: usize = 0;
    while v < nodes
        invariant
            width == columns@.len(),
            forall|j: int|
                0 <= j < columns@.len() ==> holds_counts((#[trigger] columns@[j])@, nodes as nat),
            v <= nodes,
            cells@.len() == v * width,
            forall|u: int, j: int|
                0 <= u < v && 0 <= j < width ==> (Double { bits: columns@[j]@[u] }).rounds_to(
                    #[trigger] cells@[crate::index::cell(u, j, width as int)],
                ),
        decreases nodes - v,
    {
        let mut j: usize = 0;
        while j < width
            invariant
                width == columns@.len(),
                forall|j: int|
                    0 <= j < columns@.len() ==> holds_counts(
                        (#[trigger] columns@[j])@,
                        nodes as nat,
                    ),
                v < nodes,
                j <= width,
                cells@.len() == crate::index::cell(v as int, j as int, width as int),
                forall|u: int, k: int|
                    0 <= k < width && (0 <= u < v || u == v && k < j) ==> (Double {
                        bits: columns@[k]@[u],
                    }).rounds_to(#[trigger] cells@[crate::index::cell(u, k, width as int)]),
            decreases width - j,
        {
            let ghost before = cells@;
            assert(holds_counts(columns@[j as int]@, nodes as nat));
            let count: Double = Double { bits: columns[j][v] };
            cells.push(count.narrow());
            proof {
                assert forall|u: int, k: int|
                    0 <= k < width && (0 <= u < v || u == v && k < j + 1) implies (Double {
                    bits: columns@[k]@[u],
                }).rounds_to(#[trigger] cells@[crate::index::cell(u, k, width as int)]) by {
                    crate::index::lemma_cell_order(u, k, v as int, j as int, width as int);
                    crate::index::lemma_cell_bound(u, k, u + 1, width as int);
                    if u == v && k == j {
                    } else {
                        assert(before[crate::index::cell(u, k, width as int)]
                            == cells@[crate::index::cell(u, k, width as int)]);
                    }
                }
            }
            j = j + 1;
        }
        assert(crate::index::cell(v as int, width as int, width as int) == (v + 1) * width)
            by (nonlinear_arith);
        v = v + 1;
    }
    Features { nodes, width, cells }
}

/// `r` holds a count of `n` that came back as the 64-bit pattern `bits`: rounded
/// to the 32-bit format, and exact where it is below two to the twenty-fourth.
pub open spec fn is_count_cell(n: nat, bits: u64, r: Single) -> bool {
    (Double { bits }).rounds_to(r) && (n < 0x100_0000 ==> r.denotes(n))
}

/// `out`, shaped `[nodes, max_walk + 2]`, holds the walk counts of lengths one
/// to `max_walk` and then the closed-walk counts of lengths three and four.
pub open spec fn is_hom_profile(lists: Seq<Seq<usize>>, max_walk: nat, out: Features) -> bool {
    &&& out.wf()
    &&& out.nodes == lists.len()
    &&& out.width == max_walk + 2
    &&& forall|v: int, j: int|
        0 <= v < out.nodes && 0 <= j < max_walk ==> is_count_cell(
            walks(lists, v, (j + 1) as nat),
            walk_count_bits(lists, (j + 1) as nat)[v],
            #[trigger] out.at(v, j),
        )
    &&& forall|v: int|
        0 <= v < out.nodes ==> is_count_cell(
            closed_walks(lists, v, 3),
            closed_walk_count_bits(lists, 3)[v],
            #[trigger] out.at(v, max_walk as int),
        )
    &&& forall|v: int|
        0 <= v < out.nodes ==> is_count_cell(
            closed_walks(lists, v, 4),
            closed_walk_count_bits(lists, 4)[v],
            #[trigger] out.at(v, max_walk as int + 1),
        )
}

/// Per-node homomorphism-count features: columns are the walk counts of lengths
/// `1..=max_walk` followed by the closed-walk counts of lengths three and four.
///
/// Entries of `adj` above zero are edges; weights do not enter the counts.
pub fn hom_profile(adj: &Matrix, max_walk: usize) -> (out: Features)
    requires
        adj.wf(),
        max_walk + 2 <= usize::MAX,
    ensures
        is_hom_profile(adj.neighbor_lists(), max_walk as nat, out),
        out.nodes == adj.rows,
        out.width == max_walk + 2,
        forall|v: int, len: nat|
            0 <= v < adj.rows && 1 <= len <= max_walk ==> (Double {
                bits: #[trigger] walk_count_bits(adj.neighbor_lists(), len)[v],
            }).rounds_to(out.cells@[v * (max_walk + 2) + (len - 1)]),
        forall|v: int|
            0 <= v < adj.rows ==> (Double {
                bits: #[trigger] closed_walk_count_bits(adj.neighbor_lists(), 3)[v],
            }).rounds_to(out.cells@[v * (max_walk + 2) + max_walk]),
        forall|v: int|
            0 <= v < adj.rows ==> (Double {
                bits: #[trigger] closed_walk_count_bits(adj.neighbor_lists(), 4)[v],
            }).rounds_to(out.cells@[v * (max_walk + 2) + max_walk + 1]),
{
    let graph: NeighborLists = crate::hops::neighbor_lists(adj);
    let ghost lists = adj.neighbor_lists();
    let nodes: usize = adj.rows;
    let mut columns: Vec<Vec<u64>> = Vec::new();
    while columns.len() < max_walk
        invariant
            graph@ == lists,
            lists.len() == nodes,
            max_walk < usize::MAX,
            columns@.len() <= max_walk,
            forall|j: int|
                0 <= j < columns@.len() ==> holds_counts(
                    (#[trigger] columns@[j])@,
                    nodes as nat,
                ) && columns@[j]@ == walk_count_bits(lists, (j + 1) as nat),
            forall|v: int, j: int|
                0 <= v < nodes && 0 <= j < columns@.len() && walks(lists, v, (j + 1) as nat)
                    < 0x100_0000 ==> (Double { bits: #[trigger] columns@[j]@[v] }).denotes(
                    walks(lists, v, (j + 1) as nat),
                ),
        decreases max_walk - columns@.len(),
    {
        let len: usize = columns.len() + 1;
        let counts: Vec<u64> = walk_counts(&graph, len);
        columns.push(counts);
    }
    let triangles: Vec<u64> = closed_walk_counts(&graph, 3);
    columns.push(triangles);
    let squares: Vec<u64> = closed_walk_counts(&graph, 4);
    columns.push(squares);
    let out: Features = assemble(nodes, &columns);
    proof {
        assert forall|v: int, j: int| 0 <= v < out.nodes && 0 <= j < max_walk implies is_count_cell(
            walks(lists, v, (j + 1) as nat),
            walk_count_bits(lists, (j + 1) as nat)[v],
            #[trigger] out.at(v, j),
        ) by {
            let d = Double { bits: columns@[j]@[v] };
            if walks(lists, v, (j + 1) as nat) < 0x100_0000 {
                crate::ieee::small_counts_are_kept(
                    d,
                    out.at(v, j),
                    walks(lists, v, (j + 1) as nat),
                );
            }
        }
        assert forall|v: int| 0 <= v < out.nodes implies is_count_cell(
            closed_walks(lists, v, 3),
            closed_walk_count_bits(lists, 3)[v],
            #[trigger] out.at(v, max_walk as int),
        ) by {
            let d = Double { bits: triangles@[v] };
            assert(columns@[max_walk as int]@ == triangles@);
            if closed_walks(lists, v, 3) < 0x100_0000 {
                crate::ieee::small_counts_are_kept(
                    d,
                    out.at(v, max_walk as int),
                    closed_walks(lists, v, 3),
                );
            }
        }
        assert forall|v: int| 0 <= v < out.nodes implies is_count_cell(
            closed_walks(lists, v, 4),
            closed_walk_count_bits(lists, 4)[v],
            #[trigger] out.at(v, max_walk as int + 1),
        ) by {
            let d = Double { bits: squares@[v] };
            assert(columns@[max_walk as int + 1]@ == squares@);
            if closed_walks(lists, v, 4) < 0x100_0000 {
                crate::ieee::small_counts_are_kept(
                    d,
                    out.at(v, max_walk as int + 1),
                    closed_walks(lists, v, 4),
                );
            }
        }
        assert forall|v: int, len: nat| 0 <= v < adj.rows && 1 <= len <= max_walk implies (Double {
            bits: #[trigger] walk_count_bits(lists, len)[v],
        }).rounds_to(out.cells@[v * (max_walk + 2) + (len - 1)]) by {
            profile_by_cells(lists, max_walk as nat, out, v, len - 1);
        }
        assert forall|v: int| 0 <= v < adj.rows implies (Double {
            bits: #[trigger] closed_walk_count_bits(lists, 3)[v],
        }).rounds_to(out.cells@[v * (max_walk + 2) + max_walk]) by {
            closed_columns_by_cells(lists, max_walk as nat, out, v);
        }
        assert forall|v: int| 0 <= v < adj.rows implies (Double {
            bits: #[trigger] closed_walk_count_bits(lists, 4)[v],
        }).rounds_to(out.cells@[v * (max_walk + 2) + max_walk + 1]) by {
            closed_columns_by_cells(lists, max_walk as nat, out, v);
        }
    }
    out
}

/// What the neighbor at place `p` of node `v`'s list adds to a tally of one
/// more edge than `rest`.
spec fn share(
    lists: Seq<Seq<usize>>,
    v: int,
    rest: nat,
    last: spec_fn(int) -> nat,
    p: int,
) -> nat {
    if lists[v][p] < lists.len() {
        tally(lists, lists[v][p] as int, rest, last)
    } else {
        0
    }
}

proof fn lemma_tally_over(
    lists: Seq<Seq<usize>>,
    v: int,
    n: nat,
    rest: nat,
    last: spec_fn(int) -> nat,
)
    ensures
        tally_over(lists, lists[v], n, rest, last) == crate::sums::total(
            n,
            |p: int| share(lists, v, rest, last, p),
        ),
    decreases n,
{
    if n > 0 {
        lemma_tally_over(lists, v, (n - 1) as nat, rest, last);
    }
}

/// A tally is the sum of its neighbors' shares.
proof fn lemma_tally_step(lists: Seq<Seq<usize>>, v: int, rest: nat, last: spec_fn(int) -> nat)
    ensures
        tally(lists, v, rest + 1, last) == crate::sums::total(
            lists[v].len(),
            |p: int| share(lists, v, rest, last, p),
        ),
{
    lemma_tally_over(lists, v, lists[v].len(), rest, last);
}

/// Only where the entries are above zero matters: matrices with the same edges
/// have the same profile, whatever their weights.
pub proof fn weights_do_not_matter(a: Matrix, b: Matrix, max_walk: nat, out: Features)
    requires
        a.same_edges(b),
        is_hom_profile(a.neighbor_lists(), max_walk, out),
    ensures
        is_hom_profile(b.neighbor_lists(), max_walk, out),
{
    crate::matrix::lemma_same_edges(a, b);
}

/// The listed neighbors are nodes.
pub open spec fn in_range(lists: Seq<Seq<usize>>) -> bool {
    forall|v: int, p: int|
        0 <= v < lists.len() && 0 <= p < lists[v].len() ==> (#[trigger] lists[v][p])
            < lists.len()
}

/// Walks of one edge count the neighbors.
pub proof fn single_step_walks_are_the_degree(lists: Seq<Seq<usize>>, v: int)
    requires
        in_range(lists),
        0 <= v < lists.len(),
    ensures
        walks(lists, v, 1) == lists[v].len(),
{
    lemma_tally_step(lists, v, 0, anywhere());
    let f = |p: int| share(lists, v, 0, anywhere(), p);
    crate::sums::lemma_total_constant(lists[v].len(), f, 1);
}

/// Every node of a graph in which all nodes have `k` neighbors starts `k` to the
/// power `len` walks: walk counts do not tell the nodes of regular graphs apart.
pub proof fn regular_graphs_have_equal_walks(lists: Seq<Seq<usize>>, k: nat, v: int, len: nat)
    requires
        in_range(lists),
        forall|u: int| 0 <= u < lists.len() ==> (#[trigger] lists[u]).len() == k,
        0 <= v < lists.len(),
    ensures
        walks(lists, v, len) == vstd::arithmetic::power::pow(k as int, len),
    decreases len,
{
    vstd::arithmetic::power::lemma_pow0(k as int);
    if len > 0 {
        let rest = (len - 1) as nat;
        regular_graphs_have_equal_walks(lists, k, v, rest);
        let c = walks(lists, v, rest);
        lemma_tally_step(lists, v, rest, anywhere());
        let f = |p: int| share(lists, v, rest, anywhere(), p);
        assert forall|p: int| 0 <= p < lists[v].len() implies #[trigger] f(p) == c by {
            regular_graphs_have_equal_walks(lists, k, lists[v][p] as int, rest);
        }
        crate::sums::lemma_total_constant(lists[v].len(), f, c);
        vstd::arithmetic::power::lemma_pow_adds(k as int, 1, rest);
        vstd::arithmetic::power::lemma_pow1(k as int);
    }
}

/// A larger value at the last node gives a larger tally.
proof fn lemma_tally_at_most(
    lists: Seq<Seq<usize>>,
    v: int,
    len: nat,
    f: spec_fn(int) -> nat,
    g: spec_fn(int) -> nat,
)
    requires
        forall|u: int| #[trigger] f(u) <= g(u),
    ensures
        tally(lists, v, len, f) <= tally(lists, v, len, g),
    decreases len,
{
    if len > 0 {
        let rest = (len - 1) as nat;
        lemma_tally_step(lists, v, rest, f);
        lemma_tally_step(lists, v, rest, g);
        let a = |p: int| share(lists, v, rest, f, p);
        let b = |p: int| share(lists, v, rest, g, p);
        assert forall|p: int| 0 <= p < lists[v].len() implies #[trigger] a(p) <= b(p) by {
            lemma_tally_at_most(lists, lists[v][p] as int, rest, f, g);
        }
        crate::sums::lemma_total_at_most(lists[v].len(), a, b);
    } else {
        assert(f(v) <= g(v));
    }
}

/// Closed walks are walks.
pub proof fn closed_walks_are_at_most_walks(lists: Seq<Seq<usize>>, v: int, len: nat)
    ensures
        closed_walks(lists, v, len) <= walks(lists, v, len),
{
    lemma_tally_at_most(lists, v, len, only_at(v), anywhere());
}

/// A walk is a walk of its first edges continued by a walk of the rest.
pub proof fn tallies_compose(
    lists: Seq<Seq<usize>>,
    v: int,
    first: nat,
    second: nat,
    last: spec_fn(int) -> nat,
)
    ensures
        tally(lists, v, first + second, last) == tally(
            lists,
            v,
            first,
            |u: int| tally(lists, u, second, last),
        ),
    decreases first,
{
    let then_rest = |u: int| tally(lists, u, second, last);
    if first > 0 {
        let rest = (first - 1) as nat;
        assert(first + second == (rest + second) + 1);
        lemma_tally_step(lists, v, rest + second, last);
        lemma_tally_step(lists, v, rest, then_rest);
        let a = |p: int| share(lists, v, rest + second, last, p);
        let b = |p: int| share(lists, v, rest, then_rest, p);
        assert forall|p: int| 0 <= p < lists[v].len() implies #[trigger] a(p) == b(p) by {
            tallies_compose(lists, lists[v][p] as int, rest, second, last);
        }
        crate::sums::lemma_total_agree(lists[v].len(), a, b);
    }
}

/// Every edge joins nodes of different colors.
pub open spec fn two_colored(lists: Seq<Seq<usize>>, color: spec_fn(int) -> bool) -> bool {
    forall|v: int, p: int|
        0 <= v < lists.len() && 0 <= p < lists[v].len() && #[trigger] lists[v][p] < lists.len()
            ==> color(v) != color(lists[v][p] as int)
}

/// Walks of `len` edges end on the side that the parity of `len` says.
proof fn lemma_walks_alternate(
    lists: Seq<Seq<usize>>,
    color: spec_fn(int) -> bool,
    v: int,
    len: nat,
    last: spec_fn(int) -> nat,
)
    requires
        two_colored(lists, color),
        0 <= v < lists.len(),
        forall|u: int|
            0 <= u < lists.len() && (color(u) == color(v)) == (len % 2 == 0) ==> #[trigger] last(u)
                == 0,
    ensures
        tally(lists, v, len, last) == 0,
    decreases len,
{
    if len > 0 {
        let rest = (len - 1) as nat;
        lemma_tally_step(lists, v, rest, last);
        let f = |p: int| share(lists, v, rest, last, p);
        assert forall|p: int| 0 <= p < lists[v].len() implies #[trigger] f(p) == 0 by {
            if lists[v][p] < lists.len() {
                lemma_walks_alternate(lists, color, lists[v][p] as int, rest, last);
            }
        }
        crate::sums::lemma_total_constant(lists[v].len(), f, 0);
    }
}

/// A graph whose nodes have two colors, with every edge between them, has no
/// closed walks of odd length: no triangles, whatever its walk counts are.
pub proof fn two_colored_graphs_have_no_odd_closed_walks(
    lists: Seq<Seq<usize>>,
    color: spec_fn(int) -> bool,
    v: int,
    len: nat,
)
    requires
        two_colored(lists, color),
        0 <= v < lists.len(),
        len % 2 == 1,
    ensures
        closed_walks(lists, v, len) == 0,
{
    lemma_walks_alternate(lists, color, v, len, only_at(v));
}

/// The neighbors that a square matrix lists are nodes.
pub proof fn square_matrices_list_nodes(adj: Matrix)
    requires
        adj.rows == adj.cols,
    ensures
        in_range(adj.neighbor_lists()),
{
    assert forall|v: int, p: int|
        0 <= v < adj.rows && 0 <= p < adj.neighbor_lists()[v].len() implies (
    #[trigger] adj.neighbor_lists()[v][p]) < adj.rows by {
        crate::select::lemma_selected(adj.cols as nat, |j: int| adj.edge(v, j));
    }
}

/// A tally of one more edge over the graph of a square matrix is the sum of the
/// tallies from the nodes that an edge leads to.
pub proof fn tallies_continue_along_edges(adj: Matrix, v: int, rest: nat, last: spec_fn(int) -> nat)
    requires
        adj.rows == adj.cols,
        0 <= v < adj.rows,
    ensures
        tally(adj.neighbor_lists(), v, rest + 1, last) == crate::sums::total(
            adj.rows as nat,
            |u: int|
                if adj.edge(v, u) {
                    tally(adj.neighbor_lists(), u, rest, last)
                } else {
                    0
                },
        ),
{
    let lists = adj.neighbor_lists();
    let keep = |j: int| adj.edge(v, j);
    let f = |u: int| tally(lists, u, rest, last);
    lemma_tally_step(lists, v, rest, last);
    crate::select::lemma_selected(adj.cols as nat, keep);
    crate::sums::lemma_total_selected(adj.cols as nat, keep, f);
    let shares = |p: int| share(lists, v, rest, last, p);
    let terms = |p: int| f(crate::select::selected(adj.cols as nat, keep)[p] as int);
    assert(lists[v] == crate::select::selected(adj.cols as nat, keep));
    crate::sums::lemma_total_agree(lists[v].len(), shares, terms);
    crate::sums::lemma_total_agree(
        adj.rows as nat,
        |u: int|
            if keep(u) {
                f(u)
            } else {
                0
            },
        |u: int|
            if adj.edge(v, u) {
                tally(lists, u, rest, last)
            } else {
                0
            },
    );
}

/// Relabeling carries tallies along.
proof fn lemma_relabeled_tally(
    a: Matrix,
    b: Matrix,
    there: spec_fn(int) -> int,
    back: spec_fn(int) -> int,
    v: int,
    len: nat,
    f: spec_fn(int) -> nat,
    g: spec_fn(int) -> nat,
)
    requires
        a.rows == a.cols,
        b.rows == a.rows,
        b.cols == a.cols,
        crate::sums::is_relabeling(a.rows as int, there, back),
        forall|i: int, j: int|
            0 <= i < a.rows && 0 <= j < a.rows ==> #[trigger] a.edge(i, j) == b.edge(
                there(i),
                there(j),
            ),
        forall|u: int| 0 <= u < a.rows ==> #[trigger] f(u) == g(there(u)),
        0 <= v < a.rows,
    ensures
        tally(b.neighbor_lists(), there(v), len, g) == tally(a.neighbor_lists(), v, len, f),
    decreases len,
{
    assert(0 <= there(v) < a.rows);
    if len > 0 {
        let rest = (len - 1) as nat;
        tallies_continue_along_edges(a, v, rest, f);
        tallies_continue_along_edges(b, there(v), rest, g);
        let of_a = |u: int|
            if a.edge(v, u) {
                tally(a.neighbor_lists(), u, rest, f)
            } else {
                0
            };
        let of_b = |u: int|
            if b.edge(there(v), u) {
                tally(b.neighbor_lists(), u, rest, g)
            } else {
                0
            };
        crate::sums::lemma_total_relabeled(a.rows as nat, of_b, there, back);
        let moved = |u: int| of_b(there(u));
        assert forall|u: int| 0 <= u < a.rows implies #[trigger] moved(u) == of_a(u) by {
            lemma_relabeled_tally(a, b, there, back, u, rest, f, g);
            assert(a.edge(v, u) == b.edge(there(v), there(u)));
        }
        crate::sums::lemma_total_agree(a.rows as nat, moved, of_a);
    } else {
        assert(f(v) == g(there(v)));
    }
}

/// The counts belong to the nodes, not to their labels: when the nodes of a
/// graph are relabeled, each takes its walk counts and its closed-walk counts
/// along.
pub proof fn relabeling_carries_counts_along(
    a: Matrix,
    b: Matrix,
    there: spec_fn(int) -> int,
    back: spec_fn(int) -> int,
    v: int,
    len: nat,
)
    requires
        a.rows == a.cols,
        b.rows == a.rows,
        b.cols == a.cols,
        crate::sums::is_relabeling(a.rows as int, there, back),
        forall|i: int, j: int|
            0 <= i < a.rows && 0 <= j < a.rows ==> #[trigger] a.edge(i, j) == b.edge(
                there(i),
                there(j),
            ),
        0 <= v < a.rows,
    ensures
        walks(b.neighbor_lists(), there(v), len) == walks(a.neighbor_lists(), v, len),
        closed_walks(b.neighbor_lists(), there(v), len) == closed_walks(
            a.neighbor_lists(),
            v,
            len,
        ),
{
    lemma_relabeled_tally(a, b, there, back, v, len, anywhere(), anywhere());
    let (f, g) = (only_at(v), only_at(there(v)));
    assert forall|u: int| 0 <= u < a.rows implies #[trigger] f(u) == g(there(u)) by {
        assert(back(there(u)) == u);
        assert(back(there(v)) == v);
    }
    lemma_relabeled_tally(a, b, there, back, v, len, f, g);
}

/// A graph has one profile.
pub proof fn profiles_agree(lists: Seq<Seq<usize>>, max_walk: nat, a: Features, b: Features)
    requires
        is_hom_profile(lists, max_walk, a),
        is_hom_profile(lists, max_walk, b),
    ensures
        a.nodes == b.nodes && a.width == b.width,
        a.cells@ == b.cells@,
{
    assert forall|p: int| 0 <= p < a.cells@.len() implies a.cells@[p] == b.cells@[p] by {
        let width = a.width as int;
        crate::index::lemma_cell_split(p, a.nodes as int, width);
        let (v, j) = (p / width, p % width);
        let bits = if j < max_walk {
            walk_count_bits(lists, (j + 1) as nat)[v]
        } else if j == max_walk {
            closed_walk_count_bits(lists, 3)[v]
        } else {
            closed_walk_count_bits(lists, 4)[v]
        };
        assert(j == max_walk as int || j < max_walk || j == max_walk as int + 1);
        crate::ieee::rounding_is_unique(Double { bits }, a.at(v, j), b.at(v, j));
    }
    assert(a.cells@ =~= b.cells@);
}

/// Where a profile holds what: cell `v * (max_walk + 2) + j` rounds the walk count
/// of `j + 1` edges for `j` below `max_walk`; the last two cells of a row round
/// the closed-walk counts of three and of four edges, whatever `max_walk` is.
/// Counts below two to the twenty-fourth are exact.
pub proof fn profile_by_cells(
    lists: Seq<Seq<usize>>,
    max_walk: nat,
    out: Features,
    v: int,
    j: int,
)
    requires
        is_hom_profile(lists, max_walk, out),
        0 <= v < lists.len(),
        0 <= j < max_walk,
    ensures
        out.nodes == lists.len(),
        out.width == max_walk + 2,
        out.cells@.len() == lists.len() * (max_walk + 2),
        (Double { bits: walk_count_bits(lists, (j + 1) as nat)[v] }).rounds_to(
            out.cells@[v * (max_walk + 2) + j],
        ),
        walks(lists, v, (j + 1) as nat) < 0x100_0000 ==> out.cells@[v * (max_walk + 2)
            + j].denotes(walks(lists, v, (j + 1) as nat)),
{
    assert(out.at(v, j) == out.cells@[v * (max_walk + 2) + j]);
}

/// The last two columns do not depend on the length of the walks before them.
pub proof fn closed_columns_by_cells(
    lists: Seq<Seq<usize>>,
    max_walk: nat,
    out: Features,
    v: int,
)
    requires
        is_hom_profile(lists, max_walk, out),
        0 <= v < lists.len(),
    ensures
        (Double { bits: closed_walk_count_bits(lists, 3)[v] }).rounds_to(
            out.cells@[v * (max_walk + 2) + max_walk],
        ),
        (Double { bits: closed_walk_count_bits(lists, 4)[v] }).rounds_to(
            out.cells@[v * (max_walk + 2) + max_walk + 1],
        ),
        closed_walks(lists, v, 3) < 0x100_0000 ==> out.cells@[v * (max_walk + 2)
            + max_walk].denotes(closed_walks(lists, v, 3)),
        closed_walks(lists, v, 4) < 0x100_0000 ==> out.cells@[v * (max_walk + 2) + max_walk
            + 1].denotes(closed_walks(lists, v, 4)),
{
    let last = max_walk as int;
    assert(out.at(v, last) == out.cells@[v * (max_walk + 2) + max_walk]);
    assert(out.at(v, last + 1) == out.cells@[v * (max_walk + 2) + max_walk + 1]);
}

/// Profiles of one graph agree wherever both have a column: on the walk counts
/// that both hold, and on their last two columns.
pub proof fn profiles_of_different_width_agree(
    lists: Seq<Seq<usize>>,
    short: nat,
    a: Features,
    long: nat,
    b: Features,
    v: int,
    j: int,
)
    requires
        is_hom_profile(lists, short, a),
        is_hom_profile(lists, long, b),
        0 <= v < lists.len(),
    ensures
        0 <= j < short && j < long ==> a.cells@[v * (short + 2) + j] == b.cells@[v * (long + 2) + j],
        a.cells@[v * (short + 2) + short] == b.cells@[v * (long + 2) + long],
        a.cells@[v * (short + 2) + short + 1] == b.cells@[v * (long + 2) + long + 1],
{
    closed_columns_by_cells(lists, short, a, v);
    closed_columns_by_cells(lists, long, b, v);
    crate::ieee::rounding_is_unique(
        Double { bits: closed_walk_count_bits(lists, 3)[v] },
        a.cells@[v * (short + 2) + short],
        b.cells@[v * (long + 2) + long],
    );
    crate::ieee::rounding_is_unique(
        Double { bits: closed_walk_count_bits(lists, 4)[v] },
        a.cells@[v * (short + 2) + short + 1],
        b.cells@[v * (long + 2) + long + 1],
    );
    if 0 <= j < short && j < long {
        profile_by_cells(lists, short, a, v, j);
        profile_by_cells(lists, long, b, v, j);
        crate::ieee::rounding_is_unique(
            Double { bits: walk_count_bits(lists, (j + 1) as nat)[v] },
            a.cells@[v * (short + 2) + j],
            b.cells@[v * (long + 2) + j],
        );
    }
}

/// A tally of no edges is the value at the node itself.
pub proof fn tallies_start_at_the_node(
    lists: Seq<Seq<usize>>,
    v: int,
    last: spec_fn(int) -> nat,
)
    ensures
        tally(lists, v, 0, last) == last(v),
        walks(lists, v, 0) == 1,
        closed_walks(lists, v, 0) == 1,
{
}

/// Walks of one more edge are counted by the nodes that an edge leads to.
pub proof fn walks_continue_along_edges(adj: Matrix, v: int, len: nat)
    requires
        adj.rows == adj.cols,
        0 <= v < adj.rows,
    ensures
        walks(adj.neighbor_lists(), v, len + 1) == crate::sums::total(
            adj.rows as nat,
            |u: int|
                if 0 < adj.cells@[v * adj.cols + u].bits <= 0x7ff0_0000_0000_0000 {
                    walks(adj.neighbor_lists(), u, len)
                } else {
                    0
                },
        ),
{
    tallies_continue_along_edges(adj, v, len, anywhere());
    let lists = adj.neighbor_lists();
    let by_edge = |u: int|
        if adj.edge(v, u) {
            tally(lists, u, len, anywhere())
        } else {
            0
        };
    let by_cell = |u: int|
        if 0 < adj.cells@[v * adj.cols + u].bits <= 0x7ff0_0000_0000_0000 {
            walks(lists, u, len)
        } else {
            0
        };
    assert forall|u: int| 0 <= u < adj.rows implies #[trigger] by_edge(u) == by_cell(u) by {
        crate::ieee::double_by_bits(adj.at(v, u));
    }
    crate::sums::lemma_total_agree(adj.rows as nat, by_edge, by_cell);
}

/// The cells of a profile follow from each other: the number in the first column
/// is the number of cells above zero in the node's row, and the number in each
/// further walk column is the sum, over those cells, of the numbers that the
/// column before holds for their nodes. Numbers count units of the smallest
/// subnormal, of which one is two to the hundred forty-ninth.
pub proof fn walk_columns_continue_each_other(
    adj: Matrix,
    max_walk: nat,
    out: Features,
    v: int,
    j: int,
)
    requires
        adj.rows == adj.cols,
        is_hom_profile(adj.neighbor_lists(), max_walk, out),
        0 <= v < adj.rows,
        0 <= j < max_walk,
        walks(adj.neighbor_lists(), v, (j + 1) as nat) < 0x100_0000,
    ensures
        !out.cells@[v * (max_walk + 2) + j].nan(),
        out.cells@[v * (max_walk + 2) + j].number() == crate::sums::total(
            adj.rows as nat,
            |u: int|
                if 0 < adj.cells@[v * adj.cols + u].bits <= 0x7ff0_0000_0000_0000 {
                    if j == 0 {
                        vstd::arithmetic::power2::pow2(149)
                    } else {
                        out.cells@[u * (max_walk + 2) + (j - 1)].number() as nat
                    }
                } else {
                    0
                },
        ),
{
    let lists = adj.neighbor_lists();
    let n = adj.rows as nat;
    let c = vstd::arithmetic::power2::pow2(149);
    let len = j as nat;
    profile_by_cells(lists, max_walk, out, v, j);
    walks_continue_along_edges(adj, v, len);
    let counts = |u: int|
        if 0 < adj.cells@[v * adj.cols + u].bits <= 0x7ff0_0000_0000_0000 {
            walks(lists, u, len)
        } else {
            0
        };
    let numbers = |u: int|
        if 0 < adj.cells@[v * adj.cols + u].bits <= 0x7ff0_0000_0000_0000 {
            if j == 0 {
                vstd::arithmetic::power2::pow2(149)
            } else {
                out.cells@[u * (max_walk + 2) + (j - 1)].number() as nat
            }
        } else {
            0
        };
    assert forall|u: int| 0 <= u < n implies #[trigger] numbers(u) == counts(u) * c by {
        crate::sums::lemma_term_at_most_total(n, counts, u);
        tallies_start_at_the_node(lists, u, anywhere());
        assert(0 * c == 0);
        assert(1 * c == c);
        if 0 < adj.cells@[v * adj.cols + u].bits <= 0x7ff0_0000_0000_0000 && j > 0 {
            profile_by_cells(lists, max_walk, out, u, j - 1);
        }
    }
    crate::sums::lemma_total_scaled(n, counts, numbers, c);
}

/// Closed walks of three edges at `v` are the pairs of nodes `i` and `j` with
/// edges from `v` to `i`, from `i` to `j` and from `j` back to `v`.
pub proof fn closed_walks_of_three_edges(adj: Matrix, v: int)
    requires
        adj.rows == adj.cols,
        0 <= v < adj.rows,
    ensures
        closed_walks(adj.neighbor_lists(), v, 3) == crate::sums::total(
            adj.rows as nat,
            |i: int|
                crate::sums::total(
                    adj.rows as nat,
                    |j: int|
                        if adj.edge(v, i) && adj.edge(i, j) && adj.edge(j, v) {
                            1
                        } else {
                            0
                        },
                ),
        ),
{
    let n = adj.rows as nat;
    tallies_continue_along_edges(adj, v, 2, only_at(v));
    let by_edge = |i: int|
        if adj.edge(v, i) {
            tally(adj.neighbor_lists(), i, 2, only_at(v))
        } else {
            0
        };
    let pairs = |i: int|
        crate::sums::total(
            n,
            |j: int|
                if adj.edge(v, i) && adj.edge(i, j) && adj.edge(j, v) {
                    1
                } else {
                    0
                },
        );
    assert forall|i: int| 0 <= i < n implies #[trigger] by_edge(i) == pairs(i) by {
        lemma_two_edges_back(adj, v, i);
        let ways = |j: int|
            if adj.edge(i, j) && adj.edge(j, v) {
                1nat
            } else {
                0nat
            };
        let with_first = |j: int|
            if adj.edge(v, i) && adj.edge(i, j) && adj.edge(j, v) {
                1nat
            } else {
                0nat
            };
        if adj.edge(v, i) {
            crate::sums::lemma_total_agree(n, ways, with_first);
        } else {
            crate::sums::lemma_total_constant(n, with_first, 0);
        }
    }
    crate::sums::lemma_total_agree(n, by_edge, pairs);
}

/// Closed walks of four edges at `v` are the triples of nodes `h`, `i` and `j`
/// with edges from `v` to `h`, to `i`, to `j` and back to `v`.
pub proof fn closed_walks_of_four_edges(adj: Matrix, v: int)
    requires
        adj.rows == adj.cols,
        0 <= v < adj.rows,
    ensures
        closed_walks(adj.neighbor_lists(), v, 4) == crate::sums::total(
            adj.rows as nat,
            |h: int|
                crate::sums::total(
                    adj.rows as nat,
                    |i: int|
                        crate::sums::total(
                            adj.rows as nat,
                            |j: int|
                                if adj.edge(v, h) && adj.edge(h, i) && adj.edge(i, j) && adj.edge(
                                    j,
                                    v,
                                ) {
                                    1
                                } else {
                                    0
                                },
                        ),
                ),
        ),
{
    let n = adj.rows as nat;
    let lists = adj.neighbor_lists();
    tallies_continue_along_edges(adj, v, 3, only_at(v));
    let by_edge = |h: int|
        if adj.edge(v, h) {
            tally(lists, h, 3, only_at(v))
        } else {
            0
        };
    let triples = |h: int|
        crate::sums::total(
            n,
            |i: int|
                crate::sums::total(
                    n,
                    |j: int|
                        if adj.edge(v, h) && adj.edge(h, i) && adj.edge(i, j) && adj.edge(j, v) {
                            1
                        } else {
                            0
                        },
                ),
        );
    assert forall|h: int| 0 <= h < n implies #[trigger] by_edge(h) == triples(h) by {
        tallies_continue_along_edges(adj, h, 2, only_at(v));
        let second = |i: int|
            if adj.edge(h, i) {
                tally(lists, i, 2, only_at(v))
            } else {
                0
            };
        let pairs = |i: int|
            crate::sums::total(
                n,
                |j: int|
                    if adj.edge(v, h) && adj.edge(h, i) && adj.edge(i, j) && adj.edge(j, v) {
                        1
                    } else {
                        0
                    },
            );
        assert forall|i: int| 0 <= i < n implies #[trigger] pairs(i) == if adj.edge(v, h) {
            second(i)
        } else {
            0
        } by {
            lemma_two_edges_back(adj, v, i);
            let ways = |j: int|
                if adj.edge(i, j) && adj.edge(j, v) {
                    1nat
                } else {
                    0nat
                };
            let with_all = |j: int|
                if adj.edge(v, h) && adj.edge(h, i) && adj.edge(i, j) && adj.edge(j, v) {
                    1nat
                } else {
                    0nat
                };
            if adj.edge(v, h) && adj.edge(h, i) {
                crate::sums::lemma_total_agree(n, ways, with_all);
            } else {
                crate::sums::lemma_total_constant(n, with_all, 0);
            }
        }
        if adj.edge(v, h) {
            crate::sums::lemma_total_agree(n, pairs, second);
        } else {
            crate::sums::lemma_total_constant(n, pairs, 0);
        }
    }
    crate::sums::lemma_total_agree(n, by_edge, triples);
}

/// Walks of two edges from `i` to `v` go through one node.
proof fn lemma_two_edges_back(adj: Matrix, v: int, i: int)
    requires
        adj.rows == adj.cols,
        0 <= v < adj.rows,
        0 <= i < adj.rows,
    ensures
        tally(adj.neighbor_lists(), i, 2, only_at(v)) == crate::sums::total(
            adj.rows as nat,
            |j: int|
                if adj.edge(i, j) && adj.edge(j, v) {
                    1
                } else {
                    0
                },
        ),
{
    let n = adj.rows as nat;
    let lists = adj.neighbor_lists();
    tallies_continue_along_edges(adj, i, 1, only_at(v));
    let by_edge = |j: int|
        if adj.edge(i, j) {
            tally(lists, j, 1, only_at(v))
        } else {
            0
        };
    let ways = |j: int|
        if adj.edge(i, j) && adj.edge(j, v) {
            1
        } else {
            0
        };
    assert forall|j: int| 0 <= j < n implies #[trigger] by_edge(j) == ways(j) by {
        tallies_continue_along_edges(adj, j, 0, only_at(v));
        let ends = |u: int|
            if adj.edge(j, u) {
                tally(lists, u, 0, only_at(v))
            } else {
                0
            };
        let none = |u: int| 0nat;
        crate::sums::lemma_total_constant(n, none, 0);
        crate::sums::lemma_total_changed(n, ends, none, v);
    }
    crate::sums::lemma_total_agree(n, by_edge, ways);
}

/// Whatever the length of its walks, the profile of a graph whose edges join
/// nodes of two colors holds zero before its last column.
pub proof fn two_colored_profiles_show_no_triangles(
    lists: Seq<Seq<usize>>,
    color: spec_fn(int) -> bool,
    max_walk: nat,
    out: Features,
    v: int,
)
    requires
        two_colored(lists, color),
        is_hom_profile(lists, max_walk, out),
        0 <= v < lists.len(),
    ensures
        out.cells@[v * (max_walk + 2) + max_walk].number() == 0,
{
    two_colored_graphs_have_no_odd_closed_walks(lists, color, v, 3);
    closed_columns_by_cells(lists, max_walk, out, v);
    assert(0 * vstd::arithmetic::power2::pow2(149) == 0);
}

/// A tally of one more edge is the sum over the node's list of the tallies from
/// the listed nodes; listed ids beyond the nodes add nothing.
pub proof fn tallies_continue_along_lists(
    lists: Seq<Seq<usize>>,
    v: int,
    rest: nat,
    last: spec_fn(int) -> nat,
)
    ensures
        tally(lists, v, rest + 1, last) == crate::sums::total(
            lists[v].len(),
            |p: int|
                if lists[v][p] < lists.len() {
                    tally(lists, lists[v][p] as int, rest, last)
                } else {
                    0
                },
        ),
{
    lemma_tally_step(lists, v, rest, last);
    crate::sums::lemma_total_agree(
        lists[v].len(),
        |p: int| share(lists, v, rest, last, p),
        |p: int|
            if lists[v][p] < lists.len() {
                tally(lists, lists[v][p] as int, rest, last)
            } else {
                0
            },
    );
}

} // verus!
