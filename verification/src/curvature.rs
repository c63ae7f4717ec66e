//! Ollivier-Ricci edge curvature for graphs.
//!
//! The discrete Ricci curvature of an edge `(u, v)` compares how close the
//! neighborhoods of `u` and `v` are, relative to how far apart the nodes
//! themselves are:
//!
//! ```text
//! kappa(u, v) = 1 - W1(mu_u, mu_v) / d(u, v)
//! ```
//!
//! where `mu_x` is the lazy random-walk measure of `x`, `W1` is the
//! Wasserstein-1 distance under the hop metric, and `d` is the hop distance
//! (`1` for an edge). Positive curvature means neighborhoods overlap
//! (clique-like), zero is grid/cycle-like, negative means neighborhoods pull
//! apart (tree- or bridge-like).
//!
//! This module holds everything about that which is not arithmetic on
//! floating-point numbers: which inputs are rejected and why, which edges are
//! curved and in what order, and for each edge the transport problem to solve,
//! that is the union of the two supports and the hop costs between its nodes.
//! The walk measures and the transport solver are handed in.
use vstd::prelude::*;

use crate::hops::NeighborLists;
use crate::ieee::{Double, Single};
use crate::matrix::Matrix;

verus! {

/// Configuration for [`ollivier_ricci_curvatures`].
#[derive(Debug, Clone, Copy)]
pub struct CurvatureConfig {
    /// Laziness of the random walk: `mu_x` keeps `alpha` mass at `x` and
    /// spreads `1 - alpha` over its neighbors. Zero is Ollivier's original
    /// definition; one half is the other common choice. Must be in `[0, 1]`.
    pub alpha: Double,
    /// Entropic regularization for the Sinkhorn `W1`. Smaller is closer to
    /// the exact transport distance at the cost of more iterations.
    pub reg: Single,
    /// Sinkhorn iteration cap.
    pub max_iter: usize,
}

impl Default for CurvatureConfig {
    /// No laziness, a regularization of one hundredth, five hundred
    /// iterations.
    fn default() -> (c: Self)
        ensures
            c.alpha.bits == 0,
            c.reg.bits == 0x3c23_d70a,
            c.max_iter == 500,
    {
        CurvatureConfig { alpha: Double { bits: 0 }, reg: Single { bits: 0x3c23_d70a }, max_iter: 500 }
    }
}

/// Curvature of one undirected edge (`u < v`).
///
/// `==` compares `kappa` as a number: zeros of both signs are equal, and a NaN
/// equals nothing.
#[derive(Debug, Clone, Copy)]
pub struct EdgeCurvature {
    /// Smaller endpoint.
    pub u: usize,
    /// Larger endpoint.
    pub v: usize,
    /// Ollivier-Ricci curvature `1 - W1(mu_u, mu_v)`.
    pub kappa: Single,
}

impl PartialEq for EdgeCurvature {
    fn eq(&self, other: &EdgeCurvature) -> (r: bool) {
        self.u == other.u && self.v == other.v && self.kappa.equals(&other.kappa)
    }
}

impl vstd::std_specs::cmp::PartialEqSpecImpl for EdgeCurvature {
    open spec fn obeys_eq_spec() -> bool {
        true
    }

    open spec fn eq_spec(&self, other: &EdgeCurvature) -> bool {
        self.u == other.u && self.v == other.v && self.kappa.ties(other.kappa)
    }
}

/// Input problems [`ollivier_ricci_curvatures`] rejects.
#[derive(Debug, Clone, Copy, PartialEq, Eq, Structural)]
pub enum CurvatureError {
    /// The adjacency matrix is not square.
    NotSquare,
    /// The adjacency matrix is not symmetric; curvature is defined here for
    /// undirected graphs.
    NotSymmetric,
    /// An edge weight is negative or non-finite.
    InvalidWeight,
    /// `alpha` is outside `[0, 1]`.
    InvalidAlpha,
}

impl CurvatureError {
    /// The text shown for the error.
    pub open spec fn text(self) -> Seq<char> {
        match self {
            CurvatureError::NotSquare => "adjacency matrix must be square"@,
            CurvatureError::NotSymmetric => "adjacency matrix must be symmetric (undirected)"@,
            CurvatureError::InvalidWeight => "edge weights must be finite and non-negative"@,
            CurvatureError::InvalidAlpha => "alpha must be in [0, 1]"@,
        }
    }

    /// The text shown for the error.
    pub fn message(&self) -> (s: &'static str)
        ensures
            s@ == self.text(),
    {
        match self {
            CurvatureError::NotSquare => "adjacency matrix must be square",
            CurvatureError::NotSymmetric => "adjacency matrix must be symmetric (undirected)",
            CurvatureError::InvalidWeight => "edge weights must be finite and non-negative",
            CurvatureError::InvalidAlpha => "alpha must be in [0, 1]",
        }
    }
}

/// `alpha` lies in `[0, 1]`.
pub open spec fn laziness_in_range(alpha: Double) -> bool {
    !alpha.nan() && 0 <= alpha.number() <= vstd::arithmetic::power2::pow2(1074)
}

/// What is wrong with the cell at position `p`: a weight that is negative or
/// non-finite, or else one that `agrees` says differs from its mirror image.
pub open spec fn cell_error(adj: Matrix, agrees: Seq<bool>, p: int) -> Option<CurvatureError> {
    let w = adj.cells@[p];
    if !w.finite() || w.below_zero() {
        Some(CurvatureError::InvalidWeight)
    } else if !agrees[p] {
        Some(CurvatureError::NotSymmetric)
    } else {
        None
    }
}

/// What is wrong with the first faulty cell at or after position `p`.
pub open spec fn first_cell_error(adj: Matrix, agrees: Seq<bool>, p: nat) -> Option<CurvatureError>
    decreases adj.cells@.len() - p,
{
    if p >= adj.cells@.len() {
        None
    } else if cell_error(adj, agrees, p as int) is Some {
        cell_error(adj, agrees, p as int)
    } else {
        first_cell_error(adj, agrees, p + 1)
    }
}

/// The reason to reject the input, or `None` if it is accepted. Shape comes
/// before `alpha`, and `alpha` before the cells, which are read row by row.
pub open spec fn input_error(adj: Matrix, alpha: Double, agrees: Seq<bool>) -> Option<
    CurvatureError,
> {
    if adj.cols != adj.rows {
        Some(CurvatureError::NotSquare)
    } else if !laziness_in_range(alpha) {
        Some(CurvatureError::InvalidAlpha)
    } else {
        first_cell_error(adj, agrees, 0)
    }
}

/// Accepts or rejects an adjacency matrix and a laziness.
///
/// `agrees[p]` tells whether the weight at position `p` equals the weight at
/// the mirrored position within the caller's tolerance.
pub fn check_input(adj: &Matrix, alpha: &Double, agrees: &Vec<bool>) -> (r: Result<
    (),
    CurvatureError,
>)
    requires
        adj.wf(),
        adj.rows == adj.cols ==> agrees@.len() == adj.cells@.len(),
    ensures
        r == match input_error(*adj, *alpha, agrees@) {
            Some(e) => Err::<(), CurvatureError>(e),
            None => Ok(()),
        },
{
    if adj.cols != adj.rows {
        return Err(CurvatureError::NotSquare);
    }
    let zero: Double = Double::zero();
    let one: Double = Double::one();
    if !(zero.le(alpha) && alpha.le(&one)) {
        return Err(CurvatureError::InvalidAlpha);
    }
    let mut p: usize = 0;
    while p < adj.cells.len()
        invariant
            agrees@.len() == adj.cells@.len(),
            p <= adj.cells@.len(),
            input_error(*adj, *alpha, agrees@) == first_cell_error(*adj, agrees@, p as nat),
        decreases adj.cells@.len() - p,
    {
        let w: Double = adj.cells[p];
        if !w.is_finite() || w.lt_zero() {
            return Err(CurvatureError::InvalidWeight);
        }
        if !agrees[p] {
            return Err(CurvatureError::NotSymmetric);
        }
        p = p + 1;
    }
    Ok(())
}

/// One optimal-transport problem: move the measure of `u` to the measure of
/// `v` along hops.
#[derive(Debug)]
pub struct TransportProblem {
    /// Smaller endpoint of the edge.
    pub u: usize,
    /// Larger endpoint of the edge.
    pub v: usize,
    /// The nodes that either measure gives mass to, in ascending order.
    pub support: Vec<usize>,
    /// The mass that the measure of `u` gives to each node of the support.
    pub source: Vec<Double>,
    /// The mass that the measure of `v` gives to each node of the support.
    pub target: Vec<Double>,
    /// Hop costs between the nodes of the support, row by row; `usize::MAX`
    /// where no walk leads from the one to the other.
    pub cost: Vec<usize>,
    /// Entropic regularization to solve it with.
    pub reg: Single,
    /// Iteration cap to solve it with.
    pub max_iter: usize,
}

/// The nodes that the measure in row `u` or the measure in row `v` gives mass
/// to, in ascending order.
pub open spec fn union_support(measures: Matrix, u: int, v: int) -> Seq<usize> {
    crate::select::selected(
        measures.cols as nat,
        |i: int| measures.at(u, i).positive() || measures.at(v, i).positive(),
    )
}

/// The cost of a hop distance.
pub open spec fn hop_cost(hops: Option<usize>) -> usize {
    match hops {
        Some(d) => d,
        None => usize::MAX,
    }
}

/// `c` is the cost of going from node `s` to node `t`.
pub open spec fn is_hop_cost(lists: Seq<Seq<usize>>, s: int, t: int, c: usize) -> bool {
    exists|h: Option<usize>|
        #[trigger] crate::hops::is_hop_distance(lists, s, t, h) && c == hop_cost(h)
}

/// `cost` holds the hop cost from every node of `support` to every other, row
/// by row.
pub open spec fn is_cost_table(
    lists: Seq<Seq<usize>>,
    support: Seq<usize>,
    cost: Seq<usize>,
) -> bool {
    &&& cost.len() == support.len() * support.len()
    &&& forall|a: int, b: int|
        0 <= a < support.len() && 0 <= b < support.len() ==> is_hop_cost(
            lists,
            support[a] as int,
            support[b] as int,
            #[trigger] cost[crate::index::cell(a, b, support.len() as int)],
        )
}

/// `mass` is what the measure in row `x` gives to each node of `support`.
pub open spec fn is_mass(
    measures: Matrix,
    x: int,
    support: Seq<usize>,
    mass: Seq<Double>,
) -> bool {
    &&& mass.len() == support.len()
    &&& forall|i: int|
        0 <= i < support.len() ==> #[trigger] mass[i] == measures.at(x, support[i] as int)
}

/// `problem` is the transport problem of its edge in the graph `adj` under the
/// walk measures in the rows of `measures`, to be solved as `config` says.
pub open spec fn is_transport_problem(
    adj: Matrix,
    config: CurvatureConfig,
    measures: Matrix,
    problem: TransportProblem,
) -> bool {
    &&& problem.support@ == union_support(measures, problem.u as int, problem.v as int)
    &&& is_mass(measures, problem.u as int, problem.support@, problem.source@)
    &&& is_mass(measures, problem.v as int, problem.support@, problem.target@)
    &&& is_cost_table(adj.neighbor_lists(), problem.support@, problem.cost@)
    &&& problem.reg == config.reg
    &&& problem.max_iter == config.max_iter
}

/// The union support of the measures in rows `u` and `v`.
fn support_of(measures: &Matrix, u: usize, v: usize) -> (support: Vec<usize>)
    requires
        measures.wf(),
        u < measures.rows,
        v < measures.rows,
    ensures
        support@ == union_support(*measures, u as int, v as int),
{
    let ghost keep = |i: int|
        measures.at(u as int, i).positive() || measures.at(v as int, i).positive();
    let mut support: Vec<usize> = Vec::new();
    let mut i: usize = 0;
    while i < measures.cols
        invariant
            measures.wf(),
            u < measures.rows,
            v < measures.rows,
            i <= measures.cols,
            keep == (|i: int|
                measures.at(u as int, i).positive() || measures.at(v as int, i).positive()),
            support@ == crate::select::selected(i as nat, keep),
        decreases measures.cols - i,
    {
        if measures.get(u, i).gt_zero() || measures.get(v, i).gt_zero() {
            support.push(i);
        }
        i = i + 1;
    }
    support
}

/// The mass that the measure in row `x` gives to each node of `support`.
pub fn masses(measures: &Matrix, x: usize, support: &Vec<usize>) -> (mass: Vec<Double>)
    requires
        measures.wf(),
        x < measures.rows,
        forall|i: int| 0 <= i < support@.len() ==> (#[trigger] support@[i]) < measures.cols,
    ensures
        is_mass(*measures, x as int, support@, mass@),
{
    let mut mass: Vec<Double> = Vec::new();
    while mass.len() < support.len()
        invariant
            measures.wf(),
            x < measures.rows,
            forall|i: int| 0 <= i < support@.len() ==> (#[trigger] support@[i]) < measures.cols,
            mass@.len() <= support@.len(),
            forall|i: int|
                0 <= i < mass@.len() ==> #[trigger] mass@[i] == measures.at(
                    x as int,
                    support@[i] as int,
                ),
        decreases support@.len() - mass@.len(),
    {
        let i: usize = mass.len();
        mass.push(measures.get(x, support[i]));
    }
    mass
}

/// The hop costs between the nodes of `support`, read off a hop table.
fn hop_costs(table: &Vec<Vec<Option<usize>>>, support: &Vec<usize>) -> (cost: Vec<usize>)
    requires
        forall|a: int| 0 <= a < support@.len() ==> (#[trigger] support@[a]) < table@.len(),
        forall|s: int| 0 <= s < table@.len() ==> (#[trigger] table@[s])@.len() == table@.len(),
    ensures
        cost@.len() == support@.len() * support@.len(),
        forall|a: int, b: int|
            0 <= a < support@.len() && 0 <= b < support@.len()
                ==> #[trigger] cost@[crate::index::cell(a, b, support@.len() as int)] == hop_cost(
                table@[support@[a] as int]@[support@[b] as int],
            ),
{
    let m: usize = support.len();
    let mut cost: Vec<usize> = Vec::new();
    let mut a: usize = 0;
    while a < m
        invariant
            m == support@.len(),
            a <= m,
            forall|a: int| 0 <= a < support@.len() ==> (#[trigger] support@[a]) < table@.len(),
            forall|s: int| 0 <= s < table@.len() ==> (#[trigger] table@[s])@.len() == table@.len(),
            cost@.len() == crate::index::cell(a as int, 0, m as int),
            forall|x: int, y: int|
                0 <= x < a && 0 <= y < m
                    ==> #[trigger] cost@[crate::index::cell(x, y, m as int)] == hop_cost(
                    table@[support@[x] as int]@[support@[y] as int],
                ),
        decreases m - a,
    {
        let row: &Vec<Option<usize>> = &table[support[a]];
        let mut b: usize = 0;
        while b < m
            invariant
                m == support@.len(),
                a < m,
                b <= m,
                forall|a: int| 0 <= a < support@.len() ==> (#[trigger] support@[a]) < table@.len(),
                row@ == table@[support@[a as int] as int]@,
                row@.len() == table@.len(),
                cost@.len() == crate::index::cell(a as int, b as int, m as int),
                forall|x: int, y: int|
                    0 <= y < m && ((0 <= x < a) || (x == a && y < b))
                        ==> #[trigger] cost@[crate::index::cell(x, y, m as int)] == hop_cost(
                        table@[support@[x] as int]@[support@[y] as int],
                    ),
            decreases m - b,
        {
            let ghost before = cost@;
            let hops: usize = match row[support[b]] {
                Some(d) => d,
                None => usize::MAX,
            };
            cost.push(hops);
            proof {
                assert forall|x: int, y: int|
                    0 <= y < m && ((0 <= x < a) || (x == a && y < b + 1)) implies #[trigger] cost@[crate::index::cell(
                    x,
                    y,
                    m as int,
                )] == hop_cost(table@[support@[x] as int]@[support@[y] as int]) by {
                    crate::index::lemma_cell_order(x, y, a as int, b as int, m as int);
                    crate::index::lemma_cell_bound(x, y, m as int, m as int);
                    if !(x == a && y == b) {
                        assert(cost@[crate::index::cell(x, y, m as int)]
                            == before[crate::index::cell(x, y, m as int)]);
                    }
                }
            }
            b = b + 1;
        }
        proof {
            assert((a + 1) * m == a * m + m) by (nonlinear_arith);
        }
        a = a + 1;
    }
    cost
}

/// The transport problem of the edge between `u` and `v`.
fn transport_problem(
    config: &CurvatureConfig,
    measures: &Matrix,
    table: &Vec<Vec<Option<usize>>>,
    u: usize,
    v: usize,
) -> (problem: TransportProblem)
    requires
        measures.wf(),
        measures.rows == table@.len(),
        measures.cols == table@.len(),
        u < measures.rows,
        v < measures.rows,
        forall|s: int| 0 <= s < table@.len() ==> (#[trigger] table@[s])@.len() == table@.len(),
    ensures
        problem.u == u,
        problem.v == v,
        problem.support@ == union_support(*measures, u as int, v as int),
        is_mass(*measures, u as int, problem.support@, problem.source@),
        is_mass(*measures, v as int, problem.support@, problem.target@),
        problem.reg == config.reg,
        problem.max_iter == config.max_iter,
        problem.cost@.len() == problem.support@.len() * problem.support@.len(),
        forall|a: int| 0 <= a < problem.support@.len() ==> (#[trigger] problem.support@[a]) < table@.len(),
        forall|a: int, b: int|
            0 <= a < problem.support@.len() && 0 <= b < problem.support@.len()
                ==> #[trigger] problem.cost@[crate::index::cell(
                a,
                b,
                problem.support@.len() as int,
            )] == hop_cost(table@[problem.support@[a] as int]@[problem.support@[b] as int]),
{
    let support: Vec<usize> = support_of(measures, u, v);
    proof {
        crate::select::lemma_selected(
            measures.cols as nat,
            |i: int| measures.at(u as int, i).positive() || measures.at(v as int, i).positive(),
        );
    }
    let cost: Vec<usize> = hop_costs(table, &support);
    let source: Vec<Double> = masses(measures, u, &support);
    let target: Vec<Double> = masses(measures, v, &support);
    TransportProblem {
        u,
        v,
        support,
        source,
        target,
        cost,
        reg: config.reg,
        max_iter: config.max_iter,
    }
}

/// The curvature `c` is what `solve` made of the transport problem of its
/// edge.
pub open spec fn is_solved<S: Fn(&TransportProblem) -> Single>(
    adj: Matrix,
    config: CurvatureConfig,
    measures: Matrix,
    solve: S,
    c: EdgeCurvature,
) -> bool {
    exists|problem: TransportProblem|
        #[trigger] is_transport_problem(adj, config, measures, problem) && problem.u == c.u && problem.v
            == c.v && call_ensures(solve, (&problem,), c.kappa)
}

/// The pair `(a, b)` comes before the pair `(c, d)` in row-major order.
pub open spec fn pair_before(a: int, b: int, c: int, d: int) -> bool {
    a < c || (a == c && b < d)
}

/// `out` has one entry for each edge `u < v` of `adj`, in row-major order.
pub open spec fn lists_each_edge(adj: Matrix, out: Seq<EdgeCurvature>) -> bool {
    &&& forall|k: int|
        0 <= k < out.len() ==> (#[trigger] out[k]).u < out[k].v < adj.rows && adj.edge(
            out[k].u as int,
            out[k].v as int,
        )
    &&& forall|k: int, l: int|
        0 <= k < l < out.len() ==> pair_before(
            (#[trigger] out[k]).u as int,
            out[k].v as int,
            (#[trigger] out[l]).u as int,
            out[l].v as int,
        )
    &&& forall|u: int, v: int|
        0 <= u < v < adj.rows && #[trigger] adj.edge(u, v) ==> exists|k: int|
            0 <= k < out.len() && (#[trigger] out[k]).u == u && out[k].v == v
}

/// Ollivier-Ricci curvature of every undirected edge of `adj`.
///
/// `adj` is a symmetric non-negative adjacency matrix; a cell above zero is an
/// edge. Its weights shape the walk measures but not the ground metric, which
/// is unweighted hop distance. Returns one entry per edge `u < v`, row by row.
///
/// What rests on floating-point arithmetic comes from the caller. `agrees[p]`
/// tells whether the weight at position `p` equals its mirror image within
/// tolerance. Row `x` of `measures` is the lazy walk measure of `x`. `solve`
/// turns the transport problem of an edge, which holds the masses, the costs
/// and the settings of `config`, into its curvature.
pub fn ollivier_ricci_curvatures<S: Fn(&TransportProblem) -> Single>(
    adj: &Matrix,
    config: &CurvatureConfig,
    agrees: &Vec<bool>,
    measures: &Matrix,
    solve: S,
) -> (r: Result<Vec<EdgeCurvature>, CurvatureError>)
    requires
        adj.wf(),
        measures.wf(),
        adj.rows == adj.cols ==> agrees@.len() == adj.cells@.len(),
        input_error(*adj, config.alpha, agrees@) is None ==> measures.rows == adj.rows
            && measures.cols == adj.rows,
        forall|problem: TransportProblem|
            #[trigger] is_transport_problem(*adj, *config, *measures, problem) ==> call_requires(
                solve,
                (&problem,),
            ),
    ensures
        r is Err <==> input_error(*adj, config.alpha, agrees@) is Some,
        r matches Err(e) ==> input_error(*adj, config.alpha, agrees@) == Some(e),
        r matches Ok(out) ==> lists_each_edge(*adj, out@) && forall|k: int|
            0 <= k < out@.len() ==> is_solved(*adj, *config, *measures, solve, #[trigger] out@[k]),
{
    match check_input(adj, &config.alpha, agrees) {
        Err(e) => {
            return Err(e);
        },
        Ok(()) => {},
    }
    let n: usize = adj.rows;
    let lists: NeighborLists = crate::hops::neighbor_lists(adj);
    let table: Vec<Vec<Option<usize>>> = crate::hops::hop_table(&lists);
    let mut out: Vec<EdgeCurvature> = Vec::new();
    let mut u: usize = 0;
    while u < n
        invariant
            adj.wf(),
            measures.wf(),
            n == adj.rows,
            n == adj.cols,
            n == measures.rows,
            n == measures.cols,
            u <= n,
            lists@ == adj.neighbor_lists(),
            table@.len() == n,
            forall|s: int| 0 <= s < n ==> (#[trigger] table@[s])@.len() == n,
            forall|s: int, t: int|
                0 <= s < n && 0 <= t < n ==> crate::hops::is_hop_distance(
                    lists@,
                    s,
                    t,
                    #[trigger] table@[s]@[t],
                ),
            forall|problem: TransportProblem|
                #[trigger] is_transport_problem(*adj, *config, *measures, problem) ==> call_requires(
                    solve,
                    (&problem,),
                ),
            forall|k: int|
                0 <= k < out@.len() ==> (#[trigger] out@[k]).u < u && out@[k].u < out@[k].v < n
                    && adj.edge(out@[k].u as int, out@[k].v as int),
            forall|k: int, l: int|
                0 <= k < l < out@.len() ==> pair_before(
                    (#[trigger] out@[k]).u as int,
                    out@[k].v as int,
                    (#[trigger] out@[l]).u as int,
                    out@[l].v as int,
                ),
            forall|x: int, y: int|
                0 <= x < u && x < y < n && #[trigger] adj.edge(x, y) ==> exists|k: int|
                    0 <= k < out@.len() && (#[trigger] out@[k]).u == x && out@[k].v == y,
            forall|k: int|
                0 <= k < out@.len() ==> is_solved(*adj, *config, *measures, solve, #[trigger] out@[k]),
        decreases n - u,
    {
        let mut v: usize = u + 1;
        while v < n
            invariant
                adj.wf(),
                measures.wf(),
                n == adj.rows,
                n == adj.cols,
                n == measures.rows,
                n == measures.cols,
                u < v <= n,
                lists@ == adj.neighbor_lists(),
                table@.len() == n,
                forall|s: int| 0 <= s < n ==> (#[trigger] table@[s])@.len() == n,
                forall|s: int, t: int|
                    0 <= s < n && 0 <= t < n ==> crate::hops::is_hop_distance(
                        lists@,
                        s,
                        t,
                        #[trigger] table@[s]@[t],
                    ),
                forall|problem: TransportProblem|
                    #[trigger] is_transport_problem(*adj, *config, *measures, problem) ==> call_requires(
                        solve,
                        (&problem,),
                    ),
                forall|k: int|
                    0 <= k < out@.len() ==> pair_before(
                        (#[trigger] out@[k]).u as int,
                        out@[k].v as int,
                        u as int,
                        v as int,
                    ) && out@[k].u < out@[k].v < n && adj.edge(out@[k].u as int, out@[k].v as int),
                forall|k: int, l: int|
                    0 <= k < l < out@.len() ==> pair_before(
                        (#[trigger] out@[k]).u as int,
                        out@[k].v as int,
                        (#[trigger] out@[l]).u as int,
                        out@[l].v as int,
                    ),
                forall|x: int, y: int|
                    0 <= x < y < n && pair_before(x, y, u as int, v as int) && #[trigger] adj.edge(
                        x,
                        y,
                    ) ==> exists|k: int|
                        0 <= k < out@.len() && (#[trigger] out@[k]).u == x && out@[k].v == y,
                forall|k: int|
                    0 <= k < out@.len() ==> is_solved(*adj, *config, *measures, solve, #[trigger] out@[k]),
            decreases n - v,
        {
            let ghost before = out@;
            if adj.get(u, v).gt_zero() {
                let problem: TransportProblem = transport_problem(config, measures, &table, u, v);
                proof {
                    let m = problem.support@.len() as int;
                    assert forall|a: int, b: int| 0 <= a < m && 0 <= b < m implies is_hop_cost(
                        adj.neighbor_lists(),
                        problem.support@[a] as int,
                        problem.support@[b] as int,
                        #[trigger] problem.cost@[crate::index::cell(a, b, m)],
                    ) by {
                        let h = table@[problem.support@[a] as int]@[problem.support@[b] as int];
                        assert(crate::hops::is_hop_distance(
                            lists@,
                            problem.support@[a] as int,
                            problem.support@[b] as int,
                            h,
                        ));
                    }
                    assert(is_transport_problem(*adj, *config, *measures, problem));
                }
                let kappa: Single = solve(&problem);
                out.push(EdgeCurvature { u, v, kappa });
                proof {
                    assert(is_solved(*adj, *config, *measures, solve, out@[out@.len() - 1]));
                    assert forall|x: int, y: int|
                        0 <= x < y < n && pair_before(x, y, u as int, v + 1)
                            && #[trigger] adj.edge(x, y) implies exists|k: int|
                        0 <= k < out@.len() && (#[trigger] out@[k]).u == x && out@[k].v == y by {
                        if x == u && y == v {
                            assert(out@[out@.len() - 1].u == x);
                        } else {
                            let k = choose|k: int|
                                0 <= k < before.len() && (#[trigger] before[k]).u == x
                                    && before[k].v == y;
                            assert(out@[k] == before[k]);
                        }
                    }
                }
            }
            v = v + 1;
        }
        u = u + 1;
    }
    Ok(out)
}

/// Hop distance between the endpoints of every listed edge is exactly one.
pub proof fn listed_edges_are_one_hop_apart(
    adj: Matrix,
    out: Seq<EdgeCurvature>,
    k: int,
    h: Option<usize>,
)
    requires
        adj.rows == adj.cols,
        lists_each_edge(adj, out),
        0 <= k < out.len(),
        crate::hops::is_hop_distance(
            adj.neighbor_lists(),
            out[k].u as int,
            out[k].v as int,
            h,
        ),
    ensures
        h == Some(1usize),
{
    let u = out[k].u as int;
    let v = out[k].v as int;
    crate::matrix::lemma_neighbor_lists(adj, u);
    assert(adj.neighbor_lists()[u].contains(v as usize));
    crate::hops::edge_endpoints_are_one_hop_apart(adj.neighbor_lists(), u, v, h);
}

/// The measure in row `x` gives mass only to `x` and to its neighbors.
pub open spec fn stays_near(adj: Matrix, measures: Matrix, x: int) -> bool {
    forall|i: int|
        0 <= i < measures.cols && (#[trigger] measures.at(x, i)).positive() ==> i == x || adj.edge(
            x,
            i,
        )
}

/// At most one hop leads from `x` to a node that its measure gives mass to.
proof fn lemma_support_is_near(adj: Matrix, measures: Matrix, x: int, i: int) -> (steps: nat)
    requires
        adj.rows == adj.cols,
        measures.cols == adj.cols,
        0 <= x < adj.rows,
        0 <= i < adj.rows,
        stays_near(adj, measures, x),
        measures.at(x, i).positive(),
    ensures
        steps <= 1,
        crate::hops::reaches(adj.neighbor_lists(), x, i, steps),
{
    let lists = adj.neighbor_lists();
    crate::matrix::lemma_neighbor_lists(adj, x);
    assert(crate::hops::reaches(lists, x, x, 0));
    if i == x {
        0
    } else {
        assert(lists[x].contains(i as usize));
        assert(crate::hops::reaches(lists, x, i, 1)) by {
            assert(crate::hops::reaches(lists, x, x, 0) && lists[x].contains(i as usize));
        }
        1
    }
}

/// The union support is connected through the edge itself: where the measures
/// of both endpoints stay near them, no cost in the transport problem exceeds
/// three hops, and none is missing.
pub proof fn transport_costs_are_at_most_three(
    adj: Matrix,
    config: CurvatureConfig,
    measures: Matrix,
    problem: TransportProblem,
    a: int,
    b: int,
)
    requires
        adj.rows == adj.cols,
        measures.cols == adj.cols,
        crate::hops::undirected(adj.neighbor_lists()),
        problem.u < adj.rows,
        problem.v < adj.rows,
        adj.edge(problem.u as int, problem.v as int),
        stays_near(adj, measures, problem.u as int),
        stays_near(adj, measures, problem.v as int),
        is_transport_problem(adj, config, measures, problem),
        0 <= a < problem.support@.len(),
        0 <= b < problem.support@.len(),
    ensures
        problem.cost@[crate::index::cell(a, b, problem.support@.len() as int)] <= 3,
{
    let lists = adj.neighbor_lists();
    let u = problem.u as int;
    let v = problem.v as int;
    let s = problem.support@[a] as int;
    let t = problem.support@[b] as int;
    crate::select::lemma_selected(
        measures.cols as nat,
        |i: int| measures.at(u, i).positive() || measures.at(v, i).positive(),
    );
    let x = if measures.at(u, s).positive() {
        u
    } else {
        v
    };
    let y = if measures.at(u, t).positive() {
        u
    } else {
        v
    };
    let out = lemma_support_is_near(adj, measures, x, s);
    let back = lemma_support_is_near(adj, measures, y, t);
    crate::hops::walks_reverse(lists, x, s, out);
    crate::matrix::lemma_neighbor_lists(adj, u);
    assert(crate::hops::reaches(lists, u, u, 0));
    assert(crate::hops::reaches(lists, v, v, 0));
    assert(lists[u].contains(v as usize));
    assert(crate::hops::reaches(lists, u, v, 1)) by {
        assert(crate::hops::reaches(lists, u, u, 0) && lists[u].contains(v as usize));
    }
    crate::hops::walks_reverse(lists, u, v, 1);
    let across: nat = if x == y {
        0
    } else {
        1
    };
    assert(crate::hops::reaches(lists, x, y, across));
    crate::hops::walks_concatenate(lists, s, x, y, out, across);
    crate::hops::walks_concatenate(lists, s, y, t, out + across, back);
    assert(is_hop_cost(
        lists,
        s,
        t,
        problem.cost@[crate::index::cell(a, b, problem.support@.len() as int)],
    ));
    let h = choose|h: Option<usize>|
        #[trigger] crate::hops::is_hop_distance(lists, s, t, h) && problem.cost@[crate::index::cell(
            a,
            b,
            problem.support@.len() as int,
        )] == hop_cost(h);
    assert(crate::hops::reaches(lists, s, t, out + across + back));
}

/// Weights do not shape the ground metric: matrices with the same edges pose
/// the same transport problem under the same measures.
pub proof fn weights_do_not_shape_the_metric(
    a: Matrix,
    b: Matrix,
    config: CurvatureConfig,
    measures: Matrix,
    problem: TransportProblem,
)
    requires
        a.same_edges(b),
        is_transport_problem(a, config, measures, problem),
    ensures
        is_transport_problem(b, config, measures, problem),
{
    crate::matrix::lemma_same_edges(a, b);
}

/// The entries of `a` and `b` name the same edges in the same order.
pub open spec fn same_pairs(a: Seq<EdgeCurvature>, b: Seq<EdgeCurvature>) -> bool {
    &&& a.len() == b.len()
    &&& forall|k: int|
        0 <= k < a.len() ==> (#[trigger] a[k]).u == b[k].u && a[k].v == b[k].v
}

/// The first `n` entries of one list of edges are those of another.
proof fn lemma_same_prefix(
    a: Matrix,
    b: Matrix,
    x: Seq<EdgeCurvature>,
    y: Seq<EdgeCurvature>,
    n: nat,
)
    requires
        a.rows == a.cols,
        a.same_edges(b),
        lists_each_edge(a, x),
        lists_each_edge(b, y),
        n <= x.len(),
    ensures
        n <= y.len(),
        forall|k: int| 0 <= k < n ==> (#[trigger] x[k]).u == y[k].u && x[k].v == y[k].v,
    decreases n,
{
    if n > 0 {
        let last = n - 1;
        lemma_same_prefix(a, b, x, y, (n - 1) as nat);
        let (u, v) = (x[last].u as int, x[last].v as int);
        assert(a.edge(u, v) == b.edge(u, v));
        let k = choose|k: int| 0 <= k < y.len() && (#[trigger] y[k]).u == u && y[k].v == v;
        if k < last {
            assert(x[k].u == y[k].u && x[k].v == y[k].v);
        }
        if k > last {
            let (s, t) = (y[last].u as int, y[last].v as int);
            assert(a.edge(s, t) == b.edge(s, t));
            let l = choose|l: int| 0 <= l < x.len() && (#[trigger] x[l]).u == s && x[l].v == t;
            assert(pair_before(
                y[last].u as int,
                y[last].v as int,
                y[k].u as int,
                y[k].v as int,
            ));
            if l < last {
                assert(x[l].u == y[l].u && x[l].v == y[l].v);
            }
        }
    }
}

/// Only which entries are edges decides what is listed: the results of two
/// accepted matrices with the same edges have one length and name the same
/// `(u, v)` at each index.
pub proof fn same_edges_same_list(
    a: Matrix,
    b: Matrix,
    x: Seq<EdgeCurvature>,
    y: Seq<EdgeCurvature>,
)
    requires
        a.rows == a.cols,
        a.same_edges(b),
        lists_each_edge(a, x),
        lists_each_edge(b, y),
    ensures
        same_pairs(x, y),
{
    lemma_same_prefix(a, b, x, y, x.len());
    lemma_same_prefix(b, a, y, x, y.len());
}

/// The cells of `b` are those of `a` times a positive factor.
pub open spec fn is_scaled(a: Matrix, b: Matrix, factor: int) -> bool {
    &&& a.rows == b.rows
    &&& a.cols == b.cols
    &&& forall|i: int, j: int|
        0 <= i < a.rows && 0 <= j < a.cols ==> !a.at(i, j).nan() && !b.at(i, j).nan() && (
        #[trigger] b.at(i, j)).number() == factor * a.at(i, j).number()
}

/// Scaling all weights keeps the edges, so the two results name the same
/// `(u, v)` at each index.
pub proof fn scaling_keeps_the_list(
    a: Matrix,
    b: Matrix,
    factor: int,
    x: Seq<EdgeCurvature>,
    y: Seq<EdgeCurvature>,
)
    requires
        factor > 0,
        a.rows == a.cols,
        is_scaled(a, b, factor),
        lists_each_edge(a, x),
        lists_each_edge(b, y),
    ensures
        a.same_edges(b),
        same_pairs(x, y),
{
    assert forall|i: int, j: int|
        0 <= i < a.rows && 0 <= j < a.cols implies #[trigger] a.edge(i, j) == b.edge(i, j) by {
        let (n, m) = (a.at(i, j).number(), b.at(i, j).number());
        assert(m == factor * n);
        assert(n > 0 <==> factor * n > 0) by (nonlinear_arith)
            requires
                factor > 0,
        ;
    }
    same_edges_same_list(a, b, x, y);
}

/// The two problems are the same, piece by piece.
pub open spec fn same_problem(p: TransportProblem, q: TransportProblem) -> bool {
    &&& p.u == q.u
    &&& p.v == q.v
    &&& p.support@ == q.support@
    &&& p.source@ == q.source@
    &&& p.target@ == q.target@
    &&& p.cost@ == q.cost@
    &&& p.reg == q.reg
    &&& p.max_iter == q.max_iter
}

/// `solve` gives one answer to one problem.
pub open spec fn answers_once<S: Fn(&TransportProblem) -> Single>(solve: S) -> bool {
    forall|p: TransportProblem, q: TransportProblem, x: Single, y: Single|
        same_problem(p, q) && #[trigger] call_ensures(solve, (&p,), x)
            && #[trigger] call_ensures(solve, (&q,), y) ==> x == y
}

/// An edge poses one transport problem.
pub proof fn transport_problem_is_unique(
    adj: Matrix,
    config: CurvatureConfig,
    measures: Matrix,
    p: TransportProblem,
    q: TransportProblem,
)
    requires
        is_transport_problem(adj, config, measures, p),
        is_transport_problem(adj, config, measures, q),
        p.u == q.u,
        p.v == q.v,
    ensures
        same_problem(p, q),
{
    let lists = adj.neighbor_lists();
    let m = p.support@.len() as int;
    assert(p.source@ =~= q.source@);
    assert(p.target@ =~= q.target@);
    assert forall|c: int| 0 <= c < p.cost@.len() implies p.cost@[c] == q.cost@[c] by {
        crate::index::lemma_cell_split(c, m, m);
        let (i, j) = (c / m, c % m);
        let (s, t) = (p.support@[i] as int, p.support@[j] as int);
        let at = crate::index::cell(i, j, m);
        assert(is_hop_cost(lists, s, t, p.cost@[at]));
        assert(is_hop_cost(lists, s, t, q.cost@[at]));
        let h = choose|h: Option<usize>| #[trigger]
            crate::hops::is_hop_distance(lists, s, t, h) && p.cost@[at] == hop_cost(h);
        let k = choose|h: Option<usize>| #[trigger]
            crate::hops::is_hop_distance(lists, s, t, h) && q.cost@[at] == hop_cost(h);
        crate::hops::hop_distance_is_unique(lists, s, t, h, k);
    }
    assert(p.cost@ =~= q.cost@);
}

/// Weights enter through the walk measures alone: matrices with the same edges
/// and the same measures have the same curvatures, where the solver gives one
/// answer to one problem.
pub proof fn same_measures_same_curvatures<S: Fn(&TransportProblem) -> Single>(
    a: Matrix,
    b: Matrix,
    config: CurvatureConfig,
    measures: Matrix,
    solve: S,
    x: Seq<EdgeCurvature>,
    y: Seq<EdgeCurvature>,
)
    requires
        a.rows == a.cols,
        a.same_edges(b),
        answers_once(solve),
        lists_each_edge(a, x),
        lists_each_edge(b, y),
        forall|k: int|
            0 <= k < x.len() ==> is_solved(a, config, measures, solve, #[trigger] x[k]),
        forall|k: int|
            0 <= k < y.len() ==> is_solved(b, config, measures, solve, #[trigger] y[k]),
    ensures
        x == y,
{
    same_edges_same_list(a, b, x, y);
    assert forall|k: int| 0 <= k < x.len() implies x[k] == y[k] by {
        assert(is_solved(a, config, measures, solve, x[k]));
        assert(is_solved(b, config, measures, solve, y[k]));
        let p = choose|p: TransportProblem| #[trigger]
            is_transport_problem(a, config, measures, p) && p.u == x[k].u && p.v == x[k].v
                && call_ensures(solve, (&p,), x[k].kappa);
        let q = choose|q: TransportProblem| #[trigger]
            is_transport_problem(b, config, measures, q) && q.u == y[k].u && q.v == y[k].v
                && call_ensures(solve, (&q,), y[k].kappa);
        weights_do_not_shape_the_metric(a, b, config, measures, p);
        transport_problem_is_unique(b, config, measures, p, q);
    }
    assert(x =~= y);
}

/// The cost table is the hop metric of the graph, number for number: the cost
/// between two nodes of the support is the number of edges of a path that no
/// path undercuts, and the largest number where no path leads.
pub proof fn costs_are_edges_of_shortest_paths(
    adj: Matrix,
    config: CurvatureConfig,
    measures: Matrix,
    problem: TransportProblem,
    a: int,
    b: int,
)
    requires
        is_transport_problem(adj, config, measures, problem),
        0 <= a < problem.support@.len(),
        0 <= b < problem.support@.len(),
    ensures
        problem.cost@.len() == problem.support@.len() * problem.support@.len(),
        ({
            let lists = adj.neighbor_lists();
            let c = problem.cost@[a * problem.support@.len() + b];
            let (s, t) = (problem.support@[a], problem.support@[b]);
            &&& forall|path: Seq<usize>| #[trigger]
                crate::hops::is_path(lists, path) && path[0] == s && path.last() == t ==> c + 1
                    <= path.len()
            &&& (exists|path: Seq<usize>| #[trigger]
                crate::hops::is_path(lists, path) && path[0] == s && path.last() == t) ==> exists|
                path: Seq<usize>,
            | #[trigger]
                crate::hops::is_path(lists, path) && path[0] == s && path.last() == t && path.len()
                    == c + 1
            &&& (forall|path: Seq<usize>| #[trigger]
                crate::hops::is_path(lists, path) ==> path[0] != s || path.last() != t) ==> c
                == usize::MAX
        }),
{
    let lists = adj.neighbor_lists();
    let m = problem.support@.len() as int;
    let at = crate::index::cell(a, b, m);
    let (s, t) = (problem.support@[a] as int, problem.support@[b] as int);
    assert(is_hop_cost(lists, s, t, problem.cost@[at]));
    let h = choose|h: Option<usize>| #[trigger]
        crate::hops::is_hop_distance(lists, s, t, h) && problem.cost@[at] == hop_cost(h);
    crate::hops::hop_distance_is_the_shortest_path(lists, s, t, h);
}

/// What the curvature of an edge was computed from. The problem handed to the
/// solver has the edge's endpoints, the settings of the configuration, as
/// support the nodes with a cell above zero in the row of either endpoint, each
/// once and in ascending order, and as masses the cells of these rows.
pub proof fn curvature_is_solved_from_its_rows<S: Fn(&TransportProblem) -> Single>(
    adj: Matrix,
    config: CurvatureConfig,
    measures: Matrix,
    solve: S,
    c: EdgeCurvature,
) -> (problem: TransportProblem)
    requires
        is_solved(adj, config, measures, solve, c),
    ensures
        call_ensures(solve, (&problem,), c.kappa),
        is_transport_problem(adj, config, measures, problem),
        problem.u == c.u,
        problem.v == c.v,
        problem.reg.bits == config.reg.bits,
        problem.max_iter == config.max_iter,
        forall|i: usize| #[trigger]
            problem.support@.contains(i) <==> i < measures.cols && (0 < measures.cells@[c.u
                * measures.cols + i].bits <= 0x7ff0_0000_0000_0000 || 0 < measures.cells@[c.v
                * measures.cols + i].bits <= 0x7ff0_0000_0000_0000),
        forall|k: int, l: int|
            0 <= k < l < problem.support@.len() ==> problem.support@[k] < problem.support@[l],
        problem.source@.len() == problem.support@.len(),
        problem.target@.len() == problem.support@.len(),
        forall|k: int|
            0 <= k < problem.support@.len() ==> #[trigger] problem.source@[k] == measures.cells@[c.u
                * measures.cols + problem.support@[k]],
        forall|k: int|
            0 <= k < problem.support@.len() ==> #[trigger] problem.target@[k] == measures.cells@[c.v
                * measures.cols + problem.support@[k]],
{
    let problem = choose|p: TransportProblem| #[trigger]
        is_transport_problem(adj, config, measures, p) && p.u == c.u && p.v == c.v && call_ensures(
            solve,
            (&p,),
            c.kappa,
        );
    let (u, v) = (c.u as int, c.v as int);
    crate::select::lemma_selected(
        measures.cols as nat,
        |i: int| measures.at(u, i).positive() || measures.at(v, i).positive(),
    );
    assert forall|i: usize| #[trigger]
        problem.support@.contains(i) <==> i < measures.cols && (0 < measures.cells@[c.u
            * measures.cols + i].bits <= 0x7ff0_0000_0000_0000 || 0 < measures.cells@[c.v
            * measures.cols + i].bits <= 0x7ff0_0000_0000_0000) by {
        crate::ieee::double_by_bits(measures.at(u, i as int));
        crate::ieee::double_by_bits(measures.at(v, i as int));
    }
    problem
}

/// A pair `u < v` is listed if and only if its cell is above zero. It is listed
/// once: rows come in ascending order, and columns within a row.
pub proof fn listed_pairs_by_cells(adj: Matrix, out: Seq<EdgeCurvature>)
    requires
        adj.rows == adj.cols,
        lists_each_edge(adj, out),
    ensures
        forall|u: int, v: int|
            0 <= u < v < adj.rows ==> (0 < #[trigger] adj.cells@[u * adj.cols + v].bits
                <= 0x7ff0_0000_0000_0000 <==> exists|k: int|
                0 <= k < out.len() && (#[trigger] out[k]).u == u && out[k].v == v),
        forall|k: int| 0 <= k < out.len() ==> (#[trigger] out[k]).u < out[k].v < adj.rows,
        forall|k: int, l: int|
            0 <= k < l < out.len() ==> (#[trigger] out[k]).u < (#[trigger] out[l]).u || (out[k].u
                == out[l].u && out[k].v < out[l].v),
{
    assert forall|u: int, v: int| 0 <= u < v < adj.rows implies (0 < #[trigger] adj.cells@[u
        * adj.cols + v].bits <= 0x7ff0_0000_0000_0000 <==> exists|k: int|
        0 <= k < out.len() && (#[trigger] out[k]).u == u && out[k].v == v) by {
        lemma_pair_listed(adj, out, u, v);
    }
    assert forall|k: int, l: int| 0 <= k < l < out.len() implies (#[trigger] out[k]).u < (
    #[trigger] out[l]).u || (out[k].u == out[l].u && out[k].v < out[l].v) by {
        assert(pair_before(out[k].u as int, out[k].v as int, out[l].u as int, out[l].v as int));
    }
}

proof fn lemma_pair_listed(adj: Matrix, out: Seq<EdgeCurvature>, u: int, v: int)
    requires
        lists_each_edge(adj, out),
        0 <= u < v < adj.rows,
    ensures
        0 < adj.cells@[u * adj.cols + v].bits <= 0x7ff0_0000_0000_0000 <==> exists|k: int|
            0 <= k < out.len() && (#[trigger] out[k]).u == u && out[k].v == v,
{
    crate::matrix::edges_by_cells(adj, u, v);
    if exists|k: int| 0 <= k < out.len() && (#[trigger] out[k]).u == u && out[k].v == v {
        let k = choose|k: int| 0 <= k < out.len() && (#[trigger] out[k]).u == u && out[k].v == v;
        assert(adj.edge(out[k].u as int, out[k].v as int));
    }
}

/// Which inputs are accepted, on the bits: a square matrix, a laziness from zero
/// (of either sign) to one, and cells that are finite, not below zero, and agree
/// with their mirror images.
pub proof fn accepted_inputs_by_bits(adj: Matrix, alpha: Double, agrees: Seq<bool>)
    ensures
        input_error(adj, alpha, agrees) is None <==> {
            &&& adj.rows == adj.cols
            &&& alpha.bits <= 0x3ff0_0000_0000_0000 || alpha.bits == 0x8000_0000_0000_0000
            &&& forall|p: int|
                0 <= p < adj.cells@.len() ==> ((#[trigger] adj.cells@[p]).bits
                    < 0x7ff0_0000_0000_0000 || adj.cells@[p].bits == 0x8000_0000_0000_0000)
                    && agrees[p]
        },
{
    lemma_laziness_bits(alpha);
    lemma_first_error(adj, agrees, 0);
}

/// Which error a rejected input gets, on the bits: the shape counts before the
/// laziness, the laziness before the cells, and of the cells the first faulty
/// one, where a bad weight counts before a disagreement.
pub proof fn rejected_inputs_by_bits(adj: Matrix, alpha: Double, agrees: Seq<bool>)
    ensures
        input_error(adj, alpha, agrees) == Some(CurvatureError::NotSquare) <==> adj.rows
            != adj.cols,
        input_error(adj, alpha, agrees) == Some(CurvatureError::InvalidAlpha) <==> adj.rows
            == adj.cols && alpha.bits > 0x3ff0_0000_0000_0000 && alpha.bits
            != 0x8000_0000_0000_0000,
        input_error(adj, alpha, agrees) is Some && adj.rows == adj.cols && (alpha.bits
            <= 0x3ff0_0000_0000_0000 || alpha.bits == 0x8000_0000_0000_0000) ==> exists|p: int| {
            &&& 0 <= p < adj.cells@.len()
            &&& forall|q: int|
                0 <= q < p ==> ((#[trigger] adj.cells@[q]).bits < 0x7ff0_0000_0000_0000
                    || adj.cells@[q].bits == 0x8000_0000_0000_0000) && agrees[q]
            &&& if (#[trigger] adj.cells@[p]).bits < 0x7ff0_0000_0000_0000 || adj.cells@[p].bits
                == 0x8000_0000_0000_0000 {
                !agrees[p] && input_error(adj, alpha, agrees) == Some(CurvatureError::NotSymmetric)
            } else {
                input_error(adj, alpha, agrees) == Some(CurvatureError::InvalidWeight)
            }
        },
{
    lemma_laziness_bits(alpha);
    lemma_first_error(adj, agrees, 0);
}

proof fn lemma_laziness_bits(alpha: Double)
    ensures
        laziness_in_range(alpha) <==> alpha.bits <= 0x3ff0_0000_0000_0000 || alpha.bits
            == 0x8000_0000_0000_0000,
{
    crate::ieee::unit_interval_by_bits(alpha);
}

/// The first faulty cell decides.
proof fn lemma_first_error(adj: Matrix, agrees: Seq<bool>, from: nat)
    ensures
        first_cell_error(adj, agrees, from) is None <==> forall|p: int|
            from <= p < adj.cells@.len() ==> ((#[trigger] adj.cells@[p]).bits
                < 0x7ff0_0000_0000_0000 || adj.cells@[p].bits == 0x8000_0000_0000_0000)
                && agrees[p],
        first_cell_error(adj, agrees, from) is Some ==> exists|p: int| {
            &&& from <= p < adj.cells@.len()
            &&& forall|q: int|
                from <= q < p ==> ((#[trigger] adj.cells@[q]).bits < 0x7ff0_0000_0000_0000
                    || adj.cells@[q].bits == 0x8000_0000_0000_0000) && agrees[q]
            &&& if (#[trigger] adj.cells@[p]).bits < 0x7ff0_0000_0000_0000 || adj.cells@[p].bits
                == 0x8000_0000_0000_0000 {
                !agrees[p] && first_cell_error(adj, agrees, from) == Some(
                    CurvatureError::NotSymmetric,
                )
            } else {
                first_cell_error(adj, agrees, from) == Some(CurvatureError::InvalidWeight)
            }
        },
        first_cell_error(adj, agrees, from) != Some(CurvatureError::NotSquare),
        first_cell_error(adj, agrees, from) != Some(CurvatureError::InvalidAlpha),
    decreases adj.cells@.len() - from,
{
    if from < adj.cells@.len() {
        let w = adj.cells@[from as int];
        crate::ieee::double_by_bits(w);
        if cell_error(adj, agrees, from as int) is None {
            lemma_first_error(adj, agrees, from + 1);
            if first_cell_error(adj, agrees, from) is Some {
                let p = choose|p: int| {
                    &&& from + 1 <= p < adj.cells@.len()
                    &&& forall|q: int|
                        from + 1 <= q < p ==> ((#[trigger] adj.cells@[q]).bits
                            < 0x7ff0_0000_0000_0000 || adj.cells@[q].bits
                            == 0x8000_0000_0000_0000) && agrees[q]
                    &&& if (#[trigger] adj.cells@[p]).bits < 0x7ff0_0000_0000_0000
                        || adj.cells@[p].bits == 0x8000_0000_0000_0000 {
                        !agrees[p] && first_cell_error(adj, agrees, from + 1) == Some(
                            CurvatureError::NotSymmetric,
                        )
                    } else {
                        first_cell_error(adj, agrees, from + 1) == Some(
                            CurvatureError::InvalidWeight,
                        )
                    }
                };
                assert(adj.cells@[p].bits == adj.cells@[p].bits);
            }
        } else {
            assert(adj.cells@[from as int] == w);
        }
    }
}

/// Two entries are equal if they name one edge and their curvatures are one
/// number: the same pattern, no NaN, or zeros of either sign.
pub proof fn equal_curvatures_by_bits(a: EdgeCurvature, b: EdgeCurvature)
    ensures
        vstd::std_specs::cmp::PartialEqSpec::eq_spec(&a, &b) <==> a.u == b.u && a.v == b.v && !(
        0x7f80_0000 < a.kappa.bits < 0x8000_0000 || 0xff80_0000 < a.kappa.bits) && (a.kappa.bits
            == b.kappa.bits || (a.kappa.bits % 0x8000_0000 == 0 && b.kappa.bits % 0x8000_0000
            == 0)),
{
    crate::ieee::single_by_bits(a.kappa, b.kappa);
}

} // verus!
