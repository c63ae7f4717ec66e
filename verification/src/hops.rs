//! Hop distances: the unweighted shortest-path metric of a graph.
use vstd::prelude::*;

use crate::matrix::Matrix;

verus! {

/// Out-neighbors of each node, in the shape breadth-first search reads.
#[derive(Debug)]
pub struct NeighborLists(pub Vec<Vec<usize>>);

impl View for NeighborLists {
    type V = Seq<Seq<usize>>;

    open spec fn view(&self) -> Seq<Seq<usize>> {
        Seq::new(self.0@.len(), |i: int| self.0@[i]@)
    }
}

impl graphops::GraphRef for NeighborLists {
    fn node_count(&self) -> (n: usize)
        ensures
            n == self@.len(),
    {
        self.0.len()
    }

    fn neighbors_ref(&self, node: usize) -> (list: &[usize])
        ensures
            node < self@.len() ==> list@ == self@[node as int],
    {
        if node < self.0.len() {
            self.0[node].as_slice()
        } else {
            &[]
        }
    }
}

/// Neighbor lists of every node of `adj`.
pub fn neighbor_lists(adj: &Matrix) -> (lists: NeighborLists)
    requires
        adj.wf(),
    ensures
        lists@ == adj.neighbor_lists(),
{
    let mut lists: Vec<Vec<usize>> = Vec::new();
    while lists.len() < adj.rows
        invariant
            adj.wf(),
            lists@.len() <= adj.rows,
            forall|i: int| 0 <= i < lists@.len() ==> (#[trigger] lists@[i])@ == adj.row_neighbors(i),
        decreases adj.rows - lists@.len(),
    {
        let i: usize = lists.len();
        lists.push(adj.neighbors(i));
    }
    let result = NeighborLists(lists);
    assert(result@ =~= adj.neighbor_lists());
    result
}

/// Some walk of exactly `steps` edges leads from `source` to `target`.
pub open spec fn reaches(lists: Seq<Seq<usize>>, source: int, target: int, steps: nat) -> bool
    decreases steps,
{
    &&& 0 <= target < lists.len()
    &&& if steps == 0 {
        source == target
    } else {
        exists|mid: int|
            reaches(lists, source, mid, (steps - 1) as nat) && (#[trigger] lists[mid]).contains(
                target as usize,
            )
    }
}

/// `hops` is the number of edges of a shortest walk from `source` to
/// `target`, or `None` where no walk leads there.
pub open spec fn is_hop_distance(
    lists: Seq<Seq<usize>>,
    source: int,
    target: int,
    hops: Option<usize>,
) -> bool {
    match hops {
        Some(d) => reaches(lists, source, target, d as nat) && forall|k: nat|
            k < d ==> !#[trigger] reaches(lists, source, target, k),
        None => forall|k: nat| !#[trigger] reaches(lists, source, target, k),
    }
}

/// Breadth-first distances from `source` to every node.
///
/// Calls `graphops::bfs_distances`, of which the contract claims that its
/// vector holds for each node the length of a shortest walk from `source`
/// along the neighbor lists, and `None` for the nodes no walk reaches. Ids
/// beyond the node count are skipped there, as [`reaches`] skips them.
#[verifier::external_body]
fn bfs_distances(graph: &NeighborLists, source: usize) -> (dist: Vec<Option<usize>>)
    ensures
        dist@.len() == graph@.len(),
        forall|t: int|
            0 <= t < graph@.len() ==> is_hop_distance(
                graph@,
                source as int,
                t,
                #[trigger] dist@[t],
            ),
{
    graphops::bfs_distances(graph, source)
}

/// The hop distance between every ordered pair of nodes, one row per source.
pub fn hop_table(graph: &NeighborLists) -> (table: Vec<Vec<Option<usize>>>)
    ensures
        table@.len() == graph@.len(),
        forall|s: int|
            0 <= s < graph@.len() ==> (#[trigger] table@[s])@.len() == graph@.len(),
        forall|s: int, t: int|
            0 <= s < graph@.len() && 0 <= t < graph@.len() ==> is_hop_distance(
                graph@,
                s,
                t,
                #[trigger] table@[s]@[t],
            ),
{
    let n: usize = graph.0.len();
    let mut table: Vec<Vec<Option<usize>>> = Vec::new();
    while table.len() < n
        invariant
            n == graph@.len(),
            table@.len() <= n,
            forall|s: int| 0 <= s < table@.len() ==> (#[trigger] table@[s])@.len() == n,
            forall|s: int, t: int|
                0 <= s < table@.len() && 0 <= t < n ==> is_hop_distance(
                    graph@,
                    s,
                    t,
                    #[trigger] table@[s]@[t],
                ),
        decreases n - table@.len(),
    {
        let source: usize = table.len();
        let row: Vec<Option<usize>> = bfs_distances(graph, source);
        table.push(row);
    }
    table
}

/// Every edge runs both ways.
pub open spec fn undirected(lists: Seq<Seq<usize>>) -> bool {
    forall|i: int, j: int|
        0 <= i < lists.len() && 0 <= j < lists.len() && #[trigger] lists[i].contains(j as usize)
            ==> lists[j].contains(i as usize)
}

/// Walks join end to end.
pub proof fn walks_concatenate(
    lists: Seq<Seq<usize>>,
    a: int,
    b: int,
    c: int,
    first: nat,
    second: nat,
)
    requires
        reaches(lists, a, b, first),
        reaches(lists, b, c, second),
    ensures
        reaches(lists, a, c, first + second),
    decreases second,
{
    if second > 0 {
        let mid = choose|mid: int|
            reaches(lists, b, mid, (second - 1) as nat) && (#[trigger] lists[mid]).contains(
                c as usize,
            );
        walks_concatenate(lists, a, b, mid, first, (second - 1) as nat);
        assert((first + second - 1) as nat == first + (second - 1) as nat);
    }
}

/// In an undirected graph every walk can be walked back.
pub proof fn walks_reverse(lists: Seq<Seq<usize>>, a: int, b: int, steps: nat)
    requires
        undirected(lists),
        lists.len() <= usize::MAX,
        0 <= a < lists.len(),
        reaches(lists, a, b, steps),
    ensures
        reaches(lists, b, a, steps),
    decreases steps,
{
    if steps > 0 {
        let mid = choose|mid: int|
            reaches(lists, a, mid, (steps - 1) as nat) && (#[trigger] lists[mid]).contains(
                b as usize,
            );
        walks_reverse(lists, a, mid, (steps - 1) as nat);
        assert(reaches(lists, b, b, 0));
        assert(reaches(lists, b, mid, 1)) by {
            assert(reaches(lists, b, b, 0) && lists[b].contains(mid as usize));
        }
        walks_concatenate(lists, b, mid, a, 1, (steps - 1) as nat);
    }
}

/// The hop distance is a function of the graph and the two nodes.
pub proof fn hop_distance_is_unique(
    lists: Seq<Seq<usize>>,
    a: int,
    b: int,
    h: Option<usize>,
    k: Option<usize>,
)
    requires
        is_hop_distance(lists, a, b, h),
        is_hop_distance(lists, a, b, k),
    ensures
        h == k,
{
    if let Some(d) = h {
        assert(reaches(lists, a, b, d as nat));
    }
    if let Some(d) = k {
        assert(reaches(lists, a, b, d as nat));
    }
}

/// A node is at hop distance zero from itself, and from no other node.
pub proof fn hop_distance_zero(lists: Seq<Seq<usize>>, a: int, b: int, h: Option<usize>)
    requires
        0 <= a < lists.len(),
        0 <= b < lists.len(),
        is_hop_distance(lists, a, b, h),
    ensures
        h == Some(0usize) <==> a == b,
{
    if a == b {
        assert(reaches(lists, a, b, 0));
        if let Some(d) = h {
            assert(d == 0);
        }
    } else if h == Some(0usize) {
        assert(reaches(lists, a, b, 0));
    }
}

/// The endpoints of an edge are at hop distance exactly one.
pub proof fn edge_endpoints_are_one_hop_apart(
    lists: Seq<Seq<usize>>,
    a: int,
    b: int,
    h: Option<usize>,
)
    requires
        0 <= a < lists.len(),
        0 <= b < lists.len(),
        a != b,
        lists[a].contains(b as usize),
        is_hop_distance(lists, a, b, h),
    ensures
        h == Some(1usize),
{
    assert(reaches(lists, a, a, 0));
    assert(reaches(lists, a, b, 1)) by {
        assert(reaches(lists, a, a, 0) && lists[a].contains(b as usize));
    }
    assert(!reaches(lists, a, b, 0));
    hop_distance_is_unique(lists, a, b, h, Some(1usize));
}

/// In an undirected graph the hop distance is symmetric.
pub proof fn hop_distance_is_symmetric(
    lists: Seq<Seq<usize>>,
    a: int,
    b: int,
    there: Option<usize>,
    back: Option<usize>,
)
    requires
        undirected(lists),
        lists.len() <= usize::MAX,
        0 <= a < lists.len(),
        0 <= b < lists.len(),
        is_hop_distance(lists, a, b, there),
        is_hop_distance(lists, b, a, back),
    ensures
        there == back,
{
    assert forall|k: nat| reaches(lists, a, b, k) == #[trigger] reaches(lists, b, a, k) by {
        if reaches(lists, a, b, k) {
            walks_reverse(lists, a, b, k);
        }
        if reaches(lists, b, a, k) {
            walks_reverse(lists, b, a, k);
        }
    }
    if let Some(d) = back {
        assert(reaches(lists, b, a, d as nat));
        assert forall|k: nat| k < d implies !#[trigger] reaches(lists, a, b, k) by {
            assert(!reaches(lists, b, a, k));
        }
    } else {
        assert forall|k: nat| !#[trigger] reaches(lists, a, b, k) by {
            assert(!reaches(lists, b, a, k));
        }
    }
    assert(is_hop_distance(lists, a, b, back));
    hop_distance_is_unique(lists, a, b, there, back);
}

/// Going through a third node is never shorter.
pub proof fn hop_distance_triangle(
    lists: Seq<Seq<usize>>,
    a: int,
    b: int,
    c: int,
    ab: usize,
    bc: usize,
    ac: Option<usize>,
)
    requires
        is_hop_distance(lists, a, b, Some(ab)),
        is_hop_distance(lists, b, c, Some(bc)),
        is_hop_distance(lists, a, c, ac),
    ensures
        ac matches Some(d) && d <= ab + bc,
{
    walks_concatenate(lists, a, b, c, ab as nat, bc as nat);
    assert(reaches(lists, a, c, ab as nat + bc as nat));
}

/// `path` leads from node to node along the neighbor lists.
pub open spec fn is_path(lists: Seq<Seq<usize>>, path: Seq<usize>) -> bool {
    &&& path.len() >= 1
    &&& forall|k: int| 0 <= k < path.len() ==> (#[trigger] path[k]) < lists.len()
    &&& forall|k: int|
        0 <= k < path.len() - 1 ==> lists[#[trigger] path[k] as int].contains(path[k + 1])
}

/// A path of nodes is a walk of one edge less.
pub proof fn paths_are_walks(lists: Seq<Seq<usize>>, path: Seq<usize>)
    requires
        is_path(lists, path),
    ensures
        reaches(lists, path[0] as int, path.last() as int, (path.len() - 1) as nat),
    decreases path.len(),
{
    if path.len() > 1 {
        let shorter = path.drop_last();
        assert forall|k: int| 0 <= k < shorter.len() - 1 implies lists[
            #[trigger] shorter[k] as int].contains(shorter[k + 1]) by {
            assert(path[k] == shorter[k]);
        }
        paths_are_walks(lists, shorter);
        let mid = shorter.last() as int;
        assert(lists[path[path.len() - 2] as int].contains(path[path.len() - 1]));
        assert(reaches(lists, path[0] as int, mid, (path.len() - 2) as nat) && lists[mid].contains(
            path.last(),
        ));
    }
}

/// A walk is a path of one node more.
pub proof fn walks_are_paths(lists: Seq<Seq<usize>>, source: int, target: int, steps: nat) -> (path:
    Seq<usize>)
    requires
        lists.len() <= usize::MAX,
        reaches(lists, source, target, steps),
    ensures
        is_path(lists, path),
        path.len() == steps + 1,
        path[0] == source,
        path.last() == target,
    decreases steps,
{
    if steps == 0 {
        seq![target as usize]
    } else {
        let mid = choose|mid: int|
            reaches(lists, source, mid, (steps - 1) as nat) && (#[trigger] lists[mid]).contains(
                target as usize,
            );
        let before = walks_are_paths(lists, source, mid, (steps - 1) as nat);
        let path = before.push(target as usize);
        assert forall|k: int| 0 <= k < path.len() - 1 implies lists[
            #[trigger] path[k] as int].contains(path[k + 1]) by {
            if k < before.len() - 1 {
                assert(before[k] == path[k]);
            }
        }
        path
    }
}

/// A hop distance is the number of edges of a path between the two nodes that no
/// path undercuts, and is missing if and only if there is no path.
pub proof fn hop_distance_is_the_shortest_path(
    lists: Seq<Seq<usize>>,
    source: int,
    target: int,
    hops: Option<usize>,
)
    requires
        lists.len() <= usize::MAX,
        is_hop_distance(lists, source, target, hops),
    ensures
        hops matches Some(d) ==> exists|path: Seq<usize>| #[trigger]
            is_path(lists, path) && path[0] == source && path.last() == target && path.len() == d
                + 1,
        forall|path: Seq<usize>| #[trigger]
            is_path(lists, path) && path[0] == source && path.last() == target ==> (hops matches Some(
                d,
            ) && d + 1 <= path.len()),
{
    if let Some(d) = hops {
        let path = walks_are_paths(lists, source, target, d as nat);
        assert(is_path(lists, path));
    }
    assert forall|path: Seq<usize>| #[trigger]
        is_path(lists, path) && path[0] == source && path.last() == target implies (
    hops matches Some(d) && d + 1 <= path.len()) by {
        paths_are_walks(lists, path);
    }
}

/// Lists are viewed as they are held.
pub proof fn lists_are_viewed_as_held(graph: NeighborLists, i: int)
    ensures
        graph@.len() == graph.0@.len(),
        0 <= i < graph.0@.len() ==> graph@[i] == graph.0@[i]@,
{
}

} // verus!
