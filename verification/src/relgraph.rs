//! The graph of relations: four interaction-type adjacencies over relation
//! nodes (Galkin et al., ICLR 2024).
//!
//! Two relations interact when they share an entity in a given role: the tail
//! of one being the head of another is a tail-to-head interaction, and
//! likewise head-to-head, head-to-tail, tail-to-tail. These four
//! structure-only interaction types are invariant to what the relations are
//! called, which is what makes representations computed over this graph
//! transfer across relation vocabularies. Inverse relations are nodes too
//! (inverse of `r` is `r + num_relations`), so the graph has
//! `2 * num_relations` nodes.
//!
//! The adjacencies come back unnormalized: an edge is present or not.
use std::collections::HashMap;
use vstd::prelude::*;

verus! {

broadcast use vstd::std_specs::hash::group_hash_axioms;

/// Index of the tail-to-head interaction adjacency in the returned stack.
pub const T2H: usize = 0;

/// Index of the head-to-head interaction adjacency.
pub const H2H: usize = 1;

/// Index of the head-to-tail interaction adjacency.
pub const H2T: usize = 2;

/// Index of the tail-to-tail interaction adjacency.
pub const T2T: usize = 3;

/// A square matrix of present and absent edges, row by row.
#[derive(Debug, PartialEq, Eq)]
pub struct Adjacency {
    /// Number of nodes.
    pub nodes: usize,
    /// The cells, row by row.
    pub cells: Vec<bool>,
}

impl Adjacency {
    /// One cell for each pair of nodes.
    pub open spec fn wf(self) -> bool {
        self.cells@.len() == self.nodes * self.nodes
    }

    /// There is an edge from `a` to `b`.
    pub open spec fn at(self, a: int, b: int) -> bool {
        self.cells@[crate::index::cell(a, b, self.nodes as int)]
    }

    /// An adjacency without edges.
    fn empty(nodes: usize) -> (m: Adjacency)
        requires
            nodes * nodes <= usize::MAX,
        ensures
            m.wf(),
            m.nodes == nodes,
            forall|a: int, b: int| 0 <= a < nodes && 0 <= b < nodes ==> !#[trigger] m.at(a, b),
    {
        let total: usize = nodes * nodes;
        let mut cells: Vec<bool> = Vec::with_capacity(total);
        while cells.len() < total
            invariant
                cells@.len() <= total,
                forall|p: int| 0 <= p < cells@.len() ==> !#[trigger] cells@[p],
            decreases total - cells@.len(),
        {
            cells.push(false);
        }
        let m = Adjacency { nodes, cells };
        proof {
            assert forall|a: int, b: int| 0 <= a < nodes && 0 <= b < nodes implies !#[trigger] m.at(
                a,
                b,
            ) by {
                crate::index::lemma_cell_bound(a, b, nodes as int, nodes as int);
            }
        }
        m
    }

    /// Whether there is an edge from `a` to `b`.
    pub fn get(&self, a: usize, b: usize) -> (r: bool)
        requires
            self.wf(),
            a < self.nodes,
            b < self.nodes,
        ensures
            r == self.at(a as int, b as int),
    {
        proof {
            crate::index::lemma_cell_bound(
                a as int,
                b as int,
                self.nodes as int,
                self.nodes as int,
            );
            assert(self.cells@.len() == self.cells.len());
        }
        self.cells[a * self.nodes + b]
    }

    /// Adds the edge from `a` to `b`; every other pair stays as it is.
    fn connect(&mut self, a: usize, b: usize)
        requires
            old(self).wf(),
            a < old(self).nodes,
            b < old(self).nodes,
        ensures
            final(self).wf(),
            final(self).nodes == old(self).nodes,
            forall|x: int, y: int|
                0 <= x < old(self).nodes && 0 <= y < old(self).nodes ==> #[trigger] final(self).at(
                    x,
                    y,
                ) == (old(self).at(x, y) || (x == a && y == b)),
    {
        proof {
            let n = self.nodes as int;
            crate::index::lemma_cell_bound(a as int, b as int, n, n);
            assert(self.cells@.len() == self.cells.len());
            assert forall|x: int, y: int| 0 <= x < n && 0 <= y < n implies ({
                &&& 0 <= #[trigger] crate::index::cell(x, y, n) < self.cells@.len()
                &&& crate::index::cell(x, y, n) == crate::index::cell(a as int, b as int, n) <==> (x
                    == a && y == b)
            }) by {
                crate::index::lemma_cell_bound(x, y, n, n);
                crate::index::lemma_cell_order(x, y, a as int, b as int, n);
            }
        }
        let pos: usize = a * self.nodes + b;
        self.cells.set(pos, true);
    }

    /// Adds an edge from every node of `from` to every node of `to`.
    fn mark(&mut self, from: &Vec<usize>, to: &Vec<usize>)
        requires
            old(self).wf(),
            forall|k: int| 0 <= k < from@.len() ==> (#[trigger] from@[k]) < old(self).nodes,
            forall|k: int| 0 <= k < to@.len() ==> (#[trigger] to@[k]) < old(self).nodes,
        ensures
            final(self).wf(),
            final(self).nodes == old(self).nodes,
            forall|x: int, y: int|
                0 <= x < old(self).nodes && 0 <= y < old(self).nodes ==> #[trigger] final(self).at(
                    x,
                    y,
                ) == (old(self).at(x, y) || (from@.contains(x as usize) && to@.contains(
                    y as usize,
                ))),
    {
        let mut i: usize = 0;
        while i < from.len()
            invariant
                self.wf(),
                self.nodes == old(self).nodes,
                i <= from@.len(),
                forall|k: int| 0 <= k < from@.len() ==> (#[trigger] from@[k]) < self.nodes,
                forall|k: int| 0 <= k < to@.len() ==> (#[trigger] to@[k]) < self.nodes,
                forall|x: int, y: int|
                    0 <= x < self.nodes && 0 <= y < self.nodes ==> #[trigger] self.at(x, y) == (
                    old(self).at(x, y) || (from@.take(i as int).contains(x as usize)
                        && to@.contains(y as usize))),
            decreases from@.len() - i,
        {
            let a: usize = from[i];
            let ghost row = *self;
            let mut j: usize = 0;
            while j < to.len()
                invariant
                    self.wf(),
                    self.nodes == row.nodes,
                    a < self.nodes,
                    j <= to@.len(),
                    forall|k: int| 0 <= k < to@.len() ==> (#[trigger] to@[k]) < self.nodes,
                    forall|x: int, y: int|
                        0 <= x < self.nodes && 0 <= y < self.nodes ==> #[trigger] self.at(x, y) == (
                        row.at(x, y) || (x == a && to@.take(j as int).contains(y as usize))),
                decreases to@.len() - j,
            {
                let b: usize = to[j];
                let ghost cell = *self;
                self.connect(a, b);
                proof {
                    lemma_take_contains(to@, j as int);
                    assert forall|x: int, y: int|
                        0 <= x < self.nodes && 0 <= y < self.nodes implies #[trigger] self.at(x, y)
                        == (row.at(x, y) || (x == a && to@.take(j + 1).contains(y as usize))) by {
                        assert(cell.at(x, y) == (row.at(x, y) || (x == a && to@.take(
                            j as int,
                        ).contains(y as usize))));
                    }
                }
                j = j + 1;
            }
            proof {
                lemma_take_contains(from@, i as int);
                assert(to@.take(j as int) =~= to@);
                assert forall|x: int, y: int|
                    0 <= x < self.nodes && 0 <= y < self.nodes implies #[trigger] self.at(x, y) == (
                old(self).at(x, y) || (from@.take(i + 1).contains(x as usize) && to@.contains(
                    y as usize,
                ))) by {
                    assert(row.at(x, y) == (old(self).at(x, y) || (from@.take(i as int).contains(
                        x as usize,
                    ) && to@.contains(y as usize))));
                }
            }
            i = i + 1;
        }
        assert(from@.take(i as int) =~= from@);
    }
}

proof fn lemma_take_contains(s: Seq<usize>, k: int)
    requires
        0 <= k < s.len(),
    ensures
        forall|x: usize|
            #[trigger] s.take(k + 1).contains(x) <==> s.take(k).contains(x) || x == s[k],
{
    assert forall|x: usize|
        #[trigger] s.take(k + 1).contains(x) <==> s.take(k).contains(x) || x == s[k] by {
        let longer = s.take(k + 1);
        let shorter = s.take(k);
        if longer.contains(x) {
            let i = longer.index_of(x);
            assert(longer[i] == x);
            if i < k {
                assert(shorter[i] == x);
            }
        }
        if shorter.contains(x) {
            let i = shorter.index_of(x);
            assert(longer[i] == x);
        }
        if x == s[k] {
            assert(longer[k] == x);
        }
    }
}

/// In the triple `t`, entity `e` is the head (or else the tail) of relation
/// node `node`. A triple of an out-of-range relation gives no role. Node `r` is
/// the relation itself; node `r + num_relations` is its inverse, whose head and
/// tail are swapped.
pub open spec fn triple_role(
    t: (usize, usize, usize),
    num_relations: int,
    node: int,
    e: usize,
    head: bool,
) -> bool {
    &&& t.1 < num_relations
    &&& {
        ||| node == t.1 && e == if head {
            t.0
        } else {
            t.2
        }
        ||| node == t.1 + num_relations && e == if head {
            t.2
        } else {
            t.0
        }
    }
}

/// Some triple makes entity `e` the head (or else the tail) of `node`.
pub open spec fn plays(
    triples: Seq<(usize, usize, usize)>,
    num_relations: int,
    node: int,
    e: usize,
    head: bool,
) -> bool {
    exists|i: int|
        0 <= i < triples.len() && triple_role(#[trigger] triples[i], num_relations, node, e, head)
}

/// The row node of interaction type `kind` takes part as a head.
pub open spec fn from_head(kind: int) -> bool {
    kind == H2H || kind == H2T
}

/// The column node of interaction type `kind` takes part as a head.
pub open spec fn to_head(kind: int) -> bool {
    kind == T2H || kind == H2H
}

/// Entity `e` links `a` to `b` by the roles of interaction type `kind`.
pub open spec fn links(
    triples: Seq<(usize, usize, usize)>,
    num_relations: int,
    kind: int,
    a: int,
    b: int,
    e: usize,
) -> bool {
    plays(triples, num_relations, a, e, from_head(kind)) && plays(
        triples,
        num_relations,
        b,
        e,
        to_head(kind),
    )
}

/// Some entity links `a` to `b` by the roles of interaction type `kind`.
pub open spec fn interacts(
    triples: Seq<(usize, usize, usize)>,
    num_relations: int,
    kind: int,
    a: int,
    b: int,
) -> bool {
    exists|e: usize| links(triples, num_relations, kind, a, b, e)
}

/// `m` is the adjacency of interaction type `kind`.
pub open spec fn is_interaction(
    triples: Seq<(usize, usize, usize)>,
    num_relations: int,
    kind: int,
    m: Adjacency,
) -> bool {
    &&& m.wf()
    &&& m.nodes == 2 * num_relations
    &&& forall|a: int, b: int|
        0 <= a < m.nodes && 0 <= b < m.nodes ==> #[trigger] m.at(a, b) == interacts(
            triples,
            num_relations,
            kind,
            a,
            b,
        )
}

/// The nodes filed under entity `e`.
spec fn filed(map: Map<usize, Vec<usize>>, e: usize) -> Seq<usize> {
    if map.contains_key(e) {
        map[e]@
    } else {
        Seq::empty()
    }
}

/// `map` files under each entity exactly the nodes it is head (or tail) of.
spec fn files_roles(
    map: Map<usize, Vec<usize>>,
    triples: Seq<(usize, usize, usize)>,
    num_relations: int,
    head: bool,
) -> bool {
    forall|e: usize, node: usize|
        #[trigger] filed(map, e).contains(node) <==> plays(
            triples,
            num_relations,
            node as int,
            e,
            head,
        )
}

/// Files `node` under entity `e`.
fn file_role(map: &mut HashMap<usize, Vec<usize>>, e: usize, node: usize)
    ensures
        filed(final(map)@, e) == filed(old(map)@, e).push(node),
        forall|x: usize| x != e ==> #[trigger] filed(final(map)@, x) == filed(old(map)@, x),
        final(map)@.dom() == old(map)@.dom().insert(e),
{
    let mut nodes: Vec<usize> = match map.remove(&e) {
        Some(v) => v,
        None => Vec::new(),
    };
    nodes.push(node);
    map.insert(e, nodes);
}

proof fn lemma_plays_push(
    triples: Seq<(usize, usize, usize)>,
    k: int,
    num_relations: int,
    node: int,
    e: usize,
    head: bool,
)
    requires
        0 <= k < triples.len(),
    ensures
        plays(triples.take(k + 1), num_relations, node, e, head) <==> plays(
            triples.take(k),
            num_relations,
            node,
            e,
            head,
        ) || triple_role(triples[k], num_relations, node, e, head),
{
    let longer = triples.take(k + 1);
    let shorter = triples.take(k);
    if plays(longer, num_relations, node, e, head) {
        let i = choose|i: int|
            0 <= i < longer.len() && triple_role(
                #[trigger] longer[i],
                num_relations,
                node,
                e,
                head,
            );
        if i < k {
            assert(shorter[i] == longer[i]);
        }
    }
    if plays(shorter, num_relations, node, e, head) {
        let i = choose|i: int|
            0 <= i < shorter.len() && triple_role(
                #[trigger] shorter[i],
                num_relations,
                node,
                e,
                head,
            );
        assert(longer[i] == shorter[i]);
    }
    if triple_role(triples[k], num_relations, node, e, head) {
        assert(longer[k] == triples[k]);
    }
}

/// The role maps of `triples`, heads and tails, with the entities that occur in
/// them.
fn role_maps(triples: &[(usize, usize, usize)], num_relations: usize) -> (r: (
    HashMap<usize, Vec<usize>>,
    HashMap<usize, Vec<usize>>,
    Vec<usize>,
))
    requires
        2 * num_relations <= usize::MAX,
    ensures
        files_roles(r.0@, triples@, num_relations as int, true),
        files_roles(r.1@, triples@, num_relations as int, false),
        forall|e: usize| #[trigger] r.0@.contains_key(e) ==> r.2@.contains(e),
        forall|e: usize| #[trigger] r.1@.contains_key(e) ==> r.2@.contains(e),
{
    let mut heads: HashMap<usize, Vec<usize>> = HashMap::new();
    let mut tails: HashMap<usize, Vec<usize>> = HashMap::new();
    let mut entities: Vec<usize> = Vec::new();
    let mut i: usize = 0;
    while i < triples.len()
        invariant
            2 * num_relations <= usize::MAX,
            i <= triples@.len(),
            files_roles(heads@, triples@.take(i as int), num_relations as int, true),
            files_roles(tails@, triples@.take(i as int), num_relations as int, false),
            forall|e: usize| #[trigger] heads@.contains_key(e) ==> entities@.contains(e),
            forall|e: usize| #[trigger] tails@.contains_key(e) ==> heads@.contains_key(e),
        decreases triples@.len() - i,
    {
        let (h, r, t) = triples[i];
        let ghost old_heads = heads@;
        let ghost old_tails = tails@;
        if r < num_relations {
            let inv: usize = r + num_relations;
            let ghost seen = entities@;
            if !heads.contains_key(&h) {
                entities.push(h);
            }
            assert(entities@.contains(h)) by {
                if !old_heads.contains_key(h) {
                    assert(entities@[entities@.len() - 1] == h);
                }
            }
            let ghost with_head = entities@;
            if t != h && !heads.contains_key(&t) {
                entities.push(t);
            }
            proof {
                if t != h && !old_heads.contains_key(t) {
                    assert(entities@[entities@.len() - 1] == t);
                }
                assert forall|e: usize|
                    old_heads.contains_key(e) || e == h || e == t implies entities@.contains(e) by {
                    if e != t || t == h || old_heads.contains_key(t) {
                        if old_heads.contains_key(e) {
                            let k = seen.index_of(e);
                            assert(entities@[k] == e);
                        } else {
                            let k = with_head.index_of(e);
                            assert(entities@[k] == e);
                        }
                    }
                }
            }
            file_role(&mut heads, h, r);
            file_role(&mut tails, t, r);
            file_role(&mut heads, t, inv);
            file_role(&mut tails, h, inv);
        }
        proof {
            let nr = num_relations as int;
            assert forall|e: usize, node: usize|
                #[trigger] filed(heads@, e).contains(node) <==> plays(
                    triples@.take(i + 1),
                    nr,
                    node as int,
                    e,
                    true,
                ) by {
                lemma_plays_push(triples@, i as int, nr, node as int, e, true);
                assert(filed(old_heads, e).contains(node) <==> plays(
                    triples@.take(i as int),
                    nr,
                    node as int,
                    e,
                    true,
                ));
                lemma_filed_twice(old_heads, heads@, h, t, r, (r + nr) as usize, e, node, r < nr);
            }
            assert forall|e: usize, node: usize|
                #[trigger] filed(tails@, e).contains(node) <==> plays(
                    triples@.take(i + 1),
                    nr,
                    node as int,
                    e,
                    false,
                ) by {
                lemma_plays_push(triples@, i as int, nr, node as int, e, false);
                assert(filed(old_tails, e).contains(node) <==> plays(
                    triples@.take(i as int),
                    nr,
                    node as int,
                    e,
                    false,
                ));
                lemma_filed_twice(old_tails, tails@, t, h, r, (r + nr) as usize, e, node, r < nr);
            }
        }
        i = i + 1;
    }
    assert(triples@.take(i as int) =~= triples@);
    (heads, tails, entities)
}

/// What two filings leave under an entity.
spec fn filed_twice(
    before: Map<usize, Vec<usize>>,
    first: usize,
    second: usize,
    r: usize,
    inv: usize,
    e: usize,
) -> Seq<usize> {
    let once = if e == first {
        filed(before, e).push(r)
    } else {
        filed(before, e)
    };
    if e == second {
        once.push(inv)
    } else {
        once
    }
}

proof fn lemma_filed_twice(
    before: Map<usize, Vec<usize>>,
    after: Map<usize, Vec<usize>>,
    first: usize,
    second: usize,
    r: usize,
    inv: usize,
    e: usize,
    node: usize,
    filing: bool,
)
    requires
        filing ==> filed(after, e) == filed_twice(before, first, second, r, inv, e),
        !filing ==> after == before,
    ensures
        filed(after, e).contains(node) <==> filed(before, e).contains(node) || (filing && ((e
            == first && node == r) || (e == second && node == inv))),
{
    if filing {
        let base = filed(before, e);
        lemma_push_contains(base, r, node);
        lemma_push_contains(base, inv, node);
        lemma_push_contains(base.push(r), inv, node);
    }
}

proof fn lemma_push_contains(s: Seq<usize>, x: usize, y: usize)
    ensures
        s.push(x).contains(y) <==> s.contains(y) || y == x,
{
    let longer = s.push(x);
    if s.contains(y) {
        let i = s.index_of(y);
        assert(longer[i] == y);
    }
    if y == x {
        assert(longer[s.len() as int] == y);
    }
    if longer.contains(y) {
        let i = longer.index_of(y);
        assert(longer[i] == y);
        if i < s.len() {
            assert(s[i] == y);
        }
    }
}

/// Some entity of `entities` links `a` to `b`.
spec fn linked_by(
    triples: Seq<(usize, usize, usize)>,
    num_relations: int,
    kind: int,
    a: int,
    b: int,
    entities: Seq<usize>,
) -> bool {
    exists|e: usize|
        #[trigger] links(triples, num_relations, kind, a, b, e) && entities.contains(e)
}

/// `m` holds the links that the entities of `entities` make.
spec fn holds_links(
    triples: Seq<(usize, usize, usize)>,
    num_relations: int,
    kind: int,
    m: Adjacency,
    entities: Seq<usize>,
) -> bool {
    &&& m.wf()
    &&& m.nodes == 2 * num_relations
    &&& forall|a: int, b: int|
        0 <= a < m.nodes && 0 <= b < m.nodes ==> #[trigger] m.at(a, b) == linked_by(
            triples,
            num_relations,
            kind,
            a,
            b,
            entities,
        )
}

/// Marking the nodes filed under one more entity adds the links it makes.
proof fn lemma_links_grow(
    triples: Seq<(usize, usize, usize)>,
    num_relations: int,
    kind: int,
    before: Adjacency,
    after: Adjacency,
    entities: Seq<usize>,
    i: int,
    from: Seq<usize>,
    to: Seq<usize>,
)
    requires
        0 <= i < entities.len(),
        before.nodes <= usize::MAX,
        holds_links(triples, num_relations, kind, before, entities.take(i)),
        after.wf(),
        after.nodes == before.nodes,
        forall|x: int, y: int|
            0 <= x < before.nodes && 0 <= y < before.nodes ==> #[trigger] after.at(x, y) == (
            before.at(x, y) || (from.contains(x as usize) && to.contains(y as usize))),
        forall|node: usize|
            #[trigger] from.contains(node) <==> plays(
                triples,
                num_relations,
                node as int,
                entities[i],
                from_head(kind),
            ),
        forall|node: usize|
            #[trigger] to.contains(node) <==> plays(
                triples,
                num_relations,
                node as int,
                entities[i],
                to_head(kind),
            ),
    ensures
        holds_links(triples, num_relations, kind, after, entities.take(i + 1)),
{
    lemma_take_contains(entities, i);
    assert forall|a: int, b: int|
        0 <= a < after.nodes && 0 <= b < after.nodes implies #[trigger] after.at(a, b)
        == linked_by(triples, num_relations, kind, a, b, entities.take(i + 1)) by {
        assert(before.at(a, b) == linked_by(
            triples,
            num_relations,
            kind,
            a,
            b,
            entities.take(i),
        ));
        assert(from.contains(a as usize) <==> plays(
            triples,
            num_relations,
            a,
            entities[i],
            from_head(kind),
        ));
        assert(to.contains(b as usize) <==> plays(
            triples,
            num_relations,
            b,
            entities[i],
            to_head(kind),
        ));
        if linked_by(triples, num_relations, kind, a, b, entities.take(i)) {
            let e = choose|e: usize|
                #[trigger] links(triples, num_relations, kind, a, b, e) && entities.take(
                    i,
                ).contains(e);
            assert(entities.take(i + 1).contains(e));
        }
        if from.contains(a as usize) && to.contains(b as usize) {
            assert(links(triples, num_relations, kind, a, b, entities[i]));
            assert(entities.take(i + 1).contains(entities[i]));
        }
        if linked_by(triples, num_relations, kind, a, b, entities.take(i + 1)) {
            let e = choose|e: usize|
                #[trigger] links(triples, num_relations, kind, a, b, e) && entities.take(
                    i + 1,
                ).contains(e);
            if entities.take(i).contains(e) {
                assert(linked_by(triples, num_relations, kind, a, b, entities.take(i)));
            } else {
                assert(e == entities[i]);
            }
        }
    }
}

/// Once every entity with a role has been marked, the adjacency is complete.
proof fn lemma_links_complete(
    triples: Seq<(usize, usize, usize)>,
    num_relations: int,
    kind: int,
    m: Adjacency,
    entities: Seq<usize>,
)
    requires
        holds_links(triples, num_relations, kind, m, entities),
        forall|node: int, e: usize, head: bool|
            #[trigger] plays(triples, num_relations, node, e, head) ==> entities.contains(e),
    ensures
        is_interaction(triples, num_relations, kind, m),
{
    assert forall|a: int, b: int| 0 <= a < m.nodes && 0 <= b < m.nodes implies #[trigger] m.at(
        a,
        b,
    ) == interacts(triples, num_relations, kind, a, b) by {
        if interacts(triples, num_relations, kind, a, b) {
            let e = choose|e: usize| links(triples, num_relations, kind, a, b, e);
            assert(plays(triples, num_relations, a, e, from_head(kind)));
            assert(links(triples, num_relations, kind, a, b, e) && entities.contains(e));
        }
    }
}

/// A role belongs to one of the `2 * num_relations` nodes.
proof fn lemma_role_nodes(
    triples: Seq<(usize, usize, usize)>,
    num_relations: int,
    node: int,
    e: usize,
    head: bool,
)
    requires
        plays(triples, num_relations, node, e, head),
    ensures
        0 <= node < 2 * num_relations,
{
}

/// Build the four interaction adjacencies over `2 * num_relations` relation
/// nodes from `(head, relation, tail)` triples.
///
/// Relation node `r < num_relations` is the original direction; node
/// `r + num_relations` is its inverse (head and tail roles swapped). Entry
/// `(a, b)` of the `T2H` adjacency is set if and only if some entity is a tail
/// of relation `a` and a head of relation `b`; the other three follow the same
/// pattern for their role pairs. Self-interactions are kept: they carry real
/// signal (e.g. composable relations).
///
/// Out-of-range relation ids are ignored; entity ids only need to be
/// consistent, not dense.
pub fn relation_graph(triples: &[(usize, usize, usize)], num_relations: usize) -> (r: [Adjacency; 4])
    requires
        (2 * num_relations) * (2 * num_relations) <= usize::MAX,
    ensures
        forall|kind: int|
            0 <= kind < 4 ==> is_interaction(
                triples@,
                num_relations as int,
                kind,
                #[trigger] r@[kind],
            ),
        forall|kind: int, a: int, b: int|
            0 <= kind < 4 && 0 <= a < num_relations && 0 <= b < num_relations ==> (
            #[trigger] r@[kind].cells@[a * (2 * num_relations) + b] <==> exists|i: int, j: int|
                0 <= i < triples@.len() && 0 <= j < triples@.len() && (#[trigger] triples@[i]).1
                    == a && (#[trigger] triples@[j]).1 == b && (if kind == 1 || kind == 2 {
                    triples@[i].0
                } else {
                    triples@[i].2
                }) == (if kind == 0 || kind == 1 {
                    triples@[j].0
                } else {
                    triples@[j].2
                })),
{
    proof {
        assert(2 * num_relations <= (2 * num_relations) * (2 * num_relations)) by (nonlinear_arith)
            requires
                num_relations >= 0,
        ;
    }
    let n: usize = 2 * num_relations;
    let ghost nr = num_relations as int;
    let (heads, tails, entities) = role_maps(triples, num_relations);
    let empty: Vec<usize> = Vec::new();
    let mut t2h: Adjacency = Adjacency::empty(n);
    let mut h2h: Adjacency = Adjacency::empty(n);
    let mut h2t: Adjacency = Adjacency::empty(n);
    let mut t2t: Adjacency = Adjacency::empty(n);
    let mut i: usize = 0;
    while i < entities.len()
        invariant
            nr == num_relations,
            n == 2 * num_relations,
            i <= entities@.len(),
            empty@ == Seq::<usize>::empty(),
            files_roles(heads@, triples@, nr, true),
            files_roles(tails@, triples@, nr, false),
            holds_links(triples@, nr, T2H as int, t2h, entities@.take(i as int)),
            holds_links(triples@, nr, H2H as int, h2h, entities@.take(i as int)),
            holds_links(triples@, nr, H2T as int, h2t, entities@.take(i as int)),
            holds_links(triples@, nr, T2T as int, t2t, entities@.take(i as int)),
        decreases entities@.len() - i,
    {
        let e: usize = entities[i];
        let h: &Vec<usize> = match heads.get(&e) {
            Some(nodes) => nodes,
            None => &empty,
        };
        let t: &Vec<usize> = match tails.get(&e) {
            Some(nodes) => nodes,
            None => &empty,
        };
        proof {
            assert(h@ == filed(heads@, e));
            assert(t@ == filed(tails@, e));
            assert forall|k: int| 0 <= k < h@.len() implies (#[trigger] h@[k]) < n by {
                assert(filed(heads@, e).contains(h@[k]));
                lemma_role_nodes(triples@, nr, h@[k] as int, e, true);
            }
            assert forall|k: int| 0 <= k < t@.len() implies (#[trigger] t@[k]) < n by {
                assert(filed(tails@, e).contains(t@[k]));
                lemma_role_nodes(triples@, nr, t@[k] as int, e, false);
            }
        }
        let ghost before = (t2h, h2h, h2t, t2t);
        t2h.mark(t, h);
        h2h.mark(h, h);
        h2t.mark(h, t);
        t2t.mark(t, t);
        proof {
            assert forall|node: usize| #[trigger] h@.contains(node) <==> plays(
                triples@,
                nr,
                node as int,
                entities@[i as int],
                true,
            ) by {
                assert(filed(heads@, e).contains(node) <==> plays(
                    triples@,
                    nr,
                    node as int,
                    e,
                    true,
                ));
            }
            assert forall|node: usize| #[trigger] t@.contains(node) <==> plays(
                triples@,
                nr,
                node as int,
                entities@[i as int],
                false,
            ) by {
                assert(filed(tails@, e).contains(node) <==> plays(
                    triples@,
                    nr,
                    node as int,
                    e,
                    false,
                ));
            }
            lemma_links_grow(triples@, nr, T2H as int, before.0, t2h, entities@, i as int, t@, h@);
            lemma_links_grow(triples@, nr, H2H as int, before.1, h2h, entities@, i as int, h@, h@);
            lemma_links_grow(triples@, nr, H2T as int, before.2, h2t, entities@, i as int, h@, t@);
            lemma_links_grow(triples@, nr, T2T as int, before.3, t2t, entities@, i as int, t@, t@);
        }
        i = i + 1;
    }
    proof {
        assert(entities@.take(i as int) =~= entities@);
        assert forall|node: int, e: usize, head: bool|
            #[trigger] plays(triples@, nr, node, e, head) implies entities@.contains(e) by {
            lemma_role_nodes(triples@, nr, node, e, head);
            if head {
                assert(filed(heads@, e).contains(node as usize));
                assert(heads@.contains_key(e));
            } else {
                assert(filed(tails@, e).contains(node as usize));
                assert(tails@.contains_key(e));
            }
        }
        lemma_links_complete(triples@, nr, T2H as int, t2h, entities@);
        lemma_links_complete(triples@, nr, H2H as int, h2h, entities@);
        lemma_links_complete(triples@, nr, H2T as int, h2t, entities@);
        lemma_links_complete(triples@, nr, T2T as int, t2t, entities@);
    }
    let stack: [Adjacency; 4] = [t2h, h2h, h2t, t2t];
    proof {
        assert forall|kind: int, a: int, b: int|
            0 <= kind < 4 && 0 <= a < num_relations && 0 <= b < num_relations implies (
        #[trigger] stack@[kind].cells@[a * (2 * num_relations) + b] <==> exists|i: int, j: int|
            0 <= i < triples@.len() && 0 <= j < triples@.len() && (#[trigger] triples@[i]).1 == a
                && (#[trigger] triples@[j]).1 == b && (if kind == 1 || kind == 2 {
                triples@[i].0
            } else {
                triples@[i].2
            }) == (if kind == 0 || kind == 1 {
                triples@[j].0
            } else {
                triples@[j].2
            })) by {
            cells_by_triples(triples@, nr, kind, stack@[kind], a, b, false, false);
        }
    }
    stack
}

/// Diagnostic summary of a relation graph: the cheap numbers to look at before
/// trusting anything trained over it.
///
/// The load-bearing one is `isolated_nodes`: a relation node with no
/// interaction edges receives no conditioning signal during message passing,
/// so its representation stays at the boundary value and every downstream
/// score involving it is degenerate. Sparse interaction structure is the known
/// failure mode of relation-graph transfer.
#[derive(Debug, Clone, Copy, PartialEq)]
pub struct RelationGraphStats {
    /// Edge count per interaction type (`T2H`, `H2H`, `H2T`, `T2T`).
    pub edges_per_type: [usize; 4],
    /// Relation nodes with no interaction edge of any type (in or out).
    pub isolated_nodes: usize,
    /// Self-interaction count per type (e.g. a T2H self-loop marks a
    /// self-composable relation).
    pub self_loops: [usize; 4],
    /// Total relation nodes (`2 * num_relations`).
    pub nodes: usize,
}

/// The cell in row `i` and column `j` of `m`, read as `n` by `n`.
pub open spec fn set_at(m: Adjacency, n: int, i: int, j: int) -> bool {
    m.cells@[crate::index::cell(i, j, n)]
}

/// `m`, read as `n` by `n`, has an edge between `i` and `j`, either way.
pub open spec fn joined(m: Adjacency, n: int, i: int, j: int) -> bool {
    set_at(m, n, i, j) || set_at(m, n, j, i)
}

/// `m`, read as `n` by `n`, has an edge from or to node `i`.
pub open spec fn touches_node(m: Adjacency, n: int, i: int) -> bool {
    exists|j: int| 0 <= j < n && joined(m, n, i, j)
}

/// Some adjacency of the stack has an edge from or to node `i`.
pub open spec fn touched(adjs: Seq<Adjacency>, n: int, i: int) -> bool {
    exists|k: int| 0 <= k < adjs.len() && touches_node(#[trigger] adjs[k], n, i)
}

/// `s` counts, for each adjacency of the stack, its edges and its loops, and
/// over all of them the nodes without an edge. The first adjacency gives the
/// number of nodes that all are read with.
pub open spec fn is_stats(adjs: Seq<Adjacency>, s: RelationGraphStats) -> bool {
    &&& s.nodes == adjs[0].nodes
    &&& forall|k: int|
        0 <= k < 4 ==> #[trigger] s.edges_per_type@[k] == crate::select::count(
            (s.nodes * s.nodes) as nat,
            |p: int| adjs[k].cells@[p],
        )
    &&& forall|k: int|
        0 <= k < 4 ==> #[trigger] s.self_loops@[k] == crate::select::count(
            s.nodes as nat,
            |i: int| set_at(adjs[k], s.nodes as int, i, i),
        )
    &&& s.isolated_nodes == crate::select::count(
        s.nodes as nat,
        |i: int| !touched(adjs, s.nodes as int, i),
    )
}

/// How many of the first `n * n` cells of `m` are set.
fn edge_count(m: &Adjacency, n: usize) -> (c: usize)
    requires
        n * n <= m.cells@.len(),
    ensures
        c == crate::select::count((n * n) as nat, |p: int| m.cells@[p]),
{
    let ghost keep = |p: int| m.cells@[p];
    assert(m.cells@.len() == m.cells.len());
    let total: usize = n * n;
    let mut c: usize = 0;
    let mut p: usize = 0;
    while p < total
        invariant
            total <= m.cells@.len(),
            p <= total,
            c <= p,
            keep == (|p: int| m.cells@[p]),
            c == crate::select::count(p as nat, keep),
        decreases total - p,
    {
        if m.cells[p] {
            c = c + 1;
        }
        p = p + 1;
    }
    c
}

/// How many cells on the diagonal of `m`, read as `n` by `n`, are set.
fn loop_count(m: &Adjacency, n: usize) -> (c: usize)
    requires
        n * n <= m.cells@.len(),
    ensures
        c == crate::select::count(n as nat, |i: int| set_at(*m, n as int, i, i)),
{
    let ghost keep = |i: int| set_at(*m, n as int, i, i);
    assert(m.cells@.len() == m.cells.len());
    let mut c: usize = 0;
    let mut i: usize = 0;
    while i < n
        invariant
            n * n <= m.cells@.len(),
            m.cells@.len() <= usize::MAX,
            i <= n,
            c <= i,
            keep == (|i: int| set_at(*m, n as int, i, i)),
            c == crate::select::count(i as nat, keep),
        decreases n - i,
    {
        proof {
            crate::index::lemma_cell_bound(i as int, i as int, n as int, n as int);
        }
        if m.cells[i * n + i] {
            c = c + 1;
        }
        i = i + 1;
    }
    c
}

/// Whether an edge of `m`, read as `n` by `n`, leaves or enters node `i`.
fn touches(m: &Adjacency, n: usize, i: usize) -> (r: bool)
    requires
        n * n <= m.cells@.len(),
        i < n,
    ensures
        r == touches_node(*m, n as int, i as int),
{
    assert(m.cells@.len() == m.cells.len());
    let mut j: usize = 0;
    while j < n
        invariant
            n * n <= m.cells@.len(),
            m.cells@.len() <= usize::MAX,
            i < n,
            j <= n,
            forall|x: int| 0 <= x < j ==> !#[trigger] joined(*m, n as int, i as int, x),
        decreases n - j,
    {
        proof {
            crate::index::lemma_cell_bound(i as int, j as int, n as int, n as int);
            crate::index::lemma_cell_bound(j as int, i as int, n as int, n as int);
        }
        if m.cells[i * n + j] || m.cells[j * n + i] {
            assert(joined(*m, n as int, i as int, j as int));
            return true;
        }
        j = j + 1;
    }
    false
}

/// Compute [`RelationGraphStats`] for a stack built by [`relation_graph`]. The
/// first adjacency gives the number of nodes that all four are read with.
pub fn interaction_stats(adjs: &[Adjacency; 4]) -> (s: RelationGraphStats)
    requires
        forall|k: int|
            0 <= k < 4 ==> adjs@[0].nodes * adjs@[0].nodes <= (#[trigger] adjs@[k]).cells@.len(),
    ensures
        is_stats(adjs@, s),
{
    let n: usize = adjs[0].nodes;
    let ghost alone = |i: int| !touched(adjs@, n as int, i);
    let mut isolated: usize = 0;
    let mut i: usize = 0;
    while i < n
        invariant
            forall|k: int|
                0 <= k < 4 ==> n * n <= (#[trigger] adjs@[k]).cells@.len(),
            i <= n,
            isolated <= i,
            alone == (|i: int| !touched(adjs@, n as int, i)),
            isolated == crate::select::count(i as nat, alone),
        decreases n - i,
    {
        let any: bool = touches(&adjs[0], n, i) || touches(&adjs[1], n, i) || touches(
            &adjs[2],
            n,
            i,
        ) || touches(&adjs[3], n, i);
        proof {
            let at = i as int;
            if any {
                let k: int = if touches_node(adjs@[0], n as int, at) {
                    0
                } else if touches_node(adjs@[1], n as int, at) {
                    1
                } else if touches_node(adjs@[2], n as int, at) {
                    2
                } else {
                    3
                };
                assert(touches_node(adjs@[k], n as int, at));
            }
            assert(any == touched(adjs@, n as int, at));
        }
        if !any {
            isolated = isolated + 1;
        }
        i = i + 1;
    }
    let edges_per_type: [usize; 4] = [
        edge_count(&adjs[0], n),
        edge_count(&adjs[1], n),
        edge_count(&adjs[2], n),
        edge_count(&adjs[3], n),
    ];
    let self_loops: [usize; 4] = [
        loop_count(&adjs[0], n),
        loop_count(&adjs[1], n),
        loop_count(&adjs[2], n),
        loop_count(&adjs[3], n),
    ];
    RelationGraphStats { edges_per_type, isolated_nodes: isolated, self_loops, nodes: n }
}

/// Turning the roles around transposes: head-to-tail is the transpose of
/// tail-to-head, and head-to-head and tail-to-tail are symmetric.
pub proof fn interactions_transpose(
    triples: Seq<(usize, usize, usize)>,
    num_relations: int,
    a: int,
    b: int,
)
    ensures
        interacts(triples, num_relations, H2T as int, a, b) == interacts(
            triples,
            num_relations,
            T2H as int,
            b,
            a,
        ),
        interacts(triples, num_relations, H2H as int, a, b) == interacts(
            triples,
            num_relations,
            H2H as int,
            b,
            a,
        ),
        interacts(triples, num_relations, T2T as int, a, b) == interacts(
            triples,
            num_relations,
            T2T as int,
            b,
            a,
        ),
{
    assert forall|e: usize|
        links(triples, num_relations, H2T as int, a, b, e) == links(
            triples,
            num_relations,
            T2H as int,
            b,
            a,
            e,
        ) && links(triples, num_relations, H2H as int, a, b, e) == links(
            triples,
            num_relations,
            H2H as int,
            b,
            a,
            e,
        ) && #[trigger] links(triples, num_relations, T2T as int, a, b, e) == links(
            triples,
            num_relations,
            T2T as int,
            b,
            a,
            e,
        ) by {}
    lemma_same_links(triples, triples, num_relations, H2T as int, T2H as int, a, b, b, a);
    lemma_same_links(triples, triples, num_relations, H2H as int, H2H as int, a, b, b, a);
    lemma_same_links(triples, triples, num_relations, T2T as int, T2T as int, a, b, b, a);
}

proof fn lemma_same_links(
    triples: Seq<(usize, usize, usize)>,
    others: Seq<(usize, usize, usize)>,
    num_relations: int,
    kind: int,
    other_kind: int,
    a: int,
    b: int,
    c: int,
    d: int,
)
    requires
        forall|e: usize|
            links(triples, num_relations, kind, a, b, e) == links(
                others,
                num_relations,
                other_kind,
                c,
                d,
                e,
            ),
    ensures
        interacts(triples, num_relations, kind, a, b) == interacts(
            others,
            num_relations,
            other_kind,
            c,
            d,
        ),
{
    if interacts(triples, num_relations, kind, a, b) {
        let e = choose|e: usize| links(triples, num_relations, kind, a, b, e);
        assert(links(others, num_relations, other_kind, c, d, e));
    }
    if interacts(others, num_relations, other_kind, c, d) {
        let e = choose|e: usize| links(others, num_relations, other_kind, c, d, e);
        assert(links(triples, num_relations, kind, a, b, e));
    }
}

/// The inverse of a relation has its heads as tails and its tails as heads.
pub proof fn inverse_swaps_roles(
    triples: Seq<(usize, usize, usize)>,
    num_relations: int,
    r: int,
    e: usize,
    head: bool,
)
    requires
        0 <= r < num_relations,
    ensures
        plays(triples, num_relations, r + num_relations, e, head) == plays(
            triples,
            num_relations,
            r,
            e,
            !head,
        ),
{
    if plays(triples, num_relations, r + num_relations, e, head) {
        let i = choose|i: int|
            0 <= i < triples.len() && triple_role(
                #[trigger] triples[i],
                num_relations,
                r + num_relations,
                e,
                head,
            );
        assert(triple_role(triples[i], num_relations, r, e, !head));
    }
    if plays(triples, num_relations, r, e, !head) {
        let i = choose|i: int|
            0 <= i < triples.len() && triple_role(
                #[trigger] triples[i],
                num_relations,
                r,
                e,
                !head,
            );
        assert(triple_role(triples[i], num_relations, r + num_relations, e, head));
    }
}

/// Inverting the row relation turns its role around, and with it the
/// interaction type; likewise the column relation.
pub proof fn inverse_swaps_interactions(
    triples: Seq<(usize, usize, usize)>,
    num_relations: int,
    r: int,
    b: int,
)
    requires
        0 <= r < num_relations,
    ensures
        interacts(triples, num_relations, T2H as int, r, b) == interacts(
            triples,
            num_relations,
            H2H as int,
            r + num_relations,
            b,
        ),
        interacts(triples, num_relations, T2T as int, r, b) == interacts(
            triples,
            num_relations,
            H2T as int,
            r + num_relations,
            b,
        ),
        interacts(triples, num_relations, H2T as int, b, r) == interacts(
            triples,
            num_relations,
            H2H as int,
            b,
            r + num_relations,
        ),
        interacts(triples, num_relations, T2T as int, b, r) == interacts(
            triples,
            num_relations,
            T2H as int,
            b,
            r + num_relations,
        ),
{
    let inv = r + num_relations;
    assert forall|e: usize, head: bool|
        #[trigger] plays(triples, num_relations, inv, e, head) == plays(
            triples,
            num_relations,
            r,
            e,
            !head,
        ) by {
        inverse_swaps_roles(triples, num_relations, r, e, head);
    }
    lemma_same_links(triples, triples, num_relations, T2H as int, H2H as int, r, b, inv, b);
    lemma_same_links(triples, triples, num_relations, T2T as int, H2T as int, r, b, inv, b);
    lemma_same_links(triples, triples, num_relations, H2T as int, H2H as int, b, r, b, inv);
    lemma_same_links(triples, triples, num_relations, T2T as int, T2H as int, b, r, b, inv);
}

/// Where a renaming of the relations takes a relation node.
pub open spec fn renamed_node(rename: spec_fn(int) -> int, num_relations: int, node: int) -> int {
    if node < num_relations {
        rename(node)
    } else {
        rename(node - num_relations) + num_relations
    }
}

/// `others` is `triples` with its relations renamed; those out of range stay
/// out of range.
pub open spec fn is_relation_renaming(
    rename: spec_fn(int) -> int,
    num_relations: int,
    triples: Seq<(usize, usize, usize)>,
    others: Seq<(usize, usize, usize)>,
) -> bool {
    &&& forall|r: int| 0 <= r < num_relations ==> 0 <= #[trigger] rename(r) < num_relations
    &&& forall|r: int, s: int|
        0 <= r < num_relations && 0 <= s < num_relations && #[trigger] rename(r)
            == #[trigger] rename(s) ==> r == s
    &&& others.len() == triples.len()
    &&& forall|i: int|
        0 <= i < triples.len() ==> {
            &&& (#[trigger] others[i]).0 == triples[i].0
            &&& others[i].2 == triples[i].2
            &&& triples[i].1 < num_relations ==> others[i].1 == rename(triples[i].1 as int)
            &&& triples[i].1 >= num_relations ==> others[i].1 >= num_relations
        }
}

proof fn lemma_renamed_role(
    rename: spec_fn(int) -> int,
    num_relations: int,
    triples: Seq<(usize, usize, usize)>,
    others: Seq<(usize, usize, usize)>,
    node: int,
    e: usize,
    head: bool,
)
    requires
        is_relation_renaming(rename, num_relations, triples, others),
        0 <= node < 2 * num_relations,
    ensures
        plays(others, num_relations, renamed_node(rename, num_relations, node), e, head) == plays(
            triples,
            num_relations,
            node,
            e,
            head,
        ),
{
    let image = renamed_node(rename, num_relations, node);
    assert forall|i: int| 0 <= i < triples.len() implies #[trigger] triple_role(
        others[i],
        num_relations,
        image,
        e,
        head,
    ) == triple_role(triples[i], num_relations, node, e, head) by {
        let r = triples[i].1 as int;
        if r < num_relations {
            assert(0 <= rename(r) < num_relations);
            if node < num_relations {
                assert(0 <= rename(node) < num_relations);
            } else {
                assert(0 <= rename(node - num_relations) < num_relations);
            }
        }
    }
    if plays(others, num_relations, image, e, head) {
        let i = choose|i: int|
            0 <= i < others.len() && triple_role(
                #[trigger] others[i],
                num_relations,
                image,
                e,
                head,
            );
        assert(triple_role(others[i], num_relations, image, e, head));
        assert(triple_role(triples[i], num_relations, node, e, head));
    }
    if plays(triples, num_relations, node, e, head) {
        let i = choose|i: int|
            0 <= i < triples.len() && triple_role(
                #[trigger] triples[i],
                num_relations,
                node,
                e,
                head,
            );
        assert(triple_role(others[i], num_relations, image, e, head));
    }
}

/// The construction is vocabulary-free: renaming relation ids permutes rows
/// and columns consistently and changes nothing else.
pub proof fn relation_renaming_permutes(
    rename: spec_fn(int) -> int,
    num_relations: int,
    triples: Seq<(usize, usize, usize)>,
    others: Seq<(usize, usize, usize)>,
    kind: int,
    a: int,
    b: int,
)
    requires
        is_relation_renaming(rename, num_relations, triples, others),
        0 <= a < 2 * num_relations,
        0 <= b < 2 * num_relations,
    ensures
        interacts(
            others,
            num_relations,
            kind,
            renamed_node(rename, num_relations, a),
            renamed_node(rename, num_relations, b),
        ) == interacts(triples, num_relations, kind, a, b),
{
    let c = renamed_node(rename, num_relations, a);
    let d = renamed_node(rename, num_relations, b);
    assert forall|e: usize|
        links(triples, num_relations, kind, a, b, e) == links(
            others,
            num_relations,
            kind,
            c,
            d,
            e,
        ) by {
        lemma_renamed_role(rename, num_relations, triples, others, a, e, from_head(kind));
        lemma_renamed_role(rename, num_relations, triples, others, b, e, to_head(kind));
    }
    lemma_same_links(triples, others, num_relations, kind, kind, a, b, c, d);
}

/// `others` is `triples` with its entities renamed, no two to the same id.
pub open spec fn is_entity_renaming(
    rename: spec_fn(usize) -> usize,
    triples: Seq<(usize, usize, usize)>,
    others: Seq<(usize, usize, usize)>,
) -> bool {
    &&& forall|e: usize, f: usize| #[trigger] rename(e) == #[trigger] rename(f) ==> e == f
    &&& others.len() == triples.len()
    &&& forall|i: int|
        0 <= i < triples.len() ==> #[trigger] others[i] == (
            rename(triples[i].0),
            triples[i].1,
            rename(triples[i].2),
        )
}

proof fn lemma_moved_role(
    rename: spec_fn(usize) -> usize,
    num_relations: int,
    triples: Seq<(usize, usize, usize)>,
    others: Seq<(usize, usize, usize)>,
    node: int,
    e: usize,
    head: bool,
)
    requires
        is_entity_renaming(rename, triples, others),
    ensures
        plays(others, num_relations, node, rename(e), head) == plays(
            triples,
            num_relations,
            node,
            e,
            head,
        ),
{
    assert forall|i: int| 0 <= i < triples.len() implies #[trigger] triple_role(
        others[i],
        num_relations,
        node,
        rename(e),
        head,
    ) == triple_role(triples[i], num_relations, node, e, head) by {
        assert(rename(triples[i].0) == rename(e) ==> triples[i].0 == e);
        assert(rename(triples[i].2) == rename(e) ==> triples[i].2 == e);
    }
    if plays(others, num_relations, node, rename(e), head) {
        let i = choose|i: int|
            0 <= i < others.len() && triple_role(
                #[trigger] others[i],
                num_relations,
                node,
                rename(e),
                head,
            );
        assert(triple_role(others[i], num_relations, node, rename(e), head));
        assert(triple_role(triples[i], num_relations, node, e, head));
    }
    if plays(triples, num_relations, node, e, head) {
        let i = choose|i: int|
            0 <= i < triples.len() && triple_role(
                #[trigger] triples[i],
                num_relations,
                node,
                e,
                head,
            );
        assert(triple_role(others[i], num_relations, node, rename(e), head));
    }
}

/// Entity ids only need to be consistent: renaming them apart from each other
/// changes no interaction.
pub proof fn entity_renaming_changes_nothing(
    rename: spec_fn(usize) -> usize,
    num_relations: int,
    triples: Seq<(usize, usize, usize)>,
    others: Seq<(usize, usize, usize)>,
    kind: int,
    a: int,
    b: int,
)
    requires
        is_entity_renaming(rename, triples, others),
    ensures
        interacts(others, num_relations, kind, a, b) == interacts(
            triples,
            num_relations,
            kind,
            a,
            b,
        ),
{
    if interacts(triples, num_relations, kind, a, b) {
        let e = choose|e: usize| links(triples, num_relations, kind, a, b, e);
        lemma_moved_role(rename, num_relations, triples, others, a, e, from_head(kind));
        lemma_moved_role(rename, num_relations, triples, others, b, e, to_head(kind));
        assert(links(others, num_relations, kind, a, b, rename(e)));
    }
    if interacts(others, num_relations, kind, a, b) {
        let f = choose|f: usize| links(others, num_relations, kind, a, b, f);
        let i = choose|i: int|
            0 <= i < others.len() && triple_role(
                #[trigger] others[i],
                num_relations,
                a,
                f,
                from_head(kind),
            );
        let e = if f == rename(triples[i].0) {
            triples[i].0
        } else {
            triples[i].2
        };
        assert(f == rename(e));
        lemma_moved_role(rename, num_relations, triples, others, a, e, from_head(kind));
        lemma_moved_role(rename, num_relations, triples, others, b, e, to_head(kind));
        assert(links(triples, num_relations, kind, a, b, e));
    }
}

proof fn lemma_role_survives(
    triples: Seq<(usize, usize, usize)>,
    others: Seq<(usize, usize, usize)>,
    num_relations: int,
    node: int,
    e: usize,
    head: bool,
)
    requires
        forall|t: (usize, usize, usize)|
            t.1 < num_relations && triples.contains(t) ==> #[trigger] others.contains(t),
        plays(triples, num_relations, node, e, head),
    ensures
        plays(others, num_relations, node, e, head),
{
    let i = choose|i: int|
        0 <= i < triples.len() && triple_role(#[trigger] triples[i], num_relations, node, e, head);
    assert(triples.contains(triples[i]));
    assert(others.contains(triples[i]));
    let j = others.index_of(triples[i]);
    assert(others[j] == triples[i]);
}

/// Only the set of triples with an in-range relation matters: out-of-range
/// relation ids, repetitions and the order of the triples are ignored.
pub proof fn only_known_relations_matter(
    triples: Seq<(usize, usize, usize)>,
    others: Seq<(usize, usize, usize)>,
    num_relations: int,
    kind: int,
    a: int,
    b: int,
)
    requires
        forall|t: (usize, usize, usize)|
            t.1 < num_relations ==> #[trigger] triples.contains(t) == #[trigger] others.contains(t),
    ensures
        interacts(triples, num_relations, kind, a, b) == interacts(
            others,
            num_relations,
            kind,
            a,
            b,
        ),
{
    assert forall|node: int, e: usize, head: bool|
        #[trigger] plays(triples, num_relations, node, e, head) == plays(
            others,
            num_relations,
            node,
            e,
            head,
        ) by {
        if plays(triples, num_relations, node, e, head) {
            lemma_role_survives(triples, others, num_relations, node, e, head);
        }
        if plays(others, num_relations, node, e, head) {
            lemma_role_survives(others, triples, num_relations, node, e, head);
        }
    }
    lemma_same_links(triples, others, num_relations, kind, kind, a, b, a, b);
}

/// Some triple has relation `r`.
pub open spec fn is_used(triples: Seq<(usize, usize, usize)>, r: int) -> bool {
    exists|i: int| 0 <= i < triples.len() && (#[trigger] triples[i]).1 == r
}

/// The relation that a node stands for, in either direction.
pub open spec fn relation_of(num_relations: int, node: int) -> int {
    if node < num_relations {
        node
    } else {
        node - num_relations
    }
}

/// A relation that occurs in some triple shares its heads with itself and its
/// tails with itself, in both directions; one that never occurs interacts with
/// nothing.
pub proof fn used_relations_interact(
    triples: Seq<(usize, usize, usize)>,
    num_relations: int,
    node: int,
)
    requires
        0 <= node < 2 * num_relations,
    ensures
        is_used(triples, relation_of(num_relations, node)) ==> interacts(
            triples,
            num_relations,
            H2H as int,
            node,
            node,
        ) && interacts(triples, num_relations, T2T as int, node, node),
        !is_used(triples, relation_of(num_relations, node)) ==> forall|kind: int, b: int|
            !#[trigger] interacts(triples, num_relations, kind, node, b) && !interacts(
                triples,
                num_relations,
                kind,
                b,
                node,
            ),
{
    let r = relation_of(num_relations, node);
    if is_used(triples, r) {
        let i = choose|i: int| 0 <= i < triples.len() && (#[trigger] triples[i]).1 == r;
        let t = triples[i];
        let (h, l) = if node < num_relations {
            (t.0, t.2)
        } else {
            (t.2, t.0)
        };
        assert(triple_role(triples[i], num_relations, node, h, true));
        assert(triple_role(triples[i], num_relations, node, l, false));
        assert(links(triples, num_relations, H2H as int, node, node, h));
        assert(links(triples, num_relations, T2T as int, node, node, l));
    } else {
        assert forall|kind: int, b: int|
            !#[trigger] interacts(triples, num_relations, kind, node, b) && !interacts(
                triples,
                num_relations,
                kind,
                b,
                node,
            ) by {
            if interacts(triples, num_relations, kind, node, b) {
                let e = choose|e: usize| links(triples, num_relations, kind, node, b, e);
                assert(plays(triples, num_relations, node, e, from_head(kind)));
            }
            if interacts(triples, num_relations, kind, b, node) {
                let e = choose|e: usize| links(triples, num_relations, kind, b, node, e);
                assert(plays(triples, num_relations, node, e, to_head(kind)));
            }
        }
    }
}

/// The isolated nodes of a relation graph are the relations that no triple
/// uses, each with its inverse.
pub proof fn isolated_nodes_are_unused_relations(
    triples: Seq<(usize, usize, usize)>,
    num_relations: nat,
    adjs: Seq<Adjacency>,
)
    requires
        adjs.len() == 4,
        forall|kind: int|
            0 <= kind < 4 ==> is_interaction(
                triples,
                num_relations as int,
                kind,
                #[trigger] adjs[kind],
            ),
    ensures
        forall|node: int|
            0 <= node < 2 * num_relations ==> #[trigger] touched(
                adjs,
                (2 * num_relations) as int,
                node,
            ) == is_used(triples, relation_of(num_relations as int, node)),
        crate::select::count(
            2 * num_relations,
            |i: int| !touched(adjs, (2 * num_relations) as int, i),
        ) == 2 * crate::select::count(num_relations, |r: int| !is_used(triples, r)),
{
    let nr = num_relations as int;
    let n = 2 * nr;
    assert forall|node: int| 0 <= node < n implies #[trigger] touched(adjs, n, node) == is_used(
        triples,
        relation_of(nr, node),
    ) by {
        used_relations_interact(triples, nr, node);
        if is_used(triples, relation_of(nr, node)) {
            assert(is_interaction(triples, nr, 1, adjs[1]));
            assert(adjs[1].at(node, node));
            assert(joined(adjs[1], n, node, node));
            assert(touches_node(adjs[1], n, node));
        }
        if touched(adjs, n, node) {
            let k = choose|k: int|
                0 <= k < adjs.len() && touches_node(#[trigger] adjs[k], n, node);
            let j = choose|j: int| 0 <= j < n && joined(adjs[k], n, node, j);
            assert(is_interaction(triples, nr, k, adjs[k]));
            assert(adjs[k].at(node, j) == interacts(triples, nr, k, node, j));
            assert(adjs[k].at(j, node) == interacts(triples, nr, k, j, node));
        }
    }
    let alone = |i: int| !touched(adjs, n, i);
    let unused = |r: int| !is_used(triples, r);
    let inverse = |i: int| alone(num_relations + i);
    crate::select::lemma_count_split(num_relations, num_relations, alone);
    assert(num_relations + num_relations == 2 * num_relations);
    crate::select::lemma_count_agree(num_relations, alone, unused);
    assert forall|i: int| 0 <= i < num_relations implies #[trigger] inverse(i) == unused(i) by {
        assert(relation_of(nr, num_relations + i) == i);
    }
    crate::select::lemma_count_agree(num_relations, inverse, unused);
}

/// The node of the same relation in the other direction.
pub open spec fn inverse_of(num_relations: int, node: int) -> int {
    if node < num_relations {
        node + num_relations
    } else {
        node - num_relations
    }
}

/// `f` maps the indices below `n` onto themselves, and is its own inverse.
spec fn is_flip(n: int, f: spec_fn(int) -> int) -> bool {
    forall|i: int| 0 <= i < n ==> 0 <= #[trigger] f(i) < n && f(f(i)) == i
}

/// Flipping rows and columns keeps the number of set cells.
proof fn lemma_flipped_cells(
    n: nat,
    a: Seq<bool>,
    b: Seq<bool>,
    f: spec_fn(int) -> int,
    g: spec_fn(int) -> int,
)
    requires
        is_flip(n as int, f),
        is_flip(n as int, g),
        forall|i: int, j: int|
            0 <= i < n && 0 <= j < n ==> #[trigger] a[crate::index::cell(i, j, n as int)]
                == b[crate::index::cell(f(i), g(j), n as int)],
    ensures
        crate::select::count(n * n, |p: int| a[p]) == crate::select::count(n * n, |p: int| b[p]),
{
    let m = n as int;
    let there = |p: int| crate::index::cell(f(p / m), g(p % m), m);
    assert forall|p: int| 0 <= p < n * n implies 0 <= #[trigger] there(p) < n * n && there(
        there(p),
    ) == p by {
        crate::index::lemma_cell_split(p, m, m);
        let (i, j) = (p / m, p % m);
        crate::index::lemma_cell_bound(f(i), g(j), m, m);
        let q = there(p);
        crate::index::lemma_cell_split(q, m, m);
        crate::index::lemma_cell_order(q / m, q % m, f(i), g(j), m);
    }
    let of_b = |p: int| b[p];
    let moved = |p: int| of_b(there(p));
    crate::sums::lemma_count_relabeled(n * n, of_b, there, there);
    let of_a = |p: int| a[p];
    assert forall|p: int| 0 <= p < n * n implies #[trigger] of_a(p) == moved(p) by {
        crate::index::lemma_cell_split(p, m, m);
        assert(a[crate::index::cell(p / m, p % m, m)] == b[crate::index::cell(
            f(p / m),
            g(p % m),
            m,
        )]);
    }
    crate::select::lemma_count_agree(n * n, of_a, moved);
}

/// Going to the inverse turns the role of a node around, in both directions.
proof fn lemma_inverse_roles(
    triples: Seq<(usize, usize, usize)>,
    num_relations: int,
    node: int,
)
    requires
        0 <= node < 2 * num_relations,
    ensures
        forall|e: usize, head: bool| #[trigger]
            plays(triples, num_relations, inverse_of(num_relations, node), e, head) == plays(
                triples,
                num_relations,
                node,
                e,
                !head,
            ),
{
    assert forall|e: usize, head: bool| #[trigger]
        plays(triples, num_relations, inverse_of(num_relations, node), e, head) == plays(
            triples,
            num_relations,
            node,
            e,
            !head,
        ) by {
        if node < num_relations {
            inverse_swaps_roles(triples, num_relations, node, e, head);
        } else {
            inverse_swaps_roles(triples, num_relations, node - num_relations, e, !head);
        }
    }
}

/// In the statistics of a relation graph all four interaction types have the
/// same number of edges. Tail-to-head and head-to-tail have the same number of
/// self-loops. Head-to-head and tail-to-tail have two for each relation that
/// some triple uses, one in each direction.
pub proof fn statistics_mirror_directions(
    triples: Seq<(usize, usize, usize)>,
    num_relations: nat,
    adjs: Seq<Adjacency>,
    s: RelationGraphStats,
)
    requires
        adjs.len() == 4,
        forall|kind: int|
            0 <= kind < 4 ==> is_interaction(
                triples,
                num_relations as int,
                kind,
                #[trigger] adjs[kind],
            ),
        is_stats(adjs, s),
    ensures
        s.edges_per_type@[T2H as int] == s.edges_per_type@[H2T as int],
        s.edges_per_type@[T2H as int] == s.edges_per_type@[H2H as int],
        s.edges_per_type@[H2H as int] == s.edges_per_type@[T2T as int],
        s.self_loops@[T2H as int] == s.self_loops@[H2T as int],
        s.self_loops@[H2H as int] == 2 * crate::select::count(
            num_relations,
            |r: int| is_used(triples, r),
        ),
        s.self_loops@[T2T as int] == s.self_loops@[H2H as int],
{
    let nr = num_relations as int;
    let n = 2 * num_relations;
    let m = n as int;
    assert(is_interaction(triples, nr, 0, adjs[0]));
    assert(is_interaction(triples, nr, 1, adjs[1]));
    assert(is_interaction(triples, nr, 2, adjs[2]));
    assert(is_interaction(triples, nr, 3, adjs[3]));
    let flip = |i: int| inverse_of(nr, i);
    let stay = |i: int| i;
    assert forall|i: int, j: int| 0 <= i < m && 0 <= j < m implies #[trigger] adjs[0].cells@[crate::index::cell(
        i,
        j,
        m,
    )] == adjs[1].cells@[crate::index::cell(flip(i), stay(j), m)] by {
        lemma_inverse_roles(triples, nr, i);
        lemma_same_links(triples, triples, nr, 0, 1, i, j, flip(i), j);
        assert(adjs[0].at(i, j) == adjs[1].at(flip(i), j));
    }
    lemma_flipped_cells(n, adjs[0].cells@, adjs[1].cells@, flip, stay);
    assert forall|i: int, j: int| 0 <= i < m && 0 <= j < m implies #[trigger] adjs[2].cells@[crate::index::cell(
        i,
        j,
        m,
    )] == adjs[1].cells@[crate::index::cell(stay(i), flip(j), m)] by {
        lemma_inverse_roles(triples, nr, j);
        lemma_same_links(triples, triples, nr, 2, 1, i, j, i, flip(j));
        assert(adjs[2].at(i, j) == adjs[1].at(i, flip(j)));
    }
    lemma_flipped_cells(n, adjs[2].cells@, adjs[1].cells@, stay, flip);
    assert forall|i: int, j: int| 0 <= i < m && 0 <= j < m implies #[trigger] adjs[3].cells@[crate::index::cell(
        i,
        j,
        m,
    )] == adjs[2].cells@[crate::index::cell(flip(i), stay(j), m)] by {
        lemma_inverse_roles(triples, nr, i);
        lemma_same_links(triples, triples, nr, 3, 2, i, j, flip(i), j);
        assert(adjs[3].at(i, j) == adjs[2].at(flip(i), j));
    }
    lemma_flipped_cells(n, adjs[3].cells@, adjs[2].cells@, flip, stay);
    let loops_0 = |i: int| set_at(adjs[0], m, i, i);
    let loops_1 = |i: int| set_at(adjs[1], m, i, i);
    let loops_2 = |i: int| set_at(adjs[2], m, i, i);
    let loops_3 = |i: int| set_at(adjs[3], m, i, i);
    assert forall|i: int| 0 <= i < n implies #[trigger] loops_0(i) == loops_2(i) by {
        interactions_transpose(triples, nr, i, i);
        assert(adjs[0].at(i, i) == adjs[2].at(i, i));
    }
    crate::select::lemma_count_agree(n, loops_0, loops_2);
    assert forall|i: int| 0 <= i < n implies #[trigger] loops_1(i) == is_used(
        triples,
        relation_of(nr, i),
    ) && loops_3(i) == loops_1(i) by {
        used_relations_interact(triples, nr, i);
        assert(adjs[1].at(i, i) == interacts(triples, nr, 1, i, i));
        assert(adjs[3].at(i, i) == interacts(triples, nr, 3, i, i));
    }
    crate::select::lemma_count_agree(n, loops_1, loops_3);
    let used = |r: int| is_used(triples, r);
    let inverse = |i: int| loops_1(num_relations + i);
    crate::select::lemma_count_split(num_relations, num_relations, loops_1);
    assert(num_relations + num_relations == n);
    crate::select::lemma_count_agree(num_relations, loops_1, used);
    assert forall|i: int| 0 <= i < num_relations implies #[trigger] inverse(i) == used(i) by {
        assert(loops_1(num_relations + i) == is_used(triples, relation_of(nr, num_relations + i)));
    }
    crate::select::lemma_count_agree(num_relations, inverse, used);
}

/// What a cell of a relation graph says of the triples. Take relations `r` and
/// `s`, each in its own direction or inverted. The cell of their nodes is set if
/// and only if some triple of `r` and some triple of `s` share an entity: where
/// the type starts at a tail, the tail of the first, or its head if `r` is
/// inverted; where it starts at a head, the other way round; and likewise for
/// where the type ends and the second. Types `0` to `3` are tail-to-head,
/// head-to-head, head-to-tail and tail-to-tail.
pub proof fn cells_by_triples(
    triples: Seq<(usize, usize, usize)>,
    num_relations: int,
    kind: int,
    m: Adjacency,
    r: int,
    s: int,
    r_inverted: bool,
    s_inverted: bool,
)
    requires
        is_interaction(triples, num_relations, kind, m),
        0 <= kind < 4,
        0 <= r < num_relations,
        0 <= s < num_relations,
    ensures
        m.nodes == 2 * num_relations,
        m.cells@.len() == (2 * num_relations) * (2 * num_relations),
        ({
            let a = if r_inverted {
                r + num_relations
            } else {
                r
            };
            let b = if s_inverted {
                s + num_relations
            } else {
                s
            };
            let at_head = (kind == 1 || kind == 2) != r_inverted;
            let to_head = (kind == 0 || kind == 1) != s_inverted;
            m.cells@[a * (2 * num_relations) + b] <==> exists|i: int, j: int|
                0 <= i < triples.len() && 0 <= j < triples.len() && (#[trigger] triples[i]).1 == r
                    && (#[trigger] triples[j]).1 == s && (if at_head {
                    triples[i].0
                } else {
                    triples[i].2
                }) == (if to_head {
                    triples[j].0
                } else {
                    triples[j].2
                })
        }),
{
    let nr = num_relations;
    let a = if r_inverted {
        r + nr
    } else {
        r
    };
    let b = if s_inverted {
        s + nr
    } else {
        s
    };
    let at_head = (kind == 1 || kind == 2) != r_inverted;
    let ends_at_head = (kind == 0 || kind == 1) != s_inverted;
    assert(m.at(a, b) == interacts(triples, nr, kind, a, b));
    if interacts(triples, nr, kind, a, b) {
        let e = choose|e: usize| links(triples, nr, kind, a, b, e);
        let i = choose|i: int|
            0 <= i < triples.len() && triple_role(
                #[trigger] triples[i],
                nr,
                a,
                e,
                from_head(kind),
            );
        let j = choose|j: int|
            0 <= j < triples.len() && triple_role(#[trigger] triples[j], nr, b, e, to_head(kind));
        assert(triples[i].1 == r && triples[j].1 == s);
    }
    if exists|i: int, j: int|
        0 <= i < triples.len() && 0 <= j < triples.len() && (#[trigger] triples[i]).1 == r && (
        #[trigger] triples[j]).1 == s && (if at_head {
            triples[i].0
        } else {
            triples[i].2
        }) == (if ends_at_head {
            triples[j].0
        } else {
            triples[j].2
        }) {
        let (i, j) = choose|i: int, j: int|
            0 <= i < triples.len() && 0 <= j < triples.len() && (#[trigger] triples[i]).1 == r && (
            #[trigger] triples[j]).1 == s && (if at_head {
                triples[i].0
            } else {
                triples[i].2
            }) == (if ends_at_head {
                triples[j].0
            } else {
                triples[j].2
            });
        let e = if at_head {
            triples[i].0
        } else {
            triples[i].2
        };
        assert(triple_role(triples[i], nr, a, e, from_head(kind)));
        assert(triple_role(triples[j], nr, b, e, to_head(kind)));
        assert(links(triples, nr, kind, a, b, e));
    }
}

/// What the statistics count, on the cells of any stack: the edges of a type are
/// its set cells among the first `nodes * nodes`, its self-loops those on the
/// diagonal, and a node is isolated if in no type its row or its column holds a
/// set cell.
pub proof fn statistics_by_cells(adjs: Seq<Adjacency>, s: RelationGraphStats, k: int)
    requires
        adjs.len() == 4,
        is_stats(adjs, s),
        0 <= k < 4,
    ensures
        s.nodes == adjs[0].nodes,
        s.edges_per_type@[k] == Set::new(
            |p: int| 0 <= p < s.nodes * s.nodes && adjs[k].cells@[p],
        ).len(),
        s.self_loops@[k] == Set::new(
            |i: int| 0 <= i < s.nodes && adjs[k].cells@[i * s.nodes + i],
        ).len(),
        s.isolated_nodes == Set::new(
            |i: int|
                0 <= i < s.nodes && (forall|t: int, j: int|
                    0 <= t < 4 && 0 <= j < s.nodes ==> !#[trigger] adjs[t].cells@[i * s.nodes + j])
                    && (forall|t: int, j: int|
                    0 <= t < 4 && 0 <= j < s.nodes ==> !#[trigger] adjs[t].cells@[j * s.nodes + i]),
        ).len(),
{
    let n = s.nodes as nat;
    let m = n as int;
    let set_cell = |p: int| adjs[k].cells@[p];
    crate::select::count_is_cardinality(n * n, set_cell);
    assert(Set::new(|p: int| 0 <= p < n * n && set_cell(p)) =~= Set::new(
        |p: int| 0 <= p < s.nodes * s.nodes && adjs[k].cells@[p],
    ));
    let on_diagonal = |i: int| set_at(adjs[k], m, i, i);
    crate::select::count_is_cardinality(n, on_diagonal);
    assert(Set::new(|i: int| 0 <= i < n && on_diagonal(i)) =~= Set::new(
        |i: int| 0 <= i < s.nodes && adjs[k].cells@[i * s.nodes + i],
    ));
    let alone = |i: int| !touched(adjs, m, i);
    crate::select::count_is_cardinality(n, alone);
    let untouched = |i: int|
        0 <= i < s.nodes && (forall|t: int, j: int|
            0 <= t < 4 && 0 <= j < s.nodes ==> !#[trigger] adjs[t].cells@[i * s.nodes + j]) && (
        forall|t: int, j: int|
            0 <= t < 4 && 0 <= j < s.nodes ==> !#[trigger] adjs[t].cells@[j * s.nodes + i]);
    assert forall|i: int| 0 <= i < n implies #[trigger] alone(i) == untouched(i) by {
        if alone(i) {
            assert forall|t: int, j: int| 0 <= t < 4 && 0 <= j < s.nodes implies !#[trigger] adjs[t].cells@[i
                * s.nodes + j] by {
                if joined(adjs[t], m, i, j) {
                    assert(touches_node(adjs[t], m, i));
                }
            }
            assert forall|t: int, j: int| 0 <= t < 4 && 0 <= j < s.nodes implies !#[trigger] adjs[t].cells@[j
                * s.nodes + i] by {
                if joined(adjs[t], m, i, j) {
                    assert(touches_node(adjs[t], m, i));
                }
            }
        }
        if untouched(i) && touched(adjs, m, i) {
            let t = choose|t: int| 0 <= t < adjs.len() && touches_node(#[trigger] adjs[t], m, i);
            let j = choose|j: int| 0 <= j < m && joined(adjs[t], m, i, j);
            assert(!adjs[t].cells@[i * s.nodes + j]);
            assert(!adjs[t].cells@[j * s.nodes + i]);
        }
    }
    assert(Set::new(|i: int| 0 <= i < n && alone(i)) =~= Set::new(untouched));
}

} // verus!
