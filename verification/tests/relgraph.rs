//! The graph of relations.
use ricci::relgraph::{
    interaction_stats, relation_graph, Adjacency, RelationGraphStats, H2H, H2T, T2H, T2T,
};

fn at(m: &Adjacency, i: usize, j: usize) -> f32 {
    if m.get(i, j) {
        1.0
    } else {
        0.0
    }
}

#[test]
fn chained_triples_interactions_by_hand() {
    let triples = [(0usize, 0usize, 1usize), (1, 1, 2)];
    let [t2h, h2h, h2t, t2t] = relation_graph(&triples, 2);
    // Entity 1: tails = {r0, r1_inv=3}, heads = {r1, r0_inv=2}.
    assert_eq!(at(&t2h, 0, 1), 1.0, "tail of r0 is head of r1");
    assert_eq!(at(&t2h, 0, 2), 1.0, "tail of r0 is head of r0_inv");
    assert_eq!(at(&h2h, 1, 2), 1.0, "r1 and r0_inv share head 1");
    assert_eq!(at(&t2t, 0, 3), 1.0, "r0 and r1_inv share tail 1");
    assert_eq!(at(&h2t, 1, 0), 1.0, "head of r1 is tail of r0");
    // No interaction between r0 and r1 via heads: entity 0 is head of
    // r0 (and tail of r0_inv) only.
    assert_eq!(at(&h2h, 0, 1), 0.0);
    // Roles are direction-aware: r1's tail set {2} never meets r0.
    assert_eq!(at(&t2h, 1, 0), 0.0);
}

#[test]
fn stats_flag_isolated_relations() {
    let triples = [(0usize, 0usize, 1usize), (1, 1, 2)];
    let g = relation_graph(&triples, 2);
    let s = interaction_stats(&g);
    assert_eq!(s.nodes, 4);
    assert_eq!(s.isolated_nodes, 0);
    assert!(s.edges_per_type.iter().sum::<usize>() > 0);

    // Declare 3 relations but only use 2: r2 and r2_inv are isolated.
    let g = relation_graph(&triples, 3);
    let s = interaction_stats(&g);
    assert_eq!(s.nodes, 6);
    assert_eq!(s.isolated_nodes, 2, "unused relation + its inverse");
}

#[test]
fn relation_renaming_permutes_consistently() {
    let orig = [(0usize, 0usize, 1usize), (1, 1, 2), (2, 0, 3)];
    let renamed: Vec<_> = orig.iter().map(|&(h, r, t)| (h, 1 - r, t)).collect();
    let a = relation_graph(&orig, 2);
    let b = relation_graph(&renamed, 2);
    // Permutation on 4 nodes: 0<->1 and inverses 2<->3.
    let p = [1usize, 0, 3, 2];
    for k in 0..4 {
        for i in 0..4 {
            for j in 0..4 {
                assert_eq!(
                    at(&a[k], i, j),
                    at(&b[k], p[i], p[j]),
                    "matrix {k} cell ({i},{j}) must permute"
                );
            }
        }
    }
}

#[test]
fn renaming_entities_changes_nothing() {
    let orig = [(0usize, 0usize, 1usize), (1, 1, 2), (2, 0, 3)];
    let names = [usize::MAX, 17, 1 << 40, 3];
    let renamed: Vec<_> = orig.iter().map(|&(h, r, t)| (names[h], r, names[t])).collect();
    assert_eq!(relation_graph(&orig, 2), relation_graph(&renamed, 2));
}

#[test]
fn triples_of_unknown_relations_are_ignored() {
    let with = [(0usize, 0usize, 1usize), (1, 2, 2), (5, usize::MAX, 1), (1, 1, 2)];
    let without = [(0usize, 0usize, 1usize), (1, 1, 2)];
    assert_eq!(relation_graph(&with, 2), relation_graph(&without, 2));
}

#[test]
fn opposite_interactions_are_transposes() {
    let triples = [(0usize, 0usize, 1usize), (1, 1, 2), (2, 2, 0), (0, 2, 0)];
    let g = relation_graph(&triples, 3);
    for i in 0..6 {
        for j in 0..6 {
            assert_eq!(g[T2H].get(i, j), g[H2T].get(j, i));
            assert_eq!(g[H2H].get(i, j), g[H2H].get(j, i));
            assert_eq!(g[T2T].get(i, j), g[T2T].get(j, i));
            // Inverting both ends swaps heads with tails.
            let (x, y) = ((i + 3) % 6, (j + 3) % 6);
            assert_eq!(g[T2H].get(i, j), g[H2T].get(x, y));
            assert_eq!(g[H2H].get(i, j), g[T2T].get(x, y));
        }
    }
}

#[test]
fn composable_relation_has_a_loop() {
    // The tail 1 of the first triple is the head of the second, same relation.
    let g = relation_graph(&[(0, 0, 1), (1, 0, 2)], 1);
    assert!(g[T2H].get(0, 0));
    let s = interaction_stats(&g);
    assert_eq!(
        s,
        RelationGraphStats {
            edges_per_type: [4, 4, 4, 4],
            isolated_nodes: 0,
            self_loops: [2, 2, 2, 2],
            nodes: 2,
        }
    );
}

#[test]
fn single_triple_counted_by_hand() {
    // Heads: 0 of r, 1 of r_inv. Tails: 1 of r, 0 of r_inv.
    let g = relation_graph(&[(0, 0, 1)], 1);
    let s = interaction_stats(&g);
    assert_eq!(s.edges_per_type, [2, 2, 2, 2]);
    assert_eq!(s.self_loops, [0, 2, 0, 2]);
    assert!(g[T2H].get(0, 1) && g[T2H].get(1, 0));
    assert!(g[H2H].get(0, 0) && g[H2H].get(1, 1));
}

#[test]
fn no_relations_no_nodes() {
    let g = relation_graph(&[(0, 0, 1)], 0);
    let s = interaction_stats(&g);
    assert_eq!((s.nodes, s.isolated_nodes), (0, 0));
    assert_eq!(s.edges_per_type, [0; 4]);
    let g = relation_graph(&[], 2);
    let s = interaction_stats(&g);
    assert_eq!((s.nodes, s.isolated_nodes), (4, 4));
}

#[test]
fn statistics_mirror_the_directions() {
    let triples = [(0usize, 0usize, 1usize), (1, 1, 2), (2, 0, 3), (3, 3, 3), (1, 9, 1)];
    let s = interaction_stats(&relation_graph(&triples, 4));
    assert_eq!(s.edges_per_type[T2H], s.edges_per_type[H2T]);
    assert_eq!(s.edges_per_type[T2H], s.edges_per_type[H2H]);
    assert_eq!(s.edges_per_type[H2H], s.edges_per_type[T2T]);
    assert_eq!(s.self_loops[T2H], s.self_loops[H2T]);
    // Relations 0, 1 and 3 are used.
    assert_eq!((s.self_loops[H2H], s.self_loops[T2T]), (6, 6));
    assert_eq!(s.isolated_nodes, 2);
}
