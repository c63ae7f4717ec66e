//! Homomorphism-count features.
use ricci::features::{assemble, hom_profile, Features};
use ricci::ieee::{Double, Single};
use ricci::matrix::Matrix;

fn matrix(n: usize, edges: &[(usize, usize)]) -> Matrix {
    let mut m = Matrix::zeros(n, n);
    for &(i, j) in edges {
        m.set(i, j, Double::one());
        m.set(j, i, Double::one());
    }
    m
}

fn at(f: &Features, v: usize, j: usize) -> f32 {
    f32::from_bits(f.get(v, j).bits)
}

fn cycle(n: usize) -> Vec<(usize, usize)> {
    (0..n).map(|v| (v, (v + 1) % n)).collect()
}

#[test]
fn triangle_profile_matches_hand_computation() {
    let f = hom_profile(&matrix(3, &cycle(3)), 2);
    assert_eq!((f.nodes, f.width), (3, 4));
    for v in 0..3 {
        assert_eq!(at(&f, v, 0), 2.0, "degree");
        assert_eq!(at(&f, v, 1), 4.0, "walks-2");
        assert_eq!(at(&f, v, 2), 2.0, "closed-3");
        assert_eq!(at(&f, v, 3), 6.0, "closed-4");
    }
}

#[test]
fn cycle_counts_separate_wl_indistinguishable_graphs() {
    let c6 = matrix(6, &cycle(6));
    let two_triangles = matrix(6, &[(0, 1), (1, 2), (2, 0), (3, 4), (4, 5), (5, 3)]);
    let f6 = hom_profile(&c6, 2);
    let ft = hom_profile(&two_triangles, 2);
    for v in 0..6 {
        // Identical walk profiles (both 2-regular)...
        assert_eq!(at(&f6, v, 0), at(&ft, v, 0));
        assert_eq!(at(&f6, v, 1), at(&ft, v, 1));
        // ...separated by triangle counts.
        assert_eq!(at(&f6, v, 2), 0.0);
        assert_eq!(at(&ft, v, 2), 2.0);
    }
}

#[test]
fn weights_do_not_enter_the_counts() {
    let plain = matrix(4, &[(0, 1), (1, 2), (2, 3), (1, 3)]);
    let mut weighted = plain.clone();
    for (i, j, w) in [(0, 1, 0.25f64), (1, 0, 7.0), (1, 2, 1e-300), (3, 1, f64::INFINITY)] {
        weighted.set(i, j, Double { bits: w.to_bits() });
    }
    assert_eq!(hom_profile(&plain, 3), hom_profile(&weighted, 3));
    // Negative weights and NaNs are no edges.
    let mut odd = plain.clone();
    odd.set(0, 3, Double { bits: (-1.0f64).to_bits() });
    odd.set(3, 0, Double { bits: f64::NAN.to_bits() });
    assert_eq!(hom_profile(&plain, 3), hom_profile(&odd, 3));
}

#[test]
fn regular_graphs_have_power_walk_counts() {
    // The complete graph on five nodes is 4-regular.
    let mut edges = Vec::new();
    for i in 0..5 {
        for j in 0..i {
            edges.push((i, j));
        }
    }
    let f = hom_profile(&matrix(5, &edges), 6);
    for v in 0..5 {
        for len in 1..=6usize {
            assert_eq!(at(&f, v, len - 1), 4.0f32.powi(len as i32));
        }
    }
}

#[test]
fn star_counts_by_hand() {
    // Center 0 with leaves 1, 2, 3: two-colorable, so no closed walks of length three.
    let f = hom_profile(&matrix(4, &[(0, 1), (0, 2), (0, 3)]), 2);
    assert_eq!([at(&f, 0, 0), at(&f, 0, 1), at(&f, 0, 2), at(&f, 0, 3)], [3.0, 3.0, 0.0, 9.0]);
    assert_eq!([at(&f, 1, 0), at(&f, 1, 1), at(&f, 1, 2), at(&f, 1, 3)], [1.0, 3.0, 0.0, 3.0]);
}

#[test]
fn closed_walks_never_exceed_walks() {
    let f = hom_profile(&matrix(5, &[(0, 1), (1, 2), (2, 0), (2, 3), (3, 4)]), 4);
    for v in 0..5 {
        assert!(at(&f, v, 4) <= at(&f, v, 2));
        assert!(at(&f, v, 5) <= at(&f, v, 3));
    }
}

#[test]
fn relabeled_graphs_carry_their_counts_along() {
    let edges = [(0, 1), (1, 2), (2, 0), (2, 3), (3, 4)];
    let there = [3usize, 0, 4, 2, 1];
    let moved: Vec<(usize, usize)> = edges.iter().map(|&(i, j)| (there[i], there[j])).collect();
    let f = hom_profile(&matrix(5, &edges), 3);
    let g = hom_profile(&matrix(5, &moved), 3);
    for v in 0..5 {
        for j in 0..5 {
            assert_eq!(at(&f, v, j), at(&g, there[v], j));
        }
    }
}

#[test]
fn directed_edges_count_one_way() {
    let mut m = Matrix::zeros(3, 3);
    m.set(0, 1, Double::one());
    m.set(1, 2, Double::one());
    m.set(2, 0, Double::one());
    let f = hom_profile(&m, 1);
    for v in 0..3 {
        assert_eq!([at(&f, v, 0), at(&f, v, 1), at(&f, v, 2)], [1.0, 1.0, 0.0]);
    }
}

#[test]
fn profile_without_walks_or_nodes() {
    let f = hom_profile(&matrix(3, &cycle(3)), 0);
    assert_eq!((f.nodes, f.width), (3, 2));
    assert_eq!([at(&f, 0, 0), at(&f, 0, 1)], [2.0, 6.0]);
    let none = hom_profile(&Matrix::zeros(0, 0), 2);
    assert_eq!((none.nodes, none.width, none.cells.len()), (0, 4, 0));
}

#[test]
fn columns_beyond_the_nodes_lead_nowhere() {
    let mut m = Matrix::zeros(2, 3);
    m.set(0, 1, Double::one());
    m.set(0, 2, Double::one());
    m.set(1, 0, Double::one());
    let f = hom_profile(&m, 2);
    assert_eq!([at(&f, 0, 0), at(&f, 0, 1)], [1.0, 1.0]);
}

#[test]
fn large_counts_round_as_the_hardware_does() {
    // Complete graph on 40 nodes: 39^len grows past both formats' exact range.
    let mut edges = Vec::new();
    for i in 0..40 {
        for j in 0..i {
            edges.push((i, j));
        }
    }
    let f = hom_profile(&matrix(40, &edges), 30);
    for len in 1..=30usize {
        let mut exact = 1.0f64;
        for _ in 0..len {
            let mut sum = 0.0;
            for _ in 0..39 {
                sum += exact;
            }
            exact = sum;
        }
        assert_eq!(at(&f, 7, len - 1), exact as f32);
    }
    assert_eq!(at(&f, 0, 29), f32::INFINITY);
}

#[test]
fn assembled_counts_are_rounded_to_nearest_even() {
    let wide: Vec<f64> = vec![
        0.0,
        1.0,
        3.0,
        16777215.0,
        16777216.0,
        16777217.0,
        16777219.0,
        1e20,
        3.4028235677973366e38,
        3.4028235677973362e38,
        1e300,
        f64::INFINITY,
    ];
    let column: Vec<u64> = wide.iter().map(|x| x.to_bits()).collect();
    let f = assemble(wide.len(), &vec![column.clone(), column]);
    for (v, x) in wide.iter().enumerate() {
        assert_eq!(f.get(v, 0), Single { bits: (*x as f32).to_bits() }, "{x}");
        assert_eq!(f.get(v, 1), f.get(v, 0));
    }
}

#[test]
fn walks_continue_from_the_neighbors() {
    let edges = [(0, 1), (1, 2), (2, 0), (2, 3), (3, 4)];
    let m = matrix(5, &edges);
    let f = hom_profile(&m, 4);
    for v in 0..5 {
        for len in 2..=4usize {
            let sum: f32 = m.neighbors(v).iter().map(|&u| at(&f, u, len - 2)).sum();
            assert_eq!(at(&f, v, len - 1), sum);
        }
        assert_eq!(at(&f, v, 0), m.neighbors(v).len() as f32);
    }
}
