//! The relational graph convolution on plain matrices.
use ricci::nn::{RGCNConv, Transform};

type Mat = Vec<Vec<f32>>;

fn matmul(a: &Mat, b: &Mat) -> Mat {
    a.iter()
        .map(|row| {
            (0..b[0].len()).map(|j| row.iter().zip(b).map(|(x, y)| x * y[j]).sum()).collect()
        })
        .collect()
}

fn plus(a: Mat, b: Mat) -> Mat {
    a.iter().zip(&b).map(|(p, q)| p.iter().zip(q).map(|(x, y)| x + y).collect()).collect()
}

fn unit(n: usize, cells: &[(usize, usize)]) -> Mat {
    let mut m = vec![vec![0.0; n]; n];
    for &(i, j) in cells {
        m[i][j] = 1.0;
    }
    m
}

fn weights(d: usize, seed: usize) -> Mat {
    (0..d).map(|i| (0..d).map(|j| ((i * d + j + seed * 7) % 5) as f32 - 2.0).collect()).collect()
}

fn forward(layer: &RGCNConv, x: &Mat, adjs: &[Mat], rel: &[Mat], self_loop: &Mat) -> Mat {
    assert_eq!(adjs.len(), layer.num_relations(), "one adjacency per relation");
    let message = |t: Transform| {
        let relation = match t {
            Transform::Own { relation } => relation,
            Transform::Mixed { relation, .. } => relation,
        };
        matmul(&adjs[relation], &matmul(x, &rel[relation]))
    };
    layer.forward(matmul(x, self_loop), adjs.len(), message, plus)
}

#[test]
fn rgcn_distinguishes_relations() {
    let (n, d) = (4, 3);
    let layer = RGCNConv::init(d, d, 2);
    let x: Mat = (0..n).map(|i| (0..d).map(|j| (i * d + j) as f32 / 5.0).collect()).collect();
    let a = unit(n, &[(0, 1)]);
    let b = unit(n, &[(0, 2)]);
    let rel = [weights(d, 1), weights(d, 2)];
    let s = weights(d, 3);
    let fwd = forward(&layer, &x, &[a.clone(), b.clone()], &rel, &s);
    let swp = forward(&layer, &x, &[b, a], &rel, &s);
    let diff: f32 = fwd
        .iter()
        .flatten()
        .zip(swp.iter().flatten())
        .map(|(p, q)| (p - q).abs())
        .sum();
    assert!(diff > 1e-4, "relation swap must change the output: {diff}");
}

#[test]
fn rgcn_zero_relations_is_self_loop() {
    let (n, d) = (3, 2);
    let layer = RGCNConv::init(d, d, 0);
    let x: Mat = vec![vec![0.3; d]; n];
    let s = weights(d, 1);
    assert_eq!(forward(&layer, &x, &[], &[], &s), matmul(&x, &s));
}

#[test]
fn rgcn_basis_decomposition() {
    let (n, d, r, nb) = (4, 3, 6, 2);
    let layer = RGCNConv::with_bases(d, d, r, nb);
    assert_eq!(layer.num_relations(), r);
    assert_eq!(layer.rel, 0);
    assert_eq!(layer.basis, Some([nb, d, d]));
    assert_eq!(layer.coef, Some([r, nb]));
    let x: Mat = vec![vec![0.2; d]; n];
    let eye = unit(n, &(0..n).map(|i| (i, i)).collect::<Vec<_>>());
    let adjs: Vec<Mat> = (0..r).map(|_| eye.clone()).collect();
    let rel: Vec<Mat> = (0..r).map(|k| weights(d, k)).collect();
    let y = forward(&layer, &x, &adjs, &rel, &weights(d, 9));
    assert_eq!([y.len(), y[0].len()], [n, d]);
    // Shared bases: 2 * d * d + coefficients 6 * 2 < full 6 * d * d.
    assert!(nb * d * d + r * nb < r * d * d);
}

#[test]
fn messages_are_added_in_the_order_of_relations() {
    let layer = RGCNConv::init(1, 1, 3);
    let message = |t: Transform| match t {
        Transform::Own { relation } => format!("m{relation}"),
        Transform::Mixed { .. } => unreachable!(),
    };
    let out = layer.forward(format!("s"), 3, message, |a: String, b: String| format!("({a}+{b})"));
    assert_eq!(out, "(((s+m0)+m1)+m2)");
}

#[test]
fn mixed_transforms_carry_the_shape_of_their_matrix() {
    let layer = RGCNConv::with_bases(2, 5, 3, 4);
    let message = |t: Transform| vec![t];
    let join = |mut a: Vec<Transform>, b: Vec<Transform>| {
        a.extend(b);
        a
    };
    let out = layer.forward(Vec::new(), 3, message, join);
    let expected: Vec<Transform> =
        (0..3).map(|relation| Transform::Mixed { relation, d_in: 2, d_out: 5 }).collect();
    assert_eq!(out, expected);
}

#[test]
fn relation_count_comes_from_the_coefficients() {
    assert_eq!(RGCNConv::init(3, 3, 7).num_relations(), 7);
    assert_eq!(RGCNConv::with_bases(3, 3, 9, 2).num_relations(), 9);
}

#[test]
fn relations_without_edges_leave_the_self_loop() {
    let (n, d) = (3, 2);
    let x: Mat = vec![vec![0.3; d]; n];
    let s = weights(d, 1);
    let rel = [weights(d, 2), weights(d, 3)];
    let empty = unit(n, &[]);
    for layer in [RGCNConv::init(d, d, 2), RGCNConv::with_bases(d, d, 2, 1)] {
        let y = forward(&layer, &x, &[empty.clone(), empty.clone()], &rel, &s);
        assert_eq!(y, matmul(&x, &s));
    }
}
