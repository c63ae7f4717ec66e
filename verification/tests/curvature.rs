//! Edge curvature with the walk measures of `lapl` and the transport of `wass`.
use lapl::transition_matrix;
use ndarray::{Array1, Array2};
use ricci::curvature::{
    check_input, masses, ollivier_ricci_curvatures, CurvatureConfig, CurvatureError, EdgeCurvature,
    TransportProblem,
};
use ricci::hops::{hop_table, neighbor_lists};
use ricci::ieee::{Double, Single};
use ricci::matrix::Matrix;
use wass::sinkhorn_log;

fn double(x: f64) -> Double {
    Double { bits: x.to_bits() }
}

fn value(x: Single) -> f32 {
    f32::from_bits(x.bits)
}

fn matrix(a: &Array2<f64>) -> Matrix {
    Matrix { rows: a.nrows(), cols: a.ncols(), cells: a.iter().map(|&x| double(x)).collect() }
}

fn dense(rows: &[&[f64]]) -> Array2<f64> {
    let cols = rows[0].len();
    Array2::from_shape_fn((rows.len(), cols), |(i, j)| rows[i][j])
}

fn mirrored(adj: &Array2<f64>) -> Vec<bool> {
    let mut agrees = Vec::new();
    if adj.nrows() == adj.ncols() {
        for i in 0..adj.nrows() {
            for j in 0..adj.ncols() {
                let (w, back) = (adj[[i, j]], adj[[j, i]]);
                agrees.push(!((w - back).abs() > 1e-9 * w.abs().max(1.0)));
            }
        }
    }
    agrees
}

fn lazy_measures(adj: &Array2<f64>, alpha: f64) -> Array2<f64> {
    let mut mu = transition_matrix(adj) * (1.0 - alpha);
    for x in 0..adj.nrows() {
        mu[[x, x]] += alpha;
    }
    mu
}

fn config(alpha: f64) -> CurvatureConfig {
    let mut c = CurvatureConfig::default();
    c.alpha = double(alpha);
    c
}

fn curvatures(
    adj: &Array2<f64>,
    config: &CurvatureConfig,
) -> Result<Vec<EdgeCurvature>, CurvatureError> {
    let alpha = f64::from_bits(config.alpha.bits);
    let agrees = mirrored(adj);
    let plain = matrix(adj);
    let mu = if check_input(&plain, &config.alpha, &agrees).is_ok() {
        lazy_measures(adj, alpha)
    } else {
        Array2::zeros((0, 0))
    };
    let solve = |problem: &TransportProblem| {
        let m = problem.support.len();
        let narrowed = |mass: &[Double]| {
            Array1::from_iter(mass.iter().map(|x| f64::from_bits(x.bits) as f32))
        };
        let (a, b) = (narrowed(&problem.source), narrowed(&problem.target));
        let cost = Array2::from_shape_fn((m, m), |(i, j)| problem.cost[i * m + j] as f32);
        let (_, w1) = sinkhorn_log(&a, &b, &cost, value(problem.reg), problem.max_iter);
        Single { bits: (1.0 - w1).to_bits() }
    };
    ollivier_ricci_curvatures(&plain, config, &agrees, &matrix(&mu), solve)
}

fn kappa_of(kappas: &[EdgeCurvature], u: usize, v: usize) -> f32 {
    let found = kappas.iter().find(|e| (e.u, e.v) == (u.min(v), u.max(v)));
    value(found.expect("edge present").kappa)
}

fn triangle() -> Array2<f64> {
    dense(&[&[0., 1., 1.], &[1., 0., 1.], &[1., 1., 0.]])
}

fn double_star() -> Array2<f64> {
    let mut adj = Array2::zeros((6, 6));
    for &(i, j) in &[(1usize, 2usize), (1, 0), (1, 4), (2, 3), (2, 5)] {
        adj[[i, j]] = 1.0;
        adj[[j, i]] = 1.0;
    }
    adj
}

#[test]
fn triangle_edges_curve_positively() {
    let kappas = curvatures(&triangle(), &CurvatureConfig::default()).unwrap();
    assert_eq!(kappas.len(), 3);
    for e in &kappas {
        assert!((value(e.kappa) - 0.5).abs() < 0.05, "kappa {}", value(e.kappa));
    }
}

#[test]
fn four_cycle_edges_are_flat() {
    let adj = dense(&[
        &[0., 1., 0., 1.],
        &[1., 0., 1., 0.],
        &[0., 1., 0., 1.],
        &[1., 0., 1., 0.],
    ]);
    let kappas = curvatures(&adj, &CurvatureConfig::default()).unwrap();
    assert_eq!(kappas.len(), 4);
    for e in &kappas {
        assert!(value(e.kappa).abs() < 0.05, "kappa {}", value(e.kappa));
    }
}

#[test]
fn double_star_bridge_curves_negatively() {
    let kappas = curvatures(&double_star(), &CurvatureConfig::default()).unwrap();
    let bridge = kappa_of(&kappas, 1, 2);
    assert!((bridge - (-2.0 / 3.0)).abs() < 0.05, "bridge {bridge}");
    for e in &kappas {
        if (e.u, e.v) != (1, 2) {
            assert!(value(e.kappa) > bridge, "bridge should be the most negative");
        }
    }
}

#[test]
fn full_laziness_zeroes_curvature() {
    for e in &curvatures(&triangle(), &config(1.0)).unwrap() {
        assert!(value(e.kappa).abs() < 0.05, "kappa {}", value(e.kappa));
    }
}

#[test]
fn rejects_bad_inputs() {
    let rect = Array2::<f64>::zeros((2, 3));
    assert_eq!(
        curvatures(&rect, &CurvatureConfig::default()),
        Err(CurvatureError::NotSquare)
    );
    let asym = dense(&[&[0., 1.], &[0., 0.]]);
    assert_eq!(
        curvatures(&asym, &CurvatureConfig::default()),
        Err(CurvatureError::NotSymmetric)
    );
    let neg = dense(&[&[0., -1.], &[-1., 0.]]);
    assert_eq!(
        curvatures(&neg, &CurvatureConfig::default()),
        Err(CurvatureError::InvalidWeight)
    );
    let adj = dense(&[&[0., 1.], &[1., 0.]]);
    assert_eq!(curvatures(&adj, &config(1.5)), Err(CurvatureError::InvalidAlpha));
}

#[test]
fn first_fault_in_reading_order_is_reported() {
    // Shape comes before alpha.
    let rect = Array2::<f64>::zeros((2, 3));
    assert_eq!(curvatures(&rect, &config(2.0)), Err(CurvatureError::NotSquare));
    // Alpha comes before the weights.
    let neg = dense(&[&[0., -1.], &[-1., 0.]]);
    assert_eq!(curvatures(&neg, &config(-0.5)), Err(CurvatureError::InvalidAlpha));
    assert_eq!(curvatures(&neg, &config(f64::NAN)), Err(CurvatureError::InvalidAlpha));
    // The asymmetric pair in row zero is read before the infinity in row two.
    let both = dense(&[&[0., 1., 0.], &[0., 0., 0.], &[0., 0., f64::INFINITY]]);
    assert_eq!(
        curvatures(&both, &CurvatureConfig::default()),
        Err(CurvatureError::NotSymmetric)
    );
    let nan = dense(&[&[f64::NAN]]);
    assert_eq!(
        curvatures(&nan, &CurvatureConfig::default()),
        Err(CurvatureError::InvalidWeight)
    );
}

#[test]
fn bounds_of_laziness_are_accepted() {
    let adj = dense(&[&[0., 1.], &[1., 0.]]);
    assert!(curvatures(&adj, &config(0.0)).is_ok());
    assert!(curvatures(&adj, &config(-0.0)).is_ok());
    assert!(curvatures(&adj, &config(1.0)).is_ok());
    let above = f64::from_bits(1.0f64.to_bits() + 1);
    assert_eq!(curvatures(&adj, &config(above)), Err(CurvatureError::InvalidAlpha));
}

#[test]
fn edges_come_row_by_row_without_loops() {
    let mut adj = double_star();
    adj[[3, 3]] = 2.0;
    let kappas = curvatures(&adj, &CurvatureConfig::default()).unwrap();
    let pairs: Vec<(usize, usize)> = kappas.iter().map(|e| (e.u, e.v)).collect();
    assert_eq!(pairs, vec![(0, 1), (1, 2), (1, 4), (2, 3), (2, 5)]);
}

#[test]
fn empty_graph_has_no_curvatures() {
    let none = Array2::<f64>::zeros((0, 0));
    assert_eq!(curvatures(&none, &CurvatureConfig::default()), Ok(vec![]));
    let isolated = Array2::<f64>::zeros((3, 3));
    assert_eq!(curvatures(&isolated, &CurvatureConfig::default()), Ok(vec![]));
}

#[test]
fn transport_problems_hold_support_and_hop_costs() {
    let adj = double_star();
    let agrees = mirrored(&adj);
    let mu = lazy_measures(&adj, 0.0);
    let solve = |problem: &TransportProblem| {
        if (problem.u, problem.v) == (1, 2) {
            assert_eq!(problem.support, vec![0, 1, 2, 3, 4, 5]);
            // From leaf 0 to leaf 5 across the bridge: three hops, the most there are.
            assert_eq!(problem.cost[5], 3);
            assert_eq!(problem.cost[0], 0);
            assert_eq!(problem.cost[6 + 2], 1);
            assert!(problem.cost.iter().all(|&c| c <= 3));
            // A third on each neighbor of the hub, in the order of the support.
            let third = double(1.0 / 3.0);
            let none = double(0.0);
            assert_eq!(problem.source, vec![third, none, third, none, third, none]);
            assert_eq!(problem.target, vec![none, third, none, third, none, third]);
            assert_eq!(value(problem.reg), 0.01);
            assert_eq!(problem.max_iter, 500);
        } else if (problem.u, problem.v) == (0, 1) {
            assert_eq!(problem.support, vec![0, 1, 2, 4]);
        }
        Single { bits: problem.u as u32 }
    };
    let r = ollivier_ricci_curvatures(
        &matrix(&adj),
        &CurvatureConfig::default(),
        &agrees,
        &matrix(&mu),
        solve,
    )
    .unwrap();
    for e in &r {
        assert_eq!(e.kappa.bits, e.u as u32);
    }
}

#[test]
fn unreachable_nodes_cost_the_most() {
    // A measure with mass on a node that no walk reaches.
    let adj = dense(&[&[0., 1., 0.], &[1., 0., 0.], &[0., 0., 0.]]);
    let mu = dense(&[&[0., 0.5, 0.5], &[1., 0., 0.], &[0., 0., 1.]]);
    let solve = |problem: &TransportProblem| {
        assert_eq!(problem.support, vec![0, 1, 2]);
        let far = usize::MAX;
        assert_eq!(problem.cost, vec![0, 1, far, 1, 0, far, far, far, 0]);
        Single { bits: 0 }
    };
    let r = ollivier_ricci_curvatures(
        &matrix(&adj),
        &CurvatureConfig::default(),
        &mirrored(&adj),
        &matrix(&mu),
        solve,
    );
    assert_eq!(r.unwrap().len(), 1);
}

#[test]
fn default_configuration() {
    let c = CurvatureConfig::default();
    assert_eq!(f64::from_bits(c.alpha.bits), 0.0);
    assert_eq!(value(c.reg), 0.01);
    assert_eq!(c.max_iter, 500);
}

#[test]
fn errors_have_their_texts() {
    assert_eq!(CurvatureError::NotSquare.message(), "adjacency matrix must be square");
    assert_eq!(
        CurvatureError::NotSymmetric.message(),
        "adjacency matrix must be symmetric (undirected)"
    );
    assert_eq!(
        CurvatureError::InvalidWeight.message(),
        "edge weights must be finite and non-negative"
    );
    assert_eq!(CurvatureError::InvalidAlpha.message(), "alpha must be in [0, 1]");
}

#[test]
fn hop_distances_form_a_metric_on_a_path() {
    let mut adj = Array2::zeros((5, 5));
    for i in 0..3 {
        adj[[i, i + 1]] = 1.0;
        adj[[i + 1, i]] = 0.25;
    }
    let t = hop_table(&neighbor_lists(&matrix(&adj)));
    assert_eq!(t[0], vec![Some(0), Some(1), Some(2), Some(3), None]);
    assert_eq!(t[4], vec![None, None, None, None, Some(0)]);
    for a in 0..5 {
        for b in 0..5 {
            assert_eq!(t[a][b], t[b][a]);
            for c in 0..5 {
                if let (Some(x), Some(y)) = (t[a][b], t[b][c]) {
                    assert!(t[a][c].unwrap() <= x + y);
                }
            }
        }
    }
}

#[test]
fn hop_distances_follow_edge_directions() {
    let adj = dense(&[&[0., 1., 0.], &[0., 0., 1.], &[0., 0., 0.]]);
    let t = hop_table(&neighbor_lists(&matrix(&adj)));
    assert_eq!(t[0][2], Some(2));
    assert_eq!(t[2][0], None);
}

#[test]
fn weights_leave_the_metric_alone() {
    let plain = double_star();
    let mut weighted = plain.clone();
    weighted[[1, 2]] = 0.125;
    weighted[[2, 1]] = 0.125;
    weighted[[1, 0]] = 40.0;
    weighted[[0, 1]] = 40.0;
    let costs = |adj: &Array2<f64>| {
        let t = hop_table(&neighbor_lists(&matrix(adj)));
        t.into_iter().flatten().collect::<Vec<_>>()
    };
    assert_eq!(costs(&plain), costs(&weighted));
    // They do shape the measures, and so the curvature.
    let a = kappa_of(&curvatures(&plain, &CurvatureConfig::default()).unwrap(), 1, 2);
    let b = kappa_of(&curvatures(&weighted, &CurvatureConfig::default()).unwrap(), 1, 2);
    assert!((a - b).abs() > 0.01);
}

#[test]
fn doubled_weights_list_the_same_edges() {
    let mut adj = double_star();
    adj[[3, 5]] = 0.375;
    adj[[5, 3]] = 0.375;
    let doubled = &adj * 2.0;
    for alpha in [0.0, 0.5, 1.0] {
        let out = curvatures(&adj, &config(alpha)).unwrap();
        let twice = curvatures(&doubled, &config(alpha)).unwrap();
        assert_eq!(out.len(), twice.len());
        for (a, b) in out.iter().zip(&twice) {
            assert_eq!((a.u, a.v), (b.u, b.v));
            assert!((value(a.kappa) - value(b.kappa)).abs() < 1e-4);
        }
        // Doubling is exact, so the measures and with them the results are equal.
        assert_eq!(out, twice);
    }
}

#[test]
fn masses_are_read_off_one_row() {
    let mu = matrix(&dense(&[&[0.0, 0.25, 0.75], &[1.0, 0.0, 0.5]]));
    let picked = masses(&mu, 1, &vec![2, 0, 2]);
    assert_eq!(picked, vec![double(0.5), double(1.0), double(0.5)]);
    assert_eq!(masses(&mu, 0, &vec![]), vec![]);
}

#[test]
fn edge_curvatures_compare_as_numbers() {
    let edge = |u: usize, v: usize, kappa: f32| EdgeCurvature {
        u,
        v,
        kappa: Single { bits: kappa.to_bits() },
    };
    assert_eq!(edge(0, 1, 0.5), edge(0, 1, 0.5));
    assert_eq!(edge(0, 1, 0.0), edge(0, 1, -0.0));
    assert_ne!(edge(0, 1, f32::NAN), edge(0, 1, f32::NAN));
    assert_ne!(edge(0, 1, 0.5), edge(0, 1, 0.25));
    assert_ne!(edge(0, 1, 0.5), edge(0, 2, 0.5));
    assert_ne!(edge(0, 2, 0.5), edge(1, 2, 0.5));
}
