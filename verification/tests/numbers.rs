//! Bit patterns against the numbers they denote.
use ricci::ieee::{Double, Single};
use ricci::matrix::Matrix;

fn samples() -> Vec<f64> {
    vec![
        0.0,
        -0.0,
        1.0,
        -1.0,
        0.5,
        1e-310,
        -1e-310,
        1e-45,
        3.4e38,
        1e300,
        f64::MIN_POSITIVE,
        f64::MAX,
        f64::MIN,
        f64::INFINITY,
        f64::NEG_INFINITY,
        f64::NAN,
        -f64::NAN,
    ]
}

#[test]
fn doubles_compare_like_floats() {
    for &x in &samples() {
        let d = Double { bits: x.to_bits() };
        assert_eq!(d.is_nan(), x.is_nan());
        assert_eq!(d.is_finite(), x.is_finite());
        assert_eq!(d.gt_zero(), x > 0.0, "{x}");
        assert_eq!(d.lt_zero(), x < 0.0, "{x}");
        for &y in &samples() {
            assert_eq!(d.le(&Double { bits: y.to_bits() }), x <= y, "{x} {y}");
        }
    }
    assert_eq!(Double::zero().bits, 0.0f64.to_bits());
    assert_eq!(Double::one().bits, 1.0f64.to_bits());
}

#[test]
fn singles_compare_and_negate_like_floats() {
    for &x in &samples() {
        let x = x as f32;
        let s = Single { bits: x.to_bits() };
        assert_eq!(s.is_nan(), x.is_nan());
        assert_eq!(s.neg().bits, (-x).to_bits());
        for &y in &samples() {
            let y = y as f32;
            let t = Single { bits: y.to_bits() };
            assert_eq!(s.gt(&t), x > y, "{x} {y}");
            assert_eq!(s.equals(&t), x == y, "{x} {y}");
            assert_eq!(t.neg().gt(&s.neg()), x > y);
        }
    }
    assert_eq!(Single::zero().bits, 0.0f32.to_bits());
}

#[test]
fn narrowing_rounds_like_a_cast() {
    let mut x = 1.0f64;
    while x.is_finite() {
        for delta in [0u64, 1, 0x0fff_ffff, 0x1000_0000, 0x1000_0001, 0x3000_0000, 0x2fff_ffff] {
            let bits = x.to_bits() + delta;
            let y = f64::from_bits(bits);
            assert_eq!(Double { bits }.narrow().bits, (y as f32).to_bits(), "{y}");
        }
        x *= 1.7;
    }
    for n in 0..2000u64 {
        let y = (n * n * n) as f64;
        assert_eq!(Double { bits: y.to_bits() }.narrow().bits, (y as f32).to_bits());
    }
}

#[test]
fn matrix_cells_and_neighbors() {
    let mut m = Matrix::zeros(2, 3);
    assert_eq!(m.get(1, 2), Double::zero());
    m.set(1, 2, Double::one());
    m.set(1, 0, Double { bits: 5e-324f64.to_bits() });
    m.set(1, 1, Double { bits: (-3.0f64).to_bits() });
    assert_eq!(m.neighbors(1), vec![0, 2]);
    assert_eq!(m.neighbors(0), Vec::<usize>::new());
    assert_eq!(m.cells.len(), 6);
}
