use tropical_graph::{
    TropicalEigenvalue, TropicalMatrix, TropicalPolyhedron, TropicalSemiring, TropicalShortestPath,
};

#[test]
fn test_tropical_add() {
    let a = TropicalSemiring::new(3);
    let b = TropicalSemiring::new(5);
    assert_eq!(a.add(&b), TropicalSemiring::new(5));
    assert_eq!(b.add(&a), TropicalSemiring::new(5));
}

#[test]
fn test_tropical_add_with_zero() {
    let a = TropicalSemiring::new(3);
    let z = TropicalSemiring::zero();
    assert_eq!(a.add(&z), a);
    assert_eq!(z.add(&a), a);
}

#[test]
fn test_tropical_mul() {
    let a = TropicalSemiring::new(3);
    let b = TropicalSemiring::new(5);
    assert_eq!(a.mul(&b), TropicalSemiring::new(8));
}

#[test]
fn test_tropical_mul_with_zero() {
    let a = TropicalSemiring::new(3);
    let z = TropicalSemiring::zero();
    assert!(a.mul(&z).is_zero());
    assert!(z.mul(&a).is_zero());
}

#[test]
fn test_tropical_pow() {
    let a = TropicalSemiring::new(2);
    assert_eq!(a.pow(3), TropicalSemiring::new(6));
    assert_eq!(a.pow(0), TropicalSemiring::one());
}

#[test]
fn test_tropical_div() {
    let a = TropicalSemiring::new(8);
    let b = TropicalSemiring::new(3);
    assert_eq!(a.div(&b), Some(TropicalSemiring::new(5)));
    assert!(TropicalSemiring::new(5).div(&TropicalSemiring::zero()).is_none());
}

#[test]
fn test_tropical_identity_matrix() {
    let m = TropicalMatrix::identity(3);
    assert_eq!(m.get(0, 0), TropicalSemiring::one());
    assert!(m.get(0, 1).is_zero());
}

#[test]
fn test_tropical_matrix_multiply() {
    let mut a = TropicalMatrix::zeros(2, 2);
    a.set(0, 0, TropicalSemiring::new(1));
    a.set(0, 1, TropicalSemiring::new(2));
    a.set(1, 0, TropicalSemiring::new(3));
    a.set(1, 1, TropicalSemiring::new(4));

    let mut b = TropicalMatrix::zeros(2, 2);
    b.set(0, 0, TropicalSemiring::new(5));
    b.set(0, 1, TropicalSemiring::new(6));
    b.set(1, 0, TropicalSemiring::new(7));
    b.set(1, 1, TropicalSemiring::new(8));

    let c = a.matmul(&b);
    // (0,0): max(1+5, 2+7) = max(6, 9) = 9
    assert_eq!(c.get(0, 0), TropicalSemiring::new(9));
    // (0,1): max(1+6, 2+8) = max(7, 10) = 10
    assert_eq!(c.get(0, 1), TropicalSemiring::new(10));
    // (1,0): max(3+5, 4+7) = max(8, 11) = 11
    assert_eq!(c.get(1, 0), TropicalSemiring::new(11));
}

#[test]
fn test_tropical_matrix_power() {
    let mut a = TropicalMatrix::zeros(2, 2);
    a.set(0, 0, TropicalSemiring::new(1));
    a.set(0, 1, TropicalSemiring::new(2));
    a.set(1, 0, TropicalSemiring::new(3));
    a.set(1, 1, TropicalSemiring::new(1));

    let a2 = a.power(2);
    // A²[0][0] = max(1+1, 2+3) = max(2, 5) = 5
    assert_eq!(a2.get(0, 0), TropicalSemiring::new(5));
}

#[test]
fn test_shortest_path_triangle() {
    let mut adj = TropicalMatrix::zeros(3, 3);
    adj.set(0, 1, TropicalSemiring::new(2));
    adj.set(1, 2, TropicalSemiring::new(3));
    adj.set(0, 2, TropicalSemiring::new(10));

    let dist = TropicalShortestPath::shortest_paths(&adj);
    // Shortest 0→2 should be min(10, 2+3) = 5
    assert_eq!(dist.get(0, 2), TropicalSemiring::new(5));
    // Self distances should be 0
    assert_eq!(dist.get(0, 0), TropicalSemiring::new(0));
}

#[test]
fn test_sssp() {
    let mut adj = TropicalMatrix::zeros(3, 3);
    adj.set(0, 1, TropicalSemiring::new(2));
    adj.set(1, 2, TropicalSemiring::new(3));

    let dist = TropicalShortestPath::sssp(&adj, 0);
    assert_eq!(dist[0], TropicalSemiring::new(0));
    assert_eq!(dist[1], TropicalSemiring::new(2));
    assert_eq!(dist[2], TropicalSemiring::new(5));
}

#[test]
fn test_max_cycle_mean() {
    let mut adj = TropicalMatrix::zeros(2, 2);
    adj.set(0, 0, TropicalSemiring::new(3));
    adj.set(0, 1, TropicalSemiring::new(1));
    adj.set(1, 0, TropicalSemiring::new(2));
    adj.set(1, 1, TropicalSemiring::new(5));

    let mean = TropicalEigenvalue::max_cycle_mean(&adj).unwrap();
    let lambda = mean.numerator as f64 / mean.denominator as f64;
    // Max cycle mean = max(3, 5, (1+2)/2) = max(3, 5, 1.5) = 5
    assert!((lambda - 5.0).abs() < 1e-10);
}

#[test]
fn test_tropical_polyhedron_contains() {
    let mut poly = TropicalPolyhedron::new();
    // max(x₁, x₂) ≤ 5
    poly.add_halfspace(
        vec![TropicalSemiring::new(0), TropicalSemiring::new(0)],
        TropicalSemiring::new(5),
    );
    assert!(poly.contains(&[TropicalSemiring::new(3), TropicalSemiring::new(4)]));
    assert!(!poly.contains(&[TropicalSemiring::new(6), TropicalSemiring::new(3)]));
}

#[test]
fn test_tropical_polyhedron_empty() {
    let poly = TropicalPolyhedron::new();
    assert!(poly.contains(&[TropicalSemiring::new(100)]));
    assert_eq!(poly.num_constraints(), 0);
}
