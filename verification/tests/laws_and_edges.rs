use tropical_graph::{
    tropical_matrix_add, CycleMean, TropicalEigenvalue, TropicalMatrix, TropicalPolyhedron,
    TropicalSemiring, TropicalShortestPath,
};

fn matrix(rows: usize, cols: usize, entries: &[(usize, usize, i64)]) -> TropicalMatrix {
    let mut m = TropicalMatrix::zeros(rows, cols);
    for &(i, j, v) in entries {
        m.set(i, j, TropicalSemiring::new(v));
    }
    m
}

fn same(a: &TropicalMatrix, b: &TropicalMatrix) -> bool {
    a.rows == b.rows && a.cols == b.cols && a.data == b.data
}

#[test]
fn semiring_identities_and_absorption() {
    let a = TropicalSemiring::new(-7);
    let z = TropicalSemiring::zero();
    let one = TropicalSemiring::one();
    assert_eq!(a.mul(&one), a);
    assert_eq!(one.mul(&a), a);
    assert_eq!(a.add(&z), a);
    assert!(z.mul(&z).is_zero());
    assert_eq!(z.add(&z), z);
    assert_eq!(a.add(&a), a);
}

#[test]
fn semiring_distributes() {
    let a = TropicalSemiring::new(2);
    let b = TropicalSemiring::new(-4);
    let c = TropicalSemiring::new(9);
    assert_eq!(a.mul(&b.add(&c)), a.mul(&b).add(&a.mul(&c)));
    assert_eq!(a.mul(&b.add(&c)), TropicalSemiring::new(11));
}

#[test]
fn semiring_associates() {
    let a = TropicalSemiring::new(2);
    let b = TropicalSemiring::new(-4);
    let c = TropicalSemiring::new(9);
    assert_eq!(a.add(&b).add(&c), a.add(&b.add(&c)));
    assert_eq!(a.mul(&b).mul(&c), a.mul(&b.mul(&c)));
}

#[test]
fn pow_of_zero_and_negative() {
    assert!(TropicalSemiring::zero().pow(4).is_zero());
    assert_eq!(TropicalSemiring::zero().pow(0), TropicalSemiring::one());
    assert_eq!(TropicalSemiring::new(-3).pow(5), TropicalSemiring::new(-15));
    let a = TropicalSemiring::new(4);
    assert_eq!(a.pow(2).mul(&a.pow(3)), a.pow(5));
}

#[test]
fn div_edge_cases() {
    assert_eq!(TropicalSemiring::zero().div(&TropicalSemiring::new(3)), Some(TropicalSemiring::zero()));
    assert!(TropicalSemiring::zero().div(&TropicalSemiring::zero()).is_none());
    let a = TropicalSemiring::new(-6);
    let b = TropicalSemiring::new(11);
    assert_eq!(a.mul(&b).div(&b), Some(a));
}

#[test]
fn display_strings() {
    assert_eq!(TropicalSemiring::zero().to_string(), "-∞");
    assert_eq!(TropicalSemiring::new(42).to_string(), "42");
    assert_eq!(TropicalSemiring::new(-3).to_string(), "-3");
}

#[test]
fn zeros_and_set_get() {
    let mut m = TropicalMatrix::zeros(2, 3);
    assert_eq!(m.data.len(), 6);
    assert!(m.get(1, 2).is_zero());
    m.set(1, 2, TropicalSemiring::new(4));
    assert_eq!(m.get(1, 2), TropicalSemiring::new(4));
    assert_eq!(m.data[5], TropicalSemiring::new(4));
    assert!(m.get(0, 2).is_zero());
}

#[test]
fn identity_is_neutral() {
    let a = matrix(2, 2, &[(0, 0, 1), (0, 1, 2), (1, 0, 3)]);
    let i = TropicalMatrix::identity(2);
    assert!(same(&i.matmul(&a), &a));
    assert!(same(&a.matmul(&i), &a));
}

#[test]
fn matmul_rectangular() {
    let a = matrix(1, 2, &[(0, 0, 1), (0, 1, 4)]);
    let b = matrix(2, 3, &[(0, 0, 2), (1, 0, 0), (1, 2, -1)]);
    let c = a.matmul(&b);
    assert_eq!((c.rows, c.cols), (1, 3));
    assert_eq!(c.get(0, 0), TropicalSemiring::new(4));
    assert!(c.get(0, 1).is_zero());
    assert_eq!(c.get(0, 2), TropicalSemiring::new(3));
}

#[test]
fn matmul_is_associative_here() {
    let a = matrix(2, 2, &[(0, 0, 1), (0, 1, -2), (1, 1, 3)]);
    let b = matrix(2, 2, &[(0, 1, 5), (1, 0, 2)]);
    let c = matrix(2, 2, &[(0, 0, 0), (1, 0, 7), (1, 1, -1)]);
    assert!(same(&a.matmul(&b).matmul(&c), &a.matmul(&b.matmul(&c))));
}

#[test]
fn power_laws() {
    let a = matrix(3, 3, &[(0, 1, 2), (1, 2, 3), (2, 0, -1), (1, 1, 1)]);
    assert!(same(&a.power(0), &TropicalMatrix::identity(3)));
    assert!(same(&a.power(1), &a));
    assert!(same(&a.power(5), &a.power(2).matmul(&a.power(3))));
    for e in 0..4 {
        assert!(same(&a.power(e + 1), &a.power(e).matmul(&a)));
    }
    // the best walk of 3 edges from 0 back to 0 is 0 -> 1 -> 2 -> 0 with weight 4
    assert_eq!(a.power(3).get(0, 0), TropicalSemiring::new(4));
}

#[test]
fn matrix_add_is_elementwise_max() {
    let a = matrix(1, 2, &[(0, 0, 1)]);
    let b = matrix(1, 2, &[(0, 0, -1), (0, 1, 6)]);
    let c = tropical_matrix_add(&a, &b);
    assert_eq!(c.get(0, 0), TropicalSemiring::new(1));
    assert_eq!(c.get(0, 1), TropicalSemiring::new(6));
}

#[test]
fn kleene_star_sums_powers() {
    let a = matrix(2, 2, &[(0, 1, 3), (1, 0, -5)]);
    let star = a.kleene_star();
    let expected = tropical_matrix_add(
        &tropical_matrix_add(&TropicalMatrix::identity(2), &a),
        &a.power(2),
    );
    assert!(same(&star, &expected));
    assert_eq!(star.get(0, 0), TropicalSemiring::new(0));
    assert_eq!(star.get(0, 1), TropicalSemiring::new(3));
    assert_eq!(star.get(1, 0), TropicalSemiring::new(-5));
}

#[test]
fn kleene_star_of_empty() {
    let a = TropicalMatrix::zeros(0, 0);
    let star = a.kleene_star();
    assert_eq!((star.rows, star.cols), (0, 0));
}

#[test]
fn apsp_longest_walks() {
    let adj = matrix(3, 3, &[(0, 1, 2), (1, 2, 3), (0, 2, 1)]);
    let d = TropicalShortestPath::apsp(&adj);
    assert_eq!(d.get(0, 2), TropicalSemiring::new(5));
    assert_eq!(d.get(0, 0), TropicalSemiring::new(0));
    assert!(d.get(2, 0).is_zero());
}

#[test]
fn shortest_paths_unreachable_and_self_loop() {
    let adj = matrix(3, 3, &[(0, 1, 4), (1, 1, 2)]);
    let d = TropicalShortestPath::shortest_paths(&adj);
    assert_eq!(d.get(0, 1), TropicalSemiring::new(4));
    assert!(d.get(1, 0).is_zero());
    assert!(d.get(2, 0).is_zero());
    // staying put costs 0, so a positive self-loop does not count
    assert_eq!(d.get(1, 1), TropicalSemiring::new(0));
    assert_eq!(d.get(2, 2), TropicalSemiring::new(0));
}

#[test]
fn shortest_paths_single_node_with_loop() {
    let adj = matrix(1, 1, &[(0, 0, 3)]);
    let d = TropicalShortestPath::shortest_paths(&adj);
    assert_eq!(d.get(0, 0), TropicalSemiring::new(0));
}

#[test]
fn shortest_paths_negative_edge() {
    let adj = matrix(3, 3, &[(0, 1, 5), (0, 2, 2), (2, 1, -4)]);
    let d = TropicalShortestPath::shortest_paths(&adj);
    assert_eq!(d.get(0, 1), TropicalSemiring::new(-2));
}

#[test]
fn sssp_unreachable_stays_zero() {
    let adj = matrix(3, 3, &[(1, 2, 3)]);
    let d = TropicalShortestPath::sssp(&adj, 0);
    assert_eq!(d[0], TropicalSemiring::new(0));
    assert!(d[1].is_zero());
    assert!(d[2].is_zero());
}

#[test]
fn sssp_takes_shortest_walk() {
    let adj = matrix(3, 3, &[(0, 1, 2), (1, 2, 3), (0, 2, 10)]);
    let d = TropicalShortestPath::sssp(&adj, 0);
    assert_eq!(d[0], TropicalSemiring::new(0));
    assert_eq!(d[1], TropicalSemiring::new(2));
    assert_eq!(d[2], TropicalSemiring::new(5));
}

#[test]
fn sssp_ignores_positive_loop_at_source() {
    let adj = matrix(2, 2, &[(0, 0, 4), (0, 1, 1), (1, 1, 2)]);
    let d = TropicalShortestPath::sssp(&adj, 0);
    assert_eq!(d[0], TropicalSemiring::new(0));
    assert_eq!(d[1], TropicalSemiring::new(1));
}

#[test]
fn max_cycle_mean_of_two_cycle() {
    let adj = matrix(2, 2, &[(0, 1, 1), (1, 0, 4)]);
    let mean = TropicalEigenvalue::max_cycle_mean(&adj).unwrap();
    // the only cycle 0 -> 1 -> 0 has mean 5 / 2
    assert_eq!(mean.numerator * 2, 5 * mean.denominator as i128);
}

#[test]
fn max_cycle_mean_without_cycles() {
    let adj = matrix(2, 2, &[(0, 1, 1)]);
    assert_eq!(TropicalEigenvalue::max_cycle_mean(&adj), None);
    let empty = TropicalMatrix::zeros(0, 0);
    assert_eq!(TropicalEigenvalue::max_cycle_mean(&empty), None);
}

#[test]
fn max_cycle_mean_exact_fraction() {
    let adj = matrix(3, 3, &[(0, 1, 1), (1, 2, 1), (2, 0, 2)]);
    let mean = TropicalEigenvalue::max_cycle_mean(&adj).unwrap();
    assert_eq!(mean, CycleMean { numerator: 4, denominator: 3 });
}

#[test]
fn polyhedron_bounds_and_lengths() {
    let mut poly = TropicalPolyhedron::new();
    poly.add_halfspace(vec![TropicalSemiring::new(1), TropicalSemiring::zero()], TropicalSemiring::new(3));
    assert_eq!(poly.num_constraints(), 1);
    // only the first coordinate counts: 1 + 2 <= 3
    assert!(poly.contains(&[TropicalSemiring::new(2), TropicalSemiring::new(100)]));
    assert!(!poly.contains(&[TropicalSemiring::new(3)]));
    // -∞ coordinates never violate
    assert!(poly.contains(&[TropicalSemiring::zero()]));
    poly.add_halfspace(vec![TropicalSemiring::new(0)], TropicalSemiring::zero());
    assert_eq!(poly.num_constraints(), 2);
    // a -∞ bound admits only points whose left side is -∞
    assert!(!poly.contains(&[TropicalSemiring::new(-50)]));
    assert!(poly.contains(&[TropicalSemiring::zero()]));
    assert!(poly.contains(&[]));
}

#[test]
fn max_cycle_mean_counts_cycles_node_zero_cannot_reach() {
    // the only cycle, 1 -> 2 -> 1, cannot be reached from node 0
    let adj = matrix(3, 3, &[(1, 2, 4), (2, 1, 4)]);
    let mean = TropicalEigenvalue::max_cycle_mean(&adj).unwrap();
    assert_eq!(mean.numerator, 4 * mean.denominator as i128);
}

#[test]
fn max_cycle_mean_of_unreachable_self_loop() {
    let adj = matrix(2, 2, &[(1, 1, 5)]);
    let mean = TropicalEigenvalue::max_cycle_mean(&adj).unwrap();
    assert_eq!(mean.numerator, 5 * mean.denominator as i128);
}

#[test]
fn max_cycle_mean_picks_greatest_cycle() {
    // cycles 0 -> 0 (mean 1) and 1 -> 2 -> 1 (mean 3), both reachable from 0
    let adj = matrix(3, 3, &[(0, 0, 1), (0, 1, -10), (1, 2, 2), (2, 1, 4)]);
    let mean = TropicalEigenvalue::max_cycle_mean(&adj).unwrap();
    assert_eq!(mean.numerator, 3 * mean.denominator as i128);
}

#[test]
fn matmul_distributes_over_sum() {
    let a = matrix(2, 2, &[(0, 0, 1), (0, 1, -2), (1, 1, 3)]);
    let b = matrix(2, 2, &[(0, 0, 4), (1, 0, 5), (1, 1, -1)]);
    let c = matrix(2, 2, &[(0, 1, 7), (1, 0, 2)]);
    let left = a.matmul(&tropical_matrix_add(&b, &c));
    let right = tropical_matrix_add(&a.matmul(&b), &a.matmul(&c));
    assert!(same(&left, &right));
    // (0, 1): max(1 + 7, -2 + max(-1, -inf)) = 8
    assert_eq!(left.get(0, 1), TropicalSemiring::new(8));
    let left2 = tropical_matrix_add(&b, &c).matmul(&a);
    let right2 = tropical_matrix_add(&b.matmul(&a), &c.matmul(&a));
    assert!(same(&left2, &right2));
}

#[test]
fn polyhedron_is_closed_downward() {
    let mut poly = TropicalPolyhedron::new();
    poly.add_halfspace(vec![TropicalSemiring::new(1), TropicalSemiring::new(-2)], TropicalSemiring::new(4));
    poly.add_halfspace(vec![TropicalSemiring::zero(), TropicalSemiring::new(0)], TropicalSemiring::new(5));
    let x = [TropicalSemiring::new(3), TropicalSemiring::new(5)];
    assert!(poly.contains(&x));
    let lower = [TropicalSemiring::new(-10), TropicalSemiring::zero()];
    assert!(poly.contains(&lower));
    let higher = [TropicalSemiring::new(4), TropicalSemiring::new(5)];
    assert!(!poly.contains(&higher));
}

#[test]
fn max_cycle_mean_shifts_with_weights() {
    let entries = [(0, 1, 1), (1, 0, 4), (1, 2, -3), (2, 2, 1)];
    let adj = matrix(3, 3, &entries);
    let shifted: Vec<(usize, usize, i64)> = entries.iter().map(|&(i, j, v)| (i, j, v + 7)).collect();
    let adj2 = matrix(3, 3, &shifted);
    let m = TropicalEigenvalue::max_cycle_mean(&adj).unwrap();
    let m2 = TropicalEigenvalue::max_cycle_mean(&adj2).unwrap();
    // 5/2 before, 5/2 + 7 = 19/2 after
    assert_eq!(m.numerator * 2, 5 * m.denominator as i128);
    assert_eq!(m2.numerator * m.denominator as i128, (m.numerator + 7 * m.denominator as i128) * m2.denominator as i128);
    assert!(TropicalEigenvalue::max_cycle_mean(&matrix(2, 2, &[(0, 1, 9)])).is_none());
}

#[test]
fn apsp_equals_kleene_star_without_positive_cycles() {
    let adj = matrix(3, 3, &[(0, 1, 2), (1, 2, 3), (2, 0, -6), (0, 2, 1), (1, 1, -1)]);
    let longest = TropicalShortestPath::apsp(&adj);
    let star = adj.kleene_star();
    assert!(same(&longest, &star));
    assert_eq!(star.get(0, 2), TropicalSemiring::new(5));
    assert_eq!(star.get(1, 1), TropicalSemiring::new(0));
}

#[test]
fn kleene_star_is_idempotent_without_positive_cycles() {
    let adj = matrix(3, 3, &[(0, 1, 2), (1, 2, 3), (2, 0, -6), (0, 2, 1)]);
    let star = adj.kleene_star();
    assert!(same(&star.matmul(&star), &star));
    assert!(same(&star.kleene_star(), &star));
    for i in 0..3 {
        assert_eq!(star.get(i, i), TropicalSemiring::one());
    }
}

#[test]
fn shortest_paths_is_idempotent() {
    let adj = matrix(4, 4, &[(0, 1, 4), (1, 2, -2), (0, 2, 5), (2, 3, 1), (3, 0, 3), (1, 1, 2)]);
    let once = TropicalShortestPath::shortest_paths(&adj);
    let twice = TropicalShortestPath::shortest_paths(&once);
    assert!(same(&once, &twice));
    assert_eq!(once.get(0, 2), TropicalSemiring::new(2));
    assert_eq!(once.get(1, 1), TropicalSemiring::new(0));
}

#[test]
fn polyhedron_is_intersection_of_its_halfspaces() {
    let mut poly = TropicalPolyhedron::new();
    poly.add_halfspace(vec![TropicalSemiring::new(1), TropicalSemiring::new(0)], TropicalSemiring::new(4));
    let before = poly.clone();
    assert_eq!(before.num_constraints(), 1);
    let c = vec![TropicalSemiring::new(-1), TropicalSemiring::new(2)];
    let b = TropicalSemiring::new(3);
    poly.add_halfspace(c.clone(), b);
    let mut single = TropicalPolyhedron::new();
    single.add_halfspace(c, b);
    let points = [
        [TropicalSemiring::new(3), TropicalSemiring::new(1)],
        [TropicalSemiring::new(3), TropicalSemiring::new(2)],
        [TropicalSemiring::new(4), TropicalSemiring::new(0)],
        [TropicalSemiring::zero(), TropicalSemiring::new(-5)],
    ];
    for x in points.iter() {
        assert_eq!(poly.contains(x), before.contains(x) && single.contains(x));
    }
    assert!(poly.contains(&points[0]));
    assert!(!poly.contains(&points[1]));
    assert!(!poly.contains(&points[2]));
}
