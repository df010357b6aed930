//! Path weights through tropical matrix operations.
use vstd::prelude::*;
use crate::semiring::{in_i64, t_add, t_mul, TropicalSemiring};
use crate::matrix::{
    lemma_index_in_bounds, lemma_index_injective, mat_add, mat_pow, products_fit, tsum, MatModel, TropicalMatrix,
};

verus! {

/// The `n` × `n` matrix `a` with its diagonal replaced by 0 (staying put costs nothing).
pub open spec fn with_zero_diagonal(a: MatModel, n: nat) -> MatModel {
    Seq::new(n, |i: int| Seq::new(n, |j: int| if i == j { Some(0int) } else { a[i][j] }))
}

/// A ⊕ A² ⊕ ... ⊕ A^t for an `n` × `n` matrix and t ≥ 1.
pub open spec fn pow_series(a: MatModel, n: nat, t: nat) -> MatModel
    decreases t,
{
    if t <= 1 {
        a
    } else {
        mat_add(pow_series(a, n, (t - 1) as nat), mat_pow(a, n, t), n, n)
    }
}

/// The vector of length `n` with 0 at `s` and -∞ elsewhere.
pub open spec fn unit_vec(n: nat, s: int) -> Seq<Option<int>> {
    Seq::new(n, |j: int| if j == s { Some(0int) } else { None::<int> })
}

/// Entry `j` of the vector-matrix product over the first `k` indices:
/// ⊕_{l < k} d[l] ⊗ a[l][j].
pub open spec fn vec_mat(d: Seq<Option<int>>, a: MatModel, j: int, k: nat) -> Option<int> {
    tsum(|l: int| t_mul(d[l], a[l][j]), k)
}

/// Every product d[k] ⊗ a[k][j] with k, j < n is -∞ or fits in an `i64`.
pub open spec fn vec_products_fit(d: Seq<Option<int>>, a: MatModel, n: nat) -> bool {
    forall|k: int, j: int| 0 <= k < n && 0 <= j < n ==> #[trigger] in_i64(t_mul(d[k], a[k][j]))
}

/// The min-plus sum: the shorter of two distances, with `None` (no path) as identity.
pub open spec fn mp_add(x: Option<int>, y: Option<int>) -> Option<int> {
    match (x, y) {
        (None, _) => y,
        (_, None) => x,
        (Some(u), Some(v)) => Some(if u <= v { u } else { v }),
    }
}

/// The min-plus sum of f(0), ..., f(k - 1), folded from the left starting at no path.
pub open spec fn mp_sum(f: spec_fn(int) -> Option<int>, k: nat) -> Option<int>
    decreases k,
{
    if k == 0 {
        None
    } else {
        mp_add(mp_sum(f, (k - 1) as nat), f(k - 1))
    }
}

/// One min-plus relaxation round: d[j] ← min(d[j], min_l d[l] + a[l][j]).
pub open spec fn relax_round(d: Seq<Option<int>>, a: MatModel, n: nat) -> Seq<Option<int>> {
    Seq::new(n, |j: int| mp_add(d[j], mp_sum(|l: int| t_mul(d[l], a[l][j]), n)))
}

/// The distance vector from `s` after `t` min-plus relaxation rounds: 0 at `s` and
/// no path (`None`) elsewhere to start with.
pub open spec fn relax_rounds(a: MatModel, n: nat, s: int, t: nat) -> Seq<Option<int>>
    decreases t,
{
    if t == 0 {
        unit_vec(n, s)
    } else {
        relax_round(relax_rounds(a, n, s, (t - 1) as nat), a, n)
    }
}

/// The tropical values of a sequence of semiring elements.
pub open spec fn values(v: Seq<TropicalSemiring>) -> Seq<Option<int>> {
    v.map_values(|x: TropicalSemiring| x@)
}

/// Min-plus distances before any relaxation: the edge weights off the diagonal,
/// no path (`None`) where there is no edge, and on the diagonal the smaller of 0
/// (staying put) and the weight of a self-loop.
pub open spec fn fw_init(a: MatModel, n: nat) -> MatModel {
    Seq::new(
        n,
        |i: int|
            Seq::new(
                n,
                |j: int|
                    if i == j {
                        if a[i][j] is Some && a[i][j]->0 < 0 {
                            a[i][j]
                        } else {
                            Some(0int)
                        }
                    } else {
                        a[i][j]
                    },
            ),
    )
}

/// Going through `k` shortens the known i → j distance in `d`.
pub open spec fn fw_improves(d: MatModel, k: int, i: int, j: int) -> bool {
    &&& d[i][k] is Some
    &&& d[k][j] is Some
    &&& (d[i][j] is None || d[i][k]->0 + d[k][j]->0 < d[i][j]->0)
}

/// The i → k → j distance in `d`.
pub open spec fn fw_through(d: MatModel, k: int, i: int, j: int) -> int {
    d[i][k]->0 + d[k][j]->0
}

/// One relaxation of entry (i, j) through `k`, made in place.
pub open spec fn fw_cell(d: MatModel, k: int, i: int, j: int) -> MatModel {
    if fw_improves(d, k, i, j) {
        d.update(i, d[i].update(j, Some(fw_through(d, k, i, j))))
    } else {
        d
    }
}

/// Relaxations through `k` of entries (i, 0), ..., (i, j - 1), in that order.
pub open spec fn fw_row(d: MatModel, k: int, i: int, j: nat) -> MatModel
    decreases j,
{
    if j == 0 {
        d
    } else {
        fw_cell(fw_row(d, k, i, (j - 1) as nat), k, i, j - 1)
    }
}

/// Relaxations through `k` of rows 0, ..., i - 1 of an `n` × `n` state, in row-major order.
pub open spec fn fw_rows(d: MatModel, k: int, i: nat, n: nat) -> MatModel
    decreases i,
{
    if i == 0 {
        d
    } else {
        fw_row(fw_rows(d, k, (i - 1) as nat, n), k, i - 1, n)
    }
}

/// The in-place Floyd-Warshall state after the phases through nodes 0, ..., k - 1.
pub open spec fn fw(d: MatModel, k: nat, n: nat) -> MatModel
    decreases k,
{
    if k == 0 {
        d
    } else {
        fw_rows(fw(d, (k - 1) as nat, n), k - 1, n, n)
    }
}

/// The state just before entry (i, j) is relaxed through `k`.
pub open spec fn fw_before(a: MatModel, n: nat, k: nat, i: nat, j: nat) -> MatModel {
    fw_row(fw_rows(fw(fw_init(a, n), k, n), k as int, i, n), k as int, i as int, j)
}

/// Every distance that the Floyd-Warshall run on `a` stores fits in an `i64`.
pub open spec fn fw_sums_fit(a: MatModel, n: nat) -> bool {
    forall|k: nat, i: nat, j: nat|
        k < n && i < n && j < n && #[trigger] fw_improves(
            fw_before(a, n, k, i, j),
            k as int,
            i as int,
            j as int,
        ) ==> in_i64(Some(fw_through(fw_before(a, n, k, i, j), k as int, i as int, j as int)))
}

/// A flat row-major `n` × `n` table of optional weights, read as a matrix model.
pub open spec fn table(t: Seq<Option<i64>>, n: nat) -> MatModel {
    Seq::new(
        n,
        |i: int|
            Seq::new(
                n,
                |j: int|
                    match t[i * n + j] {
                        Some(v) => Some(v as int),
                        None => None::<int>,
                    },
            ),
    )
}

proof fn lemma_table_update(t: Seq<Option<i64>>, n: nat, i: int, j: int, v: i64)
    requires
        t.len() == n * n,
        0 <= i < n,
        0 <= j < n,
    ensures
        table(t.update(i * n + j, Some(v)), n) =~~= table(t, n).update(
            i,
            table(t, n)[i].update(j, Some(v as int)),
        ),
{
    lemma_index_in_bounds(i, j, n as int, n as int);
    let t2 = t.update(i * n + j, Some(v));
    let target = table(t, n).update(i, table(t, n)[i].update(j, Some(v as int)));
    assert forall|x: int, y: int| 0 <= x < n && 0 <= y < n implies #[trigger] table(t2, n)[x][y]
        == target[x][y] by {
        lemma_index_in_bounds(x, y, n as int, n as int);
        if x * n + y == i * n + j {
            lemma_index_injective(x, y, i, j, n as int);
        }
    }
}

proof fn lemma_mp_add_assoc(x: Option<int>, y: Option<int>, z: Option<int>)
    ensures
        mp_add(mp_add(x, y), z) == mp_add(x, mp_add(y, z)),
{
}

/// The shorter of two distances, `NegInf` standing for no path.
fn shorter(x: &TropicalSemiring, y: &TropicalSemiring) -> (r: TropicalSemiring)
    ensures
        r@ == mp_add(x@, y@),
{
    match (x, y) {
        (TropicalSemiring::NegInf, _) => *y,
        (_, TropicalSemiring::NegInf) => *x,
        (TropicalSemiring::Finite(u), TropicalSemiring::Finite(v)) => {
            if *u <= *v {
                *x
            } else {
                *y
            }
        },
    }
}

/// Shortest path computation using tropical matrix operations.
pub struct TropicalShortestPath;

impl TropicalShortestPath {
    /// Compute all-pairs longest paths via tropical matrix power (max-plus):
    /// with D the adjacency matrix with a zero diagonal, D ⊕ D² ⊕ ... ⊕ D^(n+1).
    pub fn apsp(adj: &TropicalMatrix) -> (r: TropicalMatrix)
        requires
            adj.wf(),
            adj.rows == 0 || adj.rows == adj.cols,
            forall|e: nat|
                1 <= e <= adj.rows ==> #[trigger] products_fit(
                    mat_pow(with_zero_diagonal(adj@, adj.rows as nat), adj.rows as nat, e),
                    with_zero_diagonal(adj@, adj.rows as nat),
                    adj.rows as nat,
                    adj.rows as nat,
                    adj.rows as nat,
                ),
        ensures
            r.wf(),
            r.rows == adj.rows,
            r.cols == adj.cols,
            r@ == pow_series(
                with_zero_diagonal(adj@, adj.rows as nat),
                adj.rows as nat,
                (adj.rows + 1) as nat,
            ),
    {
        let n = adj.rows;
        let len = adj.data.len();
        let ghost m = n as nat;
        let ghost d = with_zero_diagonal(adj@, m);
        let mut dist = adj.clone();
        for i in 0..n
            invariant
                adj.wf(),
                n == adj.rows,
                n > 0 ==> n == adj.cols,
                len == adj.rows * adj.cols,
                dist.wf(),
                dist.rows == n,
                dist.cols == adj.cols,
                forall|x: int, y: int|
                    0 <= x < n && 0 <= y < adj.cols ==> #[trigger] dist@[x][y] == (if x == y && x
                        < i {
                        Some(0int)
                    } else {
                        adj@[x][y]
                    }),
        {
            proof {
                lemma_index_in_bounds(i as int, i as int, n as int, n as int);
            }
            dist.set(i, i, TropicalSemiring::one());
        }
        assert(dist@ =~~= d);
        let mut accum = dist.clone();
        let mut power = dist.clone();
        assert(accum@ =~~= d);
        assert(power@ =~~= d);
        for t in 0..n
            invariant
                n == adj.rows,
                m == n,
                n > 0 ==> n == adj.cols,
                len == adj.rows * adj.cols,
                forall|e: nat|
                    1 <= e <= n ==> #[trigger] products_fit(mat_pow(d, m, e), d, m, m, m),
                dist.wf(),
                dist.rows == n,
                dist.cols == adj.cols,
                dist@ == d,
                accum.wf(),
                accum.rows == n,
                accum.cols == adj.cols,
                accum@ == pow_series(d, m, (t + 1) as nat),
                power.wf(),
                power.rows == n,
                power.cols == adj.cols,
                power@ == mat_pow(d, m, (t + 1) as nat),
        {
            assert(products_fit(mat_pow(d, m, (t + 1) as nat), d, m, m, m));
            power = power.matmul(&dist);
            let ghost before = accum@;
            for i in 0..n
                invariant
                    n == adj.rows,
                    n == adj.cols,
                    m == n,
                    accum.wf(),
                    accum.rows == n,
                    accum.cols == n,
                    power.wf(),
                    power.rows == n,
                    power.cols == n,
                    forall|x: int, y: int|
                        0 <= x < n && 0 <= y < n ==> #[trigger] accum@[x][y] == (if x < i {
                            t_add(before[x][y], power@[x][y])
                        } else {
                            before[x][y]
                        }),
            {
                for j in 0..n
                    invariant
                        n == adj.rows,
                        n == adj.cols,
                        m == n,
                        i < n,
                        accum.wf(),
                        accum.rows == n,
                        accum.cols == n,
                        power.wf(),
                        power.rows == n,
                        power.cols == n,
                        forall|x: int, y: int|
                            0 <= x < n && 0 <= y < n ==> #[trigger] accum@[x][y] == (if x < i || (x
                                == i && y < j) {
                                t_add(before[x][y], power@[x][y])
                            } else {
                                before[x][y]
                            }),
                {
                    proof {
                        lemma_index_in_bounds(i as int, j as int, n as int, n as int);
                    }
                    let v = accum.get(i, j).add(&power.get(i, j));
                    accum.set(i, j, v);
                }
            }
            assert(accum@ =~~= mat_add(before, power@, m, m));
        }
        accum
    }

    /// Compute all-pairs shortest paths using min-plus (min, +) semiring,
    /// Floyd-Warshall style; a node's distance to itself starts at 0 (or at its
    /// self-loop's weight when that is negative), and a pair without a path gets -∞.
    pub fn shortest_paths(adj: &TropicalMatrix) -> (r: TropicalMatrix)
        requires
            adj.wf(),
            adj.rows <= adj.cols,
            fw_sums_fit(adj@, adj.rows as nat),
        ensures
            r.wf(),
            r.rows == adj.rows,
            r.cols == adj.rows,
            r@ == fw(fw_init(adj@, adj.rows as nat), adj.rows as nat, adj.rows as nat),
    {
        let n = adj.rows;
        let ghost m = n as nat;
        let ghost a = adj@;
        let len = adj.data.len();
        assert(n * n <= n * adj.cols) by (nonlinear_arith)
            requires
                n <= adj.cols,
        ;
        let mut dist: Vec<Option<i64>> = vec![None; n * n];
        assert forall|x: int, y: int| 0 <= x < n && 0 <= y < n implies #[trigger] table(
            dist@,
            m,
        )[x][y] is None by {
            lemma_index_in_bounds(x, y, n as int, n as int);
        }
        for i in 0..n
            invariant
                adj.wf(),
                a == adj@,
                n == adj.rows,
                m == n,
                n <= adj.cols,
                n * n <= usize::MAX,
                dist@.len() == n * n,
                forall|x: int, y: int|
                    0 <= x < n && 0 <= y < n ==> #[trigger] table(dist@, m)[x][y] == (if x < i {
                        if x == y {
                            Some(0int)
                        } else {
                            None::<int>
                        }
                    } else {
                        None::<int>
                    }),
        {
            let ghost before = dist@;
            proof {
                lemma_index_in_bounds(i as int, i as int, n as int, n as int);
                lemma_table_update(dist@, m, i as int, i as int, 0);
            }
            dist.set(i * n + i, Some(0));
        }
        for i in 0..n
            invariant
                adj.wf(),
                a == adj@,
                n == adj.rows,
                m == n,
                n <= adj.cols,
                n * n <= usize::MAX,
                dist@.len() == n * n,
                forall|x: int, y: int|
                    0 <= x < n && 0 <= y < n ==> #[trigger] table(dist@, m)[x][y] == (if x < i {
                        fw_init(a, m)[x][y]
                    } else if x == y {
                        Some(0int)
                    } else {
                        None::<int>
                    }),
        {
            for j in 0..n
                invariant
                    adj.wf(),
                    a == adj@,
                    n == adj.rows,
                    m == n,
                    n <= adj.cols,
                    n * n <= usize::MAX,
                    i < n,
                    dist@.len() == n * n,
                    forall|x: int, y: int|
                        0 <= x < n && 0 <= y < n ==> #[trigger] table(dist@, m)[x][y] == (if x < i
                            || (x == i && y < j) {
                            fw_init(a, m)[x][y]
                        } else if x == y {
                            Some(0int)
                        } else {
                            None::<int>
                        }),
            {
                proof {
                    lemma_index_in_bounds(i as int, j as int, n as int, adj.cols as int);
                    lemma_index_in_bounds(i as int, j as int, n as int, n as int);
                }
                let v = adj.get(i, j);
                match v {
                    TropicalSemiring::Finite(w) => {
                        if i != j || w < 0 {
                            proof {
                                lemma_table_update(dist@, m, i as int, j as int, w);
                            }
                            dist.set(i * n + j, Some(w));
                        }
                    },
                    TropicalSemiring::NegInf => {},
                }
            }
        }
        assert(table(dist@, m) =~~= fw_init(a, m));
        for k in 0..n
            invariant
                adj.wf(),
                a == adj@,
                n == adj.rows,
                m == n,
                n * n <= usize::MAX,
                fw_sums_fit(a, m),
                dist@.len() == n * n,
                table(dist@, m) == fw(fw_init(a, m), k as nat, m),
        {
            assert(fw_rows(fw(fw_init(a, m), k as nat, m), k as int, 0, m) == fw(fw_init(a, m), k as nat, m));
            for i in 0..n
                invariant
                    a == adj@,
                    m == n,
                    k < n,
                    n * n <= usize::MAX,
                    fw_sums_fit(a, m),
                    dist@.len() == n * n,
                    table(dist@, m) == fw_rows(fw(fw_init(a, m), k as nat, m), k as int, i as nat, m),
            {
                for j in 0..n
                    invariant
                        a == adj@,
                        m == n,
                        k < n,
                        i < n,
                        n * n <= usize::MAX,
                        fw_sums_fit(a, m),
                        dist@.len() == n * n,
                        table(dist@, m) == fw_before(a, m, k as nat, i as nat, j as nat),
                {
                    let ghost d = table(dist@, m);
                    proof {
                        lemma_index_in_bounds(i as int, k as int, n as int, n as int);
                        lemma_index_in_bounds(k as int, j as int, n as int, n as int);
                        lemma_index_in_bounds(i as int, j as int, n as int, n as int);
                    }
                    let dik = dist[i * n + k];
                    let dkj = dist[k * n + j];
                    let dij = dist[i * n + j];
                    assert(d[i as int][k as int] == match dik { Some(v) => Some(v as int), None => None::<int> });
                    assert(d[k as int][j as int] == match dkj { Some(v) => Some(v as int), None => None::<int> });
                    assert(d[i as int][j as int] == match dij { Some(v) => Some(v as int), None => None::<int> });
                    match (dik, dkj) {
                        (Some(x), Some(y)) => {
                            let through: i128 = x as i128 + y as i128;
                            let shorter = match dij {
                                None => true,
                                Some(z) => through < z as i128,
                            };
                            if shorter {
                                proof {
                                    assert(fw_improves(d, k as int, i as int, j as int));
                                    assert(in_i64(Some(fw_through(d, k as int, i as int, j as int))));
                                    lemma_table_update(dist@, m, i as int, j as int, through as i64);
                                }
                                dist.set(i * n + j, Some(through as i64));
                            }
                        },
                        _ => {},
                    }
                    assert(table(dist@, m) =~~= fw_cell(d, k as int, i as int, j as int));
                }
            }
        }
        let mut result = TropicalMatrix::zeros(n, n);
        for i in 0..n
            invariant
                n * n <= usize::MAX,
                m == n,
                dist@.len() == n * n,
                result.wf(),
                result.rows == n,
                result.cols == n,
                forall|x: int, y: int|
                    0 <= x < n && 0 <= y < n ==> #[trigger] result@[x][y] == (if x < i {
                        table(dist@, m)[x][y]
                    } else {
                        None::<int>
                    }),
        {
            for j in 0..n
                invariant
                    n * n <= usize::MAX,
                    m == n,
                    i < n,
                    dist@.len() == n * n,
                    result.wf(),
                    result.rows == n,
                    result.cols == n,
                    forall|x: int, y: int|
                        0 <= x < n && 0 <= y < n ==> #[trigger] result@[x][y] == (if x < i || (x
                            == i && y < j) {
                            table(dist@, m)[x][y]
                        } else {
                            None::<int>
                        }),
            {
                proof {
                    lemma_index_in_bounds(i as int, j as int, n as int, n as int);
                }
                match dist[i * n + j] {
                    Some(w) => result.set(i, j, TropicalSemiring::new(w)),
                    None => {},
                }
            }
        }
        assert(result@ =~~= table(dist@, m));
        result
    }

    /// Single-source shortest paths from node `source`: n rounds of min-plus
    /// relaxation, d[j] ← min(d[j], min_k d[k] + A[k][j]), starting from 0 at
    /// `source`; a node without a path from `source` gets -∞.
    pub fn sssp(adj: &TropicalMatrix, source: usize) -> (r: Vec<TropicalSemiring>)
        requires
            adj.wf(),
            source < adj.rows,
            adj.rows <= adj.cols,
            forall|t: nat|
                t < adj.rows ==> #[trigger] vec_products_fit(
                    relax_rounds(adj@, adj.rows as nat, source as int, t),
                    adj@,
                    adj.rows as nat,
                ),
        ensures
            values(r@) == relax_rounds(adj@, adj.rows as nat, source as int, adj.rows as nat),
    {
        let n = adj.rows;
        let ghost m = n as nat;
        let ghost a = adj@;
        let mut dist = vec![TropicalSemiring::zero(); n];
        dist.set(source, TropicalSemiring::one());
        assert(values(dist@) =~= unit_vec(m, source as int));
        for t in 0..n
            invariant
                adj.wf(),
                n == adj.rows,
                n <= adj.cols,
                m == n,
                a == adj@,
                source < n,
                forall|t: nat|
                    t < n ==> #[trigger] vec_products_fit(relax_rounds(a, m, source as int, t), a, m),
                dist@.len() == n,
                values(dist@) == relax_rounds(a, m, source as int, t as nat),
        {
            let ghost d = values(dist@);
            assert(vec_products_fit(relax_rounds(a, m, source as int, t as nat), a, m));
            let mut new_dist = dist.clone();
            assert(new_dist@ == dist@);
            for j in 0..n
                invariant
                    adj.wf(),
                    n == adj.rows,
                    n <= adj.cols,
                    m == n,
                    a == adj@,
                    d == values(dist@),
                    dist@.len() == n,
                    new_dist@.len() == n,
                    vec_products_fit(d, a, m),
                    forall|y: int|
                        0 <= y < n ==> #[trigger] new_dist@[y]@ == (if y < j {
                            mp_add(d[y], mp_sum(|l: int| t_mul(d[l], a[l][y]), m))
                        } else {
                            d[y]
                        }),
            {
                for k in 0..n
                    invariant
                        adj.wf(),
                        n == adj.rows,
                        n <= adj.cols,
                        m == n,
                        a == adj@,
                        d == values(dist@),
                        dist@.len() == n,
                        new_dist@.len() == n,
                        vec_products_fit(d, a, m),
                        j < n,
                        forall|y: int|
                            0 <= y < n && y != j ==> #[trigger] new_dist@[y]@ == (if y < j {
                                mp_add(d[y], mp_sum(|l: int| t_mul(d[l], a[l][y]), m))
                            } else {
                                d[y]
                            }),
                        new_dist@[j as int]@ == mp_add(
                            d[j as int],
                            mp_sum(|l: int| t_mul(d[l], a[l][j as int]), k as nat),
                        ),
                {
                    proof {
                        lemma_index_in_bounds(k as int, j as int, n as int, adj.cols as int);
                        assert(in_i64(t_mul(d[k as int], a[k as int][j as int])));
                        lemma_mp_add_assoc(
                            d[j as int],
                            mp_sum(|l: int| t_mul(d[l], a[l][j as int]), k as nat),
                            t_mul(d[k as int], a[k as int][j as int]),
                        );
                    }
                    let candidate = dist[k].mul(&adj.get(k, j));
                    let updated = shorter(&new_dist[j], &candidate);
                    new_dist.set(j, updated);
                }
            }
            assert(values(new_dist@) =~= relax_round(d, a, m));
            dist = new_dist;
        }
        dist
    }
}

} // verus!
