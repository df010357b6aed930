//! The tropical eigenvalue (maximum cycle mean) by Karp's method.
use vstd::prelude::*;
use crate::semiring::{in_i64, t_mul, TropicalSemiring};
use crate::matrix::{lemma_index_in_bounds, MatModel, TropicalMatrix};
use crate::paths::{values, vec_mat, vec_products_fit};

verus! {

/// Row `t` of Karp's table, started from 0 at every node (as if from a source
/// joined to every node by an edge of weight 0): (0 ⊗ Aᵗ), the best weights of walks
/// of exactly `t` edges ending at each node.
pub open spec fn karp_row(a: MatModel, n: nat, t: nat) -> Seq<Option<int>>
    decreases t,
{
    if t == 0 {
        Seq::new(n, |j: int| Some(0int))
    } else {
        Seq::new(n, |j: int| vec_mat(karp_row(a, n, (t - 1) as nat), a, j, n))
    }
}

/// Node `j` ends a walk of n edges and one of some length k < n.
pub open spec fn karp_candidate(a: MatModel, n: nat, j: int) -> bool {
    &&& 0 <= j < n
    &&& karp_row(a, n, n)[j] is Some
    &&& exists|k: int| 0 <= k < n && #[trigger] karp_row(a, n, k as nat)[j] is Some
}

/// Karp's numerator for node `j` and length `k`: the best n-edge walk weight to `j`
/// minus the best k-edge one.
pub open spec fn karp_diff(a: MatModel, n: nat, j: int, k: int) -> int {
    karp_row(a, n, n)[j]->0 - karp_row(a, n, k as nat)[j]->0
}

/// The fraction x / dx is at most y / dy (both denominators positive).
pub open spec fn frac_le(x: int, dx: int, y: int, dy: int) -> bool {
    x * dy <= y * dx
}

/// The fraction x / dx is below y / dy (both denominators positive).
pub open spec fn frac_lt(x: int, dx: int, y: int, dy: int) -> bool {
    x * dy < y * dx
}

/// (num, den) is the least ratio karp_diff(j, k) / (n - k) over the lengths
/// k < n with a walk to `j`, written with the first such k that attains it.
pub open spec fn karp_min_for(a: MatModel, n: nat, j: int, num: int, den: int) -> bool {
    &&& exists|k: int|
        0 <= k < n && #[trigger] karp_row(a, n, k as nat)[j] is Some && num == karp_diff(a, n, j, k)
            && den == n - k && forall|k2: int|
            0 <= k2 < k && #[trigger] karp_row(a, n, k2 as nat)[j] is Some ==> frac_lt(
                num,
                den,
                karp_diff(a, n, j, k2),
                n - k2,
            )
    &&& forall|k: int|
        0 <= k < n && #[trigger] karp_row(a, n, k as nat)[j] is Some ==> frac_le(
            num,
            den,
            karp_diff(a, n, j, k),
            n - k,
        )
}

/// The least ratio of node `j` is below num / den.
pub open spec fn karp_min_below(a: MatModel, n: nat, j: int, num: int, den: int) -> bool {
    exists|k: int|
        0 <= k < n && #[trigger] karp_row(a, n, k as nat)[j] is Some && frac_lt(
            karp_diff(a, n, j, k),
            n - k,
            num,
            den,
        )
}

/// The least ratio of node `j` is at most num / den.
pub open spec fn karp_min_at_most(a: MatModel, n: nat, j: int, num: int, den: int) -> bool {
    exists|k: int|
        0 <= k < n && #[trigger] karp_row(a, n, k as nat)[j] is Some && frac_le(
            karp_diff(a, n, j, k),
            n - k,
            num,
            den,
        )
}

/// Karp's value: max over candidate nodes j of min over k of karp_diff(j, k) / (n - k),
/// given as a fraction (num, den) written with the first node j and, for it, the
/// first length k that attain it; `None` when there is no candidate node.
pub open spec fn is_karp_value(a: MatModel, n: nat, r: Option<CycleMean>) -> bool {
    match r {
        None => forall|j: int| !#[trigger] karp_candidate(a, n, j),
        Some(c) => {
            &&& exists|j: int|
                #[trigger] karp_candidate(a, n, j) && karp_min_for(
                    a,
                    n,
                    j,
                    c.numerator as int,
                    c.denominator as int,
                ) && forall|j2: int|
                    0 <= j2 < j && #[trigger] karp_candidate(a, n, j2) ==> karp_min_below(
                        a,
                        n,
                        j2,
                        c.numerator as int,
                        c.denominator as int,
                    )
            &&& forall|j: int|
                #[trigger] karp_candidate(a, n, j) ==> karp_min_at_most(
                    a,
                    n,
                    j,
                    c.numerator as int,
                    c.denominator as int,
                )
        },
    }
}

/// Among n + 1 nodes drawn from 0..n some node repeats.
pub(crate) proof fn lemma_pigeonhole(w: Seq<int>, n: nat)
    requires
        w.len() == n + 1,
        forall|t: int| 0 <= t < w.len() ==> 0 <= #[trigger] w[t] < n,
    ensures
        exists|s: int, t: int| 0 <= s < t < w.len() && #[trigger] w[s] == #[trigger] w[t],
    decreases n,
{
    if n == 0 {
        assert(0 <= w[0] < n);
    } else {
        let v = w[n as int];
        if exists|s: int| 0 <= s < n && #[trigger] w[s] == v {
            let s = choose|s: int| 0 <= s < n && #[trigger] w[s] == v;
            assert(w[s] == w[n as int]);
        } else {
            let w2 = Seq::new(n, |t: int| if w[t] > v { w[t] - 1 } else { w[t] });
            assert forall|t: int| 0 <= t < w2.len() implies 0 <= #[trigger] w2[t] < n - 1 by {
                assert(w[t] != v);
            }
            lemma_pigeonhole(w2, (n - 1) as nat);
            let (s, t) = choose|s: int, t: int|
                0 <= s < t < w2.len() && #[trigger] w2[s] == #[trigger] w2[t];
            assert(w[s] != v && w[t] != v);
            assert(w[s] == w[t]);
        }
    }
}

pub(crate) proof fn lemma_frac_le_trans(x: int, dx: int, y: int, dy: int, z: int, dz: int)
    requires
        dx > 0,
        dy > 0,
        dz > 0,
        frac_le(x, dx, y, dy),
        frac_le(y, dy, z, dz),
    ensures
        frac_le(x, dx, z, dz),
{
    assert(x * dz <= z * dx) by (nonlinear_arith)
        requires
            dx > 0,
            dy > 0,
            dz > 0,
            x * dy <= y * dx,
            y * dz <= z * dy,
    ;
}

proof fn lemma_frac_lt_le_trans(x: int, dx: int, y: int, dy: int, z: int, dz: int)
    requires
        dx > 0,
        dy > 0,
        dz > 0,
        frac_lt(x, dx, y, dy),
        frac_le(y, dy, z, dz),
    ensures
        frac_lt(x, dx, z, dz),
{
    assert(x * dz < z * dx) by (nonlinear_arith)
        requires
            dx > 0,
            dy > 0,
            dz > 0,
            x * dy < y * dx,
            y * dz <= z * dy,
    ;
}

proof fn lemma_frac_le_lt_trans(x: int, dx: int, y: int, dy: int, z: int, dz: int)
    requires
        dx > 0,
        dy > 0,
        dz > 0,
        frac_le(x, dx, y, dy),
        frac_lt(y, dy, z, dz),
    ensures
        frac_lt(x, dx, z, dz),
{
    assert(x * dz < z * dx) by (nonlinear_arith)
        requires
            dx > 0,
            dy > 0,
            dz > 0,
            x * dy <= y * dx,
            y * dz < z * dy,
    ;
}

proof fn lemma_cross_products_fit(x: int, d: int)
    requires
        -0x1_0000_0000_0000_0000 <= x <= 0x1_0000_0000_0000_0000,
        0 < d <= 0x1_0000_0000,
    ensures
        -0x1_0000_0000_0000_0000_0000_0000 <= x * d <= 0x1_0000_0000_0000_0000_0000_0000,
{
    assert(-0x1_0000_0000_0000_0000_0000_0000 <= x * d <= 0x1_0000_0000_0000_0000_0000_0000)
        by (nonlinear_arith)
        requires
            -0x1_0000_0000_0000_0000 <= x <= 0x1_0000_0000_0000_0000,
            0 < d <= 0x1_0000_0000,
    ;
}

/// Folding node `j`, whose least ratio is `c`, into the running maximum.
proof fn lemma_lambda_step(
    a: MatModel,
    n: nat,
    j: int,
    c: CycleMean,
    old_lambda: Option<CycleMean>,
    lambda: Option<CycleMean>,
    larger: bool,
)
    requires
        0 <= j < n,
        karp_row(a, n, n)[j] is Some,
        c.denominator > 0,
        karp_min_for(a, n, j, c.numerator as int, c.denominator as int),
        old_lambda is None ==> larger,
        old_lambda is Some ==> {
            &&& old_lambda->0.denominator > 0
            &&& larger == (c.numerator * old_lambda->0.denominator > old_lambda->0.numerator
                * c.denominator)
            &&& exists|y: int|
                0 <= y < j && #[trigger] karp_candidate(a, n, y) && karp_min_for(
                    a,
                    n,
                    y,
                    old_lambda->0.numerator as int,
                    old_lambda->0.denominator as int,
                ) && forall|y2: int|
                    0 <= y2 < y && #[trigger] karp_candidate(a, n, y2) ==> karp_min_below(
                        a,
                        n,
                        y2,
                        old_lambda->0.numerator as int,
                        old_lambda->0.denominator as int,
                    )
            &&& forall|y: int|
                0 <= y < j && #[trigger] karp_candidate(a, n, y) ==> karp_min_at_most(
                    a,
                    n,
                    y,
                    old_lambda->0.numerator as int,
                    old_lambda->0.denominator as int,
                )
        },
        old_lambda is None ==> forall|y: int| 0 <= y < j ==> !#[trigger] karp_candidate(a, n, y),
        lambda == (if larger { Some(c) } else { old_lambda }),
    ensures
        karp_candidate(a, n, j),
        lambda is Some,
        exists|y: int|
            0 <= y < j + 1 && #[trigger] karp_candidate(a, n, y) && karp_min_for(
                a,
                n,
                y,
                lambda->0.numerator as int,
                lambda->0.denominator as int,
            ) && forall|y2: int|
                0 <= y2 < y && #[trigger] karp_candidate(a, n, y2) ==> karp_min_below(
                    a,
                    n,
                    y2,
                    lambda->0.numerator as int,
                    lambda->0.denominator as int,
                ),
        forall|y: int|
            0 <= y < j + 1 && #[trigger] karp_candidate(a, n, y) ==> karp_min_at_most(
                a,
                n,
                y,
                lambda->0.numerator as int,
                lambda->0.denominator as int,
            ),
{
    let num = c.numerator as int;
    let den = c.denominator as int;
    let k = choose|k: int|
        0 <= k < n && #[trigger] karp_row(a, n, k as nat)[j] is Some && num == karp_diff(a, n, j, k)
            && den == n - k && forall|k2: int|
            0 <= k2 < k && #[trigger] karp_row(a, n, k2 as nat)[j] is Some ==> frac_lt(
                num,
                den,
                karp_diff(a, n, j, k2),
                n - k2,
            );
    assert(karp_candidate(a, n, j));
    let l = lambda->0;
    let ln = l.numerator as int;
    let ld = l.denominator as int;
    // Node j's least ratio is at most the new maximum.
    if larger {
        assert(frac_le(karp_diff(a, n, j, k), n - k, ln, ld));
    } else {
        assert(frac_le(num, den, ln, ld));
    }
    assert(karp_min_at_most(a, n, j, ln, ld));
    if larger {
        assert(karp_candidate(a, n, j) && karp_min_for(a, n, j, ln, ld));
        if let Some(o) = old_lambda {
            let on = o.numerator as int;
            let od = o.denominator as int;
            assert forall|y2: int| 0 <= y2 < j && #[trigger] karp_candidate(a, n, y2) implies karp_min_below(
                a,
                n,
                y2,
                ln,
                ld,
            ) by {
                assert(karp_min_at_most(a, n, y2, on, od));
                let ky = choose|ky: int|
                    0 <= ky < n && #[trigger] karp_row(a, n, ky as nat)[y2] is Some && frac_le(
                        karp_diff(a, n, y2, ky),
                        n - ky,
                        on,
                        od,
                    );
                lemma_frac_le_lt_trans(karp_diff(a, n, y2, ky), n - ky, on, od, num, den);
            }
        }
        if let Some(o) = old_lambda {
            let on = o.numerator as int;
            let od = o.denominator as int;
            assert(frac_le(on, od, num, den));
            assert forall|y: int|
                0 <= y < j + 1 && #[trigger] karp_candidate(a, n, y) implies karp_min_at_most(
                a,
                n,
                y,
                ln,
                ld,
            ) by {
                if y < j {
                    assert(karp_min_at_most(a, n, y, on, od));
                    let ky = choose|ky: int|
                        0 <= ky < n && #[trigger] karp_row(a, n, ky as nat)[y] is Some && frac_le(
                            karp_diff(a, n, y, ky),
                            n - ky,
                            on,
                            od,
                        );
                    lemma_frac_le_trans(karp_diff(a, n, y, ky), n - ky, on, od, num, den);
                }
            }
        }
    }
}

/// An exact mean weight: `numerator / denominator`, the denominator positive.
#[derive(Clone, Copy, Debug, PartialEq, Eq, Structural)]
pub struct CycleMean {
    pub numerator: i128,
    pub denominator: usize,
}

/// Tropical eigenvalue (maximum cycle mean) computation.
pub struct TropicalEigenvalue;

impl TropicalEigenvalue {
    /// Compute the tropical eigenvalue (max cycle mean) via Karp's algorithm, from a
    /// source joined to every node by an edge of weight 0:
    /// λ = max_j min_k (Dⁿ[j] - Dᵏ[j]) / (n - k) with Dᵏ = 0 ⊗ Aᵏ, as a fraction
    /// (numerator, denominator); `None` stands for -∞ (no cycle).
    pub fn max_cycle_mean(adj: &TropicalMatrix) -> (r: Option<CycleMean>)
        requires
            adj.wf(),
            adj.rows <= adj.cols,
            forall|t: nat|
                t < adj.rows ==> #[trigger] vec_products_fit(
                    karp_row(adj@, adj.rows as nat, t),
                    adj@,
                    adj.rows as nat,
                ),
        ensures
            r is Some ==> r->0.denominator > 0,
            adj.rows == 0 ==> r is None,
            is_karp_value(adj@, adj.rows as nat, r),
    {
        let n = adj.rows;
        let ghost m = n as nat;
        let ghost a = adj@;
        if n == 0 {
            return None;
        }
        let len = adj.data.len();
        assert(n <= 0x1_0000_0000) by (nonlinear_arith)
            requires
                n <= adj.cols,
                len == n * adj.cols,
                len <= usize::MAX,
                usize::MAX <= 0xffff_ffff_ffff_ffff,
        ;
        assert(n * n <= len) by (nonlinear_arith)
            requires
                n <= adj.cols,
                len == n * adj.cols,
        ;
        assert(n + 1 <= usize::MAX) by (nonlinear_arith)
            requires
                1 <= n,
                n * n <= usize::MAX,
                usize::MAX >= 0xffff_ffff,
        ;
        let n_plus_1 = n + 1;
        let mut powers: Vec<Vec<TropicalSemiring>> = Vec::new();
        let row = vec![TropicalSemiring::one(); n];
        assert(values(row@) =~= karp_row(a, m, 0));
        powers.push(row);
        for p in 1..n_plus_1
            invariant
                adj.wf(),
                a == adj@,
                n == adj.rows,
                m == n,
                n <= adj.cols,
                n_plus_1 == n + 1,
                forall|t: nat| t < n ==> #[trigger] vec_products_fit(karp_row(a, m, t), a, m),
                powers@.len() == p,
                forall|t: int|
                    0 <= t < p ==> #[trigger] powers@[t]@.len() == n && values(powers@[t]@)
                        == karp_row(a, m, t as nat),
        {
            let ghost d = karp_row(a, m, (p - 1) as nat);
            assert(vec_products_fit(d, a, m));
            let mut new_row = vec![TropicalSemiring::zero(); n];
            for j in 0..n
                invariant
                    adj.wf(),
                    a == adj@,
                    n == adj.rows,
                    m == n,
                    n <= adj.cols,
                    1 <= p <= n,
                    powers@.len() == p,
                    powers@[p - 1]@.len() == n,
                    values(powers@[p - 1]@) == d,
                    vec_products_fit(d, a, m),
                    new_row@.len() == n,
                    forall|y: int|
                        0 <= y < n ==> #[trigger] new_row@[y]@ == (if y < j {
                            vec_mat(d, a, y, m)
                        } else {
                            None::<int>
                        }),
            {
                for k in 0..n
                    invariant
                        adj.wf(),
                        a == adj@,
                        n == adj.rows,
                        m == n,
                        n <= adj.cols,
                        1 <= p <= n,
                        powers@.len() == p,
                        powers@[p - 1]@.len() == n,
                        values(powers@[p - 1]@) == d,
                        vec_products_fit(d, a, m),
                        new_row@.len() == n,
                        j < n,
                        forall|y: int|
                            0 <= y < n && y != j ==> #[trigger] new_row@[y]@ == (if y < j {
                                vec_mat(d, a, y, m)
                            } else {
                                None::<int>
                            }),
                        new_row@[j as int]@ == vec_mat(d, a, j as int, k as nat),
                {
                    proof {
                        lemma_index_in_bounds(k as int, j as int, n as int, adj.cols as int);
                        assert(d[k as int] == powers@[p - 1]@[k as int]@);
                        assert(in_i64(t_mul(d[k as int], a[k as int][j as int])));
                    }
                    let candidate = powers[p - 1][k].mul(&adj.get(k, j));
                    let updated = new_row[j].add(&candidate);
                    new_row.set(j, updated);
                }
            }
            assert(values(new_row@) =~= karp_row(a, m, p as nat));
            powers.push(new_row);
        }
        let mut lambda: Option<CycleMean> = None;
        for j in 0..n
            invariant
                a == adj@,
                n == adj.rows,
                m == n,
                1 <= n <= 0x1_0000_0000,
                powers@.len() == n + 1,
                forall|t: int|
                    0 <= t <= n ==> #[trigger] powers@[t]@.len() == n && values(powers@[t]@)
                        == karp_row(a, m, t as nat),
                lambda is Some ==> {
                    &&& 0 < lambda->0.denominator <= n
                    &&& -0x1_0000_0000_0000_0000 <= lambda->0.numerator <= 0x1_0000_0000_0000_0000
                    &&& exists|y: int|
                        0 <= y < j && #[trigger] karp_candidate(a, m, y) && karp_min_for(
                            a,
                            m,
                            y,
                            lambda->0.numerator as int,
                            lambda->0.denominator as int,
                        ) && forall|y2: int|
                            0 <= y2 < y && #[trigger] karp_candidate(a, m, y2) ==> karp_min_below(
                                a,
                                m,
                                y2,
                                lambda->0.numerator as int,
                                lambda->0.denominator as int,
                            )
                    &&& forall|y: int|
                        0 <= y < j && #[trigger] karp_candidate(a, m, y) ==> karp_min_at_most(
                            a,
                            m,
                            y,
                            lambda->0.numerator as int,
                            lambda->0.denominator as int,
                        )
                },
                lambda is None ==> forall|y: int| 0 <= y < j ==> !#[trigger] karp_candidate(a, m, y),
        {
            assert(values(powers@[n as int]@)[j as int] == powers@[n as int]@[j as int]@);
            match powers[n][j] {
                TropicalSemiring::NegInf => {
                    assert(!karp_candidate(a, m, j as int));
                },
                TropicalSemiring::Finite(an_j) => {
                    let mut min_ratio: Option<CycleMean> = None;
                    for k in 0..n
                        invariant
                            a == adj@,
                            n == adj.rows,
                            m == n,
                            1 <= n <= 0x1_0000_0000,
                            j < n,
                            powers@.len() == n + 1,
                            forall|t: int|
                                0 <= t <= n ==> #[trigger] powers@[t]@.len() == n && values(
                                    powers@[t]@,
                                ) == karp_row(a, m, t as nat),
                            karp_row(a, m, m)[j as int] == Some(an_j as int),
                            min_ratio is None ==> forall|x: int|
                                0 <= x < k ==> !(#[trigger] karp_row(a, m, x as nat)[j as int] is Some),
                            min_ratio is Some ==> {
                                &&& 0 < min_ratio->0.denominator <= n
                                &&& -0x1_0000_0000_0000_0000 <= min_ratio->0.numerator
                                    <= 0x1_0000_0000_0000_0000
                                &&& exists|x: int|
                                    0 <= x < k && #[trigger] karp_row(a, m, x as nat)[j as int] is Some
                                        && min_ratio->0.numerator == karp_diff(a, m, j as int, x)
                                        && min_ratio->0.denominator == n - x && forall|x2: int|
                                        0 <= x2 < x && #[trigger] karp_row(a, m, x2 as nat)[j as int]
                                            is Some ==> frac_lt(
                                            min_ratio->0.numerator as int,
                                            min_ratio->0.denominator as int,
                                            karp_diff(a, m, j as int, x2),
                                            n - x2,
                                        )
                                &&& forall|x: int|
                                    0 <= x < k && #[trigger] karp_row(a, m, x as nat)[j as int] is Some
                                        ==> frac_le(
                                        min_ratio->0.numerator as int,
                                        min_ratio->0.denominator as int,
                                        karp_diff(a, m, j as int, x),
                                        n - x,
                                    )
                            },
                    {
                        assert(values(powers@[k as int]@)[j as int] == powers@[k as int]@[j as int]@);
                        match powers[k][j] {
                            TropicalSemiring::NegInf => {},
                            TropicalSemiring::Finite(pk_j) => {
                                let diff: i128 = an_j as i128 - pk_j as i128;
                                let den: usize = n - k;
                                assert(diff == karp_diff(a, m, j as int, k as int));
                                let smaller = match min_ratio {
                                    None => true,
                                    Some(c) => {
                                        let mn = c.numerator;
                                        let md = c.denominator;
                                        proof {
                                            lemma_cross_products_fit(diff as int, md as int);
                                            lemma_cross_products_fit(mn as int, den as int);
                                        }
                                        diff * (md as i128) < mn * (den as i128)
                                    },
                                };
                                let ghost old_min = min_ratio;
                                if smaller {
                                    min_ratio = Some(CycleMean { numerator: diff, denominator: den });
                                }
                                proof {
                                    if old_min is None {
                                        assert forall|x2: int|
                                            0 <= x2 < k && #[trigger] karp_row(a, m, x2 as nat)[j as int] is Some
                                                implies frac_lt(
                                            diff as int,
                                            den as int,
                                            karp_diff(a, m, j as int, x2),
                                            n - x2,
                                        ) by {}
                                    }
                                    if let Some(c) = old_min {
                                        if smaller {
                                            assert forall|x2: int|
                                                0 <= x2 < k && #[trigger] karp_row(a, m, x2 as nat)[j as int] is Some
                                                    implies frac_lt(
                                                diff as int,
                                                den as int,
                                                karp_diff(a, m, j as int, x2),
                                                n - x2,
                                            ) by {
                                                lemma_frac_lt_le_trans(
                                                    diff as int,
                                                    den as int,
                                                    c.numerator as int,
                                                    c.denominator as int,
                                                    karp_diff(a, m, j as int, x2),
                                                    n - x2,
                                                );
                                            }
                                            assert forall|x: int|
                                                0 <= x < k + 1 && #[trigger] karp_row(a, m, x as nat)[j as int] is Some
                                                    implies frac_le(
                                                diff as int,
                                                den as int,
                                                karp_diff(a, m, j as int, x),
                                                n - x,
                                            ) by {
                                                if x < k {
                                                    lemma_frac_le_trans(
                                                        diff as int,
                                                        den as int,
                                                        c.numerator as int,
                                                        c.denominator as int,
                                                        karp_diff(a, m, j as int, x),
                                                        n - x,
                                                    );
                                                }
                                            }
                                        }
                                    }
                                }
                            },
                        }
                    }
                    match min_ratio {
                        None => {
                            assert(!karp_candidate(a, m, j as int));
                        },
                        Some(c) => {
                            proof {
                                lemma_cross_products_fit(c.numerator as int, 1);
                            }
                            let ghost old_lambda = lambda;
                            let larger = match lambda {
                                None => true,
                                Some(l) => {
                                    proof {
                                        lemma_cross_products_fit(c.numerator as int, l.denominator as int);
                                        lemma_cross_products_fit(l.numerator as int, c.denominator as int);
                                    }
                                    c.numerator * (l.denominator as i128) > l.numerator * (
                                    c.denominator as i128)
                                },
                            };
                            if larger {
                                lambda = min_ratio;
                            }
                            proof {
                                lemma_lambda_step(a, m, j as int, c, old_lambda, lambda, larger);
                            }
                        },
                    }
                },
            }
        }
        lambda
    }
}

} // verus!
