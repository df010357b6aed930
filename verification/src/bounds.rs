//! Plain weight bounds under which every sum the computations form fits in an `i64`.
//!
//! The exact operations state their overflow conditions over the values they
//! compute; the lemmas here discharge those conditions from a bound `b` on the
//! absolute value of every finite edge weight.
use vstd::prelude::*;
use crate::semiring::{in_i64, t_mul};
use crate::matrix::{mat_pow, products_fit, tsum, MatModel};
use crate::paths::{
    fw_before, fw_improves, fw_init, fw_sums_fit, fw_through, mp_add, mp_sum, relax_rounds,
    vec_products_fit, with_zero_diagonal,
};
use crate::walks::{lemma_fw_operands_bounded, no_negative_cycles};
use crate::eigen::karp_row;

verus! {

/// The value is -∞ or a weight of absolute value at most `b`.
pub open spec fn within(x: Option<int>, b: int) -> bool {
    match x {
        None => true,
        Some(v) => -b <= v <= b,
    }
}

/// Every finite entry (i, j) with i, j < n weighs at most `b` in absolute value.
pub open spec fn weights_within(a: MatModel, n: nat, b: int) -> bool {
    forall|i: int, j: int| 0 <= i < n && 0 <= j < n ==> #[trigger] within(a[i][j], b)
}

proof fn lemma_within_mono(x: Option<int>, b: int, c: int)
    requires
        within(x, b),
        b <= c,
    ensures
        within(x, c),
{
}

proof fn lemma_mul_within(x: Option<int>, y: Option<int>, bx: int, by: int)
    requires
        within(x, bx),
        within(y, by),
    ensures
        within(t_mul(x, y), bx + by),
{
}

proof fn lemma_tsum_within(f: spec_fn(int) -> Option<int>, k: nat, b: int)
    requires
        forall|l: int| 0 <= l < k ==> #[trigger] within(f(l), b),
    ensures
        within(tsum(f, k), b),
    decreases k,
{
    if k > 0 {
        lemma_tsum_within(f, (k - 1) as nat, b);
    }
}

proof fn lemma_mp_sum_within(f: spec_fn(int) -> Option<int>, k: nat, b: int)
    requires
        forall|l: int| 0 <= l < k ==> #[trigger] within(f(l), b),
    ensures
        within(mp_sum(f, k), b),
    decreases k,
{
    if k > 0 {
        lemma_mp_sum_within(f, (k - 1) as nat, b);
    }
}

proof fn lemma_steps_bound(e: nat, b: int, top: nat)
    requires
        0 <= b,
        e <= top,
    ensures
        (e - 1) * b + b == e * b,
        e * b + b == (e + 1) * b,
        (e + 1) * b <= (top + 1) * b,
        e * b <= top * b,
        0 <= e * b,
{
    assert((e - 1) * b + b == e * b) by (nonlinear_arith);
    assert(e * b + b == (e + 1) * b) by (nonlinear_arith);
    assert((e + 1) * b <= (top + 1) * b) by (nonlinear_arith)
        requires
            0 <= b,
            e <= top,
    ;
    assert(e * b <= top * b) by (nonlinear_arith)
        requires
            0 <= b,
            e <= top,
    ;
    assert(0 <= e * b) by (nonlinear_arith)
        requires
            0 <= b,
    ;
}

/// The entries of Aᵉ (e ≥ 1) weigh at most e·b in absolute value.
pub proof fn lemma_power_within(a: MatModel, n: nat, b: int, e: nat)
    requires
        weights_within(a, n, b),
        0 <= b,
        e >= 1,
    ensures
        weights_within(mat_pow(a, n, e), n, e * b),
    decreases e,
{
    if e >= 2 {
        let e1 = (e - 1) as nat;
        lemma_power_within(a, n, b, e1);
        lemma_steps_bound(e, b, e);
        let p = mat_pow(a, n, e1);
        assert forall|i: int, j: int| 0 <= i < n && 0 <= j < n implies #[trigger] within(
            mat_pow(a, n, e)[i][j],
            e * b,
        ) by {
            let f = |l: int| t_mul(p[i][l], a[l][j]);
            assert forall|l: int| 0 <= l < n implies #[trigger] within(f(l), e * b) by {
                lemma_mul_within(p[i][l], a[l][j], e1 * b, b);
            }
            lemma_tsum_within(f, n, e * b);
        }
    }
}

/// With every finite weight of absolute value at most `b` and (top + 1)·b within
/// `i64`, every product A^e ⊗ A for 1 ≤ e ≤ top forms fits in an `i64`: the
/// overflow condition of `power` (exponents up to top + 1) and of `kleene_star`
/// (top one less than the dimension).
pub proof fn lemma_power_products_fit(a: MatModel, n: nat, b: int, top: nat)
    requires
        weights_within(a, n, b),
        0 <= b,
        (top + 1) * b <= i64::MAX,
    ensures
        forall|e: nat| 1 <= e <= top ==> #[trigger] products_fit(mat_pow(a, n, e), a, n, n, n),
{
    assert forall|e: nat| 1 <= e <= top implies #[trigger] products_fit(
        mat_pow(a, n, e),
        a,
        n,
        n,
        n,
    ) by {
        lemma_power_within(a, n, b, e);
        lemma_steps_bound(e, b, top);
        let p = mat_pow(a, n, e);
        assert forall|i: int, k: int, j: int|
            0 <= i < n && 0 <= k < n && 0 <= j < n implies #[trigger] in_i64(
            t_mul(p[i][k], a[k][j]),
        ) by {
            lemma_mul_within(p[i][k], a[k][j], e * b, b);
        }
    }
}

/// Zeroing the diagonal keeps weights within a nonnegative bound.
pub proof fn lemma_zero_diagonal_within(a: MatModel, n: nat, b: int)
    requires
        weights_within(a, n, b),
        0 <= b,
    ensures
        weights_within(with_zero_diagonal(a, n), n, b),
{
}

/// The overflow condition of `apsp` from a plain bound: every finite weight of
/// absolute value at most `b`, with (n + 1)·b within `i64`.
pub proof fn lemma_apsp_products_fit(a: MatModel, n: nat, b: int)
    requires
        weights_within(a, n, b),
        0 <= b,
        (n + 1) * b <= i64::MAX,
    ensures
        forall|e: nat|
            1 <= e <= n ==> #[trigger] products_fit(
                mat_pow(with_zero_diagonal(a, n), n, e),
                with_zero_diagonal(a, n),
                n,
                n,
                n,
            ),
{
    lemma_zero_diagonal_within(a, n, b);
    lemma_power_products_fit(with_zero_diagonal(a, n), n, b, n);
}

/// After `t` relaxation rounds every finite distance weighs at most t·b in absolute value.
pub proof fn lemma_relax_rounds_within(a: MatModel, n: nat, s: int, b: int, t: nat)
    requires
        weights_within(a, n, b),
        0 <= b,
    ensures
        forall|j: int| 0 <= j < n ==> #[trigger] within(relax_rounds(a, n, s, t)[j], t * b),
    decreases t,
{
    if t > 0 {
        let t1 = (t - 1) as nat;
        lemma_relax_rounds_within(a, n, s, b, t1);
        lemma_steps_bound(t, b, t);
        let d = relax_rounds(a, n, s, t1);
        assert forall|j: int| 0 <= j < n implies #[trigger] within(
            relax_rounds(a, n, s, t)[j],
            t * b,
        ) by {
            let f = |l: int| t_mul(d[l], a[l][j]);
            assert forall|l: int| 0 <= l < n implies #[trigger] within(f(l), t * b) by {
                lemma_mul_within(d[l], a[l][j], t1 * b, b);
            }
            lemma_mp_sum_within(f, n, t * b);
            lemma_within_mono(d[j], t1 * b, t * b);
            assert(relax_rounds(a, n, s, t)[j] == mp_add(d[j], mp_sum(f, n)));
        }
    }
}

/// The overflow condition of `sssp` from a plain bound: every finite weight of
/// absolute value at most `b`, with n·b within `i64`.
pub proof fn lemma_sssp_products_fit(a: MatModel, n: nat, s: int, b: int)
    requires
        weights_within(a, n, b),
        0 <= b,
        n * b <= i64::MAX,
    ensures
        forall|t: nat| t < n ==> #[trigger] vec_products_fit(relax_rounds(a, n, s, t), a, n),
{
    assert forall|t: nat| t < n implies #[trigger] vec_products_fit(
        relax_rounds(a, n, s, t),
        a,
        n,
    ) by {
        lemma_relax_rounds_within(a, n, s, b, t);
        lemma_steps_bound(t, b, (n - 1) as nat);
        let d = relax_rounds(a, n, s, t);
        assert forall|k: int, j: int| 0 <= k < n && 0 <= j < n implies #[trigger] in_i64(
            t_mul(d[k], a[k][j]),
        ) by {
            lemma_mul_within(d[k], a[k][j], t * b, b);
        }
    }
}

/// Row `t` of Karp's table weighs at most t·b in absolute value.
pub proof fn lemma_karp_row_within(a: MatModel, n: nat, b: int, t: nat)
    requires
        weights_within(a, n, b),
        0 <= b,
    ensures
        forall|j: int| 0 <= j < n ==> #[trigger] within(karp_row(a, n, t)[j], t * b),
    decreases t,
{
    if t > 0 {
        let t1 = (t - 1) as nat;
        lemma_karp_row_within(a, n, b, t1);
        lemma_steps_bound(t, b, t);
        let d = karp_row(a, n, t1);
        assert forall|j: int| 0 <= j < n implies #[trigger] within(karp_row(a, n, t)[j], t * b) by {
            let f = |l: int| t_mul(d[l], a[l][j]);
            assert forall|l: int| 0 <= l < n implies #[trigger] within(f(l), t * b) by {
                lemma_mul_within(d[l], a[l][j], t1 * b, b);
            }
            lemma_tsum_within(f, n, t * b);
        }
    }
}

/// The overflow condition of `max_cycle_mean` from a plain bound: every finite
/// weight of absolute value at most `b`, with n·b within `i64`.
pub proof fn lemma_karp_products_fit(a: MatModel, n: nat, b: int)
    requires
        weights_within(a, n, b),
        0 <= b,
        n * b <= i64::MAX,
    ensures
        forall|t: nat| t < n ==> #[trigger] vec_products_fit(karp_row(a, n, t), a, n),
{
    assert forall|t: nat| t < n implies #[trigger] vec_products_fit(karp_row(a, n, t), a, n) by {
        lemma_karp_row_within(a, n, b, t);
        lemma_steps_bound(t, b, (n - 1) as nat);
        let d = karp_row(a, n, t);
        assert forall|k: int, j: int| 0 <= k < n && 0 <= j < n implies #[trigger] in_i64(
            t_mul(d[k], a[k][j]),
        ) by {
            lemma_mul_within(d[k], a[k][j], t * b, b);
        }
    }
}

/// The overflow condition of `shortest_paths` from a plain bound: without negative
/// cycles, with every finite weight of absolute value at most `b` and 2·n·b within
/// `i64`, every distance the Floyd-Warshall run forms fits in an `i64`.
pub proof fn lemma_shortest_paths_sums_fit(a: MatModel, n: nat, b: int)
    requires
        weights_within(a, n, b),
        0 <= b,
        no_negative_cycles(fw_init(a, n), n),
        2 * (n * b) <= i64::MAX,
    ensures
        fw_sums_fit(a, n),
{
    assert forall|k: nat, i: nat, j: nat|
        k < n && i < n && j < n && #[trigger] fw_improves(
            fw_before(a, n, k, i, j),
            k as int,
            i as int,
            j as int,
        ) implies in_i64(Some(fw_through(fw_before(a, n, k, i, j), k as int, i as int, j as int))) by {
        lemma_fw_operands_bounded(a, n, b, k, i, j);
    }
}

} // verus!
