//! What the path computations mean in terms of walks and their weights.
use vstd::prelude::*;
use crate::semiring::{t_add, t_le, t_mul};
use crate::matrix::{dot, has_shape, lemma_mat_pow_shape, mat_mul, mat_pow, pow_sum, tsum, MatModel};
use crate::eigen::lemma_pigeonhole;
use crate::bounds::{weights_within, within};
use crate::paths::{
    pow_series, with_zero_diagonal, fw, fw_before, fw_cell, fw_improves, fw_init, fw_row, fw_rows, fw_through, mp_add, mp_sum, relax_rounds, unit_vec,
};

verus! {

/// `w` is a walk of `e` edges from `i` to `j` through nodes `0..n`.
pub open spec fn is_walk(w: Seq<int>, n: nat, e: nat, i: int, j: int) -> bool {
    &&& w.len() == e + 1
    &&& w[0] == i
    &&& w[e as int] == j
    &&& forall|t: int| 0 <= t <= e ==> 0 <= #[trigger] w[t] < n
}

/// The weight of a walk: the ⊗ of its edge weights (0 for a walk without edges).
pub open spec fn walk_weight(a: MatModel, w: Seq<int>) -> Option<int>
    decreases w.len(),
{
    if w.len() <= 1 {
        Some(0int)
    } else {
        t_mul(walk_weight(a, w.drop_last()), a[w[w.len() - 2]][w.last()])
    }
}

/// Every term of a tropical sum lies below the sum.
pub(crate) proof fn lemma_tsum_upper(f: spec_fn(int) -> Option<int>, n: nat, l: int)
    requires
        0 <= l < n,
    ensures
        t_le(f(l), tsum(f, n)),
    decreases n,
{
    if l < n - 1 {
        lemma_tsum_upper(f, (n - 1) as nat, l);
    }
}

/// A finite tropical sum equals one of its terms.
pub(crate) proof fn lemma_tsum_attained(f: spec_fn(int) -> Option<int>, n: nat)
    requires
        tsum(f, n) is Some,
    ensures
        exists|l: int| 0 <= l < n && tsum(f, n) == #[trigger] f(l),
    decreases n,
{
    let n1 = (n - 1) as nat;
    if tsum(f, n1) is Some && t_add(tsum(f, n1), f(n1 as int)) == tsum(f, n1) {
        lemma_tsum_attained(f, n1);
        let l = choose|l: int| 0 <= l < n1 && tsum(f, n1) == #[trigger] f(l);
        assert(0 <= l < n && tsum(f, n) == f(l));
    } else {
        assert(tsum(f, n) == f(n1 as int));
    }
}

/// Entry (i, j) of Aᵉ is the greatest weight of a walk of `e` edges from `i` to `j`:
/// no such walk weighs more, and a finite entry is the weight of one of them
/// (so the entry is -∞ exactly when every such walk has weight -∞).
pub proof fn lemma_power_is_best_walk(a: MatModel, n: nat, e: nat, i: int, j: int)
    requires
        has_shape(a, n, n),
        0 <= i < n,
        0 <= j < n,
    ensures
        forall|w: Seq<int>|
            #[trigger] is_walk(w, n, e, i, j) ==> t_le(walk_weight(a, w), mat_pow(a, n, e)[i][j]),
        mat_pow(a, n, e)[i][j] is Some ==> exists|w: Seq<int>|
            #[trigger] is_walk(w, n, e, i, j) && walk_weight(a, w) == mat_pow(a, n, e)[i][j],
    decreases e,
{
    if e == 0 {
        assert forall|w: Seq<int>| #[trigger] is_walk(w, n, e, i, j) implies t_le(
            walk_weight(a, w),
            mat_pow(a, n, e)[i][j],
        ) by {
            assert(w[0] == i && w[0] == j);
        }
        if mat_pow(a, n, e)[i][j] is Some {
            let w = seq![i];
            assert(is_walk(w, n, e, i, j));
        }
    } else if e == 1 {
        assert forall|w: Seq<int>| #[trigger] is_walk(w, n, e, i, j) implies t_le(
            walk_weight(a, w),
            mat_pow(a, n, e)[i][j],
        ) by {
            assert(w.drop_last().len() == 1);
            assert(walk_weight(a, w.drop_last()) == Some(0int));
            assert(w[w.len() - 2] == i && w.last() == j);
            assert(walk_weight(a, w) == t_mul(Some(0int), a[i][j]));
        }
        if mat_pow(a, n, e)[i][j] is Some {
            let w = seq![i, j];
            assert(w.drop_last().len() == 1);
            assert(is_walk(w, n, e, i, j));
            assert(walk_weight(a, w.drop_last()) == Some(0int));
            assert(w[w.len() - 2] == i && w.last() == j);
            assert(walk_weight(a, w) == t_mul(Some(0int), a[i][j]));
        }
    } else {
        let e1 = (e - 1) as nat;
        let p = mat_pow(a, n, e1);
        let f = |l: int| t_mul(p[i][l], a[l][j]);
        assert(mat_pow(a, n, e)[i][j] == tsum(f, n));
        assert forall|w: Seq<int>| #[trigger] is_walk(w, n, e, i, j) implies t_le(
            walk_weight(a, w),
            mat_pow(a, n, e)[i][j],
        ) by {
            let l = w[e1 as int];
            let w1 = w.drop_last();
            assert(is_walk(w1, n, e1, i, l)) by {
                assert forall|t: int| 0 <= t <= e1 implies 0 <= #[trigger] w1[t] < n by {
                    assert(w1[t] == w[t]);
                }
            }
            lemma_power_is_best_walk(a, n, e1, i, l);
            assert(t_le(walk_weight(a, w1), p[i][l]));
            assert(walk_weight(a, w) == t_mul(walk_weight(a, w1), a[l][j]));
            lemma_tsum_upper(f, n, l);
        }
        if tsum(f, n) is Some {
            lemma_tsum_attained(f, n);
            let l = choose|l: int| 0 <= l < n && tsum(f, n) == #[trigger] f(l);
            lemma_power_is_best_walk(a, n, e1, i, l);
            let w1 = choose|w: Seq<int>|
                #[trigger] is_walk(w, n, e1, i, l) && walk_weight(a, w) == p[i][l];
            let w = w1.push(j);
            assert(w.drop_last() =~= w1);
            assert(is_walk(w, n, e, i, j)) by {
                assert forall|t: int| 0 <= t <= e implies 0 <= #[trigger] w[t] < n by {
                    if t < e {
                        assert(w[t] == w1[t]);
                    }
                }
            }
            assert(walk_weight(a, w) == t_mul(walk_weight(a, w1), a[l][j]));
        }
    }
}

/// `w` is a walk, of any number of edges, from `i` to `j` through nodes `0..n`.
pub open spec fn is_route(w: Seq<int>, n: nat, i: int, j: int) -> bool {
    &&& w.len() >= 1
    &&& w[0] == i
    &&& w.last() == j
    &&& forall|t: int| 0 <= t < w.len() ==> 0 <= #[trigger] w[t] < n
}

/// The min-plus order: no path (`None`, +∞) lies above every distance.
pub open spec fn mp_le(x: Option<int>, y: Option<int>) -> bool {
    match (x, y) {
        (_, None) => true,
        (None, Some(_)) => false,
        (Some(u), Some(v)) => u <= v,
    }
}

/// Every known distance of `d` is the weight, in the edge weights `d0`, of a walk
/// with at least one edge.
pub open spec fn realized(d0: MatModel, d: MatModel, n: nat) -> bool {
    forall|i: int, j: int|
        0 <= i < n && 0 <= j < n && (#[trigger] d[i][j]) is Some ==> exists|w: Seq<int>|
            #[trigger] is_route(w, n, i, j) && w.len() >= 2 && walk_weight(d0, w) == d[i][j]
}

/// Every known distance of `d` is the weight, in the edge weights `d0`, of a walk
/// with at least one edge whose inner nodes all lie below `m`.
pub open spec fn realized_upto(d0: MatModel, d: MatModel, n: nat, m: int) -> bool {
    forall|i: int, j: int|
        0 <= i < n && 0 <= j < n && (#[trigger] d[i][j]) is Some ==> exists|w: Seq<int>|
            #[trigger] is_route(w, n, i, j) && w.len() >= 2 && inner_below(w, m) && walk_weight(d0, w)
                == d[i][j]
}

/// Walks realized with inner nodes below `m1` have them below any `m2` ≥ `m1`,
/// and realize the distances.
proof fn lemma_upto_weaken(d0: MatModel, d: MatModel, n: nat, m1: int, m2: int)
    requires
        realized_upto(d0, d, n, m1),
        m1 <= m2,
    ensures
        realized_upto(d0, d, n, m2),
        realized(d0, d, n),
{
    assert forall|i: int, j: int| 0 <= i < n && 0 <= j < n && (#[trigger] d[i][j]) is Some
        implies exists|w: Seq<int>| #[trigger] is_route(w, n, i, j) && w.len() >= 2 && inner_below(
        w,
        m2,
    ) && walk_weight(d0, w) == d[i][j] by {
        let w = choose|w: Seq<int>|
            #[trigger] is_route(w, n, i, j) && w.len() >= 2 && inner_below(w, m1) && walk_weight(d0, w)
                == d[i][j];
        assert(inner_below(w, m2));
    }
    assert forall|i: int, j: int| 0 <= i < n && 0 <= j < n && (#[trigger] d[i][j]) is Some
        implies exists|w: Seq<int>| #[trigger] is_route(w, n, i, j) && w.len() >= 2 && walk_weight(
        d0,
        w,
    ) == d[i][j] by {
        let w = choose|w: Seq<int>|
            #[trigger] is_route(w, n, i, j) && w.len() >= 2 && inner_below(w, m1) && walk_weight(d0, w)
                == d[i][j];
    }
}

/// No distance of `d` exceeds the corresponding one of `d0`.
pub open spec fn below(d: MatModel, d0: MatModel, n: nat) -> bool {
    forall|i: int, j: int| 0 <= i < n && 0 <= j < n ==> mp_le(#[trigger] d[i][j], d0[i][j])
}

/// Joining a walk that ends where a second starts adds their weights.
pub(crate) proof fn lemma_walk_concat(d0: MatModel, w1: Seq<int>, w2: Seq<int>)
    requires
        w1.len() >= 1,
        w2.len() >= 1,
        w1.last() == w2[0],
    ensures
        walk_weight(d0, w1 + w2.skip(1)) == t_mul(walk_weight(d0, w1), walk_weight(d0, w2)),
    decreases w2.len(),
{
    let w = w1 + w2.skip(1);
    if w2.len() == 1 {
        assert(w =~= w1);
    } else {
        let w2p = w2.drop_last();
        lemma_walk_concat(d0, w1, w2p);
        assert(w.drop_last() =~= w1 + w2p.skip(1));
        assert(w[w.len() - 2] == w2[w2.len() - 2]);
        assert(w.last() == w2.last());
    }
}

/// The one-edge walk [i, j] weighs d0[i][j].
proof fn lemma_edge_walk(d0: MatModel, n: nat, i: int, j: int)
    requires
        0 <= i < n,
        0 <= j < n,
    ensures
        is_route(seq![i, j], n, i, j),
        walk_weight(d0, seq![i, j]) == d0[i][j],
{
    let w = seq![i, j];
    assert(w.drop_last() =~= seq![i]);
    assert(walk_weight(d0, w.drop_last()) == Some(0int));
    assert(w[w.len() - 2] == i && w.last() == j);
    assert(walk_weight(d0, w) == t_mul(Some(0int), d0[i][j]));
}

proof fn lemma_init_realized(a: MatModel, n: nat)
    ensures
        has_shape(fw_init(a, n), n, n),
        realized_upto(fw_init(a, n), fw_init(a, n), n, 0),
        below(fw_init(a, n), fw_init(a, n), n),
{
    let d0 = fw_init(a, n);
    assert forall|i: int, j: int| 0 <= i < n && 0 <= j < n && (#[trigger] d0[i][j]) is Some
        implies exists|w: Seq<int>| #[trigger] is_route(w, n, i, j) && w.len() >= 2 && inner_below(
        w,
        0,
    ) && walk_weight(d0, w) == d0[i][j] by {
        lemma_edge_walk(d0, n, i, j);
        assert(inner_below(seq![i, j], 0));
    }
}

proof fn lemma_cell_realized(d0: MatModel, d: MatModel, n: nat, k: int, i: int, j: int)
    requires
        has_shape(d, n, n),
        realized_upto(d0, d, n, k + 1),
        below(d, d0, n),
        0 <= k < n,
        0 <= i < n,
        0 <= j < n,
    ensures
        has_shape(fw_cell(d, k, i, j), n, n),
        realized_upto(d0, fw_cell(d, k, i, j), n, k + 1),
        below(fw_cell(d, k, i, j), d0, n),
{
    let d2 = fw_cell(d, k, i, j);
    if fw_improves(d, k, i, j) {
        assert forall|x: int, y: int| 0 <= x < n && 0 <= y < n && (#[trigger] d2[x][y]) is Some
            implies exists|w: Seq<int>| #[trigger] is_route(w, n, x, y) && w.len() >= 2
            && inner_below(w, k + 1) && walk_weight(d0, w) == d2[x][y] by {
            if x == i && y == j {
                assert(d[i][k] is Some && d[k][j] is Some);
                let w1 = choose|w: Seq<int>|
                    #[trigger] is_route(w, n, i, k) && w.len() >= 2 && inner_below(w, k + 1)
                        && walk_weight(d0, w) == d[i][k];
                let w2 = choose|w: Seq<int>|
                    #[trigger] is_route(w, n, k, j) && w.len() >= 2 && inner_below(w, k + 1)
                        && walk_weight(d0, w) == d[k][j];
                lemma_walk_concat(d0, w1, w2);
                let w = w1 + w2.skip(1);
                assert(is_route(w, n, i, j)) by {
                    assert forall|t: int| 0 <= t < w.len() implies 0 <= #[trigger] w[t] < n by {
                        if t < w1.len() {
                            assert(w[t] == w1[t]);
                        } else {
                            assert(w[t] == w2[t - w1.len() + 1]);
                        }
                    }
                    if w2.len() == 1 {
                        assert(w =~= w1);
                    } else {
                        assert(w.last() == w2.last());
                    }
                }
                assert(inner_below(w, k + 1)) by {
                    assert forall|t: int| 0 < t < w.len() - 1 implies #[trigger] w[t] < k + 1 by {
                        if t < w1.len() - 1 {
                            assert(w[t] == w1[t]);
                        } else if t == w1.len() - 1 {
                            assert(w[t] == w1.last());
                        } else {
                            assert(w[t] == w2[t - w1.len() + 1]);
                        }
                    }
                }
                assert(d2[i][j] == Some(fw_through(d, k, i, j)));
            } else {
                assert(d2[x][y] == d[x][y]);
            }
        }
        assert forall|x: int, y: int| 0 <= x < n && 0 <= y < n implies mp_le(
            #[trigger] d2[x][y],
            d0[x][y],
        ) by {
            if x == i && y == j {
                assert(mp_le(d[i][j], d0[i][j]));
            } else {
                assert(d2[x][y] == d[x][y]);
            }
        }
    }
}

proof fn lemma_row_realized(d0: MatModel, d: MatModel, n: nat, k: int, i: int, j: nat)
    requires
        has_shape(d, n, n),
        realized_upto(d0, d, n, k + 1),
        below(d, d0, n),
        0 <= k < n,
        0 <= i < n,
        j <= n,
    ensures
        has_shape(fw_row(d, k, i, j), n, n),
        realized_upto(d0, fw_row(d, k, i, j), n, k + 1),
        below(fw_row(d, k, i, j), d0, n),
    decreases j,
{
    if j > 0 {
        lemma_row_realized(d0, d, n, k, i, (j - 1) as nat);
        lemma_cell_realized(d0, fw_row(d, k, i, (j - 1) as nat), n, k, i, j - 1);
    }
}

proof fn lemma_rows_realized(d0: MatModel, d: MatModel, n: nat, k: int, i: nat)
    requires
        has_shape(d, n, n),
        realized_upto(d0, d, n, k + 1),
        below(d, d0, n),
        0 <= k < n,
        i <= n,
    ensures
        has_shape(fw_rows(d, k, i, n), n, n),
        realized_upto(d0, fw_rows(d, k, i, n), n, k + 1),
        below(fw_rows(d, k, i, n), d0, n),
    decreases i,
{
    if i > 0 {
        lemma_rows_realized(d0, d, n, k, (i - 1) as nat);
        lemma_row_realized(d0, fw_rows(d, k, (i - 1) as nat, n), n, k, i - 1, n);
    }
}

proof fn lemma_fw_realized(a: MatModel, n: nat, k: nat)
    requires
        k <= n,
    ensures
        has_shape(fw(fw_init(a, n), k, n), n, n),
        realized(fw_init(a, n), fw(fw_init(a, n), k, n), n),
        realized_upto(fw_init(a, n), fw(fw_init(a, n), k, n), n, k as int),
        below(fw(fw_init(a, n), k, n), fw_init(a, n), n),
    decreases k,
{
    lemma_init_realized(a, n);
    if k > 0 {
        lemma_fw_realized(a, n, (k - 1) as nat);
        lemma_upto_weaken(fw_init(a, n), fw(fw_init(a, n), (k - 1) as nat, n), n, k - 1, k as int);
        lemma_rows_realized(fw_init(a, n), fw(fw_init(a, n), (k - 1) as nat, n), n, k - 1, n);
    }
    lemma_upto_weaken(fw_init(a, n), fw(fw_init(a, n), k, n), n, k as int, k as int);
}

/// Every distance that the all-pairs shortest path computation reports is the
/// weight of an actual walk of at least one edge (edges of `a`, plus a zero-weight
/// loop at each node without one), and no distance exceeds the direct edge.
pub proof fn lemma_shortest_paths_sound(a: MatModel, n: nat)
    ensures
        realized(fw_init(a, n), fw(fw_init(a, n), n, n), n),
        below(fw(fw_init(a, n), n, n), fw_init(a, n), n),
{
    lemma_fw_realized(a, n, n);
}

/// No closed walk with at least one edge has negative weight in `d0`.
pub open spec fn no_negative_cycles(d0: MatModel, n: nat) -> bool {
    forall|w: Seq<int>, x: int|
        #[trigger] is_route(w, n, x, x) && w.len() >= 2 ==> mp_le(Some(0int), walk_weight(d0, w))
}

/// All inner nodes of the walk lie below `k`.
pub open spec fn inner_below(w: Seq<int>, k: int) -> bool {
    forall|t: int| 0 < t < w.len() - 1 ==> #[trigger] w[t] < k
}

/// No distance of `d` exceeds the weight in `d0` of a walk of at least one edge
/// whose inner nodes all lie below `k`.
pub open spec fn complete_upto(d0: MatModel, d: MatModel, n: nat, k: int) -> bool {
    forall|i: int, j: int, w: Seq<int>|
        0 <= i < n && 0 <= j < n && #[trigger] is_route(w, n, i, j) && w.len() >= 2 && inner_below(
            w,
            k,
        ) ==> mp_le(d[i][j], walk_weight(d0, w))
}

proof fn lemma_cell_mono(d: MatModel, n: nat, k: int, i: int, j: int)
    requires
        has_shape(d, n, n),
        0 <= k < n,
        0 <= i < n,
        0 <= j < n,
    ensures
        has_shape(fw_cell(d, k, i, j), n, n),
        below(fw_cell(d, k, i, j), d, n),
        d[i][k] is Some && d[k][j] is Some ==> fw_cell(d, k, i, j)[i][j] is Some && fw_cell(
            d,
            k,
            i,
            j,
        )[i][j]->0 <= d[i][k]->0 + d[k][j]->0,
{
    let d2 = fw_cell(d, k, i, j);
    assert forall|x: int, y: int| 0 <= x < n && 0 <= y < n implies mp_le(
        #[trigger] d2[x][y],
        d[x][y],
    ) by {
        if x != i || y != j {
            assert(d2[x][y] == d[x][y]);
        }
    }
}

proof fn lemma_below_trans(a: MatModel, b: MatModel, c: MatModel, n: nat)
    requires
        below(a, b, n),
        below(b, c, n),
    ensures
        below(a, c, n),
{
    assert forall|x: int, y: int| 0 <= x < n && 0 <= y < n implies mp_le(#[trigger] a[x][y], c[x][y]) by {
        assert(mp_le(a[x][y], b[x][y]));
        assert(mp_le(b[x][y], c[x][y]));
    }
}

proof fn lemma_below_refl(a: MatModel, n: nat)
    ensures
        below(a, a, n),
{
}

/// Relaxing more entries of a row only lowers distances.
proof fn lemma_row_mono(d: MatModel, n: nat, k: int, i: int, j1: nat, j2: nat)
    requires
        has_shape(d, n, n),
        0 <= k < n,
        0 <= i < n,
        j1 <= j2 <= n,
    ensures
        has_shape(fw_row(d, k, i, j2), n, n),
        below(fw_row(d, k, i, j2), fw_row(d, k, i, j1), n),
    decreases j2,
{
    if j2 == j1 {
        lemma_below_refl(fw_row(d, k, i, j2), n);
        if j2 > 0 {
            lemma_row_mono(d, n, k, i, 0, (j2 - 1) as nat);
            lemma_cell_mono(fw_row(d, k, i, (j2 - 1) as nat), n, k, i, j2 - 1);
        }
    } else {
        lemma_row_mono(d, n, k, i, j1, (j2 - 1) as nat);
        lemma_cell_mono(fw_row(d, k, i, (j2 - 1) as nat), n, k, i, j2 - 1);
        lemma_below_trans(
            fw_row(d, k, i, j2),
            fw_row(d, k, i, (j2 - 1) as nat),
            fw_row(d, k, i, j1),
            n,
        );
    }
}

/// Relaxing more rows only lowers distances.
proof fn lemma_rows_mono(d: MatModel, n: nat, k: int, i1: nat, i2: nat)
    requires
        has_shape(d, n, n),
        0 <= k < n,
        i1 <= i2 <= n,
    ensures
        has_shape(fw_rows(d, k, i2, n), n, n),
        below(fw_rows(d, k, i2, n), fw_rows(d, k, i1, n), n),
    decreases i2,
{
    if i2 == i1 {
        lemma_below_refl(fw_rows(d, k, i2, n), n);
        if i2 > 0 {
            lemma_rows_mono(d, n, k, 0, (i2 - 1) as nat);
            lemma_row_mono(fw_rows(d, k, (i2 - 1) as nat, n), n, k, i2 - 1, 0, n);
        }
    } else {
        lemma_rows_mono(d, n, k, i1, (i2 - 1) as nat);
        lemma_row_mono(fw_rows(d, k, (i2 - 1) as nat, n), n, k, i2 - 1, 0, n);
        lemma_below_trans(
            fw_rows(d, k, i2, n),
            fw_rows(d, k, (i2 - 1) as nat, n),
            fw_rows(d, k, i1, n),
            n,
        );
    }
}

/// After the phase through `k`, entry (i, j) is at most d[i][k] + d[k][j].
proof fn lemma_phase_bound(d: MatModel, n: nat, k: int, i: int, j: int)
    requires
        has_shape(d, n, n),
        0 <= k < n,
        0 <= i < n,
        0 <= j < n,
        d[i][k] is Some,
        d[k][j] is Some,
    ensures
        fw_rows(d, k, n, n)[i][j] is Some,
        fw_rows(d, k, n, n)[i][j]->0 <= d[i][k]->0 + d[k][j]->0,
{
    let r = fw_rows(d, k, i as nat, n);
    lemma_rows_mono(d, n, k, 0, i as nat);
    lemma_row_mono(r, n, k, i, 0, j as nat);
    let s0 = fw_row(r, k, i, j as nat);
    lemma_below_trans(s0, r, d, n);
    lemma_cell_mono(s0, n, k, i, j);
    let s1 = fw_row(r, k, i, (j + 1) as nat);
    assert(s1 == fw_cell(s0, k, i, j));
    lemma_row_mono(r, n, k, i, (j + 1) as nat, n);
    lemma_rows_mono(d, n, k, (i + 1) as nat, n);
    assert(fw_rows(d, k, (i + 1) as nat, n) == fw_row(r, k, i, n));
    lemma_below_trans(fw_rows(d, k, n, n), fw_row(r, k, i, n), s1, n);
    assert(mp_le(fw_rows(d, k, n, n)[i][j], s1[i][j]));
    assert(mp_le(s0[i][k], d[i][k]));
    assert(mp_le(s0[k][j], d[k][j]));
}

/// The first index at or after `t`, before the last one, where `w` visits `k`
/// (the last index when there is none).
pub open spec fn first_visit(w: Seq<int>, k: int, t: int) -> int
    decreases w.len() - t,
{
    if t >= w.len() - 1 {
        t
    } else if w[t] == k {
        t
    } else {
        first_visit(w, k, t + 1)
    }
}

/// The last index at or before `t`, after the first one, where `w` visits `k`
/// (0 when there is none).
pub open spec fn last_visit(w: Seq<int>, k: int, t: int) -> int
    decreases t,
{
    if t <= 0 {
        t
    } else if w[t] == k {
        t
    } else {
        last_visit(w, k, t - 1)
    }
}

proof fn lemma_first_visit(w: Seq<int>, k: int, t: int, s: int)
    requires
        0 <= t <= s < w.len() - 1,
        w[s] == k,
    ensures
        t <= first_visit(w, k, t) <= s,
        w[first_visit(w, k, t)] == k,
        forall|u: int| t <= u < first_visit(w, k, t) ==> #[trigger] w[u] != k,
    decreases w.len() - t,
{
    if w[t] != k {
        lemma_first_visit(w, k, t + 1, s);
    }
}

proof fn lemma_last_visit(w: Seq<int>, k: int, t: int, s: int)
    requires
        0 < s <= t < w.len(),
        w[s] == k,
    ensures
        s <= last_visit(w, k, t) <= t,
        w[last_visit(w, k, t)] == k,
        forall|u: int| last_visit(w, k, t) < u <= t ==> #[trigger] w[u] != k,
    decreases t,
{
    if w[t] != k {
        lemma_last_visit(w, k, t - 1, s);
    }
}

proof fn lemma_t_mul_some(x: Option<int>, y: Option<int>)
    requires
        t_mul(x, y) is Some,
    ensures
        x is Some,
        y is Some,
        t_mul(x, y)->0 == x->0 + y->0,
{
}

/// One phase extends completeness from inner nodes below `k` to inner nodes below `k + 1`.
proof fn lemma_complete_step(d0: MatModel, d: MatModel, n: nat, k: int)
    requires
        has_shape(d, n, n),
        0 <= k < n,
        no_negative_cycles(d0, n),
        complete_upto(d0, d, n, k),
    ensures
        complete_upto(d0, fw_rows(d, k, n, n), n, k + 1),
{
    let d2 = fw_rows(d, k, n, n);
    lemma_rows_mono(d, n, k, 0, n);
    assert forall|i: int, j: int, w: Seq<int>|
        0 <= i < n && 0 <= j < n && #[trigger] is_route(w, n, i, j) && w.len() >= 2 && inner_below(
            w,
            k + 1,
        ) implies mp_le(d2[i][j], walk_weight(d0, w)) by {
        let len = w.len() as int;
        if inner_below(w, k) {
            assert(mp_le(d[i][j], walk_weight(d0, w)));
            assert(mp_le(d2[i][j], d[i][j]));
        } else if walk_weight(d0, w) is Some {
            let s = choose|t: int| 0 < t < len - 1 && !(#[trigger] w[t] < k);
            assert(w[s] == k);
            lemma_first_visit(w, k, 1, s);
            lemma_last_visit(w, k, len - 2, s);
            let p = first_visit(w, k, 1);
            let q = last_visit(w, k, len - 2);
            let prefix = w.subrange(0, p + 1);
            let rest = w.subrange(p, len);
            let middle = w.subrange(p, q + 1);
            let suffix = w.subrange(q, len);
            assert(w =~= prefix + rest.skip(1));
            assert(rest =~= middle + suffix.skip(1));
            lemma_walk_concat(d0, prefix, rest);
            lemma_walk_concat(d0, middle, suffix);
            let wp = walk_weight(d0, prefix);
            let wm = walk_weight(d0, middle);
            let ws = walk_weight(d0, suffix);
            lemma_t_mul_some(wp, walk_weight(d0, rest));
            lemma_t_mul_some(wm, ws);
            assert(is_route(prefix, n, i, k) && prefix.len() >= 2 && inner_below(prefix, k)) by {
                assert forall|t: int| 0 <= t < prefix.len() implies 0 <= #[trigger] prefix[t] < n by {
                    assert(prefix[t] == w[t]);
                }
                assert forall|t: int| 0 < t < prefix.len() - 1 implies #[trigger] prefix[t] < k by {
                    assert(prefix[t] == w[t]);
                    assert(w[t] < k + 1);
                }
            }
            assert(is_route(suffix, n, k, j) && suffix.len() >= 2 && inner_below(suffix, k)) by {
                assert forall|t: int| 0 <= t < suffix.len() implies 0 <= #[trigger] suffix[t] < n by {
                    assert(suffix[t] == w[q + t]);
                }
                assert forall|t: int| 0 < t < suffix.len() - 1 implies #[trigger] suffix[t] < k by {
                    assert(suffix[t] == w[q + t]);
                    assert(w[q + t] < k + 1);
                }
            }
            if middle.len() >= 2 {
                assert(is_route(middle, n, k, k)) by {
                    assert forall|t: int| 0 <= t < middle.len() implies 0 <= #[trigger] middle[t] < n by {
                        assert(middle[t] == w[p + t]);
                    }
                }
                assert(mp_le(Some(0int), wm));
            } else {
                assert(wm == Some(0int));
            }
            assert(mp_le(d[i][k], wp));
            assert(mp_le(d[k][j], ws));
            lemma_phase_bound(d, n, k, i, j);
        }
    }
}

proof fn lemma_fw_complete(a: MatModel, n: nat, k: nat)
    requires
        k <= n,
        no_negative_cycles(fw_init(a, n), n),
    ensures
        has_shape(fw(fw_init(a, n), k, n), n, n),
        complete_upto(fw_init(a, n), fw(fw_init(a, n), k, n), n, k as int),
    decreases k,
{
    let d0 = fw_init(a, n);
    lemma_fw_realized(a, n, k);
    if k == 0 {
        assert forall|i: int, j: int, w: Seq<int>|
            0 <= i < n && 0 <= j < n && #[trigger] is_route(w, n, i, j) && w.len() >= 2
                && inner_below(w, 0) implies mp_le(d0[i][j], walk_weight(d0, w)) by {
            if w.len() > 2 {
                assert(w[1] < 0);
            }
            assert(w =~= seq![i, j]);
            lemma_edge_walk(d0, n, i, j);
        }
    } else {
        lemma_fw_complete(a, n, (k - 1) as nat);
        lemma_complete_step(d0, fw(d0, (k - 1) as nat, n), n, k - 1);
    }
}

/// Without negative cycles, no distance that the all-pairs shortest path computation
/// reports exceeds the weight of any walk of at least one edge (edges of `a`, plus a
/// zero-weight loop at each node without one), and a pair joined by such a walk of
/// finite weight gets a finite distance.
pub proof fn lemma_shortest_paths_complete(a: MatModel, n: nat)
    requires
        no_negative_cycles(fw_init(a, n), n),
    ensures
        forall|i: int, j: int, w: Seq<int>|
            0 <= i < n && 0 <= j < n && #[trigger] is_route(w, n, i, j) && w.len() >= 2 ==> mp_le(
                fw(fw_init(a, n), n, n)[i][j],
                walk_weight(fw_init(a, n), w),
            ),
{
    lemma_fw_complete(a, n, n);
    assert forall|i: int, j: int, w: Seq<int>|
        0 <= i < n && 0 <= j < n && #[trigger] is_route(w, n, i, j) && w.len() >= 2 implies mp_le(
        fw(fw_init(a, n), n, n)[i][j],
        walk_weight(fw_init(a, n), w),
    ) by {
        assert(inner_below(w, n as int));
    }
}

/// A min-plus sum is no longer than any of its finite terms.
proof fn lemma_mp_sum_lower(f: spec_fn(int) -> Option<int>, k: nat, l: int)
    requires
        0 <= l < k,
    ensures
        mp_le(mp_sum(f, k), f(l)),
    decreases k,
{
    if l < k - 1 {
        lemma_mp_sum_lower(f, (k - 1) as nat, l);
    }
}

/// A finite min-plus sum equals one of its terms.
proof fn lemma_mp_sum_attained(f: spec_fn(int) -> Option<int>, k: nat)
    requires
        mp_sum(f, k) is Some,
    ensures
        exists|l: int| 0 <= l < k && mp_sum(f, k) == #[trigger] f(l),
    decreases k,
{
    let k1 = (k - 1) as nat;
    if mp_sum(f, k1) is Some && mp_add(mp_sum(f, k1), f(k1 as int)) == mp_sum(f, k1) {
        lemma_mp_sum_attained(f, k1);
        let l = choose|l: int| 0 <= l < k1 && mp_sum(f, k1) == #[trigger] f(l);
        assert(0 <= l < k && mp_sum(f, k) == f(l));
    } else {
        assert(mp_sum(f, k) == f(k1 as int));
    }
}

/// After `t` min-plus relaxation rounds from `s`, entry `j` is the least weight of a
/// walk from `s` to `j` of at most `t` edges: no such walk of finite weight weighs
/// less, and a finite entry is the weight of one of them (no path: `None`).
pub proof fn lemma_relax_rounds_least_walk(a: MatModel, n: nat, s: int, t: nat, j: int)
    requires
        has_shape(a, n, n),
        0 <= s < n,
        0 <= j < n,
    ensures
        forall|e: nat, w: Seq<int>|
            e <= t && #[trigger] is_walk(w, n, e, s, j) ==> mp_le(
                relax_rounds(a, n, s, t)[j],
                walk_weight(a, w),
            ),
        relax_rounds(a, n, s, t)[j] is Some ==> exists|e: nat, w: Seq<int>|
            e <= t && #[trigger] is_walk(w, n, e, s, j) && walk_weight(a, w) == relax_rounds(
                a,
                n,
                s,
                t,
            )[j],
    decreases t,
{
    let r = relax_rounds(a, n, s, t);
    if t == 0 {
        assert(r == unit_vec(n, s));
        assert forall|e: nat, w: Seq<int>| e <= t && #[trigger] is_walk(w, n, e, s, j) implies mp_le(
            r[j],
            walk_weight(a, w),
        ) by {
            assert(w[0] == s);
        }
        if r[j] is Some {
            assert(is_walk(seq![s], n, 0, s, j));
        }
    } else {
        let t1 = (t - 1) as nat;
        let prev = relax_rounds(a, n, s, t1);
        let f = |l: int| t_mul(prev[l], a[l][j]);
        assert(r[j] == mp_add(prev[j], mp_sum(f, n)));
        lemma_relax_rounds_least_walk(a, n, s, t1, j);
        assert forall|e: nat, w: Seq<int>| e <= t && #[trigger] is_walk(w, n, e, s, j) implies mp_le(
            r[j],
            walk_weight(a, w),
        ) by {
            if e < t {
                assert(mp_le(prev[j], walk_weight(a, w)));
            } else {
                let e1 = (e - 1) as nat;
                let l = w[e1 as int];
                let w1 = w.drop_last();
                assert(is_walk(w1, n, e1, s, l)) by {
                    assert forall|u: int| 0 <= u <= e1 implies 0 <= #[trigger] w1[u] < n by {
                        assert(w1[u] == w[u]);
                    }
                }
                lemma_relax_rounds_least_walk(a, n, s, t1, l);
                assert(mp_le(prev[l], walk_weight(a, w1)));
                assert(walk_weight(a, w) == t_mul(walk_weight(a, w1), a[l][j]));
                lemma_mp_sum_lower(f, n, l);
            }
        }
        if r[j] is Some {
            if r[j] == prev[j] {
                let (e, w) = choose|e: nat, w: Seq<int>|
                    e <= t1 && #[trigger] is_walk(w, n, e, s, j) && walk_weight(a, w) == prev[j];
                assert(e <= t && is_walk(w, n, e, s, j) && walk_weight(a, w) == r[j]);
            } else {
                assert(r[j] == mp_sum(f, n));
                lemma_mp_sum_attained(f, n);
                let l = choose|l: int| 0 <= l < n && mp_sum(f, n) == #[trigger] f(l);
                lemma_relax_rounds_least_walk(a, n, s, t1, l);
                let (e1, w1) = choose|e: nat, w: Seq<int>|
                    e <= t1 && #[trigger] is_walk(w, n, e, s, l) && walk_weight(a, w) == prev[l];
                let w = w1.push(j);
                assert(w.drop_last() =~= w1);
                assert(is_walk(w, n, e1 + 1, s, j)) by {
                    assert forall|u: int| 0 <= u <= e1 + 1 implies 0 <= #[trigger] w[u] < n by {
                        if u <= e1 {
                            assert(w[u] == w1[u]);
                        }
                    }
                }
                assert(walk_weight(a, w) == t_mul(walk_weight(a, w1), a[l][j]));
                assert((e1 + 1) as nat <= t && is_walk(w, n, (e1 + 1) as nat, s, j) && walk_weight(a, w) == r[j]);
            }
        }
    }
}

/// Without negative cycles, `sssp` gives shortest path weights: no walk of finite
/// weight from `source` to `j`, of any length, is shorter than entry `j`, and a
/// finite entry is the weight of such a walk (0 at `source` itself).
pub proof fn lemma_sssp_shortest(a: MatModel, n: nat, s: int, j: int)
    requires
        has_shape(a, n, n),
        no_negative_cycles(a, n),
        0 <= s < n,
        0 <= j < n,
    ensures
        forall|e: nat, w: Seq<int>|
            #[trigger] is_walk(w, n, e, s, j) ==> mp_le(
                relax_rounds(a, n, s, n)[j],
                walk_weight(a, w),
            ),
        relax_rounds(a, n, s, n)[j] is Some ==> exists|e: nat, w: Seq<int>|
            #[trigger] is_walk(w, n, e, s, j) && walk_weight(a, w) == relax_rounds(a, n, s, n)[j],
        j == s ==> relax_rounds(a, n, s, n)[j] == Some(0int),
{
    lemma_relax_rounds_least_walk(a, n, s, n, j);
    assert forall|e: nat, w: Seq<int>| #[trigger] is_walk(w, n, e, s, j) implies mp_le(
        relax_rounds(a, n, s, n)[j],
        walk_weight(a, w),
    ) by {
        lemma_sssp_walk_bound(a, n, s, j, w, e);
    }
    if j == s {
        assert(is_walk(seq![s], n, 0, s, s));
        assert(walk_weight(a, seq![s]) == Some(0int));
        let r = relax_rounds(a, n, s, n)[j];
        assert(mp_le(r, Some(0int)));
        let (e, w) = choose|e: nat, w: Seq<int>|
            e <= n && #[trigger] is_walk(w, n, e, s, j) && walk_weight(a, w) == r;
        if e > 0 {
            assert(is_route(w, n, s, s)) by {
                assert forall|u: int| 0 <= u < w.len() implies 0 <= #[trigger] w[u] < n by {}
            }
            assert(mp_le(Some(0int), walk_weight(a, w)));
        }
    }
}

proof fn lemma_sssp_walk_bound(a: MatModel, n: nat, s: int, j: int, w: Seq<int>, e: nat)
    requires
        has_shape(a, n, n),
        no_negative_cycles(a, n),
        0 <= s < n,
        0 <= j < n,
        is_walk(w, n, e, s, j),
    ensures
        mp_le(relax_rounds(a, n, s, n)[j], walk_weight(a, w)),
    decreases e,
{
    lemma_relax_rounds_least_walk(a, n, s, n, j);
    if e > n && walk_weight(a, w) is Some {
        let first = w.subrange(0, n + 1int);
        assert forall|t: int| 0 <= t < first.len() implies 0 <= #[trigger] first[t] < n by {
            assert(first[t] == w[t]);
        }
        lemma_pigeonhole(first, n);
        let (x, y) = choose|x: int, y: int|
            0 <= x < y < first.len() && #[trigger] first[x] == #[trigger] first[y];
        assert(w[x] == first[x] && w[y] == first[y]);
        lemma_walk_cut(a, w, n, e, s, j, x, y);
        let shorter = w.subrange(0, x + 1) + w.subrange(y, e + 1int).skip(1);
        let cyc = w.subrange(x, y + 1);
        assert(is_route(cyc, n, w[x], w[x])) by {
            assert forall|u: int| 0 <= u < cyc.len() implies 0 <= #[trigger] cyc[u] < n by {}
        }
        assert(mp_le(Some(0int), walk_weight(a, cyc)));
        lemma_sssp_walk_bound(a, n, s, j, shorter, (e - (y - x)) as nat);
    }
}

/// Following a walk by one that starts where it ends gives a walk of the summed
/// length whose weight is the ⊗ of the two weights.
pub proof fn lemma_walk_join(
    a: MatModel,
    n: nat,
    w1: Seq<int>,
    e1: nat,
    i: int,
    x: int,
    w2: Seq<int>,
    e2: nat,
    j: int,
)
    requires
        is_walk(w1, n, e1, i, x),
        is_walk(w2, n, e2, x, j),
    ensures
        is_walk(w1 + w2.skip(1), n, e1 + e2, i, j),
        walk_weight(a, w1 + w2.skip(1)) == t_mul(walk_weight(a, w1), walk_weight(a, w2)),
{
    let w = w1 + w2.skip(1);
    lemma_walk_concat(a, w1, w2);
    assert forall|t: int| 0 <= t <= e1 + e2 implies 0 <= #[trigger] w[t] < n by {
        if t <= e1 {
            assert(w[t] == w1[t]);
        } else {
            assert(w[t] == w2[t - e1]);
        }
    }
    if e2 == 0 {
        assert(w[(e1 + e2) as int] == w1[e1 as int]);
    } else {
        assert(w[(e1 + e2) as int] == w2[e2 as int]);
    }
}

/// The stretch of a walk between positions s and t is a walk of t - s edges.
pub proof fn lemma_walk_sub(w: Seq<int>, n: nat, e: nat, i: int, j: int, s: int, t: int)
    requires
        is_walk(w, n, e, i, j),
        0 <= s <= t <= e,
    ensures
        is_walk(w.subrange(s, t + 1), n, (t - s) as nat, w[s], w[t]),
{
    let v = w.subrange(s, t + 1);
    assert forall|u: int| 0 <= u <= t - s implies 0 <= #[trigger] v[u] < n by {
        assert(v[u] == w[s + u]);
    }
}

/// Cutting out the closed stretch between positions s < t (where the walk visits
/// the same node) leaves a walk t - s edges shorter; the weight of the whole is
/// the ⊗ of the shortened walk's and the stretch's.
pub proof fn lemma_walk_cut(a: MatModel, w: Seq<int>, n: nat, e: nat, i: int, j: int, s: int, t: int)
    requires
        is_walk(w, n, e, i, j),
        0 <= s < t <= e,
        w[s] == w[t],
    ensures
        is_walk(
            w.subrange(0, s + 1) + w.subrange(t, e + 1int).skip(1),
            n,
            (e - (t - s)) as nat,
            i,
            j,
        ),
        is_walk(w.subrange(s, t + 1), n, (t - s) as nat, w[s], w[s]),
        walk_weight(a, w) == t_mul(
            walk_weight(a, w.subrange(0, s + 1) + w.subrange(t, e + 1int).skip(1)),
            walk_weight(a, w.subrange(s, t + 1)),
        ),
{
    let head = w.subrange(0, s + 1);
    let cyc = w.subrange(s, t + 1);
    let tail = w.subrange(t, e + 1int);
    let upto = w.subrange(0, t + 1);
    lemma_walk_sub(w, n, e, i, j, 0, s);
    lemma_walk_sub(w, n, e, i, j, s, t);
    lemma_walk_sub(w, n, e, i, j, t, e as int);
    lemma_walk_sub(w, n, e, i, j, 0, t);
    assert(upto =~= head + cyc.skip(1));
    assert(w =~= upto + tail.skip(1));
    lemma_walk_concat(a, head, cyc);
    lemma_walk_concat(a, upto, tail);
    lemma_walk_join(a, n, head, s as nat, i, w[s], tail, (e - t) as nat, j);
}

/// Entry (i, j) of D ⊕ D² ⊕ ... ⊕ Dᵗ is the greatest weight in D of a walk from `i`
/// to `j` with between 1 and `t` edges: no such walk weighs more, and a finite
/// entry is the weight of one of them.
pub proof fn lemma_pow_series_best_walk(d: MatModel, n: nat, t: nat, i: int, j: int)
    requires
        has_shape(d, n, n),
        t >= 1,
        0 <= i < n,
        0 <= j < n,
    ensures
        forall|e: nat, w: Seq<int>|
            1 <= e <= t && #[trigger] is_walk(w, n, e, i, j) ==> t_le(
                walk_weight(d, w),
                pow_series(d, n, t)[i][j],
            ),
        pow_series(d, n, t)[i][j] is Some ==> exists|e: nat, w: Seq<int>|
            1 <= e <= t && #[trigger] is_walk(w, n, e, i, j) && walk_weight(d, w) == pow_series(
                d,
                n,
                t,
            )[i][j],
    decreases t,
{
    lemma_power_is_best_walk(d, n, t, i, j);
    if t == 1 {
        assert(pow_series(d, n, 1) == mat_pow(d, n, 1));
    } else {
        let t1 = (t - 1) as nat;
        lemma_pow_series_best_walk(d, n, t1, i, j);
        let prev = pow_series(d, n, t1)[i][j];
        let last = mat_pow(d, n, t)[i][j];
        assert(pow_series(d, n, t)[i][j] == t_add(prev, last));
        if pow_series(d, n, t)[i][j] is Some {
            if pow_series(d, n, t)[i][j] == prev {
                let (e, w) = choose|e: nat, w: Seq<int>|
                    1 <= e <= t1 && #[trigger] is_walk(w, n, e, i, j) && walk_weight(d, w) == prev;
                assert(1 <= e <= t && is_walk(w, n, e, i, j));
            } else {
                let w = choose|w: Seq<int>| #[trigger] is_walk(w, n, t, i, j) && walk_weight(d, w) == last;
                assert(1 <= t <= t && is_walk(w, n, t, i, j));
            }
        }
    }
}

/// The all-pairs longest walk computation: entry (i, j) is the greatest weight of a
/// walk from `i` to `j` of 1 to n + 1 steps, each step following an edge of `a`
/// between distinct nodes or staying put at weight 0.
pub proof fn lemma_apsp_best_walk(a: MatModel, n: nat, i: int, j: int)
    requires
        0 <= i < n,
        0 <= j < n,
    ensures
        forall|e: nat, w: Seq<int>|
            1 <= e <= n + 1 && #[trigger] is_walk(w, n, e, i, j) ==> t_le(
                walk_weight(with_zero_diagonal(a, n), w),
                pow_series(with_zero_diagonal(a, n), n, n + 1)[i][j],
            ),
        pow_series(with_zero_diagonal(a, n), n, n + 1)[i][j] is Some ==> exists|e: nat, w: Seq<int>|
            1 <= e <= n + 1 && #[trigger] is_walk(w, n, e, i, j) && walk_weight(
                with_zero_diagonal(a, n),
                w,
            ) == pow_series(with_zero_diagonal(a, n), n, n + 1)[i][j],
{
    lemma_pow_series_best_walk(with_zero_diagonal(a, n), n, n + 1, i, j);
}

/// The Kleene star I ⊕ A ⊕ ... ⊕ Aᵗ: entry (i, j) is the greatest weight of a walk
/// from `i` to `j` of at most `t` edges (the walk without edges weighs 0): no such
/// walk weighs more, and a finite entry is the weight of one of them.
pub proof fn lemma_kleene_best_walk(a: MatModel, n: nat, t: nat, i: int, j: int)
    requires
        has_shape(a, n, n),
        0 <= i < n,
        0 <= j < n,
    ensures
        forall|e: nat, w: Seq<int>|
            e <= t && #[trigger] is_walk(w, n, e, i, j) ==> t_le(
                walk_weight(a, w),
                pow_sum(a, n, t)[i][j],
            ),
        pow_sum(a, n, t)[i][j] is Some ==> exists|e: nat, w: Seq<int>|
            e <= t && #[trigger] is_walk(w, n, e, i, j) && walk_weight(a, w) == pow_sum(a, n, t)[i][j],
    decreases t,
{
    lemma_power_is_best_walk(a, n, t, i, j);
    if t == 0 {
        assert(pow_sum(a, n, 0) == mat_pow(a, n, 0));
    } else {
        let t1 = (t - 1) as nat;
        lemma_kleene_best_walk(a, n, t1, i, j);
        let prev = pow_sum(a, n, t1)[i][j];
        let last = mat_pow(a, n, t)[i][j];
        assert(pow_sum(a, n, t)[i][j] == t_add(prev, last));
        if pow_sum(a, n, t)[i][j] is Some {
            if pow_sum(a, n, t)[i][j] == prev {
                let (e, w) = choose|e: nat, w: Seq<int>|
                    e <= t1 && #[trigger] is_walk(w, n, e, i, j) && walk_weight(a, w) == prev;
                assert(e <= t && is_walk(w, n, e, i, j));
            } else {
                let w = choose|w: Seq<int>| #[trigger] is_walk(w, n, t, i, j) && walk_weight(a, w) == last;
                assert(t <= t && is_walk(w, n, t, i, j));
            }
        }
    }
}

/// Without negative cycles, every node's shortest distance to itself is 0.
pub proof fn lemma_shortest_paths_diagonal_zero(a: MatModel, n: nat, i: int)
    requires
        no_negative_cycles(fw_init(a, n), n),
        0 <= i < n,
    ensures
        fw(fw_init(a, n), n, n)[i][i] == Some(0int),
{
    let d0 = fw_init(a, n);
    let r = fw(d0, n, n);
    lemma_shortest_paths_sound(a, n);
    assert(mp_le(r[i][i], d0[i][i]));
    assert(r[i][i] is Some);
    let w = choose|w: Seq<int>|
        #[trigger] is_route(w, n, i, i) && w.len() >= 2 && walk_weight(d0, w) == r[i][i];
    assert(mp_le(Some(0int), walk_weight(d0, w)));
}

/// No closed walk with at least one edge has positive weight in `a` (a self-loop
/// counts as a closed walk of one edge).
pub open spec fn no_positive_cycles(a: MatModel, n: nat) -> bool {
    forall|w: Seq<int>, x: int|
        #[trigger] is_route(w, n, x, x) && w.len() >= 2 ==> t_le(walk_weight(a, w), Some(0int))
}

/// Without positive cycles, entry (i, j) of the Kleene star I ⊕ A ⊕ ... ⊕ Aⁿ
/// (n the dimension) lies above the weight of every walk from `i` to `j`, of any
/// number of edges.
pub proof fn lemma_kleene_star_longest_walk(a: MatModel, n: nat, w: Seq<int>, e: nat, i: int, j: int)
    requires
        has_shape(a, n, n),
        no_positive_cycles(a, n),
        is_walk(w, n, e, i, j),
    ensures
        t_le(walk_weight(a, w), pow_sum(a, n, n)[i][j]),
    decreases e,
{
    lemma_kleene_best_walk(a, n, n, i, j);
    if e > n && walk_weight(a, w) is Some {
        let first = w.subrange(0, n + 1int);
        assert forall|t: int| 0 <= t < first.len() implies 0 <= #[trigger] first[t] < n by {
            assert(first[t] == w[t]);
        }
        lemma_pigeonhole(first, n);
        let (x, y) = choose|x: int, y: int|
            0 <= x < y < first.len() && #[trigger] first[x] == #[trigger] first[y];
        assert(w[x] == first[x] && w[y] == first[y]);
        lemma_walk_cut(a, w, n, e, i, j, x, y);
        let shorter = w.subrange(0, x + 1) + w.subrange(y, e + 1int).skip(1);
        let cyc = w.subrange(x, y + 1);
        assert(is_route(cyc, n, w[x], w[x])) by {
            assert forall|u: int| 0 <= u < cyc.len() implies 0 <= #[trigger] cyc[u] < n by {}
        }
        assert(t_le(walk_weight(a, cyc), Some(0int)));
        lemma_kleene_star_longest_walk(a, n, shorter, (e - (y - x)) as nat, i, j);
    }
}

/// A walk weighs no more in `a` than with the diagonal zeroed, when no self-loop
/// of `a` is positive.
proof fn lemma_zero_diagonal_raises(a: MatModel, n: nat, w: Seq<int>)
    requires
        forall|x: int| 0 <= x < n ==> t_le(#[trigger] a[x][x], Some(0int)),
        w.len() >= 1,
        forall|t: int| 0 <= t < w.len() ==> 0 <= #[trigger] w[t] < n,
    ensures
        t_le(walk_weight(a, w), walk_weight(with_zero_diagonal(a, n), w)),
    decreases w.len(),
{
    if w.len() >= 2 {
        let wd = w.drop_last();
        assert forall|t: int| 0 <= t < wd.len() implies 0 <= #[trigger] wd[t] < n by {
            assert(wd[t] == w[t]);
        }
        lemma_zero_diagonal_raises(a, n, wd);
        let x = w[w.len() - 2];
        assert(0 <= x < n && 0 <= w.last() < n);
        assert(t_le(a[x][x], Some(0int)));
    }
}

/// A walk in `a` with its diagonal zeroed is, once its stays in place are
/// dropped, a walk in `a` of no more edges and the same weight.
proof fn lemma_drop_stays(a: MatModel, n: nat, w: Seq<int>, e: nat, i: int, j: int) -> (u: (
    Seq<int>,
    nat,
))
    requires
        is_walk(w, n, e, i, j),
    ensures
        is_walk(u.0, n, u.1, i, j),
        u.1 <= e,
        walk_weight(a, u.0) == walk_weight(with_zero_diagonal(a, n), w),
    decreases e,
{
    let d = with_zero_diagonal(a, n);
    if e == 0 {
        (w, 0)
    } else {
        let wd = w.drop_last();
        let x = w[e - 1];
        assert(is_walk(wd, n, (e - 1) as nat, i, x)) by {
            assert forall|t: int| 0 <= t <= e - 1 implies 0 <= #[trigger] wd[t] < n by {
                assert(wd[t] == w[t]);
            }
        }
        let (u0, e0) = lemma_drop_stays(a, n, wd, (e - 1) as nat, i, x);
        assert(w[w.len() - 2] == x && w.last() == j);
        assert(walk_weight(d, w) == t_mul(walk_weight(d, wd), d[x][j]));
        if x == j {
            (u0, e0)
        } else {
            let u = u0.push(j);
            assert(u.drop_last() =~= u0);
            assert(is_walk(u, n, e0 + 1, i, j)) by {
                assert forall|t: int| 0 <= t <= e0 + 1 implies 0 <= #[trigger] u[t] < n by {
                    if t <= e0 {
                        assert(u[t] == u0[t]);
                    }
                }
            }
            assert(u[u.len() - 2] == x);
            (u, e0 + 1)
        }
    }
}

/// Without positive cycles the all-pairs longest walk computation and the Kleene
/// star agree: D ⊕ D² ⊕ ... ⊕ D^(n+1), D being `a` with a zero diagonal, equals
/// I ⊕ A ⊕ ... ⊕ Aⁿ.
pub proof fn lemma_apsp_equals_kleene_star(a: MatModel, n: nat)
    requires
        has_shape(a, n, n),
        no_positive_cycles(a, n),
    ensures
        pow_series(with_zero_diagonal(a, n), n, n + 1) == pow_sum(a, n, n),
{
    let d = with_zero_diagonal(a, n);
    let p = pow_series(d, n, n + 1);
    let k = pow_sum(a, n, n);
    assert forall|x: int| 0 <= x < n implies t_le(#[trigger] a[x][x], Some(0int)) by {
        let loop_walk = seq![x, x];
        assert(is_route(loop_walk, n, x, x)) by {
            assert forall|u: int| 0 <= u < loop_walk.len() implies 0 <= #[trigger] loop_walk[u] < n by {}
        }
        assert(loop_walk.drop_last().len() == 1);
        assert(walk_weight(a, loop_walk.drop_last()) == Some(0int));
        assert(loop_walk[loop_walk.len() - 2] == x && loop_walk.last() == x);
        assert(walk_weight(a, loop_walk) == t_mul(Some(0int), a[x][x]));
    }
    assert forall|i: int, j: int| 0 <= i < n && 0 <= j < n implies #[trigger] p[i][j] == k[i][j] by {
        lemma_apsp_best_walk(a, n, i, j);
        lemma_kleene_best_walk(a, n, n, i, j);
        // the star lies below the longest walk computation
        if k[i][j] is Some {
            let (e, w) = choose|e: nat, w: Seq<int>|
                e <= n && #[trigger] is_walk(w, n, e, i, j) && walk_weight(a, w) == k[i][j];
            if e == 0 {
                let stay = seq![i, i];
                assert(w[0] == i && w[0] == j);
                assert(is_walk(stay, n, 1, i, j));
                assert(stay.drop_last().len() == 1);
                assert(walk_weight(d, stay.drop_last()) == Some(0int));
                assert(stay[stay.len() - 2] == i && stay.last() == i);
                assert(walk_weight(d, stay) == t_mul(Some(0int), d[i][i]));
                assert(t_le(walk_weight(d, stay), p[i][j]));
            } else {
                lemma_zero_diagonal_raises(a, n, w);
                assert(t_le(walk_weight(d, w), p[i][j]));
            }
        }
        // the longest walk computation lies below the star
        if p[i][j] is Some {
            let (e, w) = choose|e: nat, w: Seq<int>|
                1 <= e <= n + 1 && #[trigger] is_walk(w, n, e, i, j) && walk_weight(d, w) == p[i][j];
            let (u, e2) = lemma_drop_stays(a, n, w, e, i, j);
            lemma_kleene_star_longest_walk(a, n, u, e2, i, j);
        }
    }
    lemma_mat_pow_shape(d, n, n + 1);
    assert(p =~~= k) by {
        if n == 0 {
            assert(p.len() == 0 && k.len() == 0);
        } else {
            assert(p.len() == n && k.len() == n);
            assert forall|i: int| 0 <= i < n implies #[trigger] p[i].len() == n && k[i].len() == n by {}
        }
    }
}

/// A tropical sum lies below any bound that every term lies below.
proof fn lemma_tsum_below(f: spec_fn(int) -> Option<int>, k: nat, b: Option<int>)
    requires
        forall|l: int| 0 <= l < k ==> t_le(#[trigger] f(l), b),
    ensures
        t_le(tsum(f, k), b),
    decreases k,
{
    if k > 0 {
        lemma_tsum_below(f, (k - 1) as nat, b);
    }
}

/// Without positive cycles the Kleene star K = I ⊕ A ⊕ ... ⊕ Aⁿ is idempotent:
/// K ⊗ K = K, and its diagonal is 0.
pub proof fn lemma_kleene_star_idempotent(a: MatModel, n: nat)
    requires
        has_shape(a, n, n),
        no_positive_cycles(a, n),
    ensures
        forall|i: int| 0 <= i < n ==> #[trigger] pow_sum(a, n, n)[i][i] == Some(0int),
        mat_mul(pow_sum(a, n, n), pow_sum(a, n, n), n, n, n) == pow_sum(a, n, n),
{
    let k = pow_sum(a, n, n);
    assert forall|x: int| 0 <= x < n implies #[trigger] k[x][x] == Some(0int) by {
        lemma_kleene_best_walk(a, n, n, x, x);
        assert(is_walk(seq![x], n, 0, x, x));
        assert(walk_weight(a, seq![x]) == Some(0int));
        let (e, w) = choose|e: nat, w: Seq<int>|
            e <= n && #[trigger] is_walk(w, n, e, x, x) && walk_weight(a, w) == k[x][x];
        if e > 0 {
            assert(is_route(w, n, x, x)) by {
                assert forall|u: int| 0 <= u < w.len() implies 0 <= #[trigger] w[u] < n by {}
            }
        }
    }
    assert forall|i: int, j: int| 0 <= i < n && 0 <= j < n implies #[trigger] dot(k, k, i, j, n)
        == k[i][j] by {
        let f = |l: int| t_mul(k[i][l], k[l][j]);
        assert forall|l: int| 0 <= l < n implies t_le(#[trigger] f(l), k[i][j]) by {
            if k[i][l] is Some && k[l][j] is Some {
                lemma_kleene_best_walk(a, n, n, i, l);
                lemma_kleene_best_walk(a, n, n, l, j);
                let (e1, w1) = choose|e: nat, w: Seq<int>|
                    e <= n && #[trigger] is_walk(w, n, e, i, l) && walk_weight(a, w) == k[i][l];
                let (e2, w2) = choose|e: nat, w: Seq<int>|
                    e <= n && #[trigger] is_walk(w, n, e, l, j) && walk_weight(a, w) == k[l][j];
                lemma_walk_join(a, n, w1, e1, i, l, w2, e2, j);
                lemma_kleene_star_longest_walk(a, n, w1 + w2.skip(1), e1 + e2, i, j);
            }
        }
        lemma_tsum_below(f, n, k[i][j]);
        lemma_tsum_upper(f, n, j);
    }
    lemma_mat_pow_shape(a, n, n);
    assert(mat_mul(k, k, n, n, n) =~~= k) by {
        if n == 0 {
            assert(k.len() == 0);
        } else {
            assert forall|i: int| 0 <= i < n implies #[trigger] k[i].len() == n by {}
        }
    }
}

/// Without positive cycles, a walk whose edges are entries of the Kleene star K
/// weighs no more than the entry of K joining its ends.
proof fn lemma_star_walk_below(a: MatModel, n: nat, w: Seq<int>, e: nat, i: int, j: int)
    requires
        has_shape(a, n, n),
        no_positive_cycles(a, n),
        is_walk(w, n, e, i, j),
    ensures
        t_le(walk_weight(pow_sum(a, n, n), w), pow_sum(a, n, n)[i][j]),
    decreases e,
{
    let k = pow_sum(a, n, n);
    lemma_kleene_star_idempotent(a, n);
    if e == 0 {
        assert(w[0] == i && w[0] == j);
        assert(k[i][i] == Some(0int));
    } else {
        let wd = w.drop_last();
        let x = w[e - 1];
        assert(is_walk(wd, n, (e - 1) as nat, i, x)) by {
            assert forall|t: int| 0 <= t <= e - 1 implies 0 <= #[trigger] wd[t] < n by {
                assert(wd[t] == w[t]);
            }
        }
        lemma_star_walk_below(a, n, wd, (e - 1) as nat, i, x);
        assert(w[w.len() - 2] == x && w.last() == j);
        assert(walk_weight(k, w) == t_mul(walk_weight(k, wd), k[x][j]));
        let f = |l: int| t_mul(k[i][l], k[l][j]);
        lemma_tsum_upper(f, n, x);
        assert(dot(k, k, i, j, n) == mat_mul(k, k, n, n, n)[i][j]);
        assert(t_le(f(x), k[i][j]));
    }
}

/// Without positive cycles, the Kleene star of the Kleene star is the Kleene star:
/// (A*)* = A*.
pub proof fn lemma_kleene_star_of_star(a: MatModel, n: nat)
    requires
        has_shape(a, n, n),
        no_positive_cycles(a, n),
    ensures
        pow_sum(pow_sum(a, n, n), n, n) == pow_sum(a, n, n),
{
    let k = pow_sum(a, n, n);
    let s = pow_sum(k, n, n);
    lemma_kleene_star_idempotent(a, n);
    lemma_mat_pow_shape(a, n, n);
    assert(has_shape(k, n, n)) by {
        if n == 0 {
            assert(k.len() == 0);
        } else {
            assert forall|i: int| 0 <= i < n implies #[trigger] k[i].len() == n by {}
        }
    }
    assert forall|i: int, j: int| 0 <= i < n && 0 <= j < n implies #[trigger] s[i][j] == k[i][j] by {
        lemma_kleene_best_walk(k, n, n, i, j);
        // the one-edge walk [i, j] weighs k[i][j]
        lemma_edge_walk(k, n, i, j);
        assert(is_walk(seq![i, j], n, 1, i, j));
        assert(t_le(k[i][j], s[i][j]));
        if s[i][j] is Some {
            let (e, w) = choose|e: nat, w: Seq<int>|
                e <= n && #[trigger] is_walk(w, n, e, i, j) && walk_weight(k, w) == s[i][j];
            lemma_star_walk_below(a, n, w, e, i, j);
        }
    }
    assert(s =~~= k) by {
        if n == 0 {
            assert(s.len() == 0 && k.len() == 0);
        } else {
            assert forall|i: int| 0 <= i < n implies #[trigger] s[i].len() == n && k[i].len() == n by {}
        }
    }
}

/// A walk of finite weight through distances that are each realized by a walk in
/// `d0` is itself realized: some walk in `d0` with the same ends, at least as many
/// nodes, and the same weight.
proof fn lemma_route_lift(d0: MatModel, d: MatModel, n: nat, u: Seq<int>, i: int, j: int) -> (v: Seq<
    int,
>)
    requires
        realized(d0, d, n),
        is_route(u, n, i, j),
        walk_weight(d, u) is Some,
    ensures
        is_route(v, n, i, j),
        v.len() >= u.len(),
        walk_weight(d0, v) == walk_weight(d, u),
    decreases u.len(),
{
    if u.len() == 1 {
        u
    } else {
        let ud = u.drop_last();
        let x = u[u.len() - 2];
        assert(is_route(ud, n, i, x)) by {
            assert forall|t: int| 0 <= t < ud.len() implies 0 <= #[trigger] ud[t] < n by {
                assert(ud[t] == u[t]);
            }
        }
        assert(walk_weight(d, u) == t_mul(walk_weight(d, ud), d[x][j]));
        let v1 = lemma_route_lift(d0, d, n, ud, i, x);
        assert(0 <= x < n && 0 <= j < n);
        assert(d[x][j] is Some);
        let v2 = choose|w: Seq<int>|
            #[trigger] is_route(w, n, x, j) && w.len() >= 2 && walk_weight(d0, w) == d[x][j];
        lemma_walk_concat(d0, v1, v2);
        let v = v1 + v2.skip(1);
        assert(is_route(v, n, i, j)) by {
            assert forall|t: int| 0 <= t < v.len() implies 0 <= #[trigger] v[t] < n by {
                if t < v1.len() {
                    assert(v[t] == v1[t]);
                } else {
                    assert(v[t] == v2[t - v1.len() + 1]);
                }
            }
            assert(v.last() == v2.last());
        }
        v
    }
}

/// Without negative cycles, the all-pairs shortest path computation is idempotent:
/// run again on its own result, it gives that result back.
pub proof fn lemma_shortest_paths_idempotent(a: MatModel, n: nat)
    requires
        no_negative_cycles(fw_init(a, n), n),
    ensures
        fw(fw_init(fw(fw_init(a, n), n, n), n), n, n) == fw(fw_init(a, n), n, n),
{
    let d0 = fw_init(a, n);
    let r = fw(d0, n, n);
    lemma_fw_realized(a, n, n);
    lemma_shortest_paths_complete(a, n);
    // the result has a zero diagonal, so it is its own starting table
    assert forall|i: int| 0 <= i < n implies #[trigger] r[i][i] == Some(0int) by {
        lemma_shortest_paths_diagonal_zero(a, n, i);
    }
    assert(fw_init(r, n) =~~= r) by {
        assert forall|i: int| 0 <= i < n implies #[trigger] r[i].len() == n by {}
    }
    // the result has no negative cycle
    assert forall|w: Seq<int>, x: int| #[trigger] is_route(w, n, x, x) && w.len() >= 2 implies mp_le(
        Some(0int),
        walk_weight(r, w),
    ) by {
        if walk_weight(r, w) is Some {
            let v = lemma_route_lift(d0, r, n, w, x, x);
            assert(mp_le(Some(0int), walk_weight(d0, v)));
        }
    }
    assert(no_negative_cycles(fw_init(r, n), n));
    let r2 = fw(fw_init(r, n), n, n);
    lemma_fw_realized(r, n, n);
    assert forall|i: int, j: int| 0 <= i < n && 0 <= j < n implies #[trigger] r2[i][j] == r[i][j] by {
        assert(mp_le(r2[i][j], fw_init(r, n)[i][j]));
        if r2[i][j] is Some {
            let u = choose|w: Seq<int>|
                #[trigger] is_route(w, n, i, j) && w.len() >= 2 && walk_weight(fw_init(r, n), w)
                    == r2[i][j];
            let v = lemma_route_lift(d0, r, n, u, i, j);
            assert(mp_le(r[i][j], walk_weight(d0, v)));
        }
    }
    assert(r2 =~~= r) by {
        assert forall|i: int| 0 <= i < n implies #[trigger] r2[i].len() == n && r[i].len() == n by {}
    }
}

/// A walk through nodes below `n` weighs at most b per edge in absolute value.
proof fn lemma_route_within(d0: MatModel, n: nat, b: int, w: Seq<int>)
    requires
        weights_within(d0, n, b),
        0 <= b,
        w.len() >= 1,
        forall|t: int| 0 <= t < w.len() ==> 0 <= #[trigger] w[t] < n,
    ensures
        within(walk_weight(d0, w), (w.len() - 1) * b),
    decreases w.len(),
{
    if w.len() >= 2 {
        let wd = w.drop_last();
        assert forall|t: int| 0 <= t < wd.len() implies 0 <= #[trigger] wd[t] < n by {
            assert(wd[t] == w[t]);
        }
        lemma_route_within(d0, n, b, wd);
        let x = w[w.len() - 2];
        let y = w.last();
        assert(0 <= x < n && 0 <= y < n);
        assert(within(d0[x][y], b));
        assert((wd.len() - 1) * b + b == (w.len() - 1) * b) by (nonlinear_arith)
            requires
                wd.len() == w.len() - 1,
        ;
    } else {
        assert((w.len() - 1) * b == 0) by (nonlinear_arith)
            requires
                w.len() == 1,
        ;
    }
}

/// Without negative cycles, a walk of finite weight can be cut down to one of at
/// most n edges, with the same ends, no new inner nodes, and no greater weight.
proof fn lemma_route_shorten(d0: MatModel, n: nat, w: Seq<int>, i: int, j: int, m: int) -> (v: Seq<
    int,
>)
    requires
        no_negative_cycles(d0, n),
        is_route(w, n, i, j),
        w.len() >= 2,
        inner_below(w, m),
        walk_weight(d0, w) is Some,
    ensures
        is_route(v, n, i, j),
        2 <= v.len() <= n + 1,
        inner_below(v, m),
        walk_weight(d0, v) is Some,
        walk_weight(d0, v)->0 <= walk_weight(d0, w)->0,
    decreases w.len(),
{
    let e = (w.len() - 1) as nat;
    assert(is_walk(w, n, e, i, j)) by {
        assert forall|t: int| 0 <= t <= e implies 0 <= #[trigger] w[t] < n by {}
    }
    if e <= n {
        w
    } else {
        let first = w.subrange(0, n + 1int);
        assert forall|t: int| 0 <= t < first.len() implies 0 <= #[trigger] first[t] < n by {
            assert(first[t] == w[t]);
        }
        lemma_pigeonhole(first, n);
        let (x, y) = choose|x: int, y: int|
            0 <= x < y < first.len() && #[trigger] first[x] == #[trigger] first[y];
        assert(w[x] == first[x] && w[y] == first[y]);
        lemma_walk_cut(d0, w, n, e, i, j, x, y);
        let shorter = w.subrange(0, x + 1) + w.subrange(y, e + 1int).skip(1);
        let cyc = w.subrange(x, y + 1);
        assert(is_route(cyc, n, w[x], w[x])) by {
            assert forall|u: int| 0 <= u < cyc.len() implies 0 <= #[trigger] cyc[u] < n by {}
        }
        assert(mp_le(Some(0int), walk_weight(d0, cyc)));
        lemma_t_mul_some(walk_weight(d0, shorter), walk_weight(d0, cyc));
        assert(is_route(shorter, n, i, j)) by {
            assert forall|u: int| 0 <= u < shorter.len() implies 0 <= #[trigger] shorter[u] < n by {
                assert(0 <= u <= e - (y - x));
            }
        }
        assert(inner_below(shorter, m)) by {
            assert forall|t: int| 0 < t < shorter.len() - 1 implies #[trigger] shorter[t] < m by {
                if t <= x {
                    assert(shorter[t] == w[t]);
                } else {
                    assert(shorter[t] == w[t + (y - x)]);
                }
            }
        }
        lemma_route_shorten(d0, n, shorter, i, j, m)
    }
}

/// Without negative cycles, every distance realized in `d0` (weights of absolute
/// value at most b) is at least -n·b.
proof fn lemma_realized_lower(d0: MatModel, d: MatModel, n: nat, b: int, x: int, y: int)
    requires
        realized(d0, d, n),
        no_negative_cycles(d0, n),
        weights_within(d0, n, b),
        0 <= b,
        0 <= x < n,
        0 <= y < n,
        d[x][y] is Some,
    ensures
        -(n * b) <= d[x][y]->0,
{
    let w = choose|w: Seq<int>|
        #[trigger] is_route(w, n, x, y) && w.len() >= 2 && walk_weight(d0, w) == d[x][y];
    assert(inner_below(w, n as int)) by {
        assert forall|t: int| 0 < t < w.len() - 1 implies #[trigger] w[t] < n by {}
    }
    let v = lemma_route_shorten(d0, n, w, x, y, n as int);
    assert forall|t: int| 0 <= t < v.len() implies 0 <= #[trigger] v[t] < n by {}
    lemma_route_within(d0, n, b, v);
    assert((v.len() - 1) * b <= n * b) by (nonlinear_arith)
        requires
            v.len() - 1 <= n,
            0 <= b,
    ;
}

/// A distance at or below a complete stage is at most n·b once some walk with the
/// stage's inner nodes joins its ends.
proof fn lemma_complete_upper(
    d0: MatModel,
    f: MatModel,
    d: MatModel,
    n: nat,
    b: int,
    k: int,
    w: Seq<int>,
    x: int,
    y: int,
)
    requires
        complete_upto(d0, f, n, k),
        below(d, f, n),
        no_negative_cycles(d0, n),
        weights_within(d0, n, b),
        0 <= b,
        0 <= x < n,
        0 <= y < n,
        is_route(w, n, x, y),
        w.len() >= 2,
        inner_below(w, k),
        walk_weight(d0, w) is Some,
    ensures
        d[x][y] is Some,
        d[x][y]->0 <= n * b,
{
    let v = lemma_route_shorten(d0, n, w, x, y, k);
    assert(mp_le(f[x][y], walk_weight(d0, v)));
    assert(mp_le(d[x][y], f[x][y]));
    assert forall|t: int| 0 <= t < v.len() implies 0 <= #[trigger] v[t] < n by {}
    lemma_route_within(d0, n, b, v);
    assert((v.len() - 1) * b <= n * b) by (nonlinear_arith)
        requires
            v.len() - 1 <= n,
            0 <= b,
    ;
}

/// In the phase through `k`, just before entry (i, j) is relaxed, the two distances
/// it adds, d[i][k] and d[k][j], weigh at most n·b in absolute value when no cycle
/// is negative and every edge weighs at most b in absolute value.
pub(crate) proof fn lemma_fw_operands_bounded(a: MatModel, n: nat, b: int, k: nat, i: nat, j: nat)
    requires
        weights_within(a, n, b),
        0 <= b,
        no_negative_cycles(fw_init(a, n), n),
        k < n,
        i < n,
        j < n,
    ensures
        within(fw_before(a, n, k, i, j)[i as int][k as int], n * b),
        within(fw_before(a, n, k, i, j)[k as int][j as int], n * b),
{
    let d0 = fw_init(a, n);
    let f = fw(d0, k, n);
    let ki = k as int;
    let r = fw_rows(f, ki, i, n);
    let d = fw_before(a, n, k, i, j);
    assert(weights_within(d0, n, b)) by {
        assert forall|x: int, y: int| 0 <= x < n && 0 <= y < n implies #[trigger] within(d0[x][y], b) by {
            assert(within(a[x][y], b));
        }
    }
    lemma_fw_realized(a, n, k);
    lemma_upto_weaken(d0, f, n, ki, ki + 1);
    lemma_rows_realized(d0, f, n, ki, i);
    lemma_row_realized(d0, r, n, ki, i as int, j);
    assert(d == fw_row(r, ki, i as int, j));
    lemma_upto_weaken(d0, d, n, ki + 1, ki + 1);
    lemma_rows_mono(f, n, ki, 0, i);
    lemma_row_mono(r, n, ki, i as int, 0, j);
    lemma_below_trans(d, r, f, n);
    lemma_fw_complete(a, n, k);
    // d[i][k]: the walk that realizes it, cut at its first visit to k
    if d[i as int][ki] is Some {
        lemma_realized_lower(d0, d, n, b, i as int, ki);
        let w = choose|w: Seq<int>|
            #[trigger] is_route(w, n, i as int, ki) && w.len() >= 2 && inner_below(w, ki + 1)
                && walk_weight(d0, w) == d[i as int][ki];
        let last = w.len() - 1;
        let fv = if exists|s: int| 1 <= s < last && #[trigger] w[s] == ki {
            let s = choose|s: int| 1 <= s < last && #[trigger] w[s] == ki;
            lemma_first_visit(w, ki, 1, s);
            first_visit(w, ki, 1)
        } else {
            last
        };
        assert(1 <= fv <= last && w[fv] == ki);
        assert forall|u: int| 1 <= u < fv implies #[trigger] w[u] != ki by {}
        let p = w.subrange(0, fv + 1);
        let rest = w.subrange(fv, w.len() as int);
        assert(w =~= p + rest.skip(1));
        lemma_walk_concat(d0, p, rest);
        lemma_t_mul_some(walk_weight(d0, p), walk_weight(d0, rest));
        assert(is_route(p, n, i as int, ki)) by {
            assert forall|u: int| 0 <= u < p.len() implies 0 <= #[trigger] p[u] < n by {}
        }
        assert(inner_below(p, ki)) by {
            assert forall|t: int| 0 < t < p.len() - 1 implies #[trigger] p[t] < ki by {
                assert(p[t] == w[t]);
                assert(w[t] < ki + 1);
            }
        }
        lemma_complete_upper(d0, f, d, n, b, ki, p, i as int, ki);
    }
    // d[k][j]: the walk that realizes it, cut at its last visit to k
    if d[ki][j as int] is Some {
        lemma_realized_lower(d0, d, n, b, ki, j as int);
        let w = choose|w: Seq<int>|
            #[trigger] is_route(w, n, ki, j as int) && w.len() >= 2 && inner_below(w, ki + 1)
                && walk_weight(d0, w) == d[ki][j as int];
        let last = w.len() - 1;
        let lv = if exists|s: int| 1 <= s < last && #[trigger] w[s] == ki {
            let s = choose|s: int| 1 <= s < last && #[trigger] w[s] == ki;
            lemma_last_visit(w, ki, last - 1, s);
            last_visit(w, ki, last - 1)
        } else {
            0
        };
        assert(0 <= lv < last && w[lv] == ki);
        assert forall|u: int| lv < u < last implies #[trigger] w[u] != ki by {}
        let head = w.subrange(0, lv + 1);
        let q = w.subrange(lv, w.len() as int);
        assert(w =~= head + q.skip(1));
        lemma_walk_concat(d0, head, q);
        lemma_t_mul_some(walk_weight(d0, head), walk_weight(d0, q));
        assert(is_route(q, n, ki, j as int)) by {
            assert forall|u: int| 0 <= u < q.len() implies 0 <= #[trigger] q[u] < n by {
                assert(q[u] == w[lv + u]);
            }
        }
        assert(inner_below(q, ki)) by {
            assert forall|t: int| 0 < t < q.len() - 1 implies #[trigger] q[t] < ki by {
                assert(q[t] == w[lv + t]);
                assert(w[lv + t] < ki + 1);
            }
        }
        lemma_complete_upper(d0, f, d, n, b, ki, q, ki, j as int);
    }
}

/// The weight of a walk whose steps each follow an edge of `a` between distinct
/// nodes or stay put at weight 0 (a self-loop of `a` is never taken).
pub open spec fn stay_walk_weight(a: MatModel, w: Seq<int>) -> Option<int>
    decreases w.len(),
{
    if w.len() <= 1 {
        Some(0int)
    } else {
        t_mul(
            stay_walk_weight(a, w.drop_last()),
            if w[w.len() - 2] == w.last() {
                Some(0int)
            } else {
                a[w[w.len() - 2]][w.last()]
            },
        )
    }
}

proof fn lemma_stay_walk_weight(a: MatModel, n: nat, w: Seq<int>)
    requires
        w.len() >= 1,
        forall|t: int| 0 <= t < w.len() ==> 0 <= #[trigger] w[t] < n,
    ensures
        stay_walk_weight(a, w) == walk_weight(with_zero_diagonal(a, n), w),
    decreases w.len(),
{
    if w.len() >= 2 {
        let wd = w.drop_last();
        assert forall|t: int| 0 <= t < wd.len() implies 0 <= #[trigger] wd[t] < n by {
            assert(wd[t] == w[t]);
        }
        lemma_stay_walk_weight(a, n, wd);
        assert(0 <= w[w.len() - 2] < n && 0 <= w.last() < n);
    }
}

/// The all-pairs longest walk computation on `a`: entry (i, j) is the greatest
/// weight of a walk from `i` to `j` of 1 to n + 1 steps, each step an edge of `a`
/// between distinct nodes or a stay of weight 0: no such walk weighs more, and a
/// finite entry is the weight of one of them.
pub proof fn lemma_apsp_longest_stay_walk(a: MatModel, n: nat, i: int, j: int)
    requires
        0 <= i < n,
        0 <= j < n,
    ensures
        forall|e: nat, w: Seq<int>|
            1 <= e <= n + 1 && #[trigger] is_walk(w, n, e, i, j) ==> t_le(
                stay_walk_weight(a, w),
                pow_series(with_zero_diagonal(a, n), n, n + 1)[i][j],
            ),
        pow_series(with_zero_diagonal(a, n), n, n + 1)[i][j] is Some ==> exists|e: nat, w: Seq<int>|
            1 <= e <= n + 1 && #[trigger] is_walk(w, n, e, i, j) && stay_walk_weight(a, w)
                == pow_series(with_zero_diagonal(a, n), n, n + 1)[i][j],
{
    let p = pow_series(with_zero_diagonal(a, n), n, n + 1);
    lemma_apsp_best_walk(a, n, i, j);
    assert forall|e: nat, w: Seq<int>|
        1 <= e <= n + 1 && #[trigger] is_walk(w, n, e, i, j) implies t_le(stay_walk_weight(a, w), p[i][j]) by {
        assert forall|t: int| 0 <= t < w.len() implies 0 <= #[trigger] w[t] < n by {}
        lemma_stay_walk_weight(a, n, w);
    }
    if p[i][j] is Some {
        let (e, w) = choose|e: nat, w: Seq<int>|
            1 <= e <= n + 1 && #[trigger] is_walk(w, n, e, i, j) && walk_weight(
                with_zero_diagonal(a, n),
                w,
            ) == p[i][j];
        assert forall|t: int| 0 <= t < w.len() implies 0 <= #[trigger] w[t] < n by {}
        lemma_stay_walk_weight(a, n, w);
    }
}

/// The all-pairs longest walk computation ignores self-loops: two graphs that
/// agree off the diagonal give the same result.
pub proof fn lemma_apsp_ignores_self_loops(a: MatModel, b: MatModel, n: nat)
    requires
        forall|i: int, j: int| 0 <= i < n && 0 <= j < n && i != j ==> #[trigger] a[i][j] == b[i][j],
    ensures
        pow_series(with_zero_diagonal(a, n), n, n + 1) == pow_series(with_zero_diagonal(b, n), n, n + 1),
{
    assert(with_zero_diagonal(a, n) =~~= with_zero_diagonal(b, n)) by {
        assert forall|i: int, j: int| 0 <= i < n && 0 <= j < n implies #[trigger] with_zero_diagonal(
            a,
            n,
        )[i][j] == with_zero_diagonal(b, n)[i][j] by {
            if i != j {
                assert(a[i][j] == b[i][j]);
            }
        }
    }
}

/// A walk through the shortest path computation's starting table is, once its
/// stays at weight 0 are dropped, a walk in `a` (self-loops included) of no more
/// edges and the same weight.
proof fn lemma_init_walk_to_edges(a: MatModel, n: nat, w: Seq<int>, e: nat, i: int, j: int) -> (u: (
    Seq<int>,
    nat,
))
    requires
        is_walk(w, n, e, i, j),
    ensures
        is_walk(u.0, n, u.1, i, j),
        u.1 <= e,
        walk_weight(a, u.0) == walk_weight(fw_init(a, n), w),
    decreases e,
{
    let d = fw_init(a, n);
    if e == 0 {
        (w, 0)
    } else {
        let wd = w.drop_last();
        let x = w[e - 1];
        assert(is_walk(wd, n, (e - 1) as nat, i, x)) by {
            assert forall|t: int| 0 <= t <= e - 1 implies 0 <= #[trigger] wd[t] < n by {
                assert(wd[t] == w[t]);
            }
        }
        let (u0, e0) = lemma_init_walk_to_edges(a, n, wd, (e - 1) as nat, i, x);
        assert(w[w.len() - 2] == x && w.last() == j);
        assert(walk_weight(d, w) == t_mul(walk_weight(d, wd), d[x][j]));
        assert(0 <= x < n && 0 <= j < n);
        if x == j && d[x][j] == Some(0int) {
            (u0, e0)
        } else {
            assert(d[x][j] == a[x][j]);
            let u = u0.push(j);
            assert(u.drop_last() =~= u0);
            assert(is_walk(u, n, e0 + 1, i, j)) by {
                assert forall|t: int| 0 <= t <= e0 + 1 implies 0 <= #[trigger] u[t] < n by {
                    if t <= e0 {
                        assert(u[t] == u0[t]);
                    }
                }
            }
            assert(u[u.len() - 2] == x);
            (u, e0 + 1)
        }
    }
}

/// In the min-plus order a walk weighs no less in `a` than in the starting table.
proof fn lemma_init_walk_below(a: MatModel, n: nat, w: Seq<int>)
    requires
        w.len() >= 1,
        forall|t: int| 0 <= t < w.len() ==> 0 <= #[trigger] w[t] < n,
    ensures
        mp_le(walk_weight(fw_init(a, n), w), walk_weight(a, w)),
    decreases w.len(),
{
    if w.len() >= 2 {
        let wd = w.drop_last();
        assert forall|t: int| 0 <= t < wd.len() implies 0 <= #[trigger] wd[t] < n by {
            assert(wd[t] == w[t]);
        }
        lemma_init_walk_below(a, n, wd);
        assert(0 <= w[w.len() - 2] < n && 0 <= w.last() < n);
    }
}

/// A graph without negative closed walks gives a starting table without them.
proof fn lemma_init_no_negative_cycles(a: MatModel, n: nat)
    requires
        no_negative_cycles(a, n),
    ensures
        no_negative_cycles(fw_init(a, n), n),
{
    assert forall|w: Seq<int>, x: int| #[trigger] is_route(w, n, x, x) && w.len() >= 2 implies mp_le(
        Some(0int),
        walk_weight(fw_init(a, n), w),
    ) by {
        let e = (w.len() - 1) as nat;
        assert(is_walk(w, n, e, x, x)) by {
            assert forall|t: int| 0 <= t <= e implies 0 <= #[trigger] w[t] < n by {}
        }
        let (u, e2) = lemma_init_walk_to_edges(a, n, w, e, x, x);
        if e2 >= 1 {
            assert(is_route(u, n, x, x)) by {
                assert forall|t: int| 0 <= t < u.len() implies 0 <= #[trigger] u[t] < n by {}
            }
        }
    }
}

/// The all-pairs shortest path computation, stated on the edges of `a` itself.
/// Without negative closed walks in `a`: every node is at distance 0 from itself;
/// no walk of `a` of at least one edge (self-loops included) is shorter than the
/// distance between its ends, so no distance exceeds a direct edge; and a finite
/// distance between distinct nodes is the weight of such a walk (no path: `None`).
pub proof fn lemma_shortest_paths_on_edges(a: MatModel, n: nat)
    requires
        no_negative_cycles(a, n),
    ensures
        forall|i: int| 0 <= i < n ==> #[trigger] fw(fw_init(a, n), n, n)[i][i] == Some(0int),
        forall|i: int, j: int, w: Seq<int>|
            0 <= i < n && 0 <= j < n && #[trigger] is_route(w, n, i, j) && w.len() >= 2 ==> mp_le(
                fw(fw_init(a, n), n, n)[i][j],
                walk_weight(a, w),
            ),
        forall|i: int, j: int|
            0 <= i < n && 0 <= j < n && i != j ==> mp_le(
                #[trigger] fw(fw_init(a, n), n, n)[i][j],
                a[i][j],
            ),
        forall|i: int, j: int|
            0 <= i < n && 0 <= j < n && i != j && (#[trigger] fw(fw_init(a, n), n, n)[i][j]) is Some
                ==> exists|w: Seq<int>|
                #[trigger] is_route(w, n, i, j) && w.len() >= 2 && walk_weight(a, w) == fw(
                    fw_init(a, n),
                    n,
                    n,
                )[i][j],
{
    let d0 = fw_init(a, n);
    let r = fw(d0, n, n);
    lemma_init_no_negative_cycles(a, n);
    lemma_shortest_paths_sound(a, n);
    lemma_shortest_paths_complete(a, n);
    assert forall|i: int| 0 <= i < n implies #[trigger] r[i][i] == Some(0int) by {
        lemma_shortest_paths_diagonal_zero(a, n, i);
    }
    assert forall|i: int, j: int, w: Seq<int>|
        0 <= i < n && 0 <= j < n && #[trigger] is_route(w, n, i, j) && w.len() >= 2 implies mp_le(
        r[i][j],
        walk_weight(a, w),
    ) by {
        lemma_init_walk_below(a, n, w);
        assert(mp_le(r[i][j], walk_weight(d0, w)));
    }
    assert forall|i: int, j: int| 0 <= i < n && 0 <= j < n && i != j implies mp_le(
        #[trigger] r[i][j],
        a[i][j],
    ) by {
        lemma_edge_walk(a, n, i, j);
        assert(is_route(seq![i, j], n, i, j));
    }
    assert forall|i: int, j: int| 0 <= i < n && 0 <= j < n && i != j && (#[trigger] r[i][j]) is Some
        implies exists|w: Seq<int>| #[trigger] is_route(w, n, i, j) && w.len() >= 2 && walk_weight(
        a,
        w,
    ) == r[i][j] by {
        let w = choose|w: Seq<int>|
            #[trigger] is_route(w, n, i, j) && w.len() >= 2 && walk_weight(d0, w) == r[i][j];
        let e = (w.len() - 1) as nat;
        assert(is_walk(w, n, e, i, j)) by {
            assert forall|t: int| 0 <= t <= e implies 0 <= #[trigger] w[t] < n by {}
        }
        let (u, e2) = lemma_init_walk_to_edges(a, n, w, e, i, j);
        assert(e2 >= 1) by {
            if e2 == 0 {
                assert(u[0] == i && u[0] == j);
            }
        }
        assert(is_route(u, n, i, j)) by {
            assert forall|t: int| 0 <= t < u.len() implies 0 <= #[trigger] u[t] < n by {}
        }
    }
}

} // verus!
