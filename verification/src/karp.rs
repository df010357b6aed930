//! Karp's theorem: the value that `max_cycle_mean` computes is the greatest mean
//! weight of a cycle of the graph.
use vstd::prelude::*;
use vstd::arithmetic::div_mod::lemma_fundamental_div_mod_converse;
use crate::semiring::{t_le, t_mul};
use crate::matrix::{has_shape, mat_pow, tsum, MatModel};
use crate::walks::{
    is_walk, lemma_power_is_best_walk, lemma_tsum_attained, lemma_tsum_upper, lemma_walk_cut,
    lemma_walk_join, lemma_walk_sub, walk_weight,
};
use crate::eigen::{
    frac_le, is_karp_value, karp_candidate, karp_diff, karp_min_at_most, karp_min_for, karp_row,
    lemma_frac_le_trans, lemma_pigeonhole, CycleMean,
};
use vstd::arithmetic::div_mod::lemma_fundamental_div_mod;

verus! {

/// `w` is a cycle: a closed walk of at least one edge, of finite weight.
pub open spec fn is_cycle(a: MatModel, n: nat, w: Seq<int>) -> bool {
    &&& w.len() >= 2
    &&& is_walk(w, n, (w.len() - 1) as nat, w[0], w[0])
    &&& walk_weight(a, w) is Some
}

/// The total weight of a cycle of finite weight.
pub open spec fn cycle_weight(a: MatModel, w: Seq<int>) -> int {
    walk_weight(a, w)->0
}

/// The number of edges of a cycle.
pub open spec fn cycle_len(w: Seq<int>) -> int {
    w.len() - 1
}

/// A finite family of fractions num(i) / den(i) over the valid i < m has a greatest member.
proof fn lemma_argmax(
    valid: spec_fn(int) -> bool,
    num: spec_fn(int) -> int,
    den: spec_fn(int) -> int,
    m: nat,
) -> (best: int)
    requires
        exists|i: int| 0 <= i < m && #[trigger] valid(i),
        forall|i: int| 0 <= i < m && #[trigger] valid(i) ==> den(i) > 0,
    ensures
        0 <= best < m,
        valid(best),
        forall|i: int|
            0 <= i < m && #[trigger] valid(i) ==> frac_le(num(i), den(i), num(best), den(best)),
    decreases m,
{
    let last = m - 1;
    if exists|i: int| 0 <= i < last && #[trigger] valid(i) {
        let b = lemma_argmax(valid, num, den, last as nat);
        if valid(last) && frac_le(num(b), den(b), num(last), den(last)) {
            assert forall|i: int| 0 <= i < m && #[trigger] valid(i) implies frac_le(
                num(i),
                den(i),
                num(last),
                den(last),
            ) by {
                if i < last {
                    lemma_frac_le_trans(num(i), den(i), num(b), den(b), num(last), den(last));
                }
            }
            last
        } else {
            b
        }
    } else {
        last
    }
}

/// A cycle that splits into two cycles has a mean no greater than the larger of their means.
proof fn lemma_mediant(w1: int, l1: int, w2: int, l2: int)
    requires
        l1 > 0,
        l2 > 0,
    ensures
        frac_le(w1, l1, w2, l2) ==> frac_le(w1 + w2, l1 + l2, w2, l2),
        !frac_le(w1, l1, w2, l2) ==> frac_le(w1 + w2, l1 + l2, w1, l1),
{
    assert(w1 * l2 <= w2 * l1 ==> (w1 + w2) * l2 <= w2 * (l1 + l2)) by (nonlinear_arith);
    assert(!(w1 * l2 <= w2 * l1) ==> (w1 + w2) * l1 <= w1 * (l1 + l2)) by (nonlinear_arith);
}

/// Every cycle has a mean no greater than that of some cycle of at most `n` edges.
proof fn lemma_shorten_cycle(a: MatModel, n: nat, w: Seq<int>) -> (c: Seq<int>)
    requires
        is_cycle(a, n, w),
    ensures
        is_cycle(a, n, c),
        cycle_len(c) <= n,
        frac_le(cycle_weight(a, w), cycle_len(w), cycle_weight(a, c), cycle_len(c)),
    decreases w.len(),
{
    let e = (w.len() - 1) as nat;
    let x = w[0];
    if e <= n {
        w
    } else {
        let first = w.subrange(0, n + 1int);
        assert forall|t: int| 0 <= t < first.len() implies 0 <= #[trigger] first[t] < n by {
            assert(first[t] == w[t]);
        }
        lemma_pigeonhole(first, n);
        let (s, t) = choose|s: int, t: int|
            0 <= s < t < first.len() && #[trigger] first[s] == #[trigger] first[t];
        assert(w[s] == first[s] && w[t] == first[t]);
        lemma_walk_cut(a, w, n, e, x, x, s, t);
        let outer = w.subrange(0, s + 1) + w.subrange(t, e + 1int).skip(1);
        let inner = w.subrange(s, t + 1);
        let e_out = (e - (t - s)) as nat;
        let e_in = (t - s) as nat;
        assert(walk_weight(a, outer) is Some && walk_weight(a, inner) is Some);
        assert(outer.len() == e_out + 1);
        assert(outer[0] == x);
        assert(is_cycle(a, n, outer));
        assert(inner[0] == w[s]);
        assert(is_cycle(a, n, inner));
        let wo = cycle_weight(a, outer);
        let wi = cycle_weight(a, inner);
        assert(cycle_weight(a, w) == wo + wi);
        lemma_mediant(wo, e_out as int, wi, e_in as int);
        if frac_le(wo, e_out as int, wi, e_in as int) {
            let c = lemma_shorten_cycle(a, n, inner);
            lemma_frac_le_trans(
                cycle_weight(a, w),
                cycle_len(w),
                wi,
                e_in as int,
                cycle_weight(a, c),
                cycle_len(c),
            );
            c
        } else {
            let c = lemma_shorten_cycle(a, n, outer);
            lemma_frac_le_trans(
                cycle_weight(a, w),
                cycle_len(w),
                wo,
                e_out as int,
                cycle_weight(a, c),
                cycle_len(c),
            );
            c
        }
    }
}

/// Row `t` of Karp's table holds, for each node `j`, the greatest weight of a walk
/// of exactly `t` edges ending at `j` (from any node): no such walk weighs more,
/// and a finite entry is the weight of one of them.
pub proof fn lemma_karp_row_best_walk(a: MatModel, n: nat, t: nat, j: int)
    requires
        has_shape(a, n, n),
        0 <= j < n,
    ensures
        forall|y: int, w: Seq<int>|
            #[trigger] is_walk(w, n, t, y, j) ==> t_le(walk_weight(a, w), karp_row(a, n, t)[j]),
        karp_row(a, n, t)[j] is Some ==> exists|y: int, w: Seq<int>|
            #[trigger] is_walk(w, n, t, y, j) && walk_weight(a, w) == karp_row(a, n, t)[j],
    decreases t,
{
    if t == 0 {
        assert(karp_row(a, n, 0)[j] == Some(0int));
        assert(is_walk(seq![j], n, 0, j, j));
    } else {
        let t1 = (t - 1) as nat;
        let prev = karp_row(a, n, t1);
        let f = |l: int| t_mul(prev[l], a[l][j]);
        assert(karp_row(a, n, t)[j] == tsum(f, n));
        assert forall|y: int, w: Seq<int>| #[trigger] is_walk(w, n, t, y, j) implies t_le(
            walk_weight(a, w),
            karp_row(a, n, t)[j],
        ) by {
            let l = w[t1 as int];
            let w1 = w.drop_last();
            assert(is_walk(w1, n, t1, y, l)) by {
                assert forall|u: int| 0 <= u <= t1 implies 0 <= #[trigger] w1[u] < n by {
                    assert(w1[u] == w[u]);
                }
            }
            lemma_karp_row_best_walk(a, n, t1, l);
            assert(t_le(walk_weight(a, w1), prev[l]));
            assert(walk_weight(a, w) == t_mul(walk_weight(a, w1), a[l][j]));
            lemma_tsum_upper(f, n, l);
        }
        if tsum(f, n) is Some {
            lemma_tsum_attained(f, n);
            let l = choose|l: int| 0 <= l < n && tsum(f, n) == #[trigger] f(l);
            lemma_karp_row_best_walk(a, n, t1, l);
            let (y, w1) = choose|y: int, w: Seq<int>|
                #[trigger] is_walk(w, n, t1, y, l) && walk_weight(a, w) == prev[l];
            let w = w1.push(j);
            assert(w.drop_last() =~= w1);
            assert(is_walk(w, n, t, y, j)) by {
                assert forall|u: int| 0 <= u <= t implies 0 <= #[trigger] w[u] < n by {
                    if u < t {
                        assert(w[u] == w1[u]);
                    }
                }
            }
            assert(walk_weight(a, w) == t_mul(walk_weight(a, w1), a[l][j]));
        }
    }
}

/// Index `idx` < n·n names node idx / n and length idx % n + 1.
pub open spec fn idx_node(n: nat, idx: int) -> int {
    idx / (n as int)
}

/// The cycle length that index `idx` names.
pub open spec fn idx_len(n: nat, idx: int) -> int {
    idx % (n as int) + 1
}

/// The best weight of a closed walk of the named length at the named node.
pub open spec fn idx_entry(a: MatModel, n: nat, idx: int) -> Option<int> {
    mat_pow(a, n, idx_len(n, idx) as nat)[idx_node(n, idx)][idx_node(n, idx)]
}

/// The named node has a closed walk of the named length and finite weight.
pub open spec fn idx_valid(a: MatModel, n: nat, idx: int) -> bool {
    idx_entry(a, n, idx) is Some
}

/// A short cycle is bounded by the best closed walk of its length at its node.
proof fn lemma_short_cycle_index(a: MatModel, n: nat, c: Seq<int>) -> (idx: int)
    requires
        has_shape(a, n, n),
        is_cycle(a, n, c),
        cycle_len(c) <= n,
    ensures
        0 <= idx < n * n,
        idx_valid(a, n, idx),
        frac_le(cycle_weight(a, c), cycle_len(c), idx_entry(a, n, idx)->0, idx_len(n, idx)),
{
    let x = c[0];
    let l = cycle_len(c);
    assert(0 <= x < n);
    let idx = x * n + (l - 1);
    lemma_fundamental_div_mod_converse(idx, n as int, x, l - 1);
    assert(idx < n * n) by (nonlinear_arith)
        requires
            idx == x * n + (l - 1),
            0 <= x < n,
            1 <= l <= n,
    ;
    assert(idx >= 0) by (nonlinear_arith)
        requires
            idx == x * n + (l - 1),
            0 <= x,
            1 <= l,
            n > 0,
    ;
    lemma_power_is_best_walk(a, n, l as nat, x, x);
    assert(is_walk(c, n, l as nat, x, x));
    let ent = idx_entry(a, n, idx);
    assert(t_le(walk_weight(a, c), ent));
    let wc = cycle_weight(a, c);
    assert(wc * l <= ent->0 * l) by (nonlinear_arith)
        requires
            wc <= ent->0,
            l > 0,
    ;
    idx
}

/// Among the cycles there is one of greatest mean, as soon as there is one.
proof fn lemma_best_cycle(a: MatModel, n: nat, w0: Seq<int>) -> (cs: Seq<int>)
    requires
        has_shape(a, n, n),
        is_cycle(a, n, w0),
    ensures
        is_cycle(a, n, cs),
        forall|c: Seq<int>|
            #[trigger] is_cycle(a, n, c) ==> frac_le(
                cycle_weight(a, c),
                cycle_len(c),
                cycle_weight(a, cs),
                cycle_len(cs),
            ),
{
    assert(0 <= w0[0] < n);
    let valid = |i: int| idx_valid(a, n, i);
    let num = |i: int| idx_entry(a, n, i)->0;
    let den = |i: int| idx_len(n, i);
    let c0 = lemma_shorten_cycle(a, n, w0);
    let i0 = lemma_short_cycle_index(a, n, c0);
    assert(valid(i0));
    let m = n * n;
    assert forall|i: int| 0 <= i < m && #[trigger] valid(i) implies den(i) > 0 by {}
    let best = lemma_argmax(valid, num, den, m);
    let x = idx_node(n, best);
    let l = idx_len(n, best);
    lemma_fundamental_div_mod(best, n as int);
    assert(0 <= x < n) by (nonlinear_arith)
        requires
            best == n * x + best % (n as int),
            0 <= best % (n as int) < n,
            0 <= best < n * n,
    ;
    lemma_power_is_best_walk(a, n, l as nat, x, x);
    let cs = choose|w: Seq<int>|
        #[trigger] is_walk(w, n, l as nat, x, x) && walk_weight(a, w) == idx_entry(a, n, best);
    assert(is_cycle(a, n, cs));
    assert forall|c: Seq<int>| #[trigger] is_cycle(a, n, c) implies frac_le(
        cycle_weight(a, c),
        cycle_len(c),
        cycle_weight(a, cs),
        cycle_len(cs),
    ) by {
        let c1 = lemma_shorten_cycle(a, n, c);
        let i1 = lemma_short_cycle_index(a, n, c1);
        assert(valid(i1));
        lemma_frac_le_trans(
            cycle_weight(a, c),
            cycle_len(c),
            cycle_weight(a, c1),
            cycle_len(c1),
            num(i1),
            den(i1),
        );
        lemma_frac_le_trans(
            cycle_weight(a, c),
            cycle_len(c),
            num(i1),
            den(i1),
            num(best),
            den(best),
        );
    }
    cs
}

/// The weight `v` of a walk of `e` edges, scaled by `l` and lowered by `w` per edge:
/// l·v - w·e. With w / l the greatest cycle mean, no cycle raises it.
pub open spec fn shifted(v: int, e: int, w: int, l: int) -> int {
    l * v - w * e
}

/// Every cycle has mean at most big_w / big_l.
pub open spec fn means_at_most(a: MatModel, n: nat, big_w: int, big_l: int) -> bool {
    forall|c: Seq<int>|
        #[trigger] is_cycle(a, n, c) ==> frac_le(
            cycle_weight(a, c),
            cycle_len(c),
            big_w,
            big_l,
        )
}

/// A walk of finite weight to `x` is, once shifted, no heavier than a best walk to
/// `x` of some length k < n, when no cycle has mean above w / l.
proof fn lemma_shifted_bound(
    a: MatModel,
    n: nat,
    big_w: int,
    big_l: int,
    w: Seq<int>,
    e: nat,
    y: int,
    x: int,
) -> (k: int)
    requires
        has_shape(a, n, n),
        big_l > 0,
        means_at_most(a, n, big_w, big_l),
        is_walk(w, n, e, y, x),
        walk_weight(a, w) is Some,
    ensures
        0 <= k < n,
        karp_row(a, n, k as nat)[x] is Some,
        shifted(walk_weight(a, w)->0, e as int, big_w, big_l) <= shifted(
            karp_row(a, n, k as nat)[x]->0,
            k,
            big_w,
            big_l,
        ),
    decreases e,
{
    assert(0 <= w[0] < n);
    if e < n {
        lemma_karp_row_best_walk(a, n, e, x);
        let v = walk_weight(a, w)->0;
        let d = karp_row(a, n, e)[x]->0;
        assert(v <= d);
        assert(big_l * v <= big_l * d) by (nonlinear_arith)
            requires
                v <= d,
                big_l > 0,
        ;
        e as int
    } else {
        let first = w.subrange(0, n + 1int);
        assert forall|t: int| 0 <= t < first.len() implies 0 <= #[trigger] first[t] < n by {
            assert(first[t] == w[t]);
        }
        lemma_pigeonhole(first, n);
        let (s, t) = choose|s: int, t: int|
            0 <= s < t < first.len() && #[trigger] first[s] == #[trigger] first[t];
        assert(w[s] == first[s] && w[t] == first[t]);
        lemma_walk_cut(a, w, n, e, y, x, s, t);
        let shorter = w.subrange(0, s + 1) + w.subrange(t, e + 1int).skip(1);
        let cyc = w.subrange(s, t + 1);
        let e2 = (e - (t - s)) as nat;
        assert(walk_weight(a, shorter) is Some && walk_weight(a, cyc) is Some);
        assert(is_cycle(a, n, cyc));
        let k = lemma_shifted_bound(a, n, big_w, big_l, shorter, e2, y, x);
        let vc = cycle_weight(a, cyc);
        let vs = walk_weight(a, shorter)->0;
        assert(frac_le(vc, t - s, big_w, big_l));
        assert(walk_weight(a, w)->0 == vs + vc);
        assert(shifted(vs + vc, e as int, big_w, big_l) <= shifted(vs, e2 as int, big_w, big_l))
            by (nonlinear_arith)
            requires
                vc * big_l <= big_w * (t - s),
                e2 == e - (t - s),
        ;
        k
    }
}

/// Karp's value is at least the mean of the best cycle.
proof fn lemma_karp_at_least(a: MatModel, n: nat, cs: Seq<int>, r: Option<CycleMean>)
    requires
        has_shape(a, n, n),
        is_cycle(a, n, cs),
        means_at_most(a, n, cycle_weight(a, cs), cycle_len(cs)),
        is_karp_value(a, n, r),
    ensures
        r is Some,
        frac_le(
            cycle_weight(a, cs),
            cycle_len(cs),
            r->0.numerator as int,
            r->0.denominator as int,
        ),
{
    let big_w = cycle_weight(a, cs);
    let big_l = cycle_len(cs);
    let u = cs[0];
    assert(0 <= u < n);
    // The best shifted walk to u among the lengths below n.
    let w0 = seq![u];
    assert(is_walk(w0, n, 0, u, u));
    let k0 = lemma_shifted_bound(a, n, big_w, big_l, w0, 0, u, u);
    let valid = |k: int| karp_row(a, n, k as nat)[u] is Some;
    let num = |k: int| shifted(karp_row(a, n, k as nat)[u]->0, k, big_w, big_l);
    let den = |k: int| 1int;
    assert(valid(k0));
    let m = lemma_argmax(valid, num, den, n);
    let dm = karp_row(a, n, m as nat)[u]->0;
    lemma_karp_row_best_walk(a, n, m as nat, u);
    let (sp, p) = choose|y: int, w: Seq<int>|
        #[trigger] is_walk(w, n, m as nat, y, u) && walk_weight(a, w) == karp_row(a, n, m as nat)[u];
    // Every finite walk to u is, once shifted, at most the best one.
    assert forall|e: nat, y: int, q: Seq<int>|
        #[trigger] is_walk(q, n, e, y, u) && walk_weight(a, q) is Some implies shifted(
        walk_weight(a, q)->0,
        e as int,
        big_w,
        big_l,
    ) <= shifted(dm, m, big_w, big_l) by {
        let k = lemma_shifted_bound(a, n, big_w, big_l, q, e, y, u);
        assert(valid(k));
        assert(frac_le(num(k), den(k), num(m), den(m)));
    }
    // The best walk to u, then around the cycle until n edges in all.
    let total = n - m;
    lemma_fundamental_div_mod(total, big_l);
    let q = total / big_l;
    let rem = total % big_l;
    let (loops, e_loops) = lemma_loop_around(a, n, cs, p, sp, m as nat, q as nat);
    let part = cs.subrange(0, rem + 1);
    let back = cs.subrange(rem, big_l + 1);
    let v = cs[rem];
    lemma_walk_sub(cs, n, big_l as nat, u, u, 0, rem);
    lemma_walk_sub(cs, n, big_l as nat, u, u, rem, big_l);
    assert(cs =~= part + back.skip(1));
    lemma_walk_join(a, n, part, rem as nat, u, v, back, (big_l - rem) as nat, u);
    let wp = walk_weight(a, part)->0;
    let wb = walk_weight(a, back)->0;
    assert(wp + wb == big_w);
    lemma_walk_join(a, n, loops, e_loops, sp, u, part, rem as nat, v);
    let full = loops + part.skip(1);
    assert(e_loops + rem == n) by (nonlinear_arith)
        requires
            e_loops == m + q * big_l,
            total == big_l * q + rem,
            total == n - m,
    ;
    lemma_karp_row_best_walk(a, n, n, v);
    let dn = karp_row(a, n, n)[v];
    assert(is_walk(full, n, n, sp, v));
    assert(dn is Some);
    let kv = lemma_shifted_bound(a, n, big_w, big_l, full, n, sp, v);
    assert(karp_candidate(a, n, v));
    // Every length k < n with a walk to v has ratio at least big_w / big_l.
    assert forall|k: int| 0 <= k < n && #[trigger] karp_row(a, n, k as nat)[v] is Some implies frac_le(
        big_w,
        big_l,
        karp_diff(a, n, v, k),
        n - k,
    ) by {
        lemma_karp_row_best_walk(a, n, k as nat, v);
        let (sk, qk) = choose|y: int, w: Seq<int>|
            #[trigger] is_walk(w, n, k as nat, y, v) && walk_weight(a, w) == karp_row(
                a,
                n,
                k as nat,
            )[v];
        lemma_walk_join(a, n, qk, k as nat, sk, v, back, (big_l - rem) as nat, u);
        let dk = karp_row(a, n, k as nat)[v]->0;
        let around = qk + back.skip(1);
        assert(is_walk(around, n, (k + (big_l - rem)) as nat, sk, u));
        assert(shifted(dk + wb, k + (big_l - rem), big_w, big_l) <= shifted(dm, m, big_w, big_l));
        let wl = walk_weight(a, loops)->0;
        assert(wl == dm + q * big_w);
        assert(dn->0 >= wl + wp);
        assert(big_w * (n - k) <= (dn->0 - dk) * big_l) by (nonlinear_arith)
            requires
                big_l * (dk + wb) - big_w * (k + (big_l - rem)) <= big_l * dm - big_w * m,
                dn->0 >= dm + q * big_w + wp,
                wp + wb == big_w,
                big_l > 0,
                n == m + q * big_l + rem,
        ;
    }
    let c = r->0;
    assert(karp_min_at_most(a, n, v, c.numerator as int, c.denominator as int));
    let k = choose|k: int|
        0 <= k < n && #[trigger] karp_row(a, n, k as nat)[v] is Some && frac_le(
            karp_diff(a, n, v, k),
            n - k,
            c.numerator as int,
            c.denominator as int,
        );
    lemma_frac_le_trans(
        big_w,
        big_l,
        karp_diff(a, n, v, k),
        n - k,
        c.numerator as int,
        c.denominator as int,
    );
}

/// Going `q` times around a cycle at `u` after a walk to `u`.
proof fn lemma_loop_around(
    a: MatModel,
    n: nat,
    cs: Seq<int>,
    p: Seq<int>,
    y: int,
    m: nat,
    q: nat,
) -> (res: (Seq<int>, nat))
    requires
        is_cycle(a, n, cs),
        is_walk(p, n, m, y, cs[0]),
        walk_weight(a, p) is Some,
    ensures
        is_walk(res.0, n, res.1, y, cs[0]),
        res.1 == m + q * cycle_len(cs),
        walk_weight(a, res.0) is Some,
        walk_weight(a, res.0)->0 == walk_weight(a, p)->0 + q * cycle_weight(a, cs),
    decreases q,
{
    if q == 0 {
        assert(q * cycle_len(cs) == 0 && q * cycle_weight(a, cs) == 0) by (nonlinear_arith)
            requires
                q == 0,
        ;
        (p, m)
    } else {
        let (prev, e) = lemma_loop_around(a, n, cs, p, y, m, (q - 1) as nat);
        let l = cycle_len(cs);
        lemma_walk_join(a, n, prev, e, y, cs[0], cs, l as nat, cs[0]);
        assert(e + l == m + q * l) by (nonlinear_arith)
            requires
                e == m + (q - 1) * l,
        ;
        assert(walk_weight(a, p)->0 + (q - 1) * cycle_weight(a, cs) + cycle_weight(a, cs)
            == walk_weight(a, p)->0 + q * cycle_weight(a, cs)) by (nonlinear_arith);
        (prev + cs.skip(1), (e + l) as nat)
    }
}

/// When Karp's computation yields a mean λ, some cycle has mean weight at least λ.
proof fn lemma_karp_at_most(a: MatModel, n: nat, c: CycleMean) -> (cyc: Seq<int>)
    requires
        has_shape(a, n, n),
        c.denominator > 0,
        is_karp_value(a, n, Some(c)),
    ensures
        is_cycle(a, n, cyc),
        frac_le(c.numerator as int, c.denominator as int, cycle_weight(a, cyc), cycle_len(cyc)),
{
    let num = c.numerator as int;
    let den = c.denominator as int;
    let j = choose|j: int| #[trigger] karp_candidate(a, n, j) && karp_min_for(a, n, j, num, den);
    assert(n > 0);
    lemma_karp_row_best_walk(a, n, n, j);
    let dn = karp_row(a, n, n)[j];
    let (s0, w) = choose|y: int, w: Seq<int>| #[trigger] is_walk(w, n, n, y, j) && walk_weight(a, w) == dn;
    lemma_pigeonhole(w, n);
    let (s, t) = choose|s: int, t: int| 0 <= s < t < w.len() && #[trigger] w[s] == #[trigger] w[t];
    lemma_walk_cut(a, w, n, n, s0, j, s, t);
    let short = w.subrange(0, s + 1) + w.subrange(t, n + 1int).skip(1);
    let cyc = w.subrange(s, t + 1);
    let k = n - (t - s);
    assert(walk_weight(a, short) is Some && walk_weight(a, cyc) is Some);
    assert(is_cycle(a, n, cyc));
    lemma_karp_row_best_walk(a, n, k as nat, j);
    assert(is_walk(short, n, k as nat, s0, j));
    let dk = karp_row(a, n, k as nat)[j];
    assert(dk is Some);
    let wc = cycle_weight(a, cyc);
    assert(karp_diff(a, n, j, k) <= wc);
    assert(frac_le(num, den, karp_diff(a, n, j, k), n - k));
    assert(num * (n - k) <= wc * den) by (nonlinear_arith)
        requires
            num * (n - k) <= karp_diff(a, n, j, k) * den,
            karp_diff(a, n, j, k) <= wc,
            den > 0,
    ;
    cyc
}

/// Karp's theorem for `max_cycle_mean`: its value is the greatest mean weight of a
/// cycle of the graph, attained by one; it is `None` exactly when the graph has no
/// cycle of finite weight.
pub proof fn lemma_max_cycle_mean_is_greatest(a: MatModel, n: nat, r: Option<CycleMean>)
    requires
        has_shape(a, n, n),
        is_karp_value(a, n, r),
        r is Some ==> r->0.denominator > 0,
    ensures
        r is None <==> forall|w: Seq<int>| !#[trigger] is_cycle(a, n, w),
        r is Some ==> exists|w: Seq<int>|
            #[trigger] is_cycle(a, n, w) && frac_le(
                cycle_weight(a, w),
                cycle_len(w),
                r->0.numerator as int,
                r->0.denominator as int,
            ) && frac_le(
                r->0.numerator as int,
                r->0.denominator as int,
                cycle_weight(a, w),
                cycle_len(w),
            ),
        r is Some ==> forall|w: Seq<int>|
            #[trigger] is_cycle(a, n, w) ==> frac_le(
                cycle_weight(a, w),
                cycle_len(w),
                r->0.numerator as int,
                r->0.denominator as int,
            ),
{
    if exists|w: Seq<int>| #[trigger] is_cycle(a, n, w) {
        let w0 = choose|w: Seq<int>| #[trigger] is_cycle(a, n, w);
        let cs = lemma_best_cycle(a, n, w0);
        lemma_karp_at_least(a, n, cs, r);
        let c = r->0;
        let num = c.numerator as int;
        let den = c.denominator as int;
        let cyc = lemma_karp_at_most(a, n, c);
        // num / den <= mean(cyc) <= mean(cs) <= num / den
        lemma_frac_le_trans(
            num,
            den,
            cycle_weight(a, cyc),
            cycle_len(cyc),
            cycle_weight(a, cs),
            cycle_len(cs),
        );
        assert forall|w: Seq<int>| #[trigger] is_cycle(a, n, w) implies frac_le(
            cycle_weight(a, w),
            cycle_len(w),
            num,
            den,
        ) by {
            lemma_frac_le_trans(
                cycle_weight(a, w),
                cycle_len(w),
                cycle_weight(a, cs),
                cycle_len(cs),
                num,
                den,
            );
        }
        assert(is_cycle(a, n, cs));
    } else {
        if r is Some {
            let cyc = lemma_karp_at_most(a, n, r->0);
            assert(is_cycle(a, n, cyc));
        }
    }
}

/// The graph `a` with `c` added to the weight of every edge (-∞ stays -∞).
pub open spec fn shift_weights(a: MatModel, n: nat, c: int) -> MatModel {
    Seq::new(n, |i: int| Seq::new(n, |j: int| t_mul(a[i][j], Some(c))))
}

/// Adding `c` to every edge adds c times the number of edges to a walk's weight.
proof fn lemma_shift_walk_weight(a: MatModel, n: nat, c: int, w: Seq<int>)
    requires
        w.len() >= 1,
        forall|t: int| 0 <= t < w.len() ==> 0 <= #[trigger] w[t] < n,
    ensures
        walk_weight(shift_weights(a, n, c), w) == t_mul(walk_weight(a, w), Some(c * (w.len() - 1))),
    decreases w.len(),
{
    if w.len() <= 1 {
        assert(c * (w.len() - 1) == 0) by (nonlinear_arith)
            requires
                w.len() == 1,
        ;
    } else {
        let wd = w.drop_last();
        assert forall|t: int| 0 <= t < wd.len() implies 0 <= #[trigger] wd[t] < n by {
            assert(wd[t] == w[t]);
        }
        lemma_shift_walk_weight(a, n, c, wd);
        assert(c * (wd.len() - 1) + c == c * (w.len() - 1)) by (nonlinear_arith)
            requires
                wd.len() == w.len() - 1,
        ;
        assert(0 <= w[w.len() - 2] < n && 0 <= w.last() < n);
    }
}

/// The shifted graph has the same cycles, each c times its length heavier.
proof fn lemma_shift_cycle(a: MatModel, n: nat, c: int, w: Seq<int>)
    ensures
        is_cycle(shift_weights(a, n, c), n, w) == is_cycle(a, n, w),
        is_cycle(a, n, w) ==> cycle_weight(shift_weights(a, n, c), w) == cycle_weight(a, w) + c
            * cycle_len(w),
{
    if w.len() >= 2 && is_walk(w, n, (w.len() - 1) as nat, w[0], w[0]) {
        assert forall|t: int| 0 <= t < w.len() implies 0 <= #[trigger] w[t] < n by {
            assert(0 <= t <= w.len() - 1);
        }
        lemma_shift_walk_weight(a, n, c, w);
    }
}

proof fn lemma_cancel_positive(x: int, y: int, l: int)
    requires
        l > 0,
        l * x <= l * y,
    ensures
        x <= y,
{
    assert(x <= y) by (nonlinear_arith)
        requires
            l > 0,
            l * x <= l * y,
    ;
}

/// Adding a constant `c` to every edge weight adds `c` to the maximum cycle mean:
/// the two results are both `None` (no cycle) or, as fractions, the second is the
/// first plus `c`.
pub proof fn lemma_max_cycle_mean_shift(
    a: MatModel,
    n: nat,
    c: int,
    r: Option<CycleMean>,
    r2: Option<CycleMean>,
)
    requires
        has_shape(a, n, n),
        is_karp_value(a, n, r),
        r is Some ==> r->0.denominator > 0,
        is_karp_value(shift_weights(a, n, c), n, r2),
        r2 is Some ==> r2->0.denominator > 0,
    ensures
        r is None <==> r2 is None,
        r is Some ==> r2->0.numerator * r->0.denominator == (r->0.numerator + c
            * r->0.denominator) * r2->0.denominator,
{
    let s = shift_weights(a, n, c);
    lemma_max_cycle_mean_is_greatest(a, n, r);
    lemma_max_cycle_mean_is_greatest(s, n, r2);
    if r is None && r2 is Some {
        let w = choose|w: Seq<int>| #[trigger] is_cycle(s, n, w);
        lemma_shift_cycle(a, n, c, w);
        assert(is_cycle(a, n, w));
    }
    if r is Some && r2 is None {
        let w = choose|w: Seq<int>| #[trigger] is_cycle(a, n, w);
        lemma_shift_cycle(a, n, c, w);
        assert(is_cycle(s, n, w));
    }
    if r is Some && r2 is Some {
        let num = r->0.numerator as int;
        let den = r->0.denominator as int;
        let num2 = r2->0.numerator as int;
        let den2 = r2->0.denominator as int;
        let w1 = choose|w: Seq<int>|
            #[trigger] is_cycle(a, n, w) && frac_le(cycle_weight(a, w), cycle_len(w), num, den)
                && frac_le(num, den, cycle_weight(a, w), cycle_len(w));
        let w2 = choose|w: Seq<int>|
            #[trigger] is_cycle(s, n, w) && frac_le(cycle_weight(s, w), cycle_len(w), num2, den2)
                && frac_le(num2, den2, cycle_weight(s, w), cycle_len(w));
        lemma_shift_cycle(a, n, c, w1);
        lemma_shift_cycle(a, n, c, w2);
        assert(is_cycle(s, n, w1));
        assert(is_cycle(a, n, w2));
        let x1 = cycle_weight(a, w1);
        let l1 = cycle_len(w1);
        let x2 = cycle_weight(a, w2);
        let l2 = cycle_len(w2);
        // w1 attains the mean num / den in `a`, and its shift is at most num2 / den2
        assert(x1 * den == num * l1);
        assert((x1 + c * l1) * den2 <= num2 * l1);
        // w2 attains num2 / den2 in the shifted graph, and is at most num / den in `a`
        assert((x2 + c * l2) * den2 == num2 * l2);
        assert(x2 * den <= num * l2);
        assert(l1 * ((num + c * den) * den2) == den * ((x1 + c * l1) * den2)) by (nonlinear_arith)
            requires
                x1 * den == num * l1,
        ;
        assert(den * ((x1 + c * l1) * den2) <= den * (num2 * l1)) by (nonlinear_arith)
            requires
                den > 0,
                (x1 + c * l1) * den2 <= num2 * l1,
        ;
        assert(den * (num2 * l1) == l1 * (num2 * den)) by (nonlinear_arith);
        lemma_cancel_positive((num + c * den) * den2, num2 * den, l1);
        assert(l2 * (num2 * den) == den * ((x2 + c * l2) * den2)) by (nonlinear_arith)
            requires
                (x2 + c * l2) * den2 == num2 * l2,
        ;
        assert(den * ((x2 + c * l2) * den2) == den2 * (x2 * den) + c * l2 * den * den2)
            by (nonlinear_arith);
        assert(den2 * (x2 * den) <= den2 * (num * l2)) by (nonlinear_arith)
            requires
                den2 > 0,
                x2 * den <= num * l2,
        ;
        assert(den2 * (num * l2) + c * l2 * den * den2 == l2 * ((num + c * den) * den2))
            by (nonlinear_arith);
        lemma_cancel_positive(num2 * den, (num + c * den) * den2, l2);
    }
}

} // verus!
