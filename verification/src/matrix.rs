//! Matrices over the max-plus semiring, stored row-major.
use vstd::prelude::*;
use crate::semiring::{in_i64, t_add, t_mul, TropicalSemiring};

verus! {

/// A matrix model: a sequence of rows of tropical values.
pub type MatModel = Seq<Seq<Option<int>>>;

/// `m` has `r` rows of `c` entries each.
pub open spec fn has_shape(m: MatModel, r: nat, c: nat) -> bool {
    &&& m.len() == r
    &&& forall|i: int| 0 <= i < r ==> #[trigger] m[i].len() == c
}

/// The `r` × `c` matrix whose entries are all -∞.
pub open spec fn neg_inf_mat(r: nat, c: nat) -> MatModel {
    Seq::new(r, |i: int| Seq::new(c, |j: int| None::<int>))
}

/// The `n` × `n` tropical identity: 0 on the diagonal, -∞ elsewhere.
pub open spec fn ident(n: nat) -> MatModel {
    Seq::new(n, |i: int| Seq::new(n, |j: int| if i == j { Some(0int) } else { None::<int> }))
}

/// Tropical sum ⊕ of f(0), ..., f(n - 1), folded from the left starting at -∞.
pub open spec fn tsum(f: spec_fn(int) -> Option<int>, n: nat) -> Option<int>
    decreases n,
{
    if n == 0 {
        None
    } else {
        t_add(tsum(f, (n - 1) as nat), f(n - 1))
    }
}

/// Entry (i, j) of a product over the first `k` inner indices:
/// ⊕_{l < k} a[i][l] ⊗ b[l][j].
pub open spec fn dot(a: MatModel, b: MatModel, i: int, j: int, k: nat) -> Option<int> {
    tsum(|l: int| t_mul(a[i][l], b[l][j]), k)
}

/// The tropical product of an `r` × `inner` matrix and an `inner` × `c` matrix.
pub open spec fn mat_mul(a: MatModel, b: MatModel, r: nat, inner: nat, c: nat) -> MatModel {
    Seq::new(r, |i: int| Seq::new(c, |j: int| dot(a, b, i, j, inner)))
}

/// The element-wise tropical sum of two `r` × `c` matrices.
pub open spec fn mat_add(a: MatModel, b: MatModel, r: nat, c: nat) -> MatModel {
    Seq::new(r, |i: int| Seq::new(c, |j: int| t_add(a[i][j], b[i][j])))
}

/// Every product a[i][k] ⊗ b[k][j] that the tropical product of the two matrices
/// forms is -∞ or fits in an `i64`.
pub open spec fn products_fit(a: MatModel, b: MatModel, r: nat, inner: nat, c: nat) -> bool {
    forall|i: int, k: int, j: int|
        0 <= i < r && 0 <= k < inner && 0 <= j < c ==> #[trigger] in_i64(
            t_mul(a[i][k], b[k][j]),
        )
}

/// The e-th tropical power of a matrix with `n` rows: the identity for e = 0,
/// the matrix itself for e = 1, and A^(e-1) ⊗ A beyond.
pub open spec fn mat_pow(a: MatModel, n: nat, e: nat) -> MatModel
    decreases e,
{
    if e == 0 {
        ident(n)
    } else if e == 1 {
        a
    } else {
        mat_mul(mat_pow(a, n, (e - 1) as nat), a, n, n, n)
    }
}

/// I ⊕ A ⊕ A² ⊕ ... ⊕ A^t for an `n` × `n` matrix.
pub open spec fn pow_sum(a: MatModel, n: nat, t: nat) -> MatModel
    decreases t,
{
    if t == 0 {
        ident(n)
    } else {
        mat_add(pow_sum(a, n, (t - 1) as nat), mat_pow(a, n, t), n, n)
    }
}

/// Row-major position of entry (i, j) of a matrix with `c` columns lies inside its data.
pub proof fn lemma_index_in_bounds(i: int, j: int, r: int, c: int)
    requires
        0 <= i < r,
        0 <= j < c,
    ensures
        0 <= i * c + j < r * c,
{
    assert(0 <= i * c + j < r * c) by (nonlinear_arith)
        requires
            0 <= i < r,
            0 <= j < c,
    ;
}

/// Distinct entries have distinct row-major positions.
pub proof fn lemma_index_injective(i: int, j: int, i2: int, j2: int, c: int)
    requires
        0 <= i,
        0 <= i2,
        0 <= j < c,
        0 <= j2 < c,
        i * c + j == i2 * c + j2,
    ensures
        i == i2,
        j == j2,
{
    if i < i2 {
        assert(i * c + j < i2 * c + j2) by (nonlinear_arith)
            requires
                i < i2,
                0 <= j < c,
                0 <= j2,
        ;
    } else if i2 < i {
        assert(i2 * c + j2 < i * c + j) by (nonlinear_arith)
            requires
                i2 < i,
                0 <= j2 < c,
                0 <= j,
        ;
    }
}

proof fn lemma_t_add_assoc_comm(w: Option<int>, x: Option<int>, y: Option<int>, z: Option<int>)
    ensures
        t_add(t_add(w, x), t_add(y, z)) == t_add(t_add(w, y), t_add(x, z)),
{
}

/// A tropical sum depends only on the summands it adds.
proof fn lemma_tsum_ext(f: spec_fn(int) -> Option<int>, g: spec_fn(int) -> Option<int>, n: nat)
    requires
        forall|l: int| 0 <= l < n ==> #[trigger] f(l) == g(l),
    ensures
        tsum(f, n) == tsum(g, n),
    decreases n,
{
    if n > 0 {
        lemma_tsum_ext(f, g, (n - 1) as nat);
    }
}

/// A tropical sum whose only finite candidate is f(p) equals f(p).
proof fn lemma_tsum_single(f: spec_fn(int) -> Option<int>, n: nat, p: int, k: nat)
    requires
        0 <= p < n,
        k <= n,
        forall|l: int| 0 <= l < n && l != p ==> (#[trigger] f(l)) is None,
    ensures
        tsum(f, k) == (if k <= p {
            None::<int>
        } else {
            f(p)
        }),
    decreases k,
{
    if k > 0 {
        lemma_tsum_single(f, n, p, (k - 1) as nat);
    }
}

/// ⊗ on the left distributes over a tropical sum.
proof fn lemma_tsum_mul_left(x: Option<int>, f: spec_fn(int) -> Option<int>, n: nat)
    ensures
        t_mul(x, tsum(f, n)) == tsum(|l: int| t_mul(x, f(l)), n),
    decreases n,
{
    if n > 0 {
        lemma_tsum_mul_left(x, f, (n - 1) as nat);
    }
}

/// ⊗ on the right distributes over a tropical sum.
proof fn lemma_tsum_mul_right(f: spec_fn(int) -> Option<int>, y: Option<int>, n: nat)
    ensures
        t_mul(tsum(f, n), y) == tsum(|l: int| t_mul(f(l), y), n),
    decreases n,
{
    if n > 0 {
        lemma_tsum_mul_right(f, y, (n - 1) as nat);
    }
}

/// The tropical sum of element-wise sums is the sum of the two tropical sums.
proof fn lemma_tsum_add(f: spec_fn(int) -> Option<int>, g: spec_fn(int) -> Option<int>, n: nat)
    ensures
        tsum(|l: int| t_add(f(l), g(l)), n) == t_add(tsum(f, n), tsum(g, n)),
    decreases n,
{
    if n > 0 {
        lemma_tsum_add(f, g, (n - 1) as nat);
        lemma_t_add_assoc_comm(
            tsum(f, (n - 1) as nat),
            tsum(g, (n - 1) as nat),
            f(n - 1),
            g(n - 1),
        );
    }
}

/// A tropical sum of -∞ terms is -∞.
proof fn lemma_tsum_none(f: spec_fn(int) -> Option<int>, n: nat)
    requires
        forall|l: int| 0 <= l < n ==> (#[trigger] f(l)) is None,
    ensures
        tsum(f, n) is None,
    decreases n,
{
    if n > 0 {
        lemma_tsum_none(f, (n - 1) as nat);
    }
}

/// Double tropical sums may be taken in either order.
proof fn lemma_tsum_swap(g: spec_fn(int, int) -> Option<int>, n: nat, m: nat)
    ensures
        tsum(|k: int| tsum(|l: int| g(k, l), m), n) == tsum(|l: int| tsum(|k: int| g(k, l), n), m),
    decreases n,
{
    if n == 0 {
        let z = |l: int| tsum(|k: int| g(k, l), 0);
        assert forall|l: int| 0 <= l < m implies (#[trigger] z(l)) is None by {}
        lemma_tsum_none(z, m);
    } else {
        let n1 = (n - 1) as nat;
        lemma_tsum_swap(g, n1, m);
        let inner_prev = |l: int| tsum(|k: int| g(k, l), n1);
        let last = |l: int| g(n1 as int, l);
        let whole = |l: int| tsum(|k: int| g(k, l), n);
        let rows = |k: int| tsum(|l: int| g(k, l), m);
        assert(tsum(rows, n) == t_add(tsum(rows, n1), rows(n1 as int)));
        lemma_tsum_ext(|l: int| g(n1 as int, l), last, m);
        assert(rows(n1 as int) == tsum(last, m));
        lemma_tsum_add(inner_prev, last, m);
        let joined = |l: int| t_add(inner_prev(l), last(l));
        assert forall|l: int| 0 <= l < m implies #[trigger] joined(l) == whole(l) by {
            assert(tsum(|k: int| g(k, l), n) == t_add(
                tsum(|k: int| g(k, l), n1),
                (|k: int| g(k, l))(n1 as int),
            ));
        }
        lemma_tsum_ext(joined, whole, m);
    }
}

/// Powers of an n × n matrix are n × n.
pub proof fn lemma_mat_pow_shape(a: MatModel, n: nat, e: nat)
    requires
        has_shape(a, n, n),
    ensures
        has_shape(mat_pow(a, n, e), n, n),
    decreases e,
{
    if e >= 2 {
        lemma_mat_pow_shape(a, n, (e - 1) as nat);
    }
}

/// The tropical identity is neutral for matrix multiplication on both sides: I ⊗ A = A ⊗ I = A.
pub proof fn lemma_identity_neutral(a: MatModel, r: nat, c: nat)
    requires
        has_shape(a, r, c),
    ensures
        mat_mul(ident(r), a, r, r, c) == a,
        mat_mul(a, ident(c), r, c, c) == a,
{
    assert forall|i: int, j: int| 0 <= i < r && 0 <= j < c implies dot(ident(r), a, i, j, r)
        == a[i][j] by {
        let f = |l: int| t_mul(ident(r)[i][l], a[l][j]);
        lemma_tsum_single(f, r, i, r);
    }
    assert forall|i: int, j: int| 0 <= i < r && 0 <= j < c implies dot(a, ident(c), i, j, c)
        == a[i][j] by {
        let f = |l: int| t_mul(a[i][l], ident(c)[l][j]);
        lemma_tsum_single(f, c, j, c);
    }
    assert(mat_mul(ident(r), a, r, r, c) =~~= a);
    assert(mat_mul(a, ident(c), r, c, c) =~~= a);
}

/// Tropical matrix multiplication is associative: (A ⊗ B) ⊗ C = A ⊗ (B ⊗ C).
pub proof fn lemma_matmul_associative(
    a: MatModel,
    b: MatModel,
    c: MatModel,
    r: nat,
    p: nat,
    q: nat,
    s: nat,
)
    requires
        has_shape(a, r, p),
        has_shape(b, p, q),
        has_shape(c, q, s),
    ensures
        mat_mul(mat_mul(a, b, r, p, q), c, r, q, s) == mat_mul(a, mat_mul(b, c, p, q, s), r, p, s),
{
    let ab = mat_mul(a, b, r, p, q);
    let bc = mat_mul(b, c, p, q, s);
    assert forall|i: int, j: int| 0 <= i < r && 0 <= j < s implies dot(ab, c, i, j, q) == dot(
        a,
        bc,
        i,
        j,
        p,
    ) by {
        let g = |k: int, l: int| t_mul(t_mul(a[i][k], b[k][l]), c[l][j]);
        // (A ⊗ B) ⊗ C: ⊕_l (⊕_k a_ik ⊗ b_kl) ⊗ c_lj = ⊕_l ⊕_k g(k, l)
        assert forall|l: int| 0 <= l < q implies t_mul(ab[i][l], c[l][j]) == tsum(
            |k: int| g(k, l),
            p,
        ) by {
            lemma_tsum_mul_right(|k: int| t_mul(a[i][k], b[k][l]), c[l][j], p);
            lemma_tsum_ext(
                |k: int| t_mul((|k: int| t_mul(a[i][k], b[k][l]))(k), c[l][j]),
                |k: int| g(k, l),
                p,
            );
        }
        lemma_tsum_ext(
            |l: int| t_mul(ab[i][l], c[l][j]),
            |l: int| tsum(|k: int| g(k, l), p),
            q,
        );
        // A ⊗ (B ⊗ C): ⊕_k a_ik ⊗ (⊕_l b_kl ⊗ c_lj) = ⊕_k ⊕_l g(k, l)
        assert forall|k: int| 0 <= k < p implies t_mul(a[i][k], bc[k][j]) == tsum(
            |l: int| g(k, l),
            q,
        ) by {
            lemma_tsum_mul_left(a[i][k], |l: int| t_mul(b[k][l], c[l][j]), q);
            lemma_tsum_ext(
                |l: int| t_mul(a[i][k], (|l: int| t_mul(b[k][l], c[l][j]))(l)),
                |l: int| g(k, l),
                q,
            );
        }
        lemma_tsum_ext(
            |k: int| t_mul(a[i][k], bc[k][j]),
            |k: int| tsum(|l: int| g(k, l), q),
            p,
        );
        lemma_tsum_swap(g, p, q);
    }
    assert(mat_mul(ab, c, r, q, s) =~~= mat_mul(a, bc, r, p, s));
}

/// Tropical matrix multiplication distributes over the element-wise sum on both
/// sides: A ⊗ (B ⊕ C) = (A ⊗ B) ⊕ (A ⊗ C) and (B ⊕ C) ⊗ D = (B ⊗ D) ⊕ (C ⊗ D).
pub proof fn lemma_matmul_distributes(
    a: MatModel,
    b: MatModel,
    c: MatModel,
    d: MatModel,
    r: nat,
    p: nat,
    q: nat,
    s: nat,
)
    requires
        has_shape(a, r, p),
        has_shape(b, p, q),
        has_shape(c, p, q),
        has_shape(d, q, s),
    ensures
        mat_mul(a, mat_add(b, c, p, q), r, p, q) == mat_add(
            mat_mul(a, b, r, p, q),
            mat_mul(a, c, r, p, q),
            r,
            q,
        ),
        mat_mul(mat_add(b, c, p, q), d, p, q, s) == mat_add(
            mat_mul(b, d, p, q, s),
            mat_mul(c, d, p, q, s),
            p,
            s,
        ),
{
    let bc = mat_add(b, c, p, q);
    assert forall|i: int, j: int| 0 <= i < r && 0 <= j < q implies dot(a, bc, i, j, p) == t_add(
        dot(a, b, i, j, p),
        dot(a, c, i, j, p),
    ) by {
        let f = |l: int| t_mul(a[i][l], b[l][j]);
        let g = |l: int| t_mul(a[i][l], c[l][j]);
        lemma_tsum_add(f, g, p);
        lemma_tsum_ext(|l: int| t_mul(a[i][l], bc[l][j]), |l: int| t_add(f(l), g(l)), p);
    }
    assert(mat_mul(a, bc, r, p, q) =~~= mat_add(mat_mul(a, b, r, p, q), mat_mul(a, c, r, p, q), r, q));
    assert forall|i: int, j: int| 0 <= i < p && 0 <= j < s implies dot(bc, d, i, j, q) == t_add(
        dot(b, d, i, j, q),
        dot(c, d, i, j, q),
    ) by {
        let f = |l: int| t_mul(b[i][l], d[l][j]);
        let g = |l: int| t_mul(c[i][l], d[l][j]);
        lemma_tsum_add(f, g, q);
        lemma_tsum_ext(|l: int| t_mul(bc[i][l], d[l][j]), |l: int| t_add(f(l), g(l)), q);
    }
    assert(mat_mul(bc, d, p, q, s) =~~= mat_add(mat_mul(b, d, p, q, s), mat_mul(c, d, p, q, s), p, s));
}

/// Matrix powers add their exponents: A^(p + q) = A^p ⊗ A^q.
pub proof fn lemma_power_adds_exponents(a: MatModel, n: nat, p: nat, q: nat)
    requires
        has_shape(a, n, n),
    ensures
        mat_pow(a, n, p + q) == mat_mul(mat_pow(a, n, p), mat_pow(a, n, q), n, n, n),
    decreases q,
{
    lemma_mat_pow_shape(a, n, p);
    if q == 0 {
        lemma_identity_neutral(mat_pow(a, n, p), n, n);
        assert(p + q == p);
    } else {
        lemma_power_adds_exponents(a, n, p, (q - 1) as nat);
        lemma_mat_pow_shape(a, n, (q - 1) as nat);
        lemma_mat_pow_shape(a, n, (p + q - 1) as nat);
        lemma_matmul_associative(mat_pow(a, n, p), mat_pow(a, n, (q - 1) as nat), a, n, n, n, n);
        lemma_identity_neutral(a, n, n);
        lemma_identity_neutral(mat_pow(a, n, p), n, n);
        // A^(q-1) ⊗ A == A^q
        assert(mat_mul(mat_pow(a, n, (q - 1) as nat), a, n, n, n) == mat_pow(a, n, q));
        // A^(p+q-1) ⊗ A == A^(p+q)
        assert(mat_mul(mat_pow(a, n, (p + q - 1) as nat), a, n, n, n) == mat_pow(a, n, p + q));
    }
}

/// One more factor: A^(e + 1) = A^e ⊗ A for every e, and A¹ = A.
pub proof fn lemma_power_step(a: MatModel, n: nat, e: nat)
    requires
        has_shape(a, n, n),
    ensures
        mat_pow(a, n, e + 1) == mat_mul(mat_pow(a, n, e), a, n, n, n),
        mat_pow(a, n, 1) == a,
{
    if e == 0 {
        lemma_identity_neutral(a, n, n);
    }
}

/// A matrix over the tropical semiring.
#[derive(Debug)]
pub struct TropicalMatrix {
    pub rows: usize,
    pub cols: usize,
    pub data: Vec<TropicalSemiring>,
}

impl View for TropicalMatrix {
    type V = MatModel;

    open spec fn view(&self) -> MatModel {
        Seq::new(
            self.rows as nat,
            |i: int| Seq::new(self.cols as nat, |j: int| self.data@[i * self.cols + j]@),
        )
    }
}

impl Clone for TropicalMatrix {
    fn clone(&self) -> (res: Self)
        ensures
            res.rows == self.rows,
            res.cols == self.cols,
            res.data@ == self.data@,
    {
        TropicalMatrix { rows: self.rows, cols: self.cols, data: self.data.clone() }
    }
}

impl TropicalMatrix {
    /// The data holds exactly `rows * cols` entries.
    pub open spec fn wf(&self) -> bool {
        self.data@.len() == self.rows * self.cols
    }

    /// Create a tropical matrix filled with -∞.
    pub fn zeros(rows: usize, cols: usize) -> (m: Self)
        requires
            rows * cols <= usize::MAX,
        ensures
            m.wf(),
            m.rows == rows,
            m.cols == cols,
            m@ == neg_inf_mat(rows as nat, cols as nat),
    {
        let m = TropicalMatrix { rows, cols, data: vec![TropicalSemiring::zero(); rows * cols] };
        assert forall|i: int, j: int| 0 <= i < rows && 0 <= j < cols implies m@[i][j] is None by {
            lemma_index_in_bounds(i, j, rows as int, cols as int);
        }
        assert(m@ =~~= neg_inf_mat(rows as nat, cols as nat));
        m
    }

    /// Entry (i, j).
    pub fn get(&self, i: usize, j: usize) -> (r: TropicalSemiring)
        requires
            i * self.cols + j < self.data@.len(),
        ensures
            r == self.data@[i * self.cols + j],
            self.wf() && i < self.rows && j < self.cols ==> r@ == self@[i as int][j as int],
    {
        let len = self.data.len();
        assert(i * self.cols + j < len);
        self.data[i * self.cols + j]
    }

    /// Overwrite entry (i, j).
    pub fn set(&mut self, i: usize, j: usize, v: TropicalSemiring)
        requires
            i * old(self).cols + j < old(self).data@.len(),
        ensures
            final(self).rows == old(self).rows,
            final(self).cols == old(self).cols,
            final(self).data@ == old(self).data@.update(i * old(self).cols + j, v),
            old(self).wf() && i < old(self).rows && j < old(self).cols ==> final(self)@ == old(
                self,
            )@.update(i as int, old(self)@[i as int].update(j as int, v@)),
    {
        let ghost before = self@;
        let len = self.data.len();
        assert(i * self.cols + j < len);
        let idx = i * self.cols + j;
        self.data.set(idx, v);
        proof {
            if old(self).wf() && i < old(self).rows && j < old(self).cols {
                let c = self.cols as int;
                let after = before.update(i as int, before[i as int].update(j as int, v@));
                assert forall|a: int, b: int|
                    0 <= a < self.rows && 0 <= b < c implies self@[a][b] == after[a][b] by {
                    lemma_index_in_bounds(a, b, self.rows as int, c);
                    if a != i || b != j {
                        if a * c + b == i * c + j {
                            lemma_index_injective(a, b, i as int, j as int, c);
                        }
                    }
                }
                assert(self@ =~~= after);
            }
        }
    }

    /// Create a tropical identity matrix (0 on diagonal, -∞ elsewhere).
    pub fn identity(n: usize) -> (m: Self)
        requires
            n * n <= usize::MAX,
        ensures
            m.wf(),
            m.rows == n,
            m.cols == n,
            m@ == ident(n as nat),
    {
        let mut m = Self::zeros(n, n);
        for i in 0..n
            invariant
                m.wf(),
                m.rows == n,
                m.cols == n,
                forall|a: int, b: int|
                    0 <= a < n && 0 <= b < n ==> #[trigger] m@[a][b] == (if a == b && a < i {
                        Some(0int)
                    } else {
                        None::<int>
                    }),
        {
            proof {
                lemma_index_in_bounds(i as int, i as int, n as int, n as int);
            }
            m.set(i, i, TropicalSemiring::one());
        }
        assert(m@ =~~= ident(n as nat));
        m
    }

    /// Tropical matrix multiplication: (A ⊗ B)_{ij} = max_k (A_{ik} + B_{kj}).
    pub fn matmul(&self, other: &Self) -> (r: Self)
        requires
            self.wf(),
            other.wf(),
            self.cols == other.rows,
            self.rows * other.cols <= usize::MAX,
            products_fit(self@, other@, self.rows as nat, self.cols as nat, other.cols as nat),
        ensures
            r.wf(),
            r.rows == self.rows,
            r.cols == other.cols,
            r@ == mat_mul(self@, other@, self.rows as nat, self.cols as nat, other.cols as nat),
    {
        let ghost a = self@;
        let ghost b = other@;
        let ghost rr = self.rows as nat;
        let ghost inner = self.cols as nat;
        let ghost cc = other.cols as nat;
        let mut result = Self::zeros(self.rows, other.cols);
        for i in 0..self.rows
            invariant
                self.wf(),
                other.wf(),
                self.cols == other.rows,
                a == self@,
                b == other@,
                rr == self.rows,
                inner == self.cols,
                cc == other.cols,
                products_fit(a, b, rr, inner, cc),
                result.wf(),
                result.rows == self.rows,
                result.cols == other.cols,
                forall|x: int, y: int|
                    0 <= x < i && 0 <= y < cc ==> #[trigger] result@[x][y] == dot(a, b, x, y, inner),
        {
            for j in 0..other.cols
                invariant
                    self.wf(),
                    other.wf(),
                    self.cols == other.rows,
                    a == self@,
                    b == other@,
                    rr == self.rows,
                    inner == self.cols,
                    cc == other.cols,
                    i < self.rows,
                    products_fit(a, b, rr, inner, cc),
                    result.wf(),
                    result.rows == self.rows,
                    result.cols == other.cols,
                    forall|x: int, y: int|
                        0 <= x < rr && 0 <= y < cc && (x < i || (x == i && y < j))
                            ==> #[trigger] result@[x][y] == dot(a, b, x, y, inner),
            {
                let mut best = TropicalSemiring::zero();
                for k in 0..self.cols
                    invariant
                        self.wf(),
                        other.wf(),
                        self.cols == other.rows,
                        a == self@,
                        b == other@,
                        inner == self.cols,
                        cc == other.cols,
                        i < self.rows,
                        j < other.cols,
                        products_fit(a, b, rr, inner, cc),
                        rr == self.rows,
                        best@ == dot(a, b, i as int, j as int, k as nat),
                {
                    proof {
                        lemma_index_in_bounds(i as int, k as int, self.rows as int, self.cols as int);
                        lemma_index_in_bounds(k as int, j as int, other.rows as int, other.cols as int);
                        assert(in_i64(t_mul(a[i as int][k as int], b[k as int][j as int])));
                    }
                    let x = self.get(i, k);
                    let y = other.get(k, j);
                    best = best.add(&x.mul(&y));
                }
                proof {
                    lemma_index_in_bounds(i as int, j as int, self.rows as int, other.cols as int);
                }
                result.set(i, j, best);
            }
        }
        assert(result@ =~~= mat_mul(a, b, rr, inner, cc));
        result
    }

    /// Tropical matrix power.
    pub fn power(&self, n: usize) -> (r: Self)
        requires
            self.wf(),
            n == 0 ==> self.rows * self.rows <= usize::MAX,
            n >= 2 ==> self.rows == self.cols,
            forall|e: nat|
                1 <= e < n ==> #[trigger] products_fit(
                    mat_pow(self@, self.rows as nat, e),
                    self@,
                    self.rows as nat,
                    self.rows as nat,
                    self.rows as nat,
                ),
        ensures
            r.wf(),
            r.rows == self.rows,
            r.cols == (if n == 0 { self.rows } else { self.cols }),
            r@ == mat_pow(self@, self.rows as nat, n as nat),
    {
        if n == 0 {
            return Self::identity(self.rows);
        }
        if n == 1 {
            let r = self.clone();
            assert(r@ =~~= self@);
            return r;
        }
        let len = self.data.len();
        let ghost a = self@;
        let ghost m = self.rows as nat;
        let mut result = self.clone();
        assert(result@ =~~= a);
        for t in 1..n
            invariant
                self.wf(),
                self.rows == self.cols,
                a == self@,
                m == self.rows,
                len == self.rows * self.cols,
                forall|e: nat|
                    1 <= e < n ==> #[trigger] products_fit(mat_pow(a, m, e), a, m, m, m),
                result.wf(),
                result.rows == self.rows,
                result.cols == self.cols,
                result@ == mat_pow(a, m, t as nat),
        {
            assert(products_fit(mat_pow(a, m, t as nat), a, m, m, m));
            result = result.matmul(self);
        }
        result
    }

    /// Kleene star: A* = I ⊕ A ⊕ A² ⊕ ... ⊕ Aⁿ (n = dimension).
    pub fn kleene_star(&self) -> (r: Self)
        requires
            self.wf(),
            self.rows == 0 || self.rows == self.cols,
            forall|e: nat|
                1 <= e < self.rows ==> #[trigger] products_fit(
                    mat_pow(self@, self.rows as nat, e),
                    self@,
                    self.rows as nat,
                    self.rows as nat,
                    self.rows as nat,
                ),
        ensures
            r.wf(),
            r.rows == self.rows,
            r.cols == self.rows,
            r@ == pow_sum(self@, self.rows as nat, self.rows as nat),
    {
        let n = self.rows;
        let len = self.data.len();
        let ghost a = self@;
        let ghost m = n as nat;
        proof {
            if n > 0 {
                assert(n * n == len);
            }
        }
        let mut result = Self::identity(n);
        let mut accum = self.clone();
        assert(accum@ =~~= a);
        for t in 0..n
            invariant
                self.wf(),
                n == self.rows,
                n > 0 ==> n == self.cols,
                a == self@,
                m == n,
                len == self.rows * self.cols,
                forall|e: nat|
                    1 <= e < n ==> #[trigger] products_fit(mat_pow(a, m, e), a, m, m, m),
                result.wf(),
                result.rows == n,
                result.cols == n,
                result@ == pow_sum(a, m, t as nat),
                accum.wf(),
                accum.rows == n,
                accum.cols == self.cols,
                t < n ==> accum@ == mat_pow(a, m, (t + 1) as nat),
        {
            result = tropical_matrix_add(&result, &accum);
            if t + 1 < n {
                assert(products_fit(mat_pow(a, m, (t + 1) as nat), a, m, m, m));
                accum = accum.matmul(self);
            }
        }
        result
    }
}

/// Element-wise tropical addition of two matrices.
pub fn tropical_matrix_add(a: &TropicalMatrix, b: &TropicalMatrix) -> (r: TropicalMatrix)
    requires
        a.wf(),
        b.wf(),
        a.rows == b.rows,
        a.cols == b.cols,
    ensures
        r.wf(),
        r.rows == a.rows,
        r.cols == a.cols,
        r@ == mat_add(a@, b@, a.rows as nat, a.cols as nat),
{
    let len = a.data.len();
    let mut result = TropicalMatrix::zeros(a.rows, a.cols);
    for i in 0..a.rows
        invariant
            a.wf(),
            b.wf(),
            a.rows == b.rows,
            a.cols == b.cols,
            result.wf(),
            result.rows == a.rows,
            result.cols == a.cols,
            forall|x: int, y: int|
                0 <= x < i && 0 <= y < a.cols ==> #[trigger] result@[x][y] == t_add(
                    a@[x][y],
                    b@[x][y],
                ),
    {
        for j in 0..a.cols
            invariant
                a.wf(),
                b.wf(),
                a.rows == b.rows,
                a.cols == b.cols,
                i < a.rows,
                result.wf(),
                result.rows == a.rows,
                result.cols == a.cols,
                forall|x: int, y: int|
                    0 <= x < a.rows && 0 <= y < a.cols && (x < i || (x == i && y < j))
                        ==> #[trigger] result@[x][y] == t_add(a@[x][y], b@[x][y]),
        {
            proof {
                lemma_index_in_bounds(i as int, j as int, a.rows as int, a.cols as int);
            }
            let x = a.get(i, j);
            let y = b.get(i, j);
            result.set(i, j, x.add(&y));
        }
    }
    assert(result@ =~~= mat_add(a@, b@, a.rows as nat, a.cols as nat));
    result
}

} // verus!
