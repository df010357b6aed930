//! Tropical halfspaces and polyhedra.
use vstd::prelude::*;
use crate::semiring::{in_i64, t_add, t_le, t_mul, TropicalSemiring};

verus! {

/// max over j < m of (c[j] + x[j]), folded from the left starting at -∞.
pub open spec fn lhs(c: Seq<TropicalSemiring>, x: Seq<TropicalSemiring>, m: nat) -> Option<int>
    decreases m,
{
    if m == 0 {
        None
    } else {
        t_add(lhs(c, x, (m - 1) as nat), t_mul(c[m - 1]@, x[m - 1]@))
    }
}

/// The number of coordinates a halfspace reads from a point: both must have them.
pub open spec fn common_len(h: TropicalHalfspace, x: Seq<TropicalSemiring>) -> nat {
    if h.coefficients@.len() <= x.len() {
        h.coefficients@.len()
    } else {
        x.len()
    }
}

/// The point satisfies the halfspace: max_j(aⱼ + xⱼ) ≤ b in the tropical order.
pub open spec fn satisfies(h: TropicalHalfspace, x: Seq<TropicalSemiring>) -> bool {
    t_le(lhs(h.coefficients@, x, common_len(h, x)), h.bound@)
}

/// The point satisfies every halfspace of the sequence.
pub open spec fn satisfies_all(hs: Seq<TropicalHalfspace>, x: Seq<TropicalSemiring>) -> bool {
    forall|i: int| 0 <= i < hs.len() ==> #[trigger] satisfies(hs[i], x)
}

/// Every term aⱼ + xⱼ that checking the point against the halfspaces forms fits in an `i64`.
pub open spec fn terms_fit(hs: Seq<TropicalHalfspace>, x: Seq<TropicalSemiring>) -> bool {
    forall|i: int, j: int|
        0 <= i < hs.len() && 0 <= j < common_len(hs[i], x) ==> #[trigger] in_i64(
            t_mul(hs[i].coefficients@[j]@, x[j]@),
        )
}

/// A tropical halfspace: { x : max(a₁ + x₁, a₂ + x₂, ..., aₙ + xₙ) ≤ b }.
#[derive(Debug)]
pub struct TropicalHalfspace {
    /// Coefficients a.
    pub coefficients: Vec<TropicalSemiring>,
    /// Bound b.
    pub bound: TropicalSemiring,
}

/// Tropical polyhedron: intersection of tropical halfspaces.
#[derive(Debug)]
pub struct TropicalPolyhedron {
    pub halfspaces: Vec<TropicalHalfspace>,
}

impl Clone for TropicalHalfspace {
    fn clone(&self) -> (res: Self)
        ensures
            res.coefficients@ == self.coefficients@,
            res.bound == self.bound,
    {
        TropicalHalfspace { coefficients: self.coefficients.clone(), bound: self.bound }
    }
}

impl Clone for TropicalPolyhedron {
    fn clone(&self) -> (res: Self)
        ensures
            res.halfspaces@.len() == self.halfspaces@.len(),
            forall|i: int|
                0 <= i < self.halfspaces@.len() ==> (#[trigger] res.halfspaces@[i]).coefficients@
                    == self.halfspaces@[i].coefficients@ && res.halfspaces@[i].bound
                    == self.halfspaces@[i].bound,
    {
        let mut halfspaces: Vec<TropicalHalfspace> = Vec::new();
        for h in 0..self.halfspaces.len()
            invariant
                halfspaces@.len() == h,
                forall|i: int|
                    0 <= i < h ==> (#[trigger] halfspaces@[i]).coefficients@
                        == self.halfspaces@[i].coefficients@ && halfspaces@[i].bound
                        == self.halfspaces@[i].bound,
        {
            halfspaces.push(self.halfspaces[h].clone());
        }
        TropicalPolyhedron { halfspaces }
    }
}

impl TropicalPolyhedron {
    /// Create an empty polyhedron (no constraints).
    pub fn new() -> (p: Self)
        ensures
            p.halfspaces@.len() == 0,
    {
        TropicalPolyhedron { halfspaces: Vec::new() }
    }

    /// Add a tropical halfspace constraint.
    pub fn add_halfspace(&mut self, coefficients: Vec<TropicalSemiring>, bound: TropicalSemiring)
        ensures
            final(self).halfspaces@ == old(self).halfspaces@.push(
                TropicalHalfspace { coefficients, bound },
            ),
    {
        self.halfspaces.push(TropicalHalfspace { coefficients, bound });
    }

    /// Check if a point satisfies all constraints.
    /// Constraint: max_j(aⱼ + xⱼ) ≤ b, over the coordinates that both the
    /// halfspace and the point have.
    pub fn contains(&self, point: &[TropicalSemiring]) -> (b: bool)
        requires
            terms_fit(self.halfspaces@, point@),
        ensures
            b == satisfies_all(self.halfspaces@, point@),
    {
        let ghost hs = self.halfspaces@;
        for h in 0..self.halfspaces.len()
            invariant
                hs == self.halfspaces@,
                terms_fit(hs, point@),
                forall|i: int| 0 <= i < h ==> #[trigger] satisfies(hs[i], point@),
        {
            let halfspace = &self.halfspaces[h];
            let ghost c = halfspace.coefficients@;
            let mut max_val = TropicalSemiring::zero();
            for j in 0..halfspace.coefficients.len()
                invariant
                    hs == self.halfspaces@,
                    h < hs.len(),
                    *halfspace == hs[h as int],
                    c == halfspace.coefficients@,
                    terms_fit(hs, point@),
                    max_val@ == lhs(c, point@, if j <= point@.len() {
                        j as nat
                    } else {
                        point@.len()
                    }),
            {
                if j < point.len() {
                    proof {
                        assert(in_i64(t_mul(hs[h as int].coefficients@[j as int]@, point@[j as int]@)));
                    }
                    max_val = max_val.add(&halfspace.coefficients[j].mul(&point[j]));
                }
            }
            let violated = match (max_val, halfspace.bound) {
                (TropicalSemiring::NegInf, _) => false,
                (TropicalSemiring::Finite(_), TropicalSemiring::NegInf) => true,
                (TropicalSemiring::Finite(v), TropicalSemiring::Finite(b)) => v > b,
            };
            if violated {
                assert(!satisfies(hs[h as int], point@));
                return false;
            }
        }
        true
    }

    /// Number of constraints.
    pub fn num_constraints(&self) -> (n: usize)
        ensures
            n == self.halfspaces@.len(),
    {
        self.halfspaces.len()
    }
}

/// max_j(cⱼ + xⱼ) over j < m lies below a bound exactly when every term does.
proof fn lemma_lhs_below(c: Seq<TropicalSemiring>, x: Seq<TropicalSemiring>, m: nat, b: Option<int>)
    ensures
        t_le(lhs(c, x, m), b) <==> forall|j: int| 0 <= j < m ==> t_le(#[trigger] t_mul(c[j]@, x[j]@), b),
    decreases m,
{
    if m > 0 {
        lemma_lhs_below(c, x, (m - 1) as nat, b);
        if t_le(lhs(c, x, m), b) {
            assert forall|j: int| 0 <= j < m implies t_le(#[trigger] t_mul(c[j]@, x[j]@), b) by {
                if j < m - 1 {
                    assert(t_le(t_mul(c[j]@, x[j]@), b));
                }
            }
        }
        if forall|j: int| 0 <= j < m ==> t_le(#[trigger] t_mul(c[j]@, x[j]@), b) {
            assert(t_le(t_mul(c[m - 1]@, x[m - 1]@), b));
            assert forall|j: int| 0 <= j < m - 1 implies t_le(#[trigger] t_mul(c[j]@, x[j]@), b) by {
                assert(t_le(t_mul(c[j]@, x[j]@), b));
            }
        }
    }
}

/// A point lies in a halfspace exactly when every term aⱼ + xⱼ (over the
/// coordinates both have) is at most the bound: -∞ terms always are, and a finite
/// term is at most a finite bound b as an integer (whatever its sign), never at
/// most a -∞ bound. So for a finite bound b and a finite left side v, the point
/// lies in the halfspace exactly when v ≤ b. The coordinates read are the first
/// min(number of coefficients, number of coordinates of the point).
pub proof fn lemma_satisfies_iff_terms_below(h: TropicalHalfspace, x: Seq<TropicalSemiring>)
    ensures
        common_len(h, x) <= h.coefficients@.len(),
        common_len(h, x) <= x.len(),
        common_len(h, x) == h.coefficients@.len() || common_len(h, x) == x.len(),
        satisfies(h, x) <==> forall|j: int|
            0 <= j < common_len(h, x) ==> match (#[trigger] t_mul(h.coefficients@[j]@, x[j]@), h.bound@) {
                (None, _) => true,
                (Some(_), None) => false,
                (Some(v), Some(b)) => v <= b,
            },
        h.bound@ is Some && lhs(h.coefficients@, x, common_len(h, x)) is Some ==> (satisfies(h, x)
            <==> lhs(h.coefficients@, x, common_len(h, x))->0 <= h.bound@->0),
{
    lemma_lhs_below(h.coefficients@, x, common_len(h, x), h.bound@);
}

/// Lowering coordinates of a point never raises max_j(cⱼ + xⱼ).
proof fn lemma_lhs_monotone(c: Seq<TropicalSemiring>, x: Seq<TropicalSemiring>, y: Seq<TropicalSemiring>, m: nat)
    requires
        m <= x.len(),
        m <= y.len(),
        forall|k: int| 0 <= k < m ==> t_le(#[trigger] y[k]@, x[k]@),
    ensures
        t_le(lhs(c, y, m), lhs(c, x, m)),
    decreases m,
{
    if m > 0 {
        lemma_lhs_monotone(c, x, y, (m - 1) as nat);
        assert(t_le(y[m - 1]@, x[m - 1]@));
    }
}

/// A tropical polyhedron is closed downward: a point whose coordinates all lie
/// below those of a point of the polyhedron (same number of coordinates, in the
/// tropical order) belongs to it too.
pub proof fn lemma_polyhedron_downward_closed(
    hs: Seq<TropicalHalfspace>,
    x: Seq<TropicalSemiring>,
    y: Seq<TropicalSemiring>,
)
    requires
        satisfies_all(hs, x),
        y.len() == x.len(),
        forall|k: int| 0 <= k < x.len() ==> t_le(#[trigger] y[k]@, x[k]@),
    ensures
        satisfies_all(hs, y),
{
    assert forall|i: int| 0 <= i < hs.len() implies #[trigger] satisfies(hs[i], y) by {
        assert(satisfies(hs[i], x));
        assert(common_len(hs[i], y) == common_len(hs[i], x));
        lemma_lhs_monotone(hs[i].coefficients@, x, y, common_len(hs[i], x));
    }
}

/// An empty polyhedron contains every point.
pub proof fn lemma_empty_contains_all(x: Seq<TropicalSemiring>)
    ensures
        satisfies_all(Seq::<TropicalHalfspace>::empty(), x),
{
}

/// Adding a halfspace keeps exactly the points of the polyhedron that also satisfy it.
pub proof fn lemma_add_halfspace_intersects(
    hs: Seq<TropicalHalfspace>,
    h: TropicalHalfspace,
    x: Seq<TropicalSemiring>,
)
    ensures
        satisfies_all(hs.push(h), x) <==> satisfies_all(hs, x) && satisfies(h, x),
{
    if satisfies_all(hs.push(h), x) {
        assert(satisfies(hs.push(h)[hs.len() as int], x));
        assert forall|i: int| 0 <= i < hs.len() implies #[trigger] satisfies(hs[i], x) by {
            assert(satisfies(hs.push(h)[i], x));
        }
    }
    if satisfies_all(hs, x) && satisfies(h, x) {
        assert forall|i: int| 0 <= i < hs.push(h).len() implies #[trigger] satisfies(
            hs.push(h)[i],
            x,
        ) by {
            if i < hs.len() {
                assert(satisfies(hs[i], x));
            }
        }
    }
}

} // verus!
