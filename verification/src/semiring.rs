//! The max-plus semiring over exact integer weights.
//!
//! - Addition: a ⊕ b = max(a, b)
//! - Multiplication: a ⊗ b = a + b
//! - Additive identity: -∞
//! - Multiplicative identity: 0
use vstd::prelude::*;
use vstd::string::to_string_from_display_ensures;

verus! {

/// Tropical ⊕ on the mathematical model: the maximum, with -∞ (`None`) as identity.
pub open spec fn t_add(a: Option<int>, b: Option<int>) -> Option<int> {
    match (a, b) {
        (None, _) => b,
        (_, None) => a,
        (Some(x), Some(y)) => Some(if x >= y { x } else { y }),
    }
}

/// Tropical ⊗ on the mathematical model: the sum, with -∞ absorbing.
pub open spec fn t_mul(a: Option<int>, b: Option<int>) -> Option<int> {
    match (a, b) {
        (Some(x), Some(y)) => Some(x + y),
        _ => None,
    }
}

/// The n-th tropical power: n-fold ⊗, that is n times the weight.
pub open spec fn t_pow(a: Option<int>, n: nat) -> Option<int> {
    if n == 0 {
        Some(0)
    } else {
        match a {
            None => None,
            Some(x) => Some(x * n),
        }
    }
}

/// Tropical division (subtraction of weights); only defined for a finite divisor.
pub open spec fn t_div(a: Option<int>, b: int) -> Option<int> {
    match a {
        None => None,
        Some(x) => Some(x - b),
    }
}

/// The tropical order: -∞ lies below every weight.
pub open spec fn t_le(a: Option<int>, b: Option<int>) -> bool {
    match (a, b) {
        (None, _) => true,
        (Some(_), None) => false,
        (Some(x), Some(y)) => x <= y,
    }
}

/// The value is -∞ or a weight that an `i64` holds.
pub open spec fn in_i64(a: Option<int>) -> bool {
    match a {
        None => true,
        Some(x) => i64::MIN <= x <= i64::MAX,
    }
}

/// An element of the max-plus semiring: -∞ or a finite integer weight.
#[derive(Clone, Copy, Debug, PartialEq, Eq, Structural)]
pub enum TropicalSemiring {
    NegInf,
    Finite(i64),
}

impl View for TropicalSemiring {
    type V = Option<int>;

    open spec fn view(&self) -> Option<int> {
        match *self {
            TropicalSemiring::NegInf => None,
            TropicalSemiring::Finite(v) => Some(v as int),
        }
    }
}

impl TropicalSemiring {
    /// A finite tropical value.
    pub fn new(v: i64) -> (r: Self)
        ensures
            r@ == Some(v as int),
    {
        TropicalSemiring::Finite(v)
    }

    /// Tropical zero (-∞), the additive identity.
    pub fn zero() -> (r: Self)
        ensures
            r@ == None::<int>,
    {
        TropicalSemiring::NegInf
    }

    /// Tropical one (0), the multiplicative identity.
    pub fn one() -> (r: Self)
        ensures
            r@ == Some(0int),
    {
        TropicalSemiring::Finite(0)
    }

    /// Is this the additive identity (-∞)?
    pub fn is_zero(&self) -> (b: bool)
        ensures
            b == (self@ is None),
    {
        match self {
            TropicalSemiring::NegInf => true,
            TropicalSemiring::Finite(_) => false,
        }
    }

    /// Tropical addition (max).
    pub fn add(&self, other: &Self) -> (r: Self)
        ensures
            r@ == t_add(self@, other@),
    {
        if self.is_zero() {
            return *other;
        }
        if other.is_zero() {
            return *self;
        }
        match (self, other) {
            (TropicalSemiring::Finite(x), TropicalSemiring::Finite(y)) => {
                if *x >= *y {
                    TropicalSemiring::Finite(*x)
                } else {
                    TropicalSemiring::Finite(*y)
                }
            },
            _ => TropicalSemiring::NegInf,
        }
    }

    /// Tropical multiplication (addition of weights).
    pub fn mul(&self, other: &Self) -> (r: Self)
        requires
            in_i64(t_mul(self@, other@)),
        ensures
            r@ == t_mul(self@, other@),
    {
        match (self, other) {
            (TropicalSemiring::Finite(x), TropicalSemiring::Finite(y)) => TropicalSemiring::Finite(
                *x + *y,
            ),
            _ => TropicalSemiring::zero(),
        }
    }

    /// Tropical power (scalar multiplication of the weight in the conventional sense).
    pub fn pow(&self, n: usize) -> (r: Self)
        requires
            in_i64(t_pow(self@, n as nat)),
        ensures
            r@ == t_pow(self@, n as nat),
    {
        if n == 0 {
            return Self::one();
        }
        match self {
            TropicalSemiring::NegInf => Self::zero(),
            TropicalSemiring::Finite(x) => {
                let wide: i128 = (*x as i128) * (n as i128);
                TropicalSemiring::Finite(wide as i64)
            },
        }
    }

    /// The display form: "-∞" for tropical zero, else the weight in decimal.
    pub fn to_string(&self) -> (s: String)
        ensures
            match *self {
                TropicalSemiring::NegInf => s@ == "-∞"@,
                TropicalSemiring::Finite(v) => to_string_from_display_ensures::<i64>(&v, s),
            },
    {
        match self {
            TropicalSemiring::NegInf => {
                broadcast use vstd::string::to_string_from_display_ensures_for_str;

                "-∞".to_string()
            },
            TropicalSemiring::Finite(v) => v.to_string(),
        }
    }

    /// Tropical division (subtraction of weights). Returns `None` if the divisor is zero.
    pub fn div(&self, other: &Self) -> (r: Option<Self>)
        requires
            other@ is Some ==> in_i64(t_div(self@, other@->0)),
        ensures
            other@ is None <==> r is None,
            r is Some ==> r->0@ == t_div(self@, other@->0),
    {
        match other {
            TropicalSemiring::NegInf => None,
            TropicalSemiring::Finite(y) => match self {
                TropicalSemiring::NegInf => Some(Self::zero()),
                TropicalSemiring::Finite(x) => Some(TropicalSemiring::Finite(*x - *y)),
            },
        }
    }
}

/// ⊕ is commutative: a ⊕ b = b ⊕ a.
pub proof fn lemma_add_commutative(a: TropicalSemiring, b: TropicalSemiring)
    ensures
        t_add(a@, b@) == t_add(b@, a@),
{
}

/// ⊕ is associative: (a ⊕ b) ⊕ c = a ⊕ (b ⊕ c).
pub proof fn lemma_add_associative(a: TropicalSemiring, b: TropicalSemiring, c: TropicalSemiring)
    ensures
        t_add(t_add(a@, b@), c@) == t_add(a@, t_add(b@, c@)),
{
}

/// ⊕ is idempotent: a ⊕ a = a.
pub proof fn lemma_add_idempotent(a: TropicalSemiring)
    ensures
        t_add(a@, a@) == a@,
{
}

/// Tropical zero (-∞) is the identity of ⊕ on both sides.
pub proof fn lemma_zero_is_add_identity(a: TropicalSemiring)
    ensures
        t_add(TropicalSemiring::NegInf@, a@) == a@,
        t_add(a@, TropicalSemiring::NegInf@) == a@,
{
}

/// ⊗ is commutative: a ⊗ b = b ⊗ a.
pub proof fn lemma_mul_commutative(a: TropicalSemiring, b: TropicalSemiring)
    ensures
        t_mul(a@, b@) == t_mul(b@, a@),
{
}

/// ⊗ is associative: (a ⊗ b) ⊗ c = a ⊗ (b ⊗ c).
pub proof fn lemma_mul_associative(a: TropicalSemiring, b: TropicalSemiring, c: TropicalSemiring)
    ensures
        t_mul(t_mul(a@, b@), c@) == t_mul(a@, t_mul(b@, c@)),
{
}

/// Tropical one (0) is the identity of ⊗ on both sides.
pub proof fn lemma_one_is_mul_identity(a: TropicalSemiring)
    ensures
        t_mul(TropicalSemiring::Finite(0)@, a@) == a@,
        t_mul(a@, TropicalSemiring::Finite(0)@) == a@,
{
}

/// Tropical zero (-∞) absorbs under ⊗ on both sides.
pub proof fn lemma_zero_absorbs_mul(a: TropicalSemiring)
    ensures
        t_mul(TropicalSemiring::NegInf@, a@) is None,
        t_mul(a@, TropicalSemiring::NegInf@) is None,
{
}

/// ⊗ distributes over ⊕: a ⊗ (b ⊕ c) = (a ⊗ b) ⊕ (a ⊗ c), and on the right likewise.
pub proof fn lemma_mul_distributes_over_add(
    a: TropicalSemiring,
    b: TropicalSemiring,
    c: TropicalSemiring,
)
    ensures
        t_mul(a@, t_add(b@, c@)) == t_add(t_mul(a@, b@), t_mul(a@, c@)),
        t_mul(t_add(b@, c@), a@) == t_add(t_mul(b@, a@), t_mul(c@, a@)),
{
}

/// Division undoes multiplication by a finite divisor: (a ⊗ b) ⊘ b = a.
pub proof fn lemma_div_undoes_mul(a: TropicalSemiring, b: TropicalSemiring)
    requires
        b@ is Some,
    ensures
        t_div(t_mul(a@, b@), b@->0) == a@,
{
}

/// Powers add their exponents: a^(m + n) = a^m ⊗ a^n.
pub proof fn lemma_pow_adds_exponents(a: TropicalSemiring, m: nat, n: nat)
    ensures
        t_pow(a@, m + n) == t_mul(t_pow(a@, m), t_pow(a@, n)),
{
    if m > 0 && n > 0 && a@ is Some {
        let x = a@->0;
        assert(x * (m + n) == x * m + x * n) by (nonlinear_arith);
    }
}

/// The n-th power is n-fold ⊗: a⁰ = 0 (the ⊗ identity), a¹ = a, and
/// a^(n + 1) = aⁿ ⊗ a; for a finite weight x, xⁿ is the weight x · n.
pub proof fn lemma_pow_is_repeated_mul(a: TropicalSemiring, n: nat)
    ensures
        t_pow(a@, 0) == Some(0int),
        t_pow(a@, 1) == a@,
        t_pow(a@, n + 1) == t_mul(t_pow(a@, n), a@),
        a@ is Some ==> t_pow(a@, n) == Some(a@->0 * n),
{
    if a@ is Some {
        let x = a@->0;
        assert(x * (n + 1) == x * n + x) by (nonlinear_arith);
        assert(x * 1 == x);
    }
}

/// The tropical order is the order of ⊕: a ≤ b exactly when a ⊕ b = b.
pub proof fn lemma_le_is_add_order(a: TropicalSemiring, b: TropicalSemiring)
    ensures
        t_le(a@, b@) <==> t_add(a@, b@) == b@,
{
}

} // verus!
