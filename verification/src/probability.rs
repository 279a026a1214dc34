//! Probabilities as fixed-point numbers: whole parts of one billionth.

use vstd::arithmetic::div_mod::{lemma_div_by_multiple, lemma_div_is_ordered};
use vstd::prelude::*;

verus! {

/// The number of parts that make probability one.
pub const SCALE: u32 = 1_000_000_000;

/// The product of two probabilities given in parts, rounded down to a whole
/// number of parts.
pub open spec fn fixed_mul(a: nat, b: nat) -> nat {
    a * b / (SCALE as nat)
}

/// The probability, in parts, that an event of probability `p` does not
/// happen.
pub open spec fn complement(p: nat) -> nat {
    if p <= SCALE {
        (SCALE - p) as nat
    } else {
        0
    }
}

/// The probability, in parts, of escaping `k` independent threats, each of
/// which is escaped with probability `q`: one, multiplied `k` times by `q`.
pub open spec fn survival_after(q: nat, k: nat) -> nat
    decreases k,
{
    if k == 0 {
        SCALE as nat
    } else {
        fixed_mul(survival_after(q, (k - 1) as nat), q)
    }
}

proof fn lemma_quotient_bound(n: int, m: int, d: int)
    requires
        0 <= n <= m * d,
        0 < d,
    ensures
        n / d <= m,
{
    assert(0 <= m) by (nonlinear_arith)
        requires
            0 <= m * d,
            0 < d,
    ;
    lemma_div_is_ordered(n, m * d, d);
    lemma_div_by_multiple(m, d);
}

/// A product of two probabilities is a probability, no larger than either
/// factor; one is neutral and zero absorbs.
pub proof fn lemma_fixed_mul(a: nat, b: nat)
    requires
        a <= SCALE,
        b <= SCALE,
    ensures
        fixed_mul(a, b) <= a,
        fixed_mul(a, b) <= b,
        fixed_mul(a, b) == fixed_mul(b, a),
        fixed_mul(a, SCALE as nat) == a,
        fixed_mul(a, 0) == 0,
{
    let s = SCALE as int;
    assert(a * b == b * a) by (nonlinear_arith);
    assert(0 <= a * b <= a * s) by (nonlinear_arith)
        requires
            0 <= a,
            0 <= b <= s,
    ;
    assert(a * b <= b * s) by (nonlinear_arith)
        requires
            0 <= b,
            0 <= a <= s,
    ;
    lemma_quotient_bound((a * b) as int, a as int, s);
    lemma_quotient_bound((a * b) as int, b as int, s);
    lemma_div_by_multiple(a as int, s);
    assert(a * 0 == 0) by (nonlinear_arith);
}

/// Escaping threats that are always escaped is certain.
pub proof fn lemma_survival_certain(k: nat)
    ensures
        survival_after(SCALE as nat, k) == SCALE,
    decreases k,
{
    if k > 0 {
        lemma_survival_certain((k - 1) as nat);
        lemma_fixed_mul(SCALE as nat, SCALE as nat);
    }
}

/// Escaping at least one threat that is never escaped is impossible.
pub proof fn lemma_survival_impossible(k: nat)
    requires
        k >= 1,
    ensures
        survival_after(0, k) == 0,
{
    lemma_survival_bounded(0, (k - 1) as nat);
    lemma_fixed_mul(survival_after(0, (k - 1) as nat), 0);
}

/// The chance of escaping is a probability, and each further threat can
/// only lower it.
pub proof fn lemma_survival_bounded(q: nat, k: nat)
    requires
        q <= SCALE,
    ensures
        survival_after(q, k) <= SCALE,
        survival_after(q, k + 1) <= survival_after(q, k),
    decreases k,
{
    if k > 0 {
        lemma_survival_bounded(q, (k - 1) as nat);
    }
    lemma_fixed_mul(survival_after(q, k), q);
}

/// A probability between zero and one, held in parts of `1 / SCALE`.
#[derive(Clone, Copy, Debug, PartialEq, Eq, Structural)]
pub struct Probability {
    parts: u32,
}

impl View for Probability {
    type V = nat;

    /// The number of parts.
    closed spec fn view(&self) -> nat {
        self.parts as nat
    }
}

impl Probability {
    /// A probability is at most one.
    #[verifier::type_invariant]
    pub closed spec fn in_range(self) -> bool {
        self.parts <= SCALE
    }

    /// A probability in range has at most `SCALE` parts.
    pub proof fn lemma_in_range(self)
        requires
            self.in_range(),
        ensures
            self@ <= SCALE,
    {
    }

    /// The probability of `parts` parts in `SCALE`, if that is at most one.
    pub fn new(parts: u32) -> (r: Option<Self>)
        ensures
            match r {
                Some(p) => parts <= SCALE && p@ == parts,
                None => parts > SCALE,
            },
    {
        if parts <= SCALE {
            Some(Probability { parts })
        } else {
            None
        }
    }

    /// Probability zero.
    pub fn zero() -> (p: Self)
        ensures
            p@ == 0,
    {
        Probability { parts: 0 }
    }

    /// Probability one.
    pub fn one() -> (p: Self)
        ensures
            p@ == SCALE,
    {
        Probability { parts: SCALE }
    }

    /// The probability `numerator / denominator`, rounded down to whole
    /// parts; `None` where that is no number between zero and one.
    pub fn from_ratio(numerator: u32, denominator: u32) -> (r: Option<Self>)
        ensures
            match r {
                Some(p) => {
                    &&& 0 < denominator
                    &&& numerator <= denominator
                    &&& p@ == numerator * SCALE / (denominator as int)
                },
                None => denominator == 0 || numerator > denominator,
            },
    {
        if denominator == 0 || numerator > denominator {
            return None;
        }
        assert(0 <= numerator * SCALE <= SCALE * denominator) by (nonlinear_arith)
            requires
                0 <= numerator <= denominator,
                SCALE >= 0,
        ;
        proof {
            lemma_quotient_bound(numerator * SCALE, SCALE as int, denominator as int);
        }
        let scaled: u64 = (numerator as u64) * (SCALE as u64) / (denominator as u64);
        Some(Probability { parts: scaled as u32 })
    }

    /// The number of parts, between zero and `SCALE`.
    pub fn parts(&self) -> (parts: u32)
        ensures
            parts == self@,
            parts <= SCALE,
    {
        proof {
            use_type_invariant(self);
        }
        self.parts
    }

    /// The probability that this event does not happen.
    pub fn complement(&self) -> (r: Self)
        ensures
            r@ == complement(self@),
    {
        proof {
            use_type_invariant(self);
        }
        Probability { parts: SCALE - self.parts }
    }

    /// The probability that this event and an independent second one both
    /// happen, rounded down to whole parts.
    pub fn times(&self, other: Probability) -> (r: Self)
        ensures
            r@ == fixed_mul(self@, other@),
    {
        proof {
            use_type_invariant(self);
            use_type_invariant(&other);
            lemma_fixed_mul(self@, other@);
        }
        assert(self.parts * other.parts <= u64::MAX) by (nonlinear_arith)
            requires
                self.parts <= 0xffff_ffff,
                other.parts <= 0xffff_ffff,
        ;
        let product: u64 = (self.parts as u64) * (other.parts as u64);
        let scaled: u64 = product / (SCALE as u64);
        Probability { parts: scaled as u32 }
    }
}

} // verus!
