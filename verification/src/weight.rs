//! Weight functions: probability to matching cost.
//!
//! A weight function maps an edge probability `p` to a nonnegative cost that
//! is monotonically decreasing in `p`, so that more probable explanations are
//! cheaper for the matching solver. The autotune policies use the inverse
//! odds `(1 - p) / p`, kept exact as a fraction; its logarithm, which
//! floating-point implementations take for numerical range, is monotone, so
//! the order of weights is the same. The probability-zero edge (possible for
//! pure erasure candidates) gets the documented degenerate infinite weight
//! instead of a crash.

use vstd::prelude::*;
use crate::prob::Prob;
use crate::prob::frac_le;
use crate::prob::frac_wf;

verus! {

/// The available weight policies. The two autotune variants differ, in
/// floating-point implementations, only in conditioning near 0 and 1; over
/// exact fractions they coincide with the inverse odds.
#[derive(Clone, Copy, Debug, PartialEq, Eq, Structural)]
pub enum WeightFunction {
    Autotune,
    AutotuneImproved,
    Unweighted,
}

/// A nonnegative weight: a finite exact fraction `num / den`, or the
/// degenerate infinite weight of a probability-zero edge.
#[derive(Clone, Copy, Debug, PartialEq, Eq, Structural)]
pub enum Weight {
    Finite { num: u64, den: u64 },
    Infinite,
}

impl Weight {
    pub open spec fn wf(self) -> bool {
        match self {
            Weight::Finite { num, den } => 1 <= den,
            Weight::Infinite => true,
        }
    }
}

/// Order on weights: every finite weight is below the infinite one, and
/// finite weights compare as rational numbers.
pub open spec fn weight_le(w1: Weight, w2: Weight) -> bool {
    match (w1, w2) {
        (_, Weight::Infinite) => true,
        (Weight::Infinite, Weight::Finite { .. }) => false,
        (Weight::Finite { num: n1, den: d1 }, Weight::Finite { num: n2, den: d2 }) => (n1 as int)
            * (d2 as int) <= (n2 as int) * (d1 as int),
    }
}

/// What `weight_of` returns for a probability given as a fraction.
pub open spec fn spec_weight_of(kind: WeightFunction, p: (int, int)) -> Weight {
    match kind {
        WeightFunction::Unweighted => (Weight::Finite { num: 1, den: 1 }),
        _ => if p.0 == 0 {
            Weight::Infinite
        } else {
            (Weight::Finite { num: (p.1 - p.0) as u64, den: p.0 as u64 })
        },
    }
}

/// The weight of a probability under the chosen policy.
pub fn weight_of(kind: &WeightFunction, p: &Prob) -> (w: Weight)
    requires
        p.wf(),
    ensures
        w == spec_weight_of(*kind, p@),
        w.wf(),
{
    match kind {
        WeightFunction::Unweighted => (Weight::Finite { num: 1, den: 1 }),
        _ => {
            if p.num == 0 {
                Weight::Infinite
            } else {
                Weight::Finite { num: p.den - p.num, den: p.num }
            }
        },
    }
}

/// Every weight policy is monotonically decreasing: a lower probability
/// never gets a lower weight.
pub proof fn lemma_weight_monotonic(kind: WeightFunction, p: (int, int), q: (int, int))
    requires
        frac_wf(p),
        frac_wf(q),
        p.1 <= u64::MAX as int,
        q.1 <= u64::MAX as int,
        frac_le(p, q),
    ensures
        weight_le(spec_weight_of(kind, q), spec_weight_of(kind, p)),
{
    match kind {
        WeightFunction::Unweighted => {},
        _ => {
            if p.0 == 0 {
            } else {
                assert(q.0 > 0) by (nonlinear_arith)
                    requires
                        p.0 * q.1 <= q.0 * p.1,
                        0 < p.0,
                        0 < p.1,
                        0 < q.1,
                ;
                assert((q.1 - q.0) * p.0 <= (p.1 - p.0) * q.0) by (nonlinear_arith)
                    requires
                        p.0 * q.1 <= q.0 * p.1,
                        0 < p.0,
                        0 < q.0,
                ;
            }
        },
    }
}

/// The weight depends only on the probability's value: equal fractions get
/// weights that are equal under the weight order in both directions.
pub proof fn lemma_weight_respects_value(kind: WeightFunction, p: (int, int), q: (int, int))
    requires
        frac_wf(p),
        frac_wf(q),
        p.1 <= u64::MAX as int,
        q.1 <= u64::MAX as int,
        crate::prob::frac_eqv(p, q),
    ensures
        weight_le(spec_weight_of(kind, p), spec_weight_of(kind, q)),
        weight_le(spec_weight_of(kind, q), spec_weight_of(kind, p)),
{
    assert(frac_le(p, q) && frac_le(q, p));
    lemma_weight_monotonic(kind, p, q);
    lemma_weight_monotonic(kind, q, p);
}

} // verus!
