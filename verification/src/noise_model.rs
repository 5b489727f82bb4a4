//! A data model of the noise-model collaborator: per-position elementary
//! error rates, optional correlated rates, and erasure rates.

use vstd::prelude::*;
use crate::prob::Prob;
use crate::types::CorrelatedPauliErrorType;
use crate::types::ErrorType;
use crate::types::Position;
use crate::simulator::Simulator;

verus! {

/// The elementary Pauli error rates of one position.
#[derive(Clone, Copy, Debug)]
pub struct PauliErrorRates {
    pub error_rate_x: Prob,
    pub error_rate_z: Prob,
    pub error_rate_y: Prob,
}

impl PauliErrorRates {
    pub open spec fn wf(self) -> bool {
        self.error_rate_x.wf() && self.error_rate_z.wf() && self.error_rate_y.wf()
    }

    pub open spec fn spec_error_rate(self, error_type: ErrorType) -> Prob {
        match error_type {
            ErrorType::X => self.error_rate_x,
            ErrorType::Z => self.error_rate_z,
            ErrorType::Y => self.error_rate_y,
            ErrorType::I => (Prob { num: 0, den: 1 }),
        }
    }

    /// The rate of one elementary error kind; the identity has rate zero.
    pub fn error_rate(&self, error_type: &ErrorType) -> (r: Prob)
        ensures
            r == self.spec_error_rate(*error_type),
    {
        match error_type {
            ErrorType::X => self.error_rate_x,
            ErrorType::Z => self.error_rate_z,
            ErrorType::Y => self.error_rate_y,
            ErrorType::I => Prob { num: 0, den: 1 },
        }
    }
}

/// The first rate recorded for a correlated kind; unlisted kinds have rate
/// zero.
pub open spec fn find_correlated_rate(
    s: Seq<(CorrelatedPauliErrorType, Prob)>,
    kind: CorrelatedPauliErrorType,
) -> Prob
    decreases s.len(),
{
    if s.len() == 0 {
        (Prob { num: 0, den: 1 })
    } else if s[0].0 == kind {
        s[0].1
    } else {
        find_correlated_rate(s.drop_first(), kind)
    }
}

/// The correlated two-qubit Pauli error rates of one position.
#[derive(Clone, Debug)]
pub struct CorrelatedPauliErrorRates {
    pub rates: Vec<(CorrelatedPauliErrorType, Prob)>,
}

impl CorrelatedPauliErrorRates {
    pub open spec fn wf(self) -> bool {
        forall|k: int| 0 <= k < self.rates@.len() ==> (#[trigger] self.rates@[k]).1.wf()
    }

    pub open spec fn spec_error_rate(self, kind: CorrelatedPauliErrorType) -> Prob {
        find_correlated_rate(self.rates@, kind)
    }

    /// The rate of one correlated error kind.
    pub fn error_rate(&self, kind: &CorrelatedPauliErrorType) -> (r: Prob)
        ensures
            r == self.spec_error_rate(*kind),
            self.wf() ==> r.wf(),
    {
        proof {
            if self.wf() {
                lemma_find_correlated_rate_wf(self.rates@, *kind);
            }
            assert(self.rates@.skip(0) =~= self.rates@);
        }
        let n: usize = self.rates.len();
        let mut k: usize = 0;
        while k < n
            invariant
                k <= n,
                n == self.rates@.len(),
                find_correlated_rate(self.rates@.skip(k as int), *kind) == find_correlated_rate(
                    self.rates@,
                    *kind,
                ),
            decreases n - k,
        {
            proof {
                assert(self.rates@.skip(k as int)[0] == self.rates@[k as int]);
                assert(self.rates@.skip(k as int).drop_first() =~= self.rates@.skip(k as int + 1));
            }
            if self.rates[k].0 == *kind {
                return self.rates[k].1;
            }
            k = k + 1;
        }
        proof {
            assert(self.rates@.skip(n as int) =~= Seq::<(CorrelatedPauliErrorType, Prob)>::empty());
        }
        Prob { num: 0, den: 1 }
    }
}

/// An unlisted or listed correlated rate is well-formed whenever the table
/// is.
proof fn lemma_find_correlated_rate_wf(
    s: Seq<(CorrelatedPauliErrorType, Prob)>,
    kind: CorrelatedPauliErrorType,
)
    requires
        forall|k: int| 0 <= k < s.len() ==> (#[trigger] s[k]).1.wf(),
    ensures
        find_correlated_rate(s, kind).wf(),
    decreases s.len(),
{
    if s.len() == 0 {
    } else if s[0].0 == kind {
    } else {
        lemma_find_correlated_rate_wf(s.drop_first(), kind);
    }
}

/// The correlated erasure rates of one position; only their total
/// probability is consumed here.
#[derive(Clone, Copy, Debug)]
pub struct CorrelatedErasureErrorRates {
    pub total: Prob,
}

impl CorrelatedErasureErrorRates {
    pub open spec fn wf(self) -> bool {
        self.total.wf()
    }

    /// The total probability of any correlated erasure happening.
    pub fn error_probability(&self) -> (r: Prob)
        ensures
            r == self.total,
    {
        self.total
    }
}

/// The noise model of one position.
#[derive(Clone, Debug)]
pub struct NoiseModelNode {
    pub pauli_error_rates: PauliErrorRates,
    pub erasure_error_rate: Prob,
    pub correlated_pauli_error_rates: Option<CorrelatedPauliErrorRates>,
    pub correlated_erasure_error_rates: Option<CorrelatedErasureErrorRates>,
}

impl NoiseModelNode {
    pub open spec fn wf(self) -> bool {
        &&& self.pauli_error_rates.wf()
        &&& self.erasure_error_rate.wf()
        &&& (self.correlated_pauli_error_rates matches Some(r) ==> r.wf())
        &&& (self.correlated_erasure_error_rates matches Some(r) ==> r.wf())
    }
}

/// The noise model: one node per simulator position.
#[derive(Clone, Debug)]
pub struct NoiseModel {
    pub nodes: Vec<Vec<Vec<NoiseModelNode>>>,
}

impl NoiseModel {
    /// The model covers exactly the volume of a simulator.
    pub open spec fn dims_match(self, sim: Simulator) -> bool {
        &&& self.nodes@.len() == sim.height
        &&& forall|t: int| 0 <= t < sim.height ==> (#[trigger] self.nodes@[t])@.len()
            == sim.vertical
        &&& forall|t: int, i: int|
            0 <= t < sim.height && 0 <= i < sim.vertical ==> #[trigger] (
            self.nodes@[t])@[i]@.len() == sim.horizontal
    }

    pub open spec fn node_at(self, position: Position) -> NoiseModelNode {
        ((self.nodes@[position.t as int])@[position.i as int])@[position.j as int]
    }

    pub open spec fn wf(self) -> bool {
        forall|t: int, i: int, j: int|
            0 <= t < self.nodes@.len() && 0 <= i < self.nodes@[t]@.len() && 0 <= j
                < self.nodes@[t]@[i]@.len() ==> #[trigger] (self.nodes@[t])@[i]@[j].wf()
    }

    /// The noise node at a position.
    pub fn get_node_unwrap(&self, position: &Position) -> (r: &NoiseModelNode)
        requires
            position.t < self.nodes@.len(),
            position.i < self.nodes@[position.t as int]@.len(),
            position.j < self.nodes@[position.t as int]@[position.i as int]@.len(),
        ensures
            *r == self.node_at(*position),
            self.wf() ==> r.wf(),
    {
        &self.nodes[position.t][position.i][position.j]
    }
}

} // verus!
