//! A data model of the lattice/circuit simulator collaborator.
//!
//! The real simulator enumerates positions over a bounded 3-D volume,
//! carries per-position node metadata, and answers syndrome queries: given
//! one sparse error pattern it deterministically computes the induced
//! correction and the set of real and virtual syndromes it flips. Here that
//! interface is a value: the grid of node metadata, and a response table
//! keyed by the probed `(position, candidate error)` pair. A probe without a
//! recorded response flips no syndromes and contributes nothing to the
//! graph.

use vstd::prelude::*;
use crate::types::CandidateError;
use crate::types::Position;
use crate::types::SparseCorrection;
use crate::types::SparseErrorPattern;

verus! {

/// Per-position node metadata consumed from the simulator: gate and
/// boundary classification, the qubit-type partition tag, the two-qubit
/// gate peer, corner metadata, and the four diagonal lattice neighbors used
/// to classify four-syndrome clusters.
#[derive(Clone, Debug)]
pub struct SimulatorNode {
    pub is_measurement: bool,
    pub is_virtual: bool,
    pub qubit_type: u64,
    pub gate_peer: Option<Position>,
    pub is_corner: bool,
    pub corner_peer: Option<Position>,
    pub left_up: Option<(usize, usize)>,
    pub left_down: Option<(usize, usize)>,
    pub right_up: Option<(usize, usize)>,
    pub right_down: Option<(usize, usize)>,
}

/// What the syndrome oracle answers for one probed error: the induced
/// sparse correction, and the flipped syndromes split into real and
/// virtual.
#[derive(Clone, Debug)]
pub struct OracleResponse {
    pub correction: SparseCorrection,
    pub real: Vec<Position>,
    pub virtuals: Vec<Position>,
}

/// The first response recorded for a probe, if any.
pub open spec fn find_response(
    s: Seq<((Position, CandidateError), OracleResponse)>,
    position: Position,
    error: CandidateError,
) -> Option<OracleResponse>
    decreases s.len(),
{
    if s.len() == 0 {
        None
    } else if s[0].0 == (position, error) {
        Some(s[0].1)
    } else {
        find_response(s.drop_first(), position, error)
    }
}

/// The simulator collaborator as a value.
#[derive(Clone, Debug)]
pub struct Simulator {
    pub height: usize,
    pub vertical: usize,
    pub horizontal: usize,
    pub measurement_cycles: usize,
    pub nodes: Vec<Vec<Vec<Option<SimulatorNode>>>>,
    pub responses: Vec<((Position, CandidateError), OracleResponse)>,
    pub installed_errors: SparseErrorPattern,
}

impl Simulator {
    pub open spec fn dims_wf(self) -> bool {
        &&& self.nodes@.len() == self.height
        &&& forall|t: int| 0 <= t < self.height ==> (#[trigger] self.nodes@[t])@.len()
            == self.vertical
        &&& forall|t: int, i: int|
            0 <= t < self.height && 0 <= i < self.vertical ==> #[trigger] (
            self.nodes@[t])@[i]@.len() == self.horizontal
    }

    pub open spec fn in_bounds(self, position: Position) -> bool {
        position.t < self.height && position.i < self.vertical && position.j < self.horizontal
    }

    pub open spec fn node_at(self, position: Position) -> Option<SimulatorNode> {
        ((self.nodes@[position.t as int])@[position.i as int])@[position.j as int]
    }

    pub open spec fn has_node(self, position: Position) -> bool {
        self.in_bounds(position) && self.node_at(position) is Some
    }

    /// A position that carries a graph node: a measurement event at a
    /// measurement-round boundary after round zero.
    pub open spec fn is_graph_node(self, position: Position) -> bool {
        &&& self.has_node(position)
        &&& self.node_at(position)->Some_0.is_measurement
        &&& position.t != 0
        &&& position.t as int % self.measurement_cycles as int == 0
    }

    pub open spec fn oracle_response(self, position: Position, error: CandidateError) -> Option<
        OracleResponse,
    > {
        find_response(self.responses@, position, error)
    }

    /// One recorded response is well-formed: every syndrome it names is a
    /// graph-node position whose virtual flag matches the side of the split
    /// it is on.
    pub open spec fn response_wf(self, r: OracleResponse) -> bool {
        &&& forall|k: int|
            0 <= k < r.real@.len() ==> self.is_graph_node(#[trigger] r.real@[k]) && !self.node_at(
                r.real@[k],
            )->Some_0.is_virtual
        &&& forall|k: int|
            0 <= k < r.virtuals@.len() ==> self.is_graph_node(#[trigger] r.virtuals@[k])
                && self.node_at(r.virtuals@[k])->Some_0.is_virtual
    }

    /// Structural invariant of the modeled simulator.
    pub open spec fn wf(self) -> bool {
        &&& self.dims_wf()
        &&& 1 <= self.measurement_cycles
        &&& forall|k: int|
            0 <= k < self.responses@.len() ==> self.response_wf((#[trigger] self.responses@[k]).1)
        &&& forall|p: Position|
            self.has_node(p) && (#[trigger] self.node_at(p))->Some_0.is_measurement && p.t != 0
                ==> p.t as int % self.measurement_cycles as int == 0
        &&& forall|p: Position|
            self.has_node(p) && (#[trigger] self.node_at(p))->Some_0.gate_peer is Some
                ==> self.has_node(self.node_at(p)->Some_0.gate_peer->0) && self.node_at(
                p,
            )->Some_0.gate_peer->0 != p
        &&& forall|p: Position|
            self.has_node(p) && (#[trigger] self.node_at(p))->Some_0.is_corner ==> self.node_at(
                p,
            )->Some_0.corner_peer is Some
    }

    pub open spec fn volume(self) -> int {
        self.height * self.vertical * self.horizontal
    }

    /// Whether a node sits at a position.
    pub fn is_node_exist(&self, position: &Position) -> (r: bool)
        requires
            self.dims_wf(),
            self.in_bounds(*position),
        ensures
            r == self.has_node(*position),
    {
        self.nodes[position.t][position.i][position.j].is_some()
    }

    /// The node at a position that has one.
    pub fn get_node_unwrap(&self, position: &Position) -> (r: &SimulatorNode)
        requires
            self.dims_wf(),
            self.in_bounds(*position),
            self.has_node(*position),
        ensures
            *r == self.node_at(*position)->Some_0,
    {
        self.nodes[position.t][position.i][position.j].as_ref().unwrap()
    }

    /// Removes every installed error, restoring the clean state the builder
    /// needs.
    pub fn clear_all_errors(&mut self)
        ensures
            final(self).installed_errors.view_seq() =~= Seq::<
                (Position, crate::types::ErrorType),
            >::empty(),
            final(self).height == old(self).height,
            final(self).vertical == old(self).vertical,
            final(self).horizontal == old(self).horizontal,
            final(self).measurement_cycles == old(self).measurement_cycles,
            final(self).nodes == old(self).nodes,
            final(self).responses == old(self).responses,
    {
        self.installed_errors = SparseErrorPattern::new();
    }

    /// Asks the syndrome oracle what one probed error flips. The answer is
    /// the recorded response; a probe without one flips no syndromes.
    pub fn fast_measurement_given_few_errors(
        &self,
        position: &Position,
        error: &CandidateError,
    ) -> (r: Option<&OracleResponse>)
        ensures
            match r {
                Some(resp) => self.oracle_response(*position, *error) == Some(*resp),
                None => self.oracle_response(*position, *error) is None,
            },
    {
        proof {
            assert(self.responses@.skip(0) =~= self.responses@);
        }
        let n: usize = self.responses.len();
        let mut k: usize = 0;
        while k < n
            invariant
                k <= n,
                n == self.responses@.len(),
                find_response(self.responses@.skip(k as int), *position, *error)
                    == self.oracle_response(*position, *error),
            decreases n - k,
        {
            let key = &self.responses[k].0;
            proof {
                assert(self.responses@.skip(k as int)[0] == self.responses@[k as int]);
                assert(self.responses@.skip(k as int).drop_first() =~= self.responses@.skip(
                    k as int + 1,
                ));
            }
            if key.0 == *position && key.1 == *error {
                return Some(&self.responses[k].1);
            }
            k = k + 1;
        }
        proof {
            assert(self.responses@.skip(n as int) =~= Seq::<
                ((Position, CandidateError), OracleResponse),
            >::empty());
        }
        None
    }
}


/// Well-formedness does not depend on the installed errors: two simulators
/// equal in everything else are equally well-formed.
pub proof fn lemma_wf_ignores_installed_errors(s1: Simulator, s2: Simulator)
    requires
        s1.wf(),
        s2.nodes == s1.nodes,
        s2.responses == s1.responses,
        s2.height == s1.height,
        s2.vertical == s1.vertical,
        s2.horizontal == s1.horizontal,
        s2.measurement_cycles == s1.measurement_cycles,
    ensures
        s2.wf(),
{
    assert forall|p: Position| #[trigger] s2.node_at(p) == s1.node_at(p) by {}
    assert forall|p: Position| #[trigger] s2.has_node(p) == s1.has_node(p) by {}
    assert forall|p: Position| #[trigger] s2.is_graph_node(p) == s1.is_graph_node(p) by {}
    assert(s2.dims_wf());
    assert forall|k: int|
        0 <= k < s2.responses@.len() implies s2.response_wf(
        (#[trigger] s2.responses@[k]).1,
    ) by {
        assert(s1.response_wf(s1.responses@[k].1));
        let r = s2.responses@[k].1;
        assert forall|m: int|
            0 <= m < r.real@.len() implies s2.is_graph_node(#[trigger] r.real@[m])
            && !s2.node_at(r.real@[m])->Some_0.is_virtual by {
            assert(s1.is_graph_node(r.real@[m]));
        }
        assert forall|m: int|
            0 <= m < r.virtuals@.len() implies s2.is_graph_node(#[trigger] r.virtuals@[m])
            && s2.node_at(r.virtuals@[m])->Some_0.is_virtual by {
            assert(s1.is_graph_node(r.virtuals@[m]));
        }
    }
}


/// Core spec views of the simulator do not depend on the installed errors.
pub proof fn lemma_core_ignores_installed_errors(s1: Simulator, s2: Simulator)
    requires
        s2.nodes == s1.nodes,
        s2.responses == s1.responses,
        s2.height == s1.height,
        s2.vertical == s1.vertical,
        s2.horizontal == s1.horizontal,
        s2.measurement_cycles == s1.measurement_cycles,
    ensures
        forall|p: Position| #[trigger] s2.node_at(p) == s1.node_at(p),
        forall|p: Position| #[trigger] s2.in_bounds(p) == s1.in_bounds(p),
        forall|p: Position| #[trigger] s2.has_node(p) == s1.has_node(p),
        forall|p: Position| #[trigger] s2.is_graph_node(p) == s1.is_graph_node(p),
{
    assert forall|p: Position| #[trigger] s2.node_at(p) == s1.node_at(p) by {}
}

} // verus!
