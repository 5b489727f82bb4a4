use qecp::prob::Prob;
use qecp::weight::{Weight, WeightFunction, weight_of};
use qecp::types::{CandidateError, CorrelatedPauliErrorType, ErrorType, Position, SparseCorrection, SparseErrorPattern};
use qecp::simulator::{OracleResponse, Simulator, SimulatorNode};
use qecp::noise_model::{CorrelatedErasureErrorRates, CorrelatedPauliErrorRates, NoiseModel, NoiseModelNode, PauliErrorRates};
use qecp::tailored_model_graph::{
    BuildError, TailoredModelGraph, TailoredModelGraphEdge, elect_candidate,
};

fn zero() -> Prob {
    Prob::new(0, 1)
}

fn plain_node(is_measurement: bool, is_virtual: bool, qubit_type: u64) -> SimulatorNode {
    SimulatorNode {
        is_measurement,
        is_virtual,
        qubit_type,
        gate_peer: None,
        is_corner: false,
        corner_peer: None,
        left_up: None,
        left_down: None,
        right_up: None,
        right_down: None,
    }
}

fn quiet_noise_node() -> NoiseModelNode {
    NoiseModelNode {
        pauli_error_rates: PauliErrorRates {
            error_rate_x: zero(),
            error_rate_z: zero(),
            error_rate_y: zero(),
        },
        erasure_error_rate: zero(),
        correlated_pauli_error_rates: None,
        correlated_erasure_error_rates: None,
    }
}

/// A 2-round 3x3 simulator: measurement nodes everywhere at round 1, a
/// non-measurement data node in the middle of round 1 only.
fn small_simulator() -> Simulator {
    let mut nodes: Vec<Vec<Vec<Option<SimulatorNode>>>> = Vec::new();
    for t in 0..2usize {
        let mut plane = Vec::new();
        for i in 0..3usize {
            let mut row = Vec::new();
            for j in 0..3usize {
                if t == 0 {
                    row.push(None);
                } else if i == 1 && j == 1 {
                    row.push(Some(plain_node(false, false, 7)));
                } else {
                    row.push(Some(plain_node(true, false, 7)));
                }
            }
            plane.push(row);
        }
        nodes.push(plane);
    }
    Simulator {
        height: 2,
        vertical: 3,
        horizontal: 3,
        measurement_cycles: 1,
        nodes,
        responses: Vec::new(),
        installed_errors: SparseErrorPattern::new(),
    }
}

fn quiet_noise() -> NoiseModel {
    let mut nodes = Vec::new();
    for _t in 0..2usize {
        let mut plane = Vec::new();
        for _i in 0..3usize {
            let mut row = Vec::new();
            for _j in 0..3usize {
                row.push(quiet_noise_node());
            }
            plane.push(row);
        }
        nodes.push(plane);
    }
    NoiseModel { nodes }
}

fn pos(t: usize, i: usize, j: usize) -> Position {
    Position { t, i, j }
}

fn response(real: Vec<Position>, virtuals: Vec<Position>) -> OracleResponse {
    OracleResponse { correction: SparseCorrection::new(), real, virtuals }
}

fn edge_toward<'a>(
    entries: &'a [(Position, TailoredModelGraphEdge)],
    target: &Position,
) -> Option<&'a TailoredModelGraphEdge> {
    entries.iter().find(|e| e.0 == *target).map(|e| &e.1)
}

/// A single data-qubit error with rate 0.001 flipping exactly two
/// matching-type stabilizers yields elected edges in all three channels,
/// both directions, with probability 0.001 and its weight, and nothing
/// else.
#[test]
fn single_error_two_syndromes() {
    let mut sim = small_simulator();
    let s1 = pos(1, 0, 1);
    let s2 = pos(1, 2, 1);
    let d = pos(1, 1, 1);
    sim.responses.push((
        (d, CandidateError::Elementary(ErrorType::X)),
        response(vec![s1, s2], vec![]),
    ));
    let mut noise = quiet_noise();
    noise.nodes[1][1][1].pauli_error_rates.error_rate_x = Prob::new(1, 1000);
    let mut graph = TailoredModelGraph::new(&sim);
    let r = graph.build(&mut sim, &noise, &WeightFunction::Autotune, true);
    assert!(r.is_ok());
    let n1 = graph.get_node_unwrap(&s1);
    let n2 = graph.get_node_unwrap(&s2);
    for node in [&n1.positive, &n1.negative, &n1.neutral] {
        let e = edge_toward(&node.edges, &s2).expect("elected edge s1 -> s2");
        assert_eq!(e.probability, Prob::new(1, 1000));
        assert_eq!(e.weight, Weight::Finite { num: 999, den: 1 });
        assert_eq!(node.all_edges.len(), 1);
        assert_eq!(node.edges.len(), 1);
    }
    for node in [&n2.positive, &n2.negative, &n2.neutral] {
        let e = edge_toward(&node.edges, &s1).expect("elected edge s2 -> s1");
        assert_eq!(e.probability, Prob::new(1, 1000));
        assert_eq!(e.weight, Weight::Finite { num: 999, den: 1 });
    }
    // zero edges elsewhere
    let other = graph.get_node_unwrap(&pos(1, 0, 0));
    assert!(other.positive.edges.is_empty());
    assert!(other.neutral.all_edges.is_empty());
    assert!(graph.unfixed_stabilizers.is_empty());
}

/// The same lattice with the rate set to 0.5 marks the adjacent stabilizer
/// as unfixed, because the error flips exactly one real and one virtual
/// syndrome.
#[test]
fn half_rate_error_marks_unfixed_stabilizer() {
    let mut sim = small_simulator();
    let s1 = pos(1, 0, 1);
    let v1 = pos(1, 0, 0);
    sim.nodes[1][0][0].as_mut().unwrap().is_virtual = true;
    let d = pos(1, 1, 1);
    sim.responses.push((
        (d, CandidateError::Elementary(ErrorType::X)),
        response(vec![s1], vec![v1]),
    ));
    let mut noise = quiet_noise();
    noise.nodes[1][1][1].pauli_error_rates.error_rate_x = Prob::new(1, 2);
    let mut graph = TailoredModelGraph::new(&sim);
    let r = graph.build(&mut sim, &noise, &WeightFunction::AutotuneImproved, true);
    assert!(r.is_ok());
    assert!(graph.unfixed_stabilizers.contains(&s1));
    // the virtual node at the boundary is recorded
    assert!(graph.virtual_nodes.contains(&v1));
    assert_eq!(graph.virtual_nodes.len(), 1);
}

/// Building twice on the same already-built structure trips the
/// clean-state precondition.
#[test]
fn second_build_requires_clean_state() {
    let mut sim = small_simulator();
    let s1 = pos(1, 0, 1);
    let s2 = pos(1, 2, 1);
    let d = pos(1, 1, 1);
    sim.responses.push((
        (d, CandidateError::Elementary(ErrorType::X)),
        response(vec![s1, s2], vec![]),
    ));
    let mut noise = quiet_noise();
    noise.nodes[1][1][1].pauli_error_rates.error_rate_x = Prob::new(1, 1000);
    let mut graph = TailoredModelGraph::new(&sim);
    assert!(graph.build(&mut sim, &noise, &WeightFunction::Autotune, true).is_ok());
    let second = graph.build(&mut sim, &noise, &WeightFunction::Autotune, true);
    assert_eq!(second, Err(BuildError::StateNotClean));
}

/// A four-syndrome cluster with resolved roles up=U, down=D, left=L,
/// right=R gets positive-channel edges U-R and L-D, negative-channel edges
/// L-U and D-R, and no neutral-channel edge.
#[test]
fn four_syndrome_cluster_edges() {
    let mut sim = small_simulator();
    let u = pos(1, 0, 1);
    let d_pos = pos(1, 2, 1);
    let l = pos(1, 1, 0);
    let r_pos = pos(1, 1, 2);
    {
        let nu = sim.nodes[1][0][1].as_mut().unwrap();
        nu.left_down = Some((1, 0));
        nu.right_down = Some((1, 2));
    }
    {
        let nd = sim.nodes[1][2][1].as_mut().unwrap();
        nd.left_up = Some((1, 0));
        nd.right_up = Some((1, 2));
    }
    {
        let nr = sim.nodes[1][1][2].as_mut().unwrap();
        nr.left_up = Some((0, 1));
        nr.left_down = Some((2, 1));
    }
    {
        let nl = sim.nodes[1][1][0].as_mut().unwrap();
        nl.right_up = Some((0, 1));
        nl.right_down = Some((2, 1));
    }
    let center = pos(1, 1, 1);
    sim.responses.push((
        (center, CandidateError::Elementary(ErrorType::Y)),
        response(vec![u, d_pos, l, r_pos], vec![]),
    ));
    let mut noise = quiet_noise();
    noise.nodes[1][1][1].pauli_error_rates.error_rate_y = Prob::new(1, 10);
    let mut graph = TailoredModelGraph::new(&sim);
    assert!(graph.build(&mut sim, &noise, &WeightFunction::Autotune, true).is_ok());
    let nu = graph.get_node_unwrap(&u);
    assert!(edge_toward(&nu.positive.edges, &r_pos).is_some());
    assert!(edge_toward(&nu.negative.edges, &l).is_some());
    assert!(nu.neutral.edges.is_empty());
    let nl = graph.get_node_unwrap(&l);
    assert!(edge_toward(&nl.positive.edges, &d_pos).is_some());
    assert!(edge_toward(&nl.negative.edges, &u).is_some());
    assert!(nl.neutral.edges.is_empty());
    let nd = graph.get_node_unwrap(&d_pos);
    assert!(edge_toward(&nd.negative.edges, &r_pos).is_some());
    assert!(edge_toward(&nd.positive.edges, &l).is_some());
    let nr = graph.get_node_unwrap(&r_pos);
    assert!(edge_toward(&nr.positive.edges, &u).is_some());
    assert!(edge_toward(&nr.negative.edges, &d_pos).is_some());
}

fn candidate(p: Prob, tag: usize) -> TailoredModelGraphEdge {
    let mut pattern = SparseErrorPattern::new();
    pattern.add(pos(0, 0, tag), ErrorType::X);
    TailoredModelGraphEdge {
        probability: p,
        weight: weight_of(&WeightFunction::Autotune, &p),
        error_pattern: pattern,
        correction: SparseCorrection::new(),
    }
}

/// Folding [0.1, 0.2, 0.3] under the combined-probability rule gives
/// exactly 0.404 in every order.
#[test]
fn combined_fold_is_order_independent() {
    let ps = [Prob::new(1, 10), Prob::new(2, 10), Prob::new(3, 10)];
    let expected = Prob::new(101, 250);
    let orders: [[usize; 3]; 6] = [
        [0, 1, 2],
        [0, 2, 1],
        [1, 0, 2],
        [1, 2, 0],
        [2, 0, 1],
        [2, 1, 0],
    ];
    for order in orders.iter() {
        let edges = vec![
            candidate(ps[order[0]], 0),
            candidate(ps[order[1]], 1),
            candidate(ps[order[2]], 2),
        ];
        let elected = elect_candidate(&edges, true, &WeightFunction::Autotune).unwrap();
        assert!(elected.probability.eqv(&expected));
    }
}

/// Election with a fixed candidate order is deterministic: running it
/// twice gives identical probability, weight and representative payload.
#[test]
fn election_is_deterministic() {
    let edges = vec![
        candidate(Prob::new(1, 10), 0),
        candidate(Prob::new(3, 10), 1),
        candidate(Prob::new(2, 10), 2),
    ];
    let e1 = elect_candidate(&edges, true, &WeightFunction::Autotune).unwrap();
    let e2 = elect_candidate(&edges, true, &WeightFunction::Autotune).unwrap();
    assert_eq!(e1.probability, e2.probability);
    assert_eq!(e1.weight, e2.weight);
    assert_eq!(e1.error_pattern.entries, e2.error_pattern.entries);
    assert_eq!(e1.correction.entries, e2.correction.entries);
}

/// When two candidates share the maximum probability the representative
/// payload is the first one in traversal order.
#[test]
fn argmax_tie_prefers_first_candidate() {
    let edges = vec![
        candidate(Prob::new(1, 10), 0),
        candidate(Prob::new(3, 10), 1),
        candidate(Prob::new(3, 10), 2),
    ];
    let elected = elect_candidate(&edges, false, &WeightFunction::Autotune).unwrap();
    // the payload comes from the candidate with tag 1, not tag 2
    assert_eq!(elected.error_pattern.entries[0].0, pos(0, 0, 1));
    // maximum-probability mode elects probability 0.3
    assert!(elected.probability.eqv(&Prob::new(3, 10)));
}

/// The weight policies: inverse odds for autotune, the constant for
/// unweighted, and the documented degenerate value at probability zero.
#[test]
fn weight_policies() {
    let p = Prob::new(1, 1000);
    assert_eq!(weight_of(&WeightFunction::Autotune, &p), Weight::Finite { num: 999, den: 1 });
    assert_eq!(weight_of(&WeightFunction::Unweighted, &p), Weight::Finite { num: 1, den: 1 });
    assert_eq!(weight_of(&WeightFunction::AutotuneImproved, &Prob::new(0, 1)), Weight::Infinite);
    assert_eq!(
        weight_of(&WeightFunction::Autotune, &Prob::new(1, 4)),
        Weight::Finite { num: 3, den: 1 },
    );
}

/// Exact probability arithmetic: the union rule with reduction.
#[test]
fn probability_combination() {
    let half = Prob::new(1, 2);
    let combined = half.combine(&half).unwrap();
    assert!(combined.eqv(&Prob::new(1, 2)));
    let p = Prob::new(1, 10);
    let q = Prob::new(2, 10);
    let c = p.combine(&q).unwrap();
    assert!(c.eqv(&Prob::new(13, 50)));
    assert!(Prob::new(1, 2).is_half());
    assert!(!Prob::new(1, 3).is_half());
    assert!(Prob::new(0, 5).is_zero());
    assert!(Prob::new(1, 3).lt(&Prob::new(1, 2)));
}

/// A probed correlated error at a position without a gate peer aborts the
/// build.
#[test]
fn correlated_error_needs_gate_peer() {
    let mut sim = small_simulator();
    let mut noise = quiet_noise();
    let kind = CorrelatedPauliErrorType { my: ErrorType::X, peer: ErrorType::X };
    noise.nodes[1][1][1].correlated_pauli_error_rates = Some(CorrelatedPauliErrorRates {
        rates: vec![(kind, Prob::new(1, 100))],
    });
    let mut graph = TailoredModelGraph::new(&sim);
    let r = graph.build(&mut sim, &noise, &WeightFunction::Autotune, true);
    assert_eq!(r, Err(BuildError::GatePeerMissing));
}

/// A two-syndrome edge with mismatched qubit types aborts the build.
#[test]
fn qubit_type_mismatch_aborts() {
    let mut sim = small_simulator();
    let s1 = pos(1, 0, 1);
    let s2 = pos(1, 2, 1);
    sim.nodes[1][2][1].as_mut().unwrap().qubit_type = 9;
    let d = pos(1, 1, 1);
    sim.responses.push((
        (d, CandidateError::Elementary(ErrorType::Z)),
        response(vec![s1, s2], vec![]),
    ));
    let mut noise = quiet_noise();
    noise.nodes[1][1][1].pauli_error_rates.error_rate_z = Prob::new(1, 100);
    let mut graph = TailoredModelGraph::new(&sim);
    let r = graph.build(&mut sim, &noise, &WeightFunction::Autotune, true);
    assert_eq!(r, Err(BuildError::QubitTypeMismatch));
}

/// Corner virtual nodes are recorded with their metadata-supplied peers.
#[test]
fn corner_virtual_nodes_recorded() {
    let mut sim = small_simulator();
    let c1 = pos(1, 0, 0);
    let c2 = pos(1, 2, 2);
    {
        let n = sim.nodes[1][0][0].as_mut().unwrap();
        n.is_virtual = true;
        n.is_corner = true;
        n.corner_peer = Some(c2);
    }
    {
        let n = sim.nodes[1][2][2].as_mut().unwrap();
        n.is_virtual = true;
        n.is_corner = true;
        n.corner_peer = Some(c1);
    }
    let noise = quiet_noise();
    let mut graph = TailoredModelGraph::new(&sim);
    assert!(graph.build(&mut sim, &noise, &WeightFunction::Unweighted, false).is_ok());
    assert!(graph.corner_virtual_nodes.contains(&(c1, c2)));
    assert!(graph.corner_virtual_nodes.contains(&(c2, c1)));
    assert_eq!(graph.corner_virtual_nodes.len(), 2);
    assert!(graph.virtual_nodes.contains(&c1));
    assert!(graph.virtual_nodes.contains(&c2));
}

/// An erasure-only candidate (rate zero but erasure possible) still
/// produces an edge, with probability zero and the degenerate infinite
/// weight.
#[test]
fn erasure_candidate_inserts_zero_probability_edge() {
    let mut sim = small_simulator();
    let s1 = pos(1, 0, 1);
    let s2 = pos(1, 2, 1);
    let d = pos(1, 1, 1);
    sim.responses.push((
        (d, CandidateError::Elementary(ErrorType::X)),
        response(vec![s1, s2], vec![]),
    ));
    let mut noise = quiet_noise();
    noise.nodes[1][1][1].erasure_error_rate = Prob::new(1, 50);
    let mut graph = TailoredModelGraph::new(&sim);
    assert!(graph.build(&mut sim, &noise, &WeightFunction::Autotune, true).is_ok());
    let n1 = graph.get_node_unwrap(&s1);
    let e = edge_toward(&n1.positive.edges, &s2).expect("erasure edge");
    assert!(e.probability.is_zero());
    assert_eq!(e.weight, Weight::Infinite);
    // the erasure-probability consumer is read through its accessor
    let rates = CorrelatedErasureErrorRates { total: Prob::new(1, 50) };
    assert!(rates.error_probability().is_positive());
}
