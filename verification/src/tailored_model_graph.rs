//! The tailored decoding graph: edges connecting the nontrivial syndrome
//! measurements generated by single physical errors, split into positive,
//! negative and neutral matching channels.

use vstd::prelude::*;
use crate::prob::Prob;
use crate::prob::combine_reduced_frac;
use crate::prob::frac_lt;
use crate::prob::frac_wf;
use crate::weight::Weight;
use crate::weight::WeightFunction;
use crate::weight::spec_weight_of;
use crate::weight::weight_of;
use crate::types::ErrorType;
use crate::types::Position;
use crate::types::SparseCorrection;
use crate::types::SparseErrorPattern;
use crate::types::CandidateError;
use crate::simulator::OracleResponse;
use crate::simulator::Simulator;
use crate::noise_model::NoiseModel;

verus! {

/// One candidate or elected edge: the probability of the physical error
/// that causes it, the weight computed from that probability, and the
/// error/correction pair that explains it.
#[derive(Clone, Debug)]
pub struct TailoredModelGraphEdge {
    pub probability: Prob,
    pub weight: Weight,
    pub error_pattern: SparseErrorPattern,
    pub correction: SparseCorrection,
}

/// The mathematical content of an edge, over which all contracts speak.
pub struct EdgeModel {
    pub probability: (int, int),
    pub weight: Weight,
    pub error_pattern: Seq<(Position, ErrorType)>,
    pub correction: Seq<(Position, ErrorType)>,
}

pub open spec fn edge_model(e: TailoredModelGraphEdge) -> EdgeModel {
    EdgeModel {
        probability: e.probability@,
        weight: e.weight,
        error_pattern: e.error_pattern.view_seq(),
        correction: e.correction.view_seq(),
    }
}

pub open spec fn edge_wf(e: TailoredModelGraphEdge) -> bool {
    e.probability.wf() && e.weight.wf()
}

pub open spec fn list_model(s: Seq<TailoredModelGraphEdge>) -> Seq<EdgeModel> {
    s.map_values(|e: TailoredModelGraphEdge| edge_model(e))
}

/// The candidate lists of one node, looked up by the neighbor position.
pub open spec fn find_all(
    s: Seq<(Position, Vec<TailoredModelGraphEdge>)>,
    key: Position,
) -> Option<Seq<EdgeModel>>
    decreases s.len(),
{
    if s.len() == 0 {
        None
    } else if s[0].0 == key {
        Some(list_model(s[0].1@))
    } else {
        find_all(s.drop_first(), key)
    }
}

/// The elected edge of one node, looked up by the neighbor position.
pub open spec fn find_elected(
    s: Seq<(Position, TailoredModelGraphEdge)>,
    key: Position,
) -> Option<EdgeModel>
    decreases s.len(),
{
    if s.len() == 0 {
        None
    } else if s[0].0 == key {
        Some(edge_model(s[0].1))
    } else {
        find_elected(s.drop_first(), key)
    }
}

pub open spec fn all_keys_unique(s: Seq<(Position, Vec<TailoredModelGraphEdge>)>) -> bool {
    forall|k: int, l: int| 0 <= k < l < s.len() ==> (#[trigger] s[k]).0 != (#[trigger] s[l]).0
}

pub open spec fn elected_keys_unique(s: Seq<(Position, TailoredModelGraphEdge)>) -> bool {
    forall|k: int, l: int| 0 <= k < l < s.len() ==> (#[trigger] s[k]).0 != (#[trigger] s[l]).0
}

/// Appending a candidate to an optional list, creating it if absent.
pub open spec fn push_model(o: Option<Seq<EdgeModel>>, em: EdgeModel) -> Seq<EdgeModel> {
    match o {
        None => seq![em],
        Some(s) => s.push(em),
    }
}

proof fn lemma_find_all_first_match(
    s: Seq<(Position, Vec<TailoredModelGraphEdge>)>,
    key: Position,
    k: int,
)
    requires
        0 <= k < s.len(),
        s[k].0 == key,
        forall|m: int| 0 <= m < k ==> (#[trigger] s[m]).0 != key,
    ensures
        find_all(s, key) == Some(list_model(s[k].1@)),
    decreases k,
{
    if k == 0 {
    } else {
        assert(s[0].0 != key);
        assert(s.drop_first()[k - 1] == s[k]);
        lemma_find_all_first_match(s.drop_first(), key, k - 1);
    }
}

proof fn lemma_find_all_none(s: Seq<(Position, Vec<TailoredModelGraphEdge>)>, key: Position)
    requires
        forall|m: int| 0 <= m < s.len() ==> (#[trigger] s[m]).0 != key,
    ensures
        find_all(s, key) is None,
    decreases s.len(),
{
    if s.len() == 0 {
    } else {
        lemma_find_all_none(s.drop_first(), key);
    }
}

proof fn lemma_find_all_some_iff(s: Seq<(Position, Vec<TailoredModelGraphEdge>)>, key: Position)
    ensures
        (find_all(s, key) is Some) <==> exists|m: int| 0 <= m < s.len() && (#[trigger] s[m]).0
            == key,
    decreases s.len(),
{
    if s.len() == 0 {
    } else {
        lemma_find_all_some_iff(s.drop_first(), key);
        if s[0].0 == key {
        } else {
            if find_all(s.drop_first(), key) is Some {
                let m = choose|m: int|
                    0 <= m < s.drop_first().len() && (#[trigger] s.drop_first()[m]).0 == key;
                assert(s[m + 1].0 == key);
            }
            if exists|m: int| 0 <= m < s.len() && (#[trigger] s[m]).0 == key {
                let m = choose|m: int| 0 <= m < s.len() && (#[trigger] s[m]).0 == key;
                assert(s.drop_first()[m - 1].0 == key);
            }
        }
    }
}

proof fn lemma_find_all_update_key(
    s: Seq<(Position, Vec<TailoredModelGraphEdge>)>,
    k: int,
    v: (Position, Vec<TailoredModelGraphEdge>),
    key: Position,
)
    requires
        0 <= k < s.len(),
        v.0 == s[k].0,
        forall|m: int| 0 <= m < k ==> (#[trigger] s[m]).0 != s[k].0,
    ensures
        find_all(s.update(k, v), key) == if key == v.0 {
            Some(list_model(v.1@))
        } else {
            find_all(s, key)
        },
    decreases k,
{
    let su = s.update(k, v);
    if k == 0 {
        assert(su[0] == v);
        if key != v.0 {
            assert(su.drop_first() =~= s.drop_first());
        }
    } else {
        assert(su[0] == s[0]);
        assert(su.drop_first() =~= s.drop_first().update(k - 1, v));
        assert(s.drop_first()[k - 1] == s[k]);
        lemma_find_all_update_key(s.drop_first(), k - 1, v, key);
    }
}

proof fn lemma_find_all_push_key(
    s: Seq<(Position, Vec<TailoredModelGraphEdge>)>,
    v: (Position, Vec<TailoredModelGraphEdge>),
    key: Position,
)
    requires
        forall|m: int| 0 <= m < s.len() ==> (#[trigger] s[m]).0 != v.0,
    ensures
        find_all(s.push(v), key) == if key == v.0 {
            Some(list_model(v.1@))
        } else {
            find_all(s, key)
        },
    decreases s.len(),
{
    let sp = s.push(v);
    if s.len() == 0 {
        assert(sp[0] == v);
        if key != v.0 {
            assert(sp.drop_first() =~= Seq::<(Position, Vec<TailoredModelGraphEdge>)>::empty());
            assert(find_all(sp.drop_first(), key) is None);
        }
    } else {
        assert(sp[0] == s[0]);
        assert(sp.drop_first() =~= s.drop_first().push(v));
        lemma_find_all_push_key(s.drop_first(), v, key);
    }
}

proof fn lemma_find_elected_first_match(
    s: Seq<(Position, TailoredModelGraphEdge)>,
    key: Position,
    k: int,
)
    requires
        0 <= k < s.len(),
        s[k].0 == key,
        forall|m: int| 0 <= m < k ==> (#[trigger] s[m]).0 != key,
    ensures
        find_elected(s, key) == Some(edge_model(s[k].1)),
    decreases k,
{
    if k == 0 {
    } else {
        assert(s.drop_first()[k - 1] == s[k]);
        lemma_find_elected_first_match(s.drop_first(), key, k - 1);
    }
}

proof fn lemma_find_elected_none(s: Seq<(Position, TailoredModelGraphEdge)>, key: Position)
    requires
        forall|m: int| 0 <= m < s.len() ==> (#[trigger] s[m]).0 != key,
    ensures
        find_elected(s, key) is None,
    decreases s.len(),
{
    if s.len() == 0 {
    } else {
        lemma_find_elected_none(s.drop_first(), key);
    }
}

proof fn lemma_find_elected_update_key(
    s: Seq<(Position, TailoredModelGraphEdge)>,
    k: int,
    v: (Position, TailoredModelGraphEdge),
    key: Position,
)
    requires
        0 <= k < s.len(),
        v.0 == s[k].0,
        forall|m: int| 0 <= m < k ==> (#[trigger] s[m]).0 != s[k].0,
    ensures
        find_elected(s.update(k, v), key) == if key == v.0 {
            Some(edge_model(v.1))
        } else {
            find_elected(s, key)
        },
    decreases k,
{
    let su = s.update(k, v);
    if k == 0 {
        assert(su[0] == v);
        if key != v.0 {
            assert(su.drop_first() =~= s.drop_first());
        }
    } else {
        assert(su[0] == s[0]);
        assert(su.drop_first() =~= s.drop_first().update(k - 1, v));
        assert(s.drop_first()[k - 1] == s[k]);
        lemma_find_elected_update_key(s.drop_first(), k - 1, v, key);
    }
}

proof fn lemma_find_elected_push_key(
    s: Seq<(Position, TailoredModelGraphEdge)>,
    v: (Position, TailoredModelGraphEdge),
    key: Position,
)
    requires
        forall|m: int| 0 <= m < s.len() ==> (#[trigger] s[m]).0 != v.0,
    ensures
        find_elected(s.push(v), key) == if key == v.0 {
            Some(edge_model(v.1))
        } else {
            find_elected(s, key)
        },
    decreases s.len(),
{
    let sp = s.push(v);
    if s.len() == 0 {
        assert(sp[0] == v);
        if key != v.0 {
            assert(sp.drop_first() =~= Seq::<(Position, TailoredModelGraphEdge)>::empty());
            assert(find_elected(sp.drop_first(), key) is None);
        }
    } else {
        assert(sp[0] == s[0]);
        assert(sp.drop_first() =~= s.drop_first().push(v));
        lemma_find_elected_push_key(s.drop_first(), v, key);
    }
}

/// One per-channel node: the accumulated candidate lists per neighbor, and
/// the elected edge per neighbor.
#[derive(Clone, Debug)]
pub struct TailoredModelGraphNode {
    pub all_edges: Vec<(Position, Vec<TailoredModelGraphEdge>)>,
    pub edges: Vec<(Position, TailoredModelGraphEdge)>,
}

impl TailoredModelGraphNode {
    pub open spec fn all_at(self, target: Position) -> Option<Seq<EdgeModel>> {
        find_all(self.all_edges@, target)
    }

    pub open spec fn elected_at(self, target: Position) -> Option<EdgeModel> {
        find_elected(self.edges@, target)
    }

    pub open spec fn wf(self) -> bool {
        &&& all_keys_unique(self.all_edges@)
        &&& elected_keys_unique(self.edges@)
        &&& forall|k: int| 0 <= k < self.all_edges@.len() ==> (#[trigger] self.all_edges@[k]).1@.len() >= 1
        &&& forall|k: int, m: int|
            0 <= k < self.all_edges@.len() && 0 <= m < self.all_edges@[k].1@.len() ==> edge_wf(
                #[trigger] (self.all_edges@[k].1)@[m],
            )
        &&& forall|k: int| 0 <= k < self.edges@.len() ==> edge_wf((#[trigger] self.edges@[k]).1)
    }

    pub open spec fn is_empty(self) -> bool {
        self.all_edges@.len() == 0 && self.edges@.len() == 0
    }

    pub fn new() -> (r: TailoredModelGraphNode)
        ensures
            r.is_empty(),
            r.wf(),
    {
        TailoredModelGraphNode { all_edges: Vec::new(), edges: Vec::new() }
    }
}

/// The three matching channels of one measurement position: positive,
/// negative and neutral.
#[derive(Clone, Debug)]
pub struct TripleTailoredModelGraphNode {
    pub positive: TailoredModelGraphNode,
    pub negative: TailoredModelGraphNode,
    pub neutral: TailoredModelGraphNode,
}

impl TripleTailoredModelGraphNode {
    /// Channel 0 is positive, channel 1 negative, channel 2 neutral.
    pub open spec fn channel(self, idx: int) -> TailoredModelGraphNode {
        if idx == 0 {
            self.positive
        } else if idx == 1 {
            self.negative
        } else {
            self.neutral
        }
    }

    pub open spec fn wf(self) -> bool {
        self.positive.wf() && self.negative.wf() && self.neutral.wf()
    }

    pub open spec fn is_empty(self) -> bool {
        self.positive.is_empty() && self.negative.is_empty() && self.neutral.is_empty()
    }

    pub fn new() -> (r: TripleTailoredModelGraphNode)
        ensures
            r.is_empty(),
            r.wf(),
    {
        TripleTailoredModelGraphNode {
            positive: TailoredModelGraphNode::new(),
            negative: TailoredModelGraphNode::new(),
            neutral: TailoredModelGraphNode::new(),
        }
    }
}

/// Copies a sparse error pattern entry for entry.
pub fn clone_pattern(p: &SparseErrorPattern) -> (r: SparseErrorPattern)
    ensures
        r.view_seq() =~= p.view_seq(),
{
    let mut entries: Vec<(Position, ErrorType)> = Vec::new();
    let n: usize = p.entries.len();
    let mut k: usize = 0;
    while k < n
        invariant
            k <= n,
            n == p.entries@.len(),
            entries@ =~= p.entries@.subrange(0, k as int),
        decreases n - k,
    {
        entries.push(p.entries[k]);
        k = k + 1;
    }
    proof {
        assert(p.entries@.subrange(0, n as int) =~= p.entries@);
    }
    SparseErrorPattern { entries }
}

/// Copies a sparse correction entry for entry.
pub fn clone_correction(c: &SparseCorrection) -> (r: SparseCorrection)
    ensures
        r.view_seq() =~= c.view_seq(),
{
    let mut entries: Vec<(Position, ErrorType)> = Vec::new();
    let n: usize = c.entries.len();
    let mut k: usize = 0;
    while k < n
        invariant
            k <= n,
            n == c.entries@.len(),
            entries@ =~= c.entries@.subrange(0, k as int),
        decreases n - k,
    {
        entries.push(c.entries[k]);
        k = k + 1;
    }
    proof {
        assert(c.entries@.subrange(0, n as int) =~= c.entries@);
    }
    SparseCorrection { entries }
}

/// Copies one edge.
pub fn clone_edge(e: &TailoredModelGraphEdge) -> (r: TailoredModelGraphEdge)
    ensures
        edge_model(r) == edge_model(*e),
        edge_wf(*e) ==> edge_wf(r),
{
    let r = TailoredModelGraphEdge {
        probability: e.probability,
        weight: e.weight,
        error_pattern: clone_pattern(&e.error_pattern),
        correction: clone_correction(&e.correction),
    };
    proof {
        assert(r.error_pattern.view_seq() == e.error_pattern.view_seq());
        assert(r.correction.view_seq() == e.correction.view_seq());
    }
    r
}

/// The probabilities of a candidate list.
pub open spec fn probs_of(s: Seq<EdgeModel>) -> Seq<(int, int)> {
    s.map_values(|e: EdgeModel| e.probability)
}

/// The left fold of the combined-probability election over a candidate
/// list, with each intermediate result reduced exactly as the executable
/// election reduces it; `None` when one step does not fit in 64 bits.
pub open spec fn fold_combine_reduced(ps: Seq<(int, int)>) -> Option<(int, int)>
    decreases ps.len(),
{
    if ps.len() <= 1 {
        Some(ps[0])
    } else {
        match fold_combine_reduced(ps.drop_last()) {
            None => None,
            Some(p) => combine_reduced_frac(p, ps[ps.len() - 1]),
        }
    }
}

/// The left fold of the maximum-probability election: each candidate
/// replaces the current value only when its probability is strictly
/// greater.
pub open spec fn fold_max_frac(ps: Seq<(int, int)>) -> (int, int)
    decreases ps.len(),
{
    if ps.len() <= 1 {
        ps[0]
    } else {
        let p = fold_max_frac(ps.drop_last());
        if frac_lt(p, ps[ps.len() - 1]) {
            ps[ps.len() - 1]
        } else {
            p
        }
    }
}

/// The first index holding the maximum probability: a later candidate
/// takes over only when its probability is strictly greater.
pub open spec fn argmax_first(ps: Seq<(int, int)>) -> int
    decreases ps.len(),
{
    if ps.len() <= 1 {
        0
    } else {
        let k = argmax_first(ps.drop_last());
        if frac_lt(ps[k], ps[ps.len() - 1]) {
            ps.len() - 1
        } else {
            k
        }
    }
}

proof fn lemma_argmax_first_in_range(ps: Seq<(int, int)>)
    requires
        ps.len() >= 1,
    ensures
        0 <= argmax_first(ps) < ps.len(),
    decreases ps.len(),
{
    if ps.len() > 1 {
        lemma_argmax_first_in_range(ps.drop_last());
    }
}

/// What election returns for one candidate list: the folded probability
/// (combined or maximum), the weight recomputed from it, and the payload of
/// the first candidate with the greatest individual probability.
pub open spec fn elect_spec(s: Seq<EdgeModel>, use_combined: bool, kind: WeightFunction) -> Option<
    EdgeModel,
> {
    let ps = probs_of(s);
    let folded = if use_combined {
        fold_combine_reduced(ps)
    } else {
        Some(fold_max_frac(ps))
    };
    match folded {
        None => None,
        Some(p) => Some(
            EdgeModel {
                probability: p,
                weight: spec_weight_of(kind, p),
                error_pattern: s[argmax_first(ps)].error_pattern,
                correction: s[argmax_first(ps)].correction,
            },
        ),
    }
}

/// Elects one edge from a nonempty candidate list. Returns `None` only in
/// combined mode, when an exact intermediate probability no longer fits in
/// 64 bits.
pub fn elect_candidate(
    edges: &Vec<TailoredModelGraphEdge>,
    use_combined_probability: bool,
    weight_function: &WeightFunction,
) -> (r: Option<TailoredModelGraphEdge>)
    requires
        edges@.len() >= 1,
        forall|k: int| 0 <= k < edges@.len() ==> edge_wf(#[trigger] edges@[k]),
    ensures
        match r {
            Some(e) => elect_spec(list_model(edges@), use_combined_probability, *weight_function)
                == Some(edge_model(e)) && edge_wf(e),
            None => elect_spec(list_model(edges@), use_combined_probability, *weight_function)
                is None,
        },
{
    let ghost s = list_model(edges@);
    let ghost ps = probs_of(s);
    proof {
        assert(ps.len() == edges@.len());
    }
    let n: usize = edges.len();
    let mut elected_idx: usize = 0;
    let mut elected_probability: Prob = edges[0].probability;
    proof {
        assert(ps.subrange(0, 1)[0] == ps[0]);
        assert(ps[0] == edges@[0].probability@);
    }
    let mut i: usize = 1;
    while i < n
        invariant
            1 <= i <= n,
            n == edges@.len(),
            s == list_model(edges@),
            ps == probs_of(s),
            ps.len() == n,
            forall|k: int| 0 <= k < edges@.len() ==> edge_wf(#[trigger] edges@[k]),
            forall|k: int| 0 <= k < ps.len() ==> #[trigger] ps[k] == edges@[k].probability@,
            elected_probability.wf(),
            elected_idx < i,
            argmax_first(ps.subrange(0, i as int)) == elected_idx as int,
            use_combined_probability ==> fold_combine_reduced(ps.subrange(0, i as int)) == Some(
                elected_probability@,
            ),
            !use_combined_probability ==> fold_max_frac(ps.subrange(0, i as int))
                == elected_probability@,
        decreases n - i,
    {
        let ghost pre = ps.subrange(0, i as int);
        let ghost cur = ps.subrange(0, i as int + 1);
        proof {
            assert(cur.drop_last() =~= pre);
            assert(cur[cur.len() - 1] == ps[i as int]);
        }
        let edge = &edges[i];
        if use_combined_probability {
            match elected_probability.combine(&edge.probability) {
                Some(p) => {
                    elected_probability = p;
                },
                None => {
                    proof {
                        assert(fold_combine_reduced(cur) is None);
                        lemma_fold_combine_none_extends(ps, i as int + 1);
                    }
                    return None;
                },
            }
        } else {
            if elected_probability.lt(&edge.probability) {
                elected_probability = edge.probability;
            }
        }
        let best = &edges[elected_idx];
        if best.probability.lt(&edge.probability) {
            proof {
                assert(pre[elected_idx as int] == ps[elected_idx as int]);
            }
            elected_idx = i;
        } else {
            proof {
                assert(pre[elected_idx as int] == ps[elected_idx as int]);
            }
        }
        i = i + 1;
    }
    proof {
        assert(ps.subrange(0, n as int) =~= ps);
        lemma_argmax_first_in_range(ps);
    }
    let rep = &edges[elected_idx];
    let w: Weight = weight_of(weight_function, &elected_probability);
    Some(
        TailoredModelGraphEdge {
            probability: elected_probability,
            weight: w,
            error_pattern: clone_pattern(&rep.error_pattern),
            correction: clone_correction(&rep.correction),
        },
    )
}

/// Once one combined fold step fails to fit, the fold of every longer
/// prefix fails too.
proof fn lemma_fold_combine_none_extends(ps: Seq<(int, int)>, k: int)
    requires
        1 <= k <= ps.len(),
        fold_combine_reduced(ps.subrange(0, k)) is None,
    ensures
        fold_combine_reduced(ps) is None,
    decreases ps.len() - k,
{
    if k == ps.len() {
        assert(ps.subrange(0, k) =~= ps);
    } else {
        assert(ps.subrange(0, k + 1).drop_last() =~= ps.subrange(0, k));
        lemma_fold_combine_none_extends(ps, k + 1);
    }
}


/// The full tailored decoding graph: an optional triple node per position,
/// plus the boundary bookkeeping derived after election.
#[derive(Clone, Debug)]
pub struct TailoredModelGraph {
    pub nodes: Vec<Vec<Vec<Option<TripleTailoredModelGraphNode>>>>,
    pub virtual_nodes: Vec<Position>,
    pub corner_virtual_nodes: Vec<(Position, Position)>,
    pub unfixed_stabilizers: Vec<Position>,
}

/// Construction aborts on these malformed-model conditions instead of
/// producing a usable graph. After any abort other than the untouched
/// clean-state refusal, the structure's edge contents are unspecified and
/// the caller must discard it.
#[derive(Clone, Copy, Debug, PartialEq, Eq, Structural)]
pub enum BuildError {
    /// The structure already holds edges: the builder needs a clean state.
    StateNotClean,
    /// A correlated error kind was probed at a position without a two-qubit
    /// gate peer.
    GatePeerMissing,
    /// The two endpoints of a two-syndrome edge have different qubit types.
    QubitTypeMismatch,
    /// An exactly combined probability no longer fits in 64 bits.
    ProbabilityOverflow,
}

impl TailoredModelGraph {
    pub open spec fn pos_in_bounds(self, p: Position) -> bool {
        p.t < self.nodes@.len() && p.i < self.nodes@[p.t as int]@.len() && p.j
            < self.nodes@[p.t as int]@[p.i as int]@.len()
    }

    pub open spec fn node_at(self, p: Position) -> Option<TripleTailoredModelGraphNode> {
        ((self.nodes@[p.t as int])@[p.i as int])@[p.j as int]
    }

    pub open spec fn has_node_at(self, p: Position) -> bool {
        self.pos_in_bounds(p) && self.node_at(p) is Some
    }

    /// Every present node is internally well-formed.
    pub open spec fn wf(self) -> bool {
        forall|p: Position|
            self.pos_in_bounds(p) && (#[trigger] self.node_at(p)) is Some ==> self.node_at(
                p,
            )->Some_0.wf()
    }

    /// The graph mirrors the simulator: same volume, and a node exactly at
    /// the true or virtual measurement events at measurement-round
    /// boundaries.
    pub open spec fn consistent_with(self, sim: Simulator) -> bool {
        &&& self.nodes@.len() == sim.height
        &&& forall|t: int| 0 <= t < sim.height ==> (#[trigger] self.nodes@[t])@.len()
            == sim.vertical
        &&& forall|t: int, i: int|
            0 <= t < sim.height && 0 <= i < sim.vertical ==> #[trigger] (
            self.nodes@[t])@[i]@.len() == sim.horizontal
        &&& forall|p: Position|
            sim.in_bounds(p) ==> ((#[trigger] self.node_at(p)) is Some <==> sim.is_graph_node(p))
    }

    /// No edges anywhere: the state the builder requires.
    pub open spec fn graph_clean(self) -> bool {
        forall|p: Position|
            self.pos_in_bounds(p) && (#[trigger] self.node_at(p)) is Some ==> self.node_at(
                p,
            )->Some_0.is_empty()
    }
}

/// The candidate list of channel `c` of the node at `p`, toward neighbor
/// `q`; `None` where there is no node or no list.
pub open spec fn chan_all(g: TailoredModelGraph, p: Position, c: int, q: Position) -> Option<
    Seq<EdgeModel>,
> {
    if g.pos_in_bounds(p) && g.node_at(p) is Some {
        g.node_at(p)->Some_0.channel(c).all_at(q)
    } else {
        None
    }
}

/// The elected edge of channel `c` of the node at `p`, toward neighbor `q`.
pub open spec fn chan_elected(g: TailoredModelGraph, p: Position, c: int, q: Position) -> Option<
    EdgeModel,
> {
    if g.pos_in_bounds(p) && g.node_at(p) is Some {
        g.node_at(p)->Some_0.channel(c).elected_at(q)
    } else {
        None
    }
}

/// Every candidate list is mirrored: both endpoints hold the same list for
/// each other, in every channel.
pub open spec fn all_edges_symmetric(g: TailoredModelGraph) -> bool {
    forall|p: Position, c: int, q: Position|
        0 <= c < 3 ==> #[trigger] chan_all(g, p, c, q) == chan_all(g, q, c, p)
}

/// Every elected edge is the election of its candidate list, and a node has
/// an elected edge toward exactly the neighbors it has candidates for.
pub open spec fn elected_matches(
    g: TailoredModelGraph,
    use_combined: bool,
    kind: WeightFunction,
) -> bool {
    forall|p: Position, c: int, q: Position|
        0 <= c < 3 ==> #[trigger] chan_elected(g, p, c, q) == (match chan_all(g, p, c, q) {
            None => None,
            Some(list) => elect_spec(list, use_combined, kind),
        })
}

/// No elected edge anywhere.
pub open spec fn elected_empty(g: TailoredModelGraph) -> bool {
    forall|p: Position|
        g.pos_in_bounds(p) && (#[trigger] g.node_at(p)) is Some ==> g.node_at(
            p,
        )->Some_0.positive.edges@.len() == 0 && g.node_at(p)->Some_0.negative.edges@.len() == 0
            && g.node_at(p)->Some_0.neutral.edges@.len() == 0
}

/// Everything but the node at `p` is unchanged between two graphs.
pub open spec fn same_but_node(g0: TailoredModelGraph, g1: TailoredModelGraph, p: Position) -> bool {
    &&& g1.virtual_nodes == g0.virtual_nodes
    &&& g1.corner_virtual_nodes == g0.corner_virtual_nodes
    &&& g1.unfixed_stabilizers == g0.unfixed_stabilizers
    &&& g1.nodes@.len() == g0.nodes@.len()
    &&& forall|t: int| 0 <= t < g0.nodes@.len() ==> (#[trigger] g1.nodes@[t])@.len()
        == g0.nodes@[t]@.len()
    &&& forall|t: int, i: int|
        0 <= t < g0.nodes@.len() && 0 <= i < g0.nodes@[t]@.len() ==> #[trigger] (
        g1.nodes@[t])@[i]@.len() == g0.nodes@[t]@[i]@.len()
    &&& forall|q: Position|
        g0.pos_in_bounds(q) && q != p ==> #[trigger] g1.node_at(q) == g0.node_at(q)
    &&& (g1.node_at(p) is Some <==> g0.node_at(p) is Some)
}

/// Everything but the nodes at `p1` and `p2` is unchanged.
pub open spec fn same_but_two(
    g0: TailoredModelGraph,
    g1: TailoredModelGraph,
    p1: Position,
    p2: Position,
) -> bool {
    &&& g1.virtual_nodes == g0.virtual_nodes
    &&& g1.corner_virtual_nodes == g0.corner_virtual_nodes
    &&& g1.unfixed_stabilizers == g0.unfixed_stabilizers
    &&& g1.nodes@.len() == g0.nodes@.len()
    &&& forall|t: int| 0 <= t < g0.nodes@.len() ==> (#[trigger] g1.nodes@[t])@.len()
        == g0.nodes@[t]@.len()
    &&& forall|t: int, i: int|
        0 <= t < g0.nodes@.len() && 0 <= i < g0.nodes@[t]@.len() ==> #[trigger] (
        g1.nodes@[t])@[i]@.len() == g0.nodes@[t]@[i]@.len()
    &&& forall|q: Position|
        g0.pos_in_bounds(q) && q != p1 && q != p2 ==> #[trigger] g1.node_at(q) == g0.node_at(q)
    &&& (g1.node_at(p1) is Some <==> g0.node_at(p1) is Some)
    &&& (g1.node_at(p2) is Some <==> g0.node_at(p2) is Some)
}

/// One per-channel node got one new candidate toward `target`; its elected
/// map and its other candidate lists are unchanged.
pub open spec fn chan_added(
    ch0: TailoredModelGraphNode,
    ch1: TailoredModelGraphNode,
    target: Position,
    em: EdgeModel,
) -> bool {
    &&& ch1.edges == ch0.edges
    &&& forall|q: Position| q != target ==> #[trigger] ch1.all_at(q) == ch0.all_at(q)
    &&& ch1.all_at(target) == Some(push_model(ch0.all_at(target), em))
}

/// One channel of one node got one new candidate toward `target`; the rest
/// of the node is unchanged.
pub open spec fn one_edge_added(
    t0: TripleTailoredModelGraphNode,
    t1: TripleTailoredModelGraphNode,
    idx: int,
    target: Position,
    em: EdgeModel,
) -> bool {
    &&& forall|c: int| 0 <= c < 3 && c != idx ==> #[trigger] t1.channel(c) == t0.channel(c)
    &&& chan_added(t0.channel(idx), t1.channel(idx), target, em)
}

/// Finds the entry index of a neighbor key, or the list length when absent.
fn find_key_index(s: &Vec<(Position, Vec<TailoredModelGraphEdge>)>, key: &Position) -> (r: usize)
    ensures
        r <= s@.len(),
        forall|m: int| 0 <= m < r ==> (#[trigger] s@[m]).0 != *key,
        r < s@.len() ==> s@[r as int].0 == *key,
{
    let n: usize = s.len();
    let mut k: usize = 0;
    while k < n
        invariant
            k <= n,
            n == s@.len(),
            forall|m: int| 0 <= m < k ==> (#[trigger] s@[m]).0 != *key,
        decreases n - k,
    {
        if s[k].0 == *key {
            return k;
        }
        k = k + 1;
    }
    k
}

impl TailoredModelGraph {
    /// Adds one directed candidate edge from `source` to `target` into
    /// channel `idx` (0 positive, 1 negative, 2 neutral); the symmetric
    /// sibling is a second call with the endpoints reversed.
    pub fn add_one_edge(
        &mut self,
        source: &Position,
        target: &Position,
        probability: Prob,
        weight: Weight,
        error_pattern: SparseErrorPattern,
        correction: SparseCorrection,
        idx: usize,
    )
        requires
            old(self).wf(),
            old(self).has_node_at(*source),
            idx < 3,
            probability.wf(),
            weight.wf(),
        ensures
            final(self).wf(),
            same_but_node(*old(self), *final(self), *source),
            final(self).node_at(*source) is Some,
            one_edge_added(
                old(self).node_at(*source)->Some_0,
                final(self).node_at(*source)->Some_0,
                idx as int,
                *target,
                (EdgeModel {
                    probability: probability@,
                    weight: weight,
                    error_pattern: error_pattern.view_seq(),
                    correction: correction.view_seq(),
                }),
            ),
    {
        let ghost em = EdgeModel {
            probability: probability@,
            weight: weight,
            error_pattern: error_pattern.view_seq(),
            correction: correction.view_seq(),
        };
        let edge = TailoredModelGraphEdge { probability, weight, error_pattern, correction };
        proof {
            assert(edge_model(edge) == em);
        }
        let triple = self.nodes[source.t][source.i][source.j].as_mut().unwrap();
        let ghost t0 = *triple;
        let node = if idx == 0 {
            &mut triple.positive
        } else if idx == 1 {
            &mut triple.negative
        } else {
            &mut triple.neutral
        };
        let ghost n0 = *node;
        let k: usize = find_key_index(&node.all_edges, target);
        if k < node.all_edges.len() {
            let entry = &mut node.all_edges[k];
            let ghost v0 = entry.1;
            entry.1.push(edge);
            proof {
                assert(list_model(v0@.push(edge)) =~= list_model(v0@).push(em));
                assert(node.all_edges@ =~= n0.all_edges@.update(
                    k as int,
                    (n0.all_edges@[k as int].0, node.all_edges@[k as int].1),
                ));
                assert forall|q: Position| true implies #[trigger] find_all(node.all_edges@, q)
                    == (if q == *target {
                    Some(push_model(n0.all_at(*target), em))
                } else {
                    n0.all_at(q)
                }) by {
                    lemma_find_all_update_key(
                        n0.all_edges@,
                        k as int,
                        (n0.all_edges@[k as int].0, node.all_edges@[k as int].1),
                        q,
                    );
                    lemma_find_all_first_match(n0.all_edges@, *target, k as int);
                }
            }
        } else {
            let mut v: Vec<TailoredModelGraphEdge> = Vec::new();
            v.push(edge);
            node.all_edges.push((*target, v));
            proof {
                let vv = node.all_edges@[node.all_edges@.len() - 1].1;
                assert(list_model(vv@) =~= seq![em]);
                assert forall|q: Position| true implies #[trigger] find_all(node.all_edges@, q)
                    == (if q == *target {
                    Some(push_model(n0.all_at(*target), em))
                } else {
                    n0.all_at(q)
                }) by {
                    assert(node.all_edges@ =~= n0.all_edges@.push((*target, vv)));
                    lemma_find_all_push_key(n0.all_edges@, (*target, vv), q);
                    lemma_find_all_none(n0.all_edges@, *target);
                }
            }
        }
        proof {
            assert(all_keys_unique(node.all_edges@)) by {
                if k < n0.all_edges@.len() {
                    assert(forall|m: int|
                        0 <= m < node.all_edges@.len() ==> (#[trigger] node.all_edges@[m]).0
                            == n0.all_edges@[m].0);
                }
            }
            assert(forall|kk: int, m: int|
                0 <= kk < node.all_edges@.len() && 0 <= m < node.all_edges@[kk].1@.len()
                    ==> edge_wf(#[trigger] (node.all_edges@[kk].1)@[m]));
            assert(forall|kk: int|
                0 <= kk < node.all_edges@.len() ==> (#[trigger] node.all_edges@[kk]).1@.len()
                    >= 1);
            assert(node.edges == n0.edges);
            assert(node.wf());
        }
        proof {
            let src = *source;
            assert forall|q: Position|
                old(self).pos_in_bounds(q) && q != src implies #[trigger] self.node_at(q) == old(self).node_at(q) by {
                if q.t != src.t {
                } else if q.i != src.i {
                } else {
                    assert(q.j != src.j);
                }
            }
            assert(self.node_at(src) is Some);
            assert(self.node_at(src)->Some_0.wf());
            assert forall|p: Position|
                self.pos_in_bounds(p) && (#[trigger] self.node_at(p)) is Some implies self.node_at(
                p,
            )->Some_0.wf() by {
                if p != src {
                    assert(old(self).pos_in_bounds(p));
                    assert(self.node_at(p) == old(self).node_at(p));
                }
            }
        }
    }
}


/// Both endpoints received the same new candidate toward each other in
/// channel `idx`; their elected maps and other channels are unchanged.
pub open spec fn between_added(
    g0: TailoredModelGraph,
    g1: TailoredModelGraph,
    idx: int,
    p1: Position,
    p2: Position,
    em: EdgeModel,
) -> bool {
    &&& one_edge_added(g0.node_at(p1)->Some_0, g1.node_at(p1)->Some_0, idx, p2, em)
    &&& one_edge_added(g0.node_at(p2)->Some_0, g1.node_at(p2)->Some_0, idx, p1, em)
}

impl TailoredModelGraph {
    /// The node at a position; `None` where no measurement event sits.
    pub fn get_node(&self, position: &Position) -> (r: &Option<TripleTailoredModelGraphNode>)
        requires
            self.pos_in_bounds(*position),
        ensures
            *r == self.node_at(*position),
    {
        &self.nodes[position.t][position.i][position.j]
    }

    /// Whether a position carries a graph node.
    pub fn is_node_exist(&self, position: &Position) -> (r: bool)
        requires
            self.pos_in_bounds(*position),
        ensures
            r == self.has_node_at(*position),
    {
        self.get_node(position).is_some()
    }

    /// The node at a position that carries one.
    pub fn get_node_unwrap(&self, position: &Position) -> (r: &TripleTailoredModelGraphNode)
        requires
            self.pos_in_bounds(*position),
            self.has_node_at(*position),
        ensures
            *r == self.node_at(*position)->Some_0,
    {
        self.nodes[position.t][position.i][position.j].as_ref().unwrap()
    }

    /// A mutable borrow of the node at a position that carries one.
    pub fn get_node_mut_unwrap(&mut self, position: &Position) -> (r: &mut
        TripleTailoredModelGraphNode)
        requires
            old(self).pos_in_bounds(*position),
            old(self).has_node_at(*position),
        ensures
            *r == old(self).node_at(*position)->Some_0,
            final(self).node_at(*position) == Some(*final(r)),
            same_but_node(*old(self), *final(self), *position),
    {
        self.nodes[position.t][position.i][position.j].as_mut().unwrap()
    }

    /// Adds the directed positive-channel candidate from `source` to
    /// `target`.
    pub fn add_positive_edge(
        &mut self,
        source: &Position,
        target: &Position,
        probability: Prob,
        weight: Weight,
        error_pattern: SparseErrorPattern,
        correction: SparseCorrection,
    )
        requires
            old(self).wf(),
            old(self).has_node_at(*source),
            probability.wf(),
            weight.wf(),
        ensures
            final(self).wf(),
            same_but_node(*old(self), *final(self), *source),
            final(self).node_at(*source) is Some,
            one_edge_added(
                old(self).node_at(*source)->Some_0,
                final(self).node_at(*source)->Some_0,
                0,
                *target,
                (EdgeModel {
                    probability: probability@,
                    weight: weight,
                    error_pattern: error_pattern.view_seq(),
                    correction: correction.view_seq(),
                }),
            ),
    {
        self.add_one_edge(source, target, probability, weight, error_pattern, correction, 0);
    }

    /// Adds the directed negative-channel candidate from `source` to
    /// `target`.
    pub fn add_negative_edge(
        &mut self,
        source: &Position,
        target: &Position,
        probability: Prob,
        weight: Weight,
        error_pattern: SparseErrorPattern,
        correction: SparseCorrection,
    )
        requires
            old(self).wf(),
            old(self).has_node_at(*source),
            probability.wf(),
            weight.wf(),
        ensures
            final(self).wf(),
            same_but_node(*old(self), *final(self), *source),
            final(self).node_at(*source) is Some,
            one_edge_added(
                old(self).node_at(*source)->Some_0,
                final(self).node_at(*source)->Some_0,
                1,
                *target,
                (EdgeModel {
                    probability: probability@,
                    weight: weight,
                    error_pattern: error_pattern.view_seq(),
                    correction: correction.view_seq(),
                }),
            ),
    {
        self.add_one_edge(source, target, probability, weight, error_pattern, correction, 1);
    }

    /// Adds the directed neutral-channel candidate from `source` to
    /// `target`.
    pub fn add_neutral_edge(
        &mut self,
        source: &Position,
        target: &Position,
        probability: Prob,
        weight: Weight,
        error_pattern: SparseErrorPattern,
        correction: SparseCorrection,
    )
        requires
            old(self).wf(),
            old(self).has_node_at(*source),
            probability.wf(),
            weight.wf(),
        ensures
            final(self).wf(),
            same_but_node(*old(self), *final(self), *source),
            final(self).node_at(*source) is Some,
            one_edge_added(
                old(self).node_at(*source)->Some_0,
                final(self).node_at(*source)->Some_0,
                2,
                *target,
                (EdgeModel {
                    probability: probability@,
                    weight: weight,
                    error_pattern: error_pattern.view_seq(),
                    correction: correction.view_seq(),
                }),
            ),
    {
        self.add_one_edge(source, target, probability, weight, error_pattern, correction, 2);
    }
}

/// Adds one symmetric candidate pair in one channel and proves the shared
/// bookkeeping: both directions appended, everything else untouched, and
/// mirror symmetry of the candidate lists preserved.
impl TailoredModelGraph {
    fn add_edge_between_channel(
        &mut self,
        position1: &Position,
        position2: &Position,
        probability: Prob,
        weight: Weight,
        error_pattern: SparseErrorPattern,
        correction: SparseCorrection,
        idx: usize,
    )
        requires
            old(self).wf(),
            old(self).has_node_at(*position1),
            old(self).has_node_at(*position2),
            *position1 != *position2,
            idx < 3,
            probability.wf(),
            weight.wf(),
        ensures
            final(self).wf(),
            final(self).has_node_at(*position1),
            final(self).has_node_at(*position2),
            same_but_two(*old(self), *final(self), *position1, *position2),
            between_added(
                *old(self),
                *final(self),
                idx as int,
                *position1,
                *position2,
                (EdgeModel {
                    probability: probability@,
                    weight: weight,
                    error_pattern: error_pattern.view_seq(),
                    correction: correction.view_seq(),
                }),
            ),
            forall|c: int|
                0 <= c < 3 && c != idx ==> #[trigger] final(self).node_at(*position1)
                    ->Some_0.channel(c) == old(self).node_at(*position1)->Some_0.channel(c)
                    && final(self).node_at(*position2)->Some_0.channel(c) == old(self).node_at(
                    *position2,
                )->Some_0.channel(c),
            all_edges_symmetric(*old(self)) ==> all_edges_symmetric(*final(self)),
    {
        let ghost g0 = *self;
        let ghost em = EdgeModel {
            probability: probability@,
            weight: weight,
            error_pattern: error_pattern.view_seq(),
            correction: correction.view_seq(),
        };
        let pattern2 = clone_pattern(&error_pattern);
        let correction2 = clone_correction(&correction);
        self.add_one_edge(
            position1,
            position2,
            probability,
            weight,
            error_pattern,
            correction,
            idx,
        );
        let ghost g1 = *self;
        self.add_one_edge(
            position2,
            position1,
            probability,
            weight,
            pattern2,
            correction2,
            idx,
        );
        let ghost g2 = *self;
        proof {
            let p1 = *position1;
            let p2 = *position2;
            assert(g1.node_at(p2) == g0.node_at(p2));
            assert(g2.node_at(p1) == g1.node_at(p1));
            assert(one_edge_added(g0.node_at(p1)->Some_0, g2.node_at(p1)->Some_0, idx as int, p2, em));
            assert(one_edge_added(g0.node_at(p2)->Some_0, g2.node_at(p2)->Some_0, idx as int, p1, em));
            if all_edges_symmetric(g0) {
                assert forall|p: Position, c: int, q: Position| 0 <= c < 3 implies #[trigger]
                    chan_all(g2, p, c, q) == chan_all(g2, q, c, p) by {
                    if p == p1 && q == p2 && c == idx {
                        assert(chan_all(g0, p1, c, p2) == chan_all(g0, p2, c, p1));
                    } else if p == p2 && q == p1 && c == idx {
                        assert(chan_all(g0, p1, c, p2) == chan_all(g0, p2, c, p1));
                    } else {
                        assert(chan_all(g2, p, c, q) == chan_all(g0, p, c, q));
                        assert(chan_all(g2, q, c, p) == chan_all(g0, q, c, p));
                        assert(chan_all(g0, p, c, q) == chan_all(g0, q, c, p));
                    }
                }
            }
        }
    }

    /// Adds the symmetric positive-channel candidate pair between two
    /// syndromes.
    pub fn add_positive_edge_between(
        &mut self,
        position1: &Position,
        position2: &Position,
        probability: Prob,
        weight: Weight,
        error_pattern: SparseErrorPattern,
        correction: SparseCorrection,
    )
        requires
            old(self).wf(),
            old(self).has_node_at(*position1),
            old(self).has_node_at(*position2),
            *position1 != *position2,
            probability.wf(),
            weight.wf(),
        ensures
            final(self).wf(),
            final(self).has_node_at(*position1),
            final(self).has_node_at(*position2),
            same_but_two(*old(self), *final(self), *position1, *position2),
            between_added(
                *old(self),
                *final(self),
                0,
                *position1,
                *position2,
                (EdgeModel {
                    probability: probability@,
                    weight: weight,
                    error_pattern: error_pattern.view_seq(),
                    correction: correction.view_seq(),
                }),
            ),
            forall|c: int|
                1 <= c < 3 ==> #[trigger] final(self).node_at(*position1)->Some_0.channel(c)
                    == old(self).node_at(*position1)->Some_0.channel(c) && final(self).node_at(
                    *position2,
                )->Some_0.channel(c) == old(self).node_at(*position2)->Some_0.channel(c),
            all_edges_symmetric(*old(self)) ==> all_edges_symmetric(*final(self)),
    {
        self.add_edge_between_channel(
            position1,
            position2,
            probability,
            weight,
            error_pattern,
            correction,
            0,
        );
    }

    /// Adds the symmetric negative-channel candidate pair between two
    /// syndromes.
    pub fn add_negative_edge_between(
        &mut self,
        position1: &Position,
        position2: &Position,
        probability: Prob,
        weight: Weight,
        error_pattern: SparseErrorPattern,
        correction: SparseCorrection,
    )
        requires
            old(self).wf(),
            old(self).has_node_at(*position1),
            old(self).has_node_at(*position2),
            *position1 != *position2,
            probability.wf(),
            weight.wf(),
        ensures
            final(self).wf(),
            final(self).has_node_at(*position1),
            final(self).has_node_at(*position2),
            same_but_two(*old(self), *final(self), *position1, *position2),
            between_added(
                *old(self),
                *final(self),
                1,
                *position1,
                *position2,
                (EdgeModel {
                    probability: probability@,
                    weight: weight,
                    error_pattern: error_pattern.view_seq(),
                    correction: correction.view_seq(),
                }),
            ),
            forall|c: int|
                0 <= c < 3 && c != 1 ==> #[trigger] final(self).node_at(*position1)
                    ->Some_0.channel(c) == old(self).node_at(*position1)->Some_0.channel(c)
                    && final(self).node_at(*position2)->Some_0.channel(c) == old(self).node_at(
                    *position2,
                )->Some_0.channel(c),
            all_edges_symmetric(*old(self)) ==> all_edges_symmetric(*final(self)),
    {
        self.add_edge_between_channel(
            position1,
            position2,
            probability,
            weight,
            error_pattern,
            correction,
            1,
        );
    }

    /// Adds the symmetric neutral-channel candidate pair between two
    /// syndromes.
    pub fn add_neutral_edge_between(
        &mut self,
        position1: &Position,
        position2: &Position,
        probability: Prob,
        weight: Weight,
        error_pattern: SparseErrorPattern,
        correction: SparseCorrection,
    )
        requires
            old(self).wf(),
            old(self).has_node_at(*position1),
            old(self).has_node_at(*position2),
            *position1 != *position2,
            probability.wf(),
            weight.wf(),
        ensures
            final(self).wf(),
            final(self).has_node_at(*position1),
            final(self).has_node_at(*position2),
            same_but_two(*old(self), *final(self), *position1, *position2),
            between_added(
                *old(self),
                *final(self),
                2,
                *position1,
                *position2,
                (EdgeModel {
                    probability: probability@,
                    weight: weight,
                    error_pattern: error_pattern.view_seq(),
                    correction: correction.view_seq(),
                }),
            ),
            forall|c: int|
                0 <= c < 2 ==> #[trigger] final(self).node_at(*position1)->Some_0.channel(c)
                    == old(self).node_at(*position1)->Some_0.channel(c) && final(self).node_at(
                    *position2,
                )->Some_0.channel(c) == old(self).node_at(*position2)->Some_0.channel(c),
            all_edges_symmetric(*old(self)) ==> all_edges_symmetric(*final(self)),
    {
        self.add_edge_between_channel(
            position1,
            position2,
            probability,
            weight,
            error_pattern,
            correction,
            2,
        );
    }

    /// Adds the symmetric candidate pair in all three channels: a standard
    /// two-syndrome decoding edge.
    pub fn add_edge_between(
        &mut self,
        position1: &Position,
        position2: &Position,
        probability: Prob,
        weight: Weight,
        error_pattern: SparseErrorPattern,
        correction: SparseCorrection,
    )
        requires
            old(self).wf(),
            old(self).has_node_at(*position1),
            old(self).has_node_at(*position2),
            *position1 != *position2,
            probability.wf(),
            weight.wf(),
        ensures
            final(self).wf(),
            final(self).has_node_at(*position1),
            final(self).has_node_at(*position2),
            same_but_two(*old(self), *final(self), *position1, *position2),
            forall|c: int|
                0 <= c < 3 ==> chan_added(
                    old(self).node_at(*position1)->Some_0.channel(c),
                    final(self).node_at(*position1)->Some_0.channel(c),
                    *position2,
                    (EdgeModel {
                        probability: probability@,
                        weight: weight,
                        error_pattern: error_pattern.view_seq(),
                        correction: correction.view_seq(),
                    }),
                ) && chan_added(
                    old(self).node_at(*position2)->Some_0.channel(c),
                    final(self).node_at(*position2)->Some_0.channel(c),
                    *position1,
                    (EdgeModel {
                        probability: probability@,
                        weight: weight,
                        error_pattern: error_pattern.view_seq(),
                        correction: correction.view_seq(),
                    }),
                ),
            all_edges_symmetric(*old(self)) ==> all_edges_symmetric(*final(self)),
    {
        let ghost g0 = *self;
        let ghost em = EdgeModel {
            probability: probability@,
            weight: weight,
            error_pattern: error_pattern.view_seq(),
            correction: correction.view_seq(),
        };
        let pattern2 = clone_pattern(&error_pattern);
        let correction2 = clone_correction(&correction);
        let pattern3 = clone_pattern(&error_pattern);
        let correction3 = clone_correction(&correction);
        self.add_positive_edge_between(
            position1,
            position2,
            probability,
            weight,
            error_pattern,
            correction,
        );
        let ghost g1 = *self;
        self.add_negative_edge_between(
            position2,
            position1,
            probability,
            weight,
            pattern2,
            correction2,
        );
        let ghost g2 = *self;
        self.add_neutral_edge_between(
            position2,
            position1,
            probability,
            weight,
            pattern3,
            correction3,
        );
        let ghost g3 = *self;
        proof {
            let p1 = *position1;
            let p2 = *position2;
            assert forall|c: int|
                0 <= c < 3 implies chan_added(
                g0.node_at(p1)->Some_0.channel(c),
                g3.node_at(p1)->Some_0.channel(c),
                p2,
                em,
            ) && chan_added(
                g0.node_at(p2)->Some_0.channel(c),
                g3.node_at(p2)->Some_0.channel(c),
                p1,
                em,
            ) by {
                assert(between_added(g0, g1, 0, p1, p2, em));
                assert(between_added(g1, g2, 1, p2, p1, em));
                assert(between_added(g2, g3, 2, p2, p1, em));
                if c == 0 {
                    assert(g2.node_at(p1)->Some_0.channel(0) == g1.node_at(p1)->Some_0.channel(0));
                    assert(g3.node_at(p1)->Some_0.channel(0) == g2.node_at(p1)->Some_0.channel(0));
                    assert(g2.node_at(p2)->Some_0.channel(0) == g1.node_at(p2)->Some_0.channel(0));
                    assert(g3.node_at(p2)->Some_0.channel(0) == g2.node_at(p2)->Some_0.channel(0));
                } else if c == 1 {
                    assert(g1.node_at(p1)->Some_0.channel(1) == g0.node_at(p1)->Some_0.channel(1));
                    assert(g1.node_at(p2)->Some_0.channel(1) == g0.node_at(p2)->Some_0.channel(1));
                    assert(g3.node_at(p1)->Some_0.channel(1) == g2.node_at(p1)->Some_0.channel(1));
                    assert(g3.node_at(p2)->Some_0.channel(1) == g2.node_at(p2)->Some_0.channel(1));
                } else {
                    assert(g1.node_at(p1)->Some_0.channel(2) == g0.node_at(p1)->Some_0.channel(2));
                    assert(g1.node_at(p2)->Some_0.channel(2) == g0.node_at(p2)->Some_0.channel(2));
                    assert(g2.node_at(p1)->Some_0.channel(2) == g1.node_at(p1)->Some_0.channel(2));
                    assert(g2.node_at(p2)->Some_0.channel(2) == g1.node_at(p2)->Some_0.channel(2));
                }
            }
        }
    }

    /// Initializes the structure mirroring a simulator: an empty triple
    /// node at every true or virtual measurement event at measurement-round
    /// boundaries, and nothing anywhere else.
    pub fn new(simulator: &Simulator) -> (r: TailoredModelGraph)
        requires
            simulator.wf(),
            simulator.volume() > 0,
        ensures
            r.wf(),
            r.consistent_with(*simulator),
            r.graph_clean(),
            elected_empty(r),
            r.virtual_nodes@.len() == 0,
            r.corner_virtual_nodes@.len() == 0,
            r.unfixed_stabilizers@.len() == 0,
    {
        let height: usize = simulator.height;
        let vertical: usize = simulator.vertical;
        let horizontal: usize = simulator.horizontal;
        let mut nodes: Vec<Vec<Vec<Option<TripleTailoredModelGraphNode>>>> = Vec::new();
        let mut t: usize = 0;
        while t < height
            invariant
                t <= height,
                height == simulator.height,
                vertical == simulator.vertical,
                horizontal == simulator.horizontal,
                simulator.wf(),
                nodes@.len() == t,
                forall|a: int| 0 <= a < t ==> (#[trigger] nodes@[a])@.len() == vertical,
                forall|a: int, b: int|
                    0 <= a < t && 0 <= b < vertical ==> #[trigger] (nodes@[a])@[b]@.len()
                        == horizontal,
                forall|a: int, b: int, c: int|
                    0 <= a < t && 0 <= b < vertical && 0 <= c < horizontal ==> ((#[trigger] ((
                    nodes@[a])@[b]@[c])) is Some <==> simulator.is_graph_node(
                        (Position { t: a as usize, i: b as usize, j: c as usize }),
                    )),
                forall|a: int, b: int, c: int|
                    0 <= a < t && 0 <= b < vertical && 0 <= c < horizontal && ((
                    nodes@[a])@[b]@[c]) is Some ==> (#[trigger] ((
                    nodes@[a])@[b]@[c]))->Some_0.wf() && ((nodes@[a])@[b]@[c])->Some_0.is_empty(),
            decreases height - t,
        {
            let mut plane: Vec<Vec<Option<TripleTailoredModelGraphNode>>> = Vec::new();
            let mut i: usize = 0;
            while i < vertical
                invariant
                    t < height,
                    i <= vertical,
                    height == simulator.height,
                    vertical == simulator.vertical,
                    horizontal == simulator.horizontal,
                    simulator.wf(),
                    plane@.len() == i,
                    forall|b: int| 0 <= b < i ==> (#[trigger] plane@[b])@.len() == horizontal,
                    forall|b: int, c: int|
                        0 <= b < i && 0 <= c < horizontal ==> ((#[trigger] ((
                        plane@[b])@[c])) is Some <==> simulator.is_graph_node(
                            (Position { t: t, i: b as usize, j: c as usize }),
                        )),
                    forall|b: int, c: int|
                        0 <= b < i && 0 <= c < horizontal && ((plane@[b])@[c]) is Some
                            ==> (#[trigger] ((plane@[b])@[c]))->Some_0.wf() && ((
                        plane@[b])@[c])->Some_0.is_empty(),
                decreases vertical - i,
            {
                let mut row: Vec<Option<TripleTailoredModelGraphNode>> = Vec::new();
                let mut j: usize = 0;
                while j < horizontal
                    invariant
                        t < height,
                        i < vertical,
                        j <= horizontal,
                        height == simulator.height,
                        vertical == simulator.vertical,
                        horizontal == simulator.horizontal,
                        simulator.wf(),
                        row@.len() == j,
                        forall|c: int|
                            0 <= c < j ==> ((#[trigger] row@[c]) is Some <==> simulator.is_graph_node(
                                (Position { t: t, i: i, j: c as usize }),
                            )),
                        forall|c: int|
                            0 <= c < j && (#[trigger] row@[c]) is Some ==> row@[c]->Some_0.wf()
                                && row@[c]->Some_0.is_empty(),
                    decreases horizontal - j,
                {
                    let position = Position { t, i, j };
                    let mut cell: Option<TripleTailoredModelGraphNode> = None;
                    if t != 0 && t % simulator.measurement_cycles == 0 && simulator.is_node_exist(
                        &position,
                    ) {
                        let node = simulator.get_node_unwrap(&position);
                        if node.is_measurement {
                            cell = Some(TripleTailoredModelGraphNode::new());
                        }
                    }
                    row.push(cell);
                    j = j + 1;
                }
                plane.push(row);
                i = i + 1;
            }
            nodes.push(plane);
            t = t + 1;
        }
        let r = TailoredModelGraph {
            nodes,
            virtual_nodes: Vec::new(),
            corner_virtual_nodes: Vec::new(),
            unfixed_stabilizers: Vec::new(),
        };
        proof {
            assert forall|p: Position| simulator.in_bounds(p) implies ((#[trigger] r.node_at(
                p,
            )) is Some <==> simulator.is_graph_node(p)) by {
                assert(((r.nodes@[p.t as int])@[p.i as int])@[p.j as int] is Some
                    <==> simulator.is_graph_node(
                    (Position { t: p.t, i: p.i, j: p.j }),
                ));
                assert((Position { t: p.t, i: p.i, j: p.j }) == p);
            }
            assert forall|p: Position|
                r.pos_in_bounds(p) && (#[trigger] r.node_at(p)) is Some implies r.node_at(
                p,
            )->Some_0.wf() && r.node_at(p)->Some_0.is_empty() by {
                assert((Position { t: p.t, i: p.i, j: p.j }) == p);
            }
        }
        r
    }
}


/// Lexicographic traversal order: `p` comes before grid cell `(t, i, j)`.
pub open spec fn lex_before(p: Position, t: int, i: int, j: int) -> bool {
    (p.t as int) < t || (p.t as int == t && ((p.i as int) < i || (p.i as int == i && (p.j as int)
        < j)))
}

/// The election of an optional candidate list.
pub open spec fn elected_of(
    o: Option<Seq<EdgeModel>>,
    use_combined: bool,
    kind: WeightFunction,
) -> Option<EdgeModel> {
    match o {
        None => None,
        Some(list) => elect_spec(list, use_combined, kind),
    }
}

proof fn lemma_find_elected_some_iff(s: Seq<(Position, TailoredModelGraphEdge)>, key: Position)
    ensures
        (find_elected(s, key) is Some) <==> exists|m: int| 0 <= m < s.len() && (#[trigger] s[m]).0
            == key,
    decreases s.len(),
{
    if s.len() == 0 {
    } else {
        lemma_find_elected_some_iff(s.drop_first(), key);
        if s[0].0 == key {
        } else {
            if find_elected(s.drop_first(), key) is Some {
                let m = choose|m: int|
                    0 <= m < s.drop_first().len() && (#[trigger] s.drop_first()[m]).0 == key;
                assert(s[m + 1].0 == key);
            }
            if exists|m: int| 0 <= m < s.len() && (#[trigger] s[m]).0 == key {
                let m = choose|m: int| 0 <= m < s.len() && (#[trigger] s[m]).0 == key;
                assert(s.drop_first()[m - 1].0 == key);
            }
        }
    }
}

/// Elects the edges of one per-channel node: one elected edge per neighbor
/// with candidates. Returns false when an exactly combined probability no
/// longer fits in 64 bits.
fn elect_node_channel(
    node: &mut TailoredModelGraphNode,
    use_combined_probability: bool,
    weight_function: &WeightFunction,
) -> (ok: bool)
    requires
        old(node).wf(),
    ensures
        final(node).all_edges == old(node).all_edges,
        ok ==> final(node).wf(),
        ok ==> forall|q: Position|
            #[trigger] final(node).elected_at(q) == elected_of(
                old(node).all_at(q),
                use_combined_probability,
                *weight_function,
            ),
        ok ==> forall|q: Position|
            (#[trigger] old(node).all_at(q)) is Some ==> elected_of(
                old(node).all_at(q),
                use_combined_probability,
                *weight_function,
            ) is Some,
        !ok ==> exists|q: Position|
            (#[trigger] old(node).all_at(q)) is Some && elected_of(
                old(node).all_at(q),
                use_combined_probability,
                *weight_function,
            ) is None,
{
    node.edges = Vec::new();
    let n: usize = node.all_edges.len();
    let mut k: usize = 0;
    while k < n
        invariant
            k <= n,
            n == node.all_edges@.len(),
            node.all_edges == old(node).all_edges,
            old(node).wf(),
            node.edges@.len() == k,
            forall|m: int|
                0 <= m < k ==> (#[trigger] node.edges@[m]).0 == node.all_edges@[m].0
                    && edge_wf(node.edges@[m].1) && Some(edge_model(node.edges@[m].1))
                    == elect_spec(
                    list_model(node.all_edges@[m].1@),
                    use_combined_probability,
                    *weight_function,
                ),
        decreases n - k,
    {
        let entry_key: Position = node.all_edges[k].0;
        let elected = elect_candidate(
            &node.all_edges[k].1,
            use_combined_probability,
            weight_function,
        );
        match elected {
            Some(e) => {
                node.edges.push((entry_key, e));
            },
            None => {
                proof {
                    lemma_find_all_first_match(node.all_edges@, entry_key, k as int);
                    assert(old(node).all_at(entry_key) == Some(
                        list_model(node.all_edges@[k as int].1@),
                    ));
                }
                return false;
            },
        }
        k = k + 1;
    }
    proof {
        assert forall|q: Position| #[trigger] node.elected_at(q) == elected_of(
            old(node).all_at(q),
            use_combined_probability,
            *weight_function,
        ) by {
            lemma_find_all_some_iff(node.all_edges@, q);
            lemma_find_elected_some_iff(node.edges@, q);
            if exists|m: int| 0 <= m < node.all_edges@.len() && (#[trigger] node.all_edges@[m]).0
                == q {
                let m = choose|m: int|
                    0 <= m < node.all_edges@.len() && (#[trigger] node.all_edges@[m]).0 == q;
                assert(forall|mm: int|
                    0 <= mm < m ==> (#[trigger] node.all_edges@[mm]).0 != q);
                assert(forall|mm: int| 0 <= mm < m ==> (#[trigger] node.edges@[mm]).0 != q);
                lemma_find_all_first_match(node.all_edges@, q, m);
                lemma_find_elected_first_match(node.edges@, q, m);
            } else {
                assert(forall|mm: int|
                    0 <= mm < node.all_edges@.len() ==> (#[trigger] node.all_edges@[mm]).0 != q);
                assert(forall|mm: int|
                    0 <= mm < node.edges@.len() ==> (#[trigger] node.edges@[mm]).0 != q);
                lemma_find_all_none(node.all_edges@, q);
                lemma_find_elected_none(node.edges@, q);
            }
        }
        assert forall|q: Position| (#[trigger] old(node).all_at(q)) is Some implies elected_of(
            old(node).all_at(q),
            use_combined_probability,
            *weight_function,
        ) is Some by {
            lemma_find_all_some_iff(node.all_edges@, q);
            lemma_find_elected_some_iff(node.edges@, q);
            if exists|m: int| 0 <= m < node.all_edges@.len() && (#[trigger] node.all_edges@[m]).0
                == q {
                let m = choose|m: int|
                    0 <= m < node.all_edges@.len() && (#[trigger] node.all_edges@[m]).0 == q;
                assert(forall|mm: int|
                    0 <= mm < m ==> (#[trigger] node.all_edges@[mm]).0 != q);
                assert(forall|mm: int| 0 <= mm < m ==> (#[trigger] node.edges@[mm]).0 != q);
                lemma_find_all_first_match(node.all_edges@, q, m);
                lemma_find_elected_first_match(node.edges@, q, m);
            } else {
                assert(forall|mm: int|
                    0 <= mm < node.all_edges@.len() ==> (#[trigger] node.all_edges@[mm]).0 != q);
                assert(forall|mm: int|
                    0 <= mm < node.edges@.len() ==> (#[trigger] node.edges@[mm]).0 != q);
                lemma_find_all_none(node.all_edges@, q);
                lemma_find_elected_none(node.edges@, q);
            }
        }
        assert(elected_keys_unique(node.edges@)) by {
            assert(forall|m: int|
                0 <= m < node.edges@.len() ==> (#[trigger] node.edges@[m]).0
                    == node.all_edges@[m].0);
        }
        assert(node.wf());
    }
    true
}

impl TailoredModelGraph {
    /// Whether the structure is still clean: no candidate and no elected
    /// edge anywhere. The builder refuses to run twice on the same
    /// structure.
    pub fn is_state_clean(&self, simulator: &Simulator) -> (r: bool)
        requires
            simulator.wf(),
            self.consistent_with(*simulator),
        ensures
            r == self.graph_clean(),
    {
        let height: usize = simulator.height;
        let vertical: usize = simulator.vertical;
        let horizontal: usize = simulator.horizontal;
        let mut t: usize = 0;
        while t < height
            invariant
                t <= height,
                simulator.wf(),
                self.consistent_with(*simulator),
                height == simulator.height,
                vertical == simulator.vertical,
                horizontal == simulator.horizontal,
                forall|p: Position|
                    self.pos_in_bounds(p) && (p.t as int) < t && (#[trigger] self.node_at(
                        p,
                    )) is Some ==> self.node_at(p)->Some_0.is_empty(),
            decreases height - t,
        {
            let mut i: usize = 0;
            while i < vertical
                invariant
                    t < height,
                    i <= vertical,
                    simulator.wf(),
                    self.consistent_with(*simulator),
                    height == simulator.height,
                    vertical == simulator.vertical,
                    horizontal == simulator.horizontal,
                    forall|p: Position|
                        self.pos_in_bounds(p) && lex_before(p, t as int, i as int, 0)
                            && (#[trigger] self.node_at(p)) is Some ==> self.node_at(
                            p,
                        )->Some_0.is_empty(),
                decreases vertical - i,
            {
                let mut j: usize = 0;
                while j < horizontal
                    invariant
                        t < height,
                        i < vertical,
                        j <= horizontal,
                        simulator.wf(),
                        self.consistent_with(*simulator),
                        height == simulator.height,
                        vertical == simulator.vertical,
                        horizontal == simulator.horizontal,
                        forall|p: Position|
                            self.pos_in_bounds(p) && lex_before(p, t as int, i as int, j as int)
                                && (#[trigger] self.node_at(p)) is Some ==> self.node_at(
                                p,
                            )->Some_0.is_empty(),
                    decreases horizontal - j,
                {
                    let position = Position { t, i, j };
                    if self.is_node_exist(&position) {
                        let triple = self.get_node_unwrap(&position);
                        if triple.positive.all_edges.len() > 0 || triple.positive.edges.len() > 0
                            || triple.negative.all_edges.len() > 0 || triple.negative.edges.len()
                            > 0 || triple.neutral.all_edges.len() > 0 || triple.neutral.edges.len()
                            > 0 {
                            return false;
                        }
                    }
                    j = j + 1;
                }
                i = i + 1;
            }
            t = t + 1;
        }
        true
    }

    /// Elects one edge per neighbor from the accumulated candidate lists,
    /// in every channel of every node. Fails only when an exactly combined
    /// probability no longer fits in 64 bits.
    pub fn elect_edges(
        &mut self,
        simulator: &Simulator,
        use_combined_probability: bool,
        weight_function: &WeightFunction,
    ) -> (r: Result<(), BuildError>)
        requires
            simulator.wf(),
            old(self).consistent_with(*simulator),
            old(self).wf(),
        ensures
            final(self).consistent_with(*simulator),
            final(self).virtual_nodes == old(self).virtual_nodes,
            final(self).corner_virtual_nodes == old(self).corner_virtual_nodes,
            final(self).unfixed_stabilizers == old(self).unfixed_stabilizers,
            forall|p: Position, c: int, q: Position|
                0 <= c < 3 ==> #[trigger] chan_all(*final(self), p, c, q) == chan_all(
                    *old(self),
                    p,
                    c,
                    q,
                ),
            r is Ok ==> final(self).wf(),
            r is Ok ==> elected_matches(*final(self), use_combined_probability, *weight_function),
            r is Ok ==> forall|p: Position, c: int, q: Position|
                0 <= c < 3 && (#[trigger] chan_all(*final(self), p, c, q)) is Some
                    ==> chan_elected(*final(self), p, c, q) is Some,
            r is Err ==> r == Err::<(), BuildError>(BuildError::ProbabilityOverflow)
                && exists|p: Position, c: int, q: Position|
                0 <= c < 3 && (#[trigger] chan_all(*old(self), p, c, q)) is Some && elected_of(
                    chan_all(*old(self), p, c, q),
                    use_combined_probability,
                    *weight_function,
                ) is None,
    {
        let ghost g0 = *old(self);
        let height: usize = simulator.height;
        let vertical: usize = simulator.vertical;
        let horizontal: usize = simulator.horizontal;
        let mut t: usize = 0;
        while t < height
            invariant
                t <= height,
                simulator.wf(),
                height == simulator.height,
                vertical == simulator.vertical,
                horizontal == simulator.horizontal,
                g0 == *old(self),
                g0.consistent_with(*simulator),
                g0.wf(),
                self.consistent_with(*simulator),
                self.wf(),
                self.virtual_nodes == g0.virtual_nodes,
                self.corner_virtual_nodes == g0.corner_virtual_nodes,
                self.unfixed_stabilizers == g0.unfixed_stabilizers,
                forall|p: Position, c: int, q: Position|
                    0 <= c < 3 ==> #[trigger] chan_all(*self, p, c, q) == chan_all(g0, p, c, q),
                forall|p: Position|
                    self.pos_in_bounds(p) && !lex_before(p, t as int, 0, 0)
                        ==> #[trigger] self.node_at(p) == g0.node_at(p),
                forall|p: Position, c: int, q: Position|
                    0 <= c < 3 && lex_before(p, t as int, 0, 0) ==> #[trigger] chan_elected(
                        *self,
                        p,
                        c,
                        q,
                    ) == elected_of(
                        chan_all(g0, p, c, q),
                        use_combined_probability,
                        *weight_function,
                    ),
                forall|p: Position, c: int, q: Position|
                    0 <= c < 3 && lex_before(p, t as int, 0, 0) && (#[trigger] chan_all(
                        g0,
                        p,
                        c,
                        q,
                    )) is Some ==> chan_elected(*self, p, c, q) is Some,
            decreases height - t,
        {
            let mut i: usize = 0;
            while i < vertical
                invariant
                    t < height,
                    i <= vertical,
                    simulator.wf(),
                    height == simulator.height,
                    vertical == simulator.vertical,
                    horizontal == simulator.horizontal,
                    g0 == *old(self),
                    g0.consistent_with(*simulator),
                    g0.wf(),
                    self.consistent_with(*simulator),
                    self.wf(),
                    self.virtual_nodes == g0.virtual_nodes,
                    self.corner_virtual_nodes == g0.corner_virtual_nodes,
                    self.unfixed_stabilizers == g0.unfixed_stabilizers,
                    forall|p: Position, c: int, q: Position|
                        0 <= c < 3 ==> #[trigger] chan_all(*self, p, c, q) == chan_all(
                            g0,
                            p,
                            c,
                            q,
                        ),
                    forall|p: Position|
                        self.pos_in_bounds(p) && !lex_before(p, t as int, i as int, 0)
                            ==> #[trigger] self.node_at(p) == g0.node_at(p),
                    forall|p: Position, c: int, q: Position|
                        0 <= c < 3 && lex_before(p, t as int, i as int, 0)
                            ==> #[trigger] chan_elected(*self, p, c, q) == elected_of(
                            chan_all(g0, p, c, q),
                            use_combined_probability,
                            *weight_function,
                        ),
                    forall|p: Position, c: int, q: Position|
                        0 <= c < 3 && lex_before(p, t as int, i as int, 0) && (#[trigger] chan_all(
                            g0,
                            p,
                            c,
                            q,
                        )) is Some ==> chan_elected(*self, p, c, q) is Some,
                decreases vertical - i,
            {
                let mut j: usize = 0;
                while j < horizontal
                    invariant
                        t < height,
                        i < vertical,
                        j <= horizontal,
                        simulator.wf(),
                        height == simulator.height,
                        vertical == simulator.vertical,
                        horizontal == simulator.horizontal,
                        g0 == *old(self),
                        g0.consistent_with(*simulator),
                        g0.wf(),
                        self.consistent_with(*simulator),
                        self.wf(),
                        self.virtual_nodes == g0.virtual_nodes,
                        self.corner_virtual_nodes == g0.corner_virtual_nodes,
                        self.unfixed_stabilizers == g0.unfixed_stabilizers,
                        forall|p: Position, c: int, q: Position|
                            0 <= c < 3 ==> #[trigger] chan_all(*self, p, c, q) == chan_all(
                                g0,
                                p,
                                c,
                                q,
                            ),
                        forall|p: Position|
                            self.pos_in_bounds(p) && !lex_before(p, t as int, i as int, j as int)
                                ==> #[trigger] self.node_at(p) == g0.node_at(p),
                        forall|p: Position, c: int, q: Position|
                            0 <= c < 3 && lex_before(p, t as int, i as int, j as int)
                                ==> #[trigger] chan_elected(*self, p, c, q) == elected_of(
                                chan_all(g0, p, c, q),
                                use_combined_probability,
                                *weight_function,
                            ),
                        forall|p: Position, c: int, q: Position|
                            0 <= c < 3 && lex_before(p, t as int, i as int, j as int) && (#[trigger] chan_all(
                                g0,
                                p,
                                c,
                                q,
                            )) is Some ==> chan_elected(*self, p, c, q) is Some,
                    decreases horizontal - j,
                {
                    let position = Position { t, i, j };
                    let ghost gpre = *self;
                    if self.is_node_exist(&position) {
                        let triple = self.nodes[t][i][j].as_mut().unwrap();
                        let ghost t0 = *triple;
                        let ok1 = elect_node_channel(
                            &mut triple.positive,
                            use_combined_probability,
                            weight_function,
                        );
                        let ok2 = elect_node_channel(
                            &mut triple.negative,
                            use_combined_probability,
                            weight_function,
                        );
                        let ok3 = elect_node_channel(
                            &mut triple.neutral,
                            use_combined_probability,
                            weight_function,
                        );
                        if !(ok1 && ok2 && ok3) {
                            proof {
                                let c: int = if !ok1 {
                                    0
                                } else if !ok2 {
                                    1
                                } else {
                                    2
                                };
                                let qq = choose|q: Position|
                                    (#[trigger] t0.channel(c).all_at(q)) is Some && elected_of(
                                        t0.channel(c).all_at(q),
                                        use_combined_probability,
                                        *weight_function,
                                    ) is None;
                                assert(chan_all(gpre, position, c, qq) == t0.channel(c).all_at(qq));
                                assert(chan_all(g0, position, c, qq) is Some && elected_of(
                                    chan_all(g0, position, c, qq),
                                    use_combined_probability,
                                    *weight_function,
                                ) is None);
                                assert forall|p: Position|
                                    gpre.pos_in_bounds(p) && p != position implies #[trigger] self.node_at(
                                    p,
                                ) == gpre.node_at(p) by {
                                    if p.t != position.t {
                                    } else if p.i != position.i {
                                    } else {
                                        assert(p.j != position.j);
                                    }
                                }
                                assert forall|p: Position, cc: int, q: Position|
                                    0 <= cc < 3 implies #[trigger] chan_all(*self, p, cc, q)
                                    == chan_all(gpre, p, cc, q) by {
                                    if p == position {
                                        assert(self.node_at(p)->Some_0.channel(cc).all_edges
                                            == t0.channel(cc).all_edges);
                                    }
                                }
                                assert(self.virtual_nodes == gpre.virtual_nodes);
                                assert(self.corner_virtual_nodes == gpre.corner_virtual_nodes);
                                assert(self.unfixed_stabilizers == gpre.unfixed_stabilizers);
                                assert(gpre.virtual_nodes == g0.virtual_nodes);
                            }
                            return Err(BuildError::ProbabilityOverflow);
                        }
                        proof {
                            assert forall|p: Position|
                                gpre.pos_in_bounds(p) && p != position implies #[trigger] self.node_at(
                                p,
                            ) == gpre.node_at(p) by {
                                if p.t != position.t {
                                } else if p.i != position.i {
                                } else {
                                    assert(p.j != position.j);
                                }
                            }
                            assert forall|p: Position, c: int, q: Position|
                                0 <= c < 3 implies #[trigger] chan_all(*self, p, c, q) == chan_all(
                                gpre,
                                p,
                                c,
                                q,
                            ) by {
                                if p == position {
                                    assert(self.node_at(p)->Some_0.channel(c).all_edges
                                        == t0.channel(c).all_edges);
                                }
                            }
                            assert forall|p: Position, c: int, q: Position|
                                0 <= c < 3 && p == position implies #[trigger] chan_elected(
                                *self,
                                p,
                                c,
                                q,
                            ) == elected_of(
                                chan_all(g0, p, c, q),
                                use_combined_probability,
                                *weight_function,
                            ) by {
                                assert(self.node_at(p)->Some_0.channel(c) == (if c == 0 {
                                    self.node_at(p)->Some_0.positive
                                } else if c == 1 {
                                    self.node_at(p)->Some_0.negative
                                } else {
                                    self.node_at(p)->Some_0.neutral
                                }));
                                assert(chan_all(gpre, p, c, q) == t0.channel(c).all_at(q));
                                assert(chan_all(g0, p, c, q) == t0.channel(c).all_at(q));
                            }
                            assert forall|p: Position, c: int, q: Position|
                                0 <= c < 3 && p == position && (#[trigger] chan_all(
                                    g0,
                                    p,
                                    c,
                                    q,
                                )) is Some implies chan_elected(*self, p, c, q) is Some by {
                                assert(self.node_at(p)->Some_0.channel(c) == (if c == 0 {
                                    self.node_at(p)->Some_0.positive
                                } else if c == 1 {
                                    self.node_at(p)->Some_0.negative
                                } else {
                                    self.node_at(p)->Some_0.neutral
                                }));
                                assert(chan_all(gpre, p, c, q) == t0.channel(c).all_at(q));
                                assert(chan_all(g0, p, c, q) == t0.channel(c).all_at(q));
                                assert(elected_of(
                                    t0.channel(c).all_at(q),
                                    use_combined_probability,
                                    *weight_function,
                                ) is Some);
                            }
                            assert(self.wf()) by {
                                assert forall|p: Position|
                                    self.pos_in_bounds(p) && (#[trigger] self.node_at(
                                        p,
                                    )) is Some implies self.node_at(p)->Some_0.wf() by {
                                    if p != position {
                                        assert(self.node_at(p) == gpre.node_at(p));
                                    }
                                }
                            }
                        }
                    }
                    j = j + 1;
                }
                i = i + 1;
            }
            t = t + 1;
        }
        Ok(())
    }
}


/// The rate of a correlated error kind at a position, zero when the noise
/// model lists none.
pub open spec fn correlated_rate(
    noise: NoiseModel,
    p: Position,
    ct: crate::types::CorrelatedPauliErrorType,
) -> Prob {
    match noise.node_at(p).correlated_pauli_error_rates {
        Some(r) => r.spec_error_rate(ct),
        None => (Prob { num: 0, den: 1 }),
    }
}

/// The rate of a probed candidate error at a position.
pub open spec fn probe_rate(noise: NoiseModel, p: Position, cand: CandidateError) -> Prob {
    match cand {
        CandidateError::Elementary(et) => noise.node_at(p).pauli_error_rates.spec_error_rate(et),
        CandidateError::Correlated(ct) => correlated_rate(noise, p, ct),
    }
}

/// Whether an erasure can strike this position: its own erasure rate or
/// correlated erasure table, or a positive correlated erasure rate at its
/// gate peer.
pub open spec fn erasure_possible(sim: Simulator, noise: NoiseModel, p: Position) -> bool {
    ||| noise.node_at(p).erasure_error_rate@.0 > 0
    ||| noise.node_at(p).correlated_erasure_error_rates is Some
    ||| (match sim.node_at(p)->Some_0.gate_peer {
        Some(peer) => match noise.node_at(peer).correlated_erasure_error_rates {
            Some(r) => r.total@.0 > 0,
            None => false,
        },
        None => false,
    })
}

/// Whether the builder probes this candidate at this position: a positive
/// rate, or a possible erasure for an elementary kind.
pub open spec fn probed(sim: Simulator, noise: NoiseModel, p: Position, cand: CandidateError) -> bool {
    sim.has_node(p) && (probe_rate(noise, p, cand)@.0 > 0 || (erasure_possible(sim, noise, p)
        && cand is Elementary))
}

/// A fatal cause: a probed correlated kind at a position without a gate
/// peer.
pub open spec fn peer_missing_cause(
    sim: Simulator,
    noise: NoiseModel,
    p: Position,
    ct: crate::types::CorrelatedPauliErrorType,
) -> bool {
    &&& ct.wf()
    &&& sim.in_bounds(p)
    &&& sim.has_node(p)
    &&& correlated_rate(noise, p, ct)@.0 > 0
    &&& sim.node_at(p)->Some_0.gate_peer is None
}

/// The two syndromes of a two-syndrome response, real ones first.
pub open spec fn two_endpoints(resp: OracleResponse) -> (Position, Position) {
    if resp.real@.len() == 2 {
        (resp.real@[0], resp.real@[1])
    } else {
        (resp.real@[0], resp.virtuals@[0])
    }
}

/// A fatal cause: a probed error flips exactly two syndromes of different
/// qubit types.
pub open spec fn mismatch_cause(
    sim: Simulator,
    noise: NoiseModel,
    p: Position,
    cand: CandidateError,
) -> bool {
    &&& probe_order_has(cand)
    &&& sim.in_bounds(p)
    &&& probed(sim, noise, p, cand)
    &&& match sim.oracle_response(p, cand) {
        Some(resp) => {
            &&& resp.real@.len() >= 1
            &&& resp.real@.len() + resp.virtuals@.len() == 2
            &&& sim.node_at(two_endpoints(resp).0)->Some_0.qubit_type != sim.node_at(
                two_endpoints(resp).1,
            )->Some_0.qubit_type
        },
        None => false,
    }
}

/// Whether the fixed probe order contains this candidate kind: the three
/// elementary Pauli kinds and the fifteen correlated kinds.
pub open spec fn probe_order_has(cand: CandidateError) -> bool {
    match cand {
        CandidateError::Elementary(et) => et != ErrorType::I,
        CandidateError::Correlated(ct) => ct.wf(),
    }
}

/// The fixed probe order itself: elementary kinds first, then the
/// correlated kinds.
pub open spec fn probe_sequence() -> Seq<CandidateError> {
    seq![
        CandidateError::Elementary(ErrorType::X),
        CandidateError::Elementary(ErrorType::Z),
        CandidateError::Elementary(ErrorType::Y),
    ] + crate::types::CorrelatedPauliErrorType::all_kinds().map_values(
        |ct: crate::types::CorrelatedPauliErrorType| CandidateError::Correlated(ct),
    )
}

/// The minimal sparse error pattern the builder assembles for one probe.
pub open spec fn probe_pattern(sim: Simulator, p: Position, cand: CandidateError) -> Seq<
    (Position, ErrorType),
> {
    match cand {
        CandidateError::Elementary(et) => seq![(p, et)],
        CandidateError::Correlated(ct) => seq![
            (p, ct.my),
            (sim.node_at(p)->Some_0.gate_peer->0, ct.peer),
        ],
    }
}

/// The candidate edge one probe contributes: the originating error's rate
/// as probability, the weight recomputed from that rate, and the probe's
/// pattern and correction as payload.
pub open spec fn probe_edge_model(
    sim: Simulator,
    noise: NoiseModel,
    kind: WeightFunction,
    p: Position,
    cand: CandidateError,
) -> EdgeModel {
    EdgeModel {
        probability: probe_rate(noise, p, cand)@,
        weight: spec_weight_of(kind, probe_rate(noise, p, cand)@),
        error_pattern: probe_pattern(sim, p, cand),
        correction: sim.oracle_response(p, cand)->Some_0.correction.view_seq(),
    }
}

/// A probe that yields a standard two-syndrome decoding edge: probed in
/// the fixed order, detectable, flipping exactly two distinct syndromes of
/// equal qubit type.
pub open spec fn two_cluster_probe(
    sim: Simulator,
    noise: NoiseModel,
    p: Position,
    cand: CandidateError,
) -> bool {
    &&& probe_order_has(cand)
    &&& probed(sim, noise, p, cand)
    &&& (cand is Correlated ==> sim.node_at(p)->Some_0.gate_peer is Some)
    &&& match sim.oracle_response(p, cand) {
        Some(resp) => {
            &&& resp.real@.len() >= 1
            &&& resp.real@.len() + resp.virtuals@.len() == 2
            &&& sim.node_at(two_endpoints(resp).0)->Some_0.qubit_type == sim.node_at(
                two_endpoints(resp).1,
            )->Some_0.qubit_type
            &&& two_endpoints(resp).0 != two_endpoints(resp).1
        },
        None => false,
    }
}

/// All four flipped syndromes of a four-syndrome response, real first.
pub open spec fn cluster_positions(resp: OracleResponse) -> Seq<Position> {
    resp.real@ + resp.virtuals@
}

/// A probe that yields a tailored four-syndrome cluster: probed in the
/// fixed order, detectable, flipping exactly four syndromes whose
/// geometric roles resolve.
pub open spec fn four_cluster_probe(
    sim: Simulator,
    noise: NoiseModel,
    p: Position,
    cand: CandidateError,
) -> bool {
    &&& probe_order_has(cand)
    &&& probed(sim, noise, p, cand)
    &&& (cand is Correlated ==> sim.node_at(p)->Some_0.gate_peer is Some)
    &&& match sim.oracle_response(p, cand) {
        Some(resp) => {
            &&& resp.real@.len() >= 1
            &&& resp.real@.len() + resp.virtuals@.len() == 4
            &&& spec_cluster_roles(sim, cluster_positions(resp)) is Some
        },
        None => false,
    }
}

/// The directed pairs a resolved cluster inserts: up-right and left-down
/// in the positive channel, left-up and down-right in the negative
/// channel, both directions each, and nothing in the neutral channel.
pub open spec fn cluster_pair(
    roles: (Position, Position, Position, Position),
    c: int,
    a: Position,
    b: Position,
) -> bool {
    if c == 0 {
        (a == roles.0 && b == roles.3) || (a == roles.3 && b == roles.0) || (a == roles.2 && b
            == roles.1) || (a == roles.1 && b == roles.2)
    } else if c == 1 {
        (a == roles.2 && b == roles.0) || (a == roles.0 && b == roles.2) || (a == roles.1 && b
            == roles.3) || (a == roles.3 && b == roles.1)
    } else {
        false
    }
}

/// The two-syndrome candidate of a probe stands in the lists of both its
/// endpoints in every channel.
pub open spec fn two_cluster_edges_present(
    g: TailoredModelGraph,
    sim: Simulator,
    noise: NoiseModel,
    kind: WeightFunction,
    p: Position,
    cand: CandidateError,
) -> bool {
    let resp = sim.oracle_response(p, cand)->Some_0;
    let a = two_endpoints(resp).0;
    let b = two_endpoints(resp).1;
    let em = probe_edge_model(sim, noise, kind, p, cand);
    forall|c: int|
        0 <= c < 3 ==> (#[trigger] chan_all(g, a, c, b)) is Some && chan_all(
            g,
            a,
            c,
            b,
        )->Some_0.contains(em) && chan_all(g, b, c, a) is Some && chan_all(
            g,
            b,
            c,
            a,
        )->Some_0.contains(em)
}

/// The four-syndrome candidate of a probe stands in the lists of every
/// directed pair its resolved roles dictate.
pub open spec fn four_cluster_edges_present(
    g: TailoredModelGraph,
    sim: Simulator,
    noise: NoiseModel,
    kind: WeightFunction,
    p: Position,
    cand: CandidateError,
) -> bool {
    let resp = sim.oracle_response(p, cand)->Some_0;
    let roles = spec_cluster_roles(sim, cluster_positions(resp))->Some_0;
    let em = probe_edge_model(sim, noise, kind, p, cand);
    forall|a: Position, b: Position, c: int|
        #[trigger] cluster_pair(roles, c, a, b) ==> chan_all(g, a, c, b) is Some && chan_all(
            g,
            a,
            c,
            b,
        )->Some_0.contains(em)
}

/// The stored candidate at one index of one list.
pub open spec fn stored_candidate(
    g: TailoredModelGraph,
    a: Position,
    c: int,
    b: Position,
    k: int,
) -> EdgeModel {
    chan_all(g, a, c, b)->Some_0[k]
}

/// One probe explains one stored candidate between two endpoints in one
/// channel.
pub open spec fn generates_at(
    sim: Simulator,
    noise: NoiseModel,
    kind: WeightFunction,
    p: Position,
    cand: CandidateError,
    a: Position,
    c: int,
    b: Position,
    em: EdgeModel,
) -> bool {
    ||| {
        &&& two_cluster_probe(sim, noise, p, cand)
        &&& em == probe_edge_model(sim, noise, kind, p, cand)
        &&& {
            let ep = two_endpoints(sim.oracle_response(p, cand)->Some_0);
            ep == (a, b) || ep == (b, a)
        }
    }
    ||| {
        &&& four_cluster_probe(sim, noise, p, cand)
        &&& em == probe_edge_model(sim, noise, kind, p, cand)
        &&& cluster_pair(
            spec_cluster_roles(sim, cluster_positions(sim.oracle_response(p, cand)->Some_0))->Some_0,
            c,
            a,
            b,
        )
    }
}

/// Every stored candidate arises from some probe of the fixed order.
pub open spec fn edge_generated(
    sim: Simulator,
    noise: NoiseModel,
    kind: WeightFunction,
    a: Position,
    c: int,
    b: Position,
    em: EdgeModel,
) -> bool {
    exists|p: Position, cand: CandidateError|
        #[trigger] generates_at(sim, noise, kind, p, cand, a, c, b, em)
}

/// Appending keeps every element of a candidate list, and adds the new
/// one.
proof fn lemma_push_keeps_contains(s: Seq<EdgeModel>, x: EdgeModel)
    ensures
        forall|e: EdgeModel| s.contains(e) ==> #[trigger] s.push(x).contains(e),
        s.push(x).contains(x),
{
    assert forall|e: EdgeModel| s.contains(e) implies #[trigger] s.push(x).contains(e) by {
        let i = choose|i: int| 0 <= i < s.len() && s[i] == e;
        assert(s.push(x)[i] == e);
    }
    assert(s.push(x)[s.len() as int] == x);
}

/// Every listed correlated kind is well-formed.
proof fn lemma_all_kinds_wf(m: int)
    requires
        0 <= m < 15,
    ensures
        crate::types::CorrelatedPauliErrorType::all_kinds()[m].wf(),
{
    let ks = crate::types::CorrelatedPauliErrorType::all_kinds();
    if m == 0 {
        assert(ks[0].wf());
    } else if m == 1 {
        assert(ks[1].wf());
    } else if m == 2 {
        assert(ks[2].wf());
    } else if m == 3 {
        assert(ks[3].wf());
    } else if m == 4 {
        assert(ks[4].wf());
    } else if m == 5 {
        assert(ks[5].wf());
    } else if m == 6 {
        assert(ks[6].wf());
    } else if m == 7 {
        assert(ks[7].wf());
    } else if m == 8 {
        assert(ks[8].wf());
    } else if m == 9 {
        assert(ks[9].wf());
    } else if m == 10 {
        assert(ks[10].wf());
    } else if m == 11 {
        assert(ks[11].wf());
    } else if m == 12 {
        assert(ks[12].wf());
    } else if m == 13 {
        assert(ks[13].wf());
    } else {
        assert(ks[14].wf());
    }
}

/// The fixed probe order lists every candidate kind it should, each a
/// well-formed kind.
proof fn lemma_probe_sequence_complete(cand: CandidateError)
    requires
        probe_order_has(cand),
    ensures
        exists|ki: int| 0 <= ki < probe_sequence().len() && probe_sequence()[ki] == cand,
{
    let ks = crate::types::CorrelatedPauliErrorType::all_kinds();
    match cand {
        CandidateError::Elementary(et) => {
            match et {
                ErrorType::X => {
                    assert(probe_sequence()[0] == cand);
                },
                ErrorType::Z => {
                    assert(probe_sequence()[1] == cand);
                },
                ErrorType::Y => {
                    assert(probe_sequence()[2] == cand);
                },
                ErrorType::I => {},
            }
        },
        CandidateError::Correlated(ct) => {
            assert(exists|m: int| 0 <= m < 15 && ks[m] == ct) by {
                if ct.my == ErrorType::I {
                    if ct.peer == ErrorType::X {
                        assert(ks[0] == ct);
                    } else if ct.peer == ErrorType::Z {
                        assert(ks[1] == ct);
                    } else {
                        assert(ks[2] == ct);
                    }
                } else if ct.my == ErrorType::X {
                    if ct.peer == ErrorType::I {
                        assert(ks[3] == ct);
                    } else if ct.peer == ErrorType::X {
                        assert(ks[4] == ct);
                    } else if ct.peer == ErrorType::Z {
                        assert(ks[5] == ct);
                    } else {
                        assert(ks[6] == ct);
                    }
                } else if ct.my == ErrorType::Z {
                    if ct.peer == ErrorType::I {
                        assert(ks[7] == ct);
                    } else if ct.peer == ErrorType::X {
                        assert(ks[8] == ct);
                    } else if ct.peer == ErrorType::Z {
                        assert(ks[9] == ct);
                    } else {
                        assert(ks[10] == ct);
                    }
                } else {
                    if ct.peer == ErrorType::I {
                        assert(ks[11] == ct);
                    } else if ct.peer == ErrorType::X {
                        assert(ks[12] == ct);
                    } else if ct.peer == ErrorType::Z {
                        assert(ks[13] == ct);
                    } else {
                        assert(ks[14] == ct);
                    }
                }
            }
            let m = choose|m: int| 0 <= m < 15 && ks[m] == ct;
            assert(probe_sequence()[m + 3] == cand);
        },
    }
}

/// A witness that a stabilizer is unfixed: some elementary error at some
/// position has rate exactly one half and flips exactly one real and one
/// virtual syndrome, the real one at `p`.
pub open spec fn unfixed_witness(
    sim: Simulator,
    noise: NoiseModel,
    p: Position,
    q: Position,
    et: ErrorType,
) -> bool {
    &&& sim.in_bounds(q)
    &&& crate::prob::frac_eqv(
        noise.node_at(q).pauli_error_rates.spec_error_rate(et)@,
        (1int, 2int),
    )
    &&& match sim.oracle_response(q, CandidateError::Elementary(et)) {
        Some(resp) => resp.real@.len() == 1 && resp.virtuals@.len() == 1 && resp.real@[0] == p,
        None => false,
    }
}

/// The elementary kinds probed by the unfixed-stabilizer scan, in order.
pub open spec fn elementary_sequence() -> Seq<ErrorType> {
    seq![ErrorType::X, ErrorType::Z, ErrorType::Y]
}

/// One unfixed-stabilizer probe: when the rate is exactly one half and the
/// response flips one real and one virtual syndrome, the real syndrome is
/// recorded once.
pub open spec fn unfixed_step(
    sim: Simulator,
    noise: NoiseModel,
    acc: Seq<Position>,
    q: Position,
    et: ErrorType,
) -> Seq<Position> {
    if crate::prob::frac_eqv(
        noise.node_at(q).pauli_error_rates.spec_error_rate(et)@,
        (1int, 2int),
    ) {
        match sim.oracle_response(q, CandidateError::Elementary(et)) {
            Some(resp) => if resp.real@.len() == 1 && resp.virtuals@.len() == 1 && !acc.contains(
                resp.real@[0],
            ) {
                acc.push(resp.real@[0])
            } else {
                acc
            },
            None => acc,
        }
    } else {
        acc
    }
}

/// The scan's state after the first `e` elementary kinds at one cell.
pub open spec fn unfixed_cell(
    sim: Simulator,
    noise: NoiseModel,
    acc: Seq<Position>,
    q: Position,
    e: int,
) -> Seq<Position>
    decreases e,
{
    if e <= 0 {
        acc
    } else {
        unfixed_step(
            sim,
            noise,
            unfixed_cell(sim, noise, acc, q, e - 1),
            q,
            elementary_sequence()[e - 1],
        )
    }
}

/// The scan's state after the first `jj` cells of one row.
pub open spec fn unfixed_row(
    sim: Simulator,
    noise: NoiseModel,
    acc: Seq<Position>,
    tt: int,
    ii: int,
    jj: int,
) -> Seq<Position>
    decreases jj,
{
    if jj <= 0 {
        acc
    } else {
        unfixed_cell(
            sim,
            noise,
            unfixed_row(sim, noise, acc, tt, ii, jj - 1),
            (Position { t: tt as usize, i: ii as usize, j: (jj - 1) as usize }),
            3,
        )
    }
}

/// The scan's state after the first `ii` rows of one round.
pub open spec fn unfixed_plane(
    sim: Simulator,
    noise: NoiseModel,
    acc: Seq<Position>,
    tt: int,
    ii: int,
) -> Seq<Position>
    decreases ii,
{
    if ii <= 0 {
        acc
    } else {
        unfixed_row(
            sim,
            noise,
            unfixed_plane(sim, noise, acc, tt, ii - 1),
            tt,
            ii - 1,
            sim.horizontal as int,
        )
    }
}

/// The scan's state after the first `tt` rounds.
pub open spec fn unfixed_rounds(
    sim: Simulator,
    noise: NoiseModel,
    acc: Seq<Position>,
    tt: int,
) -> Seq<Position>
    decreases tt,
{
    if tt <= 0 {
        acc
    } else {
        unfixed_plane(
            sim,
            noise,
            unfixed_rounds(sim, noise, acc, tt - 1),
            tt - 1,
            sim.vertical as int,
        )
    }
}

/// The full unfixed-stabilizer vector one scan records, in traversal
/// order with first occurrences kept.
pub open spec fn unfixed_sequence(sim: Simulator, noise: NoiseModel) -> Seq<Position> {
    unfixed_rounds(sim, noise, Seq::empty(), sim.height as int)
}

/// The index of an elementary kind in the fixed probe order.
pub open spec fn et_index(et: ErrorType) -> int {
    match et {
        ErrorType::X => 0,
        ErrorType::Z => 1,
        ErrorType::Y => 2,
        ErrorType::I => 3,
    }
}

/// Whether a vector of positions holds one.
fn contains_position(v: &Vec<Position>, p: &Position) -> (r: bool)
    ensures
        r == v@.contains(*p),
{
    let n: usize = v.len();
    let mut k: usize = 0;
    while k < n
        invariant
            k <= n,
            n == v@.len(),
            forall|m: int| 0 <= m < k ==> v@[m] != *p,
        decreases n - k,
    {
        if v[k] == *p {
            return true;
        }
        k = k + 1;
    }
    false
}

impl TailoredModelGraph {
    /// Marks every stabilizer triggered with probability exactly one half
    /// by some local elementary error: such a syndrome carries no
    /// directional information and must be matchable by either parity.
    /// Clears and rebuilds the set, so calling it again gives the same
    /// result; leaves the simulator free of installed errors.
    pub fn compute_unfixed_stabilizers(
        &mut self,
        simulator: &mut Simulator,
        noise_model: &NoiseModel,
    )
        requires
            old(simulator).wf(),
            noise_model.wf(),
            noise_model.dims_match(*old(simulator)),
        ensures
            final(self).nodes == old(self).nodes,
            final(self).virtual_nodes == old(self).virtual_nodes,
            final(self).corner_virtual_nodes == old(self).corner_virtual_nodes,
            forall|p: Position|
                final(self).unfixed_stabilizers@.contains(p) <==> exists|q: Position, et: ErrorType|
                    unfixed_witness(*old(simulator), *noise_model, p, q, et),
            forall|k: int, l: int|
                0 <= k < l < final(self).unfixed_stabilizers@.len()
                    ==> #[trigger] final(self).unfixed_stabilizers@[k]
                    != #[trigger] final(self).unfixed_stabilizers@[l],
            final(self).unfixed_stabilizers@ == unfixed_sequence(*old(simulator), *noise_model),
            final(simulator).installed_errors.view_seq() =~= Seq::<
                (Position, ErrorType),
            >::empty(),
            final(simulator).height == old(simulator).height,
            final(simulator).vertical == old(simulator).vertical,
            final(simulator).horizontal == old(simulator).horizontal,
            final(simulator).measurement_cycles == old(simulator).measurement_cycles,
            final(simulator).nodes == old(simulator).nodes,
            final(simulator).responses == old(simulator).responses,
    {
        let ets = ErrorType::all_possible_errors();
        simulator.clear_all_errors();
        let ghost sim0 = *old(simulator);
        proof {
            crate::simulator::lemma_wf_ignores_installed_errors(sim0, *simulator);
        }
        let mut acc: Vec<Position> = Vec::new();
        let height: usize = simulator.height;
        let vertical: usize = simulator.vertical;
        let horizontal: usize = simulator.horizontal;
        let mut t: usize = 0;
        while t < height
            invariant
                t <= height,
                height == simulator.height,
                vertical == simulator.vertical,
                horizontal == simulator.horizontal,
                simulator.wf(),
                simulator.nodes == sim0.nodes,
                simulator.responses == sim0.responses,
                simulator.height == sim0.height,
                simulator.vertical == sim0.vertical,
                simulator.horizontal == sim0.horizontal,
                simulator.measurement_cycles == sim0.measurement_cycles,
                simulator.installed_errors.view_seq() =~= Seq::<(Position, ErrorType)>::empty(),
                noise_model.wf(),
                noise_model.dims_match(*simulator),
                ets@ =~= seq![ErrorType::X, ErrorType::Z, ErrorType::Y],
                forall|k: int, l: int|
                    0 <= k < l < acc@.len() ==> #[trigger] acc@[k] != #[trigger] acc@[l],
                acc@ == unfixed_rounds(sim0, *noise_model, Seq::empty(), t as int),
                forall|p: Position|
                    acc@.contains(p) <==> exists|q: Position, et: ErrorType|
                        unfixed_witness(sim0, *noise_model, p, q, et) && lex_before(
                            q,
                            t as int,
                            0,
                            0,
                        ),
            decreases height - t,
        {
            let mut i: usize = 0;
            while i < vertical
                invariant
                    t < height,
                    i <= vertical,
                    height == simulator.height,
                    vertical == simulator.vertical,
                    horizontal == simulator.horizontal,
                    simulator.wf(),
                    simulator.nodes == sim0.nodes,
                    simulator.responses == sim0.responses,
                    simulator.height == sim0.height,
                    simulator.vertical == sim0.vertical,
                    simulator.horizontal == sim0.horizontal,
                    simulator.measurement_cycles == sim0.measurement_cycles,
                    simulator.installed_errors.view_seq() =~= Seq::<
                        (Position, ErrorType),
                    >::empty(),
                    noise_model.wf(),
                    noise_model.dims_match(*simulator),
                    ets@ =~= seq![ErrorType::X, ErrorType::Z, ErrorType::Y],
                    forall|k: int, l: int|
                        0 <= k < l < acc@.len() ==> #[trigger] acc@[k] != #[trigger] acc@[l],
                    acc@ == unfixed_plane(
                        sim0,
                        *noise_model,
                        unfixed_rounds(sim0, *noise_model, Seq::empty(), t as int),
                        t as int,
                        i as int,
                    ),
                    forall|p: Position|
                        acc@.contains(p) <==> exists|q: Position, et: ErrorType|
                            unfixed_witness(sim0, *noise_model, p, q, et) && lex_before(
                                q,
                                t as int,
                                i as int,
                                0,
                            ),
                decreases vertical - i,
            {
                let mut j: usize = 0;
                while j < horizontal
                    invariant
                        t < height,
                        i < vertical,
                        j <= horizontal,
                        height == simulator.height,
                        vertical == simulator.vertical,
                        horizontal == simulator.horizontal,
                        simulator.wf(),
                        simulator.nodes == sim0.nodes,
                        simulator.responses == sim0.responses,
                        simulator.height == sim0.height,
                        simulator.vertical == sim0.vertical,
                        simulator.horizontal == sim0.horizontal,
                        simulator.measurement_cycles == sim0.measurement_cycles,
                        simulator.installed_errors.view_seq() =~= Seq::<
                            (Position, ErrorType),
                        >::empty(),
                        noise_model.wf(),
                        noise_model.dims_match(*simulator),
                        ets@ =~= seq![ErrorType::X, ErrorType::Z, ErrorType::Y],
                        forall|k: int, l: int|
                            0 <= k < l < acc@.len() ==> #[trigger] acc@[k] != #[trigger] acc@[l],
                        acc@ == unfixed_row(
                            sim0,
                            *noise_model,
                            unfixed_plane(
                                sim0,
                                *noise_model,
                                unfixed_rounds(sim0, *noise_model, Seq::empty(), t as int),
                                t as int,
                                i as int,
                            ),
                            t as int,
                            i as int,
                            j as int,
                        ),
                        forall|p: Position|
                            acc@.contains(p) <==> exists|q: Position, et: ErrorType|
                                unfixed_witness(sim0, *noise_model, p, q, et) && lex_before(
                                    q,
                                    t as int,
                                    i as int,
                                    j as int,
                                ),
                    decreases horizontal - j,
                {
                    let position = Position { t, i, j };
                    let mut e: usize = 0;
                    while e < 3
                        invariant
                            t < height,
                            i < vertical,
                            j < horizontal,
                            e <= 3,
                            height == simulator.height,
                            vertical == simulator.vertical,
                            horizontal == simulator.horizontal,
                            position == (Position { t, i, j }),
                            simulator.wf(),
                            simulator.nodes == sim0.nodes,
                            simulator.responses == sim0.responses,
                            simulator.height == sim0.height,
                            simulator.vertical == sim0.vertical,
                            simulator.horizontal == sim0.horizontal,
                            simulator.measurement_cycles == sim0.measurement_cycles,
                            simulator.installed_errors.view_seq() =~= Seq::<
                                (Position, ErrorType),
                            >::empty(),
                            noise_model.wf(),
                            noise_model.dims_match(*simulator),
                            ets@ =~= seq![ErrorType::X, ErrorType::Z, ErrorType::Y],
                            forall|k: int, l: int|
                                0 <= k < l < acc@.len() ==> #[trigger] acc@[k] != #[trigger] acc@[l],
                            acc@ == unfixed_cell(
                                sim0,
                                *noise_model,
                                unfixed_row(
                                    sim0,
                                    *noise_model,
                                    unfixed_plane(
                                        sim0,
                                        *noise_model,
                                        unfixed_rounds(sim0, *noise_model, Seq::empty(), t as int),
                                        t as int,
                                        i as int,
                                    ),
                                    t as int,
                                    i as int,
                                    j as int,
                                ),
                                position,
                                e as int,
                            ),
                            forall|p: Position|
                                acc@.contains(p) <==> exists|q: Position, et: ErrorType|
                                    unfixed_witness(sim0, *noise_model, p, q, et) && (lex_before(
                                        q,
                                        t as int,
                                        i as int,
                                        j as int,
                                    ) || (q == position && et_index(et) < e)),
                        decreases 3 - e,
                    {
                        let et: ErrorType = ets[e];
                        let ghost acc_entry = acc@;
                        proof {
                            assert(et_index(ets@[e as int]) == e as int);
                            assert(ets@[e as int] == elementary_sequence()[e as int]);
                        }
                        let noise_node = noise_model.get_node_unwrap(&position);
                        let rate = noise_node.pauli_error_rates.error_rate(&et);
                        let ghost acc0 = acc@;
                        if rate.is_half() {
                            let cand = CandidateError::Elementary(et);
                            match simulator.fast_measurement_given_few_errors(&position, &cand) {
                                Some(resp) => {
                                    if resp.real.len() == 1 && resp.virtuals.len() == 1 {
                                        let p0: Position = resp.real[0];
                                        proof {
                                            assert(unfixed_witness(
                                                sim0,
                                                *noise_model,
                                                p0,
                                                position,
                                                et,
                                            ));
                                        }
                                        if !contains_position(&acc, &p0) {
                                            acc.push(p0);
                                            proof {
                                                assert(acc@[acc@.len() - 1] == p0);
                                                assert(forall|m: int|
                                                    0 <= m < acc0.len() ==> acc@[m] == acc0[m]);
                                            }
                                        }
                                    }
                                },
                                None => {},
                            }
                        }
                        proof {
                            assert forall|p: Position| acc@.contains(p) <==> exists|
                                q: Position,
                                et2: ErrorType,
                            |
                                unfixed_witness(sim0, *noise_model, p, q, et2) && (lex_before(
                                    q,
                                    t as int,
                                    i as int,
                                    j as int,
                                ) || (q == position && et_index(et2) < e + 1)) by {
                                if acc@.contains(p) {
                                    if acc0.contains(p) {
                                    } else {
                                        assert(unfixed_witness(sim0, *noise_model, p, position, et));
                                        assert(et_index(et) < e + 1);
                                    }
                                } else {
                                    if exists|q: Position, et2: ErrorType|
                                        unfixed_witness(sim0, *noise_model, p, q, et2) && (
                                        lex_before(q, t as int, i as int, j as int) || (q
                                            == position && et_index(et2) < e + 1)) {
                                        let (q, et2) = choose|q: Position, et2: ErrorType|
                                            unfixed_witness(sim0, *noise_model, p, q, et2) && (
                                            lex_before(q, t as int, i as int, j as int) || (q
                                                == position && et_index(et2) < e + 1));
                                        if lex_before(q, t as int, i as int, j as int) || (q
                                            == position && et_index(et2) < e) {
                                            assert(acc0.contains(p));
                                            assert(acc@.contains(p));
                                        } else {
                                            assert(q == position && et2 == et);
                                            assert(acc@.contains(p));
                                        }
                                    }
                                }
                            }
                        }
                        proof {
                            assert(acc@ == unfixed_step(
                                sim0,
                                *noise_model,
                                acc_entry,
                                position,
                                elementary_sequence()[e as int],
                            ));
                        }
                        e = e + 1;
                    }
                    proof {
                        assert forall|p: Position| acc@.contains(p) <==> exists|
                            q: Position,
                            et2: ErrorType,
                        |
                            unfixed_witness(sim0, *noise_model, p, q, et2) && lex_before(
                                q,
                                t as int,
                                i as int,
                                j as int + 1,
                            ) by {
                            if acc@.contains(p) {
                                let (q, et2) = choose|q: Position, et2: ErrorType|
                                    unfixed_witness(sim0, *noise_model, p, q, et2) && (lex_before(
                                        q,
                                        t as int,
                                        i as int,
                                        j as int,
                                    ) || (q == position && et_index(et2) < 3));
                                assert(lex_before(q, t as int, i as int, j as int + 1));
                            } else {
                                if exists|q: Position, et2: ErrorType|
                                    unfixed_witness(sim0, *noise_model, p, q, et2) && lex_before(
                                        q,
                                        t as int,
                                        i as int,
                                        j as int + 1,
                                    ) {
                                    let (q, et2) = choose|q: Position, et2: ErrorType|
                                        unfixed_witness(sim0, *noise_model, p, q, et2)
                                            && lex_before(q, t as int, i as int, j as int + 1);
                                    if q == position {
                                        assert(et_index(et2) < 3) by {
                                            match et2 {
                                                ErrorType::I => {
                                                    assert(!crate::prob::frac_eqv(
                                                        (0int, 1int),
                                                        (1int, 2int),
                                                    ));
                                                },
                                                _ => {},
                                            }
                                        }
                                    }
                                    assert(acc@.contains(p));
                                }
                            }
                        }
                    }
                    j = j + 1;
                }
                proof {
                    assert forall|q: Position|
                        simulator.in_bounds(q) implies (lex_before(
                        q,
                        t as int,
                        i as int,
                        horizontal as int,
                    ) == lex_before(q, t as int, i as int + 1, 0)) by {}
                    assert forall|p: Position| acc@.contains(p) <==> exists|
                        q: Position,
                        et2: ErrorType,
                    |
                        unfixed_witness(sim0, *noise_model, p, q, et2) && lex_before(
                            q,
                            t as int,
                            i as int + 1,
                            0,
                        ) by {
                        if acc@.contains(p) {
                            let (q, et2) = choose|q: Position, et2: ErrorType|
                                unfixed_witness(sim0, *noise_model, p, q, et2) && lex_before(
                                    q,
                                    t as int,
                                    i as int,
                                    horizontal as int,
                                );
                            assert(q.j < horizontal);
                            assert(lex_before(q, t as int, i as int + 1, 0));
                        } else {
                            if exists|q: Position, et2: ErrorType|
                                unfixed_witness(sim0, *noise_model, p, q, et2) && lex_before(
                                    q,
                                    t as int,
                                    i as int + 1,
                                    0,
                                ) {
                                let (q, et2) = choose|q: Position, et2: ErrorType|
                                    unfixed_witness(sim0, *noise_model, p, q, et2) && lex_before(
                                        q,
                                        t as int,
                                        i as int + 1,
                                        0,
                                    );
                                assert(q.j < horizontal);
                                assert(lex_before(q, t as int, i as int, horizontal as int));
                                assert(acc@.contains(p));
                            }
                        }
                    }
                }
                i = i + 1;
            }
            proof {
                assert forall|p: Position| acc@.contains(p) <==> exists|
                    q: Position,
                    et2: ErrorType,
                |
                    unfixed_witness(sim0, *noise_model, p, q, et2) && lex_before(
                        q,
                        t as int + 1,
                        0,
                        0,
                    ) by {
                    if acc@.contains(p) {
                        let (q, et2) = choose|q: Position, et2: ErrorType|
                            unfixed_witness(sim0, *noise_model, p, q, et2) && lex_before(
                                q,
                                t as int,
                                vertical as int,
                                0,
                            );
                        assert(q.i < vertical);
                        assert(lex_before(q, t as int + 1, 0, 0));
                    } else {
                        if exists|q: Position, et2: ErrorType|
                            unfixed_witness(sim0, *noise_model, p, q, et2) && lex_before(
                                q,
                                t as int + 1,
                                0,
                                0,
                            ) {
                            let (q, et2) = choose|q: Position, et2: ErrorType|
                                unfixed_witness(sim0, *noise_model, p, q, et2) && lex_before(
                                    q,
                                    t as int + 1,
                                    0,
                                    0,
                                );
                            assert(q.i < vertical);
                            assert(lex_before(q, t as int, vertical as int, 0));
                            assert(acc@.contains(p));
                        }
                    }
                }
            }
            t = t + 1;
        }
        proof {
            assert forall|p: Position| acc@.contains(p) <==> exists|q: Position, et2: ErrorType|
                unfixed_witness(sim0, *noise_model, p, q, et2) by {
                if acc@.contains(p) {
                } else {
                    if exists|q: Position, et2: ErrorType|
                        unfixed_witness(sim0, *noise_model, p, q, et2) {
                        let (q, et2) = choose|q: Position, et2: ErrorType|
                            unfixed_witness(sim0, *noise_model, p, q, et2);
                        assert(q.t < height);
                        assert(lex_before(q, height as int, 0, 0));
                        assert(acc@.contains(p));
                    }
                }
            }
        }
        self.unfixed_stabilizers = acc;
    }
}




/// Whether a candidate stands among the first `ce` entries of the probe
/// order.
pub open spec fn cand_before(cand: CandidateError, ce: int) -> bool {
    exists|ki: int| 0 <= ki < ce && #[trigger] probe_sequence()[ki] == cand
}

/// The index scan is a function of the condition's values alone.
proof fn lemma_last_cond_index_ext(c1: spec_fn(int) -> bool, c2: spec_fn(int) -> bool, n: int)
    requires
        forall|x: int| 0 <= x < n ==> #[trigger] c1(x) == c2(x),
    ensures
        last_cond_index(c1, n) == last_cond_index(c2, n),
    decreases n,
{
    if n > 0 {
        lemma_last_cond_index_ext(c1, c2, n - 1);
    }
}

/// Role resolution reads only the node grid, not the installed errors.
proof fn lemma_cluster_roles_ignore_installed(s1: Simulator, s2: Simulator, ms: Seq<Position>)
    requires
        s2.nodes == s1.nodes,
        ms.len() == 4,
    ensures
        spec_cluster_roles(s2, ms) == spec_cluster_roles(s1, ms),
{
    assert forall|x: int| 0 <= x < 4 implies #[trigger] cond_up(s1, ms, x) == cond_up(
        s2,
        ms,
        x,
    ) && cond_down(s1, ms, x) == cond_down(s2, ms, x) && cond_left(s1, ms, x) == cond_left(
        s2,
        ms,
        x,
    ) && cond_right(s1, ms, x) == cond_right(s2, ms, x) by {
        assert(s1.node_at(ms[x]) == s2.node_at(ms[x]));
    }
    lemma_last_cond_index_ext(
        |x: int| cond_up(s1, ms, x),
        |x: int| cond_up(s2, ms, x),
        4,
    );
    lemma_last_cond_index_ext(
        |x: int| cond_down(s1, ms, x),
        |x: int| cond_down(s2, ms, x),
        4,
    );
    lemma_last_cond_index_ext(
        |x: int| cond_left(s1, ms, x),
        |x: int| cond_left(s2, ms, x),
        4,
    );
    lemma_last_cond_index_ext(
        |x: int| cond_right(s1, ms, x),
        |x: int| cond_right(s2, ms, x),
        4,
    );
}

/// One symmetric insertion of a generated candidate: the soundness
/// invariant survives, every previously stored candidate survives, and
/// the new candidate stands at both endpoints.
proof fn lemma_insert_step(
    gpre: TailoredModelGraph,
    gpost: TailoredModelGraph,
    sim0: Simulator,
    noise: NoiseModel,
    kind: WeightFunction,
    p1: Position,
    p2: Position,
    all_channels: bool,
    idx: int,
    em: EdgeModel,
    pp: Position,
    cand: CandidateError,
)
    requires
        0 <= idx < 3,
        forall|a: Position, c: int, b: Position|
            0 <= c < 3 ==> #[trigger] chan_all(gpost, a, c, b) == (if (all_channels || c == idx)
                && ((a == p1 && b == p2) || (a == p2 && b == p1)) {
                Some(push_model(chan_all(gpre, a, c, b), em))
            } else {
                chan_all(gpre, a, c, b)
            }),
        forall|a: Position, c: int, b: Position, k: int|
            0 <= c < 3 && (chan_all(gpre, a, c, b)) is Some && 0 <= k < chan_all(
                gpre,
                a,
                c,
                b,
            )->Some_0.len() ==> edge_generated(
                sim0,
                noise,
                kind,
                a,
                c,
                b,
                #[trigger] stored_candidate(gpre, a, c, b, k),
            ),
        forall|c: int|
            0 <= c < 3 && (all_channels || c == idx) ==> #[trigger] generates_at(
                sim0,
                noise,
                kind,
                pp,
                cand,
                p1,
                c,
                p2,
                em,
            ) && generates_at(sim0, noise, kind, pp, cand, p2, c, p1, em),
    ensures
        forall|a: Position, c: int, b: Position, k: int|
            0 <= c < 3 && (chan_all(gpost, a, c, b)) is Some && 0 <= k < chan_all(
                gpost,
                a,
                c,
                b,
            )->Some_0.len() ==> edge_generated(
                sim0,
                noise,
                kind,
                a,
                c,
                b,
                #[trigger] stored_candidate(gpost, a, c, b, k),
            ),
        forall|a: Position, c: int, b: Position, e: EdgeModel|
            0 <= c < 3 && (chan_all(gpre, a, c, b)) is Some && #[trigger] chan_all(
                gpre,
                a,
                c,
                b,
            )->Some_0.contains(e) ==> chan_all(gpost, a, c, b) is Some && chan_all(
                gpost,
                a,
                c,
                b,
            )->Some_0.contains(e),
        forall|c: int|
            0 <= c < 3 && (all_channels || c == idx) ==> (#[trigger] chan_all(
                gpost,
                p1,
                c,
                p2,
            )) is Some && chan_all(gpost, p1, c, p2)->Some_0.contains(em) && chan_all(
                gpost,
                p2,
                c,
                p1,
            ) is Some && chan_all(gpost, p2, c, p1)->Some_0.contains(em),
{
    assert forall|a: Position, c: int, b: Position, k: int|
        0 <= c < 3 && (chan_all(gpost, a, c, b)) is Some && 0 <= k < chan_all(
            gpost,
            a,
            c,
            b,
        )->Some_0.len() implies edge_generated(
        sim0,
        noise,
        kind,
        a,
        c,
        b,
        #[trigger] stored_candidate(gpost, a, c, b, k),
    ) by {
        if (all_channels || c == idx) && ((a == p1 && b == p2) || (a == p2 && b == p1)) {
            let o = chan_all(gpre, a, c, b);
            let list = chan_all(gpost, a, c, b)->Some_0;
            if o is None {
                assert(list =~= seq![em]);
                assert(stored_candidate(gpost, a, c, b, k) == em);
                assert(generates_at(sim0, noise, kind, pp, cand, p1, c, p2, em));
                if !(a == p1 && b == p2) {
                    assert(generates_at(sim0, noise, kind, pp, cand, p2, c, p1, em));
                }
            } else {
                let s = o->Some_0;
                assert(list == s.push(em));
                if k < s.len() {
                    assert(list[k] == s[k]);
                    assert(stored_candidate(gpost, a, c, b, k) == stored_candidate(
                        gpre,
                        a,
                        c,
                        b,
                        k,
                    ));
                } else {
                    assert(list[k] == em);
                    assert(generates_at(sim0, noise, kind, pp, cand, p1, c, p2, em));
                    if !(a == p1 && b == p2) {
                        assert(generates_at(sim0, noise, kind, pp, cand, p2, c, p1, em));
                    }
                }
            }
        } else {
            assert(chan_all(gpost, a, c, b) == chan_all(gpre, a, c, b));
            assert(stored_candidate(gpost, a, c, b, k) == stored_candidate(gpre, a, c, b, k));
        }
    }
    assert forall|a: Position, c: int, b: Position, e: EdgeModel|
        0 <= c < 3 && (chan_all(gpre, a, c, b)) is Some && #[trigger] chan_all(
            gpre,
            a,
            c,
            b,
        )->Some_0.contains(e) implies chan_all(gpost, a, c, b) is Some && chan_all(
        gpost,
        a,
        c,
        b,
    )->Some_0.contains(e) by {
        if (all_channels || c == idx) && ((a == p1 && b == p2) || (a == p2 && b == p1)) {
            lemma_push_keeps_contains(chan_all(gpre, a, c, b)->Some_0, em);
        }
    }
    assert forall|c: int|
        0 <= c < 3 && (all_channels || c == idx) implies (#[trigger] chan_all(
        gpost,
        p1,
        c,
        p2,
    )) is Some && chan_all(gpost, p1, c, p2)->Some_0.contains(em) && chan_all(
        gpost,
        p2,
        c,
        p1,
    ) is Some && chan_all(gpost, p2, c, p1)->Some_0.contains(em) by {
        let o1 = chan_all(gpre, p1, c, p2);
        if o1 is None {
            assert(chan_all(gpost, p1, c, p2)->Some_0 =~= seq![em]);
            assert(chan_all(gpost, p1, c, p2)->Some_0[0] == em);
        } else {
            lemma_push_keeps_contains(o1->Some_0, em);
        }
        let o2 = chan_all(gpre, p2, c, p1);
        if o2 is None {
            assert(chan_all(gpost, p2, c, p1)->Some_0 =~= seq![em]);
            assert(chan_all(gpost, p2, c, p1)->Some_0[0] == em);
        } else {
            lemma_push_keeps_contains(o2->Some_0, em);
        }
    }
}

/// A candidate that neither classifies as a two- nor a four-syndrome
/// probe contributes to no list.
proof fn lemma_exact_cand_inert(
    g: TailoredModelGraph,
    sim: Simulator,
    noise: NoiseModel,
    kind: WeightFunction,
    tt: int,
    ii: int,
    jj: int,
    pos: Position,
    ce: int,
)
    requires
        0 <= ce,
        lists_exact(g, sim, noise, kind, tt, ii, jj, pos, ce),
        !two_cluster_probe(sim, noise, pos, probe_sequence()[ce]),
        !four_cluster_probe(sim, noise, pos, probe_sequence()[ce]),
    ensures
        lists_exact(g, sim, noise, kind, tt, ii, jj, pos, ce + 1),
{
    assert forall|a: Position, c: int, b: Position|
        0 <= c < 3 implies #[trigger] chan_all(g, a, c, b) == opt_of(
        gen_rounds(sim, noise, kind, tt, a, c, b) + gen_plane(sim, noise, kind, tt, ii, a, c, b)
            + gen_row(sim, noise, kind, tt, ii, jj, a, c, b) + gen_cell(
            sim,
            noise,
            kind,
            pos,
            ce + 1,
            a,
            c,
            b,
        ),
    ) by {
        assert(!probe_targets(sim, noise, pos, probe_sequence()[ce], a, c, b));
        assert(gen_rounds(sim, noise, kind, tt, a, c, b) + gen_plane(sim, noise, kind, tt, ii, a, c, b)
            + gen_row(sim, noise, kind, tt, ii, jj, a, c, b) + gen_cell(
            sim,
            noise,
            kind,
            pos,
            ce + 1,
            a,
            c,
            b,
        ) =~= gen_rounds(sim, noise, kind, tt, a, c, b) + gen_plane(
            sim,
            noise,
            kind,
            tt,
            ii,
            a,
            c,
            b,
        ) + gen_row(sim, noise, kind, tt, ii, jj, a, c, b) + gen_cell(
            sim,
            noise,
            kind,
            pos,
            ce,
            a,
            c,
            b,
        ));
    }
}

/// One inserted candidate extends exactly the lists its probe targets.
proof fn lemma_exact_cand_insert(
    gpre: TailoredModelGraph,
    gpost: TailoredModelGraph,
    sim: Simulator,
    noise: NoiseModel,
    kind: WeightFunction,
    tt: int,
    ii: int,
    jj: int,
    pos: Position,
    ce: int,
    em: EdgeModel,
    touched: spec_fn(Position, int, Position) -> bool,
)
    requires
        0 <= ce,
        lists_exact(gpre, sim, noise, kind, tt, ii, jj, pos, ce),
        em == probe_edge_model(sim, noise, kind, pos, probe_sequence()[ce]),
        forall|a: Position, c: int, b: Position|
            0 <= c < 3 ==> #[trigger] chan_all(gpost, a, c, b) == (if touched(a, c, b) {
                Some(push_model(chan_all(gpre, a, c, b), em))
            } else {
                chan_all(gpre, a, c, b)
            }),
        forall|a: Position, c: int, b: Position|
            0 <= c < 3 ==> (#[trigger] probe_targets(
                sim,
                noise,
                pos,
                probe_sequence()[ce],
                a,
                c,
                b,
            ) <==> touched(a, c, b)),
    ensures
        lists_exact(gpost, sim, noise, kind, tt, ii, jj, pos, ce + 1),
{
    assert forall|a: Position, c: int, b: Position|
        0 <= c < 3 implies #[trigger] chan_all(gpost, a, c, b) == opt_of(
        gen_rounds(sim, noise, kind, tt, a, c, b) + gen_plane(sim, noise, kind, tt, ii, a, c, b)
            + gen_row(sim, noise, kind, tt, ii, jj, a, c, b) + gen_cell(
            sim,
            noise,
            kind,
            pos,
            ce + 1,
            a,
            c,
            b,
        ),
    ) by {
        let prefix = gen_rounds(sim, noise, kind, tt, a, c, b) + gen_plane(
            sim,
            noise,
            kind,
            tt,
            ii,
            a,
            c,
            b,
        ) + gen_row(sim, noise, kind, tt, ii, jj, a, c, b) + gen_cell(
            sim,
            noise,
            kind,
            pos,
            ce,
            a,
            c,
            b,
        );
        let whole = gen_rounds(sim, noise, kind, tt, a, c, b) + gen_plane(
            sim,
            noise,
            kind,
            tt,
            ii,
            a,
            c,
            b,
        ) + gen_row(sim, noise, kind, tt, ii, jj, a, c, b) + gen_cell(
            sim,
            noise,
            kind,
            pos,
            ce + 1,
            a,
            c,
            b,
        );
        if probe_targets(sim, noise, pos, probe_sequence()[ce], a, c, b) {
            assert(whole =~= prefix.push(em));
            assert(chan_all(gpre, a, c, b) == opt_of(prefix));
            if prefix.len() == 0 {
                assert(push_model(chan_all(gpre, a, c, b), em) =~= seq![em]);
                assert(whole =~= seq![em]);
            } else {
                assert(push_model(chan_all(gpre, a, c, b), em) == prefix.push(em));
            }
            assert(opt_of(whole) == Some(push_model(chan_all(gpre, a, c, b), em)));
        } else {
            assert(whole =~= prefix);
        }
    }
}

/// Composing the four insertions of a resolved cluster: each targeted
/// directed pair grew by the candidate exactly once.
proof fn lemma_four_composite(
    ga: TailoredModelGraph,
    gb: TailoredModelGraph,
    gc: TailoredModelGraph,
    gd: TailoredModelGraph,
    gfin: TailoredModelGraph,
    up: Position,
    down: Position,
    left: Position,
    right: Position,
    em: EdgeModel,
)
    requires
        up != right && up != down && up != left && down != left && down != right && left != right,
        forall|a: Position, c: int, b: Position|
            0 <= c < 3 ==> #[trigger] chan_all(gb, a, c, b) == (if c == 0 && ((a == up && b
                == right) || (a == right && b == up)) {
                Some(push_model(chan_all(ga, a, c, b), em))
            } else {
                chan_all(ga, a, c, b)
            }),
        forall|a: Position, c: int, b: Position|
            0 <= c < 3 ==> #[trigger] chan_all(gc, a, c, b) == (if c == 0 && ((a == left && b
                == down) || (a == down && b == left)) {
                Some(push_model(chan_all(gb, a, c, b), em))
            } else {
                chan_all(gb, a, c, b)
            }),
        forall|a: Position, c: int, b: Position|
            0 <= c < 3 ==> #[trigger] chan_all(gd, a, c, b) == (if c == 1 && ((a == left && b
                == up) || (a == up && b == left)) {
                Some(push_model(chan_all(gc, a, c, b), em))
            } else {
                chan_all(gc, a, c, b)
            }),
        forall|a: Position, c: int, b: Position|
            0 <= c < 3 ==> #[trigger] chan_all(gfin, a, c, b) == (if c == 1 && ((a == down && b
                == right) || (a == right && b == down)) {
                Some(push_model(chan_all(gd, a, c, b), em))
            } else {
                chan_all(gd, a, c, b)
            }),
    ensures
        forall|a: Position, c: int, b: Position|
            0 <= c < 3 ==> #[trigger] chan_all(gfin, a, c, b) == (if cluster_pair(
                (up, down, left, right),
                c,
                a,
                b,
            ) {
                Some(push_model(chan_all(ga, a, c, b), em))
            } else {
                chan_all(ga, a, c, b)
            }),
{
    assert forall|a: Position, c: int, b: Position|
        0 <= c < 3 implies #[trigger] chan_all(gfin, a, c, b) == (if cluster_pair(
        (up, down, left, right),
        c,
        a,
        b,
    ) {
        Some(push_model(chan_all(ga, a, c, b), em))
    } else {
        chan_all(ga, a, c, b)
    }) by {
        assert(chan_all(gb, a, c, b) == (if c == 0 && ((a == up && b == right) || (a == right && b
            == up)) {
            Some(push_model(chan_all(ga, a, c, b), em))
        } else {
            chan_all(ga, a, c, b)
        }));
        assert(chan_all(gc, a, c, b) == (if c == 0 && ((a == left && b == down) || (a == down && b
            == left)) {
            Some(push_model(chan_all(gb, a, c, b), em))
        } else {
            chan_all(gb, a, c, b)
        }));
        assert(chan_all(gd, a, c, b) == (if c == 1 && ((a == left && b == up) || (a == up && b
            == left)) {
            Some(push_model(chan_all(gc, a, c, b), em))
        } else {
            chan_all(gc, a, c, b)
        }));
        assert(chan_all(gfin, a, c, b) == (if c == 1 && ((a == down && b == right) || (a == right
            && b == down)) {
            Some(push_model(chan_all(gd, a, c, b), em))
        } else {
            chan_all(gd, a, c, b)
        }));
    }
}

/// A cell without a simulator node generates nothing.
proof fn lemma_gen_cell_no_node(
    sim: Simulator,
    noise: NoiseModel,
    kind: WeightFunction,
    pos: Position,
    ce: int,
)
    requires
        !sim.has_node(pos),
    ensures
        forall|a: Position, c: int, b: Position|
            (#[trigger] gen_cell(sim, noise, kind, pos, ce, a, c, b)).len() == 0,
    decreases ce,
{
    if ce > 0 {
        lemma_gen_cell_no_node(sim, noise, kind, pos, ce - 1);
        assert forall|a: Position, c: int, b: Position|
            (#[trigger] gen_cell(sim, noise, kind, pos, ce, a, c, b)).len() == 0 by {
            assert(!probe_targets(sim, noise, pos, probe_sequence()[ce - 1], a, c, b));
            assert(gen_cell(sim, noise, kind, pos, ce - 1, a, c, b).len() == 0);
        }
    }
}

/// Finishing a cell advances the exact-contents cursor to the next cell.
proof fn lemma_exact_roll_cell(
    g: TailoredModelGraph,
    sim: Simulator,
    noise: NoiseModel,
    kind: WeightFunction,
    tt: int,
    ii: int,
    jj: int,
    pos: Position,
    pos2: Position,
)
    requires
        0 <= tt && 0 <= ii && 0 <= jj,
        pos == (Position { t: tt as usize, i: ii as usize, j: jj as usize }),
        lists_exact(g, sim, noise, kind, tt, ii, jj, pos, probe_sequence().len() as int),
    ensures
        lists_exact(g, sim, noise, kind, tt, ii, jj + 1, pos2, 0),
{
    assert forall|a: Position, c: int, b: Position|
        0 <= c < 3 implies #[trigger] chan_all(g, a, c, b) == opt_of(
        gen_rounds(sim, noise, kind, tt, a, c, b) + gen_plane(sim, noise, kind, tt, ii, a, c, b)
            + gen_row(sim, noise, kind, tt, ii, jj + 1, a, c, b) + gen_cell(
            sim,
            noise,
            kind,
            pos2,
            0,
            a,
            c,
            b,
        ),
    ) by {
        assert(gen_row(sim, noise, kind, tt, ii, jj + 1, a, c, b) == gen_row(
            sim,
            noise,
            kind,
            tt,
            ii,
            jj,
            a,
            c,
            b,
        ) + gen_cell(sim, noise, kind, pos, probe_sequence().len() as int, a, c, b));
        assert(gen_rounds(sim, noise, kind, tt, a, c, b) + gen_plane(sim, noise, kind, tt, ii, a, c, b)
            + gen_row(sim, noise, kind, tt, ii, jj + 1, a, c, b) + gen_cell(
            sim,
            noise,
            kind,
            pos2,
            0,
            a,
            c,
            b,
        ) =~= gen_rounds(sim, noise, kind, tt, a, c, b) + gen_plane(
            sim,
            noise,
            kind,
            tt,
            ii,
            a,
            c,
            b,
        ) + gen_row(sim, noise, kind, tt, ii, jj, a, c, b) + gen_cell(
            sim,
            noise,
            kind,
            pos,
            probe_sequence().len() as int,
            a,
            c,
            b,
        ));
    }
}

/// Finishing a row advances the cursor to the next row.
proof fn lemma_exact_roll_row(
    g: TailoredModelGraph,
    sim: Simulator,
    noise: NoiseModel,
    kind: WeightFunction,
    tt: int,
    ii: int,
    pos2: Position,
)
    requires
        0 <= tt && 0 <= ii,
        lists_exact(
            g,
            sim,
            noise,
            kind,
            tt,
            ii,
            sim.horizontal as int,
            (Position { t: tt as usize, i: ii as usize, j: sim.horizontal }),
            0,
        ),
    ensures
        lists_exact(g, sim, noise, kind, tt, ii + 1, 0, pos2, 0),
{
    assert forall|a: Position, c: int, b: Position|
        0 <= c < 3 implies #[trigger] chan_all(g, a, c, b) == opt_of(
        gen_rounds(sim, noise, kind, tt, a, c, b) + gen_plane(
            sim,
            noise,
            kind,
            tt,
            ii + 1,
            a,
            c,
            b,
        ) + gen_row(sim, noise, kind, tt, ii + 1, 0, a, c, b) + gen_cell(
            sim,
            noise,
            kind,
            pos2,
            0,
            a,
            c,
            b,
        ),
    ) by {
        assert(gen_plane(sim, noise, kind, tt, ii + 1, a, c, b) == gen_plane(
            sim,
            noise,
            kind,
            tt,
            ii,
            a,
            c,
            b,
        ) + gen_row(sim, noise, kind, tt, ii, sim.horizontal as int, a, c, b));
        assert(gen_rounds(sim, noise, kind, tt, a, c, b) + gen_plane(
            sim,
            noise,
            kind,
            tt,
            ii + 1,
            a,
            c,
            b,
        ) + gen_row(sim, noise, kind, tt, ii + 1, 0, a, c, b) + gen_cell(
            sim,
            noise,
            kind,
            pos2,
            0,
            a,
            c,
            b,
        ) =~= gen_rounds(sim, noise, kind, tt, a, c, b) + gen_plane(
            sim,
            noise,
            kind,
            tt,
            ii,
            a,
            c,
            b,
        ) + gen_row(sim, noise, kind, tt, ii, sim.horizontal as int, a, c, b) + gen_cell(
            sim,
            noise,
            kind,
            (Position { t: tt as usize, i: ii as usize, j: sim.horizontal }),
            0,
            a,
            c,
            b,
        ));
    }
}

/// Finishing a round advances the cursor to the next round.
proof fn lemma_exact_roll_plane(
    g: TailoredModelGraph,
    sim: Simulator,
    noise: NoiseModel,
    kind: WeightFunction,
    tt: int,
    pos2: Position,
)
    requires
        0 <= tt,
        lists_exact(
            g,
            sim,
            noise,
            kind,
            tt,
            sim.vertical as int,
            0,
            (Position { t: tt as usize, i: sim.vertical, j: 0 }),
            0,
        ),
    ensures
        lists_exact(g, sim, noise, kind, tt + 1, 0, 0, pos2, 0),
{
    assert forall|a: Position, c: int, b: Position|
        0 <= c < 3 implies #[trigger] chan_all(g, a, c, b) == opt_of(
        gen_rounds(sim, noise, kind, tt + 1, a, c, b) + gen_plane(
            sim,
            noise,
            kind,
            tt + 1,
            0,
            a,
            c,
            b,
        ) + gen_row(sim, noise, kind, tt + 1, 0, 0, a, c, b) + gen_cell(
            sim,
            noise,
            kind,
            pos2,
            0,
            a,
            c,
            b,
        ),
    ) by {
        assert(gen_rounds(sim, noise, kind, tt + 1, a, c, b) == gen_rounds(
            sim,
            noise,
            kind,
            tt,
            a,
            c,
            b,
        ) + gen_plane(sim, noise, kind, tt, sim.vertical as int, a, c, b));
        assert(gen_rounds(sim, noise, kind, tt + 1, a, c, b) + gen_plane(
            sim,
            noise,
            kind,
            tt + 1,
            0,
            a,
            c,
            b,
        ) + gen_row(sim, noise, kind, tt + 1, 0, 0, a, c, b) + gen_cell(
            sim,
            noise,
            kind,
            pos2,
            0,
            a,
            c,
            b,
        ) =~= gen_rounds(sim, noise, kind, tt, a, c, b) + gen_plane(
            sim,
            noise,
            kind,
            tt,
            sim.vertical as int,
            a,
            c,
            b,
        ) + gen_row(sim, noise, kind, tt, sim.vertical as int, 0, a, c, b) + gen_cell(
            sim,
            noise,
            kind,
            (Position { t: tt as usize, i: sim.vertical, j: 0 }),
            0,
            a,
            c,
            b,
        ));
    }
}

/// The facts a two-syndrome insertion rests on, bundled.
proof fn lemma_two_setup(
    sim0: Simulator,
    noise: NoiseModel,
    kind: WeightFunction,
    position: Position,
    error: CandidateError,
    respg: OracleResponse,
    pos1: Position,
    pos2: Position,
    p_rate: Prob,
    weight: Weight,
    em: EdgeModel,
)
    requires
        probe_order_has(error),
        probed(sim0, noise, position, error),
        error is Correlated ==> sim0.node_at(position)->Some_0.gate_peer is Some,
        sim0.oracle_response(position, error) == Some(respg),
        respg.real@.len() >= 1,
        respg.real@.len() + respg.virtuals@.len() == 2,
        two_endpoints(respg) == (pos1, pos2),
        pos1 != pos2,
        sim0.node_at(pos1)->Some_0.qubit_type == sim0.node_at(pos2)->Some_0.qubit_type,
        p_rate == probe_rate(noise, position, error),
        weight == spec_weight_of(kind, p_rate@),
        em == (EdgeModel {
            probability: p_rate@,
            weight: weight,
            error_pattern: probe_pattern(sim0, position, error),
            correction: respg.correction.view_seq(),
        }),
    ensures
        two_cluster_probe(sim0, noise, position, error),
        em == probe_edge_model(sim0, noise, kind, position, error),
        forall|c: int|
            0 <= c < 3 ==> #[trigger] generates_at(
                sim0,
                noise,
                kind,
                position,
                error,
                pos1,
                c,
                pos2,
                em,
            ) && generates_at(sim0, noise, kind, position, error, pos2, c, pos1, em),
{
    assert(two_cluster_probe(sim0, noise, position, error));
    assert forall|c: int|
        0 <= c < 3 implies #[trigger] generates_at(
        sim0,
        noise,
        kind,
        position,
        error,
        pos1,
        c,
        pos2,
        em,
    ) && generates_at(sim0, noise, kind, position, error, pos2, c, pos1, em) by {}
}

/// The facts a four-syndrome insertion rests on, bundled.
proof fn lemma_four_setup(
    sim0: Simulator,
    noise: NoiseModel,
    kind: WeightFunction,
    position: Position,
    error: CandidateError,
    respg: OracleResponse,
    up: Position,
    down: Position,
    left: Position,
    right: Position,
    p_rate: Prob,
    weight: Weight,
    em: EdgeModel,
)
    requires
        probe_order_has(error),
        probed(sim0, noise, position, error),
        error is Correlated ==> sim0.node_at(position)->Some_0.gate_peer is Some,
        sim0.oracle_response(position, error) == Some(respg),
        respg.real@.len() >= 1,
        respg.real@.len() + respg.virtuals@.len() == 4,
        spec_cluster_roles(sim0, cluster_positions(respg)) == Some((up, down, left, right)),
        p_rate == probe_rate(noise, position, error),
        weight == spec_weight_of(kind, p_rate@),
        em == (EdgeModel {
            probability: p_rate@,
            weight: weight,
            error_pattern: probe_pattern(sim0, position, error),
            correction: respg.correction.view_seq(),
        }),
    ensures
        four_cluster_probe(sim0, noise, position, error),
        em == probe_edge_model(sim0, noise, kind, position, error),
        generates_at(sim0, noise, kind, position, error, up, 0, right, em),
        generates_at(sim0, noise, kind, position, error, right, 0, up, em),
        generates_at(sim0, noise, kind, position, error, left, 0, down, em),
        generates_at(sim0, noise, kind, position, error, down, 0, left, em),
        generates_at(sim0, noise, kind, position, error, left, 1, up, em),
        generates_at(sim0, noise, kind, position, error, up, 1, left, em),
        generates_at(sim0, noise, kind, position, error, down, 1, right, em),
        generates_at(sim0, noise, kind, position, error, right, 1, down, em),
{
    assert(four_cluster_probe(sim0, noise, position, error));
    let roles0 = (up, down, left, right);
    assert(cluster_pair(roles0, 0, up, right) && cluster_pair(roles0, 0, right, up)
        && cluster_pair(roles0, 0, left, down) && cluster_pair(roles0, 0, down, left)
        && cluster_pair(roles0, 1, left, up) && cluster_pair(roles0, 1, up, left)
        && cluster_pair(roles0, 1, down, right) && cluster_pair(roles0, 1, right, down));
}

/// The new candidate stands in an appended optional list.
proof fn lemma_push_model_contains(o: Option<Seq<EdgeModel>>, em: EdgeModel)
    ensures
        push_model(o, em).contains(em),
{
    match o {
        None => {
            assert(push_model(o, em) =~= seq![em]);
            assert(push_model(o, em)[0] == em);
        },
        Some(ss) => {
            lemma_push_keeps_contains(ss, em);
        },
    }
}

/// After the four insertions of a resolved cluster, the candidate stands
/// in every directed pair its roles dictate.
proof fn lemma_four_presence(
    ga: TailoredModelGraph,
    gb: TailoredModelGraph,
    gc: TailoredModelGraph,
    gd: TailoredModelGraph,
    gfin: TailoredModelGraph,
    sim0: Simulator,
    noise: NoiseModel,
    kind: WeightFunction,
    up: Position,
    down: Position,
    left: Position,
    right: Position,
    em: EdgeModel,
    position: Position,
    error: CandidateError,
)
    requires
        up != right && up != down && up != left && down != left && down != right && left != right,
        forall|a: Position, c: int, b: Position|
            0 <= c < 3 ==> #[trigger] chan_all(gb, a, c, b) == (if c == 0 && ((a == up && b
                == right) || (a == right && b == up)) {
                Some(push_model(chan_all(ga, a, c, b), em))
            } else {
                chan_all(ga, a, c, b)
            }),
        forall|a: Position, c: int, b: Position|
            0 <= c < 3 ==> #[trigger] chan_all(gc, a, c, b) == (if c == 0 && ((a == left && b
                == down) || (a == down && b == left)) {
                Some(push_model(chan_all(gb, a, c, b), em))
            } else {
                chan_all(gb, a, c, b)
            }),
        forall|a: Position, c: int, b: Position|
            0 <= c < 3 ==> #[trigger] chan_all(gd, a, c, b) == (if c == 1 && ((a == left && b
                == up) || (a == up && b == left)) {
                Some(push_model(chan_all(gc, a, c, b), em))
            } else {
                chan_all(gc, a, c, b)
            }),
        forall|a: Position, c: int, b: Position|
            0 <= c < 3 ==> #[trigger] chan_all(gfin, a, c, b) == (if c == 1 && ((a == down && b
                == right) || (a == right && b == down)) {
                Some(push_model(chan_all(gd, a, c, b), em))
            } else {
                chan_all(gd, a, c, b)
            }),
        sim0.oracle_response(position, error) is Some,
        spec_cluster_roles(
            sim0,
            cluster_positions(sim0.oracle_response(position, error)->Some_0),
        ) == Some((up, down, left, right)),
        em == probe_edge_model(sim0, noise, kind, position, error),
    ensures
        four_cluster_edges_present(gfin, sim0, noise, kind, position, error),
{
    let roles0 = (up, down, left, right);
    assert(chan_all(gb, up, 0, right) == Some(push_model(chan_all(ga, up, 0, right), em)));
    assert(chan_all(gb, right, 0, up) == Some(push_model(chan_all(ga, right, 0, up), em)));
    lemma_push_model_contains(chan_all(ga, up, 0, right), em);
    lemma_push_model_contains(chan_all(ga, right, 0, up), em);
    assert(chan_all(gfin, up, 0, right) == chan_all(gb, up, 0, right));
    assert(chan_all(gfin, right, 0, up) == chan_all(gb, right, 0, up));
    assert(chan_all(gc, left, 0, down) == Some(push_model(chan_all(gb, left, 0, down), em)));
    assert(chan_all(gc, down, 0, left) == Some(push_model(chan_all(gb, down, 0, left), em)));
    lemma_push_model_contains(chan_all(gb, left, 0, down), em);
    lemma_push_model_contains(chan_all(gb, down, 0, left), em);
    assert(chan_all(gfin, left, 0, down) == chan_all(gc, left, 0, down));
    assert(chan_all(gfin, down, 0, left) == chan_all(gc, down, 0, left));
    assert(chan_all(gd, left, 1, up) == Some(push_model(chan_all(gc, left, 1, up), em)));
    assert(chan_all(gd, up, 1, left) == Some(push_model(chan_all(gc, up, 1, left), em)));
    lemma_push_model_contains(chan_all(gc, left, 1, up), em);
    lemma_push_model_contains(chan_all(gc, up, 1, left), em);
    assert(chan_all(gfin, left, 1, up) == chan_all(gd, left, 1, up));
    assert(chan_all(gfin, up, 1, left) == chan_all(gd, up, 1, left));
    assert(chan_all(gfin, down, 1, right) == Some(push_model(chan_all(gd, down, 1, right), em)));
    assert(chan_all(gfin, right, 1, down) == Some(push_model(chan_all(gd, right, 1, down), em)));
    lemma_push_model_contains(chan_all(gd, down, 1, right), em);
    lemma_push_model_contains(chan_all(gd, right, 1, down), em);
    assert forall|a2: Position, b2: Position, c2: int|
        #[trigger] cluster_pair(roles0, c2, a2, b2) implies chan_all(gfin, a2, c2, b2) is Some
        && chan_all(gfin, a2, c2, b2)->Some_0.contains(em) by {}
}

/// Processing one candidate kind extends the per-position completeness by
/// one entry of the probe order.
proof fn lemma_position_step(
    g: TailoredModelGraph,
    sim0: Simulator,
    noise: NoiseModel,
    kind: WeightFunction,
    position: Position,
    ce: int,
    error: CandidateError,
)
    requires
        0 <= ce < probe_sequence().len(),
        probe_sequence()[ce] == error,
        position_probes_done(sim0, noise, g, kind, position, ce),
        candidate_settled(g, sim0, noise, kind, position, error),
    ensures
        position_probes_done(sim0, noise, g, kind, position, ce + 1),
{
    assert forall|ct2: crate::types::CorrelatedPauliErrorType|
        cand_before(CandidateError::Correlated(ct2), ce + 1) implies !(
    #[trigger] peer_missing_cause(sim0, noise, position, ct2)) by {
        if !cand_before(CandidateError::Correlated(ct2), ce) {
            let ki = choose|ki: int|
                0 <= ki < ce + 1 && #[trigger] probe_sequence()[ki] == CandidateError::Correlated(
                    ct2,
                );
            assert(ki == ce);
            assert(error == CandidateError::Correlated(ct2));
        }
    }
    assert forall|cand2: CandidateError|
        cand_before(cand2, ce + 1) implies !(#[trigger] mismatch_cause(
        sim0,
        noise,
        position,
        cand2,
    )) by {
        if !cand_before(cand2, ce) {
            let ki = choose|ki: int| 0 <= ki < ce + 1 && #[trigger] probe_sequence()[ki] == cand2;
            assert(ki == ce);
        }
    }
    assert forall|cand2: CandidateError|
        #[trigger] two_cluster_probe(sim0, noise, position, cand2) && cand_before(
            cand2,
            ce + 1,
        ) implies two_cluster_edges_present(g, sim0, noise, kind, position, cand2) by {
        if !cand_before(cand2, ce) {
            let ki = choose|ki: int| 0 <= ki < ce + 1 && #[trigger] probe_sequence()[ki] == cand2;
            assert(ki == ce);
        }
    }
    assert forall|cand2: CandidateError|
        #[trigger] four_cluster_probe(sim0, noise, position, cand2) && cand_before(
            cand2,
            ce + 1,
        ) implies four_cluster_edges_present(g, sim0, noise, kind, position, cand2) by {
        if !cand_before(cand2, ce) {
            let ki = choose|ki: int| 0 <= ki < ce + 1 && #[trigger] probe_sequence()[ki] == cand2;
            assert(ki == ce);
        }
    }
}

/// Finishing a grid cell extends the completeness invariant to the next
/// cell: either the cell has no simulator node and nothing probes it, or
/// every candidate kind was processed there.
proof fn lemma_cell_complete(
    g: TailoredModelGraph,
    sim0: Simulator,
    noise: NoiseModel,
    kind: WeightFunction,
    tt: int,
    ii: int,
    jj: int,
    position: Position,
)
    requires
        position.t as int == tt && position.i as int == ii && position.j as int == jj,
        probes_done(sim0, noise, g, kind, tt, ii, jj),
        sim0.has_node(position) ==> position_probes_done(
            sim0,
            noise,
            g,
            kind,
            position,
            probe_sequence().len() as int,
        ),
    ensures
        probes_done(sim0, noise, g, kind, tt, ii, jj + 1),
{
    assert forall|pp2: Position, ct2: crate::types::CorrelatedPauliErrorType|
        lex_before(pp2, tt, ii, jj + 1) implies !(#[trigger] peer_missing_cause(
        sim0,
        noise,
        pp2,
        ct2,
    )) by {
        if !lex_before(pp2, tt, ii, jj) && peer_missing_cause(sim0, noise, pp2, ct2) {
            assert(pp2 == position);
            lemma_probe_sequence_complete(CandidateError::Correlated(ct2));
            assert(cand_before(CandidateError::Correlated(ct2), probe_sequence().len() as int));
            assert(false);
        }
    }
    assert forall|pp2: Position, cand2: CandidateError|
        lex_before(pp2, tt, ii, jj + 1) implies !(#[trigger] mismatch_cause(
        sim0,
        noise,
        pp2,
        cand2,
    )) by {
        if !lex_before(pp2, tt, ii, jj) && mismatch_cause(sim0, noise, pp2, cand2) {
            assert(pp2 == position);
            lemma_probe_sequence_complete(cand2);
            assert(cand_before(cand2, probe_sequence().len() as int));
            assert(false);
        }
    }
    assert forall|pp2: Position, cand2: CandidateError|
        #[trigger] two_cluster_probe(sim0, noise, pp2, cand2) && lex_before(
            pp2,
            tt,
            ii,
            jj + 1,
        ) implies two_cluster_edges_present(g, sim0, noise, kind, pp2, cand2) by {
        if !lex_before(pp2, tt, ii, jj) {
            assert(pp2 == position);
            lemma_probe_sequence_complete(cand2);
            assert(cand_before(cand2, probe_sequence().len() as int));
        }
    }
    assert forall|pp2: Position, cand2: CandidateError|
        #[trigger] four_cluster_probe(sim0, noise, pp2, cand2) && lex_before(
            pp2,
            tt,
            ii,
            jj + 1,
        ) implies four_cluster_edges_present(g, sim0, noise, kind, pp2, cand2) by {
        if !lex_before(pp2, tt, ii, jj) {
            assert(pp2 == position);
            lemma_probe_sequence_complete(cand2);
            assert(cand_before(cand2, probe_sequence().len() as int));
        }
    }
}

/// Candidate survival keeps both completeness invariants.
proof fn lemma_done_preserved(
    gpre: TailoredModelGraph,
    gpost: TailoredModelGraph,
    sim0: Simulator,
    noise: NoiseModel,
    kind: WeightFunction,
    tt: int,
    ii: int,
    jj: int,
    pp: Position,
    ce: int,
)
    requires
        probes_done(sim0, noise, gpre, kind, tt, ii, jj),
        position_probes_done(sim0, noise, gpre, kind, pp, ce),
        forall|a: Position, c: int, b: Position, e: EdgeModel|
            0 <= c < 3 && (chan_all(gpre, a, c, b)) is Some && #[trigger] chan_all(
                gpre,
                a,
                c,
                b,
            )->Some_0.contains(e) ==> chan_all(gpost, a, c, b) is Some && chan_all(
                gpost,
                a,
                c,
                b,
            )->Some_0.contains(e),
    ensures
        probes_done(sim0, noise, gpost, kind, tt, ii, jj),
        position_probes_done(sim0, noise, gpost, kind, pp, ce),
{
    lemma_presence_preserved(gpre, gpost, sim0, noise, kind);
}

/// The pointwise effect of one symmetric insertion on the candidate
/// lists: the two directed lists of the touched channel(s) grew by the
/// new candidate, everything else is unchanged.
proof fn lemma_between_relation(
    g0: TailoredModelGraph,
    g1: TailoredModelGraph,
    p1: Position,
    p2: Position,
    all_channels: bool,
    idx: int,
    em: EdgeModel,
)
    requires
        0 <= idx < 3,
        p1 != p2,
        same_but_two(g0, g1, p1, p2),
        g0.pos_in_bounds(p1),
        g0.pos_in_bounds(p2),
        g0.node_at(p1) is Some,
        g0.node_at(p2) is Some,
        g1.node_at(p1) is Some,
        g1.node_at(p2) is Some,
        all_channels || 0 == idx ==> chan_added(
            g0.node_at(p1)->Some_0.channel(0),
            g1.node_at(p1)->Some_0.channel(0),
            p2,
            em,
        ) && chan_added(g0.node_at(p2)->Some_0.channel(0), g1.node_at(p2)->Some_0.channel(0), p1, em),
        all_channels || 1 == idx ==> chan_added(
            g0.node_at(p1)->Some_0.channel(1),
            g1.node_at(p1)->Some_0.channel(1),
            p2,
            em,
        ) && chan_added(g0.node_at(p2)->Some_0.channel(1), g1.node_at(p2)->Some_0.channel(1), p1, em),
        all_channels || 2 == idx ==> chan_added(
            g0.node_at(p1)->Some_0.channel(2),
            g1.node_at(p1)->Some_0.channel(2),
            p2,
            em,
        ) && chan_added(g0.node_at(p2)->Some_0.channel(2), g1.node_at(p2)->Some_0.channel(2), p1, em),
        !(all_channels || 0 == idx) ==> g1.node_at(p1)->Some_0.channel(0) == g0.node_at(
            p1,
        )->Some_0.channel(0) && g1.node_at(p2)->Some_0.channel(0) == g0.node_at(
            p2,
        )->Some_0.channel(0),
        !(all_channels || 1 == idx) ==> g1.node_at(p1)->Some_0.channel(1) == g0.node_at(
            p1,
        )->Some_0.channel(1) && g1.node_at(p2)->Some_0.channel(1) == g0.node_at(
            p2,
        )->Some_0.channel(1),
        !(all_channels || 2 == idx) ==> g1.node_at(p1)->Some_0.channel(2) == g0.node_at(
            p1,
        )->Some_0.channel(2) && g1.node_at(p2)->Some_0.channel(2) == g0.node_at(
            p2,
        )->Some_0.channel(2),
    ensures
        forall|a: Position, c: int, b: Position|
            0 <= c < 3 ==> #[trigger] chan_all(g1, a, c, b) == (if (all_channels || c == idx)
                && ((a == p1 && b == p2) || (a == p2 && b == p1)) {
                Some(push_model(chan_all(g0, a, c, b), em))
            } else {
                chan_all(g0, a, c, b)
            }),
{
    assert forall|a: Position, c: int, b: Position|
        0 <= c < 3 implies #[trigger] chan_all(g1, a, c, b) == (if (all_channels || c == idx) && (
        (a == p1 && b == p2) || (a == p2 && b == p1)) {
        Some(push_model(chan_all(g0, a, c, b), em))
    } else {
        chan_all(g0, a, c, b)
    }) by {
        assert(g1.pos_in_bounds(a) == g0.pos_in_bounds(a));
        if a == p1 || a == p2 {
            if g0.pos_in_bounds(a) {
                let other = if a == p1 {
                    p2
                } else {
                    p1
                };
                if all_channels || c == idx {
                    assert(chan_added(
                        g0.node_at(a)->Some_0.channel(c),
                        g1.node_at(a)->Some_0.channel(c),
                        other,
                        em,
                    )) by {
                        if c == 0 {
                        } else if c == 1 {
                        } else {
                            assert(c == 2);
                        }
                    }
                    if b != other {
                        assert(g1.node_at(a)->Some_0.channel(c).all_at(b) == g0.node_at(
                            a,
                        )->Some_0.channel(c).all_at(b));
                    }
                } else {
                    assert(g1.node_at(a)->Some_0.channel(c) == g0.node_at(a)->Some_0.channel(
                        c,
                    )) by {
                        if c == 0 {
                        } else if c == 1 {
                        } else {
                            assert(c == 2);
                        }
                    }
                }
            }
        } else {
            if g0.pos_in_bounds(a) {
                assert(g1.node_at(a) == g0.node_at(a));
            }
        }
    }
}

/// Survival of stored candidates keeps every already-present probe
/// contribution present.
proof fn lemma_presence_preserved(
    gpre: TailoredModelGraph,
    gpost: TailoredModelGraph,
    sim0: Simulator,
    noise: NoiseModel,
    kind: WeightFunction,
)
    requires
        forall|a: Position, c: int, b: Position, e: EdgeModel|
            0 <= c < 3 && (chan_all(gpre, a, c, b)) is Some && #[trigger] chan_all(
                gpre,
                a,
                c,
                b,
            )->Some_0.contains(e) ==> chan_all(gpost, a, c, b) is Some && chan_all(
                gpost,
                a,
                c,
                b,
            )->Some_0.contains(e),
    ensures
        forall|pp: Position, cand: CandidateError|
            #[trigger] two_cluster_probe(sim0, noise, pp, cand) && two_cluster_edges_present(
                gpre,
                sim0,
                noise,
                kind,
                pp,
                cand,
            ) ==> two_cluster_edges_present(gpost, sim0, noise, kind, pp, cand),
        forall|pp: Position, cand: CandidateError|
            #[trigger] four_cluster_probe(sim0, noise, pp, cand) && four_cluster_edges_present(
                gpre,
                sim0,
                noise,
                kind,
                pp,
                cand,
            ) ==> four_cluster_edges_present(gpost, sim0, noise, kind, pp, cand),
{
    assert forall|pp: Position, cand: CandidateError|
        #[trigger] two_cluster_probe(sim0, noise, pp, cand) && two_cluster_edges_present(
            gpre,
            sim0,
            noise,
            kind,
            pp,
            cand,
        ) implies two_cluster_edges_present(gpost, sim0, noise, kind, pp, cand) by {
        let resp = sim0.oracle_response(pp, cand)->Some_0;
        let a = two_endpoints(resp).0;
        let b = two_endpoints(resp).1;
        let em = probe_edge_model(sim0, noise, kind, pp, cand);
        assert forall|c: int|
            0 <= c < 3 implies (#[trigger] chan_all(gpost, a, c, b)) is Some && chan_all(
            gpost,
            a,
            c,
            b,
        )->Some_0.contains(em) && chan_all(gpost, b, c, a) is Some && chan_all(
            gpost,
            b,
            c,
            a,
        )->Some_0.contains(em) by {
            assert(chan_all(gpre, a, c, b)->Some_0.contains(em));
            assert(chan_all(gpre, b, c, a)->Some_0.contains(em));
        }
    }
    assert forall|pp: Position, cand: CandidateError|
        #[trigger] four_cluster_probe(sim0, noise, pp, cand) && four_cluster_edges_present(
            gpre,
            sim0,
            noise,
            kind,
            pp,
            cand,
        ) implies four_cluster_edges_present(gpost, sim0, noise, kind, pp, cand) by {
        let resp = sim0.oracle_response(pp, cand)->Some_0;
        let roles = spec_cluster_roles(sim0, cluster_positions(resp))->Some_0;
        let em = probe_edge_model(sim0, noise, kind, pp, cand);
        assert forall|a: Position, b: Position, c: int|
            #[trigger] cluster_pair(roles, c, a, b) implies chan_all(gpost, a, c, b) is Some
            && chan_all(gpost, a, c, b)->Some_0.contains(em) by {
            assert(chan_all(gpre, a, c, b)->Some_0.contains(em));
        }
    }
}

/// A candidate list as an optional value: absent when empty.
pub open spec fn opt_of(s: Seq<EdgeModel>) -> Option<Seq<EdgeModel>> {
    if s.len() == 0 {
        None
    } else {
        Some(s)
    }
}

/// Whether one probe inserts its candidate into the list of `(a, c, b)`.
pub open spec fn probe_targets(
    sim: Simulator,
    noise: NoiseModel,
    p: Position,
    cand: CandidateError,
    a: Position,
    c: int,
    b: Position,
) -> bool {
    ||| {
        &&& two_cluster_probe(sim, noise, p, cand)
        &&& 0 <= c < 3
        &&& {
            let ep = two_endpoints(sim.oracle_response(p, cand)->Some_0);
            ep == (a, b) || ep == (b, a)
        }
    }
    ||| {
        &&& four_cluster_probe(sim, noise, p, cand)
        &&& cluster_pair(
            spec_cluster_roles(sim, cluster_positions(sim.oracle_response(p, cand)->Some_0))->Some_0,
            c,
            a,
            b,
        )
    }
}

/// What one probe appends to the list of `(a, c, b)`: its candidate, or
/// nothing.
pub open spec fn probe_contribution(
    sim: Simulator,
    noise: NoiseModel,
    kind: WeightFunction,
    p: Position,
    cand: CandidateError,
    a: Position,
    c: int,
    b: Position,
) -> Seq<EdgeModel> {
    if probe_targets(sim, noise, p, cand, a, c, b) {
        seq![probe_edge_model(sim, noise, kind, p, cand)]
    } else {
        Seq::empty()
    }
}

/// The contributions of the first `ce` candidate kinds probed at one cell,
/// in probe order.
pub open spec fn gen_cell(
    sim: Simulator,
    noise: NoiseModel,
    kind: WeightFunction,
    pos: Position,
    ce: int,
    a: Position,
    c: int,
    b: Position,
) -> Seq<EdgeModel>
    decreases ce,
{
    if ce <= 0 {
        Seq::empty()
    } else {
        gen_cell(sim, noise, kind, pos, ce - 1, a, c, b) + probe_contribution(
            sim,
            noise,
            kind,
            pos,
            probe_sequence()[ce - 1],
            a,
            c,
            b,
        )
    }
}

/// The contributions of the first `jj` cells of one grid row, in traversal
/// order.
pub open spec fn gen_row(
    sim: Simulator,
    noise: NoiseModel,
    kind: WeightFunction,
    tt: int,
    ii: int,
    jj: int,
    a: Position,
    c: int,
    b: Position,
) -> Seq<EdgeModel>
    decreases jj,
{
    if jj <= 0 {
        Seq::empty()
    } else {
        gen_row(sim, noise, kind, tt, ii, jj - 1, a, c, b) + gen_cell(
            sim,
            noise,
            kind,
            (Position { t: tt as usize, i: ii as usize, j: (jj - 1) as usize }),
            probe_sequence().len() as int,
            a,
            c,
            b,
        )
    }
}

/// The contributions of the first `ii` rows of one round, in traversal
/// order.
pub open spec fn gen_plane(
    sim: Simulator,
    noise: NoiseModel,
    kind: WeightFunction,
    tt: int,
    ii: int,
    a: Position,
    c: int,
    b: Position,
) -> Seq<EdgeModel>
    decreases ii,
{
    if ii <= 0 {
        Seq::empty()
    } else {
        gen_plane(sim, noise, kind, tt, ii - 1, a, c, b) + gen_row(
            sim,
            noise,
            kind,
            tt,
            ii - 1,
            sim.horizontal as int,
            a,
            c,
            b,
        )
    }
}

/// The contributions of the first `tt` rounds, in traversal order.
pub open spec fn gen_rounds(
    sim: Simulator,
    noise: NoiseModel,
    kind: WeightFunction,
    tt: int,
    a: Position,
    c: int,
    b: Position,
) -> Seq<EdgeModel>
    decreases tt,
{
    if tt <= 0 {
        Seq::empty()
    } else {
        gen_rounds(sim, noise, kind, tt - 1, a, c, b) + gen_plane(
            sim,
            noise,
            kind,
            tt - 1,
            sim.vertical as int,
            a,
            c,
            b,
        )
    }
}

/// The full candidate list of `(a, c, b)` that one build generates: the
/// candidates of every probe targeting the pair, in the fixed traversal
/// order (positions lexicographically, then the probe order).
pub open spec fn generated_list(
    sim: Simulator,
    noise: NoiseModel,
    kind: WeightFunction,
    a: Position,
    c: int,
    b: Position,
) -> Seq<EdgeModel> {
    gen_rounds(sim, noise, kind, sim.height as int, a, c, b)
}

/// The exact-contents invariant: every candidate list equals the
/// generation prefix up to the cursor `(tt, ii, jj, ce)`.
pub open spec fn lists_exact(
    g: TailoredModelGraph,
    sim: Simulator,
    noise: NoiseModel,
    kind: WeightFunction,
    tt: int,
    ii: int,
    jj: int,
    pos: Position,
    ce: int,
) -> bool {
    forall|a: Position, c: int, b: Position|
        0 <= c < 3 ==> #[trigger] chan_all(g, a, c, b) == opt_of(
            gen_rounds(sim, noise, kind, tt, a, c, b) + gen_plane(sim, noise, kind, tt, ii, a, c, b)
                + gen_row(sim, noise, kind, tt, ii, jj, a, c, b) + gen_cell(
                sim,
                noise,
                kind,
                pos,
                ce,
                a,
                c,
                b,
            ),
        )
}

/// The soundness invariant: every stored candidate arises from some probe.
pub open spec fn content_sound(
    g: TailoredModelGraph,
    sim: Simulator,
    noise: NoiseModel,
    kind: WeightFunction,
) -> bool {
    forall|a: Position, c: int, b: Position, k: int|
        0 <= c < 3 && (chan_all(g, a, c, b)) is Some && 0 <= k < chan_all(
            g,
            a,
            c,
            b,
        )->Some_0.len() ==> edge_generated(
            sim,
            noise,
            kind,
            a,
            c,
            b,
            #[trigger] stored_candidate(g, a, c, b, k),
        )
}

/// The completeness invariant for every position before a grid cell: no
/// fatal cause sits there, and every two- or four-syndrome probe there has
/// its candidate stored.
pub open spec fn probes_done(
    sim: Simulator,
    noise: NoiseModel,
    g: TailoredModelGraph,
    kind: WeightFunction,
    tt: int,
    ii: int,
    jj: int,
) -> bool {
    &&& forall|pp: Position, ct: crate::types::CorrelatedPauliErrorType|
        lex_before(pp, tt, ii, jj) ==> !(#[trigger] peer_missing_cause(sim, noise, pp, ct))
    &&& forall|pp: Position, cand: CandidateError|
        lex_before(pp, tt, ii, jj) ==> !(#[trigger] mismatch_cause(sim, noise, pp, cand))
    &&& forall|pp: Position, cand: CandidateError|
        #[trigger] two_cluster_probe(sim, noise, pp, cand) && lex_before(pp, tt, ii, jj)
            ==> two_cluster_edges_present(g, sim, noise, kind, pp, cand)
    &&& forall|pp: Position, cand: CandidateError|
        #[trigger] four_cluster_probe(sim, noise, pp, cand) && lex_before(pp, tt, ii, jj)
            ==> four_cluster_edges_present(g, sim, noise, kind, pp, cand)
}

/// The same, for the first `ce` candidate kinds at the cell being
/// processed.
pub open spec fn position_probes_done(
    sim: Simulator,
    noise: NoiseModel,
    g: TailoredModelGraph,
    kind: WeightFunction,
    pp: Position,
    ce: int,
) -> bool {
    &&& forall|ct: crate::types::CorrelatedPauliErrorType|
        cand_before(CandidateError::Correlated(ct), ce) ==> !(#[trigger] peer_missing_cause(
            sim,
            noise,
            pp,
            ct,
        ))
    &&& forall|cand: CandidateError|
        cand_before(cand, ce) ==> !(#[trigger] mismatch_cause(sim, noise, pp, cand))
    &&& forall|cand: CandidateError|
        #[trigger] two_cluster_probe(sim, noise, pp, cand) && cand_before(cand, ce)
            ==> two_cluster_edges_present(g, sim, noise, kind, pp, cand)
    &&& forall|cand: CandidateError|
        #[trigger] four_cluster_probe(sim, noise, pp, cand) && cand_before(cand, ce)
            ==> four_cluster_edges_present(g, sim, noise, kind, pp, cand)
}

/// One candidate kind is fully settled at one position: it raises no
/// fatal cause, and whatever it probes is stored.
pub open spec fn candidate_settled(
    g: TailoredModelGraph,
    sim: Simulator,
    noise: NoiseModel,
    kind: WeightFunction,
    pp: Position,
    cand: CandidateError,
) -> bool {
    &&& (cand matches CandidateError::Correlated(ct) ==> !peer_missing_cause(sim, noise, pp, ct))
    &&& !mismatch_cause(sim, noise, pp, cand)
    &&& (two_cluster_probe(sim, noise, pp, cand) ==> two_cluster_edges_present(
        g,
        sim,
        noise,
        kind,
        pp,
        cand,
    ))
    &&& (four_cluster_probe(sim, noise, pp, cand) ==> four_cluster_edges_present(
        g,
        sim,
        noise,
        kind,
        pp,
        cand,
    ))
}

/// Spec views of the graph depend only on the node grid.
proof fn lemma_graph_same_nodes(g1: TailoredModelGraph, g2: TailoredModelGraph)
    requires
        g2.nodes == g1.nodes,
    ensures
        forall|p: Position| #[trigger] g2.node_at(p) == g1.node_at(p),
        forall|p: Position| #[trigger] g2.pos_in_bounds(p) == g1.pos_in_bounds(p),
        g1.wf() ==> g2.wf(),
        g1.graph_clean() ==> g2.graph_clean(),
        elected_empty(g1) ==> elected_empty(g2),
        forall|p: Position, c: int, q: Position|
            #[trigger] chan_all(g2, p, c, q) == chan_all(g1, p, c, q),
        forall|p: Position, c: int, q: Position|
            #[trigger] chan_elected(g2, p, c, q) == chan_elected(g1, p, c, q),
        all_edges_symmetric(g1) ==> all_edges_symmetric(g2),
{
    assert forall|p: Position| #[trigger] g2.node_at(p) == g1.node_at(p) by {}
    assert forall|p: Position| #[trigger] g2.pos_in_bounds(p) == g1.pos_in_bounds(p) by {}
    assert forall|p: Position, c: int, q: Position|
        #[trigger] chan_all(g2, p, c, q) == chan_all(g1, p, c, q) by {}
    assert forall|p: Position, c: int, q: Position|
        #[trigger] chan_elected(g2, p, c, q) == chan_elected(g1, p, c, q) by {}
    if g1.wf() {
        assert forall|p: Position|
            g2.pos_in_bounds(p) && (#[trigger] g2.node_at(p)) is Some implies g2.node_at(
            p,
        )->Some_0.wf() by {
            assert(g1.node_at(p) == g2.node_at(p));
        }
    }
    if g1.graph_clean() {
        assert forall|p: Position|
            g2.pos_in_bounds(p) && (#[trigger] g2.node_at(p)) is Some implies g2.node_at(
            p,
        )->Some_0.is_empty() by {
            assert(g1.node_at(p) == g2.node_at(p));
        }
    }
    if elected_empty(g1) {
        assert forall|p: Position|
            g2.pos_in_bounds(p) && (#[trigger] g2.node_at(p)) is Some implies g2.node_at(
            p,
        )->Some_0.positive.edges@.len() == 0 && g2.node_at(p)->Some_0.negative.edges@.len() == 0
            && g2.node_at(p)->Some_0.neutral.edges@.len() == 0 by {
            assert(g1.node_at(p) == g2.node_at(p));
        }
    }
    if all_edges_symmetric(g1) {
        assert forall|p: Position, c: int, q: Position|
            0 <= c < 3 implies #[trigger] chan_all(g2, p, c, q) == chan_all(g2, q, c, p) by {
            assert(chan_all(g1, p, c, q) == chan_all(g1, q, c, p));
        }
    }
}

/// The graph-simulator consistency depends only on the node grids.
proof fn lemma_consistent_same_nodes(
    g1: TailoredModelGraph,
    g2: TailoredModelGraph,
    sim: Simulator,
)
    requires
        g2.nodes == g1.nodes,
        g1.consistent_with(sim),
    ensures
        g2.consistent_with(sim),
{
    assert forall|p: Position|
        sim.in_bounds(p) implies ((#[trigger] g2.node_at(p)) is Some <==> sim.is_graph_node(
        p,
    )) by {
        assert(g2.node_at(p) == g1.node_at(p));
    }
}

/// A clean graph has mirrored (empty) candidate lists and no elected
/// edges.
proof fn lemma_clean_graph_symmetric(g: TailoredModelGraph)
    requires
        g.graph_clean(),
    ensures
        all_edges_symmetric(g),
        elected_empty(g),
{
    assert forall|p: Position, c: int, q: Position|
        0 <= c < 3 implies #[trigger] chan_all(g, p, c, q) == chan_all(g, q, c, p) by {
        assert(chan_all(g, p, c, q) is None);
        assert(chan_all(g, q, c, p) is None);
    }
}

impl TailoredModelGraph {
    /// Inserts the symmetric candidate pair of one two-syndrome probe in
    /// all three channels and settles the probe's bookkeeping.
    #[verifier::rlimit(100)]
    fn insert_pair_edges(
        &mut self,
        simulator: &Simulator,
        noise_model: &NoiseModel,
        weight_function: &WeightFunction,
        position: Position,
        error: CandidateError,
        p_rate: Prob,
        pos1: Position,
        pos2: Position,
        sparse_errors: SparseErrorPattern,
        resp_correction: &SparseCorrection,
        Ghost(sim0): Ghost<Simulator>,
        Ghost(respg): Ghost<OracleResponse>,
        Ghost(tt): Ghost<int>,
        Ghost(ii): Ghost<int>,
        Ghost(jj): Ghost<int>,
        Ghost(cev): Ghost<int>,
    )
        requires
            simulator.wf(),
            sim0.wf(),
            simulator.nodes == sim0.nodes,
            simulator.responses == sim0.responses,
            simulator.height == sim0.height,
            simulator.vertical == sim0.vertical,
            simulator.horizontal == sim0.horizontal,
            simulator.measurement_cycles == sim0.measurement_cycles,
            noise_model.wf(),
            noise_model.dims_match(*simulator),
            0 <= cev < probe_sequence().len(),
            probe_sequence()[cev] == error,
            probe_order_has(error),
            p_rate == probe_rate(*noise_model, position, error),
            p_rate.wf(),
            probed(sim0, *noise_model, position, error),
            error is Correlated ==> sim0.node_at(position)->Some_0.gate_peer is Some,
            sim0.oracle_response(position, error) == Some(respg),
            respg.real@.len() >= 1,
            sparse_errors.view_seq() == probe_pattern(sim0, position, error),
            old(self).wf(),
            old(self).consistent_with(*simulator),
            all_edges_symmetric(*old(self)),
            probes_done(sim0, *noise_model, *old(self), *weight_function, tt, ii, jj),
            position_probes_done(sim0, *noise_model, *old(self), *weight_function, position, cev),
            content_sound(*old(self), sim0, *noise_model, *weight_function),
            lists_exact(
                *old(self),
                sim0,
                *noise_model,
                *weight_function,
                tt,
                ii,
                jj,
                position,
                cev,
            ),
            respg.real@.len() + respg.virtuals@.len() == 2,
            two_endpoints(respg) == (pos1, pos2),
            pos1 != pos2,
            sim0.node_at(pos1)->Some_0.qubit_type == sim0.node_at(pos2)->Some_0.qubit_type,
            sim0.is_graph_node(pos1),
            sim0.is_graph_node(pos2),
            resp_correction.view_seq() == respg.correction.view_seq(),
        ensures
            final(self).wf(),
            final(self).consistent_with(*simulator),
            all_edges_symmetric(*final(self)),
            final(self).virtual_nodes == old(self).virtual_nodes,
            final(self).corner_virtual_nodes == old(self).corner_virtual_nodes,
            final(self).unfixed_stabilizers == old(self).unfixed_stabilizers,
            probes_done(sim0, *noise_model, *final(self), *weight_function, tt, ii, jj),
            position_probes_done(
                sim0,
                *noise_model,
                *final(self),
                *weight_function,
                position,
                cev + 1,
            ),
            content_sound(*final(self), sim0, *noise_model, *weight_function),
            lists_exact(
                *final(self),
                sim0,
                *noise_model,
                *weight_function,
                tt,
                ii,
                jj,
                position,
                cev + 1,
            ),
    {
        proof {
            assert(simulator.is_graph_node(pos1) == sim0.is_graph_node(pos1)) by {
                assert(simulator.node_at(pos1) == sim0.node_at(pos1));
            }
            assert(simulator.is_graph_node(pos2) == sim0.is_graph_node(pos2)) by {
                assert(simulator.node_at(pos2) == sim0.node_at(pos2));
            }
            assert(self.has_node_at(pos1));
            assert(self.has_node_at(pos2));
        }
        let weight = weight_of(
            weight_function,
            &p_rate,
        );
        let correction = clone_correction(
            resp_correction,
        );
        let ghost patv = sparse_errors.view_seq();
        let ghost corv = correction.view_seq();
        let ghost em = EdgeModel {
            probability: p_rate@,
            weight: weight,
            error_pattern: patv,
            correction: corv,
        };
        let ghost gpre = *self;
        self.add_edge_between(
            &pos1,
            &pos2,
            p_rate,
            weight,
            sparse_errors,
            correction,
        );
        proof {
            lemma_between_relation(
                gpre,
                *self,
                pos1,
                pos2,
                true,
                0,
                em,
            );
            assert(em == (EdgeModel {
                probability: p_rate@,
                weight: weight,
                error_pattern: probe_pattern(
                    sim0,
                    position,
                    error,
                ),
                correction: respg.correction.view_seq(),
            })) by {
                assert(patv =~= probe_pattern(
                    sim0,
                    position,
                    error,
                ));
                assert(corv
                    =~= respg.correction.view_seq());
            }
            lemma_two_setup(
                sim0,
                *noise_model,
                *weight_function,
                position,
                error,
                respg,
                pos1,
                pos2,
                p_rate,
                weight,
                em,
            );
            lemma_insert_step(
                gpre,
                *self,
                sim0,
                *noise_model,
                *weight_function,
                pos1,
                pos2,
                true,
                0,
                em,
                position,
                error,
            );
            lemma_done_preserved(
                gpre,
                *self,
                sim0,
                *noise_model,
                *weight_function,
                tt,
                ii,
                jj,
                position,
                cev,
            );
            assert(two_cluster_edges_present(
                *self,
                sim0,
                *noise_model,
                *weight_function,
                position,
                error,
            ));
            assert(candidate_settled(
                *self,
                sim0,
                *noise_model,
                *weight_function,
                position,
                error,
            ));
            assert(!four_cluster_probe(
                sim0,
                *noise_model,
                position,
                error,
            ));
            assert(probe_sequence()[cev]
                == error);
            let touched = |a2: Position, c2: int, b2: Position|
                ((a2 == pos1 && b2 == pos2) || (a2
                    == pos2 && b2 == pos1));
            assert forall|a2: Position, c2: int, b2: Position|
                0 <= c2 < 3 implies #[trigger] chan_all(
                *self,
                a2,
                c2,
                b2,
            ) == (if touched(a2, c2, b2) {
                Some(push_model(
                    chan_all(gpre, a2, c2, b2),
                    em,
                ))
            } else {
                chan_all(gpre, a2, c2, b2)
            }) by {}
            assert forall|a2: Position, c2: int, b2: Position|
                0 <= c2 < 3 implies (
            #[trigger] probe_targets(
                sim0,
                *noise_model,
                position,
                error,
                a2,
                c2,
                b2,
            ) <==> touched(a2, c2, b2)) by {
                assert(two_cluster_probe(
                    sim0,
                    *noise_model,
                    position,
                    error,
                ));
                assert(two_endpoints(respg) == (
                pos1,
                pos2,
                ));
            }
            lemma_exact_cand_insert(
                gpre,
                *self,
                sim0,
                *noise_model,
                *weight_function,
                tt,
                ii,
                jj,
                position,
                cev,
                em,
                touched,
            );
        }
        proof {
            lemma_position_step(
                *self,
                sim0,
                *noise_model,
                *weight_function,
                position,
                cev,
                error,
            );
        }
    }

    /// Inserts the four symmetric candidate pairs of one resolved
    /// four-syndrome cluster and settles the probe's bookkeeping.
    #[verifier::rlimit(100)]
    fn insert_cluster_edges(
        &mut self,
        simulator: &Simulator,
        noise_model: &NoiseModel,
        weight_function: &WeightFunction,
        position: Position,
        error: CandidateError,
        p_rate: Prob,
        up: Position,
        down: Position,
        left: Position,
        right: Position,
        sparse_errors: SparseErrorPattern,
        resp_correction: &SparseCorrection,
        Ghost(sim0): Ghost<Simulator>,
        Ghost(respg): Ghost<OracleResponse>,
        Ghost(tt): Ghost<int>,
        Ghost(ii): Ghost<int>,
        Ghost(jj): Ghost<int>,
        Ghost(cev): Ghost<int>,
    )
        requires
            simulator.wf(),
            sim0.wf(),
            simulator.nodes == sim0.nodes,
            simulator.responses == sim0.responses,
            simulator.height == sim0.height,
            simulator.vertical == sim0.vertical,
            simulator.horizontal == sim0.horizontal,
            simulator.measurement_cycles == sim0.measurement_cycles,
            noise_model.wf(),
            noise_model.dims_match(*simulator),
            0 <= cev < probe_sequence().len(),
            probe_sequence()[cev] == error,
            probe_order_has(error),
            p_rate == probe_rate(*noise_model, position, error),
            p_rate.wf(),
            probed(sim0, *noise_model, position, error),
            error is Correlated ==> sim0.node_at(position)->Some_0.gate_peer is Some,
            sim0.oracle_response(position, error) == Some(respg),
            respg.real@.len() >= 1,
            sparse_errors.view_seq() == probe_pattern(sim0, position, error),
            old(self).wf(),
            old(self).consistent_with(*simulator),
            all_edges_symmetric(*old(self)),
            probes_done(sim0, *noise_model, *old(self), *weight_function, tt, ii, jj),
            position_probes_done(sim0, *noise_model, *old(self), *weight_function, position, cev),
            content_sound(*old(self), sim0, *noise_model, *weight_function),
            lists_exact(
                *old(self),
                sim0,
                *noise_model,
                *weight_function,
                tt,
                ii,
                jj,
                position,
                cev,
            ),
            respg.real@.len() + respg.virtuals@.len() == 4,
            spec_cluster_roles(sim0, cluster_positions(respg)) == Some((up, down, left, right)),
            sim0.is_graph_node(up) && sim0.is_graph_node(down) && sim0.is_graph_node(left)
                && sim0.is_graph_node(right),
            up != right && up != down && up != left && down != left && down != right && left
                != right,
            resp_correction.view_seq() == respg.correction.view_seq(),
        ensures
            final(self).wf(),
            final(self).consistent_with(*simulator),
            all_edges_symmetric(*final(self)),
            final(self).virtual_nodes == old(self).virtual_nodes,
            final(self).corner_virtual_nodes == old(self).corner_virtual_nodes,
            final(self).unfixed_stabilizers == old(self).unfixed_stabilizers,
            probes_done(sim0, *noise_model, *final(self), *weight_function, tt, ii, jj),
            position_probes_done(
                sim0,
                *noise_model,
                *final(self),
                *weight_function,
                position,
                cev + 1,
            ),
            content_sound(*final(self), sim0, *noise_model, *weight_function),
            lists_exact(
                *final(self),
                sim0,
                *noise_model,
                *weight_function,
                tt,
                ii,
                jj,
                position,
                cev + 1,
            ),
    {
        proof {
            assert(simulator.is_graph_node(up) == sim0.is_graph_node(up)) by {
                assert(simulator.node_at(up) == sim0.node_at(up));
            }
            assert(simulator.is_graph_node(down) == sim0.is_graph_node(down)) by {
                assert(simulator.node_at(down) == sim0.node_at(down));
            }
            assert(simulator.is_graph_node(left) == sim0.is_graph_node(left)) by {
                assert(simulator.node_at(left) == sim0.node_at(left));
            }
            assert(simulator.is_graph_node(right) == sim0.is_graph_node(right)) by {
                assert(simulator.node_at(right) == sim0.node_at(right));
            }
            assert(self.has_node_at(up));
            assert(self.has_node_at(down));
            assert(self.has_node_at(left));
            assert(self.has_node_at(right));
        }
        let weight = weight_of(
            weight_function,
            &p_rate,
        );
        let ghost patv = sparse_errors.view_seq();
        let ghost em = EdgeModel {
            probability: p_rate@,
            weight: weight,
            error_pattern: patv,
            correction: respg.correction.view_seq(),
        };
        let ghost roles0 = (up, down, left, right);
        proof {
            assert(em == (EdgeModel {
                probability: p_rate@,
                weight: weight,
                error_pattern: probe_pattern(
                    sim0,
                    position,
                    error,
                ),
                correction: respg.correction.view_seq(),
            })) by {
                assert(patv =~= probe_pattern(
                    sim0,
                    position,
                    error,
                ));
            }
            lemma_four_setup(
                sim0,
                *noise_model,
                *weight_function,
                position,
                error,
                respg,
                up,
                down,
                left,
                right,
                p_rate,
                weight,
                em,
            );
        }
        let pat1 = clone_pattern(&sparse_errors);
        let cor1 = clone_correction(
            resp_correction,
        );
        let pat2 = clone_pattern(&sparse_errors);
        let cor2 = clone_correction(
            resp_correction,
        );
        let pat3 = clone_pattern(&sparse_errors);
        let cor3 = clone_correction(
            resp_correction,
        );
        let pat4 = clone_pattern(&sparse_errors);
        let cor4 = clone_correction(
            resp_correction,
        );
        // positive: up + right, left + down
        let ghost ga = *self;
        self.add_positive_edge_between(
            &up,
            &right,
            p_rate,
            weight,
            pat1,
            cor1,
        );
        proof {
            lemma_between_relation(
                ga,
                *self,
                up,
                right,
                false,
                0,
                em,
            );
            lemma_insert_step(
                ga,
                *self,
                sim0,
                *noise_model,
                *weight_function,
                up,
                right,
                false,
                0,
                em,
                position,
                error,
            );
            lemma_done_preserved(
                ga,
                *self,
                sim0,
                *noise_model,
                *weight_function,
                tt,
                ii,
                jj,
                position,
                cev,
            );
        }
        let ghost gb = *self;
        self.add_positive_edge_between(
            &left,
            &down,
            p_rate,
            weight,
            pat2,
            cor2,
        );
        proof {
            lemma_between_relation(
                gb,
                *self,
                left,
                down,
                false,
                0,
                em,
            );
            lemma_insert_step(
                gb,
                *self,
                sim0,
                *noise_model,
                *weight_function,
                left,
                down,
                false,
                0,
                em,
                position,
                error,
            );
            lemma_done_preserved(
                gb,
                *self,
                sim0,
                *noise_model,
                *weight_function,
                tt,
                ii,
                jj,
                position,
                cev,
            );
        }
        // negative: left + up, down + right
        let ghost gc = *self;
        self.add_negative_edge_between(
            &left,
            &up,
            p_rate,
            weight,
            pat3,
            cor3,
        );
        proof {
            lemma_between_relation(
                gc,
                *self,
                left,
                up,
                false,
                1,
                em,
            );
            lemma_insert_step(
                gc,
                *self,
                sim0,
                *noise_model,
                *weight_function,
                left,
                up,
                false,
                1,
                em,
                position,
                error,
            );
            lemma_done_preserved(
                gc,
                *self,
                sim0,
                *noise_model,
                *weight_function,
                tt,
                ii,
                jj,
                position,
                cev,
            );
        }
        let ghost gd = *self;
        self.add_negative_edge_between(
            &down,
            &right,
            p_rate,
            weight,
            pat4,
            cor4,
        );
        proof {
            lemma_between_relation(
                gd,
                *self,
                down,
                right,
                false,
                1,
                em,
            );
            lemma_insert_step(
                gd,
                *self,
                sim0,
                *noise_model,
                *weight_function,
                down,
                right,
                false,
                1,
                em,
                position,
                error,
            );
            lemma_done_preserved(
                gd,
                *self,
                sim0,
                *noise_model,
                *weight_function,
                tt,
                ii,
                jj,
                position,
                cev,
            );
            lemma_four_presence(
                ga,
                gb,
                gc,
                gd,
                *self,
                sim0,
                *noise_model,
                *weight_function,
                up,
                down,
                left,
                right,
                em,
                position,
                error,
            );
            assert(candidate_settled(
                *self,
                sim0,
                *noise_model,
                *weight_function,
                position,
                error,
            ));
            assert(!two_cluster_probe(
                sim0,
                *noise_model,
                position,
                error,
            ));
            assert(probe_sequence()[cev]
                == error);
            lemma_four_composite(
                ga,
                gb,
                gc,
                gd,
                *self,
                up,
                down,
                left,
                right,
                em,
            );
            let touched = |a2: Position, c2: int, b2: Position|
                cluster_pair(
                    (up, down, left, right),
                    c2,
                    a2,
                    b2,
                );
            assert forall|a2: Position, c2: int, b2: Position|
                0 <= c2 < 3 implies (
            #[trigger] probe_targets(
                sim0,
                *noise_model,
                position,
                error,
                a2,
                c2,
                b2,
            ) <==> touched(a2, c2, b2)) by {
                assert(four_cluster_probe(
                    sim0,
                    *noise_model,
                    position,
                    error,
                ));
            }
            lemma_exact_cand_insert(
                ga,
                *self,
                sim0,
                *noise_model,
                *weight_function,
                tt,
                ii,
                jj,
                position,
                cev,
                em,
                touched,
            );
        }
        proof {
            lemma_position_step(
                *self,
                sim0,
                *noise_model,
                *weight_function,
                position,
                cev,
                error,
            );
        }
    }

    /// Probes one candidate error at one position: classifies its syndrome
    /// footprint and inserts the corresponding symmetric candidate edges,
    /// aborting on a missing gate peer or a qubit-type mismatch. On abort
    /// the structure is untouched.
    #[verifier::rlimit(100)]
    fn probe_one_candidate(
        &mut self,
        simulator: &Simulator,
        noise_model: &NoiseModel,
        weight_function: &WeightFunction,
        position: Position,
        error: CandidateError,
        p_rate: Prob,
        possible_erasure_error: bool,
        Ghost(sim0): Ghost<Simulator>,
        Ghost(tt): Ghost<int>,
        Ghost(ii): Ghost<int>,
        Ghost(jj): Ghost<int>,
        Ghost(cev): Ghost<int>,
    ) -> (r: Result<(), BuildError>)
        requires
            simulator.wf(),
            sim0.wf(),
            simulator.nodes == sim0.nodes,
            simulator.responses == sim0.responses,
            simulator.height == sim0.height,
            simulator.vertical == sim0.vertical,
            simulator.horizontal == sim0.horizontal,
            simulator.measurement_cycles == sim0.measurement_cycles,
            noise_model.wf(),
            noise_model.dims_match(*simulator),
            simulator.has_node(position),
            position.t as int == tt && position.i as int == ii && position.j as int == jj,
            0 <= cev < probe_sequence().len(),
            probe_sequence()[cev] == error,
            probe_order_has(error),
            p_rate == probe_rate(*noise_model, position, error),
            p_rate.wf(),
            possible_erasure_error == erasure_possible(sim0, *noise_model, position),
            p_rate@.0 > 0 || (possible_erasure_error && error is Elementary),
            old(self).wf(),
            old(self).consistent_with(*simulator),
            all_edges_symmetric(*old(self)),
            probes_done(sim0, *noise_model, *old(self), *weight_function, tt, ii, jj),
            position_probes_done(sim0, *noise_model, *old(self), *weight_function, position, cev),
            content_sound(*old(self), sim0, *noise_model, *weight_function),
            lists_exact(
                *old(self),
                sim0,
                *noise_model,
                *weight_function,
                tt,
                ii,
                jj,
                position,
                cev,
            ),
        ensures
            r is Err ==> *final(self) == *old(self),
            r is Err ==> r == Err::<(), BuildError>(BuildError::GatePeerMissing) || r == Err::<
                (),
                BuildError,
            >(BuildError::QubitTypeMismatch),
            r == Err::<(), BuildError>(BuildError::GatePeerMissing) ==> exists|
                pp: Position,
                ct: crate::types::CorrelatedPauliErrorType,
            | peer_missing_cause(sim0, *noise_model, pp, ct),
            r == Err::<(), BuildError>(BuildError::QubitTypeMismatch) ==> exists|
                pp: Position,
                cand: CandidateError,
            | mismatch_cause(sim0, *noise_model, pp, cand),
            r is Ok ==> final(self).wf(),
            r is Ok ==> final(self).consistent_with(*simulator),
            r is Ok ==> all_edges_symmetric(*final(self)),
            r is Ok ==> final(self).virtual_nodes == old(self).virtual_nodes,
            r is Ok ==> final(self).corner_virtual_nodes == old(self).corner_virtual_nodes,
            r is Ok ==> final(self).unfixed_stabilizers == old(self).unfixed_stabilizers,
            r is Ok ==> probes_done(
                sim0,
                *noise_model,
                *final(self),
                *weight_function,
                tt,
                ii,
                jj,
            ),
            r is Ok ==> position_probes_done(
                sim0,
                *noise_model,
                *final(self),
                *weight_function,
                position,
                cev + 1,
            ),
            r is Ok ==> content_sound(*final(self), sim0, *noise_model, *weight_function),
            r is Ok ==> lists_exact(
                *final(self),
                sim0,
                *noise_model,
                *weight_function,
                tt,
                ii,
                jj,
                position,
                cev + 1,
            ),
    {
        proof {
            assert(p_rate == probe_rate(*noise_model, position, error));
            assert(sim0.node_at(position) == simulator.node_at(position));
            assert(erasure_possible(sim0, *noise_model, position)
                == erasure_possible(*simulator, *noise_model, position));
            assert(probed(*simulator, *noise_model, position, error));
            assert(probed(sim0, *noise_model, position, error));
            assert(noise_model.node_at(position).wf()) by {
                assert((noise_model.nodes@[position.t as int])@[
                    position.i as int]@[position.j as int].wf());
            }
            assert(p_rate.wf());
        }
        // assemble the minimal sparse error pattern
        let mut sparse_errors = SparseErrorPattern::new();
        match &error {
            CandidateError::Elementary(et) => {
                sparse_errors.add(position, *et);
                proof {
                    assert(sparse_errors.view_seq() =~= probe_pattern(
                        sim0,
                        position,
                        error,
                    ));
                }
            },
            CandidateError::Correlated(ct) => {
                let node = simulator.get_node_unwrap(&position);
                match &node.gate_peer {
                    Some(gate_peer) => {
                        sparse_errors.add(position, ct.my_error());
                        let peer: Position = *gate_peer;
                        sparse_errors.add(peer, ct.peer_error());
                        proof {
                            assert(sim0.node_at(position)
                                == simulator.node_at(position));
                            assert(sparse_errors.view_seq()
                                =~= probe_pattern(sim0, position, error));
                        }
                    },
                    None => {
                        proof {
                            assert(probe_order_has(error));
                            assert(peer_missing_cause(
                                sim0,
                                *noise_model,
                                position,
                                *ct,
                            )) by {
                                assert(sim0.node_at(position)
                                    == simulator.node_at(position));
                            }
                        }
                        return Err(BuildError::GatePeerMissing);
                    },
                }
            },
        }
        let response = simulator.fast_measurement_given_few_errors(
            &position,
            &error,
        );
        match response {
            None => {
                proof {
                    assert(sim0.oracle_response(position, error) is None);
                    assert(candidate_settled(
                        *self,
                        sim0,
                        *noise_model,
                        *weight_function,
                        position,
                        error,
                    ));
                    assert(!two_cluster_probe(sim0, *noise_model, position, error));
                    assert(!four_cluster_probe(sim0, *noise_model, position, error));
                    assert(probe_sequence()[cev] == error);
                    lemma_exact_cand_inert(
                        *self,
                        sim0,
                        *noise_model,
                        *weight_function,
                        tt,
                        ii,
                        jj,
                        position,
                        cev,
                    );
                }
            },
            Some(resp) => {
                if resp.real.len() == 0 {
                    // undetectable, irrelevant to decoding
                    proof {
                        assert(sim0.oracle_response(position, error)
                            == Some(*resp));
                        assert(candidate_settled(
                            *self,
                            sim0,
                            *noise_model,
                            *weight_function,
                            position,
                            error,
                        ));
                        assert(!two_cluster_probe(sim0, *noise_model, position, error));
                        assert(!four_cluster_probe(sim0, *noise_model, position, error));
                        assert(probe_sequence()[cev] == error);
                        lemma_exact_cand_inert(
                            *self,
                            sim0,
                            *noise_model,
                            *weight_function,
                            tt,
                            ii,
                            jj,
                            position,
                            cev,
                        );
                    }
                } else if resp.real.len() <= 4 && resp.virtuals.len()
                    <= 4 {
                    let resp_real_len: usize = resp.real.len();
                    let total: usize = resp.real.len()
                        + resp.virtuals.len();
                    let ghost respg = *resp;
                    proof {
                        let ri = choose|ri: int|
                            0 <= ri < simulator.responses@.len()
                                && simulator.responses@[ri].0 == (
                            position,
                            error,
                            ) && simulator.responses@[ri].1 == respg;
                        assert(simulator.response_wf(respg)) by {
                            lemma_find_response_is_recorded(
                                simulator.responses@,
                                position,
                                error,
                            );
                        }
                    }
                    if total == 2 {
                        let pos1: Position = resp.real[0];
                        let pos2: Position = if resp_real_len == 2 {
                            resp.real[1]
                        } else {
                            resp.virtuals[0]
                        };
                        let node1 = simulator.get_node_unwrap(&pos1);
                        let node2 = simulator.get_node_unwrap(&pos2);
                        if node1.qubit_type != node2.qubit_type {
                            proof {
                                assert(probe_order_has(error));
                                assert(mismatch_cause(
                                    sim0,
                                    *noise_model,
                                    position,
                                    error,
                                )) by {
                                    assert(sim0.oracle_response(
                                        position,
                                        error,
                                    ) == simulator.oracle_response(
                                        position,
                                        error,
                                    ));
                                    assert(two_endpoints(respg) == (
                                        pos1,
                                        pos2,
                                    ));
                                }
                            }
                            return Err(BuildError::QubitTypeMismatch);
                        }
                        proof {
                            assert(sim0.oracle_response(position, error)
                                == Some(respg));
                            assert(two_endpoints(respg) == (pos1, pos2));
                            assert(sim0.node_at(pos1)
                                == simulator.node_at(pos1));
                            assert(sim0.node_at(pos2)
                                == simulator.node_at(pos2));
                        }
                        if pos1 == pos2 {
                            // a degenerate response; no edge
                            proof {
                                assert(candidate_settled(
                                    *self,
                                    sim0,
                                    *noise_model,
                                    *weight_function,
                                    position,
                                    error,
                                ));
                                assert(!two_cluster_probe(sim0, *noise_model, position, error));
                                assert(!four_cluster_probe(sim0, *noise_model, position, error));
                                assert(probe_sequence()[cev] == error);
                                lemma_exact_cand_inert(
                                    *self,
                                    sim0,
                                    *noise_model,
                                    *weight_function,
                                    tt,
                                    ii,
                                    jj,
                                    position,
                                    cev,
                                );
                            }
                        } else {
                            proof {
                                assert(simulator.is_graph_node(pos1) && simulator.is_graph_node(
                                    pos2,
                                ));
                                assert(sim0.is_graph_node(pos1)) by {
                                    assert(sim0.node_at(pos1) == simulator.node_at(pos1));
                                }
                                assert(sim0.is_graph_node(pos2)) by {
                                    assert(sim0.node_at(pos2) == simulator.node_at(pos2));
                                }
                                assert(sim0.node_at(pos1)->Some_0.qubit_type == sim0.node_at(
                                    pos2,
                                )->Some_0.qubit_type);
                            }
                            self.insert_pair_edges(
                                simulator,
                                noise_model,
                                weight_function,
                                position,
                                error,
                                p_rate,
                                pos1,
                                pos2,
                                sparse_errors,
                                &resp.correction,
                                Ghost(sim0),
                                Ghost(respg),
                                Ghost(tt),
                                Ghost(ii),
                                Ghost(jj),
                                Ghost(cev),
                            );
                        }
                    } else if total == 4 {
                        let mut ms: Vec<Position> = Vec::new();
                        let mut mi: usize = 0;
                        while mi < resp.real.len()
                            invariant
                                mi <= resp.real@.len(),
                                ms@ =~= resp.real@.subrange(0, mi as int),
                                simulator.response_wf(*resp),
                                simulator.wf(),
                                forall|k: int|
                                    0 <= k < ms@.len()
                                        ==> simulator.is_graph_node(
                                        #[trigger] ms@[k],
                                    ),
                            decreases resp.real@.len() - mi,
                        {
                            ms.push(resp.real[mi]);
                            mi = mi + 1;
                        }
                        proof {
                            assert(ms@ =~= resp.real@);
                        }
                        let mut vi: usize = 0;
                        while vi < resp.virtuals.len()
                            invariant
                                vi <= resp.virtuals@.len(),
                                ms@ =~= resp.real@
                                    + resp.virtuals@.subrange(
                                    0,
                                    vi as int,
                                ),
                                simulator.response_wf(*resp),
                                simulator.wf(),
                                forall|k: int|
                                    0 <= k < ms@.len()
                                        ==> simulator.is_graph_node(
                                        #[trigger] ms@[k],
                                    ),
                            decreases resp.virtuals@.len() - vi,
                        {
                            ms.push(resp.virtuals[vi]);
                            vi = vi + 1;
                        }
                        proof {
                            assert(ms@ =~= cluster_positions(respg));
                        }
                        let roles = resolve_cluster_roles(simulator, &ms);
                        proof {
                            lemma_cluster_roles_ignore_installed(
                                *simulator,
                                sim0,
                                ms@,
                            );
                            assert(spec_cluster_roles(
                                sim0,
                                cluster_positions(respg),
                            ) == roles);
                            assert(sim0.oracle_response(position, error)
                                == Some(respg));
                        }
                        match roles {
                            Some((up, down, left, right)) => {
                                proof {
                                    assert(simulator.is_graph_node(up) && simulator.is_graph_node(
                                        down,
                                    ) && simulator.is_graph_node(left) && simulator.is_graph_node(
                                        right,
                                    ));
                                    assert(sim0.is_graph_node(up)) by {
                                        assert(sim0.node_at(up) == simulator.node_at(up));
                                    }
                                    assert(sim0.is_graph_node(down)) by {
                                        assert(sim0.node_at(down) == simulator.node_at(down));
                                    }
                                    assert(sim0.is_graph_node(left)) by {
                                        assert(sim0.node_at(left) == simulator.node_at(left));
                                    }
                                    assert(sim0.is_graph_node(right)) by {
                                        assert(sim0.node_at(right) == simulator.node_at(right));
                                    }
                                }
                                self.insert_cluster_edges(
                                    simulator,
                                    noise_model,
                                    weight_function,
                                    position,
                                    error,
                                    p_rate,
                                    up,
                                    down,
                                    left,
                                    right,
                                    sparse_errors,
                                    &resp.correction,
                                    Ghost(sim0),
                                    Ghost(respg),
                                    Ghost(tt),
                                    Ghost(ii),
                                    Ghost(jj),
                                    Ghost(cev),
                                );
                            },
                            None => {
                                // the roles do not resolve: an accepted
                                // gap, the candidate is dropped
                                proof {
                                    assert(candidate_settled(
                                        *self,
                                        sim0,
                                        *noise_model,
                                        *weight_function,
                                        position,
                                        error,
                                    ));
                                    assert(!two_cluster_probe(sim0, *noise_model, position, error));
                                    assert(!four_cluster_probe(sim0, *noise_model, position, error));
                                    assert(probe_sequence()[cev] == error);
                                    lemma_exact_cand_inert(
                                        *self,
                                        sim0,
                                        *noise_model,
                                        *weight_function,
                                        tt,
                                        ii,
                                        jj,
                                        position,
                                        cev,
                                    );
                                }
                            },
                        }
                    } else {
                        // other syndrome counts are dropped without
                        // classification
                        proof {
                            assert(sim0.oracle_response(position, error)
                                == Some(respg));
                            assert(candidate_settled(
                                *self,
                                sim0,
                                *noise_model,
                                *weight_function,
                                position,
                                error,
                            ));
                            assert(!two_cluster_probe(sim0, *noise_model, position, error));
                            assert(!four_cluster_probe(sim0, *noise_model, position, error));
                            assert(probe_sequence()[cev] == error);
                            lemma_exact_cand_inert(
                                *self,
                                sim0,
                                *noise_model,
                                *weight_function,
                                tt,
                                ii,
                                jj,
                                position,
                                cev,
                            );
                        }
                    }
                } else {
                    // more than eight syndromes: dropped like any
                    // other unclassified count
                    proof {
                        assert(sim0.oracle_response(position, error)
                            == Some(*resp));
                        assert(candidate_settled(
                            *self,
                            sim0,
                            *noise_model,
                            *weight_function,
                            position,
                            error,
                        ));
                        assert(!two_cluster_probe(sim0, *noise_model, position, error));
                        assert(!four_cluster_probe(sim0, *noise_model, position, error));
                        assert(probe_sequence()[cev] == error);
                        lemma_exact_cand_inert(
                            *self,
                            sim0,
                            *noise_model,
                            *weight_function,
                            tt,
                            ii,
                            jj,
                            position,
                            cev,
                        );
                    }
                }
            },
        }
        proof {
            assert(candidate_settled(
                *self,
                sim0,
                *noise_model,
                *weight_function,
                position,
                error,
            ));
            lemma_position_step(
                *self,
                sim0,
                *noise_model,
                *weight_function,
                position,
                cev,
                error,
            );
        }
        Ok(())
    }

    /// Builds the decoding graph: computes the unfixed stabilizers, probes
    /// every candidate error at every position, classifies each syndrome
    /// footprint as a two-syndrome edge or a four-syndrome tailored
    /// cluster, inserts the symmetric candidate edges, elects one edge per
    /// neighbor, and records the virtual and corner-virtual nodes.
    ///
    /// Construction aborts, without producing a usable graph, on a
    /// non-clean state, a probed correlated error without a gate peer, or
    /// a two-syndrome edge whose endpoints have different qubit types. A
    /// non-clean abort leaves everything untouched; after any other abort
    /// the edge contents are unspecified and the structure must be
    /// discarded.
    #[verifier::rlimit(100)]
    pub fn build_with_weight_function(
        &mut self,
        simulator: &mut Simulator,
        noise_model: &NoiseModel,
        weight_function: &WeightFunction,
        use_combined_probability: bool,
    ) -> (r: Result<(), BuildError>)
        requires
            old(simulator).wf(),
            noise_model.wf(),
            noise_model.dims_match(*old(simulator)),
            old(self).wf(),
            old(self).consistent_with(*old(simulator)),
        ensures
            (r == Err::<(), BuildError>(BuildError::StateNotClean)) <==> !old(self).graph_clean(),
            r == Err::<(), BuildError>(BuildError::StateNotClean) ==> *final(self) == *old(self)
                && *final(simulator) == *old(simulator),
            r == Err::<(), BuildError>(BuildError::GatePeerMissing) ==> exists|
                pp: Position,
                ct: crate::types::CorrelatedPauliErrorType,
            | peer_missing_cause(*old(simulator), *noise_model, pp, ct),
            r == Err::<(), BuildError>(BuildError::QubitTypeMismatch) ==> exists|
                pp: Position,
                cand: CandidateError,
            | mismatch_cause(*old(simulator), *noise_model, pp, cand),
            r == Err::<(), BuildError>(BuildError::ProbabilityOverflow) ==> exists|
                p: Position,
                c: int,
                q: Position,
            |
                0 <= c < 3 && (#[trigger] chan_all(*final(self), p, c, q)) is Some && elected_of(
                    chan_all(*final(self), p, c, q),
                    use_combined_probability,
                    *weight_function,
                ) is None,
            r is Ok ==> final(self).wf(),
            r is Ok ==> final(self).consistent_with(*old(simulator)),
            r is Ok ==> all_edges_symmetric(*final(self)),
            r is Ok ==> elected_matches(
                *final(self),
                use_combined_probability,
                *weight_function,
            ),
            r is Ok ==> forall|p: Position, c: int, q: Position|
                0 <= c < 3 && (#[trigger] chan_all(*final(self), p, c, q)) is Some
                    ==> chan_elected(*final(self), p, c, q) is Some,
            r is Ok ==> forall|pp: Position, ct: crate::types::CorrelatedPauliErrorType|
                !(#[trigger] peer_missing_cause(*old(simulator), *noise_model, pp, ct)),
            r is Ok ==> forall|pp: Position, cand: CandidateError|
                !(#[trigger] mismatch_cause(*old(simulator), *noise_model, pp, cand)),
            r is Ok ==> forall|pp: Position, cand: CandidateError|
                #[trigger] two_cluster_probe(*old(simulator), *noise_model, pp, cand)
                    ==> two_cluster_edges_present(
                    *final(self),
                    *old(simulator),
                    *noise_model,
                    *weight_function,
                    pp,
                    cand,
                ),
            r is Ok ==> forall|pp: Position, cand: CandidateError|
                #[trigger] four_cluster_probe(*old(simulator), *noise_model, pp, cand)
                    ==> four_cluster_edges_present(
                    *final(self),
                    *old(simulator),
                    *noise_model,
                    *weight_function,
                    pp,
                    cand,
                ),
            r is Ok ==> content_sound(
                *final(self),
                *old(simulator),
                *noise_model,
                *weight_function,
            ),
            r is Ok ==> forall|a: Position, c: int, b: Position|
                0 <= c < 3 ==> #[trigger] chan_all(*final(self), a, c, b) == opt_of(
                    generated_list(*old(simulator), *noise_model, *weight_function, a, c, b),
                ),
            r is Ok ==> forall|p: Position|
                final(self).virtual_nodes@.contains(p) <==> old(simulator).is_graph_node(p) && old(simulator).node_at(p)->Some_0.is_virtual,
            r is Ok ==> forall|pr: (Position, Position)|
                final(self).corner_virtual_nodes@.contains(pr) <==> old(simulator).is_graph_node(pr.0) && old(simulator).node_at(pr.0)->Some_0.is_virtual && old(simulator).node_at(pr.0)->Some_0.is_corner && old(simulator).node_at(
                    pr.0,
                )->Some_0.corner_peer == Some(pr.1),
            r is Ok ==> forall|k: int, l: int|
                0 <= k < l < final(self).virtual_nodes@.len() ==> lex_before(
                    #[trigger] final(self).virtual_nodes@[k],
                    final(self).virtual_nodes@[l].t as int,
                    final(self).virtual_nodes@[l].i as int,
                    #[trigger] final(self).virtual_nodes@[l].j as int,
                ),
            r is Ok ==> forall|k: int, l: int|
                0 <= k < l < final(self).corner_virtual_nodes@.len() ==> lex_before(
                    (#[trigger] final(self).corner_virtual_nodes@[k]).0,
                    final(self).corner_virtual_nodes@[l].0.t as int,
                    final(self).corner_virtual_nodes@[l].0.i as int,
                    (#[trigger] final(self).corner_virtual_nodes@[l]).0.j as int,
                ),
            r != Err::<(), BuildError>(BuildError::StateNotClean) ==> forall|p: Position|
                final(self).unfixed_stabilizers@.contains(p) <==> exists|
                    q: Position,
                    et: ErrorType,
                | unfixed_witness(*old(simulator), *noise_model, p, q, et),
            r != Err::<(), BuildError>(BuildError::StateNotClean)
                ==> final(self).unfixed_stabilizers@ == unfixed_sequence(
                *old(simulator),
                *noise_model,
            ),
            r != Err::<(), BuildError>(BuildError::StateNotClean) ==> final(simulator).installed_errors.view_seq() =~= Seq::<(Position, ErrorType)>::empty() && final(simulator).nodes == old(simulator).nodes && final(simulator).responses == old(simulator).responses && final(simulator).height == old(simulator).height && final(simulator).vertical == old(simulator).vertical && final(simulator).horizontal == old(simulator).horizontal && final(simulator).measurement_cycles == old(simulator).measurement_cycles,
    {
        if !self.is_state_clean(simulator) {
            return Err(BuildError::StateNotClean);
        }
        let ghost sim0 = *old(simulator);
        let ghost gclean = *self;
        self.compute_unfixed_stabilizers(simulator, noise_model);
        simulator.clear_all_errors();
        proof {
            crate::simulator::lemma_wf_ignores_installed_errors(sim0, *simulator);
        }
        // the fixed probe order: elementary kinds first, then correlated
        let correlated = crate::types::CorrelatedPauliErrorType::all_possible_errors();
        let mut all_possible_errors: Vec<CandidateError> = Vec::new();
        all_possible_errors.push(CandidateError::Elementary(ErrorType::X));
        all_possible_errors.push(CandidateError::Elementary(ErrorType::Z));
        all_possible_errors.push(CandidateError::Elementary(ErrorType::Y));
        let mut ci: usize = 0;
        while ci < correlated.len()
            invariant
                ci <= correlated@.len(),
                correlated@ =~= crate::types::CorrelatedPauliErrorType::all_kinds(),
                all_possible_errors@ =~= seq![
                    CandidateError::Elementary(ErrorType::X),
                    CandidateError::Elementary(ErrorType::Z),
                    CandidateError::Elementary(ErrorType::Y),
                ] + crate::types::CorrelatedPauliErrorType::all_kinds().take(
                    ci as int,
                ).map_values(
                    |ct: crate::types::CorrelatedPauliErrorType| CandidateError::Correlated(ct),
                ),
            decreases correlated@.len() - ci,
        {
            let ghost pre = all_possible_errors@;
            all_possible_errors.push(CandidateError::Correlated(correlated[ci]));
            proof {
                let f = |ct: crate::types::CorrelatedPauliErrorType| CandidateError::Correlated(
                    ct,
                );
                let ks = crate::types::CorrelatedPauliErrorType::all_kinds();
                assert(ks.take(ci as int + 1).map_values(f) =~= ks.take(ci as int).map_values(
                    f,
                ).push(f(ks[ci as int])));
            }
            ci = ci + 1;
        }
        proof {
            assert(crate::types::CorrelatedPauliErrorType::all_kinds().take(15)
                =~= crate::types::CorrelatedPauliErrorType::all_kinds());
            assert(all_possible_errors@ =~= probe_sequence());
            assert forall|ki: int|
                0 <= ki < all_possible_errors@.len() implies probe_order_has(
                #[trigger] all_possible_errors@[ki],
            ) by {
                if ki >= 3 {
                    assert(all_possible_errors@[ki] == CandidateError::Correlated(
                        crate::types::CorrelatedPauliErrorType::all_kinds()[ki - 3],
                    ));
                    lemma_all_kinds_wf(ki - 3);
                }
            }
        }
        let n_cands: usize = all_possible_errors.len();
        let height: usize = simulator.height;
        let vertical: usize = simulator.vertical;
        let horizontal: usize = simulator.horizontal;
        let ghost unfixed_now = self.unfixed_stabilizers;
        proof {
            lemma_graph_same_nodes(*old(self), *self);
            assert forall|a: Position, c: int, b: Position|
                0 <= c < 3 implies (#[trigger] chan_all(*self, a, c, b)) is None by {
                if self.pos_in_bounds(a) && self.node_at(a) is Some {
                    assert(old(self).node_at(a) == self.node_at(a));
                    assert(self.node_at(a)->Some_0.is_empty());
                }
            }
            assert(lists_exact(
                *self,
                sim0,
                *noise_model,
                *weight_function,
                0,
                0,
                0,
                (Position { t: 0, i: 0, j: 0 }),
                0,
            )) by {
                assert forall|a: Position, c: int, b: Position|
                    0 <= c < 3 implies #[trigger] chan_all(*self, a, c, b) == opt_of(
                    gen_rounds(sim0, *noise_model, *weight_function, 0, a, c, b) + gen_plane(
                        sim0,
                        *noise_model,
                        *weight_function,
                        0,
                        0,
                        a,
                        c,
                        b,
                    ) + gen_row(sim0, *noise_model, *weight_function, 0, 0, 0, a, c, b) + gen_cell(
                        sim0,
                        *noise_model,
                        *weight_function,
                        (Position { t: 0, i: 0, j: 0 }),
                        0,
                        a,
                        c,
                        b,
                    ),
                ) by {
                    assert((gen_rounds(sim0, *noise_model, *weight_function, 0, a, c, b)
                        + gen_plane(sim0, *noise_model, *weight_function, 0, 0, a, c, b) + gen_row(
                        sim0,
                        *noise_model,
                        *weight_function,
                        0,
                        0,
                        0,
                        a,
                        c,
                        b,
                    ) + gen_cell(
                        sim0,
                        *noise_model,
                        *weight_function,
                        (Position { t: 0, i: 0, j: 0 }),
                        0,
                        a,
                        c,
                        b,
                    )).len() == 0);
                }
            }
            crate::simulator::lemma_core_ignores_installed_errors(sim0, *simulator);
            lemma_clean_graph_symmetric(*self);
            assert(self.consistent_with(*simulator)) by {
                assert forall|p: Position|
                    simulator.in_bounds(p) implies ((#[trigger] self.node_at(p)) is Some
                    <==> simulator.is_graph_node(p)) by {
                    assert(self.node_at(p) == old(self).node_at(p));
                    assert(simulator.is_graph_node(p) == sim0.is_graph_node(p));
                }
            }
        }
        let mut t: usize = 0;
        while t < height
            invariant
                t <= height,
                height == simulator.height,
                vertical == simulator.vertical,
                horizontal == simulator.horizontal,
                n_cands == all_possible_errors@.len(),
                all_possible_errors@ =~= probe_sequence(),
                forall|ki: int|
                    0 <= ki < all_possible_errors@.len() ==> probe_order_has(
                        #[trigger] all_possible_errors@[ki],
                    ),
                simulator.wf(),
                sim0.wf(),
                sim0 == *old(simulator),
                forall|p: Position|
                    self.unfixed_stabilizers@.contains(p) <==> exists|q: Position, et: ErrorType|
                        unfixed_witness(sim0, *noise_model, p, q, et),
                simulator.nodes == sim0.nodes,
                simulator.responses == sim0.responses,
                simulator.height == sim0.height,
                simulator.vertical == sim0.vertical,
                simulator.horizontal == sim0.horizontal,
                simulator.measurement_cycles == sim0.measurement_cycles,
                simulator.installed_errors.view_seq() =~= Seq::<(Position, ErrorType)>::empty(),
                noise_model.wf(),
                noise_model.dims_match(*simulator),
                old(self).graph_clean(),
                self.wf(),
                probes_done(
                    sim0,
                    *noise_model,
                    *self,
                    *weight_function,
                    t as int,
                    0,
                    0,
                ),
                content_sound(*self, sim0, *noise_model, *weight_function),
                lists_exact(
                    *self,
                    sim0,
                    *noise_model,
                    *weight_function,
                    t as int,
                    0,
                    0,
                    (Position { t: t, i: 0, j: 0 }),
                    0,
                ),
                self.consistent_with(*simulator),
                all_edges_symmetric(*self),
                self.unfixed_stabilizers == unfixed_now,
                self.unfixed_stabilizers@ == unfixed_sequence(sim0, *noise_model),
            decreases height - t,
        {
            let mut i: usize = 0;
            while i < vertical
                invariant
                    t < height,
                    i <= vertical,
                    height == simulator.height,
                    vertical == simulator.vertical,
                    horizontal == simulator.horizontal,
                    n_cands == all_possible_errors@.len(),
                    all_possible_errors@ =~= probe_sequence(),
                    forall|ki: int|
                        0 <= ki < all_possible_errors@.len() ==> probe_order_has(
                            #[trigger] all_possible_errors@[ki],
                        ),
                    simulator.wf(),
                    sim0.wf(),
                    sim0 == *old(simulator),
                    forall|p: Position|
                        self.unfixed_stabilizers@.contains(p) <==> exists|q: Position, et: ErrorType|
                            unfixed_witness(sim0, *noise_model, p, q, et),
                    simulator.nodes == sim0.nodes,
                    simulator.responses == sim0.responses,
                    simulator.height == sim0.height,
                    simulator.vertical == sim0.vertical,
                    simulator.horizontal == sim0.horizontal,
                    simulator.measurement_cycles == sim0.measurement_cycles,
                    simulator.installed_errors.view_seq() =~= Seq::<
                        (Position, ErrorType),
                    >::empty(),
                    noise_model.wf(),
                    noise_model.dims_match(*simulator),
                    old(self).graph_clean(),
                    self.wf(),
                    probes_done(
                        sim0,
                        *noise_model,
                        *self,
                        *weight_function,
                        t as int,
                        i as int,
                        0,
                    ),
                    content_sound(*self, sim0, *noise_model, *weight_function),
                    lists_exact(
                        *self,
                        sim0,
                        *noise_model,
                        *weight_function,
                        t as int,
                        i as int,
                        0,
                        (Position { t: t, i: i, j: 0 }),
                        0,
                    ),
                    self.consistent_with(*simulator),
                    all_edges_symmetric(*self),
                    self.unfixed_stabilizers == unfixed_now,
                    self.unfixed_stabilizers@ == unfixed_sequence(sim0, *noise_model),
                decreases vertical - i,
            {
                let mut j: usize = 0;
                while j < horizontal
                    invariant
                        t < height,
                        i < vertical,
                        j <= horizontal,
                        height == simulator.height,
                        vertical == simulator.vertical,
                        horizontal == simulator.horizontal,
                        n_cands == all_possible_errors@.len(),
                        all_possible_errors@ =~= probe_sequence(),
                        forall|ki: int|
                            0 <= ki < all_possible_errors@.len() ==> probe_order_has(
                                #[trigger] all_possible_errors@[ki],
                            ),
                        simulator.wf(),
                        sim0.wf(),
                        sim0 == *old(simulator),
                        forall|p: Position|
                            self.unfixed_stabilizers@.contains(p) <==> exists|q: Position, et: ErrorType|
                                unfixed_witness(sim0, *noise_model, p, q, et),
                        simulator.nodes == sim0.nodes,
                        simulator.responses == sim0.responses,
                        simulator.height == sim0.height,
                        simulator.vertical == sim0.vertical,
                        simulator.horizontal == sim0.horizontal,
                        simulator.measurement_cycles == sim0.measurement_cycles,
                        simulator.installed_errors.view_seq() =~= Seq::<
                            (Position, ErrorType),
                        >::empty(),
                        noise_model.wf(),
                        noise_model.dims_match(*simulator),
                        old(self).graph_clean(),
                        self.wf(),
                        probes_done(
                            sim0,
                            *noise_model,
                            *self,
                            *weight_function,
                            t as int,
                            i as int,
                            j as int,
                        ),
                        content_sound(*self, sim0, *noise_model, *weight_function),
                        lists_exact(
                            *self,
                            sim0,
                            *noise_model,
                            *weight_function,
                            t as int,
                            i as int,
                            j as int,
                            (Position { t: t, i: i, j: j }),
                            0,
                        ),
                        self.consistent_with(*simulator),
                        all_edges_symmetric(*self),
                        self.unfixed_stabilizers == unfixed_now,
                        self.unfixed_stabilizers@ == unfixed_sequence(sim0, *noise_model),
                    decreases horizontal - j,
                {
                    let position = Position { t, i, j };
                    if simulator.is_node_exist(&position) {
                        let noise_node = noise_model.get_node_unwrap(&position);
                        // whether an erasure can strike this position
                        let mut possible_erasure_error: bool =
                            noise_node.erasure_error_rate.is_positive()
                            || noise_node.correlated_erasure_error_rates.is_some();
                        if !possible_erasure_error {
                            let node = simulator.get_node_unwrap(&position);
                            match &node.gate_peer {
                                Some(gate_peer) => {
                                    let peer_noise = noise_model.get_node_unwrap(gate_peer);
                                    match &peer_noise.correlated_erasure_error_rates {
                                        Some(rates) => {
                                            if rates.error_probability().is_positive() {
                                                possible_erasure_error = true;
                                            }
                                        },
                                        None => {},
                                    }
                                },
                                None => {},
                            }
                        }
                        proof {
                            assert(possible_erasure_error == erasure_possible(
                                *simulator,
                                *noise_model,
                                position,
                            ));
                        }
                        let mut ce: usize = 0;
                        while ce < n_cands
                            invariant
                                t < height,
                                i < vertical,
                                j < horizontal,
                                ce <= n_cands,
                                position == (Position { t, i, j }),
                                height == simulator.height,
                                vertical == simulator.vertical,
                                horizontal == simulator.horizontal,
                                n_cands == all_possible_errors@.len(),
                                all_possible_errors@ =~= probe_sequence(),
                                forall|ki: int|
                                    0 <= ki < all_possible_errors@.len() ==> probe_order_has(
                                        #[trigger] all_possible_errors@[ki],
                                    ),
                                simulator.wf(),
                                sim0.wf(),
                                sim0 == *old(simulator),
                                forall|p: Position|
                                    self.unfixed_stabilizers@.contains(p) <==> exists|q: Position, et: ErrorType|
                                        unfixed_witness(sim0, *noise_model, p, q, et),
                                simulator.nodes == sim0.nodes,
                                simulator.responses == sim0.responses,
                                simulator.height == sim0.height,
                                simulator.vertical == sim0.vertical,
                                simulator.horizontal == sim0.horizontal,
                                simulator.measurement_cycles == sim0.measurement_cycles,
                                simulator.installed_errors.view_seq() =~= Seq::<
                                    (Position, ErrorType),
                                >::empty(),
                                simulator.has_node(position),
                                possible_erasure_error == erasure_possible(
                                    *simulator,
                                    *noise_model,
                                    position,
                                ),
                                noise_model.wf(),
                                noise_model.dims_match(*simulator),
                                *noise_node == noise_model.node_at(position),
                                old(self).graph_clean(),
                                self.wf(),
                                probes_done(
                                    sim0,
                                    *noise_model,
                                    *self,
                                    *weight_function,
                                    t as int,
                                    i as int,
                                    j as int,
                                ),
                                position_probes_done(
                                    sim0,
                                    *noise_model,
                                    *self,
                                    *weight_function,
                                    position,
                                    ce as int,
                                ),
                                content_sound(*self, sim0, *noise_model, *weight_function),
                                lists_exact(
                                    *self,
                                    sim0,
                                    *noise_model,
                                    *weight_function,
                                    t as int,
                                    i as int,
                                    j as int,
                                    position,
                                    ce as int,
                                ),
                                self.consistent_with(*simulator),
                                all_edges_symmetric(*self),
                                self.unfixed_stabilizers == unfixed_now,
                                self.unfixed_stabilizers@ == unfixed_sequence(sim0, *noise_model),
                            decreases n_cands - ce,
                        {
                            let error: CandidateError = all_possible_errors[ce];
                            let p_rate: Prob = match &error {
                                CandidateError::Elementary(et) => {
                                    noise_node.pauli_error_rates.error_rate(et)
                                },
                                CandidateError::Correlated(ct) => {
                                    match &noise_node.correlated_pauli_error_rates {
                                        Some(rates) => rates.error_rate(ct),
                                        None => Prob::zero(),
                                    }
                                },
                            };
                            let is_erasure: bool = possible_erasure_error && match &error {
                                CandidateError::Elementary(_) => true,
                                CandidateError::Correlated(_) => false,
                            };
                            if p_rate.is_positive() || is_erasure {
                                proof {
                                    assert(p_rate == probe_rate(*noise_model, position, error));
                                    assert(sim0.node_at(position) == simulator.node_at(position));
                                    assert(erasure_possible(sim0, *noise_model, position)
                                        == erasure_possible(*simulator, *noise_model, position));
                                    assert(probe_sequence()[ce as int] == error);
                                    assert(noise_model.node_at(position).wf()) by {
                                        assert((noise_model.nodes@[position.t as int])@[
                                            position.i as int]@[position.j as int].wf());
                                    }
                                    assert(p_rate.wf());
                                }
                                match self.probe_one_candidate(
                                    simulator,
                                    noise_model,
                                    weight_function,
                                    position,
                                    error,
                                    p_rate,
                                    possible_erasure_error,
                                    Ghost(sim0),
                                    Ghost(t as int),
                                    Ghost(i as int),
                                    Ghost(j as int),
                                    Ghost(ce as int),
                                ) {
                                    Ok(()) => {},
                                    Err(e) => {
                                        return Err(e);
                                    },
                                }
                            } else {
                                proof {
                                    assert(sim0.node_at(position) == simulator.node_at(position));
                                    assert(erasure_possible(sim0, *noise_model, position)
                                        == erasure_possible(*simulator, *noise_model, position));
                                    assert(!probed(sim0, *noise_model, position, error));
                                    assert(p_rate == probe_rate(*noise_model, position, error));
                                    assert(candidate_settled(
                                        *self,
                                        sim0,
                                        *noise_model,
                                        *weight_function,
                                        position,
                                        error,
                                    )) by {
                                        match error {
                                            CandidateError::Correlated(ct2) => {
                                                assert(correlated_rate(
                                                    *noise_model,
                                                    position,
                                                    ct2,
                                                )@.0 == 0);
                                            },
                                            CandidateError::Elementary(_) => {},
                                        }
                                    }
                                    assert(!two_cluster_probe(sim0, *noise_model, position, error));
                                    assert(!four_cluster_probe(sim0, *noise_model, position, error));
                                    assert(probe_sequence()[ce as int] == error);
                                    lemma_exact_cand_inert(
                                        *self,
                                        sim0,
                                        *noise_model,
                                        *weight_function,
                                        t as int,
                                        i as int,
                                        j as int,
                                        position,
                                        ce as int,
                                    );
                                    lemma_position_step(
                                        *self,
                                        sim0,
                                        *noise_model,
                                        *weight_function,
                                        position,
                                        ce as int,
                                        error,
                                    );
                                }
                            }
                            ce = ce + 1;
                        }
                    }
                    proof {
                        assert(all_possible_errors@.len() == probe_sequence().len());
                        assert(sim0.has_node(position) == simulator.has_node(position));
                        lemma_cell_complete(
                            *self,
                            sim0,
                            *noise_model,
                            *weight_function,
                            t as int,
                            i as int,
                            j as int,
                            position,
                        );
                        if !sim0.has_node(position) {
                            lemma_gen_cell_no_node(
                                sim0,
                                *noise_model,
                                *weight_function,
                                position,
                                probe_sequence().len() as int,
                            );
                            assert(lists_exact(
                                *self,
                                sim0,
                                *noise_model,
                                *weight_function,
                                t as int,
                                i as int,
                                j as int,
                                position,
                                probe_sequence().len() as int,
                            )) by {
                                assert forall|a: Position, c: int, b: Position|
                                    0 <= c < 3 implies #[trigger] chan_all(*self, a, c, b)
                                    == opt_of(
                                    gen_rounds(sim0, *noise_model, *weight_function, t as int, a, c, b)
                                        + gen_plane(
                                        sim0,
                                        *noise_model,
                                        *weight_function,
                                        t as int,
                                        i as int,
                                        a,
                                        c,
                                        b,
                                    ) + gen_row(
                                        sim0,
                                        *noise_model,
                                        *weight_function,
                                        t as int,
                                        i as int,
                                        j as int,
                                        a,
                                        c,
                                        b,
                                    ) + gen_cell(
                                        sim0,
                                        *noise_model,
                                        *weight_function,
                                        position,
                                        probe_sequence().len() as int,
                                        a,
                                        c,
                                        b,
                                    ),
                                ) by {
                                    assert(gen_rounds(sim0, *noise_model, *weight_function, t as int, a, c, b)
                                        + gen_plane(
                                        sim0,
                                        *noise_model,
                                        *weight_function,
                                        t as int,
                                        i as int,
                                        a,
                                        c,
                                        b,
                                    ) + gen_row(
                                        sim0,
                                        *noise_model,
                                        *weight_function,
                                        t as int,
                                        i as int,
                                        j as int,
                                        a,
                                        c,
                                        b,
                                    ) + gen_cell(
                                        sim0,
                                        *noise_model,
                                        *weight_function,
                                        position,
                                        probe_sequence().len() as int,
                                        a,
                                        c,
                                        b,
                                    ) =~= gen_rounds(sim0, *noise_model, *weight_function, t as int, a, c, b)
                                        + gen_plane(
                                        sim0,
                                        *noise_model,
                                        *weight_function,
                                        t as int,
                                        i as int,
                                        a,
                                        c,
                                        b,
                                    ) + gen_row(
                                        sim0,
                                        *noise_model,
                                        *weight_function,
                                        t as int,
                                        i as int,
                                        j as int,
                                        a,
                                        c,
                                        b,
                                    ) + gen_cell(
                                        sim0,
                                        *noise_model,
                                        *weight_function,
                                        position,
                                        0,
                                        a,
                                        c,
                                        b,
                                    ));
                                }
                            }
                        }
                        lemma_exact_roll_cell(
                            *self,
                            sim0,
                            *noise_model,
                            *weight_function,
                            t as int,
                            i as int,
                            j as int,
                            position,
                            (Position { t: t, i: i, j: (j + 1) as usize }),
                        );
                    }
                    j = j + 1;
                }
                proof {
                    lemma_exact_roll_row(
                        *self,
                        sim0,
                        *noise_model,
                        *weight_function,
                        t as int,
                        i as int,
                        (Position { t: t, i: (i + 1) as usize, j: 0 }),
                    );
                }
                i = i + 1;
            }
            proof {
                lemma_exact_roll_plane(
                    *self,
                    sim0,
                    *noise_model,
                    *weight_function,
                    t as int,
                    (Position { t: (t + 1) as usize, i: 0, j: 0 }),
                );
            }
            t = t + 1;
        }
        let ghost ge0 = *self;
        let elect_result = self.elect_edges(simulator, use_combined_probability, weight_function);
        match elect_result {
            Ok(()) => {},
            Err(e) => {
                proof {
                    let (p, c, q) = choose|p: Position, c: int, q: Position|
                        0 <= c < 3 && (#[trigger] chan_all(ge0, p, c, q)) is Some && elected_of(
                            chan_all(ge0, p, c, q),
                            use_combined_probability,
                            *weight_function,
                        ) is None;
                    assert(chan_all(*self, p, c, q) == chan_all(ge0, p, c, q));
                }
                return Err(e);
            },
        }
        // record the virtual nodes at the lattice boundary
        let mut virtual_nodes: Vec<Position> = Vec::new();
        let mut t2: usize = 0;
        while t2 < height
            invariant
                t2 <= height,
                height == simulator.height,
                vertical == simulator.vertical,
                horizontal == simulator.horizontal,
                simulator.wf(),
                self.consistent_with(*simulator),
                forall|k: int, l: int|
                    0 <= k < l < virtual_nodes@.len() ==> lex_before(
                        #[trigger] virtual_nodes@[k],
                        virtual_nodes@[l].t as int,
                        virtual_nodes@[l].i as int,
                        #[trigger] virtual_nodes@[l].j as int,
                    ),
                forall|p: Position|
                    virtual_nodes@.contains(p) <==> simulator.is_graph_node(p) && simulator.node_at(
                        p,
                    )->Some_0.is_virtual && lex_before(p, t2 as int, 0, 0),
            decreases height - t2,
        {
            let mut i2: usize = 0;
            while i2 < vertical
                invariant
                    t2 < height,
                    i2 <= vertical,
                    height == simulator.height,
                    vertical == simulator.vertical,
                    horizontal == simulator.horizontal,
                    simulator.wf(),
                    self.consistent_with(*simulator),
                    forall|k: int, l: int|
                        0 <= k < l < virtual_nodes@.len() ==> lex_before(
                            #[trigger] virtual_nodes@[k],
                            virtual_nodes@[l].t as int,
                            virtual_nodes@[l].i as int,
                            #[trigger] virtual_nodes@[l].j as int,
                        ),
                    forall|p: Position|
                        virtual_nodes@.contains(p) <==> simulator.is_graph_node(p)
                            && simulator.node_at(p)->Some_0.is_virtual && lex_before(
                            p,
                            t2 as int,
                            i2 as int,
                            0,
                        ),
                decreases vertical - i2,
            {
                let mut j2: usize = 0;
                while j2 < horizontal
                    invariant
                        t2 < height,
                        i2 < vertical,
                        j2 <= horizontal,
                        height == simulator.height,
                        vertical == simulator.vertical,
                        horizontal == simulator.horizontal,
                        simulator.wf(),
                        self.consistent_with(*simulator),
                        forall|k: int, l: int|
                            0 <= k < l < virtual_nodes@.len() ==> lex_before(
                                #[trigger] virtual_nodes@[k],
                                virtual_nodes@[l].t as int,
                                virtual_nodes@[l].i as int,
                                #[trigger] virtual_nodes@[l].j as int,
                            ),
                        forall|p: Position|
                            virtual_nodes@.contains(p) <==> simulator.is_graph_node(p)
                                && simulator.node_at(p)->Some_0.is_virtual && lex_before(
                                p,
                                t2 as int,
                                i2 as int,
                                j2 as int,
                            ),
                    decreases horizontal - j2,
                {
                    let position = Position { t: t2, i: i2, j: j2 };
                    let ghost acc0 = virtual_nodes@;
                    if self.is_node_exist(&position) {
                        let node = simulator.get_node_unwrap(&position);
                        if node.is_virtual {
                            virtual_nodes.push(position);
                        }
                    }
                    proof {
                        assert forall|k: int, l: int|
                            0 <= k < l < virtual_nodes@.len() implies lex_before(
                            #[trigger] virtual_nodes@[k],
                            virtual_nodes@[l].t as int,
                            virtual_nodes@[l].i as int,
                            #[trigger] virtual_nodes@[l].j as int,
                        ) by {
                            if l >= acc0.len() {
                                assert(virtual_nodes@[l] == position);
                                assert(virtual_nodes@[k] == acc0[k]);
                                assert(acc0.contains(acc0[k]));
                            }
                        }
                        assert forall|p: Position|
                            virtual_nodes@.contains(p) <==> simulator.is_graph_node(p)
                                && simulator.node_at(p)->Some_0.is_virtual && lex_before(
                                p,
                                t2 as int,
                                i2 as int,
                                j2 as int + 1,
                            ) by {
                            if virtual_nodes@.contains(p) && !acc0.contains(p) {
                                assert(p == position);
                            }
                            if !virtual_nodes@.contains(p) && simulator.is_graph_node(p)
                                && simulator.node_at(p)->Some_0.is_virtual && lex_before(
                                p,
                                t2 as int,
                                i2 as int,
                                j2 as int + 1,
                            ) {
                                if lex_before(p, t2 as int, i2 as int, j2 as int) {
                                    assert(acc0.contains(p));
                                    let m = choose|m: int| 0 <= m < acc0.len() && acc0[m] == p;
                                    assert(virtual_nodes@[m] == p);
                                    assert(virtual_nodes@.contains(p));
                                } else {
                                    assert(p == position);
                                    assert(virtual_nodes@ == acc0.push(position));
                                    assert(virtual_nodes@[virtual_nodes@.len() - 1] == position);
                                    assert(virtual_nodes@.contains(p));
                                }
                            }
                        }
                    }
                    j2 = j2 + 1;
                }
                i2 = i2 + 1;
            }
            t2 = t2 + 1;
        }
        // record the corner virtual nodes with their metadata-supplied peers
        let mut corner_virtual_nodes: Vec<(Position, Position)> = Vec::new();
        let mut t3: usize = 0;
        while t3 < height
            invariant
                t3 <= height,
                height == simulator.height,
                vertical == simulator.vertical,
                horizontal == simulator.horizontal,
                simulator.wf(),
                self.consistent_with(*simulator),
                forall|k: int, l: int|
                    0 <= k < l < corner_virtual_nodes@.len() ==> lex_before(
                        (#[trigger] corner_virtual_nodes@[k]).0,
                        corner_virtual_nodes@[l].0.t as int,
                        corner_virtual_nodes@[l].0.i as int,
                        (#[trigger] corner_virtual_nodes@[l]).0.j as int,
                    ),
                forall|pr: (Position, Position)|
                    corner_virtual_nodes@.contains(pr) <==> simulator.is_graph_node(pr.0)
                        && simulator.node_at(pr.0)->Some_0.is_virtual && simulator.node_at(
                        pr.0,
                    )->Some_0.is_corner && simulator.node_at(pr.0)->Some_0.corner_peer == Some(
                        pr.1,
                    ) && lex_before(pr.0, t3 as int, 0, 0),
            decreases height - t3,
        {
            let mut i3: usize = 0;
            while i3 < vertical
                invariant
                    t3 < height,
                    i3 <= vertical,
                    height == simulator.height,
                    vertical == simulator.vertical,
                    horizontal == simulator.horizontal,
                    simulator.wf(),
                    self.consistent_with(*simulator),
                    forall|k: int, l: int|
                        0 <= k < l < corner_virtual_nodes@.len() ==> lex_before(
                            (#[trigger] corner_virtual_nodes@[k]).0,
                            corner_virtual_nodes@[l].0.t as int,
                            corner_virtual_nodes@[l].0.i as int,
                            (#[trigger] corner_virtual_nodes@[l]).0.j as int,
                        ),
                    forall|pr: (Position, Position)|
                        corner_virtual_nodes@.contains(pr) <==> simulator.is_graph_node(pr.0)
                            && simulator.node_at(pr.0)->Some_0.is_virtual && simulator.node_at(
                            pr.0,
                        )->Some_0.is_corner && simulator.node_at(pr.0)->Some_0.corner_peer == Some(
                            pr.1,
                        ) && lex_before(pr.0, t3 as int, i3 as int, 0),
                decreases vertical - i3,
            {
                let mut j3: usize = 0;
                while j3 < horizontal
                    invariant
                        t3 < height,
                        i3 < vertical,
                        j3 <= horizontal,
                        height == simulator.height,
                        vertical == simulator.vertical,
                        horizontal == simulator.horizontal,
                        simulator.wf(),
                        self.consistent_with(*simulator),
                        forall|k: int, l: int|
                            0 <= k < l < corner_virtual_nodes@.len() ==> lex_before(
                                (#[trigger] corner_virtual_nodes@[k]).0,
                                corner_virtual_nodes@[l].0.t as int,
                                corner_virtual_nodes@[l].0.i as int,
                                (#[trigger] corner_virtual_nodes@[l]).0.j as int,
                            ),
                        forall|pr: (Position, Position)|
                            corner_virtual_nodes@.contains(pr) <==> simulator.is_graph_node(pr.0)
                                && simulator.node_at(pr.0)->Some_0.is_virtual
                                && simulator.node_at(pr.0)->Some_0.is_corner && simulator.node_at(
                                pr.0,
                            )->Some_0.corner_peer == Some(pr.1) && lex_before(
                                pr.0,
                                t3 as int,
                                i3 as int,
                                j3 as int,
                            ),
                    decreases horizontal - j3,
                {
                    let position = Position { t: t3, i: i3, j: j3 };
                    let ghost acc0 = corner_virtual_nodes@;
                    if self.is_node_exist(&position) {
                        let node = simulator.get_node_unwrap(&position);
                        if node.is_virtual && node.is_corner {
                            match &node.corner_peer {
                                Some(peer) => {
                                    corner_virtual_nodes.push((position, *peer));
                                },
                                None => {
                                    proof {
                                        assert(false);
                                    }
                                },
                            }
                        }
                    }
                    proof {
                        assert forall|k: int, l: int|
                            0 <= k < l < corner_virtual_nodes@.len() implies lex_before(
                            (#[trigger] corner_virtual_nodes@[k]).0,
                            corner_virtual_nodes@[l].0.t as int,
                            corner_virtual_nodes@[l].0.i as int,
                            (#[trigger] corner_virtual_nodes@[l]).0.j as int,
                        ) by {
                            if l >= acc0.len() {
                                assert(corner_virtual_nodes@[l].0 == position);
                                assert(corner_virtual_nodes@[k] == acc0[k]);
                                assert(acc0.contains(acc0[k]));
                            }
                        }
                        assert forall|pr: (Position, Position)|
                            corner_virtual_nodes@.contains(pr) <==> simulator.is_graph_node(pr.0)
                                && simulator.node_at(pr.0)->Some_0.is_virtual
                                && simulator.node_at(pr.0)->Some_0.is_corner && simulator.node_at(
                                pr.0,
                            )->Some_0.corner_peer == Some(pr.1) && lex_before(
                                pr.0,
                                t3 as int,
                                i3 as int,
                                j3 as int + 1,
                            ) by {
                            if corner_virtual_nodes@.contains(pr) && !acc0.contains(pr) {
                                assert(pr.0 == position);
                            }
                            if !corner_virtual_nodes@.contains(pr) && simulator.is_graph_node(
                                pr.0,
                            ) && simulator.node_at(pr.0)->Some_0.is_virtual && simulator.node_at(
                                pr.0,
                            )->Some_0.is_corner && simulator.node_at(pr.0)->Some_0.corner_peer
                                == Some(pr.1) && lex_before(
                                pr.0,
                                t3 as int,
                                i3 as int,
                                j3 as int + 1,
                            ) {
                                if lex_before(pr.0, t3 as int, i3 as int, j3 as int) {
                                    assert(acc0.contains(pr));
                                    let m = choose|m: int| 0 <= m < acc0.len() && acc0[m] == pr;
                                    assert(corner_virtual_nodes@[m] == pr);
                                    assert(corner_virtual_nodes@.contains(pr));
                                } else {
                                    assert(pr.0 == position);
                                    assert(corner_virtual_nodes@ == acc0.push((position, pr.1)));
                                    assert(corner_virtual_nodes@[corner_virtual_nodes@.len() - 1]
                                        == (position, pr.1));
                                    assert(corner_virtual_nodes@.contains(pr));
                                }
                            }
                        }
                    }
                    j3 = j3 + 1;
                }
                i3 = i3 + 1;
            }
            t3 = t3 + 1;
        }
        let ghost gelect = *self;
        self.virtual_nodes = virtual_nodes;
        self.corner_virtual_nodes = corner_virtual_nodes;
        proof {
            lemma_graph_same_nodes(gelect, *self);
            lemma_consistent_same_nodes(gelect, *self, *simulator);
            assert(elected_matches(*self, use_combined_probability, *weight_function)) by {
                assert forall|p: Position, c: int, q: Position|
                    0 <= c < 3 implies #[trigger] chan_elected(*self, p, c, q) == (match chan_all(
                    *self,
                    p,
                    c,
                    q,
                ) {
                    None => None,
                    Some(list) => elect_spec(list, use_combined_probability, *weight_function),
                }) by {
                    assert(chan_elected(*self, p, c, q) == chan_elected(gelect, p, c, q));
                    assert(chan_all(*self, p, c, q) == chan_all(gelect, p, c, q));
                }
            }
            assert forall|p: Position, c: int, q: Position|
                0 <= c < 3 && (#[trigger] chan_all(*self, p, c, q)) is Some implies chan_elected(
                *self,
                p,
                c,
                q,
            ) is Some by {
                assert(chan_all(*self, p, c, q) == chan_all(gelect, p, c, q));
                assert(chan_elected(*self, p, c, q) == chan_elected(gelect, p, c, q));
            }
            assert(self.consistent_with(sim0)) by {
                assert forall|p: Position|
                    sim0.in_bounds(p) implies ((#[trigger] self.node_at(p)) is Some
                    <==> sim0.is_graph_node(p)) by {
                    assert(sim0.is_graph_node(p) == simulator.is_graph_node(p));
                }
            }
            assert forall|a: Position, c: int, b: Position|
                0 <= c < 3 implies #[trigger] chan_all(*self, a, c, b) == chan_all(
                ge0,
                a,
                c,
                b,
            ) by {
                assert(chan_all(*self, a, c, b) == chan_all(gelect, a, c, b));
                assert(chan_all(gelect, a, c, b) == chan_all(ge0, a, c, b));
            }
            assert forall|pp: Position, ct: crate::types::CorrelatedPauliErrorType|
                !(#[trigger] peer_missing_cause(sim0, *noise_model, pp, ct)) by {
                if peer_missing_cause(sim0, *noise_model, pp, ct) {
                    assert(lex_before(pp, sim0.height as int, 0, 0));
                }
            }
            assert forall|pp: Position, cand: CandidateError|
                !(#[trigger] mismatch_cause(sim0, *noise_model, pp, cand)) by {
                if mismatch_cause(sim0, *noise_model, pp, cand) {
                    assert(lex_before(pp, sim0.height as int, 0, 0));
                }
            }
            assert forall|pp: Position, cand: CandidateError|
                #[trigger] two_cluster_probe(sim0, *noise_model, pp, cand) implies
                two_cluster_edges_present(
                *self,
                sim0,
                *noise_model,
                *weight_function,
                pp,
                cand,
            ) by {
                assert(lex_before(pp, sim0.height as int, 0, 0));
                assert(two_cluster_edges_present(
                    ge0,
                    sim0,
                    *noise_model,
                    *weight_function,
                    pp,
                    cand,
                ));
                let resp = sim0.oracle_response(pp, cand)->Some_0;
                let aa = two_endpoints(resp).0;
                let bb = two_endpoints(resp).1;
                let emx = probe_edge_model(sim0, *noise_model, *weight_function, pp, cand);
                assert forall|c: int|
                    0 <= c < 3 implies (#[trigger] chan_all(*self, aa, c, bb)) is Some
                    && chan_all(*self, aa, c, bb)->Some_0.contains(emx) && chan_all(
                    *self,
                    bb,
                    c,
                    aa,
                ) is Some && chan_all(*self, bb, c, aa)->Some_0.contains(emx) by {
                    assert(chan_all(*self, aa, c, bb) == chan_all(ge0, aa, c, bb));
                    assert(chan_all(*self, bb, c, aa) == chan_all(ge0, bb, c, aa));
                    assert(chan_all(ge0, aa, c, bb)->Some_0.contains(emx));
                    assert(chan_all(ge0, bb, c, aa)->Some_0.contains(emx));
                }
            }
            assert forall|pp: Position, cand: CandidateError|
                #[trigger] four_cluster_probe(sim0, *noise_model, pp, cand) implies
                four_cluster_edges_present(
                *self,
                sim0,
                *noise_model,
                *weight_function,
                pp,
                cand,
            ) by {
                assert(lex_before(pp, sim0.height as int, 0, 0));
                assert(four_cluster_edges_present(
                    ge0,
                    sim0,
                    *noise_model,
                    *weight_function,
                    pp,
                    cand,
                ));
                let resp = sim0.oracle_response(pp, cand)->Some_0;
                let roles0 = spec_cluster_roles(sim0, cluster_positions(resp))->Some_0;
                let emx = probe_edge_model(sim0, *noise_model, *weight_function, pp, cand);
                assert forall|a2: Position, b2: Position, c2: int|
                    #[trigger] cluster_pair(roles0, c2, a2, b2) implies chan_all(
                    *self,
                    a2,
                    c2,
                    b2,
                ) is Some && chan_all(*self, a2, c2, b2)->Some_0.contains(emx) by {
                    assert(chan_all(*self, a2, c2, b2) == chan_all(ge0, a2, c2, b2));
                    assert(chan_all(ge0, a2, c2, b2)->Some_0.contains(emx));
                }
            }
            assert forall|a: Position, c: int, b: Position|
                0 <= c < 3 implies #[trigger] chan_all(*self, a, c, b) == opt_of(
                generated_list(sim0, *noise_model, *weight_function, a, c, b),
            ) by {
                assert(chan_all(*self, a, c, b) == chan_all(ge0, a, c, b));
                assert(chan_all(ge0, a, c, b) == opt_of(
                    gen_rounds(sim0, *noise_model, *weight_function, sim0.height as int, a, c, b)
                        + gen_plane(
                        sim0,
                        *noise_model,
                        *weight_function,
                        sim0.height as int,
                        0,
                        a,
                        c,
                        b,
                    ) + gen_row(
                        sim0,
                        *noise_model,
                        *weight_function,
                        sim0.height as int,
                        0,
                        0,
                        a,
                        c,
                        b,
                    ) + gen_cell(
                        sim0,
                        *noise_model,
                        *weight_function,
                        (Position { t: sim0.height, i: 0, j: 0 }),
                        0,
                        a,
                        c,
                        b,
                    ),
                ));
                assert(gen_rounds(sim0, *noise_model, *weight_function, sim0.height as int, a, c, b)
                    + gen_plane(
                    sim0,
                    *noise_model,
                    *weight_function,
                    sim0.height as int,
                    0,
                    a,
                    c,
                    b,
                ) + gen_row(
                    sim0,
                    *noise_model,
                    *weight_function,
                    sim0.height as int,
                    0,
                    0,
                    a,
                    c,
                    b,
                ) + gen_cell(
                    sim0,
                    *noise_model,
                    *weight_function,
                    (Position { t: sim0.height, i: 0, j: 0 }),
                    0,
                    a,
                    c,
                    b,
                ) =~= generated_list(sim0, *noise_model, *weight_function, a, c, b));
            }
            assert(content_sound(*self, sim0, *noise_model, *weight_function)) by {
                assert forall|a: Position, c: int, b: Position, k: int|
                    0 <= c < 3 && (chan_all(*self, a, c, b)) is Some && 0 <= k < chan_all(
                        *self,
                        a,
                        c,
                        b,
                    )->Some_0.len() implies edge_generated(
                    sim0,
                    *noise_model,
                    *weight_function,
                    a,
                    c,
                    b,
                    #[trigger] stored_candidate(*self, a, c, b, k),
                ) by {
                    assert(chan_all(*self, a, c, b) == chan_all(ge0, a, c, b));
                    assert(stored_candidate(*self, a, c, b, k) == stored_candidate(
                        ge0,
                        a,
                        c,
                        b,
                        k,
                    ));
                }
            }
        }
        Ok(())
    }

    /// Builds the graph with the configured weight policy; it behaves
    /// exactly as `build_with_weight_function` with that policy, and its
    /// abort behaviour is the same: discard the structure after an error.
    pub fn build(
        &mut self,
        simulator: &mut Simulator,
        noise_model: &NoiseModel,
        weight_function: &WeightFunction,
        use_combined_probability: bool,
    ) -> (r: Result<(), BuildError>)
        requires
            old(simulator).wf(),
            noise_model.wf(),
            noise_model.dims_match(*old(simulator)),
            old(self).wf(),
            old(self).consistent_with(*old(simulator)),
        ensures
            (r == Err::<(), BuildError>(BuildError::StateNotClean)) <==> !old(self).graph_clean(),
            r == Err::<(), BuildError>(BuildError::StateNotClean) ==> *final(self) == *old(self)
                && *final(simulator) == *old(simulator),
            r == Err::<(), BuildError>(BuildError::GatePeerMissing) ==> exists|
                pp: Position,
                ct: crate::types::CorrelatedPauliErrorType,
            | peer_missing_cause(*old(simulator), *noise_model, pp, ct),
            r == Err::<(), BuildError>(BuildError::QubitTypeMismatch) ==> exists|
                pp: Position,
                cand: CandidateError,
            | mismatch_cause(*old(simulator), *noise_model, pp, cand),
            r == Err::<(), BuildError>(BuildError::ProbabilityOverflow) ==> exists|
                p: Position,
                c: int,
                q: Position,
            |
                0 <= c < 3 && (#[trigger] chan_all(*final(self), p, c, q)) is Some && elected_of(
                    chan_all(*final(self), p, c, q),
                    use_combined_probability,
                    *weight_function,
                ) is None,
            r is Ok ==> final(self).wf(),
            r is Ok ==> final(self).consistent_with(*old(simulator)),
            r is Ok ==> all_edges_symmetric(*final(self)),
            r is Ok ==> elected_matches(
                *final(self),
                use_combined_probability,
                *weight_function,
            ),
            r is Ok ==> forall|p: Position, c: int, q: Position|
                0 <= c < 3 && (#[trigger] chan_all(*final(self), p, c, q)) is Some
                    ==> chan_elected(*final(self), p, c, q) is Some,
            r is Ok ==> forall|pp: Position, ct: crate::types::CorrelatedPauliErrorType|
                !(#[trigger] peer_missing_cause(*old(simulator), *noise_model, pp, ct)),
            r is Ok ==> forall|pp: Position, cand: CandidateError|
                !(#[trigger] mismatch_cause(*old(simulator), *noise_model, pp, cand)),
            r is Ok ==> forall|pp: Position, cand: CandidateError|
                #[trigger] two_cluster_probe(*old(simulator), *noise_model, pp, cand)
                    ==> two_cluster_edges_present(
                    *final(self),
                    *old(simulator),
                    *noise_model,
                    *weight_function,
                    pp,
                    cand,
                ),
            r is Ok ==> forall|pp: Position, cand: CandidateError|
                #[trigger] four_cluster_probe(*old(simulator), *noise_model, pp, cand)
                    ==> four_cluster_edges_present(
                    *final(self),
                    *old(simulator),
                    *noise_model,
                    *weight_function,
                    pp,
                    cand,
                ),
            r is Ok ==> content_sound(
                *final(self),
                *old(simulator),
                *noise_model,
                *weight_function,
            ),
            r is Ok ==> forall|a: Position, c: int, b: Position|
                0 <= c < 3 ==> #[trigger] chan_all(*final(self), a, c, b) == opt_of(
                    generated_list(*old(simulator), *noise_model, *weight_function, a, c, b),
                ),
            r is Ok ==> forall|p: Position|
                final(self).virtual_nodes@.contains(p) <==> old(simulator).is_graph_node(p) && old(simulator).node_at(p)->Some_0.is_virtual,
            r is Ok ==> forall|pr: (Position, Position)|
                final(self).corner_virtual_nodes@.contains(pr) <==> old(simulator).is_graph_node(pr.0) && old(simulator).node_at(pr.0)->Some_0.is_virtual && old(simulator).node_at(pr.0)->Some_0.is_corner && old(simulator).node_at(
                    pr.0,
                )->Some_0.corner_peer == Some(pr.1),
            r is Ok ==> forall|k: int, l: int|
                0 <= k < l < final(self).virtual_nodes@.len() ==> lex_before(
                    #[trigger] final(self).virtual_nodes@[k],
                    final(self).virtual_nodes@[l].t as int,
                    final(self).virtual_nodes@[l].i as int,
                    #[trigger] final(self).virtual_nodes@[l].j as int,
                ),
            r is Ok ==> forall|k: int, l: int|
                0 <= k < l < final(self).corner_virtual_nodes@.len() ==> lex_before(
                    (#[trigger] final(self).corner_virtual_nodes@[k]).0,
                    final(self).corner_virtual_nodes@[l].0.t as int,
                    final(self).corner_virtual_nodes@[l].0.i as int,
                    (#[trigger] final(self).corner_virtual_nodes@[l]).0.j as int,
                ),
            r != Err::<(), BuildError>(BuildError::StateNotClean) ==> forall|p: Position|
                final(self).unfixed_stabilizers@.contains(p) <==> exists|
                    q: Position,
                    et: ErrorType,
                | unfixed_witness(*old(simulator), *noise_model, p, q, et),
            r != Err::<(), BuildError>(BuildError::StateNotClean)
                ==> final(self).unfixed_stabilizers@ == unfixed_sequence(
                *old(simulator),
                *noise_model,
            ),
            r != Err::<(), BuildError>(BuildError::StateNotClean) ==> final(simulator).installed_errors.view_seq() =~= Seq::<(Position, ErrorType)>::empty() && final(simulator).nodes == old(simulator).nodes && final(simulator).responses == old(simulator).responses && final(simulator).height == old(simulator).height && final(simulator).vertical == old(simulator).vertical && final(simulator).horizontal == old(simulator).horizontal && final(simulator).measurement_cycles == old(simulator).measurement_cycles,
    {
        self.build_with_weight_function(
            simulator,
            noise_model,
            weight_function,
            use_combined_probability,
        )
    }
}

/// The found response of a probe is one of the recorded responses.
proof fn lemma_find_response_is_recorded(
    s: Seq<((Position, CandidateError), OracleResponse)>,
    position: Position,
    error: CandidateError,
)
    requires
        crate::simulator::find_response(s, position, error) is Some,
    ensures
        exists|ri: int|
            0 <= ri < s.len() && (#[trigger] s[ri]).1 == crate::simulator::find_response(
                s,
                position,
                error,
            )->Some_0,
    decreases s.len(),
{
    if s.len() == 0 {
    } else if s[0].0 == (position, error) {
        assert(s[0].1 == crate::simulator::find_response(s, position, error)->Some_0);
    } else {
        lemma_find_response_is_recorded(s.drop_first(), position, error);
        let ri = choose|ri: int|
            0 <= ri < s.drop_first().len() && (#[trigger] s.drop_first()[ri]).1
                == crate::simulator::find_response(s.drop_first(), position, error)->Some_0;
        assert(s[ri + 1].1 == crate::simulator::find_response(s, position, error)->Some_0);
    }
}

/// Whether some cluster member sits at this optional lattice coordinate.
pub open spec fn coord_in(ms: Seq<Position>, d: Option<(usize, usize)>) -> bool {
    exists|y: int| 0 <= y < ms.len() && d == Some((ms[y].i, ms[y].j))
}

/// The up role: both lower diagonal neighbors are cluster members.
pub open spec fn cond_up(sim: Simulator, ms: Seq<Position>, x: int) -> bool {
    coord_in(ms, sim.node_at(ms[x])->Some_0.left_down) && coord_in(
        ms,
        sim.node_at(ms[x])->Some_0.right_down,
    )
}

/// The down role: both upper diagonal neighbors are cluster members.
pub open spec fn cond_down(sim: Simulator, ms: Seq<Position>, x: int) -> bool {
    coord_in(ms, sim.node_at(ms[x])->Some_0.left_up) && coord_in(
        ms,
        sim.node_at(ms[x])->Some_0.right_up,
    )
}

/// The right role: both left diagonal neighbors are cluster members.
pub open spec fn cond_right(sim: Simulator, ms: Seq<Position>, x: int) -> bool {
    coord_in(ms, sim.node_at(ms[x])->Some_0.left_up) && coord_in(
        ms,
        sim.node_at(ms[x])->Some_0.left_down,
    )
}

/// The left role: both right diagonal neighbors are cluster members.
pub open spec fn cond_left(sim: Simulator, ms: Seq<Position>, x: int) -> bool {
    coord_in(ms, sim.node_at(ms[x])->Some_0.right_up) && coord_in(
        ms,
        sim.node_at(ms[x])->Some_0.right_down,
    )
}

/// The last index below `n` satisfying a condition, mirroring the scan
/// that lets a later candidate overwrite an earlier one.
pub open spec fn last_cond_index(cond: spec_fn(int) -> bool, n: int) -> Option<int>
    decreases n,
{
    if n <= 0 {
        None
    } else if cond(n - 1) {
        Some(n - 1)
    } else {
        last_cond_index(cond, n - 1)
    }
}

/// The cluster member assigned a role, if any.
pub open spec fn role_position(ms: Seq<Position>, idx: Option<int>) -> Option<Position> {
    match idx {
        None => None,
        Some(x) => Some(ms[x]),
    }
}

/// What role resolution returns for a four-syndrome cluster: the four
/// roles by the diagonal-neighbor predicates, defined only when all four
/// resolve to four distinct syndromes.
pub open spec fn spec_cluster_roles(sim: Simulator, ms: Seq<Position>) -> Option<
    (Position, Position, Position, Position),
> {
    let up = role_position(ms, last_cond_index(|x: int| cond_up(sim, ms, x), 4));
    let down = role_position(ms, last_cond_index(|x: int| cond_down(sim, ms, x), 4));
    let left = role_position(ms, last_cond_index(|x: int| cond_left(sim, ms, x), 4));
    let right = role_position(ms, last_cond_index(|x: int| cond_right(sim, ms, x), 4));
    match (up, down, left, right) {
        (Some(u), Some(d), Some(l), Some(r)) => if u != r && u != d && u != l && d != l && d != r
            && l != r {
            Some((u, d, l, r))
        } else {
            None
        },
        _ => None,
    }
}

/// Whether some cluster member sits at this optional lattice coordinate.
fn coord_among(ms: &Vec<Position>, d: &Option<(usize, usize)>) -> (r: bool)
    ensures
        r == coord_in(ms@, *d),
{
    let n: usize = ms.len();
    let mut y: usize = 0;
    while y < n
        invariant
            y <= n,
            n == ms@.len(),
            forall|m: int| 0 <= m < y ==> *d != Some(((#[trigger] ms@[m]).i, ms@[m].j)),
        decreases n - y,
    {
        if matches_coord(d, ms[y].i, ms[y].j) {
            return true;
        }
        y = y + 1;
    }
    false
}

/// Resolves the geometric roles of a four-syndrome cluster: a candidate is
/// up when two of the others sit at its lower-left and lower-right
/// diagonal neighbors, and symmetrically for down, left and right; a later
/// candidate overwrites an earlier one. Returns `None` unless all four
/// roles resolve to four distinct syndromes.
fn resolve_cluster_roles(simulator: &Simulator, ms: &Vec<Position>) -> (r: Option<
    (Position, Position, Position, Position),
>)
    requires
        simulator.wf(),
        ms@.len() == 4,
        forall|k: int| 0 <= k < 4 ==> simulator.is_graph_node(#[trigger] ms@[k]),
    ensures
        r == spec_cluster_roles(*simulator, ms@),
        match r {
            Some((up, down, left, right)) => {
                &&& simulator.is_graph_node(up) && simulator.is_graph_node(down)
                    && simulator.is_graph_node(left) && simulator.is_graph_node(right)
                &&& up != right && up != down && up != left && down != left && down != right
                    && left != right
            },
            None => true,
        },
{
    let mut up: Option<Position> = None;
    let mut down: Option<Position> = None;
    let mut left: Option<Position> = None;
    let mut right: Option<Position> = None;
    let mut x: usize = 0;
    while x < 4
        invariant
            x <= 4,
            simulator.wf(),
            ms@.len() == 4,
            forall|k: int| 0 <= k < 4 ==> simulator.is_graph_node(#[trigger] ms@[k]),
            up == role_position(
                ms@,
                last_cond_index(|xx: int| cond_up(*simulator, ms@, xx), x as int),
            ),
            down == role_position(
                ms@,
                last_cond_index(|xx: int| cond_down(*simulator, ms@, xx), x as int),
            ),
            left == role_position(
                ms@,
                last_cond_index(|xx: int| cond_left(*simulator, ms@, xx), x as int),
            ),
            right == role_position(
                ms@,
                last_cond_index(|xx: int| cond_right(*simulator, ms@, xx), x as int),
            ),
        decreases 4 - x,
    {
        let node_x = simulator.get_node_unwrap(&ms[x]);
        let in_left_up = coord_among(ms, &node_x.left_up);
        let in_left_down = coord_among(ms, &node_x.left_down);
        let in_right_up = coord_among(ms, &node_x.right_up);
        let in_right_down = coord_among(ms, &node_x.right_down);
        if in_left_down && in_right_down {
            up = Some(ms[x]);
        }
        if in_left_up && in_right_up {
            down = Some(ms[x]);
        }
        if in_left_up && in_left_down {
            right = Some(ms[x]);
        }
        if in_right_up && in_right_down {
            left = Some(ms[x]);
        }
        proof {
            assert(cond_up(*simulator, ms@, x as int) == (in_left_down && in_right_down));
            assert(cond_down(*simulator, ms@, x as int) == (in_left_up && in_right_up));
            assert(cond_right(*simulator, ms@, x as int) == (in_left_up && in_left_down));
            assert(cond_left(*simulator, ms@, x as int) == (in_right_up && in_right_down));
        }
        x = x + 1;
    }
    proof {
        if up is Some {
            let k = last_cond_index(|xx: int| cond_up(*simulator, ms@, xx), 4);
            lemma_last_cond_index_in_range(|xx: int| cond_up(*simulator, ms@, xx), 4);
        }
        if down is Some {
            lemma_last_cond_index_in_range(|xx: int| cond_down(*simulator, ms@, xx), 4);
        }
        if left is Some {
            lemma_last_cond_index_in_range(|xx: int| cond_left(*simulator, ms@, xx), 4);
        }
        if right is Some {
            lemma_last_cond_index_in_range(|xx: int| cond_right(*simulator, ms@, xx), 4);
        }
    }
    match (up, down, left, right) {
        (Some(u), Some(d), Some(l), Some(r)) => {
            if u != r && u != d && u != l && d != l && d != r && l != r {
                Some((u, d, l, r))
            } else {
                // ambiguous roles: treated like an unresolved cluster
                None
            }
        },
        _ => None,
    }
}

/// A found last index is in range.
proof fn lemma_last_cond_index_in_range(cond: spec_fn(int) -> bool, n: int)
    ensures
        last_cond_index(cond, n) matches Some(k) ==> 0 <= k < n && cond(k),
    decreases n,
{
    if n > 0 {
        lemma_last_cond_index_in_range(cond, n - 1);
    }
}

/// Whether an optional diagonal neighbor is exactly this lattice
/// coordinate.
fn matches_coord(c: &Option<(usize, usize)>, i: usize, j: usize) -> (r: bool)
    ensures
        r == (*c == Some((i, j))),
{
    match c {
        Some(v) => v.0 == i && v.1 == j,
        None => false,
    }
}


/// The symmetry law: in a fully elected graph whose candidate lists are
/// mirrored, every elected edge has its mirror edge in the same channel,
/// with exactly the same probability, weight and representative payload.
pub proof fn lemma_elected_edges_symmetric(
    g: TailoredModelGraph,
    use_combined: bool,
    kind: WeightFunction,
    p: Position,
    c: int,
    q: Position,
)
    requires
        all_edges_symmetric(g),
        elected_matches(g, use_combined, kind),
        0 <= c < 3,
    ensures
        chan_elected(g, p, c, q) == chan_elected(g, q, c, p),
        chan_elected(g, p, c, q) is Some ==> chan_elected(g, p, c, q)->Some_0.probability
            == chan_elected(g, q, c, p)->Some_0.probability,
{
    assert(chan_all(g, p, c, q) == chan_all(g, q, c, p));
}

/// The determinism law: election is a function of the candidate lists
/// alone, so two graphs with the same candidate lists elect exactly the
/// same edges. In particular, repeating election on an unchanged graph
/// reproduces the elected probabilities, weights and payloads.
pub proof fn lemma_election_deterministic(
    g1: TailoredModelGraph,
    g2: TailoredModelGraph,
    use_combined: bool,
    kind: WeightFunction,
)
    requires
        elected_matches(g1, use_combined, kind),
        elected_matches(g2, use_combined, kind),
        forall|p: Position, c: int, q: Position|
            0 <= c < 3 ==> #[trigger] chan_all(g1, p, c, q) == chan_all(g2, p, c, q),
    ensures
        forall|p: Position, c: int, q: Position|
            0 <= c < 3 ==> #[trigger] chan_elected(g1, p, c, q) == chan_elected(g2, p, c, q),
{
    assert forall|p: Position, c: int, q: Position|
        0 <= c < 3 implies #[trigger] chan_elected(g1, p, c, q) == chan_elected(g2, p, c, q) by {
        assert(chan_all(g1, p, c, q) == chan_all(g2, p, c, q));
    }
}

/// The tie-break law: the representative payload index is the first
/// candidate holding the maximum probability. Every earlier candidate is
/// strictly less probable, and no later candidate is strictly more
/// probable; in particular, of two candidates sharing the maximum, the
/// one encountered first wins.
pub proof fn lemma_argmax_tie_break(ps: Seq<(int, int)>)
    requires
        ps.len() >= 1,
        forall|k: int| 0 <= k < ps.len() ==> frac_wf(#[trigger] ps[k]),
    ensures
        0 <= argmax_first(ps) < ps.len(),
        forall|m: int|
            0 <= m < argmax_first(ps) ==> frac_lt(#[trigger] ps[m], ps[argmax_first(ps)]),
        forall|m: int|
            argmax_first(ps) <= m < ps.len() ==> !frac_lt(ps[argmax_first(ps)], #[trigger] ps[m]),
    decreases ps.len(),
{
    lemma_argmax_first_in_range(ps);
    if ps.len() == 1 {
        assert(!frac_lt(ps[0], ps[0]));
    } else {
        let pre = ps.drop_last();
        assert(forall|k: int| 0 <= k < pre.len() ==> #[trigger] pre[k] == ps[k]);
        lemma_argmax_tie_break(pre);
        let a = argmax_first(pre);
        let last = ps.len() - 1;
        if frac_lt(ps[a], ps[last]) {
            assert(argmax_first(ps) == last);
            assert forall|m: int| 0 <= m < last implies frac_lt(#[trigger] ps[m], ps[last]) by {
                if m < a {
                    assert(frac_lt(pre[m], pre[a]));
                    crate::prob::lemma_frac_lt_transitive(ps[m], ps[a], ps[last]);
                } else if m == a {
                } else {
                    assert(!frac_lt(pre[a], pre[m]));
                    assert(crate::prob::frac_le(ps[m], ps[a]));
                    crate::prob::lemma_frac_le_lt_transitive(ps[m], ps[a], ps[last]);
                }
            }
            assert forall|m: int|
                argmax_first(ps) <= m < ps.len() implies !frac_lt(
                ps[argmax_first(ps)],
                #[trigger] ps[m],
            ) by {
                assert(m == last);
                assert(!frac_lt(ps[last], ps[last]));
            }
        } else {
            assert(argmax_first(ps) == a);
            assert forall|m: int| 0 <= m < a implies frac_lt(#[trigger] ps[m], ps[a]) by {
                assert(frac_lt(pre[m], pre[a]));
            }
            assert forall|m: int| a <= m < ps.len() implies !frac_lt(ps[a], #[trigger] ps[m]) by {
                if m < last {
                    assert(!frac_lt(pre[a], pre[m]));
                }
            }
        }
    }
}

} // verus!
