//! Basic lattice and error-model types.

use vstd::prelude::*;

verus! {

/// A lattice coordinate `(round, row, column)` addressing one potential
/// qubit or measurement event of the simulated circuit over time.
#[derive(Clone, Copy, Debug, PartialEq, Eq, Structural, Hash)]
pub struct Position {
    pub t: usize,
    pub i: usize,
    pub j: usize,
}

impl Position {
    pub fn new(t: usize, i: usize, j: usize) -> (r: Position)
        ensures
            r == (Position { t, i, j }),
    {
        Position { t, i, j }
    }
}

/// A single-qubit Pauli error kind. `I` only appears as one half of a
/// correlated two-qubit error.
#[derive(Clone, Copy, Debug, PartialEq, Eq, Structural, Hash)]
pub enum ErrorType {
    I,
    X,
    Z,
    Y,
}

impl ErrorType {
    /// The elementary error kinds probed at every position, in the fixed
    /// traversal order.
    pub fn all_possible_errors() -> (r: Vec<ErrorType>)
        ensures
            r@ =~= seq![ErrorType::X, ErrorType::Z, ErrorType::Y],
    {
        let mut v: Vec<ErrorType> = Vec::new();
        v.push(ErrorType::X);
        v.push(ErrorType::Z);
        v.push(ErrorType::Y);
        v
    }
}

/// A correlated error kind on a two-qubit gate: an error on the position
/// itself and one on its gate peer. The identity pair is excluded.
#[derive(Clone, Copy, Debug, PartialEq, Eq, Structural, Hash)]
pub struct CorrelatedPauliErrorType {
    pub my: ErrorType,
    pub peer: ErrorType,
}

impl CorrelatedPauliErrorType {
    pub open spec fn wf(self) -> bool {
        !(self.my == ErrorType::I && self.peer == ErrorType::I)
    }

    pub fn my_error(&self) -> (r: ErrorType)
        ensures
            r == self.my,
    {
        self.my
    }

    pub fn peer_error(&self) -> (r: ErrorType)
        ensures
            r == self.peer,
    {
        self.peer
    }

    /// The fifteen correlated error kinds, in the fixed traversal order:
    /// every ordered pair over `{I, X, Z, Y}` in lexicographic order, with
    /// the identity pair left out.
    pub fn all_possible_errors() -> (r: Vec<CorrelatedPauliErrorType>)
        ensures
            r@ =~= Self::all_kinds(),
            forall|k: int| 0 <= k < r@.len() ==> (#[trigger] r@[k]).wf(),
    {
        let mut v: Vec<CorrelatedPauliErrorType> = Vec::new();
        v.push(CorrelatedPauliErrorType { my: ErrorType::I, peer: ErrorType::X });
        v.push(CorrelatedPauliErrorType { my: ErrorType::I, peer: ErrorType::Z });
        v.push(CorrelatedPauliErrorType { my: ErrorType::I, peer: ErrorType::Y });
        v.push(CorrelatedPauliErrorType { my: ErrorType::X, peer: ErrorType::I });
        v.push(CorrelatedPauliErrorType { my: ErrorType::X, peer: ErrorType::X });
        v.push(CorrelatedPauliErrorType { my: ErrorType::X, peer: ErrorType::Z });
        v.push(CorrelatedPauliErrorType { my: ErrorType::X, peer: ErrorType::Y });
        v.push(CorrelatedPauliErrorType { my: ErrorType::Z, peer: ErrorType::I });
        v.push(CorrelatedPauliErrorType { my: ErrorType::Z, peer: ErrorType::X });
        v.push(CorrelatedPauliErrorType { my: ErrorType::Z, peer: ErrorType::Z });
        v.push(CorrelatedPauliErrorType { my: ErrorType::Z, peer: ErrorType::Y });
        v.push(CorrelatedPauliErrorType { my: ErrorType::Y, peer: ErrorType::I });
        v.push(CorrelatedPauliErrorType { my: ErrorType::Y, peer: ErrorType::X });
        v.push(CorrelatedPauliErrorType { my: ErrorType::Y, peer: ErrorType::Z });
        v.push(CorrelatedPauliErrorType { my: ErrorType::Y, peer: ErrorType::Y });
        proof {
            assert forall|k: int| 0 <= k < v@.len() implies (#[trigger] v@[k]).wf() by {
                assert(v@ =~= Self::all_kinds());
            }
        }
        v
    }

    /// The fifteen correlated error kinds as a sequence, in traversal order.
    pub open spec fn all_kinds() -> Seq<CorrelatedPauliErrorType> {
        seq![
            (CorrelatedPauliErrorType { my: ErrorType::I, peer: ErrorType::X }),
            (CorrelatedPauliErrorType { my: ErrorType::I, peer: ErrorType::Z }),
            (CorrelatedPauliErrorType { my: ErrorType::I, peer: ErrorType::Y }),
            (CorrelatedPauliErrorType { my: ErrorType::X, peer: ErrorType::I }),
            (CorrelatedPauliErrorType { my: ErrorType::X, peer: ErrorType::X }),
            (CorrelatedPauliErrorType { my: ErrorType::X, peer: ErrorType::Z }),
            (CorrelatedPauliErrorType { my: ErrorType::X, peer: ErrorType::Y }),
            (CorrelatedPauliErrorType { my: ErrorType::Z, peer: ErrorType::I }),
            (CorrelatedPauliErrorType { my: ErrorType::Z, peer: ErrorType::X }),
            (CorrelatedPauliErrorType { my: ErrorType::Z, peer: ErrorType::Z }),
            (CorrelatedPauliErrorType { my: ErrorType::Z, peer: ErrorType::Y }),
            (CorrelatedPauliErrorType { my: ErrorType::Y, peer: ErrorType::I }),
            (CorrelatedPauliErrorType { my: ErrorType::Y, peer: ErrorType::X }),
            (CorrelatedPauliErrorType { my: ErrorType::Y, peer: ErrorType::Z }),
            (CorrelatedPauliErrorType { my: ErrorType::Y, peer: ErrorType::Y }),
        ]
    }
}

/// A candidate physical error probed during graph construction: either an
/// elementary error at one position, or a correlated error spanning a
/// position and its gate peer.
#[derive(Clone, Copy, Debug, PartialEq, Eq, Structural, Hash)]
pub enum CandidateError {
    Elementary(ErrorType),
    Correlated(CorrelatedPauliErrorType),
}

/// A sparse error pattern: which error is installed at which position.
/// Immutable once constructed and shared by value among the edges that
/// cite it as their explanation.
#[derive(Clone, Debug)]
pub struct SparseErrorPattern {
    pub entries: Vec<(Position, ErrorType)>,
}

impl SparseErrorPattern {
    /// The pattern as a sequence of `(position, error)` entries, in
    /// insertion order.
    pub open spec fn view_seq(self) -> Seq<(Position, ErrorType)> {
        self.entries@
    }

    /// An empty pattern.
    pub fn new() -> (r: SparseErrorPattern)
        ensures
            r.view_seq() =~= Seq::<(Position, ErrorType)>::empty(),
    {
        SparseErrorPattern { entries: Vec::new() }
    }

    /// Appends one error to the pattern.
    pub fn add(&mut self, position: Position, error: ErrorType)
        ensures
            final(self).view_seq() =~= old(self).view_seq().push((position, error)),
    {
        self.entries.push((position, error));
    }
}

/// A sparse correction: which recovery action applies at which position.
#[derive(Clone, Debug)]
pub struct SparseCorrection {
    pub entries: Vec<(Position, ErrorType)>,
}

impl SparseCorrection {
    pub open spec fn view_seq(self) -> Seq<(Position, ErrorType)> {
        self.entries@
    }

    pub fn new() -> (r: SparseCorrection)
        ensures
            r.view_seq() =~= Seq::<(Position, ErrorType)>::empty(),
    {
        SparseCorrection { entries: Vec::new() }
    }
}

/// A sparse measurement: the positions whose simulated measurement outcome
/// flipped, split into real (interior) and virtual (boundary) subsets.
#[derive(Clone, Debug)]
pub struct SparseMeasurement {
    pub real: Vec<Position>,
    pub virtuals: Vec<Position>,
}

} // verus!
