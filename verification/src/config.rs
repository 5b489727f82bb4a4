//! Configuration surfaces validated before the builder runs.

use vstd::prelude::*;
use crate::weight::WeightFunction;

verus! {

/// Configuration of the tailored matching decoder: whether the complete
/// all-pairs graph is precomputed eagerly, and which weight policy the
/// builder uses.
#[derive(Clone, Copy, Debug)]
pub struct TailoredMWPMDecoderConfig {
    pub precompute_complete_model_graph: bool,
    pub weight_function: WeightFunction,
}

impl TailoredMWPMDecoderConfig {
    /// The default configuration: precompute the complete graph and weigh
    /// edges with the improved autotune policy.
    pub fn new_default() -> (r: TailoredMWPMDecoderConfig)
        ensures
            r.precompute_complete_model_graph,
            r.weight_function == WeightFunction::AutotuneImproved,
    {
        TailoredMWPMDecoderConfig {
            precompute_complete_model_graph: true,
            weight_function: WeightFunction::AutotuneImproved,
        }
    }
}

/// The built-in test suites selectable from the command line.
#[derive(Clone, Copy, Debug, PartialEq, Eq, Structural)]
pub enum TestCommands {
    DebugTests,
    ArchivedDebugTests,
    All,
}

/// Parameters of the HTTP server front end.
#[derive(Clone, Debug)]
pub struct ServerParameters {
    pub port: i32,
    pub addr: String,
    pub root_url: String,
}

} // verus!
