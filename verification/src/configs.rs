//! The run configuration: where the inputs are and which pattern to match.
use vstd::prelude::*;

verus! {

/// Input directory, automaton file, debug level and the pattern to match.
#[derive(Debug)]
pub struct Config {
    pub input_dir: String,
    pub nfa_dir: String,
    pub debug: usize,
    pub pattern_type: String,
    pub pattern_size: usize,
}

} // verus!
