//! Temporal basic graph pattern matching: candidate matchings of small graph
//! patterns over an edge list, and (timed) automata run over the activity of
//! the matched edges.
#![allow(non_snake_case)]
#![allow(non_camel_case_types)]

pub mod join;
pub mod active;
pub mod configs;
pub mod edge;
pub mod seqs;
pub mod matching;
pub mod nfa;
pub mod tnfa;
pub mod cycles;
pub mod patterns;
pub mod text;
pub mod input;
pub mod laws;
pub mod incremental;
pub mod paths;
pub mod cycle_laws;
pub mod runs;
pub mod on_demand;
pub mod multi_state;
