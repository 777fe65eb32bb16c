//! Proximity-ranked retrieval: a budgeted depth-first search over the
//! proximity costs of adjacent query words, driven by iterative deepening.

pub mod docids;
pub mod words;
pub mod search;
pub mod mdfs;
pub mod laws;
