//! Core of a solver for a hidden-movement board puzzle: a fixed graph of
//! locations with two edge classes (regular streets and alleyways), a
//! per-night knowledge model derived from observations, an all-pairs
//! shortest-distance table used for pruning, and the enumeration of every
//! full-length path consistent with the observations.
//!
//! Reading the raw documents (JSON, files, command line) is the host
//! program's job: the library takes already-decoded plain values and
//! validates them itself.

pub mod game;
pub mod graph;
pub mod night;
pub mod solver;
