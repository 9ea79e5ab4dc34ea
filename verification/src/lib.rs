//! Canonical enumeration of maximal G-parking functions and the
//! combinatorics around them: Dhar burning, box partition search,
//! Matrix-Tree counts, the BCT bijection and sandpile-group experiments.
pub mod bits;
pub mod sums;
pub mod vecs;
pub mod graph;
pub mod dhar;
pub mod burn;
pub mod exact;
pub mod bij;
pub mod analyze;
pub mod smith;
pub mod nonsingular;
pub mod sample;
pub mod input;
