//! Pairwise string distances: the banded global edit (Levenshtein) distance
//! and the fixed-length Hamming distance.
//!
//! Every executable function carries a contract that is stated over the
//! mathematical definitions in [`levenshtein`] and [`hamming`].

pub mod edit;
pub mod hamming;
pub mod levenshtein;
pub mod script;

pub use edit::{edit_distance, normalize_max_diff};
pub use hamming::{hamming_distance, DistanceError};
