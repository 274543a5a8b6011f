//! Solves a battery-testing puzzle: of 8 batteries exactly 4 are functional,
//! a toy needs 2 functional batteries at once, and 7 trials are allowed.
//! The crate enumerates fixed-size subsets as bitmasks and searches for trial
//! sequences that are guaranteed to end with a working pair.

pub mod bitset;
pub mod combinations;
pub mod search;

pub use bitset::BitSet;
pub use combinations::CombinationIter;
pub use search::remove_impossible_universes;
pub use search::run_search;
pub use search::Solution;
