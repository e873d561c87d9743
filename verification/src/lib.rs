//! A bit-indexed trie over 31-bit payloads whose keys are produced one bit at
//! a time by caller-supplied functions, together with a full enumeration and a
//! heuristic-guided exploration of its contents.
pub mod slot;
pub mod model;
pub mod shape;
pub mod walk;
pub mod resident;
pub mod keep;
pub mod trie;
pub mod laws;
pub mod heuristic;
pub mod iter;
pub mod explore;

pub use trie::BinTrie;
pub use heuristic::{FilterHeuristic, FilterHeuristicIter, Heuristic, IntoHeuristic, SearchHeuristic};
pub use iter::Iter;
pub use explore::{ExploreFrame, ExploreIter};
