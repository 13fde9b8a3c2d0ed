//! An ordered map keyed by `u64`, implemented as a probabilistically
//! balanced skip list: a multi-level linked structure in which every node
//! carries one forward reference per level, and the chain at each level
//! visits, in ascending key order, exactly the nodes tall enough to reach it.
//!
//! Nodes live in an arena of parallel columns and forward references are
//! arena indices, so the structure needs no manual memory layout. The public
//! operations are specified against two mathematical models: the map view
//! `self@` (a `Map<u64, V>`) and the ascending association list
//! `self.entries()` (a `Seq<(u64, V)>`).

mod generator;
mod iter;
mod list;

pub use generator::Generator;
pub use iter::IntoIter;
pub use iter::Iter;
pub use iter::IterMut;
pub use list::lemma_removed_absent;
pub use list::lemma_round_trip;
pub use list::SkipList;
