//! Rendezvous (highest-random-weight) hashing over a set of nodes.
//!
//! A [`Rendezvous`] selector holds a set of nodes and a hash builder. For a
//! key it scores every node with the hash of the key and the node, and picks
//! the node with the best score, or the best `k` nodes in ranking order. Of
//! nodes with the same score the one that is stored later is ranked first.
//! When a node joins, only the keys that it wins change their pick; when a
//! node leaves, only the keys that it held do, as long as no scores are equal.
//!
//! ```
//! use hrw::Rendezvous;
//! let mut r = Rendezvous::from_nodes(vec!["A", "B"]);
//! assert_eq!(r.len(), 2);
//! r.add_node("C");
//! assert_eq!(r.len(), 3);
//! r.remove_node(&"B");
//! assert_eq!(r.len(), 2);
//! let chosen = r.pick_top(&"my-key");
//! assert!(chosen.is_some());
//! ```

mod hashing;
pub mod laws;
pub mod members;
mod partial;
pub mod rank;
pub mod rendezvous;
pub mod select;

pub use rendezvous::Rendezvous;
pub use select::{select_top, select_top_k};
