//! An in-memory ordered probabilistic container: a skip list.
//!
//! The list keeps a set of `i64` elements in sorted order and supports
//! expected-logarithmic membership lookup and insertion.  Several linked
//! chains of decreasing density are layered over one sorted base chain;
//! each node is given a random tower height drawn from a truncated
//! geometric distribution, and searches descend from the sparsest chain
//! to the base chain.
//!
//! Nodes live in an arena (`Vec`) and link to each other by index, so the
//! whole structure is owned by one vector and is torn down without
//! recursion.

use vstd::prelude::*;

mod levels;
mod list;
mod order;

pub use list::SkipList;
pub use list::SkipListNode;
pub use list::lemma_base_chain_sorted;
pub use list::lemma_heights_in_range;
pub use list::lemma_insert_preserves_presence;

pub use levels::level_from_bits;
pub use levels::spec_level_from_bits;
pub use levels::valid_num_levels;
pub use order::rank;
pub use order::sorted;
pub use order::lemma_rank_bounds;
pub use order::lemma_rank_prefix;
pub use order::lemma_rank_unique;
pub use order::lemma_sorted_contains;
pub use order::lemma_insert_preserves_members;

verus! {

} // verus!
