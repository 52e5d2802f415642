//! Two allocation strategies over a fixed-capacity byte arena: a bump allocator
//! that only resets as a whole, and a free-list allocator that keeps its free
//! blocks as an address-ordered intrusive list written inside the arena itself.
//!
//! Positions handed out are byte offsets from the start of the arena; the owner
//! of the arena turns them into real addresses.

pub mod arena;
pub mod bumper;
pub mod node;
pub mod block_list;
pub mod alloc_root;
pub mod free_list;
pub mod guarantees;
