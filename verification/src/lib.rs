//! An intrusive doubly-linked list whose nodes live in a reusable slot arena.
//!
//! Each node is addressed by a stable, copyable [`NodeId`] (an index into the
//! arena) rather than a memory address, so links are plain integers instead of
//! owning pointers. Insertion and removal at a known handle are O(1), and
//! callers may keep cheap handles to interior elements across edits elsewhere
//! in the list.
//!
//! Handles carry no generation tag: a handle kept after its node is removed is
//! a well-formed value, but once the slot is reused by a later insertion the
//! handle names the new occupant. Callers are responsible for handle lifetime
//! discipline; every lookup on a currently vacant slot reports absence.

mod cursor;
mod laws;
mod list;

pub use cursor::Cursor;
pub use cursor::CursorMut;
pub use laws::lemma_push_front_pop_front_round_trip;
pub use laws::lemma_push_into_empty_joins_ends;
pub use laws::lemma_remove_only_element_empties;
pub use laws::lemma_traversals_mirror;
pub use laws::walk_backward;
pub use laws::walk_forward;
pub use list::lemma_list_invariants;
pub use list::List;
pub use list::Node;
pub use list::NodeId;
