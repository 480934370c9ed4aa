//! An intrusive, ownership-transferring doubly linked list.
//!
//! Elements carry their own link metadata (a [`raw_list::Links`] record) and
//! live in an [`arena::Arena`], which stands for the heap: elements are
//! addressed by stable indices, the safe counterpart of the raw pointers a
//! kernel implementation would use.  [`raw_list::RawList`] is the circular
//! ring engine over those records; [`linked_list::List`] adds ownership
//! transfer: pushing moves an owning handle into the list, popping moves it
//! back out.
//!
//! The structure is unsynchronized: callers are expected to serialize
//! structural mutation of a given list.  The one narrower guarantee is the
//! per-element insertion flag, which rejects a second insertion of the same
//! physical element even when two submitters race for it.

pub mod arena;
pub mod buffer;
pub mod error;
pub mod linked_list;
pub mod of;
pub mod param;
pub mod raw_list;
pub mod sync;
pub mod types;
pub mod user_ptr;
