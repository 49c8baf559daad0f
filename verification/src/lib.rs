//! An append-only skip list keyed by a strictly increasing 64-bit offset.
//!
//! Records live in an arena in the order they were appended; every forward
//! link and every tail pointer is an index into that arena. The list is
//! described to callers as a sequence of [`model::Record`] values, and all
//! contracts are stated over that sequence.
//!
//! * [`model`]: the records of a list as contracts see them, and what a
//!   lookup owes on them.
//! * [`list`]: the list, `append` and `find`, and the picture of a search.
//! * [`path`]: the cells that such a picture is made of.
//! * [`laws`]: what holds of every list.
//! * [`random`]: the coin behind the lane count of a new record.

pub mod model;
pub mod random;
pub mod path;
pub mod list;
pub mod laws;

pub use list::Node;
pub use list::SkipList;
pub use path::PathCell;
pub use path::Tint;
