//! Union-find (disjoint-set) structures over a fixed universe of small
//! integer elements.
//!
//! Three variants share one algorithmic core (union by rank with path
//! halving):
//!
//! - [`UnionFind`]: a vector-based structure over a generic small-integer
//!   element type.
//! - [`concurrent::AUnionFind`] (re-exported at the crate root): the core
//!   design, in which an element's parent id and its rank are packed into a
//!   single machine word so that both fields can be updated together by one
//!   compare-and-swap.
//! - [`split::AUnionFind`]: a sibling design that keeps the parent id and the
//!   rank in two separate cells.
//!
//! Every mutation of an entry goes through a compare-and-swap step:
//! read the current entry, compute its replacement, and install the
//! replacement only if the entry is still what was read.  The contracts here
//! pin down the exact evolution of the partition: which element becomes the
//! representative of a merged set, and how ranks move.

pub mod base;
pub mod traits;
pub mod array;
pub mod split;
pub mod concurrent;

pub use traits::ElementType;
pub use array::UnionFind;
pub use concurrent::AUnionFind;
pub use concurrent::CapacityError;
