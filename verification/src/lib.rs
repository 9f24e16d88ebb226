//! Linked lists for elements of varying size, kept in an arena of nodes.
//!
//! Every node lives in a [`raw::Heap`], which hands out non-zero addresses;
//! the lists hold addresses only. [`xorlist::XorList`] folds both neighbours
//! of a node into one link word, [`ilist::IList`] keeps a count of owners in
//! each node.

pub mod ilist;
pub mod raw;
pub mod xorlist;

pub use raw::Heap;
pub use raw::Raw;
pub use ilist::IList;
pub use xorlist::XorList;
