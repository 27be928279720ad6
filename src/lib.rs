//! Change-scoped extraction of recently edited notes from a block-structured
//! note service, rendered as one indented markdown document.
//!
//! The network lives outside this library: the traversals are state machines
//! that ask for the children of a block and are handed the answer.
use vstd::prelude::*;

pub mod block;
pub mod tree;
pub mod traversal;
pub mod roots;
pub mod expand;
pub mod document;
pub mod listing;
pub mod snapshot;

verus! {

} // verus!
