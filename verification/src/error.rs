//! The errors the tree can report at its boundary.

use vstd::prelude::*;

verus! {

/// Errors of the outline tree. Supplying a dead parent id to an insertion is
/// the one hard error; a failure outside the tree's own rules is carried as
/// plain text.
#[derive(Debug)]
pub enum TocError {
    NodeParentNotFound(usize),
    Other(String),
}

} // verus!
