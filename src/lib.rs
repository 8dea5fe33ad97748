//! Generates the navigation summary of a documentation tree.
//!
//! The library works on plain values: a directory listing read by the caller
//! is scanned into groups of documents, the groups are rendered into the lines
//! of the summary, and a fingerprint of the old and the new summary text
//! decides whether the file has to be written again.
use vstd::prelude::*;

pub mod guard;
pub mod model;
pub mod order;
pub mod render;
pub mod scan;
pub mod text;

verus! {

} // verus!
