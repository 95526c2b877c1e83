//! Rendering diff trees as human-readable output.

use vstd::prelude::*;
use crate::model::DiffTree;

pub mod indicator;
pub mod lines;
pub mod scalar;
pub mod shape;
pub mod yaml;

verus! {

/// Renders a `DiffTree` into a human-readable string.
pub trait DiffRenderer {
    /// Renders the whole tree.
    fn render(&self, tree: &DiffTree) -> String;
}

} // verus!
