//! Draw-order sorting.
//!
//! A sorter takes the footprints of the sprites in logic (grid) space and
//! returns the order in which they are drawn. The sprites themselves stay where
//! they are: the renderer walks them through the returned indices.

use vstd::prelude::*;

pub mod depth_laws;
pub mod graph;
pub mod graph_laws;
pub mod iso_rect;
pub mod sweep;

pub use self::iso_rect::{depth_compare, IsoBounds, IsoSortable, IsometricRectangleSorter};

use self::graph::is_permutation;

verus! {

/// Computes a draw order: `result[i]` is the sprite to draw at position `i`.
pub trait ISorter {
    /// `bounds[i]` are the bounds of sprite `i`. The result is a permutation of
    /// `0..len`, also where no proper order exists.
    fn sort(&mut self, bounds: &[IsoBounds]) -> (order: Vec<u32>)
        requires
            bounds@.len() <= u32::MAX,
        ensures
            is_permutation(order@, bounds@.len()),
    ;
}

} // verus!
