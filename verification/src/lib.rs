//! Two-dimensional rectangle bin packing with four greedy placement
//! heuristics and a multi-bin packer built on top of them.
//!
//! Every placer takes the items in order and answers with the records of the
//! items it could place. The contracts state the exact layout that each
//! heuristic yields and the geometric guarantees that hold of it.

use vstd::prelude::*;

pub mod geometry;
pub mod bottom_left;
pub mod free_space;
pub mod maxrects;
pub mod guillotine;
pub mod skyline;
pub mod packing;
pub mod packer;

pub use bottom_left::{bottom_left_placement, bottom_left_placement_with_picks, is_true_bl_point};
pub use maxrects::{maxrects_placement, maxrects_placement_with_picks, FreeRect};
pub use guillotine::{guillotine_placement, guillotine_placement_with_picks, GuillotineRect};
pub use skyline::{skyline_placement, skyline_placement_with_picks, SkylineNode};
pub use packer::{Bin, PackAlgorithm, PackedRect, Packer};

verus! {

/// An item to pack, by its extents.
#[derive(Debug, Clone, Copy, PartialEq, Eq, Structural)]
pub struct Rectangle {
    pub width: u32,
    pub height: u32,
}

/// A point in bin-local coordinates.
#[derive(Debug, Clone, Copy, PartialEq, Eq, PartialOrd, Ord, Structural)]
pub struct Position {
    pub x: u32,
    pub y: u32,
}

} // verus!
