//! The shared vocabulary of the placers: regions of the plane, the footprint
//! of a placement record, and what it means for a layout to be sound.

use vstd::prelude::*;
use crate::{Position, Rectangle};

verus! {

/// One record of a placer's answer: the item as it was given, where its
/// footprint starts, and whether it was turned by 90 degrees.
pub type Placement = (Rectangle, Position, bool);

/// An axis-aligned region `[x, x + width) x [y, y + height)` over the integers.
pub struct Region {
    pub x: int,
    pub y: int,
    pub width: int,
    pub height: int,
}

impl Region {
    pub open spec fn right(self) -> int {
        self.x + self.width
    }

    pub open spec fn top(self) -> int {
        self.y + self.height
    }

    /// The two regions share interior area. Touching edges do not count.
    pub open spec fn overlaps(self, other: Region) -> bool {
        &&& self.x < other.right()
        &&& other.x < self.right()
        &&& self.y < other.top()
        &&& other.y < self.top()
    }

    /// `self` lies within `outer`, borders included.
    pub open spec fn inside(self, outer: Region) -> bool {
        &&& outer.x <= self.x
        &&& outer.y <= self.y
        &&& self.right() <= outer.right()
        &&& self.top() <= outer.top()
    }

    /// `self` lies within a bin of the given extents whose origin is `(0, 0)`.
    pub open spec fn within_bin(self, bin_width: int, bin_height: int) -> bool {
        &&& 0 <= self.x
        &&& 0 <= self.y
        &&& self.right() <= bin_width
        &&& self.top() <= bin_height
    }
}

/// An item can only ever be placed if it covers some area.
pub open spec fn placeable(item: Rectangle) -> bool {
    item.width > 0 && item.height > 0
}

pub open spec fn oriented_width(item: Rectangle, rotated: bool) -> int {
    if rotated { item.height as int } else { item.width as int }
}

pub open spec fn oriented_height(item: Rectangle, rotated: bool) -> int {
    if rotated { item.width as int } else { item.height as int }
}

/// The turned orientation is tried only when turning is allowed and the item
/// is not a square.
pub open spec fn orientation_allowed(item: Rectangle, rotated: bool, allow_rotate: bool) -> bool {
    rotated ==> allow_rotate && item.width != item.height
}

/// A way to place an item: the element of the placer's list that the item
/// goes to, by its index, and the orientation in which it goes there.
#[derive(Debug, Clone, Copy, PartialEq, Eq, Structural)]
pub struct Fit {
    pub index: usize,
    pub rotated: bool,
}

/// The order in which fits are tried: the upright orientation over the whole
/// list, then the turned one.
pub open spec fn tried_before(a: Fit, b: Fit) -> bool {
    (!a.rotated && b.rotated) || (a.rotated == b.rotated && a.index < b.index)
}

/// The region that a placed item occupies, after rotation.
pub open spec fn footprint(p: Placement) -> Region {
    Region {
        x: p.1.x as int,
        y: p.1.y as int,
        width: oriented_width(p.0, p.2),
        height: oriented_height(p.0, p.2),
    }
}

/// The footprints of a layout, in order.
pub open spec fn footprints(placed: Seq<Placement>) -> Seq<Region> {
    Seq::new(placed.len(), |k: int| footprint(placed[k]))
}

/// No two footprints of the layout overlap.
pub open spec fn no_overlap(placed: Seq<Placement>) -> bool {
    forall|i: int, j: int|
        #![trigger placed[i], placed[j]]
        0 <= i < j < placed.len() ==> !footprint(placed[i]).overlaps(footprint(placed[j]))
}

/// Every footprint of the layout covers some area and lies within the bin.
pub open spec fn contained(placed: Seq<Placement>, bin_width: int, bin_height: int) -> bool {
    forall|i: int|
        0 <= i < placed.len() ==> placeable((#[trigger] placed[i]).0) && footprint(
            placed[i],
        ).within_bin(bin_width, bin_height)
}

/// Every turned record is of a non-square item, and there is none unless
/// turning was allowed.
pub open spec fn rotation_gated(placed: Seq<Placement>, allow_rotate: bool) -> bool {
    forall|i: int|
        0 <= i < placed.len() ==> orientation_allowed(
            (#[trigger] placed[i]).0,
            placed[i].2,
            allow_rotate,
        )
}

/// `picks` names, for each record of the layout, the index of the item it
/// places, all of them below `limit`: strictly increasing, so that no item is
/// placed twice and the records keep the order of the items.
pub open spec fn is_selection(
    picks: Seq<int>,
    items: Seq<Rectangle>,
    placed: Seq<Placement>,
    limit: int,
) -> bool {
    &&& picks.len() == placed.len()
    &&& limit <= items.len()
    &&& forall|k: int| 0 <= k < picks.len() ==> 0 <= #[trigger] picks[k] < limit
    &&& forall|k: int, l: int| 0 <= k < l < picks.len() ==> picks[k] < picks[l]
    &&& forall|k: int| 0 <= k < picks.len() ==> (#[trigger] placed[k]).0 == items[picks[k]]
}

/// The records of the layout place distinct items, in the items' order.
pub open spec fn drawn_from(placed: Seq<Placement>, items: Seq<Rectangle>) -> bool {
    exists|picks: Seq<int>| is_selection(picks, items, placed, items.len() as int)
}

/// What holds of a layout once the first `limit` items have been offered,
/// with `picks` naming the items that its records place.
pub open spec fn sound_prefix(
    placed: Seq<Placement>,
    picks: Seq<int>,
    items: Seq<Rectangle>,
    bin_width: int,
    bin_height: int,
    allow_rotate: bool,
    limit: int,
) -> bool {
    &&& no_overlap(placed)
    &&& contained(placed, bin_width, bin_height)
    &&& rotation_gated(placed, allow_rotate)
    &&& is_selection(picks, items, placed, limit)
}

/// What holds of the layout that any of the placers yields.
pub open spec fn sound_layout(
    placed: Seq<Placement>,
    items: Seq<Rectangle>,
    bin_width: int,
    bin_height: int,
    allow_rotate: bool,
) -> bool {
    &&& no_overlap(placed)
    &&& contained(placed, bin_width, bin_height)
    &&& rotation_gated(placed, allow_rotate)
    &&& drawn_from(placed, items)
}

/// A list of indices as integers.
pub open spec fn indices(picks: Seq<usize>) -> Seq<int> {
    Seq::new(picks.len(), |k: int| picks[k] as int)
}

/// A sound layout stays sound when the next item is placed within the bin,
/// in an allowed orientation and clear of every footprint.
pub proof fn lemma_sound_push(
    placed: Seq<Placement>,
    picks: Seq<int>,
    items: Seq<Rectangle>,
    bin_width: int,
    bin_height: int,
    allow_rotate: bool,
    limit: int,
    at: Position,
    rotated: bool,
)
    requires
        sound_prefix(placed, picks, items, bin_width, bin_height, allow_rotate, limit),
        0 <= limit < items.len(),
        placeable(items[limit]),
        orientation_allowed(items[limit], rotated, allow_rotate),
        footprint((items[limit], at, rotated)).within_bin(bin_width, bin_height),
        forall|k: int|
            0 <= k < placed.len() ==> !footprint((items[limit], at, rotated)).overlaps(
                footprint(#[trigger] placed[k]),
            ),
    ensures
        sound_prefix(
            placed.push((items[limit], at, rotated)),
            picks.push(limit),
            items,
            bin_width,
            bin_height,
            allow_rotate,
            limit + 1,
        ),
{
    let record = (items[limit], at, rotated);
    let grown = placed.push(record);
    assert forall|i: int| 0 <= i < grown.len() implies grown[i] == (if i < placed.len() {
        placed[i]
    } else {
        record
    }) by {}
}

/// There is a first item, it covers some area, and it fits the bin as it
/// is given.
pub open spec fn first_fits(items: Seq<Rectangle>, bin_width: int, bin_height: int) -> bool {
    &&& items.len() > 0
    &&& placeable(items[0])
    &&& items[0].width <= bin_width
    &&& items[0].height <= bin_height
}

/// The layout starts with the first item, upright at the bin's origin.
pub open spec fn starts_at_origin(placed: Seq<Placement>, items: Seq<Rectangle>) -> bool {
    placed.len() > 0 && placed[0] == (items[0], Position { x: 0, y: 0 }, false)
}

} // verus!
