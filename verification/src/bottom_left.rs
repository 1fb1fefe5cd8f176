//! The Bottom-Left heuristic: every item goes to the lowest, then leftmost,
//! corner point at which it is held from below and from the left.

use vstd::prelude::*;
use crate::{Position, Rectangle};
use crate::geometry::{
    Placement, Region, first_fits, footprint, footprints, indices, is_selection, lemma_sound_push,
    orientation_allowed, oriented_height, oriented_width, placeable, sound_layout, sound_prefix,
    starts_at_origin,
};

verus! {

/// The region that a box occupies: a rectangle, already oriented, with the
/// position of its origin.
pub open spec fn region_of(b: (Rectangle, Position)) -> Region {
    Region { x: b.1.x as int, y: b.1.y as int, width: b.0.width as int, height: b.0.height as int }
}

/// The regions of a list of boxes, in order.
pub open spec fn regions_of(boxes: Seq<(Rectangle, Position)>) -> Seq<Region> {
    Seq::new(boxes.len(), |k: int| region_of(boxes[k]))
}

/// The top edge of `r` is flush with `p` and `r` spans `p` horizontally.
pub open spec fn holds_from_below(r: Region, p: Position) -> bool {
    r.top() == p.y && r.x <= p.x < r.right()
}

/// The right edge of `r` is flush with `p` and `r` spans `p` vertically.
pub open spec fn holds_from_left(r: Region, p: Position) -> bool {
    r.right() == p.x && r.y <= p.y < r.top()
}

pub open spec fn supported_below(regions: Seq<Region>, p: Position) -> bool {
    p.y == 0 || exists|k: int| 0 <= k < regions.len() && holds_from_below(#[trigger] regions[k], p)
}

pub open spec fn supported_left(regions: Seq<Region>, p: Position) -> bool {
    p.x == 0 || exists|k: int| 0 <= k < regions.len() && holds_from_left(#[trigger] regions[k], p)
}

/// A true bottom-left point rests on the floor or on a placed region, and
/// leans against the left wall or against a placed region.
pub open spec fn true_bl_point(regions: Seq<Region>, p: Position) -> bool {
    supported_left(regions, p) && supported_below(regions, p)
}

/// `r` overlaps one of the regions.
pub open spec fn overlaps_any(regions: Seq<Region>, r: Region) -> bool {
    exists|k: int| 0 <= k < regions.len() && r.overlaps(#[trigger] regions[k])
}

/// Whether `pos` is a true bottom-left point among the placed boxes.
pub fn is_true_bl_point(pos: Position, placed_rectangles: &[(Rectangle, Position)]) -> (held: bool)
    ensures
        held == true_bl_point(regions_of(placed_rectangles@), pos),
{
    let ghost regions = regions_of(placed_rectangles@);
    let mut has_rect_left = pos.x == 0;
    let mut has_rect_below = pos.y == 0;
    let mut k: usize = 0;
    while k < placed_rectangles.len()
        invariant
            k <= placed_rectangles.len(),
            regions == regions_of(placed_rectangles@),
            has_rect_left == (pos.x == 0 || exists|j: int|
                0 <= j < k && holds_from_left(#[trigger] regions[j], pos)),
            has_rect_below == (pos.y == 0 || exists|j: int|
                0 <= j < k && holds_from_below(#[trigger] regions[j], pos)),
        decreases placed_rectangles.len() - k,
    {
        let (placed_rect, placed_pos) = placed_rectangles[k];
        let right: u64 = placed_pos.x as u64 + placed_rect.width as u64;
        let top: u64 = placed_pos.y as u64 + placed_rect.height as u64;
        assert(region_of(placed_rectangles@[k as int]) == regions[k as int]);
        if right == pos.x as u64 && placed_pos.y <= pos.y && top > pos.y as u64 {
            has_rect_left = true;
        }
        if top == pos.y as u64 && placed_pos.x <= pos.x && right > pos.x as u64 {
            has_rect_below = true;
        }
        k += 1;
    }
    has_rect_left && has_rect_below
}

/// Whether the `w` by `h` region at `pos` overlaps one of the placed boxes.
fn overlaps_placed(boxes: &[(Rectangle, Position)], pos: Position, w: u32, h: u32) -> (hit: bool)
    ensures
        hit == overlaps_any(
            regions_of(boxes@),
            Region { x: pos.x as int, y: pos.y as int, width: w as int, height: h as int },
        ),
{
    let ghost regions = regions_of(boxes@);
    let ghost r = Region { x: pos.x as int, y: pos.y as int, width: w as int, height: h as int };
    let mut k: usize = 0;
    while k < boxes.len()
        invariant
            k <= boxes.len(),
            regions == regions_of(boxes@),
            r == (Region { x: pos.x as int, y: pos.y as int, width: w as int, height: h as int }),
            forall|j: int| 0 <= j < k ==> !r.overlaps(#[trigger] regions[j]),
        decreases boxes.len() - k,
    {
        let (placed_rect, placed_pos) = boxes[k];
        assert(region_of(boxes@[k as int]) == regions[k as int]);
        if (pos.x as u64) < placed_pos.x as u64 + placed_rect.width as u64
            && pos.x as u64 + w as u64 > placed_pos.x as u64
            && (pos.y as u64) < placed_pos.y as u64 + placed_rect.height as u64
            && pos.y as u64 + h as u64 > placed_pos.y as u64 {
            return true;
        }
        k += 1;
    }
    false
}

/// `p` is the point just right of `r` or the point just above it.
pub open spec fn is_corner_of(r: Region, p: Position) -> bool {
    (p.x == r.right() && p.y == r.y) || (p.x == r.x && p.y == r.top())
}

/// `p` is the bin's origin or a corner of one of the first `count` regions.
pub open spec fn is_corner_among(regions: Seq<Region>, count: int, p: Position) -> bool {
    (p.x == 0 && p.y == 0) || exists|k: int|
        0 <= k < count && is_corner_of(#[trigger] regions[k], p)
}

/// The candidate points: the bin's origin and, for every placed region, the
/// point just right of it and the point just above it.
pub open spec fn is_candidate(regions: Seq<Region>, p: Position) -> bool {
    is_corner_among(regions, regions.len() as int, p)
}

/// A `w` by `h` footprint at `p` stays inside the bin, is clear of every
/// placed region, and `p` is a true bottom-left point.
pub open spec fn settles(
    regions: Seq<Region>,
    bin_width: int,
    bin_height: int,
    w: int,
    h: int,
    p: Position,
) -> bool {
    let r = Region { x: p.x as int, y: p.y as int, width: w, height: h };
    r.within_bin(bin_width, bin_height) && !overlaps_any(regions, r) && true_bl_point(regions, p)
}

/// `p` is lower than `q`, or as low and not further right.
pub open spec fn lower_left(p: Position, q: Position) -> bool {
    p.y < q.y || (p.y == q.y && p.x <= q.x)
}

/// Where an item goes, and whether it is turned.
#[derive(Debug, Clone, Copy, PartialEq, Eq, Structural)]
pub struct Spot {
    pub at: Position,
    pub rotated: bool,
}

/// The item may go to the spot: in an orientation that is tried, at a
/// candidate point where it settles.
pub open spec fn admits(
    regions: Seq<Region>,
    bin_width: int,
    bin_height: int,
    item: Rectangle,
    allow_rotate: bool,
    s: Spot,
) -> bool {
    &&& placeable(item)
    &&& orientation_allowed(item, s.rotated, allow_rotate)
    &&& is_candidate(regions, s.at)
    &&& settles(
        regions,
        bin_width,
        bin_height,
        oriented_width(item, s.rotated),
        oriented_height(item, s.rotated),
        s.at,
    )
}

/// The order in which spots are preferred: by `y`, then by `x`, and at the
/// same point the upright orientation first.
pub open spec fn preferred(a: Spot, b: Spot) -> bool {
    a.at.y < b.at.y || (a.at.y == b.at.y && (a.at.x < b.at.x || (a.at.x == b.at.x && (b.rotated
        || !a.rotated))))
}

pub open spec fn is_best_spot(
    regions: Seq<Region>,
    bin_width: int,
    bin_height: int,
    item: Rectangle,
    allow_rotate: bool,
    s: Spot,
) -> bool {
    &&& admits(regions, bin_width, bin_height, item, allow_rotate, s)
    &&& forall|t: Spot| #[trigger]
        admits(regions, bin_width, bin_height, item, allow_rotate, t) ==> preferred(s, t)
}

/// The spot that the heuristic picks for the item, if it admits any.
pub open spec fn best_spot(
    regions: Seq<Region>,
    bin_width: int,
    bin_height: int,
    item: Rectangle,
    allow_rotate: bool,
) -> Option<Spot> {
    if exists|s: Spot| is_best_spot(regions, bin_width, bin_height, item, allow_rotate, s) {
        Some(choose|s: Spot| is_best_spot(regions, bin_width, bin_height, item, allow_rotate, s))
    } else {
        None
    }
}

/// There is at most one best spot, so finding one settles `best_spot`.
pub proof fn lemma_best_spot_is_unique(
    regions: Seq<Region>,
    bin_width: int,
    bin_height: int,
    item: Rectangle,
    allow_rotate: bool,
    s: Spot,
)
    requires
        is_best_spot(regions, bin_width, bin_height, item, allow_rotate, s),
    ensures
        best_spot(regions, bin_width, bin_height, item, allow_rotate) == Some(s),
{
    let t = choose|t: Spot| is_best_spot(regions, bin_width, bin_height, item, allow_rotate, t);
    assert(preferred(s, t) && preferred(t, s));
}

/// The lowest, then leftmost, candidate point at which a `w` by `h`
/// footprint settles.
fn best_point(boxes: &[(Rectangle, Position)], bin_width: u32, bin_height: u32, w: u32, h: u32) -> (best:
    Option<Position>)
    requires
        forall|k: int|
            0 <= k < boxes.len() ==> (#[trigger] regions_of(boxes@)[k]).within_bin(
                bin_width as int,
                bin_height as int,
            ),
    ensures
        match best {
            Some(p) => {
                &&& is_candidate(regions_of(boxes@), p)
                &&& settles(regions_of(boxes@), bin_width as int, bin_height as int, w as int, h as int, p)
                &&& forall|q: Position|
                    is_candidate(regions_of(boxes@), q) && #[trigger] settles(
                        regions_of(boxes@),
                        bin_width as int,
                        bin_height as int,
                        w as int,
                        h as int,
                        q,
                    ) ==> lower_left(p, q)
            },
            None => forall|q: Position|
                is_candidate(regions_of(boxes@), q) ==> !#[trigger] settles(
                    regions_of(boxes@),
                    bin_width as int,
                    bin_height as int,
                    w as int,
                    h as int,
                    q,
                ),
        },
{
    let ghost regions = regions_of(boxes@);
    let origin = Position { x: 0, y: 0 };
    let mut best: Option<Position> = if point_settles(boxes, bin_width, bin_height, w, h, origin) {
        Some(origin)
    } else {
        None
    };
    let mut k: usize = 0;
    while k < boxes.len()
        invariant
            k <= boxes.len(),
            regions == regions_of(boxes@),
            forall|j: int|
                0 <= j < boxes.len() ==> (#[trigger] regions[j]).within_bin(
                    bin_width as int,
                    bin_height as int,
                ),
            match best {
                Some(p) => is_candidate(regions, p) && settles(
                    regions,
                    bin_width as int,
                    bin_height as int,
                    w as int,
                    h as int,
                    p,
                ),
                None => true,
            },
            forall|q: Position|
                is_corner_among(regions, k as int, q) && #[trigger] settles(
                    regions,
                    bin_width as int,
                    bin_height as int,
                    w as int,
                    h as int,
                    q,
                ) ==> best is Some && lower_left(best->0, q),
        decreases boxes.len() - k,
    {
        let (placed_rect, placed_pos) = boxes[k];
        assert(region_of(boxes@[k as int]) == regions[k as int]);
        let right_point = Position { x: placed_pos.x + placed_rect.width, y: placed_pos.y };
        let top_point = Position { x: placed_pos.x, y: placed_pos.y + placed_rect.height };
        let ghost before = best;
        best = lower_of(best, right_point, point_settles(boxes, bin_width, bin_height, w, h, right_point));
        best = lower_of(best, top_point, point_settles(boxes, bin_width, bin_height, w, h, top_point));
        proof {
            assert(is_corner_of(regions[k as int], right_point));
            assert(is_corner_of(regions[k as int], top_point));
            assert forall|q: Position|
                is_corner_among(regions, k + 1, q) && #[trigger] settles(
                    regions,
                    bin_width as int,
                    bin_height as int,
                    w as int,
                    h as int,
                    q,
                ) implies best is Some && lower_left(best->0, q) by {
                if !is_corner_among(regions, k as int, q) {
                    assert(is_corner_of(regions[k as int], q));
                    assert(q == right_point || q == top_point);
                }
            }
        }
        k += 1;
    }
    best
}

/// Of the best point so far and a further point, the one to keep.
fn lower_of(best: Option<Position>, q: Position, usable: bool) -> (kept: Option<Position>)
    ensures
        kept == (if usable && (best is None || !lower_left(best->0, q)) {
            Some(q)
        } else {
            best
        }),
{
    if !usable {
        return best;
    }
    match best {
        Some(p) => if p.y < q.y || (p.y == q.y && p.x <= q.x) {
            best
        } else {
            Some(q)
        },
        None => Some(q),
    }
}

/// Whether a `w` by `h` footprint settles at `p` among the placed boxes.
fn point_settles(
    boxes: &[(Rectangle, Position)],
    bin_width: u32,
    bin_height: u32,
    w: u32,
    h: u32,
    p: Position,
) -> (ok: bool)
    ensures
        ok == settles(regions_of(boxes@), bin_width as int, bin_height as int, w as int, h as int, p),
{
    if p.x as u64 + w as u64 > bin_width as u64 || p.y as u64 + h as u64 > bin_height as u64 {
        return false;
    }
    if overlaps_placed(boxes, p, w, h) {
        return false;
    }
    is_true_bl_point(p, boxes)
}

/// The spot for one item among the placed boxes.
fn choose_spot(
    boxes: &[(Rectangle, Position)],
    bin_width: u32,
    bin_height: u32,
    item: Rectangle,
    allow_rotate: bool,
) -> (spot: Option<Spot>)
    requires
        forall|k: int|
            0 <= k < boxes.len() ==> (#[trigger] regions_of(boxes@)[k]).within_bin(
                bin_width as int,
                bin_height as int,
            ),
    ensures
        spot == best_spot(regions_of(boxes@), bin_width as int, bin_height as int, item, allow_rotate),
{
    let ghost regions = regions_of(boxes@);
    if item.width == 0 || item.height == 0 {
        return None;
    }
    let upright = best_point(boxes, bin_width, bin_height, item.width, item.height);
    let turned = if allow_rotate && item.width != item.height {
        best_point(boxes, bin_width, bin_height, item.height, item.width)
    } else {
        None
    };
    let spot = match (upright, turned) {
        (Some(p), Some(q)) => if q.y < p.y || (q.y == p.y && q.x < p.x) {
            Some(Spot { at: q, rotated: true })
        } else {
            Some(Spot { at: p, rotated: false })
        },
        (Some(p), None) => Some(Spot { at: p, rotated: false }),
        (None, Some(q)) => Some(Spot { at: q, rotated: true }),
        (None, None) => None,
    };
    proof {
        match spot {
            Some(s) => {
                assert forall|t: Spot| #[trigger]
                    admits(regions, bin_width as int, bin_height as int, item, allow_rotate, t)
                    implies preferred(s, t) by {
                    if t.rotated {
                        assert(turned is Some);
                        assert(lower_left(turned->0, t.at));
                    } else {
                        assert(upright is Some);
                        assert(lower_left(upright->0, t.at));
                    }
                }
                lemma_best_spot_is_unique(
                    regions,
                    bin_width as int,
                    bin_height as int,
                    item,
                    allow_rotate,
                    s,
                );
            },
            None => {
                assert forall|t: Spot|
                    !admits(regions, bin_width as int, bin_height as int, item, allow_rotate, t) by {}
            },
        }
    }
    spot
}

/// A layout with the indices of the items that its records place.
pub struct Picked {
    pub placed: Seq<Placement>,
    pub picks: Seq<int>,
}

/// The layout once the first `count` items have been offered, each in its
/// turn to the best spot that the layout before it admits.
pub open spec fn bottom_left_after(
    items: Seq<Rectangle>,
    bin_width: u32,
    bin_height: u32,
    allow_rotate: bool,
    count: nat,
) -> Picked
    decreases count,
{
    if count == 0 {
        Picked { placed: Seq::empty(), picks: Seq::empty() }
    } else {
        let before = bottom_left_after(items, bin_width, bin_height, allow_rotate, (count - 1) as nat);
        let item = items[count - 1];
        match best_spot(
            footprints(before.placed),
            bin_width as int,
            bin_height as int,
            item,
            allow_rotate,
        ) {
            Some(s) => Picked {
                placed: before.placed.push((item, s.at, s.rotated)),
                picks: before.picks.push(count - 1),
            },
            None => before,
        }
    }
}

/// The layout that the Bottom-Left heuristic yields for the items.
pub open spec fn bottom_left_layout(
    items: Seq<Rectangle>,
    bin_width: u32,
    bin_height: u32,
    allow_rotate: bool,
) -> Seq<Placement> {
    bottom_left_after(items, bin_width, bin_height, allow_rotate, items.len()).placed
}

/// The items that the Bottom-Left layout places, by their indices: one for
/// each record.
pub open spec fn bottom_left_picks(
    items: Seq<Rectangle>,
    bin_width: u32,
    bin_height: u32,
    allow_rotate: bool,
) -> Seq<int> {
    bottom_left_after(items, bin_width, bin_height, allow_rotate, items.len()).picks
}

/// After any number of items the Bottom-Left layout is sound: its
/// footprints lie in the bin and do not overlap, no record is turned unless
/// turning is allowed, and the records place the items picked.
pub proof fn lemma_bottom_left_after_is_sound(
    items: Seq<Rectangle>,
    bin_width: u32,
    bin_height: u32,
    allow_rotate: bool,
    count: nat,
)
    requires
        count <= items.len(),
    ensures
        sound_prefix(
            bottom_left_after(items, bin_width, bin_height, allow_rotate, count).placed,
            bottom_left_after(items, bin_width, bin_height, allow_rotate, count).picks,
            items,
            bin_width as int,
            bin_height as int,
            allow_rotate,
            count as int,
        ),
    decreases count,
{
    let bw = bin_width as int;
    let bh = bin_height as int;
    if count > 0 {
        let before = bottom_left_after(items, bin_width, bin_height, allow_rotate, (count - 1) as nat);
        let item = items[count - 1];
        lemma_bottom_left_after_is_sound(items, bin_width, bin_height, allow_rotate, (count - 1) as nat);
        match best_spot(footprints(before.placed), bw, bh, item, allow_rotate) {
            Some(s) => {
                let r = footprint((item, s.at, s.rotated));
                assert(is_best_spot(footprints(before.placed), bw, bh, item, allow_rotate, s));
                assert forall|k: int| 0 <= k < before.placed.len() implies !r.overlaps(
                    footprint(#[trigger] before.placed[k]),
                ) by {
                    assert(footprints(before.placed)[k] == footprint(before.placed[k]));
                }
                lemma_sound_push(
                    before.placed,
                    before.picks,
                    items,
                    bw,
                    bh,
                    allow_rotate,
                    count - 1,
                    s.at,
                    s.rotated,
                );
            },
            None => {},
        }
    }
}

/// The Bottom-Left layout is sound, and its picks name the items that its
/// records place.
pub proof fn lemma_bottom_left_layout_is_sound(
    items: Seq<Rectangle>,
    bin_width: u32,
    bin_height: u32,
    allow_rotate: bool,
)
    ensures
        sound_layout(
            bottom_left_layout(items, bin_width, bin_height, allow_rotate),
            items,
            bin_width as int,
            bin_height as int,
            allow_rotate,
        ),
        is_selection(
            bottom_left_picks(items, bin_width, bin_height, allow_rotate),
            items,
            bottom_left_layout(items, bin_width, bin_height, allow_rotate),
            items.len() as int,
        ),
{
    lemma_bottom_left_after_is_sound(items, bin_width, bin_height, allow_rotate, items.len());
}

/// Where the first item fits the bin as it is given, every layout from the
/// first item on starts with that item, upright at the bin's origin.
pub proof fn lemma_bottom_left_first_item_stays(
    items: Seq<Rectangle>,
    bin_width: u32,
    bin_height: u32,
    allow_rotate: bool,
    count: nat,
)
    requires
        1 <= count <= items.len(),
        placeable(items[0]),
        items[0].width <= bin_width,
        items[0].height <= bin_height,
    ensures
        bottom_left_after(items, bin_width, bin_height, allow_rotate, count).placed.len() > 0,
        bottom_left_after(items, bin_width, bin_height, allow_rotate, count).placed[0] == (
            items[0],
            Position { x: 0, y: 0 },
            false,
        ),
        bottom_left_after(items, bin_width, bin_height, allow_rotate, count).picks.len() > 0,
        bottom_left_after(items, bin_width, bin_height, allow_rotate, count).picks[0] == 0,
    decreases count,
{
    if count == 1 {
        let start = bottom_left_after(items, bin_width, bin_height, allow_rotate, 0);
        let regions = footprints(start.placed);
        let origin = Spot { at: Position { x: 0, y: 0 }, rotated: false };
        assert(start.placed.len() == 0);
        assert(regions.len() == 0);
        assert(is_best_spot(regions, bin_width as int, bin_height as int, items[0], allow_rotate, origin));
        lemma_best_spot_is_unique(
            regions,
            bin_width as int,
            bin_height as int,
            items[0],
            allow_rotate,
            origin,
        );
    } else {
        lemma_bottom_left_first_item_stays(
            items,
            bin_width,
            bin_height,
            allow_rotate,
            (count - 1) as nat,
        );
    }
}

/// Where the first item fits the bin as it is given, the Bottom-Left
/// layout starts with that item, upright at the bin's origin.
pub proof fn lemma_bottom_left_places_first_item(
    items: Seq<Rectangle>,
    bin_width: u32,
    bin_height: u32,
    allow_rotate: bool,
)
    requires
        first_fits(items, bin_width as int, bin_height as int),
    ensures
        starts_at_origin(bottom_left_layout(items, bin_width, bin_height, allow_rotate), items),
        bottom_left_picks(items, bin_width, bin_height, allow_rotate)[0] == 0,
{
    lemma_bottom_left_first_item_stays(items, bin_width, bin_height, allow_rotate, items.len());
}

/// Places the items in a bin by the Bottom-Left heuristic, in the order
/// given. The answer holds a record for every item that found a spot; an
/// item that found none is left out.
pub fn bottom_left_placement(
    rectangles: &[Rectangle],
    container_width: u32,
    container_height: u32,
    allow_rotate: bool,
) -> (placed: Vec<(Rectangle, Position, bool)>)
    ensures
        placed@ == bottom_left_layout(rectangles@, container_width, container_height, allow_rotate),
        sound_layout(
            placed@,
            rectangles@,
            container_width as int,
            container_height as int,
            allow_rotate,
        ),
        first_fits(rectangles@, container_width as int, container_height as int)
            ==> starts_at_origin(placed@, rectangles@),
{
    bottom_left_placement_with_picks(rectangles, container_width, container_height, allow_rotate).0
}

/// Places the items as `bottom_left_placement` does and answers, beside the
/// records, with the index of the item that each record places.
pub fn bottom_left_placement_with_picks(
    rectangles: &[Rectangle],
    container_width: u32,
    container_height: u32,
    allow_rotate: bool,
) -> (run: (Vec<(Rectangle, Position, bool)>, Vec<usize>))
    ensures
        run.0@ == bottom_left_layout(rectangles@, container_width, container_height, allow_rotate),
        indices(run.1@) == bottom_left_picks(
            rectangles@,
            container_width,
            container_height,
            allow_rotate,
        ),
        sound_layout(
            run.0@,
            rectangles@,
            container_width as int,
            container_height as int,
            allow_rotate,
        ),
        is_selection(indices(run.1@), rectangles@, run.0@, rectangles@.len() as int),
        first_fits(rectangles@, container_width as int, container_height as int)
            ==> starts_at_origin(run.0@, rectangles@),
{
    let mut placed: Vec<(Rectangle, Position, bool)> = Vec::new();
    let mut picks: Vec<usize> = Vec::new();
    let mut boxes: Vec<(Rectangle, Position)> = Vec::new();
    assert(indices(picks@) =~= Seq::<int>::empty());
    let mut i: usize = 0;
    while i < rectangles.len()
        invariant
            i <= rectangles.len(),
            placed@ == bottom_left_after(
                rectangles@,
                container_width,
                container_height,
                allow_rotate,
                i as nat,
            ).placed,
            indices(picks@) == bottom_left_after(
                rectangles@,
                container_width,
                container_height,
                allow_rotate,
                i as nat,
            ).picks,
            boxes.len() == placed.len(),
            regions_of(boxes@) == footprints(placed@),
        decreases rectangles.len() - i,
    {
        let rect = rectangles[i];
        proof {
            lemma_bottom_left_after_is_sound(
                rectangles@,
                container_width,
                container_height,
                allow_rotate,
                i as nat,
            );
            assert forall|k: int| 0 <= k < boxes.len() implies (#[trigger] regions_of(
                boxes@,
            )[k]).within_bin(container_width as int, container_height as int) by {
                assert(footprints(placed@)[k] == footprint(placed@[k]));
            }
        }
        match choose_spot(boxes.as_slice(), container_width, container_height, rect, allow_rotate) {
            Some(spot) => {
                let footprint_size = if spot.rotated {
                    Rectangle { width: rect.height, height: rect.width }
                } else {
                    rect
                };
                let ghost boxes_before = boxes@;
                let ghost placed_before = placed@;
                let ghost picks_before = picks@;
                placed.push((rect, spot.at, spot.rotated));
                picks.push(i);
                boxes.push((footprint_size, spot.at));
                proof {
                    assert forall|k: int| 0 <= k < boxes.len() implies regions_of(boxes@)[k]
                        == footprints(placed@)[k] by {
                        if k < boxes_before.len() {
                            assert(regions_of(boxes_before)[k] == footprints(placed_before)[k]);
                        }
                    }
                    assert(regions_of(boxes@) =~= footprints(placed@));
                    assert(indices(picks@) =~= indices(picks_before).push(i as int));
                }
            },
            None => {},
        }
        i += 1;
    }
    proof {
        lemma_bottom_left_layout_is_sound(rectangles@, container_width, container_height, allow_rotate);
        if first_fits(rectangles@, container_width as int, container_height as int) {
            lemma_bottom_left_places_first_item(
                rectangles@,
                container_width,
                container_height,
                allow_rotate,
            );
        }
    }
    (placed, picks)
}

} // verus!
