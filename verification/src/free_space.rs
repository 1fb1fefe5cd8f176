//! Free-rectangle bookkeeping by best area fit, as the MaxRects and the
//! Guillotine placers share it: a list of free regions, the choice of the
//! smallest one that takes the item, and the split of the region used.

use vstd::prelude::*;
use crate::{Position, Rectangle};
use crate::geometry::{
    Fit, Placement, Region, footprint, lemma_sound_push, orientation_allowed, oriented_height,
    oriented_width, placeable, sound_prefix, tried_before,
};

verus! {

pub open spec fn area(r: Region) -> int {
    r.width * r.height
}

/// The item, in the orientation of `c`, is tried and goes into the free
/// region that `c` names.
pub open spec fn fits(free: Seq<Region>, item: Rectangle, allow_rotate: bool, c: Fit) -> bool {
    &&& placeable(item)
    &&& orientation_allowed(item, c.rotated, allow_rotate)
    &&& c.index < free.len()
    &&& oriented_width(item, c.rotated) <= free[c.index as int].width
    &&& oriented_height(item, c.rotated) <= free[c.index as int].height
}

/// `c` is chosen over `d`: its region is smaller, or as large and tried
/// no later.
pub open spec fn chosen_over(free: Seq<Region>, c: Fit, d: Fit) -> bool {
    area(free[c.index as int]) < area(free[d.index as int]) || (area(free[c.index as int]) == area(
        free[d.index as int],
    ) && (c == d || tried_before(c, d)))
}

pub open spec fn is_best_fit(free: Seq<Region>, item: Rectangle, allow_rotate: bool, c: Fit) -> bool {
    &&& fits(free, item, allow_rotate, c)
    &&& forall|d: Fit| #[trigger] fits(free, item, allow_rotate, d) ==> chosen_over(free, c, d)
}

/// The fit of smallest area for the item, the first one tried among equals,
/// if the item fits anywhere.
pub open spec fn best_fit(free: Seq<Region>, item: Rectangle, allow_rotate: bool) -> Option<Fit> {
    if exists|c: Fit| is_best_fit(free, item, allow_rotate, c) {
        Some(choose|c: Fit| is_best_fit(free, item, allow_rotate, c))
    } else {
        None
    }
}

/// There is at most one best fit, so finding one settles `best_fit`.
pub proof fn lemma_best_fit_is_unique(free: Seq<Region>, item: Rectangle, allow_rotate: bool, c: Fit)
    requires
        is_best_fit(free, item, allow_rotate, c),
    ensures
        best_fit(free, item, allow_rotate) == Some(c),
{
    let d = choose|d: Fit| is_best_fit(free, item, allow_rotate, d);
    assert(chosen_over(free, c, d) && chosen_over(free, d, c));
}

/// What is left of `used` to the right of a `w` by `h` footprint at its
/// origin: as high as the footprint.
pub open spec fn right_remainder(used: Region, w: int, h: int) -> Region {
    Region { x: used.x + w, y: used.y, width: used.width - w, height: h }
}

/// What is left of `used` beyond a `w` by `h` footprint at its origin, in
/// the direction of `y`: as wide as `used`.
pub open spec fn bottom_remainder(used: Region, w: int, h: int) -> Region {
    Region { x: used.x, y: used.y + h, width: used.width, height: used.height - h }
}

pub open spec fn covers_area(r: Region) -> bool {
    r.width > 0 && r.height > 0
}

/// The regions that go back to the free list when a `w` by `h` footprint is
/// cut from the origin of `used`. With `keep_empty` both remainders go back
/// whatever their size; without it only those that cover some area.
pub open spec fn remainders(used: Region, w: int, h: int, keep_empty: bool) -> Seq<Region> {
    let right = right_remainder(used, w, h);
    let bottom = bottom_remainder(used, w, h);
    let first = if keep_empty || covers_area(right) { seq![right] } else { Seq::empty() };
    let second = if keep_empty || covers_area(bottom) { seq![bottom] } else { Seq::empty() };
    first + second
}

/// A layout, the indices of the items that its records place, and the free
/// regions that are left beside it.
pub struct FreeSpace {
    pub placed: Seq<Placement>,
    pub picks: Seq<int>,
    pub free: Seq<Region>,
}

pub open spec fn origin_of(r: Region) -> Position {
    Position { x: r.x as u32, y: r.y as u32 }
}

/// The whole bin as one free region.
pub open spec fn whole_bin(bin_width: u32, bin_height: u32) -> Region {
    Region { x: 0, y: 0, width: bin_width as int, height: bin_height as int }
}

/// Offers the item at `index`: it goes to the origin of its best fit, which
/// leaves the free list for its remainders; an item that fits nowhere
/// changes nothing.
pub open spec fn offer(
    space: FreeSpace,
    item: Rectangle,
    index: int,
    allow_rotate: bool,
    keep_empty: bool,
) -> FreeSpace {
    match best_fit(space.free, item, allow_rotate) {
        Some(c) => {
            let used = space.free[c.index as int];
            FreeSpace {
                placed: space.placed.push((item, origin_of(used), c.rotated)),
                picks: space.picks.push(index),
                free: space.free.remove(c.index as int) + remainders(
                    used,
                    oriented_width(item, c.rotated),
                    oriented_height(item, c.rotated),
                    keep_empty,
                ),
            }
        },
        None => space,
    }
}

/// The layout and the free list once the first `count` items have been
/// offered in their order, starting from the empty bin.
pub open spec fn area_fit_after(
    items: Seq<Rectangle>,
    bin_width: u32,
    bin_height: u32,
    allow_rotate: bool,
    keep_empty: bool,
    count: nat,
) -> FreeSpace
    decreases count,
{
    if count == 0 {
        FreeSpace {
            placed: Seq::empty(),
            picks: Seq::empty(),
            free: seq![whole_bin(bin_width, bin_height)],
        }
    } else {
        offer(
            area_fit_after(items, bin_width, bin_height, allow_rotate, keep_empty, (count - 1) as nat),
            items[count - 1],
            count - 1,
            allow_rotate,
            keep_empty,
        )
    }
}

/// The free regions lie in the bin, and none of them overlaps another one
/// or a footprint of the layout.
pub open spec fn well_kept(space: FreeSpace, bin_width: int, bin_height: int) -> bool {
    &&& forall|i: int|
        0 <= i < space.free.len() ==> (#[trigger] space.free[i]).within_bin(bin_width, bin_height)
    &&& forall|i: int, j: int|
        0 <= i < j < space.free.len() ==> !(#[trigger] space.free[i]).overlaps(
            #[trigger] space.free[j],
        )
    &&& forall|i: int, k: int|
        0 <= i < space.free.len() && 0 <= k < space.placed.len() ==> !(#[trigger] space.free[i]).overlaps(
            footprint(#[trigger] space.placed[k]),
        )
}

/// A region inside `outer` overlaps nothing that `outer` does not overlap.
pub proof fn lemma_inside_is_clear(inner: Region, outer: Region, other: Region)
    requires
        inner.inside(outer),
        !outer.overlaps(other),
    ensures
        !inner.overlaps(other),
        !other.overlaps(inner),
{
}

/// Offering the next item keeps the layout sound and the free list well
/// kept.
pub proof fn lemma_offer_is_sound(
    space: FreeSpace,
    items: Seq<Rectangle>,
    bin_width: u32,
    bin_height: u32,
    allow_rotate: bool,
    keep_empty: bool,
    limit: int,
)
    requires
        0 <= limit < items.len(),
        sound_prefix(
            space.placed,
            space.picks,
            items,
            bin_width as int,
            bin_height as int,
            allow_rotate,
            limit,
        ),
        well_kept(space, bin_width as int, bin_height as int),
    ensures
        sound_prefix(
            offer(space, items[limit], limit, allow_rotate, keep_empty).placed,
            offer(space, items[limit], limit, allow_rotate, keep_empty).picks,
            items,
            bin_width as int,
            bin_height as int,
            allow_rotate,
            limit + 1,
        ),
        well_kept(
            offer(space, items[limit], limit, allow_rotate, keep_empty),
            bin_width as int,
            bin_height as int,
        ),
{
    let bw = bin_width as int;
    let bh = bin_height as int;
    let item = items[limit];
    match best_fit(space.free, item, allow_rotate) {
        Some(c) => {
            assert(is_best_fit(space.free, item, allow_rotate, c));
            let at = c.index as int;
            let used = space.free[at];
            let w = oriented_width(item, c.rotated);
            let h = oriented_height(item, c.rotated);
            let record = (item, origin_of(used), c.rotated);
            let taken = footprint(record);
            let rest = remainders(used, w, h, keep_empty);
            let next = offer(space, item, limit, allow_rotate, keep_empty);
            assert(used.within_bin(bw, bh));
            assert(taken.inside(used));
            assert forall|k: int| 0 <= k < space.placed.len() implies !taken.overlaps(
                footprint(#[trigger] space.placed[k]),
            ) by {
                lemma_inside_is_clear(taken, used, footprint(space.placed[k]));
            }
            lemma_sound_push(
                space.placed,
                space.picks,
                items,
                bw,
                bh,
                allow_rotate,
                limit,
                origin_of(used),
                c.rotated,
            );

            let kept = space.free.remove(at);
            assert(next.free == kept + rest);
            assert forall|i: int| 0 <= i < next.free.len() implies {
                let e = #[trigger] next.free[i];
                let from = if i < at { i } else { i + 1 };
                if i < kept.len() {
                    from != at && 0 <= from < space.free.len() && e == space.free[from]
                } else {
                    e.inside(used) && !e.overlaps(taken) && (e == right_remainder(used, w, h) || e
                        == bottom_remainder(used, w, h)) && (e == right_remainder(used, w, h) ==> i
                        == kept.len())
                }
            } by {
                if i >= kept.len() {
                    assert(next.free[i] == rest[i - kept.len()]);
                }
            }
            assert forall|i: int| 0 <= i < next.free.len() implies (#[trigger] next.free[i]).within_bin(
                bw,
                bh,
            ) by {}
            assert forall|i: int, j: int| 0 <= i < j < next.free.len() implies !(
            #[trigger] next.free[i]).overlaps(#[trigger] next.free[j]) by {
                if j >= kept.len() && i < kept.len() {
                    let from = if i < at { i } else { i + 1 };
                    lemma_inside_is_clear(next.free[j], used, space.free[from]);
                }
            }
            assert forall|i: int, k: int|
                0 <= i < next.free.len() && 0 <= k < next.placed.len() implies !(
            #[trigger] next.free[i]).overlaps(footprint(#[trigger] next.placed[k])) by {
                let from = if i < at { i } else { i + 1 };
                if k < space.placed.len() {
                    assert(next.placed[k] == space.placed[k]);
                    if i >= kept.len() {
                        lemma_inside_is_clear(next.free[i], used, footprint(space.placed[k]));
                    }
                } else {
                    assert(next.placed[k] == record);
                    if i < kept.len() {
                        lemma_inside_is_clear(taken, used, space.free[from]);
                    }
                }
            }
        },
        None => {},
    }
}

/// After any number of items the layout by best area fit is sound and its
/// free list well kept.
pub proof fn lemma_area_fit_after_is_sound(
    items: Seq<Rectangle>,
    bin_width: u32,
    bin_height: u32,
    allow_rotate: bool,
    keep_empty: bool,
    count: nat,
)
    requires
        count <= items.len(),
    ensures
        sound_prefix(
            area_fit_after(items, bin_width, bin_height, allow_rotate, keep_empty, count).placed,
            area_fit_after(items, bin_width, bin_height, allow_rotate, keep_empty, count).picks,
            items,
            bin_width as int,
            bin_height as int,
            allow_rotate,
            count as int,
        ),
        well_kept(
            area_fit_after(items, bin_width, bin_height, allow_rotate, keep_empty, count),
            bin_width as int,
            bin_height as int,
        ),
    decreases count,
{
    if count > 0 {
        lemma_area_fit_after_is_sound(
            items,
            bin_width,
            bin_height,
            allow_rotate,
            keep_empty,
            (count - 1) as nat,
        );
        lemma_offer_is_sound(
            area_fit_after(items, bin_width, bin_height, allow_rotate, keep_empty, (count - 1) as nat),
            items,
            bin_width,
            bin_height,
            allow_rotate,
            keep_empty,
            count - 1,
        );
    }
}

/// Where the first item fits the bin as it is given, every layout from the
/// first item on starts with that item, upright at the bin's origin.
pub proof fn lemma_area_fit_first_item_stays(
    items: Seq<Rectangle>,
    bin_width: u32,
    bin_height: u32,
    allow_rotate: bool,
    keep_empty: bool,
    count: nat,
)
    requires
        1 <= count <= items.len(),
        placeable(items[0]),
        items[0].width <= bin_width,
        items[0].height <= bin_height,
    ensures
        area_fit_after(items, bin_width, bin_height, allow_rotate, keep_empty, count).placed.len() > 0,
        area_fit_after(items, bin_width, bin_height, allow_rotate, keep_empty, count).placed[0] == (
            items[0],
            Position { x: 0, y: 0 },
            false,
        ),
        area_fit_after(items, bin_width, bin_height, allow_rotate, keep_empty, count).picks.len() > 0,
        area_fit_after(items, bin_width, bin_height, allow_rotate, keep_empty, count).picks[0] == 0,
    decreases count,
{
    if count == 1 {
        let start = area_fit_after(items, bin_width, bin_height, allow_rotate, keep_empty, 0);
        let whole = Fit { index: 0, rotated: false };
        assert(start.free.len() == 1);
        assert(start.free[0] == whole_bin(bin_width, bin_height));
        assert(is_best_fit(start.free, items[0], allow_rotate, whole));
        lemma_best_fit_is_unique(start.free, items[0], allow_rotate, whole);
    } else {
        lemma_area_fit_first_item_stays(
            items,
            bin_width,
            bin_height,
            allow_rotate,
            keep_empty,
            (count - 1) as nat,
        );
    }
}

/// A free rectangle as a placer keeps it: it stands for a region and knows
/// its extents.
pub trait Extent {
    spec fn region(&self) -> Region;

    /// The width and the height.
    fn extent(&self) -> (e: (u32, u32))
        ensures
            e.0 == self.region().width,
            e.1 == self.region().height,
    ;
}

/// The regions of a free list, in order.
pub open spec fn free_regions<T: Extent>(free: Seq<T>) -> Seq<Region> {
    Seq::new(free.len(), |k: int| free[k].region())
}

fn area_of<T: Extent>(free: &T) -> (a: u64)
    ensures
        a == area(free.region()),
{
    let (width, height) = free.extent();
    assert(width * height <= 0xFFFF_FFFF * 0xFFFF_FFFF) by (nonlinear_arith)
        requires
            width <= 0xFFFF_FFFF,
            height <= 0xFFFF_FFFF,
    ;
    width as u64 * height as u64
}

/// Tries the item in one orientation on every free rectangle, in order, and
/// keeps what is chosen over `start`.
fn scan_orientation<T: Extent>(
    free_rects: &Vec<T>,
    item: Rectangle,
    allow_rotate: bool,
    rotated: bool,
    start: Option<Fit>,
) -> (best: Option<Fit>)
    requires
        placeable(item),
        orientation_allowed(item, rotated, allow_rotate),
        start matches Some(c) ==> fits(free_regions(free_rects@), item, allow_rotate, c)
            && tried_before(c, Fit { index: 0, rotated }),
        forall|d: Fit| #[trigger]
            fits(free_regions(free_rects@), item, allow_rotate, d) && tried_before(
                d,
                Fit { index: 0, rotated },
            ) ==> start is Some && chosen_over(free_regions(free_rects@), start->0, d),
    ensures
        best matches Some(c) ==> fits(free_regions(free_rects@), item, allow_rotate, c)
            && tried_before(c, Fit { index: free_rects.len(), rotated }),
        forall|d: Fit| #[trigger]
            fits(free_regions(free_rects@), item, allow_rotate, d) && tried_before(
                d,
                Fit { index: free_rects.len(), rotated },
            ) ==> best is Some && chosen_over(free_regions(free_rects@), best->0, d),
{
    let ghost regions = free_regions(free_rects@);
    let (w, h) = if rotated {
        (item.height, item.width)
    } else {
        (item.width, item.height)
    };
    let mut best = start;
    let mut i: usize = 0;
    while i < free_rects.len()
        invariant
            i <= free_rects.len(),
            regions == free_regions(free_rects@),
            placeable(item),
            orientation_allowed(item, rotated, allow_rotate),
            w == (if rotated { item.height } else { item.width }),
            h == (if rotated { item.width } else { item.height }),
            best matches Some(c) ==> fits(regions, item, allow_rotate, c) && tried_before(
                c,
                Fit { index: i, rotated },
            ),
            forall|d: Fit| #[trigger]
                fits(regions, item, allow_rotate, d) && tried_before(d, Fit { index: i, rotated })
                    ==> best is Some && chosen_over(regions, best->0, d),
        decreases free_rects.len() - i,
    {
        let free = &free_rects[i];
        let (free_width, free_height) = free.extent();
        let ghost before = best;
        assert(regions[i as int] == free.region());
        if w <= free_width && h <= free_height {
            let better = match best {
                Some(c) => {
                    assert(regions[c.index as int] == free_rects@[c.index as int].region());
                    area_of(free) < area_of(&free_rects[c.index])
                },
                None => true,
            };
            if better {
                best = Some(Fit { index: i, rotated });
            }
        }
        proof {
            assert forall|d: Fit| #[trigger]
                fits(regions, item, allow_rotate, d) && tried_before(
                    d,
                    Fit { index: (i + 1) as usize, rotated },
                ) implies best is Some && chosen_over(regions, best->0, d) by {
                if tried_before(d, Fit { index: i, rotated }) {
                    assert(chosen_over(regions, before->0, d));
                } else {
                    assert(d == Fit { index: i, rotated });
                }
            }
        }
        i += 1;
    }
    best
}

/// The best fit for the item in the free list.
pub fn best_area_fit<T: Extent>(free_rects: &Vec<T>, item: Rectangle, allow_rotate: bool) -> (fit: Option<
    Fit,
>)
    ensures
        fit == best_fit(free_regions(free_rects@), item, allow_rotate),
{
    let ghost regions = free_regions(free_rects@);
    if item.width == 0 || item.height == 0 {
        return None;
    }
    let upright = scan_orientation(free_rects, item, allow_rotate, false, None);
    let fit = if allow_rotate && item.width != item.height {
        scan_orientation(free_rects, item, allow_rotate, true, upright)
    } else {
        upright
    };
    proof {
        match fit {
            Some(c) => {
                assert(is_best_fit(regions, item, allow_rotate, c));
                lemma_best_fit_is_unique(regions, item, allow_rotate, c);
            },
            None => {
                assert forall|c: Fit| !is_best_fit(regions, item, allow_rotate, c) by {}
            },
        }
    }
    fit
}

} // verus!
