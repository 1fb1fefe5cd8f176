//! The MaxRects heuristic in its simple form: every item goes to the origin
//! of the smallest free rectangle that takes it, and both remainders of that
//! rectangle go back to the free list.

use vstd::prelude::*;
use crate::{Position, Rectangle};
use crate::geometry::{
    Placement, Region, first_fits, indices, is_selection, sound_layout, starts_at_origin,
};
use crate::free_space::{
    Extent, area_fit_after, best_area_fit, free_regions, is_best_fit, lemma_area_fit_after_is_sound,
    lemma_area_fit_first_item_stays,
};

verus! {

/// A free rectangle of the bin.
#[derive(Debug, Clone, Copy, PartialEq, Eq, Structural)]
pub struct FreeRect {
    pub position: Position,
    pub width: u32,
    pub height: u32,
}

impl Extent for FreeRect {
    open spec fn region(&self) -> Region {
        Region {
            x: self.position.x as int,
            y: self.position.y as int,
            width: self.width as int,
            height: self.height as int,
        }
    }

    fn extent(&self) -> (u32, u32) {
        (self.width, self.height)
    }
}

/// The layout that the MaxRects heuristic yields for the items: best area
/// fit, with both remainders kept whatever their size.
pub open spec fn maxrects_layout(
    items: Seq<Rectangle>,
    bin_width: u32,
    bin_height: u32,
    allow_rotate: bool,
) -> Seq<Placement> {
    area_fit_after(items, bin_width, bin_height, allow_rotate, true, items.len()).placed
}

/// The items that the MaxRects layout places, by their indices: one for
/// each record.
pub open spec fn maxrects_picks(
    items: Seq<Rectangle>,
    bin_width: u32,
    bin_height: u32,
    allow_rotate: bool,
) -> Seq<int> {
    area_fit_after(items, bin_width, bin_height, allow_rotate, true, items.len()).picks
}

/// The MaxRects layout is sound: its footprints lie in the bin and do not
/// overlap, no record is turned unless turning is allowed, and the records
/// place the items picked, which are distinct and in their order.
pub proof fn lemma_maxrects_layout_is_sound(
    items: Seq<Rectangle>,
    bin_width: u32,
    bin_height: u32,
    allow_rotate: bool,
)
    ensures
        sound_layout(
            maxrects_layout(items, bin_width, bin_height, allow_rotate),
            items,
            bin_width as int,
            bin_height as int,
            allow_rotate,
        ),
        is_selection(
            maxrects_picks(items, bin_width, bin_height, allow_rotate),
            items,
            maxrects_layout(items, bin_width, bin_height, allow_rotate),
            items.len() as int,
        ),
{
    lemma_area_fit_after_is_sound(items, bin_width, bin_height, allow_rotate, true, items.len());
}

/// Where the first item fits the bin as it is given, the MaxRects layout
/// starts with that item, upright at the bin's origin.
pub proof fn lemma_maxrects_places_first_item(
    items: Seq<Rectangle>,
    bin_width: u32,
    bin_height: u32,
    allow_rotate: bool,
)
    requires
        first_fits(items, bin_width as int, bin_height as int),
    ensures
        starts_at_origin(maxrects_layout(items, bin_width, bin_height, allow_rotate), items),
        maxrects_picks(items, bin_width, bin_height, allow_rotate)[0] == 0,
{
    lemma_area_fit_first_item_stays(items, bin_width, bin_height, allow_rotate, true, items.len());
}

/// Places the items in a bin by the MaxRects heuristic, in the order given.
/// The answer holds a record for every item that fitted a free rectangle;
/// an item that fitted none is left out.
pub fn maxrects_placement(
    rectangles: &[Rectangle],
    container_width: u32,
    container_height: u32,
    allow_rotate: bool,
) -> (placed: Vec<(Rectangle, Position, bool)>)
    ensures
        placed@ == maxrects_layout(rectangles@, container_width, container_height, allow_rotate),
        sound_layout(
            placed@,
            rectangles@,
            container_width as int,
            container_height as int,
            allow_rotate,
        ),
        first_fits(rectangles@, container_width as int, container_height as int)
            ==> starts_at_origin(placed@, rectangles@),
{
    maxrects_placement_with_picks(rectangles, container_width, container_height, allow_rotate).0
}

/// Places the items as `maxrects_placement` does and answers, beside the
/// records, with the index of the item that each record places.
pub fn maxrects_placement_with_picks(
    rectangles: &[Rectangle],
    container_width: u32,
    container_height: u32,
    allow_rotate: bool,
) -> (run: (Vec<(Rectangle, Position, bool)>, Vec<usize>))
    ensures
        run.0@ == maxrects_layout(rectangles@, container_width, container_height, allow_rotate),
        indices(run.1@) == maxrects_picks(rectangles@, container_width, container_height, allow_rotate),
        sound_layout(
            run.0@,
            rectangles@,
            container_width as int,
            container_height as int,
            allow_rotate,
        ),
        is_selection(indices(run.1@), rectangles@, run.0@, rectangles@.len() as int),
        first_fits(rectangles@, container_width as int, container_height as int)
            ==> starts_at_origin(run.0@, rectangles@),
{
    let mut placed: Vec<(Rectangle, Position, bool)> = Vec::new();
    let mut picks: Vec<usize> = Vec::new();
    assert(indices(picks@) =~= Seq::<int>::empty());
    let mut free_rects: Vec<FreeRect> = Vec::new();
    free_rects.push(
        FreeRect { position: Position { x: 0, y: 0 }, width: container_width, height: container_height },
    );
    assert(free_regions(free_rects@) =~= area_fit_after(
        rectangles@,
        container_width,
        container_height,
        allow_rotate,
        true,
        0,
    ).free);
    let mut i: usize = 0;
    while i < rectangles.len()
        invariant
            i <= rectangles.len(),
            placed@ == area_fit_after(
                rectangles@,
                container_width,
                container_height,
                allow_rotate,
                true,
                i as nat,
            ).placed,
            indices(picks@) == area_fit_after(
                rectangles@,
                container_width,
                container_height,
                allow_rotate,
                true,
                i as nat,
            ).picks,
            free_regions(free_rects@) == area_fit_after(
                rectangles@,
                container_width,
                container_height,
                allow_rotate,
                true,
                i as nat,
            ).free,
        decreases rectangles.len() - i,
    {
        let rect = rectangles[i];
        let ghost space = area_fit_after(
            rectangles@,
            container_width,
            container_height,
            allow_rotate,
            true,
            i as nat,
        );
        proof {
            lemma_area_fit_after_is_sound(
                rectangles@,
                container_width,
                container_height,
                allow_rotate,
                true,
                i as nat,
            );
        }
        match best_area_fit(&free_rects, rect, allow_rotate) {
            Some(fit) => {
                let used = free_rects[fit.index];
                let (w, h) = if fit.rotated {
                    (rect.height, rect.width)
                } else {
                    (rect.width, rect.height)
                };
                proof {
                    assert(is_best_fit(space.free, rect, allow_rotate, fit));
                    assert(space.free[fit.index as int] == used.region());
                    assert(used.region().within_bin(container_width as int, container_height as int));
                }
                let ghost kept = free_rects@.remove(fit.index as int);
                let ghost picks_before = picks@;
                placed.push((rect, used.position, fit.rotated));
                picks.push(i);
                assert(indices(picks@) =~= indices(picks_before).push(i as int));
                free_rects.remove(fit.index);
                free_rects.push(
                    FreeRect {
                        position: Position { x: used.position.x + w, y: used.position.y },
                        width: used.width - w,
                        height: h,
                    },
                );
                free_rects.push(
                    FreeRect {
                        position: Position { x: used.position.x, y: used.position.y + h },
                        width: used.width,
                        height: used.height - h,
                    },
                );
                proof {
                    let next = area_fit_after(
                        rectangles@,
                        container_width,
                        container_height,
                        allow_rotate,
                        true,
                        (i + 1) as nat,
                    );
                    assert(free_regions(kept) =~= space.free.remove(fit.index as int));
                    assert(free_regions(free_rects@) =~= next.free);
                }
            },
            None => {},
        }
        i += 1;
    }
    proof {
        lemma_maxrects_layout_is_sound(rectangles@, container_width, container_height, allow_rotate);
        if first_fits(rectangles@, container_width as int, container_height as int) {
            lemma_maxrects_places_first_item(
                rectangles@,
                container_width,
                container_height,
                allow_rotate,
            );
        }
    }
    (placed, picks)
}

} // verus!
