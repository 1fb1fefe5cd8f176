//! The packer: it holds items, bins and a choice of heuristic, and packs the
//! items bin by bin, each bin taking what it can of the items that the bins
//! before it left.

use vstd::prelude::*;
use crate::Rectangle;
use crate::bottom_left::bottom_left_placement_with_picks;
use crate::geometry::indices;
use crate::guillotine::guillotine_placement_with_picks;
use crate::maxrects::maxrects_placement_with_picks;
use crate::packing::{
    conserves, first_fits_first_bin, free_of_overlap, in_bin_order, left_over,
    lemma_left_over_of_items, lemma_nothing_left, lemma_pack_accounts_for_items,
    lemma_pack_is_free_of_overlap, lemma_pack_is_in_bin_order, lemma_pack_is_within_bins,
    lemma_pack_starts_in_first_bin, lemma_pack_turns_only_if_allowed, pack_results, packed_as,
    packed_upto, pending_before, pending_ids, picks_in, placed_in, starts_in_first_bin, tagged,
    turned_only_if, within_bins,
};
use crate::skyline::skyline_placement_with_picks;

verus! {

/// The heuristics by name. Names that differ only in a tie-break policy
/// stand for the same placer.
#[derive(Debug, Clone, Copy, PartialEq, Eq, Structural)]
pub enum PackAlgorithm {
    BottomLeft,
    MaxRects,
    MaxRectsBssf,
    MaxRectsBaf,
    MaxRectsBlsf,
    Skyline,
    SkylineBl,
    Guillotine,
    GuillotineBssfSas,
}

/// A bin, by its extents.
#[derive(Debug, Clone, Copy, PartialEq, Eq, Structural)]
pub struct Bin {
    pub width: u32,
    pub height: u32,
}

/// A placed item: where its footprint starts, the extents of the footprint,
/// whether the item was turned, and the bin that holds it.
#[derive(Debug, Clone, Copy, PartialEq, Eq, Structural)]
pub struct PackedRect {
    pub x: u32,
    pub y: u32,
    pub width: u32,
    pub height: u32,
    pub rotated: bool,
    pub bin_id: usize,
}

/// The state of a packer: what it was given and what the last run packed.
pub struct PackerState {
    pub items: Seq<Rectangle>,
    pub bins: Seq<Bin>,
    pub algorithm: PackAlgorithm,
    pub allow_rotation: bool,
    pub results: Seq<PackedRect>,
}

/// Packs a list of items into a list of bins by one of the heuristics.
pub struct Packer {
    rects: Vec<Rectangle>,
    bins: Vec<Bin>,
    algorithm: PackAlgorithm,
    allow_rotation: bool,
    packed_rects: Vec<PackedRect>,
}

impl View for Packer {
    type V = PackerState;

    closed spec fn view(&self) -> PackerState {
        PackerState {
            items: self.rects@,
            bins: self.bins@,
            algorithm: self.algorithm,
            allow_rotation: self.allow_rotation,
            results: self.packed_rects@,
        }
    }
}

/// What is left of the pending items once those that were picked are
/// taken out.
fn leave_out(pending: &Vec<Rectangle>, picks: &Vec<usize>) -> (left: Vec<Rectangle>)
    requires
        forall|k: int, l: int| 0 <= k < l < picks.len() ==> picks[k] < picks[l],
    ensures
        left@ == left_over(pending@, indices(picks@), pending.len() as nat),
{
    let mut left: Vec<Rectangle> = Vec::new();
    let mut next: usize = 0;
    let mut i: usize = 0;
    while i < pending.len()
        invariant
            i <= pending.len(),
            next <= picks.len(),
            forall|k: int, l: int| 0 <= k < l < picks.len() ==> picks[k] < picks[l],
            forall|k: int| 0 <= k < next ==> picks[k] < i,
            forall|k: int| next <= k < picks.len() ==> picks[k] >= i,
            left@ == left_over(pending@, indices(picks@), i as nat),
        decreases pending.len() - i,
    {
        let picked = next < picks.len() && picks[next] == i;
        proof {
            if picked {
                assert(indices(picks@)[next as int] == i);
            } else if indices(picks@).contains(i as int) {
                let k = choose|k: int| 0 <= k < picks.len() && indices(picks@)[k] == i;
                assert(picks[k] == i);
                if next < picks.len() && k > next {
                    assert(picks[next as int] < picks[k]);
                }
            }
        }
        if picked {
            next += 1;
        } else {
            left.push(pending[i]);
        }
        i += 1;
    }
    left
}

impl Packer {
    /// A packer with no items and no bins, set to MaxRects without
    /// rotation.
    pub fn new() -> (packer: Self)
        ensures
            packer@ == (PackerState {
                items: Seq::empty(),
                bins: Seq::empty(),
                algorithm: PackAlgorithm::MaxRects,
                allow_rotation: false,
                results: Seq::empty(),
            }),
    {
        Self {
            rects: Vec::new(),
            bins: Vec::new(),
            algorithm: PackAlgorithm::MaxRects,
            allow_rotation: false,
            packed_rects: Vec::new(),
        }
    }

    /// Adds an item behind those already there.
    pub fn add_rect(&mut self, rect: Rectangle)
        ensures
            final(self)@ == (PackerState { items: old(self)@.items.push(rect), ..old(self)@ }),
    {
        self.rects.push(rect);
    }

    /// Adds a bin behind those already there.
    pub fn add_bin(&mut self, width: u32, height: u32)
        ensures
            final(self)@ == (PackerState {
                bins: old(self)@.bins.push(Bin { width, height }),
                ..old(self)@
            }),
    {
        self.bins.push(Bin { width, height });
    }

    /// Chooses the heuristic for the runs to come.
    pub fn set_pack_algo(&mut self, algo: PackAlgorithm)
        ensures
            final(self)@ == (PackerState { algorithm: algo, ..old(self)@ }),
    {
        self.algorithm = algo;
    }

    /// Allows the runs to come to turn items by 90 degrees.
    pub fn enable_rotation(&mut self)
        ensures
            final(self)@ == (PackerState { allow_rotation: true, ..old(self)@ }),
    {
        self.allow_rotation = true;
    }

    /// Forbids the runs to come to turn items.
    pub fn disable_rotation(&mut self)
        ensures
            final(self)@ == (PackerState { allow_rotation: false, ..old(self)@ }),
    {
        self.allow_rotation = false;
    }

    /// Packs the items into the bins, in the order of the bins: every bin
    /// is offered the items that the bins before it were offered and did
    /// not place, in the order in which they were added. The results of an
    /// earlier run are dropped.
    pub fn pack(&mut self)
        ensures
            final(self)@ == (PackerState {
                results: pack_results(
                    old(self)@.items,
                    old(self)@.bins,
                    old(self)@.algorithm,
                    old(self)@.allow_rotation,
                ),
                ..old(self)@
            }),
            in_bin_order(final(self)@.results),
            free_of_overlap(final(self)@.results),
            within_bins(final(self)@.results, final(self)@.bins),
            conserves(final(self)@.results, final(self)@.items),
            turned_only_if(final(self)@.results, final(self)@.allow_rotation),
            first_fits_first_bin(final(self)@.items, final(self)@.bins) ==> starts_in_first_bin(
                final(self)@.results,
                final(self)@.items,
            ),
    {
        let ghost items = self.rects@;
        let ghost bins = self.bins@;
        let ghost algorithm = self.algorithm;
        let ghost allow_rotate = self.allow_rotation;
        let mut packed: Vec<PackedRect> = Vec::new();
        let mut remaining_rects: Vec<Rectangle> = Vec::new();
        let mut n: usize = 0;
        while n < self.rects.len()
            invariant
                n <= self.rects.len(),
                self.rects@ == items,
                remaining_rects@ == items.take(n as int),
            decreases self.rects.len() - n,
        {
            remaining_rects.push(self.rects[n]);
            assert(remaining_rects@ =~= items.take(n + 1));
            n += 1;
        }
        assert(remaining_rects@ =~= pending_before(items, bins, algorithm, allow_rotate, 0));
        let mut bin_id: usize = 0;
        while bin_id < self.bins.len() && !remaining_rects.is_empty()
            invariant
                bin_id <= self.bins.len(),
                self.rects@ == items,
                self.bins@ == bins,
                self.algorithm == algorithm,
                self.allow_rotation == allow_rotate,
                packed@ == packed_upto(items, bins, algorithm, allow_rotate, bin_id as nat),
                remaining_rects@ == pending_before(items, bins, algorithm, allow_rotate, bin_id as nat),
            decreases self.bins.len() - bin_id,
        {
            let bin = self.bins[bin_id];
            let (placed, picks) = match self.algorithm {
                PackAlgorithm::BottomLeft => bottom_left_placement_with_picks(
                    remaining_rects.as_slice(),
                    bin.width,
                    bin.height,
                    self.allow_rotation,
                ),
                PackAlgorithm::MaxRects
                | PackAlgorithm::MaxRectsBssf
                | PackAlgorithm::MaxRectsBaf
                | PackAlgorithm::MaxRectsBlsf => maxrects_placement_with_picks(
                    remaining_rects.as_slice(),
                    bin.width,
                    bin.height,
                    self.allow_rotation,
                ),
                PackAlgorithm::Skyline | PackAlgorithm::SkylineBl => skyline_placement_with_picks(
                    remaining_rects.as_slice(),
                    bin.width,
                    bin.height,
                    self.allow_rotation,
                ),
                PackAlgorithm::Guillotine
                | PackAlgorithm::GuillotineBssfSas => guillotine_placement_with_picks(
                    remaining_rects.as_slice(),
                    bin.width,
                    bin.height,
                    self.allow_rotation,
                ),
            };
            let ghost before = packed@;
            assert(placed@ == placed_in(items, bins, algorithm, allow_rotate, bin_id as nat));
            assert(indices(picks@) == picks_in(items, bins, algorithm, allow_rotate, bin_id as nat));
            let mut j: usize = 0;
            while j < placed.len()
                invariant
                    j <= placed.len(),
                    packed@.len() == before.len() + j,
                    forall|i: int| 0 <= i < before.len() ==> packed@[i] == before[i],
                    forall|i: int|
                        0 <= i < j ==> packed@[before.len() + i] == packed_as(placed@[i], bin_id),
                decreases placed.len() - j,
            {
                let (item, pos, rotated) = placed[j];
                let (width, height) = if rotated {
                    (item.height, item.width)
                } else {
                    (item.width, item.height)
                };
                packed.push(PackedRect { x: pos.x, y: pos.y, width, height, rotated, bin_id });
                j += 1;
            }
            assert(packed@ =~= before + tagged(placed@, bin_id));
            proof {
                assert forall|k: int, l: int| 0 <= k < l < picks.len() implies picks[k] < picks[l] by {
                    assert(indices(picks@)[k] < indices(picks@)[l]);
                }
                lemma_left_over_of_items(
                    items,
                    pending_ids(items, bins, algorithm, allow_rotate, bin_id as nat),
                    indices(picks@),
                    remaining_rects.len() as nat,
                );
            }
            remaining_rects = leave_out(&remaining_rects, &picks);
            bin_id += 1;
        }
        proof {
            if bin_id < bins.len() {
                lemma_nothing_left(items, bins, algorithm, allow_rotate, bin_id as nat, bins.len());
            }
            lemma_pack_is_in_bin_order(items, bins, algorithm, allow_rotate);
            lemma_pack_is_free_of_overlap(items, bins, algorithm, allow_rotate);
            lemma_pack_is_within_bins(items, bins, algorithm, allow_rotate);
            lemma_pack_accounts_for_items(items, bins, algorithm, allow_rotate);
            lemma_pack_turns_only_if_allowed(items, bins, algorithm, allow_rotate);
            if first_fits_first_bin(items, bins) {
                lemma_pack_starts_in_first_bin(items, bins, algorithm, allow_rotate);
            }
        }
        self.packed_rects = packed;
    }

    /// What the last run packed, in the order of the bins and, within a
    /// bin, of the items.
    pub fn rect_list(&self) -> (list: &[PackedRect])
        ensures
            list@ == self@.results,
    {
        self.packed_rects.as_slice()
    }
}

impl Default for Packer {
    fn default() -> (packer: Self)
        ensures
            packer@ == (PackerState {
                items: Seq::empty(),
                bins: Seq::empty(),
                algorithm: PackAlgorithm::MaxRects,
                allow_rotation: false,
                results: Seq::empty(),
            }),
    {
        Self::new()
    }
}

} // verus!
