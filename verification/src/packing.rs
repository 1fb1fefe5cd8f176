//! What a run of the packer yields: the items that each bin is offered, the
//! layout of each bin, and the packed rectangles of all bins together, with
//! what holds of them. Items are told apart by their index among the items
//! given, so that items of equal extents are never mistaken for one another.

use vstd::prelude::*;
use crate::Rectangle;
use crate::bottom_left::{
    bottom_left_layout, bottom_left_picks, lemma_bottom_left_layout_is_sound,
    lemma_bottom_left_places_first_item,
};
use crate::geometry::{
    Placement, Region, first_fits, footprint, is_selection, orientation_allowed, sound_layout,
    starts_at_origin,
};
use crate::guillotine::{
    guillotine_layout, guillotine_picks, lemma_guillotine_layout_is_sound,
    lemma_guillotine_places_first_item,
};
use crate::maxrects::{
    lemma_maxrects_layout_is_sound, lemma_maxrects_places_first_item, maxrects_layout, maxrects_picks,
};
use crate::packer::{Bin, PackAlgorithm, PackedRect};
use crate::skyline::{
    lemma_skyline_layout_is_sound, lemma_skyline_places_first_item, skyline_layout, skyline_picks,
};

verus! {

/// The layout that the placer behind `algorithm` yields.
pub open spec fn layout_of(
    algorithm: PackAlgorithm,
    items: Seq<Rectangle>,
    bin_width: u32,
    bin_height: u32,
    allow_rotate: bool,
) -> Seq<Placement> {
    match algorithm {
        PackAlgorithm::BottomLeft => bottom_left_layout(items, bin_width, bin_height, allow_rotate),
        PackAlgorithm::MaxRects
        | PackAlgorithm::MaxRectsBssf
        | PackAlgorithm::MaxRectsBaf
        | PackAlgorithm::MaxRectsBlsf => maxrects_layout(items, bin_width, bin_height, allow_rotate),
        PackAlgorithm::Skyline | PackAlgorithm::SkylineBl => skyline_layout(
            items,
            bin_width,
            bin_height,
            allow_rotate,
        ),
        PackAlgorithm::Guillotine | PackAlgorithm::GuillotineBssfSas => guillotine_layout(
            items,
            bin_width,
            bin_height,
            allow_rotate,
        ),
    }
}

/// The items that the placer behind `algorithm` places, by their indices.
pub open spec fn picks_of(
    algorithm: PackAlgorithm,
    items: Seq<Rectangle>,
    bin_width: u32,
    bin_height: u32,
    allow_rotate: bool,
) -> Seq<int> {
    match algorithm {
        PackAlgorithm::BottomLeft => bottom_left_picks(items, bin_width, bin_height, allow_rotate),
        PackAlgorithm::MaxRects
        | PackAlgorithm::MaxRectsBssf
        | PackAlgorithm::MaxRectsBaf
        | PackAlgorithm::MaxRectsBlsf => maxrects_picks(items, bin_width, bin_height, allow_rotate),
        PackAlgorithm::Skyline | PackAlgorithm::SkylineBl => skyline_picks(
            items,
            bin_width,
            bin_height,
            allow_rotate,
        ),
        PackAlgorithm::Guillotine | PackAlgorithm::GuillotineBssfSas => guillotine_picks(
            items,
            bin_width,
            bin_height,
            allow_rotate,
        ),
    }
}

/// Whatever the heuristic, the layout that it yields is sound, and its
/// picks name the items that its records place.
pub proof fn lemma_layout_of_is_sound(
    algorithm: PackAlgorithm,
    items: Seq<Rectangle>,
    bin_width: u32,
    bin_height: u32,
    allow_rotate: bool,
)
    ensures
        sound_layout(
            layout_of(algorithm, items, bin_width, bin_height, allow_rotate),
            items,
            bin_width as int,
            bin_height as int,
            allow_rotate,
        ),
        is_selection(
            picks_of(algorithm, items, bin_width, bin_height, allow_rotate),
            items,
            layout_of(algorithm, items, bin_width, bin_height, allow_rotate),
            items.len() as int,
        ),
{
    lemma_bottom_left_layout_is_sound(items, bin_width, bin_height, allow_rotate);
    lemma_maxrects_layout_is_sound(items, bin_width, bin_height, allow_rotate);
    lemma_skyline_layout_is_sound(items, bin_width, bin_height, allow_rotate);
    lemma_guillotine_layout_is_sound(items, bin_width, bin_height, allow_rotate);
}

/// A placement record as a packed rectangle of bin `bin_id`.
pub open spec fn packed_as(p: Placement, bin_id: usize) -> PackedRect {
    PackedRect {
        x: p.1.x,
        y: p.1.y,
        width: if p.2 { p.0.height } else { p.0.width },
        height: if p.2 { p.0.width } else { p.0.height },
        rotated: p.2,
        bin_id,
    }
}

/// A layout as the packed rectangles of bin `bin_id`, in order.
pub open spec fn tagged(placed: Seq<Placement>, bin_id: usize) -> Seq<PackedRect> {
    Seq::new(placed.len(), |i: int| packed_as(placed[i], bin_id))
}

/// The first `upto` of the pending elements without those that were
/// picked, in their order.
pub open spec fn left_over<T>(pending: Seq<T>, picks: Seq<int>, upto: nat) -> Seq<T>
    decreases upto,
{
    if upto == 0 {
        Seq::empty()
    } else if picks.contains(upto - 1) {
        left_over(pending, picks, (upto - 1) as nat)
    } else {
        left_over(pending, picks, (upto - 1) as nat).push(pending[upto - 1])
    }
}

/// The items with the given indices.
pub open spec fn items_at(items: Seq<Rectangle>, ids: Seq<int>) -> Seq<Rectangle> {
    Seq::new(ids.len(), |j: int| items[ids[j]])
}

/// The items that bin `k` is offered, by their indices: all of them for the
/// first bin, and for any other those that the bin before it was offered
/// and did not place.
pub open spec fn pending_ids(
    items: Seq<Rectangle>,
    bins: Seq<Bin>,
    algorithm: PackAlgorithm,
    allow_rotate: bool,
    k: nat,
) -> Seq<int>
    decreases k, 0nat,
{
    if k == 0 {
        Seq::new(items.len(), |i: int| i)
    } else {
        let before = pending_ids(items, bins, algorithm, allow_rotate, (k - 1) as nat);
        left_over(before, picks_in(items, bins, algorithm, allow_rotate, (k - 1) as nat), before.len())
    }
}

/// The items that bin `k` is offered.
pub open spec fn pending_before(
    items: Seq<Rectangle>,
    bins: Seq<Bin>,
    algorithm: PackAlgorithm,
    allow_rotate: bool,
    k: nat,
) -> Seq<Rectangle>
    decreases k, 1nat,
{
    items_at(items, pending_ids(items, bins, algorithm, allow_rotate, k))
}

/// The layout of bin `k`: what the chosen placer makes of the items that
/// the bin is offered.
pub open spec fn placed_in(
    items: Seq<Rectangle>,
    bins: Seq<Bin>,
    algorithm: PackAlgorithm,
    allow_rotate: bool,
    k: nat,
) -> Seq<Placement>
    decreases k, 2nat,
{
    layout_of(
        algorithm,
        pending_before(items, bins, algorithm, allow_rotate, k),
        bins[k as int].width,
        bins[k as int].height,
        allow_rotate,
    )
}

/// Which of the items that bin `k` is offered it places, by their place
/// among those items.
pub open spec fn picks_in(
    items: Seq<Rectangle>,
    bins: Seq<Bin>,
    algorithm: PackAlgorithm,
    allow_rotate: bool,
    k: nat,
) -> Seq<int>
    decreases k, 2nat,
{
    picks_of(
        algorithm,
        pending_before(items, bins, algorithm, allow_rotate, k),
        bins[k as int].width,
        bins[k as int].height,
        allow_rotate,
    )
}

/// The items that bin `k` places, by their indices among the items given.
pub open spec fn sources_in(
    items: Seq<Rectangle>,
    bins: Seq<Bin>,
    algorithm: PackAlgorithm,
    allow_rotate: bool,
    k: nat,
) -> Seq<int> {
    let ids = pending_ids(items, bins, algorithm, allow_rotate, k);
    let picks = picks_in(items, bins, algorithm, allow_rotate, k);
    Seq::new(picks.len(), |j: int| ids[picks[j]])
}

/// The packed rectangles of the first `k` bins, bin after bin.
pub open spec fn packed_upto(
    items: Seq<Rectangle>,
    bins: Seq<Bin>,
    algorithm: PackAlgorithm,
    allow_rotate: bool,
    k: nat,
) -> Seq<PackedRect>
    decreases k,
{
    if k == 0 {
        Seq::empty()
    } else {
        packed_upto(items, bins, algorithm, allow_rotate, (k - 1) as nat) + tagged(
            placed_in(items, bins, algorithm, allow_rotate, (k - 1) as nat),
            (k - 1) as usize,
        )
    }
}

/// The items that the packed rectangles of the first `k` bins place, by
/// their indices among the items given: one for each packed rectangle.
pub open spec fn sources_upto(
    items: Seq<Rectangle>,
    bins: Seq<Bin>,
    algorithm: PackAlgorithm,
    allow_rotate: bool,
    k: nat,
) -> Seq<int>
    decreases k,
{
    if k == 0 {
        Seq::empty()
    } else {
        sources_upto(items, bins, algorithm, allow_rotate, (k - 1) as nat) + sources_in(
            items,
            bins,
            algorithm,
            allow_rotate,
            (k - 1) as nat,
        )
    }
}

/// The packed rectangles of a whole run over the bins.
pub open spec fn pack_results(
    items: Seq<Rectangle>,
    bins: Seq<Bin>,
    algorithm: PackAlgorithm,
    allow_rotate: bool,
) -> Seq<PackedRect> {
    packed_upto(items, bins, algorithm, allow_rotate, bins.len())
}

/// The items that the packed rectangles of a whole run place, by their
/// indices among the items given.
pub open spec fn pack_sources(
    items: Seq<Rectangle>,
    bins: Seq<Bin>,
    algorithm: PackAlgorithm,
    allow_rotate: bool,
) -> Seq<int> {
    sources_upto(items, bins, algorithm, allow_rotate, bins.len())
}

/// The region that a packed rectangle occupies in its bin.
pub open spec fn region_of_packed(r: PackedRect) -> Region {
    Region { x: r.x as int, y: r.y as int, width: r.width as int, height: r.height as int }
}

/// The item that a packed rectangle places, as it was given.
pub open spec fn source_of(r: PackedRect) -> Rectangle {
    if r.rotated {
        Rectangle { width: r.height, height: r.width }
    } else {
        Rectangle { width: r.width, height: r.height }
    }
}

/// The packed rectangles come bin after bin.
pub open spec fn in_bin_order(results: Seq<PackedRect>) -> bool {
    forall|i: int, j: int|
        #![trigger results[i], results[j]]
        0 <= i < j < results.len() ==> results[i].bin_id <= results[j].bin_id
}

/// No two packed rectangles of one bin overlap.
pub open spec fn free_of_overlap(results: Seq<PackedRect>) -> bool {
    forall|i: int, j: int|
        #![trigger results[i], results[j]]
        0 <= i < j < results.len() && results[i].bin_id == results[j].bin_id ==> !region_of_packed(
            results[i],
        ).overlaps(region_of_packed(results[j]))
}

/// Every packed rectangle names one of the bins, covers some area and lies
/// within its bin.
pub open spec fn within_bins(results: Seq<PackedRect>, bins: Seq<Bin>) -> bool {
    forall|i: int|
        0 <= i < results.len() ==> {
            let r = #[trigger] results[i];
            &&& r.bin_id < bins.len()
            &&& r.width > 0
            &&& r.height > 0
            &&& r.x + r.width <= bins[r.bin_id as int].width
            &&& r.y + r.height <= bins[r.bin_id as int].height
        }
}

/// No packed rectangle is turned unless turning is allowed.
pub open spec fn turned_only_if(results: Seq<PackedRect>, allow_rotate: bool) -> bool {
    forall|i: int| 0 <= i < results.len() ==> ((#[trigger] results[i]).rotated ==> allow_rotate)
}

/// `sources` names, for each packed rectangle, the item that it places:
/// the extents match, turned where the rectangle is, and no item is named
/// twice.
pub open spec fn accounts_for(results: Seq<PackedRect>, sources: Seq<int>, items: Seq<Rectangle>) -> bool {
    &&& sources.len() == results.len()
    &&& forall|i: int|
        0 <= i < sources.len() ==> 0 <= #[trigger] sources[i] < items.len() && source_of(results[i])
            == items[sources[i]]
    &&& forall|i: int, j: int|
        #![trigger sources[i], sources[j]]
        0 <= i < j < sources.len() ==> sources[i] != sources[j]
}

/// Every packed rectangle places one of the items, and none of the items is
/// placed twice.
pub open spec fn conserves(results: Seq<PackedRect>, items: Seq<Rectangle>) -> bool {
    exists|sources: Seq<int>| accounts_for(results, sources, items)
}

/// The indices go up and are indices of the items.
pub open spec fn ascending(ids: Seq<int>, count: int) -> bool {
    &&& forall|j: int| 0 <= j < ids.len() ==> 0 <= #[trigger] ids[j] < count
    &&& forall|i: int, j: int| 0 <= i < j < ids.len() ==> ids[i] < ids[j]
}

/// `e` is one of the first `upto` pending elements that was not picked.
pub open spec fn is_left(pending: Seq<int>, picks: Seq<int>, upto: int, e: int) -> bool {
    exists|j: int| 0 <= j < upto && !picks.contains(j) && #[trigger] pending[j] == e
}

/// Leaving out what was picked commutes with looking the items up.
pub proof fn lemma_left_over_of_items(items: Seq<Rectangle>, ids: Seq<int>, picks: Seq<int>, upto: nat)
    requires
        upto <= ids.len(),
    ensures
        left_over(items_at(items, ids), picks, upto) == items_at(items, left_over(ids, picks, upto)),
    decreases upto,
{
    if upto > 0 {
        lemma_left_over_of_items(items, ids, picks, (upto - 1) as nat);
    }
    assert(left_over(items_at(items, ids), picks, upto) =~= items_at(
        items,
        left_over(ids, picks, upto),
    ));
}

/// What is left of ascending indices ascends, and every index left is one
/// that was pending and not picked.
pub proof fn lemma_left_over_ascends(pending: Seq<int>, picks: Seq<int>, upto: nat, count: int)
    requires
        ascending(pending, count),
        upto <= pending.len(),
    ensures
        ascending(left_over(pending, picks, upto), count),
        left_over(pending, picks, upto).len() <= upto,
        forall|i: int|
            0 <= i < left_over(pending, picks, upto).len() ==> is_left(
                pending,
                picks,
                upto as int,
                #[trigger] left_over(pending, picks, upto)[i],
            ),
    decreases upto,
{
    if upto > 0 {
        let fewer = (upto - 1) as nat;
        let before = left_over(pending, picks, fewer);
        let now = left_over(pending, picks, upto);
        lemma_left_over_ascends(pending, picks, fewer, count);
        assert forall|i: int| 0 <= i < now.len() implies is_left(
            pending,
            picks,
            upto as int,
            #[trigger] now[i],
        ) by {
            if i < before.len() {
                assert(is_left(pending, picks, fewer as int, before[i]));
                let j = choose|j: int|
                    0 <= j < fewer && !picks.contains(j) && #[trigger] pending[j] == before[i];
                assert(pending[j] == now[i]);
            } else {
                assert(pending[upto - 1] == now[i]);
            }
        }
        assert forall|i: int, j: int| 0 <= i < j < now.len() implies now[i] < now[j] by {
            if j == before.len() {
                assert(is_left(pending, picks, fewer as int, before[i]));
            }
        }
    }
}

/// The items that a bin is offered are named by ascending indices.
pub proof fn lemma_pending_ids_ascend(
    items: Seq<Rectangle>,
    bins: Seq<Bin>,
    algorithm: PackAlgorithm,
    allow_rotate: bool,
    k: nat,
)
    ensures
        ascending(pending_ids(items, bins, algorithm, allow_rotate, k), items.len() as int),
    decreases k,
{
    if k > 0 {
        let before = pending_ids(items, bins, algorithm, allow_rotate, (k - 1) as nat);
        lemma_pending_ids_ascend(items, bins, algorithm, allow_rotate, (k - 1) as nat);
        lemma_left_over_ascends(
            before,
            picks_in(items, bins, algorithm, allow_rotate, (k - 1) as nat),
            before.len(),
            items.len() as int,
        );
    }
}

/// What a later bin is offered, an earlier bin was offered too.
pub proof fn lemma_pending_narrows(
    items: Seq<Rectangle>,
    bins: Seq<Bin>,
    algorithm: PackAlgorithm,
    allow_rotate: bool,
    k: nat,
    n: nat,
    id: int,
)
    requires
        k <= n,
        pending_ids(items, bins, algorithm, allow_rotate, n).contains(id),
    ensures
        pending_ids(items, bins, algorithm, allow_rotate, k).contains(id),
    decreases n - k,
{
    if k < n {
        let m = (n - 1) as nat;
        let before = pending_ids(items, bins, algorithm, allow_rotate, m);
        let picks = picks_in(items, bins, algorithm, allow_rotate, m);
        let now = pending_ids(items, bins, algorithm, allow_rotate, n);
        lemma_pending_ids_ascend(items, bins, algorithm, allow_rotate, m);
        lemma_left_over_ascends(before, picks, before.len(), items.len() as int);
        let i = choose|i: int| 0 <= i < now.len() && now[i] == id;
        assert(is_left(before, picks, before.len() as int, now[i]));
        lemma_pending_narrows(items, bins, algorithm, allow_rotate, k, m, id);
    }
}

/// Once nothing is pending, no later bin receives anything.
pub proof fn lemma_nothing_left(
    items: Seq<Rectangle>,
    bins: Seq<Bin>,
    algorithm: PackAlgorithm,
    allow_rotate: bool,
    k: nat,
    n: nat,
)
    requires
        k <= n <= bins.len(),
        pending_ids(items, bins, algorithm, allow_rotate, k).len() == 0,
    ensures
        pending_ids(items, bins, algorithm, allow_rotate, n).len() == 0,
        packed_upto(items, bins, algorithm, allow_rotate, n) == packed_upto(
            items,
            bins,
            algorithm,
            allow_rotate,
            k,
        ),
        sources_upto(items, bins, algorithm, allow_rotate, n) == sources_upto(
            items,
            bins,
            algorithm,
            allow_rotate,
            k,
        ),
    decreases n - k,
{
    if k < n {
        let m = (n - 1) as nat;
        lemma_nothing_left(items, bins, algorithm, allow_rotate, k, m);
        let pending = pending_before(items, bins, algorithm, allow_rotate, m);
        let placed = placed_in(items, bins, algorithm, allow_rotate, m);
        let picks = picks_in(items, bins, algorithm, allow_rotate, m);
        lemma_layout_of_is_sound(
            algorithm,
            pending,
            bins[m as int].width,
            bins[m as int].height,
            allow_rotate,
        );
        if picks.len() > 0 {
            assert(0 <= picks[0] < 0);
        }
        assert(packed_upto(items, bins, algorithm, allow_rotate, n) =~= packed_upto(
            items,
            bins,
            algorithm,
            allow_rotate,
            m,
        ));
        assert(sources_upto(items, bins, algorithm, allow_rotate, n) =~= sources_upto(
            items,
            bins,
            algorithm,
            allow_rotate,
            m,
        ));
    }
}

/// The packed rectangles of more bins are no fewer.
pub proof fn lemma_packed_grows(
    items: Seq<Rectangle>,
    bins: Seq<Bin>,
    algorithm: PackAlgorithm,
    allow_rotate: bool,
    k: nat,
    n: nat,
)
    requires
        k <= n,
    ensures
        packed_upto(items, bins, algorithm, allow_rotate, k).len() <= packed_upto(
            items,
            bins,
            algorithm,
            allow_rotate,
            n,
        ).len(),
    decreases n - k,
{
    if k < n {
        lemma_packed_grows(items, bins, algorithm, allow_rotate, k, (n - 1) as nat);
    }
}

/// The bin that holds the packed rectangle at index `i`: the rectangle is
/// the record of that bin's layout that its distance from the start of the
/// bin's rectangles names, and its source is the item that the record
/// places.
pub proof fn lemma_locate(
    items: Seq<Rectangle>,
    bins: Seq<Bin>,
    algorithm: PackAlgorithm,
    allow_rotate: bool,
    k: nat,
    i: int,
) -> (b: nat)
    requires
        0 <= i < packed_upto(items, bins, algorithm, allow_rotate, k).len(),
    ensures
        b < k,
        sources_upto(items, bins, algorithm, allow_rotate, k).len() == packed_upto(
            items,
            bins,
            algorithm,
            allow_rotate,
            k,
        ).len(),
        packed_upto(items, bins, algorithm, allow_rotate, b).len() <= i,
        i - packed_upto(items, bins, algorithm, allow_rotate, b).len() < placed_in(
            items,
            bins,
            algorithm,
            allow_rotate,
            b,
        ).len(),
        placed_in(items, bins, algorithm, allow_rotate, b).len() == sources_in(
            items,
            bins,
            algorithm,
            allow_rotate,
            b,
        ).len(),
        packed_upto(items, bins, algorithm, allow_rotate, k)[i] == packed_as(
            placed_in(items, bins, algorithm, allow_rotate, b)[i - packed_upto(
                items,
                bins,
                algorithm,
                allow_rotate,
                b,
            ).len()],
            b as usize,
        ),
        sources_upto(items, bins, algorithm, allow_rotate, k)[i] == sources_in(
            items,
            bins,
            algorithm,
            allow_rotate,
            b,
        )[i - packed_upto(items, bins, algorithm, allow_rotate, b).len()],
    decreases k,
{
    let m = (k - 1) as nat;
    let before = packed_upto(items, bins, algorithm, allow_rotate, m);
    lemma_sources_match(items, bins, algorithm, allow_rotate, m);
    lemma_sources_match(items, bins, algorithm, allow_rotate, k);
    lemma_layout_of_is_sound(
        algorithm,
        pending_before(items, bins, algorithm, allow_rotate, m),
        bins[m as int].width,
        bins[m as int].height,
        allow_rotate,
    );
    if i < before.len() {
        lemma_locate(items, bins, algorithm, allow_rotate, m, i)
    } else {
        m
    }
}

/// There is one source for each packed rectangle.
pub proof fn lemma_sources_match(
    items: Seq<Rectangle>,
    bins: Seq<Bin>,
    algorithm: PackAlgorithm,
    allow_rotate: bool,
    k: nat,
)
    ensures
        sources_upto(items, bins, algorithm, allow_rotate, k).len() == packed_upto(
            items,
            bins,
            algorithm,
            allow_rotate,
            k,
        ).len(),
    decreases k,
{
    if k > 0 {
        let m = (k - 1) as nat;
        lemma_sources_match(items, bins, algorithm, allow_rotate, m);
        lemma_layout_of_is_sound(
            algorithm,
            pending_before(items, bins, algorithm, allow_rotate, m),
            bins[m as int].width,
            bins[m as int].height,
            allow_rotate,
        );
    }
}

/// The packed rectangles of a run come bin after bin.
pub proof fn lemma_pack_is_in_bin_order(
    items: Seq<Rectangle>,
    bins: Seq<Bin>,
    algorithm: PackAlgorithm,
    allow_rotate: bool,
)
    requires
        bins.len() <= usize::MAX,
    ensures
        in_bin_order(pack_results(items, bins, algorithm, allow_rotate)),
{
    let results = pack_results(items, bins, algorithm, allow_rotate);
    assert forall|i: int, j: int| 0 <= i < j < results.len() implies (#[trigger] results[i]).bin_id
        <= (#[trigger] results[j]).bin_id by {
        let bi = lemma_locate(items, bins, algorithm, allow_rotate, bins.len(), i);
        let bj = lemma_locate(items, bins, algorithm, allow_rotate, bins.len(), j);
        if bj < bi {
            lemma_packed_grows(items, bins, algorithm, allow_rotate, bj + 1, bi);
        }
    }
}

/// No two packed rectangles that a run puts into one bin overlap.
pub proof fn lemma_pack_is_free_of_overlap(
    items: Seq<Rectangle>,
    bins: Seq<Bin>,
    algorithm: PackAlgorithm,
    allow_rotate: bool,
)
    requires
        bins.len() <= usize::MAX,
    ensures
        free_of_overlap(pack_results(items, bins, algorithm, allow_rotate)),
{
    let results = pack_results(items, bins, algorithm, allow_rotate);
    assert forall|i: int, j: int|
        0 <= i < j < results.len() && (#[trigger] results[i]).bin_id == (
        #[trigger] results[j]).bin_id implies !region_of_packed(results[i]).overlaps(
        region_of_packed(results[j]),
    ) by {
        let bi = lemma_locate(items, bins, algorithm, allow_rotate, bins.len(), i);
        let bj = lemma_locate(items, bins, algorithm, allow_rotate, bins.len(), j);
        assert(bi == bj);
        let start = packed_upto(items, bins, algorithm, allow_rotate, bi).len();
        let placed = placed_in(items, bins, algorithm, allow_rotate, bi);
        lemma_layout_of_is_sound(
            algorithm,
            pending_before(items, bins, algorithm, allow_rotate, bi),
            bins[bi as int].width,
            bins[bi as int].height,
            allow_rotate,
        );
        assert(!footprint(placed[i - start]).overlaps(footprint(placed[j - start])));
    }
}

/// Every packed rectangle of a run lies within the bin that it names.
pub proof fn lemma_pack_is_within_bins(
    items: Seq<Rectangle>,
    bins: Seq<Bin>,
    algorithm: PackAlgorithm,
    allow_rotate: bool,
)
    requires
        bins.len() <= usize::MAX,
    ensures
        within_bins(pack_results(items, bins, algorithm, allow_rotate), bins),
{
    let results = pack_results(items, bins, algorithm, allow_rotate);
    assert forall|i: int| 0 <= i < results.len() implies {
        let r = #[trigger] results[i];
        &&& r.bin_id < bins.len()
        &&& r.width > 0
        &&& r.height > 0
        &&& r.x + r.width <= bins[r.bin_id as int].width
        &&& r.y + r.height <= bins[r.bin_id as int].height
    } by {
        let b = lemma_locate(items, bins, algorithm, allow_rotate, bins.len(), i);
        let start = packed_upto(items, bins, algorithm, allow_rotate, b).len();
        let placed = placed_in(items, bins, algorithm, allow_rotate, b);
        lemma_layout_of_is_sound(
            algorithm,
            pending_before(items, bins, algorithm, allow_rotate, b),
            bins[b as int].width,
            bins[b as int].height,
            allow_rotate,
        );
        assert(footprint(placed[i - start]).within_bin(
            bins[b as int].width as int,
            bins[b as int].height as int,
        ));
    }
}

/// With rotation off, a run turns no item.
pub proof fn lemma_pack_turns_only_if_allowed(
    items: Seq<Rectangle>,
    bins: Seq<Bin>,
    algorithm: PackAlgorithm,
    allow_rotate: bool,
)
    ensures
        turned_only_if(pack_results(items, bins, algorithm, allow_rotate), allow_rotate),
{
    let results = pack_results(items, bins, algorithm, allow_rotate);
    assert forall|i: int| 0 <= i < results.len() && (#[trigger] results[i]).rotated implies allow_rotate by {
        let b = lemma_locate(items, bins, algorithm, allow_rotate, bins.len(), i);
        let start = packed_upto(items, bins, algorithm, allow_rotate, b).len();
        let placed = placed_in(items, bins, algorithm, allow_rotate, b);
        lemma_layout_of_is_sound(
            algorithm,
            pending_before(items, bins, algorithm, allow_rotate, b),
            bins[b as int].width,
            bins[b as int].height,
            allow_rotate,
        );
        assert(orientation_allowed(placed[i - start].0, placed[i - start].2, allow_rotate));
    }
}

/// A bin receives only items that every bin before it was offered and did
/// not place.
pub proof fn lemma_bin_receives_what_is_left(
    items: Seq<Rectangle>,
    bins: Seq<Bin>,
    algorithm: PackAlgorithm,
    allow_rotate: bool,
    earlier: nat,
    later: nat,
    j: int,
)
    requires
        earlier < later < bins.len(),
        0 <= j < sources_in(items, bins, algorithm, allow_rotate, later).len(),
    ensures
        pending_ids(items, bins, algorithm, allow_rotate, earlier).contains(
            sources_in(items, bins, algorithm, allow_rotate, later)[j],
        ),
        !sources_in(items, bins, algorithm, allow_rotate, earlier).contains(
            sources_in(items, bins, algorithm, allow_rotate, later)[j],
        ),
{
    let id = sources_in(items, bins, algorithm, allow_rotate, later)[j];
    let offered = pending_ids(items, bins, algorithm, allow_rotate, earlier);
    let picks = picks_in(items, bins, algorithm, allow_rotate, earlier);
    let next = pending_ids(items, bins, algorithm, allow_rotate, earlier + 1);
    let placed = sources_in(items, bins, algorithm, allow_rotate, earlier);
    lemma_layout_of_is_sound(
        algorithm,
        pending_before(items, bins, algorithm, allow_rotate, later),
        bins[later as int].width,
        bins[later as int].height,
        allow_rotate,
    );
    lemma_layout_of_is_sound(
        algorithm,
        pending_before(items, bins, algorithm, allow_rotate, earlier),
        bins[earlier as int].width,
        bins[earlier as int].height,
        allow_rotate,
    );
    let at = picks_in(items, bins, algorithm, allow_rotate, later)[j];
    assert(pending_ids(items, bins, algorithm, allow_rotate, later)[at] == id);
    lemma_pending_narrows(items, bins, algorithm, allow_rotate, earlier + 1, later, id);
    lemma_pending_narrows(items, bins, algorithm, allow_rotate, earlier, later, id);
    lemma_pending_ids_ascend(items, bins, algorithm, allow_rotate, earlier);
    lemma_left_over_ascends(offered, picks, offered.len(), items.len() as int);
    let i = choose|i: int| 0 <= i < next.len() && next[i] == id;
    assert(is_left(offered, picks, offered.len() as int, next[i]));
    let m = choose|m: int| 0 <= m < offered.len() && !picks.contains(m) && #[trigger] offered[m] == id;
    if placed.contains(id) {
        let l = choose|l: int| 0 <= l < placed.len() && placed[l] == id;
        assert(offered[picks[l]] == offered[m]);
        if picks[l] < m {
            assert(offered[picks[l]] < offered[m]);
        } else if m < picks[l] {
            assert(offered[m] < offered[picks[l]]);
        }
        assert(picks[l] == m);
    }
}

/// Every packed rectangle of a run places the item that its source names,
/// and no two of them place the same item.
pub proof fn lemma_pack_accounts_for_items(
    items: Seq<Rectangle>,
    bins: Seq<Bin>,
    algorithm: PackAlgorithm,
    allow_rotate: bool,
)
    requires
        bins.len() <= usize::MAX,
    ensures
        accounts_for(
            pack_results(items, bins, algorithm, allow_rotate),
            pack_sources(items, bins, algorithm, allow_rotate),
            items,
        ),
        conserves(pack_results(items, bins, algorithm, allow_rotate), items),
{
    let results = pack_results(items, bins, algorithm, allow_rotate);
    let sources = pack_sources(items, bins, algorithm, allow_rotate);
    lemma_sources_match(items, bins, algorithm, allow_rotate, bins.len());
    assert forall|i: int| 0 <= i < sources.len() implies 0 <= #[trigger] sources[i] < items.len()
        && source_of(results[i]) == items[sources[i]] by {
        let b = lemma_locate(items, bins, algorithm, allow_rotate, bins.len(), i);
        let j = i - packed_upto(items, bins, algorithm, allow_rotate, b).len();
        let pending = pending_before(items, bins, algorithm, allow_rotate, b);
        lemma_layout_of_is_sound(
            algorithm,
            pending,
            bins[b as int].width,
            bins[b as int].height,
            allow_rotate,
        );
        lemma_pending_ids_ascend(items, bins, algorithm, allow_rotate, b);
        let picks = picks_in(items, bins, algorithm, allow_rotate, b);
        let placed = placed_in(items, bins, algorithm, allow_rotate, b);
        assert(placed[j].0 == pending[picks[j]]);
        assert(source_of(packed_as(placed[j], b as usize)) == placed[j].0);
    }
    assert forall|i: int, j: int| 0 <= i < j < sources.len() implies #[trigger] sources[i]
        != #[trigger] sources[j] by {
        let bi = lemma_locate(items, bins, algorithm, allow_rotate, bins.len(), i);
        let bj = lemma_locate(items, bins, algorithm, allow_rotate, bins.len(), j);
        let ji = i - packed_upto(items, bins, algorithm, allow_rotate, bi).len();
        let jj = j - packed_upto(items, bins, algorithm, allow_rotate, bj).len();
        if bi == bj {
            lemma_layout_of_is_sound(
                algorithm,
                pending_before(items, bins, algorithm, allow_rotate, bi),
                bins[bi as int].width,
                bins[bi as int].height,
                allow_rotate,
            );
            lemma_pending_ids_ascend(items, bins, algorithm, allow_rotate, bi);
            let picks = picks_in(items, bins, algorithm, allow_rotate, bi);
            assert(picks[ji] < picks[jj]);
        } else if bi < bj {
            lemma_bin_receives_what_is_left(items, bins, algorithm, allow_rotate, bi, bj, jj);
            assert(sources_in(items, bins, algorithm, allow_rotate, bi)[ji] == sources[i]);
        } else {
            lemma_bin_receives_what_is_left(items, bins, algorithm, allow_rotate, bj, bi, ji);
            assert(sources_in(items, bins, algorithm, allow_rotate, bj)[jj] == sources[j]);
        }
    }
    assert(accounts_for(results, sources, items));
}

/// Whatever the heuristic, where the first item fits the bin as it is
/// given, the layout starts with that item, upright at the bin's origin.
pub proof fn lemma_layout_of_places_first_item(
    algorithm: PackAlgorithm,
    items: Seq<Rectangle>,
    bin_width: u32,
    bin_height: u32,
    allow_rotate: bool,
)
    requires
        first_fits(items, bin_width as int, bin_height as int),
    ensures
        starts_at_origin(layout_of(algorithm, items, bin_width, bin_height, allow_rotate), items),
{
    lemma_bottom_left_places_first_item(items, bin_width, bin_height, allow_rotate);
    lemma_maxrects_places_first_item(items, bin_width, bin_height, allow_rotate);
    lemma_skyline_places_first_item(items, bin_width, bin_height, allow_rotate);
    lemma_guillotine_places_first_item(items, bin_width, bin_height, allow_rotate);
}

/// The first bin is there, and the first item covers some area and fits it
/// as it is given.
pub open spec fn first_fits_first_bin(items: Seq<Rectangle>, bins: Seq<Bin>) -> bool {
    bins.len() > 0 && first_fits(items, bins[0].width as int, bins[0].height as int)
}

/// The packed rectangles start with the first item, upright at the origin
/// of the first bin.
pub open spec fn starts_in_first_bin(results: Seq<PackedRect>, items: Seq<Rectangle>) -> bool {
    results.len() > 0 && results[0] == (PackedRect {
        x: 0,
        y: 0,
        width: items[0].width,
        height: items[0].height,
        rotated: false,
        bin_id: 0,
    })
}

/// Where the first item fits the first bin as it is given, the packed
/// rectangles of the first bins start with it, upright at the origin of the
/// first bin.
pub proof fn lemma_packed_upto_starts_in_first_bin(
    items: Seq<Rectangle>,
    bins: Seq<Bin>,
    algorithm: PackAlgorithm,
    allow_rotate: bool,
    k: nat,
)
    requires
        first_fits_first_bin(items, bins),
        1 <= k,
    ensures
        starts_in_first_bin(packed_upto(items, bins, algorithm, allow_rotate, k), items),
    decreases k,
{
    if k == 1 {
        assert(pending_before(items, bins, algorithm, allow_rotate, 0) =~= items);
        lemma_layout_of_places_first_item(
            algorithm,
            items,
            bins[0].width,
            bins[0].height,
            allow_rotate,
        );
        assert(packed_upto(items, bins, algorithm, allow_rotate, 0).len() == 0);
    } else {
        lemma_packed_upto_starts_in_first_bin(items, bins, algorithm, allow_rotate, (k - 1) as nat);
    }
}

/// Where the first item fits the first bin as it is given, the packed
/// rectangles of a run start with it, upright at the origin of the first
/// bin.
pub proof fn lemma_pack_starts_in_first_bin(
    items: Seq<Rectangle>,
    bins: Seq<Bin>,
    algorithm: PackAlgorithm,
    allow_rotate: bool,
)
    requires
        first_fits_first_bin(items, bins),
    ensures
        starts_in_first_bin(pack_results(items, bins, algorithm, allow_rotate), items),
{
    lemma_packed_upto_starts_in_first_bin(items, bins, algorithm, allow_rotate, bins.len());
}

} // verus!
