//! The Skyline heuristic: the upper profile of what has been placed is kept
//! as a run of level segments, and every item goes on top of the run of
//! segments that leaves it lowest.

use vstd::prelude::*;
use crate::{Position, Rectangle};
use crate::geometry::{
    Fit, Placement, Region, first_fits, footprint, indices, is_selection, lemma_sound_push,
    orientation_allowed, oriented_height, oriented_width, placeable, sound_layout, sound_prefix,
    starts_at_origin, tried_before,
};

verus! {

/// A level segment of the skyline: it starts at `x`, is `width` wide and
/// lies at height `y`.
#[derive(Debug, Clone, Copy, PartialEq, Eq, Structural)]
pub struct SkylineNode {
    pub x: u32,
    pub y: u32,
    pub width: u32,
}

impl SkylineNode {
    /// Where the segment ends.
    pub open spec fn end(self) -> int {
        self.x + self.width
    }
}

/// The height at which a footprint `w` wide comes to rest when its left edge
/// is at the start of segment `start`: the highest of the segments that it
/// takes to cover `w`. There is none if the skyline ends before `w` is
/// covered.
pub open spec fn resting_height(skyline: Seq<SkylineNode>, start: int, w: int) -> Option<int>
    decreases skyline.len() - start,
{
    if start < 0 || start >= skyline.len() {
        None
    } else if skyline[start].width >= w {
        Some(skyline[start].y as int)
    } else {
        raise_to(skyline[start].y as int, resting_height(skyline, start + 1, w - skyline[start].width))
    }
}

/// The height, if there is one, raised to `floor` where it is below it.
pub open spec fn raise_to(floor: int, height: Option<int>) -> Option<int> {
    match height {
        Some(y) => Some(if y > floor { y } else { floor }),
        None => None,
    }
}

/// The height at which the item rests if it is placed as `c` says.
pub open spec fn perch_height(skyline: Seq<SkylineNode>, item: Rectangle, c: Fit) -> int {
    resting_height(skyline, c.index as int, oriented_width(item, c.rotated))->0
}

/// The item, in the orientation of `c`, is tried, comes to rest with its
/// left edge at the start of the segment that `c` names, and does not reach
/// over the top of the bin there.
pub open spec fn perches(
    skyline: Seq<SkylineNode>,
    bin_height: int,
    item: Rectangle,
    allow_rotate: bool,
    c: Fit,
) -> bool {
    &&& placeable(item)
    &&& orientation_allowed(item, c.rotated, allow_rotate)
    &&& c.index < skyline.len()
    &&& resting_height(skyline, c.index as int, oriented_width(item, c.rotated)) is Some
    &&& perch_height(skyline, item, c) + oriented_height(item, c.rotated) <= bin_height
}

/// `c` is chosen over `d`: it rests lower, or as low and further left, or at
/// the same point and is tried no later.
pub open spec fn lower_perch(skyline: Seq<SkylineNode>, item: Rectangle, c: Fit, d: Fit) -> bool {
    let yc = perch_height(skyline, item, c);
    let yd = perch_height(skyline, item, d);
    let xc = skyline[c.index as int].x;
    let xd = skyline[d.index as int].x;
    yc < yd || (yc == yd && (xc < xd || (xc == xd && (c == d || tried_before(c, d)))))
}

pub open spec fn is_best_perch(
    skyline: Seq<SkylineNode>,
    bin_height: int,
    item: Rectangle,
    allow_rotate: bool,
    c: Fit,
) -> bool {
    &&& perches(skyline, bin_height, item, allow_rotate, c)
    &&& forall|d: Fit| #[trigger]
        perches(skyline, bin_height, item, allow_rotate, d) ==> lower_perch(skyline, item, c, d)
}

/// The lowest, then leftmost, way to rest the item on the skyline, the first
/// one tried among equals, if there is any.
pub open spec fn best_perch(
    skyline: Seq<SkylineNode>,
    bin_height: int,
    item: Rectangle,
    allow_rotate: bool,
) -> Option<Fit> {
    if exists|c: Fit| is_best_perch(skyline, bin_height, item, allow_rotate, c) {
        Some(choose|c: Fit| is_best_perch(skyline, bin_height, item, allow_rotate, c))
    } else {
        None
    }
}

/// There is at most one best perch, so finding one settles `best_perch`.
pub proof fn lemma_best_perch_is_unique(
    skyline: Seq<SkylineNode>,
    bin_height: int,
    item: Rectangle,
    allow_rotate: bool,
    c: Fit,
)
    requires
        is_best_perch(skyline, bin_height, item, allow_rotate, c),
    ensures
        best_perch(skyline, bin_height, item, allow_rotate) == Some(c),
{
    let d = choose|d: Fit| is_best_perch(skyline, bin_height, item, allow_rotate, d);
    assert(lower_perch(skyline, item, c, d) && lower_perch(skyline, item, d, c));
}

/// The segment at `at` with what lies left of `edge` cut off.
pub open spec fn shortened(node: SkylineNode, edge: int) -> SkylineNode {
    SkylineNode { x: edge as u32, y: node.y, width: (node.end() - edge) as u32 }
}

/// Clears the skyline up to `edge`, from index `at` on: a segment that ends
/// at or before `edge` is dropped, and the first one that reaches beyond it
/// is shortened to start there.
pub open spec fn trimmed(skyline: Seq<SkylineNode>, at: int, edge: int) -> Seq<SkylineNode>
    decreases skyline.len() - at,
{
    if at < 0 || at >= skyline.len() || skyline[at].x >= edge {
        skyline
    } else if skyline[at].end() > edge {
        skyline.update(at, shortened(skyline[at], edge))
    } else {
        trimmed(skyline.remove(at), at, edge)
    }
}

/// The skyline with the segments at `at` and `at + 1` made one.
pub open spec fn merged_at(skyline: Seq<SkylineNode>, at: int) -> Seq<SkylineNode> {
    skyline.update(
        at,
        SkylineNode {
            x: skyline[at].x,
            y: skyline[at].y,
            width: (skyline[at].width + skyline[at + 1].width) as u32,
        },
    ).remove(at + 1)
}

/// Makes neighbours of equal height one segment, from index `at` on, left
/// to right.
pub open spec fn leveled(skyline: Seq<SkylineNode>, at: int) -> Seq<SkylineNode>
    decreases skyline.len() - at,
{
    if at < 0 || at + 1 >= skyline.len() {
        skyline
    } else if skyline[at].y == skyline[at + 1].y {
        leveled(merged_at(skyline, at), at)
    } else {
        leveled(skyline, at + 1)
    }
}

/// The skyline after a footprint `w` wide, whose upper edge is at `top`, has
/// been put with its left edge at the start of segment `index`: a segment
/// for the footprint goes in at `index`, what it covers of the segments
/// after it goes, and neighbours of equal height become one.
pub open spec fn raised(skyline: Seq<SkylineNode>, index: int, w: int, top: int) -> Seq<SkylineNode> {
    let x = skyline[index].x;
    let node = SkylineNode { x, y: top as u32, width: w as u32 };
    leveled(trimmed(skyline.insert(index, node), index + 1, x + w), 0)
}

/// A layout, the indices of the items that its records place, and the
/// skyline above it.
pub struct Skyline {
    pub placed: Seq<Placement>,
    pub picks: Seq<int>,
    pub nodes: Seq<SkylineNode>,
}

/// Offers the item at `index`: it goes to its best perch, and the skyline
/// is raised over its footprint; an item with no perch changes nothing.
pub open spec fn perch(
    state: Skyline,
    bin_height: u32,
    item: Rectangle,
    index: int,
    allow_rotate: bool,
) -> Skyline {
    match best_perch(state.nodes, bin_height as int, item, allow_rotate) {
        Some(c) => {
            let y = perch_height(state.nodes, item, c);
            let at = Position { x: state.nodes[c.index as int].x, y: y as u32 };
            Skyline {
                placed: state.placed.push((item, at, c.rotated)),
                picks: state.picks.push(index),
                nodes: raised(
                    state.nodes,
                    c.index as int,
                    oriented_width(item, c.rotated),
                    y + oriented_height(item, c.rotated),
                ),
            }
        },
        None => state,
    }
}

/// The layout and the skyline once the first `count` items have been
/// offered in their order, starting from the floor of the bin.
pub open spec fn skyline_after(
    items: Seq<Rectangle>,
    bin_width: u32,
    bin_height: u32,
    allow_rotate: bool,
    count: nat,
) -> Skyline
    decreases count,
{
    if count == 0 {
        Skyline {
            placed: Seq::empty(),
            picks: Seq::empty(),
            nodes: seq![SkylineNode { x: 0, y: 0, width: bin_width }],
        }
    } else {
        perch(
            skyline_after(items, bin_width, bin_height, allow_rotate, (count - 1) as nat),
            bin_height,
            items[count - 1],
            count - 1,
            allow_rotate,
        )
    }
}

/// The layout that the Skyline heuristic yields for the items.
pub open spec fn skyline_layout(
    items: Seq<Rectangle>,
    bin_width: u32,
    bin_height: u32,
    allow_rotate: bool,
) -> Seq<Placement> {
    skyline_after(items, bin_width, bin_height, allow_rotate, items.len()).placed
}

/// The items that the Skyline layout places, by their indices: one for each
/// record.
pub open spec fn skyline_picks(
    items: Seq<Rectangle>,
    bin_width: u32,
    bin_height: u32,
    allow_rotate: bool,
) -> Seq<int> {
    skyline_after(items, bin_width, bin_height, allow_rotate, items.len()).picks
}

/// The segments follow one another without a gap from the left wall of the
/// bin to the right one.
pub open spec fn joined(skyline: Seq<SkylineNode>, bin_width: int) -> bool {
    &&& skyline.len() > 0
    &&& skyline[0].x == 0
    &&& forall|k: int, l: int|
        0 <= k && l == k + 1 && l < skyline.len() ==> (#[trigger] skyline[k]).end()
            == (#[trigger] skyline[l]).x
    &&& skyline.last().end() == bin_width
}

/// The skyline does not dip into the region: every segment above or below
/// it lies at or over its upper edge.
pub open spec fn clears(skyline: Seq<SkylineNode>, f: Region) -> bool {
    forall|k: int|
        0 <= k < skyline.len() && (#[trigger] skyline[k]).x < f.right() && f.x < skyline[k].end()
            ==> skyline[k].y >= f.top()
}

/// The skyline is joined and clears every footprint of the layout.
pub open spec fn well_kept(state: Skyline, bin_width: int) -> bool {
    &&& joined(state.nodes, bin_width)
    &&& forall|j: int|
        0 <= j < state.placed.len() ==> clears(state.nodes, footprint(#[trigger] state.placed[j]))
}

/// In a joined skyline an earlier segment ends where a later one starts, or
/// before.
pub proof fn lemma_joined_is_ordered(skyline: Seq<SkylineNode>, bin_width: int, k: int, l: int)
    requires
        joined(skyline, bin_width),
        0 <= k < l < skyline.len(),
    ensures
        skyline[k].end() <= skyline[l].x,
    decreases l - k,
{
    if k + 1 < l {
        lemma_joined_is_ordered(skyline, bin_width, k + 1, l);
    }
}

/// Every segment of a joined skyline ends within the bin.
pub proof fn lemma_joined_is_within(skyline: Seq<SkylineNode>, bin_width: int, k: int)
    requires
        joined(skyline, bin_width),
        0 <= k < skyline.len(),
    ensures
        skyline[k].end() <= bin_width,
{
    if k < skyline.len() - 1 {
        lemma_joined_is_ordered(skyline, bin_width, k, skyline.len() - 1);
    }
}

/// Where a footprint comes to rest on a joined skyline it ends within the
/// bin, and no segment below it lies higher than it rests.
pub proof fn lemma_resting_height_bounds(skyline: Seq<SkylineNode>, bin_width: int, start: int, w: int)
    requires
        joined(skyline, bin_width),
        0 <= start < skyline.len(),
        w > 0,
        resting_height(skyline, start, w) is Some,
    ensures
        skyline[start].x + w <= bin_width,
        forall|k: int|
            start <= k < skyline.len() && (#[trigger] skyline[k]).x < skyline[start].x + w
                ==> skyline[k].y <= resting_height(skyline, start, w)->0,
    decreases skyline.len() - start,
{
    if skyline[start].width >= w {
        lemma_joined_is_within(skyline, bin_width, start);
        assert forall|k: int|
            start <= k < skyline.len() && (#[trigger] skyline[k]).x < skyline[start].x + w implies skyline[k].y
            <= resting_height(skyline, start, w)->0 by {
            if k > start {
                lemma_joined_is_ordered(skyline, bin_width, start, k);
            }
        }
    } else {
        assert(start + 1 < skyline.len()) by {
            if start + 1 >= skyline.len() {
                assert(resting_height(skyline, start + 1, w - skyline[start].width) is None);
            }
        }
        lemma_resting_height_bounds(skyline, bin_width, start + 1, w - skyline[start].width);
    }
}

/// In a joined skyline some segment, at `from` or after it, lies under or
/// over any point of the bin's width that is not left of segment `from`.
pub proof fn lemma_find_segment(skyline: Seq<SkylineNode>, bin_width: int, from: int, p: int) -> (k: int)
    requires
        joined(skyline, bin_width),
        0 <= from < skyline.len(),
        skyline[from].x <= p < bin_width,
    ensures
        from <= k < skyline.len(),
        skyline[k].x <= p < skyline[k].end(),
    decreases skyline.len() - from,
{
    if p < skyline[from].end() {
        from
    } else {
        lemma_find_segment(skyline, bin_width, from + 1, p)
    }
}

/// A footprint at rest on a joined skyline rests at or over the upper edge
/// of any region below or above it that the skyline clears.
pub proof fn lemma_perch_is_clear(skyline: Seq<SkylineNode>, bin_width: int, start: int, w: int, f: Region)
    requires
        joined(skyline, bin_width),
        0 <= start < skyline.len(),
        w > 0,
        resting_height(skyline, start, w) is Some,
        clears(skyline, f),
        f.width > 0,
    ensures
        skyline[start].x < f.right() && f.x < skyline[start].x + w ==> resting_height(
            skyline,
            start,
            w,
        )->0 >= f.top(),
{
    let x = skyline[start].x as int;
    lemma_resting_height_bounds(skyline, bin_width, start, w);
    if x < f.right() && f.x < x + w {
        let p = if f.x > x { f.x } else { x };
        let k = lemma_find_segment(skyline, bin_width, start, p);
        assert(skyline[k].y >= f.top());
    }
}

/// The skyline is joined but in one place: the segment before `at` ends at
/// `edge`, and the one at `at`, if there is one, may start left of it.
pub open spec fn parted(skyline: Seq<SkylineNode>, at: int, edge: int, bin_width: int) -> bool {
    &&& 0 < at <= skyline.len()
    &&& skyline[0].x == 0
    &&& forall|k: int, l: int|
        0 <= k && l == k + 1 && l < skyline.len() && l != at ==> (#[trigger] skyline[k]).end()
            == (#[trigger] skyline[l]).x
    &&& skyline[at - 1].end() == edge
    &&& edge <= bin_width
    &&& if at < skyline.len() {
        skyline[at].x <= edge && skyline.last().end() == bin_width
    } else {
        edge == bin_width
    }
}

/// Trimming closes the gap of a parted skyline and leaves what is before
/// the gap as it was.
pub proof fn lemma_trimmed_is_joined(skyline: Seq<SkylineNode>, at: int, edge: int, bin_width: u32)
    requires
        parted(skyline, at, edge, bin_width as int),
    ensures
        joined(trimmed(skyline, at, edge), bin_width as int),
        trimmed(skyline, at, edge).len() >= at,
        forall|k: int| 0 <= k < at ==> trimmed(skyline, at, edge)[k] == skyline[k],
    decreases skyline.len() - at,
{
    if at >= skyline.len() || skyline[at].x >= edge {
    } else if skyline[at].end() > edge {
        let cut = skyline.update(at, shortened(skyline[at], edge));
        assert forall|k: int, l: int| 0 <= k && l == k + 1 && l < cut.len() implies (#[trigger] cut[k]).end()
            == (#[trigger] cut[l]).x by {
            if l != at {
                assert(skyline[k].end() == skyline[l].x);
            }
        }
    } else {
        let rest = skyline.remove(at);
        assert forall|k: int, l: int|
            0 <= k && l == k + 1 && l < rest.len() && l != at implies (#[trigger] rest[k]).end()
            == (#[trigger] rest[l]).x by {
            if l < at {
                assert(skyline[k].end() == skyline[l].x);
            } else {
                assert(skyline[k + 1].end() == skyline[l + 1].x);
            }
        }
        if at < rest.len() {
            assert(skyline[at].end() == skyline[at + 1].x);
            assert(rest.last() == skyline.last());
        }
        assert(parted(rest, at, edge, bin_width as int));
        lemma_trimmed_is_joined(rest, at, edge, bin_width);
        assert forall|k: int| 0 <= k < at implies trimmed(skyline, at, edge)[k] == skyline[k] by {
            assert(trimmed(rest, at, edge)[k] == rest[k]);
        }
    }
}

/// Trimming a skyline that clears a region leaves one that clears it.
pub proof fn lemma_trimmed_keeps_clear(skyline: Seq<SkylineNode>, at: int, edge: int, f: Region)
    requires
        clears(skyline, f),
        0 <= edge <= u32::MAX,
    ensures
        clears(trimmed(skyline, at, edge), f),
    decreases skyline.len() - at,
{
    if at < 0 || at >= skyline.len() || skyline[at].x >= edge {
    } else if skyline[at].end() > edge {
        let cut = skyline.update(at, shortened(skyline[at], edge));
        assert forall|k: int|
            0 <= k < cut.len() && (#[trigger] cut[k]).x < f.right() && f.x < cut[k].end() implies cut[k].y
            >= f.top() by {
            assert(skyline[k].y >= f.top());
        }
    } else {
        let rest = skyline.remove(at);
        assert forall|k: int|
            0 <= k < rest.len() && (#[trigger] rest[k]).x < f.right() && f.x < rest[k].end() implies rest[k].y
            >= f.top() by {
            if k < at {
                assert(skyline[k].y >= f.top());
            } else {
                assert(skyline[k + 1].y >= f.top());
            }
        }
        lemma_trimmed_keeps_clear(rest, at, edge, f);
    }
}

/// Making two neighbours one leaves a joined skyline joined.
pub proof fn lemma_merged_is_joined(skyline: Seq<SkylineNode>, at: int, bin_width: u32)
    requires
        joined(skyline, bin_width as int),
        0 <= at,
        at + 1 < skyline.len(),
    ensures
        joined(merged_at(skyline, at), bin_width as int),
        skyline[at].width + skyline[at + 1].width <= bin_width,
{
    let merged = merged_at(skyline, at);
    lemma_joined_is_within(skyline, bin_width as int, at + 1);
    assert(skyline[at].end() == skyline[at + 1].x);
    assert forall|k: int, l: int| 0 <= k && l == k + 1 && l < merged.len() implies (#[trigger] merged[k]).end()
        == (#[trigger] merged[l]).x by {
        if l < at {
            assert(skyline[k].end() == skyline[l].x);
        } else if l == at {
            assert(skyline[k].end() == skyline[l].x);
        } else {
            assert(skyline[k + 1].end() == skyline[l + 1].x);
        }
    }
    if at == merged.len() - 1 {
        assert(merged.last() == merged[at]);
    } else {
        assert(merged.last() == skyline.last());
    }
}

/// Making two neighbours of equal height one leaves a skyline that clears
/// a region of some width clearing it.
pub proof fn lemma_merged_keeps_clear(skyline: Seq<SkylineNode>, at: int, bin_width: u32, f: Region)
    requires
        joined(skyline, bin_width as int),
        0 <= at,
        at + 1 < skyline.len(),
        skyline[at].y == skyline[at + 1].y,
        clears(skyline, f),
        f.width > 0,
    ensures
        clears(merged_at(skyline, at), f),
{
    let merged = merged_at(skyline, at);
    lemma_merged_is_joined(skyline, at, bin_width);
    assert(skyline[at].end() == skyline[at + 1].x);
    assert forall|k: int|
        0 <= k < merged.len() && (#[trigger] merged[k]).x < f.right() && f.x < merged[k].end() implies merged[k].y
        >= f.top() by {
        if k < at {
            assert(skyline[k].y >= f.top());
        } else if k == at {
            if f.x < skyline[at].end() {
                assert(skyline[at].y >= f.top());
            } else {
                assert(skyline[at + 1].y >= f.top());
            }
        } else {
            assert(skyline[k + 1].y >= f.top());
        }
    }
}

/// Levelling leaves a joined skyline joined.
pub proof fn lemma_leveled_is_joined(skyline: Seq<SkylineNode>, at: int, bin_width: u32)
    requires
        joined(skyline, bin_width as int),
    ensures
        joined(leveled(skyline, at), bin_width as int),
    decreases skyline.len() - at,
{
    if at < 0 || at + 1 >= skyline.len() {
    } else if skyline[at].y == skyline[at + 1].y {
        lemma_merged_is_joined(skyline, at, bin_width);
        lemma_leveled_is_joined(merged_at(skyline, at), at, bin_width);
    } else {
        lemma_leveled_is_joined(skyline, at + 1, bin_width);
    }
}

/// Levelling leaves a joined skyline that clears a region of some width
/// clearing it.
pub proof fn lemma_leveled_keeps_clear(skyline: Seq<SkylineNode>, at: int, bin_width: u32, f: Region)
    requires
        joined(skyline, bin_width as int),
        clears(skyline, f),
        f.width > 0,
    ensures
        clears(leveled(skyline, at), f),
    decreases skyline.len() - at,
{
    if at < 0 || at + 1 >= skyline.len() {
    } else if skyline[at].y == skyline[at + 1].y {
        lemma_merged_is_joined(skyline, at, bin_width);
        lemma_merged_keeps_clear(skyline, at, bin_width, f);
        lemma_leveled_keeps_clear(merged_at(skyline, at), at, bin_width, f);
    } else {
        lemma_leveled_keeps_clear(skyline, at + 1, bin_width, f);
    }
}

/// A segment that goes in before the segment at whose start it starts
/// leaves the skyline parted behind it.
pub proof fn lemma_entered_is_parted(
    skyline: Seq<SkylineNode>,
    index: int,
    node: SkylineNode,
    bin_width: u32,
)
    requires
        joined(skyline, bin_width as int),
        0 <= index < skyline.len(),
        node.x == skyline[index].x,
        node.width > 0,
        node.end() <= bin_width,
    ensures
        parted(skyline.insert(index, node), index + 1, node.end(), bin_width as int),
{
    let entered = skyline.insert(index, node);
    assert forall|k: int, l: int|
        0 <= k && l == k + 1 && l < entered.len() && l != index + 1 implies (#[trigger] entered[k]).end()
        == (#[trigger] entered[l]).x by {
        if l < index {
            assert(skyline[k].end() == skyline[l].x);
        } else if l == index {
            assert(skyline[k].end() == skyline[l].x);
        } else {
            assert(skyline[k - 1].end() == skyline[l - 1].x);
        }
    }
    assert(entered.last() == skyline.last());
    assert(entered[index + 1] == skyline[index]);
}

/// Offering the next item keeps the layout sound and the skyline well
/// kept.
pub proof fn lemma_perch_is_sound(
    state: Skyline,
    items: Seq<Rectangle>,
    bin_width: u32,
    bin_height: u32,
    allow_rotate: bool,
    limit: int,
)
    requires
        0 <= limit < items.len(),
        sound_prefix(
            state.placed,
            state.picks,
            items,
            bin_width as int,
            bin_height as int,
            allow_rotate,
            limit,
        ),
        well_kept(state, bin_width as int),
    ensures
        sound_prefix(
            perch(state, bin_height, items[limit], limit, allow_rotate).placed,
            perch(state, bin_height, items[limit], limit, allow_rotate).picks,
            items,
            bin_width as int,
            bin_height as int,
            allow_rotate,
            limit + 1,
        ),
        well_kept(perch(state, bin_height, items[limit], limit, allow_rotate), bin_width as int),
{
    let bw = bin_width as int;
    let bh = bin_height as int;
    let item = items[limit];
    let nodes = state.nodes;
    match best_perch(nodes, bh, item, allow_rotate) {
        Some(c) => {
            assert(is_best_perch(nodes, bh, item, allow_rotate, c));
            let index = c.index as int;
            let w = oriented_width(item, c.rotated);
            let h = oriented_height(item, c.rotated);
            let x = nodes[index].x as int;
            let y = perch_height(nodes, item, c);
            let at = Position { x: nodes[index].x, y: y as u32 };
            let record = (item, at, c.rotated);
            let taken = footprint(record);
            let next = perch(state, bin_height, item, limit, allow_rotate);
            lemma_resting_height_bounds(nodes, bw, index, w);
            assert(y >= nodes[index].y);
            assert(taken == Region { x, y, width: w, height: h });
            assert forall|k: int| 0 <= k < state.placed.len() implies !taken.overlaps(
                footprint(#[trigger] state.placed[k]),
            ) by {
                lemma_perch_is_clear(nodes, bw, index, w, footprint(state.placed[k]));
            }
            lemma_sound_push(state.placed, state.picks, items, bw, bh, allow_rotate, limit, at, c.rotated);

            let node = SkylineNode { x: nodes[index].x, y: (y + h) as u32, width: w as u32 };
            let entered = nodes.insert(index, node);
            let edge = x + w;
            let cleared = trimmed(entered, index + 1, edge);
            lemma_entered_is_parted(nodes, index, node, bin_width);
            lemma_trimmed_is_joined(entered, index + 1, edge, bin_width);
            assert(cleared[index] == node);
            lemma_leveled_is_joined(cleared, 0, bin_width);
            assert(next.nodes == leveled(cleared, 0));
            assert forall|j: int| 0 <= j < next.placed.len() implies clears(
                next.nodes,
                footprint(#[trigger] next.placed[j]),
            ) by {
                let f = footprint(next.placed[j]);
                if j < state.placed.len() {
                    assert(next.placed[j] == state.placed[j]);
                    lemma_perch_is_clear(nodes, bw, index, w, f);
                    assert forall|k: int|
                        0 <= k < entered.len() && (#[trigger] entered[k]).x < f.right() && f.x
                            < entered[k].end() implies entered[k].y >= f.top() by {
                        if k < index {
                            assert(nodes[k].y >= f.top());
                        } else if k > index {
                            assert(nodes[k - 1].y >= f.top());
                        }
                    }
                    lemma_trimmed_keeps_clear(entered, index + 1, edge, f);
                } else {
                    assert(next.placed[j] == record);
                    assert forall|k: int|
                        0 <= k < cleared.len() && (#[trigger] cleared[k]).x < f.right() && f.x
                            < cleared[k].end() implies cleared[k].y >= f.top() by {
                        if k < index {
                            lemma_joined_is_ordered(cleared, bw, k, index);
                        } else if k > index {
                            lemma_joined_is_ordered(cleared, bw, index, k);
                        }
                    }
                }
                lemma_leveled_keeps_clear(cleared, 0, bin_width, f);
            }
        },
        None => {},
    }
}

/// After any number of items the Skyline layout is sound and its skyline
/// well kept.
pub proof fn lemma_skyline_after_is_sound(
    items: Seq<Rectangle>,
    bin_width: u32,
    bin_height: u32,
    allow_rotate: bool,
    count: nat,
)
    requires
        count <= items.len(),
    ensures
        sound_prefix(
            skyline_after(items, bin_width, bin_height, allow_rotate, count).placed,
            skyline_after(items, bin_width, bin_height, allow_rotate, count).picks,
            items,
            bin_width as int,
            bin_height as int,
            allow_rotate,
            count as int,
        ),
        well_kept(skyline_after(items, bin_width, bin_height, allow_rotate, count), bin_width as int),
    decreases count,
{
    if count > 0 {
        lemma_skyline_after_is_sound(items, bin_width, bin_height, allow_rotate, (count - 1) as nat);
        lemma_perch_is_sound(
            skyline_after(items, bin_width, bin_height, allow_rotate, (count - 1) as nat),
            items,
            bin_width,
            bin_height,
            allow_rotate,
            count - 1,
        );
    }
}

/// The Skyline layout is sound: its footprints lie in the bin and do not
/// overlap, no record is turned unless turning is allowed, and the records
/// place the items picked, which are distinct and in their order.
pub proof fn lemma_skyline_layout_is_sound(
    items: Seq<Rectangle>,
    bin_width: u32,
    bin_height: u32,
    allow_rotate: bool,
)
    ensures
        sound_layout(
            skyline_layout(items, bin_width, bin_height, allow_rotate),
            items,
            bin_width as int,
            bin_height as int,
            allow_rotate,
        ),
        is_selection(
            skyline_picks(items, bin_width, bin_height, allow_rotate),
            items,
            skyline_layout(items, bin_width, bin_height, allow_rotate),
            items.len() as int,
        ),
{
    lemma_skyline_after_is_sound(items, bin_width, bin_height, allow_rotate, items.len());
}

/// Where the first item fits the bin as it is given, every layout from the
/// first item on starts with that item, upright at the bin's origin.
pub proof fn lemma_skyline_first_item_stays(
    items: Seq<Rectangle>,
    bin_width: u32,
    bin_height: u32,
    allow_rotate: bool,
    count: nat,
)
    requires
        1 <= count <= items.len(),
        placeable(items[0]),
        items[0].width <= bin_width,
        items[0].height <= bin_height,
    ensures
        skyline_after(items, bin_width, bin_height, allow_rotate, count).placed.len() > 0,
        skyline_after(items, bin_width, bin_height, allow_rotate, count).placed[0] == (
            items[0],
            Position { x: 0, y: 0 },
            false,
        ),
        skyline_after(items, bin_width, bin_height, allow_rotate, count).picks.len() > 0,
        skyline_after(items, bin_width, bin_height, allow_rotate, count).picks[0] == 0,
    decreases count,
{
    if count == 1 {
        let start = skyline_after(items, bin_width, bin_height, allow_rotate, 0);
        let floor = Fit { index: 0, rotated: false };
        assert(start.nodes.len() == 1);
        assert(start.nodes[0] == SkylineNode { x: 0, y: 0, width: bin_width });
        assert(resting_height(start.nodes, 0, items[0].width as int) == Some(0int));
        assert forall|d: Fit| #[trigger]
            perches(start.nodes, bin_height as int, items[0], allow_rotate, d) implies lower_perch(
            start.nodes,
            items[0],
            floor,
            d,
        ) by {
            let w = oriented_width(items[0], d.rotated);
            assert(d.index == 0);
            if w > bin_width {
                assert(resting_height(start.nodes, 1, w - bin_width) is None);
            }
            assert(resting_height(start.nodes, 0, w) == Some(0int));
        }
        assert(is_best_perch(start.nodes, bin_height as int, items[0], allow_rotate, floor));
        lemma_best_perch_is_unique(start.nodes, bin_height as int, items[0], allow_rotate, floor);
    } else {
        lemma_skyline_first_item_stays(items, bin_width, bin_height, allow_rotate, (count - 1) as nat);
    }
}

/// Where the first item fits the bin as it is given, the Skyline layout
/// starts with that item, upright at the bin's origin.
pub proof fn lemma_skyline_places_first_item(
    items: Seq<Rectangle>,
    bin_width: u32,
    bin_height: u32,
    allow_rotate: bool,
)
    requires
        first_fits(items, bin_width as int, bin_height as int),
    ensures
        starts_at_origin(skyline_layout(items, bin_width, bin_height, allow_rotate), items),
        skyline_picks(items, bin_width, bin_height, allow_rotate)[0] == 0,
{
    lemma_skyline_first_item_stays(items, bin_width, bin_height, allow_rotate, items.len());
}

/// The height at which a footprint `w` wide rests with its left edge at the
/// start of segment `start`.
fn resting_height_at(skyline: &Vec<SkylineNode>, start: usize, w: u32) -> (height: Option<u32>)
    requires
        start < skyline.len(),
        w > 0,
    ensures
        resting_height(skyline@, start as int, w as int) == match height {
            Some(y) => Some(y as int),
            None => None,
        },
{
    let mut y = skyline[start].y;
    let mut width_left = w;
    let mut j = start;
    while j < skyline.len()
        invariant
            start <= j <= skyline.len(),
            0 < width_left <= w,
            resting_height(skyline@, start as int, w as int) == raise_to(
                y as int,
                resting_height(skyline@, j as int, width_left as int),
            ),
        decreases skyline.len() - j,
    {
        if skyline[j].y > y {
            y = skyline[j].y;
        }
        if skyline[j].width >= width_left {
            return Some(y);
        }
        width_left -= skyline[j].width;
        j += 1;
    }
    None
}

/// Tries the item in one orientation at the start of every segment, in
/// order, and keeps what is chosen over `start`. A perch goes with the
/// height at which the item rests there.
fn scan_perches(
    skyline: &Vec<SkylineNode>,
    bin_height: u32,
    item: Rectangle,
    allow_rotate: bool,
    rotated: bool,
    start: Option<(Fit, u32)>,
) -> (best: Option<(Fit, u32)>)
    requires
        placeable(item),
        orientation_allowed(item, rotated, allow_rotate),
        start matches Some(b) ==> perches(skyline@, bin_height as int, item, allow_rotate, b.0) && b.1
            == perch_height(skyline@, item, b.0) && tried_before(b.0, Fit { index: 0, rotated }),
        forall|d: Fit| #[trigger]
            perches(skyline@, bin_height as int, item, allow_rotate, d) && tried_before(
                d,
                Fit { index: 0, rotated },
            ) ==> start is Some && lower_perch(skyline@, item, (start->0).0, d),
    ensures
        best matches Some(b) ==> perches(skyline@, bin_height as int, item, allow_rotate, b.0) && b.1
            == perch_height(skyline@, item, b.0) && tried_before(
            b.0,
            Fit { index: skyline.len(), rotated },
        ),
        forall|d: Fit| #[trigger]
            perches(skyline@, bin_height as int, item, allow_rotate, d) && tried_before(
                d,
                Fit { index: skyline.len(), rotated },
            ) ==> best is Some && lower_perch(skyline@, item, (best->0).0, d),
{
    let (w, h) = if rotated {
        (item.height, item.width)
    } else {
        (item.width, item.height)
    };
    let mut best = start;
    let mut i: usize = 0;
    while i < skyline.len()
        invariant
            i <= skyline.len(),
            placeable(item),
            orientation_allowed(item, rotated, allow_rotate),
            w == oriented_width(item, rotated),
            h == oriented_height(item, rotated),
            best matches Some(b) ==> perches(skyline@, bin_height as int, item, allow_rotate, b.0)
                && b.1 == perch_height(skyline@, item, b.0) && tried_before(
                b.0,
                Fit { index: i, rotated },
            ),
            forall|d: Fit| #[trigger]
                perches(skyline@, bin_height as int, item, allow_rotate, d) && tried_before(
                    d,
                    Fit { index: i, rotated },
                ) ==> best is Some && lower_perch(skyline@, item, (best->0).0, d),
        decreases skyline.len() - i,
    {
        let ghost before = best;
        let here = Fit { index: i, rotated };
        match resting_height_at(skyline, i, w) {
            Some(y) => {
                if y as u64 + h as u64 <= bin_height as u64 {
                    let better = match best {
                        Some((b, resting)) => y < resting || (y == resting && skyline[i].x
                            < skyline[b.index].x),
                        None => true,
                    };
                    if better {
                        best = Some((here, y));
                    }
                }
            },
            None => {},
        }
        proof {
            assert forall|d: Fit| #[trigger]
                perches(skyline@, bin_height as int, item, allow_rotate, d) && tried_before(
                    d,
                    Fit { index: (i + 1) as usize, rotated },
                ) implies best is Some && lower_perch(skyline@, item, (best->0).0, d) by {
                if tried_before(d, here) {
                    assert(lower_perch(skyline@, item, (before->0).0, d));
                } else {
                    assert(d == here);
                }
            }
        }
        i += 1;
    }
    best
}

/// The best perch for the item on the skyline, with the height at which the
/// item rests there.
fn find_perch(skyline: &Vec<SkylineNode>, bin_height: u32, item: Rectangle, allow_rotate: bool) -> (found:
    Option<(Fit, u32)>)
    ensures
        match found {
            Some(b) => best_perch(skyline@, bin_height as int, item, allow_rotate) == Some(b.0) && b.1
                == perch_height(skyline@, item, b.0),
            None => best_perch(skyline@, bin_height as int, item, allow_rotate) is None,
        },
{
    if item.width == 0 || item.height == 0 {
        return None;
    }
    let upright = scan_perches(skyline, bin_height, item, allow_rotate, false, None);
    let found = if allow_rotate && item.width != item.height {
        scan_perches(skyline, bin_height, item, allow_rotate, true, upright)
    } else {
        upright
    };
    proof {
        match found {
            Some(b) => {
                assert(is_best_perch(skyline@, bin_height as int, item, allow_rotate, b.0));
                lemma_best_perch_is_unique(skyline@, bin_height as int, item, allow_rotate, b.0);
            },
            None => {
                assert forall|c: Fit|
                    !is_best_perch(skyline@, bin_height as int, item, allow_rotate, c) by {}
            },
        }
    }
    found
}

/// Raises the skyline over a footprint `w` wide, with its upper edge at
/// `top`, that has been put at the start of segment `index`.
fn raise_skyline(
    skyline: &mut Vec<SkylineNode>,
    index: usize,
    w: u32,
    top: u32,
    Ghost(bin_width): Ghost<u32>,
)
    requires
        joined(old(skyline)@, bin_width as int),
        index < old(skyline).len(),
        w > 0,
        old(skyline)[index as int].x + w <= bin_width,
    ensures
        final(skyline)@ == raised(old(skyline)@, index as int, w as int, top as int),
{
    let x = skyline[index].x;
    let edge = x + w;
    let node = SkylineNode { x, y: top, width: w };
    proof {
        lemma_entered_is_parted(skyline@, index as int, node, bin_width);
    }
    skyline.insert(index, node);
    let ghost entered = skyline@;
    let ghost cleared = trimmed(entered, index + 1, edge as int);
    let at = index + 1;
    while at < skyline.len() && skyline[at].x < edge
        invariant_except_break
            trimmed(skyline@, at as int, edge as int) == cleared,
        ensures
            skyline@ == cleared,
        decreases skyline.len(),
    {
        let next = skyline[at];
        let overlap = edge - next.x;
        if next.width > overlap {
            skyline.set(at, SkylineNode { x: edge, y: next.y, width: next.width - overlap });
            break;
        } else {
            skyline.remove(at);
        }
    }
    proof {
        lemma_trimmed_is_joined(entered, index + 1, edge as int, bin_width);
    }
    let mut i: usize = 0;
    while i + 1 < skyline.len()
        invariant
            i < skyline.len(),
            joined(skyline@, bin_width as int),
            leveled(skyline@, i as int) == leveled(cleared, 0),
        decreases skyline.len() - i,
    {
        if skyline[i].y == skyline[i + 1].y {
            proof {
                lemma_merged_is_joined(skyline@, i as int, bin_width);
            }
            let ghost before = skyline@;
            let left = skyline[i];
            let right = skyline[i + 1];
            skyline.set(i, SkylineNode { x: left.x, y: left.y, width: left.width + right.width });
            skyline.remove(i + 1);
            assert(skyline@ == merged_at(before, i as int));
        } else {
            i += 1;
        }
    }
}

/// Places the items in a bin by the Skyline heuristic, in the order given.
/// The answer holds a record for every item that found a perch; an item
/// that found none is left out.
pub fn skyline_placement(
    rectangles: &[Rectangle],
    container_width: u32,
    container_height: u32,
    allow_rotate: bool,
) -> (placed: Vec<(Rectangle, Position, bool)>)
    ensures
        placed@ == skyline_layout(rectangles@, container_width, container_height, allow_rotate),
        sound_layout(
            placed@,
            rectangles@,
            container_width as int,
            container_height as int,
            allow_rotate,
        ),
        first_fits(rectangles@, container_width as int, container_height as int)
            ==> starts_at_origin(placed@, rectangles@),
{
    skyline_placement_with_picks(rectangles, container_width, container_height, allow_rotate).0
}

/// Places the items as `skyline_placement` does and answers, beside the
/// records, with the index of the item that each record places.
pub fn skyline_placement_with_picks(
    rectangles: &[Rectangle],
    container_width: u32,
    container_height: u32,
    allow_rotate: bool,
) -> (run: (Vec<(Rectangle, Position, bool)>, Vec<usize>))
    ensures
        run.0@ == skyline_layout(rectangles@, container_width, container_height, allow_rotate),
        indices(run.1@) == skyline_picks(rectangles@, container_width, container_height, allow_rotate),
        sound_layout(
            run.0@,
            rectangles@,
            container_width as int,
            container_height as int,
            allow_rotate,
        ),
        is_selection(indices(run.1@), rectangles@, run.0@, rectangles@.len() as int),
        first_fits(rectangles@, container_width as int, container_height as int)
            ==> starts_at_origin(run.0@, rectangles@),
{
    let mut placed: Vec<(Rectangle, Position, bool)> = Vec::new();
    let mut picks: Vec<usize> = Vec::new();
    assert(indices(picks@) =~= Seq::<int>::empty());
    let mut skyline: Vec<SkylineNode> = Vec::new();
    skyline.push(SkylineNode { x: 0, y: 0, width: container_width });
    assert(skyline@ =~= skyline_after(
        rectangles@,
        container_width,
        container_height,
        allow_rotate,
        0,
    ).nodes);
    let mut i: usize = 0;
    while i < rectangles.len()
        invariant
            i <= rectangles.len(),
            placed@ == skyline_after(
                rectangles@,
                container_width,
                container_height,
                allow_rotate,
                i as nat,
            ).placed,
            indices(picks@) == skyline_after(
                rectangles@,
                container_width,
                container_height,
                allow_rotate,
                i as nat,
            ).picks,
            skyline@ == skyline_after(
                rectangles@,
                container_width,
                container_height,
                allow_rotate,
                i as nat,
            ).nodes,
        decreases rectangles.len() - i,
    {
        let rect = rectangles[i];
        proof {
            lemma_skyline_after_is_sound(
                rectangles@,
                container_width,
                container_height,
                allow_rotate,
                i as nat,
            );
        }
        match find_perch(&skyline, container_height, rect, allow_rotate) {
            Some((fit, y)) => {
                let (w, h) = if fit.rotated {
                    (rect.height, rect.width)
                } else {
                    (rect.width, rect.height)
                };
                proof {
                    assert(is_best_perch(skyline@, container_height as int, rect, allow_rotate, fit));
                    lemma_resting_height_bounds(
                        skyline@,
                        container_width as int,
                        fit.index as int,
                        w as int,
                    );
                }
                let x = skyline[fit.index].x;
                let ghost picks_before = picks@;
                placed.push((rect, Position { x, y }, fit.rotated));
                picks.push(i);
                assert(indices(picks@) =~= indices(picks_before).push(i as int));
                raise_skyline(&mut skyline, fit.index, w, y + h, Ghost(container_width));
            },
            None => {},
        }
        i += 1;
    }
    proof {
        lemma_skyline_layout_is_sound(rectangles@, container_width, container_height, allow_rotate);
        if first_fits(rectangles@, container_width as int, container_height as int) {
            lemma_skyline_places_first_item(
                rectangles@,
                container_width,
                container_height,
                allow_rotate,
            );
        }
    }
    (placed, picks)
}

} // verus!
