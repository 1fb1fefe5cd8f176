use rustpack::{
    bottom_left_placement, bottom_left_placement_with_picks, guillotine_placement,
    guillotine_placement_with_picks, is_true_bl_point, maxrects_placement,
    maxrects_placement_with_picks, skyline_placement, skyline_placement_with_picks, Position,
    Rectangle,
};

fn rect(width: u32, height: u32) -> Rectangle {
    Rectangle { width, height }
}

fn at(x: u32, y: u32) -> Position {
    Position { x, y }
}

#[test]
fn bottom_left_goes_lowest_then_leftmost() {
    let items = [rect(2, 2), rect(3, 1), rect(1, 3), rect(4, 4)];
    let placed = bottom_left_placement(&items, 5, 5, false);
    assert_eq!(
        placed,
        vec![
            (rect(2, 2), at(0, 0), false),
            (rect(3, 1), at(2, 0), false),
            (rect(1, 3), at(2, 1), false),
        ]
    );
}

#[test]
fn bottom_left_first_item_starts_at_the_origin() {
    let items = [rect(3, 2), rect(1, 4), rect(2, 2)];
    let placed = bottom_left_placement(&items, 5, 5, false);
    assert_eq!(
        placed,
        vec![
            (rect(3, 2), at(0, 0), false),
            (rect(1, 4), at(3, 0), false),
            (rect(2, 2), at(0, 2), false),
        ]
    );
}

#[test]
fn bottom_left_prefers_the_upright_orientation_at_the_same_point() {
    let placed = bottom_left_placement(&[rect(4, 2)], 4, 4, true);
    assert_eq!(placed, vec![(rect(4, 2), at(0, 0), false)]);
}

#[test]
fn bottom_left_turns_an_item_that_only_fits_turned() {
    let items = [rect(4, 2), rect(2, 4)];
    let placed = bottom_left_placement(&items, 4, 4, true);
    assert_eq!(placed, vec![(rect(4, 2), at(0, 0), false), (rect(2, 4), at(0, 2), true)]);
}

#[test]
fn bottom_left_turned_item_wins_where_it_lies_lower() {
    // Upright, the second item only fits above the first; turned, it fits
    // beside it on the floor.
    let items = [rect(3, 1), rect(4, 2)];
    let placed = bottom_left_placement(&items, 5, 5, true);
    assert_eq!(placed, vec![(rect(3, 1), at(0, 0), false), (rect(4, 2), at(3, 0), true)]);
}

#[test]
fn bottom_left_rejects_a_point_without_support_from_the_left() {
    // The 6x6 item fits the hole at (4, 3) but nothing holds it from the
    // left there when it is first offered.
    let items = [rect(4, 2), rect(4, 3), rect(6, 6)];
    let placed = bottom_left_placement(&items, 10, 10, false);
    assert_eq!(placed, vec![(rect(4, 2), at(0, 0), false), (rect(4, 3), at(4, 0), false)]);
}

#[test]
fn bottom_left_picks_name_the_items_placed() {
    let items = [rect(4, 2), rect(4, 3), rect(6, 6), rect(10, 9), rect(4, 5), rect(6, 6)];
    let (placed, picks) = bottom_left_placement_with_picks(&items, 10, 10, false);
    assert_eq!(
        placed,
        vec![
            (rect(4, 2), at(0, 0), false),
            (rect(4, 3), at(4, 0), false),
            (rect(4, 5), at(0, 2), false),
            (rect(6, 6), at(4, 3), false),
        ]
    );
    assert_eq!(picks, vec![0, 1, 4, 5]);
}

#[test]
fn maxrects_takes_the_smallest_free_rectangle() {
    let items = [rect(4, 3), rect(3, 5), rect(6, 2)];
    let placed = maxrects_placement(&items, 10, 10, false);
    assert_eq!(
        placed,
        vec![
            (rect(4, 3), at(0, 0), false),
            (rect(3, 5), at(0, 3), false),
            (rect(6, 2), at(4, 0), false),
        ]
    );
}

#[test]
fn maxrects_turns_an_item_into_a_smaller_free_rectangle() {
    let items = [rect(4, 3), rect(3, 5), rect(6, 2)];
    let placed = maxrects_placement(&items, 10, 10, true);
    assert_eq!(
        placed,
        vec![
            (rect(4, 3), at(0, 0), false),
            (rect(3, 5), at(4, 0), true),
            (rect(6, 2), at(0, 3), false),
        ]
    );
}

#[test]
fn maxrects_picks_name_the_items_placed() {
    let items = [rect(3, 3), rect(3, 3), rect(2, 2)];
    let (placed, picks) = maxrects_placement_with_picks(&items, 5, 5, false);
    assert_eq!(placed, vec![(rect(3, 3), at(0, 0), false), (rect(2, 2), at(3, 0), false)]);
    assert_eq!(picks, vec![0, 2]);
}

#[test]
fn guillotine_cuts_right_and_below() {
    let items = [rect(4, 3), rect(3, 5), rect(6, 2)];
    let placed = guillotine_placement(&items, 10, 10, false);
    assert_eq!(
        placed,
        vec![
            (rect(4, 3), at(0, 0), false),
            (rect(3, 5), at(0, 3), false),
            (rect(6, 2), at(4, 0), false),
        ]
    );
}

#[test]
fn guillotine_uses_the_part_beside_an_item_as_high_as_the_item() {
    // Beside the first item the free part is 5 wide and 7 high; the second
    // item goes there turned.
    let items = [rect(2, 7), rect(7, 2), rect(3, 7)];
    let placed = guillotine_placement(&items, 7, 7, true);
    assert_eq!(
        placed,
        vec![
            (rect(2, 7), at(0, 0), false),
            (rect(7, 2), at(2, 0), true),
            (rect(3, 7), at(4, 0), false),
        ]
    );
}

#[test]
fn guillotine_picks_name_the_items_placed() {
    let items = [rect(6, 6), rect(5, 5), rect(4, 4)];
    let (placed, picks) = guillotine_placement_with_picks(&items, 10, 10, false);
    assert_eq!(placed, vec![(rect(6, 6), at(0, 0), false), (rect(4, 4), at(6, 0), false)]);
    assert_eq!(picks, vec![0, 2]);
}

#[test]
fn skyline_rests_items_on_the_lowest_run() {
    let items = [rect(4, 3), rect(3, 5), rect(6, 2), rect(3, 1)];
    let placed = skyline_placement(&items, 10, 10, false);
    assert_eq!(
        placed,
        vec![
            (rect(4, 3), at(0, 0), false),
            (rect(3, 5), at(4, 0), false),
            (rect(6, 2), at(0, 5), false),
            (rect(3, 1), at(7, 0), false),
        ]
    );
}

#[test]
fn skyline_spans_merged_segments() {
    let items = [rect(5, 2), rect(5, 2), rect(10, 2), rect(1, 1)];
    let placed = skyline_placement(&items, 10, 4, false);
    assert_eq!(
        placed,
        vec![
            (rect(5, 2), at(0, 0), false),
            (rect(5, 2), at(5, 0), false),
            (rect(10, 2), at(0, 2), false),
        ]
    );
}

#[test]
fn skyline_turns_an_item_that_rests_lower_turned() {
    // Upright the second item is too wide for the floor beside the first
    // and has to go on top of it; turned it fits on the floor.
    let items = [rect(6, 2), rect(5, 3)];
    let placed = skyline_placement(&items, 10, 10, true);
    assert_eq!(placed, vec![(rect(6, 2), at(0, 0), false), (rect(5, 3), at(6, 0), true)]);
}

#[test]
fn skyline_picks_name_the_items_placed() {
    let items = [rect(3, 3), rect(3, 3), rect(2, 2)];
    let (placed, picks) = skyline_placement_with_picks(&items, 5, 5, false);
    assert_eq!(placed, vec![(rect(3, 3), at(0, 0), false), (rect(2, 2), at(3, 0), false)]);
    assert_eq!(picks, vec![0, 2]);
}

#[test]
fn true_bl_point_needs_support_on_both_sides() {
    let boxes = [(rect(2, 2), at(0, 0)), (rect(3, 1), at(2, 0))];
    assert!(is_true_bl_point(at(0, 0), &[]));
    assert!(is_true_bl_point(at(0, 0), &boxes));
    // On the floor, against the right edge of the second box.
    assert!(is_true_bl_point(at(5, 0), &boxes));
    // On the second box, against the first.
    assert!(is_true_bl_point(at(2, 1), &boxes));
    // On the first box, against the left wall.
    assert!(is_true_bl_point(at(0, 2), &boxes));
    // On the second box, but nothing to the left at that height.
    assert!(!is_true_bl_point(at(3, 1), &boxes));
    // Against the first box at its upper corner: the box ends there.
    assert!(!is_true_bl_point(at(2, 2), &boxes));
    // In mid-air.
    assert!(!is_true_bl_point(at(7, 4), &boxes));
    // On the floor with nothing to the left.
    assert!(!is_true_bl_point(at(6, 0), &boxes));
}
