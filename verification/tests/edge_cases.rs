use rustpack::{
    bottom_left_placement, guillotine_placement, maxrects_placement, skyline_placement,
    PackAlgorithm, Packer, Position, Rectangle,
};

type Placer = fn(&[Rectangle], u32, u32, bool) -> Vec<(Rectangle, Position, bool)>;

fn placers() -> [Placer; 4] {
    [bottom_left_placement, maxrects_placement, skyline_placement, guillotine_placement]
}

fn rect(width: u32, height: u32) -> Rectangle {
    Rectangle { width, height }
}

#[test]
fn no_items_give_no_records() {
    for place in placers() {
        assert_eq!(place(&[], 10, 10, true), vec![]);
    }
}

#[test]
fn an_item_without_area_is_never_placed() {
    let items = [rect(0, 3), rect(3, 0), rect(0, 0), rect(2, 2)];
    for place in placers() {
        for rotate in [false, true] {
            assert_eq!(
                place(&items, 10, 10, rotate),
                vec![(rect(2, 2), Position { x: 0, y: 0 }, false)]
            );
        }
    }
}

#[test]
fn a_bin_without_area_takes_nothing() {
    let items = [rect(1, 1), rect(2, 3)];
    for place in placers() {
        assert_eq!(place(&items, 0, 10, true), vec![]);
        assert_eq!(place(&items, 10, 0, true), vec![]);
        assert_eq!(place(&items, 0, 0, true), vec![]);
    }
}

#[test]
fn an_item_as_large_as_the_bin_fits_exactly() {
    for place in placers() {
        assert_eq!(
            place(&[rect(10, 10)], 10, 10, false),
            vec![(rect(10, 10), Position { x: 0, y: 0 }, false)]
        );
    }
}

#[test]
fn an_item_larger_than_the_bin_is_left_out() {
    for place in placers() {
        assert_eq!(place(&[rect(6, 6)], 5, 5, true), vec![]);
    }
}

#[test]
fn of_two_items_that_cannot_share_the_bin_one_is_placed() {
    for place in placers() {
        assert_eq!(
            place(&[rect(3, 3), rect(3, 3)], 5, 5, true),
            vec![(rect(3, 3), Position { x: 0, y: 0 }, false)]
        );
    }
}

#[test]
fn the_largest_extents_do_not_overflow() {
    let max = u32::MAX;
    for place in placers() {
        assert_eq!(
            place(&[rect(max, max), rect(1, 1)], max, max, true),
            vec![(rect(max, max), Position { x: 0, y: 0 }, false)]
        );
        assert_eq!(
            place(&[rect(max, 1), rect(max, max - 1), rect(1, 1)], max, max, false),
            vec![
                (rect(max, 1), Position { x: 0, y: 0 }, false),
                (rect(max, max - 1), Position { x: 0, y: 1 }, false),
            ]
        );
    }
}

#[test]
fn a_square_is_never_turned() {
    for place in placers() {
        let placed = place(&[rect(3, 3), rect(2, 2), rect(4, 4)], 10, 10, true);
        assert_eq!(placed.len(), 3);
        assert!(placed.iter().all(|&(_, _, rotated)| !rotated));
    }
}

#[test]
fn a_new_packer_has_nothing_packed() {
    let packer = Packer::new();
    assert_eq!(packer.rect_list().len(), 0);
    let packer = Packer::default();
    assert_eq!(packer.rect_list().len(), 0);
}

#[test]
fn a_new_packer_uses_maxrects_without_rotation() {
    // MaxRects puts the third item beside the first; rotation would have
    // put the second one there.
    let mut packer = Packer::new();
    packer.add_rect(rect(4, 3));
    packer.add_rect(rect(3, 5));
    packer.add_rect(rect(6, 2));
    packer.add_bin(10, 10);
    packer.pack();
    let list = packer.rect_list();
    assert_eq!(list.len(), 3);
    assert_eq!((list[1].x, list[1].y, list[1].rotated), (0, 3, false));
    assert_eq!((list[2].x, list[2].y, list[2].rotated), (4, 0, false));
}

#[test]
fn packing_without_bins_or_items_packs_nothing() {
    let mut packer = Packer::new();
    packer.pack();
    assert_eq!(packer.rect_list().len(), 0);

    let mut packer = Packer::new();
    packer.add_rect(rect(1, 1));
    packer.pack();
    assert_eq!(packer.rect_list().len(), 0);

    let mut packer = Packer::new();
    packer.add_bin(10, 10);
    packer.pack();
    assert_eq!(packer.rect_list().len(), 0);
}

#[test]
fn packing_again_starts_afresh() {
    let mut packer = Packer::new();
    packer.add_rect(rect(5, 5));
    packer.add_bin(10, 10);
    packer.pack();
    let first: Vec<_> = packer.rect_list().to_vec();
    packer.pack();
    assert_eq!(packer.rect_list(), &first[..]);

    packer.add_rect(rect(5, 5));
    packer.pack();
    assert_eq!(packer.rect_list().len(), 2);
    assert_eq!(packer.rect_list()[0], first[0]);
}

#[test]
fn results_stay_until_the_next_run() {
    let mut packer = Packer::new();
    packer.add_rect(rect(5, 5));
    packer.add_bin(10, 10);
    packer.pack();
    packer.add_rect(rect(1, 1));
    packer.add_bin(3, 3);
    packer.set_pack_algo(PackAlgorithm::Skyline);
    packer.enable_rotation();
    assert_eq!(packer.rect_list().len(), 1);
}

#[test]
fn rotation_can_be_switched_off_again() {
    let mut packer = Packer::new();
    packer.enable_rotation();
    packer.disable_rotation();
    packer.add_rect(rect(20, 10));
    packer.add_bin(15, 25);
    packer.pack();
    assert_eq!(packer.rect_list().len(), 0);
}

#[test]
fn a_packed_rectangle_holds_the_extents_of_its_footprint() {
    let mut packer = Packer::new();
    packer.enable_rotation();
    packer.add_rect(rect(20, 10));
    packer.add_bin(15, 25);
    packer.pack();
    let list = packer.rect_list();
    assert_eq!(list.len(), 1);
    assert_eq!((list[0].x, list[0].y), (0, 0));
    assert_eq!((list[0].width, list[0].height), (10, 20));
    assert!(list[0].rotated);
    assert_eq!(list[0].bin_id, 0);
}
