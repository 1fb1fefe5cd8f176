use rustpack::{
    bottom_left_placement, guillotine_placement, maxrects_placement, skyline_placement,
    PackAlgorithm, PackedRect, Packer, Position, Rectangle,
};

fn rect(width: u32, height: u32) -> Rectangle {
    Rectangle { width, height }
}

fn packed(x: u32, y: u32, width: u32, height: u32, rotated: bool, bin_id: usize) -> PackedRect {
    PackedRect { x, y, width, height, rotated, bin_id }
}

#[test]
fn three_items_fill_a_small_bin_from_the_origin() {
    let items = [rect(3, 2), rect(1, 4), rect(2, 2)];
    let placed = bottom_left_placement(&items, 5, 5, false);
    assert_eq!(placed.len(), 3);
    assert_eq!(placed[0].1, Position { x: 0, y: 0 });
}

#[test]
fn rotation_places_no_fewer_items() {
    let items = [rect(20, 5), rect(5, 20)];
    let without = maxrects_placement(&items, 25, 25, false);
    let with = maxrects_placement(&items, 25, 25, true);
    assert!(without.len() <= with.len());
    assert_eq!(without.len(), 2);
    assert_eq!(with.len(), 2);
}

#[test]
fn an_exact_fit_goes_to_the_origin_whatever_the_heuristic() {
    let algorithms = [
        PackAlgorithm::BottomLeft,
        PackAlgorithm::MaxRects,
        PackAlgorithm::MaxRectsBssf,
        PackAlgorithm::MaxRectsBaf,
        PackAlgorithm::MaxRectsBlsf,
        PackAlgorithm::Skyline,
        PackAlgorithm::SkylineBl,
        PackAlgorithm::Guillotine,
        PackAlgorithm::GuillotineBssfSas,
    ];
    for algorithm in algorithms {
        let mut packer = Packer::new();
        packer.set_pack_algo(algorithm);
        packer.add_rect(rect(10, 10));
        packer.add_bin(10, 10);
        packer.pack();
        assert_eq!(packer.rect_list(), &[packed(0, 0, 10, 10, false, 0)]);
    }
}

#[test]
fn two_large_items_go_to_two_bins() {
    let mut packer = Packer::new();
    packer.add_rect(rect(50, 50));
    packer.add_rect(rect(50, 50));
    packer.add_bin(60, 60);
    packer.add_bin(60, 60);
    packer.pack();
    assert_eq!(
        packer.rect_list(),
        &[packed(0, 0, 50, 50, false, 0), packed(0, 0, 50, 50, false, 1)]
    );
}

#[test]
fn a_later_bin_takes_what_the_earlier_ones_left() {
    let mut packer = Packer::new();
    packer.add_rect(rect(50, 50));
    packer.add_rect(rect(50, 50));
    packer.add_rect(rect(10, 10));
    packer.add_rect(rect(70, 70));
    packer.add_bin(60, 60);
    packer.add_bin(60, 60);
    packer.pack();
    assert_eq!(
        packer.rect_list(),
        &[
            packed(0, 0, 50, 50, false, 0),
            packed(50, 0, 10, 10, false, 0),
            packed(0, 0, 50, 50, false, 1),
        ]
    );
}

#[test]
fn bins_after_the_last_item_stay_empty() {
    let mut packer = Packer::new();
    packer.set_pack_algo(PackAlgorithm::Skyline);
    packer.add_rect(rect(5, 5));
    packer.add_bin(2, 2);
    packer.add_bin(10, 10);
    packer.add_bin(10, 10);
    packer.pack();
    assert_eq!(packer.rect_list(), &[packed(0, 0, 5, 5, false, 1)]);
}

#[test]
fn an_item_left_by_one_bin_keeps_its_place_among_equals() {
    // The first bin leaves the first of the two 6x6 items and places the
    // second. The next bin is offered the first 6x6 item before the 10x9
    // item, as they were added.
    let mut packer = Packer::new();
    packer.set_pack_algo(PackAlgorithm::BottomLeft);
    packer.add_rect(rect(4, 2));
    packer.add_rect(rect(4, 3));
    packer.add_rect(rect(6, 6));
    packer.add_rect(rect(10, 9));
    packer.add_rect(rect(4, 5));
    packer.add_rect(rect(6, 6));
    packer.add_bin(10, 10);
    packer.add_bin(10, 15);
    packer.pack();
    assert_eq!(
        packer.rect_list(),
        &[
            packed(0, 0, 4, 2, false, 0),
            packed(4, 0, 4, 3, false, 0),
            packed(0, 2, 4, 5, false, 0),
            packed(4, 3, 6, 6, false, 0),
            packed(0, 0, 6, 6, false, 1),
            packed(0, 6, 10, 9, false, 1),
        ]
    );
}

#[test]
fn every_heuristic_places_one_of_two_items_that_cannot_share_a_bin() {
    let items = [rect(3, 3), rect(3, 3)];
    assert_eq!(bottom_left_placement(&items, 5, 5, false).len(), 1);
    assert_eq!(maxrects_placement(&items, 5, 5, false).len(), 1);
    assert_eq!(skyline_placement(&items, 5, 5, false).len(), 1);
    assert_eq!(guillotine_placement(&items, 5, 5, false).len(), 1);
}
