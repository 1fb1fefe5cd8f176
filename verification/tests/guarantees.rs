use rustpack::{
    bottom_left_placement, guillotine_placement, maxrects_placement, skyline_placement, Bin,
    PackAlgorithm, PackedRect, Packer, Position, Rectangle,
};

type Placer = fn(&[Rectangle], u32, u32, bool) -> Vec<(Rectangle, Position, bool)>;

fn placers() -> [Placer; 4] {
    [bottom_left_placement, maxrects_placement, skyline_placement, guillotine_placement]
}

fn algorithms() -> [PackAlgorithm; 9] {
    [
        PackAlgorithm::BottomLeft,
        PackAlgorithm::MaxRects,
        PackAlgorithm::MaxRectsBssf,
        PackAlgorithm::MaxRectsBaf,
        PackAlgorithm::MaxRectsBlsf,
        PackAlgorithm::Skyline,
        PackAlgorithm::SkylineBl,
        PackAlgorithm::Guillotine,
        PackAlgorithm::GuillotineBssfSas,
    ]
}

fn rect(width: u32, height: u32) -> Rectangle {
    Rectangle { width, height }
}

fn mixed_items() -> Vec<Rectangle> {
    (0..60u32).map(|i| rect((i * 7) % 11 + 1, (i * 5) % 9 + 1)).collect()
}

fn overlap(a: (u32, u32, u32, u32), b: (u32, u32, u32, u32)) -> bool {
    a.0 < b.0 + b.2 && b.0 < a.0 + a.2 && a.1 < b.1 + b.3 && b.1 < a.1 + a.3
}

fn footprint(record: &(Rectangle, Position, bool)) -> (u32, u32, u32, u32) {
    let (item, at, rotated) = *record;
    if rotated {
        (at.x, at.y, item.height, item.width)
    } else {
        (at.x, at.y, item.width, item.height)
    }
}

fn is_drawn_in_order(placed: &[(Rectangle, Position, bool)], items: &[Rectangle]) -> bool {
    let mut next = 0;
    for record in placed {
        while next < items.len() && items[next] != record.0 {
            next += 1;
        }
        if next == items.len() {
            return false;
        }
        next += 1;
    }
    true
}

fn source(r: &PackedRect) -> Rectangle {
    if r.rotated {
        rect(r.height, r.width)
    } else {
        rect(r.width, r.height)
    }
}

fn pack(items: &[Rectangle], bins: &[Bin], algorithm: PackAlgorithm, rotate: bool) -> Vec<PackedRect> {
    let mut packer = Packer::new();
    packer.set_pack_algo(algorithm);
    if rotate {
        packer.enable_rotation();
    }
    for item in items {
        packer.add_rect(*item);
    }
    for bin in bins {
        packer.add_bin(bin.width, bin.height);
    }
    packer.pack();
    packer.rect_list().to_vec()
}

fn small_bins() -> Vec<Bin> {
    vec![
        Bin { width: 20, height: 12 },
        Bin { width: 9, height: 30 },
        Bin { width: 15, height: 15 },
        Bin { width: 4, height: 4 },
    ]
}

#[test]
fn layouts_keep_footprints_apart() {
    for place in placers() {
        for rotate in [false, true] {
            let placed = place(&mixed_items(), 30, 25, rotate);
            assert!(placed.len() > 10);
            for i in 0..placed.len() {
                for j in (i + 1)..placed.len() {
                    assert!(!overlap(footprint(&placed[i]), footprint(&placed[j])));
                }
            }
        }
    }
}

#[test]
fn layouts_stay_inside_the_bin() {
    for place in placers() {
        for rotate in [false, true] {
            for record in place(&mixed_items(), 30, 25, rotate) {
                let (x, y, w, h) = footprint(&record);
                assert!(w > 0 && h > 0);
                assert!(x + w <= 30);
                assert!(y + h <= 25);
            }
        }
    }
}

#[test]
fn layouts_place_items_once_and_in_order() {
    for place in placers() {
        for rotate in [false, true] {
            let items = mixed_items();
            let placed = place(&items, 30, 25, rotate);
            assert!(placed.len() < items.len());
            assert!(is_drawn_in_order(&placed, &items));
        }
    }
}

#[test]
fn layouts_turn_nothing_without_leave() {
    for place in placers() {
        let placed = place(&mixed_items(), 30, 25, false);
        assert!(placed.iter().all(|&(_, _, rotated)| !rotated));
    }
}

#[test]
fn layouts_turn_only_items_that_are_not_square() {
    for place in placers() {
        let placed = place(&mixed_items(), 30, 25, true);
        assert!(placed.iter().all(|&(item, _, rotated)| !rotated || item.width != item.height));
    }
}

#[test]
fn packed_rectangles_of_one_bin_do_not_overlap() {
    for algorithm in algorithms() {
        for rotate in [false, true] {
            let list = pack(&mixed_items(), &small_bins(), algorithm, rotate);
            for i in 0..list.len() {
                for j in (i + 1)..list.len() {
                    if list[i].bin_id == list[j].bin_id {
                        let a = (list[i].x, list[i].y, list[i].width, list[i].height);
                        let b = (list[j].x, list[j].y, list[j].width, list[j].height);
                        assert!(!overlap(a, b));
                    }
                }
            }
        }
    }
}

#[test]
fn packed_rectangles_lie_within_their_bins() {
    let bins = small_bins();
    for algorithm in algorithms() {
        for rotate in [false, true] {
            let list = pack(&mixed_items(), &bins, algorithm, rotate);
            assert!(list.len() > 10);
            for r in &list {
                assert!(r.bin_id < bins.len());
                assert!(r.x + r.width <= bins[r.bin_id].width);
                assert!(r.y + r.height <= bins[r.bin_id].height);
            }
        }
    }
}

#[test]
fn packed_rectangles_place_every_item_at_most_once() {
    for algorithm in algorithms() {
        for rotate in [false, true] {
            let mut left = mixed_items();
            for r in pack(&mixed_items(), &small_bins(), algorithm, rotate) {
                let found = left.iter().position(|item| *item == source(&r));
                assert!(found.is_some());
                left.remove(found.unwrap());
            }
        }
    }
}

#[test]
fn packed_rectangles_are_not_turned_without_leave() {
    for algorithm in algorithms() {
        let list = pack(&mixed_items(), &small_bins(), algorithm, false);
        assert!(list.iter().all(|r| !r.rotated));
    }
}

#[test]
fn packed_rectangles_come_bin_after_bin() {
    for algorithm in algorithms() {
        let list = pack(&mixed_items(), &small_bins(), algorithm, true);
        for pair in list.windows(2) {
            assert!(pair[0].bin_id <= pair[1].bin_id);
        }
    }
}

#[test]
fn a_bin_holds_what_the_placer_makes_of_the_items_left() {
    let placers = placers();
    let kinds = [
        PackAlgorithm::BottomLeft,
        PackAlgorithm::MaxRects,
        PackAlgorithm::Skyline,
        PackAlgorithm::Guillotine,
    ];
    let bins = small_bins();
    for (place, algorithm) in placers.iter().zip(kinds) {
        let list = pack(&mixed_items(), &bins, algorithm, true);
        let first = place(&mixed_items(), bins[0].width, bins[0].height, true);
        let in_first: Vec<_> = list.iter().filter(|r| r.bin_id == 0).collect();
        assert_eq!(in_first.len(), first.len());
        for (r, record) in in_first.iter().zip(&first) {
            assert_eq!((r.x, r.y, r.rotated), (record.1.x, record.1.y, record.2));
            assert_eq!(source(r), record.0);
        }
    }
}

#[test]
fn names_of_one_heuristic_pack_alike() {
    let items = mixed_items();
    let bins = small_bins();
    let maxrects = pack(&items, &bins, PackAlgorithm::MaxRects, true);
    assert_eq!(pack(&items, &bins, PackAlgorithm::MaxRectsBssf, true), maxrects);
    assert_eq!(pack(&items, &bins, PackAlgorithm::MaxRectsBaf, true), maxrects);
    assert_eq!(pack(&items, &bins, PackAlgorithm::MaxRectsBlsf, true), maxrects);
    let skyline = pack(&items, &bins, PackAlgorithm::Skyline, true);
    assert_eq!(pack(&items, &bins, PackAlgorithm::SkylineBl, true), skyline);
    let guillotine = pack(&items, &bins, PackAlgorithm::Guillotine, true);
    assert_eq!(pack(&items, &bins, PackAlgorithm::GuillotineBssfSas, true), guillotine);
}
