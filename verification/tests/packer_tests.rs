use rustpack::{PackAlgorithm, Packer, Rectangle};

#[test]
fn test_packer_basic_usage() {
    let mut packer = Packer::new();

    packer.add_rect(Rectangle { width: 10, height: 15 });
    packer.add_rect(Rectangle { width: 8, height: 12 });

    packer.add_bin(100, 200);

    packer.pack();

    let rects = packer.rect_list();
    assert_eq!(rects.len(), 2);

    assert!(rects.iter().all(|r| r.bin_id == 0));
    assert!(rects.iter().all(|r| r.x + r.width <= 100));
    assert!(rects.iter().all(|r| r.y + r.height <= 200));
}

#[test]
fn test_packer_with_rotation() {
    let mut packer = Packer::new();
    packer.set_pack_algo(PackAlgorithm::MaxRects);
    packer.enable_rotation();

    packer.add_rect(Rectangle { width: 20, height: 10 });
    packer.add_bin(15, 25);

    packer.pack();

    let rects = packer.rect_list();
    assert_eq!(rects.len(), 1);
    assert!(rects[0].rotated);
}

#[test]
fn test_packer_multiple_bins() {
    let mut packer = Packer::new();

    packer.add_rect(Rectangle { width: 50, height: 50 });
    packer.add_rect(Rectangle { width: 50, height: 50 });

    packer.add_bin(60, 60);
    packer.add_bin(60, 60);

    packer.pack();

    let rects = packer.rect_list();
    assert_eq!(rects.len(), 2);

    let bin_ids: std::collections::HashSet<_> = rects.iter().map(|r| r.bin_id).collect();
    assert_eq!(bin_ids.len(), 2);
}

#[test]
fn test_packer_algorithm_selection() {
    let mut packer = Packer::new();

    packer.set_pack_algo(PackAlgorithm::Skyline);

    packer.add_rect(Rectangle { width: 10, height: 10 });
    packer.add_bin(20, 20);

    packer.pack();

    let rects = packer.rect_list();
    assert_eq!(rects.len(), 1);
}

#[test]
fn test_packer_insufficient_space() {
    let mut packer = Packer::new();

    packer.add_rect(Rectangle { width: 100, height: 100 });
    packer.add_bin(50, 50);

    packer.pack();

    let rects = packer.rect_list();
    assert_eq!(rects.len(), 0);
}

#[test]
fn test_packer_exact_fit() {
    let mut packer = Packer::new();

    packer.add_rect(Rectangle { width: 10, height: 10 });
    packer.add_bin(10, 10);

    packer.pack();

    let rects = packer.rect_list();
    assert_eq!(rects.len(), 1);
    assert_eq!(rects[0].x, 0);
    assert_eq!(rects[0].y, 0);
}
