use guillotiere::guillotine::guillotine_rect;
use guillotiere::node::{AllocIndex, Orientation};
use guillotiere::options::{adjust_size, free_list_for_size, snapped};
use guillotiere::{point2, size2, AllocId, AllocatorOptions, Point, Rectangle, Size};

fn rect(x0: i32, y0: i32, x1: i32, y1: i32) -> Rectangle {
    Rectangle { min: point2(x0, y0), max: point2(x1, y1) }
}

#[test]
fn size_area_counts_cells() {
    assert_eq!(size2(3, 4).area(), 12);
    assert_eq!(size2(65536, 65536).area(), 4294967296);
    assert_eq!(size2(0, 4).area(), 0);
    assert_eq!(size2(-3, 4).area(), 0);
    assert!(size2(0, 4).is_empty());
    assert!(size2(1, -1).is_empty());
    assert!(!size2(1, 1).is_empty());
}

#[test]
fn rectangle_measures() {
    let r = rect(10, 20, 110, 220);
    assert_eq!(r.width(), 100);
    assert_eq!(r.height(), 200);
    assert_eq!(r.size(), size2(100, 200));
    assert_eq!(r.area(), 20000);
    assert!(!r.is_empty());
    assert!(rect(5, 5, 5, 9).is_empty());
    assert_eq!(rect(5, 5, 5, 9).area(), 0);
    assert_eq!(Rectangle::from_size(size2(7, 9)), rect(0, 0, 7, 9));
    assert_eq!(Rectangle::zero(), rect(0, 0, 0, 0));
    assert_eq!(Point::new(1, 2), point2(1, 2));
    assert_eq!(Size::new(1, 2), size2(1, 2));
}

#[test]
fn rectangles_that_touch_do_not_intersect() {
    let a = rect(0, 0, 10, 10);
    assert!(!a.intersects(&rect(10, 0, 20, 10)));
    assert!(!a.intersects(&rect(0, 10, 10, 20)));
    assert!(a.intersects(&rect(9, 9, 20, 20)));
    assert!(a.intersects(&rect(2, 2, 3, 3)));
    assert!(a.contains_box(&rect(2, 2, 3, 3)));
    assert!(a.contains_box(&a));
    assert!(!a.contains_box(&rect(2, 2, 11, 3)));
}

#[test]
fn sizes_fall_in_three_buckets() {
    assert_eq!(free_list_for_size(32, 256, &size2(31, 31)), 0);
    assert_eq!(free_list_for_size(32, 256, &size2(32, 1)), 1);
    assert_eq!(free_list_for_size(32, 256, &size2(1, 32)), 1);
    assert_eq!(free_list_for_size(32, 256, &size2(255, 255)), 1);
    assert_eq!(free_list_for_size(32, 256, &size2(256, 1)), 2);
    assert_eq!(free_list_for_size(32, 256, &size2(1, 1000)), 2);
}

#[test]
fn sizes_round_up_to_the_alignment() {
    let mut v = 7;
    adjust_size(5, &mut v);
    assert_eq!(v, 10);
    let mut v = 10;
    adjust_size(5, &mut v);
    assert_eq!(v, 10);
    let mut v = 1;
    adjust_size(1, &mut v);
    assert_eq!(v, 1);
    let mut v = 0;
    adjust_size(5, &mut v);
    assert_eq!(v, 0);
    let mut v = -3;
    adjust_size(5, &mut v);
    assert_eq!(v, -3);
    assert_eq!(snapped(2, 3), Some(4));
    assert_eq!(snapped(2, i32::MAX), None);
    assert_eq!(snapped(1, i32::MAX), Some(i32::MAX));
}

#[test]
fn default_options_are_valid() {
    let options = AllocatorOptions::default();
    assert_eq!(options.alignment, size2(1, 1));
    assert_eq!(options.small_size_threshold, 32);
    assert_eq!(options.large_size_threshold, 256);
    assert!(options.is_valid());
    assert!(!AllocatorOptions { alignment: size2(0, 1), ..options }.is_valid());
    assert!(!AllocatorOptions { alignment: size2(1, -1), ..options }.is_valid());
    assert!(!AllocatorOptions { small_size_threshold: 257, ..options }.is_valid());
}

#[test]
fn guillotine_keeps_the_larger_strip_whole() {
    let chosen = rect(10, 20, 110, 220);

    // The strip below is the larger one: it becomes the full-width split.
    let (split, leftover, orientation) =
        guillotine_rect(&chosen, size2(30, 50), Orientation::Horizontal);
    assert_eq!(split, rect(10, 70, 110, 220));
    assert_eq!(leftover, rect(40, 20, 110, 70));
    assert_eq!(orientation, Orientation::Vertical);

    // The strip to the right is the larger one: it becomes the full-height split.
    let (split, leftover, orientation) =
        guillotine_rect(&chosen, size2(30, 150), Orientation::Vertical);
    assert_eq!(split, rect(40, 20, 110, 220));
    assert_eq!(leftover, rect(10, 170, 40, 220));
    assert_eq!(orientation, Orientation::Horizontal);
}

#[test]
fn guillotine_of_an_exact_fit_leaves_nothing() {
    let chosen = rect(10, 20, 110, 220);
    let (split, leftover, orientation) =
        guillotine_rect(&chosen, size2(100, 200), Orientation::Horizontal);
    assert_eq!(split, Rectangle::zero());
    assert_eq!(leftover, Rectangle::zero());
    assert_eq!(orientation, Orientation::Horizontal);
    let (_, _, orientation) = guillotine_rect(&chosen, size2(100, 200), Orientation::Vertical);
    assert_eq!(orientation, Orientation::Vertical);
}

#[test]
fn guillotine_with_one_exact_dimension_has_no_leftover() {
    let atlas = rect(0, 0, 1000, 1000);
    let (split, leftover, orientation) =
        guillotine_rect(&atlas, size2(100, 1000), Orientation::Vertical);
    assert_eq!(split, rect(100, 0, 1000, 1000));
    assert!(leftover.is_empty());
    assert_eq!(orientation, Orientation::Horizontal);

    let (split, leftover, orientation) =
        guillotine_rect(&atlas, size2(1000, 200), Orientation::Vertical);
    assert_eq!(split, rect(0, 200, 1000, 1000));
    assert!(leftover.is_empty());
    assert_eq!(orientation, Orientation::Vertical);
}

#[test]
fn index_sentinel_and_orientation() {
    assert!(AllocIndex::none().is_none());
    assert!(!AllocIndex::none().is_some());
    assert!(AllocIndex(0).is_some());
    assert!(!AllocIndex(0).is_none());
    assert_eq!(AllocIndex(17).index(), 17);
    assert_eq!(Orientation::Vertical.flipped(), Orientation::Horizontal);
    assert_eq!(Orientation::Horizontal.flipped(), Orientation::Vertical);
}

#[test]
fn handles_survive_serialization() {
    let id = AllocId::deserialize(0x0300_0007);
    assert_eq!(id.serialize(), 0x0300_0007);
    assert_eq!(AllocId::deserialize(id.serialize()), id);
}
