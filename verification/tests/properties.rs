use guillotiere::{
    point2, size2, AllocId, AllocatorOptions, AtlasAllocator, Rectangle, SimpleAtlasAllocator,
};
use std::cell::RefCell;

fn rect(x0: i32, y0: i32, x1: i32, y1: i32) -> Rectangle {
    Rectangle { min: point2(x0, y0), max: point2(x1, y1) }
}

/// The leaves hold cells, lie in the atlas, share no cell and cover the atlas.
fn check_leaves_divide_atlas(atlas: &AtlasAllocator) {
    let whole = Rectangle::from_size(atlas.size());
    let mut leaves = atlas.free_rectangles();
    for alloc in atlas.allocated_rectangles() {
        leaves.push(alloc.rectangle);
    }
    let mut area = 0;
    for (i, a) in leaves.iter().enumerate() {
        assert!(!a.is_empty());
        assert!(whole.contains_box(a));
        area += a.area();
        for (j, b) in leaves.iter().enumerate() {
            if i != j {
                assert!(!a.intersects(b));
            }
        }
    }
    assert_eq!(area, whole.area());
}

#[test]
fn leaves_divide_the_atlas_through_churn() {
    let mut atlas = AtlasAllocator::new(size2(1000, 1000));
    check_leaves_divide_atlas(&atlas);
    let mut ids = Vec::new();
    let sizes = [(100, 1000), (900, 200), (300, 200), (200, 300), (100, 300), (37, 41), (5, 500)];
    for (w, h) in sizes {
        ids.push(atlas.allocate(size2(w, h)).unwrap().id);
        check_leaves_divide_atlas(&atlas);
    }
    atlas.grow(size2(1500, 1200));
    check_leaves_divide_atlas(&atlas);
    for k in [1, 5, 2, 4] {
        atlas.deallocate(ids[k]);
        check_leaves_divide_atlas(&atlas);
    }
    atlas.grow(size2(1500, 2000));
    check_leaves_divide_atlas(&atlas);
    ids.push(atlas.allocate(size2(1400, 700)).unwrap().id);
    check_leaves_divide_atlas(&atlas);
    for k in [0, 3, 6, 7] {
        atlas.deallocate(ids[k]);
        check_leaves_divide_atlas(&atlas);
    }
    assert!(atlas.is_empty());
    assert_eq!(atlas.free_rectangles(), vec![rect(0, 0, 1500, 2000)]);
}

#[test]
fn first_allocations_land_where_the_cuts_put_them() {
    let mut atlas = AtlasAllocator::new(size2(1000, 1000));
    let a = atlas.allocate(size2(100, 1000)).unwrap();
    let b = atlas.allocate(size2(900, 200)).unwrap();
    let c = atlas.allocate(size2(300, 200)).unwrap();
    assert_eq!(a.rectangle, rect(0, 0, 100, 1000));
    assert_eq!(b.rectangle, rect(100, 0, 1000, 200));
    assert_eq!(c.rectangle, rect(100, 200, 400, 400));
    let mut free = atlas.free_rectangles();
    free.sort_by_key(|r| (r.min.x, r.min.y));
    assert_eq!(free, vec![rect(100, 400, 1000, 1000), rect(400, 200, 1000, 400)]);
}

#[test]
fn full_atlas_allocation_is_the_atlas() {
    let mut atlas = AtlasAllocator::new(size2(1000, 1000));
    let full = atlas.allocate(size2(1000, 1000)).unwrap();
    assert_eq!(full.rectangle.min, point2(0, 0));
    assert_eq!(full.rectangle.size(), size2(1000, 1000));
    assert!(atlas.allocate(size2(1, 1)).is_none());
    atlas.deallocate(full.id);
    assert!(atlas.allocate(size2(1000, 1000)).is_some());
}

#[test]
fn extreme_aspect_ratios_are_served() {
    let mut atlas = AtlasAllocator::new(size2(65536, 65536));
    assert!(atlas.allocate(size2(2, 2)).is_some());
    assert!(atlas.allocate(size2(65500, 2)).is_some());
    assert!(atlas.allocate(size2(2, 65500)).is_some());
    check_leaves_divide_atlas(&atlas);
}

#[test]
fn sizes_are_rounded_up_to_the_alignment() {
    let mut atlas = AtlasAllocator::with_options(
        size2(1000, 1000),
        &AllocatorOptions { alignment: size2(5, 2), ..AllocatorOptions::default() },
    );
    let a = atlas.allocate(size2(7, 3)).unwrap();
    assert_eq!(a.rectangle.size(), size2(10, 4));
    assert!(atlas.allocate(size2(-1, 1)).is_none());
    assert!(atlas.allocate(size2(0, 0)).is_none());
    assert!(atlas.allocate(size2(1, 0)).is_none());
    for (w, h) in [(1, 1), (5, 2), (6, 3), (99, 99), (300, 7)] {
        let r = atlas.allocate(size2(w, h)).unwrap().rectangle;
        assert_eq!(r.width() % 5, 0);
        assert_eq!(r.height() % 2, 0);
        assert!(r.width() >= w && r.width() < w + 5);
        assert!(r.height() >= h && r.height() < h + 2);
    }
}

#[test]
fn an_atlas_that_is_no_multiple_of_the_alignment_cannot_be_taken_whole() {
    let mut atlas = AtlasAllocator::with_options(
        size2(1000, 1000),
        &AllocatorOptions { alignment: size2(3, 1), ..AllocatorOptions::default() },
    );
    assert!(atlas.allocate(size2(1000, 1000)).is_none());
    assert_eq!(atlas.allocate(size2(998, 1000)).unwrap().rectangle, rect(0, 0, 999, 1000));
}

#[test]
fn requests_that_cannot_be_rounded_fail() {
    let mut atlas = AtlasAllocator::with_options(
        size2(1000, 1000),
        &AllocatorOptions { alignment: size2(16, 16), ..AllocatorOptions::default() },
    );
    assert!(atlas.allocate(size2(i32::MAX, 1)).is_none());
    assert!(atlas.allocate(size2(1, i32::MAX)).is_none());
    assert!(atlas.is_empty());
}

#[test]
fn handles_stay_valid_until_released() {
    let mut atlas = AtlasAllocator::new(size2(1000, 1000));
    let a = atlas.allocate(size2(10, 10)).unwrap();
    let b = atlas.allocate(size2(200, 300)).unwrap();
    let c = atlas.allocate(size2(40, 400)).unwrap();
    for x in [&a, &b, &c] {
        assert!(atlas.is_allocated(x.id));
        assert_eq!(*atlas.get(x.id), x.rectangle);
    }
    atlas.deallocate(b.id);
    assert!(!atlas.is_allocated(b.id));
    assert!(atlas.is_allocated(a.id));
    assert!(atlas.is_allocated(c.id));
    assert_eq!(*atlas.get(a.id), a.rectangle);
    assert_eq!(*atlas.get(c.id), c.rectangle);
    assert!(!atlas.is_allocated(AllocId::deserialize(0x00ff_ffff)));
}

#[test]
fn a_reused_slot_gets_a_new_generation() {
    let mut atlas = AtlasAllocator::new(size2(1000, 1000));
    let a = atlas.allocate(size2(10, 10)).unwrap();
    let b = atlas.allocate(size2(20, 20)).unwrap();
    atlas.deallocate(b.id);
    atlas.deallocate(a.id);
    let c = atlas.allocate(size2(10, 10)).unwrap();
    let d = atlas.allocate(size2(20, 20)).unwrap();
    assert!(!atlas.is_allocated(a.id));
    assert!(!atlas.is_allocated(b.id));
    assert!(atlas.is_allocated(c.id));
    assert!(atlas.is_allocated(d.id));
    assert_ne!(a.id, c.id);
    assert_ne!(b.id, d.id);
}

#[test]
fn grow_keeps_the_allocations() {
    let mut atlas = AtlasAllocator::new(size2(1000, 1000));
    let a = atlas.allocate(size2(100, 100)).unwrap();
    assert_eq!(a.rectangle, rect(0, 0, 100, 100));
    assert!(atlas.has_room());
    atlas.grow(size2(2000, 1500));
    assert_eq!(atlas.size(), size2(2000, 1500));
    assert!(atlas.is_allocated(a.id));
    assert_eq!(*atlas.get(a.id), a.rectangle);
    let mut free = atlas.free_rectangles();
    free.sort_by_key(|r| (r.min.x, r.min.y));
    assert_eq!(
        free,
        vec![rect(0, 100, 1000, 1500), rect(100, 0, 1000, 100), rect(1000, 0, 2000, 1500)]
    );
    let b = atlas.allocate(size2(1000, 1500)).unwrap();
    assert_eq!(b.rectangle, rect(1000, 0, 2000, 1500));
    atlas.deallocate(a.id);
    atlas.deallocate(b.id);
    assert!(atlas.is_empty());
    assert!(atlas.allocate(size2(2000, 1500)).is_some());
}

#[test]
fn grow_of_an_empty_atlas_stretches_the_free_leaf() {
    let mut atlas = AtlasAllocator::new(size2(1000, 1000));
    atlas.grow(size2(2000, 2000));
    assert_eq!(atlas.size(), size2(2000, 2000));
    assert!(atlas.is_empty());
    assert_eq!(atlas.free_rectangles(), vec![rect(0, 0, 2000, 2000)]);
    assert!(atlas.allocate(size2(2000, 2000)).is_some());
    assert!(atlas.allocate(size2(1, 1)).is_none());
}

#[test]
fn grow_to_the_same_size_changes_nothing() {
    let mut atlas = AtlasAllocator::new(size2(1000, 1000));
    let a = atlas.allocate(size2(10, 10)).unwrap();
    let before = atlas.free_rectangles();
    atlas.grow(size2(1000, 1000));
    assert_eq!(atlas.free_rectangles(), before);
    assert_eq!(*atlas.get(a.id), a.rectangle);
}

#[test]
fn grow_across_a_full_atlas_leaves_an_only_child_that_collapses() {
    let mut atlas = AtlasAllocator::new(size2(1000, 1000));
    let a = atlas.allocate(size2(1000, 1000)).unwrap();
    atlas.grow(size2(2000, 1000));
    assert_eq!(atlas.free_rectangles(), vec![rect(1000, 0, 2000, 1000)]);
    let b = atlas.allocate(size2(1000, 1000)).unwrap();
    assert_eq!(b.rectangle, rect(1000, 0, 2000, 1000));
    atlas.deallocate(a.id);
    assert_eq!(atlas.free_rectangles(), vec![rect(0, 0, 1000, 1000)]);
    check_leaves_divide_atlas(&atlas);
    atlas.deallocate(b.id);
    assert!(atlas.is_empty());
    assert_eq!(atlas.free_rectangles(), vec![rect(0, 0, 2000, 1000)]);
    assert!(atlas.allocate(size2(2000, 1000)).is_some());
}

#[test]
fn releasing_everything_in_any_order_empties_the_atlas() {
    let orders: [[usize; 5]; 4] =
        [[0, 1, 2, 3, 4], [4, 3, 2, 1, 0], [2, 0, 4, 1, 3], [1, 3, 0, 4, 2]];
    for order in orders {
        let mut atlas = AtlasAllocator::new(size2(1000, 1000));
        let mut ids = Vec::new();
        for (w, h) in [(100, 100), (300, 50), (20, 700), (500, 500), (64, 64)] {
            ids.push(atlas.allocate(size2(w, h)).unwrap().id);
        }
        assert!(!atlas.is_empty());
        for k in order {
            atlas.deallocate(ids[k]);
        }
        assert!(atlas.is_empty());
        assert_eq!(atlas.free_rectangles(), vec![rect(0, 0, 1000, 1000)]);
        let full = atlas.allocate(size2(1000, 1000)).unwrap();
        assert_eq!(full.rectangle, rect(0, 0, 1000, 1000));
    }
}

#[test]
fn clear_twice_is_clear_once() {
    let mut atlas = AtlasAllocator::new(size2(1000, 1000));
    atlas.allocate(size2(10, 10)).unwrap();
    atlas.allocate(size2(500, 20)).unwrap();
    atlas.clear();
    assert!(atlas.is_empty());
    assert_eq!(atlas.size(), size2(1000, 1000));
    assert_eq!(atlas.free_rectangles(), vec![rect(0, 0, 1000, 1000)]);
    assert!(atlas.allocated_rectangles().is_empty());
    let first = atlas.allocate(size2(10, 10)).unwrap();
    atlas.clear();
    atlas.clear();
    assert!(atlas.is_empty());
    assert_eq!(atlas.free_rectangles(), vec![rect(0, 0, 1000, 1000)]);
    let again = atlas.allocate(size2(10, 10)).unwrap();
    assert_eq!(again, first);
}

#[test]
fn reset_takes_new_size_and_options() {
    let mut atlas = AtlasAllocator::new(size2(1000, 1000));
    atlas.allocate(size2(10, 10)).unwrap();
    let options = AllocatorOptions { alignment: size2(8, 8), ..AllocatorOptions::default() };
    atlas.reset(size2(64, 32), &options);
    assert!(atlas.is_empty());
    assert_eq!(atlas.size(), size2(64, 32));
    assert_eq!(atlas.options(), options);
    assert_eq!(atlas.allocate(size2(1, 1)).unwrap().rectangle, rect(0, 0, 8, 8));
}

#[test]
fn rearrange_places_the_largest_first_and_keeps_the_sizes() {
    let mut atlas = AtlasAllocator::new(size2(1000, 1000));
    let a = atlas.allocate(size2(10, 10)).unwrap();
    let b = atlas.allocate(size2(500, 500)).unwrap();
    let c = atlas.allocate(size2(100, 100)).unwrap();
    let d = atlas.allocate(size2(30, 30)).unwrap();
    atlas.deallocate(d.id);

    let result = atlas.rearrange();
    assert!(result.failures.is_empty());
    assert_eq!(result.changes.len(), 3);
    assert_eq!(result.changes[0].old, b);
    assert_eq!(result.changes[1].old, c);
    assert_eq!(result.changes[2].old, a);
    assert_eq!(result.changes[0].new.rectangle, rect(0, 0, 500, 500));
    for change in &result.changes {
        assert_eq!(change.new.rectangle.size(), change.old.rectangle.size());
        assert!(atlas.is_allocated(change.new.id));
        assert_eq!(*atlas.get(change.new.id), change.new.rectangle);
    }
    assert_eq!(atlas.allocated_rectangles().len(), 3);
    assert_eq!(atlas.size(), size2(1000, 1000));
    check_leaves_divide_atlas(&atlas);
}

#[test]
fn rearrange_into_a_smaller_atlas_reports_what_does_not_fit() {
    let mut atlas = AtlasAllocator::new(size2(1000, 1000));
    let a = atlas.allocate(size2(50, 50)).unwrap();
    let b = atlas.allocate(size2(500, 500)).unwrap();
    let c = atlas.allocate(size2(200, 100)).unwrap();

    let result = atlas.resize_and_rearrange(size2(400, 400));
    assert_eq!(atlas.size(), size2(400, 400));
    assert_eq!(result.failures, vec![b]);
    assert_eq!(result.changes.len(), 2);
    assert_eq!(result.changes[0].old, c);
    assert_eq!(result.changes[1].old, a);
    assert_eq!(result.changes[0].new.rectangle, rect(0, 0, 200, 100));
    for change in &result.changes {
        assert!(atlas.is_allocated(change.new.id));
    }
    check_leaves_divide_atlas(&atlas);
}

#[test]
fn rearrange_of_an_empty_atlas_is_a_clear() {
    let mut atlas = AtlasAllocator::new(size2(1000, 1000));
    let a = atlas.allocate(size2(50, 50)).unwrap();
    atlas.deallocate(a.id);
    let result = atlas.rearrange();
    assert!(result.changes.is_empty());
    assert!(result.failures.is_empty());
    assert!(atlas.is_empty());
    assert_eq!(atlas.free_rectangles(), vec![rect(0, 0, 1000, 1000)]);
}

#[test]
fn small_requests_take_the_tightest_leaf() {
    let mut atlas = AtlasAllocator::new(size2(1000, 1000));
    assert_eq!(atlas.allocate(size2(500, 400)).unwrap().rectangle, rect(0, 0, 500, 400));
    // Free now: 1000x600 below, 500x400 to the right. Best fit takes the latter.
    assert_eq!(atlas.allocate(size2(20, 20)).unwrap().rectangle, rect(500, 0, 520, 20));
}

#[test]
fn larger_requests_take_the_roomiest_leaf() {
    let mut atlas = AtlasAllocator::new(size2(1000, 1000));
    assert_eq!(atlas.allocate(size2(500, 400)).unwrap().rectangle, rect(0, 0, 500, 400));
    // Free now: 1000x600 below, 500x400 to the right. Worst fit takes the former.
    assert_eq!(atlas.allocate(size2(100, 100)).unwrap().rectangle, rect(0, 400, 100, 500));
}

#[test]
fn callbacks_see_every_rectangle() {
    let mut atlas = AtlasAllocator::new(size2(1000, 1000));
    let a = atlas.allocate(size2(100, 1000)).unwrap();
    let b = atlas.allocate(size2(900, 200)).unwrap();

    let free = RefCell::new(Vec::new());
    atlas.for_each_free_rectangle(|r| free.borrow_mut().push(*r));
    assert_eq!(free.into_inner(), atlas.free_rectangles());
    assert_eq!(atlas.free_rectangles(), vec![rect(100, 200, 1000, 1000)]);

    let seen = RefCell::new(Vec::new());
    atlas.for_each_allocated_rectangle(|id, r| seen.borrow_mut().push((id, *r)));
    let mut seen = seen.into_inner();
    seen.sort_by_key(|(_, r)| r.min.x);
    assert_eq!(seen, vec![(a.id, a.rectangle), (b.id, b.rectangle)]);
}

#[test]
fn simple_allocator_follows_the_same_policy() {
    let mut atlas = SimpleAtlasAllocator::new(size2(1000, 1000));
    assert!(atlas.is_empty());
    assert_eq!(atlas.allocate(size2(500, 400)), Some(rect(0, 0, 500, 400)));
    assert!(!atlas.is_empty());
    assert_eq!(atlas.allocate(size2(20, 20)), Some(rect(500, 0, 520, 20)));
    assert_eq!(atlas.allocate(size2(100, 100)), Some(rect(0, 400, 100, 500)));
    assert_eq!(atlas.size(), size2(1000, 1000));
}

#[test]
fn simple_allocator_breaks_ties_by_order() {
    let mut atlas = SimpleAtlasAllocator::new(size2(1000, 1000));
    assert_eq!(atlas.allocate(size2(500, 500)), Some(rect(0, 0, 500, 500)));
    // Both free rectangles leave a margin of 490: the first entered wins.
    assert_eq!(atlas.allocate(size2(10, 10)), Some(rect(0, 500, 10, 510)));
    assert_eq!(atlas.allocate(size2(300, 300)), Some(rect(500, 0, 800, 300)));
    assert_eq!(atlas.allocate(size2(150, 150)), Some(rect(10, 500, 160, 650)));
}

#[test]
fn simple_allocator_rounds_and_rejects() {
    let mut atlas = SimpleAtlasAllocator::with_options(
        size2(100, 100),
        &AllocatorOptions { alignment: size2(5, 2), ..AllocatorOptions::default() },
    );
    assert_eq!(atlas.allocate(size2(7, 3)), Some(rect(0, 0, 10, 4)));
    assert_eq!(atlas.allocate(size2(0, 3)), None);
    assert_eq!(atlas.allocate(size2(101, 3)), None);
    assert_eq!(atlas.allocate(size2(i32::MAX, 3)), None);
    assert_eq!(atlas.options().alignment, size2(5, 2));
}

#[test]
fn simple_allocator_grows_and_resets() {
    let mut atlas = SimpleAtlasAllocator::new(size2(100, 100));
    assert_eq!(atlas.allocate(size2(100, 100)), Some(rect(0, 0, 100, 100)));
    assert_eq!(atlas.allocate(size2(1, 1)), None);
    atlas.grow(size2(300, 200));
    assert_eq!(atlas.size(), size2(300, 200));
    // The strip to the right of the old atlas is the larger one: it is kept
    // whole, 200x200, and the strip below the old atlas is 100x100.
    assert_eq!(atlas.allocate(size2(300, 100)), None);
    assert_eq!(atlas.allocate(size2(200, 200)), Some(rect(100, 0, 300, 200)));
    assert_eq!(atlas.allocate(size2(100, 100)), Some(rect(0, 100, 100, 200)));
    assert_eq!(atlas.allocate(size2(1, 1)), None);

    atlas.reset(size2(50, 60));
    assert!(atlas.is_empty());
    assert_eq!(atlas.size(), size2(50, 60));
    assert_eq!(atlas.allocate(size2(50, 60)), Some(rect(0, 0, 50, 60)));

    let options = AllocatorOptions { alignment: size2(4, 4), ..AllocatorOptions::default() };
    atlas.reset_with_options(size2(64, 64), &options);
    assert_eq!(atlas.allocate(size2(1, 1)), Some(rect(0, 0, 4, 4)));
    atlas.clear();
    assert!(atlas.is_empty());
    assert_eq!(atlas.allocate(size2(64, 64)), Some(rect(0, 0, 64, 64)));
}

#[test]
fn simple_allocator_takes_over_the_free_rectangles() {
    let mut atlas = AtlasAllocator::new(size2(1000, 1000));
    let a = atlas.allocate(size2(100, 1000)).unwrap();
    let b = atlas.allocate(size2(900, 200)).unwrap();
    let c = atlas.allocate(size2(300, 200)).unwrap();
    atlas.deallocate(b.id);

    let mut simple = SimpleAtlasAllocator::new(size2(10, 10));
    simple.init_from_allocator(&atlas);
    assert_eq!(simple.size(), size2(1000, 1000));

    let mut taken = vec![a.rectangle, c.rectangle];
    let mut area = a.rectangle.area() + c.rectangle.area();
    for (w, h) in [(900, 200), (600, 200), (300, 600), (600, 600)] {
        let r = simple.allocate(size2(w, h)).unwrap();
        for t in &taken {
            assert!(!r.intersects(t));
        }
        area += r.area();
        taken.push(r);
    }
    assert_eq!(area, 1000 * 1000);
    assert_eq!(simple.allocate(size2(1, 1)), None);
}

#[test]
fn simple_allocator_keeps_rectangles_thinner_than_its_alignment() {
    let atlas = AtlasAllocator::new(size2(3, 1000));
    let mut simple = SimpleAtlasAllocator::with_options(
        size2(10, 10),
        &AllocatorOptions { alignment: size2(5, 5), ..AllocatorOptions::default() },
    );
    assert!(simple.allocate(size2(10, 10)).is_some());
    assert!(!simple.is_empty());
    simple.init_from_allocator(&atlas);
    assert_eq!(simple.size(), size2(3, 1000));
    // The one free rectangle of the source is there, although no request
    // rounded to the alignment of the receiver fits in it.
    assert!(simple.is_empty());
    assert_eq!(simple.allocate(size2(1, 1)), None);
    assert_eq!(simple.options().alignment, size2(5, 5));
}

#[test]
fn simple_allocator_takes_each_free_leaf_once() {
    let mut atlas = AtlasAllocator::new(size2(1000, 1000));
    let a = atlas.allocate(size2(998, 1000)).unwrap();
    let b = atlas.allocate(size2(1, 1000)).unwrap();
    atlas.deallocate(b.id);
    assert_eq!(atlas.free_rectangles(), vec![rect(998, 0, 1000, 1000)]);

    let mut simple = SimpleAtlasAllocator::new(size2(10, 10));
    simple.init_from_allocator(&atlas);
    let r = simple.allocate(size2(2, 1000)).unwrap();
    assert_eq!(r, rect(998, 0, 1000, 1000));
    assert!(!r.intersects(&a.rectangle));
    assert_eq!(simple.allocate(size2(1, 1)), None);
}

#[test]
fn handles_decode_to_their_slots() {
    let mut atlas = AtlasAllocator::new(size2(1000, 1000));
    let a = atlas.allocate(size2(10, 10)).unwrap();
    let b = atlas.allocate(size2(200, 300)).unwrap();
    atlas.deallocate(a.id);
    let c = atlas.allocate(size2(10, 10)).unwrap();
    for x in [&b, &c] {
        let index = atlas.get_index(x.id);
        assert_eq!(index, x.id.to_index());
        assert_eq!(index.0, x.id.serialize() & 0x00ff_ffff);
        assert_eq!(x.id.to_generation() as u32, x.id.serialize() >> 24);
        assert_eq!(atlas.alloc_id(index), x.id);
    }
    assert_eq!(AllocId::deserialize(0x0500_0003).to_index().0, 3);
    assert_eq!(AllocId::deserialize(0x0500_0003).to_generation(), 5);
}

#[test]
fn growing_needs_room_only_for_the_nodes_that_it_adds() {
    let mut atlas = AtlasAllocator::new(size2(1000, 1000));
    assert!(atlas.has_room_to_grow(size2(2000, 2000)));
    atlas.allocate(size2(10, 10)).unwrap();
    assert!(atlas.has_room_to_grow(size2(2000, 2000)));
    assert!(atlas.has_room_to_grow(size2(1000, 1000)));
    atlas.grow(size2(2000, 2000));
    assert_eq!(atlas.size(), size2(2000, 2000));
}
