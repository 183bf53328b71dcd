//! The guillotine cut: how a free rectangle is divided around an allocation
//! placed in its top-left corner.

use vstd::prelude::*;
use crate::geometry::{Point, Rectangle, Size};
use crate::node::Orientation;

verus! {

/// `requested` is positive on both axes and no larger than `chosen`.
pub open spec fn fits(chosen: Rectangle, requested: Size) -> bool {
    &&& 0 < requested.width <= chosen.width_spec()
    &&& 0 < requested.height <= chosen.height_spec()
}

/// The strip to the right of the allocation, as tall as the allocation.
pub open spec fn strip_to_right(chosen: Rectangle, requested: Size) -> Rectangle {
    Rectangle {
        min: Point { x: (chosen.min.x + requested.width) as i32, y: chosen.min.y },
        max: Point { x: chosen.max.x, y: (chosen.min.y + requested.height) as i32 },
    }
}

/// The strip below the allocation, as wide as the allocation.
pub open spec fn strip_to_bottom(chosen: Rectangle, requested: Size) -> Rectangle {
    Rectangle {
        min: Point { x: chosen.min.x, y: (chosen.min.y + requested.height) as i32 },
        max: Point { x: (chosen.min.x + requested.width) as i32, y: chosen.max.y },
    }
}

/// The rectangle handed out: `requested` anchored at the corner of `chosen`.
pub open spec fn allocated_rect(chosen: Rectangle, requested: Size) -> Rectangle {
    Rectangle {
        min: chosen.min,
        max: Point {
            x: (chosen.min.x + requested.width) as i32,
            y: (chosen.min.y + requested.height) as i32,
        },
    }
}

/// The cut of `chosen` around `requested`: the split rectangle, the leftover
/// rectangle and the axis along which the split lies beside the rest.
///
/// On an exact fit nothing remains and the axis is `default_orientation`.
/// Otherwise the larger of the two strips is extended to the full length of
/// its side and becomes the split; the other strip is the leftover.
pub open spec fn guillotine_spec(
    chosen: Rectangle,
    requested: Size,
    default_orientation: Orientation,
) -> (Rectangle, Rectangle, Orientation) {
    let right = strip_to_right(chosen, requested);
    let bottom = strip_to_bottom(chosen, requested);
    if requested == chosen.size_spec() {
        (Rectangle::zero_spec(), Rectangle::zero_spec(), default_orientation)
    } else if right.area_spec() > bottom.area_spec() {
        (Rectangle { min: right.min, max: chosen.max }, bottom, Orientation::Horizontal)
    } else {
        (Rectangle { min: bottom.min, max: chosen.max }, right, Orientation::Vertical)
    }
}

pub fn guillotine_rect(
    chosen_rect: &Rectangle,
    requested_size: Size,
    default_orientation: Orientation,
) -> (r: (Rectangle, Rectangle, Orientation))
    requires
        chosen_rect.measurable(),
        0 <= requested_size.width <= chosen_rect.width_spec(),
        0 <= requested_size.height <= chosen_rect.height_spec(),
    ensures
        r == guillotine_spec(*chosen_rect, requested_size, default_orientation),
{
    let candidate_leftover_rect_to_right = Rectangle {
        min: Point { x: chosen_rect.min.x + requested_size.width, y: chosen_rect.min.y },
        max: Point { x: chosen_rect.max.x, y: chosen_rect.min.y + requested_size.height },
    };
    let candidate_leftover_rect_to_bottom = Rectangle {
        min: Point { x: chosen_rect.min.x, y: chosen_rect.min.y + requested_size.height },
        max: Point { x: chosen_rect.min.x + requested_size.width, y: chosen_rect.max.y },
    };

    if requested_size == chosen_rect.size() {
        // Perfect fit.
        (Rectangle::zero(), Rectangle::zero(), default_orientation)
    } else if candidate_leftover_rect_to_right.area() > candidate_leftover_rect_to_bottom.area() {
        let split_rect = Rectangle {
            min: candidate_leftover_rect_to_right.min,
            max: Point { x: chosen_rect.max.x, y: chosen_rect.max.y },
        };
        (split_rect, candidate_leftover_rect_to_bottom, Orientation::Horizontal)
    } else {
        let split_rect = Rectangle {
            min: candidate_leftover_rect_to_bottom.min,
            max: Point { x: chosen_rect.max.x, y: chosen_rect.max.y },
        };
        (split_rect, candidate_leftover_rect_to_right, Orientation::Vertical)
    }
}

/// The shape of a cut. Unless the fit is exact the split holds cells; with the
/// axis `Horizontal` the split is the full-height column right of the
/// allocation and the leftover lies below the allocation, and with `Vertical`
/// the split is the full-width row below it and the leftover lies to its right.
pub proof fn lemma_guillotine_shape(chosen: Rectangle, requested: Size, dflt: Orientation)
    requires
        chosen.measurable(),
        fits(chosen, requested),
    ensures
        ({
            let (split, leftover, orientation) = guillotine_spec(chosen, requested, dflt);
            let alloc = allocated_rect(chosen, requested);
            &&& alloc.min == chosen.min
            &&& alloc.max.x == chosen.min.x + requested.width
            &&& alloc.max.y == chosen.min.y + requested.height
            &&& requested == chosen.size_spec() ==> split.is_empty_spec()
                && leftover.is_empty_spec() && orientation == dflt && alloc == chosen
            &&& requested != chosen.size_spec() ==> !split.is_empty_spec() && split.max
                == chosen.max
            &&& requested != chosen.size_spec() && orientation == Orientation::Horizontal ==> {
                &&& split.min.x == alloc.max.x
                &&& split.min.y == chosen.min.y
                &&& leftover.min.x == chosen.min.x
                &&& leftover.min.y == alloc.max.y
                &&& leftover.max.x == alloc.max.x
                &&& leftover.max.y == chosen.max.y
            }
            &&& requested != chosen.size_spec() && orientation == Orientation::Vertical ==> {
                &&& split.min.x == chosen.min.x
                &&& split.min.y == alloc.max.y
                &&& leftover.min.x == alloc.max.x
                &&& leftover.min.y == chosen.min.y
                &&& leftover.max.x == chosen.max.x
                &&& leftover.max.y == alloc.max.y
            }
        }),
{
    let right = strip_to_right(chosen, requested);
    let bottom = strip_to_bottom(chosen, requested);
    let dx = chosen.width_spec() - requested.width;
    let dy = chosen.height_spec() - requested.height;
    let w = requested.width as int;
    let h = requested.height as int;
    assert(right.width_spec() == dx && right.height_spec() == h);
    assert(bottom.width_spec() == w && bottom.height_spec() == dy);
    if requested != chosen.size_spec() {
        assert(dx > 0 || dy > 0);
        if right.area_spec() > bottom.area_spec() {
            assert(dx > 0);
        } else {
            if dy == 0 {
                assert(dx * h > 0) by (nonlinear_arith)
                    requires
                        dx > 0,
                        h > 0,
                ;
            }
        }
    }
}

} // verus!
