//! Allocator settings, size classes and the rounding of requests.

use vstd::prelude::*;
use crate::geometry::Size;

verus! {

/// The size class of rectangles that are small on both axes.
pub const SMALL_BUCKET: usize = 0;

/// The size class between small and large.
pub const MEDIUM_BUCKET: usize = 1;

/// The size class of rectangles that are large on some axis.
pub const LARGE_BUCKET: usize = 2;

/// The number of size classes.
pub const NUM_BUCKETS: usize = 3;

/// Options to tweak the behavior of the atlas allocators.
#[derive(Copy, Clone, Debug, PartialEq, Eq, Hash, Structural)]
pub struct AllocatorOptions {
    /// Requested widths and heights are rounded up to a multiple of this, per
    /// axis. Both values must be positive. Default: `(1, 1)`.
    pub alignment: Size,
    /// A size below this on both axes is small. Must not exceed
    /// `large_size_threshold`. Default: 32.
    pub small_size_threshold: i32,
    /// A size at or above this on some axis is large. Default: 256.
    pub large_size_threshold: i32,
}

impl AllocatorOptions {
    /// The options that `default` returns.
    pub open spec fn default_spec() -> AllocatorOptions {
        AllocatorOptions {
            alignment: Size { width: 1, height: 1 },
            small_size_threshold: 32,
            large_size_threshold: 256,
        }
    }

    /// The options that an allocator accepts.
    pub open spec fn valid(self) -> bool {
        &&& self.alignment.width > 0
        &&& self.alignment.height > 0
        &&& self.small_size_threshold <= self.large_size_threshold
    }

    /// Whether an allocator accepts these options.
    pub fn is_valid(&self) -> (b: bool)
        ensures
            b == self.valid(),
    {
        self.alignment.width > 0 && self.alignment.height > 0 && self.small_size_threshold
            <= self.large_size_threshold
    }

    /// The size class of `size` under these options.
    pub open spec fn bucket(self, size: Size) -> int {
        bucket_for_size(self.small_size_threshold as int, self.large_size_threshold as int, size)
    }

    /// `size` with each dimension rounded up to the alignment of its axis.
    pub open spec fn aligned(self, size: Size) -> (int, int) {
        (
            round_up(size.width as int, self.alignment.width as int),
            round_up(size.height as int, self.alignment.height as int),
        )
    }

    /// Both dimensions of `size` are multiples of the alignment of their axis.
    pub open spec fn is_aligned(self, size: Size) -> bool {
        &&& size.width as int % self.alignment.width as int == 0
        &&& size.height as int % self.alignment.height as int == 0
    }
}

impl Default for AllocatorOptions {
    fn default() -> (o: AllocatorOptions)
        ensures
            o == AllocatorOptions::default_spec(),
            o.valid(),
    {
        AllocatorOptions {
            alignment: Size { width: 1, height: 1 },
            small_size_threshold: 32,
            large_size_threshold: 256,
        }
    }
}

/// The size class of `size`: large if some dimension reaches `large`, else
/// medium if some dimension reaches `small`, else small.
pub open spec fn bucket_for_size(small: int, large: int, size: Size) -> int {
    if size.width >= large || size.height >= large {
        LARGE_BUCKET as int
    } else if size.width >= small || size.height >= small {
        MEDIUM_BUCKET as int
    } else {
        SMALL_BUCKET as int
    }
}

pub fn free_list_for_size(small_threshold: i32, large_threshold: i32, size: &Size) -> (bucket:
    usize)
    ensures
        bucket == bucket_for_size(small_threshold as int, large_threshold as int, *size),
        bucket < NUM_BUCKETS,
{
    if size.width >= large_threshold || size.height >= large_threshold {
        LARGE_BUCKET
    } else if size.width >= small_threshold || size.height >= small_threshold {
        MEDIUM_BUCKET
    } else {
        SMALL_BUCKET
    }
}

/// The least multiple of `step` that is not below `value`, for a positive
/// `value`; any other `value` is left as it is.
pub open spec fn round_up(value: int, step: int) -> int {
    if value > 0 && step > 0 && value % step != 0 {
        value + step - value % step
    } else {
        value
    }
}

/// For a positive value, rounding up gives a multiple of the step that is not
/// below the value and less than a step above it.
pub proof fn lemma_round_up(value: int, step: int)
    requires
        value > 0,
        step > 0,
    ensures
        round_up(value, step) % step == 0,
        value <= round_up(value, step) < value + step,
{
    let r = value % step;
    let q = value / step;
    assert(value == q * step + r && 0 <= r < step) by (nonlinear_arith)
        requires
            step > 0,
            r == value % step,
            q == value / step,
    ;
    if r != 0 {
        assert((value + step - r) % step == 0) by (nonlinear_arith)
            requires
                value == q * step + r,
                step > 0,
        {
            assert(value + step - r == (q + 1) * step);
        }
    }
}

/// No multiple of the step lies between a positive value and what rounding it
/// up gives.
pub proof fn law_round_up_least(value: int, step: int, m: int)
    requires
        value > 0,
        step > 0,
        m >= value,
        m % step == 0,
    ensures
        m >= round_up(value, step),
{
    let r = value % step;
    let q = value / step;
    assert(value == q * step + r && 0 <= r < step) by (nonlinear_arith)
        requires
            step > 0,
            r == value % step,
            q == value / step,
    ;
    if r != 0 {
        let k = m / step;
        assert(m == k * step) by (nonlinear_arith)
            requires
                step > 0,
                k == m / step,
                m % step == 0,
        ;
        assert(k >= q + 1) by (nonlinear_arith)
            requires
                k * step >= q * step + r,
                r > 0,
                step > 0,
        ;
        assert(k * step >= (q + 1) * step) by (nonlinear_arith)
            requires
                k >= q + 1,
                step > 0,
        ;
        assert((q + 1) * step == q * step + step) by (nonlinear_arith);
    }
}

/// Rounds `size` up to the next multiple of `snap_size`.
pub fn adjust_size(snap_size: i32, size: &mut i32)
    requires
        snap_size > 0,
        round_up(*old(size) as int, snap_size as int) <= i32::MAX,
    ensures
        *final(size) == round_up(*old(size) as int, snap_size as int),
{
    let rem = *size % snap_size;
    proof {
        let step = snap_size as int;
        assert(0int % step == 0) by (nonlinear_arith)
            requires
                step > 0,
        ;
    }
    if rem > 0 {
        *size += snap_size - rem;
    }
}

/// `value` rounded up to the next multiple of `step`, unless that does not
/// fit the integer type.
pub fn snapped(step: i32, value: i32) -> (r: Option<i32>)
    requires
        step > 0,
    ensures
        r == if round_up(value as int, step as int) <= i32::MAX {
            Some(round_up(value as int, step as int) as i32)
        } else {
            None
        },
{
    let rem = value % step;
    proof {
        let s = step as int;
        assert(0int % s == 0) by (nonlinear_arith)
            requires
                s > 0,
        ;
    }
    if rem > 0 && value > i32::MAX - (step - rem) {
        None
    } else {
        let mut v = value;
        adjust_size(step, &mut v);
        Some(v)
    }
}

} // verus!
