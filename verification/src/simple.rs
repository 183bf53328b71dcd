//! A simpler atlas allocator that can allocate rectangles but not deallocate
//! them: it keeps the free rectangles in three buckets and no tree.

use vstd::prelude::*;
use crate::atlas::AtlasAllocator;
use crate::free_list::{accommodates, fit_score, improves, initial_score, perfect_fit};
use crate::geometry::{Point, Rectangle, Size};
use crate::guillotine::{
    allocated_rect, guillotine_rect, guillotine_spec, lemma_guillotine_shape,
};
use crate::node::{AllocId, Orientation};
use crate::options::{
    free_list_for_size, lemma_round_up, round_up, snapped, AllocatorOptions, NUM_BUCKETS,
    SMALL_BUCKET,
};

verus! {

/// The state of a simple allocator as plain values.
pub struct SimpleView {
    /// The free rectangles by size class.
    pub free_rects: Seq<Seq<Rectangle>>,
    pub options: AllocatorOptions,
    /// The extent of the atlas.
    pub size: Size,
}

/// The scan of one bucket of free rectangles from position `pos` on, with the
/// best candidate so far at position `best` and of score `best_score`: the
/// position of the rectangle selected. A perfect fit is selected at once;
/// otherwise the first rectangle of the preferred score is.
pub open spec fn scan_rects(
    list: Seq<Rectangle>,
    req: Size,
    worst_fit: bool,
    pos: int,
    best: Option<int>,
    best_score: int,
) -> Option<int>
    decreases list.len() - pos,
{
    if pos < 0 || pos >= list.len() {
        best
    } else if perfect_fit(list[pos], req) {
        Some(pos)
    } else if accommodates(list[pos], req) && improves(
        worst_fit,
        fit_score(list[pos], req),
        best_score,
    ) {
        scan_rects(list, req, worst_fit, pos + 1, Some(pos), fit_score(list[pos], req))
    } else {
        scan_rects(list, req, worst_fit, pos + 1, best, best_score)
    }
}

/// What a scan selects accommodates the request, and a scan that starts
/// without a candidate selects nothing only if no rectangle from `pos` on
/// accommodates the request.
pub proof fn lemma_scan_rects(
    list: Seq<Rectangle>,
    req: Size,
    worst_fit: bool,
    pos: int,
    best: Option<int>,
    best_score: int,
)
    requires
        0 <= pos <= list.len(),
        best matches Some(c) ==> 0 <= c < pos && accommodates(list[c], req),
        best is None ==> best_score == initial_score(worst_fit),
        req.width > 0,
        req.height > 0,
        forall|k: int|
            0 <= k < list.len() ==> 0 <= (#[trigger] list[k]).min.x <= list[k].max.x && 0
                <= list[k].min.y <= list[k].max.y,
    ensures
        scan_rects(list, req, worst_fit, pos, best, best_score) matches Some(p) ==> 0 <= p
            < list.len() && accommodates(list[p], req),
        (best is None && scan_rects(list, req, worst_fit, pos, best, best_score) is None)
            ==> forall|j: int| pos <= j < list.len() ==> !accommodates(#[trigger] list[j], req),
        best is Some ==> scan_rects(list, req, worst_fit, pos, best, best_score) is Some,
    decreases list.len() - pos,
{
    if pos < list.len() {
        if perfect_fit(list[pos], req) {
        } else if accommodates(list[pos], req) && improves(
            worst_fit,
            fit_score(list[pos], req),
            best_score,
        ) {
            lemma_scan_rects(list, req, worst_fit, pos + 1, Some(pos), fit_score(list[pos], req));
        } else {
            lemma_scan_rects(list, req, worst_fit, pos + 1, best, best_score);
        }
    }
}

impl SimpleView {
    /// The rectangle of the whole atlas.
    pub open spec fn atlas_rect(self) -> Rectangle {
        Rectangle::from_size_spec(self.size)
    }

    /// `r` holds cells and lies in the atlas.
    pub open spec fn rect_ok(self, r: Rectangle) -> bool {
        &&& 0 <= r.min.x < r.max.x <= self.size.width
        &&& 0 <= r.min.y < r.max.y <= self.size.height
    }

    /// `r` is one of the free rectangles.
    pub open spec fn is_free_rect(self, r: Rectangle) -> bool {
        exists|b: int, k: int|
            0 <= b < 3 && 0 <= k < self.free_rects[b].len() && #[trigger] self.free_rects[b][k]
                == r
    }

    /// The cell at `(x, y)` lies in a free rectangle.
    pub open spec fn free_at(self, x: int, y: int) -> bool {
        exists|b: int, k: int|
            0 <= b < 3 && 0 <= k < self.free_rects[b].len() && (
            #[trigger] self.free_rects[b][k]).contains_cell(x, y)
    }

    /// The invariant of the allocator: the options are valid, and the free
    /// rectangles hold cells, lie in the atlas and share no cell.
    pub open spec fn wf(self) -> bool {
        &&& self.free_rects.len() == 3
        &&& self.options.valid()
        &&& self.size.width > 0
        &&& self.size.height > 0
        &&& forall|b: int, k: int|
            0 <= b < 3 && 0 <= k < self.free_rects[b].len() ==> self.rect_ok(
                #[trigger] self.free_rects[b][k],
            )
        &&& forall|b: int, k: int, c: int, l: int|
            0 <= b < 3 && 0 <= k < self.free_rects[b].len() && 0 <= c < 3 && 0 <= l
                < self.free_rects[c].len() && (b != c || k != l) ==> !(
            #[trigger] self.free_rects[b][k]).intersects_spec(#[trigger] self.free_rects[c][l])
    }

    /// `r` is large enough to be kept as a free rectangle: no smaller than
    /// the alignment on either axis.
    pub open spec fn worth_keeping(self, r: Rectangle) -> bool {
        r.width_spec() >= self.options.alignment.width && r.height_spec()
            >= self.options.alignment.height
    }

    /// The state after `r` is entered in the bucket of its size.
    pub open spec fn with_rect(self, r: Rectangle) -> SimpleView {
        let b = self.options.bucket(r.size_spec());
        SimpleView { free_rects: self.free_rects.update(b, self.free_rects[b].push(r)), ..self }
    }

    /// The state after `r` is entered in the bucket of its size, if it is
    /// worth keeping.
    pub open spec fn with_free_rect(self, r: Rectangle) -> SimpleView {
        if self.worth_keeping(r) {
            self.with_rect(r)
        } else {
            self
        }
    }

    /// The state after the first `n` of `rects` are entered one by one, each
    /// in the bucket of its size.
    pub open spec fn with_rects(self, rects: Seq<Rectangle>, n: int) -> SimpleView
        decreases n,
    {
        if n <= 0 {
            self
        } else {
            self.with_rects(rects, n - 1).with_rect(rects[n - 1])
        }
    }

    /// The number of free rectangles.
    pub open spec fn count(self) -> int {
        self.free_rects[0].len() + self.free_rects[1].len() + self.free_rects[2].len() as int
    }

    /// The state of a new allocator.
    pub open spec fn initial(size: Size, options: AllocatorOptions) -> SimpleView {
        SimpleView {
            free_rects: Seq::new(
                3,
                |b: int|
                    if b == options.bucket(size) {
                        seq![Rectangle::from_size_spec(size)]
                    } else {
                        Seq::empty()
                    },
            ),
            options,
            size,
        }
    }

    /// `requested` with each dimension rounded up to the alignment of its axis.
    pub open spec fn snapped(self, requested: Size) -> Size {
        Size {
            width: round_up(requested.width as int, self.options.alignment.width as int) as i32,
            height: round_up(requested.height as int, self.options.alignment.height as int) as i32,
        }
    }

    /// `requested` is positive on both axes and can be rounded up to the
    /// alignment without leaving the integer range.
    pub open spec fn snappable(self, requested: Size) -> bool {
        &&& 0 < requested.width
        &&& 0 < requested.height
        &&& round_up(requested.width as int, self.options.alignment.width as int) <= i32::MAX
        &&& round_up(requested.height as int, self.options.alignment.height as int) <= i32::MAX
    }

    /// The search through the buckets from `bucket` up for a free rectangle
    /// for the rounded size `req`: the bucket and the position of the
    /// rectangle that the scan of the first bucket with a fit selects.
    pub open spec fn find(self, req: Size, worst_fit: bool, bucket: int) -> Option<(int, int)>
        decreases 3 - bucket,
    {
        if bucket < 0 || bucket >= 3 {
            None
        } else {
            match scan_rects(
                self.free_rects[bucket],
                req,
                worst_fit,
                0,
                None,
                initial_score(worst_fit),
            ) {
                Some(pos) => Some((bucket, pos)),
                None => self.find(req, worst_fit, bucket + 1),
            }
        }
    }

    /// The free rectangle that an allocation of `requested` is cut from, as
    /// its bucket and its position there.
    pub open spec fn chosen(self, requested: Size) -> Option<(int, int)> {
        let req = self.snapped(requested);
        if self.snappable(requested) {
            self.find(req, self.options.bucket(req) != SMALL_BUCKET, self.options.bucket(req))
        } else {
            None
        }
    }

    /// The state after the rectangle at position `pos` of bucket `b` is cut
    /// for an allocation of the rounded size `req`: the rectangle leaves its
    /// bucket, and the split and the leftover of the cut are entered.
    pub open spec fn after_cut(self, b: int, pos: int, req: Size) -> SimpleView {
        let rect = self.free_rects[b][pos];
        let (split, leftover, o) = guillotine_spec(rect, req, Orientation::Vertical);
        SimpleView {
            free_rects: self.free_rects.update(b, self.free_rects[b].remove(pos)),
            ..self
        }.with_free_rect(split).with_free_rect(leftover)
    }

    /// The state after the atlas grows to `new_size`: the area gained is
    /// entered as the split and the leftover of the cut of the new atlas
    /// around the old one.
    pub open spec fn after_grow(self, new_size: Size) -> SimpleView {
        let (split, leftover, o) = guillotine_spec(
            Rectangle::from_size_spec(new_size),
            self.size,
            Orientation::Vertical,
        );
        SimpleView { size: new_size, ..self }.with_free_rect(split).with_free_rect(leftover)
    }
}

/// A rectangle that holds cells, lies in the atlas and meets no free
/// rectangle can be entered: the invariant is kept, and the free rectangles
/// are those before and the new one, one more than before.
pub proof fn lemma_with_rect(v: SimpleView, r: Rectangle)
    requires
        v.wf(),
        v.rect_ok(r),
        forall|b: int, k: int|
            0 <= b < 3 && 0 <= k < v.free_rects[b].len() ==> !(
            #[trigger] v.free_rects[b][k]).intersects_spec(r),
    ensures
        v.with_rect(r).wf(),
        v.with_rect(r).size == v.size,
        v.with_rect(r).options == v.options,
        v.with_rect(r).count() == v.count() + 1,
        v.with_rect(r).is_free_rect(r),
        forall|b: int, k: int|
            0 <= b < 3 && 0 <= k < v.free_rects[b].len() ==> v.with_rect(r).is_free_rect(
                #[trigger] v.free_rects[b][k],
            ),
        forall|b: int, k: int|
            0 <= b < 3 && 0 <= k < v.with_rect(r).free_rects[b].len() ==> (
            #[trigger] v.with_rect(r).free_rects[b][k]) == r || v.is_free_rect(
                v.with_rect(r).free_rects[b][k],
            ),
{
    let t = v.with_rect(r);
    let b0 = v.options.bucket(r.size_spec());
    let n = v.free_rects[b0].len() as int;
    assert(t.free_rects[b0][n] == r);
    assert forall|b: int, k: int| 0 <= b < 3 && 0 <= k < v.free_rects[b].len() implies t.is_free_rect(
        #[trigger] v.free_rects[b][k],
    ) by {
        assert(t.free_rects[b][k] == v.free_rects[b][k]);
    }
    assert forall|b: int, k: int| 0 <= b < 3 && 0 <= k < t.free_rects[b].len() implies (
    #[trigger] t.free_rects[b][k]) == r || v.is_free_rect(t.free_rects[b][k]) by {
        if !(b == b0 && k == n) {
            assert(t.free_rects[b][k] == v.free_rects[b][k]);
        }
    }
    assert forall|b: int, k: int, c: int, l: int|
        0 <= b < 3 && 0 <= k < t.free_rects[b].len() && 0 <= c < 3 && 0 <= l
            < t.free_rects[c].len() && (b != c || k != l) implies !(
    #[trigger] t.free_rects[b][k]).intersects_spec(#[trigger] t.free_rects[c][l]) by {
        if !(b == b0 && k == n) {
            assert(t.free_rects[b][k] == v.free_rects[b][k]);
        }
        if !(c == b0 && l == n) {
            assert(t.free_rects[c][l] == v.free_rects[c][l]);
        }
    }
}

/// A rectangle that is empty, or holds cells and lies in the atlas, and that
/// meets no free rectangle can be offered: the invariant is kept, and the
/// free rectangles are those before and, if it was worth keeping, the new
/// one.
pub proof fn lemma_with_free_rect(v: SimpleView, r: Rectangle)
    requires
        v.wf(),
        r.is_empty_spec() || v.rect_ok(r),
        forall|b: int, k: int|
            0 <= b < 3 && 0 <= k < v.free_rects[b].len() ==> !(
            #[trigger] v.free_rects[b][k]).intersects_spec(r),
    ensures
        v.with_free_rect(r).wf(),
        v.with_free_rect(r).size == v.size,
        v.with_free_rect(r).options == v.options,
        forall|b: int, k: int|
            0 <= b < 3 && 0 <= k < v.with_free_rect(r).free_rects[b].len() ==> (
            #[trigger] v.with_free_rect(r).free_rects[b][k]) == r || v.is_free_rect(
                v.with_free_rect(r).free_rects[b][k],
            ),
{
    let t = v.with_free_rect(r);
    if v.worth_keeping(r) {
        lemma_with_rect(v, r);
    } else {
        assert forall|b: int, k: int| 0 <= b < 3 && 0 <= k < t.free_rects[b].len() implies (
        #[trigger] t.free_rects[b][k]) == r || v.is_free_rect(t.free_rects[b][k]) by {}
    }
}

/// Cutting a free rectangle that accommodates the request keeps the
/// invariant. The rectangle allocated lies in the atlas, and every cell that
/// is free afterwards was free before and is not part of it.
pub proof fn lemma_after_cut(v: SimpleView, b: int, pos: int, req: Size)
    requires
        v.wf(),
        0 <= b < 3,
        0 <= pos < v.free_rects[b].len(),
        req.width > 0,
        req.height > 0,
        accommodates(v.free_rects[b][pos], req),
    ensures
        v.after_cut(b, pos, req).wf(),
        v.after_cut(b, pos, req).size == v.size,
        v.after_cut(b, pos, req).options == v.options,
        v.rect_ok(allocated_rect(v.free_rects[b][pos], req)),
        v.free_rects[b][pos].contains_box_spec(allocated_rect(v.free_rects[b][pos], req)),
        forall|x: int, y: int|
            v.after_cut(b, pos, req).free_at(x, y) ==> v.free_at(x, y) && !allocated_rect(
                v.free_rects[b][pos],
                req,
            ).contains_cell(x, y),
        forall|c: int, l: int|
            0 <= c < 3 && 0 <= l < v.after_cut(b, pos, req).free_rects[c].len() ==> !(
            #[trigger] v.after_cut(b, pos, req).free_rects[c][l]).intersects_spec(
                allocated_rect(v.free_rects[b][pos], req),
            ),
{
    let rect = v.free_rects[b][pos];
    let alloc = allocated_rect(rect, req);
    let (split, leftover, o) = guillotine_spec(rect, req, Orientation::Vertical);
    assert(v.rect_ok(rect));
    lemma_guillotine_shape(rect, req, Orientation::Vertical);
    let v1 = SimpleView { free_rects: v.free_rects.update(b, v.free_rects[b].remove(pos)), ..v };
    assert forall|c: int, l: int| 0 <= c < 3 && 0 <= l < v1.free_rects[c].len() implies (
    #[trigger] v1.free_rects[c][l]) != rect && v.is_free_rect(v1.free_rects[c][l]) && !rect.intersects_spec(
        v1.free_rects[c][l],
    ) by {
        if c == b {
            if l < pos {
                assert(v1.free_rects[c][l] == v.free_rects[b][l]);
            } else {
                assert(v1.free_rects[c][l] == v.free_rects[b][l + 1]);
            }
        } else {
            assert(v1.free_rects[c][l] == v.free_rects[c][l]);
        }
    }
    assert(v1.wf()) by {
        assert forall|c: int, l: int, d: int, m: int|
            0 <= c < 3 && 0 <= l < v1.free_rects[c].len() && 0 <= d < 3 && 0 <= m
                < v1.free_rects[d].len() && (c != d || l != m) implies !(
        #[trigger] v1.free_rects[c][l]).intersects_spec(#[trigger] v1.free_rects[d][m]) by {
            let l0 = if c == b && l >= pos {
                l + 1
            } else {
                l
            };
            let m0 = if d == b && m >= pos {
                m + 1
            } else {
                m
            };
            assert(v1.free_rects[c][l] == v.free_rects[c][l0]);
            assert(v1.free_rects[d][m] == v.free_rects[d][m0]);
        }
    }
    lemma_with_free_rect(v1, split);
    let v2 = v1.with_free_rect(split);
    assert forall|c: int, l: int| 0 <= c < 3 && 0 <= l < v2.free_rects[c].len() implies !(
    #[trigger] v2.free_rects[c][l]).intersects_spec(leftover) && !v2.free_rects[c][l].intersects_spec(
        alloc,
    ) && (v2.free_rects[c][l] == split || v.is_free_rect(v2.free_rects[c][l])) by {
        let e = v2.free_rects[c][l];
        if e != split {
            assert(v1.is_free_rect(e));
            let (c1, l1) = choose|c1: int, l1: int|
                0 <= c1 < 3 && 0 <= l1 < v1.free_rects[c1].len() && #[trigger] v1.free_rects[c1][l1]
                    == e;
            assert(!rect.intersects_spec(v1.free_rects[c1][l1]));
            assert(v1.rect_ok(v1.free_rects[c1][l1]));
        }
    }
    lemma_with_free_rect(v2, leftover);
    let v3 = v2.with_free_rect(leftover);
    assert(v3 == v.after_cut(b, pos, req));
    assert forall|c: int, l: int| 0 <= c < 3 && 0 <= l < v3.free_rects[c].len() implies !(
    #[trigger] v3.free_rects[c][l]).intersects_spec(alloc) && (v3.free_rects[c][l] == split
        || v3.free_rects[c][l] == leftover || v.is_free_rect(v3.free_rects[c][l])) by {
        let e = v3.free_rects[c][l];
        if e != leftover {
            assert(v2.is_free_rect(e));
            let (c1, l1) = choose|c1: int, l1: int|
                0 <= c1 < 3 && 0 <= l1 < v2.free_rects[c1].len() && #[trigger] v2.free_rects[c1][l1]
                    == e;
            assert(!v2.free_rects[c1][l1].intersects_spec(alloc));
        }
    }
    assert forall|x: int, y: int| v3.free_at(x, y) implies v.free_at(x, y) && !alloc.contains_cell(
        x,
        y,
    ) by {
        let (c, l) = choose|c: int, l: int|
            0 <= c < 3 && 0 <= l < v3.free_rects[c].len() && (
            #[trigger] v3.free_rects[c][l]).contains_cell(x, y);
        let e = v3.free_rects[c][l];
        assert(!e.intersects_spec(alloc));
        if e == split || e == leftover {
            assert(rect.contains_cell(x, y));
            assert(v.free_rects[b][pos].contains_cell(x, y));
        } else {
            assert(v.is_free_rect(e));
            let (c1, l1) = choose|c1: int, l1: int|
                0 <= c1 < 3 && 0 <= l1 < v.free_rects[c1].len() && #[trigger] v.free_rects[c1][l1]
                    == e;
            assert(v.free_rects[c1][l1].contains_cell(x, y));
        }
    }
}

/// Some free rectangle in a bucket from `bucket` up accommodates `req`.
pub open spec fn any_fit(v: SimpleView, req: Size, bucket: int) -> bool {
    exists|b: int, k: int|
        bucket <= b < 3 && 0 <= k < v.free_rects[b].len() && accommodates(
            #[trigger] v.free_rects[b][k],
            req,
        )
}

/// The search selects a free rectangle exactly when some bucket from
/// `bucket` up holds one that accommodates the request, and what it selects
/// accommodates the request.
pub proof fn lemma_find_rects(v: SimpleView, req: Size, worst_fit: bool, bucket: int)
    requires
        v.wf(),
        0 <= bucket <= 3,
        req.width > 0,
        req.height > 0,
    ensures
        v.find(req, worst_fit, bucket) is Some <==> any_fit(v, req, bucket),
        v.find(req, worst_fit, bucket) matches Some((b, pos)) ==> bucket <= b < 3 && 0 <= pos
            < v.free_rects[b].len() && accommodates(v.free_rects[b][pos], req),
    decreases 3 - bucket,
{
    if bucket < 3 {
        let list = v.free_rects[bucket];
        assert forall|k: int| 0 <= k < list.len() implies 0 <= (#[trigger] list[k]).min.x
            <= list[k].max.x && 0 <= list[k].min.y <= list[k].max.y by {
            assert(v.rect_ok(v.free_rects[bucket][k]));
        }
        lemma_scan_rects(list, req, worst_fit, 0, None, initial_score(worst_fit));
        lemma_find_rects(v, req, worst_fit, bucket + 1);
        match scan_rects(list, req, worst_fit, 0, None, initial_score(worst_fit)) {
            Some(pos) => {
                assert(accommodates(v.free_rects[bucket][pos], req));
            },
            None => {
                if any_fit(v, req, bucket) {
                    let (b, k) = choose|b: int, k: int|
                        bucket <= b < 3 && 0 <= k < v.free_rects[b].len() && accommodates(
                            #[trigger] v.free_rects[b][k],
                            req,
                        );
                    if b == bucket {
                        assert(!accommodates(list[k], req));
                    }
                    assert(accommodates(v.free_rects[b][k], req));
                    assert(any_fit(v, req, bucket + 1));
                }
                if any_fit(v, req, bucket + 1) {
                    let (b, k) = choose|b: int, k: int|
                        bucket + 1 <= b < 3 && 0 <= k < v.free_rects[b].len() && accommodates(
                            #[trigger] v.free_rects[b][k],
                            req,
                        );
                    assert(accommodates(v.free_rects[b][k], req));
                }
            },
        }
    } else {
        if any_fit(v, req, bucket) {
            let (b, k) = choose|b: int, k: int|
                bucket <= b < 3 && 0 <= k < v.free_rects[b].len() && accommodates(
                    #[trigger] v.free_rects[b][k],
                    req,
                );
        }
    }
}

/// Growing the atlas keeps the invariant: the area gained is entered as free
/// rectangles, and the free rectangles that there were stay.
pub proof fn lemma_after_grow(v: SimpleView, new_size: Size)
    requires
        v.wf(),
        new_size.width >= v.size.width,
        new_size.height >= v.size.height,
    ensures
        v.after_grow(new_size).wf(),
        v.after_grow(new_size).size == new_size,
        v.after_grow(new_size).options == v.options,
{
    let atlas = Rectangle::from_size_spec(new_size);
    let (split, leftover, o) = guillotine_spec(atlas, v.size, Orientation::Vertical);
    lemma_guillotine_shape(atlas, v.size, Orientation::Vertical);
    let v1 = SimpleView { size: new_size, ..v };
    assert(v1.wf()) by {
        assert forall|b: int, k: int| 0 <= b < 3 && 0 <= k < v1.free_rects[b].len() implies v1.rect_ok(
            #[trigger] v1.free_rects[b][k],
        ) by {
            assert(v.rect_ok(v.free_rects[b][k]));
        }
    }
    assert forall|b: int, k: int| 0 <= b < 3 && 0 <= k < v1.free_rects[b].len() implies !(
    #[trigger] v1.free_rects[b][k]).intersects_spec(split) && !v1.free_rects[b][k].intersects_spec(
        leftover,
    ) by {
        assert(v.rect_ok(v.free_rects[b][k]));
    }
    lemma_with_free_rect(v1, split);
    let v2 = v1.with_free_rect(split);
    assert forall|b: int, k: int| 0 <= b < 3 && 0 <= k < v2.free_rects[b].len() implies !(
    #[trigger] v2.free_rects[b][k]).intersects_spec(leftover) by {
        let e = v2.free_rects[b][k];
        if e != split {
            assert(v1.is_free_rect(e));
            let (c, l) = choose|c: int, l: int|
                0 <= c < 3 && 0 <= l < v1.free_rects[c].len() && #[trigger] v1.free_rects[c][l]
                    == e;
            assert(!v1.free_rects[c][l].intersects_spec(leftover));
        }
    }
    lemma_with_free_rect(v2, leftover);
}

/// Entering rectangles that hold cells, lie in the atlas and share no cell
/// with one another or with a free rectangle keeps the invariant. The free
/// rectangles are then those before and the ones entered, each once.
pub proof fn lemma_with_rects(v: SimpleView, rects: Seq<Rectangle>, n: int)
    requires
        v.wf(),
        0 <= n <= rects.len(),
        forall|k: int| 0 <= k < rects.len() ==> v.rect_ok(#[trigger] rects[k]),
        forall|k: int, l: int|
            0 <= k < l < rects.len() ==> !(#[trigger] rects[k]).intersects_spec(
                #[trigger] rects[l],
            ),
        forall|b: int, j: int, k: int|
            0 <= b < 3 && 0 <= j < v.free_rects[b].len() && 0 <= k < rects.len() ==> !(
            #[trigger] v.free_rects[b][j]).intersects_spec(#[trigger] rects[k]),
    ensures
        v.with_rects(rects, n).wf(),
        v.with_rects(rects, n).size == v.size,
        v.with_rects(rects, n).options == v.options,
        v.with_rects(rects, n).count() == v.count() + n,
        forall|k: int| 0 <= k < n ==> v.with_rects(rects, n).is_free_rect(#[trigger] rects[k]),
        forall|b: int, j: int|
            0 <= b < 3 && 0 <= j < v.free_rects[b].len() ==> v.with_rects(rects, n).is_free_rect(
                #[trigger] v.free_rects[b][j],
            ),
        forall|b: int, j: int|
            0 <= b < 3 && 0 <= j < v.with_rects(rects, n).free_rects[b].len() ==> v.is_free_rect(
                #[trigger] v.with_rects(rects, n).free_rects[b][j],
            ) || exists|k: int|
                0 <= k < n && #[trigger] rects[k] == v.with_rects(rects, n).free_rects[b][j],
    decreases n,
{
    if n > 0 {
        lemma_with_rects(v, rects, n - 1);
        let v1 = v.with_rects(rects, n - 1);
        let r = rects[n - 1];
        assert forall|b: int, j: int| 0 <= b < 3 && 0 <= j < v1.free_rects[b].len() implies !(
        #[trigger] v1.free_rects[b][j]).intersects_spec(r) by {
            let e = v1.free_rects[b][j];
            if v.is_free_rect(e) {
                let (c, l) = choose|c: int, l: int|
                    0 <= c < 3 && 0 <= l < v.free_rects[c].len() && #[trigger] v.free_rects[c][l]
                        == e;
                assert(!v.free_rects[c][l].intersects_spec(rects[n - 1]));
            } else {
                let k = choose|k: int| 0 <= k < n - 1 && #[trigger] rects[k] == e;
                assert(!rects[k].intersects_spec(rects[n - 1]));
            }
        }
        lemma_with_rect(v1, r);
        let v2 = v1.with_rect(r);
        assert forall|k: int| 0 <= k < n implies v2.is_free_rect(#[trigger] rects[k]) by {
            if k < n - 1 {
                assert(v1.is_free_rect(rects[k]));
                let (c, l) = choose|c: int, l: int|
                    0 <= c < 3 && 0 <= l < v1.free_rects[c].len() && #[trigger] v1.free_rects[c][l]
                        == rects[k];
                assert(v2.is_free_rect(v1.free_rects[c][l]));
            }
        }
        assert forall|b: int, j: int| 0 <= b < 3 && 0 <= j < v.free_rects[b].len() implies v2.is_free_rect(
            #[trigger] v.free_rects[b][j],
        ) by {
            assert(v1.is_free_rect(v.free_rects[b][j]));
            let (c, l) = choose|c: int, l: int|
                0 <= c < 3 && 0 <= l < v1.free_rects[c].len() && #[trigger] v1.free_rects[c][l]
                    == v.free_rects[b][j];
            assert(v2.is_free_rect(v1.free_rects[c][l]));
        }
        assert forall|b: int, j: int| 0 <= b < 3 && 0 <= j < v2.free_rects[b].len() implies v.is_free_rect(
            #[trigger] v2.free_rects[b][j],
        ) || exists|k: int| 0 <= k < n && #[trigger] rects[k] == v2.free_rects[b][j] by {
            let e = v2.free_rects[b][j];
            if e == r {
                assert(rects[n - 1] == e);
            } else {
                assert(v1.is_free_rect(e));
                let (c, l) = choose|c: int, l: int|
                    0 <= c < 3 && 0 <= l < v1.free_rects[c].len() && #[trigger] v1.free_rects[c][l]
                        == e;
                if !v.is_free_rect(v1.free_rects[c][l]) {
                    let k = choose|k: int|
                        0 <= k < n - 1 && #[trigger] rects[k] == v1.free_rects[c][l];
                    assert(rects[k] == e);
                }
            }
        }
    }
}

/// A simpler atlas allocator implementation that can allocate rectangles but
/// not deallocate them.
pub struct SimpleAtlasAllocator {
    free_rects: [Vec<Rectangle>; 3],
    alignment: Size,
    small_size_threshold: i32,
    large_size_threshold: i32,
    size: Size,
}

impl View for SimpleAtlasAllocator {
    type V = SimpleView;

    closed spec fn view(&self) -> SimpleView {
        SimpleView {
            free_rects: Seq::new(3, |b: int| self.free_rects@[b]@),
            options: AllocatorOptions {
                alignment: self.alignment,
                small_size_threshold: self.small_size_threshold,
                large_size_threshold: self.large_size_threshold,
            },
            size: self.size,
        }
    }
}

/// A new allocator is well formed.
pub proof fn lemma_simple_initial(size: Size, options: AllocatorOptions)
    requires
        options.valid(),
        size.width > 0,
        size.height > 0,
    ensures
        SimpleView::initial(size, options).wf(),
{
}

/// Scans one bucket for the rectangle to allocate from, and returns its
/// position.
fn scan_free_rects(list: &Vec<Rectangle>, requested_size: &Size, use_worst_fit: bool) -> (found:
    Option<usize>)
    requires
        requested_size.width > 0,
        requested_size.height > 0,
        forall|k: int|
            0 <= k < list@.len() ==> 0 <= (#[trigger] list@[k]).min.x <= list@[k].max.x && 0
                <= list@[k].min.y <= list@[k].max.y,
    ensures
        crate::atlas::position(found) == scan_rects(
            list@,
            *requested_size,
            use_worst_fit,
            0,
            None,
            initial_score(use_worst_fit),
        ),
{
    let mut candidate_score: i32 = if use_worst_fit {
        0
    } else {
        i32::MAX
    };
    let mut candidate: Option<usize> = None;
    let mut index: usize = 0;
    while index < list.len()
        invariant_except_break
            index <= list.len(),
            scan_rects(
                list@,
                *requested_size,
                use_worst_fit,
                index as int,
                crate::atlas::position(candidate),
                candidate_score as int,
            ) == scan_rects(
                list@,
                *requested_size,
                use_worst_fit,
                0,
                None,
                initial_score(use_worst_fit),
            ),
        invariant
            requested_size.width > 0,
            requested_size.height > 0,
            forall|k: int|
                0 <= k < list@.len() ==> 0 <= (#[trigger] list@[k]).min.x <= list@[k].max.x && 0
                    <= list@[k].min.y <= list@[k].max.y,
        ensures
            crate::atlas::position(candidate) == scan_rects(
                list@,
                *requested_size,
                use_worst_fit,
                0,
                None,
                initial_score(use_worst_fit),
            ),
        decreases list.len() - index,
    {
        let size = list[index].size();
        let dx = size.width - requested_size.width;
        let dy = size.height - requested_size.height;
        if dx >= 0 && dy >= 0 {
            if dx == 0 || dy == 0 {
                // Perfect fit!
                candidate = Some(index);
                break ;
            }
            // Favor the largest minimum dimension, except for small allocations.
            let score = if dx <= dy {
                dx
            } else {
                dy
            };
            if (use_worst_fit && score > candidate_score) || (!use_worst_fit && score
                < candidate_score) {
                candidate_score = score;
                candidate = Some(index);
            }
        }
        index += 1;
    }
    candidate
}

impl SimpleAtlasAllocator {
    /// Create a simple atlas allocator with default options.
    pub fn new(size: Size) -> (atlas: Self)
        requires
            size.width > 0,
            size.height > 0,
        ensures
            atlas@ == SimpleView::initial(size, AllocatorOptions::default_spec()),
            atlas@.wf(),
    {
        let options = AllocatorOptions::default();
        Self::with_options(size, &options)
    }

    /// Create a simple atlas allocator with the provided options.
    pub fn with_options(size: Size, options: &AllocatorOptions) -> (atlas: Self)
        requires
            options.valid(),
            size.width > 0,
            size.height > 0,
        ensures
            atlas@ == SimpleView::initial(size, *options),
            atlas@.wf(),
    {
        let bucket = free_list_for_size(
            options.small_size_threshold,
            options.large_size_threshold,
            &size,
        );
        let mut free_rects = [Vec::new(), Vec::new(), Vec::new()];
        free_rects[bucket].push(Rectangle::from_size(size));
        let atlas = SimpleAtlasAllocator {
            free_rects,
            alignment: options.alignment,
            small_size_threshold: options.small_size_threshold,
            large_size_threshold: options.large_size_threshold,
            size,
        };
        proof {
            let s = SimpleView::initial(size, *options);
            assert forall|b: int| 0 <= b < 3 implies #[trigger] atlas@.free_rects[b]
                == s.free_rects[b] by {
                assert(atlas@.free_rects[b] =~= s.free_rects[b]);
            }
            assert(atlas@.free_rects =~= s.free_rects);
            lemma_simple_initial(size, *options);
        }
        atlas
    }

    /// Clear the allocator.
    pub fn reset(&mut self, size: Size)
        requires
            old(self)@.options.valid(),
            size.width > 0,
            size.height > 0,
        ensures
            final(self)@ == SimpleView::initial(size, old(self)@.options),
            final(self)@.wf(),
    {
        self.free_rects[0].clear();
        self.free_rects[1].clear();
        self.free_rects[2].clear();
        let bucket = free_list_for_size(
            self.small_size_threshold,
            self.large_size_threshold,
            &size,
        );
        self.free_rects[bucket].push(Rectangle::from_size(size));
        self.size = size;
        proof {
            let s = SimpleView::initial(size, old(self)@.options);
            assert forall|b: int| 0 <= b < 3 implies #[trigger] self@.free_rects[b]
                == s.free_rects[b] by {
                assert(self@.free_rects[b] =~= s.free_rects[b]);
            }
            assert(self@.free_rects =~= s.free_rects);
            lemma_simple_initial(size, old(self)@.options);
        }
    }

    /// Clear the allocator and reset its options.
    pub fn reset_with_options(&mut self, size: Size, options: &AllocatorOptions)
        requires
            options.valid(),
            size.width > 0,
            size.height > 0,
        ensures
            final(self)@ == SimpleView::initial(size, *options),
            final(self)@.wf(),
    {
        self.alignment = options.alignment;
        self.small_size_threshold = options.small_size_threshold;
        self.large_size_threshold = options.large_size_threshold;
        self.reset(size);
    }

    /// Clear the allocator: the whole atlas is one free rectangle again.
    pub fn clear(&mut self)
        requires
            old(self)@.wf(),
        ensures
            final(self)@ == SimpleView::initial(old(self)@.size, old(self)@.options),
            final(self)@.wf(),
    {
        let size = self.size;
        self.reset(size);
    }

    /// Whether the whole atlas is one free rectangle, as in a new allocator.
    pub fn is_empty(&self) -> (b: bool)
        requires
            self@.wf(),
        ensures
            b == (self@ == SimpleView::initial(self@.size, self@.options)),
    {
        let bucket = free_list_for_size(
            self.small_size_threshold,
            self.large_size_threshold,
            &self.size,
        );
        let whole = Rectangle::from_size(self.size);
        let mut b: usize = 0;
        let mut same = true;
        while b < NUM_BUCKETS
            invariant
                0 <= b <= 3,
                bucket == self@.options.bucket(self@.size),
                whole == self@.atlas_rect(),
                same == (forall|c: int|
                    0 <= c < b ==> #[trigger] self@.free_rects[c] == SimpleView::initial(
                        self@.size,
                        self@.options,
                    ).free_rects[c]),
            decreases 3 - b,
        {
            let ghost want = SimpleView::initial(self@.size, self@.options).free_rects[b as int];
            let matches = if b == bucket {
                self.free_rects[b].len() == 1 && self.free_rects[b][0] == whole
            } else {
                self.free_rects[b].len() == 0
            };
            proof {
                assert(self@.free_rects[b as int] == self.free_rects@[b as int]@);
                if matches {
                    assert(self@.free_rects[b as int] =~= want);
                } else {
                    assert(self@.free_rects[b as int] != want);
                }
            }
            same = same && matches;
            b += 1;
        }
        proof {
            let init = SimpleView::initial(self@.size, self@.options);
            if same {
                assert(self@.free_rects =~= init.free_rects);
            }
        }
        same
    }

    /// The total size of the atlas.
    pub fn size(&self) -> (size: Size)
        ensures
            size == self@.size,
    {
        self.size
    }

    /// The options that the allocator was given.
    pub fn options(&self) -> (options: AllocatorOptions)
        ensures
            options == self@.options,
    {
        AllocatorOptions {
            alignment: self.alignment,
            small_size_threshold: self.small_size_threshold,
            large_size_threshold: self.large_size_threshold,
        }
    }

    /// Enters `rect` in the bucket of its size.
    fn push_free_rect(&mut self, rect: &Rectangle)
        requires
            rect.measurable(),
        ensures
            final(self)@ == old(self)@.with_rect(*rect),
    {
        let bucket = free_list_for_size(
            self.small_size_threshold,
            self.large_size_threshold,
            &rect.size(),
        );
        self.free_rects[bucket].push(*rect);
        proof {
            let s = old(self)@;
            let b = bucket as int;
            assert(self@.free_rects =~= s.free_rects.update(b, s.free_rects[b].push(*rect)));
        }
    }

    /// Enters `rect` in the bucket of its size, unless it is smaller than the
    /// alignment on some axis and so of no use.
    fn add_free_rect(&mut self, rect: &Rectangle)
        requires
            rect.measurable(),
        ensures
            final(self)@ == old(self)@.with_free_rect(*rect),
    {
        if rect.size().width < self.alignment.width || rect.size().height < self.alignment.height {
            proof {
                assert(self@.free_rects =~= old(self)@.free_rects);
            }
            return ;
        }
        self.push_free_rect(rect);
    }

    /// Finds the free rectangle to allocate `requested_size` from, as its
    /// bucket and its position there.
    fn find_suitable_rect(&self, requested_size: &Size) -> (found: Option<(usize, usize)>)
        requires
            self@.wf(),
            requested_size.width > 0,
            requested_size.height > 0,
        ensures
            match found {
                Some((b, pos)) => self@.find(
                    *requested_size,
                    self@.options.bucket(*requested_size) != SMALL_BUCKET,
                    self@.options.bucket(*requested_size),
                ) == Some((b as int, pos as int)),
                None => self@.find(
                    *requested_size,
                    self@.options.bucket(*requested_size) != SMALL_BUCKET,
                    self@.options.bucket(*requested_size),
                ) is None,
            },
    {
        let ideal_bucket = free_list_for_size(
            self.small_size_threshold,
            self.large_size_threshold,
            requested_size,
        );
        let use_worst_fit = ideal_bucket != SMALL_BUCKET;
        let mut bucket = ideal_bucket;
        while bucket < NUM_BUCKETS
            invariant
                ideal_bucket <= bucket <= 3,
                ideal_bucket == self@.options.bucket(*requested_size),
                use_worst_fit == (self@.options.bucket(*requested_size) != SMALL_BUCKET),
                self@.wf(),
                requested_size.width > 0,
                requested_size.height > 0,
                self@.find(*requested_size, use_worst_fit, bucket as int) == self@.find(
                    *requested_size,
                    use_worst_fit,
                    ideal_bucket as int,
                ),
            decreases 3 - bucket,
        {
            proof {
                assert forall|k: int| 0 <= k < self.free_rects@[bucket as int]@.len() implies 0 <= (
                #[trigger] self.free_rects@[bucket as int]@[k]).min.x
                    <= self.free_rects@[bucket as int]@[k].max.x && 0
                    <= self.free_rects@[bucket as int]@[k].min.y
                    <= self.free_rects@[bucket as int]@[k].max.y by {
                    assert(self@.rect_ok(self@.free_rects[bucket as int][k]));
                }
            }
            let found = scan_free_rects(&self.free_rects[bucket], requested_size, use_worst_fit);
            proof {
                assert(self@.free_rects[bucket as int] == self.free_rects@[bucket as int]@);
            }
            if let Some(pos) = found {
                return Some((bucket, pos));
            }
            bucket += 1;
        }
        None
    }

    /// Allocate a rectangle in the atlas.
    ///
    /// The requested size is rounded up to the alignment. The rectangle is
    /// placed in the corner of the free rectangle that the search selects;
    /// what remains of that one is cut in two free rectangles, of which those
    /// smaller than the alignment are dropped.
    pub fn allocate(&mut self, requested_size: Size) -> (r: Option<Rectangle>)
        requires
            old(self)@.wf(),
        ensures
            final(self)@.wf(),
            final(self)@.size == old(self)@.size,
            final(self)@.options == old(self)@.options,
            r is Some <==> old(self)@.snappable(requested_size) && any_fit(
                old(self)@,
                old(self)@.snapped(requested_size),
                old(self)@.options.bucket(old(self)@.snapped(requested_size)),
            ),
            r is Some <==> old(self)@.chosen(requested_size) is Some,
            old(self)@.chosen(requested_size) matches Some((b, pos)) ==> {
                let req = old(self)@.snapped(requested_size);
                let rect = old(self)@.free_rects[b][pos];
                &&& r == Some(allocated_rect(rect, req))
                &&& final(self)@ == old(self)@.after_cut(b, pos, req)
            },
            r is None ==> final(self)@ == old(self)@,
            r matches Some(rect) ==> {
                &&& rect.size_spec() == old(self)@.snapped(requested_size)
                &&& old(self)@.options.is_aligned(rect.size_spec())
                &&& old(self)@.atlas_rect().contains_box_spec(rect)
                &&& !rect.is_empty_spec()
                &&& forall|x: int, y: int|
                    rect.contains_cell(x, y) ==> #[trigger] old(self)@.free_at(x, y)
                &&& forall|x: int, y: int|
                    #[trigger] final(self)@.free_at(x, y) ==> old(self)@.free_at(x, y)
                        && !rect.contains_cell(x, y)
            },
    {
        let width = match snapped(self.alignment.width, requested_size.width) {
            Some(w) => w,
            None => {
                return None;
            },
        };
        let height = match snapped(self.alignment.height, requested_size.height) {
            Some(h) => h,
            None => {
                return None;
            },
        };
        if width <= 0 || height <= 0 {
            return None;
        }
        let requested = Size { width, height };
        proof {
            lemma_round_up(requested_size.width as int, self.alignment.width as int);
            lemma_round_up(requested_size.height as int, self.alignment.height as int);
            lemma_find_rects(
                self@,
                requested,
                self@.options.bucket(requested) != SMALL_BUCKET,
                self@.options.bucket(requested),
            );
        }
        let found = self.find_suitable_rect(&requested);
        if let Some((bucket, index)) = found {
            let ghost s = self@;
            proof {
                assert(s.rect_ok(s.free_rects[bucket as int][index as int]));
                lemma_after_cut(s, bucket as int, index as int, requested);
                lemma_guillotine_shape(
                    s.free_rects[bucket as int][index as int],
                    requested,
                    Orientation::Vertical,
                );
            }
            let rect = self.free_rects[bucket].remove(index);
            proof {
                assert(self@.free_rects =~= s.free_rects.update(
                    bucket as int,
                    s.free_rects[bucket as int].remove(index as int),
                ));
            }
            let (split_rect, leftover_rect, _) = guillotine_rect(
                &rect,
                requested,
                Orientation::Vertical,
            );
            self.add_free_rect(&split_rect);
            self.add_free_rect(&leftover_rect);
            let allocated = Rectangle {
                min: rect.min,
                max: Point { x: rect.min.x + requested.width, y: rect.min.y + requested.height },
            };
            proof {
                assert forall|x: int, y: int| allocated.contains_cell(x, y) implies #[trigger] s.free_at(
                    x,
                    y,
                ) by {
                    assert(s.free_rects[bucket as int][index as int].contains_cell(x, y));
                }
            }
            return Some(allocated);
        }
        None
    }

    /// Resize the atlas without changing the allocations.
    ///
    /// This method is not allowed to shrink the width or height of the atlas.
    pub fn grow(&mut self, new_size: Size)
        requires
            old(self)@.wf(),
            new_size.width >= old(self)@.size.width,
            new_size.height >= old(self)@.size.height,
        ensures
            final(self)@ == old(self)@.after_grow(new_size),
            final(self)@.wf(),
            final(self)@.size == new_size,
            final(self)@.options == old(self)@.options,
    {
        let ghost s = self@;
        proof {
            lemma_after_grow(s, new_size);
            lemma_guillotine_shape(
                Rectangle::from_size_spec(new_size),
                s.size,
                Orientation::Vertical,
            );
        }
        let (split_rect, leftover_rect, _) = guillotine_rect(
            &Rectangle::from_size(new_size),
            self.size,
            Orientation::Vertical,
        );
        self.size = new_size;
        proof {
            assert(self@.free_rects =~= s.free_rects);
        }
        self.add_free_rect(&split_rect);
        self.add_free_rect(&leftover_rect);
    }

    /// Initialize this simple allocator with the content of an atlas allocator.
    ///
    /// The allocator takes the size and the size thresholds of `src` and
    /// keeps its own alignment. What it held is discarded. It then holds as
    /// free rectangles exactly those of the free leaves of `src`, each once,
    /// entered in the order of the slots of `src`, each in the bucket of its
    /// size. None of them meets a rectangle that is allocated in `src`.
    pub fn init_from_allocator(&mut self, src: &AtlasAllocator)
        requires
            old(self)@.options.alignment.width > 0,
            old(self)@.options.alignment.height > 0,
            src@.wf(),
        ensures
            final(self)@ == (SimpleView {
                free_rects: Seq::new(3, |b: int| Seq::empty()),
                options: AllocatorOptions {
                    alignment: old(self)@.options.alignment,
                    ..src@.options
                },
                size: src@.size,
            }).with_rects(
                src@.free_rect_list(src@.nodes.len() as int),
                src@.free_rect_list(src@.nodes.len() as int).len() as int,
            ),
            final(self)@.wf(),
            final(self)@.size == src@.size,
            final(self)@.count() == src@.free_rect_list(src@.nodes.len() as int).len(),
            forall|r: Rectangle|
                #[trigger] final(self)@.is_free_rect(r) <==> src@.free_rect_list(
                    src@.nodes.len() as int,
                ).contains(r),
            forall|b: int, k: int, id: AllocId|
                0 <= b < 3 && 0 <= k < final(self)@.free_rects[b].len()
                    && src@.allocations().dom().contains(id) ==> !(
                #[trigger] final(self)@.free_rects[b][k]).intersects_spec(
                    #[trigger] src@.allocations()[id],
                ),
    {
        let options = src.options();
        self.size = src.size();
        self.small_size_threshold = options.small_size_threshold;
        self.large_size_threshold = options.large_size_threshold;
        self.free_rects[0].clear();
        self.free_rects[1].clear();
        self.free_rects[2].clear();
        let rects = src.free_rectangles();
        let ghost base = self@;
        proof {
            crate::tree_ops::lemma_basics(src@, -1);
            crate::laws::lemma_free_rects_apart(src@);
            assert(base.free_rects =~= Seq::new(3, |b: int| Seq::<Rectangle>::empty()));
            assert(base.wf());
        }
        let mut i: usize = 0;
        while i < rects.len()
            invariant
                0 <= i <= rects.len(),
                self@ == base.with_rects(rects@, i as int),
                forall|k: int|
                    0 <= k < rects@.len() ==> (#[trigger] rects@[k]).measurable(),
            decreases rects.len() - i,
        {
            self.push_free_rect(&rects[i]);
            i += 1;
        }
        proof {
            let t = self@;
            let n = src@.nodes.len() as int;
            let slots = src@.free_slot_list(n);
            lemma_with_rects(base, rects@, rects@.len() as int);
            crate::laws::lemma_free_rect_list(src@, n);
            assert forall|r: Rectangle| #[trigger] t.is_free_rect(r) <==> rects@.contains(r) by {
                if t.is_free_rect(r) {
                    let (b, k) = choose|b: int, k: int|
                        0 <= b < 3 && 0 <= k < t.free_rects[b].len() && #[trigger] t.free_rects[b][k]
                            == r;
                    assert(!base.is_free_rect(t.free_rects[b][k]));
                    let j = choose|j: int|
                        0 <= j < rects@.len() && #[trigger] rects@[j] == t.free_rects[b][k];
                    assert(rects@[j] == r);
                }
                if rects@.contains(r) {
                    let j = choose|j: int| 0 <= j < rects@.len() && rects@[j] == r;
                    assert(t.is_free_rect(rects@[j]));
                }
            }
            assert forall|b: int, k: int, id: AllocId|
                0 <= b < 3 && 0 <= k < t.free_rects[b].len() && src@.allocations().dom().contains(
                    id,
                ) implies !(#[trigger] t.free_rects[b][k]).intersects_spec(
                #[trigger] src@.allocations()[id],
            ) by {
                assert(!base.is_free_rect(t.free_rects[b][k]));
                let j = choose|j: int|
                    0 <= j < rects@.len() && #[trigger] rects@[j] == t.free_rects[b][k];
                assert(rects@[j] == src@.nodes[slots[j]].rect);
                crate::laws::law_valid_handle(src@, id);
                crate::laws::law_leaves_apart(src@, slots[j], id.slot());
            }
        }
    }
}

} // verus!
