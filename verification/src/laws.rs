//! What holds of every well-formed tree: its leaves divide the atlas, its
//! containers are divided by their children, and a tree without allocations
//! is a single free leaf.

use vstd::prelude::*;
use crate::free_list::{
    accommodates, any_candidate, has_candidate, is_candidate, lemma_find, lemma_find_policy,
    measurable_leaves, not_preferred,
};
use crate::guillotine::allocated_rect;
use crate::geometry::{Rectangle, Size};
use crate::model::{hi, lo, AtlasView};
use crate::node::{lemma_pack_unpack, AllocId, Allocation, NodeKind, Orientation, NONE_INDEX};
use crate::options::{AllocatorOptions, SMALL_BUCKET};
use crate::tree_ops::lemma_id_is_packed;

verus! {

/// A child lies within its parent, and is smaller than its parent if it has a
/// sibling.
pub proof fn lemma_child_girth(s: AtlasView, c: int)
    requires
        s.wf(),
        s.live(c),
        s.nodes[c].parent.0 != NONE_INDEX,
    ensures
        s.live(s.nodes[c].parent.0 as int),
        s.nodes[s.nodes[c].parent.0 as int].kind == NodeKind::Container,
        s.nodes[s.nodes[c].parent.0 as int].rect.contains_box_spec(s.nodes[c].rect),
        0 <= s.girth(c) <= s.girth(s.nodes[c].parent.0 as int),
        s.has_sibling(c) ==> s.girth(c) < s.girth(s.nodes[c].parent.0 as int),
{
    reveal(AtlasView::wf_except);
    let n = s.nodes[c];
    assert(s.node_ok(c));
    assert(s.node_ok(n.parent.0 as int));
    if n.next_sibling.0 != NONE_INDEX {
        assert(s.node_ok(n.next_sibling.0 as int));
    }
    if n.prev_sibling.0 != NONE_INDEX {
        assert(s.node_ok(n.prev_sibling.0 as int));
    }
}

/// A node that has a sibling has one that is not free while the node itself
/// is free; the sibling is a child of the same parent.
pub proof fn lemma_sibling(s: AtlasView, c: int) -> (x: int)
    requires
        s.wf(),
        s.live(c),
        s.has_sibling(c),
    ensures
        s.live(x),
        x != c,
        s.has_sibling(x),
        s.nodes[x].parent == s.nodes[c].parent,
        !(s.nodes[c].kind == NodeKind::Free && s.nodes[x].kind == NodeKind::Free),
{
    reveal(AtlasView::wf_except);
    let n = s.nodes[c];
    assert(s.node_ok(c));
    assert(s.canonical_ok(c, -1));
    if n.next_sibling.0 != NONE_INDEX {
        let x = n.next_sibling.0 as int;
        assert(s.node_ok(x));
        x
    } else {
        let x = n.prev_sibling.0 as int;
        assert(s.node_ok(x));
        assert(s.canonical_ok(x, -1));
        x
    }
}

/// A tree without allocations has no container: every node is a free leaf.
pub proof fn lemma_empty_has_no_container(s: AtlasView, p: int)
    requires
        s.wf(),
        s.is_empty(),
        s.live(p),
    ensures
        s.nodes[p].kind == NodeKind::Free,
    decreases s.girth(p),
{
    reveal(AtlasView::wf_except);
    assert(s.node_ok(p));
    if s.nodes[p].kind == NodeKind::Container {
        assert(s.child_ok(p));
        let c = choose|c: int| s.child_of(c, p);
        lemma_child_girth(s, c);
        assert(s.canonical_ok(c, -1));
        if s.has_sibling(c) {
            let x = lemma_sibling(s, c);
            lemma_child_girth(s, x);
            lemma_empty_has_no_container(s, c);
            lemma_empty_has_no_container(s, x);
        } else {
            assert(s.child_ok(c));
            let d = choose|d: int| s.child_of(d, c);
            lemma_child_girth(s, d);
            assert(s.canonical_ok(d, -1));
            assert(s.has_sibling(d));
            let x = lemma_sibling(s, d);
            lemma_child_girth(s, x);
            lemma_empty_has_no_container(s, d);
            lemma_empty_has_no_container(s, x);
        }
    }
}

/// A tree without allocations is a single free leaf that covers the atlas.
pub proof fn lemma_empty_is_single_leaf(s: AtlasView)
    requires
        s.wf(),
        s.is_empty(),
    ensures
        s.single_free_leaf(),
        !s.root_has_sibling(),
        forall|i: int| s.live(i) ==> i == s.root.0,
{
    reveal(AtlasView::wf_except);
    let r = s.root.0 as int;
    assert(s.node_ok(r));
    lemma_empty_has_no_container(s, r);
    if s.root_has_sibling() {
        let x = lemma_sibling(s, r);
        lemma_empty_has_no_container(s, x);
    }
    assert(s.nodes[r].rect.min == s.atlas_rect().min);
    assert(s.nodes[r].rect.max == s.atlas_rect().max);
    assert forall|i: int| s.live(i) implies i == s.root.0 by {
        lemma_empty_has_no_container(s, i);
        assert(s.node_ok(i));
        assert(s.pair_ok(r, i));
    }
}

/// A tree whose first top-level node is a free leaf without a successor is
/// a single free leaf.
pub proof fn lemma_lone_free_root(s: AtlasView)
    requires
        s.wf(),
        s.nodes[s.root.0 as int].kind == NodeKind::Free,
        s.nodes[s.root.0 as int].next_sibling.0 == NONE_INDEX,
    ensures
        s.single_free_leaf(),
{
    reveal(AtlasView::wf_except);
    let r = s.root.0 as int;
    assert(s.node_ok(r));
    assert(s.nodes[r].rect.min == s.atlas_rect().min);
    assert(s.nodes[r].rect.max == s.atlas_rect().max);
}

/// A tree that is a single free leaf holds no allocation, and no node but
/// that leaf.
pub proof fn lemma_single_leaf_is_empty(s: AtlasView)
    requires
        s.wf(),
        s.single_free_leaf(),
    ensures
        s.is_empty(),
        forall|i: int| s.live(i) ==> i == s.root.0,
{
    reveal(AtlasView::wf_except);
    let r = s.root.0 as int;
    assert(s.node_ok(r));
    assert forall|i: int| 0 <= i < s.nodes.len() implies (#[trigger] s.nodes[i]).kind
        != NodeKind::Alloc by {
        assert(s.node_ok(i));
        assert(s.pair_ok(r, i));
    }
    lemma_empty_is_single_leaf(s);
}

/// The list of the allocations in the first `n` slots holds each of them
/// once: its entries are allocations in slots below `n`, in the order of the
/// slots, and every allocation in a slot below `n` is an entry.
pub proof fn lemma_allocation_list(s: AtlasView, n: int)
    requires
        0 <= n <= s.nodes.len(),
        s.nodes.len() <= 0x0100_0000,
    ensures
        s.allocation_list(n).len() <= n,
        forall|k: int|
            0 <= k < s.allocation_list(n).len() ==> s.holds(#[trigger] s.allocation_list(n)[k])
                && s.allocation_list(n)[k].id.slot() < n,
        forall|k: int, l: int|
            0 <= k < l < s.allocation_list(n).len() ==> (#[trigger] s.allocation_list(n)[k]).id.slot()
                < (#[trigger] s.allocation_list(n)[l]).id.slot(),
        forall|id: AllocId|
            s.valid_id(id) && id.slot() < n ==> s.allocation_list(n).contains(
                Allocation { id, rectangle: s.nodes[id.slot()].rect },
            ),
    decreases n,
{
    if n > 0 {
        lemma_allocation_list(s, n - 1);
        let rest = s.allocation_list(n - 1);
        let list = s.allocation_list(n);
        if s.nodes[n - 1].kind == NodeKind::Alloc {
            lemma_pack_unpack(n - 1, s.generations[n - 1] as int);
            let a = Allocation { id: s.id_of(n - 1), rectangle: s.nodes[n - 1].rect };
            assert(list == rest.push(a));
            assert forall|k: int| 0 <= k < list.len() implies s.holds(#[trigger] list[k])
                && list[k].id.slot() < n by {
                if k < rest.len() {
                    assert(list[k] == rest[k]);
                }
            }
            assert forall|k: int, l: int| 0 <= k < l < list.len() implies (#[trigger] list[k]).id.slot()
                < (#[trigger] list[l]).id.slot() by {
                assert(list[k] == rest[k]);
                if l < rest.len() {
                    assert(list[l] == rest[l]);
                }
            }
            assert forall|id: AllocId| s.valid_id(id) && id.slot() < n implies list.contains(
                Allocation { id, rectangle: s.nodes[id.slot()].rect },
            ) by {
                let e = Allocation { id, rectangle: s.nodes[id.slot()].rect };
                if id.slot() < n - 1 {
                    assert(rest.contains(e));
                    let k = choose|k: int| 0 <= k < rest.len() && rest[k] == e;
                    assert(list[k] == e);
                } else {
                    lemma_id_is_packed(id);
                    assert(list[rest.len() as int] == e);
                }
            }
        } else {
            assert forall|id: AllocId| s.valid_id(id) && id.slot() < n implies list.contains(
                Allocation { id, rectangle: s.nodes[id.slot()].rect },
            ) by {
                assert(id.slot() < n - 1);
            }
        }
    }
}

/// An allocation is held exactly when the map of the allocations takes its
/// handle to its rectangle.
pub proof fn lemma_holds(s: AtlasView, a: Allocation)
    ensures
        s.holds(a) <==> s.allocations().contains_pair(a.id, a.rectangle),
        s.valid_id(a.id) <==> s.allocations().dom().contains(a.id),
{
}

/// What the tree gives for each of its allocations: the rectangle holds
/// cells, lies in the atlas, and has a size that is aligned.
pub proof fn lemma_allocation_shape(s: AtlasView, a: Allocation)
    requires
        s.wf(),
        s.holds(a),
    ensures
        a.rectangle.measurable(),
        a.rectangle.width_spec() > 0,
        a.rectangle.height_spec() > 0,
        s.atlas_rect().contains_box_spec(a.rectangle),
        s.options.is_aligned(a.rectangle.size_spec()),
        s.snappable(a.rectangle.size_spec()),
        s.snapped(a.rectangle.size_spec()) == a.rectangle.size_spec(),
{
    reveal(AtlasView::wf_except);
    assert(s.node_ok(a.id.slot()));
}

/// The list of the free rectangles in the first `n` slots goes through the
/// free leaves in the order of their slots.
pub proof fn lemma_free_rect_list(s: AtlasView, n: int)
    requires
        0 <= n <= s.nodes.len(),
    ensures
        s.free_rect_list(n).len() == s.free_slot_list(n).len(),
        forall|k: int|
            0 <= k < s.free_slot_list(n).len() ==> {
                &&& 0 <= #[trigger] s.free_slot_list(n)[k] < n
                &&& s.nodes[s.free_slot_list(n)[k]].kind == NodeKind::Free
                &&& s.free_rect_list(n)[k] == s.nodes[s.free_slot_list(n)[k]].rect
            },
        forall|k: int, l: int|
            0 <= k < l < s.free_slot_list(n).len() ==> #[trigger] s.free_slot_list(n)[k]
                < #[trigger] s.free_slot_list(n)[l],
    decreases n,
{
    if n > 0 {
        lemma_free_rect_list(s, n - 1);
        let slots = s.free_slot_list(n);
        let rest = s.free_slot_list(n - 1);
        if s.nodes[n - 1].kind == NodeKind::Free {
            assert forall|k: int| 0 <= k < slots.len() implies {
                &&& 0 <= #[trigger] slots[k] < n
                &&& s.nodes[slots[k]].kind == NodeKind::Free
                &&& s.free_rect_list(n)[k] == s.nodes[slots[k]].rect
            } by {
                if k < rest.len() {
                    assert(slots[k] == rest[k]);
                }
            }
            assert forall|k: int, l: int| 0 <= k < l < slots.len() implies #[trigger] slots[k]
                < #[trigger] slots[l] by {
                assert(slots[k] == rest[k]);
                if l < rest.len() {
                    assert(slots[l] == rest[l]);
                }
            }
        }
    }
}

/// The free rectangles of a well-formed tree hold cells, lie in the atlas
/// and share no cell.
pub proof fn lemma_free_rects_apart(s: AtlasView)
    requires
        s.wf(),
    ensures
        forall|k: int|
            0 <= k < s.free_rect_list(s.nodes.len() as int).len() ==> {
                let r = #[trigger] s.free_rect_list(s.nodes.len() as int)[k];
                &&& 0 <= r.min.x < r.max.x <= s.size.width
                &&& 0 <= r.min.y < r.max.y <= s.size.height
            },
        forall|k: int, l: int|
            0 <= k < l < s.free_rect_list(s.nodes.len() as int).len() ==> !(
            #[trigger] s.free_rect_list(s.nodes.len() as int)[k]).intersects_spec(
                #[trigger] s.free_rect_list(s.nodes.len() as int)[l],
            ),
{
    reveal(AtlasView::wf_except);
    let n = s.nodes.len() as int;
    let rects = s.free_rect_list(n);
    let slots = s.free_slot_list(n);
    lemma_free_rect_list(s, n);
    assert forall|k: int| 0 <= k < rects.len() implies {
        let r = #[trigger] rects[k];
        &&& 0 <= r.min.x < r.max.x <= s.size.width
        &&& 0 <= r.min.y < r.max.y <= s.size.height
    } by {
        assert(s.node_ok(slots[k]));
    }
    assert forall|k: int, l: int| 0 <= k < l < rects.len() implies !(#[trigger] rects[k]).intersects_spec(
        #[trigger] rects[l],
    ) by {
        assert(slots[k] < slots[l]);
        assert(s.pair_ok(slots[k], slots[l]));
    }
}

/// The coordinate of the cell `(x, y)` along the axis `o`.
pub open spec fn along(o: Orientation, x: int, y: int) -> int {
    match o {
        Orientation::Horizontal => x,
        Orientation::Vertical => y,
    }
}

/// From a node, the first of its siblings can be reached: a node with the
/// same parent that has no predecessor.
pub proof fn lemma_first_sibling(s: AtlasView, c: int) -> (f: int)
    requires
        s.wf(),
        s.live(c),
    ensures
        s.live(f),
        s.nodes[f].parent == s.nodes[c].parent,
        s.nodes[f].orientation == s.nodes[c].orientation,
        s.nodes[f].prev_sibling.0 == NONE_INDEX,
    decreases lo(s.nodes[c].rect, s.nodes[c].orientation),
{
    reveal(AtlasView::wf_except);
    assert(s.node_ok(c));
    if s.nodes[c].prev_sibling.0 == NONE_INDEX {
        c
    } else {
        let p = s.nodes[c].prev_sibling.0 as int;
        assert(s.node_ok(p));
        lemma_first_sibling(s, p)
    }
}

/// From a node, the sibling whose range along their axis holds `v` can be
/// reached, if `v` is not before the node and within the region that the
/// siblings divide.
pub proof fn lemma_sibling_at(s: AtlasView, c: int, v: int) -> (w: int)
    requires
        s.wf(),
        s.live(c),
        lo(s.nodes[c].rect, s.nodes[c].orientation) <= v < hi(
            s.region(c),
            s.nodes[c].orientation,
        ),
    ensures
        s.live(w),
        s.nodes[w].parent == s.nodes[c].parent,
        s.nodes[w].orientation == s.nodes[c].orientation,
        lo(s.nodes[w].rect, s.nodes[c].orientation) <= v < hi(
            s.nodes[w].rect,
            s.nodes[c].orientation,
        ),
    decreases hi(s.region(c), s.nodes[c].orientation) - lo(
        s.nodes[c].rect,
        s.nodes[c].orientation,
    ),
{
    reveal(AtlasView::wf_except);
    assert(s.node_ok(c));
    if v < hi(s.nodes[c].rect, s.nodes[c].orientation) {
        c
    } else {
        let n = s.nodes[c].next_sibling.0 as int;
        assert(s.node_ok(n));
        lemma_sibling_at(s, n, v)
    }
}

/// Coverage: every cell of a container lies in one of its children.
pub proof fn law_children_cover(s: AtlasView, p: int, x: int, y: int) -> (c: int)
    requires
        s.wf(),
        s.live(p),
        s.nodes[p].kind == NodeKind::Container,
        s.nodes[p].rect.contains_cell(x, y),
    ensures
        s.child_of(c, p),
        s.nodes[c].rect.contains_cell(x, y),
{
    reveal(AtlasView::wf_except);
    assert(s.child_ok(p));
    let c0 = choose|c: int| s.child_of(c, p);
    let f = lemma_first_sibling(s, c0);
    assert(s.node_ok(f));
    let o = s.nodes[f].orientation;
    let w = lemma_sibling_at(s, f, along(o, x, y));
    assert(s.node_ok(w));
    w
}

/// Coverage: a child lies within its parent, and two children of one parent
/// share no cell. So the children of a container divide it among themselves.
pub proof fn law_children_apart(s: AtlasView, c: int, d: int)
    requires
        s.wf(),
        s.live(c),
        s.live(d),
        c != d,
        s.nodes[c].parent == s.nodes[d].parent,
        s.nodes[c].parent.0 != NONE_INDEX,
    ensures
        s.nodes[s.nodes[c].parent.0 as int].rect.contains_box_spec(s.nodes[c].rect),
        !s.nodes[c].rect.intersects_spec(s.nodes[d].rect),
{
    reveal(AtlasView::wf_except);
    lemma_child_girth(s, c);
    assert(s.pair_ok(c, d));
}

/// Every cell of the atlas lies in a node of the top level.
pub proof fn law_top_level_covers(s: AtlasView, x: int, y: int) -> (c: int)
    requires
        s.wf(),
        s.atlas_rect().contains_cell(x, y),
    ensures
        s.top_level(c),
        s.nodes[c].rect.contains_cell(x, y),
{
    reveal(AtlasView::wf_except);
    let r = s.root.0 as int;
    assert(s.node_ok(r));
    let o = s.nodes[r].orientation;
    let w = lemma_sibling_at(s, r, along(o, x, y));
    assert(s.node_ok(w));
    w
}

/// Below every node, each of its cells lies in a leaf.
pub proof fn lemma_leaf_below(s: AtlasView, i: int, x: int, y: int) -> (l: int)
    requires
        s.wf(),
        s.live(i),
        s.nodes[i].rect.contains_cell(x, y),
    ensures
        s.leaf(l),
        s.nodes[l].rect.contains_cell(x, y),
    decreases s.girth(i),
{
    reveal(AtlasView::wf_except);
    assert(s.node_ok(i));
    if s.nodes[i].kind == NodeKind::Container {
        let c = law_children_cover(s, i, x, y);
        lemma_child_girth(s, c);
        assert(s.canonical_ok(c, -1));
        if s.nodes[c].kind != NodeKind::Container {
            c
        } else if s.has_sibling(c) {
            lemma_leaf_below(s, c, x, y)
        } else {
            let d = law_children_cover(s, c, x, y);
            lemma_child_girth(s, d);
            assert(s.canonical_ok(d, -1));
            lemma_leaf_below(s, d, x, y)
        }
    } else {
        i
    }
}

/// The leaves divide the atlas: every cell of the atlas lies in a leaf.
pub proof fn law_leaves_cover(s: AtlasView, x: int, y: int) -> (l: int)
    requires
        s.wf(),
        s.atlas_rect().contains_cell(x, y),
    ensures
        s.leaf(l),
        s.nodes[l].rect.contains_cell(x, y),
{
    let c = law_top_level_covers(s, x, y);
    lemma_leaf_below(s, c, x, y)
}

/// Non-overlap: two distinct leaves share no cell.
pub proof fn law_leaves_apart(s: AtlasView, a: int, b: int)
    requires
        s.wf(),
        s.leaf(a),
        s.leaf(b),
        a != b,
    ensures
        !s.nodes[a].rect.intersects_spec(s.nodes[b].rect),
        forall|x: int, y: int|
            !(#[trigger] s.nodes[a].rect.contains_cell(x, y) && s.nodes[b].rect.contains_cell(
                x,
                y,
            )),
{
    reveal(AtlasView::wf_except);
    assert(s.pair_ok(a, b));
    assert(s.node_ok(a));
    assert(s.node_ok(b));
    crate::geometry::lemma_intersects_shares_cell(s.nodes[a].rect, s.nodes[b].rect);
}

/// Containment: every leaf holds cells and lies in the atlas.
pub proof fn law_leaf_in_atlas(s: AtlasView, l: int)
    requires
        s.wf(),
        s.leaf(l),
    ensures
        !s.nodes[l].rect.is_empty_spec(),
        s.atlas_rect().contains_box_spec(s.nodes[l].rect),
{
    reveal(AtlasView::wf_except);
    assert(s.node_ok(l));
}

/// Canonical form: a node below a container lies along the other axis than
/// the container, and its parent is a container indeed.
pub proof fn law_orientation_alternates(s: AtlasView, i: int)
    requires
        s.wf(),
        s.live(i),
        s.nodes[i].parent.0 != NONE_INDEX,
    ensures
        s.live(s.nodes[i].parent.0 as int),
        s.nodes[s.nodes[i].parent.0 as int].kind == NodeKind::Container,
        s.nodes[i].orientation == s.nodes[s.nodes[i].parent.0 as int].orientation.flipped_spec(),
{
    reveal(AtlasView::wf_except);
    assert(s.node_ok(i));
}

/// Canonical form: two consecutive siblings are not both free.
pub proof fn law_no_free_neighbours(s: AtlasView, i: int)
    requires
        s.wf(),
        s.live(i),
        s.nodes[i].next_sibling.0 != NONE_INDEX,
    ensures
        s.live(s.nodes[i].next_sibling.0 as int),
        !(s.nodes[i].kind == NodeKind::Free && s.nodes[s.nodes[i].next_sibling.0 as int].kind
            == NodeKind::Free),
{
    reveal(AtlasView::wf_except);
    assert(s.node_ok(i));
    assert(s.canonical_ok(i, -1));
}

/// Canonical form: a container has at least two children, as long as the
/// atlas has not grown across the axis of a top level of a single node.
pub proof fn law_two_children(s: AtlasView, p: int) -> (r: (int, int))
    requires
        s.wf(),
        s.strict(),
        s.live(p),
        s.nodes[p].kind == NodeKind::Container,
    ensures
        s.child_of(r.0, p),
        s.child_of(r.1, p),
        r.0 != r.1,
{
    reveal(AtlasView::wf_except);
    assert(s.child_ok(p));
    let c = choose|c: int| s.child_of(c, p);
    assert(s.live(c));
    assert(s.not_alone(c));
    let d = lemma_sibling(s, c);
    (c, d)
}

/// Canonical form, where the atlas has grown over a single node: an only
/// child is not a free leaf.
pub proof fn law_only_child_not_free(s: AtlasView, c: int)
    requires
        s.wf(),
        s.live(c),
        s.nodes[c].parent.0 != NONE_INDEX,
        !s.has_sibling(c),
    ensures
        s.nodes[c].kind != NodeKind::Free,
{
    reveal(AtlasView::wf_except);
    assert(s.canonical_ok(c, -1));
}

/// Handle integrity: a valid handle names a slot of the arena that holds an
/// allocation, and is the handle under which that slot is handed out.
pub proof fn law_valid_handle(s: AtlasView, id: AllocId)
    requires
        s.wf(),
        s.valid_id(id),
    ensures
        s.leaf(id.slot()),
        s.nodes[id.slot()].kind == NodeKind::Alloc,
        s.id_of(id.slot()) == id,
        s.holds(Allocation { id, rectangle: s.allocations()[id] }),
{
    lemma_id_is_packed(id);
}

/// The allocations are none exactly when no slot holds an allocation.
pub proof fn law_empty_means_no_allocations(s: AtlasView)
    requires
        s.wf(),
    ensures
        s.is_empty() <==> s.allocations() == Map::<AllocId, Rectangle>::empty(),
{
    reveal(AtlasView::wf_except);
    if s.is_empty() {
        assert(s.allocations() =~= Map::<AllocId, Rectangle>::empty());
    }
    if s.allocations() == Map::<AllocId, Rectangle>::empty() {
        assert forall|i: int| 0 <= i < s.nodes.len() implies (#[trigger] s.nodes[i]).kind
            != NodeKind::Alloc by {
            if s.nodes[i].kind == NodeKind::Alloc {
                lemma_pack_unpack(i, s.generations[i] as int);
                assert(s.valid_id(s.id_of(i)));
                assert(s.allocations().dom().contains(s.id_of(i)));
            }
        }
    }
}

/// Round trip: in an atlas that is one free leaf entered in the bucket of
/// its size, as it is when new, when cleared and when the last allocation
/// has been released, an allocation of the size of the atlas succeeds and
/// takes the whole atlas, provided that size is a multiple of the alignment.
pub proof fn law_pristine_takes_full_size(s: AtlasView)
    requires
        s.wf(),
        s.pristine(),
        s.options.is_aligned(s.size),
    ensures
        s.snapped(s.size) == s.size,
        s.placeable(s.size),
        s.search(s.size).1 == s.root,
        allocated_rect(s.nodes[s.root.0 as int].rect, s.size) == s.atlas_rect(),
{
    reveal(AtlasView::wf_except);
    let r = s.root.0 as int;
    let b = s.options.bucket(s.size);
    lemma_single_leaf_is_empty(s);
    assert(s.node_ok(r));
    let k = choose|k: int| 0 <= k < s.free_lists[b].len() && (#[trigger] s.free_lists[b][k]).0 == r;
    assert(is_candidate(s.nodes, s.free_lists[b][k], s.size));
    assert(has_candidate(s.nodes, s.free_lists[b], s.size));
    assert(any_candidate(s.nodes, s.free_lists, s.size, b));
    assert(crate::free_list::measurable_leaves(s.nodes)) by {
        assert forall|i: int|
            0 <= i < s.nodes.len() && (#[trigger] s.nodes[i]).kind == NodeKind::Free implies 0
            <= s.nodes[i].rect.min.x <= s.nodes[i].rect.max.x && 0 <= s.nodes[i].rect.min.y
            <= s.nodes[i].rect.max.y by {
            assert(s.node_ok(i));
        }
    }
    crate::free_list::lemma_find(s.nodes, s.free_lists, s.size, s.worst_fit(s.size), b);
    let chosen = s.search(s.size).1;
    assert(s.live(chosen.0 as int));
}

/// Idempotent clear: the state of a cleared allocator depends on the size
/// and the options alone, so clearing it again changes nothing; and it holds
/// no allocation.
pub proof fn law_clear_idempotent(size: Size, options: AllocatorOptions)
    requires
        options.valid(),
        size.width > 0,
        size.height > 0,
    ensures
        ({
            let cleared = AtlasView::initial(size, options);
            &&& AtlasView::initial(cleared.size, cleared.options) == cleared
            &&& cleared.wf()
            &&& cleared.is_empty()
            &&& cleared.pristine()
        }),
{
    crate::model::lemma_initial_wf(size, options);
}

/// Rearrange fidelity: in what a rearrangement reports, the new side of a
/// change has the size of the old side and is a valid handle afterwards, and
/// an old handle that the rearrangement reports is reported once.
pub proof fn law_rearrange_fidelity(
    before: AtlasView,
    after: AtlasView,
    changes: Seq<crate::node::Change>,
    failures: Seq<Allocation>,
    k: int,
)
    requires
        before.wf(),
        after.wf(),
        before.rearranged(after, changes, failures),
        0 <= k < changes.len(),
    ensures
        changes[k].new.rectangle.size_spec() == changes[k].old.rectangle.size_spec(),
        after.valid_id(changes[k].new.id),
        after.allocations()[changes[k].new.id] == changes[k].new.rectangle,
        before.valid_id(changes[k].old.id),
        before.allocations()[changes[k].old.id] == changes[k].old.rectangle,
{
}

/// The free leaves of a well-formed tree have non-negative coordinates.
pub proof fn lemma_measurable(s: AtlasView)
    requires
        s.wf(),
    ensures
        measurable_leaves(s.nodes),
        crate::free_list::entries_in_range(s.nodes, s.free_lists),
        s.nodes.len() <= 0x0100_0000,
{
    reveal(AtlasView::wf_except);
    assert forall|i: int|
        0 <= i < s.nodes.len() && (#[trigger] s.nodes[i]).kind == NodeKind::Free implies 0
        <= s.nodes[i].rect.min.x <= s.nodes[i].rect.max.x && 0 <= s.nodes[i].rect.min.y
        <= s.nodes[i].rect.max.y by {
        assert(s.node_ok(i));
    }
}

/// Selection policy: the leaf that the search selects for the rounded size
/// `req` is a free leaf that accommodates it, entered in the first bucket,
/// from that of `req` up, that holds such a leaf. Of the entries that the
/// search leaves in that bucket none is a better choice: the leaf selected
/// is a perfect fit, or none of them is and none has a score that is
/// preferred, which is the larger score unless `req` is small.
pub proof fn law_selection_policy(s: AtlasView, req: Size) -> (from: int)
    requires
        s.wf(),
        req.width > 0,
        req.height > 0,
        s.search(req).1.0 != NONE_INDEX,
    ensures
        s.options.bucket(req) <= from < 3,
        is_candidate(s.nodes, s.search(req).1, req),
        s.leaf(s.search(req).1.0 as int),
        has_candidate(s.nodes, s.free_lists[from], req),
        forall|b: int|
            s.options.bucket(req) <= b < from ==> !has_candidate(
                s.nodes,
                #[trigger] s.free_lists[b],
                req,
            ),
        forall|k: int|
            0 <= k < s.search(req).0[from].len() ==> not_preferred(
                s.nodes,
                #[trigger] s.search(req).0[from][k],
                s.search(req).1,
                req,
                s.worst_fit(req),
            ),
{
    lemma_measurable(s);
    let b = s.options.bucket(req);
    lemma_find(s.nodes, s.free_lists, req, s.worst_fit(req), b);
    lemma_find_policy(s.nodes, s.free_lists, req, s.worst_fit(req), b)
}

/// Where every free leaf is entered, as it is in a new allocator and stays
/// through every operation, a free leaf has an entry in a bucket no higher
/// than that of its size.
pub proof fn law_free_leaf_is_entered(s: AtlasView, i: int) -> (b: int)
    requires
        s.wf(),
        s.indexed(),
        0 <= i < s.nodes.len(),
        s.nodes[i].kind == NodeKind::Free,
    ensures
        0 <= b <= s.options.bucket(s.nodes[i].rect.size_spec()),
        s.listed(i, b),
{
    reveal(AtlasView::wf_except);
    assert(s.index_ok(i, Set::empty()));
    let (b, k) = choose|b: int, k: int|
        0 <= b <= s.options.bucket(s.nodes[i].rect.size_spec()) && 0 <= k < s.free_lists[b].len()
            && (#[trigger] s.free_lists[b][k]).0 == i;
    assert(s.free_lists[b][k].0 == i);
    b
}

/// A request that is small after rounding is served whenever some free leaf
/// accommodates it, where every free leaf is entered and the arena has room
/// for the nodes of a cut.
pub proof fn law_small_request_finds_any_fit(s: AtlasView, requested: Size, i: int)
    requires
        s.wf(),
        s.indexed(),
        s.has_room(),
        s.snappable(requested),
        s.options.bucket(s.snapped(requested)) == SMALL_BUCKET,
        0 <= i < s.nodes.len(),
        s.nodes[i].kind == NodeKind::Free,
        accommodates(s.nodes[i].rect, s.snapped(requested)),
    ensures
        s.placeable(requested),
{
    let req = s.snapped(requested);
    let b = law_free_leaf_is_entered(s, i);
    let k = choose|k: int| 0 <= k < s.free_lists[b].len() && (#[trigger] s.free_lists[b][k]).0 == i;
    assert(is_candidate(s.nodes, s.free_lists[b][k], req));
    assert(has_candidate(s.nodes, s.free_lists[b], req));
    assert(any_candidate(s.nodes, s.free_lists, req, SMALL_BUCKET as int));
}

/// The free area is what the allocations leave of the atlas: a cell lies in
/// a free leaf exactly when it lies in the atlas and in no allocated
/// rectangle.
pub proof fn law_free_cells(s: AtlasView, x: int, y: int)
    requires
        s.wf(),
    ensures
        s.free_cell(x, y) <==> s.atlas_rect().contains_cell(x, y) && !s.taken_cell(x, y),
        s.taken_cell(x, y) ==> s.atlas_rect().contains_cell(x, y),
{
    if s.free_cell(x, y) {
        let i = choose|i: int| #[trigger] s.frees(i, x, y);
        law_leaf_in_atlas(s, i);
        if s.taken_cell(x, y) {
            let id = choose|id: AllocId| #[trigger] s.takes(id, x, y);
            law_valid_handle(s, id);
            law_leaves_apart(s, i, id.slot());
            assert(s.nodes[i].rect.contains_cell(x, y));
        }
    }
    if s.taken_cell(x, y) {
        let id = choose|id: AllocId| #[trigger] s.takes(id, x, y);
        law_valid_handle(s, id);
        law_leaf_in_atlas(s, id.slot());
    }
    if s.atlas_rect().contains_cell(x, y) && !s.taken_cell(x, y) {
        let l = law_leaves_cover(s, x, y);
        if s.nodes[l].kind == NodeKind::Alloc {
            reveal(AtlasView::wf_except);
            lemma_pack_unpack(l, s.generations[l] as int);
            assert(s.takes(s.id_of(l), x, y));
        }
        assert(s.frees(l, x, y));
    }
}

/// Growing frees exactly the area gained: between two well-formed states
/// with the same allocations, the later of an atlas no smaller on either
/// axis, a cell is free in the later state exactly when it was free before
/// or lies in the later atlas and not in the earlier one.
pub proof fn law_grow_frees_what_is_gained(before: AtlasView, after: AtlasView, x: int, y: int)
    requires
        before.wf(),
        after.wf(),
        after.allocations() == before.allocations(),
        after.size.width >= before.size.width,
        after.size.height >= before.size.height,
    ensures
        after.free_cell(x, y) <==> before.free_cell(x, y) || (after.atlas_rect().contains_cell(
            x,
            y,
        ) && !before.atlas_rect().contains_cell(x, y)),
{
    law_free_cells(before, x, y);
    law_free_cells(after, x, y);
    reveal(AtlasView::wf_except);
    if before.taken_cell(x, y) {
        let id = choose|id: AllocId| #[trigger] before.takes(id, x, y);
        assert(after.takes(id, x, y));
    }
    if after.taken_cell(x, y) {
        let id = choose|id: AllocId| #[trigger] after.takes(id, x, y);
        assert(before.takes(id, x, y));
    }
}

} // verus!
