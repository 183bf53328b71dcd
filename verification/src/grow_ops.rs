//! How the subdivision tree takes up the area that the atlas gains when it
//! grows, and the proof that each way keeps the tree well formed.

use vstd::prelude::*;
use crate::geometry::{Rectangle, Size};
use crate::model::{hi, lo, AtlasView};
use crate::node::{AllocId, AllocIndex, Node, NodeKind, Orientation, NONE_INDEX};
use crate::tree_ops::{with_hi, with_lo};

verus! {

/// `size` with its extent along `o` replaced by `to`.
pub open spec fn resized(size: Size, o: Orientation, to: i32) -> Size {
    match o {
        Orientation::Horizontal => Size { width: to, height: size.height },
        Orientation::Vertical => Size { width: size.width, height: to },
    }
}

/// The extent of `size` along `o`.
pub open spec fn extent(size: Size, o: Orientation) -> int {
    match o {
        Orientation::Horizontal => size.width as int,
        Orientation::Vertical => size.height as int,
    }
}

/// The strip that an atlas of the size `size` gains when its extent along
/// `o` grows to `to`.
pub open spec fn gained_strip(size: Size, o: Orientation, to: i32) -> Rectangle {
    with_lo(Rectangle::from_size_spec(resized(size, o, to)), o, extent(size, o) as i32)
}

impl AtlasView {
    /// The axis of the top level.
    pub open spec fn root_orientation(self) -> Orientation {
        self.nodes[self.root.0 as int].orientation
    }

    /// Node `i` is a node of the top level.
    pub open spec fn top_level(self, i: int) -> bool {
        self.live(i) && self.nodes[i].parent.0 == NONE_INDEX
    }

    /// The first node of the top level has a sibling.
    pub open spec fn root_has_sibling(self) -> bool {
        self.has_sibling(self.root.0 as int)
    }

    /// The top level is a single node, and that node is a free leaf.
    pub open spec fn lone_free_root(self) -> bool {
        self.nodes[self.root.0 as int].kind == NodeKind::Free && !self.root_has_sibling()
    }

    /// The tree is a single free leaf.
    pub open spec fn single_free_leaf(self) -> bool {
        &&& self.nodes[self.root.0 as int].kind == NodeKind::Free
        &&& self.nodes[self.root.0 as int].rect == self.atlas_rect()
    }

    /// The state after the single free leaf is stretched over an atlas of the
    /// size `new_size`.
    pub open spec fn after_grow_single(self, new_size: Size) -> AtlasView {
        let r = self.root.0 as int;
        AtlasView {
            nodes: self.nodes.update(
                r,
                Node { rect: Rectangle::from_size_spec(new_size), ..self.nodes[r] },
            ),
            size: new_size,
            ..self
        }
    }

    /// The state after the atlas grows to `to` along the axis of the top
    /// level, and the free leaf `last` at the end of the top level is
    /// stretched over the strip gained.
    pub open spec fn after_extend_last(self, last: int, to: i32) -> AtlasView {
        let o = self.root_orientation();
        AtlasView {
            nodes: self.nodes.update(
                last,
                Node { rect: with_hi(self.nodes[last].rect, o, to), ..self.nodes[last] },
            ),
            size: resized(self.size, o, to),
            ..self
        }
    }

    /// The state after the atlas grows to `to` along the axis of the top
    /// level, and the strip gained becomes the new free leaf `x` that
    /// follows `last` at the end of the top level.
    pub open spec fn after_append_last(self, last: int, x: int, to: i32) -> AtlasView {
        let o = self.root_orientation();
        AtlasView {
            nodes: self.nodes.update(
                last,
                Node { next_sibling: AllocIndex(x as u32), ..self.nodes[last] },
            ).update(
                x,
                Node {
                    parent: AllocIndex(NONE_INDEX),
                    next_sibling: AllocIndex(NONE_INDEX),
                    prev_sibling: AllocIndex(last as u32),
                    kind: NodeKind::Free,
                    orientation: o,
                    rect: gained_strip(self.size, o, to),
                },
            ),
            size: resized(self.size, o, to),
            ..self
        }
    }

    /// The state after the atlas grows to `to` across the axis of the top
    /// level: the nodes of the top level become the children of the new
    /// container `r`, and the new top level is `r` followed by the new free
    /// leaf `f` over the strip gained.
    pub open spec fn after_add_top(self, r: int, f: int, to: i32) -> AtlasView {
        let c = self.root_orientation().flipped_spec();
        AtlasView {
            nodes: Seq::new(
                self.nodes.len(),
                |i: int|
                    if i == r {
                        Node {
                            parent: AllocIndex(NONE_INDEX),
                            next_sibling: AllocIndex(f as u32),
                            prev_sibling: AllocIndex(NONE_INDEX),
                            kind: NodeKind::Container,
                            orientation: c,
                            rect: self.atlas_rect(),
                        }
                    } else if i == f {
                        Node {
                            parent: AllocIndex(NONE_INDEX),
                            next_sibling: AllocIndex(NONE_INDEX),
                            prev_sibling: AllocIndex(r as u32),
                            kind: NodeKind::Free,
                            orientation: c,
                            rect: gained_strip(self.size, c, to),
                        }
                    } else if self.top_level(i) {
                        Node { parent: AllocIndex(r as u32), ..self.nodes[i] }
                    } else {
                        self.nodes[i]
                    },
            ),
            size: resized(self.size, c, to),
            root: AllocIndex(r as u32),
            ..self
        }
    }
}

impl AtlasView {
    /// The arena while the nodes of the top level are handed over to the new
    /// container `r`: those that start before `cursor` along the axis of the
    /// top level have been handed over.
    pub open spec fn reparented_up_to(self, r: int, f: int, to: i32, cursor: int) -> Seq<Node> {
        let o = self.root_orientation();
        let done = self.after_add_top(r, f, to).nodes;
        Seq::new(
            self.nodes.len(),
            |i: int|
                if i == r || i == f || (self.top_level(i) && lo(self.nodes[i].rect, o) < cursor) {
                    done[i]
                } else {
                    self.nodes[i]
                },
        )
    }

    /// The atlas gains area across the axis of a top level that holds a
    /// single node, which is not free, and gains none along that axis. This
    /// is when growing leaves a container with an only child.
    pub open spec fn grows_over_single_node(self, new_size: Size) -> bool {
        let o = self.root_orientation();
        &&& !self.root_has_sibling()
        &&& self.nodes[self.root.0 as int].kind != NodeKind::Free
        &&& extent(new_size, o) == extent(self.size, o)
        &&& extent(new_size, o.flipped_spec()) > extent(self.size, o.flipped_spec())
    }
}

/// Two nodes of the top level whose ranges along the axis of the top level
/// meet are one node.
pub proof fn lemma_top_level_unique(s: AtlasView, i: int, j: int)
    requires
        s.wf(),
        s.top_level(i),
        s.top_level(j),
        lo(s.nodes[i].rect, s.root_orientation()) <= lo(s.nodes[j].rect, s.root_orientation())
            < hi(s.nodes[i].rect, s.root_orientation()),
    ensures
        i == j,
{
    reveal(AtlasView::wf_except);
    assert(s.node_ok(i));
    assert(s.node_ok(j));
    assert(s.pair_ok(i, j));
}

/// The top level has one last node.
pub proof fn lemma_last_top_unique(s: AtlasView, i: int, j: int)
    requires
        s.wf(),
        s.top_level(i),
        s.nodes[i].next_sibling.0 == NONE_INDEX,
        s.top_level(j),
        s.nodes[j].next_sibling.0 == NONE_INDEX,
    ensures
        i == j,
{
    reveal(AtlasView::wf_except);
    assert(s.node_ok(i));
    assert(s.node_ok(j));
    assert(s.pair_ok(i, j));
}

/// Stretching the single free leaf over a larger atlas keeps the tree well
/// formed.
pub proof fn lemma_grow_single(s: AtlasView, new_size: Size, t: AtlasView)
    requires
        s.wf(),
        s.single_free_leaf(),
        new_size.width >= s.size.width,
        new_size.height >= s.size.height,
        t == s.after_grow_single(new_size),
    ensures
        t.wf(),
        t.single_free_leaf(),
        s.strict() ==> t.strict(),
        t.allocations() == s.allocations(),
{
    reveal(AtlasView::wf_except);
    let r = s.root.0 as int;
    assert(s.node_ok(r));
    assert forall|i: int| #[trigger] s.live(i) && i != r implies !s.top_level(i) && !s.leaf(i) by {
        assert(s.node_ok(i));
        assert(s.pair_ok(r, i));
    }
    if s.nodes[r].next_sibling.0 != NONE_INDEX {
        assert(s.live(s.nodes[r].next_sibling.0 as int));
    }
    assert forall|i: int| 0 <= i < t.nodes.len() implies #[trigger] t.node_ok(i) by {
        assert(s.node_ok(i));
        if s.live(i) && i != r {
            assert(!s.top_level(i));
            assert(s.node_ok(s.nodes[i].parent.0 as int));
        }
    }
    assert forall|i: int, j: int|
        0 <= i < t.nodes.len() && 0 <= j < t.nodes.len() implies #[trigger] t.pair_ok(i, j) by {
        assert(s.pair_ok(i, j));
        if s.live(i) && i != r {
            assert(!s.top_level(i) && !s.leaf(i));
        }
        if s.live(j) && j != r {
            assert(!s.top_level(j) && !s.leaf(j));
        }
    }
    assert forall|p: int| 0 <= p < t.nodes.len() implies #[trigger] t.child_ok(p) by {
        assert(s.child_ok(p));
        if t.nodes[p].kind == NodeKind::Container {
            let c = choose|c: int| s.child_of(c, p);
            assert(t.child_of(c, p));
        }
    }
    assert forall|i: int| 0 <= i < t.nodes.len() implies #[trigger] t.canonical_ok(i, -1) by {
        assert(s.canonical_ok(i, -1));
        assert(s.node_ok(i));
    }
    if s.strict() {
        assert forall|i: int| #[trigger] t.live(i) implies t.not_alone(i) by {
            assert(s.live(i));
        }
    }
    assert forall|id: AllocId| t.valid_id(id) == s.valid_id(id) by {}
    assert(t.allocations() =~= s.allocations());
}

/// Stretching the free leaf at the end of the top level over the strip
/// gained along the axis of the top level keeps the tree well formed.
pub proof fn lemma_extend_last(s: AtlasView, last: int, to: i32, t: AtlasView)
    requires
        s.wf(),
        s.top_level(last),
        s.nodes[last].next_sibling.0 == NONE_INDEX,
        s.nodes[last].kind == NodeKind::Free,
        to >= extent(s.size, s.root_orientation()),
        t == s.after_extend_last(last, to),
    ensures
        t.wf(),
        s.strict() ==> t.strict(),
        t.allocations() == s.allocations(),
        t.root_orientation() == s.root_orientation(),
        t.nodes[t.root.0 as int].kind == s.nodes[s.root.0 as int].kind,
        t.root_has_sibling() == s.root_has_sibling(),
        last != s.root.0 ==> t.root_has_sibling(),
{
    reveal(AtlasView::wf_except);
    let o = s.root_orientation();
    assert(s.node_ok(last));
    assert(s.node_ok(s.root.0 as int));
    assert forall|i: int| #[trigger] s.top_level(i) && i != last implies s.nodes[i].next_sibling.0
        != NONE_INDEX by {
        assert(s.node_ok(i));
        assert(s.pair_ok(i, last));
    }
    assert(s.top_level(s.root.0 as int));
    assert forall|i: int| 0 <= i < t.nodes.len() implies #[trigger] t.node_ok(i) by {
        assert(s.node_ok(i));
        if s.top_level(i) && i != last {
            assert(s.nodes[i].next_sibling.0 != NONE_INDEX);
        }
    }
    assert forall|i: int, j: int|
        0 <= i < t.nodes.len() && 0 <= j < t.nodes.len() implies #[trigger] t.pair_ok(i, j) by {
        assert(s.pair_ok(i, j));
        assert(s.node_ok(i));
        assert(s.node_ok(j));
    }
    assert forall|p: int| 0 <= p < t.nodes.len() implies #[trigger] t.child_ok(p) by {
        assert(s.child_ok(p));
        if t.nodes[p].kind == NodeKind::Container {
            let c = choose|c: int| s.child_of(c, p);
            assert(t.child_of(c, p));
        }
    }
    assert forall|i: int| 0 <= i < t.nodes.len() implies #[trigger] t.canonical_ok(i, -1) by {
        assert(s.canonical_ok(i, -1));
        assert(s.node_ok(i));
    }
    if s.strict() {
        assert forall|i: int| #[trigger] t.live(i) implies t.not_alone(i) by {
            assert(s.live(i));
        }
    }
    assert forall|id: AllocId| t.valid_id(id) == s.valid_id(id) by {}
    assert(t.allocations() =~= s.allocations());
}

/// Adding a free leaf over the strip gained along the axis of the top level,
/// after a last node that is not free, keeps the tree well formed.
pub proof fn lemma_append_last(s: AtlasView, last: int, x: int, to: i32, t: AtlasView)
    requires
        s.wf(),
        s.top_level(last),
        s.nodes[last].next_sibling.0 == NONE_INDEX,
        s.nodes[last].kind != NodeKind::Free,
        s.reserved(x),
        to > extent(s.size, s.root_orientation()),
        t == s.after_append_last(last, x, to),
    ensures
        t.wf(),
        s.strict() ==> t.strict(),
        t.allocations() == s.allocations(),
        t.root_orientation() == s.root_orientation(),
        t.root_has_sibling(),
        forall|r: int| s.reserved(r) && r != x ==> t.reserved(r),
{
    reveal(AtlasView::wf_except);
    let o = s.root_orientation();
    assert(s.node_ok(last));
    assert(s.node_ok(s.root.0 as int));
    assert forall|i: int| #[trigger] s.top_level(i) && i != last implies s.nodes[i].next_sibling.0
        != NONE_INDEX by {
        assert(s.node_ok(i));
        assert(s.pair_ok(i, last));
    }
    assert(s.top_level(s.root.0 as int));
    assert forall|i: int| 0 <= i < t.nodes.len() implies #[trigger] t.node_ok(i) by {
        assert(s.node_ok(i));
        if s.top_level(i) && i != last {
            assert(s.nodes[i].next_sibling.0 != NONE_INDEX);
        }
    }
    assert forall|i: int, j: int|
        0 <= i < t.nodes.len() && 0 <= j < t.nodes.len() implies #[trigger] t.pair_ok(i, j) by {
        assert(s.pair_ok(i, j));
        assert(s.node_ok(i));
        assert(s.node_ok(j));
    }
    assert forall|p: int| 0 <= p < t.nodes.len() implies #[trigger] t.child_ok(p) by {
        assert(s.child_ok(p));
        if t.nodes[p].kind == NodeKind::Container {
            let c = choose|c: int| s.child_of(c, p);
            assert(t.child_of(c, p));
        }
    }
    assert forall|i: int| 0 <= i < t.nodes.len() implies #[trigger] t.canonical_ok(i, -1) by {
        assert(s.canonical_ok(i, -1));
        assert(s.node_ok(i));
    }
    if s.strict() {
        assert forall|i: int| #[trigger] t.live(i) implies t.not_alone(i) by {
            if i != x {
                assert(s.live(i));
            }
        }
    }
    assert forall|id: AllocId| t.valid_id(id) == s.valid_id(id) by {}
    assert(t.allocations() =~= s.allocations());
}

/// Putting a new container over the top level, followed by a free leaf over
/// the strip gained across the axis of the old top level, keeps the tree
/// well formed, unless the old top level is a single free leaf. No container
/// has an only child afterwards if none had one before and the old top level
/// held more than one node.
pub proof fn lemma_add_top(s: AtlasView, r: int, f: int, to: i32, t: AtlasView)
    requires
        s.wf(),
        s.reserved(r),
        s.reserved(f),
        r != f,
        !s.lone_free_root(),
        to > extent(s.size, s.root_orientation().flipped_spec()),
        t == s.after_add_top(r, f, to),
    ensures
        t.wf(),
        s.strict() && s.root_has_sibling() ==> t.strict(),
        t.allocations() == s.allocations(),
{
    reveal(AtlasView::wf_except);
    let o = s.root_orientation();
    let root = s.root.0 as int;
    assert(s.node_ok(root));
    assert(s.top_level(root));
    assert forall|i: int| #[trigger] s.top_level(i) && !s.has_sibling(i) implies i == root by {
        assert(s.node_ok(i));
        assert(s.pair_ok(i, root));
    }
    assert forall|i: int| 0 <= i < t.nodes.len() implies #[trigger] t.node_ok(i) by {
        assert(s.node_ok(i));
        if s.live(i) {
            let n = s.nodes[i];
            if n.next_sibling.0 != NONE_INDEX {
                assert(s.node_ok(n.next_sibling.0 as int));
            }
            if n.prev_sibling.0 != NONE_INDEX {
                assert(s.node_ok(n.prev_sibling.0 as int));
            }
            if n.parent.0 != NONE_INDEX {
                assert(s.node_ok(n.parent.0 as int));
            }
        }
    }
    assert forall|i: int, j: int|
        0 <= i < t.nodes.len() && 0 <= j < t.nodes.len() implies #[trigger] t.pair_ok(i, j) by {
        assert(s.pair_ok(i, j));
        assert(s.node_ok(i));
        assert(s.node_ok(j));
    }
    assert forall|p: int| 0 <= p < t.nodes.len() implies #[trigger] t.child_ok(p) by {
        if p == r {
            assert(t.child_of(root, r));
        } else if p != f {
            assert(s.child_ok(p));
            if t.nodes[p].kind == NodeKind::Container {
                let c = choose|c: int| s.child_of(c, p);
                assert(t.child_of(c, p));
            }
        }
    }
    assert forall|i: int| 0 <= i < t.nodes.len() implies #[trigger] t.canonical_ok(i, -1) by {
        if i != r && i != f {
            assert(s.canonical_ok(i, -1));
            assert(s.node_ok(i));
            if s.top_level(i) && !s.has_sibling(i) {
                assert(i == root);
            }
            if s.live(i) && s.nodes[i].parent.0 != NONE_INDEX {
                assert(s.node_ok(s.nodes[i].parent.0 as int));
            }
        }
    }
    if s.strict() && s.has_sibling(root) {
        assert forall|i: int| #[trigger] t.live(i) implies t.not_alone(i) by {
            if i != r && i != f {
                assert(s.live(i));
                assert(s.node_ok(i));
                if s.top_level(i) && !s.has_sibling(i) {
                    assert(i == root);
                }
            }
        }
    }
    assert forall|id: AllocId| t.valid_id(id) == s.valid_id(id) by {}
    assert(t.allocations() =~= s.allocations());
}

} // verus!
