//! The elementary changes of the subdivision tree, and the proof that each
//! keeps the tree sound.

use vstd::prelude::*;
use crate::geometry::{Point, Rectangle};
use crate::model::{hi, lo, AtlasView};
use crate::node::{lemma_pack_unpack, AllocId, AllocIndex, Node, NodeKind, Orientation, NONE_INDEX};

verus! {

/// `r` with its start along `o` moved to `v`.
pub open spec fn with_lo(r: Rectangle, o: Orientation, v: i32) -> Rectangle {
    match o {
        Orientation::Horizontal => Rectangle { min: Point { x: v, y: r.min.y }, max: r.max },
        Orientation::Vertical => Rectangle { min: Point { x: r.min.x, y: v }, max: r.max },
    }
}

/// `r` with its end along `o` moved to `v`.
pub open spec fn with_hi(r: Rectangle, o: Orientation, v: i32) -> Rectangle {
    match o {
        Orientation::Horizontal => Rectangle { min: r.min, max: Point { x: v, y: r.max.y } },
        Orientation::Vertical => Rectangle { min: r.min, max: Point { x: r.max.x, y: v } },
    }
}

/// The part of `r` before `at` along `o`.
pub fn cut_before(r: Rectangle, o: Orientation, at: i32) -> (out: Rectangle)
    ensures
        out == with_hi(r, o, at),
{
    match o {
        Orientation::Horizontal => Rectangle { min: r.min, max: Point { x: at, y: r.max.y } },
        Orientation::Vertical => Rectangle { min: r.min, max: Point { x: r.max.x, y: at } },
    }
}

/// The part of `r` from `at` on along `o`.
pub fn cut_after(r: Rectangle, o: Orientation, at: i32) -> (out: Rectangle)
    ensures
        out == with_lo(r, o, at),
{
    match o {
        Orientation::Horizontal => Rectangle { min: Point { x: at, y: r.min.y }, max: r.max },
        Orientation::Vertical => Rectangle { min: Point { x: r.min.x, y: at }, max: r.max },
    }
}

/// Every handle is the packing of its slot and its generation.
pub proof fn lemma_id_is_packed(id: AllocId)
    ensures
        AllocId::pack(id.slot(), id.generation()) == id,
        0 <= id.slot() < 0x0100_0000,
        0 <= id.generation() < 256,
{
    let n = id.0 as int;
    assert(n == (n / 0x0100_0000) * 0x0100_0000 + n % 0x0100_0000 && 0 <= n % 0x0100_0000
        < 0x0100_0000 && 0 <= n / 0x0100_0000 < 256) by (nonlinear_arith)
        requires
            0 <= n <= 0xFFFF_FFFF,
    ;
}

impl AtlasView {
    /// The state with the arena replaced by `nodes`.
    pub open spec fn with_nodes(self, nodes: Seq<Node>) -> AtlasView {
        AtlasView { nodes, ..self }
    }

    /// The arena after the free leaf `h` is marked allocated.
    pub open spec fn nodes_after_mark(self, h: int, kind: NodeKind) -> Seq<Node> {
        self.nodes.update(h, Node { kind, ..self.nodes[h] })
    }

    /// The arena after the free leaf `h` is cut at `at` along its own axis:
    /// `h` keeps the part before `at`, and the new free leaf `s` takes the
    /// rest and follows `h` among the siblings.
    pub open spec fn nodes_after_split(self, h: int, s: int, at: i32) -> Seq<Node> {
        let n = self.nodes[h];
        let first = Node {
            rect: with_hi(n.rect, n.orientation, at),
            next_sibling: AllocIndex(s as u32),
            ..n
        };
        let second = Node {
            parent: n.parent,
            next_sibling: n.next_sibling,
            prev_sibling: AllocIndex(h as u32),
            kind: NodeKind::Free,
            orientation: n.orientation,
            rect: with_lo(n.rect, n.orientation, at),
        };
        let nodes = self.nodes.update(h, first).update(s, second);
        if n.next_sibling.0 != NONE_INDEX {
            let nx = n.next_sibling.0 as int;
            nodes.update(nx, Node { prev_sibling: AllocIndex(s as u32), ..self.nodes[nx] })
        } else {
            nodes
        }
    }

    /// The state after the free leaf `b`, which follows the free leaf `a`, is
    /// merged into `a`: `a` extends to where `b` ended and takes over the
    /// successor of `b`, and the slot of `b` heads the chain of reusable slots.
    pub open spec fn after_merge(self, a: int, b: int) -> AtlasView {
        let na = self.nodes[a];
        let nb = self.nodes[b];
        let o = na.orientation;
        let first = Node {
            rect: with_hi(na.rect, o, hi(nb.rect, o) as i32),
            next_sibling: nb.next_sibling,
            ..na
        };
        let gone = Node { kind: NodeKind::Unused, next_sibling: self.unused_head, ..nb };
        let nodes = self.nodes.update(a, first).update(b, gone);
        AtlasView {
            nodes: if nb.next_sibling.0 != NONE_INDEX {
                let nx = nb.next_sibling.0 as int;
                nodes.update(nx, Node { prev_sibling: AllocIndex(a as u32), ..self.nodes[nx] })
            } else {
                nodes
            },
            unused_head: AllocIndex(b as u32),
            unused_chain: seq![b] + self.unused_chain,
            ..self
        }
    }

    /// The state after the free leaf `c`, the only child of its parent, is
    /// lifted: the parent becomes a free leaf with the rectangle of `c`, and
    /// the slot of `c` heads the chain of reusable slots.
    pub open spec fn after_collapse(self, c: int) -> AtlasView {
        let nc = self.nodes[c];
        let p = nc.parent.0 as int;
        let gone = Node { kind: NodeKind::Unused, next_sibling: self.unused_head, ..nc };
        AtlasView {
            nodes: self.nodes.update(c, gone).update(
                p,
                Node { rect: nc.rect, kind: NodeKind::Free, ..self.nodes[p] },
            ),
            unused_head: AllocIndex(c as u32),
            unused_chain: seq![c] + self.unused_chain,
            ..self
        }
    }

    /// The arena after the free leaf `h` becomes a container of two new free
    /// leaves laid out along the other axis: `c1` before `at` and `c2` after.
    pub open spec fn nodes_after_subdivide(self, h: int, c1: int, c2: int, at: i32) -> Seq<Node> {
        let n = self.nodes[h];
        let f = n.orientation.flipped_spec();
        self.nodes.update(h, Node { kind: NodeKind::Container, ..n }).update(
            c1,
            Node {
                parent: AllocIndex(h as u32),
                next_sibling: AllocIndex(c2 as u32),
                prev_sibling: AllocIndex(NONE_INDEX),
                kind: NodeKind::Free,
                orientation: f,
                rect: with_hi(n.rect, f, at),
            },
        ).update(
            c2,
            Node {
                parent: AllocIndex(h as u32),
                next_sibling: AllocIndex(NONE_INDEX),
                prev_sibling: AllocIndex(c1 as u32),
                kind: NodeKind::Free,
                orientation: f,
                rect: with_lo(n.rect, f, at),
            },
        )
    }
}

/// A change that leaves every node of the tree as it was, and adds none,
/// keeps the tree sound and as canonical as it was.
pub proof fn lemma_frame(s: AtlasView, t: AtlasView, h: int)
    requires
        s.structure_ok(),
        forall|i: int| 0 <= i < s.nodes.len() ==> #[trigger] s.canonical_ok(i, h),
        t.nodes.len() >= s.nodes.len(),
        forall|i: int| 0 <= i < s.nodes.len() && s.live(i) ==> #[trigger] t.nodes[i] == s.nodes[i],
        forall|i: int| 0 <= i < t.nodes.len() && #[trigger] t.live(i) ==> s.live(i),
        t.size == s.size,
        t.options == s.options,
        t.root == s.root,
    ensures
        t.structure_ok(),
        forall|i: int| 0 <= i < t.nodes.len() ==> #[trigger] t.canonical_ok(i, h),
        (forall|i: int|
            0 <= i < s.nodes.len() && #[trigger] s.nodes[i].kind == NodeKind::Alloc
                ==> t.generations[i] == s.generations[i]) ==> t.allocations() == s.allocations(),
        forall|g: int| s.strict_except(g) ==> t.strict_except(g),
{
    assert(s.live(s.root.0 as int));
    assert forall|i: int| 0 <= i < t.nodes.len() implies #[trigger] t.node_ok(i) by {
        if t.live(i) {
            assert(s.node_ok(i));
            let n = s.nodes[i];
            if n.parent.0 != NONE_INDEX {
                assert(s.live(n.parent.0 as int));
            }
            if n.next_sibling.0 != NONE_INDEX {
                assert(s.live(n.next_sibling.0 as int));
            }
            if n.prev_sibling.0 != NONE_INDEX {
                assert(s.live(n.prev_sibling.0 as int));
            }
        }
    }
    assert forall|i: int, j: int|
        0 <= i < t.nodes.len() && 0 <= j < t.nodes.len() implies #[trigger] t.pair_ok(i, j) by {
        if t.live(i) && t.live(j) {
            assert(s.pair_ok(i, j));
        }
    }
    assert forall|p: int| 0 <= p < t.nodes.len() implies #[trigger] t.child_ok(p) by {
        if t.live(p) && t.nodes[p].kind == NodeKind::Container {
            assert(s.child_ok(p));
            let c = choose|c: int| s.child_of(c, p);
            assert(t.child_of(c, p));
        }
    }
    assert forall|i: int| 0 <= i < t.nodes.len() implies #[trigger] t.canonical_ok(i, h) by {
        if t.live(i) {
            assert(s.canonical_ok(i, h));
            assert(s.node_ok(i));
            let n = s.nodes[i];
            if n.next_sibling.0 != NONE_INDEX {
                assert(s.live(n.next_sibling.0 as int));
            }
        }
    }
    assert forall|g: int| s.strict_except(g) implies t.strict_except(g) by {
        assert forall|i: int| #[trigger] t.live(i) && i != g implies t.not_alone(i) by {
            assert(s.live(i));
        }
    }
    if forall|i: int|
        0 <= i < s.nodes.len() && #[trigger] s.nodes[i].kind == NodeKind::Alloc ==> t.generations[i]
            == s.generations[i] {
        assert forall|id: AllocId| t.valid_id(id) == s.valid_id(id) by {
            if id.slot() < t.nodes.len() && t.nodes[id.slot()].kind == NodeKind::Alloc {
                assert(t.live(id.slot()));
            }
            if id.slot() < s.nodes.len() && s.nodes[id.slot()].kind == NodeKind::Alloc {
                assert(s.live(id.slot()));
            }
        }
        assert forall|id: AllocId| t.valid_id(id) implies t.nodes[id.slot()].rect
            == s.nodes[id.slot()].rect by {
            assert(t.live(id.slot()));
        }
        assert(t.allocations() =~= s.allocations());
    }
}

/// Marking the free leaf `h` allocated restores the canonical form, if `h`
/// was the only exception to it and has a sibling wherever it needs one. The
/// allocations gain the handle of `h`, which was not in use.
pub proof fn lemma_mark_alloc(s: AtlasView, h: int, t: AtlasView)
    requires
        s.wf_except(h),
        0 <= h < s.nodes.len(),
        s.nodes[h].kind == NodeKind::Free,
        s.not_alone(h),
        s.options.is_aligned(s.nodes[h].rect.size_spec()),
        t == s.with_nodes(s.nodes_after_mark(h, NodeKind::Alloc)),
    ensures
        t.wf(),
        !s.allocations().dom().contains(s.id_of(h)),
        t.allocations() == s.allocations().insert(s.id_of(h), s.nodes[h].rect),
        t.valid_id(s.id_of(h)),
        forall|r: int| s.reserved(r) ==> t.reserved(r),
        s.strict_except(h) ==> t.strict(),
{
    reveal(AtlasView::wf_except);
    assert(s.node_ok(h));
    assert forall|i: int| 0 <= i < t.nodes.len() implies #[trigger] t.node_ok(i) by {
        assert(s.node_ok(i));
    }
    assert forall|i: int, j: int|
        0 <= i < t.nodes.len() && 0 <= j < t.nodes.len() implies #[trigger] t.pair_ok(i, j) by {
        assert(s.pair_ok(i, j));
    }
    assert forall|p: int| 0 <= p < t.nodes.len() implies #[trigger] t.child_ok(p) by {
        assert(s.child_ok(p));
        if t.nodes[p].kind == NodeKind::Container {
            let c = choose|c: int| s.child_of(c, p);
            assert(t.child_of(c, p));
        }
    }
    assert forall|i: int| 0 <= i < t.nodes.len() implies #[trigger] t.canonical_ok(i, -1) by {
        assert(s.canonical_ok(i, h));
        assert(s.node_ok(i));
    }
    if s.strict_except(h) {
        assert forall|i: int| #[trigger] t.live(i) implies t.not_alone(i) by {
            assert(s.live(i));
        }
    }
    lemma_pack_unpack(h, s.generations[h] as int);
    assert forall|id: AllocId| t.valid_id(id) == (s.valid_id(id) || id == s.id_of(h)) by {
        lemma_id_is_packed(id);
    }
    assert(t.allocations() =~= s.allocations().insert(s.id_of(h), s.nodes[h].rect));
}

/// What a cut along the own axis starts from: the tree is well formed, `h`
/// is a free leaf, `x` is a slot taken for the new leaf, and `at` lies
/// strictly within `h` along its axis.
pub open spec fn split_ready(s: AtlasView, h: int, x: int, at: i32) -> bool {
    &&& s.wf()
    &&& 0 <= h < s.nodes.len()
    &&& s.nodes[h].kind == NodeKind::Free
    &&& s.reserved(x)
    &&& lo(s.nodes[h].rect, s.nodes[h].orientation) < at < hi(
        s.nodes[h].rect,
        s.nodes[h].orientation,
    )
}

/// After a cut along the own axis every node is sound by itself and with its
/// neighbours.
proof fn lemma_split_nodes(s: AtlasView, h: int, x: int, at: i32)
    requires
        split_ready(s, h, x, at),
    ensures
        s.nodes_after_split(h, x, at).len() == s.nodes.len(),
        forall|i: int|
            0 <= i < s.nodes.len() ==> #[trigger] s.with_nodes(
                s.nodes_after_split(h, x, at),
            ).node_ok(i),
{
    reveal(AtlasView::wf_except);
    let t = s.with_nodes(s.nodes_after_split(h, x, at));
    let n = s.nodes[h];
    assert(s.node_ok(h));
    if n.next_sibling.0 != NONE_INDEX {
        assert(s.node_ok(n.next_sibling.0 as int));
    }
    if n.parent.0 != NONE_INDEX {
        assert(s.node_ok(n.parent.0 as int));
    }
    assert(s.node_ok(s.root.0 as int));
    assert forall|i: int| 0 <= i < t.nodes.len() implies #[trigger] t.node_ok(i) by {
        assert(s.node_ok(i));
        if i != h && i != x && s.live(i) {
            assert(s.pair_ok(i, h));
        }
    }
}

/// After a cut along the own axis siblings share no cell, and neither do
/// leaves.
proof fn lemma_split_pairs(s: AtlasView, h: int, x: int, at: i32)
    requires
        split_ready(s, h, x, at),
    ensures
        forall|i: int, j: int|
            0 <= i < s.nodes.len() && 0 <= j < s.nodes.len() ==> #[trigger] s.with_nodes(
                s.nodes_after_split(h, x, at),
            ).pair_ok(i, j),
{
    reveal(AtlasView::wf_except);
    let t = s.with_nodes(s.nodes_after_split(h, x, at));
    let n = s.nodes[h];
    assert(s.node_ok(h));
    if n.next_sibling.0 != NONE_INDEX {
        assert(s.node_ok(n.next_sibling.0 as int));
    }
    assert forall|i: int, j: int|
        0 <= i < t.nodes.len() && 0 <= j < t.nodes.len() implies #[trigger] t.pair_ok(i, j) by {
        assert(s.pair_ok(i, j));
        assert(s.pair_ok(i, h));
        assert(s.pair_ok(h, j));
    }
}

/// After a cut along the own axis every container has a child, and the
/// canonical form fails at most around the leaf that was cut.
proof fn lemma_split_shape(s: AtlasView, h: int, x: int, at: i32)
    requires
        split_ready(s, h, x, at),
    ensures
        forall|p: int|
            0 <= p < s.nodes.len() ==> #[trigger] s.with_nodes(
                s.nodes_after_split(h, x, at),
            ).child_ok(p),
        forall|i: int|
            0 <= i < s.nodes.len() ==> #[trigger] s.with_nodes(
                s.nodes_after_split(h, x, at),
            ).canonical_ok(i, h),
        s.strict() ==> s.with_nodes(s.nodes_after_split(h, x, at)).strict(),
{
    reveal(AtlasView::wf_except);
    let t = s.with_nodes(s.nodes_after_split(h, x, at));
    let n = s.nodes[h];
    assert(s.node_ok(h));
    assert(s.canonical_ok(h, -1));
    if n.next_sibling.0 != NONE_INDEX {
        assert(s.node_ok(n.next_sibling.0 as int));
    }
    assert forall|p: int| 0 <= p < t.nodes.len() implies #[trigger] t.child_ok(p) by {
        assert(s.child_ok(p));
        if t.nodes[p].kind == NodeKind::Container {
            let c = choose|c: int| s.child_of(c, p);
            assert(t.child_of(c, p));
        }
    }
    assert forall|i: int| 0 <= i < t.nodes.len() implies #[trigger] t.canonical_ok(i, h) by {
        assert(s.canonical_ok(i, -1));
        assert(s.node_ok(i));
    }
    if s.strict() {
        assert forall|i: int| #[trigger] t.live(i) implies t.not_alone(i) by {
            if i != x {
                assert(s.live(i));
            }
        }
    }
}

/// Cutting the free leaf `h` of a well-formed tree in two along its own axis
/// keeps the tree sound; the canonical form then fails only around `h`, which
/// is followed by the new free leaf.
pub proof fn lemma_split(s: AtlasView, h: int, x: int, at: i32, t: AtlasView)
    requires
        split_ready(s, h, x, at),
        t == s.with_nodes(s.nodes_after_split(h, x, at)),
    ensures
        t.wf_except(h),
        t.allocations() == s.allocations(),
        forall|r: int| s.reserved(r) && r != x ==> t.reserved(r),
        s.strict() ==> t.strict(),
{
    lemma_split_nodes(s, h, x, at);
    lemma_split_pairs(s, h, x, at);
    lemma_split_shape(s, h, x, at);
    reveal(AtlasView::wf_except);
    assert(s.node_ok(h));
    if s.nodes[h].next_sibling.0 != NONE_INDEX {
        assert(s.node_ok(s.nodes[h].next_sibling.0 as int));
    }
    assert(t.chain_ok());
    assert forall|id: AllocId| t.valid_id(id) == s.valid_id(id) by {}
    assert(t.allocations() =~= s.allocations());
}

/// What a cut across the own axis starts from: `h` is a free leaf that has
/// the sibling it needs and is the only exception to the canonical form,
/// `c1` and `c2` are slots taken for the new leaves, and `at` lies strictly
/// within `h` across its axis.
pub open spec fn subdivide_ready(s: AtlasView, h: int, c1: int, c2: int, at: i32) -> bool {
    &&& s.wf_except(h)
    &&& 0 <= h < s.nodes.len()
    &&& s.nodes[h].kind == NodeKind::Free
    &&& s.not_alone(h)
    &&& s.reserved(c1)
    &&& s.reserved(c2)
    &&& c1 != c2
    &&& lo(s.nodes[h].rect, s.nodes[h].orientation.flipped_spec()) < at < hi(
        s.nodes[h].rect,
        s.nodes[h].orientation.flipped_spec(),
    )
}

/// After a cut across the own axis every node is sound by itself and with
/// its neighbours.
proof fn lemma_subdivide_nodes(s: AtlasView, h: int, c1: int, c2: int, at: i32)
    requires
        subdivide_ready(s, h, c1, c2, at),
    ensures
        s.nodes_after_subdivide(h, c1, c2, at).len() == s.nodes.len(),
        forall|i: int|
            0 <= i < s.nodes.len() ==> #[trigger] s.with_nodes(
                s.nodes_after_subdivide(h, c1, c2, at),
            ).node_ok(i),
{
    reveal(AtlasView::wf_except);
    let t = s.with_nodes(s.nodes_after_subdivide(h, c1, c2, at));
    assert(s.node_ok(h));
    assert(s.node_ok(s.root.0 as int));
    assert forall|i: int| 0 <= i < t.nodes.len() implies #[trigger] t.node_ok(i) by {
        assert(s.node_ok(i));
    }
}

/// After a cut across the own axis siblings share no cell, and neither do
/// leaves.
proof fn lemma_subdivide_pairs(s: AtlasView, h: int, c1: int, c2: int, at: i32)
    requires
        subdivide_ready(s, h, c1, c2, at),
    ensures
        forall|i: int, j: int|
            0 <= i < s.nodes.len() && 0 <= j < s.nodes.len() ==> #[trigger] s.with_nodes(
                s.nodes_after_subdivide(h, c1, c2, at),
            ).pair_ok(i, j),
{
    reveal(AtlasView::wf_except);
    let t = s.with_nodes(s.nodes_after_subdivide(h, c1, c2, at));
    assert(s.node_ok(h));
    assert forall|i: int, j: int|
        0 <= i < t.nodes.len() && 0 <= j < t.nodes.len() implies #[trigger] t.pair_ok(i, j) by {
        assert(s.pair_ok(i, j));
        assert(s.pair_ok(i, h));
        assert(s.pair_ok(h, j));
        assert(s.node_ok(i));
        assert(s.node_ok(j));
    }
}

/// After a cut across the own axis every container has a child, and the
/// canonical form fails at most around the first of the new leaves.
proof fn lemma_subdivide_shape(s: AtlasView, h: int, c1: int, c2: int, at: i32)
    requires
        subdivide_ready(s, h, c1, c2, at),
    ensures
        forall|p: int|
            0 <= p < s.nodes.len() ==> #[trigger] s.with_nodes(
                s.nodes_after_subdivide(h, c1, c2, at),
            ).child_ok(p),
        forall|i: int|
            0 <= i < s.nodes.len() ==> #[trigger] s.with_nodes(
                s.nodes_after_subdivide(h, c1, c2, at),
            ).canonical_ok(i, c1),
        s.strict_except(h) ==> s.with_nodes(s.nodes_after_subdivide(h, c1, c2, at)).strict(),
{
    reveal(AtlasView::wf_except);
    let t = s.with_nodes(s.nodes_after_subdivide(h, c1, c2, at));
    assert(s.node_ok(h));
    assert(s.canonical_ok(h, h));
    assert forall|p: int| 0 <= p < t.nodes.len() implies #[trigger] t.child_ok(p) by {
        assert(s.child_ok(p));
        if p == h {
            assert(t.child_of(c1, p));
        } else if t.nodes[p].kind == NodeKind::Container {
            let c = choose|c: int| s.child_of(c, p);
            assert(t.child_of(c, p));
        }
    }
    assert forall|i: int| 0 <= i < t.nodes.len() implies #[trigger] t.canonical_ok(i, c1) by {
        assert(s.canonical_ok(i, h));
        assert(s.node_ok(i));
    }
    if s.strict_except(h) {
        assert forall|i: int| #[trigger] t.live(i) implies t.not_alone(i) by {
            if i != c1 && i != c2 {
                assert(s.live(i));
            }
        }
    }
}

/// Turning the free leaf `h` into a container of two free leaves keeps the
/// tree sound, if `h` was the only exception to the canonical form and has a
/// sibling wherever it needs one; the first child is then the only exception.
pub proof fn lemma_subdivide(s: AtlasView, h: int, c1: int, c2: int, at: i32, t: AtlasView)
    requires
        subdivide_ready(s, h, c1, c2, at),
        t == s.with_nodes(s.nodes_after_subdivide(h, c1, c2, at)),
    ensures
        t.wf_except(c1),
        t.allocations() == s.allocations(),
        forall|r: int| s.reserved(r) && r != c1 && r != c2 ==> t.reserved(r),
        s.strict_except(h) ==> t.strict(),
{
    lemma_subdivide_nodes(s, h, c1, c2, at);
    lemma_subdivide_pairs(s, h, c1, c2, at);
    lemma_subdivide_shape(s, h, c1, c2, at);
    reveal(AtlasView::wf_except);
    assert(t.chain_ok());
    assert forall|id: AllocId| t.valid_id(id) == s.valid_id(id) by {}
    assert(t.allocations() =~= s.allocations());
}

/// A change of the buckets alone, to entries that name slots of the arena,
/// keeps the tree as it is.
pub proof fn lemma_lists_changed(s: AtlasView, t: AtlasView, h: int)
    requires
        s.wf_except(h),
        t == (AtlasView { free_lists: t.free_lists, ..s }),
        t.lists_ok(),
    ensures
        t.wf_except(h),
        t.allocations() == s.allocations(),
        forall|r: int| s.reserved(r) ==> t.reserved(r),
        forall|g: int| s.strict_except(g) ==> t.strict_except(g),
{
    reveal(AtlasView::wf_except);
    lemma_frame(s, t, h);
}

/// A well-formed tree is sound whichever node is taken to be exempt from the
/// canonical form, and none of its free leaves is an only child.
pub proof fn lemma_wf_weaken(s: AtlasView, h: int)
    requires
        s.wf(),
    ensures
        s.wf_except(h),
        s.strict() ==> s.strict_except(h),
        forall|i: int|
            s.live(i) && s.nodes[i].kind == NodeKind::Free ==> #[trigger] s.not_alone(i),
        forall|i: int| s.live(i) ==> #[trigger] s.anchored(i),
{
    reveal(AtlasView::wf_except);
    assert forall|i: int| 0 <= i < s.nodes.len() implies #[trigger] s.canonical_ok(i, h) by {
        assert(s.canonical_ok(i, -1));
    }
    assert forall|i: int| s.live(i) && s.nodes[i].kind == NodeKind::Free implies #[trigger] s.not_alone(
        i,
    ) by {
        assert(s.canonical_ok(i, -1));
    }
    assert forall|i: int| s.live(i) implies #[trigger] s.anchored(i) by {
        assert(s.canonical_ok(i, -1));
    }
}

/// What a tree that is sound up to the canonical form at `h` gives at once:
/// the arena is consistent, and the root is a top-level node of the tree.
pub proof fn lemma_basics(s: AtlasView, h: int)
    requires
        s.wf_except(h),
    ensures
        s.arena_ok(),
        s.root.0 < s.nodes.len(),
        s.live(s.root.0 as int),
        s.nodes[s.root.0 as int].parent.0 == NONE_INDEX,
        s.nodes[s.root.0 as int].prev_sibling.0 == NONE_INDEX,
{
    reveal(AtlasView::wf_except);
}

/// What a tree that is sound up to the canonical form at `h` gives for one of
/// its nodes.
pub proof fn lemma_node(s: AtlasView, h: int, i: int)
    requires
        s.wf_except(h),
        s.live(i),
    ensures
        s.node_ok(i),
        s.canonical_ok(i, h),
{
    reveal(AtlasView::wf_except);
}

/// Releasing the allocated leaf `h` of a well-formed tree keeps the tree
/// sound; the canonical form may then fail around `h`. The allocations lose
/// the handle of `h` and keep the others.
pub proof fn lemma_mark_free(s: AtlasView, h: int, t: AtlasView)
    requires
        s.wf(),
        0 <= h < s.nodes.len(),
        s.nodes[h].kind == NodeKind::Alloc,
        t == s.with_nodes(s.nodes_after_mark(h, NodeKind::Free)),
    ensures
        t.wf_except(h),
        t.anchored(h),
        s.strict() ==> t.strict(),
        t.allocations() == s.allocations().remove(s.id_of(h)),
{
    reveal(AtlasView::wf_except);
    assert(s.node_ok(h));
    assert(s.canonical_ok(h, -1));
    assert forall|i: int| 0 <= i < t.nodes.len() implies #[trigger] t.node_ok(i) by {
        assert(s.node_ok(i));
    }
    assert forall|i: int, j: int|
        0 <= i < t.nodes.len() && 0 <= j < t.nodes.len() implies #[trigger] t.pair_ok(i, j) by {
        assert(s.pair_ok(i, j));
    }
    assert forall|p: int| 0 <= p < t.nodes.len() implies #[trigger] t.child_ok(p) by {
        assert(s.child_ok(p));
        if t.nodes[p].kind == NodeKind::Container {
            let c = choose|c: int| s.child_of(c, p);
            assert(t.child_of(c, p));
        }
    }
    assert forall|i: int| 0 <= i < t.nodes.len() implies #[trigger] t.canonical_ok(i, h) by {
        assert(s.canonical_ok(i, -1));
        assert(s.node_ok(i));
    }
    if s.strict() {
        assert forall|i: int| #[trigger] t.live(i) implies t.not_alone(i) by {
            assert(s.live(i));
        }
    }
    lemma_pack_unpack(h, s.generations[h] as int);
    assert forall|id: AllocId| t.valid_id(id) == (s.valid_id(id) && id != s.id_of(h)) by {
        lemma_id_is_packed(id);
    }
    assert(t.allocations() =~= s.allocations().remove(s.id_of(h)));
}

/// What a merge starts from: `b` follows `a`, both are free leaves, and one of
/// them is the only exception to the canonical form.
pub open spec fn merge_ready(s: AtlasView, a: int, b: int, h: int) -> bool {
    &&& s.wf_except(h)
    &&& (h == a || h == b)
    &&& s.live(a)
    &&& s.nodes[a].kind == NodeKind::Free
    &&& s.nodes[a].next_sibling.0 == b
    &&& b != NONE_INDEX
    &&& s.nodes[b].kind == NodeKind::Free
}

/// After a merge every node is sound by itself and with its neighbours.
#[verifier::rlimit(30)]
proof fn lemma_merge_nodes(s: AtlasView, a: int, b: int, h: int)
    requires
        merge_ready(s, a, b, h),
    ensures
        s.after_merge(a, b).nodes.len() == s.nodes.len(),
        forall|i: int| 0 <= i < s.nodes.len() ==> #[trigger] s.after_merge(a, b).node_ok(i),
{
    reveal(AtlasView::wf_except);
    let t = s.after_merge(a, b);
    let nb = s.nodes[b];
    assert(s.node_ok(a));
    assert(s.node_ok(b));
    if nb.next_sibling.0 != NONE_INDEX {
        assert(s.node_ok(nb.next_sibling.0 as int));
    }
    assert forall|i: int| 0 <= i < t.nodes.len() implies #[trigger] t.node_ok(i) by {
        assert(s.node_ok(i));
    }
}

/// After a merge siblings share no cell, and neither do leaves.
proof fn lemma_merge_pairs(s: AtlasView, a: int, b: int, h: int)
    requires
        merge_ready(s, a, b, h),
    ensures
        forall|i: int, j: int|
            0 <= i < s.nodes.len() && 0 <= j < s.nodes.len() ==> #[trigger] s.after_merge(
                a,
                b,
            ).pair_ok(i, j),
{
    reveal(AtlasView::wf_except);
    let t = s.after_merge(a, b);
    let nb = s.nodes[b];
    assert(s.node_ok(a));
    assert(s.node_ok(b));
    if nb.next_sibling.0 != NONE_INDEX {
        assert(s.node_ok(nb.next_sibling.0 as int));
    }
    assert forall|i: int, j: int|
        0 <= i < t.nodes.len() && 0 <= j < t.nodes.len() implies #[trigger] t.pair_ok(i, j) by {
        assert(s.pair_ok(i, j));
        assert(s.pair_ok(a, j));
        assert(s.pair_ok(b, j));
        assert(s.pair_ok(i, a));
        assert(s.pair_ok(i, b));
        assert(s.node_ok(i));
        assert(s.node_ok(j));
    }
}

/// After a merge every container has a child, and the canonical form fails
/// at most around the leaf that took the other in.
proof fn lemma_merge_shape(s: AtlasView, a: int, b: int, h: int)
    requires
        merge_ready(s, a, b, h),
    ensures
        forall|p: int| 0 <= p < s.nodes.len() ==> #[trigger] s.after_merge(a, b).child_ok(p),
        forall|i: int| 0 <= i < s.nodes.len() ==> #[trigger] s.after_merge(a, b).canonical_ok(i, a),
        s.strict_except(h) ==> s.after_merge(a, b).strict_except(a),
{
    reveal(AtlasView::wf_except);
    let t = s.after_merge(a, b);
    let nb = s.nodes[b];
    assert(s.node_ok(a));
    assert(s.node_ok(b));
    if nb.next_sibling.0 != NONE_INDEX {
        assert(s.node_ok(nb.next_sibling.0 as int));
    }
    assert forall|p: int| 0 <= p < t.nodes.len() implies #[trigger] t.child_ok(p) by {
        assert(s.child_ok(p));
        assert(s.node_ok(p));
        if t.nodes[p].kind == NodeKind::Container {
            let c = choose|c: int| s.child_of(c, p);
            if c == b {
                assert(t.child_of(a, p));
            } else {
                assert(t.child_of(c, p));
            }
        }
    }
    assert forall|i: int| 0 <= i < t.nodes.len() implies #[trigger] t.canonical_ok(i, a) by {
        assert(s.canonical_ok(i, h));
        assert(s.node_ok(i));
        if t.live(i) && t.nodes[i].parent.0 != NONE_INDEX {
            assert(s.node_ok(t.nodes[i].parent.0 as int));
        }
    }
    if s.strict_except(h) {
        assert forall|i: int| #[trigger] t.live(i) && i != a implies t.not_alone(i) by {
            assert(s.live(i));
            assert(s.node_ok(i));
        }
    }
}

/// After a slot is put at the head of the chain of reusable slots, the
/// chain is a proper list again, if the slot was not in it and the slots in
/// it have not changed.
pub proof fn lemma_chain_extended(s: AtlasView, t: AtlasView, x: int)
    requires
        s.chain_ok(),
        0 <= x < s.nodes.len(),
        s.nodes[x].kind != NodeKind::Unused,
        t.nodes.len() == s.nodes.len(),
        t.nodes[x].kind == NodeKind::Unused,
        t.nodes[x].next_sibling == s.unused_head,
        t.unused_head.0 == x,
        t.unused_chain == seq![x] + s.unused_chain,
        forall|i: int|
            0 <= i < s.nodes.len() && s.nodes[i].kind == NodeKind::Unused
                ==> #[trigger] t.nodes[i] == s.nodes[i],
    ensures
        t.chain_ok(),
{
    let chain = s.unused_chain;
    let out = t.unused_chain;
    assert forall|k: int| 0 <= k < out.len() implies {
        &&& 0 <= #[trigger] out[k] < t.nodes.len()
        &&& t.nodes[out[k]].kind == NodeKind::Unused
        &&& t.nodes[out[k]].next_sibling.0 == if k + 1 < out.len() {
            out[k + 1]
        } else {
            NONE_INDEX as int
        }
    } by {
        if k > 0 {
            assert(out[k] == chain[k - 1]);
        }
        if k + 1 < out.len() {
            assert(out[k + 1] == chain[k]);
        }
    }
    assert forall|k: int, l: int| 0 <= k < l < out.len() implies #[trigger] out[k]
        != #[trigger] out[l] by {
        assert(out[l] == chain[l - 1]);
        if k > 0 {
            assert(out[k] == chain[k - 1]);
        }
    }
}

/// Merging the free leaf `b` into the free leaf `a` that it follows keeps the
/// tree sound, if one of the two was the only exception to the canonical
/// form; `a` is the only exception afterwards.
pub proof fn lemma_merge(s: AtlasView, a: int, b: int, h: int, t: AtlasView)
    requires
        merge_ready(s, a, b, h),
        t == s.after_merge(a, b),
    ensures
        t.wf_except(a),
        s.strict_except(h) ==> t.strict_except(a),
        t.allocations() == s.allocations(),
{
    lemma_merge_nodes(s, a, b, h);
    lemma_merge_pairs(s, a, b, h);
    lemma_merge_shape(s, a, b, h);
    reveal(AtlasView::wf_except);
    assert(s.node_ok(a));
    assert(s.node_ok(b));
    if s.nodes[b].next_sibling.0 != NONE_INDEX {
        assert(s.node_ok(s.nodes[b].next_sibling.0 as int));
    }
    lemma_chain_extended(s, t, b);
    assert forall|id: AllocId| t.valid_id(id) == s.valid_id(id) by {}
    assert(t.allocations() =~= s.allocations());
}

/// Lifting the free leaf `c`, the only child of its parent, keeps the tree
/// sound, if `c` was the only exception to the canonical form; the parent is
/// the only exception afterwards, and it has the siblings that it had.
pub proof fn lemma_collapse(s: AtlasView, c: int, t: AtlasView)
    requires
        s.wf_except(c),
        s.live(c),
        s.nodes[c].kind == NodeKind::Free,
        s.nodes[c].parent.0 != NONE_INDEX,
        s.nodes[c].prev_sibling.0 == NONE_INDEX,
        s.nodes[c].next_sibling.0 == NONE_INDEX,
        t == s.after_collapse(c),
    ensures
        t.wf_except(s.nodes[c].parent.0 as int),
        t.anchored(s.nodes[c].parent.0 as int),
        s.strict_except(c) ==> t.strict(),
        t.nodes[s.nodes[c].parent.0 as int].rect == s.nodes[c].rect,
        t.allocations() == s.allocations(),
{
    reveal(AtlasView::wf_except);
    let nc = s.nodes[c];
    let p = nc.parent.0 as int;
    assert(s.node_ok(c));
    assert(s.node_ok(p));
    assert(s.canonical_ok(p, c));
    assert(nc.rect == s.nodes[p].rect);
    assert forall|i: int| #[trigger] s.live(i) && i != c implies s.nodes[i].parent.0 != p by {
        assert(s.node_ok(i));
        assert(s.pair_ok(c, i));
    }
    assert forall|i: int| 0 <= i < t.nodes.len() implies #[trigger] t.node_ok(i) by {
        assert(s.node_ok(i));
        if s.live(i) && i != c {
            assert(s.nodes[i].parent.0 != p);
            let n = s.nodes[i];
            if n.next_sibling.0 != NONE_INDEX {
                assert(s.node_ok(n.next_sibling.0 as int));
            }
            if n.prev_sibling.0 != NONE_INDEX {
                assert(s.node_ok(n.prev_sibling.0 as int));
            }
        }
    }
    assert forall|i: int, j: int|
        0 <= i < t.nodes.len() && 0 <= j < t.nodes.len() implies #[trigger] t.pair_ok(i, j) by {
        assert(s.pair_ok(i, j));
        assert(s.pair_ok(c, j));
        assert(s.pair_ok(i, c));
    }
    assert forall|q: int| 0 <= q < t.nodes.len() implies #[trigger] t.child_ok(q) by {
        assert(s.child_ok(q));
        if t.nodes[q].kind == NodeKind::Container {
            let w = choose|w: int| s.child_of(w, q);
            assert(t.child_of(w, q));
        }
    }
    assert forall|i: int| 0 <= i < t.nodes.len() implies #[trigger] t.canonical_ok(i, p) by {
        assert(s.canonical_ok(i, c));
        assert(s.node_ok(i));
        if s.live(i) && i != c {
            assert(s.nodes[i].parent.0 != p);
            if s.nodes[i].parent.0 != NONE_INDEX {
                assert(s.node_ok(s.nodes[i].parent.0 as int));
            }
        }
    }
    if s.strict_except(c) {
        assert forall|i: int| #[trigger] t.live(i) implies t.not_alone(i) by {
            if i != c {
                assert(s.live(i));
            }
        }
    }
    lemma_chain_extended(s, t, c);
    assert forall|id: AllocId| t.valid_id(id) == s.valid_id(id) by {}
    assert(t.allocations() =~= s.allocations());
}

/// A tree whose only exception to the canonical form is the node `h` is well
/// formed once `h` has the sibling that it needs and neither follows nor is
/// followed by a free leaf while free itself.
pub proof fn lemma_settle(s: AtlasView, h: int)
    requires
        s.wf_except(h),
        s.live(h),
        s.not_alone(h),
        s.no_free_neighbour(h),
    ensures
        s.wf(),
        s.strict_except(h) ==> s.strict(),
{
    reveal(AtlasView::wf_except);
    if s.strict_except(h) {
        assert forall|i: int| #[trigger] s.live(i) implies s.not_alone(i) by {}
    }
    assert(s.node_ok(h));
    assert forall|i: int| 0 <= i < s.nodes.len() implies #[trigger] s.canonical_ok(i, -1) by {
        assert(s.canonical_ok(i, h));
        assert(s.node_ok(i));
    }
}

} // verus!
