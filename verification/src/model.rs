//! The mathematical model of the tree allocator: the arena as sequences, and
//! the invariants of the subdivision tree stated over it.

use vstd::prelude::*;
use crate::free_list::{any_candidate, find_from};
use crate::geometry::{Rectangle, Size};
use crate::node::{
    AllocId, AllocIndex, Allocation, Change, Node, NodeKind, Orientation, NONE_INDEX,
};
use crate::options::{round_up, AllocatorOptions, SMALL_BUCKET};

verus! {

/// Where `r` starts along the axis `o`.
pub open spec fn lo(r: Rectangle, o: Orientation) -> int {
    match o {
        Orientation::Horizontal => r.min.x as int,
        Orientation::Vertical => r.min.y as int,
    }
}

/// Where `r` ends along the axis `o`.
pub open spec fn hi(r: Rectangle, o: Orientation) -> int {
    match o {
        Orientation::Horizontal => r.max.x as int,
        Orientation::Vertical => r.max.y as int,
    }
}

/// `a` is the old side of one of `changes` or one of `failures`.
pub open spec fn reported(changes: Seq<Change>, failures: Seq<Allocation>, a: Allocation) -> bool {
    (exists|k: int| 0 <= k < changes.len() && (#[trigger] changes[k]).old == a) || (exists|k: int|
        0 <= k < failures.len() && #[trigger] failures[k] == a)
}

/// The state of a tree allocator as plain values.
pub struct AtlasView {
    /// The arena.
    pub nodes: Seq<Node>,
    /// The generation of each slot of the arena.
    pub generations: Seq<u8>,
    /// The three buckets of candidate free leaves, which may hold stale entries.
    pub free_lists: Seq<Seq<AllocIndex>>,
    /// The first reusable slot, or the sentinel.
    pub unused_head: AllocIndex,
    /// The reusable slots in the order in which they will be handed out.
    pub unused_chain: Seq<int>,
    pub options: AllocatorOptions,
    /// The extent of the atlas.
    pub size: Size,
    /// The first node of the top-level sibling chain.
    pub root: AllocIndex,
}

impl AtlasView {
    /// The rectangle of the whole atlas.
    pub open spec fn atlas_rect(self) -> Rectangle {
        Rectangle::from_size_spec(self.size)
    }

    /// Slot `i` exists and is part of the tree.
    pub open spec fn live(self, i: int) -> bool {
        0 <= i < self.nodes.len() && self.nodes[i].kind != NodeKind::Unused
    }

    /// Slot `i` holds a leaf of the tree.
    pub open spec fn leaf(self, i: int) -> bool {
        0 <= i < self.nodes.len() && (self.nodes[i].kind == NodeKind::Free || self.nodes[i].kind
            == NodeKind::Alloc)
    }

    /// Node `c` is a child of node `p`.
    pub open spec fn child_of(self, c: int, p: int) -> bool {
        self.live(c) && self.nodes[c].parent.0 == p
    }

    /// The rectangle that node `i` and its siblings divide among themselves:
    /// that of their parent, or the whole atlas at the top level.
    pub open spec fn region(self, i: int) -> Rectangle {
        let p = self.nodes[i].parent;
        if p.0 == NONE_INDEX {
            self.atlas_rect()
        } else {
            self.nodes[p.0 as int].rect
        }
    }

    /// What holds of a node of the tree by itself and with its neighbours: its
    /// rectangle holds cells and lies in the atlas; its parent is a container
    /// of the other orientation; across its own axis it spans its region;
    /// along its axis it starts where its predecessor ends, or where the
    /// region starts, and ends where the region ends if it is the last; the
    /// sibling links agree in both directions.
    pub open spec fn node_ok(self, i: int) -> bool {
        let n = self.nodes[i];
        let o = n.orientation;
        let reg = self.region(i);
        n.kind != NodeKind::Unused ==> {
            &&& 0 <= n.rect.min.x < n.rect.max.x <= self.size.width
            &&& 0 <= n.rect.min.y < n.rect.max.y <= self.size.height
            &&& if n.parent.0 == NONE_INDEX {
                o == self.nodes[self.root.0 as int].orientation
            } else {
                &&& n.parent.0 < self.nodes.len()
                &&& self.nodes[n.parent.0 as int].kind == NodeKind::Container
                &&& self.nodes[n.parent.0 as int].orientation == o.flipped_spec()
            }
            &&& lo(n.rect, o.flipped_spec()) == lo(reg, o.flipped_spec())
            &&& hi(n.rect, o.flipped_spec()) == hi(reg, o.flipped_spec())
            &&& lo(reg, o) <= lo(n.rect, o)
            &&& hi(n.rect, o) <= hi(reg, o)
            &&& if n.next_sibling.0 == NONE_INDEX {
                hi(n.rect, o) == hi(reg, o)
            } else {
                let m = self.nodes[n.next_sibling.0 as int];
                &&& n.next_sibling.0 < self.nodes.len()
                &&& m.kind != NodeKind::Unused
                &&& m.prev_sibling.0 == i
                &&& m.parent == n.parent
                &&& m.orientation == o
                &&& lo(m.rect, o) == hi(n.rect, o)
            }
            &&& if n.prev_sibling.0 == NONE_INDEX {
                lo(n.rect, o) == lo(reg, o)
            } else {
                let m = self.nodes[n.prev_sibling.0 as int];
                &&& n.prev_sibling.0 < self.nodes.len()
                &&& m.kind != NodeKind::Unused
                &&& m.next_sibling.0 == i
            }
            &&& n.kind == NodeKind::Alloc ==> self.options.is_aligned(n.rect.size_spec())
        }
    }

    /// Two distinct nodes that are siblings, or that are both leaves, share no
    /// cell.
    pub open spec fn pair_ok(self, i: int, j: int) -> bool {
        (self.live(i) && self.live(j) && i != j && (self.nodes[i].parent == self.nodes[j].parent
            || (self.leaf(i) && self.leaf(j)))) ==> !self.nodes[i].rect.intersects_spec(
            self.nodes[j].rect,
        )
    }

    /// A container has a child.
    pub open spec fn child_ok(self, p: int) -> bool {
        self.nodes[p].kind == NodeKind::Container ==> exists|c: int| self.child_of(c, p)
    }

    /// The width and the height of the rectangle of node `i`, added up.
    pub open spec fn girth(self, i: int) -> int {
        self.nodes[i].rect.width_spec() + self.nodes[i].rect.height_spec()
    }

    /// Node `i` is followed by a free leaf.
    pub open spec fn next_is_free(self, i: int) -> bool {
        let n = self.nodes[i];
        n.next_sibling.0 != NONE_INDEX && self.nodes[n.next_sibling.0 as int].kind
            == NodeKind::Free
    }

    /// Node `i` follows a free leaf.
    pub open spec fn prev_is_free(self, i: int) -> bool {
        let n = self.nodes[i];
        n.prev_sibling.0 != NONE_INDEX && self.nodes[n.prev_sibling.0 as int].kind
            == NodeKind::Free
    }

    /// Node `i` is not free, or neither follows nor is followed by a free
    /// leaf.
    pub open spec fn no_free_neighbour(self, i: int) -> bool {
        self.nodes[i].kind == NodeKind::Free ==> !self.next_is_free(i) && !self.prev_is_free(i)
    }

    /// Node `i` has a sibling before or after it.
    pub open spec fn has_sibling(self, i: int) -> bool {
        self.nodes[i].prev_sibling.0 != NONE_INDEX || self.nodes[i].next_sibling.0 != NONE_INDEX
    }

    /// Node `i` is at the top level or has a sibling.
    pub open spec fn not_alone(self, i: int) -> bool {
        self.nodes[i].parent.0 != NONE_INDEX ==> self.has_sibling(i)
    }

    /// If node `i` is the only child of its parent, the parent has a sibling.
    pub open spec fn anchored(self, i: int) -> bool {
        !self.not_alone(i) ==> self.has_sibling(self.nodes[i].parent.0 as int)
    }

    /// The canonical form at node `i`, where the node `h` is exempt from the
    /// first part: an only child is not free and its parent has a sibling,
    /// and a free leaf is not followed by a free leaf.
    ///
    /// An only child comes about only when the atlas grows across the axis of
    /// a top level that holds a single node.
    pub open spec fn canonical_ok(self, i: int, h: int) -> bool {
        let n = self.nodes[i];
        n.kind != NodeKind::Unused ==> {
            &&& (i != h && !self.not_alone(i)) ==> n.kind != NodeKind::Free && self.has_sibling(
                n.parent.0 as int,
            )
            &&& (n.kind == NodeKind::Free && n.next_sibling.0 != NONE_INDEX && i != h
                && n.next_sibling.0 != h) ==> self.nodes[n.next_sibling.0 as int].kind
                != NodeKind::Free
        }
    }

    /// Every node below a container, but possibly `h`, has a sibling.
    pub open spec fn strict_except(self, h: int) -> bool {
        forall|i: int| #[trigger] self.live(i) && i != h ==> self.not_alone(i)
    }

    /// Every node below a container has a sibling: no container has an only
    /// child.
    pub open spec fn strict(self) -> bool {
        self.strict_except(-1)
    }

    /// The chain of reusable slots is a list without repetition of unused
    /// slots, linked through `next_sibling` from `unused_head`.
    pub open spec fn chain_ok(self) -> bool {
        let chain = self.unused_chain;
        &&& self.unused_head.0 == if chain.len() > 0 {
            chain[0]
        } else {
            NONE_INDEX as int
        }
        &&& forall|k: int|
            0 <= k < chain.len() ==> {
                &&& 0 <= #[trigger] chain[k] < self.nodes.len()
                &&& self.nodes[chain[k]].kind == NodeKind::Unused
                &&& self.nodes[chain[k]].next_sibling.0 == if k + 1 < chain.len() {
                    chain[k + 1]
                } else {
                    NONE_INDEX as int
                }
            }
        &&& forall|k: int, l: int|
            0 <= k < l < chain.len() ==> #[trigger] chain[k] != #[trigger] chain[l]
    }

    /// There are three buckets and every entry names a slot of the arena.
    pub open spec fn lists_ok(self) -> bool {
        &&& self.free_lists.len() == 3
        &&& forall|b: int, k: int|
            0 <= b < 3 && 0 <= k < self.free_lists[b].len() ==> (
            #[trigger] self.free_lists[b][k]).0 < self.nodes.len()
    }

    /// The arena, its bookkeeping and the settings are consistent.
    pub open spec fn arena_ok(self) -> bool {
        &&& 0 < self.nodes.len() <= 0x0100_0000
        &&& self.generations.len() == self.nodes.len()
        &&& self.options.valid()
        &&& self.size.width > 0
        &&& self.size.height > 0
        &&& self.chain_ok()
        &&& self.lists_ok()
    }

    /// The tree is sound, whether or not it is in canonical form. This speaks
    /// of the nodes of the tree, the root and the settings only.
    pub open spec fn structure_ok(self) -> bool {
        &&& self.root.0 < self.nodes.len()
        &&& self.nodes[self.root.0 as int].kind != NodeKind::Unused
        &&& self.nodes[self.root.0 as int].parent.0 == NONE_INDEX
        &&& self.nodes[self.root.0 as int].prev_sibling.0 == NONE_INDEX
        &&& forall|i: int| 0 <= i < self.nodes.len() ==> #[trigger] self.node_ok(i)
        &&& forall|i: int, j: int|
            0 <= i < self.nodes.len() && 0 <= j < self.nodes.len() ==> #[trigger] self.pair_ok(
                i,
                j,
            )
        &&& forall|p: int| 0 <= p < self.nodes.len() ==> #[trigger] self.child_ok(p)
    }

    /// The arena is consistent and the tree is sound.
    pub open spec fn tree_ok(self) -> bool {
        &&& self.arena_ok()
        &&& self.structure_ok()
    }

    /// Slot `r` is out of the tree and out of the chain of reusable slots: it
    /// has been taken to hold a new node.
    pub open spec fn reserved(self, r: int) -> bool {
        &&& 0 <= r < self.nodes.len()
        &&& self.nodes[r].kind == NodeKind::Unused
        &&& forall|k: int| 0 <= k < self.unused_chain.len() ==> #[trigger] self.unused_chain[k] != r
    }

    /// The tree is sound, and in canonical form everywhere but at node `h`.
    #[verifier::opaque]
    pub open spec fn wf_except(self, h: int) -> bool {
        &&& self.tree_ok()
        &&& forall|i: int| 0 <= i < self.nodes.len() ==> #[trigger] self.canonical_ok(i, h)
    }

    /// The invariant of the allocator: the tree is sound and in canonical form.
    pub open spec fn wf(self) -> bool {
        self.wf_except(-1)
    }

    /// The handle under which slot `i` is handed out.
    pub open spec fn id_of(self, i: int) -> AllocId {
        AllocId::pack(i, self.generations[i] as int)
    }

    /// `id` names a slot that holds an allocation, at the slot's current
    /// generation.
    pub open spec fn valid_id(self, id: AllocId) -> bool {
        &&& id.slot() < self.nodes.len()
        &&& self.generations[id.slot()] == id.generation()
        &&& self.nodes[id.slot()].kind == NodeKind::Alloc
    }

    /// The allocations: each valid handle with its rectangle.
    pub open spec fn allocations(self) -> Map<AllocId, Rectangle> {
        Map::new(|id: AllocId| self.valid_id(id), |id: AllocId| self.nodes[id.slot()].rect)
    }

    /// The allocations held in the first `n` slots, in the order of the slots.
    pub open spec fn allocation_list(self, n: int) -> Seq<Allocation>
        decreases n,
    {
        if n <= 0 {
            Seq::empty()
        } else if self.nodes[n - 1].kind == NodeKind::Alloc {
            self.allocation_list(n - 1).push(
                Allocation { id: self.id_of(n - 1), rectangle: self.nodes[n - 1].rect },
            )
        } else {
            self.allocation_list(n - 1)
        }
    }

    /// The rectangles of the free leaves in the first `n` slots, in the order
    /// of the slots.
    pub open spec fn free_rect_list(self, n: int) -> Seq<Rectangle>
        decreases n,
    {
        if n <= 0 {
            Seq::empty()
        } else if self.nodes[n - 1].kind == NodeKind::Free {
            self.free_rect_list(n - 1).push(self.nodes[n - 1].rect)
        } else {
            self.free_rect_list(n - 1)
        }
    }

    /// The slots of the free leaves among the first `n` slots, in order.
    pub open spec fn free_slot_list(self, n: int) -> Seq<int>
        decreases n,
    {
        if n <= 0 {
            Seq::empty()
        } else if self.nodes[n - 1].kind == NodeKind::Free {
            self.free_slot_list(n - 1).push(n - 1)
        } else {
            self.free_slot_list(n - 1)
        }
    }

    /// `a` is one of the allocations: its handle is valid and names its
    /// rectangle.
    pub open spec fn holds(self, a: Allocation) -> bool {
        self.valid_id(a.id) && self.nodes[a.id.slot()].rect == a.rectangle
    }

    /// The number of allocations.
    pub open spec fn allocation_count(self) -> nat {
        self.allocation_list(self.nodes.len() as int).len()
    }

    /// `changes` and `failures` report a rearrangement of the allocations of
    /// `self` that leaves the allocator in the state `after`.
    ///
    /// Every allocation of `self` is reported once, as the old side of a
    /// change or as a failure. The new side of a change is an allocation of
    /// `after`, of the size of the old side, and `after` holds no other
    /// allocations. Both lists go from the largest area to the smallest.
    pub open spec fn rearranged(
        self,
        after: AtlasView,
        changes: Seq<Change>,
        failures: Seq<Allocation>,
    ) -> bool {
        &&& changes.len() + failures.len() == self.allocation_count()
        &&& forall|k: int|
            0 <= k < changes.len() ==> {
                &&& self.holds((#[trigger] changes[k]).old)
                &&& after.holds(changes[k].new)
                &&& changes[k].new.rectangle.size_spec() == changes[k].old.rectangle.size_spec()
            }
        &&& forall|k: int| 0 <= k < failures.len() ==> self.holds(#[trigger] failures[k])
        &&& forall|id: AllocId|
            #[trigger] self.valid_id(id) ==> (exists|k: int|
                0 <= k < changes.len() && (#[trigger] changes[k]).old.id == id) || (exists|k: int|
                0 <= k < failures.len() && (#[trigger] failures[k]).id == id)
        &&& forall|id: AllocId|
            #[trigger] after.valid_id(id) ==> exists|k: int|
                0 <= k < changes.len() && (#[trigger] changes[k]).new.id == id
        &&& forall|k: int, l: int|
            0 <= k < l < changes.len() ==> (#[trigger] changes[k]).new.id
                != (#[trigger] changes[l]).new.id
        &&& forall|k: int, l: int|
            0 <= k < l < changes.len() ==> (#[trigger] changes[k]).old.rectangle.area_spec()
                >= (#[trigger] changes[l]).old.rectangle.area_spec()
        &&& forall|k: int, l: int|
            0 <= k < l < failures.len() ==> (#[trigger] failures[k]).rectangle.area_spec()
                >= (#[trigger] failures[l]).rectangle.area_spec()
    }

    /// No rectangle is allocated.
    pub open spec fn is_empty(self) -> bool {
        forall|i: int| 0 <= i < self.nodes.len() ==> (#[trigger] self.nodes[i]).kind
            != NodeKind::Alloc
    }

    /// Slot `i` has an entry in bucket `b`.
    pub open spec fn listed(self, i: int, b: int) -> bool {
        &&& 0 <= b < self.free_lists.len()
        &&& exists|k: int|
            0 <= k < self.free_lists[b].len() && (#[trigger] self.free_lists[b][k]).0 == i
    }

    /// The free leaf in slot `i` holds the cell at `(x, y)`.
    pub open spec fn frees(self, i: int, x: int, y: int) -> bool {
        &&& 0 <= i < self.nodes.len()
        &&& self.nodes[i].kind == NodeKind::Free
        &&& self.nodes[i].rect.contains_cell(x, y)
    }

    /// The allocation with the handle `id` holds the cell at `(x, y)`.
    pub open spec fn takes(self, id: AllocId, x: int, y: int) -> bool {
        self.allocations().dom().contains(id) && self.allocations()[id].contains_cell(x, y)
    }

    /// The cell at `(x, y)` lies in a free leaf.
    pub open spec fn free_cell(self, x: int, y: int) -> bool {
        exists|i: int| #[trigger] self.frees(i, x, y)
    }

    /// The cell at `(x, y)` lies in an allocated rectangle.
    pub open spec fn taken_cell(self, x: int, y: int) -> bool {
        exists|id: AllocId| #[trigger] self.takes(id, x, y)
    }

    /// Slot `i` has an entry in a bucket no higher than that of its size.
    pub open spec fn indexed_at(self, i: int) -> bool {
        exists|b: int, k: int|
            0 <= b <= self.options.bucket(self.nodes[i].rect.size_spec()) && 0 <= k
                < self.free_lists[b].len() && (#[trigger] self.free_lists[b][k]).0 == i
    }

    /// If slot `i` holds a free leaf and is not among `x`, it has an entry in
    /// a bucket no higher than that of its size.
    pub open spec fn index_ok(self, i: int, x: Set<int>) -> bool {
        (self.nodes[i].kind == NodeKind::Free && !x.contains(i)) ==> self.indexed_at(i)
    }

    /// Every free leaf, but possibly those among `x`, has an entry in a
    /// bucket no higher than that of its size.
    pub open spec fn indexed_except(self, x: Set<int>) -> bool {
        forall|i: int| 0 <= i < self.nodes.len() ==> #[trigger] self.index_ok(i, x)
    }

    /// Every free leaf has an entry in a bucket no higher than that of its
    /// size: a search that starts at the lowest bucket meets every free
    /// leaf.
    pub open spec fn indexed(self) -> bool {
        self.indexed_except(Set::empty())
    }

    /// The whole atlas is one free leaf, entered in the bucket of its size.
    pub open spec fn pristine(self) -> bool {
        &&& self.nodes[self.root.0 as int].kind == NodeKind::Free
        &&& self.nodes[self.root.0 as int].rect == self.atlas_rect()
        &&& self.listed(self.root.0 as int, self.options.bucket(self.size))
    }

    /// `requested` with each dimension rounded up to the alignment of its axis.
    pub open spec fn snapped(self, requested: Size) -> Size {
        Size {
            width: round_up(requested.width as int, self.options.alignment.width as int) as i32,
            height: round_up(requested.height as int, self.options.alignment.height as int) as i32,
        }
    }

    /// `requested` is positive on both axes and can be rounded up to the
    /// alignment without leaving the integer range.
    pub open spec fn snappable(self, requested: Size) -> bool {
        &&& 0 < requested.width
        &&& 0 < requested.height
        &&& round_up(requested.width as int, self.options.alignment.width as int) <= i32::MAX
        &&& round_up(requested.height as int, self.options.alignment.height as int) <= i32::MAX
    }

    /// Requests of the size `req` are placed by worst fit, not by best fit.
    pub open spec fn worst_fit(self, req: Size) -> bool {
        self.options.bucket(req) != SMALL_BUCKET
    }

    /// The search for a free leaf for the rounded size `req`: the buckets as
    /// the search leaves them, and the node selected or the sentinel.
    pub open spec fn search(self, req: Size) -> (Seq<Seq<AllocIndex>>, AllocIndex) {
        find_from(self.nodes, self.free_lists, req, self.worst_fit(req), self.options.bucket(req))
    }

    /// The arena has room for the nodes that one allocation or one growth of
    /// the atlas can add.
    pub open spec fn has_room(self) -> bool {
        self.nodes.len() + 4 <= 0x0100_0000
    }

    /// An allocation of `requested` succeeds: the size can be rounded, a
    /// bucket from that of the rounded size up holds a free leaf that
    /// accommodates it, and the leaf that the search selects has the rounded
    /// size exactly or else the arena has room for the nodes of a cut.
    pub open spec fn placeable(self, requested: Size) -> bool {
        let req = self.snapped(requested);
        &&& self.snappable(requested)
        &&& any_candidate(self.nodes, self.free_lists, req, self.options.bucket(req))
        &&& (self.has_room() || self.nodes[self.search(req).1.0 as int].rect.size_spec() == req)
    }

    /// The state of a new allocator.
    pub open spec fn initial(size: Size, options: AllocatorOptions) -> AtlasView {
        AtlasView {
            nodes: seq![
                Node {
                    parent: AllocIndex(NONE_INDEX),
                    next_sibling: AllocIndex(NONE_INDEX),
                    prev_sibling: AllocIndex(NONE_INDEX),
                    kind: NodeKind::Free,
                    orientation: Orientation::Vertical,
                    rect: Rectangle::from_size_spec(size),
                },
            ],
            generations: seq![0u8],
            free_lists: Seq::new(
                3,
                |b: int|
                    if b == options.bucket(size) {
                        seq![AllocIndex(0)]
                    } else {
                        Seq::empty()
                    },
            ),
            unused_head: AllocIndex(NONE_INDEX),
            unused_chain: Seq::empty(),
            options,
            size,
            root: AllocIndex(0),
        }
    }
}

/// A new allocator is well formed, empty and pristine.
pub proof fn lemma_initial_wf(size: Size, options: AllocatorOptions)
    requires
        options.valid(),
        size.width > 0,
        size.height > 0,
    ensures
        AtlasView::initial(size, options).wf(),
        AtlasView::initial(size, options).is_empty(),
        AtlasView::initial(size, options).pristine(),
        AtlasView::initial(size, options).strict(),
        AtlasView::initial(size, options).indexed(),
        AtlasView::initial(size, options).allocations() == Map::<AllocId, Rectangle>::empty(),
{
    reveal(AtlasView::wf_except);
    let s = AtlasView::initial(size, options);
    assert(s.node_ok(0));
    assert(s.pair_ok(0, 0));
    assert(s.child_ok(0));
    assert(s.canonical_ok(0, -1));
    let b = options.bucket(size);
    assert(s.free_lists[b][0].0 == 0);
    assert forall|i: int| #[trigger] s.live(i) implies s.not_alone(i) by {}
    assert(s.indexed_at(0));
    assert(s.allocations() =~= Map::<AllocId, Rectangle>::empty());
}

} // verus!
