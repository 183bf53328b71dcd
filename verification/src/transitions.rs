//! What each operation of the tree allocator does to its state, as functions
//! from the state before to the state after.

use vstd::prelude::*;
use crate::geometry::{Rectangle, Size};
use crate::grow_ops::{extent, gained_strip};
use crate::guillotine::{allocated_rect, guillotine_spec};
use crate::model::{hi, AtlasView};
use crate::node::{
    AllocId, AllocIndex, Allocation, Change, Node, NodeKind, Orientation, NONE_INDEX,
};

verus! {

/// The generation that follows `g`: the counter wraps around.
pub open spec fn next_generation(g: u8) -> u8 {
    if g == 255 {
        0u8
    } else {
        (g + 1) as u8
    }
}

/// What a slot holds when it is added to the arena.
pub open spec fn blank_node() -> Node {
    Node {
        parent: AllocIndex(NONE_INDEX),
        next_sibling: AllocIndex(NONE_INDEX),
        prev_sibling: AllocIndex(NONE_INDEX),
        kind: NodeKind::Unused,
        orientation: Orientation::Horizontal,
        rect: Rectangle::zero_spec(),
    }
}

/// Where `r` is cut along `o` for an allocation in its corner: the end of
/// the allocated rectangle along `o`.
pub open spec fn cut_at(alloc: Rectangle, o: Orientation) -> i32 {
    hi(alloc, o) as i32
}

impl AtlasView {
    /// The slot that is taken next for a new node: the head of the chain of
    /// reusable slots, or else the slot that the arena grows by.
    pub open spec fn taken_slot(self) -> int {
        if self.unused_head.0 < self.nodes.len() {
            self.unused_head.0 as int
        } else {
            self.nodes.len() as int
        }
    }

    /// The state after a slot is taken for a new node. A reused slot leaves
    /// the chain and moves on to its next generation; a new slot starts at
    /// generation zero.
    pub open spec fn after_take(self) -> AtlasView {
        if self.unused_head.0 < self.nodes.len() {
            let head = self.unused_head.0 as int;
            AtlasView {
                unused_head: self.nodes[head].next_sibling,
                unused_chain: self.unused_chain.drop_first(),
                generations: self.generations.update(
                    head,
                    next_generation(self.generations[head]),
                ),
                ..self
            }
        } else {
            AtlasView {
                nodes: self.nodes.push(blank_node()),
                generations: self.generations.push(0u8),
                ..self
            }
        }
    }

    /// The state after node `i` is entered in the bucket of `size`.
    pub open spec fn after_listing(self, i: int, size: Size) -> AtlasView {
        let b = self.options.bucket(size);
        AtlasView {
            free_lists: self.free_lists.update(b, self.free_lists[b].push(AllocIndex(i as u32))),
            ..self
        }
    }

    /// The state after the free leaf `chosen` is cut at `at` along `o`, with
    /// the leaf that holds the part before `at` and the leaf that holds the
    /// rest, the split. Where `o` is the axis of `chosen`, the split follows
    /// `chosen` as a sibling. Otherwise `chosen` becomes a container of the
    /// two parts.
    pub open spec fn after_cut_split(self, chosen: int, o: Orientation, at: i32) -> (
        AtlasView,
        int,
        int,
    ) {
        let split = self.taken_slot();
        let s1 = self.after_take();
        if o == self.nodes[chosen].orientation {
            (s1.with_nodes(s1.nodes_after_split(chosen, split, at)), chosen, split)
        } else {
            let holder = s1.taken_slot();
            let s2 = s1.after_take();
            (s2.with_nodes(s2.nodes_after_subdivide(chosen, holder, split, at)), holder, split)
        }
    }

    /// The state after the free leaf `holder` becomes a container of two free
    /// leaves, cut at `at` across its axis, with the two leaves.
    pub open spec fn after_cut_leftover(self, holder: int, at: i32) -> (AtlasView, int, int) {
        let first = self.taken_slot();
        let s1 = self.after_take();
        let second = s1.taken_slot();
        let s2 = s1.after_take();
        (s2.with_nodes(s2.nodes_after_subdivide(holder, first, second, at)), first, second)
    }

    /// The state after the rounded size `req` is allocated in the corner of
    /// the free leaf `chosen`, which accommodates it and is not of that size
    /// exactly, with the leaf that holds the allocation.
    ///
    /// The split is cut off first, then the leftover; the leaf that remains
    /// is marked allocated; the split and the leftover are entered in the
    /// buckets of their sizes.
    pub open spec fn after_carve(self, chosen: int, req: Size) -> (AtlasView, int) {
        let rect = self.nodes[chosen].rect;
        let alloc = allocated_rect(rect, req);
        let (split_rect, leftover_rect, o) = guillotine_spec(
            rect,
            req,
            self.nodes[chosen].orientation,
        );
        let (s1, holder, split) = self.after_cut_split(chosen, o, cut_at(alloc, o));
        if leftover_rect.is_empty_spec() {
            (
                s1.with_nodes(s1.nodes_after_mark(holder, NodeKind::Alloc)).after_listing(
                    split,
                    split_rect.size_spec(),
                ),
                holder,
            )
        } else {
            let (s2, first, second) = s1.after_cut_leftover(
                holder,
                cut_at(alloc, o.flipped_spec()),
            );
            (
                s2.with_nodes(s2.nodes_after_mark(first, NodeKind::Alloc)).after_listing(
                    split,
                    split_rect.size_spec(),
                ).after_listing(second, leftover_rect.size_spec()),
                first,
            )
        }
    }

    /// The state after an allocation of `requested` is asked for, and what
    /// the allocator answers.
    ///
    /// A request that cannot be rounded changes nothing. Otherwise the search
    /// leaves the buckets without the stale entries that it met. If it
    /// selects a leaf of the rounded size exactly, the leaf is marked
    /// allocated; if it selects a larger leaf, the leaf is carved, or entered
    /// in its bucket again where the arena has no room for the cut.
    pub open spec fn after_allocate(self, requested: Size) -> (AtlasView, Option<Allocation>) {
        let req = self.snapped(requested);
        let (lists, chosen) = self.search(req);
        let s1 = AtlasView { free_lists: lists, ..self };
        let c = chosen.0 as int;
        let alloc = allocated_rect(self.nodes[c].rect, req);
        if !self.snappable(requested) {
            (self, None)
        } else if chosen.0 == NONE_INDEX {
            (s1, None)
        } else if self.nodes[c].rect.size_spec() == req {
            let s2 = s1.with_nodes(s1.nodes_after_mark(c, NodeKind::Alloc));
            (s2, Some(Allocation { id: s2.id_of(c), rectangle: alloc }))
        } else if !self.has_room() {
            (s1.after_listing(c, self.nodes[c].rect.size_spec()), None)
        } else {
            let (s2, slot) = s1.after_carve(c, req);
            (s2, Some(Allocation { id: s2.id_of(slot), rectangle: alloc }))
        }
    }

    /// The state after the free leaf `cur` is merged with the free leaf that
    /// follows it, if there is one.
    pub open spec fn after_merge_next(self, cur: int) -> AtlasView {
        if self.next_is_free(cur) {
            self.after_merge(cur, self.nodes[cur].next_sibling.0 as int)
        } else {
            self
        }
    }

    /// The leaf that holds the rectangle of the free leaf `cur` after `cur`
    /// is merged into the free leaf that it follows, if there is one.
    pub open spec fn merged_prev(self, cur: int) -> int {
        if self.prev_is_free(cur) {
            self.nodes[cur].prev_sibling.0 as int
        } else {
            cur
        }
    }

    /// The state after the free leaf `cur` is merged into the free leaf that
    /// it follows, if there is one.
    pub open spec fn after_merge_prev(self, cur: int) -> AtlasView {
        if self.prev_is_free(cur) {
            self.after_merge(self.nodes[cur].prev_sibling.0 as int, cur)
        } else {
            self
        }
    }

    /// The state after the free leaf `cur`, which was just released or just
    /// took the place of its container, has settled: it is merged with the
    /// free leaf after it and into the free leaf before it; if that leaves it
    /// the only child of its container, it takes the place of the container
    /// and settles again at that level; otherwise it is entered in the bucket
    /// of its size. `fuel` bounds the number of levels.
    pub open spec fn coalesced(self, cur: int, fuel: nat) -> AtlasView
        decreases fuel,
    {
        let s1 = self.after_merge_next(cur);
        let merged = s1.merged_prev(cur);
        let s2 = s1.after_merge_prev(cur);
        if fuel > 0 && !s2.not_alone(merged) {
            s2.after_collapse(merged).coalesced(
                s2.nodes[merged].parent.0 as int,
                (fuel - 1) as nat,
            )
        } else {
            s2.after_listing(merged, s2.nodes[merged].rect.size_spec())
        }
    }

    /// The number of levels that a released leaf can rise by is below this.
    pub open spec fn levels(self) -> nat {
        (2 * (self.size.width + self.size.height) + 2) as nat
    }

    /// The state after the allocation with the handle `id` is released: its
    /// leaf becomes free and settles.
    pub open spec fn after_deallocate(self, id: AllocId) -> AtlasView {
        self.with_nodes(self.nodes_after_mark(id.slot(), NodeKind::Free)).coalesced(
            id.slot(),
            self.levels(),
        )
    }

    /// The last node of the top level.
    pub open spec fn last_top(self) -> int {
        choose|i: int| self.top_level(i) && self.nodes[i].next_sibling.0 == NONE_INDEX
    }

    /// The state after the atlas grows to `to` along the axis of the top
    /// level: the last node of the top level is stretched over the strip
    /// gained if it is a free leaf, and else a new free leaf over the strip
    /// follows it and is entered in the bucket of its size.
    pub open spec fn after_grow_along(self, to: i32) -> AtlasView {
        let last = self.last_top();
        if self.nodes[last].kind == NodeKind::Free {
            self.after_extend_last(last, to)
        } else {
            let x = self.taken_slot();
            self.after_take().after_append_last(last, x, to).after_listing(
                x,
                gained_strip(self.size, self.root_orientation(), to).size_spec(),
            )
        }
    }

    /// The state after the atlas grows to `to` across the axis of the top
    /// level: the top level becomes the children of a new container, and a
    /// new free leaf over the strip gained follows the container and is
    /// entered in the bucket of its size.
    pub open spec fn after_grow_across(self, to: i32) -> AtlasView {
        let f = self.taken_slot();
        let s1 = self.after_take();
        let r = s1.taken_slot();
        let s2 = s1.after_take();
        s2.after_add_top(r, f, to).after_listing(
            f,
            gained_strip(self.size, self.root_orientation().flipped_spec(), to).size_spec(),
        )
    }

    /// The number of nodes that growing the atlas to `new_size` adds to the
    /// tree: none where the tree is a single free leaf; else one where the
    /// atlas gains along the axis of the top level and the last node there is
    /// not a free leaf, and two where it gains across that axis.
    pub open spec fn nodes_to_grow(self, new_size: Size) -> int {
        let o = self.root_orientation();
        let c = o.flipped_spec();
        if self.single_free_leaf() {
            0
        } else {
            (if extent(new_size, o) > extent(self.size, o) && self.nodes[self.last_top()].kind
                != NodeKind::Free {
                1int
            } else {
                0int
            }) + (if extent(new_size, c) > extent(self.size, c) {
                2int
            } else {
                0int
            })
        }
    }

    /// The 24-bit index can name the nodes that growing the atlas to
    /// `new_size` adds.
    pub open spec fn room_to_grow(self, new_size: Size) -> bool {
        self.nodes.len() + self.nodes_to_grow(new_size) <= 0x0100_0000
    }

    /// The state after the atlas grows to `new_size`. A tree that is a single
    /// free leaf is stretched. Otherwise the atlas grows along the axis of
    /// the top level first, if it gains there, and then across it.
    pub open spec fn after_grow(self, new_size: Size) -> AtlasView {
        let o = self.root_orientation();
        let c = o.flipped_spec();
        if self.single_free_leaf() {
            self.after_grow_single(new_size)
        } else {
            let s1 = if extent(new_size, o) > extent(self.size, o) {
                self.after_grow_along(extent(new_size, o) as i32)
            } else {
                self
            };
            if extent(new_size, c) > extent(self.size, c) {
                s1.after_grow_across(extent(new_size, c) as i32)
            } else {
                s1
            }
        }
    }

    /// `order` is an order in which a rearrangement may place the allocations
    /// of `self`: it holds each of them once, and goes from the smallest area
    /// to the largest. The allocations are placed from its end.
    pub open spec fn placing_order(self, order: Seq<Allocation>) -> bool {
        &&& order.to_multiset() == self.allocation_list(self.nodes.len() as int).to_multiset()
        &&& forall|k: int, l: int|
            0 <= k < l < order.len() ==> (#[trigger] order[k]).rectangle.area_spec()
                <= (#[trigger] order[l]).rectangle.area_spec()
    }

    /// The state after the entries of `order` from its end down to position
    /// `i` are allocated again one by one in the state `self`, with the
    /// changes and the failures reported so far.
    pub open spec fn after_replay(self, order: Seq<Allocation>, i: int) -> (
        AtlasView,
        Seq<Change>,
        Seq<Allocation>,
    )
        decreases order.len() - i,
    {
        if i < 0 || i >= order.len() {
            (self, Seq::empty(), Seq::empty())
        } else {
            let (s, changes, failures) = self.after_replay(order, i + 1);
            let (t, placed) = s.after_allocate(order[i].rectangle.size_spec());
            match placed {
                Some(new) => (t, changes.push(Change { old: order[i], new }), failures),
                None => (t, changes, failures.push(order[i])),
            }
        }
    }

    /// A rearrangement into an atlas of the size `new_size` that places the
    /// allocations in the order `order` leaves the state `after` and reports
    /// `changes` and `failures`: the allocator is cleared, and the
    /// allocations are allocated again from the end of `order`.
    pub open spec fn rearranged_by(
        self,
        order: Seq<Allocation>,
        new_size: Size,
        after: AtlasView,
        changes: Seq<Change>,
        failures: Seq<Allocation>,
    ) -> bool {
        &&& self.placing_order(order)
        &&& (after, changes, failures) == AtlasView::initial(new_size, self.options).after_replay(
            order,
            0,
        )
    }
}

} // verus!
