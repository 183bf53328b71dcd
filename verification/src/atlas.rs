//! The tree allocator: rectangles can be allocated, released again and
//! coalesced, and the atlas can grow.

use vstd::prelude::*;
use crate::free_list::{
    accommodates, any_candidate, entries_in_range, find_from, initial_score, is_candidate,
    lemma_find, lemma_scan, measurable_leaves, scan_bucket, swap_removed,
};
use crate::geometry::{Point, Rectangle, Size};
use crate::grow_ops::{
    extent, lemma_add_top, lemma_append_last, lemma_extend_last, lemma_grow_single,
    lemma_last_top_unique, lemma_top_level_unique, resized,
};
use crate::guillotine::{allocated_rect, guillotine_rect, lemma_guillotine_shape};
use crate::index::{
    carried, lemma_bucket_monotone, lemma_index_listing, lemma_index_nodes, lemma_index_search,
    lemma_index_weaken,
};
use crate::laws::{
    lemma_allocation_list, lemma_allocation_shape, lemma_holds, lemma_empty_is_single_leaf,
    lemma_lone_free_root, lemma_single_leaf_is_empty,
};
use crate::model::{hi, lemma_initial_wf, lo, reported, AtlasView};
use crate::node::{
    AllocId, AllocIndex, Allocation, Change, ChangeList, Node, NodeKind, Orientation, IDX_MASK,
    MAX_NODES, NONE_INDEX,
};
use crate::options::{
    free_list_for_size, lemma_round_up, snapped, AllocatorOptions, NUM_BUCKETS, SMALL_BUCKET,
};
use crate::tree_ops::{
    cut_after, cut_before, lemma_collapse, lemma_frame, lemma_lists_changed, lemma_mark_alloc,
    lemma_mark_free, lemma_merge, lemma_settle, lemma_split, lemma_basics, lemma_node,
    lemma_subdivide, lemma_wf_weaken, with_hi, with_lo,
};

verus! {

/// A dynamic texture atlas allocator using the guillotine algorithm.
///
/// The atlas is divided by a tree whose leaves are the allocated and the free
/// rectangles. The children of a container lie side by side along one axis
/// and cover the container exactly; a container is laid out along the other
/// axis than its parent. When a rectangle is released, free siblings that
/// touch are merged, and a container left with one child is replaced by it.
#[derive(Clone)]
pub struct AtlasAllocator {
    nodes: Vec<Node>,
    /// Candidate free leaves by size class. Entries go stale when their node
    /// is merged away or allocated, and are dropped when a scan meets them.
    free_lists: [Vec<AllocIndex>; 3],
    /// Head of the chain of reusable slots, linked through `next_sibling`.
    unused_nodes: AllocIndex,
    /// Per-slot counters that tell apart the successive uses of a slot.
    generations: Vec<u8>,
    alignment: Size,
    small_size_threshold: i32,
    large_size_threshold: i32,
    size: Size,
    /// The first of the top-level nodes.
    root_node: AllocIndex,
    unused_chain: Ghost<Seq<int>>,
}

/// The position that a scan selected, as a mathematical integer.
pub open spec fn position(found: Option<usize>) -> Option<int> {
    match found {
        Some(p) => Some(p as int),
        None => None,
    }
}

/// Scans one bucket for the entry to allocate from, dropping the stale
/// entries that it meets, and returns the position of the entry selected.
fn scan_free_list(
    nodes: &Vec<Node>,
    list: &mut Vec<AllocIndex>,
    requested_size: &Size,
    use_worst_fit: bool,
) -> (found: Option<usize>)
    requires
        forall|k: int| 0 <= k < old(list)@.len() ==> (#[trigger] old(list)@[k]).0 < nodes@.len(),
        requested_size.width > 0,
        requested_size.height > 0,
        measurable_leaves(nodes@),
    ensures
        (final(list)@, position(found)) == scan_bucket(
            nodes@,
            old(list)@,
            *requested_size,
            use_worst_fit,
            0,
            None,
            initial_score(use_worst_fit),
        ),
{
    let mut candidate_score: i32 = if use_worst_fit {
        0
    } else {
        i32::MAX
    };
    let mut candidate: Option<usize> = None;
    let mut freelist_idx: usize = 0;
    while freelist_idx < list.len()
        invariant_except_break
            freelist_idx <= list.len(),
            scan_bucket(
                nodes@,
                list@,
                *requested_size,
                use_worst_fit,
                freelist_idx as int,
                position(candidate),
                candidate_score as int,
            ) == scan_bucket(
                nodes@,
                old(list)@,
                *requested_size,
                use_worst_fit,
                0,
                None,
                initial_score(use_worst_fit),
            ),
        invariant
            forall|k: int| 0 <= k < list@.len() ==> (#[trigger] list@[k]).0 < nodes@.len(),
            requested_size.width > 0,
            requested_size.height > 0,
            measurable_leaves(nodes@),
        ensures
            (list@, position(candidate)) == scan_bucket(
                nodes@,
                old(list)@,
                *requested_size,
                use_worst_fit,
                0,
                None,
                initial_score(use_worst_fit),
            ),
        decreases list.len() - freelist_idx,
    {
        let id = list[freelist_idx];
        // Merged and allocated nodes stay in the list until a scan meets them.
        if nodes[id.index()].kind != NodeKind::Free {
            list.swap_remove(freelist_idx);
            continue ;
        }
        let size = nodes[id.index()].rect.size();
        let dx = size.width - requested_size.width;
        let dy = size.height - requested_size.height;
        if dx >= 0 && dy >= 0 {
            if dx == 0 || dy == 0 {
                // Perfect fit!
                candidate = Some(freelist_idx);
                break ;
            }
            // Favor the largest minimum dimension, except for small allocations.
            let score = if dx <= dy {
                dx
            } else {
                dy
            };
            if (use_worst_fit && score > candidate_score) || (!use_worst_fit && score
                < candidate_score) {
                candidate_score = score;
                candidate = Some(freelist_idx);
            }
        }
        freelist_idx += 1;
    }
    candidate
}

/// Sorts `allocs` by the area of the rectangles, smallest first.
///
/// This is `sort_by_key` of the standard library, which is documented to
/// reorder the slice so that the keys ascend. The contract claims that much:
/// the result holds the entries that went in, each as often as before, in
/// ascending order of area.
#[verifier::external_body]
fn sort_by_area(allocs: &mut Vec<Allocation>)
    requires
        forall|k: int| 0 <= k < old(allocs)@.len() ==> (#[trigger] old(allocs)@[k]).rectangle.measurable(),
    ensures
        final(allocs)@.to_multiset() == old(allocs)@.to_multiset(),
        forall|k: int, l: int|
            0 <= k < l < final(allocs)@.len() ==> (#[trigger] final(allocs)@[k]).rectangle.area_spec()
                <= (#[trigger] final(allocs)@[l]).rectangle.area_spec(),
{
    allocs.sort_by_key(|alloc| alloc.rectangle.area());
}

impl View for AtlasAllocator {
    type V = AtlasView;

    closed spec fn view(&self) -> AtlasView {
        AtlasView {
            nodes: self.nodes@,
            generations: self.generations@,
            free_lists: Seq::new(3, |b: int| self.free_lists@[b]@),
            unused_head: self.unused_nodes,
            unused_chain: self.unused_chain@,
            options: AllocatorOptions {
                alignment: self.alignment,
                small_size_threshold: self.small_size_threshold,
                large_size_threshold: self.large_size_threshold,
            },
            size: self.size,
            root: self.root_node,
        }
    }
}

impl AtlasAllocator {
    /// Create an atlas allocator with the default options.
    pub fn new(size: Size) -> (atlas: Self)
        requires
            size.width > 0,
            size.height > 0,
        ensures
            atlas@ == AtlasView::initial(size, AllocatorOptions::default_spec()),
            atlas@.wf(),
            atlas@.strict(),
            atlas@.is_empty(),
            atlas@.pristine(),
            atlas@.indexed(),
    {
        let options = AllocatorOptions::default();
        AtlasAllocator::with_options(size, &options)
    }

    /// Create an atlas allocator with the provided options.
    pub fn with_options(size: Size, options: &AllocatorOptions) -> (atlas: Self)
        requires
            options.valid(),
            size.width > 0,
            size.height > 0,
        ensures
            atlas@ == AtlasView::initial(size, *options),
            atlas@.wf(),
            atlas@.strict(),
            atlas@.is_empty(),
            atlas@.pristine(),
            atlas@.indexed(),
    {
        let mut free_lists = [Vec::new(), Vec::new(), Vec::new()];
        let bucket = free_list_for_size(
            options.small_size_threshold,
            options.large_size_threshold,
            &size,
        );
        free_lists[bucket].push(AllocIndex(0));
        let mut nodes = Vec::new();
        nodes.push(
            Node {
                parent: AllocIndex::none(),
                next_sibling: AllocIndex::none(),
                prev_sibling: AllocIndex::none(),
                rect: Rectangle::from_size(size),
                kind: NodeKind::Free,
                orientation: Orientation::Vertical,
            },
        );
        let mut generations = Vec::new();
        generations.push(0u8);
        let atlas = AtlasAllocator {
            nodes,
            free_lists,
            generations,
            unused_nodes: AllocIndex::none(),
            alignment: options.alignment,
            small_size_threshold: options.small_size_threshold,
            large_size_threshold: options.large_size_threshold,
            size,
            root_node: AllocIndex(0),
            unused_chain: Ghost(Seq::empty()),
        };
        proof {
            let s = AtlasView::initial(size, *options);
            assert(atlas@.nodes =~= s.nodes);
            assert(atlas@.generations =~= s.generations);
            assert forall|b: int| 0 <= b < 3 implies #[trigger] atlas@.free_lists[b]
                == s.free_lists[b] by {
                assert(atlas@.free_lists[b] =~= s.free_lists[b]);
            }
            assert(atlas@.free_lists =~= s.free_lists);
            lemma_initial_wf(size, *options);
        }
        atlas
    }

    /// The total size of the atlas.
    pub fn size(&self) -> (size: Size)
        ensures
            size == self@.size,
    {
        self.size
    }

    /// The options that the allocator was given.
    pub fn options(&self) -> (options: AllocatorOptions)
        ensures
            options == self@.options,
    {
        AllocatorOptions {
            alignment: self.alignment,
            small_size_threshold: self.small_size_threshold,
            large_size_threshold: self.large_size_threshold,
        }
    }

    /// The handle under which the slot `index` is handed out: the slot in
    /// the low bits and the generation of the slot in the high bits. Where
    /// the slot holds an allocation, the handle is valid and decodes to the
    /// slot again.
    pub fn alloc_id(&self, index: AllocIndex) -> (id: AllocId)
        requires
            index.0 < self@.nodes.len(),
            self@.arena_ok(),
        ensures
            id == self@.id_of(index.0 as int),
            id.slot() == index.0,
            id.generation() == self@.generations[index.0 as int],
            self@.nodes[index.0 as int].kind == NodeKind::Alloc
                ==> self@.allocations().dom().contains(id),
    {
        let generation = self.generations[index.index()] as u32;
        proof {
            assert(generation << 24 == generation * 0x0100_0000) by (bit_vector)
                requires
                    generation < 256,
            ;
            crate::node::lemma_pack_unpack(index.0 as int, generation as int);
        }
        AllocId(index.0 + (generation << 24))
    }

    /// Takes a slot for a new node: the head of the chain of reusable slots,
    /// at its next generation, or else a slot added to the arena.
    fn new_node(&mut self, Ghost(h): Ghost<int>) -> (idx: AllocIndex)
        requires
            old(self)@.wf_except(h),
            old(self)@.nodes.len() < MAX_NODES,
        ensures
            final(self)@ == old(self)@.after_take(),
            idx.0 == old(self)@.taken_slot(),
            final(self)@.wf_except(h),
            forall|g: int| old(self)@.strict_except(g) ==> final(self)@.strict_except(g),
            forall|x: Set<int>|
                #[trigger] old(self)@.indexed_except(x) ==> final(self)@.indexed_except(x),
            final(self)@.reserved(idx.0 as int),
            forall|r: int| old(self)@.reserved(r) ==> final(self)@.reserved(r) && r != idx.0,
            old(self)@.nodes.len() <= final(self)@.nodes.len() <= old(self)@.nodes.len() + 1,
            forall|i: int|
                0 <= i < old(self)@.nodes.len() ==> #[trigger] final(self)@.nodes[i] == old(
                    self,
                )@.nodes[i],
            forall|i: int|
                0 <= i < old(self)@.nodes.len() && i != idx.0
                    ==> #[trigger] final(self)@.generations[i] == old(self)@.generations[i],
            final(self)@.allocations() == old(self)@.allocations(),
            final(self)@.free_lists == old(self)@.free_lists,
            final(self)@.size == old(self)@.size,
            final(self)@.options == old(self)@.options,
            final(self)@.root == old(self)@.root,
    {
        proof {
            lemma_basics(self@, h);
        }
        let idx = self.unused_nodes;
        if idx.index() < self.nodes.len() {
            proof {
                assert(self@.unused_chain.len() > 0);
                assert(self@.unused_chain[0] == idx.0);
            }
            self.unused_nodes = self.nodes[idx.index()].next_sibling;
            let g = self.generations[idx.index()];
            self.generations[idx.index()] = g.wrapping_add(1);
            proof {
                let chain = old(self)@.unused_chain;
                self.unused_chain@ = chain.drop_first();
                let s = old(self)@;
                let t = self@;
                assert(t.nodes == s.nodes);
                assert forall|k: int| 0 <= k < t.unused_chain.len() implies {
                    &&& 0 <= #[trigger] t.unused_chain[k] < t.nodes.len()
                    &&& t.nodes[t.unused_chain[k]].kind == NodeKind::Unused
                    &&& t.nodes[t.unused_chain[k]].next_sibling.0 == if k + 1
                        < t.unused_chain.len() {
                        t.unused_chain[k + 1]
                    } else {
                        NONE_INDEX as int
                    }
                } by {
                    assert(t.unused_chain[k] == chain[k + 1]);
                }
                assert forall|k: int, l: int| 0 <= k < l < t.unused_chain.len() implies #[trigger] t.unused_chain[k]
                    != #[trigger] t.unused_chain[l] by {
                    assert(t.unused_chain[k] == chain[k + 1]);
                    assert(t.unused_chain[l] == chain[l + 1]);
                }
                assert forall|k: int| 0 <= k < t.unused_chain.len() implies #[trigger] t.unused_chain[k]
                    != idx.0 by {
                    assert(t.unused_chain[k] == chain[k + 1]);
                    assert(chain[0] != chain[k + 1]);
                }
                assert forall|r: int| s.reserved(r) implies t.reserved(r) && r != idx.0 by {
                    assert(chain[0] != r);
                    assert forall|k: int| 0 <= k < t.unused_chain.len() implies #[trigger] t.unused_chain[k]
                        != r by {
                        assert(t.unused_chain[k] == chain[k + 1]);
                    }
                }
                assert(t.free_lists =~= s.free_lists);
                assert(t.generations =~= s.after_take().generations);
                assert forall|x: Set<int>| #[trigger] s.indexed_except(x) implies t.indexed_except(
                    x,
                ) by {
                    assert forall|i: int| 0 <= i < t.nodes.len() implies #[trigger] carried(
                        s,
                        t,
                        x,
                        x,
                        i,
                    ) by {}
                    lemma_index_nodes(s, t, x, x);
                }
                reveal(AtlasView::wf_except);
                lemma_frame(s, t, h);
            }
            return idx;
        }
        self.nodes.push(
            Node {
                parent: AllocIndex::none(),
                next_sibling: AllocIndex::none(),
                prev_sibling: AllocIndex::none(),
                rect: Rectangle::zero(),
                kind: NodeKind::Unused,
                orientation: Orientation::Horizontal,
            },
        );
        self.generations.push(0);
        proof {
            let s = old(self)@;
            let t = self@;
            assert(t.free_lists =~= s.free_lists);
            assert(s.unused_chain.len() == 0);
            assert(t.nodes =~= s.after_take().nodes);
            assert(t.generations =~= s.after_take().generations);
            assert forall|x: Set<int>| #[trigger] s.indexed_except(x) implies t.indexed_except(
                x,
            ) by {
                assert forall|i: int| 0 <= i < t.nodes.len() implies #[trigger] carried(
                    s,
                    t,
                    x,
                    x,
                    i,
                ) by {}
                lemma_index_nodes(s, t, x, x);
            }
            reveal(AtlasView::wf_except);
            lemma_frame(s, t, h);
        }
        AllocIndex((self.nodes.len() - 1) as u32)
    }

    /// Allocate a rectangle in the atlas.
    ///
    /// The requested size is rounded up to the alignment. The rectangle is
    /// placed in the corner of the free leaf that the search selects, and
    /// what remains of the leaf is cut into at most two free leaves.
    #[verifier::rlimit(30)]
    pub fn allocate(&mut self, requested_size: Size) -> (r: Option<Allocation>)
        requires
            old(self)@.wf(),
        ensures
            (final(self)@, r) == old(self)@.after_allocate(requested_size),
            final(self)@.wf(),
            old(self)@.strict() ==> final(self)@.strict(),
            old(self)@.indexed() ==> final(self)@.indexed(),
            final(self)@.size == old(self)@.size,
            final(self)@.options == old(self)@.options,
            r is Some <==> old(self)@.placeable(requested_size),
            r matches Some(a) ==> {
                let req = old(self)@.snapped(requested_size);
                let chosen = old(self)@.search(req).1;
                &&& is_candidate(old(self)@.nodes, chosen, req)
                &&& a.rectangle == allocated_rect(old(self)@.nodes[chosen.0 as int].rect, req)
                &&& a.rectangle.size_spec() == req
                &&& final(self)@.options.is_aligned(a.rectangle.size_spec())
                &&& old(self)@.atlas_rect().contains_box_spec(a.rectangle)
                &&& !old(self)@.allocations().dom().contains(a.id)
                &&& final(self)@.allocations() == old(self)@.allocations().insert(
                    a.id,
                    a.rectangle,
                )
            },
            r is None ==> final(self)@.nodes == old(self)@.nodes && final(self)@.allocations()
                == old(self)@.allocations(),
    {
        proof {
            lemma_basics(self@, -1);
        }
        let width = match snapped(self.alignment.width, requested_size.width) {
            Some(w) => w,
            None => {
                return None;
            },
        };
        let height = match snapped(self.alignment.height, requested_size.height) {
            Some(h) => h,
            None => {
                return None;
            },
        };
        if width <= 0 || height <= 0 {
            return None;
        }
        let requested = Size { width, height };
        proof {
            lemma_round_up(requested_size.width as int, self.alignment.width as int);
            lemma_round_up(requested_size.height as int, self.alignment.height as int);
        }

        // Find a suitable free rect.
        let ghost ix = self@.indexed();
        let ghost none = Set::<int>::empty();
        proof {
            assert(ix ==> self@.indexed_except(none));
        }
        let chosen_id = self.find_suitable_rect(&requested);
        let ghost c = chosen_id.0 as int;
        if chosen_id.is_none() {
            // No suitable free rect!
            proof {
                if ix {
                    lemma_index_weaken(self@, none.insert(c), none);
                }
            }
            return None;
        }
        let ghost t0 = self@;
        proof {
            assert(t0.live(chosen_id.0 as int));
            lemma_node(t0, -1, chosen_id.0 as int);
            lemma_wf_weaken(t0, chosen_id.0 as int);
            assert(ix ==> t0.indexed_except(none.insert(c)));
        }
        let chosen_node = self.nodes[chosen_id.index()];
        let chosen_rect = chosen_node.rect;
        let allocated_rect = Rectangle {
            min: chosen_rect.min,
            max: Point {
                x: chosen_rect.min.x + requested.width,
                y: chosen_rect.min.y + requested.height,
            },
        };
        let current_orientation = chosen_node.orientation;
        let (split_rect, leftover_rect, orientation) = guillotine_rect(
            &chosen_rect,
            requested,
            current_orientation,
        );
        proof {
            lemma_guillotine_shape(chosen_rect, requested, current_orientation);
        }

        // Update the tree.
        let allocated_id;
        if split_rect.is_empty() {
            // No need to split, we can allocate directly in the chosen node.
            self.mark_allocated(chosen_id);
            allocated_id = chosen_id;
            proof {
                assert(none.insert(c).remove(c) =~= none);
            }
        } else {
            if self.nodes.len() > MAX_NODES - 4 {
                // The arena cannot take the nodes that the cut would add.
                self.add_free_rect(chosen_id, &chosen_rect.size(), Ghost(-1));
                proof {
                    assert(none.insert(c).remove(c) =~= none);
                }
                return None;
            }
            let at_split = match orientation {
                Orientation::Horizontal => allocated_rect.max.x,
                Orientation::Vertical => allocated_rect.max.y,
            };
            let at_leftover = match orientation {
                Orientation::Horizontal => allocated_rect.max.y,
                Orientation::Vertical => allocated_rect.max.x,
            };
            let (holder, split_id) = self.cut_split(chosen_id, orientation, at_split);
            let ghost hd = holder.0 as int;
            let ghost sp = split_id.0 as int;
            let ghost t1 = self@;
            let ghost y1 = none.insert(c).remove(c).insert(hd).insert(sp);
            proof {
                assert(ix ==> t1.indexed_except(y1));
                assert(t1.nodes[sp].rect == split_rect);
                assert(t1.live(sp));
            }
            let leftover_id;
            if !leftover_rect.is_empty() {
                let (first, second) = self.cut_leftover(holder, at_leftover);
                let ghost fi = first.0 as int;
                let ghost se = second.0 as int;
                let ghost t2 = self@;
                let ghost y2 = y1.remove(hd).insert(fi).insert(se);
                proof {
                    assert(ix ==> t2.indexed_except(y2));
                    assert(t2.nodes[sp] == t1.nodes[sp]);
                    assert(t2.nodes[se].rect == leftover_rect);
                }
                self.mark_allocated(first);
                allocated_id = first;
                leftover_id = second;
                proof {
                    assert(ix ==> self@.indexed_except(y2.remove(fi)));
                    assert(self@.nodes[sp] == t2.nodes[sp]);
                    assert(self@.nodes[se] == t2.nodes[se]);
                }
                self.add_free_rect(split_id, &split_rect.size(), Ghost(-1));
                proof {
                    assert(ix ==> self@.indexed_except(y2.remove(fi).remove(sp)));
                }
                self.add_free_rect(leftover_id, &leftover_rect.size(), Ghost(-1));
                proof {
                    assert(y2.remove(fi).remove(sp).remove(se) =~= none);
                }
            } else {
                self.mark_allocated(holder);
                allocated_id = holder;
                leftover_id = AllocIndex::none();
                proof {
                    assert(ix ==> self@.indexed_except(y1.remove(hd)));
                    assert(self@.nodes[sp] == t1.nodes[sp]);
                }
                self.add_free_rect(split_id, &split_rect.size(), Ghost(-1));
                proof {
                    assert(y1.remove(hd).remove(sp) =~= none);
                }
            }
        }

        proof {
            lemma_basics(self@, -1);
        }
        Some(Allocation { id: self.alloc_id(allocated_id), rectangle: allocated_rect })
    }

    /// Cuts the free leaf `chosen` at `at` along `orientation`. The part from
    /// `at` on becomes a new free leaf, the split: a sibling of `chosen` where
    /// `orientation` is the axis of `chosen`, and else the second child of
    /// `chosen`, which becomes a container. Returns the free leaf that holds
    /// the part before `at`, and the split.
    fn cut_split(&mut self, chosen: AllocIndex, orientation: Orientation, at: i32) -> (r: (
        AllocIndex,
        AllocIndex,
    ))
        requires
            old(self)@.wf(),
            old(self)@.live(chosen.0 as int),
            old(self)@.nodes[chosen.0 as int].kind == NodeKind::Free,
            old(self)@.nodes.len() + 2 <= MAX_NODES,
            lo(old(self)@.nodes[chosen.0 as int].rect, orientation) < at < hi(
                old(self)@.nodes[chosen.0 as int].rect,
                orientation,
            ),
        ensures
            (final(self)@, (r.0).0 as int, (r.1).0 as int) == old(self)@.after_cut_split(
                chosen.0 as int,
                orientation,
                at,
            ),
            final(self)@.wf_except((r.0).0 as int),
            old(self)@.strict() ==> final(self)@.strict(),
            forall|y: Set<int>|
                #[trigger] old(self)@.indexed_except(y) && y.contains(chosen.0 as int)
                    ==> final(self)@.indexed_except(
                    y.remove(chosen.0 as int).insert((r.0).0 as int).insert((r.1).0 as int),
                ),
            final(self)@.nodes[(r.1).0 as int].rect == with_lo(
                old(self)@.nodes[chosen.0 as int].rect,
                orientation,
                at,
            ),
            r.0 != r.1,
            final(self)@.nodes[(r.1).0 as int].kind == NodeKind::Free,
            final(self)@.live((r.0).0 as int),
            final(self)@.nodes[(r.0).0 as int].kind == NodeKind::Free,
            final(self)@.nodes[(r.0).0 as int].orientation == orientation,
            final(self)@.nodes[(r.0).0 as int].rect == with_hi(
                old(self)@.nodes[chosen.0 as int].rect,
                orientation,
                at,
            ),
            final(self)@.not_alone((r.0).0 as int),
            (r.1).0 < final(self)@.nodes.len(),
            old(self)@.nodes.len() <= final(self)@.nodes.len() <= old(self)@.nodes.len() + 2,
            final(self)@.allocations() == old(self)@.allocations(),
            final(self)@.free_lists == old(self)@.free_lists,
            final(self)@.size == old(self)@.size,
            final(self)@.options == old(self)@.options,
    {
        proof {
            lemma_wf_weaken(self@, chosen.0 as int);
            assert(self@.not_alone(chosen.0 as int));
        }
        let ghost s0 = self@;
        let current_orientation = self.nodes[chosen.index()].orientation;
        let split_id = self.new_node(Ghost(-1));
        let ghost s1 = self@;
        if orientation == current_orientation {
            self.split_leaf(chosen, split_id, at);
            proof {
                let t = self@;
                assert forall|y: Set<int>|
                    #[trigger] s0.indexed_except(y) && y.contains(
                        chosen.0 as int,
                    ) implies t.indexed_except(
                    y.remove(chosen.0 as int).insert(chosen.0 as int).insert(split_id.0 as int),
                ) by {
                    assert(s1.indexed_except(y));
                    assert(y.remove(chosen.0 as int).insert(chosen.0 as int).insert(
                        split_id.0 as int,
                    ) =~= y.insert(split_id.0 as int));
                }
            }
            (chosen, split_id)
        } else {
            let holder = self.new_node(Ghost(-1));
            let ghost s2 = self@;
            proof {
                lemma_wf_weaken(self@, chosen.0 as int);
            }
            self.subdivide(chosen, holder, split_id, at);
            proof {
                let t = self@;
                assert forall|y: Set<int>|
                    #[trigger] s0.indexed_except(y) && y.contains(
                        chosen.0 as int,
                    ) implies t.indexed_except(
                    y.remove(chosen.0 as int).insert(holder.0 as int).insert(split_id.0 as int),
                ) by {
                    assert(s1.indexed_except(y));
                    assert(s2.indexed_except(y));
                }
            }
            (holder, split_id)
        }
    }

    /// Turns the free leaf `holder` into a container of two free leaves, cut
    /// at `at` across the axis of `holder`, and returns the two.
    fn cut_leftover(&mut self, holder: AllocIndex, at: i32) -> (r: (AllocIndex, AllocIndex))
        requires
            old(self)@.wf_except(holder.0 as int),
            old(self)@.live(holder.0 as int),
            old(self)@.nodes[holder.0 as int].kind == NodeKind::Free,
            old(self)@.not_alone(holder.0 as int),
            old(self)@.nodes.len() + 2 <= MAX_NODES,
            lo(
                old(self)@.nodes[holder.0 as int].rect,
                old(self)@.nodes[holder.0 as int].orientation.flipped_spec(),
            ) < at < hi(
                old(self)@.nodes[holder.0 as int].rect,
                old(self)@.nodes[holder.0 as int].orientation.flipped_spec(),
            ),
        ensures
            (final(self)@, (r.0).0 as int, (r.1).0 as int) == old(self)@.after_cut_leftover(
                holder.0 as int,
                at,
            ),
            final(self)@.wf_except((r.0).0 as int),
            old(self)@.strict() ==> final(self)@.strict(),
            forall|y: Set<int>|
                #[trigger] old(self)@.indexed_except(y) ==> final(self)@.indexed_except(
                    y.remove(holder.0 as int).insert((r.0).0 as int).insert((r.1).0 as int),
                ),
            final(self)@.nodes[(r.1).0 as int].rect == with_lo(
                old(self)@.nodes[holder.0 as int].rect,
                old(self)@.nodes[holder.0 as int].orientation.flipped_spec(),
                at,
            ),
            r.0 != r.1,
            !old(self)@.live((r.0).0 as int),
            !old(self)@.live((r.1).0 as int),
            forall|i: int|
                0 <= i < old(self)@.nodes.len() && old(self)@.live(i) && i != holder.0
                    ==> #[trigger] final(self)@.nodes[i] == old(self)@.nodes[i],
            final(self)@.live((r.0).0 as int),
            final(self)@.nodes[(r.0).0 as int].kind == NodeKind::Free,
            final(self)@.nodes[(r.0).0 as int].rect == with_hi(
                old(self)@.nodes[holder.0 as int].rect,
                old(self)@.nodes[holder.0 as int].orientation.flipped_spec(),
                at,
            ),
            final(self)@.not_alone((r.0).0 as int),
            (r.1).0 < final(self)@.nodes.len(),
            old(self)@.nodes.len() <= final(self)@.nodes.len() <= old(self)@.nodes.len() + 2,
            final(self)@.allocations() == old(self)@.allocations(),
            final(self)@.free_lists == old(self)@.free_lists,
            final(self)@.size == old(self)@.size,
            final(self)@.options == old(self)@.options,
    {
        let ghost s0 = self@;
        let first = self.new_node(Ghost(holder.0 as int));
        let ghost s1 = self@;
        let second = self.new_node(Ghost(holder.0 as int));
        let ghost s2 = self@;
        self.subdivide(holder, first, second, at);
        proof {
            let t = self@;
            assert forall|y: Set<int>| #[trigger] s0.indexed_except(y) implies t.indexed_except(
                y.remove(holder.0 as int).insert(first.0 as int).insert(second.0 as int),
            ) by {
                assert(s1.indexed_except(y));
                assert(s2.indexed_except(y));
            }
            assert forall|i: int|
                0 <= i < s0.nodes.len() && s0.live(i) && i != holder.0 implies #[trigger] t.nodes[i]
                == s0.nodes[i] by {
                assert(s1.nodes[i] == s0.nodes[i]);
                assert(s2.nodes[i] == s1.nodes[i]);
            }
        }
        (first, second)
    }

    /// Enters the free leaf `id`, of the size `size`, in the bucket of that size.
    fn add_free_rect(&mut self, id: AllocIndex, size: &Size, Ghost(h): Ghost<int>)
        requires
            old(self)@.wf_except(h),
            id.0 < old(self)@.nodes.len(),
        ensures
            final(self)@ == old(self)@.after_listing(id.0 as int, *size),
            final(self)@.wf_except(h),
            forall|g: int| old(self)@.strict_except(g) ==> final(self)@.strict_except(g),
            forall|x: Set<int>|
                #[trigger] old(self)@.indexed_except(x) && old(self)@.options.bucket(*size)
                    <= old(self)@.options.bucket(old(self)@.nodes[id.0 as int].rect.size_spec())
                    ==> final(self)@.indexed_except(x.remove(id.0 as int)),
            final(self)@.allocations() == old(self)@.allocations(),
    {
        let bucket = free_list_for_size(self.small_size_threshold, self.large_size_threshold, size);
        self.free_lists[bucket].push(id);
        proof {
            let s = old(self)@;
            let t = self@;
            let b = bucket as int;
            lemma_basics(s, h);
            assert(t.free_lists =~= s.free_lists.update(b, s.free_lists[b].push(id)));
            assert forall|x: Set<int>|
                #[trigger] s.indexed_except(x) && s.options.bucket(*size) <= s.options.bucket(
                    s.nodes[id.0 as int].rect.size_spec(),
                ) implies t.indexed_except(x.remove(id.0 as int)) by {
                lemma_index_listing(s, id.0 as int, *size, x);
            }
            assert forall|c: int, k: int| 0 <= c < 3 && 0 <= k < t.free_lists[c].len() implies (
            #[trigger] t.free_lists[c][k]).0 < t.nodes.len() by {
                if c == b && k == s.free_lists[b].len() {
                } else {
                    assert(t.free_lists[c][k] == s.free_lists[c][k]);
                }
            }
            lemma_lists_changed(s, t, h);
        }
    }

    /// Selects the free leaf to allocate `requested_size` from, removes its
    /// entry from the buckets, and returns it; returns the sentinel if no
    /// bucket from that of the size up holds a leaf that accommodates it.
    fn find_suitable_rect(&mut self, requested_size: &Size) -> (id: AllocIndex)
        requires
            old(self)@.wf(),
            requested_size.width > 0,
            requested_size.height > 0,
        ensures
            final(self)@ == (AtlasView {
                free_lists: old(self)@.search(*requested_size).0,
                ..old(self)@
            }),
            id == old(self)@.search(*requested_size).1,
            final(self)@.wf(),
            old(self)@.strict() ==> final(self)@.strict(),
            forall|x: Set<int>|
                #[trigger] old(self)@.indexed_except(x) ==> final(self)@.indexed_except(
                    x.insert(id.0 as int),
                ),
            final(self)@.allocations() == old(self)@.allocations(),
            id.0 != NONE_INDEX ==> is_candidate(old(self)@.nodes, id, *requested_size),
            (id.0 != NONE_INDEX) == any_candidate(
                old(self)@.nodes,
                old(self)@.free_lists,
                *requested_size,
                old(self)@.options.bucket(*requested_size),
            ),
    {
        let ideal_bucket = free_list_for_size(
            self.small_size_threshold,
            self.large_size_threshold,
            requested_size,
        );
        let use_worst_fit = ideal_bucket != SMALL_BUCKET;
        proof {
            let s = old(self)@;
            lemma_basics(s, -1);
            assert(measurable_leaves(s.nodes)) by {
                assert forall|i: int|
                    0 <= i < s.nodes.len() && (#[trigger] s.nodes[i]).kind
                        == NodeKind::Free implies 0 <= s.nodes[i].rect.min.x
                    <= s.nodes[i].rect.max.x && 0 <= s.nodes[i].rect.min.y
                    <= s.nodes[i].rect.max.y by {
                    lemma_node(s, -1, i);
                }
            }
        }
        let mut bucket = ideal_bucket;
        while bucket < NUM_BUCKETS
            invariant
                ideal_bucket <= bucket <= 3,
                ideal_bucket == old(self)@.options.bucket(*requested_size),
                use_worst_fit == old(self)@.worst_fit(*requested_size),
                old(self)@.wf(),
                self@ == (AtlasView { free_lists: self@.free_lists, ..old(self)@ }),
                entries_in_range(self@.nodes, self@.free_lists),
                measurable_leaves(self@.nodes),
                requested_size.width > 0,
                requested_size.height > 0,
                find_from(
                    self@.nodes,
                    self@.free_lists,
                    *requested_size,
                    use_worst_fit,
                    bucket as int,
                ) == find_from(
                    old(self)@.nodes,
                    old(self)@.free_lists,
                    *requested_size,
                    use_worst_fit,
                    ideal_bucket as int,
                ),
            decreases 3 - bucket,
        {
            let ghost before = self@;
            let found = scan_free_list(
                &self.nodes,
                &mut self.free_lists[bucket],
                requested_size,
                use_worst_fit,
            );
            proof {
                let t = self@;
                assert(t.free_lists =~= before.free_lists.update(
                    bucket as int,
                    t.free_lists[bucket as int],
                ));
                lemma_scan(
                    before.nodes,
                    before.free_lists[bucket as int],
                    *requested_size,
                    use_worst_fit,
                    0,
                    None,
                    initial_score(use_worst_fit),
                );
                assert forall|k: int| 0 <= k < t.free_lists[bucket as int].len() implies (
                #[trigger] t.free_lists[bucket as int][k]).0 < t.nodes.len() by {
                    assert(before.free_lists[bucket as int].contains(
                        t.free_lists[bucket as int][k],
                    ));
                }
            }
            if let Some(pos) = found {
                let ghost mid = self@;
                let id = self.free_lists[bucket].swap_remove(pos);
                proof {
                    let t = self@;
                    assert(t.free_lists =~= before.free_lists.update(
                        bucket as int,
                        swap_removed(mid.free_lists[bucket as int], pos as int),
                    ));
                    let s = old(self)@;
                    let scanned = scan_bucket(
                        before.nodes,
                        before.free_lists[bucket as int],
                        *requested_size,
                        use_worst_fit,
                        0,
                        None,
                        initial_score(use_worst_fit),
                    );
                    assert(scanned == (mid.free_lists[bucket as int], Some(pos as int)));
                    assert(id == mid.free_lists[bucket as int][pos as int]);
                    assert(find_from(
                        before.nodes,
                        before.free_lists,
                        *requested_size,
                        use_worst_fit,
                        bucket as int,
                    ) == (t.free_lists, id));
                    assert(t.lists_ok());
                    lemma_lists_changed(s, t, -1);
                    lemma_basics(s, -1);
                    lemma_find(
                        s.nodes,
                        s.free_lists,
                        *requested_size,
                        use_worst_fit,
                        ideal_bucket as int,
                    );
                    assert forall|x: Set<int>| #[trigger] s.indexed_except(x) implies t.indexed_except(
                        x.insert(id.0 as int),
                    ) by {
                        lemma_index_search(s, *requested_size, x);
                    }
                }
                return id;
            }
            bucket += 1;
        }
        proof {
            let s = old(self)@;
            let t = self@;
            assert(t.lists_ok());
            lemma_lists_changed(s, t, -1);
            lemma_basics(s, -1);
            lemma_find(s.nodes, s.free_lists, *requested_size, use_worst_fit, ideal_bucket as int);
            assert forall|x: Set<int>| #[trigger] s.indexed_except(x) implies t.indexed_except(
                x.insert(NONE_INDEX as int),
            ) by {
                lemma_index_search(s, *requested_size, x);
            }
        }
        AllocIndex::none()
    }

    /// Marks the free leaf `h` as allocated.
    fn mark_allocated(&mut self, h: AllocIndex)
        requires
            old(self)@.wf_except(h.0 as int),
            h.0 < old(self)@.nodes.len(),
            old(self)@.nodes[h.0 as int].kind == NodeKind::Free,
            old(self)@.not_alone(h.0 as int),
            old(self)@.options.is_aligned(old(self)@.nodes[h.0 as int].rect.size_spec()),
        ensures
            final(self)@ == old(self)@.with_nodes(
                old(self)@.nodes_after_mark(h.0 as int, NodeKind::Alloc),
            ),
            final(self)@.wf(),
            old(self)@.strict_except(h.0 as int) ==> final(self)@.strict(),
            forall|x: Set<int>|
                #[trigger] old(self)@.indexed_except(x) ==> final(self)@.indexed_except(
                    x.remove(h.0 as int),
                ),
            final(self)@.nodes.len() == old(self)@.nodes.len(),
            !old(self)@.allocations().dom().contains(old(self)@.id_of(h.0 as int)),
            final(self)@.allocations() == old(self)@.allocations().insert(
                old(self)@.id_of(h.0 as int),
                old(self)@.nodes[h.0 as int].rect,
            ),
    {
        self.nodes[h.index()].kind = NodeKind::Alloc;
        proof {
            let s = old(self)@;
            let t = self@;
            assert(t.nodes =~= s.nodes_after_mark(h.0 as int, NodeKind::Alloc));
            assert(t.free_lists =~= s.free_lists);
            lemma_mark_alloc(s, h.0 as int, t);
            assert forall|x: Set<int>| #[trigger] s.indexed_except(x) implies t.indexed_except(
                x.remove(h.0 as int),
            ) by {
                assert forall|i: int| 0 <= i < t.nodes.len() implies #[trigger] carried(
                    s,
                    t,
                    x,
                    x.remove(h.0 as int),
                    i,
                ) by {}
                lemma_index_nodes(s, t, x, x.remove(h.0 as int));
            }
        }
    }

    /// Cuts the free leaf `h` at `at` along its own axis. `h` keeps the part
    /// before `at`; the rest becomes the free leaf `x`, which follows `h`.
    fn split_leaf(&mut self, h: AllocIndex, x: AllocIndex, at: i32)
        requires
            old(self)@.wf(),
            h.0 < old(self)@.nodes.len(),
            old(self)@.nodes[h.0 as int].kind == NodeKind::Free,
            old(self)@.reserved(x.0 as int),
            lo(old(self)@.nodes[h.0 as int].rect, old(self)@.nodes[h.0 as int].orientation) < at
                < hi(old(self)@.nodes[h.0 as int].rect, old(self)@.nodes[h.0 as int].orientation),
        ensures
            final(self)@ == old(self)@.with_nodes(
                old(self)@.nodes_after_split(h.0 as int, x.0 as int, at),
            ),
            final(self)@.wf_except(h.0 as int),
            old(self)@.strict() ==> final(self)@.strict(),
            forall|y: Set<int>|
                #[trigger] old(self)@.indexed_except(y) && y.contains(h.0 as int)
                    ==> final(self)@.indexed_except(y.insert(x.0 as int)),
            final(self)@.nodes[x.0 as int].rect == with_lo(
                old(self)@.nodes[h.0 as int].rect,
                old(self)@.nodes[h.0 as int].orientation,
                at,
            ),
            final(self)@.nodes[x.0 as int].kind == NodeKind::Free,
            final(self)@.nodes[h.0 as int].kind == NodeKind::Free,
            final(self)@.nodes[h.0 as int].orientation == old(self)@.nodes[h.0 as int].orientation,
            final(self)@.nodes[h.0 as int].rect == with_hi(
                old(self)@.nodes[h.0 as int].rect,
                old(self)@.nodes[h.0 as int].orientation,
                at,
            ),
            final(self)@.has_sibling(h.0 as int),
            final(self)@.nodes.len() == old(self)@.nodes.len(),
            final(self)@.allocations() == old(self)@.allocations(),
            forall|r: int| old(self)@.reserved(r) && r != x.0 ==> final(self)@.reserved(r),
    {
        proof {
            lemma_basics(self@, -1);
        }
        let node = self.nodes[h.index()];
        let next = node.next_sibling;
        self.nodes[h.index()].rect = cut_before(node.rect, node.orientation, at);
        self.nodes[h.index()].next_sibling = x;
        self.nodes[x.index()] = Node {
            parent: node.parent,
            next_sibling: next,
            prev_sibling: h,
            rect: cut_after(node.rect, node.orientation, at),
            kind: NodeKind::Free,
            orientation: node.orientation,
        };
        proof {
            lemma_node(old(self)@, -1, h.0 as int);
        }
        if next.is_some() {
            self.nodes[next.index()].prev_sibling = x;
        }
        proof {
            let s = old(self)@;
            let t = self@;
            assert(t.nodes =~= s.nodes_after_split(h.0 as int, x.0 as int, at));
            assert(t.free_lists =~= s.free_lists);
            assert(crate::tree_ops::split_ready(s, h.0 as int, x.0 as int, at));
            lemma_split(s, h.0 as int, x.0 as int, at, t);
            assert forall|y: Set<int>|
                #[trigger] s.indexed_except(y) && y.contains(h.0 as int) implies t.indexed_except(
                y.insert(x.0 as int),
            ) by {
                assert forall|i: int| 0 <= i < t.nodes.len() implies #[trigger] carried(
                    s,
                    t,
                    y,
                    y.insert(x.0 as int),
                    i,
                ) by {}
                lemma_index_nodes(s, t, y, y.insert(x.0 as int));
            }
        }
    }

    /// Turns the free leaf `h` into a container with two free leaves laid out
    /// along the other axis: `c1` before `at` and `c2` from `at` on.
    fn subdivide(&mut self, h: AllocIndex, c1: AllocIndex, c2: AllocIndex, at: i32)
        requires
            old(self)@.wf_except(h.0 as int),
            h.0 < old(self)@.nodes.len(),
            old(self)@.nodes[h.0 as int].kind == NodeKind::Free,
            old(self)@.not_alone(h.0 as int),
            old(self)@.reserved(c1.0 as int),
            old(self)@.reserved(c2.0 as int),
            c1 != c2,
            lo(
                old(self)@.nodes[h.0 as int].rect,
                old(self)@.nodes[h.0 as int].orientation.flipped_spec(),
            ) < at < hi(
                old(self)@.nodes[h.0 as int].rect,
                old(self)@.nodes[h.0 as int].orientation.flipped_spec(),
            ),
        ensures
            final(self)@ == old(self)@.with_nodes(
                old(self)@.nodes_after_subdivide(h.0 as int, c1.0 as int, c2.0 as int, at),
            ),
            final(self)@.wf_except(c1.0 as int),
            old(self)@.strict_except(h.0 as int) ==> final(self)@.strict(),
            forall|y: Set<int>|
                #[trigger] old(self)@.indexed_except(y) ==> final(self)@.indexed_except(
                    y.remove(h.0 as int).insert(c1.0 as int).insert(c2.0 as int),
                ),
            final(self)@.nodes[c2.0 as int].rect == with_lo(
                old(self)@.nodes[h.0 as int].rect,
                old(self)@.nodes[h.0 as int].orientation.flipped_spec(),
                at,
            ),
            final(self)@.nodes[c2.0 as int].kind == NodeKind::Free,
            forall|i: int|
                0 <= i < old(self)@.nodes.len() && i != h.0 && i != c1.0 && i != c2.0
                    ==> #[trigger] final(self)@.nodes[i] == old(self)@.nodes[i],
            final(self)@.nodes[c1.0 as int].kind == NodeKind::Free,
            final(self)@.nodes[c1.0 as int].orientation
                == old(self)@.nodes[h.0 as int].orientation.flipped_spec(),
            final(self)@.nodes[c1.0 as int].rect == with_hi(
                old(self)@.nodes[h.0 as int].rect,
                old(self)@.nodes[h.0 as int].orientation.flipped_spec(),
                at,
            ),
            final(self)@.has_sibling(c1.0 as int),
            final(self)@.nodes.len() == old(self)@.nodes.len(),
            final(self)@.allocations() == old(self)@.allocations(),
            forall|r: int|
                old(self)@.reserved(r) && r != c1.0 && r != c2.0 ==> final(self)@.reserved(r),
    {
        proof {
            lemma_basics(self@, h.0 as int);
        }
        let node = self.nodes[h.index()];
        let across = node.orientation.flipped();
        self.nodes[h.index()].kind = NodeKind::Container;
        self.nodes[c1.index()] = Node {
            parent: h,
            next_sibling: c2,
            prev_sibling: AllocIndex::none(),
            rect: cut_before(node.rect, across, at),
            kind: NodeKind::Free,
            orientation: across,
        };
        self.nodes[c2.index()] = Node {
            parent: h,
            next_sibling: AllocIndex::none(),
            prev_sibling: c1,
            rect: cut_after(node.rect, across, at),
            kind: NodeKind::Free,
            orientation: across,
        };
        proof {
            let s = old(self)@;
            let t = self@;
            assert(t.nodes =~= s.nodes_after_subdivide(h.0 as int, c1.0 as int, c2.0 as int, at));
            assert(t.free_lists =~= s.free_lists);
            assert(crate::tree_ops::subdivide_ready(s, h.0 as int, c1.0 as int, c2.0 as int, at));
            lemma_subdivide(s, h.0 as int, c1.0 as int, c2.0 as int, at, t);
            assert forall|y: Set<int>| #[trigger] s.indexed_except(y) implies t.indexed_except(
                y.remove(h.0 as int).insert(c1.0 as int).insert(c2.0 as int),
            ) by {
                let z = y.remove(h.0 as int).insert(c1.0 as int).insert(c2.0 as int);
                assert forall|i: int| 0 <= i < t.nodes.len() implies #[trigger] carried(
                    s,
                    t,
                    y,
                    z,
                    i,
                ) by {}
                lemma_index_nodes(s, t, y, z);
            }
        }
    }

    /// The slot that the valid handle `id` names. It lies in the arena, holds
    /// an allocation at the generation that `id` carries, and `id` is the
    /// handle under which it is handed out.
    pub fn get_index(&self, id: AllocId) -> (idx: AllocIndex)
        requires
            self@.wf(),
            self@.allocations().dom().contains(id),
        ensures
            idx.0 == id.slot(),
            idx.0 == id.0 & IDX_MASK,
            idx.0 < self@.nodes.len(),
            self@.nodes[idx.0 as int].kind == NodeKind::Alloc,
            self@.generations[idx.0 as int] == id.generation(),
            self@.id_of(idx.0 as int) == id,
            self@.nodes[idx.0 as int].rect == self@.allocations()[id],
    {
        proof {
            crate::tree_ops::lemma_id_is_packed(id);
        }
        id.to_index()
    }

    /// Whether `id` is the handle of a rectangle that is allocated now.
    pub fn is_allocated(&self, id: AllocId) -> (b: bool)
        requires
            self@.wf(),
        ensures
            b == self@.allocations().dom().contains(id),
    {
        proof {
            lemma_basics(self@, -1);
        }
        let idx = id.to_index();
        if idx.index() >= self.nodes.len() {
            return false;
        }
        id.to_generation() == self.generations[idx.index()] && self.nodes[idx.index()].kind
            == NodeKind::Alloc
    }

    /// Takes the slot `id` out of the tree and puts it at the head of the
    /// chain of reusable slots.
    fn mark_node_unused(&mut self, id: AllocIndex)
        requires
            id.0 < old(self)@.nodes.len(),
        ensures
            final(self)@ == (AtlasView {
                nodes: old(self)@.nodes.update(
                    id.0 as int,
                    Node {
                        kind: NodeKind::Unused,
                        next_sibling: old(self)@.unused_head,
                        ..old(self)@.nodes[id.0 as int]
                    },
                ),
                unused_head: id,
                unused_chain: seq![id.0 as int] + old(self)@.unused_chain,
                ..old(self)@
            }),
    {
        self.nodes[id.index()].kind = NodeKind::Unused;
        self.nodes[id.index()].next_sibling = self.unused_nodes;
        self.unused_nodes = id;
        proof {
            self.unused_chain@ = seq![id.0 as int] + self.unused_chain@;
            assert(self@.free_lists =~= old(self)@.free_lists);
            assert(self@.nodes =~= old(self)@.nodes.update(
                id.0 as int,
                Node {
                    kind: NodeKind::Unused,
                    next_sibling: old(self)@.unused_head,
                    ..old(self)@.nodes[id.0 as int]
                },
            ));
        }
    }

    /// Merges the free leaf `next` into the free leaf `node` that it follows.
    fn merge_siblings(
        &mut self,
        node: AllocIndex,
        next: AllocIndex,
        orientation: Orientation,
        Ghost(h): Ghost<int>,
    )
        requires
            old(self)@.wf_except(h),
            h == node.0 || h == next.0,
            old(self)@.live(node.0 as int),
            old(self)@.nodes[node.0 as int].kind == NodeKind::Free,
            old(self)@.nodes[node.0 as int].next_sibling == next,
            old(self)@.nodes[node.0 as int].orientation == orientation,
            next.0 != NONE_INDEX,
            old(self)@.nodes[next.0 as int].kind == NodeKind::Free,
        ensures
            final(self)@ == old(self)@.after_merge(node.0 as int, next.0 as int),
            final(self)@.wf_except(node.0 as int),
            old(self)@.strict_except(h) ==> final(self)@.strict_except(node.0 as int),
            forall|x: Set<int>|
                #[trigger] old(self)@.indexed_except(x) ==> final(self)@.indexed_except(
                    x.remove(next.0 as int),
                ),
            final(self)@.allocations() == old(self)@.allocations(),
    {
        proof {
            lemma_node(old(self)@, h, node.0 as int);
            lemma_node(old(self)@, h, next.0 as int);
        }
        let r2 = self.nodes[next.index()].rect;
        let merge_size = r2.size();
        // Consecutive siblings span the same range across their axis.
        match orientation {
            Orientation::Horizontal => {
                self.nodes[node.index()].rect.max.x += merge_size.width;
            },
            Orientation::Vertical => {
                self.nodes[node.index()].rect.max.y += merge_size.height;
            },
        }

        // Remove the merged node from the sibling list.
        let next_next = self.nodes[next.index()].next_sibling;
        self.nodes[node.index()].next_sibling = next_next;
        if next_next.is_some() {
            proof {
                lemma_node(old(self)@, h, next_next.0 as int);
            }
            self.nodes[next_next.index()].prev_sibling = node;
        }
        // Add the merged node to the list of available slots in the nodes vector.

        self.mark_node_unused(next);
        proof {
            let s = old(self)@;
            let t = self@;
            assert(t.nodes =~= s.after_merge(node.0 as int, next.0 as int).nodes);
            assert(crate::tree_ops::merge_ready(s, node.0 as int, next.0 as int, h));
            lemma_merge(s, node.0 as int, next.0 as int, h, t);
            lemma_basics(s, h);
            lemma_bucket_monotone(
                s.options,
                s.nodes[node.0 as int].rect.size_spec(),
                t.nodes[node.0 as int].rect.size_spec(),
            );
            assert forall|x: Set<int>| #[trigger] s.indexed_except(x) implies t.indexed_except(
                x.remove(next.0 as int),
            ) by {
                assert forall|i: int| 0 <= i < t.nodes.len() implies #[trigger] carried(
                    s,
                    t,
                    x,
                    x.remove(next.0 as int),
                    i,
                ) by {}
                lemma_index_nodes(s, t, x, x.remove(next.0 as int));
            }
        }
    }

    /// Merges the free leaf `node` with the leaf that follows it, if that one
    /// is free too.
    fn merge_with_next(&mut self, node: AllocIndex)
        requires
            old(self)@.wf_except(node.0 as int),
            old(self)@.live(node.0 as int),
            old(self)@.nodes[node.0 as int].kind == NodeKind::Free,
        ensures
            final(self)@ == old(self)@.after_merge_next(node.0 as int),
            final(self)@.wf_except(node.0 as int),
            old(self)@.strict_except(node.0 as int) ==> final(self)@.strict_except(node.0 as int),
            forall|x: Set<int>|
                #[trigger] old(self)@.indexed_except(x) ==> final(self)@.indexed_except(x),
            final(self)@.live(node.0 as int),
            final(self)@.nodes[node.0 as int].kind == NodeKind::Free,
            final(self)@.nodes[node.0 as int].prev_sibling == old(self)@.nodes[node.0 as int].prev_sibling,
            !final(self)@.next_is_free(node.0 as int),
            final(self)@ == old(self)@ || final(self)@.girth(node.0 as int) > old(self)@.girth(
                node.0 as int,
            ),
            final(self)@.size == old(self)@.size,
            final(self)@.options == old(self)@.options,
            final(self)@.free_lists == old(self)@.free_lists,
            final(self)@.allocations() == old(self)@.allocations(),
    {
        let ghost s0 = self@;
        let ghost h = node.0 as int;
        proof {
            lemma_basics(s0, h);
            lemma_node(s0, h, h);
        }
        let orientation = self.nodes[node.index()].orientation;
        let next = self.nodes[node.index()].next_sibling;
        if next.is_some() && self.nodes[next.index()].kind == NodeKind::Free {
            proof {
                lemma_node(s0, h, next.0 as int);
                let nn = s0.nodes[next.0 as int].next_sibling;
                if nn.0 != NONE_INDEX {
                    lemma_node(s0, h, nn.0 as int);
                }
            }
            self.merge_siblings(node, next, orientation, Ghost(h));
            proof {
                let t = self@;
                assert forall|x: Set<int>| #[trigger] s0.indexed_except(x) implies t.indexed_except(
                    x,
                ) by {
                    lemma_index_weaken(t, x.remove(next.0 as int), x);
                }
            }
        }
    }

    /// Merges the free leaf `node` into the leaf that it follows, if that one
    /// is free too, and returns the leaf that holds the rectangle of `node`
    /// afterwards.
    fn merge_with_prev(&mut self, node: AllocIndex) -> (merged: AllocIndex)
        requires
            old(self)@.wf_except(node.0 as int),
            old(self)@.live(node.0 as int),
            old(self)@.nodes[node.0 as int].kind == NodeKind::Free,
            !old(self)@.next_is_free(node.0 as int),
        ensures
            final(self)@ == old(self)@.after_merge_prev(node.0 as int),
            merged.0 == old(self)@.merged_prev(node.0 as int),
            final(self)@.wf_except(merged.0 as int),
            old(self)@.strict_except(node.0 as int) ==> final(self)@.strict_except(merged.0 as int),
            forall|x: Set<int>|
                #[trigger] old(self)@.indexed_except(x) ==> final(self)@.indexed_except(
                    x.remove(node.0 as int).insert(merged.0 as int),
                ),
            final(self)@.live(merged.0 as int),
            final(self)@.nodes[merged.0 as int].kind == NodeKind::Free,
            final(self)@.no_free_neighbour(merged.0 as int),
            (final(self)@ == old(self)@ && merged == node) || final(self)@.girth(merged.0 as int)
                > old(self)@.girth(node.0 as int),
            final(self)@.size == old(self)@.size,
            final(self)@.options == old(self)@.options,
            final(self)@.free_lists == old(self)@.free_lists,
            final(self)@.allocations() == old(self)@.allocations(),
    {
        let ghost s0 = self@;
        let ghost h = node.0 as int;
        proof {
            lemma_basics(s0, h);
            lemma_node(s0, h, h);
        }
        let orientation = self.nodes[node.index()].orientation;
        let prev = self.nodes[node.index()].prev_sibling;
        if prev.is_some() && self.nodes[prev.index()].kind == NodeKind::Free {
            proof {
                lemma_node(s0, h, prev.0 as int);
                let pp = s0.nodes[prev.0 as int].prev_sibling;
                if pp.0 != NONE_INDEX {
                    lemma_node(s0, h, pp.0 as int);
                }
                let nx = s0.nodes[h].next_sibling;
                if nx.0 != NONE_INDEX {
                    lemma_node(s0, h, nx.0 as int);
                }
            }
            self.merge_siblings(prev, node, orientation, Ghost(h));
            proof {
                let t = self@;
                assert forall|x: Set<int>| #[trigger] s0.indexed_except(x) implies t.indexed_except(
                    x.remove(h).insert(prev.0 as int),
                ) by {
                    lemma_index_weaken(t, x.remove(h), x.remove(h).insert(prev.0 as int));
                }
            }
            return prev;
        }
        proof {
            assert forall|x: Set<int>| #[trigger] s0.indexed_except(x) implies s0.indexed_except(
                x.remove(h).insert(h),
            ) by {
                lemma_index_weaken(s0, x, x.remove(h).insert(h));
            }
        }
        node
    }

    /// Lifts the free leaf `node`, the only child of its parent, into the
    /// place of the parent, and returns the parent.
    fn lift_into_parent(&mut self, node: AllocIndex) -> (parent: AllocIndex)
        requires
            old(self)@.wf_except(node.0 as int),
            old(self)@.live(node.0 as int),
            old(self)@.nodes[node.0 as int].kind == NodeKind::Free,
            old(self)@.nodes[node.0 as int].parent.0 != NONE_INDEX,
            old(self)@.nodes[node.0 as int].prev_sibling.0 == NONE_INDEX,
            old(self)@.nodes[node.0 as int].next_sibling.0 == NONE_INDEX,
        ensures
            parent == old(self)@.nodes[node.0 as int].parent,
            final(self)@ == old(self)@.after_collapse(node.0 as int),
            final(self)@.wf_except(parent.0 as int),
            old(self)@.strict_except(node.0 as int) ==> final(self)@.strict(),
            forall|x: Set<int>|
                #[trigger] old(self)@.indexed_except(x) ==> final(self)@.indexed_except(
                    x.remove(node.0 as int).insert(parent.0 as int),
                ),
            final(self)@.live(parent.0 as int),
            final(self)@.nodes[parent.0 as int].kind == NodeKind::Free,
            final(self)@.anchored(parent.0 as int),
            final(self)@.has_sibling(parent.0 as int) == old(self)@.has_sibling(parent.0 as int),
            final(self)@.girth(parent.0 as int) == old(self)@.girth(node.0 as int),
            final(self)@.size == old(self)@.size,
            final(self)@.options == old(self)@.options,
            final(self)@.free_lists == old(self)@.free_lists,
            final(self)@.allocations() == old(self)@.allocations(),
    {
        let ghost s = self@;
        proof {
            lemma_basics(s, node.0 as int);
            lemma_node(s, node.0 as int, node.0 as int);
        }
        let parent = self.nodes[node.index()].parent;
        self.mark_node_unused(node);

        // Replace the parent container with a free node.
        self.nodes[parent.index()].rect = self.nodes[node.index()].rect;
        self.nodes[parent.index()].kind = NodeKind::Free;
        proof {
            let t = self@;
            assert(t.nodes =~= s.after_collapse(node.0 as int).nodes);
            assert(t.free_lists =~= s.free_lists);
            lemma_collapse(s, node.0 as int, t);
            assert forall|x: Set<int>| #[trigger] s.indexed_except(x) implies t.indexed_except(
                x.remove(node.0 as int).insert(parent.0 as int),
            ) by {
                let y = x.remove(node.0 as int).insert(parent.0 as int);
                assert forall|i: int| 0 <= i < t.nodes.len() implies #[trigger] carried(
                    s,
                    t,
                    x,
                    y,
                    i,
                ) by {}
                lemma_index_nodes(s, t, x, y);
            }
        }
        parent
    }

    /// Deallocate a rectangle in the atlas.
    ///
    /// The leaf becomes free and is merged with the free siblings beside it.
    /// A leaf that is left as the only child of its container takes the
    /// place of the container, and is merged again at that level.
    pub fn deallocate(&mut self, node_id: AllocId)
        requires
            old(self)@.wf(),
            old(self)@.allocations().dom().contains(node_id),
        ensures
            final(self)@ == old(self)@.after_deallocate(node_id),
            final(self)@.wf(),
            old(self)@.strict() ==> final(self)@.strict(),
            old(self)@.indexed() ==> final(self)@.indexed(),
            final(self)@.size == old(self)@.size,
            final(self)@.options == old(self)@.options,
            final(self)@.allocations() == old(self)@.allocations().remove(node_id),
            final(self)@.is_empty() ==> final(self)@.pristine(),
    {
        let id = node_id;
        let mut node_id = id.to_index();
        proof {
            lemma_basics(self@, -1);
        }
        self.nodes[node_id.index()].kind = NodeKind::Free;
        proof {
            let s = old(self)@;
            let t = self@;
            assert(t.nodes =~= s.nodes_after_mark(node_id.0 as int, NodeKind::Free));
            assert(t.free_lists =~= s.free_lists);
            lemma_mark_free(s, node_id.0 as int, t);
            crate::tree_ops::lemma_id_is_packed(id);
            lemma_node(t, node_id.0 as int, node_id.0 as int);
            if s.indexed() {
                let none = Set::<int>::empty();
                let y = none.insert(node_id.0 as int);
                assert forall|i: int| 0 <= i < t.nodes.len() implies #[trigger] carried(
                    s,
                    t,
                    none,
                    y,
                    i,
                ) by {}
                lemma_index_nodes(s, t, none, y);
            }
        }
        let ghost start = self@;
        let ghost first = node_id.0 as int;
        let ghost fuel: nat = old(self)@.levels();
        loop
            invariant_except_break
                self@.wf_except(node_id.0 as int),
                old(self)@.strict() ==> self@.strict_except(node_id.0 as int),
                old(self)@.indexed() ==> self@.indexed_except(
                    Set::<int>::empty().insert(node_id.0 as int),
                ),
                self@.live(node_id.0 as int),
                self@.nodes[node_id.0 as int].kind == NodeKind::Free,
                self@.anchored(node_id.0 as int),
                self@.coalesced(node_id.0 as int, fuel) == start.coalesced(
                    first,
                    old(self)@.levels(),
                ),
                fuel > 2 * (self@.size.width + self@.size.height - self@.girth(node_id.0 as int)) + (
                if self@.not_alone(node_id.0 as int) {
                    0int
                } else {
                    1int
                }),
            invariant
                self@.size == old(self)@.size,
                self@.options == old(self)@.options,
                self@.allocations() == old(self)@.allocations().remove(id),
            ensures
                self@ == start.coalesced(first, old(self)@.levels()),
                self@.wf(),
                old(self)@.strict() ==> self@.strict(),
                old(self)@.indexed() ==> self@.indexed(),
                self@.live(node_id.0 as int),
                self@.listed(
                    node_id.0 as int,
                    self@.options.bucket(self@.nodes[node_id.0 as int].rect.size_spec()),
                ),
            decreases
                    2 * (self@.size.width + self@.size.height - self@.girth(node_id.0 as int)) + (
                    if self@.not_alone(node_id.0 as int) {
                        0int
                    } else {
                        1int
                    }),
        {
            proof {
                lemma_node(self@, node_id.0 as int, node_id.0 as int);
            }
            let ghost s0 = self@;
            let ghost cur0 = node_id.0 as int;
            let ghost ix = old(self)@.indexed();
            let ghost none = Set::<int>::empty();
            // Try to merge with the next node, then with the previous node.
            self.merge_with_next(node_id);
            proof {
                assert(ix ==> self@.indexed_except(none.insert(cur0)));
            }
            node_id = self.merge_with_prev(node_id);
            let ghost cur1 = node_id.0 as int;
            proof {
                assert(none.insert(cur0).remove(cur0).insert(cur1) =~= none.insert(cur1));
                assert(ix ==> self@.indexed_except(none.insert(cur1)));
            }

            // If this node is now a unique child. We collapse it into its parent and try to merge
            // again at the parent level.
            proof {
                lemma_basics(self@, node_id.0 as int);
                lemma_node(self@, node_id.0 as int, node_id.0 as int);
            }
            let parent = self.nodes[node_id.index()].parent;
            if self.nodes[node_id.index()].prev_sibling.is_none() && self.nodes[node_id.index()].next_sibling.is_none()
                && parent.is_some() {
                // Start again at the parent level.
                node_id = self.lift_into_parent(node_id);
                proof {
                    fuel = (fuel - 1) as nat;
                    assert(none.insert(cur1).remove(cur1).insert(node_id.0 as int) =~= none.insert(
                        node_id.0 as int,
                    ));
                }
            } else {
                proof {
                    lemma_settle(self@, node_id.0 as int);
                }
                let size = self.nodes[node_id.index()].rect.size();
                let ghost before = self@;
                self.add_free_rect(node_id, &size, Ghost(-1));
                proof {
                    let b = before.options.bucket(size);
                    lemma_basics(before, -1);
                    assert(self@.free_lists[b][before.free_lists[b].len() as int] == node_id);
                    assert(none.insert(cur1).remove(cur1) =~= none);
                }
                break ;
            }
        }
        proof {
            let t = self@;
            if t.is_empty() {
                lemma_empty_is_single_leaf(t);
            }
        }
    }

    /// Whether no rectangle is allocated.
    pub fn is_empty(&self) -> (b: bool)
        requires
            self@.wf(),
        ensures
            b == self@.is_empty(),
            b == self@.single_free_leaf(),
    {
        proof {
            lemma_basics(self@, -1);
            let s = self@;
            let r = s.root.0 as int;
            if s.nodes[r].kind == NodeKind::Free && s.nodes[r].next_sibling.0 == NONE_INDEX {
                lemma_lone_free_root(s);
            }
            if s.single_free_leaf() {
                lemma_single_leaf_is_empty(s);
            }
            if s.is_empty() {
                lemma_empty_is_single_leaf(s);
            }
        }
        let root = &self.nodes[self.root_node.index()];
        root.kind == NodeKind::Free && root.next_sibling.is_none()
    }

    /// Whether the arena has room for the nodes that one allocation or one
    /// growth of the atlas can add.
    pub fn has_room(&self) -> (b: bool)
        ensures
            b == self@.has_room(),
            b ==> forall|new_size: Size| #[trigger] self@.room_to_grow(new_size),
    {
        self.nodes.len() <= MAX_NODES - 4
    }

    /// Whether the arena has room for the nodes that growing the atlas to
    /// `new_size` adds.
    pub fn has_room_to_grow(&self, new_size: Size) -> (b: bool)
        requires
            self@.wf(),
        ensures
            b == self@.room_to_grow(new_size),
    {
        proof {
            lemma_basics(self@, -1);
            lemma_node(self@, -1, self@.root.0 as int);
        }
        let root = self.nodes[self.root_node.index()];
        let mut needed: usize = 0;
        if !(root.kind == NodeKind::Free && root.rect.size() == self.size) {
            let grows_along = match root.orientation {
                Orientation::Horizontal => new_size.width > self.size.width,
                Orientation::Vertical => new_size.height > self.size.height,
            };
            let grows_across = match root.orientation {
                Orientation::Horizontal => new_size.height > self.size.height,
                Orientation::Vertical => new_size.width > self.size.width,
            };
            if grows_along {
                let last = self.last_top_level();
                if self.nodes[last.index()].kind != NodeKind::Free {
                    needed += 1;
                }
            }
            if grows_across {
                needed += 2;
            }
        }
        self.nodes.len() + needed <= MAX_NODES
    }

    /// The last node of the top level.
    fn last_top_level(&self) -> (last: AllocIndex)
        requires
            self@.wf(),
        ensures
            last.0 == self@.last_top(),
            self@.top_level(last.0 as int),
            self@.nodes[last.0 as int].next_sibling.0 == NONE_INDEX,
    {
        let ghost s = self@;
        let ghost o = s.root_orientation();
        proof {
            lemma_basics(s, -1);
        }
        let mut sibling = self.root_node;
        while self.nodes[sibling.index()].next_sibling.is_some()
            invariant
                self@ == s,
                s.wf(),
                o == s.root_orientation(),
                s.top_level(sibling.0 as int),
            decreases extent(s.size, o) - lo(s.nodes[sibling.0 as int].rect, o),
        {
            proof {
                lemma_node(s, -1, sibling.0 as int);
                lemma_node(s, -1, s.nodes[sibling.0 as int].next_sibling.0 as int);
            }
            sibling = self.nodes[sibling.index()].next_sibling;
        }
        proof {
            lemma_last_top_unique(s, sibling.0 as int, s.last_top());
        }
        sibling
    }

    /// Grows the atlas to `to` along the axis of the top level. The strip
    /// gained goes to the last node of the top level if that is a free leaf,
    /// and else becomes a free leaf of its own.
    fn grow_along(&mut self, to: i32)
        requires
            old(self)@.wf(),
            old(self)@.nodes[old(self)@.last_top()].kind != NodeKind::Free
                ==> old(self)@.nodes.len() < MAX_NODES,
            !old(self)@.single_free_leaf(),
            to > extent(old(self)@.size, old(self)@.root_orientation()),
        ensures
            final(self)@ == old(self)@.after_grow_along(to),
            final(self)@.wf(),
            old(self)@.strict() ==> final(self)@.strict(),
            old(self)@.indexed() ==> final(self)@.indexed(),
            final(self)@.size == resized(old(self)@.size, old(self)@.root_orientation(), to),
            final(self)@.options == old(self)@.options,
            final(self)@.allocations() == old(self)@.allocations(),
            final(self)@.root_orientation() == old(self)@.root_orientation(),
            final(self)@.root_has_sibling(),
            final(self)@.nodes.len() <= old(self)@.nodes.len() + (if old(self)@.nodes[old(
                self,
            )@.last_top()].kind == NodeKind::Free {
                0int
            } else {
                1int
            }),
    {
        let ghost s = self@;
        proof {
            lemma_basics(s, -1);
            lemma_node(s, -1, s.root.0 as int);
        }
        let root_orientation = self.nodes[self.root_node.index()].orientation;
        let sibling = self.last_top_level();
        proof {
            lemma_node(s, -1, sibling.0 as int);
        }
        let node = self.nodes[sibling.index()];
        if node.kind == NodeKind::Free {
            match root_orientation {
                Orientation::Horizontal => {
                    self.nodes[sibling.index()].rect.max.x = to;
                    self.size.width = to;
                },
                Orientation::Vertical => {
                    self.nodes[sibling.index()].rect.max.y = to;
                    self.size.height = to;
                },
            }
            proof {
                let t = self@;
                assert(t.nodes =~= s.after_extend_last(sibling.0 as int, to).nodes);
                assert(t.free_lists =~= s.free_lists);
                lemma_extend_last(s, sibling.0 as int, to, t);
                if s.indexed() {
                    let none = Set::<int>::empty();
                    lemma_bucket_monotone(
                        s.options,
                        s.nodes[sibling.0 as int].rect.size_spec(),
                        t.nodes[sibling.0 as int].rect.size_spec(),
                    );
                    assert forall|i: int| 0 <= i < t.nodes.len() implies #[trigger] carried(
                        s,
                        t,
                        none,
                        none,
                        i,
                    ) by {}
                    lemma_index_nodes(s, t, none, none);
                }
                if sibling == s.root {
                    assert(s.nodes[s.root.0 as int].rect.min == s.atlas_rect().min);
                    assert(s.nodes[s.root.0 as int].rect.max == s.atlas_rect().max);
                    assert(s.single_free_leaf());
                }
            }
        } else {
            let rect = match root_orientation {
                Orientation::Horizontal => Rectangle {
                    min: Point { x: node.rect.max.x, y: node.rect.min.y },
                    max: Point { x: to, y: node.rect.max.y },
                },
                Orientation::Vertical => Rectangle {
                    min: Point { x: node.rect.min.x, y: node.rect.max.y },
                    max: Point { x: node.rect.max.x, y: to },
                },
            };
            let next = self.new_node(Ghost(-1));
            let ghost s1 = self@;
            self.nodes[sibling.index()].next_sibling = next;
            self.nodes[next.index()] = Node {
                kind: NodeKind::Free,
                rect,
                prev_sibling: sibling,
                next_sibling: AllocIndex::none(),
                parent: AllocIndex::none(),
                orientation: root_orientation,
            };
            match root_orientation {
                Orientation::Horizontal => {
                    self.size.width = to;
                },
                Orientation::Vertical => {
                    self.size.height = to;
                },
            }
            proof {
                let t = self@;
                assert(t.nodes =~= s1.after_append_last(sibling.0 as int, next.0 as int, to).nodes);
                assert(t.free_lists =~= s1.free_lists);
                lemma_append_last(s1, sibling.0 as int, next.0 as int, to, t);
                if s.indexed() {
                    let none = Set::<int>::empty();
                    assert(s1.indexed_except(none));
                    let y = none.insert(next.0 as int);
                    assert forall|i: int| 0 <= i < t.nodes.len() implies #[trigger] carried(
                        s1,
                        t,
                        none,
                        y,
                        i,
                    ) by {}
                    lemma_index_nodes(s1, t, none, y);
                    assert(y.remove(next.0 as int) =~= none);
                }
            }
            self.add_free_rect(next, &rect.size(), Ghost(-1));
        }
    }

    /// Grows the atlas to `to` across the axis of the top level. The nodes of
    /// the top level become the children of a new container, which is
    /// followed at the new top level by a free leaf over the strip gained.
    fn grow_across(&mut self, to: i32)
        requires
            old(self)@.wf(),
            old(self)@.nodes.len() + 2 <= MAX_NODES,
            !old(self)@.lone_free_root(),
            to > extent(old(self)@.size, old(self)@.root_orientation().flipped_spec()),
        ensures
            final(self)@ == old(self)@.after_grow_across(to),
            final(self)@.wf(),
            old(self)@.strict() && old(self)@.root_has_sibling() ==> final(self)@.strict(),
            old(self)@.indexed() ==> final(self)@.indexed(),
            final(self)@.size == resized(
                old(self)@.size,
                old(self)@.root_orientation().flipped_spec(),
                to,
            ),
            final(self)@.options == old(self)@.options,
            final(self)@.allocations() == old(self)@.allocations(),
    {
        proof {
            lemma_basics(self@, -1);
        }
        let root_orientation = self.nodes[self.root_node.index()].orientation;
        let old_size = self.size;
        let ghost ix = self@.indexed();
        let ghost none = Set::<int>::empty();
        proof {
            assert(ix ==> self@.indexed_except(none));
        }
        let free_node = self.new_node(Ghost(-1));
        proof {
            assert(ix ==> self@.indexed_except(none));
        }
        let new_root = self.new_node(Ghost(-1));
        let ghost s = self@;
        proof {
            assert(ix ==> s.indexed_except(none));
        }
        let ghost o = s.root_orientation();
        let ghost r = new_root.0 as int;
        let ghost f = free_node.0 as int;
        proof {
            lemma_basics(s, -1);
            lemma_node(s, -1, s.root.0 as int);
        }

        let old_root = self.root_node;
        self.root_node = new_root;
        let new_root_orientation = root_orientation.flipped();
        let rect = match new_root_orientation {
            Orientation::Horizontal => Rectangle {
                min: Point { x: old_size.width, y: 0 },
                max: Point { x: to, y: old_size.height },
            },
            Orientation::Vertical => Rectangle {
                min: Point { x: 0, y: old_size.height },
                max: Point { x: old_size.width, y: to },
            },
        };
        self.nodes[free_node.index()] = Node {
            parent: AllocIndex::none(),
            prev_sibling: new_root,
            next_sibling: AllocIndex::none(),
            kind: NodeKind::Free,
            rect,
            orientation: new_root_orientation,
        };
        self.nodes[new_root.index()] = Node {
            parent: AllocIndex::none(),
            prev_sibling: AllocIndex::none(),
            next_sibling: free_node,
            kind: NodeKind::Container,
            rect: Rectangle::from_size(old_size),
            orientation: new_root_orientation,
        };
        match new_root_orientation {
            Orientation::Horizontal => {
                self.size.width = to;
            },
            Orientation::Vertical => {
                self.size.height = to;
            },
        }

        // Update the nodes that need to be re-parented to the new root.
        let mut iter = old_root;
        proof {
            assert forall|i: int| 0 <= i < s.nodes.len() implies #[trigger] self@.nodes[i]
                == s.reparented_up_to(r, f, to, 0)[i] by {
                if s.top_level(i) {
                    lemma_node(s, -1, i);
                }
            }
            assert(self@.nodes =~= s.reparented_up_to(r, f, to, 0));
            assert(self@.free_lists =~= s.free_lists);
        }
        while iter.is_some()
            invariant
                s.wf(),
                s.reserved(r),
                s.reserved(f),
                r != f,
                r == new_root.0,
                o == s.root_orientation(),
                iter.0 != NONE_INDEX ==> s.top_level(iter.0 as int),
                self@.nodes == s.reparented_up_to(
                    r,
                    f,
                    to,
                    if iter.0 == NONE_INDEX {
                        extent(s.size, o)
                    } else {
                        lo(s.nodes[iter.0 as int].rect, o)
                    },
                ),
                self@ == (AtlasView {
                    nodes: self@.nodes,
                    size: resized(s.size, o.flipped_spec(), to),
                    root: new_root,
                    ..s
                }),
            decreases
                    if iter.0 == NONE_INDEX {
                        0
                    } else {
                        1 + extent(s.size, o) - lo(s.nodes[iter.0 as int].rect, o)
                    },
        {
            let ghost before = self@;
            let ghost i0 = iter.0 as int;
            proof {
                lemma_node(s, -1, i0);
                if s.nodes[i0].next_sibling.0 != NONE_INDEX {
                    lemma_node(s, -1, s.nodes[i0].next_sibling.0 as int);
                }
            }
            self.nodes[iter.index()].parent = new_root;
            iter = self.nodes[iter.index()].next_sibling;
            proof {
                let cursor = if iter.0 == NONE_INDEX {
                    extent(s.size, o)
                } else {
                    lo(s.nodes[iter.0 as int].rect, o)
                };
                assert(cursor == hi(s.nodes[i0].rect, o));
                assert forall|i: int| 0 <= i < s.nodes.len() implies #[trigger] self@.nodes[i]
                    == s.reparented_up_to(r, f, to, cursor)[i] by {
                    if i != i0 && s.top_level(i) && lo(s.nodes[i0].rect, o) <= lo(
                        s.nodes[i].rect,
                        o,
                    ) < cursor {
                        lemma_top_level_unique(s, i0, i);
                    }
                }
                assert(self@.nodes =~= s.reparented_up_to(r, f, to, cursor));
                assert(self@.free_lists =~= s.free_lists);
            }
        }
        proof {
            let t = self@;
            assert forall|i: int| 0 <= i < s.nodes.len() implies #[trigger] t.nodes[i]
                == s.after_add_top(r, f, to).nodes[i] by {
                if s.top_level(i) {
                    lemma_node(s, -1, i);
                }
            }
            assert(t.nodes =~= s.after_add_top(r, f, to).nodes);
            lemma_add_top(s, r, f, to, t);
            if ix {
                let y = none.insert(f);
                assert forall|i: int| 0 <= i < t.nodes.len() implies #[trigger] carried(
                    s,
                    t,
                    none,
                    y,
                    i,
                ) by {}
                lemma_index_nodes(s, t, none, y);
                assert(y.remove(f) =~= none);
            }
        }
        self.add_free_rect(free_node, &rect.size(), Ghost(-1));
    }

    /// Resize the atlas without changing the allocations.
    ///
    /// This method is not allowed to shrink the width or height of the atlas.
    /// A tree that is a single free leaf is stretched over the new size.
    /// Otherwise the area gained along the axis of the top level goes to the
    /// last node of the top level, or to a new free leaf after it, and the
    /// area gained across that axis goes to a free leaf beside a new container
    /// that takes the old top level as its children.
    pub fn grow(&mut self, new_size: Size)
        requires
            old(self)@.wf(),
            old(self)@.room_to_grow(new_size),
            new_size.width >= old(self)@.size.width,
            new_size.height >= old(self)@.size.height,
        ensures
            final(self)@ == old(self)@.after_grow(new_size),
            final(self)@.wf(),
            old(self)@.indexed() ==> final(self)@.indexed(),
            final(self)@.size == new_size,
            final(self)@.options == old(self)@.options,
            final(self)@.allocations() == old(self)@.allocations(),
            old(self)@.single_free_leaf() ==> final(self)@.single_free_leaf()
                && final(self)@.free_lists == old(self)@.free_lists,
            old(self)@.strict() && !old(self)@.grows_over_single_node(new_size)
                ==> final(self)@.strict(),
    {
        proof {
            lemma_basics(self@, -1);
            lemma_node(self@, -1, self@.root.0 as int);
        }
        let old_size = self.size;

        // If there is only one node and it is free, just grow it.
        let root = self.nodes[self.root_node.index()];
        if root.kind == NodeKind::Free && root.rect.size() == old_size {
            self.nodes[self.root_node.index()].rect.max = Point {
                x: root.rect.min.x + new_size.width,
                y: root.rect.min.y + new_size.height,
            };
            self.size = new_size;
            proof {
                let s = old(self)@;
                let t = self@;
                assert(s.nodes[s.root.0 as int].rect.min == s.atlas_rect().min);
                assert(s.nodes[s.root.0 as int].rect.max == s.atlas_rect().max);
                assert(t.nodes =~= s.after_grow_single(new_size).nodes);
                assert(t.free_lists =~= s.free_lists);
                lemma_grow_single(s, new_size, t);
                if s.indexed() {
                    let none = Set::<int>::empty();
                    lemma_bucket_monotone(
                        s.options,
                        s.nodes[s.root.0 as int].rect.size_spec(),
                        t.nodes[s.root.0 as int].rect.size_spec(),
                    );
                    assert forall|i: int| 0 <= i < t.nodes.len() implies #[trigger] carried(
                        s,
                        t,
                        none,
                        none,
                        i,
                    ) by {}
                    lemma_index_nodes(s, t, none, none);
                }
            }
            return ;
        }
        let root_orientation = root.orientation;
        let grows_in_root_orientation = match root_orientation {
            Orientation::Horizontal => new_size.width > old_size.width,
            Orientation::Vertical => new_size.height > old_size.height,
        };

        // If growing along the orientation of the root node, find the right-or-bottom-most
        // sibling and either grow it (if it is free) or append a free node next.
        if grows_in_root_orientation {
            let to = match root_orientation {
                Orientation::Horizontal => new_size.width,
                Orientation::Vertical => new_size.height,
            };
            self.grow_along(to);
        }
        let grows_in_opposite_orientation = match root_orientation {
            Orientation::Horizontal => new_size.height > old_size.height,
            Orientation::Vertical => new_size.width > old_size.width,
        };
        if grows_in_opposite_orientation {
            let to = match root_orientation {
                Orientation::Horizontal => new_size.height,
                Orientation::Vertical => new_size.width,
            };
            proof {
                lemma_basics(self@, -1);
                lemma_node(self@, -1, self@.root.0 as int);
            }
            self.grow_across(to);
        }
    }

    /// Clear the allocator and reset its size and options.
    pub fn reset(&mut self, size: Size, options: &AllocatorOptions)
        requires
            options.valid(),
            size.width > 0,
            size.height > 0,
        ensures
            final(self)@ == AtlasView::initial(size, *options),
            final(self)@.wf(),
            final(self)@.strict(),
            final(self)@.is_empty(),
            final(self)@.pristine(),
            final(self)@.indexed(),
    {
        self.alignment = options.alignment;
        self.small_size_threshold = options.small_size_threshold;
        self.large_size_threshold = options.large_size_threshold;
        self.size = size;
        self.nodes.clear();
        self.generations.clear();
        self.unused_nodes = AllocIndex::none();
        self.root_node = AllocIndex(0);
        self.free_lists[0].clear();
        self.free_lists[1].clear();
        self.free_lists[2].clear();
        let bucket = free_list_for_size(
            options.small_size_threshold,
            options.large_size_threshold,
            &size,
        );
        self.free_lists[bucket].push(AllocIndex(0));
        self.nodes.push(
            Node {
                parent: AllocIndex::none(),
                next_sibling: AllocIndex::none(),
                prev_sibling: AllocIndex::none(),
                rect: Rectangle::from_size(size),
                kind: NodeKind::Free,
                orientation: Orientation::Vertical,
            },
        );
        self.generations.push(0u8);
        proof {
            self.unused_chain@ = Seq::empty();
            let s = AtlasView::initial(size, *options);
            let t = self@;
            assert(t.nodes =~= s.nodes);
            assert(t.generations =~= s.generations);
            assert forall|b: int| 0 <= b < 3 implies #[trigger] t.free_lists[b]
                == s.free_lists[b] by {
                assert(t.free_lists[b] =~= s.free_lists[b]);
            }
            assert(t.free_lists =~= s.free_lists);
            lemma_initial_wf(size, *options);
        }
    }

    /// Drop all the allocations: the atlas becomes a single free rectangle
    /// again, as in a new allocator of this size and with these options.
    pub fn clear(&mut self)
        requires
            old(self)@.wf(),
        ensures
            final(self)@ == AtlasView::initial(old(self)@.size, old(self)@.options),
            final(self)@.wf(),
            final(self)@.strict(),
            final(self)@.is_empty(),
            final(self)@.pristine(),
            final(self)@.indexed(),
    {
        proof {
            lemma_basics(self@, -1);
        }
        let size = self.size;
        let options = self.options();
        self.reset(size, &options);
    }

    /// The rectangle that the handle `id` stands for.
    pub fn get(&self, id: AllocId) -> (rect: &Rectangle)
        requires
            self@.wf(),
            self@.allocations().dom().contains(id),
        ensures
            *rect == self@.allocations()[id],
    {
        let idx = self.get_index(id);
        &self.nodes[idx.index()].rect
    }

    /// The free rectangles, in the order of their slots.
    pub fn free_rectangles(&self) -> (rects: Vec<Rectangle>)
        ensures
            rects@ == self@.free_rect_list(self@.nodes.len() as int),
    {
        let mut rects: Vec<Rectangle> = Vec::new();
        let mut i: usize = 0;
        while i < self.nodes.len()
            invariant
                0 <= i <= self.nodes.len(),
                rects@ == self@.free_rect_list(i as int),
            decreases self.nodes.len() - i,
        {
            if self.nodes[i].kind == NodeKind::Free {
                rects.push(self.nodes[i].rect);
            }
            i += 1;
        }
        rects
    }

    /// The allocations, in the order of their slots.
    pub fn allocated_rectangles(&self) -> (allocs: Vec<Allocation>)
        requires
            self@.wf(),
        ensures
            allocs@ == self@.allocation_list(self@.nodes.len() as int),
    {
        self.collect_allocations()
    }

    /// Invoke a callback for each free rectangle in the atlas.
    pub fn for_each_free_rectangle<F: Fn(&Rectangle)>(&self, callback: F)
        requires
            forall|r: &Rectangle| #[trigger] callback.requires((r,)),
        ensures
            forall|k: int|
                0 <= k < self@.free_rect_list(self@.nodes.len() as int).len() ==> callback.ensures(
                    (&#[trigger] self@.free_rect_list(self@.nodes.len() as int)[k],),
                    (),
                ),
    {
        let rects = self.free_rectangles();
        let mut i: usize = 0;
        while i < rects.len()
            invariant
                0 <= i <= rects.len(),
                forall|r: &Rectangle| #[trigger] callback.requires((r,)),
                forall|k: int| 0 <= k < i ==> callback.ensures((&#[trigger] rects@[k],), ()),
            decreases rects.len() - i,
        {
            callback(&rects[i]);
            i += 1;
        }
    }

    /// Invoke a callback for each allocated rectangle in the atlas.
    pub fn for_each_allocated_rectangle<F: Fn(AllocId, &Rectangle)>(&self, callback: F)
        requires
            self@.wf(),
            forall|id: AllocId, r: &Rectangle| #[trigger] callback.requires((id, r)),
        ensures
            forall|k: int|
                0 <= k < self@.allocation_count() ==> callback.ensures(
                    (
                        (#[trigger] self@.allocation_list(self@.nodes.len() as int)[k]).id,
                        &self@.allocation_list(self@.nodes.len() as int)[k].rectangle,
                    ),
                    (),
                ),
    {
        let allocs = self.collect_allocations();
        let mut i: usize = 0;
        while i < allocs.len()
            invariant
                0 <= i <= allocs.len(),
                forall|id: AllocId, r: &Rectangle| #[trigger] callback.requires((id, r)),
                forall|k: int|
                    0 <= k < i ==> callback.ensures(
                        ((#[trigger] allocs@[k]).id, &allocs@[k].rectangle),
                        (),
                    ),
            decreases allocs.len() - i,
        {
            callback(allocs[i].id, &allocs[i].rectangle);
            i += 1;
        }
    }

    /// The allocations, in the order of their slots.
    fn collect_allocations(&self) -> (allocs: Vec<Allocation>)
        requires
            self@.wf(),
        ensures
            allocs@ == self@.allocation_list(self@.nodes.len() as int),
    {
        proof {
            lemma_basics(self@, -1);
        }
        let mut allocs: Vec<Allocation> = Vec::new();
        let mut i: usize = 0;
        while i < self.nodes.len()
            invariant
                0 <= i <= self.nodes.len(),
                self@.arena_ok(),
                allocs@ == self@.allocation_list(i as int),
            decreases self.nodes.len() - i,
        {
            if self.nodes[i].kind == NodeKind::Alloc {
                let id = self.alloc_id(AllocIndex(i as u32));
                allocs.push(Allocation { id, rectangle: self.nodes[i].rect });
            }
            i += 1;
        }
        allocs
    }

    /// Recompute the allocations in the atlas and returns a list of the changes.
    ///
    /// Previous ids and rectangles are not valid anymore after this operation as each
    /// id/rectangle pair is assigned to new values which are communicated in the returned
    /// change list. Rearranging the atlas can help reduce fragmentation.
    pub fn rearrange(&mut self) -> (r: ChangeList)
        requires
            old(self)@.wf(),
        ensures
            final(self)@.wf(),
            final(self)@.strict(),
            final(self)@.indexed(),
            final(self)@.size == old(self)@.size,
            final(self)@.options == old(self)@.options,
            old(self)@.rearranged(final(self)@, r.changes@, r.failures@),
            exists|order: Seq<Allocation>|
                old(self)@.rearranged_by(
                    order,
                    old(self)@.size,
                    final(self)@,
                    r.changes@,
                    r.failures@,
                ),
    {
        proof {
            lemma_basics(self@, -1);
        }
        let size = self.size;
        self.resize_and_rearrange(size)
    }

    /// Identical to `AtlasAllocator::rearrange`, also allowing to change the size of the atlas.
    ///
    /// The allocations are placed again in an empty atlas of the new size,
    /// from the largest area to the smallest.
    #[verifier::rlimit(30)]
    pub fn resize_and_rearrange(&mut self, new_size: Size) -> (r: ChangeList)
        requires
            old(self)@.wf(),
            new_size.width > 0,
            new_size.height > 0,
        ensures
            final(self)@.wf(),
            final(self)@.strict(),
            final(self)@.indexed(),
            final(self)@.size == new_size,
            final(self)@.options == old(self)@.options,
            old(self)@.rearranged(final(self)@, r.changes@, r.failures@),
            exists|order: Seq<Allocation>|
                old(self)@.rearranged_by(order, new_size, final(self)@, r.changes@, r.failures@),
    {
        let ghost s = self@;
        let ghost list = s.allocation_list(s.nodes.len() as int);
        let mut allocs = self.collect_allocations();
        proof {
            lemma_basics(s, -1);
            lemma_allocation_list(s, s.nodes.len() as int);
            assert forall|k: int| 0 <= k < list.len() implies (#[trigger] list[k]).rectangle.measurable() by {
                lemma_allocation_shape(s, list[k]);
            }
        }
        sort_by_area(&mut allocs);
        proof {
            allocs@.to_multiset_ensures();
            list.to_multiset_ensures();
            assert forall|a: Allocation| allocs@.contains(a) <==> list.contains(a) by {
                assert(allocs@.to_multiset().count(a) == list.to_multiset().count(a));
            }
            assert forall|a: Allocation| #[trigger] allocs@.contains(a) implies s.holds(a) by {
                assert(list.contains(a));
                let k = choose|k: int| 0 <= k < list.len() && list[k] == a;
                assert(s.holds(list[k]));
            }
        }
        let options = self.options();
        self.reset(new_size, &options);
        proof {
            assert forall|id: AllocId| !(#[trigger] self@.valid_id(id)) by {
                lemma_holds(self@, Allocation { id, rectangle: Rectangle::zero_spec() });
            }
        }

        let mut changes: Vec<Change> = Vec::new();
        let mut failures: Vec<Allocation> = Vec::new();
        let mut i: usize = allocs.len();
        let ghost fresh = self@;
        proof {
            assert(changes@ =~= Seq::<Change>::empty());
            assert(failures@ =~= Seq::<Allocation>::empty());
        }
        while i > 0
            invariant
                0 <= i <= allocs.len(),
                (self@, changes@, failures@) == fresh.after_replay(allocs@, i as int),
                s.wf(),
                allocs@.len() == list.len(),
                list == s.allocation_list(s.nodes.len() as int),
                allocs@.to_multiset() == list.to_multiset(),
                forall|a: Allocation| #[trigger] allocs@.contains(a) ==> s.holds(a),
                forall|k: int, l: int|
                    0 <= k < l < allocs@.len() ==> (#[trigger] allocs@[k]).rectangle.area_spec()
                        <= (#[trigger] allocs@[l]).rectangle.area_spec(),
                self@.wf(),
                self@.strict(),
                self@.indexed(),
                self@.size == new_size,
                self@.options == s.options,
                changes@.len() + failures@.len() == allocs@.len() - i,
                forall|k: int|
                    0 <= k < changes@.len() ==> {
                        &&& allocs@.contains((#[trigger] changes@[k]).old)
                        &&& self@.holds(changes@[k].new)
                        &&& changes@[k].new.rectangle.size_spec()
                            == changes@[k].old.rectangle.size_spec()
                        &&& forall|j: int|
                            0 <= j < i ==> changes@[k].old.rectangle.area_spec()
                                >= (#[trigger] allocs@[j]).rectangle.area_spec()
                    },
                forall|k: int|
                    0 <= k < failures@.len() ==> {
                        &&& allocs@.contains(#[trigger] failures@[k])
                        &&& forall|j: int|
                            0 <= j < i ==> failures@[k].rectangle.area_spec()
                                >= (#[trigger] allocs@[j]).rectangle.area_spec()
                    },
                forall|j: int|
                    i <= j < allocs@.len() ==> reported(
                        changes@,
                        failures@,
                        #[trigger] allocs@[j],
                    ),
                forall|id: AllocId|
                    #[trigger] self@.valid_id(id) ==> exists|k: int|
                        0 <= k < changes@.len() && (#[trigger] changes@[k]).new.id == id,
                forall|k: int, l: int|
                    0 <= k < l < changes@.len() ==> (#[trigger] changes@[k]).new.id
                        != (#[trigger] changes@[l]).new.id,
                forall|k: int, l: int|
                    0 <= k < l < changes@.len() ==> (
                    #[trigger] changes@[k]).old.rectangle.area_spec()
                        >= (#[trigger] changes@[l]).old.rectangle.area_spec(),
                forall|k: int, l: int|
                    0 <= k < l < failures@.len() ==> (#[trigger] failures@[k]).rectangle.area_spec()
                        >= (#[trigger] failures@[l]).rectangle.area_spec(),
            decreases i,
        {
            i -= 1;
            let old = allocs[i];
            proof {
                assert(allocs@.contains(old));
                lemma_allocation_shape(s, old);
            }
            let size = old.rectangle.size();
            let ghost before = self@;
            let ghost old_changes = changes@;
            let ghost old_failures = failures@;
            if let Some(new) = self.allocate(size) {
                changes.push(Change { old, new });
                proof {
                    let last = old_changes.len() as int;
                    assert(changes@[last] == (Change { old, new }));
                    lemma_holds(self@, new);
                    assert forall|k: int| 0 <= k < old_changes.len() implies changes@[k]
                        == #[trigger] old_changes[k] && self@.holds(old_changes[k].new)
                        && old_changes[k].new.id != new.id by {
                        lemma_holds(before, old_changes[k].new);
                        lemma_holds(self@, old_changes[k].new);
                    }
                    assert forall|k: int| 0 <= k < changes@.len() implies {
                        &&& allocs@.contains((#[trigger] changes@[k]).old)
                        &&& self@.holds(changes@[k].new)
                        &&& changes@[k].new.rectangle.size_spec()
                            == changes@[k].old.rectangle.size_spec()
                        &&& forall|j: int|
                            0 <= j < i ==> changes@[k].old.rectangle.area_spec()
                                >= (#[trigger] allocs@[j]).rectangle.area_spec()
                    } by {
                        if k < last {
                            assert(changes@[k] == old_changes[k]);
                        }
                    }
                    assert forall|j: int| i <= j < allocs@.len() implies reported(
                        changes@,
                        failures@,
                        #[trigger] allocs@[j],
                    ) by {
                        if j == i {
                            assert(changes@[last].old == allocs@[j]);
                        } else {
                            assert(reported(old_changes, old_failures, allocs@[j]));
                            if exists|k: int|
                                0 <= k < old_changes.len() && (#[trigger] old_changes[k]).old
                                    == allocs@[j] {
                                let k = choose|k: int|
                                    0 <= k < old_changes.len() && (#[trigger] old_changes[k]).old
                                        == allocs@[j];
                                assert(changes@[k].old == allocs@[j]);
                            }
                        }
                    }
                    assert forall|id: AllocId| #[trigger] self@.valid_id(id) implies exists|k: int|
                        0 <= k < changes@.len() && (#[trigger] changes@[k]).new.id == id by {
                        if id == new.id {
                            assert(changes@[last].new.id == id);
                        } else {
                            let probe = Allocation { id, rectangle: Rectangle::zero_spec() };
                            lemma_holds(self@, probe);
                            lemma_holds(before, probe);
                            assert(before.valid_id(id));
                            let k = choose|k: int|
                                0 <= k < old_changes.len() && (#[trigger] old_changes[k]).new.id
                                    == id;
                            assert(changes@[k].new.id == id);
                        }
                    }
                    assert forall|k: int, l: int| 0 <= k < l < changes@.len() implies (
                    #[trigger] changes@[k]).new.id != (#[trigger] changes@[l]).new.id by {
                        assert(changes@[k] == old_changes[k]);
                        if l < last {
                            assert(changes@[l] == old_changes[l]);
                        }
                    }
                    assert forall|k: int, l: int| 0 <= k < l < changes@.len() implies (
                    #[trigger] changes@[k]).old.rectangle.area_spec()
                        >= (#[trigger] changes@[l]).old.rectangle.area_spec() by {
                        assert(changes@[k] == old_changes[k]);
                        if l < last {
                            assert(changes@[l] == old_changes[l]);
                        } else {
                            assert(changes@[l].old == allocs@[i as int]);
                        }
                    }
                }
            } else {
                failures.push(old);
                proof {
                    let last = old_failures.len() as int;
                    assert(failures@[last] == old);
                    assert forall|k: int| 0 <= k < changes@.len() implies self@.holds(
                        (#[trigger] changes@[k]).new,
                    ) by {
                        lemma_holds(before, changes@[k].new);
                        lemma_holds(self@, changes@[k].new);
                    }
                    assert forall|k: int| 0 <= k < failures@.len() implies {
                        &&& allocs@.contains(#[trigger] failures@[k])
                        &&& forall|j: int|
                            0 <= j < i ==> failures@[k].rectangle.area_spec()
                                >= (#[trigger] allocs@[j]).rectangle.area_spec()
                    } by {
                        if k < last {
                            assert(failures@[k] == old_failures[k]);
                        }
                    }
                    assert forall|j: int| i <= j < allocs@.len() implies reported(
                        changes@,
                        failures@,
                        #[trigger] allocs@[j],
                    ) by {
                        if j == i {
                            assert(failures@[last] == allocs@[j]);
                        } else {
                            assert(reported(old_changes, old_failures, allocs@[j]));
                            if exists|k: int|
                                0 <= k < old_failures.len() && #[trigger] old_failures[k]
                                    == allocs@[j] {
                                let k = choose|k: int|
                                    0 <= k < old_failures.len() && #[trigger] old_failures[k]
                                        == allocs@[j];
                                assert(failures@[k] == allocs@[j]);
                            }
                        }
                    }
                    assert forall|id: AllocId| #[trigger] self@.valid_id(id) implies exists|k: int|
                        0 <= k < changes@.len() && (#[trigger] changes@[k]).new.id == id by {
                        let probe = Allocation { id, rectangle: Rectangle::zero_spec() };
                        lemma_holds(self@, probe);
                        lemma_holds(before, probe);
                        assert(before.valid_id(id));
                    }
                    assert forall|k: int, l: int| 0 <= k < l < failures@.len() implies (
                    #[trigger] failures@[k]).rectangle.area_spec()
                        >= (#[trigger] failures@[l]).rectangle.area_spec() by {
                        assert(failures@[k] == old_failures[k]);
                        if l < last {
                            assert(failures@[l] == old_failures[l]);
                        } else {
                            assert(failures@[l] == allocs@[i as int]);
                        }
                    }
                }
            }
        }
        proof {
            let t = self@;
            assert forall|k: int| 0 <= k < changes@.len() implies s.holds(
                (#[trigger] changes@[k]).old,
            ) by {
                assert(allocs@.contains(changes@[k].old));
            }
            assert forall|k: int| 0 <= k < failures@.len() implies s.holds(
                #[trigger] failures@[k],
            ) by {
                assert(allocs@.contains(failures@[k]));
            }
            assert(s.rearranged_by(allocs@, new_size, t, changes@, failures@));
            allocs@.to_multiset_ensures();
            list.to_multiset_ensures();
            assert forall|id: AllocId| #[trigger] s.valid_id(id) implies (exists|k: int|
                0 <= k < changes@.len() && (#[trigger] changes@[k]).old.id == id) || (exists|k: int|
                0 <= k < failures@.len() && (#[trigger] failures@[k]).id == id) by {
                let e = Allocation { id, rectangle: s.nodes[id.slot()].rect };
                assert(list.contains(e));
                assert(allocs@.to_multiset().count(e) == list.to_multiset().count(e));
                assert(allocs@.contains(e));
                let j = choose|j: int| 0 <= j < allocs@.len() && allocs@[j] == e;
                assert(reported(changes@, failures@, allocs@[j]));
            }
        }
        let result = ChangeList { changes, failures };
        proof {
            assert(s.rearranged_by(allocs@, new_size, self@, result.changes@, result.failures@));
        }
        result
    }
}

} // verus!
