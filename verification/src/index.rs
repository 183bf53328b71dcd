//! The free leaves and the buckets: every free leaf keeps an entry in a
//! bucket that a search for its size, or a smaller one, goes through.

use vstd::prelude::*;
use crate::free_list::{
    entries_in_range, find_from, initial_score, lemma_scan, measurable_leaves, scan_bucket,
    swap_removed,
};
use crate::geometry::Size;
use crate::model::AtlasView;
use crate::node::{AllocIndex, Node, NodeKind};
use crate::options::AllocatorOptions;

verus! {

/// A size that is no smaller on either axis falls in no lower a bucket.
pub proof fn lemma_bucket_monotone(options: AllocatorOptions, a: Size, b: Size)
    requires
        options.valid(),
        a.width <= b.width,
        a.height <= b.height,
    ensures
        0 <= options.bucket(a) <= options.bucket(b) <= 2,
{
}

/// Slot `i`, if it holds a free leaf after the change from `s` to `t` and is
/// not among `y`, held a free leaf before, was not among `x`, and its size
/// has moved to no lower a bucket.
pub open spec fn carried(s: AtlasView, t: AtlasView, x: Set<int>, y: Set<int>, i: int) -> bool {
    (t.nodes[i].kind == NodeKind::Free && !y.contains(i)) ==> {
        &&& i < s.nodes.len()
        &&& s.nodes[i].kind == NodeKind::Free
        &&& !x.contains(i)
        &&& s.options.bucket(s.nodes[i].rect.size_spec()) <= t.options.bucket(
            t.nodes[i].rect.size_spec(),
        )
    }
}

/// A change of the tree that leaves the buckets alone keeps the free leaves
/// entered, but for those that it makes or shrinks.
pub proof fn lemma_index_nodes(s: AtlasView, t: AtlasView, x: Set<int>, y: Set<int>)
    requires
        s.indexed_except(x),
        t.free_lists == s.free_lists,
        t.options == s.options,
        forall|i: int| 0 <= i < t.nodes.len() ==> #[trigger] carried(s, t, x, y, i),
    ensures
        t.indexed_except(y),
{
    assert forall|i: int| 0 <= i < t.nodes.len() implies #[trigger] t.index_ok(i, y) by {
        assert(carried(s, t, x, y, i));
        if t.nodes[i].kind == NodeKind::Free && !y.contains(i) {
            assert(s.index_ok(i, x));
            let (b, k) = choose|b: int, k: int|
                0 <= b <= s.options.bucket(s.nodes[i].rect.size_spec()) && 0 <= k
                    < s.free_lists[b].len() && (#[trigger] s.free_lists[b][k]).0 == i;
            assert(t.free_lists[b][k].0 == i);
        }
    }
}

/// Leaving more free leaves out of account asks less.
pub proof fn lemma_index_weaken(s: AtlasView, x: Set<int>, y: Set<int>)
    requires
        s.indexed_except(x),
        forall|i: int| 0 <= i < s.nodes.len() && x.contains(i) ==> y.contains(i),
    ensures
        s.indexed_except(y),
{
    assert forall|i: int| 0 <= i < s.nodes.len() implies #[trigger] s.index_ok(i, y) by {
        assert(s.index_ok(i, x));
    }
}

/// Entering a leaf in a bucket no higher than that of its size makes up for
/// its having been without an entry.
pub proof fn lemma_index_listing(s: AtlasView, i: int, size: Size, x: Set<int>)
    requires
        s.indexed_except(x),
        0 <= i < s.nodes.len(),
        s.nodes.len() <= 0x0100_0000,
        s.free_lists.len() == 3,
        0 <= s.options.bucket(size) <= s.options.bucket(s.nodes[i].rect.size_spec()),
    ensures
        s.after_listing(i, size).indexed_except(x.remove(i)),
{
    let t = s.after_listing(i, size);
    let b0 = s.options.bucket(size);
    assert forall|j: int| 0 <= j < t.nodes.len() implies #[trigger] t.index_ok(j, x.remove(i)) by {
        if j == i {
            assert(t.free_lists[b0][s.free_lists[b0].len() as int].0 == i);
        } else if t.nodes[j].kind == NodeKind::Free && !x.contains(j) {
            assert(s.index_ok(j, x));
            let (b, k) = choose|b: int, k: int|
                0 <= b <= s.options.bucket(s.nodes[j].rect.size_spec()) && 0 <= k
                    < s.free_lists[b].len() && (#[trigger] s.free_lists[b][k]).0 == j;
            assert(t.free_lists[b][k] == s.free_lists[b][k]);
        }
    }
}

/// A scan keeps the entries of free leaves.
pub proof fn lemma_scan_keeps(
    nodes: Seq<Node>,
    list: Seq<AllocIndex>,
    req: Size,
    worst_fit: bool,
    pos: int,
    best: Option<int>,
    best_score: int,
)
    requires
        0 <= pos <= list.len(),
        forall|k: int| 0 <= k < list.len() ==> (#[trigger] list[k]).0 < nodes.len(),
    ensures
        forall|j: int|
            0 <= j < list.len() && nodes[(#[trigger] list[j]).0 as int].kind == NodeKind::Free
                ==> scan_bucket(nodes, list, req, worst_fit, pos, best, best_score).0.contains(
                list[j],
            ),
    decreases list.len() - pos,
{
    let out = scan_bucket(nodes, list, req, worst_fit, pos, best, best_score).0;
    if pos < list.len() {
        let node = nodes[list[pos].0 as int];
        if node.kind != NodeKind::Free {
            let next = swap_removed(list, pos);
            assert forall|k: int| 0 <= k < next.len() implies (#[trigger] next[k]).0
                < nodes.len() by {
                if k == pos {
                    assert(next[k] == list[list.len() - 1]);
                } else {
                    assert(next[k] == list[k]);
                }
            }
            lemma_scan_keeps(nodes, next, req, worst_fit, pos, best, best_score);
            assert forall|j: int|
                0 <= j < list.len() && nodes[(#[trigger] list[j]).0 as int].kind
                    == NodeKind::Free implies out.contains(list[j]) by {
                if j == list.len() - 1 {
                    assert(next[pos] == list[j]);
                } else {
                    assert(next[j] == list[j]);
                }
            }
        } else if crate::free_list::perfect_fit(node.rect, req) {
            assert forall|j: int| 0 <= j < list.len() implies out.contains(#[trigger] list[j]) by {
                assert(out[j] == list[j]);
            }
        } else if crate::free_list::accommodates(node.rect, req) && crate::free_list::improves(
            worst_fit,
            crate::free_list::fit_score(node.rect, req),
            best_score,
        ) {
            lemma_scan_keeps(
                nodes,
                list,
                req,
                worst_fit,
                pos + 1,
                Some(pos),
                crate::free_list::fit_score(node.rect, req),
            );
        } else {
            lemma_scan_keeps(nodes, list, req, worst_fit, pos + 1, best, best_score);
        }
    } else {
        assert forall|j: int| 0 <= j < list.len() implies out.contains(#[trigger] list[j]) by {
            assert(out[j] == list[j]);
        }
    }
}

/// A search keeps the entries of the free leaves other than the one that it
/// selects.
pub proof fn lemma_find_keeps(
    nodes: Seq<Node>,
    lists: Seq<Seq<AllocIndex>>,
    req: Size,
    worst_fit: bool,
    bucket: int,
)
    requires
        0 <= bucket <= 3,
        entries_in_range(nodes, lists),
        nodes.len() <= 0x0100_0000,
        req.width > 0,
        req.height > 0,
        measurable_leaves(nodes),
    ensures
        forall|b: int, k: int|
            0 <= b < 3 && 0 <= k < lists[b].len() && nodes[(
            #[trigger] lists[b][k]).0 as int].kind == NodeKind::Free && lists[b][k] != find_from(
                nodes,
                lists,
                req,
                worst_fit,
                bucket,
            ).1 ==> find_from(nodes, lists, req, worst_fit, bucket).0[b].contains(lists[b][k]),
    decreases 3 - bucket,
{
    let (out, id) = find_from(nodes, lists, req, worst_fit, bucket);
    if bucket < 3 {
        let (list, found) = scan_bucket(
            nodes,
            lists[bucket],
            req,
            worst_fit,
            0,
            None,
            initial_score(worst_fit),
        );
        lemma_scan(nodes, lists[bucket], req, worst_fit, 0, None, initial_score(worst_fit));
        lemma_scan_keeps(nodes, lists[bucket], req, worst_fit, 0, None, initial_score(worst_fit));
        match found {
            Some(pos) => {
                let last = swap_removed(list, pos);
                assert forall|b: int, k: int|
                    0 <= b < 3 && 0 <= k < lists[b].len() && nodes[(
                    #[trigger] lists[b][k]).0 as int].kind == NodeKind::Free && lists[b][k]
                        != id implies out[b].contains(lists[b][k]) by {
                    if b == bucket {
                        assert(list.contains(lists[b][k]));
                        let j = choose|j: int| 0 <= j < list.len() && list[j] == lists[b][k];
                        if j == list.len() - 1 {
                            assert(last[pos] == list[j]);
                        } else {
                            assert(last[j] == list[j]);
                        }
                    } else {
                        assert(out[b][k] == lists[b][k]);
                    }
                }
            },
            None => {
                let mid = lists.update(bucket, list);
                assert forall|k: int| 0 <= k < list.len() implies (#[trigger] list[k]).0
                    < nodes.len() by {
                    assert(lists[bucket].contains(list[k]));
                }
                lemma_find_keeps(nodes, mid, req, worst_fit, bucket + 1);
                assert forall|b: int, k: int|
                    0 <= b < 3 && 0 <= k < lists[b].len() && nodes[(
                    #[trigger] lists[b][k]).0 as int].kind == NodeKind::Free && lists[b][k]
                        != id implies out[b].contains(lists[b][k]) by {
                    if b == bucket {
                        assert(list.contains(lists[b][k]));
                        let j = choose|j: int| 0 <= j < list.len() && list[j] == lists[b][k];
                        assert(mid[b][j] == lists[b][k]);
                    } else {
                        assert(mid[b][k] == lists[b][k]);
                    }
                }
            },
        }
    } else {
        assert forall|b: int, k: int| 0 <= b < 3 && 0 <= k < lists[b].len() implies out[b].contains(
            #[trigger] lists[b][k],
        ) by {
            assert(out[b][k] == lists[b][k]);
        }
    }
}

/// After a search every free leaf but the one selected still has an entry in
/// a bucket no higher than that of its size.
pub proof fn lemma_index_search(s: AtlasView, req: Size, x: Set<int>)
    requires
        s.wf(),
        s.indexed_except(x),
        req.width > 0,
        req.height > 0,
    ensures
        (AtlasView { free_lists: s.search(req).0, ..s }).indexed_except(
            x.insert(s.search(req).1.0 as int),
        ),
{
    crate::laws::lemma_measurable(s);
    let b0 = s.options.bucket(req);
    lemma_find_keeps(s.nodes, s.free_lists, req, s.worst_fit(req), b0);
    let (out, id) = s.search(req);
    let t = AtlasView { free_lists: out, ..s };
    let y = x.insert(id.0 as int);
    assert forall|i: int| 0 <= i < t.nodes.len() implies #[trigger] t.index_ok(i, y) by {
        if t.nodes[i].kind == NodeKind::Free && !y.contains(i) {
            assert(s.index_ok(i, x));
            let (b, k) = choose|b: int, k: int|
                0 <= b <= s.options.bucket(s.nodes[i].rect.size_spec()) && 0 <= k
                    < s.free_lists[b].len() && (#[trigger] s.free_lists[b][k]).0 == i;
            assert(out[b].contains(s.free_lists[b][k]));
            let j = choose|j: int| 0 <= j < out[b].len() && out[b][j] == s.free_lists[b][k];
            assert(t.free_lists[b][j].0 == i);
        }
    }
}

} // verus!
