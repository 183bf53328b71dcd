//! The scan of a bucket for a free leaf that accommodates a request.

use vstd::prelude::*;
use crate::geometry::{Rectangle, Size};
use crate::node::{AllocIndex, Node, NodeKind, NONE_INDEX};

verus! {

/// `req` is no larger than `r` on either axis.
pub open spec fn accommodates(r: Rectangle, req: Size) -> bool {
    r.width_spec() - req.width >= 0 && r.height_spec() - req.height >= 0
}

/// `r` accommodates `req` and matches it exactly on some axis.
pub open spec fn perfect_fit(r: Rectangle, req: Size) -> bool {
    accommodates(r, req) && (r.width_spec() - req.width == 0 || r.height_spec() - req.height == 0)
}

/// The smaller of the two margins that `req` leaves in `r`.
pub open spec fn fit_score(r: Rectangle, req: Size) -> int {
    let dx = r.width_spec() - req.width;
    let dy = r.height_spec() - req.height;
    if dx <= dy {
        dx
    } else {
        dy
    }
}

/// The score that any candidate improves on.
pub open spec fn initial_score(worst_fit: bool) -> int {
    if worst_fit {
        0
    } else {
        i32::MAX as int
    }
}

/// `score` is preferred to `best`: larger under worst fit, smaller under best
/// fit.
pub open spec fn improves(worst_fit: bool, score: int, best: int) -> bool {
    (worst_fit && score > best) || (!worst_fit && score < best)
}

/// The list after entry `i` is replaced by the last entry and the list is
/// shortened by one.
pub open spec fn swap_removed(list: Seq<AllocIndex>, i: int) -> Seq<AllocIndex> {
    list.update(i, list.last()).drop_last()
}

/// `id` names a free leaf that accommodates `req`.
pub open spec fn is_candidate(nodes: Seq<Node>, id: AllocIndex, req: Size) -> bool {
    &&& id.0 < nodes.len()
    &&& nodes[id.0 as int].kind == NodeKind::Free
    &&& accommodates(nodes[id.0 as int].rect, req)
}

/// The rectangle of every free leaf has non-negative coordinates, so that its
/// extents are representable.
pub open spec fn measurable_leaves(nodes: Seq<Node>) -> bool {
    forall|i: int|
        0 <= i < nodes.len() && (#[trigger] nodes[i]).kind == NodeKind::Free ==> 0
            <= nodes[i].rect.min.x <= nodes[i].rect.max.x && 0 <= nodes[i].rect.min.y
            <= nodes[i].rect.max.y
}

/// Some entry of `list` is a candidate for `req`.
pub open spec fn has_candidate(nodes: Seq<Node>, list: Seq<AllocIndex>, req: Size) -> bool {
    exists|k: int| 0 <= k < list.len() && is_candidate(nodes, #[trigger] list[k], req)
}

/// The scan of one bucket from position `pos` on, with the best candidate so
/// far at position `best` and of score `best_score`. It returns the bucket as
/// the scan leaves it and the position of the entry that it selects.
///
/// An entry whose node is not a free leaf is stale: it is swap-removed and the
/// entry that took its place is looked at next. A perfect fit is selected at
/// once. Otherwise the first entry of the preferred score is selected.
pub open spec fn scan_bucket(
    nodes: Seq<Node>,
    list: Seq<AllocIndex>,
    req: Size,
    worst_fit: bool,
    pos: int,
    best: Option<int>,
    best_score: int,
) -> (Seq<AllocIndex>, Option<int>)
    decreases list.len() - pos,
{
    if pos < 0 || pos >= list.len() {
        (list, best)
    } else {
        let node = nodes[list[pos].0 as int];
        if node.kind != NodeKind::Free {
            scan_bucket(nodes, swap_removed(list, pos), req, worst_fit, pos, best, best_score)
        } else if perfect_fit(node.rect, req) {
            (list, Some(pos))
        } else if accommodates(node.rect, req) && improves(
            worst_fit,
            fit_score(node.rect, req),
            best_score,
        ) {
            scan_bucket(
                nodes,
                list,
                req,
                worst_fit,
                pos + 1,
                Some(pos),
                fit_score(node.rect, req),
            )
        } else {
            scan_bucket(nodes, list, req, worst_fit, pos + 1, best, best_score)
        }
    }
}

/// The search through the buckets from `bucket` up: the buckets as the search
/// leaves them, and the node that it selects or the sentinel. The first bucket
/// in which the scan selects an entry gives the node, and loses that entry by
/// a swap-remove.
pub open spec fn find_from(
    nodes: Seq<Node>,
    lists: Seq<Seq<AllocIndex>>,
    req: Size,
    worst_fit: bool,
    bucket: int,
) -> (Seq<Seq<AllocIndex>>, AllocIndex)
    decreases 3 - bucket,
{
    if bucket < 0 || bucket >= 3 {
        (lists, AllocIndex(NONE_INDEX))
    } else {
        let (list, found) = scan_bucket(
            nodes,
            lists[bucket],
            req,
            worst_fit,
            0,
            None,
            initial_score(worst_fit),
        );
        match found {
            Some(pos) => (lists.update(bucket, swap_removed(list, pos)), list[pos]),
            None => find_from(nodes, lists.update(bucket, list), req, worst_fit, bucket + 1),
        }
    }
}

/// What a scan does to its bucket and what it selects: the bucket only loses
/// entries; a selected entry is a candidate; and where the scan starts without
/// a candidate and selects nothing, no entry from `pos` on was a candidate.
pub proof fn lemma_scan(
    nodes: Seq<Node>,
    list: Seq<AllocIndex>,
    req: Size,
    worst_fit: bool,
    pos: int,
    best: Option<int>,
    best_score: int,
)
    requires
        0 <= pos <= list.len(),
        forall|k: int| 0 <= k < list.len() ==> (#[trigger] list[k]).0 < nodes.len(),
        best matches Some(c) ==> 0 <= c < pos && is_candidate(nodes, list[c], req),
        best is None ==> best_score == initial_score(worst_fit),
        req.width > 0,
        req.height > 0,
        measurable_leaves(nodes),
    ensures
        ({
            let (out, found) = scan_bucket(nodes, list, req, worst_fit, pos, best, best_score);
            &&& pos <= out.len() <= list.len()
            &&& forall|k: int| 0 <= k < out.len() ==> list.contains(#[trigger] out[k])
            &&& forall|k: int| 0 <= k < pos ==> out[k] == list[k]
            &&& found matches Some(p) ==> 0 <= p < out.len() && is_candidate(nodes, out[p], req)
            &&& (best is None && found is None) ==> forall|j: int|
                pos <= j < list.len() ==> !is_candidate(nodes, #[trigger] list[j], req)
            &&& best is Some ==> found is Some
        }),
    decreases list.len() - pos,
{
    if pos < list.len() {
        let node = nodes[list[pos].0 as int];
        if node.kind != NodeKind::Free {
            let next = swap_removed(list, pos);
            assert forall|k: int| 0 <= k < next.len() implies list.contains(#[trigger] next[k]) by {
                if k == pos {
                    assert(list[list.len() - 1] == next[k]);
                } else {
                    assert(list[k] == next[k]);
                }
            }
            lemma_scan(nodes, next, req, worst_fit, pos, best, best_score);
            let (out, found) = scan_bucket(nodes, next, req, worst_fit, pos, best, best_score);
            assert forall|k: int| 0 <= k < out.len() implies list.contains(#[trigger] out[k]) by {
                assert(next.contains(out[k]));
                let j = choose|j: int| 0 <= j < next.len() && next[j] == out[k];
                assert(list.contains(next[j]));
            }
            if best is None && found is None {
                assert forall|j: int| pos <= j < list.len() implies !is_candidate(
                    nodes,
                    #[trigger] list[j],
                    req,
                ) by {
                    if j == pos {
                    } else if j == list.len() - 1 {
                        assert(next[pos] == list[j]);
                    } else {
                        assert(next[j] == list[j]);
                    }
                }
            }
        } else if perfect_fit(node.rect, req) {
            assert forall|k: int| 0 <= k < list.len() implies list.contains(#[trigger] list[k]) by {}
        } else if accommodates(node.rect, req) && improves(
            worst_fit,
            fit_score(node.rect, req),
            best_score,
        ) {
            lemma_scan(
                nodes,
                list,
                req,
                worst_fit,
                pos + 1,
                Some(pos),
                fit_score(node.rect, req),
            );
        } else {
            lemma_scan(nodes, list, req, worst_fit, pos + 1, best, best_score);
            if best is None {
                // Without a candidate so far every accommodating entry improves
                // on the initial score, so this entry does not accommodate.
            }
        }
    } else {
        assert forall|k: int| 0 <= k < list.len() implies list.contains(#[trigger] list[k]) by {}
    }
}

/// Some bucket from `from` up holds a candidate for `req`.
pub open spec fn any_candidate(
    nodes: Seq<Node>,
    lists: Seq<Seq<AllocIndex>>,
    req: Size,
    from: int,
) -> bool {
    exists|b: int| from <= b < 3 && #[trigger] has_candidate(nodes, lists[b], req)
}

/// Every entry of every bucket names a slot of the arena.
pub open spec fn entries_in_range(nodes: Seq<Node>, lists: Seq<Seq<AllocIndex>>) -> bool {
    &&& lists.len() == 3
    &&& forall|b: int, k: int|
        0 <= b < 3 && 0 <= k < lists[b].len() ==> (#[trigger] lists[b][k]).0 < nodes.len()
}

/// The search selects a node exactly when some bucket from `bucket` up holds a
/// candidate, and what it selects is a candidate. The buckets only lose
/// entries, and those below `bucket` are untouched.
pub proof fn lemma_find(
    nodes: Seq<Node>,
    lists: Seq<Seq<AllocIndex>>,
    req: Size,
    worst_fit: bool,
    bucket: int,
)
    requires
        0 <= bucket <= 3,
        entries_in_range(nodes, lists),
        nodes.len() <= 0x0100_0000,
        req.width > 0,
        req.height > 0,
        measurable_leaves(nodes),
    ensures
        ({
            let (out, id) = find_from(nodes, lists, req, worst_fit, bucket);
            &&& entries_in_range(nodes, out)
            &&& forall|b: int, k: int|
                0 <= b < 3 && 0 <= k < out[b].len() ==> lists[b].contains(#[trigger] out[b][k])
            &&& (id.0 != NONE_INDEX) == any_candidate(nodes, lists, req, bucket)
            &&& id.0 != NONE_INDEX ==> is_candidate(nodes, id, req)
        }),
    decreases 3 - bucket,
{
    if bucket < 3 {
        let (list, found) = scan_bucket(
            nodes,
            lists[bucket],
            req,
            worst_fit,
            0,
            None,
            initial_score(worst_fit),
        );
        lemma_scan(nodes, lists[bucket], req, worst_fit, 0, None, initial_score(worst_fit));
        assert forall|k: int| 0 <= k < list.len() implies (#[trigger] list[k]).0 < nodes.len() by {
            assert(lists[bucket].contains(list[k]));
        }
        match found {
            Some(pos) => {
                let out = lists.update(bucket, swap_removed(list, pos));
                assert forall|b: int, k: int| 0 <= b < 3 && 0 <= k < out[b].len() implies lists[b].contains(
                    #[trigger] out[b][k],
                ) by {
                    if b == bucket {
                        if k == pos {
                            assert(out[b][k] == list[list.len() - 1]);
                        } else {
                            assert(out[b][k] == list[k]);
                        }
                    }
                }
                assert(lists[bucket].contains(list[pos]));
                assert(has_candidate(nodes, lists[bucket], req));
            },
            None => {
                let mid = lists.update(bucket, list);
                lemma_find(nodes, mid, req, worst_fit, bucket + 1);
                let (out, id) = find_from(nodes, mid, req, worst_fit, bucket + 1);
                assert forall|b: int, k: int| 0 <= b < 3 && 0 <= k < out[b].len() implies lists[b].contains(
                    #[trigger] out[b][k],
                ) by {
                    assert(mid[b].contains(out[b][k]));
                    if b == bucket {
                        let j = choose|j: int| 0 <= j < list.len() && list[j] == out[b][k];
                        assert(lists[b].contains(list[j]));
                    }
                }
                assert(!has_candidate(nodes, lists[bucket], req));
                if any_candidate(nodes, lists, req, bucket) {
                    let b = choose|b: int|
                        bucket <= b < 3 && #[trigger] has_candidate(nodes, lists[b], req);
                    assert(mid[b] == lists[b]);
                    assert(has_candidate(nodes, mid[b], req));
                }
                if any_candidate(nodes, mid, req, bucket + 1) {
                    let b = choose|b: int|
                        bucket + 1 <= b < 3 && #[trigger] has_candidate(nodes, mid[b], req);
                    assert(mid[b] == lists[b]);
                    assert(has_candidate(nodes, lists[b], req));
                }
            },
        }
    } else {
        assert forall|b: int, k: int| 0 <= b < 3 && 0 <= k < lists[b].len() implies lists[b].contains(
            #[trigger] lists[b][k],
        ) by {}
    }
}

/// The entry `e` is no better a choice for `req` than the entry `chosen`:
/// `chosen` is a perfect fit, or `e` is no candidate, or `e` is no perfect
/// fit and its score is not preferred to that of `chosen`.
pub open spec fn not_preferred(
    nodes: Seq<Node>,
    e: AllocIndex,
    chosen: AllocIndex,
    req: Size,
    worst_fit: bool,
) -> bool {
    is_candidate(nodes, e, req) ==> perfect_fit(nodes[chosen.0 as int].rect, req) || (!perfect_fit(
        nodes[e.0 as int].rect,
        req,
    ) && !improves(
        worst_fit,
        fit_score(nodes[e.0 as int].rect, req),
        fit_score(nodes[chosen.0 as int].rect, req),
    ))
}

/// The entry `e`, met before the entry `chosen`, is a worse choice for `req`:
/// it is no candidate, or it is no perfect fit and `chosen` is a perfect fit
/// or has the preferred score.
pub open spec fn passed_over(
    nodes: Seq<Node>,
    e: AllocIndex,
    chosen: AllocIndex,
    req: Size,
    worst_fit: bool,
) -> bool {
    is_candidate(nodes, e, req) ==> !perfect_fit(nodes[e.0 as int].rect, req) && (perfect_fit(
        nodes[chosen.0 as int].rect,
        req,
    ) || improves(
        worst_fit,
        fit_score(nodes[chosen.0 as int].rect, req),
        fit_score(nodes[e.0 as int].rect, req),
    ))
}

/// The selection policy within a bucket. In the bucket as the scan leaves
/// it, no entry is a better choice than the one selected, and every entry
/// before the one selected is a worse choice: among equals the first wins.
pub proof fn lemma_scan_policy(
    nodes: Seq<Node>,
    list: Seq<AllocIndex>,
    req: Size,
    worst_fit: bool,
    pos: int,
    best: Option<int>,
    best_score: int,
)
    requires
        0 <= pos <= list.len(),
        forall|k: int| 0 <= k < list.len() ==> (#[trigger] list[k]).0 < nodes.len(),
        req.width > 0,
        req.height > 0,
        measurable_leaves(nodes),
        best is None ==> best_score == initial_score(worst_fit) && forall|j: int|
            0 <= j < pos ==> !is_candidate(nodes, #[trigger] list[j], req),
        best matches Some(c) ==> {
            &&& 0 <= c < pos
            &&& is_candidate(nodes, list[c], req)
            &&& !perfect_fit(nodes[list[c].0 as int].rect, req)
            &&& best_score == fit_score(nodes[list[c].0 as int].rect, req)
            &&& forall|j: int| 0 <= j < pos ==> not_preferred(nodes, #[trigger] list[j], list[c], req, worst_fit)
            &&& forall|j: int| 0 <= j < c ==> passed_over(nodes, #[trigger] list[j], list[c], req, worst_fit)
        },
    ensures
        ({
            let (out, found) = scan_bucket(nodes, list, req, worst_fit, pos, best, best_score);
            found matches Some(p) ==> {
                &&& 0 <= p < out.len()
                &&& forall|j: int|
                    0 <= j < out.len() ==> not_preferred(
                        nodes,
                        #[trigger] out[j],
                        out[p],
                        req,
                        worst_fit,
                    )
                &&& forall|j: int|
                    0 <= j < p ==> passed_over(nodes, #[trigger] out[j], out[p], req, worst_fit)
            }
        }),
    decreases list.len() - pos,
{
    lemma_scan(nodes, list, req, worst_fit, pos, best, best_score);
    if pos < list.len() {
        let node = nodes[list[pos].0 as int];
        if node.kind != NodeKind::Free {
            let next = swap_removed(list, pos);
            assert forall|k: int| 0 <= k < next.len() implies (#[trigger] next[k]).0
                < nodes.len() by {
                if k == pos {
                    assert(next[k] == list[list.len() - 1]);
                } else {
                    assert(next[k] == list[k]);
                }
            }
            assert forall|j: int| 0 <= j < pos implies #[trigger] next[j] == list[j] by {}
            lemma_scan_policy(nodes, next, req, worst_fit, pos, best, best_score);
        } else if perfect_fit(node.rect, req) {
        } else if accommodates(node.rect, req) && improves(
            worst_fit,
            fit_score(node.rect, req),
            best_score,
        ) {
            lemma_scan_policy(
                nodes,
                list,
                req,
                worst_fit,
                pos + 1,
                Some(pos),
                fit_score(node.rect, req),
            );
        } else {
            lemma_scan_policy(nodes, list, req, worst_fit, pos + 1, best, best_score);
        }
    }
}

/// The selection policy of the search. The node selected comes from the
/// first bucket, from `bucket` up, that holds a candidate. Of the entries
/// that this bucket keeps, none is a better choice than the node selected.
pub proof fn lemma_find_policy(
    nodes: Seq<Node>,
    lists: Seq<Seq<AllocIndex>>,
    req: Size,
    worst_fit: bool,
    bucket: int,
) -> (from: int)
    requires
        0 <= bucket <= 3,
        entries_in_range(nodes, lists),
        nodes.len() <= 0x0100_0000,
        req.width > 0,
        req.height > 0,
        measurable_leaves(nodes),
        find_from(nodes, lists, req, worst_fit, bucket).1.0 != NONE_INDEX,
    ensures
        bucket <= from < 3,
        has_candidate(nodes, lists[from], req),
        forall|b: int| bucket <= b < from ==> !has_candidate(nodes, #[trigger] lists[b], req),
        forall|k: int|
            0 <= k < find_from(nodes, lists, req, worst_fit, bucket).0[from].len()
                ==> not_preferred(
                nodes,
                #[trigger] find_from(nodes, lists, req, worst_fit, bucket).0[from][k],
                find_from(nodes, lists, req, worst_fit, bucket).1,
                req,
                worst_fit,
            ),
    decreases 3 - bucket,
{
    let (list, found) = scan_bucket(
        nodes,
        lists[bucket],
        req,
        worst_fit,
        0,
        None,
        initial_score(worst_fit),
    );
    lemma_scan(nodes, lists[bucket], req, worst_fit, 0, None, initial_score(worst_fit));
    lemma_scan_policy(nodes, lists[bucket], req, worst_fit, 0, None, initial_score(worst_fit));
    match found {
        Some(pos) => {
            let out = swap_removed(list, pos);
            assert(lists[bucket].contains(list[pos]));
            assert forall|k: int| 0 <= k < out.len() implies not_preferred(
                nodes,
                #[trigger] out[k],
                list[pos],
                req,
                worst_fit,
            ) by {
                if k == pos {
                    assert(out[k] == list[list.len() - 1]);
                } else {
                    assert(out[k] == list[k]);
                }
            }
            bucket
        },
        None => {
            let mid = lists.update(bucket, list);
            assert forall|k: int| 0 <= k < list.len() implies (#[trigger] list[k]).0 < nodes.len() by {
                assert(lists[bucket].contains(list[k]));
            }
            let from = lemma_find_policy(nodes, mid, req, worst_fit, bucket + 1);
            assert(mid[from] == lists[from]);
            assert forall|b: int| bucket <= b < from implies !has_candidate(
                nodes,
                #[trigger] lists[b],
                req,
            ) by {
                if b > bucket {
                    assert(mid[b] == lists[b]);
                }
            }
            from
        },
    }
}

} // verus!
