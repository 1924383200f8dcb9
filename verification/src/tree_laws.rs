//! What holds of every tree that construction builds.

use vstd::prelude::*;
use vstd::arithmetic::power2::{lemma2_to64, lemma2_to64_rest, lemma_pow2_unfold, pow2};
use vstd::seq_lib::{
    lemma_multiset_commutative, to_multiset_build, to_multiset_contains, to_multiset_insert,
    to_multiset_len, to_multiset_remove,
};
use crate::model::{
    child_entry, descends, has_tag, holds_subtree, is_arranged, kd_arrange, kd_nodes, kd_ordered,
    left_child, node_ok, node_points, num_nodes, num_vertices, point_id, right_child,
    split_levels, subtree_has, tagged_vertices, tags, tags_match, tree_wf, vertex,
};
use crate::sort::{key_of, lemma_stable_sort, stable_sort};
use crate::vec2::Vec2;

verus! {

/// Fewer points never need more levels.
pub proof fn lemma_split_levels_monotone(m: nat, n: nat)
    requires
        m <= n,
    ensures
        split_levels(m) <= split_levels(n),
    decreases n,
{
    if m > 1 {
        lemma_split_levels_monotone(m / 2, n / 2);
    }
}

/// Fewer than `2 * 2^k` points need at most `k` levels.
pub proof fn lemma_split_levels_log(n: nat, k: nat)
    requires
        n < 2 * pow2(k),
    ensures
        split_levels(n) <= k,
    decreases k,
{
    if n > 1 {
        if k == 0 {
            lemma2_to64();
        } else {
            lemma_pow2_unfold(k);
            lemma_split_levels_log(n / 2, (k - 1) as nat);
        }
    }
}

/// A tree over as many points as a `usize` can count has fewer than 64
/// levels below its root.
pub proof fn lemma_split_levels_bound(n: nat)
    requires
        n <= usize::MAX,
    ensures
        split_levels(n) < 64,
{
    lemma2_to64();
    lemma2_to64_rest();
    lemma_split_levels_log(n, 63);
}

/// A single point, or none, is arranged as it stands.
pub proof fn lemma_kd_arrange_short(pts: Seq<(Vec2, usize)>, depth: int)
    requires
        pts.len() <= 1,
    ensures
        kd_arrange(pts, depth) == pts,
{
    reveal(kd_arrange);
}

/// Two points or more are arranged around the median of their sorted order.
pub proof fn lemma_kd_arrange_split(pts: Seq<(Vec2, usize)>, depth: int)
    requires
        pts.len() >= 2,
    ensures
        ({
            let sorted = stable_sort(pts, depth % 2);
            let mid = pts.len() as int / 2;
            kd_arrange(pts, depth) == kd_arrange(sorted.subrange(0, mid), depth + 1).push(
                sorted[mid],
            ) + kd_arrange(sorted.subrange(mid + 1, pts.len() as int), depth + 1)
        }),
{
    reveal(kd_arrange);
    lemma_stable_sort(pts, depth % 2);
}

/// Construction only reorders the points: it keeps their number and keeps
/// each point as often as it occurred.
pub proof fn lemma_kd_arrange_permutes(pts: Seq<(Vec2, usize)>, depth: int)
    ensures
        kd_arrange(pts, depth).len() == pts.len(),
        kd_arrange(pts, depth).to_multiset() == pts.to_multiset(),
    decreases pts.len(),
{
    reveal(kd_arrange);
    if pts.len() > 1 {
        let sorted = stable_sort(pts, depth % 2);
        let mid = pts.len() as int / 2;
        lemma_stable_sort(pts, depth % 2);
        let lower = sorted.subrange(0, mid);
        let upper = sorted.subrange(mid + 1, sorted.len() as int);
        let low = kd_arrange(lower, depth + 1);
        let up = kd_arrange(upper, depth + 1);
        lemma_kd_arrange_permutes(lower, depth + 1);
        lemma_kd_arrange_permutes(upper, depth + 1);
        lemma_multiset_commutative(low.push(sorted[mid]), up);
        to_multiset_build(low, sorted[mid]);
        lemma_multiset_commutative(lower.push(sorted[mid]), upper);
        to_multiset_build(lower, sorted[mid]);
        assert(sorted =~= lower.push(sorted[mid]) + upper);
    }
}

/// Construction leaves the points in the order of a subtree.
pub proof fn lemma_kd_arrange_is_arranged(pts: Seq<(Vec2, usize)>, depth: int)
    ensures
        is_arranged(kd_arrange(pts, depth), depth),
    decreases pts.len(),
{
    let arranged = kd_arrange(pts, depth);
    lemma_kd_arrange_permutes(pts, depth);
    if pts.len() > 1 {
        let sorted = stable_sort(pts, depth % 2);
        let mid = pts.len() as int / 2;
        lemma_stable_sort(pts, depth % 2);
        lemma_kd_arrange_split(pts, depth);
        let lower = sorted.subrange(0, mid);
        let upper = sorted.subrange(mid + 1, sorted.len() as int);
        let low = kd_arrange(lower, depth + 1);
        let up = kd_arrange(upper, depth + 1);
        lemma_kd_arrange_permutes(lower, depth + 1);
        lemma_kd_arrange_permutes(upper, depth + 1);
        lemma_kd_arrange_is_arranged(lower, depth + 1);
        lemma_kd_arrange_is_arranged(upper, depth + 1);
        assert(arranged.subrange(0, mid) =~= low);
        assert(arranged.subrange(mid + 1, arranged.len() as int) =~= up);
        assert(arranged[mid] == sorted[mid]);
        assert forall|i: int| 0 <= i < mid implies key_of(#[trigger] arranged[i], depth) <= key_of(
            arranged[mid],
            depth,
        ) by {
            assert(arranged[i] == low[i]);
            to_multiset_contains(low, low[i]);
            to_multiset_contains(lower, low[i]);
            assert(low.contains(low[i]));
            let k = choose|k: int| 0 <= k < lower.len() && lower[k] == low[i];
            assert(key_of(sorted[k], depth % 2) <= key_of(sorted[mid], depth % 2));
        }
        assert forall|i: int| mid < i < arranged.len() implies key_of(
            #[trigger] arranged[i],
            depth,
        ) >= key_of(arranged[mid], depth) by {
            let x = up[i - mid - 1];
            assert(arranged[i] == x);
            to_multiset_contains(up, x);
            to_multiset_contains(upper, x);
            assert(up.contains(x));
            let k = choose|k: int| 0 <= k < upper.len() && upper[k] == x;
            assert(key_of(sorted[mid], depth % 2) <= key_of(sorted[mid + 1 + k], depth % 2));
        }
    }
}

/// A subtree holds three entries for each of its points.
pub proof fn lemma_kd_nodes_len(arranged: Seq<(Vec2, usize)>, first: int)
    ensures
        kd_nodes(arranged, first).len() == 3 * arranged.len(),
    decreases arranged.len(),
{
    reveal(kd_nodes);
    if arranged.len() > 0 {
        let mid = arranged.len() as int / 2;
        lemma_kd_nodes_len(arranged.subrange(0, mid), first + 1);
        lemma_kd_nodes_len(arranged.subrange(mid + 1, arranged.len() as int), first + 1 + mid);
    }
}

/// The records of a subtree, from the points under its left child, its own
/// point and the points under its right child.
pub proof fn lemma_kd_nodes_of_parts(
    low: Seq<(Vec2, usize)>,
    pivot: (Vec2, usize),
    up: Seq<(Vec2, usize)>,
    first: int,
)
    requires
        low.len() == (low.len() + 1 + up.len()) / 2,
    ensures
        kd_nodes(low.push(pivot) + up, first) == seq![
            pivot.1,
            child_entry(low.len() > 0, first + 1),
            child_entry(up.len() > 0, first + 1 + low.len()),
        ] + kd_nodes(low, first + 1) + kd_nodes(up, first + 1 + low.len()),
{
    reveal(kd_nodes);
    let all = low.push(pivot) + up;
    assert(all.subrange(0, low.len() as int) =~= low);
    assert(all.subrange(low.len() as int + 1, all.len() as int) =~= up);
}

/// How the records of a subtree lie in the node array: the root's record
/// holds the middle point and names as its children the nodes at which the
/// records of the two parts begin.
pub proof fn lemma_subtree_layout(nodes: Seq<usize>, idx: int, arranged: Seq<(Vec2, usize)>)
    requires
        arranged.len() > 0,
        holds_subtree(nodes, idx, arranged),
    ensures
        ({
            let mid = arranged.len() as int / 2;
            let before = arranged.subrange(0, mid);
            let after = arranged.subrange(mid + 1, arranged.len() as int);
            &&& idx < num_nodes(nodes) < usize::MAX
            &&& point_id(nodes, idx) == arranged[mid].1
            &&& left_child(nodes, idx) == child_entry(before.len() > 0, idx + 1)
            &&& right_child(nodes, idx) == child_entry(after.len() > 0, idx + 1 + mid)
            &&& before.len() > 0 ==> descends(nodes, idx, idx + 1)
            &&& after.len() > 0 ==> descends(nodes, idx, idx + 1 + mid)
            &&& holds_subtree(nodes, idx + 1, before)
            &&& holds_subtree(nodes, idx + 1 + mid, after)
        }),
{
    reveal(kd_nodes);
    let mid = arranged.len() as int / 2;
    let before = arranged.subrange(0, mid);
    let after = arranged.subrange(mid + 1, arranged.len() as int);
    let part = nodes.subrange(3 * idx, 3 * (idx + arranged.len()));
    lemma_kd_nodes_len(before, idx + 1);
    lemma_kd_nodes_len(after, idx + 1 + mid);
    assert(part[0] == nodes[3 * idx]);
    assert(part[1] == nodes[3 * idx + 1]);
    assert(part[2] == nodes[3 * idx + 2]);
    assert(nodes.subrange(3 * (idx + 1), 3 * (idx + 1 + before.len())) =~= part.subrange(
        3,
        3 + 3 * mid,
    ));
    assert(part.subrange(3, 3 + 3 * mid) =~= kd_nodes(before, idx + 1));
    assert(nodes.subrange(3 * (idx + 1 + mid), 3 * (idx + 1 + mid + after.len()))
        =~= part.subrange(3 + 3 * mid, 3 * arranged.len() as int));
    assert(part.subrange(3 + 3 * mid, 3 * arranged.len() as int) =~= kd_nodes(after, idx + 1 + mid));
}

/// The points of `arranged` fall into those before the middle one, the
/// middle one and those after it.
proof fn lemma_has_tag_parts(arranged: Seq<(Vec2, usize)>, v: usize)
    requires
        arranged.len() > 0,
    ensures
        ({
            let mid = arranged.len() as int / 2;
            has_tag(arranged, v) <==> (arranged[mid].1 == v || has_tag(
                arranged.subrange(0, mid),
                v,
            ) || has_tag(arranged.subrange(mid + 1, arranged.len() as int), v))
        }),
{
    let mid = arranged.len() as int / 2;
    let before = arranged.subrange(0, mid);
    let after = arranged.subrange(mid + 1, arranged.len() as int);
    if has_tag(arranged, v) {
        let i = choose|i: int| 0 <= i < arranged.len() && (#[trigger] arranged[i]).1 == v;
        if i < mid {
            assert(before[i].1 == v);
        } else if i > mid {
            assert(after[i - mid - 1].1 == v);
        }
    }
    if has_tag(before, v) {
        let i = choose|i: int| 0 <= i < before.len() && (#[trigger] before[i]).1 == v;
        assert(arranged[i].1 == v);
    }
    if has_tag(after, v) {
        let i = choose|i: int| 0 <= i < after.len() && (#[trigger] after[i]).1 == v;
        assert(arranged[mid + 1 + i].1 == v);
    }
}

/// The vertices stored in a subtree are those of the points that it was
/// built over.
pub proof fn lemma_subtree_members(nodes: Seq<usize>, idx: int, arranged: Seq<(Vec2, usize)>)
    requires
        arranged.len() > 0,
        holds_subtree(nodes, idx, arranged),
    ensures
        forall|v: usize| #[trigger] subtree_has(nodes, idx, v) <==> has_tag(arranged, v),
    decreases arranged.len(),
{
    let mid = arranged.len() as int / 2;
    let before = arranged.subrange(0, mid);
    let after = arranged.subrange(mid + 1, arranged.len() as int);
    lemma_subtree_layout(nodes, idx, arranged);
    if before.len() > 0 {
        lemma_subtree_members(nodes, idx + 1, before);
    }
    if after.len() > 0 {
        lemma_subtree_members(nodes, idx + 1 + mid, after);
    }
    assert forall|v: usize| #[trigger] subtree_has(nodes, idx, v) <==> has_tag(arranged, v) by {
        lemma_has_tag_parts(arranged, v);
        let l = left_child(nodes, idx) as int;
        let r = right_child(nodes, idx) as int;
        let in_left = descends(nodes, idx, l) && subtree_has(nodes, l, v);
        let in_right = descends(nodes, idx, r) && subtree_has(nodes, r, v);
        assert(in_left ==> has_tag(before, v));
        assert(has_tag(before, v) ==> in_left);
        assert(in_right ==> has_tag(after, v));
        assert(has_tag(after, v) ==> in_right);
    }
}

/// The nodes of a subtree over points that carry identifiers of vertices are
/// well formed.
pub proof fn lemma_subtree_wf(
    nodes: Seq<usize>,
    idx: int,
    arranged: Seq<(Vec2, usize)>,
    num_vtx: int,
)
    requires
        holds_subtree(nodes, idx, arranged),
        forall|i: int| 0 <= i < arranged.len() ==> (#[trigger] arranged[i]).1 < num_vtx,
    ensures
        forall|i: int| idx <= i < idx + arranged.len() ==> #[trigger] node_ok(nodes, i, num_vtx),
    decreases arranged.len(),
{
    if arranged.len() > 0 {
        let mid = arranged.len() as int / 2;
        let before = arranged.subrange(0, mid);
        let after = arranged.subrange(mid + 1, arranged.len() as int);
        lemma_subtree_layout(nodes, idx, arranged);
        assert(arranged[mid].1 < num_vtx);
        assert forall|i: int| 0 <= i < before.len() implies (#[trigger] before[i]).1
            < num_vtx by {
            assert(arranged[i].1 < num_vtx);
        }
        assert forall|i: int| 0 <= i < after.len() implies (#[trigger] after[i]).1 < num_vtx by {
            assert(arranged[mid + 1 + i].1 < num_vtx);
        }
        lemma_subtree_wf(nodes, idx + 1, before, num_vtx);
        lemma_subtree_wf(nodes, idx + 1 + mid, after, num_vtx);
        assert(node_ok(nodes, idx, num_vtx));
    }
}

/// A subtree over points in the order of a subtree is ordered at every node.
pub proof fn lemma_subtree_ordered(
    nodes: Seq<usize>,
    vtx2xy: Seq<i32>,
    idx: int,
    arranged: Seq<(Vec2, usize)>,
    depth: int,
)
    requires
        arranged.len() > 0,
        holds_subtree(nodes, idx, arranged),
        is_arranged(arranged, depth),
        tags_match(arranged, vtx2xy),
    ensures
        kd_ordered(nodes, vtx2xy, idx, depth),
    decreases arranged.len(),
{
    let mid = arranged.len() as int / 2;
    let before = arranged.subrange(0, mid);
    let after = arranged.subrange(mid + 1, arranged.len() as int);
    let pos = vertex(vtx2xy, point_id(nodes, idx) as int);
    lemma_subtree_layout(nodes, idx, arranged);
    assert(pos == arranged[mid].0);
    if before.len() > 0 {
        assert forall|i: int| 0 <= i < before.len() implies (#[trigger] before[i]).1
            < num_vertices(vtx2xy) && vertex(vtx2xy, before[i].1 as int) == before[i].0 by {
            assert(arranged[i].1 < num_vertices(vtx2xy));
        }
        lemma_subtree_ordered(nodes, vtx2xy, idx + 1, before, depth + 1);
        lemma_subtree_members(nodes, idx + 1, before);
        assert forall|v: usize| #[trigger] subtree_has(nodes, idx + 1, v) implies vertex(
            vtx2xy,
            v as int,
        ).coord(depth) <= pos.coord(depth) by {
            let i = choose|i: int| 0 <= i < before.len() && (#[trigger] before[i]).1 == v;
            assert(key_of(arranged[i], depth) <= key_of(arranged[mid], depth));
        }
    }
    if after.len() > 0 {
        assert forall|i: int| 0 <= i < after.len() implies (#[trigger] after[i]).1
            < num_vertices(vtx2xy) && vertex(vtx2xy, after[i].1 as int) == after[i].0 by {
            assert(arranged[mid + 1 + i].1 < num_vertices(vtx2xy));
        }
        lemma_subtree_ordered(nodes, vtx2xy, idx + 1 + mid, after, depth + 1);
        lemma_subtree_members(nodes, idx + 1 + mid, after);
        assert forall|v: usize| #[trigger] subtree_has(nodes, idx + 1 + mid, v) implies vertex(
            vtx2xy,
            v as int,
        ).coord(depth) >= pos.coord(depth) by {
            let i = choose|i: int| 0 <= i < after.len() && (#[trigger] after[i]).1 == v;
            assert(key_of(arranged[mid + 1 + i], depth) >= key_of(arranged[mid], depth));
        }
    }
}

/// Each point of a subtree stands at one node: the identifiers stored at the
/// nodes are those of the points, each as often as it is carried.
pub proof fn lemma_node_points(arranged: Seq<(Vec2, usize)>, first: int)
    ensures
        node_points(kd_nodes(arranged, first)).to_multiset() == tags(arranged).to_multiset(),
    decreases arranged.len(),
{
    reveal(kd_nodes);
    let all = kd_nodes(arranged, first);
    if arranged.len() == 0 {
        assert(node_points(all) =~= tags(arranged));
    } else {
        let mid = arranged.len() as int / 2;
        let before = arranged.subrange(0, mid);
        let after = arranged.subrange(mid + 1, arranged.len() as int);
        let under_left = kd_nodes(before, first + 1);
        let under_right = kd_nodes(after, first + 1 + mid);
        let own = arranged[mid].1;
        lemma_kd_nodes_len(before, first + 1);
        lemma_kd_nodes_len(after, first + 1 + mid);
        lemma_node_points(before, first + 1);
        lemma_node_points(after, first + 1 + mid);
        let left_points = node_points(under_left);
        let right_points = node_points(under_right);
        assert(node_points(all) =~= (left_points + right_points).insert(0, own));
        assert(tags(arranged) =~= (tags(before) + tags(after)).insert(mid, own));
        lemma_multiset_commutative(left_points, right_points);
        lemma_multiset_commutative(tags(before), tags(after));
        to_multiset_insert(left_points + right_points, 0, own);
        to_multiset_insert(tags(before) + tags(after), mid, own);
    }
}

/// Two sequences with the same elements still have the same elements after
/// one function was applied to each element.
pub proof fn lemma_map_keeps_elements<A, B>(s1: Seq<A>, s2: Seq<A>, f: spec_fn(A) -> B)
    requires
        s1.to_multiset() == s2.to_multiset(),
    ensures
        s1.map_values(f).to_multiset() == s2.map_values(f).to_multiset(),
    decreases s1.len(),
{
    to_multiset_len(s1);
    to_multiset_len(s2);
    if s1.len() == 0 {
        assert(s1.map_values(f) =~= s2.map_values(f));
    } else {
        let x = s1.last();
        let front = s1.drop_last();
        assert(s1 =~= front.push(x));
        to_multiset_build(front, x);
        to_multiset_contains(s2, x);
        assert(s1.to_multiset().count(x) > 0);
        let j = choose|j: int| 0 <= j < s2.len() && s2[j] == x;
        let others = s2.remove(j);
        to_multiset_remove(s2, j);
        assert(front.to_multiset() =~= s1.to_multiset().remove(x));
        lemma_map_keeps_elements(front, others, f);
        assert(s1.map_values(f) =~= front.map_values(f).push(f(x)));
        to_multiset_build(front.map_values(f), f(x));
        assert(s2.map_values(f) =~= others.map_values(f).insert(j, f(x)));
        to_multiset_insert(others.map_values(f), j, f(x));
    }
}

/// A point of `pts` carries `v` exactly if `v` is among the identifiers of
/// `pts`.
proof fn lemma_has_tag_is_contained(pts: Seq<(Vec2, usize)>, v: usize)
    ensures
        has_tag(pts, v) <==> tags(pts).contains(v),
{
    if has_tag(pts, v) {
        let i = choose|i: int| 0 <= i < pts.len() && (#[trigger] pts[i]).1 == v;
        assert(tags(pts)[i] == v);
    }
    if tags(pts).contains(v) {
        let i = choose|i: int| 0 <= i < tags(pts).len() && tags(pts)[i] == v;
        assert(pts[i].1 == v);
    }
}

/// Two sequences of points with the same elements carry the same
/// identifiers.
pub proof fn lemma_same_tags(a: Seq<(Vec2, usize)>, b: Seq<(Vec2, usize)>)
    requires
        a.to_multiset() == b.to_multiset(),
    ensures
        tags(a).to_multiset() == tags(b).to_multiset(),
        forall|v: usize| has_tag(a, v) <==> has_tag(b, v),
        forall|i: int| 0 <= i < a.len() ==> b.contains(#[trigger] a[i]),
{
    lemma_map_keeps_elements(a, b, |p: (Vec2, usize)| p.1);
    assert forall|v: usize| has_tag(a, v) <==> has_tag(b, v) by {
        to_multiset_contains(tags(a), v);
        to_multiset_contains(tags(b), v);
        lemma_has_tag_is_contained(a, v);
        lemma_has_tag_is_contained(b, v);
    }
    assert forall|i: int| 0 <= i < a.len() implies b.contains(#[trigger] a[i]) by {
        to_multiset_contains(a, a[i]);
        to_multiset_contains(b, a[i]);
        assert(a.contains(a[i]));
    }
}

/// The vertices of a coordinate array, tagged with their indices, carry the
/// identifiers and positions of its vertices, each identifier once.
pub proof fn lemma_tagged_vertices(vtx2xy: Seq<i32>)
    requires
        vtx2xy.len() <= usize::MAX,
    ensures
        tags_match(tagged_vertices(vtx2xy), vtx2xy),
        tags(tagged_vertices(vtx2xy)).no_duplicates(),
        forall|v: usize| has_tag(tagged_vertices(vtx2xy), v) <==> v < num_vertices(vtx2xy),
{
    let tagged = tagged_vertices(vtx2xy);
    assert forall|i: int| 0 <= i < tagged.len() implies (#[trigger] tagged[i]).1 < num_vertices(
        vtx2xy,
    ) && vertex(vtx2xy, tagged[i].1 as int) == tagged[i].0 by {
        assert(tagged[i].1 == i);
    }
    assert forall|i: int, j: int|
        0 <= i < tags(tagged).len() && 0 <= j < tags(tagged).len() && i != j implies tags(
        tagged,
    )[i] != tags(tagged)[j] by {
        assert(tagged[i].1 == i);
        assert(tagged[j].1 == j);
    }
    assert forall|v: usize| has_tag(tagged, v) <==> v < num_vertices(vtx2xy) by {
        if v < num_vertices(vtx2xy) {
            assert(tagged[v as int].1 == v);
        }
        if has_tag(tagged, v) {
            let i = choose|i: int| 0 <= i < tagged.len() && (#[trigger] tagged[i]).1 == v;
            assert(tagged[i].1 == i);
        }
    }
}

/// What holds of every tree that is built over points which carry the
/// identifiers and the positions of vertices: it has one node for each
/// point, the identifiers at its nodes are those of the points, it is well
/// formed, it is ordered at every node, and the vertices stored under its
/// root are those of the points.
pub proof fn lemma_built_tree(pts: Seq<(Vec2, usize)>, vtx2xy: Seq<i32>, depth: int)
    requires
        tags_match(pts, vtx2xy),
        3 * pts.len() <= usize::MAX,
    ensures
        ({
            let nodes = kd_nodes(kd_arrange(pts, depth), 0);
            &&& nodes.len() == 3 * pts.len()
            &&& node_points(nodes).to_multiset() == tags(pts).to_multiset()
            &&& tree_wf(nodes, num_vertices(vtx2xy))
            &&& kd_ordered(nodes, vtx2xy, 0, depth)
            &&& forall|v: usize| #[trigger] subtree_has(nodes, 0, v) <==> has_tag(pts, v)
        }),
{
    let arranged = kd_arrange(pts, depth);
    let nodes = kd_nodes(arranged, 0);
    lemma_kd_arrange_permutes(pts, depth);
    lemma_kd_nodes_len(arranged, 0);
    lemma_node_points(arranged, 0);
    lemma_same_tags(arranged, pts);
    assert(nodes.subrange(0, 3 * (0 + arranged.len() as int)) =~= nodes);
    assert(holds_subtree(nodes, 0, arranged));
    assert forall|i: int| 0 <= i < arranged.len() implies (#[trigger] arranged[i]).1
        < num_vertices(vtx2xy) && vertex(vtx2xy, arranged[i].1 as int) == arranged[i].0 by {
        assert(pts.contains(arranged[i]));
        let k = choose|k: int| 0 <= k < pts.len() && pts[k] == arranged[i];
        assert(pts[k].1 < num_vertices(vtx2xy));
    }
    lemma_subtree_wf(nodes, 0, arranged, num_vertices(vtx2xy));
    if pts.len() > 0 {
        lemma_kd_arrange_is_arranged(pts, depth);
        lemma_subtree_ordered(nodes, vtx2xy, 0, arranged, depth);
        lemma_subtree_members(nodes, 0, arranged);
    }
}

} // verus!
