//! The mathematical model of the node array and of the walks over it.
//!
//! A tree over `n` points is a sequence of `3 * n` indices: node `i` owns the
//! three entries from `3 * i` on, which hold the identifier of its point, the
//! index of its left child and the index of its right child. A child index
//! that names no node of the array (`usize::MAX` in a built tree) stands for
//! an absent child. The points themselves live in a flat coordinate array,
//! two entries for each vertex.

use vstd::prelude::*;
use crate::aabb2::signed_dist;
use crate::sort::{key_of, lemma_stable_sort, stable_sort};
use crate::vec2::{dist2, in_square, Vec2};

verus! {

/// The number of nodes that the array `nodes` holds.
pub open spec fn num_nodes(nodes: Seq<usize>) -> int {
    nodes.len() as int / 3
}

/// The number of vertices that the coordinate array `vtx2xy` holds.
pub open spec fn num_vertices(vtx2xy: Seq<i32>) -> int {
    vtx2xy.len() as int / 2
}

/// The identifier of the point stored at node `i`.
pub open spec fn point_id(nodes: Seq<usize>, i: int) -> usize {
    nodes[3 * i]
}

pub open spec fn left_child(nodes: Seq<usize>, i: int) -> usize {
    nodes[3 * i + 1]
}

pub open spec fn right_child(nodes: Seq<usize>, i: int) -> usize {
    nodes[3 * i + 2]
}

/// The position of vertex `v`.
pub open spec fn vertex(vtx2xy: Seq<i32>, v: int) -> Vec2 {
    Vec2 { x: vtx2xy[2 * v], y: vtx2xy[2 * v + 1] }
}

/// Node `i` names an existing vertex, and its child entries point further
/// down the array.
pub open spec fn node_ok(nodes: Seq<usize>, i: int, num_vtx: int) -> bool {
    &&& point_id(nodes, i) < num_vtx
    &&& left_child(nodes, i) > i
    &&& right_child(nodes, i) > i
}

/// Every node of the array names an existing vertex and has its children
/// after itself, so that no walk can run in a cycle.
pub open spec fn tree_wf(nodes: Seq<usize>, num_vtx: int) -> bool {
    forall|i: int| 0 <= i < num_nodes(nodes) ==> #[trigger] node_ok(nodes, i, num_vtx)
}

/// `child` is the index of a node below node `i`.
pub open spec fn descends(nodes: Seq<usize>, i: int, child: int) -> bool {
    i < child < num_nodes(nodes)
}

/// A bound on the number of nodes on any path down from node `idx`.
pub open spec fn nodes_below(nodes: Seq<usize>, idx: int) -> int {
    if idx < num_nodes(nodes) {
        num_nodes(nodes) - idx
    } else {
        0
    }
}

/// The upper corner of the box of the left child: the parent's box clipped
/// at the parent's point along the split axis.
pub open spec fn left_max(pos: Vec2, max0: Vec2, depth: int) -> Vec2 {
    if depth % 2 == 0 {
        Vec2 { x: pos.x, y: max0.y }
    } else {
        Vec2 { x: max0.x, y: pos.y }
    }
}

/// The lower corner of the box of the right child.
pub open spec fn right_min(pos: Vec2, min0: Vec2, depth: int) -> Vec2 {
    if depth % 2 == 0 {
        Vec2 { x: pos.x, y: min0.y }
    } else {
        Vec2 { x: min0.x, y: pos.y }
    }
}

/// Whether the vertex `v` is stored at a node of the subtree rooted at `idx`.
pub open spec fn subtree_has(nodes: Seq<usize>, idx: int, v: usize) -> bool
    decreases num_nodes(nodes) - idx,
{
    &&& 0 <= idx < num_nodes(nodes)
    &&& {
        let l = left_child(nodes, idx) as int;
        let r = right_child(nodes, idx) as int;
        ||| point_id(nodes, idx) == v
        ||| descends(nodes, idx, l) && subtree_has(nodes, l, v)
        ||| descends(nodes, idx, r) && subtree_has(nodes, r, v)
    }
}

/// Every vertex of the subtree rooted at `idx` lies in the closed box with
/// corners `min0` and `max0`.
pub open spec fn subtree_in_box(
    nodes: Seq<usize>,
    vtx2xy: Seq<i32>,
    idx: int,
    min0: Vec2,
    max0: Vec2,
) -> bool {
    forall|v: usize| #[trigger]
        subtree_has(nodes, idx, v) ==> crate::aabb2::contains(min0, max0, vertex(vtx2xy, v as int))
}

/// The ordering that a median split leaves behind, at every node of the
/// subtree rooted at `idx`, which stands at `depth`: along the axis of the
/// node's depth no vertex under its left child lies beyond the node's point,
/// and no vertex under its right child lies before it.
pub open spec fn kd_ordered(nodes: Seq<usize>, vtx2xy: Seq<i32>, idx: int, depth: int) -> bool
    decreases num_nodes(nodes) - idx,
{
    0 <= idx < num_nodes(nodes) ==> {
        let pos = vertex(vtx2xy, point_id(nodes, idx) as int);
        let l = left_child(nodes, idx) as int;
        let r = right_child(nodes, idx) as int;
        &&& descends(nodes, idx, l) ==> {
            &&& kd_ordered(nodes, vtx2xy, l, depth + 1)
            &&& forall|v: usize| #[trigger]
                subtree_has(nodes, l, v) ==> vertex(vtx2xy, v as int).coord(depth) <= pos.coord(
                    depth,
                )
        }
        &&& descends(nodes, idx, r) ==> {
            &&& kd_ordered(nodes, vtx2xy, r, depth + 1)
            &&& forall|v: usize| #[trigger]
                subtree_has(nodes, r, v) ==> vertex(vtx2xy, v as int).coord(depth) >= pos.coord(
                    depth,
                )
        }
    }
}

/// Whether a subtree with box `min0`, `max0` is skipped: the best point so
/// far is strictly nearer to `q` than the box is.
pub open spec fn is_pruned(best: Option<(Vec2, usize)>, q: Vec2, min0: Vec2, max0: Vec2) -> bool {
    match best {
        None => false,
        Some((p, _)) => {
            let sd = signed_dist(q, min0, max0);
            sd > 0 && dist2(p, q) < sd * sd
        },
    }
}

/// The best point so far after the vertex `v` at `pos` was looked at: `v`
/// replaces it only where `v` is strictly nearer to `q`.
pub open spec fn nearer_of(best: Option<(Vec2, usize)>, pos: Vec2, v: usize, q: Vec2) -> Option<
    (Vec2, usize),
> {
    match best {
        None => Some((pos, v)),
        Some((p, _)) => if dist2(pos, q) < dist2(p, q) {
            Some((pos, v))
        } else {
            best
        },
    }
}

/// The best point after the nearest-neighbour walk over the subtree rooted at
/// `idx`, begun with `best`. The walk looks at a node's own point first, then
/// at the child on the side of `q`, then at the other child; of several
/// points at the same distance the one met first is kept.
pub open spec fn nearest_walk(
    nodes: Seq<usize>,
    vtx2xy: Seq<i32>,
    q: Vec2,
    idx: int,
    min0: Vec2,
    max0: Vec2,
    depth: int,
    best: Option<(Vec2, usize)>,
) -> Option<(Vec2, usize)>
    decreases num_nodes(nodes) - idx,
{
    if !(0 <= idx < num_nodes(nodes)) || is_pruned(best, q, min0, max0) {
        best
    } else {
        let v = point_id(nodes, idx);
        let pos = vertex(vtx2xy, v as int);
        let here = nearer_of(best, pos, v, q);
        let l = left_child(nodes, idx) as int;
        let r = right_child(nodes, idx) as int;
        let lmax = left_max(pos, max0, depth);
        let rmin = right_min(pos, min0, depth);
        if q.coord(depth) < pos.coord(depth) {
            let first = if descends(nodes, idx, l) {
                nearest_walk(nodes, vtx2xy, q, l, min0, lmax, depth + 1, here)
            } else {
                here
            };
            if descends(nodes, idx, r) {
                nearest_walk(nodes, vtx2xy, q, r, rmin, max0, depth + 1, first)
            } else {
                first
            }
        } else {
            let first = if descends(nodes, idx, r) {
                nearest_walk(nodes, vtx2xy, q, r, rmin, max0, depth + 1, here)
            } else {
                here
            };
            if descends(nodes, idx, l) {
                nearest_walk(nodes, vtx2xy, q, l, min0, lmax, depth + 1, first)
            } else {
                first
            }
        }
    }
}

/// The vertices that the walk for the open square of half-width `rad` around
/// `q` collects from the subtree rooted at `idx`, in the order of the walk:
/// the node's own point, then, on even depth, the right child before the
/// left, and on odd depth the left child before the right.
pub open spec fn square_walk(
    nodes: Seq<usize>,
    vtx2xy: Seq<i32>,
    q: Vec2,
    rad: int,
    idx: int,
    min0: Vec2,
    max0: Vec2,
    depth: int,
) -> Seq<usize>
    decreases num_nodes(nodes) - idx,
{
    if !(0 <= idx < num_nodes(nodes)) || rad < signed_dist(q, min0, max0) {
        Seq::empty()
    } else {
        let v = point_id(nodes, idx);
        let pos = vertex(vtx2xy, v as int);
        let here = if in_square(pos, q, rad) {
            seq![v]
        } else {
            Seq::empty()
        };
        let l = left_child(nodes, idx) as int;
        let r = right_child(nodes, idx) as int;
        let under_left = if descends(nodes, idx, l) {
            square_walk(nodes, vtx2xy, q, rad, l, min0, left_max(pos, max0, depth), depth + 1)
        } else {
            Seq::empty()
        };
        let under_right = if descends(nodes, idx, r) {
            square_walk(nodes, vtx2xy, q, rad, r, right_min(pos, min0, depth), max0, depth + 1)
        } else {
            Seq::empty()
        };
        if depth % 2 == 0 {
            here + under_right + under_left
        } else {
            here + under_left + under_right
        }
    }
}

/// The segment along which the node with point `pos` splits its box: four
/// numbers, the two end points.
pub open spec fn split_segment(pos: Vec2, min0: Vec2, max0: Vec2, depth: int) -> Seq<i32> {
    if depth % 2 == 0 {
        seq![pos.x, min0.y, pos.x, max0.y]
    } else {
        seq![min0.x, pos.y, max0.x, pos.y]
    }
}

/// The splitting segments of the subtree rooted at `idx`, four numbers each:
/// the node's own, then those under its left child, then those under its
/// right child.
pub open spec fn edges_walk(
    nodes: Seq<usize>,
    vtx2xy: Seq<i32>,
    idx: int,
    min0: Vec2,
    max0: Vec2,
    depth: int,
) -> Seq<i32>
    decreases num_nodes(nodes) - idx,
{
    if !(0 <= idx < num_nodes(nodes)) {
        Seq::empty()
    } else {
        let pos = vertex(vtx2xy, point_id(nodes, idx) as int);
        let l = left_child(nodes, idx) as int;
        let r = right_child(nodes, idx) as int;
        let under_left = if descends(nodes, idx, l) {
            edges_walk(nodes, vtx2xy, l, min0, left_max(pos, max0, depth), depth + 1)
        } else {
            Seq::empty()
        };
        let under_right = if descends(nodes, idx, r) {
            edges_walk(nodes, vtx2xy, r, right_min(pos, min0, depth), max0, depth + 1)
        } else {
            Seq::empty()
        };
        split_segment(pos, min0, max0, depth) + under_left + under_right
    }
}

/// The number of levels below the root of a tree that median splits build
/// over `n` points: each split leaves at most half of the points on a side.
pub open spec fn split_levels(n: nat) -> nat
    decreases n,
{
    if n <= 1 {
        0
    } else {
        1 + split_levels(n / 2)
    }
}

/// The order in which construction leaves the points of a subtree whose root
/// stands at `depth`: sorted along the axis of `depth`, the point in the
/// middle is the root's, those before it are arranged in the same way for
/// the left child and those after it for the right child.
#[verifier::opaque]
pub open spec fn kd_arrange(pts: Seq<(Vec2, usize)>, depth: int) -> Seq<(Vec2, usize)>
    decreases pts.len(),
{
    if pts.len() <= 1 {
        pts
    } else {
        let sorted = stable_sort(pts, depth % 2);
        let mid = pts.len() as int / 2;
        proof {
            lemma_stable_sort(pts, depth % 2);
        }
        kd_arrange(sorted.subrange(0, mid), depth + 1).push(sorted[mid]) + kd_arrange(
            sorted.subrange(mid + 1, sorted.len() as int),
            depth + 1,
        )
    }
}

/// The child entry of a node: the index of the child, or `usize::MAX` where
/// the child has no point.
pub open spec fn child_entry(present: bool, index: int) -> usize {
    if present {
        index as usize
    } else {
        usize::MAX
    }
}

/// The records of the subtree over the arranged points `arranged` whose root
/// is node `first`: the root's record, then the records under its left
/// child, then those under its right child. A left child is the node after
/// its parent, a right child the node after the last one under the left
/// child.
#[verifier::opaque]
pub open spec fn kd_nodes(arranged: Seq<(Vec2, usize)>, first: int) -> Seq<usize>
    decreases arranged.len(),
{
    if arranged.len() == 0 {
        Seq::empty()
    } else {
        let mid = arranged.len() as int / 2;
        let before = arranged.subrange(0, mid);
        let after = arranged.subrange(mid + 1, arranged.len() as int);
        seq![
            arranged[mid].1,
            child_entry(before.len() > 0, first + 1),
            child_entry(after.len() > 0, first + 1 + mid),
        ] + kd_nodes(before, first + 1) + kd_nodes(after, first + 1 + mid)
    }
}

/// Every tagged point carries the identifier of a vertex of `vtx2xy` and
/// that vertex's position.
pub open spec fn tags_match(pts: Seq<(Vec2, usize)>, vtx2xy: Seq<i32>) -> bool {
    forall|i: int|
        0 <= i < pts.len() ==> (#[trigger] pts[i]).1 < num_vertices(vtx2xy) && vertex(
            vtx2xy,
            pts[i].1 as int,
        ) == pts[i].0
}

/// Some point of `pts` carries the identifier `v`.
pub open spec fn has_tag(pts: Seq<(Vec2, usize)>, v: usize) -> bool {
    exists|i: int| 0 <= i < pts.len() && (#[trigger] pts[i]).1 == v
}

/// The identifiers that the points of `pts` carry, in their order.
pub open spec fn tags(pts: Seq<(Vec2, usize)>) -> Seq<usize> {
    pts.map_values(|p: (Vec2, usize)| p.1)
}

/// The vertices of `vtx2xy`, each tagged with its index.
pub open spec fn tagged_vertices(vtx2xy: Seq<i32>) -> Seq<(Vec2, usize)> {
    Seq::new(num_vertices(vtx2xy) as nat, |i: int| (vertex(vtx2xy, i), i as usize))
}

/// The identifiers of the points stored at the nodes of `nodes`, node by node.
pub open spec fn node_points(nodes: Seq<usize>) -> Seq<usize> {
    Seq::new(num_nodes(nodes) as nat, |i: int| point_id(nodes, i))
}

/// `arranged` is in the order of a subtree whose root stands at `depth`:
/// along the axis of `depth` no point before the middle one lies beyond it
/// and no point after the middle one lies before it, and both parts are in
/// the order of a subtree one level down.
pub open spec fn is_arranged(arranged: Seq<(Vec2, usize)>, depth: int) -> bool
    decreases arranged.len(),
{
    arranged.len() > 1 ==> {
        let mid = arranged.len() as int / 2;
        &&& forall|i: int|
            0 <= i < mid ==> key_of(#[trigger] arranged[i], depth) <= key_of(arranged[mid], depth)
        &&& forall|i: int|
            mid < i < arranged.len() ==> key_of(#[trigger] arranged[i], depth) >= key_of(
                arranged[mid],
                depth,
            )
        &&& is_arranged(arranged.subrange(0, mid), depth + 1)
        &&& is_arranged(arranged.subrange(mid + 1, arranged.len() as int), depth + 1)
    }
}

/// The records of the subtree over `arranged` stand in `nodes` from node
/// `idx` on.
pub open spec fn holds_subtree(nodes: Seq<usize>, idx: int, arranged: Seq<(Vec2, usize)>) -> bool {
    &&& 0 <= idx
    &&& 3 * (idx + arranged.len()) <= nodes.len() <= usize::MAX
    &&& nodes.subrange(3 * idx, 3 * (idx + arranged.len())) == kd_nodes(arranged, idx)
}

} // verus!
