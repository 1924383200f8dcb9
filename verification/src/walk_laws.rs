//! What holds of the walks over a tree: the nearest-neighbour walk ends with
//! a nearest point, and the walk for a square collects the points in the
//! square.

use vstd::prelude::*;
use vstd::seq_lib::lemma_no_dup_in_concat;
use crate::aabb2::{contains, signed_dist};
use crate::model::{
    descends, has_tag, holds_subtree, is_pruned, kd_arrange, kd_nodes, kd_ordered, left_child,
    left_max, nearer_of, nearest_walk, nodes_below, num_nodes, point_id, right_child, right_min,
    square_walk, subtree_has, subtree_in_box, tags, tags_match, vertex,
};
use crate::tree_laws::{
    lemma_built_tree, lemma_kd_arrange_permutes, lemma_kd_arrange_short, lemma_kd_nodes_len,
    lemma_kd_nodes_of_parts, lemma_same_tags, lemma_subtree_layout, lemma_subtree_members,
};
use crate::vec2::{dist2, in_square, Vec2};

verus! {

/// The best point so far is a point, and is no farther from `q` than `p`.
pub open spec fn no_farther(best: Option<(Vec2, usize)>, p: Vec2, q: Vec2) -> bool {
    match best {
        None => false,
        Some((b, _)) => dist2(b, q) <= dist2(p, q),
    }
}

/// A point inside a box is at least as far from `q` as the box is.
pub proof fn lemma_box_is_nearer(q: Vec2, min0: Vec2, max0: Vec2, p: Vec2)
    requires
        contains(min0, max0, p),
        signed_dist(q, min0, max0) > 0,
    ensures
        dist2(p, q) >= signed_dist(q, min0, max0) * signed_dist(q, min0, max0),
{
    let sd = signed_dist(q, min0, max0);
    let dx = p.x - q.x;
    let dy = p.y - q.y;
    assert(dx * dx >= 0 && dy * dy >= 0) by (nonlinear_arith);
    if sd == q.x - max0.x || sd == min0.x - q.x {
        assert(dx * dx >= sd * sd) by (nonlinear_arith)
            requires
                sd > 0,
                dx >= sd || -dx >= sd,
        ;
    } else {
        assert(dy * dy >= sd * sd) by (nonlinear_arith)
            requires
                sd > 0,
                dy >= sd || -dy >= sd,
        ;
    }
}

/// In an ordered subtree the points under the children lie in the clipped
/// boxes that the walks hand down.
pub proof fn lemma_child_boxes(
    nodes: Seq<usize>,
    vtx2xy: Seq<i32>,
    idx: int,
    min0: Vec2,
    max0: Vec2,
    depth: int,
)
    requires
        0 <= idx < num_nodes(nodes),
        kd_ordered(nodes, vtx2xy, idx, depth),
        subtree_in_box(nodes, vtx2xy, idx, min0, max0),
    ensures
        ({
            let pos = vertex(vtx2xy, point_id(nodes, idx) as int);
            let l = left_child(nodes, idx) as int;
            let r = right_child(nodes, idx) as int;
            &&& contains(min0, max0, pos)
            &&& descends(nodes, idx, l) ==> {
                &&& kd_ordered(nodes, vtx2xy, l, depth + 1)
                &&& subtree_in_box(nodes, vtx2xy, l, min0, left_max(pos, max0, depth))
            }
            &&& descends(nodes, idx, r) ==> {
                &&& kd_ordered(nodes, vtx2xy, r, depth + 1)
                &&& subtree_in_box(nodes, vtx2xy, r, right_min(pos, min0, depth), max0)
            }
        }),
{
    let pos = vertex(vtx2xy, point_id(nodes, idx) as int);
    let l = left_child(nodes, idx) as int;
    let r = right_child(nodes, idx) as int;
    assert(subtree_has(nodes, idx, point_id(nodes, idx)));
    if descends(nodes, idx, l) {
        assert forall|v: usize| #[trigger] subtree_has(nodes, l, v) implies contains(
            min0,
            left_max(pos, max0, depth),
            vertex(vtx2xy, v as int),
        ) by {
            assert(subtree_has(nodes, idx, v));
        }
    }
    if descends(nodes, idx, r) {
        assert forall|v: usize| #[trigger] subtree_has(nodes, r, v) implies contains(
            right_min(pos, min0, depth),
            max0,
            vertex(vtx2xy, v as int),
        ) by {
            assert(subtree_has(nodes, idx, v));
        }
    }
}

/// The walk never loses ground: it ends with the best point that it began
/// with, or with a point of the subtree that is strictly nearer to `q`.
pub proof fn lemma_nearest_walk_improves(
    nodes: Seq<usize>,
    vtx2xy: Seq<i32>,
    q: Vec2,
    idx: int,
    min0: Vec2,
    max0: Vec2,
    depth: int,
    best: Option<(Vec2, usize)>,
)
    ensures
        ({
            let found = nearest_walk(nodes, vtx2xy, q, idx, min0, max0, depth, best);
            &&& found == best || (found matches Some((p, v)) && {
                &&& subtree_has(nodes, idx, v)
                &&& p == vertex(vtx2xy, v as int)
                &&& best matches Some((b, _)) ==> dist2(p, q) < dist2(b, q)
            })
            &&& best is None && 0 <= idx < num_nodes(nodes) ==> found is Some
        }),
    decreases nodes_below(nodes, idx),
{
    if 0 <= idx < num_nodes(nodes) && !is_pruned(best, q, min0, max0) {
        let v = point_id(nodes, idx);
        let pos = vertex(vtx2xy, v as int);
        let here = nearer_of(best, pos, v, q);
        let l = left_child(nodes, idx) as int;
        let r = right_child(nodes, idx) as int;
        let lmax = left_max(pos, max0, depth);
        let rmin = right_min(pos, min0, depth);
        if q.coord(depth) < pos.coord(depth) {
            let first = if descends(nodes, idx, l) {
                nearest_walk(nodes, vtx2xy, q, l, min0, lmax, depth + 1, here)
            } else {
                here
            };
            if descends(nodes, idx, l) {
                lemma_nearest_walk_improves(nodes, vtx2xy, q, l, min0, lmax, depth + 1, here);
            }
            if descends(nodes, idx, r) {
                lemma_nearest_walk_improves(nodes, vtx2xy, q, r, rmin, max0, depth + 1, first);
            }
        } else {
            let first = if descends(nodes, idx, r) {
                nearest_walk(nodes, vtx2xy, q, r, rmin, max0, depth + 1, here)
            } else {
                here
            };
            if descends(nodes, idx, r) {
                lemma_nearest_walk_improves(nodes, vtx2xy, q, r, rmin, max0, depth + 1, here);
            }
            if descends(nodes, idx, l) {
                lemma_nearest_walk_improves(nodes, vtx2xy, q, l, min0, lmax, depth + 1, first);
            }
        }
    }
}

/// A point that the best point so far is no farther than stays so over a
/// walk.
pub proof fn lemma_nearest_walk_keeps(
    nodes: Seq<usize>,
    vtx2xy: Seq<i32>,
    q: Vec2,
    idx: int,
    min0: Vec2,
    max0: Vec2,
    depth: int,
    best: Option<(Vec2, usize)>,
    p: Vec2,
)
    requires
        no_farther(best, p, q),
    ensures
        no_farther(nearest_walk(nodes, vtx2xy, q, idx, min0, max0, depth, best), p, q),
{
    lemma_nearest_walk_improves(nodes, vtx2xy, q, idx, min0, max0, depth, best);
}

/// Where the subtree is ordered and its points lie in the box that the walk
/// is given, the walk ends with a point that is no farther from `q` than any
/// point of the subtree.
pub proof fn lemma_nearest_walk_closest(
    nodes: Seq<usize>,
    vtx2xy: Seq<i32>,
    q: Vec2,
    idx: int,
    min0: Vec2,
    max0: Vec2,
    depth: int,
    best: Option<(Vec2, usize)>,
)
    requires
        kd_ordered(nodes, vtx2xy, idx, depth),
        subtree_in_box(nodes, vtx2xy, idx, min0, max0),
    ensures
        forall|v: usize| #[trigger]
            subtree_has(nodes, idx, v) ==> no_farther(
                nearest_walk(nodes, vtx2xy, q, idx, min0, max0, depth, best),
                vertex(vtx2xy, v as int),
                q,
            ),
    decreases nodes_below(nodes, idx),
{
    let found = nearest_walk(nodes, vtx2xy, q, idx, min0, max0, depth, best);
    if !(0 <= idx < num_nodes(nodes)) {
    } else if is_pruned(best, q, min0, max0) {
        assert forall|v: usize| #[trigger] subtree_has(nodes, idx, v) implies no_farther(
            found,
            vertex(vtx2xy, v as int),
            q,
        ) by {
            lemma_box_is_nearer(q, min0, max0, vertex(vtx2xy, v as int));
        }
    } else {
        let v0 = point_id(nodes, idx);
        let pos = vertex(vtx2xy, v0 as int);
        let here = nearer_of(best, pos, v0, q);
        let l = left_child(nodes, idx) as int;
        let r = right_child(nodes, idx) as int;
        let lmax = left_max(pos, max0, depth);
        let rmin = right_min(pos, min0, depth);
        lemma_child_boxes(nodes, vtx2xy, idx, min0, max0, depth);
        assert(no_farther(here, pos, q));
        if q.coord(depth) < pos.coord(depth) {
            let first = if descends(nodes, idx, l) {
                nearest_walk(nodes, vtx2xy, q, l, min0, lmax, depth + 1, here)
            } else {
                here
            };
            if descends(nodes, idx, l) {
                lemma_nearest_walk_closest(nodes, vtx2xy, q, l, min0, lmax, depth + 1, here);
            }
            if descends(nodes, idx, r) {
                lemma_nearest_walk_closest(nodes, vtx2xy, q, r, rmin, max0, depth + 1, first);
            }
            assert forall|v: usize| #[trigger] subtree_has(nodes, idx, v) implies no_farther(
                found,
                vertex(vtx2xy, v as int),
                q,
            ) by {
                let p = vertex(vtx2xy, v as int);
                if descends(nodes, idx, r) && subtree_has(nodes, r, v) {
                } else {
                    if descends(nodes, idx, l) && subtree_has(nodes, l, v) {
                    } else {
                        assert(v == v0);
                        if descends(nodes, idx, l) {
                            lemma_nearest_walk_keeps(
                                nodes,
                                vtx2xy,
                                q,
                                l,
                                min0,
                                lmax,
                                depth + 1,
                                here,
                                p,
                            );
                        }
                    }
                    assert(no_farther(first, p, q));
                    if descends(nodes, idx, r) {
                        lemma_nearest_walk_keeps(
                            nodes,
                            vtx2xy,
                            q,
                            r,
                            rmin,
                            max0,
                            depth + 1,
                            first,
                            p,
                        );
                    }
                }
            }
        } else {
            let first = if descends(nodes, idx, r) {
                nearest_walk(nodes, vtx2xy, q, r, rmin, max0, depth + 1, here)
            } else {
                here
            };
            if descends(nodes, idx, r) {
                lemma_nearest_walk_closest(nodes, vtx2xy, q, r, rmin, max0, depth + 1, here);
            }
            if descends(nodes, idx, l) {
                lemma_nearest_walk_closest(nodes, vtx2xy, q, l, min0, lmax, depth + 1, first);
            }
            assert forall|v: usize| #[trigger] subtree_has(nodes, idx, v) implies no_farther(
                found,
                vertex(vtx2xy, v as int),
                q,
            ) by {
                let p = vertex(vtx2xy, v as int);
                if descends(nodes, idx, l) && subtree_has(nodes, l, v) {
                } else {
                    if descends(nodes, idx, r) && subtree_has(nodes, r, v) {
                    } else {
                        assert(v == v0);
                        if descends(nodes, idx, r) {
                            lemma_nearest_walk_keeps(
                                nodes,
                                vtx2xy,
                                q,
                                r,
                                rmin,
                                max0,
                                depth + 1,
                                here,
                                p,
                            );
                        }
                    }
                    assert(no_farther(first, p, q));
                    if descends(nodes, idx, l) {
                        lemma_nearest_walk_keeps(
                            nodes,
                            vtx2xy,
                            q,
                            l,
                            min0,
                            lmax,
                            depth + 1,
                            first,
                            p,
                        );
                    }
                }
            }
        }
    }
}

/// Two runs of the nearest-neighbour walk on the same arguments end with the
/// same point.
pub proof fn lemma_nearest_repeats(
    nodes: Seq<usize>,
    vtx2xy: Seq<i32>,
    q: Vec2,
    idx: int,
    min0: Vec2,
    max0: Vec2,
    depth: int,
    best: Option<(Vec2, usize)>,
    first_run: Option<(Vec2, usize)>,
    second_run: Option<(Vec2, usize)>,
)
    requires
        first_run == nearest_walk(nodes, vtx2xy, q, idx, min0, max0, depth, best),
        second_run == nearest_walk(nodes, vtx2xy, q, idx, min0, max0, depth, best),
    ensures
        first_run == second_run,
{
}

/// What a sequence put together from three parts contains.
proof fn lemma_concat3_contains(a: Seq<usize>, b: Seq<usize>, c: Seq<usize>, v: usize)
    ensures
        (a + b + c).contains(v) <==> a.contains(v) || b.contains(v) || c.contains(v),
{
    let all = a + b + c;
    if a.contains(v) {
        let i = choose|i: int| 0 <= i < a.len() && a[i] == v;
        assert(all[i] == v);
    }
    if b.contains(v) {
        let i = choose|i: int| 0 <= i < b.len() && b[i] == v;
        assert(all[a.len() + i] == v);
    }
    if c.contains(v) {
        let i = choose|i: int| 0 <= i < c.len() && c[i] == v;
        assert(all[a.len() + b.len() + i] == v);
    }
    if all.contains(v) {
        let i = choose|i: int| 0 <= i < all.len() && all[i] == v;
        if i < a.len() {
            assert(a[i] == v);
        } else if i < a.len() + b.len() {
            assert(b[i - a.len()] == v);
        } else {
            assert(c[i - a.len() - b.len()] == v);
        }
    }
}

/// The walk for a square collects only points of the subtree that lie in the
/// square, whatever the tree and the box.
pub proof fn lemma_square_walk_sound(
    nodes: Seq<usize>,
    vtx2xy: Seq<i32>,
    q: Vec2,
    rad: int,
    idx: int,
    min0: Vec2,
    max0: Vec2,
    depth: int,
)
    ensures
        forall|v: usize|
            #![trigger subtree_has(nodes, idx, v)]
            #![trigger square_walk(nodes, vtx2xy, q, rad, idx, min0, max0, depth).contains(v)]
            square_walk(nodes, vtx2xy, q, rad, idx, min0, max0, depth).contains(v) ==> subtree_has(
                nodes,
                idx,
                v,
            ) && in_square(vertex(vtx2xy, v as int), q, rad),
    decreases nodes_below(nodes, idx),
{
    let found = square_walk(nodes, vtx2xy, q, rad, idx, min0, max0, depth);
    if 0 <= idx < num_nodes(nodes) && rad >= signed_dist(q, min0, max0) {
        let v0 = point_id(nodes, idx);
        let pos = vertex(vtx2xy, v0 as int);
        let here = if in_square(pos, q, rad) {
            seq![v0]
        } else {
            Seq::empty()
        };
        let l = left_child(nodes, idx) as int;
        let r = right_child(nodes, idx) as int;
        let lmax = left_max(pos, max0, depth);
        let rmin = right_min(pos, min0, depth);
        let under_left = if descends(nodes, idx, l) {
            square_walk(nodes, vtx2xy, q, rad, l, min0, lmax, depth + 1)
        } else {
            Seq::empty()
        };
        let under_right = if descends(nodes, idx, r) {
            square_walk(nodes, vtx2xy, q, rad, r, rmin, max0, depth + 1)
        } else {
            Seq::empty()
        };
        if descends(nodes, idx, l) {
            lemma_square_walk_sound(nodes, vtx2xy, q, rad, l, min0, lmax, depth + 1);
        }
        if descends(nodes, idx, r) {
            lemma_square_walk_sound(nodes, vtx2xy, q, rad, r, rmin, max0, depth + 1);
        }
        assert forall|v: usize|
            #![trigger subtree_has(nodes, idx, v)]
            #![trigger found.contains(v)]
            found.contains(v) implies subtree_has(nodes, idx, v) && in_square(
            vertex(vtx2xy, v as int),
            q,
            rad,
        ) by {
            lemma_concat3_contains(here, under_left, under_right, v);
            lemma_concat3_contains(here, under_right, under_left, v);
            if under_left.contains(v) {
                assert(subtree_has(nodes, l, v));
            } else if under_right.contains(v) {
                assert(subtree_has(nodes, r, v));
            } else {
                assert(here.contains(v));
                assert(here[0] == v0);
            }
        }
    }
}

/// Where the subtree is ordered and its points lie in the box that the walk
/// is given, the walk collects exactly the points of the subtree that lie in
/// the open square.
pub proof fn lemma_square_walk_exact(
    nodes: Seq<usize>,
    vtx2xy: Seq<i32>,
    q: Vec2,
    rad: int,
    idx: int,
    min0: Vec2,
    max0: Vec2,
    depth: int,
)
    requires
        kd_ordered(nodes, vtx2xy, idx, depth),
        subtree_in_box(nodes, vtx2xy, idx, min0, max0),
    ensures
        forall|v: usize|
            #![trigger subtree_has(nodes, idx, v)]
            square_walk(nodes, vtx2xy, q, rad, idx, min0, max0, depth).contains(v) <==> (
            subtree_has(nodes, idx, v) && in_square(vertex(vtx2xy, v as int), q, rad)),
    decreases nodes_below(nodes, idx),
{
    let found = square_walk(nodes, vtx2xy, q, rad, idx, min0, max0, depth);
    if !(0 <= idx < num_nodes(nodes)) {
    } else if rad < signed_dist(q, min0, max0) {
    } else {
        let v0 = point_id(nodes, idx);
        let pos = vertex(vtx2xy, v0 as int);
        let here = if in_square(pos, q, rad) {
            seq![v0]
        } else {
            Seq::empty()
        };
        let l = left_child(nodes, idx) as int;
        let r = right_child(nodes, idx) as int;
        let lmax = left_max(pos, max0, depth);
        let rmin = right_min(pos, min0, depth);
        let under_left = if descends(nodes, idx, l) {
            square_walk(nodes, vtx2xy, q, rad, l, min0, lmax, depth + 1)
        } else {
            Seq::empty()
        };
        let under_right = if descends(nodes, idx, r) {
            square_walk(nodes, vtx2xy, q, rad, r, rmin, max0, depth + 1)
        } else {
            Seq::empty()
        };
        lemma_child_boxes(nodes, vtx2xy, idx, min0, max0, depth);
        if descends(nodes, idx, l) {
            lemma_square_walk_exact(nodes, vtx2xy, q, rad, l, min0, lmax, depth + 1);
        }
        if descends(nodes, idx, r) {
            lemma_square_walk_exact(nodes, vtx2xy, q, rad, r, rmin, max0, depth + 1);
        }
        assert forall|v: usize|
            #![trigger subtree_has(nodes, idx, v)]
            found.contains(v) <==> (subtree_has(nodes, idx, v) && in_square(
                vertex(vtx2xy, v as int),
                q,
                rad,
            )) by {
            let inside = in_square(vertex(vtx2xy, v as int), q, rad);
            let in_left = descends(nodes, idx, l) && subtree_has(nodes, l, v);
            let in_right = descends(nodes, idx, r) && subtree_has(nodes, r, v);
            lemma_concat3_contains(here, under_left, under_right, v);
            lemma_concat3_contains(here, under_right, under_left, v);
            assert(here.contains(v) <==> (v == v0 && inside)) by {
                if v == v0 && inside {
                    assert(here[0] == v);
                }
            }
            assert(under_left.contains(v) ==> in_left);
            assert(under_left.contains(v) ==> inside);
            assert(in_left && inside ==> under_left.contains(v));
            assert(under_right.contains(v) ==> in_right);
            assert(under_right.contains(v) ==> inside);
            assert(in_right && inside ==> under_right.contains(v));
        }
    }
}

/// Where no two points of a subtree carry the same identifier, the walk for
/// a square collects no identifier twice.
pub proof fn lemma_square_walk_distinct(
    nodes: Seq<usize>,
    vtx2xy: Seq<i32>,
    q: Vec2,
    rad: int,
    idx: int,
    min0: Vec2,
    max0: Vec2,
    depth: int,
    arranged: Seq<(Vec2, usize)>,
)
    requires
        arranged.len() > 0,
        holds_subtree(nodes, idx, arranged),
        tags(arranged).no_duplicates(),
    ensures
        square_walk(nodes, vtx2xy, q, rad, idx, min0, max0, depth).no_duplicates(),
    decreases arranged.len(),
{
    lemma_subtree_layout(nodes, idx, arranged);
    if rad >= signed_dist(q, min0, max0) {
        let mid = arranged.len() as int / 2;
        let before = arranged.subrange(0, mid);
        let after = arranged.subrange(mid + 1, arranged.len() as int);
        let v0 = point_id(nodes, idx);
        let pos = vertex(vtx2xy, v0 as int);
        let here = if in_square(pos, q, rad) {
            seq![v0]
        } else {
            Seq::empty()
        };
        let l = left_child(nodes, idx) as int;
        let r = right_child(nodes, idx) as int;
        let lmax = left_max(pos, max0, depth);
        let rmin = right_min(pos, min0, depth);
        let under_left = if descends(nodes, idx, l) {
            square_walk(nodes, vtx2xy, q, rad, l, min0, lmax, depth + 1)
        } else {
            Seq::empty()
        };
        let under_right = if descends(nodes, idx, r) {
            square_walk(nodes, vtx2xy, q, rad, r, rmin, max0, depth + 1)
        } else {
            Seq::empty()
        };
        assert forall|i: int| 0 <= i < arranged.len() implies tags(arranged)[i]
            == (#[trigger] arranged[i]).1 by {}
        if before.len() > 0 {
            assert(tags(before) =~= tags(arranged).subrange(0, mid));
            lemma_square_walk_distinct(nodes, vtx2xy, q, rad, l, min0, lmax, depth + 1, before);
            lemma_square_walk_sound(nodes, vtx2xy, q, rad, l, min0, lmax, depth + 1);
            lemma_subtree_members(nodes, l, before);
        }
        if after.len() > 0 {
            assert(tags(after) =~= tags(arranged).subrange(mid + 1, arranged.len() as int));
            lemma_square_walk_distinct(nodes, vtx2xy, q, rad, r, rmin, max0, depth + 1, after);
            lemma_square_walk_sound(nodes, vtx2xy, q, rad, r, rmin, max0, depth + 1);
            lemma_subtree_members(nodes, r, after);
        }
        // an identifier under the left child stands before the middle, one
        // under the right child after it
        assert forall|i: int| 0 <= i < under_left.len() implies has_tag(
            before,
            #[trigger] under_left[i],
        ) by {
            assert(under_left.contains(under_left[i]));
            assert(subtree_has(nodes, l, under_left[i]));
        }
        assert forall|i: int| 0 <= i < under_right.len() implies has_tag(
            after,
            #[trigger] under_right[i],
        ) by {
            assert(under_right.contains(under_right[i]));
            assert(subtree_has(nodes, r, under_right[i]));
        }
        assert forall|v: usize| has_tag(before, v) implies v != v0 && !has_tag(after, v) by {
            let i = choose|i: int| 0 <= i < before.len() && (#[trigger] before[i]).1 == v;
            assert(tags(arranged)[i] == v);
            assert(tags(arranged)[mid] == v0);
            if has_tag(after, v) {
                let j = choose|j: int| 0 <= j < after.len() && (#[trigger] after[j]).1 == v;
                assert(tags(arranged)[mid + 1 + j] == v);
            }
        }
        assert forall|v: usize| has_tag(after, v) implies v != v0 by {
            let j = choose|j: int| 0 <= j < after.len() && (#[trigger] after[j]).1 == v;
            assert(tags(arranged)[mid + 1 + j] == v);
            assert(tags(arranged)[mid] == v0);
        }
        lemma_no_dup_in_concat(here, under_left);
        lemma_no_dup_in_concat(here, under_right);
        assert forall|i: int, j: int|
            0 <= i < (here + under_left).len() && 0 <= j < under_right.len() implies (here
            + under_left)[i] != under_right[j] by {
            assert(has_tag(after, under_right[j]));
            if i >= here.len() {
                assert(has_tag(before, under_left[i - here.len()]));
            }
        }
        lemma_no_dup_in_concat(here + under_left, under_right);
        assert forall|i: int, j: int|
            0 <= i < (here + under_right).len() && 0 <= j < under_left.len() implies (here
            + under_right)[i] != under_left[j] by {
            assert(has_tag(before, under_left[j]));
            if i >= here.len() {
                assert(has_tag(after, under_right[i - here.len()]));
            }
        }
        lemma_no_dup_in_concat(here + under_right, under_left);
    }
}

/// Two runs of the walk for a square on the same arguments, appending to
/// equal lists, leave equal lists.
pub proof fn lemma_square_repeats(
    nodes: Seq<usize>,
    vtx2xy: Seq<i32>,
    q: Vec2,
    rad: int,
    idx: int,
    min0: Vec2,
    max0: Vec2,
    depth: int,
    before: Seq<usize>,
    first_run: Seq<usize>,
    second_run: Seq<usize>,
)
    requires
        first_run == before + square_walk(nodes, vtx2xy, q, rad, idx, min0, max0, depth),
        second_run == before + square_walk(nodes, vtx2xy, q, rad, idx, min0, max0, depth),
    ensures
        first_run == second_run,
{
}

/// Where a box holds every point of `pts`, it holds every vertex stored in
/// a tree whose vertices are those of `pts`.
proof fn lemma_points_in_box(
    pts: Seq<(Vec2, usize)>,
    vtx2xy: Seq<i32>,
    nodes: Seq<usize>,
    min0: Vec2,
    max0: Vec2,
)
    requires
        tags_match(pts, vtx2xy),
        forall|i: int| 0 <= i < pts.len() ==> contains(min0, max0, (#[trigger] pts[i]).0),
        forall|v: usize| #[trigger] subtree_has(nodes, 0, v) <==> has_tag(pts, v),
    ensures
        subtree_in_box(nodes, vtx2xy, 0, min0, max0),
{
    assert forall|v: usize| #[trigger] subtree_has(nodes, 0, v) implies contains(
        min0,
        max0,
        vertex(vtx2xy, v as int),
    ) by {
        let i = choose|i: int| 0 <= i < pts.len() && (#[trigger] pts[i]).1 == v;
        assert(contains(min0, max0, pts[i].0));
    }
}

/// The nearest-neighbour walk over a tree built over `pts`, begun without a
/// point and with a box that holds every point, ends with a point of `pts`
/// that is no farther from `q` than any point of `pts`.
pub proof fn lemma_nearest_in_built_tree(
    pts: Seq<(Vec2, usize)>,
    vtx2xy: Seq<i32>,
    q: Vec2,
    min0: Vec2,
    max0: Vec2,
)
    requires
        pts.len() > 0,
        tags_match(pts, vtx2xy),
        3 * pts.len() <= usize::MAX,
        forall|i: int| 0 <= i < pts.len() ==> contains(min0, max0, (#[trigger] pts[i]).0),
    ensures
        ({
            let nodes = kd_nodes(kd_arrange(pts, 0), 0);
            let found = nearest_walk(nodes, vtx2xy, q, 0, min0, max0, 0, None);
            found matches Some((p, v)) && {
                &&& has_tag(pts, v)
                &&& p == vertex(vtx2xy, v as int)
                &&& forall|i: int|
                    0 <= i < pts.len() ==> dist2(p, q) <= dist2((#[trigger] pts[i]).0, q)
            }
        }),
{
    let nodes = kd_nodes(kd_arrange(pts, 0), 0);
    let found = nearest_walk(nodes, vtx2xy, q, 0, min0, max0, 0, None);
    lemma_built_tree(pts, vtx2xy, 0);
    lemma_points_in_box(pts, vtx2xy, nodes, min0, max0);
    lemma_nearest_walk_improves(nodes, vtx2xy, q, 0, min0, max0, 0, None);
    lemma_nearest_walk_closest(nodes, vtx2xy, q, 0, min0, max0, 0, None);
    assert(has_tag(pts, pts[0].1));
    assert(subtree_has(nodes, 0, pts[0].1));
    assert(no_farther(found, vertex(vtx2xy, pts[0].1 as int), q));
    let nearest = found->0;
    assert forall|i: int| 0 <= i < pts.len() implies dist2(nearest.0, q) <= dist2(
        (#[trigger] pts[i]).0,
        q,
    ) by {
        assert(has_tag(pts, pts[i].1));
        assert(subtree_has(nodes, 0, pts[i].1));
        assert(no_farther(found, vertex(vtx2xy, pts[i].1 as int), q));
    }
}

/// The walk for a square over a tree built over `pts`, with a box that holds
/// every point, collects exactly the identifiers of the points of `pts` that
/// lie in the square, and none of them twice where no two points carry the
/// same identifier.
pub proof fn lemma_square_in_built_tree(
    pts: Seq<(Vec2, usize)>,
    vtx2xy: Seq<i32>,
    q: Vec2,
    rad: int,
    min0: Vec2,
    max0: Vec2,
)
    requires
        tags_match(pts, vtx2xy),
        3 * pts.len() <= usize::MAX,
        forall|i: int| 0 <= i < pts.len() ==> contains(min0, max0, (#[trigger] pts[i]).0),
    ensures
        ({
            let nodes = kd_nodes(kd_arrange(pts, 0), 0);
            let found = square_walk(nodes, vtx2xy, q, rad, 0, min0, max0, 0);
            &&& found.to_set() == Set::new(
                |v: usize| has_tag(pts, v) && in_square(vertex(vtx2xy, v as int), q, rad),
            )
            &&& tags(pts).no_duplicates() ==> found.no_duplicates()
        }),
{
    let arranged = kd_arrange(pts, 0);
    let nodes = kd_nodes(arranged, 0);
    let found = square_walk(nodes, vtx2xy, q, rad, 0, min0, max0, 0);
    lemma_built_tree(pts, vtx2xy, 0);
    lemma_points_in_box(pts, vtx2xy, nodes, min0, max0);
    lemma_square_walk_exact(nodes, vtx2xy, q, rad, 0, min0, max0, 0);
    assert forall|v: usize|
        found.to_set().contains(v) <==> (has_tag(pts, v) && in_square(
            vertex(vtx2xy, v as int),
            q,
            rad,
        )) by {
        assert(found.contains(v) ==> subtree_has(nodes, 0, v));
        assert(has_tag(pts, v) ==> subtree_has(nodes, 0, v));
    }
    assert(found.to_set() =~= Set::new(
        |v: usize| has_tag(pts, v) && in_square(vertex(vtx2xy, v as int), q, rad),
    ));
    if tags(pts).no_duplicates() && pts.len() > 0 {
        lemma_kd_arrange_permutes(pts, 0);
        lemma_same_tags(arranged, pts);
        tags(pts).lemma_multiset_has_no_duplicates();
        tags(arranged).lemma_multiset_has_no_duplicates_conv();
        assert(nodes.subrange(0, 3 * (0 + arranged.len() as int)) =~= nodes);
        lemma_square_walk_distinct(nodes, vtx2xy, q, rad, 0, min0, max0, 0, arranged);
    }
}

/// A tree over a single point is one leaf. The nearest-neighbour walk over
/// it, begun without a point, ends with that point wherever `q` and the box
/// lie. The walk for a square collects the point exactly if it lies in the
/// square and the box is not farther from `q` than `rad`; where the box
/// holds the point, exactly if it lies in the square.
pub proof fn lemma_single_point(
    p: (Vec2, usize),
    vtx2xy: Seq<i32>,
    q: Vec2,
    rad: int,
    min0: Vec2,
    max0: Vec2,
    depth: int,
)
    ensures
        kd_arrange(seq![p], depth) == seq![p],
        kd_nodes(seq![p], 0) == seq![p.1, usize::MAX, usize::MAX],
        ({
            let nodes = seq![p.1, usize::MAX, usize::MAX];
            let pos = vertex(vtx2xy, p.1 as int);
            &&& nearest_walk(nodes, vtx2xy, q, 0, min0, max0, depth, None) == Some((pos, p.1))
            &&& square_walk(nodes, vtx2xy, q, rad, 0, min0, max0, depth) == if rad >= signed_dist(
                q,
                min0,
                max0,
            ) && in_square(pos, q, rad) {
                seq![p.1]
            } else {
                Seq::empty()
            }
            &&& contains(min0, max0, pos) ==> (square_walk(
                nodes,
                vtx2xy,
                q,
                rad,
                0,
                min0,
                max0,
                depth,
            ) == seq![p.1] <==> in_square(pos, q, rad))
        }),
{
    let nodes = seq![p.1, usize::MAX, usize::MAX];
    let pos = vertex(vtx2xy, p.1 as int);
    lemma_kd_arrange_short(seq![p], depth);
    lemma_kd_nodes_of_parts(Seq::empty(), p, Seq::empty(), 0);
    lemma_kd_nodes_len(Seq::empty(), 1);
    assert(seq![p] =~= Seq::<(Vec2, usize)>::empty().push(p) + Seq::empty());
    assert(kd_nodes(seq![p], 0) =~= nodes);
    assert(num_nodes(nodes) == 1);
    assert(point_id(nodes, 0) == p.1);
    assert(!descends(nodes, 0, left_child(nodes, 0) as int));
    assert(!descends(nodes, 0, right_child(nodes, 0) as int));
    let found = square_walk(nodes, vtx2xy, q, rad, 0, min0, max0, depth);
    if rad >= signed_dist(q, min0, max0) && in_square(pos, q, rad) {
        assert(found =~= seq![p.1]);
    } else {
        assert(found =~= Seq::<usize>::empty());
        assert(seq![p.1].len() == 1);
    }
}

} // verus!
