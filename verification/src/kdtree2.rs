//! Building a two-dimensional k-d tree and searching it.

use vstd::prelude::*;
use crate::aabb2::signed_distance;
use crate::model::{
    child_entry, edges_walk, kd_arrange, kd_nodes, kd_ordered, nearest_walk, node_ok,
    node_points, nodes_below, num_nodes, num_vertices, split_levels, square_walk, subtree_has,
    subtree_in_box, tagged_vertices, tags, tree_wf, vertex,
};
use crate::sort::{lemma_stable_sort, lemma_stable_sort_short, sort_by_axis, stable_sort};
use crate::tree_laws::{
    lemma_built_tree, lemma_kd_arrange_permutes, lemma_kd_arrange_short, lemma_kd_arrange_split,
    lemma_kd_nodes_len, lemma_kd_nodes_of_parts, lemma_split_levels_bound,
    lemma_split_levels_monotone, lemma_tagged_vertices,
};
use crate::vec2::{dist2, in_square, Vec2};
use crate::walk_laws::{
    lemma_nearest_walk_closest, lemma_nearest_walk_improves, lemma_square_walk_exact,
    lemma_square_walk_sound, no_farther,
};

verus! {

/// Appends an unset record to `tree` and returns the index of the new node.
fn allocate_node(tree: &mut Vec<usize>) -> (idx: usize)
    requires
        old(tree).len() + 3 <= usize::MAX,
    ensures
        final(tree)@ == old(tree)@ + seq![usize::MAX, usize::MAX, usize::MAX],
        idx == old(tree).len() / 3,
{
    let idx: usize = tree.len() / 3;
    tree.push(usize::MAX);
    tree.push(usize::MAX);
    tree.push(usize::MAX);
    assert(tree@ =~= old(tree)@ + seq![usize::MAX, usize::MAX, usize::MAX]);
    idx
}

/// Gives the last node of `tree`, which is node `idx_node`, the point `point`
/// and no children.
fn write_leaf(tree: &mut Vec<usize>, idx_node: usize, point: usize)
    requires
        old(tree).len() == 3 * idx_node + 3,
    ensures
        final(tree)@ == old(tree)@.subrange(0, 3 * idx_node) + seq![point, usize::MAX, usize::MAX],
{
    tree[idx_node * 3] = point;
    tree[idx_node * 3 + 1] = usize::MAX;
    tree[idx_node * 3 + 2] = usize::MAX;
    assert(tree@ =~= old(tree)@.subrange(0, 3 * idx_node) + seq![point, usize::MAX, usize::MAX]);
}

/// Allocates a node, makes it the child of node `idx_node` in entry `field`
/// (1: left, 2: right) and builds the subtree over
/// `points[idx_point_begin..idx_point_end]` under it.
fn construct_child(
    tree: &mut Vec<usize>,
    idx_node: usize,
    field: usize,
    points: &mut Vec<(Vec2, usize)>,
    idx_point_begin: usize,
    idx_point_end: usize,
    i_depth: i32,
)
    requires
        1 <= field <= 2,
        old(tree).len() % 3 == 0,
        3 * idx_node + 3 <= old(tree).len(),
        idx_point_begin < idx_point_end <= old(points).len(),
        old(tree).len() + 3 * (idx_point_end - idx_point_begin) <= usize::MAX,
        0 <= i_depth,
        i_depth + split_levels((idx_point_end - idx_point_begin) as nat) <= i32::MAX,
    ensures
        final(points)@ == old(points)@.subrange(0, idx_point_begin as int) + kd_arrange(
            old(points)@.subrange(idx_point_begin as int, idx_point_end as int),
            i_depth as int,
        ) + old(points)@.subrange(idx_point_end as int, old(points)@.len() as int),
        final(tree)@ == old(tree)@.update(3 * idx_node + field, (old(tree).len() / 3) as usize)
            + kd_nodes(
            kd_arrange(
                old(points)@.subrange(idx_point_begin as int, idx_point_end as int),
                i_depth as int,
            ),
            old(tree).len() as int / 3,
        ),
    decreases idx_point_end - idx_point_begin, 1int,
{
    let idx_child: usize = allocate_node(tree);
    tree[idx_node * 3 + field] = idx_child;
    assert(tree@.subrange(0, 3 * idx_child) =~= old(tree)@.update(
        3 * idx_node + field,
        idx_child,
    ));
    construct_kdtree(tree, idx_child, points, idx_point_begin, idx_point_end, i_depth);
}

/// Builds the subtree over `points[idx_point_begin..idx_point_end]` into
/// `tree`, with node `idx_node` as its root at depth `i_depth`, and leaves
/// the points of that range in the order of the subtree.
///
/// With `idx_node == 0` the tree is built afresh, whatever `tree` held. With
/// another `idx_node` that node must be the last one of `tree`; the nodes
/// before it stay as they are. Without any points the tree is empty. The
/// tree must fit in a `usize` and the depth of its lowest node in an `i32`.
#[verifier::rlimit(30)]
pub fn construct_kdtree(
    tree: &mut Vec<usize>,
    idx_node: usize,
    points: &mut Vec<(Vec2, usize)>,
    idx_point_begin: usize,
    idx_point_end: usize,
    i_depth: i32,
)
    requires
        old(points).len() > 0 ==> {
            &&& idx_point_begin < idx_point_end <= old(points).len()
            &&& idx_node == 0 || old(tree).len() == 3 * idx_node + 3
            &&& 3 * (idx_node + (idx_point_end - idx_point_begin)) <= usize::MAX
            &&& 0 <= i_depth
            &&& i_depth + split_levels((idx_point_end - idx_point_begin) as nat) <= i32::MAX
        },
    ensures
        old(points).len() == 0 ==> final(tree)@ == Seq::<usize>::empty() && final(points)@ == old(
            points,
        )@,
        old(points).len() > 0 ==> {
            let arranged = kd_arrange(
                old(points)@.subrange(idx_point_begin as int, idx_point_end as int),
                i_depth as int,
            );
            &&& final(points)@ == old(points)@.subrange(0, idx_point_begin as int) + arranged + old(
                points,
            )@.subrange(idx_point_end as int, old(points)@.len() as int)
            &&& final(tree)@ == old(tree)@.subrange(0, 3 * idx_node) + kd_nodes(
                arranged,
                idx_node as int,
            )
        },
    decreases idx_point_end - idx_point_begin, 0int,
{
    if points.is_empty() {
        tree.clear();
        return ;
    }
    if idx_node == 0 {
        tree.clear();
        allocate_node(tree);
    }
    let ghost before = points@;
    let ghost whole = before.subrange(idx_point_begin as int, idx_point_end as int);
    let ghost kept = old(tree)@.subrange(0, 3 * idx_node);
    let count: usize = idx_point_end - idx_point_begin;
    assert(tree@.subrange(0, 3 * idx_node) =~= kept);

    if count == 1 {
        // leaf node
        write_leaf(tree, idx_node, points[idx_point_begin].1);
        proof {
            lemma_kd_arrange_short(whole, i_depth as int);
            lemma_kd_nodes_of_parts(Seq::empty(), whole[0], Seq::empty(), idx_node as int);
            lemma_kd_nodes_len(Seq::empty(), idx_node + 1);
            assert(whole =~= Seq::<(Vec2, usize)>::empty().push(whole[0]) + Seq::empty());
            assert(kd_nodes(whole, idx_node as int) =~= seq![whole[0].1, usize::MAX, usize::MAX]);
            assert(points@ =~= before.subrange(0, idx_point_begin as int) + whole
                + before.subrange(idx_point_end as int, before.len() as int));
        }
        return ;
    }
    let axis: usize = if i_depth % 2 == 0 {
        0
    } else {
        1
    };
    sort_by_axis(points, idx_point_begin, idx_point_end, axis);
    let half: usize = count / 2;
    let idx_point_mid: usize = half + idx_point_begin;  // median point
    let ghost sorted = stable_sort(whole, i_depth as int % 2);
    let ghost lower = sorted.subrange(0, half as int);
    let ghost upper = sorted.subrange(half + 1, count as int);
    let ghost low = kd_arrange(lower, i_depth + 1);
    let ghost up = kd_arrange(upper, i_depth + 1);
    let ghost pivot = sorted[half as int];
    proof {
        lemma_stable_sort(whole, i_depth as int % 2);
        lemma_kd_arrange_split(whole, i_depth as int);
        lemma_kd_arrange_permutes(lower, i_depth + 1);
        lemma_kd_arrange_permutes(upper, i_depth + 1);
        lemma_kd_nodes_len(low, idx_node + 1);
        lemma_kd_nodes_len(up, idx_node + 1 + half);
        lemma_split_levels_monotone(upper.len(), lower.len());
    }
    write_leaf(tree, idx_node, points[idx_point_mid].1);
    let ghost sorted_points = points@;
    let ghost root_only = tree@;

    if idx_point_begin != idx_point_mid {
        // there is at least one point before the median
        assert(points@.subrange(idx_point_begin as int, idx_point_mid as int) =~= lower);
        construct_child(tree, idx_node, 1, points, idx_point_begin, idx_point_mid, i_depth + 1);
    }
    let ghost left_built = tree@;
    let ghost left_points = points@;
    proof {
        lemma_left_spliced(
            before,
            sorted,
            low,
            sorted_points,
            left_points,
            idx_point_begin as int,
            idx_point_mid as int,
            idx_point_end as int,
        );
    }
    if idx_point_mid + 1 != idx_point_end {
        // there is at least one point after the median
        assert(points@.subrange(idx_point_mid + 1, idx_point_end as int) =~= upper);
        construct_child(tree, idx_node, 2, points, idx_point_mid + 1, idx_point_end, i_depth + 1);
        proof {
            lemma_right_spliced(
                before,
                low.push(pivot),
                upper,
                up,
                left_points,
                points@,
                idx_point_begin as int,
                idx_point_mid as int,
                idx_point_end as int,
            );
        }
    } else {
        proof {
            lemma_kd_arrange_short(upper, i_depth + 1);
        }
    }
    proof {
        let kd_low = kd_nodes(low, idx_node + 1);
        let kd_up = kd_nodes(up, idx_node + 1 + half);
        assert(kept.len() == 3 * idx_node);
        assert(kd_low.len() == 3 * half);
        assert(kd_up.len() == 3 * up.len());
        assert(root_only == kept + seq![pivot.1, usize::MAX, usize::MAX]);
        assert(left_built == root_only.update(3 * idx_node + 1, (idx_node + 1) as usize) + kd_low);
        assert(up.len() > 0 ==> tree@ == left_built.update(
            3 * idx_node + 2,
            (idx_node + 1 + half) as usize,
        ) + kd_up);
        assert(up.len() == 0 ==> tree@ == left_built);
        lemma_tree_assembled(
            kept,
            pivot.1,
            kd_nodes(low, idx_node + 1),
            kd_nodes(up, idx_node + 1 + half),
            (idx_node + 1) as usize,
            (idx_node + 1 + half) as usize,
            root_only,
            left_built,
            tree@,
        );
        lemma_kd_nodes_of_parts(low, pivot, up, idx_node as int);
        let arranged = kd_arrange(whole, i_depth as int);
        assert(arranged == low.push(pivot) + up);
        assert(tree@ == kept + kd_nodes(arranged, idx_node as int));
        assert(points@ == before.subrange(0, idx_point_begin as int) + arranged + before.subrange(
            idx_point_end as int,
            before.len() as int,
        ));
    }
}

/// The node array after the subtrees under both children of the node behind
/// `kept` were built, the left one under node `l` and the right one, if
/// there is any, under node `r`.
proof fn lemma_tree_assembled(
    kept: Seq<usize>,
    point: usize,
    left: Seq<usize>,
    right: Seq<usize>,
    l: usize,
    r: usize,
    root_only: Seq<usize>,
    left_built: Seq<usize>,
    built: Seq<usize>,
)
    requires
        root_only == kept + seq![point, usize::MAX, usize::MAX],
        left_built == root_only.update(kept.len() as int + 1, l) + left,
        right.len() > 0 ==> built == left_built.update(kept.len() as int + 2, r) + right,
        right.len() == 0 ==> built == left_built,
    ensures
        built == kept + (seq![point, l, if right.len() > 0 { r } else { usize::MAX }] + left
            + right),
{
    assert(built =~= kept + (seq![point, l, if right.len() > 0 { r } else { usize::MAX }] + left
        + right));
}

/// The points after the range before the median was arranged.
proof fn lemma_left_spliced(
    before: Seq<(Vec2, usize)>,
    sorted: Seq<(Vec2, usize)>,
    low: Seq<(Vec2, usize)>,
    sorted_points: Seq<(Vec2, usize)>,
    now: Seq<(Vec2, usize)>,
    begin: int,
    mid: int,
    end: int,
)
    requires
        0 <= begin < mid < end <= before.len(),
        sorted.len() == end - begin,
        low.len() == mid - begin,
        sorted_points == before.subrange(0, begin) + sorted + before.subrange(
            end,
            before.len() as int,
        ),
        now == sorted_points.subrange(0, begin) + low + sorted_points.subrange(
            mid,
            sorted_points.len() as int,
        ),
    ensures
        now == before.subrange(0, begin) + (low.push(sorted[mid - begin]) + sorted.subrange(
            mid - begin + 1,
            end - begin,
        )) + before.subrange(end, before.len() as int),
{
    assert(now =~= before.subrange(0, begin) + (low.push(sorted[mid - begin]) + sorted.subrange(
        mid - begin + 1,
        end - begin,
    )) + before.subrange(end, before.len() as int));
}

/// The points after the range behind the median was arranged.
proof fn lemma_right_spliced(
    before: Seq<(Vec2, usize)>,
    front: Seq<(Vec2, usize)>,
    upper: Seq<(Vec2, usize)>,
    up: Seq<(Vec2, usize)>,
    left_points: Seq<(Vec2, usize)>,
    now: Seq<(Vec2, usize)>,
    begin: int,
    mid: int,
    end: int,
)
    requires
        0 <= begin <= mid < end <= before.len(),
        front.len() == mid + 1 - begin,
        upper.len() == end - mid - 1,
        up.len() == upper.len(),
        left_points == before.subrange(0, begin) + (front + upper) + before.subrange(
            end,
            before.len() as int,
        ),
        now == left_points.subrange(0, mid + 1) + up + left_points.subrange(
            end,
            left_points.len() as int,
        ),
    ensures
        now == before.subrange(0, begin) + (front + up) + before.subrange(
            end,
            before.len() as int,
        ),
{
    assert(now =~= before.subrange(0, begin) + (front + up) + before.subrange(
        end,
        before.len() as int,
    ));
}

/// A subtree of a built tree together with what a walk needs to know of it:
/// the coordinate array, the node array, the index of the subtree's root, the
/// box that holds the subtree's points and the depth of its root.
pub struct TreeBranch<'a> {
    pub vtx2xy: &'a [i32],
    pub nodes: &'a Vec<usize>,
    pub idx_node: usize,
    pub min: Vec2,
    pub max: Vec2,
    pub i_depth: usize,
}

impl<'a> TreeBranch<'a> {
    /// The node array is well formed for the coordinate array, and the depth
    /// counter cannot overflow on the way down.
    pub open spec fn wf(&self) -> bool {
        &&& tree_wf(self.nodes@, num_vertices(self.vtx2xy@))
        &&& self.idx_node < num_nodes(self.nodes@) ==> self.i_depth + num_nodes(self.nodes@)
            - self.idx_node <= usize::MAX
    }

    /// The subtree is ordered at every node, for the depth that the branch
    /// names, and its points lie in the box of the branch.
    pub open spec fn holds_its_points(&self) -> bool {
        &&& kd_ordered(self.nodes@, self.vtx2xy@, self.idx_node as int, self.i_depth as int)
        &&& subtree_in_box(self.nodes@, self.vtx2xy@, self.idx_node as int, self.min, self.max)
    }

    /// The vertex `v` is stored in the subtree.
    pub open spec fn has(&self, v: usize) -> bool {
        subtree_has(self.nodes@, self.idx_node as int, v)
    }

    /// The position of vertex `v`.
    pub open spec fn position(&self, v: usize) -> Vec2 {
        vertex(self.vtx2xy@, v as int)
    }
}

/// Updates the best point so far, `pos_near`, with the points of `branch`, so
/// that it ends as the nearest-neighbour walk leaves it. `None` stands for
/// "no point yet". Of several points at the same distance from `pos_in` the
/// one that the walk meets first is kept.
///
/// The best point stays as it was, or becomes a point of the branch that is
/// strictly nearer to `pos_in`. Where the branch holds its points, it ends no
/// farther from `pos_in` than any point of the branch.
pub fn nearest(pos_near: &mut Option<(Vec2, usize)>, pos_in: Vec2, branch: TreeBranch)
    requires
        branch.wf(),
    ensures
        *final(pos_near) == nearest_walk(
            branch.nodes@,
            branch.vtx2xy@,
            pos_in,
            branch.idx_node as int,
            branch.min,
            branch.max,
            branch.i_depth as int,
            *old(pos_near),
        ),
        *final(pos_near) == *old(pos_near) || (*final(pos_near) matches Some((p, v)) && {
            &&& branch.has(v)
            &&& p == branch.position(v)
            &&& *old(pos_near) matches Some((b, _)) ==> dist2(p, pos_in) < dist2(b, pos_in)
        }),
        branch.holds_its_points() ==> forall|v: usize| #[trigger]
            branch.has(v) ==> no_farther(*final(pos_near), branch.position(v), pos_in),
    decreases nodes_below(branch.nodes@, branch.idx_node as int),
{
    proof {
        lemma_nearest_walk_improves(
            branch.nodes@,
            branch.vtx2xy@,
            pos_in,
            branch.idx_node as int,
            branch.min,
            branch.max,
            branch.i_depth as int,
            *old(pos_near),
        );
        if branch.holds_its_points() {
            lemma_nearest_walk_closest(
                branch.nodes@,
                branch.vtx2xy@,
                pos_in,
                branch.idx_node as int,
                branch.min,
                branch.max,
                branch.i_depth as int,
                *old(pos_near),
            );
        }
    }
    let idx: usize = branch.idx_node;
    if idx >= branch.nodes.len() / 3 {
        return ;
    }
    if let Some((best, _)) = *pos_near {
        let sd: i64 = signed_distance(pos_in, branch.min, branch.max);
        if sd > 0 {
            proof {
                crate::vec2::lemma_square_bound(sd as int);
            }
            if best.squared_distance(pos_in) < (sd as i128) * (sd as i128) {
                return ;
            }
        }
    }
    assert(node_ok(branch.nodes@, idx as int, num_vertices(branch.vtx2xy@)));
    let ivtx: usize = branch.nodes[idx * 3];
    assert(ivtx == crate::model::point_id(branch.nodes@, idx as int));
    assert(ivtx * 2 + 1 < branch.vtx2xy.len());
    let pos = Vec2 { x: branch.vtx2xy[ivtx * 2], y: branch.vtx2xy[ivtx * 2 + 1] };
    let replace: bool = match *pos_near {
        None => true,
        Some((best, _)) => pos.squared_distance(pos_in) < best.squared_distance(pos_in),
    };
    if replace {
        *pos_near = Some((pos, ivtx));
    }
    let even: bool = branch.i_depth % 2 == 0;
    let left = TreeBranch {
        vtx2xy: branch.vtx2xy,
        nodes: branch.nodes,
        idx_node: branch.nodes[idx * 3 + 1],
        min: branch.min,
        max: if even {
            Vec2 { x: pos.x, y: branch.max.y }
        } else {
            Vec2 { x: branch.max.x, y: pos.y }
        },
        i_depth: branch.i_depth + 1,
    };
    let right = TreeBranch {
        vtx2xy: branch.vtx2xy,
        nodes: branch.nodes,
        idx_node: branch.nodes[idx * 3 + 2],
        min: if even {
            Vec2 { x: pos.x, y: branch.min.y }
        } else {
            Vec2 { x: branch.min.x, y: pos.y }
        },
        max: branch.max,
        i_depth: branch.i_depth + 1,
    };
    let left_first: bool = if even {
        pos_in.x < pos.x
    } else {
        pos_in.y < pos.y
    };
    if left_first {
        nearest(pos_near, pos_in, left);
        nearest(pos_near, pos_in, right);
    } else {
        nearest(pos_near, pos_in, right);
        nearest(pos_near, pos_in, left);
    }
}

/// Appends to `pos_near` the identifier of every point of `branch` that the
/// walk for the open square of half-width `rad` around `pos_in` collects, in
/// the order of the walk.
///
/// What is appended are points of the branch that lie in the square; where
/// the branch holds its points, all of them.
pub fn inside_square(pos_near: &mut Vec<usize>, pos_in: Vec2, rad: i64, branch: TreeBranch)
    requires
        branch.wf(),
    ensures
        final(pos_near)@ == old(pos_near)@ + square_walk(
            branch.nodes@,
            branch.vtx2xy@,
            pos_in,
            rad as int,
            branch.idx_node as int,
            branch.min,
            branch.max,
            branch.i_depth as int,
        ),
        forall|v: usize|
            #![trigger branch.has(v)]
            final(pos_near)@.subrange(
                old(pos_near)@.len() as int,
                final(pos_near)@.len() as int,
            ).contains(v) ==> branch.has(v) && in_square(branch.position(v), pos_in, rad as int),
        branch.holds_its_points() ==> forall|v: usize|
            #![trigger branch.has(v)]
            branch.has(v) && in_square(branch.position(v), pos_in, rad as int)
                ==> final(pos_near)@.subrange(
                old(pos_near)@.len() as int,
                final(pos_near)@.len() as int,
            ).contains(v),
{
    proof {
        lemma_square_walk_sound(
            branch.nodes@,
            branch.vtx2xy@,
            pos_in,
            rad as int,
            branch.idx_node as int,
            branch.min,
            branch.max,
            branch.i_depth as int,
        );
        if branch.holds_its_points() {
            lemma_square_walk_exact(
                branch.nodes@,
                branch.vtx2xy@,
                pos_in,
                rad as int,
                branch.idx_node as int,
                branch.min,
                branch.max,
                branch.i_depth as int,
            );
        }
        let walk = square_walk(
            branch.nodes@,
            branch.vtx2xy@,
            pos_in,
            rad as int,
            branch.idx_node as int,
            branch.min,
            branch.max,
            branch.i_depth as int,
        );
        assert((old(pos_near)@ + walk).subrange(
            old(pos_near)@.len() as int,
            (old(pos_near)@ + walk).len() as int,
        ) =~= walk);
    }
    collect_inside_square(pos_near, pos_in, rad, branch);
    assert(pos_near@.subrange(old(pos_near)@.len() as int, pos_near@.len() as int)
        == square_walk(
        branch.nodes@,
        branch.vtx2xy@,
        pos_in,
        rad as int,
        branch.idx_node as int,
        branch.min,
        branch.max,
        branch.i_depth as int,
    ));
}

/// The walk for a square itself.
fn collect_inside_square(pos_near: &mut Vec<usize>, pos_in: Vec2, rad: i64, branch: TreeBranch)
    requires
        branch.wf(),
    ensures
        final(pos_near)@ == old(pos_near)@ + square_walk(
            branch.nodes@,
            branch.vtx2xy@,
            pos_in,
            rad as int,
            branch.idx_node as int,
            branch.min,
            branch.max,
            branch.i_depth as int,
        ),
    decreases nodes_below(branch.nodes@, branch.idx_node as int),
{
    let idx: usize = branch.idx_node;
    if idx >= branch.nodes.len() / 3 {
        return ;
    }
    if rad < signed_distance(pos_in, branch.min, branch.max) {
        return ;
    }
    assert(node_ok(branch.nodes@, idx as int, num_vertices(branch.vtx2xy@)));
    let ivtx: usize = branch.nodes[idx * 3];
    assert(ivtx == crate::model::point_id(branch.nodes@, idx as int));
    assert(ivtx * 2 + 1 < branch.vtx2xy.len());
    let pos = Vec2 { x: branch.vtx2xy[ivtx * 2], y: branch.vtx2xy[ivtx * 2 + 1] };
    if pos.is_in_square(pos_in, rad) {
        pos_near.push(ivtx);
    }
    let even: bool = branch.i_depth % 2 == 0;
    let left = TreeBranch {
        vtx2xy: branch.vtx2xy,
        nodes: branch.nodes,
        idx_node: branch.nodes[idx * 3 + 1],
        min: branch.min,
        max: if even {
            Vec2 { x: pos.x, y: branch.max.y }
        } else {
            Vec2 { x: branch.max.x, y: pos.y }
        },
        i_depth: branch.i_depth + 1,
    };
    let right = TreeBranch {
        vtx2xy: branch.vtx2xy,
        nodes: branch.nodes,
        idx_node: branch.nodes[idx * 3 + 2],
        min: if even {
            Vec2 { x: pos.x, y: branch.min.y }
        } else {
            Vec2 { x: branch.min.x, y: pos.y }
        },
        max: branch.max,
        i_depth: branch.i_depth + 1,
    };
    if even {
        collect_inside_square(pos_near, pos_in, rad, right);
        collect_inside_square(pos_near, pos_in, rad, left);
    } else {
        collect_inside_square(pos_near, pos_in, rad, left);
        collect_inside_square(pos_near, pos_in, rad, right);
    }
}

/// Appends to `edge2xy` the splitting segment of every node of the subtree
/// rooted at `idx_node`, four numbers each, clipped to the box that the node
/// owns within `min`, `max`.
pub fn find_edges(
    edge2xy: &mut Vec<i32>,
    vtx2xy: &[i32],
    nodes: &[usize],
    idx_node: usize,
    min: Vec2,
    max: Vec2,
    i_depth: i32,
)
    requires
        tree_wf(nodes@, num_vertices(vtx2xy@)),
        0 <= i_depth,
        idx_node < num_nodes(nodes@) ==> i_depth + num_nodes(nodes@) - idx_node <= i32::MAX,
    ensures
        final(edge2xy)@ == old(edge2xy)@ + edges_walk(
            nodes@,
            vtx2xy@,
            idx_node as int,
            min,
            max,
            i_depth as int,
        ),
    decreases nodes_below(nodes@, idx_node as int),
{
    if idx_node >= nodes.len() / 3 {
        return ;
    }
    assert(node_ok(nodes@, idx_node as int, num_vertices(vtx2xy@)));
    let ivtx: usize = nodes[idx_node * 3];
    assert(ivtx == crate::model::point_id(nodes@, idx_node as int));
    assert(ivtx * 2 + 1 < vtx2xy.len());
    let pos = Vec2 { x: vtx2xy[ivtx * 2], y: vtx2xy[ivtx * 2 + 1] };
    let left: usize = nodes[idx_node * 3 + 1];
    let right: usize = nodes[idx_node * 3 + 2];
    if i_depth % 2 == 0 {
        edge2xy.push(pos.x);
        edge2xy.push(min.y);
        edge2xy.push(pos.x);
        edge2xy.push(max.y);
        find_edges(edge2xy, vtx2xy, nodes, left, min, Vec2 { x: pos.x, y: max.y }, i_depth + 1);
        find_edges(edge2xy, vtx2xy, nodes, right, Vec2 { x: pos.x, y: min.y }, max, i_depth + 1);
    } else {
        edge2xy.push(min.x);
        edge2xy.push(pos.y);
        edge2xy.push(max.x);
        edge2xy.push(pos.y);
        find_edges(edge2xy, vtx2xy, nodes, left, min, Vec2 { x: max.x, y: pos.y }, i_depth + 1);
        find_edges(edge2xy, vtx2xy, nodes, right, Vec2 { x: min.x, y: pos.y }, max, i_depth + 1);
    }
}

/// Whether `nodes` is a well-formed node array for `num_vtx` vertices: what
/// the walks ask of the array that they are given.
pub fn is_well_formed(nodes: &[usize], num_vtx: usize) -> (ok: bool)
    ensures
        ok == tree_wf(nodes@, num_vtx as int),
{
    let num: usize = nodes.len() / 3;
    let mut i: usize = 0;
    while i < num
        invariant
            num == nodes.len() / 3 == num_nodes(nodes@),
            i <= num,
            forall|k: int| 0 <= k < i ==> #[trigger] node_ok(nodes@, k, num_vtx as int),
        decreases num - i,
    {
        if nodes[i * 3] >= num_vtx || nodes[i * 3 + 1] <= i || nodes[i * 3 + 2] <= i {
            assert(!node_ok(nodes@, i as int, num_vtx as int));
            return false;
        }
        i += 1;
    }
    true
}

/// Builds the tree over the vertices of `vtx2xy`, each of which carries its
/// index as its identifier.
pub fn build(vtx2xy: &[i32]) -> (nodes: Vec<usize>)
    requires
        3 * (vtx2xy.len() / 2) <= usize::MAX,
    ensures
        nodes@ == kd_nodes(kd_arrange(tagged_vertices(vtx2xy@), 0), 0),
        nodes@.len() == 3 * num_vertices(vtx2xy@),
        node_points(nodes@).no_duplicates(),
        tree_wf(nodes@, num_vertices(vtx2xy@)),
        kd_ordered(nodes@, vtx2xy@, 0, 0),
        forall|v: usize| #[trigger] subtree_has(nodes@, 0, v) <==> v < num_vertices(vtx2xy@),
{
    let num_vtx: usize = vtx2xy.len() / 2;
    let mut points: Vec<(Vec2, usize)> = Vec::new();
    let mut i: usize = 0;
    while i < num_vtx
        invariant
            num_vtx == vtx2xy.len() / 2 == num_vertices(vtx2xy@),
            i <= num_vtx,
            points@ == tagged_vertices(vtx2xy@).subrange(0, i as int),
        decreases num_vtx - i,
    {
        points.push((Vec2 { x: vtx2xy[i * 2], y: vtx2xy[i * 2 + 1] }, i));
        assert(points@ =~= tagged_vertices(vtx2xy@).subrange(0, i + 1));
        i += 1;
    }
    let ghost tagged = tagged_vertices(vtx2xy@);
    assert(points@ =~= tagged);
    let mut nodes: Vec<usize> = Vec::new();
    proof {
        lemma_split_levels_bound(num_vtx as nat);
        assert(tagged.subrange(0, num_vtx as int) =~= tagged);
    }
    construct_kdtree(&mut nodes, 0, &mut points, 0, num_vtx, 0);
    proof {
        lemma_tagged_vertices(vtx2xy@);
        lemma_built_tree(tagged, vtx2xy@, 0);
        assert(nodes@ =~= kd_nodes(kd_arrange(tagged, 0), 0));
        tags(tagged).lemma_multiset_has_no_duplicates();
        assert(node_points(nodes@).to_multiset() == tags(tagged).to_multiset());
        node_points(nodes@).lemma_multiset_has_no_duplicates_conv();
    }
    nodes
}

/// The point of the tree that is nearest to `pos_in`, with its identifier, or
/// `None` where the tree has no node. `min` and `max` are the corners of a
/// box around the points of the tree.
///
/// The result is what the nearest-neighbour walk from the root leaves. Where
/// the tree is ordered and the box holds its points, no point of the tree is
/// nearer to `pos_in` than the result.
pub fn nearest_vertex(
    nodes: &Vec<usize>,
    vtx2xy: &[i32],
    pos_in: Vec2,
    min: Vec2,
    max: Vec2,
) -> (found: Option<(Vec2, usize)>)
    requires
        tree_wf(nodes@, num_vertices(vtx2xy@)),
    ensures
        found == nearest_walk(nodes@, vtx2xy@, pos_in, 0, min, max, 0, None),
        found is None <==> num_nodes(nodes@) == 0,
        found matches Some((p, v)) ==> subtree_has(nodes@, 0, v) && p == vertex(
            vtx2xy@,
            v as int,
        ),
        kd_ordered(nodes@, vtx2xy@, 0, 0) && subtree_in_box(nodes@, vtx2xy@, 0, min, max)
            ==> forall|v: usize| #[trigger]
            subtree_has(nodes@, 0, v) ==> no_farther(found, vertex(vtx2xy@, v as int), pos_in),
{
    let mut pos_near: Option<(Vec2, usize)> = None;
    assert(num_nodes(nodes@) <= nodes.len());
    nearest(
        &mut pos_near,
        pos_in,
        TreeBranch { vtx2xy, nodes, idx_node: 0, min, max, i_depth: 0 },
    );
    proof {
        lemma_nearest_walk_improves(nodes@, vtx2xy@, pos_in, 0, min, max, 0, None);
        if kd_ordered(nodes@, vtx2xy@, 0, 0) && subtree_in_box(nodes@, vtx2xy@, 0, min, max) {
            lemma_nearest_walk_closest(nodes@, vtx2xy@, pos_in, 0, min, max, 0, None);
        }
    }
    pos_near
}

/// The identifiers of the points of the tree that lie in the open square of
/// half-width `rad` around `pos_in`, in the order of the walk. `min` and
/// `max` are the corners of a box around the points of the tree.
///
/// Where the tree is ordered and the box holds its points, these are all the
/// points of the tree that lie in the square.
pub fn range_square(
    nodes: &Vec<usize>,
    vtx2xy: &[i32],
    pos_in: Vec2,
    rad: i64,
    min: Vec2,
    max: Vec2,
) -> (found: Vec<usize>)
    requires
        tree_wf(nodes@, num_vertices(vtx2xy@)),
    ensures
        found@ == square_walk(nodes@, vtx2xy@, pos_in, rad as int, 0, min, max, 0),
        forall|v: usize|
            #![trigger subtree_has(nodes@, 0, v)]
            found@.contains(v) ==> subtree_has(nodes@, 0, v) && in_square(
                vertex(vtx2xy@, v as int),
                pos_in,
                rad as int,
            ),
        kd_ordered(nodes@, vtx2xy@, 0, 0) && subtree_in_box(nodes@, vtx2xy@, 0, min, max)
            ==> forall|v: usize|
            #![trigger subtree_has(nodes@, 0, v)]
            subtree_has(nodes@, 0, v) && in_square(vertex(vtx2xy@, v as int), pos_in, rad as int)
                ==> found@.contains(v),
{
    let mut found: Vec<usize> = Vec::new();
    assert(num_nodes(nodes@) <= nodes.len());
    inside_square(
        &mut found,
        pos_in,
        rad,
        TreeBranch { vtx2xy, nodes, idx_node: 0, min, max, i_depth: 0 },
    );
    proof {
        let walk = square_walk(nodes@, vtx2xy@, pos_in, rad as int, 0, min, max, 0);
        assert(found@ =~= walk);
        lemma_square_walk_sound(nodes@, vtx2xy@, pos_in, rad as int, 0, min, max, 0);
        if kd_ordered(nodes@, vtx2xy@, 0, 0) && subtree_in_box(nodes@, vtx2xy@, 0, min, max) {
            lemma_square_walk_exact(nodes@, vtx2xy@, pos_in, rad as int, 0, min, max, 0);
        }
    }
    found
}

/// The splitting segments of the tree, four numbers each, clipped to the box
/// with corners `min` and `max`.
pub fn debug_edges(nodes: &Vec<usize>, vtx2xy: &[i32], min: Vec2, max: Vec2) -> (edge2xy: Vec<i32>)
    requires
        tree_wf(nodes@, num_vertices(vtx2xy@)),
        num_nodes(nodes@) <= i32::MAX,
    ensures
        edge2xy@ == edges_walk(nodes@, vtx2xy@, 0, min, max, 0),
{
    let mut edge2xy: Vec<i32> = Vec::new();
    find_edges(&mut edge2xy, vtx2xy, nodes.as_slice(), 0, min, max, 0);
    assert(edge2xy@ =~= edges_walk(nodes@, vtx2xy@, 0, min, max, 0));
    edge2xy
}

} // verus!
