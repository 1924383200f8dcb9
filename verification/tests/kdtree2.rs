use del_msh_core::kdtree2::{
    build, construct_kdtree, debug_edges, find_edges, inside_square, is_well_formed, nearest,
    nearest_vertex, range_square, TreeBranch,
};
use del_msh_core::vec2::Vec2;
use rand::Rng;

const NONE: usize = usize::MAX;

/// One unit of the plane is 2^20 lattice steps.
const SCALE: f64 = 1048576.0;

fn to_lattice(x: f64) -> i32 {
    (x * SCALE).round() as i32
}

fn squared(a: Vec2, b: Vec2) -> i64 {
    let dx = a.x as i64 - b.x as i64;
    let dy = a.y as i64 - b.y as i64;
    dx * dx + dy * dy
}

fn test_data(num_xy: usize) -> (Vec<i32>, Vec<usize>) {
    let xys = {
        let mut rng: rand::rngs::StdRng = rand::SeedableRng::from_seed([13_u8; 32]);
        let rad: f64 = 0.4;
        let half: f64 = 0.4;
        let mut ps = Vec::<i32>::with_capacity(num_xy * 2);
        for _i in 0..num_xy {
            let x: f64 = (rng.random::<f64>() * 2.0 - 1.0) * rad + half;
            let y: f64 = (rng.random::<f64>() * 2.0 - 1.0) * rad + half;
            ps.push(to_lattice(x));
            ps.push(to_lattice(y));
        }
        ps
    };
    let tree = {
        let mut pairs_xy_idx: Vec<(Vec2, usize)> = xys
            .chunks(2)
            .enumerate()
            .map(|(ivtx, xy)| (Vec2::new(xy[0], xy[1]), ivtx))
            .collect();
        let mut tree = Vec::<usize>::new();
        construct_kdtree(&mut tree, 0, &mut pairs_xy_idx, 0, xys.len() / 2, 0);
        tree
    };
    (xys, tree)
}

#[test]
fn check_nearest_raw() {
    let (vtx2xy, nodes) = test_data(10000);
    assert!(is_well_formed(&nodes, vtx2xy.len() / 2));
    let mut rng: rand::rngs::StdRng = rand::SeedableRng::from_seed([13_u8; 32]);
    for _ in 0..10000 {
        let p0 = Vec2::new(to_lattice(rng.random::<f64>()), to_lattice(rng.random::<f64>()));
        let mut pos_near: Option<(Vec2, usize)> = None;
        nearest(
            &mut pos_near,
            p0,
            TreeBranch {
                vtx2xy: &vtx2xy,
                nodes: &nodes,
                idx_node: 0,
                min: Vec2::new(to_lattice(0.), to_lattice(0.)),
                max: Vec2::new(to_lattice(1.), to_lattice(1.)),
                i_depth: 0,
            },
        );
    }
    for _ in 0..10000 {
        let p0 = Vec2::new(to_lattice(rng.random::<f64>()), to_lattice(rng.random::<f64>()));
        let mut pos_near: Option<(Vec2, usize)> = None;
        nearest(
            &mut pos_near,
            p0,
            TreeBranch {
                vtx2xy: &vtx2xy,
                nodes: &nodes,
                idx_node: 0,
                min: Vec2::new(to_lattice(0.), to_lattice(0.)),
                max: Vec2::new(to_lattice(1.), to_lattice(1.)),
                i_depth: 0,
            },
        );
        let (pos, ivtx) = pos_near.unwrap();
        assert_eq!(pos, Vec2::new(vtx2xy[ivtx * 2], vtx2xy[ivtx * 2 + 1]));
        let dist_min = squared(pos, p0);
        for xy in vtx2xy.chunks(2) {
            assert!(squared(Vec2::new(xy[0], xy[1]), p0) >= dist_min);
        }
    }
}

#[test]
fn check_inside_square_raw() {
    let (vtx2xy, nodes) = test_data(10000);
    let mut rng: rand::rngs::StdRng = rand::SeedableRng::from_seed([13_u8; 32]);
    let rad: i64 = to_lattice(0.03) as i64;
    for _ in 0..10000 {
        let p0 = Vec2::new(to_lattice(rng.random::<f64>()), to_lattice(rng.random::<f64>()));
        let mut pos_near = Vec::<usize>::new();
        inside_square(
            &mut pos_near,
            p0,
            rad,
            TreeBranch {
                vtx2xy: &vtx2xy,
                nodes: &nodes,
                idx_node: 0,
                min: Vec2::new(to_lattice(0.), to_lattice(0.)),
                max: Vec2::new(to_lattice(1.), to_lattice(1.)),
                i_depth: 0,
            },
        );
    }
    for _ in 0..10000 {
        let p0 = Vec2::new(to_lattice(rng.random::<f64>()), to_lattice(rng.random::<f64>()));
        let mut idxs0 = Vec::<usize>::new();
        inside_square(
            &mut idxs0,
            p0,
            rad,
            TreeBranch {
                vtx2xy: &vtx2xy,
                nodes: &nodes,
                idx_node: 0,
                min: Vec2::new(to_lattice(0.), to_lattice(0.)),
                max: Vec2::new(to_lattice(1.), to_lattice(1.)),
                i_depth: 0,
            },
        );
        let idxs1: Vec<usize> = vtx2xy
            .chunks(2)
            .enumerate()
            .filter(|(_, xy)| {
                ((xy[0] - p0.x) as i64).abs() < rad && ((xy[1] - p0.y) as i64).abs() < rad
            })
            .map(|v| v.0)
            .collect();
        assert_eq!(idxs0.len(), idxs1.len());
        let idxs1 = std::collections::BTreeSet::from_iter(idxs1.iter());
        let idxs0 = std::collections::BTreeSet::from_iter(idxs0.iter());
        assert_eq!(idxs1, idxs0);
    }
}

/// The four corners of a square of side 10, as a coordinate array.
fn four_corners() -> Vec<i32> {
    vec![0, 0, 10, 0, 0, 10, 10, 10]
}

fn whole_tree<'a>(vtx2xy: &'a [i32], nodes: &'a Vec<usize>, min: Vec2, max: Vec2) -> TreeBranch<'a> {
    TreeBranch { vtx2xy, nodes, idx_node: 0, min, max, i_depth: 0 }
}

#[test]
fn four_corners_tree_is_laid_out_in_construction_order() {
    let mut points = vec![
        (Vec2::new(0, 0), 0),
        (Vec2::new(10, 0), 1),
        (Vec2::new(0, 10), 2),
        (Vec2::new(10, 10), 3),
    ];
    let mut tree = Vec::new();
    construct_kdtree(&mut tree, 0, &mut points, 0, 4, 0);
    assert_eq!(tree, vec![1, 1, 3, 2, 2, NONE, 0, NONE, NONE, 3, NONE, NONE]);
    assert_eq!(
        points,
        vec![
            (Vec2::new(0, 0), 0),
            (Vec2::new(0, 10), 2),
            (Vec2::new(10, 0), 1),
            (Vec2::new(10, 10), 3),
        ]
    );
    assert_eq!(build(&four_corners()), tree);
}

#[test]
fn four_corners_nearest_and_range() {
    let vtx2xy = four_corners();
    let nodes = build(&vtx2xy);
    let min = Vec2::new(0, 0);
    let max = Vec2::new(10, 10);
    assert_eq!(
        nearest_vertex(&nodes, &vtx2xy, Vec2::new(9, 9), min, max),
        Some((Vec2::new(10, 10), 3))
    );
    assert_eq!(range_square(&nodes, &vtx2xy, Vec2::new(0, 0), 5, min, max), vec![0]);

    let mut best = None;
    nearest(&mut best, Vec2::new(9, 9), whole_tree(&vtx2xy, &nodes, min, max));
    assert_eq!(best, Some((Vec2::new(10, 10), 3)));
    let mut inside = Vec::new();
    inside_square(&mut inside, Vec2::new(0, 0), 5, whole_tree(&vtx2xy, &nodes, min, max));
    assert_eq!(inside, vec![0]);
}

#[test]
fn node_count_equals_point_count_and_each_point_has_one_node() {
    for n in 0..40_usize {
        let vtx2xy: Vec<i32> = (0..2 * n).map(|i| ((i * 7919) % 31) as i32 - 15).collect();
        let nodes = build(&vtx2xy);
        assert_eq!(nodes.len(), 3 * n);
        assert!(is_well_formed(&nodes, n));
        let mut ids: Vec<usize> = nodes.chunks(3).map(|node| node[0]).collect();
        ids.sort();
        assert_eq!(ids, (0..n).collect::<Vec<usize>>());
    }
}

/// Checks the ordering of the subtree at `idx` and returns the identifiers
/// stored in it.
fn check_order(nodes: &[usize], vtx2xy: &[i32], idx: usize, depth: usize) -> Vec<usize> {
    if idx >= nodes.len() / 3 {
        return vec![];
    }
    let axis = depth % 2;
    let own = nodes[idx * 3];
    let split = vtx2xy[own * 2 + axis];
    let left = check_order(nodes, vtx2xy, nodes[idx * 3 + 1], depth + 1);
    let right = check_order(nodes, vtx2xy, nodes[idx * 3 + 2], depth + 1);
    for &v in &left {
        assert!(vtx2xy[v * 2 + axis] <= split);
    }
    for &v in &right {
        assert!(vtx2xy[v * 2 + axis] >= split);
    }
    let mut all = vec![own];
    all.extend(left);
    all.extend(right);
    all
}

#[test]
fn every_node_splits_its_subtree_along_the_axis_of_its_depth() {
    let vtx2xy: Vec<i32> = (0..200_usize).map(|i| ((i * 104729) % 53) as i32 - 20).collect();
    let nodes = build(&vtx2xy);
    let mut all = check_order(&nodes, &vtx2xy, 0, 0);
    all.sort();
    assert_eq!(all, (0..100).collect::<Vec<usize>>());
}

#[test]
fn repeated_queries_give_the_same_results() {
    let vtx2xy: Vec<i32> = (0..60_usize).map(|i| ((i * 7919) % 41) as i32).collect();
    let nodes = build(&vtx2xy);
    let before = nodes.clone();
    let min = Vec2::new(0, 0);
    let max = Vec2::new(40, 40);
    let q = Vec2::new(17, 23);
    let first = nearest_vertex(&nodes, &vtx2xy, q, min, max);
    let second = nearest_vertex(&nodes, &vtx2xy, q, min, max);
    assert_eq!(first, second);
    let first = range_square(&nodes, &vtx2xy, q, 9, min, max);
    let second = range_square(&nodes, &vtx2xy, q, 9, min, max);
    assert_eq!(first, second);
    assert_eq!(debug_edges(&nodes, &vtx2xy, min, max), debug_edges(&nodes, &vtx2xy, min, max));
    assert_eq!(nodes, before);
}

#[test]
fn single_point_tree_is_one_leaf() {
    let vtx2xy = vec![3, -4];
    let nodes = build(&vtx2xy);
    assert_eq!(nodes, vec![0, NONE, NONE]);
    let min = Vec2::new(-10, -10);
    let max = Vec2::new(10, 10);
    for q in [Vec2::new(3, -4), Vec2::new(0, 0), Vec2::new(-1000, 2000), Vec2::new(i32::MAX, i32::MIN)] {
        assert_eq!(nearest_vertex(&nodes, &vtx2xy, q, min, max), Some((Vec2::new(3, -4), 0)));
    }
    assert_eq!(range_square(&nodes, &vtx2xy, Vec2::new(0, 0), 5, min, max), vec![0]);
    assert_eq!(range_square(&nodes, &vtx2xy, Vec2::new(0, 0), 4, min, max), Vec::<usize>::new());
    assert_eq!(range_square(&nodes, &vtx2xy, Vec2::new(3, -4), 1, min, max), vec![0]);
    assert_eq!(range_square(&nodes, &vtx2xy, Vec2::new(3, -4), 0, min, max), Vec::<usize>::new());
    assert_eq!(range_square(&nodes, &vtx2xy, Vec2::new(8, 0), 5, min, max), Vec::<usize>::new());
}

#[test]
fn empty_point_set_gives_empty_tree_and_no_nearest_point() {
    let mut tree = vec![7, 8, 9];
    let mut points: Vec<(Vec2, usize)> = vec![];
    construct_kdtree(&mut tree, 0, &mut points, 0, 0, 0);
    assert!(tree.is_empty());

    let vtx2xy: Vec<i32> = vec![];
    let nodes = build(&vtx2xy);
    assert!(nodes.is_empty());
    let min = Vec2::new(0, 0);
    let max = Vec2::new(1, 1);
    assert_eq!(nearest_vertex(&nodes, &vtx2xy, Vec2::new(0, 0), min, max), None);
    assert!(range_square(&nodes, &vtx2xy, Vec2::new(0, 0), 100, min, max).is_empty());
    assert!(debug_edges(&nodes, &vtx2xy, min, max).is_empty());
}

#[test]
fn first_call_starts_from_an_unset_record() {
    let mut tree = vec![5, 6, 7, 8, 9, 10];
    let mut points = vec![(Vec2::new(1, 2), 4)];
    construct_kdtree(&mut tree, 0, &mut points, 0, 1, 0);
    assert_eq!(tree, vec![4, NONE, NONE]);
}

#[test]
fn equal_coordinates_keep_their_order() {
    let mut points = vec![(Vec2::new(5, 1), 0), (Vec2::new(5, 0), 1), (Vec2::new(5, 2), 2)];
    let mut tree = Vec::new();
    construct_kdtree(&mut tree, 0, &mut points, 0, 3, 0);
    assert_eq!(tree, vec![1, 1, 2, 0, NONE, NONE, 2, NONE, NONE]);
    assert_eq!(points, vec![(Vec2::new(5, 1), 0), (Vec2::new(5, 0), 1), (Vec2::new(5, 2), 2)]);
}

#[test]
fn subtree_is_built_under_the_last_node_over_a_range_of_points() {
    let mut points = vec![
        (Vec2::new(9, 9), 10),
        (Vec2::new(3, 1), 11),
        (Vec2::new(1, 5), 12),
        (Vec2::new(2, 0), 13),
        (Vec2::new(0, 0), 14),
    ];
    let mut tree = vec![10, 1, NONE, NONE, NONE, NONE];
    construct_kdtree(&mut tree, 1, &mut points, 1, 4, 1);
    // along y: (2,0) (3,1) (1,5); the middle one is (3,1)
    assert_eq!(tree, vec![10, 1, NONE, 11, 2, 3, 13, NONE, NONE, 12, NONE, NONE]);
    assert_eq!(
        points,
        vec![
            (Vec2::new(9, 9), 10),
            (Vec2::new(2, 0), 13),
            (Vec2::new(3, 1), 11),
            (Vec2::new(1, 5), 12),
            (Vec2::new(0, 0), 14),
        ]
    );
}

#[test]
fn of_two_points_at_the_same_distance_the_first_met_is_kept() {
    let vtx2xy = vec![0, 0, 2, 0];
    let nodes = build(&vtx2xy);
    assert_eq!(nodes, vec![1, 1, NONE, 0, NONE, NONE]);
    let found = nearest_vertex(&nodes, &vtx2xy, Vec2::new(1, 0), Vec2::new(0, 0), Vec2::new(2, 0));
    assert_eq!(found, Some((Vec2::new(2, 0), 1)));
}

#[test]
fn nearest_keeps_a_better_point_that_it_was_given() {
    let vtx2xy = four_corners();
    let nodes = build(&vtx2xy);
    let min = Vec2::new(0, 0);
    let max = Vec2::new(10, 10);
    let mut best = Some((Vec2::new(5, 5), 77));
    nearest(&mut best, Vec2::new(5, 4), whole_tree(&vtx2xy, &nodes, min, max));
    assert_eq!(best, Some((Vec2::new(5, 5), 77)));
    let mut best = Some((Vec2::new(5, 5), 77));
    nearest(&mut best, Vec2::new(9, 1), whole_tree(&vtx2xy, &nodes, min, max));
    assert_eq!(best, Some((Vec2::new(10, 0), 1)));
}

#[test]
fn absent_subtree_is_a_no_op() {
    let vtx2xy = four_corners();
    let nodes = build(&vtx2xy);
    let min = Vec2::new(0, 0);
    let max = Vec2::new(10, 10);
    for idx_node in [4, 100, NONE] {
        let mut best = None;
        let branch = TreeBranch { vtx2xy: &vtx2xy, nodes: &nodes, idx_node, min, max, i_depth: 0 };
        nearest(&mut best, Vec2::new(1, 1), branch);
        assert_eq!(best, None);
        let mut inside = vec![42];
        let branch = TreeBranch { vtx2xy: &vtx2xy, nodes: &nodes, idx_node, min, max, i_depth: 0 };
        inside_square(&mut inside, Vec2::new(1, 1), 100, branch);
        assert_eq!(inside, vec![42]);
        let mut edges = vec![1, 2, 3, 4];
        find_edges(&mut edges, &vtx2xy, &nodes, idx_node, min, max, 0);
        assert_eq!(edges, vec![1, 2, 3, 4]);
    }
}

#[test]
fn range_query_follows_the_walk_and_appends() {
    let vtx2xy = four_corners();
    let nodes = build(&vtx2xy);
    let min = Vec2::new(0, 0);
    let max = Vec2::new(10, 10);
    // the root, then its right child, then under its left child
    assert_eq!(range_square(&nodes, &vtx2xy, Vec2::new(5, 5), 6, min, max), vec![1, 3, 2, 0]);
    // the square is open: a point on its border is outside
    assert_eq!(range_square(&nodes, &vtx2xy, Vec2::new(5, 5), 5, min, max), Vec::<usize>::new());
    assert_eq!(range_square(&nodes, &vtx2xy, Vec2::new(5, 5), -3, min, max), Vec::<usize>::new());
    // the test is by coordinate, not by distance
    assert_eq!(range_square(&nodes, &vtx2xy, Vec2::new(6, 6), 5, min, max), vec![3]);
    let mut inside = vec![9];
    inside_square(&mut inside, Vec2::new(10, 5), 6, whole_tree(&vtx2xy, &nodes, min, max));
    assert_eq!(inside, vec![9, 1, 3]);
}

#[test]
fn splitting_segments_are_clipped_to_the_boxes_of_their_nodes() {
    let vtx2xy = four_corners();
    let nodes = build(&vtx2xy);
    let edges = debug_edges(&nodes, &vtx2xy, Vec2::new(0, 0), Vec2::new(10, 10));
    assert_eq!(edges, vec![10, 0, 10, 10, 0, 10, 10, 10, 0, 0, 0, 10, 10, 10, 10, 10]);
    assert_eq!(edges.len(), 4 * nodes.len() / 3);
    let mut appended = vec![-1];
    find_edges(&mut appended, &vtx2xy, &nodes, 1, Vec2::new(-5, -5), Vec2::new(20, 30), 1);
    assert_eq!(appended, vec![-1, -5, 10, 20, 10, 0, -5, 0, 10]);
}

#[test]
fn malformed_node_arrays_are_recognised() {
    assert!(is_well_formed(&[], 0));
    assert!(is_well_formed(&[0, NONE, NONE], 1));
    assert!(is_well_formed(&[1, 1, 3, 2, 2, NONE, 0, NONE, NONE, 3, NONE, NONE], 4));
    // an identifier that names no vertex
    assert!(!is_well_formed(&[1, NONE, NONE], 1));
    assert!(!is_well_formed(&[NONE, NONE, NONE], 5));
    // a child that does not come after its parent
    assert!(!is_well_formed(&[0, 0, NONE], 1));
    assert!(!is_well_formed(&[0, 1, NONE, 1, NONE, 1], 2));
    assert!(!is_well_formed(&[0, 1, NONE, 1, 0, NONE], 2));
    // entries behind the last whole record are not a node
    assert!(is_well_formed(&[0, NONE, NONE, 9, 0], 1));
}

#[test]
fn nearest_matches_brute_force_with_duplicates_and_ties() {
    let vtx2xy: Vec<i32> = (0..120_usize).map(|i| ((i * 31) % 7) as i32).collect();
    let nodes = build(&vtx2xy);
    let min = Vec2::new(0, 0);
    let max = Vec2::new(6, 6);
    for qx in -3..10 {
        for qy in -3..10 {
            let q = Vec2::new(qx, qy);
            let (pos, v) = nearest_vertex(&nodes, &vtx2xy, q, min, max).unwrap();
            assert_eq!(pos, Vec2::new(vtx2xy[2 * v], vtx2xy[2 * v + 1]));
            let best = vtx2xy.chunks(2).map(|xy| squared(Vec2::new(xy[0], xy[1]), q)).min();
            assert_eq!(Some(squared(pos, q)), best);
            for rad in 0..5 {
                let mut found = range_square(&nodes, &vtx2xy, q, rad, min, max);
                found.sort();
                let expected: Vec<usize> = (0..60)
                    .filter(|&v| {
                        ((vtx2xy[2 * v] - qx) as i64).abs() < rad
                            && ((vtx2xy[2 * v + 1] - qy) as i64).abs() < rad
                    })
                    .collect();
                assert_eq!(found, expected);
            }
        }
    }
}
