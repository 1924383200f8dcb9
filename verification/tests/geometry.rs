use del_msh_core::aabb2::signed_distance;
use del_msh_core::sort::sort_by_axis;
use del_msh_core::vec2::Vec2;

#[test]
fn squared_distance_is_exact() {
    assert_eq!(Vec2::new(3, 4).squared_distance(Vec2::new(0, 0)), 25);
    assert_eq!(Vec2::new(-2, 7).squared_distance(Vec2::new(-2, 7)), 0);
    assert_eq!(Vec2::new(1, 1).squared_distance(Vec2::new(-2, 5)), 25);
    assert_eq!(
        Vec2::new(i32::MIN, i32::MIN).squared_distance(Vec2::new(i32::MAX, i32::MAX)),
        36893488130239234050_i128
    );
}

#[test]
fn signed_distance_is_negative_inside_and_the_larger_excess_outside() {
    let min = Vec2::new(0, 0);
    let max = Vec2::new(10, 10);
    assert_eq!(signed_distance(Vec2::new(5, 5), min, max), -5);
    assert_eq!(signed_distance(Vec2::new(1, 5), min, max), -1);
    assert_eq!(signed_distance(Vec2::new(0, 7), min, max), 0);
    assert_eq!(signed_distance(Vec2::new(13, 5), min, max), 3);
    assert_eq!(signed_distance(Vec2::new(5, -2), min, max), 2);
    assert_eq!(signed_distance(Vec2::new(13, 14), min, max), 4);
    assert_eq!(
        signed_distance(Vec2::new(i32::MIN, 0), Vec2::new(i32::MAX, 0), Vec2::new(i32::MAX, 0)),
        4294967295
    );
}

#[test]
fn open_square_excludes_its_border() {
    let center = Vec2::new(0, 0);
    assert!(Vec2::new(4, -4).is_in_square(center, 5));
    assert!(!Vec2::new(5, 0).is_in_square(center, 5));
    assert!(!Vec2::new(0, -5).is_in_square(center, 5));
    assert!(Vec2::new(5, 0).is_in_square(center, 6));
    assert!(!Vec2::new(0, 0).is_in_square(center, 0));
    assert!(!Vec2::new(0, 0).is_in_square(center, -1));
    assert!(!Vec2::new(0, 0).is_in_square(center, i64::MIN));
    assert!(Vec2::new(i32::MAX, i32::MIN).is_in_square(Vec2::new(i32::MIN, i32::MAX), i64::MAX));
}

#[test]
fn sort_is_stable_and_leaves_the_rest_alone() {
    let mut points = vec![
        (Vec2::new(9, 9), 0),
        (Vec2::new(2, 5), 1),
        (Vec2::new(1, 5), 2),
        (Vec2::new(2, 3), 3),
        (Vec2::new(1, 7), 4),
        (Vec2::new(0, 0), 5),
    ];
    sort_by_axis(&mut points, 1, 5, 0);
    assert_eq!(
        points,
        vec![
            (Vec2::new(9, 9), 0),
            (Vec2::new(1, 5), 2),
            (Vec2::new(1, 7), 4),
            (Vec2::new(2, 5), 1),
            (Vec2::new(2, 3), 3),
            (Vec2::new(0, 0), 5),
        ]
    );
    sort_by_axis(&mut points, 1, 5, 1);
    assert_eq!(
        points,
        vec![
            (Vec2::new(9, 9), 0),
            (Vec2::new(2, 3), 3),
            (Vec2::new(1, 5), 2),
            (Vec2::new(2, 5), 1),
            (Vec2::new(1, 7), 4),
            (Vec2::new(0, 0), 5),
        ]
    );
    sort_by_axis(&mut points, 3, 3, 0);
    sort_by_axis(&mut points, 0, 1, 1);
    assert_eq!(points[0], (Vec2::new(9, 9), 0));
}

#[test]
fn sort_agrees_with_the_standard_stable_sort() {
    let mut points: Vec<(Vec2, usize)> = (0..500_usize)
        .map(|i| (Vec2::new(((i * 7919) % 23) as i32 - 11, ((i * 104729) % 17) as i32), i))
        .collect();
    for axis in [0_usize, 1, 2, 3] {
        let mut expected = points.clone();
        if axis % 2 == 0 {
            expected.sort_by_key(|p| p.0.x);
        } else {
            expected.sort_by_key(|p| p.0.y);
        }
        sort_by_axis(&mut points, 0, 500, axis);
        assert_eq!(points, expected);
    }
}
