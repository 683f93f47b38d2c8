use search::{appraise, crop, distance, moves, shape_distance, torus_moves, WorldShape};

#[test]
fn moves_test() {
    // (x,y): top-left is (0,0), top-right is (1,0).
    // o.
    // ..
    assert_eq!(vec![(1, 0), (1, 1), (0, 1)], moves((0, 0), (2, 2)));
    // ..
    // o.
    assert_eq!(vec![(0, 0), (1, 0), (1, 1)], moves((0, 1), (2, 2)));
    // ..
    // .o
    assert_eq!(vec![(1, 0), (0, 1), (0, 0)], moves((1, 1), (2, 2)));
    // .o
    // ..
    assert_eq!(vec![(1, 1), (0, 1), (0, 0)], moves((1, 0), (2, 2)));
    // Numbers are indices into the example positions vector.
    // 7 0 1
    // 6 o 2
    // 5 4 3
    assert_eq!(
        vec![(1, 0), (2, 0), (2, 1), (2, 2), (1, 2), (0, 2), (0, 1), (0, 0)],
        moves((1, 1), (3, 3))
    );
    // Dots are unreachable in 1 step.
    // . 0 1
    // . o 2
    // . 4 3
    assert_eq!(vec![(0, 0), (1, 0), (1, 1), (1, 2), (0, 2)], moves((0, 1), (3, 3)));
    // . 4 0
    // . 3 o
    // . 2 1
    assert_eq!(vec![(2, 0), (2, 2), (1, 2), (1, 1), (1, 0)], moves((2, 1), (3, 3)));
    // 4 o 0
    // 3 2 1
    // . . .
    assert_eq!(vec![(2, 0), (2, 1), (1, 1), (0, 1), (0, 0)], moves((1, 0), (3, 3)));
    // . . .
    // 4 0 1
    // 3 o 2
    assert_eq!(vec![(1, 1), (2, 1), (2, 2), (0, 2), (0, 1)], moves((1, 2), (3, 3)));
}

#[test]
fn crop_drops_out_of_bounds_candidates() {
    assert_eq!(crop((-1, 0), (3, 3)), None);
    assert_eq!(crop((0, 3), (3, 3)), None);
    assert_eq!(crop((2, 2), (3, 3)), Some((2, 2)));
}

#[test]
fn torus_always_yields_eight_entries() {
    let n = torus_moves((0, 0), 2, 2);
    assert_eq!(n.len(), 8);
    // only four distinct positions exist on a 2 by 2 torus
    let mut distinct = n.clone();
    distinct.sort();
    distinct.dedup();
    assert!(distinct.len() <= 4);
}

#[test]
fn torus_neighbours_are_distinct_from_three_up() {
    let n = torus_moves((1, 1), 3, 3);
    assert_eq!(n.len(), 8);
    let mut distinct = n.clone();
    distinct.sort();
    distinct.dedup();
    assert_eq!(distinct.len(), 8);
}

#[test]
fn rectangle_corner_edge_interior_counts() {
    assert_eq!(moves((0, 0), (3, 3)).len(), 3);
    assert_eq!(moves((1, 0), (3, 3)).len(), 5);
    assert_eq!(moves((1, 1), (3, 3)).len(), 8);
}

#[test]
fn distance_rounds_to_nearest_integer() {
    assert_eq!(distance((0, 0), (3, 4)), 5);
    assert_eq!(distance((0, 0), (1, 1)), 1);
    assert_eq!(distance((2, 2), (2, 2)), 0);
    assert_eq!(distance((0, 0), (1, 2)), 2);
}

#[test]
fn torus_distance_wraps_each_axis() {
    let shape = WorldShape::Torus { width: 10, height: 10 };
    assert_eq!(shape_distance(shape, (0, 0), (9, 0)), 1);
    assert_eq!(shape_distance(shape, (1, 1), (9, 9)), 3);
    let rect = WorldShape::Rectangle { width: 10, height: 10 };
    assert_eq!(shape_distance(rect, (0, 0), (9, 0)), 9);
}

#[test]
fn appraise_negates_the_distance() {
    assert_eq!(appraise((0, 0), (3, 4)), (-5, (0, 0)));
}
