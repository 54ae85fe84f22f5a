use aoc::y18_points::{comp_components, comp_near_neighbor_mat, Point};

fn pt(x: isize, y: isize, z: isize, w: isize) -> Point {
    Point { x, y, z, w }
}

#[test]
fn components_are_connected_and_ordered() {
    // 0 - 2 are close, 1 stands alone, 3 - 4 are close.
    let points = vec![
        pt(0, 0, 0, 0),
        pt(10, 0, 0, 0),
        pt(3, 0, 0, 0),
        pt(20, 0, 0, 0),
        pt(20, 1, 0, 0),
    ];
    let mat = comp_near_neighbor_mat(&points);
    assert_eq!(mat, vec![vec![2], vec![], vec![0], vec![4], vec![3]]);
    let comps = comp_components(&mat);
    assert_eq!(comps, vec![vec![0, 2], vec![1], vec![3, 4]]);
}

#[test]
fn chain_of_points_is_one_component() {
    let points = vec![pt(0, 0, 0, 0), pt(6, 0, 0, 0), pt(3, 0, 0, 0), pt(9, 0, 0, 0)];
    let comps = comp_components(&comp_near_neighbor_mat(&points));
    assert_eq!(comps.len(), 1);
    let mut all = comps[0].clone();
    all.sort();
    assert_eq!(all, vec![0, 1, 2, 3]);
    assert_eq!(comps[0][0], 0);
}
