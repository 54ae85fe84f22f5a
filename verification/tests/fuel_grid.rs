use aoc::y18_fuel::FuelGrid;

#[test]
fn test_comp_level() {
    let level0 = FuelGrid::comp_level(122, 79, 57);
    assert_eq!(level0, -5);

    let level1 = FuelGrid::comp_level(217, 196, 39);
    assert_eq!(level1, 0);

    let level2 = FuelGrid::comp_level(101, 153, 71);
    assert_eq!(level2, 4);

    let level3 = FuelGrid::comp_level(3, 5, 8);
    assert_eq!(level3, 4);
}

#[test]
fn fuel_grid_max_cell_small() {
    let grid = FuelGrid::new(3, 3, 18);
    let (x, y, v) = grid.max_cell(3, 3);
    assert_eq!((x, y), (0, 0));
    let mut sum = 0;
    for yy in 0..3 {
        for xx in 0..3 {
            sum += grid.get(xx, yy);
        }
    }
    assert_eq!(v, sum);
    assert_eq!(grid.cell_sum(0, 0, 3, 3), sum);
    assert_eq!(grid.get(1, 2), FuelGrid::comp_level(2, 3, 7803));
}

#[test]
fn fuel_grid_max_cell_single_picks_last_maximum() {
    let grid = FuelGrid::new(4, 5, 1);
    let (x, y, v) = grid.max_cell(1, 1);
    let mut best = i32::MIN;
    for xx in 0..5 {
        for yy in 0..4 {
            best = best.max(grid.get(xx, yy));
        }
    }
    assert_eq!(v, best);
    assert_eq!(grid.get(x, y), best);
    for xx in 0..5 {
        for yy in 0..4 {
            if (xx, yy) > (x, y) {
                assert!(grid.get(xx, yy) < best);
            }
        }
    }
}

#[test]
fn fuel_grid_max_square_any_size() {
    let grid = FuelGrid::new(12, 12, 18);
    let (x, y, s, v) = grid.max_square(6);
    let mut best = (0u32, 0u32, 0u32, i32::MIN);
    for size in 1..=6u32 {
        for xx in 0..=(12 - size) {
            for yy in 0..=(12 - size) {
                let sum = grid.cell_sum(xx, yy, size, size);
                if sum > best.3 || (sum == best.3 && size > best.2) || (sum == best.3 && size == best.2 && (xx, yy) > (best.0, best.1)) {
                    best = (xx, yy, size, sum);
                }
            }
        }
    }
    assert_eq!((x, y, s, v), best);
}
