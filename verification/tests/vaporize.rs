use aoc::y19_asteroids::AsteroidMap;

fn map_of(rows: &[&str]) -> AsteroidMap {
    let lines: Vec<String> = rows.iter().map(|s| s.to_string()).collect();
    AsteroidMap::from_lines(&lines).unwrap()
}

#[test]
fn vaporize_around_the_centre() {
    let map = map_of(&["###", "###", "###"]);
    assert_eq!(map.vaporize_order(4), Some(vec![1, 2, 5, 8, 7, 6, 3, 0]));
}

#[test]
fn vaporize_in_rounds() {
    let map = map_of(&["#####"]);
    assert_eq!(map.vaporize_order(0), Some(vec![1, 2, 3, 4]));
    assert_eq!(map.vaporize_order(2), Some(vec![3, 1, 4, 0]));
    assert_eq!(map.vaporize_order(5), None);
}

#[test]
fn vaporize_column_then_sides() {
    // Station at the bottom middle: straight up first, round by round.
    let map = map_of(&[".#.", ".#.", "###"]);
    // indices: (1,0)=0, (1,1)=1, (0,2)=2, (1,2)=3, (2,2)=4
    assert_eq!(map.vaporize_order(3), Some(vec![1, 4, 2, 0]));
}

#[test]
fn best_station_of_example() {
    let map = map_of(&[".#..#", ".....", "#####", "....#", "...##"]);
    assert_eq!(map.best_station(), Some((8, 8)));
    let a = map.asteroid(8).unwrap();
    assert_eq!((a.x(), a.y()), (3, 4));
    let empty = map_of(&["...", "..."]);
    assert_eq!(empty.best_station(), None);
}

#[test]
fn detection_is_symmetric() {
    let map = map_of(&[".#..#", ".....", "#####", "....#", "...##"]);
    for i in 0..map.asteroid_count() {
        for j in 0..map.asteroid_count() {
            assert_eq!(map.detect_ind(i, j), map.detect_ind(j, i));
        }
    }
    // Asteroid 2 at (0, 2) sees 3 first, then 4, 5, 6 behind it.
    assert_eq!((map.detect_ind(2, 3), map.detect_ind(2, 6)), (1, 4));
}
