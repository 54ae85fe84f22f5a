use aoc::y19_asteroids::{gcd_u64, AsteroidMap, Error};

fn example() -> AsteroidMap {
    let lines: Vec<String> = [".#..#", ".....", "#####", "....#", "...##"].iter().map(|s| s.to_string()).collect();
    match AsteroidMap::from_lines(&lines) {
        Ok(m) => m,
        Err(_) => panic!("map should read"),
    }
}

#[test]
fn detect_counts_of_example() {
    let map = example();
    assert_eq!(map.asteroid_count(), 10);
    let counts: Vec<usize> = (0..10).map(|i| map.detect_count(i).unwrap()).collect();
    assert_eq!(counts, vec![7, 7, 6, 7, 7, 7, 5, 7, 8, 7]);
    assert_eq!(map.detect_count(10), None);
    let best = map.asteroid(8).unwrap();
    assert_eq!((best.x(), best.y()), (3, 4));
}

#[test]
fn detect_ind_counts_hidden() {
    let map = example();
    assert_eq!(map.detect_ind(2, 2), 0);
    assert_eq!(map.detect_ind(2, 3), 1);
    assert_eq!(map.detect_ind(2, 6), 4);
    assert_eq!(map.detect_ind(6, 2), 4);
}

#[test]
fn invalid_character() {
    let lines = vec![".#".to_string(), "#x".to_string()];
    assert!(matches!(AsteroidMap::from_lines(&lines), Err(Error::InvalidCharacterInMap(1, 1, 'x'))));
}

#[test]
fn gcd_values() {
    assert_eq!(gcd_u64(12, 18), 6);
    assert_eq!(gcd_u64(0, 7), 7);
    assert_eq!(gcd_u64(13, 5), 1);
}
