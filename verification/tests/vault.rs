use aoc::y19_vault::{
    bfs_for_keys, find_shortest_collect_path, split_entrance, CollectorTeam, Direction, Error,
    KeyPaths, Position, TileType, VaultMap,
};

fn steps(paths: &Vec<Vec<Direction>>) -> usize {
    paths.iter().map(|p| p.len()).sum()
}

#[test]
fn small_vault() {
    let lines = vec!["#########", "#b.A.@.a#", "#########"];
    let map = VaultMap::try_from_lines(&lines).unwrap();
    assert_eq!(map.entrance_n(), 1);
    assert_eq!(map.entrance_pos(), vec![Position::new(5, 1)]);
    let paths = find_shortest_collect_path(&map).unwrap();
    assert_eq!(steps(&paths), 8);
}

#[test]
fn larger_vault() {
    let lines = vec![
        "########################",
        "#f.D.E.e.C.b.A.@.a.B.c.#",
        "######################.#",
        "#d.....................#",
        "########################",
    ];
    let map = VaultMap::try_from_lines(&lines).unwrap();
    let paths = find_shortest_collect_path(&map).unwrap();
    assert_eq!(steps(&paths), 86);
}

#[test]
fn split_vault() {
    let lines = vec![
        "#######", "#a.#Cd#", "##...##", "##.@.##", "##...##", "#cB#Ab#", "#######",
    ];
    let mut map = VaultMap::try_from_lines(&lines).unwrap();
    split_entrance(&mut map);
    assert_eq!(map.entrance_n(), 4);
    assert_eq!(*map.tile(&Position::new(3, 3)), TileType::Wall);
    assert_eq!(*map.tile(&Position::new(3, 2)), TileType::Wall);
    assert_eq!(
        map.entrance_pos(),
        vec![Position::new(2, 2), Position::new(2, 4), Position::new(4, 2), Position::new(4, 4)]
    );
    let paths = find_shortest_collect_path(&map).unwrap();
    assert_eq!(paths.len(), 4);
    assert_eq!(steps(&paths), 8);
}

#[test]
fn vault_errors() {
    assert!(matches!(VaultMap::try_from_lines(&vec!["#.#", "#."]), Err(Error::InconsistentRowInMap(2, 3))));
    assert!(matches!(VaultMap::try_from_lines(&vec!["#@@"]), Err(Error::MultipleEntrancesInMap(2, 1))));
    assert!(matches!(VaultMap::try_from_lines(&vec!["#.*"]), Err(Error::InvalidMapChar('*'))));
    assert!(matches!(VaultMap::try_from_lines(&vec!["#.#"]), Err(Error::NoEntranceInMap)));
}

#[test]
fn keys_and_doors() {
    assert_eq!(TileType::try_from_char('D').unwrap(), TileType::Door('D'));
    assert_eq!(TileType::try_from_char('d').unwrap(), TileType::Key('d'));
    assert_eq!(TileType::Door('Q').key_of_door(), Some('q'));
    assert_eq!(TileType::Key('q').key_of_door(), None);
    assert!(matches!(Direction::North.reverse(), Direction::South));
}

#[test]
fn keys_found_from_entrance() {
    let lines = vec!["#########", "#b.A.@.a#", "#########"];
    let map = VaultMap::try_from_lines(&lines).unwrap();
    let found = bfs_for_keys(&Position::new(5, 1), &map);
    let a = found.iter().find(|(k, _, _)| *k == 'a').unwrap();
    assert!(a.1.is_empty());
    assert_eq!(a.2, vec![Direction::East, Direction::East]);
    let b = found.iter().find(|(k, _, _)| *k == 'b').unwrap();
    assert_eq!(b.1, vec!['a']);
    assert_eq!(b.2.len(), 4);
    let mut team = CollectorTeam::new(&map.entrance_pos());
    let mut paths = KeyPaths::new();
    assert_eq!(team.search_keys(&map, &mut paths), vec![vec!['a']]);
    team.move_mem_to_key(0, 'a', &map, &paths);
    assert_eq!(team.steps_n(), 2);
    assert_eq!(team.search_keys(&map, &mut paths), vec![vec!['b']]);
}

#[test]
fn first_fault_in_reading_order_is_reported() {
    assert!(matches!(VaultMap::try_from_lines(&vec!["#@*", "#."]), Err(Error::InvalidMapChar('*'))));
    assert!(matches!(VaultMap::try_from_lines(&vec!["#.", "#@@"]), Err(Error::InconsistentRowInMap(3, 2))));
    assert!(matches!(VaultMap::try_from_lines(&vec!["@.*", "@.."]), Err(Error::InvalidMapChar('*'))));
    assert!(matches!(VaultMap::try_from_lines(&vec!["@..", "@.*"]), Err(Error::MultipleEntrancesInMap(3, 0))));
}

#[test]
fn key_ways_are_shortest() {
    // Two ways lead to the key: around the wall (long) and straight (short).
    let lines = vec!["#######", "#@...a#", "#.###.#", "#.....#", "#######"];
    let map = VaultMap::try_from_lines(&lines).unwrap();
    let found = bfs_for_keys(&Position::new(1, 1), &map);
    let a = found.iter().find(|(k, _, _)| *k == 'a').unwrap();
    assert_eq!(a.2.len(), 4);
}
