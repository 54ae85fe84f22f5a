use aoc::y19_eris::{AreaBuilder, Direction, Error, Position, TileType};

fn build(rows: &[&str]) -> aoc::y19_eris::Area {
    let mut builder = AreaBuilder::new();
    for r in rows {
        assert!(builder.push_row(r).is_ok());
    }
    match builder.build() {
        Ok(area) => area,
        Err(_) => panic!("area should build"),
    }
}

#[test]
fn bio_rating_of_example() {
    let area = build(&[".....", ".....", ".....", "#....", ".#..."]);
    assert_eq!(area.bio_rating(), 2129920);
}

#[test]
fn one_step_of_example() {
    let mut area = build(&["....#", "#..#.", "#..##", "..#..", "#...."]);
    area.step();
    let expect = build(&["#..#.", "####.", "###.#", "##.##", ".##.."]);
    assert_eq!(area.bio_rating(), expect.bio_rating());
}

#[test]
fn push_row_errors() {
    let mut builder = AreaBuilder::new();
    assert!(builder.push_row("..#").is_ok());
    assert!(matches!(builder.push_row("...."), Err(Error::InconsistentRowInArea(4, 3))));
    assert!(matches!(builder.push_row(".x."), Err(Error::InvalidTileTypeChar('x'))));
}

#[test]
fn too_many_tiles() {
    let mut builder = AreaBuilder::new();
    let row = "#".repeat(100);
    assert!(builder.push_row(&row).is_ok());
    assert!(matches!(builder.build(), Err(Error::OverflowedArea(100))));
}

#[test]
fn tiles_and_positions() {
    assert!(matches!(TileType::from_char('#'), Ok(TileType::Infested)));
    assert!(matches!(TileType::from_char('.'), Ok(TileType::Empty)));
    let p = Position::new(0, 3);
    assert_eq!(p.adjacent(Direction::Up), None);
    assert_eq!(p.adjacent(Direction::Down), Some(Position::new(1, 3)));
    assert_eq!(p.adjacent(Direction::Left), Some(Position::new(0, 2)));
    assert_eq!(p.adjacent(Direction::Right), Some(Position::new(0, 4)));
}

#[test]
fn first_repeated_rating_of_example() {
    let mut area = build(&["....#", "#..#.", "#..##", "..#..", "#...."]);
    let (steps, rating) = area.first_repeated_rating().unwrap();
    assert_eq!(rating, 2129920);
    assert!(steps > 0);
    assert_eq!(area.bio_rating(), 2129920);
}

#[test]
fn area_as_text() {
    let mut area = build(&["....#", "#..#.", "#..##", "..#..", "#...."]);
    assert_eq!(area.to_text(), "....#\n#..#.\n#..##\n..#..\n#....\n");
    area.step();
    assert_eq!(area.to_text(), "#..#.\n####.\n###.#\n##.##\n.##..\n");
}
