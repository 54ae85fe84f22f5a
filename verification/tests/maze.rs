use aoc::y19_maze::{
    find_gate, find_shortest_path, parse_maze, Direction, Error, Maze, MazeMapBuilder, MazePosition,
    MazeStep, MazeWalker, PlainMaze, Position, RecursiveMaze, TileType,
};

const SMALL: [&str; 19] = [
    "         A           ",
    "         A           ",
    "  #######.#########  ",
    "  #######.........#  ",
    "  #######.#######.#  ",
    "  #######.#######.#  ",
    "  #######.#######.#  ",
    "  #####  B    ###.#  ",
    "BC...##  C    ###.#  ",
    "  ##.##       ###.#  ",
    "  ##...DE  F  ###.#  ",
    "  #####    G  ###.#  ",
    "  #########.#####.#  ",
    "DE..#######...###.#  ",
    "  #.#########.###.#  ",
    "FG..#########.....#  ",
    "  ###########.#####  ",
    "             Z       ",
    "             Z       ",
];

const RECURSIVE: [&str; 37] = [
    "             Z L X W       C                 ",
    "             Z P Q B       K                 ",
    "  ###########.#.#.#.#######.###############  ",
    "  #...#.......#.#.......#.#.......#.#.#...#  ",
    "  ###.#.#.#.#.#.#.#.###.#.#.#######.#.#.###  ",
    "  #.#...#.#.#...#.#.#...#...#...#.#.......#  ",
    "  #.###.#######.###.###.#.###.###.#.#######  ",
    "  #...#.......#.#...#...#.............#...#  ",
    "  #.#########.#######.#.#######.#######.###  ",
    "  #...#.#    F       R I       Z    #.#.#.#  ",
    "  #.###.#    D       E C       H    #.#.#.#  ",
    "  #.#...#                           #...#.#  ",
    "  #.###.#                           #.###.#  ",
    "  #.#....OA                       WB..#.#..ZH",
    "  #.###.#                           #.#.#.#  ",
    "CJ......#                           #.....#  ",
    "  #######                           #######  ",
    "  #.#....CK                         #......IC",
    "  #.###.#                           #.###.#  ",
    "  #.....#                           #...#.#  ",
    "  ###.###                           #.#.#.#  ",
    "XF....#.#                         RF..#.#.#  ",
    "  #####.#                           #######  ",
    "  #......CJ                       NM..#...#  ",
    "  ###.#.#                           #.###.#  ",
    "RE....#.#                           #......RF",
    "  ###.###        X   X       L      #.#.#.#  ",
    "  #.....#        F   Q       P      #.#.#.#  ",
    "  ###.###########.###.#######.#########.###  ",
    "  #.....#...#.....#.......#...#.....#.#...#  ",
    "  #####.#.###.#######.#######.###.###.#.#.#  ",
    "  #.......#.......#.#.#.#.#...#...#...#.#.#  ",
    "  #####.###.#####.#.#.#.#.###.###.#.###.###  ",
    "  #.......#.....#.#...#...............#...#  ",
    "  #############.#.#.###.###################  ",
    "               A O F   N                     ",
    "               A A D   M                     ",
];

fn rows_of(lines: &[&str]) -> Vec<Vec<char>> {
    lines.iter().map(|l| l.chars().collect()).collect()
}

fn walk(maze: &dyn Fn(&MazePosition, &MazeStep) -> Option<MazePosition>, from: MazePosition, path: &[MazeStep]) -> Option<MazePosition> {
    let mut cur = from;
    for step in path {
        cur = maze(&cur, step)?;
    }
    Some(cur)
}

fn step_in<M: Maze>(maze: &M) -> impl Fn(&MazePosition, &MazeStep) -> Option<MazePosition> + '_ {
    move |cur, step| match step {
        MazeStep::Move(d) => {
            let next = cur.move_along(*d)?;
            if maze.can_pass(&next) {
                Some(next)
            } else {
                None
            }
        }
        MazeStep::Warp(w) => {
            if maze.warp_pos(cur) == Some(*w) {
                Some(*w)
            } else {
                None
            }
        }
    }
}

#[test]
fn small_maze_is_read() {
    let rows = rows_of(&SMALL);
    let maze = parse_maze(&rows, "AA", "ZZ").unwrap();
    // The first two lines hold no tile: the maze starts at line 2.
    assert_eq!(*maze.start_pos(), MazePosition::new(&Position::new(9, 0), 0));
    assert_eq!(*maze.stop_pos(), MazePosition::new(&Position::new(13, 14), 0));
    assert_eq!(maze.tile(&MazePosition::new(&Position::new(2, 0), 0)), Some(&TileType::Wall));
    assert_eq!(maze.tile(&MazePosition::new(&Position::new(0, 0), 0)), None);
    assert_eq!(
        maze.tile(&MazePosition::new(&Position::new(9, 0), 0)),
        Some(&TileType::Gate("AA".to_string(), None))
    );
    // The two BC gates warp to each other.
    assert_eq!(
        maze.tile(&MazePosition::new(&Position::new(9, 4), 0)),
        Some(&TileType::Gate("BC".to_string(), Some(Position::new(2, 6))))
    );
    assert_eq!(
        maze.tile(&MazePosition::new(&Position::new(2, 6), 0)),
        Some(&TileType::Gate("BC".to_string(), Some(Position::new(9, 4))))
    );
    assert!(maze.is_gate(&MazePosition::new(&Position::new(2, 6), 3)));
    assert!(maze.can_pass(&MazePosition::new(&Position::new(3, 6), 0)));
    assert!(!maze.can_pass(&MazePosition::new(&Position::new(2, 5), 0)));
    assert_eq!(
        maze.warp_pos(&MazePosition::new(&Position::new(2, 6), 3)),
        Some(MazePosition::new(&Position::new(9, 4), 3))
    );
}

#[test]
fn small_maze_shortest_path() {
    let rows = rows_of(&SMALL);
    let maze = parse_maze(&rows, "AA", "ZZ").unwrap();
    let path = find_shortest_path(&maze).unwrap();
    assert_eq!(path.len(), 23);
    let end = walk(&step_in(&maze), *maze.start_pos(), &path);
    assert_eq!(end, Some(*maze.stop_pos()));
}

#[test]
fn recursive_maze_shortest_path() {
    let rows = rows_of(&RECURSIVE);
    let maze = RecursiveMaze::new(parse_maze(&rows, "AA", "ZZ").unwrap());
    let path = find_shortest_path(&maze).unwrap();
    assert_eq!(path.len(), 396);
    let end = walk(&step_in(&maze), *maze.start_pos(), &path);
    assert_eq!(end, Some(*maze.stop_pos()));
}

#[test]
fn recursive_maze_walls_outer_gates_on_top() {
    let rows = rows_of(&SMALL);
    let maze = RecursiveMaze::new(parse_maze(&rows, "AA", "ZZ").unwrap());
    // BC at (2, 6) is an outer gate: a wall on the top level.
    assert!(!maze.can_pass(&MazePosition::new(&Position::new(2, 6), 0)));
    assert!(maze.can_pass(&MazePosition::new(&Position::new(2, 6), 1)));
    // BC at (9, 4) is an inner gate: it leads one level down.
    assert_eq!(
        maze.warp_pos(&MazePosition::new(&Position::new(9, 4), 0)),
        Some(MazePosition::new(&Position::new(2, 6), 1))
    );
    assert_eq!(
        maze.warp_pos(&MazePosition::new(&Position::new(2, 6), 1)),
        Some(MazePosition::new(&Position::new(9, 4), 0))
    );
    // Below the top level the start gate is a wall.
    assert!(!maze.can_pass(&MazePosition::new(&Position::new(9, 0), 1)));
    assert!(maze.is_gate(&MazePosition::new(&Position::new(9, 0), 0)));
}

#[test]
fn maze_errors() {
    let rows = rows_of(&["  #.*  "]);
    assert!(matches!(parse_maze(&rows, "AA", "ZZ"), Err(Error::InvalidCharInMap('*'))));
    let rows = rows_of(&["  AB  "]);
    assert!(matches!(parse_maze(&rows, "AA", "ZZ"), Err(Error::NoPositionForGate(_, _))));
    let rows = rows_of(&["      "]);
    assert!(matches!(parse_maze(&rows, "AA", "ZZ"), Err(Error::NoMapInGivenInput)));
    let rows = rows_of(&["ZZ..#"]);
    assert!(matches!(parse_maze(&rows, "AA", "ZZ"), Err(Error::NoStartGateInMap(n)) if n == "AA"));
    let rows = rows_of(&["AA..#"]);
    assert!(matches!(parse_maze(&rows, "AA", "ZZ"), Err(Error::NoStopGateInMap(n)) if n == "ZZ"));
    let rows = rows_of(&["AA..BC", "ZZ..##"]);
    assert!(matches!(parse_maze(&rows, "AA", "ZZ"), Err(Error::FoundLoneGatesInMap(g)) if g.len() == 1));
}

#[test]
fn no_path_through_maze() {
    let rows = rows_of(&["AA.#.ZZ"]);
    let maze = parse_maze(&rows, "AA", "ZZ").unwrap();
    assert!(matches!(find_shortest_path(&maze), Err(Error::NoPathToWalkThroughMaze)));
}

#[test]
fn gate_names_are_found() {
    let rows = rows_of(&SMALL);
    let mut visited = Vec::new();
    let (name, pos) = find_gate(&rows, &Position::new(9, 0), &mut visited).unwrap();
    assert_eq!(name, "AA");
    assert_eq!(pos, Position::new(9, 2));
    assert_eq!(visited, vec![Position::new(9, 0), Position::new(9, 1)]);
    let mut visited = Vec::new();
    let (name, pos) = find_gate(&rows, &Position::new(0, 8), &mut visited).unwrap();
    assert_eq!(name, "BC");
    assert_eq!(pos, Position::new(2, 8));
    let (name, pos) = find_gate(&rows, &Position::new(7, 10), &mut visited).unwrap();
    assert_eq!(name, "DE");
    assert_eq!(pos, Position::new(6, 10));
}

#[test]
fn builder_keeps_runs() {
    let mut b = MazeMapBuilder::new();
    assert!(matches!(b.put_tile(TileType::Wall), Err(Error::InvalidMapBuilderState(s, _)) if s == "Idle"));
    b.new_row().unwrap();
    b.put_hole().unwrap();
    b.put_tile(TileType::Wall).unwrap();
    b.put_tile(TileType::Empty).unwrap();
    b.put_hole().unwrap();
    b.put_tile(TileType::Wall).unwrap();
    b.new_row().unwrap();
    b.put_hole().unwrap();
    let map = b.build().unwrap();
    assert_eq!(map.len(), 1);
    assert_eq!(map[0].tile(0), None);
    assert_eq!(map[0].tile(1), Some(&TileType::Wall));
    assert_eq!(map[0].tile(2), Some(&TileType::Empty));
    assert_eq!(map[0].tile(3), None);
    assert_eq!(map[0].tile(4), Some(&TileType::Wall));
    assert_eq!(map[0].tile(5), None);
    let mut row = PlainMaze::new(map, &Position::new(2, 0), "AA", &Position::new(2, 0), "ZZ");
    assert!(row.tile_mut(&MazePosition::new(&Position::new(1, 0), 0), TileType::Empty));
    assert!(!row.tile_mut(&MazePosition::new(&Position::new(3, 0), 0), TileType::Empty));
    assert_eq!(row.tile(&MazePosition::new(&Position::new(1, 0), 0)), Some(&TileType::Empty));
}

#[test]
fn positions_move_and_shift() {
    let p = Position::new(3, 0);
    assert_eq!(p.move_along(Direction::North), None);
    assert_eq!(p.move_along(Direction::South), Some(Position::new(3, 1)));
    assert_eq!(p.move_along(Direction::West), Some(Position::new(2, 0)));
    assert_eq!(p.remove_offset(1, 0), Some(Position::new(2, 0)));
    assert_eq!(p.remove_offset(0, 1), None);
    assert_eq!((p.x(), p.y(), p.r(), p.c()), (3, 0, 0, 3));
    assert!(matches!(Direction::East.reverse(), Direction::West));
}

#[test]
fn small_maze_as_text() {
    let rows = rows_of(&SMALL);
    let maze = parse_maze(&rows, "AA", "ZZ").unwrap();
    let text = maze.to_text();
    let lines: Vec<&str> = text.lines().collect();
    assert_eq!(lines[0].trim_end(), "  #######O#########");
    assert_eq!(lines[5].trim_end(), "  #####       ###.#");
    assert_eq!(lines[6].trim_end(), "  O..##       ###.#");
    assert!(text.chars().all(|c| "#.O \n".contains(c)));
}

#[test]
fn walker_finds_every_gate_it_can_walk_to() {
    let rows = rows_of(&SMALL);
    let maze = parse_maze(&rows, "AA", "ZZ").unwrap();
    let walker = MazeWalker::new(maze.start_pos());
    let found = walker.bfs_for_gates(&maze);
    let mut gates: Vec<MazePosition> = found.iter().map(|(g, _)| *g).collect();
    gates.sort_by_key(|g| (g.pos_in_level.1, g.pos_in_level.0));
    assert_eq!(
        gates,
        vec![
            MazePosition::new(&Position::new(9, 4), 0),
            MazePosition::new(&Position::new(11, 10), 0),
            MazePosition::new(&Position::new(13, 14), 0),
        ]
    );
    for (g, path) in &found {
        assert_eq!(walk(&step_in(&maze), *maze.start_pos(), path), Some(*g));
    }
}
