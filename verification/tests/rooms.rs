use aoc::y18_rooms::{
    bfs, lex_path_exp, parse_path_exp_iter, parse_path_exp_recur, Direction, Error, PathExpToken,
    PathNode, Position, Room, RoomMap,
};

#[test]
fn lex_tokens() {
    let tokens = match lex_path_exp("xx^N(E|W)S$ignored") {
        Ok(t) => t,
        Err(_) => panic!("should lex"),
    };
    assert_eq!(
        tokens,
        vec![
            PathExpToken::Path("N".to_string()),
            PathExpToken::OpLParen,
            PathExpToken::Path("E".to_string()),
            PathExpToken::OpOr,
            PathExpToken::Path("W".to_string()),
            PathExpToken::OpRParen,
            PathExpToken::Path("S".to_string()),
        ]
    );
}

#[test]
fn lex_errors() {
    assert!(matches!(lex_path_exp("NEWS"), Err(Error::NoBeginInPathExp)));
    assert!(matches!(lex_path_exp("^NEWS"), Err(Error::NoEndInPathExp)));
    assert!(matches!(lex_path_exp("^NEX$"), Err(Error::InvalidCharInInput { ind: 3, c: 'X' })));
}

#[test]
fn parsers_agree_on_example() {
    let tokens = lex_path_exp("^ENWWW(NEEE|SSE(EE|N))$").ok().unwrap();
    let (n0, node0) = parse_path_exp_recur(&tokens).ok().unwrap();
    let (n1, _) = parse_path_exp_iter(&tokens).ok().unwrap();
    assert_eq!(n0, tokens.len());
    assert_eq!(n1, tokens.len());
    assert!(matches!(node0, PathNode::PathLeading { .. }));
}

#[test]
fn parser_errors() {
    let tokens = vec![PathExpToken::OpOr];
    assert!(matches!(parse_path_exp_recur(&tokens), Err(Error::InvalidTokenInExpParsing(PathExpToken::OpOr))));
    let tokens = vec![PathExpToken::OpLParen, PathExpToken::Path("N".to_string())];
    assert!(matches!(parse_path_exp_recur(&tokens), Err(Error::InvalidEndInBranchParsing)));
}

#[test]
fn empty_alternative() {
    let tokens = lex_path_exp("^N(E|)$").ok().unwrap();
    let (n, _) = parse_path_exp_recur(&tokens).ok().unwrap();
    assert_eq!(n, tokens.len());
}

#[test]
fn positions_and_rooms() {
    let p = Position::new(0, 0);
    assert_eq!(p.step_dir(Direction::North), Position::new(-1, 0));
    assert_eq!(p.step_dir(Direction::East), Position::new(0, 1));
    assert_eq!(Direction::West.opposite(), Direction::East);
    let mut room = Room::with_pos(&p);
    room.connect(Direction::South);
    room.connect(Direction::West);
    assert_eq!(room.neighbors_pos(), vec![Position::new(0, -1), Position::new(1, 0)]);
}

#[test]
fn room_map_and_bfs() {
    let mut map = RoomMap::new();
    let o = Position::new(0, 0);
    let a = map.add_pass(&o, Direction::East);
    let b = map.add_pass(&a, Direction::East);
    let c = map.add_pass(&o, Direction::North);
    assert_eq!(map.len(), 4);
    let mat = map.neighbor_mat();
    let paths = bfs(&o, &mat);
    assert_eq!(paths.len(), 4);
    for (end, path) in &paths {
        if *end == b {
            assert_eq!(path, &vec![a, b]);
        } else if *end == c {
            assert_eq!(path, &vec![c]);
        } else if *end == o {
            assert!(path.is_empty());
        }
    }
}

fn furthest_room(exp: &str) -> usize {
    let tokens = lex_path_exp(exp).ok().unwrap();
    let (n, node) = parse_path_exp_iter(&tokens).ok().unwrap();
    assert_eq!(n, tokens.len());
    let map = aoc::y18_rooms::chart_from_origin(&node).ok().unwrap();
    let paths = bfs(&Position::new(0, 0), &map.neighbor_mat());
    paths.iter().map(|(_, p)| p.len()).max().unwrap()
}

#[test]
fn furthest_rooms_of_examples() {
    assert_eq!(furthest_room("^WNE$"), 3);
    assert_eq!(furthest_room("^ENWWW(NEEE|SSE(EE|N))$"), 10);
    assert_eq!(furthest_room("^ENNWSWW(NEWS|)SSSEEN(WNSE|)EE(SWEN|)NNN$"), 18);
    assert_eq!(furthest_room("^ESSWWN(E|NNENN(EESS(WNSE|)SSS|WWWSSSSE(SW|NNNE)))$"), 23);
    assert_eq!(furthest_room("^WSSEESWWWNW(S|NENNEEEENN(ESSSSW(NWSW|SSEN)|WSWWN(E|WWS(E|SS))))$"), 31);
}
