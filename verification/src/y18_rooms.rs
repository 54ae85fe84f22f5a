//! Rooms of a base charted by a regular expression of the routes through
//! it: the expression is read into tokens, parsed into a tree, and walked
//! to open the doors between rooms; a breadth-first search then finds the
//! way to every room.

use vstd::prelude::*;
use crate::text::string_from_chars;
use crate::search::{bfs_depth, lemma_bfs_depth_push};

verus! {

/// A room: row `r` (north is smaller) and column `c` (west is smaller).
#[derive(Debug, Clone, Copy, PartialEq, Eq, Hash, Structural)]
pub struct Position {
    pub r: isize,
    pub c: isize,
}

/// The four ways out of a room.
#[derive(Debug, Clone, Copy, PartialEq, Eq, Structural)]
pub enum Direction {
    North,
    West,
    East,
    South,
}

/// The room one step from `p` in direction `d`.
/// At the limits of `isize` the room stays where it is.
pub open spec fn step_spec(p: Position, d: Direction) -> Position {
    match d {
        Direction::North => Position { r: if p.r > isize::MIN { (p.r - 1) as isize } else { p.r }, c: p.c },
        Direction::West => Position { r: p.r, c: if p.c > isize::MIN { (p.c - 1) as isize } else { p.c } },
        Direction::East => Position { r: p.r, c: if p.c < isize::MAX { (p.c + 1) as isize } else { p.c } },
        Direction::South => Position { r: if p.r < isize::MAX { (p.r + 1) as isize } else { p.r }, c: p.c },
    }
}

/// Whether a step from `p` in direction `d` stays within `isize`.
pub open spec fn can_step(p: Position, d: Direction) -> bool {
    match d {
        Direction::North => p.r > isize::MIN,
        Direction::West => p.c > isize::MIN,
        Direction::East => p.c < isize::MAX,
        Direction::South => p.r < isize::MAX,
    }
}

impl Position {
    pub fn new(r: isize, c: isize) -> (res: Position)
        ensures
            res == (Position { r, c }),
    {
        Position { r, c }
    }

    /// The room one step away in direction `dir`.
    pub fn step_dir(&self, dir: Direction) -> (res: Position)
        requires
            can_step(*self, dir),
        ensures
            res == step_spec(*self, dir),
    {
        match dir {
            Direction::North => Position { r: self.r - 1, c: self.c },
            Direction::West => Position { r: self.r, c: self.c - 1 },
            Direction::East => Position { r: self.r, c: self.c + 1 },
            Direction::South => Position { r: self.r + 1, c: self.c },
        }
    }
}

/// The direction back.
pub open spec fn opposite_spec(d: Direction) -> Direction {
    match d {
        Direction::North => Direction::South,
        Direction::West => Direction::East,
        Direction::East => Direction::West,
        Direction::South => Direction::North,
    }
}

/// Place of a direction among the doors of a room: north, west, east, south.
pub open spec fn dir_ind_spec(d: Direction) -> int {
    match d {
        Direction::North => 0,
        Direction::West => 1,
        Direction::East => 2,
        Direction::South => 3,
    }
}

/// The direction at place `i` among the doors of a room.
pub open spec fn ind_dir_spec(i: int) -> Direction {
    if i == 0 {
        Direction::North
    } else if i == 1 {
        Direction::West
    } else if i == 2 {
        Direction::East
    } else {
        Direction::South
    }
}

impl Direction {
    /// The direction back.
    pub fn opposite(self) -> (res: Self)
        ensures
            res == opposite_spec(self),
    {
        match self {
            Self::North => Self::South,
            Self::West => Self::East,
            Self::East => Self::West,
            Self::South => Self::North,
        }
    }

    /// The direction that a letter of a route stands for.
    pub fn from_char(value: char) -> (res: Result<Direction, Error>)
        ensures
            value == 'N' ==> res == Ok::<Direction, Error>(Direction::North),
            value == 'W' ==> res == Ok::<Direction, Error>(Direction::West),
            value == 'E' ==> res == Ok::<Direction, Error>(Direction::East),
            value == 'S' ==> res == Ok::<Direction, Error>(Direction::South),
            !is_dir_char(value) ==> res == Err::<Direction, Error>(Error::InvalidDirectionChar(value)),
    {
        match value {
            'N' => Ok(Direction::North),
            'W' => Ok(Direction::West),
            'E' => Ok(Direction::East),
            'S' => Ok(Direction::South),
            other => Err(Error::InvalidDirectionChar(other)),
        }
    }
}

/// Going there and back leads to the same room.
pub proof fn lemma_step_back(p: Position, d: Direction)
    requires
        can_step(p, d),
    ensures
        can_step(step_spec(p, d), opposite_spec(d)),
        step_spec(step_spec(p, d), opposite_spec(d)) == p,
        opposite_spec(opposite_spec(d)) == d,
{
}

/// Whether a character is the letter of a direction.
pub open spec fn is_dir_char(c: char) -> bool {
    c == 'N' || c == 'W' || c == 'E' || c == 'S'
}

/// The direction that a direction letter stands for.
pub open spec fn dir_of(c: char) -> Direction {
    if c == 'N' {
        Direction::North
    } else if c == 'W' {
        Direction::West
    } else if c == 'E' {
        Direction::East
    } else {
        Direction::South
    }
}

/// A token of the expression of routes.
#[derive(Debug, Clone, PartialEq, Eq)]
pub enum PathExpToken {
    /// A run of direction letters.
    Path(String),
    /// `(`
    OpLParen,
    /// `)`
    OpRParen,
    /// `|`
    OpOr,
}

/// Errors met while reading or parsing the routes.
#[derive(Debug)]
pub enum Error {
    /// The input held no line.
    EmptyInput(String),
    /// A door number that is not below four.
    InvalidIndexToRoomDirection(usize),
    /// A letter that is no direction.
    InvalidDirectionChar(char),
    /// A character that is no operator of the expression.
    PathExpTokenParseError(char),
    /// A character that does not belong in the expression, and its place.
    InvalidCharInInput { ind: usize, c: char },
    /// No `^` starts the expression.
    NoBeginInPathExp,
    /// No `$` ends the expression.
    NoEndInPathExp,
    /// A token that cannot start an expression.
    InvalidTokenInExpParsing(PathExpToken),
    /// The parser found no result where it needed one.
    EmptyResultStackInExpParsing,
    /// A group that is not closed by `)`, and the place where it should be.
    RParenNotFoundInBranchEnd(usize),
    /// A branch with no token left to read.
    EmptyTokensLeftInBranchParsing,
    /// A token that cannot follow an alternative of a branch.
    InvalidTokenInBranchParsing(PathExpToken),
    /// The tokens end inside a branch.
    InvalidEndInBranchParsing,
}

/// A room with its doors: north, west, east, south.
#[derive(Debug, Clone, Copy)]
pub struct Room {
    position: Position,
    connected: [bool; 4],
}

impl Room {
    pub closed spec fn position_spec(&self) -> Position {
        self.position
    }

    pub closed spec fn connected_spec(&self) -> Seq<bool> {
        self.connected@
    }

    /// A room at `position` with every door shut.
    pub fn with_pos(position: &Position) -> (res: Room)
        ensures
            res.position_spec() == *position,
            res.connected_spec() == seq![false, false, false, false],
    {
        Room { position: *position, connected: [false; 4] }
    }

    /// Opens the door in direction `dir`.
    pub fn connect(&mut self, dir: Direction)
        ensures
            final(self).position_spec() == old(self).position_spec(),
            final(self).connected_spec() == old(self).connected_spec().update(dir_ind_spec(dir), true),
    {
        let dir_ind = Self::dir_to_ind(dir);
        self.connected.set(dir_ind, true);
    }

    /// The rooms behind the open doors, in the order north, west, east, south.
    pub fn neighbors_pos(&self) -> (res: Vec<Position>)
        requires
            forall|k: int| 0 <= k < 4 && #[trigger] self.connected_spec()[k] ==> can_step(self.position_spec(), ind_dir_spec(k)),
        ensures
            res@ == open_neighbors(self.position_spec(), self.connected_spec(), 4),
    {
        let mut res: Vec<Position> = Vec::new();
        let mut ind: usize = 0;
        while ind < 4
            invariant
                ind <= 4,
                forall|k: int| 0 <= k < 4 && #[trigger] self.connected_spec()[k] ==> can_step(self.position_spec(), ind_dir_spec(k)),
                res@ == open_neighbors(self.position_spec(), self.connected_spec(), ind as int),
            decreases 4 - ind,
        {
            if self.connected[ind] {
                let dir = match Self::ind_to_dir(ind) {
                    Ok(d) => d,
                    Err(_) => Direction::North,
                };
                res.push(self.position.step_dir(dir));
            }
            ind = ind + 1;
        }
        res
    }

    fn dir_to_ind(dir: Direction) -> (res: usize)
        ensures
            res == dir_ind_spec(dir),
    {
        match dir {
            Direction::North => 0,
            Direction::West => 1,
            Direction::East => 2,
            Direction::South => 3,
        }
    }

    fn ind_to_dir(ind: usize) -> (res: Result<Direction, Error>)
        ensures
            ind < 4 ==> res == Ok::<Direction, Error>(ind_dir_spec(ind as int)),
            ind >= 4 ==> res == Err::<Direction, Error>(Error::InvalidIndexToRoomDirection(ind)),
    {
        match ind {
            0 => Ok(Direction::North),
            1 => Ok(Direction::West),
            2 => Ok(Direction::East),
            3 => Ok(Direction::South),
            other => Err(Error::InvalidIndexToRoomDirection(other)),
        }
    }
}

/// The rooms behind the open doors among the first `k` doors of a room.
pub open spec fn open_neighbors(p: Position, conn: Seq<bool>, k: int) -> Seq<Position>
    decreases k,
{
    if k <= 0 {
        Seq::empty()
    } else if conn[k - 1] {
        open_neighbors(p, conn, k - 1).push(step_spec(p, ind_dir_spec(k - 1)))
    } else {
        open_neighbors(p, conn, k - 1)
    }
}

/// The rooms of the base with their doors.
#[derive(Debug, Clone)]
pub struct RoomMap {
    rooms: Vec<Room>,
}

/// Doors that lead out of a room `p` with doors `conn` only by steps that
/// stay within `isize`.
pub open spec fn doors_ok(p: Position, conn: Seq<bool>) -> bool {
    forall|k: int| 0 <= k < 4 && #[trigger] conn[k] ==> can_step(p, ind_dir_spec(k))
}

impl RoomMap {
    /// No two rooms at one place, and every open door steps within `isize`.
    pub closed spec fn wf(&self) -> bool {
        &&& forall|i: int, j: int| 0 <= i < j < self.rooms.len() ==> self.rooms@[i].position != self.rooms@[j].position
        &&& forall|i: int| 0 <= i < self.rooms.len() ==> doors_ok((#[trigger] self.rooms@[i]).position, self.rooms@[i].connected@)
    }

    /// The places of the rooms, in the order they were found.
    pub closed spec fn positions(&self) -> Seq<Position> {
        self.rooms@.map_values(|r: Room| r.position)
    }

    /// Whether there is a room at `p`.
    pub open spec fn has_room(&self, p: Position) -> bool {
        self.positions().contains(p)
    }

    /// The doors of the room at `p`: all shut when there is no room.
    pub closed spec fn doors(&self, p: Position) -> Seq<bool> {
        if self.has_room(p) {
            self.rooms@[self.positions().index_of(p)].connected@
        } else {
            seq![false, false, false, false]
        }
    }

    proof fn lemma_room_at(&self, i: int)
        requires
            self.wf(),
            0 <= i < self.rooms.len(),
        ensures
            self.has_room(self.rooms@[i].position),
            self.doors(self.rooms@[i].position) == self.rooms@[i].connected@,
    {
        let p = self.rooms@[i].position;
        assert(self.positions()[i] == p);
        let j = self.positions().index_of(p);
        if j != i {
            assert(self.positions()[j] == p);
            if j < i {
                assert(self.rooms@[j].position != self.rooms@[i].position);
            } else {
                assert(self.rooms@[i].position != self.rooms@[j].position);
            }
        }
    }

    pub fn new() -> (res: RoomMap)
        ensures
            res.wf(),
            res.positions().len() == 0,
    {
        RoomMap { rooms: Vec::new() }
    }

    /// Number of rooms.
    pub fn len(&self) -> (res: usize)
        ensures
            res == self.positions().len(),
    {
        self.rooms.len()
    }

    /// Index of the room at `pos`, if there is one.
    fn find(&self, pos: &Position) -> (res: Option<usize>)
        requires
            self.wf(),
        ensures
            res is None ==> !self.has_room(*pos),
            res matches Some(i) ==> i < self.rooms.len() && self.rooms@[i as int].position == *pos,
    {
        let mut i: usize = 0;
        while i < self.rooms.len()
            invariant
                i <= self.rooms.len(),
                forall|k: int| 0 <= k < i ==> self.rooms@[k].position != *pos,
            decreases self.rooms.len() - i,
        {
            if self.rooms[i].position == *pos {
                return Some(i);
            }
            i = i + 1;
        }
        proof {
            if self.has_room(*pos) {
                let k = self.positions().index_of(*pos);
                assert(self.positions()[k] == *pos);
            }
        }
        None
    }

    /// Opens the door of room `pos` in direction `dir`, adding the room if
    /// it is new.
    fn open_door(&mut self, pos: &Position, dir: Direction)
        requires
            old(self).wf(),
            can_step(*pos, dir),
            doors_ok(*pos, old(self).doors(*pos)),
        ensures
            final(self).wf(),
            forall|p: Position| #[trigger] final(self).has_room(p) <==> (old(self).has_room(p) || p == *pos),
            forall|p: Position| #[trigger] final(self).doors(p) == if p == *pos {
                old(self).doors(p).update(dir_ind_spec(dir), true)
            } else {
                old(self).doors(p)
            },
    {
        let ghost pre = *self;
        match self.find(pos) {
            Some(i) => {
                proof {
                    pre.lemma_room_at(i as int);
                }
                let mut room = self.rooms[i];
                room.connect(dir);
                self.rooms.set(i, room);
                proof {
                    assert(self.positions() =~= pre.positions());
                    assert(forall|p: Position| #[trigger] self.has_room(p) == pre.has_room(p));
                    assert forall|a: int, b: int| 0 <= a < b < self.rooms.len() implies self.rooms@[a].position != self.rooms@[b].position by {
                        assert(pre.rooms@[a].position != pre.rooms@[b].position);
                    }
                    self.lemma_room_at(i as int);
                    assert forall|p: Position| #[trigger] self.doors(p) == if p == *pos {
                        pre.doors(p).update(dir_ind_spec(dir), true)
                    } else {
                        pre.doors(p)
                    } by {
                        if p != *pos && pre.has_room(p) {
                            let k = pre.positions().index_of(p);
                            assert(pre.positions()[k] == p);
                            pre.lemma_room_at(k);
                            self.lemma_room_at(k);
                        }
                    }
                }
            },
            None => {
                let mut room = Room::with_pos(pos);
                room.connect(dir);
                self.rooms.push(room);
                proof {
                    let n = pre.rooms.len() as int;
                    assert(self.positions() =~= pre.positions().push(*pos));
                    assert forall|p: Position| #[trigger] self.has_room(p) <==> (pre.has_room(p) || p == *pos) by {
                        if pre.has_room(p) {
                            let k = pre.positions().index_of(p);
                            assert(self.positions()[k] == p);
                        }
                        if p == *pos {
                            assert(self.positions()[n] == p);
                        }
                        if self.has_room(p) && p != *pos {
                            let k = self.positions().index_of(p);
                            assert(pre.positions()[k] == p);
                        }
                    }
                    assert forall|a: int, b: int| 0 <= a < b < self.rooms.len() implies self.rooms@[a].position != self.rooms@[b].position by {
                        if b == n {
                            assert(pre.positions()[a] == pre.rooms@[a].position);
                        } else {
                            assert(pre.rooms@[a].position != pre.rooms@[b].position);
                        }
                    }
                    self.lemma_room_at(n);
                    assert(self.doors(*pos) =~= seq![false, false, false, false].update(dir_ind_spec(dir), true));
                    assert forall|p: Position| #[trigger] self.doors(p) == if p == *pos {
                        pre.doors(p).update(dir_ind_spec(dir), true)
                    } else {
                        pre.doors(p)
                    } by {
                        if p != *pos && pre.has_room(p) {
                            let k = pre.positions().index_of(p);
                            assert(pre.positions()[k] == p);
                            pre.lemma_room_at(k);
                            self.lemma_room_at(k);
                        }
                    }
                }
            },
        }
    }

    /// Opens the door from `pos` in direction `dir` and the door back from
    /// the room behind it; gives that room.
    pub fn add_pass(&mut self, pos: &Position, dir: Direction) -> (res: Position)
        requires
            old(self).wf(),
            can_step(*pos, dir),
            doors_ok(*pos, old(self).doors(*pos)),
            doors_ok(step_spec(*pos, dir), old(self).doors(step_spec(*pos, dir))),
        ensures
            res == step_spec(*pos, dir),
            final(self).wf(),
            forall|p: Position| #[trigger] final(self).has_room(p) <==> (old(self).has_room(p) || p == *pos || p == res),
            forall|p: Position, k: int| 0 <= k < 4 ==> #[trigger] final(self).doors(p)[k] == (old(self).doors(p)[k]
                || (p == *pos && k == dir_ind_spec(dir)) || (p == res && k == dir_ind_spec(opposite_spec(dir)))),
    {
        let new_pos = pos.step_dir(dir);
        let ghost pre = *self;
        self.open_door(pos, dir);
        let ghost mid = *self;
        proof {
            lemma_step_back(*pos, dir);
            assert(new_pos != *pos);
            assert(mid.doors(new_pos) == pre.doors(new_pos));
        }
        self.open_door(&new_pos, dir.opposite());
        proof {
            assert forall|p: Position, k: int| 0 <= k < 4 implies #[trigger] self.doors(p)[k] == (pre.doors(p)[k]
                || (p == *pos && k == dir_ind_spec(dir)) || (p == new_pos && k == dir_ind_spec(opposite_spec(dir)))) by {
                assert(mid.doors(p) == if p == *pos { pre.doors(p).update(dir_ind_spec(dir), true) } else { pre.doors(p) });
                assert(pre.doors(p).len() == 4) by {
                    if pre.has_room(p) {
                        let j = pre.positions().index_of(p);
                        assert(pre.positions()[j] == p);
                    }
                }
            }
        }
        new_pos
    }

    /// Each room with the rooms behind its open doors.
    pub fn neighbor_mat(&self) -> (res: Vec<(Position, Vec<Position>)>)
        requires
            self.wf(),
        ensures
            res@.len() == self.positions().len(),
            forall|i: int| 0 <= i < res@.len() ==> (#[trigger] res@[i]).0 == self.positions()[i]
                && res@[i].1@ == open_neighbors(self.positions()[i], self.doors(self.positions()[i]), 4),
    {
        let mut mat: Vec<(Position, Vec<Position>)> = Vec::new();
        let mut i: usize = 0;
        while i < self.rooms.len()
            invariant
                self.wf(),
                i <= self.rooms.len(),
                mat@.len() == i,
                forall|k: int| 0 <= k < i ==> (#[trigger] mat@[k]).0 == self.positions()[k]
                    && mat@[k].1@ == open_neighbors(self.positions()[k], self.doors(self.positions()[k]), 4),
            decreases self.rooms.len() - i,
        {
            let room = self.rooms[i];
            proof {
                self.lemma_room_at(i as int);
                assert(self.positions()[i as int] == room.position);
            }
            mat.push((room.position, room.neighbors_pos()));
            i = i + 1;
        }
        mat
    }
}

/// The rooms named in a matrix of neighbours, in order.
pub open spec fn mat_keys(mat: Seq<(Position, Vec<Position>)>) -> Seq<Position> {
    mat.map_values(|e: (Position, Vec<Position>)| e.0)
}

/// Whether room `q` is listed as a neighbour of room `p`.
pub open spec fn adjacent(mat: Seq<(Position, Vec<Position>)>, p: Position, q: Position) -> bool {
    mat_keys(mat).contains(p) && mat[mat_keys(mat).index_of(p)].1@.contains(q)
}

/// Every room is listed once, and every neighbour is listed as a room.
pub open spec fn mat_ok(mat: Seq<(Position, Vec<Position>)>) -> bool {
    &&& forall|i: int, j: int| 0 <= i < j < mat.len() ==> mat[i].0 != mat[j].0
    &&& forall|i: int, k: int| 0 <= i < mat.len() && 0 <= k < mat[i].1@.len()
        ==> mat_keys(mat).contains(#[trigger] mat[i].1@[k])
}

/// Whether `path` leads from `beg` step by step through neighbours.
pub open spec fn is_walk(mat: Seq<(Position, Vec<Position>)>, beg: Position, path: Seq<Position>) -> bool {
    &&& path.len() > 0 ==> adjacent(mat, beg, path[0])
    &&& forall|i: int| 0 <= i < path.len() - 1 ==> adjacent(mat, #[trigger] path[i], path[i + 1])
}

/// Where a walk ends: its last room, or `beg` for the empty walk.
pub open spec fn walk_end(beg: Position, path: Seq<Position>) -> Position {
    if path.len() == 0 { beg } else { path.last() }
}

proof fn lemma_mat_lookup(mat: Seq<(Position, Vec<Position>)>, i: int)
    requires
        mat_ok(mat),
        0 <= i < mat.len(),
    ensures
        mat_keys(mat).contains(mat[i].0),
        mat_keys(mat).index_of(mat[i].0) == i,
{
    let p = mat[i].0;
    assert(mat_keys(mat)[i] == p);
    let j = mat_keys(mat).index_of(p);
    assert(mat_keys(mat)[j] == p);
    if j != i {
        if j < i {
            assert(mat[j].0 != mat[i].0);
        } else {
            assert(mat[i].0 != mat[j].0);
        }
    }
}

/// Index of room `p` in the matrix.
fn mat_find(mat: &Vec<(Position, Vec<Position>)>, p: &Position) -> (res: usize)
    requires
        mat_ok(mat@),
        mat_keys(mat@).contains(*p),
    ensures
        res < mat@.len(),
        mat@[res as int].0 == *p,
        res == mat_keys(mat@).index_of(*p),
{
    let mut i: usize = 0;
    while i < mat.len()
        invariant
            i <= mat.len(),
            mat_ok(mat@),
            mat_keys(mat@).contains(*p),
            forall|k: int| 0 <= k < i ==> mat@[k].0 != *p,
        decreases mat.len() - i,
    {
        if mat[i].0 == *p {
            proof {
                lemma_mat_lookup(mat@, i as int);
            }
            return i;
        }
        i = i + 1;
    }
    proof {
        let k = mat_keys(mat@).index_of(*p);
        assert(mat_keys(mat@)[k] == *p);
    }
    0
}

/// Whether room `q` is a node of the search at most one link deeper than
/// node `j`.
pub open spec fn room_close(nodes: Seq<Position>, parents: Seq<usize>, j: int, q: Position) -> bool {
    exists|b: int| 0 <= b < nodes.len() && #[trigger] nodes[b] == q && bfs_depth(parents, b) <= bfs_depth(parents, j) + 1
}

proof fn lemma_room_close_grow(nodes: Seq<Position>, parents: Seq<usize>, x: Position, h: usize, j: int, q: Position)
    requires
        room_close(nodes, parents, j, q),
        0 <= j < nodes.len(),
        nodes.len() == parents.len(),
    ensures
        room_close(nodes.push(x), parents.push(h), j, q),
{
    let b = choose|b: int| 0 <= b < nodes.len() && #[trigger] nodes[b] == q && bfs_depth(parents, b) <= bfs_depth(parents, j) + 1;
    lemma_bfs_depth_push(parents, h, b);
    lemma_bfs_depth_push(parents, h, j);
    assert(nodes.push(x)[b] == q);
}

/// From a search whose every node has its neighbours at most one link
/// deeper, a walk from node `a` ends on a node at most as many links deeper
/// than `a` as the walk is long.
proof fn lemma_room_walk(map: Seq<(Position, Vec<Position>)>, nodes: Seq<Position>, parents: Seq<usize>, a: int, w: Seq<Position>)
    requires
        forall|j: int, q: Position| 0 <= j < nodes.len() && #[trigger] adjacent(map, nodes[j], q)
            ==> room_close(nodes, parents, j, q),
        0 <= a < nodes.len(),
        is_walk(map, nodes[a], w),
    ensures
        exists|b: int| 0 <= b < nodes.len() && #[trigger] nodes[b] == walk_end(nodes[a], w)
            && bfs_depth(parents, b) <= bfs_depth(parents, a) + w.len(),
    decreases w.len(),
{
    if w.len() == 0 {
        assert(nodes[a] == walk_end(nodes[a], w));
    } else {
        assert(adjacent(map, nodes[a], w[0]));
        let b1 = choose|b: int| 0 <= b < nodes.len() && #[trigger] nodes[b] == w[0] && bfs_depth(parents, b) <= bfs_depth(parents, a) + 1;
        let w2 = w.drop_first();
        assert(is_walk(map, nodes[b1], w2)) by {
            if w2.len() > 0 {
                assert(adjacent(map, w[0], w[1]));
            }
            assert forall|i: int| 0 <= i < w2.len() - 1 implies adjacent(map, #[trigger] w2[i], w2[i + 1]) by {
                assert(adjacent(map, w[i + 1], w[i + 2]));
            }
        }
        lemma_room_walk(map, nodes, parents, b1, w2);
        assert(walk_end(nodes[b1], w2) == walk_end(nodes[a], w));
    }
}

/// Breadth-first search from `beg`: each room that can be reached, with a
/// shortest walk to it from `beg` (not counting `beg`, counting the room);
/// no walk passes `beg`, and the walk to `beg` itself is empty. Every room
/// reached must be listed in the matrix (its neighbours are looked up), as
/// a map of rooms is, where each room's open doors lead to rooms of it.
pub fn bfs(beg_pos: &Position, map: &Vec<(Position, Vec<Position>)>) -> (res: Vec<(Position, Vec<Position>)>)
    requires
        mat_ok(map@),
        mat_keys(map@).contains(*beg_pos),
    ensures
        forall|i: int| 0 <= i < res@.len() ==> is_walk(map@, *beg_pos, (#[trigger] res@[i]).1@)
            && walk_end(*beg_pos, res@[i].1@) == res@[i].0,
        forall|i: int, j: int| 0 <= i < j < res@.len() ==> res@[i].0 != res@[j].0,
        mat_keys(res@).contains(*beg_pos),
        forall|i: int, q: Position| 0 <= i < res@.len() && #[trigger] adjacent(map@, res@[i].0, q)
            ==> mat_keys(res@).contains(q),
        forall|i: int| 0 <= i < res@.len() && (#[trigger] res@[i]).0 == *beg_pos ==> res@[i].1@.len() == 0,
        forall|i: int, k: int| 0 <= i < res@.len() && 0 <= k < res@[i].1@.len() ==> #[trigger] res@[i].1@[k]
            != *beg_pos,
        forall|i: int, w: Seq<Position>|
            0 <= i < res@.len() && is_walk(map@, *beg_pos, w) && #[trigger] walk_end(*beg_pos, w) == (
            #[trigger] res@[i]).0 ==> res@[i].1@.len() <= w.len(),
{
    let mut nodes: Vec<Position> = Vec::new();
    let mut parents: Vec<usize> = Vec::new();
    nodes.push(*beg_pos);
    parents.push(0);
    let mut head: usize = 0;
    let n = map.len();
    while head < nodes.len()
        invariant
            mat_ok(map@),
            n == map@.len(),
            0 < nodes.len() <= n,
            parents.len() == nodes.len(),
            head <= nodes.len(),
            nodes@[0] == *beg_pos,
            forall|k: int| 0 <= k < nodes.len() ==> mat_keys(map@).contains(#[trigger] nodes@[k]),
            forall|a: int, b: int| 0 <= a < b < nodes.len() ==> nodes@[a] != nodes@[b],
            forall|k: int| 0 < k < nodes.len() ==> (#[trigger] parents@[k]) < k
                && adjacent(map@, nodes@[parents@[k] as int], nodes@[k]),
            forall|j: int, q: Position| 0 <= j < head && #[trigger] adjacent(map@, nodes@[j], q)
                ==> room_close(nodes@, parents@, j, q),
            forall|a: int, b: int| 0 <= a <= b < nodes.len() ==> bfs_depth(parents@, a) <= bfs_depth(parents@, b),
            head < nodes.len() ==> bfs_depth(parents@, nodes.len() - 1) <= bfs_depth(parents@, head as int) + 1,
        decreases n - head, n - nodes.len(),
    {
        let pos = nodes[head];
        let mi = mat_find(map, &pos);
        let neighbors = &map[mi].1;
        let mut k: usize = 0;
        while k < neighbors.len()
            invariant
                mat_ok(map@),
                n == map@.len(),
                0 < nodes.len() <= n,
                parents.len() == nodes.len(),
                head < nodes.len(),
                pos == nodes@[head as int],
                mi < n,
                map@[mi as int].0 == pos,
                mi == mat_keys(map@).index_of(pos),
                *neighbors == map@[mi as int].1,
                k <= neighbors.len(),
                nodes@[0] == *beg_pos,
                forall|kk: int| 0 <= kk < nodes.len() ==> mat_keys(map@).contains(#[trigger] nodes@[kk]),
                forall|a: int, b: int| 0 <= a < b < nodes.len() ==> nodes@[a] != nodes@[b],
                forall|kk: int| 0 < kk < nodes.len() ==> (#[trigger] parents@[kk]) < kk
                    && adjacent(map@, nodes@[parents@[kk] as int], nodes@[kk]),
                forall|j: int, q: Position| 0 <= j < head && #[trigger] adjacent(map@, nodes@[j], q)
                    ==> room_close(nodes@, parents@, j, q),
                forall|kk: int| 0 <= kk < k ==> room_close(nodes@, parents@, head as int, #[trigger] neighbors@[kk]),
                forall|a: int, b: int| 0 <= a <= b < nodes.len() ==> bfs_depth(parents@, a) <= bfs_depth(parents@, b),
                bfs_depth(parents@, nodes.len() - 1) <= bfs_depth(parents@, head as int) + 1,
            decreases neighbors.len() - k,
        {
            let neighbor = neighbors[k];
            let mut found = false;
            let mut j: usize = 0;
            while j < nodes.len()
                invariant
                    j <= nodes.len(),
                    found ==> nodes@.contains(neighbor),
                    !found ==> forall|jj: int| 0 <= jj < j ==> nodes@[jj] != neighbor,
                decreases nodes.len() - j,
            {
                if nodes[j] == neighbor {
                    found = true;
                    proof {
                        assert(nodes@[j as int] == neighbor);
                    }
                }
                j = j + 1;
            }
            proof {
                assert(mat_keys(map@).contains(map@[mi as int].1@[k as int]));
            }
            if !found {
                let ghost old_nodes = nodes@;
                let ghost old_parents = parents@;
                proof {
                    lemma_distinct_bound(nodes@, neighbor, map@);
                }
                nodes.push(neighbor);
                parents.push(head);
                proof {
                    assert(nodes@ == old_nodes.push(neighbor));
                    assert(parents@ == old_parents.push(head));
                    let last = nodes.len() - 1;
                    assert(adjacent(map@, pos, neighbor)) by {
                        assert(map@[mi as int].1@[k as int] == neighbor);
                    }
                    assert(nodes@[last] == neighbor);
                    lemma_bfs_depth_push(old_parents, head, head as int);
                    assert(bfs_depth(parents@, last) == bfs_depth(parents@, head as int) + 1);
                    assert forall|a: int, b: int| 0 <= a <= b < nodes.len() implies bfs_depth(parents@, a)
                        <= bfs_depth(parents@, b) by {
                        if a < last {
                            lemma_bfs_depth_push(old_parents, head, a);
                        }
                        if b < last {
                            lemma_bfs_depth_push(old_parents, head, b);
                            assert(bfs_depth(old_parents, a) <= bfs_depth(old_parents, b));
                        } else if a < last {
                            assert(bfs_depth(old_parents, a) <= bfs_depth(old_parents, last - 1));
                        }
                    }
                    assert forall|j: int, q: Position| 0 <= j < head && #[trigger] adjacent(map@, nodes@[j], q)
                        implies room_close(nodes@, parents@, j, q) by {
                        assert(nodes@[j] == old_nodes[j]);
                        lemma_room_close_grow(old_nodes, old_parents, neighbor, head, j, q);
                    }
                    assert forall|kk: int| 0 <= kk < k implies room_close(nodes@, parents@, head as int, #[trigger] neighbors@[kk]) by {
                        lemma_room_close_grow(old_nodes, old_parents, neighbor, head, head as int, neighbors@[kk]);
                    }
                }
            } else {
                proof {
                    let b = choose|b: int| 0 <= b < nodes.len() && nodes@[b] == neighbor;
                    assert(bfs_depth(parents@, b) <= bfs_depth(parents@, nodes.len() - 1));
                    assert(nodes@[b] == neighbor);
                }
            }
            proof {
                assert(neighbors@[k as int] == neighbor);
                assert(room_close(nodes@, parents@, head as int, neighbors@[k as int]));
            }
            k = k + 1;
        }
        proof {
            assert forall|j: int, q: Position| 0 <= j < head + 1 && #[trigger] adjacent(map@, nodes@[j], q)
                implies room_close(nodes@, parents@, j, q) by {
                if j == head {
                    let t = map@[mi as int].1@.index_of(q);
                    assert(neighbors@[t] == q);
                }
            }
            if head + 1 < nodes.len() {
                assert(bfs_depth(parents@, head as int) <= bfs_depth(parents@, head + 1));
            }
        }
        head = head + 1;
    }
    let mut res: Vec<(Position, Vec<Position>)> = Vec::new();
    let mut e: usize = 0;
    while e < nodes.len()
        invariant
            mat_ok(map@),
            0 < nodes.len(),
            head == nodes.len(),
            parents.len() == nodes.len(),
            nodes@[0] == *beg_pos,
            e <= nodes.len(),
            res@.len() == e,
            forall|a: int, b: int| 0 <= a < b < nodes.len() ==> nodes@[a] != nodes@[b],
            forall|kk: int| 0 < kk < nodes.len() ==> (#[trigger] parents@[kk]) < kk
                && adjacent(map@, nodes@[parents@[kk] as int], nodes@[kk]),
            forall|j: int, q: Position| 0 <= j < head && #[trigger] adjacent(map@, nodes@[j], q)
                ==> room_close(nodes@, parents@, j, q),
            forall|i: int| 0 <= i < e ==> (#[trigger] res@[i]).0 == nodes@[i] && is_walk(map@, *beg_pos, res@[i].1@)
                && walk_end(*beg_pos, res@[i].1@) == res@[i].0 && res@[i].1@.len() == bfs_depth(parents@, i)
                && forall|k: int| 0 <= k < res@[i].1@.len() ==> res@[i].1@[k] != *beg_pos,
        decreases nodes.len() - e,
    {
        let path = walk_back(&nodes, &parents, e, map, beg_pos);
        res.push((nodes[e], path));
        e = e + 1;
    }
    proof {
        assert(mat_keys(res@) =~= nodes@);
        assert(mat_keys(res@)[0] == *beg_pos);
        assert forall|i: int, j: int| 0 <= i < j < res@.len() implies res@[i].0 != res@[j].0 by {
            assert(res@[i].0 == nodes@[i] && res@[j].0 == nodes@[j]);
        }
        assert forall|i: int, q: Position| 0 <= i < res@.len() && #[trigger] adjacent(map@, res@[i].0, q)
            implies mat_keys(res@).contains(q) by {
            assert(res@[i].0 == nodes@[i]);
            assert(room_close(nodes@, parents@, i, q));
            let b = choose|b: int| 0 <= b < nodes.len() && #[trigger] nodes@[b] == q && bfs_depth(parents@, b) <= bfs_depth(parents@, i) + 1;
            assert(mat_keys(res@)[b] == q);
        }
        assert forall|i: int| 0 <= i < res@.len() && (#[trigger] res@[i]).0 == *beg_pos implies res@[i].1@.len() == 0 by {
            assert(res@[i].0 == nodes@[i]);
            if i != 0 {
                assert(nodes@[0] != nodes@[i]);
            }
        }
        assert forall|i: int, k: int| 0 <= i < res@.len() && 0 <= k < res@[i].1@.len() implies #[trigger] res@[i].1@[k]
            != *beg_pos by {
            assert(res@[i].0 == nodes@[i]);
        }
        assert forall|i: int, w: Seq<Position>|
            0 <= i < res@.len() && is_walk(map@, *beg_pos, w) && #[trigger] walk_end(*beg_pos, w) == (
            #[trigger] res@[i]).0 implies res@[i].1@.len() <= w.len() by {
            lemma_room_walk(map@, nodes@, parents@, 0, w);
            let b = choose|b: int| 0 <= b < nodes.len() && #[trigger] nodes@[b] == walk_end(nodes@[0], w)
                && bfs_depth(parents@, b) <= bfs_depth(parents@, 0) + w.len();
            assert(res@[i].0 == nodes@[i]);
            if b != i {
                if b < i {
                    assert(nodes@[b] != nodes@[i]);
                } else {
                    assert(nodes@[i] != nodes@[b]);
                }
            }
        }
    }
    res
}

/// Distinct rooms of the matrix are no more than its rooms.
proof fn lemma_distinct_bound(nodes: Seq<Position>, extra: Position, mat: Seq<(Position, Vec<Position>)>)
    requires
        forall|a: int, b: int| 0 <= a < b < nodes.len() ==> nodes[a] != nodes[b],
        forall|k: int| 0 <= k < nodes.len() ==> mat_keys(mat).contains(#[trigger] nodes[k]),
        mat_keys(mat).contains(extra),
        !nodes.contains(extra),
    ensures
        nodes.len() < mat.len(),
{
    let s = nodes.to_set();
    let keys = mat_keys(mat).to_set();
    nodes.unique_seq_to_set();
    mat_keys(mat).lemma_cardinality_of_set();
    assert(s.insert(extra).subset_of(keys));
    vstd::set_lib::lemma_len_subset(s.insert(extra), keys);
    assert(!s.contains(extra));
}

/// The walk from `beg` to node `e`, following the parents back.
fn walk_back(
    nodes: &Vec<Position>,
    parents: &Vec<usize>,
    e: usize,
    map: &Vec<(Position, Vec<Position>)>,
    beg_pos: &Position,
) -> (res: Vec<Position>)
    requires
        e < nodes.len(),
        parents.len() == nodes.len(),
        nodes@[0] == *beg_pos,
        forall|kk: int| 0 < kk < nodes.len() ==> (#[trigger] parents@[kk]) < kk
            && adjacent(map@, nodes@[parents@[kk] as int], nodes@[kk]),
        forall|a: int, b: int| 0 <= a < b < nodes.len() ==> nodes@[a] != nodes@[b],
    ensures
        is_walk(map@, *beg_pos, res@),
        walk_end(*beg_pos, res@) == nodes@[e as int],
        res@.len() == bfs_depth(parents@, e as int),
        forall|k: int| 0 <= k < res@.len() ==> #[trigger] res@[k] != *beg_pos,
{
    let mut rev: Vec<Position> = Vec::new();
    let mut cur: usize = e;
    while cur != 0
        invariant
            cur < nodes.len(),
            parents.len() == nodes.len(),
            forall|kk: int| 0 < kk < nodes.len() ==> (#[trigger] parents@[kk]) < kk
                && adjacent(map@, nodes@[parents@[kk] as int], nodes@[kk]),
            rev@.len() > 0 ==> rev@[0] == nodes@[e as int],
            rev@.len() == 0 ==> cur == e,
            rev@.len() > 0 ==> adjacent(map@, nodes@[cur as int], rev@.last()),
            forall|i: int| 0 <= i < rev@.len() - 1 ==> adjacent(map@, #[trigger] rev@[i + 1], rev@[i]),
            rev@.len() + bfs_depth(parents@, cur as int) == bfs_depth(parents@, e as int),
            forall|a: int, b: int| 0 <= a < b < nodes.len() ==> nodes@[a] != nodes@[b],
            nodes@[0] == *beg_pos,
            forall|i: int| 0 <= i < rev@.len() ==> #[trigger] rev@[i] != *beg_pos,
        decreases cur,
    {
        let ghost prev = rev@;
        assert(nodes@[0] != nodes@[cur as int]);
        rev.push(nodes[cur]);
        cur = parents[cur];
        proof {
            assert forall|i: int| 0 <= i < rev@.len() - 1 implies adjacent(map@, #[trigger] rev@[i + 1], rev@[i]) by {
                if i < prev.len() - 1 {
                    assert(rev@[i] == prev[i] && rev@[i + 1] == prev[i + 1]);
                }
            }
        }
    }
    let mut path: Vec<Position> = Vec::new();
    let mut i: usize = rev.len();
    while i > 0
        invariant
            i <= rev.len(),
            path@.len() == rev.len() - i,
            forall|k: int| 0 <= k < path@.len() ==> path@[k] == #[trigger] rev@[rev@.len() - 1 - k],
            forall|k: int| 0 <= k < rev@.len() ==> #[trigger] rev@[k] != *beg_pos,
        decreases i,
    {
        i = i - 1;
        path.push(rev[i]);
    }
    proof {
        assert forall|k: int| 0 <= k < path@.len() - 1 implies adjacent(map@, #[trigger] path@[k], path@[k + 1]) by {
            let a = rev@.len() - 1 - k;
            assert(path@[k] == rev@[rev@.len() - 1 - k]);
            assert(path@[k + 1] == rev@[rev@.len() - 1 - (k + 1)]);
            assert(rev@.len() - 1 - (k + 1) == a - 1);
            assert(adjacent(map@, rev@[(a - 1) + 1], rev@[a - 1]));
        }
        assert(path@.len() == rev@.len());
        assert forall|k: int| 0 <= k < path@.len() implies #[trigger] path@[k] != *beg_pos by {
            assert(path@[k] == rev@[rev@.len() - 1 - k]);
        }
        if path@.len() > 0 {
            assert(path@[0] == rev@[rev@.len() - 1 - 0]);
            assert(path@[path@.len() - 1] == rev@[rev@.len() - 1 - (path@.len() - 1)]);
        }
    }
    path
}

impl PathExpToken {
    /// A copy of the token.
    pub fn copy_token(&self) -> (res: PathExpToken)
        ensures
            res == *self,
    {
        match self {
            PathExpToken::Path(s) => PathExpToken::Path(s.clone()),
            PathExpToken::OpLParen => PathExpToken::OpLParen,
            PathExpToken::OpRParen => PathExpToken::OpRParen,
            PathExpToken::OpOr => PathExpToken::OpOr,
        }
    }

    /// The operator token that a character stands for.
    pub fn from_char(value: char) -> (res: Result<PathExpToken, Error>)
        ensures
            value == '|' ==> res == Ok::<PathExpToken, Error>(PathExpToken::OpOr),
            value == '(' ==> res == Ok::<PathExpToken, Error>(PathExpToken::OpLParen),
            value == ')' ==> res == Ok::<PathExpToken, Error>(PathExpToken::OpRParen),
            value != '|' && value != '(' && value != ')' ==> res == Err::<PathExpToken, Error>(
                Error::PathExpTokenParseError(value),
            ),
    {
        match value {
            '|' => Ok(PathExpToken::OpOr),
            '(' => Ok(PathExpToken::OpLParen),
            ')' => Ok(PathExpToken::OpRParen),
            other => Err(Error::PathExpTokenParseError(other)),
        }
    }
}

/// A token as its kind (0 path, 1 `(`, 2 `)`, 3 `|`) and the letters of a path.
pub open spec fn tok_view(t: PathExpToken) -> (int, Seq<char>) {
    match t {
        PathExpToken::Path(s) => (0, s@),
        PathExpToken::OpLParen => (1, Seq::empty()),
        PathExpToken::OpRParen => (2, Seq::empty()),
        PathExpToken::OpOr => (3, Seq::empty()),
    }
}

/// The kind of an operator character.
pub open spec fn op_kind(c: char) -> int {
    if c == '(' { 1 } else if c == ')' { 2 } else { 3 }
}

/// Reading the expression from character `i` on, in `state` (0 before `^`,
/// 1 inside, 2 after `$`), with the letters of a path not yet ended in
/// `pending` and the tokens so far in `acc`.
pub open spec fn lex_run(
    s: Seq<char>,
    i: int,
    state: int,
    pending: Seq<char>,
    acc: Seq<(int, Seq<char>)>,
) -> Result<Seq<(int, Seq<char>)>, Error>
    decreases s.len() - i,
{
    if i < 0 || i >= s.len() || state == 2 {
        if state == 0 {
            Err(Error::NoBeginInPathExp)
        } else if state == 1 {
            Err(Error::NoEndInPathExp)
        } else {
            Ok(acc)
        }
    } else {
        let c = s[i];
        if state == 0 {
            lex_run(s, i + 1, if c == '^' { 1 } else { 0 }, pending, acc)
        } else if is_dir_char(c) {
            lex_run(s, i + 1, 1, pending.push(c), acc)
        } else if c == '|' || c == '(' || c == ')' || c == '$' {
            let acc2 = if pending.len() > 0 { acc.push((0, pending)) } else { acc };
            if c == '$' {
                lex_run(s, i + 1, 2, Seq::empty(), acc2)
            } else {
                lex_run(s, i + 1, 1, Seq::empty(), acc2.push((op_kind(c), Seq::empty())))
            }
        } else {
            Err(Error::InvalidCharInInput { ind: i as usize, c })
        }
    }
}

/// Splits the expression between `^` and `$` into tokens.
pub fn lex_path_exp(text: &str) -> (res: Result<Vec<PathExpToken>, Error>)
    ensures
        match res {
            Ok(v) => lex_run(text@, 0, 0, Seq::empty(), Seq::empty()) == Ok::<Seq<(int, Seq<char>)>, Error>(
                v@.map_values(|t: PathExpToken| tok_view(t)),
            ),
            Err(e) => lex_run(text@, 0, 0, Seq::empty(), Seq::empty()) == Err::<Seq<(int, Seq<char>)>, Error>(e),
        },
{
    let n = text.unicode_len();
    let mut pending: Vec<char> = Vec::new();
    let mut tokens: Vec<PathExpToken> = Vec::new();
    let mut state: u8 = 0;
    let mut i: usize = 0;
    proof {
        assert(tokens@.map_values(|t: PathExpToken| tok_view(t)) =~= Seq::<(int, Seq<char>)>::empty());
        assert(pending@ =~= Seq::<char>::empty());
    }
    while i < n && state != 2
        invariant
            i <= n,
            n == text@.len(),
            state <= 2,
            state != 1 ==> pending@.len() == 0,
            lex_run(text@, i as int, state as int, pending@, tokens@.map_values(|t: PathExpToken| tok_view(t)))
                == lex_run(text@, 0, 0, Seq::empty(), Seq::empty()),
        decreases n - i,
    {
        let c = text.get_char(i);
        let ghost acc = tokens@.map_values(|t: PathExpToken| tok_view(t));
        let ghost old_pending = pending@;
        let ghost old_state = state as int;
        if state == 0 {
            if c == '^' {
                state = 1;
            }
        } else if c == 'N' || c == 'W' || c == 'E' || c == 'S' {
            pending.push(c);
        } else if c == '|' || c == '(' || c == ')' || c == '$' {
            if pending.len() > 0 {
                let path = string_from_chars(&pending);
                tokens.push(PathExpToken::Path(path));
                pending = Vec::new();
                proof {
                    assert(tokens@.map_values(|t: PathExpToken| tok_view(t)) =~= acc.push((0, old_pending)));
                }
            }
            let ghost acc2 = tokens@.map_values(|t: PathExpToken| tok_view(t));
            if c == '$' {
                state = 2;
            } else {
                match PathExpToken::from_char(c) {
                    Ok(t) => {
                        tokens.push(t);
                        proof {
                            assert(tokens@.map_values(|t: PathExpToken| tok_view(t)) =~= acc2.push((op_kind(c), Seq::empty())));
                        }
                    },
                    Err(e) => {
                        return Err(e);
                    },
                }
            }
        } else {
            return Err(Error::InvalidCharInInput { ind: i, c });
        }
        proof {
            if pending@.len() == 0 {
                assert(pending@ =~= Seq::<char>::empty());
            }
            if old_pending.len() == 0 {
                assert(old_pending =~= Seq::<char>::empty());
            }
            assert(lex_run(text@, i as int, old_state, old_pending, acc) == lex_run(text@, i + 1, state as int,
                pending@, tokens@.map_values(|t: PathExpToken| tok_view(t))));
        }
        i = i + 1;
    }
    if state == 0 {
        Err(Error::NoBeginInPathExp)
    } else if state == 1 {
        Err(Error::NoEndInPathExp)
    } else {
        Ok(tokens)
    }
}

/// The tree of an expression of routes.
///
/// Exp -> GroupExp | PathExp;
/// GroupExp -> `(` Branch `)` Exp | `(` Branch `)`;
/// PathExp -> Path GroupExp | Path;
/// Branch -> Alter `|` Branch | Alter;
/// Alter -> Exp | nothing.
#[derive(Debug)]
pub enum PathNode {
    /// A path, then maybe more of the expression.
    PathLeading { path: String, tail_exp: Option<Box<PathNode>> },
    /// A group in parentheses, then maybe more of the expression.
    BranchLeading { branch: Box<PathNode>, tail_exp: Option<Box<PathNode>> },
    /// An empty alternative.
    EmptyAlter,
    /// An alternative.
    ExpAlter { exp: Box<PathNode> },
    /// An alternative, then maybe more alternatives after `|`.
    ExpLeadingBranch { exp: Box<PathNode>, tail_branch: Option<Box<PathNode>> },
}

/// The result of parsing an expression from token `i` on: the place after
/// it and its tree, or the error met.
pub open spec fn spec_exp(t: Seq<PathExpToken>, i: int) -> Result<(int, PathNode), Error>
    decreases t.len() - i, 0int,
{
    if i < 0 || i >= t.len() {
        Err(Error::EmptyResultStackInExpParsing)
    } else {
        match t[i] {
            PathExpToken::Path(s) => {
                if i + 1 < t.len() {
                    match t[i + 1] {
                        PathExpToken::OpLParen => match spec_exp(t, i + 1) {
                            Ok((j, tail)) => Ok((j, PathNode::PathLeading { path: s, tail_exp: Some(Box::new(tail)) })),
                            Err(e) => Err(e),
                        },
                        PathExpToken::OpOr => Ok((i + 1, PathNode::PathLeading { path: s, tail_exp: None })),
                        PathExpToken::OpRParen => Ok((i + 1, PathNode::PathLeading { path: s, tail_exp: None })),
                        PathExpToken::Path(p) => Err(Error::InvalidTokenInExpParsing(PathExpToken::Path(p))),
                    }
                } else {
                    Ok((i + 1, PathNode::PathLeading { path: s, tail_exp: None }))
                }
            },
            PathExpToken::OpLParen => match spec_branch(t, i + 1) {
                Err(e) => Err(e),
                Ok((j, branch)) => {
                    if j <= i || j >= t.len() {
                        Err(Error::EmptyResultStackInExpParsing)
                    } else if t[j] != PathExpToken::OpRParen {
                        Err(Error::RParenNotFoundInBranchEnd((j - i) as usize))
                    } else if j + 1 < t.len() && (t[j + 1] is Path || t[j + 1] is OpLParen) {
                        match spec_exp(t, j + 1) {
                            Ok((m, tail)) => Ok((m, PathNode::BranchLeading {
                                branch: Box::new(branch),
                                tail_exp: Some(Box::new(tail)),
                            })),
                            Err(e) => Err(e),
                        }
                    } else {
                        Ok((j + 1, PathNode::BranchLeading { branch: Box::new(branch), tail_exp: None }))
                    }
                },
            },
            PathExpToken::OpRParen => Err(Error::InvalidTokenInExpParsing(PathExpToken::OpRParen)),
            PathExpToken::OpOr => Err(Error::InvalidTokenInExpParsing(PathExpToken::OpOr)),
        }
    }
}

/// The result of parsing a branch from token `i` on: the place of the `)`
/// that closes it and its tree, or the error met.
pub open spec fn spec_branch(t: Seq<PathExpToken>, i: int) -> Result<(int, PathNode), Error>
    decreases t.len() - i, 1int,
{
    if i < 0 || i >= t.len() {
        Err(Error::EmptyTokensLeftInBranchParsing)
    } else {
        match spec_exp(t, i) {
            Err(Error::InvalidTokenInExpParsing(_)) => Ok((i, PathNode::ExpAlter { exp: Box::new(PathNode::EmptyAlter) })),
            Err(e) => Err(e),
            Ok((j, exp)) => {
                if j <= i {
                    Err(Error::EmptyResultStackInExpParsing)
                } else if j < t.len() {
                    match t[j] {
                        PathExpToken::OpOr => match spec_branch(t, j + 1) {
                            Ok((m, tail)) => Ok((m, PathNode::ExpLeadingBranch {
                                exp: Box::new(exp),
                                tail_branch: Some(Box::new(tail)),
                            })),
                            Err(e) => Err(e),
                        },
                        PathExpToken::OpRParen => Ok((j, PathNode::ExpLeadingBranch { exp: Box::new(exp), tail_branch: None })),
                        PathExpToken::Path(p) => Err(Error::InvalidTokenInBranchParsing(PathExpToken::Path(p))),
                        PathExpToken::OpLParen => Err(Error::InvalidTokenInBranchParsing(PathExpToken::OpLParen)),
                    }
                } else {
                    Err(Error::InvalidEndInBranchParsing)
                }
            },
        }
    }
}

/// Whether a token closes a group.
fn is_r_paren(t: &PathExpToken) -> (res: bool)
    ensures
        res == (*t == PathExpToken::OpRParen),
{
    match t {
        PathExpToken::OpRParen => true,
        _ => false,
    }
}

/// Parses an expression from token `i` on.
fn parse_exp_at(tokens: &Vec<PathExpToken>, i: usize) -> (res: Result<(usize, PathNode), Error>)
    requires
        i < tokens@.len(),
    ensures
        match res {
            Ok((j, node)) => spec_exp(tokens@, i as int) == Ok::<(int, PathNode), Error>((j as int, node))
                && i < j <= tokens@.len(),
            Err(e) => spec_exp(tokens@, i as int) == Err::<(int, PathNode), Error>(e),
        },
    decreases tokens@.len() - i, 0int,
{
    let n = tokens.len();
    match &tokens[i] {
        PathExpToken::Path(s) => {
            if i + 1 < tokens.len() {
                match &tokens[i + 1] {
                    PathExpToken::OpLParen => {
                        match parse_exp_at(tokens, i + 1) {
                            Ok((j, tail)) => Ok((j, PathNode::PathLeading { path: s.clone(), tail_exp: Some(Box::new(tail)) })),
                            Err(e) => Err(e),
                        }
                    },
                    PathExpToken::OpOr => Ok((i + 1, PathNode::PathLeading { path: s.clone(), tail_exp: None })),
                    PathExpToken::OpRParen => Ok((i + 1, PathNode::PathLeading { path: s.clone(), tail_exp: None })),
                    other => Err(Error::InvalidTokenInExpParsing(other.copy_token())),
                }
            } else {
                Ok((i + 1, PathNode::PathLeading { path: s.clone(), tail_exp: None }))
            }
        },
        PathExpToken::OpLParen => {
            match parse_branch_at(tokens, i + 1) {
                Err(e) => Err(e),
                Ok((j, branch)) => {
                    if !is_r_paren(&tokens[j]) {
                        return Err(Error::RParenNotFoundInBranchEnd(j - i));
                    }
                    let k = j + 1;
                    if k < tokens.len() && (match &tokens[k] {
                        PathExpToken::Path(_) => true,
                        PathExpToken::OpLParen => true,
                        _ => false,
                    }) {
                        match parse_exp_at(tokens, k) {
                            Ok((m, tail)) => Ok((m, PathNode::BranchLeading {
                                branch: Box::new(branch),
                                tail_exp: Some(Box::new(tail)),
                            })),
                            Err(e) => Err(e),
                        }
                    } else {
                        Ok((k, PathNode::BranchLeading { branch: Box::new(branch), tail_exp: None }))
                    }
                },
            }
        },
        other => Err(Error::InvalidTokenInExpParsing(other.copy_token())),
    }
}

/// Parses a branch from token `i` on.
fn parse_branch_at(tokens: &Vec<PathExpToken>, i: usize) -> (res: Result<(usize, PathNode), Error>)
    requires
        i <= tokens@.len(),
    ensures
        match res {
            Ok((j, node)) => spec_branch(tokens@, i as int) == Ok::<(int, PathNode), Error>((j as int, node))
                && i <= j < tokens@.len(),
            Err(e) => spec_branch(tokens@, i as int) == Err::<(int, PathNode), Error>(e),
        },
    decreases tokens@.len() - i, 1int,
{
    if i >= tokens.len() {
        return Err(Error::EmptyTokensLeftInBranchParsing);
    }
    let (j, exp) = match parse_exp_at(tokens, i) {
        Ok(p) => p,
        Err(Error::InvalidTokenInExpParsing(t)) => {
            return Ok((i, PathNode::ExpAlter { exp: Box::new(PathNode::EmptyAlter) }));
        },
        Err(other) => {
            return Err(other);
        },
    };
    if j < tokens.len() {
        match &tokens[j] {
            PathExpToken::OpOr => {
                match parse_branch_at(tokens, j + 1) {
                    Ok((m, tail)) => Ok((m, PathNode::ExpLeadingBranch {
                        exp: Box::new(exp),
                        tail_branch: Some(Box::new(tail)),
                    })),
                    Err(e) => Err(e),
                }
            },
            PathExpToken::OpRParen => Ok((j, PathNode::ExpLeadingBranch { exp: Box::new(exp), tail_branch: None })),
            other => Err(Error::InvalidTokenInBranchParsing(other.copy_token())),
        }
    } else {
        Err(Error::InvalidEndInBranchParsing)
    }
}

/// Parses an expression from the first token: the number of tokens read
/// and the tree.
pub fn parse_path_exp_recur(tokens: &Vec<PathExpToken>) -> (res: Result<(usize, PathNode), Error>)
    requires
        tokens@.len() > 0,
    ensures
        match res {
            Ok((n, node)) => spec_exp(tokens@, 0) == Ok::<(int, PathNode), Error>((n as int, node)),
            Err(e) => spec_exp(tokens@, 0) == Err::<(int, PathNode), Error>(e),
        },
{
    parse_exp_at(tokens, 0)
}

/// Parses a branch from the first token: the place of the `)` that closes
/// it and the tree.
pub fn parse_path_branch_recur(tokens: &Vec<PathExpToken>) -> (res: Result<(usize, PathNode), Error>)
    ensures
        match res {
            Ok((n, node)) => spec_branch(tokens@, 0) == Ok::<(int, PathNode), Error>((n as int, node)),
            Err(e) => spec_branch(tokens@, 0) == Err::<(int, PathNode), Error>(e),
        },
{
    parse_branch_at(tokens, 0)
}

/// What the parser with an explicit stack reaches for a part of the
/// expression: a value for the part, or an error that ends the whole parse
/// at once.
pub enum ParseOutcome {
    Done(Result<(usize, PathNode), Error>),
    Abort(Error),
}

/// The outcome of the stack parser for an expression from token `i` on.
pub open spec fn spec_iter_exp(t: Seq<PathExpToken>, i: int) -> ParseOutcome
    decreases t.len() - i, 0int,
{
    if i < 0 || i >= t.len() {
        ParseOutcome::Done(Err(Error::EmptyResultStackInExpParsing))
    } else {
        match t[i] {
            PathExpToken::Path(s) => {
                if i + 1 < t.len() {
                    match t[i + 1] {
                        PathExpToken::OpLParen => match spec_iter_exp(t, i + 1) {
                            ParseOutcome::Done(Ok((j, tail))) => ParseOutcome::Done(Ok((j, PathNode::PathLeading {
                                path: s,
                                tail_exp: Some(Box::new(tail)),
                            }))),
                            ParseOutcome::Done(Err(e)) => ParseOutcome::Abort(e),
                            ParseOutcome::Abort(e) => ParseOutcome::Abort(e),
                        },
                        PathExpToken::OpOr => ParseOutcome::Done(Ok(((i + 1) as usize, PathNode::PathLeading { path: s, tail_exp: None }))),
                        PathExpToken::OpRParen => ParseOutcome::Done(Ok(((i + 1) as usize, PathNode::PathLeading { path: s, tail_exp: None }))),
                        PathExpToken::Path(p) => ParseOutcome::Done(Err(Error::InvalidTokenInExpParsing(PathExpToken::Path(p)))),
                    }
                } else {
                    ParseOutcome::Done(Ok(((i + 1) as usize, PathNode::PathLeading { path: s, tail_exp: None })))
                }
            },
            PathExpToken::OpLParen => match spec_iter_branch(t, i + 1) {
                ParseOutcome::Abort(e) => ParseOutcome::Abort(e),
                ParseOutcome::Done(Err(e)) => ParseOutcome::Abort(e),
                ParseOutcome::Done(Ok((j, branch))) => {
                    if j <= i || j >= t.len() {
                        ParseOutcome::Done(Err(Error::EmptyResultStackInExpParsing))
                    } else if t[j as int] != PathExpToken::OpRParen {
                        ParseOutcome::Abort(Error::RParenNotFoundInBranchEnd(j))
                    } else if j + 1 < t.len() && (t[j + 1] is Path || t[j + 1] is OpLParen) {
                        match spec_iter_exp(t, j + 1) {
                            ParseOutcome::Done(Ok((m, tail))) => ParseOutcome::Done(Ok((m, PathNode::BranchLeading {
                                branch: Box::new(branch),
                                tail_exp: Some(Box::new(tail)),
                            }))),
                            ParseOutcome::Done(Err(e)) => ParseOutcome::Abort(e),
                            ParseOutcome::Abort(e) => ParseOutcome::Abort(e),
                        }
                    } else {
                        ParseOutcome::Done(Ok(((j + 1) as usize, PathNode::BranchLeading { branch: Box::new(branch), tail_exp: None })))
                    }
                },
            },
            PathExpToken::OpRParen => ParseOutcome::Done(Err(Error::InvalidTokenInExpParsing(PathExpToken::OpRParen))),
            PathExpToken::OpOr => ParseOutcome::Done(Err(Error::InvalidTokenInExpParsing(PathExpToken::OpOr))),
        }
    }
}

/// The outcome of the stack parser for a branch from token `i` on.
pub open spec fn spec_iter_branch(t: Seq<PathExpToken>, i: int) -> ParseOutcome
    decreases t.len() - i, 1int,
{
    if i < 0 || i >= t.len() {
        ParseOutcome::Done(Err(Error::EmptyTokensLeftInBranchParsing))
    } else {
        match spec_iter_exp(t, i) {
            ParseOutcome::Abort(e) => ParseOutcome::Abort(e),
            ParseOutcome::Done(Err(Error::InvalidTokenInExpParsing(_))) => ParseOutcome::Done(Ok((i as usize,
                PathNode::ExpAlter { exp: Box::new(PathNode::EmptyAlter) }))),
            ParseOutcome::Done(Err(e)) => ParseOutcome::Done(Err(e)),
            ParseOutcome::Done(Ok((j, exp))) => {
                if j <= i {
                    ParseOutcome::Done(Err(Error::EmptyResultStackInExpParsing))
                } else if j < t.len() {
                    match t[j as int] {
                        PathExpToken::OpOr => match spec_iter_branch(t, j + 1) {
                            ParseOutcome::Done(Ok((m, tail))) => ParseOutcome::Done(Ok((m, PathNode::ExpLeadingBranch {
                                exp: Box::new(exp),
                                tail_branch: Some(Box::new(tail)),
                            }))),
                            ParseOutcome::Done(Err(e)) => ParseOutcome::Abort(e),
                            ParseOutcome::Abort(e) => ParseOutcome::Abort(e),
                        },
                        PathExpToken::OpRParen => ParseOutcome::Done(Ok((j, PathNode::ExpLeadingBranch {
                            exp: Box::new(exp),
                            tail_branch: None,
                        }))),
                        PathExpToken::Path(p) => ParseOutcome::Done(Err(Error::InvalidTokenInBranchParsing(PathExpToken::Path(p)))),
                        PathExpToken::OpLParen => ParseOutcome::Done(Err(Error::InvalidTokenInBranchParsing(PathExpToken::OpLParen))),
                    }
                } else {
                    ParseOutcome::Done(Err(Error::InvalidEndInBranchParsing))
                }
            },
        }
    }
}

/// Runs the stack parser on an expression from token `i` on.
fn iter_exp_at(tokens: &Vec<PathExpToken>, i: usize) -> (res: ParseOutcome)
    requires
        i < tokens@.len(),
    ensures
        res == spec_iter_exp(tokens@, i as int),
        res matches ParseOutcome::Done(Ok((j, _))) ==> i < j <= tokens@.len(),
    decreases tokens@.len() - i, 0int,
{
    let n = tokens.len();
    match &tokens[i] {
        PathExpToken::Path(s) => {
            if i + 1 < n {
                match &tokens[i + 1] {
                    PathExpToken::OpLParen => match iter_exp_at(tokens, i + 1) {
                        ParseOutcome::Done(Ok((j, tail))) => ParseOutcome::Done(Ok((j, PathNode::PathLeading {
                            path: s.clone(),
                            tail_exp: Some(Box::new(tail)),
                        }))),
                        ParseOutcome::Done(Err(e)) => ParseOutcome::Abort(e),
                        ParseOutcome::Abort(e) => ParseOutcome::Abort(e),
                    },
                    PathExpToken::OpOr => ParseOutcome::Done(Ok((i + 1, PathNode::PathLeading { path: s.clone(), tail_exp: None }))),
                    PathExpToken::OpRParen => ParseOutcome::Done(Ok((i + 1, PathNode::PathLeading { path: s.clone(), tail_exp: None }))),
                    other => ParseOutcome::Done(Err(Error::InvalidTokenInExpParsing(other.copy_token()))),
                }
            } else {
                ParseOutcome::Done(Ok((i + 1, PathNode::PathLeading { path: s.clone(), tail_exp: None })))
            }
        },
        PathExpToken::OpLParen => match iter_branch_at(tokens, i + 1) {
            ParseOutcome::Abort(e) => ParseOutcome::Abort(e),
            ParseOutcome::Done(Err(e)) => ParseOutcome::Abort(e),
            ParseOutcome::Done(Ok((j, branch))) => {
                if !is_r_paren(&tokens[j]) {
                    return ParseOutcome::Abort(Error::RParenNotFoundInBranchEnd(j));
                }
                let k = j + 1;
                if k < n && (match &tokens[k] {
                    PathExpToken::Path(_) => true,
                    PathExpToken::OpLParen => true,
                    _ => false,
                }) {
                    match iter_exp_at(tokens, k) {
                        ParseOutcome::Done(Ok((m, tail))) => ParseOutcome::Done(Ok((m, PathNode::BranchLeading {
                            branch: Box::new(branch),
                            tail_exp: Some(Box::new(tail)),
                        }))),
                        ParseOutcome::Done(Err(e)) => ParseOutcome::Abort(e),
                        ParseOutcome::Abort(e) => ParseOutcome::Abort(e),
                    }
                } else {
                    ParseOutcome::Done(Ok((k, PathNode::BranchLeading { branch: Box::new(branch), tail_exp: None })))
                }
            },
        },
        other => ParseOutcome::Done(Err(Error::InvalidTokenInExpParsing(other.copy_token()))),
    }
}

/// Runs the stack parser on a branch from token `i` on.
fn iter_branch_at(tokens: &Vec<PathExpToken>, i: usize) -> (res: ParseOutcome)
    requires
        i <= tokens@.len(),
    ensures
        res == spec_iter_branch(tokens@, i as int),
        res matches ParseOutcome::Done(Ok((j, _))) ==> i <= j < tokens@.len(),
    decreases tokens@.len() - i, 1int,
{
    if i >= tokens.len() {
        return ParseOutcome::Done(Err(Error::EmptyTokensLeftInBranchParsing));
    }
    let (j, exp) = match iter_exp_at(tokens, i) {
        ParseOutcome::Abort(e) => {
            return ParseOutcome::Abort(e);
        },
        ParseOutcome::Done(Ok(p)) => p,
        ParseOutcome::Done(Err(Error::InvalidTokenInExpParsing(_))) => {
            return ParseOutcome::Done(Ok((i, PathNode::ExpAlter { exp: Box::new(PathNode::EmptyAlter) })));
        },
        ParseOutcome::Done(Err(other)) => {
            return ParseOutcome::Done(Err(other));
        },
    };
    if j < tokens.len() {
        match &tokens[j] {
            PathExpToken::OpOr => match iter_branch_at(tokens, j + 1) {
                ParseOutcome::Done(Ok((m, tail))) => ParseOutcome::Done(Ok((m, PathNode::ExpLeadingBranch {
                    exp: Box::new(exp),
                    tail_branch: Some(Box::new(tail)),
                }))),
                ParseOutcome::Done(Err(e)) => ParseOutcome::Abort(e),
                ParseOutcome::Abort(e) => ParseOutcome::Abort(e),
            },
            PathExpToken::OpRParen => ParseOutcome::Done(Ok((j, PathNode::ExpLeadingBranch { exp: Box::new(exp), tail_branch: None }))),
            other => ParseOutcome::Done(Err(Error::InvalidTokenInBranchParsing(other.copy_token()))),
        }
    } else {
        ParseOutcome::Done(Err(Error::InvalidEndInBranchParsing))
    }
}

/// Parses an expression from the first token the way a parser with an
/// explicit stack of states does: an error met inside a path or a group
/// ends the whole parse at once, and the place in a missing-`)` error counts
/// from the first token.
pub fn parse_path_exp_iter(tokens: &Vec<PathExpToken>) -> (res: Result<(usize, PathNode), Error>)
    requires
        tokens@.len() > 0,
    ensures
        match spec_iter_exp(tokens@, 0) {
            ParseOutcome::Done(r) => res == r,
            ParseOutcome::Abort(e) => res == Err::<(usize, PathNode), Error>(e),
        },
{
    match iter_exp_at(tokens, 0) {
        ParseOutcome::Done(r) => r,
        ParseOutcome::Abort(e) => Err(e),
    }
}

/// Wherever the recursive parser reads an expression, the stack parser reads
/// the same one.
pub proof fn lemma_iter_agrees_exp(t: Seq<PathExpToken>, i: int)
    requires
        t.len() <= usize::MAX,
    ensures
        spec_exp(t, i) matches Ok((j, node)) ==> i < j <= t.len()
            && spec_iter_exp(t, i) == ParseOutcome::Done(Ok((j as usize, node))),
    decreases t.len() - i, 0int,
{
    if 0 <= i < t.len() {
        match t[i] {
            PathExpToken::Path(s) => {
                if i + 1 < t.len() {
                    if t[i + 1] is OpLParen {
                        lemma_iter_agrees_exp(t, i + 1);
                    }
                }
            },
            PathExpToken::OpLParen => {
                lemma_iter_agrees_branch(t, i + 1);
                if let Ok((j, branch)) = spec_branch(t, i + 1) {
                    if i < j < t.len() && t[j] == PathExpToken::OpRParen && j + 1 < t.len() {
                        lemma_iter_agrees_exp(t, j + 1);
                    }
                }
            },
            _ => {},
        }
    }
}

/// Wherever the recursive parser reads a branch that a `)` closes, the stack
/// parser reads the same one.
pub proof fn lemma_iter_agrees_branch(t: Seq<PathExpToken>, i: int)
    requires
        t.len() <= usize::MAX,
    ensures
        spec_branch(t, i) matches Ok((j, node)) ==> i <= j < t.len(),
        spec_branch(t, i) matches Ok((j, node)) ==> (t[j] == PathExpToken::OpRParen
            ==> spec_iter_branch(t, i) == ParseOutcome::Done(Ok((j as usize, node)))),
    decreases t.len() - i, 1int,
{
    if 0 <= i < t.len() {
        lemma_iter_agrees_exp(t, i);
        if let Ok((j, exp)) = spec_exp(t, i) {
            if i < j < t.len() && t[j] is OpOr {
                lemma_iter_agrees_branch(t, j + 1);
            }
        }
    }
}

/// Wherever the stack parser finishes an expression, with a value or an
/// error, the recursive parser gives the same.
pub proof fn lemma_iter_exact_exp(t: Seq<PathExpToken>, i: int)
    requires
        t.len() <= usize::MAX,
    ensures
        spec_iter_exp(t, i) matches ParseOutcome::Done(Ok((j, node))) ==> spec_exp(t, i) == Ok::<(int, PathNode), Error>(
            (j as int, node),
        ),
        spec_iter_exp(t, i) matches ParseOutcome::Done(Err(e)) ==> spec_exp(t, i) == Err::<(int, PathNode), Error>(e),
    decreases t.len() - i, 0int,
{
    if 0 <= i < t.len() {
        match t[i] {
            PathExpToken::Path(s) => {
                if i + 1 < t.len() {
                    if t[i + 1] is OpLParen {
                        lemma_iter_exact_exp(t, i + 1);
                    }
                }
            },
            PathExpToken::OpLParen => {
                lemma_iter_exact_branch(t, i + 1);
                if let ParseOutcome::Done(Ok((j, branch))) = spec_iter_branch(t, i + 1) {
                    if i < j < t.len() && t[j as int] == PathExpToken::OpRParen && j + 1 < t.len() {
                        lemma_iter_exact_exp(t, j + 1);
                    }
                }
            },
            _ => {},
        }
    }
}

/// Wherever the stack parser finishes a branch, with a value or an error,
/// the recursive parser gives the same.
pub proof fn lemma_iter_exact_branch(t: Seq<PathExpToken>, i: int)
    requires
        t.len() <= usize::MAX,
    ensures
        spec_iter_branch(t, i) matches ParseOutcome::Done(Ok((j, node))) ==> spec_branch(t, i) == Ok::<
            (int, PathNode),
            Error,
        >((j as int, node)),
        spec_iter_branch(t, i) matches ParseOutcome::Done(Err(e)) ==> spec_branch(t, i) == Err::<(int, PathNode), Error>(e),
    decreases t.len() - i, 1int,
{
    if 0 <= i < t.len() {
        lemma_iter_exact_exp(t, i);
        if let ParseOutcome::Done(Ok((j, exp))) = spec_iter_exp(t, i) {
            if i < j < t.len() && t[j as int] is OpOr {
                lemma_iter_exact_branch(t, j + 1);
            }
        }
    }
}

/// The recursive parser reads an expression from a token list exactly when
/// the parser with an explicit stack does, and then both give the same
/// count and tree.
pub proof fn lemma_parsers_agree(t: Seq<PathExpToken>)
    requires
        t.len() <= usize::MAX,
    ensures
        spec_exp(t, 0) matches Ok((n, node)) ==> spec_iter_exp(t, 0) == ParseOutcome::Done(Ok((n as usize, node))),
        spec_iter_exp(t, 0) matches ParseOutcome::Done(Ok((n, node))) ==> spec_exp(t, 0) == Ok::<(int, PathNode), Error>(
            (n as int, node),
        ),
{
    lemma_iter_agrees_exp(t, 0);
    lemma_iter_exact_exp(t, 0);
}

/// The directions of a path of letters.
pub open spec fn dirs_of(path: Seq<char>) -> Seq<Direction> {
    path.map_values(|c: char| dir_of(c))
}

/// The room reached from `p` after the first `k` steps of `dirs`.
pub open spec fn walk_to(p: Position, dirs: Seq<Direction>, k: int) -> Position
    decreases k,
{
    if k <= 0 {
        p
    } else {
        step_spec(walk_to(p, dirs, k - 1), dirs[k - 1])
    }
}

/// The doors passed, each as the room and the direction of the step, on the
/// first `k` steps of `dirs` from `p`.
pub open spec fn walk_passes(p: Position, dirs: Seq<Direction>, k: int) -> Set<(Position, Direction)> {
    Set::new(|x: (Position, Direction)| exists|j: int| 0 <= j < k && x == (walk_to(p, dirs, j), dirs[j]))
}

/// Letters of all the paths of a tree.
pub open spec fn node_len(node: PathNode) -> nat
    decreases node,
{
    match node {
        PathNode::PathLeading { path, tail_exp } => path@.len() + match tail_exp {
            Some(t) => node_len(*t),
            None => 0,
        },
        PathNode::BranchLeading { branch, tail_exp } => node_len(*branch) + match tail_exp {
            Some(t) => node_len(*t),
            None => 0,
        },
        PathNode::EmptyAlter => 0,
        PathNode::ExpAlter { exp } => node_len(*exp),
        PathNode::ExpLeadingBranch { exp, tail_branch } => node_len(*exp) + match tail_branch {
            Some(t) => node_len(*t),
            None => 0,
        },
    }
}

/// Whether every path of a tree is made of direction letters.
pub open spec fn node_ok(node: PathNode) -> bool
    decreases node,
{
    match node {
        PathNode::PathLeading { path, tail_exp } => (forall|k: int| 0 <= k < path@.len() ==> is_dir_char(#[trigger] path@[k]))
            && match tail_exp {
            Some(t) => node_ok(*t),
            None => true,
        },
        PathNode::BranchLeading { branch, tail_exp } => node_ok(*branch) && match tail_exp {
            Some(t) => node_ok(*t),
            None => true,
        },
        PathNode::EmptyAlter => true,
        PathNode::ExpAlter { exp } => node_ok(*exp),
        PathNode::ExpLeadingBranch { exp, tail_branch } => node_ok(*exp) && match tail_branch {
            Some(t) => node_ok(*t),
            None => true,
        },
    }
}

/// The rooms where walking a tree from the rooms `s` ends, and the doors
/// passed on the way.
pub open spec fn chart_spec(node: PathNode, s: Set<Position>) -> (Set<Position>, Set<(Position, Direction)>)
    decreases node,
{
    match node {
        PathNode::PathLeading { path, tail_exp } => {
            let dirs = dirs_of(path@);
            let ends = s.map(|p: Position| walk_to(p, dirs, dirs.len() as int));
            let passes = Set::new(|x: (Position, Direction)| exists|p: Position| s.contains(p) && #[trigger] walk_passes(p, dirs, dirs.len() as int).contains(x));
            match tail_exp {
                Some(t) => {
                    let r = chart_spec(*t, ends);
                    (r.0, passes.union(r.1))
                },
                None => (ends, passes),
            }
        },
        PathNode::BranchLeading { branch, tail_exp } => {
            let r1 = chart_spec(*branch, s);
            match tail_exp {
                Some(t) => {
                    let r2 = chart_spec(*t, r1.0);
                    (r2.0, r1.1.union(r2.1))
                },
                None => r1,
            }
        },
        PathNode::EmptyAlter => (s, Set::empty()),
        PathNode::ExpAlter { exp } => chart_spec(*exp, s),
        PathNode::ExpLeadingBranch { exp, tail_branch } => {
            let r1 = chart_spec(*exp, s);
            match tail_branch {
                Some(t) => {
                    let r2 = chart_spec(*t, s);
                    (r1.0.union(r2.0), r1.1.union(r2.1))
                },
                None => (r1.0.union(s), r1.1),
            }
        },
    }
}

/// Whether a door of `passes` leads out of room `p` in direction `d`, from
/// either side.
pub open spec fn touched_by(passes: Set<(Position, Direction)>, p: Position, d: Direction) -> bool {
    passes.contains((p, d)) || passes.contains((step_spec(p, d), opposite_spec(d)))
}

/// Whether room `p` is a room of a door in `passes`, on either side.
pub open spec fn touched(passes: Set<(Position, Direction)>, p: Position) -> bool {
    touched_by(passes, p, Direction::North) || touched_by(passes, p, Direction::West)
        || touched_by(passes, p, Direction::East) || touched_by(passes, p, Direction::South)
}

/// `after` is `before` with the doors of `passes` opened from both sides.
pub open spec fn map_extends(before: RoomMap, after: RoomMap, passes: Set<(Position, Direction)>) -> bool {
    &&& forall|p: Position| #[trigger] after.has_room(p) <==> (before.has_room(p) || touched(passes, p))
    &&& forall|p: Position, k: int| 0 <= k < 4 ==> #[trigger] after.doors(p)[k] == (before.doors(p)[k]
        || passes.contains((p, ind_dir_spec(k)))
        || passes.contains((step_spec(p, ind_dir_spec(k)), opposite_spec(ind_dir_spec(k)))))
}

/// Whether a room is far enough from the limits of `isize` for `extra`
/// more steps.
pub open spec fn in_reach(p: Position, extra: int) -> bool {
    &&& -(isize::MAX as int) + extra < p.r < isize::MAX - extra
    &&& -(isize::MAX as int) + extra < p.c < isize::MAX - extra
}

proof fn lemma_doors_ok_inside(p: Position, conn: Seq<bool>)
    requires
        in_reach(p, 0),
    ensures
        doors_ok(p, conn),
        forall|d: Direction| #[trigger] can_step(p, d),
{
}

proof fn lemma_extends_trans(a: RoomMap, b: RoomMap, c: RoomMap, p1: Set<(Position, Direction)>, p2: Set<(Position, Direction)>)
    requires
        map_extends(a, b, p1),
        map_extends(b, c, p2),
    ensures
        map_extends(a, c, p1.union(p2)),
{
    assert forall|p: Position| #[trigger] c.has_room(p) <==> (a.has_room(p) || touched(p1.union(p2), p)) by {
        assert(b.has_room(p) <==> (a.has_room(p) || touched(p1, p)));
    }
    assert forall|p: Position, k: int| 0 <= k < 4 implies #[trigger] c.doors(p)[k] == (a.doors(p)[k]
        || p1.union(p2).contains((p, ind_dir_spec(k)))
        || p1.union(p2).contains((step_spec(p, ind_dir_spec(k)), opposite_spec(ind_dir_spec(k))))) by {
        assert(b.doors(p)[k] == (a.doors(p)[k]
            || p1.contains((p, ind_dir_spec(k)))
            || p1.contains((step_spec(p, ind_dir_spec(k)), opposite_spec(ind_dir_spec(k))))));
    }
}

proof fn lemma_extends_refl(a: RoomMap)
    ensures
        map_extends(a, a, Set::empty()),
{
}

proof fn lemma_extends_mono(a: RoomMap, b: RoomMap, p1: Set<(Position, Direction)>, p2: Set<(Position, Direction)>)
    requires
        map_extends(a, b, p1),
        p1 == p2,
    ensures
        map_extends(a, b, p2),
{
}

proof fn lemma_add_pass_extends(before: RoomMap, after: RoomMap, pos: Position, dir: Direction, res: Position)
    requires
        in_reach(pos, 1),
        res == step_spec(pos, dir),
        forall|p: Position| #[trigger] after.has_room(p) <==> (before.has_room(p) || p == pos || p == res),
        forall|p: Position, k: int| 0 <= k < 4 ==> #[trigger] after.doors(p)[k] == (before.doors(p)[k]
            || (p == pos && k == dir_ind_spec(dir)) || (p == res && k == dir_ind_spec(opposite_spec(dir)))),
    ensures
        map_extends(before, after, set![(pos, dir)]),
{
    let ps = set![(pos, dir)];
    assert forall|p: Position| #[trigger] after.has_room(p) <==> (before.has_room(p) || touched(ps, p)) by {
        if p == pos {
            assert(ps.contains((p, dir)));
            assert(touched_by(ps, p, dir));
        }
        if p == res {
            lemma_step_back(pos, dir);
            assert(ps.contains((step_spec(p, opposite_spec(dir)), opposite_spec(opposite_spec(dir)))));
            assert(touched_by(ps, p, opposite_spec(dir)));
        }
        if touched(ps, p) && p != pos {
            assert(p == res) by {
                match dir {
                    Direction::North => {},
                    Direction::South => {},
                    Direction::West => {},
                    Direction::East => {},
                }
            }
        }
    }
    assert forall|p: Position, k: int| 0 <= k < 4 implies #[trigger] after.doors(p)[k] == (before.doors(p)[k]
        || ps.contains((p, ind_dir_spec(k)))
        || ps.contains((step_spec(p, ind_dir_spec(k)), opposite_spec(ind_dir_spec(k))))) by {
        let dk = ind_dir_spec(k);
        assert(dir_ind_spec(dk) == k);
        if p == res && k == dir_ind_spec(opposite_spec(dir)) {
            lemma_step_back(pos, dir);
            assert(dk == opposite_spec(dir)) by {
                match dir {
                    Direction::North => {},
                    Direction::South => {},
                    Direction::West => {},
                    Direction::East => {},
                }
            }
            assert(ps.contains((step_spec(p, dk), opposite_spec(dk))));
        }
        if ps.contains((step_spec(p, dk), opposite_spec(dk))) {
            assert(step_spec(p, dk) == pos && opposite_spec(dk) == dir);
            assert(p == res && k == dir_ind_spec(opposite_spec(dir))) by {
                assert(0 <= k < 4);
                match dk {
                    Direction::North => {},
                    Direction::South => {},
                    Direction::West => {},
                    Direction::East => {},
                }
            }
        }
        if ps.contains((p, dk)) {
            assert(p == pos && dk == dir);
        }
    }
}

/// Walks `dirs` from `p`, opening the doors passed; gives the room reached.
#[verifier::spinoff_prover]
#[verifier::rlimit(60)]
fn walk_path(p: Position, dirs: &Vec<Direction>, map: &mut RoomMap, Ghost(extra): Ghost<int>) -> (res: Position)
    requires
        old(map).wf(),
        extra >= 0,
        in_reach(p, dirs@.len() + extra),
    ensures
        final(map).wf(),
        res == walk_to(p, dirs@, dirs@.len() as int),
        in_reach(res, extra),
        map_extends(*old(map), *final(map), walk_passes(p, dirs@, dirs@.len() as int)),
{
    let mut q = p;
    let mut k: usize = 0;
    proof {
        assert(walk_passes(p, dirs@, 0) =~= Set::<(Position, Direction)>::empty());
        lemma_extends_refl(*map);
    }
    while k < dirs.len()
        invariant
            map.wf(),
            k <= dirs@.len(),
            extra >= 0,
            q == walk_to(p, dirs@, k as int),
            in_reach(q, dirs@.len() - k + extra),
            map_extends(*old(map), *map, walk_passes(p, dirs@, k as int)),
        decreases dirs@.len() - k,
    {
        let d = dirs[k];
        let ghost before = *map;
        proof {
            lemma_doors_ok_inside(q, map.doors(q));
            lemma_doors_ok_inside(step_spec(q, d), map.doors(step_spec(q, d)));
        }
        let nq = map.add_pass(&q, d);
        proof {
            lemma_add_pass_extends(before, *map, q, d, nq);
            lemma_extends_trans(*old(map), before, *map, walk_passes(p, dirs@, k as int), set![(q, d)]);
            lemma_walk_passes_step(p, dirs@, k as int);
        }
        q = nq;
        k = k + 1;
    }
    q
}

#[verifier::spinoff_prover]
#[verifier::rlimit(60)]
proof fn lemma_walk_passes_step(p: Position, dirs: Seq<Direction>, k: int)
    requires
        0 <= k < dirs.len(),
    ensures
        walk_passes(p, dirs, k).union(set![(walk_to(p, dirs, k), dirs[k])]) == walk_passes(p, dirs, k + 1),
{
    let q = walk_to(p, dirs, k);
    let d = dirs[k];
    assert forall|x: (Position, Direction)| walk_passes(p, dirs, k + 1).contains(x) implies
        walk_passes(p, dirs, k).union(set![(q, d)]).contains(x) by {
        let j = choose|j: int| 0 <= j < k + 1 && x == (walk_to(p, dirs, j), dirs[j]);
        if j < k {
            assert(walk_passes(p, dirs, k).contains(x));
        }
    }
    assert forall|x: (Position, Direction)| walk_passes(p, dirs, k).union(set![(q, d)]).contains(x)
        implies walk_passes(p, dirs, k + 1).contains(x) by {
        if x == (q, d) {
            assert(x == (walk_to(p, dirs, k), dirs[k]));
        } else {
            let j = choose|j: int| 0 <= j < k && x == (walk_to(p, dirs, j), dirs[j]);
            assert(0 <= j < k + 1 && x == (walk_to(p, dirs, j), dirs[j]));
        }
    }
    assert(walk_passes(p, dirs, k).union(set![(q, d)]) =~= walk_passes(p, dirs, k + 1));
}

/// A copy of a list of rooms.
fn copy_positions(v: &Vec<Position>) -> (res: Vec<Position>)
    ensures
        res@ == v@,
{
    let mut res: Vec<Position> = Vec::new();
    let mut i: usize = 0;
    while i < v.len()
        invariant
            i <= v.len(),
            res@ == v@.subrange(0, i as int),
        decreases v.len() - i,
    {
        res.push(v[i]);
        i = i + 1;
        proof {
            assert(v@.subrange(0, i as int) =~= v@.subrange(0, i - 1).push(v@[i - 1]));
        }
    }
    res
}

/// Adds `p` to the list of rooms unless it is there already.
fn insert_position(v: &mut Vec<Position>, p: Position)
    ensures
        final(v)@.to_set() == old(v)@.to_set().insert(p),
{
    let mut i: usize = 0;
    while i < v.len()
        invariant
            i <= v.len(),
            forall|k: int| 0 <= k < i ==> v@[k] != p,
        decreases v.len() - i,
    {
        if v[i] == p {
            proof {
                assert(v@.to_set().contains(p));
                assert(v@.to_set().insert(p) =~= v@.to_set());
            }
            return;
        }
        i = i + 1;
    }
    v.push(p);
    proof {
        assert(v@.to_set() =~= old(v)@.to_set().insert(p)) by {
            assert forall|x: Position| v@.to_set().contains(x) implies old(v)@.to_set().insert(p).contains(x) by {
                let k = v@.index_of(x);
                if k < old(v)@.len() {
                    assert(old(v)@[k] == x);
                }
            }
            assert forall|x: Position| old(v)@.to_set().insert(p).contains(x) implies v@.to_set().contains(x) by {
                if x == p {
                    assert(v@[old(v)@.len() as int] == p);
                } else {
                    let k = old(v)@.index_of(x);
                    assert(v@[k] == x);
                }
            }
        }
    }
}

impl PathNode {
    /// Walks the tree from the rooms of `pos_set`, opening the doors passed;
    /// `pos_set` becomes the rooms where the walks end.
    pub fn chart(&self, pos_set: &mut Vec<Position>, map: &mut RoomMap) -> (res: Result<(), Error>)
        requires
            old(map).wf(),
            node_ok(*self),
            forall|k: int| 0 <= k < old(pos_set)@.len() ==> in_reach(#[trigger] old(pos_set)@[k], node_len(*self) as int),
        ensures
            res is Ok,
            final(map).wf(),
            final(pos_set)@.to_set() == chart_spec(*self, old(pos_set)@.to_set()).0,
            map_extends(*old(map), *final(map), chart_spec(*self, old(pos_set)@.to_set()).1),
    {
        self.chart_in(pos_set, map, Ghost(0));
        Ok(())
    }

    fn chart_in(&self, pos_set: &mut Vec<Position>, map: &mut RoomMap, Ghost(extra): Ghost<int>)
        requires
            old(map).wf(),
            node_ok(*self),
            extra >= 0,
            forall|k: int| 0 <= k < old(pos_set)@.len() ==> in_reach(#[trigger] old(pos_set)@[k], node_len(*self) + extra),
        ensures
            final(map).wf(),
            final(pos_set)@.to_set() == chart_spec(*self, old(pos_set)@.to_set()).0,
            map_extends(*old(map), *final(map), chart_spec(*self, old(pos_set)@.to_set()).1),
            forall|k: int| 0 <= k < final(pos_set)@.len() ==> in_reach(#[trigger] final(pos_set)@[k], extra),
        decreases *self,
    {
        match self {
            PathNode::PathLeading { path, tail_exp } => {
                let tail_len: Ghost<int> = Ghost(match tail_exp {
                    Some(t) => node_len(**t) as int,
                    None => 0,
                });
                let dirs = path_dirs(path);
                let ghost s0 = pos_set@.to_set();
                let ghost l = dirs@.len() as int;
                let ghost pre_map = *map;
                let mut ends: Vec<Position> = Vec::new();
                let mut i: usize = 0;
                proof {
                    lemma_extends_refl(*map);
                    assert(pos_set@.subrange(0, 0).to_set() =~= Set::<Position>::empty());
                    assert(ends@.to_set() =~= Set::<Position>::empty());
                    assert(Set::new(|x: (Position, Direction)| exists|p: Position| Set::<Position>::empty().contains(p)
                        && #[trigger] walk_passes(p, dirs@, l).contains(x)) =~= Set::<(Position, Direction)>::empty());
                }
                while i < pos_set.len()
                    invariant
                        map.wf(),
                        i <= pos_set@.len(),
                        extra >= 0,
                        tail_len@ >= 0,
                        l == dirs@.len(),
                        dirs@ == dirs_of(path@),
                        pos_set@.to_set() == s0,
                        forall|k: int| 0 <= k < pos_set@.len() ==> in_reach(#[trigger] pos_set@[k], l + tail_len@ + extra),
                        ends@.to_set() == pos_set@.subrange(0, i as int).to_set().map(|p: Position| walk_to(p, dirs@, l)),
                        forall|k: int| 0 <= k < ends@.len() ==> in_reach(#[trigger] ends@[k], tail_len@ + extra),
                        map_extends(pre_map, *map, Set::new(|x: (Position, Direction)| exists|p: Position|
                            pos_set@.subrange(0, i as int).to_set().contains(p) && #[trigger] walk_passes(p, dirs@, l).contains(x))),
                    decreases pos_set@.len() - i,
                {
                    let p = pos_set[i];
                    let ghost before = *map;
                    let ghost sub = pos_set@.subrange(0, i as int).to_set();
                    let ghost sub2 = pos_set@.subrange(0, i + 1).to_set();
                    let e = walk_path(p, &dirs, map, Ghost(tail_len@ + extra));
                    let ghost old_ends = ends@;
                    insert_position(&mut ends, e);
                    proof {
                        assert(sub2 =~= sub.insert(p)) by {
                            assert(pos_set@.subrange(0, i + 1) =~= pos_set@.subrange(0, i as int).push(p));
                            assert forall|x: Position| sub2.contains(x) implies sub.insert(p).contains(x) by {
                                let k = pos_set@.subrange(0, i + 1).index_of(x);
                                if k < i {
                                    assert(pos_set@.subrange(0, i as int)[k] == x);
                                }
                            }
                            assert forall|x: Position| sub.insert(p).contains(x) implies sub2.contains(x) by {
                                if x == p {
                                    assert(pos_set@.subrange(0, i + 1)[i as int] == p);
                                } else {
                                    let k = pos_set@.subrange(0, i as int).index_of(x);
                                    assert(pos_set@.subrange(0, i + 1)[k] == x);
                                }
                            }
                        }
                        let f = |q: Position| walk_to(q, dirs@, l);
                        assert(sub2.map(f) =~= sub.map(f).insert(e)) by {
                            assert forall|y: Position| sub2.map(f).contains(y) implies sub.map(f).insert(e).contains(y) by {
                                let q = choose|q: Position| sub2.contains(q) && y == f(q);
                                if q != p {
                                    assert(sub.contains(q));
                                }
                            }
                            assert forall|y: Position| sub.map(f).insert(e).contains(y) implies sub2.map(f).contains(y) by {
                                if y == e {
                                    assert(sub2.contains(p) && y == f(p));
                                } else {
                                    let q = choose|q: Position| sub.contains(q) && y == f(q);
                                    assert(sub2.contains(q));
                                }
                            }
                        }
                        assert forall|k: int| 0 <= k < ends@.len() implies in_reach(#[trigger] ends@[k], tail_len@ + extra) by {
                            if ends@[k] != e {
                                assert(old_ends.to_set().contains(ends@[k])) by {
                                    assert(ends@.to_set().contains(ends@[k]));
                                }
                                let j = old_ends.index_of(ends@[k]);
                                assert(old_ends[j] == ends@[k]);
                            }
                        }
                        let pa = Set::new(|x: (Position, Direction)| exists|q: Position| sub.contains(q) && #[trigger] walk_passes(q, dirs@, l).contains(x));
                        let pb = Set::new(|x: (Position, Direction)| exists|q: Position| sub2.contains(q) && #[trigger] walk_passes(q, dirs@, l).contains(x));
                        lemma_extends_trans(pre_map, before, *map, pa, walk_passes(p, dirs@, l));
                        assert(pa.union(walk_passes(p, dirs@, l)) =~= pb) by {
                            assert forall|x: (Position, Direction)| pb.contains(x) implies pa.union(walk_passes(p, dirs@, l)).contains(x) by {
                                let q = choose|q: Position| sub2.contains(q) && #[trigger] walk_passes(q, dirs@, l).contains(x);
                                if q != p {
                                    assert(sub.contains(q));
                                }
                            }
                            assert forall|x: (Position, Direction)| pa.union(walk_passes(p, dirs@, l)).contains(x) implies pb.contains(x) by {
                                if walk_passes(p, dirs@, l).contains(x) {
                                    assert(sub2.contains(p));
                                } else {
                                    let q = choose|q: Position| sub.contains(q) && #[trigger] walk_passes(q, dirs@, l).contains(x);
                                    assert(sub2.contains(q));
                                }
                            }
                        }
                    }
                    i = i + 1;
                }
                proof {
                    assert(pos_set@.subrange(0, i as int) =~= pos_set@);
                }
                let ghost mid_map = *map;
                let ghost ends_set = ends@.to_set();
                let ghost passes = Set::new(|x: (Position, Direction)| exists|p: Position| s0.contains(p)
                    && #[trigger] walk_passes(p, dirs@, l).contains(x));
                *pos_set = ends;
                match tail_exp {
                    Some(t) => {
                        t.chart_in(pos_set, map, Ghost(extra));
                        proof {
                            lemma_extends_trans(pre_map, mid_map, *map, passes, chart_spec(**t, ends_set).1);
                        }
                    },
                    None => {},
                }
            },
            PathNode::BranchLeading { branch, tail_exp } => {
                let tail_len: Ghost<int> = Ghost(match tail_exp {
                    Some(t) => node_len(**t) as int,
                    None => 0,
                });
                let ghost pre_map = *map;
                let ghost s0 = pos_set@.to_set();
                branch.chart_in(pos_set, map, Ghost(tail_len@ + extra));
                let ghost mid_map = *map;
                let ghost s1 = pos_set@.to_set();
                match tail_exp {
                    Some(t) => {
                        t.chart_in(pos_set, map, Ghost(extra));
                        proof {
                            lemma_extends_trans(pre_map, mid_map, *map, chart_spec(**branch, s0).1, chart_spec(**t, s1).1);
                        }
                    },
                    None => {},
                }
            },
            PathNode::EmptyAlter => {
                proof {
                    lemma_extends_refl(*map);
                }
            },
            PathNode::ExpAlter { exp } => {
                exp.chart_in(pos_set, map, Ghost(extra));
            },
            PathNode::ExpLeadingBranch { exp, tail_branch } => {
                let tail_len: Ghost<int> = Ghost(match tail_branch {
                    Some(t) => node_len(**t) as int,
                    None => 0,
                });
                let ghost pre_map = *map;
                let ghost s0 = pos_set@.to_set();
                let mut branch_pos_set = copy_positions(pos_set);
                exp.chart_in(pos_set, map, Ghost(tail_len@ + extra));
                let ghost mid_map = *map;
                let ghost s1 = pos_set@.to_set();
                match tail_branch {
                    Some(t) => {
                        t.chart_in(&mut branch_pos_set, map, Ghost(extra));
                        proof {
                            lemma_extends_trans(pre_map, mid_map, *map, chart_spec(**exp, s0).1, chart_spec(**t, s0).1);
                        }
                    },
                    None => {},
                }
                let ghost s2 = branch_pos_set@.to_set();
                let ghost first = pos_set@;
                let mut j: usize = 0;
                while j < branch_pos_set.len()
                    invariant
                        j <= branch_pos_set@.len(),
                        extra >= 0,
                        pos_set@.to_set() == s1.union(branch_pos_set@.subrange(0, j as int).to_set()),
                        forall|k: int| 0 <= k < branch_pos_set@.len() ==> in_reach(#[trigger] branch_pos_set@[k], extra),
                        forall|k: int| 0 <= k < pos_set@.len() ==> in_reach(#[trigger] pos_set@[k], extra),
                    decreases branch_pos_set@.len() - j,
                {
                    let q = branch_pos_set[j];
                    let ghost prev = pos_set@;
                    insert_position(pos_set, q);
                    proof {
                        assert(branch_pos_set@.subrange(0, j + 1).to_set() =~= branch_pos_set@.subrange(0, j as int).to_set().insert(q)) by {
                            assert(branch_pos_set@.subrange(0, j + 1) =~= branch_pos_set@.subrange(0, j as int).push(q));
                            assert forall|x: Position| branch_pos_set@.subrange(0, j + 1).to_set().contains(x) implies
                                branch_pos_set@.subrange(0, j as int).to_set().insert(q).contains(x) by {
                                let k = branch_pos_set@.subrange(0, j + 1).index_of(x);
                                if k < j {
                                    assert(branch_pos_set@.subrange(0, j as int)[k] == x);
                                }
                            }
                            assert forall|x: Position| branch_pos_set@.subrange(0, j as int).to_set().insert(q).contains(x) implies
                                branch_pos_set@.subrange(0, j + 1).to_set().contains(x) by {
                                if x == q {
                                    assert(branch_pos_set@.subrange(0, j + 1)[j as int] == q);
                                } else {
                                    let k = branch_pos_set@.subrange(0, j as int).index_of(x);
                                    assert(branch_pos_set@.subrange(0, j + 1)[k] == x);
                                }
                            }
                        }
                        assert forall|k: int| 0 <= k < pos_set@.len() implies in_reach(#[trigger] pos_set@[k], extra) by {
                            if pos_set@[k] != q {
                                assert(prev.to_set().contains(pos_set@[k])) by {
                                    assert(pos_set@.to_set().contains(pos_set@[k]));
                                }
                                let jj = prev.index_of(pos_set@[k]);
                                assert(prev[jj] == pos_set@[k]);
                            }
                        }
                    }
                    j = j + 1;
                }
                proof {
                    assert(branch_pos_set@.subrange(0, j as int) =~= branch_pos_set@);
                    match tail_branch {
                        Some(t) => {},
                        None => {
                            lemma_extends_mono(pre_map, *map, chart_spec(**exp, s0).1, chart_spec(**exp, s0).1);
                        },
                    }
                }
            },
        }
    }
}

/// The directions of the letters of a path.
fn path_dirs(path: &String) -> (res: Vec<Direction>)
    requires
        forall|k: int| 0 <= k < path@.len() ==> is_dir_char(#[trigger] path@[k]),
    ensures
        res@ == dirs_of(path@),
{
    let s = path.as_str();
    let n = s.unicode_len();
    let mut dirs: Vec<Direction> = Vec::new();
    let mut k: usize = 0;
    while k < n
        invariant
            k <= n,
            n == path@.len(),
            s@ == path@,
            forall|j: int| 0 <= j < path@.len() ==> is_dir_char(#[trigger] path@[j]),
            dirs@ == dirs_of(path@.subrange(0, k as int)),
        decreases n - k,
    {
        let c = s.get_char(k);
        let d = match Direction::from_char(c) {
            Ok(d) => d,
            Err(_) => Direction::North,
        };
        dirs.push(d);
        k = k + 1;
        proof {
            assert(dirs@ =~= dirs_of(path@.subrange(0, k as int)));
        }
    }
    proof {
        assert(path@.subrange(0, n as int) =~= path@);
    }
    dirs
}

/// The first letter of the paths of a tree, in the order the tree is
/// walked, that is no direction.
pub open spec fn first_bad_char(node: PathNode) -> Option<char>
    decreases node,
{
    match node {
        PathNode::PathLeading { path, tail_exp } => {
            if first_bad_index(path@, 0) < path@.len() {
                Some(path@[first_bad_index(path@, 0)])
            } else {
                match tail_exp {
                    Some(t) => first_bad_char(*t),
                    None => None,
                }
            }
        },
        PathNode::BranchLeading { branch, tail_exp } => match first_bad_char(*branch) {
            Some(c) => Some(c),
            None => match tail_exp {
                Some(t) => first_bad_char(*t),
                None => None,
            },
        },
        PathNode::EmptyAlter => None,
        PathNode::ExpAlter { exp } => first_bad_char(*exp),
        PathNode::ExpLeadingBranch { exp, tail_branch } => match first_bad_char(*exp) {
            Some(c) => Some(c),
            None => match tail_branch {
                Some(t) => first_bad_char(*t),
                None => None,
            },
        },
    }
}

/// The place of the first letter of `path` from place `i` on that is no
/// direction; the length of `path` when there is none.
pub open spec fn first_bad_index(path: Seq<char>, i: int) -> int
    decreases path.len() - i,
{
    if i < 0 || i >= path.len() {
        path.len() as int
    } else if !is_dir_char(path[i]) {
        i
    } else {
        first_bad_index(path, i + 1)
    }
}

proof fn lemma_first_bad_index(path: Seq<char>, i: int, k: int)
    requires
        0 <= i <= k <= path.len(),
        k == path.len() || !is_dir_char(path[k]),
        forall|j: int| i <= j < k ==> is_dir_char(#[trigger] path[j]),
    ensures
        first_bad_index(path, i) == k,
    decreases k - i,
{
    if i < k {
        lemma_first_bad_index(path, i + 1, k);
    }
}

impl PathNode {
    /// The number of letters of all the paths of the tree, or `u64::MAX`
    /// where there are more.
    pub fn letter_count(&self) -> (res: u64)
        ensures
            res == if node_len(*self) < u64::MAX { node_len(*self) as int } else { u64::MAX as int },
        decreases *self,
    {
        match self {
            PathNode::PathLeading { path, tail_exp } => {
                let n = path.as_str().unicode_len() as u64;
                let t = match tail_exp {
                    Some(t) => t.letter_count(),
                    None => 0,
                };
                n.saturating_add(t)
            },
            PathNode::BranchLeading { branch, tail_exp } => {
                let b = branch.letter_count();
                let t = match tail_exp {
                    Some(t) => t.letter_count(),
                    None => 0,
                };
                b.saturating_add(t)
            },
            PathNode::EmptyAlter => 0,
            PathNode::ExpAlter { exp } => exp.letter_count(),
            PathNode::ExpLeadingBranch { exp, tail_branch } => {
                let e = exp.letter_count();
                let t = match tail_branch {
                    Some(t) => t.letter_count(),
                    None => 0,
                };
                e.saturating_add(t)
            },
        }
    }

    /// The first letter of the paths, in walking order, that is no
    /// direction.
    pub fn find_bad_char(&self) -> (res: Option<char>)
        ensures
            res == first_bad_char(*self),
            res is None ==> node_ok(*self),
        decreases *self,
    {
        match self {
            PathNode::PathLeading { path, tail_exp } => {
                let s = path.as_str();
                let n = s.unicode_len();
                let mut k: usize = 0;
                while k < n
                    invariant
                        k <= n,
                        n == path@.len(),
                        s@ == path@,
                        *self == (PathNode::PathLeading { path: *path, tail_exp: *tail_exp }),
                        forall|j: int| 0 <= j < k ==> is_dir_char(#[trigger] path@[j]),
                    decreases n - k,
                {
                    let c = s.get_char(k);
                    if !(c == 'N' || c == 'W' || c == 'E' || c == 'S') {
                        proof {
                            lemma_first_bad_index(path@, 0, k as int);
                        }
                        return Some(c);
                    }
                    k = k + 1;
                }
                proof {
                    lemma_first_bad_index(path@, 0, n as int);
                }
                match tail_exp {
                    Some(t) => t.find_bad_char(),
                    None => None,
                }
            },
            PathNode::BranchLeading { branch, tail_exp } => match branch.find_bad_char() {
                Some(c) => Some(c),
                None => match tail_exp {
                    Some(t) => t.find_bad_char(),
                    None => None,
                },
            },
            PathNode::EmptyAlter => None,
            PathNode::ExpAlter { exp } => exp.find_bad_char(),
            PathNode::ExpLeadingBranch { exp, tail_branch } => match exp.find_bad_char() {
                Some(c) => Some(c),
                None => match tail_branch {
                    Some(t) => t.find_bad_char(),
                    None => None,
                },
            },
        }
    }
}

/// The map of rooms that walking a tree from the room `(0, 0)` opens; an
/// error names the first letter of a path that is no direction.
pub fn chart_from_origin(node: &PathNode) -> (res: Result<RoomMap, Error>)
    requires
        node_len(*node) < isize::MAX,
    ensures
        first_bad_char(*node) matches Some(c) ==> res matches Err(Error::InvalidDirectionChar(e)) && e == c,
        first_bad_char(*node) is None ==> (res matches Ok(map) && map.wf()
            && opened_from_nothing(map, chart_spec(*node, set![Position { r: 0, c: 0 }]).1)),
{
    if let Some(c) = node.find_bad_char() {
        return Err(Error::InvalidDirectionChar(c));
    }
    let mut map = RoomMap::new();
    let mut pos_set: Vec<Position> = Vec::new();
    pos_set.push(Position::new(0, 0));
    proof {
        assert(pos_set@.to_set() =~= set![Position { r: 0, c: 0 }]) by {
            assert(pos_set@[0] == Position { r: 0, c: 0 });
        }
    }
    let ghost m0 = map;
    let _ = node.chart(&mut pos_set, &mut map);
    proof {
        let ps = chart_spec(*node, set![Position { r: 0, c: 0 }]).1;
        assert forall|p: Position| #[trigger] map.has_room(p) <==> touched(ps, p) by {
            assert(!m0.has_room(p));
        }
        assert forall|p: Position, k: int| 0 <= k < 4 implies #[trigger] map.doors(p)[k] == (ps.contains((p, ind_dir_spec(k)))
            || ps.contains((step_spec(p, ind_dir_spec(k)), opposite_spec(ind_dir_spec(k))))) by {
            assert(!m0.has_room(p));
            assert(m0.doors(p)[k] == false);
        }
    }
    Ok(map)
}

/// `map` holds exactly the rooms of the doors of `passes`, with those doors
/// open from both sides.
pub open spec fn opened_from_nothing(map: RoomMap, passes: Set<(Position, Direction)>) -> bool {
    &&& forall|p: Position| #[trigger] map.has_room(p) <==> touched(passes, p)
    &&& forall|p: Position, k: int| 0 <= k < 4 ==> #[trigger] map.doors(p)[k] == (passes.contains((p, ind_dir_spec(k)))
        || passes.contains((step_spec(p, ind_dir_spec(k)), opposite_spec(ind_dir_spec(k)))))
}

} // verus!
