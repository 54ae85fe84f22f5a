//! A vault of keys and doors: collectors start at the entrances and walk to
//! keys; a door opens for the collectors once they hold its key.  The
//! shortest way to collect keys is searched over the states of the team.

use vstd::prelude::*;
use crate::search::{bfs_depth, lemma_bfs_depth_push};

verus! {

/// What went wrong while reading a vault.
#[derive(Debug)]
pub enum Error {
    /// (length of the row, length of the first row).
    InconsistentRowInMap(usize, usize),
    /// (place of the second entrance, place of the first).
    MultipleEntrancesInMap(usize, usize),
    InvalidMapChar(char),
    NoEntranceInMap,
}

/// A tile of the vault.
#[derive(Debug, Clone, Copy, PartialEq, Eq, Structural)]
pub enum TileType {
    Empty,
    Wall,
    Key(char),
    Door(char),
}

pub open spec fn is_upper(c: char) -> bool {
    'A' <= c <= 'Z'
}

pub open spec fn is_lower(c: char) -> bool {
    'a' <= c <= 'z'
}

/// The lower-case letter of an upper-case letter; other characters as they
/// are.
pub open spec fn lower_spec(c: char) -> char {
    if is_upper(c) {
        ((c as u32) + 32) as char
    } else {
        c
    }
}

/// The tile a character of the input stands for.
pub open spec fn tile_of_char(c: char) -> Option<TileType> {
    if c == '#' {
        Some(TileType::Wall)
    } else if c == '.' {
        Some(TileType::Empty)
    } else if is_upper(c) {
        Some(TileType::Door(c))
    } else if is_lower(c) {
        Some(TileType::Key(c))
    } else {
        None
    }
}

impl TileType {
    /// The tile a character of the input stands for.
    pub fn try_from_char(value: char) -> (res: Result<TileType, Error>)
        ensures
            match tile_of_char(value) {
                Some(t) => res == Ok::<TileType, Error>(t),
                None => res matches Err(Error::InvalidMapChar(c)) && c == value,
            },
    {
        if value == '#' {
            Ok(TileType::Wall)
        } else if value == '.' {
            Ok(TileType::Empty)
        } else if 'A' <= value && value <= 'Z' {
            Ok(TileType::Door(value))
        } else if 'a' <= value && value <= 'z' {
            Ok(TileType::Key(value))
        } else {
            Err(Error::InvalidMapChar(value))
        }
    }

    /// The key that opens this door.
    pub fn key_of_door(&self) -> (res: Option<char>)
        ensures
            res == match *self {
                TileType::Door(c) => Some(lower_spec(c)),
                _ => None,
            },
    {
        match self {
            TileType::Door(c) => Some(to_lower(*c)),
            _ => None,
        }
    }
}

fn to_lower(c: char) -> (res: char)
    ensures
        res == lower_spec(c),
{
    if 'A' <= c && c <= 'Z' {
        let u = (c as u8) + 32;
        u as char
    } else {
        c
    }
}

/// The four ways to move in the vault.
#[derive(Debug, Clone, Copy, PartialEq, Eq, Structural)]
pub enum Direction {
    North,
    South,
    West,
    East,
}

impl Direction {
    pub fn reverse(&self) -> (res: Self)
        ensures
            res == match *self {
                Direction::North => Direction::South,
                Direction::South => Direction::North,
                Direction::West => Direction::East,
                Direction::East => Direction::West,
            },
    {
        match self {
            Direction::North => Direction::South,
            Direction::South => Direction::North,
            Direction::West => Direction::East,
            Direction::East => Direction::West,
        }
    }
}

/// A place in the vault: column `x` (`.0`) and row `y` (`.1`).
#[derive(Debug, Clone, Copy, PartialEq, Eq, Hash, PartialOrd, Ord, Structural)]
pub struct Position(pub usize, pub usize);

/// The place one step from `p` in direction `d`, if it is on the map.
pub open spec fn move_spec(p: Position, d: Direction) -> Option<Position> {
    match d {
        Direction::North => if p.1 > 0 { Some(Position(p.0, (p.1 - 1) as usize)) } else { None },
        Direction::South => if p.1 < usize::MAX { Some(Position(p.0, (p.1 + 1) as usize)) } else { None },
        Direction::West => if p.0 > 0 { Some(Position((p.0 - 1) as usize, p.1)) } else { None },
        Direction::East => if p.0 < usize::MAX { Some(Position((p.0 + 1) as usize, p.1)) } else { None },
    }
}

impl Position {
    pub fn new(x: usize, y: usize) -> (res: Self)
        ensures
            res == Position(x, y),
    {
        Position(x, y)
    }

    pub fn x(&self) -> (res: usize)
        ensures
            res == self.0,
    {
        self.0
    }

    pub fn y(&self) -> (res: usize)
        ensures
            res == self.1,
    {
        self.1
    }

    /// The place one step away in direction `dir`; at the edges of
    /// `usize` there is none.
    pub fn move_along(&self, dir: Direction) -> (res: Option<Self>)
        ensures
            res == move_spec(*self, dir),
    {
        match dir {
            Direction::North => if self.1 > 0 { Some(Position(self.0, self.1 - 1)) } else { None },
            Direction::South => if self.1 < usize::MAX { Some(Position(self.0, self.1 + 1)) } else { None },
            Direction::West => if self.0 > 0 { Some(Position(self.0 - 1, self.1)) } else { None },
            Direction::East => if self.0 < usize::MAX { Some(Position(self.0 + 1, self.1)) } else { None },
        }
    }
}

/// The vault: its tiles row by row, its size and its entrances.
#[derive(Debug)]
pub struct VaultMap {
    map: Vec<TileType>,
    row_n: usize,
    col_n: usize,
    entrance_ind: Vec<usize>,
}

/// Whether `e` is the index, counted row by row, of an `@` in the lines.
pub open spec fn entrance_at(lines: Seq<&str>, e: int) -> bool {
    exists|r: int, k: int|
        0 <= r < lines.len() && 0 <= k < lines[0]@.len() && #[trigger] lines[r]@[k] == '@' && e == r
            * lines[0]@.len() + k
}

/// Whether place `(r1, c1)` comes before place `(r, c)` in reading order.
pub open spec fn read_before(r1: int, c1: int, r: int, c: int) -> bool {
    r1 < r || (r1 == r && c1 < c)
}

/// Whether the lines hold no fault before place `(r, c)` in reading order:
/// the rows before row `r` are as long as the first, the characters before
/// are tiles or `@`, and all `@` before are at one place.
pub open spec fn clean_before(lines: Seq<&str>, r: int, c: int) -> bool {
    let w = lines[0]@.len() as int;
    &&& forall|r1: int| 0 <= r1 < r ==> (#[trigger] lines[r1])@.len() == w
    &&& forall|r1: int, c1: int|
        0 <= r1 && 0 <= c1 < w && read_before(r1, c1, r, c) ==> #[trigger] lines[r1]@[c1] == '@' || tile_of_char(
            lines[r1]@[c1],
        ) is Some
    &&& forall|r1: int, c1: int, r2: int, c2: int|
        0 <= r1 && 0 <= c1 < w && 0 <= r2 && 0 <= c2 < w && read_before(r1, c1, r, c) && read_before(r2, c2, r, c)
            && #[trigger] lines[r1]@[c1] == '@' && #[trigger] lines[r2]@[c2] == '@' ==> r1 * w + c1 == r2 * w + c2
}

/// Whether an `@` before place `(r, c)` in reading order is at index `e`.
pub open spec fn entrance_before(lines: Seq<&str>, e: int, r: int, c: int) -> bool {
    let w = lines[0]@.len() as int;
    exists|r1: int, c1: int|
        0 <= r1 && 0 <= c1 < w && read_before(r1, c1, r, c) && #[trigger] lines[r1]@[c1] == '@' && e == r1 * w + c1
}

/// The tiles of the lines `lines` row by row, an entrance `@` read as empty.
pub open spec fn line_tiles(line: Seq<char>) -> Seq<TileType> {
    Seq::new(line.len(), |i: int| if line[i] == '@' { TileType::Empty } else { tile_of_char(line[i]).unwrap() })
}

impl VaultMap {
    pub closed spec fn tiles(&self) -> Seq<TileType> {
        self.map@
    }

    pub closed spec fn rows(&self) -> nat {
        self.row_n as nat
    }

    pub closed spec fn cols(&self) -> nat {
        self.col_n as nat
    }

    pub closed spec fn entrances(&self) -> Seq<usize> {
        self.entrance_ind@
    }

    /// The place of entrance `i`.
    pub open spec fn entrance_place(&self, i: int) -> Position {
        Position(
            (self.entrances()[i] as int % self.cols() as int) as usize,
            (self.entrances()[i] as int / self.cols() as int) as usize,
        )
    }

    pub open spec fn in_map(&self, p: Position) -> bool {
        p.0 < self.cols() && p.1 < self.rows()
    }

    /// The tile at place `p`.
    pub open spec fn tile_at(&self, p: Position) -> TileType {
        self.tiles()[p.1 * self.cols() + p.0]
    }

    /// Whether a collector can stand at `p`.
    pub open spec fn pass_at(&self, p: Position) -> bool {
        self.in_map(p) && !(self.tile_at(p) is Wall)
    }

    pub open spec fn wf(&self) -> bool {
        &&& self.tiles().len() == self.rows() * self.cols()
        &&& forall|i: int| 0 <= i < self.entrances().len() ==> #[trigger] self.entrances()[i] < self.tiles().len()
    }

    /// The vault drawn by the lines: `#` a wall, `.` empty, an upper-case
    /// letter a door, a lower-case letter its key, `@` the one entrance.
    pub fn try_from_lines(lines: &Vec<&str>) -> (res: Result<Self, Error>)
        ensures
            match res {
                Ok(vm) => {
                    &&& vm.wf()
                    &&& vm.rows() == lines.len()
                    &&& lines.len() > 0
                    &&& vm.cols() == lines@[0]@.len()
                    &&& forall|r: int| 0 <= r < lines.len() ==> (#[trigger] lines@[r])@.len() == vm.cols()
                    &&& forall|r: int, c: int|
                        0 <= r < lines.len() && 0 <= c < vm.cols() ==> (#[trigger] lines@[r]@[c] == '@'
                            || tile_of_char(lines@[r]@[c]) is Some)
                            && vm.tiles()[r * vm.cols() + c] == line_tiles(lines@[r]@)[c]
                    &&& vm.entrances().len() == 1
                    &&& vm.entrances()[0] < vm.tiles().len()
                    &&& entrance_at(lines@, vm.entrances()[0] as int)
                    &&& forall|r: int, c: int|
                        0 <= r < lines.len() && 0 <= c < vm.cols() && #[trigger] lines@[r]@[c] == '@' ==> r
                            * vm.cols() + c == vm.entrances()[0]
                },
                Err(Error::InvalidMapChar(ch)) => tile_of_char(ch) is None && ch != '@' && exists|r: int, k: int|
                    0 <= r < lines.len() && 0 <= k < lines@[r]@.len() && lines@[r]@.len() == lines@[0]@.len()
                        && clean_before(lines@, r, k) && #[trigger] lines@[r]@[k] == ch,
                Err(Error::InconsistentRowInMap(a, b)) => a != b && lines.len() > 0 && b == lines@[0]@.len()
                    && exists|r: int| 0 <= r < lines.len() && clean_before(lines@, r, 0) && #[trigger] lines@[r]@.len() == a,
                Err(Error::MultipleEntrancesInMap(a, b)) => a != b && exists|r: int, k: int|
                    0 <= r < lines.len() && 0 <= k < lines@[r]@.len() && lines@[r]@.len() == lines@[0]@.len()
                        && clean_before(lines@, r, k) && #[trigger] lines@[r]@[k] == '@' && a == r * lines@[0]@.len() + k
                        && entrance_before(lines@, b as int, r, k),
                Err(Error::NoEntranceInMap) => {
                    &&& forall|r: int| 0 <= r < lines.len() ==> (#[trigger] lines@[r])@.len() == lines@[0]@.len()
                    &&& forall|r: int, c: int|
                        0 <= r < lines.len() && 0 <= c < lines@[r]@.len() ==> #[trigger] lines@[r]@[c] != '@'
                            && tile_of_char(lines@[r]@[c]) is Some
                },
            },
    {
        let mut map: Vec<TileType> = Vec::new();
        let mut row_n: usize = 0;
        let mut entrance_ind: Option<usize> = None;
        let mut col_n: Option<usize> = None;
        let n = lines.len();
        while row_n < n
            invariant
                n == lines.len(),
                row_n <= n,
                row_n > 0 ==> col_n is Some,
                match col_n {
                    Some(cn) => {
                        &&& lines.len() > 0
                        &&& cn == lines@[0]@.len()
                        &&& map.len() == row_n * cn
                        &&& forall|r: int| 0 <= r < row_n ==> (#[trigger] lines@[r])@.len() == cn
                        &&& forall|r: int, c: int|
                            0 <= r < row_n && 0 <= c < cn ==> (#[trigger] lines@[r]@[c] == '@' || tile_of_char(
                                lines@[r]@[c],
                            ) is Some) && map@[r * cn + c] == line_tiles(lines@[r]@)[c]
                        &&& match entrance_ind {
                            Some(e) => {
                                &&& e < map.len()
                                &&& entrance_at(lines@, e as int)
                                &&& forall|r: int, c: int|
                                    0 <= r < row_n && 0 <= c < cn && #[trigger] lines@[r]@[c] == '@' ==> r * cn + c == e
                            },
                            None => forall|r: int, c: int| 0 <= r < row_n && 0 <= c < cn ==> #[trigger] lines@[r]@[c] != '@',
                        }
                    },
                    None => row_n == 0 && map.len() == 0 && entrance_ind is None,
                },
                clean_before(lines@, row_n as int, 0),
                entrance_ind matches Some(e) ==> entrance_before(lines@, e as int, row_n as int, 0),
            decreases n - row_n,
        {
            let l = lines[row_n];
            let this_col_n = l.unicode_len();
            let cn = match col_n {
                Some(cn) => cn,
                None => {
                    col_n = Some(this_col_n);
                    this_col_n
                },
            };
            if cn != this_col_n {
                assert(lines@[row_n as int]@.len() == this_col_n);
                return Err(Error::InconsistentRowInMap(this_col_n, cn));
            }
            proof {
                assert(map.len() == row_n * cn);
            }
            let mut ind: usize = 0;
            while ind < this_col_n
                invariant
                    n == lines.len(),
                    row_n < n,
                    l == lines@[row_n as int],
                    this_col_n == l@.len(),
                    cn == this_col_n,
                    col_n == Some(cn),
                    cn == lines@[0]@.len(),
                    ind <= this_col_n,
                    map.len() == row_n * cn + ind,
                    forall|r: int| 0 <= r < row_n ==> (#[trigger] lines@[r])@.len() == cn,
                    forall|r: int, c: int|
                        0 <= r < row_n && 0 <= c < cn ==> (#[trigger] lines@[r]@[c] == '@' || tile_of_char(
                            lines@[r]@[c],
                        ) is Some) && map@[r * cn + c] == line_tiles(lines@[r]@)[c],
                    forall|c: int| 0 <= c < ind ==> (#[trigger] l@[c] == '@' || tile_of_char(l@[c]) is Some)
                        && map@[row_n * cn + c] == line_tiles(l@)[c],
                    match entrance_ind {
                        Some(e) => {
                            &&& e < map.len()
                            &&& entrance_at(lines@, e as int)
                            &&& forall|r: int, c: int|
                                0 <= r < row_n && 0 <= c < cn && #[trigger] lines@[r]@[c] == '@' ==> r * cn + c == e
                            &&& forall|c: int| 0 <= c < ind && #[trigger] l@[c] == '@' ==> row_n * cn + c == e
                        },
                        None => {
                            &&& forall|r: int, c: int| 0 <= r < row_n && 0 <= c < cn ==> #[trigger] lines@[r]@[c] != '@'
                            &&& forall|c: int| 0 <= c < ind ==> #[trigger] l@[c] != '@'
                        },
                    },
                    clean_before(lines@, row_n as int, ind as int),
                    entrance_ind matches Some(e) ==> entrance_before(lines@, e as int, row_n as int, ind as int),
                decreases this_col_n - ind,
            {
                let c = l.get_char(ind);
                proof {
                    assert(row_n * cn + ind < (row_n + 1) * cn) by (nonlinear_arith)
                        requires ind < cn;
                }
                let ghost old_map = map@;
                if c == '@' {
                    let e = row_n * cn + ind;
                    assert(entrance_at(lines@, e as int)) by {
                        assert(lines@[row_n as int]@[ind as int] == '@');
                    }
                    match entrance_ind {
                        Some(first) => {
                            if first != e {
                                return Err(Error::MultipleEntrancesInMap(e, first));
                            }
                        },
                        None => {
                            entrance_ind = Some(e);
                        },
                    }
                    map.push(TileType::Empty);
                } else {
                    match TileType::try_from_char(c) {
                        Ok(t) => map.push(t),
                        Err(e) => {
                            assert(lines@[row_n as int]@[ind as int] == c);
                            return Err(e);
                        },
                    }
                }
                proof {
                    assert forall|r: int, cc: int|
                        0 <= r < row_n && 0 <= cc < cn implies (#[trigger] lines@[r]@[cc] == '@' || tile_of_char(
                            lines@[r]@[cc],
                        ) is Some) && map@[r * cn + cc] == line_tiles(lines@[r]@)[cc] by {
                        assert(r * cn + cc < row_n * cn) by (nonlinear_arith)
                            requires 0 <= r < row_n, 0 <= cc < cn;
                        assert(map@[r * cn + cc] == old_map[r * cn + cc]);
                    }
                    assert forall|cc: int| 0 <= cc < ind + 1 implies (#[trigger] l@[cc] == '@' || tile_of_char(l@[cc]) is Some)
                        && map@[row_n * cn + cc] == line_tiles(l@)[cc] by {
                        if cc < ind {
                            assert(map@[row_n * cn + cc] == old_map[row_n * cn + cc]);
                        }
                    }
                }
                ind = ind + 1;
            }
            proof {
                assert(map.len() == (row_n + 1) * cn) by (nonlinear_arith)
                    requires map.len() == row_n * cn + cn;
                assert forall|r: int, cc: int|
                    0 <= r < row_n + 1 && 0 <= cc < cn implies (#[trigger] lines@[r]@[cc] == '@' || tile_of_char(
                        lines@[r]@[cc],
                    ) is Some) && map@[r * cn + cc] == line_tiles(lines@[r]@)[cc] by {
                    if r == row_n {
                    }
                }
            }
            row_n = row_n + 1;
        }
        let e = match entrance_ind {
            Some(e) => e,
            None => return Err(Error::NoEntranceInMap),
        };
        let cn = match col_n {
            Some(cn) => cn,
            None => 0,
        };
        let mut entrances: Vec<usize> = Vec::new();
        entrances.push(e);
        Ok(VaultMap { map, row_n, col_n: cn, entrance_ind: entrances })
    }

    pub fn entrance_n(&self) -> (res: usize)
        ensures
            res == self.entrances().len(),
    {
        self.entrance_ind.len()
    }

    /// The place of the tile at index `ind`.
    fn ind_to_pos(&self, ind: usize) -> (res: Position)
        requires
            self.wf(),
            ind < self.tiles().len(),
        ensures
            self.in_map(res),
            res.1 * self.cols() + res.0 == ind,
    {
        proof {
            if self.cols() == 0 {
                assert(self.tiles().len() == 0) by (nonlinear_arith)
                    requires self.tiles().len() == self.rows() * self.cols(), self.cols() == 0;
            }
        }
        let x = ind % self.col_n;
        let y = ind / self.col_n;
        proof {
            vstd::arithmetic::div_mod::lemma_fundamental_div_mod(ind as int, self.col_n as int);
            assert(y * self.col_n == self.col_n * y) by (nonlinear_arith);
            assert(y < self.row_n) by (nonlinear_arith)
                requires
                    ind == self.col_n * y + x,
                    ind < self.row_n * self.col_n,
                    0 <= x,
                    self.col_n > 0,
            ;
        }
        Position(x, y)
    }

    /// The index of the tile at `pos`.
    fn pos_to_ind(&self, pos: &Position) -> (res: usize)
        requires
            self.wf(),
            self.in_map(*pos),
        ensures
            res == pos.1 * self.cols() + pos.0,
            res < self.tiles().len(),
    {
        proof {
            assert(pos.1 * self.cols() + pos.0 < self.rows() * self.cols()) by (nonlinear_arith)
                requires pos.0 < self.cols(), pos.1 < self.rows();
            assert(self.map@.len() == self.map.len());
        }
        pos.1 * self.col_n + pos.0
    }

    /// The places of the entrances.
    pub fn entrance_pos(&self) -> (res: Vec<Position>)
        requires
            self.wf(),
        ensures
            res.len() == self.entrances().len(),
            forall|i: int| 0 <= i < res.len() ==> self.in_map(#[trigger] res@[i])
                && res@[i].1 * self.cols() + res@[i].0 == self.entrances()[i]
                && res@[i] == self.entrance_place(i),
    {
        let mut res: Vec<Position> = Vec::new();
        let mut i: usize = 0;
        while i < self.entrance_ind.len()
            invariant
                self.wf(),
                i <= self.entrance_ind.len(),
                res.len() == i,
                forall|k: int| 0 <= k < i ==> self.in_map(#[trigger] res@[k])
                    && res@[k].1 * self.cols() + res@[k].0 == self.entrances()[k]
                    && res@[k] == self.entrance_place(k),
            decreases self.entrance_ind.len() - i,
        {
            proof {
                assert(self.entrances()[i as int] < self.tiles().len());
            }
            let p = self.ind_to_pos(self.entrance_ind[i]);
            proof {
                let e = self.entrances()[i as int] as int;
                vstd::arithmetic::div_mod::lemma_fundamental_div_mod_converse(e, self.cols() as int, p.1 as int, p.0 as int);
            }
            res.push(p);
            i = i + 1;
        }
        res
    }

    pub fn can_pass(&self, pos: &Position) -> (res: bool)
        requires
            self.wf(),
            self.in_map(*pos),
        ensures
            res == self.pass_at(*pos),
    {
        !(*self.tile(pos) == TileType::Wall)
    }

    pub fn tile(&self, pos: &Position) -> (res: &TileType)
        requires
            self.wf(),
            self.in_map(*pos),
        ensures
            *res == self.tile_at(*pos),
    {
        &self.map[self.pos_to_ind(pos)]
    }

    /// Puts `tt` at `pos`.
    pub fn tile_mut(&mut self, pos: &Position, tt: TileType)
        requires
            old(self).wf(),
            old(self).in_map(*pos),
        ensures
            final(self).wf(),
            final(self).rows() == old(self).rows(),
            final(self).cols() == old(self).cols(),
            final(self).entrances() == old(self).entrances(),
            final(self).tiles() == old(self).tiles().update(pos.1 * old(self).cols() + pos.0, tt),
            forall|p: Position| old(self).in_map(p) ==> #[trigger] final(self).tile_at(p) == if p == *pos {
                tt
            } else {
                old(self).tile_at(p)
            },
    {
        let ind = self.pos_to_ind(pos);
        self.map.set(ind, tt);
        proof {
            assert forall|p: Position| old(self).in_map(p) implies #[trigger] self.tile_at(p) == if p == *pos {
                tt
            } else {
                old(self).tile_at(p)
            } by {
                if p != *pos {
                    lemma_index_distinct(p, *pos, self.cols() as int, self.rows() as int);
                    assert(p.1 * self.cols() + p.0 < self.tiles().len()) by (nonlinear_arith)
                        requires p.0 < self.cols(), p.1 < self.rows(), self.tiles().len() == self.rows() * self.cols();
                }
            }
            assert forall|i: int| 0 <= i < self.entrances().len() implies #[trigger] self.entrances()[i] < self.tiles().len() by {
                assert(old(self).entrances()[i] < old(self).tiles().len());
            }
        }
    }

    pub fn clear_entrance(&mut self)
        ensures
            final(self).entrances().len() == 0,
            final(self).tiles() == old(self).tiles(),
            final(self).rows() == old(self).rows(),
            final(self).cols() == old(self).cols(),
    {
        self.entrance_ind.clear();
    }

    /// Adds an entrance at `pos`, which must not be a wall.
    pub fn add_entrance(&mut self, pos: &Position)
        requires
            old(self).wf(),
            old(self).pass_at(*pos),
        ensures
            final(self).wf(),
            final(self).entrances() == old(self).entrances().push((pos.1 * old(self).cols() + pos.0) as usize),
            final(self).entrance_place(old(self).entrances().len() as int) == *pos,
            forall|i: int| 0 <= i < old(self).entrances().len() ==> #[trigger] final(self).entrance_place(i) == old(self).entrance_place(i),
            final(self).tiles() == old(self).tiles(),
            final(self).rows() == old(self).rows(),
            final(self).cols() == old(self).cols(),
    {
        let ind = self.pos_to_ind(pos);
        self.entrance_ind.push(ind);
        proof {
            vstd::arithmetic::div_mod::lemma_fundamental_div_mod_converse(ind as int, self.cols() as int, pos.1 as int, pos.0 as int);
            assert(self.entrances()[old(self).entrances().len() as int] == ind);
            assert forall|i: int| 0 <= i < self.entrances().len() implies #[trigger] self.entrances()[i] < self.tiles().len() by {
                if i < old(self).entrances().len() {
                    assert(old(self).entrances()[i] < old(self).tiles().len());
                }
            }
        }
    }
}

/// Where the steps from `p` lead, if each lands on a place a collector can
/// stand on.
pub open spec fn walk(map: VaultMap, p: Position, dirs: Seq<Direction>) -> Option<Position>
    decreases dirs.len(),
{
    if dirs.len() == 0 {
        Some(p)
    } else {
        match move_spec(p, dirs[0]) {
            Some(q) => if map.pass_at(q) {
                walk(map, q, dirs.drop_first())
            } else {
                None
            },
            None => None,
        }
    }
}

/// The places the steps from `p` pass, the `j`th after `j + 1` steps.
pub open spec fn walk_places(p: Position, dirs: Seq<Direction>) -> Seq<Position>
    decreases dirs.len(),
{
    if dirs.len() == 0 {
        Seq::empty()
    } else {
        match move_spec(p, dirs[0]) {
            Some(q) => seq![q] + walk_places(q, dirs.drop_first()),
            None => Seq::empty(),
        }
    }
}

/// Whether the key `k` opens the tile `t`.
pub open spec fn opens(t: TileType, k: char) -> bool {
    match t {
        TileType::Door(c) => lower_spec(c) == k,
        _ => false,
    }
}

/// Whether `k` opens a door that the steps from `p` pass before their end.
pub open spec fn door_on_way(map: VaultMap, p: Position, dirs: Seq<Direction>, k: char) -> bool {
    exists|j: int|
        0 <= j < walk_places(p, dirs).len() - 1 && opens(#[trigger] map.tile_at(walk_places(p, dirs)[j]), k)
}

pub proof fn lemma_walk_append(map: VaultMap, p: Position, s: Seq<Direction>, t: Seq<Direction>)
    ensures
        walk(map, p, s + t) == match walk(map, p, s) {
            Some(m) => walk(map, m, t),
            None => None,
        },
    decreases s.len(),
{
    if s.len() > 0 {
        assert((s + t).drop_first() =~= s.drop_first() + t);
        assert((s + t)[0] == s[0]);
        match move_spec(p, s[0]) {
            Some(q) => lemma_walk_append(map, q, s.drop_first(), t),
            None => {},
        }
    } else {
        assert(s + t =~= t);
    }
}

/// What a search from one place found: for each key reached, the keys of
/// the doors on the way and the steps there.
pub open spec fn key_paths_ok(map: VaultMap, from: Position, found: Seq<(char, Vec<char>, Vec<Direction>)>) -> bool {
    &&& forall|i: int, j: int| 0 <= i < j < found.len() ==> (#[trigger] found[i]).0 != (#[trigger] found[j]).0
    &&& forall|i: int|
        0 <= i < found.len() ==> {
            let (k, needed, path) = #[trigger] found[i];
            &&& walk(map, from, path@) matches Some(q) && map.tile_at(q) == TileType::Key(k)
            &&& forall|d: char| needed@.contains(d) <==> door_on_way(map, from, path@, d)
        }
}

/// Distinct places of a vault number at most its tiles.
proof fn lemma_vault_places(map: VaultMap, nodes: Seq<Position>)
    requires
        map.wf(),
        forall|k: int| 0 <= k < nodes.len() ==> map.in_map(#[trigger] nodes[k]),
        forall|a: int, b: int| 0 <= a < b < nodes.len() ==> nodes[a] != nodes[b],
    ensures
        nodes.len() <= map.tiles().len(),
{
    let w = map.cols() as int;
    let total = map.tiles().len() as int;
    let ints = nodes.map_values(|p: Position| p.1 * w + p.0);
    assert forall|a: int, b: int| 0 <= a < b < ints.len() implies ints[a] != ints[b] by {
        let pa = nodes[a];
        let pb = nodes[b];
        if ints[a] == ints[b] {
            assert(map.in_map(pa) && map.in_map(pb));
            vstd::arithmetic::div_mod::lemma_fundamental_div_mod_converse(ints[a], w, pa.1 as int, pa.0 as int);
            vstd::arithmetic::div_mod::lemma_fundamental_div_mod_converse(ints[b], w, pb.1 as int, pb.0 as int);
        }
    }
    assert(ints.no_duplicates());
    ints.unique_seq_to_set();
    vstd::set_lib::lemma_int_range(0, total);
    assert forall|v: int| ints.to_set().contains(v) implies vstd::set_lib::set_int_range(0, total).contains(v) by {
        let k = choose|k: int| 0 <= k < ints.len() && ints[k] == v;
        let p = nodes[k];
        assert(map.in_map(p));
        assert(0 <= p.1 * w) by (nonlinear_arith)
            requires p.1 >= 0, w >= 0;
        assert(p.1 * w + p.0 < map.rows() * w) by (nonlinear_arith)
            requires 0 <= p.1 < map.rows(), 0 <= p.0 < w;
    }
    vstd::set_lib::lemma_len_subset(ints.to_set(), vstd::set_lib::set_int_range(0, total));
}

/// Node `k` of a search was reached from its parent by one step in
/// direction `dirs[k]`.
pub open spec fn key_link(map: VaultMap, nodes: Seq<Position>, dirs: Seq<Direction>, parents: Seq<usize>, k: int) -> bool {
    &&& parents[k] < k
    &&& move_spec(nodes[parents[k] as int], dirs[k]) == Some(nodes[k])
    &&& map.pass_at(nodes[k])
}

/// `v` with `x` added, unless it is there already.
fn insert_char(v: &mut Vec<char>, x: char)
    ensures
        forall|d: char| final(v)@.contains(d) <==> (old(v)@.contains(d) || d == x),
{
    let mut i: usize = 0;
    while i < v.len()
        invariant
            i <= v.len(),
            v@ == old(v)@,
            forall|j: int| 0 <= j < i ==> v@[j] != x,
        decreases v.len() - i,
    {
        if v[i] == x {
            proof {
                assert(v@[i as int] == x);
            }
            return;
        }
        i = i + 1;
    }
    let ghost old_v = v@;
    v.push(x);
    proof {
        assert(v@ == old_v.push(x));
        assert(old_v == old(v)@);
        assert forall|d: char| #[trigger] v@.contains(d) <==> (old_v.contains(d) || d == x) by {
            if old_v.contains(d) {
                let k = old_v.index_of(d);
                assert(v@[k] == d);
            }
            if d == x {
                assert(v@[old_v.len() as int] == d);
            }
            if v@.contains(d) {
                let k = v@.index_of(d);
                if k < old_v.len() {
                    assert(old_v[k] == d);
                }
            }
        }
    }
}

/// The steps from the first node of a search to node `e`, following the
/// parents back, and the keys of the doors on the way.
fn key_walk_back(
    map: &VaultMap,
    nodes: &Vec<Position>,
    dirs: &Vec<Direction>,
    parents: &Vec<usize>,
    e: usize,
) -> (res: (Vec<Direction>, Vec<char>))
    requires
        map.wf(),
        0 < e < nodes.len(),
        nodes.len() == dirs.len(),
        nodes.len() == parents.len(),
        forall|k: int| 0 < k < nodes.len() ==> key_link(*map, nodes@, dirs@, parents@, k),
        forall|k: int| 0 <= k < nodes.len() ==> map.in_map(#[trigger] nodes@[k]),
    ensures
        walk(*map, nodes@[0], res.0@) == Some(nodes@[e as int]),
        forall|d: char| res.1@.contains(d) <==> door_on_way(*map, nodes@[0], res.0@, d),
        res.0@.len() == bfs_depth(parents@, e as int),
{
    let mut steps: Vec<Direction> = Vec::new();
    let mut needed: Vec<char> = Vec::new();
    let mut cur: usize = e;
    proof {
        assert(walk_places(nodes@[e as int], Seq::<Direction>::empty()) =~= Seq::<Position>::empty());
    }
    while cur != 0
        invariant
            map.wf(),
            cur < nodes.len(),
            cur <= e,
            e < nodes.len(),
            nodes.len() == dirs.len(),
            nodes.len() == parents.len(),
            forall|k: int| 0 < k < nodes.len() ==> key_link(*map, nodes@, dirs@, parents@, k),
            forall|k: int| 0 <= k < nodes.len() ==> map.in_map(#[trigger] nodes@[k]),
            walk(*map, nodes@[cur as int], steps@) == Some(nodes@[e as int]),
            cur == e ==> steps@.len() == 0,
            cur != e ==> steps@.len() > 0,
            forall|d: char| needed@.contains(d) <==> door_on_way(*map, nodes@[cur as int], steps@, d),
            steps@.len() + bfs_depth(parents@, cur as int) == bfs_depth(parents@, e as int),
        decreases cur,
    {
        let ghost old_steps = steps@;
        let ghost old_needed = needed@;
        let ghost here = nodes@[cur as int];
        assert(key_link(*map, nodes@, dirs@, parents@, cur as int));
        let p = parents[cur];
        if cur != e {
            match map.tile(&nodes[cur]).key_of_door() {
                Some(k) => insert_char(&mut needed, k),
                None => {},
            }
        }
        steps.insert(0, dirs[cur]);
        proof {
            let prev = nodes@[p as int];
            assert(steps@.drop_first() =~= old_steps);
            assert(steps@[0] == dirs@[cur as int]);
            assert(walk_places(prev, steps@) =~= seq![here] + walk_places(here, old_steps));
            assert forall|d: char| needed@.contains(d) <==> door_on_way(*map, prev, steps@, d) by {
                let wp = walk_places(prev, steps@);
                let wo = walk_places(here, old_steps);
                if door_on_way(*map, here, old_steps, d) {
                    let j = choose|j: int| 0 <= j < wo.len() - 1 && opens(#[trigger] map.tile_at(wo[j]), d);
                    assert(wp[j + 1] == wo[j]);
                }
                if door_on_way(*map, prev, steps@, d) {
                    let j = choose|j: int| 0 <= j < wp.len() - 1 && opens(#[trigger] map.tile_at(wp[j]), d);
                    if j > 0 {
                        assert(wp[j] == wo[j - 1]);
                        assert(opens(map.tile_at(wo[j - 1]), d));
                    } else {
                        assert(wp[0] == here);
                        if cur == e {
                            assert(wo.len() == 0);
                        }
                    }
                }
                if cur != e && opens(map.tile_at(here), d) {
                    assert(wp[0] == here);
                    assert(wo.len() > 0) by {
                        assert(old_steps.len() > 0);
                        assert(walk(*map, here, old_steps) is Some);
                        lemma_walk_places_len(*map, here, old_steps);
                    }
                    assert(opens(map.tile_at(wp[0]), d));
                }
            }
        }
        cur = p;
    }
    (steps, needed)
}

/// A valid walk passes as many places as it has steps.
proof fn lemma_walk_places_len(map: VaultMap, p: Position, dirs: Seq<Direction>)
    requires
        walk(map, p, dirs) is Some,
    ensures
        walk_places(p, dirs).len() == dirs.len(),
    decreases dirs.len(),
{
    if dirs.len() > 0 {
        let q = move_spec(p, dirs[0]).unwrap();
        lemma_walk_places_len(map, q, dirs.drop_first());
    }
}

/// Whether `p` is among `places`.
fn contains_pos(places: &Vec<Position>, p: &Position) -> (res: bool)
    ensures
        res == places@.contains(*p),
{
    let mut i: usize = 0;
    while i < places.len()
        invariant
            i <= places.len(),
            forall|j: int| 0 <= j < i ==> places@[j] != *p,
        decreases places.len() - i,
    {
        if places[i] == *p {
            return true;
        }
        i = i + 1;
    }
    false
}

/// The place of the entry for `key` in `found`, if any.
fn find_key(found: &Vec<(char, Vec<char>, Vec<Direction>)>, key: char) -> (res: Option<usize>)
    ensures
        match res {
            Some(i) => i < found.len() && found@[i as int].0 == key,
            None => forall|i: int| 0 <= i < found.len() ==> (#[trigger] found@[i]).0 != key,
        },
{
    let mut i: usize = 0;
    while i < found.len()
        invariant
            i <= found.len(),
            forall|j: int| 0 <= j < i ==> (#[trigger] found@[j]).0 != key,
        decreases found.len() - i,
    {
        if found[i].0 == key {
            return Some(i);
        }
        i = i + 1;
    }
    None
}

/// Whether the place one step from node `a` in direction `d`, where a
/// collector can stand on it, is a node at most one link deeper than `a`.
pub open spec fn nbr_close(map: VaultMap, nodes: Seq<Position>, parents: Seq<usize>, a: int, d: Direction) -> bool {
    match move_spec(nodes[a], d) {
        Some(q) => map.pass_at(q) ==> exists|b: int|
            0 <= b < nodes.len() && #[trigger] nodes[b] == q && bfs_depth(parents, b) <= bfs_depth(parents, a) + 1,
        None => true,
    }
}

/// Whether some key found has the letter `c`.
pub open spec fn found_key(found: Seq<(char, Vec<char>, Vec<Direction>)>, c: char) -> bool {
    exists|i: int| 0 <= i < found.len() && #[trigger] found[i].0 == c
}

/// Whether the key at `p`, if there is one, has its letter among `found`.
pub open spec fn key_seen(map: VaultMap, found: Seq<(char, Vec<char>, Vec<Direction>)>, p: Position) -> bool {
    match map.tile_at(p) {
        TileType::Key(c) => found_key(found, c),
        _ => true,
    }
}

/// The letter of the key where the steps from `p` end, if they end on a
/// key other than at `p`.
pub open spec fn reached_key(map: VaultMap, p: Position, dirs: Seq<Direction>) -> Option<char> {
    match walk(map, p, dirs) {
        Some(q) => if q != p {
            match map.tile_at(q) {
                TileType::Key(c) => Some(c),
                _ => None,
            }
        } else {
            None
        },
        None => None,
    }
}

proof fn lemma_close_grow(map: VaultMap, nodes: Seq<Position>, parents: Seq<usize>, x: Position, h: usize, a: int, d: Direction)
    requires
        nbr_close(map, nodes, parents, a, d),
        0 <= a < nodes.len(),
        nodes.len() == parents.len(),
    ensures
        nbr_close(map, nodes.push(x), parents.push(h), a, d),
{
    assert(nodes.push(x)[a] == nodes[a]);
    lemma_bfs_depth_push(parents, h, a);
    if let Some(q) = move_spec(nodes[a], d) {
        if map.pass_at(q) {
            let b = choose|b: int|
                0 <= b < nodes.len() && #[trigger] nodes[b] == q && bfs_depth(parents, b) <= bfs_depth(parents, a) + 1;
            lemma_bfs_depth_push(parents, h, b);
            assert(nodes.push(x)[b] == q);
        }
    }
}

/// From a search whose every node has its neighbours at most one link
/// deeper, a walk of `dirs` from node `a` ends on a node at most
/// `dirs.len()` links deeper than `a`.
proof fn lemma_walk_close(map: VaultMap, nodes: Seq<Position>, parents: Seq<usize>, a: int, dirs: Seq<Direction>)
    requires
        forall|a2: int, d: Direction| 0 <= a2 < nodes.len() ==> #[trigger] nbr_close(map, nodes, parents, a2, d),
        0 <= a < nodes.len(),
    ensures
        walk(map, nodes[a], dirs) matches Some(q) ==> exists|b: int|
            0 <= b < nodes.len() && #[trigger] nodes[b] == q && bfs_depth(parents, b) <= bfs_depth(parents, a) + dirs.len(),
    decreases dirs.len(),
{
    if dirs.len() == 0 {
        assert(nodes[a] == nodes[a]);
    } else {
        assert(nbr_close(map, nodes, parents, a, dirs[0]));
        if let Some(q1) = move_spec(nodes[a], dirs[0]) {
            if map.pass_at(q1) {
                let b1 = choose|b: int|
                    0 <= b < nodes.len() && #[trigger] nodes[b] == q1 && bfs_depth(parents, b) <= bfs_depth(parents, a) + 1;
                lemma_walk_close(map, nodes, parents, b1, dirs.drop_first());
            }
        }
    }
}

/// Whether `path` leads from `from` to a node of the search in as many
/// steps as that node's depth.
pub open spec fn path_at_depth(map: VaultMap, nodes: Seq<Position>, parents: Seq<usize>, from: Position, path: Seq<Direction>) -> bool {
    exists|e: int| 0 < e < nodes.len() && walk(map, from, path) == Some(#[trigger] nodes[e]) && path.len() == bfs_depth(parents, e)
}

/// The keys reachable from `pos`, each with the keys of the doors on the
/// way and the steps there, found by a breadth-first search, so that each
/// way is a shortest one to its key; where two keys share a letter the one
/// found later counts.
pub fn bfs_for_keys(pos: &Position, map: &VaultMap) -> (res: Vec<(char, Vec<char>, Vec<Direction>)>)
    requires
        map.wf(),
        map.in_map(*pos),
    ensures
        key_paths_ok(*map, *pos, res@),
        forall|dirs: Seq<Direction>| #[trigger] reached_key(*map, *pos, dirs) matches Some(c) ==> found_key(res@, c),
        forall|t: int, dirs: Seq<Direction>|
            0 <= t < res.len() && #[trigger] walk(*map, *pos, dirs) == walk(*map, *pos, (#[trigger] res@[t]).2@)
                ==> res@[t].2@.len() <= dirs.len(),
{
    let init_pos = *pos;
    let mut nodes: Vec<Position> = Vec::new();
    nodes.push(init_pos);
    let mut dirs: Vec<Direction> = Vec::new();
    dirs.push(Direction::North);
    let mut parents: Vec<usize> = Vec::new();
    parents.push(0);
    let mut res: Vec<(char, Vec<char>, Vec<Direction>)> = Vec::new();
    let mut head: usize = 0;
    let all_dirs = [Direction::North, Direction::South, Direction::West, Direction::East];
    proof {
        lemma_vault_places(*map, nodes@);
    }
    while head < nodes.len()
        invariant
            map.wf(),
            0 < nodes.len(),
            nodes.len() <= map.tiles().len(),
            head <= nodes.len(),
            nodes.len() == dirs.len(),
            nodes.len() == parents.len(),
            nodes@[0] == init_pos,
            init_pos == *pos,
            all_dirs@ == seq![Direction::North, Direction::South, Direction::West, Direction::East],
            forall|k: int| 0 <= k < nodes.len() ==> map.in_map(#[trigger] nodes@[k]),
            forall|a: int, b: int| 0 <= a < b < nodes.len() ==> nodes@[a] != nodes@[b],
            forall|k: int| 0 < k < nodes.len() ==> key_link(*map, nodes@, dirs@, parents@, k),
            key_paths_ok(*map, init_pos, res@),
            forall|a: int, b: int| 0 <= a <= b < nodes.len() ==> bfs_depth(parents@, a) <= bfs_depth(parents@, b),
            head < nodes.len() ==> bfs_depth(parents@, nodes.len() - 1) <= bfs_depth(parents@, head as int) + 1,
            forall|a: int, dd: Direction| 0 <= a < head ==> #[trigger] nbr_close(*map, nodes@, parents@, a, dd),
            forall|k: int| 0 < k < nodes.len() ==> #[trigger] key_seen(*map, res@, nodes@[k]),
            forall|t: int| 0 <= t < res.len() ==> #[trigger] path_at_depth(*map, nodes@, parents@, init_pos, res@[t].2@),
        decreases map.tiles().len() - nodes.len(), nodes.len() - head,
    {
        let cur_pos = nodes[head];
        let mut d: usize = 0;
        let ghost n0 = nodes.len();
        while d < 4
            invariant
                map.wf(),
                nodes.len() >= n0,
                0 < nodes.len(),
                nodes.len() <= map.tiles().len(),
                head < n0,
                nodes.len() == dirs.len(),
                nodes.len() == parents.len(),
                nodes@[0] == init_pos,
                init_pos == *pos,
                cur_pos == nodes@[head as int],
                d <= 4,
                all_dirs@ == seq![Direction::North, Direction::South, Direction::West, Direction::East],
                forall|k: int| 0 <= k < nodes.len() ==> map.in_map(#[trigger] nodes@[k]),
                forall|a: int, b: int| 0 <= a < b < nodes.len() ==> nodes@[a] != nodes@[b],
                forall|k: int| 0 < k < nodes.len() ==> key_link(*map, nodes@, dirs@, parents@, k),
                key_paths_ok(*map, init_pos, res@),
                forall|a: int, b: int| 0 <= a <= b < nodes.len() ==> bfs_depth(parents@, a) <= bfs_depth(parents@, b),
                bfs_depth(parents@, nodes.len() - 1) <= bfs_depth(parents@, head as int) + 1,
                nodes.len() > n0 ==> bfs_depth(parents@, nodes.len() - 1) == bfs_depth(parents@, head as int) + 1,
                forall|a: int, dd: Direction| 0 <= a < head ==> #[trigger] nbr_close(*map, nodes@, parents@, a, dd),
                forall|j: int| 0 <= j < d ==> #[trigger] nbr_close(*map, nodes@, parents@, head as int, all_dirs@[j]),
                forall|k: int| 0 < k < nodes.len() ==> #[trigger] key_seen(*map, res@, nodes@[k]),
                forall|t: int| 0 <= t < res.len() ==> #[trigger] path_at_depth(*map, nodes@, parents@, init_pos, res@[t].2@),
            decreases 4 - d,
        {
            let dir = all_dirs[d];
            match cur_pos.move_along(dir) {
                Some(next) => {
                    if next.0 < map.col_n && next.1 < map.row_n && !contains_pos(&nodes, &next)
                        && map.can_pass(&next) {
                        proof {
                            lemma_vault_places(*map, nodes@.push(next));
                        }
                        let ghost old_nodes = nodes@;
                        let ghost old_dirs = dirs@;
                        let ghost old_parents = parents@;
                        nodes.push(next);
                        dirs.push(dir);
                        parents.push(head);
                        proof {
                            assert(nodes@ == old_nodes.push(next));
                            assert(parents@ == old_parents.push(head));
                            let last = nodes.len() - 1;
                            assert forall|k: int| 0 <= k < old_nodes.len() implies bfs_depth(parents@, k) == bfs_depth(old_parents, k) by {
                                lemma_bfs_depth_push(old_parents, head, k);
                            }
                            assert(bfs_depth(parents@, last) == bfs_depth(parents@, head as int) + 1);
                            assert(bfs_depth(parents@, head as int) == bfs_depth(old_parents, head as int));
                            assert forall|a: int, b: int| 0 <= a <= b < nodes.len() implies bfs_depth(parents@, a) <= bfs_depth(parents@, b) by {
                                if a < last {
                                    lemma_bfs_depth_push(old_parents, head, a);
                                }
                                if b < last {
                                    lemma_bfs_depth_push(old_parents, head, b);
                                    assert(bfs_depth(old_parents, a) <= bfs_depth(old_parents, b));
                                } else if a < last {
                                    assert(bfs_depth(old_parents, a) <= bfs_depth(old_parents, last - 1));
                                }
                            }
                            assert forall|a: int, dd: Direction| 0 <= a < head implies #[trigger] nbr_close(*map, nodes@, parents@, a, dd) by {
                                lemma_close_grow(*map, old_nodes, old_parents, next, head, a, dd);
                            }
                            assert forall|j: int| 0 <= j < d + 1 implies #[trigger] nbr_close(*map, nodes@, parents@, head as int, all_dirs@[j]) by {
                                if j < d {
                                    lemma_close_grow(*map, old_nodes, old_parents, next, head, head as int, all_dirs@[j]);
                                } else {
                                    assert(nodes@[last] == next);
                                    assert(nodes@[head as int] == cur_pos);
                                }
                            }
                            assert forall|k: int| 0 < k < nodes.len() implies key_link(*map, nodes@, dirs@, parents@, k) by {
                                if k < nodes.len() - 1 {
                                    assert(key_link(*map, old_nodes, old_dirs, old_parents, k));
                                    assert(nodes@[k] == old_nodes[k]);
                                    assert(dirs@[k] == old_dirs[k] && parents@[k] == old_parents[k]);
                                    assert(nodes@[parents@[k] as int] == old_nodes[parents@[k] as int]);
                                }
                            }
                            assert forall|t: int| 0 <= t < res.len() implies #[trigger] path_at_depth(*map, nodes@, parents@, init_pos, res@[t].2@) by {
                                assert(path_at_depth(*map, old_nodes, old_parents, init_pos, res@[t].2@));
                                let e = choose|e: int| 0 < e < old_nodes.len() && walk(*map, init_pos, res@[t].2@) == Some(#[trigger] old_nodes[e])
                                    && res@[t].2@.len() == bfs_depth(old_parents, e);
                                assert(nodes@[e] == old_nodes[e]);
                            }
                        }
                        let ghost res_before = res@;
                        match map.tile(&next) {
                            TileType::Key(k) => {
                                let e = nodes.len() - 1;
                                let (path, needed) = key_walk_back(map, &nodes, &dirs, &parents, e);
                                let key = *k;
                                let ghost old_res = res@;
                                let found = find_key(&res, key);
                                match found {
                                    Some(i) => {
                                        res.set(i, (key, needed, path));
                                        assert(res@[i as int].0 == key);
                                    },
                                    None => {
                                        res.push((key, needed, path));
                                        assert(res@[old_res.len() as int].0 == key);
                                    },
                                }
                                proof {
                                    assert(found_key(res@, key));
                                    assert forall|c: char| found_key(res_before, c) implies found_key(res@, c) by {
                                        let i0 = choose|i0: int| 0 <= i0 < old_res.len() && #[trigger] old_res[i0].0 == c;
                                        assert(res@[i0].0 == c);
                                    }
                                    assert forall|a: int, b: int| 0 <= a < b < res.len() implies (#[trigger] res@[a]).0
                                        != (#[trigger] res@[b]).0 by {
                                        if b == old_res.len() {
                                            assert(old_res[a].0 != key);
                                        } else {
                                            assert(old_res[a].0 != old_res[b].0 || a == b);
                                        }
                                    }
                                    assert forall|t: int| 0 <= t < res.len() implies {
                                        let (kk, nn, pp) = #[trigger] res@[t];
                                        &&& walk(*map, init_pos, pp@) matches Some(q) && map.tile_at(q) == TileType::Key(kk)
                                        &&& forall|dd: char| nn@.contains(dd) <==> door_on_way(*map, init_pos, pp@, dd)
                                    } by {
                                        if t < old_res.len() && res@[t] == old_res[t] {
                                        } else {
                                            assert(res@[t] == (key, needed, path));
                                            assert(nodes@[e as int] == next);
                                        }
                                    }
                                    assert forall|t: int| 0 <= t < res.len() implies #[trigger] path_at_depth(*map, nodes@, parents@, init_pos, res@[t].2@) by {
                                        if t < old_res.len() && res@[t] == old_res[t] {
                                            assert(path_at_depth(*map, nodes@, parents@, init_pos, old_res[t].2@));
                                        } else {
                                            assert(res@[t] == (key, needed, path));
                                            assert(walk(*map, init_pos, path@) == Some(nodes@[e as int]));
                                        }
                                    }
                                }
                            },
                            _ => {},
                        }
                        proof {
                            assert forall|k: int| 0 < k < nodes.len() implies #[trigger] key_seen(*map, res@, nodes@[k]) by {
                                if k < nodes.len() - 1 {
                                    assert(nodes@[k] == old_nodes[k]);
                                    assert(key_seen(*map, res_before, old_nodes[k]));
                                    if let TileType::Key(c) = map.tile_at(old_nodes[k]) {
                                        assert(found_key(res_before, c));
                                    }
                                } else {
                                    assert(nodes@[k] == next);
                                }
                            }
                        }
                    } else {
                        proof {
                            assert(nodes@[head as int] == cur_pos);
                            if next.0 < map.col_n && next.1 < map.row_n {
                                if nodes@.contains(next) {
                                    let b = choose|b: int| 0 <= b < nodes.len() && nodes@[b] == next;
                                    assert(bfs_depth(parents@, b) <= bfs_depth(parents@, nodes.len() - 1));
                                    assert(nodes@[b] == next);
                                } else {
                                    assert(!map.pass_at(next));
                                }
                            } else {
                                assert(!map.in_map(next));
                            }
                            assert(nbr_close(*map, nodes@, parents@, head as int, all_dirs@[d as int]));
                        }
                    }
                },
                None => {
                    assert(nodes@[head as int] == cur_pos);
                    assert(nbr_close(*map, nodes@, parents@, head as int, all_dirs@[d as int]));
                },
            }
            d = d + 1;
        }
        proof {
            assert forall|a: int, dd: Direction| 0 <= a < head + 1 implies #[trigger] nbr_close(*map, nodes@, parents@, a, dd) by {
                if a == head {
                    match dd {
                        Direction::North => assert(nbr_close(*map, nodes@, parents@, a, all_dirs@[0])),
                        Direction::South => assert(nbr_close(*map, nodes@, parents@, a, all_dirs@[1])),
                        Direction::West => assert(nbr_close(*map, nodes@, parents@, a, all_dirs@[2])),
                        Direction::East => assert(nbr_close(*map, nodes@, parents@, a, all_dirs@[3])),
                    }
                }
            }
            if head + 1 < nodes.len() {
                assert(bfs_depth(parents@, head as int) <= bfs_depth(parents@, head + 1));
            }
        }
        head = head + 1;
    }
    proof {
        assert forall|ds: Seq<Direction>| #[trigger] reached_key(*map, *pos, ds) is Some implies found_key(res@, reached_key(*map, *pos, ds)->Some_0) by {
            let q = walk(*map, init_pos, ds).unwrap();
            lemma_walk_close(*map, nodes@, parents@, 0, ds);
            let k = choose|k: int| 0 <= k < nodes.len() && #[trigger] nodes@[k] == q && bfs_depth(parents@, k) <= bfs_depth(parents@, 0) + ds.len();
            assert(k != 0);
            assert(key_seen(*map, res@, nodes@[k]));
        }
        assert forall|t: int, ds: Seq<Direction>|
            0 <= t < res.len() && #[trigger] walk(*map, *pos, ds) == walk(*map, *pos, (#[trigger] res@[t]).2@)
            implies res@[t].2@.len() <= ds.len() by {
            assert(path_at_depth(*map, nodes@, parents@, init_pos, res@[t].2@));
            let e = choose|e: int| 0 < e < nodes.len() && walk(*map, init_pos, res@[t].2@) == Some(#[trigger] nodes@[e])
                && res@[t].2@.len() == bfs_depth(parents@, e);
            lemma_walk_close(*map, nodes@, parents@, 0, ds);
            let b = choose|b: int| 0 <= b < nodes.len() && #[trigger] nodes@[b] == nodes@[e] && bfs_depth(parents@, b) <= bfs_depth(parents@, 0) + ds.len();
            assert(b == e);
            assert(bfs_depth(parents@, 0) == 0);
        }
    }
    res
}

/// The searches made so far: for each place, the keys reachable from it.
pub struct KeyPaths {
    entries: Vec<(Position, Vec<(char, Vec<char>, Vec<Direction>)>)>,
}

/// The first entry from `k` on kept for `from`.
pub open spec fn key_entry_from(
    entries: Seq<(Position, Vec<(char, Vec<char>, Vec<Direction>)>)>,
    from: Position,
    k: int,
) -> Option<int>
    decreases entries.len() - k,
{
    if k < 0 || k >= entries.len() {
        None
    } else if entries[k].0 == from {
        Some(k)
    } else {
        key_entry_from(entries, from, k + 1)
    }
}

/// The first way to `key` among `found`, from the `k`th on.
pub open spec fn key_way_from(found: Seq<(char, Vec<char>, Vec<Direction>)>, key: char, k: int) -> Option<
    (Seq<char>, Seq<Direction>),
>
    decreases found.len() - k,
{
    if k < 0 || k >= found.len() {
        None
    } else if found[k].0 == key {
        Some((found[k].1@, found[k].2@))
    } else {
        key_way_from(found, key, k + 1)
    }
}

proof fn lemma_key_entry_from(entries: Seq<(Position, Vec<(char, Vec<char>, Vec<Direction>)>)>, from: Position, k: int)
    requires
        0 <= k <= entries.len(),
    ensures
        match key_entry_from(entries, from, k) {
            Some(i) => k <= i < entries.len() && entries[i].0 == from,
            None => forall|i: int| k <= i < entries.len() ==> (#[trigger] entries[i]).0 != from,
        },
    decreases entries.len() - k,
{
    if k < entries.len() && entries[k].0 != from {
        lemma_key_entry_from(entries, from, k + 1);
    }
}

proof fn lemma_key_entry_is(
    entries: Seq<(Position, Vec<(char, Vec<char>, Vec<Direction>)>)>,
    from: Position,
    i: int,
    k: int,
)
    requires
        0 <= k <= i < entries.len(),
        entries[i].0 == from,
        forall|j: int| 0 <= j < i ==> (#[trigger] entries[j]).0 != from,
    ensures
        key_entry_from(entries, from, k) == Some(i),
    decreases i - k,
{
    if k < i {
        lemma_key_entry_is(entries, from, i, k + 1);
    }
}

proof fn lemma_key_way_from(found: Seq<(char, Vec<char>, Vec<Direction>)>, key: char, k: int)
    requires
        0 <= k <= found.len(),
    ensures
        match key_way_from(found, key, k) {
            Some(w) => exists|j: int| k <= j < found.len() && (#[trigger] found[j]).0 == key && found[j].1@ == w.0
                && found[j].2@ == w.1,
            None => forall|j: int| k <= j < found.len() ==> (#[trigger] found[j]).0 != key,
        },
    decreases found.len() - k,
{
    if k < found.len() && found[k].0 != key {
        lemma_key_way_from(found, key, k + 1);
    }
}

impl KeyPaths {
    pub fn new() -> (res: Self)
        ensures
            res.entries_spec().len() == 0,
    {
        KeyPaths { entries: Vec::new() }
    }

    pub closed spec fn entries_spec(&self) -> Seq<(Position, Vec<(char, Vec<char>, Vec<Direction>)>)> {
        self.entries@
    }

    /// Whether every way kept leads from its place to its key, with the keys
    /// of the doors on the way.
    pub open spec fn valid_for(&self, map: VaultMap) -> bool {
        forall|i: int|
            0 <= i < self.entries_spec().len() ==> key_paths_ok(
                map,
                (#[trigger] self.entries_spec()[i]).0,
                self.entries_spec()[i].1@,
            )
    }

    /// The way kept from `from` to `key`: the keys it needs and its steps.
    pub open spec fn way(&self, from: Position, key: char) -> Option<(Seq<char>, Seq<Direction>)> {
        match key_entry_from(self.entries_spec(), from, 0) {
            Some(i) => key_way_from(self.entries_spec()[i].1@, key, 0),
            None => None,
        }
    }

    fn find(&self, from: &Position) -> (res: Option<usize>)
        ensures
            match res {
                Some(i) => key_entry_from(self.entries_spec(), *from, 0) == Some(i as int),
                None => key_entry_from(self.entries_spec(), *from, 0) is None,
            },
    {
        let mut i: usize = 0;
        while i < self.entries.len()
            invariant
                i <= self.entries.len(),
                forall|j: int| 0 <= j < i ==> (#[trigger] self.entries@[j]).0 != *from,
            decreases self.entries.len() - i,
        {
            if self.entries[i].0 == *from {
                proof {
                    lemma_key_entry_is(self.entries@, *from, i as int, 0);
                }
                return Some(i);
            }
            i = i + 1;
        }
        proof {
            lemma_key_entry_from(self.entries@, *from, 0);
        }
        None
    }
}

/// A way kept by valid searches leads to its key with the keys of its doors.
pub proof fn lemma_way(paths: KeyPaths, map: VaultMap, from: Position, key: char)
    requires
        paths.valid_for(map),
        paths.way(from, key) is Some,
    ensures
        ({
            let (needed, dirs) = paths.way(from, key).unwrap();
            &&& walk(map, from, dirs) matches Some(q) && map.tile_at(q) == TileType::Key(key)
            &&& forall|d: char| needed.contains(d) <==> door_on_way(map, from, dirs, d)
        }),
{
    let entries = paths.entries_spec();
    lemma_key_entry_from(entries, from, 0);
    let i = key_entry_from(entries, from, 0).unwrap();
    lemma_key_way_from(entries[i].1@, key, 0);
    let w = paths.way(from, key).unwrap();
    let j = choose|j: int| 0 <= j < entries[i].1@.len() && (#[trigger] entries[i].1@[j]).0 == key
        && entries[i].1@[j].1@ == w.0 && entries[i].1@[j].2@ == w.1;
    assert(key_paths_ok(map, entries[i].0, entries[i].1@));
    let t = entries[i].1@[j];
    assert(walk(map, from, t.2@) matches Some(q) && map.tile_at(q) == TileType::Key(t.0));
}

/// Whether every element of `a` is in `b`.
pub open spec fn subset(a: Seq<char>, b: Seq<char>) -> bool {
    forall|i: int| 0 <= i < a.len() ==> b.contains(#[trigger] a[i])
}

fn contains_char(v: &Vec<char>, c: char) -> (res: bool)
    ensures
        res == v@.contains(c),
{
    let mut i: usize = 0;
    while i < v.len()
        invariant
            i <= v.len(),
            forall|j: int| 0 <= j < i ==> v@[j] != c,
        decreases v.len() - i,
    {
        if v[i] == c {
            return true;
        }
        i = i + 1;
    }
    false
}

fn is_subset(a: &Vec<char>, b: &Vec<char>) -> (res: bool)
    ensures
        res == subset(a@, b@),
{
    let mut i: usize = 0;
    while i < a.len()
        invariant
            i <= a.len(),
            forall|j: int| 0 <= j < i ==> b@.contains(#[trigger] a@[j]),
        decreases a.len() - i,
    {
        if !contains_char(b, a[i]) {
            return false;
        }
        i = i + 1;
    }
    true
}

/// A team of collectors: where each stands, the keys they hold together,
/// and the steps each has walked.
pub struct CollectorTeam {
    members_pos: Vec<Position>,
    hold_keys: Vec<char>,
    members_path: Vec<Vec<Direction>>,
}

impl CollectorTeam {
    pub closed spec fn pos_spec(&self) -> Seq<Position> {
        self.members_pos@
    }

    pub closed spec fn keys_spec(&self) -> Seq<char> {
        self.hold_keys@
    }

    pub closed spec fn paths_spec(&self) -> Seq<Seq<Direction>> {
        Seq::new(self.members_path.len() as nat, |i: int| self.members_path@[i]@)
    }

    /// Whether each member's steps lead from its start in `starts` to where
    /// it stands.
    pub open spec fn walked_from(&self, map: VaultMap, starts: Seq<Position>) -> bool {
        &&& self.pos_spec().len() == starts.len()
        &&& self.paths_spec().len() == starts.len()
        &&& forall|i: int| 0 <= i < starts.len() ==> walk(map, starts[i], #[trigger] self.paths_spec()[i])
            == Some(self.pos_spec()[i]) && map.in_map(self.pos_spec()[i])
    }

    /// A team with one member at each of `pos`, no key and no step.
    pub fn new(pos: &Vec<Position>) -> (res: Self)
        ensures
            res.pos_spec() == pos@,
            res.keys_spec().len() == 0,
            res.paths_spec().len() == pos.len(),
            forall|i: int| 0 <= i < pos.len() ==> (#[trigger] res.paths_spec()[i]).len() == 0,
    {
        let mut members_pos: Vec<Position> = Vec::new();
        let mut members_path: Vec<Vec<Direction>> = Vec::new();
        let mut i: usize = 0;
        while i < pos.len()
            invariant
                i <= pos.len(),
                members_pos@ == pos@.take(i as int),
                members_path.len() == i,
                forall|k: int| 0 <= k < i ==> (#[trigger] members_path@[k])@.len() == 0,
            decreases pos.len() - i,
        {
            members_pos.push(pos[i]);
            members_path.push(Vec::new());
            i = i + 1;
            proof {
                assert(members_pos@ =~= pos@.take(i as int));
            }
        }
        proof {
            assert(pos@.take(pos.len() as int) =~= pos@);
        }
        let res = CollectorTeam { members_pos, hold_keys: Vec::new(), members_path };
        proof {
            assert forall|k: int| 0 <= k < pos.len() implies (#[trigger] res.paths_spec()[k]).len() == 0 by {
                assert(res.paths_spec()[k] == members_path@[k]@);
            }
        }
        res
    }

    /// The steps walked by all the members, added up (at most `usize::MAX`).
    pub fn steps_n(&self) -> (res: usize)
        ensures
            res == min_usize(lens_sum(self.paths_spec())),
    {
        let mut sum: usize = 0;
        let mut i: usize = 0;
        while i < self.members_path.len()
            invariant
                i <= self.members_path.len(),
                self.paths_spec().len() == self.members_path.len(),
                forall|k: int| 0 <= k < self.members_path.len() ==> #[trigger] self.paths_spec()[k] == self.members_path@[k]@,
                sum == min_usize(lens_sum(self.paths_spec().take(i as int))),
            decreases self.members_path.len() - i,
        {
            proof {
                assert(self.paths_spec().take(i + 1).drop_last() =~= self.paths_spec().take(i as int));
                assert(self.paths_spec().take(i + 1).last() == self.members_path@[i as int]@);
                lemma_lens_sum_nonneg(self.paths_spec().take(i as int));
            }
            sum = sum.saturating_add(self.members_path[i].len());
            i = i + 1;
        }
        proof {
            assert(self.paths_spec().take(i as int) =~= self.paths_spec());
        }
        sum
    }

    pub fn path(&self) -> (res: &Vec<Vec<Direction>>)
        ensures
            res.len() == self.paths_spec().len(),
            forall|i: int| 0 <= i < res.len() ==> (#[trigger] res@[i])@ == self.paths_spec()[i],
    {
        &self.members_path
    }

    /// What decides the rest of the search: the members' places, counted,
    /// and the keys held.
    pub fn state(&self) -> (res: CollectorTeamState)
        ensures
            forall|p: Position| #[trigger] res.pos_count(p) == count_in(self.pos_spec(), p),
            res.keys_set() == self.keys_spec().to_set(),
    {
        CollectorTeamState { pos: copy_positions(&self.members_pos), hold_keys: copy_chars(&self.hold_keys) }
    }

    /// A copy of this team.
    fn copy(&self) -> (res: Self)
        ensures
            res.pos_spec() == self.pos_spec(),
            res.keys_spec() == self.keys_spec(),
            res.paths_spec() == self.paths_spec(),
    {
        let members_pos = copy_positions(&self.members_pos);
        let hold_keys = copy_chars(&self.hold_keys);
        let mut members_path: Vec<Vec<Direction>> = Vec::new();
        let mut i: usize = 0;
        while i < self.members_path.len()
            invariant
                i <= self.members_path.len(),
                members_path.len() == i,
                forall|k: int| 0 <= k < i ==> (#[trigger] members_path@[k])@ == self.members_path@[k]@,
            decreases self.members_path.len() - i,
        {
            members_path.push(copy_dirs(&self.members_path[i]));
            i = i + 1;
        }
        let res = CollectorTeam { members_pos, hold_keys, members_path };
        proof {
            assert(res.paths_spec() =~= self.paths_spec());
        }
        res
    }

    /// The keys each member can walk to now: those not held yet whose
    /// doors on the way the team holds the keys of.
    pub fn search_keys(&self, map: &VaultMap, paths: &mut KeyPaths) -> (res: Vec<Vec<char>>)
        requires
            map.wf(),
            old(paths).valid_for(*map),
            forall|i: int| 0 <= i < self.pos_spec().len() ==> map.in_map(#[trigger] self.pos_spec()[i]),
        ensures
            final(paths).valid_for(*map),
            res.len() == self.pos_spec().len(),
            forall|i: int, j: int|
                0 <= i < res.len() && 0 <= j < res@[i].len() ==> key_open(
                    *final(paths),
                    self.pos_spec()[i],
                    #[trigger] res@[i]@[j],
                    self.keys_spec(),
                ),
            forall|q: Position, k: char| old(paths).way(q, k) is Some ==> #[trigger] final(paths).way(q, k)
                == old(paths).way(q, k),
    {
        let mut res: Vec<Vec<char>> = Vec::new();
        let mut m: usize = 0;
        while m < self.members_pos.len()
            invariant
                map.wf(),
                paths.valid_for(*map),
                m <= self.members_pos.len(),
                res.len() == m,
                forall|i: int| 0 <= i < self.pos_spec().len() ==> map.in_map(#[trigger] self.pos_spec()[i]),
                forall|i: int| 0 <= i < m ==> key_entry_from(paths.entries@, #[trigger] self.pos_spec()[i], 0) is Some,
                forall|i: int, j: int|
                    0 <= i < res.len() && 0 <= j < res@[i].len() ==> key_open(
                        *paths,
                        self.pos_spec()[i],
                        #[trigger] res@[i]@[j],
                        self.keys_spec(),
                    ),
                forall|q: Position, k: char| old(paths).way(q, k) is Some ==> #[trigger] paths.way(q, k)
                    == old(paths).way(q, k),
            decreases self.members_pos.len() - m,
        {
            let pos = self.members_pos[m];
            let ghost before = *paths;
            let idx = match paths.find(&pos) {
                Some(i) => i,
                None => {
                    let found = bfs_for_keys(&pos, map);
                    proof {
                        lemma_key_entry_from(before.entries@, pos, 0);
                    }
                    paths.entries.push((pos, found));
                    proof {
                        assert(paths.entries@ == before.entries@.push((pos, found)));
                        lemma_key_entry_push(before.entries@, pos, found, 0);
                        assert forall|i: int| 0 <= i < paths.entries_spec().len() implies key_paths_ok(
                            *map,
                            (#[trigger] paths.entries_spec()[i]).0,
                            paths.entries_spec()[i].1@,
                        ) by {
                            if i < before.entries@.len() {
                                assert(paths.entries_spec()[i] == before.entries@[i]);
                            }
                        }
                        assert forall|q: Position| key_entry_from(before.entries@, q, 0) is Some implies #[trigger] key_entry_from(
                            paths.entries@,
                            q,
                            0,
                        ) == key_entry_from(before.entries@, q, 0) by {
                            lemma_key_entry_keep(before.entries@, (pos, found), q, 0);
                        }
                        assert forall|q: Position, k: char| before.way(q, k) is Some implies #[trigger] paths.way(q, k)
                            == before.way(q, k) by {
                            let ii = key_entry_from(before.entries@, q, 0).unwrap();
                            lemma_key_entry_keep(before.entries@, (pos, found), q, 0);
                            lemma_key_entry_from(before.entries@, q, 0);
                            assert(paths.entries@[ii] == before.entries@[ii]);
                        }
                    }
                    paths.entries.len() - 1
                },
            };
            proof {
                assert forall|i: int, j: int|
                    0 <= i < res.len() && 0 <= j < res@[i].len() implies key_open(
                        *paths,
                        self.pos_spec()[i],
                        #[trigger] res@[i]@[j],
                        self.keys_spec(),
                    ) by {
                    assert(key_open(before, self.pos_spec()[i], res@[i]@[j], self.keys_spec()));
                }
                assert forall|q: Position| key_entry_from(before.entries@, q, 0) is Some implies #[trigger] key_entry_from(
                    paths.entries@,
                    q,
                    0,
                ) == key_entry_from(before.entries@, q, 0) by {}
                assert forall|i: int| 0 <= i < m implies key_entry_from(paths.entries@, #[trigger] self.pos_spec()[i], 0) is Some by {
                    assert(key_entry_from(before.entries@, self.pos_spec()[i], 0) is Some);
                }
                lemma_key_entry_from(paths.entries@, pos, 0);
                assert(key_paths_ok(*map, paths.entries@[idx as int].0, paths.entries@[idx as int].1@));
            }
            let found = &paths.entries[idx].1;
            let mut keys: Vec<char> = Vec::new();
            let mut t: usize = 0;
            while t < found.len()
                invariant
                    t <= found.len(),
                    key_entry_from(paths.entries@, pos, 0) == Some(idx as int),
                    idx < paths.entries@.len(),
                    *found == paths.entries@[idx as int].1,
                    key_paths_ok(*map, pos, found@),
                    forall|j: int| 0 <= j < keys.len() ==> key_open(*paths, pos, #[trigger] keys@[j], self.keys_spec()),
                decreases found.len() - t,
            {
                let key = found[t].0;
                if !contains_char(&self.hold_keys, key) && is_subset(&found[t].1, &self.hold_keys) {
                    proof {
                        lemma_key_way_at(found@, t as int, 0);
                    }
                    keys.push(key);
                }
                t = t + 1;
            }
            let ghost res_before = res@;
            res.push(keys);
            proof {
                assert forall|i: int, j: int|
                    0 <= i < res.len() && 0 <= j < res@[i].len() implies key_open(
                        *paths,
                        self.pos_spec()[i],
                        #[trigger] res@[i]@[j],
                        self.keys_spec(),
                    ) by {
                    if i < m {
                        assert(res@[i] == res_before[i]);
                    } else {
                        assert(res@[i] == keys);
                    }
                }
            }
            m = m + 1;
        }
        res
    }
}

impl CollectorTeam {
    /// Walks member `member_ind` along the kept way to `key`, which the team
    /// holds the keys for, and takes the key.
    pub fn move_mem_to_key(&mut self, member_ind: usize, key: char, map: &VaultMap, paths: &KeyPaths)
        requires
            map.wf(),
            paths.valid_for(*map),
            member_ind < old(self).pos_spec().len(),
            old(self).paths_spec().len() == old(self).pos_spec().len(),
            map.in_map(old(self).pos_spec()[member_ind as int]),
            key_open(*paths, old(self).pos_spec()[member_ind as int], key, old(self).keys_spec()),
        ensures
            ({
                let from = old(self).pos_spec()[member_ind as int];
                let way = paths.way(from, key).unwrap().1;
                &&& final(self).pos_spec().len() == old(self).pos_spec().len()
                &&& final(self).paths_spec().len() == old(self).paths_spec().len()
                &&& walk(*map, from, way) == Some(final(self).pos_spec()[member_ind as int])
                &&& map.tile_at(final(self).pos_spec()[member_ind as int]) == TileType::Key(key)
                &&& map.in_map(final(self).pos_spec()[member_ind as int])
                &&& final(self).paths_spec()[member_ind as int] == old(self).paths_spec()[member_ind as int] + way
                &&& forall|i: int| 0 <= i < old(self).pos_spec().len() && i != member_ind ==> #[trigger] final(self).pos_spec()[i]
                    == old(self).pos_spec()[i] && final(self).paths_spec()[i] == old(self).paths_spec()[i]
                &&& forall|d: char| #[trigger] final(self).keys_spec().contains(d) <==> (old(self).keys_spec().contains(d)
                    || d == key)
            }),
    {
        let from = self.members_pos[member_ind];
        proof {
            lemma_way(*paths, *map, from, key);
            lemma_key_entry_from(paths.entries_spec(), from, 0);
        }
        let ghost way = paths.way(from, key).unwrap().1;
        let idx = match paths.find(&from) {
            Some(i) => i,
            None => {
                proof {
                    assert(false);
                }
                return;
            },
        };
        let found = &paths.entries[idx].1;
        proof {
            lemma_key_way_from(found@, key, 0);
        }
        let t = match find_key(found, key) {
            Some(t) => t,
            None => {
                proof {
                    assert(false);
                }
                return;
            },
        };
        proof {
            lemma_key_way_from(found@, key, 0);
            let j = choose|j: int| 0 <= j < found@.len() && (#[trigger] found@[j]).0 == key && found@[j].1@
                == paths.way(from, key).unwrap().0 && found@[j].2@ == way;
            if j != t as int {
                assert(found@[j].0 == found@[t as int].0);
                assert(key_paths_ok(*map, paths.entries_spec()[idx as int].0, found@));
                assert(false);
            }
        }
        let steps = &found[t].2;
        let mut cur = from;
        let mut new_path = copy_dirs(&self.members_path[member_ind]);
        let ghost old_path = new_path@;
        let mut k: usize = 0;
        assert(way.take(0) =~= Seq::<Direction>::empty());
        assert(way.skip(0) =~= way);
        while k < steps.len()
            invariant
                map.wf(),
                k <= steps.len(),
                steps@ == way,
                walk(*map, from, way) matches Some(q) && map.tile_at(q) == TileType::Key(key),
                walk(*map, cur, way.skip(k as int)) == walk(*map, from, way),
                walk(*map, from, way.take(k as int)) == Some(cur),
                new_path@ == old_path + way.take(k as int),
            decreases steps.len() - k,
        {
            let dir = steps[k];
            proof {
                assert(way.skip(k as int)[0] == dir);
                assert(way.skip(k as int).drop_first() =~= way.skip(k + 1));
                assert(way.take(k + 1) =~= way.take(k as int) + seq![dir]);
                lemma_walk_append(*map, from, way.take(k as int), seq![dir]);
                assert(seq![dir].drop_first() =~= Seq::<Direction>::empty());
            }
            let next = match cur.move_along(dir) {
                Some(q) => q,
                None => {
                    proof {
                        assert(false);
                    }
                    cur
                },
            };
            proof {
                assert(map.pass_at(next));
                assert(walk(*map, next, seq![dir].drop_first()) == Some(next));
            }
            new_path.push(dir);
            cur = next;
            k = k + 1;
            proof {
                assert(new_path@ =~= old_path + way.take(k as int));
            }
        }
        proof {
            assert(way.take(steps.len() as int) =~= way);
            assert(way.skip(steps.len() as int) =~= Seq::<Direction>::empty());
            lemma_walk_in_map(*map, from, way);
        }
        let ghost old_paths = self.paths_spec();
        self.members_pos.set(member_ind, cur);
        self.members_path.set(member_ind, new_path);
        insert_char(&mut self.hold_keys, key);
        proof {
            assert forall|i: int| 0 <= i < old(self).pos_spec().len() && i != member_ind implies #[trigger] self.pos_spec()[i]
                == old(self).pos_spec()[i] && self.paths_spec()[i] == old(self).paths_spec()[i] by {
                assert(self.paths_spec()[i] == self.members_path@[i]@);
            }
            assert(self.paths_spec()[member_ind as int] == new_path@);
        }
    }
}

/// A walk that leads somewhere ends on the map.
proof fn lemma_walk_in_map(map: VaultMap, p: Position, dirs: Seq<Direction>)
    requires
        map.in_map(p),
        walk(map, p, dirs) is Some,
    ensures
        map.in_map(walk(map, p, dirs).unwrap()),
    decreases dirs.len(),
{
    if dirs.len() > 0 {
        let q = move_spec(p, dirs[0]).unwrap();
        lemma_walk_in_map(map, q, dirs.drop_first());
    }
}

/// Whether the teams stand at the same places (as many at each) and hold
/// the same keys.
/// How many members of `v` stand at `p`.
pub open spec fn count_in(v: Seq<Position>, p: Position) -> nat {
    v.filter(at_place(p)).len()
}

/// Whether a member stands at `p`.
pub open spec fn at_place(p: Position) -> spec_fn(Position) -> bool {
    |q: Position| q == p
}

/// The state of a team that decides what is left to do: how many members
/// stand on each place, and which keys are held.
pub struct CollectorTeamState {
    pos: Vec<Position>,
    hold_keys: Vec<char>,
}

impl CollectorTeamState {
    /// How many members stand at each place.
    pub closed spec fn pos_count(&self, p: Position) -> nat {
        count_in(self.pos@, p)
    }

    /// The keys held.
    pub closed spec fn keys_set(&self) -> Set<char> {
        self.hold_keys@.to_set()
    }

    /// Whether the two states are the same: the same number of members on
    /// every place, and the same keys.
    pub fn same(&self, other: &CollectorTeamState) -> (res: bool)
        ensures
            res == ((forall|p: Position| #[trigger] self.pos_count(p) == other.pos_count(p))
                && self.keys_set() == other.keys_set()),
    {
        let mut i: usize = 0;
        while i < self.pos.len()
            invariant
                i <= self.pos.len(),
                forall|k: int| 0 <= k < i ==> count_in(self.pos@, #[trigger] self.pos@[k]) == count_in(other.pos@, self.pos@[k]),
            decreases self.pos.len() - i,
        {
            if count_pos(&self.pos, &self.pos[i]) != count_pos(&other.pos, &self.pos[i]) {
                proof {
                    assert(self.pos_count(self.pos@[i as int]) != other.pos_count(self.pos@[i as int]));
                }
                return false;
            }
            i = i + 1;
        }
        let mut j: usize = 0;
        while j < other.pos.len()
            invariant
                j <= other.pos.len(),
                forall|k: int| 0 <= k < j ==> count_in(self.pos@, #[trigger] other.pos@[k]) == count_in(other.pos@, other.pos@[k]),
            decreases other.pos.len() - j,
        {
            if count_pos(&self.pos, &other.pos[j]) != count_pos(&other.pos, &other.pos[j]) {
                proof {
                    assert(self.pos_count(other.pos@[j as int]) != other.pos_count(other.pos@[j as int]));
                }
                return false;
            }
            j = j + 1;
        }
        proof {
            assert forall|p: Position| #[trigger] self.pos_count(p) == other.pos_count(p) by {
                if !self.pos@.contains(p) && !other.pos@.contains(p) {
                    lemma_count_absent(self.pos@, p);
                    lemma_count_absent(other.pos@, p);
                } else if self.pos@.contains(p) {
                    let k = choose|k: int| 0 <= k < self.pos@.len() && self.pos@[k] == p;
                    assert(count_in(self.pos@, self.pos@[k]) == count_in(other.pos@, self.pos@[k]));
                } else {
                    let k = choose|k: int| 0 <= k < other.pos@.len() && other.pos@[k] == p;
                    assert(count_in(self.pos@, other.pos@[k]) == count_in(other.pos@, other.pos@[k]));
                }
            }
        }
        let sub_a = is_subset(&self.hold_keys, &other.hold_keys);
        let sub_b = is_subset(&other.hold_keys, &self.hold_keys);
        proof {
            if sub_a && sub_b {
                assert(self.keys_set() =~= other.keys_set());
            } else if !sub_a {
                let k = choose|k: int| 0 <= k < self.hold_keys@.len() && !other.hold_keys@.contains(self.hold_keys@[k]);
                assert(self.keys_set().contains(self.hold_keys@[k]));
                assert(!other.keys_set().contains(self.hold_keys@[k]));
            } else {
                let k = choose|k: int| 0 <= k < other.hold_keys@.len() && !self.hold_keys@.contains(other.hold_keys@[k]);
                assert(other.keys_set().contains(other.hold_keys@[k]));
                assert(!self.keys_set().contains(other.hold_keys@[k]));
            }
        }
        sub_a && sub_b
    }
}

/// A place that no member stands on is counted zero times.
proof fn lemma_count_absent(v: Seq<Position>, p: Position)
    requires
        !v.contains(p),
    ensures
        count_in(v, p) == 0,
{
    let f = v.filter(at_place(p));
    if f.len() > 0 {
        assert(f.contains(f[0]));
        v.lemma_filter_contains_rev(at_place(p), f[0]);
        v.lemma_filter_pred(at_place(p), 0);
    }
}

/// How many members of `v` stand at `p`.
fn count_pos(v: &Vec<Position>, p: &Position) -> (res: usize)
    ensures
        res == count_in(v@, *p),
{
    let mut n: usize = 0;
    let mut i: usize = 0;
    while i < v.len()
        invariant
            i <= v.len(),
            n == count_in(v@.take(i as int), *p),
            n <= i,
        decreases v.len() - i,
    {
        proof {
            assert(v@.take(i + 1).drop_last() =~= v@.take(i as int));
            v@.take(i as int).lemma_filter_len_push(at_place(*p), v@[i as int]);
            assert(v@.take(i as int).push(v@[i as int]) =~= v@.take(i + 1));
        }
        if v[i] == *p {
            n = n + 1;
        }
        i = i + 1;
    }
    proof {
        assert(v@.take(i as int) =~= v@);
    }
    n
}

/// The place of tile `i` of a vault `w` places wide.
pub open spec fn place_of_index(w: int) -> spec_fn(int) -> Position {
    |i: int| Position((i % w) as usize, (i / w) as usize)
}

/// The places of the vault, as a finite set.
pub open spec fn vault_place_set(map: VaultMap) -> Set<Position> {
    vstd::set_lib::set_int_range(0, map.tiles().len() as int).map(place_of_index(map.cols() as int))
}

proof fn lemma_vault_place_set(map: VaultMap)
    requires
        map.wf(),
    ensures
        vault_place_set(map).finite(),
        forall|p: Position| map.in_map(p) ==> #[trigger] vault_place_set(map).contains(p),
{
    let w = map.cols() as int;
    let total = map.tiles().len() as int;
    vstd::set_lib::lemma_int_range(0, total);
    vstd::set_lib::set_int_range(0, total).lemma_map_finite(place_of_index(w));
    assert forall|p: Position| map.in_map(p) implies #[trigger] vault_place_set(map).contains(p) by {
        let i = p.1 * w + p.0;
        vstd::arithmetic::div_mod::lemma_fundamental_div_mod_converse(i, w, p.1 as int, p.0 as int);
        assert(0 <= p.1 * w) by (nonlinear_arith)
            requires p.1 >= 0, w >= 0;
        assert(p.1 * w + p.0 < map.rows() * w) by (nonlinear_arith)
            requires 0 <= p.1 < map.rows(), 0 <= p.0 < w;
        assert(vstd::set_lib::set_int_range(0, total).contains(i));
        assert(place_of_index(w)(i) == p);
    }
}

/// `s` with `p` added at its end.
pub open spec fn push_to(s: Seq<Position>) -> spec_fn(Position) -> Seq<Position> {
    |p: Position| s.push(p)
}

/// The sequences `s` with one place of `places` added.
pub open spec fn push_each(places: Set<Position>) -> spec_fn(Seq<Position>) -> Set<Seq<Position>> {
    |s: Seq<Position>| places.map(push_to(s))
}

/// The sequences of `k` places of `places`.
pub open spec fn place_seqs(places: Set<Position>, k: nat) -> Set<Seq<Position>>
    decreases k,
{
    if k == 0 {
        Set::empty().insert(Seq::empty())
    } else {
        place_seqs(places, (k - 1) as nat).map(push_each(places)).flatten()
    }
}

proof fn lemma_place_seqs(places: Set<Position>, k: nat)
    requires
        places.finite(),
    ensures
        place_seqs(places, k).finite(),
        forall|s: Seq<Position>| s.len() == k && (forall|i: int| 0 <= i < k ==> places.contains(#[trigger] s[i]))
            ==> #[trigger] place_seqs(places, k).contains(s),
    decreases k,
{
    if k == 0 {
        assert forall|s: Seq<Position>| s.len() == k && (forall|i: int| 0 <= i < k ==> places.contains(#[trigger] s[i]))
            implies #[trigger] place_seqs(places, k).contains(s) by {
            assert(s =~= Seq::<Position>::empty());
        }
    } else {
        let prev = place_seqs(places, (k - 1) as nat);
        lemma_place_seqs(places, (k - 1) as nat);
        prev.lemma_map_finite(push_each(places));
        assert forall|t: Set<Seq<Position>>| prev.map(push_each(places)).contains(t) implies #[trigger] t.finite() by {
            let s0 = choose|s0: Seq<Position>| prev.contains(s0) && t == push_each(places)(s0);
            places.lemma_map_finite(push_to(s0));
        }
        prev.map(push_each(places)).lemma_flatten_finite();
        assert forall|s: Seq<Position>| s.len() == k && (forall|i: int| 0 <= i < k ==> places.contains(#[trigger] s[i]))
            implies #[trigger] place_seqs(places, k).contains(s) by {
            let s0 = s.drop_last();
            assert forall|i: int| 0 <= i < k - 1 implies places.contains(#[trigger] s0[i]) by {
                assert(s0[i] == s[i]);
            }
            assert(prev.contains(s0));
            let t = push_each(places)(s0);
            assert(prev.map(push_each(places)).contains(t));
            assert(s0.push(s[k - 1]) =~= s);
            assert(places.contains(s[k - 1]));
            assert(push_to(s0)(s[k - 1]) == s);
            assert(t.contains(s));
        }
    }
}

/// The sets of letters of `k`.
pub open spec fn char_subsets(k: Set<char>) -> Set<Set<char>> {
    Set::new(|s: Set<char>| s.subset_of(k))
}

/// `s` with `a` added.
pub open spec fn insert_char_to(a: char) -> spec_fn(Set<char>) -> Set<char> {
    |s: Set<char>| s.insert(a)
}

proof fn lemma_char_subsets_finite(k: Set<char>)
    requires
        k.finite(),
    ensures
        char_subsets(k).finite(),
    decreases k.len(),
{
    if k.len() == 0 {
        assert(k =~= Set::<char>::empty()) by {
            if exists|c: char| k.contains(c) {
                let c = choose|c: char| k.contains(c);
                assert(k.remove(c).len() + 1 == k.len());
            }
        }
        assert(char_subsets(k) =~= Set::<Set<char>>::empty().insert(Set::<char>::empty())) by {
            assert forall|s: Set<char>| char_subsets(k).contains(s) implies s == Set::<char>::empty() by {
                assert(s =~= Set::<char>::empty());
            }
        }
    } else {
        let a = k.choose();
        let k2 = k.remove(a);
        lemma_char_subsets_finite(k2);
        char_subsets(k2).lemma_map_finite(insert_char_to(a));
        let both = char_subsets(k2) + char_subsets(k2).map(insert_char_to(a));
        assert forall|s: Set<char>| char_subsets(k).contains(s) implies both.contains(s) by {
            if s.contains(a) {
                let s2 = s.remove(a);
                assert(s2.subset_of(k2));
                assert(s2.insert(a) =~= s);
                assert(insert_char_to(a)(s2) == s);
                assert(char_subsets(k2).contains(s2));
                assert(char_subsets(k2).map(insert_char_to(a)).contains(s));
            } else {
                assert(s.subset_of(k2));
            }
        }
        assert forall|s: Set<char>| both.contains(s) implies char_subsets(k).contains(s) by {
            if !char_subsets(k2).contains(s) {
                let s2 = choose|s2: Set<char>| char_subsets(k2).contains(s2) && s == insert_char_to(a)(s2);
            }
        }
        assert(char_subsets(k) =~= both);
    }
}

/// The letter of a key tile.
pub open spec fn key_letter(map: VaultMap) -> spec_fn(Position) -> char {
    |p: Position| match map.tile_at(p) {
        TileType::Key(c) => c,
        _ => ' ',
    }
}

/// Whether a key with letter `c` lies in the vault.
pub open spec fn key_in_map(map: VaultMap, c: char) -> bool {
    exists|p: Position| map.in_map(p) && #[trigger] map.tile_at(p) == TileType::Key(c)
}

/// Whether every key the team holds lies in the vault.
pub open spec fn keys_in_map(map: VaultMap, team: CollectorTeam) -> bool {
    forall|c: char| #[trigger] team.keys_spec().contains(c) ==> key_in_map(map, c)
}

/// The pair of `s` with the keys `ks`.
pub open spec fn pair_with(s: Seq<Position>) -> spec_fn(Set<char>) -> (Seq<Position>, Set<char>) {
    |ks: Set<char>| (s, ks)
}

/// The pairs of `s` with each set of keys of `keys`.
pub open spec fn pairs_of(keys: Set<Set<char>>) -> spec_fn(Seq<Position>) -> Set<(Seq<Position>, Set<char>)> {
    |s: Seq<Position>| keys.map(pair_with(s))
}

/// Every state a team of `m` in the vault can be in: where each member
/// stands and the keys held.
pub open spec fn team_states(map: VaultMap, m: nat) -> Set<(Seq<Position>, Set<char>)> {
    let places = vault_place_set(map);
    place_seqs(places, m).map(pairs_of(char_subsets(places.map(key_letter(map))))).flatten()
}

/// A team of `m` in the vault is in one of finitely many states.
proof fn lemma_team_states(map: VaultMap, m: nat)
    requires
        map.wf(),
    ensures
        team_states(map, m).finite(),
        forall|s: Seq<Position>, ks: Set<char>|
            s.len() == m && (forall|i: int| 0 <= i < m ==> map.in_map(#[trigger] s[i])) && (forall|c: char|
                #[trigger] ks.contains(c) ==> key_in_map(map, c)) ==> #[trigger] team_states(map, m).contains((s, ks)),
{
    let places = vault_place_set(map);
    lemma_vault_place_set(map);
    lemma_place_seqs(places, m);
    let letters = places.map(key_letter(map));
    places.lemma_map_finite(key_letter(map));
    lemma_char_subsets_finite(letters);
    let seqs = place_seqs(places, m);
    seqs.lemma_map_finite(pairs_of(char_subsets(letters)));
    assert forall|t: Set<(Seq<Position>, Set<char>)>| seqs.map(pairs_of(char_subsets(letters))).contains(t)
        implies #[trigger] t.finite() by {
        let s0 = choose|s0: Seq<Position>| seqs.contains(s0) && t == pairs_of(char_subsets(letters))(s0);
        char_subsets(letters).lemma_map_finite(pair_with(s0));
    }
    seqs.map(pairs_of(char_subsets(letters))).lemma_flatten_finite();
    assert forall|s: Seq<Position>, ks: Set<char>|
        s.len() == m && (forall|i: int| 0 <= i < m ==> map.in_map(#[trigger] s[i])) && (forall|c: char|
            #[trigger] ks.contains(c) ==> key_in_map(map, c)) implies #[trigger] team_states(map, m).contains((s, ks)) by {
        assert forall|i: int| 0 <= i < m implies places.contains(#[trigger] s[i]) by {
            assert(map.in_map(s[i]));
        }
        assert(seqs.contains(s));
        assert forall|c: char| ks.contains(c) implies letters.contains(c) by {
            assert(key_in_map(map, c));
            let p = choose|p: Position| map.in_map(p) && #[trigger] map.tile_at(p) == TileType::Key(c);
            assert(places.contains(p));
            assert(key_letter(map)(p) == c);
        }
        assert(char_subsets(letters).contains(ks));
        let t = pairs_of(char_subsets(letters))(s);
        assert(seqs.map(pairs_of(char_subsets(letters))).contains(t));
        assert(pair_with(s)(ks) == (s, ks));
        assert(t.contains((s, ks)));
    }
}

/// The number of keys a team holds.
pub open spec fn keys_len(team: CollectorTeam) -> int {
    team.keys_spec().to_set().len() as int
}

/// Whether the state `st` is that of a team at `x.0` holding `x.1`.
pub open spec fn state_is(st: CollectorTeamState, x: (Seq<Position>, Set<char>)) -> bool {
    &&& forall|p: Position| #[trigger] st.pos_count(p) == count_in(x.0, p)
    &&& st.keys_set() == x.1
}

/// Whether two states are the same.
pub open spec fn same_state(a: CollectorTeamState, b: CollectorTeamState) -> bool {
    (forall|p: Position| #[trigger] a.pos_count(p) == b.pos_count(p)) && a.keys_set() == b.keys_set()
}

/// A shortest way for the team to collect the keys: teams are taken in the
/// order of their steps, and each member moves on to each key it can reach;
/// the first team that can reach no more keys has walked a shortest way.
/// Such a team is always found, as every other team leads on to teams that
/// hold more keys, and a team can be in only finitely many states.
pub fn find_shortest_collect_path(map: &VaultMap) -> (res: Option<Vec<Vec<Direction>>>)
    requires
        map.wf(),
    ensures
        res matches Some(paths) && paths.len() == map.entrances().len() && forall|i: int|
            0 <= i < paths.len() ==> walk(*map, map.entrance_place(i), (#[trigger] paths@[i])@) is Some,
{
    let starts = map.entrance_pos();
    let ghost st = starts@;
    let init_team = CollectorTeam::new(&starts);
    proof {
        assert forall|i: int| 0 <= i < st.len() implies walk(*map, st[i], #[trigger] init_team.paths_spec()[i])
            == Some(init_team.pos_spec()[i]) && map.in_map(init_team.pos_spec()[i]) by {
            assert(init_team.paths_spec()[i].len() == 0);
        }
    }
    let mut teams: Vec<CollectorTeam> = Vec::new();
    teams.push(init_team);
    let mut searched: Vec<CollectorTeamState> = Vec::new();
    let mut paths = KeyPaths::new();
    let ghost univ = team_states(*map, st.len());
    let ghost mut states: Set<(Seq<Position>, Set<char>)> = Set::empty();
    let ghost mut maxk: int = -1;
    proof {
        lemma_team_states(*map, st.len());
        assert(keys_in_map(*map, teams@[0]));
        assert(keys_len(teams@[0]) > maxk) by {
            assert(teams@[0].keys_spec().to_set() =~= Set::<char>::empty());
        }
    }
    while teams.len() > 0
        invariant
            map.wf(),
            st == starts@,
            st.len() == map.entrances().len(),
            forall|i: int| 0 <= i < st.len() ==> #[trigger] st[i] == map.entrance_place(i),
            paths.valid_for(*map),
            forall|k: int| 0 <= k < teams.len() ==> (#[trigger] teams@[k]).walked_from(*map, st),
            forall|k: int| 0 <= k < teams.len() ==> #[trigger] keys_in_map(*map, teams@[k]),
            univ == team_states(*map, st.len()),
            univ.finite(),
            states.finite(),
            states.subset_of(univ),
            states.len() <= univ.len(),
            forall|x: (Seq<Position>, Set<char>)| #[trigger] states.contains(x) ==> exists|i: int|
                0 <= i < searched.len() && state_is(#[trigger] searched@[i], x),
            forall|i: int| 0 <= i < searched.len() ==> (#[trigger] searched@[i]).keys_set().len() <= maxk,
            exists|k: int| 0 <= k < teams.len() && #[trigger] keys_len(teams@[k]) > maxk,
        decreases univ.len() - states.len(), teams.len(),
    {
        let mut best: usize = 0;
        let mut best_n = teams[0].steps_n();
        let mut t: usize = 1;
        while t < teams.len()
            invariant
                best < teams.len(),
                1 <= t <= teams.len(),
            decreases teams.len() - t,
        {
            let n = teams[t].steps_n();
            if n < best_n {
                best = t;
                best_n = n;
            }
            t = t + 1;
        }
        let ghost all = teams@;
        let team = teams.remove(best);
        proof {
            assert(team == all[best as int]);
            assert forall|k: int| 0 <= k < teams.len() implies (#[trigger] teams@[k]).walked_from(*map, st)
                && keys_in_map(*map, teams@[k]) by {
                if k < best {
                    assert(teams@[k] == all[k]);
                } else {
                    assert(teams@[k] == all[k + 1]);
                }
            }
            assert(team.walked_from(*map, st));
            assert(keys_in_map(*map, team));
        }
        let state = team.state();
        let mut seen = false;
        let mut s_i: usize = 0;
        while s_i < searched.len()
            invariant
                s_i <= searched.len(),
                !seen ==> forall|i: int| 0 <= i < s_i ==> !same_state(#[trigger] searched@[i], state),
                seen ==> exists|i: int| 0 <= i < searched.len() && same_state(#[trigger] searched@[i], state),
            decreases searched.len() - s_i,
        {
            if searched[s_i].same(&state) {
                seen = true;
                assert(same_state(searched@[s_i as int], state));
            }
            s_i = s_i + 1;
        }
        if seen {
            proof {
                let i = choose|i: int| 0 <= i < searched.len() && same_state(#[trigger] searched@[i], state);
                assert(searched@[i].keys_set().len() <= maxk);
                assert(keys_len(team) <= maxk);
                let k = choose|k: int| 0 <= k < all.len() && #[trigger] keys_len(all[k]) > maxk;
                assert(k != best);
                if k < best {
                    assert(teams@[k] == all[k]);
                    assert(keys_len(teams@[k]) > maxk);
                } else {
                    assert(teams@[k - 1] == all[k]);
                    assert(keys_len(teams@[k - 1]) > maxk);
                }
            }
            continue;
        }
        let ghost pair = (team.pos_spec(), team.keys_spec().to_set());
        proof {
            assert(!states.contains(pair)) by {
                if states.contains(pair) {
                    let i = choose|i: int| 0 <= i < searched.len() && state_is(#[trigger] searched@[i], pair);
                    assert forall|p: Position| #[trigger] searched@[i].pos_count(p) == state.pos_count(p) by {
                        assert(searched@[i].pos_count(p) == count_in(pair.0, p));
                    }
                    assert(same_state(searched@[i], state));
                }
            }
            assert(univ.contains(pair)) by {
                lemma_team_states(*map, st.len());
                assert forall|i: int| 0 <= i < st.len() implies map.in_map(#[trigger] team.pos_spec()[i]) by {
                    assert(walk(*map, st[i], team.paths_spec()[i]) == Some(team.pos_spec()[i]));
                }
                assert forall|c: char| #[trigger] pair.1.contains(c) implies key_in_map(*map, c) by {
                    assert(team.keys_spec().contains(c));
                }
            }
            vstd::set_lib::lemma_len_subset(states.insert(pair), univ);
        }
        let ghost old_searched = searched@;
        let ghost old_maxk = maxk;
        searched.push(state);
        proof {
            vstd::seq_lib::seq_to_set_is_finite(team.keys_spec());
            assert forall|x: (Seq<Position>, Set<char>)| #[trigger] states.insert(pair).contains(x) implies exists|i: int|
                0 <= i < searched.len() && state_is(#[trigger] searched@[i], x) by {
                if x == pair {
                    assert(state_is(searched@[searched.len() - 1], x));
                } else {
                    let i = choose|i: int| 0 <= i < old_searched.len() && state_is(#[trigger] old_searched[i], x);
                    assert(searched@[i] == old_searched[i]);
                }
            }
            states = states.insert(pair);
            if keys_len(team) > maxk {
                maxk = keys_len(team);
            }
            assert forall|i: int| 0 <= i < searched.len() implies (#[trigger] searched@[i]).keys_set().len() <= maxk by {
                if i < old_searched.len() {
                    assert(searched@[i] == old_searched[i]);
                }
            }
        }
        proof {
            assert(team.walked_from(*map, st));
            assert forall|i: int| 0 <= i < team.pos_spec().len() implies map.in_map(#[trigger] team.pos_spec()[i]) by {
                assert(walk(*map, st[i], team.paths_spec()[i]) == Some(team.pos_spec()[i]));
            }
        }
        let reachable = team.search_keys(map, &mut paths);
        let mut all_empty = true;
        let mut r: usize = 0;
        while r < reachable.len()
            invariant
                r <= reachable.len(),
                all_empty ==> forall|q: int| 0 <= q < r ==> (#[trigger] reachable@[q]).len() == 0,
                !all_empty ==> exists|q: int| 0 <= q < reachable.len() && (#[trigger] reachable@[q]).len() > 0,
            decreases reachable.len() - r,
        {
            if reachable[r].len() > 0 {
                all_empty = false;
            }
            r = r + 1;
        }
        if all_empty {
            let mut out: Vec<Vec<Direction>> = Vec::new();
            let mut i: usize = 0;
            while i < team.members_path.len()
                invariant
                    i <= team.members_path.len(),
                    team.walked_from(*map, st),
                    out.len() == i,
                    forall|k: int| 0 <= k < i ==> (#[trigger] out@[k])@ == team.paths_spec()[k],
                decreases team.members_path.len() - i,
            {
                out.push(copy_dirs(&team.members_path[i]));
                i = i + 1;
            }
            proof {
                assert forall|k: int| 0 <= k < out.len() implies walk(*map, map.entrance_place(k), (#[trigger] out@[k])@) is Some by {
                    assert(team.paths_spec()[k] == out@[k]@);
                    assert(st[k] == map.entrance_place(k));
                }
            }
            return Some(out);
        }
        proof {
            if keys_len(team) <= old_maxk {
                let k = choose|k: int| 0 <= k < all.len() && #[trigger] keys_len(all[k]) > old_maxk;
                assert(k != best);
                if k < best {
                    assert(teams@[k] == all[k]);
                    assert(keys_len(teams@[k]) > maxk);
                } else {
                    assert(teams@[k - 1] == all[k]);
                    assert(keys_len(teams@[k - 1]) > maxk);
                }
            }
        }
        let mut m: usize = 0;
        while m < reachable.len()
            invariant
                map.wf(),
                m <= reachable.len(),
                reachable.len() == team.pos_spec().len(),
                st.len() == map.entrances().len(),
                forall|i: int| 0 <= i < st.len() ==> #[trigger] st[i] == map.entrance_place(i),
                paths.valid_for(*map),
                team.walked_from(*map, st),
                keys_in_map(*map, team),
                forall|i: int, j: int|
                    0 <= i < reachable.len() && 0 <= j < reachable@[i].len() ==> key_open(
                        paths,
                        team.pos_spec()[i],
                        #[trigger] reachable@[i]@[j],
                        team.keys_spec(),
                    ),
                forall|k: int| 0 <= k < teams.len() ==> (#[trigger] teams@[k]).walked_from(*map, st),
                forall|k: int| 0 <= k < teams.len() ==> #[trigger] keys_in_map(*map, teams@[k]),
                (exists|k: int| 0 <= k < teams.len() && #[trigger] keys_len(teams@[k]) > maxk) || (keys_len(team) + 1
                    > maxk && exists|q: int| m <= q < reachable.len() && (#[trigger] reachable@[q]).len() > 0),
            decreases reachable.len() - m,
        {
            let keys = &reachable[m];
            let mut j: usize = 0;
            while j < keys.len()
                invariant
                    map.wf(),
                    j <= keys.len(),
                    m < reachable.len(),
                    *keys == reachable@[m as int],
                    reachable.len() == team.pos_spec().len(),
                    paths.valid_for(*map),
                    team.walked_from(*map, st),
                    keys_in_map(*map, team),
                    forall|i: int, jj: int|
                        0 <= i < reachable.len() && 0 <= jj < reachable@[i].len() ==> key_open(
                            paths,
                            team.pos_spec()[i],
                            #[trigger] reachable@[i]@[jj],
                            team.keys_spec(),
                        ),
                    forall|k: int| 0 <= k < teams.len() ==> (#[trigger] teams@[k]).walked_from(*map, st),
                    forall|k: int| 0 <= k < teams.len() ==> #[trigger] keys_in_map(*map, teams@[k]),
                    (exists|k: int| 0 <= k < teams.len() && #[trigger] keys_len(teams@[k]) > maxk) || (keys_len(team)
                        + 1 > maxk && (j < keys.len() || exists|q: int| m < q < reachable.len() && (#[trigger] reachable@[q]).len() > 0)),
                decreases keys.len() - j,
            {
                let mut future_team = team.copy();
                proof {
                    assert(key_open(paths, team.pos_spec()[m as int], keys@[j as int], team.keys_spec()));
                }
                proof {
                    assert(walk(*map, st[m as int], team.paths_spec()[m as int]) == Some(team.pos_spec()[m as int]));
                }
                future_team.move_mem_to_key(m, keys[j], map, &paths);
                proof {
                    let from = team.pos_spec()[m as int];
                    let way = paths.way(from, keys@[j as int]).unwrap().1;
                    lemma_walk_append(*map, st[m as int], team.paths_spec()[m as int], way);
                    assert forall|i: int| 0 <= i < st.len() implies walk(*map, st[i], #[trigger] future_team.paths_spec()[i])
                        == Some(future_team.pos_spec()[i]) && map.in_map(future_team.pos_spec()[i]) by {
                        if i != m {
                            assert(future_team.pos_spec()[i] == team.pos_spec()[i]);
                        }
                    }
                    let key = keys@[j as int];
                    assert forall|c: char| #[trigger] future_team.keys_spec().contains(c) implies key_in_map(*map, c) by {
                        if c == key {
                            let q = future_team.pos_spec()[m as int];
                            assert(map.tile_at(q) == TileType::Key(key));
                        } else {
                            assert(team.keys_spec().contains(c));
                        }
                    }
                    assert(future_team.keys_spec().to_set() =~= team.keys_spec().to_set().insert(key));
                    assert(!team.keys_spec().contains(key));
                    vstd::seq_lib::seq_to_set_is_finite(team.keys_spec());
                    assert(keys_len(future_team) == keys_len(team) + 1);
                }
                let ghost before = teams@;
                teams.push(future_team);
                proof {
                    assert forall|k: int| 0 <= k < teams.len() implies (#[trigger] teams@[k]).walked_from(*map, st)
                        && keys_in_map(*map, teams@[k]) by {
                        if k < before.len() {
                            assert(teams@[k] == before[k]);
                        }
                    }
                    if exists|k: int| 0 <= k < before.len() && #[trigger] keys_len(before[k]) > maxk {
                        let k = choose|k: int| 0 <= k < before.len() && #[trigger] keys_len(before[k]) > maxk;
                        assert(teams@[k] == before[k]);
                        assert(keys_len(teams@[k]) > maxk);
                    } else {
                        assert(keys_len(teams@[before.len() as int]) > maxk);
                    }
                }
                j = j + 1;
            }
            m = m + 1;
        }
    }
    None
}

/// Walls the entrance and the four places next to it, and puts four
/// entrances at the places diagonal to it.
pub fn split_entrance(map: &mut VaultMap)
    requires
        old(map).wf(),
        old(map).entrances().len() == 1,
        ({
            let e = old(map).entrance_place(0);
            &&& 1 <= e.0 && e.0 + 1 < old(map).cols()
            &&& 1 <= e.1 && e.1 + 1 < old(map).rows()
            &&& !(old(map).tile_at(Position((e.0 - 1) as usize, (e.1 - 1) as usize)) is Wall)
            &&& !(old(map).tile_at(Position((e.0 - 1) as usize, (e.1 + 1) as usize)) is Wall)
            &&& !(old(map).tile_at(Position((e.0 + 1) as usize, (e.1 - 1) as usize)) is Wall)
            &&& !(old(map).tile_at(Position((e.0 + 1) as usize, (e.1 + 1) as usize)) is Wall)
        }),
    ensures
        final(map).wf(),
        final(map).rows() == old(map).rows(),
        final(map).cols() == old(map).cols(),
        ({
            let e = old(map).entrance_place(0);
            let walled = seq![
                e,
                Position(e.0, (e.1 - 1) as usize),
                Position(e.0, (e.1 + 1) as usize),
                Position((e.0 - 1) as usize, e.1),
                Position((e.0 + 1) as usize, e.1),
            ];
            &&& forall|p: Position| old(map).in_map(p) ==> #[trigger] final(map).tile_at(p) == (if walled.contains(p) {
                TileType::Wall
            } else {
                old(map).tile_at(p)
            })
            &&& final(map).entrances().len() == 4
            &&& final(map).entrance_place(0) == Position((e.0 - 1) as usize, (e.1 - 1) as usize)
            &&& final(map).entrance_place(1) == Position((e.0 - 1) as usize, (e.1 + 1) as usize)
            &&& final(map).entrance_place(2) == Position((e.0 + 1) as usize, (e.1 - 1) as usize)
            &&& final(map).entrance_place(3) == Position((e.0 + 1) as usize, (e.1 + 1) as usize)
        }),
{
    let entrances = map.entrance_pos();
    let ep = entrances[0];
    let ghost m0 = *map;
    let n = Position(ep.0, ep.1 - 1);
    let s = Position(ep.0, ep.1 + 1);
    let we = Position(ep.0 - 1, ep.1);
    let ea = Position(ep.0 + 1, ep.1);
    let d0 = Position(ep.0 - 1, ep.1 - 1);
    let d1 = Position(ep.0 - 1, ep.1 + 1);
    let d2 = Position(ep.0 + 1, ep.1 - 1);
    let d3 = Position(ep.0 + 1, ep.1 + 1);
    map.tile_mut(&ep, TileType::Wall);
    map.tile_mut(&n, TileType::Wall);
    map.tile_mut(&s, TileType::Wall);
    map.tile_mut(&we, TileType::Wall);
    map.tile_mut(&ea, TileType::Wall);
    let ghost m1 = *map;
    proof {
        let walled = seq![ep, n, s, we, ea];
        assert forall|p: Position| m0.in_map(p) implies #[trigger] m1.tile_at(p) == (if walled.contains(p) {
            TileType::Wall
        } else {
            m0.tile_at(p)
        }) by {
            if walled.contains(p) {
                let k = walled.index_of(p);
                assert(p == ep || p == n || p == s || p == we || p == ea);
            } else {
                assert(p != ep && p != n && p != s && p != we && p != ea) by {
                    if p == ep { assert(walled[0] == p); }
                    if p == n { assert(walled[1] == p); }
                    if p == s { assert(walled[2] == p); }
                    if p == we { assert(walled[3] == p); }
                    if p == ea { assert(walled[4] == p); }
                }
            }
        }
        assert(!walled.contains(d0)) by { assert(d0 != ep && d0 != n && d0 != s && d0 != we && d0 != ea); }
        assert(!walled.contains(d1)) by { assert(d1 != ep && d1 != n && d1 != s && d1 != we && d1 != ea); }
        assert(!walled.contains(d2)) by { assert(d2 != ep && d2 != n && d2 != s && d2 != we && d2 != ea); }
        assert(!walled.contains(d3)) by { assert(d3 != ep && d3 != n && d3 != s && d3 != we && d3 != ea); }
        assert(m1.tile_at(d0) == m0.tile_at(d0));
        assert(m1.tile_at(d1) == m0.tile_at(d1));
        assert(m1.tile_at(d2) == m0.tile_at(d2));
        assert(m1.tile_at(d3) == m0.tile_at(d3));
        assert(ep == m0.entrance_place(0));
    }
    map.clear_entrance();
    map.add_entrance(&d0);
    map.add_entrance(&d1);
    map.add_entrance(&d2);
    map.add_entrance(&d3);
    proof {
        assert forall|p: Position| m0.in_map(p) implies #[trigger] map.tile_at(p) == m1.tile_at(p) by {}
    }
}

proof fn lemma_index_distinct(a: Position, b: Position, w: int, h: int)
    requires
        a.0 < w && b.0 < w,
        a != b,
    ensures
        a.1 * w + a.0 != b.1 * w + b.0,
{
    if a.1 * w + a.0 == b.1 * w + b.0 {
        vstd::arithmetic::div_mod::lemma_fundamental_div_mod_converse(a.1 * w + a.0, w, a.1 as int, a.0 as int);
        vstd::arithmetic::div_mod::lemma_fundamental_div_mod_converse(b.1 * w + b.0, w, b.1 as int, b.0 as int);
    }
}

/// Whether the key `k` is not held yet and the way kept from `from` to it
/// needs only keys in `held`.
pub open spec fn key_open(paths: KeyPaths, from: Position, k: char, held: Seq<char>) -> bool {
    &&& paths.way(from, k) matches Some(w) && subset(w.0, held)
    &&& !held.contains(k)
}

proof fn lemma_key_entry_push(
    entries: Seq<(Position, Vec<(char, Vec<char>, Vec<Direction>)>)>,
    from: Position,
    found: Vec<(char, Vec<char>, Vec<Direction>)>,
    k: int,
)
    requires
        0 <= k <= entries.len(),
        forall|j: int| 0 <= j < entries.len() ==> (#[trigger] entries[j]).0 != from,
    ensures
        key_entry_from(entries.push((from, found)), from, k) == Some(entries.len() as int),
    decreases entries.len() - k,
{
    if k < entries.len() {
        lemma_key_entry_push(entries, from, found, k + 1);
        assert(entries.push((from, found))[k] == entries[k]);
    } else {
        assert(entries.push((from, found))[k] == (from, found));
    }
}

/// Adding an entry at the end keeps the entry of a place that had one.
proof fn lemma_key_entry_keep(
    entries: Seq<(Position, Vec<(char, Vec<char>, Vec<Direction>)>)>,
    e: (Position, Vec<(char, Vec<char>, Vec<Direction>)>),
    q: Position,
    k: int,
)
    requires
        0 <= k <= entries.len(),
        key_entry_from(entries, q, k) is Some,
    ensures
        key_entry_from(entries.push(e), q, k) == key_entry_from(entries, q, k),
    decreases entries.len() - k,
{
    if k < entries.len() {
        assert(entries.push(e)[k] == entries[k]);
        if entries[k].0 != q {
            lemma_key_entry_keep(entries, e, q, k + 1);
        }
    }
}

/// With distinct keys, the way to the key of entry `t` is that entry's.
proof fn lemma_key_way_at(found: Seq<(char, Vec<char>, Vec<Direction>)>, t: int, k: int)
    requires
        0 <= k <= t < found.len(),
        forall|i: int, j: int| 0 <= i < j < found.len() ==> (#[trigger] found[i]).0 != (#[trigger] found[j]).0,
    ensures
        key_way_from(found, found[t].0, k) == Some((found[t].1@, found[t].2@)),
    decreases t - k,
{
    if k < t {
        assert(found[k].0 != found[t].0);
        lemma_key_way_at(found, t, k + 1);
    }
}

/// The lengths of the paths, added up.
pub open spec fn lens_sum(paths: Seq<Seq<Direction>>) -> int
    decreases paths.len(),
{
    if paths.len() == 0 {
        0
    } else {
        lens_sum(paths.drop_last()) + paths.last().len()
    }
}

/// `v`, or `usize::MAX` where it is larger.
pub open spec fn min_usize(v: int) -> int {
    if v > usize::MAX { usize::MAX as int } else { v }
}

proof fn lemma_lens_sum_nonneg(paths: Seq<Seq<Direction>>)
    ensures
        lens_sum(paths) >= 0,
    decreases paths.len(),
{
    if paths.len() > 0 {
        lemma_lens_sum_nonneg(paths.drop_last());
    }
}

fn copy_positions(v: &Vec<Position>) -> (res: Vec<Position>)
    ensures
        res@ == v@,
{
    let mut res: Vec<Position> = Vec::new();
    let mut i: usize = 0;
    while i < v.len()
        invariant
            i <= v.len(),
            res@ == v@.take(i as int),
        decreases v.len() - i,
    {
        res.push(v[i]);
        i = i + 1;
        proof {
            assert(res@ =~= v@.take(i as int));
        }
    }
    proof {
        assert(v@.take(v.len() as int) =~= v@);
    }
    res
}

fn copy_chars(v: &Vec<char>) -> (res: Vec<char>)
    ensures
        res@ == v@,
{
    let mut res: Vec<char> = Vec::new();
    let mut i: usize = 0;
    while i < v.len()
        invariant
            i <= v.len(),
            res@ == v@.take(i as int),
        decreases v.len() - i,
    {
        res.push(v[i]);
        i = i + 1;
        proof {
            assert(res@ =~= v@.take(i as int));
        }
    }
    proof {
        assert(v@.take(v.len() as int) =~= v@);
    }
    res
}

fn copy_dirs(v: &Vec<Direction>) -> (res: Vec<Direction>)
    ensures
        res@ == v@,
{
    let mut res: Vec<Direction> = Vec::new();
    let mut i: usize = 0;
    while i < v.len()
        invariant
            i <= v.len(),
            res@ == v@.take(i as int),
        decreases v.len() - i,
    {
        res.push(v[i]);
        i = i + 1;
        proof {
            assert(res@ =~= v@.take(i as int));
        }
    }
    proof {
        assert(v@.take(v.len() as int) =~= v@);
    }
    res
}

} // verus!
