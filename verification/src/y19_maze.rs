//! A donut-shaped maze whose gates, named by pairs of letters, warp a
//! walker between two places.  The map is read row by row into runs of
//! tiles and holes; gates are found from their names; a walker searches the
//! maze gate by gate for the shortest way from the start gate to the stop
//! gate, on one level or through recursive levels of the same maze.

use vstd::prelude::*;
use crate::text::{alphabetic, is_alphabetic, str_eq, string_from_chars};
use crate::search::{bfs_depth, lemma_bfs_depth_push};

verus! {

/// What went wrong while reading or walking a maze.
#[derive(Debug)]
pub enum Error {
    /// The builder was asked for something its state does not allow:
    /// (the state, the name of the operation).
    InvalidMapBuilderState(String, String),
    NoMapInGivenInput,
    NoStartGateInMap(String),
    NoStopGateInMap(String),
    InvalidCharInMap(char),
    /// Gates whose name occurs only once: (name, position of that gate).
    FoundLoneGatesInMap(Vec<(String, Position)>),
    /// (name of that gate, position of the first letter of its name).
    NoPositionForGate(String, Position),
    NoPathToWalkThroughMaze,
}

/// The four ways to move on the map.
#[derive(Debug, Clone, Copy, PartialEq, Eq, Structural)]
pub enum Direction {
    North,
    South,
    West,
    East,
}

/// The opposite direction.
pub open spec fn reverse_spec(d: Direction) -> Direction {
    match d {
        Direction::North => Direction::South,
        Direction::South => Direction::North,
        Direction::West => Direction::East,
        Direction::East => Direction::West,
    }
}

impl Direction {
    pub fn reverse(&self) -> (res: Self)
        ensures
            res == reverse_spec(*self),
    {
        match self {
            Direction::North => Direction::South,
            Direction::South => Direction::North,
            Direction::West => Direction::East,
            Direction::East => Direction::West,
        }
    }
}

/// A place on the map: column `x` (`.0`) and row `y` (`.1`).
#[derive(Debug, Clone, Copy, PartialEq, Eq, Hash, PartialOrd, Ord, Structural)]
pub struct Position(pub usize, pub usize);

/// Whether a move from `p` in direction `d` stays within `usize`
/// (moving north or west off the map is no move at all).
pub open spec fn can_move(p: Position, d: Direction) -> bool {
    match d {
        Direction::South => p.1 < usize::MAX,
        Direction::East => p.0 < usize::MAX,
        _ => true,
    }
}

/// The place one step from `p` in direction `d`, if it is on the map.
pub open spec fn move_spec(p: Position, d: Direction) -> Option<Position> {
    match d {
        Direction::North => if p.1 > 0 { Some(Position(p.0, (p.1 - 1) as usize)) } else { None },
        Direction::South => Some(Position(p.0, (p.1 + 1) as usize)),
        Direction::West => if p.0 > 0 { Some(Position((p.0 - 1) as usize, p.1)) } else { None },
        Direction::East => Some(Position((p.0 + 1) as usize, p.1)),
    }
}

impl Position {
    pub fn new(x: usize, y: usize) -> (res: Self)
        ensures
            res == Position(x, y),
    {
        Position(x, y)
    }

    pub fn x(&self) -> (res: usize)
        ensures
            res == self.0,
    {
        self.0
    }

    pub fn y(&self) -> (res: usize)
        ensures
            res == self.1,
    {
        self.1
    }

    /// The row, that is `y`.
    pub fn r(&self) -> (res: usize)
        ensures
            res == self.1,
    {
        self.1
    }

    /// The column, that is `x`.
    pub fn c(&self) -> (res: usize)
        ensures
            res == self.0,
    {
        self.0
    }

    pub fn move_along(&self, dir: Direction) -> (res: Option<Self>)
        requires
            can_move(*self, dir),
        ensures
            res == move_spec(*self, dir),
    {
        match dir {
            Direction::North => if self.1 > 0 { Some(Position(self.0, self.1 - 1)) } else { None },
            Direction::South => Some(Position(self.0, self.1 + 1)),
            Direction::West => if self.0 > 0 { Some(Position(self.0 - 1, self.1)) } else { None },
            Direction::East => Some(Position(self.0 + 1, self.1)),
        }
    }

    /// The place shifted back by the given offsets, if it stays on the map.
    pub fn remove_offset(&self, x_offset: usize, y_offset: usize) -> (res: Option<Self>)
        ensures
            res == (if self.0 >= x_offset && self.1 >= y_offset {
                Some(Position((self.0 - x_offset) as usize, (self.1 - y_offset) as usize))
            } else {
                None
            }),
    {
        if self.0 >= x_offset && self.1 >= y_offset {
            Some(Position(self.0 - x_offset, self.1 - y_offset))
        } else {
            None
        }
    }
}

/// A tile of the maze.
#[derive(Debug, PartialEq, Eq)]
pub enum TileType {
    Wall,
    Empty,
    /// (name of that gate, where it warps to, if anywhere).
    Gate(String, Option<Position>),
}

impl TileType {
    pub fn can_pass(&self) -> (res: bool)
        ensures
            res == !(*self is Wall),
    {
        match self {
            TileType::Wall => false,
            _ => true,
        }
    }
}

/// A copy of a tile.
pub fn copy_tile(t: &TileType) -> (res: TileType)
    ensures
        res == *t,
{
    match t {
        TileType::Wall => TileType::Wall,
        TileType::Empty => TileType::Empty,
        TileType::Gate(name, warp) => TileType::Gate(name.clone(), *warp),
    }
}

/// A run of columns `start..end` of a row: tiles stored from `start_ind`
/// on, or a hole where `start_ind` is `None`.
#[derive(Debug, Clone, Copy)]
struct MazeRange {
    start: usize,
    end: usize,
    start_ind: Option<usize>,
}

impl MazeRange {
    fn new(start: usize, end: usize, start_ind: Option<usize>) -> (res: Self)
        ensures
            res == (MazeRange { start, end, start_ind }),
    {
        MazeRange { start, end, start_ind }
    }
}

/// The tile that run `r` holds at column `c`, if any.
spec fn range_cell(tiles: Seq<TileType>, r: MazeRange, c: int) -> Option<TileType> {
    match r.start_ind {
        Some(s) => {
            let i = s + c - r.start;
            if 0 <= i < tiles.len() {
                Some(tiles[i])
            } else {
                None
            }
        },
        None => None,
    }
}

/// The tile at column `c` as given by the first of the runs from `k` on
/// that covers `c`.
spec fn cell_from(tiles: Seq<TileType>, ranges: Seq<MazeRange>, k: int, c: int) -> Option<TileType>
    decreases ranges.len() - k,
{
    if k < 0 || k >= ranges.len() {
        None
    } else if ranges[k].start <= c < ranges[k].end {
        range_cell(tiles, ranges[k], c)
    } else {
        cell_from(tiles, ranges, k + 1, c)
    }
}

/// Whether some cell holds a tile.
pub open spec fn has_tile(cells: Seq<Option<TileType>>) -> bool {
    exists|c: int| 0 <= c < cells.len() && (#[trigger] cells[c]) is Some
}

/// One row of the maze: its tiles and the runs of tiles and holes.
#[derive(Debug)]
pub struct MazeRow {
    tiles: Vec<TileType>,
    ranges: Vec<MazeRange>,
}

proof fn lemma_cell_from_push_other(
    tiles: Seq<TileType>,
    ranges: Seq<MazeRange>,
    r: MazeRange,
    k: int,
    c: int,
)
    requires
        0 <= k <= ranges.len(),
        !(r.start <= c < r.end),
    ensures
        cell_from(tiles, ranges.push(r), k, c) == cell_from(tiles, ranges, k, c),
    decreases ranges.len() - k,
{
    if k < ranges.len() {
        lemma_cell_from_push_other(tiles, ranges, r, k + 1, c);
        assert(ranges.push(r)[k] == ranges[k]);
    } else {
        assert(ranges.push(r)[k] == r);
        assert(cell_from(tiles, ranges.push(r), k + 1, c) is None);
    }
}

proof fn lemma_cell_from_push_new(
    tiles: Seq<TileType>,
    ranges: Seq<MazeRange>,
    r: MazeRange,
    k: int,
    c: int,
)
    requires
        0 <= k <= ranges.len(),
        r.start <= c < r.end,
        forall|i: int| 0 <= i < ranges.len() ==> (#[trigger] ranges[i]).end <= r.start,
    ensures
        cell_from(tiles, ranges.push(r), k, c) == range_cell(tiles, r, c),
    decreases ranges.len() - k,
{
    if k < ranges.len() {
        lemma_cell_from_push_new(tiles, ranges, r, k + 1, c);
        assert(ranges.push(r)[k] == ranges[k]);
    } else {
        assert(ranges.push(r)[k] == r);
    }
}

proof fn lemma_cell_from_more_tiles(
    tiles: Seq<TileType>,
    t: TileType,
    ranges: Seq<MazeRange>,
    k: int,
    c: int,
)
    requires
        0 <= k <= ranges.len(),
        forall|i: int| 0 <= i < ranges.len() ==> ranges_in_bounds(tiles, #[trigger] ranges[i]),
    ensures
        cell_from(tiles.push(t), ranges, k, c) == cell_from(tiles, ranges, k, c),
    decreases ranges.len() - k,
{
    if k < ranges.len() {
        lemma_cell_from_more_tiles(tiles, t, ranges, k + 1, c);
        assert(ranges_in_bounds(tiles, ranges[k]));
        if ranges[k].start <= c < ranges[k].end {
            match ranges[k].start_ind {
                Some(s) => {
                    assert(tiles.push(t)[s + c - ranges[k].start] == tiles[s + c - ranges[k].start]);
                },
                None => {},
            }
        }
    }
}

proof fn lemma_cell_from_beyond(tiles: Seq<TileType>, ranges: Seq<MazeRange>, k: int, c: int)
    requires
        0 <= k <= ranges.len(),
        forall|i: int| 0 <= i < ranges.len() ==> (#[trigger] ranges[i]).end <= c,
    ensures
        cell_from(tiles, ranges, k, c) is None,
    decreases ranges.len() - k,
{
    if k < ranges.len() {
        lemma_cell_from_beyond(tiles, ranges, k + 1, c);
        assert(ranges[k].end <= c);
    }
}

/// Whether a run of tiles points at tiles that exist.
spec fn ranges_in_bounds(tiles: Seq<TileType>, r: MazeRange) -> bool {
    &&& r.start < r.end
    &&& match r.start_ind {
        Some(s) => s + (r.end - r.start) <= tiles.len(),
        None => true,
    }
}

/// The character that shows a tile: a wall `#`, an open tile `.`, a gate
/// `O`.
pub open spec fn tile_char(t: TileType) -> char {
    match t {
        TileType::Wall => '#',
        TileType::Empty => '.',
        TileType::Gate(_, _) => 'O',
    }
}

/// The character that shows `t`.
fn tile_char_of(t: &TileType) -> (res: char)
    ensures
        res == tile_char(*t),
{
    match t {
        TileType::Wall => '#',
        TileType::Empty => '.',
        TileType::Gate(_, _) => 'O',
    }
}

/// The text of the runs `ranges` of a row: each run's tiles, or spaces for
/// a run of holes.
spec fn runs_text(tiles: Seq<TileType>, ranges: Seq<MazeRange>) -> Seq<char>
    decreases ranges.len(),
{
    if ranges.len() == 0 {
        Seq::empty()
    } else {
        let r = ranges.last();
        runs_text(tiles, ranges.drop_last()) + Seq::new(
            (r.end - r.start) as nat,
            |k: int| match r.start_ind {
                Some(s) => tile_char(tiles[s + k]),
                None => ' ',
            },
        )
    }
}

impl MazeRow {
    pub fn new() -> (res: Self)
        ensures
            res.cells_match(Seq::empty()),
    {
        let res = MazeRow { tiles: Vec::new(), ranges: Vec::new() };
        proof {
            assert forall|c: int| c >= 0 implies res.tile_at(c) is None by {}
        }
        res
    }

    /// The tile at column `ind`, if there is one there.
    pub closed spec fn tile_at(&self, ind: int) -> Option<TileType> {
        if self.tiles.len() == 0 || self.ranges.len() == 0
            || ind >= self.ranges@[self.ranges.len() - 1].end {
            None
        } else {
            cell_from(self.tiles@, self.ranges@, 0, ind)
        }
    }

    /// The row as text: the runs in order, each tile by its character and
    /// each hole a space.
    pub closed spec fn text_spec(&self) -> Seq<char> {
        runs_text(self.tiles@, self.ranges@)
    }

    /// The row as text.
    pub fn to_text_chars(&self) -> (res: Vec<char>)
        requires
            self.wf(),
        ensures
            res@ == self.text_spec(),
    {
        let mut out: Vec<char> = Vec::new();
        let mut k: usize = 0;
        while k < self.ranges.len()
            invariant
                self.wf(),
                k <= self.ranges.len(),
                out@ == runs_text(self.tiles@, self.ranges@.take(k as int)),
            decreases self.ranges.len() - k,
        {
            let r = self.ranges[k];
            proof {
                assert(ranges_in_bounds(self.tiles@, self.ranges@[k as int]));
                assert(self.ranges@.take(k + 1).drop_last() =~= self.ranges@.take(k as int));
            }
            let ghost before = out@;
            let len = r.end - r.start;
            let mut i: usize = 0;
            while i < len
                invariant
                    self.wf(),
                    i <= len == r.end - r.start,
                    ranges_in_bounds(self.tiles@, r),
                    out@ == before + Seq::new(i as nat, |j: int| match r.start_ind {
                        Some(s) => tile_char(self.tiles@[s + j]),
                        None => ' ',
                    }),
                decreases len - i,
            {
                let ch = match r.start_ind {
                    Some(s) => {
                        proof {
                            assert(s + len <= self.tiles@.len());
                            assert(s + i < self.tiles.len());
                        }
                        tile_char_of(&self.tiles[s + i])
                    },
                    None => ' ',
                };
                out.push(ch);
                i = i + 1;
                proof {
                    assert(out@ =~= before + Seq::new(i as nat, |j: int| match r.start_ind {
                        Some(s) => tile_char(self.tiles@[s + j]),
                        None => ' ',
                    }));
                }
            }
            k = k + 1;
        }
        proof {
            assert(self.ranges@.take(k as int) =~= self.ranges@);
        }
        out
    }

    /// Whether the row holds no tile at all.
    pub closed spec fn empty_spec(&self) -> bool {
        self.tiles.len() == 0
    }

    /// Whether the row reads as `cells`: the cell at each column, `None`
    /// for a hole; nothing beyond them.
    pub open spec fn cells_match(&self, cells: Seq<Option<TileType>>) -> bool {
        &&& forall|c: int| 0 <= c < cells.len() ==> #[trigger] self.tile_at(c) == cells[c]
        &&& forall|c: int| c >= cells.len() ==> (#[trigger] self.tile_at(c)) is None
        &&& self.empty_spec() == !has_tile(cells)
    }

    pub fn tile(&self, ind: usize) -> (res: Option<&TileType>)
        ensures
            match res {
                Some(t) => self.tile_at(ind as int) == Some(*t),
                None => self.tile_at(ind as int) is None,
            },
    {
        let n = self.ranges.len();
        if self.tiles.len() == 0 || n == 0 || ind >= self.ranges[n - 1].end {
            return None;
        }
        let mut k: usize = 0;
        while k < n
            invariant
                0 <= k <= n,
                n == self.ranges.len(),
                self.tiles.len() > 0,
                ind < self.ranges@[n - 1].end,
                cell_from(self.tiles@, self.ranges@, k as int, ind as int)
                    == cell_from(self.tiles@, self.ranges@, 0, ind as int),
            decreases n - k,
        {
            let r = self.ranges[k];
            if r.start <= ind && ind < r.end {
                match r.start_ind {
                    Some(s) => {
                        let off = ind - r.start;
                        if s <= usize::MAX - off && s + off < self.tiles.len() {
                            return Some(&self.tiles[s + off]);
                        } else {
                            return None;
                        }
                    },
                    None => {
                        return None;
                    },
                }
            }
            k = k + 1;
        }
        None
    }

    /// Whether the runs are in order and point at distinct tiles that exist.
    pub closed spec fn wf(&self) -> bool {
        runs_wf(self.tiles@, self.ranges@)
    }

    /// Puts `tt` at column `ind`; `false` where the row has no tile there.
    pub fn tile_mut(&mut self, ind: usize, tt: TileType) -> (res: bool)
        requires
            old(self).wf(),
        ensures
            final(self).wf(),
            res == old(self).tile_at(ind as int) is Some,
            res ==> final(self).tile_at(ind as int) == Some(tt),
            forall|c: int| c != ind ==> #[trigger] final(self).tile_at(c) == old(self).tile_at(c),
            final(self).empty_spec() == old(self).empty_spec(),
            !res ==> *final(self) == *old(self),
    {
        let n = self.ranges.len();
        if self.tiles.len() == 0 || n == 0 || ind >= self.ranges[n - 1].end {
            return false;
        }
        let mut k: usize = 0;
        while k < n
            invariant
                0 <= k <= n,
                n == self.ranges.len(),
                self.tiles.len() > 0,
                ind < self.ranges@[n - 1].end,
                runs_wf(self.tiles@, self.ranges@),
                *self == *old(self),
                cell_from(self.tiles@, self.ranges@, k as int, ind as int)
                    == cell_from(self.tiles@, self.ranges@, 0, ind as int),
            decreases n - k,
        {
            let r = self.ranges[k];
            if r.start <= ind && ind < r.end {
                proof {
                    lemma_cell_from_found(self.tiles@, self.ranges@, k as int, ind as int, 0);
                    assert(ranges_in_bounds(self.tiles@, self.ranges@[k as int]));
                }
                match r.start_ind {
                    Some(s) => {
                        assert(s + (r.end - r.start) <= self.tiles.len());
                        let i = s + (ind - r.start);
                        let ghost old_tiles = self.tiles@;
                        let ghost ranges = self.ranges@;
                        self.tiles.set(i, tt);
                        proof {
                            lemma_cell_from_set_this(old_tiles, tt, ranges, k as int, ind as int, 0);
                            assert forall|c: int| c != ind implies #[trigger] self.tile_at(c)
                                == old(self).tile_at(c) by {
                                lemma_cell_from_set_other(old_tiles, tt, ranges, k as int, ind as int, 0, c);
                            }
                            assert forall|j: int| 0 <= j < ranges.len() implies
                                ranges_in_bounds(self.tiles@, #[trigger] ranges[j]) by {
                                assert(ranges_in_bounds(old_tiles, ranges[j]));
                            }
                        }
                        return true;
                    },
                    None => {
                        return false;
                    },
                }
            }
            k = k + 1;
        }
        false
    }

    pub fn is_empty(&self) -> (res: bool)
        ensures
            res == self.empty_spec(),
    {
        self.tiles.len() == 0
    }
}

/// Whether the runs of a row are in order, do not overlap, and point at
/// tiles that exist without sharing any.
spec fn runs_wf(tiles: Seq<TileType>, ranges: Seq<MazeRange>) -> bool {
    &&& forall|i: int| 0 <= i < ranges.len() ==> ranges_in_bounds(tiles, #[trigger] ranges[i])
    &&& forall|i: int, j: int| 0 <= i < j < ranges.len() ==> (#[trigger] ranges[i]).end <= (#[trigger] ranges[j]).start
    &&& forall|i: int, j: int|
        0 <= i < j < ranges.len() && (#[trigger] ranges[i]).start_ind is Some
            && (#[trigger] ranges[j]).start_ind is Some
            ==> ranges[i].start_ind.unwrap() + (ranges[i].end - ranges[i].start)
                <= ranges[j].start_ind.unwrap()
}

/// Setting the tile that column `c` reads (in run `kc`) leaves every other
/// column as it was.
proof fn lemma_cell_from_set_other(
    tiles: Seq<TileType>,
    t: TileType,
    ranges: Seq<MazeRange>,
    kc: int,
    c: int,
    k: int,
    d: int,
)
    requires
        runs_wf(tiles, ranges),
        0 <= kc < ranges.len(),
        ranges[kc].start <= c < ranges[kc].end,
        ranges[kc].start_ind is Some,
        0 <= k <= ranges.len(),
        d != c,
    ensures
        ({
            let i = ranges[kc].start_ind.unwrap() + c - ranges[kc].start;
            cell_from(tiles.update(i, t), ranges, k, d) == cell_from(tiles, ranges, k, d)
        }),
    decreases ranges.len() - k,
{
    let i = ranges[kc].start_ind.unwrap() + c - ranges[kc].start;
    assert(ranges_in_bounds(tiles, ranges[kc]));
    if k < ranges.len() {
        lemma_cell_from_set_other(tiles, t, ranges, kc, c, k + 1, d);
        assert(ranges_in_bounds(tiles, ranges[k]));
        if ranges[k].start <= d < ranges[k].end {
            match ranges[k].start_ind {
                Some(sk) => {
                    let j = sk + d - ranges[k].start;
                    if k < kc {
                        assert(ranges[k].start_ind.unwrap() + (ranges[k].end - ranges[k].start)
                            <= ranges[kc].start_ind.unwrap());
                    } else if k > kc {
                        assert(ranges[kc].start_ind.unwrap() + (ranges[kc].end - ranges[kc].start)
                            <= ranges[k].start_ind.unwrap());
                    }
                    assert(j != i);
                    if 0 <= j < tiles.len() {
                        assert(tiles.update(i, t)[j] == tiles[j]);
                    }
                },
                None => {},
            }
        }
    }
}

/// Column `c`, read by run `kc`, reads the tile set for it.
proof fn lemma_cell_from_set_this(
    tiles: Seq<TileType>,
    t: TileType,
    ranges: Seq<MazeRange>,
    kc: int,
    c: int,
    k: int,
)
    requires
        runs_wf(tiles, ranges),
        0 <= kc < ranges.len(),
        ranges[kc].start <= c < ranges[kc].end,
        ranges[kc].start_ind is Some,
        0 <= k <= kc,
    ensures
        ({
            let i = ranges[kc].start_ind.unwrap() + c - ranges[kc].start;
            cell_from(tiles.update(i, t), ranges, k, c) == Some(t)
        }),
    decreases kc - k,
{
    assert(ranges_in_bounds(tiles, ranges[kc]));
    if k < kc {
        lemma_cell_from_set_this(tiles, t, ranges, kc, c, k + 1);
        assert(ranges[k].end <= ranges[kc].start);
    }
}

/// With ordered runs, column `c` in run `kc` is read from run `kc`.
proof fn lemma_cell_from_found(tiles: Seq<TileType>, ranges: Seq<MazeRange>, kc: int, c: int, k: int)
    requires
        runs_wf(tiles, ranges),
        0 <= kc < ranges.len(),
        ranges[kc].start <= c < ranges[kc].end,
        0 <= k <= kc,
    ensures
        cell_from(tiles, ranges, k, c) == range_cell(tiles, ranges[kc], c),
    decreases kc - k,
{
    if k < kc {
        lemma_cell_from_found(tiles, ranges, kc, c, k + 1);
        assert(ranges[k].end <= ranges[kc].start);
    }
}

/// What the map builder is doing: nothing, or putting tiles or a hole
/// over the columns `start..end` of the row it builds.
#[derive(Debug, Clone, Copy, PartialEq, Eq, Structural)]
enum MazeMapBuilderState {
    Idle,
    PuttingTile(usize, usize),
    PuttingHole(usize, usize),
}

/// A row with `rows` kept when the rows above it are empty and it is
/// empty too: empty rows at the top of a map are dropped.
pub open spec fn row_pushed(rows: Seq<Seq<Option<TileType>>>, cells: Seq<Option<TileType>>) -> Seq<
    Seq<Option<TileType>>,
> {
    if rows.len() > 0 || has_tile(cells) {
        rows.push(cells)
    } else {
        rows
    }
}

/// The rows without the empty rows at the bottom.
pub open spec fn trim_bottom(rows: Seq<Seq<Option<TileType>>>) -> Seq<Seq<Option<TileType>>>
    decreases rows.len(),
{
    if rows.len() > 0 && !has_tile(rows.last()) {
        trim_bottom(rows.drop_last())
    } else {
        rows
    }
}

/// Builds the rows of a maze, tile by tile and hole by hole.
pub struct MazeMapBuilder {
    map: Vec<MazeRow>,
    building_row: Option<MazeRow>,
    state: MazeMapBuilderState,
    rows: Ghost<Seq<Seq<Option<TileType>>>>,
    cells: Ghost<Seq<Option<TileType>>>,
}

/// The row being built reads as `cells`: the runs before column `s` are in
/// place, and the columns `s..e` are tiles at the end of `tiles` or a hole.
spec fn building_inv(
    tiles: Seq<TileType>,
    ranges: Seq<MazeRange>,
    s: int,
    e: int,
    cells: Seq<Option<TileType>>,
    putting_tile: bool,
) -> bool {
    &&& 0 <= s <= e
    &&& e == cells.len()
    &&& runs_wf(tiles, ranges)
    &&& forall|k: int| 0 <= k < ranges.len() ==> (#[trigger] ranges[k]).end <= s
    &&& forall|k: int|
        0 <= k < ranges.len() && (#[trigger] ranges[k]).start_ind is Some ==> ranges[k].start_ind.unwrap()
            + (ranges[k].end - ranges[k].start) <= tiles.len() - (if putting_tile {
            e - s
        } else {
            0
        })
    &&& putting_tile ==> e - s <= tiles.len()
    &&& putting_tile ==> forall|c: int|
        s <= c < e ==> #[trigger] cells[c] == Some(tiles[tiles.len() - (e - s) + (c - s)])
    &&& !putting_tile ==> forall|c: int| s <= c < e ==> (#[trigger] cells[c]) is None
    &&& !putting_tile ==> s < e
    &&& forall|c: int| 0 <= c < s ==> #[trigger] cells[c] == cell_from(tiles, ranges, 0, c)
    &&& (tiles.len() > 0 <==> has_tile(cells))
}

impl MazeMapBuilder {
    /// The rows built so far.
    pub closed spec fn rows_spec(&self) -> Seq<Seq<Option<TileType>>> {
        self.rows@
    }

    /// The cells of the row being built.
    pub closed spec fn cells_spec(&self) -> Seq<Option<TileType>> {
        self.cells@
    }

    /// Whether no row is being built.
    pub closed spec fn idle(&self) -> bool {
        self.state is Idle
    }

    pub closed spec fn wf(&self) -> bool {
        &&& self.map.len() == self.rows@.len()
        &&& forall|i: int|
            0 <= i < self.map.len() ==> (#[trigger] self.map@[i]).wf() && self.map@[i].cells_match(
                self.rows@[i],
            )
        &&& match self.state {
            MazeMapBuilderState::Idle => self.building_row is None && self.cells@.len() == 0,
            MazeMapBuilderState::PuttingTile(s, e) => match self.building_row {
                Some(row) => building_inv(row.tiles@, row.ranges@, s as int, e as int, self.cells@, true),
                None => false,
            },
            MazeMapBuilderState::PuttingHole(s, e) => match self.building_row {
                Some(row) => building_inv(row.tiles@, row.ranges@, s as int, e as int, self.cells@, false),
                None => false,
            },
        }
    }

    pub fn new() -> (res: Self)
        ensures
            res.wf(),
            res.idle(),
            res.rows_spec() == Seq::<Seq<Option<TileType>>>::empty(),
    {
        MazeMapBuilder {
            map: Vec::new(),
            building_row: None,
            state: MazeMapBuilderState::Idle,
            rows: Ghost(Seq::empty()),
            cells: Ghost(Seq::empty()),
        }
    }

    /// Ends the row being built, if any, and starts a new one.
    pub fn new_row(&mut self) -> (res: Result<(), Error>)
        requires
            old(self).wf(),
        ensures
            final(self).wf(),
            res is Ok,
            !final(self).idle(),
            final(self).cells_spec() == Seq::<Option<TileType>>::empty(),
            final(self).rows_spec() == (if old(self).idle() {
                old(self).rows_spec()
            } else {
                row_pushed(old(self).rows_spec(), old(self).cells_spec())
            }),
    {
        self.end_row();
        let row = MazeRow { tiles: Vec::new(), ranges: Vec::new() };
        self.building_row = Some(row);
        self.state = MazeMapBuilderState::PuttingTile(0, 0);
        self.cells = Ghost(Seq::empty());
        proof {
            assert(!has_tile(self.cells@));
        }
        Ok(())
    }

    /// Puts a tile at the next column of the row being built.
    pub fn put_tile(&mut self, tt: TileType) -> (res: Result<(), Error>)
        requires
            old(self).wf(),
            old(self).cells_spec().len() < usize::MAX,
        ensures
            final(self).wf(),
            old(self).idle() ==> *final(self) == *old(self) && match res {
                Err(Error::InvalidMapBuilderState(st, op)) => st@ == "Idle"@ && op@ == "put_tile"@,
                _ => false,
            },
            !old(self).idle() ==> res is Ok && !final(self).idle()
                && final(self).rows_spec() == old(self).rows_spec()
                && final(self).cells_spec() == old(self).cells_spec().push(Some(tt)),
    {
        match self.state {
            MazeMapBuilderState::PuttingTile(s, e) => {
                let ghost old_cells = self.cells@;
                let mut row = self.building_row.take().unwrap();
                let ghost old_tiles = row.tiles@;
                row.tiles.push(tt);
                self.building_row = Some(row);
                self.state = MazeMapBuilderState::PuttingTile(s, e + 1);
                self.cells = Ghost(old_cells.push(Some(tt)));
                proof {
                    let tiles = row.tiles@;
                    let ranges = row.ranges@;
                    assert forall|k: int| 0 <= k < ranges.len() implies ranges_in_bounds(tiles, #[trigger] ranges[k]) by {
                        assert(ranges_in_bounds(old_tiles, ranges[k]));
                    }
                    assert forall|c: int| 0 <= c < s implies #[trigger] self.cells@[c] == cell_from(tiles, ranges, 0, c) by {
                        lemma_cell_from_more_tiles(old_tiles, tt, ranges, 0, c);
                        assert(self.cells@[c] == old_cells[c]);
                    }
                    assert forall|c: int| s <= c < e + 1 implies #[trigger] self.cells@[c]
                        == Some(tiles[tiles.len() - (e + 1 - s) + (c - s)]) by {
                        if c < e {
                            assert(self.cells@[c] == old_cells[c]);
                            assert(tiles[tiles.len() - (e + 1 - s) + (c - s)]
                                == old_tiles[old_tiles.len() - (e - s) + (c - s)]);
                        }
                    }
                    assert(self.cells@[e as int] == Some(tt));
                    assert(has_tile(self.cells@));
                }
                Ok(())
            },
            MazeMapBuilderState::PuttingHole(s, e) => {
                let ghost old_cells = self.cells@;
                let mut row = self.building_row.take().unwrap();
                let ghost old_tiles = row.tiles@;
                let ghost old_ranges = row.ranges@;
                row.tiles.push(tt);
                let hole = MazeRange { start: s, end: e, start_ind: None };
                row.ranges.push(hole);
                self.building_row = Some(row);
                self.state = MazeMapBuilderState::PuttingTile(e, e + 1);
                self.cells = Ghost(old_cells.push(Some(tt)));
                proof {
                    let tiles = row.tiles@;
                    let ranges = row.ranges@;
                    assert(ranges == old_ranges.push(hole));
                    assert forall|k: int| 0 <= k < ranges.len() implies ranges_in_bounds(tiles, #[trigger] ranges[k]) by {
                        if k < old_ranges.len() {
                            assert(ranges_in_bounds(old_tiles, old_ranges[k]));
                        }
                    }
                    assert forall|i: int, j: int| 0 <= i < j < ranges.len() implies
                        (#[trigger] ranges[i]).end <= (#[trigger] ranges[j]).start by {
                        if j < old_ranges.len() {
                            assert(old_ranges[i].end <= old_ranges[j].start);
                        } else {
                            assert(old_ranges[i].end <= s);
                        }
                    }
                    assert forall|i: int, j: int|
                        0 <= i < j < ranges.len() && (#[trigger] ranges[i]).start_ind is Some
                            && (#[trigger] ranges[j]).start_ind is Some implies
                        ranges[i].start_ind.unwrap() + (ranges[i].end - ranges[i].start)
                            <= ranges[j].start_ind.unwrap() by {
                        assert(j < old_ranges.len());
                        assert(old_ranges[i] == ranges[i] && old_ranges[j] == ranges[j]);
                    }
                    assert forall|k: int| 0 <= k < ranges.len() implies (#[trigger] ranges[k]).end <= e by {
                        if k < old_ranges.len() {
                            assert(old_ranges[k].end <= s);
                        }
                    }
                    assert forall|k: int|
                        0 <= k < ranges.len() && (#[trigger] ranges[k]).start_ind is Some implies
                        ranges[k].start_ind.unwrap() + (ranges[k].end - ranges[k].start) <= tiles.len() - 1 by {
                        assert(k < old_ranges.len());
                        assert(old_ranges[k] == ranges[k]);
                    }
                    assert forall|c: int| 0 <= c < e implies #[trigger] self.cells@[c] == cell_from(tiles, ranges, 0, c) by {
                        lemma_cell_from_more_tiles(old_tiles, tt, old_ranges, 0, c);
                        assert(self.cells@[c] == old_cells[c]);
                        if c < s {
                            lemma_cell_from_push_other(tiles, old_ranges, hole, 0, c);
                        } else {
                            lemma_cell_from_push_new(tiles, old_ranges, hole, 0, c);
                        }
                    }
                    assert(self.cells@[e as int] == Some(tt));
                    assert(has_tile(self.cells@));
                }
                Ok(())
            },
            MazeMapBuilderState::Idle => {
                Err(Error::InvalidMapBuilderState("Idle".to_string(), "put_tile".to_string()))
            },
        }
    }

    /// Puts a hole at the next column of the row being built.
    pub fn put_hole(&mut self) -> (res: Result<(), Error>)
        requires
            old(self).wf(),
            old(self).cells_spec().len() < usize::MAX,
        ensures
            final(self).wf(),
            old(self).idle() ==> *final(self) == *old(self) && match res {
                Err(Error::InvalidMapBuilderState(st, op)) => st@ == "Idle"@ && op@ == "put_tile"@,
                _ => false,
            },
            !old(self).idle() ==> res is Ok && !final(self).idle()
                && final(self).rows_spec() == old(self).rows_spec()
                && final(self).cells_spec() == old(self).cells_spec().push(None),
    {
        match self.state {
            MazeMapBuilderState::PuttingTile(_s, e) => {
                self.end_tiles_range();
                let ghost old_cells = self.cells@;
                self.state = MazeMapBuilderState::PuttingHole(e, e + 1);
                self.cells = Ghost(old_cells.push(None));
                proof {
                    lemma_has_tile_push_none(old_cells);
                    let row = self.building_row.unwrap();
                    assert forall|c: int| 0 <= c < e implies #[trigger] self.cells@[c]
                        == cell_from(row.tiles@, row.ranges@, 0, c) by {
                        assert(self.cells@[c] == old_cells[c]);
                    }
                }
                Ok(())
            },
            MazeMapBuilderState::PuttingHole(s, e) => {
                let ghost old_cells = self.cells@;
                self.state = MazeMapBuilderState::PuttingHole(s, e + 1);
                self.cells = Ghost(old_cells.push(None));
                proof {
                    lemma_has_tile_push_none(old_cells);
                    let row = self.building_row.unwrap();
                    assert forall|c: int| 0 <= c < s implies #[trigger] self.cells@[c]
                        == cell_from(row.tiles@, row.ranges@, 0, c) by {
                        assert(self.cells@[c] == old_cells[c]);
                    }
                    assert forall|c: int| s <= c < e + 1 implies (#[trigger] self.cells@[c]) is None by {
                        if c < e {
                            assert(self.cells@[c] == old_cells[c]);
                        }
                    }
                }
                Ok(())
            },
            MazeMapBuilderState::Idle => {
                Err(Error::InvalidMapBuilderState("Idle".to_string(), "put_tile".to_string()))
            },
        }
    }

    /// Ends the rows: the row being built is kept, empty rows at the
    /// bottom are dropped.
    pub fn build(self) -> (res: Result<Vec<MazeRow>, Error>)
        requires
            self.wf(),
        ensures
            match res {
                Ok(map) => {
                    let rows = trim_bottom(
                        if self.idle() {
                            self.rows_spec()
                        } else {
                            row_pushed(self.rows_spec(), self.cells_spec())
                        },
                    );
                    &&& map.len() == rows.len()
                    &&& forall|i: int|
                        0 <= i < map.len() ==> (#[trigger] map@[i]).wf() && map@[i].cells_match(rows[i])
                },
                Err(_) => false,
            },
    {
        let mut this = self;
        if !(this.state == MazeMapBuilderState::Idle) {
            this.end_row();
        }
        let ghost rows = this.rows@;
        let mut n = this.map.len();
        assert(rows.take(n as int) =~= rows);
        while n > 0 && this.map[n - 1].is_empty()
            invariant
                n == this.map.len(),
                n <= rows.len(),
                forall|i: int|
                    0 <= i < n ==> (#[trigger] this.map@[i]).wf() && this.map@[i].cells_match(rows[i]),
                trim_bottom(rows.take(n as int)) == trim_bottom(rows),
            decreases n,
        {
            proof {
                assert(this.map@[n - 1].cells_match(rows[n - 1]));
                assert(rows.take(n as int).last() == rows[n - 1]);
                assert(rows.take(n as int).drop_last() =~= rows.take(n - 1));
            }
            this.map.pop();
            n = n - 1;
        }
        proof {
            if n > 0 {
                assert(this.map@[n - 1].cells_match(rows[n - 1]));
                assert(rows.take(n as int).last() == rows[n - 1]);
            }
        }
        Ok(this.map)
    }

    /// Ends the run of tiles being put, if it has any tile.
    fn end_tiles_range(&mut self)
        requires
            old(self).wf(),
            old(self).state is PuttingTile,
        ensures
            final(self).wf(),
            final(self).map == old(self).map,
            final(self).rows == old(self).rows,
            final(self).cells == old(self).cells,
            match old(self).state {
                MazeMapBuilderState::PuttingTile(_s, e) => final(self).state
                    == MazeMapBuilderState::PuttingTile(e, e),
                _ => false,
            },
    {
        if let MazeMapBuilderState::PuttingTile(s, e) = self.state {
            if s < e {
                let mut row = self.building_row.take().unwrap();
                let ghost old_ranges = row.ranges@;
                let start_ind = row.tiles.len() - (e - s);
                let run = MazeRange { start: s, end: e, start_ind: Some(start_ind) };
                row.ranges.push(run);
                self.building_row = Some(row);
                proof {
                    let tiles = row.tiles@;
                    let ranges = row.ranges@;
                    let cells = self.cells@;
                    assert(ranges == old_ranges.push(run));
                    assert forall|k: int| 0 <= k < ranges.len() implies ranges_in_bounds(tiles, #[trigger] ranges[k]) by {
                        if k < old_ranges.len() {
                            assert(ranges_in_bounds(tiles, old_ranges[k]));
                        }
                    }
                    assert forall|i: int, j: int| 0 <= i < j < ranges.len() implies
                        (#[trigger] ranges[i]).end <= (#[trigger] ranges[j]).start by {
                        if j < old_ranges.len() {
                            assert(old_ranges[i].end <= old_ranges[j].start);
                        } else {
                            assert(old_ranges[i].end <= s);
                        }
                    }
                    assert forall|i: int, j: int|
                        0 <= i < j < ranges.len() && (#[trigger] ranges[i]).start_ind is Some
                            && (#[trigger] ranges[j]).start_ind is Some implies
                        ranges[i].start_ind.unwrap() + (ranges[i].end - ranges[i].start)
                            <= ranges[j].start_ind.unwrap() by {
                        assert(old_ranges[i] == ranges[i]);
                        if j < old_ranges.len() {
                            assert(old_ranges[j] == ranges[j]);
                        }
                    }
                    assert forall|k: int| 0 <= k < ranges.len() implies (#[trigger] ranges[k]).end <= e by {
                        if k < old_ranges.len() {
                            assert(old_ranges[k].end <= s);
                        }
                    }
                    assert forall|k: int|
                        0 <= k < ranges.len() && (#[trigger] ranges[k]).start_ind is Some implies
                        ranges[k].start_ind.unwrap() + (ranges[k].end - ranges[k].start) <= tiles.len() by {
                        if k < old_ranges.len() {
                            assert(old_ranges[k] == ranges[k]);
                        }
                    }
                    assert forall|c: int| 0 <= c < e implies #[trigger] cells[c] == cell_from(tiles, ranges, 0, c) by {
                        if c < s {
                            lemma_cell_from_push_other(tiles, old_ranges, run, 0, c);
                        } else {
                            lemma_cell_from_push_new(tiles, old_ranges, run, 0, c);
                        }
                    }
                }
            }
            self.state = MazeMapBuilderState::PuttingTile(e, e);
        }
    }

    /// Ends the row being built, if any: it is kept unless it is empty and
    /// no row is kept yet.
    fn end_row(&mut self)
        requires
            old(self).wf(),
        ensures
            final(self).wf(),
            final(self).idle(),
            final(self).rows_spec() == (if old(self).idle() {
                old(self).rows_spec()
            } else {
                row_pushed(old(self).rows_spec(), old(self).cells_spec())
            }),
    {
        match self.state {
            MazeMapBuilderState::Idle => {},
            _ => {
                if let MazeMapBuilderState::PuttingTile(_, _) = self.state {
                    self.end_tiles_range();
                }
                let ghost cells = self.cells@;
                let ghost rows = self.rows@;
                let row = self.building_row.take().unwrap();
                proof {
                    match self.state {
                        MazeMapBuilderState::PuttingTile(s, e) => {
                            lemma_finished_row(row, s as int, e as int, cells, true);
                        },
                        MazeMapBuilderState::PuttingHole(s, e) => {
                            lemma_finished_row(row, s as int, e as int, cells, false);
                        },
                        _ => {},
                    }
                }
                if self.map.len() > 0 || !row.is_empty() {
                    self.map.push(row);
                    self.rows = Ghost(rows.push(cells));
                    proof {
                        assert forall|i: int| 0 <= i < self.map.len() implies (#[trigger] self.map@[i]).wf()
                            && self.map@[i].cells_match(self.rows@[i]) by {
                            if i < rows.len() {
                                assert(old(self).map@[i].wf());
                            }
                        }
                    }
                }
                self.state = MazeMapBuilderState::Idle;
                self.cells = Ghost(Seq::empty());
            },
        }
    }
} // impl MazeMapBuilder

proof fn lemma_has_tile_push_none(cells: Seq<Option<TileType>>)
    ensures
        has_tile(cells.push(None)) == has_tile(cells),
{
    if has_tile(cells) {
        let c = choose|c: int| 0 <= c < cells.len() && (#[trigger] cells[c]) is Some;
        assert(cells.push(None)[c] == cells[c]);
    }
    if has_tile(cells.push(None)) {
        let c = choose|c: int| 0 <= c < cells.len() + 1 && (#[trigger] cells.push(None)[c]) is Some;
        assert(cells.push(None)[c] == cells[c]);
    }
}

/// A row whose building has ended reads as its cells.
proof fn lemma_finished_row(row: MazeRow, s: int, e: int, cells: Seq<Option<TileType>>, putting_tile: bool)
    requires
        building_inv(row.tiles@, row.ranges@, s, e, cells, putting_tile),
        putting_tile ==> s == e,
    ensures
        row.wf(),
        row.cells_match(cells),
{
    let tiles = row.tiles@;
    let ranges = row.ranges@;
    if ranges.len() > 0 {
        assert forall|i: int| 0 <= i < ranges.len() implies (#[trigger] ranges[i]).end <= ranges[ranges.len() - 1].end by {
            if i < ranges.len() - 1 {
                assert(ranges[i].end <= ranges[ranges.len() - 1].start);
                assert(ranges_in_bounds(tiles, ranges[ranges.len() - 1]));
            }
        }
    }
    assert forall|c: int| 0 <= c < cells.len() implies #[trigger] row.tile_at(c) == cells[c] by {
        if tiles.len() == 0 {
            if cells[c] is Some {
                assert(has_tile(cells));
            }
        } else if ranges.len() == 0 {
            if c < s {
                assert(cells[c] == cell_from(tiles, ranges, 0, c));
            }
        } else if c >= ranges[ranges.len() - 1].end {
            lemma_cell_from_beyond(tiles, ranges, 0, c);
            if c < s {
                assert(cells[c] == cell_from(tiles, ranges, 0, c));
            }
        } else if c >= s {
            lemma_cell_from_beyond(tiles, ranges, 0, c);
        }
    }
    assert forall|c: int| c >= cells.len() implies (#[trigger] row.tile_at(c)) is None by {
        lemma_cell_from_beyond(tiles, ranges, 0, c);
    }
}

/// A place in the maze: the place on the map and the level of the maze.
#[derive(Debug, Clone, Copy, PartialEq, Eq, Hash, PartialOrd, Ord, Structural)]
pub struct MazePosition {
    pub pos_in_level: Position,
    pub level: usize,
}

/// The place one step from `p` in direction `d`, on the same level.
pub open spec fn maze_move_spec(p: MazePosition, d: Direction) -> Option<MazePosition> {
    match move_spec(p.pos_in_level, d) {
        Some(q) => Some(MazePosition { pos_in_level: q, level: p.level }),
        None => None,
    }
}

impl MazePosition {
    pub fn new(pos: &Position, level: usize) -> (res: Self)
        ensures
            res == (MazePosition { pos_in_level: *pos, level }),
    {
        MazePosition { pos_in_level: *pos, level }
    }

    pub fn pos_in_level(&self) -> (res: &Position)
        ensures
            *res == self.pos_in_level,
    {
        &self.pos_in_level
    }

    pub fn level(&self) -> (res: usize)
        ensures
            res == self.level,
    {
        self.level
    }

    pub fn move_along(&self, dir: Direction) -> (res: Option<Self>)
        requires
            can_move(self.pos_in_level, dir),
        ensures
            res == maze_move_spec(*self, dir),
    {
        match self.pos_in_level.move_along(dir) {
            Some(p) => Some(MazePosition { pos_in_level: p, level: self.level }),
            None => None,
        }
    }
}

/// The tile at place `p` of the rows `map`, if any.
pub open spec fn map_tile(map: Seq<MazeRow>, p: Position) -> Option<TileType> {
    if p.1 < map.len() {
        map[p.1 as int].tile_at(p.0 as int)
    } else {
        None
    }
}

/// Whether a tile is that gate `name` that warps to `warp`.
pub open spec fn is_named_gate(t: Option<TileType>, name: Seq<char>, warp: Option<Position>) -> bool {
    match t {
        Some(TileType::Gate(n, w)) => n@ == name && w == warp,
        _ => false,
    }
}

/// Whether a tile is a gate.
pub open spec fn is_gate_tile(t: Option<TileType>) -> bool {
    t matches Some(TileType::Gate(_, _))
}

/// Whether a tile can be walked on.
pub open spec fn is_pass_tile(t: Option<TileType>) -> bool {
    t matches Some(tt) && !(tt is Wall)
}

/// A maze as a walker sees it.
pub trait Maze {
    /// Whether the maze is as its constructor leaves it.
    spec fn inv(&self) -> bool;

    spec fn gate_spec(&self, pos: MazePosition) -> bool;

    spec fn pass_spec(&self, pos: MazePosition) -> bool;

    spec fn warp_spec(&self, pos: MazePosition) -> Option<MazePosition>;

    spec fn start_spec(&self) -> MazePosition;

    spec fn stop_spec(&self) -> MazePosition;

    fn is_gate(&self, pos: &MazePosition) -> (res: bool)
        requires
            self.inv(),
        ensures
            res == self.gate_spec(*pos),
    ;

    fn can_pass(&self, pos: &MazePosition) -> (res: bool)
        requires
            self.inv(),
        ensures
            res == self.pass_spec(*pos),
    ;

    fn warp_pos(&self, pos: &MazePosition) -> (res: Option<MazePosition>)
        requires
            self.inv(),
        ensures
            res == self.warp_spec(*pos),
    ;

    fn start_pos(&self) -> (res: &MazePosition)
        ensures
            *res == self.start_spec(),
    ;

    fn stop_pos(&self) -> (res: &MazePosition)
        ensures
            *res == self.stop_spec(),
    ;
}

/// A maze of one level: its rows, where the walk starts and where it stops.
#[derive(Debug)]
pub struct PlainMaze {
    map: Vec<MazeRow>,
    start_pos: MazePosition,
    stop_pos: MazePosition,
}

/// The text of the rows `0..r`: each row's text and a line break.
pub open spec fn rows_text(rows: Seq<MazeRow>, r: int) -> Seq<char>
    decreases r,
{
    if r <= 0 {
        Seq::empty()
    } else {
        rows_text(rows, r - 1) + rows[r - 1].text_spec().push('\n')
    }
}

impl PlainMaze {
    /// The rows of the maze.
    pub closed spec fn map_rows(&self) -> Seq<MazeRow> {
        self.map@
    }

    /// The maze as text: a line for each row.
    pub fn to_text(&self) -> (res: String)
        requires
            self.wf(),
        ensures
            res@ == rows_text(self.map_rows(), self.map_rows().len() as int),
    {
        let mut out: Vec<char> = Vec::new();
        let mut r: usize = 0;
        while r < self.map.len()
            invariant
                r <= self.map.len(),
                forall|i: int| 0 <= i < self.map@.len() ==> (#[trigger] self.map@[i]).wf(),
                out@ == rows_text(self.map@, r as int),
            decreases self.map.len() - r,
        {
            let row = self.map[r].to_text_chars();
            let mut i: usize = 0;
            let ghost before = out@;
            while i < row.len()
                invariant
                    i <= row.len(),
                    out@ == before + row@.take(i as int),
                decreases row.len() - i,
            {
                out.push(row[i]);
                i = i + 1;
                proof {
                    assert(out@ =~= before + row@.take(i as int));
                }
            }
            out.push('\n');
            r = r + 1;
            proof {
                assert(row@.take(row.len() as int) =~= row@);
                assert(out@ =~= rows_text(self.map@, r as int));
            }
        }
        crate::text::string_from_chars(&out)
    }

    /// The tile at place `p`, whatever the level.
    pub closed spec fn tile_spec(&self, p: Position) -> Option<TileType> {
        map_tile(self.map@, p)
    }

    /// The number of rows.
    pub closed spec fn height(&self) -> nat {
        self.map@.len()
    }

    pub closed spec fn rows_wf(&self) -> bool {
        forall|i: int| 0 <= i < self.map.len() ==> (#[trigger] self.map@[i]).wf()
    }

    pub closed spec fn wf(&self) -> bool {
        &&& self.map.len() > 0
        &&& self.rows_wf()
    }

    pub closed spec fn start_place(&self) -> MazePosition {
        self.start_pos
    }

    pub closed spec fn stop_place(&self) -> MazePosition {
        self.stop_pos
    }

    /// A maze of the rows `map`, where the empty tiles at `start_pos` and
    /// `stop_pos` become the start and the stop gates.
    pub fn new(
        map: Vec<MazeRow>,
        start_pos: &Position,
        start_name: &str,
        stop_pos: &Position,
        stop_name: &str,
    ) -> (res: Self)
        requires
            forall|i: int| 0 <= i < map.len() ==> (#[trigger] map@[i]).wf(),
            map_tile(map@, *start_pos) == Some(TileType::Empty),
            map_tile(map@, *stop_pos) == Some(TileType::Empty),
        ensures
            res.wf(),
            res.height() == map.len(),
            res.start_place() == (MazePosition { pos_in_level: *start_pos, level: 0 }),
            res.stop_place() == (MazePosition { pos_in_level: *stop_pos, level: 0 }),
            is_named_gate(res.tile_spec(*stop_pos), stop_name@, None),
            *start_pos != *stop_pos ==> is_named_gate(res.tile_spec(*start_pos), start_name@, None),
            forall|p: Position| p != *start_pos && p != *stop_pos ==> #[trigger] res.tile_spec(p)
                == map_tile(map@, p),
    {
        let start = MazePosition { pos_in_level: *start_pos, level: 0 };
        let stop = MazePosition { pos_in_level: *stop_pos, level: 0 };
        let mut maze = PlainMaze { map, start_pos: start, stop_pos: stop };
        let start_name_s = start_name.to_string();
        let stop_name_s = stop_name.to_string();
        maze.tile_mut(&start, TileType::Gate(start_name_s, None));
        maze.tile_mut(&stop, TileType::Gate(stop_name_s, None));
        maze
    }

    pub fn tile(&self, pos: &MazePosition) -> (res: Option<&TileType>)
        ensures
            match res {
                Some(t) => self.tile_spec(pos.pos_in_level) == Some(*t),
                None => self.tile_spec(pos.pos_in_level) is None,
            },
    {
        let p = pos.pos_in_level;
        if p.1 < self.map.len() {
            self.map[p.1].tile(p.0)
        } else {
            None
        }
    }

    /// Puts `tt` at `pos`, whatever the level; `false` where the maze has no
    /// tile there.
    pub fn tile_mut(&mut self, pos: &MazePosition, tt: TileType) -> (res: bool)
        requires
            old(self).rows_wf(),
        ensures
            final(self).rows_wf(),
            final(self).height() == old(self).height(),
            final(self).start_place() == old(self).start_place(),
            final(self).stop_place() == old(self).stop_place(),
            res == old(self).tile_spec(pos.pos_in_level) is Some,
            res ==> final(self).tile_spec(pos.pos_in_level) == Some(tt),
            forall|p: Position| p != pos.pos_in_level ==> #[trigger] final(self).tile_spec(p)
                == old(self).tile_spec(p),
    {
        let p = pos.pos_in_level;
        if p.1 < self.map.len() {
            let ghost old_map = self.map@;
            let res = self.map[p.1].tile_mut(p.0, tt);
            proof {
                assert forall|i: int| 0 <= i < self.map.len() implies (#[trigger] self.map@[i]).wf() by {
                    if i != p.1 {
                        assert(self.map@[i] == old_map[i]);
                    }
                }
                assert forall|q: Position| q != pos.pos_in_level implies #[trigger] self.tile_spec(q)
                    == old(self).tile_spec(q) by {
                    if q.1 != p.1 && q.1 < self.map.len() {
                        assert(self.map@[q.1 as int] == old_map[q.1 as int]);
                    }
                }
            }
            res
        } else {
            false
        }
    }
}

impl Maze for PlainMaze {
    open spec fn inv(&self) -> bool {
        self.wf()
    }

    open spec fn gate_spec(&self, pos: MazePosition) -> bool {
        is_gate_tile(self.tile_spec(pos.pos_in_level))
    }

    open spec fn pass_spec(&self, pos: MazePosition) -> bool {
        is_pass_tile(self.tile_spec(pos.pos_in_level))
    }

    open spec fn warp_spec(&self, pos: MazePosition) -> Option<MazePosition> {
        match self.tile_spec(pos.pos_in_level) {
            Some(TileType::Gate(_, Some(w))) => Some(MazePosition { pos_in_level: w, level: pos.level }),
            _ => None,
        }
    }

    open spec fn start_spec(&self) -> MazePosition {
        self.start_place()
    }

    open spec fn stop_spec(&self) -> MazePosition {
        self.stop_place()
    }

    fn is_gate(&self, pos: &MazePosition) -> (res: bool) {
        match self.tile(pos) {
            Some(TileType::Gate(_, _)) => true,
            _ => false,
        }
    }

    fn can_pass(&self, pos: &MazePosition) -> (res: bool) {
        match self.tile(pos) {
            Some(tt) => tt.can_pass(),
            None => false,
        }
    }

    fn warp_pos(&self, pos: &MazePosition) -> (res: Option<MazePosition>) {
        match self.tile(pos) {
            Some(TileType::Gate(_, Some(w))) => Some(MazePosition { pos_in_level: *w, level: pos.level }),
            _ => None,
        }
    }

    fn start_pos(&self) -> (res: &MazePosition) {
        &self.start_pos
    }

    fn stop_pos(&self) -> (res: &MazePosition) {
        &self.stop_pos
    }
}

/// The column where the first run of tiles from run `k` on starts.
spec fn first_tile_start(ranges: Seq<MazeRange>, k: int) -> Option<int>
    decreases ranges.len() - k,
{
    if k < 0 || k >= ranges.len() {
        None
    } else if ranges[k].start_ind is Some {
        Some(ranges[k].start as int)
    } else {
        first_tile_start(ranges, k + 1)
    }
}

/// Whether column `c` is next to a hole inside the row (not the first run).
spec fn at_hole_edge(ranges: Seq<MazeRange>, c: int) -> bool {
    exists|k: int|
        1 <= k < ranges.len() && (#[trigger] ranges[k]).start_ind is None && (c == ranges[k].start - 1
            || c == ranges[k].end)
}

/// Whether column `c` lies in a hole inside the row (not the first run).
spec fn in_hole(ranges: Seq<MazeRange>, c: int) -> bool {
    exists|k: int|
        1 <= k < ranges.len() && (#[trigger] ranges[k]).start_ind is None && ranges[k].start <= c
            < ranges[k].end
}

/// The same maze on every level: inner gates lead one level down, outer
/// gates one level up; on the top level the outer gates are walls, and
/// below it the start and stop gates are.
#[derive(Debug)]
pub struct RecursiveMaze {
    maze: PlainMaze,
}

impl RecursiveMaze {
    pub closed spec fn plain(&self) -> PlainMaze {
        self.maze
    }

    /// Whether `pos` is at the outer edge of the maze: the top or bottom row,
    /// or the first tile or the last column of its row.
    pub closed spec fn outer_spec(&self, pos: MazePosition) -> bool {
        let p = pos.pos_in_level;
        let n = self.maze.map.len();
        ||| p.1 == 0
        ||| p.1 == n - 1
        ||| p.1 < n && ({
            let ranges = self.maze.map@[p.1 as int].ranges@;
            ||| first_tile_start(ranges, 0) == Some(p.0 as int)
            ||| ranges.len() > 0 && ranges[ranges.len() - 1].end - 1 == p.0
        })
    }

    /// Whether `pos` is at the inner edge of the maze: next to the hole in
    /// its row, or above or below it.
    pub closed spec fn inner_spec(&self, pos: MazePosition) -> bool {
        let p = pos.pos_in_level;
        let n = self.maze.map.len();
        &&& p.1 != 0
        &&& p.1 != n - 1
        &&& {
            ||| p.1 < n && at_hole_edge(self.maze.map@[p.1 as int].ranges@, p.0 as int)
            ||| p.1 - 1 < n && in_hole(self.maze.map@[p.1 - 1].ranges@, p.0 as int)
            ||| p.1 + 1 < n && in_hole(self.maze.map@[p.1 + 1].ranges@, p.0 as int)
        }
    }

    pub fn new(maze: PlainMaze) -> (res: Self)
        ensures
            res.plain() == maze,
    {
        RecursiveMaze { maze }
    }

    fn first_tile_start_of(ranges: &Vec<MazeRange>) -> (res: Option<usize>)
        ensures
            match res {
                Some(v) => first_tile_start(ranges@, 0) == Some(v as int),
                None => first_tile_start(ranges@, 0) is None,
            },
    {
        let mut k: usize = 0;
        while k < ranges.len()
            invariant
                k <= ranges.len(),
                first_tile_start(ranges@, k as int) == first_tile_start(ranges@, 0),
            decreases ranges.len() - k,
        {
            if ranges[k].start_ind.is_some() {
                return Some(ranges[k].start);
            }
            k = k + 1;
        }
        None
    }

    fn hole_edge_of(ranges: &Vec<MazeRange>, c: usize) -> (res: bool)
        requires
            runs_wf_ranges(ranges@),
        ensures
            res == at_hole_edge(ranges@, c as int),
    {
        let mut k: usize = 1;
        while k < ranges.len()
            invariant
                1 <= k,
                runs_wf_ranges(ranges@),
                forall|j: int|
                    1 <= j < k && j < ranges.len() ==> !((#[trigger] ranges@[j]).start_ind is None && (c
                        == ranges@[j].start - 1 || c == ranges@[j].end)),
            decreases ranges.len() - k,
        {
            let r = ranges[k];
            proof {
                assert(ranges@[0].end <= ranges@[k as int].start);
            }
            if r.start_ind.is_none() && (c == r.start - 1 || c == r.end) {
                return true;
            }
            k = k + 1;
        }
        false
    }

    fn in_hole_of(ranges: &Vec<MazeRange>, c: usize) -> (res: bool)
        ensures
            res == in_hole(ranges@, c as int),
    {
        let mut k: usize = 1;
        while k < ranges.len()
            invariant
                1 <= k,
                forall|j: int|
                    1 <= j < k && j < ranges.len() ==> !((#[trigger] ranges@[j]).start_ind is None
                        && ranges@[j].start <= c < ranges@[j].end),
            decreases ranges.len() - k,
        {
            let r = ranges[k];
            if r.start_ind.is_none() && r.start <= c && c < r.end {
                return true;
            }
            k = k + 1;
        }
        false
    }

    fn is_at_outer_bound(&self, pos: &MazePosition) -> (res: bool)
        requires
            self.maze.wf(),
        ensures
            res == self.outer_spec(*pos),
    {
        let p = pos.pos_in_level;
        let n = self.maze.map.len();
        if p.1 == 0 || p.1 == n - 1 {
            return true;
        }
        if p.1 < n {
            let ranges = &self.maze.map[p.1].ranges;
            let first = Self::first_tile_start_of(ranges);
            if first == Some(p.0) {
                return true;
            }
            let m = ranges.len();
            if m > 0 {
                proof {
                    assert(self.maze.map@[p.1 as int].wf());
                    assert(ranges_in_bounds(self.maze.map@[p.1 as int].tiles@, ranges@[m - 1]));
                }
                return ranges[m - 1].end - 1 == p.0;
            }
        }
        false
    }

    fn is_at_inner_bound(&self, pos: &MazePosition) -> (res: bool)
        requires
            self.maze.wf(),
        ensures
            res == self.inner_spec(*pos),
    {
        let p = pos.pos_in_level;
        let n = self.maze.map.len();
        if p.1 == 0 || p.1 == n - 1 {
            return false;
        }
        if p.1 < n {
            proof {
                lemma_row_runs_wf(self.maze.map@[p.1 as int]);
            }
            if Self::hole_edge_of(&self.maze.map[p.1].ranges, p.0) {
                return true;
            }
        }
        if p.1 - 1 < n && Self::in_hole_of(&self.maze.map[p.1 - 1].ranges, p.0) {
            return true;
        }
        if p.1 < n - 1 && Self::in_hole_of(&self.maze.map[p.1 + 1].ranges, p.0) {
            return true;
        }
        false
    }
}

/// The runs are ordered and not empty.
spec fn runs_wf_ranges(ranges: Seq<MazeRange>) -> bool {
    &&& forall|i: int| 0 <= i < ranges.len() ==> (#[trigger] ranges[i]).start < ranges[i].end
    &&& forall|i: int, j: int| 0 <= i < j < ranges.len() ==> (#[trigger] ranges[i]).end <= (#[trigger] ranges[j]).start
}

proof fn lemma_row_runs_wf(row: MazeRow)
    requires
        row.wf(),
    ensures
        runs_wf_ranges(row.ranges@),
{
    assert forall|i: int| 0 <= i < row.ranges@.len() implies (#[trigger] row.ranges@[i]).start < row.ranges@[i].end by {
        assert(ranges_in_bounds(row.tiles@, row.ranges@[i]));
    }
}

impl Maze for RecursiveMaze {
    open spec fn inv(&self) -> bool {
        self.plain().wf()
    }

    open spec fn gate_spec(&self, pos: MazePosition) -> bool {
        let m = self.plain();
        if pos.level == 0 {
            ||| m.start_place() == pos
            ||| m.stop_place() == pos
            ||| self.inner_spec(pos) && m.gate_spec(pos)
        } else {
            &&& m.gate_spec(pos)
            &&& pos.pos_in_level != m.start_place().pos_in_level
            &&& pos.pos_in_level != m.stop_place().pos_in_level
        }
    }

    open spec fn pass_spec(&self, pos: MazePosition) -> bool {
        let m = self.plain();
        if pos.level == 0 {
            &&& m.pass_spec(pos)
            &&& !(pos != m.start_place() && pos != m.stop_place() && m.gate_spec(pos) && self.outer_spec(pos))
        } else {
            &&& m.pass_spec(pos)
            &&& pos.pos_in_level != m.start_place().pos_in_level
            &&& pos.pos_in_level != m.stop_place().pos_in_level
        }
    }

    /// Where a gate warps to: from the inner bound one level down, from the
    /// outer bound one level up (nowhere on level 0); a gate on neither
    /// bound, or on the inner bound of the deepest level, warps nowhere.
    open spec fn warp_spec(&self, pos: MazePosition) -> Option<MazePosition> {
        match self.plain().warp_spec(pos) {
            Some(w) => if pos.level == 0 {
                if self.inner_spec(pos) {
                    Some(MazePosition { pos_in_level: w.pos_in_level, level: 1 })
                } else {
                    None
                }
            } else if self.outer_spec(pos) {
                Some(MazePosition { pos_in_level: w.pos_in_level, level: (pos.level - 1) as usize })
            } else if self.inner_spec(pos) && pos.level < usize::MAX {
                Some(MazePosition { pos_in_level: w.pos_in_level, level: (pos.level + 1) as usize })
            } else {
                None
            },
            None => None,
        }
    }

    open spec fn start_spec(&self) -> MazePosition {
        self.plain().start_place()
    }

    open spec fn stop_spec(&self) -> MazePosition {
        self.plain().stop_place()
    }

    fn is_gate(&self, pos: &MazePosition) -> (res: bool) {
        if pos.level == 0 {
            *self.maze.start_pos() == *pos || *self.maze.stop_pos() == *pos || (
            self.is_at_inner_bound(pos) && self.maze.is_gate(pos))
        } else {
            self.maze.is_gate(pos) && pos.pos_in_level != self.maze.start_pos.pos_in_level
                && pos.pos_in_level != self.maze.stop_pos.pos_in_level
        }
    }

    fn can_pass(&self, pos: &MazePosition) -> (res: bool) {
        if pos.level == 0 {
            let is_outer_warp_gate = *pos != self.maze.start_pos && *pos != self.maze.stop_pos
                && self.maze.is_gate(pos) && self.is_at_outer_bound(pos);
            self.maze.can_pass(pos) && !is_outer_warp_gate
        } else {
            self.maze.can_pass(pos) && pos.pos_in_level != self.maze.start_pos.pos_in_level
                && pos.pos_in_level != self.maze.stop_pos.pos_in_level
        }
    }

    fn warp_pos(&self, pos: &MazePosition) -> (res: Option<MazePosition>) {
        match self.maze.warp_pos(pos) {
            Some(w) => {
                if pos.level == 0 {
                    if self.is_at_inner_bound(pos) {
                        Some(MazePosition { pos_in_level: w.pos_in_level, level: 1 })
                    } else {
                        None
                    }
                } else if self.is_at_outer_bound(pos) {
                    Some(MazePosition { pos_in_level: w.pos_in_level, level: pos.level - 1 })
                } else if self.is_at_inner_bound(pos) && pos.level < usize::MAX {
                    Some(MazePosition { pos_in_level: w.pos_in_level, level: pos.level + 1 })
                } else {
                    None
                }
            },
            None => None,
        }
    }

    fn start_pos(&self) -> (res: &MazePosition) {
        self.maze.start_pos()
    }

    fn stop_pos(&self) -> (res: &MazePosition) {
        self.maze.stop_pos()
    }
}

/// The character at place `p` of the input rows, if there is one.
pub open spec fn grid_char(rows: Seq<Vec<char>>, p: Position) -> Option<char> {
    if p.1 < rows.len() && p.0 < rows[p.1 as int]@.len() {
        Some(rows[p.1 as int]@[p.0 as int])
    } else {
        None
    }
}

/// The letters from column `x` of row `y` eastwards, up to the first
/// character that is not a letter.
pub open spec fn run_east(rows: Seq<Vec<char>>, x: int, y: int) -> Seq<char>
    decreases (if 0 <= y < rows.len() { rows[y]@.len() - x } else { 0 }),
{
    if 0 <= y < rows.len() && 0 <= x < rows[y]@.len() && alphabetic(rows[y]@[x]) {
        seq![rows[y]@[x]] + run_east(rows, x + 1, y)
    } else {
        Seq::empty()
    }
}

/// The letters from row `y` of column `x` southwards, up to the first
/// character that is not a letter.
pub open spec fn run_south(rows: Seq<Vec<char>>, x: int, y: int) -> Seq<char>
    decreases rows.len() - y,
{
    if 0 <= y < rows.len() && 0 <= x < rows[y]@.len() && alphabetic(rows[y]@[x]) {
        seq![rows[y]@[x]] + run_south(rows, x, y + 1)
    } else {
        Seq::empty()
    }
}

/// Whether the name of a gate may go on in direction `d` from `p`: the
/// next character is a letter or a `.`.
pub open spec fn name_extends(rows: Seq<Vec<char>>, p: Position, d: Direction) -> bool {
    match move_spec(p, d) {
        Some(q) => match grid_char(rows, q) {
            Some(ch) => alphabetic(ch) || ch == '.',
            None => false,
        },
        None => false,
    }
}

/// The direction in which the name that starts at `p` is written.
pub open spec fn name_dir(rows: Seq<Vec<char>>, p: Position) -> Option<Direction> {
    if name_extends(rows, p, Direction::East) {
        Some(Direction::East)
    } else if name_extends(rows, p, Direction::South) {
        Some(Direction::South)
    } else {
        None
    }
}

/// The name of that gate whose name starts at `p`.
pub open spec fn gate_name(rows: Seq<Vec<char>>, p: Position) -> Seq<char> {
    match name_dir(rows, p) {
        Some(Direction::East) => run_east(rows, p.0 as int, p.1 as int),
        Some(_) => run_south(rows, p.0 as int, p.1 as int),
        None => Seq::empty(),
    }
}

/// The place just after the name that starts at `p`.
pub open spec fn name_end(rows: Seq<Vec<char>>, p: Position) -> Position {
    let n = gate_name(rows, p).len();
    match name_dir(rows, p) {
        Some(Direction::East) => Position((p.0 + n) as usize, p.1),
        Some(_) => Position(p.0, (p.1 + n) as usize),
        None => p,
    }
}

/// The places of the letters of the name that starts at `p`.
pub open spec fn name_places(rows: Seq<Vec<char>>, p: Position) -> Seq<Position> {
    let n = gate_name(rows, p).len();
    match name_dir(rows, p) {
        Some(Direction::East) => Seq::new(n, |i: int| Position((p.0 + i) as usize, p.1)),
        Some(_) => Seq::new(n, |i: int| Position(p.0, (p.1 + i) as usize)),
        None => Seq::empty(),
    }
}

/// Where that gate whose name starts at `p` stands: the first `.` above
/// the name, left of it, or just after it.
pub open spec fn gate_place(rows: Seq<Vec<char>>, p: Position) -> Option<Position> {
    let north = Position(p.0, (p.1 - 1) as usize);
    let west = Position((p.0 - 1) as usize, p.1);
    let end = name_end(rows, p);
    if p.1 > 0 && grid_char(rows, north) == Some('.') {
        Some(north)
    } else if p.0 > 0 && grid_char(rows, west) == Some('.') {
        Some(west)
    } else if grid_char(rows, end) == Some('.') {
        Some(end)
    } else {
        None
    }
}

proof fn lemma_run_east_len(rows: Seq<Vec<char>>, x: int, y: int)
    requires
        0 <= y < rows.len(),
        0 <= x <= rows[y]@.len(),
    ensures
        x + run_east(rows, x, y).len() <= rows[y]@.len(),
        forall|i: int| 0 <= i < run_east(rows, x, y).len() ==> run_east(rows, x, y)[i] == rows[y]@[x + i]
            && alphabetic(#[trigger] run_east(rows, x, y)[i]),
    decreases rows[y]@.len() - x,
{
    if x < rows[y]@.len() && alphabetic(rows[y]@[x]) {
        lemma_run_east_len(rows, x + 1, y);
        let r = run_east(rows, x + 1, y);
        assert forall|i: int| 0 <= i < run_east(rows, x, y).len() implies run_east(rows, x, y)[i]
            == rows[y]@[x + i] && alphabetic(#[trigger] run_east(rows, x, y)[i]) by {
            if i > 0 {
                assert(run_east(rows, x, y)[i] == r[i - 1]);
            }
        }
    }
}

proof fn lemma_run_south_len(rows: Seq<Vec<char>>, x: int, y: int)
    requires
        0 <= y <= rows.len(),
        0 <= x,
    ensures
        y + run_south(rows, x, y).len() <= rows.len(),
    decreases rows.len() - y,
{
    if y < rows.len() && x < rows[y]@.len() && alphabetic(rows[y]@[x]) {
        lemma_run_south_len(rows, x, y + 1);
    }
}

/// The character at `p`, if any.
fn char_at(rows: &Vec<Vec<char>>, p: Position) -> (res: Option<char>)
    ensures
        res == grid_char(rows@, p),
{
    if p.1 < rows.len() && p.0 < rows[p.1].len() {
        Some(rows[p.1][p.0])
    } else {
        None
    }
}

/// That gate whose name starts with the letter at `pos`: its name and the
/// place where it stands.  The places of the letters of the name are added
/// to `visited_name_pos`.
pub fn find_gate(
    map_char_rows: &Vec<Vec<char>>,
    pos: &Position,
    visited_name_pos: &mut Vec<Position>,
) -> (res: Result<(String, Position), Error>)
    requires
        grid_char(map_char_rows@, *pos) matches Some(ch) && alphabetic(ch),
    ensures
        final(visited_name_pos)@ == old(visited_name_pos)@ + name_places(map_char_rows@, *pos),
        match res {
            Ok((name, p)) => name@ == gate_name(map_char_rows@, *pos) && gate_place(map_char_rows@, *pos)
                == Some(p),
            Err(Error::NoPositionForGate(name, p)) => name@ == gate_name(map_char_rows@, *pos) && p == *pos
                && gate_place(map_char_rows@, *pos) is None,
            Err(_) => false,
        },
{
    let ghost rows = map_char_rows@;
    let x = pos.0;
    let y = pos.1;
    let mut name: Vec<char> = Vec::new();
    let mut cur: Position = *pos;
    let ghost old_visited = visited_name_pos@;
    let row_len = map_char_rows[y].len();
    let n_rows = map_char_rows.len();
    assert(x < row_len && y < n_rows);
    let east = Position(x + 1, y);
    let south = Position(x, y + 1);
    let east_ok = match char_at(map_char_rows, east) {
        Some(ch) => is_alphabetic(ch) || ch == '.',
        None => false,
    };
    let south_ok = if east_ok {
        false
    } else {
        match char_at(map_char_rows, south) {
            Some(ch) => is_alphabetic(ch) || ch == '.',
            None => false,
        }
    };
    if east_ok {
        proof {
            lemma_run_east_len(rows, x as int, y as int);
        }
        while cur.0 < map_char_rows[y].len() && is_alphabetic(map_char_rows[y][cur.0])
            invariant
                rows == map_char_rows@,
                y < rows.len(),
                cur.1 == y,
                x <= cur.0 <= rows[y as int]@.len(),
                cur.0 - x == name@.len(),
                name@ + run_east(rows, cur.0 as int, y as int) == run_east(rows, x as int, y as int),
                visited_name_pos@ == old_visited + Seq::new(
                    name@.len(),
                    |i: int| Position((x + i) as usize, y),
                ),
            decreases rows[y as int]@.len() - cur.0,
        {
            let ghost before = visited_name_pos@;
            visited_name_pos.push(cur);
            let ch = map_char_rows[y][cur.0];
            let ghost rest = run_east(rows, cur.0 + 1, y as int);
            name.push(ch);
            cur = Position(cur.0 + 1, y);
            proof {
                assert(name@ + rest =~= (name@.drop_last() + seq![ch]) + rest);
                assert(visited_name_pos@ =~= old_visited + Seq::new(
                    name@.len(),
                    |i: int| Position((x + i) as usize, y),
                ));
            }
        }
        proof {
            assert(name@ =~= run_east(rows, x as int, y as int));
        }
    } else if south_ok {
        proof {
            lemma_run_south_len(rows, x as int, y as int);
        }
        while cur.1 < map_char_rows.len() && x < map_char_rows[cur.1].len() && is_alphabetic(map_char_rows[cur.1][x])
            invariant
                rows == map_char_rows@,
                cur.0 == x,
                y <= cur.1 <= rows.len(),
                cur.1 - y == name@.len(),
                name@ + run_south(rows, x as int, cur.1 as int) == run_south(rows, x as int, y as int),
                visited_name_pos@ == old_visited + Seq::new(
                    name@.len(),
                    |i: int| Position(x, (y + i) as usize),
                ),
            decreases rows.len() - cur.1,
        {
            visited_name_pos.push(cur);
            let ch = map_char_rows[cur.1][x];
            let ghost rest = run_south(rows, x as int, cur.1 + 1);
            name.push(ch);
            cur = Position(x, cur.1 + 1);
            proof {
                assert(name@ + rest =~= (name@.drop_last() + seq![ch]) + rest);
                assert(visited_name_pos@ =~= old_visited + Seq::new(
                    name@.len(),
                    |i: int| Position(x, (y + i) as usize),
                ));
            }
        }
        proof {
            assert(name@ =~= run_south(rows, x as int, y as int));
        }
    } else {
        proof {
            assert(visited_name_pos@ =~= old_visited + name_places(rows, *pos));
        }
    }
    proof {
        assert(name@ == gate_name(rows, *pos));
        assert(cur == name_end(rows, *pos));
        assert(visited_name_pos@ =~= old_visited + name_places(rows, *pos));
    }
    let name_s = string_from_chars(&name);
    if y > 0 {
        let north = Position(x, y - 1);
        if char_at(map_char_rows, north) == Some('.') {
            return Ok((name_s, north));
        }
    }
    if x > 0 {
        let west = Position(x - 1, y);
        if char_at(map_char_rows, west) == Some('.') {
            return Ok((name_s, west));
        }
    }
    if char_at(map_char_rows, cur) == Some('.') {
        return Ok((name_s, cur));
    }
    Err(Error::NoPositionForGate(name_s, *pos))
}

/// The cell that a character of the input stands for.
pub open spec fn char_cell(ch: char) -> Option<TileType> {
    if ch == '#' {
        Some(TileType::Wall)
    } else if ch == '.' {
        Some(TileType::Empty)
    } else {
        None
    }
}

/// Whether a character of the input is a tile: a wall or an open place.
pub open spec fn is_tile_char(ch: char) -> bool {
    ch == '#' || ch == '.'
}

/// Whether a character may stand in the input of a maze.
pub open spec fn valid_map_char(ch: char) -> bool {
    is_tile_char(ch) || ch == ' ' || alphabetic(ch)
}

/// The cells of a line of the input.
pub open spec fn line_cells(line: Seq<char>) -> Seq<Option<TileType>> {
    Seq::new(line.len(), |i: int| char_cell(line[i]))
}

/// Whether a line of the input holds a tile.
pub open spec fn line_has_tile(line: Seq<char>) -> bool {
    exists|c: int| 0 <= c < line.len() && is_tile_char(#[trigger] line[c])
}

/// The first line from `k` on that holds a tile (the number of lines if
/// none does): the top row of the maze.
pub open spec fn first_tile_row(rows: Seq<Vec<char>>, k: int) -> int
    decreases rows.len() - k,
{
    if k < 0 || k >= rows.len() {
        rows.len() as int
    } else if line_has_tile(rows[k]@) {
        k
    } else {
        first_tile_row(rows, k + 1)
    }
}

/// The rows that a builder keeps from the first `k` lines.
pub open spec fn kept_rows(rows: Seq<Vec<char>>, k: int) -> Seq<Seq<Option<TileType>>>
    decreases k,
{
    if k <= 0 {
        Seq::empty()
    } else {
        row_pushed(kept_rows(rows, k - 1), line_cells(rows[k - 1]@))
    }
}

proof fn lemma_line_has_tile(line: Seq<char>)
    ensures
        has_tile(line_cells(line)) == line_has_tile(line),
{
    let cells = line_cells(line);
    if has_tile(cells) {
        let c = choose|c: int| 0 <= c < cells.len() && (#[trigger] cells[c]) is Some;
        assert(is_tile_char(line[c]));
    }
    if line_has_tile(line) {
        let c = choose|c: int| 0 <= c < line.len() && is_tile_char(#[trigger] line[c]);
        assert(cells[c] is Some);
    }
}

proof fn lemma_first_tile_row(rows: Seq<Vec<char>>, k: int)
    requires
        0 <= k <= rows.len(),
    ensures
        k <= first_tile_row(rows, k) <= rows.len(),
        forall|i: int| k <= i < first_tile_row(rows, k) ==> !line_has_tile(#[trigger] rows[i]@),
        first_tile_row(rows, k) < rows.len() ==> line_has_tile(rows[first_tile_row(rows, k)]@),
    decreases rows.len() - k,
{
    if k < rows.len() && !line_has_tile(rows[k]@) {
        lemma_first_tile_row(rows, k + 1);
    }
}

proof fn lemma_kept_rows(rows: Seq<Vec<char>>, k: int)
    requires
        0 <= k <= rows.len(),
    ensures
        ({
            let off = first_tile_row(rows, 0);
            &&& k <= off ==> kept_rows(rows, k).len() == 0
            &&& k > off ==> kept_rows(rows, k).len() == k - off
            &&& forall|i: int| 0 <= i < k - off ==> #[trigger] kept_rows(rows, k)[i] == line_cells(rows[off + i]@)
        }),
    decreases k,
{
    lemma_first_tile_row(rows, 0);
    let off = first_tile_row(rows, 0);
    if k > 0 {
        lemma_kept_rows(rows, k - 1);
        lemma_line_has_tile(rows[k - 1]@);
        let prev = kept_rows(rows, k - 1);
        if k - 1 < off {
            assert(!line_has_tile(rows[k - 1]@));
        } else if k - 1 == off {
            assert(line_has_tile(rows[off]@));
            assert(kept_rows(rows, k) == prev.push(line_cells(rows[k - 1]@)));
        } else {
            assert(kept_rows(rows, k) == prev.push(line_cells(rows[k - 1]@)));
            assert forall|i: int| 0 <= i < k - off implies #[trigger] kept_rows(rows, k)[i] == line_cells(rows[off + i]@) by {
                if i < k - 1 - off {
                    assert(kept_rows(rows, k)[i] == prev[i]);
                }
            }
        }
    }
}

proof fn lemma_trim_bottom(rows: Seq<Seq<Option<TileType>>>)
    ensures
        trim_bottom(rows).len() <= rows.len(),
        forall|i: int| 0 <= i < trim_bottom(rows).len() ==> #[trigger] trim_bottom(rows)[i] == rows[i],
        forall|i: int| 0 <= i < rows.len() && has_tile(#[trigger] rows[i]) ==> i < trim_bottom(rows).len(),
    decreases rows.len(),
{
    if rows.len() > 0 && !has_tile(rows.last()) {
        lemma_trim_bottom(rows.drop_last());
        assert forall|i: int| 0 <= i < rows.len() && has_tile(#[trigger] rows[i]) implies i < trim_bottom(rows).len() by {
            assert(i < rows.len() - 1);
            assert(rows.drop_last()[i] == rows[i]);
        }
    }
}

/// The place of that gate named `name` among `gates`, if it is there.
fn find_name(gates: &Vec<(String, Position)>, name: &str) -> (res: Option<usize>)
    ensures
        match res {
            Some(i) => i < gates.len() && gates@[i as int].0@ == name@,
            None => forall|i: int| 0 <= i < gates.len() ==> (#[trigger] gates@[i]).0@ != name@,
        },
{
    let mut i: usize = 0;
    while i < gates.len()
        invariant
            i <= gates.len(),
            forall|j: int| 0 <= j < i ==> (#[trigger] gates@[j]).0@ != name@,
        decreases gates.len() - i,
    {
        if str_eq(gates[i].0.as_str(), name) {
            return Some(i);
        }
        i = i + 1;
    }
    None
}

/// The place of the pair of gates named `name` among `pairs`, if it is there.
fn find_name_pair(pairs: &Vec<(String, (Position, Position))>, name: &str) -> (res: Option<usize>)
    ensures
        match res {
            Some(i) => i < pairs.len() && pairs@[i as int].0@ == name@,
            None => forall|i: int| 0 <= i < pairs.len() ==> (#[trigger] pairs@[i]).0@ != name@,
        },
{
    let mut i: usize = 0;
    while i < pairs.len()
        invariant
            i <= pairs.len(),
            forall|j: int| 0 <= j < i ==> (#[trigger] pairs@[j]).0@ != name@,
        decreases pairs.len() - i,
    {
        if str_eq(pairs[i].0.as_str(), name) {
            return Some(i);
        }
        i = i + 1;
    }
    None
}

/// A `.` of the input is an empty tile of the built map.
proof fn lemma_dot_in_map(rows: Seq<Vec<char>>, map: Seq<MazeRow>, p: Position)
    requires
        grid_char(rows, p) == Some('.'),
        map.len() == trim_bottom(kept_rows(rows, rows.len() as int)).len(),
        forall|i: int| 0 <= i < map.len() ==> (#[trigger] map[i]).cells_match(trim_bottom(kept_rows(rows, rows.len() as int))[i]),
    ensures
        first_tile_row(rows, 0) <= p.1,
        map_tile(map, Position(p.0, (p.1 - first_tile_row(rows, 0)) as usize)) == Some(TileType::Empty),
{
    let off = first_tile_row(rows, 0);
    let kept = kept_rows(rows, rows.len() as int);
    lemma_first_tile_row(rows, 0);
    lemma_kept_rows(rows, rows.len() as int);
    lemma_trim_bottom(kept);
    assert(is_tile_char(rows[p.1 as int]@[p.0 as int]));
    assert(line_has_tile(rows[p.1 as int]@));
    let i = p.1 - off;
    assert(kept[i] == line_cells(rows[off + i]@));
    lemma_line_has_tile(rows[p.1 as int]@);
    assert(has_tile(kept[i]));
    assert(map[i].cells_match(kept[i]));
    assert(map[i].tile_at(p.0 as int) == line_cells(rows[p.1 as int]@)[p.0 as int]);
}

/// A cell of the built map is the cell of the input character it comes
/// from.
proof fn lemma_map_cell(rows: Seq<Vec<char>>, map: Seq<MazeRow>, r: int, c: int)
    requires
        first_tile_row(rows, 0) <= r < rows.len(),
        0 <= c < rows[r]@.len(),
        rows.len() <= usize::MAX,
        map.len() == trim_bottom(kept_rows(rows, rows.len() as int)).len(),
        forall|i: int| 0 <= i < map.len() ==> (#[trigger] map[i]).cells_match(trim_bottom(kept_rows(rows, rows.len() as int))[i]),
    ensures
        map_tile(map, Position(c as usize, (r - first_tile_row(rows, 0)) as usize)) == char_cell(rows[r]@[c]),
{
    let off = first_tile_row(rows, 0);
    let kept = kept_rows(rows, rows.len() as int);
    let trimmed = trim_bottom(kept);
    lemma_first_tile_row(rows, 0);
    lemma_kept_rows(rows, rows.len() as int);
    lemma_trim_bottom(kept);
    let i = r - off;
    assert(rows[r]@.len() == rows[r].len());
    assert(off + i == r);
    assert(kept[i] == line_cells(rows[r]@));
    assert(Position(c as usize, i as usize).1 == i && Position(c as usize, i as usize).0 == c);
    if i < map.len() {
        assert(trimmed[i] == kept[i]);
        assert(map[i].cells_match(trimmed[i]));
        assert(map[i].tile_at(c) == trimmed[i][c]);
    } else if is_tile_char(rows[r]@[c]) {
        assert(line_has_tile(rows[r]@));
        lemma_line_has_tile(rows[r]@);
        assert(has_tile(kept[i]));
        assert(false);
    }
}

/// Whether `p` is among `places`.
fn contains_pos(places: &Vec<Position>, p: &Position) -> (res: bool)
    ensures
        res == places@.contains(*p),
{
    let mut i: usize = 0;
    while i < places.len()
        invariant
            i <= places.len(),
            forall|j: int| 0 <= j < i ==> places@[j] != *p,
        decreases places.len() - i,
    {
        if places[i] == *p {
            return true;
        }
        i = i + 1;
    }
    false
}

/// Whether the input names a gate `name` that stands at `pos`: a name of
/// letters starts at some place with that name and that place for its gate.
pub open spec fn gate_of(rows: Seq<Vec<char>>, name: Seq<char>, pos: Position) -> bool {
    exists|p: Position|
        (grid_char(rows, p) matches Some(ch) && alphabetic(ch)) && #[trigger] gate_name(rows, p) == name
            && gate_place(rows, p) == Some(pos)
}

/// Whether every gate and pair of gates found so far is named in the input.
spec fn gates_named(
    rows: Seq<Vec<char>>,
    gates: Seq<(String, Position)>,
    pairs: Seq<(String, (Position, Position))>,
) -> bool {
    &&& forall|i: int| 0 <= i < gates.len() ==> gate_of(rows, (#[trigger] gates[i]).0@, gates[i].1)
    &&& forall|i: int| 0 <= i < pairs.len() ==> gate_of(rows, (#[trigger] pairs[i]).0@, pairs[i].1.0)
        && gate_of(rows, pairs[i].0@, pairs[i].1.1)
}

/// Whether every gate found so far stands on a `.` of the input.
spec fn gates_on_dots(
    rows: Seq<Vec<char>>,
    gates: Seq<(String, Position)>,
    pairs: Seq<(String, (Position, Position))>,
) -> bool {
    &&& forall|i: int| 0 <= i < gates.len() ==> grid_char(rows, (#[trigger] gates[i]).1) == Some('.')
    &&& forall|i: int| 0 <= i < pairs.len() ==> grid_char(rows, (#[trigger] pairs[i]).1.0) == Some('.')
        && grid_char(rows, pairs[i].1.1) == Some('.')
}

/// The maze that the input rows draw: `#` a wall, `.` an open place, a space
/// or a letter nothing; letters name the gates beside them.  The rows above
/// the first row with a tile are left out, so that the maze's row 0 is the
/// input's row `first_tile_row`.
#[verifier::spinoff_prover]
#[verifier::rlimit(60)]
pub fn parse_maze(
    map_char_rows: &Vec<Vec<char>>,
    start_gate_name: &str,
    stop_gate_name: &str,
) -> (res: Result<PlainMaze, Error>)
    ensures
        match res {
            Ok(maze) => {
                let rows = map_char_rows@;
                let off = first_tile_row(rows, 0);
                &&& maze.wf()
                &&& off < rows.len()
                &&& forall|r: int, c: int| 0 <= r < rows.len() && 0 <= c < rows[r]@.len()
                    ==> valid_map_char(#[trigger] rows[r]@[c])
                &&& forall|r: int| 0 <= r < off ==> !line_has_tile(#[trigger] rows[r]@)
                &&& forall|r: int, c: int| off <= r < rows.len() && 0 <= c < rows[r]@.len() ==> {
                    let t = maze.tile_spec(Position(c as usize, (r - off) as usize));
                    &&& (#[trigger] rows[r]@[c] == '#' ==> t == Some(TileType::Wall))
                    &&& (rows[r]@[c] == '.' ==> is_pass_tile(t))
                    &&& (!is_tile_char(rows[r]@[c]) ==> t is None)
                }
                &&& maze.start_place().level == 0
                &&& maze.stop_place().level == 0
                &&& is_gate_tile(maze.tile_spec(maze.start_place().pos_in_level))
                &&& is_gate_tile(maze.tile_spec(maze.stop_place().pos_in_level))
                &&& gate_of(rows, start_gate_name@, Position(
                    maze.start_place().pos_in_level.0,
                    (maze.start_place().pos_in_level.1 + off) as usize,
                ))
                &&& gate_of(rows, stop_gate_name@, Position(
                    maze.stop_place().pos_in_level.0,
                    (maze.stop_place().pos_in_level.1 + off) as usize,
                ))
            },
            Err(Error::InvalidCharInMap(ch)) => !valid_map_char(ch) && exists|r: int, c: int|
                0 <= r < map_char_rows@.len() && 0 <= c < map_char_rows@[r]@.len()
                    && #[trigger] map_char_rows@[r]@[c] == ch,
            Err(Error::NoMapInGivenInput) => first_tile_row(map_char_rows@, 0) == map_char_rows@.len(),
            Err(Error::NoStartGateInMap(name)) => name@ == start_gate_name@,
            Err(Error::NoStopGateInMap(name)) => name@ == stop_gate_name@,
            Err(Error::NoPositionForGate(name, p)) => (grid_char(map_char_rows@, p) matches Some(ch)
                && alphabetic(ch)) && name@ == gate_name(map_char_rows@, p) && gate_place(map_char_rows@, p) is None,
            Err(Error::FoundLoneGatesInMap(gates)) => gates.len() > 0 && forall|i: int| 0 <= i < gates.len()
                ==> gate_of(map_char_rows@, (#[trigger] gates@[i]).0@, gates@[i].1),
            Err(_) => false,
        },
{
    let ghost rows = map_char_rows@;
    let mut builder = MazeMapBuilder::new();
    let mut visited_name_pos: Vec<Position> = Vec::new();
    let mut gates_pos: Vec<(String, Position)> = Vec::new();
    let mut gate_pairs_pos: Vec<(String, (Position, Position))> = Vec::new();
    let mut maze_row_offset: Option<usize> = None;
    let n = map_char_rows.len();
    let mut r_ind: usize = 0;
    proof {
        lemma_first_tile_row(rows, 0);
    }
    while r_ind < n
        invariant
            rows == map_char_rows@,
            n == rows.len(),
            r_ind <= n,
            builder.wf(),
            r_ind == 0 ==> builder.idle() && builder.rows_spec().len() == 0,
            r_ind > 0 ==> !builder.idle() && builder.rows_spec() == kept_rows(rows, r_ind - 1)
                && builder.cells_spec() == line_cells(rows[r_ind - 1]@),
            forall|r: int, c: int| 0 <= r < r_ind && 0 <= c < rows[r]@.len() ==> valid_map_char(#[trigger] rows[r]@[c]),
            maze_row_offset == (if first_tile_row(rows, 0) < r_ind {
                Some(first_tile_row(rows, 0) as usize)
            } else {
                None::<usize>
            }),
            gates_on_dots(rows, gates_pos@, gate_pairs_pos@),
            gates_named(rows, gates_pos@, gate_pairs_pos@),
            0 <= first_tile_row(rows, 0) <= rows.len(),
            forall|i: int| 0 <= i < first_tile_row(rows, 0) ==> !line_has_tile(#[trigger] rows[i]@),
            first_tile_row(rows, 0) < rows.len() ==> line_has_tile(rows[first_tile_row(rows, 0)]@),
        decreases n - r_ind,
    {
        let ghost before_rows = builder.rows_spec();
        let ghost before_cells = builder.cells_spec();
        let ghost was_idle = builder.idle();
        match builder.new_row() {
            Ok(_) => {},
            Err(e) => return Err(e),
        }
        proof {
            if r_ind > 0 {
                assert(builder.rows_spec() == kept_rows(rows, r_ind as int));
            } else {
                assert(builder.rows_spec() =~= kept_rows(rows, 0));
            }
        }
        let row = &map_char_rows[r_ind];
        let m = row.len();
        let mut c_ind: usize = 0;
        while c_ind < m
            invariant
                rows == map_char_rows@,
                n == rows.len(),
                r_ind < n,
                *row == rows[r_ind as int],
                m == row@.len(),
                c_ind <= m,
                builder.wf(),
                !builder.idle(),
                builder.rows_spec() == kept_rows(rows, r_ind as int),
                builder.cells_spec() == line_cells(row@.take(c_ind as int)),
                forall|r: int, c: int| 0 <= r < r_ind && 0 <= c < rows[r]@.len() ==> valid_map_char(#[trigger] rows[r]@[c]),
                forall|c: int| 0 <= c < c_ind ==> valid_map_char(#[trigger] row@[c]),
                maze_row_offset == (if first_tile_row(rows, 0) < r_ind {
                    Some(first_tile_row(rows, 0) as usize)
                } else if exists|c: int| 0 <= c < c_ind && is_tile_char(#[trigger] row@[c]) {
                    Some(r_ind)
                } else {
                    None::<usize>
                }),
                gates_on_dots(rows, gates_pos@, gate_pairs_pos@),
                gates_named(rows, gates_pos@, gate_pairs_pos@),
            gates_named(rows, gates_pos@, gate_pairs_pos@),
                0 <= first_tile_row(rows, 0) <= rows.len(),
                forall|i: int| 0 <= i < first_tile_row(rows, 0) ==> !line_has_tile(#[trigger] rows[i]@),
                first_tile_row(rows, 0) < rows.len() ==> line_has_tile(rows[first_tile_row(rows, 0)]@),
            decreases m - c_ind,
        {
            let ch = row[c_ind];
            let ghost cells = builder.cells_spec();
            proof {
                assert(line_cells(row@.take(c_ind + 1)) =~= cells.push(char_cell(ch)));
            }
            if ch == '#' || ch == '.' {
                proof {
                    if first_tile_row(rows, 0) >= r_ind {
                        assert(line_has_tile(rows[r_ind as int]@));
                        if first_tile_row(rows, 0) > r_ind {
                            assert(!line_has_tile(rows[r_ind as int]@));
                        }
                    }
                }
                if maze_row_offset.is_none() {
                    maze_row_offset = Some(r_ind);
                }
                let tt = if ch == '#' { TileType::Wall } else { TileType::Empty };
                match builder.put_tile(tt) {
                    Ok(_) => {},
                    Err(e) => return Err(e),
                }
            } else if ch == ' ' {
                match builder.put_hole() {
                    Ok(_) => {},
                    Err(e) => return Err(e),
                }
            } else if is_alphabetic(ch) {
                match builder.put_hole() {
                    Ok(_) => {},
                    Err(e) => return Err(e),
                }
                let name_first_pos = Position(c_ind, r_ind);
                if !contains_pos(&visited_name_pos, &name_first_pos) {
                    visited_name_pos.push(name_first_pos);
                    let (name, pos) = match find_gate(map_char_rows, &name_first_pos, &mut visited_name_pos) {
                        Ok(found) => found,
                        Err(e) => return Err(e),
                    };
                    proof {
                        assert(gate_of(rows, name@, pos)) by {
                            assert(gate_name(rows, name_first_pos) == name@);
                        }
                    }
                    match find_name(&gates_pos, name.as_str()) {
                        Some(i) => {
                            let ghost old_gates = gates_pos@;
                            proof {
                                assert(gate_of(rows, old_gates[i as int].0@, old_gates[i as int].1));
                            }
                            let (_, last_pos) = gates_pos.remove(i);
                            proof {
                                assert forall|t: int| 0 <= t < gates_pos@.len() implies gate_of(rows, (#[trigger] gates_pos@[t]).0@, gates_pos@[t].1) by {
                                    if t < i {
                                        assert(gates_pos@[t] == old_gates[t]);
                                    } else {
                                        assert(gates_pos@[t] == old_gates[t + 1]);
                                    }
                                }
                            }
                            let ghost old_pairs = gate_pairs_pos@;
                            match find_name_pair(&gate_pairs_pos, name.as_str()) {
                                Some(j) => {
                                    gate_pairs_pos.set(j, (name, (last_pos, pos)));
                                },
                                None => {
                                    gate_pairs_pos.push((name, (last_pos, pos)));
                                },
                            }
                            proof {
                                assert forall|k: int| 0 <= k < gate_pairs_pos@.len() implies grid_char(rows, (#[trigger] gate_pairs_pos@[k]).1.0)
                                    == Some('.') && grid_char(rows, gate_pairs_pos@[k].1.1) == Some('.') by {
                                    if k < old_pairs.len() && gate_pairs_pos@[k] == old_pairs[k] {
                                    }
                                }
                                assert forall|k: int| 0 <= k < gate_pairs_pos@.len() implies gate_of(rows, (#[trigger] gate_pairs_pos@[k]).0@, gate_pairs_pos@[k].1.0)
                                    && gate_of(rows, gate_pairs_pos@[k].0@, gate_pairs_pos@[k].1.1) by {
                                    if k < old_pairs.len() && gate_pairs_pos@[k] == old_pairs[k] {
                                    }
                                }
                            }
                        },
                        None => {
                            let ghost old_gates = gates_pos@;
                            gates_pos.push((name, pos));
                            proof {
                                assert forall|t: int| 0 <= t < gates_pos@.len() implies gate_of(rows, (#[trigger] gates_pos@[t]).0@, gates_pos@[t].1) by {
                                    if t < old_gates.len() {
                                        assert(gates_pos@[t] == old_gates[t]);
                                    }
                                }
                            }
                        },
                    }
                }
            } else {
                return Err(Error::InvalidCharInMap(ch));
            }
            c_ind = c_ind + 1;
        }
        proof {
            assert(row@.take(m as int) =~= row@);
        }
        r_ind = r_ind + 1;
    }
    let ghost final_rows = if n == 0 { builder.rows_spec() } else { row_pushed(builder.rows_spec(), builder.cells_spec()) };
    proof {
        if n > 0 {
            assert(final_rows == kept_rows(rows, n as int));
        } else {
            assert(final_rows =~= kept_rows(rows, 0));
        }
        lemma_kept_rows(rows, n as int);
        lemma_trim_bottom(final_rows);
    }
    let map = match builder.build() {
        Ok(m) => m,
        Err(e) => return Err(e),
    };
    let off = match maze_row_offset {
        Some(o) => o,
        None => return Err(Error::NoMapInGivenInput),
    };
    let ghost g0 = gates_pos@;
    let start_raw = match find_name(&gates_pos, start_gate_name) {
        Some(i) => {
            proof {
                assert(gate_of(rows, g0[i as int].0@, g0[i as int].1));
            }
            gates_pos.remove(i).1
        },
        None => return Err(Error::NoStartGateInMap(start_gate_name.to_string())),
    };
    proof {
        assert(gate_of(rows, start_gate_name@, start_raw));
        assert forall|t: int| 0 <= t < gates_pos@.len() implies gate_of(rows, (#[trigger] gates_pos@[t]).0@, gates_pos@[t].1) by {
            let i = choose|i: int| 0 <= i < g0.len() && g0[i].0@ == start_gate_name@ && g0[i].1 == start_raw && gates_pos@ == g0.remove(i);
            if t < i {
                assert(gates_pos@[t] == g0[t]);
            } else {
                assert(gates_pos@[t] == g0[t + 1]);
            }
        }
    }
    let ghost g1 = gates_pos@;
    let stop_raw = match find_name(&gates_pos, stop_gate_name) {
        Some(i) => {
            proof {
                assert(gate_of(rows, g1[i as int].0@, g1[i as int].1));
            }
            gates_pos.remove(i).1
        },
        None => return Err(Error::NoStopGateInMap(stop_gate_name.to_string())),
    };
    proof {
        assert(gate_of(rows, stop_gate_name@, stop_raw));
        assert forall|t: int| 0 <= t < gates_pos@.len() implies gate_of(rows, (#[trigger] gates_pos@[t]).0@, gates_pos@[t].1) by {
            let i = choose|i: int| 0 <= i < g1.len() && g1[i].0@ == stop_gate_name@ && g1[i].1 == stop_raw && gates_pos@ == g1.remove(i);
            if t < i {
                assert(gates_pos@[t] == g1[t]);
            } else {
                assert(gates_pos@[t] == g1[t + 1]);
            }
        }
    }
    proof {
        lemma_dot_in_map(rows, map@, start_raw);
        lemma_dot_in_map(rows, map@, stop_raw);
    }
    let start_pos = Position(start_raw.0, start_raw.1 - off);
    let stop_pos = Position(stop_raw.0, stop_raw.1 - off);
    let ghost map0 = map@;
    let mut maze = PlainMaze::new(map, &start_pos, start_gate_name, &stop_pos, stop_gate_name);
    if gates_pos.len() > 0 {
        return Err(Error::FoundLoneGatesInMap(gates_pos));
    }
    let mut k: usize = 0;
    while k < gate_pairs_pos.len()
        invariant
            rows == map_char_rows@,
            off == first_tile_row(rows, 0),
            off < rows.len(),
            map0.len() == trim_bottom(kept_rows(rows, rows.len() as int)).len(),
            forall|i: int| 0 <= i < map0.len() ==> (#[trigger] map0[i]).cells_match(
                trim_bottom(kept_rows(rows, rows.len() as int))[i],
            ),
            gates_on_dots(rows, gates_pos@, gate_pairs_pos@),
            gates_named(rows, gates_pos@, gate_pairs_pos@),
            k <= gate_pairs_pos.len(),
            maze.wf(),
            maze.start_place() == (MazePosition { pos_in_level: start_pos, level: 0 }),
            maze.stop_place() == (MazePosition { pos_in_level: stop_pos, level: 0 }),
            is_gate_tile(maze.tile_spec(start_pos)),
            is_gate_tile(maze.tile_spec(stop_pos)),
            forall|q: Position| #[trigger] maze.tile_spec(q) == map_tile(map0, q) || (map_tile(map0, q)
                == Some(TileType::Empty) && is_gate_tile(maze.tile_spec(q))),
        decreases gate_pairs_pos.len() - k,
    {
        let p0 = gate_pairs_pos[k].1.0;
        let p1 = gate_pairs_pos[k].1.1;
        proof {
            assert(grid_char(rows, gate_pairs_pos@[k as int].1.0) == Some('.'));
            lemma_dot_in_map(rows, map0, p0);
            lemma_dot_in_map(rows, map0, p1);
        }
        let q0 = Position(p0.0, p0.1 - off);
        let q1 = Position(p1.0, p1.1 - off);
        let name0 = gate_pairs_pos[k].0.clone();
        let name1 = gate_pairs_pos[k].0.clone();
        let ghost before = maze;
        maze.tile_mut(&MazePosition::new(&q0, 0), TileType::Gate(name0, Some(q1)));
        let ghost mid = maze;
        maze.tile_mut(&MazePosition::new(&q1, 0), TileType::Gate(name1, Some(q0)));
        proof {
            assert forall|q: Position| #[trigger] maze.tile_spec(q) == map_tile(map0, q) || (map_tile(map0, q)
                == Some(TileType::Empty) && is_gate_tile(maze.tile_spec(q))) by {
                assert(before.tile_spec(q) == map_tile(map0, q) || (map_tile(map0, q)
                    == Some(TileType::Empty) && is_gate_tile(before.tile_spec(q))));
                if q != q0 {
                    assert(mid.tile_spec(q) == before.tile_spec(q));
                }
                if q != q1 {
                    assert(maze.tile_spec(q) == mid.tile_spec(q));
                }
            }
            assert(maze.tile_spec(start_pos) == map_tile(map0, start_pos) || (map_tile(map0, start_pos)
                == Some(TileType::Empty) && is_gate_tile(maze.tile_spec(start_pos))));
        }
        k = k + 1;
    }
    proof {
        assert forall|r: int, c: int| off <= r < rows.len() && 0 <= c < rows[r]@.len() implies {
            let t = maze.tile_spec(Position(c as usize, (r - off) as usize));
            &&& (#[trigger] rows[r]@[c] == '#' ==> t == Some(TileType::Wall))
            &&& (rows[r]@[c] == '.' ==> is_pass_tile(t))
            &&& (!is_tile_char(rows[r]@[c]) ==> t is None)
        } by {
            let q = Position(c as usize, (r - off) as usize);
            assert(maze.tile_spec(q) == map_tile(map0, q) || (map_tile(map0, q) == Some(TileType::Empty)
                && is_gate_tile(maze.tile_spec(q))));
            lemma_map_cell(rows, map0, r, c);
        }
    }
    Ok(maze)
}

/// A step of a walk through the maze: a move to a neighbouring place, or a
/// warp through that gate the walker stands on to the given place.
#[derive(Debug, Clone, Copy, PartialEq, Eq, Structural)]
pub enum MazeStep {
    Move(Direction),
    Warp(MazePosition),
}

/// Where one step from `pos` leads, if the maze allows it.
pub open spec fn step_spec<M: Maze>(maze: M, pos: MazePosition, step: MazeStep) -> Option<MazePosition> {
    match step {
        MazeStep::Move(d) => if can_move(pos.pos_in_level, d) {
            match maze_move_spec(pos, d) {
                Some(q) => if maze.pass_spec(q) {
                    Some(q)
                } else {
                    None
                },
                None => None,
            }
        } else {
            None
        },
        MazeStep::Warp(w) => if maze.warp_spec(pos) == Some(w) {
            Some(w)
        } else {
            None
        },
    }
}

/// Where the steps from `pos` lead, if the maze allows every one of them.
pub open spec fn replay<M: Maze>(maze: M, pos: MazePosition, steps: Seq<MazeStep>) -> Option<MazePosition>
    decreases steps.len(),
{
    if steps.len() == 0 {
        Some(pos)
    } else {
        match step_spec(maze, pos, steps[0]) {
            Some(next) => replay(maze, next, steps.drop_first()),
            None => None,
        }
    }
}

/// Walking `s` and then `t` is walking `s + t`.
pub proof fn lemma_replay_append<M: Maze>(maze: M, pos: MazePosition, s: Seq<MazeStep>, t: Seq<MazeStep>)
    ensures
        replay(maze, pos, s + t) == match replay(maze, pos, s) {
            Some(m) => replay(maze, m, t),
            None => None,
        },
    decreases s.len(),
{
    if s.len() > 0 {
        assert((s + t).drop_first() =~= s.drop_first() + t);
        assert((s + t)[0] == s[0]);
        match step_spec(maze, pos, s[0]) {
            Some(next) => lemma_replay_append(maze, next, s.drop_first(), t),
            None => {},
        }
    } else {
        assert(s + t =~= t);
    }
}

/// Whether every step is a move.
pub open spec fn all_moves(steps: Seq<MazeStep>) -> bool {
    forall|i: int| 0 <= i < steps.len() ==> (#[trigger] steps[i]) is Move
}

/// The gates reachable from a place, each with the steps that lead there.
pub open spec fn gate_paths_ok<M: Maze>(
    maze: M,
    from: MazePosition,
    found: Seq<(MazePosition, Vec<MazeStep>)>,
) -> bool {
    forall|i: int|
        0 <= i < found.len() ==> replay(maze, from, (#[trigger] found[i]).1@) == Some(found[i].0)
            && maze.gate_spec(found[i].0) && all_moves(found[i].1@)
}

/// The steps found so far from places to the gates they reach.
pub struct GatePaths {
    entries: Vec<(MazePosition, Vec<(MazePosition, Vec<MazeStep>)>)>,
}

impl GatePaths {
    pub fn new() -> (res: Self)
        ensures
            res.entries_spec().len() == 0,
    {
        GatePaths { entries: Vec::new() }
    }

    pub closed spec fn entries_spec(&self) -> Seq<(MazePosition, Vec<(MazePosition, Vec<MazeStep>)>)> {
        self.entries@
    }

    /// Whether every path kept leads from its place to its gate.
    pub open spec fn valid_for<M: Maze>(&self, maze: M) -> bool {
        forall|i: int|
            0 <= i < self.entries_spec().len() ==> gate_paths_ok(
                maze,
                (#[trigger] self.entries_spec()[i]).0,
                self.entries_spec()[i].1@,
            )
    }

    /// The entry kept for `from`, if any.
    fn find(&self, from: &MazePosition) -> (res: Option<usize>)
        ensures
            match res {
                Some(i) => i < self.entries_spec().len() && self.entries_spec()[i as int].0 == *from
                    && forall|j: int| 0 <= j < i ==> (#[trigger] self.entries_spec()[j]).0 != *from,
                None => forall|i: int| 0 <= i < self.entries_spec().len() ==> (#[trigger] self.entries_spec()[i]).0 != *from,
            },
    {
        let mut i: usize = 0;
        while i < self.entries.len()
            invariant
                i <= self.entries.len(),
                forall|j: int| 0 <= j < i ==> (#[trigger] self.entries@[j]).0 != *from,
            decreases self.entries.len() - i,
        {
            if self.entries[i].0 == *from {
                return Some(i);
            }
            i = i + 1;
        }
        None
    }

    /// The steps kept from `from` to that gate `to`, if any.
    pub open spec fn path_spec(&self, from: MazePosition, to: MazePosition) -> Option<Seq<MazeStep>> {
        match entry_from(self.entries_spec(), from, 0) {
            Some(i) => path_from(self.entries_spec()[i].1@, to, 0),
            None => None,
        }
    }
}

/// The first entry from `k` on kept for `from`.
pub open spec fn entry_from(
    entries: Seq<(MazePosition, Vec<(MazePosition, Vec<MazeStep>)>)>,
    from: MazePosition,
    k: int,
) -> Option<int>
    decreases entries.len() - k,
{
    if k < 0 || k >= entries.len() {
        None
    } else if entries[k].0 == from {
        Some(k)
    } else {
        entry_from(entries, from, k + 1)
    }
}

/// The steps to that gate `to` among `found`, from the `k`th on.
pub open spec fn path_from(found: Seq<(MazePosition, Vec<MazeStep>)>, to: MazePosition, k: int) -> Option<
    Seq<MazeStep>,
>
    decreases found.len() - k,
{
    if k < 0 || k >= found.len() {
        None
    } else if found[k].0 == to {
        Some(found[k].1@)
    } else {
        path_from(found, to, k + 1)
    }
}

proof fn lemma_entry_from(
    entries: Seq<(MazePosition, Vec<(MazePosition, Vec<MazeStep>)>)>,
    from: MazePosition,
    k: int,
)
    requires
        0 <= k <= entries.len(),
    ensures
        match entry_from(entries, from, k) {
            Some(i) => k <= i < entries.len() && entries[i].0 == from,
            None => forall|i: int| k <= i < entries.len() ==> (#[trigger] entries[i]).0 != from,
        },
    decreases entries.len() - k,
{
    if k < entries.len() && entries[k].0 != from {
        lemma_entry_from(entries, from, k + 1);
    }
}

proof fn lemma_path_from(found: Seq<(MazePosition, Vec<MazeStep>)>, to: MazePosition, k: int)
    requires
        0 <= k <= found.len(),
    ensures
        match path_from(found, to, k) {
            Some(p) => exists|j: int| k <= j < found.len() && (#[trigger] found[j]).0 == to && found[j].1@ == p,
            None => forall|j: int| k <= j < found.len() ==> (#[trigger] found[j]).0 != to,
        },
    decreases found.len() - k,
{
    if k < found.len() && found[k].0 != to {
        lemma_path_from(found, to, k + 1);
    }
}

/// A path kept by valid gate paths leads from its place to a gate, by moves.
pub proof fn lemma_path_spec<M: Maze>(paths: GatePaths, maze: M, from: MazePosition, to: MazePosition)
    requires
        paths.valid_for(maze),
        paths.path_spec(from, to) is Some,
    ensures
        replay(maze, from, paths.path_spec(from, to).unwrap()) == Some(to),
        maze.gate_spec(to),
        all_moves(paths.path_spec(from, to).unwrap()),
{
    let entries = paths.entries_spec();
    lemma_entry_from(entries, from, 0);
    let i = entry_from(entries, from, 0).unwrap();
    lemma_path_from(entries[i].1@, to, 0);
    let j = choose|j: int| 0 <= j < entries[i].1@.len() && (#[trigger] entries[i].1@[j]).0 == to
        && entries[i].1@[j].1@ == paths.path_spec(from, to).unwrap();
    assert(gate_paths_ok(maze, entries[i].0, entries[i].1@));
    assert(replay(maze, from, entries[i].1@[j].1@) == Some(entries[i].1@[j].0));
}

/// The gates among `found` not in `visited`, in order.
pub open spec fn unvisited_gates(found: Seq<(MazePosition, Vec<MazeStep>)>, visited: Seq<MazePosition>) -> Seq<
    MazePosition,
>
    decreases found.len(),
{
    if found.len() == 0 {
        Seq::empty()
    } else {
        let prev = unvisited_gates(found.drop_last(), visited);
        if visited.contains(found.last().0) {
            prev
        } else {
            prev.push(found.last().0)
        }
    }
}

/// `s` with `x` added, unless it is there already.
pub open spec fn set_insert(s: Seq<MazePosition>, x: MazePosition) -> Seq<MazePosition> {
    if s.contains(x) {
        s
    } else {
        s.push(x)
    }
}

fn insert_mpos(v: &mut Vec<MazePosition>, x: MazePosition)
    ensures
        final(v)@ == set_insert(old(v)@, x),
{
    if !contains_mpos(v, &x) {
        v.push(x);
    }
}

/// A copy of a vector of plain values.
fn copy_vec<T: Copy>(v: &Vec<T>) -> (res: Vec<T>)
    ensures
        res@ == v@,
{
    let mut res: Vec<T> = Vec::new();
    let mut i: usize = 0;
    while i < v.len()
        invariant
            i <= v.len(),
            res@ == v@.take(i as int),
        decreases v.len() - i,
    {
        res.push(v[i]);
        i = i + 1;
        proof {
            assert(res@ =~= v@.take(i as int));
        }
    }
    proof {
        assert(v@.take(v.len() as int) =~= v@);
    }
    res
}

/// Where a walker is and which gates it has warped through.
#[derive(Debug)]
pub struct MazeWalkerState {
    pub pos: MazePosition,
    pub warped_pos: Vec<MazePosition>,
}

/// A walker through the maze: where it is and the steps that led it there.
#[derive(Debug)]
pub struct MazeWalker {
    state: MazeWalkerState,
    path: Vec<MazeStep>,
    visited_gates_pos: Vec<MazePosition>,
}

impl MazeWalker {
    pub closed spec fn pos_spec(&self) -> MazePosition {
        self.state.pos
    }

    pub closed spec fn path_spec(&self) -> Seq<MazeStep> {
        self.path@
    }

    pub closed spec fn visited_spec(&self) -> Seq<MazePosition> {
        self.visited_gates_pos@
    }

    pub closed spec fn warped_spec(&self) -> Seq<MazePosition> {
        self.state.warped_pos@
    }

    /// A walker at `start_pos` that has not moved yet.
    pub fn new(start_pos: &MazePosition) -> (res: Self)
        ensures
            res.pos_spec() == *start_pos,
            res.path_spec().len() == 0,
            res.visited_spec().len() == 0,
            res.warped_spec().len() == 0,
    {
        MazeWalker {
            state: MazeWalkerState { pos: *start_pos, warped_pos: Vec::new() },
            path: Vec::new(),
            visited_gates_pos: Vec::new(),
        }
    }

    pub fn state(&self) -> (res: &MazeWalkerState)
        ensures
            res.pos == self.pos_spec(),
            res.warped_pos@ == self.warped_spec(),
    {
        &self.state
    }

    pub fn path(&self) -> (res: &Vec<MazeStep>)
        ensures
            res@ == self.path_spec(),
    {
        &self.path
    }

    pub fn pos(&self) -> (res: &MazePosition)
        ensures
            *res == self.pos_spec(),
    {
        &self.state.pos
    }

    /// A copy of this walker.
    fn copy(&self) -> (res: Self)
        ensures
            res.pos_spec() == self.pos_spec(),
            res.path_spec() == self.path_spec(),
            res.visited_spec() == self.visited_spec(),
            res.warped_spec() == self.warped_spec(),
    {
        MazeWalker {
            state: MazeWalkerState { pos: self.state.pos, warped_pos: copy_vec(&self.state.warped_pos) },
            path: copy_vec(&self.path),
            visited_gates_pos: copy_vec(&self.visited_gates_pos),
        }
    }

    /// The gates this walker can reach, each with the steps that lead
    /// there, found by a breadth-first search over the places it can walk,
    /// so that each way is a shortest one of moves to its gate.
    pub fn bfs_for_gates<M: Maze>(&self, maze: &M) -> (res: Vec<(MazePosition, Vec<MazeStep>)>)
        requires
            maze.inv(),
        ensures
            gate_paths_ok(*maze, self.pos_spec(), res@),
            forall|i: int, j: int| 0 <= i < j < res.len() ==> (#[trigger] res@[i]).0 != (#[trigger] res@[j]).0,
            forall|steps: Seq<MazeStep>| #[trigger] reached_gate(*maze, self.pos_spec(), steps) matches Some(g)
                ==> found_gate(res@, g),
            forall|t: int, steps: Seq<MazeStep>|
                0 <= t < res.len() && all_moves(steps) && #[trigger] replay(*maze, self.pos_spec(), steps) == Some(
                    (#[trigger] res@[t]).0,
                ) ==> res@[t].1@.len() <= steps.len(),
    {
        let start = self.state.pos;
        let mut nodes: Vec<MazePosition> = Vec::new();
        nodes.push(start);
        let mut dirs: Vec<Direction> = Vec::new();
        dirs.push(Direction::North);
        let mut parents: Vec<usize> = Vec::new();
        parents.push(0);
        let mut res: Vec<(MazePosition, Vec<MazeStep>)> = Vec::new();
        let mut head: usize = 0;
        let all_dirs = [Direction::North, Direction::South, Direction::West, Direction::East];
        proof {
            lemma_places_bound(nodes@, start.level);
        }
        while head < nodes.len()
            invariant
                maze.inv(),
                nodes.len() <= place_bound(),
                0 < nodes.len(),
                head <= nodes.len(),
                nodes.len() == dirs.len(),
                nodes.len() == parents.len(),
                nodes@[0] == start,
                start == self.pos_spec(),
                all_dirs@ == seq![Direction::North, Direction::South, Direction::West, Direction::East],
                forall|k: int| 0 <= k < nodes.len() ==> (#[trigger] nodes@[k]).level == start.level,
                forall|a: int, b: int| 0 <= a < b < nodes.len() ==> nodes@[a] != nodes@[b],
                forall|k: int| 0 < k < nodes.len() ==> bfs_link(*maze, nodes@, dirs@, parents@, k),
                gate_paths_ok(*maze, start, res@),
                forall|i: int| 0 <= i < res.len() ==> nodes@.contains(#[trigger] res@[i].0),
                forall|i: int, j: int| 0 <= i < j < res.len() ==> (#[trigger] res@[i]).0 != (#[trigger] res@[j]).0,
                forall|a: int, b: int| 0 <= a <= b < nodes.len() ==> bfs_depth(parents@, a) <= bfs_depth(parents@, b),
                head < nodes.len() ==> bfs_depth(parents@, nodes.len() - 1) <= bfs_depth(parents@, head as int) + 1,
                forall|a: int, dd: Direction| 0 <= a < head ==> #[trigger] move_close(*maze, nodes@, parents@, a, dd),
                forall|k: int| 0 < k < nodes.len() ==> #[trigger] gate_seen(*maze, res@, nodes@[k]),
                forall|t: int| 0 <= t < res.len() ==> #[trigger] gate_at_depth(nodes@, parents@, res@[t]),
            decreases place_bound() - nodes.len(), nodes.len() - head,
        {
            let pos = nodes[head];
            let mut d: usize = 0;
            let ghost n0 = nodes.len();
            while d < 4
                invariant
                    maze.inv(),
                    nodes.len() >= n0,
                    0 < nodes.len(),
                    head < n0,
                    nodes.len() == dirs.len(),
                    nodes.len() == parents.len(),
                    nodes@[0] == start,
                    start == self.pos_spec(),
                    pos == nodes@[head as int],
                    d <= 4,
                    all_dirs@ == seq![Direction::North, Direction::South, Direction::West, Direction::East],
                    forall|k: int| 0 <= k < nodes.len() ==> (#[trigger] nodes@[k]).level == start.level,
                    forall|a: int, b: int| 0 <= a < b < nodes.len() ==> nodes@[a] != nodes@[b],
                    forall|k: int| 0 < k < nodes.len() ==> bfs_link(*maze, nodes@, dirs@, parents@, k),
                    gate_paths_ok(*maze, start, res@),
                    forall|i: int| 0 <= i < res.len() ==> nodes@.contains(#[trigger] res@[i].0),
                    forall|i: int, j: int| 0 <= i < j < res.len() ==> (#[trigger] res@[i]).0 != (#[trigger] res@[j]).0,
                    nodes.len() <= place_bound(),
                    forall|a: int, b: int| 0 <= a <= b < nodes.len() ==> bfs_depth(parents@, a) <= bfs_depth(parents@, b),
                    bfs_depth(parents@, nodes.len() - 1) <= bfs_depth(parents@, head as int) + 1,
                    forall|a: int, dd: Direction| 0 <= a < head ==> #[trigger] move_close(*maze, nodes@, parents@, a, dd),
                    forall|j: int| 0 <= j < d ==> #[trigger] move_close(*maze, nodes@, parents@, head as int, all_dirs@[j]),
                    forall|k: int| 0 < k < nodes.len() ==> #[trigger] gate_seen(*maze, res@, nodes@[k]),
                    forall|t: int| 0 <= t < res.len() ==> #[trigger] gate_at_depth(nodes@, parents@, res@[t]),
                decreases 4 - d,
            {
                let dir = all_dirs[d];
                let movable = match dir {
                    Direction::South => pos.pos_in_level.1 < usize::MAX,
                    Direction::East => pos.pos_in_level.0 < usize::MAX,
                    _ => true,
                };
                if movable {
                    match pos.move_along(dir) {
                        Some(next) => {
                            if maze.can_pass(&next) && !contains_mpos(&nodes, &next) {
                                proof {
                                    lemma_places_bound(nodes@.push(next), start.level);
                                }
                                let ghost old_nodes = nodes@;
                                let ghost old_dirs = dirs@;
                                let ghost old_parents = parents@;
                                nodes.push(next);
                                dirs.push(dir);
                                parents.push(head);
                                proof {
                                    assert(nodes@ == old_nodes.push(next));
                                    assert(parents@ == old_parents.push(head));
                                    let last = nodes.len() - 1;
                                    lemma_bfs_depth_push(old_parents, head, head as int);
                                    assert(bfs_depth(parents@, last) == bfs_depth(parents@, head as int) + 1);
                                    assert forall|a: int, b: int| 0 <= a <= b < nodes.len() implies bfs_depth(parents@, a)
                                        <= bfs_depth(parents@, b) by {
                                        if a < last {
                                            lemma_bfs_depth_push(old_parents, head, a);
                                        }
                                        if b < last {
                                            lemma_bfs_depth_push(old_parents, head, b);
                                            assert(bfs_depth(old_parents, a) <= bfs_depth(old_parents, b));
                                        } else if a < last {
                                            assert(bfs_depth(old_parents, a) <= bfs_depth(old_parents, last - 1));
                                        }
                                    }
                                    assert forall|k: int| 0 < k < nodes.len() implies bfs_link(*maze, nodes@, dirs@, parents@, k) by {
                                        if k < nodes.len() - 1 {
                                            assert(bfs_link(*maze, old_nodes, old_dirs, old_parents, k));
                                            assert(dirs@[k] == old_dirs[k] && parents@[k] == old_parents[k]);
                                            assert(nodes@[k] == old_nodes[k]);
                                            assert(nodes@[parents@[k] as int] == old_nodes[parents@[k] as int]);
                                        }
                                    }
                                    assert forall|i: int| 0 <= i < res.len() implies nodes@.contains(#[trigger] res@[i].0) by {
                                        let t = old_nodes.index_of(res@[i].0);
                                        assert(nodes@[t] == res@[i].0);
                                    }
                                    assert forall|a: int, dd: Direction| 0 <= a < head implies #[trigger] move_close(*maze, nodes@, parents@, a, dd) by {
                                        lemma_move_close_grow(*maze, old_nodes, old_parents, next, head, a, dd);
                                    }
                                    assert forall|j: int| 0 <= j < d + 1 implies #[trigger] move_close(*maze, nodes@, parents@, head as int, all_dirs@[j]) by {
                                        if j < d {
                                            lemma_move_close_grow(*maze, old_nodes, old_parents, next, head, head as int, all_dirs@[j]);
                                        } else {
                                            assert(nodes@[last] == next);
                                            assert(nodes@[head as int] == pos);
                                        }
                                    }
                                    assert forall|t: int| 0 <= t < res.len() implies #[trigger] gate_at_depth(nodes@, parents@, res@[t]) by {
                                        assert(gate_at_depth(old_nodes, old_parents, res@[t]));
                                        let e = choose|e: int| 0 <= e < old_nodes.len() && #[trigger] old_nodes[e] == res@[t].0
                                            && res@[t].1@.len() == bfs_depth(old_parents, e);
                                        lemma_bfs_depth_push(old_parents, head, e);
                                        assert(nodes@[e] == old_nodes[e]);
                                    }
                                }
                                let ghost res_before = res@;
                                if maze.is_gate(&next) {
                                    let e = nodes.len() - 1;
                                    let path = walk_back(maze, &nodes, &dirs, &parents, e);
                                    proof {
                                        assert forall|i: int| 0 <= i < res.len() implies (#[trigger] res@[i]).0 != next by {
                                            assert(old_nodes.contains(res@[i].0));
                                        }
                                    }
                                    res.push((next, path));
                                    proof {
                                        assert(res@[res.len() - 1].0 == next);
                                        assert(found_gate(res@, next));
                                        assert forall|g: MazePosition| found_gate(res_before, g) implies found_gate(res@, g) by {
                                            let i0 = choose|i0: int| 0 <= i0 < res_before.len() && #[trigger] res_before[i0].0 == g;
                                            assert(res@[i0].0 == g);
                                        }
                                        assert(nodes@[e as int] == next);
                                        assert forall|i: int| 0 <= i < res.len() implies nodes@.contains(#[trigger] res@[i].0) by {
                                            if i == res.len() - 1 {
                                                assert(nodes@[e as int] == res@[i].0);
                                            }
                                        }
                                        assert forall|t: int| 0 <= t < res.len() implies #[trigger] gate_at_depth(nodes@, parents@, res@[t]) by {
                                            if t < res.len() - 1 {
                                                assert(res@[t] == res_before[t]);
                                            } else {
                                                assert(nodes@[e as int] == res@[t].0);
                                            }
                                        }
                                    }
                                }
                                proof {
                                    assert forall|k: int| 0 < k < nodes.len() implies #[trigger] gate_seen(*maze, res@, nodes@[k]) by {
                                        if k < nodes.len() - 1 {
                                            assert(nodes@[k] == old_nodes[k]);
                                            assert(gate_seen(*maze, res_before, old_nodes[k]));
                                        } else {
                                            assert(nodes@[k] == next);
                                        }
                                    }
                                }
                            } else {
                                proof {
                                    assert(nodes@[head as int] == pos);
                                    if nodes@.contains(next) {
                                        let b = choose|b: int| 0 <= b < nodes.len() && nodes@[b] == next;
                                        assert(bfs_depth(parents@, b) <= bfs_depth(parents@, nodes.len() - 1));
                                        assert(nodes@[b] == next);
                                    }
                                }
                                assert(move_close(*maze, nodes@, parents@, head as int, all_dirs@[d as int]));
                            }
                        },
                        None => {
                            assert(nodes@[head as int] == pos);
                            assert(move_close(*maze, nodes@, parents@, head as int, all_dirs@[d as int]));
                        },
                    }
                } else {
                    assert(nodes@[head as int] == pos);
                    assert(move_close(*maze, nodes@, parents@, head as int, all_dirs@[d as int]));
                }
                d = d + 1;
            }
            proof {
                assert forall|a: int, dd: Direction| 0 <= a < head + 1 implies #[trigger] move_close(*maze, nodes@, parents@, a, dd) by {
                    if a == head {
                        match dd {
                            Direction::North => assert(move_close(*maze, nodes@, parents@, a, all_dirs@[0])),
                            Direction::South => assert(move_close(*maze, nodes@, parents@, a, all_dirs@[1])),
                            Direction::West => assert(move_close(*maze, nodes@, parents@, a, all_dirs@[2])),
                            Direction::East => assert(move_close(*maze, nodes@, parents@, a, all_dirs@[3])),
                        }
                    }
                }
                if head + 1 < nodes.len() {
                    assert(bfs_depth(parents@, head as int) <= bfs_depth(parents@, head + 1));
                }
            }
            head = head + 1;
        }
        proof {
            assert(bfs_depth(parents@, 0) == 0);
            assert forall|steps: Seq<MazeStep>| #[trigger] reached_gate(*maze, start, steps) is Some implies found_gate(res@, reached_gate(*maze, start, steps)->Some_0) by {
                let q = replay(*maze, start, steps).unwrap();
                lemma_moves_close(*maze, nodes@, parents@, 0, steps);
                let k = choose|k: int| 0 <= k < nodes.len() && #[trigger] nodes@[k] == q && bfs_depth(parents@, k) <= bfs_depth(parents@, 0) + steps.len();
                assert(k != 0);
                assert(gate_seen(*maze, res@, nodes@[k]));
            }
            assert forall|t: int, steps: Seq<MazeStep>|
                0 <= t < res.len() && all_moves(steps) && #[trigger] replay(*maze, start, steps) == Some(
                    (#[trigger] res@[t]).0,
                ) implies res@[t].1@.len() <= steps.len() by {
                assert(gate_at_depth(nodes@, parents@, res@[t]));
                let e = choose|e: int| 0 <= e < nodes.len() && #[trigger] nodes@[e] == res@[t].0
                    && res@[t].1@.len() == bfs_depth(parents@, e);
                lemma_moves_close(*maze, nodes@, parents@, 0, steps);
                let b = choose|b: int| 0 <= b < nodes.len() && #[trigger] nodes@[b] == res@[t].0 && bfs_depth(parents@, b) <= bfs_depth(parents@, 0) + steps.len();
                assert(b == e);
            }
        }
        res
    }
}

impl MazeWalker {
    /// The gates this walker can reach and has not passed yet; the paths
    /// to them are searched once for each place and kept in `paths`.
    pub fn search_gates<M: Maze>(&self, maze: &M, paths: &mut GatePaths) -> (res: Vec<MazePosition>)
        requires
            maze.inv(),
            old(paths).valid_for(*maze),
        ensures
            final(paths).valid_for(*maze),
            final(paths).entries_spec() == old(paths).entries_spec() || (entry_from(
                old(paths).entries_spec(),
                self.pos_spec(),
                0,
            ) is None && exists|found: Vec<(MazePosition, Vec<MazeStep>)>|
                final(paths).entries_spec() == old(paths).entries_spec().push((self.pos_spec(), found))),
            entry_from(final(paths).entries_spec(), self.pos_spec(), 0) matches Some(i) && res@
                == unvisited_gates(final(paths).entries_spec()[i].1@, self.visited_spec()),
            forall|k: int| 0 <= k < res.len() ==> final(paths).path_spec(self.pos_spec(), #[trigger] res@[k])
                is Some,
            forall|k: int| 0 <= k < res.len() ==> !self.visited_spec().contains(#[trigger] res@[k]),
    {
        let pos = self.state.pos;
        let idx = match paths.find(&pos) {
            Some(i) => {
                proof {
                    lemma_entry_from(paths.entries@, pos, 0);
                    lemma_entry_from_is(paths.entries@, pos, i as int, 0);
                }
                i
            },
            None => {
                let found = self.bfs_for_gates(maze);
                let ghost old_entries = paths.entries@;
                proof {
                    lemma_entry_from(old_entries, pos, 0);
                }
                paths.entries.push((pos, found));
                proof {
                    assert(paths.entries_spec() == old_entries.push((pos, found)));
                    lemma_entry_from_push(old_entries, pos, found, 0);
                    assert forall|i: int| 0 <= i < paths.entries_spec().len() implies gate_paths_ok(
                        *maze,
                        (#[trigger] paths.entries_spec()[i]).0,
                        paths.entries_spec()[i].1@,
                    ) by {
                        if i < old_entries.len() {
                            assert(paths.entries_spec()[i] == old_entries[i]);
                        }
                    }
                }
                paths.entries.len() - 1
            },
        };
        let found = &paths.entries[idx].1;
        let mut res: Vec<MazePosition> = Vec::new();
        let mut j: usize = 0;
        while j < found.len()
            invariant
                j <= found.len(),
                res@ == unvisited_gates(found@.take(j as int), self.visited_spec()),
                forall|k: int| 0 <= k < res.len() ==> exists|t: int| 0 <= t < j && (#[trigger] found@[t]).0 == #[trigger] res@[k],
                forall|k: int| 0 <= k < res.len() ==> !self.visited_spec().contains(#[trigger] res@[k]),
            decreases found.len() - j,
        {
            let g = found[j].0;
            proof {
                assert(found@.take(j + 1).drop_last() =~= found@.take(j as int));
                assert(found@.take(j + 1).last() == found@[j as int]);
            }
            if !contains_mpos(&self.visited_gates_pos, &g) {
                res.push(g);
                proof {
                    assert forall|k: int| 0 <= k < res.len() implies exists|t: int| 0 <= t < j + 1 && (#[trigger] found@[t]).0 == #[trigger] res@[k] by {
                        if k == res.len() - 1 {
                            assert(found@[j as int].0 == res@[k]);
                        } else {
                            let t = choose|t: int| 0 <= t < j && (#[trigger] found@[t]).0 == res@[k];
                            assert(found@[t].0 == res@[k]);
                        }
                    }
                }
            }
            j = j + 1;
        }
        proof {
            assert(found@.take(found.len() as int) =~= found@);
            assert forall|k: int| 0 <= k < res.len() implies paths.path_spec(pos, #[trigger] res@[k]) is Some by {
                let t = choose|t: int| 0 <= t < found.len() && (#[trigger] found@[t]).0 == res@[k];
                lemma_path_from(found@, res@[k], 0);
            }
        }
        res
    }

    /// Walks the kept path to that gate at `pos` and, where that gate warps,
    /// warps through it.
    pub fn move_and_warp<M: Maze>(&mut self, maze: &M, pos: &MazePosition, paths: &GatePaths)
        requires
            maze.inv(),
            paths.valid_for(*maze),
            maze.gate_spec(*pos),
            paths.path_spec(old(self).pos_spec(), *pos) is Some,
        ensures
            ({
                let walked = paths.path_spec(old(self).pos_spec(), *pos).unwrap();
                let warp = maze.warp_spec(*pos);
                let steps = match warp {
                    Some(w) => walked.push(MazeStep::Warp(w)),
                    None => walked,
                };
                &&& final(self).path_spec() == old(self).path_spec() + steps
                &&& final(self).pos_spec() == (match warp {
                    Some(w) => w,
                    None => *pos,
                })
                &&& replay(*maze, old(self).pos_spec(), steps) == Some(final(self).pos_spec())
                &&& final(self).visited_spec() == (match warp {
                    Some(w) => set_insert(set_insert(old(self).visited_spec(), w), *pos),
                    None => set_insert(old(self).visited_spec(), *pos),
                })
                &&& final(self).warped_spec() == (match warp {
                    Some(w) => set_insert(old(self).warped_spec(), *pos),
                    None => old(self).warped_spec(),
                })
            }),
    {
        let from = self.state.pos;
        proof {
            lemma_path_spec(*paths, *maze, from, *pos);
            lemma_entry_from(paths.entries_spec(), from, 0);
        }
        let ghost walked = paths.path_spec(from, *pos).unwrap();
        let i = match paths.find(&from) {
            Some(i) => i,
            None => {
                proof {
                    assert(false);
                }
                0
            },
        };
        proof {
            lemma_entry_from_is(paths.entries@, from, i as int, 0);
        }
        let found = &paths.entries[i].1;
        let mut j: usize = 0;
        proof {
            lemma_path_from(found@, *pos, 0);
        }
        while j < found.len() && found[j].0 != *pos
            invariant
                j <= found.len(),
                path_from(found@, *pos, j as int) == path_from(found@, *pos, 0),
                path_from(found@, *pos, 0) is Some,
            decreases found.len() - j,
        {
            j = j + 1;
        }
        if j >= found.len() {
            proof {
                assert(false);
            }
            return;
        }
        let path = &found[j].1;
        assert(path@ == walked);
        let mut cur = from;
        let mut k: usize = 0;
        let ghost old_path = self.path@;
        proof {
            assert(walked.skip(0) =~= walked);
            assert(walked.take(0) =~= Seq::<MazeStep>::empty());
            assert(self.path@ =~= old_path + walked.take(0));
        }
        while k < path.len()
            invariant
                maze.inv(),
                k <= path.len(),
                path@ == walked,
                replay(*maze, from, walked) == Some(*pos),
                all_moves(walked),
                replay(*maze, cur, walked.skip(k as int)) == Some(*pos),
                replay(*maze, from, walked.take(k as int)) == Some(cur),
                self.path@ == old_path + walked.take(k as int),
                self.state.pos == from,
                self.visited_gates_pos@ == old(self).visited_spec(),
                self.state.warped_pos@ == old(self).warped_spec(),
            decreases path.len() - k,
        {
            let step = path[k];
            proof {
                assert(walked.skip(k as int)[0] == step);
                assert(walked.skip(k as int).drop_first() =~= walked.skip(k + 1));
                assert(walked.take(k + 1) =~= walked.take(k as int) + seq![step]);
                lemma_replay_append(*maze, from, walked.take(k as int), seq![step]);
                assert(seq![step].drop_first() =~= Seq::<MazeStep>::empty());
            }
            match step {
                MazeStep::Move(dir) => {
                    let next = match cur.move_along(dir) {
                        Some(q) => q,
                        None => {
                            proof {
                                assert(false);
                            }
                            cur
                        },
                    };
                    proof {
                        assert(step_spec(*maze, cur, step) == Some(next));
                        assert(replay(*maze, next, walked.skip(k + 1)) == Some(*pos));
                        assert(replay(*maze, next, seq![step].drop_first()) == Some(next));
                    }
                    self.path.push(step);
                    proof {
                        assert(self.path@ =~= old_path + walked.take(k + 1));
                    }
                    cur = next;
                },
                MazeStep::Warp(_) => {
                    proof {
                        assert(walked[k as int] is Move);
                        assert(false);
                    }
                },
            }
            k = k + 1;
        }
        proof {
            assert(walked.take(path.len() as int) =~= walked);
            assert(walked.skip(path.len() as int) =~= Seq::<MazeStep>::empty());
            assert(cur == *pos);
        }
        match maze.warp_pos(pos) {
            Some(w) => {
                insert_mpos(&mut self.state.warped_pos, *pos);
                insert_mpos(&mut self.visited_gates_pos, w);
                self.path.push(MazeStep::Warp(w));
                self.state.pos = w;
                proof {
                    lemma_replay_append(*maze, from, walked, seq![MazeStep::Warp(w)]);
                    assert(self.path@ =~= old_path + walked.push(MazeStep::Warp(w)));
                    assert(walked + seq![MazeStep::Warp(w)] =~= walked.push(MazeStep::Warp(w)));
                    assert(seq![MazeStep::Warp(w)].drop_first() =~= Seq::<MazeStep>::empty());
                    let one = seq![MazeStep::Warp(w)];
                    assert(one.len() == 1 && one[0] == MazeStep::Warp(w));
                    assert(step_spec(*maze, *pos, MazeStep::Warp(w)) == Some(w));
                    assert(replay(*maze, w, one.drop_first()) == Some(w));
                    assert(replay(*maze, *pos, one) == Some(w));
                }
            },
            None => {
                self.state.pos = cur;
            },
        }
        insert_mpos(&mut self.visited_gates_pos, *pos);
    }
}

proof fn lemma_entry_from_is(
    entries: Seq<(MazePosition, Vec<(MazePosition, Vec<MazeStep>)>)>,
    from: MazePosition,
    i: int,
    k: int,
)
    requires
        0 <= k <= i < entries.len(),
        entries[i].0 == from,
        forall|j: int| 0 <= j < i ==> (#[trigger] entries[j]).0 != from,
    ensures
        entry_from(entries, from, k) == Some(i),
    decreases i - k,
{
    if k < i {
        lemma_entry_from_is(entries, from, i, k + 1);
    }
}

proof fn lemma_entry_from_push(
    entries: Seq<(MazePosition, Vec<(MazePosition, Vec<MazeStep>)>)>,
    from: MazePosition,
    found: Vec<(MazePosition, Vec<MazeStep>)>,
    k: int,
)
    requires
        0 <= k <= entries.len(),
        forall|j: int| 0 <= j < entries.len() ==> (#[trigger] entries[j]).0 != from,
    ensures
        entry_from(entries.push((from, found)), from, k) == Some(entries.len() as int),
    decreases entries.len() - k,
{
    if k < entries.len() {
        lemma_entry_from_push(entries, from, found, k + 1);
        assert(entries.push((from, found))[k] == entries[k]);
    } else {
        assert(entries.push((from, found))[k] == (from, found));
    }
}

/// Whether the place one move from node `a` in direction `d`, where the
/// maze allows that move, is a node at most one link deeper than `a`.
pub open spec fn move_close<M: Maze>(maze: M, nodes: Seq<MazePosition>, parents: Seq<usize>, a: int, d: Direction) -> bool {
    match step_spec(maze, nodes[a], MazeStep::Move(d)) {
        Some(q) => exists|b: int|
            0 <= b < nodes.len() && #[trigger] nodes[b] == q && bfs_depth(parents, b) <= bfs_depth(parents, a) + 1,
        None => true,
    }
}

/// Whether a found gate is a node of the search whose depth is the length
/// of its steps.
pub open spec fn gate_at_depth(nodes: Seq<MazePosition>, parents: Seq<usize>, found: (MazePosition, Vec<MazeStep>)) -> bool {
    exists|e: int| 0 <= e < nodes.len() && #[trigger] nodes[e] == found.0 && found.1@.len() == bfs_depth(parents, e)
}

/// Whether `g` is among the gates of `found`.
pub open spec fn found_gate(found: Seq<(MazePosition, Vec<MazeStep>)>, g: MazePosition) -> bool {
    exists|i: int| 0 <= i < found.len() && #[trigger] found[i].0 == g
}

/// Whether `p`, where it is a gate, is among the gates of `found`.
pub open spec fn gate_seen<M: Maze>(maze: M, found: Seq<(MazePosition, Vec<MazeStep>)>, p: MazePosition) -> bool {
    maze.gate_spec(p) ==> found_gate(found, p)
}

/// Where the moves from `p` end, if the maze allows each of them and they
/// end on a gate other than `p`.
pub open spec fn reached_gate<M: Maze>(maze: M, p: MazePosition, steps: Seq<MazeStep>) -> Option<MazePosition> {
    if all_moves(steps) {
        match replay(maze, p, steps) {
            Some(q) => if q != p && maze.gate_spec(q) {
                Some(q)
            } else {
                None
            },
            None => None,
        }
    } else {
        None
    }
}

proof fn lemma_move_close_grow<M: Maze>(
    maze: M,
    nodes: Seq<MazePosition>,
    parents: Seq<usize>,
    x: MazePosition,
    h: usize,
    a: int,
    d: Direction,
)
    requires
        move_close(maze, nodes, parents, a, d),
        0 <= a < nodes.len(),
        nodes.len() == parents.len(),
    ensures
        move_close(maze, nodes.push(x), parents.push(h), a, d),
{
    assert(nodes.push(x)[a] == nodes[a]);
    lemma_bfs_depth_push(parents, h, a);
    if let Some(q) = step_spec(maze, nodes[a], MazeStep::Move(d)) {
        let b = choose|b: int|
            0 <= b < nodes.len() && #[trigger] nodes[b] == q && bfs_depth(parents, b) <= bfs_depth(parents, a) + 1;
        lemma_bfs_depth_push(parents, h, b);
        assert(nodes.push(x)[b] == q);
    }
}

/// From a search whose every node has its neighbours at most one link
/// deeper, moves from node `a` end on a node at most as many links deeper
/// than `a` as there are moves.
proof fn lemma_moves_close<M: Maze>(maze: M, nodes: Seq<MazePosition>, parents: Seq<usize>, a: int, steps: Seq<MazeStep>)
    requires
        forall|a2: int, d: Direction| 0 <= a2 < nodes.len() ==> #[trigger] move_close(maze, nodes, parents, a2, d),
        0 <= a < nodes.len(),
        all_moves(steps),
    ensures
        replay(maze, nodes[a], steps) matches Some(q) ==> exists|b: int|
            0 <= b < nodes.len() && #[trigger] nodes[b] == q && bfs_depth(parents, b) <= bfs_depth(parents, a) + steps.len(),
    decreases steps.len(),
{
    if steps.len() == 0 {
        assert(nodes[a] == nodes[a]);
    } else {
        assert(steps[0] is Move);
        let d = steps[0]->Move_0;
        assert(move_close(maze, nodes, parents, a, d));
        if let Some(q1) = step_spec(maze, nodes[a], steps[0]) {
            let b1 = choose|b: int|
                0 <= b < nodes.len() && #[trigger] nodes[b] == q1 && bfs_depth(parents, b) <= bfs_depth(parents, a) + 1;
            assert(all_moves(steps.drop_first())) by {
                assert forall|i: int| 0 <= i < steps.drop_first().len() implies (#[trigger] steps.drop_first()[i]) is Move by {
                    assert(steps.drop_first()[i] == steps[i + 1]);
                }
            }
            lemma_moves_close(maze, nodes, parents, b1, steps.drop_first());
        }
    }
}

/// Node `k` of a search was reached from its parent by one move in
/// direction `dirs[k]`, onto a place that can be walked.
pub open spec fn bfs_link<M: Maze>(
    maze: M,
    nodes: Seq<MazePosition>,
    dirs: Seq<Direction>,
    parents: Seq<usize>,
    k: int,
) -> bool {
    &&& parents[k] < k
    &&& step_spec(maze, nodes[parents[k] as int], MazeStep::Move(dirs[k])) == Some(nodes[k])
}

/// The number of places on one level.
pub open spec fn place_bound() -> int {
    (usize::MAX + 1) * (usize::MAX + 1)
}

/// Distinct places on one level number at most `place_bound()`.
proof fn lemma_places_bound(nodes: Seq<MazePosition>, level: usize)
    requires
        forall|k: int| 0 <= k < nodes.len() ==> (#[trigger] nodes[k]).level == level,
        forall|a: int, b: int| 0 <= a < b < nodes.len() ==> nodes[a] != nodes[b],
    ensures
        nodes.len() <= place_bound(),
{
    let bb: int = usize::MAX + 1;
    let ints = nodes.map_values(|p: MazePosition| p.pos_in_level.1 * bb + p.pos_in_level.0);
    assert forall|a: int, b: int| 0 <= a < b < ints.len() implies ints[a] != ints[b] by {
        let pa = nodes[a];
        let pb = nodes[b];
        if ints[a] == ints[b] {
            vstd::arithmetic::div_mod::lemma_fundamental_div_mod_converse(
                ints[a], bb, pa.pos_in_level.1 as int, pa.pos_in_level.0 as int);
            vstd::arithmetic::div_mod::lemma_fundamental_div_mod_converse(
                ints[b], bb, pb.pos_in_level.1 as int, pb.pos_in_level.0 as int);
            assert(pa.pos_in_level == pb.pos_in_level);
        }
    }
    assert(ints.no_duplicates());
    ints.unique_seq_to_set();
    vstd::set_lib::lemma_int_range(0, place_bound());
    assert forall|v: int| ints.to_set().contains(v) implies vstd::set_lib::set_int_range(0, place_bound()).contains(v) by {
        let k = choose|k: int| 0 <= k < ints.len() && ints[k] == v;
        let p = nodes[k];
        assert(0 <= p.pos_in_level.1 * bb) by (nonlinear_arith)
            requires p.pos_in_level.1 >= 0, bb > 0;
        assert(p.pos_in_level.1 * bb + p.pos_in_level.0 < bb * bb) by (nonlinear_arith)
            requires 0 <= p.pos_in_level.1 < bb, 0 <= p.pos_in_level.0 < bb;
    }
    vstd::set_lib::lemma_len_subset(ints.to_set(), vstd::set_lib::set_int_range(0, place_bound()));
}

/// Whether `p` is among `places`.
fn contains_mpos(places: &Vec<MazePosition>, p: &MazePosition) -> (res: bool)
    ensures
        res == places@.contains(*p),
{
    let mut i: usize = 0;
    while i < places.len()
        invariant
            i <= places.len(),
            forall|j: int| 0 <= j < i ==> places@[j] != *p,
        decreases places.len() - i,
    {
        if places[i] == *p {
            return true;
        }
        i = i + 1;
    }
    false
}

/// The moves from the first node of a search to node `e`, following the
/// parents back.
fn walk_back<M: Maze>(
    maze: &M,
    nodes: &Vec<MazePosition>,
    dirs: &Vec<Direction>,
    parents: &Vec<usize>,
    e: usize,
) -> (res: Vec<MazeStep>)
    requires
        e < nodes.len(),
        nodes.len() == dirs.len(),
        nodes.len() == parents.len(),
        forall|k: int| 0 < k < nodes.len() ==> bfs_link(*maze, nodes@, dirs@, parents@, k),
    ensures
        replay(*maze, nodes@[0], res@) == Some(nodes@[e as int]),
        all_moves(res@),
        res@.len() == bfs_depth(parents@, e as int),
{
    let mut steps: Vec<MazeStep> = Vec::new();
    let mut cur: usize = e;
    while cur != 0
        invariant
            cur < nodes.len(),
            nodes.len() == dirs.len(),
            nodes.len() == parents.len(),
            e < nodes.len(),
            forall|k: int| 0 < k < nodes.len() ==> bfs_link(*maze, nodes@, dirs@, parents@, k),
            replay(*maze, nodes@[cur as int], steps@) == Some(nodes@[e as int]),
            all_moves(steps@),
            steps@.len() + bfs_depth(parents@, cur as int) == bfs_depth(parents@, e as int),
        decreases cur,
    {
        let ghost old_steps = steps@;
        assert(bfs_link(*maze, nodes@, dirs@, parents@, cur as int));
        steps.insert(0, MazeStep::Move(dirs[cur]));
        proof {
            assert(steps@.drop_first() =~= old_steps);
            assert(steps@[0] == MazeStep::Move(dirs@[cur as int]));
        }
        cur = parents[cur];
    }
    steps
}

/// Whether two lists hold the same places.
pub open spec fn same_places(a: Seq<MazePosition>, b: Seq<MazePosition>) -> bool {
    forall|x: MazePosition| a.contains(x) <==> b.contains(x)
}

fn same_place_set(a: &Vec<MazePosition>, b: &Vec<MazePosition>) -> (res: bool)
    ensures
        res == same_places(a@, b@),
{
    let mut i: usize = 0;
    while i < a.len()
        invariant
            i <= a.len(),
            forall|k: int| 0 <= k < i ==> b@.contains(#[trigger] a@[k]),
        decreases a.len() - i,
    {
        if !contains_mpos(b, &a[i]) {
            return false;
        }
        i = i + 1;
    }
    let mut j: usize = 0;
    while j < b.len()
        invariant
            j <= b.len(),
            forall|k: int| 0 <= k < a.len() ==> b@.contains(#[trigger] a@[k]),
            forall|k: int| 0 <= k < j ==> a@.contains(#[trigger] b@[k]),
        decreases b.len() - j,
    {
        if !contains_mpos(a, &b[j]) {
            return false;
        }
        j = j + 1;
    }
    proof {
        assert forall|x: MazePosition| a@.contains(x) <==> b@.contains(x) by {
            if a@.contains(x) {
                let k = a@.index_of(x);
                assert(b@.contains(a@[k]));
            }
            if b@.contains(x) {
                let k = b@.index_of(x);
                assert(a@.contains(b@[k]));
            }
        }
    }
    true
}

/// Whether a walker in state `st` has been searched already: one in the
/// same place that had warped through the same gates.
fn contains_state(states: &Vec<MazeWalkerState>, st: &MazeWalkerState) -> (res: bool)
    ensures
        res == exists|k: int| 0 <= k < states.len() && (#[trigger] states@[k]).pos == st.pos
            && same_places(states@[k].warped_pos@, st.warped_pos@),
{
    let mut i: usize = 0;
    while i < states.len()
        invariant
            i <= states.len(),
            forall|k: int| 0 <= k < i ==> !((#[trigger] states@[k]).pos == st.pos && same_places(
                states@[k].warped_pos@,
                st.warped_pos@,
            )),
        decreases states.len() - i,
    {
        if states[i].pos == st.pos && same_place_set(&states[i].warped_pos, &st.warped_pos) {
            return true;
        }
        i = i + 1;
    }
    false
}

/// The place of a walker with the fewest steps.
fn min_path_index(walkers: &Vec<MazeWalker>) -> (res: usize)
    requires
        walkers.len() > 0,
    ensures
        res < walkers.len(),
        forall|k: int| 0 <= k < walkers.len() ==> walkers@[res as int].path_spec().len() <= (
        #[trigger] walkers@[k]).path_spec().len(),
{
    let mut best: usize = 0;
    let mut i: usize = 1;
    while i < walkers.len()
        invariant
            best < walkers.len(),
            1 <= i <= walkers.len(),
            forall|k: int| 0 <= k < i ==> walkers@[best as int].path_spec().len() <= (
            #[trigger] walkers@[k]).path_spec().len(),
        decreases walkers.len() - i,
    {
        if walkers[i].path().len() < walkers[best].path().len() {
            best = i;
        }
        i = i + 1;
    }
    best
}

/// A shortest walk from the start gate of `maze` to its stop gate: walkers
/// are taken in the order of the length of their walks, and each moves on
/// to the gates it can reach.  The search gives up after `u64::MAX` walkers.
pub fn find_shortest_path<M: Maze>(maze: &M) -> (res: Result<Vec<MazeStep>, Error>)
    requires
        maze.inv(),
    ensures
        match res {
            Ok(path) => replay(*maze, maze.start_spec(), path@) == Some(maze.stop_spec()),
            Err(e) => e is NoPathToWalkThroughMaze,
        },
{
    let start = *maze.start_pos();
    let init_walker = MazeWalker::new(&start);
    let mut visited_walker_states: Vec<MazeWalkerState> = Vec::new();
    let mut walkers: Vec<MazeWalker> = Vec::new();
    walkers.push(init_walker);
    let mut paths = GatePaths::new();
    let mut budget: u64 = u64::MAX;
    proof {
        assert(replay(*maze, start, Seq::<MazeStep>::empty()) == Some(start));
    }
    while walkers.len() > 0 && budget > 0
        invariant
            maze.inv(),
            start == maze.start_spec(),
            paths.valid_for(*maze),
            forall|k: int| 0 <= k < walkers.len() ==> replay(*maze, start, (#[trigger] walkers@[k]).path_spec())
                == Some(walkers@[k].pos_spec()),
        decreases budget,
    {
        budget = budget - 1;
        let i = min_path_index(&walkers);
        let ghost all = walkers@;
        let walker = walkers.remove(i);
        proof {
            assert(walker == all[i as int]);
            assert forall|k: int| 0 <= k < walkers.len() implies replay(*maze, start, (#[trigger] walkers@[k]).path_spec())
                == Some(walkers@[k].pos_spec()) by {
                if k < i {
                    assert(walkers@[k] == all[k]);
                } else {
                    assert(walkers@[k] == all[k + 1]);
                }
            }
        }
        if contains_state(&visited_walker_states, walker.state()) {
            continue;
        }
        visited_walker_states.push(
            MazeWalkerState { pos: walker.state.pos, warped_pos: copy_vec(&walker.state.warped_pos) },
        );
        if *walker.pos() == *maze.stop_pos() {
            return Ok(copy_vec(walker.path()));
        }
        let gates = walker.search_gates(maze, &mut paths);
        let mut g: usize = 0;
        while g < gates.len()
            invariant
                maze.inv(),
                start == maze.start_spec(),
                paths.valid_for(*maze),
                g <= gates.len(),
                replay(*maze, start, walker.path_spec()) == Some(walker.pos_spec()),
                forall|k: int| 0 <= k < gates.len() ==> paths.path_spec(walker.pos_spec(), #[trigger] gates@[k])
                    is Some,
                forall|k: int| 0 <= k < walkers.len() ==> replay(*maze, start, (#[trigger] walkers@[k]).path_spec())
                    == Some(walkers@[k].pos_spec()),
            decreases gates.len() - g,
        {
            let mut future_walker = walker.copy();
            proof {
                assert(paths.path_spec(walker.pos_spec(), gates@[g as int]) is Some);
                lemma_path_spec(paths, *maze, walker.pos_spec(), gates@[g as int]);
            }
            future_walker.move_and_warp(maze, &gates[g], &paths);
            proof {
                let walked = paths.path_spec(walker.pos_spec(), gates@[g as int]).unwrap();
                let steps = match maze.warp_spec(gates@[g as int]) {
                    Some(w) => walked.push(MazeStep::Warp(w)),
                    None => walked,
                };
                lemma_replay_append(*maze, start, walker.path_spec(), steps);
            }
            let ghost before = walkers@;
            walkers.push(future_walker);
            proof {
                assert forall|k: int| 0 <= k < walkers.len() implies replay(*maze, start, (#[trigger] walkers@[k]).path_spec())
                    == Some(walkers@[k].pos_spec()) by {
                    if k < before.len() {
                        assert(walkers@[k] == before[k]);
                    }
                }
            }
            g = g + 1;
        }
    }
    Err(Error::NoPathToWalkThroughMaze)
}

} // verus!
