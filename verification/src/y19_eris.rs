//! Bugs on a grid of tiles: each step a bug dies unless exactly one bug is
//! next to it, and an empty tile gets a bug when one or two are next to it.

use vstd::prelude::*;
use vstd::arithmetic::power2::pow2;
use std::collections::HashSet;

verus! {

/// Errors met while reading an area.
#[derive(Debug)]
pub enum Error {
    /// Number of arguments given, and number expected.
    WrongNumberOfArgs(usize, usize),
    /// Length of the current row, and length of the earlier rows.
    InconsistentRowInArea(usize, usize),
    /// A character that is not a tile.
    InvalidTileTypeChar(char),
    /// Number of tiles, more than a rating can count.
    OverflowedArea(usize),
}

/// What a tile holds.
#[derive(Debug, Clone, Copy, PartialEq, Eq, Structural)]
pub enum TileType {
    Empty,
    Infested,
}

impl TileType {
    /// The tile that a character stands for: `.` empty, `#` a bug.
    pub fn from_char(value: char) -> (res: Result<TileType, Error>)
        ensures
            value == '.' ==> res matches Ok(TileType::Empty),
            value == '#' ==> res matches Ok(TileType::Infested),
            value != '.' && value != '#' ==> (res matches Err(Error::InvalidTileTypeChar(c)) && c == value),
    {
        match value {
            '.' => Ok(TileType::Empty),
            '#' => Ok(TileType::Infested),
            other => Err(Error::InvalidTileTypeChar(other)),
        }
    }
}

/// The four neighbours of a tile.
#[derive(Debug, Clone, Copy, PartialEq, Eq, Structural)]
pub enum Direction {
    Up,
    Down,
    Left,
    Right,
}

/// A tile of the area: row and column.
#[derive(Debug, Clone, Copy, PartialEq, Eq, Structural)]
pub struct Position {
    pub r: usize,
    pub c: usize,
}

impl Position {
    pub fn new(r: usize, c: usize) -> (res: Self)
        ensures
            res == (Position { r, c }),
    {
        Self { r, c }
    }

    /// The neighbour in direction `dir`, if it is not off the top or the
    /// left edge.
    pub fn adjacent(&self, dir: Direction) -> (res: Option<Self>)
        requires
            dir == Direction::Down ==> self.r < usize::MAX,
            dir == Direction::Right ==> self.c < usize::MAX,
        ensures
            res == match dir {
                Direction::Up => if self.r > 0 { Some(Position { r: (self.r - 1) as usize, c: self.c }) } else { None },
                Direction::Down => Some(Position { r: (self.r + 1) as usize, c: self.c }),
                Direction::Left => if self.c > 0 { Some(Position { r: self.r, c: (self.c - 1) as usize }) } else { None },
                Direction::Right => Some(Position { r: self.r, c: (self.c + 1) as usize }),
            },
    {
        match dir {
            Direction::Up => if self.r > 0 { Some(Self::new(self.r - 1, self.c)) } else { None },
            Direction::Down => Some(Self::new(self.r + 1, self.c)),
            Direction::Left => if self.c > 0 { Some(Self::new(self.r, self.c - 1)) } else { None },
            Direction::Right => Some(Self::new(self.r, self.c + 1)),
        }
    }
}

/// The rating of a list of tiles: the sum of `2^i` over the tiles `i` that
/// hold a bug.
pub open spec fn bio_spec(tiles: Seq<TileType>) -> nat
    decreases tiles.len(),
{
    if tiles.len() == 0 {
        0
    } else {
        (if tiles[0] == TileType::Infested { 1nat } else { 0nat }) + 2 * bio_spec(tiles.drop_first())
    }
}

proof fn lemma_bio_bound(tiles: Seq<TileType>)
    ensures
        bio_spec(tiles) < pow2(tiles.len()),
    decreases tiles.len(),
{
    vstd::arithmetic::power2::lemma2_to64();
    if tiles.len() > 0 {
        lemma_bio_bound(tiles.drop_first());
        vstd::arithmetic::power2::lemma_pow2_unfold(tiles.len());
    }
}

/// Whether the tile at row `r`, column `c` of a grid with `col_n` columns
/// holds a bug; places off the grid hold none.
pub open spec fn infested_at(tiles: Seq<TileType>, row_n: int, col_n: int, r: int, c: int) -> int {
    if 0 <= r < row_n && 0 <= c < col_n && tiles[r * col_n + c] == TileType::Infested {
        1
    } else {
        0
    }
}

/// Number of bugs next to the tile at row `r`, column `c`.
pub open spec fn adjacent_bugs(tiles: Seq<TileType>, row_n: int, col_n: int, r: int, c: int) -> int {
    infested_at(tiles, row_n, col_n, r - 1, c) + infested_at(tiles, row_n, col_n, r + 1, c)
        + infested_at(tiles, row_n, col_n, r, c - 1) + infested_at(tiles, row_n, col_n, r, c + 1)
}

/// What a tile becomes, given the number of bugs next to it.
pub open spec fn next_tile(cur: TileType, n: int) -> TileType {
    match cur {
        TileType::Empty => if n == 1 || n == 2 { TileType::Infested } else { TileType::Empty },
        TileType::Infested => if n != 1 { TileType::Empty } else { TileType::Infested },
    }
}

/// The tiles of a grid after one step.
pub open spec fn step_tiles(tiles: Seq<TileType>, row_n: int, col_n: int) -> Seq<TileType> {
    Seq::new(tiles.len(), |i: int| next_tile(tiles[i], adjacent_bugs(tiles, row_n, col_n, i / col_n, i % col_n)))
}

/// The tile that a character stands for, when it stands for one.
pub open spec fn tile_of(ch: char) -> TileType {
    if ch == '.' { TileType::Empty } else { TileType::Infested }
}

/// The tiles that a row of characters stands for.
pub open spec fn tiles_of(s: Seq<char>) -> Seq<TileType> {
    Seq::new(s.len(), |i: int| tile_of(s[i]))
}

/// The character that shows a tile.
pub open spec fn tile_char(t: TileType) -> char {
    match t {
        TileType::Empty => '.',
        TileType::Infested => '#',
    }
}

/// The text of the first `r` rows of `col_n` tiles each: each row its
/// characters and a line break.
pub open spec fn rows_text(tiles: Seq<TileType>, col_n: int, r: int) -> Seq<char>
    decreases r,
{
    if r <= 0 {
        Seq::empty()
    } else {
        rows_text(tiles, col_n, r - 1) + Seq::new(col_n as nat, |c: int| tile_char(tiles[(r - 1) * col_n + c])).push('\n')
    }
}

/// The tiles of an area, row after row.
#[derive(Debug, Clone)]
pub struct AreaBuffer {
    tiles: Vec<TileType>,
    row_n: usize,
    col_n: usize,
}

impl AreaBuffer {
    pub closed spec fn tiles_spec(&self) -> Seq<TileType> {
        self.tiles@
    }

    pub closed spec fn row_n_spec(&self) -> usize {
        self.row_n
    }

    pub closed spec fn col_n_spec(&self) -> usize {
        self.col_n
    }

    /// The tiles fill the rows exactly.
    pub open spec fn wf(&self) -> bool {
        self.tiles_spec().len() == self.row_n_spec() * self.col_n_spec()
    }

    /// The rating of the area: tile `i` that holds a bug counts `2^i`.
    pub fn bio_rating(&self) -> (res: usize)
        requires
            self.tiles_spec().len() <= usize::BITS,
        ensures
            res == bio_spec(self.tiles_spec()),
    {
        let n = self.tiles.len();
        let mut acc: usize = 0;
        let mut i: usize = n;
        proof {
            vstd::layout::unsigned_int_max_values();
            assert(self.tiles@.subrange(n as int, n as int) =~= Seq::<TileType>::empty());
        }
        while i > 0
            invariant
                i <= n,
                n == self.tiles.len(),
                n <= usize::BITS,
                (usize::MAX as nat) == pow2(usize::BITS as nat) - 1,
                acc == bio_spec(self.tiles@.subrange(i as int, n as int)),
            decreases i,
        {
            i = i - 1;
            let v: usize = match self.tiles[i] {
                TileType::Empty => 0,
                TileType::Infested => 1,
            };
            let ghost rest = self.tiles@.subrange(i + 1, n as int);
            let ghost cur = self.tiles@.subrange(i as int, n as int);
            proof {
                assert(cur.drop_first() =~= rest);
                lemma_bio_bound(cur);
                if cur.len() < usize::BITS {
                    vstd::arithmetic::power2::lemma_pow2_strictly_increases(cur.len(), usize::BITS as nat);
                }
                if cur.len() == usize::BITS {
                    assert(bio_spec(cur) <= usize::MAX);
                }
            }
            acc = acc * 2 + v;
        }
        proof {
            assert(self.tiles@.subrange(0, n as int) =~= self.tiles@);
        }
        acc
    }

    /// The area as text: a line of `.` and `#` for each row.
    pub fn to_text(&self) -> (res: String)
        requires
            self.wf(),
        ensures
            res@ == rows_text(self.tiles_spec(), self.col_n_spec() as int, self.row_n_spec() as int),
    {
        let mut chars: Vec<char> = Vec::new();
        let mut r: usize = 0;
        while r < self.row_n
            invariant
                self.wf(),
                r <= self.row_n,
                chars@ == rows_text(self.tiles@, self.col_n as int, r as int),
            decreases self.row_n - r,
        {
            let ghost before = chars@;
            let mut c: usize = 0;
            while c < self.col_n
                invariant
                    self.wf(),
                    r < self.row_n,
                    c <= self.col_n,
                    chars@ == before + Seq::new(c as nat, |k: int| tile_char(self.tiles@[r * self.col_n + k])),
                decreases self.col_n - c,
            {
                proof {
                    assert(r * self.col_n + c < self.row_n * self.col_n) by (nonlinear_arith)
                        requires
                            r < self.row_n,
                            c < self.col_n,
                    ;
                    assert(self.tiles@.len() == self.row_n * self.col_n);
                    assert(r * self.col_n <= r * self.col_n + c);
                    assert(r * self.col_n + c < self.tiles.len());
                }
                let ch = match self.tiles[r * self.col_n + c] {
                    TileType::Empty => '.',
                    TileType::Infested => '#',
                };
                chars.push(ch);
                c = c + 1;
                proof {
                    assert(chars@ =~= before + Seq::new(c as nat, |k: int| tile_char(self.tiles@[r * self.col_n + k])));
                }
            }
            chars.push('\n');
            r = r + 1;
            proof {
                assert(chars@ =~= rows_text(self.tiles@, self.col_n as int, r as int));
            }
        }
        crate::text::string_from_chars(&chars)
    }

    /// Number of tiles.
    pub fn tiles_n(&self) -> (res: usize)
        ensures
            res == self.tiles_spec().len(),
    {
        self.tiles.len()
    }

    /// Index of the tile at `pos`, if it is in the area.
    pub fn pos_to_ind(&self, pos: &Position) -> (res: Option<usize>)
        requires
            self.wf(),
        ensures
            pos.r >= self.row_n_spec() || pos.c >= self.col_n_spec() ==> res is None,
            pos.r < self.row_n_spec() && pos.c < self.col_n_spec() ==> (res matches Some(i)
                && i == pos.r * self.col_n_spec() + pos.c && i < self.tiles_spec().len()),
    {
        if pos.r >= self.row_n || pos.c >= self.col_n {
            None
        } else {
            let n = self.tiles.len();
            proof {
                lemma_index_in_grid(pos.r as int, pos.c as int, self.row_n as int, self.col_n as int);
                assert(pos.r * self.col_n + pos.c < n);
            }
            Some(pos.r * self.col_n + pos.c)
        }
    }

    /// Position of the tile with index `ind`, if there is one.
    pub fn ind_to_pos(&self, ind: usize) -> (res: Option<Position>)
        requires
            self.wf(),
        ensures
            ind >= self.tiles_spec().len() ==> res is None,
            ind < self.tiles_spec().len() ==> res == Some(
                Position { r: (ind / self.col_n_spec()) as usize, c: (ind % self.col_n_spec()) as usize },
            ),
    {
        if ind >= self.tiles.len() {
            None
        } else {
            proof {
                if self.col_n == 0 {
                    assert(self.row_n * self.col_n == 0) by (nonlinear_arith)
                        requires
                            self.col_n == 0,
                    ;
                }
            }
            Some(Position::new(ind / self.col_n, ind % self.col_n))
        }
    }

    /// The tile at `pos`, if it is in the area.
    pub fn tile(&self, pos: &Position) -> (res: Option<&TileType>)
        requires
            self.wf(),
        ensures
            pos.r >= self.row_n_spec() || pos.c >= self.col_n_spec() ==> res is None,
            pos.r < self.row_n_spec() && pos.c < self.col_n_spec() ==> res == Some(
                &self.tiles_spec()[pos.r * self.col_n_spec() + pos.c],
            ),
    {
        match self.pos_to_ind(pos) {
            Some(i) => Some(&self.tiles[i]),
            None => None,
        }
    }

    /// Puts `tt` into the tile at `pos`, if it is in the area, and tells
    /// whether it did.
    pub fn tile_mut(&mut self, pos: &Position, tt: TileType) -> (res: bool)
        requires
            old(self).wf(),
        ensures
            res == (pos.r < old(self).row_n_spec() && pos.c < old(self).col_n_spec()),
            final(self).row_n_spec() == old(self).row_n_spec(),
            final(self).col_n_spec() == old(self).col_n_spec(),
            res ==> final(self).tiles_spec() == old(self).tiles_spec().update(
                pos.r * old(self).col_n_spec() + pos.c,
                tt,
            ),
            !res ==> final(self).tiles_spec() == old(self).tiles_spec(),
    {
        match self.pos_to_ind(pos) {
            Some(i) => {
                self.tiles.set(i, tt);
                true
            },
            None => false,
        }
    }
}

proof fn lemma_index_in_grid(r: int, c: int, row_n: int, col_n: int)
    requires
        0 <= r < row_n,
        0 <= c < col_n,
    ensures
        0 <= r * col_n + c < row_n * col_n,
        (r * col_n + c) / col_n == r,
        (r * col_n + c) % col_n == c,
{
    assert(r * col_n + c < row_n * col_n) by (nonlinear_arith)
        requires
            0 <= r < row_n,
            0 <= c < col_n,
    ;
    assert(0 <= r * col_n) by (nonlinear_arith)
        requires
            0 <= r,
            0 <= col_n,
    ;
    vstd::arithmetic::div_mod::lemma_fundamental_div_mod_converse(r * col_n + c, col_n, r, c);
}

/// The tiles after `k` steps.
pub open spec fn tiles_after(tiles: Seq<TileType>, row_n: int, col_n: int, k: nat) -> Seq<TileType>
    decreases k,
{
    if k == 0 {
        tiles
    } else {
        step_tiles(tiles_after(tiles, row_n, col_n, (k - 1) as nat), row_n, col_n)
    }
}

/// Whether the ratings after `0..=k` steps are all different.
pub open spec fn ratings_fresh(tiles: Seq<TileType>, row_n: int, col_n: int, k: nat) -> bool {
    forall|i: nat, j: nat| i < j <= k ==> #[trigger] bio_spec(tiles_after(tiles, row_n, col_n, i))
        != #[trigger] bio_spec(tiles_after(tiles, row_n, col_n, j))
}

/// An area of bugs that steps from one generation to the next.
pub struct Area {
    cur: AreaBuffer,
    back: AreaBuffer,
}

impl Area {
    pub closed spec fn buffer(&self) -> AreaBuffer {
        self.cur
    }

    pub closed spec fn wf(&self) -> bool {
        &&& self.cur.wf()
        &&& self.back.wf()
        &&& self.cur.row_n == self.back.row_n
        &&& self.cur.col_n == self.back.col_n
        &&& self.cur.tiles.len() <= usize::BITS
    }

    /// One step: every tile changes at once by the number of bugs next to it.
    pub fn step(&mut self)
        requires
            old(self).wf(),
        ensures
            final(self).wf(),
            final(self).buffer().row_n_spec() == old(self).buffer().row_n_spec(),
            final(self).buffer().col_n_spec() == old(self).buffer().col_n_spec(),
            final(self).buffer().tiles_spec() == step_tiles(
                old(self).buffer().tiles_spec(),
                old(self).buffer().row_n_spec() as int,
                old(self).buffer().col_n_spec() as int,
            ),
    {
        let ghost src = self.cur.tiles@;
        let rn = self.cur.row_n;
        let cn = self.cur.col_n;
        let n = self.cur.tiles_n();
        let mut i: usize = 0;
        while i < n
            invariant
                self.wf(),
                n == self.cur.tiles.len(),
                rn == self.cur.row_n,
                cn == self.cur.col_n,
                self.cur.tiles@ == src,
                self.back.tiles.len() == n,
                i <= n,
                forall|k: int| 0 <= k < i ==> self.back.tiles@[k] == #[trigger] step_tiles(src, rn as int, cn as int)[k],
            decreases n - i,
        {
            let pos = self.cur.ind_to_pos(i).unwrap();
            proof {
                assert(cn > 0) by {
                    if cn == 0 {
                        assert(rn * cn == 0) by (nonlinear_arith)
                            requires
                                cn == 0,
                        ;
                    }
                }
                assert(pos.r < rn) by {
                    assert(i / cn < rn) by (nonlinear_arith)
                        requires
                            0 <= i < rn * cn,
                            cn > 0,
                    ;
                }
                assert(i as int == pos.r * cn + pos.c) by {
                    vstd::arithmetic::div_mod::lemma_fundamental_div_mod(i as int, cn as int);
                    assert(pos.r == i / cn && pos.c == i % cn);
                    assert((i / cn) * cn == cn * (i / cn)) by (nonlinear_arith);
                }
            }
            let mut count: usize = 0;
            let up = self.cur_bug(&pos, Direction::Up);
            let down = self.cur_bug(&pos, Direction::Down);
            let left = self.cur_bug(&pos, Direction::Left);
            let right = self.cur_bug(&pos, Direction::Right);
            count = up + down + left + right;
            let cur_tt = self.cur.tiles[i];
            let new_tt = match cur_tt {
                TileType::Empty => if count == 1 || count == 2 { TileType::Infested } else { cur_tt },
                TileType::Infested => if count != 1 { TileType::Empty } else { cur_tt },
            };
            proof {
                assert(count == adjacent_bugs(src, rn as int, cn as int, (i / cn) as int, (i % cn) as int));
                assert(new_tt == step_tiles(src, rn as int, cn as int)[i as int]);
            }
            self.back.tiles.set(i, new_tt);
            i = i + 1;
        }
        proof {
            assert(self.back.tiles@ =~= step_tiles(src, rn as int, cn as int));
        }
        std::mem::swap(&mut self.cur, &mut self.back);
    }

    /// Whether the neighbour of `pos` in direction `dir` holds a bug, as 1 or 0.
    fn cur_bug(&self, pos: &Position, dir: Direction) -> (res: usize)
        requires
            self.wf(),
            pos.r < self.cur.row_n,
            pos.c < self.cur.col_n,
        ensures
            res == match dir {
                Direction::Up => infested_at(self.cur.tiles@, self.cur.row_n as int, self.cur.col_n as int, pos.r - 1, pos.c as int),
                Direction::Down => infested_at(self.cur.tiles@, self.cur.row_n as int, self.cur.col_n as int, pos.r + 1, pos.c as int),
                Direction::Left => infested_at(self.cur.tiles@, self.cur.row_n as int, self.cur.col_n as int, pos.r as int, pos.c - 1),
                Direction::Right => infested_at(self.cur.tiles@, self.cur.row_n as int, self.cur.col_n as int, pos.r as int, pos.c + 1),
            },
    {
        match pos.adjacent(dir) {
            Some(apos) => match self.cur.tile(&apos) {
                Some(tt) => if *tt == TileType::Infested { 1 } else { 0 },
                None => 0,
            },
            None => 0,
        }
    }

    /// The rating of the current tiles.
    pub fn bio_rating(&self) -> (res: usize)
        requires
            self.wf(),
        ensures
            res == bio_spec(self.buffer().tiles_spec()),
    {
        self.cur.bio_rating()
    }

    /// The current tiles as text.
    pub fn to_text(&self) -> (res: String)
        requires
            self.wf(),
        ensures
            res@ == rows_text(self.buffer().tiles_spec(), self.buffer().col_n_spec() as int, self.buffer().row_n_spec() as int),
    {
        self.cur.to_text()
    }

    /// Steps until a rating comes back, and gives the number of steps and
    /// that rating; the area is left at that step. `None` where the ratings
    /// after `0..=u64::MAX` steps are all different.
    pub fn first_repeated_rating(&mut self) -> (res: Option<(u64, usize)>)
        requires
            old(self).wf(),
        ensures
            final(self).wf(),
            final(self).buffer().row_n_spec() == old(self).buffer().row_n_spec(),
            final(self).buffer().col_n_spec() == old(self).buffer().col_n_spec(),
            match res {
                Some((steps, rating)) => {
                    let t = old(self).buffer().tiles_spec();
                    let rn = old(self).buffer().row_n_spec() as int;
                    let cn = old(self).buffer().col_n_spec() as int;
                    &&& steps > 0
                    &&& ratings_fresh(t, rn, cn, (steps - 1) as nat)
                    &&& rating == bio_spec(tiles_after(t, rn, cn, steps as nat))
                    &&& exists|j: nat| j < steps && #[trigger] bio_spec(tiles_after(t, rn, cn, j)) == rating
                    &&& final(self).buffer().tiles_spec() == tiles_after(t, rn, cn, steps as nat)
                },
                None => ratings_fresh(
                    old(self).buffer().tiles_spec(),
                    old(self).buffer().row_n_spec() as int,
                    old(self).buffer().col_n_spec() as int,
                    u64::MAX as nat,
                ),
            },
    {
        let ghost t = self.cur.tiles@;
        let ghost rn = self.cur.row_n as int;
        let ghost cn = self.cur.col_n as int;
        let mut seen: HashSet<usize> = HashSet::new();
        let mut steps: u64 = 0;
        proof {
            assert(seen@ =~= Set::new(|v: usize| exists|i: nat| i < steps && bio_spec(tiles_after(t, rn, cn, i)) == v));
        }
        loop
            invariant
                self.wf(),
                self.cur.row_n == rn,
                self.cur.col_n == cn,
                rn == old(self).buffer().row_n_spec(),
                cn == old(self).buffer().col_n_spec(),
                t == old(self).buffer().tiles_spec(),
                self.buffer().tiles_spec() == tiles_after(t, rn, cn, steps as nat),
                steps > 0 ==> ratings_fresh(t, rn, cn, (steps - 1) as nat),
                seen@ == Set::new(|v: usize| exists|i: nat| i < steps && bio_spec(tiles_after(t, rn, cn, i)) == v),
            decreases u64::MAX - steps,
        {
            let rating = self.bio_rating();
            if seen.contains(&rating) {
                if steps == 0 {
                    proof {
                        assert(false);
                    }
                }
                proof {
                    let j = choose|i: nat| i < steps && bio_spec(tiles_after(t, rn, cn, i)) == rating;
                    assert(bio_spec(tiles_after(t, rn, cn, j)) == rating);
                }
                return Some((steps, rating));
            }
            let ghost seen0 = seen@;
            seen.insert(rating);
            proof {
                assert forall|i: nat, j: nat| i < j <= steps implies #[trigger] bio_spec(tiles_after(t, rn, cn, i))
                    != #[trigger] bio_spec(tiles_after(t, rn, cn, j)) by {
                    if j == steps {
                        if bio_spec(tiles_after(t, rn, cn, i)) == rating {
                            assert(seen0.contains(rating)) by {
                                assert(i < steps);
                            }
                        }
                    }
                }
            }
            if steps == u64::MAX {
                return None;
            }
            self.step();
            steps = steps + 1;
            proof {
                assert(seen@ =~= Set::new(|v: usize| exists|i: nat| i < steps && bio_spec(tiles_after(t, rn, cn, i)) == v)) by {
                    assert forall|v: usize| seen@.contains(v) implies exists|i: nat| i < steps && bio_spec(tiles_after(t, rn, cn, i)) == v by {
                        if v == rating {
                            assert(bio_spec(tiles_after(t, rn, cn, (steps - 1) as nat)) == v);
                        }
                    }
                }
            }
        }
    }
}

/// Builds an area from its rows.
pub struct AreaBuilder {
    tiles: Vec<TileType>,
    row_n: usize,
    col_n: Option<usize>,
}

impl AreaBuilder {
    pub closed spec fn tiles_spec(&self) -> Seq<TileType> {
        self.tiles@
    }

    pub closed spec fn row_n_spec(&self) -> usize {
        self.row_n
    }

    pub closed spec fn col_n_spec(&self) -> Option<usize> {
        self.col_n
    }

    pub fn new() -> (res: Self)
        ensures
            res.tiles_spec().len() == 0,
            res.row_n_spec() == 0,
            res.col_n_spec() is None,
    {
        Self { tiles: Vec::new(), row_n: 0, col_n: None }
    }

    /// Adds a row of tile characters. The first row fixes the length of the
    /// rows; a row of another length, or a character that is no tile, is an
    /// error. The tiles before a bad character stay added.
    pub fn push_row(&mut self, row_str: &str) -> (res: Result<(), Error>)
        requires
            old(self).row_n_spec() < usize::MAX,
        ensures
            ({
                let len = row_str.len();
                let expect = match old(self).col_n_spec() {
                    Some(n) => n as int,
                    None => len as int,
                };
                &&& final(self).col_n_spec() == Some(expect as usize)
                &&& expect != len ==> {
                    &&& res matches Err(Error::InconsistentRowInArea(a, b)) && a == len && b == expect
                    &&& final(self).tiles_spec() == old(self).tiles_spec()
                    &&& final(self).row_n_spec() == old(self).row_n_spec()
                }
                &&& expect == len && (forall|k: int| 0 <= k < row_str@.len() ==> row_str@[k] == '.' || row_str@[k] == '#') ==> {
                    &&& res is Ok
                    &&& final(self).tiles_spec() == old(self).tiles_spec() + tiles_of(row_str@)
                    &&& final(self).row_n_spec() == old(self).row_n_spec() + 1
                }
                &&& expect == len && !(forall|k: int| 0 <= k < row_str@.len() ==> row_str@[k] == '.' || row_str@[k] == '#') ==> {
                    let bad = choose|k: int| 0 <= k < row_str@.len() && row_str@[k] != '.' && row_str@[k] != '#'
                        && forall|j: int| 0 <= j < k ==> row_str@[j] == '.' || row_str@[j] == '#';
                    &&& res matches Err(Error::InvalidTileTypeChar(ch)) && ch == row_str@[bad]
                    &&& final(self).tiles_spec() == old(self).tiles_spec() + tiles_of(row_str@.subrange(0, bad))
                    &&& final(self).row_n_spec() == old(self).row_n_spec()
                }
            }),
    {
        let this_row_n = row_str.len();
        let expect = match self.col_n {
            Some(n) => n,
            None => this_row_n,
        };
        self.col_n = Some(expect);
        if expect != this_row_n {
            return Err(Error::InconsistentRowInArea(this_row_n, expect));
        }
        let ghost start = self.tiles@;
        let m = row_str.unicode_len();
        let mut k: usize = 0;
        while k < m
            invariant
                k <= m,
                m == row_str@.len(),
                self.row_n == old(self).row_n,
                self.col_n == Some(expect),
                forall|j: int| 0 <= j < k ==> row_str@[j] == '.' || row_str@[j] == '#',
                start == old(self).tiles@,
                this_row_n == row_str.len(),
                expect == this_row_n,
                expect == match old(self).col_n {
                    Some(n) => n,
                    None => this_row_n,
                },
                self.tiles@ == start + tiles_of(row_str@.subrange(0, k as int)),
            decreases m - k,
        {
            let ch = row_str.get_char(k);
            match TileType::from_char(ch) {
                Ok(tt) => {
                    self.tiles.push(tt);
                    proof {
                        assert(tiles_of(row_str@.subrange(0, k + 1)) =~= tiles_of(row_str@.subrange(0, k as int)).push(tile_of(ch)));
                        assert(start + tiles_of(row_str@.subrange(0, k + 1)) =~= (start + tiles_of(row_str@.subrange(0, k as int))).push(tt));
                    }
                },
                Err(e) => {
                    proof {
                        let bad = choose|k: int| 0 <= k < row_str@.len() && row_str@[k] != '.' && row_str@[k] != '#'
                            && forall|j: int| 0 <= j < k ==> row_str@[j] == '.' || row_str@[j] == '#';
                        assert(0 <= k < row_str@.len() && row_str@[k as int] != '.' && row_str@[k as int] != '#'
                            && forall|j: int| 0 <= j < k ==> row_str@[j] == '.' || row_str@[j] == '#');
                        if bad < k {
                        } else if bad > k {
                            assert(row_str@[k as int] == '.' || row_str@[k as int] == '#');
                        }
                        assert(bad == k);
                        assert(self.tiles@ == old(self).tiles@ + tiles_of(row_str@.subrange(0, bad)));
                        assert(e matches Error::InvalidTileTypeChar(c) && c == row_str@[bad]);
                        assert(self.row_n == old(self).row_n);
                        assert(!(forall|k: int| 0 <= k < row_str@.len() ==> row_str@[k] == '.' || row_str@[k] == '#'));
                    }
                    return Err(e);
                },
            }
            k = k + 1;
        }
        proof {
            assert(row_str@.subrange(0, m as int) =~= row_str@);
        }
        self.row_n = self.row_n + 1;
        Ok(())
    }

    /// The area of the rows pushed so far; an error when it has more tiles
    /// than a rating can count.
    pub fn build(self) -> (res: Result<Area, Error>)
        requires
            self.tiles_spec().len() == self.row_n_spec() * match self.col_n_spec() {
                Some(n) => n as int,
                None => 0,
            },
        ensures
            self.tiles_spec().len() > usize::BITS ==> (res matches Err(Error::OverflowedArea(n)) && n == self.tiles_spec().len()),
            self.tiles_spec().len() <= usize::BITS ==> (res matches Ok(area) && area.wf()
                && area.buffer().tiles_spec() == self.tiles_spec()
                && area.buffer().row_n_spec() == self.row_n_spec()
                && area.buffer().col_n_spec() == match self.col_n_spec() {
                    Some(n) => n,
                    None => 0,
                }),
    {
        let tiles_n = self.tiles.len();
        if tiles_n > usize::BITS as usize {
            return Err(Error::OverflowedArea(tiles_n));
        }
        let col_n = match self.col_n {
            Some(n) => n,
            None => 0,
        };
        let back_tiles = copy_tiles(&self.tiles);
        let buffer = AreaBuffer { tiles: self.tiles, row_n: self.row_n, col_n };
        let back = AreaBuffer { tiles: back_tiles, row_n: self.row_n, col_n };
        Ok(Area { cur: buffer, back })
    }
}

/// A copy of a list of tiles.
fn copy_tiles(tiles: &Vec<TileType>) -> (res: Vec<TileType>)
    ensures
        res@ == tiles@,
{
    let mut res: Vec<TileType> = Vec::new();
    let mut i: usize = 0;
    while i < tiles.len()
        invariant
            i <= tiles.len(),
            res@ == tiles@.subrange(0, i as int),
        decreases tiles.len() - i,
    {
        res.push(tiles[i]);
        i = i + 1;
        proof {
            assert(tiles@.subrange(0, i as int) =~= tiles@.subrange(0, i - 1).push(tiles@[i - 1]));
        }
    }
    res
}

} // verus!
