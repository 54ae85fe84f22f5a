//! A cave whose regions are rocky, wet or narrow, and the fastest way through
//! it with a climbing gear, a torch or no tool.

use vstd::prelude::*;
use crate::text::{caps_view, group_int, group_int_spec, regex_captures, regex_captures_spec};

verus! {

/// Errors met while loading a cave or planning a way through it.
#[derive(Debug)]
pub enum Error {
    /// The input gave no depth.
    NoDepthInInput,
    /// The input gave no target.
    NoTargetInInput,
    /// No plan reaches this player state.
    UnreachableTarget(Player),
}

/// A region of the cave: its row and its column.
#[derive(Debug, Clone, Copy, PartialEq, Eq, Hash, Structural)]
pub struct Position {
    pub r: usize,
    pub c: usize,
}

impl Position {
    pub fn new(r: usize, c: usize) -> (res: Position)
        ensures
            res == (Position { r, c }),
    {
        Position { r, c }
    }

    /// The region above, if there is a row above.
    pub fn up(&self) -> (res: Option<Position>)
        ensures
            res == (if self.r > 0 { Some(Position { r: (self.r - 1) as usize, c: self.c }) } else { None::<Position> }),
    {
        if self.r > 0 {
            Some(Position::new(self.r - 1, self.c))
        } else {
            None
        }
    }

    /// The region below.
    pub fn down(&self) -> (res: Position)
        requires
            self.r < usize::MAX,
        ensures
            res == (Position { r: (self.r + 1) as usize, c: self.c }),
    {
        Position { r: self.r + 1, c: self.c }
    }

    /// The region to the left, if there is a column to the left.
    pub fn left(&self) -> (res: Option<Position>)
        ensures
            res == (if self.c > 0 { Some(Position { r: self.r, c: (self.c - 1) as usize }) } else { None::<Position> }),
    {
        if self.c > 0 {
            Some(Position::new(self.r, self.c - 1))
        } else {
            None
        }
    }

    /// The region to the right.
    pub fn right(&self) -> (res: Position)
        requires
            self.c < usize::MAX,
        ensures
            res == (Position { r: self.r, c: (self.c + 1) as usize }),
    {
        Position { r: self.r, c: self.c + 1 }
    }
}

/// The depth of the cave and the region of the target.
#[derive(Debug, Clone, Copy)]
pub struct MapSetting {
    pub depth: usize,
    pub target: Position,
}

/// A line giving the depth.
pub const DEPTH_PATTERN: &'static str = r"depth:\s+(\d+)";

/// A line giving the target: its column, then its row.
pub const TARGET_PATTERN: &'static str = r"target:\s+(\d+),\s*(\d+)";

/// The depth that the lines give: the last line that the depth pattern
/// matches decides, and gives none where its number is beyond `usize`.
pub open spec fn depth_after(lines: Seq<Seq<char>>) -> Option<int>
    decreases lines.len(),
{
    if lines.len() == 0 {
        None
    } else {
        match regex_captures_spec(DEPTH_PATTERN@, lines.last()) {
            Some(c) => group_int_spec(c, 1, 0, usize::MAX as int),
            None => depth_after(lines.drop_last()),
        }
    }
}

/// The target that the lines give, as (row, column): the last line that
/// the target pattern matches decides, and gives none where a number is
/// beyond `usize`.
pub open spec fn target_after(lines: Seq<Seq<char>>) -> Option<(int, int)>
    decreases lines.len(),
{
    if lines.len() == 0 {
        None
    } else {
        match regex_captures_spec(TARGET_PATTERN@, lines.last()) {
            Some(c) => match (group_int_spec(c, 1, 0, usize::MAX as int), group_int_spec(c, 2, 0, usize::MAX as int)) {
                (Some(col), Some(row)) => Some((row, col)),
                _ => None,
            },
            None => target_after(lines.drop_last()),
        }
    }
}

/// The lines as character sequences.
pub open spec fn lines_view(lines: Seq<String>) -> Seq<Seq<char>> {
    Seq::new(lines.len(), |i: int| lines[i]@)
}

impl MapSetting {
    /// The depth that the groups of a match of the depth pattern give; none
    /// where the number is beyond `usize`.
    pub fn depth_from_captures(caps: &Vec<Option<String>>) -> (res: Option<usize>)
        ensures
            match group_int_spec(caps_view(caps@), 1, 0, usize::MAX as int) {
                Some(d) => res == Some(d as usize),
                None => res is None,
            },
    {
        match group_int(caps, 1, 0, usize::MAX as i128) {
            Some(d) => Some(d as usize),
            None => None,
        }
    }

    /// The target, column then row, that the groups of a match of the target
    /// pattern give; none where a number is beyond `usize`.
    pub fn target_from_captures(caps: &Vec<Option<String>>) -> (res: Option<Position>)
        ensures
            match (group_int_spec(caps_view(caps@), 1, 0, usize::MAX as int), group_int_spec(caps_view(caps@), 2, 0, usize::MAX as int)) {
                (Some(c), Some(r)) => res == Some(Position { r: r as usize, c: c as usize }),
                _ => res is None,
            },
    {
        match (group_int(caps, 1, 0, usize::MAX as i128), group_int(caps, 2, 0, usize::MAX as i128)) {
            (Some(c), Some(r)) => Some(Position::new(r as usize, c as usize)),
            _ => None,
        }
    }

    /// Reads the depth and the target from the lines of the input.
    pub fn try_from(value: &[String]) -> (res: Result<MapSetting, Error>)
        ensures
            match (depth_after(lines_view(value@)), target_after(lines_view(value@))) {
                (None, _) => res matches Err(Error::NoDepthInInput),
                (Some(_), None) => res matches Err(Error::NoTargetInInput),
                (Some(d), Some((r, c))) => res matches Ok(m) && m.depth == d && m.target.r == r && m.target.c == c,
            },
    {
        let mut depth: Option<usize> = None;
        let mut target: Option<Position> = None;
        let mut i: usize = 0;
        while i < value.len()
            invariant
                i <= value@.len(),
                depth_after(lines_view(value@.take(i as int))) == match depth {
                    Some(d) => Some(d as int),
                    None => None::<int>,
                },
                target_after(lines_view(value@.take(i as int))) == match target {
                    Some(p) => Some((p.r as int, p.c as int)),
                    None => None::<(int, int)>,
                },
            decreases value.len() - i,
        {
            proof {
                assert(lines_view(value@.take(i + 1)).drop_last() =~= lines_view(value@.take(i as int)));
                assert(lines_view(value@.take(i + 1)).last() == value@[i as int]@);
            }
            let s = &value[i];
            if let Some(caps) = regex_captures(DEPTH_PATTERN, s.as_str()) {
                depth = Self::depth_from_captures(&caps);
            }
            if let Some(caps) = regex_captures(TARGET_PATTERN, s.as_str()) {
                target = Self::target_from_captures(&caps);
            }
            i = i + 1;
        }
        proof {
            assert(value@.take(i as int) =~= value@);
        }
        let depth = match depth {
            Some(d) => d,
            None => return Err(Error::NoDepthInInput),
        };
        let target = match target {
            Some(t) => t,
            None => return Err(Error::NoTargetInInput),
        };
        Ok(MapSetting { depth, target })
    }
}

/// The type of a region.
#[derive(Debug, Clone, Copy, PartialEq, Eq, Hash, Structural)]
pub enum CaveBlock {
    Rocky,
    Wet,
    Narrow,
}

impl CaveBlock {
    /// Risk level of the region type: 0, 1 or 2.
    pub fn risk(&self) -> (res: usize)
        ensures
            res == (match *self {
                CaveBlock::Rocky => 0usize,
                CaveBlock::Wet => 1usize,
                CaveBlock::Narrow => 2usize,
            }),
    {
        match self {
            CaveBlock::Rocky => 0,
            CaveBlock::Wet => 1,
            CaveBlock::Narrow => 2,
        }
    }
}

/// Erosion level of region `(r, c)`: its geologic index plus the depth,
/// modulo 20183. The geologic index is zero at the mouth and at the target,
/// `c * 16807` on the top row, `r * 48271` on the left column, and otherwise
/// the product of the erosion levels above and to the left.
#[verifier::opaque]
pub open spec fn erosion(s: MapSetting, r: nat, c: nat) -> nat
    decreases r + c,
{
    let geo: nat = if (r == 0 && c == 0) || (r == s.target.r && c == s.target.c) {
        0
    } else if r == 0 {
        c * 16807
    } else if c == 0 {
        r * 48271
    } else {
        erosion(s, (r - 1) as nat, c) * erosion(s, r, (c - 1) as nat)
    };
    ((geo + s.depth) % 20183) as nat
}

/// The type of a region with a given erosion level.
pub open spec fn block_of_erosion(e: nat) -> CaveBlock {
    if e % 3 == 0 {
        CaveBlock::Rocky
    } else if e % 3 == 1 {
        CaveBlock::Wet
    } else {
        CaveBlock::Narrow
    }
}

/// The type of region `(r, c)`.
pub open spec fn block_at(s: MapSetting, r: nat, c: nat) -> CaveBlock {
    block_of_erosion(erosion(s, r, c))
}

/// Whether the erosion levels of every region up to `(r, c)` can be
/// computed without leaving `usize`.
pub open spec fn computable(s: MapSetting, r: int, c: int) -> bool {
    &&& 0 <= r && 0 <= c
    &&& c * 16807 + s.depth <= usize::MAX
    &&& r * 48271 + s.depth <= usize::MAX
    &&& 20183 * 20183 + s.depth <= usize::MAX
}

/// The cave, with the regions computed so far: a staircase of rows, each row
/// no longer than the one above it.
pub struct CaveMap {
    setting: MapSetting,
    blocks: Vec<Vec<CaveBlock>>,
    erosion_levels: Vec<Vec<usize>>,
}

impl CaveMap {
    /// The computed regions agree with the setting.
    #[verifier::opaque]
    pub closed spec fn wf(&self) -> bool {
        &&& self.blocks.len() == self.erosion_levels.len()
        &&& forall|r: int| 0 <= r < self.blocks.len() ==> #[trigger] self.blocks[r].len() == self.erosion_levels[r].len()
        &&& forall|r: int| 0 <= r < self.blocks.len() - 1 ==> self.erosion_levels[r + 1].len() <= #[trigger] self.erosion_levels[r].len()
        &&& forall|r: int, c: int| 0 <= r < self.blocks.len() && 0 <= c < self.erosion_levels[r].len() ==> {
            &&& #[trigger] self.erosion_levels[r][c] == erosion(self.setting, r as nat, c as nat)
            &&& self.blocks[r][c] == block_of_erosion(self.erosion_levels[r][c] as nat)
        }
    }

    /// The setting that the cave was made with.
    pub closed spec fn setting(&self) -> MapSetting {
        self.setting
    }

    /// A cave with the given setting and no region computed yet.
    pub fn new(setting: &MapSetting) -> (res: CaveMap)
        ensures
            res.wf(),
            res.setting() == *setting,
    {
        let res = CaveMap { setting: *setting, blocks: Vec::new(), erosion_levels: Vec::new() };
        proof {
            reveal(CaveMap::wf);
        }
        res
    }

    /// The type of the region at `pos`, computing regions as needed.
    pub fn at(&mut self, pos: &Position) -> (res: CaveBlock)
        requires
            old(self).wf(),
            computable(old(self).setting(), pos.r as int, pos.c as int),
        ensures
            final(self).wf(),
            res == block_at(old(self).setting(), pos.r as nat, pos.c as nat),
            final(self).setting() == old(self).setting(),
    {
        if pos.r >= self.row_count() || pos.c >= self.col_count(pos.r) {
            self.extend_to(pos);
        }
        assert(pos.r < self.blocks.len() && pos.c < self.blocks[pos.r as int].len()
            && self.blocks[pos.r as int][pos.c as int] == block_at(self.setting, pos.r as nat, pos.c as nat)) by {
            reveal(CaveMap::wf);
            assert(self.blocks[pos.r as int].len() == self.erosion_levels[pos.r as int].len());
            assert(self.erosion_levels[pos.r as int][pos.c as int] == erosion(self.setting, pos.r as nat, pos.c as nat));
        }
        self.blocks[pos.r][pos.c]
    }

    /// Number of rows computed so far.
    fn row_count(&self) -> (res: usize)
        ensures
            res == self.blocks.len(),
    {
        self.blocks.len()
    }

    /// Number of regions computed so far in row `r`.
    fn col_count(&self, r: usize) -> (res: usize)
        ensures
            r >= self.blocks.len() ==> res == 0,
            r < self.blocks.len() ==> res == self.blocks[r as int].len(),
    {
        if r >= self.row_count() {
            0
        } else {
            self.blocks[r].len()
        }
    }

    /// Computes every region up to `pos`.
    #[verifier::rlimit(60)]
    fn extend_to(&mut self, pos: &Position)
        requires
            old(self).wf(),
            computable(old(self).setting(), pos.r as int, pos.c as int),
        ensures
            final(self).wf(),
            final(self).setting() == old(self).setting(),
            pos.r < final(self).blocks.len(),
            pos.c < final(self).blocks[pos.r as int].len(),
    {
        let mut beg_r = pos.r;
        while self.col_count(beg_r) <= pos.c && beg_r > 0
            invariant
                beg_r <= pos.r,
            decreases beg_r,
        {
            beg_r = beg_r - 1;
        }
        proof {
            self.lemma_row_lens(beg_r as int);
        }
        if beg_r > 0 {
            beg_r = beg_r + 1;
        }
        proof {
            assert(pos.r * 48271 <= usize::MAX);
        }
        let mut r = beg_r;
        while r <= pos.r
            invariant
                beg_r <= r <= pos.r + 1,
                pos.r < usize::MAX,
                self.wf(),
                self.setting == old(self).setting,
                computable(self.setting, pos.r as int, pos.c as int),
                r <= self.blocks.len(),
                r > 0 ==> self.erosion_levels[r - 1].len() > pos.c,
            decreases pos.r + 1 - r,
        {
            proof {
                assert(r * 48271 <= pos.r * 48271) by (nonlinear_arith)
                    requires r <= pos.r;
            }
            self.extend_row_to(r, pos.c);
            r = r + 1;
        }
        proof {
            self.lemma_row_lens(pos.r as int);
        }
    }

    proof fn lemma_row_lens(&self, r: int)
        requires
            self.wf(),
        ensures
            self.blocks.len() == self.erosion_levels.len(),
            0 <= r < self.blocks.len() ==> self.blocks[r].len() == self.erosion_levels[r].len(),
    {
        reveal(CaveMap::wf);
    }

    /// Computes row `r` up to column `c`; the row must exist already or be
    /// the next one, and the row above must reach column `c`.
    fn extend_row_to(&mut self, r: usize, c: usize)
        requires
            old(self).wf(),
            r <= old(self).blocks.len(),
            r > 0 ==> old(self).erosion_levels[r - 1].len() > c,
            computable(old(self).setting(), r as int, c as int),
        ensures
            final(self).wf(),
            final(self).setting == old(self).setting,
            final(self).blocks.len() == if r == old(self).blocks.len() { r + 1 } else { old(self).blocks.len() as int },
            final(self).erosion_levels[r as int].len() == if r < old(self).blocks.len() && old(
                self,
            ).erosion_levels[r as int].len() > c {
                old(self).erosion_levels[r as int].len() as int
            } else {
                c + 1
            },
            forall|rr: int| 0 <= rr < old(self).blocks.len() && rr != r ==> #[trigger] final(self).erosion_levels[rr].len()
                == old(self).erosion_levels[rr].len(),
    {
        proof {
            reveal(CaveMap::wf);
            reveal(erosion);
        }
        if r == self.row_count() {
            self.blocks.push(Vec::new());
            self.erosion_levels.push(Vec::new());
        }
        let ghost s = self.setting;
        let ghost mid = *self;
        assert(self.blocks[r as int].len() == self.erosion_levels[r as int].len());
        let mut ero_row = self.erosion_levels[r].clone();
        let mut blk_row = self.blocks[r].clone();
        assert(ero_row@ =~= self.erosion_levels[r as int]@);
        assert(blk_row@ =~= self.blocks[r as int]@);
        let beg_c = ero_row.len();
        let mut cc = beg_c;
        while cc <= c
            invariant
                *self == mid,
                r < self.blocks.len(),
                self.setting == s,
                self.blocks.len() == self.erosion_levels.len(),
                computable(s, r as int, c as int),
                r > 0 ==> self.erosion_levels[r - 1].len() > c,
                r > 0 ==> forall|c2: int| 0 <= c2 < self.erosion_levels[r - 1].len() ==>
                    #[trigger] self.erosion_levels[r - 1][c2] == erosion(s, (r - 1) as nat, c2 as nat),
                ero_row.len() == blk_row.len(),
                ero_row.len() == cc,
                beg_c <= cc,
                cc <= c + 1 || cc == beg_c,
                forall|c2: int| 0 <= c2 < ero_row.len() ==> {
                    &&& #[trigger] ero_row[c2] == erosion(s, r as nat, c2 as nat)
                    &&& blk_row[c2] == block_of_erosion(ero_row[c2] as nat)
                },
            decreases c + 1 - cc,
        {
            proof {
                reveal(erosion);
                assert(cc * 16807 <= c * 16807) by (nonlinear_arith)
                    requires cc <= c;
            }
            let geo_ind: usize = if (r == 0 && cc == 0) || (r == self.setting.target.r && cc == self.setting.target.c) {
                0
            } else if r == 0 {
                cc * 16807
            } else if cc == 0 {
                r * 48271
            } else {
                let up = self.erosion_levels[r - 1][cc];
                let left = ero_row[cc - 1];
                proof {
                    assert(up * left <= 20183 * 20183) by (nonlinear_arith)
                        requires up < 20183, left < 20183;
                }
                up * left
            };
            let ero_level = (geo_ind + self.setting.depth) % 20183;
            let blk = if ero_level % 3 == 0 {
                CaveBlock::Rocky
            } else if ero_level % 3 == 1 {
                CaveBlock::Wet
            } else {
                CaveBlock::Narrow
            };
            ero_row.push(ero_level);
            blk_row.push(blk);
            cc = cc + 1;
        }
        self.erosion_levels.set(r, ero_row);
        self.blocks.set(r, blk_row);
        proof {
            assert forall|rr: int| 0 <= rr < self.blocks.len() - 1 implies self.erosion_levels[rr + 1].len() <= #[trigger] self.erosion_levels[rr].len() by {
                if rr + 1 == r {
                } else if rr == r {
                    assert(mid.erosion_levels[rr + 1].len() <= mid.erosion_levels[rr].len() || rr + 1 == old(self).blocks.len());
                } else {
                    assert(mid.erosion_levels[rr + 1].len() <= mid.erosion_levels[rr].len() || rr + 1 == old(self).blocks.len());
                }
            }
            assert forall|rr: int| 0 <= rr < self.blocks.len() implies #[trigger] self.blocks[rr].len() == self.erosion_levels[rr].len() by {
                if rr != r {
                    assert(mid.blocks[rr].len() == mid.erosion_levels[rr].len());
                }
            }
            assert forall|rr: int, c2: int| 0 <= rr < self.blocks.len() && 0 <= c2 < self.erosion_levels[rr].len() implies {
                &&& #[trigger] self.erosion_levels[rr][c2] == erosion(self.setting, rr as nat, c2 as nat)
                &&& self.blocks[rr][c2] == block_of_erosion(self.erosion_levels[rr][c2] as nat)
            } by {
                if rr != r {
                    assert(mid.erosion_levels[rr][c2] == erosion(s, rr as nat, c2 as nat));
                }
            }
        }
    }
}

/// A tool that can be held.
#[derive(Debug, Clone, Copy, PartialEq, Eq, Hash, Structural)]
pub enum Tool {
    ClimbingGear,
    Torch,
    Nothing,
}

/// Whether `tool` may be used in a region of type `block`: no tool in rocky
/// regions, no torch in wet ones, no climbing gear in narrow ones.
pub open spec fn tool_valid(tool: Tool, block: CaveBlock) -> bool {
    match block {
        CaveBlock::Rocky => tool != Tool::Nothing,
        CaveBlock::Wet => tool != Tool::Torch,
        CaveBlock::Narrow => tool != Tool::ClimbingGear,
    }
}

impl Tool {
    /// Whether this tool may be used in a region of type `block`.
    pub fn is_valid_in(self, block: CaveBlock) -> (res: bool)
        ensures
            res == tool_valid(self, block),
    {
        match block {
            CaveBlock::Rocky => !(self == Tool::Nothing),
            CaveBlock::Wet => !(self == Tool::Torch),
            CaveBlock::Narrow => !(self == Tool::ClimbingGear),
        }
    }
}

/// Where the explorer is and the tool it holds.
#[derive(Debug, Clone, Copy, PartialEq, Eq, Hash, Structural)]
pub struct Player {
    pub pos: Position,
    pub equip: Tool,
}

/// A move to a neighbouring region, or a switch of tool.
#[allow(inconsistent_fields)]
#[derive(Debug, Clone, Copy, PartialEq, Eq, Structural)]
pub enum Action {
    Move { from: Position, to: Position },
    Switch { from: Tool, to: Tool },
}

impl Action {
    /// Minutes the action takes: one to move, seven to switch.
    pub fn cost(&self) -> (res: usize)
        ensures
            res == (match *self {
                Action::Move { .. } => 1usize,
                Action::Switch { .. } => 7usize,
            }),
    {
        match self {
            Action::Move { .. } => 1,
            Action::Switch { .. } => 7,
        }
    }
}

/// The state after `action` from `p`.
pub open spec fn perform_spec(p: Player, action: Action) -> Player {
    match action {
        Action::Move { from, to } => Player { pos: to, equip: p.equip },
        Action::Switch { from, to } => Player { pos: p.pos, equip: to },
    }
}

/// Whether `action` may be performed by `p`.
pub open spec fn action_from(p: Player, action: Action) -> bool {
    match action {
        Action::Move { from, to } => from == p.pos,
        Action::Switch { from, to } => from == p.equip,
    }
}

/// A switch from the held tool to `t`, if `t` differs and is valid in `b`.
pub open spec fn switch_if(p: Player, t: Tool, b: CaveBlock) -> Seq<Action> {
    if t != p.equip && tool_valid(t, b) {
        seq![Action::Switch { from: p.equip, to: t }]
    } else {
        Seq::empty()
    }
}

/// A move to `q`, if `q` exists and the held tool is valid there.
pub open spec fn move_if(s: MapSetting, p: Player, exists: bool, q: Position) -> Seq<Action> {
    if exists && tool_valid(p.equip, block_at(s, q.r as nat, q.c as nat)) {
        seq![Action::Move { from: p.pos, to: q }]
    } else {
        Seq::empty()
    }
}

/// The switches to the other tools valid in the current region, in the order
/// climbing gear, torch, no tool.
pub open spec fn switch_actions(s: MapSetting, p: Player) -> Seq<Action> {
    let b = block_at(s, p.pos.r as nat, p.pos.c as nat);
    switch_if(p, Tool::ClimbingGear, b) + switch_if(p, Tool::Torch, b) + switch_if(p, Tool::Nothing, b)
}

/// The moves to neighbouring regions where the held tool is valid, in the
/// order up, down, left, right.
pub open spec fn move_actions(s: MapSetting, p: Player) -> Seq<Action> {
    move_if(s, p, p.pos.r > 0, Position { r: (p.pos.r - 1) as usize, c: p.pos.c })
        + move_if(s, p, true, Position { r: (p.pos.r + 1) as usize, c: p.pos.c })
        + move_if(s, p, p.pos.c > 0, Position { r: p.pos.r, c: (p.pos.c - 1) as usize })
        + move_if(s, p, true, Position { r: p.pos.r, c: (p.pos.c + 1) as usize })
}

/// Every action open to `p`: the switches, then the moves.
pub open spec fn next_actions_spec(s: MapSetting, p: Player) -> Seq<Action> {
    switch_actions(s, p) + move_actions(s, p)
}

impl Player {
    pub fn new(pos: &Position, tool: Tool) -> (res: Player)
        ensures
            res == (Player { pos: *pos, equip: tool }),
    {
        Player { pos: *pos, equip: tool }
    }

    /// Every action open to this player in `map`: switches to the other tools
    /// valid in the current region, then moves (up, down, left, right) to
    /// regions where the held tool is valid.
    #[verifier::rlimit(60)]
    #[verifier::spinoff_prover]
    pub fn next_actions(&self, map: &mut CaveMap) -> (res: Vec<Action>)
        requires
            old(map).wf(),
            computable(old(map).setting(), self.pos.r + 1, self.pos.c + 1),
        ensures
            final(map).wf(),
            final(map).setting() == old(map).setting(),
            res@ == next_actions_spec(old(map).setting(), *self),
    {
        let ghost s = map.setting();
        let mut actions: Vec<Action> = Vec::new();
        let cur = map.at(&self.pos);
        self.push_switch(&mut actions, Tool::ClimbingGear, cur);
        self.push_switch(&mut actions, Tool::Torch, cur);
        self.push_switch(&mut actions, Tool::Nothing, cur);
        let ghost sw = actions@;
        assert(sw =~= switch_actions(s, *self));
        let ghost q0 = Position { r: (self.pos.r - 1) as usize, c: self.pos.c };
        if self.pos.r > 0 {
            self.push_move(&mut actions, map, true, Position::new(self.pos.r - 1, self.pos.c));
        }
        let ghost m0 = actions@;
        assert(m0 =~= sw + move_if(s, *self, self.pos.r > 0, q0));
        self.push_move(&mut actions, map, true, self.pos.down());
        let ghost m1 = actions@;
        let ghost q2 = Position { r: self.pos.r, c: (self.pos.c - 1) as usize };
        if self.pos.c > 0 {
            self.push_move(&mut actions, map, true, Position::new(self.pos.r, self.pos.c - 1));
        }
        let ghost m2 = actions@;
        assert(m2 =~= m1 + move_if(s, *self, self.pos.c > 0, q2));
        self.push_move(&mut actions, map, true, self.pos.right());
        assert(actions@ =~= switch_actions(s, *self) + move_actions(s, *self));
        actions
    }

    fn push_switch(&self, actions: &mut Vec<Action>, t: Tool, b: CaveBlock)
        ensures
            final(actions)@ == old(actions)@ + switch_if(*self, t, b),
    {
        if !(t == self.equip) && t.is_valid_in(b) {
            actions.push(Action::Switch { from: self.equip, to: t });
        } else {
            assert(old(actions)@ + switch_if(*self, t, b) =~= old(actions)@);
        }
    }

    fn push_move(&self, actions: &mut Vec<Action>, map: &mut CaveMap, exists: bool, q: Position)
        requires
            old(map).wf(),
            exists,
            computable(old(map).setting(), q.r as int, q.c as int),
        ensures
            final(map).wf(),
            final(map).setting() == old(map).setting(),
            final(actions)@ == old(actions)@ + move_if(old(map).setting(), *self, exists, q),
    {
        let b = map.at(&q);
        if self.equip.is_valid_in(b) {
            actions.push(Action::Move { from: self.pos, to: q });
        } else {
            assert(old(actions)@ + move_if(old(map).setting(), *self, exists, q) =~= old(actions)@);
        }
    }

    /// The state after `action`, which must start from this state.
    pub fn perform(&self, action: &Action) -> (res: Player)
        requires
            action_from(*self, *action),
        ensures
            res == perform_spec(*self, *action),
    {
        match action {
            Action::Move { from, to } => Player { pos: *to, equip: self.equip },
            Action::Switch { from, to } => Player { pos: self.pos, equip: *to },
        }
    }
}

} // verus!

verus! {

/// How a state was first reached: from which state, by which action.
#[derive(Debug, Clone, Copy)]
pub struct ActionRecord {
    pub from_player: Player,
    pub action: Action,
}

/// A state waiting in the search, with the minutes spent to reach it.
#[derive(Debug, Clone, Copy)]
struct State {
    cost: usize,
    player: Player,
    record: ActionRecord,
}

/// Whether `plan`, performed from `p`, is a sequence of open actions that
/// ends at `q`.
pub open spec fn valid_plan(s: MapSetting, p: Player, plan: Seq<Action>, q: Player) -> bool
    decreases plan.len(),
{
    if plan.len() == 0 {
        p == q
    } else {
        &&& next_actions_spec(s, p).contains(plan[0])
        &&& valid_plan(s, perform_spec(p, plan[0]), plan.drop_first(), q)
    }
}

/// Rows and columns past which the search does not go.
pub open spec fn searchable(p: Player) -> bool {
    p.pos.r < 0x8000_0000 && p.pos.c < 0x8000_0000
}

pub open spec fn tool_index(t: Tool) -> int {
    match t {
        Tool::ClimbingGear => 0,
        Tool::Torch => 1,
        Tool::Nothing => 2,
    }
}

/// The key of a searchable state in the table of reached states.
pub open spec fn player_key(p: Player) -> int {
    (p.pos.r * 0x8000_0000 + p.pos.c) * 4 + tool_index(p.equip)
}

proof fn lemma_player_key(p: Player, q: Player)
    requires
        searchable(p),
        searchable(q),
    ensures
        0 <= player_key(p) <= u64::MAX,
        player_key(p) == player_key(q) ==> p == q,
{
    let a = p.pos.r as int;
    let b = p.pos.c as int;
    let x = q.pos.r as int;
    let y = q.pos.c as int;
    let t = tool_index(p.equip);
    let u = tool_index(q.equip);
    assert(0 <= (a * 0x8000_0000 + b) * 4 + t <= u64::MAX) by (nonlinear_arith)
        requires 0 <= a < 0x8000_0000, 0 <= b < 0x8000_0000, 0 <= t < 4;
    if player_key(p) == player_key(q) {
        assert(t == u && b == y && a == x) by (nonlinear_arith)
            requires
                (a * 0x8000_0000 + b) * 4 + t == (x * 0x8000_0000 + y) * 4 + u,
                0 <= a < 0x8000_0000, 0 <= b < 0x8000_0000, 0 <= t < 4,
                0 <= x < 0x8000_0000, 0 <= y < 0x8000_0000, 0 <= u < 4;
    }
}

fn key_of(p: &Player) -> (res: u64)
    requires
        searchable(*p),
    ensures
        res == player_key(*p),
{
    proof {
        lemma_player_key(*p, *p);
    }
    let t: u64 = match p.equip {
        Tool::ClimbingGear => 0,
        Tool::Torch => 1,
        Tool::Nothing => 2,
    };
    ((p.pos.r as u64) * 0x8000_0000 + (p.pos.c as u64)) * 4 + t
}

fn is_searchable(p: &Player) -> (res: bool)
    ensures
        res == searchable(*p),
{
    p.pos.r < 0x8000_0000 && p.pos.c < 0x8000_0000
}

/// Whether the actions of a player at `pos` can be listed.
fn expandable(s: &MapSetting, pos: &Position) -> (res: bool)
    ensures
        res == computable(*s, pos.r + 1, pos.c + 1),
{
    if pos.r >= usize::MAX / 48271 || pos.c >= usize::MAX / 16807 {
        return false;
    }
    let r1 = (pos.r + 1) * 48271;
    let c1 = (pos.c + 1) * 16807;
    r1 <= usize::MAX - s.depth && c1 <= usize::MAX - s.depth && 20183 * 20183 <= usize::MAX - s.depth
}

spec fn all_from(p: Player, acts: Seq<Action>) -> bool {
    forall|j: int| 0 <= j < acts.len() ==> action_from(p, #[trigger] acts[j])
}

proof fn lemma_all_from_concat(p: Player, a: Seq<Action>, b: Seq<Action>)
    requires
        all_from(p, a),
        all_from(p, b),
    ensures
        all_from(p, a + b),
{
    assert forall|j: int| 0 <= j < (a + b).len() implies action_from(p, #[trigger] (a + b)[j]) by {
        if j < a.len() {
            assert((a + b)[j] == a[j]);
        } else {
            assert((a + b)[j] == b[j - a.len()]);
        }
    }
}

proof fn lemma_next_actions_from(s: MapSetting, p: Player, a: Action)
    requires
        next_actions_spec(s, p).contains(a),
    ensures
        action_from(p, a),
{
    let b = block_at(s, p.pos.r as nat, p.pos.c as nat);
    let s1 = switch_if(p, Tool::ClimbingGear, b);
    let s2 = switch_if(p, Tool::Torch, b);
    let s3 = switch_if(p, Tool::Nothing, b);
    assert(all_from(p, s1));
    assert(all_from(p, s2));
    assert(all_from(p, s3));
    lemma_all_from_concat(p, s1, s2);
    lemma_all_from_concat(p, s1 + s2, s3);
    let m1 = move_if(s, p, p.pos.r > 0, Position { r: (p.pos.r - 1) as usize, c: p.pos.c });
    let m2 = move_if(s, p, true, Position { r: (p.pos.r + 1) as usize, c: p.pos.c });
    let m3 = move_if(s, p, p.pos.c > 0, Position { r: p.pos.r, c: (p.pos.c - 1) as usize });
    let m4 = move_if(s, p, true, Position { r: p.pos.r, c: (p.pos.c + 1) as usize });
    assert(all_from(p, m1));
    assert(all_from(p, m2));
    assert(all_from(p, m3));
    assert(all_from(p, m4));
    lemma_all_from_concat(p, m1, m2);
    lemma_all_from_concat(p, m1 + m2, m3);
    lemma_all_from_concat(p, m1 + m2 + m3, m4);
    lemma_all_from_concat(p, s1 + s2 + s3, m1 + m2 + m3 + m4);
    let all = next_actions_spec(s, p);
    assert(all == (s1 + s2 + s3) + (m1 + m2 + m3 + m4));
    let i = choose|i: int| 0 <= i < all.len() && all[i] == a;
    assert(action_from(p, all[i]));
}

} // verus!

verus! {

/// The table of reached states is consistent: each entry is stored under
/// the key of its state, and each state other than `init` was reached by an
/// open action from a state reached earlier.
spec fn records_ok(
    s: MapSetting,
    init: Player,
    rec: Map<u64, (Player, ActionRecord)>,
    rank: Map<u64, nat>,
) -> bool {
    &&& rank.dom() == rec.dom()
    &&& forall|k: u64| #[trigger] rec.contains_key(k) ==> {
        let (p, r) = rec[k];
        &&& searchable(p)
        &&& player_key(p) == k
        &&& p != init ==> {
            &&& searchable(r.from_player)
            &&& rec.contains_key(player_key(r.from_player) as u64)
            &&& rec[player_key(r.from_player) as u64].0 == r.from_player
            &&& rank[player_key(r.from_player) as u64] < rank[k]
            &&& next_actions_spec(s, r.from_player).contains(r.action)
            &&& perform_spec(r.from_player, r.action) == p
        }
    }
}

/// A waiting state is consistent with the table.
spec fn state_ok(
    s: MapSetting,
    init: Player,
    rec: Map<u64, (Player, ActionRecord)>,
    st: State,
    cost: int,
) -> bool {
    &&& st.cost == cost
    &&& searchable(st.player)
    &&& st.player != init ==> {
        &&& searchable(st.record.from_player)
        &&& rec.contains_key(player_key(st.record.from_player) as u64)
        &&& rec[player_key(st.record.from_player) as u64].0 == st.record.from_player
        &&& next_actions_spec(s, st.record.from_player).contains(st.record.action)
        &&& perform_spec(st.record.from_player, st.record.action) == st.player
    }
}

proof fn lemma_valid_plan_prepend(s: MapSetting, p: Player, a: Action, plan: Seq<Action>, q: Player)
    requires
        next_actions_spec(s, p).contains(a),
        valid_plan(s, perform_spec(p, a), plan, q),
    ensures
        valid_plan(s, p, seq![a] + plan, q),
{
    assert((seq![a] + plan).drop_first() =~= plan);
}

/// Minutes an action takes: one to move, seven to switch.
pub open spec fn action_cost(a: Action) -> int {
    match a {
        Action::Move { .. } => 1,
        Action::Switch { .. } => 7,
    }
}

/// Minutes a plan takes.
pub open spec fn plan_cost(plan: Seq<Action>) -> int
    decreases plan.len(),
{
    if plan.len() == 0 {
        0
    } else {
        action_cost(plan[0]) + plan_cost(plan.drop_first())
    }
}

/// Whether every state that `plan` passes from `p`, the last aside, lies
/// where the search can look: row and column below 2^31, with the levels of
/// the regions next to it computable.
pub open spec fn plan_in_reach(s: MapSetting, p: Player, plan: Seq<Action>) -> bool
    decreases plan.len(),
{
    if plan.len() == 0 {
        true
    } else {
        &&& searchable(p)
        &&& computable(s, p.pos.r + 1, p.pos.c + 1)
        &&& plan_in_reach(s, perform_spec(p, plan[0]), plan.drop_first())
    }
}

proof fn lemma_plan_cost_nonneg(plan: Seq<Action>)
    ensures
        plan_cost(plan) >= 0,
    decreases plan.len(),
{
    if plan.len() > 0 {
        lemma_plan_cost_nonneg(plan.drop_first());
    }
}

/// The minutes spent to reach each settled state agree with how it was
/// reached: none for `init`, and for any other state those of the state it
/// was reached from and of the action.
spec fn dists_ok(init: Player, rec: Map<u64, (Player, ActionRecord)>, dist: Map<u64, int>) -> bool {
    &&& dist.dom() == rec.dom()
    &&& forall|k: u64| #[trigger] rec.contains_key(k) ==> {
        let (p, r) = rec[k];
        &&& (p == init ==> dist[k] == 0)
        &&& (p != init ==> dist[k] == dist[player_key(r.from_player) as u64] + action_cost(r.action))
    }
}

/// A waiting state is consistent with the table and its minutes.
spec fn entry_ok(
    s: MapSetting,
    init: Player,
    rec: Map<u64, (Player, ActionRecord)>,
    dist: Map<u64, int>,
    st: State,
    b: int,
) -> bool {
    &&& state_ok(s, init, rec, st, b)
    &&& rec.contains_key(player_key(init) as u64) ==> st.player != init
    &&& st.player != init ==> st.cost == dist[player_key(st.record.from_player) as u64] + action_cost(st.record.action)
}

/// Some state `v` waits in a bucket no later than `bound`.
spec fn entry_for(bk: Seq<Vec<State>>, v: Player, bound: int) -> bool {
    exists|b: int, i: int|
        0 <= b <= bound && b < bk.len() && 0 <= i < bk[b]@.len() && (#[trigger] bk[b]@[i]).player == v
}

/// State `v` is settled within `bound` minutes, or waits no later.
spec fn reach_ok(
    rec: Map<u64, (Player, ActionRecord)>,
    dist: Map<u64, int>,
    bk: Seq<Vec<State>>,
    v: Player,
    bound: int,
) -> bool {
    ||| rec.contains_key(player_key(v) as u64) && dist[player_key(v) as u64] <= bound
    ||| entry_for(bk, v, bound)
}

/// Whether the search goes on from a settled state `p` reached in `d`
/// minutes.
spec fn expands(s: MapSetting, end: Player, p: Player, d: int) -> bool {
    p != end && computable(s, p.pos.r + 1, p.pos.c + 1) && d <= usize::MAX - 7
}

/// Every state one action from the settled state under key `k` is
/// settled or waits, within the minutes of `k` and of the action.
spec fn frontier_at(
    s: MapSetting,
    end: Player,
    rec: Map<u64, (Player, ActionRecord)>,
    dist: Map<u64, int>,
    bk: Seq<Vec<State>>,
    k: u64,
) -> bool {
    let p = rec[k].0;
    expands(s, end, p, dist[k]) ==> forall|a: Action|
        #[trigger] next_actions_spec(s, p).contains(a) && searchable(perform_spec(p, a)) ==> reach_ok(
            rec,
            dist,
            bk,
            perform_spec(p, a),
            dist[k] + action_cost(a),
        )
}

spec fn frontiers(
    s: MapSetting,
    end: Player,
    rec: Map<u64, (Player, ActionRecord)>,
    dist: Map<u64, int>,
    bk: Seq<Vec<State>>,
    except: int,
) -> bool {
    forall|k: u64| #[trigger] rec.contains_key(k) && k != except ==> frontier_at(s, end, rec, dist, bk, k)
}

/// The actions `acts[..n]` from `u`, reached in `du` minutes, lead to
/// states settled or waiting within the minutes of `u` and of the action.
spec fn partial_ok(
    rec: Map<u64, (Player, ActionRecord)>,
    dist: Map<u64, int>,
    bk: Seq<Vec<State>>,
    u: Player,
    du: int,
    acts: Seq<Action>,
    n: int,
) -> bool {
    forall|j: int| 0 <= j < n && searchable(perform_spec(u, #[trigger] acts[j])) ==> reach_ok(
        rec,
        dist,
        bk,
        perform_spec(u, acts[j]),
        du + action_cost(acts[j]),
    )
}

/// One step of the search keeps what it reached: settled states stay with
/// their minutes, and a waiting state stays where it waits or is settled
/// no later than its bucket.
spec fn kept(
    rec: Map<u64, (Player, ActionRecord)>,
    dist: Map<u64, int>,
    bk: Seq<Vec<State>>,
    rec2: Map<u64, (Player, ActionRecord)>,
    dist2: Map<u64, int>,
    bk2: Seq<Vec<State>>,
) -> bool {
    &&& forall|k: u64| #[trigger] rec.contains_key(k) ==> rec2.contains_key(k) && rec2[k] == rec[k] && dist2[k] == dist[k]
    &&& bk2.len() >= bk.len()
    &&& forall|b: int, i: int| 0 <= b < bk.len() && 0 <= i < bk[b]@.len() ==> {
        ||| (i < bk2[b]@.len() && bk2[b]@[i] == #[trigger] bk[b]@[i])
        ||| (rec2.contains_key(player_key(bk[b]@[i].player) as u64) && dist2[player_key(bk[b]@[i].player) as u64] <= b)
    }
}

proof fn lemma_reach_kept(
    rec: Map<u64, (Player, ActionRecord)>,
    dist: Map<u64, int>,
    bk: Seq<Vec<State>>,
    rec2: Map<u64, (Player, ActionRecord)>,
    dist2: Map<u64, int>,
    bk2: Seq<Vec<State>>,
    v: Player,
    bound: int,
)
    requires
        reach_ok(rec, dist, bk, v, bound),
        kept(rec, dist, bk, rec2, dist2, bk2),
    ensures
        reach_ok(rec2, dist2, bk2, v, bound),
{
    if rec.contains_key(player_key(v) as u64) && dist[player_key(v) as u64] <= bound {
        assert(rec2.contains_key(player_key(v) as u64));
    } else {
        let (b, i) = choose|b: int, i: int|
            0 <= b <= bound && b < bk.len() && 0 <= i < bk[b]@.len() && (#[trigger] bk[b]@[i]).player == v;
        if i < bk2[b]@.len() && bk2[b]@[i] == bk[b]@[i] {
            assert(bk2[b]@[i].player == v);
            assert(entry_for(bk2, v, bound));
        }
    }
}

proof fn lemma_frontiers_kept(
    s: MapSetting,
    end: Player,
    rec: Map<u64, (Player, ActionRecord)>,
    dist: Map<u64, int>,
    bk: Seq<Vec<State>>,
    rec2: Map<u64, (Player, ActionRecord)>,
    dist2: Map<u64, int>,
    bk2: Seq<Vec<State>>,
    except: int,
)
    requires
        frontiers(s, end, rec, dist, bk, except),
        kept(rec, dist, bk, rec2, dist2, bk2),
    ensures
        forall|k: u64| #[trigger] rec.contains_key(k) && k != except ==> frontier_at(s, end, rec2, dist2, bk2, k),
{
    assert forall|k: u64| #[trigger] rec.contains_key(k) && k != except implies frontier_at(s, end, rec2, dist2, bk2, k) by {
        assert(frontier_at(s, end, rec, dist, bk, k));
        let p = rec[k].0;
        assert(rec2[k] == rec[k] && dist2[k] == dist[k]);
        if expands(s, end, p, dist[k]) {
            assert forall|a: Action| #[trigger] next_actions_spec(s, p).contains(a) && searchable(perform_spec(p, a))
                implies reach_ok(rec2, dist2, bk2, perform_spec(p, a), dist2[k] + action_cost(a)) by {
                lemma_reach_kept(rec, dist, bk, rec2, dist2, bk2, perform_spec(p, a), dist[k] + action_cost(a));
            }
        }
    }
}

proof fn lemma_partial_kept(
    rec: Map<u64, (Player, ActionRecord)>,
    dist: Map<u64, int>,
    bk: Seq<Vec<State>>,
    rec2: Map<u64, (Player, ActionRecord)>,
    dist2: Map<u64, int>,
    bk2: Seq<Vec<State>>,
    u: Player,
    du: int,
    acts: Seq<Action>,
    n: int,
)
    requires
        partial_ok(rec, dist, bk, u, du, acts, n),
        kept(rec, dist, bk, rec2, dist2, bk2),
    ensures
        partial_ok(rec2, dist2, bk2, u, du, acts, n),
{
    assert forall|j: int| 0 <= j < n && searchable(perform_spec(u, #[trigger] acts[j])) implies reach_ok(
        rec2,
        dist2,
        bk2,
        perform_spec(u, acts[j]),
        du + action_cost(acts[j]),
    ) by {
        lemma_reach_kept(rec, dist, bk, rec2, dist2, bk2, perform_spec(u, acts[j]), du + action_cost(acts[j]));
    }
}

/// Everything the search keeps true between its steps.
spec fn search_inv(
    s: MapSetting,
    init: Player,
    end: Player,
    first: State,
    rec: Map<u64, (Player, ActionRecord)>,
    rank: Map<u64, nat>,
    dist: Map<u64, int>,
    cnt: nat,
    bk: Seq<Vec<State>>,
    cur: int,
    found: bool,
    except: int,
) -> bool {
    &&& records_ok(s, init, rec, rank)
    &&& dists_ok(init, rec, dist)
    &&& forall|k: u64| #[trigger] rec.contains_key(k) ==> rank[k] < cnt && dist[k] <= cur
    &&& found == rec.contains_key(player_key(end) as u64)
    &&& found ==> dist[player_key(end) as u64] == cur
    &&& 0 <= cur <= bk.len()
    &&& forall|b: int| 0 <= b < cur ==> #[trigger] bk[b]@.len() == 0
    &&& forall|b: int, i: int| 0 <= b < bk.len() && 0 <= i < bk[b]@.len() ==> entry_ok(s, init, rec, dist, #[trigger] bk[b]@[i], b)
    &&& !rec.contains_key(player_key(init) as u64) ==> (rec.dom() == Set::<u64>::empty() && bk.len() == 1 && bk[0]@ == seq![first]
        && cur == 0)
    &&& frontiers(s, end, rec, dist, bk, except)
}

/// Moving on past empty buckets keeps what the search keeps true.
proof fn lemma_inv_advance(
    s: MapSetting,
    init: Player,
    end: Player,
    first: State,
    rec: Map<u64, (Player, ActionRecord)>,
    rank: Map<u64, nat>,
    dist: Map<u64, int>,
    cnt: nat,
    bk: Seq<Vec<State>>,
    cur0: int,
    cur: int,
)
    requires
        search_inv(s, init, end, first, rec, rank, dist, cnt, bk, cur0, false, -1),
        cur0 <= cur <= bk.len(),
        forall|b: int| cur0 <= b < cur ==> #[trigger] bk[b]@.len() == 0,
        first.player == init,
    ensures
        search_inv(s, init, end, first, rec, rank, dist, cnt, bk, cur, false, -1),
{
    if !rec.contains_key(player_key(init) as u64) {
        assert(bk[0]@.len() == 1);
    }
    assert forall|b: int| 0 <= b < cur implies #[trigger] bk[b]@.len() == 0 by {
        if b >= cur0 {
        }
    }
}

/// Where every settled state has its neighbours settled or waiting, and no
/// state waits before minute `cur`, no plan from a settled state `p` to
/// `end` within reach takes fewer minutes, counted from `p`'s, than `end`'s
/// or `cur`.
#[verifier::spinoff_prover]
#[verifier::rlimit(60)]
proof fn lemma_best(
    s: MapSetting,
    init: Player,
    end: Player,
    rec: Map<u64, (Player, ActionRecord)>,
    rank: Map<u64, nat>,
    dist: Map<u64, int>,
    bk: Seq<Vec<State>>,
    cur: int,
    p: Player,
    pc: int,
    plan: Seq<Action>,
)
    requires
        records_ok(s, init, rec, rank),
        frontiers(s, end, rec, dist, bk, -1),
        0 <= cur <= bk.len(),
        forall|b: int| 0 <= b < cur ==> #[trigger] bk[b]@.len() == 0,
        searchable(p),
        searchable(end),
        rec.contains_key(player_key(p) as u64),
        rec[player_key(p) as u64].0 == p,
        dist[player_key(p) as u64] <= pc,
        valid_plan(s, p, plan, end),
        plan_in_reach(s, p, plan),
        pc + plan_cost(plan) <= usize::MAX - 7,
    ensures
        rec.contains_key(player_key(end) as u64) && dist[player_key(end) as u64] <= pc + plan_cost(plan) || cur <= pc
            + plan_cost(plan),
    decreases plan.len(),
{
    lemma_plan_cost_nonneg(plan);
    if plan.len() == 0 {
    } else if p == end {
    } else {
        let a = plan[0];
        let v = perform_spec(p, a);
        let rest = plan.drop_first();
        lemma_plan_cost_nonneg(rest);
        let kp = player_key(p) as u64;
        assert(frontier_at(s, end, rec, dist, bk, kp));
        assert(expands(s, end, p, dist[kp]));
        assert(valid_plan(s, v, rest, end));
        assert(searchable(v)) by {
            if rest.len() == 0 {
                assert(v == end);
            } else {
                assert(plan_in_reach(s, v, rest));
            }
        }
        assert(next_actions_spec(s, p).contains(a));
        assert(reach_ok(rec, dist, bk, v, dist[kp] + action_cost(a)));
        let kv = player_key(v) as u64;
        if rec.contains_key(kv) && dist[kv] <= dist[kp] + action_cost(a) {
            lemma_player_key(rec[kv].0, v);
            lemma_best(s, init, end, rec, rank, dist, bk, cur, v, pc + action_cost(a), rest);
        } else {
            let (b, i) = choose|b: int, i: int|
                0 <= b <= dist[kp] + action_cost(a) && b < bk.len() && 0 <= i < bk[b]@.len() && (#[trigger] bk[b]@[i]).player == v;
            assert(b >= cur);
        }
    }
}

/// A plan of actions that takes `init_player` to `end_player` in `map`,
/// found by a search that always extends the cheapest state reached so far
/// (one minute per move, seven per switch of tool), so that no plan within
/// the search's reach takes fewer minutes. The search goes no further than
/// row or column 2^31, and no further than the regions whose levels can be
/// computed.
#[verifier::spinoff_prover]
#[verifier::rlimit(100)]
pub fn fastest_plan_to(init_player: &Player, map: &mut CaveMap, end_player: &Player) -> (res: Result<Vec<Action>, Error>)
    requires
        old(map).wf(),
    ensures
        final(map).wf(),
        final(map).setting() == old(map).setting(),
        *init_player == *end_player ==> (res matches Ok(plan) && plan@.len() == 0),
        match res {
            Ok(plan) => valid_plan(old(map).setting(), *init_player, plan@, *end_player),
            Err(e) => e == Error::UnreachableTarget(*end_player),
        },
        res matches Ok(plan) ==> forall|other: Seq<Action>|
            #[trigger] valid_plan(old(map).setting(), *init_player, other, *end_player) && plan_in_reach(
                old(map).setting(),
                *init_player,
                other,
            ) && plan_cost(other) <= usize::MAX - 7 ==> plan_cost(plan@) <= plan_cost(other),
{
    broadcast use vstd::std_specs::hash::group_hash_axioms;
    let ghost s = map.setting();
    let init = *init_player;
    let end = *end_player;
    if init == end {
        proof {
            assert forall|other: Seq<Action>|
                #[trigger] valid_plan(s, init, other, end) && plan_in_reach(s, init, other) && plan_cost(other)
                    <= usize::MAX - 7 implies plan_cost(Seq::<Action>::empty()) <= plan_cost(other) by {
                lemma_plan_cost_nonneg(other);
            }
        }
        let res: Vec<Action> = Vec::new();
        assert(res@ =~= Seq::<Action>::empty());
        return Ok(res);
    }
    if !is_searchable(&init) || !is_searchable(&end) {
        return Err(Error::UnreachableTarget(end));
    }
    let mut record_map: std::collections::HashMap<u64, (Player, ActionRecord)> = std::collections::HashMap::new();
    let ghost mut rank: Map<u64, nat> = Map::empty();
    let ghost mut dist: Map<u64, int> = Map::empty();
    let ghost mut cnt: nat = 0;
    let mut buckets: Vec<Vec<State>> = Vec::new();
    let first = State {
        cost: 0,
        player: init,
        record: ActionRecord { from_player: init, action: Action::Move { from: init.pos, to: init.pos } },
    };
    buckets.push(vec![first]);
    let mut cur_cost: usize = 0;
    let mut iter: u64 = 0;
    let mut found = false;
    proof {
        assert(record_map@.dom() =~= Set::<u64>::empty());
        assert(buckets@[0]@ =~= seq![first]);
    }
    while iter < u64::MAX
        invariant
            map.wf(),
            map.setting() == s,
            init == *init_player,
            end == *end_player,
            init != end,
            searchable(init),
            searchable(end),
            first.player == init,
            first.cost == 0,
            search_inv(s, init, end, first, record_map@, rank, dist, cnt, buckets@, cur_cost as int, found, -1),
        decreases u64::MAX - iter,
    {
        if found {
            break;
        }
        iter = iter + 1;
        let ghost cur0 = cur_cost as int;
        while cur_cost < buckets.len() && buckets[cur_cost].len() == 0
            invariant
                cur0 <= cur_cost <= buckets.len(),
                forall|b: int| cur0 <= b < cur_cost ==> #[trigger] buckets@[b]@.len() == 0,
            decreases buckets.len() - cur_cost,
        {
            cur_cost = cur_cost + 1;
        }
        proof {
            lemma_inv_advance(s, init, end, first, record_map@, rank, dist, cnt, buckets@, cur0, cur_cost as int);
        }
        if cur_cost == buckets.len() {
            break;
        }
        let ghost old_buckets = buckets@;
        let ghost old_rec = record_map@;
        let ghost old_dist = dist;
        let ghost cur = cur_cost as int;
        let state = buckets[cur_cost].pop().unwrap();
        proof {
            assert(state == old_buckets[cur]@[old_buckets[cur]@.len() - 1]);
            assert(entry_ok(s, init, old_rec, old_dist, state, cur));
            assert forall|b: int| 0 <= b < old_buckets.len() && b != cur implies buckets@[b] == old_buckets[b] by {}
            assert(buckets@[cur]@ =~= old_buckets[cur]@.drop_last());
        }
        let key = key_of(&state.player);
        if record_map.contains_key(&key) {
            proof {
                assert(kept(old_rec, old_dist, old_buckets, record_map@, dist, buckets@)) by {
                    assert forall|b: int, i: int| 0 <= b < old_buckets.len() && 0 <= i < old_buckets[b]@.len() implies {
                        ||| (i < buckets@[b]@.len() && buckets@[b]@[i] == #[trigger] old_buckets[b]@[i])
                        ||| (record_map@.contains_key(player_key(old_buckets[b]@[i].player) as u64) && dist[player_key(
                            old_buckets[b]@[i].player,
                        ) as u64] <= b)
                    } by {
                        if b == cur && i == old_buckets[b]@.len() - 1 {
                        } else if b == cur {
                            assert(buckets@[b]@[i] == old_buckets[b]@[i]);
                        }
                    }
                }
                lemma_frontiers_kept(s, end, old_rec, old_dist, old_buckets, record_map@, dist, buckets@, -1);
                assert forall|b: int, i: int| 0 <= b < buckets@.len() && 0 <= i < buckets@[b]@.len() implies entry_ok(
                    s, init, record_map@, dist, #[trigger] buckets@[b]@[i], b) by {
                    assert(buckets@[b]@[i] == old_buckets[b]@[i]);
                }
                assert forall|b: int| 0 <= b < cur_cost implies #[trigger] buckets@[b]@.len() == 0 by {
                    assert(buckets@[b] == old_buckets[b]);
                }
            }
            continue;
        }
        record_map.insert(key, (state.player, state.record));
        proof {
            lemma_player_key(state.player, init);
            lemma_player_key(state.player, end);
            rank = rank.insert(key, cnt);
            cnt = cnt + 1;
            dist = dist.insert(key, cur);
            let rec = record_map@;
            assert(rec == old_rec.insert(key, (state.player, state.record)));
            assert(!old_rec.contains_key(key));
            assert(dists_ok(init, rec, dist)) by {
                assert(dist.dom() =~= rec.dom());
                assert forall|k: u64| #[trigger] rec.contains_key(k) implies {
                    let (p, r) = rec[k];
                    &&& (p == init ==> dist[k] == 0)
                    &&& (p != init ==> dist[k] == dist[player_key(r.from_player) as u64] + action_cost(r.action))
                } by {
                    if k == key {
                        if state.player != init {
                            assert(old_rec.contains_key(player_key(state.record.from_player) as u64));
                        } else {
                            assert(!old_rec.contains_key(player_key(init) as u64));
                            assert(old_buckets[0]@ == seq![first]);
                        }
                    } else {
                        let (p, r) = rec[k];
                        assert(old_rec.contains_key(k));
                        if p != init {
                            assert(old_rec.contains_key(player_key(r.from_player) as u64));
                        }
                    }
                }
            }
            assert(records_ok(s, init, rec, rank)) by {
                assert(rank.dom() =~= rec.dom());
                assert forall|k: u64| #[trigger] rec.contains_key(k) implies {
                    let (p, r) = rec[k];
                    &&& searchable(p)
                    &&& player_key(p) == k
                    &&& p != init ==> {
                        &&& searchable(r.from_player)
                        &&& rec.contains_key(player_key(r.from_player) as u64)
                        &&& rec[player_key(r.from_player) as u64].0 == r.from_player
                        &&& rank[player_key(r.from_player) as u64] < rank[k]
                        &&& next_actions_spec(s, r.from_player).contains(r.action)
                        &&& perform_spec(r.from_player, r.action) == p
                    }
                } by {
                    if k == key {
                        if state.player != init {
                            assert(old_rec.contains_key(player_key(state.record.from_player) as u64));
                        }
                    } else {
                        assert(old_rec.contains_key(k));
                    }
                }
            }
            assert(kept(old_rec, old_dist, old_buckets, rec, dist, buckets@)) by {
                assert forall|b: int, i: int| 0 <= b < old_buckets.len() && 0 <= i < old_buckets[b]@.len() implies {
                    ||| (i < buckets@[b]@.len() && buckets@[b]@[i] == #[trigger] old_buckets[b]@[i])
                    ||| (rec.contains_key(player_key(old_buckets[b]@[i].player) as u64) && dist[player_key(
                        old_buckets[b]@[i].player,
                    ) as u64] <= b)
                } by {
                    if b == cur && i == old_buckets[b]@.len() - 1 {
                    } else if b == cur {
                        assert(buckets@[b]@[i] == old_buckets[b]@[i]);
                    }
                }
            }
            lemma_frontiers_kept(s, end, old_rec, old_dist, old_buckets, rec, dist, buckets@, -1);
            assert forall|b: int, i: int| 0 <= b < buckets@.len() && 0 <= i < buckets@[b]@.len() implies entry_ok(
                s, init, rec, dist, #[trigger] buckets@[b]@[i], b) by {
                let st = buckets@[b]@[i];
                assert(st == old_buckets[b]@[i]);
                assert(entry_ok(s, init, old_rec, old_dist, st, b));
                if st.player != init {
                    assert(old_rec.contains_key(player_key(st.record.from_player) as u64));
                }
                if state.player == init {
                    assert(old_buckets[0]@ == seq![first]);
                    assert(b == 0);
                }
            }
            assert forall|b: int| 0 <= b < cur_cost implies #[trigger] buckets@[b]@.len() == 0 by {
                assert(buckets@[b] == old_buckets[b]);
            }
            assert forall|k: u64| #[trigger] rec.contains_key(k) implies rank[k] < cnt && dist[k] <= cur by {
                if k != key {
                    assert(old_rec.contains_key(k));
                }
            }
            if !old_rec.contains_key(player_key(init) as u64) {
                assert(old_buckets[0]@ == seq![first]);
                assert(state == first);
            }
            assert(rec.contains_key(player_key(init) as u64));
        }
        if state.player == end {
            found = true;
            proof {
                assert(frontier_at(s, end, record_map@, dist, buckets@, key));
            }
            continue;
        }
        proof {
            assert(!record_map@.contains_key(player_key(end) as u64));
        }
        if expandable(&map.setting, &state.player.pos) && state.cost <= usize::MAX - 7 {
            let actions = state.player.next_actions(map);
            let mut ai: usize = 0;
            while ai < actions.len()
                invariant
                    map.wf(),
                    map.setting() == s,
                    init == *init_player,
                    end == *end_player,
                    init != end,
                    searchable(init),
                    searchable(end),
                    first.player == init,
                    first.cost == 0,
                    !found,
                    record_map@.contains_key(player_key(init) as u64),
                    search_inv(s, init, end, first, record_map@, rank, dist, cnt, buckets@, cur_cost as int, found, key as int),
                    key == player_key(state.player),
                    record_map@.contains_key(key),
                    record_map@[key].0 == state.player,
                    dist[key] == cur_cost,
                    state.cost == cur_cost,
                    state.player != end,
                    searchable(state.player),
                    state.cost <= usize::MAX - 7,
                    actions@ == next_actions_spec(s, state.player),
                    partial_ok(record_map@, dist, buckets@, state.player, cur_cost as int, actions@, ai as int),
                decreases actions.len() - ai,
            {
                let action = actions[ai];
                proof {
                    assert(actions@[ai as int] == action);
                    lemma_next_actions_from(s, state.player, action);
                }
                let next = state.player.perform(&action);
                let ghost pb = buckets@;
                if is_searchable(&next) {
                    let nk = key_of(&next);
                    if !record_map.contains_key(&nk) {
                        let c = state.cost + action.cost();
                        while buckets.len() <= c
                            invariant
                                first.player == init,
                                record_map@.contains_key(player_key(init) as u64),
                                search_inv(s, init, end, first, record_map@, rank, dist, cnt, buckets@, cur_cost as int, found, key as int),
                                kept(record_map@, dist, pb, record_map@, dist, buckets@),
                            decreases c + 1 - buckets.len(),
                        {
                            let ghost bb = buckets@;
                            buckets.push(Vec::new());
                            proof {
                                assert(buckets@.len() == bb.len() + 1 && buckets@[bb.len() as int]@.len() == 0);
                                assert(kept(record_map@, dist, bb, record_map@, dist, buckets@)) by {
                                    assert forall|b: int, i: int| 0 <= b < bb.len() && 0 <= i < bb[b]@.len() implies {
                                        ||| (i < buckets@[b]@.len() && buckets@[b]@[i] == #[trigger] bb[b]@[i])
                                        ||| (record_map@.contains_key(player_key(bb[b]@[i].player) as u64) && dist[player_key(
                                            bb[b]@[i].player,
                                        ) as u64] <= b)
                                    } by {
                                        assert(buckets@[b] == bb[b]);
                                    }
                                }
                                assert(kept(record_map@, dist, pb, record_map@, dist, buckets@)) by {
                                    assert forall|b: int, i: int| 0 <= b < pb.len() && 0 <= i < pb[b]@.len() implies {
                                        ||| (i < buckets@[b]@.len() && buckets@[b]@[i] == #[trigger] pb[b]@[i])
                                        ||| (record_map@.contains_key(player_key(pb[b]@[i].player) as u64) && dist[player_key(
                                            pb[b]@[i].player,
                                        ) as u64] <= b)
                                    } by {
                                        assert(kept(record_map@, dist, pb, record_map@, dist, bb));
                                        if i < bb[b]@.len() && bb[b]@[i] == pb[b]@[i] {
                                            assert(buckets@[b] == bb[b]);
                                        }
                                    }
                                }
                                lemma_frontiers_kept(s, end, record_map@, dist, bb, record_map@, dist, buckets@, key as int);
                                assert forall|b: int, i: int| 0 <= b < buckets@.len() && 0 <= i < buckets@[b]@.len() implies entry_ok(
                                    s, init, record_map@, dist, #[trigger] buckets@[b]@[i], b) by {
                                    assert(buckets@[b] == bb[b]);
                                }
                                assert forall|b: int| 0 <= b < cur_cost implies #[trigger] buckets@[b]@.len() == 0 by {
                                    assert(buckets@[b] == bb[b]);
                                }
                            }
                        }
                        let ghost pre = buckets@;
                        let st = State {
                            cost: c,
                            player: next,
                            record: ActionRecord { from_player: state.player, action },
                        };
                        buckets[c].push(st);
                        proof {
                            lemma_player_key(next, init);
                            assert(buckets@[c as int]@ == pre[c as int]@.push(st));
                            assert forall|b: int| 0 <= b < pre.len() && b != c implies buckets@[b] == pre[b] by {}
                            assert(kept(record_map@, dist, pre, record_map@, dist, buckets@)) by {
                                assert forall|b: int, i: int| 0 <= b < pre.len() && 0 <= i < pre[b]@.len() implies {
                                    ||| (i < buckets@[b]@.len() && buckets@[b]@[i] == #[trigger] pre[b]@[i])
                                    ||| (record_map@.contains_key(player_key(pre[b]@[i].player) as u64) && dist[player_key(
                                        pre[b]@[i].player,
                                    ) as u64] <= b)
                                } by {
                                    if b == c {
                                        assert(buckets@[b]@[i] == pre[b]@[i]);
                                    }
                                }
                            }
                            assert(kept(record_map@, dist, pb, record_map@, dist, buckets@)) by {
                                assert forall|b: int, i: int| 0 <= b < pb.len() && 0 <= i < pb[b]@.len() implies {
                                    ||| (i < buckets@[b]@.len() && buckets@[b]@[i] == #[trigger] pb[b]@[i])
                                    ||| (record_map@.contains_key(player_key(pb[b]@[i].player) as u64) && dist[player_key(
                                        pb[b]@[i].player,
                                    ) as u64] <= b)
                                } by {
                                    if i < pre[b]@.len() && pre[b]@[i] == pb[b]@[i] {
                                        if b == c {
                                            assert(buckets@[b]@[i] == pre[b]@[i]);
                                        }
                                    }
                                }
                            }
                            lemma_frontiers_kept(s, end, record_map@, dist, pre, record_map@, dist, buckets@, key as int);
                            assert forall|b: int, i: int| 0 <= b < buckets@.len() && 0 <= i < buckets@[b]@.len() implies entry_ok(
                                s, init, record_map@, dist, #[trigger] buckets@[b]@[i], b) by {
                                if b == c && i == pre[b]@.len() {
                                    assert(buckets@[b]@[i] == st);
                                    assert(next != init);
                                } else if b == c {
                                    assert(buckets@[b]@[i] == pre[b]@[i]);
                                }
                            }
                            assert forall|b: int| 0 <= b < cur_cost implies #[trigger] buckets@[b]@.len() == 0 by {
                                assert(buckets@[b] == pre[b]);
                            }
                            assert(buckets@[c as int]@[pre[c as int]@.len() as int] == st);
                            assert(entry_for(buckets@, next, cur_cost + action_cost(action)));
                        }
                    } else {
                        proof {
                            lemma_player_key(next, next);
                            assert(dist[nk] <= cur_cost);
                        }
                    }
                }
                proof {
                    assert(kept(record_map@, dist, pb, record_map@, dist, buckets@));
                    lemma_partial_kept(record_map@, dist, pb, record_map@, dist, buckets@, state.player, cur_cost as int, actions@, ai as int);
                    assert(partial_ok(record_map@, dist, buckets@, state.player, cur_cost as int, actions@, ai + 1)) by {
                        assert forall|j: int| 0 <= j < ai + 1 && searchable(perform_spec(state.player, #[trigger] actions@[j]))
                            implies reach_ok(record_map@, dist, buckets@, perform_spec(state.player, actions@[j]),
                            cur_cost + action_cost(actions@[j])) by {
                            if j == ai {
                                assert(actions@[j] == action);
                            }
                        }
                    }
                }
                ai = ai + 1;
            }
            proof {
                assert forall|a: Action| #[trigger] next_actions_spec(s, state.player).contains(a) && searchable(
                    perform_spec(state.player, a)) implies reach_ok(record_map@, dist, buckets@, perform_spec(state.player, a),
                    dist[key] + action_cost(a)) by {
                    let j = choose|j: int| 0 <= j < actions@.len() && actions@[j] == a;
                    assert(searchable(perform_spec(state.player, actions@[j])));
                }
                assert(frontier_at(s, end, record_map@, dist, buckets@, key));
            }
        } else {
            proof {
                assert(!expands(s, end, state.player, dist[key]));
                assert(frontier_at(s, end, record_map@, dist, buckets@, key));
            }
        }
    }
    let ek = key_of(&end);
    if !record_map.contains_key(&ek) {
        return Err(Error::UnreachableTarget(end));
    }
    let mut plan_rev: Vec<Action> = Vec::new();
    let mut cur = end;
    proof {
        lemma_player_key(record_map@[ek].0, end);
        lemma_player_key(init, init);
        assert(record_map@.contains_key(player_key(init) as u64));
        lemma_player_key(record_map@[player_key(init) as u64].0, init);
        assert(plan_rev@.reverse() =~= Seq::<Action>::empty());
    }
    while !(cur == init)
        invariant
            records_ok(s, init, record_map@, rank),
            dists_ok(init, record_map@, dist),
            searchable(cur),
            record_map@.contains_key(player_key(cur) as u64),
            record_map@[player_key(cur) as u64].0 == cur,
            valid_plan(s, cur, plan_rev@.reverse(), end),
            plan_cost(plan_rev@.reverse()) + dist[player_key(cur) as u64] == dist[ek],
        decreases rank[player_key(cur) as u64],
    {
        let ck = key_of(&cur);
        let (p, r) = *record_map.get(&ck).unwrap();
        proof {
            lemma_valid_plan_prepend(s, r.from_player, r.action, plan_rev@.reverse(), end);
            assert(plan_rev@.push(r.action).reverse() =~= seq![r.action] + plan_rev@.reverse());
            assert((seq![r.action] + plan_rev@.reverse()).drop_first() =~= plan_rev@.reverse());
        }
        plan_rev.push(r.action);
        cur = r.from_player;
    }
    let mut plan: Vec<Action> = Vec::new();
    let mut j: usize = plan_rev.len();
    while j > 0
        invariant
            j <= plan_rev.len(),
            plan@ =~= plan_rev@.subrange(j as int, plan_rev.len() as int).reverse(),
        decreases j,
    {
        j = j - 1;
        plan.push(plan_rev[j]);
        proof {
            assert(plan_rev@.subrange(j as int, plan_rev.len() as int).reverse() =~= plan_rev@.subrange(j + 1, plan_rev.len() as int).reverse().push(plan_rev@[j as int]));
        }
    }
    proof {
        assert(plan_rev@.subrange(0, plan_rev.len() as int) =~= plan_rev@);
        assert(plan@ == plan_rev@.reverse());
        assert(plan_cost(plan@) == dist[ek]);
        assert(dist[ek] == cur_cost);
        assert forall|other: Seq<Action>|
            #[trigger] valid_plan(s, init, other, end) && plan_in_reach(s, init, other) && plan_cost(other)
                <= usize::MAX - 7 implies plan_cost(plan@) <= plan_cost(other) by {
            lemma_best(s, init, end, record_map@, rank, dist, buckets@, cur_cost as int, init, 0, other);
        }
    }
    Ok(plan)
}


} // verus!
