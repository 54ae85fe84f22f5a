//! Clay veins under ground, kept as rows of sorted disjoint ranges, and the
//! water that flows between them.

use vstd::prelude::*;
use vstd::math::{min, max};
use crate::text::{
    caps_view, group, group_int, group_int_spec, int_value, parse_int, regex_captures, regex_captures_spec,
    regex_is_match, regex_match_spec,
};

verus! {

/// A place under ground: row and column.
#[derive(Debug, Clone, Copy, PartialEq, Eq, Structural)]
pub struct Position {
    pub r: usize,
    pub c: usize,
}

impl Position {
    pub fn new(r: usize, c: usize) -> (res: Position)
        ensures
            res == (Position { r, c }),
    {
        Position { r, c }
    }
}

/// Errors met while reading the map or letting water flow.
#[derive(Debug)]
pub enum Error {
    /// Water was asked to flow through clay at this place.
    WaterFlowThroughClay(Position),
    /// Water was asked to rest on nothing at this place.
    WaterBlockedByGhost(Position),
    /// A line that is not a rectangle of clay.
    BlockRectParseFormat(String),
    /// A text that is not a number or a range of numbers.
    BlockRangeParseError(String),
}

/// The half-open range of columns `[beg, end)`.
#[derive(Debug, Clone, Copy, PartialEq, Eq, Structural)]
pub struct BlockRange {
    beg: usize,
    end: usize,
}

impl BlockRange {
    #[verifier::type_invariant]
    spec fn ordered(self) -> bool {
        self.beg <= self.end
    }

    pub closed spec fn beg_spec(&self) -> usize {
        self.beg
    }

    pub closed spec fn end_spec(&self) -> usize {
        self.end
    }

    /// A range never ends before it begins.
    pub fn beg_end_ordered(&self) -> (res: bool)
        ensures
            res,
            self.beg_spec() <= self.end_spec(),
    {
        proof {
            use_type_invariant(self);
        }
        self.beg <= self.end
    }

    /// The range of `len` columns starting at `beg`.
    pub fn beg_len(beg: usize, len: usize) -> (res: Self)
        requires
            beg + len <= usize::MAX,
        ensures
            res.beg_spec() == beg,
            res.end_spec() == beg + len,
    {
        BlockRange { beg, end: beg + len }
    }

    /// The range from `beg` up to, not including, `end`.
    pub fn beg_end(beg: usize, end: usize) -> (res: Self)
        requires
            beg <= end,
        ensures
            res.beg_spec() == beg,
            res.end_spec() == end,
    {
        BlockRange { beg, end }
    }

    /// Joins `other` into this range when the two overlap or touch, and
    /// tells whether they did; otherwise leaves this range as it is.
    pub fn combine(&mut self, other: &Self) -> (res: bool)
        ensures
            res == !(old(self).beg_spec() > other.end_spec() || old(self).end_spec() < other.beg_spec()),
            res ==> final(self).beg_spec() == min(old(self).beg_spec() as int, other.beg_spec() as int)
                && final(self).end_spec() == max(old(self).end_spec() as int, other.end_spec() as int),
            !res ==> *final(self) == *old(self),
    {
        proof {
            use_type_invariant(&*self);
            use_type_invariant(other);
        }
        if self.beg > other.end || self.end < other.beg {
            return false;
        }
        let beg = if self.beg <= other.beg { self.beg } else { other.beg };
        let end = if self.end >= other.end { self.end } else { other.end };
        *self = BlockRange { beg, end };
        true
    }

    /// Number of columns in the range.
    pub fn len(&self) -> (res: usize)
        ensures
            res == self.end_spec() - self.beg_spec(),
    {
        proof {
            use_type_invariant(self);
        }
        self.end - self.beg
    }
}

/// Whether the ranges of a row are each well ordered and strictly apart,
/// in increasing order.
pub open spec fn row_ok(row: Seq<BlockRange>) -> bool {
    &&& forall|i: int| 0 <= i < row.len() ==> (#[trigger] row[i]).beg_spec() <= row[i].end_spec()
    &&& forall|i: int, j: int| 0 <= i < j < row.len() ==> (#[trigger] row[i]).end_spec() < (#[trigger] row[j]).beg_spec()
}

/// Whether column `x` is covered by some range of the row.
pub open spec fn covers(row: Seq<BlockRange>, x: int) -> bool {
    exists|i: int| 0 <= i < row.len() && (#[trigger] row[i]).beg_spec() <= x < row[i].end_spec()
}

/// A row of clay or water: sorted ranges that neither overlap nor touch.
#[derive(Clone)]
pub struct BlockRangeRow {
    row: Vec<BlockRange>,
}

impl BlockRangeRow {
    pub closed spec fn ranges(&self) -> Seq<BlockRange> {
        self.row@
    }

    /// An empty row.
    pub fn new() -> (res: BlockRangeRow)
        ensures
            res.ranges().len() == 0,
    {
        BlockRangeRow { row: Vec::new() }
    }

    /// Adds the columns of `range` to the row, merging it with every range
    /// that it overlaps or touches.
    #[verifier::spinoff_prover]
    pub fn add_range(&mut self, range: &BlockRange)
        requires
            row_ok(old(self).ranges()),
        ensures
            row_ok(final(self).ranges()),
            forall|x: int| covers(final(self).ranges(), x) <==> (covers(old(self).ranges(), x)
                || range.beg_spec() <= x < range.end_spec()),
    {
        proof {
            use_type_invariant(range);
        }
        let ghost old_row = self.row@;
        let n = self.row.len();
        // first range starting at or after `range.beg`
        let mut lo: usize = 0;
        while lo < n && self.row[lo].beg < range.beg
            invariant
                lo <= n,
                n == self.row.len(),
                forall|i: int| 0 <= i < lo ==> (#[trigger] self.row[i]).beg < range.beg,
            decreases n - lo,
        {
            lo = lo + 1;
        }
        // first range starting after `range.end`
        let mut hi: usize = lo;
        let mut comb = *range;
        while hi < n && self.row[hi].beg <= range.end
            invariant
                lo <= hi <= n,
                n == self.row.len(),
                self.row@ == old_row,
                row_ok(old_row),
                range.beg_spec() <= range.end_spec(),
                lo < n ==> old_row[lo as int].beg_spec() >= range.beg_spec(),
                forall|i: int| 0 <= i < lo ==> (#[trigger] old_row[i]).beg_spec() < range.beg_spec(),
                forall|i: int| lo <= i < hi ==> (#[trigger] old_row[i]).beg_spec() <= range.end_spec(),
                comb.beg_spec() == range.beg_spec(),
                hi > lo ==> comb.end_spec() == max(range.end_spec() as int, old_row[hi - 1].end_spec() as int),
                hi == lo ==> comb.end_spec() == range.end_spec(),
            decreases n - hi,
        {
            let r = self.row[hi];
            proof {
                if hi > lo {
                    assert(old_row[hi - 1].end_spec() < old_row[hi as int].beg_spec());
                }
                if lo < hi {
                    assert(old_row[lo as int].beg_spec() <= old_row[hi as int].beg_spec()) by {
                        assert(old_row[lo as int].end_spec() < old_row[hi as int].beg_spec());
                    }
                }
            }
            comb.combine(&r);
            hi = hi + 1;
        }
        let mut start = lo;
        if lo > 0 {
            let prev = self.row[lo - 1];
            if comb.combine(&prev) {
                start = lo - 1;
            }
        }
        let mut new_row: Vec<BlockRange> = Vec::new();
        let mut i: usize = 0;
        while i < start
            invariant
                i <= start <= lo <= hi <= n,
                n == self.row.len(),
                self.row@ == old_row,
                new_row@ == old_row.subrange(0, i as int),
            decreases start - i,
        {
            new_row.push(self.row[i]);
            i = i + 1;
            proof {
                assert(old_row.subrange(0, i as int) =~= old_row.subrange(0, i - 1).push(old_row[i - 1]));
            }
        }
        new_row.push(comb);
        let mut j: usize = hi;
        proof {
            assert(old_row.subrange(hi as int, hi as int) =~= Seq::<BlockRange>::empty());
            assert(new_row@ =~= old_row.subrange(0, start as int).push(comb) + old_row.subrange(hi as int, hi as int));
        }
        while j < n
            invariant
                hi <= j <= n,
                n == self.row.len(),
                self.row@ == old_row,
                new_row@ == old_row.subrange(0, start as int).push(comb) + old_row.subrange(hi as int, j as int),
            decreases n - j,
        {
            new_row.push(self.row[j]);
            j = j + 1;
            proof {
                assert(old_row.subrange(hi as int, j as int) =~= old_row.subrange(hi as int, j - 1).push(old_row[j - 1]));
            }
        }
        self.row = new_row;
        proof {
            lemma_add_range(old_row, *range, lo as int, hi as int, start as int, comb);
            assert(n == old_row.len());
            let m = old_row.subrange(0, start as int).push(comb) + old_row.subrange(hi as int, old_row.len() as int);
            assert(self.row@ =~= m);
            assert forall|x: int| covers(self.row@, x) <==> (covers(old_row, x) || range.beg_spec() <= x < range.end_spec()) by {
                assert(covers(m, x) <==> (covers(old_row, x) || range.beg_spec() <= x < range.end_spec()));
            }
            assert(old(self).row@ == old_row);
            assert(self.ranges() == self.row@);
            assert forall|x: int| covers(self.ranges(), x) <==> (covers(old(self).ranges(), x) || range.beg_spec() <= x < range.end_spec()) by {
            }
        }
    }

    /// The ends of the ranges, in order: begin, end, begin, end, ...
    pub fn search_arr(&self) -> (res: Vec<usize>)
        ensures
            res@.len() == 2 * self.ranges().len(),
            forall|i: int| 0 <= i < self.ranges().len() ==> res@[2 * i] == (#[trigger] self.ranges()[i]).beg_spec()
                && res@[2 * i + 1] == self.ranges()[i].end_spec(),
    {
        let mut arr: Vec<usize> = Vec::new();
        let mut i: usize = 0;
        while i < self.row.len()
            invariant
                i <= self.row.len(),
                arr@.len() == 2 * i,
                forall|k: int| 0 <= k < i ==> arr@[2 * k] == (#[trigger] self.row@[k]).beg_spec()
                    && arr@[2 * k + 1] == self.row@[k].end_spec(),
            decreases self.row.len() - i,
        {
            arr.push(self.row[i].beg);
            arr.push(self.row[i].end);
            i = i + 1;
        }
        arr
    }
}

proof fn lemma_add_range(old_row: Seq<BlockRange>, range: BlockRange, lo: int, hi: int, start: int, comb: BlockRange)
    requires
        row_ok(old_row),
        range.beg_spec() <= range.end_spec(),
        0 <= lo <= hi <= old_row.len(),
        start == lo || (start == lo - 1 && lo > 0),
        forall|i: int| 0 <= i < lo ==> (#[trigger] old_row[i]).beg_spec() < range.beg_spec(),
        lo < old_row.len() ==> old_row[lo].beg_spec() >= range.beg_spec(),
        forall|i: int| lo <= i < hi ==> (#[trigger] old_row[i]).beg_spec() <= range.end_spec(),
        hi < old_row.len() ==> old_row[hi].beg_spec() > range.end_spec(),
        start == lo ==> comb.beg_spec() == range.beg_spec() && (lo > 0 ==> old_row[lo - 1].end_spec() < range.beg_spec()),
        start == lo - 1 ==> comb.beg_spec() == old_row[lo - 1].beg_spec() && old_row[lo - 1].end_spec() >= range.beg_spec(),
        comb.end_spec() == max(
            max(range.end_spec() as int, if hi > lo { old_row[hi - 1].end_spec() as int } else { 0 }),
            if start < lo { old_row[lo - 1].end_spec() as int } else { 0 },
        ),
    ensures
        row_ok(old_row.subrange(0, start).push(comb) + old_row.subrange(hi, old_row.len() as int)),
        forall|x: int| covers(old_row.subrange(0, start).push(comb) + old_row.subrange(hi, old_row.len() as int), x)
            <==> (covers(old_row, x) || range.beg_spec() <= x < range.end_spec()),
{
    let m = old_row.subrange(0, start).push(comb) + old_row.subrange(hi, old_row.len() as int);
    let n = old_row.len();
    assert(m.len() == start + 1 + (n - hi));
    assert forall|k: int| 0 <= k < m.len() implies #[trigger] m[k] == if k < start { old_row[k] } else if k == start { comb } else { old_row[k - start - 1 + hi] } by {}
    // every range from `lo` on starts at or after `range.beg`
    assert forall|i: int| lo <= i < n implies (#[trigger] old_row[i]).beg_spec() >= range.beg_spec() by {
        if i > lo {
            assert(old_row[lo].end_spec() < old_row[i].beg_spec());
        }
    }
    // every range from `hi` on starts after `range.end`
    assert forall|i: int| hi <= i < n implies (#[trigger] old_row[i]).beg_spec() > range.end_spec() by {
        if i > hi {
            assert(old_row[hi].end_spec() < old_row[i].beg_spec());
        }
    }
    assert forall|i: int, j: int| 0 <= i < j < m.len() implies (#[trigger] m[i]).end_spec() < (#[trigger] m[j]).beg_spec() by {
        if j < start {
        } else if j == start {
            if start == lo {
                if lo > 0 && i < lo - 1 {
                    assert(old_row[i].end_spec() < old_row[lo - 1].beg_spec());
                }
            } else {
                assert(old_row[i].end_spec() < old_row[lo - 1].beg_spec());
            }
        } else if i > start {
        } else {
            let jj = j - start - 1 + hi;
            if i == start {
                if hi > lo {
                    assert(old_row[hi - 1].end_spec() < old_row[jj].beg_spec());
                }
                if start < lo {
                    if lo < hi {
                        assert(old_row[lo - 1].end_spec() < old_row[lo].beg_spec());
                        assert(old_row[lo].end_spec() < old_row[jj].beg_spec() || lo == jj);
                    } else {
                        assert(old_row[lo - 1].end_spec() < old_row[jj].beg_spec());
                    }
                }
            } else {
                assert(old_row[i].end_spec() < old_row[jj].beg_spec());
            }
        }
    }
    assert forall|x: int| covers(m, x) implies (covers(old_row, x) || range.beg_spec() <= x < range.end_spec()) by {
        let k = choose|k: int| 0 <= k < m.len() && (#[trigger] m[k]).beg_spec() <= x < m[k].end_spec();
        if k < start {
            assert(old_row[k].beg_spec() <= x < old_row[k].end_spec());
        } else if k > start {
            let kk = k - start - 1 + hi;
            assert(old_row[kk].beg_spec() <= x < old_row[kk].end_spec());
        } else if range.beg_spec() <= x < range.end_spec() {
        } else if x < range.beg_spec() {
            assert(old_row[lo - 1].beg_spec() <= x < old_row[lo - 1].end_spec());
        } else if start < lo && x < old_row[lo - 1].end_spec() {
            assert(old_row[lo - 1].beg_spec() <= x < old_row[lo - 1].end_spec());
        } else {
            assert(hi > lo);
            assert(old_row[hi - 1].beg_spec() <= x < old_row[hi - 1].end_spec());
        }
    }
    assert forall|x: int| (covers(old_row, x) || range.beg_spec() <= x < range.end_spec()) implies covers(m, x) by {
        if range.beg_spec() <= x < range.end_spec() {
            assert(m[start].beg_spec() <= x < m[start].end_spec());
        } else {
            let k = choose|k: int| 0 <= k < n && (#[trigger] old_row[k]).beg_spec() <= x < old_row[k].end_spec();
            if k < start {
                assert(m[k] == old_row[k]);
            } else if k >= hi {
                assert(m[k - hi + start + 1] == old_row[k]);
            } else if k < lo {
                assert(k == lo - 1 && start < lo);
                assert(m[start].beg_spec() <= x < m[start].end_spec());
            } else {
                if k < hi - 1 {
                    assert(old_row[k].end_spec() < old_row[hi - 1].beg_spec());
                }
                assert(m[start].beg_spec() <= x < m[start].end_spec());
            }
        }
    }
}

/// The ends of the ranges of a row, in order: begin, end, begin, end, ...
pub open spec fn flat(row: Seq<BlockRange>) -> Seq<usize> {
    Seq::new(
        (2 * row.len()) as nat,
        |k: int| if k % 2 == 0 { row[k / 2].beg_spec() } else { row[k / 2].end_spec() },
    )
}

/// Whether a list of columns never decreases.
pub open spec fn sorted(arr: Seq<usize>) -> bool {
    forall|i: int, j: int| 0 <= i <= j < arr.len() ==> arr[i] <= arr[j]
}

/// Whether `i` is the first place of `arr` whose value is not below `c`.
pub open spec fn is_lower_bound(arr: Seq<usize>, c: usize, i: int) -> bool {
    &&& 0 <= i <= arr.len()
    &&& forall|k: int| 0 <= k < i ==> arr[k] < c
    &&& i < arr.len() ==> arr[i] >= c
}

/// The first place of a sorted `arr` whose value is not below `c`.
pub open spec fn lower_bound(arr: Seq<usize>, c: usize) -> int {
    choose|i: int| is_lower_bound(arr, c, i)
}

/// What a column `c` meets in a row given by its flat list of range ends,
/// where `i` is the first end not below `c`: whether the column is clay
/// (`Block`) or free (`Leak`), and the ends around it.
pub open spec fn col_search(arr: Seq<usize>, c: usize, i: int) -> (FlowEndType, usize, usize) {
    if i < arr.len() && arr[i] == c {
        (
            if i % 2 == 0 { FlowEndType::Block } else { FlowEndType::Leak },
            c,
            if i + 1 < arr.len() { arr[i + 1] } else { usize::MAX },
        )
    } else {
        (
            if i % 2 == 0 { FlowEndType::Leak } else { FlowEndType::Block },
            if i > 0 { arr[i - 1] } else { 0 },
            if i < arr.len() { arr[i] } else { usize::MAX },
        )
    }
}

pub proof fn lemma_flat_sorted(row: Seq<BlockRange>)
    requires
        row_ok(row),
    ensures
        sorted(flat(row)),
{
    let a = flat(row);
    assert forall|i: int, j: int| 0 <= i <= j < a.len() implies a[i] <= a[j] by {
        let p = i / 2;
        let q = j / 2;
        assert(p <= q) by (nonlinear_arith)
            requires
                0 <= i <= j,
                p == i / 2,
                q == j / 2,
        ;
        assert(0 <= p && q < row.len()) by (nonlinear_arith)
            requires
                0 <= i <= j < 2 * row.len(),
                p == i / 2,
                q == j / 2,
        ;
        assert(row[p].beg_spec() <= row[p].end_spec());
        if p < q {
            assert(row[p].end_spec() < row[q].beg_spec());
            assert(row[q].beg_spec() <= row[q].end_spec());
        }
    }
}

proof fn lemma_lower_bound_unique(arr: Seq<usize>, c: usize, i: int)
    requires
        is_lower_bound(arr, c, i),
    ensures
        lower_bound(arr, c) == i,
{
    let j = lower_bound(arr, c);
    assert(is_lower_bound(arr, c, j));
    if j < i {
        assert(arr[j] < c);
    }
    if i < j {
        assert(arr[i] < c);
    }
}

/// The first place of a sorted `arr` whose value is not below `c`.
fn lower_bound_index(arr: &Vec<usize>, c: usize) -> (res: usize)
    requires
        sorted(arr@),
    ensures
        is_lower_bound(arr@, c, res as int),
        res == lower_bound(arr@, c),
{
    let mut lo: usize = 0;
    let mut hi: usize = arr.len();
    while lo < hi
        invariant
            0 <= lo <= hi <= arr.len(),
            sorted(arr@),
            forall|k: int| 0 <= k < lo ==> arr@[k] < c,
            forall|k: int| hi <= k < arr.len() ==> arr@[k] >= c,
        decreases hi - lo,
    {
        let mid = lo + (hi - lo) / 2;
        if arr[mid] < c {
            lo = mid + 1;
        } else {
            hi = mid;
        }
    }
    proof {
        lemma_lower_bound_unique(arr@, c, lo as int);
    }
    lo
}

/// Whether a column is clay or free.
#[derive(Debug, Clone, Copy, PartialEq, Eq, Structural)]
pub enum FlowEndType {
    Block,
    Leak,
}

/// Where water flowing sideways stops, and whether it stops at a wall of
/// clay or falls off an edge.
#[derive(Debug, Clone, Copy, PartialEq, Eq, Structural)]
pub struct FlowEnd {
    pub end_type: FlowEndType,
    pub ind: usize,
}

impl FlowEnd {
    pub fn block(ind: usize) -> (res: FlowEnd)
        ensures
            res == (FlowEnd { end_type: FlowEndType::Block, ind }),
    {
        FlowEnd { end_type: FlowEndType::Block, ind }
    }

    pub fn leak(ind: usize) -> (res: FlowEnd)
        ensures
            res == (FlowEnd { end_type: FlowEndType::Leak, ind }),
    {
        FlowEnd { end_type: FlowEndType::Leak, ind }
    }
}

/// The clay under ground: for each row that has any, its clay ranges.
#[derive(Clone)]
pub struct UnderGroundMap {
    keys: Vec<usize>,
    rows: Vec<BlockRangeRow>,
    horz_beg: usize,
    horz_end: usize,
}

impl UnderGroundMap {
    /// Rows are kept in increasing order, each well formed.
    pub closed spec fn wf(&self) -> bool {
        &&& self.keys.len() == self.rows.len()
        &&& forall|i: int, j: int| 0 <= i < j < self.keys.len() ==> self.keys[i] < self.keys[j]
        &&& forall|i: int| 0 <= i < self.rows.len() ==> row_ok(#[trigger] self.rows[i].ranges())
    }

    /// The indices of the rows that hold clay, in increasing order.
    pub closed spec fn row_keys(&self) -> Seq<usize> {
        self.keys@
    }

    /// Whether row `r` holds clay.
    pub open spec fn has_row(&self, r: usize) -> bool {
        self.row_keys().contains(r)
    }

    /// The clay ranges of row `r`.
    pub closed spec fn row(&self, r: usize) -> Seq<BlockRange> {
        self.rows[self.keys@.index_of(r)].ranges()
    }

    pub closed spec fn horz_beg_spec(&self) -> usize {
        self.horz_beg
    }

    pub closed spec fn horz_end_spec(&self) -> usize {
        self.horz_end
    }

    /// What column `c` of row `r` meets, as the search over the row's range
    /// ends gives it.
    pub open spec fn search_spec(&self, r: usize, c: usize) -> (FlowEndType, usize, usize) {
        if !self.has_row(r) {
            (FlowEndType::Leak, 0, usize::MAX)
        } else {
            col_search(flat(self.row(r)), c, lower_bound(flat(self.row(r)), c))
        }
    }

    proof fn lemma_row_at(&self, i: int)
        requires
            self.wf(),
            0 <= i < self.keys.len(),
        ensures
            self.has_row(self.keys[i]),
            self.row(self.keys[i]) == self.rows[i].ranges(),
            row_ok(self.row(self.keys[i])),
    {
        let k = self.keys@[i];
        assert(self.keys@[i] == k);
        let j = self.keys@.index_of(k);
        assert(self.keys@.contains(k));
        assert(self.keys@[j] == k);
        if j != i {
            if j < i {
                assert(self.keys[j] < self.keys[i]);
            } else {
                assert(self.keys[i] < self.keys[j]);
            }
        }
    }

    pub fn new() -> (res: Self)
        ensures
            res.wf(),
            res.row_keys().len() == 0,
            res.horz_beg_spec() == 0,
            res.horz_end_spec() == 0,
    {
        UnderGroundMap { keys: Vec::new(), rows: Vec::new(), horz_beg: 0, horz_end: 0 }
    }

    /// Where row `r` is, or would be inserted, among the rows.
    fn key_pos(&self, r: usize) -> (res: (bool, usize))
        requires
            self.wf(),
        ensures
            res.1 <= self.keys.len(),
            forall|k: int| 0 <= k < res.1 ==> self.keys[k] < r,
            res.0 ==> res.1 < self.keys.len() && self.keys[res.1 as int] == r,
            !res.0 ==> (res.1 < self.keys.len() ==> self.keys[res.1 as int] > r),
            res.0 == self.has_row(r),
    {
        let mut i: usize = 0;
        while i < self.keys.len() && self.keys[i] < r
            invariant
                i <= self.keys.len(),
                forall|k: int| 0 <= k < i ==> self.keys[k] < r,
            decreases self.keys.len() - i,
        {
            i = i + 1;
        }
        let found = i < self.keys.len() && self.keys[i] == r;
        proof {
            if !found && self.keys@.contains(r) {
                let j = choose|j: int| 0 <= j < self.keys.len() && self.keys@[j] == r;
                if j >= i {
                    if j > i {
                        assert(self.keys[i as int] < self.keys[j]);
                    }
                }
            }
            if found {
                assert(self.keys@[i as int] == r);
            }
        }
        (found, i)
    }

    /// Adds the clay of `range` to row `r`, and widens the horizontal range
    /// of the map to take it in.
    pub fn add_row_range(&mut self, r: usize, range: &BlockRange)
        requires
            old(self).wf(),
        ensures
            final(self).wf(),
            final(self).horz_beg_spec() == min(old(self).horz_beg_spec() as int, range.beg_spec() as int),
            final(self).horz_end_spec() == max(old(self).horz_end_spec() as int, range.end_spec() as int),
            forall|r2: usize| final(self).has_row(r2) <==> (old(self).has_row(r2) || r2 == r),
            forall|r2: usize| r2 != r && old(self).has_row(r2) ==> final(self).row(r2) == old(self).row(r2),
            forall|x: int| covers(final(self).row(r), x) <==> ((old(self).has_row(r) && covers(old(self).row(r), x))
                || range.beg_spec() <= x < range.end_spec()),
    {
        self.horz_beg = if self.horz_beg <= range.beg { self.horz_beg } else { range.beg };
        self.horz_end = if self.horz_end >= range.end { self.horz_end } else { range.end };
        let ghost pre = *self;
        let (found, i) = self.key_pos(r);
        if found {
            proof {
                pre.lemma_row_at(i as int);
            }
            let mut row = self.rows.remove(i);
            row.add_range(range);
            self.rows.insert(i, row);
        } else {
            let mut row = BlockRangeRow::new();
            proof {
                assert forall|x: int| !covers(row.ranges(), x) by {}
            }
            row.add_range(range);
            self.keys.insert(i, r);
            self.rows.insert(i, row);
        }
        proof {
            lemma_add_row(pre, *self, r, i as int, found);
            assert(forall|r2: usize| old(self).has_row(r2) == pre.has_row(r2));
            assert(forall|r2: usize| old(self).row(r2) == pre.row(r2));
        }
    }

    /// The columns that clay has been seen in, from the first to past the last.
    pub fn horz_range(&self) -> (res: std::ops::Range<usize>)
        ensures
            res.start == self.horz_beg_spec(),
            res.end == self.horz_end_spec(),
    {
        std::ops::Range { start: self.horz_beg, end: self.horz_end }
    }

    /// The rows from the first that holds clay to past the last; `0..1` when
    /// there is none.
    pub fn vert_range(&self) -> (res: std::ops::Range<usize>)
        requires
            self.wf(),
        ensures
            res.start == (if self.row_keys().len() == 0 { 0 } else { self.row_keys()[0] }),
            res.end == (if self.row_keys().len() == 0 { 1 } else if self.row_keys().last() == usize::MAX {
                usize::MAX as int
            } else {
                self.row_keys().last() + 1
            }),
    {
        let n = self.keys.len();
        let min = if n == 0 { 0 } else { self.keys[0] };
        let max = if n == 0 { 0 } else { self.keys[n - 1] };
        let end = if max == usize::MAX { usize::MAX } else { max + 1 };
        std::ops::Range { start: min, end }
    }

    /// The flat list of range ends of row `r`, which holds clay.
    pub fn search_row(&self, r: usize) -> (res: Vec<usize>)
        requires
            self.wf(),
            self.has_row(r),
        ensures
            res@ == flat(self.row(r)),
    {
        let (_, i) = self.key_pos(r);
        proof {
            self.lemma_row_at(i as int);
        }
        let arr = self.rows[i].search_arr();
        proof {
            assert(arr@ =~= flat(self.row(r)));
        }
        arr
    }

    /// What column `c` of row `r` meets: clay or a free place, and the
    /// range ends on both sides of it.
    pub fn search_same_col_range(&self, r: usize, c: usize) -> (res: (FlowEndType, usize, usize))
        requires
            self.wf(),
        ensures
            res == self.search_spec(r, c),
    {
        let (found, i) = self.key_pos(r);
        if !found {
            return (FlowEndType::Leak, 0, usize::MAX);
        }
        let arr = self.search_row(r);
        proof {
            self.lemma_row_at(i as int);
            lemma_flat_sorted(self.row(r));
        }
        let ind = lower_bound_index(&arr, c);
        let n = arr.len();
        if ind < n && arr[ind] == c {
            let next = if ind + 1 < n { arr[ind + 1] } else { usize::MAX };
            if ind % 2 == 0 {
                (FlowEndType::Block, arr[ind], next)
            } else {
                (FlowEndType::Leak, arr[ind], next)
            }
        } else {
            let prev = if ind > 0 { arr[ind - 1] } else { 0 };
            let next = if ind < n { arr[ind] } else { usize::MAX };
            if ind % 2 == 0 {
                (FlowEndType::Leak, prev, next)
            } else {
                (FlowEndType::Block, prev, next)
            }
        }
    }

    /// Whether column `c` of row `r` is clay.
    pub fn is_blocked(&self, r: usize, c: usize) -> (res: bool)
        requires
            self.wf(),
        ensures
            res == (self.search_spec(r, c).0 == FlowEndType::Block),
    {
        let (end_type, _, _) = self.search_same_col_range(r, c);
        end_type == FlowEndType::Block
    }

    /// Where water let into column `c` of row `r` runs to on both sides:
    /// to the clay around it in its own row, or past the edge of the clay
    /// in the row below.
    pub fn flow_hort(&self, r: usize, c: usize) -> (res: Result<(FlowEnd, FlowEnd), Error>)
        requires
            self.wf(),
            r < usize::MAX,
        ensures
            ({
                let cur = self.search_spec(r, c);
                let next = self.search_spec((r + 1) as usize, c);
                if cur.0 == FlowEndType::Block {
                    res == Err::<(FlowEnd, FlowEnd), Error>(Error::WaterFlowThroughClay(Position { r, c }))
                } else if next.0 == FlowEndType::Leak {
                    res == Err::<(FlowEnd, FlowEnd), Error>(Error::WaterBlockedByGhost(Position { r: (r + 1) as usize, c }))
                } else {
                    res == Ok::<(FlowEnd, FlowEnd), Error>((
                        if cur.1 >= next.1 {
                            FlowEnd { end_type: FlowEndType::Block, ind: if cur.1 > 0 { (cur.1 - 1) as usize } else { 0 } }
                        } else {
                            FlowEnd { end_type: FlowEndType::Leak, ind: if next.1 > 0 { (next.1 - 1) as usize } else { 0 } }
                        },
                        if cur.2 <= next.2 {
                            FlowEnd { end_type: FlowEndType::Block, ind: cur.2 }
                        } else {
                            FlowEnd { end_type: FlowEndType::Leak, ind: next.2 }
                        },
                    ))
                }
            }),
    {
        let (cur_row_type, cur_left_pos, cur_right_pos) = self.search_same_col_range(r, c);
        if cur_row_type == FlowEndType::Block {
            return Err(Error::WaterFlowThroughClay(Position::new(r, c)));
        }
        let (next_row_type, next_left_pos, next_right_pos) = self.search_same_col_range(r + 1, c);
        if next_row_type == FlowEndType::Leak {
            return Err(Error::WaterBlockedByGhost(Position::new(r + 1, c)));
        }
        let left_end = if cur_left_pos >= next_left_pos {
            FlowEnd::block(cur_left_pos.saturating_sub(1))
        } else {
            FlowEnd::leak(next_left_pos.saturating_sub(1))
        };
        let right_end = if cur_right_pos <= next_right_pos {
            FlowEnd::block(cur_right_pos)
        } else {
            FlowEnd::leak(next_right_pos)
        };
        Ok((left_end, right_end))
    }
}

/// A single number.
pub const NUMBER_PATTERN: &'static str = r"^\d+$";

/// Two numbers with `..` between them, the last taken in.
pub const RANGE_PATTERN: &'static str = r"^(\d+)..(\d+)$";

/// The range `[beg, end)` that `text` writes: a single number, or two with
/// `..` between them, the second taken in; none where a number is beyond
/// what the range can hold or the first comes after the second.
pub open spec fn range_read(text: Seq<char>) -> Option<(int, int)> {
    if regex_match_spec(NUMBER_PATTERN@, text) {
        match int_value(text) {
            Some(v) => if 0 <= v < usize::MAX {
                Some((v, v + 1))
            } else {
                None
            },
            None => None,
        }
    } else {
        match regex_captures_spec(RANGE_PATTERN@, text) {
            Some(c) => match (group_int_spec(c, 1, 0, usize::MAX as int), group_int_spec(c, 2, 0, usize::MAX - 1)) {
                (Some(b), Some(e)) => if b <= e + 1 {
                    Some((b, e + 1))
                } else {
                    None
                },
                _ => None,
            },
            None => None,
        }
    }
}

/// What reading `text` as a range gives.
pub open spec fn range_result(text: Seq<char>, res: Result<BlockRange, Error>) -> bool {
    match range_read(text) {
        Some((b, e)) => res matches Ok(r) && r.beg_spec() == b && r.end_spec() == e,
        None => res matches Err(Error::BlockRangeParseError(t)) && t@ == text,
    }
}

impl BlockRange {
    /// Reads a range of columns or rows: `n` or `a..b`.
    pub fn try_from(text: &str) -> (res: Result<BlockRange, Error>)
        ensures
            range_result(text@, res),
    {
        if regex_is_match(NUMBER_PATTERN, text) {
            match parse_int(text) {
                Some(v) => if 0 <= v && v < usize::MAX as i128 {
                    return Ok(BlockRange::beg_len(v as usize, 1));
                },
                None => {},
            }
            Err(Error::BlockRangeParseError(text.to_string()))
        } else {
            match regex_captures(RANGE_PATTERN, text) {
                Some(caps) => Self::from_captures(&caps, text),
                None => Err(Error::BlockRangeParseError(text.to_string())),
            }
        }
    }

    /// The range that the groups `caps` of a match of `RANGE_PATTERN` in
    /// `text` write.
    pub fn from_captures(caps: &Vec<Option<String>>, text: &str) -> (res: Result<BlockRange, Error>)
        ensures
            match (group_int_spec(caps_view(caps@), 1, 0, usize::MAX as int), group_int_spec(caps_view(caps@), 2, 0, usize::MAX - 1)) {
                (Some(b), Some(e)) => if b <= e + 1 {
                    res matches Ok(r) && r.beg_spec() == b && r.end_spec() == e + 1
                } else {
                    res matches Err(Error::BlockRangeParseError(t)) && t@ == text@
                },
                _ => res matches Err(Error::BlockRangeParseError(t)) && t@ == text@,
            },
    {
        match (group_int(caps, 1, 0, usize::MAX as i128), group_int(caps, 2, 0, usize::MAX as i128 - 1)) {
            (Some(b), Some(e)) => if b <= e + 1 {
                Ok(BlockRange::beg_end(b as usize, (e + 1) as usize))
            } else {
                Err(Error::BlockRangeParseError(text.to_string()))
            },
            _ => Err(Error::BlockRangeParseError(text.to_string())),
        }
    }
}

/// Columns then rows: `x=.., y=..`.
pub const XY_PATTERN: &'static str = r"x=([0-9.]+), y=([0-9.]+)";

/// Rows then columns: `y=.., x=..`.
pub const YX_PATTERN: &'static str = r"y=([0-9.]+), x=([0-9.]+)";

/// The texts of the columns and of the rows of a rectangle, from what the
/// two patterns capture in a line: `x=.., y=..` first, else `y=.., x=..`.
pub open spec fn rect_texts(text: Seq<char>) -> Option<(Seq<char>, Seq<char>)> {
    match regex_captures_spec(XY_PATTERN@, text) {
        Some(c) => if c.len() > 2 && c[1] is Some && c[2] is Some {
            Some((c[1]->0, c[2]->0))
        } else {
            None
        },
        None => match regex_captures_spec(YX_PATTERN@, text) {
            Some(c) => if c.len() > 2 && c[1] is Some && c[2] is Some {
                Some((c[2]->0, c[1]->0))
            } else {
                None
            },
            None => None,
        },
    }
}

/// What reading `text` as a rectangle gives: the rows are read before the
/// columns.
pub open spec fn rect_result(text: Seq<char>, res: Result<BlockRect, Error>) -> bool {
    match rect_texts(text) {
        None => res matches Err(Error::BlockRectParseFormat(t)) && t@ == text,
        Some((xt, yt)) => sides_result(xt, yt, res),
    }
}

/// What reading a rectangle from the text `xt` of its columns and the text
/// `yt` of its rows gives.
pub open spec fn sides_result(xt: Seq<char>, yt: Seq<char>, res: Result<BlockRect, Error>) -> bool {
    match (range_read(yt), range_read(xt)) {
        (None, _) => res matches Err(Error::BlockRangeParseError(t)) && t@ == yt,
        (Some(_), None) => res matches Err(Error::BlockRangeParseError(t)) && t@ == xt,
        (Some((yb, ye)), Some((xb, xe))) => res matches Ok(rect) && rect.top() == yb && rect.bottom() == ye - 1
            && rect.left() == xb && rect.right() == xe - 1,
    }
}

/// A rectangle of clay, from its top left corner to its bottom right corner,
/// both taken in.
#[derive(Debug, Clone, Copy)]
pub struct BlockRect {
    top_left: Position,
    bottom_right: Position,
}

impl BlockRect {
    #[verifier::type_invariant]
    spec fn corners_ordered(self) -> bool {
        &&& self.top_left.r <= self.bottom_right.r + 1
        &&& self.top_left.c <= self.bottom_right.c + 1
        &&& self.bottom_right.r < usize::MAX
        &&& self.bottom_right.c < usize::MAX
    }

    pub closed spec fn top(&self) -> usize {
        self.top_left.r
    }

    pub closed spec fn bottom(&self) -> usize {
        self.bottom_right.r
    }

    pub closed spec fn left(&self) -> usize {
        self.top_left.c
    }

    pub closed spec fn right(&self) -> usize {
        self.bottom_right.c
    }

    /// The rectangle over the rows of `row_range` and the columns of
    /// `col_range`.
    pub fn from_range(row_range: &BlockRange, col_range: &BlockRange) -> (res: BlockRect)
        requires
            row_range.end_spec() >= 1,
            col_range.end_spec() >= 1,
        ensures
            res.top() == row_range.beg_spec(),
            res.bottom() == row_range.end_spec() - 1,
            res.left() == col_range.beg_spec(),
            res.right() == col_range.end_spec() - 1,
    {
        proof {
            use_type_invariant(row_range);
            use_type_invariant(col_range);
        }
        BlockRect {
            top_left: Position { r: row_range.beg, c: col_range.beg },
            bottom_right: Position { r: row_range.end - 1, c: col_range.end - 1 },
        }
    }

    /// Reads a rectangle of clay from a line `x=.., y=..` or `y=.., x=..`,
    /// each side a number or a range `a..b`.
    pub fn try_from(text: &str) -> (res: Result<BlockRect, Error>)
        ensures
            rect_result(text@, res),
    {
        let (x_text, y_text) = match regex_captures(XY_PATTERN, text) {
            Some(caps) => match (group(&caps, 1), group(&caps, 2)) {
                (Some(x), Some(y)) => {
                    proof {
                        assert(caps_view(caps@)[1] == Some(x@));
                        assert(caps_view(caps@)[2] == Some(y@));
                    }
                    (x.clone(), y.clone())
                },
                _ => return Err(Error::BlockRectParseFormat(text.to_string())),
            },
            None => match regex_captures(YX_PATTERN, text) {
                Some(caps) => match (group(&caps, 2), group(&caps, 1)) {
                    (Some(x), Some(y)) => {
                        proof {
                            assert(caps_view(caps@)[2] == Some(x@));
                            assert(caps_view(caps@)[1] == Some(y@));
                        }
                        (x.clone(), y.clone())
                    },
                    _ => return Err(Error::BlockRectParseFormat(text.to_string())),
                },
                None => return Err(Error::BlockRectParseFormat(text.to_string())),
            },
        };
        Self::from_sides(x_text.as_str(), y_text.as_str())
    }

    /// The rectangle whose columns the text `x_text` gives and whose rows
    /// the text `y_text` gives, each a number or a range `a..b`.
    pub fn from_sides(x_text: &str, y_text: &str) -> (res: Result<BlockRect, Error>)
        ensures
            sides_result(x_text@, y_text@, res),
    {
        let row_range = BlockRange::try_from(y_text)?;
        let col_range = BlockRange::try_from(x_text)?;
        Ok(Self::from_range(&row_range, &col_range))
    }

    /// The rows of the rectangle, top to bottom, each with its columns.
    pub fn rows(&self) -> (res: BlockRectRowIter)
        ensures
            res.rect_spec() == *self,
            res.index_spec() == 0,
    {
        BlockRectRowIter::new(self)
    }
}

/// Walks the rows of a rectangle from top to bottom.
pub struct BlockRectRowIter {
    rect: BlockRect,
    iter_ind: usize,
}

impl BlockRectRowIter {
    #[verifier::type_invariant]
    spec fn in_bounds(self) -> bool {
        self.iter_ind + self.rect.top_left.r <= self.rect.bottom_right.r + 1
    }

    pub closed spec fn rect_spec(&self) -> BlockRect {
        self.rect
    }

    /// How many rows have been handed out.
    pub closed spec fn index_spec(&self) -> usize {
        self.iter_ind
    }

    pub fn new(rect: &BlockRect) -> (res: BlockRectRowIter)
        ensures
            res.rect_spec() == *rect,
            res.index_spec() == 0,
    {
        proof {
            use_type_invariant(rect);
        }
        BlockRectRowIter { rect: *rect, iter_ind: 0 }
    }

    /// The next row of the rectangle with its columns, or `None` past the
    /// bottom.
    pub fn next(&mut self) -> (res: Option<(usize, BlockRange)>)
        ensures
            final(self).rect_spec() == old(self).rect_spec(),
            ({
                let rect = old(self).rect_spec();
                let row = old(self).index_spec() + rect.top();
                if row <= rect.bottom() {
                    &&& final(self).index_spec() == old(self).index_spec() + 1
                    &&& res matches Some(p) && p.0 == row && p.1.beg_spec() == rect.left()
                        && p.1.end_spec() == rect.right() + 1
                } else {
                    &&& final(self).index_spec() == old(self).index_spec()
                    &&& res is None
                }
            }),
    {
        proof {
            use_type_invariant(&*self);
            use_type_invariant(&self.rect);
        }
        let row_ind = self.iter_ind + self.rect.top_left.r;
        if row_ind <= self.rect.bottom_right.r {
            let left = self.rect.top_left.c;
            let right = self.rect.bottom_right.c + 1;
            let rect = self.rect;
            *self = BlockRectRowIter { rect, iter_ind: self.iter_ind + 1 };
            Some((row_ind, BlockRange { beg: left, end: right }))
        } else {
            None
        }
    }
}

impl UnderGroundMap {
    /// Adds the clay of a rectangle, row by row.
    pub fn add_rect(&mut self, rect: &BlockRect)
        requires
            old(self).wf(),
        ensures
            final(self).wf(),
            forall|r2: usize| #[trigger] final(self).has_row(r2) <==> (old(self).has_row(r2)
                || rect.top() <= r2 <= rect.bottom()),
            forall|r2: usize, x: int| final(self).has_row(r2) ==> (#[trigger] covers(final(self).row(r2), x) <==> (
                (old(self).has_row(r2) && covers(old(self).row(r2), x))
                || (rect.top() <= r2 <= rect.bottom() && rect.left() <= x <= rect.right()))),
            rect.top() <= rect.bottom() ==> final(self).horz_beg_spec() == min(old(self).horz_beg_spec() as int, rect.left() as int)
                && final(self).horz_end_spec() == max(old(self).horz_end_spec() as int, rect.right() + 1),
            rect.top() > rect.bottom() ==> final(self).horz_beg_spec() == old(self).horz_beg_spec()
                && final(self).horz_end_spec() == old(self).horz_end_spec(),
    {
        let ghost pre = *self;
        let mut it = rect.rows();
        proof {
            use_type_invariant(&it);
            use_type_invariant(rect);
        }
        loop
            invariant_except_break
                self.wf(),
                it.rect_spec() == *rect,
                it.index_spec() + rect.top() <= rect.bottom() + 1,
                forall|r2: usize| #[trigger] self.has_row(r2) <==> (pre.has_row(r2)
                    || rect.top() <= r2 < rect.top() + it.index_spec()),
                forall|r2: usize, x: int| self.has_row(r2) ==> (#[trigger] covers(self.row(r2), x) <==> (
                    (pre.has_row(r2) && covers(pre.row(r2), x))
                    || (rect.top() <= r2 < rect.top() + it.index_spec() && rect.left() <= x <= rect.right()))),
                it.index_spec() > 0 ==> self.horz_beg_spec() == min(pre.horz_beg_spec() as int, rect.left() as int)
                    && self.horz_end_spec() == max(pre.horz_end_spec() as int, rect.right() + 1),
                it.index_spec() == 0 ==> self.horz_beg_spec() == pre.horz_beg_spec()
                    && self.horz_end_spec() == pre.horz_end_spec(),
            ensures
                self.wf(),
                it.index_spec() + rect.top() == rect.bottom() + 1,
                forall|r2: usize| #[trigger] self.has_row(r2) <==> (pre.has_row(r2)
                    || rect.top() <= r2 < rect.top() + it.index_spec()),
                forall|r2: usize, x: int| self.has_row(r2) ==> (#[trigger] covers(self.row(r2), x) <==> (
                    (pre.has_row(r2) && covers(pre.row(r2), x))
                    || (rect.top() <= r2 < rect.top() + it.index_spec() && rect.left() <= x <= rect.right()))),
                it.index_spec() > 0 ==> self.horz_beg_spec() == min(pre.horz_beg_spec() as int, rect.left() as int)
                    && self.horz_end_spec() == max(pre.horz_end_spec() as int, rect.right() + 1),
                it.index_spec() == 0 ==> self.horz_beg_spec() == pre.horz_beg_spec()
                    && self.horz_end_spec() == pre.horz_end_spec(),
            decreases rect.bottom() + 1 - (it.index_spec() + rect.top()),
        {
            let ghost mid = *self;
            let ghost k = it.index_spec();
            match it.next() {
                Some((r, range)) => {
                    assert(r == k + rect.top());
                    assert(it.index_spec() == k + 1);
                    assert(range.beg_spec() == rect.left() && range.end_spec() == rect.right() + 1);
                    self.add_row_range(r, &range);
                    proof {
                        assert forall|r2: usize| #[trigger] self.has_row(r2) <==> (pre.has_row(r2)
                            || rect.top() <= r2 < rect.top() + it.index_spec()) by {
                            assert(mid.has_row(r2) <==> (pre.has_row(r2) || rect.top() <= r2 < rect.top() + k));
                        }
                        assert forall|r2: usize, x: int| self.has_row(r2) implies (covers(self.row(r2), x) <==> (
                            (pre.has_row(r2) && covers(pre.row(r2), x))
                            || (rect.top() <= r2 < rect.top() + it.index_spec() && rect.left() <= x <= rect.right()))) by {
                            assert(mid.has_row(r2) <==> (pre.has_row(r2) || rect.top() <= r2 < rect.top() + k));
                            if r2 != r {
                                assert(mid.has_row(r2));
                                assert(self.row(r2) == mid.row(r2));
                            } else {
                                assert(mid.has_row(r2) ==> (covers(mid.row(r2), x) <==> (
                                    (pre.has_row(r2) && covers(pre.row(r2), x))
                                    || (rect.top() <= r2 < rect.top() + k && rect.left() <= x <= rect.right()))));
                            }
                        }
                    }
                },
                None => {
                    break;
                },
            }
        }
    }
}

/// Whether water only passes through a place, or comes to rest in it.
#[derive(Debug, Clone, Copy, PartialEq, Eq, Structural)]
pub enum WaterType {
    Reach,
    Rest,
}

/// A range of columns of one row that water reaches or rests in.
#[derive(Debug, Clone, Copy)]
pub struct WaterRowRange {
    water_type: WaterType,
    range: BlockRange,
}

impl WaterRowRange {
    pub closed spec fn water_type_spec(&self) -> WaterType {
        self.water_type
    }

    pub closed spec fn range_spec(&self) -> BlockRange {
        self.range
    }

    /// Water passes through `range`.
    pub fn reach(range: &BlockRange) -> (res: WaterRowRange)
        ensures
            res.water_type_spec() == WaterType::Reach,
            res.range_spec() == *range,
    {
        WaterRowRange { water_type: WaterType::Reach, range: *range }
    }

    /// Water rests in `range`.
    pub fn rest(range: &BlockRange) -> (res: WaterRowRange)
        ensures
            res.water_type_spec() == WaterType::Rest,
            res.range_spec() == *range,
    {
        WaterRowRange { water_type: WaterType::Rest, range: *range }
    }
}

/// Sum of the lengths of the ranges of a row.
pub open spec fn sum_len(row: Seq<BlockRange>) -> int
    decreases row.len(),
{
    if row.len() == 0 {
        0
    } else {
        sum_len(row.drop_last()) + (row.last().end_spec() - row.last().beg_spec())
    }
}

proof fn lemma_sum_len_bound(row: Seq<BlockRange>)
    requires
        row_ok(row),
    ensures
        0 <= sum_len(row),
        row.len() > 0 ==> sum_len(row) <= row.last().end_spec() - row[0].beg_spec(),
    decreases row.len(),
{
    if row.len() > 0 {
        let d = row.drop_last();
        assert(row_ok(d));
        lemma_sum_len_bound(d);
        assert(row.last().beg_spec() <= row.last().end_spec());
        if d.len() > 0 {
            assert(d.last().end_spec() < row.last().beg_spec());
            assert(row[0].beg_spec() <= row[0].end_spec());
        }
    }
}

impl BlockRangeRow {
    /// Sum of the lengths of the ranges.
    pub fn total_len(&self) -> (res: usize)
        requires
            row_ok(self.ranges()),
        ensures
            res == sum_len(self.ranges()),
    {
        let mut sum: usize = 0;
        let mut i: usize = 0;
        while i < self.row.len()
            invariant
                i <= self.row.len(),
                row_ok(self.row@),
                sum == sum_len(self.row@.subrange(0, i as int)),
            decreases self.row.len() - i,
        {
            let ghost pre = self.row@.subrange(0, i as int);
            let ghost nxt = self.row@.subrange(0, i + 1);
            proof {
                assert(nxt.drop_last() =~= pre);
                assert(row_ok(nxt));
                lemma_sum_len_bound(nxt);
                assert(self.row@[0].beg_spec() >= 0);
            }
            sum = sum + self.row[i].len();
            i = i + 1;
        }
        proof {
            assert(self.row@.subrange(0, i as int) =~= self.row@);
        }
        sum
    }
}

/// The water of one row: where it passes and where it rests.
pub struct WaterRow {
    reach_row: BlockRangeRow,
    rest_row: BlockRangeRow,
}

impl WaterRow {
    pub closed spec fn wf(&self) -> bool {
        row_ok(self.reach_row.ranges()) && row_ok(self.rest_row.ranges())
    }

    /// The ranges that water reaches, whether it rests there or not.
    pub closed spec fn reach_ranges(&self) -> Seq<BlockRange> {
        self.reach_row.ranges()
    }

    /// The ranges that water rests in.
    pub closed spec fn rest_ranges(&self) -> Seq<BlockRange> {
        self.rest_row.ranges()
    }

    pub fn new() -> (res: WaterRow)
        ensures
            res.wf(),
            res.reach_ranges().len() == 0,
            res.rest_ranges().len() == 0,
    {
        WaterRow { reach_row: BlockRangeRow::new(), rest_row: BlockRangeRow::new() }
    }

    /// Water reaches the columns of `range`, and rests there when it is of
    /// the resting kind.
    pub fn add_range(&mut self, range: &WaterRowRange)
        requires
            old(self).wf(),
        ensures
            final(self).wf(),
            forall|x: int| covers(final(self).reach_ranges(), x) <==> (covers(old(self).reach_ranges(), x)
                || range.range_spec().beg_spec() <= x < range.range_spec().end_spec()),
            range.water_type_spec() == WaterType::Rest ==> forall|x: int| covers(final(self).rest_ranges(), x)
                <==> (covers(old(self).rest_ranges(), x)
                || range.range_spec().beg_spec() <= x < range.range_spec().end_spec()),
            range.water_type_spec() == WaterType::Reach ==> final(self).rest_ranges() == old(self).rest_ranges(),
    {
        if range.water_type == WaterType::Rest {
            self.rest_row.add_range(&range.range);
        }
        self.reach_row.add_range(&range.range);
    }

    /// How many places water only passes through, and how many it rests in.
    pub fn count_water(&self) -> (res: (usize, usize))
        requires
            self.wf(),
        ensures
            res.0 == (if sum_len(self.reach_ranges()) >= sum_len(self.rest_ranges()) {
                sum_len(self.reach_ranges()) - sum_len(self.rest_ranges())
            } else {
                0
            }),
            res.1 == sum_len(self.rest_ranges()),
    {
        let reach_sum = self.reach_row.total_len();
        let rest_sum = self.rest_row.total_len();
        (reach_sum.saturating_sub(rest_sum), rest_sum)
    }
}

/// Places that water only passes through, and places it rests in, of one row.
pub open spec fn row_water(w: WaterRow) -> (int, int) {
    let reach = sum_len(w.reach_ranges());
    let rest = sum_len(w.rest_ranges());
    (if reach >= rest { reach - rest } else { 0 }, rest)
}

/// Water of the rows in `[vb, ve)` among the first `n` rows.
pub open spec fn water_totals(keys: Seq<usize>, rows: Seq<WaterRow>, vb: usize, ve: usize, n: int) -> (int, int)
    decreases n,
{
    if n <= 0 {
        (0, 0)
    } else {
        let t = water_totals(keys, rows, vb, ve, n - 1);
        if vb <= keys[n - 1] < ve {
            (t.0 + row_water(rows[n - 1]).0, t.1 + row_water(rows[n - 1]).1)
        } else {
            t
        }
    }
}

proof fn lemma_water_totals_nonneg(keys: Seq<usize>, rows: Seq<WaterRow>, vb: usize, ve: usize, n: int)
    requires
        n <= rows.len(),
        forall|i: int| 0 <= i < rows.len() ==> (#[trigger] rows[i]).wf(),
    ensures
        water_totals(keys, rows, vb, ve, n).0 >= 0,
        water_totals(keys, rows, vb, ve, n).1 >= 0,
    decreases n,
{
    if n > 0 {
        lemma_water_totals_nonneg(keys, rows, vb, ve, n - 1);
        assert(rows[n - 1].wf());
        lemma_sum_len_nonneg(rows[n - 1].rest_ranges());
    }
}

proof fn lemma_sum_len_nonneg(row: Seq<BlockRange>)
    ensures
        sum_len(row) >= 0 || !row_ok(row),
{
    if row_ok(row) {
        lemma_sum_len_bound(row);
    }
}

/// The water under ground, row by row, within the rows that hold clay.
pub struct WaterMap {
    keys: Vec<usize>,
    rows: Vec<WaterRow>,
    vert_beg: usize,
    vert_end: usize,
    horz_beg: usize,
    horz_end: usize,
}

impl WaterMap {
    pub closed spec fn wf(&self) -> bool {
        &&& self.keys.len() == self.rows.len()
        &&& forall|i: int, j: int| 0 <= i < j < self.keys.len() ==> self.keys[i] < self.keys[j]
        &&& forall|i: int| 0 <= i < self.rows.len() ==> (#[trigger] self.rows[i]).wf()
    }

    /// The indices of the rows that hold water, in increasing order.
    pub closed spec fn row_keys(&self) -> Seq<usize> {
        self.keys@
    }

    pub open spec fn has_row(&self, r: usize) -> bool {
        self.row_keys().contains(r)
    }

    /// The water of row `r`.
    pub closed spec fn row(&self, r: usize) -> WaterRow {
        self.rows[self.keys@.index_of(r)]
    }

    pub closed spec fn vert_beg_spec(&self) -> usize {
        self.vert_beg
    }

    pub closed spec fn vert_end_spec(&self) -> usize {
        self.vert_end
    }

    pub closed spec fn horz_beg_spec(&self) -> usize {
        self.horz_beg
    }

    pub closed spec fn horz_end_spec(&self) -> usize {
        self.horz_end
    }

    /// Places water passes through, and places it rests in, over the rows
    /// of the vertical range.
    pub closed spec fn totals(&self) -> (int, int) {
        water_totals(self.keys@, self.rows@, self.vert_beg, self.vert_end, self.keys.len() as int)
    }

    proof fn lemma_row_at(&self, i: int)
        requires
            self.wf(),
            0 <= i < self.keys.len(),
        ensures
            self.has_row(self.keys[i]),
            self.row(self.keys[i]) == self.rows[i],
            self.row(self.keys[i]).wf(),
    {
        let k = self.keys@[i];
        let j = self.keys@.index_of(k);
        assert(self.keys@.contains(k));
        assert(self.keys@[j] == k);
        if j != i {
            if j < i {
                assert(self.keys[j] < self.keys[i]);
            } else {
                assert(self.keys[i] < self.keys[j]);
            }
        }
    }

    /// An empty map that keeps water only in the rows of `vert_range`.
    pub fn new(vert_range: &std::ops::Range<usize>) -> (res: WaterMap)
        ensures
            res.wf(),
            res.row_keys().len() == 0,
            res.vert_beg_spec() == vert_range.start,
            res.vert_end_spec() == vert_range.end,
            res.horz_beg_spec() == 0,
            res.horz_end_spec() == 0,
    {
        WaterMap {
            keys: Vec::new(),
            rows: Vec::new(),
            vert_beg: vert_range.start,
            vert_end: vert_range.end,
            horz_beg: 0,
            horz_end: 0,
        }
    }

    /// Whether row `r` is in the vertical range.
    pub fn is_in_vert_range(&self, r: usize) -> (res: bool)
        ensures
            res == (self.vert_beg_spec() <= r < self.vert_end_spec()),
    {
        r >= self.vert_beg && r < self.vert_end
    }

    /// The columns that water has been seen in, from the first to past the last.
    pub fn horz_range(&self) -> (res: std::ops::Range<usize>)
        ensures
            res.start == self.horz_beg_spec(),
            res.end == self.horz_end_spec(),
    {
        std::ops::Range { start: self.horz_beg, end: self.horz_end }
    }

    /// Where row `r` is, or would be inserted, among the rows.
    fn key_pos(&self, r: usize) -> (res: (bool, usize))
        requires
            self.wf(),
        ensures
            res.1 <= self.keys.len(),
            forall|k: int| 0 <= k < res.1 ==> self.keys[k] < r,
            res.0 ==> res.1 < self.keys.len() && self.keys[res.1 as int] == r,
            !res.0 ==> (res.1 < self.keys.len() ==> self.keys[res.1 as int] > r),
            res.0 == self.has_row(r),
    {
        let mut i: usize = 0;
        while i < self.keys.len() && self.keys[i] < r
            invariant
                i <= self.keys.len(),
                forall|k: int| 0 <= k < i ==> self.keys[k] < r,
            decreases self.keys.len() - i,
        {
            i = i + 1;
        }
        let found = i < self.keys.len() && self.keys[i] == r;
        proof {
            if !found && self.keys@.contains(r) {
                let j = choose|j: int| 0 <= j < self.keys.len() && self.keys@[j] == r;
                if j > i {
                    assert(self.keys[i as int] < self.keys[j]);
                }
            }
            if found {
                assert(self.keys@[i as int] == r);
            }
        }
        (found, i)
    }

    /// Water reaches, or rests in, the columns of `range` in row `r`; rows
    /// outside the vertical range are left as they are.
    pub fn add_row_range(&mut self, r: usize, range: &WaterRowRange)
        requires
            old(self).wf(),
        ensures
            final(self).wf(),
            final(self).vert_beg_spec() == old(self).vert_beg_spec(),
            final(self).vert_end_spec() == old(self).vert_end_spec(),
            !(old(self).vert_beg_spec() <= r < old(self).vert_end_spec()) ==> *final(self) == *old(self),
            old(self).vert_beg_spec() <= r < old(self).vert_end_spec() ==> {
                &&& final(self).horz_beg_spec() == min(old(self).horz_beg_spec() as int, range.range_spec().beg_spec() as int)
                &&& final(self).horz_end_spec() == max(old(self).horz_end_spec() as int, range.range_spec().end_spec() as int)
                &&& forall|r2: usize| #[trigger] final(self).has_row(r2) <==> (old(self).has_row(r2) || r2 == r)
                &&& forall|r2: usize| r2 != r && old(self).has_row(r2) ==> #[trigger] final(self).row(r2) == old(self).row(r2)
                &&& forall|x: int| #[trigger] covers(final(self).row(r).reach_ranges(), x) <==> ((old(self).has_row(r)
                    && covers(old(self).row(r).reach_ranges(), x))
                    || range.range_spec().beg_spec() <= x < range.range_spec().end_spec())
                &&& forall|x: int| #[trigger] covers(final(self).row(r).rest_ranges(), x) <==> ((old(self).has_row(r)
                    && covers(old(self).row(r).rest_ranges(), x))
                    || (range.water_type_spec() == WaterType::Rest
                        && range.range_spec().beg_spec() <= x < range.range_spec().end_spec()))
            },
    {
        if !self.is_in_vert_range(r) {
            return;
        }
        proof {
            use_type_invariant(&range.range);
        }
        self.horz_beg = if self.horz_beg <= range.range.beg { self.horz_beg } else { range.range.beg };
        self.horz_end = if self.horz_end >= range.range.end { self.horz_end } else { range.range.end };
        let ghost pre = *self;
        let (found, i) = self.key_pos(r);
        if found {
            proof {
                pre.lemma_row_at(i as int);
            }
            let mut row = self.rows.remove(i);
            row.add_range(range);
            self.rows.insert(i, row);
        } else {
            let mut row = WaterRow::new();
            proof {
                assert forall|x: int| !covers(row.reach_ranges(), x) by {}
                assert forall|x: int| !covers(row.rest_ranges(), x) by {}
            }
            row.add_range(range);
            self.keys.insert(i, r);
            self.rows.insert(i, row);
        }
        proof {
            lemma_add_water_row(pre, *self, r, i as int, found);
            assert(forall|r2: usize| old(self).has_row(r2) == pre.has_row(r2));
            assert(forall|r2: usize| old(self).row(r2) == pre.row(r2));
        }
    }

    /// How many places water passes through without resting, and how many
    /// it rests in, over the rows of the vertical range; each count stops at
    /// the largest `usize`.
    pub fn count_water(&self) -> (res: (usize, usize))
        requires
            self.wf(),
        ensures
            res.0 == min(self.totals().0, usize::MAX as int),
            res.1 == min(self.totals().1, usize::MAX as int),
    {
        let mut reach_sum: usize = 0;
        let mut rest_sum: usize = 0;
        let mut i: usize = 0;
        while i < self.keys.len()
            invariant
                self.wf(),
                i <= self.keys.len(),
                reach_sum == min(water_totals(self.keys@, self.rows@, self.vert_beg, self.vert_end, i as int).0, usize::MAX as int),
                rest_sum == min(water_totals(self.keys@, self.rows@, self.vert_beg, self.vert_end, i as int).1, usize::MAX as int),
            decreases self.keys.len() - i,
        {
            proof {
                lemma_water_totals_nonneg(self.keys@, self.rows@, self.vert_beg, self.vert_end, i as int);
                assert(self.rows[i as int].wf());
                lemma_sum_len_nonneg(self.rows[i as int].rest_ranges());
            }
            if self.is_in_vert_range(self.keys[i]) {
                let (row_reach, row_rest) = self.rows[i].count_water();
                reach_sum = reach_sum.saturating_add(row_reach);
                rest_sum = rest_sum.saturating_add(row_rest);
            }
            i = i + 1;
        }
        (reach_sum, rest_sum)
    }
}

proof fn lemma_add_water_row(pre: WaterMap, post: WaterMap, r: usize, i: int, found: bool)
    requires
        pre.wf(),
        0 <= i <= pre.keys.len(),
        forall|k: int| 0 <= k < i ==> pre.keys[k] < r,
        found ==> i < pre.keys.len() && pre.keys[i] == r,
        !found ==> (i < pre.keys.len() ==> pre.keys[i] > r),
        found ==> post.keys@ == pre.keys@ && post.rows@.len() == pre.rows@.len()
            && forall|j: int| 0 <= j < pre.rows.len() && j != i ==> post.rows@[j] == pre.rows@[j],
        !found ==> post.keys@ == pre.keys@.insert(i, r) && post.rows@.len() == pre.rows@.len() + 1
            && forall|j: int| 0 <= j < pre.rows.len() ==> post.rows@[if j < i { j } else { j + 1 }] == pre.rows@[j],
        post.rows@[i].wf(),
    ensures
        post.wf(),
        forall|r2: usize| post.has_row(r2) <==> (pre.has_row(r2) || r2 == r),
        forall|r2: usize| r2 != r && pre.has_row(r2) ==> post.row(r2) == pre.row(r2),
        post.row(r) == post.rows@[i],
{
    assert(post.wf()) by {
        assert forall|a: int, b: int| 0 <= a < b < post.keys.len() implies post.keys[a] < post.keys[b] by {
            if !found {
                if a < i && b > i {
                    assert(pre.keys[a] < r);
                } else if a > i {
                    assert(pre.keys[a - 1] < pre.keys[b - 1]);
                } else if b < i {
                    assert(pre.keys[a] < pre.keys[b]);
                } else if a == i {
                    assert(pre.keys[b - 1] > r) by {
                        if b - 1 > i {
                            assert(pre.keys[i] < pre.keys[b - 1]);
                        }
                    }
                } else {
                    assert(b == i);
                }
            } else {
                assert(pre.keys[a] < pre.keys[b]);
            }
        }
        assert forall|a: int| 0 <= a < post.rows.len() implies (#[trigger] post.rows[a]).wf() by {
            if a != i {
                if !found && a > i {
                    assert(post.rows@[a] == pre.rows@[a - 1]);
                } else {
                    assert(post.rows@[a] == pre.rows@[a]);
                }
            }
        }
    }
    post.lemma_row_at(i);
    assert(post.keys@[i] == r);
    assert forall|r2: usize| post.has_row(r2) <==> (pre.has_row(r2) || r2 == r) by {
        if post.has_row(r2) && r2 != r {
            let j = choose|j: int| 0 <= j < post.keys.len() && post.keys@[j] == r2;
            if !found && j > i {
                assert(pre.keys@[j - 1] == r2);
            } else {
                assert(pre.keys@[j] == r2);
            }
        }
        if pre.has_row(r2) {
            let j = choose|j: int| 0 <= j < pre.keys.len() && pre.keys@[j] == r2;
            if !found && j >= i {
                assert(post.keys@[j + 1] == r2);
            } else {
                assert(post.keys@[j] == r2);
            }
        }
    }
    assert forall|r2: usize| r2 != r && pre.has_row(r2) implies post.row(r2) == pre.row(r2) by {
        let j = choose|j: int| 0 <= j < pre.keys.len() && pre.keys@[j] == r2;
        pre.lemma_row_at(j);
        if !found && j >= i {
            assert(post.keys@[j + 1] == r2);
            post.lemma_row_at(j + 1);
        } else {
            assert(post.keys@[j] == r2);
            post.lemma_row_at(j);
        }
    }
}

proof fn lemma_add_row(pre: UnderGroundMap, post: UnderGroundMap, r: usize, i: int, found: bool)
    requires
        pre.wf(),
        0 <= i <= pre.keys.len(),
        forall|k: int| 0 <= k < i ==> pre.keys[k] < r,
        found ==> i < pre.keys.len() && pre.keys[i] == r,
        !found ==> (i < pre.keys.len() ==> pre.keys[i] > r),
        found ==> post.keys@ == pre.keys@ && post.rows@.len() == pre.rows@.len()
            && forall|j: int| 0 <= j < pre.rows.len() && j != i ==> post.rows@[j] == pre.rows@[j],
        !found ==> post.keys@ == pre.keys@.insert(i, r) && post.rows@.len() == pre.rows@.len() + 1
            && forall|j: int| 0 <= j < pre.rows.len() ==> post.rows@[if j < i { j } else { j + 1 }] == pre.rows@[j],
        row_ok(post.rows@[i].ranges()),
    ensures
        post.wf(),
        forall|r2: usize| post.has_row(r2) <==> (pre.has_row(r2) || r2 == r),
        forall|r2: usize| r2 != r && pre.has_row(r2) ==> post.row(r2) == pre.row(r2),
        post.row(r) == post.rows@[i].ranges(),
{
    assert(post.wf()) by {
        assert forall|a: int, b: int| 0 <= a < b < post.keys.len() implies post.keys[a] < post.keys[b] by {
            if !found {
                if a < i && b > i {
                    assert(pre.keys[a] < r);
                } else if a > i {
                    assert(pre.keys[a - 1] < pre.keys[b - 1]);
                } else if b < i {
                    assert(pre.keys[a] < pre.keys[b]);
                } else if a == i {
                    assert(pre.keys[b - 1] > r) by {
                        if b - 1 > i {
                            assert(pre.keys[i] < pre.keys[b - 1]);
                        }
                    }
                } else {
                    assert(b == i);
                }
            } else {
                assert(pre.keys[a] < pre.keys[b]);
            }
        }
        assert forall|a: int| 0 <= a < post.rows.len() implies row_ok(#[trigger] post.rows[a].ranges()) by {
            if a != i {
                if !found && a > i {
                    assert(post.rows@[a] == pre.rows@[a - 1]);
                } else {
                    assert(post.rows@[a] == pre.rows@[a]);
                }
            }
        }
    }
    post.lemma_row_at(i);
    assert(post.keys@[i] == r);
    assert forall|r2: usize| post.has_row(r2) <==> (pre.has_row(r2) || r2 == r) by {
        if post.has_row(r2) && r2 != r {
            let j = choose|j: int| 0 <= j < post.keys.len() && post.keys@[j] == r2;
            if !found && j > i {
                assert(pre.keys@[j - 1] == r2);
            } else {
                assert(pre.keys@[j] == r2);
            }
        }
        if pre.has_row(r2) {
            let j = choose|j: int| 0 <= j < pre.keys.len() && pre.keys@[j] == r2;
            if !found && j >= i {
                assert(post.keys@[j + 1] == r2);
            } else {
                assert(post.keys@[j] == r2);
            }
        }
    }
    assert forall|r2: usize| r2 != r && pre.has_row(r2) implies post.row(r2) == pre.row(r2) by {
        let j = choose|j: int| 0 <= j < pre.keys.len() && pre.keys@[j] == r2;
        pre.lemma_row_at(j);
        if !found && j >= i {
            assert(post.keys@[j + 1] == r2);
            post.lemma_row_at(j + 1);
        } else {
            assert(post.keys@[j] == r2);
            post.lemma_row_at(j);
        }
    }
}

} // verus!
