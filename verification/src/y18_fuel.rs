//! Power levels of fuel cells in a square grid, and the square of cells
//! with the largest total power.

use vstd::prelude::*;

verus! {

/// The serial number that the grid's power levels are computed with.
pub const INPUT: u32 = 7803;

/// Power level of the cell at `(x, y)` in a grid with serial number `serial_n`:
/// the hundreds digit of `((x + 10) * y + serial_n) * (x + 10)`, minus five.
pub open spec fn level_of(x: int, y: int, serial_n: int) -> int {
    let rack_id = x + 10;
    let pre_result = (rack_id * y + serial_n) * rack_id;
    (pre_result % 1000) / 100 - 5
}

/// Whether computing the level of `(x, y)` stays within `u32`.
pub open spec fn level_fits(x: int, y: int, serial_n: int) -> bool {
    &&& x + 10 <= u32::MAX
    &&& ((x + 10) * y + serial_n) * (x + 10) <= u32::MAX
}

/// Sum of the `rows` levels of column `x` starting at row `y`.
pub open spec fn col_sum(levels: Seq<i32>, col_n: int, x: int, y: int, rows: int) -> int
    decreases rows,
{
    if rows <= 0 {
        0
    } else {
        col_sum(levels, col_n, x, y, rows - 1) + levels[(y + rows - 1) * col_n + x]
    }
}

/// Sum of the levels of the `rows` by `cols` square whose top left cell is `(x, y)`.
pub open spec fn rect_sum(levels: Seq<i32>, col_n: int, x: int, y: int, rows: int, cols: int) -> int
    decreases cols,
{
    if cols <= 0 {
        0
    } else {
        rect_sum(levels, col_n, x, y, rows, cols - 1) + col_sum(levels, col_n, x + cols - 1, y, rows)
    }
}

/// A grid of fuel cells with the power level of each, stored row by row.
pub struct FuelGrid {
    level_mat: Vec<i32>,
    row_n: u32,
    col_n: u32,
    serial_n: u32,
}

impl FuelGrid {
    #[verifier::type_invariant]
    spec fn inv(self) -> bool {
        &&& self.level_mat.len() == self.row_n * self.col_n
        &&& self.row_n * self.col_n * 5 <= i32::MAX
        &&& self.row_n < u32::MAX
        &&& self.col_n < u32::MAX
        &&& forall|i: int| 0 <= i < self.level_mat.len() ==> -5 <= #[trigger] self.level_mat[i] <= 4
    }

    /// The levels, row by row.
    pub closed spec fn levels(&self) -> Seq<i32> {
        self.level_mat@
    }

    /// Number of rows.
    pub closed spec fn rows(&self) -> nat {
        self.row_n as nat
    }

    /// Number of columns.
    pub closed spec fn cols(&self) -> nat {
        self.col_n as nat
    }

    /// The serial number given at construction.
    pub closed spec fn serial(&self) -> nat {
        self.serial_n as nat
    }

    /// A grid of `a_row_n` rows and `a_col_n` columns. Each level is computed
    /// with the serial number [`INPUT`]; `a_serial_n` is only recorded.
    pub fn new(a_row_n: u32, a_col_n: u32, a_serial_n: u32) -> (res: FuelGrid)
        requires
            level_fits(a_col_n as int, a_row_n as int, INPUT as int),
            a_row_n * a_col_n * 5 <= i32::MAX,
        ensures
            res.rows() == a_row_n,
            res.cols() == a_col_n,
            res.serial() == a_serial_n,
            res.levels().len() == a_row_n * a_col_n,
            forall|x: int, y: int|
                #![trigger res.levels()[(y - 1) * a_col_n + (x - 1)]]
                1 <= x <= a_col_n && 1 <= y <= a_row_n ==> res.levels()[(y - 1) * a_col_n + (x - 1)]
                    == level_of(x, y, INPUT as int),
    {
        let mut levels: Vec<i32> = Vec::new();
        proof {
            assert(a_row_n <= (a_col_n + 10) * a_row_n) by (nonlinear_arith)
                requires a_row_n >= 0, a_col_n >= 0;
            assert(a_row_n * 100 <= ((a_col_n + 10) * a_row_n + 7803) * (a_col_n + 10)) by (nonlinear_arith)
                requires a_row_n >= 0, a_col_n >= 0;
        }
        let mut y: u32 = 1;
        while y <= a_row_n
            invariant
                1 <= y <= a_row_n + 1,
                a_row_n < u32::MAX,
                levels.len() == (y - 1) * a_col_n,
                level_fits(a_col_n as int, a_row_n as int, INPUT as int),
                a_row_n * a_col_n * 5 <= i32::MAX,
                forall|i: int| 0 <= i < levels.len() ==> -5 <= #[trigger] levels[i] <= 4,
                forall|xx: int, yy: int|
                    #![trigger levels@[(yy - 1) * a_col_n + (xx - 1)]]
                    1 <= xx <= a_col_n && 1 <= yy < y ==> levels@[(yy - 1) * a_col_n + (xx - 1)]
                        == level_of(xx, yy, INPUT as int),
            decreases a_row_n + 1 - y,
        {
            let mut x: u32 = 1;
            while x <= a_col_n
                invariant
                    1 <= y <= a_row_n,
                    1 <= x <= a_col_n + 1,
                    levels.len() == (y - 1) * a_col_n + (x - 1),
                    level_fits(a_col_n as int, a_row_n as int, INPUT as int),
                    a_row_n * a_col_n * 5 <= i32::MAX,
                    forall|i: int| 0 <= i < levels.len() ==> -5 <= #[trigger] levels[i] <= 4,
                    forall|xx: int, yy: int|
                        #![trigger levels@[(yy - 1) * a_col_n + (xx - 1)]]
                        (1 <= xx <= a_col_n && 1 <= yy < y) || (1 <= xx < x && yy == y)
                            ==> levels@[(yy - 1) * a_col_n + (xx - 1)] == level_of(xx, yy, INPUT as int),
                decreases a_col_n + 1 - x,
            {
                proof {
                    lemma_level_fits_mono(x as int, y as int, a_col_n as int, a_row_n as int);
                }
                let v = FuelGrid::comp_level(x, y, INPUT);
                let ghost old_levels = levels@;
                levels.push(v);
                proof {
                    assert forall|xx: int, yy: int|
                        #![trigger levels@[(yy - 1) * a_col_n + (xx - 1)]]
                        (1 <= xx <= a_col_n && 1 <= yy < y) || (1 <= xx < x + 1 && yy == y)
                        implies levels@[(yy - 1) * a_col_n + (xx - 1)] == level_of(xx, yy, INPUT as int) by {
                        if xx == x && yy == y {
                        } else {
                            lemma_index_lt(xx, yy, x as int, y as int, a_col_n as int);
                            assert(old_levels[(yy - 1) * a_col_n + (xx - 1)] == level_of(xx, yy, INPUT as int));
                        }
                    }
                }
                x = x + 1;
            }
            proof {
                assert((y - 1) * a_col_n + a_col_n == y * a_col_n) by (nonlinear_arith);
            }
            y = y + 1;
        }
        proof {
            assert((y - 1) == a_row_n);
        }
        FuelGrid { level_mat: levels, row_n: a_row_n, col_n: a_col_n, serial_n: a_serial_n }
    }

    /// Level of the cell in column `x` and row `y`, counted from zero.
    pub fn get(&self, x: u32, y: u32) -> (res: i32)
        requires
            x < self.cols(),
            y < self.rows(),
        ensures
            res == self.levels()[y * self.cols() + x],
    {
        proof {
            use_type_invariant(self);
            lemma_cell_index(x as int, y as int, self.col_n as int, self.row_n as int);
        }
        let vec_ind = (y * self.col_n + x) as usize;
        self.level_mat[vec_ind]
    }

    /// Power level of the cell at `(x, y)` for serial number `serial_n`.
    pub fn comp_level(x: u32, y: u32, serial_n: u32) -> (res: i32)
        requires
            level_fits(x as int, y as int, serial_n as int),
        ensures
            res == level_of(x as int, y as int, serial_n as int),
    {
        proof {
            assert(0 <= (x + 10) * y) by (nonlinear_arith);
            assert((x + 10) * y + serial_n <= ((x + 10) * y + serial_n) * (x + 10)) by (nonlinear_arith)
                requires x + 10 >= 1, (x + 10) * y + serial_n >= 0;
        }
        let rack_id = x + 10;
        let pre_result = (rack_id * y + serial_n) * rack_id;
        let pre_level = if pre_result < 100 {
            0
        } else {
            pre_result % 1000 / 100
        };
        pre_level as i32 - 5
    }

    /// Sum of the levels in the `cell_row_n` by `cell_col_n` square whose top
    /// left cell is `(cell_x, cell_y)`.
    pub fn cell_sum(&self, cell_x: u32, cell_y: u32, cell_row_n: u32, cell_col_n: u32) -> (res: i32)
        requires
            cell_x + cell_col_n <= self.cols(),
            cell_y + cell_row_n <= self.rows(),
        ensures
            res == rect_sum(self.levels(), self.cols() as int, cell_x as int, cell_y as int, cell_row_n as int, cell_col_n as int),
    {
        proof {
            use_type_invariant(self);
        }
        let ghost levels = self.level_mat@;
        let ghost cn = self.col_n as int;
        let cell_x_end = cell_x + cell_col_n;
        let cell_y_end = cell_y + cell_row_n;
        let mut sum: i64 = 0;
        let mut x = cell_x;
        proof {
            assert(-5 * (x - cell_x) * cell_row_n == 0 && 4 * (x - cell_x) * cell_row_n == 0) by (nonlinear_arith)
                requires x == cell_x;
        }
        while x < cell_x_end
            invariant
                cell_x <= x <= cell_x_end,
                cell_x_end == cell_x + cell_col_n,
                cell_y_end == cell_y + cell_row_n,
                cell_x + cell_col_n <= self.cols(),
                cell_y + cell_row_n <= self.rows(),
                levels == self.level_mat@,
                cn == self.col_n,
                self.level_mat.len() == self.row_n * self.col_n,
                self.row_n * self.col_n * 5 <= i32::MAX,
                forall|i: int| 0 <= i < self.level_mat.len() ==> -5 <= #[trigger] self.level_mat[i] <= 4,
                sum == rect_sum(levels, cn, cell_x as int, cell_y as int, cell_row_n as int, (x - cell_x) as int),
                -5 * (x - cell_x) * cell_row_n <= sum <= 4 * (x - cell_x) * cell_row_n,
            decreases cell_x_end - x,
        {
            let mut y = cell_y;
            let mut col: i64 = 0;
            while y < cell_y_end
                invariant
                    cell_x <= x < cell_x_end,
                    cell_x_end == cell_x + cell_col_n,
                    cell_y <= y <= cell_y_end,
                    cell_y_end == cell_y + cell_row_n,
                    cell_x + cell_col_n <= self.cols(),
                    cell_y + cell_row_n <= self.rows(),
                    levels == self.level_mat@,
                    cn == self.col_n,
                    self.level_mat.len() == self.row_n * self.col_n,
                    forall|i: int| 0 <= i < self.level_mat.len() ==> -5 <= #[trigger] self.level_mat[i] <= 4,
                    col == col_sum(levels, cn, x as int, cell_y as int, (y - cell_y) as int),
                    -5 * (y - cell_y) <= col <= 4 * (y - cell_y),
                decreases cell_y_end - y,
            {
                let v = self.get(x, y);
                proof {
                    lemma_cell_index(x as int, y as int, self.col_n as int, self.row_n as int);
                    assert((cell_y + (y - cell_y + 1) - 1) == y);
                }
                col = col + v as i64;
                y = y + 1;
            }
            proof {
                lemma_area_bound(cell_row_n as int, (x + 1 - cell_x) as int, self.row_n as int, self.col_n as int);
                assert(-5 * (x - cell_x) * cell_row_n - 5 * cell_row_n == -5 * (x + 1 - cell_x) * cell_row_n) by (nonlinear_arith);
                assert(4 * (x - cell_x) * cell_row_n + 4 * cell_row_n == 4 * (x + 1 - cell_x) * cell_row_n) by (nonlinear_arith);
                assert(cell_x + (x + 1 - cell_x) - 1 == x);
            }
            sum = sum + col;
            x = x + 1;
        }
        proof {
            lemma_area_bound(cell_row_n as int, cell_col_n as int, self.row_n as int, self.col_n as int);
            assert(x - cell_x == cell_col_n);
        }
        sum as i32
    }

    /// The square of any size from 1 to `max_size` with the largest total
    /// level: its left column, its top row, its size and its total. Sizes
    /// are tried from the smallest, each as `max_cell` finds it, and the
    /// last size found with the largest total wins.
    pub fn max_square(&self, max_size: u32) -> (res: (u32, u32, u32, i32))
        requires
            1 <= max_size,
            max_size <= self.cols(),
            max_size <= self.rows(),
        ensures
            1 <= res.2 <= max_size,
            res.0 + res.2 <= self.cols(),
            res.1 + res.2 <= self.rows(),
            res.3 == rect_sum(self.levels(), self.cols() as int, res.0 as int, res.1 as int, res.2 as int, res.2 as int),
            forall|s: int, x: int, y: int|
                1 <= s <= max_size && 0 <= x && x + s <= self.cols() && 0 <= y && y + s <= self.rows()
                    ==> #[trigger] rect_sum(self.levels(), self.cols() as int, x, y, s, s) <= res.3,
            forall|s: int, x: int, y: int|
                res.2 < s <= max_size && 0 <= x && x + s <= self.cols() && 0 <= y && y + s <= self.rows()
                    ==> #[trigger] rect_sum(self.levels(), self.cols() as int, x, y, s, s) < res.3,
            forall|x: int, y: int|
                0 <= x && x + res.2 <= self.cols() && 0 <= y && y + res.2 <= self.rows()
                    && (x > res.0 || (x == res.0 && y > res.1))
                    ==> #[trigger] rect_sum(self.levels(), self.cols() as int, x, y, res.2 as int, res.2 as int) < res.3,
    {
        let first = self.max_cell(1, 1);
        let mut best: (u32, u32, u32, i32) = (first.0, first.1, 1, first.2);
        let mut s: u64 = 2;
        while s <= max_size as u64
            invariant
                2 <= s <= max_size + 1,
                max_size <= self.cols(),
                max_size <= self.rows(),
                1 <= best.2 < s,
                best.0 + best.2 <= self.cols(),
                best.1 + best.2 <= self.rows(),
                best.3 == rect_sum(self.levels(), self.cols() as int, best.0 as int, best.1 as int, best.2 as int, best.2 as int),
                forall|t: int, x: int, y: int|
                    1 <= t < s && 0 <= x && x + t <= self.cols() && 0 <= y && y + t <= self.rows()
                        ==> #[trigger] rect_sum(self.levels(), self.cols() as int, x, y, t, t) <= best.3,
                forall|t: int, x: int, y: int|
                    best.2 < t < s && 0 <= x && x + t <= self.cols() && 0 <= y && y + t <= self.rows()
                        ==> #[trigger] rect_sum(self.levels(), self.cols() as int, x, y, t, t) < best.3,
                forall|x: int, y: int|
                    0 <= x && x + best.2 <= self.cols() && 0 <= y && y + best.2 <= self.rows()
                        && (x > best.0 || (x == best.0 && y > best.1))
                        ==> #[trigger] rect_sum(self.levels(), self.cols() as int, x, y, best.2 as int, best.2 as int) < best.3,
            decreases max_size + 1 - s,
        {
            let cur = self.max_cell(s as u32, s as u32);
            if cur.2 >= best.3 {
                best = (cur.0, cur.1, s as u32, cur.2);
            }
            s = s + 1;
        }
        best
    }

    /// The square of `cell_row_n` by `cell_col_n` cells with the largest total
    /// level: its left column, its top row and the total. Squares are tried
    /// column by column, each column top to bottom, and the last one found
    /// with the largest total is returned.
    pub fn max_cell(&self, cell_row_n: u32, cell_col_n: u32) -> (res: (u32, u32, i32))
        requires
            cell_col_n <= self.cols(),
            cell_row_n <= self.rows(),
        ensures
            res.0 + cell_col_n <= self.cols(),
            res.1 + cell_row_n <= self.rows(),
            res.2 == rect_sum(self.levels(), self.cols() as int, res.0 as int, res.1 as int, cell_row_n as int, cell_col_n as int),
            forall|x: int, y: int|
                0 <= x && x + cell_col_n <= self.cols() && 0 <= y && y + cell_row_n <= self.rows()
                    ==> #[trigger] rect_sum(self.levels(), self.cols() as int, x, y, cell_row_n as int, cell_col_n as int) <= res.2,
            forall|x: int, y: int|
                0 <= x && x + cell_col_n <= self.cols() && 0 <= y && y + cell_row_n <= self.rows()
                    && (x > res.0 || (x == res.0 && y > res.1))
                    ==> #[trigger] rect_sum(self.levels(), self.cols() as int, x, y, cell_row_n as int, cell_col_n as int) < res.2,
    {
        proof {
            use_type_invariant(self);
        }
        let ghost levels = self.levels();
        let ghost cn = self.cols() as int;
        let h_cell_n = self.col_n - cell_col_n + 1;
        let v_cell_n = self.row_n - cell_row_n + 1;
        let mut best: (u32, u32, i32) = (0, 0, self.cell_sum(0, 0, cell_row_n, cell_col_n));
        let mut x: u32 = 0;
        while x < h_cell_n
            invariant
                h_cell_n == self.cols() - cell_col_n + 1,
                v_cell_n == self.rows() - cell_row_n + 1,
                cell_col_n <= self.cols(),
                cell_row_n <= self.rows(),
                levels == self.levels(),
                cn == self.cols(),
                x <= h_cell_n,
                best.0 + cell_col_n <= self.cols(),
                best.1 + cell_row_n <= self.rows(),
                best.2 == rect_sum(levels, cn, best.0 as int, best.1 as int, cell_row_n as int, cell_col_n as int),
                forall|xx: int, yy: int|
                    0 <= xx < x && 0 <= yy < v_cell_n
                        ==> #[trigger] rect_sum(levels, cn, xx, yy, cell_row_n as int, cell_col_n as int) <= best.2,
                forall|xx: int, yy: int|
                    0 <= xx < x && 0 <= yy < v_cell_n && (xx > best.0 || (xx == best.0 && yy > best.1))
                        ==> #[trigger] rect_sum(levels, cn, xx, yy, cell_row_n as int, cell_col_n as int) < best.2,
                x == 0 ==> best.0 == 0 && best.1 == 0,
                x > 0 ==> best.0 < x,
            decreases h_cell_n - x,
        {
            let mut y: u32 = 0;
            while y < v_cell_n
                invariant
                    h_cell_n == self.cols() - cell_col_n + 1,
                    v_cell_n == self.rows() - cell_row_n + 1,
                    cell_col_n <= self.cols(),
                    cell_row_n <= self.rows(),
                    levels == self.levels(),
                    cn == self.cols(),
                    x < h_cell_n,
                    y <= v_cell_n,
                    best.0 + cell_col_n <= self.cols(),
                    best.1 + cell_row_n <= self.rows(),
                    best.2 == rect_sum(levels, cn, best.0 as int, best.1 as int, cell_row_n as int, cell_col_n as int),
                    forall|xx: int, yy: int|
                        ((0 <= xx < x && 0 <= yy < v_cell_n) || (xx == x && 0 <= yy < y))
                            ==> #[trigger] rect_sum(levels, cn, xx, yy, cell_row_n as int, cell_col_n as int) <= best.2,
                    forall|xx: int, yy: int|
                        ((0 <= xx < x && 0 <= yy < v_cell_n) || (xx == x && 0 <= yy < y))
                            && (xx > best.0 || (xx == best.0 && yy > best.1))
                            ==> #[trigger] rect_sum(levels, cn, xx, yy, cell_row_n as int, cell_col_n as int) < best.2,
                    (x == 0 && y == 0) ==> best.0 == 0 && best.1 == 0,
                    best.0 < x || (best.0 == x && best.1 < y) || (x == 0 && y == 0),
                decreases v_cell_n - y,
            {
                let v = self.cell_sum(x, y, cell_row_n, cell_col_n);
                if v >= best.2 {
                    best = (x, y, v);
                }
                y = y + 1;
            }
            x = x + 1;
        }
        best
    }
}

proof fn lemma_level_fits_mono(x: int, y: int, xm: int, ym: int)
    requires
        1 <= x <= xm,
        1 <= y <= ym,
        level_fits(xm, ym, INPUT as int),
    ensures
        level_fits(x, y, INPUT as int),
{
    assert((x + 10) * y <= (xm + 10) * ym) by (nonlinear_arith)
        requires 1 <= x <= xm, 1 <= y <= ym;
    assert(((x + 10) * y + 7803) * (x + 10) <= ((xm + 10) * ym + 7803) * (xm + 10)) by (nonlinear_arith)
        requires (x + 10) * y <= (xm + 10) * ym, 1 <= x <= xm, 0 <= (x + 10) * y;
}

proof fn lemma_index_lt(xx: int, yy: int, x: int, y: int, cn: int)
    requires
        (1 <= xx <= cn && 1 <= yy < y) || (1 <= xx < x && yy == y),
        1 <= x <= cn + 1,
        1 <= y,
    ensures
        (yy - 1) * cn + (xx - 1) < (y - 1) * cn + (x - 1),
        0 <= (yy - 1) * cn + (xx - 1),
{
    if yy < y {
        assert((yy - 1) * cn + cn <= (y - 1) * cn) by (nonlinear_arith)
            requires yy < y, cn >= 0;
        assert(0 <= (yy - 1) * cn) by (nonlinear_arith)
            requires yy >= 1, cn >= 0;
    } else {
        assert(0 <= (yy - 1) * cn) by (nonlinear_arith)
            requires yy >= 1, cn >= 0;
    }
}

proof fn lemma_cell_index(x: int, y: int, cn: int, rn: int)
    requires
        0 <= x < cn,
        0 <= y < rn,
    ensures
        0 <= y * cn + x < rn * cn,
{
    assert(y * cn + x < rn * cn) by (nonlinear_arith)
        requires 0 <= x < cn, 0 <= y < rn;
    assert(0 <= y * cn) by (nonlinear_arith)
        requires 0 <= y, 0 <= cn;
}

proof fn lemma_area_bound(r: int, c: int, rn: int, cn: int)
    requires
        0 <= r <= rn,
        0 <= c <= cn,
        rn * cn * 5 <= i32::MAX,
    ensures
        -5 * c * r >= i32::MIN,
        4 * c * r <= i32::MAX,
        0 <= c * r,
{
    assert(5 * c * r <= rn * cn * 5) by (nonlinear_arith)
        requires 0 <= r <= rn, 0 <= c <= cn;
    assert(-5 * c * r == -(5 * c * r)) by (nonlinear_arith);
    assert(4 * c * r <= 5 * c * r) by (nonlinear_arith)
        requires 0 <= r, 0 <= c;
}

} // verus!
