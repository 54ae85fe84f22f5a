//! Asteroids on a grid, and which of them can be seen from one another: an
//! asteroid hides those behind it on the same line of sight.

use vstd::prelude::*;
use crate::y19_shuffle::{gcd, lemma_gcd_divides};

verus! {

/// Errors met while reading a map of asteroids.
#[derive(Debug)]
pub enum Error {
    /// Row, column and character of a place that is neither `#` nor `.`.
    InvalidCharacterInMap(usize, usize, char),
}

/// An asteroid at column `x`, row `y`.
#[derive(Debug, Clone, Copy)]
pub struct Asteroid {
    x: usize,
    y: usize,
}

impl Asteroid {
    pub closed spec fn x_spec(&self) -> usize {
        self.x
    }

    pub closed spec fn y_spec(&self) -> usize {
        self.y
    }

    pub fn x(&self) -> (res: usize)
        ensures
            res == self.x_spec(),
    {
        self.x
    }

    pub fn y(&self) -> (res: usize)
        ensures
            res == self.y_spec(),
    {
        self.y
    }
}

/// Absolute value.
pub open spec fn abs(v: int) -> int {
    if v < 0 { -v } else { v }
}

/// One step of `d / g` towards the sign of `d`.
pub open spec fn unit(d: int, g: int) -> int {
    if d < 0 { -(abs(d) / g) } else { abs(d) / g }
}

/// The asteroids on the grid with their places.
pub struct AsteroidMap {
    asteroids: Vec<Asteroid>,
    position_map: Vec<Vec<Option<usize>>>,
}

/// Whether asteroid `a` comes before asteroid `b` row by row, left to
/// right.
pub open spec fn row_major_before(a: Asteroid, b: Asteroid) -> bool {
    a.y_spec() < b.y_spec() || (a.y_spec() == b.y_spec() && a.x_spec() < b.x_spec())
}

impl AsteroidMap {
    /// Each asteroid is where the grid says, and the grid names only
    /// asteroids that are there; places fit in `i32`.
    pub closed spec fn wf(&self) -> bool {
        &&& self.position_map.len() <= i32::MAX
        &&& forall|r: int| 0 <= r < self.position_map.len() ==> (#[trigger] self.position_map@[r])@.len() <= i32::MAX
        &&& forall|k: int| 0 <= k < self.asteroids.len() ==> {
            let a = #[trigger] self.asteroids@[k];
            &&& a.y < self.position_map.len()
            &&& a.x < self.position_map@[a.y as int]@.len()
            &&& self.position_map@[a.y as int]@[a.x as int] == Some(k as usize)
        }
        &&& forall|r: int, c: int| 0 <= r < self.position_map.len() && 0 <= c < self.position_map@[r]@.len()
            ==> (#[trigger] self.position_map@[r]@[c] matches Some(k) ==> k < self.asteroids.len()
                && self.asteroids@[k as int].x == c && self.asteroids@[k as int].y == r)
    }

    /// The asteroids, in the order they were read.
    pub closed spec fn asteroids_spec(&self) -> Seq<Asteroid> {
        self.asteroids@
    }

    /// The asteroid at column `x`, row `y`, if there is one.
    pub closed spec fn at(&self, x: int, y: int) -> Option<usize> {
        if 0 <= y < self.position_map.len() && 0 <= x < self.position_map@[y]@.len() {
            self.position_map@[y]@[x]
        } else {
            None
        }
    }

    /// Number of asteroids strictly between asteroid `i` and the lattice
    /// points `i + t * (ux, uy)` for `1 <= t < steps`.
    pub open spec fn seen_before(&self, i: int, ux: int, uy: int, steps: int) -> int
        decreases steps,
    {
        if steps <= 1 {
            0
        } else {
            let t = steps - 1;
            self.seen_before(i, ux, uy, t) + if self.at(
                self.asteroids_spec()[i].x_spec() + t * ux,
                self.asteroids_spec()[i].y_spec() + t * uy,
            ) is Some {
                1int
            } else {
                0
            }
        }
    }

    /// Which in line asteroid `j` is, seen from asteroid `i`: one more than
    /// the number of asteroids strictly between them; zero for `i` itself.
    pub open spec fn detect_spec(&self, i: int, j: int) -> int {
        if i == j {
            0
        } else {
            let a = self.asteroids_spec()[i];
            let b = self.asteroids_spec()[j];
            let dx = b.x_spec() - a.x_spec();
            let dy = b.y_spec() - a.y_spec();
            let g = gcd(abs(dx) as nat, abs(dy) as nat) as int;
            1 + self.seen_before(i, unit(dx, g), unit(dy, g), g)
        }
    }

    /// Number of asteroids among the first `n` that asteroid `i` sees
    /// directly.
    pub open spec fn visible_count(&self, i: int, n: int) -> int
        decreases n,
    {
        if n <= 0 {
            0
        } else {
            self.visible_count(i, n - 1) + if n - 1 != i && self.detect_spec(i, n - 1) == 1 { 1int } else { 0 }
        }
    }

    /// Reads a map: `#` an asteroid, `.` empty space.
    pub fn from_lines(lines: &Vec<String>) -> (res: Result<AsteroidMap, Error>)
        requires
            lines@.len() <= i32::MAX,
            forall|r: int| 0 <= r < lines@.len() ==> (#[trigger] lines@[r])@.len() <= i32::MAX,
        ensures
            res is Ok == (forall|r: int, c: int| 0 <= r < lines@.len() && 0 <= c < lines@[r]@.len()
                ==> #[trigger] lines@[r]@[c] == '#' || lines@[r]@[c] == '.'),
            res matches Ok(map) ==> {
                &&& map.wf()
                &&& forall|r: int, c: int| 0 <= r < lines@.len() && 0 <= c < lines@[r]@.len()
                    ==> (#[trigger] map.at(c, r) is Some <==> lines@[r]@[c] == '#')
                &&& forall|x: int, y: int| #[trigger] map.at(x, y) is Some ==> 0 <= y < lines@.len() && 0 <= x < lines@[y]@.len()
                &&& forall|k: int| 0 <= k < map.asteroids_spec().len() ==> map.at(
                    (#[trigger] map.asteroids_spec()[k]).x_spec() as int,
                    map.asteroids_spec()[k].y_spec() as int,
                ) is Some
                &&& forall|k1: int, k2: int| 0 <= k1 < k2 < map.asteroids_spec().len() ==> row_major_before(
                    #[trigger] map.asteroids_spec()[k1],
                    #[trigger] map.asteroids_spec()[k2],
                )
            },
            res matches Err(Error::InvalidCharacterInMap(r, c, ch)) ==> r < lines@.len() && c < lines@[r as int]@.len()
                && lines@[r as int]@[c as int] == ch && ch != '#' && ch != '.' && forall|rr: int, cc: int|
                0 <= rr < lines@.len() && 0 <= cc < lines@[rr]@.len() && (rr < r || (rr == r && cc < c)) ==> #[trigger] lines@[rr]@[cc]
                    == '#' || lines@[rr]@[cc] == '.',
    {
        let mut asteroids: Vec<Asteroid> = Vec::new();
        let mut position_map: Vec<Vec<Option<usize>>> = Vec::new();
        let mut r: usize = 0;
        while r < lines.len()
            invariant
                r <= lines.len(),
                lines@.len() <= i32::MAX,
                forall|rr: int| 0 <= rr < lines@.len() ==> (#[trigger] lines@[rr])@.len() <= i32::MAX,
                position_map.len() == r,
                forall|rr: int, c: int| 0 <= rr < r && 0 <= c < lines@[rr]@.len()
                    ==> #[trigger] lines@[rr]@[c] == '#' || lines@[rr]@[c] == '.',
                forall|rr: int| 0 <= rr < r ==> (#[trigger] position_map@[rr])@.len() == lines@[rr]@.len(),
                forall|rr: int, c: int| 0 <= rr < r && 0 <= c < lines@[rr]@.len()
                    ==> (#[trigger] position_map@[rr]@[c] is Some <==> lines@[rr]@[c] == '#'),
                forall|k: int| 0 <= k < asteroids.len() ==> {
                    let a = #[trigger] asteroids@[k];
                    &&& a.y < r
                    &&& a.x < position_map@[a.y as int]@.len()
                    &&& position_map@[a.y as int]@[a.x as int] == Some(k as usize)
                },
                forall|rr: int, c: int| 0 <= rr < r && 0 <= c < position_map@[rr]@.len()
                    ==> (#[trigger] position_map@[rr]@[c] matches Some(k) ==> k < asteroids.len()
                        && asteroids@[k as int].x == c && asteroids@[k as int].y == rr),
                forall|k1: int, k2: int| 0 <= k1 < k2 < asteroids.len() ==> row_major_before(
                    #[trigger] asteroids@[k1],
                    #[trigger] asteroids@[k2],
                ),
            decreases lines.len() - r,
        {
            let line = lines[r].as_str();
            let m = line.unicode_len();
            let mut row: Vec<Option<usize>> = Vec::new();
            let mut c: usize = 0;
            let ghost before = asteroids@;
            while c < m
                invariant
                    c <= m,
                    m == line@.len(),
                    line@ == lines@[r as int]@,
                    r < lines.len(),
                    row.len() == c,
                    position_map.len() == r,
                    asteroids@.len() >= before.len(),
                    asteroids@.subrange(0, before.len() as int) == before,
                    forall|cc: int| 0 <= cc < c ==> #[trigger] line@[cc] == '#' || line@[cc] == '.',
                    forall|cc: int| 0 <= cc < c ==> (#[trigger] row@[cc] is Some <==> line@[cc] == '#'),
                    forall|k: int| before.len() <= k < asteroids.len() ==> {
                        let a = #[trigger] asteroids@[k];
                        &&& a.y == r
                        &&& a.x < c
                        &&& row@[a.x as int] == Some(k as usize)
                    },
                    forall|cc: int| 0 <= cc < c ==> (#[trigger] row@[cc] matches Some(k) ==> before.len() <= k < asteroids.len()
                        && asteroids@[k as int].x == cc && asteroids@[k as int].y == r),
                    forall|k1: int, k2: int| 0 <= k1 < k2 < asteroids.len() ==> row_major_before(
                        #[trigger] asteroids@[k1],
                        #[trigger] asteroids@[k2],
                    ),
                    forall|k: int| 0 <= k < before.len() ==> (#[trigger] before[k]).y < r,
                    forall|rr: int, cc: int| 0 <= rr < r && 0 <= cc < lines@[rr]@.len()
                        ==> #[trigger] lines@[rr]@[cc] == '#' || lines@[rr]@[cc] == '.',
                decreases m - c,
            {
                let ch = line.get_char(c);
                if ch == '#' {
                    let ghost prev = asteroids@;
                    proof {
                        assert forall|k: int| 0 <= k < prev.len() implies row_major_before(#[trigger] prev[k], Asteroid { x: c, y: r }) by {
                            if k < before.len() {
                                assert(prev[k] == prev.subrange(0, before.len() as int)[k]);
                                assert(before[k].y < r);
                            }
                        }
                    }
                    asteroids.push(Asteroid { x: c, y: r });
                    proof {
                        assert forall|k1: int, k2: int| 0 <= k1 < k2 < asteroids.len() implies row_major_before(
                            #[trigger] asteroids@[k1],
                            #[trigger] asteroids@[k2],
                        ) by {
                            if k2 < prev.len() {
                                assert(asteroids@[k1] == prev[k1] && asteroids@[k2] == prev[k2]);
                            } else {
                                assert(asteroids@[k1] == prev[k1]);
                            }
                        }
                        assert(asteroids@.subrange(0, before.len() as int) =~= prev.subrange(0, before.len() as int));
                    }
                    row.push(Some(asteroids.len() - 1));
                } else if ch == '.' {
                    row.push(None);
                } else {
                    return Err(Error::InvalidCharacterInMap(r, c, ch));
                }
                c = c + 1;
            }
            proof {
                assert forall|k: int| 0 <= k < before.len() implies asteroids@[k] == #[trigger] before[k] by {
                    assert(asteroids@.subrange(0, before.len() as int)[k] == asteroids@[k]);
                }
            }
            let ghost pm_old = position_map@;
            position_map.push(row);
            proof {
                assert forall|k: int| 0 <= k < asteroids.len() implies {
                    let a = #[trigger] asteroids@[k];
                    &&& a.y < r + 1
                    &&& a.x < position_map@[a.y as int]@.len()
                    &&& position_map@[a.y as int]@[a.x as int] == Some(k as usize)
                } by {
                    if k < before.len() {
                        assert(asteroids@[k] == before[k]);
                        assert(position_map@[asteroids@[k].y as int] == pm_old[asteroids@[k].y as int]);
                    }
                }
            }
            r = r + 1;
        }
        let res = AsteroidMap { asteroids, position_map };
        proof {
            assert forall|k: int| 0 <= k < res.asteroids_spec().len() implies res.at(
                (#[trigger] res.asteroids_spec()[k]).x_spec() as int,
                res.asteroids_spec()[k].y_spec() as int,
            ) is Some by {
                let a = res.asteroids@[k];
                assert(res.position_map@[a.y as int]@[a.x as int] == Some(k as usize));
            }
        }
        Ok(res)
    }

    pub fn asteroid_count(&self) -> (res: usize)
        ensures
            res == self.asteroids_spec().len(),
    {
        self.asteroids.len()
    }

    /// The asteroid with index `ind`, if there is one.
    pub fn asteroid(&self, ind: usize) -> (res: Option<&Asteroid>)
        ensures
            ind < self.asteroids_spec().len() ==> res == Some(&self.asteroids_spec()[ind as int]),
            ind >= self.asteroids_spec().len() ==> res is None,
    {
        if ind < self.asteroids.len() {
            Some(&self.asteroids[ind])
        } else {
            None
        }
    }

    /// The asteroid at column `x`, row `y`, if there is one.
    fn asteroid_index(&self, x: i64, y: i64) -> (res: Option<usize>)
        requires
            self.wf(),
        ensures
            res == self.at(x as int, y as int),
    {
        if x < 0 || y < 0 || y >= self.position_map.len() as i64 {
            return None;
        }
        let row = &self.position_map[y as usize];
        if x >= row.len() as i64 {
            None
        } else {
            row[x as usize]
        }
    }

    /// Which in line asteroid `ind1` is, seen from asteroid `ind0`.
    pub fn detect_ind(&self, ind0: usize, ind1: usize) -> (res: usize)
        requires
            self.wf(),
            ind0 < self.asteroids_spec().len(),
            ind1 < self.asteroids_spec().len(),
        ensures
            res == self.detect_spec(ind0 as int, ind1 as int),
    {
        if ind0 == ind1 {
            return 0;
        }
        let a = self.asteroids[ind0];
        let b = self.asteroids[ind1];
        proof {
            assert(self.asteroids@[ind0 as int] == a);
            assert(self.asteroids@[ind1 as int] == b);
            if a.x == b.x && a.y == b.y {
                assert(self.position_map@[a.y as int]@[a.x as int] == Some(ind0));
            }
        }
        let dx = b.x as i64 - a.x as i64;
        let dy = b.y as i64 - a.y as i64;
        let adx: u64 = if dx < 0 { (-dx) as u64 } else { dx as u64 };
        let ady: u64 = if dy < 0 { (-dy) as u64 } else { dy as u64 };
        let g = gcd_u64(adx, ady);
        proof {
            lemma_gcd_divides(adx as nat, ady as nat);
        }
        let ux_abs = (adx / g) as i64;
        let uy_abs = (ady / g) as i64;
        let ux: i64 = if dx < 0 { -ux_abs } else { ux_abs };
        let uy: i64 = if dy < 0 { -uy_abs } else { uy_abs };
        proof {
            vstd::arithmetic::div_mod::lemma_fundamental_div_mod(adx as int, g as int);
            vstd::arithmetic::div_mod::lemma_fundamental_div_mod(ady as int, g as int);
            assert(ux == unit(dx as int, g as int));
            assert(uy == unit(dy as int, g as int));
            assert(a.x <= i32::MAX && a.y <= i32::MAX);
        }
        let mut count: usize = 0;
        let mut t: u64 = 1;
        let mut cx: i64 = a.x as i64 + ux;
        let mut cy: i64 = a.y as i64 + uy;
        while t < g
            invariant
                self.wf(),
                1 <= t <= g,
                g <= adx + ady,
                adx <= i32::MAX,
                ady <= i32::MAX,
                abs(dx as int) == adx,
                abs(dy as int) == ady,
                a == self.asteroids_spec()[ind0 as int],
                adx == g * (adx / g),
                ady == g * (ady / g),
                ux == unit(dx as int, g as int),
                uy == unit(dy as int, g as int),
                a.x <= i32::MAX,
                a.y <= i32::MAX,
                cx == a.x + t * ux,
                cy == a.y + t * uy,
                count == self.seen_before(ind0 as int, ux as int, uy as int, t as int),
                count < t,
            decreases g - t,
        {
            let ghost t0 = t as int;
            proof {
                lemma_step_bound(t as int, g as int, adx as int, ux as int, dx as int);
                lemma_step_bound(t as int, g as int, ady as int, uy as int, dy as int);
                assert((t0 + 1) * ux == t0 * ux + ux) by (nonlinear_arith);
                assert((t0 + 1) * uy == t0 * uy + uy) by (nonlinear_arith);
            }
            if self.asteroid_index(cx, cy).is_some() {
                count = count + 1;
            }
            t = t + 1;
            cx = cx + ux;
            cy = cy + uy;
        }
        count + 1
    }

    /// Number of asteroids that asteroid `ind` sees directly, if there is
    /// such an asteroid.
    pub fn detect_count(&self, ind: usize) -> (res: Option<usize>)
        requires
            self.wf(),
        ensures
            ind >= self.asteroids_spec().len() ==> res is None,
            ind < self.asteroids_spec().len() ==> res == Some(
                self.visible_count(ind as int, self.asteroids_spec().len() as int) as usize,
            ),
    {
        let n = self.asteroids.len();
        if ind >= n {
            return None;
        }
        let mut count: usize = 0;
        let mut j: usize = 0;
        while j < n
            invariant
                self.wf(),
                n == self.asteroids_spec().len(),
                ind < n,
                j <= n,
                count == self.visible_count(ind as int, j as int),
                count <= j,
            decreases n - j,
        {
            if j != ind && self.detect_ind(ind, j) == 1 {
                count = count + 1;
            }
            j = j + 1;
        }
        Some(count)
    }

    /// The asteroid that sees the most others, with that number: the last
    /// one among those that see the most; `None` where there is no
    /// asteroid.
    pub fn best_station(&self) -> (res: Option<(usize, usize)>)
        requires
            self.wf(),
        ensures
            res is None <==> self.asteroids_spec().len() == 0,
            res matches Some((ind, c)) ==> {
                let n = self.asteroids_spec().len() as int;
                &&& ind < n
                &&& c == self.visible_count(ind as int, n)
                &&& forall|k: int| 0 <= k < n ==> #[trigger] self.visible_count(k, n) <= c
                &&& forall|k: int| ind < k < n ==> #[trigger] self.visible_count(k, n) < c
            },
    {
        let n = self.asteroids.len();
        let mut best: Option<(usize, usize)> = None;
        let mut k: usize = 0;
        while k < n
            invariant
                self.wf(),
                n == self.asteroids_spec().len(),
                k <= n,
                best is None <==> k == 0,
                best matches Some((ind, c)) ==> {
                    &&& ind < k
                    &&& c == self.visible_count(ind as int, n as int)
                    &&& forall|j: int| 0 <= j < k ==> #[trigger] self.visible_count(j, n as int) <= c
                    &&& forall|j: int| ind < j < k ==> #[trigger] self.visible_count(j, n as int) < c
                },
            decreases n - k,
        {
            let c = match self.detect_count(k) {
                Some(c) => c,
                None => 0,
            };
            proof {
                self.lemma_visible_bounds(k as int, n as int);
                assert(c == self.visible_count(k as int, n as int));
            }
            match best {
                Some((_, bc)) => {
                    if c >= bc {
                        best = Some((k, c));
                    }
                },
                None => {
                    best = Some((k, c));
                },
            }
            k = k + 1;
        }
        best
    }

    proof fn lemma_visible_bounds(&self, i: int, m: int)
        requires
            m >= 0,
        ensures
            0 <= self.visible_count(i, m) <= m,
        decreases m,
    {
        if m > 0 {
            self.lemma_visible_bounds(i, m - 1);
        }
    }

    /// The offset from asteroid `i` to asteroid `j`: columns, then rows.
    pub open spec fn offset(&self, i: int, j: int) -> (int, int) {
        (
            self.asteroids_spec()[j].x_spec() - self.asteroids_spec()[i].x_spec(),
            self.asteroids_spec()[j].y_spec() - self.asteroids_spec()[i].y_spec(),
        )
    }

    /// Whether a laser turning at asteroid `i` hits asteroid `j` before
    /// asteroid `k`: `j` lies in an earlier round (fewer asteroids in front
    /// of it), or in the same round at an earlier turn clockwise from
    /// straight up.
    pub open spec fn vap_before(&self, i: int, j: int, k: int) -> bool {
        let dj = self.detect_spec(i, j);
        let dk = self.detect_spec(i, k);
        dj < dk || (dj == dk && turn_before(self.offset(i, j), self.offset(i, k)))
    }

    /// The order in which a laser at asteroid `ind`, turning clockwise from
    /// straight up, vaporizes all the other asteroids: round by round, and
    /// in each round by the turn at which it points at them. The turns are
    /// compared exactly, by the direction of the offsets. `None` if there is
    /// no asteroid `ind`.
    pub fn vaporize_order(&self, ind: usize) -> (res: Option<Vec<usize>>)
        requires
            self.wf(),
        ensures
            res is Some <==> ind < self.asteroids_spec().len(),
            res matches Some(v) ==> {
                &&& v.len() + 1 == self.asteroids_spec().len()
                &&& v@.no_duplicates()
                &&& forall|a: int| 0 <= a < v.len() ==> #[trigger] v@[a] < self.asteroids_spec().len() && v@[a] != ind
                &&& forall|k: usize| k < self.asteroids_spec().len() && k != ind ==> #[trigger] v@.contains(k)
                &&& forall|a: int, b: int| 0 <= a < b < v.len() ==> !self.vap_before(ind as int, #[trigger] v@[b] as int, #[trigger] v@[a] as int)
            },
    {
        let n = self.asteroids.len();
        if ind >= n {
            return None;
        }
        let center = self.asteroids[ind];
        let mut items: Vec<(usize, i64, i64, usize)> = Vec::new();
        let mut k: usize = 0;
        while k < n
            invariant
                self.wf(),
                n == self.asteroids_spec().len(),
                ind < n,
                k <= n,
                center == self.asteroids_spec()[ind as int],
                forall|a: int| 0 <= a < items.len() ==> self.item_ok(ind as int, #[trigger] items@[a]) && items@[a].0 < k,
                item_keys(items@).no_duplicates(),
                forall|j: usize| j < k && j != ind ==> #[trigger] item_keys(items@).contains(j),
                items.len() + (if ind < k { 1int } else { 0int }) == k,
                forall|a: int, b: int| 0 <= a < b < items.len() ==> !item_before(#[trigger] items@[b], #[trigger] items@[a]),
            decreases n - k,
        {
            if k != ind {
                let other = self.asteroids[k];
                proof {
                    assert(self.asteroids_spec()[k as int] == other);
                    assert(self.wf());
                    assert(other.y < self.position_map.len());
                    assert(other.x < self.position_map@[other.y as int]@.len());
                    assert(center.y < self.position_map.len());
                    assert(center.x < self.position_map@[center.y as int]@.len());
                }
                let dx = other.x as i64 - center.x as i64;
                let dy = other.y as i64 - center.y as i64;
                let d = self.detect_ind(ind, k);
                let x = (k, dx, dy, d);
                proof {
                    assert(self.item_ok(ind as int, x));
                }
                let mut p: usize = 0;
                while p < items.len() && !item_before_exec(&x, &items[p])
                    invariant
                        p <= items.len(),
                        self.item_ok(ind as int, x),
                        forall|a: int| 0 <= a < items.len() ==> self.item_ok(ind as int, #[trigger] items@[a]),
                        forall|a: int| 0 <= a < p ==> !item_before(x, #[trigger] items@[a]),
                    decreases items.len() - p,
                {
                    p = p + 1;
                }
                let ghost old_items = items@;
                items.insert(p, x);
                proof {
                    lemma_insert_sorted(old_items, x, p as int);
                    assert(items@ == old_items.insert(p as int, x));
                    assert(item_keys(items@) =~= item_keys(old_items).insert(p as int, k));
                    assert forall|a: int| 0 <= a < items.len() implies self.item_ok(ind as int, #[trigger] items@[a]) && items@[a].0 < k + 1 by {
                        if a < p {
                            assert(items@[a] == old_items[a]);
                        } else if a > p {
                            assert(items@[a] == old_items[a - 1]);
                        }
                    }
                    assert(!item_keys(old_items).contains(k)) by {
                        if item_keys(old_items).contains(k) {
                            let a = choose|a: int| 0 <= a < item_keys(old_items).len() && item_keys(old_items)[a] == k;
                            assert(old_items[a].0 < k);
                        }
                    }
                    assert(item_keys(items@).no_duplicates()) by {
                        lemma_insert_no_dup(item_keys(old_items), k, p as int);
                    }
                    assert forall|j: usize| j < k + 1 && j != ind implies #[trigger] item_keys(items@).contains(j) by {
                        if j == k {
                            assert(item_keys(items@)[p as int] == k);
                        } else {
                            assert(item_keys(old_items).contains(j));
                            let a = choose|a: int| 0 <= a < item_keys(old_items).len() && item_keys(old_items)[a] == j;
                            if a < p {
                                assert(item_keys(items@)[a] == j);
                            } else {
                                assert(item_keys(items@)[a + 1] == j);
                            }
                        }
                    }
                }
            }
            k = k + 1;
        }
        let mut res: Vec<usize> = Vec::new();
        let mut a: usize = 0;
        while a < items.len()
            invariant
                a <= items.len(),
                res@ == item_keys(items@).take(a as int),
            decreases items.len() - a,
        {
            res.push(items[a].0);
            a = a + 1;
            proof {
                assert(res@ =~= item_keys(items@).take(a as int));
            }
        }
        proof {
            assert(res@ =~= item_keys(items@));
            assert forall|a: int, b: int| 0 <= a < b < res.len() implies !self.vap_before(ind as int, #[trigger] res@[b] as int, #[trigger] res@[a] as int) by {
                assert(!item_before(items@[b], items@[a]));
                assert(self.item_ok(ind as int, items@[a]));
                assert(self.item_ok(ind as int, items@[b]));
            }
            assert forall|a: int| 0 <= a < res.len() implies #[trigger] res@[a] < n && res@[a] != ind by {
                assert(self.item_ok(ind as int, items@[a]));
            }
        }
        Some(res)
    }

    /// An entry `(k, dx, dy, d)` of the vaporizing order of asteroid `i`:
    /// another asteroid `k`, its offset from `i` and its round.
    pub open spec fn item_ok(&self, i: int, t: (usize, i64, i64, usize)) -> bool {
        &&& t.0 < self.asteroids_spec().len()
        &&& t.0 != i
        &&& (t.1 as int, t.2 as int) == self.offset(i, t.0 as int)
        &&& t.3 == self.detect_spec(i, t.0 as int)
        &&& -i32::MAX <= t.1 <= i32::MAX
        &&& -i32::MAX <= t.2 <= i32::MAX
    }
}

/// How many `t` in `[lo, hi)` satisfy `f`.
pub open spec fn count_in(f: spec_fn(int) -> bool, lo: int, hi: int) -> int
    decreases hi - lo,
{
    if hi <= lo {
        0
    } else {
        count_in(f, lo, hi - 1) + if f(hi - 1) { 1int } else { 0 }
    }
}

proof fn lemma_count_front(f: spec_fn(int) -> bool, lo: int, hi: int)
    requires
        lo < hi,
    ensures
        count_in(f, lo, hi) == (if f(lo) { 1int } else { 0 }) + count_in(f, lo + 1, hi),
    decreases hi - lo,
{
    if lo + 1 < hi {
        lemma_count_front(f, lo, hi - 1);
        assert(count_in(f, lo + 1, hi) == count_in(f, lo + 1, hi - 1) + if f(hi - 1) { 1int } else { 0 });
    } else {
        assert(count_in(f, lo, hi) == count_in(f, lo, lo) + if f(lo) { 1int } else { 0 });
        assert(count_in(f, lo + 1, hi) == 0);
    }
}

/// Counting over a range backwards counts the same.
proof fn lemma_count_reversed(f: spec_fn(int) -> bool, c: int, lo: int, hi: int)
    requires
        lo + hi - 1 == c,
    ensures
        count_in(f, lo, hi) == count_in(|t: int| f(c - t), lo, hi),
    decreases hi - lo,
{
    let rev = |t: int| f(c - t);
    if hi - lo >= 2 {
        lemma_count_reversed(f, c, lo + 1, hi - 1);
        lemma_count_front(f, lo, hi);
        lemma_count_front(rev, lo, hi);
        lemma_count_front(f, lo + 1, hi);
        lemma_count_front(rev, lo + 1, hi);
        assert(count_in(f, lo + 1, hi) == count_in(f, lo + 1, hi - 1) + if f(hi - 1) { 1int } else { 0 });
        assert(count_in(rev, lo + 1, hi) == count_in(rev, lo + 1, hi - 1) + if rev(hi - 1) { 1int } else { 0 });
    } else if hi - lo == 1 {
        assert(count_in(f, lo, hi) == count_in(f, lo, lo) + if f(lo) { 1int } else { 0 });
        assert(count_in(rev, lo, hi) == count_in(rev, lo, lo) + if rev(lo) { 1int } else { 0 });
    }
}

/// The unit step of `-d` is the opposite of that of `d`.
proof fn lemma_unit_neg(d: int, g: int)
    requires
        g > 0,
    ensures
        unit(-d, g) == -unit(d, g),
{
    if d == 0 {
        assert(0int / g == 0);
    }
}

impl AsteroidMap {
    /// Whether there is an asteroid at `t` steps of `(ux, uy)` from asteroid `i`.
    pub open spec fn on_ray(&self, i: int, ux: int, uy: int) -> spec_fn(int) -> bool {
        |t: int| self.at(self.asteroids_spec()[i].x_spec() + t * ux, self.asteroids_spec()[i].y_spec() + t * uy) is Some
    }

    proof fn lemma_seen_is_count(&self, i: int, ux: int, uy: int, m: int)
        requires
            m >= 1,
        ensures
            self.seen_before(i, ux, uy, m) == count_in(self.on_ray(i, ux, uy), 1, m),
        decreases m,
    {
        if m > 1 {
            self.lemma_seen_is_count(i, ux, uy, m - 1);
        }
    }

    /// Two asteroids see each other in the same round: the asteroids
    /// between them are the same seen from either end.
    pub proof fn lemma_detect_symmetric(&self, i: int, j: int)
        requires
            0 <= i < self.asteroids_spec().len(),
            0 <= j < self.asteroids_spec().len(),
        ensures
            self.detect_spec(i, j) == self.detect_spec(j, i),
    {
        if i != j {
            let a = self.asteroids_spec()[i];
            let b = self.asteroids_spec()[j];
            let dx = b.x_spec() - a.x_spec();
            let dy = b.y_spec() - a.y_spec();
            let g = gcd(abs(dx) as nat, abs(dy) as nat) as int;
            assert(abs(-dx) == abs(dx) && abs(-dy) == abs(dy));
            assert(a.x_spec() - b.x_spec() == -dx && a.y_spec() - b.y_spec() == -dy);
            let ux = unit(dx, g);
            let uy = unit(dy, g);
            if g >= 1 {
                lemma_unit_neg(dx, g);
                lemma_unit_neg(dy, g);
                lemma_gcd_divides(abs(dx) as nat, abs(dy) as nat);
                vstd::arithmetic::div_mod::lemma_fundamental_div_mod(abs(dx), g);
                vstd::arithmetic::div_mod::lemma_fundamental_div_mod(abs(dy), g);
                assert(dx == g * ux) by {
                    if dx < 0 {
                        assert(g * (-(abs(dx) / g)) == -(g * (abs(dx) / g))) by (nonlinear_arith);
                    }
                }
                assert(dy == g * uy) by {
                    if dy < 0 {
                        assert(g * (-(abs(dy) / g)) == -(g * (abs(dy) / g))) by (nonlinear_arith);
                    }
                }
                let p = self.on_ray(i, ux, uy);
                let q = self.on_ray(j, -ux, -uy);
                self.lemma_seen_is_count(i, ux, uy, g);
                self.lemma_seen_is_count(j, -ux, -uy, g);
                assert(q =~= |t: int| p(g - t)) by {
                    assert forall|t: int| #[trigger] q(t) == p(g - t) by {
                        assert(b.x_spec() + t * (-ux) == a.x_spec() + (g - t) * ux) by (nonlinear_arith)
                            requires
                                b.x_spec() == a.x_spec() + dx,
                                dx == g * ux,
                        ;
                        assert(b.y_spec() + t * (-uy) == a.y_spec() + (g - t) * uy) by (nonlinear_arith)
                            requires
                                b.y_spec() == a.y_spec() + dy,
                                dy == g * uy,
                        ;
                    }
                }
                lemma_count_reversed(p, g, 1, g);
            }
        }
    }
}

/// Which half of the turn a direction lies in, turning clockwise from
/// straight up with rows growing downwards: the right half with straight
/// up, the left half with straight down, and the zero offset last.
pub open spec fn half(d: (int, int)) -> int {
    if d.0 > 0 || (d.0 == 0 && d.1 < 0) {
        0
    } else if d.0 < 0 || (d.0 == 0 && d.1 > 0) {
        1
    } else {
        2
    }
}

/// The cross product of two offsets.
pub open spec fn cross(a: (int, int), b: (int, int)) -> int {
    a.0 * b.1 - a.1 * b.0
}

/// Whether direction `a` comes strictly before direction `b` turning
/// clockwise from straight up.
pub open spec fn turn_before(a: (int, int), b: (int, int)) -> bool {
    half(a) < half(b) || (half(a) == half(b) && cross(a, b) > 0)
}

/// The asteroids named by the entries.
pub open spec fn item_keys(s: Seq<(usize, i64, i64, usize)>) -> Seq<usize> {
    s.map_values(|t: (usize, i64, i64, usize)| t.0)
}

/// Order of entries of the vaporizing order: round, then turn.
pub open spec fn item_before(a: (usize, i64, i64, usize), b: (usize, i64, i64, usize)) -> bool {
    a.3 < b.3 || (a.3 == b.3 && turn_before((a.1 as int, a.2 as int), (b.1 as int, b.2 as int)))
}

fn item_before_exec(a: &(usize, i64, i64, usize), b: &(usize, i64, i64, usize)) -> (res: bool)
    requires
        -i32::MAX <= a.1 <= i32::MAX,
        -i32::MAX <= a.2 <= i32::MAX,
        -i32::MAX <= b.1 <= i32::MAX,
        -i32::MAX <= b.2 <= i32::MAX,
    ensures
        res == item_before(*a, *b),
{
    if a.3 != b.3 {
        return a.3 < b.3;
    }
    let ha: u8 = if a.1 > 0 || (a.1 == 0 && a.2 < 0) { 0 } else if a.1 < 0 || (a.1 == 0 && a.2 > 0) { 1 } else { 2 };
    let hb: u8 = if b.1 > 0 || (b.1 == 0 && b.2 < 0) { 0 } else if b.1 < 0 || (b.1 == 0 && b.2 > 0) { 1 } else { 2 };
    if ha != hb {
        return ha < hb;
    }
    proof {
        assert(-0x4000_0000_0000_0000 <= a.1 * b.2 <= 0x4000_0000_0000_0000) by (nonlinear_arith)
            requires
                -i32::MAX <= a.1 <= i32::MAX,
                -i32::MAX <= b.2 <= i32::MAX,
        ;
        assert(-0x4000_0000_0000_0000 <= a.2 * b.1 <= 0x4000_0000_0000_0000) by (nonlinear_arith)
            requires
                -i32::MAX <= a.2 <= i32::MAX,
                -i32::MAX <= b.1 <= i32::MAX,
        ;
    }
    let c = a.1 as i128 * b.2 as i128 - a.2 as i128 * b.1 as i128;
    c > 0
}

/// Within the right half, turning is transitive.
proof fn lemma_cross_trans_right(a: (int, int), b: (int, int), c: (int, int))
    requires
        half(a) == 0,
        half(b) == 0,
        half(c) == 0,
        cross(a, b) > 0,
        cross(b, c) > 0,
    ensures
        cross(a, c) > 0,
{
    let (ax, ay) = a;
    let (bx, by) = b;
    let (cx, cy) = c;
    assert((ax * by - ay * bx) * cx + (bx * cy - by * cx) * ax + (cx * ay - cy * ax) * bx == 0) by (nonlinear_arith);
    if bx == 0 {
        assert(ay * bx == 0) by (nonlinear_arith)
            requires
                bx == 0,
        ;
        assert(ax * by <= 0) by (nonlinear_arith)
            requires
                ax >= 0,
                by < 0,
        ;
    } else {
        assert((ax * by - ay * bx) * cx >= 0) by (nonlinear_arith)
            requires
                ax * by - ay * bx > 0,
                cx >= 0,
        ;
        assert((bx * cy - by * cx) * ax >= 0) by (nonlinear_arith)
            requires
                bx * cy - by * cx > 0,
                ax >= 0,
        ;
        if ax * cy - ay * cx <= 0 {
            assert((cx * ay - cy * ax) * bx >= 0) by (nonlinear_arith)
                requires
                    cx * ay - cy * ax >= 0,
                    bx > 0,
            ;
            assert(cx == 0) by (nonlinear_arith)
                requires
                    (ax * by - ay * bx) * cx == 0,
                    ax * by - ay * bx > 0,
            ;
            assert(by * cx == 0) by (nonlinear_arith)
                requires
                    cx == 0,
            ;
            assert(bx * cy < 0) by (nonlinear_arith)
                requires
                    bx > 0,
                    cy < 0,
            ;
        }
    }
}

/// Turning clockwise from straight up is a strict order.
pub proof fn lemma_turn_order(a: (int, int), b: (int, int), c: (int, int))
    ensures
        turn_before(a, b) ==> !turn_before(b, a),
        turn_before(a, b) && turn_before(b, c) ==> turn_before(a, c),
{
    assert(cross(a, b) == -cross(b, a)) by (nonlinear_arith);
    if turn_before(a, b) && turn_before(b, c) && half(a) == half(b) && half(b) == half(c) {
        if half(a) == 0 {
            lemma_cross_trans_right(a, b, c);
        } else if half(a) == 1 {
            let na = (-a.0, -a.1);
            let nb = (-b.0, -b.1);
            let nc = (-c.0, -c.1);
            assert((-a.0) * (-b.1) - (-a.1) * (-b.0) == a.0 * b.1 - a.1 * b.0) by (nonlinear_arith);
            assert((-b.0) * (-c.1) - (-b.1) * (-c.0) == b.0 * c.1 - b.1 * c.0) by (nonlinear_arith);
            assert((-a.0) * (-c.1) - (-a.1) * (-c.0) == a.0 * c.1 - a.1 * c.0) by (nonlinear_arith);
            lemma_cross_trans_right(na, nb, nc);
        } else {
            assert(a == (0int, 0int) && b == (0int, 0int));
            assert(cross(a, b) == 0);
        }
    }
}

/// Inserting `x` at the first place whose entry comes after it keeps a
/// sorted sequence sorted.
proof fn lemma_insert_sorted(s: Seq<(usize, i64, i64, usize)>, x: (usize, i64, i64, usize), p: int)
    requires
        0 <= p <= s.len(),
        forall|a: int, b: int| 0 <= a < b < s.len() ==> !item_before(#[trigger] s[b], #[trigger] s[a]),
        forall|a: int| 0 <= a < p ==> !item_before(x, #[trigger] s[a]),
        p < s.len() ==> item_before(x, s[p]),
    ensures
        forall|a: int, b: int| 0 <= a < b < s.len() + 1 ==> !item_before(#[trigger] s.insert(p, x)[b], #[trigger] s.insert(p, x)[a]),
{
    let t = s.insert(p, x);
    assert forall|a: int, b: int| 0 <= a < b < s.len() + 1 implies !item_before(#[trigger] t[b], #[trigger] t[a]) by {
        if a < p && b == p {
            assert(t[a] == s[a]);
        } else if a < p && b > p {
            assert(t[a] == s[a] && t[b] == s[b - 1]);
        } else if a < p {
            assert(t[a] == s[a] && t[b] == s[b]);
        } else if a == p {
            // x before s[p] and s[b - 1] not before s[p]
            assert(t[b] == s[b - 1]);
            let y = s[b - 1];
            if item_before(y, x) {
                lemma_item_order(y, x, s[p]);
                if b - 1 > p {
                    assert(!item_before(s[b - 1], s[p]));
                }
            }
            lemma_item_order(x, y, y);
        } else {
            assert(t[a] == s[a - 1] && t[b] == s[b - 1]);
        }
    }
}

/// The order of entries is a strict order.
proof fn lemma_item_order(a: (usize, i64, i64, usize), b: (usize, i64, i64, usize), c: (usize, i64, i64, usize))
    ensures
        item_before(a, b) ==> !item_before(b, a),
        item_before(a, b) && item_before(b, c) ==> item_before(a, c),
{
    lemma_turn_order((a.1 as int, a.2 as int), (b.1 as int, b.2 as int), (c.1 as int, c.2 as int));
}

/// Inserting a value that is not there yet keeps a sequence free of
/// repeats.
proof fn lemma_insert_no_dup(s: Seq<usize>, k: usize, p: int)
    requires
        0 <= p <= s.len(),
        s.no_duplicates(),
        !s.contains(k),
    ensures
        s.insert(p, k).no_duplicates(),
{
    let t = s.insert(p, k);
    assert forall|a: int, b: int| 0 <= a < t.len() && 0 <= b < t.len() && a != b implies t[a] != t[b] by {
        if a == p {
            if b < p { assert(t[b] == s[b]); } else { assert(t[b] == s[b - 1]); }
        } else if b == p {
            if a < p { assert(t[a] == s[a]); } else { assert(t[a] == s[a - 1]); }
        } else {
            let sa = if a < p { a } else { a - 1 };
            let sb = if b < p { b } else { b - 1 };
            assert(t[a] == s[sa] && t[b] == s[sb]);
        }
    }
}

/// The points between an asteroid and one at `g` unit steps from it stay
/// within `i32` reach.
proof fn lemma_step_bound(t: int, g: int, ad: int, u: int, d: int)
    requires
        1 <= t < g,
        0 <= ad <= i32::MAX,
        ad == g * (ad / g),
        abs(d) == ad,
        u == unit(d, g),
    ensures
        abs(t * u) <= ad,
        abs((t + 1) * u) <= ad,
{
    let q = ad / g;
    assert(0 <= q) by (nonlinear_arith)
        requires
            ad == g * q,
            ad >= 0,
            g > 0,
    ;
    assert(t * q <= ad && (t + 1) * q <= ad) by (nonlinear_arith)
        requires
            ad == g * q,
            1 <= t < g,
            q >= 0,
    ;
    if d < 0 {
        assert(u == -q);
        assert(t * u == -(t * q) && (t + 1) * u == -((t + 1) * q)) by (nonlinear_arith)
            requires
                u == -q,
        ;
        assert(t * q >= 0 && (t + 1) * q >= 0) by (nonlinear_arith)
            requires
                q >= 0,
                t >= 1,
        ;
    } else if d > 0 {
        assert(u == q);
        assert(t * q >= 0 && (t + 1) * q >= 0) by (nonlinear_arith)
            requires
                q >= 0,
                t >= 1,
        ;
    } else {
        assert(u == 0);
        assert(t * u == 0 && (t + 1) * u == 0) by (nonlinear_arith)
            requires
                u == 0,
        ;
    }
}

/// Greatest common divisor of two numbers.
pub fn gcd_u64(n0: u64, n1: u64) -> (res: u64)
    requires
        n0 > 0 || n1 > 0,
    ensures
        res == gcd(n0 as nat, n1 as nat),
        res > 0,
        res <= n0 + n1,
{
    let mut large = if n0 >= n1 { n0 } else { n1 };
    let mut small = if n0 >= n1 { n1 } else { n0 };
    proof {
        if n0 < n1 {
            assert(n0 % n1 == n0) by {
                vstd::arithmetic::div_mod::lemma_small_mod(n0 as nat, n1 as nat);
            }
            assert(gcd(n0 as nat, n1 as nat) == gcd(n1 as nat, n0 as nat));
        }
    }
    while small != 0
        invariant
            small <= large,
            large > 0,
            large <= n0 + n1,
            gcd(large as nat, small as nat) == gcd(n0 as nat, n1 as nat),
        decreases small,
    {
        let rem = large % small;
        large = small;
        small = rem;
    }
    proof {
        lemma_gcd_divides(n0 as nat, n1 as nat);
    }
    large
}

} // verus!
