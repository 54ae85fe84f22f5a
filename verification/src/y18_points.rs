//! Points in four dimensions that form constellations when close enough.

use vstd::prelude::*;
use crate::text::{caps_view, group_int, group_int_spec, regex_captures, regex_captures_spec};

verus! {

/// Errors met while reading points.
#[derive(Debug)]
pub enum Error {
    /// A line that does not describe a point.
    NotMatchPointPattern(String),
}

/// A point in four-dimensional space.
#[derive(Debug)]
pub struct Point {
    pub x: isize,
    pub y: isize,
    pub z: isize,
    pub w: isize,
}

pub open spec fn abs_diff(a: int, b: int) -> int {
    if a >= b { a - b } else { b - a }
}

/// Manhattan distance between two points.
pub open spec fn dist(p: Point, q: Point) -> int {
    abs_diff(p.x as int, q.x as int) + abs_diff(p.y as int, q.y as int) + abs_diff(p.z as int, q.z as int)
        + abs_diff(p.w as int, q.w as int)
}

fn abs_diff_exec(a: isize, b: isize) -> (res: usize)
    ensures
        res == abs_diff(a as int, b as int),
{
    if a >= b {
        (a as i128 - b as i128) as usize
    } else {
        (b as i128 - a as i128) as usize
    }
}

/// Four integers, each maybe signed, split by commas.
pub const POINT_PATTERN: &'static str = r"(-?\d+),(-?\d+),(-?\d+),(-?\d+)";

/// The point that the groups of a match of `POINT_PATTERN` write, where
/// each coordinate fits in `isize`.
pub open spec fn point_of_caps(caps: Seq<Option<Seq<char>>>) -> Option<Point> {
    let lo = isize::MIN as int;
    let hi = isize::MAX as int;
    match (
        group_int_spec(caps, 1, lo, hi),
        group_int_spec(caps, 2, lo, hi),
        group_int_spec(caps, 3, lo, hi),
        group_int_spec(caps, 4, lo, hi),
    ) {
        (Some(x), Some(y), Some(z), Some(w)) => Some(Point { x: x as isize, y: y as isize, z: z as isize, w: w as isize }),
        _ => None,
    }
}

/// What reading `text` as a point gives, from what the pattern captured.
pub open spec fn point_read(caps: Option<Seq<Option<Seq<char>>>>, text: Seq<char>, res: Result<Point, Error>) -> bool {
    match caps {
        Some(c) => match point_of_caps(c) {
            Some(p) => res == Ok::<Point, Error>(p),
            None => res matches Err(Error::NotMatchPointPattern(t)) && t@ == text,
        },
        None => res matches Err(Error::NotMatchPointPattern(t)) && t@ == text,
    }
}

impl Point {
    /// Reads a point `x,y,z,w` found in `value`; a coordinate beyond
    /// `isize` makes the line no point.
    pub fn try_from(value: &str) -> (res: Result<Point, Error>)
        ensures
            point_read(regex_captures_spec(POINT_PATTERN@, value@), value@, res),
    {
        match regex_captures(POINT_PATTERN, value) {
            Some(caps) => Self::from_captures(&caps, value),
            None => Err(Error::NotMatchPointPattern(value.to_string())),
        }
    }

    /// The point that the groups `caps` of a match in `value` write.
    pub fn from_captures(caps: &Vec<Option<String>>, value: &str) -> (res: Result<Point, Error>)
        ensures
            point_read(Some(caps_view(caps@)), value@, res),
    {
        let lo = isize::MIN as i128;
        let hi = isize::MAX as i128;
        let x = group_int(caps, 1, lo, hi);
        let y = group_int(caps, 2, lo, hi);
        let z = group_int(caps, 3, lo, hi);
        let w = group_int(caps, 4, lo, hi);
        match (x, y, z, w) {
            (Some(x), Some(y), Some(z), Some(w)) => Ok(Point { x: x as isize, y: y as isize, z: z as isize, w: w as isize }),
            _ => Err(Error::NotMatchPointPattern(value.to_string())),
        }
    }

    /// The Manhattan distance to `other`.
    pub fn mht_dist(&self, other: &Point) -> (res: usize)
        requires
            dist(*self, *other) <= usize::MAX,
        ensures
            res == dist(*self, *other),
    {
        abs_diff_exec(self.x, other.x) + abs_diff_exec(self.y, other.y) + abs_diff_exec(self.z, other.z)
            + abs_diff_exec(self.w, other.w)
    }
}

/// Whether two points are close enough to be in one constellation.
pub open spec fn near(p: Point, q: Point) -> bool {
    dist(p, q) <= 3
}

/// The indices other than `i` whose points are near point `i`.
pub open spec fn near_pred(points: Seq<Point>, i: int) -> spec_fn(usize) -> bool {
    |j: usize| j != i && near(points[i], points[j as int])
}

/// For each point, the indices of the other points within distance three,
/// in increasing order.
pub fn comp_near_neighbor_mat(points: &Vec<Point>) -> (res: Vec<Vec<usize>>)
    requires
        forall|i: int, j: int| 0 <= i < points.len() && 0 <= j < points.len() ==> dist(#[trigger] points[i], #[trigger] points[j]) <= usize::MAX,
    ensures
        res.len() == points.len(),
        forall|i: int| 0 <= i < res.len() ==> (#[trigger] res[i])@ == Seq::new(points.len() as nat, |j: int| j as usize).filter(near_pred(points@, i)),
{
    let point_count = points.len();
    let mut mat: Vec<Vec<usize>> = Vec::new();
    let mut l: usize = 0;
    while l < point_count
        invariant
            point_count == points.len(),
            l <= point_count,
            mat.len() == l,
            forall|i: int, j: int| 0 <= i < points.len() && 0 <= j < points.len() ==> dist(#[trigger] points[i], #[trigger] points[j]) <= usize::MAX,
            forall|i: int| 0 <= i < mat.len() ==> (#[trigger] mat[i])@ == Seq::new(points.len() as nat, |j: int| j as usize).filter(near_pred(points@, i)),
        decreases point_count - l,
    {
        let ghost all = Seq::new(points.len() as nat, |j: int| j as usize);
        let ghost pred = near_pred(points@, l as int);
        let mut row: Vec<usize> = Vec::new();
        let mut r: usize = 0;
        while r < point_count
            invariant
                point_count == points.len(),
                l < point_count,
                r <= point_count,
                all == Seq::new(points.len() as nat, |j: int| j as usize),
                pred == near_pred(points@, l as int),
                forall|i: int, j: int| 0 <= i < points.len() && 0 <= j < points.len() ==> dist(#[trigger] points[i], #[trigger] points[j]) <= usize::MAX,
                row@ == all.take(r as int).filter(pred),
            decreases point_count - r,
        {
            proof {
                assert(all.take(r + 1).drop_last() =~= all.take(r as int));
                reveal_with_fuel(Seq::<_>::filter, 1);
            }
            if r != l && points[l].mht_dist(&points[r]) <= 3 {
                row.push(r);
            }
            r = r + 1;
        }
        proof {
            assert(all.take(point_count as int) =~= all);
        }
        mat.push(row);
        l = l + 1;
    }
    mat
}

/// Whether every edge of the adjacency lists has its reverse.
pub open spec fn symmetric(mat: Seq<Vec<usize>>) -> bool {
    forall|i: int, k: int| 0 <= i < mat.len() && 0 <= k < mat[i].len() ==> mat[#[trigger] mat[i][k] as int]@.contains(i as usize)
}

/// Whether index `j` is in one of the components.
pub open spec fn in_comps(comps: Seq<Vec<usize>>, j: int) -> bool {
    exists|c: int, k: int| 0 <= c < comps.len() && 0 <= k < comps[c].len() && #[trigger] comps[c][k] == j
}

/// Whether `path` follows edges of the adjacency lists `mat`.
pub open spec fn is_path(mat: Seq<Vec<usize>>, path: Seq<usize>) -> bool {
    forall|i: int| 0 <= i < path.len() - 1 ==> mat[#[trigger] path[i] as int]@.contains(path[i + 1])
}

/// Whether index `b` can be reached from index `a` along edges of `mat`.
pub open spec fn linked(mat: Seq<Vec<usize>>, a: usize, b: usize) -> bool {
    exists|path: Seq<usize>| #[trigger] is_path(mat, path) && path.len() > 0 && path[0] == a && path.last() == b
}

proof fn lemma_linked_self(mat: Seq<Vec<usize>>, a: usize)
    ensures
        linked(mat, a, a),
{
    let p = seq![a];
    assert(is_path(mat, p));
}

proof fn lemma_linked_step(mat: Seq<Vec<usize>>, a: usize, b: usize, x: usize)
    requires
        linked(mat, a, b),
        0 <= b < mat.len(),
        mat[b as int]@.contains(x),
    ensures
        linked(mat, a, x),
{
    let p = choose|p: Seq<usize>| #[trigger] is_path(mat, p) && p.len() > 0 && p[0] == a && p.last() == b;
    let q = p.push(x);
    assert forall|i: int| 0 <= i < q.len() - 1 implies mat[#[trigger] q[i] as int]@.contains(q[i + 1]) by {
        if i < p.len() - 1 {
            assert(q[i] == p[i] && q[i + 1] == p[i + 1]);
        } else {
            assert(q[i] == b && q[i + 1] == x);
        }
    }
    assert(is_path(mat, q));
}

/// A set of indices that holds the neighbours of its members holds the end
/// of every path that starts in it.
proof fn lemma_path_stays(mat: Seq<Vec<usize>>, comp: Seq<usize>, path: Seq<usize>)
    requires
        forall|k: int, m: int| 0 <= k < comp.len() && 0 <= m < mat[comp[k] as int].len()
            ==> comp.contains(#[trigger] mat[comp[k] as int][m]),
        is_path(mat, path),
        path.len() > 0,
        comp.contains(path[0]),
    ensures
        comp.contains(path.last()),
    decreases path.len(),
{
    if path.len() > 1 {
        let p2 = path.drop_last();
        assert forall|i: int| 0 <= i < p2.len() - 1 implies mat[#[trigger] p2[i] as int]@.contains(p2[i + 1]) by {
            assert(p2[i] == path[i] && p2[i + 1] == path[i + 1]);
        }
        lemma_path_stays(mat, comp, p2);
        let x = path[path.len() - 2];
        assert(p2.last() == x);
        assert(mat[x as int]@.contains(path.last()));
        let k = choose|k: int| 0 <= k < comp.len() && comp[k] == x;
        let m = choose|m: int| 0 <= m < mat[x as int].len() && mat[x as int][m] == path.last();
        assert(comp.contains(mat[comp[k] as int][m]));
    }
}

/// The connected components of the graph whose adjacency lists are
/// `neighbor_mat`: every index is in some component and no index occurs
/// twice; each component starts with its smallest index, from which every
/// member can be reached, and the components come in the order of their
/// first indices; when every edge has its reverse, every component holds
/// the neighbours of its members.
pub fn comp_components(neighbor_mat: &Vec<Vec<usize>>) -> (res: Vec<Vec<usize>>)
    requires
        forall|i: int, k: int| 0 <= i < neighbor_mat.len() && 0 <= k < neighbor_mat[i].len() ==> #[trigger] neighbor_mat[i][k] < neighbor_mat.len(),
    ensures
        forall|j: int| 0 <= j < neighbor_mat.len() ==> #[trigger] in_comps(res@, j),
        forall|c: int, k: int| 0 <= c < res.len() && 0 <= k < res[c].len() ==> #[trigger] res[c][k] < neighbor_mat.len(),
        forall|c1: int, k1: int, c2: int, k2: int|
            0 <= c1 < res.len() && 0 <= k1 < res[c1].len() && 0 <= c2 < res.len() && 0 <= k2 < res[c2].len()
                && (c1 != c2 || k1 != k2) ==> #[trigger] res[c1][k1] != #[trigger] res[c2][k2],
        symmetric(neighbor_mat@) ==> forall|c: int, k: int, m: int| 0 <= c < res.len() && 0 <= k < res[c].len() && 0 <= m < neighbor_mat[res[c][k] as int].len()
            ==> (#[trigger] res[c])@.contains(#[trigger] neighbor_mat[res[c][k] as int][m]),
        forall|c: int| 0 <= c < res.len() ==> (#[trigger] res[c]).len() > 0,
        forall|c: int, k: int| 0 <= c < res.len() && 0 <= k < res[c].len() ==> res[c][0] <= #[trigger] res[c][k]
            && linked(neighbor_mat@, res[c][0], res[c][k]),
        forall|c1: int, c2: int| 0 <= c1 < c2 < res.len() ==> #[trigger] res[c1][0] < #[trigger] res[c2][0],
        symmetric(neighbor_mat@) ==> forall|c: int, j: usize| 0 <= c < res.len() ==> (#[trigger] res@[c]@.contains(j)
            <==> linked(neighbor_mat@, res@[c][0], j)),
{
    let n = neighbor_mat.len();
    let mut visited: Vec<bool> = Vec::new();
    let mut i: usize = 0;
    while i < n
        invariant
            i <= n,
            visited.len() == i,
            forall|j: int| 0 <= j < i ==> !visited[j],
        decreases n - i,
    {
        visited.push(false);
        i = i + 1;
    }
    let mut components: Vec<Vec<usize>> = Vec::new();
    let ghost mut loc: Map<int, (int, int)> = Map::empty();
    let mut start: usize = 0;
    while start < n
        invariant
            n == neighbor_mat.len(),
            visited.len() == n,
            start <= n,
            forall|i: int, k: int| 0 <= i < neighbor_mat.len() && 0 <= k < neighbor_mat[i].len() ==> #[trigger] neighbor_mat[i][k] < neighbor_mat.len(),
            forall|j: int| 0 <= j < start ==> visited[j],
            forall|j: int| 0 <= j < n && #[trigger] visited[j] ==> loc.contains_key(j) && ({
                let (c, k) = loc[j];
                0 <= c < components.len() && 0 <= k < components[c].len() && components[c][k] == j
            }),
            forall|c: int, k: int| 0 <= c < components.len() && 0 <= k < components[c].len() ==> {
                &&& #[trigger] components[c][k] < n
                &&& visited[components[c][k] as int]
                &&& loc[components[c][k] as int] == (c, k)
                &&& components[c][0] <= components[c][k]
                &&& linked(neighbor_mat@, components[c][0], components[c][k])
            },
            forall|c: int| 0 <= c < components.len() ==> (#[trigger] components[c]).len() > 0 && components[c][0] < start,
            forall|c1: int, c2: int| 0 <= c1 < c2 < components.len() ==> #[trigger] components[c1][0] < #[trigger] components[c2][0],
            symmetric(neighbor_mat@) ==> forall|c: int, k: int, m: int| 0 <= c < components.len() && 0 <= k < components[c].len() && 0 <= m < neighbor_mat[components[c][k] as int].len()
                ==> (#[trigger] components[c])@.contains(#[trigger] neighbor_mat[components[c][k] as int][m]),
        decreases n - start,
    {
        if visited[start] {
            start = start + 1;
            continue;
        }
        let ci = components.len();
        let mut comp: Vec<usize> = Vec::new();
        comp.push(start);
        visited.set(start, true);
        proof {
            loc = loc.insert(start as int, (ci as int, 0));
            lemma_linked_self(neighbor_mat@, start);
        }
        let mut head: usize = 0;
        while head < comp.len()
            invariant
                n == neighbor_mat.len(),
                visited.len() == n,
                ci == components.len(),
                start < n,
                head <= comp.len(),
                forall|i: int, k: int| 0 <= i < neighbor_mat.len() && 0 <= k < neighbor_mat[i].len() ==> #[trigger] neighbor_mat[i][k] < neighbor_mat.len(),
                forall|j: int| 0 <= j < start ==> visited[j],
                forall|j: int| 0 <= j < n && #[trigger] visited[j] ==> loc.contains_key(j) && ({
                    let (c, k) = loc[j];
                    (0 <= c < components.len() && 0 <= k < components[c].len() && components[c][k] == j)
                    || (c == ci && 0 <= k < comp.len() && comp[k] == j)
                }),
                forall|c: int, k: int| 0 <= c < components.len() && 0 <= k < components[c].len() ==> {
                    &&& #[trigger] components[c][k] < n
                    &&& visited[components[c][k] as int]
                    &&& loc[components[c][k] as int] == (c, k)
                    &&& components[c][0] <= components[c][k]
                    &&& linked(neighbor_mat@, components[c][0], components[c][k])
                },
                forall|c: int| 0 <= c < components.len() ==> (#[trigger] components[c]).len() > 0 && components[c][0] < start,
                forall|c1: int, c2: int| 0 <= c1 < c2 < components.len() ==> #[trigger] components[c1][0] < #[trigger] components[c2][0],
                forall|k: int| 0 <= k < comp.len() ==> {
                    &&& #[trigger] comp[k] < n
                    &&& visited[comp[k] as int]
                    &&& loc[comp[k] as int] == (ci as int, k)
                    &&& start <= comp[k]
                    &&& linked(neighbor_mat@, start, comp[k])
                },
                comp.len() > 0 && comp[0] == start,
                visited[start as int],
                symmetric(neighbor_mat@) ==> forall|c: int, k: int, m: int| 0 <= c < components.len() && 0 <= k < components[c].len() && 0 <= m < neighbor_mat[components[c][k] as int].len()
                    ==> (#[trigger] components[c])@.contains(#[trigger] neighbor_mat[components[c][k] as int][m]),
                symmetric(neighbor_mat@) ==> forall|k: int, m: int| 0 <= k < head && 0 <= m < neighbor_mat[comp[k] as int].len()
                    ==> comp@.contains(#[trigger] neighbor_mat[comp[k] as int][m]),
            decreases count_false(visited@), comp.len() - head,
        {
            let ghost vis_before = visited@;
            let cur = comp[head];
            let nbrs = &neighbor_mat[cur];
            let ghost old_len = comp.len();
            let mut m: usize = 0;
            while m < nbrs.len()
                invariant
                    n == neighbor_mat.len(),
                    visited.len() == n,
                    ci == components.len(),
                    start < n,
                    head < comp.len(),
                    count_false(visited@) <= count_false(vis_before),
                    count_false(visited@) == count_false(vis_before) ==> comp.len() == old_len,
                    cur == comp[head as int],
                    nbrs == neighbor_mat[cur as int],
                    m <= nbrs.len(),
                    forall|i: int, k: int| 0 <= i < neighbor_mat.len() && 0 <= k < neighbor_mat[i].len() ==> #[trigger] neighbor_mat[i][k] < neighbor_mat.len(),
                    forall|j: int| 0 <= j < start ==> visited[j],
                    forall|j: int| 0 <= j < n && #[trigger] visited[j] ==> loc.contains_key(j) && ({
                        let (c, k) = loc[j];
                        (0 <= c < components.len() && 0 <= k < components[c].len() && components[c][k] == j)
                        || (c == ci && 0 <= k < comp.len() && comp[k] == j)
                    }),
                    forall|c: int, k: int| 0 <= c < components.len() && 0 <= k < components[c].len() ==> {
                        &&& #[trigger] components[c][k] < n
                        &&& visited[components[c][k] as int]
                        &&& loc[components[c][k] as int] == (c, k)
                        &&& components[c][0] <= components[c][k]
                        &&& linked(neighbor_mat@, components[c][0], components[c][k])
                    },
                    forall|c: int| 0 <= c < components.len() ==> (#[trigger] components[c]).len() > 0 && components[c][0] < start,
                    forall|c1: int, c2: int| 0 <= c1 < c2 < components.len() ==> #[trigger] components[c1][0] < #[trigger] components[c2][0],
                    forall|k: int| 0 <= k < comp.len() ==> {
                        &&& #[trigger] comp[k] < n
                        &&& visited[comp[k] as int]
                        &&& loc[comp[k] as int] == (ci as int, k)
                        &&& start <= comp[k]
                        &&& linked(neighbor_mat@, start, comp[k])
                    },
                    comp.len() > 0 && comp[0] == start,
                    visited[start as int],
                    symmetric(neighbor_mat@) ==> forall|c: int, k: int, mm: int| 0 <= c < components.len() && 0 <= k < components[c].len() && 0 <= mm < neighbor_mat[components[c][k] as int].len()
                        ==> (#[trigger] components[c])@.contains(#[trigger] neighbor_mat[components[c][k] as int][mm]),
                    symmetric(neighbor_mat@) ==> forall|k: int, mm: int| 0 <= k < head && 0 <= mm < neighbor_mat[comp[k] as int].len()
                        ==> comp@.contains(#[trigger] neighbor_mat[comp[k] as int][mm]),
                    symmetric(neighbor_mat@) ==> forall|mm: int| 0 <= mm < m ==> comp@.contains(#[trigger] neighbor_mat[cur as int][mm]),
                decreases nbrs.len() - m,
            {
                let nb = nbrs[m];
                if !visited[nb] {
                    proof {
                        lemma_count_false_set(visited@, nb as int);
                    }
                    let ghost k_new = comp.len() as int;
                    let ghost old_comp = comp@;
                    comp.push(nb);
                    visited.set(nb, true);
                    proof {
                        loc = loc.insert(nb as int, (ci as int, k_new));
                        assert(comp@[k_new] == nb);
                        assert(nbrs@[m as int] == nb);
                        lemma_linked_step(neighbor_mat@, start, cur, nb);
                        if nb < start {
                            assert(vis_before[nb as int]);
                        }
                        assert forall|x: usize| old_comp.contains(x) implies comp@.contains(x) by {
                            let i = choose|i: int| 0 <= i < old_comp.len() && old_comp[i] == x;
                            assert(comp@[i] == x);
                        }
                    }
                } else {
                    proof {
                        if symmetric(neighbor_mat@) {
                            let (c, k) = loc[nb as int];
                            if c == ci {
                                assert(comp@[k] == nb);
                            } else {
                                assert(components[c][k] == nb);
                                assert(neighbor_mat[cur as int][m as int] == nb);
                                assert(neighbor_mat[nb as int]@.contains(cur));
                                let mm = choose|mm: int| 0 <= mm < neighbor_mat[nb as int].len() && neighbor_mat[nb as int][mm] == cur;
                                assert(components[c]@.contains(neighbor_mat[components[c][k] as int][mm]));
                                let k2 = choose|k2: int| 0 <= k2 < components[c].len() && components[c][k2] == cur;
                                assert(loc[components[c][k2] as int] == (c, k2));
                                assert(loc[comp[head as int] as int] == (ci as int, head as int));
                                assert(false);
                            }
                            assert(comp@.contains(nb));
                        }
                    }
                }
                assert(symmetric(neighbor_mat@) ==> comp@.contains(neighbor_mat[cur as int][m as int]));
                m = m + 1;
            }
            head = head + 1;
        }
        let ghost old_components = components@;
        components.push(comp);
        proof {
            assert forall|c: int, k: int| 0 <= c < components.len() && 0 <= k < components[c].len() implies {
                &&& #[trigger] components[c][k] < n
                &&& visited[components[c][k] as int]
                &&& loc[components[c][k] as int] == (c, k)
                &&& components[c][0] <= components[c][k]
                &&& linked(neighbor_mat@, components[c][0], components[c][k])
            } by {
                if c < ci {
                    assert(components[c] == old_components[c]);
                }
            }
        }
        start = start + 1;
    }
    assert forall|j: int| 0 <= j < n implies #[trigger] in_comps(components@, j) by {
        assert(visited[j]);
        let (c, k) = loc[j];
        assert(components[c][k] == j);
    }
    proof {
        if symmetric(neighbor_mat@) {
            assert forall|c: int, j: usize| 0 <= c < components.len() implies (#[trigger] components@[c]@.contains(j)
                <==> linked(neighbor_mat@, components@[c][0], j)) by {
                let comp = components@[c]@;
                if comp.contains(j) {
                    let k = choose|k: int| 0 <= k < comp.len() && comp[k] == j;
                    assert(linked(neighbor_mat@, components[c][0], components[c][k]));
                }
                if linked(neighbor_mat@, components@[c][0], j) {
                    let path = choose|path: Seq<usize>| #[trigger] is_path(neighbor_mat@, path) && path.len() > 0
                        && path[0] == components@[c][0] && path.last() == j;
                    assert(comp[0] == components@[c][0]);
                    assert forall|k: int, m: int| 0 <= k < comp.len() && 0 <= m < neighbor_mat@[comp[k] as int].len()
                        implies comp.contains(#[trigger] neighbor_mat@[comp[k] as int][m]) by {
                        assert(components[c]@.contains(neighbor_mat[components[c][k] as int][m]));
                    }
                    lemma_path_stays(neighbor_mat@, comp, path);
                }
            }
        }
    }
    components
}

/// Number of `false` entries.
pub open spec fn count_false(s: Seq<bool>) -> nat
    decreases s.len(),
{
    if s.len() == 0 {
        0
    } else {
        count_false(s.drop_last()) + if s.last() { 0nat } else { 1nat }
    }
}

proof fn lemma_count_false_set(s: Seq<bool>, i: int)
    requires
        0 <= i < s.len(),
        !s[i],
    ensures
        count_false(s.update(i, true)) + 1 == count_false(s),
    decreases s.len(),
{
    let t = s.update(i, true);
    if i == s.len() - 1 {
        assert(t.drop_last() =~= s.drop_last());
    } else {
        assert(t.drop_last() =~= s.drop_last().update(i, true));
        lemma_count_false_set(s.drop_last(), i);
    }
}

} // verus!
