//! Moons pulling on each other along three axes: each step every pair of
//! moons moves their velocities one unit towards each other on each axis,
//! then every moon moves by its velocity.  The axes are independent, so the
//! bodies are kept one axis at a time, and the time for the whole system to
//! come back to its start is the least common multiple of the times of the
//! axes.

use vstd::prelude::*;
use crate::y19_shuffle::lemma_gcd_divides;
use crate::text::{caps_view, group_int, group_int_spec, regex_captures, regex_captures_spec};

verus! {

/// Errors met while reading moons.
#[derive(Debug)]
pub enum Error {
    /// A line that does not describe a moon.
    InvalidBodyDescription(String),
}

/// A moon's place: `<x=.., y=.., z=..>`, each maybe signed.
pub const BODY_PATTERN: &'static str = r"<x=([+-]?\d+), y=([+-]?\d+), z=([+-]?\d+)>";

/// The moon at rest that the groups of a match of `BODY_PATTERN` write, where
/// each coordinate fits in `i32`.
pub open spec fn body_of_caps(caps: Seq<Option<Seq<char>>>) -> Option<Body> {
    let lo = i32::MIN as int;
    let hi = i32::MAX as int;
    match (group_int_spec(caps, 1, lo, hi), group_int_spec(caps, 2, lo, hi), group_int_spec(caps, 3, lo, hi)) {
        (Some(x), Some(y), Some(z)) => Some(
            Body { pos: Vec3 { x: x as i32, y: y as i32, z: z as i32 }, vel: Vec3 { x: 0, y: 0, z: 0 } },
        ),
        _ => None,
    }
}

/// What reading `text` as a moon gives, from what the pattern captured.
pub open spec fn body_read(caps: Option<Seq<Option<Seq<char>>>>, text: Seq<char>, res: Result<Body, Error>) -> bool {
    match caps {
        Some(c) => match body_of_caps(c) {
            Some(b) => res == Ok::<Body, Error>(b),
            None => res matches Err(Error::InvalidBodyDescription(t)) && t@ == text,
        },
        None => res matches Err(Error::InvalidBodyDescription(t)) && t@ == text,
    }
}

/// A vector of three integers: x, y, z.
#[derive(Debug, Clone, Copy, PartialEq, Eq, Structural)]
pub struct Vec3 {
    pub x: i32,
    pub y: i32,
    pub z: i32,
}

/// The sum of the absolute values of three integers.
pub open spec fn abs3(x: int, y: int, z: int) -> int {
    abs(x) + abs(y) + abs(z)
}

pub open spec fn abs(x: int) -> int {
    if x < 0 { -x } else { x }
}

/// `-1`, `0` or `1` as `x` is negative, zero or positive.
pub open spec fn sgn(x: int) -> int {
    if x < 0 {
        -1
    } else if x > 0 {
        1
    } else {
        0
    }
}

impl Vec3 {
    pub fn new(x: i32, y: i32, z: i32) -> (res: Self)
        ensures
            res == (Vec3 { x, y, z }),
    {
        Vec3 { x, y, z }
    }

    pub fn zeros() -> (res: Self)
        ensures
            res == (Vec3 { x: 0, y: 0, z: 0 }),
    {
        Vec3 { x: 0, y: 0, z: 0 }
    }

    /// The coordinate `index`: 0 for x, 1 for y, 2 for z.
    pub fn get(&self, index: usize) -> (res: i32)
        requires
            index < 3,
        ensures
            res == (if index == 0 {
                self.x
            } else if index == 1 {
                self.y
            } else {
                self.z
            }),
    {
        if index == 0 {
            self.x
        } else if index == 1 {
            self.y
        } else {
            self.z
        }
    }

    /// The sum of the absolute values of the coordinates.
    pub fn abs_sum(&self) -> (res: u32)
        requires
            abs3(self.x as int, self.y as int, self.z as int) <= u32::MAX,
        ensures
            res == abs3(self.x as int, self.y as int, self.z as int),
    {
        abs_u32(self.x) + abs_u32(self.y) + abs_u32(self.z)
    }
}

/// The absolute value of `x`.
fn abs_u32(x: i32) -> (res: u32)
    ensures
        res == abs(x as int),
{
    if x < 0 {
        if x == i32::MIN {
            2147483648u32
        } else {
            (-x) as u32
        }
    } else {
        x as u32
    }
}

/// A moon: where it is and how fast it moves.
#[derive(Debug, Clone, Copy, PartialEq, Eq, Structural)]
pub struct Body {
    pub pos: Vec3,
    pub vel: Vec3,
}

impl Body {
    /// Reads a moon at rest from `<x=.., y=.., z=..>` found in `s`; a
    /// coordinate beyond `i32` makes the line no moon.
    pub fn from_str(s: &str) -> (res: Result<Body, Error>)
        ensures
            body_read(regex_captures_spec(BODY_PATTERN@, s@), s@, res),
    {
        match regex_captures(BODY_PATTERN, s) {
            Some(caps) => Self::from_captures(&caps, s),
            None => Err(Error::InvalidBodyDescription(s.to_string())),
        }
    }

    /// The moon that the groups `caps` of a match in `s` write.
    pub fn from_captures(caps: &Vec<Option<String>>, s: &str) -> (res: Result<Body, Error>)
        ensures
            body_read(Some(caps_view(caps@)), s@, res),
    {
        let lo = i32::MIN as i128;
        let hi = i32::MAX as i128;
        match (group_int(caps, 1, lo, hi), group_int(caps, 2, lo, hi), group_int(caps, 3, lo, hi)) {
            (Some(x), Some(y), Some(z)) => Ok(Body::with_pos(x as i32, y as i32, z as i32)),
            _ => Err(Error::InvalidBodyDescription(s.to_string())),
        }
    }

    /// A moon at rest at the given place.
    pub fn with_pos(pos_x: i32, pos_y: i32, pos_z: i32) -> (res: Self)
        ensures
            res == (Body { pos: Vec3 { x: pos_x, y: pos_y, z: pos_z }, vel: Vec3 { x: 0, y: 0, z: 0 } }),
    {
        Body { pos: Vec3::new(pos_x, pos_y, pos_z), vel: Vec3::zeros() }
    }

    /// The energy of the place: the sum of the absolute coordinates.
    pub fn potential_energy(&self) -> (res: u32)
        requires
            abs3(self.pos.x as int, self.pos.y as int, self.pos.z as int) <= u32::MAX,
        ensures
            res == abs3(self.pos.x as int, self.pos.y as int, self.pos.z as int),
    {
        self.pos.abs_sum()
    }

    /// The energy of the motion: the sum of the absolute velocities.
    pub fn kinetic_energy(&self) -> (res: u32)
        requires
            abs3(self.vel.x as int, self.vel.y as int, self.vel.z as int) <= u32::MAX,
        ensures
            res == abs3(self.vel.x as int, self.vel.y as int, self.vel.z as int),
    {
        self.vel.abs_sum()
    }

    /// The product of the two energies.
    pub fn total_energy(&self) -> (res: u32)
        requires
            body_energy(*self) <= u32::MAX,
            abs3(self.pos.x as int, self.pos.y as int, self.pos.z as int) <= u32::MAX,
            abs3(self.vel.x as int, self.vel.y as int, self.vel.z as int) <= u32::MAX,
        ensures
            res == body_energy(*self),
    {
        let p = self.potential_energy();
        let k = self.kinetic_energy();
        p * k
    }
}

/// The total energy of a moon.
pub open spec fn body_energy(b: Body) -> int {
    abs3(b.pos.x as int, b.pos.y as int, b.pos.z as int) * abs3(b.vel.x as int, b.vel.y as int, b.vel.z as int)
}

/// The moons along one axis: their places and their velocities.
#[derive(Debug)]
pub struct Bodies1D {
    pub pos_v: Vec<i32>,
    pub vel_v: Vec<i32>,
}

/// The pull on moon `k` from the moons before `m` (other than itself).
pub open spec fn pull(ps: Seq<i32>, k: int, m: int) -> int
    decreases m,
{
    if m <= 0 {
        0
    } else {
        pull(ps, k, m - 1) + (if m - 1 == k {
            0
        } else {
            sgn(ps[m - 1] - ps[k])
        })
    }
}

/// The velocity of moon `k` after one step.
pub open spec fn next_vel(ps: Seq<i32>, vs: Seq<i32>, k: int) -> int {
    vs[k] + pull(ps, k, ps.len() as int)
}

/// The place of moon `k` after one step.
pub open spec fn next_pos(ps: Seq<i32>, vs: Seq<i32>, k: int) -> int {
    ps[k] + next_vel(ps, vs, k)
}

/// Whether a step keeps every velocity, on the way, and every place within
/// `i32`.
pub open spec fn step_fits(ps: Seq<i32>, vs: Seq<i32>) -> bool {
    &&& ps.len() == vs.len()
    &&& forall|k: int, m: int|
        0 <= k < ps.len() && 0 <= m <= ps.len() ==> i32::MIN <= vs[k] + #[trigger] pull(ps, k, m) <= i32::MAX
    &&& forall|k: int| 0 <= k < ps.len() ==> i32::MIN <= #[trigger] next_pos(ps, vs, k) <= i32::MAX
}

/// Whether `(ps2, vs2)` is one step on from `(ps, vs)`.
pub open spec fn stepped(ps: Seq<i32>, vs: Seq<i32>, ps2: Seq<i32>, vs2: Seq<i32>) -> bool {
    &&& ps2.len() == ps.len()
    &&& vs2.len() == ps.len()
    &&& forall|k: int| 0 <= k < ps.len() ==> #[trigger] vs2[k] == next_vel(ps, vs, k)
    &&& forall|k: int| 0 <= k < ps.len() ==> #[trigger] ps2[k] == next_pos(ps, vs, k)
}

/// The places and velocities after `n` steps, while the steps fit.
pub open spec fn steps_1d(ps: Seq<i32>, vs: Seq<i32>, n: nat) -> Option<(Seq<i32>, Seq<i32>)>
    decreases n,
{
    if n == 0 {
        Some((ps, vs))
    } else {
        match steps_1d(ps, vs, (n - 1) as nat) {
            Some((p, v)) => if step_fits(p, v) {
                Some(
                    (
                        Seq::new(p.len(), |k: int| next_pos(p, v, k) as i32),
                        Seq::new(p.len(), |k: int| next_vel(p, v, k) as i32),
                    ),
                )
            } else {
                None
            },
            None => None,
        }
    }
}

/// `-1`, `0` or `1` as `a - b` is negative, zero or positive.
fn sign_diff(a: i32, b: i32) -> (res: i32)
    ensures
        res == sgn(a - b),
{
    if a < b {
        -1
    } else if a > b {
        1
    } else {
        0
    }
}

/// Whether a step fits in `i32`; it is taken in wider integers.
fn step_1_d_fits(pos_v: &Vec<i32>, vel_v: &Vec<i32>) -> (res: bool)
    requires
        pos_v.len() == vel_v.len(),
    ensures
        res == step_fits(pos_v@, vel_v@),
{
    let n = pos_v.len();
    let ghost ps = pos_v@;
    let ghost vs = vel_v@;
    let mut k: usize = 0;
    while k < n
        invariant
            n == ps.len(),
            ps == pos_v@,
            vs == vel_v@,
            n == vs.len(),
            k <= n,
            forall|kk: int, m: int|
                0 <= kk < k && 0 <= m <= n ==> i32::MIN <= vs[kk] + #[trigger] pull(ps, kk, m) <= i32::MAX,
            forall|kk: int| 0 <= kk < k ==> i32::MIN <= #[trigger] next_pos(ps, vs, kk) <= i32::MAX,
        decreases n - k,
    {
        let mut acc: i64 = vel_v[k] as i64;
        let mut m: usize = 0;
        while m < n
            invariant
                n == ps.len(),
                ps == pos_v@,
                vs == vel_v@,
                n == vs.len(),
                k < n,
                m <= n,
                acc == vs[k as int] + pull(ps, k as int, m as int),
                forall|mm: int| 0 <= mm < m ==> i32::MIN <= vs[k as int] + #[trigger] pull(ps, k as int, mm) <= i32::MAX,
            decreases n - m,
        {
            if acc < i32::MIN as i64 || acc > i32::MAX as i64 {
                return false;
            }
            if m != k {
                acc = acc + sign_diff(pos_v[m], pos_v[k]) as i64;
            }
            m = m + 1;
        }
        if acc < i32::MIN as i64 || acc > i32::MAX as i64 {
            return false;
        }
        let p = pos_v[k] as i64 + acc;
        assert(p == next_pos(ps, vs, k as int));
        if p < i32::MIN as i64 || p > i32::MAX as i64 {
            return false;
        }
        k = k + 1;
    }
    true
}

impl Bodies1D {
    /// Whether the places and velocities are as many.
    pub open spec fn wf(&self) -> bool {
        self.pos_v.len() == self.vel_v.len()
    }

    /// A copy of these moons.
    pub fn copy(&self) -> (res: Self)
        ensures
            res.pos_v@ == self.pos_v@,
            res.vel_v@ == self.vel_v@,
    {
        Bodies1D { pos_v: copy_i32s(&self.pos_v), vel_v: copy_i32s(&self.vel_v) }
    }

    /// Whether these moons are where and as fast as `other`.
    pub fn same_as(&self, other: &Bodies1D) -> (res: bool)
        ensures
            res == (self.pos_v@ == other.pos_v@ && self.vel_v@ == other.vel_v@),
    {
        same_i32s(&self.pos_v, &other.pos_v) && same_i32s(&self.vel_v, &other.vel_v)
    }
}

fn copy_i32s(v: &Vec<i32>) -> (res: Vec<i32>)
    ensures
        res@ == v@,
{
    let mut res: Vec<i32> = Vec::new();
    let mut i: usize = 0;
    while i < v.len()
        invariant
            i <= v.len(),
            res@ == v@.take(i as int),
        decreases v.len() - i,
    {
        res.push(v[i]);
        i = i + 1;
        proof {
            assert(res@ =~= v@.take(i as int));
        }
    }
    proof {
        assert(v@.take(v.len() as int) =~= v@);
    }
    res
}

fn same_i32s(a: &Vec<i32>, b: &Vec<i32>) -> (res: bool)
    ensures
        res == (a@ == b@),
{
    if a.len() != b.len() {
        return false;
    }
    let mut i: usize = 0;
    while i < a.len()
        invariant
            i <= a.len(),
            a.len() == b.len(),
            forall|j: int| 0 <= j < i ==> a@[j] == b@[j],
        decreases a.len() - i,
    {
        if a[i] != b[i] {
            return false;
        }
        i = i + 1;
    }
    proof {
        assert(a@ =~= b@);
    }
    true
}

/// The sum of the values.
pub open spec fn sum_i32(s: Seq<i32>) -> int
    decreases s.len(),
{
    if s.len() == 0 {
        0
    } else {
        sum_i32(s.drop_last()) + s.last()
    }
}

/// Whether every running sum of the values, from the first on, fits in
/// `i32`.
pub open spec fn sums_fit(s: Seq<i32>) -> bool {
    forall|k: int| 0 <= k <= s.len() ==> i32::MIN <= #[trigger] sum_i32(s.take(k)) <= i32::MAX
}

/// Integer division that drops the fraction, towards zero.
pub open spec fn trunc_div(a: int, b: int) -> int {
    if a >= 0 {
        a / b
    } else {
        -((-a) / b)
    }
}

/// The sum of the values, added from the first on.
fn sum_values(v: &Vec<i32>) -> (res: i32)
    requires
        sums_fit(v@),
    ensures
        res == sum_i32(v@),
{
    let mut sum: i32 = 0;
    let mut i: usize = 0;
    while i < v.len()
        invariant
            i <= v.len(),
            sums_fit(v@),
            sum == sum_i32(v@.take(i as int)),
        decreases v.len() - i,
    {
        proof {
            assert(v@.take(i + 1).drop_last() =~= v@.take(i as int));
            assert(i32::MIN <= sum_i32(v@.take(i + 1)) <= i32::MAX);
        }
        sum = sum + v[i];
        i = i + 1;
    }
    proof {
        assert(v@.take(i as int) =~= v@);
    }
    sum
}

/// `a / b` with the fraction dropped, for a positive `b`.
fn trunc_div_i32(a: i32, b: i32) -> (res: i32)
    requires
        b > 0,
    ensures
        res == trunc_div(a as int, b as int),
{
    if a >= 0 {
        ((a as u32) / (b as u32)) as i32
    } else {
        let q = ((-(a as i64)) as u64 / (b as u64)) as i64;
        proof {
            assert(q <= 0x8000_0000);
        }
        (-q) as i32
    }
}

/// The pulls on the moons `0..m`, each counted from the moons before `b`.
pub open spec fn pulls_upto(ps: Seq<i32>, m: int, b: int) -> int
    decreases m,
{
    if m <= 0 {
        0
    } else {
        pulls_upto(ps, m - 1, b) + pull(ps, m - 1, b)
    }
}

/// The pulls that moon `n` feels from the moons `0..m`, counted the other
/// way round: what moon `n` gives each of them.
pub open spec fn given_upto(ps: Seq<i32>, n: int, m: int) -> int
    decreases m,
{
    if m <= 0 {
        0
    } else {
        given_upto(ps, n, m - 1) + sgn(ps[n] - ps[m - 1])
    }
}

proof fn lemma_given_is_minus_pull(ps: Seq<i32>, n: int, m: int)
    requires
        0 <= m <= n < ps.len(),
    ensures
        given_upto(ps, n, m) == -pull(ps, n, m),
    decreases m,
{
    if m > 0 {
        lemma_given_is_minus_pull(ps, n, m - 1);
    }
}

proof fn lemma_pulls_grow(ps: Seq<i32>, m: int, n: int)
    requires
        0 <= m <= n < ps.len(),
    ensures
        pulls_upto(ps, m, n + 1) == pulls_upto(ps, m, n) + given_upto(ps, n, m),
    decreases m,
{
    if m > 0 {
        lemma_pulls_grow(ps, m - 1, n);
    }
}

/// The pulls of all the moons on each other add up to nothing: each pair
/// pulls the two ways alike.
proof fn lemma_pulls_cancel(ps: Seq<i32>, n: int)
    requires
        0 <= n <= ps.len(),
    ensures
        pulls_upto(ps, n, n) == 0,
    decreases n,
{
    if n > 0 {
        let k = n - 1;
        lemma_pulls_cancel(ps, k);
        lemma_pulls_grow(ps, k, k);
        lemma_given_is_minus_pull(ps, k, k);
        assert(pull(ps, k, k + 1) == pull(ps, k, k));
    }
}

proof fn lemma_vel_sums(ps: Seq<i32>, vs: Seq<i32>, vs2: Seq<i32>, m: int)
    requires
        ps.len() == vs.len() == vs2.len(),
        0 <= m <= ps.len(),
        forall|k: int| 0 <= k < ps.len() ==> #[trigger] vs2[k] == next_vel(ps, vs, k),
    ensures
        sum_i32(vs2.take(m)) == sum_i32(vs.take(m)) + pulls_upto(ps, m, ps.len() as int),
    decreases m,
{
    if m > 0 {
        lemma_vel_sums(ps, vs, vs2, m - 1);
        assert(vs2.take(m).drop_last() =~= vs2.take(m - 1));
        assert(vs.take(m).drop_last() =~= vs.take(m - 1));
        assert(vs2[m - 1] == next_vel(ps, vs, m - 1));
    }
}

/// One step keeps the sum of the velocities on an axis: the pulls between
/// two moons are equal and opposite.
pub proof fn lemma_step_keeps_vel_sum(ps: Seq<i32>, vs: Seq<i32>, ps2: Seq<i32>, vs2: Seq<i32>)
    requires
        ps.len() == vs.len(),
        stepped(ps, vs, ps2, vs2),
    ensures
        sum_i32(vs2) == sum_i32(vs),
{
    lemma_vel_sums(ps, vs, vs2, ps.len() as int);
    lemma_pulls_cancel(ps, ps.len() as int);
    assert(vs2.take(ps.len() as int) =~= vs2);
    assert(vs.take(ps.len() as int) =~= vs);
}

/// Moons in three dimensions, kept one axis at a time.
#[derive(Debug)]
pub struct NBodySimulator {
    x: Bodies1D,
    y: Bodies1D,
    z: Bodies1D,
}

impl NBodySimulator {
    pub closed spec fn dim(&self, d: int) -> Bodies1D {
        if d == 0 {
            self.x
        } else if d == 1 {
            self.y
        } else {
            self.z
        }
    }

    /// The number of moons.
    pub closed spec fn count(&self) -> nat {
        self.x.pos_v@.len()
    }

    /// The moon `k`.
    pub closed spec fn body_spec(&self, k: int) -> Body {
        Body {
            pos: Vec3 { x: self.x.pos_v@[k], y: self.y.pos_v@[k], z: self.z.pos_v@[k] },
            vel: Vec3 { x: self.x.vel_v@[k], y: self.y.vel_v@[k], z: self.z.vel_v@[k] },
        }
    }

    /// The places of the moons along axis `d`.
    pub open spec fn axis_pos(&self, d: int) -> Seq<i32> {
        Seq::new(self.count(), |k: int| if d == 0 {
            self.body_spec(k).pos.x
        } else if d == 1 {
            self.body_spec(k).pos.y
        } else {
            self.body_spec(k).pos.z
        })
    }

    /// The velocities of the moons along axis `d`.
    pub open spec fn axis_vel(&self, d: int) -> Seq<i32> {
        Seq::new(self.count(), |k: int| if d == 0 {
            self.body_spec(k).vel.x
        } else if d == 1 {
            self.body_spec(k).vel.y
        } else {
            self.body_spec(k).vel.z
        })
    }

    /// The mean place of the moons, each coordinate with its fraction
    /// dropped.
    pub fn center_pos(&self) -> (res: Vec3)
        requires
            self.wf(),
            0 < self.count() <= i32::MAX,
            sums_fit(self.axis_pos(0)),
            sums_fit(self.axis_pos(1)),
            sums_fit(self.axis_pos(2)),
        ensures
            res.x == trunc_div(sum_i32(self.axis_pos(0)), self.count() as int),
            res.y == trunc_div(sum_i32(self.axis_pos(1)), self.count() as int),
            res.z == trunc_div(sum_i32(self.axis_pos(2)), self.count() as int),
    {
        proof {
            assert(self.x.pos_v@ =~= self.axis_pos(0));
            assert(self.y.pos_v@ =~= self.axis_pos(1));
            assert(self.z.pos_v@ =~= self.axis_pos(2));
        }
        let count = self.body_count() as i32;
        Vec3::new(
            trunc_div_i32(sum_values(&self.x.pos_v), count),
            trunc_div_i32(sum_values(&self.y.pos_v), count),
            trunc_div_i32(sum_values(&self.z.pos_v), count),
        )
    }

    /// The velocities of the moons added up.
    pub fn vel_sum(&self) -> (res: Vec3)
        requires
            self.wf(),
            sums_fit(self.axis_vel(0)),
            sums_fit(self.axis_vel(1)),
            sums_fit(self.axis_vel(2)),
        ensures
            res.x == sum_i32(self.axis_vel(0)),
            res.y == sum_i32(self.axis_vel(1)),
            res.z == sum_i32(self.axis_vel(2)),
    {
        proof {
            assert(self.x.vel_v@ =~= self.axis_vel(0));
            assert(self.y.vel_v@ =~= self.axis_vel(1));
            assert(self.z.vel_v@ =~= self.axis_vel(2));
        }
        Vec3::new(sum_values(&self.x.vel_v), sum_values(&self.y.vel_v), sum_values(&self.z.vel_v))
    }

    pub closed spec fn wf(&self) -> bool {
        &&& self.x.pos_v.len() == self.count() && self.x.vel_v.len() == self.count()
        &&& self.y.pos_v.len() == self.count() && self.y.vel_v.len() == self.count()
        &&& self.z.pos_v.len() == self.count() && self.z.vel_v.len() == self.count()
    }

    /// A simulator of the given moons.
    pub fn new(bodies: Vec<Body>) -> (res: Self)
        ensures
            res.wf(),
            res.count() == bodies.len(),
            forall|k: int| 0 <= k < bodies.len() ==> #[trigger] res.body_spec(k) == bodies@[k],
    {
        let n = bodies.len();
        let mut x = Bodies1D { pos_v: Vec::new(), vel_v: Vec::new() };
        let mut y = Bodies1D { pos_v: Vec::new(), vel_v: Vec::new() };
        let mut z = Bodies1D { pos_v: Vec::new(), vel_v: Vec::new() };
        let mut i: usize = 0;
        while i < n
            invariant
                n == bodies.len(),
                i <= n,
                x.pos_v.len() == i && x.vel_v.len() == i,
                y.pos_v.len() == i && y.vel_v.len() == i,
                z.pos_v.len() == i && z.vel_v.len() == i,
                forall|k: int| 0 <= k < i ==> x.pos_v@[k] == bodies@[k].pos.x && x.vel_v@[k] == bodies@[k].vel.x
                    && y.pos_v@[k] == bodies@[k].pos.y && y.vel_v@[k] == bodies@[k].vel.y
                    && z.pos_v@[k] == bodies@[k].pos.z && z.vel_v@[k] == bodies@[k].vel.z,
            decreases n - i,
        {
            let b = bodies[i];
            x.pos_v.push(b.pos.x);
            x.vel_v.push(b.vel.x);
            y.pos_v.push(b.pos.y);
            y.vel_v.push(b.vel.y);
            z.pos_v.push(b.pos.z);
            z.vel_v.push(b.vel.z);
            i = i + 1;
        }
        NBodySimulator { x, y, z }
    }

    pub fn body_count(&self) -> (res: usize)
        requires
            self.wf(),
        ensures
            res == self.count(),
    {
        self.x.pos_v.len()
    }

    /// The moon `n`.
    pub fn nth_body(&self, n: usize) -> (res: Body)
        requires
            self.wf(),
            n < self.count(),
        ensures
            res == self.body_spec(n as int),
    {
        Body {
            pos: Vec3::new(self.x.pos_v[n], self.y.pos_v[n], self.z.pos_v[n]),
            vel: Vec3::new(self.x.vel_v[n], self.y.vel_v[n], self.z.vel_v[n]),
        }
    }

    /// The places and velocities along each axis are those of the moons.
    pub proof fn lemma_axes(&self)
        requires
            self.wf(),
        ensures
            forall|d: int| 0 <= d < 3 ==> (#[trigger] self.dim(d)).pos_v@ == self.axis_pos(d) && self.dim(d).vel_v@
                == self.axis_vel(d),
    {
        assert(self.x.pos_v@ =~= self.axis_pos(0) && self.x.vel_v@ =~= self.axis_vel(0));
        assert(self.y.pos_v@ =~= self.axis_pos(1) && self.y.vel_v@ =~= self.axis_vel(1));
        assert(self.z.pos_v@ =~= self.axis_pos(2) && self.z.vel_v@ =~= self.axis_vel(2));
    }

    /// Whether a step of every axis stays within `i32`.
    pub fn can_step(&self) -> (res: bool)
        requires
            self.wf(),
        ensures
            res == (step_fits(self.axis_pos(0), self.axis_vel(0)) && step_fits(self.axis_pos(1), self.axis_vel(1))
                && step_fits(self.axis_pos(2), self.axis_vel(2))),
    {
        proof {
            self.lemma_axes();
            assert(self.dim(0) == self.x && self.dim(1) == self.y && self.dim(2) == self.z);
        }
        step_1_d_fits(&self.x.pos_v, &self.x.vel_v) && step_1_d_fits(&self.y.pos_v, &self.y.vel_v)
            && step_1_d_fits(&self.z.pos_v, &self.z.vel_v)
    }

    /// One step of every axis.
    pub fn step(&mut self)
        requires
            old(self).wf(),
            step_fits(old(self).axis_pos(0), old(self).axis_vel(0)),
            step_fits(old(self).axis_pos(1), old(self).axis_vel(1)),
            step_fits(old(self).axis_pos(2), old(self).axis_vel(2)),
        ensures
            final(self).wf(),
            final(self).count() == old(self).count(),
            forall|d: int|
                0 <= d < 3 ==> stepped(
                    old(self).axis_pos(d),
                    old(self).axis_vel(d),
                    #[trigger] final(self).axis_pos(d),
                    final(self).axis_vel(d),
                ),
            sum_i32(final(self).axis_vel(0)) == sum_i32(old(self).axis_vel(0)),
            sum_i32(final(self).axis_vel(1)) == sum_i32(old(self).axis_vel(1)),
            sum_i32(final(self).axis_vel(2)) == sum_i32(old(self).axis_vel(2)),
    {
        proof {
            old(self).lemma_axes();
            assert(old(self).dim(0) == old(self).x && old(self).dim(1) == old(self).y && old(self).dim(2) == old(self).z);
            assert(old(self).x.vel_v@ =~= old(self).axis_vel(0));
            assert(old(self).y.vel_v@ =~= old(self).axis_vel(1));
            assert(old(self).z.vel_v@ =~= old(self).axis_vel(2));
        }
        Self::step_1_d(&mut self.x);
        Self::step_1_d(&mut self.y);
        Self::step_1_d(&mut self.z);
        proof {
            assert(self.dim(0) == self.x && self.dim(1) == self.y && self.dim(2) == self.z);
            self.lemma_axes();
            lemma_step_keeps_vel_sum(old(self).x.pos_v@, old(self).x.vel_v@, self.x.pos_v@, self.x.vel_v@);
            lemma_step_keeps_vel_sum(old(self).y.pos_v@, old(self).y.vel_v@, self.y.pos_v@, self.y.vel_v@);
            lemma_step_keeps_vel_sum(old(self).z.pos_v@, old(self).z.vel_v@, self.z.pos_v@, self.z.vel_v@);
            assert(self.x.vel_v@ =~= self.axis_vel(0));
            assert(self.y.vel_v@ =~= self.axis_vel(1));
            assert(self.z.vel_v@ =~= self.axis_vel(2));
        }
    }

    /// One step along one axis: every pair of moons pulls their velocities a
    /// unit towards each other, then every moon moves by its velocity.
    pub fn step_1_d(bodies: &mut Bodies1D)
        requires
            step_fits(old(bodies).pos_v@, old(bodies).vel_v@),
        ensures
            stepped(old(bodies).pos_v@, old(bodies).vel_v@, final(bodies).pos_v@, final(bodies).vel_v@),
    {
        let ghost ps = bodies.pos_v@;
        let ghost vs = bodies.vel_v@;
        let count = bodies.pos_v.len();
        let mut i: usize = 0;
        while i < count
            invariant
                count == ps.len(),
                step_fits(ps, vs),
                bodies.pos_v@.len() == count,
                bodies.vel_v@.len() == count,
                i <= count,
                forall|k: int| 0 <= k < i ==> #[trigger] bodies.pos_v@[k] == next_pos(ps, vs, k),
                forall|k: int| i <= k < count ==> #[trigger] bodies.pos_v@[k] == ps[k],
                forall|k: int| 0 <= k < i ==> #[trigger] bodies.vel_v@[k] == next_vel(ps, vs, k),
                forall|k: int| i <= k < count ==> #[trigger] bodies.vel_v@[k] == vs[k] + pull(ps, k, i as int),
            decreases count - i,
        {
            let mut j: usize = i + 1;
            proof {
                assert(pull(ps, i as int, i + 1) == pull(ps, i as int, i as int));
            }
            while j < count
                invariant
                    count == ps.len(),
                    step_fits(ps, vs),
                    bodies.pos_v@.len() == count,
                    bodies.vel_v@.len() == count,
                    i < count,
                    i + 1 <= j <= count,
                    forall|k: int| 0 <= k < i ==> #[trigger] bodies.pos_v@[k] == next_pos(ps, vs, k),
                    forall|k: int| i <= k < count ==> #[trigger] bodies.pos_v@[k] == ps[k],
                    forall|k: int| 0 <= k < i ==> #[trigger] bodies.vel_v@[k] == next_vel(ps, vs, k),
                    bodies.vel_v@[i as int] == vs[i as int] + pull(ps, i as int, j as int),
                    forall|k: int| i < k < j ==> #[trigger] bodies.vel_v@[k] == vs[k] + pull(ps, k, i + 1),
                    forall|k: int| j <= k < count ==> #[trigger] bodies.vel_v@[k] == vs[k] + pull(ps, k, i as int),
                decreases count - j,
            {
                let del_v = sign_diff(bodies.pos_v[j], bodies.pos_v[i]);
                proof {
                    assert(pull(ps, i as int, j + 1) == pull(ps, i as int, j as int) + sgn(ps[j as int] - ps[i as int]));
                    assert(pull(ps, j as int, i + 1) == pull(ps, j as int, i as int) + sgn(ps[i as int] - ps[j as int]));
                    assert(i32::MIN <= vs[i as int] + pull(ps, i as int, j + 1) <= i32::MAX);
                    assert(i32::MIN <= vs[j as int] + pull(ps, j as int, i + 1) <= i32::MAX);
                }
                let vi = bodies.vel_v[i];
                bodies.vel_v.set(i, vi + del_v);
                let vj = bodies.vel_v[j];
                bodies.vel_v.set(j, vj - del_v);
                j = j + 1;
            }
            proof {
                assert(i32::MIN <= next_pos(ps, vs, i as int) <= i32::MAX);
            }
            let p = bodies.pos_v[i];
            let v = bodies.vel_v[i];
            bodies.pos_v.set(i, p + v);
            i = i + 1;
        }
    }

    /// The number of steps after which the moons along one axis are back
    /// where they started, moving as they started; `None` where a step would
    /// leave `i32` first, or no such number fits in `usize`.
    pub fn cycle_len_1_d(target_bodies: &Bodies1D) -> (res: Option<usize>)
        requires
            target_bodies.wf(),
        ensures
            match res {
                Some(c) => c >= 1 && steps_1d(target_bodies.pos_v@, target_bodies.vel_v@, c as nat) == Some(
                    (target_bodies.pos_v@, target_bodies.vel_v@),
                ) && forall|c2: nat| 1 <= c2 < c ==> #[trigger] steps_1d(
                    target_bodies.pos_v@,
                    target_bodies.vel_v@,
                    c2,
                ) != Some((target_bodies.pos_v@, target_bodies.vel_v@)),
                None => no_cycle(*target_bodies),
            },
    {
        let ghost ps = target_bodies.pos_v@;
        let ghost vs = target_bodies.vel_v@;
        let mut bodies = target_bodies.copy();
        let mut cycle_len: usize = 0;
        while cycle_len < usize::MAX
            invariant
                bodies.pos_v@.len() == ps.len(),
                bodies.vel_v@.len() == ps.len(),
                ps == target_bodies.pos_v@,
                vs == target_bodies.vel_v@,
                ps.len() == vs.len(),
                steps_1d(ps, vs, cycle_len as nat) == Some((bodies.pos_v@, bodies.vel_v@)),
                forall|c2: nat| 1 <= c2 <= cycle_len ==> #[trigger] steps_1d(ps, vs, c2) != Some((ps, vs)),
            decreases usize::MAX - cycle_len,
        {
            if !step_1_d_fits(&bodies.pos_v, &bodies.vel_v) {
                proof {
                    assert(steps_1d(ps, vs, (cycle_len + 1) as nat) is None);
                    assert forall|c2: nat| 1 <= c2 <= usize::MAX implies #[trigger] steps_1d(ps, vs, c2) != Some((ps, vs)) by {
                        if c2 > cycle_len {
                            lemma_steps_none_stays(ps, vs, (cycle_len + 1) as nat, c2);
                        }
                    }
                }
                return None;
            }
            let ghost p0 = bodies.pos_v@;
            let ghost v0 = bodies.vel_v@;
            Self::step_1_d(&mut bodies);
            cycle_len = cycle_len + 1;
            proof {
                assert(bodies.pos_v@ =~= Seq::new(p0.len(), |k: int| next_pos(p0, v0, k) as i32));
                assert(bodies.vel_v@ =~= Seq::new(p0.len(), |k: int| next_vel(p0, v0, k) as i32));
            }
            if bodies.same_as(target_bodies) {
                return Some(cycle_len);
            }
        }
        None
    }

    /// The number of steps after which all the moons are back where they
    /// started, moving as they started: the least common multiple of the
    /// numbers of the three axes.  `None` where an axis has no such number
    /// (see `cycle_len_1_d`) or the multiple does not fit in `usize`.
    pub fn cycle_len(&self) -> (res: Option<usize>)
        requires
            self.wf(),
        ensures
            match res {
                Some(c) => exists|cx: usize, cy: usize, cz: usize|
                    cycle_of(self.dim(0), cx) && cycle_of(self.dim(1), cy) && cycle_of(self.dim(2), cz)
                        && c == lcm_spec(cx as nat, lcm_spec(cy as nat, cz as nat)),
                None => {
                    ||| no_cycle(self.dim(0))
                    ||| no_cycle(self.dim(1))
                    ||| no_cycle(self.dim(2))
                    ||| exists|cx: usize, cy: usize, cz: usize|
                        #![trigger cycle_of(self.dim(0), cx), cycle_of(self.dim(1), cy), cycle_of(self.dim(2), cz)]
                        cycle_of(self.dim(0), cx) && cycle_of(self.dim(1), cy) && cycle_of(self.dim(2), cz)
                            && (lcm_spec(cy as nat, cz as nat) > usize::MAX
                                || lcm_spec(cx as nat, lcm_spec(cy as nat, cz as nat)) > usize::MAX)
                },
            },
    {
        proof {
            assert(self.dim(0) == self.x && self.dim(1) == self.y && self.dim(2) == self.z);
        }
        let cx = match Self::cycle_len_1_d(&self.x) {
            Some(c) => c,
            None => return None,
        };
        let cy = match Self::cycle_len_1_d(&self.y) {
            Some(c) => c,
            None => return None,
        };
        let cz = match Self::cycle_len_1_d(&self.z) {
            Some(c) => c,
            None => return None,
        };
        proof {
            assert(cycle_of(self.dim(0), cx) && cycle_of(self.dim(1), cy) && cycle_of(self.dim(2), cz));
        }
        let yz = match checked_lcm(cy, cz) {
            Some(v) => v,
            None => {
                proof {
                    assert(cycle_of(self.dim(0), cx) && cycle_of(self.dim(1), cy) && cycle_of(self.dim(2), cz)
                        && lcm_spec(cy as nat, cz as nat) > usize::MAX);
                }
                return None;
            },
        };
        let res = match checked_lcm(cx, yz) {
            Some(v) => v,
            None => {
                proof {
                    assert(cycle_of(self.dim(0), cx) && cycle_of(self.dim(1), cy) && cycle_of(self.dim(2), cz)
                        && lcm_spec(cx as nat, lcm_spec(cy as nat, cz as nat)) > usize::MAX);
                }
                return None;
            },
        };
        proof {
            assert(self.dim(0) == self.x && self.dim(1) == self.y && self.dim(2) == self.z);
            assert(cycle_of(self.dim(0), cx) && cycle_of(self.dim(1), cy) && cycle_of(self.dim(2), cz));
        }
        Some(res)
    }
}

impl NBodySimulator {
    /// The potential energies of the first `m` moons, added up.
    pub closed spec fn pot_upto(&self, m: int) -> int
        decreases m,
    {
        if m <= 0 {
            0
        } else {
            self.pot_upto(m - 1) + abs3(
                self.body_spec(m - 1).pos.x as int,
                self.body_spec(m - 1).pos.y as int,
                self.body_spec(m - 1).pos.z as int,
            )
        }
    }

    /// The kinetic energies of the first `m` moons, added up.
    pub closed spec fn kin_upto(&self, m: int) -> int
        decreases m,
    {
        if m <= 0 {
            0
        } else {
            self.kin_upto(m - 1) + abs3(
                self.body_spec(m - 1).vel.x as int,
                self.body_spec(m - 1).vel.y as int,
                self.body_spec(m - 1).vel.z as int,
            )
        }
    }

    /// The total energies of the first `m` moons, added up.
    pub closed spec fn energy_upto(&self, m: int) -> int
        decreases m,
    {
        if m <= 0 {
            0
        } else {
            self.energy_upto(m - 1) + body_energy(self.body_spec(m - 1))
        }
    }

    proof fn lemma_upto_grow(&self, a: int, b: int)
        requires
            0 <= a <= b,
        ensures
            self.pot_upto(a) <= self.pot_upto(b),
            self.kin_upto(a) <= self.kin_upto(b),
            self.energy_upto(a) <= self.energy_upto(b),
        decreases b - a,
    {
        if a < b {
            self.lemma_upto_grow(a, b - 1);
            let bd = self.body_spec(b - 1);
            assert(body_energy(bd) >= 0) by (nonlinear_arith)
                requires
                    abs3(bd.pos.x as int, bd.pos.y as int, bd.pos.z as int) >= 0,
                    abs3(bd.vel.x as int, bd.vel.y as int, bd.vel.z as int) >= 0,
                    body_energy(bd) == abs3(bd.pos.x as int, bd.pos.y as int, bd.pos.z as int) * abs3(
                        bd.vel.x as int,
                        bd.vel.y as int,
                        bd.vel.z as int,
                    ),
            ;
        }
    }

    /// The potential energies of all the moons, added up.
    pub fn potential_energy(&self) -> (res: u32)
        requires
            self.wf(),
            self.pot_upto(self.count() as int) <= u32::MAX,
        ensures
            res == self.pot_upto(self.count() as int),
    {
        let n = self.body_count();
        let mut sum: u32 = 0;
        let mut i: usize = 0;
        while i < n
            invariant
                self.wf(),
                n == self.count(),
                i <= n,
                self.pot_upto(n as int) <= u32::MAX,
                sum == self.pot_upto(i as int),
            decreases n - i,
        {
            proof {
                self.lemma_upto_grow(i + 1, n as int);
            }
            let b = self.nth_body(i);
            sum = sum + b.potential_energy();
            i = i + 1;
        }
        sum
    }

    /// The kinetic energies of all the moons, added up.
    pub fn kinetic_energy(&self) -> (res: u32)
        requires
            self.wf(),
            self.kin_upto(self.count() as int) <= u32::MAX,
        ensures
            res == self.kin_upto(self.count() as int),
    {
        let n = self.body_count();
        let mut sum: u32 = 0;
        let mut i: usize = 0;
        while i < n
            invariant
                self.wf(),
                n == self.count(),
                i <= n,
                self.kin_upto(n as int) <= u32::MAX,
                sum == self.kin_upto(i as int),
            decreases n - i,
        {
            proof {
                self.lemma_upto_grow(i + 1, n as int);
            }
            let b = self.nth_body(i);
            sum = sum + b.kinetic_energy();
            i = i + 1;
        }
        sum
    }

    /// The total energies of all the moons, added up.
    pub fn total_energy(&self) -> (res: u32)
        requires
            self.wf(),
            self.energy_upto(self.count() as int) <= u32::MAX,
            forall|k: int| 0 <= k < self.count() ==> abs3(
                #[trigger] self.body_spec(k).pos.x as int,
                self.body_spec(k).pos.y as int,
                self.body_spec(k).pos.z as int,
            ) <= u32::MAX && abs3(
                self.body_spec(k).vel.x as int,
                self.body_spec(k).vel.y as int,
                self.body_spec(k).vel.z as int,
            ) <= u32::MAX,
        ensures
            res == self.energy_upto(self.count() as int),
    {
        let n = self.body_count();
        let mut sum: u32 = 0;
        let mut i: usize = 0;
        while i < n
            invariant
                self.wf(),
                n == self.count(),
                i <= n,
                self.energy_upto(n as int) <= u32::MAX,
                sum == self.energy_upto(i as int),
                forall|k: int| 0 <= k < self.count() ==> abs3(
                    #[trigger] self.body_spec(k).pos.x as int,
                    self.body_spec(k).pos.y as int,
                    self.body_spec(k).pos.z as int,
                ) <= u32::MAX && abs3(
                    self.body_spec(k).vel.x as int,
                    self.body_spec(k).vel.y as int,
                    self.body_spec(k).vel.z as int,
                ) <= u32::MAX,
            decreases n - i,
        {
            proof {
                self.lemma_upto_grow(i + 1, n as int);
            }
            let b = self.nth_body(i);
            proof {
                assert(self.body_spec(i as int) == b);
            }
            sum = sum + b.total_energy();
            i = i + 1;
        }
        sum
    }
}

/// Whether `c` is the first number of steps after which the moons along
/// one axis are as they started.
/// Whether the moons along one axis never come back to where they started,
/// moving as they started, within `usize::MAX` steps.
pub open spec fn no_cycle(b: Bodies1D) -> bool {
    forall|c2: nat| 1 <= c2 <= usize::MAX ==> #[trigger] steps_1d(b.pos_v@, b.vel_v@, c2) != Some((b.pos_v@, b.vel_v@))
}

/// Once a step does not fit, no later number of steps does.
proof fn lemma_steps_none_stays(ps: Seq<i32>, vs: Seq<i32>, k: nat, m: nat)
    requires
        steps_1d(ps, vs, k) is None,
        k <= m,
    ensures
        steps_1d(ps, vs, m) is None,
    decreases m - k,
{
    if k < m {
        lemma_steps_none_stays(ps, vs, k, (m - 1) as nat);
    }
}

pub open spec fn cycle_of(b: Bodies1D, c: usize) -> bool {
    &&& c >= 1
    &&& steps_1d(b.pos_v@, b.vel_v@, c as nat) == Some((b.pos_v@, b.vel_v@))
    &&& forall|c2: nat| 1 <= c2 < c ==> #[trigger] steps_1d(b.pos_v@, b.vel_v@, c2) != Some((b.pos_v@, b.vel_v@))
}

/// The least common multiple of `m` and `n`, as `m / gcd(m, n) * n`.
pub open spec fn lcm_spec(m: nat, n: nat) -> nat {
    let g = crate::y19_shuffle::gcd(m, n);
    if g == 0 {
        0
    } else {
        (m / g) * n
    }
}

/// The greatest common divisor of `m` and `n`, by Euclid's algorithm.
pub fn gcd(m: usize, n: usize) -> (res: usize)
    requires
        m != 0 || n != 0,
    ensures
        res == crate::y19_shuffle::gcd(m as nat, n as nat),
        res > 0,
{
    let mut a = m;
    let mut b = n;
    proof {
        lemma_gcd_divides(a as nat, b as nat);
    }
    while b != 0
        invariant
            crate::y19_shuffle::gcd(a as nat, b as nat) == crate::y19_shuffle::gcd(m as nat, n as nat),
            a != 0 || b != 0,
        decreases b,
    {
        let rem = a % b;
        a = b;
        b = rem;
    }
    proof {
        lemma_gcd_divides(m as nat, n as nat);
    }
    a
}

/// The least common multiple of `m` and `n`.
pub fn lcm(m: usize, n: usize) -> (res: usize)
    requires
        m != 0 || n != 0,
        lcm_spec(m as nat, n as nat) <= usize::MAX,
    ensures
        res == lcm_spec(m as nat, n as nat),
{
    let g = gcd(m, n);
    let q = m / g;
    proof {
        assert(q * n <= usize::MAX);
    }
    q * n
}

/// The least common multiple of `m` and `n`, where it fits; `m` and `n`
/// are not both zero.
fn checked_lcm(m: usize, n: usize) -> (res: Option<usize>)
    requires
        m != 0 || n != 0,
    ensures
        match res {
            Some(v) => v == lcm_spec(m as nat, n as nat),
            None => lcm_spec(m as nat, n as nat) > usize::MAX,
        },
{
    let g = gcd(m, n);
    let q = m / g;
    q.checked_mul(n)
}

} // verus!
