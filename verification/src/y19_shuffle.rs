//! Shuffling a deck of cards with three techniques, each a map from the
//! place of a card before to its place after; a run of them composes to one
//! map `x -> (f * x + c) mod n`, which can be run backwards.

use vstd::prelude::*;
use vstd::arithmetic::div_mod::{
    lemma_fundamental_div_mod,
    lemma_fundamental_div_mod_converse_mod,
    lemma_fundamental_div_mod_converse_div,
};

use crate::text::{caps_view, group_int, group_int_spec, regex_captures, regex_captures_spec, str_eq};

verus! {

/// Greatest common divisor, by Euclid's algorithm.
pub open spec fn gcd(a: nat, b: nat) -> nat
    decreases b,
{
    if b == 0 {
        a
    } else {
        gcd(b, a % b)
    }
}

pub proof fn lemma_gcd_divides(a: nat, b: nat)
    requires
        a > 0 || b > 0,
    ensures
        gcd(a, b) > 0,
        a % gcd(a, b) == 0,
        b % gcd(a, b) == 0,
    decreases b,
{
    if b == 0 {
        lemma_fundamental_div_mod_converse_mod(a as int, a as int, 1, 0);
        lemma_fundamental_div_mod_converse_mod(0, a as int, 0, 0);
    } else {
        let r = a % b;
        lemma_gcd_divides(b, r);
        let g = gcd(b, r) as int;
        lemma_fundamental_div_mod(b as int, g);
        lemma_fundamental_div_mod(r as int, g);
        lemma_fundamental_div_mod(a as int, b as int);
        let kb = b as int / g;
        let kr = r as int / g;
        let q = a as int / b as int;
        assert(a as int == (q * kb + kr) * g) by (nonlinear_arith)
            requires
                b as int == g * kb,
                r as int == g * kr,
                a as int == b as int * q + r as int,
        ;
        lemma_fundamental_div_mod_converse_mod(a as int, g, q * kb + kr, 0);
    }
}

/// Bezout's identity: some integers combine `a` and `b` to their greatest
/// common divisor.
pub proof fn lemma_bezout(a: nat, b: nat) -> (r: (int, int))
    ensures
        a * r.0 + b * r.1 == gcd(a, b),
    decreases b,
{
    if b == 0 {
        (1, 0)
    } else {
        let r2 = lemma_bezout(b, a % b);
        let (s, k) = r2;
        lemma_fundamental_div_mod(a as int, b as int);
        let q = a as int / b as int;
        let m = (a % b) as int;
        assert(a * k + b * (s - q * k) == b * s + m * k) by (nonlinear_arith)
            requires
                a as int == b * q + m,
        ;
        (k, s - q * k)
    }
}

/// Where the factor is prime to the deck size, the map `x -> (f * x + c)
/// mod n` sends some place to every place.
proof fn lemma_coprime_onto(f: int, c: int, n: int, t: int)
    requires
        n > 0,
        0 <= t < n,
        gcd(abs_int(f) as nat, n as nat) == 1,
    ensures
        exists|x: int| 0 <= x < n && #[trigger] affine_map(f, c, n, x) == t,
{
    let r = lemma_bezout(abs_int(f) as nat, n as nat);
    let (s0, k) = r;
    let s = if f < 0 { -s0 } else { s0 };
    assert(f * s == abs_int(f) * s0) by (nonlinear_arith)
        requires
            s == (if f < 0 { -s0 } else { s0 }),
            abs_int(f) == (if f < 0 { -f } else { f }),
    ;
    assert(f * s + n * k == 1);
    let v = s * (t - c);
    lemma_fundamental_div_mod(v, n);
    let x = v % n;
    let fl = v / n;
    assert(f * x + c == t + n * (-k * (t - c) - f * fl)) by (nonlinear_arith)
        requires
            v == s * (t - c),
            v == n * fl + x,
            f * s + n * k == 1,
    ;
    lemma_fundamental_div_mod_converse_mod(f * x + c, n, -k * (t - c) - f * fl, t);
    assert(affine_map(f, c, n, x) == t);
}

/// Where the factor is prime to the deck size, the map `x -> (f * x + c)
/// mod n` sends no two places to one.
proof fn lemma_coprime_one_to_one(f: int, c: int, n: int, x: int, y: int)
    requires
        n > 0,
        0 <= x < n,
        0 <= y < n,
        gcd(abs_int(f) as nat, n as nat) == 1,
        affine_map(f, c, n, x) == affine_map(f, c, n, y),
    ensures
        x == y,
{
    let r = lemma_bezout(abs_int(f) as nat, n as nat);
    let (s0, k) = r;
    let s = if f < 0 { -s0 } else { s0 };
    assert(f * s == abs_int(f) * s0) by (nonlinear_arith)
        requires
            s == (if f < 0 { -s0 } else { s0 }),
            abs_int(f) == (if f < 0 { -f } else { f }),
    ;
    assert(f * s + n * k == 1);
    lemma_fundamental_div_mod(f * x + c, n);
    lemma_fundamental_div_mod(f * y + c, n);
    let qx = (f * x + c) / n;
    let qy = (f * y + c) / n;
    assert(f * (x - y) == n * (qx - qy)) by (nonlinear_arith)
        requires
            f * x + c == n * qx + affine_map(f, c, n, x),
            f * y + c == n * qy + affine_map(f, c, n, y),
            affine_map(f, c, n, x) == affine_map(f, c, n, y),
    ;
    assert(x - y == n * (s * (qx - qy) + k * (x - y))) by (nonlinear_arith)
        requires
            f * (x - y) == n * (qx - qy),
            f * s + n * k == 1,
    ;
    let m = s * (qx - qy) + k * (x - y);
    assert(m == 0) by (nonlinear_arith)
        requires
            x - y == n * m,
            -n < x - y < n,
            n > 0,
    ;
}

/// The greatest common divisor of `a` and `b`, by Euclid's algorithm.
fn gcd_u128(a: u128, b: u128) -> (res: u128)
    ensures
        res == gcd(a as nat, b as nat),
{
    let mut x = a;
    let mut y = b;
    while y != 0
        invariant
            gcd(x as nat, y as nat) == gcd(a as nat, b as nat),
        decreases y,
    {
        let r = x % y;
        x = y;
        y = r;
    }
    x
}

/// Whether `(f * x) mod n == t` has a solution `x` in `[0, n)`.
pub open spec fn has_preimage(f: int, t: int, n: int) -> bool {
    exists|x: int| 0 <= x < n && #[trigger] ((f * x) % n) == t
}

/// Whether `x` is the smallest non-negative solution of `(f * x) mod n == t`.
pub open spec fn is_smallest_preimage(f: int, t: int, n: int, x: int) -> bool {
    &&& 0 <= x < n
    &&& (f * x) % n == t
    &&& forall|y: int| 0 <= y < x ==> #[trigger] ((f * y) % n) != t
}

proof fn lemma_cancel(a: int, x: int, y: int, g: int)
    requires
        g > 0,
        a * g * x == y * g,
    ensures
        a * x == y,
{
    assert((a * x - y) * g == 0) by (nonlinear_arith)
        requires
            a * g * x == y * g,
    ;
    assert(a * x - y == 0) by (nonlinear_arith)
        requires
            (a * x - y) * g == 0,
            g > 0,
    ;
}

/// Given Bezout's relation `f * s == g + k * n` with `g` dividing `f` and
/// `n`, the solution `(s * (t / g)) mod (n / g)` of `(f * x) mod n == t` is
/// the smallest one.
proof fn lemma_smallest_from_bezout(f: int, t: int, n: int, g: int, s: int, k: int)
    requires
        n > 0,
        g > 0,
        0 <= f,
        0 <= t < n,
        n % g == 0,
        f % g == 0,
        f * s == g + k * n,
        0 <= s,
        has_preimage(f, t, n),
    ensures
        t % g == 0,
        n / g > 0,
        is_smallest_preimage(f, t, n, (s * (t / g)) % (n / g)),
{
    lemma_fundamental_div_mod(n, g);
    lemma_fundamental_div_mod(f, g);
    let b = n / g;
    let a = f / g;
    assert(b > 0) by (nonlinear_arith)
        requires
            n == g * b,
            n > 0,
            g > 0,
    ;
    // t is a multiple of g
    let x1 = choose|x: int| 0 <= x < n && #[trigger] ((f * x) % n) == t;
    lemma_fundamental_div_mod(f * x1, n);
    let p1 = (f * x1) / n;
    assert(t == (a * x1 - p1 * b) * g) by (nonlinear_arith)
        requires
            f * x1 == n * p1 + t,
            f == g * a,
            n == g * b,
    ;
    lemma_fundamental_div_mod_converse_mod(t, g, a * x1 - p1 * b, 0);
    lemma_fundamental_div_mod(t, g);
    let c = t / g;
    assert(t == g * c);
    // a * s == 1 + k * b
    assert(a * g * s == (1 + k * b) * g) by (nonlinear_arith)
        requires
            f * s == g + k * n,
            f == g * a,
            n == g * b,
    ;
    lemma_cancel(a, s, 1 + k * b, g);
    // x0 is a solution
    assert(s * c >= 0) by (nonlinear_arith)
        requires
            s >= 0,
            t >= 0,
            t == g * c,
            g > 0,
    ;
    lemma_fundamental_div_mod(s * c, b);
    let j = (s * c) / b;
    let x0 = (s * c) % b;
    assert(0 <= x0 < b);
    assert(a * x0 == a * (s * c) - a * (b * j)) by (nonlinear_arith)
        requires
            s * c == b * j + x0,
    ;
    assert(a * (s * c) == c + b * (k * c)) by (nonlinear_arith)
        requires
            a * s == 1 + k * b,
    ;
    assert(a * x0 == c + b * (k * c - a * j)) by (nonlinear_arith)
        requires
            a * x0 == a * (s * c) - a * (b * j),
            a * (s * c) == c + b * (k * c),
    ;
    assert(f * x0 == (c * k - a * j) * n + t) by (nonlinear_arith)
        requires
            a * x0 == c + b * (k * c - a * j),
            f == g * a,
            n == g * b,
            t == g * c,
    ;
    lemma_fundamental_div_mod_converse_mod(f * x0, n, c * k - a * j, t);
    assert(b <= n) by (nonlinear_arith)
        requires
            n == g * b,
            g > 0,
            b > 0,
    ;
    // no smaller solution
    assert forall|y: int| 0 <= y < x0 implies #[trigger] ((f * y) % n) != t by {
        if (f * y) % n == t {
            lemma_fundamental_div_mod(f * y, n);
            let p = (f * y) / n;
            let p0 = c * k - a * j;
            assert(a * g * (y - x0) == (p - p0) * b * g) by (nonlinear_arith)
                requires
                    f * y == n * p + t,
                    f * x0 == p0 * n + t,
                    f == g * a,
                    n == g * b,
            ;
            lemma_cancel(a, y - x0, (p - p0) * b, g);
            let z = s * (p - p0) - k * (y - x0);
            assert(y - x0 == b * z) by (nonlinear_arith)
                requires
                    a * (y - x0) == (p - p0) * b,
                    a * s == 1 + k * b,
                    z == s * (p - p0) - k * (y - x0),
            ;
            assert(false) by (nonlinear_arith)
                requires
                    y - x0 == b * z,
                    0 <= y < x0,
                    x0 < b,
            ;
        }
    }
}

/// The smallest `x >= 0` with `(f * x) mod n == t`, found with the extended
/// algorithm of Euclid.
fn smallest_preimage(f: u128, t: u128, n: u128) -> (res: u128)
    requires
        0 < n <= u64::MAX,
        f < n,
        t < n,
        has_preimage(f as int, t as int, n as int),
    ensures
        is_smallest_preimage(f as int, t as int, n as int, res as int),
{
    let mut r0: u128 = n;
    let mut r1: u128 = f;
    let mut s0: u128 = 0;
    let mut s1: u128 = 1 % n;
    let ghost mut k0: int = -1;
    let ghost mut k1: int = 0;
    proof {
        if n == 1 {
            assert(f == 0);
        } else {
            vstd::arithmetic::div_mod::lemma_small_mod(1, n as nat);
        }
        assert(n * n <= u128::MAX) by (nonlinear_arith)
            requires
                n <= u64::MAX,
        ;
    }
    while r1 != 0
        invariant
            0 < n <= u64::MAX,
            f < n,
            0 < r0 <= n,
            r1 < n,
            r1 < r0,
            s0 < n,
            s1 < n,
            f * s0 == r0 + k0 * n,
            f * s1 == r1 + k1 * n,
            gcd(r0 as nat, r1 as nat) == gcd(n as nat, f as nat),
            n * n <= u128::MAX,
        decreases r1,
    {
        let q = r0 / r1;
        let r2 = r0 % r1;
        proof {
            assert(q <= r0) by (nonlinear_arith)
                requires
                    r1 >= 1,
                    q == r0 / r1,
                    r0 >= 0,
            ;
            assert(q * s1 <= n * n) by (nonlinear_arith)
                requires
                    q <= n,
                    s1 < n,
            ;
        }
        let qs = (q * s1) % n;
        let s2 = (s0 + n - qs) % n;
        proof {
            lemma_fundamental_div_mod(r0 as int, r1 as int);
            lemma_fundamental_div_mod((q * s1) as int, n as int);
            lemma_fundamental_div_mod((s0 + n - qs) as int, n as int);
            let m1 = (q * s1) as int / n as int;
            let m2 = (s0 + n - qs) as int / n as int;
            // s2 == s0 - q * s1 + (1 + m1 - m2) * n
            let k2 = k0 - q * k1 + (1 + m1 - m2) * f;
            assert(f * s2 == r2 + k2 * n) by (nonlinear_arith)
                requires
                    r0 == r1 * q + r2,
                    q * s1 == n * m1 + qs,
                    s0 + n - qs == n * m2 + s2,
                    f * s0 == r0 + k0 * n,
                    f * s1 == r1 + k1 * n,
                    k2 == k0 - q * k1 + (1 + m1 - m2) * f,
            ;
            k0 = k1;
            k1 = k2;
        }
        r0 = r1;
        r1 = r2;
        s0 = s1;
        s1 = s2;
    }
    proof {
        lemma_gcd_divides(n as nat, f as nat);
        assert(gcd(r0 as nat, 0) == r0);
        lemma_smallest_from_bezout(f as int, t as int, n as int, r0 as int, s0 as int, k0);
    }
    let g = r0;
    let b = n / g;
    let c = t / g;
    proof {
        assert(c <= t);
        assert(s0 * c <= n * n) by (nonlinear_arith)
            requires
                s0 < n,
                c <= t,
                t < n,
        ;
    }
    (s0 * c) % b
}

/// Errors met while reading shuffle techniques.
#[derive(Debug)]
pub enum Error {
    /// Number of arguments given, and number expected.
    WrongNumberOfArgs(usize, usize),
    /// A cut whose count is not a 32-bit integer.
    InvalidCut(String),
    /// An increment whose step is not an unsigned 32-bit integer.
    InvalidIncrement(String),
    /// A line that is no technique.
    InvalidTechStr(String),
}

/// One technique of shuffling.
#[derive(Debug, Clone, Copy, PartialEq, Eq, Structural)]
pub enum ShuffleTech {
    /// Reverse the deck.
    NewStack,
    /// Move the top `k` cards to the bottom (the bottom `-k` to the top when
    /// `k` is negative).
    Cut(i32),
    /// Deal the cards out onto every `u`-th place.
    Increment(u32),
}

/// Where a technique puts the card from place `ind` of a deck of `n` cards.
pub open spec fn tech_map(t: ShuffleTech, ind: int, n: int) -> int {
    match t {
        ShuffleTech::NewStack => n - 1 - ind,
        ShuffleTech::Cut(k) => (ind - k) % n,
        ShuffleTech::Increment(u) => (ind * u) % n,
    }
}

/// `x == b + k * n` gives the same remainder as `b`.
proof fn lemma_mod_shift(a: int, b: int, k: int, n: int)
    requires
        n > 0,
        a == b + k * n,
    ensures
        a % n == b % n,
{
    lemma_fundamental_div_mod(b, n);
    let q = b / n;
    assert(a == (q + k) * n + b % n) by (nonlinear_arith)
        requires
            a == b + k * n,
            b == n * q + b % n,
    ;
    lemma_fundamental_div_mod_converse_mod(a, n, q + k, b % n);
}

/// A cut: `cut` and a count, maybe negative.
pub const CUT_PATTERN: &'static str = r"cut (-?\d+)";

/// A deal with increment: the words and a step.
pub const INC_PATTERN: &'static str = r"deal with increment (\d+)";

/// The text of the technique that reverses the deck.
pub const NEW_STACK_TEXT: &'static str = "deal into new stack";

/// What reading the technique `s` gives, from what the patterns capture:
/// the reversal when `s` is its text, else a cut where the cut pattern
/// matches, else a deal with increment where that pattern matches; a count
/// beyond its type is an error of that technique.
pub open spec fn tech_read(s: Seq<char>, res: Result<ShuffleTech, Error>) -> bool {
    if s == NEW_STACK_TEXT@ {
        res == Ok::<ShuffleTech, Error>(ShuffleTech::NewStack)
    } else {
        match regex_captures_spec(CUT_PATTERN@, s) {
            Some(c) => match group_int_spec(c, 1, i32::MIN as int, i32::MAX as int) {
                Some(k) => res == Ok::<ShuffleTech, Error>(ShuffleTech::Cut(k as i32)),
                None => res matches Err(Error::InvalidCut(t)) && t@ == s,
            },
            None => match regex_captures_spec(INC_PATTERN@, s) {
                Some(c) => match group_int_spec(c, 1, 0, u32::MAX as int) {
                    Some(u) => res == Ok::<ShuffleTech, Error>(ShuffleTech::Increment(u as u32)),
                    None => res matches Err(Error::InvalidIncrement(t)) && t@ == s,
                },
                None => res matches Err(Error::InvalidTechStr(t)) && t@ == s,
            },
        }
    }
}

impl ShuffleTech {
    /// Reads one technique from its text.
    pub fn try_from(value: &str) -> (res: Result<ShuffleTech, Error>)
        ensures
            tech_read(value@, res),
    {
        if str_eq(value, NEW_STACK_TEXT) {
            return Ok(ShuffleTech::NewStack);
        }
        match regex_captures(CUT_PATTERN, value) {
            Some(caps) => Self::cut_from_captures(&caps, value),
            None => match regex_captures(INC_PATTERN, value) {
                Some(caps) => Self::inc_from_captures(&caps, value),
                None => Err(Error::InvalidTechStr(value.to_string())),
            },
        }
    }

    /// The cut that the groups of a match of `CUT_PATTERN` in `value` write.
    pub fn cut_from_captures(caps: &Vec<Option<String>>, value: &str) -> (res: Result<ShuffleTech, Error>)
        ensures
            match group_int_spec(caps_view(caps@), 1, i32::MIN as int, i32::MAX as int) {
                Some(k) => res == Ok::<ShuffleTech, Error>(ShuffleTech::Cut(k as i32)),
                None => res matches Err(Error::InvalidCut(t)) && t@ == value@,
            },
    {
        match group_int(caps, 1, i32::MIN as i128, i32::MAX as i128) {
            Some(k) => Ok(ShuffleTech::Cut(k as i32)),
            None => Err(Error::InvalidCut(value.to_string())),
        }
    }

    /// The deal that the groups of a match of `INC_PATTERN` in `value` write.
    pub fn inc_from_captures(caps: &Vec<Option<String>>, value: &str) -> (res: Result<ShuffleTech, Error>)
        ensures
            match group_int_spec(caps_view(caps@), 1, 0, u32::MAX as int) {
                Some(u) => res == Ok::<ShuffleTech, Error>(ShuffleTech::Increment(u as u32)),
                None => res matches Err(Error::InvalidIncrement(t)) && t@ == value@,
            },
    {
        match group_int(caps, 1, 0, u32::MAX as i128) {
            Some(u) => Ok(ShuffleTech::Increment(u as u32)),
            None => Err(Error::InvalidIncrement(value.to_string())),
        }
    }

    /// Where a cut of `cut_i` cards puts the card from place `ind`.
    fn cut_map(cut_i: i32, ind: usize, cards_n: usize) -> (res: usize)
        requires
            cut_i != i32::MIN,
            ind < cards_n,
        ensures
            res == (ind - cut_i) % (cards_n as int),
    {
        let ghost n = cards_n as int;
        let abs: usize = if cut_i >= 0 { cut_i as usize } else { (-cut_i) as usize };
        let i_abs = abs % cards_n;
        let ghost q = abs as int / n;
        proof {
            lemma_fundamental_div_mod(abs as int, n);
            assert((-1 - q) * n == -n - q * n) by (nonlinear_arith);
            assert((q + 1) * n == q * n + n) by (nonlinear_arith);
            assert(n * q == q * n) by (nonlinear_arith);
            assert((-q) * n == -(q * n)) by (nonlinear_arith);
        }
        if cut_i > 0 {
            if ind < i_abs {
                proof {
                    lemma_mod_shift(ind - cut_i, ind + n - i_abs, -1 - q, n);
                    lemma_fundamental_div_mod_converse_mod(ind + n - i_abs, n, 0, ind + n - i_abs);
                }
                ind + (cards_n - i_abs)
            } else {
                proof {
                    lemma_mod_shift(ind - cut_i, ind - i_abs, -q, n);
                    lemma_fundamental_div_mod_converse_mod(ind - i_abs, n, 0, ind - i_abs);
                }
                ind - i_abs
            }
        } else if cut_i < 0 {
            if ind < cards_n - i_abs {
                proof {
                    lemma_mod_shift(ind - cut_i, ind + i_abs, q, n);
                    lemma_fundamental_div_mod_converse_mod(ind + i_abs, n, 0, ind + i_abs);
                }
                ind + i_abs
            } else {
                proof {
                    lemma_mod_shift(ind - cut_i, ind - (n - i_abs), q + 1, n);
                    lemma_fundamental_div_mod_converse_mod(ind - (n - i_abs), n, 0, ind - (n - i_abs));
                }
                ind - (cards_n - i_abs)
            }
        } else {
            proof {
                lemma_fundamental_div_mod_converse_mod(ind as int, n, 0, ind as int);
            }
            ind
        }
    }

    /// Where this technique puts the card from place `ind` of a deck of
    /// `cards_n` cards.
    pub fn map(&self, ind: usize, cards_n: usize) -> (res: usize)
        requires
            ind < cards_n,
            *self matches ShuffleTech::Cut(k) ==> k != i32::MIN,
            *self matches ShuffleTech::Increment(u) ==> ind * u <= usize::MAX,
        ensures
            res == tech_map(*self, ind as int, cards_n as int),
    {
        match self {
            ShuffleTech::NewStack => cards_n - 1 - ind,
            ShuffleTech::Cut(i) => Self::cut_map(*i, ind, cards_n),
            ShuffleTech::Increment(u) => ind * (*u as usize) % cards_n,
        }
    }

    /// The place whose card this technique puts at place `ind`: for an
    /// increment, the smallest such place.
    pub fn rev_map(&self, ind: usize, cards_n: usize) -> (res: usize)
        requires
            ind < cards_n,
            *self matches ShuffleTech::Cut(k) ==> k != i32::MIN,
            *self matches ShuffleTech::Increment(u) ==> u > 0 && has_preimage(u as int, ind as int, cards_n as int)
                && forall|x: int| #[trigger] is_smallest_preimage(u as int, ind as int, cards_n as int, x) ==> x * u <= usize::MAX,
        ensures
            tech_map(*self, res as int, cards_n as int) == ind,
            *self matches ShuffleTech::NewStack ==> res == cards_n - 1 - ind,
            *self matches ShuffleTech::Cut(k) ==> res == (ind + k) % (cards_n as int),
            *self matches ShuffleTech::Increment(u) ==> is_smallest_preimage(u as int, ind as int, cards_n as int, res as int),
    {
        match self {
            ShuffleTech::NewStack => cards_n - 1 - ind,
            ShuffleTech::Cut(i) => {
                let res = Self::cut_map(-*i, ind, cards_n);
                proof {
                    let n = cards_n as int;
                    let k = *i as int;
                    lemma_fundamental_div_mod(ind + k, n);
                    let q = (ind + k) / n;
                    assert(n * q == q * n) by (nonlinear_arith);
                    assert((-q) * n == -(q * n)) by (nonlinear_arith);
                    lemma_mod_shift(res - k, ind as int, -q, n);
                    lemma_fundamental_div_mod_converse_mod(ind as int, n, 0, ind as int);
                    lemma_fundamental_div_mod_converse_mod(ind as int, n, 0, ind as int);
                }
                res
            },
            ShuffleTech::Increment(u) => {
                let res = Self::inc_rev_map(*u, ind, cards_n);
                proof {
                    assert((res * (*u as int)) == ((*u as int) * res)) by (nonlinear_arith);
                }
                res
            },
        }
    }

    /// The smallest place that an increment of `inc_u` maps to `ind`.
    fn inc_rev_map(inc_u: u32, ind: usize, cards_n: usize) -> (res: usize)
        requires
            ind < cards_n,
            inc_u > 0,
            has_preimage(inc_u as int, ind as int, cards_n as int),
        ensures
            is_smallest_preimage(inc_u as int, ind as int, cards_n as int, res as int),
    {
        let n = cards_n as u128;
        let f = (inc_u as u128) % n;
        proof {
            lemma_preimage_mod_factor(inc_u as int, ind as int, cards_n as int);
        }
        let x = smallest_preimage(f, ind as u128, n);
        x as usize
    }
}

/// Solutions of `(f * x) mod n == t` do not change when `f` is taken mod `n`.
proof fn lemma_preimage_mod_factor(f: int, t: int, n: int)
    requires
        n > 0,
        f >= 0,
    ensures
        forall|x: int| #[trigger] ((f * x) % n) == (((f % n) * x) % n),
        has_preimage(f, t, n) == has_preimage(f % n, t, n),
        forall|x: int| is_smallest_preimage(f % n, t, n, x) == #[trigger] is_smallest_preimage(f, t, n, x),
{
    assert forall|x: int| #[trigger] ((f * x) % n) == (((f % n) * x) % n) by {
        vstd::arithmetic::div_mod::lemma_mul_mod_noop_left(f, x, n);
    }
    assert forall|x: int| is_smallest_preimage(f % n, t, n, x) == #[trigger] is_smallest_preimage(f, t, n, x) by {
        assert forall|y: int| #![trigger ((f * y) % n)] #![trigger (((f % n) * y) % n)]
            ((f * y) % n) == (((f % n) * y) % n) by {
            vstd::arithmetic::div_mod::lemma_mul_mod_noop_left(f, y, n);
        }
    }
    assert(has_preimage(f, t, n) == has_preimage(f % n, t, n)) by {
        if has_preimage(f, t, n) {
            let x = choose|x: int| 0 <= x < n && #[trigger] ((f * x) % n) == t;
            assert(((f % n) * x) % n == t);
        }
        if has_preimage(f % n, t, n) {
            let x = choose|x: int| 0 <= x < n && #[trigger] (((f % n) * x) % n) == t;
            assert((f * x) % n == t);
        }
    }
}

/// Remainder of `a` by `n` with the sign of `a`, as the `%` of Rust gives it.
pub open spec fn trunc_rem(a: int, n: int) -> int {
    if a >= 0 {
        a % n
    } else {
        -((-a) % n)
    }
}

proof fn lemma_trunc_rem(a: int, n: int)
    requires
        n > 0,
    ensures
        -n < trunc_rem(a, n) < n,
        trunc_rem(a, n) % n == a % n,
{
    if a >= 0 {
        vstd::arithmetic::div_mod::lemma_mod_twice(a, n);
    } else {
        lemma_fundamental_div_mod(-a, n);
        let q = (-a) / n;
        assert((-q) * n == -(n * q)) by (nonlinear_arith);
        lemma_mod_shift(a, trunc_rem(a, n), -q, n);
    }
}

/// `x mod n` of Rust for a signed `a` and a positive `n`.
fn trunc_rem_i128(a: i128, n: i128) -> (res: i128)
    requires
        n > 0,
        a > i128::MIN,
    ensures
        res == trunc_rem(a as int, n as int),
{
    if a >= 0 {
        ((a as u128) % (n as u128)) as i128
    } else {
        -((((-a) as u128) % (n as u128)) as i128)
    }
}

/// The place that the map `x -> (f * x + c) mod n` gives to `x`.
pub open spec fn affine_map(f: int, c: int, n: int, x: int) -> int {
    (f * x + c) % n
}

/// What adding a technique does to the factor and the constant of a deck.
pub open spec fn combine_spec(fc: (int, int), st: ShuffleTech, n: int) -> (int, int) {
    match st {
        ShuffleTech::NewStack => (-fc.0, -fc.1 - 1),
        ShuffleTech::Cut(k) => (fc.0, fc.1 - k),
        ShuffleTech::Increment(u) => (trunc_rem(fc.0 * u, n), trunc_rem(fc.1 * u, n)),
    }
}

/// Whether adding a technique to a deck with factor and constant `fc` stays
/// within `isize`.
pub open spec fn combine_ok(fc: (int, int), st: ShuffleTech, n: int) -> bool {
    match st {
        ShuffleTech::NewStack => isize::MIN < fc.0 <= isize::MAX && isize::MIN < fc.1 <= isize::MAX,
        ShuffleTech::Cut(k) => isize::MIN <= fc.1 - k <= isize::MAX,
        ShuffleTech::Increment(u) => 0 < n <= isize::MAX && isize::MIN <= fc.0 * u <= isize::MAX
            && isize::MIN <= fc.1 * u <= isize::MAX,
    }
}

/// Factor and constant of the deck after the techniques, in order.
pub open spec fn deck_after(techs: Seq<ShuffleTech>, n: int) -> (int, int)
    decreases techs.len(),
{
    if techs.len() == 0 {
        (1, 0)
    } else {
        combine_spec(deck_after(techs.drop_last(), n), techs.last(), n)
    }
}

/// Whether every technique, added in turn, stays within `isize`.
pub open spec fn techs_fit(techs: Seq<ShuffleTech>, n: int) -> bool {
    forall|k: int| 0 <= k < techs.len() ==> #[trigger] combine_ok(deck_after(techs.take(k), n), techs[k], n)
}

/// Where the techniques, one after the other, put the card from place `x`.
pub open spec fn apply_techs(techs: Seq<ShuffleTech>, x: int, n: int) -> int
    decreases techs.len(),
{
    if techs.len() == 0 {
        x
    } else {
        tech_map(techs.last(), apply_techs(techs.drop_last(), x, n), n)
    }
}

/// Where the deck, shuffled `k` times over, puts the card from place `x`.
pub open spec fn pow_map(d: DeckShuffle, k: nat, x: int) -> int
    decreases k,
{
    if k == 0 {
        x
    } else {
        d.map_spec(pow_map(d, (k - 1) as nat, x))
    }
}

/// Shuffling `a` times after shuffling `b` times is shuffling `a + b` times.
pub proof fn lemma_pow_add(d: DeckShuffle, a: nat, b: nat, x: int)
    ensures
        pow_map(d, a, pow_map(d, b, x)) == pow_map(d, a + b, x),
    decreases a,
{
    if a > 0 {
        lemma_pow_add(d, (a - 1) as nat, b, x);
        assert((a + b - 1) as nat == ((a - 1) as nat + b) as nat);
    }
}

/// A run of techniques as one map `x -> (ind_factor * x + constant) mod cards_n`.
#[derive(Debug, Clone, Copy)]
pub struct DeckShuffle {
    cards_n: usize,
    ind_factor: isize,
    constant: isize,
}

impl DeckShuffle {
    pub closed spec fn cards_n_spec(&self) -> usize {
        self.cards_n
    }

    pub closed spec fn factor_spec(&self) -> isize {
        self.ind_factor
    }

    pub closed spec fn constant_spec(&self) -> isize {
        self.constant
    }

    /// Where this deck puts the card from place `x`.
    pub open spec fn map_spec(&self, x: int) -> int {
        affine_map(self.factor_spec() as int, self.constant_spec() as int, self.cards_n_spec() as int, x)
    }

    /// The deck of `cards_n` cards shuffled by the techniques, in order.
    pub fn new(techs: &Vec<ShuffleTech>, cards_n: usize) -> (res: Self)
        requires
            techs_fit(techs@, cards_n as int),
        ensures
            res.cards_n_spec() == cards_n,
            (res.factor_spec() as int, res.constant_spec() as int) == deck_after(techs@, cards_n as int),
    {
        let mut res = Self { cards_n, ind_factor: 1, constant: 0 };
        let mut i: usize = 0;
        while i < techs.len()
            invariant
                i <= techs.len(),
                techs_fit(techs@, cards_n as int),
                res.cards_n == cards_n,
                (res.ind_factor as int, res.constant as int) == deck_after(techs@.take(i as int), cards_n as int),
            decreases techs.len() - i,
        {
            proof {
                assert(combine_ok(deck_after(techs@.take(i as int), cards_n as int), techs@[i as int], cards_n as int));
                assert(techs@.take(i + 1).drop_last() =~= techs@.take(i as int));
            }
            res.combine(&techs[i]);
            i = i + 1;
        }
        proof {
            assert(techs@.take(i as int) =~= techs@);
        }
        res
    }

    /// The deck that leaves every card in its place.
    pub fn ident(cards_n: usize) -> (res: Self)
        ensures
            res.cards_n_spec() == cards_n,
            res.factor_spec() == 1,
            res.constant_spec() == 0,
    {
        Self { cards_n, ind_factor: 1, constant: 0 }
    }

    pub fn ind_factor(&self) -> (res: isize)
        ensures
            res == self.factor_spec(),
    {
        self.ind_factor
    }

    pub fn constant(&self) -> (res: isize)
        ensures
            res == self.constant_spec(),
    {
        self.constant
    }

    /// Adds one more technique after those of this deck.
    pub fn combine(&mut self, st: &ShuffleTech)
        requires
            combine_ok((old(self).factor_spec() as int, old(self).constant_spec() as int), *st,
                old(self).cards_n_spec() as int),
        ensures
            final(self).cards_n_spec() == old(self).cards_n_spec(),
            (final(self).factor_spec() as int, final(self).constant_spec() as int) == combine_spec(
                (old(self).factor_spec() as int, old(self).constant_spec() as int), *st,
                old(self).cards_n_spec() as int),
    {
        match st {
            ShuffleTech::NewStack => {
                self.ind_factor = -self.ind_factor;
                self.constant = -self.constant - 1;
            },
            ShuffleTech::Cut(c) => {
                self.constant = self.constant - (*c as isize);
            },
            ShuffleTech::Increment(i) => {
                let i = *i as i128;
                let cards_n = self.cards_n as i128;
                let f = trunc_rem_i128(self.ind_factor as i128 * i, cards_n);
                let c = trunc_rem_i128(self.constant as i128 * i, cards_n);
                proof {
                    lemma_trunc_rem(self.ind_factor as int * i, cards_n as int);
                    lemma_trunc_rem(self.constant as int * i, cards_n as int);
                }
                self.ind_factor = f as isize;
                self.constant = c as isize;
            },
        }
    }

    /// Makes this deck the shuffle of `other` followed by this one.
    pub fn append(&mut self, other: &Self)
        requires
            0 < old(self).cards_n_spec() <= isize::MAX,
        ensures
            final(self).cards_n_spec() == old(self).cards_n_spec(),
            final(self).factor_spec() == trunc_rem(
                old(self).factor_spec() * other.factor_spec(),
                old(self).cards_n_spec() as int,
            ),
            final(self).constant_spec() == trunc_rem(
                old(self).factor_spec() * other.constant_spec() + old(self).constant_spec(),
                old(self).cards_n_spec() as int,
            ),
    {
        let ind_factor = self.ind_factor as i128;
        let constant = self.constant as i128;
        let other_ind_factor = other.ind_factor as i128;
        let other_constant = other.constant as i128;
        let cards_n = self.cards_n as i128;
        proof {
            assert(-0x4000_0000_0000_0000_0000_0000_0000_0000 <= ind_factor * other_ind_factor <= 0x4000_0000_0000_0000_0000_0000_0000_0000) by (nonlinear_arith)
                requires
                    -0x8000_0000_0000_0000 <= ind_factor <= 0x7fff_ffff_ffff_ffff,
                    -0x8000_0000_0000_0000 <= other_ind_factor <= 0x7fff_ffff_ffff_ffff,
            ;
            assert(-0x4000_0000_0000_0000_0000_0000_0000_0000 <= ind_factor * other_constant <= 0x4000_0000_0000_0000_0000_0000_0000_0000) by (nonlinear_arith)
                requires
                    -0x8000_0000_0000_0000 <= ind_factor <= 0x7fff_ffff_ffff_ffff,
                    -0x8000_0000_0000_0000 <= other_constant <= 0x7fff_ffff_ffff_ffff,
            ;
        }
        let f = trunc_rem_i128(ind_factor * other_ind_factor, cards_n);
        let c = trunc_rem_i128(ind_factor * other_constant + constant, cards_n);
        proof {
            lemma_trunc_rem(ind_factor * other_ind_factor, cards_n as int);
            lemma_trunc_rem(ind_factor * other_constant + constant, cards_n as int);
        }
        self.ind_factor = f as isize;
        self.constant = c as isize;
    }

    /// This deck's shuffle done `count` times over, by squaring: the deck
    /// of one shuffle is squared for each binary digit of `count`, and
    /// joined in where the digit is one.
    pub fn repeat(&self, count: u64) -> (res: Self)
        requires
            0 < self.cards_n_spec() <= isize::MAX,
        ensures
            res.cards_n_spec() == self.cards_n_spec(),
            forall|x: int| 0 <= x < self.cards_n_spec() ==> #[trigger] res.map_spec(x) == pow_map(*self, count as nat, x),
    {
        let n = self.cards_n;
        let mut unit = *self;
        let mut total = DeckShuffle::ident(n);
        let mut cur = count;
        let ghost mut t: nat = 0;
        let ghost mut e: nat = 1;
        proof {
            assert forall|x: int| 0 <= x < n implies #[trigger] unit.map_spec(x) == pow_map(*self, e, x) by {
                assert(pow_map(*self, 0, x) == x);
            }
            assert forall|x: int| 0 <= x < n implies #[trigger] total.map_spec(x) == pow_map(*self, t, x) by {
                lemma_fundamental_div_mod_converse_mod(1 * x + 0, n as int, 0, x);
            }
        }
        while cur > 0
            invariant
                0 < n <= isize::MAX,
                n == self.cards_n_spec(),
                unit.cards_n_spec() == n,
                total.cards_n_spec() == n,
                t + e * cur == count,
                forall|x: int| 0 <= x < n ==> #[trigger] unit.map_spec(x) == pow_map(*self, e, x),
                forall|x: int| 0 <= x < n ==> #[trigger] total.map_spec(x) == pow_map(*self, t, x),
            decreases cur,
        {
            let ghost cur0 = cur;
            let ghost t0 = t;
            if cur % 2 == 1 {
                let ghost old_total = total;
                total.append(&unit);
                proof {
                    assert forall|x: int| 0 <= x < n implies #[trigger] total.map_spec(x) == pow_map(*self, t + e, x) by {
                        lemma_append_composes(old_total.factor_spec() as int, old_total.constant_spec() as int,
                            unit.factor_spec() as int, unit.constant_spec() as int, n as int, x);
                        let y = unit.map_spec(x);
                        assert(0 <= y < n);
                        assert(old_total.map_spec(y) == pow_map(*self, t, y));
                        lemma_pow_add(*self, t, e, x);
                    }
                    t = t + e;
                }
            }
            let ghost old_unit = unit;
            let ghost old_e = e;
            proof {
                assert(e * cur0 == e * (cur0 % 2) + (2 * e) * (cur0 / 2)) by (nonlinear_arith)
                    requires
                        cur0 == 2 * (cur0 / 2) + cur0 % 2,
                ;
                assert(e * (cur0 % 2) == (if cur0 % 2 == 1 { e as int } else { 0 })) by (nonlinear_arith)
                    requires
                        0 <= cur0 % 2 < 2,
                ;
                assert(t == t0 + (if cur0 % 2 == 1 { e as int } else { 0 }));
            }
            cur = cur / 2;
            unit.square();
            proof {
                assert forall|x: int| 0 <= x < n implies #[trigger] unit.map_spec(x) == pow_map(*self, 2 * old_e, x) by {
                    lemma_append_composes(old_unit.factor_spec() as int, old_unit.constant_spec() as int,
                        old_unit.factor_spec() as int, old_unit.constant_spec() as int, n as int, x);
                    let y = old_unit.map_spec(x);
                    assert(0 <= y < n);
                    assert(old_unit.map_spec(y) == pow_map(*self, old_e, y));
                    lemma_pow_add(*self, old_e, old_e, x);
                }
                e = 2 * e;
            }
        }
        total
    }

    /// Makes this deck its own shuffle done twice.
    pub fn square(&mut self)
        requires
            0 < old(self).cards_n_spec() <= isize::MAX,
        ensures
            final(self).cards_n_spec() == old(self).cards_n_spec(),
            final(self).factor_spec() == trunc_rem(
                old(self).factor_spec() * old(self).factor_spec(),
                old(self).cards_n_spec() as int,
            ),
            final(self).constant_spec() == trunc_rem(
                old(self).factor_spec() * old(self).constant_spec() + old(self).constant_spec(),
                old(self).cards_n_spec() as int,
            ),
    {
        let copy = *self;
        self.append(&copy);
    }

    /// Where this deck puts the card from place `ind`.
    pub fn map(&self, ind: usize) -> (res: usize)
        requires
            ind < self.cards_n_spec(),
        ensures
            res == self.map_spec(ind as int),
    {
        let x = ind as i128;
        let n = self.cards_n as i128;
        let f = self.ind_factor as i128;
        let c = self.constant as i128;
        proof {
            assert(-0x7fff_ffff_ffff_ffff_0000_0000_0000_0000 <= x * f <= 0x7fff_ffff_ffff_ffff_0000_0000_0000_0000) by (nonlinear_arith)
                requires
                    0 <= x < 0xffff_ffff_ffff_ffff,
                    -0x8000_0000_0000_0000 <= f <= 0x7fff_ffff_ffff_ffff,
            ;
        }
        let v = x * f + c;
        proof {
            assert(x * f == f * x) by (nonlinear_arith);
        }
        let r: u128 = if v >= 0 {
            (v as u128) % (n as u128)
        } else {
            let m = ((-v) as u128) % (n as u128);
            proof {
                lemma_neg_mod(v as int, n as int);
            }
            if m == 0 { 0 } else { (n as u128) - m }
        };
        r as usize
    }

    /// The smallest place whose card this deck puts at `target_ind`.
    pub fn rev_map(&self, target_ind: usize) -> (res: usize)
        requires
            target_ind < self.cards_n_spec() <= isize::MAX,
            isize::MIN <= target_ind - self.constant_spec() <= isize::MAX,
            exists|x: int| 0 <= x < self.cards_n_spec() && #[trigger] self.map_spec(x) == target_ind,
        ensures
            res < self.cards_n_spec(),
            self.map_spec(res as int) == target_ind,
            forall|y: int| 0 <= y < res ==> #[trigger] self.map_spec(y) != target_ind,
    {
        let n = self.cards_n as i128;
        let f = self.ind_factor as i128;
        let t = target_ind as i128 - self.constant as i128;
        let fr = euclid_rem(f, n);
        let tr = euclid_rem(t, n);
        proof {
            lemma_affine_preimage(self.factor_spec() as int, self.constant_spec() as int, n as int,
                target_ind as int, fr as int, tr as int);
        }
        let x = smallest_preimage(fr as u128, tr as u128, n as u128);
        x as usize
    }
}

/// Where the factor is prime to the deck size, the smallest place whose
/// card the deck puts where it puts the card from `x` is `x`: running the
/// deck backwards undoes running it forwards.
pub proof fn lemma_rev_map_undoes_map(deck: DeckShuffle, x: int, r: int)
    requires
        deck.cards_n_spec() > 0,
        gcd(abs_int(deck.factor_spec() as int) as nat, deck.cards_n_spec() as nat) == 1,
        0 <= x < deck.cards_n_spec(),
        0 <= r < deck.cards_n_spec(),
        deck.map_spec(r) == deck.map_spec(x),
    ensures
        r == x,
{
    lemma_coprime_one_to_one(deck.factor_spec() as int, deck.constant_spec() as int, deck.cards_n_spec() as int, r, x);
}

/// For a negative `a`, `a mod n` is `n - (-a mod n)`, or zero.
proof fn lemma_neg_mod(a: int, n: int)
    requires
        a < 0,
        n > 0,
    ensures
        (-a) % n == 0 ==> a % n == 0,
        (-a) % n != 0 ==> a % n == n - (-a) % n,
{
    lemma_fundamental_div_mod(-a, n);
    let q = (-a) / n;
    let m = (-a) % n;
    if m == 0 {
        assert(a == (-q) * n + 0) by (nonlinear_arith)
            requires
                -a == n * q + m,
                m == 0,
        ;
        lemma_fundamental_div_mod_converse_mod(a, n, -q, 0);
    } else {
        assert(a == (-q - 1) * n + (n - m)) by (nonlinear_arith)
            requires
                -a == n * q + m,
        ;
        lemma_fundamental_div_mod_converse_mod(a, n, -q - 1, n - m);
    }
}

/// `a mod n` in `[0, n)`.
fn euclid_rem(a: i128, n: i128) -> (res: i128)
    requires
        n > 0,
        a > i128::MIN,
    ensures
        res == a % n,
        0 <= res < n,
{
    if a >= 0 {
        ((a as u128) % (n as u128)) as i128
    } else {
        let m = ((-a) as u128) % (n as u128);
        proof {
            lemma_neg_mod(a as int, n as int);
        }
        if m == 0 { 0 } else { n - (m as i128) }
    }
}

/// The places that `x -> (f * x + c) mod n` sends to `target` are those that
/// `x -> (fr * x) mod n` sends to `tr`, with `fr = f mod n` and
/// `tr = (target - c) mod n`.
proof fn lemma_affine_preimage(f: int, c: int, n: int, target: int, fr: int, tr: int)
    requires
        n > 0,
        0 <= target < n,
        fr == f % n,
        tr == (target - c) % n,
    ensures
        forall|x: int| (#[trigger] affine_map(f, c, n, x) == target) == ((fr * x) % n == tr),
{
    assert forall|x: int| (#[trigger] affine_map(f, c, n, x) == target) == ((fr * x) % n == tr) by {
        lemma_fundamental_div_mod(f, n);
        lemma_fundamental_div_mod(target - c, n);
        lemma_fundamental_div_mod(f * x + c, n);
        lemma_fundamental_div_mod(fr * x, n);
        let qf = f / n;
        let qt = (target - c) / n;
        let p = (f * x + c) / n;
        let p2 = (fr * x) / n;
        let r = (f * x + c) % n;
        let r2 = (fr * x) % n;
        if r == target {
            assert(fr * x == (p - qf * x + qt) * n + tr) by (nonlinear_arith)
                requires
                    f == n * qf + fr,
                    target - c == n * qt + tr,
                    f * x + c == n * p + r,
                    r == target,
            ;
            lemma_fundamental_div_mod_converse_mod(fr * x, n, p - qf * x + qt, tr);
        }
        if r2 == tr {
            assert(f * x + c == (p2 + qf * x - qt) * n + target) by (nonlinear_arith)
                requires
                    f == n * qf + fr,
                    target - c == n * qt + tr,
                    fr * x == n * p2 + r2,
                    r2 == tr,
            ;
            lemma_fundamental_div_mod_converse_mod(f * x + c, n, p2 + qf * x - qt, target);
        }
    }
}

/// Two numbers with the same remainder differ by a multiple of `n`.
proof fn lemma_same_mod_witness(a: int, b: int, n: int)
    requires
        n > 0,
        a % n == b % n,
    ensures
        a == b + (a / n - b / n) * n,
{
    lemma_fundamental_div_mod(a, n);
    lemma_fundamental_div_mod(b, n);
    assert(a == b + (a / n - b / n) * n) by (nonlinear_arith)
        requires
            a == n * (a / n) + a % n,
            b == n * (b / n) + b % n,
            a % n == b % n,
    ;
}

/// Adding a technique to a deck gives the deck that first shuffles as the
/// old one and then applies the technique.
pub proof fn lemma_combine_composes(fc: (int, int), st: ShuffleTech, n: int, x: int)
    requires
        n > 0,
    ensures
        affine_map(combine_spec(fc, st, n).0, combine_spec(fc, st, n).1, n, x)
            == tech_map(st, affine_map(fc.0, fc.1, n, x), n),
{
    let f = fc.0;
    let c = fc.1;
    let m = affine_map(f, c, n, x);
    lemma_fundamental_div_mod(f * x + c, n);
    let q = (f * x + c) / n;
    match st {
        ShuffleTech::NewStack => {
            assert(-f * x - c - 1 == (-q - 1) * n + (n - 1 - m)) by (nonlinear_arith)
                requires
                    f * x + c == n * q + m,
            ;
            assert((-f) * x == -f * x) by (nonlinear_arith);
            lemma_fundamental_div_mod_converse_mod(-f * x - c - 1, n, -q - 1, n - 1 - m);
        },
        ShuffleTech::Cut(k) => {
            assert(f * x + (c - k) == (m - k) + q * n) by (nonlinear_arith)
                requires
                    f * x + c == n * q + m,
            ;
            lemma_mod_shift(f * x + (c - k), m - k, q, n);
        },
        ShuffleTech::Increment(u) => {
            let f2 = trunc_rem(f * u, n);
            let c2 = trunc_rem(c * u, n);
            lemma_trunc_rem(f * u, n);
            lemma_trunc_rem(c * u, n);
            lemma_same_mod_witness(f2, f * u, n);
            lemma_same_mod_witness(c2, c * u, n);
            let k1 = f2 / n - (f * u) / n;
            let k2 = c2 / n - (c * u) / n;
            assert(f2 * x + c2 == m * u + (q * u + k1 * x + k2) * n) by (nonlinear_arith)
                requires
                    f2 == f * u + k1 * n,
                    c2 == c * u + k2 * n,
                    f * x + c == n * q + m,
            ;
            lemma_mod_shift(f2 * x + c2, m * u, q * u + k1 * x + k2, n);
        },
    }
}

/// Appending `(of, oc)` to `(f, c)` gives the deck that first shuffles as
/// `(of, oc)` and then as `(f, c)`.
pub proof fn lemma_append_composes(f: int, c: int, of: int, oc: int, n: int, x: int)
    requires
        n > 0,
    ensures
        affine_map(trunc_rem(f * of, n), trunc_rem(f * oc + c, n), n, x)
            == affine_map(f, c, n, affine_map(of, oc, n, x)),
{
    let f2 = trunc_rem(f * of, n);
    let c2 = trunc_rem(f * oc + c, n);
    lemma_trunc_rem(f * of, n);
    lemma_trunc_rem(f * oc + c, n);
    lemma_same_mod_witness(f2, f * of, n);
    lemma_same_mod_witness(c2, f * oc + c, n);
    let k1 = f2 / n - (f * of) / n;
    let k2 = c2 / n - (f * oc + c) / n;
    let m = affine_map(of, oc, n, x);
    lemma_fundamental_div_mod(of * x + oc, n);
    let q = (of * x + oc) / n;
    assert(f2 * x == f * of * x + k1 * x * n) by (nonlinear_arith)
        requires
            f2 == f * of + k1 * n,
    ;
    assert(f * of * x + f * oc == f * q * n + f * m) by (nonlinear_arith)
        requires
            of * x + oc == n * q + m,
    ;
    assert((f * q + k1 * x + k2) * n == f * q * n + k1 * x * n + k2 * n) by (nonlinear_arith);
    assert(f2 * x + c2 == (f * m + c) + (f * q + k1 * x + k2) * n);
    lemma_mod_shift(f2 * x + c2, f * m + c, f * q + k1 * x + k2, n);
}

/// The deck built from a run of techniques puts each card where the
/// techniques, applied one after the other, put it.
pub proof fn lemma_deck_after_applies(techs: Seq<ShuffleTech>, n: int, x: int)
    requires
        0 <= x < n,
    ensures
        affine_map(deck_after(techs, n).0, deck_after(techs, n).1, n, x) == apply_techs(techs, x, n),
    decreases techs.len(),
{
    if techs.len() == 0 {
        lemma_fundamental_div_mod_converse_mod(1 * x + 0, n, 0, x);
    } else {
        lemma_deck_after_applies(techs.drop_last(), n, x);
        lemma_combine_composes(deck_after(techs.drop_last(), n), techs.last(), n, x);
    }
}

/// A deck is cut into a new part once its factor grows beyond this.
pub const FACTOR_LIMIT: isize = 1000000;

/// Absolute value.
pub open spec fn abs_int(v: int) -> int {
    if v < 0 { -v } else { v }
}

/// The factors and constants of the finished parts, and of the part being
/// built, after adding the techniques in order: a part is finished as soon
/// as its factor grows beyond `FACTOR_LIMIT`.
pub open spec fn cached_state(techs: Seq<ShuffleTech>, n: int) -> (Seq<(int, int)>, (int, int))
    decreases techs.len(),
{
    if techs.len() == 0 {
        (Seq::empty(), (1, 0))
    } else {
        let prev = cached_state(techs.drop_last(), n);
        let c2 = combine_spec(prev.1, techs.last(), n);
        if abs_int(c2.0) > FACTOR_LIMIT {
            (prev.0.push(c2), (1, 0))
        } else {
            (prev.0, c2)
        }
    }
}

/// Whether every technique, added both to the whole deck and to the part
/// being built, stays within `isize`.
pub open spec fn cached_fit(techs: Seq<ShuffleTech>, n: int) -> bool {
    &&& techs_fit(techs, n)
    &&& forall|k: int| 0 <= k < techs.len() ==> #[trigger] combine_ok(cached_state(techs.take(k), n).1, techs[k], n)
}

/// Whether the deck puts some card at place `t`.
pub open spec fn has_card_for(deck: DeckShuffle, t: int) -> bool {
    exists|x: int| 0 <= x < deck.cards_n_spec() && #[trigger] deck.map_spec(x) == t
}

/// Where the decks, one after the other, put the card from place `x`.
pub open spec fn chain(ds: Seq<DeckShuffle>, x: int) -> int
    decreases ds.len(),
{
    if ds.len() == 0 {
        x
    } else {
        ds.last().map_spec(chain(ds.drop_last(), x))
    }
}

/// A run of techniques kept both as one deck and as parts whose factors stay
/// small, with the places each part sends into the residues of its factor
/// remembered once found.
pub struct CachedDeckShuffle {
    cards_n: usize,
    decks: Vec<DeckShuffle>,
    total_deck: DeckShuffle,
    map_to_cache: Vec<Vec<Option<usize>>>,
}

impl CachedDeckShuffle {
    pub closed spec fn cards_n_spec(&self) -> usize {
        self.cards_n
    }

    /// The parts, in order.
    pub closed spec fn decks_spec(&self) -> Seq<DeckShuffle> {
        self.decks@
    }

    /// The whole run as one deck.
    pub closed spec fn total_spec(&self) -> DeckShuffle {
        self.total_deck
    }

    /// Where the whole run puts the card from place `x`.
    pub open spec fn map_spec(&self, x: int) -> int {
        self.total_spec().map_spec(x)
    }

    /// The parts compose to the whole run, each part's factor is not
    /// `isize::MIN`, and what is remembered is right.
    pub closed spec fn wf(&self) -> bool {
        &&& self.decks.len() == self.map_to_cache.len()
        &&& self.decks.len() >= 1
        &&& self.total_deck.cards_n_spec() == self.cards_n
        &&& forall|d: int| 0 <= d < self.decks.len() ==> {
            let deck = #[trigger] self.decks@[d];
            &&& deck.cards_n_spec() == self.cards_n
            &&& deck.factor_spec() != isize::MIN
            &&& self.map_to_cache@[d]@.len() == abs_int(deck.factor_spec() as int)
            &&& (self.cards_n > 0 ==> abs_int(deck.factor_spec() as int) <= self.cards_n)
        }
        &&& forall|d: int, i: int| 0 <= d < self.decks.len() && 0 <= i < self.map_to_cache@[d]@.len()
            ==> (#[trigger] self.map_to_cache@[d]@[i] matches Some(s) ==> s < self.cards_n
                && self.decks@[d].map_spec(s as int) == i)
        &&& self.cards_n > 0 ==> forall|x: int| 0 <= x < self.cards_n ==> #[trigger] self.total_deck.map_spec(x) == chain(self.decks@, x)
    }

    /// Whether every part can be run backwards: its factor is not zero, every
    /// place has a card that it sends there, and the places less its constant
    /// stay within `isize`.
    pub open spec fn rev_ok(&self) -> bool {
        &&& 0 < self.cards_n_spec() <= isize::MAX
        &&& forall|d: int| 0 <= d < self.decks_spec().len() ==> {
            let deck = #[trigger] self.decks_spec()[d];
            &&& deck.factor_spec() != 0
            &&& deck.constant_spec() >= self.cards_n_spec() - isize::MAX
            &&& forall|t: int| 0 <= t < self.cards_n_spec() ==> #[trigger] has_card_for(deck, t)
        }
    }

    /// Whether the deck size is positive and within `isize`, and every part
    /// has a factor other than zero and prime to the deck size, and a
    /// constant no lower than the deck size less `isize::MAX`.
    pub open spec fn rev_cond(&self) -> bool {
        &&& 0 < self.cards_n_spec() <= isize::MAX
        &&& forall|d: int| 0 <= d < self.decks_spec().len() ==> {
            let deck = #[trigger] self.decks_spec()[d];
            &&& deck.factor_spec() != 0
            &&& deck.constant_spec() >= self.cards_n_spec() - isize::MAX
            &&& gcd(abs_int(deck.factor_spec() as int) as nat, self.cards_n_spec() as nat) == 1
        }
    }

    /// Where every part's factor is prime to the deck size, every part can
    /// be run backwards.
    pub proof fn lemma_rev_cond(&self)
        requires
            self.wf(),
            self.rev_cond(),
        ensures
            self.rev_ok(),
    {
        assert forall|d: int| 0 <= d < self.decks_spec().len() implies {
            let deck = #[trigger] self.decks_spec()[d];
            &&& deck.factor_spec() != 0
            &&& deck.constant_spec() >= self.cards_n_spec() - isize::MAX
            &&& forall|t: int| 0 <= t < self.cards_n_spec() ==> #[trigger] has_card_for(deck, t)
        } by {
            let deck = self.decks_spec()[d];
            assert(deck.cards_n_spec() == self.cards_n_spec());
            assert forall|t: int| 0 <= t < self.cards_n_spec() implies #[trigger] has_card_for(deck, t) by {
                lemma_coprime_onto(deck.factor_spec() as int, deck.constant_spec() as int, self.cards_n_spec() as int, t);
                let x = choose|x: int| 0 <= x < self.cards_n_spec() && #[trigger] affine_map(
                    deck.factor_spec() as int, deck.constant_spec() as int, self.cards_n_spec() as int, x) == t;
                assert(deck.map_spec(x) == t);
            }
        }
    }

    /// Whether `rev_map` can be used, tested part by part.
    pub fn rev_ready(&self) -> (res: bool)
        requires
            self.wf(),
        ensures
            res == self.rev_cond(),
            res ==> self.rev_ok(),
    {
        let n = self.cards_n;
        if n == 0 || n > isize::MAX as usize {
            return false;
        }
        let mut d: usize = 0;
        while d < self.decks.len()
            invariant
                self.wf(),
                n == self.cards_n,
                0 < n <= isize::MAX,
                d <= self.decks.len(),
                forall|k: int| 0 <= k < d ==> {
                    let deck = #[trigger] self.decks_spec()[k];
                    &&& deck.factor_spec() != 0
                    &&& deck.constant_spec() >= self.cards_n_spec() - isize::MAX
                    &&& gcd(abs_int(deck.factor_spec() as int) as nat, self.cards_n_spec() as nat) == 1
                },
            decreases self.decks.len() - d,
        {
            let deck = self.decks[d];
            proof {
                assert(deck == self.decks_spec()[d as int]);
            }
            let f = deck.ind_factor();
            let c = deck.constant();
            let fa: u128 = if f < 0 { (-(f as i128)) as u128 } else { f as u128 };
            if f == 0 || (c as i128) < (n as i128) - (isize::MAX as i128) || gcd_u128(fa, n as u128) != 1 {
                return false;
            }
            d = d + 1;
        }
        proof {
            self.lemma_rev_cond();
        }
        true
    }

    /// The techniques over a deck of `cards_n` cards, kept whole and in parts.
    pub fn new(techs: &Vec<ShuffleTech>, cards_n: usize) -> (res: Self)
        requires
            cached_fit(techs@, cards_n as int),
        ensures
            res.wf(),
            res.rev_cond() ==> res.rev_ok(),
            res.cards_n_spec() == cards_n,
            res.total_spec().cards_n_spec() == cards_n,
            (res.total_spec().factor_spec() as int, res.total_spec().constant_spec() as int) == deck_after(techs@, cards_n as int),
            res.decks_spec().len() == cached_state(techs@, cards_n as int).0.len() + 1,
    {
        let mut cur_deck = DeckShuffle::ident(cards_n);
        let mut total_deck = DeckShuffle::ident(cards_n);
        let mut decks: Vec<DeckShuffle> = Vec::new();
        let mut map_to_cache: Vec<Vec<Option<usize>>> = Vec::new();
        let mut i: usize = 0;
        while i < techs.len()
            invariant
                i <= techs.len(),
                cached_fit(techs@, cards_n as int),
                total_deck.cards_n_spec() == cards_n,
                cur_deck.cards_n_spec() == cards_n,
                (total_deck.factor_spec() as int, total_deck.constant_spec() as int) == deck_after(techs@.take(i as int), cards_n as int),
                (cur_deck.factor_spec() as int, cur_deck.constant_spec() as int) == cached_state(techs@.take(i as int), cards_n as int).1,
                decks.len() == cached_state(techs@.take(i as int), cards_n as int).0.len(),
                decks.len() == map_to_cache.len(),
                cur_deck.factor_spec() != isize::MIN,
                cards_n > 0 ==> abs_int(cur_deck.factor_spec() as int) <= cards_n,
                forall|d: int| 0 <= d < decks.len() ==> {
                    let deck = #[trigger] decks@[d];
                    &&& deck.cards_n_spec() == cards_n
                    &&& deck.factor_spec() != isize::MIN
                    &&& map_to_cache@[d]@.len() == abs_int(deck.factor_spec() as int)
                    &&& (cards_n > 0 ==> abs_int(deck.factor_spec() as int) <= cards_n)
                },
                forall|d: int, j: int| 0 <= d < decks.len() && 0 <= j < map_to_cache@[d]@.len()
                    ==> #[trigger] map_to_cache@[d]@[j] is None,
                cards_n > 0 ==> forall|x: int| 0 <= x < cards_n ==> #[trigger] total_deck.map_spec(x) == cur_deck.map_spec(chain(decks@, x)),
                cards_n > 0 ==> forall|x: int| 0 <= x < cards_n ==> 0 <= #[trigger] chain(decks@, x) < cards_n,
            decreases techs.len() - i,
        {
            let ghost old_total = total_deck;
            let ghost old_cur = cur_deck;
            proof {
                assert(techs@.take(i + 1).drop_last() =~= techs@.take(i as int));
                assert(techs@.take(i + 1).last() == techs@[i as int]);
                assert(combine_ok(deck_after(techs@.take(i as int), cards_n as int), techs@[i as int], cards_n as int));
                assert(combine_ok(cached_state(techs@.take(i as int), cards_n as int).1, techs@[i as int], cards_n as int));
            }
            cur_deck.combine(&techs[i]);
            total_deck.combine(&techs[i]);
            proof {
                lemma_factor_after_combine(old_cur, techs@[i as int], cur_deck);
                if cards_n > 0 {
                    assert forall|x: int| 0 <= x < cards_n implies #[trigger] total_deck.map_spec(x) == cur_deck.map_spec(chain(decks@, x)) by {
                        let y = chain(decks@, x);
                        assert(old_total.map_spec(x) == old_cur.map_spec(y));
                        lemma_combine_composes((old_total.factor_spec() as int, old_total.constant_spec() as int), techs@[i as int], cards_n as int, x);
                        lemma_combine_composes((old_cur.factor_spec() as int, old_cur.constant_spec() as int), techs@[i as int], cards_n as int, y);
                    }
                }
            }
            let f = cur_deck.ind_factor();
            let fa: usize = if f < 0 { (-f) as usize } else { f as usize };
            if f > FACTOR_LIMIT || f < -FACTOR_LIMIT {
                let mut cache: Vec<Option<usize>> = Vec::new();
                let mut j: usize = 0;
                while j < fa
                    invariant
                        j <= fa,
                        cache@.len() == j,
                        forall|k: int| 0 <= k < j ==> #[trigger] cache@[k] is None,
                    decreases fa - j,
                {
                    cache.push(None);
                    j = j + 1;
                }
                let ghost old_decks = decks@;
                decks.push(cur_deck);
                map_to_cache.push(cache);
                cur_deck = DeckShuffle::ident(cards_n);
                proof {
                    assert(decks@.drop_last() =~= old_decks);
                    if cards_n > 0 {
                        assert forall|x: int| 0 <= x < cards_n implies #[trigger] total_deck.map_spec(x) == cur_deck.map_spec(chain(decks@, x)) by {
                            let y = chain(decks@, x);
                            assert(chain(decks@, x) == decks@.last().map_spec(chain(old_decks, x)));
                            lemma_map_in_range(decks@.last(), chain(old_decks, x));
                            lemma_ident_map(cards_n as int, y);
                        }
                        assert forall|x: int| 0 <= x < cards_n implies 0 <= #[trigger] chain(decks@, x) < cards_n by {
                            lemma_map_in_range(decks@.last(), chain(old_decks, x));
                        }
                    }
                    assert forall|d: int, j2: int| 0 <= d < decks.len() && 0 <= j2 < map_to_cache@[d]@.len()
                        implies #[trigger] map_to_cache@[d]@[j2] is None by {
                        if d < decks.len() - 1 {
                            assert(map_to_cache@[d] == map_to_cache@.drop_last()[d]);
                        }
                    }
                }
            }
            i = i + 1;
        }
        let mut cache: Vec<Option<usize>> = Vec::new();
        let f = cur_deck.ind_factor();
        let fa: usize = if f < 0 { (-f) as usize } else { f as usize };
        let mut j: usize = 0;
        while j < fa
            invariant
                j <= fa,
                cache@.len() == j,
                forall|k: int| 0 <= k < j ==> #[trigger] cache@[k] is None,
            decreases fa - j,
        {
            cache.push(None);
            j = j + 1;
        }
        let ghost old_decks = decks@;
        decks.push(cur_deck);
        map_to_cache.push(cache);
        let res = CachedDeckShuffle { cards_n, decks, total_deck, map_to_cache };
        proof {
            assert(techs@.take(techs.len() as int) =~= techs@);
            assert(res.decks@.drop_last() =~= old_decks);
            if cards_n > 0 {
                assert forall|x: int| 0 <= x < cards_n implies #[trigger] res.total_deck.map_spec(x) == chain(res.decks@, x) by {
                    assert(chain(res.decks@, x) == cur_deck.map_spec(chain(old_decks, x)));
                }
            }
            assert forall|d: int, j2: int| 0 <= d < res.decks.len() && 0 <= j2 < res.map_to_cache@[d]@.len()
                implies (#[trigger] res.map_to_cache@[d]@[j2] matches Some(s) ==> s < res.cards_n
                && res.decks@[d].map_spec(s as int) == j2) by {
                if d < res.decks.len() - 1 {
                    assert(res.map_to_cache@[d] == res.map_to_cache@.drop_last()[d]);
                }
            }
            if res.rev_cond() {
                res.lemma_rev_cond();
            }
        }
        res
    }

    /// Where the whole run puts the card from place `ind`.
    pub fn map(&self, ind: usize) -> (res: usize)
        requires
            ind < self.cards_n_spec(),
            self.wf(),
        ensures
            res == self.map_spec(ind as int),
    {
        self.total_deck.map(ind)
    }

    /// A place whose card the whole run puts at `target_ind`, found part by
    /// part from the last, each part reading the place for the residue of
    /// the target modulo its factor from what it remembers, or finding and
    /// remembering it.
    pub fn rev_map(&mut self, target_ind: usize) -> (res: usize)
        requires
            old(self).wf(),
            old(self).rev_ok(),
            target_ind < old(self).cards_n_spec(),
        ensures
            final(self).wf(),
            final(self).rev_ok(),
            final(self).cards_n_spec() == old(self).cards_n_spec(),
            final(self).decks_spec() == old(self).decks_spec(),
            final(self).total_spec() == old(self).total_spec(),
            res < final(self).cards_n_spec(),
            final(self).map_spec(res as int) == target_ind,
    {
        let n = self.cards_n;
        let mut cur_ind = target_ind;
        let mut d = self.decks.len();
        proof {
            assert(self.decks@.take(d as int) =~= self.decks@);
        }
        while d > 0
            invariant
                self.wf(),
                self.rev_ok(),
                n == self.cards_n,
                self.cards_n == old(self).cards_n,
                self.decks@ == old(self).decks@,
                self.total_deck == old(self).total_deck,
                d <= self.decks.len(),
                cur_ind < n,
                forall|y: int| 0 <= y < n && #[trigger] chain(self.decks@.take(d as int), y) == cur_ind
                    ==> chain(self.decks@, y) == target_ind,
            decreases d,
        {
            d = d - 1;
            let deck = self.decks[d];
            proof {
                assert(self.decks@[d as int] == deck);
                assert(deck == self.decks_spec()[d as int]);
            }
            let f = deck.ind_factor();
            let fa: usize = if f < 0 { (-f) as usize } else { f as usize };
            let cache_ind = cur_ind % fa;
            let offset = cur_ind / fa;
            let cached = self.map_to_cache[d][cache_ind];
            let start = match cached {
                Some(s) => s,
                None => {
                    proof {
                        assert(has_card_for(deck, cache_ind as int));
                    }
                    let s = deck.rev_map(cache_ind);
                    let ghost old_caches = self.map_to_cache@;
                    let mut row = self.map_to_cache[d].clone();
                    proof {
                        assert(row@ =~= old_caches[d as int]@);
                    }
                    row.set(cache_ind, Some(s));
                    self.map_to_cache.set(d, row);
                    proof {
                        assert forall|d2: int, i2: int| 0 <= d2 < self.decks.len() && 0 <= i2 < self.map_to_cache@[d2]@.len()
                            implies (#[trigger] self.map_to_cache@[d2]@[i2] matches Some(s2) ==> s2 < self.cards_n
                            && self.decks@[d2].map_spec(s2 as int) == i2) by {
                            if d2 != d {
                                assert(self.map_to_cache@[d2] == old_caches[d2]);
                            }
                        }
                        assert forall|d2: int| 0 <= d2 < self.decks.len() implies {
                            let deck2 = #[trigger] self.decks@[d2];
                            &&& deck2.cards_n_spec() == self.cards_n
                            &&& deck2.factor_spec() != isize::MIN
                            &&& self.map_to_cache@[d2]@.len() == abs_int(deck2.factor_spec() as int)
                            &&& (self.cards_n > 0 ==> abs_int(deck2.factor_spec() as int) <= self.cards_n)
                        } by {
                            if d2 != d {
                                assert(self.map_to_cache@[d2] == old_caches[d2]);
                            }
                        }
                    }
                    s
                },
            };
            let prev = if f > 0 {
                if offset + start >= n {
                    offset + start - n
                } else {
                    offset + start
                }
            } else {
                if start < offset {
                    n - offset + start
                } else {
                    start - offset
                }
            };
            proof {
                lemma_rev_step(deck, n as int, cur_ind as int, start as int, prev as int);
                let ds = self.decks@;
                assert(ds.take(d + 1).drop_last() =~= ds.take(d as int));
                assert(ds.take(d + 1).last() == deck);
                assert forall|y: int| 0 <= y < n && #[trigger] chain(ds.take(d as int), y) == prev
                    implies chain(ds, y) == target_ind by {
                    assert(chain(ds.take(d + 1), y) == deck.map_spec(prev as int));
                }
            }
            cur_ind = prev;
        }
        proof {
            assert(self.decks@.take(0) =~= Seq::<DeckShuffle>::empty());
            assert(chain(self.decks@.take(0), cur_ind as int) == cur_ind);
        }
        cur_ind
    }
}

/// Adding a technique keeps the factor away from `isize::MIN`, and within
/// the number of cards once a deal with increment has reduced it.
proof fn lemma_factor_after_combine(old_deck: DeckShuffle, st: ShuffleTech, new_deck: DeckShuffle)
    requires
        old_deck.factor_spec() != isize::MIN,
        old_deck.cards_n_spec() > 0 ==> abs_int(old_deck.factor_spec() as int) <= old_deck.cards_n_spec(),
        combine_ok((old_deck.factor_spec() as int, old_deck.constant_spec() as int), st, old_deck.cards_n_spec() as int),
        new_deck.cards_n_spec() == old_deck.cards_n_spec(),
        (new_deck.factor_spec() as int, new_deck.constant_spec() as int) == combine_spec(
            (old_deck.factor_spec() as int, old_deck.constant_spec() as int), st, old_deck.cards_n_spec() as int),
    ensures
        new_deck.factor_spec() != isize::MIN,
        new_deck.cards_n_spec() > 0 ==> abs_int(new_deck.factor_spec() as int) <= new_deck.cards_n_spec(),
{
    match st {
        ShuffleTech::Increment(u) => {
            lemma_trunc_rem(old_deck.factor_spec() * u, old_deck.cards_n_spec() as int);
        },
        _ => {},
    }
}

/// A deck puts every card within the deck.
proof fn lemma_map_in_range(deck: DeckShuffle, x: int)
    requires
        deck.cards_n_spec() > 0,
    ensures
        0 <= deck.map_spec(x) < deck.cards_n_spec(),
{
}

/// The deck that leaves every card in its place.
proof fn lemma_ident_map(n: int, y: int)
    requires
        0 <= y < n,
    ensures
        affine_map(1, 0, n, y) == y,
{
    assert(1 * y + 0 == y);
    vstd::arithmetic::div_mod::lemma_small_mod(y as nat, n as nat);
}

/// One step of running a part backwards: from the place `start` that the
/// part sends to `cur mod |f|`, the place `prev` found from `cur / |f|` is
/// sent to `cur`.
proof fn lemma_rev_step(deck: DeckShuffle, n: int, cur: int, start: int, prev: int)
    requires
        n == deck.cards_n_spec(),
        0 < n,
        deck.factor_spec() != 0,
        0 <= cur < n,
        0 <= start < n,
        deck.map_spec(start) == cur % abs_int(deck.factor_spec() as int),
        deck.factor_spec() > 0 ==> (prev == start + cur / abs_int(deck.factor_spec() as int)
            || prev == start + cur / abs_int(deck.factor_spec() as int) - n),
        deck.factor_spec() < 0 ==> (prev == start - cur / abs_int(deck.factor_spec() as int)
            || prev == start - cur / abs_int(deck.factor_spec() as int) + n),
    ensures
        deck.map_spec(prev) == cur,
{
    let f = deck.factor_spec() as int;
    let c = deck.constant_spec() as int;
    let fa = abs_int(f);
    let off = cur / fa;
    let ci = cur % fa;
    lemma_fundamental_div_mod(cur, fa);
    lemma_fundamental_div_mod(f * start + c, n);
    let q = (f * start + c) / n;
    let b: int = if f > 0 {
        if prev == start + off { 0 } else { 1 }
    } else {
        if prev == start - off { 0 } else { -1 }
    };
    if f > 0 {
        assert(f * prev + c == cur + (q - f * b) * n) by (nonlinear_arith)
            requires
                prev == start + off - b * n,
                f * start + c == n * q + ci,
                cur == fa * off + ci,
                fa == f,
        ;
    } else {
        assert(f * prev + c == cur + (q - f * b) * n) by (nonlinear_arith)
            requires
                prev == start - off - b * n,
                f * start + c == n * q + ci,
                cur == fa * off + ci,
                fa == -f,
        ;
    }
    let k = q - f * b;
    lemma_mod_shift(f * prev + c, cur, k, n);
    vstd::arithmetic::div_mod::lemma_small_mod(cur as nat, n as nat);
}

} // verus!
