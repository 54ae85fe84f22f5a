//! A flawed frequency transmission: each phase replaces every digit of a
//! signal by the last digit of a sum of the digits weighted by a repeating
//! pattern of 0, 1, 0, -1, each element repeated once more for each later
//! place.  Digits from a place on depend only on digits from that place on,
//! so a part of a long signal can be transformed alone.

use vstd::prelude::*;

verus! {

/// What went wrong while transforming a signal.
#[derive(Debug)]
pub enum Error {
    EmptyInput(String),
    InvalidInputChar(char),
    /// (length given, length expected).
    WrongSignalLen(usize, usize),
    /// (place asked for, first place kept, length of the signal).
    ParitalNotInclude(usize, usize, usize),
}

/// The weight of the digit at place `j` in the sum for place `i`.
pub open spec fn coef(i: int, j: int) -> int {
    let q = (j + 1) / (i + 1);
    if q % 4 == 1 {
        1
    } else if q % 4 == 3 {
        -1
    } else {
        0
    }
}

/// The digits of `s` (kept from place `off` on) with weight `v` for place
/// `i`, added up over the places `off..p`.
pub open spec fn weighted(i: int, off: int, s: Seq<u32>, v: int, p: int) -> int
    decreases p - off,
{
    if p <= off {
        0
    } else {
        weighted(i, off, s, v, p - 1) + if coef(i, p - 1) == v {
            s[p - 1 - off] as int
        } else {
            0
        }
    }
}

/// The digit for place `i` after one phase, of the signal `s` kept from
/// place `off` on.
pub open spec fn fft_digit(i: int, off: int, s: Seq<u32>) -> int {
    let end = off + s.len();
    let sum = weighted(i, off, s, 1, end) - weighted(i, off, s, -1, end);
    (if sum < 0 { -sum } else { sum }) % 10
}

/// One phase of the signal `s` kept from place `off` on.
pub open spec fn phase(off: int, s: Seq<u32>) -> Seq<u32> {
    Seq::new(s.len(), |k: int| fft_digit(off + k, off, s) as u32)
}

/// `n` phases of the signal `s` kept from place `off` on.
pub open spec fn phases(off: int, s: Seq<u32>, n: nat) -> Seq<u32>
    decreases n,
{
    if n == 0 {
        s
    } else {
        phase(off, phases(off, s, (n - 1) as nat))
    }
}

/// Whether every element is a digit.
pub open spec fn digits(s: Seq<u32>) -> bool {
    forall|k: int| 0 <= k < s.len() ==> #[trigger] s[k] < 10
}

/// Whether the sums for a signal of length `end` fit.
pub open spec fn fits(end: int) -> bool {
    &&& 9 * end <= i32::MAX
    &&& 8 * end + 8 <= usize::MAX
}

/// The places produced one after another: windows of `wnd_width` places
/// every `cycle_width` places from `offset` on, up to `end`.
#[derive(Debug)]
pub struct OffsetWndIndexIter {
    offset: usize,
    wnd_width: usize,
    cycle_width: usize,
    end: usize,
    wnd_ind: usize,
    cycle_ind: usize,
}

impl OffsetWndIndexIter {
    pub fn new(offset: usize, wnd_width: usize, cycle_width: usize, end: usize) -> (res: Self)
        ensures
            res.next_spec() == offset,
            res.params() == (offset, wnd_width, cycle_width, end),
            res.wnd() == 0,
    {
        OffsetWndIndexIter { offset, wnd_width, cycle_width, end, wnd_ind: 0, cycle_ind: 0 }
    }

    /// The place the next call looks at.
    pub closed spec fn next_spec(&self) -> int {
        self.offset + self.cycle_width * self.cycle_ind + self.wnd_ind
    }

    pub closed spec fn params(&self) -> (usize, usize, usize, usize) {
        (self.offset, self.wnd_width, self.cycle_width, self.end)
    }

    /// The place within the window.
    pub closed spec fn wnd(&self) -> int {
        self.wnd_ind as int
    }

    /// The next place, if it is before `end`.
    pub fn next(&mut self) -> (res: Option<usize>)
        requires
            old(self).next_spec() <= usize::MAX,
            old(self).next_spec() + old(self).params().2 <= usize::MAX,
            old(self).params().1 <= old(self).params().2,
            old(self).wnd() < old(self).params().1,
        ensures
            res == (if old(self).next_spec() < old(self).params().3 {
                Some(old(self).next_spec() as usize)
            } else {
                None
            }),
            final(self).params() == old(self).params(),
            old(self).wnd() + 1 < old(self).params().1 ==> final(self).next_spec() == old(self).next_spec() + 1
                && final(self).wnd() == old(self).wnd() + 1,
            old(self).wnd() + 1 >= old(self).params().1 ==> final(self).next_spec() == old(self).next_spec()
                - old(self).wnd() + old(self).params().2 && final(self).wnd() == 0,
    {
        let ind = self.offset + self.cycle_width * self.cycle_ind + self.wnd_ind;
        if self.wnd_ind + 1 < self.wnd_width {
            self.wnd_ind = self.wnd_ind + 1;
        } else {
            proof {
                assert(self.cycle_width * (self.cycle_ind + 1) == self.cycle_width * self.cycle_ind + self.cycle_width)
                    by (nonlinear_arith);
                assert(self.cycle_ind + 1 <= self.cycle_width * (self.cycle_ind + 1)) by (nonlinear_arith)
                    requires self.cycle_width >= 1;
            }
            self.cycle_ind = self.cycle_ind + 1;
            self.wnd_ind = 0;
        }
        if ind < self.end {
            Some(ind)
        } else {
            None
        }
    }
}

/// The place of the pattern and the length of the signal: the pattern
/// for place `pat_ind` of a signal of `signal_len` digits.
#[derive(Debug)]
pub struct Pattern {
    pat_ind: usize,
    signal_len: usize,
}

impl Pattern {
    pub fn new(pat_ind: usize, signal_len: usize) -> (res: Self)
        ensures
            res.place() == pat_ind,
            res.len_spec() == signal_len,
    {
        Pattern { pat_ind, signal_len }
    }

    pub closed spec fn place(&self) -> int {
        self.pat_ind as int
    }

    pub closed spec fn len_spec(&self) -> int {
        self.signal_len as int
    }

    /// The places where the pattern is 1.
    pub fn one_ind_iter(&self) -> (res: OffsetWndIndexIter)
        requires
            self.place() < self.len_spec(),
            fits(self.len_spec()),
        ensures
            res.params() == (self.place() as usize, (self.place() + 1) as usize, ((self.place() + 1) * 4) as usize, self.len_spec() as usize),
            res.next_spec() == self.place(),
            res.wnd() == 0,
    {
        OffsetWndIndexIter::new(self.pat_ind, self.pat_ind + 1, (self.pat_ind + 1) * 4, self.signal_len)
    }

    /// The places where the pattern is -1.
    pub fn neg_one_ind_iter(&self) -> (res: OffsetWndIndexIter)
        requires
            self.place() < self.len_spec(),
            fits(self.len_spec()),
        ensures
            res.params() == ((self.place() + (self.place() + 1) * 2) as usize, (self.place() + 1) as usize, ((self.place() + 1) * 4) as usize, self.len_spec() as usize),
            res.next_spec() == self.place() + (self.place() + 1) * 2,
            res.wnd() == 0,
    {
        OffsetWndIndexIter::new(
            self.pat_ind + (self.pat_ind + 1) * 2,
            self.pat_ind + 1,
            (self.pat_ind + 1) * 4,
            self.signal_len,
        )
    }
}

/// `(k + 1) / (i + 1)` is `q` where `k + 1 == (i + 1) * q + r`.
proof fn lemma_quot(i: int, k: int, q: int, r: int)
    requires
        i >= 0,
        0 <= r < i + 1,
        k + 1 == (i + 1) * q + r,
    ensures
        (k + 1) / (i + 1) == q,
{
    assert((i + 1) * q == q * (i + 1)) by (nonlinear_arith);
    vstd::arithmetic::div_mod::lemma_fundamental_div_mod_converse(k + 1, i + 1, q, r);
}

/// `(4 * c + m) % 4 == m` for `0 <= m < 4`.
proof fn lemma_mod4(c: int, m: int)
    requires
        0 <= m < 4,
    ensures
        (4 * c + m) % 4 == m,
{
    vstd::arithmetic::div_mod::lemma_fundamental_div_mod_converse(4 * c + m, 4, c, m);
}

/// The weight of a place in a window of the pattern: 1 in the windows from
/// `i`, -1 in those from `3 * i + 2`.
proof fn lemma_coef_window(i: int, t: int, c: int, w: int, k: int)
    requires
        i >= 0,
        t == 0 || t == 1,
        c >= 0,
        0 <= w < i + 1,
        k == i + 2 * (i + 1) * t + 4 * (i + 1) * c + w,
    ensures
        coef(i, k) == (if t == 0 { 1int } else { -1int }),
{
    assert(k + 1 == (i + 1) * (4 * c + 2 * t + 1) + w) by (nonlinear_arith)
        requires k == i + 2 * (i + 1) * t + 4 * (i + 1) * c + w;
    lemma_quot(i, k, 4 * c + 2 * t + 1, w);
    lemma_mod4(c, 2 * t + 1);
}

/// The places between two windows have another weight.
proof fn lemma_coef_gap(i: int, t: int, c: int, k: int)
    requires
        i >= 0,
        t == 0 || t == 1,
        c >= 0,
        i + 2 * (i + 1) * t + 4 * (i + 1) * c + (i + 1) <= k < i + 2 * (i + 1) * t + 4 * (i + 1) * (c + 1),
    ensures
        coef(i, k) != (if t == 0 { 1int } else { -1int }),
{
    let d = i + 1;
    let q = (k + 1) / d;
    let r = (k + 1) % d;
    vstd::arithmetic::div_mod::lemma_fundamental_div_mod(k + 1, d);
    let lo = 4 * c + 2 * t + 2;
    assert(d * lo <= k + 1) by (nonlinear_arith)
        requires i + 2 * (i + 1) * t + 4 * (i + 1) * c + (i + 1) <= k, d == i + 1, lo == 4 * c + 2 * t + 2;
    assert(k + 1 < d * (lo + 3)) by (nonlinear_arith)
        requires k < i + 2 * (i + 1) * t + 4 * (i + 1) * (c + 1), d == i + 1, lo == 4 * c + 2 * t + 2;
    assert(lo <= q <= lo + 2) by (nonlinear_arith)
        requires k + 1 == d * q + r, 0 <= r < d, d * lo <= k + 1, k + 1 < d * (lo + 3), d > 0;
    let m = q - 4 * c;
    if m < 4 {
        lemma_mod4(c, m);
    } else {
        lemma_mod4(c + 1, m - 4);
        assert(q == 4 * (c + 1) + (m - 4));
    }
}

/// The places before the first window have another weight.
proof fn lemma_coef_before(i: int, t: int, k: int)
    requires
        i >= 0,
        t == 0 || t == 1,
        0 <= k < i + 2 * (i + 1) * t,
    ensures
        coef(i, k) != (if t == 0 { 1int } else { -1int }),
{
    let d = i + 1;
    if k < i {
        lemma_quot(i, k, 0, k + 1);
    } else {
        let q = (k + 1) / d;
        let r = (k + 1) % d;
        vstd::arithmetic::div_mod::lemma_fundamental_div_mod(k + 1, d);
        assert(q <= 2) by (nonlinear_arith)
            requires k + 1 == d * q + r, 0 <= r, k < i + 2 * (i + 1) * t, d == i + 1, t <= 1, d > 0;
        assert(q >= 0) by (nonlinear_arith)
            requires k + 1 == d * q + r, r < d, k >= 0, d > 0;
        lemma_mod4(0, q);
    }
}

/// Places whose weight is not `v` leave the sum as it is.
proof fn lemma_weighted_skip(i: int, off: int, s: Seq<u32>, v: int, a: int, b: int)
    requires
        off <= a <= b,
        forall|k: int| a <= k < b ==> coef(i, k) != v,
    ensures
        weighted(i, off, s, v, b) == weighted(i, off, s, v, a),
    decreases b - a,
{
    if a < b {
        lemma_weighted_skip(i, off, s, v, a, b - 1);
    }
}

/// The sum of digits over `off..p` is at most nine for each place.
proof fn lemma_weighted_bound(i: int, off: int, s: Seq<u32>, v: int, p: int)
    requires
        digits(s),
        off <= p <= off + s.len(),
    ensures
        0 <= weighted(i, off, s, v, p) <= 9 * (p - off),
    decreases p - off,
{
    if p > off {
        lemma_weighted_bound(i, off, s, v, p - 1);
        assert(s[p - 1 - off] < 10);
    }
}

/// The digits with weight `v` for place `i` in the windows that `it`
/// produces, added up; `t` is 0 for the windows of 1, 1 for those of -1.
fn sum_windows(it: &mut OffsetWndIndexIter, offset: usize, inputs: &Vec<u32>, i: usize, t: usize) -> (res: i32)
    requires
        t == 0 || t == 1,
        offset <= i < offset + inputs.len(),
        digits(inputs@),
        fits(offset + inputs.len()),
        old(it).params() == (
            (i + (i + 1) * 2 * t) as usize,
            (i + 1) as usize,
            ((i + 1) * 4) as usize,
            (offset + inputs.len()) as usize,
        ),
        old(it).next_spec() == i + (i + 1) * 2 * t,
        old(it).wnd() == 0,
    ensures
        res == weighted(
            i as int,
            offset as int,
            inputs@,
            if t == 0 { 1int } else { -1int },
            offset + inputs.len(),
        ),
{
    let ghost v: int = if t == 0 { 1int } else { -1int };
    let ghost end = offset + inputs.len();
    let ghost first = i + (i + 1) * 2 * t;
    let ghost cw = (i + 1) * 4;
    let ghost s = inputs@;
    let ghost mut c: int = 0;
    let mut sum: i32 = 0;
    proof {
        assert(2 * (i + 1) * t == (i + 1) * 2 * t) by (nonlinear_arith);
        assert forall|k: int| offset <= k < first implies coef(i as int, k) != v by {
            lemma_coef_before(i as int, t as int, k);
        }
        if first <= end {
            lemma_weighted_skip(i as int, offset as int, s, v, offset as int, first);
        } else {
            lemma_weighted_skip(i as int, offset as int, s, v, offset as int, end);
        }
        lemma_weighted_bound(i as int, offset as int, s, v, end);
        assert forall|p: int| offset <= p <= end implies 0 <= #[trigger] weighted(i as int, offset as int, s, v, p) <= 9 * (p - offset) by {
            lemma_weighted_bound(i as int, offset as int, s, v, p);
        }
        assert(first < end + cw) by (nonlinear_arith)
            requires first == i + 2 * (i + 1) * t, t <= 1, cw == (i + 1) * 4, i < end;
    }
    loop
        invariant
            t == 0 || t == 1,
            v == (if t == 0 { 1int } else { -1int }),
            s == inputs@,
            digits(s),
            fits(end),
            end == offset + s.len(),
            offset <= i < end,
            first == i + (i + 1) * 2 * t,
            first == i + 2 * (i + 1) * t,
            cw == (i + 1) * 4,
            it.params() == (first as usize, (i + 1) as usize, cw as usize, end as usize),
            c >= 0,
            0 <= it.wnd() < i + 1,
            it.next_spec() == first + cw * c + it.wnd(),
            it.next_spec() >= first,
            it.next_spec() < end + cw,
            sum == weighted(i as int, offset as int, s, v, if it.next_spec() < end { it.next_spec() } else { end }),
            0 <= weighted(i as int, offset as int, s, v, end) <= 9 * (end - offset),
            forall|p: int| offset <= p <= end ==> 0 <= #[trigger] weighted(i as int, offset as int, s, v, p) <= 9 * (p - offset),
        ensures
            sum == weighted(i as int, offset as int, s, v, end),
        decreases end + cw - it.next_spec() + (if it.next_spec() < end { cw } else { 0 }),
    {
        let ghost p = it.next_spec();
        let ghost w = it.wnd();
        proof {
            assert(p < end + cw || p >= end);
        }
        if it.next_spec_exec() >= it.end_exec() {
            break;
        }
        let r = it.next();
        match r {
            Some(j) => {
                proof {
                    lemma_coef_window(i as int, t as int, c, w, j as int);
                    lemma_weighted_bound(i as int, offset as int, s, v, j + 1);
                }
                sum = sum + (inputs[j - offset] as i32);
                proof {
                    assert(weighted(i as int, offset as int, s, v, j + 1) == weighted(i as int, offset as int, s, v, j as int)
                        + s[j - offset] as int);
                    if w + 1 >= i + 1 {
                        let nxt = it.next_spec();
                        assert(nxt == first + cw * (c + 1)) by (nonlinear_arith)
                            requires nxt == p - w + cw, p == first + cw * c + w;
                        assert forall|k: int| j + 1 <= k < nxt implies coef(i as int, k) != v by {
                            lemma_coef_gap(i as int, t as int, c, k);
                        }
                        if nxt < end {
                            lemma_weighted_skip(i as int, offset as int, s, v, j + 1, nxt);
                        } else {
                            lemma_weighted_skip(i as int, offset as int, s, v, j + 1, end);
                        }
                        c = c + 1;
                    }
                }
            },
            None => {
                proof {
                    assert(false);
                }
            },
        }
    }
    sum
}

impl OffsetWndIndexIter {
    fn next_spec_exec(&self) -> (res: usize)
        requires
            self.next_spec() <= usize::MAX,
        ensures
            res == self.next_spec(),
    {
        self.offset + self.cycle_width * self.cycle_ind + self.wnd_ind
    }

    fn end_exec(&self) -> (res: usize)
        ensures
            res == self.params().3,
    {
        self.end
    }
}

/// The digit for place `offset + input_ind` after one phase of the signal
/// `inputs`, kept from place `offset` on.
pub fn fft_elem(offset: usize, input_ind: usize, inputs: &Vec<u32>) -> (res: u32)
    requires
        input_ind < inputs.len(),
        digits(inputs@),
        fits(offset + inputs.len()),
    ensures
        res == fft_digit(offset + input_ind, offset as int, inputs@),
{
    let signal_len = offset + inputs.len();
    let i = input_ind + offset;
    let pattern = Pattern::new(i, signal_len);
    let mut ones = pattern.one_ind_iter();
    let one_sum = sum_windows(&mut ones, offset, inputs, i, 0);
    let mut negs = pattern.neg_one_ind_iter();
    let neg_sum = sum_windows(&mut negs, offset, inputs, i, 1);
    proof {
        lemma_weighted_bound(i as int, offset as int, inputs@, 1, offset + inputs.len());
        lemma_weighted_bound(i as int, offset as int, inputs@, -1, offset + inputs.len());
    }
    let diff = one_sum - neg_sum;
    let a = if diff < 0 { -diff } else { diff };
    (a % 10) as u32
}

/// The digits of `s` at the places `a..b`, added up.
pub open spec fn partial_sum(s: Seq<u32>, a: int, b: int) -> int
    decreases b - a,
{
    if b <= a {
        0
    } else {
        partial_sum(s, a, b - 1) + s[b - 1] as int
    }
}

proof fn lemma_partial_front(s: Seq<u32>, a: int, b: int)
    requires
        0 <= a < b <= s.len(),
    ensures
        partial_sum(s, a, b) == s[a] as int + partial_sum(s, a + 1, b),
    decreases b - a,
{
    if a + 1 < b {
        lemma_partial_front(s, a, b - 1);
        assert(partial_sum(s, a + 1, b) == partial_sum(s, a + 1, b - 1) + s[b - 1] as int);
    } else {
        assert(partial_sum(s, a, a) == 0);
        assert(partial_sum(s, a + 1, b) == 0);
    }
}

/// In the latter half of a signal every weight from a place on is 1, so a
/// digit is the last digit of the sum of the digits from its place on.
pub proof fn lemma_latter_half(off: int, s: Seq<u32>, k: int)
    requires
        off >= 0,
        off + 1 >= s.len(),
        0 <= k < s.len(),
        digits(s),
    ensures
        fft_digit(off + k, off, s) == partial_sum(s, k, s.len() as int) % 10,
{
    let i = off + k;
    let end = off + s.len();
    assert forall|j: int| off <= j < i implies coef(i, j) == 0 by {
        lemma_quot(i, j, 0, j + 1);
    }
    assert forall|j: int| i <= j < end implies coef(i, j) == 1 by {
        lemma_quot(i, j, 1, j - i);
        lemma_mod4(0, 1);
    }
    lemma_weighted_skip(i, off, s, 1, off, i);
    lemma_weighted_skip(i, off, s, -1, off, end);
    lemma_weighted_ones(i, off, s, k, end);
    lemma_partial_nonneg(s, k, s.len() as int);
}

proof fn lemma_weighted_ones(i: int, off: int, s: Seq<u32>, k: int, p: int)
    requires
        i == off + k,
        i <= p <= off + s.len(),
        off <= i,
        forall|j: int| off <= j < i ==> coef(i, j) == 0,
        forall|j: int| i <= j < off + s.len() ==> coef(i, j) == 1,
    ensures
        weighted(i, off, s, 1, p) == weighted(i, off, s, 1, i) + partial_sum(s, k, p - off),
    decreases p - i,
{
    if p > i {
        lemma_weighted_ones(i, off, s, k, p - 1);
    }
}

proof fn lemma_partial_nonneg(s: Seq<u32>, a: int, b: int)
    ensures
        partial_sum(s, a, b) >= 0,
    decreases b - a,
{
    if b > a {
        lemma_partial_nonneg(s, a, b - 1);
    }
}

/// One phase of the signal `inputs` (kept from place `offset` on) into
/// `outputs`; in the latter half of a signal the sums are taken from the
/// end backwards.
pub fn fft_phase(offset: usize, inputs: &Vec<u32>, outputs: &mut Vec<u32>)
    requires
        old(outputs).len() == inputs.len(),
        digits(inputs@),
        fits(offset + inputs.len()),
    ensures
        final(outputs)@ == phase(offset as int, inputs@),
        digits(final(outputs)@),
{
    let n = inputs.len();
    let ghost s = inputs@;
    if offset + 1 >= n {
        let mut i: usize = n;
        while i > 0
            invariant
                i <= n,
                n == s.len(),
                s == inputs@,
                outputs.len() == n,
                offset + 1 >= n,
                digits(s),
                forall|k: int| i <= k < n ==> #[trigger] outputs@[k] == partial_sum(s, k, n as int) % 10,
            decreases i,
        {
            i = i - 1;
            let next = if i + 1 < n { outputs[i + 1] } else { 0 };
            proof {
                lemma_partial_front(s, i as int, n as int);
                lemma_partial_nonneg(s, i + 1, n as int);
                if i + 1 < n {
                    vstd::arithmetic::div_mod::lemma_add_mod_noop(s[i as int] as int, partial_sum(s, i + 1, n as int), 10);
                    vstd::arithmetic::div_mod::lemma_small_mod(s[i as int] as nat, 10);
                } else {
                    assert(partial_sum(s, i + 1, n as int) == 0);
                }
            }
            outputs.set(i, (inputs[i] + next) % 10);
        }
        proof {
            assert forall|k: int| 0 <= k < n implies outputs@[k] == phase(offset as int, s)[k] by {
                lemma_latter_half(offset as int, s, k);
            }
            assert(outputs@ =~= phase(offset as int, s));
        }
        return;
    }
    let mut ind: usize = 0;
    while ind < n
        invariant
            ind <= n,
            n == s.len(),
            s == inputs@,
            outputs.len() == n,
            digits(s),
            fits(offset + n),
            forall|k: int| 0 <= k < ind ==> #[trigger] outputs@[k] == phase(offset as int, s)[k],
        decreases n - ind,
    {
        let d = fft_elem(offset, ind, inputs);
        outputs.set(ind, d);
        ind = ind + 1;
    }
    proof {
        assert(outputs@ =~= phase(offset as int, s));
    }
}

/// A signal transformed phase by phase, with room for the next phase.
#[derive(Debug)]
pub struct FullFFT {
    outputs: Vec<u32>,
}

impl FullFFT {
    pub fn new(signal_len: usize) -> (res: Self)
        ensures
            res.len_spec() == signal_len,
    {
        let mut outputs: Vec<u32> = Vec::new();
        let mut i: usize = 0;
        while i < signal_len
            invariant
                i <= signal_len,
                outputs.len() == i,
            decreases signal_len - i,
        {
            outputs.push(0);
            i = i + 1;
        }
        FullFFT { outputs }
    }

    pub closed spec fn len_spec(&self) -> nat {
        self.outputs@.len()
    }

    /// `phase_count` phases of `signal`, in place; `WrongSignalLen` where
    /// the signal is not as long as this transform was made for.
    pub fn process_n(&mut self, signal: &mut Vec<u32>, phase_count: usize) -> (res: Result<(), Error>)
        requires
            digits(old(signal)@),
            fits(old(signal).len() as int),
        ensures
            final(self).len_spec() == old(self).len_spec(),
            match res {
                Ok(_) => old(signal).len() == old(self).len_spec() && final(signal)@ == phases(0, old(signal)@, phase_count as nat),
                Err(Error::WrongSignalLen(given, expected)) => given == old(signal).len() && expected
                    == old(self).len_spec() && given != expected && final(signal)@ == old(signal)@,
                Err(_) => false,
            },
    {
        let signal_len = signal.len();
        let outputs_len = self.outputs.len();
        if signal_len != outputs_len {
            return Err(Error::WrongSignalLen(signal_len, outputs_len));
        }
        let ghost s0 = signal@;
        let mut p_ind: usize = 0;
        while p_ind < phase_count
            invariant
                p_ind <= phase_count,
                signal.len() == signal_len,
                self.outputs.len() == signal_len,
                fits(signal_len as int),
                p_ind % 2 == 0 ==> signal@ == phases(0, s0, p_ind as nat) && digits(signal@),
                p_ind % 2 == 1 ==> self.outputs@ == phases(0, s0, p_ind as nat) && digits(self.outputs@),
            decreases phase_count - p_ind,
        {
            if p_ind % 2 == 0 {
                fft_phase(0, signal, &mut self.outputs);
            } else {
                fft_phase(0, &self.outputs, signal);
            }
            p_ind = p_ind + 1;
        }
        if phase_count % 2 == 1 {
            let mut k: usize = 0;
            while k < signal_len
                invariant
                    k <= signal_len,
                    signal.len() == signal_len,
                    self.outputs.len() == signal_len,
                    forall|j: int| 0 <= j < k ==> signal@[j] == self.outputs@[j],
                decreases signal_len - k,
            {
                let d = self.outputs[k];
                signal.set(k, d);
                k = k + 1;
            }
            proof {
                assert(signal@ =~= self.outputs@);
            }
        }
        Ok(())
    }
}

/// Whether every character is an ASCII digit.
pub open spec fn all_digit_chars(s: Seq<char>) -> bool {
    forall|i: int| 0 <= i < s.len() ==> '0' <= #[trigger] s[i] <= '9'
}

/// The first character of `s` that is no digit.
pub open spec fn first_non_digit(s: Seq<char>) -> char {
    s[choose|i: int| 0 <= i < s.len() && !('0' <= #[trigger] s[i] <= '9') && forall|j: int| 0 <= j < i ==> '0' <= #[trigger] s[j] <= '9']
}

/// Reads a signal from a line of decimal digits; the first character that
/// is no digit is the error.
pub fn parse_signal(line: &str) -> (res: Result<Vec<u32>, Error>)
    ensures
        all_digit_chars(line@) ==> (res matches Ok(v) && v@ == Seq::new(line@.len(), |i: int| (line@[i] as u32 - '0' as u32) as u32)),
        !all_digit_chars(line@) ==> (res matches Err(Error::InvalidInputChar(c)) && c == first_non_digit(line@)),
{
    let n = line.unicode_len();
    let mut v: Vec<u32> = Vec::new();
    let mut k: usize = 0;
    while k < n
        invariant
            k <= n == line@.len(),
            forall|j: int| 0 <= j < k ==> '0' <= #[trigger] line@[j] <= '9',
            v@ == Seq::new(k as nat, |i: int| (line@[i] as u32 - '0' as u32) as u32),
        decreases n - k,
    {
        let c = line.get_char(k);
        if c < '0' || c > '9' {
            proof {
                let i0 = choose|i: int| 0 <= i < line@.len() && !('0' <= #[trigger] line@[i] <= '9') && forall|j: int| 0 <= j < i ==> '0' <= #[trigger] line@[j] <= '9';
                assert(!('0' <= line@[k as int] <= '9'));
                assert(i0 == k) by {
                    if i0 < k {
                        assert('0' <= line@[i0] <= '9');
                    } else if i0 > k {
                        assert('0' <= line@[k as int] <= '9');
                    }
                }
            }
            return Err(Error::InvalidInputChar(c));
        }
        v.push((c as u32) - ('0' as u32));
        k = k + 1;
        proof {
            assert(v@ =~= Seq::new(k as nat, |i: int| (line@[i] as u32 - '0' as u32) as u32));
        }
    }
    Ok(v)
}

/// A signal that can be read digit by digit.
pub trait Signal {
    /// The digits of the signal.
    spec fn signal_spec(&self) -> Seq<u32>;

    /// Whether the signal can be read.
    spec fn signal_ok(&self) -> bool;

    /// The number of digits.
    fn len(&self) -> (res: usize)
        requires
            self.signal_ok(),
        ensures
            res == self.signal_spec().len();

    /// The digit at `index`.
    fn get(&self, index: usize) -> (res: u32)
        requires
            self.signal_ok(),
            index < self.signal_spec().len(),
        ensures
            res == self.signal_spec()[index as int];
}

impl Signal for Vec<u32> {
    open spec fn signal_spec(&self) -> Seq<u32> {
        self@
    }

    open spec fn signal_ok(&self) -> bool {
        true
    }

    fn len(&self) -> (res: usize) {
        self.len()
    }

    fn get(&self, index: usize) -> (res: u32) {
        self[index]
    }
}

impl Signal for RepeatSignal {
    open spec fn signal_spec(&self) -> Seq<u32> {
        self.digits_spec()
    }

    open spec fn signal_ok(&self) -> bool {
        self.wf()
    }

    fn len(&self) -> (res: usize) {
        self.total_len
    }

    fn get(&self, index: usize) -> (res: u32) {
        self.signal_tem[index % self.signal_tem.len()]
    }
}

/// A signal that repeats a template: digit `k` is the template's digit
/// `k % len`.
#[derive(Debug)]
pub struct RepeatSignal {
    signal_tem: Vec<u32>,
    total_len: usize,
}

impl RepeatSignal {
    /// The template repeated `repeat_count` times.
    pub fn new(signal_tem: &Vec<u32>, repeat_count: usize) -> (res: Self)
        requires
            repeat_count * signal_tem.len() <= usize::MAX,
        ensures
            res.wf(),
            res.template() == signal_tem@,
            res.len_spec() == repeat_count * signal_tem.len(),
    {
        let mut tem: Vec<u32> = Vec::new();
        let mut i: usize = 0;
        while i < signal_tem.len()
            invariant
                i <= signal_tem.len(),
                tem@ == signal_tem@.take(i as int),
            decreases signal_tem.len() - i,
        {
            tem.push(signal_tem[i]);
            i = i + 1;
            proof {
                assert(tem@ =~= signal_tem@.take(i as int));
            }
        }
        proof {
            assert(signal_tem@.take(signal_tem.len() as int) =~= signal_tem@);
        }
        RepeatSignal { signal_tem: tem, total_len: repeat_count * signal_tem.len() }
    }

    pub closed spec fn template(&self) -> Seq<u32> {
        self.signal_tem@
    }

    pub closed spec fn len_spec(&self) -> int {
        self.total_len as int
    }

    /// Whether the length is a whole number of templates.
    pub closed spec fn wf(&self) -> bool {
        self.total_len > 0 ==> self.signal_tem.len() > 0
    }

    /// The digits of the whole signal.
    pub open spec fn digits_spec(&self) -> Seq<u32> {
        Seq::new(self.len_spec() as nat, |k: int| self.template()[k % self.template().len() as int])
    }

    pub fn len(&self) -> (res: usize)
        ensures
            res == self.len_spec(),
    {
        self.total_len
    }

    /// The digit at `index`.
    pub fn get(&self, index: usize) -> (res: u32)
        requires
            index < self.len_spec(),
            self.template().len() > 0,
        ensures
            res == self.digits_spec()[index as int],
    {
        self.signal_tem[index % self.signal_tem.len()]
    }

    /// Puts `value` at `index`, and so at every repeat of its place in the
    /// template.
    pub fn set(&mut self, index: usize, value: u32)
        requires
            index < old(self).len_spec(),
            old(self).template().len() > 0,
        ensures
            final(self).len_spec() == old(self).len_spec(),
            final(self).template() == old(self).template().update(index as int % old(self).template().len() as int, value),
    {
        let tem_len = self.signal_tem.len();
        self.signal_tem.set(index % tem_len, value);
    }
}

/// The digits of a signal from a place on, transformed phase by phase up to
/// the phase before the last; a digit of the last phase is worked out when
/// asked for.
pub struct PartialFFT {
    start_offset: usize,
    last_phase_signal: Vec<u32>,
    last_phase_ind: u32,
    phase_count: u32,
    init: Ghost<Seq<u32>>,
}

impl PartialFFT {
    pub closed spec fn offset_spec(&self) -> int {
        self.start_offset as int
    }

    /// The digits from the place on at the start.
    pub closed spec fn init_spec(&self) -> Seq<u32> {
        self.init@
    }

    pub closed spec fn count_spec(&self) -> nat {
        self.phase_count as nat
    }

    pub closed spec fn wf(&self) -> bool {
        &&& self.last_phase_ind < self.phase_count
        &&& (self.last_phase_ind == 0 || self.last_phase_ind == self.phase_count - 1)
        &&& self.last_phase_signal@ == phases(self.start_offset as int, self.init@, self.last_phase_ind as nat)
        &&& digits(self.init@)
        &&& digits(self.last_phase_signal@)
        &&& fits(self.start_offset + self.init@.len())
    }

    /// The digits of `init_signal` from `start_offset` on, to be put through
    /// `phase_count` phases.
    pub fn new<S: Signal>(start_offset: usize, init_signal: &S, phase_count: u32) -> (res: Self)
        requires
            init_signal.signal_ok(),
            start_offset <= init_signal.signal_spec().len(),
            digits(init_signal.signal_spec()),
            fits(init_signal.signal_spec().len() as int),
            phase_count >= 1,
        ensures
            res.wf(),
            res.offset_spec() == start_offset,
            res.count_spec() == phase_count,
            res.init_spec() == init_signal.signal_spec().subrange(start_offset as int, init_signal.signal_spec().len() as int),
    {
        let n = init_signal.len();
        let mut part: Vec<u32> = Vec::new();
        let mut k: usize = start_offset;
        while k < n
            invariant
                start_offset <= k <= n,
                n == init_signal.signal_spec().len(),
                init_signal.signal_ok(),
                part@ == init_signal.signal_spec().subrange(start_offset as int, k as int),
            decreases n - k,
        {
            let d = init_signal.get(k);
            part.push(d);
            k = k + 1;
            proof {
                assert(part@ =~= init_signal.signal_spec().subrange(start_offset as int, k as int));
            }
        }
        let ghost init = part@;
        proof {
            assert forall|j: int| 0 <= j < init.len() implies #[trigger] init[j] < 10 by {
                assert(init[j] == init_signal.signal_spec()[start_offset + j]);
            }
        }
        PartialFFT {
            start_offset,
            last_phase_signal: part,
            last_phase_ind: 0,
            phase_count,
            init: Ghost(init),
        }
    }

    /// The digit at place `ind` after all the phases; `ParitalNotInclude`
    /// where the place is not kept.
    pub fn nth_ele(&mut self, ind: usize) -> (res: Result<u32, Error>)
        requires
            old(self).wf(),
        ensures
            final(self).wf(),
            final(self).offset_spec() == old(self).offset_spec(),
            final(self).init_spec() == old(self).init_spec(),
            final(self).count_spec() == old(self).count_spec(),
            match res {
                Ok(d) => old(self).offset_spec() <= ind < old(self).offset_spec() + old(self).init_spec().len()
                    && d == phases(old(self).offset_spec(), old(self).init_spec(), old(self).count_spec())[ind
                    - old(self).offset_spec()],
                Err(Error::ParitalNotInclude(i, o, t)) => i == ind && o == old(self).offset_spec() && t
                    == old(self).offset_spec() + old(self).init_spec().len() && !(o <= i < t),
                Err(_) => false,
            },
    {
        if self.last_phase_ind != self.phase_count - 1 {
            self.proc_to_last_phase();
        }
        self.next_nth_elem(ind)
    }

    fn next_nth_elem(&self, ind: usize) -> (res: Result<u32, Error>)
        requires
            self.wf(),
            self.last_phase_ind == self.phase_count - 1,
        ensures
            match res {
                Ok(d) => self.offset_spec() <= ind < self.offset_spec() + self.init_spec().len() && d == phases(
                    self.offset_spec(),
                    self.init_spec(),
                    self.count_spec(),
                )[ind - self.offset_spec()],
                Err(Error::ParitalNotInclude(i, o, t)) => i == ind && o == self.offset_spec() && t
                    == self.offset_spec() + self.init_spec().len() && !(o <= i < t),
                Err(_) => false,
            },
    {
        proof {
            assert(self.last_phase_signal@.len() == self.init@.len()) by {
                lemma_phases_len(self.start_offset as int, self.init@, self.last_phase_ind as nat);
            }
        }
        let total_len = self.start_offset + self.last_phase_signal.len();
        if ind < self.start_offset || ind >= total_len {
            return Err(Error::ParitalNotInclude(ind, self.start_offset, total_len));
        }
        let d = fft_elem(self.start_offset, ind - self.start_offset, &self.last_phase_signal);
        proof {
            assert((self.phase_count - 1) as nat + 1 == self.phase_count as nat);
            assert(phases(self.start_offset as int, self.init@, self.phase_count as nat) == phase(
                self.start_offset as int,
                phases(self.start_offset as int, self.init@, (self.phase_count - 1) as nat),
            ));
        }
        Ok(d)
    }

    /// Puts the kept digits through the phases up to the one before the last.
    fn proc_to_last_phase(&mut self)
        requires
            old(self).wf(),
            old(self).last_phase_ind == 0,
        ensures
            final(self).wf(),
            final(self).last_phase_ind == final(self).phase_count - 1,
            final(self).start_offset == old(self).start_offset,
            final(self).phase_count == old(self).phase_count,
            final(self).init == old(self).init,
    {
        let mut partial_signal = copy_u32s(&self.last_phase_signal);
        proof {
            lemma_phases_len(self.start_offset as int, self.init@, self.last_phase_ind as nat);
        }
        while self.last_phase_ind < self.phase_count - 1
            invariant
                self.last_phase_ind < self.phase_count,
                digits(self.init@),
                fits(self.start_offset + self.init@.len()),
                self.start_offset == old(self).start_offset,
                self.phase_count == old(self).phase_count,
                self.init == old(self).init,
                partial_signal.len() == self.init@.len(),
                self.last_phase_signal.len() == self.init@.len(),
                self.last_phase_ind % 2 == 0 ==> self.last_phase_signal@ == phases(
                    self.start_offset as int,
                    self.init@,
                    self.last_phase_ind as nat,
                ) && digits(self.last_phase_signal@),
                self.last_phase_ind % 2 == 1 ==> partial_signal@ == phases(
                    self.start_offset as int,
                    self.init@,
                    self.last_phase_ind as nat,
                ) && digits(partial_signal@),
            decreases self.phase_count - self.last_phase_ind,
        {
            if self.last_phase_ind % 2 == 0 {
                fft_phase(self.start_offset, &self.last_phase_signal, &mut partial_signal);
            } else {
                fft_phase(self.start_offset, &partial_signal, &mut self.last_phase_signal);
            }
            self.last_phase_ind = self.last_phase_ind + 1;
        }
        if self.last_phase_ind % 2 == 1 {
            let n = partial_signal.len();
            let mut k: usize = 0;
            while k < n
                invariant
                    k <= n,
                    n == partial_signal.len(),
                    self.last_phase_signal.len() == n,
                    forall|j: int| 0 <= j < k ==> self.last_phase_signal@[j] == partial_signal@[j],
                    self.start_offset == old(self).start_offset,
                    self.phase_count == old(self).phase_count,
                    self.init == old(self).init,
                    self.last_phase_ind == self.phase_count - 1,
                decreases n - k,
            {
                let d = partial_signal[k];
                self.last_phase_signal.set(k, d);
                k = k + 1;
            }
            proof {
                assert(self.last_phase_signal@ =~= partial_signal@);
            }
        }
    }
}

proof fn lemma_phases_len(off: int, s: Seq<u32>, n: nat)
    ensures
        phases(off, s, n).len() == s.len(),
    decreases n,
{
    if n > 0 {
        lemma_phases_len(off, s, (n - 1) as nat);
    }
}

fn copy_u32s(v: &Vec<u32>) -> (res: Vec<u32>)
    ensures
        res@ == v@,
{
    let mut res: Vec<u32> = Vec::new();
    let mut i: usize = 0;
    while i < v.len()
        invariant
            i <= v.len(),
            res@ == v@.take(i as int),
        decreases v.len() - i,
    {
        res.push(v[i]);
        i = i + 1;
        proof {
            assert(res@ =~= v@.take(i as int));
        }
    }
    proof {
        assert(v@.take(v.len() as int) =~= v@);
    }
    res
}

} // verus!
