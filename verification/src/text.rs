//! Small helpers for reading puzzle lines: literal matching and turning a
//! list of characters into a string.

use vstd::prelude::*;

verus! {

/// Whether `lit` occurs in `s` at character place `i`.
pub open spec fn lit_at(s: Seq<char>, i: int, lit: Seq<char>) -> bool {
    0 <= i && i + lit.len() <= s.len() && s.subrange(i, i + lit.len()) == lit
}

/// Whether `lit` occurs in `s` at character place `i`.
pub fn matches_at(s: &str, i: usize, lit: &str) -> (res: bool)
    ensures
        res == lit_at(s@, i as int, lit@),
{
    let n = s.unicode_len();
    let m = lit.unicode_len();
    if i > n || m > n - i {
        return false;
    }
    let mut k: usize = 0;
    while k < m
        invariant
            k <= m,
            m == lit@.len(),
            n == s@.len(),
            i + m <= n,
            forall|j: int| 0 <= j < k ==> s@[i + j] == lit@[j],
        decreases m - k,
    {
        if s.get_char(i + k) != lit.get_char(k) {
            proof {
                assert(s@.subrange(i as int, i + m)[k as int] != lit@[k as int]);
            }
            return false;
        }
        k = k + 1;
    }
    proof {
        assert(s@.subrange(i as int, i + m) =~= lit@);
    }
    true
}

/// Whether two strings hold the same characters.
pub fn str_eq(a: &str, b: &str) -> (res: bool)
    ensures
        res == (a@ == b@),
{
    let n = a.unicode_len();
    if n != b.unicode_len() {
        return false;
    }
    let mut k: usize = 0;
    while k < n
        invariant
            k <= n,
            n == a@.len(),
            n == b@.len(),
            forall|j: int| 0 <= j < k ==> a@[j] == b@[j],
        decreases n - k,
    {
        if a.get_char(k) != b.get_char(k) {
            return false;
        }
        k = k + 1;
    }
    proof {
        assert(a@ =~= b@);
    }
    true
}

/// The string of the characters of `chars`, in order: std's `collect`
/// of a `char` iterator into a `String`, trusted to keep every character in
/// order.
#[verifier::external_body]
pub(crate) fn string_from_chars(chars: &Vec<char>) -> (res: String)
    ensures
        res@ == chars@,
{
    chars.iter().collect()
}

/// Whether every character of `s` is an ASCII digit, and there is one.
pub open spec fn all_digits(s: Seq<char>) -> bool {
    s.len() > 0 && forall|i: int| 0 <= i < s.len() ==> '0' <= #[trigger] s[i] <= '9'
}

/// The number that the ASCII digits `s` write in decimal.
pub open spec fn digits_value(s: Seq<char>) -> int
    decreases s.len(),
{
    if s.len() == 0 {
        0
    } else {
        digits_value(s.drop_last()) * 10 + (s.last() as int - '0' as int)
    }
}

/// The integer that `s` writes: decimal digits, with a `-` in front for a
/// negative number or a `+` for a positive one.
pub open spec fn int_value(s: Seq<char>) -> Option<int> {
    if all_digits(s) {
        Some(digits_value(s))
    } else if s.len() > 0 && s[0] == '-' && all_digits(s.drop_first()) {
        Some(-digits_value(s.drop_first()))
    } else if s.len() > 0 && s[0] == '+' && all_digits(s.drop_first()) {
        Some(digits_value(s.drop_first()))
    } else {
        None
    }
}

/// The integer that `s` writes, where it fits in `i128`.
pub fn parse_int(s: &str) -> (res: Option<i128>)
    ensures
        res == match int_value(s@) {
            Some(v) => if i128::MIN <= v <= i128::MAX {
                Some(v as i128)
            } else {
                None::<i128>
            },
            None => None::<i128>,
        },
{
    let n = s.unicode_len();
    if n == 0 {
        return None;
    }
    let neg = s.get_char(0) == '-';
    let plus = s.get_char(0) == '+';
    let start: usize = if neg || plus { 1 } else { 0 };
    if start >= n {
        proof {
            assert(!all_digits(s@));
            assert(!all_digits(s@.drop_first()));
        }
        return None;
    }
    let ghost body = s@.subrange(start as int, n as int);
    let mut v: u128 = 0;
    let mut k: usize = start;
    while k < n
        invariant
            start <= k <= n,
            n == s@.len(),
            start == (if neg || plus { 1usize } else { 0usize }),
            neg == (s@[0] == '-'),
            plus == (s@[0] == '+'),
            body == s@.subrange(start as int, n as int),
            forall|i: int| start <= i < k ==> '0' <= #[trigger] s@[i] <= '9',
            v == digits_value(s@.subrange(start as int, k as int)),
            v <= i128::MAX as u128 + 1,
        decreases n - k,
    {
        let c = s.get_char(k);
        if c < '0' || c > '9' {
            proof {
                assert(body[k - start] == c);
                assert(!all_digits(body));
                if neg || plus {
                    assert(s@.drop_first() =~= body);
                    assert(!all_digits(s@));
                } else {
                    assert(s@ =~= body);
                    assert(s@[0] != '-');
                }
            }
            return None;
        }
        let d = (c as u32 - '0' as u32) as u128;
        proof {
            assert(s@.subrange(start as int, k + 1).drop_last() =~= s@.subrange(start as int, k as int));
        }
        if v > (i128::MAX as u128 + 1 - d) / 10 {
            proof {
                assert(digits_value(s@.subrange(start as int, k + 1)) > i128::MAX as u128 + 1) by (nonlinear_arith)
                    requires
                        digits_value(s@.subrange(start as int, k + 1)) == v * 10 + d,
                        v > (i128::MAX as u128 + 1 - d) / 10,
                        d <= 9;
                finish_too_big(s@, neg || plus, start as int, n as int, k + 1);
            }
            return None;
        }
        v = v * 10 + d;
        k = k + 1;
    }
    proof {
        assert(s@.subrange(start as int, n as int) =~= body);
        if neg || plus {
            assert(s@.drop_first() =~= body);
        } else {
            assert(s@ =~= body);
        }
    }
    if neg {
        if v == i128::MAX as u128 + 1 {
            Some(i128::MIN)
        } else {
            Some(-(v as i128))
        }
    } else {
        if v > i128::MAX as u128 {
            proof {
                assert(s@[0] != '-');
                if plus {
                    assert(!all_digits(s@));
                }
            }
            None
        } else {
            Some(v as i128)
        }
    }
}

/// The unsigned integer that `s` writes: as `int_value`, but a `-` in
/// front is no sign.
pub open spec fn uint_value(s: Seq<char>) -> Option<int> {
    if s.len() > 0 && s[0] == '-' {
        None
    } else {
        int_value(s)
    }
}

/// The unsigned integer that `s` writes, where it is at most `hi`.
pub fn parse_uint(s: &str, hi: u64) -> (res: Option<u64>)
    ensures
        uint_value(s@) matches Some(v) ==> v >= 0,
        res == match uint_value(s@) {
            Some(v) => if v <= hi {
                Some(v as u64)
            } else {
                None::<u64>
            },
            None => None::<u64>,
        },
{
    if s.unicode_len() > 0 && s.get_char(0) == '-' {
        return None;
    }
    proof {
        if s@.len() > 0 && s@[0] == '-' {
        } else if all_digits(s@) {
            lemma_digits_nonneg(s@);
        } else if s@.len() > 0 && s@[0] == '+' && all_digits(s@.drop_first()) {
            lemma_digits_nonneg(s@.drop_first());
        }
    }
    match parse_int(s) {
        Some(v) => if 0 <= v && v <= hi as i128 {
            Some(v as u64)
        } else {
            None
        },
        None => None,
    }
}

/// Whether `c` has the Unicode property White_Space.
pub uninterp spec fn whitespace(c: char) -> bool;

/// std's `char::is_whitespace`: whether `c` has the Unicode property
/// White_Space.  Trusted to be a function of `c` alone, true of the space,
/// the tab, the line feed and the carriage return, and false of the ASCII
/// digits and of `,`, as the Unicode tables give.
#[verifier::external_body]
pub(crate) fn is_whitespace(c: char) -> (res: bool)
    ensures
        res == whitespace(c),
        (c == ' ' || c == '\t' || c == '\n' || c == '\r') ==> res,
        ('0' <= c <= '9' || c == ',') ==> !res,
{
    c.is_whitespace()
}

/// `s` without the white space at either end.
pub open spec fn trimmed(s: Seq<char>) -> Seq<char> {
    s.subrange(trim_start(s), trim_end(s))
}

/// The place of the first character of `s` that is no white space, or the
/// length.
pub open spec fn trim_start(s: Seq<char>) -> int {
    if exists|i: int| 0 <= i < s.len() && !whitespace(#[trigger] s[i]) {
        choose|i: int| 0 <= i < s.len() && !whitespace(#[trigger] s[i]) && forall|j: int| 0 <= j < i ==> whitespace(#[trigger] s[j])
    } else {
        s.len() as int
    }
}

/// One past the place of the last character of `s` that is no white space,
/// or where the first one is.
pub open spec fn trim_end(s: Seq<char>) -> int {
    if exists|i: int| 0 <= i < s.len() && !whitespace(#[trigger] s[i]) {
        1 + choose|i: int| 0 <= i < s.len() && !whitespace(#[trigger] s[i]) && forall|j: int| i < j < s.len() ==> whitespace(#[trigger] s[j])
    } else {
        s.len() as int
    }
}

/// std's `str::trim` written out: the characters of `s` without the white
/// space at either end.
pub fn trim_chars(s: &Vec<char>) -> (res: Vec<char>)
    ensures
        res@ == trimmed(s@),
{
    let n = s.len();
    let mut a: usize = 0;
    while a < n && is_whitespace(s[a])
        invariant
            a <= n == s@.len(),
            forall|j: int| 0 <= j < a ==> whitespace(#[trigger] s@[j]),
        decreases n - a,
    {
        a = a + 1;
    }
    let mut b: usize = n;
    while b > a && is_whitespace(s[b - 1])
        invariant
            a <= b <= n == s@.len(),
            forall|j: int| b <= j < n ==> whitespace(#[trigger] s@[j]),
            a < n ==> !whitespace(s@[a as int]),
        decreases b,
    {
        b = b - 1;
    }
    proof {
        if a < n {
            assert(exists|i: int| 0 <= i < s@.len() && !whitespace(#[trigger] s@[i])) by {
                assert(!whitespace(s@[a as int]));
            }
            let i0 = choose|i: int| 0 <= i < s@.len() && !whitespace(#[trigger] s@[i]) && forall|j: int| 0 <= j < i ==> whitespace(#[trigger] s@[j]);
            assert(a <= i0) by {
                if i0 < a {
                    assert(whitespace(s@[i0]));
                }
            }
            assert(i0 <= a) by {
                if a < i0 {
                    assert(whitespace(s@[a as int]));
                }
            }
            assert(b > a);
            assert(!whitespace(s@[b - 1]));
            let i1 = choose|i: int| 0 <= i < s@.len() && !whitespace(#[trigger] s@[i]) && forall|j: int| i < j < s@.len() ==> whitespace(#[trigger] s@[j]);
            assert(i1 <= b - 1) by {
                if i1 > b - 1 {
                    assert(whitespace(s@[i1]));
                }
            }
            assert(b - 1 <= i1) by {
                if b - 1 < i1 {
                    assert(whitespace(s@[b - 1]));
                }
            }
        } else {
            assert(!exists|i: int| 0 <= i < s@.len() && !whitespace(#[trigger] s@[i]));
        }
    }
    let mut res: Vec<char> = Vec::new();
    let mut k: usize = a;
    while k < b
        invariant
            a <= k <= b <= n == s@.len(),
            res@ == s@.subrange(a as int, k as int),
        decreases b - k,
    {
        res.push(s[k]);
        k = k + 1;
        proof {
            assert(res@ =~= s@.subrange(a as int, k as int));
        }
    }
    res
}

/// The characters of `s`, in order.
pub fn chars_of(s: &str) -> (res: Vec<char>)
    ensures
        res@ == s@,
{
    let n = s.unicode_len();
    let mut res: Vec<char> = Vec::new();
    let mut k: usize = 0;
    while k < n
        invariant
            k <= n == s@.len(),
            res@ == s@.take(k as int),
        decreases n - k,
    {
        res.push(s.get_char(k));
        k = k + 1;
        proof {
            assert(res@ =~= s@.take(k as int));
        }
    }
    proof {
        assert(s@.take(n as int) =~= s@);
    }
    res
}

/// A longer run of digits writes a number at least as large.
proof fn lemma_digits_grow(s: Seq<char>, a: int, b: int, n: int)
    requires
        0 <= a <= b <= n <= s.len(),
        forall|i: int| a <= i < n ==> '0' <= #[trigger] s[i] <= '9',
    ensures
        digits_value(s.subrange(a, n)) >= digits_value(s.subrange(a, b)),
        digits_value(s.subrange(a, b)) >= 0,
    decreases n - b,
{
    lemma_digits_nonneg(s.subrange(a, b));
    if b < n {
        lemma_digits_grow(s, a, b + 1, n);
        assert(s.subrange(a, b + 1).drop_last() =~= s.subrange(a, b));
        assert(s.subrange(a, b + 1).last() == s[b]);
    }
}

proof fn lemma_digits_nonneg(s: Seq<char>)
    requires
        forall|i: int| 0 <= i < s.len() ==> '0' <= #[trigger] s[i] <= '9',
    ensures
        digits_value(s) >= 0,
    decreases s.len(),
{
    if s.len() > 0 {
        assert forall|i: int| 0 <= i < s.drop_last().len() implies '0' <= #[trigger] s.drop_last()[i] <= '9' by {
            assert(s.drop_last()[i] == s[i]);
        }
        lemma_digits_nonneg(s.drop_last());
        assert(s.last() == s[s.len() - 1]);
    }
}

/// Where the digits from `start` already write a number beyond `i128`, the
/// whole text writes none that fits, whatever follows.
proof fn finish_too_big(s: Seq<char>, signed: bool, start: int, n: int, k: int)
    requires
        0 <= start <= k <= n == s.len(),
        start == (if signed { 1int } else { 0int }),
        signed == (s.len() > 0 && (s[0] == '-' || s[0] == '+')),
        digits_value(s.subrange(start, k)) > i128::MAX as int + 1,
        forall|i: int| start <= i < k ==> '0' <= #[trigger] s[i] <= '9',
    ensures
        match int_value(s) {
            Some(v) => !(i128::MIN <= v <= i128::MAX),
            None => true,
        },
{
    if int_value(s) is Some {
        let body = s.subrange(start, n);
        if signed {
            assert(s.drop_first() =~= body);
        } else {
            assert(s =~= body);
        }
        assert(all_digits(body));
        assert forall|i: int| start <= i < n implies '0' <= #[trigger] s[i] <= '9' by {
            assert(body[i - start] == s[i]);
        }
        lemma_digits_grow(s, start, k, n);
    }
}

/// What a regular expression captures in a text: `None` where the pattern
/// does not compile or does not match; else each group of the first match,
/// `None` for a group that took no part.
pub uninterp spec fn regex_captures_spec(pattern: Seq<char>, text: Seq<char>) -> Option<Seq<Option<Seq<char>>>>;

/// The groups of one match as character sequences.
pub open spec fn caps_view(v: Seq<Option<String>>) -> Seq<Option<Seq<char>>> {
    Seq::new(v.len(), |i: int| match v[i] {
        Some(t) => Some(t@),
        None => None::<Seq<char>>,
    })
}

/// The groups as character sequences, where there was a match.
pub open spec fn captures_view(caps: Option<Vec<Option<String>>>) -> Option<Seq<Option<Seq<char>>>> {
    match caps {
        Some(v) => Some(caps_view(v@)),
        None => None,
    }
}

/// The regex crate's `Regex::new(pattern)` then `captures(text)`: the groups
/// of the first match of the pattern in the text, group 0 being the whole
/// match.  Trusted to give what the name `regex_captures_spec` stands for,
/// which depends on the pattern and the text alone; nothing more is stated
/// of it.
#[verifier::external_body]
pub(crate) fn regex_captures(pattern: &str, text: &str) -> (res: Option<Vec<Option<String>>>)
    ensures
        captures_view(res) == regex_captures_spec(pattern@, text@),
{
    let re = regex::Regex::new(pattern).ok()?;
    let caps = re.captures(text)?;
    Some(caps.iter().map(|m| m.map(|m| m.as_str().to_string())).collect())
}

/// Whether a regular expression matches somewhere in a text; `false` where
/// the pattern does not compile.
pub uninterp spec fn regex_match_spec(pattern: Seq<char>, text: Seq<char>) -> bool;

/// The regex crate's `Regex::new(pattern)` then `is_match(text)`.  Trusted
/// to give what the name `regex_match_spec` stands for, which depends on the
/// pattern and the text alone.
#[verifier::external_body]
pub(crate) fn regex_is_match(pattern: &str, text: &str) -> (res: bool)
    ensures
        res == regex_match_spec(pattern@, text@),
{
    match regex::Regex::new(pattern) {
        Ok(re) => re.is_match(text),
        Err(_) => false,
    }
}

/// The groups of every match of a regular expression in a text, the
/// matches from left to right and not overlapping; none where the pattern
/// does not compile.
pub uninterp spec fn regex_all_captures_spec(pattern: Seq<char>, text: Seq<char>) -> Seq<Seq<Option<Seq<char>>>>;

/// The groups of each match as character sequences.
pub open spec fn all_captures_view(v: Seq<Vec<Option<String>>>) -> Seq<Seq<Option<Seq<char>>>> {
    Seq::new(v.len(), |i: int| caps_view(v[i]@))
}

/// The regex crate's `Regex::new(pattern)` then `captures_iter(text)`.
/// Trusted to give what the name `regex_all_captures_spec` stands for,
/// which depends on the pattern and the text alone.
#[verifier::external_body]
pub(crate) fn regex_captures_all(pattern: &str, text: &str) -> (res: Vec<Vec<Option<String>>>)
    ensures
        all_captures_view(res@) == regex_all_captures_spec(pattern@, text@),
{
    match regex::Regex::new(pattern) {
        Ok(re) => re
            .captures_iter(text)
            .map(|caps| caps.iter().map(|m| m.map(|m| m.as_str().to_string())).collect())
            .collect(),
        Err(_) => Vec::new(),
    }
}

/// The group `i` of the captures `caps`, if it took part.
pub fn group(caps: &Vec<Option<String>>, i: usize) -> (res: Option<&String>)
    ensures
        match res {
            Some(t) => i < caps.len() && caps@[i as int] == Some(*t),
            None => i >= caps.len() || caps@[i as int] is None,
        },
{
    if i < caps.len() {
        match &caps[i] {
            Some(t) => Some(t),
            None => None,
        }
    } else {
        None
    }
}

/// The integer that group `i` of `caps` writes, where the group took part,
/// writes an integer, and the integer lies in `[lo, hi]`.
pub open spec fn group_int_spec(caps: Seq<Option<Seq<char>>>, i: int, lo: int, hi: int) -> Option<int> {
    if 0 <= i < caps.len() && caps[i] is Some {
        match int_value(caps[i]->0) {
            Some(v) => if lo <= v <= hi {
                Some(v)
            } else {
                None
            },
            None => None,
        }
    } else {
        None
    }
}

/// The integer that group `i` writes, within `[lo, hi]`.
pub fn group_int(caps: &Vec<Option<String>>, i: usize, lo: i128, hi: i128) -> (res: Option<i128>)
    ensures
        match res {
            Some(v) => group_int_spec(caps_view(caps@), i as int, lo as int, hi as int) == Some(v as int),
            None => group_int_spec(caps_view(caps@), i as int, lo as int, hi as int) is None,
        },
{
    match group(caps, i) {
        Some(t) => {
            proof {
                assert(caps_view(caps@)[i as int] == Some(t@));
            }
            match parse_int(t.as_str()) {
                Some(v) => if lo <= v && v <= hi {
                    Some(v)
                } else {
                    None
                },
                None => None,
            }
        },
        None => None,
    }
}

/// Whether `c` has the Unicode property Alphabetic.
pub uninterp spec fn alphabetic(c: char) -> bool;

/// std's `char::is_alphabetic`: whether `c` has the Unicode property
/// Alphabetic.  Trusted to be a function of `c` alone, true of the ASCII
/// letters and false of `#`, `.` and the space, as the Unicode tables give.
#[verifier::external_body]
pub(crate) fn is_alphabetic(c: char) -> (res: bool)
    ensures
        res == alphabetic(c),
        ('a' <= c <= 'z' || 'A' <= c <= 'Z') ==> res,
        (c == '#' || c == '.' || c == ' ') ==> !res,
{
    c.is_alphabetic()
}

} // verus!
