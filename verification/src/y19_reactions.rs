//! Reactions that turn amounts of some chemicals into an amount of another:
//! a unit of fuel is taken apart, reaction by reaction, into the ore it
//! needs, keeping what a reaction makes beyond the need for later.

use vstd::prelude::*;
use crate::text::{
    all_captures_view, caps_view, group, group_int, group_int_spec, regex_captures_all, regex_all_captures_spec,
    regex_is_match, regex_match_spec, str_eq,
};

verus! {

/// What went wrong while taking a chemical apart.
#[derive(Debug)]
pub enum Error {
    InvalidReactionStr(String),
    /// No reaction makes this chemical.
    MissReaction(Chemical),
    /// An amount grew beyond `u64`.
    AmountOverflow(Chemical),
    /// The reactions went on for `u64::MAX` rounds without reaching ore only.
    EndlessDecomposition(Chemical),
}

/// A chemical, by its name.
#[derive(Debug)]
pub struct Chemical(pub String);

impl Chemical {
    pub fn new(name: &str) -> (res: Self)
        ensures
            res.0@ == name@,
    {
        Chemical(name.to_string())
    }
}

/// A copy of a chemical.
fn copy_chem(c: &Chemical) -> (res: Chemical)
    ensures
        res.0@ == c.0@,
{
    Chemical(c.0.clone())
}

/// An amount of a chemical.
#[derive(Debug)]
pub struct Material {
    pub chemical: Chemical,
    pub unit_n: u64,
}

impl Material {
    pub fn new(chemical: Chemical, unit_n: u64) -> (res: Self)
        ensures
            res.chemical == chemical,
            res.unit_n == unit_n,
    {
        Material { chemical, unit_n }
    }

    pub fn chemical(&self) -> (res: &Chemical)
        ensures
            *res == self.chemical,
    {
        &self.chemical
    }

    /// The pattern of an amount in the text of a reaction: a number, then
    /// the name of the chemical.
    pub fn text_pattern() -> (res: String)
        ensures
            res@ == "(\\d+)\\s*(\\w+)"@,
    {
        "(\\d+)\\s*(\\w+)".to_string()
    }
}

/// Where an amount cannot be read, the whole list cannot.
proof fn lemma_amounts_none(ms: Seq<Seq<Option<Seq<char>>>>, k: int)
    requires
        0 <= k <= ms.len(),
        amounts_of(ms.take(k)) is None,
    ensures
        amounts_of(ms) is None,
    decreases ms.len() - k,
{
    if k < ms.len() {
        assert(ms.take(k + 1).drop_last() =~= ms.take(k));
        lemma_amounts_none(ms, k + 1);
    } else {
        assert(ms.take(k) =~= ms);
    }
}

/// A reaction: the amounts it takes and the amount it makes.
#[derive(Debug)]
pub struct Reaction {
    pub output: Material,
    pub inputs: Vec<Material>,
}

/// A whole reaction: amounts split by commas, `=>`, and one amount.
pub const REACTION_PATTERN: &'static str = r"((\d+)\s*(\w+),?\s*)+\s*=>\s*((\d+)\s*(\w+)){1}";

/// The name and the number of units that one match of the amount pattern
/// writes, where the number fits in `u64`.
pub open spec fn amount_of_caps(m: Seq<Option<Seq<char>>>) -> Option<(Seq<char>, int)> {
    match group_int_spec(m, 1, 0, u64::MAX as int) {
        Some(n) => if m.len() > 2 && m[2] is Some {
            Some((m[2]->0, n))
        } else {
            None
        },
        None => None,
    }
}

/// The amounts that the matches write, in order; none where one writes none.
pub open spec fn amounts_of(ms: Seq<Seq<Option<Seq<char>>>>) -> Option<Seq<(Seq<char>, int)>>
    decreases ms.len(),
{
    if ms.len() == 0 {
        Some(Seq::empty())
    } else {
        match (amounts_of(ms.drop_last()), amount_of_caps(ms.last())) {
            (Some(l), Some(a)) => Some(l.push(a)),
            _ => None,
        }
    }
}

/// Whether material `m` is the amount `a`.
pub open spec fn is_amount(m: Material, a: (Seq<char>, int)) -> bool {
    m.chemical.0@ == a.0 && m.unit_n == a.1
}

/// What reading a reaction from `text` gives: where the whole text has the
/// form of a reaction, every amount in it, in order, the last being what it
/// makes; an amount beyond `u64` makes the text no reaction.
pub open spec fn reaction_read(text: Seq<char>, res: Result<Reaction, Error>) -> bool {
    if !regex_match_spec(REACTION_PATTERN@, text) {
        res matches Err(Error::InvalidReactionStr(t)) && t@ == text
    } else {
        amounts_read(regex_all_captures_spec("(\\d+)\\s*(\\w+)"@, text), text, res)
    }
}

/// What the amounts that the matches `ms` in `text` write give: every
/// amount, in order, the last being what the reaction makes; an amount
/// beyond `u64`, or no amount, makes the text no reaction.
pub open spec fn amounts_read(ms: Seq<Seq<Option<Seq<char>>>>, text: Seq<char>, res: Result<Reaction, Error>) -> bool {
    match amounts_of(ms) {
        Some(l) => if l.len() > 0 {
            res matches Ok(r) && is_amount(r.output, l.last()) && r.inputs.len() + 1 == l.len()
                && forall|i: int| 0 <= i < r.inputs.len() ==> is_amount(#[trigger] r.inputs@[i], l[i])
        } else {
            res matches Err(Error::InvalidReactionStr(t)) && t@ == text
        },
        None => res matches Err(Error::InvalidReactionStr(t)) && t@ == text,
    }
}

impl Reaction {
    /// Reads a reaction `a A, b B => c C`.
    pub fn try_from(value: &str) -> (res: Result<Reaction, Error>)
        ensures
            reaction_read(value@, res),
    {
        if !regex_is_match(REACTION_PATTERN, value) {
            return Err(Error::InvalidReactionStr(value.to_string()));
        }
        let pattern = Material::text_pattern();
        let found = regex_captures_all(pattern.as_str(), value);
        Self::from_amount_captures(&found, value)
    }

    /// The reaction that the matches `found` of the amount pattern in
    /// `value` write.
    pub fn from_amount_captures(found: &Vec<Vec<Option<String>>>, value: &str) -> (res: Result<Reaction, Error>)
        ensures
            amounts_read(all_captures_view(found@), value@, res),
    {
        let ghost ms = all_captures_view(found@);
        let mut materials: Vec<Material> = Vec::new();
        let mut i: usize = 0;
        while i < found.len()
            invariant
                i <= found.len(),
                ms == all_captures_view(found@),
                amounts_of(ms.take(i as int)) matches Some(l) && l.len() == materials.len()
                    && forall|k: int| 0 <= k < materials.len() ==> is_amount(#[trigger] materials@[k], l[k]),
            decreases found.len() - i,
        {
            proof {
                assert(ms.take(i + 1).drop_last() =~= ms.take(i as int));
                assert(ms.take(i + 1).last() == caps_view(found@[i as int]@));
            }
            let m = &found[i];
            let n = group_int(m, 1, 0, u64::MAX as i128);
            let name = group(m, 2);
            match (n, name) {
                (Some(n), Some(name)) => {
                    proof {
                        assert(caps_view(m@)[2] == Some(name@));
                    }
                    materials.push(Material::new(Chemical::new(name.as_str()), n as u64));
                },
                _ => {
                    proof {
                        assert(amount_of_caps(caps_view(m@)) is None);
                        assert(amounts_of(ms.take(i + 1)) is None);
                        lemma_amounts_none(ms, i + 1);
                    }
                    return Err(Error::InvalidReactionStr(value.to_string()));
                },
            }
            i = i + 1;
        }
        proof {
            assert(ms.take(i as int) =~= ms);
        }
        match materials.pop() {
            Some(output) => Ok(Reaction { inputs: materials, output }),
            None => Err(Error::InvalidReactionStr(value.to_string())),
        }
    }

    pub fn output(&self) -> (res: &Material)
        ensures
            *res == self.output,
    {
        &self.output
    }
}

/// The name of ore, which no reaction needs to make.
pub open spec fn ore() -> Seq<char> {
    seq!['O', 'R', 'E']
}

/// The amount of chemical `c` in the list `v` (the first entry for it).
pub open spec fn amt(v: Seq<(Chemical, u64)>, c: Seq<char>) -> int
    decreases v.len(),
{
    if v.len() == 0 {
        0
    } else if v[0].0.0@ == c {
        v[0].1 as int
    } else {
        amt(v.drop_first(), c)
    }
}

/// Whether no chemical has two entries in `v`.
pub open spec fn keys_distinct(v: Seq<(Chemical, u64)>) -> bool {
    forall|i: int, j: int| 0 <= i < j < v.len() ==> (#[trigger] v[i]).0.0@ != (#[trigger] v[j]).0.0@
}

/// How much of `c` reaction `r` takes.
pub open spec fn in_amt(inputs: Seq<Material>, c: Seq<char>) -> int
    decreases inputs.len(),
{
    if inputs.len() == 0 {
        0
    } else {
        in_amt(inputs.drop_last(), c) + if inputs.last().chemical.0@ == c {
            inputs.last().unit_n as int
        } else {
            0
        }
    }
}

/// How much of `c` reaction `r` makes.
pub open spec fn out_amt(r: Reaction, c: Seq<char>) -> int {
    if r.output.chemical.0@ == c {
        r.output.unit_n as int
    } else {
        0
    }
}

/// What running the reactions `counts[i]` times each takes of `c`, less
/// what it makes of `c`.
pub open spec fn net_use(reactions: Seq<Reaction>, counts: Seq<nat>, c: Seq<char>) -> int
    decreases reactions.len(),
{
    if reactions.len() == 0 || counts.len() != reactions.len() {
        0
    } else {
        net_use(reactions.drop_last(), counts.drop_last(), c) + counts.last() * (in_amt(
            reactions.last().inputs@,
            c,
        ) - out_amt(reactions.last(), c))
    }
}

/// Where `v` has an entry for `c`, `amt` is its amount; where it has none,
/// zero.
proof fn lemma_amt(v: Seq<(Chemical, u64)>, c: Seq<char>)
    requires
        keys_distinct(v),
    ensures
        forall|i: int| 0 <= i < v.len() && (#[trigger] v[i]).0.0@ == c ==> amt(v, c) == v[i].1,
        (forall|i: int| 0 <= i < v.len() ==> (#[trigger] v[i]).0.0@ != c) ==> amt(v, c) == 0,
    decreases v.len(),
{
    if v.len() > 0 {
        let t = v.drop_first();
        assert forall|i: int, j: int| 0 <= i < j < t.len() implies (#[trigger] t[i]).0.0@ != (#[trigger] t[j]).0.0@ by {
            assert(t[i] == v[i + 1] && t[j] == v[j + 1]);
        }
        lemma_amt(t, c);
        assert forall|i: int| 0 <= i < v.len() && (#[trigger] v[i]).0.0@ == c implies amt(v, c) == v[i].1 by {
            if i > 0 {
                assert(t[i - 1] == v[i]);
                assert(v[0].0.0@ != c);
            }
        }
        if forall|i: int| 0 <= i < v.len() ==> (#[trigger] v[i]).0.0@ != c {
            assert(v[0].0.0@ != c);
            assert forall|i: int| 0 <= i < t.len() implies (#[trigger] t[i]).0.0@ != c by {
                assert(t[i] == v[i + 1]);
            }
        }
    }
}

/// The position of the entry for `name` in `v`, if any.
fn find_entry(v: &Vec<(Chemical, u64)>, name: &str) -> (res: Option<usize>)
    ensures
        match res {
            Some(i) => i < v.len() && v@[i as int].0.0@ == name@,
            None => forall|i: int| 0 <= i < v.len() ==> (#[trigger] v@[i]).0.0@ != name@,
        },
{
    let mut i: usize = 0;
    while i < v.len()
        invariant
            i <= v.len(),
            forall|j: int| 0 <= j < i ==> (#[trigger] v@[j]).0.0@ != name@,
        decreases v.len() - i,
    {
        if str_eq(v[i].0.0.as_str(), name) {
            return Some(i);
        }
        i = i + 1;
    }
    None
}

/// Adds `n` of the chemical `c` to the amounts `v`; `false`, with `v` as it
/// was, where the amount would not fit in `u64`.
fn add_amount(v: &mut Vec<(Chemical, u64)>, c: &Chemical, n: u64) -> (res: bool)
    requires
        keys_distinct(old(v)@),
    ensures
        keys_distinct(final(v)@),
        res == (amt(old(v)@, c.0@) + n <= u64::MAX),
        res ==> forall|d: Seq<char>| #[trigger] amt(final(v)@, d) == amt(old(v)@, d) + if d == c.0@ {
            n as int
        } else {
            0
        },
        !res ==> final(v)@ == old(v)@,
{
    proof {
        lemma_amt(v@, c.0@);
    }
    match find_entry(v, c.0.as_str()) {
        Some(i) => {
            let cur = v[i].1;
            if cur > u64::MAX - n {
                return false;
            }
            let ghost old_v = v@;
            let name = copy_chem(&v[i].0);
            v.set(i, (name, cur + n));
            assert(v@[i as int].0.0@ == c.0@);
            proof {
                assert forall|a: int, b: int| 0 <= a < b < v@.len() implies (#[trigger] v@[a]).0.0@ != (#[trigger] v@[b]).0.0@ by {
                    assert(old_v[a].0.0@ != old_v[b].0.0@);
                }
                assert forall|d: Seq<char>| #[trigger] amt(v@, d) == amt(old_v, d) + if d == c.0@ {
                    n as int
                } else {
                    0
                } by {
                    lemma_amt(old_v, d);
                    lemma_amt(v@, d);
                    if d == c.0@ {
                        assert(v@[i as int].0.0@ == d && v@[i as int].1 == cur + n);
                        assert(old_v[i as int].0.0@ == d && old_v[i as int].1 == cur);
                    } else {
                        if exists|k: int| 0 <= k < v@.len() && (#[trigger] v@[k]).0.0@ == d {
                            let k = choose|k: int| 0 <= k < v@.len() && (#[trigger] v@[k]).0.0@ == d;
                            assert(old_v[k] == v@[k]);
                        } else {
                            assert forall|k: int| 0 <= k < old_v.len() implies (#[trigger] old_v[k]).0.0@ != d by {
                                assert(v@[k].0.0@ == old_v[k].0.0@);
                            }
                        }
                    }
                }
            }
            true
        },
        None => {
            let ghost old_v = v@;
            v.push((copy_chem(c), n));
            proof {
                assert forall|a: int, b: int| 0 <= a < b < v@.len() implies (#[trigger] v@[a]).0.0@ != (#[trigger] v@[b]).0.0@ by {
                    if b < old_v.len() {
                        assert(old_v[a].0.0@ != old_v[b].0.0@);
                    }
                }
                assert forall|d: Seq<char>| #[trigger] amt(v@, d) == amt(old_v, d) + if d == c.0@ {
                    n as int
                } else {
                    0
                } by {
                    lemma_amt(old_v, d);
                    lemma_amt(v@, d);
                    if d == c.0@ {
                        assert(v@[old_v.len() as int].0.0@ == d);
                    } else if exists|k: int| 0 <= k < v@.len() && (#[trigger] v@[k]).0.0@ == d {
                        let k = choose|k: int| 0 <= k < v@.len() && (#[trigger] v@[k]).0.0@ == d;
                        assert(k < old_v.len());
                        assert(old_v[k] == v@[k]);
                    } else {
                        assert forall|k: int| 0 <= k < old_v.len() implies (#[trigger] old_v[k]).0.0@ != d by {
                            assert(v@[k] == old_v[k]);
                        }
                    }
                }
            }
            true
        },
    }
}

/// Takes the entry at `i` out of the amounts `v`.
fn take_entry(v: &mut Vec<(Chemical, u64)>, i: usize) -> (res: (Chemical, u64))
    requires
        keys_distinct(old(v)@),
        i < old(v).len(),
    ensures
        keys_distinct(final(v)@),
        res.0.0@ == old(v)@[i as int].0.0@,
        res.1 == old(v)@[i as int].1,
        res.1 == amt(old(v)@, res.0.0@),
        forall|d: Seq<char>| #[trigger] amt(final(v)@, d) == if d == res.0.0@ {
            0
        } else {
            amt(old(v)@, d)
        },
{
    let ghost old_v = v@;
    proof {
        lemma_amt(old_v, old_v[i as int].0.0@);
    }
    let res = v.remove(i);
    proof {
        assert forall|a: int, b: int| 0 <= a < b < v@.len() implies (#[trigger] v@[a]).0.0@ != (#[trigger] v@[b]).0.0@ by {
            let oa = if a < i { a } else { a + 1 };
            let ob = if b < i { b } else { b + 1 };
            assert(v@[a] == old_v[oa] && v@[b] == old_v[ob]);
        }
        assert forall|d: Seq<char>| #[trigger] amt(v@, d) == if d == res.0.0@ {
            0
        } else {
            amt(old_v, d)
        } by {
            lemma_amt(old_v, d);
            lemma_amt(v@, d);
            if d == res.0.0@ {
                assert forall|k: int| 0 <= k < v@.len() implies (#[trigger] v@[k]).0.0@ != d by {
                    let ok = if k < i { k } else { k + 1 };
                    assert(v@[k] == old_v[ok]);
                }
            } else if exists|k: int| 0 <= k < v@.len() && (#[trigger] v@[k]).0.0@ == d {
                let k = choose|k: int| 0 <= k < v@.len() && (#[trigger] v@[k]).0.0@ == d;
                let ok = if k < i { k } else { k + 1 };
                assert(v@[k] == old_v[ok]);
            } else {
                assert forall|k: int| 0 <= k < old_v.len() implies (#[trigger] old_v[k]).0.0@ != d by {
                    if k < i {
                        assert(v@[k] == old_v[k]);
                    } else if k > i {
                        assert(v@[k - 1] == old_v[k]);
                    }
                }
            }
        }
    }
    res
}

/// The reactions.
#[derive(Debug)]
pub struct ReactionMap {
    reactions: Vec<Reaction>,
}

/// The last reaction among `rs` that makes `c`.
pub open spec fn last_reaction(rs: Seq<Reaction>, c: Seq<char>) -> Option<int>
    decreases rs.len(),
{
    if rs.len() == 0 {
        None
    } else if rs.last().output.chemical.0@ == c {
        Some(rs.len() - 1)
    } else {
        last_reaction(rs.drop_last(), c)
    }
}

impl ReactionMap {
    pub closed spec fn reactions_spec(&self) -> Seq<Reaction> {
        self.reactions@
    }

    /// Whether every reaction makes at least one unit.
    pub open spec fn outputs_positive(&self) -> bool {
        forall|i: int| 0 <= i < self.reactions_spec().len() ==> (#[trigger] self.reactions_spec()[i]).output.unit_n > 0
    }

    /// The reactions, keyed by the chemical each makes: where two make the
    /// same chemical, the later one counts.
    pub fn new(reactions: Vec<Reaction>) -> (res: Self)
        ensures
            res.reactions_spec() == reactions@,
    {
        ReactionMap { reactions }
    }

    /// The place of the reaction that makes `name`, if any.
    fn find_reaction(&self, name: &str) -> (res: Option<usize>)
        ensures
            match res {
                Some(i) => last_reaction(self.reactions_spec(), name@) == Some(i as int),
                None => last_reaction(self.reactions_spec(), name@) is None,
            },
    {
        let mut i: usize = self.reactions.len();
        assert(self.reactions@.take(i as int) =~= self.reactions@);
        while i > 0
            invariant
                i <= self.reactions.len(),
                last_reaction(self.reactions@.take(i as int), name@) == last_reaction(self.reactions@, name@),
            decreases i,
        {
            proof {
                assert(self.reactions@.take(i as int).drop_last() =~= self.reactions@.take(i - 1));
                assert(self.reactions@.take(i as int).last() == self.reactions@[i - 1]);
            }
            if str_eq(self.reactions[i - 1].output.chemical.0.as_str(), name) {
                return Some(i - 1);
            }
            i = i - 1;
        }
        None
    }

    /// Whether some reaction makes `chemical`.
    pub fn has(&self, chemical: &Chemical) -> (res: bool)
        ensures
            res == last_reaction(self.reactions_spec(), chemical.0@) is Some,
    {
        self.find_reaction(chemical.0.as_str()).is_some()
    }
}

/// One unit of `target` if `c` is `target`, else none.
pub open spec fn unit_of(target: Seq<char>, c: Seq<char>) -> int {
    if c == target {
        1
    } else {
        0
    }
}

/// Whether taking one unit of `target` apart into `ore_n` ore, running
/// reaction `i` `counts[i]` times, left the amounts `l1` from `l0`: every
/// chemical but ore is balanced, what the reactions made of it beyond what
/// they and the target took is left over; ore is what they took of it.
pub open spec fn balanced(
    rs: Seq<Reaction>,
    counts: Seq<nat>,
    target: Seq<char>,
    l0: Seq<(Chemical, u64)>,
    l1: Seq<(Chemical, u64)>,
    ore_n: int,
) -> bool {
    &&& forall|c: Seq<char>| c != ore() ==> #[trigger] amt(l1, c) == amt(l0, c) - unit_of(target, c) - net_use(rs, counts, c)
    &&& ore_n == unit_of(target, ore()) + net_use(rs, counts, ore())
    &&& amt(l1, ore()) == amt(l0, ore())
}

/// Whether only the reaction that counts for its chemical has run, and of
/// each chemical made less than one run's output is left over.
pub open spec fn runs_needed(rs: Seq<Reaction>, counts: Seq<nat>, left: Seq<(Chemical, u64)>) -> bool {
    forall|r: int|
        0 <= r < counts.len() && #[trigger] counts[r] > 0 ==> rs[r].output.chemical.0@ != ore() && last_reaction(
            rs,
            rs[r].output.chemical.0@,
        ) == Some(r) && amt(left, rs[r].output.chemical.0@) < rs[r].output.unit_n
}

/// Whether, after `n` units of `target` were made by running reaction `i`
/// `counts[i]` times, only the reaction that counts for its chemical has
/// run, and of each chemical made less than one run's output is left over.
pub open spec fn left_below_run(rs: Seq<Reaction>, counts: Seq<nat>, target: Seq<char>, n: int) -> bool {
    forall|r: int|
        0 <= r < counts.len() && #[trigger] counts[r] > 0 ==> {
            let d = rs[r].output.chemical.0@;
            &&& d != ore()
            &&& last_reaction(rs, d) == Some(r)
            &&& 0 - net_use(rs, counts, d) - n * unit_of(target, d) < rs[r].output.unit_n
        }
}

/// Whether the reaction that counts for `d` has run.
pub open spec fn ran_for(rs: Seq<Reaction>, counts: Seq<nat>, d: Seq<char>) -> bool {
    match last_reaction(rs, d) {
        Some(r) => 0 <= r < counts.len() && counts[r] > 0,
        None => false,
    }
}

proof fn lemma_net_use_update(rs: Seq<Reaction>, counts: Seq<nat>, ri: int, k: nat, c: Seq<char>)
    requires
        counts.len() == rs.len(),
        0 <= ri < rs.len(),
    ensures
        net_use(rs, counts.update(ri, counts[ri] + k), c) == net_use(rs, counts, c) + k * (in_amt(
            rs[ri].inputs@,
            c,
        ) - out_amt(rs[ri], c)),
    decreases rs.len(),
{
    let c2 = counts.update(ri, counts[ri] + k);
    let x = in_amt(rs[ri].inputs@, c) - out_amt(rs[ri], c);
    if ri == rs.len() - 1 {
        assert(c2.drop_last() =~= counts.drop_last());
        assert((counts[ri] + k) * x == counts[ri] * x + k * x) by (nonlinear_arith);
    } else {
        assert(c2.drop_last() =~= counts.drop_last().update(ri, counts[ri] + k));
        lemma_net_use_update(rs.drop_last(), counts.drop_last(), ri, k, c);
        assert(rs.drop_last()[ri] == rs[ri]);
    }
}

/// The first entry of `v` that is not for `name`, if any.
fn first_other(v: &Vec<(Chemical, u64)>, name: &str) -> (res: Option<usize>)
    ensures
        match res {
            Some(i) => i < v.len() && v@[i as int].0.0@ != name@,
            None => forall|i: int| 0 <= i < v.len() ==> (#[trigger] v@[i]).0.0@ == name@,
        },
{
    let mut i: usize = 0;
    while i < v.len()
        invariant
            i <= v.len(),
            forall|j: int| 0 <= j < i ==> (#[trigger] v@[j]).0.0@ == name@,
        decreases v.len() - i,
    {
        if !str_eq(v[i].0.0.as_str(), name) {
            return Some(i);
        }
        i = i + 1;
    }
    None
}

impl ReactionMap {
    /// Takes one unit of `target_chemical` apart into ore: each chemical
    /// needed is made by its reaction, run as few times as covers the need;
    /// what is left over is kept in `left_mats` and used first by later needs.
    #[verifier::spinoff_prover]
    #[verifier::rlimit(60)]
    pub fn decompose_one_unit(&self, target_chemical: &Chemical, left_mats: &mut Vec<(Chemical, u64)>) -> (res:
        Result<u64, Error>)
        requires
            self.outputs_positive(),
            keys_distinct(old(left_mats)@),
        ensures
            keys_distinct(final(left_mats)@),
            match res {
                Ok(ore_n) => exists|counts: Seq<nat>|
                    counts.len() == self.reactions_spec().len() && #[trigger] balanced(
                        self.reactions_spec(),
                        counts,
                        target_chemical.0@,
                        old(left_mats)@,
                        final(left_mats)@,
                        ore_n as int,
                    ) && runs_needed(self.reactions_spec(), counts, final(left_mats)@) && forall|d: Seq<char>|
                        #[trigger] amt(final(left_mats)@, d) <= amt(old(left_mats)@, d) || ran_for(
                            self.reactions_spec(),
                            counts,
                            d,
                        ),
                Err(Error::MissReaction(c)) => c.0@ != ore() && last_reaction(self.reactions_spec(), c.0@) is None,
                Err(Error::AmountOverflow(_)) => true,
                Err(Error::EndlessDecomposition(c)) => c.0@ == target_chemical.0@,
                Err(_) => false,
            },
    {
        let ore_name = "ORE";
        proof {
            reveal_strlit("ORE");
            assert(ore_name@ =~= ore());
        }
        let ghost rs = self.reactions@;
        let ghost l0 = left_mats@;
        let ghost target = target_chemical.0@;
        let mut decom: Vec<(Chemical, u64)> = Vec::new();
        decom.push((copy_chem(target_chemical), 1));
        let ghost mut counts: Seq<nat> = Seq::new(rs.len(), |i: int| 0nat);
        proof {
            assert forall|c: Seq<char>| #[trigger] net_use(rs, counts, c) == 0 by {
                lemma_net_use_zero(rs, counts, c);
            }
            assert forall|c: Seq<char>| #[trigger] amt(decom@, c) == unit_of(target, c) by {
                lemma_amt(decom@, c);
            }
        }
        let mut fuel: u64 = u64::MAX;
        loop
            invariant
                rs == self.reactions@,
                self.outputs_positive(),
                ore_name@ == ore(),
                counts.len() == rs.len(),
                keys_distinct(decom@),
                keys_distinct(left_mats@),
                forall|c: Seq<char>| #[trigger] amt(decom@, c) - amt(left_mats@, c) == unit_of(target, c) - amt(l0, c)
                    + net_use(rs, counts, c),
                amt(left_mats@, ore()) == amt(l0, ore()),
                l0 == old(left_mats)@,
                target == target_chemical.0@,
                runs_needed(rs, counts, left_mats@),
                forall|d: Seq<char>| #[trigger] amt(left_mats@, d) <= amt(l0, d) || ran_for(rs, counts, d),
            ensures
                rs == self.reactions@,
                counts.len() == rs.len(),
                keys_distinct(decom@),
                keys_distinct(left_mats@),
                forall|c: Seq<char>| #[trigger] amt(decom@, c) - amt(left_mats@, c) == unit_of(target, c) - amt(l0, c)
                    + net_use(rs, counts, c),
                amt(left_mats@, ore()) == amt(l0, ore()),
                forall|i: int| 0 <= i < decom.len() ==> (#[trigger] decom@[i]).0.0@ == ore(),
                l0 == old(left_mats)@,
                target == target_chemical.0@,
                runs_needed(rs, counts, left_mats@),
                forall|d: Seq<char>| #[trigger] amt(left_mats@, d) <= amt(l0, d) || ran_for(rs, counts, d),
            decreases fuel,
        {
            let i = match first_other(&decom, ore_name) {
                Some(i) => i,
                None => break,
            };
            if fuel == 0 {
                return Err(Error::EndlessDecomposition(copy_chem(target_chemical)));
            }
            fuel = fuel - 1;
            let ghost d_before = decom@;
            let ghost l_before = left_mats@;
            let (chem, n0) = take_entry(&mut decom, i);
            let ghost name = chem.0@;
            let mut n = n0;
            match find_entry(left_mats, chem.0.as_str()) {
                Some(li) => {
                    let l = left_mats[li].1;
                    proof {
                        lemma_amt(left_mats@, name);
                    }
                    if l >= n {
                        let (lc, _) = take_entry(left_mats, li);
                        if l - n > 0 {
                            add_amount(left_mats, &lc, l - n);
                        }
                        proof {
                            assert forall|c: Seq<char>| #[trigger] amt(decom@, c) - amt(left_mats@, c) == unit_of(target, c)
                                - amt(l0, c) + net_use(rs, counts, c) by {
                                assert(amt(d_before, c) - amt(l_before, c) == unit_of(target, c) - amt(l0, c) + net_use(rs, counts, c));
                            }
                            assert(amt(left_mats@, ore()) == amt(l_before, ore()));
                            assert forall|d: Seq<char>| #[trigger] amt(left_mats@, d) <= amt(l_before, d) by {}
                            assert forall|d: Seq<char>| #[trigger] amt(left_mats@, d) <= amt(l0, d) || ran_for(rs, counts, d) by {
                                assert(amt(l_before, d) <= amt(l0, d) || ran_for(rs, counts, d));
                            }
                            assert forall|r: int| 0 <= r < counts.len() && #[trigger] counts[r] > 0 implies last_reaction(
                                rs, rs[r].output.chemical.0@) == Some(r) && amt(left_mats@, rs[r].output.chemical.0@)
                                < rs[r].output.unit_n by {
                                assert(amt(left_mats@, rs[r].output.chemical.0@) <= amt(l_before, rs[r].output.chemical.0@));
                            }
                        }
                        continue;
                    } else {
                        n = n - l;
                        take_entry(left_mats, li);
                    }
                },
                None => {
                    proof {
                        lemma_amt(left_mats@, name);
                    }
                },
            }
            let ghost l_mid = left_mats@;
            // Now `n` units of `chem` are needed, and none is left over.
            assert(amt(l_mid, name) == 0);
            assert(n + amt(l_before, name) == n0 + amt(l_mid, name) || n == n0 - amt(l_before, name));
            let ri = match self.find_reaction(chem.0.as_str()) {
                Some(ri) => ri,
                None => {
                    return Err(Error::MissReaction(chem));
                },
            };
            proof {
                lemma_last_reaction(rs, name);
            }
            let out = self.reactions[ri].output.unit_n;
            assert(out > 0);
            let k = match n.checked_add(out - 1) {
                Some(s) => s / out,
                None => {
                    return Err(Error::AmountOverflow(chem));
                },
            };
            let made = match k.checked_mul(out) {
                Some(m) => m,
                None => {
                    return Err(Error::AmountOverflow(chem));
                },
            };
            proof {
                assert(made >= n) by (nonlinear_arith)
                    requires
                        made == k * out,
                        k == (n + out - 1) as int / out as int,
                        out > 0,
                        n >= 0,
                ;
            }
            let ghost d_mid = decom@;
            let inputs = &self.reactions[ri].inputs;
            let mut j: usize = 0;
            while j < inputs.len()
                invariant
                    j <= inputs.len(),
                    ri < rs.len(),
                    *inputs == rs[ri as int].inputs,
                    keys_distinct(decom@),
                    keys_distinct(left_mats@),
                    forall|c: Seq<char>| #[trigger] amt(decom@, c) == amt(d_mid, c) + k * in_amt(inputs@.take(j as int), c),
                decreases inputs.len() - j,
            {
                let a = match inputs[j].unit_n.checked_mul(k) {
                    Some(a) => a,
                    None => {
                        return Err(Error::AmountOverflow(copy_chem(&inputs[j].chemical)));
                    },
                };
                let ghost d_j = decom@;
                if !add_amount(&mut decom, &inputs[j].chemical, a) {
                    return Err(Error::AmountOverflow(copy_chem(&inputs[j].chemical)));
                }
                proof {
                    assert(inputs@.take(j + 1).drop_last() =~= inputs@.take(j as int));
                    assert(inputs@.take(j + 1).last() == inputs@[j as int]);
                    assert forall|c: Seq<char>| #[trigger] amt(decom@, c) == amt(d_mid, c) + k * in_amt(inputs@.take(j + 1), c) by {
                        let x = in_amt(inputs@.take(j as int), c);
                        let u = inputs@[j as int].unit_n as int;
                        assert(amt(d_j, c) == amt(d_mid, c) + k * x);
                        if inputs@[j as int].chemical.0@ == c {
                            assert(k * (x + u) == k * x + k * u) by (nonlinear_arith);
                            assert(a == u * k);
                            assert(k * u == u * k) by (nonlinear_arith);
                        }
                    }
                }
                j = j + 1;
            }
            proof {
                assert(inputs@.take(inputs.len() as int) =~= inputs@);
            }
            let left = made - n;
            let ghost l_pre = left_mats@;
            if left > 0 {
                add_amount(left_mats, &chem, left);
            }
            proof {
                assert(made - n < out) by (nonlinear_arith)
                    requires
                        made == k * out,
                        k == (n + out - 1) as int / out as int,
                        out > 0,
                        n >= 0,
                ;
                assert(k == 0 ==> n == 0) by (nonlinear_arith)
                    requires
                        k == (n + out - 1) as int / out as int,
                        out > 0,
                        n >= 0,
                ;
                assert forall|d: Seq<char>| d != name implies #[trigger] amt(left_mats@, d) == amt(l_before, d) by {}
                assert(amt(left_mats@, name) == made - n);
                let old_counts = counts;
                let new_counts = counts.update(ri as int, (counts[ri as int] + k) as nat);
                assert(rs[ri as int].output.chemical.0@ == name);
                assert(rs[ri as int].output.unit_n == out);
                assert forall|r: int| 0 <= r < new_counts.len() && #[trigger] new_counts[r] > 0 implies last_reaction(
                    rs, rs[r].output.chemical.0@) == Some(r) && amt(left_mats@, rs[r].output.chemical.0@)
                    < rs[r].output.unit_n by {
                    if r != ri {
                        assert(old_counts[r] > 0);
                        if rs[r].output.chemical.0@ == name {
                            assert(last_reaction(rs, name) == Some(ri as int));
                        }
                    }
                }
                assert forall|d: Seq<char>| #[trigger] amt(left_mats@, d) <= amt(l0, d) || ran_for(rs, new_counts, d) by {
                    lemma_amt_nonneg(l0, d);
                    if d == name {
                        if k > 0 {
                            assert(last_reaction(rs, name) == Some(ri as int));
                            assert(new_counts[ri as int] > 0);
                            assert(ran_for(rs, new_counts, d));
                        } else {
                            assert(made == k * out);
                            assert(k * out == 0) by (nonlinear_arith)
                                requires
                                    k == 0,
                            ;
                            assert(made == 0);
                            assert(amt(left_mats@, d) == 0);
                        }
                    } else {
                        assert(amt(l_before, d) <= amt(l0, d) || ran_for(rs, old_counts, d));
                        if ran_for(rs, old_counts, d) {
                            let r = last_reaction(rs, d).unwrap();
                            assert(new_counts[r] >= old_counts[r]);
                        }
                    }
                }
                counts = counts.update(ri as int, (counts[ri as int] + k) as nat);
                assert forall|c: Seq<char>| #[trigger] amt(decom@, c) - amt(left_mats@, c) == unit_of(target, c)
                    - amt(l0, c) + net_use(rs, counts, c) by {
                    lemma_net_use_update(rs, old_counts, ri as int, k as nat, c);
                    assert(amt(d_before, c) - amt(l_before, c) == unit_of(target, c) - amt(l0, c) + net_use(rs, old_counts, c));
                    if c == name {
                        assert(out_amt(rs[ri as int], c) == out);
                        assert(k * (in_amt(rs[ri as int].inputs@, c) - out) == k * in_amt(rs[ri as int].inputs@, c) - k * out) by (nonlinear_arith);
                    } else {
                        assert(out_amt(rs[ri as int], c) == 0);
                    }
                }
                assert(amt(left_mats@, ore()) == amt(l0, ore()));
            }
        }
        proof {
            assert forall|c: Seq<char>| c != ore() implies #[trigger] amt(decom@, c) == 0 by {
                lemma_amt(decom@, c);
            }
            lemma_amt(decom@, ore());
        }
        let ore_n = if decom.len() > 0 {
            decom[0].1
        } else {
            0
        };
        proof {
            assert(balanced(rs, counts, target, l0, left_mats@, ore_n as int)) by {
                assert forall|c: Seq<char>| c != ore() implies #[trigger] amt(left_mats@, c) == amt(l0, c) - unit_of(target, c)
                    - net_use(rs, counts, c) by {
                    assert(amt(decom@, c) == 0);
                }
                assert(amt(decom@, ore()) == ore_n);
            }
            assert(rs == self.reactions_spec());
            assert(balanced(self.reactions_spec(), counts, target_chemical.0@, old(left_mats)@, left_mats@, ore_n as int));
            assert(counts.len() == self.reactions_spec().len());
            assert(exists|cs: Seq<nat>| cs.len() == self.reactions_spec().len() && #[trigger] balanced(
                self.reactions_spec(),
                cs,
                target_chemical.0@,
                old(left_mats)@,
                left_mats@,
                ore_n as int,
            ));
        }
        let res: Result<u64, Error> = Ok(ore_n);
        proof {
            assert(res->Ok_0 == ore_n);
            assert(balanced(self.reactions_spec(), counts, target_chemical.0@, old(left_mats)@, left_mats@, res->Ok_0 as int));
            assert(match res {
                Ok(o) => exists|cs: Seq<nat>| cs.len() == self.reactions_spec().len() && #[trigger] balanced(
                    self.reactions_spec(),
                    cs,
                    target_chemical.0@,
                    old(left_mats)@,
                    left_mats@,
                    o as int,
                ),
                _ => false,
            });
        }
        res
    }
}

/// Whether running reaction `i` `counts[i]` times makes `n` units of
/// `target` from `ore_n` ore: of every other chemical the reactions make at
/// least what they and the target take, and they take `ore_n` ore.
pub open spec fn makes(rs: Seq<Reaction>, counts: Seq<nat>, target: Seq<char>, n: int, ore_n: int) -> bool {
    &&& counts.len() == rs.len()
    &&& forall|c: Seq<char>| c != ore() ==> #[trigger] net_use(rs, counts, c) + n * unit_of(target, c) <= 0
    &&& ore_n == n * unit_of(target, ore()) + net_use(rs, counts, ore())
}

/// Runs of the reactions added up.
pub open spec fn add_counts(a: Seq<nat>, b: Seq<nat>) -> Seq<nat> {
    Seq::new(a.len(), |i: int| a[i] + b[i])
}

proof fn lemma_net_use_add(rs: Seq<Reaction>, a: Seq<nat>, b: Seq<nat>, c: Seq<char>)
    requires
        a.len() == rs.len(),
        b.len() == rs.len(),
    ensures
        net_use(rs, add_counts(a, b), c) == net_use(rs, a, c) + net_use(rs, b, c),
    decreases rs.len(),
{
    if rs.len() > 0 {
        assert(add_counts(a, b).drop_last() =~= add_counts(a.drop_last(), b.drop_last()));
        lemma_net_use_add(rs.drop_last(), a.drop_last(), b.drop_last(), c);
        let x = in_amt(rs.last().inputs@, c) - out_amt(rs.last(), c);
        assert((a.last() + b.last()) * x == a.last() * x + b.last() * x) by (nonlinear_arith);
    }
}

/// After one more unit: what `k` units and the leftovers balanced, `k + 1`
/// units and the new leftovers balance.
proof fn lemma_one_more_unit(
    rs: Seq<Reaction>,
    acc: Seq<nat>,
    one: Seq<nat>,
    target: Seq<char>,
    k: int,
    sum: int,
    l0: Seq<(Chemical, u64)>,
    l1: Seq<(Chemical, u64)>,
    used: int,
)
    requires
        acc.len() == rs.len(),
        one.len() == rs.len(),
        forall|c: Seq<char>| c != ore() ==> #[trigger] amt(l0, c) == 0 - k * unit_of(target, c) - net_use(rs, acc, c),
        sum == k * unit_of(target, ore()) + net_use(rs, acc, ore()),
        balanced(rs, one, target, l0, l1, used),
    ensures
        forall|c: Seq<char>| c != ore() ==> #[trigger] amt(l1, c) == 0 - (k + 1) * unit_of(target, c) - net_use(rs, add_counts(acc, one), c),
        sum + used == (k + 1) * unit_of(target, ore()) + net_use(rs, add_counts(acc, one), ore()),
{
    assert forall|c: Seq<char>| c != ore() implies #[trigger] amt(l1, c) == 0 - (k + 1) * unit_of(target, c) - net_use(rs, add_counts(acc, one), c) by {
        lemma_net_use_add(rs, acc, one, c);
        assert(amt(l1, c) == amt(l0, c) - unit_of(target, c) - net_use(rs, one, c));
        assert((k + 1) * unit_of(target, c) == k * unit_of(target, c) + unit_of(target, c)) by (nonlinear_arith);
    }
    lemma_net_use_add(rs, acc, one, ore());
    assert((k + 1) * unit_of(target, ore()) == k * unit_of(target, ore()) + unit_of(target, ore())) by (nonlinear_arith);
}

/// Runs added up leave less than one run's output of each chemical made,
/// where each call did and left no more of a chemical whose reaction it did
/// not run.
proof fn lemma_runs_add(
    rs: Seq<Reaction>,
    acc: Seq<nat>,
    one: Seq<nat>,
    l0: Seq<(Chemical, u64)>,
    l1: Seq<(Chemical, u64)>,
)
    requires
        acc.len() == rs.len(),
        one.len() == rs.len(),
        runs_needed(rs, acc, l0),
        runs_needed(rs, one, l1),
        forall|d: Seq<char>| #[trigger] amt(l1, d) <= amt(l0, d) || ran_for(rs, one, d),
    ensures
        runs_needed(rs, add_counts(acc, one), l1),
{
    let sum = add_counts(acc, one);
    assert forall|r: int| 0 <= r < sum.len() && #[trigger] sum[r] > 0 implies rs[r].output.chemical.0@ != ore()
        && last_reaction(rs, rs[r].output.chemical.0@) == Some(r) && amt(l1, rs[r].output.chemical.0@)
        < rs[r].output.unit_n by {
        let d = rs[r].output.chemical.0@;
        if one[r] == 0 {
            assert(acc[r] > 0);
            assert(amt(l1, d) <= amt(l0, d) || ran_for(rs, one, d));
        }
    }
}

impl ReactionMap {
    /// The ore that `target_material` needs, its units taken apart one by
    /// one with what each leaves over used by the next.
    pub fn decompose(&self, target_material: &Material) -> (res: Result<u64, Error>)
        requires
            self.outputs_positive(),
        ensures
            match res {
                Ok(ore_n) => exists|counts: Seq<nat>| #[trigger] makes(
                    self.reactions_spec(),
                    counts,
                    target_material.chemical.0@,
                    target_material.unit_n as int,
                    ore_n as int,
                ) && left_below_run(
                    self.reactions_spec(),
                    counts,
                    target_material.chemical.0@,
                    target_material.unit_n as int,
                ),
                Err(Error::MissReaction(c)) => c.0@ != ore() && last_reaction(self.reactions_spec(), c.0@) is None,
                Err(Error::AmountOverflow(_)) => true,
                Err(Error::EndlessDecomposition(c)) => c.0@ == target_material.chemical.0@,
                Err(_) => false,
            },
    {
        let ghost rs = self.reactions@;
        let ghost target = target_material.chemical.0@;
        let mut left_mats: Vec<(Chemical, u64)> = Vec::new();
        let mut ore_unit_n: u64 = 0;
        let ghost mut acc: Seq<nat> = Seq::new(rs.len(), |i: int| 0nat);
        proof {
            assert forall|c: Seq<char>| #[trigger] net_use(rs, acc, c) == 0 by {
                lemma_net_use_zero(rs, acc, c);
            }
        }
        let mut k: u64 = 0;
        while k < target_material.unit_n
            invariant
                rs == self.reactions@,
                self.outputs_positive(),
                target == target_material.chemical.0@,
                k <= target_material.unit_n,
                acc.len() == rs.len(),
                keys_distinct(left_mats@),
                forall|c: Seq<char>| c != ore() ==> #[trigger] amt(left_mats@, c) == 0 - k * unit_of(target, c) - net_use(rs, acc, c),
                ore_unit_n == k * unit_of(target, ore()) + net_use(rs, acc, ore()),
                runs_needed(rs, acc, left_mats@),
            decreases target_material.unit_n - k,
        {
            let ghost l0 = left_mats@;
            let used = match self.decompose_one_unit(&target_material.chemical, &mut left_mats) {
                Ok(u) => u,
                Err(e) => {
                    return Err(e);
                },
            };
            proof {
                let one = choose|cs: Seq<nat>| cs.len() == self.reactions_spec().len() && #[trigger] balanced(
                    self.reactions_spec(),
                    cs,
                    target,
                    l0,
                    left_mats@,
                    used as int,
                ) && runs_needed(self.reactions_spec(), cs, left_mats@) && forall|d: Seq<char>|
                    #[trigger] amt(left_mats@, d) <= amt(l0, d) || ran_for(self.reactions_spec(), cs, d);
                lemma_one_more_unit(rs, acc, one, target, k as int, ore_unit_n as int, l0, left_mats@, used as int);
                lemma_runs_add(rs, acc, one, l0, left_mats@);
                acc = add_counts(acc, one);
            }
            ore_unit_n = match ore_unit_n.checked_add(used) {
                Some(v) => v,
                None => {
                    return Err(Error::AmountOverflow(copy_chem(&target_material.chemical)));
                },
            };
            k = k + 1;
        }
        proof {
            assert(makes(rs, acc, target, target_material.unit_n as int, ore_unit_n as int)) by {
                assert forall|c: Seq<char>| c != ore() implies #[trigger] net_use(rs, acc, c) + target_material.unit_n
                    * unit_of(target, c) <= 0 by {
                    lemma_amt_nonneg(left_mats@, c);
                }
            }
            assert(left_below_run(rs, acc, target, target_material.unit_n as int)) by {
                assert forall|r: int| 0 <= r < acc.len() && #[trigger] acc[r] > 0 implies {
                    let d = rs[r].output.chemical.0@;
                    &&& d != ore()
                    &&& last_reaction(rs, d) == Some(r)
                    &&& 0 - net_use(rs, acc, d) - target_material.unit_n * unit_of(target, d) < rs[r].output.unit_n
                } by {
                    let d = rs[r].output.chemical.0@;
                    assert(amt(left_mats@, d) < rs[r].output.unit_n);
                    assert(amt(left_mats@, d) == 0 - k * unit_of(target, d) - net_use(rs, acc, d));
                }
            }
        }
        let res: Result<u64, Error> = Ok(ore_unit_n);
        proof {
            assert(res->Ok_0 == ore_unit_n);
            assert(makes(
                self.reactions_spec(),
                acc,
                target_material.chemical.0@,
                target_material.unit_n as int,
                res->Ok_0 as int,
            ));
        }
        res
    }

    /// How many units of `target_chemical` `ore_unit_n` ore makes, and the
    /// ore left: units are taken apart one by one, what each leaves over
    /// used by the next, until the next one needs more ore than is left.
    pub fn synthesize(&self, target_chemical: &Chemical, ore_unit_n: u64) -> (res: Result<(u64, u64), Error>)
        requires
            self.outputs_positive(),
        ensures
            match res {
                Ok((made, rest)) => rest <= ore_unit_n && (exists|counts: Seq<nat>| #[trigger] makes(
                    self.reactions_spec(),
                    counts,
                    target_chemical.0@,
                    made as int,
                    ore_unit_n - rest,
                ) && left_below_run(self.reactions_spec(), counts, target_chemical.0@, made as int)) && exists|
                    counts: Seq<nat>,
                    more: int,
                | #[trigger] makes(self.reactions_spec(), counts, target_chemical.0@, made + 1, more) && left_below_run(
                    self.reactions_spec(),
                    counts,
                    target_chemical.0@,
                    made + 1,
                ) && more > ore_unit_n,
                Err(Error::MissReaction(c)) => c.0@ != ore() && last_reaction(self.reactions_spec(), c.0@) is None,
                Err(Error::AmountOverflow(_)) => true,
                Err(Error::EndlessDecomposition(c)) => c.0@ == target_chemical.0@,
                Err(_) => false,
            },
    {
        let ghost rs = self.reactions@;
        let ghost target = target_chemical.0@;
        let mut left_mats: Vec<(Chemical, u64)> = Vec::new();
        let mut ore_left = ore_unit_n;
        let mut target_unit_n: u64 = 0;
        let ghost mut acc: Seq<nat> = Seq::new(rs.len(), |i: int| 0nat);
        proof {
            assert forall|c: Seq<char>| #[trigger] net_use(rs, acc, c) == 0 by {
                lemma_net_use_zero(rs, acc, c);
            }
        }
        while target_unit_n < u64::MAX
            invariant
                rs == self.reactions@,
                self.outputs_positive(),
                target == target_chemical.0@,
                acc.len() == rs.len(),
                ore_left <= ore_unit_n,
                keys_distinct(left_mats@),
                forall|c: Seq<char>| c != ore() ==> #[trigger] amt(left_mats@, c) == 0 - target_unit_n * unit_of(target, c) - net_use(rs, acc, c),
                ore_unit_n - ore_left == target_unit_n * unit_of(target, ore()) + net_use(rs, acc, ore()),
                runs_needed(rs, acc, left_mats@),
            decreases u64::MAX - target_unit_n,
        {
            let ghost l0 = left_mats@;
            let used = match self.decompose_one_unit(target_chemical, &mut left_mats) {
                Ok(u) => u,
                Err(e) => {
                    return Err(e);
                },
            };
            let ghost one = choose|cs: Seq<nat>| cs.len() == self.reactions_spec().len() && #[trigger] balanced(
                self.reactions_spec(),
                cs,
                target,
                l0,
                left_mats@,
                used as int,
            ) && runs_needed(self.reactions_spec(), cs, left_mats@) && forall|d: Seq<char>|
                #[trigger] amt(left_mats@, d) <= amt(l0, d) || ran_for(self.reactions_spec(), cs, d);
            proof {
                lemma_one_more_unit(
                    rs,
                    acc,
                    one,
                    target,
                    target_unit_n as int,
                    ore_unit_n - ore_left,
                    l0,
                    left_mats@,
                    used as int,
                );
                lemma_runs_add(rs, acc, one, l0, left_mats@);
            }
            if used > ore_left {
                proof {
                    assert(makes(rs, acc, target, target_unit_n as int, ore_unit_n - ore_left)) by {
                        assert forall|c: Seq<char>| c != ore() implies #[trigger] net_use(rs, acc, c) + target_unit_n
                            * unit_of(target, c) <= 0 by {
                            lemma_amt_nonneg(l0, c);
                        }
                    }
                    assert(left_below_run(rs, acc, target, target_unit_n as int)) by {
                        assert forall|r: int| 0 <= r < acc.len() && #[trigger] acc[r] > 0 implies {
                            let d = rs[r].output.chemical.0@;
                            &&& d != ore()
                            &&& last_reaction(rs, d) == Some(r)
                            &&& 0 - net_use(rs, acc, d) - target_unit_n * unit_of(target, d) < rs[r].output.unit_n
                        } by {
                            let d = rs[r].output.chemical.0@;
                            assert(amt(l0, d) < rs[r].output.unit_n);
                        }
                    }
                    let acc2 = add_counts(acc, one);
                    let more = ore_unit_n - ore_left + used;
                    assert(makes(rs, acc2, target, target_unit_n + 1, more)) by {
                        assert forall|c: Seq<char>| c != ore() implies #[trigger] net_use(rs, acc2, c) + (target_unit_n + 1)
                            * unit_of(target, c) <= 0 by {
                            lemma_amt_nonneg(left_mats@, c);
                        }
                    }
                    assert(left_below_run(rs, acc2, target, target_unit_n + 1)) by {
                        assert forall|r: int| 0 <= r < acc2.len() && #[trigger] acc2[r] > 0 implies {
                            let d = rs[r].output.chemical.0@;
                            &&& d != ore()
                            &&& last_reaction(rs, d) == Some(r)
                            &&& 0 - net_use(rs, acc2, d) - (target_unit_n + 1) * unit_of(target, d) < rs[r].output.unit_n
                        } by {
                            let d = rs[r].output.chemical.0@;
                            assert(amt(left_mats@, d) < rs[r].output.unit_n);
                        }
                    }
                    assert(more > ore_unit_n);
                }
                let res: Result<(u64, u64), Error> = Ok((target_unit_n, ore_left));
                proof {
                    assert(res->Ok_0 == (target_unit_n, ore_left));
                    assert(makes(
                        self.reactions_spec(),
                        acc,
                        target_chemical.0@,
                        res->Ok_0.0 as int,
                        ore_unit_n - res->Ok_0.1,
                    ));
                }
                return res;
            }
            proof {
                acc = add_counts(acc, one);
            }
            target_unit_n = target_unit_n + 1;
            ore_left = ore_left - used;
        }
        Err(Error::AmountOverflow(copy_chem(target_chemical)))
    }
}

proof fn lemma_amt_nonneg(v: Seq<(Chemical, u64)>, c: Seq<char>)
    ensures
        amt(v, c) >= 0,
    decreases v.len(),
{
    if v.len() > 0 {
        lemma_amt_nonneg(v.drop_first(), c);
    }
}

proof fn lemma_net_use_zero(rs: Seq<Reaction>, counts: Seq<nat>, c: Seq<char>)
    requires
        counts.len() == rs.len(),
        forall|i: int| 0 <= i < counts.len() ==> counts[i] == 0,
    ensures
        net_use(rs, counts, c) == 0,
    decreases rs.len(),
{
    if rs.len() > 0 {
        lemma_net_use_zero(rs.drop_last(), counts.drop_last(), c);
    }
}

proof fn lemma_last_reaction(rs: Seq<Reaction>, c: Seq<char>)
    ensures
        match last_reaction(rs, c) {
            Some(i) => 0 <= i < rs.len() && rs[i].output.chemical.0@ == c,
            None => forall|i: int| 0 <= i < rs.len() ==> (#[trigger] rs[i]).output.chemical.0@ != c,
        },
    decreases rs.len(),
{
    if rs.len() > 0 && rs.last().output.chemical.0@ != c {
        lemma_last_reaction(rs.drop_last(), c);
        assert forall|i: int| 0 <= i < rs.len() implies (#[trigger] rs[i]).output.chemical.0@ != c || last_reaction(rs, c) is Some by {
            if i < rs.len() - 1 {
                assert(rs.drop_last()[i] == rs[i]);
            }
        }
    }
}

} // verus!
