//! A row of pots whose plants spread by rules over windows of five pots.

use vstd::prelude::*;
use crate::text::{lit_at, matches_at, string_from_chars};

verus! {

/// Whether a pot holds a plant.
#[derive(Debug, Clone, Copy, PartialEq, Eq, Hash, Structural)]
pub enum PotStatus {
    Plant,
    Empty,
}

/// Whether a character stands for a pot: `#` a plant, `.` an empty pot.
pub open spec fn is_pot_char(c: char) -> bool {
    c == '#' || c == '.'
}

/// The pot that a pot character stands for.
pub open spec fn pot_of(c: char) -> PotStatus {
    if c == '#' { PotStatus::Plant } else { PotStatus::Empty }
}

impl PotStatus {
    /// The pot that a character stands for.
    pub fn from_char(desc: char) -> (res: PotStatus)
        requires
            is_pot_char(desc),
        ensures
            res == pot_of(desc),
    {
        match desc {
            '#' => PotStatus::Plant,
            _ => PotStatus::Empty,
        }
    }
}

/// Number of a window of five pots: pot `i` holding a plant counts `2^i`.
pub open spec fn window_code(w: Seq<PotStatus>) -> int {
    (if w[0] == PotStatus::Plant { 1int } else { 0 }) + (if w[1] == PotStatus::Plant { 2int } else { 0 })
        + (if w[2] == PotStatus::Plant { 4int } else { 0 }) + (if w[3] == PotStatus::Plant { 8int } else { 0 })
        + (if w[4] == PotStatus::Plant { 16int } else { 0 })
}

fn code_of(w: &[PotStatus; 5]) -> (res: usize)
    ensures
        res == window_code(w@),
        res < 32,
{
    let mut code: usize = 0;
    if w[0] == PotStatus::Plant { code = code + 1; }
    if w[1] == PotStatus::Plant { code = code + 2; }
    if w[2] == PotStatus::Plant { code = code + 4; }
    if w[3] == PotStatus::Plant { code = code + 8; }
    if w[4] == PotStatus::Plant { code = code + 16; }
    code
}

proof fn lemma_code_injective(a: Seq<PotStatus>, b: Seq<PotStatus>)
    requires
        a.len() == 5,
        b.len() == 5,
        window_code(a) == window_code(b),
    ensures
        a == b,
{
    assert(a =~= b);
}

/// The rules of growth: what the middle pot of each window of five becomes.
pub struct GrowRuleMap {
    table: Vec<Option<PotStatus>>,
}

impl GrowRuleMap {
    pub closed spec fn wf(&self) -> bool {
        self.table.len() == 32
    }

    /// The rule for a window of five pots, if there is one.
    pub closed spec fn rule(&self, w: Seq<PotStatus>) -> Option<PotStatus> {
        self.table@[window_code(w)]
    }

    /// No rules.
    pub fn new() -> (res: GrowRuleMap)
        ensures
            res.wf(),
            forall|w: Seq<PotStatus>| w.len() == 5 ==> #[trigger] res.rule(w) is None,
    {
        let mut table: Vec<Option<PotStatus>> = Vec::new();
        let mut i: usize = 0;
        while i < 32
            invariant
                i <= 32,
                table.len() == i,
                forall|k: int| 0 <= k < i ==> table@[k] is None,
            decreases 32 - i,
        {
            table.push(None);
            i = i + 1;
        }
        GrowRuleMap { table }
    }

    /// Adds the rule that window `pots` gives `res`, unless the window has a
    /// rule already.
    pub fn add_rule_pots(&mut self, pots: &[PotStatus; 5], res: PotStatus)
        requires
            old(self).wf(),
        ensures
            final(self).wf(),
            final(self).rule(pots@) == (match old(self).rule(pots@) {
                Some(r) => Some(r),
                None => Some(res),
            }),
            forall|w: Seq<PotStatus>| w.len() == 5 && w != pots@ ==> #[trigger] final(self).rule(w) == old(self).rule(w),
    {
        let code = code_of(pots);
        if self.table[code].is_none() {
            self.table.set(code, Some(res));
        }
        proof {
            assert forall|w: Seq<PotStatus>| w.len() == 5 && w != pots@ implies #[trigger] self.rule(w) == old(self).rule(w) by {
                if window_code(w) == window_code(pots@) {
                    lemma_code_injective(w, pots@);
                }
            }
        }
    }

    /// Reads a rule `ppppp => r`, found anywhere in `desc`, and adds it as
    /// `add_rule_pots` does; tells whether `desc` held a rule.
    pub fn add_rule(&mut self, desc: &str) -> (res: bool)
        requires
            old(self).wf(),
        ensures
            final(self).wf(),
            res == (exists|i: int| #[trigger] rule_text_at(desc@, i)),
            !res ==> final(self).rule_table() == old(self).rule_table(),
            res ==> ({
                let i = first_rule_text(desc@);
                let pots = rule_pots(desc@, i);
                &&& final(self).rule(pots) == (match old(self).rule(pots) {
                    Some(r) => Some(r),
                    None => Some(pot_of(desc@[i + 9])),
                })
                &&& forall|w: Seq<PotStatus>| w.len() == 5 && w != pots ==> #[trigger] final(self).rule(w) == old(self).rule(w)
            }),
    {
        let n = desc.unicode_len();
        let mut i: usize = 0;
        while i < n
            invariant
                i <= n,
                n == desc@.len(),
                *self == *old(self),
                self.wf(),
                forall|j: int| 0 <= j < i ==> !#[trigger] rule_text_at(desc@, j),
            decreases n - i,
        {
            if rule_text_at_exec(desc, i) {
                let mut pots = [PotStatus::Empty; 5];
                let mut k: usize = 0;
                while k < 5
                    invariant
                        k <= 5,
                        n == desc@.len(),
                        rule_text_at(desc@, i as int),
                        *self == *old(self),
                        self.wf(),
                        forall|j: int| 0 <= j < k ==> pots@[j] == pot_of(desc@[i + j]),
                    decreases 5 - k,
                {
                    pots.set(k, PotStatus::from_char(desc.get_char(i + k)));
                    k = k + 1;
                }
                let r = PotStatus::from_char(desc.get_char(i + 9));
                proof {
                    assert(pots@ =~= rule_pots(desc@, i as int));
                    lemma_first_rule_text(desc@, i as int);
                }
                self.add_rule_pots(&pots, r);
                return true;
            }
            i = i + 1;
        }
        false
    }

    /// The whole table of rules, one entry per window number.
    pub closed spec fn rule_table(&self) -> Seq<Option<PotStatus>> {
        self.table@
    }

    /// What the middle pot of window `cur_status` becomes; the window must
    /// have a rule.
    pub fn apply(&self, cur_status: &[PotStatus; 5]) -> (res: PotStatus)
        requires
            self.wf(),
            self.rule(cur_status@) is Some,
        ensures
            Some(res) == self.rule(cur_status@),
    {
        let code = code_of(cur_status);
        match self.table[code] {
            Some(s) => s,
            None => PotStatus::Empty,
        }
    }

    /// What the middle pot of window `cur_status` becomes, or `def_status`
    /// when the window has no rule.
    pub fn apply_or(&self, cur_status: &[PotStatus; 5], def_status: PotStatus) -> (res: PotStatus)
        requires
            self.wf(),
        ensures
            res == match self.rule(cur_status@) {
                Some(s) => s,
                None => def_status,
            },
    {
        let code = code_of(cur_status);
        match self.table[code] {
            Some(s) => s,
            None => def_status,
        }
    }
}

/// Whether a rule `ppppp => r` starts at character place `i` of `s`.
pub open spec fn rule_text_at(s: Seq<char>, i: int) -> bool {
    &&& 0 <= i && i + 10 <= s.len()
    &&& forall|k: int| 0 <= k < 5 ==> is_pot_char(#[trigger] s[i + k])
    &&& s[i + 5] == ' ' && s[i + 6] == '=' && s[i + 7] == '>' && s[i + 8] == ' '
    &&& is_pot_char(s[i + 9])
}

/// The first place where a rule starts in `s`.
pub open spec fn first_rule_text(s: Seq<char>) -> int {
    choose|i: int| rule_text_at(s, i) && forall|j: int| 0 <= j < i ==> !#[trigger] rule_text_at(s, j)
}

/// The window of a rule that starts at place `i` of `s`.
pub open spec fn rule_pots(s: Seq<char>, i: int) -> Seq<PotStatus> {
    Seq::new(5, |k: int| pot_of(s[i + k]))
}

proof fn lemma_first_rule_text(s: Seq<char>, i: int)
    requires
        rule_text_at(s, i),
        forall|j: int| 0 <= j < i ==> !#[trigger] rule_text_at(s, j),
    ensures
        first_rule_text(s) == i,
{
    let f = first_rule_text(s);
    assert(rule_text_at(s, f) && forall|j: int| 0 <= j < f ==> !#[trigger] rule_text_at(s, j));
    if f < i {
        assert(!rule_text_at(s, f));
    } else if f > i {
        assert(!rule_text_at(s, i));
    }
}

fn is_pot_char_exec(c: char) -> (res: bool)
    ensures
        res == is_pot_char(c),
{
    c == '#' || c == '.'
}

fn rule_text_at_exec(s: &str, i: usize) -> (res: bool)
    ensures
        res == rule_text_at(s@, i as int),
{
    let n = s.unicode_len();
    if i > n || n - i < 10 {
        return false;
    }
    let mut k: usize = 0;
    while k < 5
        invariant
            k <= 5,
            i + 10 <= n,
            n == s@.len(),
            forall|j: int| 0 <= j < k ==> is_pot_char(#[trigger] s@[i + j]),
        decreases 5 - k,
    {
        if !is_pot_char_exec(s.get_char(i + k)) {
            return false;
        }
        k = k + 1;
    }
    s.get_char(i + 5) == ' ' && s.get_char(i + 6) == '=' && s.get_char(i + 7) == '>'
        && s.get_char(i + 8) == ' ' && is_pot_char_exec(s.get_char(i + 9))
}

/// The pot at place `ind` of a row whose first pot is at place 0; pots
/// outside the row are empty.
pub open spec fn pot_at(pots: Seq<PotStatus>, ind: int) -> PotStatus {
    if 0 <= ind < pots.len() { pots[ind] } else { PotStatus::Empty }
}

/// The window of five pots around place `ind`.
pub open spec fn window_at(pots: Seq<PotStatus>, ind: int) -> Seq<PotStatus> {
    Seq::new(5, |k: int| pot_at(pots, ind + k - 2))
}

/// The place of the first plant.
pub open spec fn first_plant(pots: Seq<PotStatus>) -> int {
    choose|i: int| 0 <= i < pots.len() && pots[i] == PotStatus::Plant
        && forall|j: int| 0 <= j < i ==> pots[j] != PotStatus::Plant
}

/// The place of the last plant.
pub open spec fn last_plant(pots: Seq<PotStatus>) -> int {
    choose|i: int| 0 <= i < pots.len() && pots[i] == PotStatus::Plant
        && forall|j: int| i < j < pots.len() ==> pots[j] != PotStatus::Plant
}

pub open spec fn has_plant(pots: Seq<PotStatus>) -> bool {
    exists|i: int| 0 <= i < pots.len() && pots[i] == PotStatus::Plant
}

/// Whether every window from two before the first plant to two after the
/// last has a rule, so that a generation can be grown.
#[verifier::opaque]
pub open spec fn gen_ok(rules: GrowRuleMap, pots: Seq<PotStatus>, first_ind: int) -> bool {
    has_plant(pots) ==> {
        &&& forall|i: int| first_plant(pots) - 2 <= i <= last_plant(pots) + 2 ==> #[trigger] rules.rule(window_at(pots, i)) is Some
        &&& i32::MIN <= first_ind + first_plant(pots) - 2 <= i32::MAX
    }
}

/// The pots of the next generation, from two before the first plant to two
/// after the last, and the place of the first of them.
#[verifier::opaque]
pub open spec fn next_gen(rules: GrowRuleMap, pots: Seq<PotStatus>, first_ind: int) -> (Seq<PotStatus>, int) {
    if !has_plant(pots) {
        (pots, first_ind)
    } else {
        let start = first_plant(pots) - 2;
        let len = last_plant(pots) - first_plant(pots) + 5;
        (
            Seq::new(len as nat, |j: int| rules.rule(window_at(pots, start + j))->0),
            first_ind + start,
        )
    }
}

/// The pots after `k` generations.
pub open spec fn gens(rules: GrowRuleMap, pots: Seq<PotStatus>, first_ind: int, k: nat) -> (Seq<PotStatus>, int)
    decreases k,
{
    if k == 0 {
        (pots, first_ind)
    } else {
        let p = gens(rules, pots, first_ind, (k - 1) as nat);
        next_gen(rules, p.0, p.1)
    }
}

/// Whether every one of `k` generations can be grown within the limits.
pub open spec fn gens_ok(rules: GrowRuleMap, pots: Seq<PotStatus>, first_ind: int, k: nat) -> bool {
    forall|j: nat| j < k ==> {
        let p = #[trigger] gens(rules, pots, first_ind, j);
        gen_ok(rules, p.0, p.1) && p.0.len() < 0x7fff_fffc
    }
}

/// A row of pots and the rules by which it grows.
pub struct PlantSimulator {
    rules: GrowRuleMap,
    pots: Vec<PotStatus>,
    first_ind: i32,
}

impl PlantSimulator {
    pub closed spec fn rules_spec(&self) -> GrowRuleMap {
        self.rules
    }

    pub closed spec fn pots_spec(&self) -> Seq<PotStatus> {
        self.pots@
    }

    pub closed spec fn first_ind_spec(&self) -> i32 {
        self.first_ind
    }

    pub closed spec fn wf(&self) -> bool {
        self.rules.wf()
    }

    /// Reads `initial state: ...`, found anywhere in `init_desc`, as the
    /// first generation; `None` when there is none. The rules must make an
    /// empty window stay empty.
    pub fn new(init_desc: &str, rules_map: GrowRuleMap) -> (res: Option<PlantSimulator>)
        requires
            rules_map.wf(),
            rules_map.rule(seq![PotStatus::Empty, PotStatus::Empty, PotStatus::Empty, PotStatus::Empty, PotStatus::Empty])
                == Some(PotStatus::Empty),
        ensures
            res is Some == (exists|i: int| #[trigger] init_text_at(init_desc@, i)),
            res matches Some(sim) ==> {
                let i = first_init_text(init_desc@);
                &&& sim.wf()
                &&& sim.rules_spec() == rules_map
                &&& sim.first_ind_spec() == 0
                &&& sim.pots_spec() == init_pots(init_desc@, i + 15)
            },
    {
        let lit = "initial state: ";
        proof {
            reveal_strlit("initial state: ");
        }
        let n = init_desc.unicode_len();
        let mut i: usize = 0;
        while i < n
            invariant
                n == init_desc@.len(),
                lit@ == "initial state: "@,
                lit@.len() == 15,
                rules_map.wf(),
                forall|j: int| 0 <= j < i ==> !#[trigger] init_text_at(init_desc@, j),
            decreases n - i,
        {
            if matches_at(init_desc, i, lit) && i + 15 < n && is_pot_char_exec(init_desc.get_char(i + 15)) {
                proof {
                    assert(init_text_at(init_desc@, i as int));
                    lemma_first_init_text(init_desc@, i as int);
                }
                let mut pots: Vec<PotStatus> = Vec::new();
                let mut k: usize = i + 15;
                while k < n && is_pot_char_exec(init_desc.get_char(k))
                    invariant
                        i + 15 <= k <= n,
                        n == init_desc@.len(),
                        forall|j: int| i + 15 <= j < k ==> is_pot_char(#[trigger] init_desc@[j]),
                        pots@ == Seq::new((k - i - 15) as nat, |j: int| pot_of(init_desc@[i + 15 + j])),
                    decreases n - k,
                {
                    pots.push(PotStatus::from_char(init_desc.get_char(k)));
                    k = k + 1;
                    proof {
                        assert(pots@ =~= Seq::new((k - i - 15) as nat, |j: int| pot_of(init_desc@[i + 15 + j])));
                    }
                }
                proof {
                    lemma_pot_run(init_desc@, i + 15, k as int);
                    assert(pots@ =~= init_pots(init_desc@, i + 15));
                    assert(first_init_text(init_desc@) == i);
                    assert(rules_map.wf());
                }
                return Some(PlantSimulator { rules: rules_map, pots, first_ind: 0 });
            }
            proof {
                assert(!init_text_at(init_desc@, i as int));
            }
            i = i + 1;
        }
        None
    }

    /// Grows `gen_n` generations.
    pub fn sim_gen(&mut self, gen_n: u32)
        requires
            old(self).wf(),
            gens_ok(old(self).rules_spec(), old(self).pots_spec(), old(self).first_ind_spec() as int, gen_n as nat),
        ensures
            final(self).wf(),
            final(self).rules_spec() == old(self).rules_spec(),
            (final(self).pots_spec(), final(self).first_ind_spec() as int) == gens(old(self).rules_spec(),
                old(self).pots_spec(), old(self).first_ind_spec() as int, gen_n as nat),
    {
        let ghost p0 = self.pots@;
        let ghost f0 = self.first_ind as int;
        let mut g: u32 = 0;
        while g < gen_n
            invariant
                g <= gen_n,
                self.wf(),
                self.rules == old(self).rules,
                p0 == old(self).pots@,
                f0 == old(self).first_ind as int,
                gens_ok(self.rules, p0, f0, gen_n as nat),
                (self.pots@, self.first_ind as int) == gens(self.rules, p0, f0, g as nat),
            decreases gen_n - g,
        {
            proof {
                let p = gens(self.rules, p0, f0, g as nat);
                assert(gen_ok(self.rules, p.0, p.1) && p.0.len() < 0x7fff_fffc);
            }
            self.sim_one_gen();
            g = g + 1;
        }
    }

    /// Grows one generation; a row with no plant stays as it is.
    pub fn sim_one_gen(&mut self)
        requires
            old(self).wf(),
            gen_ok(old(self).rules_spec(), old(self).pots_spec(), old(self).first_ind_spec() as int),
            old(self).pots_spec().len() < 0x7fff_fffc,
        ensures
            final(self).wf(),
            final(self).rules_spec() == old(self).rules_spec(),
            (final(self).pots_spec(), final(self).first_ind_spec() as int) == next_gen(old(self).rules_spec(),
                old(self).pots_spec(), old(self).first_ind_spec() as int),
    {
        proof {
            reveal(gen_ok);
            reveal(next_gen);
        }
        let n = self.pots.len();
        let mut first: usize = 0;
        while first < n && self.pots[first] != PotStatus::Plant
            invariant
                first <= n,
                n == self.pots.len(),
                forall|j: int| 0 <= j < first ==> self.pots@[j] != PotStatus::Plant,
            decreases n - first,
        {
            first = first + 1;
        }
        if first == n {
            return;
        }
        let mut last: usize = n - 1;
        while self.pots[last] != PotStatus::Plant
            invariant
                first <= last < n,
                n == self.pots.len(),
                self.pots@[first as int] == PotStatus::Plant,
                forall|j: int| last < j < n ==> self.pots@[j] != PotStatus::Plant,
            decreases last,
        {
            last = last - 1;
        }
        let ghost pots = self.pots@;
        proof {
            lemma_first_last(pots, first as int, last as int);
        }
        let start_ind: i32 = first as i32 - 2;
        let end_ind: i32 = last as i32 + 2;
        let next_pots = self.grown(start_ind, end_ind);
        proof {
            assert(next_pots@ =~= Seq::new((last - first + 5) as nat, |j: int| self.rules.rule(window_at(pots, first - 2 + j))->0));
        }
        self.pots = next_pots;
        self.first_ind = self.first_ind + start_ind;
    }

    /// The next generation of the pots from `start_ind` to `end_ind`.
    fn grown(&self, start_ind: i32, end_ind: i32) -> (res: Vec<PotStatus>)
        requires
            self.wf(),
            -2 <= start_ind <= end_ind,
            end_ind < 0x7fff_fffe,
            self.pots@.len() < 0x7fff_fffc,
            forall|m: int| start_ind <= m <= end_ind ==> #[trigger] self.rules.rule(window_at(self.pots@, m)) is Some,
        ensures
            res@.len() == end_ind - start_ind + 1,
            forall|j: int| 0 <= j < res@.len() ==> res@[j] == #[trigger] self.rules.rule(window_at(self.pots@, start_ind + j))->0,
    {
        let mut next_pots: Vec<PotStatus> = Vec::new();
        let mut i: i32 = start_ind;
        while i <= end_ind
            invariant
                start_ind <= i <= end_ind + 1,
                -2 <= start_ind,
                end_ind < 0x7fff_fffe,
                self.pots@.len() < 0x7fff_fffc,
                self.wf(),
                forall|m: int| start_ind <= m <= end_ind ==> #[trigger] self.rules.rule(window_at(self.pots@, m)) is Some,
                next_pots@.len() == i - start_ind,
                forall|j: int| 0 <= j < next_pots@.len() ==> next_pots@[j] == #[trigger] self.rules.rule(window_at(self.pots@, start_ind + j))->0,
            decreases end_ind + 1 - i,
        {
            let mut cur_pots = [PotStatus::Empty; 5];
            let mut k: i32 = 0;
            while k < 5
                invariant
                    0 <= k <= 5,
                    start_ind <= i <= end_ind,
                    -2 <= start_ind,
                    end_ind < 0x7fff_fffe,
                    self.pots@.len() < 0x7fff_fffc,
                    forall|j: int| 0 <= j < k ==> cur_pots@[j] == #[trigger] pot_at(self.pots@, i + j - 2),
                decreases 5 - k,
            {
                let idx = i - 2 + k;
                cur_pots.set(k as usize, self.pot_status(idx));
                k = k + 1;
            }
            proof {
                assert(cur_pots@ =~= window_at(self.pots@, i as int));
            }
            let next_status = self.rules.apply(&cur_pots);
            next_pots.push(next_status);
            proof {
                assert(next_pots@[i - start_ind] == self.rules.rule(window_at(self.pots@, start_ind + (i - start_ind)))->0);
            }
            i = i + 1;
        }
        next_pots
    }

    /// The pots of the current generation, from the one at `ind_offset` on.
    pub fn cur_pots(&self) -> (res: &[PotStatus])
        ensures
            res@ == self.pots_spec(),
    {
        self.pots.as_slice()
    }

    /// The place of the first pot of the current generation.
    pub fn ind_offset(&self) -> (res: i32)
        ensures
            res == self.first_ind_spec(),
    {
        self.first_ind
    }

    /// The pots as a string: `1` for a plant, `0` for an empty pot.
    pub fn pots_str(&self) -> (res: String)
        ensures
            res@ == self.pots_spec().map_values(|p: PotStatus| if p == PotStatus::Plant { '1' } else { '0' }),
    {
        let mut chars: Vec<char> = Vec::new();
        let mut i: usize = 0;
        while i < self.pots.len()
            invariant
                i <= self.pots.len(),
                chars@ == self.pots@.subrange(0, i as int).map_values(|p: PotStatus| if p == PotStatus::Plant { '1' } else { '0' }),
            decreases self.pots.len() - i,
        {
            chars.push(match self.pots[i] {
                PotStatus::Plant => '1',
                PotStatus::Empty => '0',
            });
            i = i + 1;
            proof {
                assert(chars@ =~= self.pots@.subrange(0, i as int).map_values(|p: PotStatus| if p == PotStatus::Plant { '1' } else { '0' }));
            }
        }
        proof {
            assert(self.pots@.subrange(0, i as int) =~= self.pots@);
        }
        string_from_chars(&chars)
    }

    /// The pot at place `ind` of the row; places outside it are empty.
    fn pot_status(&self, ind: i32) -> (res: PotStatus)
        requires
            self.pots@.len() < 0x7fff_ffff,
        ensures
            res == pot_at(self.pots@, ind as int),
    {
        if ind < 0 || ind >= self.pots.len() as i32 {
            PotStatus::Empty
        } else {
            self.pots[ind as usize]
        }
    }
}

proof fn lemma_first_last(pots: Seq<PotStatus>, first: int, last: int)
    requires
        0 <= first <= last < pots.len(),
        pots[first] == PotStatus::Plant,
        pots[last] == PotStatus::Plant,
        forall|j: int| 0 <= j < first ==> pots[j] != PotStatus::Plant,
        forall|j: int| last < j < pots.len() ==> pots[j] != PotStatus::Plant,
    ensures
        has_plant(pots),
        first_plant(pots) == first,
        last_plant(pots) == last,
{
    let f = first_plant(pots);
    assert(0 <= f < pots.len() && pots[f] == PotStatus::Plant && forall|j: int| 0 <= j < f ==> pots[j] != PotStatus::Plant);
    if f < first {
    } else if f > first {
        assert(pots[first] != PotStatus::Plant);
    }
    let l = last_plant(pots);
    assert(0 <= l < pots.len() && pots[l] == PotStatus::Plant && forall|j: int| l < j < pots.len() ==> pots[j] != PotStatus::Plant);
    if l > last {
    } else if l < last {
        assert(pots[last] != PotStatus::Plant);
    }
}

/// Whether `initial state: ` followed by a pot starts at place `i` of `s`.
pub open spec fn init_text_at(s: Seq<char>, i: int) -> bool {
    lit_at(s, i, "initial state: "@) && i + 15 < s.len() && is_pot_char(s[i + 15])
}

/// The first place where the initial state starts in `s`.
pub open spec fn first_init_text(s: Seq<char>) -> int {
    choose|i: int| init_text_at(s, i) && forall|j: int| 0 <= j < i ==> !#[trigger] init_text_at(s, j)
}

/// The place where the run of pot characters of `s` from place `from` ends.
pub open spec fn pot_run_end(s: Seq<char>, from: int) -> int
    decreases s.len() - from,
{
    if from < 0 || from >= s.len() || !is_pot_char(s[from]) {
        from
    } else {
        pot_run_end(s, from + 1)
    }
}

/// The pots of the run of pot characters of `s` from place `from` on.
pub open spec fn init_pots(s: Seq<char>, from: int) -> Seq<PotStatus> {
    Seq::new((pot_run_end(s, from) - from) as nat, |j: int| pot_of(s[from + j]))
}

proof fn lemma_pot_run(s: Seq<char>, from: int, k: int)
    requires
        0 <= from <= k <= s.len(),
        forall|j: int| from <= j < k ==> is_pot_char(#[trigger] s[j]),
        k == s.len() || !is_pot_char(s[k]),
    ensures
        pot_run_end(s, from) == k,
    decreases k - from,
{
    if from < k {
        lemma_pot_run(s, from + 1, k);
    }
}

proof fn lemma_first_init_text(s: Seq<char>, i: int)
    requires
        init_text_at(s, i),
        forall|j: int| 0 <= j < i ==> !#[trigger] init_text_at(s, j),
    ensures
        first_init_text(s) == i,
{
    let f = first_init_text(s);
    assert(init_text_at(s, f) && forall|j: int| 0 <= j < f ==> !#[trigger] init_text_at(s, j));
    if f < i {
        assert(!init_text_at(s, f));
    } else if f > i {
        assert(!init_text_at(s, i));
    }
}

} // verus!
