//! Armies of unit groups that attack each other with typed damage.

use vstd::prelude::*;
use crate::text::{
    caps_view, group, group_int, group_int_spec, regex_captures, regex_captures_all, regex_captures_spec,
    regex_all_captures_spec, all_captures_view, str_eq,
};

verus! {

/// Errors met while reading armies.
#[derive(Debug)]
pub enum Error {
    /// A line that does not describe a group.
    NotMatchGroupPattern(String),
    /// A group description whose unit part cannot be read.
    NotMatchWithUnitPattern(String),
    /// A damage type name that is not known.
    UnknownDamageType(String),
}

/// A kind of damage.
#[derive(Debug, Clone, Copy, PartialEq, Eq, Hash, Structural)]
pub enum DamageType {
    Bludgeoning,
    Cold,
    Fire,
    Radiation,
    Slashing,
}

/// The damage type that a name stands for.
pub open spec fn dmg_name(s: Seq<char>) -> Option<DamageType> {
    if s == "bludgeoning"@ {
        Some(DamageType::Bludgeoning)
    } else if s == "cold"@ {
        Some(DamageType::Cold)
    } else if s == "fire"@ {
        Some(DamageType::Fire)
    } else if s == "radiation"@ {
        Some(DamageType::Radiation)
    } else if s == "slashing"@ {
        Some(DamageType::Slashing)
    } else {
        None
    }
}

impl DamageType {
    /// The damage type named `value`.
    pub fn try_from(value: &str) -> (res: Result<DamageType, Error>)
        ensures
            match dmg_name(value@) {
                Some(t) => res == Ok::<DamageType, Error>(t),
                None => res matches Err(Error::UnknownDamageType(n)) && n@ == value@,
            },
    {
        if str_eq(value, "bludgeoning") {
            Ok(DamageType::Bludgeoning)
        } else if str_eq(value, "cold") {
            Ok(DamageType::Cold)
        } else if str_eq(value, "fire") {
            Ok(DamageType::Fire)
        } else if str_eq(value, "radiation") {
            Ok(DamageType::Radiation)
        } else if str_eq(value, "slashing") {
            Ok(DamageType::Slashing)
        } else {
            Err(Error::UnknownDamageType(value.to_string()))
        }
    }
}

/// A word.
pub const WORD_PATTERN: &'static str = r"\w+";

/// The whole text of a match, from its group 0.
pub open spec fn match_text(m: Seq<Option<Seq<char>>>) -> Seq<char> {
    if m.len() > 0 && m[0] is Some {
        m[0]->0
    } else {
        Seq::empty()
    }
}

/// The damage types that the matched words name, in order; the first word
/// that names none is the error.
pub open spec fn dmg_list(ms: Seq<Seq<Option<Seq<char>>>>) -> Result<Seq<DamageType>, Seq<char>>
    decreases ms.len(),
{
    if ms.len() == 0 {
        Ok(Seq::empty())
    } else {
        match dmg_list(ms.drop_last()) {
            Err(w) => Err(w),
            Ok(l) => match dmg_name(match_text(ms.last())) {
                Some(t) => Ok(l.push(t)),
                None => Err(match_text(ms.last())),
            },
        }
    }
}

/// A word that names no damage type decides the whole list.
proof fn lemma_dmg_list_err(ms: Seq<Seq<Option<Seq<char>>>>, k: int)
    requires
        0 <= k <= ms.len(),
        dmg_list(ms.take(k)) is Err,
    ensures
        dmg_list(ms) == dmg_list(ms.take(k)),
    decreases ms.len() - k,
{
    if k < ms.len() {
        assert(ms.take(k + 1).drop_last() =~= ms.take(k));
        lemma_dmg_list_err(ms, k + 1);
    } else {
        assert(ms.take(k) =~= ms);
    }
}

/// The immunities of a unit.
pub const IMM_PATTERN: &'static str = r"immune to ([\w\s,]+)";

/// The weaknesses of a unit.
pub const WEAK_PATTERN: &'static str = r"weak to ([\w\s,]+)";

/// The damage types that the part of `text` caught by `pattern` names; none
/// where the pattern does not match.
pub open spec fn defense(text: Seq<char>, pattern: Seq<char>) -> Result<Seq<DamageType>, Seq<char>> {
    match regex_captures_spec(pattern, text) {
        Some(c) => if c.len() > 1 && c[1] is Some {
            dmg_list(regex_all_captures_spec(WORD_PATTERN@, c[1]->0))
        } else {
            Ok(Seq::empty())
        },
        None => Ok(Seq::empty()),
    }
}

/// The unit part of a group line.
pub const UNIT_PATTERN: &'static str = r"each with (\d+) hit points (\(.+\))?\s*with an attack that does (\d+) (\w+) damage at initiative (\d+)";

/// The text of group `i`, or nothing where it took no part.
pub open spec fn group_text(c: Seq<Option<Seq<char>>>, i: int) -> Seq<char> {
    if 0 <= i < c.len() && c[i] is Some {
        c[i]->0
    } else {
        Seq::empty()
    }
}

/// What reading a unit from `text` gives, from what the unit pattern
/// captured in it: hit points, then immunities and weaknesses from the part
/// in brackets, then damage, its type and the initiative; a number beyond
/// `usize` makes the text no unit.
pub open spec fn unit_read(caps: Option<Seq<Option<Seq<char>>>>, text: Seq<char>, res: Result<Unit, Error>) -> bool {
    match caps {
        None => res matches Err(Error::NotMatchWithUnitPattern(t)) && t@ == text,
        Some(c) => {
            let def = group_text(c, 2);
            match group_int_spec(c, 1, 0, usize::MAX as int) {
                None => res matches Err(Error::NotMatchWithUnitPattern(t)) && t@ == text,
                Some(h) => match defense(def, IMM_PATTERN@) {
                    Err(w) => res matches Err(Error::UnknownDamageType(t)) && t@ == w,
                    Ok(imm) => match defense(def, WEAK_PATTERN@) {
                        Err(w) => res matches Err(Error::UnknownDamageType(t)) && t@ == w,
                        Ok(weak) => match group_int_spec(c, 3, 0, usize::MAX as int) {
                            None => res matches Err(Error::NotMatchWithUnitPattern(t)) && t@ == text,
                            Some(d) => match dmg_name(group_text(c, 4)) {
                                None => res matches Err(Error::UnknownDamageType(t)) && t@ == group_text(c, 4),
                                Some(dt) => match group_int_spec(c, 5, 0, usize::MAX as int) {
                                    None => res matches Err(Error::NotMatchWithUnitPattern(t)) && t@ == text,
                                    Some(i) => res matches Ok(u) && u.health_spec() == h && u.immune_spec() == imm
                                        && u.weak_spec() == weak && u.damage_spec() == d && u.damage_type_spec() == dt
                                        && u.initiative_spec() == i,
                                },
                            },
                        },
                    },
                },
            }
        },
    }
}

/// The kind of unit that makes up a group.
#[derive(Debug, Clone)]
pub struct Unit {
    health_point: usize,
    immune_dmg_types: Vec<DamageType>,
    weak_dmg_types: Vec<DamageType>,
    dmg_point: usize,
    dmg_type: DamageType,
    initiative: usize,
}

/// The multiplier of damage of type `t` against a unit weak to `weak` and
/// immune to `immune`: 2 if weak, else 0 if immune, else 1.
pub open spec fn ratio_spec(weak: Seq<DamageType>, immune: Seq<DamageType>, t: DamageType) -> usize {
    if weak.contains(t) {
        2
    } else if immune.contains(t) {
        0
    } else {
        1
    }
}

fn contains_type(v: &Vec<DamageType>, t: DamageType) -> (res: bool)
    ensures
        res == v@.contains(t),
{
    let mut i: usize = 0;
    while i < v.len()
        invariant
            i <= v.len(),
            forall|j: int| 0 <= j < i ==> v@[j] != t,
        decreases v.len() - i,
    {
        if v[i] == t {
            return true;
        }
        i = i + 1;
    }
    false
}

impl Unit {
    /// Reads a unit from the rest of a group line.
    pub fn try_from(value: &str) -> (res: Result<Unit, Error>)
        ensures
            unit_read(regex_captures_spec(UNIT_PATTERN@, value@), value@, res),
    {
        match regex_captures(UNIT_PATTERN, value) {
            Some(caps) => Self::from_captures(&caps, value),
            None => Err(Error::NotMatchWithUnitPattern(value.to_string())),
        }
    }

    /// The unit that the groups `caps` of a match of `UNIT_PATTERN` in
    /// `value` write.
    pub fn from_captures(caps: &Vec<Option<String>>, value: &str) -> (res: Result<Unit, Error>)
        ensures
            unit_read(Some(caps_view(caps@)), value@, res),
    {
        let ghost c = caps_view(caps@);
        let health_point = match group_int(caps, 1, 0, usize::MAX as i128) {
            Some(h) => h as usize,
            None => return Err(Error::NotMatchWithUnitPattern(value.to_string())),
        };
        let empty = String::new();
        let def_trait_text = match group(caps, 2) {
            Some(t) => {
                proof {
                    assert(c[2] == Some(t@));
                }
                t
            },
            None => &empty,
        };
        proof {
            assert(def_trait_text@ == group_text(c, 2));
        }
        let immune_dmg_types = match Self::parse_defense_trait(def_trait_text.as_str(), IMM_PATTERN) {
            Ok(v) => v,
            Err(e) => return Err(e),
        };
        let weak_dmg_types = match Self::parse_defense_trait(def_trait_text.as_str(), WEAK_PATTERN) {
            Ok(v) => v,
            Err(e) => return Err(e),
        };
        let dmg_point = match group_int(caps, 3, 0, usize::MAX as i128) {
            Some(d) => d as usize,
            None => return Err(Error::NotMatchWithUnitPattern(value.to_string())),
        };
        let dmg_name_text = match group(caps, 4) {
            Some(t) => {
                proof {
                    assert(c[4] == Some(t@));
                }
                t.as_str()
            },
            None => {
                proof {
                    reveal_strlit("");
                }
                ""
            },
        };
        proof {
            assert(dmg_name_text@ == group_text(c, 4));
        }
        let dmg_type = match DamageType::try_from(dmg_name_text) {
            Ok(t) => t,
            Err(e) => return Err(e),
        };
        let initiative = match group_int(caps, 5, 0, usize::MAX as i128) {
            Some(i) => i as usize,
            None => return Err(Error::NotMatchWithUnitPattern(value.to_string())),
        };
        Ok(Unit::new(health_point, immune_dmg_types, weak_dmg_types, dmg_point, dmg_type, initiative))
    }

    /// The damage types named in the part of `value` that `pattern` catches.
    fn parse_defense_trait(value: &str, pattern: &str) -> (res: Result<Vec<DamageType>, Error>)
        ensures
            match defense(value@, pattern@) {
                Ok(l) => res matches Ok(v) && v@ == l,
                Err(w) => res matches Err(Error::UnknownDamageType(t)) && t@ == w,
            },
    {
        match regex_captures(pattern, value) {
            Some(caps) => match group(&caps, 1) {
                Some(t) => {
                    proof {
                        assert(caps_view(caps@)[1] == Some(t@));
                    }
                    Self::parse_dmg_type_list(t.as_str())
                },
                None => Ok(Vec::new()),
            },
            None => Ok(Vec::new()),
        }
    }

    /// The damage types that the words of `value` name, in order.
    fn parse_dmg_type_list(value: &str) -> (res: Result<Vec<DamageType>, Error>)
        ensures
            match dmg_list(regex_all_captures_spec(WORD_PATTERN@, value@)) {
                Ok(l) => res matches Ok(v) && v@ == l,
                Err(w) => res matches Err(Error::UnknownDamageType(t)) && t@ == w,
            },
    {
        let words = regex_captures_all(WORD_PATTERN, value);
        Self::dmg_types_from_captures(&words)
    }

    /// The damage types that the matches `words` of the word pattern name,
    /// in order; the first word that names none is the error.
    pub fn dmg_types_from_captures(words: &Vec<Vec<Option<String>>>) -> (res: Result<Vec<DamageType>, Error>)
        ensures
            match dmg_list(all_captures_view(words@)) {
                Ok(l) => res matches Ok(v) && v@ == l,
                Err(w) => res matches Err(Error::UnknownDamageType(t)) && t@ == w,
            },
    {
        let ghost ms = all_captures_view(words@);
        let mut types: Vec<DamageType> = Vec::new();
        let mut i: usize = 0;
        while i < words.len()
            invariant
                i <= words.len(),
                ms == all_captures_view(words@),
                dmg_list(ms.take(i as int)) == Ok::<Seq<DamageType>, Seq<char>>(types@),
            decreases words.len() - i,
        {
            proof {
                assert(ms.take(i + 1).drop_last() =~= ms.take(i as int));
                assert(ms.take(i + 1).last() == caps_view(words@[i as int]@));
            }
            let m = &words[i];
            let word = match group(m, 0) {
                Some(w) => {
                    proof {
                        assert(caps_view(m@)[0] == Some(w@));
                    }
                    w.as_str()
                },
                None => {
                    proof {
                        reveal_strlit("");
                    }
                    ""
                },
            };
            proof {
                assert(word@ == match_text(caps_view(m@)));
            }
            let t = match DamageType::try_from(word) {
                Ok(t) => t,
                Err(e) => {
                    proof {
                        assert(ms.take(i + 1).last() == caps_view(m@));
                        assert(dmg_name(word@) is None);
                        assert(dmg_list(ms.take(i + 1)) == Err::<Seq<DamageType>, Seq<char>>(word@));
                        lemma_dmg_list_err(ms, i + 1);
                    }
                    return Err(e);
                },
            };
            types.push(t);
            i = i + 1;
        }
        proof {
            assert(ms.take(i as int) =~= ms);
        }
        Ok(types)
    }

    pub closed spec fn health_spec(&self) -> usize {
        self.health_point
    }

    pub closed spec fn damage_spec(&self) -> usize {
        self.dmg_point
    }

    pub closed spec fn damage_type_spec(&self) -> DamageType {
        self.dmg_type
    }

    pub closed spec fn initiative_spec(&self) -> usize {
        self.initiative
    }

    pub closed spec fn immune_spec(&self) -> Seq<DamageType> {
        self.immune_dmg_types@
    }

    pub closed spec fn weak_spec(&self) -> Seq<DamageType> {
        self.weak_dmg_types@
    }

    /// A unit with the given hit points, immunities, weaknesses, attack
    /// damage, attack type and initiative.
    pub fn new(
        health_point: usize,
        immune_dmg_types: Vec<DamageType>,
        weak_dmg_types: Vec<DamageType>,
        dmg_point: usize,
        dmg_type: DamageType,
        initiative: usize,
    ) -> (res: Unit)
        ensures
            res.health_spec() == health_point,
            res.immune_spec() == immune_dmg_types@,
            res.weak_spec() == weak_dmg_types@,
            res.damage_spec() == dmg_point,
            res.damage_type_spec() == dmg_type,
            res.initiative_spec() == initiative,
    {
        Unit { health_point, immune_dmg_types, weak_dmg_types, dmg_point, dmg_type, initiative }
    }

    pub fn health_point(&self) -> (res: usize)
        ensures
            res == self.health_spec(),
    {
        self.health_point
    }

    pub fn initiative(&self) -> (res: usize)
        ensures
            res == self.initiative_spec(),
    {
        self.initiative
    }

    pub fn damage_point(&self) -> (res: usize)
        ensures
            res == self.damage_spec(),
    {
        self.dmg_point
    }

    /// Changes the attack damage, and nothing else.
    pub fn set_damage_point(&mut self, damage_point: usize)
        ensures
            final(self).damage_spec() == damage_point,
            final(self).health_spec() == old(self).health_spec(),
            final(self).immune_spec() == old(self).immune_spec(),
            final(self).weak_spec() == old(self).weak_spec(),
            final(self).damage_type_spec() == old(self).damage_type_spec(),
            final(self).initiative_spec() == old(self).initiative_spec(),
    {
        self.dmg_point = damage_point;
    }

    pub fn damage_type(&self) -> (res: DamageType)
        ensures
            res == self.damage_type_spec(),
    {
        self.dmg_type
    }

    /// The multiplier of damage of type `dmg_type` against this unit.
    pub fn dmg_ratio(&self, dmg_type: DamageType) -> (res: usize)
        ensures
            res == ratio_spec(self.weak_spec(), self.immune_spec(), dmg_type),
    {
        if contains_type(&self.weak_dmg_types, dmg_type) {
            2
        } else if contains_type(&self.immune_dmg_types, dmg_type) {
            0
        } else {
            1
        }
    }
}

/// A number of identical units.
#[derive(Debug, Clone)]
pub struct Group {
    unit: Unit,
    count: usize,
}

/// A group line: the number of units, then the unit.
pub const GROUP_PATTERN: &'static str = r"(\d+) units\s+(.+)";

/// What reading a group from `text` gives, from what the group pattern
/// captured in it: the number of units, then the unit from the rest.
pub open spec fn group_read(caps: Option<Seq<Option<Seq<char>>>>, text: Seq<char>, res: Result<Group, Error>) -> bool {
    match caps {
        None => res matches Err(Error::NotMatchGroupPattern(t)) && t@ == text,
        Some(c) => match group_int_spec(c, 1, 0, usize::MAX as int) {
            None => res matches Err(Error::NotMatchGroupPattern(t)) && t@ == text,
            Some(n) => {
                let rest = group_text(c, 2);
                exists|u: Result<Unit, Error>| #[trigger] unit_read(regex_captures_spec(UNIT_PATTERN@, rest), rest, u) && match u {
                    Ok(unit) => res matches Ok(g) && g.count_spec() == n && g.unit_spec() == unit,
                    Err(e) => res == Err::<Group, Error>(e),
                }
            },
        },
    }
}

impl Group {
    /// Reads a group: `N units each with ...`.
    pub fn try_from(value: &str) -> (res: Result<Group, Error>)
        ensures
            group_read(regex_captures_spec(GROUP_PATTERN@, value@), value@, res),
    {
        match regex_captures(GROUP_PATTERN, value) {
            Some(caps) => Self::from_captures(&caps, value),
            None => Err(Error::NotMatchGroupPattern(value.to_string())),
        }
    }

    /// The group that the groups `caps` of a match of `GROUP_PATTERN` in
    /// `value` write.
    pub fn from_captures(caps: &Vec<Option<String>>, value: &str) -> (res: Result<Group, Error>)
        ensures
            group_read(Some(caps_view(caps@)), value@, res),
    {
        let ghost c = caps_view(caps@);
        let count = match group_int(caps, 1, 0, usize::MAX as i128) {
            Some(n) => n as usize,
            None => return Err(Error::NotMatchGroupPattern(value.to_string())),
        };
        let rest = match group(caps, 2) {
            Some(t) => {
                proof {
                    assert(c[2] == Some(t@));
                }
                t.as_str()
            },
            None => {
                proof {
                    reveal_strlit("");
                }
                ""
            },
        };
        proof {
            assert(rest@ == group_text(c, 2));
        }
        let u = Unit::try_from(rest);
        match u {
            Ok(unit) => {
                let res = Ok(Group { unit, count });
                proof {
                    assert(unit_read(regex_captures_spec(UNIT_PATTERN@, rest@), rest@, u));
                }
                res
            },
            Err(e) => {
                proof {
                    assert(unit_read(regex_captures_spec(UNIT_PATTERN@, rest@), rest@, u));
                }
                Err(e)
            },
        }
    }

    pub closed spec fn unit_spec(&self) -> Unit {
        self.unit
    }

    pub closed spec fn count_spec(&self) -> usize {
        self.count
    }

    /// A group of `count` units of kind `unit`.
    pub fn new(unit: Unit, count: usize) -> (res: Group)
        ensures
            res.unit_spec() == unit,
            res.count_spec() == count,
    {
        Group { unit, count }
    }

    pub fn count(&self) -> (res: usize)
        ensures
            res == self.count_spec(),
    {
        self.count
    }

    pub fn unit(&self) -> (res: &Unit)
        ensures
            *res == self.unit_spec(),
    {
        &self.unit
    }

    /// Attack damage of the units times their number.
    pub fn effective_power(&self) -> (res: usize)
        requires
            self.unit_spec().damage_spec() * self.count_spec() <= usize::MAX,
        ensures
            res == self.unit_spec().damage_spec() * self.count_spec(),
    {
        self.unit.dmg_point * self.count
    }

    /// The damage `dmg_point` of type `dmg_type` does to this group.
    pub fn true_damage(&self, dmg_point: usize, dmg_type: DamageType) -> (res: usize)
        requires
            dmg_point * 2 <= usize::MAX,
        ensures
            res == dmg_point * ratio_spec(self.unit_spec().weak_spec(), self.unit_spec().immune_spec(), dmg_type),
    {
        let dmg_ratio = self.unit.dmg_ratio(dmg_type);
        dmg_point * dmg_ratio
    }

    /// Takes an attack: as many whole units die as the damage covers, and
    /// never fewer than none remain.
    pub fn attack_by(&mut self, damage_point: usize, damage_type: DamageType)
        requires
            damage_point * 2 <= usize::MAX,
            old(self).unit_spec().health_spec() > 0,
        ensures
            final(self).unit_spec() == old(self).unit_spec(),
            ({
                let dmg = damage_point * ratio_spec(old(self).unit_spec().weak_spec(), old(self).unit_spec().immune_spec(), damage_type);
                let dead = dmg / (old(self).unit_spec().health_spec() as int);
                final(self).count_spec() == if dead >= old(self).count_spec() { 0 } else { old(self).count_spec() - dead }
            }),
    {
        let true_damage = self.true_damage(damage_point, damage_type);
        let dead_count = true_damage / self.unit.health_point();
        self.count = if dead_count <= self.count { self.count - dead_count } else { 0 };
    }

    /// The unit kind, to be changed in place.
    pub fn unit_mut(&mut self) -> (res: &mut Unit)
        ensures
            *res == old(self).unit_spec(),
            final(self).unit_spec() == *final(res),
            final(self).count_spec() == old(self).count_spec(),
    {
        &mut self.unit
    }
}

/// The groups of one army.
#[derive(Debug, Clone)]
pub struct Army {
    groups: Vec<Group>,
}

impl Army {
    pub closed spec fn groups_spec(&self) -> Seq<Group> {
        self.groups@
    }

    /// An army made of the given groups.
    pub fn new(groups: Vec<Group>) -> (res: Army)
        ensures
            res.groups_spec() == groups@,
    {
        Army { groups }
    }

    /// The groups, in order.
    pub fn groups(&self) -> (res: &Vec<Group>)
        ensures
            res@ == self.groups_spec(),
    {
        &self.groups
    }

    /// The groups, to be changed in place.
    pub fn groups_mut(&mut self) -> (res: &mut Vec<Group>)
        ensures
            res@ == old(self).groups_spec(),
            final(self).groups_spec() == final(res)@,
    {
        &mut self.groups
    }
}

} // verus!
