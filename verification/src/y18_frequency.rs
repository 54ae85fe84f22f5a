//! A device's frequency drifts by a list of changes, applied over and over;
//! the first frequency that it reaches twice calibrates it.

use vstd::prelude::*;
use std::collections::HashSet;
use crate::text::{int_value, parse_int};

verus! {

broadcast use vstd::std_specs::hash::group_hash_axioms;

/// Reads one change: a signed decimal integer that fits in `i32`.
pub fn parse_change(line: &str) -> (res: Option<i32>)
    ensures
        res == match int_value(line@) {
            Some(v) => if i32::MIN <= v <= i32::MAX {
                Some(v as i32)
            } else {
                None::<i32>
            },
            None => None::<i32>,
        },
{
    match parse_int(line) {
        Some(v) => if i32::MIN as i128 <= v && v <= i32::MAX as i128 {
            Some(v as i32)
        } else {
            None
        },
        None => None,
    }
}

/// The frequency after the first `k` changes, going round the list, from 0.
pub open spec fn freq_at(c: Seq<i32>, k: nat) -> int
    decreases k,
{
    if k == 0 {
        0
    } else {
        freq_at(c, (k - 1) as nat) + c[(k - 1) % (c.len() as int)]
    }
}

/// Whether the frequencies after `0..=k` changes all fit in `i32` and are
/// all different.
pub open spec fn fresh_upto(c: Seq<i32>, k: nat) -> bool {
    &&& forall|i: nat| i <= k ==> i32::MIN <= #[trigger] freq_at(c, i) <= i32::MAX
    &&& forall|i: nat, j: nat| i < j <= k ==> #[trigger] freq_at(c, i) != #[trigger] freq_at(c, j)
}

/// How many changes are tried at most: one more than there are `i32`
/// values, so that a frequency must come back within them unless one
/// leaves `i32`.
pub const CHANGE_LIMIT: u64 = 0x1_0000_0001;

/// The first frequency reached twice, and the place in the list of the
/// change that reached it, counted over all the rounds from 0. `None` where
/// a frequency leaves `i32` before any comes back, or none has come back
/// after `CHANGE_LIMIT` changes.
pub fn first_repeat_frequency(changes: &Vec<i32>) -> (res: Option<(i32, u64)>)
    requires
        changes.len() > 0,
    ensures
        match res {
            Some((f, ind)) => {
                &&& fresh_upto(changes@, ind as nat)
                &&& f == freq_at(changes@, (ind + 1) as nat)
                &&& exists|j: nat| j <= ind && #[trigger] freq_at(changes@, j) == f
            },
            None => {
                ||| exists|k: nat| 1 <= k <= CHANGE_LIMIT && fresh_upto(changes@, (k - 1) as nat)
                    && !(i32::MIN <= #[trigger] freq_at(changes@, k) <= i32::MAX)
                ||| fresh_upto(changes@, CHANGE_LIMIT as nat)
            },
        },
{
    let n = changes.len();
    let ghost c = changes@;
    let mut freq: i32 = 0;
    let mut seen: HashSet<i32> = HashSet::new();
    let mut ind: u64 = 0;
    proof {
        assert(seen@ =~= Set::new(|v: i32| exists|i: nat| i < ind && freq_at(c, i) == v));
    }
    loop
        invariant
            n == c.len() > 0,
            c == changes@,
            ind < CHANGE_LIMIT,
            freq == freq_at(c, ind as nat),
            fresh_upto(c, ind as nat),
            seen@ == Set::new(|v: i32| exists|i: nat| i < ind && freq_at(c, i) == v),
        decreases CHANGE_LIMIT - ind,
    {
        seen.insert(freq);
        proof {
            assert(seen@ =~= Set::new(|v: i32| exists|i: nat| i <= ind && freq_at(c, i) == v)) by {
                assert forall|v: i32| seen@.contains(v) implies exists|i: nat| i <= ind && freq_at(c, i) == v by {
                    if v != freq {
                        let i = choose|i: nat| i < ind && freq_at(c, i) == v;
                    } else {
                        assert(freq_at(c, ind as nat) == v);
                    }
                }
            }
        }
        let chg = changes[(ind % (n as u64)) as usize];
        let next = freq as i64 + chg as i64;
        proof {
            assert(next == freq_at(c, (ind + 1) as nat));
        }
        if next < i32::MIN as i64 || next > i32::MAX as i64 {
            proof {
                assert(1 <= ind + 1 <= CHANGE_LIMIT && fresh_upto(c, ((ind + 1) - 1) as nat)
                    && !(i32::MIN <= freq_at(c, (ind + 1) as nat) <= i32::MAX));
            }
            return None;
        }
        freq = next as i32;
        if seen.contains(&freq) {
            proof {
                let j = choose|i: nat| i <= ind && freq_at(c, i) == freq;
                assert(freq_at(c, j) == freq);
            }
            return Some((freq, ind));
        }
        proof {
            assert forall|i: nat, j: nat| i < j <= ind + 1 implies #[trigger] freq_at(c, i) != #[trigger] freq_at(c, j) by {
                if j == ind + 1 {
                    if freq_at(c, i) == freq_at(c, j) {
                        assert(seen@.contains(freq));
                    }
                }
            }
        }
        ind = ind + 1;
        if ind == CHANGE_LIMIT {
            return None;
        }
        proof {
            assert(seen@ =~= Set::new(|v: i32| exists|i: nat| i < ind && freq_at(c, i) == v));
        }
    }
}

} // verus!
