//! Comparing box identifiers position by position.

use vstd::prelude::*;
use vstd::std_specs::cmp::PartialEqSpec;

verus! {

/// The elements of `v1` that equal the element of `v2` at the same position,
/// among the first `n` positions, in order.
pub open spec fn common_prefix_elems<T: PartialEq>(v1: Seq<T>, v2: Seq<T>, n: int) -> Seq<T>
    decreases n,
{
    if n <= 0 {
        Seq::empty()
    } else {
        let prev = common_prefix_elems(v1, v2, n - 1);
        if v1[n - 1].eq_spec(&v2[n - 1]) {
            prev.push(v1[n - 1])
        } else {
            prev
        }
    }
}

/// The elements equal at the same position in `v1` and `v2`, in order; empty
/// when the two lengths differ.
pub fn list_com_elems<T: PartialEq + Copy>(v1: &Vec<T>, v2: &Vec<T>) -> (res: Vec<T>)
    requires
        T::obeys_eq_spec(),
    ensures
        v1.len() != v2.len() ==> res@ == Seq::<T>::empty(),
        v1.len() == v2.len() ==> res@ == common_prefix_elems(v1@, v2@, v1.len() as int),
{
    let mut com_elems: Vec<T> = Vec::new();
    if v1.len() != v2.len() {
        return com_elems;
    }
    let mut i: usize = 0;
    while i < v1.len()
        invariant
            i <= v1.len(),
            v1.len() == v2.len(),
            T::obeys_eq_spec(),
            com_elems@ == common_prefix_elems(v1@, v2@, i as int),
        decreases v1.len() - i,
    {
        if v1[i] == v2[i] {
            com_elems.push(v1[i]);
        }
        i = i + 1;
    }
    com_elems
}

/// Whether ids `a` and `b` have the same length and differ in exactly one
/// place.
pub open spec fn one_apart<T: PartialEq>(a: Seq<T>, b: Seq<T>) -> bool {
    a.len() == b.len() && common_prefix_elems(a, b, a.len() as int).len() + 1 == a.len()
}

/// Whether the pair `(i, j)`, `i < j`, comes before the pair `(k, l)` in
/// the order the pairs are tried: by the first id, then by the second.
pub open spec fn pair_before(i: int, j: int, k: int, l: int) -> bool {
    i < k || (i == k && j < l)
}

/// The first pair of ids, tried in order, that are the same but in one
/// place, with the elements they share; `None` where no pair is.
pub fn find_close_ids<T: PartialEq + Copy>(ids: &Vec<Vec<T>>) -> (res: Option<(usize, usize, Vec<T>)>)
    requires
        T::obeys_eq_spec(),
    ensures
        match res {
            Some((i, j, common)) => {
                &&& i < j < ids.len()
                &&& one_apart(ids@[i as int]@, ids@[j as int]@)
                &&& common@ == common_prefix_elems(ids@[i as int]@, ids@[j as int]@, ids@[i as int]@.len() as int)
                &&& forall|k: int, l: int| 0 <= k < l < ids.len() && pair_before(k, l, i as int, j as int)
                    ==> !one_apart(#[trigger] ids@[k]@, #[trigger] ids@[l]@)
            },
            None => forall|k: int, l: int| 0 <= k < l < ids.len() ==> !one_apart(#[trigger] ids@[k]@, #[trigger] ids@[l]@),
        },
{
    let n = ids.len();
    let mut i: usize = 0;
    while i < n
        invariant
            i <= n == ids.len(),
            T::obeys_eq_spec(),
            forall|k: int, l: int| 0 <= k < i && k < l < n ==> !one_apart(#[trigger] ids@[k]@, #[trigger] ids@[l]@),
        decreases n - i,
    {
        let mut j: usize = i + 1;
        while j < n
            invariant
                i < n == ids.len(),
                i + 1 <= j <= n,
                T::obeys_eq_spec(),
                forall|k: int, l: int| 0 <= k < i && k < l < n ==> !one_apart(#[trigger] ids@[k]@, #[trigger] ids@[l]@),
                forall|l: int| i < l < j ==> !one_apart(#[trigger] ids@[i as int]@, ids@[l]@),
            decreases n - j,
        {
            let a = &ids[i];
            let b = &ids[j];
            if a.len() == b.len() {
                let common = list_com_elems(a, b);
                if common.len() < a.len() && common.len() == a.len() - 1 {
                    proof {
                        assert(one_apart(ids@[i as int]@, ids@[j as int]@));
                    }
                    return Some((i, j, common));
                }
            }
            j = j + 1;
        }
        i = i + 1;
    }
    None
}

} // verus!
