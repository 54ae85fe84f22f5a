//! Phase settings of a chain of amplifiers: every order of the phases
//! `0..amp_count`, made by Heap's algorithm.

use vstd::prelude::*;

verus! {

broadcast use vstd::seq_lib::group_to_multiset_ensures;

/// `n!`, the number of orders of `n` things.
pub open spec fn factorial(n: nat) -> nat
    decreases n,
{
    if n == 0 {
        1
    } else {
        n * factorial((n - 1) as nat)
    }
}

/// The phases `0, 1, .., n - 1`.
pub open spec fn phases(n: nat) -> Seq<i32> {
    Seq::new(n, |i: int| i as i32)
}

/// Every order of the phases of `amp_count` amplifiers.
pub struct AmpSettings {
    settings: Vec<Vec<i32>>,
}

/// Swapping two places of a sequence keeps what it holds.
proof fn lemma_swap_multiset(s: Seq<i32>, i: int, j: int)
    requires
        0 <= i < s.len(),
        0 <= j < s.len(),
    ensures
        s.update(i, s[j]).update(j, s[i]).to_multiset() =~= s.to_multiset(),
{
    broadcast use vstd::seq_lib::to_multiset_update;
    let s1 = s.update(i, s[j]);
    if i == j {
        assert(s1 =~= s);
        assert(s1.update(j, s[i]) =~= s);
    } else {
        assert(s1[j] == s[j]);
        assert(s1.to_multiset() == s.to_multiset().insert(s[j]).remove(s[i]));
        assert(s1.update(j, s[i]).to_multiset() == s1.to_multiset().insert(s[i]).remove(s[j]));
        assert(s.to_multiset().count(s[i]) > 0);
        assert(s.to_multiset().count(s[j]) > 0);
        assert(s1.update(j, s[i]).to_multiset() =~= s.to_multiset());
    }
}

impl AmpSettings {
    /// The orders that this holds, in the order Heap's algorithm makes them.
    pub closed spec fn settings_spec(&self) -> Seq<Seq<i32>> {
        Seq::new(self.settings@.len(), |i: int| self.settings@[i]@)
    }

    /// Every order of the phases `0..amp_count`: `amp_count!` of them, each
    /// holding each phase once.
    pub fn new(amp_count: usize) -> (res: AmpSettings)
        requires
            amp_count <= i32::MAX,
        ensures
            res.settings_spec().len() == factorial(amp_count as nat),
            forall|i: int| 0 <= i < res.settings_spec().len() ==>
                (#[trigger] res.settings_spec()[i]).to_multiset() == phases(amp_count as nat).to_multiset(),
    {
        let mut init_setting: Vec<i32> = Vec::new();
        let mut k: usize = 0;
        while k < amp_count
            invariant
                k <= amp_count <= i32::MAX,
                init_setting@ == phases(k as nat),
            decreases amp_count - k,
        {
            init_setting.push(k as i32);
            k = k + 1;
            proof {
                assert(init_setting@ =~= phases(k as nat));
            }
        }
        let settings = Self::gen_permutation(init_setting);
        AmpSettings { settings }
    }

    /// Walks the orders one by one.
    pub fn iter(&self) -> (res: AmpSettingsIterator<'_>)
        ensures
            res.rest() == self.settings_spec(),
    {
        let res = AmpSettingsIterator::new(&self.settings);
        proof {
            assert(res.rest() =~= self.settings_spec());
        }
        res
    }

    fn gen_permutation(numbers: Vec<i32>) -> (res: Vec<Vec<i32>>)
        ensures
            res@.len() == factorial(numbers@.len()),
            forall|i: int| 0 <= i < res@.len() ==> (#[trigger] res@[i])@.to_multiset() == numbers@.to_multiset(),
    {
        let mut permutations: Vec<Vec<i32>> = Vec::new();
        let mut numbers = numbers;
        let number_count = numbers.len();
        Self::gen_permutation_recur(&mut permutations, &mut numbers, number_count);
        permutations
    }

    /// Heap's algorithm on the first `cur_size` numbers: adds `cur_size!`
    /// orders, and leaves the numbers in some order of what they held.
    fn gen_permutation_recur(permutations: &mut Vec<Vec<i32>>, numbers: &mut Vec<i32>, cur_size: usize)
        requires
            cur_size <= old(numbers)@.len(),
        ensures
            final(numbers)@.len() == old(numbers)@.len(),
            final(numbers)@.to_multiset() == old(numbers)@.to_multiset(),
            final(permutations)@.len() == old(permutations)@.len() + factorial(cur_size as nat),
            forall|i: int| 0 <= i < old(permutations)@.len() ==> final(permutations)@[i] == old(permutations)@[i],
            forall|i: int| old(permutations)@.len() <= i < final(permutations)@.len() ==>
                (#[trigger] final(permutations)@[i])@.to_multiset() == old(numbers)@.to_multiset(),
        decreases cur_size,
    {
        if cur_size <= 1 {
            let copy = numbers.clone();
            proof {
                assert(copy@ =~= numbers@);
                assert(factorial(1) == 1) by {
                    reveal_with_fuel(factorial, 2);
                }
            }
            permutations.push(copy);
            return;
        }
        let ghost ms0 = numbers@.to_multiset();
        let ghost start = permutations@.len();
        let ghost before = permutations@;
        let mut i: usize = 0;
        while i < cur_size
            invariant
                2 <= cur_size <= numbers@.len(),
                i <= cur_size,
                numbers@.len() == old(numbers)@.len(),
                numbers@.to_multiset() == ms0,
                ms0 == old(numbers)@.to_multiset(),
                start == old(permutations)@.len(),
                before == old(permutations)@,
                permutations@.len() == start + i * factorial((cur_size - 1) as nat),
                forall|k: int| 0 <= k < start ==> permutations@[k] == before[k],
                forall|k: int| start <= k < permutations@.len() ==>
                    (#[trigger] permutations@[k])@.to_multiset() == ms0,
            decreases cur_size - i,
        {
            Self::gen_permutation_recur(permutations, numbers, cur_size - 1);
            let (a, b) = if cur_size % 2 == 1 { (0, cur_size - 1) } else { (i, cur_size - 1) };
            let ghost s = numbers@;
            let va = numbers[a];
            let vb = numbers[b];
            numbers.set(a, vb);
            numbers.set(b, va);
            proof {
                lemma_swap_multiset(s, a as int, b as int);
                assert(numbers@ == s.update(a as int, s[b as int]).update(b as int, s[a as int]));
                assert((i + 1) * factorial((cur_size - 1) as nat) == i * factorial((cur_size - 1) as nat)
                    + factorial((cur_size - 1) as nat)) by (nonlinear_arith);
            }
            i = i + 1;
        }
        proof {
            assert(factorial(cur_size as nat) == cur_size * factorial((cur_size - 1) as nat));
        }
    }
}

/// Hands out the orders of an `AmpSettings` one at a time.
pub struct AmpSettingsIterator<'a> {
    settings: &'a Vec<Vec<i32>>,
    next_ind: usize,
}

impl<'a> AmpSettingsIterator<'a> {
    /// The orders still to come.
    pub closed spec fn rest(&self) -> Seq<Seq<i32>> {
        if self.next_ind <= self.settings@.len() {
            Seq::new((self.settings@.len() - self.next_ind) as nat, |i: int| self.settings@[self.next_ind + i]@)
        } else {
            Seq::empty()
        }
    }

    fn new(settings: &'a Vec<Vec<i32>>) -> (res: Self)
        ensures
            res.rest() == Seq::new(settings@.len(), |i: int| settings@[i]@),
    {
        let res = AmpSettingsIterator { settings, next_ind: 0 };
        proof {
            assert(res.rest() =~= Seq::new(settings@.len(), |i: int| settings@[i]@));
        }
        res
    }

    /// The next order, if any is left.
    pub fn next(&mut self) -> (res: Option<&'a [i32]>)
        ensures
            match res {
                Some(s) => old(self).rest().len() > 0 && s@ == old(self).rest()[0]
                    && final(self).rest() == old(self).rest().drop_first(),
                None => old(self).rest().len() == 0 && final(self).rest().len() == 0,
            },
    {
        let cur_ind = self.next_ind;
        if cur_ind < self.settings.len() {
            self.next_ind = cur_ind + 1;
            let s = self.settings[cur_ind].as_slice();
            proof {
                assert(self.rest() =~= old(self).rest().drop_first());
            }
            Some(s)
        } else {
            None
        }
    }
}

} // verus!
