use vstd::prelude::*;

use crate::counting::{
    count_true, lemma_count_true_bound, lemma_count_true_swap, lemma_count_true_update,
    lemma_has_false, lemma_has_true, treated_count,
};
use crate::random::{coin_flip, random_index, sample_indices};

verus! {

/// Sum of the outcome each unit gets under an assignment: the treated
/// estimate where the unit is treated, the control estimate elsewhere.
pub open spec fn utility(a: Seq<bool>, treated: Seq<i64>, control: Seq<i64>) -> int
    decreases a.len(),
{
    if a.len() == 0 {
        0
    } else {
        let k = a.len() - 1;
        utility(a.drop_last(), treated, control) + (if a[k] {
            treated[k] as int
        } else {
            control[k] as int
        })
    }
}

/// The assignments of a sequence of policies.
pub open spec fn assignments_of(ps: Seq<Policy>) -> Seq<Seq<bool>> {
    ps.map_values(|p: Policy| p.assignment@)
}

/// One candidate assignment with its cached scores and tier.
#[derive(Clone, Debug)]
pub struct Policy {
    pub assignment: Vec<bool>,
    pub n: usize,
    pub n_treat: usize,
    pub utility_1: Option<i128>,
    pub utility_2: Option<i128>,
    pub rank: Option<usize>,
}

impl Policy {
    /// Same length as declared, and a quota that fits in it.
    pub open spec fn wf(&self) -> bool {
        &&& self.assignment@.len() == self.n
        &&& self.n_treat <= self.n
    }

    /// Exactly the quota of units is treated.
    pub open spec fn on_quota(&self) -> bool {
        count_true(self.assignment@) == self.n_treat
    }

    /// No score and no tier yet.
    pub open spec fn fresh(&self) -> bool {
        &&& self.utility_1.is_none()
        &&& self.utility_2.is_none()
        &&& self.rank.is_none()
    }

    /// The assignment that treats exactly the given distinct positions.
    pub fn from_indices(n: usize, n_treat: usize, indices: &Vec<usize>) -> (r: Policy)
        requires
            n_treat <= n,
            indices@.len() == n_treat,
            forall|k: int| 0 <= k < indices@.len() ==> indices@[k] < n,
            forall|k: int, m: int| 0 <= k < m < indices@.len() ==> indices@[k] != indices@[m],
        ensures
            r.wf(),
            r.on_quota(),
            r.fresh(),
            r.n == n,
            r.n_treat == n_treat,
            forall|j: int|
                0 <= j < n ==> (r.assignment@[j] <==> exists|k: int|
                    0 <= k < indices@.len() && indices@[k] == j),
    {
        let mut assignment: Vec<bool> = Vec::new();
        let mut i: usize = 0;
        while i < n
            invariant
                i <= n,
                assignment@.len() == i,
                forall|j: int| 0 <= j < i ==> !assignment@[j],
            decreases n - i,
        {
            assignment.push(false);
            i = i + 1;
        }
        proof {
            assert(assignment@.drop_last().len() >= 0);
            lemma_none_treated(assignment@);
        }
        let mut k: usize = 0;
        while k < indices.len()
            invariant
                k <= indices@.len(),
                indices@.len() == n_treat,
                n_treat <= n,
                assignment@.len() == n,
                forall|q: int| 0 <= q < indices@.len() ==> indices@[q] < n,
                forall|q: int, m: int| 0 <= q < m < indices@.len() ==> indices@[q] != indices@[m],
                count_true(assignment@) == k,
                forall|j: int|
                    0 <= j < n ==> (assignment@[j] <==> exists|q: int|
                        0 <= q < k && indices@[q] == j),
            decreases indices@.len() - k,
        {
            let idx = indices[k];
            proof {
                if assignment@[idx as int] {
                    let q = choose|q: int| 0 <= q < k && indices@[q] == idx;
                    assert(indices@[q] != indices@[k as int]);
                }
                lemma_count_true_update(assignment@, idx as int, true);
            }
            assignment.set(idx, true);
            k = k + 1;
            proof {
                assert forall|j: int| 0 <= j < n implies (assignment@[j] <==> exists|q: int|
                    0 <= q < k && indices@[q] == j) by {
                    if j == idx as int {
                        assert(indices@[k - 1] == j);
                    } else if assignment@[j] {
                        let q = choose|q: int| 0 <= q < k - 1 && indices@[q] == j;
                        assert(0 <= q < k && indices@[q] == j);
                    }
                }
            }
        }
        Policy { assignment, n, n_treat, utility_1: None, utility_2: None, rank: None }
    }

    /// A uniformly random assignment treating exactly `n_treat` of `n` units.
    pub fn new(n: usize, n_treat: usize) -> (r: Policy)
        requires
            n_treat <= n,
        ensures
            r.wf(),
            r.on_quota(),
            r.fresh(),
            r.n == n,
            r.n_treat == n_treat,
    {
        let indices = sample_indices(n, n_treat);
        Policy::from_indices(n, n_treat, &indices)
    }

    /// Same assignment, with scores and tier cleared.
    pub fn fresh_copy(&self) -> (r: Policy)
        ensures
            r.assignment@ == self.assignment@,
            r.n == self.n,
            r.n_treat == self.n_treat,
            r.fresh(),
    {
        let mut assignment: Vec<bool> = Vec::new();
        let mut i: usize = 0;
        while i < self.assignment.len()
            invariant
                i <= self.assignment@.len(),
                assignment@ =~= self.assignment@.take(i as int),
            decreases self.assignment@.len() - i,
        {
            assignment.push(self.assignment[i]);
            i = i + 1;
        }
        assert(assignment@ =~= self.assignment@);
        Policy {
            assignment,
            n: self.n,
            n_treat: self.n_treat,
            utility_1: None,
            utility_2: None,
            rank: None,
        }
    }

    /// Exchanges the entries at two positions.
    pub fn swap_positions(&mut self, i1: usize, i2: usize)
        requires
            old(self).wf(),
            i1 < old(self).n,
            i2 < old(self).n,
        ensures
            final(self).wf(),
            final(self).n == old(self).n,
            final(self).n_treat == old(self).n_treat,
            final(self).utility_1 == old(self).utility_1,
            final(self).utility_2 == old(self).utility_2,
            final(self).rank == old(self).rank,
            final(self).assignment@ == old(self).assignment@.update(
                i1 as int,
                old(self).assignment@[i2 as int],
            ).update(i2 as int, old(self).assignment@[i1 as int]),
            count_true(final(self).assignment@) == count_true(old(self).assignment@),
    {
        proof {
            lemma_count_true_swap(self.assignment@, i1 as int, i2 as int);
        }
        let a = self.assignment[i1];
        let b = self.assignment[i2];
        self.assignment.set(i1, b);
        self.assignment.set(i2, a);
    }

    /// Performs `count` swaps of two uniformly drawn positions.
    pub fn mutate(&mut self, count: usize)
        requires
            old(self).wf(),
        ensures
            final(self).wf(),
            final(self).n == old(self).n,
            final(self).n_treat == old(self).n_treat,
            final(self).utility_1 == old(self).utility_1,
            final(self).utility_2 == old(self).utility_2,
            final(self).rank == old(self).rank,
            count_true(final(self).assignment@) == count_true(old(self).assignment@),
            count == 0 ==> final(self).assignment@ == old(self).assignment@,
    {
        if self.n == 0 {
            return;
        }
        let mut t: usize = 0;
        while t < count
            invariant
                self.wf(),
                self.n > 0,
                self.n == old(self).n,
                self.n_treat == old(self).n_treat,
                self.utility_1 == old(self).utility_1,
                self.utility_2 == old(self).utility_2,
                self.rank == old(self).rank,
                count_true(self.assignment@) == count_true(old(self).assignment@),
                t <= count,
                t == 0 ==> self.assignment@ == old(self).assignment@,
            decreases count - t,
        {
            let i1 = random_index(self.n);
            let i2 = random_index(self.n);
            self.swap_positions(i1, i2);
            t = t + 1;
        }
    }

    /// Positions whose entry equals `value`, in increasing order.
    fn positions_of(&self, value: bool) -> (r: Vec<usize>)
        requires
            self.wf(),
        ensures
            forall|k: int| 0 <= k < r@.len() ==> r@[k] < self.n && self.assignment@[r@[k] as int] == value,
            forall|j: int| 0 <= j < self.n && self.assignment@[j] == value ==> exists|k: int|
                0 <= k < r@.len() && r@[k] == j,
    {
        let mut r: Vec<usize> = Vec::new();
        let mut i: usize = 0;
        while i < self.n
            invariant
                self.wf(),
                i <= self.n,
                forall|k: int| 0 <= k < r@.len() ==> r@[k] < self.n && self.assignment@[r@[k] as int] == value,
                forall|j: int| 0 <= j < i && self.assignment@[j] == value ==> exists|k: int|
                    0 <= k < r@.len() && r@[k] == j,
            decreases self.n - i,
        {
            let ghost prev = r@;
            if self.assignment[i] == value {
                r.push(i);
                assert(r@[r@.len() - 1] == i);
            }
            proof {
                assert forall|j: int| 0 <= j < i + 1 && self.assignment@[j] == value implies exists|
                    k: int,
                | 0 <= k < r@.len() && r@[k] == j by {
                    if j < i {
                        let k = choose|k: int| 0 <= k < prev.len() && prev[k] == j;
                        assert(r@[k] == prev[k]);
                    } else {
                        assert(r@[r@.len() - 1] == j);
                    }
                }
            }
            i = i + 1;
        }
        r
    }

    /// Restores the quota: while the treated count is off, flips one
    /// uniformly chosen position among those whose flip moves the count
    /// toward `n_treat`. Draws exactly as many positions as the count is off.
    pub fn repair(&mut self)
        requires
            old(self).wf(),
        ensures
            final(self).wf(),
            final(self).on_quota(),
            final(self).n == old(self).n,
            final(self).n_treat == old(self).n_treat,
            final(self).utility_1 == old(self).utility_1,
            final(self).utility_2 == old(self).utility_2,
            final(self).rank == old(self).rank,
            old(self).on_quota() ==> final(self).assignment@ == old(self).assignment@,
            count_true(old(self).assignment@) > old(self).n_treat ==> forall|i: int|
                0 <= i < old(self).n && #[trigger] final(self).assignment@[i] ==> old(self).assignment@[i],
            count_true(old(self).assignment@) < old(self).n_treat ==> forall|i: int|
                0 <= i < old(self).n && #[trigger] old(self).assignment@[i] ==> final(self).assignment@[i],
    {
        let mut current = treated_count(&self.assignment);
        let ghost start = current;
        proof {
            lemma_count_true_bound(self.assignment@);
        }
        while current != self.n_treat
            invariant
                self.wf(),
                self.n == old(self).n,
                self.n_treat == old(self).n_treat,
                self.utility_1 == old(self).utility_1,
                self.utility_2 == old(self).utility_2,
                self.rank == old(self).rank,
                current == count_true(self.assignment@),
                current <= self.n,
                old(self).on_quota() ==> self.assignment@ == old(self).assignment@,
                start == count_true(old(self).assignment@),
                start > self.n_treat ==> current >= self.n_treat && forall|i: int|
                    0 <= i < self.n && #[trigger] self.assignment@[i] ==> old(self).assignment@[i],
                start < self.n_treat ==> current <= self.n_treat && forall|i: int|
                    0 <= i < self.n && #[trigger] old(self).assignment@[i] ==> self.assignment@[i],
            decreases (if current > self.n_treat {
                current - self.n_treat
            } else {
                self.n_treat - current
            }),
        {
            let too_many = current > self.n_treat;
            proof {
                if too_many {
                    lemma_has_true(self.assignment@);
                } else {
                    lemma_has_false(self.assignment@);
                }
            }
            let candidates = self.positions_of(too_many);
            assert(candidates@.len() > 0);
            let pick = random_index(candidates.len());
            let idx = candidates[pick];
            proof {
                lemma_count_true_update(self.assignment@, idx as int, !too_many);
            }
            self.assignment.set(idx, !too_many);
            if too_many {
                current = current - 1;
            } else {
                current = current + 1;
            }
        }
    }

    /// Child that takes, at each position, this policy's entry or the
    /// other's as `take_other` says. The child has no score and no tier.
    pub fn merge_with(&self, other: &Policy, take_other: &Vec<bool>) -> (r: Policy)
        requires
            self.wf(),
            other.assignment@.len() == self.n,
            take_other@.len() == self.n,
        ensures
            r.wf(),
            r.fresh(),
            r.n == self.n,
            r.n_treat == self.n_treat,
            forall|i: int|
                0 <= i < self.n ==> r.assignment@[i] == (if take_other@[i] {
                    other.assignment@[i]
                } else {
                    self.assignment@[i]
                }),
    {
        let mut assignment: Vec<bool> = Vec::new();
        let mut i: usize = 0;
        while i < self.n
            invariant
                self.wf(),
                other.assignment@.len() == self.n,
                take_other@.len() == self.n,
                i <= self.n,
                assignment@.len() == i,
                forall|j: int|
                    0 <= j < i ==> assignment@[j] == (if take_other@[j] {
                        other.assignment@[j]
                    } else {
                        self.assignment@[j]
                    }),
            decreases self.n - i,
        {
            if take_other[i] {
                assignment.push(other.assignment[i]);
            } else {
                assignment.push(self.assignment[i]);
            }
            i = i + 1;
        }
        Policy {
            assignment,
            n: self.n,
            n_treat: self.n_treat,
            utility_1: None,
            utility_2: None,
            rank: None,
        }
    }

    /// Uniform crossover: each position comes from either parent with a
    /// fair coin. The treated count is not kept; `repair` restores it.
    pub fn merge(&self, other: &Policy) -> (r: Policy)
        requires
            self.wf(),
            other.assignment@.len() == self.n,
        ensures
            r.wf(),
            r.fresh(),
            r.n == self.n,
            r.n_treat == self.n_treat,
            forall|i: int|
                0 <= i < self.n ==> r.assignment@[i] == self.assignment@[i] || r.assignment@[i]
                    == other.assignment@[i],
    {
        let mut take_other: Vec<bool> = Vec::new();
        let mut i: usize = 0;
        while i < self.n
            invariant
                i <= self.n,
                take_other@.len() == i,
            decreases self.n - i,
        {
            take_other.push(coin_flip());
            i = i + 1;
        }
        self.merge_with(other, &take_other)
    }

    /// Computes and caches both utilities; the tier is left as it was.
    pub fn evaluate(
        &mut self,
        obj1_treated: &Vec<i64>,
        obj1_control: &Vec<i64>,
        obj2_treated: &Vec<i64>,
        obj2_control: &Vec<i64>,
    )
        requires
            old(self).wf(),
            obj1_treated@.len() == old(self).n,
            obj1_control@.len() == old(self).n,
            obj2_treated@.len() == old(self).n,
            obj2_control@.len() == old(self).n,
        ensures
            final(self).wf(),
            final(self).assignment@ == old(self).assignment@,
            final(self).n == old(self).n,
            final(self).n_treat == old(self).n_treat,
            final(self).rank == old(self).rank,
            final(self).utility_1 == Some(
                utility(old(self).assignment@, obj1_treated@, obj1_control@) as i128,
            ),
            final(self).utility_2 == Some(
                utility(old(self).assignment@, obj2_treated@, obj2_control@) as i128,
            ),
            final(self).utility_1.unwrap() as int == utility(old(self).assignment@, obj1_treated@, obj1_control@),
            final(self).utility_2.unwrap() as int == utility(old(self).assignment@, obj2_treated@, obj2_control@),
    {
        let u1 = total_utility(&self.assignment, obj1_treated, obj1_control);
        let u2 = total_utility(&self.assignment, obj2_treated, obj2_control);
        self.utility_1 = Some(u1);
        self.utility_2 = Some(u2);
    }
}

/// No position of an all-false assignment is treated.
proof fn lemma_none_treated(s: Seq<bool>)
    requires
        forall|j: int| 0 <= j < s.len() ==> !s[j],
    ensures
        count_true(s) == 0,
    decreases s.len(),
{
    if s.len() > 0 {
        lemma_none_treated(s.drop_last());
    }
}

/// Sum of the outcomes the assignment selects.
pub fn total_utility(a: &Vec<bool>, treated: &Vec<i64>, control: &Vec<i64>) -> (r: i128)
    requires
        treated@.len() == a@.len(),
        control@.len() == a@.len(),
    ensures
        r as int == utility(a@, treated@, control@),
{
    let mut sum: i128 = 0;
    let mut i: usize = 0;
    while i < a.len()
        invariant
            i <= a@.len(),
            treated@.len() == a@.len(),
            control@.len() == a@.len(),
            sum as int == utility(a@.take(i as int), treated@, control@),
            -(i as int) * 0x8000_0000_0000_0000 <= sum <= (i as int) * 0x8000_0000_0000_0000,
        decreases a@.len() - i,
    {
        proof {
            assert(a@.take(i + 1).drop_last() =~= a@.take(i as int));
        }
        if a[i] {
            sum = sum + treated[i] as i128;
        } else {
            sum = sum + control[i] as i128;
        }
        i = i + 1;
    }
    assert(a@.take(i as int) =~= a@);
    sum
}

} // verus!
