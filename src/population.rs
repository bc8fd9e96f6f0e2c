use vstd::multiset::Multiset;
use vstd::prelude::*;

use crate::blend::advantage_bound;
use crate::counting::count_true;
use crate::outcomes::{advantage, advantage_of, OptError, PotentialOutcomes};
use crate::policy::{assignments_of, utility, Policy};
use crate::random::random_index;
use crate::ranking::{rank, rank_of};
use crate::sorting::{key_of, scored, sort_desc, sorted_desc};
use crate::tiers::{assign_tiers, opens_pass, tiers_complete, tiers_sound};

verus! {

broadcast use vstd::seq_lib::group_to_multiset_ensures;

/// Tier given to every policy that no ranking pass placed.
pub const UNPLACED_RANK: usize = 99;

/// Fixed-point unit of the temperature and its decay: one million parts
/// make 1.0.
pub const PPM: u64 = 1_000_000;

/// Negated entries: ranking them ascending ranks the given ones descending.
pub open spec fn negated(s: Seq<i128>) -> Seq<i128> {
    Seq::new(s.len(), |u: int| (-s[u]) as i128)
}

/// Anchor assignment: treat every unit with fewer than `n_treat` units of
/// strictly larger advantage. Units tied at the cutoff share a rank, so
/// ties can make more than `n_treat` units treated.
pub open spec fn anchor_spec(adv: Seq<i128>, n_treat: int) -> Seq<bool> {
    Seq::new(adv.len(), |u: int| rank_of(negated(adv), u) < n_treat)
}

/// Assignments of the rank-1 policies, in population order.
pub open spec fn elites(ps: Seq<Policy>) -> Seq<Seq<bool>>
    decreases ps.len(),
{
    if ps.len() == 0 {
        Seq::empty()
    } else {
        let rest = elites(ps.drop_last());
        if ps.last().rank == Some(1usize) {
            rest.push(ps.last().assignment@)
        } else {
            rest
        }
    }
}

/// Elites first, two slots each: the elite's assignment unchanged, then a
/// copy of it with the same treated count (its mutated clone).
pub open spec fn elite_layout(next: Seq<Policy>, es: Seq<Seq<bool>>) -> bool {
    &&& next.len() >= 2 * es.len()
    &&& forall|j: int|
        0 <= j < es.len() ==> next[2 * j].assignment@ == #[trigger] es[j] && count_true(
            next[2 * j + 1].assignment@,
        ) == count_true(es[j])
}

/// Mutation count for a temperature: `temperature * n`, but at least `floor`.
pub open spec fn mutation_count(temperature_ppm: int, n: int, floor: int) -> int {
    let scaled = temperature_ppm * n / (PPM as int);
    if scaled > floor {
        scaled
    } else {
        floor
    }
}

/// Swaps per mutation at a temperature (in millionths) for `n` units:
/// `temperature * n`, rounded down, but at least `floor`.
pub fn num_mutates(temperature_ppm: u64, n: usize, floor: usize) -> (r: usize)
    requires
        temperature_ppm <= PPM,
    ensures
        r == mutation_count(temperature_ppm as int, n as int, floor as int),
{
    proof {
        assert((temperature_ppm as int) * (n as int) / (PPM as int) <= n) by (nonlinear_arith)
            requires
                temperature_ppm <= PPM,
                n >= 0,
        ;
        assert((temperature_ppm as int) * (n as int) <= 0x1_0000_0000_0000_0000 * 0x1_0000_0000)
            by (nonlinear_arith)
            requires
                temperature_ppm <= PPM,
                n < 0x1_0000_0000_0000_0000,
        ;
    }
    let scaled = ((temperature_ppm as u128) * (n as u128) / (PPM as u128)) as usize;
    if scaled > floor {
        scaled
    } else {
        floor
    }
}

/// Both utilities of `p` are its own, under `o`.
pub open spec fn evaluated(p: Policy, o: PotentialOutcomes) -> bool {
    &&& p.utility_1 == Some(utility(p.assignment@, o.obj1_treated@, o.obj1_control@) as i128)
    &&& p.utility_2 == Some(utility(p.assignment@, o.obj2_treated@, o.obj2_control@) as i128)
}

/// A policy of the right shape for a population of `n` units and quota
/// `n_treat`.
pub open spec fn member(p: Policy, n: usize, n_treat: usize) -> bool {
    p.wf() && p.n == n && p.n_treat == n_treat
}

/// The current generation of candidate assignments and the settings that
/// drive its evolution.
#[derive(Clone, Debug)]
pub struct Population {
    pub policies: Vec<Policy>,
    pub n: usize,
    pub n_treat: usize,
    pub outcomes: PotentialOutcomes,
    pub temperature_ppm: u64,
    pub temperature_decay_ppm: u64,
    pub generation: u64,
    pub generation_size: usize,
    pub mutation_floor: usize,
    pub tier_ratio: usize,
}

/// Anchor policy from one objective's advantages.
fn anchor(adv: &Vec<i128>, n: usize, n_treat: usize) -> (r: Policy)
    requires
        adv@.len() == n,
        n_treat <= n,
        forall|u: int|
            0 <= u < adv@.len() ==> -advantage_bound() <= #[trigger] adv@[u] <= advantage_bound(),
    ensures
        member(r, n, n_treat),
        r.fresh(),
        r.assignment@ == anchor_spec(adv@, n_treat as int),
{
    let mut neg: Vec<i128> = Vec::new();
    let mut u: usize = 0;
    while u < adv.len()
        invariant
            u <= adv@.len(),
            forall|q: int|
                0 <= q < adv@.len() ==> -advantage_bound() <= #[trigger] adv@[q] <= advantage_bound(),
            neg@ =~= negated(adv@).take(u as int),
        decreases adv@.len() - u,
    {
        neg.push(-adv[u]);
        u = u + 1;
    }
    assert(neg@ =~= negated(adv@));
    let ranks = rank(&neg);
    let mut assignment: Vec<bool> = Vec::new();
    let mut v: usize = 0;
    while v < ranks.len()
        invariant
            v <= ranks@.len(),
            ranks@.len() == neg@.len(),
            neg@ == negated(adv@),
            forall|i: int| 0 <= i < neg@.len() ==> ranks@[i] == rank_of(neg@, i),
            assignment@ =~= anchor_spec(adv@, n_treat as int).take(v as int),
        decreases ranks@.len() - v,
    {
        assignment.push(ranks[v] < n_treat);
        v = v + 1;
    }
    assert(assignment@ =~= anchor_spec(adv@, n_treat as int));
    Policy { assignment, n, n_treat, utility_1: None, utility_2: None, rank: None }
}

impl Population {
    /// Settings in range, and every policy shaped for these outcomes.
    pub open spec fn wf(&self) -> bool {
        &&& self.outcomes.wf()
        &&& self.outcomes.units() == self.n
        &&& 0 < self.n_treat <= self.n
        &&& self.generation_size > 0
        &&& 0 < self.temperature_decay_ppm <= PPM
        &&& self.temperature_ppm <= PPM
        &&& self.policies@.len() > 0
        &&& forall|k: int|
            0 <= k < self.policies@.len() ==> member(#[trigger] self.policies@[k], self.n, self.n_treat)
    }

    /// Every policy carries a tier.
    pub open spec fn ranked(&self) -> bool {
        forall|k: int| 0 <= k < self.policies@.len() ==> (#[trigger] self.policies@[k]).rank.is_some()
    }

    /// Settings and outcomes agree; only policies and the generation's
    /// counters may differ.
    pub open spec fn same_settings(&self, other: &Population) -> bool {
        &&& self.n == other.n
        &&& self.n_treat == other.n_treat
        &&& self.outcomes == other.outcomes
        &&& self.temperature_decay_ppm == other.temperature_decay_ppm
        &&& self.generation_size == other.generation_size
        &&& self.mutation_floor == other.mutation_floor
        &&& self.tier_ratio == other.tier_ratio
    }

    /// Starts a run: the two anchors (one per objective) followed by
    /// `generation_size` random policies, temperature 1.0, generation 0.
    /// `temperature_decay_ppm` is the per-generation decay in millionths.
    pub fn new(
        outcomes: PotentialOutcomes,
        n_treat: usize,
        temperature_decay_ppm: u64,
        generation_size: usize,
        mutation_floor: usize,
        tier_ratio: usize,
    ) -> (r: Result<Population, OptError>)
        requires
            outcomes.wf(),
        ensures
            (n_treat == 0 || n_treat > outcomes.units()) <==> r == Err::<Population, OptError>(
                OptError::InvalidQuota,
            ),
            (0 < n_treat <= outcomes.units() && (generation_size == 0 || generation_size
                >= usize::MAX - 2 || temperature_decay_ppm == 0 || temperature_decay_ppm > PPM))
                <==> r == Err::<Population, OptError>(OptError::InvalidSettings),
            (0 < n_treat <= outcomes.units() && 0 < generation_size < usize::MAX - 2 && 0
                < temperature_decay_ppm <= PPM) ==> r is Ok,
            r is Err ==> r == Err::<Population, OptError>(OptError::InvalidQuota) || r == Err::<
                Population,
                OptError,
            >(OptError::InvalidSettings),
            r matches Ok(p) ==> {
                &&& p.wf()
                &&& p.outcomes == outcomes
                &&& p.n == outcomes.units()
                &&& p.n_treat == n_treat
                &&& p.temperature_decay_ppm == temperature_decay_ppm
                &&& p.generation_size == generation_size
                &&& p.mutation_floor == mutation_floor
                &&& p.tier_ratio == tier_ratio
                &&& p.temperature_ppm == PPM
                &&& p.generation == 0
                &&& p.policies@.len() == generation_size + 2
                &&& p.policies@[0].assignment@ == anchor_spec(
                    advantage_of(outcomes.obj1_treated@, outcomes.obj1_control@),
                    n_treat as int,
                )
                &&& p.policies@[1].assignment@ == anchor_spec(
                    advantage_of(outcomes.obj2_treated@, outcomes.obj2_control@),
                    n_treat as int,
                )
                &&& forall|k: int| 0 <= k < p.policies@.len() ==> (#[trigger] p.policies@[k]).fresh()
                &&& forall|k: int|
                    2 <= k < p.policies@.len() ==> (#[trigger] p.policies@[k]).on_quota()
            },
    {
        let n = outcomes.len();
        if n_treat == 0 || n_treat > n {
            return Err(OptError::InvalidQuota);
        }
        if generation_size == 0 || generation_size >= usize::MAX - 2 || temperature_decay_ppm == 0
            || temperature_decay_ppm > PPM {
            return Err(OptError::InvalidSettings);
        }
        let adv_1 = advantage(&outcomes.obj1_treated, &outcomes.obj1_control);
        let adv_2 = advantage(&outcomes.obj2_treated, &outcomes.obj2_control);
        let mut policies: Vec<Policy> = Vec::new();
        policies.push(anchor(&adv_1, n, n_treat));
        policies.push(anchor(&adv_2, n, n_treat));
        let mut k: usize = 0;
        while k < generation_size
            invariant
                k <= generation_size,
                generation_size < usize::MAX - 2,
                n_treat <= n,
                policies@.len() == k + 2,
                policies@[0].assignment@ == anchor_spec(adv_1@, n_treat as int),
                policies@[1].assignment@ == anchor_spec(adv_2@, n_treat as int),
                forall|q: int| 0 <= q < policies@.len() ==> member(#[trigger] policies@[q], n, n_treat),
                forall|q: int| 0 <= q < policies@.len() ==> (#[trigger] policies@[q]).fresh(),
                forall|q: int| 2 <= q < policies@.len() ==> (#[trigger] policies@[q]).on_quota(),
            decreases generation_size - k,
        {
            policies.push(Policy::new(n, n_treat));
            k = k + 1;
        }
        Ok(
            Population {
                policies,
                n,
                n_treat,
                outcomes,
                temperature_ppm: PPM,
                temperature_decay_ppm,
                generation: 0,
                generation_size,
                mutation_floor,
                tier_ratio,
            },
        )
    }
}

/// Second utilities of scored policies, in order.
pub open spec fn second_scores(ps: Seq<Policy>) -> Seq<i128> {
    Seq::new(ps.len(), |k: int| ps[k].utility_2.unwrap())
}

/// Rank for a tier number: the tier itself, or `UNPLACED_RANK` for none.
pub open spec fn tier_rank(t: usize) -> usize {
    if t > 0 {
        t
    } else {
        UNPLACED_RANK
    }
}

/// `placed` is `ordered` with each rank replaced by `tier_rank` of its
/// tier, for tiers that the layered passes give on the second utilities
/// in this order, after `passes` passes under `ratio`.
pub open spec fn placed_by(
    ordered: Seq<Policy>,
    placed: Seq<Policy>,
    tiers: Seq<usize>,
    passes: int,
    ratio: int,
) -> bool {
    let scores = second_scores(ordered);
    &&& placed.len() == ordered.len()
    &&& tiers_sound(scores, tiers, passes)
    &&& tiers_complete(scores, tiers, passes)
    &&& forall|t: int| 1 <= t <= passes ==> #[trigger] opens_pass(ordered.len() as int, t, ratio)
    &&& ((forall|i: int| 0 <= i < tiers.len() ==> tiers[i] != 0) || passes == ordered.len() || (
    passes > 0 && ordered.len() as int / passes <= ratio))
    &&& forall|k: int|
        0 <= k < ordered.len() ==> reranked(ordered[k], #[trigger] placed[k], tier_rank(tiers[k]))
}

/// `after` is `before` scored, ranked and reordered as one evaluation does
/// it: `before` in descending first utility (`ordered`) is ranked by the
/// tier passes (`placed`); every policy of `after` but the first is one of
/// `placed`, and the first is one of `placed` raised to rank 1.
pub open spec fn ranked_from(
    before: Seq<Policy>,
    after: Seq<Policy>,
    o: PotentialOutcomes,
    ratio: int,
) -> bool {
    exists|ordered: Seq<Policy>, placed: Seq<Policy>|
        {
            &&& sorted_desc(ordered, false)
            &&& assignments_of(ordered).to_multiset() == assignments_of(before).to_multiset()
            &&& forall|k: int| 0 <= k < ordered.len() ==> evaluated(#[trigger] ordered[k], o)
            &&& tier_placement(ordered, placed, ratio)
            &&& forall|k: int| 1 <= k < after.len() ==> placed.contains(#[trigger] after[k])
            &&& exists|j: int| 0 <= j < placed.len() && reranked(placed[j], after[0], 1)
        }
}

/// `placed` is `ordered` ranked by the layered tier passes.
pub open spec fn tier_placement(ordered: Seq<Policy>, placed: Seq<Policy>, ratio: int) -> bool {
    exists|tiers: Seq<usize>, passes: int| placed_by(ordered, placed, tiers, passes, ratio)
}

/// `q` is `p` with its rank replaced by `rank`.
pub open spec fn reranked(p: Policy, q: Policy, rank: usize) -> bool {
    &&& q.assignment@ == p.assignment@
    &&& q.n == p.n
    &&& q.n_treat == p.n_treat
    &&& q.utility_1 == p.utility_1
    &&& q.utility_2 == p.utility_2
    &&& q.rank == Some(rank)
}

impl Population {
    /// Scores every policy and orders them by the first utility,
    /// descending; policies of equal first utility keep their order.
    pub fn score_and_order(&mut self)
        requires
            old(self).wf(),
        ensures
            final(self).wf(),
            final(self).same_settings(old(self)),
            final(self).generation == old(self).generation,
            final(self).temperature_ppm == old(self).temperature_ppm,
            final(self).policies@.len() == old(self).policies@.len(),
            forall|k: int|
                0 <= k < final(self).policies@.len() ==> evaluated(
                    #[trigger] final(self).policies@[k],
                    final(self).outcomes,
                ),
            sorted_desc(final(self).policies@, false),
            assignments_of(final(self).policies@).to_multiset() == assignments_of(
                old(self).policies@,
            ).to_multiset(),
    {
        let mut src: Vec<Policy> = Vec::new();
        std::mem::swap(&mut self.policies, &mut src);
        let ghost len = src@.len();
        let ghost orig = src@;
        let mut scored_rev: Vec<Policy> = Vec::new();
        while src.len() > 0
            invariant
                assignments_of(scored_rev@).to_multiset().add(assignments_of(src@).to_multiset())
                    == assignments_of(orig).to_multiset(),
                self.outcomes.wf(),
                self.outcomes.units() == self.n,
                src@.len() + scored_rev@.len() == len,
                forall|q: int| 0 <= q < src@.len() ==> member(#[trigger] src@[q], self.n, self.n_treat),
                forall|q: int|
                    0 <= q < scored_rev@.len() ==> member(#[trigger] scored_rev@[q], self.n, self.n_treat),
                forall|q: int|
                    0 <= q < scored_rev@.len() ==> evaluated(#[trigger] scored_rev@[q], self.outcomes),
            decreases src@.len(),
        {
            let ghost before = src@;
            let mut p = src.pop().unwrap();
            assert(before[before.len() - 1] == p);
            p.evaluate(
                &self.outcomes.obj1_treated,
                &self.outcomes.obj1_control,
                &self.outcomes.obj2_treated,
                &self.outcomes.obj2_control,
            );
            let ghost prev_scored = scored_rev@;
            scored_rev.push(p);
            assert(forall|q: int| 0 <= q < src@.len() ==> src@[q] == before[q]);
            proof {
                assert(assignments_of(before) =~= assignments_of(src@).push(p.assignment@));
                assert(assignments_of(scored_rev@) =~= assignments_of(prev_scored).push(p.assignment@));
                assert(assignments_of(scored_rev@).to_multiset().add(assignments_of(src@).to_multiset())
                    =~= assignments_of(orig).to_multiset());
            }
        }
        proof {
            assert(assignments_of(src@).to_multiset() =~= Multiset::empty());
        }
        let ghost scored_all = scored_rev@;
        let by_u1 = sort_desc(scored_rev, false);
        proof {
            assert forall|q: int| 0 <= q < by_u1@.len() implies member(#[trigger] by_u1@[q], self.n, self.n_treat)
                && evaluated(by_u1@[q], self.outcomes) by {
                assert(scored_all.contains(by_u1@[q]));
            }
            assert(assignments_of(scored_all).to_multiset() =~= assignments_of(orig).to_multiset());
        }
        self.policies = by_u1;
    }

    /// Layered tier passes over the current order (see `assign_tiers`) on
    /// the second utilities; each policy's rank becomes its tier, or
    /// `UNPLACED_RANK` where no pass placed it. Nothing else changes.
    pub fn place_tiers(&mut self)
        requires
            old(self).wf(),
            forall|k: int| 0 <= k < old(self).policies@.len() ==> scored(#[trigger] old(self).policies@[k]),
        ensures
            final(self).wf(),
            final(self).same_settings(old(self)),
            final(self).generation == old(self).generation,
            final(self).temperature_ppm == old(self).temperature_ppm,
            final(self).policies@.len() == old(self).policies@.len(),
            tier_placement(old(self).policies@, final(self).policies@, old(self).tier_ratio as int),
    {
        let mut scores: Vec<i128> = Vec::new();
        let mut k: usize = 0;
        while k < self.policies.len()
            invariant
                k <= self.policies@.len(),
                scores@ =~= second_scores(self.policies@).take(k as int),
                forall|q: int| 0 <= q < self.policies@.len() ==> scored(#[trigger] self.policies@[q]),
            decreases self.policies@.len() - k,
        {
            assert(scored(self.policies@[k as int]));
            scores.push(self.policies[k].utility_2.unwrap());
            k = k + 1;
        }
        assert(scores@ =~= second_scores(self.policies@));
        let (tiers, passes) = assign_tiers(&scores, self.tier_ratio);
        let mut src: Vec<Policy> = Vec::new();
        std::mem::swap(&mut self.policies, &mut src);
        let ghost orig = src@;
        let ghost len = orig.len();
        let mut rev: Vec<Policy> = Vec::new();
        while src.len() > 0
            invariant
                tiers@.len() == len,
                orig.len() == len,
                src@ =~= orig.take(src@.len() as int),
                src@.len() + rev@.len() == len,
                forall|j: int|
                    0 <= j < rev@.len() ==> reranked(
                        orig[len - 1 - j],
                        #[trigger] rev@[j],
                        tier_rank(tiers@[len - 1 - j]),
                    ),
            decreases src@.len(),
        {
            let mut p = src.pop().unwrap();
            assert(p == orig[src@.len() as int]);
            let t = tiers[src.len()];
            if t > 0 {
                p.rank = Some(t);
            } else {
                p.rank = Some(UNPLACED_RANK);
            }
            rev.push(p);
        }
        let ghost rev_all = rev@;
        let mut out: Vec<Policy> = Vec::new();
        while rev.len() > 0
            invariant
                rev_all.len() == len,
                rev@ =~= rev_all.take(rev@.len() as int),
                rev@.len() + out@.len() == len,
                forall|j: int| 0 <= j < out@.len() ==> #[trigger] out@[j] == rev_all[len - 1 - j],
            decreases rev@.len(),
        {
            let p = rev.pop().unwrap();
            assert(p == rev_all[rev@.len() as int]);
            out.push(p);
        }
        self.policies = out;
        proof {
            assert forall|k: int| 0 <= k < len implies reranked(
                orig[k],
                #[trigger] self.policies@[k],
                tier_rank(tiers@[k]),
            ) by {
                assert(self.policies@[k] == rev_all[len - 1 - k]);
                assert(len - 1 - (len - 1 - k) == k);
            }
            assert forall|q: int| 0 <= q < self.policies@.len() implies member(
                #[trigger] self.policies@[q],
                self.n,
                self.n_treat,
            ) by {
                assert(reranked(orig[q], self.policies@[q], tier_rank(tiers@[q])));
                assert(member(orig[q], self.n, self.n_treat));
            }
            assert(second_scores(orig) == scores@);
            assert(placed_by(orig, self.policies@, tiers@, passes as int, self.tier_ratio as int));
        }
    }

    /// Orders the policies by the second utility, descending (policies of
    /// equal second utility keep their order), and gives the first one,
    /// a maximiser of the second utility, rank 1.
    pub fn promote_best(&mut self)
        requires
            old(self).wf(),
            forall|k: int| 0 <= k < old(self).policies@.len() ==> scored(#[trigger] old(self).policies@[k]),
        ensures
            final(self).wf(),
            final(self).same_settings(old(self)),
            final(self).generation == old(self).generation,
            final(self).temperature_ppm == old(self).temperature_ppm,
            final(self).policies@.len() == old(self).policies@.len(),
            final(self).policies@[0].rank == Some(1usize),
            sorted_desc(final(self).policies@, true),
            forall|k: int|
                1 <= k < final(self).policies@.len() ==> old(self).policies@.contains(
                    #[trigger] final(self).policies@[k],
                ),
            exists|j: int|
                0 <= j < old(self).policies@.len() && reranked(
                    old(self).policies@[j],
                    final(self).policies@[0],
                    1,
                ),
            assignments_of(final(self).policies@).to_multiset() == assignments_of(
                old(self).policies@,
            ).to_multiset(),
    {
        let mut src: Vec<Policy> = Vec::new();
        std::mem::swap(&mut self.policies, &mut src);
        let ghost orig = src@;
        let ghost len = orig.len();
        let mut rev: Vec<Policy> = Vec::new();
        while src.len() > 0
            invariant
                orig.len() == len,
                src@ =~= orig.take(src@.len() as int),
                src@.len() + rev@.len() == len,
                forall|j: int| 0 <= j < rev@.len() ==> #[trigger] rev@[j] == orig[len - 1 - j],
            decreases src@.len(),
        {
            let p = src.pop().unwrap();
            assert(p == orig[src@.len() as int]);
            rev.push(p);
        }
        proof {
            assert forall|q: int| 0 <= q < rev@.len() implies scored(#[trigger] rev@[q]) by {
                assert(rev@[q] == orig[len - 1 - q]);
            }
            assert forall|q: int| 0 <= q < rev@.len() implies orig.contains(#[trigger] rev@[q]) by {
                assert(rev@[q] == orig[len - 1 - q]);
            }
            assert(assignments_of(rev@).to_multiset() =~= assignments_of(orig).to_multiset()) by {
                assert(rev@.len() == len);
                lemma_reverse_multiset(orig, rev@);
            }
        }
        let ghost rev_all = rev@;
        let mut by_u2 = sort_desc(rev, true);
        let ghost unforced = by_u2@;
        proof {
            assert forall|q: int| 0 <= q < unforced.len() implies orig.contains(#[trigger] unforced[q]) by {
                assert(rev_all.contains(unforced[q]));
                let j = choose|j: int| 0 <= j < rev_all.len() && rev_all[j] == unforced[q];
                assert(orig.contains(rev_all[j]));
            }
        }
        let mut first = by_u2.remove(0);
        first.rank = Some(1);
        by_u2.insert(0, first);
        proof {
            assert(by_u2@ =~= unforced.update(0, first));
            assert(assignments_of(by_u2@) =~= assignments_of(unforced));
            assert forall|a: int, b: int| 0 <= a < b < by_u2@.len() implies key_of(by_u2@[a], true)
                >= key_of(by_u2@[b], true) by {
                assert(key_of(unforced[a], true) >= key_of(unforced[b], true));
            }
            assert forall|k: int| 1 <= k < by_u2@.len() implies orig.contains(#[trigger] by_u2@[k]) by {
                assert(by_u2@[k] == unforced[k]);
            }
            assert(orig.contains(unforced[0]));
            let j = choose|j: int| 0 <= j < orig.len() && orig[j] == unforced[0];
            assert(reranked(orig[j], by_u2@[0], 1));
        }
        self.policies = by_u2;
        proof {
            assert forall|q: int| 0 <= q < self.policies@.len() implies member(
                #[trigger] self.policies@[q],
                self.n,
                self.n_treat,
            ) by {
                if q == 0 {
                    let j = choose|j: int| 0 <= j < orig.len() && orig[j] == unforced[0];
                    assert(member(orig[j], self.n, self.n_treat));
                } else {
                    let j = choose|j: int| 0 <= j < orig.len() && orig[j] == self.policies@[q];
                    assert(member(orig[j], self.n, self.n_treat));
                }
            }
        }
    }

    /// One full evaluation: `score_and_order`, `place_tiers`, then
    /// `promote_best`. Afterwards every policy is scored and ranked, ranks
    /// are at least 1, the policies run by descending second utility and
    /// the first, a maximiser of it, has rank 1.
    pub fn evaluate(&mut self)
        requires
            old(self).wf(),
        ensures
            final(self).wf(),
            final(self).same_settings(old(self)),
            final(self).generation == old(self).generation,
            final(self).temperature_ppm == old(self).temperature_ppm,
            final(self).policies@.len() == old(self).policies@.len(),
            final(self).ranked(),
            forall|k: int|
                0 <= k < final(self).policies@.len() ==> evaluated(
                    #[trigger] final(self).policies@[k],
                    final(self).outcomes,
                ),
            forall|k: int|
                0 <= k < final(self).policies@.len() ==> (#[trigger] final(self).policies@[k]).rank.unwrap() >= 1,
            final(self).policies@[0].rank == Some(1usize),
            forall|k: int|
                0 <= k < final(self).policies@.len() ==> key_of(#[trigger] final(self).policies@[k], true)
                    <= key_of(final(self).policies@[0], true),
            sorted_desc(final(self).policies@, true),
            assignments_of(final(self).policies@).to_multiset() == assignments_of(
                old(self).policies@,
            ).to_multiset(),
            ranked_from(
                old(self).policies@,
                final(self).policies@,
                old(self).outcomes,
                old(self).tier_ratio as int,
            ),
    {
        self.score_and_order();
        let ghost ordered = self.policies@;
        self.place_tiers();
        let ghost placed = self.policies@;
        proof {
            let (tiers, passes) = choose|tiers: Seq<usize>, passes: int|
                placed_by(ordered, placed, tiers, passes, self.tier_ratio as int);
            assert forall|k: int| 0 <= k < placed.len() implies scored(#[trigger] placed[k]) && evaluated(placed[k], self.outcomes)
                && placed[k].rank.unwrap() >= 1 by {
                assert(reranked(ordered[k], placed[k], tier_rank(tiers[k])));
                assert(evaluated(ordered[k], self.outcomes));
            }
            assert(assignments_of(placed) =~= assignments_of(ordered)) by {
                assert forall|k: int| 0 <= k < placed.len() implies assignments_of(placed)[k] == assignments_of(ordered)[k] by {
                    assert(reranked(ordered[k], placed[k], tier_rank(tiers[k])));
                }
            }
        }
        self.promote_best();
        proof {
            assert forall|k: int| 0 <= k < self.policies@.len() implies evaluated(
                #[trigger] self.policies@[k],
                self.outcomes,
            ) && self.policies@[k].rank.is_some() && self.policies@[k].rank.unwrap() >= 1 by {
                if k == 0 {
                    let j = choose|j: int| 0 <= j < placed.len() && reranked(placed[j], self.policies@[0], 1);
                    assert(evaluated(placed[j], self.outcomes));
                } else {
                    let j = choose|j: int| 0 <= j < placed.len() && placed[j] == self.policies@[k];
                    assert(evaluated(placed[j], self.outcomes));
                    assert(placed[j].rank.unwrap() >= 1);
                }
            }
            assert(ranked_from(old(self).policies@, self.policies@, self.outcomes, self.tier_ratio as int))
                by {
                assert forall|k: int| 1 <= k < self.policies@.len() implies placed.contains(
                    #[trigger] self.policies@[k],
                ) by {}
            }
            assert forall|k: int| 0 <= k < self.policies@.len() implies key_of(#[trigger] self.policies@[k], true)
                <= key_of(self.policies@[0], true) by {
                if k > 0 {
                    assert(key_of(self.policies@[0], true) >= key_of(self.policies@[k], true));
                }
            }
        }
    }
}

/// Reversing a sequence of policies keeps the multiset of assignments.
proof fn lemma_reverse_multiset(s: Seq<Policy>, r: Seq<Policy>)
    requires
        r.len() == s.len(),
        forall|j: int| 0 <= j < r.len() ==> #[trigger] r[j] == s[s.len() - 1 - j],
    ensures
        assignments_of(r).to_multiset() == assignments_of(s).to_multiset(),
    decreases s.len(),
{
    if s.len() > 0 {
        let s2 = s.drop_last();
        let r2 = r.subrange(1, r.len() as int);
        assert forall|j: int| 0 <= j < r2.len() implies #[trigger] r2[j] == s2[s2.len() - 1 - j] by {
            assert(r2[j] == r[j + 1]);
        }
        lemma_reverse_multiset(s2, r2);
        assert(assignments_of(s) =~= assignments_of(s2).push(s.last().assignment@));
        assert(assignments_of(r) =~= assignments_of(r2).insert(0, r[0].assignment@));
        assert(r[0] == s.last());
    }
}

impl Population {
    /// Binary tournament between two positions: the lower (better) rank
    /// wins, and the first position wins ties.
    pub fn tournament(&self, a: usize, b: usize) -> (r: usize)
        requires
            self.ranked(),
            a < self.policies@.len(),
            b < self.policies@.len(),
        ensures
            r == if self.policies@[a as int].rank.unwrap() <= self.policies@[b as int].rank.unwrap() {
                a
            } else {
                b
            },
    {
        assert(self.policies@[a as int].rank.is_some());
        assert(self.policies@[b as int].rank.is_some());
        if self.policies[a].rank.unwrap() <= self.policies[b].rank.unwrap() {
            a
        } else {
            b
        }
    }

    /// One offspring: two binary tournaments over uniformly drawn
    /// positions pick the parents, then crossover, repair and
    /// `num_mutates` swaps.
    pub fn create_kid(&self, num_mutates: usize) -> (r: Policy)
        requires
            self.wf(),
            self.ranked(),
        ensures
            member(r, self.n, self.n_treat),
            r.on_quota(),
            r.fresh(),
    {
        let len = self.policies.len();
        let i1 = random_index(len);
        let i2 = random_index(len);
        let i3 = random_index(len);
        let i4 = random_index(len);
        let c1 = self.tournament(i1, i2);
        let c2 = self.tournament(i3, i4);
        assert(member(self.policies@[c1 as int], self.n, self.n_treat));
        assert(member(self.policies@[c2 as int], self.n, self.n_treat));
        let mut kid = self.policies[c1].merge(&self.policies[c2]);
        kid.repair();
        kid.mutate(num_mutates);
        kid
    }

    /// Builds the next generation: the counter advances, the temperature
    /// decays, every rank-1 policy is carried over twice (unchanged, and
    /// mutated), and tournament offspring fill the rest. The new
    /// generation holds exactly `generation_size` unscored policies.
    pub fn next_gen(&mut self)
        requires
            old(self).wf(),
            old(self).ranked(),
        ensures
            final(self).wf(),
            final(self).same_settings(old(self)),
            final(self).policies@.len() == old(self).generation_size,
            old(self).generation < u64::MAX ==> final(self).generation == old(self).generation + 1,
            old(self).generation == u64::MAX ==> final(self).generation == u64::MAX,
            final(self).temperature_ppm == old(self).temperature_ppm * old(self).temperature_decay_ppm
                / (PPM as int),
            forall|k: int| 0 <= k < final(self).policies@.len() ==> (#[trigger] final(self).policies@[k]).fresh(),
            (forall|j: int|
                0 <= j < old(self).policies@.len() && (#[trigger] old(self).policies@[j]).rank == Some(1usize)
                    ==> old(self).policies@[j].on_quota()) ==> forall|k: int|
                0 <= k < final(self).policies@.len() ==> (#[trigger] final(self).policies@[k]).on_quota(),
            2 * elites(old(self).policies@).len() <= old(self).generation_size ==> forall|j: int|
                0 <= j < old(self).policies@.len() && (#[trigger] old(self).policies@[j]).rank == Some(
                    1usize,
                ) ==> exists|k: int|
                    0 <= k < final(self).policies@.len() && final(self).policies@[k].assignment@
                        == old(self).policies@[j].assignment@,
            2 * elites(old(self).policies@).len() <= old(self).generation_size ==> elite_layout(
                final(self).policies@,
                elites(old(self).policies@),
            ),
            2 * elites(old(self).policies@).len() <= old(self).generation_size ==> forall|q: int|
                2 * elites(old(self).policies@).len() <= q < final(self).policies@.len()
                    ==> (#[trigger] final(self).policies@[q]).on_quota(),
    {
        if self.generation < u64::MAX {
            self.generation = self.generation + 1;
        }
        let t = self.temperature_ppm;
        let d = self.temperature_decay_ppm;
        proof {
            assert(t * d <= PPM * PPM) by (nonlinear_arith)
                requires
                    t <= PPM,
                    d <= PPM,
            ;
            assert(t * d / (PPM as int) <= t) by (nonlinear_arith)
                requires
                    d <= PPM,
                    t >= 0,
            ;
        }
        self.temperature_ppm = t * d / PPM;
        let swaps = num_mutates(self.temperature_ppm, self.n, self.mutation_floor);
        let ghost all_elites_on_quota = forall|j: int|
            0 <= j < self.policies@.len() && (#[trigger] self.policies@[j]).rank == Some(1usize)
                ==> self.policies@[j].on_quota();
        let mut next: Vec<Policy> = Vec::new();
        let mut i: usize = 0;
        while i < self.policies.len()
            invariant
                self.wf(),
                self.policies@ == old(self).policies@,
                i <= self.policies@.len(),
                next@.len() <= self.generation_size,
                forall|q: int| 0 <= q < next@.len() ==> member(#[trigger] next@[q], self.n, self.n_treat),
                forall|q: int| 0 <= q < next@.len() ==> (#[trigger] next@[q]).fresh(),
                all_elites_on_quota == forall|j: int|
                    0 <= j < self.policies@.len() && (#[trigger] self.policies@[j]).rank == Some(1usize)
                        ==> self.policies@[j].on_quota(),
                all_elites_on_quota ==> forall|q: int| 0 <= q < next@.len() ==> (#[trigger] next@[q]).on_quota(),
                2 * elites(self.policies@.take(i as int)).len() <= self.generation_size ==> next@.len()
                    == 2 * elites(self.policies@.take(i as int)).len(),
                2 * elites(self.policies@.take(i as int)).len() <= self.generation_size ==> forall|j: int|
                    0 <= j < i && (#[trigger] self.policies@[j]).rank == Some(1usize) ==> exists|k: int|
                        0 <= k < next@.len() && next@[k].assignment@ == self.policies@[j].assignment@,
                2 * elites(self.policies@.take(i as int)).len() <= self.generation_size ==> elite_layout(
                    next@,
                    elites(self.policies@.take(i as int)),
                ),
            decreases self.policies@.len() - i,
        {
            assert(member(self.policies@[i as int], self.n, self.n_treat));
            let ghost next_before = next@;
            proof {
                assert(self.policies@.take(i + 1).drop_last() =~= self.policies@.take(i as int));
            }
            if self.policies[i].rank == Some(1usize) {
                if next.len() < self.generation_size {
                    next.push(self.policies[i].fresh_copy());
                }
                if next.len() < self.generation_size {
                    let mut kid = self.policies[i].fresh_copy();
                    kid.mutate(swaps);
                    next.push(kid);
                }
            }
            proof {
                let e0 = elites(self.policies@.take(i as int)).len();
                let e1 = elites(self.policies@.take(i + 1)).len();
                assert(e0 <= e1);
                if 2 * e1 <= self.generation_size {
                    assert forall|j: int|
                        0 <= j < i + 1 && (#[trigger] self.policies@[j]).rank == Some(1usize) implies exists|k: int|
                        0 <= k < next@.len() && next@[k].assignment@ == self.policies@[j].assignment@ by {
                        if j < i {
                            let k = choose|k: int|
                                0 <= k < next_before.len() && next_before[k].assignment@
                                    == self.policies@[j].assignment@;
                            assert(next@[k] == next_before[k]);
                        } else {
                            assert(next@[next_before.len() as int].assignment@ == self.policies@[j].assignment@);
                        }
                    }
                    let es0 = elites(self.policies@.take(i as int));
                    let es1 = elites(self.policies@.take(i + 1));
                    assert(self.policies@.take(i + 1).last() == self.policies@[i as int]);
                    if self.policies@[i as int].rank == Some(1usize) {
                        assert(es1 == es0.push(self.policies@[i as int].assignment@));
                    } else {
                        assert(es1 == es0);
                    }
                    assert forall|j: int| 0 <= j < es1.len() implies next@[2 * j].assignment@
                        == #[trigger] es1[j] && count_true(next@[2 * j + 1].assignment@) == count_true(
                        es1[j],
                    ) by {
                        if j < es0.len() {
                            assert(next@[2 * j] == next_before[2 * j]);
                            assert(next@[2 * j + 1] == next_before[2 * j + 1]);
                            assert(es1[j] == es0[j]);
                        }
                    }
                }
            }
            i = i + 1;
        }
        assert(self.policies@.take(i as int) =~= self.policies@);
        while next.len() < self.generation_size
            invariant
                self.wf(),
                self.ranked(),
                self.policies@ == old(self).policies@,
                2 * elites(self.policies@).len() <= self.generation_size ==> forall|j: int|
                    0 <= j < self.policies@.len() && (#[trigger] self.policies@[j]).rank == Some(1usize)
                        ==> exists|k: int|
                        0 <= k < next@.len() && next@[k].assignment@ == self.policies@[j].assignment@,
                next@.len() <= self.generation_size,
                forall|q: int| 0 <= q < next@.len() ==> member(#[trigger] next@[q], self.n, self.n_treat),
                forall|q: int| 0 <= q < next@.len() ==> (#[trigger] next@[q]).fresh(),
                all_elites_on_quota ==> forall|q: int| 0 <= q < next@.len() ==> (#[trigger] next@[q]).on_quota(),
                2 * elites(self.policies@).len() <= self.generation_size ==> elite_layout(
                    next@,
                    elites(self.policies@),
                ),
                2 * elites(self.policies@).len() <= self.generation_size ==> forall|q: int|
                    2 * elites(self.policies@).len() <= q < next@.len()
                        ==> (#[trigger] next@[q]).on_quota(),
            decreases self.generation_size - next@.len(),
        {
            let kid = self.create_kid(swaps);
            let ghost next_before = next@;
            next.push(kid);
            proof {
                if 2 * elites(self.policies@).len() <= self.generation_size {
                    assert forall|j: int|
                        0 <= j < self.policies@.len() && (#[trigger] self.policies@[j]).rank == Some(1usize)
                            implies exists|k: int|
                        0 <= k < next@.len() && next@[k].assignment@ == self.policies@[j].assignment@ by {
                        let k = choose|k: int|
                            0 <= k < next_before.len() && next_before[k].assignment@
                                == self.policies@[j].assignment@;
                        assert(next@[k] == next_before[k]);
                    }
                    let es = elites(self.policies@);
                    assert forall|j: int| 0 <= j < es.len() implies next@[2 * j].assignment@
                        == #[trigger] es[j] && count_true(next@[2 * j + 1].assignment@) == count_true(
                        es[j],
                    ) by {
                        assert(next@[2 * j] == next_before[2 * j]);
                        assert(next@[2 * j + 1] == next_before[2 * j + 1]);
                    }
                }
            }
        }
        let ghost prev = self.policies@;
        assert(prev == old(self).policies@);
        self.policies = next;
        proof {
            if 2 * elites(prev).len() <= self.generation_size {
                assert forall|j: int|
                    0 <= j < prev.len() && (#[trigger] prev[j]).rank == Some(1usize) implies exists|k: int|
                    0 <= k < self.policies@.len() && self.policies@[k].assignment@ == prev[j].assignment@ by {
                    let k = choose|k: int|
                        0 <= k < next@.len() && next@[k].assignment@ == prev[j].assignment@;
                    assert(self.policies@[k] == next@[k]);
                }
                assert(self.policies@ == next@);
            }
        }
    }
}

impl Population {
    /// The assignments of the rank-1 policies, in order. Fails when that
    /// tier is empty or holds every policy.
    pub fn elite_assignments(&self) -> (r: Result<Vec<Vec<bool>>, OptError>)
        ensures
            (elites(self.policies@).len() == 0 || elites(self.policies@).len()
                == self.policies@.len()) <==> r is Err,
            r is Err ==> r == Err::<Vec<Vec<bool>>, OptError>(OptError::DegenerateResult),
            r matches Ok(v) ==> v@.len() == elites(self.policies@).len() && forall|k: int|
                0 <= k < v@.len() ==> (#[trigger] v@[k])@ == elites(self.policies@)[k],
    {
        let mut out: Vec<Vec<bool>> = Vec::new();
        let mut i: usize = 0;
        while i < self.policies.len()
            invariant
                i <= self.policies@.len(),
                out@.len() == elites(self.policies@.take(i as int)).len(),
                forall|k: int|
                    0 <= k < out@.len() ==> (#[trigger] out@[k])@ == elites(
                        self.policies@.take(i as int),
                    )[k],
            decreases self.policies@.len() - i,
        {
            assert(self.policies@.take(i + 1).drop_last() =~= self.policies@.take(i as int));
            if self.policies[i].rank == Some(1usize) {
                let copy = self.policies[i].fresh_copy();
                out.push(copy.assignment);
            }
            i = i + 1;
        }
        assert(self.policies@.take(i as int) =~= self.policies@);
        proof {
            lemma_elites_len(self.policies@);
        }
        if out.len() == 0 || out.len() == self.policies.len() {
            return Err(OptError::DegenerateResult);
        }
        Ok(out)
    }
}

/// There are never more elites than policies.
proof fn lemma_elites_len(ps: Seq<Policy>)
    ensures
        elites(ps).len() <= ps.len(),
    decreases ps.len(),
{
    if ps.len() > 0 {
        lemma_elites_len(ps.drop_last());
    }
}

/// A rank-1 policy at the front puts its assignment first among the elites.
proof fn lemma_elites_first(ps: Seq<Policy>)
    requires
        ps.len() > 0,
        ps[0].rank == Some(1usize),
    ensures
        elites(ps).len() >= 1,
        elites(ps)[0] == ps[0].assignment@,
    decreases ps.len(),
{
    let rest = elites(ps.drop_last());
    if ps.len() > 1 {
        assert(ps.drop_last()[0] == ps[0]);
        lemma_elites_first(ps.drop_last());
        assert(rest[0] == ps[0].assignment@);
        if ps.last().rank == Some(1usize) {
            assert(elites(ps) == rest.push(ps.last().assignment@));
        }
    } else {
        assert(rest.len() == 0);
        assert(elites(ps) == rest.push(ps.last().assignment@));
    }
}

/// Every elite assignment is the assignment of some policy.
proof fn lemma_elites_from(ps: Seq<Policy>, k: int)
    requires
        0 <= k < elites(ps).len(),
    ensures
        exists|j: int| 0 <= j < ps.len() && ps[j].assignment@ == elites(ps)[k],
    decreases ps.len(),
{
    if ps.len() > 0 {
        let rest = elites(ps.drop_last());
        if k < rest.len() {
            lemma_elites_from(ps.drop_last(), k);
            let j = choose|j: int| 0 <= j < ps.drop_last().len() && ps.drop_last()[j].assignment@ == rest[k];
            assert(ps[j] == ps.drop_last()[j]);
        } else {
            assert(ps[ps.len() - 1].assignment@ == elites(ps)[k]);
        }
    }
}

/// Runs the whole search: `n_iter` rounds of evaluation and next
/// generation, one final evaluation, then the rank-1 assignments.
/// `temperature_decay_ppm` is the per-generation decay in millionths.
pub fn optimize(
    outcomes: PotentialOutcomes,
    n_treat: usize,
    n_iter: u64,
    temperature_decay_ppm: u64,
    generation_size: usize,
    mutation_floor: usize,
    tier_ratio: usize,
) -> (r: Result<Vec<Vec<bool>>, OptError>)
    requires
        outcomes.wf(),
    ensures
        (n_treat == 0 || n_treat > outcomes.units()) <==> r == Err::<Vec<Vec<bool>>, OptError>(
            OptError::InvalidQuota,
        ),
        (0 < n_treat <= outcomes.units() && (generation_size == 0 || generation_size >= usize::MAX
            - 2 || temperature_decay_ppm == 0 || temperature_decay_ppm > PPM)) <==> r == Err::<
            Vec<Vec<bool>>,
            OptError,
        >(OptError::InvalidSettings),
        r is Err ==> r == Err::<Vec<Vec<bool>>, OptError>(OptError::InvalidQuota) || r == Err::<
            Vec<Vec<bool>>,
            OptError,
        >(OptError::InvalidSettings) || r == Err::<Vec<Vec<bool>>, OptError>(
            OptError::DegenerateResult,
        ),
        r matches Ok(v) ==> v@.len() >= 1 && forall|k: int|
            0 <= k < v@.len() ==> (#[trigger] v@[k])@.len() == outcomes.units(),
{
    let ghost units = outcomes.units();
    let mut pop = match Population::new(
        outcomes,
        n_treat,
        temperature_decay_ppm,
        generation_size,
        mutation_floor,
        tier_ratio,
    ) {
        Ok(p) => p,
        Err(e) => {
            return Err(e);
        },
    };
    let mut i: u64 = 0;
    while i < n_iter
        invariant
            pop.wf(),
            pop.n == units,
            pop.n_treat == n_treat,
        decreases n_iter - i,
    {
        pop.evaluate();
        pop.next_gen();
        i = i + 1;
    }
    pop.evaluate();
    proof {
        lemma_elites_first(pop.policies@);
    }
    let r = pop.elite_assignments();
    proof {
        if r is Ok {
            let v = r->Ok_0;
            assert forall|k: int| 0 <= k < v@.len() implies (#[trigger] v@[k])@.len() == units by {
                lemma_elites_from(pop.policies@, k);
                let j = choose|j: int|
                    0 <= j < pop.policies@.len() && pop.policies@[j].assignment@ == elites(pop.policies@)[k];
                assert(member(pop.policies@[j], pop.n, pop.n_treat));
            }
        }
    }
    match r {
        Ok(v) => Ok(v),
        Err(_) => Err(OptError::DegenerateResult),
    }
}

/// Evaluation is deterministic: two policies with one assignment, each
/// evaluated against the same outcomes, carry identical utilities.
pub proof fn law_evaluate_deterministic(p: Policy, q: Policy, o: PotentialOutcomes)
    requires
        p.assignment@ == q.assignment@,
        evaluated(p, o),
        evaluated(q, o),
    ensures
        p.utility_1 == q.utility_1,
        p.utility_2 == q.utility_2,
{
}

} // verus!
