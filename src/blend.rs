use vstd::prelude::*;

use crate::outcomes::{advantage, advantage_of, PotentialOutcomes};
use crate::ranking::{rank, rank_of};

verus! {

/// Largest magnitude of a treatment advantage of two `i64` estimates.
pub open spec fn advantage_bound() -> int {
    0x1_0000_0000_0000_0000
}

/// Blended loss of each unit for weight `step / steps`, scaled by `steps`
/// so that it stays exact: `step * loss_1 + (steps - step) * loss_2`.
pub open spec fn blended(loss_1: Seq<i128>, loss_2: Seq<i128>, step: int, steps: int) -> Seq<i128> {
    Seq::new(loss_1.len(), |u: int| (step * loss_1[u] + (steps - step) * loss_2[u]) as i128)
}

/// The assignment treating every unit whose blended loss ranks below
/// `n_treat` in ascending order. Units tied at the cutoff share a rank, so
/// ties can make more than `n_treat` units treated.
pub open spec fn blend_spec(
    loss_1: Seq<i128>,
    loss_2: Seq<i128>,
    step: int,
    steps: int,
    n_treat: int,
) -> Seq<bool> {
    Seq::new(loss_1.len(), |u: int| rank_of(blended(loss_1, loss_2, step, steps), u) < n_treat)
}

/// Treats the units with the lowest blended loss for weight `step / steps`.
/// Scaling every loss by `steps > 0` keeps their order, so the weight is
/// applied exactly.
pub fn blend_assignment(
    loss_1: &Vec<i128>,
    loss_2: &Vec<i128>,
    step: u32,
    steps: u32,
    n_treat: usize,
) -> (r: Vec<bool>)
    requires
        loss_2@.len() == loss_1@.len(),
        step <= steps,
        forall|u: int|
            0 <= u < loss_1@.len() ==> -advantage_bound() <= #[trigger] loss_1@[u] <= advantage_bound(),
        forall|u: int|
            0 <= u < loss_2@.len() ==> -advantage_bound() <= #[trigger] loss_2@[u] <= advantage_bound(),
    ensures
        r@ == blend_spec(loss_1@, loss_2@, step as int, steps as int, n_treat as int),
{
    let mut loss: Vec<i128> = Vec::new();
    let mut u: usize = 0;
    while u < loss_1.len()
        invariant
            u <= loss_1@.len(),
            loss_2@.len() == loss_1@.len(),
            step <= steps,
            forall|q: int|
                0 <= q < loss_1@.len() ==> -advantage_bound() <= #[trigger] loss_1@[q] <= advantage_bound(),
            forall|q: int|
                0 <= q < loss_2@.len() ==> -advantage_bound() <= #[trigger] loss_2@[q] <= advantage_bound(),
            loss@ =~= blended(loss_1@, loss_2@, step as int, steps as int).take(u as int),
        decreases loss_1@.len() - u,
    {
        let a = loss_1[u];
        let b = loss_2[u];
        let w1 = step as i128;
        let w2 = (steps - step) as i128;
        proof {
            let m: int = advantage_bound();
            assert(-m * 0x1_0000_0000 <= w1 * a <= m * 0x1_0000_0000) by (nonlinear_arith)
                requires
                    -m <= a <= m,
                    0 <= w1 <= 0x1_0000_0000,
                    m == 0x1_0000_0000_0000_0000,
            ;
            assert(-m * 0x1_0000_0000 <= w2 * b <= m * 0x1_0000_0000) by (nonlinear_arith)
                requires
                    -m <= b <= m,
                    0 <= w2 <= 0x1_0000_0000,
                    m == 0x1_0000_0000_0000_0000,
            ;
        }
        loss.push(w1 * a + w2 * b);
        u = u + 1;
    }
    assert(loss@ =~= blended(loss_1@, loss_2@, step as int, steps as int));
    let ranks = rank(&loss);
    let mut r: Vec<bool> = Vec::new();
    let mut v: usize = 0;
    while v < ranks.len()
        invariant
            v <= ranks@.len(),
            ranks@.len() == loss@.len(),
            loss@.len() == loss_1@.len(),
            loss@ == blended(loss_1@, loss_2@, step as int, steps as int),
            forall|i: int| 0 <= i < loss@.len() ==> ranks@[i] == rank_of(loss@, i),
            r@ =~= blend_spec(loss_1@, loss_2@, step as int, steps as int, n_treat as int).take(
                v as int,
            ),
        decreases ranks@.len() - v,
    {
        r.push(ranks[v] < n_treat);
        v = v + 1;
    }
    assert(r@ =~= blend_spec(loss_1@, loss_2@, step as int, steps as int, n_treat as int));
    r
}

/// One assignment per weight `i / n_policies`, `i` in `0..n_policies`:
/// the loss is the weighted sum of the two objectives' treatment
/// advantages, and the `n_treat` lowest-ranked units are treated.
pub fn blend_sweep(outcomes: &PotentialOutcomes, n_treat: usize, n_policies: u32) -> (r: Vec<
    Vec<bool>,
>)
    requires
        outcomes.wf(),
    ensures
        r@.len() == n_policies,
        forall|i: int|
            0 <= i < n_policies ==> r@[i]@ == blend_spec(
                advantage_of(outcomes.obj1_treated@, outcomes.obj1_control@),
                advantage_of(outcomes.obj2_treated@, outcomes.obj2_control@),
                i,
                n_policies as int,
                n_treat as int,
            ),
{
    let loss_1 = advantage(&outcomes.obj1_treated, &outcomes.obj1_control);
    let loss_2 = advantage(&outcomes.obj2_treated, &outcomes.obj2_control);
    let mut r: Vec<Vec<bool>> = Vec::new();
    let mut i: u32 = 0;
    while i < n_policies
        invariant
            i <= n_policies,
            outcomes.wf(),
            loss_1@ == advantage_of(outcomes.obj1_treated@, outcomes.obj1_control@),
            loss_2@ == advantage_of(outcomes.obj2_treated@, outcomes.obj2_control@),
            r@.len() == i,
            forall|k: int|
                0 <= k < i ==> r@[k]@ == blend_spec(loss_1@, loss_2@, k, n_policies as int, n_treat as int),
        decreases n_policies - i,
    {
        let column = blend_assignment(&loss_1, &loss_2, i, n_policies, n_treat);
        r.push(column);
        i = i + 1;
    }
    r
}

} // verus!
