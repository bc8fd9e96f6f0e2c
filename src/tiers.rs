use vstd::prelude::*;

verus! {

/// Tier placement read off a scan: an entry placed in tier `t > 0` has a
/// positive score that beats every earlier entry not placed in a tier
/// before `t`; no tier exceeds `issued`.
pub open spec fn tiers_sound(scores: Seq<i128>, tiers: Seq<usize>, issued: int) -> bool {
    &&& tiers.len() == scores.len()
    &&& forall|i: int| 0 <= i < tiers.len() ==> tiers[i] <= issued
    &&& forall|i: int| 0 <= i < tiers.len() && tiers[i] > 0 ==> scores[i] > 0
    &&& forall|i: int, j: int|
        0 <= j < i < tiers.len() && tiers[i] > 0 && (tiers[j] == 0 || tiers[j] >= tiers[i])
            ==> scores[j] < scores[i]
}

/// Entry `i` was rightly left out of tier `t`: its score is not positive,
/// or an earlier entry placed in tier `t` scores at least as much.
pub open spec fn passed_over(scores: Seq<i128>, tiers: Seq<usize>, i: int, t: int) -> bool {
    scores[i] <= 0 || exists|k: int| 0 <= k < i && tiers[k] == t && scores[k] >= scores[i]
}

/// Every entry still unplaced when pass `t` opened, and not placed by it,
/// was rightly left out of tier `t`.
pub open spec fn tiers_complete(scores: Seq<i128>, tiers: Seq<usize>, issued: int) -> bool {
    forall|t: int, i: int|
        1 <= t <= issued && 0 <= i < tiers.len() && (tiers[i] == 0 || tiers[i] > t)
            ==> #[trigger] passed_over(scores, tiers, i, t)
}

/// Pass `t` may open among `m` entries: the first always does, and a later
/// one only while `m` divided by the `t - 1` tiers issued exceeds `ratio`.
pub open spec fn opens_pass(m: int, t: int, ratio: int) -> bool {
    t == 1 || m / (t - 1) > ratio
}

/// Whether some entry has no tier yet.
fn has_unplaced(tiers: &Vec<usize>) -> (r: bool)
    ensures
        r == exists|i: int| 0 <= i < tiers@.len() && tiers@[i] == 0,
{
    let mut i: usize = 0;
    while i < tiers.len()
        invariant
            i <= tiers@.len(),
            forall|j: int| 0 <= j < i ==> tiers@[j] != 0,
        decreases tiers@.len() - i,
    {
        if tiers[i] == 0 {
            return true;
        }
        i = i + 1;
    }
    false
}

/// Layered placement of entries already ordered by their first objective,
/// by the scores of the second (0 means "no tier"). Each pass opens the
/// next tier and scans the unplaced entries in order, placing each one
/// whose score exceeds the best placed in this pass so far (the running
/// best starts at 0). Passes stop once every entry is placed or the count
/// of entries divided by the number of tiers issued is at most `ratio`.
/// Returns the tiers and the number of passes made.
pub fn assign_tiers(scores: &Vec<i128>, ratio: usize) -> (r: (Vec<usize>, usize))
    ensures
        r.1 <= scores@.len(),
        tiers_sound(scores@, r.0@, r.1 as int),
        tiers_complete(scores@, r.0@, r.1 as int),
        forall|t: int| 1 <= t <= r.1 ==> #[trigger] opens_pass(scores@.len() as int, t, ratio as int),
        (forall|i: int| 0 <= i < r.0@.len() ==> r.0@[i] != 0) || r.1 == scores@.len() || (r.1 > 0
            && scores@.len() as int / (r.1 as int) <= ratio),
{
    let m = scores.len();
    let mut tiers: Vec<usize> = Vec::new();
    let mut k: usize = 0;
    while k < m
        invariant
            k <= m,
            m == scores@.len(),
            tiers@.len() == k,
            forall|i: int| 0 <= i < k ==> tiers@[i] == 0,
        decreases m - k,
    {
        tiers.push(0);
        k = k + 1;
    }
    let mut issued: usize = 0;
    while has_unplaced(&tiers) && issued < m && (issued == 0 || m / issued > ratio)
        invariant
            m == scores@.len(),
            issued <= m,
            tiers_sound(scores@, tiers@, issued as int),
            tiers_complete(scores@, tiers@, issued as int),
            forall|t: int| 1 <= t <= issued ==> #[trigger] opens_pass(m as int, t, ratio as int),
        decreases m - issued,
    {
        issued = issued + 1;
        let mut best: i128 = 0;
        let mut i: usize = 0;
        while i < m
            invariant
                m == scores@.len(),
                1 <= issued <= m,
                i <= m,
                best >= 0,
                tiers_sound(scores@, tiers@, issued as int),
                tiers_complete(scores@, tiers@, issued - 1),
                forall|t: int| 1 <= t <= issued ==> #[trigger] opens_pass(m as int, t, ratio as int),
                forall|j: int| 0 <= j < i && (tiers@[j] == 0 || tiers@[j] == issued) ==> scores@[j] <= best,
                forall|j: int| 0 <= j < m ==> tiers@[j] <= issued,
                forall|j: int| i <= j < m ==> tiers@[j] < issued,
                forall|j: int|
                    0 <= j < i && tiers@[j] == 0 ==> #[trigger] passed_over(scores@, tiers@, j, issued as int),
                best == 0 || exists|k: int| 0 <= k < i && tiers@[k] == issued && scores@[k] == best,
            decreases m - i,
        {
            let ghost before = tiers@;
            let ghost best_before = best;
            if tiers[i] == 0 && best < scores[i] {
                tiers.set(i, issued);
                proof {
                    assert forall|a: int, b: int|
                        0 <= b < a < tiers@.len() && tiers@[a] > 0 && (tiers@[b] == 0 || tiers@[b]
                            >= tiers@[a]) implies scores@[b] < scores@[a] by {
                        if a == i {
                            assert(before[b] == tiers@[b]);
                        } else if b == i {
                            assert(before[b] == 0);
                            assert(before[a] == tiers@[a]);
                        } else {
                            assert(before[a] == tiers@[a] && before[b] == tiers@[b]);
                        }
                    }
                }
                best = scores[i];
            }
            proof {
                lemma_placing_keeps_passed_over(scores@, before, tiers@, i as int, issued as int);
                if tiers@[i as int] == 0 {
                    if best_before != 0 {
                        let k = choose|k: int|
                            0 <= k < i && before[k] == issued && scores@[k] == best_before;
                        assert(tiers@[k] == issued);
                    }
                    assert(passed_over(scores@, tiers@, i as int, issued as int));
                }
                if best != 0 && tiers@[i as int] != issued {
                    let k = choose|k: int| 0 <= k < i && before[k] == issued && scores@[k] == best;
                    assert(tiers@[k] == issued);
                }
                if tiers@[i as int] == issued && before[i as int] == 0 {
                    assert(scores@[i as int] == best);
                }
            }
            i = i + 1;
        }
        proof {
            assert forall|t: int, j: int|
                1 <= t <= issued && 0 <= j < tiers@.len() && (tiers@[j] == 0 || tiers@[j] > t)
                    implies #[trigger] passed_over(scores@, tiers@, j, t) by {
                if t < issued {
                    if tiers@[j] == issued {
                        assert(tiers@[j] > t);
                    }
                }
            }
        }
    }
    (tiers, issued)
}

/// Placing entry `i` in tier `t` (it had none) keeps every record of
/// earlier passes and of this pass up to `i`.
proof fn lemma_placing_keeps_passed_over(
    scores: Seq<i128>,
    before: Seq<usize>,
    after: Seq<usize>,
    i: int,
    t: int,
)
    requires
        0 <= i < before.len(),
        scores.len() == before.len(),
        after.len() == before.len(),
        forall|j: int| 0 <= j < before.len() && j != i ==> after[j] == before[j],
        after[i] == before[i] || (before[i] == 0 && after[i] == t),
        tiers_complete(scores, before, t - 1),
        forall|j: int| 0 <= j < before.len() ==> before[j] <= t,
        forall|j: int| 0 <= j < i && before[j] == 0 ==> #[trigger] passed_over(scores, before, j, t),
    ensures
        tiers_complete(scores, after, t - 1),
        forall|j: int| 0 <= j < i && after[j] == 0 ==> #[trigger] passed_over(scores, after, j, t),
{
    assert forall|u: int, j: int|
        1 <= u <= t - 1 && 0 <= j < after.len() && (after[j] == 0 || after[j] > u)
            implies #[trigger] passed_over(scores, after, j, u) by {
        assert(before[j] == 0 || before[j] > u);
        assert(passed_over(scores, before, j, u));
        if scores[j] > 0 {
            let k = choose|k: int| 0 <= k < j && before[k] == u && scores[k] >= scores[j];
            assert(after[k] == u);
        }
    }
    assert forall|j: int| 0 <= j < i && after[j] == 0 implies #[trigger] passed_over(
        scores,
        after,
        j,
        t,
    ) by {
        assert(passed_over(scores, before, j, t));
        if scores[j] > 0 {
            let k = choose|k: int| 0 <= k < j && before[k] == t && scores[k] >= scores[j];
            assert(after[k] == t);
        }
    }
}

} // verus!
