use vstd::prelude::*;

verus! {

/// Number of entries of `s` strictly below `v`.
pub open spec fn count_below(s: Seq<i128>, v: int) -> nat
    decreases s.len(),
{
    if s.len() == 0 {
        0
    } else {
        count_below(s.drop_last(), v) + (if (s.last() as int) < v { 1nat } else { 0nat })
    }
}

/// Ascending competition rank of the entry at `i`: how many entries are
/// strictly smaller. The smallest entry has rank 0 and equal entries share
/// one rank.
pub open spec fn rank_of(s: Seq<i128>, i: int) -> nat {
    count_below(s, s[i] as int)
}

/// Relies on `frank::rank_count_lesser`: for each entry, the count of
/// entries strictly smaller, in input order.
#[verifier::external_body]
fn count_lesser_ranks(values: &Vec<i128>) -> (r: Vec<usize>)
    ensures
        r@.len() == values@.len(),
        forall|i: int| 0 <= i < values@.len() ==> r@[i] == count_below(values@, values@[i] as int),
{
    frank::rank_count_lesser(values.as_slice())
}

/// Ascending rank of every entry (smallest is 0, ties share the lowest rank).
pub fn rank(values: &Vec<i128>) -> (r: Vec<usize>)
    ensures
        r@.len() == values@.len(),
        forall|i: int| 0 <= i < values@.len() ==> r@[i] == rank_of(values@, i),
{
    count_lesser_ranks(values)
}

/// Raising the threshold never lowers the count below it.
pub proof fn lemma_count_below_monotone(s: Seq<i128>, v: int, w: int)
    requires
        v <= w,
    ensures
        count_below(s, v) <= count_below(s, w),
    decreases s.len(),
{
    if s.len() > 0 {
        lemma_count_below_monotone(s.drop_last(), v, w);
    }
}

/// An entry in `[v, w)` makes the count below `w` exceed the count below `v`.
pub proof fn lemma_count_below_strict(s: Seq<i128>, v: int, w: int, k: int)
    requires
        0 <= k < s.len(),
        v <= s[k] < w,
    ensures
        count_below(s, v) < count_below(s, w),
    decreases s.len(),
{
    if k == s.len() - 1 {
        lemma_count_below_monotone(s.drop_last(), v, w);
    } else {
        lemma_count_below_strict(s.drop_last(), v, w, k);
    }
}

/// An entry is never below itself, so the count below it leaves it out.
pub proof fn lemma_count_below_entry(s: Seq<i128>, i: int)
    requires
        0 <= i < s.len(),
    ensures
        count_below(s, s[i] as int) < s.len(),
    decreases s.len(),
{
    if i == s.len() - 1 {
        lemma_count_below_len(s.drop_last(), s[i] as int);
    } else {
        lemma_count_below_entry(s.drop_last(), i);
    }
}

/// The count below any threshold is at most the length.
pub proof fn lemma_count_below_len(s: Seq<i128>, v: int)
    ensures
        count_below(s, v) <= s.len(),
    decreases s.len(),
{
    if s.len() > 0 {
        lemma_count_below_len(s.drop_last(), v);
    }
}

/// On distinct entries the ranks are a permutation of `0..n`: each lies
/// below `n` and no two coincide. A smaller entry has a smaller rank.
pub proof fn law_rank_permutation(s: Seq<i128>)
    requires
        forall|a: int, b: int| 0 <= a < b < s.len() ==> s[a] != s[b],
    ensures
        forall|i: int| 0 <= i < s.len() ==> rank_of(s, i) < s.len(),
        forall|a: int, b: int|
            0 <= a < s.len() && 0 <= b < s.len() && a != b ==> rank_of(s, a) != rank_of(s, b),
        forall|a: int, b: int|
            0 <= a < s.len() && 0 <= b < s.len() && s[a] < s[b] ==> rank_of(s, a) < rank_of(s, b),
{
    assert forall|i: int| 0 <= i < s.len() implies rank_of(s, i) < s.len() by {
        lemma_count_below_entry(s, i);
    }
    assert forall|a: int, b: int|
        0 <= a < s.len() && 0 <= b < s.len() && s[a] < s[b] implies rank_of(s, a) < rank_of(
        s,
        b,
    ) by {
        lemma_count_below_strict(s, s[a] as int, s[b] as int, a);
    }
    assert forall|a: int, b: int|
        0 <= a < s.len() && 0 <= b < s.len() && a != b implies rank_of(s, a) != rank_of(s, b) by {
        if a < b {
            assert(s[a] != s[b]);
        } else {
            assert(s[b] != s[a]);
        }
        if s[a] < s[b] {
            lemma_count_below_strict(s, s[a] as int, s[b] as int, a);
        } else {
            lemma_count_below_strict(s, s[b] as int, s[a] as int, b);
        }
    }
}

/// Equal entries share a rank; of two unequal entries the smaller ranks
/// strictly lower.
pub proof fn law_rank_ties(s: Seq<i128>, a: int, b: int)
    requires
        0 <= a < s.len(),
        0 <= b < s.len(),
    ensures
        s[a] == s[b] ==> rank_of(s, a) == rank_of(s, b),
        s[a] < s[b] ==> rank_of(s, a) < rank_of(s, b),
{
    if s[a] < s[b] {
        lemma_count_below_strict(s, s[a] as int, s[b] as int, a);
    }
}

/// Count below `v` among `0, 1, .., m - 1`.
proof fn lemma_count_below_identity(s: Seq<i128>, v: int)
    requires
        forall|i: int| 0 <= i < s.len() ==> s[i] == i,
        0 <= v,
    ensures
        count_below(s, v) == if v < s.len() { v } else { s.len() as int },
    decreases s.len(),
{
    if s.len() > 0 {
        lemma_count_below_identity(s.drop_last(), v);
    }
}

/// Ranking `0, 1, .., n - 1` gives it back unchanged.
pub proof fn law_rank_identity(s: Seq<i128>)
    requires
        forall|i: int| 0 <= i < s.len() ==> s[i] == i,
    ensures
        forall|i: int| 0 <= i < s.len() ==> rank_of(s, i) == i,
{
    assert forall|i: int| 0 <= i < s.len() implies rank_of(s, i) == i by {
        lemma_count_below_identity(s, i);
    }
}

} // verus!
