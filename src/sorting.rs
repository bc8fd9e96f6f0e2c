use vstd::prelude::*;

use vstd::multiset::Multiset;

use crate::policy::{assignments_of, Policy};

verus! {

broadcast use vstd::seq_lib::group_to_multiset_ensures;

/// The utility a sort orders by: the second objective's when `second`.
pub open spec fn key_of(p: Policy, second: bool) -> int {
    if second {
        p.utility_2.unwrap() as int
    } else {
        p.utility_1.unwrap() as int
    }
}

/// Both utilities are set.
pub open spec fn scored(p: Policy) -> bool {
    p.utility_1.is_some() && p.utility_2.is_some()
}

/// Keys never increase along the sequence.
pub open spec fn sorted_desc(ps: Seq<Policy>, second: bool) -> bool {
    forall|a: int, b: int| 0 <= a < b < ps.len() ==> key_of(ps[a], second) >= key_of(ps[b], second)
}

fn key(p: &Policy, second: bool) -> (r: i128)
    requires
        scored(*p),
    ensures
        r as int == key_of(*p, second),
{
    if second {
        p.utility_2.unwrap()
    } else {
        p.utility_1.unwrap()
    }
}

/// Sorts scored policies by descending utility (the first objective's, or
/// the second's when `second`). Items are taken from the end of `src`;
/// among equal keys they keep the order in which they were taken.
pub fn sort_desc(src: Vec<Policy>, second: bool) -> (r: Vec<Policy>)
    requires
        forall|k: int| 0 <= k < src@.len() ==> scored(#[trigger] src@[k]),
    ensures
        r@.to_multiset() == src@.to_multiset(),
        r@.len() == src@.len(),
        forall|k: int| 0 <= k < r@.len() ==> scored(#[trigger] r@[k]),
        sorted_desc(r@, second),
        forall|k: int| 0 <= k < r@.len() ==> src@.contains(#[trigger] r@[k]),
        assignments_of(r@).to_multiset() == assignments_of(src@).to_multiset(),
{
    let ghost orig = src@;
    let mut src = src;
    let mut res: Vec<Policy> = Vec::new();
    while src.len() > 0
        invariant
            res@.to_multiset().add(src@.to_multiset()) == orig.to_multiset(),
            assignments_of(res@).to_multiset().add(assignments_of(src@).to_multiset())
                == assignments_of(orig).to_multiset(),
            forall|k: int| 0 <= k < src@.len() ==> scored(#[trigger] src@[k]),
            forall|k: int| 0 <= k < res@.len() ==> scored(#[trigger] res@[k]),
            sorted_desc(res@, second),
        decreases src@.len(),
    {
        let ghost before = src@;
        let x = src.pop().unwrap();
        proof {
            assert(before == src@.push(x));
            assert(scored(before[before.len() - 1]));
        }
        let kx = key(&x, second);
        let mut pos: usize = 0;
        while pos < res.len() && key(&res[pos], second) >= kx
            invariant
                pos <= res@.len(),
                forall|k: int| 0 <= k < res@.len() ==> scored(#[trigger] res@[k]),
                forall|k: int| 0 <= k < pos ==> key_of(#[trigger] res@[k], second) >= kx,
            decreases res@.len() - pos,
        {
            pos = pos + 1;
        }
        let ghost old_res = res@;
        res.insert(pos, x);
        proof {
            assert(res@ == old_res.insert(pos as int, x));
            assert forall|k: int| 0 <= k < res@.len() implies scored(#[trigger] res@[k]) by {
                if k < pos {
                    assert(res@[k] == old_res[k]);
                } else if k > pos {
                    assert(res@[k] == old_res[k - 1]);
                }
            }
            assert forall|a: int, b: int| 0 <= a < b < res@.len() implies key_of(res@[a], second)
                >= key_of(res@[b], second) by {
                if pos < old_res.len() {
                    assert(key_of(old_res[pos as int], second) < kx);
                }
                if b < pos {
                    assert(res@[a] == old_res[a] && res@[b] == old_res[b]);
                } else if b == pos {
                    assert(res@[a] == old_res[a]);
                } else if a == pos {
                    assert(res@[b] == old_res[b - 1]);
                    if b - 1 > pos {
                        assert(key_of(old_res[pos as int], second) >= key_of(old_res[b - 1], second));
                    }
                } else if a < pos {
                    assert(res@[a] == old_res[a] && res@[b] == old_res[b - 1]);
                } else {
                    assert(res@[a] == old_res[a - 1] && res@[b] == old_res[b - 1]);
                }
            }
            assert(res@.to_multiset() == old_res.to_multiset().insert(x));
            assert(before.to_multiset() == src@.to_multiset().insert(x));
            assert(res@.to_multiset().add(src@.to_multiset()) =~= orig.to_multiset());
            assert(assignments_of(res@) =~= assignments_of(old_res).insert(pos as int, x.assignment@));
            assert(assignments_of(before) =~= assignments_of(src@).push(x.assignment@));
            assert(assignments_of(res@).to_multiset().add(assignments_of(src@).to_multiset())
                =~= assignments_of(orig).to_multiset());
        }
    }
    proof {
        assert(src@.to_multiset() =~= Multiset::empty());
        assert(res@.to_multiset() =~= orig.to_multiset());
        assert(assignments_of(src@).to_multiset() =~= Multiset::empty());
        assert(assignments_of(res@).to_multiset() =~= assignments_of(orig).to_multiset());
        assert(res@.len() == res@.to_multiset().len());
        assert(orig.len() == orig.to_multiset().len());
        assert forall|k: int| 0 <= k < res@.len() implies orig.contains(#[trigger] res@[k]) by {
            assert(res@.contains(res@[k]));
            assert(res@.to_multiset().count(res@[k]) > 0);
        }
    }
    res
}

} // verus!
