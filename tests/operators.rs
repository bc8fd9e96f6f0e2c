use rustopt::counting::treated_count;
use rustopt::policy::{total_utility, Policy};

fn policy_of(assignment: Vec<bool>, n_treat: usize) -> Policy {
    let n = assignment.len();
    Policy { assignment, n, n_treat, utility_1: None, utility_2: None, rank: None }
}

#[test]
fn random_policy_treats_exactly_the_quota() {
    for &(n, k) in &[(10usize, 3usize), (5, 0), (5, 5), (1, 1), (100, 37)] {
        for _ in 0..20 {
            let p = Policy::new(n, k);
            assert_eq!(p.assignment.len(), n);
            assert_eq!(treated_count(&p.assignment), k);
            assert!(p.utility_1.is_none() && p.utility_2.is_none() && p.rank.is_none());
        }
    }
}

#[test]
fn from_indices_treats_the_given_positions() {
    let p = Policy::from_indices(6, 2, &vec![4, 1]);
    assert_eq!(p.assignment, vec![false, true, false, false, true, false]);
}

#[test]
fn mutate_keeps_treated_count() {
    for &count in &[0usize, 1, 7, 500] {
        let mut p = policy_of(vec![true, false, true, false, false, true, false], 3);
        p.mutate(count);
        assert_eq!(p.assignment.len(), 7);
        assert_eq!(treated_count(&p.assignment), 3);
    }
}

#[test]
fn mutate_zero_swaps_is_identity() {
    let mut p = policy_of(vec![true, false, false, true], 2);
    p.mutate(0);
    assert_eq!(p.assignment, vec![true, false, false, true]);
}

#[test]
fn swap_positions_exchanges_entries() {
    let mut p = policy_of(vec![true, false, false], 1);
    p.swap_positions(0, 2);
    assert_eq!(p.assignment, vec![false, false, true]);
    p.swap_positions(1, 1);
    assert_eq!(p.assignment, vec![false, false, true]);
}

#[test]
fn repair_lowers_an_excess() {
    for _ in 0..20 {
        let mut p = policy_of(vec![true; 8], 3);
        p.repair();
        assert_eq!(treated_count(&p.assignment), 3);
    }
}

#[test]
fn repair_raises_a_deficit() {
    for _ in 0..20 {
        let mut p = policy_of(vec![false; 8], 5);
        p.repair();
        assert_eq!(treated_count(&p.assignment), 5);
    }
}

#[test]
fn repair_on_quota_changes_nothing() {
    let mut p = policy_of(vec![false, true, true, false, true], 3);
    p.repair();
    assert_eq!(p.assignment, vec![false, true, true, false, true]);
}

#[test]
fn repair_only_clears_treated_positions() {
    let mut p = policy_of(vec![true, false, true, false, true], 1);
    p.repair();
    assert_eq!(treated_count(&p.assignment), 1);
    assert!(!p.assignment[1] && !p.assignment[3]);
}

#[test]
fn merge_with_picks_per_position() {
    let a = policy_of(vec![true, true, false, false], 2);
    let b = policy_of(vec![false, true, true, false], 2);
    let c = a.merge_with(&b, &vec![true, false, true, false]);
    assert_eq!(c.assignment, vec![false, true, true, false]);
    assert!(c.rank.is_none());
}

#[test]
fn merge_takes_each_entry_from_a_parent() {
    let a = policy_of(vec![true, true, true, false, false, false], 3);
    let b = policy_of(vec![false, false, false, true, true, true], 3);
    for _ in 0..20 {
        let c = a.merge(&b);
        assert_eq!(c.assignment.len(), 6);
        let mut kid = c.clone();
        kid.repair();
        assert_eq!(treated_count(&kid.assignment), 3);
    }
}

#[test]
fn merge_of_equal_parents_is_that_parent() {
    let a = policy_of(vec![true, false, true, false], 2);
    let c = a.merge(&a.clone());
    assert_eq!(c.assignment, a.assignment);
}

#[test]
fn total_utility_mixes_treated_and_control() {
    let a = vec![true, false, false, true];
    let t = vec![10i64, 0, 0, 10];
    let c = vec![0i64, 10, 10, 0];
    assert_eq!(total_utility(&a, &t, &c), 40);
    assert_eq!(total_utility(&vec![false, true, true, false], &t, &c), 0);
    assert_eq!(total_utility(&vec![], &vec![], &vec![]), 0);
}

#[test]
fn total_utility_handles_extremes() {
    let a = vec![true, true, false];
    let t = vec![i64::MAX, i64::MAX, 0];
    let c = vec![0, 0, i64::MIN];
    let expected = 2 * (i64::MAX as i128) + (i64::MIN as i128);
    assert_eq!(total_utility(&a, &t, &c), expected);
}

#[test]
fn evaluate_sets_both_utilities() {
    let mut p = policy_of(vec![true, false, true], 2);
    p.evaluate(&vec![1, 2, 3], &vec![-1, -2, -3], &vec![5, 5, 5], &vec![7, 7, 7]);
    assert_eq!(p.utility_1, Some(1 - 2 + 3));
    assert_eq!(p.utility_2, Some(5 + 7 + 5));
    assert_eq!(p.rank, None);
}

#[test]
fn evaluate_twice_gives_same_utilities() {
    let mut p = policy_of(vec![false, true, true, false], 2);
    let (t1, c1, t2, c2) = (vec![3, -1, 4, 1], vec![5, 9, -2, 6], vec![5, 3, 5, 8], vec![9, 7, 9, 3]);
    p.evaluate(&t1, &c1, &t2, &c2);
    let first = (p.utility_1, p.utility_2);
    p.evaluate(&t1, &c1, &t2, &c2);
    assert_eq!(first, (p.utility_1, p.utility_2));
    assert_eq!(first, (Some(5 - 1 + 4 + 6), Some(9 + 3 + 5 + 3)));
}

#[test]
fn fresh_copy_clears_scores() {
    let mut p = policy_of(vec![true, false], 1);
    p.utility_1 = Some(3);
    p.utility_2 = Some(4);
    p.rank = Some(1);
    let q = p.fresh_copy();
    assert_eq!(q.assignment, p.assignment);
    assert!(q.utility_1.is_none() && q.utility_2.is_none() && q.rank.is_none());
}
