use rustopt::blend::{blend_assignment, blend_sweep};
use rustopt::outcomes::{advantage, OptError, PotentialOutcomes};
use rustopt::ranking::rank;
use rustopt::tiers::assign_tiers;

#[test]
fn rank_of_distinct_values_is_a_permutation() {
    let r = rank(&vec![30, -5, 12, 7, 100]);
    assert_eq!(r, vec![3, 0, 2, 1, 4]);
    let mut sorted = r.clone();
    sorted.sort();
    assert_eq!(sorted, vec![0, 1, 2, 3, 4]);
}

#[test]
fn rank_ties_share_the_lowest_rank() {
    assert_eq!(rank(&vec![7, 2, 2, 5]), vec![3, 0, 0, 2]);
    assert_eq!(rank(&vec![4, 4, 4]), vec![0, 0, 0]);
}

#[test]
fn rank_of_ranks_is_identity() {
    let v: Vec<i128> = (0..9).collect();
    let r = rank(&v);
    assert_eq!(r, (0..9).collect::<Vec<usize>>());
}

#[test]
fn rank_edge_sizes() {
    assert_eq!(rank(&vec![]), Vec::<usize>::new());
    assert_eq!(rank(&vec![-3]), vec![0]);
}

#[test]
fn advantage_is_treated_minus_control() {
    assert_eq!(advantage(&vec![5, 1, i64::MIN], &vec![1, 5, i64::MAX]), vec![
        4,
        -4,
        i64::MIN as i128 - i64::MAX as i128
    ]);
}

#[test]
fn outcomes_must_share_a_length() {
    let r = PotentialOutcomes::new(vec![1, 2], vec![1, 2], vec![1], vec![1, 2]);
    assert_eq!(r.err(), Some(OptError::InputShapeMismatch));
    assert!(PotentialOutcomes::new(vec![1], vec![2], vec![3], vec![4]).is_ok());
}

#[test]
fn blend_sweep_two_units() {
    let o = PotentialOutcomes::new(vec![5, 1], vec![1, 5], vec![1, 5], vec![5, 1]).unwrap();
    let cols = blend_sweep(&o, 1, 2);
    assert_eq!(cols.len(), 2);
    // weight 0: objective 2's advantage is [-4, 4]; unit 0 has the smaller loss.
    assert_eq!(cols[0], vec![true, false]);
    // weight 1/2: blended losses are [0, 0], a tie, so both share rank 0.
    assert_eq!(cols[1], vec![true, true]);
}

#[test]
fn blend_assignment_full_weight_on_first_objective() {
    let l1 = vec![3i128, -1, 2, 0];
    let l2 = vec![-9i128, 9, -9, 9];
    assert_eq!(blend_assignment(&l1, &l2, 4, 4, 2), vec![false, true, false, true]);
    assert_eq!(blend_assignment(&l1, &l2, 0, 4, 2), vec![true, false, true, false]);
}

#[test]
fn blend_sweep_with_no_policies_is_empty() {
    let o = PotentialOutcomes::new(vec![5, 1], vec![1, 5], vec![1, 5], vec![5, 1]).unwrap();
    assert!(blend_sweep(&o, 1, 0).is_empty());
}

#[test]
fn tiers_run_until_all_placed() {
    assert_eq!(assign_tiers(&vec![5, 3, 7, 1, 9], 0), (vec![1, 2, 1, 3, 1], 3));
}

#[test]
fn tiers_stop_at_the_ratio() {
    assert_eq!(assign_tiers(&vec![5, 3, 7, 1, 9], 4), (vec![1, 2, 1, 0, 1], 2));
    assert_eq!(assign_tiers(&vec![5, 3, 7], 4), (vec![1, 0, 1], 1));
    assert_eq!(assign_tiers(&vec![], 4), (vec![], 0));
}

#[test]
fn tiers_skip_non_positive_scores() {
    assert_eq!(assign_tiers(&vec![0, -2, 4, 0], 0), (vec![0, 0, 1, 0], 4));
}
