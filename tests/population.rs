use rustopt::outcomes::{OptError, PotentialOutcomes};
use rustopt::policy::Policy;
use rustopt::population::{num_mutates, optimize, Population, PPM, UNPLACED_RANK};
use rustopt::sorting::sort_desc;

fn scenario_outcomes() -> PotentialOutcomes {
    PotentialOutcomes::new(vec![10, 0, 0, 10], vec![0, 10, 10, 0], vec![1, 1, 1, 1], vec![1, 1, 1, 1])
        .unwrap()
}

fn scored(u1: i128, u2: i128, rank: Option<usize>) -> Policy {
    Policy {
        assignment: vec![true, false],
        n: 2,
        n_treat: 1,
        utility_1: Some(u1),
        utility_2: Some(u2),
        rank,
    }
}

#[test]
fn scenario_anchor_and_best_utility() {
    let mut pop = Population::new(scenario_outcomes(), 2, PPM, 4, 100, 4).unwrap();
    assert_eq!(pop.policies.len(), 6);
    assert_eq!(pop.policies[0].assignment, vec![true, false, false, true]);
    assert_eq!(pop.policies[1].assignment.len(), 4);
    for p in &pop.policies[2..] {
        assert_eq!(p.assignment.iter().filter(|x| **x).count(), 2);
    }
    pop.evaluate();
    let best = pop.policies.iter().map(|p| p.utility_1.unwrap()).max().unwrap();
    // Units 0 and 3 treated (10 + 10), units 1 and 2 in control (10 + 10).
    assert_eq!(best, 40);
    assert!(pop.policies.iter().any(|p| p.assignment == vec![true, false, false, true]));
}

#[test]
fn evaluate_ranks_everyone_and_puts_best_second_utility_first() {
    let o = PotentialOutcomes::new(
        vec![4, -2, 7, 1, 0, 3],
        vec![1, 5, -3, 2, 2, 0],
        vec![2, 8, 1, -1, 6, 0],
        vec![3, 0, 4, 5, -2, 1],
    )
    .unwrap();
    let mut pop = Population::new(o, 3, 900_000, 10, 10, 4).unwrap();
    pop.evaluate();
    assert_eq!(pop.policies.len(), 12);
    assert_eq!(pop.policies[0].rank, Some(1));
    let top = pop.policies[0].utility_2.unwrap();
    for p in &pop.policies {
        let r = p.rank.unwrap();
        assert!(r >= 1);
        assert!(p.utility_2.unwrap() <= top);
    }
    for w in pop.policies.windows(2) {
        assert!(w[0].utility_2.unwrap() >= w[1].utility_2.unwrap());
    }
}

#[test]
fn next_gen_keeps_generation_size() {
    let o = PotentialOutcomes::new(
        vec![4, -2, 7, 1, 0, 3],
        vec![1, 5, -3, 2, 2, 0],
        vec![2, 8, 1, -1, 6, 0],
        vec![3, 0, 4, 5, -2, 1],
    )
    .unwrap();
    let mut pop = Population::new(o, 3, 500_000, 7, 2, 4).unwrap();
    for g in 1..5u64 {
        pop.evaluate();
        pop.next_gen();
        assert_eq!(pop.policies.len(), 7);
        assert_eq!(pop.generation, g);
        for p in &pop.policies {
            assert!(p.rank.is_none());
        }
    }
    assert_eq!(pop.temperature_ppm, 62_500);
}

#[test]
fn next_gen_with_every_policy_elite_still_fills_exactly() {
    let o = PotentialOutcomes::new(vec![1, 2, 3], vec![0, 0, 0], vec![3, 2, 1], vec![0, 0, 0]).unwrap();
    let mut pop = Population::new(o, 1, PPM, 3, 1, 4).unwrap();
    pop.evaluate();
    for p in pop.policies.iter_mut() {
        p.rank = Some(1);
    }
    pop.next_gen();
    assert_eq!(pop.policies.len(), 3);
}

#[test]
fn next_gen_with_no_elite_is_all_offspring() {
    let o = PotentialOutcomes::new(vec![1, 2, 3], vec![0, 0, 0], vec![3, 2, 1], vec![0, 0, 0]).unwrap();
    let mut pop = Population::new(o, 2, PPM, 5, 1, 4).unwrap();
    pop.evaluate();
    for p in pop.policies.iter_mut() {
        p.rank = Some(UNPLACED_RANK);
    }
    pop.next_gen();
    assert_eq!(pop.policies.len(), 5);
    for p in &pop.policies {
        assert_eq!(p.assignment.iter().filter(|x| **x).count(), 2);
    }
}

#[test]
fn tournament_prefers_lower_rank_and_first_on_ties() {
    let o = PotentialOutcomes::new(vec![1, 2], vec![0, 0], vec![2, 1], vec![0, 0]).unwrap();
    let mut pop = Population::new(o, 1, PPM, 2, 1, 4).unwrap();
    pop.policies[0].rank = Some(3);
    pop.policies[1].rank = Some(1);
    pop.policies[2].rank = Some(1);
    pop.policies[3].rank = Some(99);
    assert_eq!(pop.tournament(0, 1), 1);
    assert_eq!(pop.tournament(1, 0), 1);
    assert_eq!(pop.tournament(1, 2), 1);
    assert_eq!(pop.tournament(2, 1), 2);
    let kid = pop.create_kid(3);
    assert_eq!(kid.assignment.iter().filter(|x| **x).count(), 1);
}

#[test]
fn population_rejects_bad_quota_and_settings() {
    let r = Population::new(scenario_outcomes(), 0, PPM, 4, 100, 4);
    assert_eq!(r.err(), Some(OptError::InvalidQuota));
    let r = Population::new(scenario_outcomes(), 5, PPM, 4, 100, 4);
    assert_eq!(r.err(), Some(OptError::InvalidQuota));
    let r = Population::new(scenario_outcomes(), 2, PPM, 0, 100, 4);
    assert_eq!(r.err(), Some(OptError::InvalidSettings));
    let r = Population::new(scenario_outcomes(), 2, 0, 4, 100, 4);
    assert_eq!(r.err(), Some(OptError::InvalidSettings));
    let r = Population::new(scenario_outcomes(), 2, PPM + 1, 4, 100, 4);
    assert_eq!(r.err(), Some(OptError::InvalidSettings));
}

#[test]
fn elite_assignments_in_order() {
    let mut pop = Population::new(scenario_outcomes(), 2, PPM, 2, 100, 4).unwrap();
    pop.policies[0].rank = Some(1);
    pop.policies[1].rank = Some(99);
    pop.policies[2].rank = Some(1);
    pop.policies[3].rank = Some(2);
    let e = pop.elite_assignments().unwrap();
    assert_eq!(e, vec![pop.policies[0].assignment.clone(), pop.policies[2].assignment.clone()]);
}

#[test]
fn elite_assignments_degenerate_when_all_elite() {
    let mut pop = Population::new(scenario_outcomes(), 2, PPM, 2, 100, 4).unwrap();
    for p in pop.policies.iter_mut() {
        p.rank = Some(1);
    }
    assert_eq!(pop.elite_assignments().err(), Some(OptError::DegenerateResult));
    for p in pop.policies.iter_mut() {
        p.rank = Some(2);
    }
    assert_eq!(pop.elite_assignments().err(), Some(OptError::DegenerateResult));
}

#[test]
fn optimize_returns_full_length_columns() {
    let o = PotentialOutcomes::new(
        vec![4, -2, 7, 1, 0, 3, 9, -4],
        vec![1, 5, -3, 2, 2, 0, 1, 1],
        vec![2, 8, 1, -1, 6, 0, 3, 3],
        vec![3, 0, 4, 5, -2, 1, 2, 9],
    )
    .unwrap();
    match optimize(o, 4, 5, 950_000, 40, 2, 4) {
        Ok(cols) => {
            assert!(!cols.is_empty());
            for c in &cols {
                assert_eq!(c.len(), 8);
            }
        }
        Err(e) => assert_eq!(e, OptError::DegenerateResult),
    }
}

#[test]
fn optimize_rejects_bad_quota() {
    assert_eq!(optimize(scenario_outcomes(), 0, 1, PPM, 4, 100, 4).err(), Some(OptError::InvalidQuota));
}

#[test]
fn sort_desc_orders_by_chosen_utility() {
    let v = vec![scored(1, 9, None), scored(5, 2, None), scored(3, 4, None)];
    let by1 = sort_desc(v.clone(), false);
    assert_eq!(by1.iter().map(|p| p.utility_1.unwrap()).collect::<Vec<_>>(), vec![5, 3, 1]);
    let by2 = sort_desc(v, true);
    assert_eq!(by2.iter().map(|p| p.utility_2.unwrap()).collect::<Vec<_>>(), vec![9, 4, 2]);
}

#[test]
fn sort_desc_keeps_taken_order_on_ties() {
    let v = vec![scored(2, 0, Some(10)), scored(2, 0, Some(20)), scored(7, 0, Some(30))];
    let r = sort_desc(v, false);
    assert_eq!(r.iter().map(|p| p.rank.unwrap()).collect::<Vec<_>>(), vec![30, 20, 10]);
}

fn six_unit_outcomes() -> PotentialOutcomes {
    PotentialOutcomes::new(
        vec![4, -2, 7, 1, 0, 3],
        vec![1, 5, -3, 2, 2, 0],
        vec![2, 8, 1, -1, 6, 0],
        vec![3, 0, 4, 5, -2, 1],
    )
    .unwrap()
}

#[test]
fn score_and_order_sorts_by_first_utility() {
    let mut pop = Population::new(six_unit_outcomes(), 3, PPM, 8, 10, 4).unwrap();
    pop.score_and_order();
    assert_eq!(pop.policies.len(), 10);
    for w in pop.policies.windows(2) {
        assert!(w[0].utility_1.unwrap() >= w[1].utility_1.unwrap());
    }
    for p in &pop.policies {
        assert!(p.rank.is_none());
        assert!(p.utility_2.is_some());
    }
}

#[test]
fn place_tiers_ranks_in_current_order() {
    let mut pop = Population::new(six_unit_outcomes(), 3, PPM, 3, 10, 0).unwrap();
    let u2 = [5i128, 3, 7, 1, 9];
    for (p, u) in pop.policies.iter_mut().zip(u2.iter()) {
        p.utility_1 = Some(0);
        p.utility_2 = Some(*u);
    }
    let before: Vec<Vec<bool>> = pop.policies.iter().map(|p| p.assignment.clone()).collect();
    pop.place_tiers();
    let ranks: Vec<usize> = pop.policies.iter().map(|p| p.rank.unwrap()).collect();
    assert_eq!(ranks, vec![1, 2, 1, 3, 1]);
    let after: Vec<Vec<bool>> = pop.policies.iter().map(|p| p.assignment.clone()).collect();
    assert_eq!(before, after);
}

#[test]
fn place_tiers_marks_unplaced() {
    let mut pop = Population::new(six_unit_outcomes(), 3, PPM, 3, 10, 4).unwrap();
    let u2 = [5i128, 3, 7, 1, 9];
    for (p, u) in pop.policies.iter_mut().zip(u2.iter()) {
        p.utility_1 = Some(0);
        p.utility_2 = Some(*u);
    }
    pop.place_tiers();
    let ranks: Vec<usize> = pop.policies.iter().map(|p| p.rank.unwrap()).collect();
    assert_eq!(ranks, vec![1, 2, 1, UNPLACED_RANK, 1]);
}

#[test]
fn promote_best_forces_top_second_utility_to_rank_one() {
    let mut pop = Population::new(six_unit_outcomes(), 3, PPM, 3, 10, 4).unwrap();
    let u2 = [5i128, 3, 7, 1, 9];
    for (p, u) in pop.policies.iter_mut().zip(u2.iter()) {
        p.utility_1 = Some(0);
        p.utility_2 = Some(*u);
        p.rank = Some(UNPLACED_RANK);
    }
    pop.promote_best();
    let order: Vec<i128> = pop.policies.iter().map(|p| p.utility_2.unwrap()).collect();
    assert_eq!(order, vec![9, 7, 5, 3, 1]);
    assert_eq!(pop.policies[0].rank, Some(1));
    for p in &pop.policies[1..] {
        assert_eq!(p.rank, Some(UNPLACED_RANK));
    }
}

#[test]
fn num_mutates_scales_with_temperature() {
    assert_eq!(num_mutates(PPM, 1000, 100), 1000);
    assert_eq!(num_mutates(250_000, 1000, 100), 250);
    assert_eq!(num_mutates(50_000, 1000, 100), 100);
    assert_eq!(num_mutates(333_333, 10, 0), 3);
    assert_eq!(num_mutates(0, 10, 0), 0);
}

#[test]
fn valid_settings_always_build_a_population() {
    let pop = Population::new(scenario_outcomes(), 4, 1, 1, 0, 0).unwrap();
    assert_eq!(pop.policies.len(), 3);
    assert_eq!(pop.temperature_ppm, PPM);
    assert_eq!(pop.generation, 0);
    assert_eq!(pop.policies[0].assignment, vec![true, true, true, true]);
}

#[test]
fn next_gen_lays_elites_out_in_pairs() {
    let mut pop = Population::new(six_unit_outcomes(), 3, PPM, 6, 10, 4).unwrap();
    pop.evaluate();
    for (k, p) in pop.policies.iter_mut().enumerate() {
        p.rank = Some(if k == 1 || k == 4 { 1 } else { UNPLACED_RANK });
    }
    let e1 = pop.policies[1].assignment.clone();
    let e4 = pop.policies[4].assignment.clone();
    pop.next_gen();
    assert_eq!(pop.policies.len(), 6);
    assert_eq!(pop.policies[0].assignment, e1);
    assert_eq!(pop.policies[2].assignment, e4);
    let count = |a: &Vec<bool>| a.iter().filter(|x| **x).count();
    assert_eq!(count(&pop.policies[1].assignment), count(&e1));
    assert_eq!(count(&pop.policies[3].assignment), count(&e4));
    assert_eq!(count(&pop.policies[4].assignment), 3);
    assert_eq!(count(&pop.policies[5].assignment), 3);
}

#[test]
fn scenario_optimize_without_generations() {
    for _ in 0..20 {
        let cols = optimize(scenario_outcomes(), 2, 0, PPM, 4, 100, 4).unwrap();
        assert_eq!(cols, vec![vec![true, false, false, true]]);
    }
}

#[test]
fn mutate_count_zero_keeps_assignment() {
    let mut p = Policy {
        assignment: vec![true, false, true, false],
        n: 4,
        n_treat: 2,
        utility_1: None,
        utility_2: None,
        rank: None,
    };
    p.mutate(0);
    assert_eq!(p.assignment, vec![true, false, true, false]);
}
