use beams::allocator::{find_combinations, BeamPlan};

fn plan(total: usize, welds: usize, used_offcuts: Vec<usize>, waste: usize) -> BeamPlan {
    BeamPlan { total, welds, used_offcuts, waste }
}

#[test]
fn single_piece_of_exact_length_is_taken() {
    let mut pool = vec![100, 60, 50, 10];
    let found = find_combinations(&mut pool, 100, 0);
    assert_eq!(found, Some(plan(100, 0, vec![100], 0)));
    assert_eq!(pool, vec![60, 50, 10]);
}

#[test]
fn no_single_piece_long_enough_fails_without_welds() {
    let mut pool = vec![60, 50, 10];
    let found = find_combinations(&mut pool, 100, 0);
    assert_eq!(found, None);
    assert_eq!(pool, vec![60, 50, 10]);
}

#[test]
fn one_weld_extends_with_longest_then_finishes_with_shortest_cover() {
    let mut pool = vec![60, 50, 10];
    let found = find_combinations(&mut pool, 100, 1);
    assert_eq!(found, Some(plan(110, 1, vec![60, 50], 10)));
    assert_eq!(pool, vec![10]);
}

#[test]
fn exhausted_pool_fails_and_is_restored() {
    let mut pool = vec![30, 20];
    let found = find_combinations(&mut pool, 100, 5);
    assert_eq!(found, None);
    assert_eq!(pool, vec![30, 20]);
}

#[test]
fn empty_pool_gives_no_plan() {
    let mut pool: Vec<usize> = Vec::new();
    assert_eq!(find_combinations(&mut pool, 10, 3), None);
    assert!(pool.is_empty());
}

#[test]
fn finishing_prefers_least_overshoot() {
    let mut pool = vec![90, 70, 45, 41, 30];
    let found = find_combinations(&mut pool, 40, 2);
    assert_eq!(found, Some(plan(41, 0, vec![41], 1)));
    assert_eq!(pool, vec![90, 70, 45, 30]);
}

#[test]
fn pieces_that_sum_exactly_leave_no_waste() {
    let mut pool = vec![50, 50];
    let found = find_combinations(&mut pool, 100, 1);
    assert_eq!(found, Some(plan(100, 1, vec![50, 50], 0)));
    assert!(pool.is_empty());
}

#[test]
fn budget_runs_out_before_the_target_is_reached() {
    let mut pool = vec![40, 30, 20, 10];
    let found = find_combinations(&mut pool, 100, 2);
    assert_eq!(found, None);
    assert_eq!(pool, vec![40, 30, 20, 10]);
}

#[test]
fn budget_of_three_welds_reaches_the_target() {
    let mut pool = vec![40, 30, 20, 10];
    let found = find_combinations(&mut pool, 100, 3);
    assert_eq!(found, Some(plan(100, 3, vec![40, 30, 20, 10], 0)));
    assert!(pool.is_empty());
}

#[test]
fn zero_target_takes_the_shortest_piece() {
    let mut pool = vec![7, 3];
    let found = find_combinations(&mut pool, 0, 0);
    assert_eq!(found, Some(plan(3, 0, vec![3], 3)));
    assert_eq!(pool, vec![7]);
}

#[test]
fn largest_weld_budget_is_accepted() {
    let mut pool = vec![2, 1];
    let found = find_combinations(&mut pool, 100, usize::MAX);
    assert_eq!(found, None);
    assert_eq!(pool, vec![2, 1]);
}

#[test]
fn failure_sorts_a_pool_that_was_out_of_order() {
    let mut pool = vec![10, 30, 20];
    let found = find_combinations(&mut pool, 100, 1);
    assert_eq!(found, None);
    assert_eq!(pool, vec![30, 20, 10]);
}

#[test]
fn equal_shortest_covers_resolve_to_the_first() {
    let mut pool = vec![5, 3, 5, 9];
    let found = find_combinations(&mut pool, 4, 0);
    assert_eq!(found, Some(plan(5, 0, vec![5], 1)));
    assert_eq!(pool, vec![3, 5, 9]);
}

#[test]
fn equal_longest_fits_resolve_to_the_last() {
    let mut pool = vec![5, 3, 5, 1];
    let found = find_combinations(&mut pool, 6, 1);
    assert_eq!(found, Some(plan(6, 1, vec![5, 1], 0)));
    assert_eq!(pool, vec![5, 3]);
}

#[test]
fn successful_plans_meet_target_and_budget() {
    let cases: Vec<(Vec<usize>, usize, usize)> = vec![
        (vec![100, 60, 50, 10], 100, 0),
        (vec![60, 50, 10], 100, 1),
        (vec![60, 50, 10], 115, 2),
        (vec![9, 8, 7, 6, 5, 4], 30, 5),
        (vec![9, 8, 7, 6, 5, 4], 1, 0),
    ];
    for (pool, target, max_welds) in cases {
        let mut pool = pool;
        let found = find_combinations(&mut pool, target, max_welds).unwrap();
        assert!(found.total >= target);
        assert!(found.used_offcuts.len() <= max_welds + 1);
        assert_eq!(found.welds, found.used_offcuts.len() - 1);
        assert_eq!(found.used_offcuts.iter().sum::<usize>(), found.total);
        assert_eq!(found.waste, found.total - target);
    }
}

fn sorted(mut pieces: Vec<usize>) -> Vec<usize> {
    pieces.sort();
    pieces
}

#[test]
fn pool_and_plan_together_hold_the_pieces_of_the_pool_before() {
    let before = vec![80, 60, 60, 35, 20, 5];
    for target in [1usize, 59, 60, 61, 100, 139, 260, 261] {
        for max_welds in [0usize, 1, 2, 10] {
            let mut pool = before.clone();
            match find_combinations(&mut pool, target, max_welds) {
                Some(found) => {
                    let mut all = pool.clone();
                    all.extend(found.used_offcuts.iter().copied());
                    assert_eq!(sorted(all), sorted(before.clone()));
                }
                None => assert_eq!(pool, before),
            }
        }
    }
}

#[test]
fn failed_attempt_repeated_gives_the_same_result() {
    let mut pool = vec![30, 20, 10];
    let first = find_combinations(&mut pool, 100, 5);
    let after_first = pool.clone();
    let second = find_combinations(&mut pool, 100, 5);
    assert_eq!(first, None);
    assert_eq!(second, None);
    assert_eq!(pool, after_first);
    assert_eq!(pool, vec![30, 20, 10]);
}

#[test]
fn same_inputs_give_the_same_plan_and_pool() {
    let before = vec![75, 40, 40, 25, 10];
    for target in [10usize, 50, 90, 120, 500] {
        let mut first_pool = before.clone();
        let mut second_pool = before.clone();
        let first = find_combinations(&mut first_pool, target, 2);
        let second = find_combinations(&mut second_pool, target, 2);
        assert_eq!(first, second);
        assert_eq!(first_pool, second_pool);
    }
}

#[test]
fn overshoot_counts_from_the_target() {
    let mut pool = vec![70, 45];
    let found = find_combinations(&mut pool, 100, 1).unwrap();
    assert_eq!(found.total, 115);
    assert_eq!(found.waste, 15);
    assert_eq!(found.welds, 1);
}

fn longest_first(mut pieces: Vec<usize>) -> Vec<usize> {
    pieces.sort();
    pieces.reverse();
    pieces
}

#[test]
fn plan_exists_exactly_where_the_longest_pieces_reach_the_target() {
    let pools: Vec<Vec<usize>> = vec![
        vec![],
        vec![7],
        vec![60, 50, 10],
        vec![10, 60, 50],
        vec![5, 5, 5, 5],
        vec![9, 1, 8, 2, 7, 3],
    ];
    for before in pools {
        let sorted = longest_first(before.clone());
        for target in 0usize..=130 {
            for max_welds in 0usize..=6 {
                let count = (max_welds + 1).min(sorted.len());
                let reach: usize = sorted[..count].iter().sum();
                let mut pool = before.clone();
                let found = find_combinations(&mut pool, target, max_welds);
                assert_eq!(found.is_some(), count > 0 && reach >= target);
            }
        }
    }
}

#[test]
fn pieces_before_the_last_are_the_longest_and_fall_short() {
    let before = vec![4, 30, 12, 30, 7, 19, 1];
    let sorted = longest_first(before.clone());
    for target in 1usize..=103 {
        let mut pool = before.clone();
        let found = find_combinations(&mut pool, target, 6).unwrap();
        let (last, front) = found.used_offcuts.split_last().unwrap();
        assert_eq!(front, &sorted[..front.len()]);
        let open = target - front.iter().sum::<usize>();
        assert!(open > 0);
        assert!(*last >= open);
        assert!(pool.iter().all(|&left| left < open || left >= *last));
    }
}
