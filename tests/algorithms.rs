use flowshop::branch_and_bound;
use flowshop::brute_force::brute_force;
use flowshop::common::{build_schedule, create_result, identity_sequence, AlgResult};
use flowshop::johnson_gen::{johnson_gen1, johnson_gen2, johnson_gen3, johnson_gen4};
use flowshop::johnsons;
use flowshop::petrov_sokolicyn;
use flowshop::priority_rule::priority_rule;
use flowshop::ScheduleError;

fn example() -> Vec<Vec<i32>> {
    vec![vec![5, 2], vec![1, 6], vec![4, 3]]
}

fn three_machines() -> Vec<Vec<i32>> {
    vec![vec![3, 2, 4], vec![1, 5, 2], vec![4, 1, 3]]
}

fn ragged() -> Vec<Vec<i32>> {
    vec![vec![1, 2], vec![3]]
}

fn ragged_error() -> ScheduleError {
    ScheduleError::RaggedRow { row: 1, len: 1, expected: 2 }
}

/// Deterministic pseudo-random matrices for cross-checks.
fn generated(seed: u64, jobs: usize, machines: usize) -> Vec<Vec<i32>> {
    let mut state = seed.wrapping_mul(6364136223846793005).wrapping_add(1442695040888963407);
    let mut m = Vec::new();
    for _ in 0..jobs {
        let mut row = Vec::new();
        for _ in 0..machines {
            state = state.wrapping_mul(6364136223846793005).wrapping_add(1442695040888963407);
            row.push(((state >> 33) % 20) as i32 + 1);
        }
        m.push(row);
    }
    m
}

fn all_permutations(n: usize) -> Vec<Vec<usize>> {
    let mut res = Vec::new();
    let mut cur = Vec::new();
    flowshop::brute_force::generate_perms(n, &mut cur, &mut res);
    res
}

fn same_result(a: &AlgResult, b: &AlgResult) -> bool {
    a.sequence == b.sequence
        && a.schedule == b.schedule
        && a.makespan == b.makespan
        && a.idle_times == b.idle_times
        && a.method_name == b.method_name
}

#[test]
fn schedule_of_johnson_order() {
    let (schedule, makespan, idle) = build_schedule(&example(), &vec![1, 2, 0]).unwrap();
    assert_eq!(schedule, vec![vec![(0, 1), (1, 7)], vec![(1, 5), (7, 10)], vec![(5, 10), (10, 12)]]);
    assert_eq!(makespan, 12);
    assert_eq!(idle, vec![0, 1]);
}

#[test]
fn schedule_three_machines() {
    let (schedule, makespan, idle) = build_schedule(&three_machines(), &vec![0, 1, 2]).unwrap();
    assert_eq!(
        schedule,
        vec![
            vec![(0, 3), (3, 5), (5, 9)],
            vec![(3, 4), (5, 10), (10, 12)],
            vec![(4, 8), (10, 11), (12, 15)]
        ]
    );
    assert_eq!(makespan, 15);
    assert_eq!(idle, vec![0, 3, 6]);
}

#[test]
fn makespan_is_last_cell_and_machine_order() {
    for seed in 0..5 {
        let m = generated(seed, 5, 4);
        for seq in all_permutations(5) {
            let (schedule, makespan, _) = build_schedule(&m, &seq).unwrap();
            assert_eq!(makespan, schedule[4][3].1);
            for row in &schedule {
                for k in 0..3 {
                    assert!(row[k].0 <= row[k + 1].0);
                    assert!(row[k].1 <= row[k + 1].1);
                }
            }
        }
    }
}

#[test]
fn flow_conservation() {
    for seed in 0..5 {
        let m = generated(seed, 4, 3);
        for seq in all_permutations(4) {
            let (schedule, makespan, idle) = build_schedule(&m, &seq).unwrap();
            for k in 0..3 {
                let busy: i32 = m.iter().map(|r| r[k]).sum();
                assert!(idle[k] >= 0);
                assert_eq!(busy + idle[k], schedule[3][k].1);
            }
            let busy_last: i32 = m.iter().map(|r| r[2]).sum();
            assert_eq!(busy_last + idle[2], makespan);
        }
    }
}

#[test]
fn flow_conservation_fails_before_last_machine() {
    let (_, makespan, idle) = build_schedule(&vec![vec![1, 2]], &vec![0]).unwrap();
    assert_eq!(makespan, 3);
    assert_eq!(1 + idle[0], 1);
}

#[test]
fn build_schedule_errors() {
    assert_eq!(build_schedule(&example(), &vec![]).unwrap_err(), ScheduleError::EmptySequence);
    assert_eq!(build_schedule(&example(), &vec![0, 0, 1]).unwrap_err(), ScheduleError::InvalidSequence);
    assert_eq!(build_schedule(&example(), &vec![0, 1, 3]).unwrap_err(), ScheduleError::InvalidSequence);
    assert_eq!(build_schedule(&example(), &vec![0, 1]).unwrap_err(), ScheduleError::InvalidSequence);
    assert_eq!(build_schedule(&vec![], &vec![0]).unwrap_err(), ScheduleError::EmptyMatrix);
    assert_eq!(
        build_schedule(&vec![vec![]], &vec![0]).unwrap_err(),
        ScheduleError::TooFewMachines { required: 1, found: 0 }
    );
    assert_eq!(
        build_schedule(&vec![vec![1, 2], vec![3, -1]], &vec![0, 1]).unwrap_err(),
        ScheduleError::NegativeTime { job: 1, machine: 1 }
    );
    assert_eq!(build_schedule(&vec![vec![i32::MAX, 1]], &vec![0]).unwrap_err(), ScheduleError::TimesTooLarge);
}

#[test]
fn largest_total_fits() {
    let (_, makespan, idle) = build_schedule(&vec![vec![i32::MAX - 1, 1]], &vec![0]).unwrap();
    assert_eq!(makespan, i32::MAX);
    assert_eq!(idle, vec![0, i32::MAX - 1]);
}

#[test]
fn create_result_keeps_name() {
    let r = create_result(&example(), vec![1, 2, 0], "demo").unwrap();
    assert_eq!(r.method_name, "demo");
    assert_eq!(r.makespan, 12);
    assert_eq!(identity_sequence(4), vec![0, 1, 2, 3]);
}

#[test]
fn johnson_example_matches_brute_force() {
    let m = example();
    let j = johnsons::algorithm(&m).unwrap();
    assert_eq!(j.sequence, vec![1, 2, 0]);
    assert_eq!(j.makespan, 12);
    assert_eq!(j.idle_times, vec![0, 1]);
    let (b, baseline) = brute_force(&m).unwrap();
    assert_eq!(b.makespan, 12);
    assert_eq!(b.sequence, vec![1, 2, 0]);
    assert_eq!(baseline, 16);
}

#[test]
fn johnson_optimal_on_two_machines() {
    for seed in 0..30 {
        let m = generated(seed, 6, 2);
        let j = johnsons::algorithm(&m).unwrap();
        let (b, _) = brute_force(&m).unwrap();
        assert_eq!(j.makespan, b.makespan, "seed {}", seed);
    }
}

#[test]
fn johnson_multi_machine_pseudo_times() {
    let r = johnsons::algorithm(&three_machines()).unwrap();
    assert_eq!(r.sequence, vec![0, 1, 2]);
    assert_eq!(r.makespan, 15);
    assert_eq!(r.method_name, "Алгоритм Джонсона");
}

#[test]
fn find_min_job_prefers_first_and_first_machine() {
    assert_eq!(johnsons::find_min_job(&vec![(0, 5, 2), (1, 1, 6), (2, 4, 3)]), (1, 0));
    assert_eq!(johnsons::find_min_job(&vec![(0, 5, 2), (1, 2, 6)]), (0, 1));
    assert_eq!(johnsons::find_min_job(&vec![(0, 3, 3)]), (0, 0));
    assert_eq!(johnsons::find_min_job(&vec![(0, i32::MAX, i32::MAX)]), (0, 0));
}

#[test]
fn sorting_heuristics() {
    let m = example();
    let (r1, b1) = johnson_gen1(&m).unwrap();
    assert_eq!(r1.sequence, vec![1, 2, 0]);
    assert_eq!((r1.makespan, b1), (12, 16));
    let (r2, _) = johnson_gen2(&m).unwrap();
    assert_eq!(r2.sequence, vec![1, 2, 0]);
    let (r3, _) = johnson_gen3(&m).unwrap();
    assert_eq!(r3.sequence, vec![1, 0, 2]);
    assert_eq!(r3.makespan, 13);
    let (r4, _) = johnson_gen4(&m).unwrap();
    assert_eq!(r4.sequence, vec![0, 1, 2]);
    assert_eq!(r4.makespan, 16);
    assert_eq!(r4.method_name, "Джонсон макс. суммарное время (финальный)");
}

#[test]
fn bottleneck_takes_last_maximum() {
    let m = vec![vec![5, 5, 1], vec![1, 5, 5], vec![9, 1, 1]];
    let (r, _) = johnson_gen3(&m).unwrap();
    assert_eq!(r.sequence, vec![1, 0, 2]);
}

#[test]
fn priority_rule_example() {
    let (r, baseline) = priority_rule(&example()).unwrap();
    assert_eq!(r.sequence, vec![1, 2, 0]);
    assert_eq!(r.makespan, 12);
    assert_eq!(baseline, 16);
    assert_eq!(
        priority_rule(&three_machines()).unwrap_err(),
        ScheduleError::WrongMachineCount { required: 2, found: 3 }
    );
    assert_eq!(priority_rule(&vec![]).unwrap_err(), ScheduleError::EmptyMatrix);
}

#[test]
fn petrov_example() {
    let r = petrov_sokolicyn::algorithm(&example()).unwrap();
    assert_eq!(r.sequence, vec![1, 2, 0]);
    assert_eq!(r.makespan, 12);
    assert_eq!(r.method_name, "Petrov_Sokolicyn");
    assert_eq!(
        petrov_sokolicyn::algorithm(&vec![vec![1], vec![2]]).unwrap_err(),
        ScheduleError::TooFewMachines { required: 2, found: 1 }
    );
}

#[test]
fn petrov_picks_smallest_candidate() {
    for seed in 0..10 {
        let m = generated(seed, 5, 4);
        let r = petrov_sokolicyn::algorithm(&m).unwrap();
        let metric = |j: usize| {
            let total: i32 = m[j].iter().sum();
            (total - m[j][0], total - m[j][3])
        };
        let mut c1: Vec<usize> = (0..5).collect();
        c1.sort_by_key(|&j| std::cmp::Reverse(metric(j).0));
        let mut c2: Vec<usize> = (0..5).collect();
        c2.sort_by_key(|&j| metric(j).1);
        let mut c3: Vec<usize> = (0..5).collect();
        c3.sort_by_key(|&j| std::cmp::Reverse(metric(j).0 - metric(j).1));
        let k1 = build_schedule(&m, &c1).unwrap().1;
        let k2 = build_schedule(&m, &c2).unwrap().1;
        let k3 = build_schedule(&m, &c3).unwrap().1;
        let expected = if k1 <= k2 && k1 <= k3 {
            c1
        } else if k2 <= k3 {
            c2
        } else {
            c3
        };
        assert_eq!(r.sequence, expected, "seed {}", seed);
    }
}

#[test]
fn brute_force_limits() {
    let m = generated(1, 11, 2);
    assert_eq!(brute_force(&m).unwrap_err(), ScheduleError::TooManyJobs { limit: 10, found: 11 });
    assert_eq!(brute_force(&vec![]).unwrap_err(), ScheduleError::EmptyMatrix);
}

#[test]
fn brute_force_is_minimal() {
    for seed in 0..5 {
        let m = generated(seed, 5, 3);
        let (r, _) = brute_force(&m).unwrap();
        for seq in all_permutations(5) {
            assert!(r.makespan <= build_schedule(&m, &seq).unwrap().1);
        }
    }
}

#[test]
fn generate_perms_lists_all_in_order() {
    let perms = all_permutations(3);
    assert_eq!(
        perms,
        vec![vec![0, 1, 2], vec![0, 2, 1], vec![1, 0, 2], vec![1, 2, 0], vec![2, 0, 1], vec![2, 1, 0]]
    );
    assert_eq!(all_permutations(5).len(), 120);
}

#[test]
fn branch_and_bound_matches_brute_force() {
    for n in 1..=8 {
        for seed in 0..3 {
            let m = generated(seed + 100 * n as u64, n, 2);
            let (r, stats) = branch_and_bound::algorithm(&m, 0, 0).unwrap();
            let (b, _) = brute_force(&m).unwrap();
            assert_eq!(r.makespan, b.makespan, "n {} seed {}", n, seed);
            assert_eq!(build_schedule(&m, &r.sequence).unwrap().1, r.makespan);
            assert!(1 <= stats.best_found_at_node && stats.best_found_at_node <= stats.nodes_explored);
        }
    }
}

#[test]
fn branch_and_bound_three_machines() {
    for seed in 0..5 {
        let m = generated(seed, 6, 3);
        let (r, stats) = branch_and_bound::algorithm(&m, 0, 0).unwrap();
        assert_eq!(r.makespan, brute_force(&m).unwrap().0.makespan);
        assert_eq!(stats.total_permutations, 720);
        assert_eq!(r.method_name, "Branch and Bound");
    }
}

#[test]
fn branch_and_bound_example() {
    let (r, stats) = branch_and_bound::algorithm(&example(), 0, 0).unwrap();
    assert_eq!(r.makespan, 12);
    assert_eq!(r.idle_times, build_schedule(&example(), &r.sequence).unwrap().2);
    assert_eq!(stats.total_permutations, 6);
    assert_eq!(stats.is_provably_optimal(), stats.nodes_explored < 6);
}

#[test]
fn branch_and_bound_errors() {
    assert_eq!(
        branch_and_bound::algorithm(&example(), 0, 1).unwrap_err(),
        ScheduleError::NodeLimitExceeded { explored: 2, limit: 1 }
    );
    let big = generated(3, 16, 2);
    assert_eq!(
        branch_and_bound::algorithm(&big, 0, 0).unwrap_err(),
        ScheduleError::TooManyJobs { limit: 15, found: 16 }
    );
    assert_eq!(
        branch_and_bound::algorithm(&vec![vec![1], vec![2]], 0, 0).unwrap_err(),
        ScheduleError::TooFewMachines { required: 2, found: 1 }
    );
    assert_eq!(
        branch_and_bound::algorithm(&vec![vec![1, -2]], 0, 0).unwrap_err(),
        ScheduleError::NegativeTime { job: 0, machine: 1 }
    );
}

#[test]
fn branch_and_bound_with_limits_succeeds_when_roomy() {
    let m = generated(7, 5, 3);
    let (r, _) = branch_and_bound::algorithm(&m, 60_000, 1_000_000).unwrap();
    assert_eq!(r.makespan, brute_force(&m).unwrap().0.makespan);
}

#[test]
fn total_permutations_saturates() {
    assert_eq!(branch_and_bound::total_permutations(0), 1);
    assert_eq!(branch_and_bound::total_permutations(5), 120);
    assert_eq!(branch_and_bound::total_permutations(20), 2432902008176640000);
    assert_eq!(
        branch_and_bound::total_permutations(34),
        295232799039604140847618609643520000000
    );
    assert_eq!(branch_and_bound::total_permutations(35), u128::MAX);
}

#[test]
fn rerunning_gives_identical_results() {
    let m = generated(11, 6, 3);
    assert!(same_result(&johnsons::algorithm(&m).unwrap(), &johnsons::algorithm(&m).unwrap()));
    assert!(same_result(&johnson_gen1(&m).unwrap().0, &johnson_gen1(&m).unwrap().0));
    assert!(same_result(&johnson_gen2(&m).unwrap().0, &johnson_gen2(&m).unwrap().0));
    assert!(same_result(&johnson_gen3(&m).unwrap().0, &johnson_gen3(&m).unwrap().0));
    assert!(same_result(&johnson_gen4(&m).unwrap().0, &johnson_gen4(&m).unwrap().0));
    assert!(same_result(&brute_force(&m).unwrap().0, &brute_force(&m).unwrap().0));
    assert!(same_result(&petrov_sokolicyn::algorithm(&m).unwrap(), &petrov_sokolicyn::algorithm(&m).unwrap()));
    assert!(same_result(
        &branch_and_bound::algorithm(&m, 0, 0).unwrap().0,
        &branch_and_bound::algorithm(&m, 0, 0).unwrap().0
    ));
    let two = generated(12, 6, 2);
    assert!(same_result(&priority_rule(&two).unwrap().0, &priority_rule(&two).unwrap().0));
}

#[test]
fn single_job_every_algorithm() {
    let one = vec![vec![3, 4, 5]];
    let expect_schedule = vec![vec![(0, 3), (3, 7), (7, 12)]];
    let results = vec![
        johnsons::algorithm(&one).unwrap(),
        johnson_gen1(&one).unwrap().0,
        johnson_gen2(&one).unwrap().0,
        johnson_gen3(&one).unwrap().0,
        johnson_gen4(&one).unwrap().0,
        brute_force(&one).unwrap().0,
        petrov_sokolicyn::algorithm(&one).unwrap(),
        branch_and_bound::algorithm(&one, 0, 0).unwrap().0,
    ];
    for r in &results {
        assert_eq!(r.sequence, vec![0]);
        assert_eq!(r.makespan, 12);
        assert_eq!(r.schedule, expect_schedule);
        assert_eq!(r.idle_times, vec![0, 3, 7]);
    }
    let (p, _) = priority_rule(&vec![vec![2, 9]]).unwrap();
    assert_eq!(p.makespan, 11);
    assert_eq!(p.idle_times, vec![0, 2]);
}

#[test]
fn ragged_matrix_fails_everywhere() {
    let m = ragged();
    assert_eq!(build_schedule(&m, &vec![0, 1]).unwrap_err(), ragged_error());
    assert_eq!(create_result(&m, vec![0, 1], "x").unwrap_err(), ragged_error());
    assert_eq!(johnsons::algorithm(&m).unwrap_err(), ragged_error());
    assert_eq!(johnson_gen1(&m).unwrap_err(), ragged_error());
    assert_eq!(johnson_gen2(&m).unwrap_err(), ragged_error());
    assert_eq!(johnson_gen3(&m).unwrap_err(), ragged_error());
    assert_eq!(johnson_gen4(&m).unwrap_err(), ragged_error());
    assert_eq!(priority_rule(&m).unwrap_err(), ragged_error());
    assert_eq!(brute_force(&m).unwrap_err(), ragged_error());
    assert_eq!(petrov_sokolicyn::algorithm(&m).unwrap_err(), ragged_error());
    assert_eq!(branch_and_bound::algorithm(&m, 0, 0).unwrap_err(), ragged_error());
    assert_eq!(branch_and_bound::algorithm(&m, 100, 100).unwrap_err(), ragged_error());
}

#[test]
fn node_limit_agrees_with_unlimited_run() {
    for seed in 0..4 {
        let m = generated(seed + 40, 6, 3);
        let (r0, s0) = branch_and_bound::algorithm(&m, 0, 0).unwrap();
        let (r, s) = branch_and_bound::algorithm(&m, 0, s0.nodes_explored).unwrap();
        assert!(same_result(&r, &r0));
        assert_eq!(
            (s.nodes_explored, s.nodes_pruned, s.best_found_at_node, s.total_permutations),
            (s0.nodes_explored, s0.nodes_pruned, s0.best_found_at_node, s0.total_permutations)
        );
        let (r2, _) = branch_and_bound::algorithm(&m, 0, s0.nodes_explored + 100).unwrap();
        assert!(same_result(&r2, &r0));
        if s0.nodes_explored > 1 {
            assert_eq!(
                branch_and_bound::algorithm(&m, 0, s0.nodes_explored - 1).unwrap_err(),
                ScheduleError::NodeLimitExceeded { explored: s0.nodes_explored, limit: s0.nodes_explored - 1 }
            );
        }
    }
}

#[test]
fn search_counters_repeat() {
    let m = generated(21, 7, 3);
    let (_, a) = branch_and_bound::algorithm(&m, 0, 0).unwrap();
    let (_, b) = branch_and_bound::algorithm(&m, 0, 0).unwrap();
    assert_eq!(
        (a.nodes_explored, a.nodes_pruned, a.best_found_at_node),
        (b.nodes_explored, b.nodes_pruned, b.best_found_at_node)
    );
}

#[test]
fn single_job_search_explores_two_nodes() {
    let (r, s) = branch_and_bound::algorithm(&vec![vec![1, 2]], 0, 0).unwrap();
    assert_eq!(r.makespan, 3);
    assert_eq!(s.nodes_explored, 2);
    assert_eq!(s.total_permutations, 1);
    assert!(!s.is_provably_optimal());
}
