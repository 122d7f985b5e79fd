use mocd::fitness::Objectives;
use mocd::graph::Partition;
use mocd::hypergrid::{
    create, crowding, grid_select, most_crowded_index, truncate_archive, HyperBox,
};
use mocd::model_selection::{
    max_q_index, max_q_selection, min_max_index, min_max_selection,
};
use mocd::rank_crowding::{rank_crowding, rank_select, ranks};
use mocd::selection::SelectionStrategy;
use mocd::solution::{distinct, pareto_front, Solution};
use mocd::standing::{pick_parent, take_best, Standing};

fn member(tag: i32, intra: u64, inter: u64) -> Solution {
    let mut partition = Partition::new();
    partition.insert(0, tag);
    Solution { partition, objectives: Objectives { intra, inter, scale: 100 } }
}

fn tags(solutions: &[Solution]) -> Vec<i32> {
    solutions.iter().map(|solution| solution.partition[&0]).collect()
}

#[test]
fn test_dominates() {
    let a = Objectives { intra: 1, inter: 5, scale: 100 };
    let b = Objectives { intra: 2, inter: 5, scale: 100 };
    let c = Objectives { intra: 0, inter: 9, scale: 100 };
    assert!(a.dominates(&b));
    assert!(!b.dominates(&a));
    assert!(!a.dominates(&a));
    assert!(!a.dominates(&c));
    assert!(!c.dominates(&a));
}

#[test]
fn test_pareto_front_keeps_the_non_dominated() {
    let all = vec![
        member(0, 50, 50),
        member(1, 10, 90),
        member(2, 60, 60),
        member(3, 90, 10),
        member(4, 10, 95),
        member(5, 40, 40),
    ];
    let front = pareto_front(&all);
    assert_eq!(tags(&front), vec![1, 3, 5]);
}

#[test]
fn test_pareto_front_keeps_one_of_equal_losses() {
    let all = vec![member(0, 10, 10), member(1, 10, 10), member(2, 10, 10)];
    assert_eq!(tags(&pareto_front(&all)), vec![0]);
}

#[test]
fn test_pareto_front_members_do_not_dominate_each_other() {
    let mut all = Vec::new();
    let mut value: u64 = 12345;
    for tag in 0..60 {
        value = value.wrapping_mul(6364136223846793005).wrapping_add(1442695040888963407);
        let intra = (value >> 33) % 50;
        let inter = (value >> 13) % 50;
        all.push(member(tag, intra, inter));
    }
    let front = pareto_front(&all);
    assert!(!front.is_empty());
    for a in &front {
        for b in &front {
            assert!(!a.objectives.dominates(&b.objectives));
        }
        assert!(!all.iter().any(|other| other.objectives.dominates(&a.objectives)));
    }
    for other in &all {
        let kept = front.iter().any(|a| a.objectives == other.objectives);
        let beaten = all.iter().any(|a| a.objectives.dominates(&other.objectives));
        assert_eq!(kept, !beaten);
    }
}

#[test]
fn test_pareto_front_of_nothing() {
    assert!(pareto_front(&Vec::new()).is_empty());
}

#[test]
fn test_hyperboxes() {
    let all = vec![
        member(0, 0, 80),
        member(1, 1, 79),
        member(2, 40, 40),
        member(3, 80, 0),
        member(4, 9, 71),
    ];
    let boxes = create(&all);
    assert_eq!(
        boxes,
        vec![
            HyperBox { intra_cell: 0, inter_cell: 7, squeeze_factor: 3 },
            HyperBox { intra_cell: 0, inter_cell: 7, squeeze_factor: 3 },
            HyperBox { intra_cell: 4, inter_cell: 4, squeeze_factor: 1 },
            HyperBox { intra_cell: 7, inter_cell: 0, squeeze_factor: 1 },
            HyperBox { intra_cell: 0, inter_cell: 7, squeeze_factor: 3 },
        ]
    );
    assert_eq!(most_crowded_index(&boxes), 0);
    let standings = crowding(&all);
    assert_eq!(standings[0], Standing { rank: 3, unbounded: false, spread: 0 });
    assert_eq!(standings[2], Standing { rank: 1, unbounded: false, spread: 0 });
    assert_eq!(standings, SelectionStrategy::Hypergrid.standings(&all));
    assert_eq!(pick_parent(&standings, 0, 2), 2);
    assert_eq!(pick_parent(&standings, 2, 0), 2);
    assert_eq!(pick_parent(&standings, 2, 3), 2);
    assert_eq!(pick_parent(&standings, 3, 2), 3);
}

#[test]
fn test_grid_select() {
    let all = vec![
        member(0, 0, 80),
        member(1, 1, 79),
        member(2, 40, 40),
        member(3, 80, 0),
        member(4, 9, 71),
        member(5, 50, 50),
        member(6, 80, 0),
    ];
    assert_eq!(tags(&grid_select(&all, 10)), vec![0, 1, 2, 3, 4]);
    assert_eq!(tags(&grid_select(&all, 3)), vec![2, 3, 4]);
    assert_eq!(tags(&SelectionStrategy::Hypergrid.select(&all, 3)), vec![2, 3, 4]);
    assert!(grid_select(&Vec::new(), 3).is_empty());
}

fn ranked_members() -> Vec<Solution> {
    vec![
        member(0, 10, 90),
        member(1, 50, 50),
        member(2, 90, 10),
        member(3, 60, 60),
        member(4, 20, 95),
        member(5, 30, 70),
    ]
}

#[test]
fn test_ranks() {
    assert_eq!(ranks(&ranked_members()), vec![1, 1, 1, 2, 2, 1]);
    let chain = vec![member(0, 3, 3), member(1, 1, 1), member(2, 2, 2), member(3, 0, 9)];
    assert_eq!(ranks(&chain), vec![3, 1, 2, 1]);
    assert!(ranks(&Vec::new()).is_empty());
    assert_eq!(ranks(&vec![member(0, 5, 5), member(1, 5, 5)]), vec![1, 1]);
}

#[test]
fn test_rank_crowding_standings() {
    let standings = rank_crowding(&ranked_members());
    assert_eq!(
        standings,
        vec![
            Standing { rank: 1, unbounded: true, spread: 0 },
            Standing { rank: 1, unbounded: false, spread: 9600 },
            Standing { rank: 1, unbounded: true, spread: 0 },
            Standing { rank: 2, unbounded: true, spread: 0 },
            Standing { rank: 2, unbounded: true, spread: 0 },
            Standing { rank: 1, unbounded: false, spread: 6400 },
        ]
    );
    assert_eq!(standings, SelectionStrategy::RankCrowding.standings(&ranked_members()));
}

#[test]
fn test_crowding_distance_that_does_not_fit() {
    let top = u64::MAX;
    let all = vec![member(0, 0, top), member(1, 1, top - 1), member(2, top, 0)];
    let standings = rank_crowding(&all);
    assert_eq!(standings[1], Standing { rank: 1, unbounded: false, spread: u128::MAX });
}

#[test]
fn test_outranks() {
    let low = Standing { rank: 0, unbounded: false, spread: 5 };
    let wide = Standing { rank: 0, unbounded: false, spread: 9 };
    let end = Standing { rank: 0, unbounded: true, spread: 0 };
    let next = Standing { rank: 1, unbounded: true, spread: 0 };
    assert!(wide.outranks(&low));
    assert!(!low.outranks(&wide));
    assert!(end.outranks(&wide));
    assert!(!wide.outranks(&end));
    assert!(!end.outranks(&end));
    assert!(low.outranks(&next));
    assert!(!next.outranks(&low));
    let standings = vec![low, wide, end, next];
    assert_eq!(pick_parent(&standings, 0, 1), 1);
    assert_eq!(pick_parent(&standings, 1, 0), 1);
    assert_eq!(pick_parent(&standings, 3, 0), 0);
    assert_eq!(pick_parent(&standings, 2, 2), 2);
}

#[test]
fn test_take_best_goes_by_standing() {
    let all = ranked_members();
    let standings = rank_crowding(&all);
    assert_eq!(tags(&take_best(&all, &standings, 3)), vec![0, 2, 1]);
    assert_eq!(tags(&take_best(&all, &standings, 5)), vec![0, 2, 1, 5, 3]);
    assert_eq!(tags(&take_best(&all, &standings, 6)), vec![0, 2, 1, 5, 3, 4]);
    assert_eq!(tags(&take_best(&all, &standings, 60)), vec![0, 2, 1, 5, 3, 4]);
    assert!(take_best(&all, &standings, 0).is_empty());
}

#[test]
fn test_rank_select_drops_repeated_losses() {
    let mut all = ranked_members();
    all.insert(1, member(7, 10, 90));
    all.push(member(8, 60, 60));
    assert_eq!(tags(&distinct(&all)), vec![0, 1, 2, 3, 4, 5]);
    assert_eq!(tags(&rank_select(&all, 4)), vec![0, 2, 1, 5]);
    assert_eq!(tags(&SelectionStrategy::RankCrowding.select(&all, 4)), vec![0, 2, 1, 5]);
    assert_eq!(tags(&rank_select(&all, 100)), vec![0, 2, 1, 5, 3, 4]);
    assert!(rank_select(&Vec::new(), 4).is_empty());
}

#[test]
fn test_rank_select_fills_rank_by_rank() {
    let mut all = Vec::new();
    let mut value: u64 = 99;
    for tag in 0..80 {
        value = value.wrapping_mul(6364136223846793005).wrapping_add(1442695040888963407);
        all.push(member(tag, (value >> 33) % 40, (value >> 13) % 40));
    }
    let kept = distinct(&all);
    let levels = ranks(&kept);
    for bound in [1usize, 5, 17, 40] {
        let survivors = rank_select(&all, bound);
        assert_eq!(survivors.len(), bound.min(kept.len()));
        let rank_of = |solution: &Solution| {
            let at = kept.iter().position(|other| other.objectives == solution.objectives);
            levels[at.unwrap()]
        };
        let worst = survivors.iter().map(|solution| rank_of(solution)).max().unwrap();
        for (at, other) in kept.iter().enumerate() {
            let survives = survivors.iter().any(|a| a.objectives == other.objectives);
            if levels[at] < worst {
                assert!(survives);
            }
            if levels[at] > worst {
                assert!(!survives);
            }
        }
        for pair in survivors.windows(2) {
            assert!(rank_of(&pair[0]) <= rank_of(&pair[1]));
        }
    }
}

#[test]
fn test_hyperboxes_of_a_range_of_width_zero() {
    let all = vec![member(0, 5, 10), member(1, 5, 20)];
    let boxes = create(&all);
    assert_eq!(boxes[0], HyperBox { intra_cell: 0, inter_cell: 0, squeeze_factor: 1 });
    assert_eq!(boxes[1], HyperBox { intra_cell: 0, inter_cell: 7, squeeze_factor: 1 });
    assert!(create(&Vec::new()).is_empty());
}

#[test]
fn test_truncate_takes_from_the_most_crowded_cell() {
    let mut archive = vec![
        member(0, 0, 80),
        member(1, 1, 79),
        member(2, 40, 40),
        member(3, 80, 0),
        member(4, 9, 71),
    ];
    truncate_archive(&mut archive, 3);
    assert_eq!(tags(&archive), vec![2, 3, 4]);
}

#[test]
fn test_truncate_leaves_a_small_archive_alone() {
    let mut archive = vec![member(0, 0, 80), member(1, 80, 0)];
    truncate_archive(&mut archive, 2);
    assert_eq!(tags(&archive), vec![0, 1]);
    truncate_archive(&mut archive, 5);
    assert_eq!(tags(&archive), vec![0, 1]);
    truncate_archive(&mut archive, 0);
    assert!(archive.is_empty());
}

#[test]
fn test_max_q_takes_the_lowest_sum_of_losses() {
    let archive = vec![member(0, 10, 60), member(1, 30, 30), member(2, 60, 5), member(3, 20, 40)];
    assert_eq!(max_q_index(&archive), 1);
    assert_eq!(max_q_selection(&archive).partition[&0], 1);
}

#[test]
fn test_max_q_takes_the_first_of_equals() {
    let archive = vec![member(0, 50, 20), member(1, 30, 30), member(2, 20, 40), member(3, 60, 0)];
    assert_eq!(max_q_index(&archive), 1);
}

#[test]
fn test_min_max_takes_the_member_farthest_from_chance() {
    let archive = vec![member(0, 10, 60), member(1, 30, 30), member(2, 60, 5)];
    let random = vec![
        vec![member(9, 12, 62), member(9, 70, 10)],
        vec![member(9, 20, 70)],
    ];
    // nearest random member: 4 for the first, 50 for the second, 15 for the third
    assert_eq!(min_max_index(&archive, &random), 1);
    assert_eq!(min_max_selection(&archive, &random).partition[&0], 1);
}

#[test]
fn test_min_max_takes_the_first_of_equals() {
    let archive = vec![member(0, 10, 10), member(1, 30, 30), member(2, 10, 50)];
    let random = vec![vec![member(9, 20, 20)], vec![]];
    // distances 20, 20 and 40 would pick the third; with the second front
    // moved they tie
    assert_eq!(min_max_index(&archive, &random), 2);
    let tie = vec![vec![member(9, 20, 20)], vec![member(9, 10, 30)]];
    assert_eq!(min_max_index(&archive, &tie), 0);
}

#[test]
fn test_min_max_without_random_fronts_is_max_q() {
    let archive = vec![member(0, 10, 60), member(1, 30, 30), member(2, 60, 5)];
    assert_eq!(min_max_index(&archive, &Vec::new()), 1);
    assert_eq!(min_max_index(&archive, &vec![Vec::new(), Vec::new()]), 1);
}
