use onchain_election::onchain::{normalize_assignments, Error, OnChainSequentialPhragmen, RATIO_ONE};
use onchain_election::stake_index::{build_stake_index, stake_of};
use onchain_election::supports::build_supports;
use onchain_election::types::{RatioAssignment, StakedAssignment, Support};

fn support(total: u128, voters: Vec<(u64, u128)>) -> Support {
    Support { total, voters }
}

#[test]
fn single_voter_single_target() {
    let r = OnChainSequentialPhragmen::elect(1, vec![10], vec![(1, 100, vec![10])]);
    assert_eq!(r, Ok(vec![(10, support(100, vec![(1, 100)]))]));
}

#[test]
fn two_targets_one_seat() {
    let r = OnChainSequentialPhragmen::elect(1, vec![10, 20], vec![(1, 100, vec![10]), (2, 100, vec![20])])
        .unwrap();
    assert_eq!(r.len(), 1);
    let (winner, s) = &r[0];
    assert!(*winner == 10 || *winner == 20);
    assert_eq!(s.total, 100);
    assert_eq!(s.voters.len(), 1);
    let loser = if *winner == 10 { 20 } else { 10 };
    assert!(r.iter().all(|(t, _)| *t != loser));
}

#[test]
fn zero_voters_is_not_an_error() {
    let r = OnChainSequentialPhragmen::elect(1, vec![10], vec![]).unwrap();
    assert!(r.iter().all(|(_, s)| s.total == 0 && s.voters.is_empty()));
}

#[test]
fn largest_stake_is_kept_whole() {
    let r = OnChainSequentialPhragmen::elect(1, vec![10], vec![(1, u64::MAX, vec![10])]).unwrap();
    assert_eq!(r, vec![(10, support(u64::MAX as u128, vec![(1, u64::MAX as u128)]))]);
}

#[test]
fn output_size_is_bounded_by_seats() {
    let voters = vec![(1, 100, vec![10, 20]), (2, 50, vec![20, 30]), (3, 70, vec![30])];
    let r = OnChainSequentialPhragmen::elect(2, vec![10, 20, 30], voters.clone()).unwrap();
    assert_eq!(r.len(), 2);
    let r = OnChainSequentialPhragmen::elect(5, vec![10, 20, 30], voters).unwrap();
    assert_eq!(r.len(), 3);
}

#[test]
fn totals_match_backers_and_winners_are_unique() {
    let voters = vec![(1, 100, vec![10, 20]), (2, 50, vec![20, 30]), (3, 70, vec![30, 10])];
    let r = OnChainSequentialPhragmen::elect(2, vec![10, 20, 30], voters).unwrap();
    for (i, (t, s)) in r.iter().enumerate() {
        assert_eq!(s.total, s.voters.iter().map(|(_, a)| *a).sum::<u128>());
        assert!(r[i + 1..].iter().all(|(u, _)| u != t));
    }
    let total: u128 = r.iter().map(|(_, s)| s.total).sum();
    assert!(total <= 220);
}

#[test]
fn each_voter_stake_is_distributed_exactly() {
    let voters = vec![(1, 101, vec![10, 20]), (2, 33, vec![10, 20])];
    let r = OnChainSequentialPhragmen::elect(2, vec![10, 20], voters).unwrap();
    let of = |who: u64| -> u128 {
        r.iter().flat_map(|(_, s)| s.voters.iter()).filter(|(v, _)| *v == who).map(|(_, a)| *a).sum()
    };
    assert_eq!(of(1), 101);
    assert_eq!(of(2), 33);
}

#[test]
fn identical_inputs_give_identical_outputs() {
    let voters = vec![(1, 100, vec![10, 20]), (2, 50, vec![20, 30]), (3, 70, vec![30])];
    let a = OnChainSequentialPhragmen::elect(2, vec![10, 20, 30], voters.clone());
    let b = OnChainSequentialPhragmen::elect(2, vec![10, 20, 30], voters);
    assert_eq!(a, b);
}

#[test]
fn flags() {
    assert!(!OnChainSequentialPhragmen::ongoing());
    assert!(OnChainSequentialPhragmen::NEEDS_ELECT_DATA);
}

#[test]
fn stake_index_last_entry_wins() {
    let index = build_stake_index(&vec![(1, 10, vec![]), (2, 20, vec![]), (1, 30, vec![])]);
    assert_eq!(index.len(), 2);
    assert_eq!(stake_of(&index, &1), 30);
    assert_eq!(stake_of(&index, &2), 20);
}

#[test]
fn unknown_voter_has_no_stake() {
    let index = build_stake_index(&vec![(1, 10, vec![])]);
    assert_eq!(stake_of(&index, &7), 0);
    let r = normalize_assignments(vec![RatioAssignment { who: 7, distribution: vec![(10, RATIO_ONE)] }], &index)
        .unwrap();
    assert_eq!(r.len(), 1);
    assert_eq!(r[0].who, 7);
    assert!(r[0].distribution.iter().all(|(_, a)| *a == 0));
}

#[test]
fn normalized_amounts_sum_to_stake() {
    let index = build_stake_index(&vec![(1, 101, vec![])]);
    let ratios = vec![RatioAssignment { who: 1, distribution: vec![(10, 500_000_000), (20, 500_000_000)] }];
    let r = normalize_assignments(ratios, &index).unwrap();
    assert_eq!(r[0].distribution.len(), 2);
    assert_eq!(r[0].distribution[0].0, 10);
    assert_eq!(r[0].distribution[1].0, 20);
    assert_eq!(r[0].distribution.iter().map(|(_, a)| *a).sum::<u128>(), 101);
}

#[test]
fn normalization_drops_zero_ratios() {
    let index = build_stake_index(&vec![(1, 90, vec![])]);
    let ratios = vec![RatioAssignment { who: 1, distribution: vec![(10, 0), (20, RATIO_ONE)] }];
    let r = normalize_assignments(ratios, &index).unwrap();
    assert_eq!(r, vec![StakedAssignment { who: 1, distribution: vec![(20, 90)] }]);
}

#[test]
fn supports_skip_edges_to_non_winners() {
    let staked = vec![
        StakedAssignment { who: 1, distribution: vec![(10, 5), (30, 7)] },
        StakedAssignment { who: 2, distribution: vec![(10, 3)] },
    ];
    let r = build_supports(&vec![10], &staked);
    assert_eq!(r, vec![(10, support(8, vec![(1, 5), (2, 3)]))]);
}

#[test]
fn supports_follow_winner_order() {
    let staked = vec![
        StakedAssignment { who: 1, distribution: vec![(10, 5), (30, 7)] },
        StakedAssignment { who: 2, distribution: vec![(30, 3)] },
    ];
    let r = build_supports(&vec![30, 10, 30], &staked);
    assert_eq!(r, vec![(30, support(10, vec![(1, 7), (2, 3)])), (10, support(5, vec![(1, 5)]))]);
}

#[test]
fn winner_without_backing_has_empty_support() {
    let r = build_supports(&vec![40], &vec![]);
    assert_eq!(r, vec![(40, support(0, vec![]))]);
}

#[test]
fn engine_error_is_wrapped() {
    let e = Error::from(sp_npos_elections::Error::InvalidSupportEdge);
    assert_eq!(e, Error::NposElections(sp_npos_elections::Error::InvalidSupportEdge));
}
