use petanque_engine::error::EngineError;
use petanque_engine::models::{PointQuotient, Team};
use petanque_engine::pairing::{
    assign_courts, generate_pool_play_round, generate_round_robin_pairings, generate_swiss_hotel_pairings,
    generate_swiss_pairings, have_played, pair_teams_with_constraints, pair_with_byes, regions_match, Pairing,
};
use petanque_engine::standings::{apply_round_results, pool_group, pool_play_eliminations, GameOutcome, PoolGroup, TeamRecord};

fn team(id: &str, region: Option<&str>) -> Team {
    Team {
        id: id.to_string(),
        tournament_id: "t".to_string(),
        captain: format!("captain {}", id),
        player2: format!("second {}", id),
        player3: None,
        region: region.map(|r| r.to_string()),
        club: None,
        created_at: "2024-01-01T00:00:00Z".to_string(),
    }
}

fn teams(n: usize) -> Vec<Team> {
    (0..n).map(|i| team(&format!("team{}", i), None)).collect()
}

fn record(wins: i32, losses: i32, points_for: i32, points_against: i32) -> TeamRecord {
    TeamRecord { wins, losses, points_for, points_against, differential: points_for - points_against }
}

fn entries_per_team(pairings: &[Pairing], n: usize) -> Vec<usize> {
    let mut seen = vec![0usize; n];
    for (a, b) in pairings {
        seen[*a] += 1;
        if let Some(b) = b {
            seen[*b] += 1;
        }
    }
    seen
}

#[test]
fn region_avoidance_falls_back_to_rematch_avoidance() {
    let ts = vec![team("x", Some("North")), team("z", Some("South")), team("y", Some("North"))];
    let history = vec![(0usize, 1usize)];
    let mut pairings: Vec<Pairing> = Vec::new();
    let paired = pair_teams_with_constraints(&mut pairings, &vec![0, 1, 2], &ts, &history, true);
    assert_eq!(pairings, vec![(0, Some(2))]);
    assert_eq!(paired, vec![true, false, true]);
    let with_byes = pair_with_byes(&vec![0, 1, 2], &ts, &history, true);
    assert_eq!(with_byes, vec![(0, Some(2)), (1, None)]);
}

#[test]
fn region_avoidance_prefers_other_regions() {
    let ts = vec![team("a", Some("North")), team("b", Some("North")), team("c", Some("South")), team("d", Some("South"))];
    let p = pair_with_byes(&vec![0, 1, 2, 3], &ts, &vec![], true);
    assert_eq!(p, vec![(0, Some(2)), (1, Some(3))]);
    let q = pair_with_byes(&vec![0, 1, 2, 3], &ts, &vec![], false);
    assert_eq!(q, vec![(0, Some(1)), (2, Some(3))]);
}

#[test]
fn rematch_taken_only_when_nothing_else_is_left() {
    let ts = teams(2);
    let p = pair_with_byes(&vec![0, 1], &ts, &vec![(1, 0)], true);
    assert_eq!(p, vec![(0, Some(1))]);
}

#[test]
fn empty_regions_never_clash() {
    assert!(!regions_match(&team("a", Some("")), &team("b", Some(""))));
    assert!(!regions_match(&team("a", None), &team("b", None)));
    assert!(regions_match(&team("a", Some("East")), &team("b", Some("East"))));
    assert!(!regions_match(&team("a", Some("East")), &team("b", Some("West"))));
}

#[test]
fn history_is_read_both_ways() {
    let h = vec![(3usize, 5usize)];
    assert!(have_played(&h, 3, 5));
    assert!(have_played(&h, 5, 3));
    assert!(!have_played(&h, 3, 4));
}

#[test]
fn swiss_round_covers_every_team_once() {
    for n in 1..12usize {
        let ts = teams(n);
        let recs: Vec<TeamRecord> = (0..n).map(|i| record((i % 3) as i32, 0, 13 * i as i32, 0)).collect();
        let p = generate_swiss_pairings(&ts, &recs, &vec![], false);
        assert_eq!(entries_per_team(&p, n), vec![1; n]);
        assert_eq!(p.iter().filter(|(_, b)| b.is_none()).count(), n % 2);
    }
}

#[test]
fn swiss_pairs_neighbours_in_standings() {
    let ts = teams(4);
    let recs = vec![record(0, 2, 10, 26), record(2, 0, 26, 10), record(1, 1, 20, 15), record(1, 1, 18, 20)];
    let mut p = generate_swiss_pairings(&ts, &recs, &vec![], false);
    p.sort();
    assert_eq!(p, vec![(1, Some(2)), (3, Some(0))]);
}

#[test]
fn swiss_hotel_covers_every_team_once() {
    for n in 1..12usize {
        let p = generate_swiss_hotel_pairings(&teams(n), &vec![], true);
        assert_eq!(entries_per_team(&p, n), vec![1; n]);
    }
}

#[test]
fn round_robin_meets_everyone_once() {
    for n in 2..11usize {
        let ts = teams(n);
        let rounds = if n % 2 == 0 { n - 1 } else { n };
        let mut met = vec![vec![0usize; n]; n];
        for r in 1..=rounds {
            let p = generate_round_robin_pairings(&ts, r as i32).unwrap();
            assert_eq!(entries_per_team(&p, n), vec![1; n]);
            for (a, b) in p {
                if let Some(b) = b {
                    met[a][b] += 1;
                    met[b][a] += 1;
                }
            }
        }
        for a in 0..n {
            for b in 0..n {
                assert_eq!(met[a][b], if a == b { 0 } else { 1 }, "n={} a={} b={}", n, a, b);
            }
        }
    }
}

#[test]
fn round_robin_first_rounds_of_four() {
    let ts = teams(4);
    assert_eq!(generate_round_robin_pairings(&ts, 1).unwrap(), vec![(0, Some(3)), (1, Some(2))]);
    assert_eq!(generate_round_robin_pairings(&ts, 2).unwrap(), vec![(0, Some(1)), (2, Some(3))]);
    assert_eq!(generate_round_robin_pairings(&ts, 3).unwrap(), vec![(0, Some(2)), (3, Some(1))]);
}

#[test]
fn round_robin_odd_count_has_byes() {
    let p = generate_round_robin_pairings(&teams(3), 1).unwrap();
    assert_eq!(p, vec![(0, None), (1, Some(2))]);
}

#[test]
fn round_robin_needs_two_teams() {
    assert_eq!(generate_round_robin_pairings(&teams(1), 1), Err(EngineError::TooFewTeams));
    assert_eq!(generate_round_robin_pairings(&teams(0), 1), Err(EngineError::TooFewTeams));
}

#[test]
fn pool_play_round_two_splits_winners_and_losers() {
    let ts = teams(8);
    let recs: Vec<TeamRecord> =
        (0..8).map(|i| if i % 2 == 0 { record(1, 0, 13, 5) } else { record(0, 1, 5, 13) }).collect();
    assert_eq!(pool_group(&recs, PoolGroup::Winners), vec![0, 2, 4, 6]);
    assert_eq!(pool_group(&recs, PoolGroup::Losers), vec![1, 3, 5, 7]);
    let history = vec![(0, 1), (2, 3), (4, 5), (6, 7)];
    let p = generate_pool_play_round(&ts, &recs, &history, false, 2).unwrap();
    assert_eq!(p.len(), 4);
    assert_eq!(entries_per_team(&p, 8), vec![1; 8]);
    for (a, b) in p {
        assert_eq!(a % 2, b.unwrap() % 2);
    }
}

#[test]
fn pool_play_round_three_only_one_and_one() {
    let ts = teams(8);
    let recs = vec![
        record(2, 0, 26, 10),
        record(2, 0, 26, 12),
        record(1, 1, 20, 20),
        record(1, 1, 20, 21),
        record(1, 1, 19, 20),
        record(1, 1, 18, 20),
        record(0, 2, 10, 26),
        record(0, 2, 12, 26),
    ];
    let p = generate_pool_play_round(&ts, &recs, &vec![], false, 3).unwrap();
    let seen = entries_per_team(&p, 8);
    assert_eq!(seen, vec![0, 0, 1, 1, 1, 1, 0, 0]);
    assert_eq!(p.len(), 2);
}

#[test]
fn pool_play_has_three_rounds() {
    let ts = teams(4);
    let recs = vec![record(0, 0, 0, 0); 4];
    assert_eq!(generate_pool_play_round(&ts, &recs, &vec![], false, 4), Err(EngineError::PoolPlayRoundLimit));
    assert_eq!(generate_pool_play_round(&ts, &recs, &vec![], false, 0), Err(EngineError::PoolPlayRoundLimit));
    let p = generate_pool_play_round(&ts, &recs, &vec![], false, 1).unwrap();
    assert_eq!(entries_per_team(&p, 4), vec![1; 4]);
}

#[test]
fn pool_play_eliminates_two_losses() {
    let recs = vec![record(2, 0, 0, 0), record(1, 2, 0, 0), record(0, 2, 0, 0), record(2, 1, 0, 0)];
    assert_eq!(pool_play_eliminations(&recs), vec![false, true, true, false]);
}

#[test]
fn courts_cycle() {
    let p: Vec<Pairing> = vec![(0, Some(1)), (2, Some(3)), (4, None)];
    let g = assign_courts(&p, 2);
    let courts: Vec<i32> = g.iter().map(|x| x.court).collect();
    assert_eq!(courts, vec![1, 2, 1]);
    assert_eq!(g[2].team1, 4);
    assert_eq!(g[2].team2, None);
}

#[test]
fn bye_counts_thirteen_to_seven() {
    let recs = vec![record(0, 0, 0, 0); 3];
    let games = vec![
        GameOutcome { team1: Some(0), team2: None, score1: None, score2: None, is_bye: true },
        GameOutcome { team1: Some(1), team2: Some(2), score1: Some(13), score2: Some(9), is_bye: false },
    ];
    let after = apply_round_results(&recs, &games).unwrap();
    assert_eq!(after[0], record(1, 0, 13, 7));
    assert_eq!(after[0].differential, 6);
    assert_eq!(after[1], record(1, 0, 13, 9));
    assert_eq!(after[2], record(0, 1, 9, 13));
}

#[test]
fn unscored_game_changes_nothing() {
    let recs = vec![record(1, 0, 13, 4); 2];
    let games = vec![GameOutcome { team1: Some(0), team2: Some(1), score1: Some(13), score2: None, is_bye: false }];
    assert_eq!(apply_round_results(&recs, &games).unwrap(), recs);
}

#[test]
fn overflowing_total_is_rejected() {
    let recs = vec![record(0, 0, i32::MAX - 3, 0), record(0, 0, 0, 0)];
    let games = vec![GameOutcome { team1: Some(0), team2: None, score1: None, score2: None, is_bye: true }];
    assert_eq!(apply_round_results(&recs, &games), Err(EngineError::ScoreOutOfRange));
}

#[test]
fn quotient_is_kept_exact() {
    assert_eq!(petanque_engine::ranking::point_quotient(26, 0), PointQuotient::Infinite);
    assert_eq!(petanque_engine::ranking::point_quotient(0, 0), PointQuotient::Ratio { points_for: 1, points_against: 1 });
    assert_eq!(petanque_engine::ranking::point_quotient(13, 7), PointQuotient::Ratio { points_for: 13, points_against: 7 });
}

#[test]
fn round_robin_byes_rotate_and_schedule_repeats() {
    for n in 2..10usize {
        let ts = teams(n);
        let rounds = if n % 2 == 0 { n - 1 } else { n };
        let mut byes = vec![0usize; n];
        for r in 1..=rounds {
            let p = generate_round_robin_pairings(&ts, r as i32).unwrap();
            let in_round: Vec<usize> = p.iter().filter(|(_, b)| b.is_none()).map(|(a, _)| *a).collect();
            assert_eq!(in_round.len(), n % 2);
            for a in in_round {
                byes[a] += 1;
            }
            assert_eq!(generate_round_robin_pairings(&ts, (r + rounds) as i32).unwrap(), p);
        }
        assert_eq!(byes, vec![n % 2; n]);
    }
}
