use petanque_engine::error::EngineError;
use petanque_engine::models::Team;
use petanque_engine::rules::{
    advancing_count, bracket_letter, bracket_ranges, check_next_round, check_scores_absent, check_settings_change,
    check_team_capacity, check_teams_deletable, complete_round, consolante_name, generate_single_round,
    parse_pairing_method, rounds_to_generate, PairingMethod,
};
use petanque_engine::standings::{GameOutcome, TeamRecord};

fn teams(n: usize) -> Vec<Team> {
    (0..n)
        .map(|i| Team {
            id: format!("team{}", i),
            tournament_id: "t".to_string(),
            captain: "c".to_string(),
            player2: "p".to_string(),
            player3: None,
            region: None,
            club: None,
            created_at: "now".to_string(),
        })
        .collect()
}

fn zero() -> TeamRecord {
    TeamRecord { wins: 0, losses: 0, points_for: 0, points_against: 0, differential: 0 }
}

#[test]
fn methods_parse_from_names() {
    assert_eq!(parse_pairing_method("swiss"), Ok(PairingMethod::Swiss));
    assert_eq!(parse_pairing_method("swissHotel"), Ok(PairingMethod::SwissHotel));
    assert_eq!(parse_pairing_method("roundRobin"), Ok(PairingMethod::RoundRobin));
    assert_eq!(parse_pairing_method("poolPlay"), Ok(PairingMethod::PoolPlay));
    assert_eq!(parse_pairing_method("knockout"), Err(EngineError::UnknownDiscipline));
    assert_eq!(parse_pairing_method(""), Err(EngineError::UnknownDiscipline));
}

#[test]
fn next_round_is_gated() {
    assert_eq!(check_next_round(PairingMethod::Swiss, 1, false, 4), Err(EngineError::PreviousRoundIncomplete));
    assert_eq!(check_next_round(PairingMethod::Swiss, 1, true, 4), Ok(2));
    assert_eq!(check_next_round(PairingMethod::SwissHotel, 1, false, 4), Ok(2));
    assert_eq!(check_next_round(PairingMethod::PoolPlay, 3, true, 4), Err(EngineError::PoolPlayRoundLimit));
    assert_eq!(check_next_round(PairingMethod::PoolPlay, 2, true, 4), Ok(3));
    assert_eq!(check_next_round(PairingMethod::RoundRobin, 0, false, 0), Err(EngineError::EmptyTeamList));
}

#[test]
fn single_round_plans_courts() {
    let ts = teams(4);
    let recs = vec![zero(); 4];
    let plan = generate_single_round(PairingMethod::RoundRobin, 0, false, &ts, &recs, &vec![], false, 1).unwrap();
    assert_eq!(plan.round_number, 1);
    assert_eq!(plan.pairings, vec![(0, Some(3)), (1, Some(2))]);
    assert_eq!(plan.games.iter().map(|g| g.court).collect::<Vec<i32>>(), vec![1, 1]);
    let err = generate_single_round(PairingMethod::RoundRobin, 0, false, &teams(1), &vec![zero()], &vec![], false, 1);
    assert!(matches!(err, Err(EngineError::TooFewTeams)));
    let err = generate_single_round(PairingMethod::Swiss, 2, false, &ts, &recs, &vec![], false, 2);
    assert!(matches!(err, Err(EngineError::PreviousRoundIncomplete)));
    let plan = generate_single_round(PairingMethod::Swiss, 0, false, &ts, &recs, &vec![], false, 2).unwrap();
    assert_eq!(plan.games.len(), 2);
}

#[test]
fn bulk_generation_only_for_ungated_methods() {
    assert_eq!(rounds_to_generate(PairingMethod::Swiss, 0, 5), Err(EngineError::RoundByRoundOnly));
    assert_eq!(rounds_to_generate(PairingMethod::PoolPlay, 0, 3), Err(EngineError::RoundByRoundOnly));
    assert_eq!(rounds_to_generate(PairingMethod::RoundRobin, 2, 5), Ok(3));
    assert_eq!(rounds_to_generate(PairingMethod::SwissHotel, 5, 5), Err(EngineError::AllRoundsGenerated));
}

#[test]
fn completing_pool_play_round_three_eliminates() {
    let recs = vec![
        TeamRecord { wins: 1, losses: 1, points_for: 20, points_against: 20, differential: 0 },
        TeamRecord { wins: 1, losses: 1, points_for: 20, points_against: 20, differential: 0 },
    ];
    let games = vec![GameOutcome { team1: Some(0), team2: Some(1), score1: Some(13), score2: Some(10), is_bye: false }];
    let c = complete_round(PairingMethod::PoolPlay, 3, &recs, &games, &vec![(0, 1)]).unwrap();
    assert_eq!(c.records[0].wins, 2);
    assert_eq!(c.records[1].losses, 2);
    assert_eq!(c.eliminated, Some(vec![false, true]));
    assert_eq!(c.ranking.ranks, vec![1, 2]);
    let c = complete_round(PairingMethod::Swiss, 1, &recs, &games, &vec![(0, 1)]).unwrap();
    assert_eq!(c.eliminated, None);
    assert_eq!(c.ranking.buchholz, vec![1, 2]);
}

#[test]
fn settings_lock_after_rounds() {
    assert_eq!(check_settings_change(false, 4, 6, 3, 5, "swiss", "poolPlay"), Ok(()));
    assert_eq!(check_settings_change(true, 4, 6, 3, 3, "swiss", "swiss"), Err(EngineError::LockedCourts));
    assert_eq!(check_settings_change(true, 4, 4, 3, 5, "swiss", "swiss"), Err(EngineError::LockedQualifyingRounds));
    assert_eq!(check_settings_change(true, 4, 4, 3, 3, "swiss", "poolPlay"), Err(EngineError::LockedPairingMethod));
    assert_eq!(check_settings_change(true, 4, 4, 3, 3, "swiss", "swiss"), Ok(()));
}

#[test]
fn two_teams_per_court() {
    assert_eq!(check_team_capacity(7, 1, 4), Ok(()));
    assert_eq!(check_team_capacity(8, 1, 4), Err(EngineError::TeamLimit { max: 8 }));
    assert_eq!(check_team_capacity(5, 4, 4), Err(EngineError::TeamLimit { max: 8 }));
}

#[test]
fn deletions_are_guarded() {
    assert_eq!(check_teams_deletable(0), Ok(()));
    assert_eq!(check_teams_deletable(2), Err(EngineError::RoundsExist));
    assert_eq!(check_scores_absent(0), Ok(()));
    assert_eq!(check_scores_absent(1), Err(EngineError::ScoresRecorded));
}

#[test]
fn advancing_teams_and_bracket_ranges() {
    assert_eq!(advancing_count(20, true, Some(8), 8), 20);
    assert_eq!(advancing_count(20, false, Some(12), 8), 12);
    assert_eq!(advancing_count(20, false, None, 8), 8);
    assert_eq!(advancing_count(5, false, Some(12), 8), 5);
    assert_eq!(bracket_ranges(20, 8), vec![(0, 8), (8, 16), (16, 20)]);
    assert_eq!(bracket_ranges(16, 8), vec![(0, 8), (8, 16)]);
    assert_eq!(bracket_ranges(0, 8), vec![]);
}

#[test]
fn bracket_names() {
    assert_eq!(bracket_letter(0), Some('A'));
    assert_eq!(bracket_letter(7), Some('H'));
    assert_eq!(bracket_letter(8), None);
    assert_eq!(consolante_name(&"B".to_string()), "BA");
}
