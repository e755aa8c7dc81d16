use petanque_engine::bracket::{
    bracket_dimensions, consolante_entrants, create_bracket_matches, create_consolante_matches, layout_bracket,
    seed_bracket, to_bracket_matches, BracketPlan, MatchSlot,
};
use petanque_engine::error::EngineError;

fn team_sets(plan: &BracketPlan) -> Vec<usize> {
    plan.rounds.iter().map(|r| r.len()).collect()
}

#[test]
fn dimensions_for_five_teams() {
    let d = bracket_dimensions(5);
    assert_eq!(d.padded_size, 8);
    assert_eq!(d.byes, 3);
    assert_eq!(d.rounds, 3);
}

#[test]
fn dimensions_for_powers_of_two_and_between() {
    for (n, padded) in [(2usize, 2usize), (3, 4), (4, 4), (8, 8), (9, 16), (16, 16), (17, 32)] {
        let d = bracket_dimensions(n);
        assert_eq!(d.padded_size, padded);
        assert_eq!(d.byes, padded - n);
        assert_eq!(1usize << d.rounds, padded);
    }
}

#[test]
fn five_team_bracket_gives_byes_to_top_three() {
    let plan = create_bracket_matches(&vec![10, 11, 12, 13, 14], 2).unwrap();
    assert_eq!(team_sets(&plan), vec![4, 2, 1]);
    for k in 0..3 {
        let m = plan.rounds[0][k];
        assert!(m.is_bye);
        assert_eq!(m.team1, Some(10 + k));
        assert_eq!(m.team2, None);
        assert_eq!(m.winner, Some(10 + k));
        assert_eq!(m.score1, Some(13));
        assert_eq!(m.score2, Some(7));
    }
    let real = plan.rounds[0][3];
    assert!(!real.is_bye);
    let mut pair = vec![real.team1.unwrap(), real.team2.unwrap()];
    pair.sort();
    assert_eq!(pair, vec![13, 14]);
    assert_eq!(real.winner, None);
    assert_eq!(plan.rounds[1][0].team1, Some(10));
    assert_eq!(plan.rounds[1][0].team2, Some(11));
    assert_eq!(plan.rounds[1][1].team1, Some(12));
    assert_eq!(plan.rounds[1][1].team2, None);
    assert_eq!(plan.rounds[2][0].team1, None);
    let courts: Vec<i32> = plan.rounds[0].iter().map(|m| m.court).collect();
    assert_eq!(courts, vec![1, 2, 1, 2]);
}

#[test]
fn bracket_needs_two_teams() {
    assert!(matches!(create_bracket_matches(&vec![], 1), Err(EngineError::TooFewTeams)));
    assert!(matches!(create_bracket_matches(&vec![0], 1), Err(EngineError::TooFewTeams)));
}

#[test]
fn layout_pairs_in_order() {
    let plan = layout_bracket(&vec![5, 6, 7, 8, 9, 4], 3);
    assert_eq!(team_sets(&plan), vec![4, 2, 1]);
    assert_eq!(plan.rounds[0][0].team1, Some(5));
    assert!(plan.rounds[0][0].is_bye);
    assert_eq!(plan.rounds[0][1].team1, Some(6));
    assert_eq!(plan.rounds[0][2].team1, Some(7));
    assert_eq!(plan.rounds[0][2].team2, Some(8));
    assert_eq!(plan.rounds[0][3].team1, Some(9));
    assert_eq!(plan.rounds[0][3].team2, Some(4));
    assert_eq!(plan.rounds[0][3].court, 1);
    assert_eq!(plan.rounds[0][0].winner, None);
}

#[test]
fn halving_rounds_down_to_one_final() {
    for n in 2..40usize {
        let seeds: Vec<usize> = (0..n).collect();
        let plan = create_bracket_matches(&seeds, 4).unwrap();
        let sizes = team_sets(&plan);
        assert_eq!(sizes[0] * 2, bracket_dimensions(n).padded_size);
        for w in sizes.windows(2) {
            assert_eq!(w[0], 2 * w[1]);
        }
        assert_eq!(*sizes.last().unwrap(), 1);
        let byes = plan.rounds[0].iter().filter(|m| m.is_bye).count();
        assert_eq!(byes, bracket_dimensions(n).byes);
    }
}

#[test]
fn winner_moves_into_parent_slot_by_parity() {
    let mut plan = seed_bracket(&vec![0, 1, 2, 3, 4, 5, 6, 7], 4);
    assert_eq!(plan.submit_match_score(0, 0, 13, 5), Ok(()));
    assert_eq!(plan.rounds[0][0].winner, Some(0));
    assert_eq!(plan.rounds[1][0].team1, Some(0));
    assert_eq!(plan.rounds[1][0].team2, None);
    assert_eq!(plan.submit_match_score(0, 1, 4, 13), Ok(()));
    assert_eq!(plan.rounds[0][1].winner, Some(3));
    assert_eq!(plan.rounds[1][0].team2, Some(3));
    assert_eq!(plan.rounds[1][0].team1, Some(0));
    assert_eq!(plan.rounds[1][1].team1, None);
}

#[test]
fn bracket_complete_only_when_final_won() {
    let mut plan = seed_bracket(&vec![0, 1, 2, 3], 2);
    assert!(!plan.is_complete());
    plan.submit_match_score(0, 0, 13, 2).unwrap();
    plan.submit_match_score(0, 1, 13, 9).unwrap();
    assert!(!plan.is_complete());
    assert_eq!(plan.rounds[1][0].team1, Some(0));
    assert_eq!(plan.rounds[1][0].team2, Some(2));
    plan.submit_match_score(1, 0, 11, 13).unwrap();
    assert_eq!(plan.rounds[1][0].winner, Some(2));
    assert!(plan.is_complete());
}

#[test]
fn tied_and_unknown_matches_are_rejected() {
    let mut plan = seed_bracket(&vec![0, 1, 2, 3], 2);
    assert_eq!(plan.submit_match_score(0, 0, 7, 7), Err(EngineError::TiedScore));
    assert_eq!(plan.rounds[0][0].score1, None);
    assert_eq!(plan.submit_match_score(5, 0, 13, 7), Err(EngineError::NotFound));
    assert_eq!(plan.submit_match_score(0, 2, 13, 7), Err(EngineError::NotFound));
}

#[test]
fn consolante_from_first_round_losers() {
    let mut plan = seed_bracket(&vec![0, 1, 2, 3, 4, 5], 2);
    assert_eq!(consolante_entrants(&plan, false, true, false), None);
    plan.submit_match_score(0, 2, 13, 8).unwrap();
    assert_eq!(consolante_entrants(&plan, false, true, false), None);
    plan.submit_match_score(0, 3, 6, 13).unwrap();
    assert_eq!(plan.first_round_losers(), Some(vec![3, 4]));
    assert_eq!(consolante_entrants(&plan, false, true, false), Some(vec![3, 4]));
    assert_eq!(consolante_entrants(&plan, true, true, false), None);
    assert_eq!(consolante_entrants(&plan, false, false, false), None);
    assert_eq!(consolante_entrants(&plan, false, true, true), None);
    let consolante = create_consolante_matches(&vec![3, 4], 2);
    assert_eq!(team_sets(&consolante), vec![1]);
    let m: MatchSlot = consolante.rounds[0][0];
    let mut pair = vec![m.team1.unwrap(), m.team2.unwrap()];
    pair.sort();
    assert_eq!(pair, vec![3, 4]);
}

#[test]
fn consolante_needs_two_losers() {
    let mut plan = seed_bracket(&vec![0, 1, 2], 2);
    plan.submit_match_score(0, 1, 13, 1).unwrap();
    assert_eq!(plan.first_round_losers(), Some(vec![2]));
    assert_eq!(consolante_entrants(&plan, false, true, false), None);
}

#[test]
fn consolante_of_five_losers_has_three_byes() {
    let plan = create_consolante_matches(&vec![20, 21, 22, 23, 24], 3);
    assert_eq!(team_sets(&plan), vec![4, 2, 1]);
    let mut seen: Vec<usize> = Vec::new();
    for m in &plan.rounds[0] {
        seen.push(m.team1.unwrap());
        if let Some(t) = m.team2 {
            seen.push(t);
        }
    }
    seen.sort();
    assert_eq!(seen, vec![20, 21, 22, 23, 24]);
    assert_eq!(plan.rounds[0].iter().filter(|m| m.is_bye && m.winner == m.team1).count(), 3);
}

#[test]
fn stored_rows_link_to_parent_ids() {
    let plan = seed_bracket(&vec![0, 1, 2], 2);
    let ids = vec!["t0".to_string(), "t1".to_string(), "t2".to_string()];
    let rows = to_bracket_matches(&plan, &"b1".to_string(), &ids);
    assert_eq!(rows.len(), 2);
    assert_eq!(rows[0].len(), 2);
    assert_eq!(rows[0][0].id.len(), 36);
    assert_ne!(rows[0][0].id, rows[0][1].id);
    assert_eq!(rows[0][0].next_match_id, Some(rows[1][0].id.clone()));
    assert_eq!(rows[0][1].next_match_id, Some(rows[1][0].id.clone()));
    assert_eq!(rows[1][0].next_match_id, None);
    assert_eq!(rows[0][0].team1_id, Some("t0".to_string()));
    assert_eq!(rows[0][0].winner_id, Some("t0".to_string()));
    assert_eq!(rows[0][0].team1_score, Some(13));
    assert_eq!(rows[1][0].team1_id, Some("t0".to_string()));
    assert_eq!(rows[1][0].round_number, 2);
    assert_eq!(rows[0][1].match_number, 2);
    assert_eq!(rows[0][1].bracket_id, "b1");
}

#[test]
fn brackets_always_build_from_two_seeds() {
    for n in 2..20usize {
        let seeds: Vec<usize> = (0..n).collect();
        let plan = create_bracket_matches(&seeds, 3).unwrap();
        let padded = bracket_dimensions(n).padded_size;
        let mut slots: Vec<usize> = Vec::new();
        for (k, m) in plan.rounds[0].iter().enumerate() {
            assert_eq!(m.is_bye, k < padded - n);
            if m.is_bye {
                assert_eq!(m.team1, Some(k));
                assert_eq!((m.score1, m.score2), (Some(13), Some(7)));
            } else {
                assert_eq!(m.winner, None);
            }
            slots.push(m.team1.unwrap());
            slots.extend(m.team2);
        }
        slots.sort();
        assert_eq!(slots, seeds);
        let consolante = create_consolante_matches(&seeds, 3);
        assert_eq!(team_sets(&consolante), team_sets(&plan));
    }
}
