use crate::error::EngineError;
use crate::models::Team;
use crate::pairing::{
    assign_courts, circle_pairing, circle_size, generate_pool_play_round, generate_round_robin_pairings,
    generate_swiss_hotel_pairings, generate_swiss_pairings, pairs_with_byes, pool_round_two, swiss_keys, Pairing,
    ScheduledGame,
};
use crate::ranking::{
    all_teams, buchholz_ranked, calculate_buchholz_and_ranks, calculate_point_quotient_ranks, history_within,
    quotient_ranked, ranked_order, records_wf, Ranking, HISTORY_BOUND,
};
use crate::standings::{
    after_games, apply_round_results, credit, games_within, group_upto, pool_play_eliminations, GameOutcome, PoolGroup, TeamRecord,
};
use crate::bracket::{court_for, BYE_LOSER_SCORE, BYE_WINNER_SCORE};
use vstd::prelude::*;
use vstd::string::{StrSliceExecFns, StringExecFns};

verus! {

/// How qualifying rounds are paired.
#[derive(Debug, Clone, Copy, PartialEq, Eq, Structural)]
pub enum PairingMethod {
    Swiss,
    SwissHotel,
    RoundRobin,
    PoolPlay,
}

pub open spec fn method_name(m: PairingMethod) -> Seq<char> {
    match m {
        PairingMethod::Swiss => seq!['s', 'w', 'i', 's', 's'],
        PairingMethod::SwissHotel => seq!['s', 'w', 'i', 's', 's', 'H', 'o', 't', 'e', 'l'],
        PairingMethod::RoundRobin => seq!['r', 'o', 'u', 'n', 'd', 'R', 'o', 'b', 'i', 'n'],
        PairingMethod::PoolPlay => seq!['p', 'o', 'o', 'l', 'P', 'l', 'a', 'y'],
    }
}

fn text_is(s: &str, expected: &str) -> (r: bool)
    ensures
        r == (s@ == expected@),
{
    let n = s.unicode_len();
    if n != expected.unicode_len() {
        return false;
    }
    let mut i: usize = 0;
    while i < n
        invariant
            n == s@.len(),
            n == expected@.len(),
            i <= n,
            forall|k: int| 0 <= k < i ==> s@[k] == expected@[k],
        decreases n - i,
    {
        if s.get_char(i) != expected.get_char(i) {
            return false;
        }
        i = i + 1;
    }
    proof {
        assert(s@ =~= expected@);
    }
    true
}

/// Reads a pairing method from its stored name.
pub fn parse_pairing_method(s: &str) -> (res: Result<PairingMethod, EngineError>)
    ensures
        forall|m: PairingMethod| #[trigger] method_name(m) == s@ <==> res == Ok::<PairingMethod, EngineError>(m),
        res is Err <==> res == Err::<PairingMethod, EngineError>(EngineError::UnknownDiscipline),
{
    proof {
        reveal_strlit("swiss");
        reveal_strlit("swissHotel");
        reveal_strlit("roundRobin");
        reveal_strlit("poolPlay");
        assert("swiss"@ =~= method_name(PairingMethod::Swiss));
        assert("swissHotel"@ =~= method_name(PairingMethod::SwissHotel));
        assert("roundRobin"@ =~= method_name(PairingMethod::RoundRobin));
        assert("poolPlay"@ =~= method_name(PairingMethod::PoolPlay));
    }
    if text_is(s, "swiss") {
        Ok(PairingMethod::Swiss)
    } else if text_is(s, "swissHotel") {
        Ok(PairingMethod::SwissHotel)
    } else if text_is(s, "roundRobin") {
        Ok(PairingMethod::RoundRobin)
    } else if text_is(s, "poolPlay") {
        Ok(PairingMethod::PoolPlay)
    } else {
        proof {
            assert forall|m: PairingMethod| #[trigger] method_name(m) != s@ by {
                match m {
                    PairingMethod::Swiss => {},
                    PairingMethod::SwissHotel => {},
                    PairingMethod::RoundRobin => {},
                    PairingMethod::PoolPlay => {},
                }
            }
        }
        Err(EngineError::UnknownDiscipline)
    }
}

/// Swiss and pool play wait for the previous round to be complete.
pub open spec fn gated(m: PairingMethod) -> bool {
    m == PairingMethod::Swiss || m == PairingMethod::PoolPlay
}

pub open spec fn next_round_check(m: PairingMethod, current_round: i32, prior_complete: bool, team_count: int) -> Result<i32, EngineError> {
    if gated(m) && current_round > 0 && !prior_complete {
        Err(EngineError::PreviousRoundIncomplete)
    } else if m == PairingMethod::PoolPlay && current_round + 1 > 3 {
        Err(EngineError::PoolPlayRoundLimit)
    } else if team_count == 0 {
        Err(EngineError::EmptyTeamList)
    } else {
        Ok((current_round + 1) as i32)
    }
}

/// The number of the round to generate next, or why none can be.
pub fn check_next_round(m: PairingMethod, current_round: i32, prior_complete: bool, team_count: usize) -> (res: Result<i32, EngineError>)
    requires
        0 <= current_round < i32::MAX,
    ensures
        res == next_round_check(m, current_round, prior_complete, team_count as int),
{
    let gated = match m {
        PairingMethod::Swiss | PairingMethod::PoolPlay => true,
        _ => false,
    };
    if gated && current_round > 0 && !prior_complete {
        Err(EngineError::PreviousRoundIncomplete)
    } else if m == PairingMethod::PoolPlay && current_round + 1 > 3 {
        Err(EngineError::PoolPlayRoundLimit)
    } else if team_count == 0 {
        Err(EngineError::EmptyTeamList)
    } else {
        Ok(current_round + 1)
    }
}

/// What the pairings of a round may be, for each method: the exact circle
/// pairing for a round robin; for the others, the greedy pairing of some
/// order the method allows.
pub open spec fn method_pairings(
    m: PairingMethod,
    teams: Seq<Team>,
    records: Seq<TeamRecord>,
    history: Seq<(usize, usize)>,
    avoid_regions: bool,
    round: i32,
    p: Seq<Pairing>,
) -> bool {
    match m {
        PairingMethod::RoundRobin => p.len() == circle_size(teams.len() as int) / 2 && forall|i: int|
            0 <= i < p.len() ==> #[trigger] p[i] == circle_pairing(teams.len() as int, round as int, i),
        PairingMethod::Swiss => exists|order: Seq<usize>|
            ranked_order(swiss_keys(records), order) && p.to_multiset() == pairs_with_byes(teams, history, avoid_regions, order).to_multiset(),
        PairingMethod::SwissHotel => exists|order: Seq<usize>|
            order.to_multiset() == all_teams(teams.len() as int).to_multiset() && p == pairs_with_byes(teams, history, avoid_regions, order),
        PairingMethod::PoolPlay => if round == 1 {
            exists|order: Seq<usize>|
                order.to_multiset() == all_teams(teams.len() as int).to_multiset() && p == pairs_with_byes(teams, history, avoid_regions, order)
        } else if round == 2 {
            exists|w: Seq<usize>, l: Seq<usize>|
                w.to_multiset() == group_upto(records, records.len() as int, PoolGroup::Winners).to_multiset() && l.to_multiset()
                    == group_upto(records, records.len() as int, PoolGroup::Losers).to_multiset() && p == pool_round_two(
                    teams,
                    history,
                    avoid_regions,
                    w,
                    l,
                )
        } else {
            exists|order: Seq<usize>|
                order.to_multiset() == group_upto(records, records.len() as int, PoolGroup::OneAndOne).to_multiset() && p
                    == pairs_with_byes(teams, history, avoid_regions, order)
        },
    }
}

/// The games of a new round, on their courts.
pub struct RoundPlan {
    pub round_number: i32,
    pub pairings: Vec<Pairing>,
    pub games: Vec<ScheduledGame>,
}

/// Checks that the next round may be generated and pairs it by the method.
#[verifier::rlimit(40)]
pub fn generate_single_round(
    m: PairingMethod,
    current_round: i32,
    prior_complete: bool,
    teams: &Vec<Team>,
    records: &Vec<TeamRecord>,
    history: &Vec<(usize, usize)>,
    avoid_regions: bool,
    number_of_courts: i32,
) -> (res: Result<RoundPlan, EngineError>)
    requires
        0 <= current_round < i32::MAX,
        records@.len() == teams@.len(),
        teams@.len() <= usize::MAX / 2,
        number_of_courts >= 1,
    ensures
        next_round_check(m, current_round, prior_complete, teams@.len() as int) matches Err(e) ==> res == Err::<RoundPlan, EngineError>(e),
        next_round_check(m, current_round, prior_complete, teams@.len() as int) is Ok && m == PairingMethod::RoundRobin
            && teams@.len() < 2 ==> res == Err::<RoundPlan, EngineError>(EngineError::TooFewTeams),
        next_round_check(m, current_round, prior_complete, teams@.len() as int) is Ok && !(m == PairingMethod::RoundRobin
            && teams@.len() < 2) ==> (res matches Ok(plan) && plan.round_number == current_round + 1 && method_pairings(
            m,
            teams@,
            records@,
            history@,
            avoid_regions,
            plan.round_number,
            plan.pairings@,
        ) && plan.games@ == assign_spec(plan.pairings@, number_of_courts)),
{
    let round_number = match check_next_round(m, current_round, prior_complete, teams.len()) {
        Ok(r) => r,
        Err(e) => {
            return Err(e);
        },
    };
    let pairings = match m {
        PairingMethod::Swiss => generate_swiss_pairings(teams, records, history, avoid_regions),
        PairingMethod::SwissHotel => generate_swiss_hotel_pairings(teams, history, avoid_regions),
        PairingMethod::RoundRobin => match generate_round_robin_pairings(teams, round_number) {
            Ok(p) => p,
            Err(e) => {
                return Err(e);
            },
        },
        PairingMethod::PoolPlay => match generate_pool_play_round(teams, records, history, avoid_regions, round_number) {
            Ok(p) => p,
            Err(e) => {
                return Err(e);
            },
        },
    };
    let games = assign_courts(&pairings, number_of_courts);
    proof {
        assert(games@ =~= assign_spec(pairings@, number_of_courts));
    }
    Ok(RoundPlan { round_number, pairings, games })
}

/// Pairings placed on courts in list order.
pub open spec fn assign_spec(p: Seq<Pairing>, courts: i32) -> Seq<ScheduledGame> {
    Seq::new(p.len(), |k: int| ScheduledGame { court: court_for(k, courts as int) as i32, team1: p[k].0, team2: p[k].1 })
}

/// How many rounds a bulk generation adds: all that remain, for the methods
/// that need no gating.
pub fn rounds_to_generate(m: PairingMethod, current_round: i32, number_of_rounds: i32) -> (res: Result<i32, EngineError>)
    ensures
        gated(m) ==> res == Err::<i32, EngineError>(EngineError::RoundByRoundOnly),
        !gated(m) && current_round >= number_of_rounds ==> res == Err::<i32, EngineError>(EngineError::AllRoundsGenerated),
        !gated(m) && current_round < number_of_rounds ==> res == Ok::<i32, EngineError>((number_of_rounds - current_round) as i32),
{
    match m {
        PairingMethod::Swiss | PairingMethod::PoolPlay => Err(EngineError::RoundByRoundOnly),
        _ => {
            if current_round >= number_of_rounds {
                Err(EngineError::AllRoundsGenerated)
            } else {
                Ok(((number_of_rounds as i64) - (current_round as i64)) as i32)
            }
        },
    }
}


proof fn lemma_wins_stay_nonneg(recs: Seq<TeamRecord>, games: Seq<GameOutcome>, k: int)
    requires
        records_wf(recs),
        games_within(games, recs.len() as int),
        k <= games.len(),
    ensures
        after_games(recs, games, k) matches Some(r) ==> records_wf(r) && r.len() == recs.len(),
    decreases k,
{
    if k > 0 {
        lemma_wins_stay_nonneg(recs, games, k - 1);
        if let Some(r) = after_games(recs, games, k - 1) {
            let g = games[k - 1];
            assert(g.team1 matches Some(t) ==> t < recs.len());
            assert(g.team2 matches Some(t) ==> t < recs.len());
            if g.is_bye {
                if let Some(t) = g.team1 {
                    lemma_credit_wf(r, t, 1, 0, BYE_WINNER_SCORE as int, BYE_LOSER_SCORE as int);
                }
            } else {
                match (g.team1, g.team2, g.score1, g.score2) {
                    (Some(a), Some(b), Some(s1), Some(s2)) => {
                        let w1: int = if s1 > s2 { 1 } else { 0 };
                        let l1: int = if s1 > s2 { 0 } else { 1 };
                        lemma_credit_wf(r, a, w1, l1, s1 as int, s2 as int);
                        if let Some(r1) = credit(r, a, w1, l1, s1 as int, s2 as int) {
                            let w2: int = if s2 > s1 { 1 } else { 0 };
                            let l2: int = if s2 > s1 { 0 } else { 1 };
                            lemma_credit_wf(r1, b, w2, l2, s2 as int, s1 as int);
                        }
                    },
                    _ => {},
                }
            }
        }
    }
}

proof fn lemma_credit_wf(recs: Seq<TeamRecord>, t: usize, won: int, lost: int, scored: int, conceded: int)
    requires
        records_wf(recs),
        t < recs.len(),
        won >= 0,
    ensures
        credit(recs, t, won, lost, scored, conceded) matches Some(r) ==> records_wf(r) && r.len() == recs.len(),
{
}

/// What completing a round produces: the updated records, the new ranking,
/// and, after the third pool-play round, who is eliminated.
pub struct RoundCompletion {
    pub records: Vec<TeamRecord>,
    pub ranking: Ranking,
    pub eliminated: Option<Vec<bool>>,
}

/// Swiss ranks by the Buchholz chain; the other methods by the point quotient.
pub open spec fn uses_buchholz(m: PairingMethod) -> bool {
    m == PairingMethod::Swiss
}

/// `c` holds `after`, its ranking by the method's chain for some tie tokens,
/// and the pool-play eliminations when due.
pub open spec fn completed(m: PairingMethod, round_number: i32, after: Seq<TeamRecord>, history: Seq<(usize, usize)>, c: RoundCompletion) -> bool {
    &&& c.records@ == after
    &&& uses_buchholz(m) ==> exists|tokens: Seq<u64>| tokens.len() == after.len() && buchholz_ranked(after, history, tokens, c.ranking)
    &&& !uses_buchholz(m) ==> exists|tokens: Seq<u64>| tokens.len() == after.len() && quotient_ranked(after, tokens, c.ranking)
    &&& if m == PairingMethod::PoolPlay && round_number == 3 {
        &&& c.eliminated is Some
        &&& c.eliminated.unwrap()@.len() == after.len()
        &&& forall|t: int| 0 <= t < after.len() ==> #[trigger] c.eliminated.unwrap()@[t] == (after[t].losses >= 2)
    } else {
        c.eliminated is None
    }
}

/// Applies a completed round's results, re-ranks every team by the method's
/// chain, and after pool-play round three marks teams with two losses.
pub fn complete_round(
    m: PairingMethod,
    round_number: i32,
    records: &Vec<TeamRecord>,
    games: &Vec<GameOutcome>,
    history: &Vec<(usize, usize)>,
) -> (res: Result<RoundCompletion, EngineError>)
    requires
        records_wf(records@),
        records@.len() < i32::MAX,
        games_within(games@, records@.len() as int),
        history_within(history@, records@.len() as int),
        history@.len() <= HISTORY_BOUND,
    ensures
        after_games(records@, games@, games@.len() as int) is None ==> res == Err::<RoundCompletion, EngineError>(
            EngineError::ScoreOutOfRange,
        ),
        after_games(records@, games@, games@.len() as int) matches Some(after) ==> (res matches Ok(c) && completed(
            m,
            round_number,
            after,
            history@,
            c,
        )),
{
    proof {
        lemma_wins_stay_nonneg(records@, games@, games@.len() as int);
    }
    let updated = match apply_round_results(records, games) {
        Ok(v) => v,
        Err(e) => {
            return Err(e);
        },
    };
    let ranking = match m {
        PairingMethod::Swiss => calculate_buchholz_and_ranks(&updated, history),
        _ => calculate_point_quotient_ranks(&updated),
    };
    let eliminated = if m == PairingMethod::PoolPlay && round_number == 3 {
        Some(pool_play_eliminations(&updated))
    } else {
        None
    };
    Ok(RoundCompletion { records: updated, ranking, eliminated })
}

/// Courts, round count and method are locked once rounds exist; the first
/// change found is reported.
pub fn check_settings_change(
    rounds_exist: bool,
    current_courts: i32,
    new_courts: i32,
    current_rounds: i32,
    new_rounds: i32,
    current_method: &str,
    new_method: &str,
) -> (res: Result<(), EngineError>)
    ensures
        !rounds_exist ==> res is Ok,
        rounds_exist && new_courts != current_courts ==> res == Err::<(), EngineError>(EngineError::LockedCourts),
        rounds_exist && new_courts == current_courts && new_rounds != current_rounds ==> res == Err::<(), EngineError>(
            EngineError::LockedQualifyingRounds,
        ),
        rounds_exist && new_courts == current_courts && new_rounds == current_rounds && new_method@ != current_method@ ==> res
            == Err::<(), EngineError>(EngineError::LockedPairingMethod),
        rounds_exist && new_courts == current_courts && new_rounds == current_rounds && new_method@ == current_method@ ==> res is Ok,
{
    if !rounds_exist {
        return Ok(());
    }
    if new_courts != current_courts {
        return Err(EngineError::LockedCourts);
    }
    if new_rounds != current_rounds {
        return Err(EngineError::LockedQualifyingRounds);
    }
    if !text_is(new_method, current_method) {
        return Err(EngineError::LockedPairingMethod);
    }
    Ok(())
}

/// A tournament holds at most two teams per court.
pub fn check_team_capacity(current_count: i64, adding: i64, number_of_courts: i32) -> (res: Result<(), EngineError>)
    requires
        0 <= current_count <= i32::MAX,
        0 <= adding <= i32::MAX,
    ensures
        current_count + adding > 2 * number_of_courts ==> res == Err::<(), EngineError>(
            EngineError::TeamLimit { max: (2 * number_of_courts) as i64 },
        ),
        current_count + adding <= 2 * number_of_courts ==> res is Ok,
{
    let max = 2 * (number_of_courts as i64);
    if current_count + adding > max {
        Err(EngineError::TeamLimit { max })
    } else {
        Ok(())
    }
}

/// Teams can be deleted only before any qualifying round exists.
pub fn check_teams_deletable(round_count: i64) -> (res: Result<(), EngineError>)
    ensures
        round_count > 0 <==> res == Err::<(), EngineError>(EngineError::RoundsExist),
        round_count <= 0 <==> res is Ok,
{
    if round_count > 0 {
        Err(EngineError::RoundsExist)
    } else {
        Ok(())
    }
}

/// Rounds or brackets can be deleted only before any score is recorded.
pub fn check_scores_absent(scored_count: i64) -> (res: Result<(), EngineError>)
    ensures
        scored_count > 0 <==> res == Err::<(), EngineError>(EngineError::ScoresRecorded),
        scored_count <= 0 <==> res is Ok,
{
    if scored_count > 0 {
        Err(EngineError::ScoresRecorded)
    } else {
        Ok(())
    }
}

/// How many of the ranked teams enter the brackets.
pub open spec fn advancing_spec(team_count: int, advance_all: bool, advance_count: Option<i32>, bracket_size: i32) -> int {
    let wanted = match advance_count {
        Some(c) => c as int,
        None => bracket_size as int,
    };
    if advance_all || wanted < 0 || wanted >= team_count {
        team_count
    } else {
        wanted
    }
}

pub fn advancing_count(team_count: usize, advance_all: bool, advance_count: Option<i32>, bracket_size: i32) -> (n: usize)
    ensures
        n == advancing_spec(team_count as int, advance_all, advance_count, bracket_size),
{
    let wanted: i64 = match advance_count {
        Some(c) => c as i64,
        None => bracket_size as i64,
    };
    if advance_all || wanted < 0 || wanted as u64 >= team_count as u64 {
        team_count
    } else {
        wanted as usize
    }
}

/// Splits the advancing teams, in rank order, into brackets of
/// `bracket_size` teams; the last one takes the rest.
pub fn bracket_ranges(advancing: usize, bracket_size: i32) -> (ranges: Vec<(usize, usize)>)
    requires
        bracket_size >= 1,
        advancing <= usize::MAX / 2,
    ensures
        ranges@.len() * bracket_size >= advancing,
        ranges@.len() == 0 || (ranges@.len() - 1) * bracket_size < advancing,
        forall|k: int|
            0 <= k < ranges@.len() ==> #[trigger] ranges@[k].0 == k * bracket_size && ranges@[k].1 == if (k + 1) * bracket_size < advancing {
                (k + 1) * bracket_size
            } else {
                advancing as int
            },
{
    let size = bracket_size as usize;
    let mut ranges: Vec<(usize, usize)> = Vec::new();
    let mut start: usize = 0;
    proof {
        assert(0 * bracket_size == 0) by (nonlinear_arith);
    }
    while start < advancing
        invariant
            size == bracket_size,
            size >= 1,
            advancing <= usize::MAX / 2,
            start == ranges@.len() * bracket_size,
            ranges@.len() == 0 || start - bracket_size < advancing,
            start <= advancing + size,
            forall|k: int|
                0 <= k < ranges@.len() ==> #[trigger] ranges@[k].0 == k * bracket_size && ranges@[k].1 == if (k + 1) * bracket_size < advancing {
                    (k + 1) * bracket_size
                } else {
                    advancing as int
                },
        decreases advancing + size - start,
    {
        let end = if advancing - start > size {
            start + size
        } else {
            advancing
        };
        proof {
            let k = ranges@.len() as int;
            assert((k + 1) * bracket_size == k * bracket_size + bracket_size) by (nonlinear_arith);
        }
        ranges.push((start, end));
        start = start + size;
    }
    proof {
        let k = ranges@.len() as int;
        if k > 0 {
            assert((k - 1) * bracket_size == k * bracket_size - bracket_size) by (nonlinear_arith);
        }
    }
    ranges
}

/// Letter names of the first eight main brackets.
pub open spec fn letter_spec(index: int) -> Option<char> {
    if 0 <= index < 8 {
        Some(seq!['A', 'B', 'C', 'D', 'E', 'F', 'G', 'H'][index])
    } else {
        None
    }
}

pub fn bracket_letter(index: usize) -> (c: Option<char>)
    ensures
        c == letter_spec(index as int),
{
    let letters = ['A', 'B', 'C', 'D', 'E', 'F', 'G', 'H'];
    if index < 8 {
        proof {
            assert(letters@ =~= seq!['A', 'B', 'C', 'D', 'E', 'F', 'G', 'H']);
        }
        Some(letters[index])
    } else {
        None
    }
}

/// The consolation bracket of bracket `name` is named `name` followed by `A`.
pub fn consolante_name(name: &String) -> (r: String)
    ensures
        r@ == name@ + seq!['A'],
{
    proof {
        reveal_strlit("A");
    }
    name.clone().concat("A")
}

} // verus!
