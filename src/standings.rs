use crate::bracket::{BYE_LOSER_SCORE, BYE_WINNER_SCORE};
use crate::error::EngineError;
use vstd::prelude::*;

verus! {

/// A team's running record, as the engine reads and updates it.
#[derive(Debug, Clone, Copy, PartialEq, Eq, Structural)]
pub struct TeamRecord {
    pub wins: i32,
    pub losses: i32,
    pub points_for: i32,
    pub points_against: i32,
    pub differential: i32,
}

/// A qualifying game as read back when its round is completed.
#[derive(Debug, Clone, Copy, PartialEq, Eq, Structural)]
pub struct GameOutcome {
    pub team1: Option<usize>,
    pub team2: Option<usize>,
    pub score1: Option<i32>,
    pub score2: Option<i32>,
    pub is_bye: bool,
}

pub open spec fn fits_i32(x: int) -> bool {
    i32::MIN <= x <= i32::MAX
}

/// Team `t` credited with `won` wins, `lost` losses, `scored` points for and
/// `conceded` against; `None` when a counter would leave `i32`.
pub open spec fn credit(recs: Seq<TeamRecord>, t: usize, won: int, lost: int, scored: int, conceded: int) -> Option<Seq<TeamRecord>> {
    let r = recs[t as int];
    let w = r.wins + won;
    let l = r.losses + lost;
    let pf = r.points_for + scored;
    let pa = r.points_against + conceded;
    let d = r.differential + (scored - conceded);
    if fits_i32(w) && fits_i32(l) && fits_i32(pf) && fits_i32(pa) && fits_i32(d) {
        Some(
            recs.update(
                t as int,
                TeamRecord { wins: w as i32, losses: l as i32, points_for: pf as i32, points_against: pa as i32, differential: d as i32 },
            ),
        )
    } else {
        None
    }
}

/// One game's effect: a bye is a 13-7 win for its team; a played game with
/// both scores is a win for each side that scored strictly more and a loss
/// otherwise; anything else changes nothing.
pub open spec fn after_game(recs: Seq<TeamRecord>, g: GameOutcome) -> Option<Seq<TeamRecord>> {
    if g.is_bye {
        match g.team1 {
            Some(t) => credit(recs, t, 1, 0, BYE_WINNER_SCORE as int, BYE_LOSER_SCORE as int),
            None => Some(recs),
        }
    } else {
        match (g.team1, g.team2, g.score1, g.score2) {
            (Some(a), Some(b), Some(s1), Some(s2)) => {
                let first = credit(recs, a, if s1 > s2 { 1 } else { 0 }, if s1 > s2 { 0 } else { 1 }, s1 as int, s2 as int);
                match first {
                    Some(r1) => credit(r1, b, if s2 > s1 { 1 } else { 0 }, if s2 > s1 { 0 } else { 1 }, s2 as int, s1 as int),
                    None => None,
                }
            },
            _ => Some(recs),
        }
    }
}

pub open spec fn after_games(recs: Seq<TeamRecord>, games: Seq<GameOutcome>, k: int) -> Option<Seq<TeamRecord>>
    decreases k,
{
    if k <= 0 {
        Some(recs)
    } else {
        match after_games(recs, games, k - 1) {
            Some(r) => after_game(r, games[k - 1]),
            None => None,
        }
    }
}

proof fn lemma_overflow_stays(recs: Seq<TeamRecord>, games: Seq<GameOutcome>, k: int, m: int)
    requires
        0 <= k <= m,
        after_games(recs, games, k) is None,
    ensures
        after_games(recs, games, m) is None,
    decreases m - k,
{
    if k < m {
        lemma_overflow_stays(recs, games, k, m - 1);
    }
}

pub open spec fn games_within(games: Seq<GameOutcome>, n: int) -> bool {
    forall|k: int|
        0 <= k < games.len() ==> ((#[trigger] games[k]).team1 matches Some(t) ==> t < n) && (games[k].team2 matches Some(t) ==> t < n)
}

fn credit_team(recs: &mut Vec<TeamRecord>, t: usize, won: i32, lost: i32, scored: i32, conceded: i32) -> (ok: bool)
    requires
        t < old(recs)@.len(),
        0 <= won <= 1,
        0 <= lost <= 1,
    ensures
        ok == credit(old(recs)@, t, won as int, lost as int, scored as int, conceded as int).is_some(),
        ok ==> final(recs)@ == credit(old(recs)@, t, won as int, lost as int, scored as int, conceded as int).unwrap(),
        !ok ==> final(recs)@ == old(recs)@,
{
    let r = recs[t];
    let w = r.wins as i64 + won as i64;
    let l = r.losses as i64 + lost as i64;
    let pf = r.points_for as i64 + scored as i64;
    let pa = r.points_against as i64 + conceded as i64;
    let d = r.differential as i64 + (scored as i64 - conceded as i64);
    let lo = i32::MIN as i64;
    let hi = i32::MAX as i64;
    if lo <= w && w <= hi && lo <= l && l <= hi && lo <= pf && pf <= hi && lo <= pa && pa <= hi && lo <= d && d <= hi {
        recs.set(
            t,
            TeamRecord { wins: w as i32, losses: l as i32, points_for: pf as i32, points_against: pa as i32, differential: d as i32 },
        );
        true
    } else {
        false
    }
}

/// The records after a completed round; `ScoreOutOfRange` (and nothing
/// applied) when a running total would overflow.
pub fn apply_round_results(records: &Vec<TeamRecord>, games: &Vec<GameOutcome>) -> (res: Result<Vec<TeamRecord>, EngineError>)
    requires
        games_within(games@, records@.len() as int),
    ensures
        match after_games(records@, games@, games@.len() as int) {
            Some(r) => res matches Ok(v) && v@ == r,
            None => res == Err::<Vec<TeamRecord>, EngineError>(EngineError::ScoreOutOfRange),
        },
{
    let n = records.len();
    let mut recs: Vec<TeamRecord> = Vec::new();
    let mut t: usize = 0;
    while t < n
        invariant
            t <= n,
            n == records@.len(),
            recs@ == records@.subrange(0, t as int),
        decreases n - t,
    {
        recs.push(records[t]);
        t = t + 1;
        proof {
            assert(recs@ =~= records@.subrange(0, t as int));
        }
    }
    proof {
        assert(recs@ =~= records@);
    }
    let mut k: usize = 0;
    while k < games.len()
        invariant
            games_within(games@, n as int),
            n == records@.len(),
            k <= games@.len(),
            recs@.len() == n,
            after_games(records@, games@, k as int) == Some(recs@),
        decreases games@.len() - k,
    {
        let g = games[k];
        proof {
            assert(games@[k as int] == g);
        }
        if g.is_bye {
            if let Some(t) = g.team1 {
                if !credit_team(&mut recs, t, 1, 0, BYE_WINNER_SCORE, BYE_LOSER_SCORE) {
                    proof {
                        lemma_overflow_stays(records@, games@, k + 1, games@.len() as int);
                    }
                    return Err(EngineError::ScoreOutOfRange);
                }
            }
        } else {
            match (g.team1, g.team2, g.score1, g.score2) {
                (Some(a), Some(b), Some(s1), Some(s2)) => {
                    let (w1, l1) = if s1 > s2 {
                        (1, 0)
                    } else {
                        (0, 1)
                    };
                    if !credit_team(&mut recs, a, w1, l1, s1, s2) {
                        proof {
                            lemma_overflow_stays(records@, games@, k + 1, games@.len() as int);
                        }
                        return Err(EngineError::ScoreOutOfRange);
                    }
                    let (w2, l2) = if s2 > s1 {
                        (1, 0)
                    } else {
                        (0, 1)
                    };
                    if !credit_team(&mut recs, b, w2, l2, s2, s1) {
                        proof {
                            lemma_overflow_stays(records@, games@, k + 1, games@.len() as int);
                        }
                        return Err(EngineError::ScoreOutOfRange);
                    }
                },
                _ => {},
            }
        }
        k = k + 1;
    }
    Ok(recs)
}

/// After the third pool-play round every team with two or more losses is out.
pub fn pool_play_eliminations(records: &Vec<TeamRecord>) -> (out: Vec<bool>)
    ensures
        out@.len() == records@.len(),
        forall|t: int| 0 <= t < records@.len() ==> #[trigger] out@[t] == (records@[t].losses >= 2),
{
    let mut out: Vec<bool> = Vec::new();
    let mut t: usize = 0;
    while t < records.len()
        invariant
            t <= records@.len(),
            out@.len() == t,
            forall|u: int| 0 <= u < t ==> #[trigger] out@[u] == (records@[u].losses >= 2),
        decreases records@.len() - t,
    {
        out.push(records[t].losses >= 2);
        t = t + 1;
    }
    out
}

/// Teams `t < k`, in index order, whose record satisfies the group test.
pub open spec fn group_upto(records: Seq<TeamRecord>, k: int, group: PoolGroup) -> Seq<usize>
    decreases k,
{
    if k <= 0 {
        seq![]
    } else {
        let prev = group_upto(records, k - 1, group);
        if in_group(records[k - 1], group) {
            prev.push((k - 1) as usize)
        } else {
            prev
        }
    }
}

/// The pool-play groups: teams ahead after round one, the rest, and the
/// teams at one win and one loss that play round three.
#[derive(Debug, Clone, Copy, PartialEq, Eq, Structural)]
pub enum PoolGroup {
    Winners,
    Losers,
    OneAndOne,
}

pub open spec fn in_group(r: TeamRecord, group: PoolGroup) -> bool {
    match group {
        PoolGroup::Winners => r.wins > r.losses,
        PoolGroup::Losers => !(r.wins > r.losses),
        PoolGroup::OneAndOne => r.wins == 1 && r.losses == 1,
    }
}

/// The teams of a pool-play group, in index order.
pub fn pool_group(records: &Vec<TeamRecord>, group: PoolGroup) -> (members: Vec<usize>)
    ensures
        members@ == group_upto(records@, records@.len() as int, group),
{
    let mut members: Vec<usize> = Vec::new();
    let mut t: usize = 0;
    while t < records.len()
        invariant
            t <= records@.len(),
            members@ == group_upto(records@, t as int, group),
        decreases records@.len() - t,
    {
        let r = records[t];
        let inside = match group {
            PoolGroup::Winners => r.wins > r.losses,
            PoolGroup::Losers => !(r.wins > r.losses),
            PoolGroup::OneAndOne => r.wins == 1 && r.losses == 1,
        };
        if inside {
            members.push(t);
        }
        t = t + 1;
    }
    members
}

} // verus!
