use crate::error::EngineError;
use crate::external::{new_id, shuffle};
use crate::models::BracketMatch;
use vstd::prelude::*;

verus! {

/// Score recorded for the sole team of a bye match.
pub const BYE_WINNER_SCORE: i32 = 13;

/// Score recorded against the sole team of a bye match.
pub const BYE_LOSER_SCORE: i32 = 7;

pub open spec fn pow2(k: nat) -> nat
    decreases k,
{
    if k == 0 {
        1
    } else {
        2 * pow2((k - 1) as nat)
    }
}

/// `k` is `ceil(log2(n))`: the least number of rounds whose bracket holds `n` teams.
pub open spec fn is_round_count(n: int, k: nat) -> bool {
    pow2(k) >= n && (k == 0 || pow2((k - 1) as nat) < n)
}

pub proof fn lemma_pow2_positive(k: nat)
    ensures
        pow2(k) >= 1,
    decreases k,
{
    if k > 0 {
        lemma_pow2_positive((k - 1) as nat);
    }
}

pub proof fn lemma_pow2_monotone(a: nat, b: nat)
    requires
        a <= b,
    ensures
        pow2(a) <= pow2(b),
    decreases b - a,
{
    if a < b {
        lemma_pow2_monotone(a, (b - 1) as nat);
        lemma_pow2_positive((b - 1) as nat);
    }
}

/// There is exactly one round count for a team count.
pub proof fn lemma_round_count_unique(n: int, k1: nat, k2: nat)
    requires
        is_round_count(n, k1),
        is_round_count(n, k2),
    ensures
        k1 == k2,
{
    if k1 < k2 {
        lemma_pow2_monotone(k1, (k2 - 1) as nat);
    } else if k2 < k1 {
        lemma_pow2_monotone(k2, (k1 - 1) as nat);
    }
}

/// Size of a single-elimination bracket for a number of teams.
#[derive(Debug, Clone, Copy, PartialEq, Eq, Structural)]
pub struct BracketDimensions {
    /// The next power of two at or above the team count.
    pub padded_size: usize,
    /// Slots left without a second team.
    pub byes: usize,
    /// `log2(padded_size)`.
    pub rounds: usize,
}

/// The padded size, byes and rounds of a bracket for `team_count` teams.
pub fn bracket_dimensions(team_count: usize) -> (d: BracketDimensions)
    requires
        1 <= team_count <= usize::MAX / 2,
    ensures
        is_round_count(team_count as int, d.rounds as nat),
        d.padded_size == pow2(d.rounds as nat),
        d.byes == d.padded_size - team_count,
        d.padded_size < 2 * team_count,
{
    let mut padded: usize = 1;
    let mut rounds: usize = 0;
    while padded < team_count
        invariant
            1 <= team_count <= usize::MAX / 2,
            padded == pow2(rounds as nat),
            1 <= padded,
            rounds <= padded,
            rounds == 0 || pow2((rounds - 1) as nat) < team_count,
        decreases usize::MAX - padded,
    {
        padded = padded * 2;
        rounds = rounds + 1;
    }
    BracketDimensions { padded_size: padded, byes: padded - team_count, rounds }
}


/// One match of a bracket held in memory; teams are indices into the
/// caller's team list.
#[derive(Debug, Clone, Copy, PartialEq, Eq, Structural)]
pub struct MatchSlot {
    pub team1: Option<usize>,
    pub team2: Option<usize>,
    pub score1: Option<i32>,
    pub score2: Option<i32>,
    pub winner: Option<usize>,
    pub court: i32,
    pub is_bye: bool,
}

/// A single-elimination bracket as an arena of rounds. Match `i` of round `r`
/// feeds match `i / 2` of round `r + 1`; the last round holds the final.
pub struct BracketPlan {
    pub rounds: Vec<Vec<MatchSlot>>,
}

impl View for BracketPlan {
    type V = Seq<Seq<MatchSlot>>;

    open spec fn view(&self) -> Seq<Seq<MatchSlot>> {
        self.rounds@.map_values(|row: Vec<MatchSlot>| row@)
    }
}

/// Round `r` (0-based) of a bracket with `m.len()` rounds holds `2^(len - 1 - r)` matches.
pub open spec fn wf_shape(m: Seq<Seq<MatchSlot>>) -> bool {
    &&& m.len() >= 1
    &&& forall|r: int| 0 <= r < m.len() ==> #[trigger] m[r].len() == pow2((m.len() - 1 - r) as nat)
}

/// Court for the match at `index` of its round: cyclic over the courts.
pub open spec fn court_for(index: int, courts: int) -> int {
    index % courts + 1
}

pub open spec fn empty_slot(court: int) -> MatchSlot {
    MatchSlot {
        team1: None,
        team2: None,
        score1: None,
        score2: None,
        winner: None,
        court: court as i32,
        is_bye: false,
    }
}

/// Match `k` of the first round: the first `byes` matches are byes for
/// `entrants[0..byes]` in order, the rest pair the remaining entrants two by two.
pub open spec fn first_round_slot(entrants: Seq<usize>, byes: int, k: int, courts: int) -> MatchSlot {
    if k < byes {
        MatchSlot { team1: Some(entrants[k]), is_bye: true, ..empty_slot(court_for(k, courts)) }
    } else {
        MatchSlot {
            team1: Some(entrants[byes + 2 * (k - byes)]),
            team2: Some(entrants[byes + 2 * (k - byes) + 1]),
            ..empty_slot(court_for(k, courts))
        }
    }
}

/// `m` is the unplayed bracket for `entrants`, before any bye is resolved.
pub open spec fn laid_out(entrants: Seq<usize>, courts: int, m: Seq<Seq<MatchSlot>>) -> bool {
    let n = entrants.len() as int;
    let byes = pow2(m.len()) - n;
    &&& is_round_count(n, m.len())
    &&& wf_shape(m)
    &&& forall|k: int| 0 <= k < m[0].len() ==> #[trigger] m[0][k] == first_round_slot(entrants, byes, k, courts)
    &&& forall|r: int, i: int|
        1 <= r < m.len() && 0 <= i < m[r].len() ==> #[trigger] m[r][i] == empty_slot(court_for(i, courts))
}

fn court_number(index: usize, courts: i32) -> (c: i32)
    requires
        courts >= 1,
    ensures
        c == court_for(index as int, courts as int),
{
    ((index % (courts as usize)) as i32) + 1
}

/// Lays out a bracket: byes for the first entrants, then pairs of the rest in
/// order, then empty later rounds.
pub fn layout_bracket(entrants: &Vec<usize>, courts: i32) -> (plan: BracketPlan)
    requires
        2 <= entrants@.len() <= usize::MAX / 2,
        courts >= 1,
    ensures
        laid_out(entrants@, courts as int, plan@),
{
    let n = entrants.len();
    let d = bracket_dimensions(n);
    let half = d.padded_size / 2;
    proof {
        assert(d.rounds >= 1) by {
            if d.rounds == 0 {
                assert(pow2(0) == 1);
            }
        }
        assert(pow2(d.rounds as nat) == 2 * pow2((d.rounds - 1) as nat));
    }
    let ghost byes = d.byes as int;
    let mut first: Vec<MatchSlot> = Vec::new();
    let mut k: usize = 0;
    while k < half
        invariant
            n == entrants@.len(),
            2 <= n <= usize::MAX / 2,
            courts >= 1,
            half == pow2((d.rounds - 1) as nat),
            d.padded_size == 2 * half,
            d.byes == d.padded_size - n,
            d.padded_size < 2 * n,
            byes == d.byes,
            k <= half,
            first@.len() == k,
            forall|j: int| 0 <= j < k ==> #[trigger] first@[j] == first_round_slot(entrants@, byes, j, courts as int),
        decreases half - k,
    {
        let court = court_number(k, courts);
        let slot = if k < d.byes {
            MatchSlot {
                team1: Some(entrants[k]),
                team2: None,
                score1: None,
                score2: None,
                winner: None,
                court,
                is_bye: true,
            }
        } else {
            let p = d.byes + 2 * (k - d.byes);
            MatchSlot {
                team1: Some(entrants[p]),
                team2: Some(entrants[p + 1]),
                score1: None,
                score2: None,
                winner: None,
                court,
                is_bye: false,
            }
        };
        first.push(slot);
        k = k + 1;
    }
    let mut rounds: Vec<Vec<MatchSlot>> = Vec::new();
    rounds.push(first);
    let mut r: usize = 1;
    let mut size: usize = half / 2;
    while r < d.rounds
        invariant
            1 <= r <= d.rounds,
            courts >= 1,
            half == pow2((d.rounds - 1) as nat),
            r < d.rounds ==> size == pow2((d.rounds - 1 - r) as nat),
            rounds@.len() == r,
            rounds@[0]@.len() == half,
            forall|j: int| 0 <= j < half ==> #[trigger] rounds@[0]@[j] == first_round_slot(entrants@, byes, j, courts as int),
            forall|q: int| 0 <= q < r ==> #[trigger] rounds@[q]@.len() == pow2((d.rounds - 1 - q) as nat),
            forall|q: int, i: int|
                1 <= q < r && 0 <= i < rounds@[q]@.len() ==> #[trigger] rounds@[q]@[i] == empty_slot(court_for(i, courts as int)),
        decreases d.rounds - r,
    {
        let mut row: Vec<MatchSlot> = Vec::new();
        let mut i: usize = 0;
        while i < size
            invariant
                i <= size,
                courts >= 1,
                row@.len() == i,
                forall|j: int| 0 <= j < i ==> #[trigger] row@[j] == empty_slot(court_for(j, courts as int)),
            decreases size - i,
        {
            let court = court_number(i, courts);
            row.push(MatchSlot {
                team1: None,
                team2: None,
                score1: None,
                score2: None,
                winner: None,
                court,
                is_bye: false,
            });
            i = i + 1;
        }
        rounds.push(row);
        proof {
            if r + 1 < d.rounds {
                assert(pow2((d.rounds - 1 - r) as nat) == 2 * pow2((d.rounds - 1 - (r + 1)) as nat));
            }
        }
        size = size / 2;
        r = r + 1;
    }
    let plan = BracketPlan { rounds };
    proof {
        assert(plan@.len() == d.rounds);
        assert forall|q: int| 0 <= q < plan@.len() implies #[trigger] plan@[q].len() == pow2((plan@.len() - 1 - q) as nat) by {
            assert(plan@[q] == rounds@[q]@);
        }
        assert forall|k: int| 0 <= k < plan@[0].len() implies #[trigger] plan@[0][k] == first_round_slot(entrants@, byes, k, courts as int) by {
            assert(plan@[0] == rounds@[0]@);
        }
        assert forall|q: int, i: int| 1 <= q < plan@.len() && 0 <= i < plan@[q].len() implies #[trigger] plan@[q][i] == empty_slot(court_for(i, courts as int)) by {
            assert(plan@[q] == rounds@[q]@);
        }
    }
    plan
}


/// `m` with `w` written into the slot of the parent of match `i` of round `r`:
/// `team1` when `i` is even (odd 1-based match number), `team2` when odd.
/// The final has no parent and nothing changes.
pub open spec fn advanced(m: Seq<Seq<MatchSlot>>, r: int, i: int, w: Option<usize>) -> Seq<Seq<MatchSlot>> {
    if r + 1 < m.len() {
        let parent = m[r + 1][i / 2];
        let updated = if i % 2 == 0 {
            MatchSlot { team1: w, ..parent }
        } else {
            MatchSlot { team2: w, ..parent }
        };
        m.update(r + 1, m[r + 1].update(i / 2, updated))
    } else {
        m
    }
}

/// A bye match with its team present: it is won by that team, 13 to 7.
pub open spec fn is_open_bye(s: MatchSlot) -> bool {
    s.is_bye && s.team1.is_some()
}

pub open spec fn bye_result(s: MatchSlot) -> MatchSlot {
    MatchSlot {
        winner: s.team1,
        score1: Some(BYE_WINNER_SCORE),
        score2: Some(BYE_LOSER_SCORE),
        ..s
    }
}

/// What the second round's slot `j` holds once the byes of the first round
/// are resolved.
pub open spec fn fed_by_byes(m: Seq<Seq<MatchSlot>>, j: int) -> MatchSlot {
    let s = m[1][j];
    let top = m[0][2 * j];
    let bottom = m[0][2 * j + 1];
    MatchSlot {
        team1: if is_open_bye(top) { top.team1 } else { s.team1 },
        team2: if is_open_bye(bottom) { bottom.team1 } else { s.team2 },
        ..s
    }
}

/// Like `fed_by_byes`, counting only the first `k` matches of the first round.
pub open spec fn fed_by_byes_upto(m: Seq<Seq<MatchSlot>>, j: int, k: int) -> MatchSlot {
    let s = m[1][j];
    let top = m[0][2 * j];
    let bottom = m[0][2 * j + 1];
    MatchSlot {
        team1: if 2 * j < k && is_open_bye(top) { top.team1 } else { s.team1 },
        team2: if 2 * j + 1 < k && is_open_bye(bottom) { bottom.team1 } else { s.team2 },
        ..s
    }
}

/// `after` is `before` with every bye of the first round resolved and its
/// winner moved into the parent slot.
pub open spec fn byes_resolved(before: Seq<Seq<MatchSlot>>, after: Seq<Seq<MatchSlot>>) -> bool {
    &&& after.len() == before.len()
    &&& forall|r: int| 0 <= r < after.len() ==> #[trigger] after[r].len() == before[r].len()
    &&& forall|k: int|
        0 <= k < before[0].len() ==> #[trigger] after[0][k] == if is_open_bye(before[0][k]) {
            bye_result(before[0][k])
        } else {
            before[0][k]
        }
    &&& before.len() > 1 ==> forall|j: int| 0 <= j < before[1].len() ==> #[trigger] after[1][j] == fed_by_byes(before, j)
    &&& forall|r: int| 2 <= r < before.len() ==> #[trigger] after[r] == before[r]
}

impl BracketPlan {
    /// Writes `winner` into the parent of match `i` of round `r`.
    pub fn advance_winner(&mut self, r: usize, i: usize, winner: Option<usize>)
        requires
            wf_shape(old(self)@),
            r < old(self)@.len(),
            i < old(self)@[r as int].len(),
        ensures
            final(self)@ == advanced(old(self)@, r as int, i as int, winner),
    {
        let len = self.rounds.len();
        proof {
            assert(self@.len() == len);
        }
        if r + 1 < len {
            proof {
                assert(pow2((old(self)@.len() - 1 - r) as nat) == 2 * pow2((old(self)@.len() - 1 - (r + 1)) as nat));
                assert(self.rounds@[r + 1]@ == self@[r + 1]);
            }
            let mut slot = self.rounds[r + 1][i / 2];
            if i % 2 == 0 {
                slot.team1 = winner;
            } else {
                slot.team2 = winner;
            }
            self.rounds[r + 1].set(i / 2, slot);
            proof {
                assert(self@ =~= advanced(old(self)@, r as int, i as int, winner));
            }
        }
    }
}


/// The winner a score gives: the team with the higher score.
pub open spec fn match_winner(s: MatchSlot, score1: i32, score2: i32) -> Option<usize> {
    if score1 > score2 {
        s.team1
    } else {
        s.team2
    }
}

/// `m` once match `i` of round `r` is scored and its winner moved on.
pub open spec fn scored(m: Seq<Seq<MatchSlot>>, r: int, i: int, score1: i32, score2: i32) -> Seq<Seq<MatchSlot>> {
    let s = m[r][i];
    let w = match_winner(s, score1, score2);
    let m1 = m.update(r, m[r].update(i, MatchSlot { score1: Some(score1), score2: Some(score2), winner: w, ..s }));
    if w.is_some() {
        advanced(m1, r, i, w)
    } else {
        m1
    }
}

/// The final (the one match without a parent) has a winner.
pub open spec fn bracket_complete(m: Seq<Seq<MatchSlot>>) -> bool {
    exists|i: int| 0 <= i < m.last().len() && (#[trigger] m.last()[i]).winner.is_some()
}

pub open spec fn loser_of(s: MatchSlot) -> Option<usize> {
    if s.winner == s.team1 {
        s.team2
    } else {
        s.team1
    }
}

/// Every played (non-bye) match of the round has a winner.
pub open spec fn round_done(row: Seq<MatchSlot>) -> bool {
    forall|k: int| 0 <= k < row.len() && !(#[trigger] row[k]).is_bye ==> row[k].winner.is_some()
}

/// Losers of the played matches among the first `k` of a round, in match order.
pub open spec fn losers_upto(row: Seq<MatchSlot>, k: int) -> Seq<usize>
    decreases k,
{
    if k <= 0 {
        seq![]
    } else {
        let prev = losers_upto(row, k - 1);
        let s = row[k - 1];
        if !s.is_bye && s.winner.is_some() && loser_of(s).is_some() {
            prev.push(loser_of(s).unwrap())
        } else {
            prev
        }
    }
}

pub open spec fn round_losers(row: Seq<MatchSlot>) -> Seq<usize> {
    losers_upto(row, row.len() as int)
}

impl BracketPlan {
    /// Resolves every bye of the first round: its team wins 13 to 7 and moves
    /// into the parent match.
    #[verifier::rlimit(40)]
    pub fn resolve_byes(&mut self)
        requires
            wf_shape(old(self)@),
        ensures
            byes_resolved(old(self)@, final(self)@),
            wf_shape(final(self)@),
    {
        let ghost before = self@;
        let n0 = self.rounds[0].len();
        proof {
            assert(self.rounds@[0]@ == self@[0]);
            if before.len() > 1 {
                assert(pow2((before.len() - 1) as nat) == 2 * pow2((before.len() - 2) as nat));
                assert(before[0].len() == 2 * before[1].len());
            }
        }
        let mut k: usize = 0;
        while k < n0
            invariant
                wf_shape(self@),
                wf_shape(before),
                n0 == before[0].len(),
                k <= n0,
                self@.len() == before.len(),
                forall|r: int| 0 <= r < self@.len() ==> #[trigger] self@[r].len() == before[r].len(),
                before.len() > 1 ==> before[0].len() == 2 * before[1].len(),
                forall|j: int|
                    0 <= j < k ==> #[trigger] self@[0][j] == if is_open_bye(before[0][j]) {
                        bye_result(before[0][j])
                    } else {
                        before[0][j]
                    },
                forall|j: int| k <= j < n0 ==> #[trigger] self@[0][j] == before[0][j],
                before.len() > 1 ==> forall|j: int|
                    0 <= j < before[1].len() ==> #[trigger] self@[1][j] == fed_by_byes_upto(before, j, k as int),
                forall|r: int| 2 <= r < before.len() ==> #[trigger] self@[r] == before[r],
            decreases n0 - k,
        {
            proof {
                assert(self.rounds@[0]@ == self@[0]);
            }
            let slot = self.rounds[0][k];
            if slot.is_bye && slot.team1.is_some() {
                let ghost mid = self@;
                let resolved = MatchSlot {
                    winner: slot.team1,
                    score1: Some(BYE_WINNER_SCORE),
                    score2: Some(BYE_LOSER_SCORE),
                    ..slot
                };
                self.rounds[0].set(k, resolved);
                proof {
                    assert(self@ =~= mid.update(0, mid[0].update(k as int, resolved)));
                }
                self.advance_winner(0, k, slot.team1);
                proof {
                    if before.len() > 1 {
                        assert forall|j: int| 0 <= j < before[1].len() implies #[trigger] self@[1][j] == fed_by_byes_upto(before, j, k + 1) by {
                            if j != k / 2 {
                                assert(self@[1][j] == mid[1][j]);
                            }
                        }
                    }
                }
            } else {
                proof {
                    if before.len() > 1 {
                        assert forall|j: int| 0 <= j < before[1].len() implies #[trigger] self@[1][j] == fed_by_byes_upto(before, j, k + 1) by {
                            assert(fed_by_byes_upto(before, j, k + 1) == fed_by_byes_upto(before, j, k as int));
                        }
                    }
                }
            }
            k = k + 1;
        }
        proof {
            if before.len() > 1 {
                assert forall|j: int| 0 <= j < before[1].len() implies #[trigger] self@[1][j] == fed_by_byes(before, j) by {
                    assert(fed_by_byes_upto(before, j, n0 as int) == fed_by_byes(before, j));
                }
            }
        }
    }
}


impl BracketPlan {
    /// Records the score of match `i` of round `r`, sets its winner and moves
    /// the winner into the parent match.
    pub fn submit_match_score(&mut self, r: usize, i: usize, score1: i32, score2: i32) -> (res: Result<(), EngineError>)
        requires
            wf_shape(old(self)@),
        ensures
            wf_shape(final(self)@),
            !(r < old(self)@.len() && i < old(self)@[r as int].len()) ==> res == Err::<(), EngineError>(EngineError::NotFound)
                && final(self)@ == old(self)@,
            r < old(self)@.len() && i < old(self)@[r as int].len() && score1 == score2 ==> res == Err::<(), EngineError>(
                EngineError::TiedScore,
            ) && final(self)@ == old(self)@,
            r < old(self)@.len() && i < old(self)@[r as int].len() && score1 != score2 ==> res == Ok::<(), EngineError>(())
                && final(self)@ == scored(old(self)@, r as int, i as int, score1, score2),
    {
        let len = self.rounds.len();
        proof {
            assert(self@.len() == len);
        }
        if r >= len {
            return Err(EngineError::NotFound);
        }
        proof {
            assert(self.rounds@[r as int]@ == self@[r as int]);
        }
        if i >= self.rounds[r].len() {
            return Err(EngineError::NotFound);
        }
        if score1 == score2 {
            return Err(EngineError::TiedScore);
        }
        let slot = self.rounds[r][i];
        let winner = if score1 > score2 {
            slot.team1
        } else {
            slot.team2
        };
        let ghost before = self@;
        let updated = MatchSlot { score1: Some(score1), score2: Some(score2), winner, ..slot };
        self.rounds[r].set(i, updated);
        proof {
            assert(self@ =~= before.update(r as int, before[r as int].update(i as int, updated)));
        }
        if winner.is_some() {
            self.advance_winner(r, i, winner);
        }
        Ok(())
    }

    /// Whether the final has a winner.
    pub fn is_complete(&self) -> (done: bool)
        requires
            self@.len() >= 1,
        ensures
            done == bracket_complete(self@),
    {
        let last = self.rounds.len() - 1;
        proof {
            assert(self.rounds@[last as int]@ == self@.last());
        }
        let mut i: usize = 0;
        while i < self.rounds[last].len()
            invariant
                last == self@.len() - 1,
                self.rounds@[last as int]@ == self@.last(),
                i <= self@.last().len(),
                forall|j: int| 0 <= j < i ==> (#[trigger] self@.last()[j]).winner.is_none(),
            decreases self@.last().len() - i,
        {
            if self.rounds[last][i].winner.is_some() {
                return true;
            }
            i = i + 1;
        }
        false
    }

    /// The losers of the played first-round matches, in match order, once
    /// every one of those matches has a winner; `None` before that.
    pub fn first_round_losers(&self) -> (losers: Option<Vec<usize>>)
        requires
            self@.len() >= 1,
        ensures
            losers.is_some() == round_done(self@[0]),
            losers.is_some() ==> losers.unwrap()@ == round_losers(self@[0]),
    {
        proof {
            assert(self.rounds@[0]@ == self@[0]);
        }
        let row = &self.rounds[0];
        let mut out: Vec<usize> = Vec::new();
        let mut k: usize = 0;
        while k < row.len()
            invariant
                row@ == self@[0],
                k <= row@.len(),
                out@ == losers_upto(row@, k as int),
                forall|j: int| 0 <= j < k && !(#[trigger] row@[j]).is_bye ==> row@[j].winner.is_some(),
            decreases row@.len() - k,
        {
            let s = row[k];
            if !s.is_bye {
                if s.winner.is_none() {
                    return None;
                }
                let loser = if s.winner == s.team1 {
                    s.team2
                } else {
                    s.team1
                };
                if let Some(l) = loser {
                    out.push(l);
                }
            }
            k = k + 1;
        }
        Some(out)
    }
}

/// A permutation keeps the length.
pub proof fn lemma_shuffle_len(a: Seq<usize>, b: Seq<usize>)
    requires
        a.to_multiset() == b.to_multiset(),
    ensures
        a.len() == b.len(),
{
    vstd::seq_lib::to_multiset_len(a);
    vstd::seq_lib::to_multiset_len(b);
}

/// Lays out a bracket for `entrants` and resolves its byes.
pub fn seed_bracket(entrants: &Vec<usize>, courts: i32) -> (plan: BracketPlan)
    requires
        2 <= entrants@.len() <= usize::MAX / 2,
        courts >= 1,
    ensures
        exists|m0: Seq<Seq<MatchSlot>>| laid_out(entrants@, courts as int, m0) && byes_resolved(m0, plan@),
        wf_shape(plan@),
        seeded_shape(entrants@.len() as int, plan@),
{
    let mut plan = layout_bracket(entrants, courts);
    let ghost m0 = plan@;
    plan.resolve_byes();
    proof {
        lemma_seeded_shape(entrants@, courts as int, m0, plan@);
    }
    plan
}

/// A freshly seeded bracket for `n` teams: `ceil(log2 n)` rounds; a first
/// round of half the padded size whose first `padded - n` matches are the
/// byes, each held and won 13 to 7 by a single team, and whose other matches
/// hold two teams and no result; each later round half the size of the one
/// before, down to a single final.
pub open spec fn seeded_shape(n: int, m: Seq<Seq<MatchSlot>>) -> bool {
    &&& is_round_count(n, m.len())
    &&& wf_shape(m)
    &&& 2 * m[0].len() == pow2(m.len())
    &&& forall|k: int| 0 <= k < m[0].len() ==> (#[trigger] m[0][k].is_bye <==> k < pow2(m.len()) - n)
    &&& forall|k: int|
        0 <= k < m[0].len() && (#[trigger] m[0][k]).is_bye ==> {
            &&& m[0][k].team1 is Some
            &&& m[0][k].team2 is None
            &&& m[0][k].winner == m[0][k].team1
            &&& m[0][k].score1 == Some(BYE_WINNER_SCORE)
            &&& m[0][k].score2 == Some(BYE_LOSER_SCORE)
        }
    &&& forall|k: int|
        0 <= k < m[0].len() && !(#[trigger] m[0][k]).is_bye ==> {
            &&& m[0][k].team1 is Some
            &&& m[0][k].team2 is Some
            &&& m[0][k].winner is None
            &&& m[0][k].score1 is None
            &&& m[0][k].score2 is None
        }
    &&& forall|r: int| 0 <= r < m.len() - 1 ==> #[trigger] m[r].len() == 2 * m[r + 1].len()
    &&& m.last().len() == 1
}

pub proof fn lemma_seeded_shape(entrants: Seq<usize>, courts: int, m0: Seq<Seq<MatchSlot>>, m: Seq<Seq<MatchSlot>>)
    requires
        entrants.len() >= 2,
        laid_out(entrants, courts, m0),
        byes_resolved(m0, m),
    ensures
        seeded_shape(entrants.len() as int, m),
{
    lemma_round_sizes(entrants, courts, m0);
    lemma_bye_result(entrants, courts, m0, m);
    let byes = pow2(m0.len()) - entrants.len();
    assert forall|k: int| 0 <= k < m[0].len() implies (#[trigger] m[0][k].is_bye <==> k < pow2(m.len()) - entrants.len()) by {
        assert(m0[0][k] == first_round_slot(entrants, byes, k, courts));
    }
    assert forall|k: int| 0 <= k < m[0].len() && !(#[trigger] m[0][k]).is_bye implies {
        &&& m[0][k].team1 is Some
        &&& m[0][k].team2 is Some
        &&& m[0][k].winner is None
        &&& m[0][k].score1 is None
        &&& m[0][k].score2 is None
    } by {
        assert(m0[0][k] == first_round_slot(entrants, byes, k, courts));
    }
    assert forall|r: int| 0 <= r < m.len() implies #[trigger] m[r].len() == pow2((m.len() - 1 - r) as nat) by {
        assert(m[r].len() == m0[r].len());
    }
    assert forall|r: int| 0 <= r < m.len() - 1 implies #[trigger] m[r].len() == 2 * m[r + 1].len() by {
        assert(m[r].len() == m0[r].len());
        assert(m[r + 1].len() == m0[r + 1].len());
    }
    assert(m.last().len() == m0.last().len());
}

/// Builds a main bracket from teams in seed order: the top seeds take the
/// byes, the others are shuffled and paired in the first round.
#[verifier::rlimit(40)]
pub fn create_bracket_matches(seeds: &Vec<usize>, courts: i32) -> (res: Result<BracketPlan, EngineError>)
    requires
        seeds@.len() <= usize::MAX / 2,
        courts >= 1,
    ensures
        seeds@.len() < 2 <==> res == Err::<BracketPlan, EngineError>(EngineError::TooFewTeams),
        seeds@.len() >= 2 <==> res is Ok,
        res matches Ok(plan) ==> seeded_shape(seeds@.len() as int, plan@),
        res is Ok ==> {
            let plan = res.unwrap()@;
            let n = seeds@.len() as int;
            let byes = pow2(plan.len()) - n;
            exists|e: Seq<usize>, m0: Seq<Seq<MatchSlot>>|
                e.len() == n && e.subrange(0, byes) == seeds@.subrange(0, byes) && e.subrange(byes, n).to_multiset()
                    == seeds@.subrange(byes, n).to_multiset() && laid_out(e, courts as int, m0) && byes_resolved(m0, plan)
        },
{
    let n = seeds.len();
    if n < 2 {
        return Err(EngineError::TooFewTeams);
    }
    let d = bracket_dimensions(n);
    let mut playing: Vec<usize> = Vec::new();
    let mut k: usize = d.byes;
    while k < n
        invariant
            d.byes <= k <= n,
            n == seeds@.len(),
            playing@ == seeds@.subrange(d.byes as int, k as int),
        decreases n - k,
    {
        playing.push(seeds[k]);
        k = k + 1;
        proof {
            assert(playing@ =~= seeds@.subrange(d.byes as int, k as int));
        }
    }
    let ghost pre = playing@;
    shuffle(&mut playing);
    proof {
        lemma_shuffle_len(pre, playing@);
    }
    let mut entrants: Vec<usize> = Vec::new();
    let mut j: usize = 0;
    while j < n
        invariant
            j <= n,
            n == seeds@.len(),
            d.byes <= n,
            playing@.len() == n - d.byes,
            entrants@.len() == j,
            forall|q: int| 0 <= q < j && q < d.byes ==> #[trigger] entrants@[q] == seeds@[q],
            forall|q: int| d.byes <= q < j ==> #[trigger] entrants@[q] == playing@[q - d.byes],
        decreases n - j,
    {
        if j < d.byes {
            entrants.push(seeds[j]);
        } else {
            entrants.push(playing[j - d.byes]);
        }
        j = j + 1;
    }
    let plan = seed_bracket(&entrants, courts);
    proof {
        assert(entrants@.len() == n);
        let m0 = choose|m0: Seq<Seq<MatchSlot>>| laid_out(entrants@, courts as int, m0) && byes_resolved(m0, plan@);
        lemma_round_count_unique(n as int, m0.len(), d.rounds as nat);
        assert(entrants@.subrange(0, d.byes as int) =~= seeds@.subrange(0, d.byes as int));
        assert(entrants@.subrange(d.byes as int, n as int) =~= playing@);
    }
    Ok(plan)
}

/// Builds a consolation bracket from first-round losers: every entrant is
/// shuffled and the first of them after the shuffle take the byes.
pub fn create_consolante_matches(losers: &Vec<usize>, courts: i32) -> (plan: BracketPlan)
    requires
        2 <= losers@.len() <= usize::MAX / 2,
        courts >= 1,
    ensures
        wf_shape(plan@),
        seeded_shape(losers@.len() as int, plan@),
        exists|e: Seq<usize>, m0: Seq<Seq<MatchSlot>>|
            e.to_multiset() == losers@.to_multiset() && laid_out(e, courts as int, m0) && byes_resolved(m0, plan@),
{
    let mut entrants = losers.clone();
    proof {
        assert(entrants@ == losers@);
    }
    shuffle(&mut entrants);
    proof {
        lemma_shuffle_len(losers@, entrants@);
    }
    seed_bracket(&entrants, courts)
}


/// Bracket sizes: the first round holds half the padded size, its first
/// `padded - n` matches are the byes, each later round holds half as many
/// matches as the one before, and the last round is the single final.
pub proof fn lemma_round_sizes(entrants: Seq<usize>, courts: int, m: Seq<Seq<MatchSlot>>)
    requires
        entrants.len() >= 2,
        laid_out(entrants, courts, m),
    ensures
        m.len() >= 1,
        2 * m[0].len() == pow2(m.len()),
        forall|k: int| 0 <= k < m[0].len() ==> (#[trigger] m[0][k].is_bye <==> k < pow2(m.len()) - entrants.len()),
        forall|r: int| 0 <= r < m.len() - 1 ==> #[trigger] m[r].len() == 2 * m[r + 1].len(),
        m.last().len() == 1,
{
    assert(m.len() >= 1) by {
        if m.len() == 0 {
            assert(pow2(0) == 1);
        }
    }
    assert(pow2(m.len()) == 2 * pow2((m.len() - 1) as nat));
    assert(m[0].len() == pow2((m.len() - 1) as nat));
    assert forall|r: int| 0 <= r < m.len() - 1 implies #[trigger] m[r].len() == 2 * m[r + 1].len() by {
        assert(m[r].len() == pow2((m.len() - 1 - r) as nat));
        assert(m[r + 1].len() == pow2((m.len() - 1 - (r + 1)) as nat));
        assert(pow2((m.len() - 1 - r) as nat) == 2 * pow2((m.len() - 1 - (r + 1)) as nat));
    }
    assert(m[m.len() - 1].len() == pow2(0));
}

/// Every bye of a seeded bracket holds exactly one team, which wins it 13 to 7.
pub proof fn lemma_bye_result(entrants: Seq<usize>, courts: int, m0: Seq<Seq<MatchSlot>>, m: Seq<Seq<MatchSlot>>)
    requires
        entrants.len() >= 2,
        laid_out(entrants, courts, m0),
        byes_resolved(m0, m),
    ensures
        forall|k: int|
            0 <= k < m[0].len() && (#[trigger] m[0][k]).is_bye ==> {
                &&& m[0][k].team1 is Some
                &&& m[0][k].team2 is None
                &&& m[0][k].winner == m[0][k].team1
                &&& m[0][k].score1 == Some(BYE_WINNER_SCORE)
                &&& m[0][k].score2 == Some(BYE_LOSER_SCORE)
            },
{
    lemma_round_sizes(entrants, courts, m0);
    assert forall|k: int| 0 <= k < m[0].len() && (#[trigger] m[0][k]).is_bye implies m[0][k].team1 is Some && m[0][k].team2 is None
        && m[0][k].winner == m[0][k].team1 && m[0][k].score1 == Some(BYE_WINNER_SCORE) && m[0][k].score2 == Some(BYE_LOSER_SCORE) by {
        assert(m0[0][k] == first_round_slot(entrants, pow2(m0.len()) - entrants.len(), k, courts));
    }
}

/// The final is the one match without a parent, and a bracket is complete
/// exactly when that match has a winner.
pub proof fn lemma_single_final(m: Seq<Seq<MatchSlot>>)
    requires
        wf_shape(m),
    ensures
        m.last().len() == 1,
        forall|r: int, i: int| 0 <= r < m.len() && 0 <= i < m[r].len() && r + 1 >= m.len() ==> #[trigger] m[r][i] == m.last()[0] && r == m.len() - 1 && i == 0,
        bracket_complete(m) <==> m.last()[0].winner.is_some(),
{
    assert(m[m.len() - 1].len() == pow2(0));
    if m.last()[0].winner.is_some() {
        assert(0 <= 0 < m.last().len() && m.last()[0].winner.is_some());
    }
}

/// Moving a winner on writes exactly one slot of exactly one match: the
/// parent at `i / 2` of the next round, `team1` for an even index (odd match
/// number) and `team2` for an odd one.
pub proof fn lemma_advance_writes_one_slot(m: Seq<Seq<MatchSlot>>, r: int, i: int, w: Option<usize>)
    requires
        wf_shape(m),
        0 <= r < m.len() - 1,
        0 <= i < m[r].len(),
    ensures
        ({
            let a = advanced(m, r, i, w);
            let p = a[r + 1][i / 2];
            let q = m[r + 1][i / 2];
            &&& a.len() == m.len()
            &&& i / 2 < m[r + 1].len()
            &&& i % 2 == 0 ==> p == MatchSlot { team1: w, ..q }
            &&& i % 2 == 1 ==> p == MatchSlot { team2: w, ..q }
            &&& forall|r2: int, j: int|
                0 <= r2 < m.len() && 0 <= j < m[r2].len() && !(r2 == r + 1 && j == i / 2) ==> #[trigger] a[r2][j] == m[r2][j]
        }),
{
    assert(m[r].len() == pow2((m.len() - 1 - r) as nat));
    assert(pow2((m.len() - 1 - r) as nat) == 2 * pow2((m.len() - 1 - (r + 1)) as nat));
}

/// Whether a consolation bracket is due, and for which teams: only for a main
/// bracket of a tournament that has them, once no sibling exists, every played
/// first-round match has a winner, and at least two teams lost.
pub fn consolante_entrants(plan: &BracketPlan, is_consolante: bool, has_consolante: bool, sibling_exists: bool) -> (entrants: Option<Vec<usize>>)
    requires
        plan@.len() >= 1,
    ensures
        entrants.is_some() <==> (!is_consolante && has_consolante && !sibling_exists && round_done(plan@[0])
            && round_losers(plan@[0]).len() >= 2),
        entrants.is_some() ==> entrants.unwrap()@ == round_losers(plan@[0]),
{
    if is_consolante || !has_consolante || sibling_exists {
        return None;
    }
    match plan.first_round_losers() {
        None => None,
        Some(losers) => {
            if losers.len() < 2 {
                None
            } else {
                Some(losers)
            }
        },
    }
}

/// The id stored for an optional team index.
pub open spec fn team_ref(team_ids: Seq<String>, t: Option<usize>) -> Option<String> {
    match t {
        Some(x) => Some(team_ids[x as int]),
        None => None,
    }
}

pub open spec fn refs_known(m: Seq<Seq<MatchSlot>>, n: int) -> bool {
    forall|r: int, i: int|
        0 <= r < m.len() && 0 <= i < m[r].len() ==> {
            let s = #[trigger] m[r][i];
            &&& (s.team1 matches Some(x) ==> x < n)
            &&& (s.team2 matches Some(x) ==> x < n)
            &&& (s.winner matches Some(x) ==> x < n)
        }
}

/// The row stored for match `i` of round `r`, given its own id and the id of
/// its parent.
pub open spec fn stored_match(
    s: MatchSlot,
    r: int,
    i: int,
    id: String,
    next: Option<String>,
    bracket_id: String,
    team_ids: Seq<String>,
) -> BracketMatch {
    BracketMatch {
        id,
        bracket_id,
        round_number: (r + 1) as i32,
        match_number: (i + 1) as i32,
        court_number: Some(s.court),
        team1_id: team_ref(team_ids, s.team1),
        team2_id: team_ref(team_ids, s.team2),
        team1_score: s.score1,
        team2_score: s.score2,
        winner_id: team_ref(team_ids, s.winner),
        next_match_id: next,
        is_bye: s.is_bye,
    }
}

fn team_ref_exec(team_ids: &Vec<String>, t: Option<usize>) -> (r: Option<String>)
    requires
        t matches Some(x) ==> x < team_ids@.len(),
    ensures
        r == team_ref(team_ids@, t),
{
    match t {
        Some(x) => Some(team_ids[x].clone()),
        None => None,
    }
}

/// Turns a bracket into stored rows, round by round, with a fresh id for each
/// match and each `next_match_id` naming the parent's id.
#[verifier::rlimit(40)]
pub fn to_bracket_matches(plan: &BracketPlan, bracket_id: &String, team_ids: &Vec<String>) -> (rows: Vec<Vec<BracketMatch>>)
    requires
        wf_shape(plan@),
        plan@.len() < i32::MAX,
        forall|r: int| 0 <= r < plan@.len() ==> #[trigger] plan@[r].len() < i32::MAX,
        refs_known(plan@, team_ids@.len() as int),
    ensures
        rows@.len() == plan@.len(),
        forall|r: int| 0 <= r < plan@.len() ==> #[trigger] rows@[r]@.len() == plan@[r].len(),
        forall|r: int, i: int|
            0 <= r < plan@.len() && 0 <= i < plan@[r].len() ==> #[trigger] rows@[r]@[i] == stored_match(
                plan@[r][i],
                r,
                i,
                rows@[r]@[i].id,
                if r + 1 < plan@.len() {
                    Some(rows@[r + 1]@[i / 2].id)
                } else {
                    None
                },
                *bracket_id,
                team_ids@,
            ),
{
    let nr = plan.rounds.len();
    let mut ids: Vec<Vec<String>> = Vec::new();
    let mut r: usize = 0;
    while r < nr
        invariant
            nr == plan.rounds@.len(),
            r <= nr,
            ids@.len() == r,
            forall|q: int| 0 <= q < r ==> #[trigger] ids@[q]@.len() == plan.rounds@[q]@.len(),
        decreases nr - r,
    {
        let mut row: Vec<String> = Vec::new();
        let mut i: usize = 0;
        while i < plan.rounds[r].len()
            invariant
                r < nr,
                nr == plan.rounds@.len(),
                i <= plan.rounds@[r as int]@.len(),
                row@.len() == i,
            decreases plan.rounds@[r as int]@.len() - i,
        {
            row.push(new_id());
            i = i + 1;
        }
        ids.push(row);
        r = r + 1;
    }
    let mut rows: Vec<Vec<BracketMatch>> = Vec::new();
    let mut r: usize = 0;
    while r < nr
        invariant
            nr == plan.rounds@.len(),
            nr == plan@.len(),
            r <= nr,
            nr < i32::MAX,
            wf_shape(plan@),
            ids@.len() == nr,
            forall|q: int| 0 <= q < nr ==> #[trigger] ids@[q]@.len() == plan@[q].len(),
            forall|q: int| 0 <= q < nr ==> #[trigger] plan@[q].len() < i32::MAX,
            refs_known(plan@, team_ids@.len() as int),
            rows@.len() == r,
            forall|q: int| 0 <= q < r ==> #[trigger] rows@[q]@.len() == plan@[q].len(),
            forall|q: int, i: int|
                0 <= q < r && 0 <= i < plan@[q].len() ==> #[trigger] rows@[q]@[i] == stored_match(
                    plan@[q][i],
                    q,
                    i,
                    ids@[q]@[i],
                    if q + 1 < nr {
                        Some(ids@[q + 1]@[i / 2])
                    } else {
                        None
                    },
                    *bracket_id,
                    team_ids@,
                ),
        decreases nr - r,
    {
        let mut row: Vec<BracketMatch> = Vec::new();
        proof {
            assert(plan.rounds@[r as int]@ == plan@[r as int]);
            if r + 1 < nr {
                assert(pow2((nr - 1 - r) as nat) == 2 * pow2((nr - 1 - (r + 1)) as nat));
            }
        }
        let mut i: usize = 0;
        while i < plan.rounds[r].len()
            invariant
                r < nr,
                nr == plan.rounds@.len(),
                nr == plan@.len(),
                nr < i32::MAX,
                plan.rounds@[r as int]@ == plan@[r as int],
                plan@[r as int].len() < i32::MAX,
                ids@.len() == nr,
                forall|q: int| 0 <= q < nr ==> #[trigger] ids@[q]@.len() == plan@[q].len(),
                refs_known(plan@, team_ids@.len() as int),
                r + 1 < nr ==> plan@[r as int].len() == 2 * plan@[r + 1].len(),
                i <= plan@[r as int].len(),
                row@.len() == i,
                forall|j: int|
                    0 <= j < i ==> #[trigger] row@[j] == stored_match(
                        plan@[r as int][j],
                        r as int,
                        j,
                        ids@[r as int]@[j],
                        if r + 1 < nr {
                            Some(ids@[r + 1]@[j / 2])
                        } else {
                            None
                        },
                        *bracket_id,
                        team_ids@,
                    ),
            decreases plan@[r as int].len() - i,
        {
            let s = plan.rounds[r][i];
            proof {
                assert(plan@[r as int][i as int] == s);
            }
            let next = if r + 1 < nr {
                Some(ids[r + 1][i / 2].clone())
            } else {
                None
            };
            row.push(BracketMatch {
                id: ids[r][i].clone(),
                bracket_id: bracket_id.clone(),
                round_number: (r + 1) as i32,
                match_number: (i + 1) as i32,
                court_number: Some(s.court),
                team1_id: team_ref_exec(team_ids, s.team1),
                team2_id: team_ref_exec(team_ids, s.team2),
                team1_score: s.score1,
                team2_score: s.score2,
                winner_id: team_ref_exec(team_ids, s.winner),
                next_match_id: next,
                is_bye: s.is_bye,
            });
            i = i + 1;
        }
        rows.push(row);
        r = r + 1;
    }
    rows
}

} // verus!
