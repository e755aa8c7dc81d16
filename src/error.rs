use vstd::prelude::*;

verus! {

/// Errors surfaced by the engine; none of them is retried internally.
#[derive(Debug, Clone, Copy, PartialEq, Eq, Structural)]
pub enum EngineError {
    /// The tournament has no registered team.
    EmptyTeamList,
    /// Fewer teams than the operation needs (two for a round robin or a bracket).
    TooFewTeams,
    /// The pairing discipline is not one the engine knows.
    UnknownDiscipline,
    /// A round was requested while the previous one is still open.
    PreviousRoundIncomplete,
    /// Pool play has exactly three rounds.
    PoolPlayRoundLimit,
    /// The discipline must be generated one round at a time.
    RoundByRoundOnly,
    /// Every qualifying round has already been generated.
    AllRoundsGenerated,
    /// The number of courts cannot change once rounds exist.
    LockedCourts,
    /// The number of qualifying rounds cannot change once rounds exist.
    LockedQualifyingRounds,
    /// The pairing discipline cannot change once rounds exist.
    LockedPairingMethod,
    /// Teams cannot be deleted once qualifying rounds exist.
    RoundsExist,
    /// Rounds or brackets cannot be deleted once a score is recorded.
    ScoresRecorded,
    /// The tournament holds its maximum number of teams.
    TeamLimit { max: i64 },
    /// A running total would leave the range of its counter.
    ScoreOutOfRange,
    /// A match cannot end on equal scores.
    TiedScore,
    /// An id or index that names nothing.
    NotFound,
}

} // verus!
