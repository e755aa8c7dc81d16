use petanque_engine::models::PointQuotient;
use petanque_engine::ranking::{
    calculate_buchholz_and_ranks, calculate_point_quotient_ranks, opponent_totals, order_by_rank, rank_by_buchholz,
    rank_by_point_quotient, ranks_at_least, RankKey,
};
use petanque_engine::standings::TeamRecord;

fn record(wins: i32, losses: i32, points_for: i32, points_against: i32) -> TeamRecord {
    TeamRecord { wins, losses, points_for, points_against, differential: points_for - points_against }
}

fn key(wins: i128, q: PointQuotient, token: u64) -> RankKey {
    RankKey { wins, first: 0, second: 0, third: 0, quotient: q, token }
}

#[test]
fn buchholz_sums_opponent_wins() {
    let recs = vec![record(2, 0, 26, 10), record(1, 1, 20, 20), record(1, 1, 20, 21), record(0, 2, 10, 25)];
    let history = vec![(0, 1), (2, 3), (0, 2), (1, 3)];
    let r = rank_by_buchholz(&recs, &history, &vec![0, 0, 0, 0]);
    assert_eq!(r.buchholz, vec![2, 2, 2, 2]);
    assert_eq!(r.fine_buchholz, vec![4, 4, 4, 4]);
    assert_eq!(r.order, vec![0, 1, 2, 3]);
    assert_eq!(r.ranks, vec![1, 2, 3, 4]);
}

#[test]
fn buchholz_breaks_ties_between_equal_wins() {
    let recs = vec![record(1, 1, 20, 20), record(1, 1, 20, 20), record(2, 0, 26, 0), record(0, 2, 0, 26)];
    let history = vec![(0, 2), (1, 3), (0, 3), (1, 2)];
    let r = rank_by_buchholz(&recs, &history, &vec![0, 0, 0, 0]);
    assert_eq!(r.buchholz, vec![2, 2, 2, 2]);
    let history2 = vec![(0, 2), (1, 3)];
    let r2 = rank_by_buchholz(&recs, &history2, &vec![0, 0, 0, 0]);
    assert_eq!(r2.buchholz, vec![2, 0, 1, 1]);
    assert_eq!(r2.ranks, vec![2, 3, 1, 4]);
}

#[test]
fn tokens_decide_exact_ties() {
    let recs = vec![record(1, 0, 13, 7), record(1, 0, 13, 7)];
    let r = rank_by_point_quotient(&recs, &vec![5, 9]);
    assert_eq!(r.ranks, vec![2, 1]);
    let r = rank_by_point_quotient(&recs, &vec![9, 5]);
    assert_eq!(r.ranks, vec![1, 2]);
}

#[test]
fn quotient_ranks_after_wins_and_differential() {
    let recs = vec![record(1, 1, 20, 10), record(1, 1, 30, 20), record(1, 1, 13, 3), record(2, 0, 26, 20)];
    let r = rank_by_point_quotient(&recs, &vec![0, 0, 0, 0]);
    assert_eq!(r.ranks, vec![3, 4, 2, 1]);
    assert_eq!(r.quotients[0], PointQuotient::Ratio { points_for: 20, points_against: 10 });
}

#[test]
fn infinite_quotient_ranks_first() {
    let recs = vec![record(1, 0, 13, 1), record(1, 0, 12, 0)];
    let r = rank_by_point_quotient(&recs, &vec![0, 0]);
    assert_eq!(r.quotients[1], PointQuotient::Infinite);
    assert_eq!(r.ranks, vec![2, 1]);
}

#[test]
fn ranks_are_dense() {
    let recs: Vec<TeamRecord> = (0..9).map(|i| record(i % 4, 0, 13 * i, 7)).collect();
    let history: Vec<(usize, usize)> = (0..8).map(|i| (i, i + 1)).collect();
    let r = calculate_buchholz_and_ranks(&recs, &history);
    let mut ranks = r.ranks.clone();
    ranks.sort();
    assert_eq!(ranks, (1..=9).collect::<Vec<i32>>());
    let r = calculate_point_quotient_ranks(&recs);
    let mut ranks = r.ranks.clone();
    ranks.sort();
    assert_eq!(ranks, (1..=9).collect::<Vec<i32>>());
}

#[test]
fn order_sorts_descending() {
    let keys = vec![
        key(1, PointQuotient::Ratio { points_for: 1, points_against: 2 }, 0),
        key(3, PointQuotient::Infinite, 0),
        key(1, PointQuotient::Ratio { points_for: 2, points_against: 3 }, 0),
    ];
    assert_eq!(order_by_rank(&keys), vec![1, 2, 0]);
    assert!(ranks_at_least(&keys[2], &keys[0]));
    assert!(!ranks_at_least(&keys[0], &keys[2]));
}

#[test]
fn opponent_totals_count_self_pairing_once() {
    let t = opponent_totals(&vec![(0, 0), (0, 1)], &vec![3, 4], 4);
    assert_eq!(t, vec![7, 3]);
}
