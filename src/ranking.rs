use crate::external::random_token;
use crate::models::PointQuotient;
use crate::standings::TeamRecord;
use vstd::prelude::*;

verus! {

/// Point quotient: infinite when points were scored and none conceded, 1
/// when neither, otherwise points for over points against.
pub open spec fn quotient_of(points_for: i32, points_against: i32) -> PointQuotient {
    if points_against > 0 {
        PointQuotient::Ratio { points_for, points_against }
    } else if points_for > 0 {
        PointQuotient::Infinite
    } else {
        PointQuotient::Ratio { points_for: 1, points_against: 1 }
    }
}

pub fn point_quotient(points_for: i32, points_against: i32) -> (q: PointQuotient)
    ensures
        q == quotient_of(points_for, points_against),
        quotient_wf(q),
{
    if points_against > 0 {
        PointQuotient::Ratio { points_for, points_against }
    } else if points_for > 0 {
        PointQuotient::Infinite
    } else {
        PointQuotient::Ratio { points_for: 1, points_against: 1 }
    }
}

pub open spec fn quotient_wf(q: PointQuotient) -> bool {
    q matches PointQuotient::Ratio { points_against, .. } ==> points_against > 0
}

/// `a` is at least `b`, comparing ratios by cross-multiplication.
pub open spec fn quotient_ge(a: PointQuotient, b: PointQuotient) -> bool {
    match (a, b) {
        (PointQuotient::Infinite, _) => true,
        (PointQuotient::Ratio { .. }, PointQuotient::Infinite) => false,
        (
            PointQuotient::Ratio { points_for: f1, points_against: a1 },
            PointQuotient::Ratio { points_for: f2, points_against: a2 },
        ) => f1 as int * a2 as int >= f2 as int * a1 as int,
    }
}

proof fn lemma_quotient_total(a: PointQuotient, b: PointQuotient)
    ensures
        quotient_ge(a, b) || quotient_ge(b, a),
{
}

proof fn lemma_quotient_trans(a: PointQuotient, b: PointQuotient, c: PointQuotient)
    requires
        quotient_wf(a),
        quotient_wf(b),
        quotient_wf(c),
        quotient_ge(a, b),
        quotient_ge(b, c),
    ensures
        quotient_ge(a, c),
{
    match (a, b, c) {
        (
            PointQuotient::Ratio { points_for: f1, points_against: a1 },
            PointQuotient::Ratio { points_for: f2, points_against: a2 },
            PointQuotient::Ratio { points_for: f3, points_against: a3 },
        ) => {
            let (f1, a1, f2, a2, f3, a3) = (f1 as int, a1 as int, f2 as int, a2 as int, f3 as int, a3 as int);
            assert(f1 * a3 >= f3 * a1) by (nonlinear_arith)
                requires
                    f1 * a2 >= f2 * a1,
                    f2 * a3 >= f3 * a2,
                    a1 > 0,
                    a2 > 0,
                    a3 > 0,
            {
                assert(f1 * a2 * a3 >= f2 * a1 * a3);
                assert(f2 * a3 * a1 >= f3 * a2 * a1);
                assert(a2 * (f1 * a3) >= a2 * (f3 * a1));
            }
        },
        _ => {},
    }
}

fn quotient_at_least(a: PointQuotient, b: PointQuotient) -> (r: bool)
    ensures
        r == quotient_ge(a, b),
{
    match (a, b) {
        (PointQuotient::Infinite, _) => true,
        (PointQuotient::Ratio { .. }, PointQuotient::Infinite) => false,
        (
            PointQuotient::Ratio { points_for: f1, points_against: a1 },
            PointQuotient::Ratio { points_for: f2, points_against: a2 },
        ) => {
            let (x1, y2, x2, y1) = (f1 as i64, a2 as i64, f2 as i64, a1 as i64);
            proof {
                lemma_i32_product(x1, y2);
                lemma_i32_product(x2, y1);
            }
            x1 * y2 >= x2 * y1
        },
    }
}

proof fn lemma_i32_product(x: i64, y: i64)
    requires
        i32::MIN <= x <= i32::MAX,
        i32::MIN <= y <= i32::MAX,
    ensures
        i64::MIN <= x * y <= i64::MAX,
{
    assert(-0x4000_0000_0000_0000 <= x * y <= 0x4000_0000_0000_0000) by (nonlinear_arith)
        requires
            -0x8000_0000 <= x <= 0x7fff_ffff,
            -0x8000_0000 <= y <= 0x7fff_ffff,
    ;
}

/// The criteria a team is ranked by, compared in field order, each
/// descending: wins, three integer tiebreaks, the point quotient, and a
/// random token as the tie of last resort.
#[derive(Debug, Clone, Copy, PartialEq, Eq, Structural)]
pub struct RankKey {
    pub wins: i128,
    pub first: i128,
    pub second: i128,
    pub third: i128,
    pub quotient: PointQuotient,
    pub token: u64,
}

/// `a` ranks at or above `b`.
pub open spec fn key_ge(a: RankKey, b: RankKey) -> bool {
    if a.wins != b.wins {
        a.wins > b.wins
    } else if a.first != b.first {
        a.first > b.first
    } else if a.second != b.second {
        a.second > b.second
    } else if a.third != b.third {
        a.third > b.third
    } else if !(quotient_ge(a.quotient, b.quotient) && quotient_ge(b.quotient, a.quotient)) {
        quotient_ge(a.quotient, b.quotient)
    } else {
        a.token >= b.token
    }
}

pub open spec fn keys_wf(keys: Seq<RankKey>) -> bool {
    forall|k: int| 0 <= k < keys.len() ==> quotient_wf(#[trigger] keys[k].quotient)
}

pub proof fn lemma_key_total(a: RankKey, b: RankKey)
    ensures
        key_ge(a, b) || key_ge(b, a),
{
    lemma_quotient_total(a.quotient, b.quotient);
}

pub proof fn lemma_key_trans(a: RankKey, b: RankKey, c: RankKey)
    requires
        quotient_wf(a.quotient),
        quotient_wf(b.quotient),
        quotient_wf(c.quotient),
        key_ge(a, b),
        key_ge(b, c),
    ensures
        key_ge(a, c),
{
    lemma_quotient_total(a.quotient, b.quotient);
    lemma_quotient_total(b.quotient, c.quotient);
    lemma_quotient_total(a.quotient, c.quotient);
    if quotient_ge(a.quotient, b.quotient) && quotient_ge(b.quotient, c.quotient) {
        lemma_quotient_trans(a.quotient, b.quotient, c.quotient);
    }
    if quotient_ge(b.quotient, a.quotient) && quotient_ge(c.quotient, b.quotient) {
        lemma_quotient_trans(c.quotient, b.quotient, a.quotient);
    }
    if quotient_ge(b.quotient, a.quotient) && quotient_ge(a.quotient, c.quotient) {
        lemma_quotient_trans(b.quotient, a.quotient, c.quotient);
    }
    if quotient_ge(c.quotient, a.quotient) && quotient_ge(a.quotient, b.quotient) {
        lemma_quotient_trans(c.quotient, a.quotient, b.quotient);
    }
    if quotient_ge(b.quotient, c.quotient) && quotient_ge(c.quotient, a.quotient) {
        lemma_quotient_trans(b.quotient, c.quotient, a.quotient);
    }
    if quotient_ge(a.quotient, c.quotient) && quotient_ge(c.quotient, b.quotient) {
        lemma_quotient_trans(a.quotient, c.quotient, b.quotient);
    }
}

pub fn ranks_at_least(a: &RankKey, b: &RankKey) -> (r: bool)
    ensures
        r == key_ge(*a, *b),
{
    if a.wins != b.wins {
        a.wins > b.wins
    } else if a.first != b.first {
        a.first > b.first
    } else if a.second != b.second {
        a.second > b.second
    } else if a.third != b.third {
        a.third > b.third
    } else {
        let ab = quotient_at_least(a.quotient, b.quotient);
        let ba = quotient_at_least(b.quotient, a.quotient);
        if !(ab && ba) {
            ab
        } else {
            a.token >= b.token
        }
    }
}

/// `s` lists each of `0..n` exactly once.
pub open spec fn is_permutation(s: Seq<usize>, n: int) -> bool {
    &&& s.len() == n
    &&& forall|k: int| 0 <= k < s.len() ==> #[trigger] s[k] < n
    &&& forall|p: int, q: int| 0 <= p < s.len() && 0 <= q < s.len() && p != q ==> s[p] != s[q]
}

/// `order` lists teams from the best ranked down.
pub open spec fn ranked_order(keys: Seq<RankKey>, order: Seq<usize>) -> bool {
    &&& is_permutation(order, keys.len() as int)
    &&& forall|p: int, q: int|
        0 <= p < q < order.len() ==> key_ge(keys[#[trigger] order[p] as int], keys[#[trigger] order[q] as int])
}

/// `0, 1, ..., n - 1`.
pub open spec fn all_teams(n: int) -> Seq<usize> {
    Seq::new(n as nat, |k: int| k as usize)
}

/// Orders team indices from the best ranked down (selection sort).
#[verifier::rlimit(40)]
pub fn order_by_rank(keys: &Vec<RankKey>) -> (order: Vec<usize>)
    requires
        keys_wf(keys@),
    ensures
        ranked_order(keys@, order@),
        order@.to_multiset() == all_teams(keys@.len() as int).to_multiset(),
{
    let n = keys.len();
    let mut order: Vec<usize> = Vec::new();
    let mut k: usize = 0;
    while k < n
        invariant
            k <= n,
            n == keys@.len(),
            order@ == all_teams(k as int),
        decreases n - k,
    {
        order.push(k);
        k = k + 1;
        proof {
            assert(order@ =~= all_teams(k as int));
        }
    }
    let mut i: usize = 0;
    while i < n
        invariant
            n == keys@.len(),
            keys_wf(keys@),
            i <= n,
            is_permutation(order@, n as int),
            order@.to_multiset() == all_teams(n as int).to_multiset(),
            forall|p: int, q: int|
                0 <= p < q < i ==> key_ge(keys@[#[trigger] order@[p] as int], keys@[#[trigger] order@[q] as int]),
            forall|p: int, q: int|
                0 <= p < i <= q < n ==> key_ge(keys@[#[trigger] order@[p] as int], keys@[#[trigger] order@[q] as int]),
        decreases n - i,
    {
        let mut best: usize = i;
        let mut j: usize = i + 1;
        while j < n
            invariant
                n == keys@.len(),
                keys_wf(keys@),
                is_permutation(order@, n as int),
                i <= best < n,
                i < j <= n,
                forall|q: int| i <= q < j ==> key_ge(keys@[order@[best as int] as int], keys@[#[trigger] order@[q] as int]),
            decreases n - j,
        {
            if !ranks_at_least(&keys[order[best]], &keys[order[j]]) {
                proof {
                    lemma_key_total(keys@[order@[best as int] as int], keys@[order@[j as int] as int]);
                    assert forall|q: int| i <= q < j + 1 implies key_ge(keys@[order@[j as int] as int], keys@[#[trigger] order@[q] as int]) by {
                        if q < j {
                            lemma_key_trans(
                                keys@[order@[j as int] as int],
                                keys@[order@[best as int] as int],
                                keys@[order@[q] as int],
                            );
                        } else {
                            lemma_key_total(keys@[order@[q] as int], keys@[order@[q] as int]);
                        }
                    }
                }
                best = j;
            }
            j = j + 1;
        }
        let ghost before = order@;
        let a = order[i];
        let b = order[best];
        order.set(i, b);
        order.set(best, a);
        proof {
            assert(order@ == before.update(i as int, b).update(best as int, a));
            lemma_swap_multiset(before, i as int, best as int);
            assert forall|p: int, q: int| 0 <= p < q < i + 1 implies key_ge(keys@[#[trigger] order@[p] as int], keys@[#[trigger] order@[q] as int]) by {
                if q == i {
                    assert(order@[q] == before[best as int]);
                    assert(order@[p] == before[p]);
                }
            }
            assert forall|p: int, q: int| 0 <= p < i + 1 <= q < n implies key_ge(keys@[#[trigger] order@[p] as int], keys@[#[trigger] order@[q] as int]) by {
                if p == i {
                    if q == best {
                        assert(order@[q] == before[i as int]);
                    } else {
                        assert(order@[q] == before[q]);
                    }
                } else {
                    if q == best {
                        assert(order@[q] == before[i as int]);
                    }
                }
            }
        }
        i = i + 1;
    }
    order
}

proof fn lemma_swap_multiset(s: Seq<usize>, i: int, j: int)
    requires
        0 <= i < s.len(),
        0 <= j < s.len(),
    ensures
        s.update(i, s[j]).update(j, s[i]).to_multiset() == s.to_multiset(),
{
    broadcast use vstd::seq_lib::to_multiset_update;
    broadcast use vstd::multiset::group_multiset_axioms;

    let s1 = s.update(i, s[j]);
    if i == j {
        assert(s.update(i, s[j]).update(j, s[i]) =~= s);
    } else {
        assert(s1[j] == s[j]);
        assert(s1.to_multiset() == s.to_multiset().insert(s[j]).remove(s[i]));
        assert(s1.update(j, s[i]).to_multiset() == s1.to_multiset().insert(s[i]).remove(s[j]));
        assert(s.to_multiset().count(s[i]) > 0) by {
            broadcast use vstd::seq_lib::group_to_multiset_ensures;

            assert(s.contains(s[i]));
        }
        assert(s1.update(j, s[i]).to_multiset() =~= s.to_multiset());
    }
}

/// Dense 1-based ranks from an order: the team at position `p` gets `p + 1`.
pub fn ranks_from_order(order: &Vec<usize>) -> (ranks: Vec<i32>)
    requires
        is_permutation(order@, order@.len() as int),
        order@.len() < i32::MAX,
    ensures
        ranks@.len() == order@.len(),
        forall|p: int| 0 <= p < order@.len() ==> ranks@[#[trigger] order@[p] as int] == p + 1,
{
    let n = order.len();
    let mut ranks: Vec<i32> = Vec::new();
    let mut k: usize = 0;
    while k < n
        invariant
            k <= n,
            ranks@.len() == k,
        decreases n - k,
    {
        ranks.push(0);
        k = k + 1;
    }
    let mut p: usize = 0;
    while p < n
        invariant
            n == order@.len(),
            n < i32::MAX,
            is_permutation(order@, n as int),
            p <= n,
            ranks@.len() == n,
            forall|q: int| 0 <= q < p ==> ranks@[#[trigger] order@[q] as int] == q + 1,
        decreases n - p,
    {
        ranks.set(order[p], (p + 1) as i32);
        p = p + 1;
    }
    ranks
}


/// Sum, over the first `k` history records that involve team `t`, of the
/// value of `t`'s opponent in that record.
pub open spec fn opponent_sum(history: Seq<(usize, usize)>, values: Seq<int>, t: usize, k: int) -> int
    decreases k,
{
    if k <= 0 {
        0
    } else {
        let (a, b) = history[k - 1];
        opponent_sum(history, values, t, k - 1) + if a == t {
            values[b as int]
        } else if b == t {
            values[a as int]
        } else {
            0
        }
    }
}

pub open spec fn wins_of(records: Seq<TeamRecord>) -> Seq<int> {
    Seq::new(records.len(), |t: int| records[t].wins as int)
}

/// Buchholz score: the sum of the opponents' wins.
pub open spec fn buchholz_of(records: Seq<TeamRecord>, history: Seq<(usize, usize)>, t: usize) -> int {
    opponent_sum(history, wins_of(records), t, history.len() as int)
}

/// Fine Buchholz score: the sum of the opponents' Buchholz scores.
pub open spec fn fine_buchholz_of(records: Seq<TeamRecord>, history: Seq<(usize, usize)>, t: usize) -> int {
    opponent_sum(history, Seq::new(records.len(), |u: int| buchholz_of(records, history, u as usize)), t, history.len() as int)
}

pub open spec fn history_within(history: Seq<(usize, usize)>, n: int) -> bool {
    forall|k: int| 0 <= k < history.len() ==> (#[trigger] history[k]).0 < n && history[k].1 < n
}

pub open spec fn as_ints(v: Seq<i128>) -> Seq<int> {
    Seq::new(v.len(), |t: int| v[t] as int)
}

/// Largest value `opponent_totals` sums.
pub const VALUE_BOUND: i128 = 0x8000_0000_0000_0000;

/// Largest pairing history the tiebreak sums accept.
pub const HISTORY_BOUND: usize = 0xffff_ffff;

proof fn lemma_bound_step(k: int, bound: int)
    requires
        0 <= k < 0x1_0000_0000,
        0 <= bound <= 0x8000_0000_0000_0000,
    ensures
        (k + 1) * bound == k * bound + bound,
        0 <= k * bound,
        (k + 1) * bound <= 0x1_0000_0000 * 0x8000_0000_0000_0000,
{
    assert((k + 1) * bound == k * bound + bound) by (nonlinear_arith);
    assert(0 <= k * bound) by (nonlinear_arith)
        requires
            0 <= k,
            0 <= bound,
    ;
    assert((k + 1) * bound <= 0x1_0000_0000 * 0x8000_0000_0000_0000) by (nonlinear_arith)
        requires
            0 <= k + 1 <= 0x1_0000_0000,
            0 <= bound <= 0x8000_0000_0000_0000,
    ;
}

/// For each team, the sum of its opponents' values over the history.
pub fn opponent_totals(history: &Vec<(usize, usize)>, values: &Vec<i128>, bound: i128) -> (totals: Vec<i128>)
    requires
        history_within(history@, values@.len() as int),
        history@.len() <= HISTORY_BOUND,
        0 <= bound <= VALUE_BOUND,
        forall|t: int| 0 <= t < values@.len() ==> 0 <= #[trigger] values@[t] <= bound,
    ensures
        totals@.len() == values@.len(),
        forall|t: int|
            0 <= t < values@.len() ==> #[trigger] totals@[t] == opponent_sum(history@, as_ints(values@), t as usize, history@.len() as int),
        forall|t: int| 0 <= t < values@.len() ==> 0 <= #[trigger] totals@[t] <= history@.len() * bound,
{
    let n = values.len();
    let mut totals: Vec<i128> = Vec::new();
    let mut t: usize = 0;
    while t < n
        invariant
            t <= n,
            totals@.len() == t,
            forall|u: int| 0 <= u < t ==> #[trigger] totals@[u] == 0,
        decreases n - t,
    {
        totals.push(0);
        t = t + 1;
    }
    let ghost vals = as_ints(values@);
    let mut k: usize = 0;
    while k < history.len()
        invariant
            n == values@.len(),
            vals == as_ints(values@),
            history_within(history@, n as int),
            history@.len() <= HISTORY_BOUND,
            0 <= bound <= VALUE_BOUND,
            forall|u: int| 0 <= u < n ==> 0 <= #[trigger] values@[u] <= bound,
            k <= history@.len(),
            totals@.len() == n,
            forall|u: int| 0 <= u < n ==> #[trigger] totals@[u] == opponent_sum(history@, vals, u as usize, k as int),
            forall|u: int| 0 <= u < n ==> 0 <= #[trigger] totals@[u] <= k * bound,
        decreases history@.len() - k,
    {
        let (a, b) = history[k];
        proof {
            lemma_bound_step(k as int, bound as int);
            assert(history@[k as int] == (a, b));
        }
        let ghost before = totals@;
        let ta = totals[a] + values[b];
        totals.set(a, ta);
        if b != a {
            let tb = totals[b] + values[a];
            totals.set(b, tb);
        }
        proof {
            assert forall|u: int| 0 <= u < n implies #[trigger] totals@[u] == opponent_sum(history@, vals, u as usize, k + 1) by {
                assert(totals@[u] == before[u] + if a == u as usize {
                    vals[b as int]
                } else if b == u as usize {
                    vals[a as int]
                } else {
                    0
                });
            }
            assert forall|u: int| 0 <= u < n implies 0 <= #[trigger] totals@[u] <= (k + 1) * bound by {
                assert(totals@[u] == before[u] || totals@[u] == before[u] + values@[b as int] || totals@[u] == before[u]
                    + values@[a as int]);
            }
        }
        k = k + 1;
    }
    totals
}

/// Rank key of the Buchholz chain: wins, Buchholz, fine Buchholz, differential, token.
pub open spec fn buchholz_key(r: TeamRecord, buchholz: int, fine: int, token: u64) -> RankKey {
    RankKey {
        wins: r.wins as i128,
        first: buchholz as i128,
        second: fine as i128,
        third: r.differential as i128,
        quotient: PointQuotient::Ratio { points_for: 1, points_against: 1 },
        token,
    }
}

/// Rank key of the point-quotient chain: wins, differential, quotient, token.
pub open spec fn quotient_key(r: TeamRecord, token: u64) -> RankKey {
    RankKey {
        wins: r.wins as i128,
        first: r.differential as i128,
        second: 0,
        third: 0,
        quotient: quotient_of(r.points_for, r.points_against),
        token,
    }
}

/// Recomputed tiebreaks and ranks: `order` lists teams best first and
/// `ranks[order[p]] == p + 1`.
pub struct Ranking {
    pub buchholz: Vec<i128>,
    pub fine_buchholz: Vec<i128>,
    pub quotients: Vec<PointQuotient>,
    pub order: Vec<usize>,
    pub ranks: Vec<i32>,
}

pub open spec fn ranks_follow(keys: Seq<RankKey>, order: Seq<usize>, ranks: Seq<i32>) -> bool {
    &&& ranked_order(keys, order)
    &&& ranks.len() == keys.len()
    &&& forall|p: int| 0 <= p < order.len() ==> ranks[#[trigger] order[p] as int] == p + 1
}

pub open spec fn buchholz_ranked(records: Seq<TeamRecord>, history: Seq<(usize, usize)>, tokens: Seq<u64>, r: Ranking) -> bool {
    let n = records.len();
    &&& r.buchholz@.len() == n
    &&& r.fine_buchholz@.len() == n
    &&& forall|t: int| 0 <= t < n ==> #[trigger] r.buchholz@[t] == buchholz_of(records, history, t as usize)
    &&& forall|t: int| 0 <= t < n ==> #[trigger] r.fine_buchholz@[t] == fine_buchholz_of(records, history, t as usize)
    &&& ranks_follow(
        Seq::new(n, |t: int| buchholz_key(records[t], r.buchholz@[t] as int, r.fine_buchholz@[t] as int, tokens[t])),
        r.order@,
        r.ranks@,
    )
}

pub open spec fn quotient_ranked(records: Seq<TeamRecord>, tokens: Seq<u64>, r: Ranking) -> bool {
    ranks_follow(Seq::new(records.len(), |t: int| quotient_key(records[t], tokens[t])), r.order@, r.ranks@)
}

pub open spec fn records_wf(records: Seq<TeamRecord>) -> bool {
    forall|t: int| 0 <= t < records.len() ==> 0 <= #[trigger] records[t].wins
}

/// Buchholz chain with the given tie tokens.
pub fn rank_by_buchholz(records: &Vec<TeamRecord>, history: &Vec<(usize, usize)>, tokens: &Vec<u64>) -> (r: Ranking)
    requires
        records_wf(records@),
        tokens@.len() == records@.len(),
        records@.len() < i32::MAX,
        history_within(history@, records@.len() as int),
        history@.len() <= HISTORY_BOUND,
    ensures
        buchholz_ranked(records@, history@, tokens@, r),
{
    let n = records.len();
    let mut wins: Vec<i128> = Vec::new();
    let mut t: usize = 0;
    while t < n
        invariant
            n == records@.len(),
            records_wf(records@),
            t <= n,
            wins@.len() == t,
            forall|u: int| 0 <= u < t ==> #[trigger] wins@[u] == records@[u].wins as i128,
        decreases n - t,
    {
        wins.push(records[t].wins as i128);
        t = t + 1;
    }
    proof {
        assert(as_ints(wins@) =~= wins_of(records@));
    }
    let buchholz = opponent_totals(history, &wins, 0x8000_0000);
    proof {
        assert forall|u: int| 0 <= u < n implies 0 <= #[trigger] buchholz@[u] <= VALUE_BOUND by {
            assert(history@.len() * 0x8000_0000 <= 0xffff_ffff * 0x8000_0000);
        }
        assert(as_ints(buchholz@) =~= Seq::new(n as nat, |u: int| buchholz_of(records@, history@, u as usize)));
    }
    let fine = opponent_totals(history, &buchholz, VALUE_BOUND);
    let mut keys: Vec<RankKey> = Vec::new();
    let mut quotients: Vec<PointQuotient> = Vec::new();
    let ghost kseq = Seq::new(n as nat, |u: int| buchholz_key(records@[u], buchholz@[u] as int, fine@[u] as int, tokens@[u]));
    let mut t: usize = 0;
    while t < n
        invariant
            n == records@.len(),
            n == tokens@.len(),
            buchholz@.len() == n,
            fine@.len() == n,
            kseq == Seq::new(n as nat, |u: int| buchholz_key(records@[u], buchholz@[u] as int, fine@[u] as int, tokens@[u])),
            t <= n,
            keys@.len() == t,
            quotients@.len() == t,
            forall|u: int| 0 <= u < t ==> #[trigger] keys@[u] == kseq[u],
            forall|u: int| 0 <= u < t ==> #[trigger] quotients@[u] == quotient_of(records@[u].points_for, records@[u].points_against),
        decreases n - t,
    {
        let rec = records[t];
        keys.push(
            RankKey {
                wins: rec.wins as i128,
                first: buchholz[t],
                second: fine[t],
                third: rec.differential as i128,
                quotient: PointQuotient::Ratio { points_for: 1, points_against: 1 },
                token: tokens[t],
            },
        );
        quotients.push(point_quotient(rec.points_for, rec.points_against));
        t = t + 1;
    }
    proof {
        assert(keys@ =~= kseq);
    }
    let order = order_by_rank(&keys);
    let ranks = ranks_from_order(&order);
    Ranking { buchholz, fine_buchholz: fine, quotients, order, ranks }
}

/// Point-quotient chain with the given tie tokens.
pub fn rank_by_point_quotient(records: &Vec<TeamRecord>, tokens: &Vec<u64>) -> (r: Ranking)
    requires
        tokens@.len() == records@.len(),
        records@.len() < i32::MAX,
    ensures
        r.quotients@.len() == records@.len(),
        forall|t: int| 0 <= t < records@.len() ==> #[trigger] r.quotients@[t] == quotient_of(records@[t].points_for, records@[t].points_against),
        quotient_ranked(records@, tokens@, r),
{
    let n = records.len();
    let ghost kseq = Seq::new(n as nat, |u: int| quotient_key(records@[u], tokens@[u]));
    let mut keys: Vec<RankKey> = Vec::new();
    let mut quotients: Vec<PointQuotient> = Vec::new();
    let mut t: usize = 0;
    while t < n
        invariant
            n == records@.len(),
            n == tokens@.len(),
            kseq == Seq::new(n as nat, |u: int| quotient_key(records@[u], tokens@[u])),
            t <= n,
            keys@.len() == t,
            quotients@.len() == t,
            forall|u: int| 0 <= u < t ==> #[trigger] keys@[u] == kseq[u],
            forall|u: int| 0 <= u < t ==> #[trigger] quotients@[u] == quotient_of(records@[u].points_for, records@[u].points_against),
        decreases n - t,
    {
        let rec = records[t];
        let q = point_quotient(rec.points_for, rec.points_against);
        keys.push(RankKey { wins: rec.wins as i128, first: rec.differential as i128, second: 0, third: 0, quotient: q, token: tokens[t] });
        quotients.push(q);
        t = t + 1;
    }
    proof {
        assert(keys@ =~= kseq);
    }
    let order = order_by_rank(&keys);
    let ranks = ranks_from_order(&order);
    Ranking { buchholz: Vec::new(), fine_buchholz: Vec::new(), quotients, order, ranks }
}

fn draw_tokens(n: usize) -> (tokens: Vec<u64>)
    ensures
        tokens@.len() == n,
{
    let mut tokens: Vec<u64> = Vec::new();
    let mut t: usize = 0;
    while t < n
        invariant
            t <= n,
            tokens@.len() == t,
        decreases n - t,
    {
        tokens.push(random_token());
        t = t + 1;
    }
    tokens
}

/// Buchholz chain with freshly drawn tie tokens: exact ties are broken by
/// lot, anew on every call.
pub fn calculate_buchholz_and_ranks(records: &Vec<TeamRecord>, history: &Vec<(usize, usize)>) -> (r: Ranking)
    requires
        records_wf(records@),
        records@.len() < i32::MAX,
        history_within(history@, records@.len() as int),
        history@.len() <= HISTORY_BOUND,
    ensures
        exists|tokens: Seq<u64>| tokens.len() == records@.len() && buchholz_ranked(records@, history@, tokens, r),
{
    let tokens = draw_tokens(records.len());
    rank_by_buchholz(records, history, &tokens)
}

/// Point-quotient chain with freshly drawn tie tokens.
pub fn calculate_point_quotient_ranks(records: &Vec<TeamRecord>) -> (r: Ranking)
    requires
        records@.len() < i32::MAX,
    ensures
        r.quotients@.len() == records@.len(),
        forall|t: int| 0 <= t < records@.len() ==> #[trigger] r.quotients@[t] == quotient_of(records@[t].points_for, records@[t].points_against),
        exists|tokens: Seq<u64>| tokens.len() == records@.len() && quotient_ranked(records@, tokens, r),
{
    let tokens = draw_tokens(records.len());
    rank_by_point_quotient(records, &tokens)
}

} // verus!
