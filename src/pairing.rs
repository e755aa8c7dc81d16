use crate::bracket::court_for;
use crate::error::EngineError;
use crate::external::shuffle;
use crate::models::{PointQuotient, Team};
use crate::ranking::{all_teams, order_by_rank, ranked_order, RankKey};
use crate::standings::{group_upto, pool_group, PoolGroup, TeamRecord};
use vstd::prelude::*;

verus! {

/// A team and its opponent, or `None` for a bye; teams are indices into the
/// tournament's team list.
pub type Pairing = (usize, Option<usize>);

/// The two teams met in an earlier round, in either order.
pub open spec fn played(history: Seq<(usize, usize)>, a: usize, b: usize) -> bool {
    exists|k: int| 0 <= k < history.len() && (#[trigger] history[k] == (a, b) || history[k] == (b, a))
}

/// Both teams name the same non-empty region.
pub open spec fn same_region(t1: Team, t2: Team) -> bool {
    match (t1.region, t2.region) {
        (Some(r1), Some(r2)) => r1@.len() > 0 && r2@.len() > 0 && r1@ == r2@,
        _ => false,
    }
}

pub fn have_played(history: &Vec<(usize, usize)>, a: usize, b: usize) -> (r: bool)
    ensures
        r == played(history@, a, b),
{
    let mut k: usize = 0;
    while k < history.len()
        invariant
            k <= history@.len(),
            forall|q: int| 0 <= q < k ==> !(#[trigger] history@[q] == (a, b) || history@[q] == (b, a)),
        decreases history@.len() - k,
    {
        let (x, y) = history[k];
        if (x == a && y == b) || (x == b && y == a) {
            proof {
                assert(history@[k as int] == (a, b) || history@[k as int] == (b, a));
            }
            return true;
        }
        k = k + 1;
    }
    false
}

pub fn regions_match(t1: &Team, t2: &Team) -> (r: bool)
    ensures
        r == same_region(*t1, *t2),
{
    match (&t1.region, &t2.region) {
        (Some(r1), Some(r2)) => {
            let empty = String::new();
            proof {
                if r1@.len() == 0 {
                    assert(r1@ =~= empty@);
                }
                if r2@.len() == 0 {
                    assert(r2@ =~= empty@);
                }
            }
            !(*r1 == empty) && !(*r2 == empty) && *r1 == *r2
        },
        _ => false,
    }
}

/// Pass 1 avoids rematches and same-region opponents, pass 2 only rematches,
/// pass 3 accepts any opponent.
pub open spec fn admissible(teams: Seq<Team>, history: Seq<(usize, usize)>, pass: int, a: usize, b: usize) -> bool {
    pass >= 3 || (!played(history, a, b) && (pass >= 2 || !same_region(teams[a as int], teams[b as int])))
}

/// The first position at or after `j` that is still free and admissible
/// against the team at position `i` in the given pass.
pub open spec fn first_fit(
    teams: Seq<Team>,
    history: Seq<(usize, usize)>,
    order: Seq<usize>,
    paired: Seq<bool>,
    pass: int,
    i: int,
    j: int,
) -> Option<int>
    decreases order.len() - j,
{
    if j >= order.len() {
        None
    } else if !paired[j] && admissible(teams, history, pass, order[i], order[j]) {
        Some(j)
    } else {
        first_fit(teams, history, order, paired, pass, i, j + 1)
    }
}

/// The opponent position chosen for position `i`: the first fit of the
/// strictest pass that finds one (pass 1 only with region avoidance).
pub open spec fn opponent(
    teams: Seq<Team>,
    history: Seq<(usize, usize)>,
    avoid_regions: bool,
    order: Seq<usize>,
    paired: Seq<bool>,
    i: int,
) -> Option<int> {
    let strict = if avoid_regions {
        first_fit(teams, history, order, paired, 1, i, i + 1)
    } else {
        None
    };
    let no_rematch = first_fit(teams, history, order, paired, 2, i, i + 1);
    if strict.is_some() {
        strict
    } else if no_rematch.is_some() {
        no_rematch
    } else {
        first_fit(teams, history, order, paired, 3, i, i + 1)
    }
}

/// Greedy pairing from position `i` on: each free team, in order, takes its
/// chosen opponent. Returns the pairs made and which positions end up paired.
pub open spec fn greedy(
    teams: Seq<Team>,
    history: Seq<(usize, usize)>,
    avoid_regions: bool,
    order: Seq<usize>,
    paired: Seq<bool>,
    i: int,
) -> (Seq<Pairing>, Seq<bool>)
    decreases order.len() - i,
{
    if i >= order.len() || i < 0 {
        (seq![], paired)
    } else if paired[i] {
        greedy(teams, history, avoid_regions, order, paired, i + 1)
    } else {
        match opponent(teams, history, avoid_regions, order, paired, i) {
            Some(j) => {
                let rest = greedy(teams, history, avoid_regions, order, paired.update(i, true).update(j, true), i + 1);
                (seq![(order[i], Some(order[j]))] + rest.0, rest.1)
            },
            None => greedy(teams, history, avoid_regions, order, paired, i + 1),
        }
    }
}

pub open spec fn none_paired(n: int) -> Seq<bool> {
    Seq::new(n as nat, |k: int| false)
}

pub open spec fn valid_order(teams: Seq<Team>, order: Seq<usize>) -> bool {
    forall|k: int| 0 <= k < order.len() ==> #[trigger] order[k] < teams.len()
}

fn find_fit(
    teams: &Vec<Team>,
    history: &Vec<(usize, usize)>,
    order: &Vec<usize>,
    paired: &Vec<bool>,
    pass: u8,
    i: usize,
) -> (r: Option<usize>)
    requires
        valid_order(teams@, order@),
        paired@.len() == order@.len(),
        i < order@.len(),
        1 <= pass <= 3,
    ensures
        r matches Some(j) ==> first_fit(teams@, history@, order@, paired@, pass as int, i as int, i + 1) == Some(j as int),
        r is None ==> first_fit(teams@, history@, order@, paired@, pass as int, i as int, i + 1) is None,
        r matches Some(j) ==> i < j < order@.len(),
{
    let n = order.len();
    let mut j: usize = i + 1;
    while j < n
        invariant
            valid_order(teams@, order@),
            paired@.len() == order@.len(),
            i < j <= order@.len(),
            n == order@.len(),
            1 <= pass <= 3,
            first_fit(teams@, history@, order@, paired@, pass as int, i as int, i + 1) == first_fit(
                teams@,
                history@,
                order@,
                paired@,
                pass as int,
                i as int,
                j as int,
            ),
        decreases order@.len() - j,
    {
        if !paired[j] {
            let a = order[i];
            let b = order[j];
            let ok = if pass >= 3 {
                true
            } else if have_played(history, a, b) {
                false
            } else if pass >= 2 {
                true
            } else {
                !regions_match(&teams[a], &teams[b])
            };
            if ok {
                return Some(j);
            }
        }
        j = j + 1;
    }
    None
}

/// Pairs the teams in `order` greedily, each free team taking the first
/// free later team under the strictest pass that finds one, and appends the
/// pairs to `pairings`. Returns which positions were paired.
#[verifier::rlimit(40)]
pub fn pair_teams_with_constraints(
    pairings: &mut Vec<Pairing>,
    order: &Vec<usize>,
    teams: &Vec<Team>,
    history: &Vec<(usize, usize)>,
    avoid_regions: bool,
) -> (paired: Vec<bool>)
    requires
        valid_order(teams@, order@),
    ensures
        ({
            let g = greedy(teams@, history@, avoid_regions, order@, none_paired(order@.len() as int), 0);
            &&& final(pairings)@ == old(pairings)@ + g.0
            &&& paired@ == g.1
        }),
        paired@.len() == order@.len(),
{
    let n = order.len();
    let mut paired: Vec<bool> = Vec::new();
    let mut k: usize = 0;
    while k < n
        invariant
            k <= n,
            n == order@.len(),
            paired@ == none_paired(k as int),
        decreases n - k,
    {
        paired.push(false);
        k = k + 1;
        proof {
            assert(paired@ =~= none_paired(k as int));
        }
    }
    let ghost g = greedy(teams@, history@, avoid_regions, order@, none_paired(n as int), 0);
    let ghost start = pairings@;
    let mut i: usize = 0;
    while i < n
        invariant
            valid_order(teams@, order@),
            n == order@.len(),
            i <= n,
            paired@.len() == n,
            ({
                let rest = greedy(teams@, history@, avoid_regions, order@, paired@, i as int);
                &&& pairings@ + rest.0 == start + g.0
                &&& rest.1 == g.1
            }),
        decreases n - i,
    {
        if !paired[i] {
            let ghost f1 = first_fit(teams@, history@, order@, paired@, 1, i as int, i + 1);
            let ghost f2 = first_fit(teams@, history@, order@, paired@, 2, i as int, i + 1);
            let ghost f3 = first_fit(teams@, history@, order@, paired@, 3, i as int, i + 1);
            let mut best: Option<usize> = None;
            if avoid_regions {
                best = find_fit(teams, history, order, &paired, 1, i);
            }
            proof {
                assert(best.is_some() == (avoid_regions && f1.is_some()));
                assert(best matches Some(j) ==> f1 == Some(j as int));
            }
            if best.is_none() {
                best = find_fit(teams, history, order, &paired, 2, i);
                proof {
                    assert(best.is_some() == f2.is_some());
                    assert(best matches Some(j) ==> f2 == Some(j as int));
                }
            }
            if best.is_none() {
                best = find_fit(teams, history, order, &paired, 3, i);
                proof {
                    assert(best.is_some() == f3.is_some());
                    assert(best matches Some(j) ==> f3 == Some(j as int));
                }
            }
            proof {
                let o = opponent(teams@, history@, avoid_regions, order@, paired@, i as int);
                assert(best.is_some() == o.is_some());
                assert(best matches Some(j) ==> o == Some(j as int));
            }
            match best {
                Some(j) => {
                    let ghost before = paired@;
                    pairings.push((order[i], Some(order[j])));
                    paired.set(i, true);
                    paired.set(j, true);
                    proof {
                        let rest = greedy(teams@, history@, avoid_regions, order@, before, i as int);
                        let tail = greedy(teams@, history@, avoid_regions, order@, paired@, i + 1);
                        assert(opponent(teams@, history@, avoid_regions, order@, before, i as int) == Some(j as int));
                        assert(paired@ == before.update(i as int, true).update(j as int, true));
                        assert(rest.0 == seq![(order@[i as int], Some(order@[j as int]))] + tail.0);
                        assert(pairings@ + tail.0 =~= start + g.0);
                    }
                },
                None => {
                    proof {
                        assert(opponent(teams@, history@, avoid_regions, order@, paired@, i as int).is_none());
                    }
                },
            }
        }
        i = i + 1;
    }
    proof {
        assert(pairings@ + seq![] =~= pairings@);
    }
    paired
}


/// The unpaired positions among the first `k` of `order`, each as a bye.
pub open spec fn byes_upto(order: Seq<usize>, paired: Seq<bool>, k: int) -> Seq<Pairing>
    decreases k,
{
    if k <= 0 {
        seq![]
    } else {
        let prev = byes_upto(order, paired, k - 1);
        if !paired[k - 1] {
            prev.push((order[k - 1], None))
        } else {
            prev
        }
    }
}

/// Greedy pairs of `order`, then a bye for whoever is left.
pub open spec fn pairs_with_byes(teams: Seq<Team>, history: Seq<(usize, usize)>, avoid_regions: bool, order: Seq<usize>) -> Seq<Pairing> {
    let g = greedy(teams, history, avoid_regions, order, none_paired(order.len() as int), 0);
    g.0 + byes_upto(order, g.1, order.len() as int)
}

/// Pairs `order` greedily and gives the team left over, if any, a bye.
pub fn pair_with_byes(order: &Vec<usize>, teams: &Vec<Team>, history: &Vec<(usize, usize)>, avoid_regions: bool) -> (pairings: Vec<Pairing>)
    requires
        valid_order(teams@, order@),
    ensures
        pairings@ == pairs_with_byes(teams@, history@, avoid_regions, order@),
{
    let mut pairings: Vec<Pairing> = Vec::new();
    let paired = pair_teams_with_constraints(&mut pairings, order, teams, history, avoid_regions);
    let ghost base = pairings@;
    let n = order.len();
    let mut p: usize = 0;
    while p < n
        invariant
            n == order@.len(),
            paired@.len() == n,
            p <= n,
            pairings@ == base + byes_upto(order@, paired@, p as int),
        decreases n - p,
    {
        if !paired[p] {
            pairings.push((order[p], None));
        }
        p = p + 1;
    }
    pairings
}

/// How many entries of `p` name team `t`.
pub open spec fn entries_of(p: Seq<Pairing>, t: usize) -> int
    decreases p.len(),
{
    if p.len() == 0 {
        0
    } else {
        let last = p.last();
        entries_of(p.drop_last(), t) + (if last.0 == t {
            1int
        } else {
            0
        }) + (if last.1 == Some(t) {
            1int
        } else {
            0
        })
    }
}

proof fn lemma_entries_concat(a: Seq<Pairing>, b: Seq<Pairing>, t: usize)
    ensures
        entries_of(a + b, t) == entries_of(a, t) + entries_of(b, t),
    decreases b.len(),
{
    if b.len() == 0 {
        assert(a + b =~= a);
    } else {
        assert((a + b).drop_last() =~= a + b.drop_last());
        lemma_entries_concat(a, b.drop_last(), t);
    }
}

proof fn lemma_entries_remove(b: Seq<Pairing>, k: int, t: usize)
    requires
        0 <= k < b.len(),
    ensures
        entries_of(b, t) == entries_of(b.remove(k), t) + entries_of(seq![b[k]], t),
    decreases b.len(),
{
    lemma_entries_push(seq![], b[k], t);
    assert(seq![].push(b[k]) =~= seq![b[k]]);
    assert(entries_of(Seq::<Pairing>::empty(), t) == 0);
    if k == b.len() - 1 {
        assert(b.remove(k) =~= b.drop_last());
    } else {
        lemma_entries_remove(b.drop_last(), k, t);
        assert(b.remove(k).drop_last() =~= b.drop_last().remove(k));
        assert(b.remove(k).last() == b.last());
    }
}

/// Reordering a list of pairings keeps every team's number of entries.
proof fn lemma_entries_perm(a: Seq<Pairing>, b: Seq<Pairing>, t: usize)
    requires
        a.to_multiset() == b.to_multiset(),
    ensures
        entries_of(a, t) == entries_of(b, t),
    decreases a.len(),
{
    broadcast use vstd::seq_lib::group_to_multiset_ensures;
    broadcast use vstd::multiset::group_multiset_axioms;

    if a.len() == 0 {
        assert(b.to_multiset().len() == 0);
        assert(b.len() == 0);
    } else {
        let x = a.last();
        assert(a.drop_last().push(x) =~= a);
        assert(a.to_multiset() == a.drop_last().to_multiset().insert(x));
        assert(b.to_multiset().count(x) > 0);
        assert(b.contains(x));
        let k = choose|k: int| 0 <= k < b.len() && b[k] == x;
        assert(b.remove(k).to_multiset() == b.to_multiset().remove(x));
        assert(a.drop_last().to_multiset() =~= a.to_multiset().remove(x));
        lemma_entries_perm(a.drop_last(), b.remove(k), t);
        lemma_entries_remove(b, k, t);
        lemma_entries_push(a.drop_last(), x, t);
        lemma_entries_push(seq![], x, t);
        assert(seq![].push(x) =~= seq![x]);
        assert(entries_of(Seq::<Pairing>::empty(), t) == 0);
    }
}

pub open spec fn distinct(order: Seq<usize>) -> bool {
    forall|p: int, q: int| 0 <= p < order.len() && 0 <= q < order.len() && p != q ==> order[p] != order[q]
}

proof fn lemma_first_fit_range(
    teams: Seq<Team>,
    history: Seq<(usize, usize)>,
    order: Seq<usize>,
    paired: Seq<bool>,
    pass: int,
    i: int,
    j: int,
)
    ensures
        first_fit(teams, history, order, paired, pass, i, j) matches Some(x) ==> j <= x < order.len() && !paired[x],
    decreases order.len() - j,
{
    if j < order.len() {
        lemma_first_fit_range(teams, history, order, paired, pass, i, j + 1);
    }
}

/// What greedy pairing from position `i` does to each position: a position
/// already paired stays so and gets no entry; an earlier free one stays free;
/// a later free one gets one entry exactly when it ends up paired.
#[verifier::rlimit(40)]
proof fn lemma_greedy_entries(
    teams: Seq<Team>,
    history: Seq<(usize, usize)>,
    avoid_regions: bool,
    order: Seq<usize>,
    paired: Seq<bool>,
    i: int,
)
    requires
        distinct(order),
        paired.len() == order.len(),
        0 <= i <= order.len(),
    ensures
        ({
            let g = greedy(teams, history, avoid_regions, order, paired, i);
            &&& g.1.len() == order.len()
            &&& forall|q: int|
                0 <= q < order.len() ==> {
                    &&& (paired[q] ==> #[trigger] g.1[q])
                    &&& (g.1[q] ==> paired[q] || q >= i)
                    &&& entries_of(g.0, order[q]) == if !paired[q] && q >= i && g.1[q] {
                        1int
                    } else {
                        0
                    }
                }
            &&& forall|t: usize| (forall|q: int| 0 <= q < order.len() ==> order[q] != t) ==> entries_of(g.0, t) == 0
        }),
    decreases order.len() - i,
{
    let g = greedy(teams, history, avoid_regions, order, paired, i);
    if i >= order.len() {
        assert forall|t: usize| true implies entries_of(g.0, t) == 0 by {
            assert(g.0.len() == 0);
        }
    } else if paired[i] {
        lemma_greedy_entries(teams, history, avoid_regions, order, paired, i + 1);
    } else {
        let o = opponent(teams, history, avoid_regions, order, paired, i);
        lemma_first_fit_range(teams, history, order, paired, 1, i, i + 1);
        lemma_first_fit_range(teams, history, order, paired, 2, i, i + 1);
        lemma_first_fit_range(teams, history, order, paired, 3, i, i + 1);
        match o {
            Some(j) => {
                let now_paired = paired.update(i, true).update(j, true);
                lemma_greedy_entries(teams, history, avoid_regions, order, now_paired, i + 1);
                let rest = greedy(teams, history, avoid_regions, order, now_paired, i + 1);
                let head: Seq<Pairing> = seq![(order[i], Some(order[j]))];
                assert(g.0 == head + rest.0);
                assert(g.1 == rest.1);
                assert forall|t: usize| true implies entries_of(g.0, t) == (if order[i] == t {
                    1int
                } else {
                    0
                }) + (if order[j] == t {
                    1int
                } else {
                    0
                }) + entries_of(rest.0, t) by {
                    lemma_entries_concat(head, rest.0, t);
                    lemma_entries_push(seq![], (order[i], Some(order[j])), t);
                    assert(seq![].push((order[i], Some(order[j]))) =~= head);
                    assert(entries_of(seq![], t) == 0);
                }
                assert forall|q: int| 0 <= q < order.len() implies {
                    &&& (paired[q] ==> #[trigger] g.1[q])
                    &&& (g.1[q] ==> paired[q] || q >= i)
                    &&& entries_of(g.0, order[q]) == if !paired[q] && q >= i && g.1[q] {
                        1int
                    } else {
                        0
                    }
                } by {
                    assert(now_paired[q] == (paired[q] || q == i || q == j));
                    assert(rest.1[q] == g.1[q]);
                }
                assert forall|t: usize| (forall|q: int| 0 <= q < order.len() ==> order[q] != t) implies entries_of(g.0, t) == 0 by {
                    assert(order[i] != t);
                    assert(order[j] != t);
                }
            },
            None => {
                lemma_greedy_entries(teams, history, avoid_regions, order, paired, i + 1);
            },
        }
    }
}

proof fn lemma_entries_push(p: Seq<Pairing>, x: Pairing, t: usize)
    ensures
        entries_of(p.push(x), t) == entries_of(p, t) + (if x.0 == t {
            1int
        } else {
            0
        }) + (if x.1 == Some(t) {
            1int
        } else {
            0
        }),
{
    assert(p.push(x).drop_last() =~= p);
}

proof fn lemma_byes_entries(order: Seq<usize>, paired: Seq<bool>, k: int)
    requires
        distinct(order),
        paired.len() == order.len(),
        0 <= k <= order.len(),
    ensures
        forall|q: int|
            0 <= q < order.len() ==> #[trigger] entries_of(byes_upto(order, paired, k), order[q]) == if q < k && !paired[q] {
                1int
            } else {
                0
            },
        forall|t: usize| (forall|q: int| 0 <= q < order.len() ==> order[q] != t) ==> entries_of(byes_upto(order, paired, k), t) == 0,
    decreases k,
{
    if k > 0 {
        lemma_byes_entries(order, paired, k - 1);
        let prev = byes_upto(order, paired, k - 1);
        if !paired[k - 1] {
            assert forall|t: usize| true implies entries_of(byes_upto(order, paired, k), t) == entries_of(prev, t) + (if order[k - 1] == t {
                1int
            } else {
                0
            }) by {
                lemma_entries_push(prev, (order[k - 1], None), t);
            }
        }
        assert forall|q: int| 0 <= q < order.len() implies #[trigger] entries_of(byes_upto(order, paired, k), order[q]) == if q < k
            && !paired[q] {
            1int
        } else {
            0
        } by {
            assert(entries_of(prev, order[q]) == if q < k - 1 && !paired[q] {
                1int
            } else {
                0
            });
        }
    } else {
        assert forall|t: usize| true implies entries_of(byes_upto(order, paired, k), t) == 0 by {
            assert(byes_upto(order, paired, k).len() == 0);
        }
    }
}

/// Greedy pairing followed by byes gives each team of a duplicate-free order
/// exactly one entry, and no other team any.
pub proof fn lemma_pairs_with_byes_cover_once(
    teams: Seq<Team>,
    history: Seq<(usize, usize)>,
    avoid_regions: bool,
    order: Seq<usize>,
)
    requires
        distinct(order),
    ensures
        forall|q: int| 0 <= q < order.len() ==> entries_of(pairs_with_byes(teams, history, avoid_regions, order), #[trigger] order[q]) == 1,
        forall|t: usize|
            (forall|q: int| 0 <= q < order.len() ==> order[q] != t) ==> #[trigger] entries_of(
                pairs_with_byes(teams, history, avoid_regions, order),
                t,
            ) == 0,
{
    let n = order.len() as int;
    let start = none_paired(n);
    lemma_greedy_entries(teams, history, avoid_regions, order, start, 0);
    let g = greedy(teams, history, avoid_regions, order, start, 0);
    lemma_byes_entries(order, g.1, n);
    assert forall|t: usize| true implies #[trigger] entries_of(pairs_with_byes(teams, history, avoid_regions, order), t) == entries_of(g.0, t)
        + entries_of(byes_upto(order, g.1, n), t) by {
        lemma_entries_concat(g.0, byes_upto(order, g.1, n), t);
    }
    assert forall|q: int| 0 <= q < order.len() implies entries_of(pairs_with_byes(teams, history, avoid_regions, order), #[trigger] order[q])
        == 1 by {
        assert(!start[q]);
    }
}

/// Swiss seeding: wins, then differential, then points for, all descending.
pub open spec fn swiss_key(r: TeamRecord) -> RankKey {
    RankKey {
        wins: r.wins as i128,
        first: r.differential as i128,
        second: r.points_for as i128,
        third: 0,
        quotient: PointQuotient::Ratio { points_for: 1, points_against: 1 },
        token: 0,
    }
}

pub open spec fn swiss_keys(records: Seq<TeamRecord>) -> Seq<RankKey> {
    Seq::new(records.len(), |t: int| swiss_key(records[t]))
}

proof fn lemma_permutation_in_range(a: Seq<usize>, b: Seq<usize>, n: int)
    requires
        a.to_multiset() == b.to_multiset(),
        forall|k: int| 0 <= k < b.len() ==> #[trigger] b[k] < n,
    ensures
        forall|k: int| 0 <= k < a.len() ==> #[trigger] a[k] < n,
{
    broadcast use vstd::seq_lib::group_to_multiset_ensures;

    assert forall|k: int| 0 <= k < a.len() implies #[trigger] a[k] < n by {
        assert(a.contains(a[k]));
        assert(b.to_multiset().count(a[k]) > 0);
        assert(b.contains(a[k]));
    }
}

/// Swiss round: teams in standings order, paired greedily, then the list is
/// shuffled so that courts do not follow rank. Every team has exactly one
/// entry.
pub fn generate_swiss_pairings(
    teams: &Vec<Team>,
    records: &Vec<TeamRecord>,
    history: &Vec<(usize, usize)>,
    avoid_regions: bool,
) -> (pairings: Vec<Pairing>)
    requires
        records@.len() == teams@.len(),
    ensures
        exists|order: Seq<usize>|
            ranked_order(swiss_keys(records@), order) && pairings@.to_multiset() == pairs_with_byes(
                teams@,
                history@,
                avoid_regions,
                order,
            ).to_multiset(),
        forall|t: usize| t < teams@.len() ==> #[trigger] entries_of(pairings@, t) == 1,
        forall|t: usize| t >= teams@.len() ==> #[trigger] entries_of(pairings@, t) == 0,
{
    let n = records.len();
    let mut keys: Vec<RankKey> = Vec::new();
    let mut t: usize = 0;
    while t < n
        invariant
            n == records@.len(),
            t <= n,
            keys@.len() == t,
            forall|u: int| 0 <= u < t ==> #[trigger] keys@[u] == swiss_key(records@[u]),
        decreases n - t,
    {
        let r = records[t];
        keys.push(
            RankKey {
                wins: r.wins as i128,
                first: r.differential as i128,
                second: r.points_for as i128,
                third: 0,
                quotient: PointQuotient::Ratio { points_for: 1, points_against: 1 },
                token: 0,
            },
        );
        t = t + 1;
    }
    proof {
        assert(keys@ =~= swiss_keys(records@));
    }
    let order = order_by_rank(&keys);
    let mut pairings = pair_with_byes(&order, teams, history, avoid_regions);
    let ghost before = pairings@;
    shuffle(&mut pairings);
    proof {
        lemma_shuffle_of_all(order@, n as int);
        lemma_pairs_with_byes_cover_once(teams@, history@, avoid_regions, order@);
        assert forall|t: usize| t < teams@.len() implies #[trigger] entries_of(pairings@, t) == 1 by {
            lemma_entries_perm(pairings@, before, t);
            assert(order@.contains(t));
            let q = choose|q: int| 0 <= q < order@.len() && order@[q] == t;
            assert(entries_of(pairs_with_byes(teams@, history@, avoid_regions, order@), order@[q]) == 1);
        }
        assert forall|t: usize| t >= teams@.len() implies #[trigger] entries_of(pairings@, t) == 0 by {
            lemma_entries_perm(pairings@, before, t);
            assert forall|q: int| 0 <= q < order@.len() implies order@[q] != t by {
                assert(order@[q] < teams@.len());
            }
        }
    }
    pairings
}

fn shuffled_teams(n: usize) -> (order: Vec<usize>)
    ensures
        order@.to_multiset() == all_teams(n as int).to_multiset(),
        forall|k: int| 0 <= k < order@.len() ==> #[trigger] order@[k] < n,
{
    let mut order: Vec<usize> = Vec::new();
    let mut k: usize = 0;
    while k < n
        invariant
            k <= n,
            order@ == all_teams(k as int),
        decreases n - k,
    {
        order.push(k);
        k = k + 1;
        proof {
            assert(order@ =~= all_teams(k as int));
        }
    }
    let ghost before = order@;
    shuffle(&mut order);
    proof {
        lemma_permutation_in_range(order@, before, n as int);
    }
    order
}

/// A shuffle of all the teams lists each of them exactly once.
proof fn lemma_shuffle_of_all(order: Seq<usize>, n: int)
    requires
        0 <= n <= usize::MAX,
        order.to_multiset() == all_teams(n).to_multiset(),
    ensures
        distinct(order),
        forall|t: usize| t < n ==> #[trigger] order.contains(t),
{
    broadcast use vstd::seq_lib::group_to_multiset_ensures;

    let all = all_teams(n);
    assert forall|i: int, j: int| 0 <= i < all.len() && 0 <= j < all.len() && i != j implies all[i] != all[j] by {
        assert(all[i] == i as usize);
        assert(all[j] == j as usize);
    }
    assert(all.no_duplicates());
    all.lemma_multiset_has_no_duplicates();
    order.lemma_multiset_has_no_duplicates_conv();
    assert forall|t: usize| t < n implies #[trigger] order.contains(t) by {
        assert(all[t as int] == t);
        assert(all.contains(t));
        assert(order.to_multiset().count(t) > 0);
        assert(order.contains(t));
    }
}

/// Swiss-Hotel round: teams in random order, paired greedily. Every team
/// has exactly one entry, as one side of a pairing or as a bye.
pub fn generate_swiss_hotel_pairings(teams: &Vec<Team>, history: &Vec<(usize, usize)>, avoid_regions: bool) -> (pairings: Vec<Pairing>)
    ensures
        exists|order: Seq<usize>|
            order.to_multiset() == all_teams(teams@.len() as int).to_multiset() && pairings@ == pairs_with_byes(
                teams@,
                history@,
                avoid_regions,
                order,
            ),
        forall|t: usize| t < teams@.len() ==> #[trigger] entries_of(pairings@, t) == 1,
        forall|t: usize| t >= teams@.len() ==> #[trigger] entries_of(pairings@, t) == 0,
{
    let order = shuffled_teams(teams.len());
    let pairings = pair_with_byes(&order, teams, history, avoid_regions);
    proof {
        lemma_shuffle_of_all(order@, teams@.len() as int);
        lemma_pairs_with_byes_cover_once(teams@, history@, avoid_regions, order@);
        assert forall|t: usize| t < teams@.len() implies #[trigger] entries_of(pairings@, t) == 1 by {
            assert(order@.contains(t));
            let q = choose|q: int| 0 <= q < order@.len() && order@[q] == t;
            assert(entries_of(pairs_with_byes(teams@, history@, avoid_regions, order@), order@[q]) == 1);
        }
        assert forall|t: usize| t >= teams@.len() implies #[trigger] entries_of(pairings@, t) == 0 by {
            assert forall|q: int| 0 <= q < order@.len() implies order@[q] != t by {
                assert(order@[q] < teams@.len());
            }
        }
    }
    pairings
}

/// Team `t` takes part in one of the pairings.
pub open spec fn appears(pairings: Seq<Pairing>, t: usize) -> bool {
    exists|k: int| 0 <= k < pairings.len() && ((#[trigger] pairings[k]).0 == t || pairings[k].1 == Some(t))
}

/// Byes, in index order, for the teams below `k` that no pairing names.
pub open spec fn missing_upto(pairings: Seq<Pairing>, k: int) -> Seq<Pairing>
    decreases k,
{
    if k <= 0 {
        seq![]
    } else {
        let prev = missing_upto(pairings, k - 1);
        if !appears(pairings, (k - 1) as usize) {
            prev.push(((k - 1) as usize, None))
        } else {
            prev
        }
    }
}

/// Pool-play round two: the greedy pairs of the winners' order, those of
/// the losers' order, then byes for the teams left out.
pub open spec fn pool_round_two(
    teams: Seq<Team>,
    history: Seq<(usize, usize)>,
    avoid_regions: bool,
    winners: Seq<usize>,
    losers: Seq<usize>,
) -> Seq<Pairing> {
    let p = greedy(teams, history, avoid_regions, winners, none_paired(winners.len() as int), 0).0 + greedy(
        teams,
        history,
        avoid_regions,
        losers,
        none_paired(losers.len() as int),
        0,
    ).0;
    p + missing_upto(p, teams.len() as int)
}

fn is_paired(pairings: &Vec<Pairing>, t: usize) -> (r: bool)
    ensures
        r == appears(pairings@, t),
{
    let mut k: usize = 0;
    while k < pairings.len()
        invariant
            k <= pairings@.len(),
            forall|q: int| 0 <= q < k ==> !((#[trigger] pairings@[q]).0 == t || pairings@[q].1 == Some(t)),
        decreases pairings@.len() - k,
    {
        let (a, b) = pairings[k];
        if a == t || b == Some(t) {
            proof {
                assert(pairings@[k as int].0 == t || pairings@[k as int].1 == Some(t));
            }
            return true;
        }
        k = k + 1;
    }
    false
}

fn shuffled_group(records: &Vec<TeamRecord>, group: PoolGroup) -> (order: Vec<usize>)
    ensures
        order@.to_multiset() == group_upto(records@, records@.len() as int, group).to_multiset(),
        forall|k: int| 0 <= k < order@.len() ==> #[trigger] order@[k] < records@.len(),
{
    let mut order = pool_group(records, group);
    proof {
        lemma_group_in_range(records@, records@.len() as int, group);
    }
    let ghost before = order@;
    shuffle(&mut order);
    proof {
        lemma_permutation_in_range(order@, before, records@.len() as int);
    }
    order
}

proof fn lemma_group_in_range(records: Seq<TeamRecord>, k: int, group: PoolGroup)
    requires
        k <= records.len(),
    ensures
        forall|q: int| 0 <= q < group_upto(records, k, group).len() ==> #[trigger] group_upto(records, k, group)[q] < k,
    decreases k,
{
    if k > 0 {
        lemma_group_in_range(records, k - 1, group);
        let prev = group_upto(records, k - 1, group);
        assert forall|q: int| 0 <= q < group_upto(records, k, group).len() implies #[trigger] group_upto(records, k, group)[q] < k by {
            if q < prev.len() {
                assert(group_upto(records, k, group)[q] == prev[q]);
            }
        }
    }
}

/// A pool-play round. Round one is a Swiss-Hotel round; round two pairs the
/// teams ahead among themselves and the rest among themselves, each group
/// shuffled; round three pairs only the teams at one win and one loss. There
/// is no fourth round.
#[verifier::rlimit(40)]
pub fn generate_pool_play_round(
    teams: &Vec<Team>,
    records: &Vec<TeamRecord>,
    history: &Vec<(usize, usize)>,
    avoid_regions: bool,
    round_number: i32,
) -> (res: Result<Vec<Pairing>, EngineError>)
    requires
        records@.len() == teams@.len(),
    ensures
        !(1 <= round_number <= 3) <==> res == Err::<Vec<Pairing>, EngineError>(EngineError::PoolPlayRoundLimit),
        round_number == 1 ==> (res matches Ok(v) && exists|order: Seq<usize>|
            order.to_multiset() == all_teams(teams@.len() as int).to_multiset() && v@ == pairs_with_byes(
                teams@,
                history@,
                avoid_regions,
                order,
            )),
        round_number == 1 ==> (res matches Ok(v) && forall|t: usize| t < teams@.len() ==> #[trigger] entries_of(v@, t) == 1),
        round_number == 2 ==> (res matches Ok(v) && exists|w: Seq<usize>, l: Seq<usize>|
            w.to_multiset() == group_upto(records@, records@.len() as int, PoolGroup::Winners).to_multiset()
                && l.to_multiset() == group_upto(records@, records@.len() as int, PoolGroup::Losers).to_multiset()
                && v@ == pool_round_two(teams@, history@, avoid_regions, w, l)),
        round_number == 3 ==> (res matches Ok(v) && exists|order: Seq<usize>|
            order.to_multiset() == group_upto(records@, records@.len() as int, PoolGroup::OneAndOne).to_multiset()
                && v@ == pairs_with_byes(teams@, history@, avoid_regions, order)),
{
    if round_number == 1 {
        Ok(generate_swiss_hotel_pairings(teams, history, avoid_regions))
    } else if round_number == 2 {
        let winners = shuffled_group(records, PoolGroup::Winners);
        let losers = shuffled_group(records, PoolGroup::Losers);
        let mut pairings: Vec<Pairing> = Vec::new();
        pair_teams_with_constraints(&mut pairings, &winners, teams, history, avoid_regions);
        pair_teams_with_constraints(&mut pairings, &losers, teams, history, avoid_regions);
        let ghost p = pairings@;
        proof {
            let gw = greedy(teams@, history@, avoid_regions, winners@, none_paired(winners@.len() as int), 0).0;
            let gl = greedy(teams@, history@, avoid_regions, losers@, none_paired(losers@.len() as int), 0).0;
            assert(p =~= gw + gl);
        }
        let n = teams.len();
        let mut t: usize = 0;
        while t < n
            invariant
                n == teams@.len(),
                t <= n,
                pairings@ == p + missing_upto(p, t as int),
                forall|u: usize| #[trigger] appears(p, u) ==> appears(pairings@, u),
                forall|u: usize| u >= t ==> (#[trigger] appears(pairings@, u) <==> appears(p, u)),
            decreases n - t,
        {
            let seen = is_paired(&pairings, t);
            if !seen {
                let ghost before = pairings@;
                pairings.push((t, None));
                proof {
                    assert forall|u: usize| #[trigger] appears(p, u) implies appears(pairings@, u) by {
                        let k = choose|k: int| 0 <= k < before.len() && ((#[trigger] before[k]).0 == u || before[k].1 == Some(u));
                        assert(pairings@[k] == before[k]);
                    }
                    assert forall|u: usize| u >= t + 1 implies (#[trigger] appears(pairings@, u) <==> appears(p, u)) by {
                        if appears(pairings@, u) {
                            let k = choose|k: int| 0 <= k < pairings@.len() && ((#[trigger] pairings@[k]).0 == u || pairings@[k].1 == Some(u));
                            if k < before.len() {
                                assert(before[k] == pairings@[k]);
                            }
                        }
                        if appears(before, u) {
                            let k = choose|k: int| 0 <= k < before.len() && ((#[trigger] before[k]).0 == u || before[k].1 == Some(u));
                            assert(pairings@[k] == before[k]);
                        }
                    }
                }
            }
            t = t + 1;
        }
        proof {
            assert(pairings@ == pool_round_two(teams@, history@, avoid_regions, winners@, losers@));
        }
        Ok(pairings)
    } else if round_number == 3 {
        let order = shuffled_group(records, PoolGroup::OneAndOne);
        Ok(pair_with_byes(&order, teams, history, avoid_regions))
    } else {
        Err(EngineError::PoolPlayRoundLimit)
    }
}

/// A pairing placed on a court.
#[derive(Debug, Clone, Copy, PartialEq, Eq, Structural)]
pub struct ScheduledGame {
    pub court: i32,
    pub team1: usize,
    pub team2: Option<usize>,
}

/// Places pairings on courts in list order, cycling through the courts.
pub fn assign_courts(pairings: &Vec<Pairing>, number_of_courts: i32) -> (games: Vec<ScheduledGame>)
    requires
        number_of_courts >= 1,
    ensures
        games@.len() == pairings@.len(),
        forall|k: int|
            0 <= k < pairings@.len() ==> #[trigger] games@[k] == (ScheduledGame {
                court: court_for(k, number_of_courts as int) as i32,
                team1: pairings@[k].0,
                team2: pairings@[k].1,
            }),
{
    let mut games: Vec<ScheduledGame> = Vec::new();
    let mut k: usize = 0;
    while k < pairings.len()
        invariant
            number_of_courts >= 1,
            k <= pairings@.len(),
            games@.len() == k,
            forall|q: int|
                0 <= q < k ==> #[trigger] games@[q] == (ScheduledGame {
                    court: court_for(q, number_of_courts as int) as i32,
                    team1: pairings@[q].0,
                    team2: pairings@[q].1,
                }),
        decreases pairings@.len() - k,
    {
        let (a, b) = pairings[k];
        let court = ((k % (number_of_courts as usize)) as i32) + 1;
        games.push(ScheduledGame { court, team1: a, team2: b });
        k = k + 1;
    }
    games
}


/// Slots of the circle: the teams, plus one bye slot (numbered `n`) when `n` is odd.
pub open spec fn circle_size(n: int) -> int {
    if n % 2 == 1 {
        n + 1
    } else {
        n
    }
}

/// Who holds position `p` of the circle in a round: position 0 is fixed, the
/// others rotate by `(round - 1) mod (size - 1)`.
pub open spec fn circle_at(n: int, round: int, p: int) -> int {
    let m = circle_size(n) - 1;
    if p == 0 {
        0
    } else {
        1 + (p - 1 + (round - 1) % m) % m
    }
}

/// Game `i` of a round-robin round: position `i` against position
/// `size - 1 - i`; the bye slot turns the game into a bye.
pub open spec fn circle_pairing(n: int, round: int, i: int) -> Pairing {
    let a = circle_at(n, round, i);
    let b = circle_at(n, round, circle_size(n) - 1 - i);
    if a == n {
        (b as usize, None)
    } else if b == n {
        (a as usize, None)
    } else {
        (a as usize, Some(b as usize))
    }
}

/// Round `round_number` of a round robin over the teams (circle method).
pub fn generate_round_robin_pairings(teams: &Vec<Team>, round_number: i32) -> (res: Result<Vec<Pairing>, EngineError>)
    requires
        round_number >= 1,
        teams@.len() <= usize::MAX / 2,
    ensures
        teams@.len() < 2 <==> res == Err::<Vec<Pairing>, EngineError>(EngineError::TooFewTeams),
        teams@.len() >= 2 <==> res is Ok,
        res matches Ok(v) ==> v@.len() == circle_size(teams@.len() as int) / 2 && forall|i: int|
            0 <= i < v@.len() ==> #[trigger] v@[i] == circle_pairing(teams@.len() as int, round_number as int, i),
{
    let n = teams.len();
    if n < 2 {
        return Err(EngineError::TooFewTeams);
    }
    let total = if n % 2 == 1 {
        n + 1
    } else {
        n
    };
    let m = total - 1;
    let shift = ((round_number - 1) as usize) % m;
    let half = total / 2;
    let mut pairings: Vec<Pairing> = Vec::new();
    let mut i: usize = 0;
    while i < half
        invariant
            2 <= n <= usize::MAX / 2,
            total == circle_size(n as int),
            m == total - 1,
            shift == (round_number - 1) % (m as int),
            round_number >= 1,
            half == total / 2,
            i <= half,
            pairings@.len() == i,
            forall|q: int| 0 <= q < i ==> #[trigger] pairings@[q] == circle_pairing(n as int, round_number as int, q),
        decreases half - i,
    {
        let a = if i == 0 {
            0
        } else {
            1 + (i - 1 + shift) % m
        };
        let j = total - 1 - i;
        let b = 1 + (j - 1 + shift) % m;
        proof {
            assert(a == circle_at(n as int, round_number as int, i as int));
            assert(b == circle_at(n as int, round_number as int, j as int));
        }
        if a == n {
            pairings.push((b, None));
        } else if b == n {
            pairings.push((a, None));
        } else {
            pairings.push((a, Some(b)));
        }
        i = i + 1;
    }
    Ok(pairings)
}


/// Teams `a` and `b` play each other in round `round` of a round robin over `n` teams.
pub open spec fn meet_in_round(n: int, round: int, a: int, b: int) -> bool {
    exists|i: int|
        0 <= i < circle_size(n) / 2 && (#[trigger] circle_pairing(n, round, i) == (a as usize, Some(b as usize))
            || circle_pairing(n, round, i) == (b as usize, Some(a as usize)))
}

/// Team `a` has a bye in round `round` of a round robin over `n` teams.
pub open spec fn bye_in_round(n: int, round: int, a: int) -> bool {
    exists|i: int| 0 <= i < circle_size(n) / 2 && #[trigger] circle_pairing(n, round, i) == (a as usize, None::<usize>)
}

/// Game `i` of the round sets circle members `a` and `b` (either may be the
/// bye slot) against each other.
pub open spec fn facing(n: int, round: int, i: int, a: int, b: int) -> bool {
    let x = circle_at(n, round, i);
    let y = circle_at(n, round, circle_size(n) - 1 - i);
    (x == a && y == b) || (x == b && y == a)
}

pub open spec fn circle_meet(n: int, round: int, a: int, b: int) -> bool {
    exists|i: int| 0 <= i < circle_size(n) / 2 && #[trigger] facing(n, round, i, a, b)
}

proof fn lemma_mod_once(x: int, m: int)
    requires
        0 < m,
        0 <= x < 2 * m,
    ensures
        x % m == if x < m {
            x
        } else {
            x - m
        },
{
    if x < m {
        vstd::arithmetic::div_mod::lemma_small_mod(x as nat, m as nat);
    } else {
        vstd::arithmetic::div_mod::lemma_mod_sub_multiples_vanish(x, m);
        vstd::arithmetic::div_mod::lemma_small_mod((x - m) as nat, m as nat);
    }
}

/// Where the circle puts things in round `round`, with the modulus unfolded.
proof fn lemma_circle_at(n: int, round: int, p: int)
    requires
        2 <= n,
        1 <= round <= circle_size(n) - 1,
        0 <= p <= circle_size(n) - 1,
    ensures
        ({
            let m = circle_size(n) - 1;
            let s = round - 1;
            circle_at(n, round, p) == if p == 0 {
                0
            } else if p - 1 + s < m {
                p + s
            } else {
                p + s - m
            }
        }),
        0 <= circle_at(n, round, p) <= circle_size(n) - 1,
{
    let m = circle_size(n) - 1;
    lemma_mod_once(round - 1, m);
    if p > 0 {
        lemma_mod_once(p - 1 + (round - 1), m);
    }
}

/// The shift of a round in which circle members `a` and `b` face each other:
/// for the fixed member 0 it is fixed by the other one, otherwise twice the
/// shift is `a + b` up to one circle length.
#[verifier::rlimit(40)]
proof fn lemma_circle_shift(n: int, round: int, a: int, b: int)
    requires
        2 <= n,
        1 <= round <= circle_size(n) - 1,
        0 <= a <= circle_size(n) - 1,
        0 <= b <= circle_size(n) - 1,
        a != b,
        circle_meet(n, round, a, b),
    ensures
        ({
            let m = circle_size(n) - 1;
            let s = round - 1;
            &&& a == 0 ==> s == if b == m {
                0
            } else {
                b
            }
            &&& b == 0 ==> s == if a == m {
                0
            } else {
                a
            }
            &&& a != 0 && b != 0 ==> (2 * s == a + b - m || 2 * s == a + b || 2 * s == a + b + m)
        }),
{
    let m = circle_size(n) - 1;
    let i = choose|i: int| 0 <= i < circle_size(n) / 2 && #[trigger] facing(n, round, i, a, b);
    lemma_circle_at(n, round, i);
    lemma_circle_at(n, round, m - i);
    assert(circle_size(n) - 1 - i == m - i);
}

proof fn lemma_circle_round_unique(n: int, a: int, b: int, r1: int, r2: int)
    requires
        2 <= n,
        0 <= a <= circle_size(n) - 1,
        0 <= b <= circle_size(n) - 1,
        a != b,
        1 <= r1 <= circle_size(n) - 1,
        1 <= r2 <= circle_size(n) - 1,
        circle_meet(n, r1, a, b),
        circle_meet(n, r2, a, b),
    ensures
        r1 == r2,
{
    lemma_circle_shift(n, r1, a, b);
    lemma_circle_shift(n, r2, a, b);
}

#[verifier::rlimit(40)]
proof fn lemma_circle_meet_exists(n: int, a: int, b: int)
    requires
        2 <= n,
        0 <= a <= circle_size(n) - 1,
        0 <= b <= circle_size(n) - 1,
        a != b,
    ensures
        exists|r: int| 1 <= r <= circle_size(n) - 1 && #[trigger] circle_meet(n, r, a, b),
{
    let m = circle_size(n) - 1;
    if a == 0 || b == 0 {
        let c = if a == 0 {
            b
        } else {
            a
        };
        let s = if c == m {
            0
        } else {
            c
        };
        let r = s + 1;
        lemma_circle_at(n, r, 0);
        lemma_circle_at(n, r, m);
        assert(circle_size(n) - 1 - 0 == m);
        assert(facing(n, r, 0, a, b));
        assert(circle_meet(n, r, a, b));
    } else {
        let t = a + b;
        let s = if t % 2 == 0 {
            t / 2
        } else if (t + m) / 2 >= m {
            (t + m) / 2 - m
        } else {
            (t + m) / 2
        };
        let ua = a - 1;
        let ub = b - 1;
        let va = if ua >= s {
            ua - s
        } else {
            ua - s + m
        };
        let vb = if ub >= s {
            ub - s
        } else {
            ub - s + m
        };
        assert(va + vb == m - 2);
        let pa = va + 1;
        let pb = vb + 1;
        let i = if pa < pb {
            pa
        } else {
            pb
        };
        let r = s + 1;
        lemma_circle_at(n, r, pa);
        lemma_circle_at(n, r, pb);
        assert(circle_at(n, r, pa) == a);
        assert(circle_at(n, r, pb) == b);
        assert(circle_size(n) - 1 - i == if pa < pb {
            pb
        } else {
            pa
        });
        assert(facing(n, r, i, a, b));
        assert(circle_meet(n, r, a, b));
    }
}

/// For two teams, playing each other in a round is facing each other on the circle.
proof fn lemma_meet_is_facing(n: int, round: int, a: int, b: int)
    requires
        2 <= n < usize::MAX,
        1 <= round <= circle_size(n) - 1,
        0 <= a < n,
        0 <= b < n,
        a != b,
    ensures
        meet_in_round(n, round, a, b) <==> circle_meet(n, round, a, b),
{
    let m = circle_size(n) - 1;
    if meet_in_round(n, round, a, b) {
        let i = choose|i: int|
            0 <= i < circle_size(n) / 2 && (#[trigger] circle_pairing(n, round, i) == (a as usize, Some(b as usize))
                || circle_pairing(n, round, i) == (b as usize, Some(a as usize)));
        lemma_circle_at(n, round, i);
        lemma_circle_at(n, round, m - i);
        assert(circle_size(n) - 1 - i == m - i);
        assert(facing(n, round, i, a, b));
    }
    if circle_meet(n, round, a, b) {
        let i = choose|i: int| 0 <= i < circle_size(n) / 2 && #[trigger] facing(n, round, i, a, b);
        assert(circle_size(n) - 1 - i == m - i);
        assert(circle_pairing(n, round, i) == (a as usize, Some(b as usize)) || circle_pairing(n, round, i) == (
        b as usize,
        Some(a as usize),
        ));
    }
}

/// A round robin over `n` teams has `n - 1` rounds for even `n` and `n` for
/// odd `n` (one bye each round), and any two teams meet in exactly one of them.
pub proof fn lemma_round_robin_meets_once(n: int, a: int, b: int)
    requires
        2 <= n < usize::MAX,
        0 <= a < n,
        0 <= b < n,
        a != b,
    ensures
        circle_size(n) - 1 == if n % 2 == 0 {
            n - 1
        } else {
            n
        },
        exists|r: int| 1 <= r <= circle_size(n) - 1 && #[trigger] meet_in_round(n, r, a, b),
        forall|r1: int, r2: int|
            1 <= r1 <= circle_size(n) - 1 && 1 <= r2 <= circle_size(n) - 1 && #[trigger] meet_in_round(n, r1, a, b)
                && #[trigger] meet_in_round(n, r2, a, b) ==> r1 == r2,
{
    let m = circle_size(n) - 1;
    assert forall|r1: int, r2: int|
        1 <= r1 <= m && 1 <= r2 <= m && #[trigger] meet_in_round(n, r1, a, b) && #[trigger] meet_in_round(
            n,
            r2,
            a,
            b,
        ) implies r1 == r2 by {
        lemma_meet_is_facing(n, r1, a, b);
        lemma_meet_is_facing(n, r2, a, b);
        lemma_circle_round_unique(n, a, b, r1, r2);
    }
    lemma_circle_meet_exists(n, a, b);
    let r = choose|r: int| 1 <= r <= m && #[trigger] circle_meet(n, r, a, b);
    lemma_meet_is_facing(n, r, a, b);
}

/// For a team, a bye is facing the bye slot on the circle.
proof fn lemma_bye_is_facing(n: int, round: int, a: int)
    requires
        2 <= n < usize::MAX,
        1 <= round <= circle_size(n) - 1,
        0 <= a < n,
    ensures
        bye_in_round(n, round, a) <==> circle_meet(n, round, a, n),
        n % 2 == 0 ==> !bye_in_round(n, round, a),
{
    let m = circle_size(n) - 1;
    if bye_in_round(n, round, a) {
        let i = choose|i: int| 0 <= i < circle_size(n) / 2 && #[trigger] circle_pairing(n, round, i) == (a as usize, None::<usize>);
        lemma_circle_at(n, round, i);
        lemma_circle_at(n, round, m - i);
        assert(circle_size(n) - 1 - i == m - i);
        assert(facing(n, round, i, a, n));
    }
    if circle_meet(n, round, a, n) {
        let i = choose|i: int| 0 <= i < circle_size(n) / 2 && #[trigger] facing(n, round, i, a, n);
        lemma_circle_at(n, round, i);
        lemma_circle_at(n, round, m - i);
        assert(circle_size(n) - 1 - i == m - i);
        assert(circle_pairing(n, round, i) == (a as usize, None::<usize>));
    }
}

/// With an odd number of teams every team sits out exactly one of the `n`
/// rounds; with an even number nobody ever does.
pub proof fn lemma_round_robin_byes(n: int, a: int)
    requires
        2 <= n < usize::MAX,
        0 <= a < n,
    ensures
        n % 2 == 0 ==> forall|r: int| 1 <= r <= circle_size(n) - 1 ==> !#[trigger] bye_in_round(n, r, a),
        n % 2 == 1 ==> exists|r: int| 1 <= r <= circle_size(n) - 1 && #[trigger] bye_in_round(n, r, a),
        n % 2 == 1 ==> forall|r1: int, r2: int|
            1 <= r1 <= circle_size(n) - 1 && 1 <= r2 <= circle_size(n) - 1 && #[trigger] bye_in_round(n, r1, a)
                && #[trigger] bye_in_round(n, r2, a) ==> r1 == r2,
{
    let m = circle_size(n) - 1;
    assert forall|r: int| 1 <= r <= m && n % 2 == 0 implies !#[trigger] bye_in_round(n, r, a) by {
        lemma_bye_is_facing(n, r, a);
    }
    if n % 2 == 1 {
        assert forall|r1: int, r2: int|
            1 <= r1 <= m && 1 <= r2 <= m && #[trigger] bye_in_round(n, r1, a) && #[trigger] bye_in_round(n, r2, a) implies r1
            == r2 by {
            lemma_bye_is_facing(n, r1, a);
            lemma_bye_is_facing(n, r2, a);
            lemma_circle_round_unique(n, a, n, r1, r2);
        }
        lemma_circle_meet_exists(n, a, n);
        let r = choose|r: int| 1 <= r <= m && #[trigger] circle_meet(n, r, a, n);
        lemma_bye_is_facing(n, r, a);
    }
}

/// With an odd number of teams every round has exactly one bye game.
pub proof fn lemma_one_bye_per_round(n: int, round: int)
    requires
        2 <= n < usize::MAX,
        n % 2 == 1,
        1 <= round <= circle_size(n) - 1,
    ensures
        exists|i: int| 0 <= i < circle_size(n) / 2 && (#[trigger] circle_pairing(n, round, i)).1 is None,
        forall|i: int, j: int|
            0 <= i < circle_size(n) / 2 && 0 <= j < circle_size(n) / 2 && (#[trigger] circle_pairing(n, round, i)).1 is None
                && (#[trigger] circle_pairing(n, round, j)).1 is None ==> i == j,
{
    let m = circle_size(n) - 1;
    let s = round - 1;
    let p = m - s;
    lemma_circle_at(n, round, p);
    lemma_circle_at(n, round, m - p);
    let i0 = if p < m - p {
        p
    } else {
        m - p
    };
    assert(circle_size(n) - 1 - i0 == m - i0);
    assert(circle_pairing(n, round, i0).1 is None);
    assert forall|i: int, j: int|
        0 <= i < circle_size(n) / 2 && 0 <= j < circle_size(n) / 2 && (#[trigger] circle_pairing(n, round, i)).1 is None
            && (#[trigger] circle_pairing(n, round, j)).1 is None implies i == j by {
        lemma_circle_at(n, round, i);
        lemma_circle_at(n, round, m - i);
        lemma_circle_at(n, round, j);
        lemma_circle_at(n, round, m - j);
        assert(circle_size(n) - 1 - i == m - i);
        assert(circle_size(n) - 1 - j == m - j);
    }
}

/// The schedule repeats after `size - 1` rounds.
pub proof fn lemma_round_robin_period(n: int, round: int, i: int)
    requires
        2 <= n,
        round >= 1,
    ensures
        circle_pairing(n, round + circle_size(n) - 1, i) == circle_pairing(n, round, i),
{
    let m = circle_size(n) - 1;
    vstd::arithmetic::div_mod::lemma_mod_add_multiples_vanish(round - 1, m);
    assert(round + circle_size(n) - 1 - 1 == m + (round - 1));
}

} // verus!
