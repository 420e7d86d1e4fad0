//! The scoring engine: pure tier scoring per game, global-bet rewards, and
//! the leaderboard over every user with a recorded bet.

use vstd::prelude::*;

use itertools::Itertools;

use crate::model::Bet;
use crate::model::BetListV;
use crate::model::GameV;
use crate::model::GlobalBetV;
use crate::store::DataInter;
use crate::store::StoreV;
use crate::store::bet_of;
use crate::store::pred_of;
use crate::store::first_game;
use crate::store::find_bet;
use crate::store::find_game;
use crate::store::find_pred;

verus! {

/// Points for predicting the exact score.
pub const POINTS_CORRECT: u32 = 3;

/// Points for predicting the exact goal differential without the exact
/// score.
pub const POINTS_TENDENZ: u32 = 2;

/// Points for predicting the strictly winning side alone.
pub const POINTS_TEAM: u32 = 1;

/// The per-game scoring tiers, in order: exact score, equal goal
/// differential (a predicted draw against an actual draw lands here), then
/// the correct strictly-winning side. A predicted draw that was not an
/// actual draw earns nothing from the last tier, since neither strict
/// comparison holds.
pub open spec fn game_points(r1: u16, r2: u16, b1: u16, b2: u16) -> u32 {
    if b1 == r1 && b2 == r2 {
        POINTS_CORRECT
    } else if b1 - b2 == r1 - r2 {
        POINTS_TENDENZ
    } else if (b1 > b2 && r1 > r2) || (b1 < b2 && r1 < r2) {
        POINTS_TEAM
    } else {
        0
    }
}

/// The scoring tiers as executable code: result `(r1, r2)` against bet
/// `(b1, b2)`.
pub fn score_bet(r1: u16, r2: u16, b1: u16, b2: u16) -> (p: u32)
    ensures
        p == game_points(r1, r2, b1, b2),
{
    if b1 == r1 && b2 == r2 {
        POINTS_CORRECT
    } else if b1 as i32 - b2 as i32 == r1 as i32 - r2 as i32 {
        POINTS_TENDENZ
    } else if (b1 > b2 && r1 > r2) || (b1 < b2 && r1 < r2) {
        POINTS_TEAM
    } else {
        0
    }
}

/// One game-bets entry's contribution to a user's total: the tier points
/// when the entry holds the user's bet and the referenced game has a
/// recorded result; nothing while the result is pending or the game is
/// missing.
pub open spec fn betlist_points(games: Seq<GameV>, bl: BetListV, user: u64) -> nat {
    match bet_of(bl.bets, user) {
        None => 0,
        Some(b) => match first_game(games, bl.game) {
            None => 0,
            Some(g) => match g.result {
                None => 0,
                Some(r) => game_points(r.0, r.1, b.team1, b.team2) as nat,
            },
        },
    }
}

/// The user's points from all per-game bets, summed in store order.
pub open spec fn games_total(games: Seq<GameV>, bls: Seq<BetListV>, user: u64) -> nat
    decreases bls.len(),
{
    if bls.len() == 0 {
        0
    } else {
        games_total(games, bls.drop_last(), user) + betlist_points(games, bls.last(), user)
    }
}

/// One global bet's contribution: its configured points when a result is
/// recorded and the user's prediction equals it exactly; no partial credit.
pub open spec fn global_points(gb: GlobalBetV, user: u64) -> nat {
    match gb.result {
        None => 0,
        Some(winner) => match pred_of(gb.bets, user) {
            Some(choice) => if choice == winner {
                gb.points as nat
            } else {
                0
            },
            None => 0,
        },
    }
}

/// The user's points from all global bets, summed in store order.
pub open spec fn globals_total(gbs: Seq<GlobalBetV>, user: u64) -> nat
    decreases gbs.len(),
{
    if gbs.len() == 0 {
        0
    } else {
        globals_total(gbs.drop_last(), user) + global_points(gbs.last(), user)
    }
}

/// A user's total: per-game points plus global-bet points.
pub open spec fn total_points(v: StoreV, user: u64) -> nat {
    games_total(v.games, v.bets, user) + globals_total(v.global_bets, user)
}

/// A total clamped to what a 64-bit accumulator can carry.
pub open spec fn cap_points(n: nat) -> nat {
    if n <= u64::MAX {
        n
    } else {
        u64::MAX as nat
    }
}

/// Saturating 64-bit addition.
fn sat_add(a: u64, b: u64) -> (r: u64)
    ensures
        a + b <= u64::MAX ==> r == a + b,
        a + b > u64::MAX ==> r == u64::MAX,
{
    if a > u64::MAX - b {
        u64::MAX
    } else {
        a + b
    }
}

/// The users of one game's bet list, in order.
pub open spec fn users_in_list(bets: Seq<Bet>) -> Seq<u64>
    decreases bets.len(),
{
    if bets.len() == 0 {
        Seq::empty()
    } else {
        users_in_list(bets.drop_last()).push(bets.last().user)
    }
}

/// The users of one global bet's prediction list, in order.
pub open spec fn users_in_preds(bs: Seq<(u64, Seq<char>)>) -> Seq<u64>
    decreases bs.len(),
{
    if bs.len() == 0 {
        Seq::empty()
    } else {
        users_in_preds(bs.drop_last()).push(bs.last().0)
    }
}

/// Every user appearing in some per-game bet, in store order, repetitions
/// kept.
pub open spec fn bet_users(bls: Seq<BetListV>) -> Seq<u64>
    decreases bls.len(),
{
    if bls.len() == 0 {
        Seq::empty()
    } else {
        bet_users(bls.drop_last()) + users_in_list(bls.last().bets)
    }
}

/// Every user appearing in some global-bet prediction, in store order,
/// repetitions kept.
pub open spec fn pred_users(gbs: Seq<GlobalBetV>) -> Seq<u64>
    decreases gbs.len(),
{
    if gbs.len() == 0 {
        Seq::empty()
    } else {
        pred_users(gbs.drop_last()) + users_in_preds(gbs.last().bets)
    }
}

/// Every user with a recorded bet of either kind, in order of appearance,
/// repetitions kept.
pub open spec fn all_users(v: StoreV) -> Seq<u64> {
    bet_users(v.bets) + pred_users(v.global_bets)
}

/// Duplicates removed: the first occurrence of each value is kept, in
/// order, and later occurrences dropped.
pub open spec fn dedup_first(s: Seq<u64>) -> Seq<u64>
    decreases s.len(),
{
    if s.len() == 0 {
        Seq::empty()
    } else {
        let p = dedup_first(s.drop_last());
        if p.contains(s.last()) {
            p
        } else {
            p.push(s.last())
        }
    }
}

/// Deduplication keeps each value at most once and exactly the values of
/// its input.
pub proof fn lemma_dedup_first(s: Seq<u64>)
    ensures
        forall|i: int, j: int|
            0 <= i < j < dedup_first(s).len() ==> dedup_first(s)[i] != dedup_first(s)[j],
        forall|u: u64| dedup_first(s).contains(u) <==> s.contains(u),
    decreases s.len(),
{
    if s.len() > 0 {
        lemma_dedup_first(s.drop_last());
        let p = dedup_first(s.drop_last());
        let d = dedup_first(s);
        assert(forall|u: u64| s.contains(u) <==> (s.drop_last().contains(u) || u == s.last())) by {
            assert(s =~= s.drop_last().push(s.last()));
            assert(forall|u: u64|
                s.drop_last().contains(u) ==> #[trigger] s.contains(u)) by {
                assert(forall|i: int|
                    0 <= i < s.drop_last().len() ==> #[trigger] s.drop_last()[i] == s[i]);
            }
            assert(s.contains(s.last()));
            assert(forall|u: u64| #[trigger] s.contains(u) ==> (s.drop_last().contains(u) || u
                == s.last())) by {
                assert(forall|i: int|
                    0 <= i < s.len() - 1 ==> #[trigger] s[i] == s.drop_last()[i]);
            }
        }
        if p.contains(s.last()) {
        } else {
            assert(forall|u: u64|
                d.contains(u) <==> (p.contains(u) || u == s.last())) by {
                assert(forall|i: int| 0 <= i < p.len() ==> #[trigger] p[i] == d[i]);
                assert(d[p.len() as int] == s.last());
                assert(forall|i: int| 0 <= i < d.len() - 1 ==> #[trigger] d[i] == p[i]);
            }
        }
    }
}

/// Relies on itertools' `unique` over an iterator of integers: it yields
/// the non-duplicate items in iteration order, keeping the first occurrence
/// of each set of duplicates.
#[verifier::external_body]
fn distinct_u64(xs: Vec<u64>) -> (r: Vec<u64>)
    ensures
        r@ == dedup_first(xs@),
{
    xs.into_iter().unique().collect()
}

/// Accumulating one bet-list entry's points, as a fold step.
pub open spec fn betlist_points_acc(games: Seq<GameV>, user: u64) -> spec_fn(BetListV, int) -> int {
    |bl: BetListV, acc: int| betlist_points(games, bl, user) + acc
}

/// Accumulating one global bet's points, as a fold step.
pub open spec fn global_points_acc(user: u64) -> spec_fn(GlobalBetV, int) -> int {
    |gb: GlobalBetV, acc: int| global_points(gb, user) + acc
}

proof fn lemma_games_total_fold(games: Seq<GameV>, bls: Seq<BetListV>, user: u64, acc: int)
    ensures
        bls.fold_right(betlist_points_acc(games, user), acc) == games_total(games, bls, user)
            + acc,
    decreases bls.len(),
{
    if bls.len() > 0 {
        lemma_games_total_fold(
            games,
            bls.drop_last(),
            user,
            betlist_points(games, bls.last(), user) + acc,
        );
    }
}

proof fn lemma_globals_total_fold(gbs: Seq<GlobalBetV>, user: u64, acc: int)
    ensures
        gbs.fold_right(global_points_acc(user), acc) == globals_total(gbs, user) + acc,
    decreases gbs.len(),
{
    if gbs.len() > 0 {
        lemma_globals_total_fold(gbs.drop_last(), user, global_points(gbs.last(), user) + acc);
    }
}

/// Scoring accumulates commutatively: reordering the stored bet lists or
/// the global bets never changes a user's total.
pub proof fn lemma_total_points_permutation(v1: StoreV, v2: StoreV, user: u64)
    requires
        v1.games == v2.games,
        v1.bets.to_multiset() == v2.bets.to_multiset(),
        v1.global_bets.to_multiset() == v2.global_bets.to_multiset(),
    ensures
        total_points(v1, user) == total_points(v2, user),
{
    let f = betlist_points_acc(v1.games, user);
    assert(vstd::seq_lib::commutative_foldr(f)) by {
        assert(forall|x: BetListV, y: BetListV, v: int| #[trigger] f(x, f(y, v)) == f(y, f(x, v)));
    }
    lemma_games_total_fold(v1.games, v1.bets, user, 0);
    lemma_games_total_fold(v2.games, v2.bets, user, 0);
    vstd::seq_lib::lemma_fold_right_permutation(v1.bets, v2.bets, f, 0);
    let g = global_points_acc(user);
    assert(vstd::seq_lib::commutative_foldr(g)) by {
        assert(forall|x: GlobalBetV, y: GlobalBetV, v: int| #[trigger] g(x, g(y, v)) == g(
            y,
            g(x, v),
        ));
    }
    lemma_globals_total_fold(v1.global_bets, user, 0);
    lemma_globals_total_fold(v2.global_bets, user, 0);
    vstd::seq_lib::lemma_fold_right_permutation(v1.global_bets, v2.global_bets, g, 0);
}

impl DataInter {
    /// The user's total points over the whole store; the accumulation
    /// saturates at the 64-bit maximum.
    #[verifier::loop_isolation(false)]
    pub fn points_for_user(&self, user: u64) -> (r: u64)
        ensures
            r == cap_points(total_points(self@, user)),
    {
        let mut acc: u64 = 0;
        let mut i: usize = 0;
        while i < self.bets.len()
            invariant
                i <= self.bets@.len(),
                acc == cap_points(games_total(self@.games, self@.bets.subrange(0, i as int), user)),
            decreases self.bets@.len() - i,
        {
            assert(self@.bets[i as int] == self.bets@[i as int]@);
            let p: u64 = match find_bet(&self.bets[i].bets, user) {
                None => 0,
                Some(j) => {
                    assert(self@.bets[i as int].bets[j as int] == self.bets@[i as int].bets@[
                        j as int
                    ]);
                    let b = self.bets[i].bets[j];
                    match find_game(&self.games, &self.bets[i].game) {
                        None => 0,
                        Some(gi) => {
                            assert(self@.games[gi as int] == self.games@[gi as int]@);
                            match &self.games[gi].result {
                                None => 0,
                                Some(rr) => score_bet(rr.0, rr.1, b.team1, b.team2) as u64,
                            }
                        },
                    }
                },
            };
            proof {
                assert(p == betlist_points(self@.games, self@.bets[i as int], user));
                let pre = self@.bets.subrange(0, i as int + 1);
                assert(pre.drop_last() =~= self@.bets.subrange(0, i as int));
                assert(pre.last() == self@.bets[i as int]);
            }
            acc = sat_add(acc, p);
            i += 1;
        }
        assert(self@.bets.subrange(0, self@.bets.len() as int) =~= self@.bets);
        let mut k: usize = 0;
        while k < self.global_bets.len()
            invariant
                k <= self.global_bets@.len(),
                acc == cap_points(
                    games_total(self@.games, self@.bets, user) + globals_total(
                        self@.global_bets.subrange(0, k as int),
                        user,
                    ),
                ),
            decreases self.global_bets@.len() - k,
        {
            assert(self@.global_bets[k as int] == self.global_bets@[k as int]@);
            let p: u64 = match &self.global_bets[k].result {
                None => 0,
                Some(w) => {
                    match find_pred(&self.global_bets[k].bets, user) {
                        None => 0,
                        Some(j) => {
                            assert(self@.global_bets[k as int].bets[j as int]
                                == self.global_bets@[k as int].bets@[j as int].deep_view());
                            if self.global_bets[k].bets[j].1 == *w {
                                self.global_bets[k].points as u64
                            } else {
                                0
                            }
                        },
                    }
                },
            };
            proof {
                assert(p == global_points(self@.global_bets[k as int], user));
                let pre = self@.global_bets.subrange(0, k as int + 1);
                assert(pre.drop_last() =~= self@.global_bets.subrange(0, k as int));
                assert(pre.last() == self@.global_bets[k as int]);
            }
            acc = sat_add(acc, p);
            k += 1;
        }
        assert(self@.global_bets.subrange(0, self@.global_bets.len() as int)
            =~= self@.global_bets);
        acc
    }

    /// Every user with at least one recorded bet of either kind, in order
    /// of first appearance, each exactly once.
    #[verifier::loop_isolation(false)]
    pub fn users(&self) -> (us: Vec<u64>)
        ensures
            us@ == dedup_first(all_users(self@)),
    {
        let mut raw: Vec<u64> = Vec::new();
        let mut i: usize = 0;
        while i < self.bets.len()
            invariant
                i <= self.bets@.len(),
                raw@ == bet_users(self@.bets.subrange(0, i as int)),
            decreases self.bets@.len() - i,
        {
            assert(self@.bets[i as int] == self.bets@[i as int]@);
            let ghost lv = self@.bets[i as int].bets;
            assert(raw@ =~= bet_users(self@.bets.subrange(0, i as int)) + users_in_list(
                lv.subrange(0, 0),
            ));
            let mut q: usize = 0;
            while q < self.bets[i].bets.len()
                invariant
                    q <= self.bets@[i as int].bets@.len(),
                    raw@ == bet_users(self@.bets.subrange(0, i as int)) + users_in_list(
                        lv.subrange(0, q as int),
                    ),
                decreases self.bets@[i as int].bets@.len() - q,
            {
                raw.push(self.bets[i].bets[q].user);
                proof {
                    assert(lv[q as int] == self.bets@[i as int].bets@[q as int]);
                    assert(lv.subrange(0, q as int + 1).drop_last() =~= lv.subrange(0, q as int));
                    assert(raw@ =~= bet_users(self@.bets.subrange(0, i as int)) + users_in_list(
                        lv.subrange(0, q as int + 1),
                    ));
                }
                q += 1;
            }
            proof {
                assert(lv.subrange(0, lv.len() as int) =~= lv);
                let pre = self@.bets.subrange(0, i as int + 1);
                assert(pre.drop_last() =~= self@.bets.subrange(0, i as int));
                assert(pre.last() == self@.bets[i as int]);
            }
            i += 1;
        }
        assert(self@.bets.subrange(0, self@.bets.len() as int) =~= self@.bets);
        let mut k: usize = 0;
        while k < self.global_bets.len()
            invariant
                k <= self.global_bets@.len(),
                raw@ == bet_users(self@.bets) + pred_users(
                    self@.global_bets.subrange(0, k as int),
                ),
            decreases self.global_bets@.len() - k,
        {
            assert(self@.global_bets[k as int] == self.global_bets@[k as int]@);
            let ghost pv = self@.global_bets[k as int].bets;
            assert(raw@ =~= bet_users(self@.bets) + (pred_users(
                self@.global_bets.subrange(0, k as int),
            ) + users_in_preds(pv.subrange(0, 0))));
            let mut q: usize = 0;
            while q < self.global_bets[k].bets.len()
                invariant
                    q <= self.global_bets@[k as int].bets@.len(),
                    raw@ == bet_users(self@.bets) + (pred_users(
                        self@.global_bets.subrange(0, k as int),
                    ) + users_in_preds(pv.subrange(0, q as int))),
                decreases self.global_bets@[k as int].bets@.len() - q,
            {
                raw.push(self.global_bets[k].bets[q].0);
                proof {
                    assert(pv[q as int] == self.global_bets@[k as int].bets@[
                        q as int
                    ].deep_view());
                    assert(pv.subrange(0, q as int + 1).drop_last() =~= pv.subrange(0, q as int));
                    assert(raw@ =~= bet_users(self@.bets) + (pred_users(
                        self@.global_bets.subrange(0, k as int),
                    ) + users_in_preds(pv.subrange(0, q as int + 1))));
                }
                q += 1;
            }
            proof {
                assert(pv.subrange(0, pv.len() as int) =~= pv);
                let pre = self@.global_bets.subrange(0, k as int + 1);
                assert(pre.drop_last() =~= self@.global_bets.subrange(0, k as int));
                assert(pre.last() == self@.global_bets[k as int]);
                assert(raw@ =~= bet_users(self@.bets) + pred_users(pre));
            }
            k += 1;
        }
        assert(self@.global_bets.subrange(0, self@.global_bets.len() as int)
            =~= self@.global_bets);
        assert(raw@ == all_users(self@));
        distinct_u64(raw)
    }

    /// The full leaderboard: every user with at least one recorded bet of
    /// either kind, in order of first appearance, each exactly once, paired
    /// with their total points.
    #[verifier::loop_isolation(false)]
    pub fn leaderboard(&self) -> (r: Vec<(u64, u64)>)
        ensures
            ({
                let us = dedup_first(all_users(self@));
                &&& r@.len() == us.len()
                &&& forall|i: int| 0 <= i < us.len() ==> (#[trigger] r@[i]).0 == us[i]
                &&& forall|i: int|
                    0 <= i < us.len() ==> (#[trigger] r@[i]).1 == cap_points(
                        total_points(self@, us[i]),
                    )
            }),
    {
        let users = self.users();
        let mut r: Vec<(u64, u64)> = Vec::new();
        let mut i: usize = 0;
        while i < users.len()
            invariant
                i <= users@.len(),
                users@ == dedup_first(all_users(self@)),
                r@.len() == i,
                forall|j: int| 0 <= j < i ==> (#[trigger] r@[j]).0 == users@[j],
                forall|j: int|
                    0 <= j < i ==> (#[trigger] r@[j]).1 == cap_points(
                        total_points(self@, users@[j]),
                    ),
            decreases users@.len() - i,
        {
            let u = users[i];
            let p = self.points_for_user(u);
            r.push((u, p));
            i += 1;
        }
        r
    }
}

} // verus!
