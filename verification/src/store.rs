//! The aggregate root and its guarded operations: every mutation's exact
//! effect, the invariant it preserves, and the laws the operations obey.

use vstd::prelude::*;
use vstd::pervasive::VecAdditionalExecFns;

use crate::model::Team;
use crate::model::TeamV;
use crate::model::Game;
use crate::model::GameV;
use crate::model::Bet;
use crate::model::BetList;
use crate::model::BetListV;
use crate::model::GlobalBet;
use crate::model::GlobalBetV;
use crate::model::StoreError;
use crate::timestamp::Timestamp;
use crate::timestamp::parse_spec;
use crate::timestamp::parse_timestamp;
use crate::timestamp::spec_is_open;
use crate::timestamp::ts_key;
use crate::timestamp::is_open;

verus! {

/// Mathematical image of the whole aggregate.
#[verifier::ext_equal]
pub struct StoreV {
    pub teams: Seq<TeamV>,
    pub games: Seq<GameV>,
    pub bets: Seq<BetListV>,
    pub global_bets: Seq<GlobalBetV>,
}

/// The aggregate root: teams, games, per-game bets and global bets, stored
/// flat and cross-referenced by key fields only.
pub struct DataInter {
    pub teams: Vec<Team>,
    pub games: Vec<Game>,
    pub bets: Vec<BetList>,
    pub global_bets: Vec<GlobalBet>,
}

impl View for DataInter {
    type V = StoreV;

    open spec fn view(&self) -> StoreV {
        StoreV {
            teams: self.teams.deep_view(),
            games: self.games.deep_view(),
            bets: self.bets.deep_view(),
            global_bets: self.global_bets.deep_view(),
        }
    }
}

/// Whether some recorded team carries the given iso code.
pub open spec fn has_iso(teams: Seq<TeamV>, iso: Seq<char>) -> bool {
    exists|i: int| 0 <= i < teams.len() && teams[i].iso == iso
}

/// At most one bet per user in one game's list.
pub open spec fn distinct_users(bets: Seq<Bet>) -> bool {
    forall|i: int, j: int| 0 <= i < j < bets.len() ==> bets[i].user != bets[j].user
}

/// At most one prediction per user in one global bet.
pub open spec fn distinct_pred_users(bs: Seq<(u64, Seq<char>)>) -> bool {
    forall|i: int, j: int| 0 <= i < j < bs.len() ==> bs[i].0 != bs[j].0
}

/// The aggregate's invariant: team isos are unique, the bets mapping has
/// unique game keys, global-bet shorts are unique, and each bet or
/// prediction list holds at most one entry per user.
pub open spec fn wf_store(v: StoreV) -> bool {
    &&& forall|i: int, j: int| 0 <= i < j < v.teams.len() ==> v.teams[i].iso != v.teams[j].iso
    &&& forall|i: int, j: int| 0 <= i < j < v.bets.len() ==> v.bets[i].game != v.bets[j].game
    &&& forall|k: int| 0 <= k < v.bets.len() ==> distinct_users(#[trigger] v.bets[k].bets)
    &&& forall|i: int, j: int|
        0 <= i < j < v.global_bets.len() ==> v.global_bets[i].short != v.global_bets[j].short
    &&& forall|k: int|
        0 <= k < v.global_bets.len() ==> distinct_pred_users(#[trigger] v.global_bets[k].bets)
}

/// Index of the first game with the given short code, or -1.
pub open spec fn first_game_idx(games: Seq<GameV>, short: Seq<char>) -> int
    decreases games.len(),
{
    if games.len() == 0 {
        -1
    } else if games[0].short == short {
        0
    } else {
        let r = first_game_idx(games.drop_first(), short);
        if r < 0 {
            -1
        } else {
            r + 1
        }
    }
}

/// The first game with the given short code, if any.
pub open spec fn first_game(games: Seq<GameV>, short: Seq<char>) -> Option<GameV> {
    let i = first_game_idx(games, short);
    if i < 0 {
        None
    } else {
        Some(games[i])
    }
}

pub proof fn lemma_first_game_idx(games: Seq<GameV>, short: Seq<char>)
    ensures
        ({
            let i = first_game_idx(games, short);
            ||| (i == -1 && forall|j: int| 0 <= j < games.len() ==> games[j].short != short)
            ||| (0 <= i < games.len() && games[i].short == short && forall|j: int|
                0 <= j < i ==> games[j].short != short)
        }),
    decreases games.len(),
{
    if games.len() > 0 && games[0].short != short {
        lemma_first_game_idx(games.drop_first(), short);
        assert(forall|j: int|
            1 <= j < games.len() ==> #[trigger] games[j] == games.drop_first()[j - 1]);
    }
}

/// Index of the first bet by the given user, or -1.
pub open spec fn first_bet_idx(bets: Seq<Bet>, user: u64) -> int
    decreases bets.len(),
{
    if bets.len() == 0 {
        -1
    } else if bets[0].user == user {
        0
    } else {
        let r = first_bet_idx(bets.drop_first(), user);
        if r < 0 {
            -1
        } else {
            r + 1
        }
    }
}

/// The user's bet within one game's list, if any.
pub open spec fn bet_of(bets: Seq<Bet>, user: u64) -> Option<Bet> {
    let i = first_bet_idx(bets, user);
    if i < 0 {
        None
    } else {
        Some(bets[i])
    }
}

pub proof fn lemma_first_bet_idx(bets: Seq<Bet>, user: u64)
    ensures
        ({
            let i = first_bet_idx(bets, user);
            ||| (i == -1 && forall|j: int| 0 <= j < bets.len() ==> bets[j].user != user)
            ||| (0 <= i < bets.len() && bets[i].user == user && forall|j: int|
                0 <= j < i ==> bets[j].user != user)
        }),
    decreases bets.len(),
{
    if bets.len() > 0 && bets[0].user != user {
        lemma_first_bet_idx(bets.drop_first(), user);
        assert(forall|j: int|
            1 <= j < bets.len() ==> #[trigger] bets[j] == bets.drop_first()[j - 1]);
    }
}

/// Index of the first bet list keyed by the given game short, or -1.
pub open spec fn first_betlist_idx(bets: Seq<BetListV>, game: Seq<char>) -> int
    decreases bets.len(),
{
    if bets.len() == 0 {
        -1
    } else if bets[0].game == game {
        0
    } else {
        let r = first_betlist_idx(bets.drop_first(), game);
        if r < 0 {
            -1
        } else {
            r + 1
        }
    }
}

pub proof fn lemma_first_betlist_idx(bets: Seq<BetListV>, game: Seq<char>)
    ensures
        ({
            let i = first_betlist_idx(bets, game);
            ||| (i == -1 && forall|j: int| 0 <= j < bets.len() ==> bets[j].game != game)
            ||| (0 <= i < bets.len() && bets[i].game == game && forall|j: int|
                0 <= j < i ==> bets[j].game != game)
        }),
    decreases bets.len(),
{
    if bets.len() > 0 && bets[0].game != game {
        lemma_first_betlist_idx(bets.drop_first(), game);
        assert(forall|j: int|
            1 <= j < bets.len() ==> #[trigger] bets[j] == bets.drop_first()[j - 1]);
    }
}

/// Index of the first global bet with the given short code, or -1.
pub open spec fn first_global_idx(gbs: Seq<GlobalBetV>, short: Seq<char>) -> int
    decreases gbs.len(),
{
    if gbs.len() == 0 {
        -1
    } else if gbs[0].short == short {
        0
    } else {
        let r = first_global_idx(gbs.drop_first(), short);
        if r < 0 {
            -1
        } else {
            r + 1
        }
    }
}

pub proof fn lemma_first_global_idx(gbs: Seq<GlobalBetV>, short: Seq<char>)
    ensures
        ({
            let i = first_global_idx(gbs, short);
            ||| (i == -1 && forall|j: int| 0 <= j < gbs.len() ==> gbs[j].short != short)
            ||| (0 <= i < gbs.len() && gbs[i].short == short && forall|j: int|
                0 <= j < i ==> gbs[j].short != short)
        }),
    decreases gbs.len(),
{
    if gbs.len() > 0 && gbs[0].short != short {
        lemma_first_global_idx(gbs.drop_first(), short);
        assert(forall|j: int|
            1 <= j < gbs.len() ==> #[trigger] gbs[j] == gbs.drop_first()[j - 1]);
    }
}

/// Index of the first prediction by the given user, or -1.
pub open spec fn first_pred_idx(bs: Seq<(u64, Seq<char>)>, user: u64) -> int
    decreases bs.len(),
{
    if bs.len() == 0 {
        -1
    } else if bs[0].0 == user {
        0
    } else {
        let r = first_pred_idx(bs.drop_first(), user);
        if r < 0 {
            -1
        } else {
            r + 1
        }
    }
}

/// The user's recorded prediction in one global bet, if any.
pub open spec fn pred_of(bs: Seq<(u64, Seq<char>)>, user: u64) -> Option<Seq<char>> {
    let i = first_pred_idx(bs, user);
    if i < 0 {
        None
    } else {
        Some(bs[i].1)
    }
}

pub proof fn lemma_first_pred_idx(bs: Seq<(u64, Seq<char>)>, user: u64)
    ensures
        ({
            let i = first_pred_idx(bs, user);
            ||| (i == -1 && forall|j: int| 0 <= j < bs.len() ==> bs[j].0 != user)
            ||| (0 <= i < bs.len() && bs[i].0 == user && forall|j: int| 0 <= j < i ==> bs[j].0 != user)
        }),
    decreases bs.len(),
{
    if bs.len() > 0 && bs[0].0 != user {
        lemma_first_pred_idx(bs.drop_first(), user);
        assert(forall|j: int|
            1 <= j < bs.len() ==> #[trigger] bs[j] == bs.drop_first()[j - 1]);
    }
}

/// Whether some team in the vector carries the iso code; when one does, the
/// index of the first such team.
#[verifier::loop_isolation(false)]
pub(crate) fn find_team(teams: &Vec<Team>, iso: &String) -> (r: Option<usize>)
    ensures
        ({
            let tv = teams.deep_view();
            match r {
                Some(i) => i < tv.len() && tv[i as int].iso == iso@ && has_iso(tv, iso@),
                None => !has_iso(tv, iso@),
            }
        }),
{
    let mut k: usize = 0;
    while k < teams.len()
        invariant
            k <= teams@.len(),
            forall|j: int| 0 <= j < k ==> teams.deep_view()[j].iso != iso@,
        decreases teams@.len() - k,
    {
        if teams[k].iso == *iso {
            return Some(k);
        }
        k += 1;
    }
    None
}

/// Index of the first game in the vector with the given short code.
#[verifier::loop_isolation(false)]
pub(crate) fn find_game(games: &Vec<Game>, short: &String) -> (r: Option<usize>)
    ensures
        ({
            let gv = games.deep_view();
            match r {
                Some(i) => i < gv.len() && first_game_idx(gv, short@) == i as int,
                None => first_game_idx(gv, short@) == -1,
            }
        }),
{
    let ghost gv = games.deep_view();
    proof {
        lemma_first_game_idx(gv, short@);
    }
    let mut k: usize = 0;
    while k < games.len()
        invariant
            k <= games@.len(),
            gv == games.deep_view(),
            forall|j: int| 0 <= j < k ==> gv[j].short != short@,
        decreases games@.len() - k,
    {
        assert(gv[k as int] == games@[k as int].deep_view());
        if games[k].short == *short {
            return Some(k);
        }
        k += 1;
    }
    None
}

/// Index of the first bet list in the vector keyed by the given game short.
#[verifier::loop_isolation(false)]
pub(crate) fn find_betlist(bets: &Vec<BetList>, game: &String) -> (r: Option<usize>)
    ensures
        ({
            let bv = bets.deep_view();
            match r {
                Some(i) => i < bv.len() && first_betlist_idx(bv, game@) == i as int,
                None => first_betlist_idx(bv, game@) == -1,
            }
        }),
{
    let ghost bv = bets.deep_view();
    proof {
        lemma_first_betlist_idx(bv, game@);
    }
    let mut k: usize = 0;
    while k < bets.len()
        invariant
            k <= bets@.len(),
            bv == bets.deep_view(),
            forall|j: int| 0 <= j < k ==> bv[j].game != game@,
        decreases bets@.len() - k,
    {
        assert(bv[k as int] == bets@[k as int].deep_view());
        if bets[k].game == *game {
            return Some(k);
        }
        k += 1;
    }
    None
}

/// Index of the first bet by the user in one game's list.
#[verifier::loop_isolation(false)]
pub(crate) fn find_bet(bets: &Vec<Bet>, user: u64) -> (r: Option<usize>)
    ensures
        ({
            let bv = bets.deep_view();
            match r {
                Some(i) => i < bv.len() && first_bet_idx(bv, user) == i as int,
                None => first_bet_idx(bv, user) == -1,
            }
        }),
{
    let ghost bv = bets.deep_view();
    proof {
        lemma_first_bet_idx(bv, user);
    }
    let mut k: usize = 0;
    while k < bets.len()
        invariant
            k <= bets@.len(),
            bv == bets.deep_view(),
            forall|j: int| 0 <= j < k ==> bv[j].user != user,
        decreases bets@.len() - k,
    {
        assert(bv[k as int] == bets@[k as int].deep_view());
        if bets[k].user == user {
            return Some(k);
        }
        k += 1;
    }
    None
}

/// Index of the first global bet in the vector with the given short code.
#[verifier::loop_isolation(false)]
pub(crate) fn find_global(gbs: &Vec<GlobalBet>, short: &String) -> (r: Option<usize>)
    ensures
        ({
            let gv = gbs.deep_view();
            match r {
                Some(i) => i < gv.len() && first_global_idx(gv, short@) == i as int,
                None => first_global_idx(gv, short@) == -1,
            }
        }),
{
    let ghost gv = gbs.deep_view();
    proof {
        lemma_first_global_idx(gv, short@);
    }
    let mut k: usize = 0;
    while k < gbs.len()
        invariant
            k <= gbs@.len(),
            gv == gbs.deep_view(),
            forall|j: int| 0 <= j < k ==> gv[j].short != short@,
        decreases gbs@.len() - k,
    {
        assert(gv[k as int] == gbs@[k as int].deep_view());
        if gbs[k].short == *short {
            return Some(k);
        }
        k += 1;
    }
    None
}

/// Index of the first prediction by the user in one global bet.
#[verifier::loop_isolation(false)]
pub(crate) fn find_pred(bs: &Vec<(u64, String)>, user: u64) -> (r: Option<usize>)
    ensures
        ({
            let bv = bs.deep_view();
            match r {
                Some(i) => i < bv.len() && first_pred_idx(bv, user) == i as int,
                None => first_pred_idx(bv, user) == -1,
            }
        }),
{
    let ghost bv = bs.deep_view();
    proof {
        lemma_first_pred_idx(bv, user);
    }
    let mut k: usize = 0;
    while k < bs.len()
        invariant
            k <= bs@.len(),
            bv == bs.deep_view(),
            forall|j: int| 0 <= j < k ==> bv[j].0 != user,
        decreases bs@.len() - k,
    {
        assert(bv[k as int] == bs@[k as int].deep_view());
        if bs[k].0 == user {
            return Some(k);
        }
        k += 1;
    }
    None
}

/// The image of a store to which one team was added when its iso is fresh,
/// and the unchanged store otherwise.
pub open spec fn add_team_spec(v: StoreV, t: TeamV) -> StoreV {
    if has_iso(v.teams, t.iso) {
        v
    } else {
        StoreV { teams: v.teams.push(t), ..v }
    }
}

impl DataInter {
    /// The aggregate's invariant, on the image of this store.
    pub open spec fn wf(&self) -> bool {
        wf_store(self@)
    }

    /// The empty aggregate: three zeroed containers and no games.
    pub fn empty() -> (d: DataInter)
        ensures
            d@ =~~= (StoreV {
                teams: Seq::empty(),
                games: Seq::empty(),
                bets: Seq::empty(),
                global_bets: Seq::empty(),
            }),
            d.wf(),
    {
        DataInter { teams: Vec::new(), games: Vec::new(), bets: Vec::new(), global_bets: Vec::new() }
    }

    /// Records a new team; fails with `DuplicateKey` when its iso is already
    /// present, in which case nothing changes.
    pub fn add_team(&mut self, team: Team) -> (r: Result<(), StoreError>)
        requires
            old(self).wf(),
        ensures
            final(self).wf(),
            final(self)@ == add_team_spec(old(self)@, team@),
            match r {
                Ok(u) => !has_iso(old(self)@.teams, team@.iso) && final(self)@ == (StoreV {
                    teams: old(self)@.teams.push(team@),
                    ..old(self)@
                }),
                Err(e) => e == StoreError::DuplicateKey && has_iso(old(self)@.teams, team@.iso)
                    && final(self)@ == old(self)@,
            },
    {
        match find_team(&self.teams, &team.iso) {
            Some(_) => Err(StoreError::DuplicateKey),
            None => {
                self.teams.push(team);
                assert(self.teams.deep_view() =~= old(self).teams.deep_view().push(team@));
                assert(self@ =~~= (StoreV {
                    teams: old(self)@.teams.push(team@),
                    ..old(self)@
                }));
                Ok(())
            },
        }
    }

    /// Records a new game after validating both team references and the
    /// `"YYYY MM DD HH:MM"` start time; on failure nothing changes, and the
    /// error states which validation failed (unknown team before bad
    /// timestamp).
    pub fn add_game(
        &mut self,
        name: String,
        short: String,
        team1_iso: String,
        team2_iso: String,
        start_time: &str,
    ) -> (r: Result<(), StoreError>)
        requires
            old(self).wf(),
        ensures
            final(self).wf(),
            match r {
                Ok(u) => {
                    &&& has_iso(old(self)@.teams, team1_iso@)
                    &&& has_iso(old(self)@.teams, team2_iso@)
                    &&& parse_spec(start_time@) matches Some(t) && final(self)@ == (StoreV {
                        games: old(self)@.games.push(
                            (GameV {
                                name: name@,
                                short: short@,
                                team1_iso: team1_iso@,
                                team2_iso: team2_iso@,
                                start_time: t,
                                result: None,
                            }),
                        ),
                        ..old(self)@
                    })
                },
                Err(e) => final(self)@ == old(self)@ && ((e == StoreError::UnknownTeam && (!has_iso(
                    old(self)@.teams,
                    team1_iso@,
                ) || !has_iso(old(self)@.teams, team2_iso@))) || (e == StoreError::InvalidTimestamp
                    && has_iso(old(self)@.teams, team1_iso@) && has_iso(
                    old(self)@.teams,
                    team2_iso@,
                ) && parse_spec(start_time@) is None)),
            },
    {
        if find_team(&self.teams, &team1_iso).is_none() {
            return Err(StoreError::UnknownTeam);
        }
        if find_team(&self.teams, &team2_iso).is_none() {
            return Err(StoreError::UnknownTeam);
        }
        let t = match parse_timestamp(start_time) {
            Err(e) => {
                return Err(e);
            },
            Ok(t) => t,
        };
        let game = Game {
            name,
            short,
            team1_iso,
            team2_iso,
            start_time: t,
            result: None,
        };
        let ghost gv = game@;
        self.games.push(game);
        assert(self.games.deep_view() =~= old(self).games.deep_view().push(gv));
        assert(self@ =~~= (StoreV { games: old(self)@.games.push(gv), ..old(self)@ }));
        Ok(())
    }

    /// Records or overwrites a game's final score; last write wins, even
    /// when a result is already present. Fails with `UnknownGame` when the
    /// short code matches no game, in which case nothing changes.
    pub fn set_result(
        &mut self,
        short: &String,
        team1_score: u16,
        team2_score: u16,
        note: String,
    ) -> (r: Result<(), StoreError>)
        requires
            old(self).wf(),
        ensures
            final(self).wf(),
            ({
                let i = first_game_idx(old(self)@.games, short@);
                match r {
                    Ok(u) => 0 <= i && final(self)@ == (StoreV {
                        games: old(self)@.games.update(
                            i,
                            (GameV {
                                result: Some((team1_score, team2_score, note@)),
                                ..old(self)@.games[i]
                            }),
                        ),
                        ..old(self)@
                    }),
                    Err(e) => e == StoreError::UnknownGame && i == -1
                        && final(self)@ == old(self)@,
                }
            }),
    {
        let ghost nv = note@;
        let i = match find_game(&self.games, short) {
            None => {
                return Err(StoreError::UnknownGame);
            },
            Some(i) => i,
        };
        let g = &self.games[i];
        let updated = Game {
            name: g.name.clone(),
            short: g.short.clone(),
            team1_iso: g.team1_iso.clone(),
            team2_iso: g.team2_iso.clone(),
            start_time: g.start_time,
            result: Some((team1_score, team2_score, note)),
        };
        let ghost uv = updated@;
        self.games.set(i, updated);
        proof {
            assert(old(self)@.games[i as int] == old(self).games@[i as int].deep_view());
            assert(self.games.deep_view() =~= old(self).games.deep_view().update(i as int, uv));
            assert(uv =~~= (GameV {
                result: Some((team1_score, team2_score, nv)),
                ..old(self)@.games[i as int]
            }));
            assert(self@ =~~= (StoreV {
                games: old(self)@.games.update(i as int, uv),
                ..old(self)@
            }));
        }
        Ok(())
    }

    /// Inserts or overwrites the caller's bet on a game. Fails with
    /// `UnknownGame` when the short code matches no game, and with
    /// `BettingClosed` once the game's start time is no longer in the
    /// future; on failure nothing changes, so an existing bet survives a
    /// late attempt untouched.
    #[verifier::loop_isolation(false)]
    pub fn upsert_bet(
        &mut self,
        short: &String,
        user: u64,
        team1_score: u16,
        team2_score: u16,
        now: &Timestamp,
    ) -> (r: Result<(), StoreError>)
        requires
            old(self).wf(),
        ensures
            final(self).wf(),
            ({
                let g = first_game(old(self)@.games, short@);
                let b = (Bet { user, team1: team1_score, team2: team2_score });
                match r {
                    Ok(u) => g matches Some(gm) && spec_is_open(gm.start_time, *now)
                        && final(self)@ == upsert_bet_spec(old(self)@, short@, b),
                    Err(e) => final(self)@ == old(self)@ && ((e == StoreError::UnknownGame && g
                        is None) || (e == StoreError::BettingClosed && (g matches Some(gm)
                        && !spec_is_open(gm.start_time, *now)))),
                }
            }),
    {
        let gi = match find_game(&self.games, short) {
            None => {
                return Err(StoreError::UnknownGame);
            },
            Some(i) => i,
        };
        proof {
            assert(old(self)@.games[gi as int] == old(self).games@[gi as int].deep_view());
        }
        if !is_open(&self.games[gi].start_time, now) {
            return Err(StoreError::BettingClosed);
        }
        let b = Bet { user, team1: team1_score, team2: team2_score };
        match find_betlist(&self.bets, short) {
            None => {
                let mut bl_bets: Vec<Bet> = Vec::new();
                bl_bets.push(b);
                let bl = BetList { game: short.clone(), bets: bl_bets };
                let ghost blv = bl@;
                self.bets.push(bl);
                proof {
                    assert(blv.bets =~= seq![b]);
                    assert(blv =~~= (BetListV { game: short@, bets: seq![b] }));
                    assert(self.bets.deep_view() =~= old(self).bets.deep_view().push(blv));
                    assert(self@ =~~= upsert_bet_spec(old(self)@, short@, b));
                    lemma_upsert_bet_spec_wf(old(self)@, short@, b);
                }
            },
            Some(k) => {
                let ghost olist = old(self)@.bets[k as int].bets;
                proof {
                    assert(old(self)@.bets[k as int] == old(self).bets@[k as int].deep_view());
                }
                let key = self.bets[k].game.clone();
                let j = find_bet(&self.bets[k].bets, user);
                let mut nb: Vec<Bet> = Vec::new();
                let mut q: usize = 0;
                while q < self.bets[k].bets.len()
                    invariant
                        q <= self.bets@[k as int].bets@.len(),
                        nb@ =~= olist.subrange(0, q as int),
                    decreases self.bets@[k as int].bets@.len() - q,
                {
                    nb.push(self.bets[k].bets[q]);
                    assert(olist[q as int] == self.bets@[k as int].bets@[q as int]);
                    assert(nb@ =~= olist.subrange(0, q as int + 1));
                    q += 1;
                }
                assert(nb@ =~= olist);
                match j {
                    Some(jj) => {
                        nb.set(jj, b);
                    },
                    None => {
                        nb.push(b);
                    },
                }
                assert(nb@ =~= upsert_in_list(olist, b));
                let nl = BetList { game: key, bets: nb };
                let ghost nlv = nl@;
                self.bets.set(k, nl);
                proof {
                    assert(nlv.bets =~= upsert_in_list(olist, b));
                    assert(self.bets.deep_view() =~= old(self).bets.deep_view().update(
                        k as int,
                        nlv,
                    ));
                    assert(self@ =~~= upsert_bet_spec(old(self)@, short@, b));
                    lemma_upsert_bet_spec_wf(old(self)@, short@, b);
                }
            },
        }
        Ok(())
    }

    /// Records a new global bet; fails with `DuplicateKey` when its short
    /// code is already present, in which case nothing changes.
    pub fn add_global_bet(&mut self, gb: GlobalBet) -> (r: Result<(), StoreError>)
        requires
            old(self).wf(),
            distinct_pred_users(gb@.bets),
        ensures
            final(self).wf(),
            ({
                let i = first_global_idx(old(self)@.global_bets, gb@.short);
                match r {
                    Ok(u) => i == -1 && final(self)@ == (StoreV {
                        global_bets: old(self)@.global_bets.push(gb@),
                        ..old(self)@
                    }),
                    Err(e) => e == StoreError::DuplicateKey && 0 <= i
                        && final(self)@ == old(self)@,
                }
            }),
    {
        proof {
            lemma_first_global_idx(old(self)@.global_bets, gb@.short);
        }
        match find_global(&self.global_bets, &gb.short) {
            Some(_) => Err(StoreError::DuplicateKey),
            None => {
                let ghost gv = gb@;
                self.global_bets.push(gb);
                proof {
                    assert(self.global_bets.deep_view() =~= old(self).global_bets.deep_view().push(
                        gv,
                    ));
                    assert(self@ =~~= (StoreV {
                        global_bets: old(self)@.global_bets.push(gv),
                        ..old(self)@
                    }));
                }
                Ok(())
            },
        }
    }

    /// Inserts or overwrites the caller's prediction on a global bet. Fails
    /// with `UnknownGlobalBet` when the short code matches no global bet,
    /// with `UnknownTeam` when the chosen iso names no recorded team, and
    /// with `BettingClosed` once the global bet's start time is no longer in
    /// the future; on failure nothing changes.
    #[verifier::loop_isolation(false)]
    pub fn upsert_global_bet_prediction(
        &mut self,
        global_short: &String,
        user: u64,
        team_iso: &String,
        now: &Timestamp,
    ) -> (r: Result<(), StoreError>)
        requires
            old(self).wf(),
        ensures
            final(self).wf(),
            ({
                let i = first_global_idx(old(self)@.global_bets, global_short@);
                match r {
                    Ok(u) => {
                        &&& 0 <= i
                        &&& has_iso(old(self)@.teams, team_iso@)
                        &&& spec_is_open(old(self)@.global_bets[i].start_time, *now)
                        &&& final(self)@ == upsert_pred_spec(
                            old(self)@,
                            global_short@,
                            user,
                            team_iso@,
                        )
                    },
                    Err(e) => final(self)@ == old(self)@ && ((e == StoreError::UnknownGlobalBet
                        && i == -1) || (e == StoreError::UnknownTeam && 0 <= i && !has_iso(
                        old(self)@.teams,
                        team_iso@,
                    )) || (e == StoreError::BettingClosed && 0 <= i && has_iso(
                        old(self)@.teams,
                        team_iso@,
                    ) && !spec_is_open(old(self)@.global_bets[i].start_time, *now))),
                }
            }),
    {
        let k = match find_global(&self.global_bets, global_short) {
            None => {
                return Err(StoreError::UnknownGlobalBet);
            },
            Some(k) => k,
        };
        proof {
            assert(old(self)@.global_bets[k as int] == old(self).global_bets@[
                k as int
            ].deep_view());
        }
        if find_team(&self.teams, team_iso).is_none() {
            return Err(StoreError::UnknownTeam);
        }
        if !is_open(&self.global_bets[k].start_time, now) {
            return Err(StoreError::BettingClosed);
        }
        let ghost olist = old(self)@.global_bets[k as int].bets;
        let j = find_pred(&self.global_bets[k].bets, user);
        let g = &self.global_bets[k];
        let mut nb: Vec<(u64, String)> = Vec::new();
        let mut q: usize = 0;
        while q < g.bets.len()
            invariant
                q <= g.bets@.len(),
                nb.deep_view() =~= olist.subrange(0, q as int),
            decreases g.bets@.len() - q,
        {
            nb.push((g.bets[q].0, g.bets[q].1.clone()));
            assert(nb.deep_view() =~= olist.subrange(0, q as int + 1));
            q += 1;
        }
        assert(nb.deep_view() =~= olist);
        match j {
            Some(jj) => {
                nb.set(jj, (user, team_iso.clone()));
            },
            None => {
                nb.push((user, team_iso.clone()));
            },
        }
        assert(nb.deep_view() =~= upsert_pred(olist, user, team_iso@));
        let ng = GlobalBet {
            name: g.name.clone(),
            short: g.short.clone(),
            points: g.points,
            start_time: g.start_time,
            result: match &g.result {
                None => None,
                Some(rr) => Some(rr.clone()),
            },
            bets: nb,
        };
        let ghost ngv = ng@;
        self.global_bets.set(k, ng);
        proof {
            assert(ngv =~~= (GlobalBetV {
                bets: upsert_pred(olist, user, team_iso@),
                ..old(self)@.global_bets[k as int]
            }));
            assert(self.global_bets.deep_view() =~= old(self).global_bets.deep_view().update(
                k as int,
                ngv,
            ));
            assert(self@ =~~= upsert_pred_spec(old(self)@, global_short@, user, team_iso@));
            lemma_upsert_pred_spec_wf(old(self)@, global_short@, user, team_iso@);
        }
        Ok(())
    }

    /// Records or overwrites a global bet's winning team; last write wins.
    /// Fails with `UnknownGlobalBet` when the short code matches no global
    /// bet and with `UnknownTeam` when the iso names no recorded team; on
    /// failure nothing changes.
    pub fn set_global_bet_result(&mut self, global_short: &String, team_iso: &String) -> (r:
        Result<(), StoreError>)
        requires
            old(self).wf(),
        ensures
            final(self).wf(),
            ({
                let i = first_global_idx(old(self)@.global_bets, global_short@);
                match r {
                    Ok(u) => 0 <= i && has_iso(old(self)@.teams, team_iso@) && final(self)@
                        == (StoreV {
                        global_bets: old(self)@.global_bets.update(
                            i,
                            (GlobalBetV { result: Some(team_iso@), ..old(self)@.global_bets[i] }),
                        ),
                        ..old(self)@
                    }),
                    Err(e) => final(self)@ == old(self)@ && ((e == StoreError::UnknownGlobalBet
                        && i == -1) || (e == StoreError::UnknownTeam && 0 <= i && !has_iso(
                        old(self)@.teams,
                        team_iso@,
                    ))),
                }
            }),
    {
        let k = match find_global(&self.global_bets, global_short) {
            None => {
                return Err(StoreError::UnknownGlobalBet);
            },
            Some(k) => k,
        };
        proof {
            assert(old(self)@.global_bets[k as int] == old(self).global_bets@[
                k as int
            ].deep_view());
        }
        if find_team(&self.teams, team_iso).is_none() {
            return Err(StoreError::UnknownTeam);
        }
        let g = &self.global_bets[k];
        let mut ng = g.duplicate();
        ng.result = Some(team_iso.clone());
        let ghost ngv = ng@;
        self.global_bets.set(k, ng);
        proof {
            assert(ngv =~~= (GlobalBetV {
                result: Some(team_iso@),
                ..old(self)@.global_bets[k as int]
            }));
            assert(self.global_bets.deep_view() =~= old(self).global_bets.deep_view().update(
                k as int,
                ngv,
            ));
            assert(self@ =~~= (StoreV {
                global_bets: old(self)@.global_bets.update(k as int, ngv),
                ..old(self)@
            }));
        }
        Ok(())
    }
}


/// The image of one game's bet list after inserting or overwriting the
/// user's bet.
pub open spec fn upsert_in_list(bets: Seq<Bet>, b: Bet) -> Seq<Bet> {
    let i = first_bet_idx(bets, b.user);
    if i < 0 {
        bets.push(b)
    } else {
        bets.update(i, b)
    }
}

/// The image of a store after inserting or overwriting one user's bet on one
/// game (meaningful when the game exists and its start time is still open).
pub open spec fn upsert_bet_spec(v: StoreV, short: Seq<char>, b: Bet) -> StoreV {
    let k = first_betlist_idx(v.bets, short);
    if k < 0 {
        StoreV { bets: v.bets.push(BetListV { game: short, bets: seq![b] }), ..v }
    } else {
        StoreV {
            bets: v.bets.update(
                k,
                BetListV { game: v.bets[k].game, bets: upsert_in_list(v.bets[k].bets, b) },
            ),
            ..v
        }
    }
}

/// Upserting a bet preserves the aggregate invariant.
pub proof fn lemma_upsert_bet_spec_wf(v: StoreV, short: Seq<char>, b: Bet)
    requires
        wf_store(v),
    ensures
        wf_store(upsert_bet_spec(v, short, b)),
{
    lemma_first_betlist_idx(v.bets, short);
    let k = first_betlist_idx(v.bets, short);
    let w = upsert_bet_spec(v, short, b);
    if k < 0 {
        assert(distinct_users(seq![b]));
        assert(forall|i: int, j: int| 0 <= i < j < w.bets.len() ==> w.bets[i].game != w.bets[j].game);
        assert(forall|q: int| 0 <= q < w.bets.len() ==> distinct_users(#[trigger] w.bets[q].bets));
    } else {
        let olist = v.bets[k].bets;
        lemma_first_bet_idx(olist, b.user);
        let i = first_bet_idx(olist, b.user);
        let nlist = upsert_in_list(olist, b);
        assert(distinct_users(olist));
        if i < 0 {
            assert(forall|j: int| 0 <= j < olist.len() ==> olist[j].user != b.user);
            assert(distinct_users(nlist));
        } else {
            assert(forall|j: int|
                0 <= j < nlist.len() ==> (#[trigger] nlist[j]).user == olist[j].user);
            assert(distinct_users(nlist));
        }
        assert(forall|i2: int, j2: int|
            0 <= i2 < j2 < w.bets.len() ==> w.bets[i2].game != w.bets[j2].game);
        assert(forall|q: int| 0 <= q < w.bets.len() ==> distinct_users(#[trigger] w.bets[q].bets));
    }
}


/// The image of one global bet's prediction list after inserting or
/// overwriting the user's chosen team.
pub open spec fn upsert_pred(bs: Seq<(u64, Seq<char>)>, user: u64, iso: Seq<char>) -> Seq<
    (u64, Seq<char>),
> {
    let i = first_pred_idx(bs, user);
    if i < 0 {
        bs.push((user, iso))
    } else {
        bs.update(i, (user, iso))
    }
}

/// The image of a store after inserting or overwriting one user's
/// prediction on one global bet (meaningful when that global bet exists).
pub open spec fn upsert_pred_spec(v: StoreV, gshort: Seq<char>, user: u64, iso: Seq<char>) -> StoreV {
    let k = first_global_idx(v.global_bets, gshort);
    if k < 0 {
        v
    } else {
        StoreV {
            global_bets: v.global_bets.update(
                k,
                GlobalBetV { bets: upsert_pred(v.global_bets[k].bets, user, iso), ..v.global_bets[k] },
            ),
            ..v
        }
    }
}

/// Upserting a prediction preserves the aggregate invariant.
pub proof fn lemma_upsert_pred_spec_wf(v: StoreV, gshort: Seq<char>, user: u64, iso: Seq<char>)
    requires
        wf_store(v),
    ensures
        wf_store(upsert_pred_spec(v, gshort, user, iso)),
{
    lemma_first_global_idx(v.global_bets, gshort);
    let k = first_global_idx(v.global_bets, gshort);
    let w = upsert_pred_spec(v, gshort, user, iso);
    if k >= 0 {
        let olist = v.global_bets[k].bets;
        lemma_first_pred_idx(olist, user);
        let i = first_pred_idx(olist, user);
        let nlist = upsert_pred(olist, user, iso);
        assert(distinct_pred_users(olist));
        if i < 0 {
            assert(forall|j: int| 0 <= j < olist.len() ==> olist[j].0 != user);
            assert(distinct_pred_users(nlist));
        } else {
            assert(forall|j: int| 0 <= j < nlist.len() ==> (#[trigger] nlist[j]).0 == olist[j].0);
            assert(distinct_pred_users(nlist));
        }
        assert(forall|i2: int, j2: int|
            0 <= i2 < j2 < w.global_bets.len() ==> w.global_bets[i2].short
                != w.global_bets[j2].short);
        assert(forall|q: int|
            0 <= q < w.global_bets.len() ==> distinct_pred_users(#[trigger] w.global_bets[q].bets));
    }
}


/// Stable insertion of a game behind every game that starts no later.
pub open spec fn insert_sorted(s: Seq<GameV>, g: GameV) -> Seq<GameV>
    decreases s.len(),
{
    if s.len() == 0 {
        seq![g]
    } else if ts_key(s.last().start_time) <= ts_key(g.start_time) {
        s.push(g)
    } else {
        insert_sorted(s.drop_last(), g).push(s.last())
    }
}

/// Stable sort of games by start time: games with equal start times keep
/// their original relative order.
pub open spec fn sort_games_spec(s: Seq<GameV>) -> Seq<GameV>
    decreases s.len(),
{
    if s.len() == 0 {
        Seq::empty()
    } else {
        insert_sorted(sort_games_spec(s.drop_last()), s.last())
    }
}

proof fn lemma_insert_sorted_at(s: Seq<GameV>, g: GameV, p: int)
    requires
        0 <= p <= s.len(),
        forall|q: int| p <= q < s.len() ==> ts_key((#[trigger] s[q]).start_time) > ts_key(
            g.start_time,
        ),
        p > 0 ==> ts_key(s[p - 1].start_time) <= ts_key(g.start_time),
    ensures
        insert_sorted(s, g) == s.insert(p, g),
    decreases s.len(),
{
    if s.len() == 0 {
        assert(insert_sorted(s, g) =~= s.insert(0, g));
    } else if ts_key(s.last().start_time) <= ts_key(g.start_time) {
        assert(p == s.len());
        assert(s.push(g) =~= s.insert(p, g));
    } else {
        assert(p < s.len());
        lemma_insert_sorted_at(s.drop_last(), g, p);
        assert(s.drop_last().insert(p, g).push(s.last()) =~= s.insert(p, g));
    }
}

/// The sort is ordered by start time and is a permutation of its input.
pub proof fn lemma_sort_games_sorted(s: Seq<GameV>)
    ensures
        forall|i: int, j: int|
            0 <= i <= j < sort_games_spec(s).len() ==> ts_key(
                (#[trigger] sort_games_spec(s)[i]).start_time,
            ) <= ts_key((#[trigger] sort_games_spec(s)[j]).start_time),
        sort_games_spec(s).to_multiset() == s.to_multiset(),
    decreases s.len(),
{
    broadcast use vstd::seq_lib::group_to_multiset_ensures;

    if s.len() > 0 {
        lemma_sort_games_sorted(s.drop_last());
        lemma_insert_sorted_ordered(sort_games_spec(s.drop_last()), s.last());
        assert(s =~= s.drop_last().push(s.last()));
        assert(s.to_multiset() =~= s.drop_last().to_multiset().insert(s.last()));
    }
}

proof fn lemma_insert_sorted_ordered(s: Seq<GameV>, g: GameV)
    requires
        forall|i: int, j: int|
            0 <= i <= j < s.len() ==> ts_key((#[trigger] s[i]).start_time) <= ts_key(
                (#[trigger] s[j]).start_time,
            ),
    ensures
        ({
            let n = insert_sorted(s, g);
            &&& n.len() == s.len() + 1
            &&& forall|i: int, j: int|
                0 <= i <= j < n.len() ==> ts_key((#[trigger] n[i]).start_time) <= ts_key(
                    (#[trigger] n[j]).start_time,
                )
            &&& n.to_multiset() == s.to_multiset().insert(g)
        }),
    decreases s.len(),
{
    broadcast use vstd::seq_lib::group_to_multiset_ensures;

    let n = insert_sorted(s, g);
    if s.len() == 0 {
        assert(n.to_multiset() =~= s.to_multiset().insert(g));
    } else if ts_key(s.last().start_time) <= ts_key(g.start_time) {
    } else {
        let s1 = s.drop_last();
        lemma_insert_sorted_ordered(s1, g);
        let m = insert_sorted(s1, g);
        assert(n == m.push(s.last()));
        assert(forall|i: int| 0 <= i < m.len() ==> ts_key((#[trigger] m[i]).start_time) <= ts_key(
            s.last().start_time,
        )) by {
            assert(m.to_multiset().len() == m.len());
            assert(forall|i: int| 0 <= i < m.len() ==> m.to_multiset().contains(#[trigger] m[i]));
            assert(forall|i: int|
                0 <= i < m.len() ==> m[i] == g || s1.to_multiset().contains(#[trigger] m[i]));
            assert(forall|x: GameV|
                s1.to_multiset().contains(x) ==> exists|q: int|
                    0 <= q < s1.len() && #[trigger] s1[q] == x);
            assert(forall|q: int|
                0 <= q < s1.len() ==> ts_key((#[trigger] s1[q]).start_time) <= ts_key(
                    s.last().start_time,
                ));
        }
        assert(s =~= s1.push(s.last()));
        assert(n.to_multiset() =~= s.to_multiset().insert(g)) by {
            assert(n.to_multiset() =~= m.to_multiset().insert(s.last()));
            assert(s.to_multiset() =~= s1.to_multiset().insert(s.last()));
            assert(m.to_multiset() =~= s1.to_multiset().insert(g));
            assert(s1.to_multiset().insert(g).insert(s.last()) =~= s1.to_multiset().insert(
                s.last(),
            ).insert(g));
        }
    }
}

/// The games still open for new predictions, in insertion order.
pub open spec fn open_games_spec(s: Seq<GameV>, now: Timestamp) -> Seq<GameV>
    decreases s.len(),
{
    if s.len() == 0 {
        Seq::empty()
    } else {
        let rest = open_games_spec(s.drop_last(), now);
        if spec_is_open(s.last().start_time, now) {
            rest.push(s.last())
        } else {
            rest
        }
    }
}

/// The global bets still open for new predictions, in insertion order.
pub open spec fn open_globals_spec(s: Seq<GlobalBetV>, now: Timestamp) -> Seq<GlobalBetV>
    decreases s.len(),
{
    if s.len() == 0 {
        Seq::empty()
    } else {
        let rest = open_globals_spec(s.drop_last(), now);
        if spec_is_open(s.last().start_time, now) {
            rest.push(s.last())
        } else {
            rest
        }
    }
}

/// The (game short, bet) pairs one user has placed, in store order.
pub open spec fn user_bets_spec(bls: Seq<BetListV>, user: u64) -> Seq<(Seq<char>, Bet)>
    decreases bls.len(),
{
    if bls.len() == 0 {
        Seq::empty()
    } else {
        let rest = user_bets_spec(bls.drop_last(), user);
        match bet_of(bls.last().bets, user) {
            Some(b) => rest.push((bls.last().game, b)),
            None => rest,
        }
    }
}

/// The (global short, chosen iso) pairs one user has placed, in store order.
pub open spec fn user_preds_spec(gbs: Seq<GlobalBetV>, user: u64) -> Seq<(Seq<char>, Seq<char>)>
    decreases gbs.len(),
{
    if gbs.len() == 0 {
        Seq::empty()
    } else {
        let rest = user_preds_spec(gbs.drop_last(), user);
        match pred_of(gbs.last().bets, user) {
            Some(iso) => rest.push((gbs.last().short, iso)),
            None => rest,
        }
    }
}

#[verifier::loop_isolation(false)]
fn insert_game_sorted(acc: &mut Vec<Game>, g: Game)
    ensures
        final(acc).deep_view() == insert_sorted(old(acc).deep_view(), g@),
{
    let key = g.start_time.key();
    let mut p: usize = acc.len();
    while p > 0 && acc[p - 1].start_time.key() > key
        invariant
            p <= acc@.len(),
            forall|q: int| p <= q < acc@.len() ==> ts_key(
                (#[trigger] acc.deep_view()[q]).start_time,
            ) > ts_key(g@.start_time),
        decreases p,
    {
        assert(acc.deep_view()[p - 1] == acc@[p - 1]@);
        p -= 1;
    }
    proof {
        if p > 0 {
            assert(acc.deep_view()[p - 1] == acc@[p - 1]@);
        }
        lemma_insert_sorted_at(acc.deep_view(), g@, p as int);
    }
    acc.insert(p, g);
    assert(acc.deep_view() =~= old(acc).deep_view().insert(p as int, g@));
}

impl DataInter {
    /// A copy of every team, in insertion order.
    #[verifier::loop_isolation(false)]
    pub fn list_teams(&self) -> (r: Vec<Team>)
        ensures
            r.deep_view() == self@.teams,
    {
        let mut r: Vec<Team> = Vec::new();
        let mut i: usize = 0;
        while i < self.teams.len()
            invariant
                i <= self.teams@.len(),
                r.deep_view() =~= self@.teams.subrange(0, i as int),
            decreases self.teams@.len() - i,
        {
            assert(self@.teams[i as int] == self.teams@[i as int]@);
            r.push(self.teams[i].duplicate());
            assert(r.deep_view() =~= self@.teams.subrange(0, i as int + 1));
            i += 1;
        }
        assert(r.deep_view() =~= self@.teams);
        r
    }

    /// A copy of every game, ordered by start time ascending; games with
    /// equal start times keep their insertion order.
    #[verifier::loop_isolation(false)]
    pub fn list_games(&self) -> (r: Vec<Game>)
        ensures
            r.deep_view() == sort_games_spec(self@.games),
    {
        let mut r: Vec<Game> = Vec::new();
        let mut i: usize = 0;
        while i < self.games.len()
            invariant
                i <= self.games@.len(),
                r.deep_view() == sort_games_spec(self@.games.subrange(0, i as int)),
            decreases self.games@.len() - i,
        {
            assert(self@.games[i as int] == self.games@[i as int]@);
            insert_game_sorted(&mut r, self.games[i].duplicate());
            proof {
                let pre = self@.games.subrange(0, i as int + 1);
                assert(pre.drop_last() =~= self@.games.subrange(0, i as int));
                assert(pre.last() == self@.games[i as int]);
            }
            i += 1;
        }
        assert(self@.games.subrange(0, self@.games.len() as int) =~= self@.games);
        r
    }

    /// A copy of the games whose start time still lies in the future, in
    /// insertion order.
    #[verifier::loop_isolation(false)]
    pub fn list_open_games(&self, now: &Timestamp) -> (r: Vec<Game>)
        ensures
            r.deep_view() == open_games_spec(self@.games, *now),
    {
        let mut r: Vec<Game> = Vec::new();
        let mut i: usize = 0;
        while i < self.games.len()
            invariant
                i <= self.games@.len(),
                r.deep_view() == open_games_spec(self@.games.subrange(0, i as int), *now),
            decreases self.games@.len() - i,
        {
            assert(self@.games[i as int] == self.games@[i as int]@);
            if is_open(&self.games[i].start_time, now) {
                r.push(self.games[i].duplicate());
            }
            proof {
                let pre = self@.games.subrange(0, i as int + 1);
                assert(pre.drop_last() =~= self@.games.subrange(0, i as int));
                assert(pre.last() == self@.games[i as int]);
                if spec_is_open(self@.games[i as int].start_time, *now) {
                    assert(r.deep_view() =~= open_games_spec(pre, *now));
                }
            }
            i += 1;
        }
        assert(self@.games.subrange(0, self@.games.len() as int) =~= self@.games);
        r
    }

    /// A copy of the global bets whose start time still lies in the future,
    /// in insertion order.
    #[verifier::loop_isolation(false)]
    pub fn list_open_global_bets(&self, now: &Timestamp) -> (r: Vec<GlobalBet>)
        ensures
            r.deep_view() == open_globals_spec(self@.global_bets, *now),
    {
        let mut r: Vec<GlobalBet> = Vec::new();
        let mut i: usize = 0;
        while i < self.global_bets.len()
            invariant
                i <= self.global_bets@.len(),
                r.deep_view() == open_globals_spec(self@.global_bets.subrange(0, i as int), *now),
            decreases self.global_bets@.len() - i,
        {
            assert(self@.global_bets[i as int] == self.global_bets@[i as int]@);
            if is_open(&self.global_bets[i].start_time, now) {
                r.push(self.global_bets[i].duplicate());
            }
            proof {
                let pre = self@.global_bets.subrange(0, i as int + 1);
                assert(pre.drop_last() =~= self@.global_bets.subrange(0, i as int));
                assert(pre.last() == self@.global_bets[i as int]);
                if spec_is_open(self@.global_bets[i as int].start_time, *now) {
                    assert(r.deep_view() =~= open_globals_spec(pre, *now));
                }
            }
            i += 1;
        }
        assert(self@.global_bets.subrange(0, self@.global_bets.len() as int)
            =~= self@.global_bets);
        r
    }

    /// The (game short, bet) pairs recorded for one user, in store order.
    #[verifier::loop_isolation(false)]
    pub fn bets_for_user(&self, user: u64) -> (r: Vec<(String, Bet)>)
        ensures
            r.deep_view() == user_bets_spec(self@.bets, user),
    {
        let mut r: Vec<(String, Bet)> = Vec::new();
        let mut i: usize = 0;
        while i < self.bets.len()
            invariant
                i <= self.bets@.len(),
                r.deep_view() == user_bets_spec(self@.bets.subrange(0, i as int), user),
            decreases self.bets@.len() - i,
        {
            assert(self@.bets[i as int] == self.bets@[i as int]@);
            match find_bet(&self.bets[i].bets, user) {
                Some(j) => {
                    r.push((self.bets[i].game.clone(), self.bets[i].bets[j]));
                },
                None => {},
            }
            proof {
                let pre = self@.bets.subrange(0, i as int + 1);
                assert(pre.drop_last() =~= self@.bets.subrange(0, i as int));
                assert(pre.last() == self@.bets[i as int]);
                if bet_of(self@.bets[i as int].bets, user) matches Some(b) {
                    assert(r.deep_view() =~= user_bets_spec(pre, user));
                }
            }
            i += 1;
        }
        assert(self@.bets.subrange(0, self@.bets.len() as int) =~= self@.bets);
        r
    }

    /// The (global short, chosen team iso) pairs recorded for one user, in
    /// store order.
    #[verifier::loop_isolation(false)]
    pub fn global_bets_for_user(&self, user: u64) -> (r: Vec<(String, String)>)
        ensures
            r.deep_view() == user_preds_spec(self@.global_bets, user),
    {
        let mut r: Vec<(String, String)> = Vec::new();
        let mut i: usize = 0;
        while i < self.global_bets.len()
            invariant
                i <= self.global_bets@.len(),
                r.deep_view() == user_preds_spec(self@.global_bets.subrange(0, i as int), user),
            decreases self.global_bets@.len() - i,
        {
            assert(self@.global_bets[i as int] == self.global_bets@[i as int]@);
            match find_pred(&self.global_bets[i].bets, user) {
                Some(j) => {
                    r.push((self.global_bets[i].short.clone(), self.global_bets[i].bets[j].1.clone()));
                },
                None => {},
            }
            proof {
                let pre = self@.global_bets.subrange(0, i as int + 1);
                assert(pre.drop_last() =~= self@.global_bets.subrange(0, i as int));
                assert(pre.last() == self@.global_bets[i as int]);
                if pred_of(self@.global_bets[i as int].bets, user) matches Some(v) {
                    assert(r.deep_view() =~= user_preds_spec(pre, user));
                }
            }
            i += 1;
        }
        assert(self@.global_bets.subrange(0, self@.global_bets.len() as int)
            =~= self@.global_bets);
        r
    }
}


/// The image of a store after a sequence of team additions, in order.
pub open spec fn add_teams_all(v: StoreV, ts: Seq<TeamV>) -> StoreV
    decreases ts.len(),
{
    if ts.len() == 0 {
        v
    } else {
        add_team_spec(add_teams_all(v, ts.drop_last()), ts.last())
    }
}

/// Adding any sequence of teams whose isos are pairwise distinct and fresh
/// records exactly those teams, appended in insertion order, and touches
/// nothing else; from the empty store the team list afterwards is exactly
/// the sequence that was added.
pub proof fn lemma_add_teams_order(v: StoreV, ts: Seq<TeamV>)
    requires
        forall|i: int, j: int| 0 <= i < j < ts.len() ==> ts[i].iso != ts[j].iso,
        forall|i: int| 0 <= i < ts.len() ==> !has_iso(v.teams, (#[trigger] ts[i]).iso),
    ensures
        add_teams_all(v, ts).teams == v.teams + ts,
        add_teams_all(v, ts).games == v.games,
        add_teams_all(v, ts).bets == v.bets,
        add_teams_all(v, ts).global_bets == v.global_bets,
    decreases ts.len(),
{
    if ts.len() == 0 {
        assert(add_teams_all(v, ts).teams =~= v.teams + ts);
    } else {
        let ts1 = ts.drop_last();
        let last = ts.last();
        assert(forall|i: int| 0 <= i < ts1.len() ==> #[trigger] ts1[i] == ts[i]);
        lemma_add_teams_order(v, ts1);
        let w = add_teams_all(v, ts1);
        assert(!has_iso(w.teams, last.iso)) by {
            assert(!has_iso(v.teams, last.iso));
            assert(forall|i: int|
                0 <= i < w.teams.len() ==> (#[trigger] w.teams[i]) == if i < v.teams.len() {
                    v.teams[i]
                } else {
                    ts1[i - v.teams.len()]
                });
            assert(forall|i: int| 0 <= i < v.teams.len() ==> (#[trigger] v.teams[i]).iso
                != last.iso);
            assert(forall|i: int| 0 <= i < ts1.len() ==> (#[trigger] ts1[i]).iso != last.iso);
        }
        assert(add_teams_all(v, ts).teams =~= v.teams + ts);
    }
}

/// The list an upsert rewrites: the user's bet on that game afterwards is
/// exactly the written bet, every other user's bet on that game is what it
/// was before, and the list stays keyed by the same game.
pub proof fn lemma_upsert_in_list_effect(l: Seq<Bet>, b: Bet)
    requires
        distinct_users(l),
    ensures
        ({
            let n = upsert_in_list(l, b);
            &&& distinct_users(n)
            &&& bet_of(n, b.user) == Some(b)
            &&& forall|u: u64| u != b.user ==> bet_of(n, u) == bet_of(l, u)
        }),
{
    lemma_first_bet_idx(l, b.user);
    let i = first_bet_idx(l, b.user);
    let n = upsert_in_list(l, b);
    if i < 0 {
        assert(forall|j: int| 0 <= j < l.len() ==> (#[trigger] l[j]).user != b.user);
        assert(n[l.len() as int] == b);
        assert(forall|j: int| 0 <= j < l.len() ==> #[trigger] n[j] == l[j]);
        assert(distinct_users(n));
        lemma_first_bet_idx(n, b.user);
        assert(bet_of(n, b.user) == Some(b));
        assert forall|u: u64| u != b.user implies bet_of(n, u) == bet_of(l, u) by {
            lemma_first_bet_idx(n, u);
            lemma_first_bet_idx(l, u);
            let i_l = first_bet_idx(l, u);
            let i_n = first_bet_idx(n, u);
            if i_l >= 0 {
                assert(n[i_l] == l[i_l]);
            }
            if i_n >= 0 {
                if i_n < l.len() {
                    assert(n[i_n] == l[i_n]);
                } else {
                    assert(n[i_n] == b);
                }
            }
        }
    } else {
        assert(n[i] == b);
        assert(forall|j: int| 0 <= j < n.len() && j != i ==> #[trigger] n[j] == l[j]);
        assert(forall|j: int| 0 <= j < n.len() ==> (#[trigger] n[j]).user == l[j].user);
        assert(distinct_users(n));
        lemma_first_bet_idx(n, b.user);
        assert(bet_of(n, b.user) == Some(b));
        assert forall|u: u64| u != b.user implies bet_of(n, u) == bet_of(l, u) by {
            lemma_first_bet_idx(n, u);
            lemma_first_bet_idx(l, u);
            let i_l = first_bet_idx(l, u);
            let i_n = first_bet_idx(n, u);
            if i_l >= 0 && i_l != i {
                assert(n[i_l] == l[i_l]);
            }
            if i_n >= 0 {
                if i_n != i {
                    assert(n[i_n] == l[i_n]);
                } else {
                    assert(n[i_n] == b);
                }
            }
        }
    }
}

/// After an upsert the store holds a bet list for the game: at the old
/// position when one existed, else appended at the end; its contents are
/// the old list (empty when there was none) with the user's bet upserted.
pub proof fn lemma_upsert_bet_spec_at_key(v: StoreV, short: Seq<char>, b: Bet)
    requires
        wf_store(v),
    ensures
        ({
            let w = upsert_bet_spec(v, short, b);
            let k0 = first_betlist_idx(v.bets, short);
            let k = first_betlist_idx(w.bets, short);
            let l0 = if k0 < 0 { Seq::<Bet>::empty() } else { v.bets[k0].bets };
            &&& 0 <= k < w.bets.len()
            &&& w.bets[k].game == short
            &&& w.bets[k].bets == upsert_in_list(l0, b)
            &&& k == if k0 < 0 { v.bets.len() as int } else { k0 }
        }),
{
    lemma_first_betlist_idx(v.bets, short);
    let k0 = first_betlist_idx(v.bets, short);
    let w = upsert_bet_spec(v, short, b);
    lemma_first_betlist_idx(w.bets, short);
    if k0 < 0 {
        assert(forall|j: int| 0 <= j < v.bets.len() ==> (#[trigger] v.bets[j]).game != short);
        assert(w.bets[v.bets.len() as int].game == short);
        assert(first_betlist_idx(w.bets, short) == v.bets.len() as int);
        lemma_first_bet_idx(Seq::<Bet>::empty(), b.user);
        assert(upsert_in_list(Seq::<Bet>::empty(), b) =~= seq![b]);
    } else {
        assert(forall|j: int|
            0 <= j < w.bets.len() ==> (#[trigger] w.bets[j]).game == v.bets[j].game);
        assert(w.bets[k0].game == short);
        assert(first_betlist_idx(w.bets, short) == k0);
    }
}

/// Overwrite semantics: two accepted upserts by one user on one game leave
/// exactly one bet for the pair - the list still holds at most one bet per
/// user, and the user's bet is the second call's.
pub proof fn lemma_upsert_overwrite(v: StoreV, short: Seq<char>, b1: Bet, b2: Bet)
    requires
        wf_store(v),
        b1.user == b2.user,
    ensures
        ({
            let w = upsert_bet_spec(upsert_bet_spec(v, short, b1), short, b2);
            let k = first_betlist_idx(w.bets, short);
            &&& 0 <= k < w.bets.len()
            &&& distinct_users(w.bets[k].bets)
            &&& bet_of(w.bets[k].bets, b2.user) == Some(b2)
        }),
{
    let w1 = upsert_bet_spec(v, short, b1);
    lemma_upsert_bet_spec_at_key(v, short, b1);
    lemma_upsert_bet_spec_wf(v, short, b1);
    let k0 = first_betlist_idx(v.bets, short);
    lemma_first_betlist_idx(v.bets, short);
    let l0 = if k0 < 0 { Seq::<Bet>::empty() } else { v.bets[k0].bets };
    assert(distinct_users(l0));
    lemma_upsert_in_list_effect(l0, b1);
    let l1 = upsert_in_list(l0, b1);
    lemma_upsert_bet_spec_at_key(w1, short, b2);
    lemma_upsert_bet_spec_wf(w1, short, b2);
    let k1 = first_betlist_idx(w1.bets, short);
    assert(w1.bets[k1].bets == l1);
    lemma_upsert_in_list_effect(l1, b2);
}

/// No lost update: sequential upserts by two different users on one game,
/// as the exclusive session serializes them, leave both bets recorded with
/// their own values.
pub proof fn lemma_upsert_two_users(v: StoreV, short: Seq<char>, b1: Bet, b2: Bet)
    requires
        wf_store(v),
        b1.user != b2.user,
    ensures
        ({
            let w = upsert_bet_spec(upsert_bet_spec(v, short, b1), short, b2);
            let k = first_betlist_idx(w.bets, short);
            &&& 0 <= k < w.bets.len()
            &&& bet_of(w.bets[k].bets, b1.user) == Some(b1)
            &&& bet_of(w.bets[k].bets, b2.user) == Some(b2)
        }),
{
    let w1 = upsert_bet_spec(v, short, b1);
    lemma_upsert_bet_spec_at_key(v, short, b1);
    lemma_upsert_bet_spec_wf(v, short, b1);
    let k0 = first_betlist_idx(v.bets, short);
    lemma_first_betlist_idx(v.bets, short);
    let l0 = if k0 < 0 { Seq::<Bet>::empty() } else { v.bets[k0].bets };
    assert(distinct_users(l0));
    lemma_upsert_in_list_effect(l0, b1);
    let l1 = upsert_in_list(l0, b1);
    lemma_upsert_bet_spec_at_key(w1, short, b2);
    lemma_upsert_bet_spec_wf(w1, short, b2);
    let k1 = first_betlist_idx(w1.bets, short);
    assert(w1.bets[k1].bets == l1);
    lemma_upsert_in_list_effect(l1, b2);
}


#[verifier::loop_isolation(false)]
fn check_team_isos(teams: &Vec<Team>) -> (r: bool)
    ensures
        r == (forall|i: int, j: int|
            0 <= i < j < teams.deep_view().len() ==> teams.deep_view()[i].iso
                != teams.deep_view()[j].iso),
{
    let ghost tv = teams.deep_view();
    let mut k: usize = 1;
    while k < teams.len()
        invariant
            1 <= k || teams@.len() == 0,
            k <= teams@.len() || teams@.len() == 0,
            forall|i: int, j: int| 0 <= i < j < k ==> tv[i].iso != tv[j].iso,
        decreases teams@.len() - k,
    {
        let mut q: usize = 0;
        while q < k
            invariant
                q <= k < teams@.len(),
                forall|i: int, j: int| 0 <= i < j < k ==> tv[i].iso != tv[j].iso,
                forall|j: int| 0 <= j < q ==> tv[j].iso != tv[k as int].iso,
            decreases k - q,
        {
            assert(tv[q as int] == teams@[q as int]@);
            assert(tv[k as int] == teams@[k as int]@);
            if teams[q].iso == teams[k].iso {
                return false;
            }
            q += 1;
        }
        k += 1;
    }
    true
}

#[verifier::loop_isolation(false)]
fn check_bet_users(bets: &Vec<Bet>) -> (r: bool)
    ensures
        r == distinct_users(bets.deep_view()),
{
    let ghost bv = bets.deep_view();
    let mut k: usize = 1;
    while k < bets.len()
        invariant
            1 <= k || bets@.len() == 0,
            k <= bets@.len() || bets@.len() == 0,
            forall|i: int, j: int| 0 <= i < j < k ==> bv[i].user != bv[j].user,
        decreases bets@.len() - k,
    {
        let mut q: usize = 0;
        while q < k
            invariant
                q <= k < bets@.len(),
                forall|i: int, j: int| 0 <= i < j < k ==> bv[i].user != bv[j].user,
                forall|j: int| 0 <= j < q ==> bv[j].user != bv[k as int].user,
            decreases k - q,
        {
            assert(bv[q as int] == bets@[q as int]);
            assert(bv[k as int] == bets@[k as int]);
            if bets[q].user == bets[k].user {
                assert(!distinct_users(bv));
                return false;
            }
            q += 1;
        }
        k += 1;
    }
    true
}

#[verifier::loop_isolation(false)]
fn check_pred_users(bs: &Vec<(u64, String)>) -> (r: bool)
    ensures
        r == distinct_pred_users(bs.deep_view()),
{
    let ghost bv = bs.deep_view();
    let mut k: usize = 1;
    while k < bs.len()
        invariant
            1 <= k || bs@.len() == 0,
            k <= bs@.len() || bs@.len() == 0,
            forall|i: int, j: int| 0 <= i < j < k ==> bv[i].0 != bv[j].0,
        decreases bs@.len() - k,
    {
        let mut q: usize = 0;
        while q < k
            invariant
                q <= k < bs@.len(),
                forall|i: int, j: int| 0 <= i < j < k ==> bv[i].0 != bv[j].0,
                forall|j: int| 0 <= j < q ==> bv[j].0 != bv[k as int].0,
            decreases k - q,
        {
            assert(bv[q as int] == bs@[q as int].deep_view());
            assert(bv[k as int] == bs@[k as int].deep_view());
            if bs[q].0 == bs[k].0 {
                assert(!distinct_pred_users(bv));
                return false;
            }
            q += 1;
        }
        k += 1;
    }
    true
}

#[verifier::loop_isolation(false)]
fn check_betlist_keys(bets: &Vec<BetList>) -> (r: bool)
    ensures
        r == (forall|i: int, j: int|
            0 <= i < j < bets.deep_view().len() ==> bets.deep_view()[i].game
                != bets.deep_view()[j].game),
{
    let ghost bv = bets.deep_view();
    let mut k: usize = 1;
    while k < bets.len()
        invariant
            1 <= k || bets@.len() == 0,
            k <= bets@.len() || bets@.len() == 0,
            forall|i: int, j: int| 0 <= i < j < k ==> bv[i].game != bv[j].game,
        decreases bets@.len() - k,
    {
        let mut q: usize = 0;
        while q < k
            invariant
                q <= k < bets@.len(),
                forall|i: int, j: int| 0 <= i < j < k ==> bv[i].game != bv[j].game,
                forall|j: int| 0 <= j < q ==> bv[j].game != bv[k as int].game,
            decreases k - q,
        {
            assert(bv[q as int] == bets@[q as int]@);
            assert(bv[k as int] == bets@[k as int]@);
            if bets[q].game == bets[k].game {
                return false;
            }
            q += 1;
        }
        k += 1;
    }
    true
}

#[verifier::loop_isolation(false)]
fn check_global_shorts(gbs: &Vec<GlobalBet>) -> (r: bool)
    ensures
        r == (forall|i: int, j: int|
            0 <= i < j < gbs.deep_view().len() ==> gbs.deep_view()[i].short
                != gbs.deep_view()[j].short),
{
    let ghost gv = gbs.deep_view();
    let mut k: usize = 1;
    while k < gbs.len()
        invariant
            1 <= k || gbs@.len() == 0,
            k <= gbs@.len() || gbs@.len() == 0,
            forall|i: int, j: int| 0 <= i < j < k ==> gv[i].short != gv[j].short,
        decreases gbs@.len() - k,
    {
        let mut q: usize = 0;
        while q < k
            invariant
                q <= k < gbs@.len(),
                forall|i: int, j: int| 0 <= i < j < k ==> gv[i].short != gv[j].short,
                forall|j: int| 0 <= j < q ==> gv[j].short != gv[k as int].short,
            decreases k - q,
        {
            assert(gv[q as int] == gbs@[q as int]@);
            assert(gv[k as int] == gbs@[k as int]@);
            if gbs[q].short == gbs[k].short {
                return false;
            }
            q += 1;
        }
        k += 1;
    }
    true
}

impl DataInter {
    /// Whether this store satisfies the aggregate invariant; loaded data is
    /// accepted only when it does.
    #[verifier::loop_isolation(false)]
    pub fn check_wf(&self) -> (r: bool)
        ensures
            r == self.wf(),
    {
        if !check_team_isos(&self.teams) {
            proof {
                if wf_store(self@) {
                    assert forall|i: int, j: int|
                        0 <= i < j < self.teams.deep_view().len() implies self.teams.deep_view()[
                        i
                    ].iso != self.teams.deep_view()[j].iso by {
                        assert(self@.teams[i].iso != self@.teams[j].iso);
                    }
                }
            }
            return false;
        }
        if !check_betlist_keys(&self.bets) {
            proof {
                if wf_store(self@) {
                    assert forall|i: int, j: int|
                        0 <= i < j < self.bets.deep_view().len() implies self.bets.deep_view()[
                        i
                    ].game != self.bets.deep_view()[j].game by {
                        assert(self@.bets[i].game != self@.bets[j].game);
                    }
                }
            }
            return false;
        }
        if !check_global_shorts(&self.global_bets) {
            proof {
                if wf_store(self@) {
                    assert forall|i: int, j: int|
                        0 <= i < j < self.global_bets.deep_view().len() implies
                        self.global_bets.deep_view()[i].short != self.global_bets.deep_view()[
                        j
                    ].short by {
                        assert(self@.global_bets[i].short != self@.global_bets[j].short);
                    }
                }
            }
            return false;
        }
        let mut k: usize = 0;
        while k < self.bets.len()
            invariant
                k <= self.bets@.len(),
                forall|i: int| 0 <= i < k ==> distinct_users(#[trigger] self@.bets[i].bets),
            decreases self.bets@.len() - k,
        {
            assert(self@.bets[k as int] == self.bets@[k as int]@);
            if !check_bet_users(&self.bets[k].bets) {
                proof {
                    if wf_store(self@) {
                        assert(distinct_users(self@.bets[k as int].bets));
                    }
                }
                return false;
            }
            k += 1;
        }
        let mut k2: usize = 0;
        while k2 < self.global_bets.len()
            invariant
                k2 <= self.global_bets@.len(),
                forall|i: int|
                    0 <= i < k2 ==> distinct_pred_users(#[trigger] self@.global_bets[i].bets),
            decreases self.global_bets@.len() - k2,
        {
            assert(self@.global_bets[k2 as int] == self.global_bets@[k2 as int]@);
            if !check_pred_users(&self.global_bets[k2].bets) {
                proof {
                    if wf_store(self@) {
                        assert(distinct_pred_users(self@.global_bets[k2 as int].bets));
                    }
                }
                return false;
            }
            k2 += 1;
        }
        true
    }
}


/// Later submission overwrites: after a prediction upsert the user's
/// stored choice is exactly the submitted iso, every other user's choice
/// is untouched, and the list still holds at most one entry per user.
pub proof fn lemma_upsert_pred_effect(bs: Seq<(u64, Seq<char>)>, user: u64, iso: Seq<char>)
    requires
        distinct_pred_users(bs),
    ensures
        ({
            let n = upsert_pred(bs, user, iso);
            &&& distinct_pred_users(n)
            &&& pred_of(n, user) == Some(iso)
            &&& forall|u: u64| u != user ==> pred_of(n, u) == pred_of(bs, u)
        }),
{
    lemma_first_pred_idx(bs, user);
    let i = first_pred_idx(bs, user);
    let n = upsert_pred(bs, user, iso);
    if i < 0 {
        assert(forall|j: int| 0 <= j < bs.len() ==> (#[trigger] bs[j]).0 != user);
        assert(n[bs.len() as int] == (user, iso));
        assert(forall|j: int| 0 <= j < bs.len() ==> #[trigger] n[j] == bs[j]);
        assert(distinct_pred_users(n));
        lemma_first_pred_idx(n, user);
        assert(pred_of(n, user) == Some(iso));
        assert forall|u: u64| u != user implies pred_of(n, u) == pred_of(bs, u) by {
            lemma_first_pred_idx(n, u);
            lemma_first_pred_idx(bs, u);
            let i_l = first_pred_idx(bs, u);
            let i_n = first_pred_idx(n, u);
            if i_l >= 0 {
                assert(n[i_l] == bs[i_l]);
            }
            if i_n >= 0 {
                if i_n < bs.len() {
                    assert(n[i_n] == bs[i_n]);
                } else {
                    assert(n[i_n] == (user, iso));
                }
            }
        }
    } else {
        assert(n[i] == (user, iso));
        assert(forall|j: int| 0 <= j < n.len() && j != i ==> #[trigger] n[j] == bs[j]);
        assert(forall|j: int| 0 <= j < n.len() ==> (#[trigger] n[j]).0 == bs[j].0);
        assert(distinct_pred_users(n));
        lemma_first_pred_idx(n, user);
        assert(pred_of(n, user) == Some(iso));
        assert forall|u: u64| u != user implies pred_of(n, u) == pred_of(bs, u) by {
            lemma_first_pred_idx(n, u);
            lemma_first_pred_idx(bs, u);
            let i_l = first_pred_idx(bs, u);
            let i_n = first_pred_idx(n, u);
            if i_l >= 0 && i_l != i {
                assert(n[i_l] == bs[i_l]);
            }
            if i_n >= 0 {
                if i_n != i {
                    assert(n[i_n] == bs[i_n]);
                } else {
                    assert(n[i_n] == (user, iso));
                }
            }
        }
    }
}

} // verus!
