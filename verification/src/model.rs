//! The entity model: teams, games, bets and global bets as passive data,
//! each with its mathematical image.

use vstd::prelude::*;

use crate::timestamp::Timestamp;

verus! {

/// A participating team. Identity is the `iso` code; `flag` is a display
/// string carried along for presentation.
#[derive(Clone, Debug)]
pub struct Team {
    pub name: String,
    pub flag: String,
    pub iso: String,
}

/// Mathematical image of a `Team`.
#[verifier::ext_equal]
pub struct TeamV {
    pub name: Seq<char>,
    pub flag: Seq<char>,
    pub iso: Seq<char>,
}

impl View for Team {
    type V = TeamV;

    open spec fn view(&self) -> TeamV {
        TeamV { name: self.name@, flag: self.flag@, iso: self.iso@ }
    }
}

impl DeepView for Team {
    type V = TeamV;

    open spec fn deep_view(&self) -> TeamV {
        self.view()
    }
}

impl Team {
    /// A copy whose fields are equal to the original's.
    pub fn duplicate(&self) -> (t: Team)
        ensures
            t@ == self@,
    {
        Team { name: self.name.clone(), flag: self.flag.clone(), iso: self.iso.clone() }
    }
}

/// A scheduled event between two teams. Identity is the `short` code; the two
/// `iso` fields reference teams by key. `result` is absent until an outcome
/// has been recorded.
#[derive(Clone, Debug)]
pub struct Game {
    pub name: String,
    pub short: String,
    pub team1_iso: String,
    pub team2_iso: String,
    pub start_time: Timestamp,
    pub result: Option<(u16, u16, String)>,
}

/// Mathematical image of a `Game`.
#[verifier::ext_equal]
pub struct GameV {
    pub name: Seq<char>,
    pub short: Seq<char>,
    pub team1_iso: Seq<char>,
    pub team2_iso: Seq<char>,
    pub start_time: Timestamp,
    pub result: Option<(u16, u16, Seq<char>)>,
}

impl View for Game {
    type V = GameV;

    open spec fn view(&self) -> GameV {
        GameV {
            name: self.name@,
            short: self.short@,
            team1_iso: self.team1_iso@,
            team2_iso: self.team2_iso@,
            start_time: self.start_time,
            result: self.result.deep_view(),
        }
    }
}

impl DeepView for Game {
    type V = GameV;

    open spec fn deep_view(&self) -> GameV {
        self.view()
    }
}

impl Game {
    /// A copy whose fields are equal to the original's.
    pub fn duplicate(&self) -> (g: Game)
        ensures
            g@ == self@,
    {
        let result: Option<(u16, u16, String)> = match &self.result {
            None => None,
            Some(r) => Some((r.0, r.1, r.2.clone())),
        };
        Game {
            name: self.name.clone(),
            short: self.short.clone(),
            team1_iso: self.team1_iso.clone(),
            team2_iso: self.team2_iso.clone(),
            start_time: self.start_time,
            result,
        }
    }
}

/// One user's score prediction for a single game.
#[derive(PartialEq, Eq, Structural, Clone, Copy, Debug)]
pub struct Bet {
    pub user: u64,
    pub team1: u16,
    pub team2: u16,
}

impl View for Bet {
    type V = Bet;

    open spec fn view(&self) -> Bet {
        *self
    }
}

impl DeepView for Bet {
    type V = Bet;

    open spec fn deep_view(&self) -> Bet {
        *self
    }
}

/// The bets recorded for one game, keyed by the game's `short` code.
#[derive(Clone, Debug)]
pub struct BetList {
    pub game: String,
    pub bets: Vec<Bet>,
}

/// Mathematical image of a `BetList`.
#[verifier::ext_equal]
pub struct BetListV {
    pub game: Seq<char>,
    pub bets: Seq<Bet>,
}

impl View for BetList {
    type V = BetListV;

    open spec fn view(&self) -> BetListV {
        BetListV { game: self.game@, bets: self.bets.deep_view() }
    }
}

impl DeepView for BetList {
    type V = BetListV;

    open spec fn deep_view(&self) -> BetListV {
        self.view()
    }
}

/// A longer-horizon wager on which team wins an outcome not tied to one game.
/// Identity is the `short` code. `bets` holds at most one prediction (a team
/// `iso`) per user; `result`, once present, is the winning team's `iso`.
#[derive(Clone, Debug)]
pub struct GlobalBet {
    pub name: String,
    pub short: String,
    pub points: u16,
    pub start_time: Timestamp,
    pub result: Option<String>,
    pub bets: Vec<(u64, String)>,
}

/// Mathematical image of a `GlobalBet`.
#[verifier::ext_equal]
pub struct GlobalBetV {
    pub name: Seq<char>,
    pub short: Seq<char>,
    pub points: u16,
    pub start_time: Timestamp,
    pub result: Option<Seq<char>>,
    pub bets: Seq<(u64, Seq<char>)>,
}

impl View for GlobalBet {
    type V = GlobalBetV;

    open spec fn view(&self) -> GlobalBetV {
        GlobalBetV {
            name: self.name@,
            short: self.short@,
            points: self.points,
            start_time: self.start_time,
            result: self.result.deep_view(),
            bets: self.bets.deep_view(),
        }
    }
}

impl DeepView for GlobalBet {
    type V = GlobalBetV;

    open spec fn deep_view(&self) -> GlobalBetV {
        self.view()
    }
}

impl GlobalBet {
    /// A copy whose fields are equal to the original's.
    #[verifier::loop_isolation(false)]
    pub fn duplicate(&self) -> (g: GlobalBet)
        ensures
            g@ == self@,
    {
        let mut bets: Vec<(u64, String)> = Vec::new();
        let mut i: usize = 0;
        while i < self.bets.len()
            invariant
                i <= self.bets@.len(),
                bets.deep_view() =~= self.bets.deep_view().subrange(0, i as int),
            decreases self.bets@.len() - i,
        {
            bets.push((self.bets[i].0, self.bets[i].1.clone()));
            assert(bets.deep_view() =~= self.bets.deep_view().subrange(0, i as int + 1));
            i += 1;
        }
        assert(bets.deep_view() =~= self.bets.deep_view());
        let result: Option<String> = match &self.result {
            None => None,
            Some(r) => Some(r.clone()),
        };
        GlobalBet {
            name: self.name.clone(),
            short: self.short.clone(),
            points: self.points,
            start_time: self.start_time,
            result,
            bets,
        }
    }
}

/// The recoverable, user-facing validation outcomes of store operations.
#[derive(PartialEq, Eq, Structural, Clone, Copy, Debug)]
pub enum StoreError {
    DuplicateKey,
    UnknownTeam,
    UnknownGame,
    UnknownGlobalBet,
    InvalidTimestamp,
    BettingClosed,
}

} // verus!
