//! The durable snapshot: a text encoding of the whole aggregate that
//! decodes back to exactly the aggregate it was taken of.

use vstd::prelude::*;

use crate::digits::chars_of;
use crate::digits::dec_fixed;
use crate::digits::digits_at;
use crate::digits::enc_fixed;
use crate::digits::pow10;
use crate::digits::push_fixed;
use crate::digits::read_fixed;
use crate::model::Bet;
use crate::model::BetList;
use crate::model::BetListV;
use crate::model::Game;
use crate::model::GameV;
use crate::model::GlobalBet;
use crate::model::GlobalBetV;
use crate::model::Team;
use crate::model::TeamV;
use crate::store::DataInter;
use crate::store::StoreV;
use crate::store::wf_store;
use crate::timestamp::Timestamp;

verus! {

// ---------------------------------------------------------------------
// The snapshot text format. Every number is fixed-width decimal: 20
// digits for a 64-bit value (also used for lengths and counts), 5 for a
// 16-bit value, 3 for an 8-bit value. A string is its length followed by
// its characters; an optional field is '0', or '1' followed by the
// payload; a list is its count followed by its elements. The aggregate
// is its four lists in store order. The format carries any content the
// store can hold and decodes to exactly the aggregate it was taken of.
// ---------------------------------------------------------------------
pub open spec fn enc_u64(n: u64) -> Seq<char> {
    enc_fixed(n as nat, 20)
}

pub open spec fn enc_u16(n: u16) -> Seq<char> {
    enc_fixed(n as nat, 5)
}

pub open spec fn enc_u8(n: u8) -> Seq<char> {
    enc_fixed(n as nat, 3)
}

pub open spec fn enc_str(s: Seq<char>) -> Seq<char> {
    enc_fixed(s.len(), 20) + s
}

pub open spec fn enc_ts(t: Timestamp) -> Seq<char> {
    enc_u16(t.year) + enc_u8(t.month) + enc_u8(t.day) + enc_u8(t.hour) + enc_u8(t.minute)
}

pub open spec fn enc_team(t: TeamV) -> Seq<char> {
    enc_str(t.name) + enc_str(t.flag) + enc_str(t.iso)
}

pub open spec fn enc_game_result(r: Option<(u16, u16, Seq<char>)>) -> Seq<char> {
    match r {
        None => seq!['0'],
        Some(p) => seq!['1'] + enc_u16(p.0) + enc_u16(p.1) + enc_str(p.2),
    }
}

pub open spec fn enc_game(g: GameV) -> Seq<char> {
    enc_str(g.name) + enc_str(g.short) + enc_str(g.team1_iso) + enc_str(g.team2_iso) + enc_ts(
        g.start_time,
    ) + enc_game_result(g.result)
}

pub open spec fn enc_bet(b: Bet) -> Seq<char> {
    enc_u64(b.user) + enc_u16(b.team1) + enc_u16(b.team2)
}

pub open spec fn enc_bets(bs: Seq<Bet>) -> Seq<char>
    decreases bs.len(),
{
    if bs.len() == 0 {
        Seq::empty()
    } else {
        enc_bet(bs.first()) + enc_bets(bs.drop_first())
    }
}

pub open spec fn enc_betlist(bl: BetListV) -> Seq<char> {
    enc_str(bl.game) + enc_fixed(bl.bets.len(), 20) + enc_bets(bl.bets)
}

pub open spec fn enc_pred(p: (u64, Seq<char>)) -> Seq<char> {
    enc_u64(p.0) + enc_str(p.1)
}

pub open spec fn enc_preds(ps: Seq<(u64, Seq<char>)>) -> Seq<char>
    decreases ps.len(),
{
    if ps.len() == 0 {
        Seq::empty()
    } else {
        enc_pred(ps.first()) + enc_preds(ps.drop_first())
    }
}

pub open spec fn enc_opt_str(r: Option<Seq<char>>) -> Seq<char> {
    match r {
        None => seq!['0'],
        Some(s) => seq!['1'] + enc_str(s),
    }
}

pub open spec fn enc_global(g: GlobalBetV) -> Seq<char> {
    enc_str(g.name) + enc_str(g.short) + enc_u16(g.points) + enc_ts(g.start_time) + enc_opt_str(
        g.result,
    ) + enc_fixed(g.bets.len(), 20) + enc_preds(g.bets)
}

pub open spec fn enc_teams(ts: Seq<TeamV>) -> Seq<char>
    decreases ts.len(),
{
    if ts.len() == 0 {
        Seq::empty()
    } else {
        enc_team(ts.first()) + enc_teams(ts.drop_first())
    }
}

pub open spec fn enc_games(gs: Seq<GameV>) -> Seq<char>
    decreases gs.len(),
{
    if gs.len() == 0 {
        Seq::empty()
    } else {
        enc_game(gs.first()) + enc_games(gs.drop_first())
    }
}

pub open spec fn enc_betlists(bls: Seq<BetListV>) -> Seq<char>
    decreases bls.len(),
{
    if bls.len() == 0 {
        Seq::empty()
    } else {
        enc_betlist(bls.first()) + enc_betlists(bls.drop_first())
    }
}

pub open spec fn enc_globals(gs: Seq<GlobalBetV>) -> Seq<char>
    decreases gs.len(),
{
    if gs.len() == 0 {
        Seq::empty()
    } else {
        enc_global(gs.first()) + enc_globals(gs.drop_first())
    }
}

/// The whole aggregate as snapshot text.
pub open spec fn enc_store(v: StoreV) -> Seq<char> {
    enc_fixed(v.teams.len(), 20) + enc_teams(v.teams) + enc_fixed(v.games.len(), 20) + enc_games(
        v.games,
    ) + enc_fixed(v.bets.len(), 20) + enc_betlists(v.bets) + enc_fixed(v.global_bets.len(), 20)
        + enc_globals(v.global_bets)
}

// ---------------------------------------------------------------------
// Machine bounds under which a store image is representable at all: every
// string and list is short enough for its fixed-width length field. Any
// aggregate actually held in memory satisfies them.
// ---------------------------------------------------------------------
pub open spec fn encodable_team(t: TeamV) -> bool {
    t.name.len() <= u64::MAX && t.flag.len() <= u64::MAX && t.iso.len() <= u64::MAX
}

pub open spec fn encodable_game(g: GameV) -> bool {
    &&& g.name.len() <= u64::MAX
    &&& g.short.len() <= u64::MAX
    &&& g.team1_iso.len() <= u64::MAX
    &&& g.team2_iso.len() <= u64::MAX
    &&& match g.result {
        None => true,
        Some(p) => p.2.len() <= u64::MAX,
    }
}

pub open spec fn encodable_betlist(bl: BetListV) -> bool {
    bl.game.len() <= u64::MAX && bl.bets.len() <= u64::MAX
}

pub open spec fn encodable_global(g: GlobalBetV) -> bool {
    &&& g.name.len() <= u64::MAX
    &&& g.short.len() <= u64::MAX
    &&& g.bets.len() <= u64::MAX
    &&& match g.result {
        None => true,
        Some(s) => s.len() <= u64::MAX,
    }
    &&& forall|i: int| 0 <= i < g.bets.len() ==> (#[trigger] g.bets[i]).1.len() <= u64::MAX
}

pub open spec fn encodable(v: StoreV) -> bool {
    &&& v.teams.len() <= u64::MAX
    &&& v.games.len() <= u64::MAX
    &&& v.bets.len() <= u64::MAX
    &&& v.global_bets.len() <= u64::MAX
    &&& forall|i: int| 0 <= i < v.teams.len() ==> encodable_team(#[trigger] v.teams[i])
    &&& forall|i: int| 0 <= i < v.games.len() ==> encodable_game(#[trigger] v.games[i])
    &&& forall|i: int| 0 <= i < v.bets.len() ==> encodable_betlist(#[trigger] v.bets[i])
    &&& forall|i: int| 0 <= i < v.global_bets.len() ==> encodable_global(
        #[trigger] v.global_bets[i],
    )
}

// ---------------------------------------------------------------------
// The meaning of decoding: each function reads one value at a position
// and yields it with the next position, or nothing when the text does
// not continue with such a value.
// ---------------------------------------------------------------------
pub open spec fn dec_u64(s: Seq<char>, i: int) -> Option<(u64, int)> {
    if 0 <= i && digits_at(s, i, 20) && dec_fixed(s, i, 20) <= u64::MAX {
        Some((dec_fixed(s, i, 20) as u64, i + 20))
    } else {
        None
    }
}

pub open spec fn dec_u16(s: Seq<char>, i: int) -> Option<(u16, int)> {
    if 0 <= i && digits_at(s, i, 5) && dec_fixed(s, i, 5) <= u16::MAX {
        Some((dec_fixed(s, i, 5) as u16, i + 5))
    } else {
        None
    }
}

pub open spec fn dec_u8(s: Seq<char>, i: int) -> Option<(u8, int)> {
    if 0 <= i && digits_at(s, i, 3) && dec_fixed(s, i, 3) <= u8::MAX {
        Some((dec_fixed(s, i, 3) as u8, i + 3))
    } else {
        None
    }
}

pub open spec fn dec_str(s: Seq<char>, i: int) -> Option<(Seq<char>, int)> {
    match dec_u64(s, i) {
        None => None,
        Some(p) => {
            let n = p.0 as int;
            if p.1 + n <= s.len() {
                Some((s.subrange(p.1, p.1 + n), p.1 + n))
            } else {
                None
            }
        },
    }
}

pub open spec fn dec_ts(s: Seq<char>, i: int) -> Option<(Timestamp, int)> {
    match dec_u16(s, i) {
        None => None,
        Some(py) => match dec_u8(s, py.1) {
            None => None,
            Some(pmo) => match dec_u8(s, pmo.1) {
                None => None,
                Some(pd) => match dec_u8(s, pd.1) {
                    None => None,
                    Some(ph) => match dec_u8(s, ph.1) {
                        None => None,
                        Some(pmi) => Some(
                            (
                                Timestamp {
                                    year: py.0,
                                    month: pmo.0,
                                    day: pd.0,
                                    hour: ph.0,
                                    minute: pmi.0,
                                },
                                pmi.1,
                            ),
                        ),
                    },
                },
            },
        },
    }
}

pub open spec fn dec_team(s: Seq<char>, i: int) -> Option<(TeamV, int)> {
    match dec_str(s, i) {
        None => None,
        Some(pn) => match dec_str(s, pn.1) {
            None => None,
            Some(pf) => match dec_str(s, pf.1) {
                None => None,
                Some(pi) => Some((TeamV { name: pn.0, flag: pf.0, iso: pi.0 }, pi.1)),
            },
        },
    }
}

pub open spec fn dec_game_result(s: Seq<char>, i: int) -> Option<
    (Option<(u16, u16, Seq<char>)>, int),
> {
    if 0 <= i < s.len() {
        if s[i] == '0' {
            Some((None, i + 1))
        } else if s[i] == '1' {
            match dec_u16(s, i + 1) {
                None => None,
                Some(p1) => match dec_u16(s, p1.1) {
                    None => None,
                    Some(p2) => match dec_str(s, p2.1) {
                        None => None,
                        Some(pn) => Some((Some((p1.0, p2.0, pn.0)), pn.1)),
                    },
                },
            }
        } else {
            None
        }
    } else {
        None
    }
}

pub open spec fn dec_game(s: Seq<char>, i: int) -> Option<(GameV, int)> {
    match dec_str(s, i) {
        None => None,
        Some(pn) => match dec_str(s, pn.1) {
            None => None,
            Some(ps) => match dec_str(s, ps.1) {
                None => None,
                Some(p1) => match dec_str(s, p1.1) {
                    None => None,
                    Some(p2) => match dec_ts(s, p2.1) {
                        None => None,
                        Some(pt) => match dec_game_result(s, pt.1) {
                            None => None,
                            Some(pr) => Some(
                                (
                                    GameV {
                                        name: pn.0,
                                        short: ps.0,
                                        team1_iso: p1.0,
                                        team2_iso: p2.0,
                                        start_time: pt.0,
                                        result: pr.0,
                                    },
                                    pr.1,
                                ),
                            ),
                        },
                    },
                },
            },
        },
    }
}

pub open spec fn dec_bet(s: Seq<char>, i: int) -> Option<(Bet, int)> {
    match dec_u64(s, i) {
        None => None,
        Some(pu) => match dec_u16(s, pu.1) {
            None => None,
            Some(p1) => match dec_u16(s, p1.1) {
                None => None,
                Some(p2) => Some((Bet { user: pu.0, team1: p1.0, team2: p2.0 }, p2.1)),
            },
        },
    }
}

pub open spec fn dec_bets(s: Seq<char>, i: int, n: nat) -> Option<(Seq<Bet>, int)>
    decreases n,
{
    if n == 0 {
        Some((Seq::empty(), i))
    } else {
        match dec_bet(s, i) {
            None => None,
            Some(p) => match dec_bets(s, p.1, (n - 1) as nat) {
                None => None,
                Some(pr) => Some((seq![p.0] + pr.0, pr.1)),
            },
        }
    }
}

pub open spec fn dec_betlist(s: Seq<char>, i: int) -> Option<(BetListV, int)> {
    match dec_str(s, i) {
        None => None,
        Some(pg) => match dec_u64(s, pg.1) {
            None => None,
            Some(pn) => match dec_bets(s, pn.1, pn.0 as nat) {
                None => None,
                Some(pb) => Some((BetListV { game: pg.0, bets: pb.0 }, pb.1)),
            },
        },
    }
}

pub open spec fn dec_pred(s: Seq<char>, i: int) -> Option<((u64, Seq<char>), int)> {
    match dec_u64(s, i) {
        None => None,
        Some(pu) => match dec_str(s, pu.1) {
            None => None,
            Some(ps) => Some(((pu.0, ps.0), ps.1)),
        },
    }
}

pub open spec fn dec_preds(s: Seq<char>, i: int, n: nat) -> Option<(Seq<(u64, Seq<char>)>, int)>
    decreases n,
{
    if n == 0 {
        Some((Seq::empty(), i))
    } else {
        match dec_pred(s, i) {
            None => None,
            Some(p) => match dec_preds(s, p.1, (n - 1) as nat) {
                None => None,
                Some(pr) => Some((seq![p.0] + pr.0, pr.1)),
            },
        }
    }
}

pub open spec fn dec_opt_str(s: Seq<char>, i: int) -> Option<(Option<Seq<char>>, int)> {
    if 0 <= i < s.len() {
        if s[i] == '0' {
            Some((None, i + 1))
        } else if s[i] == '1' {
            match dec_str(s, i + 1) {
                None => None,
                Some(p) => Some((Some(p.0), p.1)),
            }
        } else {
            None
        }
    } else {
        None
    }
}

pub open spec fn dec_global(s: Seq<char>, i: int) -> Option<(GlobalBetV, int)> {
    match dec_str(s, i) {
        None => None,
        Some(pn) => match dec_str(s, pn.1) {
            None => None,
            Some(ps) => match dec_u16(s, ps.1) {
                None => None,
                Some(pp) => match dec_ts(s, pp.1) {
                    None => None,
                    Some(pt) => match dec_opt_str(s, pt.1) {
                        None => None,
                        Some(pr) => match dec_u64(s, pr.1) {
                            None => None,
                            Some(pc) => match dec_preds(s, pc.1, pc.0 as nat) {
                                None => None,
                                Some(pb) => Some(
                                    (
                                        GlobalBetV {
                                            name: pn.0,
                                            short: ps.0,
                                            points: pp.0,
                                            start_time: pt.0,
                                            result: pr.0,
                                            bets: pb.0,
                                        },
                                        pb.1,
                                    ),
                                ),
                            },
                        },
                    },
                },
            },
        },
    }
}

pub open spec fn dec_teams(s: Seq<char>, i: int, n: nat) -> Option<(Seq<TeamV>, int)>
    decreases n,
{
    if n == 0 {
        Some((Seq::empty(), i))
    } else {
        match dec_team(s, i) {
            None => None,
            Some(p) => match dec_teams(s, p.1, (n - 1) as nat) {
                None => None,
                Some(pr) => Some((seq![p.0] + pr.0, pr.1)),
            },
        }
    }
}

pub open spec fn dec_games(s: Seq<char>, i: int, n: nat) -> Option<(Seq<GameV>, int)>
    decreases n,
{
    if n == 0 {
        Some((Seq::empty(), i))
    } else {
        match dec_game(s, i) {
            None => None,
            Some(p) => match dec_games(s, p.1, (n - 1) as nat) {
                None => None,
                Some(pr) => Some((seq![p.0] + pr.0, pr.1)),
            },
        }
    }
}

pub open spec fn dec_betlists(s: Seq<char>, i: int, n: nat) -> Option<(Seq<BetListV>, int)>
    decreases n,
{
    if n == 0 {
        Some((Seq::empty(), i))
    } else {
        match dec_betlist(s, i) {
            None => None,
            Some(p) => match dec_betlists(s, p.1, (n - 1) as nat) {
                None => None,
                Some(pr) => Some((seq![p.0] + pr.0, pr.1)),
            },
        }
    }
}

pub open spec fn dec_globals(s: Seq<char>, i: int, n: nat) -> Option<(Seq<GlobalBetV>, int)>
    decreases n,
{
    if n == 0 {
        Some((Seq::empty(), i))
    } else {
        match dec_global(s, i) {
            None => None,
            Some(p) => match dec_globals(s, p.1, (n - 1) as nat) {
                None => None,
                Some(pr) => Some((seq![p.0] + pr.0, pr.1)),
            },
        }
    }
}

/// The meaning of decoding a whole snapshot: the four lists in order, and
/// nothing may remain.
pub open spec fn dec_store(s: Seq<char>) -> Option<StoreV> {
    match dec_u64(s, 0) {
        None => None,
        Some(nt) => match dec_teams(s, nt.1, nt.0 as nat) {
            None => None,
            Some(ts) => match dec_u64(s, ts.1) {
                None => None,
                Some(ng) => match dec_games(s, ng.1, ng.0 as nat) {
                    None => None,
                    Some(gs) => match dec_u64(s, gs.1) {
                        None => None,
                        Some(nb) => match dec_betlists(s, nb.1, nb.0 as nat) {
                            None => None,
                            Some(bs) => match dec_u64(s, bs.1) {
                                None => None,
                                Some(ngb) => match dec_globals(s, ngb.1, ngb.0 as nat) {
                                    None => None,
                                    Some(gbs) => if gbs.1 == s.len() {
                                        Some(
                                            StoreV {
                                                teams: ts.0,
                                                games: gs.0,
                                                bets: bs.0,
                                                global_bets: gbs.0,
                                            },
                                        )
                                    } else {
                                        None
                                    },
                                },
                            },
                        },
                    },
                },
            },
        },
    }
}


proof fn lemma_pow10_consts()
    ensures
        pow10(3) == 1000,
        pow10(5) == 100000,
        pow10(20) == 100000000000000000000,
{
    reveal_with_fuel(pow10, 21);
}

/// Relies on std's `String::push`: appends one character at the end.
#[verifier::external_body]
fn string_push(s: &mut String, c: char)
    ensures
        final(s)@ == old(s)@.push(c),
{
    s.push(c);
}

fn push_u64(out: &mut Vec<char>, n: u64)
    ensures
        final(out)@ == old(out)@ + enc_u64(n),
{
    proof {
        lemma_pow10_consts();
    }
    push_fixed(out, n, 20);
}

fn push_u16(out: &mut Vec<char>, n: u16)
    ensures
        final(out)@ == old(out)@ + enc_u16(n),
{
    proof {
        lemma_pow10_consts();
    }
    push_fixed(out, n as u64, 5);
}

fn push_u8(out: &mut Vec<char>, n: u8)
    ensures
        final(out)@ == old(out)@ + enc_u8(n),
{
    proof {
        lemma_pow10_consts();
    }
    push_fixed(out, n as u64, 3);
}

fn push_len(out: &mut Vec<char>, n: usize)
    ensures
        final(out)@ == old(out)@ + enc_fixed(n as nat, 20),
{
    proof {
        lemma_pow10_consts();
    }
    push_fixed(out, n as u64, 20);
}

#[verifier::loop_isolation(false)]
fn push_chars(out: &mut Vec<char>, s: &String)
    ensures
        final(out)@ == old(out)@ + enc_str(s@),
        s@.len() <= u64::MAX,
{
    let cs = chars_of(s.as_str());
    push_len(out, cs.len());
    let mut i: usize = 0;
    while i < cs.len()
        invariant
            i <= cs@.len(),
            out@ == old(out)@ + enc_fixed(s@.len(), 20) + s@.subrange(0, i as int),
        decreases cs@.len() - i,
    {
        out.push(cs[i]);
        assert(out@ =~= old(out)@ + enc_fixed(s@.len(), 20) + s@.subrange(0, i as int + 1));
        i += 1;
    }
    assert(out@ =~= old(out)@ + enc_str(s@));
}

fn push_ts(out: &mut Vec<char>, t: &Timestamp)
    ensures
        final(out)@ == old(out)@ + enc_ts(*t),
{
    push_u16(out, t.year);
    push_u8(out, t.month);
    push_u8(out, t.day);
    push_u8(out, t.hour);
    push_u8(out, t.minute);
    assert(out@ =~= old(out)@ + enc_ts(*t));
}

fn push_team(out: &mut Vec<char>, t: &Team)
    ensures
        final(out)@ == old(out)@ + enc_team(t@),
        encodable_team(t@),
{
    push_chars(out, &t.name);
    push_chars(out, &t.flag);
    push_chars(out, &t.iso);
    assert(out@ =~= old(out)@ + enc_team(t@));
}

fn push_game_result(out: &mut Vec<char>, r: &Option<(u16, u16, String)>)
    ensures
        final(out)@ == old(out)@ + enc_game_result(r.deep_view()),
        (r.deep_view() matches Some(p) ==> p.2.len() <= u64::MAX),
{
    match r {
        None => {
            out.push('0');
            assert(out@ =~= old(out)@ + enc_game_result(r.deep_view()));
        },
        Some(p) => {
            out.push('1');
            push_u16(out, p.0);
            push_u16(out, p.1);
            push_chars(out, &p.2);
            assert(out@ =~= old(out)@ + enc_game_result(r.deep_view()));
        },
    }
}

fn push_game(out: &mut Vec<char>, g: &Game)
    ensures
        final(out)@ == old(out)@ + enc_game(g@),
        encodable_game(g@),
{
    push_chars(out, &g.name);
    push_chars(out, &g.short);
    push_chars(out, &g.team1_iso);
    push_chars(out, &g.team2_iso);
    push_ts(out, &g.start_time);
    push_game_result(out, &g.result);
    assert(out@ =~= old(out)@ + enc_game(g@));
}

fn push_bet(out: &mut Vec<char>, b: &Bet)
    ensures
        final(out)@ == old(out)@ + enc_bet(*b),
{
    push_u64(out, b.user);
    push_u16(out, b.team1);
    push_u16(out, b.team2);
    assert(out@ =~= old(out)@ + enc_bet(*b));
}

#[verifier::loop_isolation(false)]
fn push_betlist(out: &mut Vec<char>, bl: &BetList)
    ensures
        final(out)@ == old(out)@ + enc_betlist(bl@),
        encodable_betlist(bl@),
{
    let ghost lv = bl@.bets;
    push_chars(out, &bl.game);
    push_len(out, bl.bets.len());
    let ghost base = out@;
    assert(lv.subrange(0, lv.len() as int) =~= lv);
    let mut i: usize = 0;
    while i < bl.bets.len()
        invariant
            i <= lv.len(),
            out@ + enc_bets(lv.subrange(i as int, lv.len() as int)) == base + enc_bets(lv),
        decreases lv.len() - i,
    {
        assert(lv[i as int] == bl.bets@[i as int]);
        let ghost pre = out@;
        push_bet(out, &bl.bets[i]);
        proof {
            let suf = lv.subrange(i as int, lv.len() as int);
            assert(suf.first() == lv[i as int]);
            assert(suf.drop_first() =~= lv.subrange(i as int + 1, lv.len() as int));
            assert(out@ + enc_bets(lv.subrange(i as int + 1, lv.len() as int)) =~= pre + enc_bets(
                suf,
            ));
        }
        i += 1;
    }
    assert(lv.subrange(lv.len() as int, lv.len() as int) =~= Seq::<Bet>::empty());
    assert(out@ =~= base + enc_bets(lv));
    assert(out@ =~= old(out)@ + enc_betlist(bl@));
}

fn push_pred(out: &mut Vec<char>, p: &(u64, String))
    ensures
        final(out)@ == old(out)@ + enc_pred(p.deep_view()),
        p.deep_view().1.len() <= u64::MAX,
{
    push_u64(out, p.0);
    push_chars(out, &p.1);
    assert(out@ =~= old(out)@ + enc_pred(p.deep_view()));
}

#[verifier::loop_isolation(false)]
fn push_global(out: &mut Vec<char>, g: &GlobalBet)
    ensures
        final(out)@ == old(out)@ + enc_global(g@),
        encodable_global(g@),
{
    let ghost pv = g@.bets;
    push_chars(out, &g.name);
    push_chars(out, &g.short);
    push_u16(out, g.points);
    push_ts(out, &g.start_time);
    match &g.result {
        None => {
            out.push('0');
            assert(out@ =~= old(out)@ + enc_str(g@.name) + enc_str(g@.short) + enc_u16(g@.points)
                + enc_ts(g@.start_time) + enc_opt_str(g@.result));
        },
        Some(rr) => {
            out.push('1');
            push_chars(out, rr);
            assert(out@ =~= old(out)@ + enc_str(g@.name) + enc_str(g@.short) + enc_u16(g@.points)
                + enc_ts(g@.start_time) + enc_opt_str(g@.result));
        },
    }
    push_len(out, g.bets.len());
    let ghost base = out@;
    assert(pv.subrange(0, pv.len() as int) =~= pv);
    let mut i: usize = 0;
    while i < g.bets.len()
        invariant
            i <= pv.len(),
            out@ + enc_preds(pv.subrange(i as int, pv.len() as int)) == base + enc_preds(pv),
            forall|k: int| 0 <= k < i ==> (#[trigger] pv[k]).1.len() <= u64::MAX,
        decreases pv.len() - i,
    {
        assert(pv[i as int] == g.bets@[i as int].deep_view());
        let ghost pre = out@;
        push_pred(out, &g.bets[i]);
        proof {
            let suf = pv.subrange(i as int, pv.len() as int);
            assert(suf.first() == pv[i as int]);
            assert(suf.drop_first() =~= pv.subrange(i as int + 1, pv.len() as int));
            assert(out@ + enc_preds(pv.subrange(i as int + 1, pv.len() as int)) =~= pre
                + enc_preds(suf));
        }
        i += 1;
    }
    assert(pv.subrange(pv.len() as int, pv.len() as int) =~= Seq::<(u64, Seq<char>)>::empty());
    assert(out@ =~= base + enc_preds(pv));
    assert(out@ =~= old(out)@ + enc_global(g@));
}

#[verifier::loop_isolation(false)]
fn push_teams(out: &mut Vec<char>, ts: &Vec<Team>)
    ensures
        final(out)@ == old(out)@ + enc_teams(ts.deep_view()),
        forall|k: int| 0 <= k < ts.deep_view().len() ==> encodable_team(
            #[trigger] ts.deep_view()[k],
        ),
{
    let ghost tv = ts.deep_view();
    let ghost base = out@;
    assert(tv.subrange(0, tv.len() as int) =~= tv);
    let mut i: usize = 0;
    while i < ts.len()
        invariant
            i <= tv.len(),
            out@ + enc_teams(tv.subrange(i as int, tv.len() as int)) == base + enc_teams(tv),
            forall|k: int| 0 <= k < i ==> encodable_team(#[trigger] tv[k]),
        decreases tv.len() - i,
    {
        assert(tv[i as int] == ts@[i as int]@);
        let ghost pre = out@;
        push_team(out, &ts[i]);
        proof {
            let suf = tv.subrange(i as int, tv.len() as int);
            assert(suf.first() == tv[i as int]);
            assert(suf.drop_first() =~= tv.subrange(i as int + 1, tv.len() as int));
            assert(out@ + enc_teams(tv.subrange(i as int + 1, tv.len() as int)) =~= pre
                + enc_teams(suf));
        }
        i += 1;
    }
    assert(tv.subrange(tv.len() as int, tv.len() as int) =~= Seq::<TeamV>::empty());
    assert(out@ =~= base + enc_teams(tv));
}

#[verifier::loop_isolation(false)]
fn push_games(out: &mut Vec<char>, gs: &Vec<Game>)
    ensures
        final(out)@ == old(out)@ + enc_games(gs.deep_view()),
        forall|k: int| 0 <= k < gs.deep_view().len() ==> encodable_game(
            #[trigger] gs.deep_view()[k],
        ),
{
    let ghost gv = gs.deep_view();
    let ghost base = out@;
    assert(gv.subrange(0, gv.len() as int) =~= gv);
    let mut i: usize = 0;
    while i < gs.len()
        invariant
            i <= gv.len(),
            out@ + enc_games(gv.subrange(i as int, gv.len() as int)) == base + enc_games(gv),
            forall|k: int| 0 <= k < i ==> encodable_game(#[trigger] gv[k]),
        decreases gv.len() - i,
    {
        assert(gv[i as int] == gs@[i as int]@);
        let ghost pre = out@;
        push_game(out, &gs[i]);
        proof {
            let suf = gv.subrange(i as int, gv.len() as int);
            assert(suf.first() == gv[i as int]);
            assert(suf.drop_first() =~= gv.subrange(i as int + 1, gv.len() as int));
            assert(out@ + enc_games(gv.subrange(i as int + 1, gv.len() as int)) =~= pre
                + enc_games(suf));
        }
        i += 1;
    }
    assert(gv.subrange(gv.len() as int, gv.len() as int) =~= Seq::<GameV>::empty());
    assert(out@ =~= base + enc_games(gv));
}

#[verifier::loop_isolation(false)]
fn push_betlists(out: &mut Vec<char>, bls: &Vec<BetList>)
    ensures
        final(out)@ == old(out)@ + enc_betlists(bls.deep_view()),
        forall|k: int| 0 <= k < bls.deep_view().len() ==> encodable_betlist(
            #[trigger] bls.deep_view()[k],
        ),
{
    let ghost bv = bls.deep_view();
    let ghost base = out@;
    assert(bv.subrange(0, bv.len() as int) =~= bv);
    let mut i: usize = 0;
    while i < bls.len()
        invariant
            i <= bv.len(),
            out@ + enc_betlists(bv.subrange(i as int, bv.len() as int)) == base + enc_betlists(bv),
            forall|k: int| 0 <= k < i ==> encodable_betlist(#[trigger] bv[k]),
        decreases bv.len() - i,
    {
        assert(bv[i as int] == bls@[i as int]@);
        let ghost pre = out@;
        push_betlist(out, &bls[i]);
        proof {
            let suf = bv.subrange(i as int, bv.len() as int);
            assert(suf.first() == bv[i as int]);
            assert(suf.drop_first() =~= bv.subrange(i as int + 1, bv.len() as int));
            assert(out@ + enc_betlists(bv.subrange(i as int + 1, bv.len() as int)) =~= pre
                + enc_betlists(suf));
        }
        i += 1;
    }
    assert(bv.subrange(bv.len() as int, bv.len() as int) =~= Seq::<BetListV>::empty());
    assert(out@ =~= base + enc_betlists(bv));
}

#[verifier::loop_isolation(false)]
fn push_globals(out: &mut Vec<char>, gs: &Vec<GlobalBet>)
    ensures
        final(out)@ == old(out)@ + enc_globals(gs.deep_view()),
        forall|k: int| 0 <= k < gs.deep_view().len() ==> encodable_global(
            #[trigger] gs.deep_view()[k],
        ),
{
    let ghost gv = gs.deep_view();
    let ghost base = out@;
    assert(gv.subrange(0, gv.len() as int) =~= gv);
    let mut i: usize = 0;
    while i < gs.len()
        invariant
            i <= gv.len(),
            out@ + enc_globals(gv.subrange(i as int, gv.len() as int)) == base + enc_globals(gv),
            forall|k: int| 0 <= k < i ==> encodable_global(#[trigger] gv[k]),
        decreases gv.len() - i,
    {
        assert(gv[i as int] == gs@[i as int]@);
        let ghost pre = out@;
        push_global(out, &gs[i]);
        proof {
            let suf = gv.subrange(i as int, gv.len() as int);
            assert(suf.first() == gv[i as int]);
            assert(suf.drop_first() =~= gv.subrange(i as int + 1, gv.len() as int));
            assert(out@ + enc_globals(gv.subrange(i as int + 1, gv.len() as int)) =~= pre
                + enc_globals(suf));
        }
        i += 1;
    }
    assert(gv.subrange(gv.len() as int, gv.len() as int) =~= Seq::<GlobalBetV>::empty());
    assert(out@ =~= base + enc_globals(gv));
}

impl DataInter {
    /// The whole aggregate as snapshot text, ready for the durable
    /// location; its content round-trips through `restore`.
    #[verifier::loop_isolation(false)]
    pub fn snapshot(&self) -> (r: String)
        ensures
            r@ == enc_store(self@),
            encodable(self@),
    {
        let mut out: Vec<char> = Vec::new();
        push_len(&mut out, self.teams.len());
        push_teams(&mut out, &self.teams);
        push_len(&mut out, self.games.len());
        push_games(&mut out, &self.games);
        push_len(&mut out, self.bets.len());
        push_betlists(&mut out, &self.bets);
        push_len(&mut out, self.global_bets.len());
        push_globals(&mut out, &self.global_bets);
        assert(out@ =~= enc_store(self@));
        let mut r = String::new();
        let mut i: usize = 0;
        while i < out.len()
            invariant
                i <= out@.len(),
                r@ == out@.subrange(0, i as int),
            decreases out@.len() - i,
        {
            string_push(&mut r, out[i]);
            assert(r@ =~= out@.subrange(0, i as int + 1));
            i += 1;
        }
        assert(r@ =~= out@);
        r
    }
}


fn read_u64(s: &Vec<char>, i: usize) -> (r: Option<(u64, usize)>)
    ensures
        match r {
            Some(p) => dec_u64(s@, i as int) == Some((p.0, p.1 as int)),
            None => dec_u64(s@, i as int) is None,
        },
{
    read_fixed(s, i, 20)
}

fn read_u16(s: &Vec<char>, i: usize) -> (r: Option<(u16, usize)>)
    ensures
        match r {
            Some(p) => dec_u16(s@, i as int) == Some((p.0, p.1 as int)),
            None => dec_u16(s@, i as int) is None,
        },
{
    match read_fixed(s, i, 5) {
        None => None,
        Some(p) => {
            if p.0 > u16::MAX as u64 {
                None
            } else {
                Some((p.0 as u16, p.1))
            }
        },
    }
}

fn read_u8(s: &Vec<char>, i: usize) -> (r: Option<(u8, usize)>)
    ensures
        match r {
            Some(p) => dec_u8(s@, i as int) == Some((p.0, p.1 as int)),
            None => dec_u8(s@, i as int) is None,
        },
{
    match read_fixed(s, i, 3) {
        None => None,
        Some(p) => {
            if p.0 > u8::MAX as u64 {
                None
            } else {
                Some((p.0 as u8, p.1))
            }
        },
    }
}

#[verifier::loop_isolation(false)]
fn read_str(s: &Vec<char>, i: usize) -> (r: Option<(String, usize)>)
    ensures
        match r {
            Some(p) => dec_str(s@, i as int) == Some((p.0@, p.1 as int)),
            None => dec_str(s@, i as int) is None,
        },
{
    let (n, j) = match read_u64(s, i) {
        None => {
            return None;
        },
        Some(p) => p,
    };
    if j > s.len() || n > (s.len() - j) as u64 {
        return None;
    }
    let n_us = n as usize;
    let mut out = String::new();
    let mut q: usize = 0;
    while q < n_us
        invariant
            q <= n_us,
            n_us == n,
            j + n_us <= s@.len(),
            out@ == s@.subrange(j as int, j as int + q as int),
        decreases n_us - q,
    {
        string_push(&mut out, s[j + q]);
        assert(out@ =~= s@.subrange(j as int, j as int + q as int + 1));
        q += 1;
    }
    Some((out, j + n_us))
}

fn read_ts(s: &Vec<char>, i: usize) -> (r: Option<(Timestamp, usize)>)
    ensures
        match r {
            Some(p) => dec_ts(s@, i as int) == Some((p.0, p.1 as int)),
            None => dec_ts(s@, i as int) is None,
        },
{
    let (year, i1) = match read_u16(s, i) {
        None => {
            return None;
        },
        Some(p) => p,
    };
    let (month, i2) = match read_u8(s, i1) {
        None => {
            return None;
        },
        Some(p) => p,
    };
    let (day, i3) = match read_u8(s, i2) {
        None => {
            return None;
        },
        Some(p) => p,
    };
    let (hour, i4) = match read_u8(s, i3) {
        None => {
            return None;
        },
        Some(p) => p,
    };
    let (minute, i5) = match read_u8(s, i4) {
        None => {
            return None;
        },
        Some(p) => p,
    };
    Some((Timestamp { year, month, day, hour, minute }, i5))
}

fn read_team(s: &Vec<char>, i: usize) -> (r: Option<(Team, usize)>)
    ensures
        match r {
            Some(p) => dec_team(s@, i as int) == Some((p.0@, p.1 as int)),
            None => dec_team(s@, i as int) is None,
        },
{
    let (name, i1) = match read_str(s, i) {
        None => {
            return None;
        },
        Some(p) => p,
    };
    let (flag, i2) = match read_str(s, i1) {
        None => {
            return None;
        },
        Some(p) => p,
    };
    let (iso, i3) = match read_str(s, i2) {
        None => {
            return None;
        },
        Some(p) => p,
    };
    Some((Team { name, flag, iso }, i3))
}

fn read_game_result(s: &Vec<char>, i: usize) -> (r: Option<
    (Option<(u16, u16, String)>, usize),
>)
    ensures
        match r {
            Some(p) => dec_game_result(s@, i as int) == Some((p.0.deep_view(), p.1 as int)),
            None => dec_game_result(s@, i as int) is None,
        },
{
    if i >= s.len() {
        return None;
    }
    let c = s[i];
    if c == '0' {
        Some((None, i + 1))
    } else if c == '1' {
        let (a, i1) = match read_u16(s, i + 1) {
            None => {
                return None;
            },
            Some(p) => p,
        };
        let (b, i2) = match read_u16(s, i1) {
            None => {
                return None;
            },
            Some(p) => p,
        };
        let (note, i3) = match read_str(s, i2) {
            None => {
                return None;
            },
            Some(p) => p,
        };
        Some((Some((a, b, note)), i3))
    } else {
        None
    }
}

fn read_game(s: &Vec<char>, i: usize) -> (r: Option<(Game, usize)>)
    ensures
        match r {
            Some(p) => dec_game(s@, i as int) == Some((p.0@, p.1 as int)),
            None => dec_game(s@, i as int) is None,
        },
{
    let (name, i1) = match read_str(s, i) {
        None => {
            return None;
        },
        Some(p) => p,
    };
    let (short, i2) = match read_str(s, i1) {
        None => {
            return None;
        },
        Some(p) => p,
    };
    let (team1_iso, i3) = match read_str(s, i2) {
        None => {
            return None;
        },
        Some(p) => p,
    };
    let (team2_iso, i4) = match read_str(s, i3) {
        None => {
            return None;
        },
        Some(p) => p,
    };
    let (start_time, i5) = match read_ts(s, i4) {
        None => {
            return None;
        },
        Some(p) => p,
    };
    let (result, i6) = match read_game_result(s, i5) {
        None => {
            return None;
        },
        Some(p) => p,
    };
    Some((Game { name, short, team1_iso, team2_iso, start_time, result }, i6))
}

fn read_bet(s: &Vec<char>, i: usize) -> (r: Option<(Bet, usize)>)
    ensures
        match r {
            Some(p) => dec_bet(s@, i as int) == Some((p.0, p.1 as int)),
            None => dec_bet(s@, i as int) is None,
        },
{
    let (user, i1) = match read_u64(s, i) {
        None => {
            return None;
        },
        Some(p) => p,
    };
    let (team1, i2) = match read_u16(s, i1) {
        None => {
            return None;
        },
        Some(p) => p,
    };
    let (team2, i3) = match read_u16(s, i2) {
        None => {
            return None;
        },
        Some(p) => p,
    };
    Some((Bet { user, team1, team2 }, i3))
}

#[verifier::loop_isolation(false)]
fn read_bets(s: &Vec<char>, i: usize, n: u64) -> (r: Option<(Vec<Bet>, usize)>)
    ensures
        match r {
            Some(p) => dec_bets(s@, i as int, n as nat) == Some((p.0.deep_view(), p.1 as int)),
            None => dec_bets(s@, i as int, n as nat) is None,
        },
{
    let mut acc: Vec<Bet> = Vec::new();
    let mut cur: usize = i;
    let mut rem: u64 = n;
    while rem > 0
        invariant
            rem <= n,
            (dec_bets(s@, i as int, n as nat) is Some) == (dec_bets(s@, cur as int, rem as nat)
                is Some),
            dec_bets(s@, cur as int, rem as nat) matches Some(q) ==> dec_bets(
                s@,
                i as int,
                n as nat,
            ) == Some(((acc.deep_view() + q.0), q.1)),
        decreases rem,
    {
        match read_bet(s, cur) {
            None => {
                return None;
            },
            Some(p) => {
                let (item, nxt) = p;
                let ghost tv = item;
                let ghost oldacc = acc.deep_view();
                let ghost oldcur = cur as int;
                let ghost oldrem = rem as nat;
                acc.push(item);
                cur = nxt;
                rem = rem - 1;
                proof {
                    assert(acc.deep_view() =~= oldacc.push(tv));
                    match dec_bets(s@, cur as int, rem as nat) {
                        Some(q) => {
                            assert(dec_bets(s@, oldcur, oldrem) == Some((seq![tv] + q.0, q.1)));
                            assert(oldacc + (seq![tv] + q.0) =~= acc.deep_view() + q.0);
                        },
                        None => {},
                    }
                }
            },
        }
    }
    proof {
        assert(acc.deep_view() + Seq::<Bet>::empty() =~= acc.deep_view());
    }
    Some((acc, cur))
}

fn read_betlist(s: &Vec<char>, i: usize) -> (r: Option<(BetList, usize)>)
    ensures
        match r {
            Some(p) => dec_betlist(s@, i as int) == Some((p.0@, p.1 as int)),
            None => dec_betlist(s@, i as int) is None,
        },
{
    let (game, i1) = match read_str(s, i) {
        None => {
            return None;
        },
        Some(p) => p,
    };
    let (n, i2) = match read_u64(s, i1) {
        None => {
            return None;
        },
        Some(p) => p,
    };
    let (bets, i3) = match read_bets(s, i2, n) {
        None => {
            return None;
        },
        Some(p) => p,
    };
    Some((BetList { game, bets }, i3))
}

fn read_pred(s: &Vec<char>, i: usize) -> (r: Option<((u64, String), usize)>)
    ensures
        match r {
            Some(p) => dec_pred(s@, i as int) == Some((p.0.deep_view(), p.1 as int)),
            None => dec_pred(s@, i as int) is None,
        },
{
    let (user, i1) = match read_u64(s, i) {
        None => {
            return None;
        },
        Some(p) => p,
    };
    let (team, i2) = match read_str(s, i1) {
        None => {
            return None;
        },
        Some(p) => p,
    };
    Some(((user, team), i2))
}

#[verifier::loop_isolation(false)]
fn read_preds(s: &Vec<char>, i: usize, n: u64) -> (r: Option<(Vec<(u64, String)>, usize)>)
    ensures
        match r {
            Some(p) => dec_preds(s@, i as int, n as nat) == Some((p.0.deep_view(), p.1 as int)),
            None => dec_preds(s@, i as int, n as nat) is None,
        },
{
    let mut acc: Vec<(u64, String)> = Vec::new();
    let mut cur: usize = i;
    let mut rem: u64 = n;
    while rem > 0
        invariant
            rem <= n,
            (dec_preds(s@, i as int, n as nat) is Some) == (dec_preds(s@, cur as int, rem as nat)
                is Some),
            dec_preds(s@, cur as int, rem as nat) matches Some(q) ==> dec_preds(
                s@,
                i as int,
                n as nat,
            ) == Some(((acc.deep_view() + q.0), q.1)),
        decreases rem,
    {
        match read_pred(s, cur) {
            None => {
                return None;
            },
            Some(p) => {
                let (item, nxt) = p;
                let ghost tv = item.deep_view();
                let ghost oldacc = acc.deep_view();
                let ghost oldcur = cur as int;
                let ghost oldrem = rem as nat;
                acc.push(item);
                cur = nxt;
                rem = rem - 1;
                proof {
                    assert(acc.deep_view() =~= oldacc.push(tv));
                    match dec_preds(s@, cur as int, rem as nat) {
                        Some(q) => {
                            assert(dec_preds(s@, oldcur, oldrem) == Some((seq![tv] + q.0, q.1)));
                            assert(oldacc + (seq![tv] + q.0) =~= acc.deep_view() + q.0);
                        },
                        None => {},
                    }
                }
            },
        }
    }
    proof {
        assert(acc.deep_view() + Seq::<(u64, Seq<char>)>::empty() =~= acc.deep_view());
    }
    Some((acc, cur))
}

fn read_opt_str(s: &Vec<char>, i: usize) -> (r: Option<(Option<String>, usize)>)
    ensures
        match r {
            Some(p) => dec_opt_str(s@, i as int) == Some((p.0.deep_view(), p.1 as int)),
            None => dec_opt_str(s@, i as int) is None,
        },
{
    if i >= s.len() {
        return None;
    }
    let c = s[i];
    if c == '0' {
        Some((None, i + 1))
    } else if c == '1' {
        match read_str(s, i + 1) {
            None => None,
            Some(p) => Some((Some(p.0), p.1)),
        }
    } else {
        None
    }
}

fn read_global(s: &Vec<char>, i: usize) -> (r: Option<(GlobalBet, usize)>)
    ensures
        match r {
            Some(p) => dec_global(s@, i as int) == Some((p.0@, p.1 as int)),
            None => dec_global(s@, i as int) is None,
        },
{
    let (name, i1) = match read_str(s, i) {
        None => {
            return None;
        },
        Some(p) => p,
    };
    let (short, i2) = match read_str(s, i1) {
        None => {
            return None;
        },
        Some(p) => p,
    };
    let (points, i3) = match read_u16(s, i2) {
        None => {
            return None;
        },
        Some(p) => p,
    };
    let (start_time, i4) = match read_ts(s, i3) {
        None => {
            return None;
        },
        Some(p) => p,
    };
    let (result, i5) = match read_opt_str(s, i4) {
        None => {
            return None;
        },
        Some(p) => p,
    };
    let (n, i6) = match read_u64(s, i5) {
        None => {
            return None;
        },
        Some(p) => p,
    };
    let (bets, i7) = match read_preds(s, i6, n) {
        None => {
            return None;
        },
        Some(p) => p,
    };
    Some((GlobalBet { name, short, points, start_time, result, bets }, i7))
}

#[verifier::loop_isolation(false)]
fn read_teams(s: &Vec<char>, i: usize, n: u64) -> (r: Option<(Vec<Team>, usize)>)
    ensures
        match r {
            Some(p) => dec_teams(s@, i as int, n as nat) == Some((p.0.deep_view(), p.1 as int)),
            None => dec_teams(s@, i as int, n as nat) is None,
        },
{
    let mut acc: Vec<Team> = Vec::new();
    let mut cur: usize = i;
    let mut rem: u64 = n;
    while rem > 0
        invariant
            rem <= n,
            (dec_teams(s@, i as int, n as nat) is Some) == (dec_teams(s@, cur as int, rem as nat)
                is Some),
            dec_teams(s@, cur as int, rem as nat) matches Some(q) ==> dec_teams(
                s@,
                i as int,
                n as nat,
            ) == Some(((acc.deep_view() + q.0), q.1)),
        decreases rem,
    {
        match read_team(s, cur) {
            None => {
                return None;
            },
            Some(p) => {
                let (item, nxt) = p;
                let ghost tv = item@;
                let ghost oldacc = acc.deep_view();
                let ghost oldcur = cur as int;
                let ghost oldrem = rem as nat;
                acc.push(item);
                cur = nxt;
                rem = rem - 1;
                proof {
                    assert(acc.deep_view() =~= oldacc.push(tv));
                    match dec_teams(s@, cur as int, rem as nat) {
                        Some(q) => {
                            assert(dec_teams(s@, oldcur, oldrem) == Some((seq![tv] + q.0, q.1)));
                            assert(oldacc + (seq![tv] + q.0) =~= acc.deep_view() + q.0);
                        },
                        None => {},
                    }
                }
            },
        }
    }
    proof {
        assert(acc.deep_view() + Seq::<TeamV>::empty() =~= acc.deep_view());
    }
    Some((acc, cur))
}

#[verifier::loop_isolation(false)]
fn read_games(s: &Vec<char>, i: usize, n: u64) -> (r: Option<(Vec<Game>, usize)>)
    ensures
        match r {
            Some(p) => dec_games(s@, i as int, n as nat) == Some((p.0.deep_view(), p.1 as int)),
            None => dec_games(s@, i as int, n as nat) is None,
        },
{
    let mut acc: Vec<Game> = Vec::new();
    let mut cur: usize = i;
    let mut rem: u64 = n;
    while rem > 0
        invariant
            rem <= n,
            (dec_games(s@, i as int, n as nat) is Some) == (dec_games(s@, cur as int, rem as nat)
                is Some),
            dec_games(s@, cur as int, rem as nat) matches Some(q) ==> dec_games(
                s@,
                i as int,
                n as nat,
            ) == Some(((acc.deep_view() + q.0), q.1)),
        decreases rem,
    {
        match read_game(s, cur) {
            None => {
                return None;
            },
            Some(p) => {
                let (item, nxt) = p;
                let ghost tv = item@;
                let ghost oldacc = acc.deep_view();
                let ghost oldcur = cur as int;
                let ghost oldrem = rem as nat;
                acc.push(item);
                cur = nxt;
                rem = rem - 1;
                proof {
                    assert(acc.deep_view() =~= oldacc.push(tv));
                    match dec_games(s@, cur as int, rem as nat) {
                        Some(q) => {
                            assert(dec_games(s@, oldcur, oldrem) == Some((seq![tv] + q.0, q.1)));
                            assert(oldacc + (seq![tv] + q.0) =~= acc.deep_view() + q.0);
                        },
                        None => {},
                    }
                }
            },
        }
    }
    proof {
        assert(acc.deep_view() + Seq::<GameV>::empty() =~= acc.deep_view());
    }
    Some((acc, cur))
}

#[verifier::loop_isolation(false)]
fn read_betlists(s: &Vec<char>, i: usize, n: u64) -> (r: Option<(Vec<BetList>, usize)>)
    ensures
        match r {
            Some(p) => dec_betlists(s@, i as int, n as nat) == Some(
                (p.0.deep_view(), p.1 as int),
            ),
            None => dec_betlists(s@, i as int, n as nat) is None,
        },
{
    let mut acc: Vec<BetList> = Vec::new();
    let mut cur: usize = i;
    let mut rem: u64 = n;
    while rem > 0
        invariant
            rem <= n,
            (dec_betlists(s@, i as int, n as nat) is Some) == (dec_betlists(
                s@,
                cur as int,
                rem as nat,
            ) is Some),
            dec_betlists(s@, cur as int, rem as nat) matches Some(q) ==> dec_betlists(
                s@,
                i as int,
                n as nat,
            ) == Some(((acc.deep_view() + q.0), q.1)),
        decreases rem,
    {
        match read_betlist(s, cur) {
            None => {
                return None;
            },
            Some(p) => {
                let (item, nxt) = p;
                let ghost tv = item@;
                let ghost oldacc = acc.deep_view();
                let ghost oldcur = cur as int;
                let ghost oldrem = rem as nat;
                acc.push(item);
                cur = nxt;
                rem = rem - 1;
                proof {
                    assert(acc.deep_view() =~= oldacc.push(tv));
                    match dec_betlists(s@, cur as int, rem as nat) {
                        Some(q) => {
                            assert(dec_betlists(s@, oldcur, oldrem) == Some(
                                (seq![tv] + q.0, q.1),
                            ));
                            assert(oldacc + (seq![tv] + q.0) =~= acc.deep_view() + q.0);
                        },
                        None => {},
                    }
                }
            },
        }
    }
    proof {
        assert(acc.deep_view() + Seq::<BetListV>::empty() =~= acc.deep_view());
    }
    Some((acc, cur))
}

#[verifier::loop_isolation(false)]
fn read_globals(s: &Vec<char>, i: usize, n: u64) -> (r: Option<(Vec<GlobalBet>, usize)>)
    ensures
        match r {
            Some(p) => dec_globals(s@, i as int, n as nat) == Some((p.0.deep_view(), p.1 as int)),
            None => dec_globals(s@, i as int, n as nat) is None,
        },
{
    let mut acc: Vec<GlobalBet> = Vec::new();
    let mut cur: usize = i;
    let mut rem: u64 = n;
    while rem > 0
        invariant
            rem <= n,
            (dec_globals(s@, i as int, n as nat) is Some) == (dec_globals(
                s@,
                cur as int,
                rem as nat,
            ) is Some),
            dec_globals(s@, cur as int, rem as nat) matches Some(q) ==> dec_globals(
                s@,
                i as int,
                n as nat,
            ) == Some(((acc.deep_view() + q.0), q.1)),
        decreases rem,
    {
        match read_global(s, cur) {
            None => {
                return None;
            },
            Some(p) => {
                let (item, nxt) = p;
                let ghost tv = item@;
                let ghost oldacc = acc.deep_view();
                let ghost oldcur = cur as int;
                let ghost oldrem = rem as nat;
                acc.push(item);
                cur = nxt;
                rem = rem - 1;
                proof {
                    assert(acc.deep_view() =~= oldacc.push(tv));
                    match dec_globals(s@, cur as int, rem as nat) {
                        Some(q) => {
                            assert(dec_globals(s@, oldcur, oldrem) == Some((seq![tv] + q.0, q.1)));
                            assert(oldacc + (seq![tv] + q.0) =~= acc.deep_view() + q.0);
                        },
                        None => {},
                    }
                }
            },
        }
    }
    proof {
        assert(acc.deep_view() + Seq::<GlobalBetV>::empty() =~= acc.deep_view());
    }
    Some((acc, cur))
}

impl DataInter {
    /// Rebuilds an aggregate from snapshot text: the decoded store when the
    /// text is one complete snapshot of a well-formed aggregate, else
    /// `None` (the caller falls back to an empty aggregate).
    pub fn restore(text: &str) -> (r: Option<DataInter>)
        ensures
            match r {
                Some(d) => dec_store(text@) == Some(d@) && d.wf(),
                None => dec_store(text@) matches Some(v) ==> !wf_store(v),
            },
    {
        let cs = chars_of(text);
        let (nt, i1) = match read_u64(&cs, 0) {
            None => {
                return None;
            },
            Some(p) => p,
        };
        let (teams, i2) = match read_teams(&cs, i1, nt) {
            None => {
                return None;
            },
            Some(p) => p,
        };
        let (ng, i3) = match read_u64(&cs, i2) {
            None => {
                return None;
            },
            Some(p) => p,
        };
        let (games, i4) = match read_games(&cs, i3, ng) {
            None => {
                return None;
            },
            Some(p) => p,
        };
        let (nb, i5) = match read_u64(&cs, i4) {
            None => {
                return None;
            },
            Some(p) => p,
        };
        let (bets, i6) = match read_betlists(&cs, i5, nb) {
            None => {
                return None;
            },
            Some(p) => p,
        };
        let (ngb, i7) = match read_u64(&cs, i6) {
            None => {
                return None;
            },
            Some(p) => p,
        };
        let (global_bets, i8) = match read_globals(&cs, i7, ngb) {
            None => {
                return None;
            },
            Some(p) => p,
        };
        if i8 != cs.len() {
            return None;
        }
        let d = DataInter { teams, games, bets, global_bets };
        assert(dec_store(text@) == Some(d@));
        if d.check_wf() {
            Some(d)
        } else {
            None
        }
    }
}


// ---------------------------------------------------------------------
// Round trip: decoding what was encoded yields exactly the encoded value
// and consumes exactly its text.
// ---------------------------------------------------------------------
proof fn lemma_split(s: Seq<char>, i: int, a: Seq<char>, b: Seq<char>)
    requires
        0 <= i,
        i + a.len() + b.len() <= s.len(),
        s.subrange(i, i + a.len() + b.len()) == a + b,
    ensures
        s.subrange(i, i + a.len()) == a,
        s.subrange(i + a.len(), i + a.len() + b.len()) == b,
{
    let ab = a + b;
    let la = a.len() as int;
    let lb = b.len() as int;
    assert forall|k: int| 0 <= k < la implies s.subrange(i, i + la)[k] == a[k] by {
        assert(s.subrange(i, i + la + lb)[k] == ab[k]);
    }
    assert(s.subrange(i, i + la) =~= a);
    assert forall|k: int| 0 <= k < lb implies s.subrange(i + la, i + la + lb)[k] == b[k] by {
        assert(s.subrange(i, i + la + lb)[la + k] == ab[la + k]);
    }
    assert(s.subrange(i + la, i + la + lb) =~= b);
}

proof fn lemma_len_u64(n: u64)
    ensures
        enc_u64(n).len() == 20,
{
    crate::digits::lemma_enc_fixed_len(n as nat, 20);
}

proof fn lemma_len_u16(n: u16)
    ensures
        enc_u16(n).len() == 5,
{
    crate::digits::lemma_enc_fixed_len(n as nat, 5);
}

proof fn lemma_len_u8(n: u8)
    ensures
        enc_u8(n).len() == 3,
{
    crate::digits::lemma_enc_fixed_len(n as nat, 3);
}

proof fn lemma_len_str(v: Seq<char>)
    ensures
        enc_str(v).len() == 20 + v.len(),
{
    crate::digits::lemma_enc_fixed_len(v.len(), 20);
}

proof fn lemma_len_ts(t: Timestamp)
    ensures
        enc_ts(t).len() == 17,
{
    lemma_len_u16(t.year);
    lemma_len_u8(t.month);
    lemma_len_u8(t.day);
    lemma_len_u8(t.hour);
    lemma_len_u8(t.minute);
}

proof fn lemma_rt_u64(n: u64, s: Seq<char>, i: int)
    requires
        0 <= i,
        i + 20 <= s.len(),
        s.subrange(i, i + 20) == enc_u64(n),
    ensures
        dec_u64(s, i) == Some((n, i + 20)),
{
    lemma_pow10_consts();
    lemma_len_u64(n);
    crate::digits::lemma_enc_dec_fixed(n as nat, 20, s, i);
}

proof fn lemma_rt_u16(n: u16, s: Seq<char>, i: int)
    requires
        0 <= i,
        i + 5 <= s.len(),
        s.subrange(i, i + 5) == enc_u16(n),
    ensures
        dec_u16(s, i) == Some((n, i + 5)),
{
    lemma_pow10_consts();
    lemma_len_u16(n);
    crate::digits::lemma_enc_dec_fixed(n as nat, 5, s, i);
}

proof fn lemma_rt_u8(n: u8, s: Seq<char>, i: int)
    requires
        0 <= i,
        i + 3 <= s.len(),
        s.subrange(i, i + 3) == enc_u8(n),
    ensures
        dec_u8(s, i) == Some((n, i + 3)),
{
    lemma_pow10_consts();
    lemma_len_u8(n);
    crate::digits::lemma_enc_dec_fixed(n as nat, 3, s, i);
}

proof fn lemma_rt_str(v: Seq<char>, s: Seq<char>, i: int)
    requires
        v.len() <= u64::MAX,
        0 <= i,
        i + enc_str(v).len() <= s.len(),
        s.subrange(i, i + enc_str(v).len()) == enc_str(v),
    ensures
        dec_str(s, i) == Some((v, i + enc_str(v).len())),
{
    lemma_len_str(v);
    let a = enc_fixed(v.len(), 20);
    crate::digits::lemma_enc_fixed_len(v.len(), 20);
    lemma_split(s, i, a, v);
    assert(a == enc_u64(v.len() as u64));
    lemma_rt_u64(v.len() as u64, s, i);
    assert(s.subrange(i + 20, i + 20 + v.len()) == v);
}

proof fn lemma_rt_ts(t: Timestamp, s: Seq<char>, i: int)
    requires
        0 <= i,
        i + 17 <= s.len(),
        s.subrange(i, i + 17) == enc_ts(t),
    ensures
        dec_ts(s, i) == Some((t, i + 17)),
{
    lemma_len_u16(t.year);
    lemma_len_u8(t.month);
    lemma_len_u8(t.day);
    lemma_len_u8(t.hour);
    lemma_len_u8(t.minute);
    let a = enc_u16(t.year);
    let b = enc_u8(t.month);
    let c = enc_u8(t.day);
    let d = enc_u8(t.hour);
    let e = enc_u8(t.minute);
    assert(s.subrange(i, i + 17) =~= a + (b + (c + (d + e))));
    lemma_split(s, i, a, b + (c + (d + e)));
    lemma_rt_u16(t.year, s, i);
    lemma_split(s, i + 5, b, c + (d + e));
    lemma_rt_u8(t.month, s, i + 5);
    lemma_split(s, i + 8, c, d + e);
    lemma_rt_u8(t.day, s, i + 8);
    lemma_split(s, i + 11, d, e);
    lemma_rt_u8(t.hour, s, i + 11);
    lemma_rt_u8(t.minute, s, i + 14);
}

proof fn lemma_rt_team(t: TeamV, s: Seq<char>, i: int)
    requires
        encodable_team(t),
        0 <= i,
        i + enc_team(t).len() <= s.len(),
        s.subrange(i, i + enc_team(t).len()) == enc_team(t),
    ensures
        dec_team(s, i) == Some((t, i + enc_team(t).len())),
{
    lemma_len_str(t.name);
    lemma_len_str(t.flag);
    lemma_len_str(t.iso);
    let a = enc_str(t.name);
    let b = enc_str(t.flag);
    let c = enc_str(t.iso);
    assert(s.subrange(i, i + enc_team(t).len()) =~= a + (b + c));
    lemma_split(s, i, a, b + c);
    lemma_rt_str(t.name, s, i);
    let i1 = i + a.len() as int;
    lemma_split(s, i1, b, c);
    lemma_rt_str(t.flag, s, i1);
    let i2 = i1 + b.len() as int;
    lemma_rt_str(t.iso, s, i2);
}

proof fn lemma_rt_game_result(r: Option<(u16, u16, Seq<char>)>, s: Seq<char>, i: int)
    requires
        (r matches Some(p) ==> p.2.len() <= u64::MAX),
        0 <= i,
        i + enc_game_result(r).len() <= s.len(),
        s.subrange(i, i + enc_game_result(r).len()) == enc_game_result(r),
    ensures
        dec_game_result(s, i) == Some((r, i + enc_game_result(r).len())),
{
    match r {
        None => {
            assert(s[i] == s.subrange(i, i + 1)[0]);
        },
        Some(p) => {
            lemma_len_u16(p.0);
            lemma_len_u16(p.1);
            lemma_len_str(p.2);
            let a = enc_u16(p.0);
            let b = enc_u16(p.1);
            let c = enc_str(p.2);
            let tag = seq!['1'];
            assert(s.subrange(i, i + enc_game_result(r).len()) =~= tag + (a + (b + c)));
            lemma_split(s, i, tag, a + (b + c));
            assert(s[i] == s.subrange(i, i + 1)[0]);
            lemma_split(s, i + 1, a, b + c);
            lemma_rt_u16(p.0, s, i + 1);
            lemma_split(s, i + 6, b, c);
            lemma_rt_u16(p.1, s, i + 6);
            lemma_rt_str(p.2, s, i + 11);
        },
    }
}

proof fn lemma_rt_game(g: GameV, s: Seq<char>, i: int)
    requires
        encodable_game(g),
        0 <= i,
        i + enc_game(g).len() <= s.len(),
        s.subrange(i, i + enc_game(g).len()) == enc_game(g),
    ensures
        dec_game(s, i) == Some((g, i + enc_game(g).len())),
{
    lemma_len_str(g.name);
    lemma_len_str(g.short);
    lemma_len_str(g.team1_iso);
    lemma_len_str(g.team2_iso);
    lemma_len_ts(g.start_time);
    let a = enc_str(g.name);
    let b = enc_str(g.short);
    let c = enc_str(g.team1_iso);
    let d = enc_str(g.team2_iso);
    let e = enc_ts(g.start_time);
    let f = enc_game_result(g.result);
    assert(s.subrange(i, i + enc_game(g).len()) =~= a + (b + (c + (d + (e + f)))));
    lemma_split(s, i, a, b + (c + (d + (e + f))));
    lemma_rt_str(g.name, s, i);
    let i1 = i + a.len() as int;
    lemma_split(s, i1, b, c + (d + (e + f)));
    lemma_rt_str(g.short, s, i1);
    let i2 = i1 + b.len() as int;
    lemma_split(s, i2, c, d + (e + f));
    lemma_rt_str(g.team1_iso, s, i2);
    let i3 = i2 + c.len() as int;
    lemma_split(s, i3, d, e + f);
    lemma_rt_str(g.team2_iso, s, i3);
    let i4 = i3 + d.len() as int;
    lemma_split(s, i4, e, f);
    lemma_rt_ts(g.start_time, s, i4);
    let i5 = i4 + 17;
    lemma_rt_game_result(g.result, s, i5);
}

proof fn lemma_rt_bet(b: Bet, s: Seq<char>, i: int)
    requires
        0 <= i,
        i + 30 <= s.len(),
        s.subrange(i, i + 30) == enc_bet(b),
    ensures
        dec_bet(s, i) == Some((b, i + 30)),
{
    lemma_len_u64(b.user);
    lemma_len_u16(b.team1);
    lemma_len_u16(b.team2);
    let a = enc_u64(b.user);
    let c = enc_u16(b.team1);
    let d = enc_u16(b.team2);
    assert(s.subrange(i, i + 30) =~= a + (c + d));
    lemma_split(s, i, a, c + d);
    lemma_rt_u64(b.user, s, i);
    lemma_split(s, i + 20, c, d);
    lemma_rt_u16(b.team1, s, i + 20);
    lemma_rt_u16(b.team2, s, i + 25);
}

proof fn lemma_rt_bets(bs: Seq<Bet>, s: Seq<char>, i: int)
    requires
        0 <= i,
        i + enc_bets(bs).len() <= s.len(),
        s.subrange(i, i + enc_bets(bs).len()) == enc_bets(bs),
    ensures
        dec_bets(s, i, bs.len()) == Some((bs, i + enc_bets(bs).len())),
    decreases bs.len(),
{
    if bs.len() == 0 {
        assert(bs =~= Seq::<Bet>::empty());
    } else {
        let first = bs.first();
        let rest = bs.drop_first();
        lemma_len_u64(first.user);
        lemma_len_u16(first.team1);
        lemma_len_u16(first.team2);
        assert(enc_bet(first).len() == 30);
        lemma_split(s, i, enc_bet(first), enc_bets(rest));
        lemma_rt_bet(first, s, i);
        lemma_rt_bets(rest, s, i + 30);
        assert(seq![first] + rest =~= bs);
    }
}

proof fn lemma_rt_betlist(bl: BetListV, s: Seq<char>, i: int)
    requires
        encodable_betlist(bl),
        0 <= i,
        i + enc_betlist(bl).len() <= s.len(),
        s.subrange(i, i + enc_betlist(bl).len()) == enc_betlist(bl),
    ensures
        dec_betlist(s, i) == Some((bl, i + enc_betlist(bl).len())),
{
    lemma_len_str(bl.game);
    crate::digits::lemma_enc_fixed_len(bl.bets.len(), 20);
    let a = enc_str(bl.game);
    let b = enc_fixed(bl.bets.len(), 20);
    let c = enc_bets(bl.bets);
    assert(s.subrange(i, i + enc_betlist(bl).len()) =~= a + (b + c));
    lemma_split(s, i, a, b + c);
    lemma_rt_str(bl.game, s, i);
    let i1 = i + a.len() as int;
    lemma_split(s, i1, b, c);
    assert(b == enc_u64(bl.bets.len() as u64));
    lemma_rt_u64(bl.bets.len() as u64, s, i1);
    lemma_rt_bets(bl.bets, s, i1 + 20);
}

proof fn lemma_rt_pred(p: (u64, Seq<char>), s: Seq<char>, i: int)
    requires
        p.1.len() <= u64::MAX,
        0 <= i,
        i + enc_pred(p).len() <= s.len(),
        s.subrange(i, i + enc_pred(p).len()) == enc_pred(p),
    ensures
        dec_pred(s, i) == Some((p, i + enc_pred(p).len())),
{
    lemma_len_u64(p.0);
    lemma_len_str(p.1);
    lemma_split(s, i, enc_u64(p.0), enc_str(p.1));
    lemma_rt_u64(p.0, s, i);
    lemma_rt_str(p.1, s, i + 20);
}

proof fn lemma_rt_preds(ps: Seq<(u64, Seq<char>)>, s: Seq<char>, i: int)
    requires
        forall|k: int| 0 <= k < ps.len() ==> (#[trigger] ps[k]).1.len() <= u64::MAX,
        0 <= i,
        i + enc_preds(ps).len() <= s.len(),
        s.subrange(i, i + enc_preds(ps).len()) == enc_preds(ps),
    ensures
        dec_preds(s, i, ps.len()) == Some((ps, i + enc_preds(ps).len())),
    decreases ps.len(),
{
    if ps.len() == 0 {
        assert(ps =~= Seq::<(u64, Seq<char>)>::empty());
    } else {
        let first = ps.first();
        let rest = ps.drop_first();
        assert(forall|k: int| 0 <= k < rest.len() ==> #[trigger] rest[k] == ps[k + 1]);
        lemma_split(s, i, enc_pred(first), enc_preds(rest));
        lemma_rt_pred(first, s, i);
        let i1 = i + enc_pred(first).len() as int;
        lemma_rt_preds(rest, s, i1);
        assert(seq![first] + rest =~= ps);
    }
}

proof fn lemma_rt_opt_str(r: Option<Seq<char>>, s: Seq<char>, i: int)
    requires
        (r matches Some(v) ==> v.len() <= u64::MAX),
        0 <= i,
        i + enc_opt_str(r).len() <= s.len(),
        s.subrange(i, i + enc_opt_str(r).len()) == enc_opt_str(r),
    ensures
        dec_opt_str(s, i) == Some((r, i + enc_opt_str(r).len())),
{
    match r {
        None => {
            assert(s[i] == s.subrange(i, i + 1)[0]);
        },
        Some(v) => {
            lemma_len_str(v);
            let tag = seq!['1'];
            assert(s.subrange(i, i + enc_opt_str(r).len()) =~= tag + enc_str(v));
            lemma_split(s, i, tag, enc_str(v));
            assert(s[i] == s.subrange(i, i + 1)[0]);
            lemma_rt_str(v, s, i + 1);
        },
    }
}

proof fn lemma_rt_global(g: GlobalBetV, s: Seq<char>, i: int)
    requires
        encodable_global(g),
        0 <= i,
        i + enc_global(g).len() <= s.len(),
        s.subrange(i, i + enc_global(g).len()) == enc_global(g),
    ensures
        dec_global(s, i) == Some((g, i + enc_global(g).len())),
{
    lemma_len_str(g.name);
    lemma_len_str(g.short);
    lemma_len_u16(g.points);
    lemma_len_ts(g.start_time);
    crate::digits::lemma_enc_fixed_len(g.bets.len(), 20);
    let a = enc_str(g.name);
    let b = enc_str(g.short);
    let c = enc_u16(g.points);
    let d = enc_ts(g.start_time);
    let e = enc_opt_str(g.result);
    let f = enc_fixed(g.bets.len(), 20);
    let h = enc_preds(g.bets);
    assert(s.subrange(i, i + enc_global(g).len()) =~= a + (b + (c + (d + (e + (f + h))))));
    lemma_split(s, i, a, b + (c + (d + (e + (f + h)))));
    lemma_rt_str(g.name, s, i);
    let i1 = i + a.len() as int;
    lemma_split(s, i1, b, c + (d + (e + (f + h))));
    lemma_rt_str(g.short, s, i1);
    let i2 = i1 + b.len() as int;
    lemma_split(s, i2, c, d + (e + (f + h)));
    lemma_rt_u16(g.points, s, i2);
    let i3 = i2 + 5;
    lemma_split(s, i3, d, e + (f + h));
    lemma_rt_ts(g.start_time, s, i3);
    let i4 = i3 + 17;
    lemma_split(s, i4, e, f + h);
    lemma_rt_opt_str(g.result, s, i4);
    let i5 = i4 + e.len() as int;
    lemma_split(s, i5, f, h);
    assert(f == enc_u64(g.bets.len() as u64));
    lemma_rt_u64(g.bets.len() as u64, s, i5);
    lemma_rt_preds(g.bets, s, i5 + 20);
}

proof fn lemma_rt_teams(ts: Seq<TeamV>, s: Seq<char>, i: int)
    requires
        forall|k: int| 0 <= k < ts.len() ==> encodable_team(#[trigger] ts[k]),
        0 <= i,
        i + enc_teams(ts).len() <= s.len(),
        s.subrange(i, i + enc_teams(ts).len()) == enc_teams(ts),
    ensures
        dec_teams(s, i, ts.len()) == Some((ts, i + enc_teams(ts).len())),
    decreases ts.len(),
{
    if ts.len() == 0 {
        assert(ts =~= Seq::<TeamV>::empty());
    } else {
        let first = ts.first();
        let rest = ts.drop_first();
        assert(forall|k: int| 0 <= k < rest.len() ==> #[trigger] rest[k] == ts[k + 1]);
        lemma_split(s, i, enc_team(first), enc_teams(rest));
        lemma_rt_team(first, s, i);
        lemma_rt_teams(rest, s, i + enc_team(first).len() as int);
        assert(seq![first] + rest =~= ts);
    }
}

proof fn lemma_rt_games(gs: Seq<GameV>, s: Seq<char>, i: int)
    requires
        forall|k: int| 0 <= k < gs.len() ==> encodable_game(#[trigger] gs[k]),
        0 <= i,
        i + enc_games(gs).len() <= s.len(),
        s.subrange(i, i + enc_games(gs).len()) == enc_games(gs),
    ensures
        dec_games(s, i, gs.len()) == Some((gs, i + enc_games(gs).len())),
    decreases gs.len(),
{
    if gs.len() == 0 {
        assert(gs =~= Seq::<GameV>::empty());
    } else {
        let first = gs.first();
        let rest = gs.drop_first();
        assert(forall|k: int| 0 <= k < rest.len() ==> #[trigger] rest[k] == gs[k + 1]);
        lemma_split(s, i, enc_game(first), enc_games(rest));
        lemma_rt_game(first, s, i);
        lemma_rt_games(rest, s, i + enc_game(first).len() as int);
        assert(seq![first] + rest =~= gs);
    }
}

proof fn lemma_rt_betlists(bls: Seq<BetListV>, s: Seq<char>, i: int)
    requires
        forall|k: int| 0 <= k < bls.len() ==> encodable_betlist(#[trigger] bls[k]),
        0 <= i,
        i + enc_betlists(bls).len() <= s.len(),
        s.subrange(i, i + enc_betlists(bls).len()) == enc_betlists(bls),
    ensures
        dec_betlists(s, i, bls.len()) == Some((bls, i + enc_betlists(bls).len())),
    decreases bls.len(),
{
    if bls.len() == 0 {
        assert(bls =~= Seq::<BetListV>::empty());
    } else {
        let first = bls.first();
        let rest = bls.drop_first();
        assert(forall|k: int| 0 <= k < rest.len() ==> #[trigger] rest[k] == bls[k + 1]);
        lemma_split(s, i, enc_betlist(first), enc_betlists(rest));
        lemma_rt_betlist(first, s, i);
        lemma_rt_betlists(rest, s, i + enc_betlist(first).len() as int);
        assert(seq![first] + rest =~= bls);
    }
}

proof fn lemma_rt_globals(gs: Seq<GlobalBetV>, s: Seq<char>, i: int)
    requires
        forall|k: int| 0 <= k < gs.len() ==> encodable_global(#[trigger] gs[k]),
        0 <= i,
        i + enc_globals(gs).len() <= s.len(),
        s.subrange(i, i + enc_globals(gs).len()) == enc_globals(gs),
    ensures
        dec_globals(s, i, gs.len()) == Some((gs, i + enc_globals(gs).len())),
    decreases gs.len(),
{
    if gs.len() == 0 {
        assert(gs =~= Seq::<GlobalBetV>::empty());
    } else {
        let first = gs.first();
        let rest = gs.drop_first();
        assert(forall|k: int| 0 <= k < rest.len() ==> #[trigger] rest[k] == gs[k + 1]);
        lemma_split(s, i, enc_global(first), enc_globals(rest));
        lemma_rt_global(first, s, i);
        lemma_rt_globals(rest, s, i + enc_global(first).len() as int);
        assert(seq![first] + rest =~= gs);
    }
}

proof fn lemma_rt_counted_teams(ts: Seq<TeamV>, s: Seq<char>, i: int)
    requires
        ts.len() <= u64::MAX,
        forall|k: int| 0 <= k < ts.len() ==> encodable_team(#[trigger] ts[k]),
        0 <= i,
        i + 20 + enc_teams(ts).len() <= s.len(),
        s.subrange(i, i + 20 + enc_teams(ts).len()) == enc_fixed(ts.len(), 20) + enc_teams(ts),
    ensures
        dec_u64(s, i) == Some((ts.len() as u64, i + 20)),
        dec_teams(s, i + 20, ts.len()) == Some((ts, i + 20 + enc_teams(ts).len())),
{
    crate::digits::lemma_enc_fixed_len(ts.len(), 20);
    lemma_split(s, i, enc_fixed(ts.len(), 20), enc_teams(ts));
    assert(enc_fixed(ts.len(), 20) == enc_u64(ts.len() as u64));
    lemma_rt_u64(ts.len() as u64, s, i);
    lemma_rt_teams(ts, s, i + 20);
}

proof fn lemma_rt_counted_games(gs: Seq<GameV>, s: Seq<char>, i: int)
    requires
        gs.len() <= u64::MAX,
        forall|k: int| 0 <= k < gs.len() ==> encodable_game(#[trigger] gs[k]),
        0 <= i,
        i + 20 + enc_games(gs).len() <= s.len(),
        s.subrange(i, i + 20 + enc_games(gs).len()) == enc_fixed(gs.len(), 20) + enc_games(gs),
    ensures
        dec_u64(s, i) == Some((gs.len() as u64, i + 20)),
        dec_games(s, i + 20, gs.len()) == Some((gs, i + 20 + enc_games(gs).len())),
{
    crate::digits::lemma_enc_fixed_len(gs.len(), 20);
    lemma_split(s, i, enc_fixed(gs.len(), 20), enc_games(gs));
    assert(enc_fixed(gs.len(), 20) == enc_u64(gs.len() as u64));
    lemma_rt_u64(gs.len() as u64, s, i);
    lemma_rt_games(gs, s, i + 20);
}

proof fn lemma_rt_counted_betlists(bls: Seq<BetListV>, s: Seq<char>, i: int)
    requires
        bls.len() <= u64::MAX,
        forall|k: int| 0 <= k < bls.len() ==> encodable_betlist(#[trigger] bls[k]),
        0 <= i,
        i + 20 + enc_betlists(bls).len() <= s.len(),
        s.subrange(i, i + 20 + enc_betlists(bls).len()) == enc_fixed(bls.len(), 20)
            + enc_betlists(bls),
    ensures
        dec_u64(s, i) == Some((bls.len() as u64, i + 20)),
        dec_betlists(s, i + 20, bls.len()) == Some((bls, i + 20 + enc_betlists(bls).len())),
{
    crate::digits::lemma_enc_fixed_len(bls.len(), 20);
    lemma_split(s, i, enc_fixed(bls.len(), 20), enc_betlists(bls));
    assert(enc_fixed(bls.len(), 20) == enc_u64(bls.len() as u64));
    lemma_rt_u64(bls.len() as u64, s, i);
    lemma_rt_betlists(bls, s, i + 20);
}

proof fn lemma_rt_counted_globals(gs: Seq<GlobalBetV>, s: Seq<char>, i: int)
    requires
        gs.len() <= u64::MAX,
        forall|k: int| 0 <= k < gs.len() ==> encodable_global(#[trigger] gs[k]),
        0 <= i,
        i + 20 + enc_globals(gs).len() <= s.len(),
        s.subrange(i, i + 20 + enc_globals(gs).len()) == enc_fixed(gs.len(), 20) + enc_globals(
            gs,
        ),
    ensures
        dec_u64(s, i) == Some((gs.len() as u64, i + 20)),
        dec_globals(s, i + 20, gs.len()) == Some((gs, i + 20 + enc_globals(gs).len())),
{
    crate::digits::lemma_enc_fixed_len(gs.len(), 20);
    lemma_split(s, i, enc_fixed(gs.len(), 20), enc_globals(gs));
    assert(enc_fixed(gs.len(), 20) == enc_u64(gs.len() as u64));
    lemma_rt_u64(gs.len() as u64, s, i);
    lemma_rt_globals(gs, s, i + 20);
}

proof fn lemma_group4(
    a: Seq<char>,
    b: Seq<char>,
    c: Seq<char>,
    d: Seq<char>,
    e: Seq<char>,
    f: Seq<char>,
    g: Seq<char>,
    h: Seq<char>,
)
    ensures
        a + b + c + d + e + f + g + h == (a + b) + ((c + d) + ((e + f) + (g + h))),
{
    assert(a + b + c + d + e + f + g + h =~= (a + b) + ((c + d) + ((e + f) + (g + h))));
}

proof fn lemma_split4(s: Seq<char>, qa: Seq<char>, qb: Seq<char>, qc: Seq<char>, qd: Seq<char>)
    requires
        s == qa + (qb + (qc + qd)),
    ensures
        s.len() == qa.len() + qb.len() + qc.len() + qd.len(),
        s.subrange(0, qa.len() as int) == qa,
        s.subrange(qa.len() as int, (qa.len() + qb.len()) as int) == qb,
        s.subrange((qa.len() + qb.len()) as int, (qa.len() + qb.len() + qc.len()) as int) == qc,
        s.subrange((qa.len() + qb.len() + qc.len()) as int, s.len() as int) == qd,
{
    assert(s.subrange(0, qa.len() as int) =~= qa);
    assert(s.subrange(qa.len() as int, (qa.len() + qb.len()) as int) =~= qb);
    assert(s.subrange((qa.len() + qb.len()) as int, (qa.len() + qb.len() + qc.len()) as int) =~= qc);
    assert(s.subrange((qa.len() + qb.len() + qc.len()) as int, s.len() as int) =~= qd);
}

/// Each decoding step of a snapshot yields the matching component of the
/// encoded aggregate, at its exact position.
#[verifier::spinoff_prover]
#[verifier::rlimit(100)]
proof fn lemma_rt_store_parts(v: StoreV, s: Seq<char>)
    requires
        encodable(v),
        s == enc_store(v),
    ensures
        ({
            let p2 = 20 + enc_teams(v.teams).len() as int;
            let p4 = p2 + 20 + enc_games(v.games).len() as int;
            let p6 = p4 + 20 + enc_betlists(v.bets).len() as int;
            let p8 = p6 + 20 + enc_globals(v.global_bets).len() as int;
            &&& dec_u64(s, 0) == Some((v.teams.len() as u64, 20int))
            &&& dec_teams(s, 20, v.teams.len()) == Some((v.teams, p2))
            &&& dec_u64(s, p2) == Some((v.games.len() as u64, p2 + 20))
            &&& dec_games(s, p2 + 20, v.games.len()) == Some((v.games, p4))
            &&& dec_u64(s, p4) == Some((v.bets.len() as u64, p4 + 20))
            &&& dec_betlists(s, p4 + 20, v.bets.len()) == Some((v.bets, p6))
            &&& dec_u64(s, p6) == Some((v.global_bets.len() as u64, p6 + 20))
            &&& dec_globals(s, p6 + 20, v.global_bets.len()) == Some((v.global_bets, p8))
            &&& p8 == s.len()
        }),
{
    crate::digits::lemma_enc_fixed_len(v.teams.len(), 20);
    crate::digits::lemma_enc_fixed_len(v.games.len(), 20);
    crate::digits::lemma_enc_fixed_len(v.bets.len(), 20);
    crate::digits::lemma_enc_fixed_len(v.global_bets.len(), 20);
    let qa = enc_fixed(v.teams.len(), 20) + enc_teams(v.teams);
    let qb = enc_fixed(v.games.len(), 20) + enc_games(v.games);
    let qc = enc_fixed(v.bets.len(), 20) + enc_betlists(v.bets);
    let qd = enc_fixed(v.global_bets.len(), 20) + enc_globals(v.global_bets);
    lemma_group4(
        enc_fixed(v.teams.len(), 20),
        enc_teams(v.teams),
        enc_fixed(v.games.len(), 20),
        enc_games(v.games),
        enc_fixed(v.bets.len(), 20),
        enc_betlists(v.bets),
        enc_fixed(v.global_bets.len(), 20),
        enc_globals(v.global_bets),
    );
    assert(s == qa + (qb + (qc + qd)));
    lemma_split4(s, qa, qb, qc, qd);
    lemma_rt_counted_teams(v.teams, s, 0);
    let i1 = qa.len() as int;
    lemma_rt_counted_games(v.games, s, i1);
    let i2 = i1 + qb.len() as int;
    lemma_rt_counted_betlists(v.bets, s, i2);
    let i3 = i2 + qc.len() as int;
    lemma_rt_counted_globals(v.global_bets, s, i3);
}

/// The snapshot round trip: the text of any representable aggregate
/// decodes to exactly that aggregate, every field included.
#[verifier::spinoff_prover]
#[verifier::rlimit(100)]
pub proof fn lemma_snapshot_round_trip(v: StoreV)
    requires
        encodable(v),
    ensures
        dec_store(enc_store(v)) == Some(v),
{
    let s = enc_store(v);
    lemma_rt_store_parts(v, s);
    assert(dec_store(s) == Some(v));
}

} // verus!
