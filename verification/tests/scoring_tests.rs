use tippspiel::scoring::score_bet;
use tippspiel::scoring::POINTS_CORRECT;
use tippspiel::scoring::POINTS_TEAM;
use tippspiel::scoring::POINTS_TENDENZ;
use tippspiel::DataInter;
use tippspiel::GlobalBet;
use tippspiel::Team;
use tippspiel::Timestamp;

fn team(name: &str, iso: &str) -> Team {
    Team { name: name.to_string(), flag: format!(":{}:", iso), iso: iso.to_string() }
}

fn ts(year: u16, month: u8, day: u8, hour: u8, minute: u8) -> Timestamp {
    Timestamp { year, month, day, hour, minute }
}

#[test]
fn scoring_tiers_for_result_two_one() {
    // exact score
    assert_eq!(score_bet(2, 1, 2, 1), POINTS_CORRECT);
    assert_eq!(score_bet(2, 1, 2, 1), 3);
    // same goal differential
    assert_eq!(score_bet(2, 1, 3, 2), POINTS_TENDENZ);
    assert_eq!(score_bet(2, 1, 3, 2), 2);
    // 1:0 also carries the +1 differential
    assert_eq!(score_bet(2, 1, 1, 0), POINTS_TENDENZ);
    // winning side only, differential off
    assert_eq!(score_bet(2, 1, 3, 1), POINTS_TEAM);
    assert_eq!(score_bet(2, 1, 3, 1), 1);
    // predicted draw against an actual win earns nothing
    assert_eq!(score_bet(2, 1, 1, 1), 0);
}

#[test]
fn scoring_draws() {
    // exact draw
    assert_eq!(score_bet(0, 0, 0, 0), POINTS_CORRECT);
    // other draw predicted: same (zero) differential
    assert_eq!(score_bet(0, 0, 2, 2), POINTS_TENDENZ);
    // wrong side against a draw
    assert_eq!(score_bet(0, 0, 1, 0), 0);
}

fn store_with_game() -> DataInter {
    let mut d = DataInter::empty();
    d.add_team(team("France", "FRA")).unwrap();
    d.add_team(team("Germany", "GER")).unwrap();
    d.add_game(
        "Final".to_string(),
        "fin".to_string(),
        "FRA".to_string(),
        "GER".to_string(),
        "2024 07 14 21:00",
    )
    .unwrap();
    d
}

#[test]
fn leaderboard_per_game_points() {
    let mut d = store_with_game();
    let now = ts(2024, 6, 1, 12, 0);
    d.upsert_bet(&"fin".to_string(), 1, 2, 1, &now).unwrap();
    d.upsert_bet(&"fin".to_string(), 2, 3, 2, &now).unwrap();
    d.upsert_bet(&"fin".to_string(), 3, 3, 1, &now).unwrap();
    d.upsert_bet(&"fin".to_string(), 4, 1, 1, &now).unwrap();
    d.set_result(&"fin".to_string(), 2, 1, "".to_string()).unwrap();
    let lb = d.leaderboard();
    assert_eq!(lb, vec![(1, 3), (2, 2), (3, 1), (4, 0)]);
}

#[test]
fn leaderboard_pending_result_scores_zero_but_lists_user() {
    let mut d = store_with_game();
    let now = ts(2024, 6, 1, 12, 0);
    d.upsert_bet(&"fin".to_string(), 42, 2, 1, &now).unwrap();
    let lb = d.leaderboard();
    assert_eq!(lb, vec![(42, 0)]);
}

#[test]
fn leaderboard_global_bet_points() {
    let mut d = store_with_game();
    let alice: u64 = 100;
    let bob: u64 = 200;
    d.add_global_bet(GlobalBet {
        name: "Champion".to_string(),
        short: "champ".to_string(),
        points: 5,
        start_time: ts(2024, 6, 14, 21, 0),
        result: None,
        bets: Vec::new(),
    })
    .unwrap();
    let now = ts(2024, 6, 1, 12, 0);
    d.upsert_global_bet_prediction(&"champ".to_string(), alice, &"FRA".to_string(), &now)
        .unwrap();
    d.upsert_global_bet_prediction(&"champ".to_string(), bob, &"GER".to_string(), &now).unwrap();
    d.set_global_bet_result(&"champ".to_string(), &"FRA".to_string()).unwrap();
    let lb = d.leaderboard();
    assert_eq!(lb, vec![(alice, 5), (bob, 0)]);
}

#[test]
fn leaderboard_sums_game_and_global_points() {
    let mut d = store_with_game();
    let now = ts(2024, 6, 1, 12, 0);
    d.upsert_bet(&"fin".to_string(), 7, 2, 1, &now).unwrap();
    d.set_result(&"fin".to_string(), 2, 1, "".to_string()).unwrap();
    d.add_global_bet(GlobalBet {
        name: "Champion".to_string(),
        short: "champ".to_string(),
        points: 10,
        start_time: ts(2024, 6, 14, 21, 0),
        result: None,
        bets: Vec::new(),
    })
    .unwrap();
    d.upsert_global_bet_prediction(&"champ".to_string(), 7, &"FRA".to_string(), &now).unwrap();
    d.set_global_bet_result(&"champ".to_string(), &"FRA".to_string()).unwrap();
    assert_eq!(d.points_for_user(7), 13);
}

#[test]
fn users_are_deduplicated_keeping_first_appearance() {
    let mut d = store_with_game();
    d.add_game(
        "Semi".to_string(),
        "semi".to_string(),
        "FRA".to_string(),
        "GER".to_string(),
        "2024 07 10 21:00",
    )
    .unwrap();
    let now = ts(2024, 6, 1, 12, 0);
    d.upsert_bet(&"fin".to_string(), 9, 1, 0, &now).unwrap();
    d.upsert_bet(&"fin".to_string(), 5, 0, 1, &now).unwrap();
    d.upsert_bet(&"semi".to_string(), 9, 2, 2, &now).unwrap();
    let users = d.users();
    assert_eq!(users, vec![9, 5]);
}

#[test]
fn extreme_scores_and_points() {
    // largest representable scores still hit the exact tier
    assert_eq!(score_bet(65535, 65535, 65535, 65535), POINTS_CORRECT);
    assert_eq!(score_bet(65535, 0, 0, 65535), 0);
    // a global bet worth the largest configurable reward
    let mut d = store_with_game();
    let now = ts(2024, 6, 1, 12, 0);
    d.add_global_bet(GlobalBet {
        name: "Jackpot".to_string(),
        short: "jack".to_string(),
        points: 65535,
        start_time: ts(2024, 6, 14, 21, 0),
        result: None,
        bets: Vec::new(),
    })
    .unwrap();
    d.upsert_global_bet_prediction(&"jack".to_string(), 7, &"FRA".to_string(), &now).unwrap();
    d.set_global_bet_result(&"jack".to_string(), &"FRA".to_string()).unwrap();
    assert_eq!(d.points_for_user(7), 65535);
}
