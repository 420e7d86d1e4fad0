use tippspiel::DataInter;
use tippspiel::GlobalBet;
use tippspiel::StoreError;
use tippspiel::Team;
use tippspiel::Timestamp;

fn team(name: &str, iso: &str) -> Team {
    Team { name: name.to_string(), flag: format!(":{}:", iso), iso: iso.to_string() }
}

fn ts(year: u16, month: u8, day: u8, hour: u8, minute: u8) -> Timestamp {
    Timestamp { year, month, day, hour, minute }
}

fn base_store() -> DataInter {
    let mut d = DataInter::empty();
    assert!(d.add_team(team("France", "FRA")).is_ok());
    assert!(d.add_team(team("Germany", "GER")).is_ok());
    assert!(d.add_team(team("Spain", "ESP")).is_ok());
    d
}

#[test]
fn add_teams_preserves_insertion_order() {
    let d = base_store();
    let listed = d.list_teams();
    assert_eq!(listed.len(), 3);
    assert_eq!(listed[0].iso, "FRA");
    assert_eq!(listed[0].name, "France");
    assert_eq!(listed[1].iso, "GER");
    assert_eq!(listed[2].iso, "ESP");
}

#[test]
fn add_team_duplicate_iso_fails() {
    let mut d = base_store();
    let r = d.add_team(team("Francia", "FRA"));
    assert_eq!(r, Err(StoreError::DuplicateKey));
    let listed = d.list_teams();
    assert_eq!(listed.len(), 3);
    assert_eq!(listed[0].name, "France");
}

#[test]
fn add_game_unknown_team_fails_and_changes_nothing() {
    let mut d = base_store();
    let r = d.add_game(
        "Final".to_string(),
        "fin".to_string(),
        "FRA".to_string(),
        "ITA".to_string(),
        "2024 07 14 21:00",
    );
    assert_eq!(r, Err(StoreError::UnknownTeam));
    assert_eq!(d.list_games().len(), 0);
}

#[test]
fn add_game_bad_timestamp_fails() {
    let mut d = base_store();
    let r = d.add_game(
        "Final".to_string(),
        "fin".to_string(),
        "FRA".to_string(),
        "GER".to_string(),
        "tomorrow evening",
    );
    assert_eq!(r, Err(StoreError::InvalidTimestamp));
    assert_eq!(d.list_games().len(), 0);
}

#[test]
fn add_game_success_and_listing() {
    let mut d = base_store();
    assert!(d
        .add_game(
            "Final".to_string(),
            "fin".to_string(),
            "FRA".to_string(),
            "GER".to_string(),
            "2024 07 14 21:00",
        )
        .is_ok());
    let games = d.list_games();
    assert_eq!(games.len(), 1);
    assert_eq!(games[0].short, "fin");
    assert_eq!(games[0].start_time, ts(2024, 7, 14, 21, 0));
    assert!(games[0].result.is_none());
}

#[test]
fn list_games_sorted_by_start_time() {
    let mut d = base_store();
    d.add_game(
        "Late".to_string(),
        "g2".to_string(),
        "FRA".to_string(),
        "GER".to_string(),
        "2024 07 14 21:00",
    )
    .unwrap();
    d.add_game(
        "Early".to_string(),
        "g1".to_string(),
        "GER".to_string(),
        "ESP".to_string(),
        "2024 06 01 15:00",
    )
    .unwrap();
    d.add_game(
        "Middle".to_string(),
        "g3".to_string(),
        "FRA".to_string(),
        "ESP".to_string(),
        "2024 06 20 18:00",
    )
    .unwrap();
    let games = d.list_games();
    assert_eq!(games[0].short, "g1");
    assert_eq!(games[1].short, "g3");
    assert_eq!(games[2].short, "g2");
}

#[test]
fn set_result_unknown_game_fails() {
    let mut d = base_store();
    let r = d.set_result(&"nope".to_string(), 1, 0, "".to_string());
    assert_eq!(r, Err(StoreError::UnknownGame));
}

#[test]
fn set_result_last_write_wins() {
    let mut d = base_store();
    d.add_game(
        "Final".to_string(),
        "fin".to_string(),
        "FRA".to_string(),
        "GER".to_string(),
        "2024 07 14 21:00",
    )
    .unwrap();
    d.set_result(&"fin".to_string(), 1, 0, "early".to_string()).unwrap();
    d.set_result(&"fin".to_string(), 2, 2, "after extra time".to_string()).unwrap();
    let games = d.list_games();
    let r = games[0].result.clone().unwrap();
    assert_eq!(r.0, 2);
    assert_eq!(r.1, 2);
    assert_eq!(r.2, "after extra time");
}

#[test]
fn upsert_bet_unknown_game_fails() {
    let mut d = base_store();
    let now = ts(2024, 6, 1, 12, 0);
    let r = d.upsert_bet(&"nope".to_string(), 7, 1, 0, &now);
    assert_eq!(r, Err(StoreError::UnknownGame));
}

#[test]
fn upsert_bet_closed_game_fails_and_keeps_old_bet() {
    let mut d = base_store();
    d.add_game(
        "Final".to_string(),
        "fin".to_string(),
        "FRA".to_string(),
        "GER".to_string(),
        "2024 07 14 21:00",
    )
    .unwrap();
    let before = ts(2024, 7, 14, 20, 59);
    assert!(d.upsert_bet(&"fin".to_string(), 7, 2, 1, &before).is_ok());
    // kick-off minute: the start time is no longer strictly in the future
    let at_kickoff = ts(2024, 7, 14, 21, 0);
    let r = d.upsert_bet(&"fin".to_string(), 7, 5, 5, &at_kickoff);
    assert_eq!(r, Err(StoreError::BettingClosed));
    let after = ts(2024, 7, 15, 0, 0);
    let r2 = d.upsert_bet(&"fin".to_string(), 7, 4, 4, &after);
    assert_eq!(r2, Err(StoreError::BettingClosed));
    let bets = d.bets_for_user(7);
    assert_eq!(bets.len(), 1);
    assert_eq!(bets[0].0, "fin");
    assert_eq!(bets[0].1.team1, 2);
    assert_eq!(bets[0].1.team2, 1);
}

#[test]
fn upsert_bet_overwrites_leaving_single_bet() {
    let mut d = base_store();
    d.add_game(
        "Final".to_string(),
        "fin".to_string(),
        "FRA".to_string(),
        "GER".to_string(),
        "2024 07 14 21:00",
    )
    .unwrap();
    let now = ts(2024, 6, 1, 12, 0);
    assert!(d.upsert_bet(&"fin".to_string(), 7, 2, 1, &now).is_ok());
    assert!(d.upsert_bet(&"fin".to_string(), 7, 0, 3, &now).is_ok());
    let bets = d.bets_for_user(7);
    assert_eq!(bets.len(), 1);
    assert_eq!(bets[0].1.team1, 0);
    assert_eq!(bets[0].1.team2, 3);
}

#[test]
fn upsert_bet_two_users_no_lost_update() {
    let mut d = base_store();
    d.add_game(
        "Final".to_string(),
        "fin".to_string(),
        "FRA".to_string(),
        "GER".to_string(),
        "2024 07 14 21:00",
    )
    .unwrap();
    let now = ts(2024, 6, 1, 12, 0);
    assert!(d.upsert_bet(&"fin".to_string(), 7, 2, 1, &now).is_ok());
    assert!(d.upsert_bet(&"fin".to_string(), 8, 0, 0, &now).is_ok());
    let alice = d.bets_for_user(7);
    let bob = d.bets_for_user(8);
    assert_eq!(alice.len(), 1);
    assert_eq!(alice[0].1.team1, 2);
    assert_eq!(alice[0].1.team2, 1);
    assert_eq!(bob.len(), 1);
    assert_eq!(bob[0].1.team1, 0);
    assert_eq!(bob[0].1.team2, 0);
}

#[test]
fn list_open_games_filters_by_start_time() {
    let mut d = base_store();
    d.add_game(
        "Past".to_string(),
        "g1".to_string(),
        "FRA".to_string(),
        "GER".to_string(),
        "2024 05 01 15:00",
    )
    .unwrap();
    d.add_game(
        "Future".to_string(),
        "g2".to_string(),
        "GER".to_string(),
        "ESP".to_string(),
        "2024 07 01 15:00",
    )
    .unwrap();
    let now = ts(2024, 6, 1, 12, 0);
    let open = d.list_open_games(&now);
    assert_eq!(open.len(), 1);
    assert_eq!(open[0].short, "g2");
}

fn global_bet(name: &str, short: &str, points: u16, start: Timestamp) -> GlobalBet {
    GlobalBet {
        name: name.to_string(),
        short: short.to_string(),
        points,
        start_time: start,
        result: None,
        bets: Vec::new(),
    }
}

#[test]
fn add_global_bet_duplicate_fails() {
    let mut d = base_store();
    assert!(d.add_global_bet(global_bet("Champion", "champ", 5, ts(2024, 6, 14, 21, 0))).is_ok());
    let r = d.add_global_bet(global_bet("Champion again", "champ", 9, ts(2024, 6, 14, 21, 0)));
    assert_eq!(r, Err(StoreError::DuplicateKey));
}

#[test]
fn global_prediction_errors_and_overwrite() {
    let mut d = base_store();
    d.add_global_bet(global_bet("Champion", "champ", 5, ts(2024, 6, 14, 21, 0))).unwrap();
    let now = ts(2024, 6, 1, 12, 0);
    assert_eq!(
        d.upsert_global_bet_prediction(&"nope".to_string(), 7, &"FRA".to_string(), &now),
        Err(StoreError::UnknownGlobalBet)
    );
    assert_eq!(
        d.upsert_global_bet_prediction(&"champ".to_string(), 7, &"ITA".to_string(), &now),
        Err(StoreError::UnknownTeam)
    );
    let late = ts(2024, 6, 14, 21, 0);
    assert_eq!(
        d.upsert_global_bet_prediction(&"champ".to_string(), 7, &"FRA".to_string(), &late),
        Err(StoreError::BettingClosed)
    );
    assert!(d
        .upsert_global_bet_prediction(&"champ".to_string(), 7, &"GER".to_string(), &now)
        .is_ok());
    assert!(d
        .upsert_global_bet_prediction(&"champ".to_string(), 7, &"FRA".to_string(), &now)
        .is_ok());
    let preds = d.global_bets_for_user(7);
    assert_eq!(preds.len(), 1);
    assert_eq!(preds[0].0, "champ");
    assert_eq!(preds[0].1, "FRA");
}

#[test]
fn set_global_bet_result_errors_and_overwrite() {
    let mut d = base_store();
    d.add_global_bet(global_bet("Champion", "champ", 5, ts(2024, 6, 14, 21, 0))).unwrap();
    assert_eq!(
        d.set_global_bet_result(&"nope".to_string(), &"FRA".to_string()),
        Err(StoreError::UnknownGlobalBet)
    );
    assert_eq!(
        d.set_global_bet_result(&"champ".to_string(), &"ITA".to_string()),
        Err(StoreError::UnknownTeam)
    );
    assert!(d.set_global_bet_result(&"champ".to_string(), &"GER".to_string()).is_ok());
    assert!(d.set_global_bet_result(&"champ".to_string(), &"FRA".to_string()).is_ok());
    let now = ts(2024, 6, 1, 12, 0);
    let open = d.list_open_global_bets(&now);
    assert_eq!(open.len(), 1);
    assert_eq!(open[0].result.as_deref(), Some("FRA"));
}
