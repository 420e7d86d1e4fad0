use tippspiel::Bet;
use tippspiel::BetList;
use tippspiel::DataInter;
use tippspiel::GlobalBet;
use tippspiel::Team;
use tippspiel::Timestamp;

fn team(name: &str, iso: &str) -> Team {
    Team { name: name.to_string(), flag: format!(":{}:", iso), iso: iso.to_string() }
}

fn ts(year: u16, month: u8, day: u8, hour: u8, minute: u8) -> Timestamp {
    Timestamp { year, month, day, hour, minute }
}

fn full_store() -> DataInter {
    let mut d = DataInter::empty();
    d.add_team(team("France", "FRA")).unwrap();
    d.add_team(team("Germany", "GER")).unwrap();
    d.add_game(
        "Final".to_string(),
        "fin".to_string(),
        "FRA".to_string(),
        "GER".to_string(),
        "2024 07 14 21:00",
    )
    .unwrap();
    d.set_result(&"fin".to_string(), 2, 1, "after extra time".to_string()).unwrap();
    let now = ts(2024, 6, 1, 12, 0);
    d.add_game(
        "Semi".to_string(),
        "semi".to_string(),
        "GER".to_string(),
        "FRA".to_string(),
        "2024 07 10 18:00",
    )
    .unwrap();
    d.upsert_bet(&"semi".to_string(), 7, 2, 1, &now).unwrap();
    d.upsert_bet(&"semi".to_string(), 8, 0, 0, &now).unwrap();
    d.add_global_bet(GlobalBet {
        name: "Champion".to_string(),
        short: "champ".to_string(),
        points: 5,
        start_time: ts(2024, 6, 14, 21, 0),
        result: None,
        bets: Vec::new(),
    })
    .unwrap();
    d.upsert_global_bet_prediction(&"champ".to_string(), 7, &"FRA".to_string(), &now).unwrap();
    d.set_global_bet_result(&"champ".to_string(), &"FRA".to_string()).unwrap();
    d
}

#[test]
fn snapshot_round_trips_every_field() {
    let d = full_store();
    let text = d.snapshot();
    let r = DataInter::restore(text.as_str()).expect("snapshot must restore");
    assert_eq!(r.teams.len(), 2);
    assert_eq!(r.teams[0].name, "France");
    assert_eq!(r.teams[0].flag, ":FRA:");
    assert_eq!(r.teams[0].iso, "FRA");
    assert_eq!(r.teams[1].iso, "GER");
    assert_eq!(r.games.len(), 2);
    assert_eq!(r.games[0].name, "Final");
    assert_eq!(r.games[0].short, "fin");
    assert_eq!(r.games[0].team1_iso, "FRA");
    assert_eq!(r.games[0].team2_iso, "GER");
    assert_eq!(r.games[0].start_time, ts(2024, 7, 14, 21, 0));
    assert_eq!(
        r.games[0].result,
        Some((2u16, 1u16, "after extra time".to_string()))
    );
    assert_eq!(r.games[1].short, "semi");
    assert_eq!(r.games[1].result, None);
    assert_eq!(r.bets.len(), 1);
    assert_eq!(r.bets[0].game, "semi");
    assert_eq!(r.bets[0].bets, vec![
        Bet { user: 7, team1: 2, team2: 1 },
        Bet { user: 8, team1: 0, team2: 0 },
    ]);
    assert_eq!(r.global_bets.len(), 1);
    assert_eq!(r.global_bets[0].name, "Champion");
    assert_eq!(r.global_bets[0].short, "champ");
    assert_eq!(r.global_bets[0].points, 5);
    assert_eq!(r.global_bets[0].start_time, ts(2024, 6, 14, 21, 0));
    assert_eq!(r.global_bets[0].result.as_deref(), Some("FRA"));
    assert_eq!(r.global_bets[0].bets, vec![(7u64, "FRA".to_string())]);
}

#[test]
fn snapshot_of_empty_store_round_trips() {
    let d = DataInter::empty();
    let text = d.snapshot();
    let r = DataInter::restore(text.as_str()).expect("empty snapshot must restore");
    assert!(r.teams.is_empty());
    assert!(r.games.is_empty());
    assert!(r.bets.is_empty());
    assert!(r.global_bets.is_empty());
}

#[test]
fn restore_rejects_garbage() {
    assert!(DataInter::restore("").is_none());
    assert!(DataInter::restore("not a snapshot").is_none());
    assert!(DataInter::restore("00000000000000000001").is_none());
}

#[test]
fn restore_rejects_truncated_snapshot() {
    let d = full_store();
    let text = d.snapshot();
    let cut: String = text.chars().take(text.chars().count() - 1).collect();
    assert!(DataInter::restore(cut.as_str()).is_none());
    let padded = format!("{} ", text);
    assert!(DataInter::restore(padded.as_str()).is_none());
}

#[test]
fn restore_rejects_ill_formed_aggregate() {
    // a snapshot of a store that breaks the invariant: duplicated user in
    // one game's bet list
    let d = DataInter {
        teams: vec![team("France", "FRA")],
        games: Vec::new(),
        bets: vec![BetList {
            game: "fin".to_string(),
            bets: vec![
                Bet { user: 7, team1: 1, team2: 0 },
                Bet { user: 7, team1: 2, team2: 0 },
            ],
        }],
        global_bets: Vec::new(),
    };
    let text = d.snapshot();
    assert!(DataInter::restore(text.as_str()).is_none());
}

#[test]
fn unicode_content_survives_the_round_trip() {
    let mut d = DataInter::empty();
    d.add_team(Team {
        name: "Côte d'Ivoire ⚽".to_string(),
        flag: "🇨🇮".to_string(),
        iso: "CIV".to_string(),
    })
    .unwrap();
    let text = d.snapshot();
    let r = DataInter::restore(text.as_str()).expect("unicode snapshot must restore");
    assert_eq!(r.teams[0].name, "Côte d'Ivoire ⚽");
    assert_eq!(r.teams[0].flag, "🇨🇮");
}
