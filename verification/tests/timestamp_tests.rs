use tippspiel::timestamp::current_time;
use tippspiel::timestamp::is_open;
use tippspiel::timestamp::parse_timestamp;
use tippspiel::StoreError;
use tippspiel::Timestamp;

fn ts(year: u16, month: u8, day: u8, hour: u8, minute: u8) -> Timestamp {
    Timestamp { year, month, day, hour, minute }
}

#[test]
fn parse_valid_timestamp() {
    let t = parse_timestamp("2024 07 14 21:00").unwrap();
    assert_eq!(t, ts(2024, 7, 14, 21, 0));
}

#[test]
fn parse_rejects_wrong_shape() {
    assert_eq!(parse_timestamp(""), Err(StoreError::InvalidTimestamp));
    assert_eq!(parse_timestamp("2024-07-14 21:00"), Err(StoreError::InvalidTimestamp));
    assert_eq!(parse_timestamp("2024 7 14 21:00"), Err(StoreError::InvalidTimestamp));
    assert_eq!(parse_timestamp("2024 07 14 21:00 "), Err(StoreError::InvalidTimestamp));
    assert_eq!(parse_timestamp("2024 07 14 21.00"), Err(StoreError::InvalidTimestamp));
    assert_eq!(parse_timestamp("20x4 07 14 21:00"), Err(StoreError::InvalidTimestamp));
}

#[test]
fn parse_rejects_out_of_range_fields() {
    assert_eq!(parse_timestamp("2024 13 01 12:00"), Err(StoreError::InvalidTimestamp));
    assert_eq!(parse_timestamp("2024 00 01 12:00"), Err(StoreError::InvalidTimestamp));
    assert_eq!(parse_timestamp("2024 01 32 12:00"), Err(StoreError::InvalidTimestamp));
    assert_eq!(parse_timestamp("2024 01 00 12:00"), Err(StoreError::InvalidTimestamp));
    assert_eq!(parse_timestamp("2024 01 01 24:00"), Err(StoreError::InvalidTimestamp));
    assert_eq!(parse_timestamp("2024 01 01 12:60"), Err(StoreError::InvalidTimestamp));
}

#[test]
fn parse_handles_leap_years() {
    assert!(parse_timestamp("2024 02 29 12:00").is_ok());
    assert_eq!(parse_timestamp("2023 02 29 12:00"), Err(StoreError::InvalidTimestamp));
    assert_eq!(parse_timestamp("1900 02 29 12:00"), Err(StoreError::InvalidTimestamp));
    assert!(parse_timestamp("2000 02 29 12:00").is_ok());
    assert_eq!(parse_timestamp("2024 04 31 12:00"), Err(StoreError::InvalidTimestamp));
}

#[test]
fn temporal_gate_is_strict() {
    let start = ts(2024, 7, 14, 21, 0);
    assert!(is_open(&start, &ts(2024, 7, 14, 20, 59)));
    assert!(!is_open(&start, &ts(2024, 7, 14, 21, 0)));
    assert!(!is_open(&start, &ts(2024, 7, 14, 21, 1)));
    assert!(is_open(&start, &ts(2023, 12, 31, 23, 59)));
    assert!(!is_open(&start, &ts(2025, 1, 1, 0, 0)));
}

#[test]
fn ordering_follows_calendar_fields() {
    let a = ts(2024, 6, 30, 23, 59);
    let b = ts(2024, 7, 1, 0, 0);
    assert!(a.before(&b));
    assert!(!b.before(&a));
    assert!(!a.before(&a));
}

#[test]
fn current_time_is_well_formed() {
    // whatever the clock says, a returned instant is a valid calendar one
    if let Some(t) = current_time() {
        assert!(t.check_valid());
        assert!((1..=12).contains(&t.month));
        assert!((1..=31).contains(&t.day));
        assert!(t.hour <= 23);
        assert!(t.minute <= 59);
    } else {
        panic!("host clock outside representable years");
    }
}
