use mizeria::timestamp::Timestamp;

#[test]
fn timestamp_get_timestamp_from_string() {
    let ts = Timestamp::parse_from("2021-07-15_18.34").unwrap();

    assert_eq!(ts.year, 2021);
    assert_eq!(ts.month, 7);
    assert_eq!(ts.day, 15);
    assert_eq!(ts.hour, 18);
    assert_eq!(ts.minute, 34);
}

#[test]
fn timestamp_timestamp_from_invalid_string_returns_none() {
    assert!(Timestamp::parse_from("boo").is_none());
    assert!(Timestamp::parse_from(" \t  2021-07-15_18.34  \t\n").is_none());
    assert!(Timestamp::parse_from("2021-07-15 18:34").is_none());
}

#[test]
fn is_valid_works() {
    assert!(Timestamp::is_valid("2021-07-15_18.34"));
    assert!(!Timestamp::is_valid(" 2021-07-15_18.34"));
    assert!(!Timestamp::is_valid("2021-07-15_18.34\n"));
    assert!(!Timestamp::is_valid("2021-07-15 18.34"));
    assert!(!Timestamp::is_valid("2021-07-15_25.34"));
    assert!(!Timestamp::is_valid("2021-07-15_18.61"));
    assert!(!Timestamp::is_valid("2021-13-15_18.34"));
    assert!(!Timestamp::is_valid("2021-07-32_18.34"));
}

#[test]
fn comapre_timestamps() {
    let ts_1 = Timestamp::parse_from("2021-07-15_18.34").unwrap();
    let ts_2 = Timestamp::parse_from("2021-07-15_18.35").unwrap();
    let ts_3 = Timestamp::parse_from("2021-07-15_18.34").unwrap();
    let ts_now = Timestamp::now();

    assert!(ts_1 < ts_2);
    assert!(ts_1 <= ts_2);
    assert!(ts_1 <= ts_3);
    assert!(ts_2 > ts_1);
    assert!(ts_2 >= ts_1);
    assert!(ts_1 >= ts_3);
    assert!(ts_1 == ts_3);
    assert!(ts_1 != ts_2);

    assert!(ts_1 < ts_now);
    assert!(ts_2 < ts_now);
    assert!(ts_3 < ts_now);
}

#[test]
fn next_timestamp() {
    let ts = Timestamp::parse_from("2021-07-15_18.34").unwrap();

    let ts_next = ts.get_next();
    assert_eq!(ts_next, Timestamp::parse_from("2021-07-15_18.35").unwrap());

    let ts_next = ts_next.get_next();
    assert_eq!(ts_next, Timestamp::parse_from("2021-07-15_18.36").unwrap());
}

#[test]
fn format_parse_round_trip() {
    let samples = vec![
        "2021-07-15_18.34",
        "0000-01-01_00.00",
        "9999-12-31_23.59",
        "2024-02-29_12.00",
        "1987-11-30_23.01",
    ];
    for s in samples {
        let ts = Timestamp::parse_from(s).unwrap();
        assert_eq!(ts.to_string(), s);
    }
}

#[test]
fn next_rolls_over_calendar_boundaries() {
    let ts = Timestamp::parse_from("2021-12-31_23.59").unwrap();
    assert_eq!(ts.get_next().to_string(), "2022-01-01_00.00");

    let ts = Timestamp::parse_from("2024-02-28_23.59").unwrap();
    assert_eq!(ts.get_next().to_string(), "2024-02-29_00.00");

    let ts = Timestamp::parse_from("2023-02-28_23.59").unwrap();
    assert_eq!(ts.get_next().to_string(), "2023-03-01_00.00");

    let ts = Timestamp::parse_from("2021-06-30_23.59").unwrap();
    assert_eq!(ts.get_next().to_string(), "2021-07-01_00.00");
}

#[test]
fn previous_steps_back_one_minute() {
    let ts = Timestamp::parse_from("2022-01-01_00.00").unwrap();
    assert_eq!(ts.previous().to_string(), "2021-12-31_23.59");

    let ts = Timestamp::parse_from("2024-03-01_00.00").unwrap();
    assert_eq!(ts.previous().to_string(), "2024-02-29_23.59");

    let ts = Timestamp::parse_from("0000-01-01_00.00").unwrap();
    assert_eq!(ts.previous().to_string(), "0000-01-01_00.00");
}

#[test]
fn leap_year_dates_parse_only_when_real() {
    assert!(Timestamp::parse_from("2024-02-29_10.00").is_some());
    assert!(Timestamp::parse_from("2023-02-29_10.00").is_none());
    assert!(Timestamp::parse_from("2000-02-29_10.00").is_some());
    assert!(Timestamp::parse_from("1900-02-29_10.00").is_none());
    assert!(Timestamp::parse_from("2021-04-31_10.00").is_none());
}

#[test]
fn now_is_a_well_formed_timestamp() {
    let t = Timestamp::now();
    assert!(1 <= t.month && t.month <= 12);
    assert!(1 <= t.day && t.day <= 31);
    assert!(t.hour <= 23);
    assert!(t.minute <= 59);
    let s = t.to_string();
    assert!(Timestamp::is_valid(s.as_str()));
    assert!(t.year >= 2020);
}
