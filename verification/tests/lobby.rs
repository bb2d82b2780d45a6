use crucible::lobby::{parse_opponent, Opponent};

#[test]
fn scripted_and_champion_names() {
    assert_eq!(parse_opponent("easy"), Opponent::Easy);
    assert_eq!(parse_opponent("medium"), Opponent::Medium);
    assert_eq!(parse_opponent("hard"), Opponent::Hard);
    assert_eq!(parse_opponent("champion"), Opponent::Champion);
}

#[test]
fn museum_ids() {
    assert_eq!(parse_opponent("museum:42"), Opponent::Museum(42));
    assert_eq!(parse_opponent("museum:-7"), Opponent::Museum(-7));
    assert_eq!(parse_opponent("museum:+5"), Opponent::Museum(5));
    assert_eq!(parse_opponent("museum:9223372036854775807"), Opponent::Museum(i64::MAX));
    assert_eq!(parse_opponent("museum:-9223372036854775808"), Opponent::Museum(i64::MIN));
}

#[test]
fn unknown_requests() {
    for s in [
        "", "bogus", "Easy", "hard ", "museum", "museum:", "museum:-", "museum:+",
        "museum:12a", "museum: 12", "museum:9223372036854775808",
        "museum:-9223372036854775809", "museum:99999999999999999999x",
    ] {
        assert_eq!(parse_opponent(s), Opponent::Unknown, "{s:?}");
    }
}

#[test]
fn museum_ids_read_like_std_parse() {
    for tail in [
        "0", "007", "-0", "+0", "123456789", "-123456789", "9223372036854775806",
        "-9223372036854775807", "18446744073709551616", "1_000", "1e3", "--1", "+-1",
    ] {
        let expected = match tail.parse::<i64>() {
            Ok(v) => Opponent::Museum(v),
            Err(_) => Opponent::Unknown,
        };
        assert_eq!(parse_opponent(&format!("museum:{tail}")), expected, "{tail:?}");
    }
}
