use biomass::storage::{level_record_text, level_to_save, parse_level_record};

#[test]
fn record_round_trips() {
    for n in [0usize, 7, 10, 99, 123456789, usize::MAX] {
        assert_eq!(parse_level_record(&level_record_text(n)), Some(n));
    }
    assert_eq!(level_record_text(42), "42");
}

#[test]
fn record_parsing_follows_usize_from_str() {
    assert_eq!(parse_level_record(" 5\n"), Some(5));
    assert_eq!(parse_level_record("+3"), Some(3));
    assert_eq!(parse_level_record("007"), Some(7));
    assert_eq!(parse_level_record(""), None);
    assert_eq!(parse_level_record("+"), None);
    assert_eq!(parse_level_record("-1"), None);
    assert_eq!(parse_level_record("4a"), None);
    assert_eq!(parse_level_record("1 2"), None);
    assert_eq!(parse_level_record("99999999999999999999999"), None);
    for s in [" 5\n", "+3", "", "x", "18446744073709551616", "18446744073709551615"] {
        assert_eq!(parse_level_record(s), s.trim().parse::<usize>().ok());
    }
}

#[test]
fn the_record_never_goes_down() {
    assert_eq!(level_to_save(3, 5), 5);
    assert_eq!(level_to_save(6, 5), 6);
    assert_eq!(level_to_save(0, 0), 0);
}
