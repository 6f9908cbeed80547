use tzbot::codec::encode_snapshot;
use tzbot::codec::load_snapshot;
use tzbot::codec::parse_snapshot;
use tzbot::registry::Registry;

#[test]
fn encode_matches_persisted_form() {
    let mut reg = Registry::new();
    reg.add(123456789012345678, "Alice".to_string(), "US/Eastern".to_string());
    reg.add(123456789012345678, "Bob".to_string(), "Europe/London".to_string());
    let text = encode_snapshot(&reg);
    assert_eq!(
        text,
        "{\"data\":[[123456789012345678,[[\"Alice\",\"US/Eastern\"],[\"Bob\",\"Europe/London\"]]]]}"
    );
}

#[test]
fn encode_empty_registry() {
    let reg = Registry::new();
    assert_eq!(encode_snapshot(&reg), "{\"data\":[]}");
}

#[test]
fn round_trip_preserves_guilds_entries_and_order() {
    let mut reg = Registry::new();
    reg.add(1, "Alice".to_string(), "US/Eastern".to_string());
    reg.add(1, "Bob".to_string(), "Europe/London".to_string());
    reg.add(99, "Carol".to_string(), "Australia/Sydney".to_string());
    let text = encode_snapshot(&reg);
    let loaded = load_snapshot(&text);
    let g1 = loaded.get(1);
    assert_eq!(g1.len(), 2);
    assert_eq!(g1[0].person, "Alice");
    assert_eq!(g1[0].tz, "US/Eastern");
    assert_eq!(g1[1].person, "Bob");
    assert_eq!(g1[1].tz, "Europe/London");
    let g99 = loaded.get(99);
    assert_eq!(g99.len(), 1);
    assert_eq!(g99[0].person, "Carol");
    assert_eq!(g99[0].tz, "Australia/Sydney");
    assert_eq!(encode_snapshot(&loaded), text);
}

#[test]
fn round_trip_with_quotes_and_backslashes() {
    let mut reg = Registry::new();
    reg.add(8, "A\"B\\C".to_string(), "US/Eastern".to_string());
    let text = encode_snapshot(&reg);
    let loaded = load_snapshot(&text);
    let entries = loaded.get(8);
    assert_eq!(entries.len(), 1);
    assert_eq!(entries[0].person, "A\"B\\C");
    assert_eq!(entries[0].tz, "US/Eastern");
}

#[test]
fn round_trip_largest_guild_identifier() {
    let mut reg = Registry::new();
    reg.add(u64::MAX, "Alice".to_string(), "UTC".to_string());
    let loaded = load_snapshot(&encode_snapshot(&reg));
    let entries = loaded.get(u64::MAX);
    assert_eq!(entries.len(), 1);
    assert_eq!(entries[0].person, "Alice");
}

#[test]
fn missing_file_text_loads_empty() {
    let reg = load_snapshot("");
    assert!(reg.get(1).is_empty());
    assert_eq!(encode_snapshot(&reg), "{\"data\":[]}");
}

#[test]
fn corrupt_text_loads_empty() {
    for text in [
        "not json at all",
        "{\"data\":[",
        "{\"data\":[[1,[[\"A\"]]]]}",
        "{\"data\":[[1,[]]]} trailing",
        "{\"other\":[]}",
        "{\"data\":[[18446744073709551616,[]]]}",
    ] {
        let reg = load_snapshot(text);
        assert!(reg.get(1).is_empty());
        assert_eq!(encode_snapshot(&reg), "{\"data\":[]}");
    }
}

#[test]
fn duplicate_guilds_are_rejected_as_corrupt() {
    let text = "{\"data\":[[1,[[\"A\",\"UTC\"]]],[1,[[\"B\",\"UTC\"]]]]}";
    assert!(parse_snapshot(text).is_none());
}

#[test]
fn parse_accepts_what_save_wrote() {
    let text = "{\"data\":[[5,[[\"D\\\"e\",\"Europe/Paris\"]]]]}";
    let reg = parse_snapshot(text).expect("well-formed snapshot text");
    let entries = reg.get(5);
    assert_eq!(entries.len(), 1);
    assert_eq!(entries[0].person, "D\"e");
    assert_eq!(entries[0].tz, "Europe/Paris");
}
