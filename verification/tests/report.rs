use tzbot::registry::Entry;
use tzbot::report::format_report;

fn instant(rfc3339: &str) -> i64 {
    chrono::DateTime::parse_from_rfc3339(rfc3339)
        .expect("fixed test instant")
        .timestamp()
}

#[test]
fn empty_guild_report_is_fixed_lines_only() {
    let entries: Vec<Entry> = Vec::new();
    let report = format_report(&entries, instant("2024-01-15T17:30:00Z")).unwrap();
    assert_eq!(
        report,
        "No timezone data for this server, use /tzadd <who> <timezone>\nI'm a bot, message joey if something went wrong or needs changing"
    );
    let later = format_report(&entries, instant("2031-07-01T03:04:05Z")).unwrap();
    assert_eq!(report, later);
}

#[test]
fn deterministic_winter_example() {
    let entries = vec![
        Entry { person: "Alice".to_string(), tz: "US/Eastern".to_string() },
        Entry { person: "Bob".to_string(), tz: "Europe/London".to_string() },
    ];
    let report = format_report(&entries, instant("2024-01-15T17:30:00Z")).unwrap();
    assert_eq!(
        report,
        "\nfor Alice it is 12:30\nfor Bob it is 17:30\nI'm a bot, message joey if something went wrong or needs changing"
    );
}

#[test]
fn summer_time_shifts_the_offset() {
    let entries = vec![
        Entry { person: "Alice".to_string(), tz: "US/Eastern".to_string() },
        Entry { person: "Bob".to_string(), tz: "Europe/London".to_string() },
    ];
    let report = format_report(&entries, instant("2024-07-15T17:30:00Z")).unwrap();
    assert_eq!(
        report,
        "\nfor Alice it is 13:30\nfor Bob it is 18:30\nI'm a bot, message joey if something went wrong or needs changing"
    );
}

#[test]
fn zero_padded_times() {
    let entries = vec![Entry { person: "Zed".to_string(), tz: "UTC".to_string() }];
    let report = format_report(&entries, instant("2024-01-15T04:07:00Z")).unwrap();
    assert_eq!(
        report,
        "\nfor Zed it is 04:07\nI'm a bot, message joey if something went wrong or needs changing"
    );
}

#[test]
fn unresolvable_stored_zone_fails_loudly_for_that_entry() {
    let entries = vec![
        Entry { person: "Alice".to_string(), tz: "US/Eastern".to_string() },
        Entry { person: "Ghost".to_string(), tz: "Not/AZone".to_string() },
    ];
    let err = format_report(&entries, instant("2024-01-15T17:30:00Z")).unwrap_err();
    assert_eq!(err.index, 1);
    assert_eq!(err.zone, "Not/AZone");
}
