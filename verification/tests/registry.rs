use tzbot::is_valid;
use tzbot::registry::Registry;
use tzbot::registry::RegistryError;

fn recognized() -> Vec<String> {
    chrono_tz::TZ_VARIANTS.iter().map(|tz| tz.to_string()).collect()
}

#[test]
fn get_on_unknown_guild_is_empty() {
    let reg = Registry::new();
    assert!(reg.get(42).is_empty());
}

#[test]
fn add_appends_in_order() {
    let mut reg = Registry::new();
    reg.add(1, "Alice".to_string(), "US/Eastern".to_string());
    reg.add(1, "Bob".to_string(), "Europe/London".to_string());
    let entries = reg.get(1);
    assert_eq!(entries.len(), 2);
    assert_eq!(entries[0].person, "Alice");
    assert_eq!(entries[0].tz, "US/Eastern");
    assert_eq!(entries[1].person, "Bob");
    assert_eq!(entries[1].tz, "Europe/London");
}

#[test]
fn adding_twice_keeps_two_identical_entries() {
    let mut reg = Registry::new();
    reg.add(7, "Alice".to_string(), "US/Eastern".to_string());
    reg.add(7, "Alice".to_string(), "US/Eastern".to_string());
    let entries = reg.get(7);
    assert_eq!(entries.len(), 2);
    assert_eq!(entries[0].person, entries[1].person);
    assert_eq!(entries[0].tz, entries[1].tz);
}

#[test]
fn adds_to_one_guild_leave_others_alone() {
    let mut reg = Registry::new();
    reg.add(1, "Alice".to_string(), "US/Eastern".to_string());
    reg.add(2, "Bob".to_string(), "Europe/London".to_string());
    assert_eq!(reg.get(1).len(), 1);
    assert_eq!(reg.get(2).len(), 1);
    assert_eq!(reg.get(3).len(), 0);
}

#[test]
fn is_valid_accepts_exact_known_zone() {
    let zones = recognized();
    assert!(is_valid("US/Eastern", &zones));
    assert!(is_valid("Europe/London", &zones));
}

#[test]
fn is_valid_is_case_sensitive_and_exact() {
    let zones = recognized();
    assert!(!is_valid("Not/AZone", &zones));
    assert!(!is_valid("us/eastern", &zones));
    assert!(!is_valid("US/Eastern ", &zones));
    assert!(!is_valid("", &zones));
}

#[test]
fn unknown_timezone_is_rejected_without_mutation() {
    let zones = recognized();
    let mut reg = Registry::new();
    reg.add(9, "Alice".to_string(), "US/Eastern".to_string());
    let before = reg.get(9);
    let r = reg.register(9, "Bob".to_string(), "Not/AZone".to_string(), &zones);
    assert_eq!(r, Err(RegistryError::UnknownTimezone));
    let after = reg.get(9);
    assert_eq!(before.len(), after.len());
    for (b, a) in before.iter().zip(after.iter()) {
        assert_eq!(b.person, a.person);
        assert_eq!(b.tz, a.tz);
    }
}

#[test]
fn register_with_known_zone_appends() {
    let zones = recognized();
    let mut reg = Registry::new();
    let r = reg.register(5, "Alice".to_string(), "US/Eastern".to_string(), &zones);
    assert!(r.is_ok());
    let entries = reg.get(5);
    assert_eq!(entries.len(), 1);
    assert_eq!(entries[0].person, "Alice");
    assert_eq!(entries[0].tz, "US/Eastern");
}

#[test]
fn racing_adds_in_either_order_both_survive() {
    let mut first = Registry::new();
    first.add(3, "Alice".to_string(), "US/Eastern".to_string());
    first.add(3, "Bob".to_string(), "Europe/London".to_string());
    let mut second = Registry::new();
    second.add(3, "Bob".to_string(), "Europe/London".to_string());
    second.add(3, "Alice".to_string(), "US/Eastern".to_string());
    for reg in [&first, &second] {
        let entries = reg.get(3);
        assert_eq!(entries.len(), 2);
        assert!(entries.iter().any(|e| e.person == "Alice" && e.tz == "US/Eastern"));
        assert!(entries.iter().any(|e| e.person == "Bob" && e.tz == "Europe/London"));
    }
}
