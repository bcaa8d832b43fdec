use rem::config::{Config, ConfigManager};
use rem::entry::{urgency_of, Entry, Urgency};

fn manager_with(entries: Vec<Entry>) -> ConfigManager {
    ConfigManager::new(Config { entries }, "rem.json".to_string())
}

#[test]
fn new_entries_carry_their_content_and_are_enabled() {
    let e = Entry::new(
        "water".to_string(),
        300,
        "drink some water".to_string(),
        2,
        "cup".to_string(),
    );
    assert_eq!(e.name, "water");
    assert_eq!(e.interval, 300);
    assert_eq!(e.message, "drink some water");
    assert_eq!(e.urgency, 2);
    assert_eq!(e.icon, "cup");
    assert!(e.enabled);
}

#[test]
fn add_entry_appends_an_enabled_definition() {
    let mut man = manager_with(vec![]);
    man.add_entry(
        "stand".to_string(),
        1200,
        "stand up".to_string(),
        1,
        String::new(),
    );
    man.add_entry("blink".to_string(), 60, "blink".to_string(), 0, String::new());

    assert_eq!(man.config.entries.len(), 2);
    assert_eq!(man.config.entries[0].name, "stand");
    assert_eq!(man.config.entries[1].name, "blink");
    assert_eq!(man.config.entries[1].interval, 60);
    assert!(man.config.entries[1].enabled);
}

#[test]
fn remove_entry_drops_exactly_the_chosen_position() {
    let mut man = manager_with(vec![]);
    man.add_entry("a".to_string(), 1, "a".to_string(), 1, String::new());
    man.add_entry("b".to_string(), 2, "b".to_string(), 1, String::new());
    man.add_entry("c".to_string(), 3, "c".to_string(), 1, String::new());

    man.remove_entry(1);

    assert_eq!(man.config.entries.len(), 2);
    assert_eq!(man.config.entries[0].name, "a");
    assert_eq!(man.config.entries[1].name, "c");
}

#[test]
fn urgency_levels_map_like_the_notifier_expects() {
    assert_eq!(urgency_of(0), Urgency::Low);
    assert_eq!(urgency_of(1), Urgency::Normal);
    assert_eq!(urgency_of(2), Urgency::Critical);
    assert_eq!(urgency_of(7), Urgency::Normal);
}
