use rem::config::{Config, ConfigManager};
use rem::entry::Entry;
use rem::process::{PopOutcome, Process};

fn def(name: &str, interval: u64, message: &str, enabled: bool, id: u128) -> Entry {
    Entry {
        name: name.to_string(),
        interval,
        message: message.to_string(),
        urgency: 1,
        icon: String::new(),
        enabled,
        creation_time: id,
    }
}

fn process_of(entries: Vec<Entry>) -> Process {
    Process::new(ConfigManager::new(Config { entries }, "rem.json".to_string()))
}

#[test]
fn initialize_schedules_every_enabled_definition_sorted() {
    let mut proc = process_of(vec![
        def("water", 5, "drink", true, 1),
        def("stand", 2, "stand up", true, 2),
        def("stretch", 9, "stretch", true, 3),
    ]);
    proc.initialize();

    assert_eq!(proc.queue.len(), 3);
    // sorted by due time, each one interval (in ms) from the reference point
    assert_eq!(proc.queue[0].life_time, 2000);
    assert_eq!(proc.queue[1].life_time, 5000);
    assert_eq!(proc.queue[2].life_time, 9000);
    // no identity twice
    assert_eq!(proc.queue[0].entry.creation_time, 2);
    assert_eq!(proc.queue[1].entry.creation_time, 1);
    assert_eq!(proc.queue[2].entry.creation_time, 3);
}

#[test]
fn initialize_skips_disabled_definitions() {
    let mut proc = process_of(vec![
        def("water", 5, "drink", true, 1),
        def("off", 3, "paused", false, 2),
    ]);
    proc.initialize();

    assert_eq!(proc.queue.len(), 1);
    assert_eq!(proc.queue[0].entry.creation_time, 1);
}

#[test]
fn initialize_keeps_ties_in_definition_order() {
    let mut proc = process_of(vec![
        def("first", 4, "a", true, 10),
        def("second", 4, "b", true, 20),
    ]);
    proc.initialize();

    assert_eq!(proc.queue.len(), 2);
    assert_eq!(proc.queue[0].entry.creation_time, 10);
    assert_eq!(proc.queue[1].entry.creation_time, 20);
}

#[test]
fn nothing_fires_before_its_due_time() {
    let mut proc = process_of(vec![def("water", 5, "drink", true, 1)]);
    proc.initialize();

    match proc.pop_step(4999) {
        PopOutcome::NotDue => {}
        other => panic!("expected NotDue, got {:?}", other),
    }
    assert_eq!(proc.queue.len(), 1);
    assert_eq!(proc.queue[0].life_time, 5000);
}

#[test]
fn empty_queue_reports_empty() {
    let mut proc = process_of(vec![]);
    proc.initialize();
    match proc.pop_step(0) {
        PopOutcome::Empty => {}
        other => panic!("expected Empty, got {:?}", other),
    }
    assert!(proc.is_idle());
}

#[test]
fn due_reminder_fires_and_is_rearmed() {
    let mut proc = process_of(vec![def("stretch", 5, "stretch!", true, 1)]);
    proc.initialize();

    match proc.pop_step(5000) {
        PopOutcome::Fired(e) => {
            assert_eq!(e.name, "stretch");
            assert_eq!(e.message, "stretch!");
            assert_eq!(e.creation_time, 1);
        }
        other => panic!("expected Fired, got {:?}", other),
    }
    // re-armed one live interval after the pop
    assert_eq!(proc.queue.len(), 1);
    assert_eq!(proc.queue[0].life_time, 10000);
    assert_eq!(proc.queue[0].entry.creation_time, 1);
}

#[test]
fn unchanged_reload_produces_no_pending() {
    let mut proc = process_of(vec![
        def("water", 5, "drink", true, 1),
        def("stand", 2, "stand up", true, 2),
    ]);
    proc.initialize();

    // same content, even reordered, adds nothing
    let fresh = Config {
        entries: vec![
            def("stand", 2, "stand up", true, 2),
            def("water", 5, "drink", true, 1),
        ],
    };
    let changed = proc.reconcile(fresh);
    assert!(!changed);
    assert_eq!(proc.pending.len(), 0);
}

#[test]
fn edited_definition_becomes_pending_and_stale_copy_is_dropped() {
    let mut proc = process_of(vec![def("stretch", 5, "stretch!", true, 1)]);
    proc.initialize();

    // the user edits the interval to 10s before the 5s copy falls due
    let fresh = Config { entries: vec![def("stretch", 10, "stretch!", true, 1)] };
    let changed = proc.reconcile(fresh);
    assert!(changed);
    assert_eq!(proc.pending.len(), 1);

    // the stale 5s snapshot is dropped at its due time, never delivered
    match proc.pop_step(5000) {
        PopOutcome::Dropped => {}
        other => panic!("expected Dropped, got {:?}", other),
    }

    // the fresh copy becomes the only live timer: merged at 5000,
    // due one new interval later
    proc.drain_pending(5000);
    assert_eq!(proc.pending.len(), 0);
    assert_eq!(proc.queue.len(), 1);
    assert_eq!(proc.queue[0].entry.interval, 10);
    assert_eq!(proc.queue[0].life_time, 15000);
}

#[test]
fn removed_definition_is_dropped_silently() {
    let mut proc = process_of(vec![def("stretch", 5, "stretch!", true, 1)]);
    proc.initialize();

    let changed = proc.reconcile(Config { entries: vec![] });
    assert!(!changed);
    assert_eq!(proc.pending.len(), 0);

    match proc.pop_step(5000) {
        PopOutcome::Dropped => {}
        other => panic!("expected Dropped, got {:?}", other),
    }
    assert_eq!(proc.queue.len(), 0);
    assert!(proc.is_idle());
}

#[test]
fn disabled_definition_is_not_delivered_even_if_queued() {
    let mut proc = process_of(vec![def("stretch", 5, "stretch!", true, 1)]);
    proc.initialize();

    // disabling keeps content identical; only the flag flips
    let fresh = Config { entries: vec![def("stretch", 5, "stretch!", false, 1)] };
    let changed = proc.reconcile(fresh);
    assert!(!changed);
    assert_eq!(proc.pending.len(), 0);

    match proc.pop_step(5000) {
        PopOutcome::Dropped => {}
        other => panic!("expected Dropped, got {:?}", other),
    }
    assert_eq!(proc.queue.len(), 0);
}

#[test]
fn new_disabled_definition_is_never_armed() {
    let mut proc = process_of(vec![]);
    proc.initialize();

    let fresh = Config { entries: vec![def("off", 3, "paused", false, 9)] };
    let changed = proc.reconcile(fresh);
    assert!(!changed);
    assert_eq!(proc.pending.len(), 0);
}

#[test]
fn drain_pending_arms_in_arrival_order() {
    let mut proc = process_of(vec![]);
    proc.initialize();

    let fresh = Config {
        entries: vec![def("a", 7, "a", true, 1), def("b", 3, "b", true, 2)],
    };
    assert!(proc.reconcile(fresh));
    assert_eq!(proc.pending.len(), 2);

    proc.drain_pending(1000);
    assert_eq!(proc.pending.len(), 0);
    assert_eq!(proc.queue.len(), 2);
    assert_eq!(proc.queue[0].entry.creation_time, 2);
    assert_eq!(proc.queue[0].life_time, 4000);
    assert_eq!(proc.queue[1].entry.creation_time, 1);
    assert_eq!(proc.queue[1].life_time, 8000);
}

#[test]
fn terminate_stops_the_scheduler() {
    let mut proc = process_of(vec![]);
    assert!(proc.is_running());
    proc.terminate();
    assert!(!proc.is_running());
}
