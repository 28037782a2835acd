use keynome::{KeyEvent, KeystrokeLogger};

fn keys_of(log: &KeystrokeLogger) -> Vec<char> {
    log.get_key_events().into_iter().map(|e| e.key).collect()
}

fn times_of(log: &KeystrokeLogger) -> Vec<u128> {
    log.get_key_events().into_iter().map(|e| e.timestamp_ms).collect()
}

#[test]
fn keystroke_logger_instantiation() {
    let _ = KeystrokeLogger::new();
}

#[test]
fn keystroke_logger_preserving_keystroke_history() {
    let mut kstr = KeystrokeLogger::new();
    kstr.add_keystroke('a');
    kstr.add_keystroke('b');
    kstr.add_keystroke('c');

    let events = kstr.get_key_events();
    let keystrokes: Vec<char> = events.into_iter().map(|e| e.key).collect();
    assert_eq!(keystrokes, vec!['a', 'b', 'c']);
}

#[test]
fn keystroke_logger_events_limit() {
    let mut kstr = KeystrokeLogger::new();
    kstr.set_events_limit(123);

    for _ in 0..200 {
        kstr.add_keystroke('a');
    }
    assert_eq!(kstr.get_key_events().len(), 123);
}

#[test]
fn new_log_is_empty() {
    let log = KeystrokeLogger::new();
    assert_eq!(log.get_key_events().len(), 0);
}

#[test]
fn unbounded_log_keeps_everything_in_order() {
    let mut log = KeystrokeLogger::new();
    for i in 0..1000u128 {
        log.add_key_event(KeyEvent { timestamp_ms: i, key: 'k' });
    }
    assert_eq!(times_of(&log), (0..1000u128).collect::<Vec<u128>>());
}

#[test]
fn bounded_log_keeps_the_most_recent_events() {
    let mut log = KeystrokeLogger::new();
    log.set_events_limit(3);
    for (i, key) in ['a', 'b', 'c', 'd', 'e'].into_iter().enumerate() {
        log.add_key_event(KeyEvent { timestamp_ms: 100 + i as u128, key });
    }
    assert_eq!(keys_of(&log), vec!['c', 'd', 'e']);
    assert_eq!(times_of(&log), vec![102, 103, 104]);
}

#[test]
fn bounded_log_below_its_limit_keeps_everything() {
    let mut log = KeystrokeLogger::new();
    log.set_events_limit(3);
    log.add_key_event(KeyEvent { timestamp_ms: 1, key: 'x' });
    log.add_key_event(KeyEvent { timestamp_ms: 2, key: 'y' });
    assert_eq!(keys_of(&log), vec!['x', 'y']);
    log.add_key_event(KeyEvent { timestamp_ms: 3, key: 'z' });
    assert_eq!(keys_of(&log), vec!['x', 'y', 'z']);
}

#[test]
fn lowering_the_limit_evicts_at_once() {
    let mut log = KeystrokeLogger::new();
    for (i, key) in ['a', 'b', 'c', 'd', 'e'].into_iter().enumerate() {
        log.add_key_event(KeyEvent { timestamp_ms: i as u128, key });
    }
    log.set_events_limit(2);
    assert_eq!(keys_of(&log), vec!['d', 'e']);
    log.set_events_limit(10);
    assert_eq!(keys_of(&log), vec!['d', 'e']);
    log.add_key_event(KeyEvent { timestamp_ms: 9, key: 'f' });
    assert_eq!(keys_of(&log), vec!['d', 'e', 'f']);
}

#[test]
fn limit_of_zero_retains_nothing() {
    let mut log = KeystrokeLogger::new();
    log.add_key_event(KeyEvent { timestamp_ms: 1, key: 'a' });
    log.set_events_limit(0);
    assert_eq!(log.get_key_events().len(), 0);
    log.add_key_event(KeyEvent { timestamp_ms: 2, key: 'b' });
    log.add_keystroke('c');
    assert_eq!(log.get_key_events().len(), 0);
}

#[test]
fn clearing_empties_the_log_and_keeps_the_limit() {
    let mut log = KeystrokeLogger::new();
    log.set_events_limit(2);
    log.add_key_event(KeyEvent { timestamp_ms: 1, key: 'a' });
    log.add_key_event(KeyEvent { timestamp_ms: 2, key: 'b' });
    log.clear_key_events();
    assert_eq!(log.get_key_events().len(), 0);
    for (i, key) in ['p', 'q', 'r'].into_iter().enumerate() {
        log.add_key_event(KeyEvent { timestamp_ms: i as u128, key });
    }
    assert_eq!(keys_of(&log), vec!['q', 'r']);
}

#[test]
fn keystrokes_are_stamped_by_the_clock() {
    let mut log = KeystrokeLogger::new();
    log.add_keystroke('a');
    log.add_keystroke('b');
    let times = times_of(&log);
    // later than the first of January 2020, in milliseconds since the epoch
    assert!(times[0] > 1_577_836_800_000);
    assert!(times[1] >= times[0]);
    assert!(times[1] - times[0] < 60_000);
}

#[test]
fn monotone_timestamps_are_recognised() {
    let mut log = KeystrokeLogger::new();
    assert!(log.has_monotone_timestamps());
    log.add_key_event(KeyEvent { timestamp_ms: 5, key: 'a' });
    assert!(log.has_monotone_timestamps());
    log.add_key_event(KeyEvent { timestamp_ms: 5, key: 'b' });
    log.add_key_event(KeyEvent { timestamp_ms: 7, key: 'c' });
    assert!(log.has_monotone_timestamps());
    log.add_key_event(KeyEvent { timestamp_ms: 6, key: 'd' });
    assert!(!log.has_monotone_timestamps());
}
