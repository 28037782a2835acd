use keynome::statistics::digraph_timings;
use keynome::{Digraph, DigraphMap, DigraphStats, KeyEvent, KeystrokeLogger};

fn moments_of(latencies: &Vec<u128>) -> (f64, f64) {
    let samples: Vec<f64> = latencies.iter().map(|x| *x as f64).collect();
    let mean = statistical::mean(&samples);
    let std = statistical::standard_deviation(&samples, Some(mean));
    (mean, std)
}

fn timings_of(samples: &DigraphMap<Vec<u128>>) -> DigraphMap<DigraphStats<f64>> {
    let moments: Vec<(f64, f64)> =
        (0..samples.len()).map(|i| moments_of(samples.entry_at(i).1)).collect();
    assert_eq!(moments.len(), samples.len());
    digraph_timings(samples, &moments)
}

fn digraphs_of<V>(map: &DigraphMap<V>) -> Vec<Digraph> {
    (0..map.len()).map(|i| map.entry_at(i).0).collect()
}

fn typed(keys_and_times: &[(char, u128)]) -> KeystrokeLogger {
    let mut log = KeystrokeLogger::new();
    for (key, timestamp_ms) in keys_and_times {
        log.add_key_event(KeyEvent { timestamp_ms: *timestamp_ms, key: *key });
    }
    log
}

#[test]
fn keystroke_logger_digraph_statistics() {
    let mut kstr = KeystrokeLogger::new();

    // a-b digraphs, diffs = [1000, 2000, 3000], mean = 2000.0, std = 1000.0
    // b-a digraphs, diffs = [1000, 1000], mean = 1000.0, std = 0.0
    kstr.add_key_event(KeyEvent { timestamp_ms: 10000, key: 'a' });
    kstr.add_key_event(KeyEvent { timestamp_ms: 11000, key: 'b' });

    kstr.add_key_event(KeyEvent { timestamp_ms: 12000, key: 'a' });
    kstr.add_key_event(KeyEvent { timestamp_ms: 14000, key: 'b' });

    kstr.add_key_event(KeyEvent { timestamp_ms: 15000, key: 'a' });
    kstr.add_key_event(KeyEvent { timestamp_ms: 18000, key: 'b' });

    // e-f digraphs, diffs = [500, 1000, 1500], mean = 1000.0, std = 500.0
    // f-e digraphs, diffs = [500, 2000], mean = 1250.0, std = 1060.66
    kstr.add_key_event(KeyEvent { timestamp_ms: 20000, key: 'e' });
    kstr.add_key_event(KeyEvent { timestamp_ms: 20500, key: 'f' });

    kstr.add_key_event(KeyEvent { timestamp_ms: 21000, key: 'e' });
    kstr.add_key_event(KeyEvent { timestamp_ms: 22000, key: 'f' });

    kstr.add_key_event(KeyEvent { timestamp_ms: 24000, key: 'e' });
    kstr.add_key_event(KeyEvent { timestamp_ms: 25500, key: 'f' });

    assert!(kstr.has_monotone_timestamps());
    let stats = timings_of(&kstr.compute_digraph_statistics());

    assert!((stats.get(('a', 'b')).unwrap().mean - 2000.0).abs() <= 0.01);
    assert!((stats.get(('a', 'b')).unwrap().std - 1000.0).abs() <= 0.01);

    assert!((stats.get(('b', 'a')).unwrap().mean - 1000.0).abs() <= 0.01);
    assert!((stats.get(('b', 'a')).unwrap().std - 0.0).abs() <= 0.01);

    assert!((stats.get(('e', 'f')).unwrap().mean - 1000.0).abs() <= 0.01);
    assert!((stats.get(('e', 'f')).unwrap().std - 500.0).abs() <= 0.01);

    assert!((stats.get(('f', 'e')).unwrap().mean - 1250.0).abs() <= 0.01);
    assert!((stats.get(('f', 'e')).unwrap().std - 1060.66).abs() <= 0.01);
}

#[test]
fn worked_example_latencies_are_exact() {
    let log = typed(&[
        ('a', 10000),
        ('b', 11000),
        ('a', 12000),
        ('b', 14000),
        ('a', 15000),
        ('b', 18000),
    ]);
    let samples = log.compute_digraph_statistics();
    assert_eq!(digraphs_of(&samples), vec![('a', 'b'), ('b', 'a')]);
    assert_eq!(samples.get(('a', 'b')).unwrap(), &vec![1000u128, 2000, 3000]);
    assert_eq!(samples.get(('b', 'a')).unwrap(), &vec![1000u128, 1000]);
    let stats = timings_of(&samples);
    assert_eq!(stats.get(('a', 'b')).unwrap().size_samples, 3);
    assert_eq!(stats.get(('a', 'b')).unwrap().mean, 2000.0);
    assert_eq!(stats.get(('a', 'b')).unwrap().std, 1000.0);
    assert_eq!(stats.get(('b', 'a')).unwrap().size_samples, 2);
    assert_eq!(stats.get(('b', 'a')).unwrap().mean, 1000.0);
    assert_eq!(stats.get(('b', 'a')).unwrap().std, 0.0);
}

#[test]
fn timing_counts_the_samples_of_each_digraph() {
    let log = typed(&[('a', 0), ('b', 1), ('a', 3), ('b', 6), ('a', 10), ('b', 15), ('b', 21)]);
    let samples = log.compute_digraph_statistics();
    let stats = digraph_timings(&samples, &vec![(3.0, 2.0), (4.0, 1.5)]);
    assert_eq!(digraphs_of(&stats), vec![('a', 'b'), ('b', 'a')]);
    // a-b: 1, 3, 5; b-a: 2, 4; b-b only once
    assert_eq!(stats.get(('a', 'b')).unwrap().size_samples, 3);
    assert_eq!(stats.get(('a', 'b')).unwrap().mean, 3.0);
    assert_eq!(stats.get(('a', 'b')).unwrap().std, 2.0);
    assert_eq!(stats.get(('b', 'a')).unwrap().size_samples, 2);
    assert_eq!(stats.get(('b', 'a')).unwrap().mean, 4.0);
    assert_eq!(stats.get(('b', 'a')).unwrap().std, 1.5);
}

#[test]
fn digraphs_seen_once_are_left_out() {
    let log = typed(&[('a', 1), ('b', 2), ('c', 3), ('a', 4), ('b', 6)]);
    let samples = log.compute_digraph_statistics();
    // a-b occurs twice; b-c and c-a once each
    assert_eq!(digraphs_of(&samples), vec![('a', 'b')]);
    assert_eq!(samples.get(('a', 'b')).unwrap(), &vec![1u128, 2]);
    assert!(samples.get(('b', 'c')).is_none());
    assert!(samples.get(('c', 'a')).is_none());
}

#[test]
fn every_reported_digraph_has_at_least_two_samples() {
    let text = "the quick brown fox jumps over the lazy dog then the fox rests";
    let mut log = KeystrokeLogger::new();
    for (i, key) in text.chars().enumerate() {
        log.add_key_event(KeyEvent { timestamp_ms: 10 * i as u128, key });
    }
    let samples = log.compute_digraph_statistics();
    assert!(samples.len() > 0);
    let keys: Vec<char> = text.chars().collect();
    for i in 0..samples.len() {
        let (digraph, latencies) = samples.entry_at(i);
        let pairs = keys.windows(2).filter(|w| (w[0], w[1]) == digraph).count();
        assert!(latencies.len() >= 2);
        assert_eq!(latencies.len(), pairs);
    }
    // and every pair that occurs at least twice is reported
    for w in keys.windows(2) {
        let pairs = keys.windows(2).filter(|v| v == &w).count();
        assert_eq!(samples.get((w[0], w[1])).is_some(), pairs >= 2);
    }
}

#[test]
fn order_of_the_pair_matters() {
    let log = typed(&[('a', 0), ('b', 10), ('a', 30), ('b', 60), ('a', 100)]);
    let samples = log.compute_digraph_statistics();
    assert_eq!(samples.get(('a', 'b')).unwrap(), &vec![10u128, 30]);
    assert_eq!(samples.get(('b', 'a')).unwrap(), &vec![20u128, 40]);
}

#[test]
fn repeated_key_forms_a_digraph_with_itself() {
    let log = typed(&[('z', 5), ('z', 5), ('z', 9)]);
    let samples = log.compute_digraph_statistics();
    assert_eq!(digraphs_of(&samples), vec![('z', 'z')]);
    assert_eq!(samples.get(('z', 'z')).unwrap(), &vec![0u128, 4]);
}

#[test]
fn short_logs_have_no_statistics() {
    assert_eq!(KeystrokeLogger::new().compute_digraph_statistics().len(), 0);
    assert_eq!(typed(&[('a', 1)]).compute_digraph_statistics().len(), 0);
    assert_eq!(typed(&[('a', 1), ('b', 2)]).compute_digraph_statistics().len(), 0);
}

#[test]
fn statistics_are_the_same_when_computed_twice() {
    let log = typed(&[('b', 1), ('a', 2), ('b', 4), ('a', 8), ('b', 16), ('b', 32), ('b', 64)]);
    let first = log.compute_digraph_statistics();
    let second = log.compute_digraph_statistics();
    assert_eq!(digraphs_of(&first), digraphs_of(&second));
    assert_eq!(digraphs_of(&first), vec![('a', 'b'), ('b', 'a'), ('b', 'b')]);
    for i in 0..first.len() {
        assert_eq!(first.entry_at(i).1, second.entry_at(i).1);
    }
    // computing leaves the log as it was
    assert_eq!(log.get_key_events().len(), 7);
}

#[test]
fn statistics_are_walked_in_ascending_order() {
    let log = typed(&[
        ('z', 0),
        ('a', 1),
        ('z', 2),
        ('a', 3),
        ('a', 4),
        ('a', 5),
        ('z', 6),
        ('z', 7),
        ('z', 8),
    ]);
    let samples = log.compute_digraph_statistics();
    assert_eq!(digraphs_of(&samples), vec![('a', 'a'), ('a', 'z'), ('z', 'a'), ('z', 'z')]);
}
