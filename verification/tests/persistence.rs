use keynome::statistics::digraph_timings;
use keynome::codec::{
    format_count, format_digraph_key, is_float_text, parse_count, parse_digraph_key,
};
use keynome::persist::{statistics_from_members, statistics_members_of};
use keynome::profile::{profile_from_members, profile_members_of};
use keynome::{Digraph, DigraphMap, DigraphStats, KeyEvent, KeystrokeLogger, ParseError, UserProfile};
use std::collections::BTreeMap;

fn moments_of(latencies: &Vec<u128>) -> (f64, f64) {
    let samples: Vec<f64> = latencies.iter().map(|x| *x as f64).collect();
    let mean = statistical::mean(&samples);
    let std = statistical::standard_deviation(&samples, Some(mean));
    (mean, std)
}

fn timings_of(samples: &DigraphMap<Vec<u128>>) -> DigraphMap<DigraphStats<f64>> {
    let moments: Vec<(f64, f64)> =
        (0..samples.len()).map(|i| moments_of(samples.entry_at(i).1)).collect();
    assert_eq!(moments.len(), samples.len());
    digraph_timings(samples, &moments)
}

fn timing_text(stats: &DigraphStats<f64>) -> String {
    let mut object = serde_json::Map::new();
    object.insert("size_samples".to_string(), serde_json::Value::from(stats.size_samples as u64));
    object.insert("mean".to_string(), serde_json::Value::from(stats.mean));
    object.insert("std".to_string(), serde_json::Value::from(stats.std));
    serde_json::to_string(&serde_json::Value::Object(object)).unwrap()
}

fn timing_from_text(text: &str) -> DigraphStats<f64> {
    let value: serde_json::Value = serde_json::from_str(text).unwrap();
    DigraphStats {
        size_samples: value["size_samples"].as_u64().unwrap() as usize,
        mean: value["mean"].as_f64().unwrap(),
        std: value["std"].as_f64().unwrap(),
    }
}

fn texts_of(stats: &DigraphMap<DigraphStats<f64>>) -> DigraphMap<String> {
    let mut texts = DigraphMap::new();
    for i in 0..stats.len() {
        let (digraph, timing) = stats.entry_at(i);
        texts.insert(digraph, timing_text(timing));
    }
    texts
}

fn digraphs_of<V>(map: &DigraphMap<V>) -> Vec<Digraph> {
    (0..map.len()).map(|i| map.entry_at(i).0).collect()
}

fn stats_of(entries: &[(Digraph, &str)]) -> DigraphMap<String> {
    let mut map = DigraphMap::new();
    for (digraph, text) in entries {
        map.insert(*digraph, text.to_string());
    }
    map
}

fn object_text(members: &[(&str, &str)]) -> String {
    let map: BTreeMap<&str, &str> = members.iter().cloned().collect();
    serde_json::to_string(&map).unwrap()
}

#[test]
fn keystroke_logger_digraph_statistics_serialization() {
    let keystrokes = "The most likely way for the world to be destroyed, \
                      most experts agree, is by accident.  That's where we come in \
                      we're computer professionals.  We cause accidents. \
                      - Nathaniel Borenstein";

    let mut kstr = KeystrokeLogger::new();
    for c in keystrokes.chars() {
        kstr.add_keystroke(c);
    }

    assert!(kstr.has_monotone_timestamps());
    let stats = timings_of(&kstr.compute_digraph_statistics());

    let serialized = KeystrokeLogger::serialize_digraph_statistics(&texts_of(&stats));
    let deserialized = KeystrokeLogger::deserialize_digraph_statistics(&serialized).unwrap();

    let mut keys_orig: Vec<String> =
        digraphs_of(&stats).iter().map(|d| format!("{}-{}", d.0, d.1)).collect();
    let mut keys_new: Vec<String> =
        digraphs_of(&deserialized).iter().map(|d| format!("{}-{}", d.0, d.1)).collect();

    keys_orig.sort();
    keys_new.sort();
    assert_eq!(keys_orig, keys_new);
}

#[test]
fn statistics_round_trip_keeps_keys_and_timing() {
    let mut log = KeystrokeLogger::new();
    let text = "abracadabra abracadabra";
    for (i, key) in text.chars().enumerate() {
        log.add_key_event(KeyEvent { timestamp_ms: (i * i) as u128, key });
    }
    let stats = timings_of(&log.compute_digraph_statistics());
    let serialized = KeystrokeLogger::serialize_digraph_statistics(&texts_of(&stats));
    let read = KeystrokeLogger::deserialize_digraph_statistics(&serialized).unwrap();
    assert_eq!(digraphs_of(&read), digraphs_of(&stats));
    assert!(stats.len() > 3);
    for i in 0..stats.len() {
        let (digraph, timing) = stats.entry_at(i);
        let back = timing_from_text(read.get(digraph).unwrap());
        assert_eq!(back.size_samples, timing.size_samples);
        assert!((back.mean - timing.mean).abs() <= 1e-9);
        assert!((back.std - timing.std).abs() <= 1e-9);
    }
}

#[test]
fn statistics_text_is_a_json_object_of_strings() {
    let stats = stats_of(&[(('b', 'a'), "{\"mean\":2.5}"), (('a', 'b'), "x")]);
    let text = KeystrokeLogger::serialize_digraph_statistics(&stats);
    assert_eq!(text, "{\"a-b\":\"x\",\"b-a\":\"{\\\"mean\\\":2.5}\"}");
    let value: serde_json::Value = serde_json::from_str(&text).unwrap();
    assert_eq!(value["b-a"].as_str().unwrap(), "{\"mean\":2.5}");
    assert_eq!(KeystrokeLogger::serialize_digraph_statistics(&DigraphMap::new()), "{}");
}

#[test]
fn statistics_are_read_from_members_in_any_order() {
    let read = KeystrokeLogger::deserialize_digraph_statistics(
        "{ \"z-a\": \"last\", \"a-b\": \"first\", \"a--\": \"dash\" }",
    )
    .unwrap();
    assert_eq!(digraphs_of(&read), vec![('a', '-'), ('a', 'b'), ('z', 'a')]);
    assert_eq!(read.get(('a', 'b')).unwrap(), "first");
    assert_eq!(read.get(('a', '-')).unwrap(), "dash");
    assert_eq!(read.get(('z', 'a')).unwrap(), "last");
}

#[test]
fn statistics_that_are_not_json_are_refused() {
    for text in ["", "not json", "[]", "{\"a-b\": 1}", "{\"a-b\": \"x\"} trailing", "{\"a-b\": \"x\""] {
        assert_eq!(
            KeystrokeLogger::deserialize_digraph_statistics(text).err(),
            Some(ParseError::Json)
        );
    }
}

#[test]
fn statistics_with_a_malformed_key_are_refused() {
    for key in ["ab", "a-", "-b", "ab-c", "a-bc", "--a", "", "a b", "-"] {
        let text = object_text(&[("a-b", "x"), (key, "y")]);
        assert_eq!(
            KeystrokeLogger::deserialize_digraph_statistics(&text).err(),
            Some(ParseError::DigraphKey)
        );
    }
}

#[test]
fn digraph_keys_are_first_dash_second() {
    assert_eq!(format_digraph_key(('a', 'b')), "a-b");
    assert_eq!(format_digraph_key((' ', '-')), " --");
    assert_eq!(format_digraph_key(('é', '本')), "é-本");
    assert_eq!(parse_digraph_key("a-b"), Some(('a', 'b')));
    assert_eq!(parse_digraph_key("b-a"), Some(('b', 'a')));
    assert_eq!(parse_digraph_key(" --"), Some((' ', '-')));
    assert_eq!(parse_digraph_key("é-本"), Some(('é', '本')));
}

#[test]
fn digraph_keys_must_split_into_two_single_characters() {
    for text in ["", "a", "ab", "a-", "-b", "abc", "ab-c", "a-bc", "a-b-c", "--a", "---", "-"] {
        assert_eq!(parse_digraph_key(text), None);
    }
    // a digraph that begins with the separator does not survive its own key
    assert_eq!(parse_digraph_key(&format_digraph_key(('-', 'a'))), None);
    for digraph in [('a', 'b'), ('a', '-'), ('\n', '"'), ('\\', '\u{10FFFF}')] {
        assert_eq!(parse_digraph_key(&format_digraph_key(digraph)), Some(digraph));
    }
}

#[test]
fn counts_are_decimal_numerals() {
    assert_eq!(format_count(0), "0");
    assert_eq!(format_count(7), "7");
    assert_eq!(format_count(10), "10");
    assert_eq!(format_count(5000), "5000");
    assert_eq!(format_count(4294967295), "4294967295");
    assert_eq!(parse_count("0"), Some(0));
    assert_eq!(parse_count("5000"), Some(5000));
    assert_eq!(parse_count("+12"), Some(12));
    assert_eq!(parse_count("0012"), Some(12));
    assert_eq!(parse_count("4294967295"), Some(4294967295));
    for n in [0u32, 1, 9, 10, 99, 100, 1000, 65535, 123456789, u32::MAX] {
        assert_eq!(format_count(n), n.to_string());
        assert_eq!(parse_count(&format_count(n)), Some(n));
    }
}

#[test]
fn counts_that_are_no_numerals_are_refused() {
    for text in [
        "", "+", "-1", "-0", "1.0", "1e3", " 1", "1 ", "12a", "a", "++1", "4294967296",
        "99999999999999999999999999", "١٢",
    ] {
        assert_eq!(parse_count(text), None);
        assert_eq!(parse_count(text), text.parse::<u32>().ok());
    }
}

#[test]
fn numbers_are_recognised_as_the_parser_reads_them() {
    let texts = [
        "0", "675", "675.0", "0.5", ".5", "5.", "1e3", "1E3", "1e+3", "1e-3", "1.5e10", "1.e5",
        ".5e-2", "+1", "-1", "+.5", "-0.0", "inf", "-inf", "+inf", "Inf", "INF", "infinity",
        "Infinity", "-INFINITY", "nan", "NaN", "-nan", "+NAN", "007", "1e007",
        "", "+", "-", ".", "+.", "e5", ".e5", "1e", "1e+", "1e-", "1e5.0", "1.2.3", "1..2",
        "++1", "+-1", "1+", " 1", "1 ", "1,5", "0x10", "1_000", "in", "infinit", "infinityy",
        "na", "nana", "i", "n", "abc", "1.5f", "1d", "١٢", "1e٣", "−1", "∞", "\"1\"", "null",
        "true", "{}", "ınf", "İNF", "1\n", "\t1",
    ];
    for text in texts {
        assert_eq!(is_float_text(text), text.parse::<f64>().is_ok(), "{:?}", text);
    }
    // what the formatter writes is read back
    for x in [0.0, 675.0, 0.1, 1e-7, 1e21, 1.5e300, -2.5, f64::MAX, f64::MIN_POSITIVE, f64::NAN,
        f64::INFINITY, f64::NEG_INFINITY]
    {
        assert!(is_float_text(&format!("{}", x)));
        assert!(is_float_text(&format!("{:e}", x)));
    }
}

#[test]
fn profile_with_a_baseline_that_is_no_number_is_refused() {
    for diff_base in ["", "high", "6 75", "675,0", "\"675\"", "0x2A"] {
        let text = object_text(&[
            ("n_profile", "12"),
            ("n_sample", "6"),
            ("diff_base", diff_base),
            ("diff_params", "{}"),
            ("stats", "{}"),
        ]);
        assert_eq!(UserProfile::deserialize(&text).err(), Some(ParseError::Number));
    }
    for diff_base in ["675", "675.25", "1e-7", "NaN", "inf", "+0.5"] {
        let text = object_text(&[
            ("n_profile", "12"),
            ("n_sample", "6"),
            ("diff_base", diff_base),
            ("diff_params", "{}"),
            ("stats", "{}"),
        ]);
        assert_eq!(UserProfile::deserialize(&text).unwrap().diff_base, diff_base);
    }
}

#[test]
fn profile_round_trip() {
    let stats = stats_of(&[
        (('a', 'b'), "{\"size_samples\":6,\"mean\":1500.0,\"std\":894.4271909999159}"),
        (('b', 'a'), "{\"size_samples\":5,\"mean\":1300.0,\"std\":670.820393249937}"),
    ]);
    let params = "{\"dispersion\":false,\"min_instances\":1,\"max_comparisons\":100}";
    let profile = UserProfile::new(5000, 1000, "675", params, &stats);
    assert_eq!(profile.n_profile, 5000);
    assert_eq!(profile.n_sample, 1000);
    assert_eq!(profile.diff_base, "675");
    assert_eq!(profile.diff_params, params);
    assert_eq!(digraphs_of(&profile.stats), vec![('a', 'b'), ('b', 'a')]);

    let text = profile.serialize();
    let read = UserProfile::deserialize(&text).unwrap();
    assert_eq!(read.n_profile, 5000);
    assert_eq!(read.n_sample, 1000);
    assert_eq!(read.diff_base, "675");
    assert_eq!(read.diff_params, params);
    assert_eq!(digraphs_of(&read.stats), vec![('a', 'b'), ('b', 'a')]);
    for i in 0..stats.len() {
        assert_eq!(read.stats.entry_at(i), stats.entry_at(i));
    }
    assert_eq!(read.serialize(), text);
}

#[test]
fn profile_text_has_five_string_members() {
    let stats = stats_of(&[(('a', 'b'), "{}")]);
    let text = UserProfile::new(12, 6, "675", "{\"dispersion\":false}", &stats).serialize();
    let value: serde_json::Value = serde_json::from_str(&text).unwrap();
    let object = value.as_object().unwrap();
    assert_eq!(object.len(), 5);
    assert_eq!(object["n_profile"].as_str().unwrap(), "12");
    assert_eq!(object["n_sample"].as_str().unwrap(), "6");
    assert_eq!(object["diff_base"].as_str().unwrap(), "675");
    assert_eq!(object["diff_params"].as_str().unwrap(), "{\"dispersion\":false}");
    // the statistics are a JSON text inside a JSON string
    assert_eq!(object["stats"].as_str().unwrap(), "{\"a-b\":\"{}\"}");
}

#[test]
fn profile_members_are_the_five_in_order() {
    let stats = stats_of(&[(('a', 'b'), "t")]);
    let members = profile_members_of(&UserProfile::new(3, 1, "0.5", "{}", &stats));
    let pairs: Vec<(&str, &str)> = members.iter().map(|m| (m.0.as_str(), m.1.as_str())).collect();
    assert_eq!(
        pairs,
        vec![
            ("n_profile", "3"),
            ("n_sample", "1"),
            ("diff_base", "0.5"),
            ("diff_params", "{}"),
            ("stats", "{\"a-b\":\"t\"}"),
        ]
    );
    let read = profile_from_members(&members).unwrap();
    assert_eq!(read.n_profile, 3);
    assert_eq!(read.stats.get(('a', 'b')).unwrap(), "t");
}

#[test]
fn statistics_members_are_named_by_key() {
    let stats = stats_of(&[(('b', 'a'), "2"), (('a', 'b'), "1")]);
    let members = statistics_members_of(&stats);
    assert_eq!(
        members,
        vec![("a-b".to_string(), "1".to_string()), ("b-a".to_string(), "2".to_string())]
    );
    let read = statistics_from_members(&members).unwrap();
    assert_eq!(digraphs_of(&read), vec![('a', 'b'), ('b', 'a')]);
    assert_eq!(read.get(('b', 'a')).unwrap(), "2");
    // of two members with one name the later counts
    let twice = vec![("a-b".to_string(), "1".to_string()), ("a-b".to_string(), "3".to_string())];
    assert_eq!(statistics_from_members(&twice).unwrap().get(('a', 'b')).unwrap(), "3");
    let bad = vec![("a-b".to_string(), "1".to_string()), ("ab".to_string(), "3".to_string())];
    assert_eq!(statistics_from_members(&bad).err(), Some(ParseError::DigraphKey));
}

#[test]
fn profile_that_is_not_json_is_refused() {
    for text in ["", "{", "null", "[1]", "{\"n_profile\": 12}"] {
        assert_eq!(UserProfile::deserialize(text).err(), Some(ParseError::Json));
    }
}

#[test]
fn profile_with_a_missing_member_is_refused() {
    let all = [
        ("n_profile", "12"),
        ("n_sample", "6"),
        ("diff_base", "675"),
        ("diff_params", "{}"),
        ("stats", "{}"),
    ];
    assert!(UserProfile::deserialize(&object_text(&all)).is_ok());
    for skip in 0..all.len() {
        let members: Vec<(&str, &str)> =
            all.iter().enumerate().filter(|(i, _)| *i != skip).map(|(_, m)| *m).collect();
        assert_eq!(
            UserProfile::deserialize(&object_text(&members)).err(),
            Some(ParseError::MissingField)
        );
    }
    assert_eq!(UserProfile::deserialize("{}").err(), Some(ParseError::MissingField));
}

#[test]
fn profile_with_a_bad_count_is_refused() {
    for (n_profile, n_sample) in [("twelve", "6"), ("12", "6.0"), ("-12", "6"), ("12", "")] {
        let text = object_text(&[
            ("n_profile", n_profile),
            ("n_sample", n_sample),
            ("diff_base", "675"),
            ("diff_params", "{}"),
            ("stats", "{}"),
        ]);
        assert_eq!(UserProfile::deserialize(&text).err(), Some(ParseError::Number));
    }
}

#[test]
fn profile_with_bad_statistics_is_refused() {
    let with_stats = |stats: &str| {
        object_text(&[
            ("n_profile", "12"),
            ("n_sample", "6"),
            ("diff_base", "675"),
            ("diff_params", "{}"),
            ("stats", stats),
        ])
    };
    assert_eq!(UserProfile::deserialize(&with_stats("nope")).err(), Some(ParseError::Json));
    assert_eq!(
        UserProfile::deserialize(&with_stats("{\"a-b\": 3}")).err(),
        Some(ParseError::Json)
    );
    assert_eq!(
        UserProfile::deserialize(&with_stats("{\"ab\": \"x\"}")).err(),
        Some(ParseError::DigraphKey)
    );
    let read = UserProfile::deserialize(&with_stats("{\"a-b\": \"x\"}")).unwrap();
    assert_eq!(read.stats.get(('a', 'b')).unwrap(), "x");
}

#[test]
fn profile_keeps_text_that_needs_escaping() {
    let stats = stats_of(&[(('"', '\\'), "line\nbreak \"quoted\" \\ \u{1F600}")]);
    let profile = UserProfile::new(1, 1, "1e-7", "{\"a\":\"b\"}", &stats);
    let read = UserProfile::deserialize(&profile.serialize()).unwrap();
    assert_eq!(read.stats.get(('"', '\\')).unwrap(), "line\nbreak \"quoted\" \\ \u{1F600}");
    assert_eq!(read.diff_base, "1e-7");
    assert_eq!(read.diff_params, "{\"a\":\"b\"}");
}
