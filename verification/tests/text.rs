//! Texts, numbers and ordered maps.

use dd_rust_network_mutex::ordered_map::{sort_distinct, OrderedMap};
use dd_rust_network_mutex::protocol::{major_of, version_reply, Request, Response, PROTOCOL_VERSION};
use dd_rust_network_mutex::scan::{chars_of, is_on, non_empty, parse_number, same_text, trim};
use dd_rust_network_mutex::text::{decimal, join2, join3, join5, text_before, texts_before};

#[test]
fn white_space_is_trimmed() {
    for s in ["", " ", "a", " a ", "\t\n a b \r\n", "\u{a0}x\u{3000}", "é"] {
        assert_eq!(trim(s), s.trim());
        assert_eq!(trim(trim(s)), trim(s));
    }
    assert_eq!(non_empty(Some(" x ")).as_deref(), Some("x"));
    assert_eq!(non_empty(Some("  ")), None);
    assert_eq!(non_empty(None), None);
}

#[test]
fn numbers_are_read_as_std_reads_them() {
    for s in ["0", "7", "007", "+5", "", "+", "-1", "1x", " 1", "18446744073709551615", "18446744073709551616"] {
        assert_eq!(parse_number(s, u64::MAX), s.parse::<u64>().ok(), "{s}");
        assert_eq!(
            parse_number(s, u16::MAX as u64),
            s.parse::<u16>().ok().map(|n| n as u64),
            "{s}"
        );
    }
}

#[test]
fn flags_and_characters() {
    for s in ["1", "true", "TRUE", "yes", "YES"] {
        assert!(is_on(s));
    }
    for s in ["", "0", "True", "on", "Yes"] {
        assert!(!is_on(s));
    }
    assert_eq!(chars_of("aé"), vec!['a', 'é']);
    assert!(same_text("ab", "ab"));
    assert!(!same_text("ab", "aB"));
}

#[test]
fn texts_are_ordered_as_strings_are() {
    let words = ["", "a", "aa", "ab", "b", "é", "z", "😊"];
    for a in words {
        for b in words {
            assert_eq!(text_before(a, b), a < b, "{a} {b}");
        }
    }
    let list = |l: &[&str]| -> Vec<String> { l.iter().map(|s| s.to_string()).collect() };
    let lists = [list(&[]), list(&["a"]), list(&["a", "b"]), list(&["b"])];
    for a in &lists {
        for b in &lists {
            assert_eq!(texts_before(a, b), a < b);
        }
    }
}

#[test]
fn texts_are_joined() {
    assert_eq!(decimal(0), "0");
    assert_eq!(decimal(9_007_199_254_740_991), "9007199254740991");
    assert_eq!(decimal(u64::MAX), u64::MAX.to_string());
    assert_eq!(join2("a", "b"), "ab");
    assert_eq!(join3("a", "b", "c"), "abc");
    assert_eq!(join5("a", "b", "c", "d", "e"), "abcde");
}

#[test]
fn maps_are_walked_in_order() {
    let mut map: OrderedMap<String, u64> = OrderedMap::new();
    for (key, value) in [("b", 2), ("a", 1), ("c", 3), ("b", 20)] {
        map.insert(key.to_string(), value);
    }
    let walked: Vec<(&str, u64)> =
        (0..map.len()).map(|i| (map.key_at(i).as_str(), *map.value_at(i))).collect();
    assert_eq!(walked, [("a", 1), ("b", 20), ("c", 3)]);
    assert_eq!(map.remove(&"a".to_string()), Some(1));
    assert_eq!(map.remove(&"a".to_string()), None);
    assert_eq!(map.get(&"a".to_string()), None);
    assert!(map.contains_key(&"b".to_string()));
    let words: Vec<String> = ["b", "a", "b"].iter().map(|s| s.to_string()).collect();
    assert_eq!(sort_distinct(&words), ["a", "b"]);
}

#[test]
fn messages_belong_to_their_request() {
    assert_eq!(Request::Ls { uuid: "q".into() }.correlation_uuid(), "q");
    assert_eq!(Response::Okay { uuid: "p".into() }.correlation_uuid(), "p");
}

#[test]
fn another_major_version_is_rejected() {
    assert_eq!(major_of("12.3.4"), "12");
    assert_eq!(major_of("12"), "12");
    assert_eq!(major_of(".1"), "");
    for version in [PROTOCOL_VERSION, "0.9.7", "0"] {
        match version_reply("q".into(), version) {
            Response::Version { uuid, broker_version, ok: true, error: None } => {
                assert_eq!((uuid.as_str(), broker_version.as_str()), ("q", PROTOCOL_VERSION));
            }
            other => panic!("unexpected answer {other:?}"),
        }
    }
    match version_reply("q".into(), "1.0.0") {
        Response::Version { ok: false, error: Some(error), .. } => {
            assert_eq!(error, "protocol version `1.0.0` disagrees with the broker's `0.1.0`");
        }
        other => panic!("unexpected answer {other:?}"),
    }
    assert!(matches!(version_reply("q".into(), ""), Response::Version { ok: false, .. }));
}
