use simplekv::store::{KvStore, Segment};
use simplekv::errors::KvError;
use simplekv::text::string_to_chars;

fn fresh() -> KvStore {
    KvStore::open(Vec::new()).unwrap()
}

fn seg(version: u64, text: &str) -> Segment {
    Segment { version, data: string_to_chars(text) }
}

#[test]
fn set_then_get_returns_value() {
    let mut s = fresh();
    let eff = s.set("key1".to_owned(), "value1".to_owned());
    assert_eq!(eff.text, "{\"Set\":{\"key\":\"key1\",\"value\":\"value1\"}}");
    assert!(!eff.compacted);
    assert_eq!(s.get("key1".to_owned()).unwrap(), Some("value1".to_owned()));
}

#[test]
fn last_set_wins() {
    let mut s = fresh();
    s.set("key1".to_owned(), "value1".to_owned());
    s.set("key1".to_owned(), "value2".to_owned());
    assert_eq!(s.get("key1".to_owned()).unwrap(), Some("value2".to_owned()));
}

#[test]
fn get_missing_key_is_none() {
    let s = fresh();
    assert_eq!(s.get("key2".to_owned()).unwrap(), None);
}

#[test]
fn remove_missing_key_fails() {
    let mut s = fresh();
    match s.remove("key2".to_owned()) {
        Err(e) => assert_eq!(e, KvError::KeyNotFound),
        Ok(_) => panic!("remove of a missing key must fail"),
    }
    assert_eq!(KvError::KeyNotFound.message(), "Key not found");
}

#[test]
fn remove_then_get_is_none_and_second_remove_fails() {
    let mut s = fresh();
    s.set("a".to_owned(), "1".to_owned());
    let eff = s.remove("a".to_owned()).unwrap();
    assert_eq!(eff.text, "{\"Remove\":{\"key\":\"a\"}}");
    assert_eq!(s.get("a".to_owned()).unwrap(), None);
    match s.remove("a".to_owned()) {
        Err(e) => assert_eq!(e, KvError::KeyNotFound),
        Ok(_) => panic!("second remove must fail"),
    }
}

#[test]
fn values_with_escapes_round_trip() {
    let mut s = fresh();
    let v = "a \"quoted\" \\ backslash\nnewline \t tab \u{1} control \u{263a} smiley".to_owned();
    s.set("k".to_owned(), v.clone());
    assert_eq!(s.get("k".to_owned()).unwrap(), Some(v));
}

#[test]
fn reopen_over_same_segments_keeps_state() {
    let mut s = fresh();
    s.set("key1".to_owned(), "v1".to_owned());
    s.set("key2".to_owned(), "v2".to_owned());
    s.remove("key1".to_owned()).unwrap();
    let mut segments = Vec::new();
    for i in 0..s.segment_count() {
        segments.push(seg(s.segment_version(i), &s.segment_text(i)));
    }
    let reopened = KvStore::open(segments).unwrap();
    assert_eq!(reopened.get("key1".to_owned()).unwrap(), None);
    assert_eq!(reopened.get("key2".to_owned()).unwrap(), Some("v2".to_owned()));
}

#[test]
fn replay_of_handwritten_log() {
    let log = "{\"Set\":{\"key\":\"a\",\"value\":\"1\"}}{\"Remove\":{\"key\":\"a\"}}{\"Set\":{\"key\":\"b\",\"value\":\"2\"}}";
    let s = KvStore::open(vec![seg(1, log)]).unwrap();
    assert_eq!(s.get("a".to_owned()).unwrap(), None);
    assert_eq!(s.get("b".to_owned()).unwrap(), Some("2".to_owned()));
    assert_eq!(s.current_version(), 2);
}

#[test]
fn replay_accepts_named_and_unicode_escapes() {
    let log = "{\"Set\":{\"key\":\"\\u0041\",\"value\":\"x\\ny\\\"z\"}}";
    let s = KvStore::open(vec![seg(3, log)]).unwrap();
    assert_eq!(s.get("A".to_owned()).unwrap(), Some("x\ny\"z".to_owned()));
    assert_eq!(s.current_version(), 4);
}

#[test]
fn truncated_record_is_a_decode_error() {
    let log = "{\"Set\":{\"key\":\"a\"";
    match KvStore::open(vec![seg(1, log)]) {
        Err(e) => assert_eq!(e, KvError::Decode),
        Ok(_) => panic!("a truncated record must fail replay"),
    }
}

#[test]
fn malformed_record_is_a_decode_error() {
    let log = "{\"Put\":{\"key\":\"a\",\"value\":\"1\"}}";
    match KvStore::open(vec![seg(1, log)]) {
        Err(e) => assert_eq!(e, KvError::Decode),
        Ok(_) => panic!("an unknown record kind must fail replay"),
    }
}

#[test]
fn compaction_reclaims_overwritten_space() {
    let mut s = fresh();
    let value_a: String = std::iter::repeat('a').take(1024).collect();
    let value_b: String = std::iter::repeat('b').take(1024).collect();
    let value_c: String = std::iter::repeat('c').take(1024).collect();
    let mut compacted = false;
    for round in 0..3 {
        let v = match round {
            0 => &value_a,
            1 => &value_b,
            _ => &value_c,
        };
        for k in 0..1000 {
            let eff = s.set(format!("key{}", k), v.clone());
            if eff.compacted {
                compacted = true;
            }
        }
    }
    assert!(compacted);
    for k in 0..1000 {
        assert_eq!(s.get(format!("key{}", k)).unwrap(), Some(value_c.clone()));
    }
    // Live data is about 1000 records of ~1 KiB; the whole log must stay
    // within four times that plus the compaction threshold.
    let live_estimate: u64 = 1000 * 1100;
    assert!(s.total_size() <= 4 * live_estimate + 1048576);
}

#[test]
fn wasted_estimate_counts_superseded_records() {
    let mut s = fresh();
    assert_eq!(s.wasted_estimate(), 0);
    let eff = s.set("k".to_owned(), "v1".to_owned());
    let first_len = eff.text.chars().count() as u64;
    assert_eq!(s.wasted_estimate(), 0);
    s.set("k".to_owned(), "v2".to_owned());
    assert_eq!(s.wasted_estimate(), first_len);
    let eff = s.remove("k".to_owned()).unwrap();
    let remove_len = eff.text.chars().count() as u64;
    let second_len = "{\"Set\":{\"key\":\"k\",\"value\":\"v2\"}}".chars().count() as u64;
    assert_eq!(s.wasted_estimate(), first_len + second_len + remove_len);
}

#[test]
fn safe_point_rises_with_compaction() {
    let mut s = fresh();
    assert_eq!(s.current_safe_point(), 0);
    let big: String = std::iter::repeat('x').take(1_100_000).collect();
    s.set("k".to_owned(), big.clone());
    let eff = s.set("k".to_owned(), big);
    assert!(eff.compacted);
    assert!(s.current_safe_point() > 0);
    assert_eq!(s.segment_count(), 2);
    assert!(s.current_safe_point() <= s.segment_version(0));
    assert_eq!(s.current_safe_point(), s.segment_version(0));
    assert_eq!(s.segment_version(1), s.segment_version(0) + 1);
    assert_eq!(s.wasted_estimate(), 0);
}
