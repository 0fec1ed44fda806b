use simplekv::record::{Command, encode_command, parse_command};
use simplekv::text::{string_to_chars, chars_to_string, u64_to_dec_chars};

fn chars(s: &str) -> Vec<char> {
    string_to_chars(s)
}

#[test]
fn encode_set_is_exact() {
    let cmd = Command::set("k".to_owned(), "v".to_owned());
    let text = encode_command(&cmd);
    assert_eq!(chars_to_string(&text), "{\"Set\":{\"key\":\"k\",\"value\":\"v\"}}");
}

#[test]
fn encode_remove_is_exact() {
    let cmd = Command::remove("k".to_owned());
    let text = encode_command(&cmd);
    assert_eq!(chars_to_string(&text), "{\"Remove\":{\"key\":\"k\"}}");
}

#[test]
fn encode_escapes_quotes_backslashes_and_controls() {
    let cmd = Command::set("a\"b".to_owned(), "c\\d\u{1f}".to_owned());
    let text = encode_command(&cmd);
    assert_eq!(
        chars_to_string(&text),
        "{\"Set\":{\"key\":\"a\\\"b\",\"value\":\"c\\\\d\\u001f\"}}"
    );
}

#[test]
fn encoder_uses_the_named_short_escapes() {
    let cmd = Command::set("k".to_owned(), "a\u{8}b\tc\nd\u{c}e\rf".to_owned());
    let text = encode_command(&cmd);
    assert_eq!(
        chars_to_string(&text),
        "{\"Set\":{\"key\":\"k\",\"value\":\"a\\bb\\tc\\nd\\fe\\rf\"}}"
    );
}

#[test]
fn parse_round_trips_encode() {
    let cmd = Command::set("key \"x\"\\".to_owned(), "line\nfeed\u{7}".to_owned());
    let text = encode_command(&cmd);
    let (parsed, end) = parse_command(&text, 0).unwrap();
    assert_eq!(end, text.len());
    match parsed {
        Command::Put { key, value } => {
            assert_eq!(key, "key \"x\"\\");
            assert_eq!(value, "line\nfeed\u{7}");
        },
        _ => panic!("parsed the wrong record kind"),
    }
}

#[test]
fn parse_is_self_delimiting_in_a_stream() {
    let text = chars("{\"Remove\":{\"key\":\"a\"}}{\"Set\":{\"key\":\"b\",\"value\":\"2\"}}");
    let (first, mid) = parse_command(&text, 0).unwrap();
    match first {
        Command::Remove { key } => assert_eq!(key, "a"),
        _ => panic!("parsed the wrong record kind"),
    }
    let (second, end) = parse_command(&text, mid).unwrap();
    match second {
        Command::Put { key, value } => {
            assert_eq!(key, "b");
            assert_eq!(value, "2");
        },
        _ => panic!("parsed the wrong record kind"),
    }
    assert_eq!(end, text.len());
}

#[test]
fn parse_rejects_garbage_and_raw_controls() {
    assert!(parse_command(&chars("hello"), 0).is_none());
    assert!(parse_command(&chars("{\"Set\":{\"key\":k}}"), 0).is_none());
    assert!(parse_command(&chars("{\"Set\":{\"key\":\"a\nb\",\"value\":\"v\"}}"), 0).is_none());
    assert!(parse_command(&chars("{\"Set\":{\"key\":\"a\",\"value\":\"v\"}"), 0).is_none());
}

#[test]
fn parse_rejects_surrogate_escapes() {
    assert!(parse_command(&chars("{\"Remove\":{\"key\":\"\\ud800\"}}"), 0).is_none());
}

#[test]
fn unicode_escape_parses_to_the_character() {
    let text = chars("{\"Remove\":{\"key\":\"\\u263A\"}}");
    let (cmd, _) = parse_command(&text, 0).unwrap();
    match cmd {
        Command::Remove { key } => assert_eq!(key, "\u{263a}"),
        _ => panic!("parsed the wrong record kind"),
    }
}

#[test]
fn decimal_rendering_is_exact() {
    assert_eq!(chars_to_string(&u64_to_dec_chars(0)), "0");
    assert_eq!(chars_to_string(&u64_to_dec_chars(907)), "907");
    assert_eq!(chars_to_string(&u64_to_dec_chars(u64::MAX)), "18446744073709551615");
}
