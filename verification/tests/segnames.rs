use simplekv::segdir::{log_path, parse_log_name_exec, generations_from_names, parse_u64_chars};
use simplekv::text::string_to_chars;

#[test]
fn log_path_joins_dir_and_generation() {
    assert_eq!(log_path("data", 7), "data/7.log");
    assert_eq!(log_path("/tmp/kv", 120), "/tmp/kv/120.log");
}

#[test]
fn log_names_parse_back() {
    assert_eq!(parse_log_name_exec("42.log"), Some(42));
    assert_eq!(parse_log_name_exec("0.log"), Some(0));
    assert_eq!(parse_log_name_exec("18446744073709551615.log"), Some(u64::MAX));
}

#[test]
fn non_segment_names_are_ignored() {
    assert_eq!(parse_log_name_exec("engine"), None);
    assert_eq!(parse_log_name_exec("12"), None);
    assert_eq!(parse_log_name_exec(".log"), None);
    assert_eq!(parse_log_name_exec("x2.log"), None);
    assert_eq!(parse_log_name_exec("2.log.bak"), None);
    assert_eq!(parse_log_name_exec("99999999999999999999.log"), None);
}

#[test]
fn numeral_parsing_handles_the_u64_boundary() {
    assert_eq!(parse_u64_chars(&string_to_chars("18446744073709551615")), Some(u64::MAX));
    assert_eq!(parse_u64_chars(&string_to_chars("18446744073709551616")), None);
    assert_eq!(parse_u64_chars(&string_to_chars("")), None);
    assert_eq!(parse_u64_chars(&string_to_chars("007")), Some(7));
}

#[test]
fn generations_come_out_ascending_without_junk() {
    let names: Vec<String> = ["9.log", "engine", "2.log", "10.log", "notes.txt", "2.log"]
        .iter()
        .map(|s| s.to_string())
        .collect();
    let gens = generations_from_names(&names);
    assert_eq!(gens, vec![2, 9, 10]);
}
