use env_loader::env_map::EnvMap;
use env_loader::parse::config_path;
use env_loader::parse::parse_env_file;

#[test]
fn default_path_is_dot_env() {
    assert_eq!(config_path(None).as_str(), "./.env");
    assert_eq!(config_path(Some(String::from("fixtures/env"))).as_str(), "fixtures/env");
}

#[test]
fn round_trip_single_line() {
    let m = parse_env_file(String::from("KEY = VALUE"));
    assert_eq!(m.get("KEY").unwrap().as_str(), "VALUE");
    assert_eq!(m.entries().len(), 1);
}

#[test]
fn value_with_spaces_is_kept_whole() {
    let m = parse_env_file(String::from("ANOTHER_KEY = another value with spaces"));
    assert_eq!(m.get("ANOTHER_KEY").unwrap().as_str(), "another value with spaces");
}

#[test]
fn line_without_separator_is_dropped() {
    let m = parse_env_file(String::from("malformed line without separator"));
    assert!(m.get("malformed").is_none());
    assert_eq!(m.entries().len(), 0);
}

#[test]
fn line_with_two_separators_is_dropped() {
    let m = parse_env_file(String::from("KEY = VALUE = EXTRA"));
    assert!(m.get("KEY").is_none());
    assert_eq!(m.entries().len(), 0);
}

#[test]
fn bare_equals_is_no_separator() {
    let m = parse_env_file(String::from("KEY=VALUE"));
    assert!(m.get("KEY").is_none());
    assert_eq!(m.entries().len(), 0);
}

#[test]
fn duplicate_key_overwrites() {
    let m = parse_env_file(String::from("A = 1\nA = 2"));
    assert_eq!(m.get("A").unwrap().as_str(), "2");
}

#[test]
fn mixed_content_keeps_valid_neighbours() {
    let m = parse_env_file(String::from("A = 1\ngarbage\nB = 2"));
    assert_eq!(m.get("A").unwrap().as_str(), "1");
    assert_eq!(m.get("B").unwrap().as_str(), "2");
    assert!(m.get("garbage").is_none());
}

#[test]
fn empty_input_yields_empty_mapping() {
    let m = parse_env_file(String::new());
    assert_eq!(m.entries().len(), 0);
}

#[test]
fn blank_lines_are_dropped() {
    let m = parse_env_file(String::from("\n\nA = 1\n\n"));
    assert_eq!(m.get("A").unwrap().as_str(), "1");
    assert_eq!(m.entries().len(), 1);
}

#[test]
fn trailing_newline_is_no_extra_line() {
    let m = parse_env_file(String::from("A = 1\n"));
    assert_eq!(m.get("A").unwrap().as_str(), "1");
    assert_eq!(m.entries().len(), 1);
}

#[test]
fn crlf_terminators_are_stripped() {
    let m = parse_env_file(String::from("A = 1\r\nB = 2\r\n"));
    assert_eq!(m.get("A").unwrap().as_str(), "1");
    assert_eq!(m.get("B").unwrap().as_str(), "2");
}

#[test]
fn carriage_return_without_newline_is_kept() {
    let m = parse_env_file(String::from("A = 1\r"));
    assert_eq!(m.get("A").unwrap().as_str(), "1\r");
}

#[test]
fn no_whitespace_trimming_happens() {
    let m = parse_env_file(String::from("KEY  =  VALUE"));
    assert_eq!(m.get("KEY ").unwrap().as_str(), " VALUE");
    assert!(m.get("KEY").is_none());
}

#[test]
fn split_happens_at_leftmost_separator() {
    let m = parse_env_file(String::from("a = = b"));
    assert_eq!(m.get("a").unwrap().as_str(), "= b");
}

#[test]
fn empty_key_and_empty_value_are_allowed() {
    let m = parse_env_file(String::from(" = v\nk = "));
    assert_eq!(m.get("").unwrap().as_str(), "v");
    assert_eq!(m.get("k").unwrap().as_str(), "");
}

#[test]
fn env_map_insert_and_get() {
    let mut m = EnvMap::new();
    assert!(m.get("X").is_none());
    m.insert(String::from("X"), String::from("1"));
    m.insert(String::from("Y"), String::from("2"));
    m.insert(String::from("X"), String::from("3"));
    assert_eq!(m.get("X").unwrap().as_str(), "3");
    assert_eq!(m.get("Y").unwrap().as_str(), "2");
}
