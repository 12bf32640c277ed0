use kvs::codec::{decode_cmd, encode_cmd, Cmd, Decoded};
use kvs::gens::{log_file_name, parse_gen_file_name, sorted_gen_list};

fn cs(s: &str) -> Vec<char> {
    s.chars().collect()
}

fn to_string(v: &[char]) -> String {
    v.iter().collect()
}

#[test]
fn set_record_encodes_as_json() {
    let rec = encode_cmd(&Cmd::Put(cs("a"), cs("1")));
    assert_eq!(to_string(&rec), "{\"Set\":[\"a\",\"1\"]}");
}

#[test]
fn rm_record_encodes_as_json() {
    let rec = encode_cmd(&Cmd::Rm(cs("key1")));
    assert_eq!(to_string(&rec), "{\"Rm\":[\"key1\"]}");
}

#[test]
fn escapes_encode_canonically() {
    let rec = encode_cmd(&Cmd::Put(cs("a\"b"), cs("c\\d\ne")));
    assert_eq!(
        to_string(&rec),
        "{\"Set\":[\"a\\\"b\",\"c\\\\d\\u000ae\"]}"
    );
}

#[test]
fn record_round_trip_with_escapes_and_unicode() {
    let key = cs("k\"\\\u{1}\u{1f}");
    let value = cs("v\u{0}snow\u{2603}man");
    let mut rec = encode_cmd(&Cmd::Put(key.clone(), value.clone()));
    let mut tail = cs("{\"Rm\":[\"x\"]}");
    let split = rec.len();
    rec.append(&mut tail);
    match decode_cmd(&rec, 0) {
        Decoded::Done(Cmd::Put(k, v), end) => {
            assert_eq!(k, key);
            assert_eq!(v, value);
            assert_eq!(end, split);
        }
        _ => panic!("expected a Set record"),
    }
    match decode_cmd(&rec, split) {
        Decoded::Done(Cmd::Rm(k), end) => {
            assert_eq!(k, cs("x"));
            assert_eq!(end, rec.len());
        }
        _ => panic!("expected a Rm record"),
    }
}

#[test]
fn truncated_record_is_incomplete() {
    let data = cs("{\"Set\":[\"a\",\"1");
    match decode_cmd(&data, 0) {
        Decoded::Incomplete => {}
        _ => panic!("expected Incomplete"),
    }
}

#[test]
fn garbage_is_malformed() {
    let data = cs("{\"Mix\":[\"a\"]}");
    match decode_cmd(&data, 0) {
        Decoded::Malformed => {}
        _ => panic!("expected Malformed"),
    }
}

#[test]
fn raw_control_character_is_rejected() {
    let data = cs("{\"Set\":[\"a\nb\",\"1\"]}");
    match decode_cmd(&data, 0) {
        Decoded::Done(..) => panic!("raw control characters are not canonical"),
        _ => {}
    }
}

#[test]
fn log_names_round_trip() {
    assert_eq!(log_file_name(7), "7.log");
    assert_eq!(log_file_name(0), "0.log");
    assert_eq!(log_file_name(1234567890), "1234567890.log");
    assert_eq!(parse_gen_file_name("7.log"), Some(7));
    assert_eq!(parse_gen_file_name("0007.log"), Some(7));
    assert_eq!(parse_gen_file_name("1234567890.log"), Some(1234567890));
}

#[test]
fn bad_log_names_are_rejected() {
    assert_eq!(parse_gen_file_name("x.log"), None);
    assert_eq!(parse_gen_file_name("7.txt"), None);
    assert_eq!(parse_gen_file_name(".log"), None);
    assert_eq!(parse_gen_file_name("7log"), None);
    assert_eq!(parse_gen_file_name(""), None);
    assert_eq!(parse_gen_file_name("99999999999999999999999.log"), None);
}

#[test]
fn gen_list_is_sorted_and_dedupes() {
    let names = vec![
        "3.log".to_owned(),
        "1.log".to_owned(),
        "2.log".to_owned(),
        "engine".to_owned(),
        "02.log".to_owned(),
        "notes.txt".to_owned(),
    ];
    assert_eq!(sorted_gen_list(&names), vec![1, 2, 3]);
}
