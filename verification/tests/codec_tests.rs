//! The record codec, exercised on concrete values.

use kvs::Command;
use kvs::codec::Scan;
use kvs::codec::decode_record;
use kvs::codec::encode_command;
use kvs::kv::log_path;

fn chars(s: &str) -> Vec<char> {
    s.chars().collect()
}

fn text(v: &[char]) -> String {
    v.iter().collect()
}

#[test]
fn put_encodes_as_tagged_lengths() {
    let cmd = Command::Put(String::from("key1"), String::from("value1"));
    let enc = encode_command(&cmd);
    assert_eq!(text(&enc), "S4:key16:value1");
}

#[test]
fn remove_encodes_as_tagged_length() {
    let cmd = Command::Remove(String::from("abc"));
    let enc = encode_command(&cmd);
    assert_eq!(text(&enc), "R3:abc");
}

#[test]
fn put_round_trips() {
    let cmd = Command::Put(String::from("key1"), String::from("value1"));
    let enc = encode_command(&cmd);
    match decode_record(&enc, 0) {
        Scan::Hit(Command::Put(k, v), next) => {
            assert_eq!(k, "key1");
            assert_eq!(v, "value1");
            assert_eq!(next, enc.len());
        }
        _ => panic!("expected a complete record"),
    }
}

#[test]
fn remove_round_trips() {
    let enc = encode_command(&Command::Remove(String::from("k")));
    match decode_record(&enc, 0) {
        Scan::Hit(Command::Remove(k), next) => {
            assert_eq!(k, "k");
            assert_eq!(next, enc.len());
        }
        _ => panic!("expected a complete record"),
    }
}

#[test]
fn empty_strings_round_trip() {
    let enc = encode_command(&Command::Put(String::new(), String::new()));
    assert_eq!(text(&enc), "S0:0:");
    match decode_record(&enc, 0) {
        Scan::Hit(Command::Put(k, v), _) => {
            assert_eq!(k, "");
            assert_eq!(v, "");
        }
        _ => panic!("expected a complete record"),
    }
}

#[test]
fn unicode_lengths_count_characters() {
    let cmd = Command::Put(String::from("schlüssel"), String::from("wört"));
    let enc = encode_command(&cmd);
    assert_eq!(text(&enc), "S9:schlüssel4:wört");
    match decode_record(&enc, 0) {
        Scan::Hit(Command::Put(k, v), next) => {
            assert_eq!(k, "schlüssel");
            assert_eq!(v, "wört");
            assert_eq!(next, enc.len());
        }
        _ => panic!("expected a complete record"),
    }
}

#[test]
fn concatenated_records_decode_in_one_pass() {
    let cmds = vec![
        Command::Put(String::from("a"), String::from("1")),
        Command::Remove(String::from("a")),
        Command::Put(String::from("b"), String::from("two")),
    ];
    let mut stream: Vec<char> = Vec::new();
    for c in &cmds {
        stream.extend(encode_command(c));
    }
    let mut pos = 0;
    let mut seen: Vec<String> = Vec::new();
    while pos < stream.len() {
        match decode_record(&stream, pos) {
            Scan::Hit(Command::Put(k, v), next) => {
                seen.push(format!("put {} {}", k, v));
                pos = next;
            }
            Scan::Hit(Command::Remove(k), next) => {
                seen.push(format!("rm {}", k));
                pos = next;
            }
            _ => panic!("stream should decode record by record"),
        }
    }
    assert_eq!(pos, stream.len());
    assert_eq!(seen, vec!["put a 1", "rm a", "put b two"]);
}

#[test]
fn colons_and_digits_in_text_round_trip() {
    let cmd = Command::Put(String::from("12:34"), String::from("5:6:7"));
    let enc = encode_command(&cmd);
    assert_eq!(text(&enc), "S5:12:345:5:6:7");
    match decode_record(&enc, 0) {
        Scan::Hit(Command::Put(k, v), next) => {
            assert_eq!(k, "12:34");
            assert_eq!(v, "5:6:7");
            assert_eq!(next, enc.len());
        }
        _ => panic!("expected a complete record"),
    }
}

#[test]
fn truncated_record_asks_for_more() {
    assert!(matches!(decode_record(&chars("S4:ke"), 0), Scan::More));
    assert!(matches!(decode_record(&chars("S"), 0), Scan::More));
    assert!(matches!(decode_record(&chars("R12"), 0), Scan::More));
    assert!(matches!(decode_record(&chars(""), 0), Scan::More));
}

#[test]
fn garbage_is_rejected() {
    assert!(matches!(decode_record(&chars("X2:ab"), 0), Scan::Bad));
    assert!(matches!(decode_record(&chars("S:"), 0), Scan::Bad));
    assert!(matches!(decode_record(&chars("Sx"), 0), Scan::Bad));
    assert!(matches!(decode_record(&chars("R2x:ab"), 0), Scan::Bad));
}

#[test]
fn log_path_spells_decimal_and_suffix() {
    assert_eq!(log_path(1), "1.log");
    assert_eq!(log_path(42), "42.log");
    assert_eq!(log_path(120), "120.log");
    assert_eq!(log_path(0), "0.log");
}
