use paxos_kv::protocol::command::{is_whitespace, parse_command};
use paxos_kv::protocol::Entry;
use paxos_kv::PaxosError;

fn entry(key: &str, val: Option<&str>) -> Entry<String, String> {
    Entry { key: key.to_string(), val: val.map(|v| v.to_string()) }
}

#[test]
fn get_asks_for_the_value_of_a_key() {
    assert_eq!(parse_command("get foo"), Ok(entry("foo", None)));
    assert_eq!(parse_command("get foo\n"), Ok(entry("foo", None)));
    assert_eq!(parse_command("  get \t foo  "), Ok(entry("foo", None)));
    assert_eq!(parse_command("get missing"), Ok(entry("missing", None)));
}

#[test]
fn get_passes_over_what_follows_the_key() {
    assert_eq!(parse_command("get foo bar baz"), Ok(entry("foo", None)));
}

#[test]
fn put_binds_a_key_to_the_words_of_a_value() {
    assert_eq!(parse_command("put foo bar"), Ok(entry("foo", Some("bar"))));
    assert_eq!(parse_command("put foo bar\n"), Ok(entry("foo", Some("bar"))));
    assert_eq!(parse_command("put foo bar baz"), Ok(entry("foo", Some("bar\nbaz"))));
    assert_eq!(
        parse_command("\tput   foo \r\n a  b\u{a0}c \u{3000} d "),
        Ok(entry("foo", Some("a\nb\nc\nd")))
    );
    assert_eq!(parse_command("put clé värde ✓"), Ok(entry("clé", Some("värde\n✓"))));
}

#[test]
fn put_without_a_value_binds_the_empty_string() {
    assert_eq!(parse_command("put foo"), Ok(entry("foo", Some(""))));
}

#[test]
fn fewer_than_two_words_are_a_bad_request() {
    assert_eq!(parse_command(""), Err(PaxosError::BadRequest));
    assert_eq!(parse_command("   \n\t "), Err(PaxosError::BadRequest));
    assert_eq!(parse_command("foo"), Err(PaxosError::BadRequest));
    assert_eq!(parse_command("get"), Err(PaxosError::BadRequest));
    assert_eq!(parse_command("put"), Err(PaxosError::BadRequest));
    assert_eq!(parse_command(" get  "), Err(PaxosError::BadRequest));
}

#[test]
fn another_verb_is_a_bad_request() {
    assert_eq!(parse_command("foo bar"), Err(PaxosError::BadRequest));
    assert_eq!(parse_command("GET foo"), Err(PaxosError::BadRequest));
    assert_eq!(parse_command("gets foo"), Err(PaxosError::BadRequest));
    assert_eq!(parse_command("ge foo"), Err(PaxosError::BadRequest));
    assert_eq!(parse_command("delete foo bar"), Err(PaxosError::BadRequest));
    assert_eq!(parse_command("putt foo bar"), Err(PaxosError::BadRequest));
}

#[test]
fn the_command_is_split_as_the_standard_library_splits_it() {
    let texts = [
        "",
        " ",
        "get foo",
        "put  foo   bar baz ",
        "\u{2003}put\u{2028}k\u{85}v\u{1680}w\u{205f}x\u{202f}y",
        "put a\u{200b}b c",
        "put k \u{feff}v",
        "get\u{0b}k\u{0c}",
        "put k a\u{1c}b",
    ];
    for text in texts {
        let words: Vec<&str> = text.split_whitespace().collect();
        let expected = if words.len() < 2 {
            Err(PaxosError::BadRequest)
        } else if words[0] == "get" {
            Ok(entry(words[1], None))
        } else if words[0] == "put" {
            Ok(entry(words[1], Some(&words[2..].join("\n"))))
        } else {
            Err(PaxosError::BadRequest)
        };
        assert_eq!(parse_command(text), expected);
    }
}

#[test]
fn the_separators_are_those_of_the_standard_library() {
    for code in 0..=0x10ffffu32 {
        if let Some(c) = char::from_u32(code) {
            assert_eq!(is_whitespace(c), c.is_whitespace());
        }
    }
}

#[test]
fn some_separators_and_some_that_are_none() {
    for c in [' ', '\t', '\n', '\r', '\u{0b}', '\u{0c}', '\u{85}', '\u{a0}', '\u{1680}', '\u{2000}', '\u{200a}', '\u{2028}', '\u{2029}', '\u{202f}', '\u{205f}', '\u{3000}'] {
        assert!(is_whitespace(c));
    }
    for c in ['a', '0', '\u{08}', '\u{0e}', '\u{1c}', '\u{1f}', '\u{200b}', '\u{feff}', '\u{180e}', '\u{2060}', '_'] {
        assert!(!is_whitespace(c));
    }
}
