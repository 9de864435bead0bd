use std::collections::BTreeMap;

use dotenvor::{
    parse_bytes, parse_str, parse_str_with_mode, parse_str_with_source, resolve, Entry, Error,
    KeyParsingMode, ParseErrorKind, TargetEnv,
};

fn expanded(input: &str, base: TargetEnv, override_existing: bool) -> Vec<Entry> {
    let mut entries = parse_str_with_source(input, &None, KeyParsingMode::Strict, true)
        .expect("parse should succeed");
    resolve(&mut entries, &base, override_existing, KeyParsingMode::Strict);
    entries
}

fn value_of<'a>(entries: &'a [Entry], key: &str) -> &'a str {
    entries
        .iter()
        .find(|e| e.key == key)
        .map(|e| e.value.as_str())
        .expect("key should exist")
}

#[test]
fn unquoted_line_lookup_gives_trimmed_value() {
    let parsed = parse_str("KEY=   some value   # trailing\n").expect("parse");
    assert_eq!(parsed.len(), 1);
    assert_eq!(value_of(&parsed, "KEY"), "some value");
    let parsed = parse_str("KEY=a#b").expect("parse");
    assert_eq!(value_of(&parsed, "KEY"), "a");
    let parsed = parse_str("KEY=a\\#b").expect("parse");
    assert_eq!(value_of(&parsed, "KEY"), "a\\#b");
}

#[test]
fn single_quoted_text_survives_expansion() {
    let entries = expanded("KEY='raw $VAR value'\nVAR=x\n", TargetEnv::memory(), false);
    assert_eq!(value_of(&entries, "KEY"), "raw $VAR value");
}

#[test]
fn resolving_a_resolved_table_changes_nothing() {
    let first = expanded("A=$B\nB=${C}\nC=value\n", TargetEnv::memory(), false);
    let mut second = first.clone();
    resolve(&mut second, &TargetEnv::memory(), false, KeyParsingMode::Strict);
    assert_eq!(first, second);
}

#[test]
fn duplicate_key_scenario_keeps_one_entry() {
    let parsed = parse_str("A=1\nA=2\n").expect("parse");
    assert_eq!(parsed.len(), 1);
    assert_eq!(parsed[0].key, "A");
    assert_eq!(parsed[0].value, "2");
    assert_eq!(parsed[0].line, 2);
}

#[test]
fn duplicate_key_keeps_first_position() {
    let parsed = parse_str("A=1\nB=2\nA=3\n").expect("parse");
    assert_eq!(parsed.len(), 2);
    assert_eq!(parsed[0].key, "A");
    assert_eq!(parsed[0].value, "3");
    assert_eq!(parsed[0].line, 3);
    assert_eq!(parsed[1].key, "B");
}

#[test]
fn forward_references_resolve() {
    let entries = expanded("A=$B\nB=${C}\nC=value\n", TargetEnv::memory(), false);
    assert_eq!(value_of(&entries, "A"), "value");
    assert_eq!(value_of(&entries, "B"), "value");
    assert_eq!(value_of(&entries, "C"), "value");
}

#[test]
fn self_reference_is_left_as_text() {
    let entries = expanded("A=${A}\n", TargetEnv::memory(), false);
    assert_eq!(value_of(&entries, "A"), "${A}");
}

#[test]
fn mutual_reference_follows_entry_order() {
    let entries = expanded("A=${B}\nB=${A}\n", TargetEnv::memory(), false);
    assert_eq!(value_of(&entries, "A"), "${A}");
    assert_eq!(value_of(&entries, "B"), "${A}");
}

#[test]
fn cycle_with_default_uses_default() {
    let entries = expanded("A=${A:-dflt}\n", TargetEnv::memory(), false);
    assert_eq!(value_of(&entries, "A"), "dflt");
}

#[test]
fn empty_value_takes_default() {
    let entries = expanded("EMPTY=\nOUT=${EMPTY:-fallback}\n", TargetEnv::memory(), false);
    assert_eq!(value_of(&entries, "OUT"), "fallback");
    assert_eq!(value_of(&entries, "EMPTY"), "");
}

#[test]
fn base_value_wins_without_override() {
    let mut base = BTreeMap::new();
    base.insert("A".to_string(), "base".to_string());
    let entries = expanded("A=file\nB=$A\n", TargetEnv::from_memory(base), false);
    assert_eq!(value_of(&entries, "A"), "base");
    assert_eq!(value_of(&entries, "B"), "base");

    let mut base = BTreeMap::new();
    base.insert("A".to_string(), "base".to_string());
    let entries = expanded("A=file\nB=$A\n", TargetEnv::from_memory(base), true);
    assert_eq!(value_of(&entries, "A"), "file");
    assert_eq!(value_of(&entries, "B"), "file");
}

#[test]
fn odd_backslash_run_escapes_dollar() {
    let entries = expanded("A=x\nB=\\$A\nC=\\\\$A\nD=\\\\\\$A\n", TargetEnv::memory(), false);
    assert_eq!(value_of(&entries, "B"), "$A");
    assert_eq!(value_of(&entries, "C"), "\\\\x");
    assert_eq!(value_of(&entries, "D"), "\\\\$A");
}

#[test]
fn unterminated_quote_scenario() {
    match parse_str("A=\"value\n") {
        Err(Error::Parse(e)) => {
            assert_eq!(e.kind, ParseErrorKind::UnterminatedQuote);
            assert_eq!(e.line, 1);
            assert_eq!(e.column, 3);
        }
        other => panic!("unexpected result: {other:?}"),
    }
}

#[test]
fn multiline_value_then_next_line_number() {
    let parsed = parse_str("A=\"line1\nline2\"\nB=after\n").expect("parse");
    assert_eq!(parsed.len(), 2);
    assert_eq!(parsed[0].value, "line1\nline2");
    assert_eq!(parsed[0].line, 1);
    assert_eq!(parsed[1].value, "after");
    assert_eq!(parsed[1].line, 3);
}

#[test]
fn percent_key_strict_versus_permissive() {
    match parse_str_with_mode("%TEMP%=/tmp\n", KeyParsingMode::Strict) {
        Err(Error::Parse(e)) => {
            assert_eq!(e.kind, ParseErrorKind::InvalidKey);
            assert_eq!(e.column, 1);
        }
        other => panic!("unexpected result: {other:?}"),
    }
    let parsed = parse_str_with_mode("%TEMP%=/tmp\n", KeyParsingMode::Permissive).expect("parse");
    assert_eq!(parsed[0].key, "%TEMP%");
    assert_eq!(parsed[0].value, "/tmp");
}

#[test]
fn missing_equals_is_invalid_syntax() {
    match parse_str("\n  export NOEQUALS\n") {
        Err(Error::Parse(e)) => {
            assert_eq!(e.kind, ParseErrorKind::InvalidSyntax);
            assert_eq!(e.line, 2);
            assert_eq!(e.column, 9);
        }
        other => panic!("unexpected result: {other:?}"),
    }
}

#[test]
fn empty_key_is_missing_key() {
    match parse_str("=value\n") {
        Err(Error::Parse(e)) => assert_eq!(e.kind, ParseErrorKind::MissingKey),
        other => panic!("unexpected result: {other:?}"),
    }
    match parse_str("export   \n") {
        Err(Error::Parse(e)) => assert_eq!(e.kind, ParseErrorKind::MissingKey),
        other => panic!("unexpected result: {other:?}"),
    }
}

#[test]
fn text_after_closing_quote_is_invalid_syntax() {
    match parse_str("A='x' y\n") {
        Err(Error::Parse(e)) => {
            assert_eq!(e.kind, ParseErrorKind::InvalidSyntax);
            assert_eq!(e.column, 6);
        }
        other => panic!("unexpected result: {other:?}"),
    }
    match parse_str("É=\"é\" y\n") {
        Err(Error::Parse(e)) => assert_eq!(e.kind, ParseErrorKind::InvalidKey),
        other => panic!("unexpected result: {other:?}"),
    }
    match parse_str("A=\"é\" y\n") {
        Err(Error::Parse(e)) => {
            assert_eq!(e.kind, ParseErrorKind::InvalidSyntax);
            assert_eq!(e.column, 7);
        }
        other => panic!("unexpected result: {other:?}"),
    }
}

#[test]
fn invalid_utf8_bytes_are_an_encoding_error() {
    assert!(matches!(
        parse_bytes(&[b'A', b'=', 0xc3]),
        Err(Error::InvalidEncoding(_))
    ));
    let parsed = parse_bytes("A=é\n".as_bytes()).expect("parse");
    assert_eq!(parsed[0].value, "é");
}

#[test]
fn double_quote_escapes_and_dollar_preservation() {
    let parsed = parse_str("A=\"a\\tb\\\\c\\\"d\\$e\\qf\"\n").expect("parse");
    assert_eq!(parsed[0].value, "a\tb\\c\"d$eqf");
    let kept = parse_str_with_source("A=\"x\\$y\"\nB='p$q'\n", &None, KeyParsingMode::Strict, true)
        .expect("parse");
    assert_eq!(kept[0].value, "x\\$y");
    assert_eq!(kept[1].value, "p\\$q");
}

#[test]
fn sources_are_recorded() {
    let parsed = parse_str_with_source(
        "A=1\n",
        &Some("conf.env".to_string()),
        KeyParsingMode::Strict,
        false,
    )
    .expect("parse");
    assert_eq!(parsed[0].source.as_deref(), Some("conf.env"));
}

#[test]
fn crlf_and_lone_cr_count_as_newlines() {
    let parsed = parse_str("A=1\rB=2\r\nC=3").expect("parse");
    assert_eq!(parsed.len(), 3);
    assert_eq!(parsed[2].key, "C");
    assert_eq!(parsed[2].line, 3);
}

#[test]
fn inert_dollar_text_survives_second_resolution() {
    let first = expanded("PRICE='cost $ 5'\nOTHER=$ 7\n", TargetEnv::memory(), false);
    assert_eq!(value_of(&first, "PRICE"), "cost $ 5");
    assert_eq!(value_of(&first, "OTHER"), "$ 7");
    let mut second = first.clone();
    resolve(&mut second, &TargetEnv::memory(), false, KeyParsingMode::Strict);
    assert_eq!(first, second);
}

#[test]
fn target_accessors_reach_the_same_map() {
    let mut loader = dotenvor::EnvLoader::new();
    loader
        .target_env_mut()
        .as_memory_mut()
        .expect("memory target")
        .insert("K".to_string(), "v".to_string());
    assert_eq!(
        loader.target_env().as_memory().expect("memory").get("K"),
        Some(&"v".to_string())
    );
    let target = loader.into_target();
    assert_eq!(target.as_memory().expect("memory").len(), 1);
    assert!(TargetEnv::default().as_memory().expect("memory").is_empty());
}

#[test]
fn file_list_splits_on_commas() {
    let mut files = vec!["first".to_string()];
    dotenvor::parse_file_text(" .env.local , ,.env ", &mut files).expect("paths");
    assert_eq!(files, vec!["first", ".env.local", ".env"]);
    let mut none: Vec<String> = Vec::new();
    assert_eq!(
        dotenvor::parse_file_text(" , ", &mut none),
        Err("`-f/--file` requires at least one path".to_string())
    );
    assert!(none.is_empty());
}

#[test]
fn errors_convert_into_error() {
    let parse: Error = dotenvor::ParseError::new(2, 5, ParseErrorKind::MissingKey).into();
    assert!(matches!(parse, Error::Parse(ref e) if e.line == 2 && e.column == 5));
    let io: Error = std::io::Error::new(std::io::ErrorKind::Other, "boom").into();
    assert!(matches!(io, Error::Io(_)));
    assert_eq!(ParseErrorKind::UnterminatedQuote.describe(), "unterminated quote");
}
