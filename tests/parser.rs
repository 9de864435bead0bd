use dotenvor::{
    parse_reader_with_mode, parse_str, parse_str_with_mode, Error, KeyParsingMode, ParseErrorKind,
};

#[test]
fn parses_basic_values_and_comments() {
    let input = "A=1\nB = 2\n# skip\nC=hello # comment\nD=\n";
    let parsed = parse_str(input).expect("parse should succeed");

    assert_eq!(parsed.len(), 4);
    assert_eq!(parsed[0].key, "A");
    assert_eq!(parsed[0].value, "1");
    assert_eq!(parsed[1].key, "B");
    assert_eq!(parsed[1].value, "2");
    assert_eq!(parsed[2].key, "C");
    assert_eq!(parsed[2].value, "hello");
    assert_eq!(parsed[3].key, "D");
    assert_eq!(parsed[3].value, "");
}

#[test]
fn parses_export_and_quotes() {
    let input = "export QUOTED=\"line\\nvalue\"\nSINGLE='raw value'\n";
    let parsed = parse_str(input).expect("parse should succeed");

    assert_eq!(parsed.len(), 2);
    assert_eq!(parsed[0].key, "QUOTED");
    assert_eq!(parsed[0].value, "line\nvalue");
    assert_eq!(parsed[1].key, "SINGLE");
    assert_eq!(parsed[1].value, "raw value");
}

#[test]
fn duplicate_keys_keep_last() {
    let input = "A=1\nA=2\n";
    let parsed = parse_str(input).expect("parse should succeed");

    assert_eq!(parsed.len(), 1);
    assert_eq!(parsed[0].key, "A");
    assert_eq!(parsed[0].value, "2");
}

#[test]
fn parses_unicode_values() {
    let input = "GREETING=こんにちは\n";
    let parsed = parse_str(input).expect("parse should succeed");

    assert_eq!(parsed.len(), 1);
    assert_eq!(parsed[0].value, "こんにちは");
}

#[test]
fn reports_invalid_key() {
    let input = "BAD KEY=value\n";
    let err = parse_str(input).expect_err("expected parse error");
    match err {
        Error::Parse(parse_err) => assert_eq!(parse_err.kind, ParseErrorKind::InvalidKey),
        other => panic!("unexpected error: {other:?}"),
    }
}

#[test]
fn reports_unterminated_quote() {
    let input = "A=\"value\n";
    let err = parse_str(input).expect_err("expected parse error");
    match err {
        Error::Parse(parse_err) => {
            assert_eq!(parse_err.kind, ParseErrorKind::UnterminatedQuote);
            assert_eq!(parse_err.line, 1);
        }
        other => panic!("unexpected error: {other:?}"),
    }
}

#[test]
fn parses_multiline_quoted_values() {
    let input = "MULTI_DOUBLE=\"THIS\nIS\nA\nMULTILINE\nSTRING\"\n\
                 MULTI_SINGLE='THIS\nIS\nA\nMULTILINE\nSTRING'\n\
                 AFTER=after\n";
    let parsed = parse_str(input).expect("parse should succeed");

    assert_eq!(parsed.len(), 3);
    assert_eq!(parsed[0].key, "MULTI_DOUBLE");
    assert_eq!(parsed[0].value, "THIS\nIS\nA\nMULTILINE\nSTRING");
    assert_eq!(parsed[1].key, "MULTI_SINGLE");
    assert_eq!(parsed[1].value, "THIS\nIS\nA\nMULTILINE\nSTRING");
    assert_eq!(parsed[2].key, "AFTER");
    assert_eq!(parsed[2].value, "after");
}

#[test]
fn parses_multiline_backtick_values() {
    let input = "MULTI_BACKTICK=`THIS\nIS\nA\n\"MULTILINE'S\"\nSTRING`\n";
    let parsed = parse_str(input).expect("parse should succeed");

    assert_eq!(parsed.len(), 1);
    assert_eq!(parsed[0].key, "MULTI_BACKTICK");
    assert_eq!(parsed[0].value, "THIS\nIS\nA\n\"MULTILINE'S\"\nSTRING");
}

#[test]
fn keeps_escaped_single_quotes_inside_multiline_single_quote() {
    let input = "OPTION_K='line one\nthis is \\'quoted\\'\none more line'\n";
    let parsed = parse_str(input).expect("parse should succeed");

    assert_eq!(parsed.len(), 1);
    assert_eq!(parsed[0].key, "OPTION_K");
    assert_eq!(
        parsed[0].value,
        "line one\nthis is \\'quoted\\'\none more line"
    );
}

#[test]
fn parses_double_quoted_value_ending_with_escaped_backslash() {
    let input = "PATH=\"C:\\\\Users\\\\\"\nNEXT=ok\n";
    let parsed = parse_str(input).expect("parse should succeed");

    assert_eq!(parsed.len(), 2);
    assert_eq!(parsed[0].key, "PATH");
    assert_eq!(parsed[0].value, "C:\\Users\\");
    assert_eq!(parsed[1].key, "NEXT");
    assert_eq!(parsed[1].value, "ok");
}

#[test]
fn parses_single_quoted_value_ending_with_backslash() {
    let input = "A='C:\\\\Temp\\\\'\nB=ok\n";
    let parsed = parse_str(input).expect("parse should succeed");

    assert_eq!(parsed.len(), 2);
    assert_eq!(parsed[0].key, "A");
    assert_eq!(parsed[0].value, "C:\\\\Temp\\\\");
    assert_eq!(parsed[1].key, "B");
    assert_eq!(parsed[1].value, "ok");
}

#[test]
fn parses_backtick_quoted_value_ending_with_backslash() {
    let input = "A=`C:\\\\Temp\\\\`\nB=ok\n";
    let parsed = parse_str(input).expect("parse should succeed");

    assert_eq!(parsed.len(), 2);
    assert_eq!(parsed[0].key, "A");
    assert_eq!(parsed[0].value, "C:\\\\Temp\\\\");
    assert_eq!(parsed[1].key, "B");
    assert_eq!(parsed[1].value, "ok");
}

#[test]
fn parses_comment_after_multiline_quote() {
    let input = "A=\"line 1\nline 2\" # trailing comment\nB=2\n";
    let parsed = parse_str(input).expect("parse should succeed");

    assert_eq!(parsed.len(), 2);
    assert_eq!(parsed[0].key, "A");
    assert_eq!(parsed[0].value, "line 1\nline 2");
    assert_eq!(parsed[1].key, "B");
    assert_eq!(parsed[1].value, "2");
}

#[test]
fn parses_crlf_newlines_in_multiline_quotes() {
    let input = "A=\"line1\r\nline2\"\r\nB=ok\r\n";
    let parsed = parse_str(input).expect("parse should succeed");

    assert_eq!(parsed.len(), 2);
    assert_eq!(parsed[0].value, "line1\nline2");
    assert_eq!(parsed[1].value, "ok");
}

#[test]
fn permissive_mode_accepts_extended_key_names() {
    let input = "KEYS:CAN:HAVE_COLONS=1\n%TEMP%=/tmp\n";
    let parsed =
        parse_str_with_mode(input, KeyParsingMode::Permissive).expect("parse should succeed");

    assert_eq!(parsed.len(), 2);
    assert_eq!(parsed[0].key, "KEYS:CAN:HAVE_COLONS");
    assert_eq!(parsed[0].value, "1");
    assert_eq!(parsed[1].key, "%TEMP%");
    assert_eq!(parsed[1].value, "/tmp");
}

#[test]
fn permissive_mode_allows_digit_prefixed_and_punctuation_keys() {
    let input = "1KEY=value\n.KEY=dot\nVAR+ALT=plus\n";
    let parsed =
        parse_str_with_mode(input, KeyParsingMode::Permissive).expect("parse should succeed");

    assert_eq!(parsed.len(), 3);
    assert_eq!(parsed[0].key, "1KEY");
    assert_eq!(parsed[0].value, "value");
    assert_eq!(parsed[1].key, ".KEY");
    assert_eq!(parsed[1].value, "dot");
    assert_eq!(parsed[2].key, "VAR+ALT");
    assert_eq!(parsed[2].value, "plus");
}

#[test]
fn permissive_mode_does_not_treat_quotes_in_keys_as_value_quotes() {
    let input = "A\"B=1\nC=2\n";
    let parsed =
        parse_str_with_mode(input, KeyParsingMode::Permissive).expect("parse should succeed");

    assert_eq!(parsed.len(), 2);
    assert_eq!(parsed[0].key, "A\"B");
    assert_eq!(parsed[0].value, "1");
    assert_eq!(parsed[1].key, "C");
    assert_eq!(parsed[1].value, "2");
}

#[test]
fn strict_mode_rejects_extended_key_names() {
    let input = "KEYS:CAN:HAVE_COLONS=1\n";
    let err =
        parse_str_with_mode(input, KeyParsingMode::Strict).expect_err("expected parse error");
    match err {
        Error::Parse(parse_err) => assert_eq!(parse_err.kind, ParseErrorKind::InvalidKey),
        other => panic!("unexpected error: {other:?}"),
    }
}

#[test]
fn permissive_mode_rejects_unicode_control_and_whitespace_in_keys() {
    for input in [
        "foö=1\n",
        "Πoo=1\n",
        "foo\x07=1\n",
        "bar\0=1\n",
        "baz zed=1\n",
    ] {
        let err = parse_str_with_mode(input, KeyParsingMode::Permissive)
            .expect_err("expected parse error");
        match err {
            Error::Parse(parse_err) => assert_eq!(parse_err.kind, ParseErrorKind::InvalidKey),
            other => panic!("unexpected error: {other:?}"),
        }
    }
}

#[test]
fn parse_reader_with_mode_supports_permissive_keys() {
    let reader = std::io::Cursor::new("KEY:ONE=1\n");
    let parsed = parse_reader_with_mode(reader, KeyParsingMode::Permissive)
        .expect("parse should succeed");
    assert_eq!(parsed[0].key, "KEY:ONE");
    assert_eq!(parsed[0].value, "1");
}
