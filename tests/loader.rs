use std::collections::BTreeMap;

use dotenvor::{
    convention_paths, EnvLoader, Error, FileRead, KeyParsingMode, ParseErrorKind, SourceFile,
    SubstitutionMode, TargetEnv,
};

fn file(path: &str, text: &str) -> SourceFile {
    SourceFile {
        path: path.to_string(),
        read: FileRead::Contents(text.as_bytes().to_vec()),
    }
}

fn missing(path: &str) -> SourceFile {
    SourceFile {
        path: path.to_string(),
        read: FileRead::Missing(std::io::Error::new(std::io::ErrorKind::NotFound, "missing")),
    }
}

#[test]
fn logging_disabled_by_default() {
    let loader = EnvLoader::new();
    assert!(!loader.logging_enabled());
    assert!(loader.required);
    assert!(!loader.search_upward);
    assert!(loader.target_env().as_memory().is_some());
}

#[test]
fn verbose_enables_logging() {
    let loader = EnvLoader::new().verbose(true);
    assert!(loader.logging_enabled());
}

#[test]
fn quiet_overrides_verbose() {
    let loader = EnvLoader::new().verbose(true).quiet(true);
    assert!(!loader.logging_enabled());
}

#[test]
fn search_upward_builder_sets_flag() {
    let loader = EnvLoader::new().search_upward(true);
    assert!(loader.search_upward);
}

#[test]
fn required_builder_sets_flag() {
    let loader = EnvLoader::new().required(false);
    assert!(!loader.required);
}

#[test]
fn key_parsing_mode_builder_sets_flag() {
    let loader = EnvLoader::new().key_parsing_mode(KeyParsingMode::Permissive);
    assert_eq!(loader.key_parsing_mode, KeyParsingMode::Permissive);
}

#[test]
fn convention_builder_sets_common_stack_paths() {
    let loader = EnvLoader::new().convention("development");
    assert_eq!(
        loader.paths,
        vec![
            ".env".to_string(),
            ".env.development".to_string(),
            ".env.local".to_string(),
            ".env.development.local".to_string(),
        ]
    );
}

#[test]
fn convention_builder_handles_blank_environment_name() {
    let loader = EnvLoader::new().convention("   ");
    assert_eq!(
        loader.paths,
        vec![".env".to_string(), ".env.local".to_string()]
    );
}

#[test]
fn convention_paths_avoid_duplicates() {
    assert_eq!(
        convention_paths("local"),
        vec![
            ".env".to_string(),
            ".env.local".to_string(),
            ".env.local.local".to_string(),
        ]
    );
}

#[test]
fn effective_paths_default_to_dotenv() {
    assert_eq!(EnvLoader::new().effective_paths(), vec![".env".to_string()]);
    let loader = EnvLoader::new().path("a.env").paths(vec!["b.env".to_string()]);
    assert_eq!(
        loader.effective_paths(),
        vec!["a.env".to_string(), "b.env".to_string()]
    );
}

#[test]
fn override_existing_false_skips_existing_values() {
    let mut initial = BTreeMap::new();
    initial.insert("A".to_string(), "existing".to_string());

    let mut loader = EnvLoader::new()
        .target(TargetEnv::from_memory(initial))
        .override_existing(false);

    let report = loader
        .load(vec![file(".env", "A=from_file\nB=2\n")])
        .expect("load should succeed");
    assert_eq!(report.files_read, 1);
    assert_eq!(report.loaded, 1);
    assert_eq!(report.skipped_existing, 1);

    let map = loader.target_env().as_memory().expect("memory target");
    assert_eq!(map.get("A").expect("A should exist"), "existing");
    assert_eq!(map.get("B").expect("B should exist"), "2");
}

#[test]
fn override_existing_true_replaces_values() {
    let mut initial = BTreeMap::new();
    initial.insert("A".to_string(), "existing".to_string());

    let mut loader = EnvLoader::new()
        .target(TargetEnv::from_memory(initial))
        .override_existing(true);

    let report = loader
        .load(vec![file(".env", "A=from_file\n")])
        .expect("load should succeed");
    assert_eq!(report.loaded, 1);
    assert_eq!(report.skipped_existing, 0);

    let map = loader.target_env().as_memory().expect("memory target");
    assert_eq!(map.get("A").expect("A should exist"), "from_file");
}

#[test]
fn multi_file_load_uses_last_file_precedence() {
    let mut loader = EnvLoader::new().target(TargetEnv::memory());

    let report = loader
        .load(vec![
            file(".env.base", "A=base\nB=base\n"),
            file(".env.local", "B=local\nC=local\n"),
        ])
        .expect("load should succeed");
    assert_eq!(report.files_read, 2);
    assert_eq!(report.loaded, 3);
    assert_eq!(report.skipped_existing, 0);

    let map = loader.target_env().as_memory().expect("memory target");
    assert_eq!(map.get("A").expect("A should exist"), "base");
    assert_eq!(map.get("B").expect("B should exist"), "local");
    assert_eq!(map.get("C").expect("C should exist"), "local");
}

#[test]
fn missing_file_returns_io_error() {
    let mut loader = EnvLoader::new();
    let err = loader.load(vec![missing("missing.env")]).expect_err("missing file");
    assert!(matches!(err, Error::Io(_)));
}

#[test]
fn missing_file_is_skipped_when_not_required() {
    let mut loader = EnvLoader::new().required(false);
    let report = loader
        .load(vec![missing("missing.env"), file(".env.real", "A=1\n")])
        .expect("load should succeed");
    assert_eq!(report.files_read, 1);
    assert_eq!(report.loaded, 1);
}

#[test]
fn failed_read_is_an_error_even_when_not_required() {
    let mut loader = EnvLoader::new().required(false);
    let failed = SourceFile {
        path: ".env".to_string(),
        read: FileRead::Failed(std::io::Error::new(std::io::ErrorKind::Other, "denied")),
    };
    assert!(matches!(loader.load(vec![failed]), Err(Error::Io(_))));
}

#[test]
fn malformed_file_returns_parse_error() {
    let mut loader = EnvLoader::new();
    let err = loader
        .load(vec![file(".env", "A=1\nBROKEN\n")])
        .expect_err("parse error");
    match err {
        Error::Parse(e) => {
            assert_eq!(e.kind, ParseErrorKind::InvalidSyntax);
            assert_eq!(e.line, 2);
            assert_eq!(e.column, 7);
        }
        other => panic!("unexpected error: {other:?}"),
    }
    let map = loader.target_env().as_memory().expect("memory target");
    assert!(map.is_empty());
}

#[test]
fn invalid_utf8_file_returns_encoding_error() {
    let mut loader = EnvLoader::new();
    let bad = SourceFile {
        path: ".env".to_string(),
        read: FileRead::Contents(vec![b'A', b'=', 0xff, b'\n']),
    };
    assert!(matches!(loader.load(vec![bad]), Err(Error::InvalidEncoding(_))));
}

#[test]
fn latin1_encoding_maps_bytes_to_code_points() {
    let mut loader = EnvLoader::new().encoding(dotenvor::Encoding::Latin1);
    let latin = SourceFile {
        path: ".env".to_string(),
        read: FileRead::Contents(vec![b'A', b'=', 0xe9, b'\n']),
    };
    loader.load(vec![latin]).expect("load should succeed");
    let map = loader.target_env().as_memory().expect("memory target");
    assert_eq!(map.get("A").expect("A"), "é");
}

#[test]
fn parse_only_records_sources_and_leaves_target_alone() {
    let loader = EnvLoader::new();
    let entries = loader
        .parse_only(vec![file("one.env", "A=1\n"), file("two.env", "B=2\nA=3\n")])
        .expect("parse should succeed");
    assert_eq!(entries.len(), 2);
    assert_eq!(entries[0].key, "A");
    assert_eq!(entries[0].value, "3");
    assert_eq!(entries[0].source.as_deref(), Some("two.env"));
    assert_eq!(entries[0].line, 2);
    assert_eq!(entries[1].key, "B");
    assert_eq!(entries[1].source.as_deref(), Some("two.env"));
    assert!(loader.target_env().as_memory().expect("memory").is_empty());
}

fn expand_loader(mode: KeyParsingMode) -> EnvLoader {
    EnvLoader::new()
        .target(TargetEnv::memory())
        .key_parsing_mode(mode)
        .substitution_mode(SubstitutionMode::Expand)
}

#[test]
fn strict_key_mode_rejects_extended_key_names() {
    let mut loader = EnvLoader::new().key_parsing_mode(KeyParsingMode::Strict);
    let err = loader
        .load(vec![file(".env", "KEYS:CAN:HAVE_COLONS=1\n")])
        .expect_err("parse error");
    match err {
        Error::Parse(parse_err) => assert_eq!(parse_err.kind, ParseErrorKind::InvalidKey),
        other => panic!("unexpected error: {other:?}"),
    }
}

#[test]
fn permissive_key_mode_loads_extended_keys_and_substitutions() {
    let mut loader = expand_loader(KeyParsingMode::Permissive);
    let report = loader
        .load(vec![file(
            ".env",
            "KEY:ONE=one\nKEY:TWO=${KEY:ONE}11\n%TEMP%=/tmp\n",
        )])
        .expect("load should succeed");
    assert_eq!(report.loaded, 3);
    assert_eq!(report.skipped_existing, 0);

    let map = loader.target_env().as_memory().expect("memory target");
    assert_eq!(map.get("KEY:ONE").expect("KEY:ONE should exist"), "one");
    assert_eq!(map.get("KEY:TWO").expect("KEY:TWO should exist"), "one11");
    assert_eq!(map.get("%TEMP%").expect("%TEMP% should exist"), "/tmp");
}

#[test]
fn substitution_expands_chained_and_forward_references() {
    let mut loader = expand_loader(KeyParsingMode::Strict);
    let report = loader
        .load(vec![file(".env", "A=$B\nB=${C}\nC=value\n")])
        .expect("load should succeed");
    assert_eq!(report.loaded, 3);
    assert_eq!(report.skipped_existing, 0);

    let map = loader.target_env().as_memory().expect("memory target");
    assert_eq!(map.get("A").expect("A should exist"), "value");
    assert_eq!(map.get("B").expect("B should exist"), "value");
    assert_eq!(map.get("C").expect("C should exist"), "value");
}

#[test]
fn substitution_uses_target_environment_for_missing_values() {
    let mut initial = BTreeMap::new();
    initial.insert("BASE".to_string(), "/opt/app".to_string());
    let mut loader = EnvLoader::new()
        .target(TargetEnv::from_memory(initial))
        .substitution_mode(SubstitutionMode::Expand);

    loader
        .load(vec![file(".env", "OUT=${BASE}/bin\n")])
        .expect("load should succeed");

    let map = loader.target_env().as_memory().expect("memory target");
    assert_eq!(map.get("OUT").expect("OUT should exist"), "/opt/app/bin");
}

#[test]
fn substitution_respects_override_existing_false() {
    let mut initial = BTreeMap::new();
    initial.insert("A".to_string(), "existing".to_string());
    let mut loader = EnvLoader::new()
        .target(TargetEnv::from_memory(initial))
        .override_existing(false)
        .substitution_mode(SubstitutionMode::Expand);

    let report = loader
        .load(vec![file(".env", "A=file\nB=${A}\n")])
        .expect("load should succeed");
    assert_eq!(report.loaded, 1);
    assert_eq!(report.skipped_existing, 1);

    let map = loader.target_env().as_memory().expect("memory target");
    assert_eq!(map.get("A").expect("A should exist"), "existing");
    assert_eq!(map.get("B").expect("B should exist"), "existing");
}

#[test]
fn substitution_preserves_unknown_placeholders() {
    let mut loader = expand_loader(KeyParsingMode::Strict);
    loader
        .load(vec![file(".env", "A=prefix-${MISSING}-$OTHER-suffix\n")])
        .expect("load should succeed");

    let map = loader.target_env().as_memory().expect("memory target");
    assert_eq!(
        map.get("A").expect("A should exist"),
        "prefix-${MISSING}-$OTHER-suffix"
    );
}

#[test]
fn substitution_expands_permissive_placeholders_with_punctuation_keys() {
    let mut loader = expand_loader(KeyParsingMode::Permissive);
    let report = loader
        .load(vec![file(
            ".env",
            "KEY:ONE=one\n%TEMP%=/tmp\nOUT_COLON=${KEY:ONE}11\nOUT_PERCENT=${%TEMP%}/cache\n",
        )])
        .expect("load should succeed");
    assert_eq!(report.loaded, 4);
    assert_eq!(report.skipped_existing, 0);

    let map = loader.target_env().as_memory().expect("memory target");
    assert_eq!(map.get("OUT_COLON").expect("OUT_COLON should exist"), "one11");
    assert_eq!(
        map.get("OUT_PERCENT").expect("OUT_PERCENT should exist"),
        "/tmp/cache"
    );
}

#[test]
fn substitution_expands_colon_minus_defaults_in_strict_mode() {
    let mut loader = expand_loader(KeyParsingMode::Strict);
    loader
        .load(vec![file(
            ".env",
            "SET=from_file\n\
             EMPTY=\n\
             COLON_MINUS=${SET:-fallback}\n\
             EMPTY_COLON_MINUS=${EMPTY:-fallback}\n\
             MINUS=${SET-fallback}\n\
             COLON_PLUS=${SET:+alt}\n\
             PLUS=${SET+alt}\n\
             COLON_Q=${SET:?err}\n\
             Q=${SET?err}\n\
             MISSING_COLON_MINUS=${MISSING:-fallback}\n\
             MISSING_MINUS=${MISSING-fallback}\n\
             COMPOSITE=pre-${MISSING:-fallback}-post\n",
        )])
        .expect("load should succeed");

    let map = loader.target_env().as_memory().expect("memory target");
    assert_eq!(map.get("SET").expect("SET should exist"), "from_file");
    assert_eq!(map.get("EMPTY").expect("EMPTY should exist"), "");
    assert_eq!(map.get("COLON_MINUS").expect("COLON_MINUS"), "from_file");
    assert_eq!(
        map.get("EMPTY_COLON_MINUS").expect("EMPTY_COLON_MINUS"),
        "fallback"
    );
    assert_eq!(map.get("MINUS").expect("MINUS"), "${SET-fallback}");
    assert_eq!(map.get("COLON_PLUS").expect("COLON_PLUS"), "${SET:+alt}");
    assert_eq!(map.get("PLUS").expect("PLUS"), "${SET+alt}");
    assert_eq!(map.get("COLON_Q").expect("COLON_Q"), "${SET:?err}");
    assert_eq!(map.get("Q").expect("Q"), "${SET?err}");
    assert_eq!(
        map.get("MISSING_COLON_MINUS").expect("MISSING_COLON_MINUS"),
        "fallback"
    );
    assert_eq!(
        map.get("MISSING_MINUS").expect("MISSING_MINUS"),
        "${MISSING-fallback}"
    );
    assert_eq!(
        map.get("COMPOSITE").expect("COMPOSITE"),
        "pre-fallback-post"
    );
}

#[test]
fn substitution_resolves_modifier_shaped_keys_in_permissive_mode() {
    let mut loader = expand_loader(KeyParsingMode::Permissive);
    loader
        .load(vec![file(
            ".env",
            "VAR:-default=colon_minus\n\
             VAR-default=minus\n\
             VAR:+alt=colon_plus\n\
             VAR+alt=plus\n\
             VAR:?err=colon_question\n\
             VAR?err=question\n\
             OUT1=${VAR:-default}\n\
             OUT2=${VAR-default}\n\
             OUT3=${VAR:+alt}\n\
             OUT4=${VAR+alt}\n\
             OUT5=${VAR:?err}\n\
             OUT6=${VAR?err}\n",
        )])
        .expect("load should succeed");

    let map = loader.target_env().as_memory().expect("memory target");
    assert_eq!(map.get("OUT1").expect("OUT1"), "colon_minus");
    assert_eq!(map.get("OUT2").expect("OUT2"), "minus");
    assert_eq!(map.get("OUT3").expect("OUT3"), "colon_plus");
    assert_eq!(map.get("OUT4").expect("OUT4"), "plus");
    assert_eq!(map.get("OUT5").expect("OUT5"), "colon_question");
    assert_eq!(map.get("OUT6").expect("OUT6"), "question");
}

#[test]
fn substitution_respects_literal_dollar_in_single_quotes_and_backslash_escapes() {
    let mut loader = expand_loader(KeyParsingMode::Strict);
    loader
        .load(vec![file(
            ".env",
            "BASE=from_file\n\
             SINGLE='${BASE}'\n\
             DOUBLE=\"${BASE}\"\n\
             UNQUOTED=${BASE}\n\
             ESCAPED_UNQUOTED=\\${BASE}\n\
             ESCAPED_DOUBLE=\"\\${BASE}\"\n\
             ESCAPED_SIMPLE=\\$BASE\n",
        )])
        .expect("load should succeed");

    let map = loader.target_env().as_memory().expect("memory target");
    assert_eq!(map.get("SINGLE").expect("SINGLE"), "${BASE}");
    assert_eq!(map.get("DOUBLE").expect("DOUBLE"), "from_file");
    assert_eq!(map.get("UNQUOTED").expect("UNQUOTED"), "from_file");
    assert_eq!(map.get("ESCAPED_UNQUOTED").expect("ESCAPED_UNQUOTED"), "${BASE}");
    assert_eq!(map.get("ESCAPED_DOUBLE").expect("ESCAPED_DOUBLE"), "${BASE}");
    assert_eq!(map.get("ESCAPED_SIMPLE").expect("ESCAPED_SIMPLE"), "$BASE");
}
