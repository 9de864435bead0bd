use std::collections::BTreeMap;

use dotenvor::parse_str;

const NODE_BASIC: &str = "BASIC=basic\n\
\n\
# previous line intentionally left blank\n\
AFTER_LINE=after_line\n\
EMPTY=\n\
SINGLE_QUOTES='single_quotes'\n\
DOUBLE_QUOTES=\"double_quotes\"\n\
INLINE_COMMENT=value # inline comment\n\
QUOTED=\"hello world\"\n";

const GO_EXPORT: &str = "export EXPORTED=1\n\
export WITH_SPACES=\"a b c\"\n";

const NODE_MULTILINE: &str = "MULTI_DOUBLE_QUOTED=\"THIS\nIS\nA\nMULTILINE\nSTRING\"\n\
MULTI_SINGLE_QUOTED='THIS\nIS\nA\nMULTILINE\nSTRING'\n\
MULTI_BACKTICKED=`THIS\nIS\nA\n\"MULTILINE'S\"\nSTRING`\n\
MULTI_PEM_DOUBLE_QUOTED=\"-----BEGIN PUBLIC KEY-----\nLINE1\nLINE2\n-----END PUBLIC KEY-----\"\n\
AFTER=after_line\n";

#[test]
fn parses_node_style_fixture() {
    let entries = parse_str(NODE_BASIC).expect("fixture should parse");

    let map = to_map(entries);
    assert_eq!(map.get("BASIC").expect("BASIC"), "basic");
    assert_eq!(map.get("EMPTY").expect("EMPTY"), "");
    assert_eq!(map.get("INLINE_COMMENT").expect("INLINE_COMMENT"), "value");
    assert_eq!(map.get("QUOTED").expect("QUOTED"), "hello world");
}

#[test]
fn parses_godotenv_style_export_fixture() {
    let entries = parse_str(GO_EXPORT).expect("fixture should parse");

    let map = to_map(entries);
    assert_eq!(map.get("EXPORTED").expect("EXPORTED"), "1");
    assert_eq!(map.get("WITH_SPACES").expect("WITH_SPACES"), "a b c");
}

#[test]
fn parses_node_style_multiline_fixture() {
    let entries = parse_str(NODE_MULTILINE).expect("fixture should parse");

    let map = to_map(entries);
    assert_eq!(
        map.get("MULTI_DOUBLE_QUOTED").expect("MULTI_DOUBLE_QUOTED"),
        "THIS\nIS\nA\nMULTILINE\nSTRING"
    );
    assert_eq!(
        map.get("MULTI_SINGLE_QUOTED").expect("MULTI_SINGLE_QUOTED"),
        "THIS\nIS\nA\nMULTILINE\nSTRING"
    );
    assert_eq!(
        map.get("MULTI_BACKTICKED").expect("MULTI_BACKTICKED"),
        "THIS\nIS\nA\n\"MULTILINE'S\"\nSTRING"
    );
    assert_eq!(
        map.get("MULTI_PEM_DOUBLE_QUOTED")
            .expect("MULTI_PEM_DOUBLE_QUOTED"),
        "-----BEGIN PUBLIC KEY-----\nLINE1\nLINE2\n-----END PUBLIC KEY-----"
    );
    assert_eq!(map.get("AFTER").expect("AFTER"), "after_line");
}

fn to_map(entries: Vec<dotenvor::Entry>) -> BTreeMap<String, String> {
    entries
        .into_iter()
        .map(|entry| (entry.key, entry.value))
        .collect()
}
