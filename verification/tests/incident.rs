use frontend_analyzer::incident::{extract_code_snip, position_of, Incident, Location, Position};
use frontend_analyzer::json::{parse_json, Json};
use frontend_analyzer::text::{
    byte_len_of, decimal_text, join_texts, lines_text, replace_all_text, slice_bytes, split_text,
    trimmed,
};
use frontend_analyzer::text_map::{PathMap, TextMap};
use frontend_analyzer::yaml::{parse_yaml, Yaml};

#[test]
fn snippets_number_the_lines_around() {
    let source = "a\nb\nc\nd\ne\n";
    assert_eq!(extract_code_snip(source, 3, 1), "2  b\n3  c\n4  d\n");
    assert_eq!(extract_code_snip(source, 1, 1), "1  a\n2  b\n");
    let long: String = (1..=11).map(|n| format!("l{}\n", n)).collect();
    assert_eq!(extract_code_snip(&long, 10, 1), " 9  l9\n10  l10\n11  l11\n");
}

#[test]
fn positions_count_lines_and_bytes() {
    let source = "ab\n\u{e9}x\n";
    assert_eq!(position_of(source, 0), Position { line: 0, character: 0 });
    assert_eq!(position_of(source, 3), Position { line: 1, character: 0 });
    assert_eq!(position_of(source, 5), Position { line: 1, character: 2 });
}

#[test]
fn incidents_are_built_up() {
    let at = Position { line: 1, character: 2 };
    let incident = Incident::new("file:///a".to_string(), 2, Location { start: at, end: at })
        .with_code_snip("snip".to_string())
        .with_variable("k", Json::Bool(true));
    assert_eq!(incident.file_uri, "file:///a");
    assert_eq!(incident.line_number, Some(2));
    assert_eq!(incident.code_snip, Some("snip".to_string()));
    assert_eq!(incident.variables.get("k"), Some(&Json::Bool(true)));
    assert!(!incident.is_dependency_incident);
}

#[test]
fn json_is_read_in_order() {
    let j = parse_json("{\"b\": [1, 2.50, null], \"a\": {\"x\": \"y\"}, \"b2\": false}").unwrap();
    let entries = j.as_object().unwrap();
    assert_eq!(
        j.get("b"),
        Some(&Json::Array(vec![
            Json::Number("1".to_string()),
            Json::Number("2.50".to_string()),
            Json::Null
        ]))
    );
    assert_eq!(entries.len(), 3);
    assert_eq!(j.get("a").and_then(|a| a.get_str("x")), Some("y"));
    assert_eq!(j.get("b2"), Some(&Json::Bool(false)));
    assert!(parse_json("{").is_none());
    assert!(parse_json("").is_none());
}

#[test]
fn yaml_is_read() {
    let y = parse_yaml("a: 1\nb:\n  - x\n  - true\nc: !t z\n").unwrap();
    assert_eq!(y.get("a").and_then(|v| v.scalar()).map(|s| s.as_str()), Some("1"));
    match y.get("b") {
        Some(Yaml::Sequence(v)) => {
            assert!(matches!(&v[0], Yaml::Str(s) if s == "x"));
            assert!(matches!(v[1], Yaml::Bool(true)));
        }
        other => panic!("expected a sequence, got {:?}", other),
    }
    assert!(matches!(y.get("c"), Some(Yaml::Tagged(_))));
    assert_eq!(y.get("c").unwrap().as_str(), Some("z"));
    assert!(parse_yaml("a: [1").is_none());
}

#[test]
fn maps_stand_in_key_order() {
    let mut m: TextMap<u8> = TextMap::new();
    m.insert("b".to_string(), 1);
    m.insert("a".to_string(), 2);
    m.insert("b".to_string(), 3);
    assert_eq!(m.len(), 2);
    assert_eq!(m.key_at(0), "a");
    assert_eq!(*m.value_at(1), 3);
    assert_eq!(m.remove("a"), Some(2));
    assert_eq!(m.remove("a"), None);
    let mut paths: PathMap<u8> = PathMap::new();
    paths.insert("/a-b/c".to_string(), 1);
    paths.insert("/a/c".to_string(), 2);
    assert_eq!(paths.key_at(0), "/a/c");
    let mut texts: TextMap<u8> = TextMap::new();
    texts.insert("/a-b/c".to_string(), 1);
    texts.insert("/a/c".to_string(), 2);
    assert_eq!(texts.key_at(0), "/a-b/c");
}

#[test]
fn texts_are_cut_and_joined() {
    assert_eq!(trimmed(" \u{2003}a b\t"), "a b");
    assert_eq!(split_text("a,,b", ','), vec!["a", "", "b"]);
    assert_eq!(split_text("", ','), vec![""]);
    assert_eq!(lines_text("a\r\nb\n\nc"), vec!["a", "b", "", "c"]);
    assert!(lines_text("").is_empty());
    assert_eq!(join_texts(&vec!["a".to_string(), "b".to_string()], ", "), "a, b");
    assert_eq!(replace_all_text("aXbXc", "X", "--"), "a--b--c");
    assert_eq!(replace_all_text("ab", "", "-"), "-a-b-");
    assert_eq!(decimal_text(1234567890), "1234567890");
    assert_eq!(byte_len_of("\u{e9}a"), 3);
    assert_eq!(slice_bytes("\u{e9}a", 2, 3), Some("a".to_string()));
    assert_eq!(slice_bytes("\u{e9}a", 1, 3), None);
}
