use frontend_analyzer::classnames::scan_classname_usage;
use frontend_analyzer::estree::parse_program;
use frontend_analyzer::incident::Incident;
use frontend_analyzer::json::Json;
use regex::Regex;

fn scan_source(source: &str, pattern: &str) -> Vec<Incident> {
    let program = parse_program(source).unwrap();
    let re = Regex::new(pattern).unwrap();
    program
        .body
        .iter()
        .flat_map(|stmt| scan_classname_usage(stmt, source, &re, "file:///test.tsx"))
        .collect()
}

#[test]
fn class_names_are_found_in_attributes() {
    let found = scan_source("const a = <div className=\"x pf-v5-c-button\">y</div>;", "pf-v5-");
    assert_eq!(found.len(), 1);
    assert_eq!(found[0].line_number, Some(1));
    assert!(matches!(found[0].variables.get("matchingText"), Some(Json::Str(s)) if s.contains("pf-v5-c-button")));
}

#[test]
fn class_names_are_found_in_nested_elements() {
    let source = "const a = <ul>\n  <li className=\"pf-v5-u-mb\" />\n</ul>;\n";
    let found = scan_source(source, "pf-v5-");
    assert_eq!(found.len(), 1);
    assert_eq!(found[0].line_number, Some(2));
    assert!(scan_source(source, "pf-v6-").is_empty());
}

#[test]
fn class_names_are_found_in_template_literals() {
    let found = scan_source("const a = cx(`pf-v5-u-mb ${x} other`);", "pf-v5-");
    assert_eq!(found.len(), 1);
    assert_eq!(
        found[0].variables.get("matchingText"),
        Some(&Json::Str("pf-v5-u-mb ".to_string()))
    );
}

#[test]
fn class_names_are_found_in_expressions_of_attributes() {
    let source = "const a = <div className={styles.foo}><b className={on ? 'foo-a' : `foo-b`} /><i id={styles.foo} /></div>;";
    let found = scan_source(source, "^foo");
    let texts: Vec<_> = found
        .iter()
        .map(|i| match i.variables.get("matchingText") {
            Some(Json::Str(s)) => s.clone(),
            other => panic!("expected a text, got {:?}", other),
        })
        .collect();
    assert_eq!(texts, vec!["foo", "foo-a", "foo-b"]);
}
