use frontend_analyzer::capabilities::{ReferenceLocation, ReferencedCondition};
use frontend_analyzer::estree::parse_program;
use frontend_analyzer::function_calls::scan_function_calls;
use frontend_analyzer::incident::Incident;
use frontend_analyzer::json::Json;
use frontend_analyzer::references::{scan_program_referenced, ReferenceQuery};
use regex::Regex;

fn scan_source(source: &str, pattern: &str) -> Vec<Incident> {
    let program = parse_program(source).unwrap();
    let re = Regex::new(pattern).unwrap();
    scan_function_calls(&program.calls, source, &re, "file:///test.tsx")
}

fn names(incidents: &[Incident]) -> Vec<String> {
    incidents
        .iter()
        .map(|i| match i.variables.get("functionName") {
            Some(Json::Str(name)) => name.clone(),
            other => panic!("expected a name, got {:?}", other),
        })
        .collect()
}

#[test]
fn functions_and_hooks_are_found() {
    let source = "import { useState } from 'react';\nconst [a, setA] = useState(0);\nfoo();\n";
    let found = scan_source(source, "^use");
    assert_eq!(names(&found), vec!["useState"]);
    assert_eq!(found[0].line_number, Some(2));
    assert_eq!(found[0].file_uri, "file:///test.tsx");
    assert_eq!(names(&scan_source(source, ".")), vec!["useState", "foo"]);
}

#[test]
fn members_are_named_with_what_they_belong_to() {
    let source = "React.useState(0);\nthis.props.onChange(1);\na[0].go();\nx?.y();\n(f)();\nnew Map();\n";
    assert_eq!(
        names(&scan_source(source, ".")),
        vec!["React.useState", "this.props.onChange", "go", "x.y", "f"]
    );
}

#[test]
fn calls_are_found_wherever_they_stand() {
    let source = "async function run() {\n  if (a()) { await b(); } else { x = c() + 1; }\n  for (const i of d()) { e(); }\n  return <P onClick={() => f(g())}>{h()}</P>;\n}\n";
    assert_eq!(
        names(&scan_source(source, ".")),
        vec!["a", "b", "c", "d", "e", "f", "g", "h"]
    );
}

fn condition(location: Option<ReferenceLocation>) -> ReferencedCondition {
    ReferencedCondition {
        pattern: "^Button$".to_string(),
        location,
        component: None,
        parent: None,
        parent_from: None,
        value: None,
        from: None,
        file_pattern: None,
    }
}

#[test]
fn references_count_calls() {
    let source = "import { Button } from 'lib';\nconst a = <Button />;\nButton();\ntype T = Button;\n";
    let program = parse_program(source).unwrap();
    let find = |location| {
        let query = ReferenceQuery::new(&condition(location)).unwrap();
        let found = scan_program_referenced(&program, source, "file:///test.tsx", &query);
        found.iter().map(|i| i.line_number.unwrap()).collect::<Vec<u32>>()
    };
    assert_eq!(find(Some(ReferenceLocation::FunctionCall)), vec![3]);
    assert_eq!(find(None), vec![1, 2, 3, 4]);
}

#[test]
fn surrogates_in_strings_are_spelt_out() {
    let source = "const s = '\\ud83d pf-v5';\nconst raw = '\\\\ud83d';\nfoo(s);\n";
    let program = parse_program(source).expect("a program");
    assert_eq!(program.body.len(), 3);
    assert_eq!(program.calls[0].name, "foo");
    let shown = format!("{:?}", program.body[0]);
    assert!(shown.contains("StringLiteral(\"\u{FFFD}d83d pf-v5\")"), "{}", shown);
    // A string with a surrogate spells out the replacement character too.
    let mixed = parse_program("a = ['\\ud83d\u{FFFD}', '\u{FFFD}'];\nb('\\ude00\u{FFFD}');\n").unwrap();
    let shown = format!("{:?}", mixed.body[1]);
    assert!(shown.contains("StringLiteral(\"\u{FFFD}de00\u{FFFD}fffd\")"), "{}", shown);
    let shown = format!("{:?}", program.body[1]);
    assert!(shown.contains("StringLiteral(\"\\\\ud83d\")"), "{}", shown);
}
