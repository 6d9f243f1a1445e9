use frontend_analyzer::css::{
    is_css_file, is_skipped_css_dir, path_to_uri, scan_css_file_classes, scan_css_file_vars,
    scan_css_selectors, scan_scss_classes,
};
use frontend_analyzer::css_math::remove_math;
use frontend_analyzer::incident::Incident;
use frontend_analyzer::json::Json;
use regex::Regex;

fn scan(css: &str, pattern: &str) -> Vec<Incident> {
    let re = Regex::new(pattern).unwrap();
    scan_css_selectors(css, "file:///project/test.css", &re).expect("CSS should parse")
}

#[test]
fn test_single_line_selector() {
    let css = ".container .pf-v5-c-button { color: red; }\n";
    let incidents = scan(css, "pf-v5-");
    assert_eq!(incidents.len(), 1);
    assert_eq!(
        incidents[0].variables.get("className"),
        Some(&Json::Str("pf-v5-c-button".to_string()))
    );
    assert_eq!(incidents[0].line_number, Some(1));
}

#[test]
fn test_multi_line_selector_correct_line_number() {
    // Bug: classes on continuation lines got the rule's start line
    let css = ".container\n  .pf-v5-c-file-upload\n  .pf-v5-c-code-editor__main\n  .pf-v5-c-code-editor__code {\n  height: 100%;\n}\n";
    let incidents = scan(css, "pf-v5-");
    assert_eq!(incidents.len(), 3, "Should find 3 pf-v5 classes");

    // Each class should report its ACTUAL line, not the rule start (line 1)
    let lines: Vec<u32> = incidents.iter().map(|i| i.line_number.unwrap()).collect();
    assert!(
        lines.contains(&2),
        "pf-v5-c-file-upload should be on line 2, got {:?}",
        lines
    );
    assert!(
        lines.contains(&3),
        "pf-v5-c-code-editor__main should be on line 3, got {:?}",
        lines
    );
    assert!(
        lines.contains(&4),
        "pf-v5-c-code-editor__code should be on line 4, got {:?}",
        lines
    );
}

#[test]
fn test_negation_pseudo_class() {
    // Bug: classes inside :not() were not detected
    let css = ".container > :not(.pf-v5-c-tabs) {\n  flex-grow: 1;\n}\n";
    let incidents = scan(css, "pf-v5-");
    assert_eq!(
        incidents.len(),
        1,
        "Should find pf-v5 inside :not() pseudo-class"
    );
    assert_eq!(
        incidents[0].variables.get("className"),
        Some(&Json::Str("pf-v5-c-tabs".to_string()))
    );
}

#[test]
fn test_is_pseudo_class() {
    let css = ":is(.pf-v5-c-button, .pf-v5-c-link) { color: blue; }\n";
    let incidents = scan(css, "pf-v5-");
    assert_eq!(incidents.len(), 2, "Should find both classes inside :is()");
}

#[test]
fn test_nested_negation_in_multi_line() {
    let css = ".drawer-tabs-container\n  > :not(.pf-v5-c-tabs) {\n  flex-grow: 1;\n}\n";
    let incidents = scan(css, "pf-v5-");
    assert_eq!(incidents.len(), 1);
    // The class should be reported on line 2 where :not(.pf-v5-c-tabs) appears
    assert_eq!(incidents[0].line_number, Some(2));
}

#[test]
fn test_media_query_nested() {
    let css = "@media (min-width: 768px) {\n  .pf-v5-c-page {\n    padding: 0;\n  }\n}\n";
    let incidents = scan(css, "pf-v5-");
    assert_eq!(incidents.len(), 1);
}

// ── Line by line ──────────────────────────────────────────────────────

#[test]
fn classes_of_preprocessed_sheets_are_found_by_line() {
    let re = Regex::new("pf-v5-[a-z-]+").unwrap();
    let source = ".a {\n  .pf-v5-c-button { color: red; }\n}\n";
    let found = scan_scss_classes(source, "file:///p/a.scss", &re).unwrap();
    assert_eq!(found.len(), 1);
    assert_eq!(found[0].line_number, Some(2));
    assert_eq!(
        found[0].variables.get("className"),
        Some(&Json::Str("pf-v5-c-button".to_string()))
    );
}

#[test]
fn custom_properties_are_found_by_line() {
    let re = Regex::new("--pf-v5-[a-zA-Z-]+").unwrap();
    let found = scan_css_file_vars(
        "src/a.css",
        "/p",
        ".a { color: var(--pf-v5-x); margin: var(--pf-v5-y); }\n.b { }\n",
        &re,
    );
    // At most one for each line.
    assert_eq!(found.len(), 1);
    assert_eq!(found[0].file_uri, "file:///p/src/a.css");
    assert!(scan_css_file_vars("src/a.ts", "/p", "--pf-v5-x", &re).is_empty());
}

#[test]
fn unsearchable_sheets_are_errors() {
    let bad = Regex::new("|").unwrap();
    assert!(scan_scss_classes("a\n", "file:///p/a.scss", &bad).is_err());
    let fine = Regex::new("a").unwrap();
    assert!(scan_css_file_classes("a.txt", "/p", ".a", &fine).unwrap().is_empty());
}

#[test]
fn stylesheets_are_told_by_their_extension() {
    assert!(is_css_file("/p/a.css", None));
    assert!(is_css_file("/p/a.sass", None));
    assert!(!is_css_file("/p/a.tsx", None));
    let re = Regex::new("theme").unwrap();
    assert!(!is_css_file("/p/a.css", Some(&re)));
    assert!(is_skipped_css_dir("node_modules"));
    assert!(!is_skipped_css_dir("src"));
    assert_eq!(path_to_uri("src/a.css", "/p"), "file:///p/src/a.css");
    assert_eq!(path_to_uri("/q/a.css", "/p"), "file:///q/a.css");
}

// ── Math functions ────────────────────────────────────────────────────

#[test]
fn math_functions_do_not_hinder_a_search() {
    for css in [
        "a { font-stretch: calc(1) }\n.pf-v5-x { }\n",
        "a { text-size-adjust: calc(1) }\n.pf-v5-x { }\n",
        "a { width: CALC(\n1px + (2px)); }.pf-v5-x { }\n",
        "@media (min-width: calc(1px * 2)) { a { }\n.pf-v5-x { } }\n",
        "a { --b: \"calc(\"; /* min( */ background: url(min\\)();\n }.pf-v5-x { }\n",
        "a { width: \\63 alc(1); }\n.pf-v5-x { }\n",
        "a { font-stretch: calc(1; }\n.pf-v5-x { }\n",
    ] {
        let incidents = scan(css, "pf-v5-");
        assert_eq!(incidents.len(), 1, "{}", css);
        assert_eq!(incidents[0].line_number, Some(2), "{}", css);
    }
}

#[test]
fn math_functions_are_replaced_by_zeros() {
    assert_eq!(remove_math("a{b:c(d)}").as_deref(), Some("a{b:c(d)}"));
    assert_eq!(
        remove_math("a { b: calc(1px + max(2px, 3px)) c; }").as_deref(),
        Some(format!("a {{ b: 0{} c; }}", " ".repeat(24)).as_str())
    );
    assert_eq!(remove_math("Min(1,\n2)-x").as_deref(), Some("0     \n  -x"));
    assert_eq!(remove_math("-calc(1) x-min(2) 3max(4)").as_deref(), Some("-calc(1) x-min(2) 3max(4)"));
    assert_eq!(remove_math("'calc(1)' \"\\\r\nmin(\" /*calc(*/").as_deref(), Some("'calc(1)' \"\\\r\nmin(\" /*calc(*/"));
    assert_eq!(remove_math("url(calc(1) min(2)").as_deref(), Some("url(calc(1) 0     "));
    assert_eq!(remove_math("#url(calc(1))").as_deref(), Some("#url(0      )"));
    assert_eq!(remove_math("<!--calc(1)").as_deref(), Some("<!--0      "));
    assert_eq!(remove_math("calc(1"), None);
    assert_eq!(remove_math("ca\\6c c(1)"), None);
}
