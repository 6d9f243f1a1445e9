use frontend_analyzer::fix::{FixConfidence, PlannedFix, RenameMapping};
use frontend_analyzer::incident::{Incident, Variables};
use frontend_analyzer::js_fix::{
    bracket_depth, dedup_import_specifiers, deduplicate_import,
    get_matched_text_for_rename_from_incident, get_matched_text_from_incident, JsFixProvider,
};
use frontend_analyzer::json::Json;
use frontend_analyzer::text_map::TextMap;

/// Create a test Incident with just the fields the fix provider cares about.
fn make_test_incident(
    uri: &str,
    line: u32,
    variables: Variables,
) -> Incident {
    Incident {
        file_uri: uri.to_string(),
        line_number: Some(line),
        code_location: None,
        message: String::new(),
        code_snip: None,
        variables,
        effort: None,
        links: Vec::new(),
        is_dependency_incident: false,
    }
}

// ── should_skip_path tests ───────────────────────────────────────────

#[test]
fn test_skip_node_modules() {
    let provider = JsFixProvider::new();
    assert!(provider.should_skip_path("/project/node_modules/@patternfly/react-core/index.js"));
}

#[test]
fn test_skip_nested_node_modules() {
    let provider = JsFixProvider::new();
    assert!(
        provider.should_skip_path("/project/packages/app/node_modules/foo/bar.ts")
    );
}

#[test]
fn test_does_not_skip_src() {
    let provider = JsFixProvider::new();
    assert!(!provider.should_skip_path("/project/src/App.tsx"));
}

#[test]
fn test_does_not_skip_vendor() {
    let provider = JsFixProvider::new();
    assert!(!provider.should_skip_path("/project/src/vendor/lib.ts"));
}

// ── is_whole_file_rename tests ───────────────────────────────────────

#[test]
fn test_whole_file_rename_with_imported_name() {
    let provider = JsFixProvider::new();
    let mut vars = TextMap::new();
    vars.insert(
        "importedName".to_string(),
        Json::Str("Chip".to_string()),
    );
    let incident = make_test_incident("file:///test.tsx", 1, vars);
    assert!(provider.is_whole_file_rename(&incident));
}

#[test]
fn test_not_whole_file_rename_without_imported_name() {
    let provider = JsFixProvider::new();
    let mut vars = TextMap::new();
    vars.insert(
        "propName".to_string(),
        Json::Str("isActive".to_string()),
    );
    let incident = make_test_incident("file:///test.tsx", 1, vars);
    assert!(!provider.is_whole_file_rename(&incident));
}

// ── bracket_depth tests ──────────────────────────────────────────────

#[test]
fn test_bracket_depth_balanced() {
    assert_eq!(bracket_depth("{ foo: bar }"), 0);
    assert_eq!(bracket_depth("foo()"), 0);
    assert_eq!(bracket_depth("[1, 2, 3]"), 0);
    assert_eq!(bracket_depth("{ foo: [1, 2] }"), 0);
}

#[test]
fn test_bracket_depth_open() {
    assert_eq!(bracket_depth("actions={["), 2); // { and [
    assert_eq!(bracket_depth("  <Button"), 0);
    assert_eq!(bracket_depth("foo(bar, {"), 2); // ( and {
}

#[test]
fn test_bracket_depth_close() {
    assert_eq!(bracket_depth("]}"), -2);
    assert_eq!(bracket_depth(")"), -1);
}

#[test]
fn test_bracket_depth_nested() {
    assert_eq!(bracket_depth("{ a: { b: [1] } }"), 0);
    assert_eq!(bracket_depth("f(g(h(x)))"), 0);
}

#[test]
fn test_bracket_depth_ignores_string_literals() {
    assert_eq!(bracket_depth(r#"  foo="{not a bracket}""#), 0);
    assert_eq!(bracket_depth("  foo='[still not]'"), 0);
    assert_eq!(bracket_depth("  foo=`${`nested`}`"), 0);
}

#[test]
fn test_bracket_depth_empty() {
    assert_eq!(bracket_depth(""), 0);
    assert_eq!(bracket_depth("   just text   "), 0);
}

#[test]
fn test_bracket_depth_escaped_quotes() {
    // Escaped quote should not toggle string mode
    assert_eq!(bracket_depth(r#"  "escaped \" quote" "#), 0);
}

// ── dedup_import_specifiers tests ────────────────────────────────────

#[test]
fn test_dedup_import_no_duplicates() {
    let mut lines = vec!["import { Foo, Bar } from '@pkg';".to_string()];
    dedup_import_specifiers(&mut lines);
    assert!(lines[0].contains("Foo"));
    assert!(lines[0].contains("Bar"));
}

#[test]
fn test_dedup_import_removes_duplicates() {
    let mut lines =
        vec!["import { Content, Content, Content } from '@patternfly/react-core';".to_string()];
    dedup_import_specifiers(&mut lines);
    // Should contain exactly one "Content"
    let count = lines[0].matches("Content").count();
    assert_eq!(
        count, 1,
        "Expected 1 occurrence of Content, got {}: {}",
        count, lines[0]
    );
}

#[test]
fn test_dedup_import_preserves_different_specifiers() {
    let mut lines = vec!["import { Foo, Bar, Foo, Baz, Bar } from '@pkg';".to_string()];
    dedup_import_specifiers(&mut lines);
    assert_eq!(lines[0].matches("Foo").count(), 1);
    assert_eq!(lines[0].matches("Bar").count(), 1);
    assert_eq!(lines[0].matches("Baz").count(), 1);
}

#[test]
fn test_dedup_import_preserves_aliases() {
    let mut lines = vec!["import { Foo as F, Foo as F } from '@pkg';".to_string()];
    dedup_import_specifiers(&mut lines);
    assert_eq!(lines[0].matches("Foo as F").count(), 1);
}

#[test]
fn test_dedup_import_non_import_lines_unchanged() {
    let original = "const x = { Foo, Foo };".to_string();
    let mut lines = vec![original.clone()];
    dedup_import_specifiers(&mut lines);
    assert_eq!(lines[0], original);
}

// ── get_matched_text tests ───────────────────────────────────────────

#[test]
fn test_get_matched_text_prop_name_first() {
    let mut vars = TextMap::new();
    vars.insert(
        "propName".to_string(),
        Json::Str("isActive".to_string()),
    );
    vars.insert(
        "componentName".to_string(),
        Json::Str("Button".to_string()),
    );
    let incident = make_test_incident("file:///test.tsx", 1, vars);
    assert_eq!(get_matched_text_from_incident(&incident), "isActive");
}

#[test]
fn test_get_matched_text_component_name() {
    let mut vars = TextMap::new();
    vars.insert(
        "componentName".to_string(),
        Json::Str("Button".to_string()),
    );
    let incident = make_test_incident("", 1, vars);
    assert_eq!(get_matched_text_from_incident(&incident), "Button");
}

#[test]
fn test_get_matched_text_imported_name() {
    let mut vars = TextMap::new();
    vars.insert(
        "importedName".to_string(),
        Json::Str("Chip".to_string()),
    );
    let incident = make_test_incident("", 1, vars);
    assert_eq!(get_matched_text_from_incident(&incident), "Chip");
}

#[test]
fn test_get_matched_text_empty_when_no_known_vars() {
    let incident = make_test_incident("", 1, TextMap::new());
    assert_eq!(get_matched_text_from_incident(&incident), "");
}

#[test]
fn test_get_matched_text_ignores_non_string_values() {
    let mut vars = TextMap::new();
    vars.insert("propName".to_string(), Json::Bool(true));
    vars.insert(
        "componentName".to_string(),
        Json::Str("Fallback".to_string()),
    );
    let incident = make_test_incident("", 1, vars);
    assert_eq!(get_matched_text_from_incident(&incident), "Fallback");
}

// ── get_matched_text_for_rename tests ────────────────────────────────

#[test]
fn test_get_matched_text_for_rename_prefers_prop_name() {
    let mut vars = TextMap::new();
    vars.insert(
        "propName".into(),
        Json::Str("spaceItems".into()),
    );
    let incident = make_test_incident("file:///test.tsx", 1, vars);
    let mappings = vec![RenameMapping {
        old: "spaceItems".into(),
        new: "gap".into(),
    }];
    assert_eq!(
        get_matched_text_for_rename_from_incident(&incident, &mappings),
        "spaceItems"
    );
}

#[test]
fn test_get_matched_text_for_rename_falls_back_to_prop_value() {
    let mut vars = TextMap::new();
    vars.insert(
        "propName".into(),
        Json::Str("variant".into()),
    );
    vars.insert(
        "propValue".into(),
        Json::Str("light".into()),
    );
    let incident = make_test_incident("file:///test.tsx", 1, vars);
    let mappings = vec![RenameMapping {
        old: "light".into(),
        new: "secondary".into(),
    }];
    assert_eq!(
        get_matched_text_for_rename_from_incident(&incident, &mappings),
        "light"
    );
}

#[test]
fn test_get_matched_text_for_rename_checks_object_values() {
    let mut vars = TextMap::new();
    vars.insert("propName".into(), Json::Str("gap".into()));
    vars.insert(
        "propObjectValues".into(),
        Json::Array(vec![
            Json::Str("spaceItemsMd".into()),
            Json::Str("spaceItemsNone".into()),
        ]),
    );
    let incident = make_test_incident("file:///test.tsx", 1, vars);
    let mappings = vec![RenameMapping {
        old: "spaceItemsMd".into(),
        new: "gapMd".into(),
    }];
    assert_eq!(
        get_matched_text_for_rename_from_incident(&incident, &mappings),
        "spaceItemsMd"
    );
}

// ── post_process_lines integration test ──────────────────────────────

#[test]
fn test_post_process_deduplicates_imports() {
    let provider = JsFixProvider::new();
    let mut lines = vec![
        "import { Content, Content } from '@patternfly/react-core';".to_string(),
        "const x = 1;".to_string(),
    ];
    provider.post_process_lines(&mut lines);
    assert_eq!(lines[0].matches("Content").count(), 1);
    assert_eq!(lines[1], "const x = 1;");
}

#[test]
fn escaped_backslashes_end_no_string() {
    assert_eq!(bracket_depth(r#""\\" {"#), 1);
    assert_eq!(bracket_depth(r#""\" {"#), 0);
}

#[test]
fn imports_are_deduplicated_once() {
    let mut lines = vec![
        "import {A,B , A} from 'x';".to_string(),
        "import type { C, C } from 'y';".to_string(),
        "  import { D as E, D, D as E } from 'z';".to_string(),
    ];
    dedup_import_specifiers(&mut lines);
    assert_eq!(lines[0], "import { A, B } from 'x';");
    let once = lines.clone();
    dedup_import_specifiers(&mut lines);
    assert_eq!(lines, once);
}

#[test]
fn lists_of_imports_are_deduplicated_by_their_parts() {
    let line = deduplicate_import("import {", "A, B as C,A , B as C", "} from 'x';");
    assert_eq!(line, "import { A, B as C } from 'x';");
    assert_eq!(deduplicate_import("import {", " A, B as C ", "} from 'x';"), line);
}

// ── Removal of props ─────────────────────────────────────────────────

fn removal(content: &str, line: u32, prop: &str) -> PlannedFix {
    let mut variables: Variables = TextMap::new();
    variables.insert("propName".to_string(), Json::Str(prop.to_string()));
    let found = make_test_incident("file:///p/a.tsx", line, variables);
    JsFixProvider::new()
        .plan_remove_attribute("r", &found, Some(&content.to_string()))
        .expect("a fix is planned")
}

/// The lines that are removed as a whole.
fn removed_lines(content: &str, line: u32, prop: &str) -> Vec<u32> {
    let lines: Vec<&str> = content.lines().collect();
    let fix = removal(content, line, prop);
    assert_eq!(fix.confidence, FixConfidence::High, "{}", fix.description);
    for edit in &fix.edits {
        assert_eq!(edit.old_text, lines[edit.line as usize - 1]);
        assert_eq!(edit.new_text, "");
    }
    fix.edits.iter().map(|e| e.line).collect()
}

#[test]
fn elements_as_values_are_removed() {
    assert_eq!(removed_lines("<Foo\n  icon=<Icon />\n/>\n", 2, "icon"), vec![2]);
    let content = "<Foo\n  icon=<Icon a={\n    1\n  } />\n/>\n";
    assert_eq!(removed_lines(content, 2, "icon"), vec![2, 3, 4]);
    assert_eq!(removal(content, 2, "icon").description, "Remove prop 'icon' (3 lines)");
    let content = "<Foo\n  icon=<b>\n    Don't\n    {x > 1 ? <i /> : null}\n  </b>\n  id=\"1\"\n/>\n";
    assert_eq!(removed_lines(content, 2, "icon"), vec![2, 3, 4, 5]);
    let content = "<Foo\n  icon=<>\n    <b title=\"a>b\" />\n  </>\n/>\n";
    assert_eq!(removed_lines(content, 2, "icon"), vec![2, 3, 4]);
    let content = "<Foo\n  icon=<List<Item> of={all} />\n/>\n";
    assert_eq!(removed_lines(content, 2, "icon"), vec![2]);
}

#[test]
fn props_behind_an_element_are_kept() {
    let fix = removal("<Foo\n  icon=<Icon a=\"/>\" /> id=\"1\"\n/>\n", 2, "icon");
    assert_eq!(fix.edits.len(), 1);
    assert_eq!(fix.edits[0].old_text, "icon=<Icon a=\"/>\" /> ");
    let fix = removal("<Foo\n  icon=<b>\n    x\n  </b> id=\"1\"\n/>\n", 2, "icon");
    assert_eq!(fix.edits.len(), 3);
    assert_eq!(fix.edits[2].old_text, "  </b> ");
    let fix = removal("<Foo id=\"1\" icon=<Icon a={1} /> b />\n", 1, "icon");
    assert_eq!(fix.edits[0].old_text, " icon=<Icon a={1} />");
}

#[test]
fn expressions_of_several_lines_are_removed() {
    let content = "<Foo\n  actions={[\n    <Button key=\"a\">b</Button>,\n  ]}\n/>\n";
    assert_eq!(removed_lines(content, 2, "actions"), vec![2, 3, 4]);
    let content = "const p = {\n  a: b ? {\n    c: 1,\n  } : {\n    c: 2,\n  },\n  d: 3,\n};\n";
    assert_eq!(removed_lines(content, 2, "a"), vec![2, 3, 4, 5, 6]);
    let content = "const p = {\n  a(x) {\n    return x;\n  },\n  d: 3,\n};\n";
    assert_eq!(removed_lines(content, 2, "a"), vec![2, 3, 4]);
    let content = "interface P {\n  a?: string;\n  b: string;\n}\n";
    assert_eq!(removed_lines(content, 2, "a"), vec![2]);
    let content = "<Foo\n  title=\"one\n    two\"\n  id=\"1\"\n/>\n";
    assert_eq!(removed_lines(content, 2, "title"), vec![2, 3]);
}

#[test]
fn comments_behind_a_prop_are_removed_with_it() {
    let content = "const p = {\n  a: 1, // it's one\n  b: 2 // it's two\n};\n";
    assert_eq!(removed_lines(content, 2, "a"), vec![2]);
    assert_eq!(removed_lines(content, 3, "b"), vec![3]);
    let content = "<Foo\n  a={[\n    1,\n  ]} // it's one\n/>\n";
    assert_eq!(removed_lines(content, 2, "a"), vec![2, 3, 4]);
    assert_eq!(removed_lines("<Foo\n  a // on\n/>\n", 2, "a"), vec![2]);
}

#[test]
fn props_without_an_end_are_left_to_review() {
    for content in ["<Foo\n  a={[\n    1\n", "<Foo\n  a=<Icon\n", "<Foo\n  a=<b>\n    c\n"] {
        let fix = removal(content, 2, "a");
        assert!(fix.edits.is_empty());
        assert_eq!(fix.confidence, FixConfidence::Low);
        assert_eq!(fix.description, "Remove prop 'a' (unbalanced brackets, manual)");
    }
    let fix = removal("<Foo a={[\n  1\n]} />\n", 1, "a");
    assert!(fix.edits.is_empty());
    assert_eq!(fix.description, "Remove prop 'a' (multi-line inline, manual)");
}
