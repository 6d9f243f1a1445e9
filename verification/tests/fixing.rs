use frontend_analyzer::apply::{apply_fixes, preview_fixes};
use frontend_analyzer::engine::{plan_fixes, Sources};
use frontend_analyzer::fix::{
    FixConfidence, FixPlan, FixSource, FixStrategy, LlmFixRequest, PlannedFix, RenameMapping,
    Strategies, TextEdit,
};
use frontend_analyzer::incident::{Incident, Variables};
use frontend_analyzer::js_fix::JsFixProvider;
use frontend_analyzer::json::Json;
use frontend_analyzer::llm::{
    build_openai_plan_request, build_user_prompt, fixes_from_reply, DEFAULT_MODEL,
};
use frontend_analyzer::paths::spell_path;
use frontend_analyzer::ruleset::{RuleSet, Violation};
use frontend_analyzer::text_map::{PathMap, TextMap};

fn map<V, const N: usize>(entries: [(&str, V); N]) -> TextMap<V> {
    let mut m = TextMap::new();
    for (key, value) in entries {
        m.insert(key.to_string(), value);
    }
    m
}

fn incident(path: &str, line: u32, variables: Variables) -> Incident {
    Incident {
        file_uri: format!("file://{}", path),
        line_number: Some(line),
        code_location: None,
        message: "message".to_string(),
        code_snip: None,
        variables,
        effort: None,
        links: Vec::new(),
        is_dependency_incident: false,
    }
}

fn ruleset(rule_id: &str, labels: &[&str], incidents: Vec<Incident>) -> Vec<RuleSet> {
    vec![RuleSet {
        name: "set".to_string(),
        description: String::new(),
        tags: Vec::new(),
        violations: map([(
            rule_id,
            Violation {
                description: String::new(),
                category: None,
                labels: labels.iter().map(|l| l.to_string()).collect(),
                incidents,
                links: Vec::new(),
                effort: None,
            },
        )]),
        insights: TextMap::new(),
        errors: TextMap::new(),
        unmatched: Vec::new(),
        skipped: Vec::new(),
    }]
}

fn sources(path: &str, content: &str) -> Sources {
    let mut m = PathMap::new();
    m.insert(path.to_string(), Ok(content.to_string()));
    m
}

fn fix(path: &str, content: &str, output: &[RuleSet], strategies: &Strategies) -> (FixPlan, String) {
    let lang = JsFixProvider::new();
    let s = sources(path, content);
    let output: &Vec<RuleSet> = &output.iter().map(copy).collect();
    let plan = plan_fixes(output, "/p", strategies, &lang, &s);
    let (result, writes) = apply_fixes(&plan, &lang, &s);
    assert!(result.errors.is_empty());
    assert_eq!(result.files_modified, writes.len());
    let text = writes.into_iter().next().map_or(content.to_string(), |w| w.content);
    (plan, text)
}

fn copy(rs: &RuleSet) -> RuleSet {
    let mut violations = TextMap::new();
    for i in 0..rs.violations.len() {
        let v = rs.violations.value_at(i);
        violations.insert(
            rs.violations.key_at(i).clone(),
            Violation {
                description: v.description.clone(),
                category: v.category,
                labels: v.labels.clone(),
                incidents: v
                    .incidents
                    .iter()
                    .map(frontend_analyzer::incident::copy_incident)
                    .collect(),
                links: Vec::new(),
                effort: v.effort,
            },
        );
    }
    RuleSet {
        name: rs.name.clone(),
        description: rs.description.clone(),
        tags: Vec::new(),
        violations,
        insights: TextMap::new(),
        errors: TextMap::new(),
        unmatched: Vec::new(),
        skipped: Vec::new(),
    }
}

#[test]
fn imported_names_are_renamed_throughout_the_file() {
    let content = "import { Chip } from '@patternfly/react-core';\nconst a = <Chip>\n  x</Chip>;\n";
    let strategies = map([(
        "r",
        FixStrategy::Rename(vec![RenameMapping {
            old: "Chip".to_string(),
            new: "Label".to_string(),
        }]),
    )]);
    let found = incident("/p/a.tsx", 1, map([("importedName", Json::Str("Chip".to_string()))]));
    let (_, text) = fix("/p/a.tsx", content, &ruleset("r", &[], vec![found]), &strategies);
    assert_eq!(
        text,
        "import { Label } from '@patternfly/react-core';\nconst a = <Label>\n  x</Label>;\n"
    );
}

#[test]
fn import_paths_are_changed() {
    let content = "import { Chip } from '@patternfly/react-core/deprecated';\n";
    let strategies = map([(
        "r",
        FixStrategy::ImportPathChange {
            old_path: "@patternfly/react-core/deprecated".to_string(),
            new_path: "@patternfly/react-core".to_string(),
        },
    )]);
    let found = incident("/p/a.tsx", 1, TextMap::new());
    let (_, text) = fix("/p/a.tsx", content, &ruleset("r", &[], vec![found]), &strategies);
    assert_eq!(text, "import { Chip } from '@patternfly/react-core';\n");
}

#[test]
fn dependencies_are_updated() {
    let content = "{\n  \"dependencies\": {\n    \"@patternfly/react-core\": \"^5.1.0\"\n  }\n}\n";
    let strategies = map([(
        "r",
        FixStrategy::UpdateDependency {
            package: "@patternfly/react-core".to_string(),
            new_version: "^6.0.0".to_string(),
        },
    )]);
    let found = incident("/p/package.json", 3, TextMap::new());
    let (_, text) = fix("/p/package.json", content, &ruleset("r", &[], vec![found]), &strategies);
    assert!(text.contains("\"@patternfly/react-core\": \"^6.0.0\""));
}

#[test]
fn removed_props_are_cut_out() {
    let content = "const a = <Button isActive variant=\"x\">y</Button>;\n";
    let found = incident("/p/a.tsx", 1, map([("propName", Json::Str("isActive".to_string()))]));
    let (_, text) = fix(
        "/p/a.tsx",
        content,
        &ruleset("r", &["change-type=prop-removal"], vec![found]),
        &TextMap::new(),
    );
    assert_eq!(text, "const a = <Button variant=\"x\">y</Button>;\n");
}

#[test]
fn rules_without_a_strategy_go_to_the_language_model() {
    let found = incident("/p/a.tsx", 1, TextMap::new());
    let (plan, text) = fix("/p/a.tsx", "x\n", &ruleset("r", &[], vec![found]), &TextMap::new());
    assert_eq!(plan.pending_llm.len(), 1);
    assert!(plan.manual.is_empty());
    assert_eq!(text, "x\n");
    let found = incident("/p/a.tsx", 1, TextMap::new());
    let (plan, _) = fix("/p/a.tsx", "x\n", &ruleset("r", &["change-type=behavioral"], vec![found]), &TextMap::new());
    assert_eq!(plan.manual.len(), 1);
    assert!(plan.pending_llm.is_empty());
}

#[test]
fn previews_show_a_unified_diff() {
    let content = "a\nb\nc\n";
    let mut plan = FixPlan::default();
    plan.files.insert(
        "/p/a.tsx".to_string(),
        vec![PlannedFix {
            edits: vec![TextEdit {
                line: 2,
                old_text: "b".to_string(),
                new_text: "B".to_string(),
                rule_id: "r".to_string(),
                description: String::new(),
                replace_all: false,
            }],
            confidence: FixConfidence::Exact,
            source: FixSource::Pattern,
            rule_id: "r".to_string(),
            file_uri: "file:///p/a.tsx".to_string(),
            line: 2,
            description: String::new(),
        }],
    );
    let diff = preview_fixes(&plan, &JsFixProvider::new(), &sources("/p/a.tsx", content));
    assert!(diff.contains("-b\n"));
    assert!(diff.contains("+B\n"));
    assert!(diff.contains("@@"));
    // Previews change nothing.
    let (result, writes) = apply_fixes(&plan, &JsFixProvider::new(), &sources("/p/a.tsx", content));
    assert_eq!(result.edits_applied, 1);
    assert_eq!(writes[0].content, "a\nB\nc\n");
}

#[test]
fn unreadable_files_are_reported() {
    let mut plan = FixPlan::default();
    plan.files.insert("/p/gone.tsx".to_string(), Vec::new());
    let mut s: Sources = PathMap::new();
    s.insert("/p/gone.tsx".to_string(), Err("no such file".to_string()));
    let (result, writes) = apply_fixes(&plan, &JsFixProvider::new(), &s);
    assert!(writes.is_empty());
    assert_eq!(result.errors, vec!["/p/gone.tsx: no such file"]);
}

fn request(source: Option<&str>) -> LlmFixRequest {
    LlmFixRequest {
        rule_id: "r".to_string(),
        file_uri: "file:///p/a.tsx".to_string(),
        file_path: "/p/a.tsx".to_string(),
        line: 7,
        message: "Do it".to_string(),
        code_snip: Some("7  x".to_string()),
        source: source.map(|s| s.to_string()),
        labels: Vec::new(),
    }
}

#[test]
fn requests_quote_the_file() {
    let prompt = build_user_prompt(&request(None), "content");
    assert!(prompt.starts_with("File: /p/a.tsx\nLine: 7\n"));
    assert!(prompt.contains("Do it"));
    assert!(prompt.contains("content"));
    let gone = Err("no such file".to_string());
    assert_eq!(
        build_openai_plan_request(&request(None), "s", &gone).unwrap_err(),
        "no such file"
    );
    let held = build_openai_plan_request(&request(Some("held")), "s", &gone).unwrap();
    assert_eq!(held.model, DEFAULT_MODEL);
    assert!(held.user_prompt.contains("held"));
    assert_eq!(
        held.request_json.get("temperature"),
        Some(&Json::Number("0.0".to_string()))
    );
}

#[test]
fn replies_become_fixes() {
    let reply = "```fix\nLINE:7\nOLD:x\nNEW:y\n```\n".to_string();
    let fixes = fixes_from_reply(&request(None), &vec![reply]);
    assert_eq!(fixes.len(), 1);
    assert_eq!(fixes[0].source, FixSource::Llm);
    assert_eq!(fixes[0].edits[0].line, 7);
    assert_eq!(fixes[0].edits[0].rule_id, "r");
    assert!(fixes_from_reply(&request(None), &Vec::new()).is_empty());
}

#[test]
fn strategies_are_resolved_in_order() {
    let content = "const a = 1;\n";
    let found = || vec![incident("/p/a.tsx", 1, TextMap::new())];
    let labels = ["change-type=behavioral"];

    let given = map([("r", FixStrategy::Llm)]);
    let (plan, _) = fix("/p/a.tsx", content, &ruleset("r", &labels, found()), &given);
    assert_eq!((plan.pending_llm.len(), plan.manual.len()), (1, 0));

    let (plan, _) = fix("/p/a.tsx", content, &ruleset("r", &labels, found()), &TextMap::new());
    assert_eq!((plan.pending_llm.len(), plan.manual.len()), (0, 1));

    let (plan, _) = fix("/p/a.tsx", content, &ruleset("r", &["x"], found()), &TextMap::new());
    assert_eq!((plan.pending_llm.len(), plan.manual.len()), (1, 0));
}

fn renames(pairs: &[(&str, &str)]) -> Strategies {
    let mappings = pairs
        .iter()
        .map(|(old, new)| RenameMapping { old: old.to_string(), new: new.to_string() })
        .collect();
    map([("r", FixStrategy::Rename(mappings))])
}

#[test]
fn fixes_are_planned_bottom_up() {
    let content = "<Chip a />\n<Chip b />\n<Chip c />\n";
    let matched = || map([("propName", Json::Str("Chip".to_string()))]);
    let found = vec![
        incident("/p/a.tsx", 1, matched()),
        incident("/p/a.tsx", 3, matched()),
        incident("/p/a.tsx", 2, matched()),
    ];
    let strategies = renames(&[("Chip", "Label")]);
    let (plan, text) = fix("/p/a.tsx", content, &ruleset("r", &[], found), &strategies);
    let lines: Vec<u32> = plan.files.value_at(0).iter().map(|f| f.line).collect();
    assert_eq!(lines, vec![3, 2, 1]);
    assert_eq!(text, "<Label a />\n<Label b />\n<Label c />\n");
}

#[test]
fn longer_names_come_before_shorter_ones() {
    let content = "import { ChipGroup } from 'x';\n";
    let found = incident("/p/a.tsx", 1, map([("importedName", Json::Str("ChipGroup".to_string()))]));
    let strategies = renames(&[("Chip", "Label"), ("ChipGroup", "LabelGroup")]);
    let (plan, text) = fix("/p/a.tsx", content, &ruleset("r", &[], vec![found]), &strategies);
    let edits = &plan.files.value_at(0)[0].edits;
    assert_eq!(edits.len(), 1);
    assert_eq!(edits[0].old_text, "ChipGroup");
    assert_eq!(text, "import { LabelGroup } from 'x';\n");
}

fn plan_of_edits(path: &str, edits: &[(u32, &str, &str)]) -> FixPlan {
    let edits = edits
        .iter()
        .map(|(line, old, new)| TextEdit {
            line: *line,
            old_text: old.to_string(),
            new_text: new.to_string(),
            rule_id: "r".to_string(),
            description: "d".to_string(),
            replace_all: false,
        })
        .collect();
    let fix = PlannedFix {
        edits,
        confidence: FixConfidence::Exact,
        source: FixSource::Pattern,
        rule_id: "r".to_string(),
        file_uri: format!("file://{}", path),
        line: 1,
        description: "d".to_string(),
    };
    let mut files = PathMap::new();
    files.insert(path.to_string(), vec![fix]);
    FixPlan { files, manual: Vec::new(), pending_llm: Vec::new() }
}

#[test]
fn previews_are_empty_where_nothing_applies() {
    let lang = JsFixProvider::new();
    let s = sources("/p/a.ts", "one\ntwo\n");
    let plan = plan_of_edits("/p/a.ts", &[(1, "two", "2"), (9, "one", "1"), (1, "two", "2")]);
    assert_eq!(preview_fixes(&plan, &lang, &s), "");
    let (result, writes) = apply_fixes(&plan, &lang, &s);
    assert!(writes.is_empty());
    assert_eq!((result.edits_applied, result.edits_skipped), (0, 2));
}

#[test]
fn previews_show_what_is_applied() {
    let lang = JsFixProvider::new();
    let s = sources("/p/a.ts", "one\ntwo\n");
    let plan = plan_of_edits("/p/a.ts", &[(1, "one", "1"), (2, "two", "2")]);
    let preview = preview_fixes(&plan, &lang, &s);
    assert!(preview.contains("+1\n"));
    assert!(preview.contains("+2\n"));
    let (_, writes) = apply_fixes(&plan, &lang, &s);
    assert_eq!(writes.len(), 1);
    assert_eq!(writes[0].path, "/p/a.ts");
    assert_eq!(writes[0].content, "1\n2\n");
}

#[test]
fn files_outside_the_plan_are_not_written() {
    let lang = JsFixProvider::new();
    let mut s = sources("/p/a.ts", "one\n");
    s.insert("/p/b.ts".to_string(), Ok("one\n".to_string()));
    let (_, writes) = apply_fixes(&plan_of_edits("/p/b.ts", &[(1, "one", "1")]), &lang, &s);
    let paths: Vec<&str> = writes.iter().map(|w| w.path.as_str()).collect();
    assert_eq!(paths, vec!["/p/b.ts"]);
}

fn without_prop(content: &str, line: u32, prop: &str) -> String {
    let found = incident("/p/a.tsx", line, map([("propName", Json::Str(prop.to_string()))]));
    let (_, text) = fix(
        "/p/a.tsx",
        content,
        &ruleset("r", &["change-type=prop-removal"], vec![found]),
        &TextMap::new(),
    );
    text
}

#[test]
fn other_props_on_the_line_are_kept() {
    assert_eq!(
        without_prop("<Button\n  isActive onClick={go}\n/>\n", 2, "isActive"),
        "<Button\n  onClick={go}\n/>\n"
    );
    assert_eq!(
        without_prop("<Button\n  isActive={on} onClick={go}\n/>\n", 2, "isActive"),
        "<Button\n  onClick={go}\n/>\n"
    );
    assert_eq!(
        without_prop("<Button\n  label=\"a > b\" onClick={go}\n/>\n", 2, "label"),
        "<Button\n  onClick={go}\n/>\n"
    );
}

#[test]
fn members_of_objects_are_removed() {
    assert_eq!(
        without_prop("const p = {\n  isActive: true, id: 1,\n};\n", 2, "isActive"),
        "const p = {\n  id: 1,\n};\n"
    );
    assert_eq!(
        without_prop("const p = { id: 1, isActive: f(1, 2) };\n", 1, "isActive"),
        "const p = { id: 1, };\n"
    );
}

#[test]
fn longer_names_are_no_match() {
    let content = "<Button\n  isActiveFoo={on}\n/>\n";
    assert_eq!(without_prop(content, 2, "isActive"), content);
    let content = "<Button isActiveFoo={on} isActive />\n";
    assert_eq!(without_prop(content, 1, "isActive"), "<Button isActiveFoo={on} />\n");
}

#[test]
fn the_last_line_keeps_what_is_not_the_props() {
    let content = "<Button\n  actions={[\n    a,\n  ]} onClick={go}\n/>\n";
    let text = without_prop(content, 2, "actions");
    assert!(text.contains("onClick={go}"), "{}", text);
    assert!(!text.contains("actions"), "{}", text);
    assert!(!text.contains("a,"), "{}", text);
}

#[test]
fn repeated_edits_are_previewed_as_they_are_applied() {
    let lang = JsFixProvider::new();
    let s = sources("/p/a.ts", "a a\n");
    let plan = plan_of_edits("/p/a.ts", &[(1, "a", "b"), (1, "a", "b")]);
    let preview = preview_fixes(&plan, &lang, &s);
    assert!(preview.contains("+b a\n"), "{}", preview);
    let (result, writes) = apply_fixes(&plan, &lang, &s);
    assert_eq!(writes[0].content, "b a\n");
    assert_eq!(result.edits_applied, 1);
}

#[test]
fn spellings_of_one_path_are_one_file() {
    let incidents = vec![
        incident("/p/a.tsx", 1, TextMap::new()),
        incident("/p//a.tsx", 2, TextMap::new()),
        incident("/p/./a.tsx", 3, TextMap::new()),
    ];
    let (plan, _) = fix("/p/a.tsx", "x\ny\nz\n", &ruleset("r", &[], incidents), &TextMap::new());
    let paths: Vec<&str> = plan.pending_llm.iter().map(|r| r.file_path.as_str()).collect();
    assert_eq!(paths, vec!["/p/a.tsx", "/p/a.tsx", "/p/a.tsx"]);
}

#[test]
fn paths_have_one_spelling() {
    assert_eq!(spell_path("/p//a/./b/"), "/p/a/b");
    assert_eq!(spell_path("./a"), "./a");
    assert_eq!(spell_path("a/../b"), "a/../b");
    assert_eq!(spell_path("//"), "/");
    assert_eq!(spell_path(""), "");
    assert_eq!(spell_path(&spell_path("/p//a/./b/")), "/p/a/b");
}

#[test]
fn previews_show_each_line_that_is_added() {
    let lang = JsFixProvider::new();
    let s = sources("/p/a.ts", "a\nb\nc\nd\ne\nf\n");
    let plan = plan_of_edits("/p/a.ts", &[(1, "a", "x\ny"), (6, "f", "z")]);
    let preview = preview_fixes(&plan, &lang, &s);
    assert!(preview.contains("@@ -1,4 +1,5 @@\n-a\n+x\n+y\n b\n"), "{}", preview);
    assert!(preview.contains("@@ -3,4 +4,4 @@\n c\n d\n e\n-f\n+z\n"), "{}", preview);
    let (_, writes) = apply_fixes(&plan, &lang, &s);
    assert_eq!(writes[0].content, "x\ny\nb\nc\nd\ne\nz\n");
}
