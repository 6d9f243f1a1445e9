use frontend_analyzer::fix::LlmFixRequest;
use frontend_analyzer::goose::{
    batch_by_file, build_batch_prompt_with_context, build_goose_plan_batches,
    extract_text_from_goose_json, fix_priority_by_id, merge_by_rule_id, message_count,
    rules_display, session_steps, GooseAction, GooseEvent, GooseRun,
};
use frontend_analyzer::json::parse_json;

fn make_req(rule_id: &str) -> LlmFixRequest {
    make_req_at_line(rule_id, 1, None)
}

fn make_req_at_line(rule_id: &str, line: u32, code_snip: Option<&str>) -> LlmFixRequest {
    LlmFixRequest {
        file_path: "/tmp/test.tsx".to_string(),
        file_uri: "file:///tmp/test.tsx".to_string(),
        line,
        rule_id: rule_id.to_string(),
        message: format!("Migration for {}", rule_id),
        code_snip: code_snip.map(|s| s.to_string()),
        source: None,
        labels: Vec::new(),
    }
}

#[test]
fn test_fix_priority_structural_first() {
    assert_eq!(
        fix_priority_by_id("semver-modal-component-import-deprecated"),
        1
    );
    assert_eq!(
        fix_priority_by_id("semver-composition-button-children-to-icon-prop"),
        2
    );
    assert_eq!(
        fix_priority_by_id("semver-packages-react-core-modalprops-title-removed"),
        3
    );
    assert_eq!(
        fix_priority_by_id("semver-packages-react-core-button-tsx-button-behavioral"),
        4
    );
    assert_eq!(
        fix_priority_by_id("conformance-dropdown-expected-children"),
        5
    );
}

#[test]
fn test_fix_priority_hierarchy_is_highest() {
    assert_eq!(
        fix_priority_by_id("semver-hierarchy-modal-composition-changed"),
        0
    );
}

#[test]
fn test_fix_priority_sorting_order() {
    let mut ids = vec![
        "conformance-dropdown-expected-children",
        "semver-packages-react-core-button-behavioral",
        "semver-modal-component-import-deprecated",
        "semver-composition-button-children-to-icon-prop",
        "semver-packages-react-core-modalprops-title-removed",
        "semver-hierarchy-emptystate-composition-changed",
        "conformance-toolbar-expected-children",
        "semver-packages-react-core-dom-structure",
    ];

    ids.sort_by(|a, b| fix_priority_by_id(a).cmp(&fix_priority_by_id(b)));

    // Hierarchy (0) and component-import-deprecated (1) come first
    assert!(ids[0].contains("component-import-deprecated") || ids[0].contains("hierarchy-"));
    assert!(ids[1].contains("component-import-deprecated") || ids[1].contains("hierarchy-"));

    // Conformance (5) comes last
    assert!(ids[ids.len() - 1].starts_with("conformance-"));
    assert!(ids[ids.len() - 2].starts_with("conformance-"));
}

#[test]
fn test_fix_priority_dom_and_css_are_informational() {
    assert_eq!(fix_priority_by_id("semver-foo-dom-structure"), 4);
    assert_eq!(fix_priority_by_id("semver-foo-css-class"), 4);
    assert_eq!(fix_priority_by_id("semver-foo-css-variable"), 4);
    assert_eq!(fix_priority_by_id("semver-foo-accessibility"), 4);
    assert_eq!(fix_priority_by_id("semver-foo-logic-change"), 4);
    assert_eq!(fix_priority_by_id("semver-foo-render-output"), 4);
}

#[test]
fn test_fix_priority_prop_level_changes() {
    assert_eq!(fix_priority_by_id("semver-foo-removed"), 3);
    assert_eq!(fix_priority_by_id("semver-foo-renamed"), 3);
    assert_eq!(fix_priority_by_id("semver-foo-type-changed"), 3);
    assert_eq!(fix_priority_by_id("semver-foo-signature-changed"), 3);
    assert_eq!(fix_priority_by_id("semver-foo-prop-value-change"), 3);
}

#[test]
fn test_fix_priority_unknown_defaults_to_prop_level() {
    assert_eq!(fix_priority_by_id("semver-something-unknown"), 3);
}

// ── merge_by_rule_id tests ───────────────────────────────────────────

#[test]
fn test_merge_by_rule_id_no_duplicates() {
    let reqs = vec![make_req("rule-a"), make_req("rule-b"), make_req("rule-c")];
    let merged = merge_by_rule_id(&reqs);

    assert_eq!(merged.len(), 3);
    assert_eq!(merged[0].rule_id, "rule-a");
    assert_eq!(merged[1].rule_id, "rule-b");
    assert_eq!(merged[2].rule_id, "rule-c");
    assert_eq!(merged[0].lines, vec![1]);
    assert_eq!(merged[1].lines, vec![1]);
    assert_eq!(merged[2].lines, vec![1]);
}

#[test]
fn test_merge_by_rule_id_combines_same_rule() {
    let reqs = vec![
        make_req_at_line("rule-a", 7, Some("line 7 code")),
        make_req_at_line("rule-b", 10, None),
        make_req_at_line("rule-a", 152, Some("line 152 code")),
    ];
    let merged = merge_by_rule_id(&reqs);

    assert_eq!(merged.len(), 2);
    // rule-a appears first (first occurrence)
    assert_eq!(merged[0].rule_id, "rule-a");
    assert_eq!(merged[0].lines, vec![7, 152]);
    assert_eq!(merged[0].code_snips.len(), 2);
    assert_eq!(merged[0].code_snips[0], (7, "line 7 code".to_string()));
    assert_eq!(merged[0].code_snips[1], (152, "line 152 code".to_string()));
    // rule-b is second
    assert_eq!(merged[1].rule_id, "rule-b");
    assert_eq!(merged[1].lines, vec![10]);
}

#[test]
fn test_merge_preserves_insertion_order() {
    // Simulate the order after priority sort: hierarchy first, then
    // composition, then prop-level, then conformance.
    let reqs = vec![
        make_req_at_line("semver-hierarchy-modal-composition-changed", 9, None),
        make_req_at_line("semver-hierarchy-emptystate-composition-changed", 6, None),
        make_req_at_line("semver-composition-button-children-to-icon-prop", 139, None),
        make_req_at_line(
            "semver-composition-emptystateheader-nesting-changed",
            152,
            None,
        ),
        make_req_at_line(
            "semver-emptystateheader-component-import-deprecated",
            7,
            None,
        ),
        make_req_at_line(
            "semver-composition-emptystateheader-nesting-changed",
            7,
            None,
        ), // dup at different line
        make_req_at_line("conformance-table-expected-children", 14, None),
    ];
    let merged = merge_by_rule_id(&reqs);

    // 6 unique rules (emptystateheader-nesting-changed merges two lines)
    assert_eq!(merged.len(), 6);
    // Verify order matches insertion (priority) order
    assert_eq!(
        merged[0].rule_id,
        "semver-hierarchy-modal-composition-changed"
    );
    assert_eq!(
        merged[1].rule_id,
        "semver-hierarchy-emptystate-composition-changed"
    );
    assert_eq!(
        merged[2].rule_id,
        "semver-composition-button-children-to-icon-prop"
    );
    assert_eq!(
        merged[3].rule_id,
        "semver-composition-emptystateheader-nesting-changed"
    );
    assert_eq!(merged[3].lines, vec![152, 7]); // both lines preserved
    assert_eq!(
        merged[4].rule_id,
        "semver-emptystateheader-component-import-deprecated"
    );
    assert_eq!(merged[5].rule_id, "conformance-table-expected-children");
}

#[test]
fn test_merge_then_sort_produces_correct_prompt_order() {
    // This is the key test: simulates the exact scenario from the bug.
    // The input is unsorted (as it comes from kantra violations).
    // After merge + sort, hierarchy rules must be FIRST, not buried
    // at Fix 7/8 like the BTreeMap bug caused.
    let reqs = vec![
        make_req_at_line("semver-composition-button-children-to-icon-prop", 139, None),
        make_req_at_line("semver-composition-button-nesting-changed", 139, None),
        make_req_at_line(
            "semver-composition-emptystateheader-nesting-changed",
            152,
            None,
        ),
        make_req_at_line(
            "semver-composition-emptystateicon-nesting-changed",
            152,
            None,
        ),
        make_req_at_line(
            "semver-emptystateheader-component-import-deprecated",
            7,
            None,
        ),
        make_req_at_line("semver-emptystateicon-component-import-deprecated", 8, None),
        make_req_at_line("semver-hierarchy-emptystate-composition-changed", 6, None),
        make_req_at_line("semver-hierarchy-modal-composition-changed", 9, None),
    ];

    // Step 1: merge by rule_id (preserves insertion order)
    let mut merged = merge_by_rule_id(&reqs);

    // Step 2: sort by priority (hierarchy=0 first, conformance=5 last)
    merged.sort_by(|a, b| fix_priority_by_id(&a.rule_id).cmp(&fix_priority_by_id(&b.rule_id)));

    // Hierarchy rules (priority 0) must be first
    assert_eq!(
        merged[0].rule_id,
        "semver-hierarchy-emptystate-composition-changed"
    );
    assert_eq!(
        merged[1].rule_id,
        "semver-hierarchy-modal-composition-changed"
    );

    // Component-import-deprecated (priority 1) next
    assert_eq!(
        merged[2].rule_id,
        "semver-emptystateheader-component-import-deprecated"
    );
    assert_eq!(
        merged[3].rule_id,
        "semver-emptystateicon-component-import-deprecated"
    );

    // Composition (priority 2) after that
    assert!(merged[4].rule_id.contains("composition"));
    assert!(merged[5].rule_id.contains("composition"));
    assert!(merged[6].rule_id.contains("composition"));
    assert!(merged[7].rule_id.contains("composition"));
}

#[test]
fn test_batch_prompt_preserves_priority_order() {
    // Verify that the prompt Fix numbering follows priority order,
    // not alphabetical order. This is the exact bug that was fixed.
    let reqs = vec![
        make_req("semver-composition-button-children-to-icon-prop"),
        make_req("semver-hierarchy-modal-composition-changed"),
        make_req("conformance-table-expected-children"),
    ];

    // Merge and sort by priority
    let mut merged = merge_by_rule_id(&reqs);
    merged.sort_by(|a, b| fix_priority_by_id(&a.rule_id).cmp(&fix_priority_by_id(&b.rule_id)));

    // Build the prompt
    let prompt = build_batch_prompt_with_context("/tmp/test.tsx", &merged, None);

    // Extract Fix N and corresponding rule IDs from the prompt
    let fix_rules: Vec<&str> = prompt
        .lines()
        .filter(|l| l.starts_with("Rule ["))
        .map(|l| l.trim_start_matches("Rule [").trim_end_matches("]:"))
        .collect();

    // Fix 1 must be the hierarchy rule (priority 0), not the
    // composition rule that sorts earlier alphabetically
    assert_eq!(fix_rules[0], "semver-hierarchy-modal-composition-changed");
    assert_eq!(
        fix_rules[1],
        "semver-composition-button-children-to-icon-prop"
    );
    assert_eq!(fix_rules[2], "conformance-table-expected-children");
}

#[test]
fn earlier_fixes_are_listed_where_there_were_batches() {
    let merged = merge_by_rule_id(&vec![make_req("rule-a")]);
    let heading = "## Previously attempted fixes:";
    let first = build_batch_prompt_with_context("/tmp/test.tsx", &merged, None);
    assert!(!first.contains(heading));
    let empty: Vec<String> = Vec::new();
    let told = build_batch_prompt_with_context("/tmp/test.tsx", &merged, Some(&empty));
    assert!(told.contains(heading));
    let notes = vec!["one".to_string(), "two".to_string()];
    let told = build_batch_prompt_with_context("/tmp/test.tsx", &merged, Some(&notes));
    assert!(told.contains("one\ntwo\n\n"));
}

#[test]
fn test_extract_text_from_goose_json_valid() {
    let json = r#"{
        "messages": [
            {"role": "user", "content": [{"type": "text", "text": "hello"}]},
            {"role": "assistant", "content": [{"type": "text", "text": "The file has been updated."}]}
        ]
    }"#;
    let result = extract_text_from_goose_json(json);
    assert_eq!(result, "The file has been updated.");
}

#[test]
fn test_extract_text_from_goose_json_empty_messages() {
    let json = r#"{"messages": []}"#;
    let result = extract_text_from_goose_json(json);
    // Returns empty so retry logic can detect the failure
    assert!(result.is_empty());
}

#[test]
fn test_extract_text_from_goose_json_user_only_no_assistant() {
    let json =
        r#"{"messages": [{"role": "user", "content": [{"type": "text", "text": "prompt"}]}]}"#;
    let result = extract_text_from_goose_json(json);
    // User message but no assistant response — return empty for retry
    assert!(result.is_empty());
}

#[test]
fn test_extract_text_from_goose_json_empty_object() {
    let json = "{}";
    let result = extract_text_from_goose_json(json);
    assert_eq!(result, "{}");
}

#[test]
fn test_extract_text_from_goose_json_not_json() {
    let text = "This is plain text output from goose";
    let result = extract_text_from_goose_json(text);
    assert_eq!(result, text);
}

#[test]
fn test_extract_text_from_goose_json_multiple_text_blocks() {
    let json = r#"{
        "messages": [
            {"role": "assistant", "content": [
                {"type": "text", "text": "First part."},
                {"type": "toolUse", "name": "developer__read_file"},
                {"type": "text", "text": "Second part."}
            ]}
        ]
    }"#;
    let result = extract_text_from_goose_json(json);
    assert_eq!(result, "First part.\nSecond part.");
}

// ── Runs of the agent ─────────────────────────────────────────────────

fn reply(text: &str) -> GooseEvent {
    GooseEvent::Completed {
        success: true,
        output: text.to_string(),
        raw: text.to_string(),
    }
}

fn run_for(rules: &[&str]) -> GooseRun {
    let reqs: Vec<LlmFixRequest> = rules.iter().map(|r| make_req(r)).collect();
    GooseRun::start("/tmp/test.tsx".to_string(), merge_by_rule_id(&reqs))
}

#[test]
fn single_fixes_take_one_run() {
    let mut run = run_for(&["rule-a"]);
    match run.next_action() {
        GooseAction::Run { prompt, delay_secs, .. } => {
            assert!(prompt.contains("Migration for rule-a"));
            assert_eq!(delay_secs, 0);
        }
        GooseAction::Done => panic!("expected a run"),
    }
    run.step(reply("done"));
    assert!(matches!(run.next_action(), GooseAction::Done));
    assert!(run.result.success);
    assert_eq!(run.result.rule_id, "rule-a");
    assert!(run.result.output.contains("done"));
}

#[test]
fn empty_replies_are_tried_once_more() {
    let mut run = run_for(&["rule-a"]);
    run.step(reply(""));
    match run.next_action() {
        GooseAction::Run { delay_secs, .. } => assert!(delay_secs > 0),
        GooseAction::Done => panic!("expected another run"),
    }
    run.step(reply("done"));
    assert!(matches!(run.next_action(), GooseAction::Done));
    assert_eq!(run.retried, vec![true]);
}

#[test]
fn failed_runs_end_in_failure() {
    let mut run = run_for(&["rule-a"]);
    run.step(GooseEvent::Failed {
        message: "cannot start".to_string(),
    });
    assert!(matches!(run.next_action(), GooseAction::Done));
    assert!(!run.result.success);
}

#[test]
fn many_fixes_are_planned_in_batches() {
    let reqs: Vec<LlmFixRequest> = (0..9).map(|i| make_req(&format!("rule-{}", i))).collect();
    let batches = build_goose_plan_batches(&reqs);
    assert!(batches.len() > 1);
    assert_eq!(batches[0].chunk_index, 0);
    assert!(batches.iter().all(|b| b.chunk_count == batches.len()));
    let rules: usize = batches.iter().map(|b| b.rule_ids.len()).sum();
    assert_eq!(rules, 9);
}

#[test]
fn long_lists_of_rules_are_cut_short() {
    let ids: Vec<String> = ["a", "b", "c", "d"].iter().map(|s| s.to_string()).collect();
    assert_eq!(rules_display(&ids), "a, b, ... +2 more");
    assert_eq!(rules_display(&ids[..3].to_vec()), "a, b, c");
}

#[test]
fn sessions_show_their_steps() {
    let long = "x".repeat(150);
    let raw = format!(
        r#"{{"messages": [
            {{"role": "user", "content": [{{"type": "text", "text": "go"}}]}},
            {{"role": "assistant", "content": [
                {{"type": "toolUse", "name": "developer__read_file"}},
                {{"type": "toolUse"}},
                {{"type": "text", "text": ""}},
                {{"type": "text", "text": "{}"}}
            ]}}
        ]}}"#,
        long
    );
    let session = parse_json(&raw).unwrap();
    assert_eq!(message_count(&session), 2);
    assert_eq!(
        session_steps(&session),
        vec![
            "tool_call=developer__read_file".to_string(),
            "tool_call=?".to_string(),
            format!("text={}", &long[..100]),
        ]
    );
    let wide = format!(r#"{{"messages": [{{"role": "assistant", "content": [{{"type": "text", "text": "{}"}}]}}]}}"#, "é".repeat(60));
    assert_eq!(
        session_steps(&parse_json(&wide).unwrap()),
        vec![format!("text={}", "é".repeat(50))]
    );
    assert!(session_steps(&parse_json("{}").unwrap()).is_empty());
}

#[test]
fn spellings_of_one_path_are_one_batch() {
    let mut again = make_req("rule-b");
    again.file_path = "/tmp//./test.tsx".to_string();
    let batches = batch_by_file(&vec![make_req("rule-a"), again]);
    assert_eq!(batches.len(), 1);
    assert_eq!(batches[0].file_path, "/tmp/test.tsx");
    assert_eq!(batches[0].requests.len(), 2);
}
