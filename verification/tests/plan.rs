use frontend_analyzer::engine::Sources;
use frontend_analyzer::fix::{strategies_from_entries, FixStrategy, FixStrategyEntry, Strategies};
use frontend_analyzer::incident::{Incident, Variables};
use frontend_analyzer::js_fix::JsFixProvider;
use frontend_analyzer::json::Json;
use frontend_analyzer::llm::GENERIC_SYSTEM_PROMPT;
use frontend_analyzer::plan::{
    filter_rulesets, is_json_text, merge_strategies, parse_rules_filter, prepare_plan_context,
    resolve_output_path, system_prompt_for, StrategyFile,
};
use frontend_analyzer::report::{
    build_remediation_report, RemediationPlanReport, ReportBuildOptions, StrategyResolutionSource,
    StrategySources,
};
use frontend_analyzer::ruleset::{Category, RuleSet, Violation};
use frontend_analyzer::text_map::{PathMap, TextMap};

#[test]
fn test_parse_rules_filter_none() {
    assert!(parse_rules_filter(None).is_none());
}

#[test]
fn test_parse_rules_filter_csv() {
    let filter = parse_rules_filter(Some("a,b , c")).unwrap();
    assert_eq!(filter, vec!["a", "b", "c"]);
}

fn map<V, const N: usize>(entries: [(&str, V); N]) -> TextMap<V> {
    let mut m = TextMap::new();
    for (key, value) in entries {
        m.insert(key.to_string(), value);
    }
    m
}

fn make_incident(line_number: u32, message: &str, variables: Variables) -> Incident {
    Incident {
        file_uri: "file:///work/project/src/App.tsx".to_string(),
        line_number: Some(line_number),
        code_location: None,
        message: message.to_string(),
        code_snip: Some("1  const view = <Chip />;".to_string()),
        variables,
        effort: None,
        links: Vec::new(),
        is_dependency_incident: false,
    }
}

fn make_violation(label: &str, incident: Incident) -> Violation {
    Violation {
        description: "test violation".to_string(),
        category: Some(Category::Mandatory),
        labels: vec![label.to_string()],
        incidents: vec![incident],
        links: Vec::new(),
        effort: Some(1),
    }
}

fn make_ruleset(violations: TextMap<Violation>) -> RuleSet {
    RuleSet {
        name: "patternfly-v5-to-v6".to_string(),
        description: "test ruleset".to_string(),
        tags: Vec::new(),
        violations,
        insights: TextMap::new(),
        errors: TextMap::new(),
        unmatched: Vec::new(),
        skipped: Vec::new(),
    }
}

fn make_test_ruleset() -> RuleSet {
    make_ruleset(map([(
        "rule-a",
        make_violation(
            "change-type=dom-structure",
            make_incident(1, "test incident", TextMap::new()),
        ),
    )]))
}

fn strategy_file(path: &str, strategies: Result<Strategies, String>) -> Option<StrategyFile> {
    Some(StrategyFile {
        path: path.to_string(),
        strategies,
    })
}

fn sources(content: &str) -> Sources {
    let mut m = PathMap::new();
    m.insert("/work/project/src/App.tsx".to_string(), Ok(content.to_string()));
    m
}

#[test]
fn test_prepare_plan_context_errors_on_invalid_rules_strategies() {
    let invalid_rules_strategies = "/work/rules-strategies.json";
    let msg = match prepare_plan_context(
        "/work/project",
        vec![make_test_ruleset()],
        None,
        None,
        strategy_file(invalid_rules_strategies, Err("key must be a string".to_string())),
        &JsFixProvider::new(),
        &sources("const view = <Chip />;\n"),
    ) {
        Ok(_) => panic!("expected invalid rules strategies to fail"),
        Err(err) => err,
    };
    assert!(msg.contains("failed to load rule-adjacent strategies"));
    assert!(msg.contains(invalid_rules_strategies));
    assert_eq!(
        msg,
        "failed to load rule-adjacent strategies from /work/rules-strategies.json: key must be a string"
    );
}

#[test]
fn test_prepare_plan_context_errors_on_invalid_external_strategies() {
    let invalid_external_strategies = "/work/fix-strategies.json";
    let msg = match prepare_plan_context(
        "/work/project",
        vec![make_test_ruleset()],
        None,
        strategy_file(invalid_external_strategies, Err("key must be a string".to_string())),
        None,
        &JsFixProvider::new(),
        &sources("const view = <Chip />;\n"),
    ) {
        Ok(_) => panic!("expected invalid external strategies to fail"),
        Err(err) => err,
    };
    assert!(msg.contains("failed to load external strategies"));
    assert!(msg.contains(invalid_external_strategies));
}

#[test]
fn blank_lists_of_rules_are_no_filter() {
    assert!(parse_rules_filter(Some("")).is_none());
    assert!(parse_rules_filter(Some(" , ,")).is_none());
    assert_eq!(parse_rules_filter(Some(",x,")), Some(vec!["x".to_string()]));
}

#[test]
fn filtering_keeps_the_listed_rules() {
    let mut rs = make_test_ruleset();
    rs.errors.insert("rule-a".to_string(), "failed".to_string());
    rs.errors.insert("rule-b".to_string(), "failed".to_string());
    rs.unmatched = vec!["rule-b".to_string(), "rule-a".to_string(), "rule-c".to_string()];
    rs.skipped = vec!["rule-c".to_string()];
    rs.insights.insert(
        "rule-b".to_string(),
        make_violation("x", make_incident(1, "m", TextMap::new())),
    );
    let allowed = vec!["rule-b".to_string()];
    let once = filter_rulesets(vec![rs], Some(&allowed));
    assert_eq!(once.len(), 1);
    assert_eq!(once[0].name, "patternfly-v5-to-v6");
    assert!(once[0].violations.is_empty());
    assert!(once[0].insights.contains_key("rule-b"));
    assert!(once[0].errors.contains_key("rule-b"));
    assert!(!once[0].errors.contains_key("rule-a"));
    assert_eq!(once[0].unmatched, vec!["rule-b"]);
    assert!(once[0].skipped.is_empty());
    // Filtering once more changes nothing.
    let twice = filter_rulesets(once, Some(&allowed));
    assert_eq!(twice[0].unmatched, vec!["rule-b"]);
    assert_eq!(twice[0].errors.len(), 1);
    let unfiltered = filter_rulesets(vec![make_test_ruleset()], None);
    assert!(unfiltered[0].violations.contains_key("rule-a"));
}

#[test]
fn external_strategies_override_rule_adjacent_ones() {
    let rules = strategy_file(
        "r.json",
        Ok(map([("a", FixStrategy::Manual), ("b", FixStrategy::Manual)])),
    );
    let external = strategy_file("e.json", Ok(map([("b", FixStrategy::Llm), ("c", FixStrategy::RemoveProp)])));
    let (strategies, origins) = merge_strategies(rules, external).unwrap();
    assert!(matches!(strategies.get("a"), Some(FixStrategy::Manual)));
    assert!(matches!(strategies.get("b"), Some(FixStrategy::Llm)));
    assert!(matches!(strategies.get("c"), Some(FixStrategy::RemoveProp)));
    assert_eq!(strategies.len(), 3);
    assert_eq!(
        origins.get("a"),
        Some(&StrategyResolutionSource::ExplicitRulesStrategies)
    );
    assert_eq!(
        origins.get("b"),
        Some(&StrategyResolutionSource::ExplicitExternalStrategies)
    );
    assert_eq!(
        origins.get("c"),
        Some(&StrategyResolutionSource::ExplicitExternalStrategies)
    );
}

#[test]
fn json_is_told_from_yaml_by_its_first_character() {
    assert!(is_json_text("  \n[{}]"));
    assert!(is_json_text("{\"a\": 1}"));
    assert!(!is_json_text("- name: x"));
    assert!(!is_json_text(""));
}

#[test]
fn relative_output_lies_under_the_current_directory() {
    assert_eq!(resolve_output_path("plan.json", "/work"), "/work/plan.json");
    assert_eq!(resolve_output_path("/tmp/plan.json", "/work"), "/tmp/plan.json");
}

#[test]
fn prompts_go_by_ruleset() {
    assert_eq!(system_prompt_for("something else"), GENERIC_SYSTEM_PROMPT);
    assert!(system_prompt_for("konveyor-patternfly-v5-to-v6").starts_with("You are a PatternFly v5 to v6"));
}

fn run_plan(ruleset: RuleSet, rules: Option<&str>, strategies: Option<StrategyFile>) -> RemediationPlanReport {
    let content = "import { Chip } from '@patternfly/react-core';\nconst view = <Chip />;\n";
    let sources = sources(content);
    let mut sizes = PathMap::new();
    sizes.insert("/work/project/src/App.tsx".to_string(), 69);
    let lang = JsFixProvider::new();
    let c = prepare_plan_context("/work/project", vec![ruleset], rules, strategies, None, &lang, &sources).unwrap();
    assert_eq!(c.selected_ruleset_name, "patternfly-v5-to-v6");
    let options = ReportBuildOptions {
        analysis_input: "analysis.json".to_string(),
        output_path: "/work/remediation-plan.json".to_string(),
        rules_filter: c.rules_filter,
        strategy_sources: StrategySources {
            rules_strategies: None,
            external_strategies: Some("fix-strategies.json".to_string()),
        },
        strategy_origins: c.strategy_origins,
    };
    build_remediation_report(
        &c.plan,
        &c.analysis,
        "/work/project",
        &c.merged_strategies,
        &lang,
        GENERIC_SYSTEM_PROMPT,
        &options,
        &sources,
        &sizes,
        "2025-01-01T00:00:00Z",
        "0.1.0",
    )
}

fn chip_strategies() -> Option<StrategyFile> {
    let mut entry = FixStrategyEntry::new("Rename");
    entry.from = Some("Chip".to_string());
    entry.to = Some("Label".to_string());
    strategy_file("fix-strategies.json", Ok(strategies_from_entries(&map([("rename-chip", entry)]))))
}

fn rename_violation() -> Violation {
    make_violation(
        "change-type=component-rename",
        make_incident(
            1,
            "Rename Chip to Label",
            map([("importedName", Json::Str("Chip".to_string()))]),
        ),
    )
}

#[test]
fn plans_report_pattern_fixes() {
    let report = run_plan(make_ruleset(map([("rename-chip", rename_violation())])), None, chip_strategies());
    assert_eq!(report.output_path, "/work/remediation-plan.json");
    assert_eq!(report.summary.deterministic_fix_count, 1);
    assert_eq!(report.summary.llm_item_count, 0);
    assert_eq!(report.summary.manual_item_count, 0);
    assert_eq!(report.files.len(), 1);
    assert!(report.files[0].deterministic_diff.is_some());
    assert_eq!(report.files[0].items.len(), 1);
    assert_eq!(report.files[0].items[0].rule_id, "rename-chip");
}

#[test]
fn plans_respect_the_rules_filter() {
    let manual = make_violation(
        "change-type=dom-structure",
        make_incident(2, "Manual structure fix required", TextMap::new()),
    );
    let report = run_plan(
        make_ruleset(map([("rename-chip", rename_violation()), ("manual-structure", manual)])),
        Some("rename-chip"),
        chip_strategies(),
    );
    assert_eq!(report.summary.violation_count, 1);
    assert_eq!(report.summary.incident_count, 1);
    assert_eq!(report.by_rule.len(), 1);
    assert_eq!(report.by_rule[0].rule_id, "rename-chip");
    assert!(report
        .files
        .iter()
        .flat_map(|file| file.items.iter())
        .all(|item| item.rule_id == "rename-chip"));
}

#[test]
fn plans_of_nothing_are_empty() {
    let report = run_plan(make_ruleset(TextMap::new()), None, None);
    assert_eq!(report.summary.violation_count, 0);
    assert_eq!(report.summary.incident_count, 0);
    assert_eq!(report.summary.deterministic_fix_count, 0);
    assert_eq!(report.summary.llm_item_count, 0);
    assert_eq!(report.summary.manual_item_count, 0);
    assert!(report.files.is_empty());
    assert!(report.by_rule.is_empty());
    assert!(report.provider_errors.is_empty());
    assert!(report.llm_plan.openai_requests.is_empty());
    assert!(report.llm_plan.goose_batches.is_empty());
}
