use frontend_analyzer::engine::{plan_fixes, Sources};
use frontend_analyzer::fix::{FixPlan, FixStrategy, RenameMapping};
use frontend_analyzer::incident::{Incident, Variables};
use frontend_analyzer::js_fix::JsFixProvider;
use frontend_analyzer::json::Json;
use frontend_analyzer::llm::GENERIC_SYSTEM_PROMPT;
use frontend_analyzer::report::{
    build_remediation_report, hex_text, load_file_info, ManualReason, RemediationKind,
    ReportBuildOptions, StrategyResolutionSource, StrategySources,
};
use frontend_analyzer::ruleset::{Category, RuleSet, Violation};
use frontend_analyzer::text_map::{PathMap, TextMap};

fn map<V, const N: usize>(entries: [(String, V); N]) -> TextMap<V> {
    let mut m = TextMap::new();
    for (key, value) in entries {
        m.insert(key, value);
    }
    m
}

fn no_sources() -> StrategySources {
    StrategySources {
        rules_strategies: None,
        external_strategies: None,
    }
}

/// A project with one source file: its path, and what is known of the disk.
fn disk(project_root: &str, source: &str) -> (String, Sources, PathMap<u64>) {
    let path = format!("{}/src/App.tsx", project_root);
    let mut sources = PathMap::new();
    sources.insert(path.clone(), Ok(source.to_string()));
    let mut sizes = PathMap::new();
    sizes.insert(path.clone(), source.len() as u64);
    (path, sources, sizes)
}

fn make_incident(
    file_path: &str,
    line_number: u32,
    message: &str,
    code_snip: &str,
    variables: Variables,
) -> Incident {
    Incident {
        file_uri: format!("file://{}", file_path),
        line_number: Some(line_number),
        code_location: None,
        message: message.to_string(),
        code_snip: Some(code_snip.to_string()),
        variables,
        effort: None,
        links: Vec::new(),
        is_dependency_incident: false,
    }
}

fn make_ruleset(rule_id: &str, violation: Violation) -> Vec<RuleSet> {
    vec![RuleSet {
        name: "patternfly-v5-to-v6".to_string(),
        description: String::new(),
        tags: Vec::new(),
        violations: map([(rule_id.to_string(), violation)]),
        insights: TextMap::new(),
        errors: TextMap::new(),
        unmatched: Vec::new(),
        skipped: Vec::new(),
    }]
}

#[test]
fn test_build_remediation_report_for_pattern_fix() {
    let project_root = "/work/project";
    let (file_path, sources, sizes) = disk(project_root, "import { Chip } from '@patternfly/react-core';\nconst x = <Chip />;\n");

    let incident = make_incident(
        &file_path,
        1,
        "Rename Chip to Label",
        "1  import { Chip } from '@patternfly/react-core';\n",
        map([(
            "importedName".to_string(),
            Json::Str("Chip".to_string()),
        )]),
    );

    let output = make_ruleset(
        "pfv6-rename-chip-to-label",
        Violation {
            description: "Chip renamed".to_string(),
            category: Some(Category::Mandatory),
            labels: vec!["change-type=component-rename".to_string()],
            incidents: vec![incident],
            links: Vec::new(),
            effort: Some(1),
        },
    );

    let strategies = map([(
        "pfv6-rename-chip-to-label".to_string(),
        FixStrategy::Rename(vec![RenameMapping {
            old: "Chip".to_string(),
            new: "Label".to_string(),
        }]),
    )]);
    let options = ReportBuildOptions {
        analysis_input: format!("{}/analysis.json", project_root),
        output_path: format!("{}/remediation-plan.json", project_root),
        rules_filter: None,
        strategy_sources: no_sources(),
        strategy_origins: map([(
            "pfv6-rename-chip-to-label".to_string(),
            StrategyResolutionSource::ExplicitRulesStrategies,
        )]),
    };

    let lang = JsFixProvider::new();
    let plan = plan_fixes(&output, project_root, &strategies, &lang, &sources);
    let report = build_remediation_report(
        &plan,
        &output,
        project_root,
        &strategies,
        &lang,
        GENERIC_SYSTEM_PROMPT,
        &options,
        &sources,
        &sizes,
        "2025-01-01T00:00:00Z",
        "0.1.0",
    );

    assert_eq!(report.summary.deterministic_fix_count, 1);
    assert_eq!(report.files.len(), 1);
    assert_eq!(report.files[0].items.len(), 1);
    assert!(report.files[0].deterministic_diff.is_some());
    assert_eq!(report.files[0].items[0].kind, RemediationKind::Pattern);
}

#[test]
fn test_build_remediation_report_for_llm_item() {
    let project_root = "/work/project";
    let source = "export const App = () => <LegacyThing />;\n";
    let (file_path, sources, sizes) = disk(project_root, source);

    let incident = make_incident(
        &file_path,
        1,
        "Migrate LegacyThing composition",
        "1  export const App = () => <LegacyThing />;",
        TextMap::new(),
    );
    let output = make_ruleset(
        "llm-rule",
        Violation {
            description: "Requires structural migration".to_string(),
            category: Some(Category::Mandatory),
            labels: Vec::new(),
            incidents: vec![incident],
            links: Vec::new(),
            effort: Some(1),
        },
    );

    let strategies = map([("llm-rule".to_string(), FixStrategy::Llm)]);
    let strategy_path = format!("{}/fix-strategies.json", project_root);
    let options = ReportBuildOptions {
        analysis_input: format!("{}/analysis.json", project_root),
        output_path: format!("{}/remediation-plan.json", project_root),
        rules_filter: None,
        strategy_sources: StrategySources {
            rules_strategies: None,
            external_strategies: Some(strategy_path.clone()),
        },
        strategy_origins: map([(
            "llm-rule".to_string(),
            StrategyResolutionSource::ExplicitExternalStrategies,
        )]),
    };

    let lang = JsFixProvider::new();
    let plan = plan_fixes(&output, project_root, &strategies, &lang, &sources);
    let report = build_remediation_report(
        &plan,
        &output,
        project_root,
        &strategies,
        &lang,
        GENERIC_SYSTEM_PROMPT,
        &options,
        &sources,
        &sizes,
        "2025-01-01T00:00:00Z",
        "0.1.0",
    );

    assert_eq!(report.summary.llm_item_count, 1);
    assert_eq!(report.files.len(), 1);
    assert_eq!(report.files[0].source_before.as_deref(), Some(source));
    assert_eq!(report.files[0].items.len(), 1);
    assert_eq!(report.files[0].items[0].kind, RemediationKind::Llm);
    assert_eq!(
        report.files[0].items[0].strategy_resolution.source,
        StrategyResolutionSource::ExplicitExternalStrategies
    );
    assert_eq!(
        report.files[0].items[0]
            .strategy_resolution
            .source_detail
            .as_deref(),
        Some(strategy_path.as_str())
    );
    assert_eq!(report.llm_plan.openai_requests.len(), 1);
    assert_eq!(report.llm_plan.goose_batches.len(), 1);
    assert_eq!(
        report.files[0].items[0]
            .llm_request
            .as_ref()
            .and_then(|request| request.source.as_deref()),
        Some(source)
    );
    assert!(report.llm_plan.openai_requests[0]
        .user_prompt
        .contains(source));
}

#[test]
fn test_build_remediation_report_for_explicit_manual_item() {
    let project_root = "/work/project";
    let (file_path, sources, sizes) = disk(project_root, "export const App = () => <LegacyThing />;\n");

    let incident = make_incident(
        &file_path,
        1,
        "Manual migration required",
        "1  export const App = () => <LegacyThing />;",
        TextMap::new(),
    );
    let output = make_ruleset(
        "manual-rule",
        Violation {
            description: "No automatic migration".to_string(),
            category: Some(Category::Mandatory),
            labels: Vec::new(),
            incidents: vec![incident],
            links: Vec::new(),
            effort: Some(1),
        },
    );

    let strategies = map([("manual-rule".to_string(), FixStrategy::Manual)]);
    let rules_strategy_path = format!("{}/rules-strategies.json", project_root);
    let options = ReportBuildOptions {
        analysis_input: format!("{}/analysis.json", project_root),
        output_path: format!("{}/remediation-plan.json", project_root),
        rules_filter: None,
        strategy_sources: StrategySources {
            rules_strategies: Some(rules_strategy_path.clone()),
            external_strategies: None,
        },
        strategy_origins: map([(
            "manual-rule".to_string(),
            StrategyResolutionSource::ExplicitRulesStrategies,
        )]),
    };

    let lang = JsFixProvider::new();
    let plan = plan_fixes(&output, project_root, &strategies, &lang, &sources);
    let report = build_remediation_report(
        &plan,
        &output,
        project_root,
        &strategies,
        &lang,
        GENERIC_SYSTEM_PROMPT,
        &options,
        &sources,
        &sizes,
        "2025-01-01T00:00:00Z",
        "0.1.0",
    );

    let item = &report.files[0].items[0];
    assert_eq!(report.summary.manual_item_count, 1);
    assert_eq!(item.kind, RemediationKind::Manual);
    assert!(item.manual_item.is_some());
    assert_eq!(
        item.manual_reason,
        Some(ManualReason::ExplicitManualStrategy)
    );
    assert_eq!(
        item.strategy_resolution.source,
        StrategyResolutionSource::ExplicitRulesStrategies
    );
    assert_eq!(
        item.strategy_resolution.source_detail.as_deref(),
        Some(rules_strategy_path.as_str())
    );
}

#[test]
fn test_build_remediation_report_for_label_inferred_manual_item() {
    let project_root = "/work/project";
    let (file_path, sources, sizes) = disk(project_root, "export const App = () => <LegacyThing />;\n");

    let incident = make_incident(
        &file_path,
        1,
        "Manual migration required",
        "1  export const App = () => <LegacyThing />;",
        TextMap::new(),
    );
    let output = make_ruleset(
        "manual-rule",
        Violation {
            description: "Structure changed".to_string(),
            category: Some(Category::Mandatory),
            labels: vec!["change-type=dom-structure".to_string()],
            incidents: vec![incident],
            links: Vec::new(),
            effort: Some(1),
        },
    );

    let strategies = TextMap::new();
    let options = ReportBuildOptions {
        analysis_input: format!("{}/analysis.json", project_root),
        output_path: format!("{}/remediation-plan.json", project_root),
        rules_filter: None,
        strategy_sources: no_sources(),
        strategy_origins: TextMap::new(),
    };

    let lang = JsFixProvider::new();
    let plan = plan_fixes(&output, project_root, &strategies, &lang, &sources);
    let report = build_remediation_report(
        &plan,
        &output,
        project_root,
        &strategies,
        &lang,
        GENERIC_SYSTEM_PROMPT,
        &options,
        &sources,
        &sizes,
        "2025-01-01T00:00:00Z",
        "0.1.0",
    );

    let item = &report.files[0].items[0];
    assert_eq!(report.summary.manual_item_count, 1);
    assert_eq!(item.kind, RemediationKind::Manual);
    assert_eq!(item.manual_reason, Some(ManualReason::LabelInferredManual));
    assert_eq!(
        item.strategy_resolution.source,
        StrategyResolutionSource::LabelInference
    );
    assert_eq!(
        item.strategy_resolution.source_detail.as_deref(),
        Some("change-type=dom-structure")
    );
}

#[test]
fn test_build_remediation_report_preserves_provider_errors() {
    let project_root = "/work/project";

    let output = vec![RuleSet {
        name: "patternfly-v5-to-v6".to_string(),
        description: String::new(),
        tags: Vec::new(),
        violations: TextMap::new(),
        insights: TextMap::new(),
        errors: map([
            ("rule-a".to_string(), "Parse failed".to_string()),
            ("rule-b".to_string(), "Parse failed".to_string()),
            ("rule-c".to_string(), "Other provider error".to_string()),
        ]),
        unmatched: Vec::new(),
        skipped: Vec::new(),
    }];
    let options = ReportBuildOptions {
        analysis_input: format!("{}/analysis.json", project_root),
        output_path: format!("{}/remediation-plan.json", project_root),
        rules_filter: None,
        strategy_sources: no_sources(),
        strategy_origins: TextMap::new(),
    };
    let sources = PathMap::new();
    let sizes = PathMap::new();

    let report = build_remediation_report(
        &FixPlan::default(),
        &output,
        project_root,
        &TextMap::new(),
        &JsFixProvider::new(),
        GENERIC_SYSTEM_PROMPT,
        &options,
        &sources,
        &sizes,
        "2025-01-01T00:00:00Z",
        "0.1.0",
    );

    let messages = report
        .provider_errors
        .iter()
        .map(|error| error.message.as_str())
        .collect::<Vec<_>>();
    assert_eq!(report.summary.provider_error_count, 2);
    assert_eq!(report.provider_errors.len(), 2);
    assert!(messages.contains(&"Parse failed"));
    assert!(messages.contains(&"Other provider error"));
    assert!(report.files.is_empty());
}

#[test]
fn files_are_fingerprinted() {
    let info = load_file_info(Some(3), Some(&"abc".to_string()));
    assert!(info.exists);
    assert_eq!(info.size_bytes, Some(3));
    assert_eq!(info.line_count, Some(1));
    assert_eq!(
        info.sha256_before.as_deref(),
        Some("ba7816bf8f01cfea414140de5dae2223b00361a396177a9cb410ff61f20015ad")
    );
    assert!(!load_file_info(None, None).exists);
    assert_eq!(hex_text(&vec![0, 255, 16]), "00ff10");
}
