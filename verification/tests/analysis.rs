use frontend_analyzer::analysis::{
    evaluate_provider_condition, evaluate_when, is_js_file, list_passed_over, run_analysis,
    LoadedRuleSet, ProjectFiles, ProviderWhen, Rule, RuleLink, RuleSetMeta, SourceFile,
    WhenCondition,
};
use frontend_analyzer::capabilities::{
    Capability, CssClassCondition, CssVarCondition, DependencyCondition, ProviderCondition,
    ReferenceLocation, ReferencedCondition,
};
use frontend_analyzer::dependency::ManifestText;
use frontend_analyzer::incident::Incident;
use frontend_analyzer::json::Json;
use frontend_analyzer::ruleset::Category;
use frontend_analyzer::service::{parse_error_summary, parse_errors_of};

fn file(path: &str, content: &str) -> SourceFile {
    SourceFile {
        path: path.to_string(),
        content: Ok(content.to_string()),
    }
}

fn project() -> ProjectFiles {
    ProjectFiles {
        root: "/p".to_string(),
        css_files: vec![
            file("/p/src/a.css", ".pf-v5-c-button { color: red; }\n"),
            file("/p/src/b.scss", ".x {\n  color: var(--pf-v5-global--Color--100);\n}\n"),
        ],
        js_files: vec![
            file(
                "/p/src/App.tsx",
                "import { Page, Button } from '@patternfly/react-core';\nconst a = <Page><Button variant=\"primary\" className=\"pf-v5-c-button\">x</Button></Page>;\n",
            ),
            file(
                "/p/src/Other.tsx",
                "import { Button } from 'other-lib';\nconst b = <Button variant=\"link\">y</Button>;\nconst c = \"--pf-v5-global--Color--100\";\n",
            ),
        ],
        manifests: vec![ManifestText {
            path: "/p/package.json".to_string(),
            content: Ok("{\n  \"dependencies\": {\n    \"@patternfly/react-core\": \"^5.1.0\"\n  }\n}\n".to_string()),
        }],
    }
}

fn referenced(pattern: &str, location: Option<ReferenceLocation>) -> ReferencedCondition {
    ReferencedCondition {
        pattern: pattern.to_string(),
        location,
        component: None,
        parent: None,
        parent_from: None,
        value: None,
        from: None,
        file_pattern: None,
    }
}

fn places(incidents: &[Incident]) -> Vec<(String, u32)> {
    incidents
        .iter()
        .map(|i| (i.file_uri.clone(), i.line_number.unwrap()))
        .collect()
}

fn find(condition: ReferencedCondition) -> Vec<(String, u32)> {
    places(&evaluate_provider_condition(&project(), &ProviderCondition::Referenced(condition)).unwrap())
}

#[test]
fn capabilities_go_by_name() {
    assert_eq!(Capability::from_name("referenced"), Some(Capability::Referenced));
    assert_eq!(Capability::from_name("cssclass"), Some(Capability::CssClass));
    assert_eq!(Capability::from_name("cssvar"), Some(Capability::CssVar));
    assert_eq!(Capability::from_name("dependency"), Some(Capability::Dependency));
    assert_eq!(Capability::from_name("other"), None);
}

#[test]
fn references_are_found_in_all_files() {
    let found = find(referenced("^Button$", Some(ReferenceLocation::JsxComponent)));
    assert_eq!(
        found,
        vec![
            ("file:///p/src/App.tsx".to_string(), 2),
            ("file:///p/src/Other.tsx".to_string(), 2),
        ]
    );
    // Without a location imports count too.
    assert_eq!(find(referenced("^Button$", None)).len(), 4);
}

#[test]
fn reference_filters_narrow_the_search() {
    let mut by_module = referenced("^Button$", Some(ReferenceLocation::Import));
    by_module.from = Some("^other".to_string());
    assert_eq!(find(by_module), vec![("file:///p/src/Other.tsx".to_string(), 1)]);

    let mut by_package = referenced("^Button$", Some(ReferenceLocation::JsxComponent));
    by_package.from = Some("^@patternfly/react-core$".to_string());
    assert_eq!(find(by_package), vec![("file:///p/src/App.tsx".to_string(), 2)]);

    let mut by_parent = referenced("^Button$", Some(ReferenceLocation::JsxComponent));
    by_parent.parent = Some("^Page$".to_string());
    by_parent.parent_from = Some("patternfly".to_string());
    assert_eq!(find(by_parent), vec![("file:///p/src/App.tsx".to_string(), 2)]);

    let mut elsewhere = referenced("^Button$", Some(ReferenceLocation::JsxComponent));
    elsewhere.parent = Some("^Page$".to_string());
    elsewhere.parent_from = Some("other".to_string());
    assert!(find(elsewhere).is_empty());

    let mut by_value = referenced("^variant$", Some(ReferenceLocation::JsxProp));
    by_value.component = Some("^Button$".to_string());
    by_value.value = Some("^link$".to_string());
    assert_eq!(find(by_value), vec![("file:///p/src/Other.tsx".to_string(), 2)]);

    let mut objects = project();
    objects.js_files = vec![file(
        "/p/src/Obj.tsx",
        "const a = <Item align={{ default: 'alignRight' }} />;\n",
    )];
    let mut by_object_value = referenced("^align$", Some(ReferenceLocation::JsxProp));
    by_object_value.value = Some("^alignRight$".to_string());
    let found = evaluate_provider_condition(&objects, &ProviderCondition::Referenced(by_object_value)).unwrap();
    assert_eq!(found.len(), 1);

    let mut by_file = referenced("^Button$", Some(ReferenceLocation::JsxComponent));
    by_file.file_pattern = Some("App".to_string());
    assert_eq!(find(by_file), vec![("file:///p/src/App.tsx".to_string(), 2)]);
}

#[test]
fn classes_are_found_in_stylesheets_and_sources() {
    let condition = ProviderCondition::CssClass(CssClassCondition {
        pattern: "pf-v5-".to_string(),
        file_pattern: None,
    });
    let found = evaluate_provider_condition(&project(), &condition).unwrap();
    // The stylesheets come before the sources.
    assert_eq!(found[0].file_uri, "file:///p/src/a.css");
    assert_eq!(
        found[0].variables.get("className"),
        Some(&Json::Str("pf-v5-c-button".to_string()))
    );
    assert!(places(&found).contains(&("file:///p/src/App.tsx".to_string(), 2)));
}

#[test]
fn custom_properties_are_found_in_stylesheets_and_sources() {
    let condition = ProviderCondition::CssVar(CssVarCondition {
        pattern: "--pf-v5-global".to_string(),
        file_pattern: None,
    });
    let found = evaluate_provider_condition(&project(), &condition).unwrap();
    assert_eq!(
        places(&found),
        vec![
            ("file:///p/src/b.scss".to_string(), 2),
            ("file:///p/src/Other.tsx".to_string(), 3),
        ]
    );
}

fn dependency(name: &str) -> ProviderCondition {
    ProviderCondition::Dependency(DependencyCondition {
        name: Some(name.to_string()),
        nameregex: None,
        upperbound: Some("5.99.99".to_string()),
        lowerbound: None,
    })
}

#[test]
fn dependencies_are_found_in_manifests() {
    let found = evaluate_provider_condition(&project(), &dependency("@patternfly/react-core")).unwrap();
    assert_eq!(places(&found), vec![("file:///p/package.json".to_string(), 3)]);
    assert!(evaluate_provider_condition(&project(), &dependency("lodash")).unwrap().is_empty());
}

#[test]
fn rejected_expressions_and_unreadable_files_are_errors() {
    let bad = ProviderCondition::CssVar(CssVarCondition {
        pattern: "(".to_string(),
        file_pattern: None,
    });
    assert!(evaluate_provider_condition(&project(), &bad).unwrap_err().contains("regex parse error"));
    let bad_files = ProviderCondition::CssClass(CssClassCondition {
        pattern: "x".to_string(),
        file_pattern: Some("(".to_string()),
    });
    assert!(evaluate_provider_condition(&project(), &bad_files).is_err());
    let mut query = referenced("x", None);
    query.value = Some("(".to_string());
    assert!(evaluate_provider_condition(&project(), &ProviderCondition::Referenced(query)).is_err());

    let mut unreadable = project();
    unreadable.js_files[1].content = Err("permission denied".to_string());
    let condition = ProviderCondition::Referenced(referenced("^Button$", None));
    assert_eq!(
        evaluate_provider_condition(&unreadable, &condition).unwrap_err(),
        "permission denied"
    );
    let mut broken = project();
    broken.manifests[0].content = Ok("{".to_string());
    assert_eq!(
        evaluate_provider_condition(&broken, &dependency("lodash")).unwrap_err(),
        "EOF while parsing an object at line 1 column 1"
    );
    broken.manifests[0].content = Err("is a directory".to_string());
    assert_eq!(
        evaluate_provider_condition(&broken, &dependency("lodash")).unwrap_err(),
        "is a directory"
    );
}

fn provider(provider: &str, condition: ProviderCondition) -> WhenCondition {
    WhenCondition::Provider(vec![ProviderWhen {
        provider: provider.to_string(),
        capability: "any".to_string(),
        condition: Ok(condition),
    }])
}

#[test]
fn conjunctions_need_every_condition() {
    let both = WhenCondition::And(vec![
        provider("frontend", dependency("@patternfly/react-core")),
        provider(
            "frontend",
            ProviderCondition::Referenced(referenced("^Button$", Some(ReferenceLocation::JsxComponent))),
        ),
    ]);
    // What the last condition finds.
    assert_eq!(evaluate_when(&project(), &both).unwrap().len(), 2);
    let one = WhenCondition::And(vec![
        provider("frontend", dependency("lodash")),
        provider("frontend", dependency("@patternfly/react-core")),
    ]);
    assert!(evaluate_when(&project(), &one).unwrap().is_empty());
    assert!(evaluate_when(&project(), &WhenCondition::And(Vec::new())).unwrap().is_empty());
}

#[test]
fn disjunctions_collect_every_condition() {
    let any = WhenCondition::Or(vec![
        provider("frontend", dependency("lodash")),
        provider("frontend", dependency("@patternfly/react-core")),
        provider(
            "frontend",
            ProviderCondition::Referenced(referenced("^Button$", Some(ReferenceLocation::JsxComponent))),
        ),
    ]);
    assert_eq!(evaluate_when(&project(), &any).unwrap().len(), 3);
}

#[test]
fn conditions_of_other_providers_find_nothing() {
    let other = provider("builtin", dependency("@patternfly/react-core"));
    assert!(evaluate_when(&project(), &other).unwrap().is_empty());
}

#[test]
fn unreadable_conditions_are_errors() {
    let when = WhenCondition::Provider(vec![ProviderWhen {
        provider: "frontend".to_string(),
        capability: "nonsense".to_string(),
        condition: Err("Unknown capability: nonsense".to_string()),
    }]);
    assert_eq!(
        evaluate_when(&project(), &when).unwrap_err(),
        "Unknown capability: nonsense"
    );
}

fn rule(rule_id: &str, condition: WhenCondition) -> Rule {
    Rule {
        rule_id: rule_id.to_string(),
        description: "d".to_string(),
        message: "m".to_string(),
        category: Some("mandatory".to_string()),
        effort: Some(3),
        labels: vec!["l".to_string()],
        links: vec![RuleLink {
            url: "https://example.org".to_string(),
            title: "t".to_string(),
        }],
        condition,
    }
}

#[test]
fn every_rule_is_accounted_for() {
    let mut odd = rule("odd-category", provider("frontend", dependency("@patternfly/react-core")));
    odd.category = Some("unheard-of".to_string());
    let loaded = LoadedRuleSet {
        meta: RuleSetMeta {
            name: "set".to_string(),
            description: "about".to_string(),
        },
        rules: vec![
            rule("matched", provider("frontend", dependency("@patternfly/react-core"))),
            rule("unmatched", provider("frontend", dependency("lodash"))),
            rule(
                "failed",
                provider(
                    "frontend",
                    ProviderCondition::CssVar(CssVarCondition {
                        pattern: "(".to_string(),
                        file_pattern: None,
                    }),
                ),
            ),
            odd,
        ],
    };
    let output = run_analysis(&project(), &loaded);
    assert_eq!(output.len(), 1);
    let rs = &output[0];
    assert_eq!(rs.name, "set");
    assert_eq!(rs.description, "about");
    assert_eq!(rs.violations.len(), 2);
    let violation = rs.violations.get("matched").unwrap();
    assert_eq!(violation.category, Some(Category::Mandatory));
    assert_eq!(violation.effort, Some(3));
    assert_eq!(violation.links[0].title, Some("t".to_string()));
    assert_eq!(violation.incidents.len(), 1);
    assert_eq!(violation.incidents[0].message, "m");
    assert_eq!(violation.incidents[0].line_number, Some(3));
    assert!(violation.incidents[0].code_location.is_none());
    assert_eq!(rs.violations.get("odd-category").unwrap().category, None);
    assert_eq!(rs.unmatched, vec!["unmatched"]);
    assert!(rs.errors.get("failed").unwrap().contains("regex parse error"));
}

#[test]
fn sources_are_told_by_their_extension() {
    assert!(is_js_file("/p/a.tsx"));
    assert!(is_js_file("a.mjs"));
    assert!(!is_js_file("a.css"));
    assert!(!is_js_file(".js"));
    assert!(!is_js_file("js"));
}

#[test]
fn sources_that_are_no_programs_are_passed_over() {
    let mut p = project();
    p.js_files.push(file("/p/src/broken.tsx", "const a = <div>;\nfunction {{{\n"));
    p.js_files.push(SourceFile {
        path: "/p/src/gone.tsx".to_string(),
        content: Err("not found".to_string()),
    });
    let mut condition = referenced("Button", None);
    condition.file_pattern = Some("src/[a-z]".to_string());
    let condition = ProviderCondition::Referenced(condition);
    let paths = list_passed_over(&p, &condition);
    assert_eq!(paths, vec!["/p/src/broken.tsx".to_string()]);
    let errors = parse_errors_of(&paths);
    assert_eq!(
        parse_error_summary(&errors),
        "1 file(s) could not be parsed and were skipped:\n/p/src/broken.tsx: Failed to parse"
    );
    let mut condition = referenced("Button", None);
    condition.file_pattern = Some("App".to_string());
    assert!(list_passed_over(&p, &ProviderCondition::Referenced(condition)).is_empty());
}
