use frontend_analyzer::patternfly::{PatternFlyV5ToV6Context, PATTERNFLY_RULESET_NAME};

#[test]
fn test_ruleset_name() {
    let ctx = PatternFlyV5ToV6Context::new();
    assert_eq!(ctx.ruleset_name(), PATTERNFLY_RULESET_NAME);
}

#[test]
fn test_migration_description() {
    let ctx = PatternFlyV5ToV6Context::new();
    assert_eq!(ctx.migration_description(), "PatternFly v5 to v6 migration");
}

#[test]
fn test_constraints_not_empty() {
    let ctx = PatternFlyV5ToV6Context::new();
    assert!(!ctx.llm_constraints().is_empty());
    // All constraints should mention PatternFly-specific patterns
    assert!(ctx
        .llm_constraints()
        .iter()
        .any(|c| c.contains("@patternfly")));
}

#[test]
fn test_revert_warnings() {
    let ctx = PatternFlyV5ToV6Context::new();
    let warnings = ctx.revert_warnings().unwrap();
    assert!(warnings.contains("deprecated"));
    assert!(warnings.contains("@patternfly/react-core"));
}

#[test]
fn test_priority_hierarchy_first() {
    let ctx = PatternFlyV5ToV6Context::new();
    assert_eq!(ctx.fix_priority("pfv6-hierarchy-modal"), 0);
    assert_eq!(ctx.fix_priority("pfv6-component-import-deprecated"), 1);
    assert_eq!(ctx.fix_priority("pfv6-composition-toolbar"), 2);
    assert_eq!(ctx.fix_priority("pfv6-prop-removed-isActive"), 3);
    assert_eq!(ctx.fix_priority("pfv6-dom-structure-change"), 4);
    assert_eq!(ctx.fix_priority("conformance-check"), 5);
    // sd-conformance-* rules (from structural diff) must also match
    assert_eq!(ctx.fix_priority("sd-conformance-tbody-must-be-in-table"), 5);
    assert_eq!(
        ctx.fix_priority("sd-conformance-toolbaritem-must-be-in-toolbar"),
        5
    );
    assert_eq!(
        ctx.fix_priority("sd-conformance-pagesection-must-be-in-page"),
        5
    );
}

#[test]
fn test_priority_unknown_defaults_to_prop_level() {
    let ctx = PatternFlyV5ToV6Context::new();
    assert_eq!(ctx.fix_priority("some-unknown-rule"), 3);
}

#[test]
fn test_system_prompt() {
    let ctx = PatternFlyV5ToV6Context::new();
    let prompt = ctx.llm_system_prompt();
    assert!(prompt.contains("PatternFly v5 to v6"));
    assert!(prompt.contains("```fix"));
}

#[test]
fn prompts_ask_for_a_check() {
    let ctx = PatternFlyV5ToV6Context::default();
    assert_eq!(ctx.llm_constraints().len(), 8);
    assert!(ctx.change_type_examples().contains("migrate prop"));
    assert!(ctx.verification_prompt().unwrap().starts_with("VERIFICATION:"));
}
