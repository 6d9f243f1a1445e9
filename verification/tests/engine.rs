use frontend_analyzer::engine::{infer_strategy_from_labels, uri_to_path};
use frontend_analyzer::fix::FixStrategy;

// ── uri_to_path tests ────────────────────────────────────────────────

#[test]
fn test_uri_to_path_absolute() {
    let path = uri_to_path(
        "file:///home/user/project/src/App.tsx",
        "/ignored",
    );
    assert_eq!(path, "/home/user/project/src/App.tsx");
}

#[test]
fn test_uri_to_path_relative() {
    let path = uri_to_path("src/App.tsx", "/home/user/project");
    assert_eq!(path, "/home/user/project/src/App.tsx");
}

#[test]
fn test_uri_to_path_no_file_prefix() {
    let path = uri_to_path("/absolute/path.tsx", "/root");
    assert_eq!(path, "/absolute/path.tsx");
}

// ── infer_strategy_from_labels tests ─────────────────────────────────

#[test]
fn test_infer_prop_removal() {
    let labels = vec!["change-type=prop-removal".to_string()];
    let strategy = infer_strategy_from_labels(&labels);
    assert!(matches!(strategy, Some(FixStrategy::RemoveProp)));
}

#[test]
fn test_infer_dom_structure_manual() {
    let labels = vec!["change-type=dom-structure".to_string()];
    let strategy = infer_strategy_from_labels(&labels);
    assert!(matches!(strategy, Some(FixStrategy::Manual)));
}

#[test]
fn test_infer_behavioral_manual() {
    let labels = vec!["change-type=behavioral".to_string()];
    let strategy = infer_strategy_from_labels(&labels);
    assert!(matches!(strategy, Some(FixStrategy::Manual)));
}

#[test]
fn test_infer_accessibility_manual() {
    let labels = vec!["change-type=accessibility".to_string()];
    let strategy = infer_strategy_from_labels(&labels);
    assert!(matches!(strategy, Some(FixStrategy::Manual)));
}

#[test]
fn test_infer_interface_removal_manual() {
    let labels = vec!["change-type=interface-removal".to_string()];
    let strategy = infer_strategy_from_labels(&labels);
    assert!(matches!(strategy, Some(FixStrategy::Manual)));
}

#[test]
fn test_infer_module_export_manual() {
    let labels = vec!["change-type=module-export".to_string()];
    let strategy = infer_strategy_from_labels(&labels);
    assert!(matches!(strategy, Some(FixStrategy::Manual)));
}

#[test]
fn test_infer_other_manual() {
    let labels = vec!["change-type=other".to_string()];
    let strategy = infer_strategy_from_labels(&labels);
    assert!(matches!(strategy, Some(FixStrategy::Manual)));
}

#[test]
fn test_infer_unknown_label_returns_none() {
    let labels = vec!["change-type=rename".to_string()];
    let strategy = infer_strategy_from_labels(&labels);
    assert!(strategy.is_none());
}

#[test]
fn test_infer_empty_labels_returns_none() {
    let labels: Vec<String> = Vec::new();
    let strategy = infer_strategy_from_labels(&labels);
    assert!(strategy.is_none());
}

#[test]
fn test_infer_first_matching_label_wins() {
    let labels = vec![
        "framework=patternfly".to_string(),
        "change-type=prop-removal".to_string(),
        "change-type=dom-structure".to_string(), // would also match, but prop-removal comes first
    ];
    let strategy = infer_strategy_from_labels(&labels);
    assert!(matches!(strategy, Some(FixStrategy::RemoveProp)));
}

#[test]
fn fix_labels_stand_for_prop_removal() {
    let labels = vec!["konveyor.io/fix=prop-removal".to_string()];
    assert!(matches!(infer_strategy_from_labels(&labels), Some(FixStrategy::RemoveProp)));
}
