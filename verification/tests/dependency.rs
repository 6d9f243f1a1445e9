use frontend_analyzer::capabilities::DependencyCondition;
use frontend_analyzer::dependency::{
    check_dependencies, check_single_package_json, find_key_line, parse_loose_semver,
    strip_npm_prefix, version_in_bounds, workspace_globs, DependencyError, ManifestText,
};

#[test]
fn test_strip_npm_prefix() {
    assert_eq!(strip_npm_prefix("^6.4.1"), "6.4.1");
    assert_eq!(strip_npm_prefix("~5.4.2"), "5.4.2");
    assert_eq!(strip_npm_prefix(">=1.0.0"), "1.0.0");
    assert_eq!(strip_npm_prefix("5.4.2"), "5.4.2");
}

#[test]
fn test_parse_loose_semver() {
    assert_eq!(parse_loose_semver("5.4.2"), Some((5, 4, 2)));
    assert_eq!(parse_loose_semver("6.0.0-alpha.1"), Some((6, 0, 0)));
    assert_eq!(parse_loose_semver("6.4.1"), Some((6, 4, 1)));
}

#[test]
fn test_version_in_bounds() {
    let cond = DependencyCondition {
        name: None,
        nameregex: None,
        upperbound: Some("5.99.99".into()),
        lowerbound: None,
    };
    // v5 should match (<=5.99.99)
    assert!(version_in_bounds("^5.4.14", &cond));
    assert!(version_in_bounds("5.4.2", &cond));
    // v6 should NOT match (>5.99.99)
    assert!(!version_in_bounds("^6.4.1", &cond));
    assert!(!version_in_bounds("6.0.0", &cond));
}

fn condition(name: Option<&str>, nameregex: Option<&str>) -> DependencyCondition {
    DependencyCondition {
        name: name.map(|s| s.to_string()),
        nameregex: nameregex.map(|s| s.to_string()),
        upperbound: None,
        lowerbound: None,
    }
}

const MANIFEST: &str = "{\n  \"dependencies\": {\n    \"a\": \"^1.0.0\"\n  },\n  \"devDependencies\": {\n    \"b\": \"~2.3.4\"\n  }\n}\n";

#[test]
fn versions_lie_within_bounds() {
    let mut c = condition(None, None);
    assert!(version_in_bounds("anything", &c));
    c.lowerbound = Some("5.0.0".to_string());
    assert!(version_in_bounds("5.0.0", &c));
    assert!(!version_in_bounds("4.9.9", &c));
    c.upperbound = Some("5.1.0".to_string());
    assert!(version_in_bounds("^5.1.0", &c));
    assert!(!version_in_bounds("5.1.1", &c));
}

#[test]
fn dependencies_are_found_by_name() {
    let by_name = check_single_package_json("/p/package.json", MANIFEST, &condition(Some("b"), None)).unwrap();
    assert_eq!(by_name.len(), 1);
    assert_eq!(by_name[0].line_number, Some(6));
    assert_eq!(by_name[0].file_uri, "file:///p/package.json");
    let by_regex = check_single_package_json("/p/package.json", MANIFEST, &condition(None, Some("^[ab]$"))).unwrap();
    assert_eq!(by_regex.len(), 2);
}

#[test]
fn bad_manifests_and_expressions_are_errors() {
    assert!(matches!(
        check_single_package_json("/p/package.json", "{", &condition(None, None)),
        Err(DependencyError::InvalidManifest(m)) if m == "EOF while parsing an object at line 1 column 1"
    ));
    assert!(matches!(
        check_single_package_json("/p/package.json", MANIFEST, &condition(None, Some("("))),
        Err(DependencyError::InvalidExpression(_))
    ));
}

#[test]
fn workspaces_are_listed() {
    assert_eq!(workspace_globs(r#"{"workspaces": ["packages/*"]}"#), vec!["packages/*"]);
    assert_eq!(workspace_globs(r#"{"workspaces": {"packages": ["a", "b"]}}"#), vec!["a", "b"]);
    assert!(workspace_globs("{}").is_empty());
    assert_eq!(find_key_line(MANIFEST, "b"), 6);
}

#[test]
fn keys_are_told_from_values() {
    let content = "{\n  \"name\": \"lodash\",\n  \"lodash\" : \"1.0.0\"\n}\n";
    assert_eq!(find_key_line(content, "lodash"), 3);
    assert_eq!(find_key_line(content, "name"), 2);
    assert_eq!(find_key_line("{\n\"a\"\n:\n1}", "a"), 2);
    assert_eq!(find_key_line(content, "missing"), 1);
}

#[test]
fn manifests_are_checked_in_order() {
    let manifest = |path: &str, content: Result<String, String>| ManifestText {
        path: path.to_string(),
        content,
    };
    let good = manifest("/p/a/package.json", Ok(MANIFEST.to_string()));
    let unreadable = manifest("/p/package.json", Err("permission denied".to_string()));
    match check_dependencies(&vec![good, unreadable], &condition(Some("b"), None)) {
        Err(DependencyError::Unreadable(m)) => assert_eq!(m, "permission denied"),
        other => panic!("expected an unreadable manifest, got {:?}", other),
    }
    let good = manifest("/p/a/package.json", Ok(MANIFEST.to_string()));
    let again = manifest("/p/package.json", Ok(MANIFEST.to_string()));
    let found = check_dependencies(&vec![good, again], &condition(Some("b"), None)).unwrap();
    let uris: Vec<&str> = found.iter().map(|i| i.file_uri.as_str()).collect();
    assert_eq!(uris, vec!["file:///p/a/package.json", "file:///p/package.json"]);
}
