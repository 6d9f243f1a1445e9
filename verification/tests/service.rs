use frontend_analyzer::dependency::ManifestText;
use frontend_analyzer::lockfile::DirLockfiles;
use frontend_analyzer::service::{
    get_dependencies, parse_error_summary, Evaluated, FrontendProvider, ParseError, NOT_INITIALIZED,
};

#[test]
fn providers_start_without_a_project() {
    let mut provider = FrontendProvider::new(3);
    assert_eq!(provider.capabilities(), vec!["referenced", "cssclass", "cssvar", "dependency"]);
    assert_eq!(provider.root().unwrap_err(), NOT_INITIALIZED);
    let refused = provider.init("/gone", false);
    assert!(!refused.successful);
    assert_eq!(refused.error, "Location does not exist: /gone");
    assert_eq!(refused.id, 0);
    assert!(provider.root().is_err());
    let outcome = provider.init("/p", true);
    assert!(outcome.successful);
    assert_eq!(outcome.id, 1);
    assert_eq!(provider.root().unwrap(), "/p");
}

#[test]
fn parse_errors_are_summed_up() {
    assert_eq!(parse_error_summary(&Vec::new()), "");
    let errors = vec![ParseError {
        file_path: "/p/a.tsx".to_string(),
        message: "unexpected token".to_string(),
    }];
    assert!(parse_error_summary(&errors).contains("/p/a.tsx: unexpected token"));
}

#[test]
fn declared_dependencies_come_before_resolved_ones() {
    let lock = r#"{"packages": {
        "": {"name": "p"},
        "node_modules/a": {"version": "1.0.0", "dependencies": {"b": "^2.0.0"}},
        "node_modules/b": {"version": "2.1.0"}
    }}"#;
    let root = DirLockfiles {
        dir: "/p".to_string(),
        yarn_lock: None,
        package_lock: Some(Ok(lock.to_string())),
        pnpm_lock: None,
    };
    let manifests = vec![ManifestText {
        path: "/p/package.json".to_string(),
        content: Ok(r#"{"dependencies": {"a": "^1.0.0"}}"#.to_string()),
    }];
    let found = get_dependencies(&root, &manifests, &Vec::new());
    assert_eq!(found[0].file_uri, "file:///p/package.json");
    assert_eq!(found[0].deps[0].name, "a");
    assert!(!found[0].deps[0].indirect);
    let all: Vec<&str> = found.iter().flat_map(|f| f.deps.iter()).map(|d| d.name.as_str()).collect();
    assert!(all.contains(&"b"));
    let b = found.iter().flat_map(|f| f.deps.iter()).find(|d| d.name == "b").unwrap();
    assert!(b.indirect);
    assert_eq!(b.version, "2.1.0");
}

fn evaluated(parse_errors: Vec<ParseError>) -> Result<Evaluated, String> {
    Ok(Evaluated {
        incidents: Vec::new(),
        parse_errors,
    })
}

#[test]
fn evaluations_are_answered() {
    let mut provider = FrontendProvider::new(3);
    assert_eq!(provider.evaluate(evaluated(Vec::new())).unwrap_err(), NOT_INITIALIZED);
    provider.init("/p", true);
    let fine = provider.evaluate(evaluated(Vec::new())).unwrap();
    assert!(fine.successful);
    assert_eq!(fine.error, "");
    assert!(fine.incidents.is_some());
    let skipped = provider
        .evaluate(evaluated(vec![ParseError {
            file_path: "/p/a.tsx".to_string(),
            message: "unexpected token".to_string(),
        }]))
        .unwrap();
    assert!(skipped.successful);
    assert_eq!(
        skipped.error,
        "1 file(s) could not be parsed and were skipped:\n/p/a.tsx: unexpected token"
    );
    let failed = provider.evaluate(Err("bad condition".to_string())).unwrap();
    assert!(!failed.successful);
    assert_eq!(failed.error, "bad condition");
    assert!(failed.incidents.is_none());
}

#[test]
fn manifests_that_cannot_be_read_declare_nothing() {
    let root = DirLockfiles {
        dir: "/p".to_string(),
        yarn_lock: None,
        package_lock: None,
        pnpm_lock: None,
    };
    let manifests = vec![
        ManifestText {
            path: "/p/a/package.json".to_string(),
            content: Err("permission denied".to_string()),
        },
        ManifestText {
            path: "/p/b/package.json".to_string(),
            content: Ok("{".to_string()),
        },
        ManifestText {
            path: "/p/package.json".to_string(),
            content: Ok(r#"{"dependencies": {"a": "^1.0.0"}}"#.to_string()),
        },
    ];
    let found = get_dependencies(&root, &manifests, &Vec::new());
    assert_eq!(found.len(), 1);
    assert_eq!(found[0].file_uri, "file:///p/package.json");
}
