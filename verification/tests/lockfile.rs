use frontend_analyzer::lockfile::{
    constraint_within_upperbound, discover_lockfile_path, extract_name_version_from_pnpm_key,
    extract_package_name_from_npm_key, extract_package_name_from_yarn_key, find_dependents,
    parse_all_lockfiles, parse_lockfile, parse_package_lock_json, parse_pnpm_lock_yaml,
    parse_yarn_lock_berry, strip_pnpm_peer_suffix, DirLockfiles, LockfileEntry, LockfileError,
    Ranges,
};
use frontend_analyzer::text_map::TextMap;

fn ranges<const N: usize>(entries: [(String, String); N]) -> Ranges {
    let mut m = TextMap::new();
    for (name, range) in entries {
        m.insert(name, range);
    }
    m
}

fn without_lockfiles(dir: &str) -> DirLockfiles {
    DirLockfiles {
        dir: dir.to_string(),
        yarn_lock: None,
        package_lock: None,
        pnpm_lock: None,
    }
}

// ── npm package-lock.json tests ──────────────────────────────────

#[test]
fn test_parse_package_lock_json_basic() {
    let content = r#"{
            "lockfileVersion": 3,
            "packages": {
                "": {
                    "name": "my-project",
                    "version": "1.0.0"
                },
                "node_modules/@patternfly/react-core": {
                    "version": "6.4.1",
                    "dependencies": {
                        "@patternfly/react-icons": "^6.4.0"
                    }
                },
                "node_modules/@patternfly/react-topology": {
                    "version": "5.2.1",
                    "dependencies": {
                        "@patternfly/react-core": "^5.1.1",
                        "@patternfly/react-icons": "^5.1.1"
                    }
                }
            }
        }"#;

    let entries = parse_package_lock_json(content).unwrap();
    assert_eq!(entries.len(), 2); // root "" is skipped

    let topology = entries
        .iter()
        .find(|e| e.name == "@patternfly/react-topology")
        .unwrap();
    assert_eq!(topology.version, "5.2.1");
    assert_eq!(
        topology.dependencies.get("@patternfly/react-core").unwrap(),
        "^5.1.1"
    );
}

#[test]
fn test_parse_package_lock_json_peer_deps() {
    let content = r#"{
            "lockfileVersion": 3,
            "packages": {
                "node_modules/some-plugin": {
                    "version": "2.0.0",
                    "peerDependencies": {
                        "@patternfly/react-core": "^5.0.0"
                    }
                }
            }
        }"#;

    let entries = parse_package_lock_json(content).unwrap();
    assert_eq!(entries.len(), 1);
    // Merged into dependencies
    assert_eq!(
        entries[0]
            .dependencies
            .get("@patternfly/react-core")
            .unwrap(),
        "^5.0.0"
    );
    // Also tracked separately in peer_dependencies
    assert_eq!(
        entries[0]
            .peer_dependencies
            .get("@patternfly/react-core")
            .unwrap(),
        "^5.0.0"
    );
}

#[test]
fn test_extract_package_name_from_npm_key() {
    assert_eq!(
        extract_package_name_from_npm_key("node_modules/@patternfly/react-core"),
        "@patternfly/react-core"
    );
    assert_eq!(
        extract_package_name_from_npm_key("node_modules/lodash"),
        "lodash"
    );
    assert_eq!(
        extract_package_name_from_npm_key(
            "node_modules/@patternfly/react-core/node_modules/tslib"
        ),
        "tslib"
    );
    assert_eq!(extract_package_name_from_npm_key(""), "");
}

// ── yarn.lock berry tests ────────────────────────────────────────

#[test]
fn test_parse_yarn_lock_berry_basic() {
    let content = r#"# yarn lockfile v1

__metadata:
  version: 8

"@patternfly/react-core@npm:^6.4.1":
  version: 6.4.1
  resolution: "@patternfly/react-core@npm:6.4.1"
  dependencies:
    "@patternfly/react-icons": "npm:^6.4.0"
    "@patternfly/react-styles": "npm:^6.4.0"
  checksum: abc123
  languageName: node
  linkType: hard

"@patternfly/react-topology@npm:5.2.1":
  version: 5.2.1
  resolution: "@patternfly/react-topology@npm:5.2.1"
  dependencies:
    "@patternfly/react-core": "npm:^5.1.1"
    "@patternfly/react-icons": "npm:^5.1.1"
  checksum: def456
  languageName: node
  linkType: hard
"#;

    let entries = parse_yarn_lock_berry(content).unwrap();
    // __metadata is skipped (no version field)
    assert_eq!(entries.len(), 2);

    let topology = entries
        .iter()
        .find(|e| e.name == "@patternfly/react-topology")
        .unwrap();
    assert_eq!(topology.version, "5.2.1");
    assert_eq!(
        topology.dependencies.get("@patternfly/react-core").unwrap(),
        "npm:^5.1.1"
    );

    let core = entries
        .iter()
        .find(|e| e.name == "@patternfly/react-core")
        .unwrap();
    assert_eq!(core.version, "6.4.1");
}

#[test]
fn test_parse_yarn_lock_berry_multiple_ranges() {
    // yarn.lock can have multiple version ranges for the same package
    let content = r#"
"@patternfly/react-core@npm:^5.1.1, @patternfly/react-core@npm:^5.4.1":
  version: 5.4.14
  resolution: "@patternfly/react-core@npm:5.4.14"
  dependencies:
    "@patternfly/react-icons": "npm:^5.4.0"
  languageName: node
  linkType: hard
"#;

    let entries = parse_yarn_lock_berry(content).unwrap();
    assert_eq!(entries.len(), 1);
    assert_eq!(entries[0].name, "@patternfly/react-core");
    assert_eq!(entries[0].version, "5.4.14");
}

#[test]
fn test_parse_yarn_lock_berry_peer_deps() {
    let content = r#"
"some-plugin@npm:2.0.0":
  version: 2.0.0
  resolution: "some-plugin@npm:2.0.0"
  dependencies:
    lodash: "npm:^4.0.0"
  peerDependencies:
    "@patternfly/react-core": "npm:^5.0.0"
  languageName: node
  linkType: hard
"#;

    let entries = parse_yarn_lock_berry(content).unwrap();
    assert_eq!(entries.len(), 1);
    // Both dependencies and peerDependencies are collected in merged map
    assert_eq!(
        entries[0]
            .dependencies
            .get("@patternfly/react-core")
            .unwrap(),
        "npm:^5.0.0"
    );
    assert_eq!(entries[0].dependencies.get("lodash").unwrap(), "npm:^4.0.0");
    // Peer deps also tracked separately
    assert_eq!(
        entries[0]
            .peer_dependencies
            .get("@patternfly/react-core")
            .unwrap(),
        "npm:^5.0.0"
    );
    // Regular deps not in peer_dependencies
    assert!(!entries[0].peer_dependencies.contains_key("lodash"));
}

#[test]
fn test_extract_package_name_from_yarn_key() {
    assert_eq!(
        extract_package_name_from_yarn_key(r#""@patternfly/react-core@npm:^5.1.1":"#),
        Some("@patternfly/react-core".into())
    );
    assert_eq!(
        extract_package_name_from_yarn_key(r#""lodash@npm:^4.17.21":"#),
        Some("lodash".into())
    );
    assert_eq!(
        extract_package_name_from_yarn_key(
            r#""@patternfly/react-core@npm:^5.1.1, @patternfly/react-core@npm:^5.4.1":"#
        ),
        Some("@patternfly/react-core".into())
    );
}

// ── find_dependents tests ────────────────────────────────────────

#[test]
fn test_find_dependents_basic() {
    let entries = vec![
        LockfileEntry {
            name: "@patternfly/react-core".into(),
            version: "6.4.1".into(),
            dependencies: TextMap::new(),
            peer_dependencies: TextMap::new(),
        },
        LockfileEntry {
            name: "@patternfly/react-topology".into(),
            version: "5.2.1".into(),
            dependencies: ranges([("@patternfly/react-core".into(), "^5.1.1".into())]),
            peer_dependencies: TextMap::new(),
        },
        LockfileEntry {
            name: "@patternfly/react-table".into(),
            version: "6.4.1".into(),
            dependencies: ranges([("@patternfly/react-core".into(), "^6.0.0".into())]),
            peer_dependencies: TextMap::new(),
        },
    ];

    // upperbound 5.99.99: only topology matches (its dep on react-core is ^5.1.1)
    let deps = find_dependents(&entries, "@patternfly/react-core", Some("5.99.99"));
    assert_eq!(deps.len(), 1);
    assert_eq!(deps[0].name, "@patternfly/react-topology");

    // No upperbound: both topology and table match
    let deps = find_dependents(&entries, "@patternfly/react-core", None);
    assert_eq!(deps.len(), 2);
}

#[test]
fn test_find_dependents_skips_self() {
    let entries = vec![LockfileEntry {
        name: "@patternfly/react-core".into(),
        version: "5.4.14".into(),
        dependencies: ranges([(
            "@patternfly/react-core".into(), // self-reference (shouldn't happen but guard)
            "^5.0.0".into(),
        )]),
        peer_dependencies: TextMap::new(),
    }];

    let deps = find_dependents(&entries, "@patternfly/react-core", Some("5.99.99"));
    assert!(deps.is_empty());
}

#[test]
fn test_find_dependents_yarn_npm_prefix() {
    let entries = vec![LockfileEntry {
        name: "@patternfly/react-topology".into(),
        version: "5.2.1".into(),
        dependencies: ranges([(
            "@patternfly/react-core".into(),
            "npm:^5.1.1".into(), // yarn format with npm: prefix
        )]),
        peer_dependencies: TextMap::new(),
    }];

    let deps = find_dependents(&entries, "@patternfly/react-core", Some("5.99.99"));
    assert_eq!(deps.len(), 1);
    assert_eq!(deps[0].name, "@patternfly/react-topology");
}

#[test]
fn test_find_dependents_via_peer_deps() {
    // Simulates @openshift/dynamic-plugin-sdk-utils depending on
    // @patternfly/react-core via peerDependencies
    let entries = vec![
        LockfileEntry {
            name: "@patternfly/react-core".into(),
            version: "5.4.14".into(),
            dependencies: TextMap::new(),
            peer_dependencies: TextMap::new(),
        },
        LockfileEntry {
            name: "@openshift/dynamic-plugin-sdk-utils".into(),
            version: "4.1.0".into(),
            // Peer deps are merged into dependencies for find_dependents
            dependencies: ranges([
                ("@patternfly/react-core".into(), "^5.1.0".into()),
                ("lodash".into(), "^4.17.21".into()),
            ]),
            peer_dependencies: ranges([(
                "@patternfly/react-core".into(),
                "^5.1.0".into(),
            )]),
        },
    ];

    // find_dependents should find sdk-utils as a dependent of react-core
    let deps = find_dependents(&entries, "@patternfly/react-core", Some("5.99.99"));
    assert_eq!(deps.len(), 1);
    assert_eq!(deps[0].name, "@openshift/dynamic-plugin-sdk-utils");

    // Verify peer_dependencies field is populated
    assert!(entries[1]
        .peer_dependencies
        .contains_key("@patternfly/react-core"));
    assert!(!entries[1].peer_dependencies.contains_key("lodash"));
}

#[test]
fn test_constraint_within_upperbound() {
    // v5 constraints within 5.99.99 bound
    assert!(constraint_within_upperbound("^5.1.1", "5.99.99"));
    assert!(constraint_within_upperbound("^5.4.14", "5.99.99"));
    assert!(constraint_within_upperbound("~5.0.0", "5.99.99"));
    assert!(constraint_within_upperbound("npm:^5.1.1", "5.99.99"));

    // v6 constraints above 5.99.99 bound
    assert!(!constraint_within_upperbound("^6.0.0", "5.99.99"));
    assert!(!constraint_within_upperbound("^6.4.1", "5.99.99"));
    assert!(!constraint_within_upperbound("npm:^6.0.0", "5.99.99"));
}

// ── pnpm-lock.yaml tests ─────────────────────────────────────────

#[test]
fn test_extract_name_version_from_pnpm_key() {
    // Scoped package, no peers
    assert_eq!(
        extract_name_version_from_pnpm_key("@patternfly/react-core@5.1.1"),
        Some(("@patternfly/react-core".into(), "5.1.1".into()))
    );

    // Scoped package with peer suffix
    assert_eq!(
        extract_name_version_from_pnpm_key(
            "@patternfly/react-core@5.1.1(react-dom@18.2.0)(react@18.2.0)"
        ),
        Some(("@patternfly/react-core".into(), "5.1.1".into()))
    );

    // Scoped package with nested peer suffix (v9)
    assert_eq!(
        extract_name_version_from_pnpm_key(
            "@patternfly/react-core@5.1.1(react-dom@18.2.0(react@18.2.0))(react@18.2.0)"
        ),
        Some(("@patternfly/react-core".into(), "5.1.1".into()))
    );

    // Unscoped package
    assert_eq!(
        extract_name_version_from_pnpm_key("lodash@4.17.21"),
        Some(("lodash".into(), "4.17.21".into()))
    );

    // Unscoped package with peers
    assert_eq!(
        extract_name_version_from_pnpm_key("react-dom@18.2.0(react@18.2.0)"),
        Some(("react-dom".into(), "18.2.0".into()))
    );

    // Empty
    assert_eq!(extract_name_version_from_pnpm_key(""), None);
}

#[test]
fn test_strip_pnpm_peer_suffix() {
    assert_eq!(
        strip_pnpm_peer_suffix("5.1.1(react-dom@18.2.0)(react@18.2.0)"),
        "5.1.1"
    );
    assert_eq!(strip_pnpm_peer_suffix("18.2.0(react@18.2.0)"), "18.2.0");
    assert_eq!(strip_pnpm_peer_suffix("4.17.21"), "4.17.21");
    assert_eq!(
        strip_pnpm_peer_suffix("5.1.1(react-dom@18.2.0(react@18.2.0))(react@18.2.0)"),
        "5.1.1"
    );
}

#[test]
fn test_parse_pnpm_v6_basic() {
    let content = r#"
lockfileVersion: '6.0'

packages:
  /@patternfly/react-core@5.1.1(react-dom@18.2.0)(react@18.2.0):
    resolution: {integrity: sha512-abc123}
    dependencies:
      '@patternfly/react-icons': 5.1.1(react-dom@18.2.0)(react@18.2.0)
      '@patternfly/react-styles': 5.1.1
    dev: false

  /@patternfly/react-topology@5.2.1(react-dom@18.2.0)(react@18.2.0):
    resolution: {integrity: sha512-def456}
    dependencies:
      '@patternfly/react-core': 5.1.1(react-dom@18.2.0)(react@18.2.0)
      '@patternfly/react-icons': 5.1.1(react-dom@18.2.0)(react@18.2.0)
      d3: 7.8.5
    dev: false

  /lodash@4.17.21:
    resolution: {integrity: sha512-ghi789}
    dev: false
"#;

    let entries = parse_pnpm_lock_yaml(content).unwrap();
    assert_eq!(entries.len(), 3);

    let topology = entries
        .iter()
        .find(|e| e.name == "@patternfly/react-topology")
        .unwrap();
    assert_eq!(topology.version, "5.2.1");
    // Peer suffix stripped from dep version
    assert_eq!(
        topology.dependencies.get("@patternfly/react-core").unwrap(),
        "5.1.1"
    );
    assert_eq!(topology.dependencies.get("d3").unwrap(), "7.8.5");

    let core = entries
        .iter()
        .find(|e| e.name == "@patternfly/react-core")
        .unwrap();
    assert_eq!(core.version, "5.1.1");
    assert_eq!(
        core.dependencies.get("@patternfly/react-icons").unwrap(),
        "5.1.1"
    );

    let lodash = entries.iter().find(|e| e.name == "lodash").unwrap();
    assert_eq!(lodash.version, "4.17.21");
}

#[test]
fn test_parse_pnpm_v9_basic() {
    let content = r#"
lockfileVersion: '9.0'

packages:
  '@patternfly/react-core@5.1.1':
    resolution: {integrity: sha512-abc123}
    peerDependencies:
      react: ^17 || ^18
      react-dom: ^17 || ^18

  '@patternfly/react-topology@5.2.1':
    resolution: {integrity: sha512-def456}
    peerDependencies:
      react: ^17 || ^18
      react-dom: ^17 || ^18

  lodash@4.17.21:
    resolution: {integrity: sha512-ghi789}

snapshots:
  '@patternfly/react-core@5.1.1(react-dom@18.2.0(react@18.2.0))(react@18.2.0)':
    dependencies:
      '@patternfly/react-icons': 5.1.1(react-dom@18.2.0(react@18.2.0))(react@18.2.0)
      '@patternfly/react-styles': 5.1.1
      react: 18.2.0
      react-dom: 18.2.0(react@18.2.0)

  '@patternfly/react-topology@5.2.1(react-dom@18.2.0(react@18.2.0))(react@18.2.0)':
    dependencies:
      '@patternfly/react-core': 5.1.1(react-dom@18.2.0(react@18.2.0))(react@18.2.0)
      '@patternfly/react-icons': 5.1.1(react-dom@18.2.0(react@18.2.0))(react@18.2.0)
      d3: 7.8.5

  lodash@4.17.21: {}
"#;

    let entries = parse_pnpm_lock_yaml(content).unwrap();
    assert_eq!(entries.len(), 3);

    let topology = entries
        .iter()
        .find(|e| e.name == "@patternfly/react-topology")
        .unwrap();
    assert_eq!(topology.version, "5.2.1");
    // Dependencies came from snapshots, peer suffixes stripped
    assert_eq!(
        topology.dependencies.get("@patternfly/react-core").unwrap(),
        "5.1.1"
    );
    assert_eq!(topology.dependencies.get("d3").unwrap(), "7.8.5");

    let core = entries
        .iter()
        .find(|e| e.name == "@patternfly/react-core")
        .unwrap();
    assert_eq!(core.version, "5.1.1");
    assert_eq!(
        core.dependencies.get("@patternfly/react-icons").unwrap(),
        "5.1.1"
    );
    // Peer deps from snapshots also captured
    assert_eq!(core.dependencies.get("react").unwrap(), "18.2.0");
}

#[test]
fn test_parse_pnpm_v9_snapshot_only_package() {
    // A package that appears only in snapshots (not in packages)
    let content = r#"
lockfileVersion: '9.0'

packages: {}

snapshots:
  tslib@2.6.0:
    dependencies:
      some-dep: 1.0.0
"#;

    let entries = parse_pnpm_lock_yaml(content).unwrap();
    assert_eq!(entries.len(), 1);
    assert_eq!(entries[0].name, "tslib");
    assert_eq!(entries[0].version, "2.6.0");
    assert_eq!(entries[0].dependencies.get("some-dep").unwrap(), "1.0.0");
}

#[test]
fn test_parse_pnpm_v6_peer_deps() {
    let content = r#"
lockfileVersion: '6.0'

packages:
  /some-plugin@2.0.0(react@18.2.0):
    resolution: {integrity: sha512-xyz}
    peerDependencies:
      react: ^18.0.0
    dependencies:
      '@patternfly/react-core': 5.0.0(react@18.2.0)
      lodash: 4.17.21
    dev: false
"#;

    let entries = parse_pnpm_lock_yaml(content).unwrap();
    assert_eq!(entries.len(), 1);
    assert_eq!(entries[0].name, "some-plugin");
    assert_eq!(entries[0].version, "2.0.0");
    // peerDependencies collected in merged map (range preserved for peers in the entry)
    assert!(entries[0].dependencies.contains_key("react"));
    // Regular dep version has peer suffix stripped
    assert_eq!(
        entries[0]
            .dependencies
            .get("@patternfly/react-core")
            .unwrap(),
        "5.0.0"
    );
    // Peer deps tracked separately
    assert!(entries[0].peer_dependencies.contains_key("react"));
    // Regular dep not in peer_dependencies
    assert!(!entries[0].peer_dependencies.contains_key("lodash"));
    assert!(!entries[0]
        .peer_dependencies
        .contains_key("@patternfly/react-core"));
}

#[test]
fn test_parse_pnpm_empty_packages() {
    let content = r#"
lockfileVersion: '9.0'
"#;

    let entries = parse_pnpm_lock_yaml(content).unwrap();
    assert!(entries.is_empty());
}

#[test]
fn test_parse_pnpm_numeric_lockfile_version() {
    // Some pnpm versions write lockfileVersion as a number, not string
    let content = r#"
lockfileVersion: 6.0

packages:
  /lodash@4.17.21:
    resolution: {integrity: sha512-abc}
    dev: false
"#;

    let entries = parse_pnpm_lock_yaml(content).unwrap();
    assert_eq!(entries.len(), 1);
    assert_eq!(entries[0].name, "lodash");
}

// ── monorepo lockfile discovery tests ─────────────────────────────

#[test]
fn test_parse_all_lockfiles_root_lockfile() {
    let lock_content = r#"{
        "lockfileVersion": 3,
        "packages": {
            "": { "name": "root", "version": "1.0.0" },
            "node_modules/lodash": { "version": "4.17.21" }
        }
    }"#;
    let mut root = without_lockfiles("/repo");
    root.package_lock = Some(Ok(lock_content.to_string()));
    // A sub-project without a lockfile, then the root again.
    let mut again = without_lockfiles("/repo");
    again.package_lock = Some(Ok(lock_content.to_string()));
    let dirs = vec![without_lockfiles("/repo/packages/app"), again];

    let (entries, paths) = parse_all_lockfiles(&root, &dirs).unwrap();

    // Should find the root lockfile
    assert_eq!(entries.len(), 1);
    assert_eq!(entries[0].name, "lodash");
    assert_eq!(paths.len(), 1);
    assert_eq!(paths[0], "/repo/package-lock.json");
}

#[test]
fn test_parse_all_lockfiles_subproject_fallback() {
    let root = without_lockfiles("/repo");
    let lock_a = r#"{
        "lockfileVersion": 3,
        "packages": {
            "": { "name": "a", "version": "1.0.0" },
            "node_modules/@patternfly/react-core": { "version": "5.4.14" }
        }
    }"#;
    let lock_b = r#"{
        "lockfileVersion": 3,
        "packages": {
            "": { "name": "b", "version": "1.0.0" },
            "node_modules/lodash": { "version": "4.17.21" }
        }
    }"#;
    let mut sub_a = without_lockfiles("/repo/project-a");
    sub_a.package_lock = Some(Ok(lock_a.to_string()));
    let mut sub_b = without_lockfiles("/repo/project-b");
    sub_b.package_lock = Some(Ok(lock_b.to_string()));
    let dirs = vec![sub_a, sub_b, without_lockfiles("/repo")];

    let (entries, paths) = parse_all_lockfiles(&root, &dirs).unwrap();

    // Should find both sub-project lockfiles
    assert_eq!(entries.len(), 2);
    assert!(entries.iter().any(|e| e.name == "@patternfly/react-core"));
    assert!(entries.iter().any(|e| e.name == "lodash"));
    assert_eq!(paths.len(), 2);
}

#[test]
fn test_parse_all_lockfiles_no_lockfiles() {
    let root = without_lockfiles("/repo");
    let dirs = vec![without_lockfiles("/repo")];
    let (entries, paths) = parse_all_lockfiles(&root, &dirs).unwrap();

    assert!(entries.is_empty());
    assert!(paths.is_empty());
}

#[test]
fn test_parse_all_lockfiles_pnpm() {
    let pnpm_content = r#"
lockfileVersion: '9.0'

packages:
  '@patternfly/react-core@5.1.1':
    resolution: {integrity: sha512-abc}

snapshots:
  '@patternfly/react-core@5.1.1(react@18.2.0)':
    dependencies:
      react: 18.2.0
"#;
    let mut root = without_lockfiles("/repo");
    root.pnpm_lock = Some(Ok(pnpm_content.to_string()));
    let dirs = vec![without_lockfiles("/repo")];
    let (entries, paths) = parse_all_lockfiles(&root, &dirs).unwrap();

    assert_eq!(entries.len(), 1);
    assert_eq!(entries[0].name, "@patternfly/react-core");
    assert_eq!(entries[0].version, "5.1.1");
    assert_eq!(paths.len(), 1);
    assert_eq!(paths[0], "/repo/pnpm-lock.yaml");
}

// ── Errors and edges ──────────────────────────────────────────────────

#[test]
fn unreadable_lockfiles_are_errors() {
    assert!(matches!(
        parse_package_lock_json("{not json"),
        Err(LockfileError::InvalidPackageLock)
    ));
    assert!(matches!(
        parse_pnpm_lock_yaml("a: [1"),
        Err(LockfileError::InvalidPnpmLock)
    ));
    let mut dir = without_lockfiles("/repo");
    dir.yarn_lock = Some(Err("permission denied".to_string()));
    match parse_lockfile(&dir) {
        Err(LockfileError::Unreadable(path)) => assert_eq!(path, "/repo/yarn.lock"),
        other => panic!("expected an unreadable lockfile, got {:?}", other),
    }
}

#[test]
fn yarn_lockfile_counts_before_the_others() {
    let mut dir = without_lockfiles("/repo");
    assert_eq!(discover_lockfile_path(&dir), None);
    dir.pnpm_lock = Some(Ok(String::new()));
    assert_eq!(discover_lockfile_path(&dir), Some("/repo/pnpm-lock.yaml".to_string()));
    dir.package_lock = Some(Ok(String::new()));
    assert_eq!(discover_lockfile_path(&dir), Some("/repo/package-lock.json".to_string()));
    dir.yarn_lock = Some(Ok(String::new()));
    assert_eq!(discover_lockfile_path(&dir), Some("/repo/yarn.lock".to_string()));
}

#[test]
fn higher_bounds_admit_the_same_constraint() {
    assert!(constraint_within_upperbound("^5.1.1", "5.1.1"));
    assert!(constraint_within_upperbound("^5.1.1", "6.0.0"));
    assert!(!constraint_within_upperbound("^5.1.2", "5.1.1"));
}

#[test]
fn yarn_dependencies_belong_to_one_package() {
    let content = "\"a@npm:1.0.0\":\n  version: 1.0.0\n  dependencies:\n    x: \"npm:^1.0.0\"\n\n\"b@npm:2.0.0\":\n  version: 2.0.0\n";
    let entries = parse_yarn_lock_berry(content).unwrap();
    assert_eq!(entries.len(), 2);
    assert_eq!(entries[0].name, "a");
    assert!(entries[0].dependencies.contains_key("x"));
    assert!(entries[1].dependencies.is_empty());
}

#[test]
fn root_lockfiles_count_though_they_resolve_nothing() {
    let mut root = without_lockfiles("/repo");
    root.yarn_lock = Some(Ok(String::new()));
    let mut sub = without_lockfiles("/repo/sub");
    sub.package_lock = Some(Ok(
        r#"{"packages": {"node_modules/lodash": {"version": "4.17.21"}}}"#.to_string(),
    ));
    let (entries, paths) = parse_all_lockfiles(&root, &vec![sub]).unwrap();
    assert!(entries.is_empty());
    assert_eq!(paths, vec!["/repo/yarn.lock"]);
}

#[test]
fn lockfiles_of_subprojects_are_listed_though_they_resolve_nothing() {
    let root = without_lockfiles("/repo");
    let mut empty = without_lockfiles("/repo/a");
    empty.yarn_lock = Some(Ok(String::new()));
    let mut full = without_lockfiles("/repo/b");
    full.package_lock = Some(Ok(
        r#"{"packages": {"node_modules/lodash": {"version": "4.17.21"}}}"#.to_string(),
    ));
    let mut again = without_lockfiles("/repo//b/");
    again.package_lock = Some(Ok(
        r#"{"packages": {"node_modules/react": {"version": "18.2.0"}}}"#.to_string(),
    ));
    let (entries, paths) = parse_all_lockfiles(&root, &vec![empty, full, again]).unwrap();
    assert_eq!(entries.len(), 1);
    assert_eq!(entries[0].name, "lodash");
    assert_eq!(paths, vec!["/repo/a/yarn.lock", "/repo/b/package-lock.json"]);
}

#[test]
fn declared_peers_of_pnpm_packages_are_kept() {
    let content = r#"
lockfileVersion: '9.0'

packages:
  a@1.0.0:
    resolution: {integrity: sha512-abc}
    peerDependencies:
      react: ^17 || ^18

snapshots:
  a@1.0.0(react@18.2.0):
    dependencies:
      react: 18.2.0
"#;
    let entries = parse_pnpm_lock_yaml(content).unwrap();
    assert_eq!(entries.len(), 1);
    assert_eq!(entries[0].peer_dependencies.get("react").unwrap(), "^17 || ^18");
    assert_eq!(entries[0].dependencies.get("react").unwrap(), "18.2.0");
}
