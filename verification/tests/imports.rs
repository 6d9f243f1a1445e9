use frontend_analyzer::estree::parse_program;
use frontend_analyzer::incident::Incident;
use frontend_analyzer::json::Json;
use frontend_analyzer::imports::{build_import_map, scan_imports};
use regex::Regex;

// ── build_import_map tests ───────────────────────────────────────────

#[test]
fn test_build_import_map_named_imports() {
    let source = r#"import { Button, Alert } from '@patternfly/react-core';"#;
    let program = parse_program(source).unwrap();
    let map = build_import_map(&program);

    assert_eq!(
        map.get("Button"),
        Some(&"@patternfly/react-core".to_string())
    );
    assert_eq!(
        map.get("Alert"),
        Some(&"@patternfly/react-core".to_string())
    );
}

#[test]
fn test_build_import_map_default_import() {
    let source = r#"import React from 'react';"#;
    let program = parse_program(source).unwrap();
    let map = build_import_map(&program);

    assert_eq!(map.get("React"), Some(&"react".to_string()));
}

#[test]
fn test_build_import_map_namespace_import() {
    let source = r#"import * as PF from '@patternfly/react-core';"#;
    let program = parse_program(source).unwrap();
    let map = build_import_map(&program);

    assert_eq!(map.get("PF"), Some(&"@patternfly/react-core".to_string()));
}

#[test]
fn test_build_import_map_aliased_import() {
    let source = r#"import { Button as PFButton } from '@patternfly/react-core';"#;
    let program = parse_program(source).unwrap();
    let map = build_import_map(&program);

    // Keyed by local name
    assert_eq!(
        map.get("PFButton"),
        Some(&"@patternfly/react-core".to_string())
    );
    assert!(map.get("Button").is_none()); // imported name, not local
}

#[test]
fn test_build_import_map_multiple_imports() {
    let source = r#"
import { Button } from '@patternfly/react-core';
import { Table } from '@patternfly/react-table';
import React from 'react';
"#;
    let program = parse_program(source).unwrap();
    let map = build_import_map(&program);

    assert_eq!(
        map.get("Button"),
        Some(&"@patternfly/react-core".to_string())
    );
    assert_eq!(
        map.get("Table"),
        Some(&"@patternfly/react-table".to_string())
    );
    assert_eq!(map.get("React"), Some(&"react".to_string()));
}

#[test]
fn test_build_import_map_empty_source() {
    let source = "const x = 1;";
    let program = parse_program(source).unwrap();
    let map = build_import_map(&program);

    assert!(map.is_empty());
}

// ── scan_imports tests ───────────────────────────────────────────────

#[test]
fn test_scan_imports_matches_module_source() {
    let source = r#"import { Button } from '@patternfly/react-core';"#;
    let program = parse_program(source).unwrap();
    let pattern = Regex::new(r"@patternfly/react-core").unwrap();

    let incidents: Vec<Incident> = program
        .body
        .iter()
        .flat_map(|stmt| scan_imports(stmt, source, &pattern, "file:///test.tsx"))
        .collect();

    assert_eq!(incidents.len(), 1);
    assert!(incidents[0].variables.contains_key("module"));
    assert!(incidents[0].variables.contains_key("matchingText"));
}

#[test]
fn test_scan_imports_matches_specifier_name() {
    let source = r#"import { Chip, Button } from '@patternfly/react-core';"#;
    let program = parse_program(source).unwrap();
    let pattern = Regex::new(r"^Chip$").unwrap();

    let incidents: Vec<Incident> = program
        .body
        .iter()
        .flat_map(|stmt| scan_imports(stmt, source, &pattern, "file:///test.tsx"))
        .collect();

    assert_eq!(incidents.len(), 1);
    assert_eq!(
        incidents[0].variables.get("importedName"),
        Some(&Json::Str("Chip".to_string()))
    );
    assert_eq!(
        incidents[0].variables.get("module"),
        Some(&Json::Str(
            "@patternfly/react-core".to_string()
        ))
    );
}

#[test]
fn test_scan_imports_no_match() {
    let source = r#"import { Button } from '@patternfly/react-core';"#;
    let program = parse_program(source).unwrap();
    let pattern = Regex::new(r"^NonExistent$").unwrap();

    let incidents: Vec<Incident> = program
        .body
        .iter()
        .flat_map(|stmt| scan_imports(stmt, source, &pattern, "file:///test.tsx"))
        .collect();

    assert!(incidents.is_empty());
}

#[test]
fn test_scan_imports_default_import() {
    let source = r#"import React from 'react';"#;
    let program = parse_program(source).unwrap();
    let pattern = Regex::new(r"^React$").unwrap();

    let incidents: Vec<Incident> = program
        .body
        .iter()
        .flat_map(|stmt| scan_imports(stmt, source, &pattern, "file:///test.tsx"))
        .collect();

    assert_eq!(incidents.len(), 1);
    assert_eq!(
        incidents[0].variables.get("importedName"),
        Some(&Json::Str("React".to_string()))
    );
}

#[test]
fn test_scan_imports_aliased_matches_local() {
    let source = r#"import { Chip as OldChip } from '@patternfly/react-core';"#;
    let program = parse_program(source).unwrap();
    let pattern = Regex::new(r"^OldChip$").unwrap();

    let incidents: Vec<Incident> = program
        .body
        .iter()
        .flat_map(|stmt| scan_imports(stmt, source, &pattern, "file:///test.tsx"))
        .collect();

    assert_eq!(incidents.len(), 1);
    assert_eq!(
        incidents[0].variables.get("importedName"),
        Some(&Json::Str("Chip".to_string()))
    );
    assert_eq!(
        incidents[0].variables.get("localName"),
        Some(&Json::Str("OldChip".to_string()))
    );
}

#[test]
fn test_scan_imports_namespace() {
    let source = r#"import * as PF from '@patternfly/react-core';"#;
    let program = parse_program(source).unwrap();
    let pattern = Regex::new(r"^PF$").unwrap();

    let incidents: Vec<Incident> = program
        .body
        .iter()
        .flat_map(|stmt| scan_imports(stmt, source, &pattern, "file:///test.tsx"))
        .collect();

    assert_eq!(incidents.len(), 1);
    assert_eq!(
        incidents[0].variables.get("importedName"),
        Some(&Json::Str("* as PF".to_string()))
    );
}

#[test]
fn test_scan_imports_non_import_statement_ignored() {
    let source = r#"const Button = 'not an import';"#;
    let program = parse_program(source).unwrap();
    let pattern = Regex::new(r"Button").unwrap();

    let incidents: Vec<Incident> = program
        .body
        .iter()
        .flat_map(|stmt| scan_imports(stmt, source, &pattern, "file:///test.tsx"))
        .collect();

    assert!(incidents.is_empty());
}

#[test]
fn incidents_name_their_module() {
    let source = "import D, { A as B, C } from 'pkg';\nimport { C } from 'other';";
    let program = parse_program(source).unwrap();
    let map = build_import_map(&program);
    assert_eq!(map.get("B"), Some(&"pkg".to_string()));
    // A later import of a name wins.
    assert_eq!(map.get("C"), Some(&"other".to_string()));

    let re = Regex::new("^[ACD]$").unwrap();
    let found = scan_imports(&program.body[0], source, &re, "file:///a.ts");
    assert_eq!(found.len(), 3);
    for incident in &found {
        assert_eq!(incident.file_uri, "file:///a.ts");
        assert_eq!(incident.variables.get("module"), Some(&Json::Str("pkg".to_string())));
    }
    let re = Regex::new("pkg").unwrap();
    assert_eq!(scan_imports(&program.body[0], source, &re, "file:///a.ts").len(), 1);
}
