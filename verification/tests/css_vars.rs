use frontend_analyzer::estree::parse_program;
use frontend_analyzer::incident::Incident;
use frontend_analyzer::json::Json;
use frontend_analyzer::css_vars::scan_css_var_usage;
use regex::Regex;

fn scan_source(source: &str, pattern: &str) -> Vec<Incident> {
    let program = parse_program(source).unwrap();
    let re = Regex::new(pattern).unwrap();

    program
        .body
        .iter()
        .flat_map(|stmt| scan_css_var_usage(stmt, source, &re, "file:///test.tsx"))
        .collect()
}

#[test]
fn test_string_literal_css_var() {
    let source = r#"const color = "--pf-v5-global--Color--100";"#;
    let incidents = scan_source(source, r"--pf-v5-");
    assert_eq!(incidents.len(), 1);
    assert_eq!(
        incidents[0].variables.get("matchingText"),
        Some(&Json::Str(
            "--pf-v5-global--Color--100".to_string()
        ))
    );
}

#[test]
fn test_template_literal_css_var() {
    let source = r#"const style = `var(--pf-v5-global--spacer--md)`;"#;
    let incidents = scan_source(source, r"--pf-v5-");
    assert_eq!(incidents.len(), 1);
}

#[test]
fn css_vars_test_no_match() {
    let source = r#"const color = "--pf-v6-global--Color--100";"#;
    let incidents = scan_source(source, r"--pf-v5-");
    assert!(incidents.is_empty());
}

#[test]
fn test_css_var_in_function_call() {
    let source = r#"getComputedStyle(el).getPropertyValue("--pf-v5-global--Color--100");"#;
    let incidents = scan_source(source, r"--pf-v5-");
    assert_eq!(incidents.len(), 1);
}

#[test]
fn test_css_var_in_variable_declaration() {
    let source = r#"const varName = "--pf-v5-global--spacer--lg";"#;
    let incidents = scan_source(source, r"--pf-v5-");
    assert_eq!(incidents.len(), 1);
}

#[test]
fn test_css_var_in_style_object_key() {
    let source = r#"
            const el = <div style={{ "--pf-v5-c-label--Color": "red" }}>text</div>;
        "#;
    let incidents = scan_source(source, r"--pf-v5-");
    assert_eq!(incidents.len(), 1);
    assert_eq!(
        incidents[0].variables.get("matchingText"),
        Some(&Json::Str(
            "--pf-v5-c-label--Color".to_string()
        ))
    );
}

#[test]
fn test_css_var_in_style_object_value() {
    let source = r#"
            const el = <div style={{ color: "var(--pf-v5-global--Color--100)" }}>text</div>;
        "#;
    let incidents = scan_source(source, r"--pf-v5-");
    assert_eq!(incidents.len(), 1);
}

#[test]
fn test_css_var_inside_map_callback() {
    let source = r#"
            const el = <ul>{items.map((item) => (
                <li style={{ "--pf-v5-c-label--Color": item.color }}>text</li>
            ))}</ul>;
        "#;
    let incidents = scan_source(source, r"--pf-v5-");
    assert_eq!(incidents.len(), 1);
}

#[test]
fn test_css_var_inside_ternary() {
    let source = r#"
            const el = <div>{condition ? (
                <span style={{ "--pf-v5-c-icon--Color": "blue" }}>icon</span>
            ) : null}</div>;
        "#;
    let incidents = scan_source(source, r"--pf-v5-");
    assert_eq!(incidents.len(), 1);
}

#[test]
fn test_css_var_inside_logical_and() {
    let source = r#"
            const el = <div>{show && <span style={{ "--pf-v5-c-icon--Color": "blue" }}>icon</span>}</div>;
        "#;
    let incidents = scan_source(source, r"--pf-v5-");
    assert_eq!(incidents.len(), 1);
}

#[test]
fn test_css_var_in_object_expression() {
    let source = r#"
            const styles = {
                "--pf-v5-c-label__content--before--BorderColor": borderColor,
                "--pf-v5-c-label--BackgroundColor": backgroundColor,
            };
        "#;
    let incidents = scan_source(source, r"--pf-v5-");
    assert_eq!(incidents.len(), 2);
}

#[test]
fn test_css_var_in_ts_as_expression() {
    let source = r#"
            const el = <Label style={{
                "--pf-v5-c-label__content--before--BorderColor": borderColor,
                "--pf-v5-c-label--BackgroundColor": backgroundColor,
            } as React.CSSProperties} />;
        "#;
    let incidents = scan_source(source, r"--pf-v5-");
    assert_eq!(incidents.len(), 2);
}

#[test]
fn test_css_var_in_ts_satisfies_expression() {
    let source = r#"
            const styles = {
                "--pf-v5-c-label--Color": "red",
            } satisfies Record<string, string>;
        "#;
    let incidents = scan_source(source, r"--pf-v5-");
    assert_eq!(incidents.len(), 1);
}
