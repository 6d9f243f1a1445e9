use frontend_analyzer::estree::parse_program;
use frontend_analyzer::incident::Incident;
use frontend_analyzer::json::Json;
use frontend_analyzer::type_refs::scan_type_refs;
use regex::Regex;

fn scan_source(source: &str, pattern: &str) -> Vec<Incident> {
    let program = parse_program(source).unwrap();
    let re = Regex::new(pattern).unwrap();

    program
        .body
        .iter()
        .flat_map(|stmt| scan_type_refs(stmt, source, &re, "file:///test.tsx"))
        .collect()
}

#[test]
fn test_type_alias_matches() {
    let incidents = scan_source("type MyProps = ButtonProps;", r"^MyProps$");
    assert_eq!(incidents.len(), 1);
    assert_eq!(
        incidents[0].variables.get("typeName"),
        Some(&Json::Str("MyProps".to_string()))
    );
}

#[test]
fn test_type_alias_rhs_reference() {
    let incidents = scan_source("type MyProps = ButtonProps;", r"^ButtonProps$");
    assert_eq!(incidents.len(), 1);
    assert_eq!(
        incidents[0].variables.get("typeName"),
        Some(&Json::Str("ButtonProps".to_string()))
    );
}

#[test]
fn test_interface_declaration() {
    let incidents = scan_source("interface MyInterface {}", r"^MyInterface$");
    assert_eq!(incidents.len(), 1);
}

#[test]
fn test_interface_extends() {
    let incidents = scan_source("interface MyProps extends ButtonProps {}", r"^ButtonProps$");
    assert_eq!(incidents.len(), 1);
    assert_eq!(
        incidents[0].variables.get("typeName"),
        Some(&Json::Str("ButtonProps".to_string()))
    );
}

#[test]
fn test_variable_type_annotation() {
    let incidents = scan_source("const x: ButtonProps = {};", r"^ButtonProps$");
    assert_eq!(incidents.len(), 1);
}

#[test]
fn test_union_type_reference() {
    let incidents = scan_source(
        "type Combined = ButtonProps | AlertProps;",
        r"^ButtonProps$",
    );
    assert_eq!(incidents.len(), 1);
}

#[test]
fn type_refs_test_no_match() {
    let incidents = scan_source("type Foo = string;", r"^ButtonProps$");
    assert!(incidents.is_empty());
}

#[test]
fn test_exported_type_alias() {
    let incidents = scan_source("export type MyProps = ButtonProps;", r"^MyProps$");
    assert_eq!(incidents.len(), 1);
}

#[test]
fn test_exported_interface() {
    let incidents = scan_source("export interface MyInterface {}", r"^MyInterface$");
    assert_eq!(incidents.len(), 1);
}

#[test]
fn test_array_type_reference() {
    let incidents = scan_source("const items: ButtonProps[] = [];", r"^ButtonProps$");
    assert_eq!(incidents.len(), 1);
}

#[test]
fn signatures_of_functions_are_searched() {
    let names = |source: &str| -> Vec<String> {
        scan_source(source, "Props$")
            .iter()
            .map(|i| match i.variables.get("typeName") {
                Some(Json::Str(s)) => s.clone(),
                other => panic!("expected a name, got {:?}", other),
            })
            .collect()
    };
    assert_eq!(names("function f(a: AProps, { b }: BProps = x, ...c: CProps[]): DProps { return a; }"), vec!["AProps", "BProps", "CProps", "DProps"]);
    assert_eq!(names("export function f(a: AProps) {}"), vec!["AProps"]);
    assert_eq!(names("export default function f(a: AProps) {}"), vec!["AProps"]);
    assert_eq!(names("export const f = (a: AProps): Promise<BProps> => g(a);"), vec!["AProps", "BProps"]);
    assert_eq!(names("const f: FC<AProps> = function (b: BProps) {};"), vec!["AProps", "BProps"]);
    assert!(names("function f(a) { const b: AProps = a; }").is_empty());
}

#[test]
fn bases_of_exported_interfaces_are_found() {
    let incidents = scan_source(
        "export interface MyProps extends ButtonProps, AlertProps {}",
        r"Props$",
    );
    let names: Vec<Option<&Json>> = incidents.iter().map(|i| i.variables.get("typeName")).collect();
    assert_eq!(
        names,
        vec![
            Some(&Json::Str("MyProps".to_string())),
            Some(&Json::Str("ButtonProps".to_string())),
            Some(&Json::Str("AlertProps".to_string())),
        ]
    );
}
