use frontend_analyzer::capabilities::ReferenceLocation;
use frontend_analyzer::estree::parse_program;
use frontend_analyzer::imports::build_import_map;
use frontend_analyzer::incident::Incident;
use frontend_analyzer::json::Json;
use frontend_analyzer::jsx::{scan_jsx, scan_jsx_file};
use regex::Regex;

fn scan_source_jsx(
    source: &str,
    pattern: &str,
    location: Option<ReferenceLocation>,
) -> Vec<Incident> {
    let program = parse_program(source).unwrap();
    let re = Regex::new(pattern).unwrap();
    let import_map = build_import_map(&program);

    scan_jsx_file(
        &program.body,
        source,
        &re,
        "file:///test.tsx",
        location,
        &import_map,
    )
}

#[test]
fn test_jsx_component_match() {
    let source = r#"
import { Button } from '@patternfly/react-core';
const el = <Button>Click</Button>;
"#;
    let incidents =
        scan_source_jsx(source, r"^Button$", Some(ReferenceLocation::JsxComponent));
    assert_eq!(incidents.len(), 1);
    assert_eq!(
        incidents[0].variables.get("componentName"),
        Some(&Json::Str("Button".to_string()))
    );
}

#[test]
fn test_jsx_component_no_match() {
    let source = r#"const el = <Button>Click</Button>;"#;
    let incidents = scan_source_jsx(source, r"^Alert$", Some(ReferenceLocation::JsxComponent));
    assert!(incidents.is_empty());
}

#[test]
fn test_jsx_prop_match() {
    let source = r#"
import { Button } from '@patternfly/react-core';
const el = <Button isActive>Click</Button>;
"#;
    let incidents = scan_source_jsx(source, r"^isActive$", Some(ReferenceLocation::JsxProp));
    assert_eq!(incidents.len(), 1);
    assert_eq!(
        incidents[0].variables.get("propName"),
        Some(&Json::Str("isActive".to_string()))
    );
}

#[test]
fn test_jsx_prop_with_string_value() {
    let source = r#"const el = <Button variant="primary">Click</Button>;"#;
    let incidents = scan_source_jsx(source, r"^variant$", Some(ReferenceLocation::JsxProp));
    assert_eq!(incidents.len(), 1);
    assert_eq!(
        incidents[0].variables.get("propValue"),
        Some(&Json::Str("primary".to_string()))
    );
}

#[test]
fn test_jsx_component_with_module_resolution() {
    let source = r#"
import { Button } from '@patternfly/react-core';
const el = <Button>Click</Button>;
"#;
    let incidents =
        scan_source_jsx(source, r"^Button$", Some(ReferenceLocation::JsxComponent));
    assert_eq!(incidents.len(), 1);
    assert_eq!(
        incidents[0].variables.get("module"),
        Some(&Json::Str(
            "@patternfly/react-core".to_string()
        ))
    );
}

#[test]
fn test_jsx_member_expression_component() {
    let source = r#"const el = <Toolbar.Item>hello</Toolbar.Item>;"#;
    let incidents = scan_source_jsx(
        source,
        r"^Toolbar\.Item$",
        Some(ReferenceLocation::JsxComponent),
    );
    assert_eq!(incidents.len(), 1);
    assert_eq!(
        incidents[0].variables.get("componentName"),
        Some(&Json::Str("Toolbar.Item".to_string()))
    );
}

#[test]
fn test_jsx_nested_components_tracks_parent() {
    let source = r#"
import { Page, PageSection } from '@patternfly/react-core';
const el = <Page><PageSection>content</PageSection></Page>;
"#;
    let incidents = scan_source_jsx(
        source,
        r"^PageSection$",
        Some(ReferenceLocation::JsxComponent),
    );
    assert_eq!(incidents.len(), 1);
    assert_eq!(
        incidents[0].variables.get("parentName"),
        Some(&Json::Str("Page".to_string()))
    );
}

#[test]
fn test_jsx_scan_without_location_filter() {
    // Without a location filter, should match both component and prop usages
    let source = r#"const el = <Button isActive>Click</Button>;"#;
    let incidents = scan_source_jsx(source, r"^Button$", None);
    // Should find Button as component
    assert!(incidents.iter().any(|i| i.variables.get("componentName")
        == Some(&Json::Str("Button".to_string()))));
}

// ── ChainExpression tests ────────────────────────────────────────

#[test]
fn test_jsx_inside_optional_chaining_map() {
    // JSX inside items?.map() should be detected
    let source = r#"
import { Switch } from '@patternfly/react-core';
const el = <div>{items?.map(item => <Switch labelOff="No" />)}</div>;
"#;
    let incidents =
        scan_source_jsx(source, r"^Switch$", Some(ReferenceLocation::JsxComponent));
    assert_eq!(
        incidents.len(),
        1,
        "Should detect <Switch> inside optional chaining ?.map()"
    );
}

#[test]
fn test_jsx_prop_inside_optional_chaining() {
    // Props on JSX inside ?.map() should be detected
    let source = r#"
import { Switch } from '@patternfly/react-core';
const el = <div>{items?.map(item => <Switch labelOff="No" />)}</div>;
"#;
    let incidents = scan_source_jsx(source, r"^labelOff$", Some(ReferenceLocation::JsxProp));
    assert_eq!(
        incidents.len(),
        1,
        "Should detect labelOff prop inside optional chaining ?.map()"
    );
}

#[test]
fn test_jsx_inside_optional_chaining_filter_map() {
    // JSX inside chained ?.filter()?.map() - only the outer ?. is a ChainExpression
    let source = r#"
import { Tr } from '@patternfly/react-table';
const el = <div>{data?.filter(x => x.active).map(x => <Tr key={x.id} />)}</div>;
"#;
    let incidents = scan_source_jsx(source, r"^Tr$", Some(ReferenceLocation::JsxComponent));
    assert_eq!(
        incidents.len(),
        1,
        "Should detect <Tr> inside ?.filter().map() chain"
    );
}

#[test]
fn test_jsx_without_optional_chaining_still_works() {
    // Ensure regular .map() (non-optional) still works
    let source = r#"
import { Td } from '@patternfly/react-table';
const el = <div>{items.map(item => <Td>{item.name}</Td>)}</div>;
"#;
    let incidents = scan_source_jsx(source, r"^Td$", Some(ReferenceLocation::JsxComponent));
    assert_eq!(
        incidents.len(),
        1,
        "Should detect <Td> inside regular .map()"
    );
}

// ── Object key scanning tests ────────────────────────────────────

#[test]
fn test_jsx_prop_match_in_object_literal() {
    // formGroupProps={{ labelIcon: ... }} should match ^labelIcon$
    let source = r#"
import { HookFormPFGroupController } from './components';
const el = <HookFormPFGroupController formGroupProps={{ labelIcon: <Popover /> }} />;
"#;
    let incidents = scan_source_jsx(source, r"^labelIcon$", Some(ReferenceLocation::JsxProp));
    assert_eq!(
        incidents.len(),
        1,
        "Should detect labelIcon as object key inside prop value"
    );
    assert_eq!(
        incidents[0].variables.get("propName"),
        Some(&Json::Str("labelIcon".to_string()))
    );
    assert_eq!(
        incidents[0].variables.get("componentName"),
        Some(&Json::Str(
            "HookFormPFGroupController".to_string()
        ))
    );
}

#[test]
fn test_jsx_prop_object_key_with_import_resolution() {
    // Object key incidents should carry the module from the owning component
    let source = r#"
import { FormGroup } from '@patternfly/react-core';
const el = <FormGroup extraProps={{ labelIcon: "help" }} />;
"#;
    let incidents = scan_source_jsx(source, r"^labelIcon$", Some(ReferenceLocation::JsxProp));
    assert_eq!(incidents.len(), 1);
    assert_eq!(
        incidents[0].variables.get("module"),
        Some(&Json::Str(
            "@patternfly/react-core".to_string()
        ))
    );
}

#[test]
fn test_jsx_prop_direct_still_preferred_over_object_key() {
    // Direct JSX prop should still match, and object key shouldn't duplicate
    let source = r#"
import { FormGroup } from '@patternfly/react-core';
const el = <FormGroup labelIcon={<Popover />} />;
"#;
    let incidents = scan_source_jsx(source, r"^labelIcon$", Some(ReferenceLocation::JsxProp));
    // Should match only once (direct prop), not also as object key
    assert_eq!(incidents.len(), 1);
    assert_eq!(
        incidents[0].variables.get("propName"),
        Some(&Json::Str("labelIcon".to_string()))
    );
}

#[test]
fn test_jsx_prop_object_key_no_false_positive() {
    // Object keys that don't match the pattern should not produce incidents
    let source = r#"
const el = <Widget config={{ enabled: true, name: "test" }} />;
"#;
    let incidents = scan_source_jsx(source, r"^labelIcon$", Some(ReferenceLocation::JsxProp));
    assert!(incidents.is_empty());
}

// ── Object value extraction tests ────────────────────────────────

#[test]
fn test_jsx_prop_object_values_extracted() {
    // align={{ default: 'alignRight' }} should extract 'alignRight' as propObjectValues
    let source = r#"
import { ToolbarItem } from '@patternfly/react-core';
const el = <ToolbarItem align={{ default: 'alignRight' }} />;
"#;
    let incidents = scan_source_jsx(source, r"^align$", Some(ReferenceLocation::JsxProp));
    assert_eq!(incidents.len(), 1);

    let obj_values = incidents[0].variables.get("propObjectValues");
    assert!(
        obj_values.is_some(),
        "Should extract propObjectValues from object literal"
    );
    let values = obj_values.unwrap().as_array().unwrap();
    assert!(
        values.contains(&Json::Str("alignRight".to_string())),
        "propObjectValues should contain 'alignRight', got: {:?}",
        values
    );
}

#[test]
fn test_jsx_prop_object_values_multiple_breakpoints() {
    // align={{ default: 'alignRight', md: 'alignLeft' }} should extract both values
    let source = r#"
import { ToolbarGroup } from '@patternfly/react-core';
const el = <ToolbarGroup align={{ default: 'alignRight', md: 'alignLeft' }} />;
"#;
    let incidents = scan_source_jsx(source, r"^align$", Some(ReferenceLocation::JsxProp));
    assert_eq!(incidents.len(), 1);

    let values = incidents[0]
        .variables
        .get("propObjectValues")
        .unwrap()
        .as_array()
        .unwrap();
    assert!(values.contains(&Json::Str("alignRight".to_string())));
    assert!(values.contains(&Json::Str("alignLeft".to_string())));
}

#[test]
fn test_jsx_prop_direct_string_no_object_values() {
    // align="alignRight" should NOT have propObjectValues (it's a direct string)
    let source = r#"
import { ToolbarItem } from '@patternfly/react-core';
const el = <ToolbarItem align="alignRight" />;
"#;
    let incidents = scan_source_jsx(source, r"^align$", Some(ReferenceLocation::JsxProp));
    assert_eq!(incidents.len(), 1);
    assert!(
        incidents[0].variables.get("propObjectValues").is_none(),
        "Direct string props should not have propObjectValues"
    );
}

// ── Ternary / conditional expression value tests ──────────────────

#[test]
fn test_jsx_prop_ternary_object_values() {
    // spaceItems={condition ? { default: 'spaceItemsMd' } : undefined}
    // should extract 'spaceItemsMd' from the ternary's consequent branch
    let source = r#"
import { ToolbarToggleGroup } from '@patternfly/react-core';
const el = <ToolbarToggleGroup spaceItems={showFilters ? { default: 'spaceItemsMd' } : undefined} />;
"#;
    let incidents = scan_source_jsx(source, r"^spaceItems$", Some(ReferenceLocation::JsxProp));
    assert_eq!(incidents.len(), 1);

    let values = incidents[0]
        .variables
        .get("propObjectValues")
        .expect("Should extract propObjectValues from ternary branch")
        .as_array()
        .unwrap();
    assert!(
        values.contains(&Json::Str("spaceItemsMd".to_string())),
        "Should find 'spaceItemsMd' inside ternary consequent. Got: {:?}",
        values
    );
}

#[test]
fn test_jsx_prop_ternary_direct_string_values() {
    // variant={isActive ? 'primary' : 'secondary'}
    // should extract both 'primary' and 'secondary'
    let source = r#"
import { Button } from '@patternfly/react-core';
const el = <Button variant={isActive ? 'primary' : 'secondary'} />;
"#;
    let incidents = scan_source_jsx(source, r"^variant$", Some(ReferenceLocation::JsxProp));
    assert_eq!(incidents.len(), 1);

    let values = incidents[0]
        .variables
        .get("propObjectValues")
        .expect("Should extract values from ternary branches")
        .as_array()
        .unwrap();
    assert!(
        values.contains(&Json::Str("primary".to_string())),
        "Should find 'primary' in ternary. Got: {:?}",
        values
    );
    assert!(
        values.contains(&Json::Str("secondary".to_string())),
        "Should find 'secondary' in ternary. Got: {:?}",
        values
    );
}

// ── Typed object literal scanning tests ──────────────────────────

#[test]
fn test_typed_object_literal_basic() {
    // const x: ToolbarItemProps = { align: ... } should match ^align$
    let source = r#"
import { ToolbarItemProps } from '@patternfly/react-core';
const paginationToolbarItemProps: ToolbarItemProps = {
    variant: 'pagination',
    align: { default: 'alignRight' }
};
"#;
    let incidents = scan_source_jsx(source, r"^align$", Some(ReferenceLocation::JsxProp));
    assert_eq!(
        incidents.len(),
        1,
        "Should detect 'align' as a prop on typed object literal"
    );
    assert_eq!(
        incidents[0].variables.get("propName"),
        Some(&Json::Str("align".to_string()))
    );
    assert_eq!(
        incidents[0].variables.get("componentName"),
        Some(&Json::Str("ToolbarItem".to_string()))
    );
    assert_eq!(
        incidents[0].variables.get("module"),
        Some(&Json::Str(
            "@patternfly/react-core".to_string()
        ))
    );
}

#[test]
fn test_typed_object_literal_with_object_values() {
    // Should extract propObjectValues from nested responsive breakpoint object
    let source = r#"
import { ToolbarItemProps } from '@patternfly/react-core';
const x: ToolbarItemProps = { align: { default: 'alignRight', md: 'alignLeft' } };
"#;
    let incidents = scan_source_jsx(source, r"^align$", Some(ReferenceLocation::JsxProp));
    assert_eq!(incidents.len(), 1);

    let values = incidents[0]
        .variables
        .get("propObjectValues")
        .expect("Should have propObjectValues")
        .as_array()
        .unwrap();
    assert!(values.contains(&Json::Str("alignRight".to_string())));
    assert!(values.contains(&Json::Str("alignLeft".to_string())));
}

#[test]
fn test_typed_object_literal_with_string_value() {
    // Direct string property values should be captured as propValue
    let source = r#"
import { ButtonProps } from '@patternfly/react-core';
const x: ButtonProps = { variant: 'primary' };
"#;
    let incidents = scan_source_jsx(source, r"^variant$", Some(ReferenceLocation::JsxProp));
    assert_eq!(incidents.len(), 1);
    assert_eq!(
        incidents[0].variables.get("propValue"),
        Some(&Json::Str("primary".to_string()))
    );
    assert_eq!(
        incidents[0].variables.get("componentName"),
        Some(&Json::Str("Button".to_string()))
    );
}

#[test]
fn test_typed_object_literal_no_match_without_import() {
    // Type not in import map should not produce incidents
    let source = r#"
type LocalProps = { align: string };
const x: LocalProps = { align: 'right' };
"#;
    let incidents = scan_source_jsx(source, r"^align$", Some(ReferenceLocation::JsxProp));
    assert!(
        incidents.is_empty(),
        "Should not match typed objects where type is not imported"
    );
}

#[test]
fn test_typed_object_literal_no_match_non_props_type() {
    // Type that doesn't end with "Props" should not match
    let source = r#"
import { ToolbarItem } from '@patternfly/react-core';
const x: ToolbarItem = { align: 'right' };
"#;
    let incidents = scan_source_jsx(source, r"^align$", Some(ReferenceLocation::JsxProp));
    assert!(
        incidents.is_empty(),
        "Should not match types that don't end with 'Props'"
    );
}

#[test]
fn test_typed_object_literal_partial_wrapper() {
    // Partial<ToolbarItemProps> should unwrap to ToolbarItem
    let source = r#"
import { ToolbarItemProps } from '@patternfly/react-core';
const x: Partial<ToolbarItemProps> = { align: { default: 'alignRight' } };
"#;
    let incidents = scan_source_jsx(source, r"^align$", Some(ReferenceLocation::JsxProp));
    assert_eq!(
        incidents.len(),
        1,
        "Should unwrap Partial<> to find Props type"
    );
    assert_eq!(
        incidents[0].variables.get("componentName"),
        Some(&Json::Str("ToolbarItem".to_string()))
    );
}

#[test]
fn test_typed_object_literal_exported() {
    // export const x: FooProps = { ... } should also work
    let source = r#"
import { ToolbarGroupProps } from '@patternfly/react-core';
export const groupProps: ToolbarGroupProps = {
    variant: 'icon-button-group',
    align: { default: 'alignRight' }
};
"#;
    let incidents = scan_source_jsx(source, r"^align$", Some(ReferenceLocation::JsxProp));
    assert_eq!(
        incidents.len(),
        1,
        "Should detect props in exported variable declarations"
    );
    assert_eq!(
        incidents[0].variables.get("componentName"),
        Some(&Json::Str("ToolbarGroup".to_string()))
    );
}

#[test]
fn test_typed_object_literal_no_match_wrong_prop() {
    // Only the matching property key should create an incident
    let source = r#"
import { ToolbarItemProps } from '@patternfly/react-core';
const x: ToolbarItemProps = { variant: 'pagination', align: { default: 'alignRight' } };
"#;
    let incidents = scan_source_jsx(source, r"^spaceItems$", Some(ReferenceLocation::JsxProp));
    assert!(
        incidents.is_empty(),
        "Should not match properties that don't match the pattern"
    );
}

#[test]
fn test_typed_object_literal_coexists_with_jsx() {
    // Both JSX prop and typed object literal should produce incidents
    let source = r#"
import { ToolbarItem, ToolbarItemProps } from '@patternfly/react-core';
const x: ToolbarItemProps = { align: { default: 'alignRight' } };
const el = <ToolbarItem align={{ default: 'alignRight' }} />;
"#;
    let incidents = scan_source_jsx(source, r"^align$", Some(ReferenceLocation::JsxProp));
    assert_eq!(
        incidents.len(),
        2,
        "Should detect both typed object literal and JSX prop"
    );
}

#[test]
fn test_typed_object_literal_real_world_pagination() {
    // Exact pattern from quipucords-ui usePaginationPropHelpers.ts
    let source = r#"
import { PaginationProps, ToolbarItemProps } from '@patternfly/react-core';

export const usePaginationPropHelpers = (args: any) => {
    const paginationProps: PaginationProps = {
        itemCount: 100,
        perPage: 10,
        page: 1,
    };

    const paginationToolbarItemProps: ToolbarItemProps = {
        variant: 'pagination',
        align: { default: 'alignRight' }
    };

    return { paginationProps, paginationToolbarItemProps };
};
"#;
    let incidents = scan_source_jsx(source, r"^align$", Some(ReferenceLocation::JsxProp));
    assert_eq!(
        incidents.len(),
        1,
        "Should detect 'align' in typed object literal inside function"
    );
    assert_eq!(
        incidents[0].variables.get("componentName"),
        Some(&Json::Str("ToolbarItem".to_string()))
    );
    assert_eq!(
        incidents[0].variables.get("module"),
        Some(&Json::Str(
            "@patternfly/react-core".to_string()
        ))
    );

    // Check that propObjectValues are extracted
    let values = incidents[0]
        .variables
        .get("propObjectValues")
        .expect("Should have propObjectValues")
        .as_array()
        .unwrap();
    assert!(values.contains(&Json::Str("alignRight".to_string())));
}

// ── Function-return tracing tests ────────────────────────────────

#[test]
fn test_function_return_inherits_parent_context() {
    // renderDropdownItems() returns <DropdownItem>, called inside <Dropdown>.
    // The scanner should see DropdownItem with parent Dropdown.
    let source = r#"
import { Dropdown, DropdownItem } from '@patternfly/react-core';
const renderItems = () => {
    return <DropdownItem>Item</DropdownItem>;
};
const el = <Dropdown>{renderItems()}</Dropdown>;
"#;
    let incidents = scan_source_jsx(
        source,
        r"^DropdownItem$",
        Some(ReferenceLocation::JsxComponent),
    );
    // Should have incidents: one from function body (no parent) + one from call site (parent=Dropdown)
    let with_dropdown_parent: Vec<_> = incidents
        .iter()
        .filter(|i| {
            i.variables.get("parentName")
                == Some(&Json::Str("Dropdown".to_string()))
        })
        .collect();
    assert!(
        !with_dropdown_parent.is_empty(),
        "Should have DropdownItem with parent Dropdown from call site. Incidents: {:?}",
        incidents.iter().map(|i| &i.variables).collect::<Vec<_>>()
    );
}

#[test]
fn test_function_return_with_map_inherits_parent() {
    // Common pattern: function returns items.map(x => <Component />)
    let source = r#"
import { Dropdown, DropdownItem } from '@patternfly/react-core';
const renderItems = () => {
    return [1, 2].map(i => <DropdownItem key={i}>Item {i}</DropdownItem>);
};
const el = <Dropdown>{renderItems()}</Dropdown>;
"#;
    let incidents = scan_source_jsx(
        source,
        r"^DropdownItem$",
        Some(ReferenceLocation::JsxComponent),
    );
    let with_dropdown_parent: Vec<_> = incidents
        .iter()
        .filter(|i| {
            i.variables.get("parentName")
                == Some(&Json::Str("Dropdown".to_string()))
        })
        .collect();
    assert!(
        !with_dropdown_parent.is_empty(),
        "Should trace through .map() arrow and inherit Dropdown parent. Incidents: {:?}",
        incidents.iter().map(|i| &i.variables).collect::<Vec<_>>()
    );
}

#[test]
fn test_nested_function_return_inherits_parent() {
    // Function declared INSIDE a component body (not top-level).
    // This is the FilterToolbar pattern.
    let source = r#"
import { Dropdown, DropdownItem } from '@patternfly/react-core';
const FilterToolbar = () => {
    const renderDropdownItems = () => {
        return <DropdownItem>Item</DropdownItem>;
    };
    return (
        <Dropdown>{renderDropdownItems()}</Dropdown>
    );
};
"#;
    let incidents = scan_source_jsx(
        source,
        r"^DropdownItem$",
        Some(ReferenceLocation::JsxComponent),
    );
    let with_dropdown_parent: Vec<_> = incidents
        .iter()
        .filter(|i| {
            i.variables.get("parentName")
                == Some(&Json::Str("Dropdown".to_string()))
        })
        .collect();
    assert!(
        !with_dropdown_parent.is_empty(),
        "Should find nested function's DropdownItem with parent Dropdown. Incidents: {:?}",
        incidents.iter().map(|i| &i.variables).collect::<Vec<_>>()
    );
}

#[test]
fn test_function_return_inside_wrapper_has_correct_parent() {
    // renderItems() called inside <DropdownList> inside <Dropdown>.
    // The call-site parent should be DropdownList, not Dropdown.
    let source = r#"
import { Dropdown, DropdownList, DropdownItem } from '@patternfly/react-core';
const renderItems = () => {
    return <DropdownItem>Item</DropdownItem>;
};
const el = (
    <Dropdown>
        <DropdownList>{renderItems()}</DropdownList>
    </Dropdown>
);
"#;
    let incidents = scan_source_jsx(
        source,
        r"^DropdownItem$",
        Some(ReferenceLocation::JsxComponent),
    );
    let with_list_parent: Vec<_> = incidents
        .iter()
        .filter(|i| {
            i.variables.get("parentName")
                == Some(&Json::Str("DropdownList".to_string()))
        })
        .collect();
    assert!(
        !with_list_parent.is_empty(),
        "Should have DropdownItem with parent DropdownList. Incidents: {:?}",
        incidents.iter().map(|i| &i.variables).collect::<Vec<_>>()
    );
}

#[test]
fn test_function_return_no_double_count() {
    // DropdownItem should not be double-counted — once from the function
    // body walk and once from the call-site resolution.
    let source = r#"
import { Dropdown, DropdownItem } from '@patternfly/react-core';
const renderItems = () => <DropdownItem>Item</DropdownItem>;
const el = <Dropdown>{renderItems()}</Dropdown>;
"#;
    let incidents = scan_source_jsx(
        source,
        r"^DropdownItem$",
        Some(ReferenceLocation::JsxComponent),
    );
    // Two incidents: one from function body (no parent), one from call site (parent=Dropdown)
    // The function body walk sees it with no parent, the call-site walk sees it with parent=Dropdown
    // Both are valid — the conformance rule filters by parent=Dropdown
    let with_parent: Vec<_> = incidents
        .iter()
        .filter(|i| i.variables.contains_key("parentName"))
        .collect();
    assert!(
        !with_parent.is_empty(),
        "Should have at least one incident with parent context from call site"
    );
}

#[test]
fn single_statements_are_scanned() {
    let source = "import { Button } from 'x';\nconst a = <Button>y</Button>;\n";
    let program = parse_program(source).unwrap();
    let re = Regex::new("^Button$").unwrap();
    let imports = build_import_map(&program);
    let location = Some(ReferenceLocation::JsxComponent);
    let first = scan_jsx(&program.body[0], source, &re, "file:///test.tsx", location, &imports);
    assert!(first.is_empty());
    let second = scan_jsx(&program.body[1], source, &re, "file:///test.tsx", location, &imports);
    assert_eq!(second.len(), 1);
    assert_eq!(second[0].line_number, Some(2));
}

#[test]
fn only_what_was_looked_for_is_reported() {
    let source = "const el = <Card Card=\"a\"><Other Card /></Card>;";
    let counts = |location| {
        let found = scan_source_jsx(source, "^Card$", location);
        let props = found.iter().filter(|i| i.variables.get("propName").is_some()).count();
        assert!(found.iter().all(|i| i.file_uri == "file:///test.tsx"));
        (found.len() - props, props)
    };
    assert_eq!(counts(Some(ReferenceLocation::JsxComponent)), (1, 0));
    assert_eq!(counts(Some(ReferenceLocation::JsxProp)), (0, 2));
    assert_eq!(counts(None), (1, 2));
}

#[test]
fn declared_functions_pass_the_parent_on() {
    let source = r#"
import { Dropdown, DropdownItem } from '@patternfly/react-core';
function renderItems() { return <DropdownItem>Item</DropdownItem>; }
export default function Toolbar() {
    const renderMore = () => <DropdownItem>More</DropdownItem>;
    return <Dropdown>{renderItems()}{renderMore()}</Dropdown>;
}
"#;
    let incidents = scan_source_jsx(source, r"^DropdownItem$", Some(ReferenceLocation::JsxComponent));
    let below: Vec<u32> = incidents
        .iter()
        .filter(|i| i.variables.get("parentName") == Some(&Json::Str("Dropdown".to_string())))
        .map(|i| i.line_number.unwrap())
        .collect();
    assert_eq!(below, vec![3, 5]);
}
