use frontend_analyzer::transparency::analyze_source_transparency;

#[test]
fn test_direct_children_passthrough() {
    let source = r#"
            export const Wrapper = ({ children }) => (
                <div>{children}</div>
            );
        "#;
    let result = analyze_source_transparency(source).unwrap();
    assert!(
        result.contains_key("Wrapper"),
        "Wrapper should be transparent"
    );
}

#[test]
fn test_fragment_children_passthrough() {
    let source = r#"
            export const Wrapper = ({ children }) => (
                <>{children}</>
            );
        "#;
    let result = analyze_source_transparency(source).unwrap();
    assert!(
        result.contains_key("Wrapper"),
        "Fragment wrapper should be transparent"
    );
}

#[test]
fn test_conditional_children_passthrough() {
    let source = r#"
            export const ConditionalTableBody = ({
                isLoading,
                isError,
                children
            }) => (
                <React.Fragment>
                    {isLoading ? (
                        <Tbody><Tr><Td>Loading...</Td></Tr></Tbody>
                    ) : isError ? (
                        <Tbody><Tr><Td>Error</Td></Tr></Tbody>
                    ) : (
                        children
                    )}
                </React.Fragment>
            );
        "#;
    let result = analyze_source_transparency(source).unwrap();
    assert!(
        result.contains_key("ConditionalTableBody"),
        "ConditionalTableBody should be transparent (children in one branch)"
    );
}

#[test]
fn test_no_children_prop() {
    let source = r#"
            export const Display = ({ text }) => (
                <div>{text}</div>
            );
        "#;
    let result = analyze_source_transparency(source).unwrap();
    // This component has a single param `text` destructured, no `children`.
    // Actually, has_children_param returns true for BindingIdentifier —
    // but this uses ObjectPattern without `children` key, so it's false.
    assert!(
        !result.contains_key("Display"),
        "Display should not be transparent"
    );
}

#[test]
fn test_children_prop_not_rendered() {
    let source = r#"
            export const Ignorer = ({ children }) => (
                <div>I ignore my children</div>
            );
        "#;
    let result = analyze_source_transparency(source).unwrap();
    assert!(
        !result.contains_key("Ignorer"),
        "Ignorer should not be transparent (doesn't render children)"
    );
}

#[test]
fn test_props_dot_children() {
    let source = r#"
            export const Wrapper = (props) => (
                <div>{props.children}</div>
            );
        "#;
    let result = analyze_source_transparency(source).unwrap();
    assert!(
        result.contains_key("Wrapper"),
        "props.children passthrough should be transparent"
    );
}

#[test]
fn test_function_declaration() {
    let source = r#"
            export function Wrapper({ children }) {
                return <div>{children}</div>;
            }
        "#;
    let result = analyze_source_transparency(source).unwrap();
    assert!(
        result.contains_key("Wrapper"),
        "Function declaration should work"
    );
}

#[test]
fn test_forward_ref() {
    let source = r#"
            export const Wrapper = React.forwardRef(({ children }, ref) => (
                <div ref={ref}>{children}</div>
            ));
        "#;
    let result = analyze_source_transparency(source).unwrap();
    assert!(
        result.contains_key("Wrapper"),
        "forwardRef wrapper should be transparent"
    );
}

#[test]
fn test_react_memo() {
    let source = r#"
            export const Wrapper = React.memo(({ children }) => (
                <div>{children}</div>
            ));
        "#;
    let result = analyze_source_transparency(source).unwrap();
    assert!(
        result.contains_key("Wrapper"),
        "React.memo wrapper should be transparent"
    );
}

#[test]
fn test_if_statement_branch() {
    let source = r#"
            export function Wrapper({ children, isReady }) {
                if (isReady) {
                    return <div>{children}</div>;
                }
                return <div>Loading...</div>;
            }
        "#;
    let result = analyze_source_transparency(source).unwrap();
    assert!(
        result.contains_key("Wrapper"),
        "if-branch rendering children should be transparent"
    );
}

#[test]
fn test_multiple_components_mixed() {
    let source = r#"
            export const Transparent = ({ children }) => <div>{children}</div>;
            export const Opaque = ({ text }) => <div>{text}</div>;
            export const AlsoTransparent = ({ children, extra }) => (
                <section>
                    <header>{extra}</header>
                    {children}
                </section>
            );
        "#;
    let result = analyze_source_transparency(source).unwrap();
    assert!(result.contains_key("Transparent"));
    assert!(!result.contains_key("Opaque"));
    assert!(result.contains_key("AlsoTransparent"));
}

#[test]
fn test_nested_jsx_children_passthrough() {
    let source = r#"
            export const Wrapper = ({ children }) => (
                <div>
                    <section>
                        {children}
                    </section>
                </div>
            );
        "#;
    let result = analyze_source_transparency(source).unwrap();
    assert!(
        result.contains_key("Wrapper"),
        "Deeply nested children passthrough should be transparent"
    );
}

#[test]
fn test_logical_and_children() {
    let source = r#"
            export const Wrapper = ({ children, show }) => (
                <div>{show && children}</div>
            );
        "#;
    let result = analyze_source_transparency(source).unwrap();
    assert!(
        result.contains_key("Wrapper"),
        "Logical AND children passthrough should be transparent"
    );
}

#[test]
fn test_non_exported_not_included() {
    // Non-exported components should still be detected since they may
    // be re-exported from an index file.
    let source = r#"
            const Wrapper = ({ children }) => <div>{children}</div>;
        "#;
    let result = analyze_source_transparency(source).unwrap();
    assert!(
        result.contains_key("Wrapper"),
        "Non-exported but locally defined components should be detected"
    );
}

#[test]
fn test_ts_as_expression() {
    let source = r#"
            export const Wrapper = (({ children }) => (
                <div>{children}</div>
            )) as React.FC<WrapperProps>;
        "#;
    let result = analyze_source_transparency(source).unwrap();
    assert!(
        result.contains_key("Wrapper"),
        "TSAsExpression wrapper should be transparent"
    );
}

// ── Wrapper detection tests ──────────────────────────────────────────

#[test]
fn test_wrapper_detects_table_around_children() {
    let source = r#"
            export const TableWrapper = ({ children }) => (
                <Table>{children}</Table>
            );
        "#;
    let result = analyze_source_transparency(source).unwrap();
    assert!(result.contains_key("TableWrapper"));
    assert_eq!(
        result.get("TableWrapper"),
        Some(&Some("Table".to_string())),
        "Should detect Table as the wrapper component"
    );
}

#[test]
fn test_wrapper_none_for_fragment_passthrough() {
    let source = r#"
            export const FragWrapper = ({ children }) => (
                <>{children}</>
            );
        "#;
    let result = analyze_source_transparency(source).unwrap();
    assert!(result.contains_key("FragWrapper"));
    assert_eq!(
        result.get("FragWrapper"),
        Some(&None),
        "Fragment wrapper should have no wrapper component (pure passthrough)"
    );
}

#[test]
fn test_wrapper_none_for_div_passthrough() {
    let source = r#"
            export const DivWrapper = ({ children }) => (
                <div className="wrapper">{children}</div>
            );
        "#;
    let result = analyze_source_transparency(source).unwrap();
    assert!(result.contains_key("DivWrapper"));
    assert_eq!(
        result.get("DivWrapper"),
        Some(&None),
        "div wrapper should have no wrapper component (not a PF component)"
    );
}

#[test]
fn test_wrapper_detects_nested_component() {
    // children is wrapped in <ToolbarContent> which is inside <Toolbar>
    // The wrapper should be ToolbarContent (immediate parent of {children})
    let source = r#"
            export const MyToolbar = ({ children }) => (
                <Toolbar>
                    <ToolbarContent>{children}</ToolbarContent>
                </Toolbar>
            );
        "#;
    let result = analyze_source_transparency(source).unwrap();
    assert!(result.contains_key("MyToolbar"));
    assert_eq!(
        result.get("MyToolbar"),
        Some(&Some("ToolbarContent".to_string())),
        "Should detect ToolbarContent as the wrapper (immediate parent of children)"
    );
}

#[test]
fn test_wrapper_with_forward_ref() {
    let source = r#"
            export const TableWithBatteries = React.forwardRef((props, ref) => (
                <Table innerRef={ref} {...props}>
                    {props.children}
                </Table>
            ));
        "#;
    let result = analyze_source_transparency(source).unwrap();
    assert!(result.contains_key("TableWithBatteries"));
    assert_eq!(
        result.get("TableWithBatteries"),
        Some(&Some("Table".to_string())),
        "forwardRef wrapping Table should detect Table as wrapper"
    );
}
