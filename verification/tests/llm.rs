use frontend_analyzer::fix::LlmFixRequest;
use frontend_analyzer::llm::{
    build_openai_plan_request, parse_llm_fix_response, GENERIC_SYSTEM_PROMPT,
};

#[test]
fn test_parse_llm_response() {
    let response = r#"
```fix
LINE:56
OLD:<BarsIcon />
NEW:<PageToggleButton isHamburgerButton />
```

```fix
LINE:10
OLD:import { Button, BarsIcon } from '@patternfly/react-core';
NEW:import { PageToggleButton } from '@patternfly/react-core';
```
"#;
    let edits = parse_llm_fix_response(response, "test-rule");
    assert_eq!(edits.len(), 2);
    assert_eq!(edits[0].line, 56);
    assert_eq!(edits[0].old_text, "<BarsIcon />");
    assert_eq!(edits[0].new_text, "<PageToggleButton isHamburgerButton />");
    assert_eq!(edits[1].line, 10);
}

#[test]
fn test_parse_llm_response_empty_input() {
    let edits = parse_llm_fix_response("", "rule-1");
    assert!(edits.is_empty());
}

#[test]
fn test_parse_llm_response_no_fix_blocks() {
    let response = "Here is some explanation text without any fix blocks.";
    let edits = parse_llm_fix_response(response, "rule-1");
    assert!(edits.is_empty());
}

#[test]
fn test_parse_llm_response_non_fix_code_blocks_ignored() {
    let response = r#"
```typescript
const x = 1;
```

```javascript
console.log("hello");
```
"#;
    let edits = parse_llm_fix_response(response, "rule-1");
    assert!(edits.is_empty());
}

#[test]
fn test_parse_llm_response_single_fix() {
    let response = r#"
```fix
LINE:1
OLD:import { Chip } from '@patternfly/react-core';
NEW:import { Label } from '@patternfly/react-core';
```
"#;
    let edits = parse_llm_fix_response(response, "rename-rule");
    assert_eq!(edits.len(), 1);
    assert_eq!(edits[0].line, 1);
    assert_eq!(
        edits[0].old_text,
        "import { Chip } from '@patternfly/react-core';"
    );
    assert_eq!(
        edits[0].new_text,
        "import { Label } from '@patternfly/react-core';"
    );
    assert_eq!(edits[0].rule_id, "rename-rule");
}

#[test]
fn test_parse_llm_response_incomplete_fix_block_skipped() {
    // Missing NEW: line — should not produce an edit
    let response = r#"
```fix
LINE:5
OLD:something
```
"#;
    let edits = parse_llm_fix_response(response, "rule-1");
    assert!(edits.is_empty());
}

#[test]
fn test_parse_llm_response_missing_line_skipped() {
    // Has OLD and NEW but no LINE: — should not produce an edit
    let response = r#"
```fix
OLD:old text
NEW:new text
```
"#;
    let edits = parse_llm_fix_response(response, "rule-1");
    assert!(edits.is_empty());
}

#[test]
fn test_parse_llm_response_whitespace_tolerance() {
    let response = r#"
```fix
LINE:  42
OLD:  <Chip />
NEW:  <Label />
```
"#;
    let edits = parse_llm_fix_response(response, "rule-1");
    assert_eq!(edits.len(), 1);
    assert_eq!(edits[0].line, 42);
    // OLD/NEW preserve the text after the prefix
    assert_eq!(edits[0].old_text, "  <Chip />");
    assert_eq!(edits[0].new_text, "  <Label />");
}

#[test]
fn test_parse_llm_response_new_can_be_empty() {
    // Removing a line entirely — NEW is empty
    let response = r#"
```fix
LINE:10
OLD:  isHidden={true}
NEW:
```
"#;
    let edits = parse_llm_fix_response(response, "rule-1");
    assert_eq!(edits.len(), 1);
    assert_eq!(edits[0].old_text, "  isHidden={true}");
    assert_eq!(edits[0].new_text, "");
}

#[test]
fn test_build_openai_plan_request() {
    let file_path = "/project/App.tsx".to_string();
    let on_disk = Ok("const x = <Modal />;\n".to_string());

    let request = LlmFixRequest {
        rule_id: "rule-1".to_string(),
        file_uri: format!("file://{}", file_path),
        file_path: file_path.clone(),
        line: 1,
        message: "Restructure Modal".to_string(),
        code_snip: None,
        source: None,
        labels: vec!["family=Modal".to_string()],
    };

    let preview = build_openai_plan_request(&request, GENERIC_SYSTEM_PROMPT, &on_disk).unwrap();
    assert_eq!(preview.rule_id, "rule-1");
    assert_eq!(preview.file_path, file_path);
    assert_eq!(preview.model, "gpt-4");
    assert!(preview.system_prompt.contains("code migration"));
    assert!(preview.user_prompt.contains("Restructure Modal"));
    assert!(preview.request_json.get("messages").is_some());
}

#[test]
fn llm_client_test_parse_llm_response() {
    let response = r#"
```fix
LINE:56
OLD:<BarsIcon />
NEW:<PageToggleButton isHamburgerButton />
```

```fix
LINE:10
OLD:import { Button, BarsIcon } from '@patternfly/react-core';
NEW:import { PageToggleButton } from '@patternfly/react-core';
```
"#;
    let edits = parse_llm_fix_response(response, "test-rule");
    assert_eq!(edits.len(), 2);
    assert_eq!(edits[0].line, 56);
    assert_eq!(edits[0].old_text, "<BarsIcon />");
    assert_eq!(edits[0].new_text, "<PageToggleButton isHamburgerButton />");
    assert_eq!(edits[1].line, 10);
}

#[test]
fn blocks_are_read_alone() {
    let response = r#"
```fix
LINE:5
OLD:something
```

NEW:stray

```fix
NEW:other
```
"#;
    assert!(parse_llm_fix_response(response, "rule-1").is_empty());
    let response = r#"
```fix
LINE:5
OLD:a
```

```fix
LINE:6
NEW:b
```

```fix
LINE:7
OLD:c
NEW:d
```
"#;
    let edits = parse_llm_fix_response(response, "rule-1");
    assert_eq!(edits.len(), 1);
    assert_eq!((edits[0].line, edits[0].old_text.as_str()), (7, "c"));
}
