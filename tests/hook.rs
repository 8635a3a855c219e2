use push_guard::hook::{hook_command, HookInputError};

#[test]
fn hook_command_reads_nested_field() {
    let input = r#"{"tool_name":"Bash","tool_input":{"command":"git push origin main"}}"#;
    assert_eq!(hook_command(input), Ok(Some("git push origin main".to_string())));
}

#[test]
fn hook_command_absent_or_empty() {
    assert_eq!(hook_command(r#"{"tool_input":{}}"#), Ok(None));
    assert_eq!(hook_command(r#"{"tool_input":{"command":""}}"#), Ok(None));
    assert_eq!(hook_command(r#"{"tool_input":{"command":42}}"#), Ok(None));
    assert_eq!(hook_command(r#"{}"#), Ok(None));
    assert_eq!(hook_command(r#"[1,2]"#), Ok(None));
}

#[test]
fn hook_command_malformed() {
    assert_eq!(hook_command("not json"), Err(HookInputError::Malformed));
    assert_eq!(hook_command(""), Err(HookInputError::Malformed));
}

#[test]
fn hook_command_ignores_other_fields() {
    let input = r#"{"command":"git push","tool_input":{"cmd":"git push","command":"ls -la"}}"#;
    assert_eq!(hook_command(input), Ok(Some("ls -la".to_string())));
    assert_eq!(hook_command(r#"{"tool_input":"git push"}"#), Ok(None));
    assert_eq!(hook_command(r#"{"tool_input":{"command":null}}"#), Ok(None));
}
