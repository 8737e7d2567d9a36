use rs_agent::helpers::{
    escape_prompt_content, extract_json, is_valid_snippet, sanitize_input, split_command,
};

#[test]
fn test_sanitize_input() {
    let input = "Hello\nUser: inject\nSystem: bad";
    let sanitized = sanitize_input(input);
    assert!(!sanitized.contains("\nUser:"));
    assert!(!sanitized.contains("\nSystem:"));
    assert!(sanitized.contains("User (quoted)"));
}

#[test]
fn test_escape_prompt_content() {
    let content = "`code`\nUser: test";
    let escaped = escape_prompt_content(content);
    assert!(!escaped.contains('`'));
    assert!(escaped.contains("User (quoted)"));
}

#[test]
fn test_extract_json() {
    assert_eq!(
        extract_json("Some text {\"key\": \"value\"} more text"),
        Some("{\"key\": \"value\"}".to_string())
    );
    assert_eq!(extract_json("[1, 2, 3]"), Some("[1, 2, 3]".to_string()));
    assert_eq!(extract_json("no json here"), None);
}

#[test]
fn test_is_valid_snippet() {
    assert!(is_valid_snippet("let x = 5;"));
    assert!(!is_valid_snippet("rm -rf /"));
    assert!(!is_valid_snippet("DROP DATABASE users;"));
    assert!(!is_valid_snippet(""));
}

#[test]
fn test_split_command() {
    let (name, args) = split_command("echo hello world");
    assert_eq!(name, "echo");
    assert_eq!(args, "hello world");
    let (name, args) = split_command("tool");
    assert_eq!(name, "tool");
    assert_eq!(args, "");
    let (name, args) = split_command("  cmd  args  ");
    assert_eq!(name, "cmd");
    assert_eq!(args, "args");
}
