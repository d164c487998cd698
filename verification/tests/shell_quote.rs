use bract::shell_quote::quote_command;

fn line(tokens: &[&str]) -> String {
    quote_command(&tokens.iter().map(|s| s.to_string()).collect::<Vec<_>>())
}

#[test]
fn leaves_plain_tokens_unquoted() {
    assert_eq!(line(&["kubectl", "create", "--image=nginx", "-o", "yaml"]),
        "kubectl create --image=nginx -o yaml");
}

#[test]
fn quotes_tokens_with_spaces() {
    assert_eq!(line(&["git", "commit", "-m", "hello world"]), "git commit -m 'hello world'");
}

#[test]
fn escapes_embedded_single_quotes() {
    assert_eq!(line(&["echo", "it's"]), r"echo 'it'\''s'");
}

#[test]
fn quotes_shell_metacharacters() {
    assert_eq!(line(&["x", "a;b|c", "$HOME", "*.rs"]), "x 'a;b|c' '$HOME' '*.rs'");
}

#[test]
fn empty_token_becomes_empty_quotes() {
    assert_eq!(line(&["cmd", ""]), "cmd ''");
}

#[test]
fn keeps_common_value_punctuation_unquoted() {
    assert_eq!(line(&["x", "a/b:c", "k=v,w", "user@host"]), "x a/b:c k=v,w user@host");
}

#[test]
fn an_empty_command_is_an_empty_line() {
    assert_eq!(line(&[]), "");
}

#[test]
fn a_lone_quote_is_escaped_inside_quotes() {
    assert_eq!(line(&["'"]), r"''\'''");
}

#[test]
fn non_ascii_letters_are_quoted() {
    assert_eq!(line(&["echo", "héllo"]), "echo 'héllo'");
}
