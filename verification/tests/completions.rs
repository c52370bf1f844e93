use lup::completions::{completion_text, BASH, FISH, ZSH};

#[test]
fn known_shells_return_text() {
    assert!(completion_text(b"bash").is_some());
    assert!(completion_text(b"zsh").is_some());
    assert!(completion_text(b"fish").is_some());
}

#[test]
fn unknown_shell_returns_none() {
    assert!(completion_text(b"powershell").is_none());
}

#[test]
fn bash_completion_invokes_complete_builtin() {
    assert!(BASH.contains("complete -F _lup lup"));
}

#[test]
fn each_shell_gets_its_own_script() {
    assert_eq!(completion_text(b"bash"), Some(BASH));
    assert_eq!(completion_text(b"zsh"), Some(ZSH));
    assert_eq!(completion_text(b"fish"), Some(FISH));
    assert!(ZSH.starts_with("#compdef lup"));
    assert!(FISH.contains("complete -c lup"));
}

#[test]
fn shell_name_must_match_exactly() {
    assert!(completion_text(b"Bash").is_none());
    assert!(completion_text(b"bas").is_none());
    assert!(completion_text(b"").is_none());
}
