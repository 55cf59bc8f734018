//! Running a command under the recorder.

use smeltr::commands::record::{
    hook_note, hook_plan, is_arm64e_only_binary, is_hardened_binary, reported_exit_code,
    resolve_session_name, scope_token, socket_path, words, HookPlan,
};

#[test]
fn resolve_session_name_uses_flag_when_present() {
    assert_eq!(
        resolve_session_name(Some("flag-val"), Some("env-val")),
        Some("flag-val".to_string())
    );
}

#[test]
fn resolve_session_name_falls_back_to_env_when_flag_none() {
    assert_eq!(
        resolve_session_name(None, Some("env-val")),
        Some("env-val".to_string())
    );
}

#[test]
fn resolve_session_name_returns_none_when_neither_set() {
    assert_eq!(resolve_session_name(None, None), None);
}

/// A scope token is a random id of the fourth version, written out.
#[test]
fn scope_tokens_are_random_ids() {
    let tok = scope_token();
    assert_eq!(tok.len(), 36);
    assert_eq!(tok.matches('-').count(), 4);
    assert_eq!(tok.as_bytes()[14], b'4');
    assert!(matches!(tok.as_bytes()[19], b'8' | b'9' | b'a' | b'b'));
    assert!(tok
        .chars()
        .all(|c| c == '-' || c.is_ascii_digit() || ('a'..='f').contains(&c)));
    assert_ne!(tok, scope_token());
}

#[test]
fn hardened_binaries_are_recognized() {
    assert!(is_hardened_binary(Some(
        "CodeDirectory v=20500 flags=0x10000(runtime) hashes=1"
    )));
    assert!(!is_hardened_binary(Some("CodeDirectory v=20500 flags=0x2(adhoc)")));
    assert!(!is_hardened_binary(None));
}

#[test]
fn arm64e_only_binaries_are_recognized() {
    assert!(is_arm64e_only_binary(Some("x86_64 arm64e\n")));
    assert!(!is_arm64e_only_binary(Some("arm64 arm64e")));
    assert!(!is_arm64e_only_binary(Some("arm64")));
    assert!(!is_arm64e_only_binary(Some("")));
    assert!(!is_arm64e_only_binary(None));
}

#[test]
fn words_are_split_at_blanks() {
    assert_eq!(words("  a\tbc\n d "), vec!["a", "bc", "d"]);
    assert!(words(" \n").is_empty());
}

#[test]
fn the_hook_is_used_where_it_can_be() {
    let dylib = || Some("/tmp/h.dylib".to_string());
    assert_eq!(hook_plan(true, true, true, dylib()), HookPlan::Declined);
    assert_eq!(hook_plan(false, true, true, dylib()), HookPlan::Hardened);
    assert_eq!(hook_plan(false, false, true, dylib()), HookPlan::Arm64eOnly);
    assert_eq!(
        hook_plan(false, false, false, dylib()),
        HookPlan::Hook("/tmp/h.dylib".into())
    );
    assert_eq!(hook_plan(false, false, false, None), HookPlan::NoDylib);
    assert!(hook_note(&HookPlan::Declined, "py").is_none());
    assert!(hook_note(&HookPlan::Hook("x".into()), "py").is_none());
    assert!(hook_note(&HookPlan::Hardened, "py")
        .unwrap()
        .starts_with("smeltr: target binary `py` appears hardened;"));
    assert!(hook_note(&HookPlan::Arm64eOnly, "py")
        .unwrap()
        .starts_with("smeltr: target binary `py` is arm64e-only;"));
    assert!(hook_note(&HookPlan::NoDylib, "py")
        .unwrap()
        .contains("SMELTR_DYLIB="));
}

#[test]
fn exit_codes_are_reported() {
    assert_eq!(reported_exit_code(Some(3)), 3);
    assert_eq!(reported_exit_code(None), -1);
}

#[test]
fn the_socket_has_a_place() {
    assert_eq!(socket_path(Some("/s"), Some("/run"), Some("/t")), "/s");
    assert_eq!(
        socket_path(None, Some("/run"), Some("/t")),
        "/run/smeltr.sock"
    );
    assert_eq!(socket_path(None, None, Some("/t/")), "/t/smeltr.sock");
    assert_eq!(socket_path(None, None, None), "/tmp/smeltr.sock");
}
