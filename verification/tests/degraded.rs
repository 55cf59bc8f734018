//! The warning that numbers are incomplete.

use smeltr::degraded::single_session_notice;

#[test]
fn notice_only_when_degraded() {
    assert!(single_session_notice(0).is_none());
    let n = single_session_notice(2).unwrap();
    assert!(n.starts_with("⚠ "), "{n}");
    assert!(n.contains("2 time(s)"));
    assert!(n.contains("partial"));
    assert!(n.ends_with("\n\n"), "{n:?}");
}
