//! Which session the user means.

use smeltr::commands::sessions::{resolve_id, resolve_with, Resolved};
use smeltr::event::{SessionKind, SessionMetadata, Uuid};
use smeltr::ids::short;
use smeltr::session_resolver::{error_message, resolve, resolve_arg, ResolveError, SessionEntry};

fn make_session_at(id: u128, started: &str, kind: SessionKind) -> SessionEntry {
    SessionEntry {
        dir: format!("2026-07-01-{}", short(Uuid::from_u128(id))),
        meta: Some(SessionMetadata {
            session_id: Uuid::from_u128(id),
            kind,
            name: None,
            host: "host".into(),
            started_rfc3339: started.into(),
            ended_rfc3339: None,
            exit_code: Some(0),
            term_signal: None,
            scope_token: None,
        }),
    }
}

fn make_session(id: u128, kind: SessionKind) -> SessionEntry {
    make_session_at(id, "2026-07-01T00:00:00Z", kind)
}

fn named_session(id: u128, name: &str) -> SessionEntry {
    let mut s = make_session(id, SessionKind::Ambient);
    s.meta.as_mut().unwrap().name = Some(name.into());
    s
}

fn scoped() -> SessionKind {
    SessionKind::Scoped {
        pid: 1,
        argv: vec![],
    }
}

fn into_post_mortem(mut s: SessionEntry, label: &str) -> SessionEntry {
    s.dir = label.into();
    s
}

#[test]
fn prefers_scoped_over_ambient() {
    let sessions = [make_session(1, SessionKind::Ambient), make_session(2, scoped())];
    assert_eq!(resolve(None, false, false, &sessions), Ok(1));
    let sessions = [make_session(2, scoped()), make_session(1, SessionKind::Ambient)];
    assert_eq!(resolve(None, false, false, &sessions), Ok(0));
}

#[test]
fn include_ambient_picks_newest_regardless() {
    let sessions = [make_session(1, scoped()), make_session(2, SessionKind::Ambient)];
    assert_eq!(resolve(None, false, true, &sessions), Ok(1));
}

#[test]
fn id_match_overrides_kind_preference() {
    let sessions = [make_session(1, SessionKind::Ambient), make_session(2, scoped())];
    let amb_name = &sessions[0].dir;
    let id = &amb_name[amb_name.len() - 8..];
    assert_eq!(resolve(Some(id), false, false, &sessions), Ok(0));
}

/// The id path accepts every name of a session, not just directory
/// substrings.
#[test]
fn id_path_resolves_session_names() {
    let sessions = [named_session(1, "ltx2-masterchouffe"), make_session(2, scoped())];
    assert_eq!(
        resolve(Some("ltx2-masterchouffe"), false, false, &sessions),
        Ok(0)
    );
}

/// A session can be opened by its name like everywhere else.
#[test]
fn resolve_session_accepts_session_name() {
    let sessions = [named_session(1, "my-replay-run")];
    assert_eq!(resolve_arg(Some("my-replay-run"), false, &sessions), Ok(0));
}

#[test]
fn export_resolves_by_session_name() {
    let sessions = [make_session(2, scoped()), named_session(1, "ltx2-baseline")];
    assert_eq!(resolve_arg(Some("ltx2-baseline"), false, &sessions), Ok(1));
}

#[test]
fn no_scoped_falls_back_to_ambient() {
    let sessions = [make_session(1, SessionKind::Ambient)];
    assert_eq!(resolve(None, false, false, &sessions), Ok(0));
}

/// A days-old crash post-mortem must not shadow the scoped session the user
/// just recorded.
#[test]
fn stale_post_mortem_does_not_shadow_fresh_scoped() {
    let pm = into_post_mortem(
        make_session_at(1, "2026-07-01T00:00:00Z", SessionKind::Ambient),
        "post-mortem-crash-report-2026-07-01-000000-deadbeef",
    );
    let sc = make_session_at(2, "2026-07-02T00:00:00Z", scoped());
    assert_eq!(
        resolve(None, true, false, &[pm.clone(), sc.clone()]),
        Ok(1)
    );
    assert_eq!(resolve(None, true, false, &[sc, pm]), Ok(0));
}

/// The post-mortem written seconds after the crash postdates the crashed
/// scoped session and must win.
#[test]
fn fresh_post_mortem_still_preferred_after_crash() {
    let sc = make_session_at(2, "2026-07-01T00:00:00Z", scoped());
    let pm = into_post_mortem(
        make_session_at(1, "2026-07-01T00:05:00Z", SessionKind::Ambient),
        "post-mortem-crash-report-2026-07-01-000500-deadbeef",
    );
    assert_eq!(resolve(None, true, false, &[sc.clone(), pm.clone()]), Ok(1));
    assert_eq!(resolve(None, false, false, &[sc, pm]), Ok(0));
}

/// Where two sessions have one name, the newer is meant.
#[test]
fn newest_of_a_name_wins() {
    let sessions = [
        named_session(1, "run"),
        named_session(2, "run"),
        make_session(3, scoped()),
    ];
    assert_eq!(resolve(Some("run"), false, false, &sessions), Ok(1));
}

/// The full id works as well, and so does the directory.
#[test]
fn full_ids_and_directories_are_names() {
    let id: u128 = 0x0123_4567_89ab_4cde_8f01_2345_6789_abcd;
    let sessions = [make_session(id, scoped()), make_session(2, scoped())];
    for name in [
        "01234567-89ab-4cde-8f01-23456789abcd",
        "6789abcd",
        "2026-07-01-6789abcd",
    ] {
        assert_eq!(resolve_arg(Some(name), false, &sessions), Ok(0), "{name}");
    }
    assert_eq!(
        resolve_arg(Some("01234567"), false, &sessions),
        Err(ResolveError::Unknown)
    );
}

#[test]
fn last_means_the_newest_command() {
    let sessions = [make_session(1, scoped()), make_session(2, SessionKind::Ambient)];
    assert_eq!(resolve_arg(None, true, &sessions), Ok(0));
    assert_eq!(
        resolve_arg(None, false, &sessions),
        Err(ResolveError::Unknown)
    );
}

#[test]
fn errors_are_told() {
    assert_eq!(resolve(None, true, true, &[]), Err(ResolveError::NoSessions));
    assert_eq!(
        error_message(ResolveError::NoSessions, ""),
        "no sessions found under SMELTR_HOME"
    );
    assert_eq!(
        resolve(Some("a\"b"), false, false, &[]),
        Err(ResolveError::Unknown)
    );
    assert_eq!(
        error_message(ResolveError::Unknown, "a\"b"),
        "could not resolve session \"a\\\"b\": no such session"
    );
}

/// An id may be written whole or by the end of its directory's name, in any
/// case.
#[test]
fn ids_are_read_from_texts_and_directories() {
    let id: u128 = 0x0123_4567_89ab_4cde_8f01_2345_6789_abcd;
    let mut broken = make_session(9, scoped());
    broken.dir = "2026-07-01-00000bad".into();
    broken.meta = None;
    let sessions = [make_session(id, scoped()), broken];
    assert_eq!(
        resolve_id("01234567-89AB-4CDE-8F01-23456789ABCD", &[]),
        Resolved::Id(Uuid::from_u128(id))
    );
    assert_eq!(
        resolve_id("6789ABCD", &sessions),
        Resolved::Id(Uuid::from_u128(id))
    );
    assert_eq!(resolve_id("00000bad", &sessions), Resolved::Unreadable(1));
    assert_eq!(resolve_id("ffffffff", &sessions), Resolved::Unknown);
    assert_eq!(
        resolve_with(Some(5), "ffffffff", &sessions),
        Resolved::Id(Uuid::from_u128(5))
    );
}
