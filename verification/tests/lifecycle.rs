//! The daemon's life, and talking to it.

use smeltr::commands::daemon::{
    launchagent_path, parse_pid, pid_file_path, plist_content, plist_smeltr_home, smeltr_home_dir,
    status_text, supervision, xml_escape, StartAction, Supervision,
};
use smeltr::commands::lifecycle::{
    already_running_text, begin_start, booted_out_text, daemon_program, exited_error,
    installed_text, launchctl_error, launchd_domain, launchd_target, missing_daemon_error,
    not_installed_text, poll_start, poll_stop, removed_text, started_text, still_alive_error,
    timeout_error, unloaded_text, unloads_first, StartPoll, StartStep, StopPoll, STOP_POLLS,
};
use smeltr::commands::mark::{mark_error, scope_token_of};
use smeltr::commands::record::{
    next_steps, refusal_error, ring_path, stage_after, whole_command, Outcome, Stage, Step,
};
use smeltr::event::{SessionKind, SessionMetadata, Uuid};
use smeltr::frames::{frame, frame_length};
use smeltr::protocol::{connection_error, greeting_error, is_ack, listed, show, show_with, Reply};

const LOADED: Supervision = Supervision::LaunchAgent {
    loaded: true,
    pid: Some(7),
};
const INSTALLED: Supervision = Supervision::LaunchAgent {
    loaded: false,
    pid: None,
};

/// Nothing is started beside what runs.
#[test]
fn starts_are_never_doubled() {
    for s in [Supervision::Unmanaged, LOADED, INSTALLED] {
        assert_eq!(begin_start(Some(5), s), StartStep::AlreadyRunning(5));
    }
    assert_eq!(
        begin_start(None, Supervision::Unmanaged),
        StartStep::Launch(StartAction::SpawnDetached)
    );
    assert_eq!(begin_start(None, LOADED), StartStep::Launch(StartAction::Kickstart));
    assert_eq!(begin_start(None, INSTALLED), StartStep::Launch(StartAction::Bootstrap));
}

#[test]
fn only_the_socket_shows_health() {
    assert_eq!(poll_start(false, true, true), StartPoll::Serving);
    assert_eq!(poll_start(false, false, true), StartPoll::Exited);
    assert_eq!(poll_start(false, false, false), StartPoll::Again);
    assert_eq!(poll_start(true, true, true), StartPoll::TimedOut);
}

#[test]
fn stopping_gives_up_in_the_end() {
    assert!(unloads_first(LOADED));
    assert!(!unloads_first(INSTALLED));
    assert!(!unloads_first(Supervision::Unmanaged));
    assert_eq!(poll_stop(0, true), StopPoll::Again);
    assert_eq!(poll_stop(3, false), StopPoll::Stopped);
    assert_eq!(poll_stop(STOP_POLLS - 1, false), StopPoll::Stopped);
    assert_eq!(poll_stop(STOP_POLLS, false), StopPoll::GivenUp);
    assert_eq!(still_alive_error(), "smeltrd still alive after 10s");
}

#[test]
fn the_user_is_told() {
    assert_eq!(already_running_text(9), "smeltrd already running (pid 9)\n");
    assert_eq!(started_text(false, Some(9)), "smeltrd started (pid 9)\n");
    assert_eq!(started_text(true, None), "smeltrd started by launchd (pid ?)\n");
    assert_eq!(
        exited_error("exit status: 1", "/s", ":\nboom\n(/e)"),
        "smeltrd exited (exit status: 1) before serving /s:\nboom\n(/e)"
    );
    assert_eq!(timeout_error("/s", ""), "smeltrd did not serve /s within 30s");
    assert_eq!(
        launchctl_error(&vec!["kickstart".into(), "x".into()], "exit status: 3"),
        "launchctl kickstart x failed: exit status: 3"
    );
    assert_eq!(launchd_domain(501), "gui/501");
    assert_eq!(launchd_target(501), "gui/501/com.smeltr.daemon");
    assert_eq!(booted_out_text(), "launchctl booted out com.smeltr.daemon\n");
    assert_eq!(daemon_program(Some("/bin"), true), "/bin/smeltrd");
    assert_eq!(daemon_program(Some("/bin"), false), "smeltrd");
    assert_eq!(daemon_program(None, true), "smeltrd");
    assert!(missing_daemon_error("/b/smeltrd").contains("next to smeltr at /b/smeltrd; rebuild"));
    let ok = installed_text("/p", true, "/h");
    assert!(ok.starts_with("wrote LaunchAgent plist: /p\nlaunchctl loaded com.smeltr.daemon\n\n"));
    assert!(ok.ends_with("\nLogs:         /h/smeltrd.log\n"));
    assert!(installed_text("/p", false, "/h").ends_with("Run manually: launchctl load /p\n"));
    assert_eq!(not_installed_text("/p"), "LaunchAgent not installed (no plist at /p)\n");
    assert_eq!(unloaded_text(true, 1), "launchctl unloaded com.smeltr.daemon\n");
    assert!(unloaded_text(false, 1).ends_with("launchctl bootout gui/1/com.smeltr.daemon\n"));
    assert_eq!(removed_text("/p"), "removed /p\n");
}

#[test]
fn homes_and_files() {
    assert_eq!(smeltr_home_dir(Some("/x"), None).unwrap(), "/x");
    assert_eq!(smeltr_home_dir(None, Some("/h")).unwrap(), "/h/.smeltr");
    assert_eq!(
        smeltr_home_dir(None, None).unwrap_err().message(),
        "HOME env var not set"
    );
    assert!(launchagent_path(None).is_err());
    assert_eq!(
        launchagent_path(Some("/h")).unwrap(),
        "/h/Library/LaunchAgents/com.smeltr.daemon.plist"
    );
    assert_eq!(pid_file_path("/h/.smeltr"), "/h/.smeltr/smeltrd.pid");
    assert_eq!(parse_pid(" 42\n"), Some(42));
    assert_eq!(parse_pid("4294967296"), None);
    assert_eq!(parse_pid("-1"), None);
}

/// Whatever the home is, the property list hands it on.
#[test]
fn homes_survive_the_plist() {
    for home in ["/h", "a & b", "<&lt;>", "&amp;lt;", "", "x</string>y", "SMELTR_HOME"] {
        let plist = plist_content("/bin/<smeltrd> & co", home);
        assert_eq!(plist_smeltr_home(&plist).as_deref(), Some(home), "{home:?}");
    }
    assert_eq!(xml_escape("a<b>&c"), "a&lt;b&gt;&amp;c");
}

#[test]
fn only_the_served_home_is_supervised() {
    let plist = plist_content("/bin/smeltrd", "/h/.smeltr");
    let print = "x = {\n\tpid = 12\n}\n";
    assert_eq!(supervision(None, "/h/.smeltr", Some(print)), Supervision::Unmanaged);
    assert_eq!(supervision(Some(&plist), "/other", Some(print)), Supervision::Unmanaged);
    assert_eq!(supervision(Some("<plist/>"), "/h/.smeltr", None), Supervision::Unmanaged);
    assert_eq!(
        supervision(Some(&plist), "/h/./.smeltr/", Some(print)),
        Supervision::LaunchAgent {
            loaded: true,
            pid: Some(12)
        }
    );
    assert_eq!(supervision(Some(&plist), "/h/.smeltr", None), INSTALLED);
}

#[test]
fn the_status_warns_of_strays() {
    let s = status_text(Some(5), Some(5), LOADED, "/s", "/h");
    assert!(s.starts_with("pid:    5\nlaunchd: com.smeltr.daemon running (pid 7)\nWARNING: smeltrd pid 5 runs outside launchd"));
    assert!(s.ends_with("socket: /s\nhome:   /h\n"));
    let s = status_text(Some(5), None, Supervision::Unmanaged, "/s", "/h");
    assert_eq!(
        s,
        "pid:    5 (stale, no smeltrd runs under it)\nlaunchd: not managed\nsocket: /s\nhome:   /h\n"
    );
    assert!(status_text(None, None, INSTALLED, "/s", "/h").starts_with("pid:    (no pid file)\n"));
}

#[test]
fn recordings_leave_nothing_behind() {
    assert_eq!(next_steps(Stage::Attaching, Outcome::Acked, true), vec![Step::AttachHook]);
    assert_eq!(next_steps(Stage::Attaching, Outcome::Acked, false), vec![Step::Wait]);
    assert_eq!(
        next_steps(Stage::Attaching, Outcome::Refused, true),
        vec![Step::Kill, Step::RemoveRing, Step::FailScoped]
    );
    assert_eq!(
        next_steps(Stage::Attaching, Outcome::Refused, false),
        vec![Step::Kill, Step::FailScoped]
    );
    assert_eq!(next_steps(Stage::Hooking, Outcome::Acked, true), vec![Step::Wait]);
    assert_eq!(
        next_steps(Stage::Hooking, Outcome::Refused, true),
        vec![Step::Kill, Step::DetachScoped(-1), Step::RemoveRing, Step::FailHook]
    );
    assert_eq!(
        next_steps(Stage::Running, Outcome::Exited(Some(3)), true),
        vec![Step::Drain, Step::DetachHook, Step::DetachScoped(3), Step::RemoveRing, Step::Return(3)]
    );
    assert_eq!(
        next_steps(Stage::Running, Outcome::Exited(None), false),
        vec![Step::Drain, Step::DetachScoped(-1), Step::Return(-1)]
    );
    assert_eq!(stage_after(Step::AttachHook), Some(Stage::Hooking));
    assert_eq!(stage_after(Step::Wait), Some(Stage::Running));
    assert_eq!(stage_after(Step::Kill), None);
    assert_eq!(refusal_error(true, "no"), "daemon refused AttachMetalHook: no");
    assert_eq!(refusal_error(false, "no"), "daemon refused AttachScopedProbes: no");
    assert_eq!(whole_command("a", &["b".into(), "c".into()]), vec!["a", "b", "c"]);
}

#[test]
fn rings_have_fresh_names() {
    let p = ring_path("/h");
    assert!(p.starts_with("/h/rings/") && p.ends_with(".ring"), "{p}");
    assert_eq!(p.len(), "/h/rings/".len() + 32 + ".ring".len());
    assert_ne!(p, ring_path("/h"));
}

/// A message is read back as it was written.
#[test]
fn frames_survive() {
    for n in [0usize, 1, 255, 256, 65_536, 70_000] {
        let body: Vec<u8> = (0..n).map(|i| i as u8).collect();
        let sent = frame(&body);
        assert_eq!(sent[..4], (n as u32).to_le_bytes());
        assert_eq!(frame_length(&sent[..4]) as usize, n);
        assert_eq!(sent[4..], body[..]);
    }
}

#[test]
fn replies_are_read() {
    let welcome = Reply::Welcome("Welcome".into());
    assert_eq!(greeting_error(&welcome), None);
    assert_eq!(greeting_error(&Reply::Ack).unwrap(), "unexpected handshake: Ack");
    assert!(is_ack(&Reply::Ack) && !is_ack(&welcome));
    assert_eq!(
        show(&Reply::Refusal("a\"b".into())),
        "Error { message: \"a\\\"b\" }"
    );
    assert_eq!(
        show_with(&Reply::Refusal("x".into()), "<x>"),
        "Error { message: <x> }"
    );
    let list = Reply::Sessions(vec!["d".into()], "SessionList".into());
    assert_eq!(listed(list.clone()), Some(vec!["d".to_string()]));
    assert_eq!(listed(Reply::Ack), None);
    assert_eq!(mark_error(&Reply::Ack), None);
    assert_eq!(mark_error(&Reply::Refusal("no".into())).unwrap(), "no");
    assert_eq!(mark_error(&list).unwrap(), "unexpected response: SessionList");
    assert!(connection_error("refused").contains("smeltrd: refused. Is the daemon running?"));
}

#[test]
fn markers_need_a_token() {
    let mut meta = SessionMetadata {
        session_id: Uuid::nil(),
        kind: SessionKind::Ambient,
        name: None,
        host: String::new(),
        started_rfc3339: String::new(),
        ended_rfc3339: None,
        exit_code: None,
        term_signal: None,
        scope_token: Some("tok".into()),
    };
    assert_eq!(scope_token_of(&meta, "run"), Ok("tok".to_string()));
    meta.scope_token = None;
    assert_eq!(
        scope_token_of(&meta, "run").unwrap_err(),
        "session \"run\" has no scope token (not an active recording?)"
    );
}
