//! Starting, stopping and supervising the daemon.

use smeltr::commands::daemon::{
    errors_since, launchagent_path_from_home, launchd_pid, outside_launchd, plist_content,
    plist_smeltr_home, start_action, StartAction, Supervision,
};

#[test]
fn plist_content_contains_required_fields() {
    let plist = plist_content("/Users/u/repo/target/release/smeltrd", "/Users/u/.smeltr");
    assert!(plist.starts_with("<?xml"));
    assert!(plist.contains("<!DOCTYPE plist"));
    assert!(plist.contains("<key>Label</key>"));
    assert!(plist.contains("<string>com.smeltr.daemon</string>"));
    assert!(plist.contains("/Users/u/repo/target/release/smeltrd"));
    assert!(plist.contains("--foreground"));
    assert!(plist.contains("<key>SMELTR_HOME</key>"));
    assert!(plist.contains("<string>/Users/u/.smeltr</string>"));
    assert!(plist.contains("<key>KeepAlive</key>"));
    assert!(plist.contains("<key>RunAtLoad</key>"));
    assert!(plist.contains("smeltrd.log"));
    assert!(plist.contains("smeltrd.err"));
}

#[test]
fn plist_escapes_xml_special_chars() {
    let plist = plist_content("/Users/u/repo & co/smeltrd", "/Users/u/<home>/.smeltr");
    assert!(plist.contains("&amp;"));
    assert!(plist.contains("&lt;"));
    assert!(plist.contains("&gt;"));
}

#[test]
fn plist_smeltr_home_round_trips_through_plist_content() {
    let plist = plist_content("/bin/smeltrd", "/Users/u/a & b/.smeltr");
    assert_eq!(
        plist_smeltr_home(&plist).as_deref(),
        Some("/Users/u/a & b/.smeltr")
    );
}

#[test]
fn plist_smeltr_home_absent_without_key() {
    assert_eq!(plist_smeltr_home("<plist><dict></dict></plist>"), None);
}

#[test]
fn launchd_pid_reads_top_level_pid_only() {
    let print = "gui/501/com.smeltr.daemon = {\n\
                 \tstate = running\n\
                 \tendpoints = {\n\
                 \t\tpid = 999\n\
                 \t}\n\
                 \tpid = 76710\n\
                 }\n";
    assert_eq!(launchd_pid(print), Some(76710));
}

#[test]
fn launchd_pid_none_when_not_running() {
    let print = "gui/501/com.smeltr.daemon = {\n\tstate = not running\n\truns = 3\n}\n";
    assert_eq!(launchd_pid(print), None);
}

#[test]
fn start_never_spawns_beside_a_launch_agent() {
    // Spawning a detached smeltrd while the agent is installed is what
    // made launchd's instance lose the pid-file race and relaunch-loop.
    assert_eq!(
        start_action(Supervision::Unmanaged),
        StartAction::SpawnDetached
    );
    assert_eq!(
        start_action(Supervision::LaunchAgent {
            loaded: true,
            pid: None
        }),
        StartAction::Kickstart
    );
    assert_eq!(
        start_action(Supervision::LaunchAgent {
            loaded: false,
            pid: None
        }),
        StartAction::Bootstrap
    );
}

#[test]
fn outside_launchd_flags_a_daemon_launchd_does_not_own() {
    let loaded = |pid| Supervision::LaunchAgent { loaded: true, pid };
    assert_eq!(outside_launchd(loaded(None), Some(82120)), Some(82120));
    assert_eq!(
        outside_launchd(loaded(Some(1277)), Some(82120)),
        Some(82120)
    );
    assert_eq!(outside_launchd(loaded(Some(1277)), Some(1277)), None);
    assert_eq!(outside_launchd(loaded(None), None), None);
    assert_eq!(outside_launchd(Supervision::Unmanaged, Some(82120)), None);
}

#[test]
fn errors_since_reports_only_this_start() {
    let path = "/home/smeltrd.err";
    let log = "Error: from an earlier start\n";
    let offset = log.len();
    assert_eq!(errors_since(Some(&log[offset..]), path), "");
    let log = "Error: from an earlier start\nError: bind failed\n";
    let msg = errors_since(Some(&log[offset..]), path);
    assert!(msg.contains("Error: bind failed"), "{msg}");
    assert!(!msg.contains("earlier"), "{msg}");
    assert_eq!(msg, ":\nError: bind failed\n(/home/smeltrd.err)");
    assert_eq!(errors_since(None, "/home/missing"), "");
}

#[test]
fn launchagent_path_uses_home() {
    let p = launchagent_path_from_home("/Users/u");
    assert_eq!(
        p,
        "/Users/u/Library/LaunchAgents/com.smeltr.daemon.plist"
    );
}
