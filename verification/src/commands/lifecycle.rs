//! Starting, stopping and installing the daemon: what is done next, and what the
//! user is told.

use crate::commands::daemon::{start_action, StartAction, Supervision, LAUNCHAGENT_LABEL};
use crate::paths::{join_path, joined_path};
use crate::text::{dec, join, joined, push_dec, views};
use vstd::prelude::*;

verus! {

broadcast use vstd::string::group_string_axioms;

/// How long a started daemon may take to serve its socket. Covers the pause that
/// launchd makes right after a stop, and a loaded machine.
pub const START_DEADLINE_SECS: u64 = 30;

/// The pause between two attempts to reach a started daemon.
pub const START_POLL_MS: u64 = 50;

/// How often a signalled daemon is looked for.
pub const STOP_POLLS: u32 = 50;

/// The pause between two looks for a signalled daemon.
pub const STOP_POLL_MS: u64 = 200;

/// The first step of a start.
#[derive(Debug, Clone, Copy, PartialEq, Eq, Structural)]
pub enum StartStep {
    /// The daemon runs under this process id; nothing is started.
    AlreadyRunning(u32),
    Launch(StartAction),
}

/// What a start begins with.
pub open spec fn first_step(live_pid: Option<u32>, s: Supervision) -> StartStep {
    match live_pid {
        Some(pid) => StartStep::AlreadyRunning(pid),
        None => StartStep::Launch(
            match s {
                Supervision::Unmanaged => StartAction::SpawnDetached,
                Supervision::LaunchAgent { loaded: true, .. } => StartAction::Kickstart,
                Supervision::LaunchAgent { loaded: false, .. } => StartAction::Bootstrap,
            },
        ),
    }
}

/// What a start begins with, given the daemon that runs already and how it is
/// supervised.
pub fn begin_start(live_pid: Option<u32>, s: Supervision) -> (r: StartStep)
    ensures
        r == first_step(live_pid, s),
{
    match live_pid {
        Some(pid) => StartStep::AlreadyRunning(pid),
        None => StartStep::Launch(start_action(s)),
    }
}

/// What one look at a started daemon shows.
#[derive(Debug, Clone, Copy, PartialEq, Eq, Structural)]
pub enum StartPoll {
    /// The socket accepts a connection: the daemon is healthy.
    Serving,
    /// The process that was started is gone.
    Exited,
    /// The deadline has passed.
    TimedOut,
    /// Not yet.
    Again,
}

/// What a look at a daemon that starts leads to.
pub open spec fn start_poll(expired: bool, serving: bool, exited: bool) -> StartPoll {
    if expired {
        StartPoll::TimedOut
    } else if serving {
        StartPoll::Serving
    } else if exited {
        StartPoll::Exited
    } else {
        StartPoll::Again
    }
}

/// What one look at a started daemon shows. Only the socket shows that it is
/// healthy: it claims the process id file before it serves anything.
pub fn poll_start(expired: bool, serving: bool, exited: bool) -> (p: StartPoll)
    ensures
        p == start_poll(expired, serving, exited),
{
    if expired {
        StartPoll::TimedOut
    } else if serving {
        StartPoll::Serving
    } else if exited {
        StartPoll::Exited
    } else {
        StartPoll::Again
    }
}

/// A start never launches anything beside a daemon that runs, nor a detached
/// process beside an agent.
pub proof fn starts_are_never_doubled(live_pid: Option<u32>, s: Supervision)
    ensures
        live_pid is Some ==> !(first_step(live_pid, s) is Launch),
        first_step(live_pid, s) == StartStep::Launch(StartAction::SpawnDetached) ==> live_pid is None
            && s is Unmanaged,
{
}

/// The program that is started detached: the one beside this program, where
/// there is one, else the one on the path.
pub fn daemon_program(beside: Option<&str>, exists: bool) -> (p: String)
    ensures
        p@ == match beside {
            Some(dir) => if exists {
                joined_path(dir@, "smeltrd"@)
            } else {
                "smeltrd"@
            },
            None => "smeltrd"@,
        },
{
    match beside {
        Some(dir) => if exists {
            join_path(dir, "smeltrd")
        } else {
            "smeltrd".to_owned()
        },
        None => "smeltrd".to_owned(),
    }
}

/// Tells that the daemon runs already.
pub fn already_running_text(pid: u32) -> (s: String)
    ensures
        s@ == "smeltrd already running (pid "@ + dec(pid as int) + ")\n"@,
{
    let mut s = "smeltrd already running (pid ".to_owned();
    push_dec(&mut s, pid as u64);
    s.append(")\n");
    s
}

/// A process id, where it is known.
pub open spec fn pid_text(pid: Option<u32>) -> Seq<char> {
    match pid {
        Some(p) => dec(p as int),
        None => "?"@,
    }
}

/// Tells that the daemon was started.
pub fn started_text(launchd: bool, pid: Option<u32>) -> (s: String)
    ensures
        s@ == (if launchd {
            "smeltrd started by launchd (pid "@
        } else {
            "smeltrd started (pid "@
        }) + pid_text(pid) + ")\n"@,
{
    let mut s = if launchd {
        "smeltrd started by launchd (pid ".to_owned()
    } else {
        "smeltrd started (pid ".to_owned()
    };
    match pid {
        Some(p) => push_dec(&mut s, p as u64),
        None => s.append("?"),
    }
    s.append(")\n");
    s
}

/// Tells that the daemon ended before it served its socket. `errors` is what it
/// wrote meanwhile.
pub fn exited_error(status: &str, socket: &str, errors: &str) -> (s: String)
    ensures
        s@ == "smeltrd exited ("@ + status@ + ") before serving "@ + socket@ + errors@,
{
    let mut s = "smeltrd exited (".to_owned();
    s.append(status);
    s.append(") before serving ");
    s.append(socket);
    s.append(errors);
    s
}

/// Tells that the daemon does not serve its socket in time.
pub fn timeout_error(socket: &str, errors: &str) -> (s: String)
    ensures
        s@ == "smeltrd did not serve "@ + socket@ + " within "@ + dec(START_DEADLINE_SECS as int)
            + "s"@ + errors@,
{
    let mut s = "smeltrd did not serve ".to_owned();
    s.append(socket);
    s.append(" within ");
    push_dec(&mut s, START_DEADLINE_SECS);
    s.append("s");
    s.append(errors);
    s
}

/// Tells that launchctl failed.
pub fn launchctl_error(args: &Vec<String>, status: &str) -> (s: String)
    ensures
        s@ == "launchctl "@ + joined(views(args@), " "@) + " failed: "@ + status@,
{
    let mut s = "launchctl ".to_owned();
    s.append(join(args, " ").as_str());
    s.append(" failed: ");
    s.append(status);
    s
}

/// The user's domain in launchd.
pub open spec fn domain_of(uid: u32) -> Seq<char> {
    "gui/"@ + dec(uid as int)
}

/// The user's domain in launchd.
pub fn launchd_domain(uid: u32) -> (s: String)
    ensures
        s@ == domain_of(uid),
{
    let mut s = "gui/".to_owned();
    push_dec(&mut s, uid as u64);
    s
}

/// The agent in launchd.
pub open spec fn target_in(uid: u32) -> Seq<char> {
    domain_of(uid) + "/"@ + LAUNCHAGENT_LABEL@
}

/// The agent in launchd.
pub fn launchd_target(uid: u32) -> (s: String)
    ensures
        s@ == target_in(uid),
{
    let mut s = launchd_domain(uid);
    s.append("/");
    s.append(LAUNCHAGENT_LABEL);
    s
}

/// Is the agent unloaded before the daemon is stopped? Else launchd would start
/// the daemon again.
pub fn unloads_first(s: Supervision) -> (b: bool)
    ensures
        b == (s matches Supervision::LaunchAgent { loaded, .. } && loaded),
{
    match s {
        Supervision::LaunchAgent { loaded, .. } => loaded,
        Supervision::Unmanaged => false,
    }
}

/// Tells that the agent was unloaded.
pub fn booted_out_text() -> (s: String)
    ensures
        s@ == "launchctl booted out "@ + LAUNCHAGENT_LABEL@ + "\n"@,
{
    let mut s = "launchctl booted out ".to_owned();
    s.append(LAUNCHAGENT_LABEL);
    s.append("\n");
    s
}

/// What the next look at a signalled daemon leads to.
#[derive(Debug, Clone, Copy, PartialEq, Eq, Structural)]
pub enum StopPoll {
    Stopped,
    /// Looked for again after a pause.
    Again,
    /// It was looked for often enough.
    GivenUp,
}

/// What the look number `n` at a signalled daemon leads to, counted from zero.
pub fn poll_stop(n: u32, alive: bool) -> (p: StopPoll)
    ensures
        p == if n >= STOP_POLLS {
            StopPoll::GivenUp
        } else if alive {
            StopPoll::Again
        } else {
            StopPoll::Stopped
        },
{
    if n >= STOP_POLLS {
        StopPoll::GivenUp
    } else if alive {
        StopPoll::Again
    } else {
        StopPoll::Stopped
    }
}

pub const STOPPED: &'static str = "smeltrd stopped\n";

/// Tells that the daemon does not stop.
pub fn still_alive_error() -> (s: String)
    ensures
        s@ == "smeltrd still alive after "@ + dec(STOP_POLLS * STOP_POLL_MS / 1000) + "s"@,
{
    let mut s = "smeltrd still alive after ".to_owned();
    push_dec(&mut s, STOP_POLLS as u64 * STOP_POLL_MS / 1000);
    s.append("s");
    s
}

/// Tells that there is no daemon to install.
pub fn missing_daemon_error(path: &str) -> (s: String)
    ensures
        s@ == "smeltrd binary not found next to smeltr at "@ + path@
            + "; rebuild via `cargo build --workspace --release`"@,
{
    let mut s = "smeltrd binary not found next to smeltr at ".to_owned();
    s.append(path);
    s.append("; rebuild via `cargo build --workspace --release`");
    s
}

/// What an installation tells, by whether launchd took the agent.
pub open spec fn installation(plist_path: Seq<char>, loaded: bool, home: Seq<char>) -> Seq<char> {
    "wrote LaunchAgent plist: "@ + plist_path + "\n"@ + if loaded {
        "launchctl loaded "@ + LAUNCHAGENT_LABEL@
            + "\n\nsmeltrd will now start at every login and restart on crash.\nVerify with:  launchctl list | grep "@
            + LAUNCHAGENT_LABEL@ + "\nLogs:         "@ + home + "/smeltrd.log\n"@
    } else {
        "WARNING: plist was written but launchctl bootstrap/load failed.\nRun manually: launchctl load "@
            + plist_path + "\n"@
    }
}

/// What an installation tells, by whether launchd took the agent.
pub fn installed_text(plist_path: &str, loaded: bool, smeltr_home: &str) -> (s: String)
    ensures
        s@ == installation(plist_path@, loaded, smeltr_home@),
{
    let mut s = "wrote LaunchAgent plist: ".to_owned();
    s.append(plist_path);
    s.append("\n");
    let mut t: String;
    if loaded {
        t = "launchctl loaded ".to_owned();
        t.append(LAUNCHAGENT_LABEL);
        t.append(
            "\n\nsmeltrd will now start at every login and restart on crash.\nVerify with:  launchctl list | grep ",
        );
        t.append(LAUNCHAGENT_LABEL);
        t.append("\nLogs:         ");
        t.append(smeltr_home);
        t.append("/smeltrd.log\n");
    } else {
        t =
        "WARNING: plist was written but launchctl bootstrap/load failed.\nRun manually: launchctl load ".to_owned();
        t.append(plist_path);
        t.append("\n");
    }
    s.append(t.as_str());
    s
}

/// Tells that there is no agent.
pub fn not_installed_text(plist_path: &str) -> (s: String)
    ensures
        s@ == "LaunchAgent not installed (no plist at "@ + plist_path@ + ")\n"@,
{
    let mut s = "LaunchAgent not installed (no plist at ".to_owned();
    s.append(plist_path);
    s.append(")\n");
    s
}

/// What the removal of the agent tells, by whether launchd let it go.
pub open spec fn removal(unloaded: bool, uid: u32) -> Seq<char> {
    if unloaded {
        "launchctl unloaded "@ + LAUNCHAGENT_LABEL@ + "\n"@
    } else {
        "WARNING: launchctl unload failed; removing plist anyway.\nYou may need to run:  launchctl bootout "@
            + target_in(uid) + "\n"@
    }
}

/// What the removal of the agent tells, by whether launchd let it go.
pub fn unloaded_text(unloaded: bool, uid: u32) -> (s: String)
    ensures
        s@ == removal(unloaded, uid),
{
    if unloaded {
        let mut s = "launchctl unloaded ".to_owned();
        s.append(LAUNCHAGENT_LABEL);
        s.append("\n");
        s
    } else {
        let mut s =
            "WARNING: launchctl unload failed; removing plist anyway.\nYou may need to run:  launchctl bootout ".to_owned();
        s.append(launchd_target(uid).as_str());
        s.append("\n");
        s
    }
}

/// Tells that the property list was removed.
pub fn removed_text(plist_path: &str) -> (s: String)
    ensures
        s@ == "removed "@ + plist_path@ + "\n"@,
{
    let mut s = "removed ".to_owned();
    s.append(plist_path);
    s.append("\n");
    s
}

} // verus!
