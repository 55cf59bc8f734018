//! The agent that supervises the daemon, and the state of both.

use crate::parse::{
    end_trimmed, lines, lines_of, parse_unsigned, parsed_unsigned, replace, replaced, trim,
    trim_end, trimmed,
};
use crate::paths::{equal_paths, join_path, joined_path, same_path};
use crate::text::{
    begins, chars_of, dec, find_from, lemma_position_from, occurs_at, opt_view, position, push_dec,
    range_text, starts_with, views,
};
use vstd::prelude::*;

verus! {

broadcast use vstd::string::group_string_axioms;

/// What can be done with the daemon.
#[derive(Debug, Clone, Copy, PartialEq, Eq, Structural)]
pub enum DaemonCmd {
    /// Starts it: through launchd where the agent is installed, else as a
    /// detached process.
    Start,
    /// Stops it.
    Stop,
    /// Stops and starts it.
    Restart,
    /// Tells whether it runs.
    Status,
    /// Installs the agent, so that it starts at login.
    Install,
    /// Uninstalls the agent.
    Uninstall,
}

pub const LAUNCHAGENT_LABEL: &'static str = "com.smeltr.daemon";

/// There is no home directory.
#[derive(Debug, Clone, Copy, PartialEq, Eq, Structural)]
pub struct HomeMissing;

impl HomeMissing {
    /// The error in words.
    pub fn message(&self) -> (m: &'static str)
        ensures
            m@ == "HOME env var not set"@,
    {
        "HOME env var not set"
    }
}

/// The path of the agent's property list.
pub open spec fn agent_path(home: Seq<char>) -> Seq<char> {
    joined_path(joined_path(home, "Library/LaunchAgents"@), LAUNCHAGENT_LABEL@ + ".plist"@)
}

/// The path of the agent's property list.
pub fn launchagent_path_from_home(home: &str) -> (p: String)
    ensures
        p@ == agent_path(home@),
{
    let mut name = LAUNCHAGENT_LABEL.to_owned();
    name.append(".plist");
    join_path(join_path(home, "Library/LaunchAgents").as_str(), name.as_str())
}

/// The path of the agent's property list, where there is a home.
pub fn launchagent_path(home: Option<&str>) -> (r: Result<String, HomeMissing>)
    ensures
        match home {
            Some(h) => r matches Ok(p) && p@ == agent_path(h@),
            None => r matches Err(_),
        },
{
    match home {
        Some(h) => Ok(launchagent_path_from_home(h)),
        None => Err(HomeMissing),
    }
}

/// The directory of the daemon: the one that is set, else one in the user's
/// home.
pub fn smeltr_home_dir(over: Option<&str>, home: Option<&str>) -> (r: Result<String, HomeMissing>)
    ensures
        match over {
            Some(d) => r matches Ok(p) && p@ == d@,
            None => match home {
                Some(h) => r matches Ok(p) && p@ == joined_path(h@, ".smeltr"@),
                None => r matches Err(_),
            },
        },
{
    match over {
        Some(d) => Ok(d.to_owned()),
        None => match home {
            Some(h) => Ok(join_path(h, ".smeltr")),
            None => Err(HomeMissing),
        },
    }
}

/// The path of the file with the daemon's process id.
pub fn pid_file_path(smeltr_home: &str) -> (p: String)
    ensures
        p@ == joined_path(smeltr_home@, "smeltrd.pid"@),
{
    join_path(smeltr_home, "smeltrd.pid")
}

/// The process id that a text writes, blanks around it aside.
pub open spec fn pid_in(s: Seq<char>) -> Option<u32> {
    match parsed_unsigned(trimmed(s), u32::MAX as nat) {
        Some(n) => Some(n as u32),
        None => None,
    }
}

/// Reads a process id.
pub fn parse_pid(s: &str) -> (r: Option<u32>)
    ensures
        r == pid_in(s@),
{
    match parse_unsigned(trim(s).as_str(), u32::MAX as u64) {
        Some(n) => Some(n as u32),
        None => None,
    }
}

/// A character that markup gives a meaning, as an entity.
pub open spec fn entity(c: char) -> Seq<char> {
    if c == '&' {
        "&amp;"@
    } else if c == '<' {
        "&lt;"@
    } else if c == '>' {
        "&gt;"@
    } else {
        seq![c]
    }
}

/// `s` as text of markup.
pub open spec fn escaped(s: Seq<char>) -> Seq<char>
    decreases s.len(),
{
    if s.len() == 0 {
        seq![]
    } else {
        entity(s[0]) + escaped(s.skip(1))
    }
}

/// Text of markup as `s`.
pub open spec fn unescaped(s: Seq<char>) -> Seq<char> {
    replaced(replaced(replaced(s, "&lt;"@, "<"@), "&gt;"@, ">"@), "&amp;"@, "&"@)
}

/// `s` as text of markup.
pub fn xml_escape(s: &str) -> (r: String)
    ensures
        r@ == escaped(s@),
{
    let v = chars_of(s);
    let n: usize = v.len();
    let mut r = String::new();
    let mut i: usize = 0;
    assert(v@.skip(0) =~= v@);
    assert(r@ + escaped(v@.skip(0)) =~= escaped(v@));
    while i < n
        invariant
            i <= n,
            n == v@.len(),
            r@ + escaped(v@.skip(i as int)) == escaped(v@),
        decreases n - i,
    {
        let ghost rest = v@.skip(i as int);
        let ghost before = r@;
        let c: char = v[i];
        proof {
            assert(rest[0] == c);
            assert(rest.skip(1) =~= v@.skip(i + 1));
        }
        if c == '&' {
            r.append("&amp;");
        } else if c == '<' {
            r.append("&lt;");
        } else if c == '>' {
            r.append("&gt;");
        } else {
            r.push(c);
        }
        assert(r@ =~= before + entity(c));
        assert(r@ + escaped(v@.skip(i + 1)) =~= before + (entity(c) + escaped(v@.skip(i + 1))));
        i = i + 1;
    }
    assert(v@.skip(n as int) =~= Seq::<char>::empty());
    assert(r@ =~= escaped(v@));
    r
}

/// The lines in front of the program.
pub open spec fn plist_head() -> Seq<char> {
    "<?xml version=\"1.0\" encoding=\"UTF-8\"?>\n"@
        + "<!DOCTYPE plist PUBLIC \"-//Apple//DTD PLIST 1.0//EN\" "@
        + "\"http://www.apple.com/DTDs/PropertyList-1.0.dtd\">\n"@ + "<plist version=\"1.0\">\n"@
        + "<dict>\n"@ + "    <key>Label</key>\n"@ + "    <string>com.smeltr.daemon</string>\n"@
        + "    <key>ProgramArguments</key>\n"@ + "    <array>\n"@ + "        <string>"@
}

/// The lines between the program and the key of the home.
pub open spec fn plist_middle() -> Seq<char> {
    "</string>\n"@ + "        <string>--foreground</string>\n"@ + "    </array>\n"@
        + "    <key>EnvironmentVariables</key>\n"@ + "    <dict>\n        "@
}

/// The key of the home.
pub const HOME_KEY: &'static str = "<key>SMELTR_HOME</key>";

/// What stands between the key of the home and the home.
pub const HOME_OPEN: &'static str = "\n        ";

/// The lines between the home and the log.
pub open spec fn plist_flags() -> Seq<char> {
    "\n    </dict>\n    <key>RunAtLoad</key>\n    <true/>\n    <key>KeepAlive</key>\n    <true/>\n    <key>ThrottleInterval</key>\n    <integer>5</integer>\n    <key>StandardOutPath</key>\n    <string>"@
}

/// What follows the home.
pub open spec fn plist_tail(home: Seq<char>) -> Seq<char> {
    plist_flags() + home
        + "/smeltrd.log</string>\n    <key>StandardErrorPath</key>\n    <string>"@ + home
        + "/smeltrd.err</string>\n</dict>\n</plist>\n"@
}

/// The property list of the agent, given the program and the daemon's home.
pub open spec fn plist_of(program: Seq<char>, home: Seq<char>) -> Seq<char> {
    plist_head() + escaped(program) + plist_middle() + HOME_KEY@ + HOME_OPEN@ + "<string>"@
        + escaped(home) + "</string>"@ + plist_tail(escaped(home))
}

/// The property list of the agent.
pub fn plist_content(binary_path: &str, smeltr_home: &str) -> (s: String)
    ensures
        s@ == plist_of(binary_path@, smeltr_home@),
{
    let bin = xml_escape(binary_path);
    let home = xml_escape(smeltr_home);
    let mut s = "<?xml version=\"1.0\" encoding=\"UTF-8\"?>\n".to_owned();
    s.append("<!DOCTYPE plist PUBLIC \"-//Apple//DTD PLIST 1.0//EN\" ");
    s.append("\"http://www.apple.com/DTDs/PropertyList-1.0.dtd\">\n");
    s.append("<plist version=\"1.0\">\n");
    s.append("<dict>\n");
    s.append("    <key>Label</key>\n");
    s.append("    <string>com.smeltr.daemon</string>\n");
    s.append("    <key>ProgramArguments</key>\n");
    s.append("    <array>\n");
    s.append("        <string>");
    s.append(bin.as_str());
    let mut middle = "</string>\n".to_owned();
    middle.append("        <string>--foreground</string>\n");
    middle.append("    </array>\n");
    middle.append("    <key>EnvironmentVariables</key>\n");
    middle.append("    <dict>\n        ");
    s.append(middle.as_str());
    s.append(HOME_KEY);
    s.append(HOME_OPEN);
    s.append("<string>");
    s.append(home.as_str());
    s.append("</string>");
    let mut tail =
        "\n    </dict>\n    <key>RunAtLoad</key>\n    <true/>\n    <key>KeepAlive</key>\n    <true/>\n    <key>ThrottleInterval</key>\n    <integer>5</integer>\n    <key>StandardOutPath</key>\n    <string>".to_owned();
    tail.append(home.as_str());
    tail.append("/smeltrd.log</string>\n    <key>StandardErrorPath</key>\n    <string>");
    tail.append(home.as_str());
    tail.append("/smeltrd.err</string>\n</dict>\n</plist>\n");
    s.append(tail.as_str());
    s
}

/// How the daemon of a home is supervised.
#[derive(Debug, Clone, Copy, PartialEq, Eq, Structural)]
pub enum Supervision {
    /// No agent serves the home.
    Unmanaged,
    /// The agent is installed for the home. `loaded` is whether launchd knows
    /// it, `pid` the process that it runs.
    LaunchAgent { loaded: bool, pid: Option<u32> },
}

/// How the daemon is started.
#[derive(Debug, Clone, Copy, PartialEq, Eq, Structural)]
pub enum StartAction {
    SpawnDetached,
    Kickstart,
    Bootstrap,
}

/// How the daemon is started. Never as a detached process beside the agent: it
/// would win the race for the process id file, and the agent's own process
/// would exit and be started again every few seconds.
pub fn start_action(s: Supervision) -> (a: StartAction)
    ensures
        a == match s {
            Supervision::Unmanaged => StartAction::SpawnDetached,
            Supervision::LaunchAgent { loaded: true, .. } => StartAction::Kickstart,
            Supervision::LaunchAgent { loaded: false, .. } => StartAction::Bootstrap,
        },
{
    match s {
        Supervision::Unmanaged => StartAction::SpawnDetached,
        Supervision::LaunchAgent { loaded: true, .. } => StartAction::Kickstart,
        Supervision::LaunchAgent { loaded: false, .. } => StartAction::Bootstrap,
    }
}

/// A running daemon that the loaded agent does not own.
pub open spec fn stray(s: Supervision, live_pid: Option<u32>) -> Option<u32> {
    match s {
        Supervision::LaunchAgent { loaded: true, pid } => if live_pid != pid {
            live_pid
        } else {
            None
        },
        _ => None,
    }
}

/// A running daemon that the loaded agent does not own.
pub fn outside_launchd(s: Supervision, live_pid: Option<u32>) -> (r: Option<u32>)
    ensures
        r == stray(s, live_pid),
{
    match s {
        Supervision::LaunchAgent { loaded: true, pid } => match live_pid {
            Some(live) => match pid {
                Some(p) => if live != p {
                    Some(live)
                } else {
                    None
                },
                None => Some(live),
            },
            None => None,
        },
        _ => None,
    }
}

/// The home that a property list hands to the daemon.
pub open spec fn plist_home(plist: Seq<char>) -> Option<Seq<char>> {
    match position(plist, HOME_KEY@) {
        None => None,
        Some(i) => {
            let a = plist.skip(i);
            match position(a, "<string>"@) {
                None => None,
                Some(j) => {
                    let b = a.skip(j + "<string>"@.len());
                    match position(b, "</string>"@) {
                        None => None,
                        Some(k) => Some(unescaped(b.take(k))),
                    }
                },
            }
        },
    }
}

/// Text of markup as it is meant.
fn xml_unescape(s: &str) -> (r: String)
    ensures
        r@ == unescaped(s@),
{
    proof {
        reveal_strlit("&lt;");
        reveal_strlit("&gt;");
        reveal_strlit("&amp;");
    }
    let a = replace(s, "&lt;", "<");
    let b = replace(a.as_str(), "&gt;", ">");
    replace(b.as_str(), "&amp;", "&")
}

/// What follows position `i`.
fn rest_from(v: &Vec<char>, i: usize) -> (r: Vec<char>)
    requires
        i <= v@.len(),
    ensures
        r@ == v@.skip(i as int),
{
    let mut r: Vec<char> = Vec::new();
    let mut k: usize = i;
    while k < v.len()
        invariant
            i <= k <= v@.len(),
            r@ == v@.subrange(i as int, k as int),
        decreases v@.len() - k,
    {
        r.push(v[k]);
        assert(r@ =~= v@.subrange(i as int, k + 1));
        k = k + 1;
    }
    assert(r@ =~= v@.skip(i as int));
    r
}

/// The home that a property list hands to the daemon.
pub fn plist_smeltr_home(plist: &str) -> (r: Option<String>)
    ensures
        opt_view(r) == plist_home(plist@),
{
    let v = chars_of(plist);
    match find_from(&v, &chars_of(HOME_KEY), 0) {
        None => None,
        Some(i) => {
            let a = rest_from(&v, i);
            match find_from(&a, &chars_of("<string>"), 0) {
                None => None,
                Some(j) => {
                    proof {
                        reveal_strlit("<string>");
                        assert(j + 8 <= a.len());
                    }
                    let b = rest_from(&a, j + 8);
                    match find_from(&b, &chars_of("</string>"), 0) {
                        None => None,
                        Some(k) => {
                            proof {
                                lemma_position_from(b@, "</string>"@, 0);
                            }
                            let inner = range_text(&b, 0, k);
                            assert(b@.subrange(0, k as int) =~= b@.take(k as int));
                            Some(xml_unescape(inner.as_str()))
                        },
                    }
                },
            }
        },
    }
}

/// What follows the prefix on the first line that has it, from line `i` on.
pub open spec fn after_prefix(list: Seq<Seq<char>>, prefix: Seq<char>, i: int) -> Option<Seq<char>>
    decreases list.len() - i,
{
    if i < 0 || i >= list.len() {
        None
    } else if starts_with(list[i], prefix) {
        Some(list[i].skip(prefix.len() as int))
    } else {
        after_prefix(list, prefix, i + 1)
    }
}

/// The process id of an agent, out of what launchd prints of it. Only the line
/// with a single tab counts: those of nested blocks have more.
pub open spec fn printed_pid(output: Seq<char>) -> Option<u32> {
    match after_prefix(lines_of(output), "\tpid = "@, 0) {
        Some(v) => pid_in(v),
        None => None,
    }
}

/// The process id of an agent, out of what launchd prints of it.
pub fn launchd_pid(print_output: &str) -> (r: Option<u32>)
    ensures
        r == printed_pid(print_output@),
{
    let list = lines(print_output);
    let ghost all = views(list@);
    let mut i: usize = 0;
    while i < list.len()
        invariant
            i <= list@.len(),
            all == views(list@),
            all == lines_of(print_output@),
            after_prefix(all, "\tpid = "@, 0) == after_prefix(all, "\tpid = "@, i as int),
        decreases list@.len() - i,
    {
        assert(all[i as int] == list@[i as int]@);
        if begins(list[i].as_str(), "\tpid = ") {
            let v = chars_of(list[i].as_str());
            proof {
                reveal_strlit("\tpid = ");
                assert(v@.subrange(7, v@.len() as int) =~= v@.skip(7));
            }
            let rest = range_text(&v, 7, v.len());
            return parse_pid(rest.as_str());
        }
        i = i + 1;
    }
    None
}

/// How the daemon of a home is supervised.
pub open spec fn supervised(
    plist: Option<Seq<char>>,
    home: Seq<char>,
    print: Option<Seq<char>>,
) -> Supervision {
    match plist {
        None => Supervision::Unmanaged,
        Some(p) => match plist_home(p) {
            Some(h) => if equal_paths(h, home) {
                match print {
                    Some(out) => Supervision::LaunchAgent { loaded: true, pid: printed_pid(out) },
                    None => Supervision::LaunchAgent { loaded: false, pid: None },
                }
            } else {
                Supervision::Unmanaged
            },
            None => Supervision::Unmanaged,
        },
    }
}

/// The view of an optional text.
pub open spec fn opt_text(o: Option<&str>) -> Option<Seq<char>> {
    match o {
        Some(s) => Some(s@),
        None => None,
    }
}

/// How the daemon of `home` is supervised, given the agent's property list,
/// where it can be read, and what launchd prints of the agent, where it knows
/// it. A home that the agent does not serve has a daemon of its own.
pub fn supervision(plist: Option<&str>, home: &str, print: Option<&str>) -> (s: Supervision)
    ensures
        s == supervised(opt_text(plist), home@, opt_text(print)),
{
    match plist {
        None => Supervision::Unmanaged,
        Some(p) => match plist_smeltr_home(p) {
            Some(h) => if same_path(h.as_str(), home) {
                match print {
                    Some(out) => Supervision::LaunchAgent { loaded: true, pid: launchd_pid(out) },
                    None => Supervision::LaunchAgent { loaded: false, pid: None },
                }
            } else {
                Supervision::Unmanaged
            },
            None => Supervision::Unmanaged,
        },
    }
}

/// What the daemon wrote to its log of errors, as part of a message.
pub open spec fn errors_note(text: Option<Seq<char>>, path: Seq<char>) -> Seq<char> {
    match text {
        Some(t) => if trimmed(t).len() > 0 {
            ":\n"@ + end_trimmed(t) + "\n("@ + path + ")"@
        } else {
            seq![]
        },
        None => seq![],
    }
}

/// What the daemon wrote to its log of errors since it was started, as part of
/// a message. Nothing where nothing was written or the log cannot be read.
pub fn errors_since(text: Option<&str>, err_path: &str) -> (s: String)
    ensures
        s@ == errors_note(opt_text(text), err_path@),
{
    if let Some(t) = text {
        if trim(t).as_str().unicode_len() > 0 {
            let mut s = ":\n".to_owned();
            s.append(trim_end(t).as_str());
            s.append("\n(");
            s.append(err_path);
            s.append(")");
            return s;
        }
    }
    let s = String::new();
    assert(s@ =~= seq![]);
    s
}

/// Whether the daemon runs, as lines.
pub open spec fn pid_line(pid_file: Option<u32>, live_pid: Option<u32>) -> Seq<char> {
    match pid_file {
        Some(p) => if live_pid == Some(p) {
            "pid:    "@ + dec(p as int) + "\n"@
        } else {
            "pid:    "@ + dec(p as int) + " (stale, no smeltrd runs under it)\n"@
        },
        None => "pid:    (no pid file)\n"@,
    }
}

/// What launchd knows of the daemon, as a line.
pub open spec fn launchd_line(s: Supervision) -> Seq<char> {
    match s {
        Supervision::Unmanaged => "launchd: not managed\n"@,
        Supervision::LaunchAgent { loaded: false, .. } => "launchd: "@ + LAUNCHAGENT_LABEL@
            + " installed, not loaded\n"@,
        Supervision::LaunchAgent { loaded: true, pid: Some(p) } => "launchd: "@ + LAUNCHAGENT_LABEL@
            + " running (pid "@ + dec(p as int) + ")\n"@,
        Supervision::LaunchAgent { loaded: true, pid: None } => "launchd: "@ + LAUNCHAGENT_LABEL@
            + " loaded, not running\n"@,
    }
}

pub const STRAY_WARNING: &'static str =
    " runs outside launchd; launchd's instance cannot start beside it and relaunches in a loop.\n         Fix: smeltr daemon restart\n";

/// The warning of a daemon that the agent does not own.
pub open spec fn stray_lines(o: Option<u32>) -> Seq<char> {
    match o {
        Some(p) => "WARNING: smeltrd pid "@ + dec(p as int) + STRAY_WARNING@,
        None => seq![],
    }
}

/// The state of the daemon.
pub open spec fn status_lines(
    pid_file: Option<u32>,
    live_pid: Option<u32>,
    s: Supervision,
    socket: Seq<char>,
    home: Seq<char>,
) -> Seq<char> {
    pid_line(pid_file, live_pid) + launchd_line(s) + stray_lines(stray(s, live_pid)) + "socket: "@
        + socket + "\n"@ + "home:   "@ + home + "\n"@
}

fn launchd_text(s: Supervision) -> (r: String)
    ensures
        r@ == launchd_line(s),
{
    match s {
        Supervision::Unmanaged => "launchd: not managed\n".to_owned(),
        Supervision::LaunchAgent { loaded, pid } => {
            let mut r = "launchd: ".to_owned();
            r.append(LAUNCHAGENT_LABEL);
            if !loaded {
                r.append(" installed, not loaded\n");
            } else {
                match pid {
                    Some(p) => {
                        r.append(" running (pid ");
                        push_dec(&mut r, p as u64);
                        r.append(")\n");
                    },
                    None => {
                        r.append(" loaded, not running\n");
                    },
                }
            }
            r
        },
    }
}

fn stray_text(o: Option<u32>) -> (r: String)
    ensures
        r@ == stray_lines(o),
{
    match o {
        Some(p) => {
            let mut r = "WARNING: smeltrd pid ".to_owned();
            push_dec(&mut r, p as u64);
            r.append(STRAY_WARNING);
            r
        },
        None => {
            let r = String::new();
            assert(r@ =~= seq![]);
            r
        },
    }
}

/// The state of the daemon: its process, what launchd knows of it, its socket
/// and its home.
pub fn status_text(
    pid_file: Option<u32>,
    live_pid: Option<u32>,
    s: Supervision,
    socket: &str,
    home: &str,
) -> (out: String)
    ensures
        out@ == status_lines(pid_file, live_pid, s, socket@, home@),
{
    let mut out = match pid_file {
        Some(p) => {
            let mut r = "pid:    ".to_owned();
            push_dec(&mut r, p as u64);
            let runs: bool = match live_pid {
                Some(l) => l == p,
                None => false,
            };
            if runs {
                r.append("\n");
            } else {
                r.append(" (stale, no smeltrd runs under it)\n");
            }
            r
        },
        None => "pid:    (no pid file)\n".to_owned(),
    };
    out.append(launchd_text(s).as_str());
    out.append(stray_text(outside_launchd(s, live_pid)).as_str());
    out.append("socket: ");
    out.append(socket);
    out.append("\n");
    out.append("home:   ");
    out.append(home);
    out.append("\n");
    out
}

proof fn lemma_replaced_skip(s: Seq<char>, from: Seq<char>, to: Seq<char>)
    requires
        s.len() > 0,
        from.len() > 0,
        s[0] != from[0] || (from.len() > 1 && s.len() > 1 && s[1] != from[1]),
    ensures
        replaced(s, from, to) == seq![s[0]] + replaced(s.skip(1), from, to),
{
    if starts_with(s, from) {
        assert(s.take(from.len() as int)[0] == from[0]);
        if from.len() > 1 {
            assert(s.take(from.len() as int)[1] == from[1]);
        }
    }
}

proof fn lemma_replaced_hit(rest: Seq<char>, from: Seq<char>, to: Seq<char>)
    requires
        from.len() > 0,
    ensures
        replaced(from + rest, from, to) == to + replaced(rest, from, to),
{
    assert((from + rest).take(from.len() as int) =~= from);
    assert((from + rest).skip(from.len() as int) =~= rest);
}

/// An entity that is not the one looked for passes unchanged.
proof fn lemma_replaced_passes(e: Seq<char>, rest: Seq<char>, from: Seq<char>, to: Seq<char>)
    requires
        from.len() > 1,
        from[0] == '&',
        e.len() > 0,
        e[0] == '&' ==> e.len() > 1 && e[1] != from[1],
        forall|k: int| 1 <= k < e.len() ==> #[trigger] e[k] != '&',
    ensures
        replaced(e + rest, from, to) == e + replaced(rest, from, to),
    decreases e.len(),
{
    let s = e + rest;
    assert(s[0] == e[0]);
    if e[0] == '&' {
        assert(s[1] == e[1]);
    }
    lemma_replaced_skip(s, from, to);
    let t = e.skip(1);
    assert(s.skip(1) =~= t + rest);
    if t.len() > 0 {
        assert(t[0] == e[1]);
        assert forall|k: int| 1 <= k < t.len() implies #[trigger] t[k] != '&' by {
            assert(t[k] == e[k + 1]);
        }
        lemma_replaced_passes(t, rest, from, to);
        assert(seq![e[0]] + (t + replaced(rest, from, to)) =~= e + replaced(rest, from, to));
    } else {
        assert(t + rest =~= rest);
        assert(e =~= seq![e[0]]);
    }
}

/// The entities of `s` that are left after `done` of the three replacements.
spec fn partly(s: Seq<char>, done: int) -> Seq<char>
    decreases s.len(),
{
    if s.len() == 0 {
        seq![]
    } else {
        part(s[0], done) + partly(s.skip(1), done)
    }
}

spec fn part(c: char, done: int) -> Seq<char> {
    if (c == '<' && done >= 1) || (c == '>' && done >= 2) || (c == '&' && done >= 3) {
        seq![c]
    } else {
        entity(c)
    }
}

proof fn lemma_entities()
    ensures
        "&lt;"@ =~= seq!['&', 'l', 't', ';'],
        "&gt;"@ =~= seq!['&', 'g', 't', ';'],
        "&amp;"@ =~= seq!['&', 'a', 'm', 'p', ';'],
        "<"@ =~= seq!['<'],
        ">"@ =~= seq!['>'],
        "&"@ =~= seq!['&'],
{
    reveal_strlit("&lt;");
    reveal_strlit("&gt;");
    reveal_strlit("&amp;");
    reveal_strlit("<");
    reveal_strlit(">");
    reveal_strlit("&");
}

/// What each replacement looks for, and what it puts there.
spec fn looks_for(done: int) -> Seq<char> {
    if done == 0 {
        "&lt;"@
    } else if done == 1 {
        "&gt;"@
    } else {
        "&amp;"@
    }
}

spec fn puts(done: int) -> Seq<char> {
    if done == 0 {
        "<"@
    } else if done == 1 {
        ">"@
    } else {
        "&"@
    }
}

proof fn lemma_replacement(s: Seq<char>, done: int)
    requires
        0 <= done < 3,
    ensures
        replaced(partly(s, done), looks_for(done), puts(done)) == partly(s, done + 1),
    decreases s.len(),
{
    lemma_entities();
    if s.len() > 0 {
        let c = s[0];
        let rest = partly(s.skip(1), done);
        lemma_replacement(s.skip(1), done);
        if (done == 0 && c == '<') || (done == 1 && c == '>') || (done == 2 && c == '&') {
            lemma_replaced_hit(rest, looks_for(done), puts(done));
            assert(puts(done) =~= seq![c]);
        } else {
            lemma_replaced_passes(part(c, done), rest, looks_for(done), puts(done));
        }
    }
}

proof fn lemma_partly_ends(s: Seq<char>)
    ensures
        partly(s, 0) == escaped(s),
        partly(s, 3) == s,
    decreases s.len(),
{
    if s.len() > 0 {
        lemma_partly_ends(s.skip(1));
        assert(part(s[0], 3) =~= seq![s[0]]);
        assert(seq![s[0]] + s.skip(1) =~= s);
    } else {
        assert(partly(s, 3) =~= s);
    }
}

/// Escaping loses nothing: what is escaped reads back as it was.
pub proof fn escaping_is_undone(s: Seq<char>)
    ensures
        unescaped(escaped(s)) == s,
{
    lemma_partly_ends(s);
    lemma_replacement(s, 0);
    lemma_replacement(s, 1);
    lemma_replacement(s, 2);
}

proof fn lemma_escaped_quiet(s: Seq<char>)
    ensures
        forall|k: int| 0 <= k < escaped(s).len() ==> #[trigger] escaped(s)[k] != '<',
    decreases s.len(),
{
    lemma_entities();
    if s.len() > 0 {
        let rest = escaped(s.skip(1));
        lemma_escaped_quiet(s.skip(1));
        let e = entity(s[0]);
        assert forall|k: int| 0 <= k < escaped(s).len() implies #[trigger] escaped(s)[k] != '<' by {
            if k < e.len() {
                assert((e + rest)[k] == e[k]);
            } else {
                assert((e + rest)[k] == rest[k - e.len()]);
            }
        }
    }
}

/// No tag of `s` from `j` on is the key of the home.
spec fn other_tags(s: Seq<char>, j: int) -> bool
    decreases s.len() - j,
{
    if j < 0 || j >= s.len() {
        true
    } else {
        (s[j] == '<' ==> j + 1 < s.len() && (s[j + 1] != 'k' || (j + 5 < s.len() && s[j + 5]
            != 'S'))) && other_tags(s, j + 1)
    }
}

/// No tag of `s` is the key of the home.
spec fn quiet(s: Seq<char>) -> bool {
    forall|j: int|
        0 <= j < s.len() && #[trigger] s[j] == '<' ==> j + 1 < s.len() && (s[j + 1] != 'k' || (j + 5
            < s.len() && s[j + 5] != 'S'))
}

proof fn lemma_other_tags(s: Seq<char>, j: int)
    requires
        0 <= j <= s.len(),
        other_tags(s, j),
    ensures
        forall|i: int|
            j <= i < s.len() && #[trigger] s[i] == '<' ==> i + 1 < s.len() && (s[i + 1] != 'k' || (i
                + 5 < s.len() && s[i + 5] != 'S')),
    decreases s.len() - j,
{
    if j < s.len() {
        lemma_other_tags(s, j + 1);
    }
}

proof fn lemma_quiet_add(a: Seq<char>, b: Seq<char>)
    requires
        quiet(a),
        quiet(b),
    ensures
        quiet(a + b),
{
    let s = a + b;
    assert forall|j: int| 0 <= j < s.len() && #[trigger] s[j] == '<' implies j + 1 < s.len() && (s[j
        + 1] != 'k' || (j + 5 < s.len() && s[j + 5] != 'S')) by {
        if j < a.len() {
            assert(a[j] == '<');
        } else {
            assert(b[j - a.len()] == '<');
        }
    }
}

proof fn lemma_head_is_quiet()
    ensures
        quiet(plist_head()),
{
    let a = "<?xml version=\"1.0\" encoding=\"UTF-8\"?>\n"@;
    assert(quiet(a)) by {
        reveal_strlit("<?xml version=\"1.0\" encoding=\"UTF-8\"?>\n");
        reveal_with_fuel(other_tags, 60);
        assert(other_tags(a, 0));
        lemma_other_tags(a, 0);
    }
    let b = "<!DOCTYPE plist PUBLIC \"-//Apple//DTD PLIST 1.0//EN\" "@;
    assert(quiet(b)) by {
        reveal_strlit("<!DOCTYPE plist PUBLIC \"-//Apple//DTD PLIST 1.0//EN\" ");
        reveal_with_fuel(other_tags, 70);
        assert(other_tags(b, 0));
        lemma_other_tags(b, 0);
    }
    let c = "\"http://www.apple.com/DTDs/PropertyList-1.0.dtd\">\n"@;
    assert(quiet(c)) by {
        reveal_strlit("\"http://www.apple.com/DTDs/PropertyList-1.0.dtd\">\n");
        reveal_with_fuel(other_tags, 70);
        assert(other_tags(c, 0));
        lemma_other_tags(c, 0);
    }
    let d = "<plist version=\"1.0\">\n"@;
    assert(quiet(d)) by {
        reveal_strlit("<plist version=\"1.0\">\n");
        reveal_with_fuel(other_tags, 40);
        assert(other_tags(d, 0));
        lemma_other_tags(d, 0);
    }
    let e = "<dict>\n"@;
    assert(quiet(e)) by {
        reveal_strlit("<dict>\n");
        reveal_with_fuel(other_tags, 20);
        assert(other_tags(e, 0));
        lemma_other_tags(e, 0);
    }
    let f = "    <key>Label</key>\n"@;
    assert(quiet(f)) by {
        reveal_strlit("    <key>Label</key>\n");
        reveal_with_fuel(other_tags, 40);
        assert(other_tags(f, 0));
        lemma_other_tags(f, 0);
    }
    let g = "    <string>com.smeltr.daemon</string>\n"@;
    assert(quiet(g)) by {
        reveal_strlit("    <string>com.smeltr.daemon</string>\n");
        reveal_with_fuel(other_tags, 60);
        assert(other_tags(g, 0));
        lemma_other_tags(g, 0);
    }
    let h = "    <key>ProgramArguments</key>\n"@;
    assert(quiet(h)) by {
        reveal_strlit("    <key>ProgramArguments</key>\n");
        reveal_with_fuel(other_tags, 50);
        assert(other_tags(h, 0));
        lemma_other_tags(h, 0);
    }
    let i = "    <array>\n"@;
    assert(quiet(i)) by {
        reveal_strlit("    <array>\n");
        reveal_with_fuel(other_tags, 20);
        assert(other_tags(i, 0));
        lemma_other_tags(i, 0);
    }
    let j = "        <string>"@;
    assert(quiet(j)) by {
        reveal_strlit("        <string>");
        reveal_with_fuel(other_tags, 30);
        assert(other_tags(j, 0));
        lemma_other_tags(j, 0);
    }
    lemma_quiet_add(a, b);
    lemma_quiet_add(a + b, c);
    lemma_quiet_add(a + b + c, d);
    lemma_quiet_add(a + b + c + d, e);
    lemma_quiet_add(a + b + c + d + e, f);
    lemma_quiet_add(a + b + c + d + e + f, g);
    lemma_quiet_add(a + b + c + d + e + f + g, h);
    lemma_quiet_add(a + b + c + d + e + f + g + h, i);
    lemma_quiet_add(a + b + c + d + e + f + g + h + i, j);
}

proof fn lemma_middle_is_quiet()
    ensures
        quiet(plist_middle()),
{
    let a = "</string>\n"@;
    assert(quiet(a)) by {
        reveal_strlit("</string>\n");
        reveal_with_fuel(other_tags, 20);
        assert(other_tags(a, 0));
        lemma_other_tags(a, 0);
    }
    let b = "        <string>--foreground</string>\n"@;
    assert(quiet(b)) by {
        reveal_strlit("        <string>--foreground</string>\n");
        reveal_with_fuel(other_tags, 60);
        assert(other_tags(b, 0));
        lemma_other_tags(b, 0);
    }
    let c = "    </array>\n"@;
    assert(quiet(c)) by {
        reveal_strlit("    </array>\n");
        reveal_with_fuel(other_tags, 20);
        assert(other_tags(c, 0));
        lemma_other_tags(c, 0);
    }
    let d = "    <key>EnvironmentVariables</key>\n"@;
    assert(quiet(d)) by {
        reveal_strlit("    <key>EnvironmentVariables</key>\n");
        reveal_with_fuel(other_tags, 60);
        assert(other_tags(d, 0));
        lemma_other_tags(d, 0);
    }
    let e = "    <dict>\n        "@;
    assert(quiet(e)) by {
        reveal_strlit("    <dict>\n        ");
        reveal_with_fuel(other_tags, 40);
        assert(other_tags(e, 0));
        lemma_other_tags(e, 0);
    }
    lemma_quiet_add(a, b);
    lemma_quiet_add(a + b, c);
    lemma_quiet_add(a + b + c, d);
    lemma_quiet_add(a + b + c + d, e);
}

/// Where the first occurrence stands, told by the property that fixes it.
proof fn lemma_position_at(s: Seq<char>, p: Seq<char>, i: int)
    requires
        0 <= i,
        occurs_at(s, p, i),
        forall|j: int| 0 <= j < i ==> !#[trigger] occurs_at(s, p, j),
    ensures
        position(s, p) == Some(i),
{
    lemma_position_from(s, p, 0);
}

proof fn lemma_key_position(front: Seq<char>, back: Seq<char>)
    requires
        quiet(front),
    ensures
        position(front + HOME_KEY@ + back, HOME_KEY@) == Some(front.len() as int),
{
    reveal_strlit("<key>SMELTR_HOME</key>");
    let s = front + HOME_KEY@ + back;
    let n = front.len() as int;
    assert(s.subrange(n, n + HOME_KEY@.len()) =~= HOME_KEY@);
    assert forall|j: int| 0 <= j < n implies !#[trigger] occurs_at(s, HOME_KEY@, j) by {
        if occurs_at(s, HOME_KEY@, j) {
            let t = s.subrange(j, j + HOME_KEY@.len());
            assert(t[0] == s[j] && t[1] == s[j + 1] && t[5] == s[j + 5]);
            assert(front[j] == '<');
        }
    }
    lemma_position_at(s, HOME_KEY@, n);
}

/// No tag of `s` from `j` on opens a string.
spec fn no_strings(s: Seq<char>, j: int) -> bool
    decreases s.len() - j,
{
    if j < 0 || j >= s.len() {
        true
    } else {
        (s[j] == '<' ==> j + 1 < s.len() && s[j + 1] != 's') && no_strings(s, j + 1)
    }
}

proof fn lemma_no_strings(s: Seq<char>, j: int)
    requires
        0 <= j <= s.len(),
        no_strings(s, j),
    ensures
        forall|i: int|
            j <= i < s.len() && #[trigger] s[i] == '<' ==> i + 1 < s.len() && s[i + 1] != 's',
    decreases s.len() - j,
{
    if j < s.len() {
        lemma_no_strings(s, j + 1);
    }
}

proof fn lemma_open_position(back: Seq<char>)
    ensures
        position(HOME_KEY@ + HOME_OPEN@ + "<string>"@ + back, "<string>"@) == Some(
            (HOME_KEY@.len() + HOME_OPEN@.len()) as int,
        ),
{
    reveal_strlit("<string>");
    let front = HOME_KEY@ + HOME_OPEN@;
    let s = front + "<string>"@ + back;
    let n = front.len() as int;
    assert(s.subrange(n, n + 8) =~= "<string>"@);
    assert(no_strings(HOME_KEY@, 0)) by {
        reveal_strlit("<key>SMELTR_HOME</key>");
        reveal_with_fuel(no_strings, 30);
    }
    assert(no_strings(HOME_OPEN@, 0)) by {
        reveal_strlit("\n        ");
        reveal_with_fuel(no_strings, 20);
    }
    lemma_no_strings(HOME_KEY@, 0);
    lemma_no_strings(HOME_OPEN@, 0);
    assert forall|j: int| 0 <= j < n implies !#[trigger] occurs_at(s, "<string>"@, j) by {
        if occurs_at(s, "<string>"@, j) {
            let t = s.subrange(j, j + 8);
            assert(t[0] == s[j] && t[1] == s[j + 1]);
            if j < HOME_KEY@.len() {
                assert(HOME_KEY@[j] == '<');
            } else {
                assert(HOME_OPEN@[j - HOME_KEY@.len()] == '<');
            }
        }
    }
    lemma_position_at(s, "<string>"@, n);
}

proof fn lemma_close_position(front: Seq<char>, back: Seq<char>)
    requires
        forall|k: int| 0 <= k < front.len() ==> #[trigger] front[k] != '<',
    ensures
        position(front + "</string>"@ + back, "</string>"@) == Some(front.len() as int),
{
    reveal_strlit("</string>");
    let s = front + "</string>"@ + back;
    let n = front.len() as int;
    assert(s.subrange(n, n + 9) =~= "</string>"@);
    assert forall|j: int| 0 <= j < n implies !#[trigger] occurs_at(s, "</string>"@, j) by {
        if occurs_at(s, "</string>"@, j) {
            let t = s.subrange(j, j + 9);
            assert(t[0] == s[j]);
            assert(front[j] == '<');
        }
    }
    lemma_position_at(s, "</string>"@, n);
}

/// The home that is written to a property list is the home that is read from
/// it, whatever the program and the home are.
pub proof fn home_survives_the_plist(program: Seq<char>, home: Seq<char>)
    ensures
        plist_home(plist_of(program, home)) == Some(home),
{
    let front = plist_head() + escaped(program) + plist_middle();
    let h = escaped(home);
    let tail = plist_tail(h);
    let plist = plist_of(program, home);
    lemma_escaped_quiet(program);
    lemma_escaped_quiet(home);
    lemma_head_is_quiet();
    lemma_middle_is_quiet();
    assert(quiet(escaped(program)));
    lemma_quiet_add(plist_head(), escaped(program));
    lemma_quiet_add(plist_head() + escaped(program), plist_middle());
    let after_key = HOME_OPEN@ + "<string>"@ + h + "</string>"@ + tail;
    assert(plist =~= front + HOME_KEY@ + after_key);
    lemma_key_position(front, after_key);
    let a = plist.skip(front.len() as int);
    let after_open = h + "</string>"@ + tail;
    assert(a =~= HOME_KEY@ + HOME_OPEN@ + "<string>"@ + after_open);
    lemma_open_position(after_open);
    let b = a.skip((HOME_KEY@.len() + HOME_OPEN@.len()) as int + "<string>"@.len());
    assert(b =~= h + "</string>"@ + tail);
    lemma_close_position(h, tail);
    assert(b.take(h.len() as int) =~= h);
    escaping_is_undone(home);
}

/// A daemon is never spawned beside an agent that serves its home.
pub proof fn agents_are_never_doubled(plist: Seq<char>, home: Seq<char>, print: Option<Seq<char>>)
    requires
        plist_home(plist) matches Some(h) && equal_paths(h, home),
    ensures
        supervised(Some(plist), home, print) is LaunchAgent,
{
}

} // verus!
