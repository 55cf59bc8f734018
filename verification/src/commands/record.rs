//! Recording a command: whether the Metal hook can be used, under which name it
//! runs, and what is done next.

use crate::event::Uuid;
use crate::ids::{hyphenated, hyphenated_text, simple, simple_text};
use crate::parse::{blank, is_blank};
use crate::paths::{join_path, joined_path};
use crate::text::{chars_of, contains, has, opt_view, range_text, same, views};
use vstd::prelude::*;

verus! {

broadcast use vstd::string::group_string_axioms;

/// What the code signature of a hardened binary shows.
pub open spec fn shows_hardened(text: Seq<char>) -> bool {
    contains(text, "flags="@) && contains(text, "runtime"@)
}

/// Is the binary hardened, given what is printed of its code signature? The
/// system strips the hook from such binaries.
pub fn is_hardened_binary(signature: Option<&str>) -> (b: bool)
    ensures
        b == match signature {
            Some(s) => shows_hardened(s@),
            None => false,
        },
{
    match signature {
        Some(s) => has(s, "flags=") && has(s, "runtime"),
        None => false,
    }
}

/// The end of the word that starts at `i`.
pub open spec fn word_end(s: Seq<char>, i: int) -> int
    decreases s.len() - i,
{
    if i < 0 || i >= s.len() || blank(s[i]) {
        i
    } else {
        word_end(s, i + 1)
    }
}

proof fn lemma_word_end(s: Seq<char>, i: int)
    requires
        0 <= i <= s.len(),
    ensures
        i <= word_end(s, i) <= s.len(),
    decreases s.len() - i,
{
    if i < s.len() && !blank(s[i]) {
        lemma_word_end(s, i + 1);
    }
}

/// The words of a text, from position `i` on.
pub open spec fn words_from(s: Seq<char>, i: int) -> Seq<Seq<char>>
    decreases s.len() + 1 - i,
    via words_from_decreases
{
    if i < 0 || i >= s.len() {
        seq![]
    } else {
        let e = word_end(s, i);
        (if e > i {
            seq![s.subrange(i, e)]
        } else {
            seq![]
        }) + words_from(s, e + 1)
    }
}

#[via_fn]
proof fn words_from_decreases(s: Seq<char>, i: int) {
    if 0 <= i <= s.len() {
        lemma_word_end(s, i);
    }
}

/// The words of a text.
pub open spec fn words_of(s: Seq<char>) -> Seq<Seq<char>> {
    words_from(s, 0)
}

/// The words of a text.
pub fn words(s: &str) -> (r: Vec<String>)
    ensures
        views(r@) == words_of(s@),
{
    let v = chars_of(s);
    let n: usize = v.len();
    let mut r: Vec<String> = Vec::new();
    let mut i: usize = 0;
    assert(views(r@) + words_from(v@, 0) =~= words_of(v@));
    while i < n
        invariant
            i <= n,
            n == v@.len(),
            views(r@) + words_from(v@, i as int) == words_of(v@),
        decreases n - i,
    {
        let ghost before = r@;
        let mut e: usize = i;
        while e < n && !is_blank(v[e])
            invariant
                i <= e <= n,
                n == v@.len(),
                word_end(v@, i as int) == word_end(v@, e as int),
            decreases n - e,
        {
            e = e + 1;
        }
        if e > i {
            let word = range_text(&v, i, e);
            r.push(word);
            assert(views(r@) =~= views(before).push(word@));
        }
        let next: usize = if e < n {
            e + 1
        } else {
            n
        };
        proof {
            assert(words_from(v@, e + 1) == words_from(v@, next as int));
            assert(views(r@) + words_from(v@, next as int) =~= views(before) + words_from(
                v@,
                i as int,
            ));
        }
        i = next;
    }
    assert(views(r@) =~= words_of(v@));
    r
}

fn has_word(list: &Vec<String>, w: &str) -> (b: bool)
    ensures
        b == views(list@).contains(w@),
{
    let ghost all = views(list@);
    let mut i: usize = 0;
    while i < list.len()
        invariant
            i <= list@.len(),
            all == views(list@),
            forall|k: int| 0 <= k < i ==> (#[trigger] all[k]) != w@,
        decreases list@.len() - i,
    {
        assert(all[i as int] == list@[i as int]@);
        if same(list[i].as_str(), w) {
            return true;
        }
        i = i + 1;
    }
    false
}

/// Does the binary lack a plain arm64 part, given the list of its parts? The
/// hook is plain arm64 and cannot be loaded into others.
pub fn is_arm64e_only_binary(archs: Option<&str>) -> (b: bool)
    ensures
        b == match archs {
            Some(s) => words_of(s@).contains("arm64e"@) && !words_of(s@).contains("arm64"@),
            None => false,
        },
{
    match archs {
        Some(s) => {
            let list = words(s);
            has_word(&list, "arm64e") && !has_word(&list, "arm64")
        },
        None => false,
    }
}

/// Whether the Metal hook is used, and why not.
#[derive(Debug, Clone, PartialEq, Eq)]
pub enum HookPlan {
    /// The user asked for none.
    Declined,
    Hardened,
    Arm64eOnly,
    /// The hook at this path is used.
    Hook(String),
    /// There is no hook to use.
    NoDylib,
}

/// The view of a [`HookPlan`].
pub ghost enum PlanView {
    Declined,
    Hardened,
    Arm64eOnly,
    Hook(Seq<char>),
    NoDylib,
}

impl View for HookPlan {
    type V = PlanView;

    open spec fn view(&self) -> PlanView {
        match *self {
            HookPlan::Declined => PlanView::Declined,
            HookPlan::Hardened => PlanView::Hardened,
            HookPlan::Arm64eOnly => PlanView::Arm64eOnly,
            HookPlan::Hook(p) => PlanView::Hook(p@),
            HookPlan::NoDylib => PlanView::NoDylib,
        }
    }
}

/// Whether the Metal hook is used: what the user asks for comes first.
pub open spec fn planned(
    no_hook: bool,
    hardened: bool,
    arm64e_only: bool,
    dylib: Option<Seq<char>>,
) -> PlanView {
    if no_hook {
        PlanView::Declined
    } else if hardened {
        PlanView::Hardened
    } else if arm64e_only {
        PlanView::Arm64eOnly
    } else {
        match dylib {
            Some(d) => PlanView::Hook(d),
            None => PlanView::NoDylib,
        }
    }
}

/// Decides whether the Metal hook is used.
pub fn hook_plan(no_hook: bool, hardened: bool, arm64e_only: bool, dylib: Option<String>) -> (p:
    HookPlan)
    ensures
        p@ == planned(no_hook, hardened, arm64e_only, opt_view(dylib)),
{
    if no_hook {
        HookPlan::Declined
    } else if hardened {
        HookPlan::Hardened
    } else if arm64e_only {
        HookPlan::Arm64eOnly
    } else {
        match dylib {
            Some(d) => HookPlan::Hook(d),
            None => HookPlan::NoDylib,
        }
    }
}

pub const HARDENED_NOTE: &'static str =
    "` appears hardened; DYLD_INSERT_LIBRARIES will be stripped by SIP. Skipping Metal hook. Use brew Python to keep the hook, or pass --no-hook to silence this.";

pub const ARM64E_NOTE: &'static str =
    "` is arm64e-only; the metal-hook dylib is plain arm64. Skipping Metal hook. (Most Apple system binaries are arm64e; use a Homebrew Python or any arm64 binary to keep the hook.)";

pub const NO_DYLIB_NOTE: &'static str =
    "smeltr: could not provision metal-hook dylib (embedded extraction failed). Set SMELTR_DYLIB=/path/to/libmetal_hook.dylib to override. Continuing without hook.";

/// What the user is told where the hook is not used.
pub open spec fn plan_note(p: PlanView, cmd: Seq<char>) -> Option<Seq<char>> {
    match p {
        PlanView::Hardened => Some("smeltr: target binary `"@ + cmd + HARDENED_NOTE@),
        PlanView::Arm64eOnly => Some("smeltr: target binary `"@ + cmd + ARM64E_NOTE@),
        PlanView::NoDylib => Some(NO_DYLIB_NOTE@),
        _ => None,
    }
}

/// What the user is told where the hook is not used.
pub fn hook_note(p: &HookPlan, cmd: &str) -> (r: Option<String>)
    ensures
        opt_view(r) == plan_note(p@, cmd@),
{
    match p {
        HookPlan::Hardened => {
            let mut s = "smeltr: target binary `".to_owned();
            s.append(cmd);
            s.append(HARDENED_NOTE);
            Some(s)
        },
        HookPlan::Arm64eOnly => {
            let mut s = "smeltr: target binary `".to_owned();
            s.append(cmd);
            s.append(ARM64E_NOTE);
            Some(s)
        },
        HookPlan::NoDylib => Some(NO_DYLIB_NOTE.to_owned()),
        _ => None,
    }
}

/// The name of the session: the one of the flag, else the one of the
/// environment.
pub fn resolve_session_name(flag: Option<&str>, env: Option<&str>) -> (r: Option<String>)
    ensures
        opt_view(r) == match flag {
            Some(n) => Some(n@),
            None => match env {
                Some(n) => Some(n@),
                None => None,
            },
        },
{
    match flag {
        Some(n) => Some(n.to_owned()),
        None => match env {
            Some(n) => Some(n.to_owned()),
            None => None,
        },
    }
}

/// The exit code that is reported: that of the command, or minus one where a
/// signal killed it.
pub fn reported_exit_code(code: Option<i32>) -> (c: i32)
    ensures
        c == code_of(code),
{
    match code {
        Some(c) => c,
        None => -1,
    }
}

/// A random identifier: version four of the standard layout.
pub open spec fn is_random_id(id: u128) -> bool {
    (id / 0x1000_0000_0000_0000_0000) % 16 == 4 && (id / 0x4000_0000_0000_0000) % 4 == 2
}

/// Calls `uuid::Uuid::new_v4`. All bits are random but for those of the version,
/// which is four, and of the variant.
#[verifier::external_body]
fn random_id() -> (id: u128)
    ensures
        is_random_id(id),
{
    uuid::Uuid::new_v4().as_u128()
}

/// A token by which a recorded command and all that it starts are known: a fresh
/// random identifier.
pub fn scope_token() -> (s: String)
    ensures
        exists|id: u128| is_random_id(id) && s@ == hyphenated(Uuid(id)),
{
    let id: u128 = random_id();
    let s = hyphenated_text(Uuid(id));
    assert(is_random_id(id) && s@ == hyphenated(Uuid(id)));
    s
}

/// The path of the daemon's socket: the one that is set, else one in the
/// directory for such files.
pub fn socket_path(over: Option<&str>, runtime_dir: Option<&str>, tmp_dir: Option<&str>) -> (p:
    String)
    ensures
        p@ == match over {
            Some(p) => p@,
            None => joined_path(
                match runtime_dir {
                    Some(d) => d@,
                    None => match tmp_dir {
                        Some(d) => d@,
                        None => "/tmp"@,
                    },
                },
                "smeltr.sock"@,
            ),
        },
{
    match over {
        Some(p) => p.to_owned(),
        None => match runtime_dir {
            Some(d) => join_path(d, "smeltr.sock"),
            None => match tmp_dir {
                Some(d) => join_path(d, "smeltr.sock"),
                None => join_path("/tmp", "smeltr.sock"),
            },
        },
    }
}

/// How far a recording has come.
#[derive(Debug, Clone, Copy, PartialEq, Eq, Structural)]
pub enum Stage {
    /// The command runs; the daemon was asked to watch it.
    Attaching,
    /// The daemon watches it and was asked to read the hook.
    Hooking,
    /// The command runs to its end.
    Running,
}

/// What was waited for.
#[derive(Debug, Clone, Copy, PartialEq, Eq, Structural)]
pub enum Outcome {
    /// The daemon agreed.
    Acked,
    /// The daemon gave any other answer.
    Refused,
    /// The command ended, with a code where no signal ended it.
    Exited(Option<i32>),
}

/// One thing that is done next.
#[derive(Debug, Clone, Copy, PartialEq, Eq, Structural)]
pub enum Step {
    /// Asks the daemon to read the hook, and waits for its answer.
    AttachHook,
    /// Waits for the command to end.
    Wait,
    /// Ends the command.
    Kill,
    /// Leaves the daemon time to read what is left.
    Drain,
    DetachHook,
    /// Tells the daemon the code that the command ended with.
    DetachScoped(i32),
    /// Removes the file of the hook.
    RemoveRing,
    /// The recording is over, with this code.
    Return(i32),
    /// The recording failed: the daemon refused to watch the command.
    FailScoped,
    /// The recording failed: the daemon refused to read the hook.
    FailHook,
}

/// The milliseconds that the daemon has to read what is left.
pub const DRAIN_MS: u64 = 200;

/// The code that is reported for an end.
pub open spec fn code_of(code: Option<i32>) -> i32 {
    match code {
        Some(c) => c,
        None => -1i32,
    }
}

/// `step`, only where there is a hook.
pub open spec fn hooked(hook: bool, step: Step) -> Seq<Step> {
    if hook {
        seq![step]
    } else {
        seq![]
    }
}

/// What is done after an outcome. Nothing where it cannot be one of the stage.
pub open spec fn steps_after(stage: Stage, outcome: Outcome, hook: bool) -> Seq<Step> {
    match (stage, outcome) {
        (Stage::Attaching, Outcome::Acked) => seq![
            if hook {
                Step::AttachHook
            } else {
                Step::Wait
            },
        ],
        (Stage::Attaching, Outcome::Refused) => seq![Step::Kill] + hooked(hook, Step::RemoveRing)
            + seq![Step::FailScoped],
        (Stage::Hooking, Outcome::Acked) => seq![Step::Wait],
        (Stage::Hooking, Outcome::Refused) => seq![
            Step::Kill,
            Step::DetachScoped(-1i32),
            Step::RemoveRing,
            Step::FailHook,
        ],
        (Stage::Running, Outcome::Exited(code)) => seq![Step::Drain] + hooked(hook, Step::DetachHook)
            + seq![Step::DetachScoped(code_of(code))] + hooked(hook, Step::RemoveRing) + seq![
            Step::Return(code_of(code)),
        ],
        _ => seq![],
    }
}

/// What is done after an outcome, in order.
pub fn next_steps(stage: Stage, outcome: Outcome, hook: bool) -> (r: Vec<Step>)
    ensures
        r@ == steps_after(stage, outcome, hook),
{
    let mut r: Vec<Step> = Vec::new();
    match stage {
        Stage::Attaching => match outcome {
            Outcome::Acked => {
                if hook {
                    r.push(Step::AttachHook);
                } else {
                    r.push(Step::Wait);
                }
            },
            Outcome::Refused => {
                r.push(Step::Kill);
                if hook {
                    r.push(Step::RemoveRing);
                }
                r.push(Step::FailScoped);
            },
            Outcome::Exited(_) => {},
        },
        Stage::Hooking => match outcome {
            Outcome::Acked => {
                r.push(Step::Wait);
            },
            Outcome::Refused => {
                r.push(Step::Kill);
                r.push(Step::DetachScoped(-1));
                r.push(Step::RemoveRing);
                r.push(Step::FailHook);
            },
            Outcome::Exited(_) => {},
        },
        Stage::Running => match outcome {
            Outcome::Exited(code) => {
                let c: i32 = reported_exit_code(code);
                r.push(Step::Drain);
                if hook {
                    r.push(Step::DetachHook);
                }
                r.push(Step::DetachScoped(c));
                if hook {
                    r.push(Step::RemoveRing);
                }
                r.push(Step::Return(c));
            },
            _ => {},
        },
    }
    assert(r@ =~= steps_after(stage, outcome, hook));
    r
}

/// The stage that a step leads to.
pub fn stage_after(step: Step) -> (r: Option<Stage>)
    ensures
        r == match step {
            Step::AttachHook => Some(Stage::Hooking),
            Step::Wait => Some(Stage::Running),
            _ => None,
        },
{
    match step {
        Step::AttachHook => Some(Stage::Hooking),
        Step::Wait => Some(Stage::Running),
        _ => None,
    }
}

/// A recording ends with this step.
pub open spec fn is_end(step: Step) -> bool {
    step is Return || step is FailScoped || step is FailHook
}

/// Nothing is left behind: where a recording ends, the file of the hook is
/// removed, the daemon that watched the command is told, and a command that still
/// runs is ended first.
pub proof fn recordings_leave_nothing_behind(stage: Stage, outcome: Outcome, hook: bool)
    requires
        stage is Hooking ==> hook,
    ensures
        ({
            let steps = steps_after(stage, outcome, hook);
            steps.len() > 0 && is_end(steps.last()) ==> {
                &&& hook ==> steps.contains(Step::RemoveRing)
                &&& !(stage is Attaching) ==> exists|c: i32|
                    #[trigger] steps.contains(Step::DetachScoped(c))
                &&& !(stage is Running) ==> steps[0] == Step::Kill
            }
        }),
{
    let steps = steps_after(stage, outcome, hook);
    match (stage, outcome) {
        (Stage::Attaching, Outcome::Refused) => {
            if hook {
                assert(steps[1] == Step::RemoveRing);
            }
        },
        (Stage::Hooking, Outcome::Refused) => {
            assert(steps[1] == Step::DetachScoped(-1i32));
            assert(steps.contains(Step::DetachScoped(-1i32)));
            assert(steps[2] == Step::RemoveRing);
        },
        (Stage::Running, Outcome::Exited(code)) => {
            if hook {
                assert(steps[2] == Step::DetachScoped(code_of(code)));
                assert(steps[3] == Step::RemoveRing);
            } else {
                assert(steps[1] == Step::DetachScoped(code_of(code)));
            }
            assert(steps.contains(Step::DetachScoped(code_of(code))));
        },
        _ => {},
    }
}

/// A recording returns the code of its command, and tells the daemon the same.
pub proof fn recordings_report_the_command(code: Option<i32>, hook: bool)
    ensures
        ({
            let steps = steps_after(Stage::Running, Outcome::Exited(code), hook);
            steps.last() == Step::Return(code_of(code)) && forall|c: i32|
                #[trigger] steps.contains(Step::DetachScoped(c)) <==> c == code_of(code)
        }),
{
    let steps = steps_after(Stage::Running, Outcome::Exited(code), hook);
    let at: int = if hook {
        2
    } else {
        1
    };
    assert(steps[at] == Step::DetachScoped(code_of(code)));
}

/// The name of the file of a hook.
pub open spec fn ring_name(id: u128) -> Seq<char> {
    simple(Uuid(id)) + ".ring"@
}

/// A new path for the file of a hook.
pub fn ring_path(smeltr_home: &str) -> (p: String)
    ensures
        exists|id: u128|
            is_random_id(id) && p@ == joined_path(
                joined_path(smeltr_home@, "rings"@),
                ring_name(id),
            ),
{
    let id: u128 = random_id();
    let mut name = simple_text(Uuid(id));
    name.append(".ring");
    let p = join_path(join_path(smeltr_home, "rings").as_str(), name.as_str());
    assert(is_random_id(id) && p@ == joined_path(
        joined_path(smeltr_home@, "rings"@),
        ring_name(id),
    ));
    p
}

/// The bytes that the file of a hook holds.
pub const RING_BYTES: u64 = 16_777_216;

/// The command as it was written: the program, then its arguments.
pub fn whole_command(cmd: &str, args: &[String]) -> (r: Vec<String>)
    ensures
        views(r@) == seq![cmd@] + views(args@),
{
    let mut r: Vec<String> = Vec::new();
    r.push(cmd.to_owned());
    let ghost want = seq![cmd@] + views(args@);
    let mut i: usize = 0;
    assert(views(r@) =~= want.take(1));
    while i < args.len()
        invariant
            i <= args@.len(),
            want == seq![cmd@] + views(args@),
            views(r@) == want.take(i + 1),
        decreases args@.len() - i,
    {
        let ghost before = r@;
        let a = args[i].clone();
        r.push(a);
        assert(views(r@) =~= views(before).push(a@));
        assert(want[i + 1] == views(args@)[i as int]);
        assert(want.take(i + 2) =~= want.take(i + 1).push(a@));
        i = i + 1;
    }
    assert(want.take(want.len() as int) =~= want);
    r
}

/// Tells that the daemon refused, in the words of its answer.
pub fn refusal_error(hook: bool, answer: &str) -> (s: String)
    ensures
        s@ == (if hook {
            "daemon refused AttachMetalHook: "@
        } else {
            "daemon refused AttachScopedProbes: "@
        }) + answer@,
{
    let mut s = if hook {
        "daemon refused AttachMetalHook: ".to_owned()
    } else {
        "daemon refused AttachScopedProbes: ".to_owned()
    };
    s.append(answer);
    s
}

} // verus!
