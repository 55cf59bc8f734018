//! Which session the user means.

use crate::event::{SessionKind, SessionMetadata};
use crate::ids::{hyphenated, hyphenated_text, short, trailing};
use crate::quoted::{debug_text, quoted};
use crate::text::{begins, precedes, same, starts_with, text_before};
use vstd::prelude::*;

verus! {

broadcast use vstd::string::group_string_axioms;

/// A session on disk.
#[derive(Debug, Clone, PartialEq)]
pub struct SessionEntry {
    /// The name of its directory.
    pub dir: String,
    /// Its metadata, where they can be read.
    pub meta: Option<SessionMetadata>,
}

/// Why no session was found.
#[derive(Debug, Clone, Copy, PartialEq, Eq, Structural)]
pub enum ResolveError {
    /// There are no sessions.
    NoSessions,
    /// No session goes by that name.
    Unknown,
}

/// The session of a recorded command.
pub open spec fn is_scoped(s: SessionEntry) -> bool {
    s.meta matches Some(m) && m.kind is Scoped
}

/// A session saved after a crash.
pub open spec fn is_post_mortem(s: SessionEntry) -> bool {
    starts_with(s.dir@, "post-mortem-"@)
}

/// The session goes by the name `r`: its directory, its short id, its full id
/// or the name that it was given.
pub open spec fn goes_by(s: SessionEntry, r: Seq<char>) -> bool {
    s.dir@ == r || (s.meta matches Some(m) && (trailing(m.session_id) == r || hyphenated(
        m.session_id,
    ) == r || (m.name matches Some(n) && n@ == r)))
}

/// The last of the first `n` sessions that `fit`.
pub open spec fn newest(
    s: Seq<SessionEntry>,
    n: int,
    fit: spec_fn(SessionEntry) -> bool,
) -> Option<int>
    decreases n,
{
    if n <= 0 || n > s.len() {
        None
    } else if fit(s[n - 1]) {
        Some(n - 1)
    } else {
        newest(s, n - 1, fit)
    }
}

/// What [`newest`] finds fits, and nothing behind it does.
pub proof fn newest_is_last(s: Seq<SessionEntry>, n: int, fit: spec_fn(SessionEntry) -> bool)
    requires
        0 <= n <= s.len(),
    ensures
        match newest(s, n, fit) {
            Some(i) => 0 <= i < n && fit(s[i]) && forall|k: int| i < k < n ==> !fit(#[trigger] s[k]),
            None => forall|k: int| 0 <= k < n ==> !fit(#[trigger] s[k]),
        },
    decreases n,
{
    if n > 0 {
        newest_is_last(s, n - 1, fit);
    }
}

/// A recorded command that was not saved after a crash.
pub open spec fn ordinary() -> spec_fn(SessionEntry) -> bool {
    |s: SessionEntry| !is_post_mortem(s) && is_scoped(s)
}

/// When a session started.
pub open spec fn started(s: SessionEntry) -> Option<Seq<char>> {
    match s.meta {
        Some(m) => Some(m.started_rfc3339@),
        None => None,
    }
}

/// A session saved after a crash is stale where a command was recorded after
/// it. Timestamps order as text.
pub open spec fn is_stale(s: Seq<SessionEntry>, pm: int) -> bool {
    match newest(s, s.len() as int, ordinary()) {
        Some(i) => match (started(s[pm]), started(s[i])) {
            (Some(p), Some(t)) => text_before(p, t),
            _ => false,
        },
        None => false,
    }
}

/// The session that is meant where none is named.
pub open spec fn meant(
    s: Seq<SessionEntry>,
    prefer_post_mortem: bool,
    include_ambient: bool,
) -> Result<int, ResolveError> {
    let n = s.len() as int;
    let pm = newest(s, n, |e: SessionEntry| is_post_mortem(e));
    if n == 0 {
        Err(ResolveError::NoSessions)
    } else if prefer_post_mortem && (pm matches Some(i) && !is_stale(s, i)) {
        Ok(pm->0)
    } else if include_ambient {
        Ok(n - 1)
    } else {
        match newest(s, n, |e: SessionEntry| is_scoped(e)) {
            Some(i) => Ok(i),
            None => Ok(n - 1),
        }
    }
}

/// The session that goes by a name.
pub open spec fn named(s: Seq<SessionEntry>, r: Seq<char>) -> Result<int, ResolveError> {
    match newest(s, s.len() as int, |e: SessionEntry| goes_by(e, r)) {
        Some(i) => Ok(i),
        None => Err(ResolveError::Unknown),
    }
}

/// A place among the sessions.
pub open spec fn place(r: Result<usize, ResolveError>) -> Result<int, ResolveError> {
    match r {
        Ok(i) => Ok(i as int),
        Err(e) => Err(e),
    }
}

fn scoped(s: &SessionEntry) -> (b: bool)
    ensures
        b == is_scoped(*s),
{
    match &s.meta {
        Some(m) => match &m.kind {
            SessionKind::Scoped { .. } => true,
            _ => false,
        },
        None => false,
    }
}

fn post_mortem(s: &SessionEntry) -> (b: bool)
    ensures
        b == is_post_mortem(*s),
{
    begins(s.dir.as_str(), "post-mortem-")
}

fn answers_to(s: &SessionEntry, r: &str) -> (b: bool)
    ensures
        b == goes_by(*s, r@),
{
    if same(s.dir.as_str(), r) {
        return true;
    }
    match &s.meta {
        Some(m) => {
            if same(short(m.session_id).as_str(), r) || same(
                hyphenated_text(m.session_id).as_str(),
                r,
            ) {
                return true;
            }
            match &m.name {
                Some(n) => same(n.as_str(), r),
                None => false,
            }
        },
        None => false,
    }
}

/// What is looked for among the sessions.
enum Wanted<'a> {
    PostMortem,
    Scoped,
    Ordinary,
    Called(&'a str),
}

spec fn wanted(w: Wanted) -> spec_fn(SessionEntry) -> bool {
    match w {
        Wanted::PostMortem => |e: SessionEntry| is_post_mortem(e),
        Wanted::Scoped => |e: SessionEntry| is_scoped(e),
        Wanted::Ordinary => ordinary(),
        Wanted::Called(r) => |e: SessionEntry| goes_by(e, r@),
    }
}

fn find_newest(s: &[SessionEntry], w: &Wanted) -> (r: Option<usize>)
    ensures
        match r {
            Some(i) => i < s@.len() && newest(s@, s@.len() as int, wanted(*w)) == Some(i as int),
            None => newest(s@, s@.len() as int, wanted(*w)) is None,
        },
{
    let mut n: usize = s.len();
    while n > 0
        invariant
            n <= s@.len(),
            newest(s@, s@.len() as int, wanted(*w)) == newest(s@, n as int, wanted(*w)),
        decreases n,
    {
        let e = &s[n - 1];
        let hit: bool = match w {
            Wanted::PostMortem => post_mortem(e),
            Wanted::Scoped => scoped(e),
            Wanted::Ordinary => !post_mortem(e) && scoped(e),
            Wanted::Called(r) => answers_to(e, r),
        };
        assert(hit == wanted(*w)(s@[n - 1]));
        if hit {
            return Some(n - 1);
        }
        n = n - 1;
    }
    None
}

fn stale(s: &[SessionEntry], pm: usize) -> (b: bool)
    requires
        pm < s@.len(),
    ensures
        b == is_stale(s@, pm as int),
{
    match find_newest(s, &Wanted::Ordinary) {
        Some(i) => match (&s[pm].meta, &s[i].meta) {
            (Some(p), Some(t)) => precedes(
                p.started_rfc3339.as_str(),
                t.started_rfc3339.as_str(),
            ),
            _ => false,
        },
        None => false,
    }
}

/// Picks the session that the user most likely means, oldest first in
/// `sessions`:
///
/// 1. the one that goes by `id`, where one is given;
/// 2. else, where asked for, the last one saved after a crash, unless a command
///    was recorded after it;
/// 3. else, where asked for, the last one of any kind;
/// 4. else the last recorded command, or the last one of any kind.
pub fn resolve(
    id: Option<&str>,
    prefer_post_mortem: bool,
    include_ambient: bool,
    sessions: &[SessionEntry],
) -> (r: Result<usize, ResolveError>)
    ensures
        place(r) == match id {
            Some(id) => named(sessions@, id@),
            None => meant(sessions@, prefer_post_mortem, include_ambient),
        },
        r matches Ok(i) ==> i < sessions@.len(),
{
    if let Some(id) = id {
        return match find_newest(sessions, &Wanted::Called(id)) {
            Some(i) => Ok(i),
            None => Err(ResolveError::Unknown),
        };
    }
    let n: usize = sessions.len();
    if n == 0 {
        return Err(ResolveError::NoSessions);
    }
    if prefer_post_mortem {
        if let Some(pm) = find_newest(sessions, &Wanted::PostMortem) {
            if !stale(sessions, pm) {
                return Ok(pm);
            }
        }
    }
    if include_ambient {
        return Ok(n - 1);
    }
    match find_newest(sessions, &Wanted::Scoped) {
        Some(i) => Ok(i),
        None => Ok(n - 1),
    }
}

/// The session of a command that takes either a name or `--last`.
pub fn resolve_arg(session: Option<&str>, last: bool, sessions: &[SessionEntry]) -> (r: Result<
    usize,
    ResolveError,
>)
    ensures
        place(r) == if last {
            meant(sessions@, false, false)
        } else {
            match session {
                Some(s) => named(sessions@, s@),
                None => named(sessions@, ""@),
            }
        },
        r matches Ok(i) ==> i < sessions@.len(),
{
    if last {
        resolve(None, false, false, sessions)
    } else {
        match session {
            Some(s) => resolve(Some(s), false, false, sessions),
            None => resolve(Some(""), false, false, sessions),
        }
    }
}

/// An error in words, given the name that was looked for in quotation marks.
pub open spec fn error_text(e: ResolveError, quoted_ref: Seq<char>) -> Seq<char> {
    match e {
        ResolveError::NoSessions => "no sessions found under SMELTR_HOME"@,
        ResolveError::Unknown => "could not resolve session "@ + quoted_ref
            + ": no such session"@,
    }
}

/// An error in words, given the name that was looked for in quotation marks.
pub fn error_with(e: ResolveError, quoted_ref: &str) -> (s: String)
    ensures
        s@ == error_text(e, quoted_ref@),
{
    match e {
        ResolveError::NoSessions => "no sessions found under SMELTR_HOME".to_owned(),
        ResolveError::Unknown => {
            let mut s = "could not resolve session ".to_owned();
            s.append(quoted_ref);
            s.append(": no such session");
            s
        },
    }
}

/// An error in words, given the name that was looked for.
pub fn error_message(e: ResolveError, id: &str) -> (s: String)
    ensures
        s@ == error_text(e, debug_text(id@)),
{
    error_with(e, quoted(id).as_str())
}

/// Unless the daemon's own sessions are asked for, a recorded command is chosen
/// wherever there is one.
pub proof fn recorded_commands_come_first(s: Seq<SessionEntry>, i: int)
    requires
        0 <= i < s.len(),
        is_scoped(s[i]),
    ensures
        meant(s, false, false) matches Ok(k) && i <= k && is_scoped(s[k]),
{
    newest_is_last(s, s.len() as int, |e: SessionEntry| is_scoped(e));
}

/// A session saved after a crash never hides a command that was recorded after
/// it, when the last session is asked for.
pub proof fn stale_post_mortems_hide_nothing(s: Seq<SessionEntry>, pm: int, i: int)
    requires
        0 <= i < s.len(),
        newest(s, s.len() as int, |e: SessionEntry| is_post_mortem(e)) == Some(pm),
        newest(s, s.len() as int, ordinary()) == Some(i),
        started(s[pm]) matches Some(p) && (started(s[i]) matches Some(t) && text_before(p, t)),
    ensures
        meant(s, true, false) matches Ok(k) && is_scoped(s[k]),
{
    newest_is_last(s, s.len() as int, ordinary());
    newest_is_last(s, s.len() as int, |e: SessionEntry| is_scoped(e));
    assert(is_scoped(s[i]));
}

} // verus!
