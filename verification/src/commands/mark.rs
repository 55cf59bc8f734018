//! Appending a marker to a session.

use crate::event::SessionMetadata;
use crate::protocol::{show, shown, Reply};
use crate::quoted::{debug_text, quoted};
use crate::text::opt_view;
use vstd::prelude::*;

verus! {

broadcast use vstd::string::group_string_axioms;

/// Tells that a session, named in quotation marks, has no scope token.
pub open spec fn tokenless(quoted_session: Seq<char>) -> Seq<char> {
    "session "@ + quoted_session + " has no scope token (not an active recording?)"@
}

/// The views of a token or an error.
pub open spec fn token_view(r: Result<String, String>) -> Result<Seq<char>, Seq<char>> {
    match r {
        Ok(t) => Ok(t@),
        Err(e) => Err(e@),
    }
}

/// The token that leads a marker to a session, given the name of the session in
/// quotation marks.
pub open spec fn token_for(meta: SessionMetadata, quoted_session: Seq<char>) -> Result<
    Seq<char>,
    Seq<char>,
> {
    match meta.scope_token {
        Some(t) => Ok(t@),
        None => Err(tokenless(quoted_session)),
    }
}

/// The token that leads a marker to a session, given the name of the session in
/// quotation marks.
pub fn scope_token_with(meta: &SessionMetadata, quoted_session: &str) -> (r: Result<String, String>)
    ensures
        token_view(r) == token_for(*meta, quoted_session@),
{
    match &meta.scope_token {
        Some(t) => Ok(t.clone()),
        None => {
            let mut s = "session ".to_owned();
            s.append(quoted_session);
            s.append(" has no scope token (not an active recording?)");
            Err(s)
        },
    }
}

/// The token that leads a marker to the session that the user named.
pub fn scope_token_of(meta: &SessionMetadata, session: &str) -> (r: Result<String, String>)
    ensures
        token_view(r) == token_for(*meta, debug_text(session@)),
{
    scope_token_with(meta, quoted(session).as_str())
}

/// What a marker came to, by the daemon's answer: nothing to tell where it was
/// taken, else an error.
pub open spec fn marking(reply: Reply) -> Option<Seq<char>> {
    match reply {
        Reply::Ack => None,
        Reply::Refusal(message) => Some(message@),
        _ => Some("unexpected response: "@ + shown(reply)),
    }
}

/// What a marker came to, by the daemon's answer: nothing to tell where it was
/// taken, else an error.
pub fn mark_error(reply: &Reply) -> (r: Option<String>)
    ensures
        opt_view(r) == marking(*reply),
{
    match reply {
        Reply::Ack => None,
        Reply::Refusal(message) => Some(message.clone()),
        _ => {
            let mut s = "unexpected response: ".to_owned();
            s.append(show(reply).as_str());
            Some(s)
        },
    }
}

} // verus!
