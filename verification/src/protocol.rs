//! What the daemon answers, as far as a command reads it.

use crate::quoted::{debug_text, quoted};
use crate::text::{opt_view, views};
use vstd::prelude::*;

verus! {

broadcast use vstd::string::group_string_axioms;

/// An answer of the daemon. Where an answer may be unexpected, it comes with the
/// text that shows it.
#[derive(Debug, Clone, PartialEq, Eq)]
pub enum Reply {
    /// The answer to a greeting.
    Welcome(String),
    /// The request was carried out.
    Ack,
    /// The request was not carried out, and why.
    Refusal(String),
    /// The directories of all sessions.
    Sessions(Vec<String>, String),
    /// Any other answer.
    Other(String),
}

/// The text that shows an answer, given the reason of a refusal in quotation
/// marks.
pub open spec fn shown_with(r: Reply, quoted_reason: Seq<char>) -> Seq<char> {
    match r {
        Reply::Welcome(s) => s@,
        Reply::Ack => "Ack"@,
        Reply::Refusal(_) => "Error { message: "@ + quoted_reason + " }"@,
        Reply::Sessions(_, s) => s@,
        Reply::Other(s) => s@,
    }
}

/// Why a request was not carried out.
pub open spec fn reason_of(r: Reply) -> Seq<char> {
    match r {
        Reply::Refusal(m) => m@,
        _ => seq![],
    }
}

/// The text that shows an answer.
pub open spec fn shown(r: Reply) -> Seq<char> {
    shown_with(r, debug_text(reason_of(r)))
}

/// The text that shows an answer, given the reason of a refusal in quotation
/// marks.
pub fn show_with(r: &Reply, quoted_reason: &str) -> (s: String)
    ensures
        s@ == shown_with(*r, quoted_reason@),
{
    match r {
        Reply::Welcome(s) => s.clone(),
        Reply::Ack => "Ack".to_owned(),
        Reply::Refusal(_) => {
            let mut s = "Error { message: ".to_owned();
            s.append(quoted_reason);
            s.append(" }");
            s
        },
        Reply::Sessions(_, s) => s.clone(),
        Reply::Other(s) => s.clone(),
    }
}

/// The text that shows an answer.
pub fn show(r: &Reply) -> (s: String)
    ensures
        s@ == shown(*r),
{
    match r {
        Reply::Refusal(m) => show_with(r, quoted(m.as_str()).as_str()),
        _ => show_with(r, ""),
    }
}

/// What is wrong with the answer to a greeting, if anything.
pub fn greeting_error(r: &Reply) -> (e: Option<String>)
    ensures
        opt_view(e) == match r {
            Reply::Welcome(_) => None,
            _ => Some("unexpected handshake: "@ + shown(*r)),
        },
{
    match r {
        Reply::Welcome(_) => None,
        _ => {
            let mut s = "unexpected handshake: ".to_owned();
            s.append(show(r).as_str());
            Some(s)
        },
    }
}

/// Did the daemon carry the request out?
pub fn is_ack(r: &Reply) -> (b: bool)
    ensures
        b == (r is Ack),
{
    match r {
        Reply::Ack => true,
        _ => false,
    }
}

/// The view of an optional list of texts.
pub open spec fn opt_views(o: Option<Vec<String>>) -> Option<Seq<Seq<char>>> {
    match o {
        Some(v) => Some(views(v@)),
        None => None,
    }
}

/// The sessions that the daemon lists, where it does.
pub fn listed(r: Reply) -> (o: Option<Vec<String>>)
    ensures
        opt_views(o) == match r {
            Reply::Sessions(dirs, _) => Some(views(dirs@)),
            _ => None,
        },
{
    match r {
        Reply::Sessions(dirs, _) => Some(dirs),
        _ => None,
    }
}

/// Tells that the daemon cannot be reached.
pub fn connection_error(cause: &str) -> (s: String)
    ensures
        s@ == "could not connect to smeltrd: "@ + cause@
            + ". Is the daemon running? Try `smeltr daemon start`."@,
{
    let mut s = "could not connect to smeltrd: ".to_owned();
    s.append(cause);
    s.append(". Is the daemon running? Try `smeltr daemon start`.");
    s
}

} // verus!
