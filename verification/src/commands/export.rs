//! Where a session is exported to, and in which form.

use crate::event::Uuid;
use crate::ids::{short, trailing};
use crate::quoted::{debug_text, quoted};
use crate::text::{opt_view, same};
use vstd::prelude::*;

verus! {

broadcast use vstd::string::group_string_axioms;

/// The form of an export.
#[derive(Debug, Clone, Copy, PartialEq, Eq, Structural)]
pub enum Format {
    ChromeTrace,
    Json,
}

/// The form that a name means.
pub open spec fn format_of(name: Seq<char>) -> Option<Format> {
    if name == "chrome-trace"@ {
        Some(Format::ChromeTrace)
    } else if name == "json"@ {
        Some(Format::Json)
    } else {
        None
    }
}

/// The form that a name means.
pub fn parse_format(name: &str) -> (r: Option<Format>)
    ensures
        r == format_of(name@),
{
    if same(name, "chrome-trace") {
        Some(Format::ChromeTrace)
    } else if same(name, "json") {
        Some(Format::Json)
    } else {
        None
    }
}

/// What to say of a name that means no form, given in quotation marks.
pub fn format_error_with(quoted_name: &str) -> (s: String)
    ensures
        s@ == "unknown --format "@ + quoted_name@ + "; supported: chrome-trace, json"@,
{
    let mut s = "unknown --format ".to_owned();
    s.append(quoted_name);
    s.append("; supported: chrome-trace, json");
    s
}

/// What to say of a name that means no form.
pub fn format_error(name: &str) -> (s: String)
    ensures
        s@ == "unknown --format "@ + debug_text(name@) + "; supported: chrome-trace, json"@,
{
    format_error_with(quoted(name).as_str())
}

/// The file that is written: the one that is named, none for `-`, and else one
/// named after the session.
pub open spec fn target_of(output: Option<Seq<char>>, id: Uuid) -> Option<Seq<char>> {
    match output {
        Some(p) => if p == "-"@ {
            None
        } else {
            Some(p)
        },
        None => Some(trailing(id) + ".json"@),
    }
}

/// The file that is written; `None` is the standard output.
pub fn export_target(output: Option<&str>, id: Uuid) -> (r: Option<String>)
    ensures
        opt_view(r) == target_of(
            match output {
                Some(p) => Some(p@),
                None => None,
            },
            id,
        ),
{
    match output {
        Some(p) => if same(p, "-") {
            None
        } else {
            Some(p.to_owned())
        },
        None => {
            let mut s = short(id);
            s.append(".json");
            Some(s)
        },
    }
}

} // verus!
