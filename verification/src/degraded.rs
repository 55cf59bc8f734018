//! The warning that numbers per kernel are incomplete.

use crate::text::{dec, opt_view, push_dec};
use vstd::prelude::*;

verus! {

broadcast use vstd::string::group_string_axioms;

/// What to say of a session whose sampling was disabled `episodes` times.
pub open spec fn advice_of(episodes: nat) -> Option<Seq<char>> {
    if episodes == 0 {
        None
    } else {
        Some(
            "GPU op sampling was disabled "@ + dec(episodes as int)
                + " time(s) during this session: op-level numbers are partial."@,
        )
    }
}

/// What to say of a session whose sampling was disabled `episodes` times;
/// nothing where it never was.
pub fn degraded_advice(episodes: usize) -> (r: Option<String>)
    ensures
        opt_view(r) == advice_of(episodes as nat),
{
    if episodes == 0 {
        return None;
    }
    let mut s = "GPU op sampling was disabled ".to_owned();
    push_dec(&mut s, episodes as u64);
    s.append(" time(s) during this session: op-level numbers are partial.");
    Some(s)
}

/// The warning above the numbers of one session.
pub fn single_session_notice(episodes: usize) -> (r: Option<String>)
    ensures
        opt_view(r) == match advice_of(episodes as nat) {
            Some(a) => Some("⚠ "@ + a + "\n\n"@),
            None => None,
        },
{
    match degraded_advice(episodes) {
        Some(advice) => {
            let mut s = "⚠ ".to_owned();
            s.append(advice.as_str());
            s.append("\n\n");
            Some(s)
        },
        None => None,
    }
}

} // verus!
