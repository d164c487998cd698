//! Whether the program has the interactive terminal a full-screen interface
//! needs, and the hint printed when it does not.

use vstd::prelude::*;
use crate::text::to_string;

verus! {

pub open spec fn terminal_hint() -> Seq<char> {
    "bract needs an interactive terminal.\nIf you're running it as a mise task, mark the task `raw = true` (mise captures task output otherwise)."@
}

/// The hint to print (and exit on) unless both stdout and stdin are
/// terminals. The usual cause is a mise task that captures output, which must
/// be marked `raw = true`.
pub fn terminal_unavailable(stdout_tty: bool, stdin_tty: bool) -> (r: Option<String>)
    ensures
        (stdout_tty && stdin_tty) ==> r is None,
        !(stdout_tty && stdin_tty) ==> (r matches Some(s) && s@ == terminal_hint()),
{
    if stdout_tty && stdin_tty {
        return None;
    }
    let hint = "bract needs an interactive terminal.\nIf you're running it as a mise task, mark the task `raw = true` (mise captures task output otherwise).";
    Some(hint.to_string())
}

} // verus!
