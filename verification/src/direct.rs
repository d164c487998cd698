//! Tools named on the command line, read by running them directly (without
//! mise). A name that does not resolve, or names a program bract cannot
//! read, is reported rather than skipped: the user asked for it.

use vstd::prelude::*;
use crate::text::push_str;

verus! {

/// Help fetched by running `<tool> <path> --help` directly.
pub struct DirectHelpProvider;

pub open spec fn not_found_text(arg: Seq<char>) -> Seq<char> {
    "no executable named '"@ + arg + "' on PATH"@
}

pub open spec fn unreadable_text(arg: Seq<char>) -> Seq<char> {
    "'"@ + arg + "' is not a CLI bract can introspect — no supported framework detected"@
}

/// What is said of a name found nowhere on `PATH`.
pub fn not_found_message(arg: &str) -> (r: String)
    ensures
        r@ == not_found_text(arg@),
{
    let mut s = String::new();
    push_str(&mut s, "no executable named '");
    push_str(&mut s, arg);
    push_str(&mut s, "' on PATH");
    s
}

/// What is said of a program whose help layout is not recognised.
pub fn unreadable_message(arg: &str) -> (r: String)
    ensures
        r@ == unreadable_text(arg@),
{
    let mut s = String::new();
    push_str(&mut s, "'");
    push_str(&mut s, arg);
    push_str(&mut s, "' is not a CLI bract can introspect — no supported framework detected");
    s
}

} // verus!
