//! bract's own command line, as plain values.

use vstd::prelude::*;

verus! {

/// The options bract's command line sets.
pub struct Cli {
    /// Don't copy the built command to the system clipboard.
    pub no_clipboard: bool,
    /// Browse just these CLIs (names on `PATH`, or paths) instead of the
    /// tools mise makes active.
    pub tool: Vec<String>,
    /// Print the whole command tree as a usage spec instead of opening the
    /// interface.
    pub spec: bool,
}

/// What bract does on a run.
pub enum Mode {
    /// Browse interactively.
    Browse,
    /// Print every tool's tree as a usage spec.
    PrintSpecs,
}

/// Copying is on unless the `--no-clipboard` flag is given or the
/// `BRACT_NO_CLIPBOARD` variable is present with any value, empty included.
pub fn clipboard_enabled(no_clipboard_flag: bool, env_present: bool) -> (r: bool)
    ensures
        r == (!no_clipboard_flag && !env_present),
{
    !no_clipboard_flag && !env_present
}

impl Cli {
    /// Whether copying is on, given whether `BRACT_NO_CLIPBOARD` is set.
    pub fn clipboard_enabled(&self, env_present: bool) -> (r: bool)
        ensures
            r == (!self.no_clipboard && !env_present),
    {
        clipboard_enabled(self.no_clipboard, env_present)
    }

    /// `--spec` prints the trees; otherwise the interface opens.
    pub fn mode(&self) -> (r: Mode)
        ensures
            r is PrintSpecs <==> self.spec,
    {
        if self.spec { Mode::PrintSpecs } else { Mode::Browse }
    }

    /// Whether the tools were named on the command line rather than found
    /// through mise.
    pub fn names_tools(&self) -> (r: bool)
        ensures
            r == (self.tool@.len() > 0),
    {
        self.tool.len() > 0
    }
}

} // verus!
