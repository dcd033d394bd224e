//! User settings, and the summon shortcut in particular.
//!
//! Reading and writing `settings.json` is left to the caller: a missing or
//! corrupt file reads as the defaults.

use vstd::prelude::*;

verus! {

/// Cmd+Shift+Space on macOS, Ctrl+Shift+Space elsewhere.
pub const DEFAULT_SHORTCUT: &'static str = "CmdOrCtrl+Shift+Space";

#[derive(Debug, Clone)]
pub struct Settings {
    pub shortcut: String,
}

impl Default for Settings {
    fn default() -> (r: Settings)
        ensures
            r.shortcut@ == DEFAULT_SHORTCUT@,
    {
        Settings { shortcut: String::from_str(DEFAULT_SHORTCUT) }
    }
}

} // verus!
