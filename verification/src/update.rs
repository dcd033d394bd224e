//! What to tell the user at each step of checking for a new release.
//!
//! Every outcome is a notice rather than a dialog: a modal that interrupts a
//! summon to talk about itself is exactly the friction the launcher exists to
//! avoid. Talking to the release server is left to the caller, which reports
//! each outcome here and delivers what comes back.

use vstd::prelude::*;

verus! {

/// One outcome of the update check.
#[derive(Debug, Clone)]
pub enum UpdateEvent {
    /// No updater could be made; the detail says why.
    Unavailable(String),
    /// A newer release exists and is downloading.
    Found(String),
    /// This is the newest release.
    Current,
    /// The check itself failed, most often for being offline.
    CheckFailed(String),
    /// The release was downloaded and installed.
    Installed(String),
    /// The release could not be installed: its version and why.
    InstallFailed(String, String),
}

/// What to say about an outcome.
#[derive(Debug, Clone)]
pub enum Say {
    /// A notice the user sees.
    Notice(String),
    /// A line on the developer's console only.
    Log(String),
    Nothing,
}

pub enum SayView {
    Notice(Seq<char>),
    Log(Seq<char>),
    Nothing,
}

impl View for Say {
    type V = SayView;

    open spec fn view(&self) -> SayView {
        match self {
            Say::Notice(s) => SayView::Notice(s@),
            Say::Log(s) => SayView::Log(s@),
            Say::Nothing => SayView::Nothing,
        }
    }
}

/// What to say about `event`. `announce_when_current` separates the two
/// callers: the tray item is a question the user asked and deserves an
/// answer either way, while the check at launch stays silent unless there is
/// something to say.
pub open spec fn says_spec(event: UpdateEvent, announce_when_current: bool) -> SayView {
    match event {
        UpdateEvent::Unavailable(e) => SayView::Notice("Could not check for updates: "@ + e@),
        UpdateEvent::Found(v) => SayView::Notice("Baton "@ + v@ + " is downloading."@),
        UpdateEvent::Current => if announce_when_current {
            SayView::Notice("Baton is up to date."@)
        } else {
            SayView::Nothing
        },
        UpdateEvent::CheckFailed(e) => if announce_when_current {
            SayView::Notice("Could not check for updates: "@ + e@)
        } else {
            SayView::Log("[baton] update check failed: "@ + e@)
        },
        UpdateEvent::Installed(v) => SayView::Notice(
            "Baton "@ + v@ + " is ready. Quit and reopen to use it."@,
        ),
        UpdateEvent::InstallFailed(v, e) => SayView::Notice("Could not install "@ + v@ + ": "@ + e@),
    }
}

pub fn says(event: &UpdateEvent, announce_when_current: bool) -> (r: Say)
    ensures
        r@ == says_spec(*event, announce_when_current),
{
    match event {
        UpdateEvent::Unavailable(e) => {
            let mut s = String::from_str("Could not check for updates: ");
            s.append(e.as_str());
            Say::Notice(s)
        },
        UpdateEvent::Found(v) => {
            let mut s = String::from_str("Baton ");
            s.append(v.as_str());
            s.append(" is downloading.");
            Say::Notice(s)
        },
        UpdateEvent::Current => {
            if announce_when_current {
                Say::Notice(String::from_str("Baton is up to date."))
            } else {
                Say::Nothing
            }
        },
        UpdateEvent::CheckFailed(e) => {
            if announce_when_current {
                let mut s = String::from_str("Could not check for updates: ");
                s.append(e.as_str());
                Say::Notice(s)
            } else {
                let mut s = String::from_str("[baton] update check failed: ");
                s.append(e.as_str());
                Say::Log(s)
            }
        },
        UpdateEvent::Installed(v) => {
            let mut s = String::from_str("Baton ");
            s.append(v.as_str());
            s.append(" is ready. Quit and reopen to use it.");
            Say::Notice(s)
        },
        UpdateEvent::InstallFailed(v, e) => {
            let mut s = String::from_str("Could not install ");
            s.append(v.as_str());
            s.append(": ");
            s.append(e.as_str());
            Say::Notice(s)
        },
    }
}

} // verus!
