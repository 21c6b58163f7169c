//! The state of the game window, and what the reading loop does about it.

use vstd::prelude::*;

verus! {

/// The state of the captured window.
#[derive(Clone, Copy, Debug, PartialEq, Eq, Structural)]
pub enum WindowStatus {
    /// The window exists, is visible and is not minimized.
    Visible,
    /// The window no longer exists.
    Destroyed,
    /// The window exists but is hidden or minimized.
    Minimized,
}

/// Classifies a window from whether it exists, is visible and is minimized;
/// visibility and minimization only matter for a window that exists.
pub fn window_status(exists: bool, visible: bool, minimized: bool) -> (s: WindowStatus)
    ensures
        !exists ==> s == WindowStatus::Destroyed,
        exists && (!visible || minimized) ==> s == WindowStatus::Minimized,
        exists && visible && !minimized ==> s == WindowStatus::Visible,
{
    if !exists {
        return WindowStatus::Destroyed;
    }
    if !visible || minimized {
        return WindowStatus::Minimized;
    }
    WindowStatus::Visible
}

/// What the reading loop does next.
#[derive(Clone, Copy, Debug, PartialEq, Eq, Structural)]
pub enum ReadAction {
    /// Leave the loop.
    Stop,
    /// Sleep this many milliseconds, then look at the window again.
    Wait { millis: u64 },
    /// Capture the window and decode the capture.
    Capture,
}

/// The reading loop stops once the window is gone, waits a millisecond
/// while it is minimized, and captures it otherwise.
pub fn next_action(status: WindowStatus) -> (a: ReadAction)
    ensures
        status == WindowStatus::Destroyed ==> a == ReadAction::Stop,
        status == WindowStatus::Minimized ==> a == (ReadAction::Wait { millis: 1 }),
        status == WindowStatus::Visible ==> a == ReadAction::Capture,
{
    match status {
        WindowStatus::Destroyed => ReadAction::Stop,
        WindowStatus::Minimized => ReadAction::Wait { millis: 1 },
        WindowStatus::Visible => ReadAction::Capture,
    }
}

} // verus!
