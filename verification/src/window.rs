use vstd::prelude::*;
use crate::geometry::Rect;

verus! {

/// A window the manager tracks.
#[derive(Debug, Clone)]
pub struct Window {
    pub id: u32,
    pub app: String,
    pub title: String,
    pub frame: Rect,
    pub is_floating: bool,
    pub is_fullscreen: bool,
}

/// A failure of the windowing system.
#[derive(Debug, Clone, Copy, PartialEq, Eq, Structural)]
pub enum WindowError {
    /// The windowing system refused the request.
    Refused,
}

/// The manageable windows the platform reports. This platform layer reports none;
/// the Accessibility API is not wired in.
pub fn list_windows() -> (r: Result<Vec<Window>, WindowError>)
    ensures
        r matches Ok(v) && v@.len() == 0,
{
    Ok(Vec::new())
}

/// Move and resize a window through the platform; this platform layer accepts
/// every request.
pub fn set_window_frame(window_id: u32, rect: Rect) -> (r: Result<(), WindowError>)
    ensures
        r is Ok,
{
    Ok(())
}

/// Raise and focus a window through the platform; this platform layer accepts
/// every request.
pub fn focus_window(window_id: u32) -> (r: Result<(), WindowError>)
    ensures
        r is Ok,
{
    Ok(())
}

/// Ask a window to close itself through the platform; this platform layer accepts
/// every request.
pub fn close_window(window_id: u32) -> (r: Result<(), WindowError>)
    ensures
        r is Ok,
{
    Ok(())
}

impl Window {
    /// List all manageable windows.
    pub fn list_all() -> (r: Result<Vec<Window>, WindowError>)
        ensures
            r matches Ok(v) && v@.len() == 0,
    {
        list_windows()
    }

    /// Move and resize a window.
    pub fn set_frame(window_id: u32, rect: Rect) -> (r: Result<(), WindowError>)
        ensures
            r is Ok,
    {
        set_window_frame(window_id, rect)
    }

    /// Raise and focus a window.
    pub fn focus(window_id: u32) -> (r: Result<(), WindowError>)
        ensures
            r is Ok,
    {
        focus_window(window_id)
    }

    /// Ask a window to close itself.
    pub fn close(window_id: u32) -> (r: Result<(), WindowError>)
        ensures
            r is Ok,
    {
        close_window(window_id)
    }
}

/// A display attached to the machine.
#[derive(Debug, Clone, Copy, PartialEq, Eq, Structural)]
pub struct Display {
    pub id: u32,
    pub frame: Rect,
    pub is_main: bool,
}

/// The display assumed where the platform reports none: 1920×1080 at the origin.
pub open spec fn fallback_display() -> Display {
    Display { id: 1, frame: Rect { x: 0, y: 0, width: 1920, height: 1080 }, is_main: true }
}

impl Display {
    /// The attached displays: one 1920×1080 main display, where the platform's
    /// display list is not queried.
    pub fn list() -> (r: Result<Vec<Display>, WindowError>)
        ensures
            r matches Ok(v) && v@ == seq![fallback_display()],
    {
        Ok(vec![Display { id: 1, frame: Rect { x: 0, y: 0, width: 1920, height: 1080 }, is_main: true }])
    }
}

} // verus!
