//! Which camera controls a frame's pointer input drives.
use vstd::prelude::*;

verus! {

/// What the pointer does to the camera in one frame.
#[derive(Clone, Copy, Debug, PartialEq, Eq, Structural)]
pub struct PointerActions {
    /// Dragging orbits the camera (yaw and pitch follow the mouse).
    pub orbit: bool,
    /// The scroll wheel zooms (the camera distance follows the wheel).
    pub zoom: bool,
}

/// Decides the camera controls for a frame: the panel takes the pointer whenever it asked
/// for it in the previous frame; otherwise a held left button orbits and the wheel zooms.
pub fn pointer_actions(left_button_down: bool, captured_by_panel: bool) -> (a: PointerActions)
    ensures
        a.orbit == (left_button_down && !captured_by_panel),
        a.zoom == !captured_by_panel,
{
    PointerActions { orbit: left_button_down && !captured_by_panel, zoom: !captured_by_panel }
}

} // verus!
