use vstd::prelude::*;

verus! {

/// The camera's two debug switches after a frame's key presses: the first
/// key flips lookahead, the second flips zoom, each independently.
pub fn toggle_camera_debug(
    lookahead_enabled: bool,
    zoom_enabled: bool,
    lookahead_key: bool,
    zoom_key: bool,
) -> (r: (bool, bool))
    ensures
        r.0 == (lookahead_enabled != lookahead_key),
        r.1 == (zoom_enabled != zoom_key),
{
    let lookahead = if lookahead_key {
        !lookahead_enabled
    } else {
        lookahead_enabled
    };
    let zoom = if zoom_key {
        !zoom_enabled
    } else {
        zoom_enabled
    };
    (lookahead, zoom)
}

} // verus!
