use vstd::prelude::*;

verus! {

/// `1` for a held key, `0` otherwise.
pub open spec fn key_value(pressed: bool) -> int {
    if pressed {
        1
    } else {
        0
    }
}

/// The movement intent read from the four movement keys: x is right minus
/// left, y is forward minus back, so opposite keys cancel.
pub fn move_axes(forward: bool, back: bool, left: bool, right: bool) -> (r: (i32, i32))
    ensures
        r.0 == key_value(right) - key_value(left),
        r.1 == key_value(forward) - key_value(back),
{
    let x: i32 = (if right { 1i32 } else { 0i32 }) - (if left { 1i32 } else { 0i32 });
    let y: i32 = (if forward { 1i32 } else { 0i32 }) - (if back { 1i32 } else { 0i32 });
    (x, y)
}

} // verus!
