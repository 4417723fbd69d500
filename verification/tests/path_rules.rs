use hypr_flight::camera::toggle_camera_debug;
use hypr_flight::path::{path_commands, PathCommand, SegmentKind};

use PathCommand as C;
use SegmentKind as K;

#[test]
fn closed_subpath_ends_once() {
    let kinds = [K::MoveTo, K::LineTo, K::LineTo, K::Close];
    assert_eq!(
        path_commands(&kinds),
        vec![(C::Begin, 0), (C::LineTo, 1), (C::LineTo, 2), (C::End(true), 3)]
    );
}

#[test]
fn open_subpath_is_ended_by_next_move_and_at_the_end() {
    let kinds = [K::MoveTo, K::QuadTo, K::MoveTo, K::CubicTo];
    assert_eq!(
        path_commands(&kinds),
        vec![
            (C::Begin, 0),
            (C::QuadTo, 1),
            (C::End(false), 2),
            (C::Begin, 2),
            (C::CubicTo, 3),
            (C::End(false), 4),
        ]
    );
}

#[test]
fn empty_path_makes_no_calls() {
    assert!(path_commands(&[]).is_empty());
}

#[test]
fn move_after_close_does_not_end_again() {
    let kinds = [K::MoveTo, K::Close, K::MoveTo, K::LineTo, K::Close];
    assert_eq!(
        path_commands(&kinds),
        vec![
            (C::Begin, 0),
            (C::End(true), 1),
            (C::Begin, 2),
            (C::LineTo, 3),
            (C::End(true), 4),
        ]
    );
}

#[test]
fn debug_keys_flip_their_own_switch() {
    assert_eq!(toggle_camera_debug(true, true, false, false), (true, true));
    assert_eq!(toggle_camera_debug(true, true, true, false), (false, true));
    assert_eq!(toggle_camera_debug(true, false, false, true), (true, true));
    assert_eq!(toggle_camera_debug(false, true, true, true), (true, false));
}
