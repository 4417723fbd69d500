use hypr_flight::ship::move_axes;

#[test]
fn single_keys_give_unit_axes() {
    assert_eq!(move_axes(true, false, false, false), (0, 1));
    assert_eq!(move_axes(false, true, false, false), (0, -1));
    assert_eq!(move_axes(false, false, true, false), (-1, 0));
    assert_eq!(move_axes(false, false, false, true), (1, 0));
}

#[test]
fn opposite_keys_cancel() {
    assert_eq!(move_axes(true, true, true, true), (0, 0));
    assert_eq!(move_axes(false, false, false, false), (0, 0));
    assert_eq!(move_axes(true, false, true, true), (0, 1));
}
