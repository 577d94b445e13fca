use elm_assist::view_helpers::scroll_offset;

#[test]
fn scroll_offset_zero_when_selected_fits() {
    assert_eq!(scroll_offset(0, 20), 0);
    assert_eq!(scroll_offset(19, 20), 0);
}

#[test]
fn scroll_offset_advances_when_selected_exceeds_height() {
    assert_eq!(scroll_offset(20, 20), 1);
    assert_eq!(scroll_offset(25, 20), 6);
}

#[test]
fn scroll_offset_handles_zero_height() {
    // visible_height=0 means selected >= 0 is always true
    assert_eq!(scroll_offset(0, 0), 1);
    assert_eq!(scroll_offset(5, 0), 6);
}
