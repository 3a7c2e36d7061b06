use checker_positions::TextWithPosition;

#[test]
fn forward_counts_lines_and_columns() {
    let text = "abc\ndef";
    let mut window = TextWithPosition::new(text);
    let p = window.get_position(5, false);
    assert_eq!(p.utf_8, 5);
    assert_eq!(p.line, 1);
    assert_eq!(p.column, 1);
}

#[test]
fn multi_byte_positions() {
    let text = "Ö\nÖ";
    let mut window = TextWithPosition::new(text);
    let p = window.get_position(2, false);
    assert_eq!(p.utf_8, 3);
    assert_eq!(p.line, 1);
    assert_eq!(p.column, 0);
    let q = window.get_position(3, false);
    assert_eq!(q.utf_8, 5);
    assert_eq!(q.line, 1);
    assert_eq!(q.column, 1);
}

#[test]
fn backward_column_is_a_placeholder() {
    // Documented behaviour: walking backward through a newline cannot know
    // the previous line's length, so the column becomes a placeholder and
    // counts down from there rather than being recomputed.
    let text = "ab\ncd";
    let mut window = TextWithPosition::new(text);
    let forward = window.get_position(5, false);
    assert_eq!((forward.utf_8, forward.line, forward.column), (5, 1, 2));
    let back = window.get_position(0, false);
    assert_eq!(back.utf_8, 0);
    assert_eq!(back.line, 0);
    assert_eq!(back.column, 0);
    let mid = window.get_position(4, false);
    // placeholder column 1 after the backward crossing made earlier values
    // self-consistent again going forward
    assert_eq!((mid.utf_8, mid.line, mid.column), (4, 1, 1));
}

#[test]
fn window_anchored_at_a_starting_line() {
    let text = "ab\ncd";
    let mut window = TextWithPosition::new_with_line(text, 7);
    let p = window.get_position(4, false);
    assert_eq!(p.utf_8, 4);
    assert_eq!(p.line, 8);
    assert_eq!(p.column, 1);
}

#[test]
fn newline_stop_position() {
    let text = "abc\ndef";
    let mut window = TextWithPosition::new(text);
    let p = window.get_position(20, true);
    assert_eq!(p.utf_8, 3);
    assert_eq!(p.line, 0);
    assert_eq!(p.column, 3);
}

#[test]
fn out_of_range_defaults_to_text_end() {
    let text = "abc";
    let mut window = TextWithPosition::new(text);
    let p = window.get_position(10, false);
    assert_eq!(p.utf_8, 3);
    assert_eq!(p.line, 0);
    assert_eq!(p.column, 3);
}

#[test]
fn substring_by_byte_offsets() {
    let text = "aÖb";
    let window = TextWithPosition::new(text);
    assert_eq!(window.substring(1, 3), "Ö");
    assert_eq!(window.substring(0, 4), "aÖb");
    assert_eq!(window.substring(3, 3), "");
}
