use checker_positions::StringCursor;

#[test]
fn test_variable_width() {
    let text = "ÖÖ";
    let mut cursor = StringCursor::new(text);
    assert_eq!(cursor.utf_8_offset(2, false), Some(4));
    assert_eq!(cursor.utf_8_offset(3, false), None);
    assert_eq!(cursor.utf_8_offset(0, false), Some(0));
    assert_eq!(cursor.utf_8_offset(1, false), Some(2));
    assert_eq!(cursor.utf_8_offset(2, false), Some(4));
    assert_eq!(cursor.utf_8_offset(3, false), None);
}

#[test]
fn test_newline_stop() {
    let text = "abc\ndef\nghi";
    let mut cursor = StringCursor::new(text);
    assert_eq!(cursor.utf_8_offset(4, false), Some(4));
    assert_eq!(cursor.utf_8_offset(1, true), Some(4));
    assert_eq!(cursor.utf_8_offset(20, true), Some(7));
    assert_eq!(cursor.utf_8_offset(0, false), Some(0));
    assert_eq!(cursor.utf_8_offset(20, true), Some(3));
}

#[test]
fn ascii_char_index_equals_byte_offset() {
    let text = "abcdef";
    let mut cursor = StringCursor::new(text);
    for i in 0..7usize {
        assert_eq!(cursor.utf_8_offset(i, false), Some(i));
    }
}

#[test]
fn multi_byte_offsets_strictly_increase() {
    let text = "aÖ€𝄞";
    let mut cursor = StringCursor::new(text);
    assert_eq!(cursor.utf_8_offset(0, false), Some(0));
    assert_eq!(cursor.utf_8_offset(1, false), Some(1));
    assert_eq!(cursor.utf_8_offset(2, false), Some(3));
    assert_eq!(cursor.utf_8_offset(3, false), Some(6));
    assert_eq!(cursor.utf_8_offset(4, false), Some(10));
    assert_eq!(cursor.utf_8_offset(5, false), None);
}

#[test]
fn seek_round_trip_from_any_start() {
    let text = "aÖb\ncd";
    for i in 0..7usize {
        let mut cursor = StringCursor::new(text);
        // move somewhere else first, then resolve i; the result must not
        // depend on where the cursor was
        cursor.utf_8_offset(4, false);
        let from_middle = cursor.utf_8_offset(i, false);
        let mut fresh = StringCursor::new(text);
        assert_eq!(from_middle, fresh.utf_8_offset(i, false));
    }
}

#[test]
fn repeated_seek_is_idempotent() {
    let text = "ab\ncd";
    let mut cursor = StringCursor::new(text);
    let first = cursor.utf_8_offset(4, false);
    let second = cursor.utf_8_offset(4, false);
    let third = cursor.utf_8_offset(4, false);
    assert_eq!(first, Some(4));
    assert_eq!(second, first);
    assert_eq!(third, first);
    // the same holds when the scan halted at a newline instead of the target
    let mut stopped = StringCursor::new(text);
    let halt = stopped.utf_8_offset(10, true);
    assert_eq!(halt, Some(2));
    assert_eq!(stopped.utf_8_offset(10, true), Some(2));
}

#[test]
fn backward_scan_stops_at_newline() {
    let text = "ab\ncd";
    let mut cursor = StringCursor::new(text);
    assert_eq!(cursor.utf_8_offset(5, false), Some(5));
    // scanning back toward 0 hits the newline first and stays after it
    assert_eq!(cursor.utf_8_offset(0, true), Some(3));
}

#[test]
fn out_of_range_leaves_cursor_at_end() {
    let text = "ab";
    let mut cursor = StringCursor::new(text);
    assert_eq!(cursor.utf_8_offset(9, false), None);
    // the cursor now caches the end of the text, which resolves exactly
    assert_eq!(cursor.utf_8_offset(2, false), Some(2));
    assert_eq!(cursor.utf_8_offset(1, false), Some(1));
}

#[test]
fn carriage_return_also_stops_scans() {
    let text = "ab\rcd";
    let mut cursor = StringCursor::new(text);
    assert_eq!(cursor.utf_8_offset(10, true), Some(2));
}
