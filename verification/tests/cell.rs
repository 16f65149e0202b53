use tte::cell::CellBuffer;

#[test]
fn fr1_5_display_is_height_lines_of_width_chars() {
    let buf = CellBuffer::new(3, 2);
    assert_eq!(buf.to_text(), "   \n   \n");
}

#[test]
fn fr1_5_put_and_get_round_trip() {
    let mut buf = CellBuffer::new(4, 3);
    buf.put(2, 1, '#');
    assert_eq!(buf.get(2, 1), Some('#'));
    assert_eq!(buf.to_text(), "    \n  # \n    \n");
}

#[test]
fn fr1_5_out_of_bounds_put_is_ignored() {
    let mut buf = CellBuffer::new(2, 2);
    buf.put(-1, 0, '#');
    buf.put(0, -5, '#');
    buf.put(2, 0, '#');
    buf.put(0, 2, '#');
    assert_eq!(buf.to_text(), "  \n  \n");
}

#[test]
fn cell_buffer_reports_its_size_and_starts_blank() {
    let buf = CellBuffer::new(5, 2);
    assert_eq!(buf.width(), 5);
    assert_eq!(buf.height(), 2);
    assert_eq!(buf.get(4, 1), Some(' '));
    assert_eq!(buf.get(5, 0), None);
    assert_eq!(buf.get(0, 2), None);
}

#[test]
fn cell_buffer_rows_are_top_to_bottom() {
    let mut buf = CellBuffer::new(3, 2);
    buf.put(0, 0, 'a');
    buf.put(2, 1, 'b');
    assert_eq!(buf.rows(), vec!["a  ".to_string(), "  b".to_string()]);
}

#[test]
fn zero_width_buffer_has_height_empty_lines() {
    let buf = CellBuffer::new(0, 3);
    assert_eq!(buf.rows(), vec![String::new(), String::new(), String::new()]);
    assert_eq!(buf.to_text(), "\n\n\n");
}

#[test]
fn later_put_overwrites_earlier() {
    let mut buf = CellBuffer::new(2, 1);
    buf.put(1, 0, 'x');
    buf.put(1, 0, 'y');
    assert_eq!(buf.get(1, 0), Some('y'));
}
