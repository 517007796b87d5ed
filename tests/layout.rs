use ssd1362::layout::{compose, layout_record};
use ssd1362::ringbuffer::Ringbuffer;

fn text(cells: &[u8]) -> String {
    String::from_utf8(cells.to_vec()).unwrap()
}

#[test]
fn plain_record_is_padded_to_a_row() {
    assert_eq!(text(&layout_record(b"AA\n", 8, true, 4)), "AA      ");
    assert_eq!(text(&layout_record(b"AA", 8, true, 4)), "AA      ");
}

#[test]
fn empty_record_is_one_blank_row() {
    assert_eq!(text(&layout_record(b"", 4, true, 4)), "    ");
    assert_eq!(text(&layout_record(b"\n", 4, true, 4)), "    ");
}

#[test]
fn tab_expands_and_control_bytes_vanish() {
    assert_eq!(text(&layout_record(b"a\tb", 8, true, 4)), "a    b  ");
    assert_eq!(text(&layout_record(b"a\tb", 8, true, 1)), "a b     ");
    assert_eq!(text(&layout_record(b"a\r\0b", 4, true, 4)), "ab  ");
}

#[test]
fn newline_breaks_the_line() {
    assert_eq!(text(&layout_record(b"ab\ncd", 4, true, 4)), "ab  cd  ");
    assert_eq!(text(&layout_record(b"ab\n\ncd\n", 4, true, 4)), "ab      cd  ");
}

#[test]
fn long_line_wraps_onto_continuation_rows() {
    assert_eq!(text(&layout_record(b"abcdefghij", 4, true, 4)), "abcdefghij  ");
    assert_eq!(text(&layout_record(b"abcdefgh\n", 4, true, 4)), "abcdefgh");
}

#[test]
fn without_wrapping_a_full_row_ends_the_record() {
    assert_eq!(text(&layout_record(b"abcdefghij\nxyz", 4, false, 4)), "abcd");
    assert_eq!(text(&layout_record(b"ab\nxyz", 4, false, 4)), "ab  xyz ");
}

#[test]
fn three_lines_fill_the_bottom_rows() {
    let mut buffer: Ringbuffer<512> = Ringbuffer::new();
    buffer.add(b"AA\n");
    buffer.add(b"BB\n");
    buffer.add(b"CC\n");
    let cells = compose(buffer.reverse_iter(0), 8, 8, true, 4);
    // Three rows, to be drawn on rows 5, 6 and 7 of the eight.
    assert_eq!(text(&cells), "AA      BB      CC      ");
}

#[test]
fn wrapped_record_takes_ceil_rows_below_the_older_one() {
    let mut buffer: Ringbuffer<512> = Ringbuffer::new();
    buffer.add(b"OLD\n");
    buffer.add(b"abcdefghij\n");
    let cells = compose(buffer.reverse_iter(0), 8, 4, true, 4);
    assert_eq!(text(&cells), "OLD     abcdefghij      ");
    assert_eq!(cells.len() / 8, 3);
}

#[test]
fn full_grid_shows_only_the_newest_rows() {
    let mut buffer: Ringbuffer<512> = Ringbuffer::new();
    buffer.add(b"1\n");
    buffer.add(b"2\n");
    buffer.add(b"3\n");
    buffer.add(b"456789\n");
    let cells = compose(buffer.reverse_iter(0), 4, 3, true, 4);
    assert_eq!(text(&cells), "3   456789  ");
    let cells = compose(buffer.reverse_iter(1), 4, 3, true, 4);
    assert_eq!(text(&cells), "1   2   3   ");
    let cells = compose(buffer.reverse_iter(9), 4, 3, true, 4);
    assert_eq!(text(&cells), "");
}

#[test]
fn partly_visible_record_keeps_its_last_rows() {
    let mut buffer: Ringbuffer<512> = Ringbuffer::new();
    buffer.add(b"aaaabbbbcccc\n");
    buffer.add(b"new\n");
    let cells = compose(buffer.reverse_iter(0), 4, 2, true, 4);
    assert_eq!(text(&cells), "ccccnew ");
}
