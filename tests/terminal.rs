use std::cell::RefCell;
use std::rc::Rc;

use ssd1362::display::{Display, DisplayRotation};
use ssd1362::interface::DisplayInterface;
use ssd1362::terminal::{Cursor, CursorWrapEvent, RenderEngine, TerminalFont, TerminalView};

type Log = Rc<RefCell<Vec<(bool, Vec<u8>)>>>;

struct Recorder {
    log: Log,
    fail_data: bool,
}

impl DisplayInterface for Recorder {
    type Error = &'static str;

    fn send_commands(&mut self, cmd: &[u8]) -> Result<(), Self::Error> {
        self.log.borrow_mut().push((true, cmd.to_vec()));
        Ok(())
    }

    fn send_data(&mut self, buf: &[u8]) -> Result<(), Self::Error> {
        if self.fail_data {
            return Err("bus");
        }
        self.log.borrow_mut().push((false, buf.to_vec()));
        Ok(())
    }
}

/// Cells of six by eight pixels; a glyph's data is its character code.
struct Codes;

impl TerminalFont for Codes {
    fn char_size(&self) -> (usize, usize) {
        (6, 8)
    }

    fn get_char(&self, chr: u8) -> Vec<u8> {
        vec![chr]
    }
}

fn terminal(fail_data: bool) -> (TerminalView<Recorder, Codes>, Log) {
    let log: Log = Rc::new(RefCell::new(Vec::new()));
    let iface = Recorder { log: log.clone(), fail_data };
    let display = Display::new(iface, DisplayRotation::Rotate0);
    (TerminalView::new(display, Codes), log)
}

/// The grid as the recorded transfers leave it: 0 where nothing was drawn.
fn grid(log: &Log) -> Vec<Vec<u8>> {
    let mut g = vec![vec![0u8; 42]; 8];
    let (mut x, mut y) = (0usize, 0usize);
    for (is_cmd, bytes) in log.borrow().iter() {
        if *is_cmd && bytes[0] == 0x15 {
            x = bytes[1] as usize;
        } else if *is_cmd && bytes[0] == 0x75 {
            y = bytes[1] as usize;
        } else if !*is_cmd && bytes.len() == 1 {
            g[y / 8][x / 3] = bytes[0];
        }
    }
    g
}

fn row_text(row: &[u8]) -> String {
    row.iter().map(|&b| if b == 0 { '.' } else { b as char }).collect()
}

#[test]
fn three_lines_render_bottom_up() {
    let (mut t, log) = terminal(false);
    t.write_string("AA\n").unwrap();
    t.write_string("BB\n").unwrap();
    t.write_string("CC\n").unwrap();
    t.render().unwrap();
    let g = grid(&log);
    let blank_row = ".".repeat(42);
    for r in 0..5 {
        assert_eq!(row_text(&g[r]), blank_row);
    }
    assert_eq!(row_text(&g[5]), format!("AA{}", " ".repeat(40)));
    assert_eq!(row_text(&g[6]), format!("BB{}", " ".repeat(40)));
    assert_eq!(row_text(&g[7]), format!("CC{}", " ".repeat(40)));
}

#[test]
fn screen_matches_what_render_draws() {
    let (mut t, log) = terminal(false);
    t.write_string("first\n").unwrap();
    t.write_string(&"x".repeat(50)).unwrap();
    t.render().unwrap();
    let cells = t.screen();
    assert_eq!(cells.len(), 3 * 42);
    let g = grid(&log);
    let drawn: Vec<u8> = g[5..8].concat();
    assert_eq!(drawn, cells);
    assert_eq!(row_text(&g[6]), "x".repeat(42));
}

#[test]
fn scroll_offset_leaves_out_newest_records() {
    let (mut t, log) = terminal(false);
    t.write_string("AA\n").unwrap();
    t.write_string("BB\n").unwrap();
    t.write_string("CC\n").unwrap();
    t.set_scroll_offset(1);
    t.render().unwrap();
    let g = grid(&log);
    assert_eq!(row_text(&g[6]), format!("AA{}", " ".repeat(40)));
    assert_eq!(row_text(&g[7]), format!("BB{}", " ".repeat(40)));
    assert_eq!(row_text(&g[5]), ".".repeat(42));
}

#[test]
fn overflowing_history_keeps_newest_text() {
    let (mut t, _log) = terminal(false);
    for n in 0..40 {
        t.write_string(&format!("line {}\n", n)).unwrap();
    }
    let cells = t.screen();
    assert_eq!(cells.len(), 8 * 42);
    let last = String::from_utf8(cells[7 * 42..].to_vec()).unwrap();
    assert_eq!(last.trim_end(), "line 39");
    let first = String::from_utf8(cells[..42].to_vec()).unwrap();
    assert_eq!(first.trim_end(), "line 32");
}

#[test]
fn transfer_error_is_passed_on() {
    let (mut t, _log) = terminal(true);
    t.write_string("AA\n").unwrap();
    assert_eq!(t.render(), Err("bus"));
    assert_eq!(t.init(), Err("bus"));
}

#[test]
fn init_sends_power_up_and_clears() {
    let (mut t, log) = terminal(false);
    t.init().unwrap();
    let log = log.borrow();
    assert_eq!(log[0], (true, vec![0xAB, 0x01]));
    assert!(log.contains(&(true, vec![0xAF])));
    let zero_rows = log.iter().filter(|(c, b)| !*c && b.len() == 128 && b.iter().all(|&x| x == 0)).count();
    assert_eq!(zero_rows, 64);
}

#[test]
fn cursor_grid_and_boxes() {
    let mut c = Cursor::new((6, 8), (256, 64));
    assert_eq!(c.grid_size(), (42, 8));
    assert_eq!(c.get_position(), (0, 0));
    assert_eq!(c.get_char_box(), ((0, 0), (3, 8)));
    c.set_position(1, 2);
    assert_eq!(c.get_char_box(), ((3, 16), (6, 24)));
    // Line boxes count rows upward from the bottom row.
    assert_eq!(c.get_line_box(0), ((0, 40), (126, 48)));
    assert_eq!(c.get_line_box(2), ((0, 56), (126, 64)));
    c.set_position(1, 0);
    assert_eq!(c.get_line_box(0), ((0, 56), (126, 64)));
    c.set_position(100, 100);
    assert_eq!(c.get_position(), (41, 7));
    assert_eq!(c.get_line_box(0), ((0, 0), (126, 8)));
}

#[test]
fn cursor_advance_wraps_rows() {
    let mut c = Cursor::new((6, 8), (256, 64));
    c.set_position(40, 0);
    assert_eq!(c.advance(), None);
    assert_eq!(c.get_position(), (41, 0));
    assert_eq!(c.advance(), Some(CursorWrapEvent(1)));
    assert_eq!(c.get_position(), (0, 1));
    c.set_position(41, 7);
    assert_eq!(c.advance(), Some(CursorWrapEvent(0)));
    assert_eq!(c.get_position(), (0, 0));
    c.set_position(5, 3);
    assert_eq!(c.advance_line(), CursorWrapEvent(4));
    assert_eq!(c.get_position(), (0, 4));
    c.set_position(5, 7);
    assert_eq!(c.advance_line(), CursorWrapEvent(8));
    assert_eq!(c.get_position(), (0, 8));
}

#[test]
fn cursor_grid_is_display_over_cell() {
    let mut c = Cursor::new((1, 8), (256, 64));
    assert_eq!(c.grid_size(), (256, 8));
    c.set_position(3, 3);
    assert_eq!(c.get_position(), (3, 3));
    let c = Cursor::new((6, 8), (64, 256));
    assert_eq!(c.grid_size(), (10, 32));
    let c = Cursor::new((7, 9), (20, 20));
    assert_eq!(c.grid_size(), (2, 2));
}

/// Cells one pixel wide: narrower than an addressable column.
struct Thin;

impl TerminalFont for Thin {
    fn char_size(&self) -> (usize, usize) {
        (1, 8)
    }

    fn get_char(&self, chr: u8) -> Vec<u8> {
        vec![chr]
    }
}

#[test]
fn unaddressable_grid_is_cleared_but_not_drawn() {
    let log: Log = Rc::new(RefCell::new(Vec::new()));
    let display = Display::new(Recorder { log: log.clone(), fail_data: false }, DisplayRotation::Rotate0);
    let mut t = TerminalView::new(display, Thin);
    t.write_string("AA\n").unwrap();
    assert!(t.screen().is_empty());
    t.render().unwrap();
    assert_eq!(log.borrow().len(), 66);
    assert!(grid(&log).iter().all(|row| row.iter().all(|&b| b == 0)));
}

#[test]
fn engine_grid_follows_font_and_rotation() {
    let log: Log = Rc::new(RefCell::new(Vec::new()));
    let display = Display::new(Recorder { log: log.clone(), fail_data: false }, DisplayRotation::Rotate180);
    let mut engine = RenderEngine::new(display, Codes, false);
    assert_eq!(engine.grid_size(), (42, 8));
    engine.clear().unwrap();
    assert_eq!(log.borrow()[0], (true, vec![0x15, 0, 127]));
    assert_eq!(log.borrow()[1], (true, vec![0x75, 0, 63]));
}

#[test]
fn render_hands_clear_then_one_window_and_glyph_per_cell() {
    let (mut t, log) = terminal(false);
    t.write_string("AA\n").unwrap();
    t.write_string("BB\n").unwrap();
    t.render().unwrap();
    let log = log.borrow();
    assert_eq!(log.len(), 66 + 3 * 2 * 42);
    assert_eq!(log[0], (true, vec![0x15, 0, 127]));
    assert_eq!(log[1], (true, vec![0x75, 0, 63]));
    // First cell: column 0 of row 6, glyph 'A'.
    assert_eq!(log[66], (true, vec![0x15, 0, 2]));
    assert_eq!(log[67], (true, vec![0x75, 48, 55]));
    assert_eq!(log[68], (false, vec![b'A']));
    // Last cell: column 41 of row 7, a blank.
    let n = log.len();
    assert_eq!(log[n - 3], (true, vec![0x15, 123, 125]));
    assert_eq!(log[n - 2], (true, vec![0x75, 56, 63]));
    assert_eq!(log[n - 1], (false, vec![b' ']));
}
