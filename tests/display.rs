use std::cell::RefCell;
use std::rc::Rc;

use ssd1362::display::{init_commands, Command, Display, DisplayMode, DisplayRotation, DisplaySize, VcomhLevel};
use ssd1362::interface::DisplayInterface;

type Log = Rc<RefCell<Vec<(bool, Vec<u8>)>>>;

struct Recorder {
    log: Log,
}

impl DisplayInterface for Recorder {
    type Error = ();

    fn send_commands(&mut self, cmd: &[u8]) -> Result<(), ()> {
        self.log.borrow_mut().push((true, cmd.to_vec()));
        Ok(())
    }

    fn send_data(&mut self, buf: &[u8]) -> Result<(), ()> {
        self.log.borrow_mut().push((false, buf.to_vec()));
        Ok(())
    }
}

fn display(rotation: DisplayRotation) -> (Display<Recorder>, Log) {
    let log: Log = Rc::new(RefCell::new(Vec::new()));
    (Display::new(Recorder { log: log.clone() }, rotation), log)
}

#[test]
fn size_and_rotated_dimensions() {
    assert_eq!(DisplaySize::Display256x64.dimensions(), (256, 64));
    assert_eq!(display(DisplayRotation::Rotate0).0.dimensions(), (256, 64));
    assert_eq!(display(DisplayRotation::Rotate180).0.dimensions(), (256, 64));
    assert_eq!(display(DisplayRotation::Rotate90).0.dimensions(), (64, 256));
    assert_eq!(display(DisplayRotation::Rotate270).0.dimensions(), (64, 256));
}

#[test]
fn command_encodings() {
    assert_eq!(Command::ColumnAddress(3, 5).bytes(), vec![0x15, 3, 5]);
    assert_eq!(Command::RowAddress(8, 15).bytes(), vec![0x75, 8, 15]);
    assert_eq!(Command::DisplayClockDiv(0xf, 0x0).bytes(), vec![0xB3, 0xF0]);
    assert_eq!(Command::DisplayClockDiv(0x1f, 0x12).bytes(), vec![0xB3, 0xF2]);
    assert_eq!(Command::Mode(DisplayMode::Inverse).bytes(), vec![0xA7]);
    assert_eq!(Command::VcomhDeselect(VcomhLevel::V082).bytes(), vec![0xBE, 0x05]);
    assert_eq!(Command::DisplayOn(false).bytes(), vec![0xAE]);
    assert_eq!(Command::InternalIREF(true).bytes(), vec![0xAD, 0x9E]);
}

#[test]
fn init_sends_the_power_up_sequence() {
    let (mut d, log) = display(DisplayRotation::Rotate180);
    d.init().unwrap();
    let cmds = init_commands(DisplayRotation::Rotate180);
    assert_eq!(cmds.len(), 14);
    assert_eq!(cmds[4], Command::Remap(0x43));
    let sent: Vec<Vec<u8>> = log.borrow().iter().map(|(_, b)| b.clone()).collect();
    let expected: Vec<Vec<u8>> = cmds.iter().map(|c| c.bytes()).collect();
    assert_eq!(sent, expected);
    assert_eq!(init_commands(DisplayRotation::Rotate0)[4], Command::Remap(0x50));
}

#[test]
fn draw_area_ends_are_exclusive() {
    let (mut d, log) = display(DisplayRotation::Rotate0);
    d.set_draw_area((3, 8), (6, 16)).unwrap();
    d.draw(&[1, 2, 3]).unwrap();
    assert_eq!(
        *log.borrow(),
        vec![(true, vec![0x15, 3, 5]), (true, vec![0x75, 8, 15]), (false, vec![1, 2, 3])]
    );
}

#[test]
fn blank_on_off_and_scroll() {
    let (mut d, log) = display(DisplayRotation::Rotate0);
    d.blank().unwrap();
    d.on().unwrap();
    d.off().unwrap();
    d.scroll(7).unwrap();
    let log = log.borrow();
    assert_eq!(log[0], (true, vec![0x15, 0, 127]));
    assert_eq!(log[1], (true, vec![0x75, 0, 63]));
    assert_eq!(log[2].1.len(), 128 * 64);
    assert!(log[2].1.iter().all(|&b| b == 0));
    assert_eq!(log[3], (true, vec![0xAF]));
    assert_eq!(log[4], (true, vec![0xAE]));
    assert_eq!(log[5], (true, vec![0xA2, 7]));
}
