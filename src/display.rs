//! Driver for an SSD1362 controller with a 256 x 64 panel: command encoding
//! and the operations that the terminal needs.

use crate::interface::DisplayInterface;
use vstd::prelude::*;

verus! {

/// Pixels per addressable column: the controller packs two 4-bit pixels into
/// each column of its frame memory.
pub const PIXELS_PER_COLUMN: usize = 2;

/// Columns of the controller's frame memory.
pub const FRAME_COLUMNS: usize = 128;

/// Rows of the controller's frame memory.
pub const FRAME_ROWS: usize = 64;

/// Display rotation. The controller's remap only covers the 0 and 180 degree
/// orientations; the others are sent with the default remap.
#[derive(Clone, Copy, Debug, PartialEq, Eq, Structural)]
pub enum DisplayRotation {
    /// No rotation, normal display
    Rotate0,
    /// Rotate by 90 degrees clockwise
    Rotate90,
    /// Rotate by 180 degrees clockwise
    Rotate180,
    /// Rotate 270 degrees clockwise
    Rotate270,
}

/// Display size enumeration
#[derive(Clone, Copy, Debug, PartialEq, Eq, Structural)]
pub enum DisplaySize {
    /// 256 by 64 pixels
    Display256x64,
}

impl DisplaySize {
    pub open spec fn spec_dimensions(self) -> (usize, usize) {
        match self {
            DisplaySize::Display256x64 => (256, 64),
        }
    }

    /// Width and height in pixels.
    pub fn dimensions(&self) -> (r: (usize, usize))
        ensures
            r == self.spec_dimensions(),
    {
        match *self {
            DisplaySize::Display256x64 => (256, 64),
        }
    }
}

/// COM deselect voltage, as a fraction of the panel supply.
#[derive(Clone, Copy, Debug, PartialEq, Eq, Structural)]
pub enum VcomhLevel {
    V072,
    V082,
    V086,
}

#[derive(Clone, Copy, Debug, PartialEq, Eq, Structural)]
pub enum DisplayMode {
    Normal,
    AllOn,
    AllOff,
    Inverse,
}

/// A controller command with its arguments.
#[derive(Clone, Copy, Debug, PartialEq, Eq, Structural)]
pub enum Command {
    /// Use the internal VDD regulator
    InternalVDD(bool),
    /// Use the internal current reference
    InternalIREF(bool),
    /// First and last column of the draw window
    ColumnAddress(u8, u8),
    /// First and last row of the draw window
    RowAddress(u8, u8),
    /// Segment and COM remapping
    Remap(u8),
    /// Frame memory row shown on the first display row
    StartLine(u8),
    /// Vertical shift of the display
    DisplayOffset(u8),
    Mode(DisplayMode),
    /// Number of driven rows, less one
    Multiplex(u8),
    /// Reset and precharge phase lengths
    PhaseLength(u8),
    /// Oscillator frequency and clock divider, four bits each
    DisplayClockDiv(u8, u8),
    /// Select the default linear gray scale table
    DefaultGrayScale,
    PreChargeVoltage(u8),
    VcomhDeselect(VcomhLevel),
    DisplayOn(bool),
}

impl Command {
    /// The bytes that encode the command.
    pub open spec fn spec_bytes(self) -> Seq<u8> {
        match self {
            Command::InternalVDD(on) => seq![0xAB, if on { 1u8 } else { 0u8 }],
            Command::InternalIREF(on) => seq![0xAD, if on { 0x9Eu8 } else { 0x8Eu8 }],
            Command::ColumnAddress(start, end) => seq![0x15, start, end],
            Command::RowAddress(start, end) => seq![0x75, start, end],
            Command::Remap(remap) => seq![0xA0, remap],
            Command::StartLine(line) => seq![0xA1, line],
            Command::DisplayOffset(offset) => seq![0xA2, offset],
            Command::Mode(mode) => seq![
                match mode {
                    DisplayMode::Normal => 0xA4u8,
                    DisplayMode::AllOn => 0xA5u8,
                    DisplayMode::AllOff => 0xA6u8,
                    DisplayMode::Inverse => 0xA7u8,
                },
            ],
            Command::Multiplex(ratio) => seq![0xA8, ratio],
            Command::PhaseLength(phases) => seq![0xB1, phases],
            Command::DisplayClockDiv(fosc, div) => seq![0xB3, ((fosc % 16) * 16 + div % 16) as u8],
            Command::DefaultGrayScale => seq![0xB9],
            Command::PreChargeVoltage(voltage) => seq![0xBC, voltage],
            Command::VcomhDeselect(level) => seq![
                0xBE,
                match level {
                    VcomhLevel::V072 => 0x00u8,
                    VcomhLevel::V082 => 0x05u8,
                    VcomhLevel::V086 => 0x07u8,
                },
            ],
            Command::DisplayOn(on) => seq![if on { 0xAFu8 } else { 0xAEu8 }],
        }
    }

    /// The bytes that encode the command.
    pub fn bytes(&self) -> (r: Vec<u8>)
        ensures
            r@ == self.spec_bytes(),
    {
        let mut r: Vec<u8> = Vec::new();
        match *self {
            Command::InternalVDD(on) => {
                r.push(0xAB);
                r.push(if on { 1 } else { 0 });
            },
            Command::InternalIREF(on) => {
                r.push(0xAD);
                r.push(if on { 0x9E } else { 0x8E });
            },
            Command::ColumnAddress(start, end) => {
                r.push(0x15);
                r.push(start);
                r.push(end);
            },
            Command::RowAddress(start, end) => {
                r.push(0x75);
                r.push(start);
                r.push(end);
            },
            Command::Remap(remap) => {
                r.push(0xA0);
                r.push(remap);
            },
            Command::StartLine(line) => {
                r.push(0xA1);
                r.push(line);
            },
            Command::DisplayOffset(offset) => {
                r.push(0xA2);
                r.push(offset);
            },
            Command::Mode(mode) => {
                r.push(
                    match mode {
                        DisplayMode::Normal => 0xA4,
                        DisplayMode::AllOn => 0xA5,
                        DisplayMode::AllOff => 0xA6,
                        DisplayMode::Inverse => 0xA7,
                    },
                );
            },
            Command::Multiplex(ratio) => {
                r.push(0xA8);
                r.push(ratio);
            },
            Command::PhaseLength(phases) => {
                r.push(0xB1);
                r.push(phases);
            },
            Command::DisplayClockDiv(fosc, div) => {
                r.push(0xB3);
                r.push((fosc % 16) * 16 + div % 16);
            },
            Command::DefaultGrayScale => {
                r.push(0xB9);
            },
            Command::PreChargeVoltage(voltage) => {
                r.push(0xBC);
                r.push(voltage);
            },
            Command::VcomhDeselect(level) => {
                r.push(0xBE);
                r.push(
                    match level {
                        VcomhLevel::V072 => 0x00,
                        VcomhLevel::V082 => 0x05,
                        VcomhLevel::V086 => 0x07,
                    },
                );
            },
            Command::DisplayOn(on) => {
                r.push(if on { 0xAF } else { 0xAE });
            },
        }
        assert(r@ =~= self.spec_bytes());
        r
    }
}

/// Segment remap byte for a rotation.
pub open spec fn remap_for(rotation: DisplayRotation) -> u8 {
    match rotation {
        DisplayRotation::Rotate0 => 0x50,
        DisplayRotation::Rotate180 => 0x43,
        DisplayRotation::Rotate90 => 0x00,
        DisplayRotation::Rotate270 => 0x00,
    }
}

/// The power-up sequence for a rotation.
pub open spec fn spec_init_commands(rotation: DisplayRotation) -> Seq<Command> {
    seq![
        Command::InternalVDD(true),
        Command::InternalIREF(true),
        Command::ColumnAddress(0, 0x7f),
        Command::RowAddress(0, 0x3f),
        Command::Remap(remap_for(rotation)),
        Command::StartLine(0),
        Command::DisplayOffset(0),
        Command::Mode(DisplayMode::Normal),
        Command::Multiplex(0x3f),
        Command::PhaseLength(0x11),
        Command::DisplayClockDiv(0xf, 0x0),
        Command::DefaultGrayScale,
        Command::PreChargeVoltage(0x04),
        Command::VcomhDeselect(VcomhLevel::V082),
    ]
}

/// The power-up sequence for a rotation; the clock runs as fast as it can.
pub fn init_commands(rotation: DisplayRotation) -> (r: Vec<Command>)
    ensures
        r@ == spec_init_commands(rotation),
{
    let remap = match rotation {
        DisplayRotation::Rotate0 => 0x50,
        DisplayRotation::Rotate180 => 0x43,
        DisplayRotation::Rotate90 => 0x00,
        DisplayRotation::Rotate270 => 0x00,
    };
    let mut r: Vec<Command> = Vec::new();
    r.push(Command::InternalVDD(true));
    r.push(Command::InternalIREF(true));
    r.push(Command::ColumnAddress(0, 0x7f));
    r.push(Command::RowAddress(0, 0x3f));
    r.push(Command::Remap(remap));
    r.push(Command::StartLine(0));
    r.push(Command::DisplayOffset(0));
    r.push(Command::Mode(DisplayMode::Normal));
    r.push(Command::Multiplex(0x3f));
    r.push(Command::PhaseLength(0x11));
    r.push(Command::DisplayClockDiv(0xf, 0x0));
    r.push(Command::DefaultGrayScale);
    r.push(Command::PreChargeVoltage(0x04));
    r.push(Command::VcomhDeselect(VcomhLevel::V082));
    assert(r@ =~= spec_init_commands(rotation));
    r
}

/// Width and height in pixels as seen through a rotation.
pub open spec fn rotated_dimensions(size: DisplaySize, rotation: DisplayRotation) -> (usize, usize) {
    let (w, h) = size.spec_dimensions();
    match rotation {
        DisplayRotation::Rotate0 | DisplayRotation::Rotate180 => (w, h),
        DisplayRotation::Rotate90 | DisplayRotation::Rotate270 => (h, w),
    }
}

/// One transfer handed to the byte sink.
pub enum Transfer {
    Command(Seq<u8>),
    Data(Seq<u8>),
}

/// The transfers of a command sequence.
pub open spec fn command_transfers(cmds: Seq<Command>) -> Seq<Transfer> {
    Seq::new(cmds.len(), |i: int| Transfer::Command(cmds[i].spec_bytes()))
}

/// A call that hands `sent` to the sink in order, stopping at the first
/// failure: the log grows by all of `sent` when it succeeds, and by a
/// non-empty prefix of it (the last transfer being the one that failed) when
/// it does not.
pub open spec fn handed(before: Seq<Transfer>, after: Seq<Transfer>, sent: Seq<Transfer>, ok: bool) -> bool {
    if ok {
        after == before + sent
    } else {
        exists|k: int| 1 <= k <= sent.len() && after == before + #[trigger] sent.take(k)
    }
}

/// The transfers of `set_draw_area(start, end)`.
pub open spec fn area_transfers(start: (u8, u8), end: (u8, u8)) -> Seq<Transfer> {
    command_transfers(
        seq![
            Command::ColumnAddress(start.0, (end.0 - 1) as u8),
            Command::RowAddress(start.1, (end.1 - 1) as u8),
        ],
    )
}

/// The transfers of `blank`: the whole frame memory as the window, then zeros
/// for all of it.
pub open spec fn blank_transfers() -> Seq<Transfer> {
    command_transfers(
        seq![
            Command::ColumnAddress(0, (FRAME_COLUMNS - 1) as u8),
            Command::RowAddress(0, (FRAME_ROWS - 1) as u8),
        ],
    ).push(Transfer::Data(Seq::new((FRAME_COLUMNS * FRAME_ROWS) as nat, |i: int| 0u8)))
}

/// A display panel behind a `DisplayInterface`. It keeps, as ghost state, the
/// log of the transfers that it has handed to the interface.
pub struct Display<DI> {
    iface: DI,
    rotation: DisplayRotation,
    size: DisplaySize,
    log: Ghost<Seq<Transfer>>,
}

impl<DI: DisplayInterface> Display<DI> {
    pub closed spec fn spec_rotation(&self) -> DisplayRotation {
        self.rotation
    }

    pub closed spec fn spec_size(&self) -> DisplaySize {
        self.size
    }

    /// Every transfer handed to the interface so far, oldest first.
    pub closed spec fn log(&self) -> Seq<Transfer> {
        self.log@
    }

    /// Width and height in pixels, as `dimensions` returns them.
    pub open spec fn spec_dimensions(&self) -> (usize, usize) {
        rotated_dimensions(self.spec_size(), self.spec_rotation())
    }

    /// Rotation and size are the same in both.
    pub open spec fn same_setup(&self, other: &Self) -> bool {
        self.spec_rotation() == other.spec_rotation() && self.spec_size() == other.spec_size()
    }

    pub fn new(iface: DI, rotation: DisplayRotation) -> (d: Display<DI>)
        ensures
            d.spec_rotation() == rotation,
            d.spec_size() == DisplaySize::Display256x64,
            d.log() == Seq::<Transfer>::empty(),
    {
        let size = DisplaySize::Display256x64;
        Display { iface, rotation, size, log: Ghost(Seq::empty()) }
    }

    fn send_command(&mut self, cmd: Command) -> (r: Result<(), DI::Error>)
        ensures
            final(self).same_setup(old(self)),
            final(self).log() == old(self).log().push(Transfer::Command(cmd.spec_bytes())),
    {
        let b = cmd.bytes();
        self.log = Ghost(self.log@.push(Transfer::Command(cmd.spec_bytes())));
        self.iface.send_commands(b.as_slice())
    }

    /// Sends the power-up sequence, `init_commands` of the rotation, and stops
    /// at the first failed transfer.
    pub fn init(&mut self) -> (r: Result<(), DI::Error>)
        ensures
            final(self).same_setup(old(self)),
            handed(
                old(self).log(),
                final(self).log(),
                command_transfers(spec_init_commands(old(self).spec_rotation())),
                r is Ok,
            ),
    {
        let cmds = init_commands(self.rotation);
        let ghost sent = command_transfers(cmds@);
        let mut i: usize = 0;
        assert(sent.take(0) =~= Seq::<Transfer>::empty());
        assert(old(self).log() + sent.take(0) =~= old(self).log());
        while i < cmds.len()
            invariant
                self.same_setup(old(self)),
                cmds@ == spec_init_commands(old(self).spec_rotation()),
                sent == command_transfers(cmds@),
                i <= cmds@.len(),
                self.log() == old(self).log() + sent.take(i as int),
            decreases cmds@.len() - i,
        {
            let r = self.send_command(cmds[i]);
            assert(sent.take(i + 1) =~= sent.take(i as int).push(sent[i as int]));
            if r.is_err() {
                assert(self.log() =~= old(self).log() + sent.take(i + 1));
                return r;
            }
            i = i + 1;
        }
        assert(sent.take(i as int) =~= sent);
        Ok(())
    }

    /// Writes zeros to the whole frame memory.
    pub fn blank(&mut self) -> (r: Result<(), DI::Error>)
        ensures
            final(self).same_setup(old(self)),
            handed(old(self).log(), final(self).log(), blank_transfers(), r is Ok),
    {
        let ghost sent = blank_transfers();
        let r = self.send_command(Command::ColumnAddress(0, (FRAME_COLUMNS - 1) as u8));
        if r.is_err() {
            assert(self.log() =~= old(self).log() + sent.take(1));
            return r;
        }
        let r = self.send_command(Command::RowAddress(0, (FRAME_ROWS - 1) as u8));
        if r.is_err() {
            assert(self.log() =~= old(self).log() + sent.take(2));
            return r;
        }
        let mut zeros: Vec<u8> = Vec::new();
        let mut k: usize = 0;
        while k < FRAME_COLUMNS * FRAME_ROWS
            invariant
                k <= FRAME_COLUMNS * FRAME_ROWS,
                zeros@ == Seq::new(k as nat, |i: int| 0u8),
            decreases FRAME_COLUMNS * FRAME_ROWS - k,
        {
            zeros.push(0);
            k = k + 1;
            assert(zeros@ =~= Seq::new(k as nat, |i: int| 0u8));
        }
        let r = self.draw(zeros.as_slice());
        assert(self.log() =~= old(self).log() + sent);
        if r.is_err() {
            assert(sent.take(3) =~= sent);
        }
        r
    }

    /// Width and height in pixels, swapped for a quarter-turn rotation.
    pub fn dimensions(&self) -> (r: (usize, usize))
        ensures
            r == self.spec_dimensions(),
    {
        let (w, h) = self.size.dimensions();
        match self.rotation {
            DisplayRotation::Rotate0 | DisplayRotation::Rotate180 => (w, h),
            DisplayRotation::Rotate90 | DisplayRotation::Rotate270 => (h, w),
        }
    }

    /// Limits the window that the next `draw` fills to the columns
    /// `start.0 .. end.0` and the rows `start.1 .. end.1` (ends exclusive),
    /// and puts the write position at its first cell.
    pub fn set_draw_area(&mut self, start: (u8, u8), end: (u8, u8)) -> (r: Result<(), DI::Error>)
        requires
            end.0 >= 1,
            end.1 >= 1,
        ensures
            final(self).same_setup(old(self)),
            handed(old(self).log(), final(self).log(), area_transfers(start, end), r is Ok),
    {
        let ghost sent = area_transfers(start, end);
        let r = self.send_command(Command::ColumnAddress(start.0, end.0 - 1));
        if r.is_err() {
            assert(self.log() =~= old(self).log() + sent.take(1));
            return r;
        }
        let r = self.send_command(Command::RowAddress(start.1, end.1 - 1));
        assert(self.log() =~= old(self).log() + sent);
        if r.is_err() {
            assert(sent.take(2) =~= sent);
        }
        r
    }

    /// Sends pixel data for the current window, which the controller fills
    /// from its write position on.
    pub fn draw(&mut self, buffer: &[u8]) -> (r: Result<(), DI::Error>)
        ensures
            final(self).same_setup(old(self)),
            final(self).log() == old(self).log().push(Transfer::Data(buffer@)),
    {
        self.log = Ghost(self.log@.push(Transfer::Data(buffer@)));
        self.iface.send_data(buffer)
    }

    /// Turn the display on.
    pub fn on(&mut self) -> (r: Result<(), DI::Error>)
        ensures
            final(self).same_setup(old(self)),
            final(self).log() == old(self).log().push(
                Transfer::Command(Command::DisplayOn(true).spec_bytes()),
            ),
    {
        self.send_command(Command::DisplayOn(true))
    }

    /// Turn the display off.
    pub fn off(&mut self) -> (r: Result<(), DI::Error>)
        ensures
            final(self).same_setup(old(self)),
            final(self).log() == old(self).log().push(
                Transfer::Command(Command::DisplayOn(false).spec_bytes()),
            ),
    {
        self.send_command(Command::DisplayOn(false))
    }

    /// Shifts the picture up by `offset` rows.
    pub fn scroll(&mut self, offset: u8) -> (r: Result<(), DI::Error>)
        ensures
            final(self).same_setup(old(self)),
            final(self).log() == old(self).log().push(
                Transfer::Command(Command::DisplayOffset(offset).spec_bytes()),
            ),
    {
        self.send_command(Command::DisplayOffset(offset))
    }
}

} // verus!
