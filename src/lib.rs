//! Text terminal for small monochrome character displays: a bounded ring
//! buffer of text records, and a renderer that projects the newest records
//! onto a fixed character grid.

pub mod record_index;
pub mod ringbuffer;
pub mod layout;
pub mod interface;
pub mod display;
pub mod terminal;
