//! The byte sink behind a display: commands and pixel data go out through it.

use vstd::prelude::*;

verus! {

/// A channel to the display controller, such as an SPI bus with a
/// data/command pin.
pub trait DisplayInterface {
    /// What a failed transfer reports.
    type Error;

    /// Sends a batch of command bytes.
    fn send_commands(&mut self, cmd: &[u8]) -> Result<(), Self::Error>;

    /// Sends pixel data.
    fn send_data(&mut self, buf: &[u8]) -> Result<(), Self::Error>;
}

} // verus!
