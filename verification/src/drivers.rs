//! Device interfaces that drivers provide.
use vstd::prelude::*;

pub mod net;

verus! {

/// A disk read and written in 512-byte sectors, addressed from 0.
pub trait BlockDevice {
    /// Reads sector `lba` into the first 512 bytes of `buf`; false on failure.
    fn read_sector(&self, lba: u32, buf: &mut [u8]) -> bool;

    /// Writes the first 512 bytes of `buf` to sector `lba`; false on failure.
    fn write_sector(&self, lba: u32, buf: &[u8]) -> bool;
}

/// A byte-oriented device such as a serial line.
pub trait CharDevice {
    /// The next input byte, if one is waiting.
    fn read_byte(&mut self) -> Option<u8>;

    fn write_byte(&mut self, b: u8);

    /// Whether an input byte is waiting.
    fn has_input(&self) -> bool;
}

} // verus!
