//! Fixed constants of the QZT v0.1 container format.

use vstd::prelude::*;

verus! {

/// QZT v0.1 fixed header magic (`QZT\0TXT1`).
pub const MAGIC: [u8; 8] = [0x51, 0x5a, 0x54, 0x00, 0x54, 0x58, 0x54, 0x31];

/// QZT v0.1 footer trailer magic (`QZTTAIL1`).
pub const TRAILER_MAGIC: [u8; 8] = [0x51, 0x5a, 0x54, 0x54, 0x41, 0x49, 0x4c, 0x31];

/// QZT v0.1 major version.
pub const MAJOR_VERSION: u16 = 0;

/// QZT v0.1 minor version.
pub const MINOR_VERSION: u16 = 1;

/// Fixed Header size in bytes.
pub const HEADER_LEN: usize = 128;

/// Fixed Footer Trailer size in bytes.
pub const FOOTER_TRAILER_LEN: usize = 64;

} // verus!
