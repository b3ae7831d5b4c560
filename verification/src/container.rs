//! The header that marks every artifact of the tool chain.
use vstd::prelude::*;

verus! {

/// A short jump over the eight bytes behind it.
pub const JUMP_OVER_MAGIC: [u8; 2] = [0xEB, 0x08];

/// The marker itself.
pub const MAGIC: [u8; 8] = [0xF0, 0x9F, 0x90, 0x95, 0xF0, 0x9F, 0x87, 0xA8];

/// Kind byte of a shared library.
pub const KIND_SHARED_LIBRARY: u8 = 0x03;

/// What the tool chain fixes about the header from release to release.
#[derive(Debug, Clone, Copy, PartialEq, Eq, Structural)]
pub struct ContainerFormat {
    /// Bytes in front of the code of an executable with an entry header: the
    /// jump, the marker, and what else there is.
    pub preamble_len: usize,
    pub format_version: u16,
}

/// The jump and the marker.
pub open spec fn marker() -> Seq<u8> {
    JUMP_OVER_MAGIC@ + MAGIC@
}

} // verus!
