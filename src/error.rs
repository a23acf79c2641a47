use vstd::prelude::*;

verus! {

/// The errors of the packet layer.
#[derive(Clone, Copy, Debug, PartialEq, Eq, Structural)]
pub enum Error {
    /// The buffer holds fewer bytes than a read or a write needs.
    BufferTooShort,
    /// A field holds a value that the protocol does not allow.
    InvalidPacket,
    /// The packet uses a protocol feature that this layer does not handle.
    Unsupported,
}

} // verus!
