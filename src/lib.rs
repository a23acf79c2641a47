//! Packet framing for a QUIC transport: header parsing and serialisation,
//! packet-number compression and header protection, and packet-number spaces.

pub mod error;
pub mod octets;
pub mod packet;
pub mod space;

pub use error::Error;
pub use octets::Octets;
