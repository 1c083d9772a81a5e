//! XMODEM / XMODEM-1K: a half-duplex, byte-oriented file-transfer protocol
//! for unreliable serial links, with both roles (sender and receiver),
//! 8-bit additive checksum and CRC-16/XMODEM integrity, and verified
//! framing, handshake and recovery behaviour.
#![verifier::loop_isolation(false)]

pub mod frame;
pub mod integrity;
pub mod io;
pub mod laws;
pub mod machine;
pub mod mem;

pub use frame::BlockLength;
pub use frame::Checksum;
pub use frame::Error;
pub use frame::XmodemPacket;
pub use machine::Xmodem;
