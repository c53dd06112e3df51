//! Wake-on-LAN magic packets: MAC address text, its bytes, and the
//! 102-byte payload that wakes the machine with that address.

pub mod error;
pub mod mac;
pub mod packet;

pub use error::WolError;
pub use mac::Mac;
pub use packet::{build_checked_packet, build_magic_packet, build_packet, datagram};

