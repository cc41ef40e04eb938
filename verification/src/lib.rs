//! Gateway core for a lighting-control bus reached over a serial-to-TCP
//! bridge: the line framer, the wire codec and the decisions around them.

pub mod buffers;
pub mod busio;
pub mod codec;
pub mod gaffer;
pub mod server;
pub mod session;
