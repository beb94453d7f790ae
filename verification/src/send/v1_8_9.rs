//! Packets of protocol version 47 (1.8.9) and of every version.

pub mod login;
pub mod play;
pub mod status;
