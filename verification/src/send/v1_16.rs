//! Packets of protocol versions 735 and 736 (1.16).

pub mod login;
pub mod play;
