//! Reading and writing the data types of the Minecraft network protocol,
//! framing packets on a connection, and building the outgoing packets of
//! several protocol versions.

pub mod buf;
pub mod collections;
pub mod config;
pub mod decryption;
pub mod error;
pub mod ext;
pub mod handshake;
pub mod framing;
pub mod nbt;
pub mod num;
pub mod packet_bytes;
pub mod reader;
pub mod receive;
pub mod roundtrip;
pub mod send;
pub mod stream;
pub mod string;
pub mod traits;
pub mod util;
pub mod uuids;
pub mod varint;
pub mod writer;
