//! Building the outgoing packets of the protocol versions the server
//! speaks.

pub mod batch;
pub mod fields;
pub mod ids;
pub mod specs;
pub mod util;
pub mod v1_12_2;
pub mod v1_13;
pub mod v1_14;
pub mod v1_15;
pub mod v1_16;
pub mod v1_8_9;
pub mod v1_9;
pub mod v1_9_1;
