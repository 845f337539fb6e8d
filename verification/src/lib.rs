//! Packet framing, command encoding and response decoding for LOGIClink
//! Bluetooth standing desks, verified with Verus.

pub mod ble;
pub mod cli;
pub mod commands;
pub mod config;
pub mod motion;
pub mod protocol;
pub mod response;
pub mod slip;
pub mod text;
pub mod xxtea;
