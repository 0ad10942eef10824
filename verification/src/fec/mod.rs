//! Forward error correction.
pub mod converse;
pub mod crc;
pub mod encode;
pub mod ldpc;
pub mod parity;
pub mod short;
