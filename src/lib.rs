//! Key derivation, address format and transaction signing for an
//! HD wallet, with the binary formats and their laws proved.
pub mod address;
pub mod cbor;
pub mod crc32;
pub mod error;
pub mod hdpayload;
pub mod hdwallet;
pub mod primitives;
pub mod scalar;
pub mod tx;
