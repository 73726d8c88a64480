//! Firmware image scanner: decoding of Intel HEX and Motorola S-record images,
//! recognition of encoded inputs, and matching of vendor header signatures.
pub mod text;
pub mod unicode;
pub mod format;
pub mod records;
pub mod extract;
pub mod strings;
pub mod signature;
pub mod matching;
pub mod laws;
