//! Conversions between wire forms (strings, hex, fixed-size byte arrays) and
//! the 256-bit values used for keys and signatures, plus the digest of a
//! hashstorage record that signatures are made over.

pub mod convert;
pub mod crypto;
