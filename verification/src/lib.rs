//! Crockford-style base-32 ("c32") encoding of byte strings and the
//! checksummed c32 address format built on it.

pub mod address;
