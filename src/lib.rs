//! Codec for ASN.1 values: a constraint model, an integer of any size, an
//! octet encoding rules encoder with the decoder that inverts it, and a
//! tag-length-value decoder for the basic, canonical and distinguished rules.
pub mod bits;
pub mod bytes;
pub mod constraints;
pub mod error;
pub mod integer;
pub mod tag;
pub mod time;

pub mod ber;
pub mod oer;
