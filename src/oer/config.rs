//! Options of the octet encoding rules codec.
use vstd::prelude::*;

verus! {

/// Which variant of the octet encoding rules an encoder follows.
#[derive(Debug, Clone, Copy, PartialEq, Eq, PartialOrd, Ord)]
pub enum EncodingRules {
    /// Canonical octet encoding rules: one encoding per value.
    Coer,
}

impl EncodingRules {
    pub fn is_coer(self) -> (r: bool)
        ensures
            r == (self == EncodingRules::Coer),
    {
        match self {
            EncodingRules::Coer => true,
        }
    }
}

/// Options for the encoder.
#[derive(Clone, Copy, Debug)]
pub struct EncoderOptions {
    pub encoding_rules: EncodingRules,
}

impl EncoderOptions {
    /// The canonical variant, the one this encoder writes.
    pub fn coer() -> (r: Self)
        ensures
            r.encoding_rules == EncodingRules::Coer,
    {
        EncoderOptions { encoding_rules: EncodingRules::Coer }
    }
}

/// Options for the decoder, which accepts the basic variant.
#[derive(Clone, Copy, Debug)]
pub struct DecoderOptions {}

impl DecoderOptions {
    pub fn oer() -> (r: Self) {
        DecoderOptions {  }
    }
}

} // verus!
