//! Basic, canonical and distinguished encoding rules: a tag-length-value
//! decoder. The functions below state the wire form of identifiers and lengths.
pub mod de;
pub mod roundtrip;
pub mod sequence;

use crate::bytes::unsigned_of;
use crate::tag::{b128_value, class_of_bits, Identifier, Tag};
use vstd::prelude::*;

verus! {

/// Which of the three rule sets a decoder follows.
#[derive(Debug, Clone, Copy, PartialEq, Eq)]
pub enum EncodingRules {
    Ber,
    Cer,
    Der,
}

impl EncodingRules {
    pub fn is_ber(&self) -> (r: bool)
        ensures
            r == (*self is Ber),
    {
        match self {
            EncodingRules::Ber => true,
            _ => false,
        }
    }

    pub fn is_cer(&self) -> (r: bool)
        ensures
            r == (*self is Cer),
    {
        match self {
            EncodingRules::Cer => true,
            _ => false,
        }
    }

    pub fn is_der(&self) -> (r: bool)
        ensures
            r == (*self is Der),
    {
        match self {
            EncodingRules::Der => true,
            _ => false,
        }
    }
}

/// Options of the decoder.
#[derive(Debug, Clone, Copy, PartialEq, Eq)]
pub struct DecoderOptions {
    pub encoding_rules: EncodingRules,
}

impl DecoderOptions {
    pub fn ber() -> (r: Self)
        ensures
            r.encoding_rules == EncodingRules::Ber,
    {
        DecoderOptions { encoding_rules: EncodingRules::Ber }
    }

    pub fn cer() -> (r: Self)
        ensures
            r.encoding_rules == EncodingRules::Cer,
    {
        DecoderOptions { encoding_rules: EncodingRules::Cer }
    }

    pub fn der() -> (r: Self)
        ensures
            r.encoding_rules == EncodingRules::Der,
    {
        DecoderOptions { encoding_rules: EncodingRules::Der }
    }

    pub fn current_codec(&self) -> (r: EncodingRules)
        ensures
            r == self.encoding_rules,
    {
        self.encoding_rules
    }
}

/// Bytes up to and including the first one without the continuation bit.
pub open spec fn b128_len(s: Seq<u8>) -> Option<nat>
    decreases s.len(),
{
    if s.len() == 0 {
        None
    } else if s[0] < 128 {
        Some(1)
    } else {
        match b128_len(s.drop_first()) {
            Some(n) => Some(n + 1),
            None => None,
        }
    }
}

/// The identifier at the front of `s` and the bytes it took: class in the top
/// two bits, the constructed flag next, then a number below 31 or, after
/// `0x1F`, a base-128 number.
pub open spec fn identifier_spec(s: Seq<u8>) -> Option<(Identifier, nat)> {
    if s.len() == 0 {
        None
    } else {
        let class = class_of_bits(s[0] / 64);
        let constructed = (s[0] / 32) % 2 == 1;
        let low = s[0] % 32;
        if low < 31 {
            Some(
                (
                    Identifier { tag: Tag { class, value: low as u32 }, is_constructed: constructed },
                    1,
                ),
            )
        } else {
            match b128_len(s.drop_first()) {
                Some(n) => {
                    let v = b128_value(s.subrange(1, (1 + n) as int));
                    if v <= u32::MAX {
                        Some(
                            (
                                Identifier {
                                    tag: Tag { class, value: v as u32 },
                                    is_constructed: constructed,
                                },
                                1 + n,
                            ),
                        )
                    } else {
                        None
                    }
                },
                None => None,
            }
        }
    }
}

/// The length at the front of `s` and the bytes it took: `Some(n)` for a
/// definite length, `None` for the indefinite form `0x80`.
pub open spec fn length_spec(s: Seq<u8>) -> Option<(Option<nat>, nat)> {
    if s.len() == 0 {
        None
    } else if s[0] < 128 {
        Some((Some(s[0] as nat), 1))
    } else if s[0] == 128 {
        Some((None, 1))
    } else if s[0] == 255 {
        None
    } else {
        let k = (s[0] - 128) as nat;
        if s.len() < 1 + k || unsigned_of(s.subrange(1, (1 + k) as int)) > usize::MAX {
            None
        } else {
            Some((Some(unsigned_of(s.subrange(1, (1 + k) as int))), 1 + k))
        }
    }
}

/// `b128_len` finds the first byte without the continuation bit.
pub proof fn lemma_b128_len(s: Seq<u8>, n: int)
    requires
        1 <= n <= s.len(),
        s[n - 1] < 128,
        forall|i: int| 0 <= i < n - 1 ==> #[trigger] s[i] >= 128,
    ensures
        b128_len(s) == Some(n as nat),
    decreases n,
{
    if n > 1 {
        assert(s[0] >= 128);
        let t = s.drop_first();
        assert forall|i: int| 0 <= i < n - 2 implies #[trigger] t[i] >= 128 by {
            assert(t[i] == s[i + 1]);
        }
        lemma_b128_len(t, n - 1);
    }
}

/// What `b128_len` finds has the shape that `parse_base128` looks for.
pub proof fn lemma_b128_len_shape(s: Seq<u8>)
    requires
        b128_len(s) is Some,
    ensures
        1 <= b128_len(s).unwrap() <= s.len(),
        s[b128_len(s).unwrap() - 1] < 128,
        forall|i: int| 0 <= i < b128_len(s).unwrap() - 1 ==> #[trigger] s[i] >= 128,
    decreases s.len(),
{
    if s[0] >= 128 {
        let t = s.drop_first();
        lemma_b128_len_shape(t);
        assert forall|i: int| 0 <= i < b128_len(s).unwrap() - 1 implies #[trigger] s[i] >= 128 by {
            if i > 0 {
                assert(s[i] == t[i - 1]);
            }
        }
    }
}

} // verus!
