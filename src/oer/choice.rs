//! Choices: the only place the octet encoding writes a tag, to name the
//! alternative taken.
use super::de::Decoder;
use super::enc::Encoder;
use super::length_determinant;
use crate::ber::{b128_len, lemma_b128_len, lemma_b128_len_shape};
use crate::error::{DecodeError, EncodeError};
use crate::tag::{
    b128, b128_value, class_bits, class_from_bits, class_index, class_of_bits, encode_base128,
    lemma_b128, parse_base128, Tag,
};
use vstd::prelude::*;

verus! {

/// A tag as a choice writes it: the class in the top two bits and a number
/// below 63 in the other six; a larger number follows in base 128 after six
/// one bits.
pub open spec fn choice_tag_encoding(t: Tag) -> Seq<u8> {
    if t.value < 63 {
        seq![(class_bits(t.class) * 64 + t.value) as u8]
    } else {
        seq![(class_bits(t.class) * 64 + 63) as u8] + b128(t.value as nat)
    }
}

/// The tag at the front of `s`, and the bytes it took.
pub open spec fn choice_tag_decoding(s: Seq<u8>) -> Option<(Tag, nat)> {
    if s.len() == 0 {
        None
    } else {
        let class = class_of_bits(s[0] / 64);
        let low = s[0] % 64;
        if low < 63 {
            Some((Tag { class, value: low as u32 }, 1))
        } else {
            match b128_len(s.drop_first()) {
                Some(n) => {
                    let v = b128_value(s.subrange(1, (1 + n) as int));
                    if v <= u32::MAX {
                        Some((Tag { class, value: v as u32 }, 1 + n))
                    } else {
                        None
                    }
                },
                None => None,
            }
        }
    }
}

/// A choice: the tag of the alternative, then its encoding, inlined for a root
/// alternative and length-prefixed for an extension.
pub open spec fn choice_encoding(t: Tag, body: Seq<u8>, is_extension: bool) -> Seq<u8> {
    choice_tag_encoding(t) + if is_extension {
        length_determinant(body.len()) + body
    } else {
        body
    }
}

impl Encoder {
    /// Writes the tag of a choice's alternative.
    pub fn encode_choice_tag(&mut self, tag: Tag)
        ensures
            final(self)@ == old(self)@ + choice_tag_encoding(tag),
    {
        let class = class_index(tag.class);
        if tag.value < 63 {
            self.write_bytes(&[class * 64 + tag.value as u8]);
        } else {
            self.write_bytes(&[class * 64 + 63]);
            let n = encode_base128(tag.value);
            self.write_bytes(n.as_slice());
            proof {
                assert(self@ =~= old(self)@ + choice_tag_encoding(tag));
            }
        }
    }

    /// Writes a choice whose alternative `tag` encodes as `body`.
    pub fn encode_choice(&mut self, tag: Tag, body: &[u8], is_extension: bool) -> (r: Result<
        (),
        EncodeError,
    >)
        ensures
            r.is_ok(),
            final(self)@ == old(self)@ + choice_encoding(tag, body@, is_extension),
    {
        self.encode_choice_tag(tag);
        if is_extension {
            self.encode_length(body.len(), false);
        }
        self.write_bytes(body);
        proof {
            assert(self@ =~= old(self)@ + choice_encoding(tag, body@, is_extension));
        }
        Ok(())
    }
}

impl Decoder {
    /// Reads the tag of a choice's alternative.
    pub fn decode_choice_tag(&mut self) -> (r: Result<Tag, DecodeError>)
        requires
            old(self).wf(),
        ensures
            final(self).wf(),
            r.is_ok() == choice_tag_decoding(old(self)@).is_some(),
            r matches Ok(t) ==> (t, (old(self)@.len() - final(self)@.len()) as nat)
                == choice_tag_decoding(old(self)@).unwrap(),
    {
        let ghost s = self@;
        let first = self.parse_one_byte()?;
        let class = class_from_bits(first / 64);
        let low = first % 64;
        if low < 63 {
            return Ok(Tag { class, value: low as u32 });
        }
        let rest = self.remaining_bytes();
        proof {
            assert(rest@ =~= s.drop_first());
        }
        match parse_base128(rest.as_slice()) {
            Some((v, n)) => {
                proof {
                    lemma_b128_len(rest@, n as int);
                    assert(s.subrange(1, (1 + n) as int) =~= rest@.subrange(0, n as int));
                }
                let _ = self.take(n);
                Ok(Tag { class, value: v })
            },
            None => {
                proof {
                    if b128_len(rest@) is Some {
                        lemma_b128_len_shape(rest@);
                        assert(s.subrange(1, (1 + b128_len(rest@).unwrap()) as int) =~= rest@.subrange(
                            0,
                            b128_len(rest@).unwrap() as int,
                        ));
                    }
                }
                Err(DecodeError::IntegerOverflow { max_width: 32 })
            },
        }
    }
}

/// A choice's tag reads back as itself, whatever follows.
pub proof fn lemma_choice_tag_round_trip(t: Tag, rest: Seq<u8>)
    ensures
        choice_tag_decoding(choice_tag_encoding(t) + rest) == Some(
            (t, choice_tag_encoding(t).len()),
        ),
{
    let s = choice_tag_encoding(t) + rest;
    let c = class_bits(t.class);
    assert(class_of_bits(c) == t.class);
    if t.value < 63 {
        assert(s[0] == (c * 64 + t.value) as u8);
        assert((c * 64 + t.value) / 64 == c);
        assert((c * 64 + t.value) % 64 == t.value);
    } else {
        let e = b128(t.value as nat);
        lemma_b128(t.value as nat);
        assert(s[0] == (c * 64 + 63) as u8);
        assert((c * 64 + 63) / 64 == c);
        assert((c * 64 + 63) % 64 == 63);
        let tail = s.drop_first();
        assert(tail =~= e + rest);
        assert forall|i: int| 0 <= i < e.len() - 1 implies #[trigger] tail[i] >= 128 by {
            assert(tail[i] == e[i]);
        }
        lemma_b128_len(tail, e.len() as int);
        assert(s.subrange(1, (1 + e.len()) as int) =~= e);
    }
}

} // verus!
