//! Values the octet encoding rules write and read whole: each type states its
//! wire form and what the decoder reads, and proves that one inverts the other.
use super::de::{integer_decoding, octet_string_decoding, Decoder};
use super::enc::Encoder;
use super::roundtrip::{lemma_integer_round_trip, lemma_octet_string_round_trip};
use super::{integer_encoding, octet_string_encoding, visible_size, visible_value};
use crate::constraints::{bounded_contains, size_contains, Constraint, Constraints};
use crate::error::{DecodeError, EncodeError};
use crate::integer::Integer;
use vstd::prelude::*;

verus! {

/// A type whose values the octet encoding rules write and read.
pub trait OerType: Sized {
    /// What a value stands for, as the decoder gives it back.
    type V;

    /// Values the encoder accepts.
    spec fn wf(&self) -> bool;

    /// What the value stands for.
    spec fn value_of(&self) -> Self::V;

    /// Whether the value meets the octet-visible constraints in `cs`.
    spec fn admissible(&self, cs: Seq<Constraint>) -> bool;

    /// The bytes that encode the value under `cs`.
    spec fn encoding(&self, cs: Seq<Constraint>) -> Seq<u8>;

    /// The value at the front of `s` under `cs`, and the bytes it took.
    spec fn decoding(cs: Seq<Constraint>, s: Seq<u8>) -> Option<(Self::V, nat)>;

    /// Writes the value; a value outside its constraints is refused.
    fn encode_into(&self, enc: &mut Encoder, constraints: &Constraints) -> (r: Result<(), EncodeError>)
        requires
            self.wf(),
        ensures
            r.is_ok() == self.admissible(constraints@),
            r.is_ok() ==> final(enc)@ == old(enc)@ + self.encoding(constraints@),
            r.is_err() ==> final(enc)@ == old(enc)@,
    ;

    /// Reads a value.
    fn decode_from(dec: &mut Decoder, constraints: &Constraints) -> (r: Result<Self, DecodeError>)
        requires
            old(dec).wf(),
        ensures
            final(dec).wf(),
            r.is_ok() == Self::decoding(constraints@, old(dec)@) is Some,
            r matches Ok(v) ==> v.wf() && v.value_of() == Self::decoding(
                constraints@,
                old(dec)@,
            ).unwrap().0 && final(dec)@ == old(dec)@.subrange(
                Self::decoding(constraints@, old(dec)@).unwrap().1 as int,
                old(dec)@.len() as int,
            ),
    ;

    /// The encoding depends on the value and the constraints alone: no tag or
    /// other identity of the type is written.
    proof fn lemma_encoding_by_value(&self, other: &Self, cs: Seq<Constraint>)
        requires
            self.value_of() == other.value_of(),
        ensures
            self.encoding(cs) == other.encoding(cs),
            self.admissible(cs) == other.admissible(cs),
    ;

    /// An admissible value reads back from its encoding, whatever follows.
    proof fn lemma_round_trip(&self, cs: Seq<Constraint>, rest: Seq<u8>)
        requires
            self.wf(),
            self.admissible(cs),
            self.encoding(cs).len() <= usize::MAX,
        ensures
            Self::decoding(cs, self.encoding(cs) + rest) == Some(
                (self.value_of(), self.encoding(cs).len()),
            ),
    ;
}

impl OerType for bool {
    type V = bool;

    open spec fn wf(&self) -> bool {
        true
    }

    open spec fn value_of(&self) -> bool {
        *self
    }

    open spec fn admissible(&self, cs: Seq<Constraint>) -> bool {
        true
    }

    open spec fn encoding(&self, cs: Seq<Constraint>) -> Seq<u8> {
        seq![
            if *self {
                0xffu8
            } else {
                0x00u8
            },
        ]
    }

    open spec fn decoding(cs: Seq<Constraint>, s: Seq<u8>) -> Option<(bool, nat)> {
        if s.len() >= 1 {
            Some((s[0] != 0, 1))
        } else {
            None
        }
    }

    fn encode_into(&self, enc: &mut Encoder, constraints: &Constraints) -> (r: Result<(), EncodeError>) {
        enc.encode_bool(*self);
        Ok(())
    }

    fn decode_from(dec: &mut Decoder, constraints: &Constraints) -> (r: Result<Self, DecodeError>) {
        let ghost s = dec@;
        let b = dec.decode_bool()?;
        proof {
            assert(dec@ =~= s.subrange(1, s.len() as int));
        }
        Ok(b)
    }

    proof fn lemma_encoding_by_value(&self, other: &Self, cs: Seq<Constraint>) {
    }

    proof fn lemma_round_trip(&self, cs: Seq<Constraint>, rest: Seq<u8>) {
    }
}

impl OerType for Integer {
    type V = int;

    open spec fn wf(&self) -> bool {
        Integer::wf(self)
    }

    open spec fn value_of(&self) -> int {
        self@
    }

    open spec fn admissible(&self, cs: Seq<Constraint>) -> bool {
        visible_value(cs) is None || bounded_contains(visible_value(cs).unwrap(), self@)
    }

    open spec fn encoding(&self, cs: Seq<Constraint>) -> Seq<u8> {
        integer_encoding(visible_value(cs), self@)
    }

    open spec fn decoding(cs: Seq<Constraint>, s: Seq<u8>) -> Option<(int, nat)> {
        integer_decoding(visible_value(cs), s)
    }

    fn encode_into(&self, enc: &mut Encoder, constraints: &Constraints) -> (r: Result<(), EncodeError>) {
        enc.encode_integer_with_constraints(constraints, self)
    }

    fn decode_from(dec: &mut Decoder, constraints: &Constraints) -> (r: Result<Self, DecodeError>) {
        dec.decode_integer_with_constraints(constraints)
    }

    proof fn lemma_encoding_by_value(&self, other: &Self, cs: Seq<Constraint>) {
    }

    proof fn lemma_round_trip(&self, cs: Seq<Constraint>, rest: Seq<u8>) {
        lemma_integer_round_trip(visible_value(cs), self@, rest);
    }
}

/// Octet strings.
impl OerType for Vec<u8> {
    type V = Seq<u8>;

    open spec fn wf(&self) -> bool {
        true
    }

    open spec fn value_of(&self) -> Seq<u8> {
        self@
    }

    open spec fn admissible(&self, cs: Seq<Constraint>) -> bool {
        visible_size(cs) is None || size_contains(visible_size(cs).unwrap(), self@.len() as int)
    }

    open spec fn encoding(&self, cs: Seq<Constraint>) -> Seq<u8> {
        octet_string_encoding(visible_size(cs), self@)
    }

    open spec fn decoding(cs: Seq<Constraint>, s: Seq<u8>) -> Option<(Seq<u8>, nat)> {
        octet_string_decoding(visible_size(cs), s)
    }

    fn encode_into(&self, enc: &mut Encoder, constraints: &Constraints) -> (r: Result<(), EncodeError>) {
        enc.encode_octet_string(constraints, self.as_slice())
    }

    fn decode_from(dec: &mut Decoder, constraints: &Constraints) -> (r: Result<Self, DecodeError>) {
        dec.decode_octet_string(constraints)
    }

    proof fn lemma_encoding_by_value(&self, other: &Self, cs: Seq<Constraint>) {
    }

    proof fn lemma_round_trip(&self, cs: Seq<Constraint>, rest: Seq<u8>) {
        assert(self@.len() <= self.encoding(cs).len());
        lemma_octet_string_round_trip(visible_size(cs), self@, rest);
    }
}

/// Any value the octet encoding rules write reads back from its encoding,
/// whatever follows, when it meets its constraints.
pub proof fn lemma_value_round_trip<T: OerType>(v: T, cs: Seq<Constraint>, rest: Seq<u8>)
    requires
        v.wf(),
        v.admissible(cs),
        v.encoding(cs).len() <= usize::MAX,
    ensures
        T::decoding(cs, v.encoding(cs) + rest) == Some((v.value_of(), v.encoding(cs).len())),
{
    v.lemma_round_trip(cs, rest);
}

/// Values that stand for the same thing encode alike: the octet encoding
/// writes no tag for them, so wrapping a value in another tag changes nothing.
pub proof fn lemma_encoding_tag_free<T: OerType>(a: T, b: T, cs: Seq<Constraint>)
    requires
        a.value_of() == b.value_of(),
    ensures
        a.encoding(cs) == b.encoding(cs),
{
    a.lemma_encoding_by_value(&b, cs);
}

} // verus!
