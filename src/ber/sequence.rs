//! Sequences and sequences-of for the tag-length-value decoder: the caller's
//! types say how their fields are read; the decoder opens the body, reads it,
//! and closes it.
use super::de::{header_spec, Decoder};
use crate::error::DecodeError;
use crate::integer::Integer;
use crate::tag::{Tag, TAG_BOOL, TAG_INTEGER, TAG_OCTET_STRING, TAG_UTF8_STRING};
use vstd::prelude::*;

verus! {

/// A type the tag-length-value decoder reads whole under its own tag, as the
/// items of a sequence-of are read.
pub trait BerDecode: Sized {
    /// Reads one value; on success it has taken at least one byte, on failure
    /// none.
    fn decode_ber(dec: &mut Decoder) -> (r: Result<Self, DecodeError>)
        requires
            old(dec).wf(),
        ensures
            final(dec).wf(),
            r is Ok ==> final(dec)@.len() < old(dec)@.len(),
            r is Err ==> final(dec)@ == old(dec)@,
    ;
}

impl BerDecode for bool {
    fn decode_ber(dec: &mut Decoder) -> (r: Result<Self, DecodeError>) {
        dec.decode_bool(Tag::universal(TAG_BOOL))
    }
}

impl BerDecode for Integer {
    fn decode_ber(dec: &mut Decoder) -> (r: Result<Self, DecodeError>) {
        dec.decode_integer(Tag::universal(TAG_INTEGER))
    }
}

/// Octet strings.
impl BerDecode for Vec<u8> {
    fn decode_ber(dec: &mut Decoder) -> (r: Result<Self, DecodeError>) {
        dec.decode_octet_string(Tag::universal(TAG_OCTET_STRING))
    }
}

/// UTF-8 strings.
impl BerDecode for String {
    fn decode_ber(dec: &mut Decoder) -> (r: Result<Self, DecodeError>) {
        dec.decode_utf8_string(Tag::universal(TAG_UTF8_STRING))
    }
}

/// What a sequence type's fields are, as far as reading an empty body goes.
#[derive(Clone, Copy, Debug, PartialEq, Eq)]
pub struct SequenceShape {
    /// The type has no fields at all, extension fields included.
    pub no_fields: bool,
    /// Every field is optional or has a default.
    pub all_optional: bool,
}

/// A sequence type: how its fields are read from its body.
pub trait BerSequence: Sized {
    /// Reads the fields from the body of the sequence.
    fn decode_fields(dec: &mut Decoder) -> (r: Result<Self, DecodeError>)
        requires
            old(dec).wf(),
        ensures
            final(dec).wf(),
    ;
}

/// Whether a constructed value with tag `tag` opens at the front of `s`.
pub open spec fn opens_constructed(s: Seq<u8>, tag: Tag, der: bool) -> bool {
    header_spec(s) matches Some((id, len, h)) && id.tag == tag && id.is_constructed && (len matches Some(
        n,
    ) ==> h + n <= s.len()) && !(len is None && der)
}

impl Decoder {
    /// Reads a sequence with tag `tag`. Where the type has no fields, or its
    /// body is empty and every field is optional or has a default, the value
    /// is `default` and no field is read; without a default that fails.
    /// Otherwise the fields are read, and a definite body must be read to its end.
    pub fn decode_sequence<T: BerSequence>(
        &mut self,
        tag: Tag,
        shape: SequenceShape,
        default: Option<T>,
    ) -> (r: Result<T, DecodeError>)
        requires
            old(self).wf(),
        ensures
            final(self).wf(),
            !opens_constructed(old(self)@, tag, old(self).rules() is Der) ==> r is Err,
            opens_constructed(old(self)@, tag, old(self).rules() is Der) && header_spec(
                old(self)@,
            ).unwrap().1 == Some(0nat) && (shape.no_fields || shape.all_optional) ==> r == (match default {
                Some(d) => Ok::<T, DecodeError>(d),
                None => Err(DecodeError::UnexpectedEmptyInput),
            }),
            opens_constructed(old(self)@, tag, old(self).rules() is Der) && header_spec(
                old(self)@,
            ).unwrap().1 == Some(0nat) && (shape.no_fields || shape.all_optional) && r is Ok
                ==> final(self)@ == old(self)@.subrange(
                header_spec(old(self)@).unwrap().2 as int,
                old(self)@.len() as int,
            ),
    {
        let (mut inner, streaming) = self.parse_constructed_contents(tag, true)?;
        let value = if shape.no_fields || (shape.all_optional && inner.remaining_len() == 0) {
            match default {
                Some(d) => d,
                None => {
                    return Err(DecodeError::UnexpectedEmptyInput);
                },
            }
        } else {
            T::decode_fields(&mut inner)?
        };
        self.finish_constructed_contents(&inner, streaming)?;
        Ok(value)
    }

    /// Reads a sequence-of with tag `tag`: items up to the end of a definite
    /// body, or up to the end-of-contents marker of an indefinite one. An item
    /// that does not decode ends the list, and the body must end there.
    pub fn decode_sequence_of<T: BerDecode>(&mut self, tag: Tag) -> (r: Result<
        Vec<T>,
        DecodeError,
    >)
        requires
            old(self).wf(),
        ensures
            final(self).wf(),
            !opens_constructed(old(self)@, tag, old(self).rules() is Der) ==> r is Err,
            opens_constructed(old(self)@, tag, old(self).rules() is Der) && header_spec(
                old(self)@,
            ).unwrap().1 == Some(0nat) ==> (r matches Ok(v) && v@.len() == 0) && final(self)@
                == old(self)@.subrange(header_spec(old(self)@).unwrap().2 as int, old(self)@.len() as int),
    {
        let (mut inner, streaming) = self.parse_constructed_contents(tag, true)?;
        let mut items: Vec<T> = Vec::new();
        let ghost empty_body = inner@.len() == 0;
        while inner.remaining_len() > 0
            invariant
                inner.wf(),
                empty_body ==> inner@.len() == 0 && items@.len() == 0,
            decreases inner@.len(),
        {
            match T::decode_ber(&mut inner) {
                Ok(item) => items.push(item),
                Err(_) => break,
            }
        }
        self.finish_constructed_contents(&inner, streaming)?;
        Ok(items)
    }
}

} // verus!
