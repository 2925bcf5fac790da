//! Canonical octet encoding rules encoder. Tags are written only where a
//! choice names its alternative.
use super::{
    arcs_b128, bit_string_encoding, enumerated_encoding, fixed_integer, integer_body,
    integer_encoding, lemma_min_signed_len, lemma_min_unsigned_len, length_determinant,
    length_prefix, octet_string_encoding, oid_content, oid_encoding, oid_valid, padded,
    size_and_sign, unconstrained_integer, visible_size, visible_value,
};
use crate::bits::{integer_to_bytes, BitString};
use crate::bytes::{lemma_min_unsigned_unique, min_unsigned, pow256, unsigned_bytes_u128};
use crate::constraints::{bounded_contains, size_contains, Bounded, Constraints};
use crate::error::EncodeError;
use crate::integer::Integer;
use crate::tag::{b128, encode_base128};
use vstd::prelude::*;

verus! {

/// Appends `s` to `out`.
pub fn append_bytes(out: &mut Vec<u8>, s: &[u8])
    ensures
        final(out)@ == old(out)@ + s@,
{
    let mut i: usize = 0;
    while i < s.len()
        invariant
            i <= s@.len(),
            out@ == old(out)@ + s@.subrange(0, i as int),
        decreases s@.len() - i,
    {
        out.push(s[i]);
        i = i + 1;
        proof {
            assert(out@ =~= old(out)@ + s@.subrange(0, i as int));
        }
    }
    proof {
        assert(s@.subrange(0, s@.len() as int) =~= s@);
    }
}

/// The signedness and fixed width that `bound` selects.
pub fn determine_integer_size_and_sign(bound: &Bounded<i128>) -> (r: (bool, Option<u8>))
    ensures
        r == size_and_sign(*bound),
{
    proof {
        reveal_with_fuel(pow256, 9);
    }
    match bound {
        Bounded::Range { start: Some(s), end: Some(e) } => {
            let s = *s;
            let e = *e;
            if s >= 0 {
                let w = if e <= 0xff {
                    Some(1u8)
                } else if e <= 0xffff {
                    Some(2u8)
                } else if e <= 0xffff_ffff {
                    Some(4u8)
                } else if e <= 0xffff_ffff_ffff_ffff {
                    Some(8u8)
                } else {
                    None
                };
                (false, w)
            } else {
                let w = if -0x80 <= s && e <= 0x7f {
                    Some(1u8)
                } else if -0x8000 <= s && e <= 0x7fff {
                    Some(2u8)
                } else if -0x8000_0000 <= s && e <= 0x7fff_ffff {
                    Some(4u8)
                } else if -0x8000_0000_0000_0000 <= s && e <= 0x7fff_ffff_ffff_ffff {
                    Some(8u8)
                } else {
                    None
                };
                (true, w)
            }
        },
        Bounded::Range { start: Some(s), end: None } => (*s < 0, None),
        Bounded::Single(v) => (*v < 0, None),
        _ => (true, None),
    }
}

/// Canonical octet encoding rules encoder; its view is the output so far.
pub struct Encoder {
    output: Vec<u8>,
}

impl View for Encoder {
    type V = Seq<u8>;

    closed spec fn view(&self) -> Seq<u8> {
        self.output@
    }
}

impl Encoder {
    pub fn new() -> (r: Encoder)
        ensures
            r@ == Seq::<u8>::empty(),
    {
        Encoder { output: Vec::new() }
    }

    pub fn default() -> (r: Encoder)
        ensures
            r@ == Seq::<u8>::empty(),
    {
        Self::new()
    }

    /// The bytes written so far.
    pub fn output(&self) -> (r: Vec<u8>)
        ensures
            r@ == self@,
    {
        crate::integer::copy_bytes(self.output.as_slice())
    }

    /// Appends `s` as it is.
    pub fn write_bytes(&mut self, s: &[u8])
        ensures
            final(self)@ == old(self)@ + s@,
    {
        append_bytes(&mut self.output, s);
    }

    /// `false` is `0x00`; the canonical `true` is `0xFF`.
    pub fn encode_bool(&mut self, value: bool)
        ensures
            final(self)@ == old(self)@ + seq![
                if value {
                    0xffu8
                } else {
                    0x00u8
                },
            ],
    {
        self.output.push(if value {
            0xffu8
        } else {
            0x00u8
        });
    }

    /// Writes the length of a value of `length` bytes.
    pub fn encode_length(&mut self, length: usize, forced_long_form: bool)
        ensures
            final(self)@ == old(self)@ + length_prefix(length as nat, forced_long_form),
    {
        if length < 128 {
            if forced_long_form {
                self.output.push((128 + length) as u8);
            } else {
                self.output.push(length as u8);
            }
        } else {
            let bytes = unsigned_bytes_u128(length as u128);
            proof {
                lemma_min_unsigned_unique(bytes@);
                assert(pow256(8) == 0x1_0000_0000_0000_0000) by {
                    reveal_with_fuel(pow256, 9);
                }
                lemma_min_unsigned_len(length as nat, 8);
            }
            self.output.push((128 + bytes.len()) as u8);
            append_bytes(&mut self.output, bytes.as_slice());
            proof {
                assert(self.output@ =~= old(self)@ + length_determinant(length as nat));
            }
        }
    }

    /// Writes the length of the minimal bytes of `value`, then those bytes; a
    /// negative value cannot be written unsigned.
    pub fn encode_unconstrained_integer(
        &mut self,
        value: &Integer,
        signed: bool,
        long_form_short_length: bool,
    ) -> (r: Result<(), EncodeError>)
        requires
            value.wf(),
        ensures
            r.is_ok() == (signed || value@ >= 0),
            r.is_ok() ==> final(self)@ == old(self)@ + unconstrained_integer(
                signed,
                value@,
                long_form_short_length,
            ),
            r.is_err() ==> final(self)@ == old(self)@ && r == Err::<(), EncodeError>(
                EncodeError::NegativeUnsigned,
            ),
    {
        match integer_to_bytes(value, signed) {
            Some(bytes) => {
                self.encode_length(bytes.len(), long_form_short_length);
                append_bytes(&mut self.output, bytes.as_slice());
                proof {
                    assert(self.output@ =~= old(self)@ + unconstrained_integer(
                        signed,
                        value@,
                        long_form_short_length,
                    ));
                }
                Ok(())
            },
            None => Err(EncodeError::NegativeUnsigned),
        }
    }

    /// Writes `value` in exactly `octets` bytes, sign-extended where signed.
    pub fn encode_integer_with_padding(&mut self, octets: i128, value: &Integer, signed: bool) -> (r:
        Result<(), EncodeError>)
        requires
            value.wf(),
            signed || value@ >= 0,
        ensures
            r.is_ok() == (octets <= 8 && integer_body(signed, value@).len() <= octets),
            r.is_ok() ==> final(self)@ == old(self)@ + fixed_integer(signed, value@, octets as nat),
            r.is_err() ==> final(self)@ == old(self)@,
            octets > 8 ==> r == Err::<(), EncodeError>(
                EncodeError::UnexpectedIntegerWidth { octets },
            ),
            octets <= 8 && integer_body(signed, value@).len() > octets ==> r == Err::<(), EncodeError>(
                EncodeError::MoreBytesThanExpected {
                    value: integer_body(signed, value@).len() as usize,
                    expected: if octets < 0 {
                        0usize
                    } else {
                        octets as usize
                    },
                },
            ),
    {
        if octets > 8 {
            return Err(EncodeError::UnexpectedIntegerWidth { octets });
        }
        let bytes = match integer_to_bytes(value, signed) {
            Some(b) => b,
            None => {
                return Err(EncodeError::NegativeUnsigned);
            },
        };
        if bytes.len() as i128 > octets {
            let expected: usize = if octets < 0 {
                0
            } else {
                octets as usize
            };
            return Err(EncodeError::MoreBytesThanExpected { value: bytes.len(), expected });
        }
        let fill: u8 = if signed && value.is_negative() {
            0xff
        } else {
            0
        };
        let pad: usize = octets as usize - bytes.len();
        let mut i: usize = 0;
        while i < pad
            invariant
                i <= pad,
                self.output@ =~= old(self)@ + Seq::new(i as nat, |_j: int| fill),
            decreases pad - i,
        {
            self.output.push(fill);
            i = i + 1;
        }
        append_bytes(&mut self.output, bytes.as_slice());
        proof {
            assert(self.output@ =~= old(self)@ + fixed_integer(signed, value@, octets as nat));
        }
        Ok(())
    }

    /// Writes `value` under the octet-visible value constraint of `constraints`:
    /// a fixed width where the bound selects one, else its length and minimal
    /// bytes. A value outside a visible bound is refused.
    pub fn encode_integer_with_constraints(&mut self, constraints: &Constraints, value: &Integer) -> (r:
        Result<(), EncodeError>)
        requires
            value.wf(),
        ensures
            r.is_ok() == (visible_value(constraints@) is None || bounded_contains(
                visible_value(constraints@).unwrap(),
                value@,
            )),
            r.is_ok() ==> final(self)@ == old(self)@ + integer_encoding(
                visible_value(constraints@),
                value@,
            ),
            r.is_err() ==> final(self)@ == old(self)@ && (r matches Err(
                EncodeError::IntegerOutOfRange { value: v, expected: b },
            ) && v.wf() && v@ == value@ && visible_value(constraints@) == Some(b)),
    {
        match constraints.value() {
            Some(vc) => {
                if vc.extensible.is_none() {
                    let bound = vc.constraint.value;
                    if !bound.in_bound(value) {
                        return Err(
                            EncodeError::IntegerOutOfRange { value: value.duplicate(), expected: bound },
                        );
                    }
                    let (signed, octets) = determine_integer_size_and_sign(&bound);
                    proof {
                        lemma_size_fits(bound, value@);
                    }
                    match octets {
                        Some(n) => {
                            let r = self.encode_integer_with_padding(n as i128, value, signed);
                            return r;
                        },
                        None => {
                            let r = self.encode_unconstrained_integer(value, signed, false);
                            return r;
                        },
                    }
                }
            },
            None => {},
        }
        self.encode_unconstrained_integer(value, true, false)
    }

    /// The same as [`Self::encode_integer_with_constraints`].
    pub fn encode_integer(&mut self, constraints: &Constraints, value: &Integer) -> (r: Result<
        (),
        EncodeError,
    >)
        requires
            value.wf(),
        ensures
            r.is_ok() == (visible_value(constraints@) is None || bounded_contains(
                visible_value(constraints@).unwrap(),
                value@,
            )),
            r.is_ok() ==> final(self)@ == old(self)@ + integer_encoding(
                visible_value(constraints@),
                value@,
            ),
            r.is_err() ==> final(self)@ == old(self)@ && (r matches Err(
                EncodeError::IntegerOutOfRange { value: v, expected: b },
            ) && v.wf() && v@ == value@ && visible_value(constraints@) == Some(b)),
    {
        self.encode_integer_with_constraints(constraints, value)
    }

    /// Null takes no bytes.
    pub fn encode_null(&mut self)
        ensures
            final(self)@ == old(self)@,
    {
    }

    /// Writes an octet string: bare under a fixed visible size, length-prefixed
    /// otherwise; a length outside a visible size bound is refused.
    pub fn encode_octet_string(&mut self, constraints: &Constraints, value: &[u8]) -> (r: Result<
        (),
        EncodeError,
    >)
        ensures
            r.is_ok() == (visible_size(constraints@) is None || size_contains(
                visible_size(constraints@).unwrap(),
                value@.len() as int,
            )),
            r.is_ok() ==> final(self)@ == old(self)@ + octet_string_encoding(
                visible_size(constraints@),
                value@,
            ),
            r.is_err() ==> final(self)@ == old(self)@ && r == Err::<(), EncodeError>(
                EncodeError::NotInSizeConstraintRange { length: value@.len() as usize },
            ),
    {
        match constraints.size() {
            Some(size) => {
                if size.extensible.is_none() {
                    if !size.constraint.0.contains(&value.len()) {
                        return Err(EncodeError::NotInSizeConstraintRange { length: value.len() });
                    }
                    if size.constraint.is_fixed() {
                        append_bytes(&mut self.output, value);
                        return Ok(());
                    }
                }
            },
            None => {},
        }
        self.encode_length(value.len(), false);
        append_bytes(&mut self.output, value);
        proof {
            assert(self.output@ =~= old(self)@ + length_determinant(value@.len()) + value@);
        }
        Ok(())
    }

    /// Writes a bit string: its padded bytes alone under a fixed visible size,
    /// else the length, the count of unused bits and the bytes.
    pub fn encode_bit_string(&mut self, constraints: &Constraints, value: &BitString) -> (r: Result<
        (),
        EncodeError,
    >)
        requires
            value.wf(),
        ensures
            r.is_ok() == (visible_size(constraints@) is None || size_contains(
                visible_size(constraints@).unwrap(),
                value.bit_len as int,
            )),
            r.is_ok() ==> final(self)@ == old(self)@ + bit_string_encoding(
                visible_size(constraints@),
                value.bytes@,
                value.bit_len as nat,
            ),
            r.is_err() ==> final(self)@ == old(self)@ && r == Err::<(), EncodeError>(
                EncodeError::NotInSizeConstraintRange { length: value.bit_len },
            ),
    {
        let bytes = value.as_bytes();
        match constraints.size() {
            Some(size) => {
                if size.extensible.is_none() {
                    if !size.constraint.0.contains(&value.len()) {
                        return Err(EncodeError::NotInSizeConstraintRange { length: value.len() });
                    }
                    if size.constraint.is_fixed() {
                        append_bytes(&mut self.output, bytes.as_slice());
                        return Ok(());
                    }
                }
            },
            None => {},
        }
        let unused: u8 = if value.len() % 8 == 0 {
            0
        } else {
            (8 - value.len() % 8) as u8
        };
        self.encode_length(bytes.len() + 1, false);
        self.output.push(unused);
        append_bytes(&mut self.output, bytes.as_slice());
        proof {
            assert(self.output@ =~= old(self)@ + bit_string_encoding(
                visible_size(constraints@),
                value.bytes@,
                value.bit_len as nat,
            ));
        }
        Ok(())
    }

    /// Writes an enumerated value: one byte for `0..=127`, else the long-form
    /// length of its signed bytes and those bytes.
    pub fn encode_enumerated(&mut self, discriminant: i64)
        ensures
            final(self)@ == old(self)@ + enumerated_encoding(discriminant as int),
    {
        let number = Integer::from_i64(discriminant);
        if 0 <= discriminant && discriminant <= 127 {
            proof {
                assert(min_unsigned(discriminant as nat) == seq![discriminant as u8]);
            }
            let r = self.encode_integer_with_padding(1, &number, false);
            proof {
                assert(fixed_integer(false, discriminant as int, 1) =~= seq![discriminant as u8]);
            }
        } else {
            let r = self.encode_unconstrained_integer(&number, true, true);
        }
    }

    /// Writes an object identifier: the length of its contents, then the
    /// base-128 number `40 * first + second` and the other arcs in base 128.
    pub fn encode_object_identifier(&mut self, value: &[u32]) -> (r: Result<(), EncodeError>)
        ensures
            r.is_ok() == oid_valid(value@),
            r.is_ok() ==> final(self)@ == old(self)@ + oid_encoding(value@),
            r.is_err() ==> final(self)@ == old(self)@ && r == Err::<(), EncodeError>(
                EncodeError::InvalidObjectIdentifier,
            ),
    {
        if value.len() < 2 || value[0] > 2 || (value[0] < 2 && value[1] > 39) {
            return Err(EncodeError::InvalidObjectIdentifier);
        }
        if value[1] > u32::MAX - value[0] * 40 {
            return Err(EncodeError::InvalidObjectIdentifier);
        }
        let mut content = encode_base128(value[0] * 40 + value[1]);
        let mut i: usize = 2;
        proof {
            assert(value@.subrange(2, 2).len() == 0);
            assert(arcs_b128(value@.subrange(2, 2)) =~= Seq::<u8>::empty());
            assert(content@ =~= b128((value@[0] * 40 + value@[1]) as nat) + arcs_b128(
                value@.subrange(2, 2),
            ));
        }
        while i < value.len()
            invariant
                2 <= i <= value@.len(),
                content@ == b128((value@[0] * 40 + value@[1]) as nat) + arcs_b128(
                    value@.subrange(2, i as int),
                ),
            decreases value@.len() - i,
        {
            let arc = encode_base128(value[i]);
            append_bytes(&mut content, arc.as_slice());
            proof {
                let t = value@.subrange(2, i as int + 1);
                assert(t.drop_last() =~= value@.subrange(2, i as int));
                assert(t.last() == value@[i as int]);
                assert(content@ =~= b128((value@[0] * 40 + value@[1]) as nat) + arcs_b128(t));
            }
            i = i + 1;
        }
        proof {
            assert(content@ == oid_content(value@));
        }
        self.encode_length(content.len(), false);
        append_bytes(&mut self.output, content.as_slice());
        proof {
            assert(self.output@ =~= old(self)@ + oid_encoding(value@));
        }
        Ok(())
    }
}

/// Within its bound, a value takes no more bytes than the width the bound
/// selects, and a bound that selects unsigned admits no negative value.
pub proof fn lemma_size_fits(b: Bounded<i128>, v: int)
    requires
        bounded_contains(b, v),
    ensures
        !size_and_sign(b).0 ==> v >= 0,
        size_and_sign(b).1 matches Some(w) ==> integer_body(size_and_sign(b).0, v).len() <= w,
{
    reveal_with_fuel(pow256, 9);
    match b {
        Bounded::Range { start: Some(s), end: Some(e) } => {
            if s >= 0 {
                if e <= 0xff {
                    lemma_min_unsigned_len(v as nat, 1);
                } else if e <= 0xffff {
                    lemma_min_unsigned_len(v as nat, 2);
                } else if e <= 0xffff_ffff {
                    lemma_min_unsigned_len(v as nat, 4);
                } else if e <= 0xffff_ffff_ffff_ffff {
                    lemma_min_unsigned_len(v as nat, 8);
                }
            } else {
                if -0x80 <= s && e <= 0x7f {
                    lemma_min_signed_len(v, 1);
                } else if -0x8000 <= s && e <= 0x7fff {
                    lemma_min_signed_len(v, 2);
                } else if -0x8000_0000 <= s && e <= 0x7fff_ffff {
                    lemma_min_signed_len(v, 4);
                } else if -0x8000_0000_0000_0000 <= s && e <= 0x7fff_ffff_ffff_ffff {
                    lemma_min_signed_len(v, 8);
                }
            }
        },
        _ => {},
    }
}

} // verus!
