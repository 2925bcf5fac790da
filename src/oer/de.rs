//! Octet encoding rules decoder. It reads every encoding the canonical encoder
//! writes, and also the basic variant's booleans (any non-zero octet is true).
use super::{size_and_sign, visible_size, visible_value};
use crate::bits::{bytes_for_bits, mask_last, unused_bits, BitString};
use crate::bytes::{lemma_pow256_mono, pow256, signed_of, unsigned_of};
use crate::constraints::{bounded_contains, size_contains, Bounded, Constraints};
use crate::error::DecodeError;
use crate::integer::Integer;
use vstd::prelude::*;

verus! {

/// Length determinant at the front of `s`: the length and the bytes it took.
/// The long form needs at least one length byte, and the length must fit `usize`.
pub open spec fn length_spec(s: Seq<u8>) -> Option<(nat, nat)> {
    if s.len() == 0 {
        None
    } else if s[0] < 128 {
        Some((s[0] as nat, 1))
    } else {
        let k = (s[0] - 128) as nat;
        if k == 0 || s.len() < 1 + k || unsigned_of(s.subrange(1, (1 + k) as int)) > usize::MAX {
            None
        } else {
            Some((unsigned_of(s.subrange(1, (1 + k) as int)), 1 + k))
        }
    }
}

/// The number that `s` spells, signed or unsigned.
pub open spec fn fixed_value(signed: bool, s: Seq<u8>) -> int {
    if signed {
        signed_of(s)
    } else {
        unsigned_of(s) as int
    }
}

/// An integer at the front of `s` under the visible bound `b`: its value and
/// the bytes it took; none where the input is short or the value is out of bound.
pub open spec fn integer_decoding(b: Option<Bounded<i128>>, s: Seq<u8>) -> Option<(int, nat)> {
    let sw = match b {
        None => (true, None::<u8>),
        Some(bound) => size_and_sign(bound),
    };
    let got: Option<(int, nat)> = match sw.1 {
        Some(w) => if s.len() >= w {
            Some((fixed_value(sw.0, s.subrange(0, w as int)), w as nat))
        } else {
            None
        },
        None => match length_spec(s) {
            Some((n, c)) => if n >= 1 && s.len() >= c + n {
                Some((fixed_value(sw.0, s.subrange(c as int, (c + n) as int)), c + n))
            } else {
                None
            },
            None => None,
        },
    };
    match got {
        Some((v, c)) => if b is None || bounded_contains(b.unwrap(), v) {
            Some((v, c))
        } else {
            None
        },
        None => None,
    }
}

/// An octet string at the front of `s` under the visible size `sz`.
pub open spec fn octet_string_decoding(sz: Option<Bounded<usize>>, s: Seq<u8>) -> Option<
    (Seq<u8>, nat),
> {
    let got: Option<(Seq<u8>, nat)> = match sz {
        Some(Bounded::Single(n)) => if s.len() >= n {
            Some((s.subrange(0, n as int), n as nat))
        } else {
            None
        },
        _ => match length_spec(s) {
            Some((n, c)) => if s.len() >= c + n {
                Some((s.subrange(c as int, (c + n) as int), c + n))
            } else {
                None
            },
            None => None,
        },
    };
    match got {
        Some((v, c)) => if sz is None || size_contains(sz.unwrap(), v.len() as int) {
            Some((v, c))
        } else {
            None
        },
        None => None,
    }
}

/// A bit string at the front of `s` under the visible size `sz`: its bytes
/// with unused bits cleared, its bit count, and the bytes taken.
pub open spec fn bit_string_decoding(sz: Option<Bounded<usize>>, s: Seq<u8>) -> Option<
    (Seq<u8>, nat, nat),
> {
    let got: Option<(Seq<u8>, nat, nat)> = match sz {
        Some(Bounded::Single(n)) => {
            let nb = bytes_for_bits(n as nat);
            if s.len() >= nb && nb * 8 <= usize::MAX {
                Some((mask_last(s.subrange(0, nb as int), unused_bits(n as nat)), n as nat, nb))
            } else {
                None
            }
        },
        _ => match length_spec(s) {
            Some((l, c)) => if l >= 1 && s.len() >= c + l && s[c as int] <= 7 && (l == 1 ==> s[c as int]
                == 0) && (l - 1) * 8 <= usize::MAX {
                Some(
                    (
                        mask_last(s.subrange((c + 1) as int, (c + l) as int), s[c as int] as nat),
                        ((l - 1) * 8 - s[c as int]) as nat,
                        c + l,
                    ),
                )
            } else {
                None
            },
            None => None,
        },
    };
    match got {
        Some((b, n, c)) => if sz is None || size_contains(sz.unwrap(), n as int) {
            got
        } else {
            None
        },
        None => None,
    }
}

/// An enumerated value at the front of `s`.
pub open spec fn enumerated_decoding(s: Seq<u8>) -> Option<(int, nat)> {
    if s.len() == 0 {
        None
    } else if s[0] < 128 {
        Some((s[0] as int, 1))
    } else {
        let k = (s[0] - 128) as nat;
        if k == 0 || k > 8 || s.len() < 1 + k {
            None
        } else {
            Some((signed_of(s.subrange(1, (1 + k) as int)), 1 + k))
        }
    }
}

/// `ceil(n / 8)` as the decoder computes it.
pub proof fn lemma_bytes_for_bits(n: nat)
    ensures
        bytes_for_bits(n) == n / 8 + if n % 8 == 0 {
            0nat
        } else {
            1nat
        },
        n % 8 == 0 ==> unused_bits(n) == 0,
        n % 8 != 0 ==> unused_bits(n) == 8 - n % 8,
{
    vstd::arithmetic::div_mod::lemma_fundamental_div_mod(n as int, 8);
    vstd::arithmetic::div_mod::lemma_mod_bound(n as int, 8);
    let q = n as int / 8;
    let r = n as int % 8;
    if r == 0 {
        vstd::arithmetic::div_mod::lemma_fundamental_div_mod_converse((n + 7) as int, 8, q, 7);
    } else {
        vstd::arithmetic::div_mod::lemma_fundamental_div_mod_converse((n + 7) as int, 8, q + 1, r - 1);
    }
}

/// A decoder over a byte string; its view is what is left to read.
pub struct Decoder {
    input: Vec<u8>,
    pos: usize,
}

impl View for Decoder {
    type V = Seq<u8>;

    closed spec fn view(&self) -> Seq<u8> {
        self.input@.subrange(self.pos as int, self.input@.len() as int)
    }
}

impl Decoder {
    pub closed spec fn wf(&self) -> bool {
        self.pos <= self.input@.len()
    }

    pub fn new(input: &[u8]) -> (r: Decoder)
        ensures
            r.wf(),
            r@ == input@,
    {
        let d = Decoder { input: crate::integer::copy_bytes(input), pos: 0 };
        proof {
            assert(d.input@.subrange(0, d.input@.len() as int) =~= input@);
        }
        d
    }

    /// What is left to read.
    pub fn remaining_bytes(&self) -> (r: Vec<u8>)
        requires
            self.wf(),
        ensures
            r@ == self@,
    {
        crate::bytes::copy_range(self.input.as_slice(), self.pos, self.input.len())
    }

    /// How many bytes are left to read.
    pub fn remaining_len(&self) -> (r: usize)
        requires
            self.wf(),
        ensures
            r == self@.len(),
    {
        self.input.len() - self.pos
    }

    /// Takes the next `n` bytes.
    pub fn take(&mut self, n: usize) -> (r: Result<Vec<u8>, DecodeError>)
        requires
            old(self).wf(),
        ensures
            final(self).wf(),
            r.is_ok() == (n <= old(self)@.len()),
            r matches Ok(v) ==> v@ == old(self)@.subrange(0, n as int) && final(self)@
                == old(self)@.subrange(n as int, old(self)@.len() as int),
            r.is_err() ==> final(self)@ == old(self)@,
    {
        if n > self.input.len() - self.pos {
            return Err(DecodeError::Incomplete { needed: n - (self.input.len() - self.pos) });
        }
        let start = self.pos;
        let out = crate::bytes::copy_range(self.input.as_slice(), start, start + n);
        self.pos = self.pos + n;
        proof {
            assert(out@ =~= old(self)@.subrange(0, n as int));
            assert(self@ =~= old(self)@.subrange(n as int, old(self)@.len() as int));
        }
        Ok(out)
    }

    /// Takes the next byte.
    pub fn parse_one_byte(&mut self) -> (r: Result<u8, DecodeError>)
        requires
            old(self).wf(),
        ensures
            final(self).wf(),
            r.is_ok() == (old(self)@.len() >= 1),
            r matches Ok(b) ==> b == old(self)@[0] && final(self)@ == old(self)@.drop_first(),
            r.is_err() ==> final(self)@ == old(self)@,
    {
        if self.pos >= self.input.len() {
            return Err(DecodeError::Incomplete { needed: 1 });
        }
        let b = self.input[self.pos];
        self.pos = self.pos + 1;
        proof {
            assert(self@ =~= old(self)@.drop_first());
        }
        Ok(b)
    }

    /// Reads a length determinant.
    pub fn decode_length(&mut self) -> (r: Result<usize, DecodeError>)
        requires
            old(self).wf(),
        ensures
            final(self).wf(),
            r.is_ok() == length_spec(old(self)@).is_some(),
            r matches Ok(n) ==> n == length_spec(old(self)@).unwrap().0 && final(self)@ == old(
                self,
            )@.subrange(length_spec(old(self)@).unwrap().1 as int, old(self)@.len() as int),
    {
        let ghost s = self@;
        let first = self.parse_one_byte()?;
        if first < 128 {
            return Ok(first as usize);
        }
        let k: usize = (first - 128) as usize;
        if k == 0 {
            return Err(DecodeError::InvalidLength);
        }
        let bytes = self.take(k)?;
        proof {
            assert(bytes@ =~= s.subrange(1, 1 + k));
            assert(self@ =~= s.subrange(1 + k, s.len() as int));
        }
        match crate::bytes::unsigned_usize(bytes.as_slice()) {
            Some(v) => Ok(v),
            None => Err(DecodeError::ExceedsMaxLength),
        }
    }

    /// Reads a boolean: any non-zero octet is true.
    pub fn decode_bool(&mut self) -> (r: Result<bool, DecodeError>)
        requires
            old(self).wf(),
        ensures
            final(self).wf(),
            r.is_ok() == (old(self)@.len() >= 1),
            r matches Ok(b) ==> b == (old(self)@[0] != 0) && final(self)@ == old(
                self,
            )@.drop_first(),
    {
        let b = self.parse_one_byte()?;
        Ok(b > 0)
    }

    /// Reads `length` bytes of contents.
    pub fn extract_data_by_length(&mut self, length: usize) -> (r: Result<Vec<u8>, DecodeError>)
        requires
            old(self).wf(),
        ensures
            final(self).wf(),
            r.is_ok() == (length <= old(self)@.len()),
            r matches Ok(v) ==> v@ == old(self)@.subrange(0, length as int) && final(self)@ == old(
                self,
            )@.subrange(length as int, old(self)@.len() as int),
    {
        self.take(length)
    }

    /// Reads an integer under the octet-visible value constraint of `constraints`.
    pub fn decode_integer_with_constraints(&mut self, constraints: &Constraints) -> (r: Result<
        Integer,
        DecodeError,
    >)
        requires
            old(self).wf(),
        ensures
            final(self).wf(),
            r.is_ok() == integer_decoding(visible_value(constraints@), old(self)@).is_some(),
            r matches Ok(v) ==> v.wf() && v@ == integer_decoding(
                visible_value(constraints@),
                old(self)@,
            ).unwrap().0 && final(self)@ == old(self)@.subrange(
                integer_decoding(visible_value(constraints@), old(self)@).unwrap().1 as int,
                old(self)@.len() as int,
            ),
    {
        let ghost s = self@;
        let mut bound: Option<Bounded<i128>> = None;
        match constraints.value() {
            Some(vc) => {
                if vc.extensible.is_none() {
                    bound = Some(vc.constraint.value);
                }
            },
            None => {},
        }
        proof {
            assert(bound == visible_value(constraints@));
        }
        let (signed, width) = match bound {
            Some(b) => super::enc::determine_integer_size_and_sign(&b),
            None => (true, None),
        };
        let bytes = match width {
            Some(w) => self.take(w as usize)?,
            None => {
                let n = self.decode_length()?;
                if n == 0 {
                    return Err(DecodeError::UnexpectedEmptyInput);
                }
                let b = self.take(n)?;
                proof {
                    let c = length_spec(s).unwrap().1;
                    assert(b@ =~= s.subrange(c as int, (c + n) as int));
                    assert(self@ =~= s.subrange((c + n) as int, s.len() as int));
                }
                b
            },
        };
        let value = if signed {
            Integer::from_signed_bytes(bytes.as_slice())
        } else {
            Integer::from_unsigned_bytes(bytes.as_slice())
        };
        match bound {
            Some(b) => {
                if !b.in_bound(&value) {
                    return Err(DecodeError::ValueOutOfRange);
                }
            },
            None => {},
        }
        Ok(value)
    }

    /// Reads an octet string under the octet-visible size constraint of
    /// `constraints`.
    pub fn decode_octet_string(&mut self, constraints: &Constraints) -> (r: Result<
        Vec<u8>,
        DecodeError,
    >)
        requires
            old(self).wf(),
        ensures
            final(self).wf(),
            r.is_ok() == octet_string_decoding(visible_size(constraints@), old(self)@).is_some(),
            r matches Ok(v) ==> v@ == octet_string_decoding(
                visible_size(constraints@),
                old(self)@,
            ).unwrap().0 && final(self)@ == old(self)@.subrange(
                octet_string_decoding(visible_size(constraints@), old(self)@).unwrap().1 as int,
                old(self)@.len() as int,
            ),
    {
        let ghost s = self@;
        let mut size: Option<Bounded<usize>> = None;
        match constraints.size() {
            Some(sc) => {
                if sc.extensible.is_none() {
                    size = Some(sc.constraint.0);
                }
            },
            None => {},
        }
        proof {
            assert(size == visible_size(constraints@));
        }
        let data = match size {
            Some(Bounded::Single(n)) => self.take(n)?,
            _ => {
                let n = self.decode_length()?;
                let b = self.take(n)?;
                proof {
                    let c = length_spec(s).unwrap().1;
                    assert(b@ =~= s.subrange(c as int, (c + n) as int));
                    assert(self@ =~= s.subrange((c + n) as int, s.len() as int));
                }
                b
            },
        };
        match size {
            Some(b) => {
                if !b.contains(&data.len()) {
                    return Err(DecodeError::NotInSizeConstraintRange { length: data.len() });
                }
            },
            None => {},
        }
        Ok(data)
    }

    /// Reads a bit string under the octet-visible size constraint of
    /// `constraints`: the padded bytes alone under a fixed size, else the
    /// length, the count of unused bits, and the bytes.
    pub fn decode_bit_string(&mut self, constraints: &Constraints) -> (r: Result<
        BitString,
        DecodeError,
    >)
        requires
            old(self).wf(),
        ensures
            final(self).wf(),
            r.is_ok() == bit_string_decoding(visible_size(constraints@), old(self)@).is_some(),
            r matches Ok(b) ==> b.wf() && (b.bytes@, b.bit_len as nat, (old(self)@.len()
                - final(self)@.len()) as nat) == bit_string_decoding(
                visible_size(constraints@),
                old(self)@,
            ).unwrap(),
    {
        let ghost s = self@;
        let mut size: Option<Bounded<usize>> = None;
        match constraints.size() {
            Some(sc) => {
                if sc.extensible.is_none() {
                    size = Some(sc.constraint.0);
                }
            },
            None => {},
        }
        let bits = match size {
            Some(Bounded::Single(n)) => {
                let nbytes: usize = n / 8 + if n % 8 == 0 {
                    0
                } else {
                    1
                };
                let data = self.take(nbytes)?;
                proof {
                    lemma_bytes_for_bits(n as nat);
                }
                if data.len() > usize::MAX / 8 {
                    return Err(DecodeError::ExceedsMaxLength);
                }
                let unused: u8 = if n % 8 == 0 {
                    0
                } else {
                    (8 - n % 8) as u8
                };
                match BitString::from_bytes_with_unused(data, unused) {
                    Some(b) => b,
                    None => {
                        return Err(DecodeError::InvalidBitString { bits: unused });
                    },
                }
            },
            _ => {
                let n = self.decode_length()?;
                if n == 0 {
                    return Err(DecodeError::UnexpectedEmptyInput);
                }
                let unused = self.parse_one_byte()?;
                let data = self.take(n - 1)?;
                proof {
                    let c = length_spec(s).unwrap().1;
                    assert(unused == s[c as int]);
                    assert(data@ =~= s.subrange((c + 1) as int, (c + n) as int));
                }
                if data.len() > usize::MAX / 8 {
                    return Err(DecodeError::ExceedsMaxLength);
                }
                match BitString::from_bytes_with_unused(data, unused) {
                    Some(b) => b,
                    None => {
                        return Err(DecodeError::InvalidBitString { bits: unused });
                    },
                }
            },
        };
        match size {
            Some(b) => {
                if !b.contains(&bits.len()) {
                    return Err(DecodeError::NotInSizeConstraintRange { length: bits.len() });
                }
            },
            None => {},
        }
        Ok(bits)
    }

    /// Reads an enumerated value.
    pub fn decode_enumerated(&mut self) -> (r: Result<i64, DecodeError>)
        requires
            old(self).wf(),
        ensures
            final(self).wf(),
            r.is_ok() == enumerated_decoding(old(self)@).is_some(),
            r matches Ok(d) ==> d == enumerated_decoding(old(self)@).unwrap().0 && final(self)@
                == old(self)@.subrange(
                enumerated_decoding(old(self)@).unwrap().1 as int,
                old(self)@.len() as int,
            ),
    {
        let ghost s = self@;
        let first = self.parse_one_byte()?;
        if first < 128 {
            return Ok(first as i64);
        }
        let k: usize = (first - 128) as usize;
        if k == 0 || k > 8 {
            return Err(DecodeError::InvalidLength);
        }
        let bytes = self.take(k)?;
        proof {
            assert(bytes@ =~= s.subrange(1, 1 + k));
            assert(self@ =~= s.subrange(1 + k, s.len() as int));
            crate::bytes::lemma_signed_range(bytes@);
            lemma_pow256_mono((k - 1) as nat, 7);
            assert(pow256(7) == 0x100000000000000) by {
                reveal_with_fuel(pow256, 8);
            }
        }
        let v = crate::bytes::signed_value_i128(bytes.as_slice());
        Ok(v as i64)
    }

    /// Reads an object identifier: the length of its contents, then the
    /// contents as base-128 numbers, the first packing the first two arcs.
    pub fn decode_object_identifier(&mut self) -> (r: Result<Vec<u32>, DecodeError>)
        requires
            old(self).wf(),
        ensures
            final(self).wf(),
            r.is_ok() == (octet_string_decoding(None, old(self)@) matches Some((c, _))
                && crate::ber::de::oid_arcs_spec(c) is Some),
            r matches Ok(v) ==> v@ == crate::ber::de::oid_arcs_spec(
                octet_string_decoding(None, old(self)@).unwrap().0,
            ).unwrap() && final(self)@ == old(self)@.subrange(
                octet_string_decoding(None, old(self)@).unwrap().1 as int,
                old(self)@.len() as int,
            ),
    {
        let ghost s = self@;
        let n = self.decode_length()?;
        let contents = self.take(n)?;
        proof {
            let c = length_spec(s).unwrap().1;
            assert(contents@ =~= s.subrange(c as int, (c + n) as int));
            assert(self@ =~= s.subrange((c + n) as int, s.len() as int));
        }
        crate::ber::de::decode_object_identifier_from_bytes(contents.as_slice())
    }

    /// Null takes no bytes.
    pub fn decode_null(&mut self) -> (r: Result<(), DecodeError>)
        requires
            old(self).wf(),
        ensures
            final(self).wf(),
            final(self)@ == old(self)@,
            r.is_ok(),
    {
        Ok(())
    }
}

} // verus!
