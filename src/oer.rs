//! Octet encoding rules: a canonical encoder and a decoder that reads what it
//! writes. The functions below state the wire form of each kind of value.
pub mod choice;
pub mod config;
pub mod de;
pub mod enc;
pub mod roundtrip;
pub mod sequence;
pub mod set;
pub mod value;

use crate::bits::unused_bits;
use crate::bytes::{min_signed, min_unsigned, pow256};
use crate::constraints::{first_size, first_value, Bounded, Constraint, Constraints};
use crate::error::{DecodeError, EncodeError};
use crate::tag::b128;
use vstd::prelude::*;

verus! {

/// Length determinant: one byte below 128; else `0x80 | k` and the `k`
/// minimal big-endian bytes of the length.
pub open spec fn length_determinant(n: nat) -> Seq<u8> {
    if n < 128 {
        seq![n as u8]
    } else {
        seq![(128 + min_unsigned(n).len()) as u8] + min_unsigned(n)
    }
}

/// A length determinant, or, where the long form is forced on a length below
/// 128, the single byte `0x80 | n`.
pub open spec fn length_prefix(n: nat, forced_long_form: bool) -> Seq<u8> {
    if forced_long_form && n < 128 {
        seq![(128 + n) as u8]
    } else {
        length_determinant(n)
    }
}

/// The minimal bytes of `v`, signed or unsigned.
pub open spec fn integer_body(signed: bool, v: int) -> Seq<u8> {
    if signed {
        min_signed(v)
    } else {
        min_unsigned(v as nat)
    }
}

/// An integer with no fixed width: its length, then its minimal bytes.
pub open spec fn unconstrained_integer(signed: bool, v: int, forced_long_form: bool) -> Seq<u8> {
    length_prefix(integer_body(signed, v).len(), forced_long_form) + integer_body(signed, v)
}

/// `body` widened on the left to `width` bytes with `fill`.
pub open spec fn padded(body: Seq<u8>, width: nat, fill: u8) -> Seq<u8> {
    Seq::new((width - body.len()) as nat, |_i: int| fill) + body
}

/// An integer in exactly `width` bytes, sign-extended where signed.
pub open spec fn fixed_integer(signed: bool, v: int, width: nat) -> Seq<u8> {
    padded(
        integer_body(signed, v),
        width,
        if signed && v < 0 {
            0xffu8
        } else {
            0u8
        },
    )
}

/// The first of 1, 2, 4 and 8 octets for which `fits` holds.
pub open spec fn narrowest(fits: spec_fn(nat) -> bool) -> Option<u8> {
    if fits(1) {
        Some(1u8)
    } else if fits(2) {
        Some(2u8)
    } else if fits(4) {
        Some(4u8)
    } else if fits(8) {
        Some(8u8)
    } else {
        None
    }
}

/// Signedness and fixed width that a value bound selects: for a closed range
/// starting at zero or above, unsigned and the narrowest width whose unsigned
/// range holds its end; for a closed range starting below zero, signed and
/// the narrowest width whose signed range holds both ends; no width for an
/// open bound, a single value, or a range no width holds.
pub open spec fn size_and_sign(b: Bounded<i128>) -> (bool, Option<u8>) {
    match b {
        Bounded::Range { start: Some(s), end: Some(e) } => {
            if s >= 0 {
                (false, narrowest(|w: nat| e < pow256(w)))
            } else {
                (
                    true,
                    narrowest(
                        |w: nat|
                            -128 * pow256((w - 1) as nat) <= s && e < 128 * pow256((w - 1) as nat),
                    ),
                )
            }
        },
        Bounded::Range { start: Some(s), end: None } => (s < 0, None),
        Bounded::Single(v) => (v < 0, None),
        _ => (true, None),
    }
}

/// The value bound that the octet encoding sees: the first value constraint,
/// unless it is extensible.
pub open spec fn visible_value(cs: Seq<Constraint>) -> Option<Bounded<i128>> {
    match first_value(cs) {
        Some(e) => if e.extensible.is_none() {
            Some(e.constraint.value)
        } else {
            None
        },
        None => None,
    }
}

/// The size bound that the octet encoding sees: the first size constraint,
/// unless it is extensible.
pub open spec fn visible_size(cs: Seq<Constraint>) -> Option<Bounded<usize>> {
    match first_size(cs) {
        Some(e) => if e.extensible.is_none() {
            Some(e.constraint.0)
        } else {
            None
        },
        None => None,
    }
}

/// The encoding of the integer `v` under the visible bound `b`.
pub open spec fn integer_encoding(b: Option<Bounded<i128>>, v: int) -> Seq<u8> {
    match b {
        None => unconstrained_integer(true, v, false),
        Some(bound) => match size_and_sign(bound).1 {
            Some(w) => fixed_integer(size_and_sign(bound).0, v, w as nat),
            None => unconstrained_integer(size_and_sign(bound).0, v, false),
        },
    }
}

/// An octet string: bare under a fixed size, length-prefixed otherwise.
pub open spec fn octet_string_encoding(sz: Option<Bounded<usize>>, v: Seq<u8>) -> Seq<u8> {
    match sz {
        Some(Bounded::Single(_)) => v,
        _ => length_determinant(v.len()) + v,
    }
}

/// A bit string given as its padded bytes and its bit count: bare under a fixed
/// size, else length-prefixed with a leading count of unused bits.
pub open spec fn bit_string_encoding(sz: Option<Bounded<usize>>, bytes: Seq<u8>, bit_len: nat) -> Seq<
    u8,
> {
    match sz {
        Some(Bounded::Single(_)) => bytes,
        _ => length_determinant(bytes.len() + 1) + seq![unused_bits(bit_len) as u8] + bytes,
    }
}

/// An enumerated value: one byte for `0..=127`, else the long-form length of
/// its signed bytes and those bytes.
pub open spec fn enumerated_encoding(d: int) -> Seq<u8> {
    if 0 <= d <= 127 {
        seq![d as u8]
    } else {
        unconstrained_integer(true, d, true)
    }
}

/// Arcs that form an object identifier whose first two arcs pack into one number.
pub open spec fn oid_valid(arcs: Seq<u32>) -> bool {
    &&& arcs.len() >= 2
    &&& arcs[0] <= 2
    &&& arcs[0] < 2 ==> arcs[1] <= 39
    &&& arcs[0] * 40 + arcs[1] <= u32::MAX
}

/// Base-128 encodings of the arcs, one after the other.
pub open spec fn arcs_b128(arcs: Seq<u32>) -> Seq<u8>
    decreases arcs.len(),
{
    if arcs.len() == 0 {
        Seq::empty()
    } else {
        arcs_b128(arcs.drop_last()) + b128(arcs.last() as nat)
    }
}

/// Contents of an object identifier: `40 * first + second`, then the other arcs.
pub open spec fn oid_content(arcs: Seq<u32>) -> Seq<u8> {
    b128((arcs[0] * 40 + arcs[1]) as nat) + arcs_b128(arcs.subrange(2, arcs.len() as int))
}

/// An object identifier: the length of its contents, then the contents.
pub open spec fn oid_encoding(arcs: Seq<u32>) -> Seq<u8> {
    length_determinant(oid_content(arcs).len()) + oid_content(arcs)
}

/// Minimal unsigned bytes of a number below `256^n` take at most `n` bytes.
pub proof fn lemma_min_unsigned_len(v: nat, n: nat)
    requires
        n >= 1,
        v < pow256(n),
    ensures
        min_unsigned(v).len() <= n,
    decreases v,
{
    if v >= 256 {
        if n == 1 {
            assert(pow256(1) == 256) by {
                reveal_with_fuel(pow256, 2);
            }
        }
        assert(pow256(n) == 256 * pow256((n - 1) as nat));
        lemma_min_unsigned_len(v / 256, (n - 1) as nat);
    }
}

/// Minimal signed bytes of a number in `[-128 * 256^(n-1), 128 * 256^(n-1))`
/// take at most `n` bytes.
pub proof fn lemma_min_signed_len(v: int, n: nat)
    requires
        n >= 1,
        -128 * pow256((n - 1) as nat) <= v < 128 * pow256((n - 1) as nat),
    ensures
        min_signed(v).len() <= n,
    decreases n,
{
    if !(-128 <= v < 128) {
        if n == 1 {
            assert(pow256(0) == 1);
        }
        assert(n >= 2);
        let q = pow256((n - 2) as nat) as int;
        assert(pow256((n - 1) as nat) == 256 * q);
        vstd::arithmetic::div_mod::lemma_fundamental_div_mod(v, 256);
        vstd::arithmetic::div_mod::lemma_mod_bound(v, 256);
        let d = v / 256;
        assert(-128 * q <= d < 128 * q) by (nonlinear_arith)
            requires
                v == 256 * d + v % 256,
                0 <= v % 256 < 256,
                -128 * (256 * q) <= v < 128 * (256 * q),
        ;
        lemma_min_signed_len(d, (n - 1) as nat);
    }
}

/// Encodes a value with no constraints.
pub fn encode<T: value::OerType>(value: &T) -> (r: Result<Vec<u8>, EncodeError>)
    requires
        value.wf(),
    ensures
        r.is_ok() == value.admissible(Seq::empty()),
        r matches Ok(v) ==> v@ == value.encoding(Seq::empty()),
{
    let c = Constraints::default();
    proof {
        assert(c@ =~= Seq::<Constraint>::empty());
    }
    encode_with_constraints(&c, value)
}

/// Encodes a value under `constraints`; a value outside its octet-visible
/// constraints is refused.
pub fn encode_with_constraints<T: value::OerType>(constraints: &Constraints, value: &T) -> (r: Result<
    Vec<u8>,
    EncodeError,
>)
    requires
        value.wf(),
    ensures
        r.is_ok() == value.admissible(constraints@),
        r matches Ok(v) ==> v@ == value.encoding(constraints@),
{
    let mut enc = enc::Encoder::new();
    value.encode_into(&mut enc, constraints)?;
    proof {
        assert(enc@ =~= value.encoding(constraints@));
    }
    Ok(enc.output())
}

/// Decodes a value with no constraints from the front of `input`.
pub fn decode<T: value::OerType>(input: &[u8]) -> (r: Result<T, DecodeError>)
    ensures
        r.is_ok() == T::decoding(Seq::empty(), input@) is Some,
        r matches Ok(v) ==> v.wf() && v.value_of() == T::decoding(Seq::empty(), input@).unwrap().0,
{
    let c = Constraints::default();
    proof {
        assert(c@ =~= Seq::<Constraint>::empty());
    }
    decode_with_constraints(&c, input)
}

/// Decodes a value under `constraints` from the front of `input`.
pub fn decode_with_constraints<T: value::OerType>(constraints: &Constraints, input: &[u8]) -> (r:
    Result<T, DecodeError>)
    ensures
        r.is_ok() == T::decoding(constraints@, input@) is Some,
        r matches Ok(v) ==> v.wf() && v.value_of() == T::decoding(constraints@, input@).unwrap().0,
{
    let mut dec = de::Decoder::new(input);
    T::decode_from(&mut dec, constraints)
}

} // verus!
