//! Tag-length-value decoding. The functions over byte slices read one value
//! from the front of their input and say how many bytes it took; `Decoder`
//! walks a whole input with them.
use super::{
    DecoderOptions, EncodingRules, b128_len, identifier_spec, lemma_b128_len, lemma_b128_len_shape,
    length_spec,
};
use crate::bits::{bytes_for_bits, unused_bits, BitString};
use crate::bytes::{copy_range, signed_of, unsigned_usize};
use crate::error::DecodeError;
use crate::integer::{Integer, IntegerType};
use crate::time::{
    date_of, generalized_by_rules, utc_by_rules, Date, GeneralizedTime, UtcTime,
    parse_any_generalized_time_string, parse_any_utc_time_string,
    parse_canonical_generalized_time_string, parse_canonical_utc_time_string, parse_date_string,
};
use crate::tag::{class_from_bits, parse_base128, Identifier, Tag, TAG_BIT_STRING, TAG_OCTET_STRING};
use vstd::prelude::*;
use vstd::string::StringSliceAdditionalSpecFns;

verus! {

/// Identifier and length at the front of `s`: the identifier, the definite
/// length (none for indefinite), and the bytes both took.
pub open spec fn header_spec(s: Seq<u8>) -> Option<(Identifier, Option<nat>, nat)> {
    match identifier_spec(s) {
        Some((id, a)) => match length_spec(s.subrange(a as int, s.len() as int)) {
            Some((len, b)) => Some((id, len, a + b)),
            None => None,
        },
        None => None,
    }
}

/// The contents of a value with tag `tag` and a definite length at the front
/// of `s`, and the bytes the whole value took.
pub open spec fn primitive_spec(s: Seq<u8>, tag: Tag) -> Option<(Seq<u8>, nat)> {
    match header_spec(s) {
        Some((id, Some(n), h)) => if id.tag == tag && s.len() >= h + n {
            Some((s.subrange(h as int, (h + n) as int), h + n))
        } else {
            None
        },
        _ => None,
    }
}

/// A boolean at the front of `s`: `0x00` is false, `0xFF` true, and any other
/// octet is true only under the basic rules.
pub open spec fn bool_spec(s: Seq<u8>, tag: Tag, basic: bool) -> Option<(bool, nat)> {
    match primitive_spec(s, tag) {
        Some((c, n)) => if c.len() != 1 {
            None
        } else if c[0] == 0 {
            Some((false, n))
        } else if c[0] == 0xff || basic {
            Some((true, n))
        } else {
            None
        },
        None => None,
    }
}

/// Whether `v` fits in a signed word of `w` bytes.
pub open spec fn fits_signed(v: int, w: nat) -> bool {
    -128 * crate::bytes::pow256((w - 1) as nat) <= v < 128 * crate::bytes::pow256((w - 1) as nat)
}

/// Base-128 numbers one after the other; `acc` holds the digits read so far of
/// an unfinished number, and `pending` says whether there is one.
pub open spec fn b128_numbers(s: Seq<u8>, acc: nat, pending: bool) -> Option<Seq<u32>>
    decreases s.len(),
{
    if s.len() == 0 {
        if pending {
            None
        } else {
            Some(Seq::empty())
        }
    } else {
        let a = acc * 128 + (s[0] % 128) as nat;
        if a > u32::MAX {
            None
        } else if s[0] < 128 {
            match b128_numbers(s.drop_first(), 0, false) {
                Some(rest) => Some(seq![a as u32] + rest),
                None => None,
            }
        } else {
            b128_numbers(s.drop_first(), a, true)
        }
    }
}

/// The first two arcs packed in the leading number.
pub open spec fn split_root(root: u32) -> (u32, u32) {
    if root > 119 {
        (2u32, (root - 80) as u32)
    } else {
        ((root / 40) as u32, (root % 40) as u32)
    }
}

/// The arcs of an object identifier's contents.
pub open spec fn oid_arcs_spec(s: Seq<u8>) -> Option<Seq<u32>> {
    match b128_numbers(s, 0, false) {
        Some(ns) => if ns.len() == 0 {
            None
        } else {
            Some(seq![split_root(ns[0]).0, split_root(ns[0]).1] + ns.drop_first())
        },
        None => None,
    }
}

/// Which alphabet a restricted character string draws from.
#[derive(Debug, Clone, Copy, PartialEq, Eq)]
pub enum StringKind {
    /// Graphic ASCII and space.
    Visible,
    /// All of ASCII.
    Ia5,
    /// Digits and space.
    Numeric,
    /// Letters, digits, space and `'()+,-./:=?`.
    Printable,
    /// Two bytes per character.
    Bmp,
}

/// Whether the byte `b` belongs to the alphabet of `kind` (one byte per character).
pub open spec fn in_alphabet(kind: StringKind, b: u8) -> bool {
    match kind {
        StringKind::Visible => 0x20 <= b <= 0x7e,
        StringKind::Ia5 => b <= 0x7f,
        StringKind::Numeric => b == 0x20 || (0x30 <= b <= 0x39),
        StringKind::Printable => (0x41 <= b <= 0x5a) || (0x61 <= b <= 0x7a) || (0x30 <= b <= 0x39)
            || b == 0x20 || b == 0x27 || b == 0x28 || b == 0x29 || b == 0x2b || b == 0x2c || b == 0x2d
            || b == 0x2e || b == 0x2f || b == 0x3a || b == 0x3d || b == 0x3f,
        StringKind::Bmp => true,
    }
}

/// Whether `s` is a string of `kind`.
pub open spec fn fits_alphabet(kind: StringKind, s: Seq<u8>) -> bool {
    &&& kind is Bmp ==> s.len() % 2 == 0
    &&& forall|i: int| 0 <= i < s.len() ==> in_alphabet(kind, #[trigger] s[i])
}

pub fn byte_in_alphabet(kind: StringKind, b: u8) -> (r: bool)
    ensures
        r == in_alphabet(kind, b),
{
    match kind {
        StringKind::Visible => 0x20 <= b && b <= 0x7e,
        StringKind::Ia5 => b <= 0x7f,
        StringKind::Numeric => b == 0x20 || (0x30 <= b && b <= 0x39),
        StringKind::Printable => (0x41 <= b && b <= 0x5a) || (0x61 <= b && b <= 0x7a) || (0x30 <= b
            && b <= 0x39) || b == 0x20 || b == 0x27 || b == 0x28 || b == 0x29 || b == 0x2b || b
            == 0x2c || b == 0x2d || b == 0x2e || b == 0x2f || b == 0x3a || b == 0x3d || b == 0x3f,
        StringKind::Bmp => true,
    }
}

/// Whether `s` is a string of `kind`.
pub fn check_alphabet(kind: StringKind, s: &[u8]) -> (r: bool)
    ensures
        r == fits_alphabet(kind, s@),
{
    if matches!(kind, StringKind::Bmp) && s.len() % 2 != 0 {
        return false;
    }
    let mut i: usize = 0;
    while i < s.len()
        invariant
            i <= s@.len(),
            forall|j: int| 0 <= j < i ==> in_alphabet(kind, #[trigger] s@[j]),
        decreases s@.len() - i,
    {
        if !byte_in_alphabet(kind, s[i]) {
            return false;
        }
        i = i + 1;
    }
    true
}

/// Relies on `std::str::from_utf8`, which accepts exactly the well-formed UTF-8
/// byte strings, and on `str::to_owned`, which keeps the characters.
#[verifier::external_body]
fn utf8_string(bytes: &[u8]) -> (r: Option<String>)
    ensures
        r.is_some() == vstd::utf8::valid_utf8(bytes@),
        r matches Some(s) ==> s@ == vstd::utf8::decode_utf8(bytes@),
{
    match std::str::from_utf8(bytes) {
        Ok(s) => Some(s.to_owned()),
        Err(_) => None,
    }
}

/// Reads an identifier.
pub fn parse_identifier_octet(input: &[u8]) -> (r: Result<(Identifier, usize), DecodeError>)
    ensures
        r.is_ok() == identifier_spec(input@).is_some(),
        r matches Ok((id, n)) ==> (id, n as nat) == identifier_spec(input@).unwrap(),
        r matches Ok((_, n)) ==> 1 <= n <= input@.len(),
{
    if input.len() == 0 {
        return Err(DecodeError::Incomplete { needed: 1 });
    }
    let first = input[0];
    let class = class_from_bits(first / 64);
    let constructed = (first / 32) % 2 == 1;
    let low = first % 32;
    if low < 31 {
        return Ok((Identifier { tag: Tag { class, value: low as u32 }, is_constructed: constructed }, 1));
    }
    let rest = copy_range(input, 1, input.len());
    proof {
        assert(rest@ =~= input@.drop_first());
    }
    match parse_base128(rest.as_slice()) {
        Some((v, n)) => {
            proof {
                lemma_b128_len(rest@, n as int);
                assert(input@.subrange(1, 1 + n) =~= rest@.subrange(0, n as int));
            }
            Ok((Identifier { tag: Tag { class, value: v }, is_constructed: constructed }, 1 + n))
        },
        None => {
            proof {
                if b128_len(rest@) is Some {
                    lemma_b128_len_shape(rest@);
                    assert(input@.subrange(1, (1 + b128_len(rest@).unwrap()) as int) =~= rest@.subrange(
                        0,
                        b128_len(rest@).unwrap() as int,
                    ));
                }
            }
            Err(DecodeError::IntegerOverflow { max_width: 32 })
        },
    }
}

/// Reads a length: definite (`Some`) or indefinite (`None`).
pub fn parse_length(input: &[u8]) -> (r: Result<(Option<usize>, usize), DecodeError>)
    ensures
        r.is_ok() == length_spec(input@).is_some(),
        r matches Ok((l, n)) ==> n == length_spec(input@).unwrap().1 && (l is Some
            == length_spec(input@).unwrap().0 is Some) && (l matches Some(x) ==> x
            == length_spec(input@).unwrap().0.unwrap()),
        r matches Ok((_, n)) ==> 1 <= n <= input@.len(),
{
    if input.len() == 0 {
        return Err(DecodeError::Incomplete { needed: 1 });
    }
    let first = input[0];
    if first < 128 {
        return Ok((Some(first as usize), 1));
    }
    if first == 128 {
        return Ok((None, 1));
    }
    if first == 255 {
        return Err(DecodeError::InvalidLength);
    }
    let k: usize = (first - 128) as usize;
    if input.len() - 1 < k {
        return Err(DecodeError::Incomplete { needed: k - (input.len() - 1) });
    }
    let bytes = copy_range(input, 1, 1 + k);
    match unsigned_usize(bytes.as_slice()) {
        Some(v) => Ok((Some(v), 1 + k)),
        None => Err(DecodeError::ExceedsMaxLength),
    }
}

/// Reads an identifier and a length.
pub fn parse_header(input: &[u8]) -> (r: Result<(Identifier, Option<usize>, usize), DecodeError>)
    ensures
        r.is_ok() == header_spec(input@).is_some(),
        r matches Ok((id, l, n)) ==> id == header_spec(input@).unwrap().0 && n
            == header_spec(input@).unwrap().2 && (l is Some == header_spec(input@).unwrap().1 is Some)
            && (l matches Some(x) ==> x == header_spec(input@).unwrap().1.unwrap()) && 2 <= n
            <= input@.len(),
{
    let (id, a) = parse_identifier_octet(input)?;
    let rest = copy_range(input, a, input.len());
    let (len, b) = parse_length(rest.as_slice())?;
    proof {
        assert(rest@ == input@.subrange(a as int, input@.len() as int));
    }
    Ok((id, len, a + b))
}

/// Reads a value with tag `tag` and a definite length: its contents, and the
/// bytes the whole value took.
pub fn primitive_at(input: &[u8], tag: Tag) -> (r: Result<(Vec<u8>, usize), DecodeError>)
    ensures
        r.is_ok() == primitive_spec(input@, tag).is_some(),
        r matches Ok((c, n)) ==> (c@, n as nat) == primitive_spec(input@, tag).unwrap(),
        r matches Ok((_, n)) ==> 2 <= n <= input@.len(),
{
    let (id, len, h) = parse_header(input)?;
    if !id.tag.same(&tag) {
        return Err(DecodeError::MismatchedTag { expected: tag, actual: id.tag });
    }
    match len {
        Some(n) => {
            if input.len() - h < n {
                return Err(DecodeError::Incomplete { needed: n - (input.len() - h) });
            }
            Ok((copy_range(input, h, h + n), h + n))
        },
        None => Err(DecodeError::IndefiniteLengthNotAllowed),
    }
}

/// Reads a boolean.
pub fn bool_at(input: &[u8], tag: Tag, rules: EncodingRules) -> (r: Result<(bool, usize), DecodeError>)
    ensures
        r matches Ok((_, n)) ==> 2 <= n <= input@.len(),
        r.is_ok() == bool_spec(input@, tag, rules is Ber).is_some(),
        r matches Ok((b, n)) ==> (b, n as nat) == bool_spec(input@, tag, rules is Ber).unwrap(),
        primitive_spec(input@, tag) is Some && primitive_spec(input@, tag).unwrap().0.len() == 1
            && primitive_spec(input@, tag).unwrap().0[0] != 0 && primitive_spec(input@, tag).unwrap().0[0]
            != 0xff && !(rules is Ber) ==> r == Err::<(bool, usize), DecodeError>(
            DecodeError::InvalidBool { value: primitive_spec(input@, tag).unwrap().0[0] },
        ),
{
    let (c, n) = primitive_at(input, tag)?;
    if c.len() != 1 {
        return Err(DecodeError::MismatchedLength { expected: 1, actual: c.len() });
    }
    if c[0] == 0 {
        Ok((false, n))
    } else if c[0] == 0xff || rules.is_ber() {
        Ok((true, n))
    } else {
        Err(DecodeError::InvalidBool { value: c[0] })
    }
}

/// Reads an integer of any size.
pub fn integer_at(input: &[u8], tag: Tag) -> (r: Result<(Integer, usize), DecodeError>)
    ensures
        r matches Ok((_, n)) ==> 2 <= n <= input@.len(),
        r.is_ok() == (primitive_spec(input@, tag) matches Some((c, _)) && c.len() >= 1),
        r matches Ok((v, n)) ==> v.wf() && v@ == signed_of(primitive_spec(input@, tag).unwrap().0)
            && n == primitive_spec(input@, tag).unwrap().1,
{
    let (c, n) = primitive_at(input, tag)?;
    if c.len() == 0 {
        return Err(DecodeError::UnexpectedEmptyInput);
    }
    Ok((Integer::from_signed_bytes(c.as_slice()), n))
}

/// Reads an integer into a signed word of `width` bytes; redundant leading sign
/// bytes are dropped, and a value the word cannot hold is refused.
pub fn sized_integer_at(input: &[u8], tag: Tag, width: usize) -> (r: Result<(i128, usize), DecodeError>)
    requires
        1 <= width <= 16,
    ensures
        r.is_ok() == (primitive_spec(input@, tag) matches Some((c, _)) && c.len() >= 1 && fits_signed(
            signed_of(c),
            width as nat,
        )),
        r matches Ok((v, n)) ==> v == signed_of(primitive_spec(input@, tag).unwrap().0) && n
            == primitive_spec(input@, tag).unwrap().1,
{
    let (c, n) = primitive_at(input, tag)?;
    if c.len() == 0 {
        return Err(DecodeError::UnexpectedEmptyInput);
    }
    let s = crate::bytes::strip_signed(c);
    if s.len() > width {
        proof {
            crate::bytes::lemma_minimal_signed_large(s@);
            crate::bytes::lemma_pow256_mono((width - 1) as nat, (s@.len() - 2) as nat);
        }
        return Err(DecodeError::IntegerOverflow { max_width: (width * 8) as u32 });
    }
    proof {
        crate::bytes::lemma_signed_range(s@);
        crate::bytes::lemma_pow256_mono((s@.len() - 1) as nat, (width - 1) as nat);
    }
    Ok((crate::bytes::signed_value_i128(s.as_slice()), n))
}

/// Reads a null: empty contents.
pub fn null_at(input: &[u8], tag: Tag) -> (r: Result<usize, DecodeError>)
    ensures
        r.is_ok() == (primitive_spec(input@, tag) matches Some((c, _)) && c.len() == 0),
        r matches Ok(n) ==> n == primitive_spec(input@, tag).unwrap().1,
{
    let (c, n) = primitive_at(input, tag)?;
    if c.len() != 0 {
        return Err(DecodeError::MismatchedLength { expected: 0, actual: c.len() });
    }
    Ok(n)
}

/// The arcs of an object identifier's contents: base-128 numbers, the first
/// of which packs the first two arcs.
pub fn decode_object_identifier_from_bytes(data: &[u8]) -> (r: Result<Vec<u32>, DecodeError>)
    ensures
        r.is_ok() == oid_arcs_spec(data@).is_some(),
        r matches Ok(v) ==> v@ == oid_arcs_spec(data@).unwrap(),
{
    let mut numbers: Vec<u32> = Vec::new();
    let mut acc: u64 = 0;
    let mut pending = false;
    let mut i: usize = 0;
    proof {
        assert(data@.subrange(0, data@.len() as int) =~= data@);
        match b128_numbers(data@, 0, false) {
            Some(rest) => {
                assert(numbers@ + rest =~= rest);
            },
            None => {},
        }
    }
    while i < data.len()
        invariant
            i <= data@.len(),
            acc <= u32::MAX,
            !pending ==> acc == 0,
            b128_numbers(data@, 0, false) == (match b128_numbers(
                data@.subrange(i as int, data@.len() as int),
                acc as nat,
                pending,
            ) {
                Some(rest) => Some(numbers@ + rest),
                None => None::<Seq<u32>>,
            }),
        decreases data@.len() - i,
    {
        let b = data[i];
        let a: u64 = acc * 128 + (b % 128) as u64;
        proof {
            let t = data@.subrange(i as int, data@.len() as int);
            assert(t.drop_first() =~= data@.subrange(i + 1, data@.len() as int));
            assert(t[0] == b);
        }
        if a > u32::MAX as u64 {
            return Err(DecodeError::IntegerOverflow { max_width: 32 });
        }
        if b < 128 {
            proof {
                let t = data@.subrange(i + 1, data@.len() as int);
                match b128_numbers(t, 0, false) {
                    Some(rest) => {
                        assert(numbers@ + (seq![a as u32] + rest) =~= numbers@.push(a as u32) + rest);
                    },
                    None => {},
                }
            }
            numbers.push(a as u32);
            acc = 0;
            pending = false;
        } else {
            acc = a;
            pending = true;
        }
        i = i + 1;
    }
    if pending {
        return Err(DecodeError::InvalidObjectIdentifier);
    }
    proof {
        assert(data@.subrange(data@.len() as int, data@.len() as int).len() == 0);
        assert(data@.subrange(data@.len() as int, data@.len() as int) =~= Seq::<u8>::empty());
        assert(numbers@ + Seq::<u32>::empty() =~= numbers@);
    }
    if numbers.len() == 0 {
        return Err(DecodeError::InvalidObjectIdentifier);
    }
    let root = numbers[0];
    let (first, second) = if root > 119 {
        (2u32, root - 80)
    } else {
        (root / 40, root % 40)
    };
    let mut arcs: Vec<u32> = Vec::new();
    arcs.push(first);
    arcs.push(second);
    let mut j: usize = 1;
    while j < numbers.len()
        invariant
            1 <= j <= numbers@.len(),
            arcs@ =~= seq![first, second] + numbers@.subrange(1, j as int),
        decreases numbers@.len() - j,
    {
        arcs.push(numbers[j]);
        j = j + 1;
    }
    proof {
        assert(numbers@.subrange(1, numbers@.len() as int) =~= numbers@.drop_first());
    }
    Ok(arcs)
}

/// Reads an object identifier.
pub fn object_identifier_at(input: &[u8], tag: Tag) -> (r: Result<(Vec<u32>, usize), DecodeError>)
    ensures
        r.is_ok() == (primitive_spec(input@, tag) matches Some((c, _)) && oid_arcs_spec(c) is Some),
        r matches Ok((v, n)) ==> v@ == oid_arcs_spec(primitive_spec(input@, tag).unwrap().0).unwrap()
            && n == primitive_spec(input@, tag).unwrap().1,
{
    let (c, n) = primitive_at(input, tag)?;
    let arcs = decode_object_identifier_from_bytes(c.as_slice())?;
    Ok((arcs, n))
}

/// Whether `s` starts with the end-of-contents marker.
pub fn starts_with_eoc(s: &[u8], at: usize) -> (r: bool)
    requires
        at <= s@.len(),
    ensures
        r == (at + 2 <= s@.len() && s@[at as int] == 0 && s@[at + 1] == 0),
{
    s.len() - at >= 2 && s[at] == 0 && s[at + 1] == 0
}

/// An octet string at the front of `s`, primitive or built from pieces, and
/// the bytes it took; the distinguished rules (`der`) refuse pieces.
pub open spec fn octets_spec(s: Seq<u8>, tag: Tag, der: bool) -> Option<(Seq<u8>, nat)>
    decreases s.len(), 0nat,
{
    match header_spec(s) {
        None => None,
        Some((id, len, h)) => if !id.is_constructed {
            primitive_spec(s, tag)
        } else if id.tag != tag || der || h < 1 || h > s.len() {
            None
        } else {
            match len {
                Some(n) => if s.len() >= h + n {
                    match pieces_definite(s.subrange(h as int, (h + n) as int), der) {
                        Some(v) => Some((v, h + n)),
                        None => None,
                    }
                } else {
                    None
                },
                None => match pieces_indefinite(s.subrange(h as int, s.len() as int), der) {
                    Some((v, c)) => Some((v, h + c)),
                    None => None,
                },
            }
        },
    }
}

/// The pieces filling `c` exactly, joined.
pub open spec fn pieces_definite(c: Seq<u8>, der: bool) -> Option<Seq<u8>>
    decreases c.len(), 1nat,
{
    if c.len() == 0 {
        Some(Seq::empty())
    } else {
        match octets_spec(c, Tag { class: crate::tag::Class::Universal, value: 4 }, der) {
            Some((v, n)) => if 1 <= n <= c.len() {
                match pieces_definite(c.subrange(n as int, c.len() as int), der) {
                    Some(r) => Some(v + r),
                    None => None,
                }
            } else {
                None
            },
            None => None,
        }
    }
}

/// The pieces up to an end-of-contents marker, joined, and the bytes taken with
/// the marker.
pub open spec fn pieces_indefinite(t: Seq<u8>, der: bool) -> Option<(Seq<u8>, nat)>
    decreases t.len(), 1nat,
{
    if t.len() >= 2 && t[0] == 0 && t[1] == 0 {
        Some((Seq::empty(), 2))
    } else {
        match octets_spec(t, Tag { class: crate::tag::Class::Universal, value: 4 }, der) {
            Some((v, n)) => if 1 <= n <= t.len() {
                match pieces_indefinite(t.subrange(n as int, t.len() as int), der) {
                    Some((r, c)) => Some((v + r, n + c)),
                    None => None,
                }
            } else {
                None
            },
            None => None,
        }
    }
}

/// Reads an octet string, primitive or built from pieces: a definite length
/// holds pieces up to its end, an indefinite one up to an end-of-contents
/// marker. The distinguished rules refuse pieces.
pub fn octet_string_at(input: &[u8], tag: Tag, rules: EncodingRules) -> (r: Result<
    (Vec<u8>, usize),
    DecodeError,
>)
    ensures
        r.is_ok() == octets_spec(input@, tag, rules is Der).is_some(),
        r matches Ok((c, n)) ==> (c@, n as nat) == octets_spec(input@, tag, rules is Der).unwrap(),
        header_spec(input@) is Some && header_spec(input@).unwrap().0.is_constructed && header_spec(
            input@,
        ).unwrap().0.tag == tag && rules is Der ==> r == Err::<(Vec<u8>, usize), DecodeError>(
            DecodeError::ConstructedEncodingNotAllowed,
        ),
        r matches Ok((_, n)) ==> 2 <= n <= input@.len(),
        header_spec(input@) is Some && !header_spec(input@).unwrap().0.is_constructed ==> r.is_ok()
            == primitive_spec(input@, tag).is_some() && (r matches Ok((c, n)) ==> (c@, n as nat)
            == primitive_spec(input@, tag).unwrap()),
    decreases input@.len(),
{
    let ghost der = rules is Der;
    let (id, len, h) = parse_header(input)?;
    if !id.is_constructed {
        return primitive_at(input, tag);
    }
    if !id.tag.same(&tag) {
        return Err(DecodeError::MismatchedTag { expected: tag, actual: id.tag });
    }
    if rules.is_der() {
        return Err(DecodeError::ConstructedEncodingNotAllowed);
    }
    let piece_tag = Tag::universal(TAG_OCTET_STRING);
    let mut buffer: Vec<u8> = Vec::new();
    match len {
        Some(n) => {
            if input.len() - h < n {
                return Err(DecodeError::Incomplete { needed: n - (input.len() - h) });
            }
            let contents = copy_range(input, h, h + n);
            let mut off: usize = 0;
            proof {
                assert(contents@.subrange(0, contents@.len() as int) =~= contents@);
                match pieces_definite(contents@, der) {
                    Some(r) => {
                        assert(buffer@ + r =~= r);
                    },
                    None => {},
                }
            }
            while off < contents.len()
                invariant
                    header_spec(input@) == Some((id, Some(n as nat), h as nat)),
                    id.is_constructed && id.tag == tag && !der && der == (rules is Der),
                    h + n <= input@.len(),
                    contents@ == input@.subrange(h as int, (h + n) as int),
                    off <= contents@.len(),
                    contents@.len() < input@.len(),
                    piece_tag == (Tag { class: crate::tag::Class::Universal, value: 4 }),
                    octets_spec(input@, tag, der) == (match pieces_definite(
                        contents@.subrange(off as int, contents@.len() as int),
                        der,
                    ) {
                        Some(r) => Some((buffer@ + r, (h + n) as nat)),
                        None => None,
                    }),
                decreases contents@.len() - off,
            {
                let rest = copy_range(contents.as_slice(), off, contents.len());
                let (piece, used) = octet_string_at(rest.as_slice(), piece_tag, rules)?;
                proof {
                    assert(rest@.subrange(used as int, rest@.len() as int) =~= contents@.subrange(
                        off + used,
                        contents@.len() as int,
                    ));
                    match pieces_definite(contents@.subrange(off + used, contents@.len() as int), der) {
                        Some(r) => {
                            assert(buffer@ + (piece@ + r) =~= (buffer@ + piece@) + r);
                        },
                        None => {},
                    }
                }
                crate::oer::enc::append_bytes(&mut buffer, piece.as_slice());
                off = off + used;
            }
            proof {
                assert(contents@.subrange(off as int, contents@.len() as int).len() == 0);
                assert(buffer@ + Seq::<u8>::empty() =~= buffer@);
            }
            Ok((buffer, h + n))
        },
        None => {
            let mut off: usize = h;
            proof {
                match pieces_indefinite(input@.subrange(h as int, input@.len() as int), der) {
                    Some((r, c)) => {
                        assert(buffer@ + r =~= r);
                    },
                    None => {},
                }
            }
            while !starts_with_eoc(input, off)
                invariant
                    header_spec(input@) == Some((id, None::<nat>, h as nat)),
                    id.is_constructed && id.tag == tag && !der && der == (rules is Der),
                    2 <= h <= off <= input@.len(),
                    piece_tag == (Tag { class: crate::tag::Class::Universal, value: 4 }),
                    octets_spec(input@, tag, der) == (match pieces_indefinite(
                        input@.subrange(off as int, input@.len() as int),
                        der,
                    ) {
                        Some((r, c)) => Some((buffer@ + r, (off + c) as nat)),
                        None => None,
                    }),
                decreases input@.len() - off,
            {
                let rest = copy_range(input, off, input.len());
                let (piece, used) = octet_string_at(rest.as_slice(), piece_tag, rules)?;
                proof {
                    assert(rest@.subrange(used as int, rest@.len() as int) =~= input@.subrange(
                        off + used,
                        input@.len() as int,
                    ));
                    match pieces_indefinite(input@.subrange(off + used, input@.len() as int), der) {
                        Some((r, c)) => {
                            assert(buffer@ + (piece@ + r) =~= (buffer@ + piece@) + r);
                        },
                        None => {},
                    }
                }
                crate::oer::enc::append_bytes(&mut buffer, piece.as_slice());
                off = off + used;
            }
            if input.len() - off < 2 {
                return Err(DecodeError::MissingEndOfContents);
            }
            proof {
                assert(buffer@ + Seq::<u8>::empty() =~= buffer@);
            }
            Ok((buffer, off + 2))
        },
    }
}

/// Primitive bit-string contents: a count of unused bits up to seven (zero for
/// no bits), and bits that fit a `usize` count.
pub open spec fn bit_contents_ok(c: Seq<u8>) -> bool {
    c.len() >= 1 && c[0] <= 7 && (c.len() == 1 ==> c[0] == 0) && (c.len() - 1) * 8 <= usize::MAX
}

/// `b` holds the bits of the primitive contents `c`: all bytes after the count,
/// less the unused bits, which read as zero.
pub open spec fn bit_string_matches(b: BitString, c: Seq<u8>) -> bool {
    &&& b.bit_len == (c.len() - 1) * 8 - c[0]
    &&& b.bytes@ == crate::bits::mask_last(c.subrange(1, c.len() as int), c[0] as nat)
}

/// Reads a bit string from primitive contents: the count of unused bits, then
/// the bits.
pub fn bit_string_from_contents(c: &[u8]) -> (r: Result<BitString, DecodeError>)
    ensures
        r.is_ok() == bit_contents_ok(c@),
        r matches Ok(b) ==> b.wf() && bit_string_matches(b, c@),
{
    if c.len() == 0 {
        return Err(DecodeError::UnexpectedEmptyInput);
    }
    let unused = c[0];
    let data = copy_range(c, 1, c.len());
    if data.len() > usize::MAX / 8 {
        return Err(DecodeError::ExceedsMaxLength);
    }
    match BitString::from_bytes_with_unused(data, unused) {
        Some(b) => Ok(b),
        None => Err(DecodeError::InvalidBitString { bits: unused }),
    }
}

/// Whole bytes in front shift the byte count and leave the unused bits alone.
pub proof fn lemma_bits_after_bytes(q: nat, b: nat)
    ensures
        bytes_for_bits(8 * q + b) == q + bytes_for_bits(b),
        unused_bits(8 * q + b) == unused_bits(b),
{
    vstd::arithmetic::div_mod::lemma_hoist_over_denominator((b + 7) as int, q as int, 8);
    vstd::arithmetic::div_mod::lemma_mod_multiples_vanish(q as int, b as int, 8);
    assert((b + 7) + q * 8 == 8 * q + b + 7);
}

/// Appends the bits of `part` to a string whose length is a whole number of bytes.
pub fn append_bits(acc: &mut BitString, part: &BitString) -> (r: Result<(), DecodeError>)
    requires
        old(acc).wf(),
        part.wf(),
    ensures
        final(acc).wf(),
        r.is_ok() == (old(acc).bit_len % 8 == 0 && old(acc).bit_len + part.bit_len <= usize::MAX),
        r.is_ok() ==> final(acc).bit_len == old(acc).bit_len + part.bit_len && final(acc).bytes@
            == old(acc).bytes@ + part.bytes@,
{
    if acc.bit_len % 8 != 0 {
        return Err(DecodeError::InvalidBitString { bits: (8 - acc.bit_len % 8) as u8 });
    }
    if part.bit_len > usize::MAX - acc.bit_len {
        return Err(DecodeError::ExceedsMaxLength);
    }
    let ghost old_len = acc.bit_len;
    crate::oer::enc::append_bytes(&mut acc.bytes, part.bytes.as_slice());
    acc.bit_len = acc.bit_len + part.bit_len;
    proof {
        let q = (old_len / 8) as nat;
        assert(old_len == 8 * q);
        lemma_bits_after_bytes(q, part.bit_len as nat);
        assert(old(acc).bytes@.len() == q);
        if part.bytes@.len() > 0 {
            assert(acc.bytes@.last() == part.bytes@.last());
        }
    }
    Ok(())
}

/// A bit string at the front of `s`, primitive or built from pieces: its
/// bytes, its number of bits, and the bytes it took; the distinguished rules
/// (`der`) refuse pieces.
pub open spec fn bits_spec(s: Seq<u8>, tag: Tag, der: bool) -> Option<(Seq<u8>, nat, nat)>
    decreases s.len(), 0nat,
{
    match header_spec(s) {
        None => None,
        Some((id, len, h)) => if !id.is_constructed {
            match primitive_spec(s, tag) {
                Some((c, n)) => if bit_contents_ok(c) {
                    Some(
                        (
                            crate::bits::mask_last(c.subrange(1, c.len() as int), c[0] as nat),
                            ((c.len() - 1) * 8 - c[0]) as nat,
                            n,
                        ),
                    )
                } else {
                    None
                },
                None => None,
            }
        } else if id.tag != tag || der || h < 1 || h > s.len() {
            None
        } else {
            match len {
                Some(n) => if s.len() >= h + n {
                    match bit_pieces_definite(
                        s.subrange(h as int, (h + n) as int),
                        der,
                        Seq::empty(),
                        0,
                    ) {
                        Some((b, k)) => Some((b, k, h + n)),
                        None => None,
                    }
                } else {
                    None
                },
                None => match bit_pieces_indefinite(
                    s.subrange(h as int, s.len() as int),
                    der,
                    Seq::empty(),
                    0,
                ) {
                    Some((b, k, c)) => Some((b, k, h + c)),
                    None => None,
                },
            }
        },
    }
}

/// The pieces filling `c` exactly, appended to the bits read so far (`ab`,
/// `an` bits); each piece but the last must fill whole bytes.
pub open spec fn bit_pieces_definite(c: Seq<u8>, der: bool, ab: Seq<u8>, an: nat) -> Option<
    (Seq<u8>, nat),
>
    decreases c.len(), 1nat,
{
    if c.len() == 0 {
        Some((ab, an))
    } else {
        match bits_spec(c, Tag { class: crate::tag::Class::Universal, value: 3 }, der) {
            Some((b, k, used)) => if 1 <= used <= c.len() && an % 8 == 0 && an + k <= usize::MAX {
                bit_pieces_definite(c.subrange(used as int, c.len() as int), der, ab + b, an + k)
            } else {
                None
            },
            None => None,
        }
    }
}

/// The pieces up to an end-of-contents marker, appended to the bits read so
/// far, and the bytes taken with the marker.
pub open spec fn bit_pieces_indefinite(t: Seq<u8>, der: bool, ab: Seq<u8>, an: nat) -> Option<
    (Seq<u8>, nat, nat),
>
    decreases t.len(), 1nat,
{
    if t.len() >= 2 && t[0] == 0 && t[1] == 0 {
        Some((ab, an, 2))
    } else {
        match bits_spec(t, Tag { class: crate::tag::Class::Universal, value: 3 }, der) {
            Some((b, k, used)) => if 1 <= used <= t.len() && an % 8 == 0 && an + k <= usize::MAX {
                match bit_pieces_indefinite(t.subrange(used as int, t.len() as int), der, ab + b, an + k) {
                    Some((rb, rk, rc)) => Some((rb, rk, used + rc)),
                    None => None,
                }
            } else {
                None
            },
            None => None,
        }
    }
}

/// Reads a bit string, primitive or built from pieces; every piece but the
/// last must fill whole bytes.
pub fn bit_string_at(input: &[u8], tag: Tag, rules: EncodingRules) -> (r: Result<
    (BitString, usize),
    DecodeError,
>)
    ensures
        r.is_ok() == bits_spec(input@, tag, rules is Der).is_some(),
        r matches Ok((b, n)) ==> b.wf() && 2 <= n <= input@.len() && (b.bytes@, b.bit_len as nat, n as nat)
            == bits_spec(input@, tag, rules is Der).unwrap(),
        header_spec(input@) is Some && !header_spec(input@).unwrap().0.is_constructed ==> r.is_ok()
            == (primitive_spec(input@, tag) matches Some((c, _)) && bit_contents_ok(c)) && (r matches Ok(
            (b, n),
        ) ==> bit_string_matches(b, primitive_spec(input@, tag).unwrap().0) && n
            == primitive_spec(input@, tag).unwrap().1),
    decreases input@.len(),
{
    let ghost der = rules is Der;
    let (id, len, h) = parse_header(input)?;
    if !id.is_constructed {
        let (c, n) = primitive_at(input, tag)?;
        let b = bit_string_from_contents(c.as_slice())?;
        return Ok((b, n));
    }
    if !id.tag.same(&tag) {
        return Err(DecodeError::MismatchedTag { expected: tag, actual: id.tag });
    }
    if rules.is_der() {
        return Err(DecodeError::ConstructedEncodingNotAllowed);
    }
    let piece_tag = Tag::universal(TAG_BIT_STRING);
    let mut acc = BitString { bytes: Vec::new(), bit_len: 0 };
    match len {
        Some(n) => {
            if input.len() - h < n {
                return Err(DecodeError::Incomplete { needed: n - (input.len() - h) });
            }
            let contents = copy_range(input, h, h + n);
            let mut off: usize = 0;
            proof {
                assert(contents@.subrange(0, contents@.len() as int) =~= contents@);
                assert(acc.bytes@ =~= Seq::<u8>::empty());
            }
            while off < contents.len()
                invariant
                    header_spec(input@) == Some((id, Some(n as nat), h as nat)),
                    id.is_constructed && id.tag == tag && !der,
                    h + n <= input@.len(),
                    contents@ == input@.subrange(h as int, (h + n) as int),
                    off <= contents@.len(),
                    contents@.len() < input@.len(),
                    acc.wf(),
                    piece_tag == (Tag { class: crate::tag::Class::Universal, value: 3 }),
                    bits_spec(input@, tag, der) == (match bit_pieces_definite(
                        contents@.subrange(off as int, contents@.len() as int),
                        der,
                        acc.bytes@,
                        acc.bit_len as nat,
                    ) {
                        Some((b, k)) => Some((b, k, (h + n) as nat)),
                        None => None,
                    }),
                decreases contents@.len() - off,
            {
                let rest = copy_range(contents.as_slice(), off, contents.len());
                let (piece, used) = bit_string_at(rest.as_slice(), piece_tag, rules)?;
                proof {
                    assert(rest@.subrange(used as int, rest@.len() as int) =~= contents@.subrange(
                        off + used,
                        contents@.len() as int,
                    ));
                }
                append_bits(&mut acc, &piece)?;
                off = off + used;
            }
            Ok((acc, h + n))
        },
        None => {
            let mut off: usize = h;
            proof {
                assert(acc.bytes@ =~= Seq::<u8>::empty());
            }
            while !starts_with_eoc(input, off)
                invariant
                    header_spec(input@) == Some((id, None::<nat>, h as nat)),
                    id.is_constructed && id.tag == tag && !der,
                    2 <= h <= off <= input@.len(),
                    acc.wf(),
                    piece_tag == (Tag { class: crate::tag::Class::Universal, value: 3 }),
                    bits_spec(input@, tag, der) == (match bit_pieces_indefinite(
                        input@.subrange(off as int, input@.len() as int),
                        der,
                        acc.bytes@,
                        acc.bit_len as nat,
                    ) {
                        Some((b, k, c)) => Some((b, k, (off + c) as nat)),
                        None => None,
                    }),
                decreases input@.len() - off,
            {
                let rest = copy_range(input, off, input.len());
                let (piece, used) = bit_string_at(rest.as_slice(), piece_tag, rules)?;
                proof {
                    assert(rest@.subrange(used as int, rest@.len() as int) =~= input@.subrange(
                        off + used,
                        input@.len() as int,
                    ));
                }
                append_bits(&mut acc, &piece)?;
                off = off + used;
            }
            if input.len() - off < 2 {
                return Err(DecodeError::MissingEndOfContents);
            }
            Ok((acc, off + 2))
        },
    }
}

/// Reads a UTF-8 string, primitive or built from octet-string pieces.
pub fn utf8_string_at(input: &[u8], tag: Tag, rules: EncodingRules) -> (r: Result<
    (String, usize),
    DecodeError,
>)
    ensures
        r matches Ok((_, n)) ==> 2 <= n <= input@.len(),
        r.is_ok() == (octets_spec(input@, tag, rules is Der) matches Some((c, _))
            && vstd::utf8::valid_utf8(c)),
        r matches Ok((v, n)) ==> v@ == vstd::utf8::decode_utf8(octets_spec(input@, tag, rules is Der).unwrap().0)
            && n == octets_spec(input@, tag, rules is Der).unwrap().1,
        header_spec(input@) is Some && !header_spec(input@).unwrap().0.is_constructed ==> r.is_ok()
            == (primitive_spec(input@, tag) matches Some((c, _)) && vstd::utf8::valid_utf8(c)) && (
        r matches Ok((v, n)) ==> v@ == vstd::utf8::decode_utf8(primitive_spec(input@, tag).unwrap().0)
            && n == primitive_spec(input@, tag).unwrap().1),
{
    let (bytes, n) = octet_string_at(input, tag, rules)?;
    match utf8_string(bytes.as_slice()) {
        Some(s) => Ok((s, n)),
        None => Err(DecodeError::InvalidUtf8),
    }
}

/// How many bytes the value at the front of `s` takes, identifier and length
/// included; an indefinite length runs to the matching end-of-contents marker.
pub open spec fn value_len_spec(s: Seq<u8>) -> Option<nat>
    decreases s.len(), 0nat,
{
    match header_spec(s) {
        None => None,
        Some((id, len, h)) => if h < 1 || h > s.len() {
            None
        } else {
            match len {
                Some(n) => if s.len() >= h + n {
                    Some(h + n)
                } else {
                    None
                },
                None => if !id.is_constructed {
                    None
                } else {
                    match values_to_eoc(s.subrange(h as int, s.len() as int)) {
                        Some(c) => Some(h + c),
                        None => None,
                    }
                },
            }
        },
    }
}

/// How many bytes the values before an end-of-contents marker take, the
/// marker included.
pub open spec fn values_to_eoc(t: Seq<u8>) -> Option<nat>
    decreases t.len(), 1nat,
{
    if t.len() >= 2 && t[0] == 0 && t[1] == 0 {
        Some(2)
    } else {
        match value_len_spec(t) {
            Some(n) => if 1 <= n <= t.len() {
                match values_to_eoc(t.subrange(n as int, t.len() as int)) {
                    Some(c) => Some(n + c),
                    None => None,
                }
            } else {
                None
            },
            None => None,
        }
    }
}

/// Reads any one value whole, identifier and length included; an indefinite
/// length runs to the matching end-of-contents marker.
pub fn any_at(input: &[u8]) -> (r: Result<(Vec<u8>, usize), DecodeError>)
    ensures
        r.is_ok() == value_len_spec(input@).is_some(),
        r matches Ok((v, n)) ==> n == value_len_spec(input@).unwrap() && v@ == input@.subrange(
            0,
            n as int,
        ),
        r matches Ok((v, n)) ==> 2 <= n <= input@.len(),
    decreases input@.len(),
{
    let (id, len, h) = parse_header(input)?;
    let end: usize = match len {
        Some(n) => {
            if input.len() - h < n {
                return Err(DecodeError::Incomplete { needed: n - (input.len() - h) });
            }
            h + n
        },
        None => {
            if !id.is_constructed {
                return Err(DecodeError::IndefiniteLengthNotAllowed);
            }
            let mut off: usize = h;
            while !starts_with_eoc(input, off)
                invariant
                    header_spec(input@) == Some((id, None::<nat>, h as nat)),
                    id.is_constructed,
                    2 <= h <= off <= input@.len(),
                    value_len_spec(input@) == (match values_to_eoc(
                        input@.subrange(off as int, input@.len() as int),
                    ) {
                        Some(c) => Some((off + c) as nat),
                        None => None,
                    }),
                decreases input@.len() - off,
            {
                let rest = copy_range(input, off, input.len());
                let (_, used) = any_at(rest.as_slice())?;
                proof {
                    assert(rest@.subrange(used as int, rest@.len() as int) =~= input@.subrange(
                        off + used,
                        input@.len() as int,
                    ));
                }
                off = off + used;
            }
            if input.len() - off < 2 {
                return Err(DecodeError::MissingEndOfContents);
            }
            off + 2
        },
    };
    Ok((copy_range(input, 0, end), end))
}

/// A decoder over a whole input; its view is what is left to read.
pub struct Decoder {
    input: Vec<u8>,
    pos: usize,
    config: DecoderOptions,
}

impl View for Decoder {
    type V = Seq<u8>;

    closed spec fn view(&self) -> Seq<u8> {
        self.input@.subrange(self.pos as int, self.input@.len() as int)
    }
}

impl Decoder {
    pub closed spec fn wf(&self) -> bool {
        self.pos <= self.input@.len()
    }

    pub closed spec fn rules(&self) -> EncodingRules {
        self.config.encoding_rules
    }

    /// How many bytes have been read.
    pub closed spec fn consumed(&self) -> nat {
        self.pos as nat
    }

    pub fn new(input: &[u8], config: DecoderOptions) -> (r: Decoder)
        ensures
            r.wf(),
            r@ == input@,
            r.rules() == config.encoding_rules,
    {
        let d = Decoder { input: crate::integer::copy_bytes(input), pos: 0, config };
        proof {
            assert(d.input@.subrange(0, d.input@.len() as int) =~= input@);
        }
        d
    }

    /// The rules this decoder follows.
    pub fn codec(&self) -> (r: EncodingRules)
        ensures
            r == self.rules(),
    {
        self.config.current_codec()
    }

    /// What is left to read.
    pub fn remaining(&self) -> (r: Vec<u8>)
        requires
            self.wf(),
        ensures
            r@ == self@,
    {
        copy_range(self.input.as_slice(), self.pos, self.input.len())
    }

    /// How many bytes have been read.
    pub fn decoded_len(&self) -> (r: usize)
        requires
            self.wf(),
        ensures
            r == self.consumed(),
    {
        self.pos
    }

    /// Moves past `n` bytes that a reader took.
    fn advance(&mut self, n: usize)
        requires
            old(self).wf(),
            n <= old(self)@.len(),
        ensures
            final(self).wf(),
            final(self).rules() == old(self).rules(),
            final(self)@ == old(self)@.subrange(n as int, old(self)@.len() as int),
    {
        let total = self.input.len();
        proof {
            assert(old(self)@.len() == total - self.pos);
        }
        self.pos = self.pos + n;
        proof {
            assert(self@ =~= old(self)@.subrange(n as int, old(self)@.len() as int));
        }
    }

    fn rest(&self) -> (r: Vec<u8>)
        requires
            self.wf(),
        ensures
            r@ == self@,
    {
        copy_range(self.input.as_slice(), self.pos, self.input.len())
    }

    /// Reads the end-of-contents marker.
    pub fn parse_eoc(&mut self) -> (r: Result<(), DecodeError>)
        requires
            old(self).wf(),
        ensures
            final(self).wf(),
            final(self).rules() == old(self).rules(),
            r.is_ok() == (old(self)@.len() >= 2 && old(self)@[0] == 0 && old(self)@[1] == 0),
            r.is_ok() ==> final(self)@ == old(self)@.subrange(2, old(self)@.len() as int),
    {
        if !starts_with_eoc(self.input.as_slice(), self.pos) {
            return Err(DecodeError::MissingEndOfContents);
        }
        self.advance(2);
        Ok(())
    }

    /// Reads a value with tag `tag` and a definite length, and gives its contents.
    pub fn parse_primitive_value(&mut self, tag: Tag) -> (r: Result<Vec<u8>, DecodeError>)
        requires
            old(self).wf(),
        ensures
            final(self).wf(),
            final(self).rules() == old(self).rules(),
            r.is_ok() == primitive_spec(old(self)@, tag).is_some(),
            r matches Ok(c) ==> c@ == primitive_spec(old(self)@, tag).unwrap().0 && final(self)@
                == old(self)@.subrange(
                primitive_spec(old(self)@, tag).unwrap().1 as int,
                old(self)@.len() as int,
            ),
    {
        let rest = self.rest();
        let (c, n) = primitive_at(rest.as_slice(), tag)?;
        self.advance(n);
        Ok(c)
    }

    /// Reads a boolean.
    pub fn decode_bool(&mut self, tag: Tag) -> (r: Result<bool, DecodeError>)
        requires
            old(self).wf(),
        ensures
            final(self).wf(),
            r is Ok ==> final(self)@.len() < old(self)@.len(),
            r is Err ==> final(self)@ == old(self)@,
            r.is_ok() == bool_spec(old(self)@, tag, old(self).rules() is Ber).is_some(),
            primitive_spec(old(self)@, tag) is Some && primitive_spec(old(self)@, tag).unwrap().0.len()
                == 1 && primitive_spec(old(self)@, tag).unwrap().0[0] != 0 && primitive_spec(
                old(self)@,
                tag,
            ).unwrap().0[0] != 0xff && !(old(self).rules() is Ber) ==> r == Err::<bool, DecodeError>(
                DecodeError::InvalidBool { value: primitive_spec(old(self)@, tag).unwrap().0[0] },
            ),
            r matches Ok(b) ==> b == bool_spec(old(self)@, tag, old(self).rules() is Ber).unwrap().0
                && final(self)@ == old(self)@.subrange(
                bool_spec(old(self)@, tag, old(self).rules() is Ber).unwrap().1 as int,
                old(self)@.len() as int,
            ),
    {
        let rest = self.rest();
        let (b, n) = bool_at(rest.as_slice(), tag, self.config.encoding_rules)?;
        self.advance(n);
        Ok(b)
    }

    /// Reads an integer of any size.
    pub fn decode_integer(&mut self, tag: Tag) -> (r: Result<Integer, DecodeError>)
        requires
            old(self).wf(),
        ensures
            final(self).wf(),
            r is Ok ==> final(self)@.len() < old(self)@.len(),
            r is Err ==> final(self)@ == old(self)@,
            r.is_ok() == (primitive_spec(old(self)@, tag) matches Some((c, _)) && c.len() >= 1),
            r matches Ok(v) ==> v.wf() && v@ == signed_of(primitive_spec(old(self)@, tag).unwrap().0)
                && final(self)@ == old(self)@.subrange(
                primitive_spec(old(self)@, tag).unwrap().1 as int,
                old(self)@.len() as int,
            ),
    {
        let rest = self.rest();
        let (v, n) = integer_at(rest.as_slice(), tag)?;
        self.advance(n);
        Ok(v)
    }

    /// Reads an integer into a signed word of `width` bytes.
    pub fn decode_sized_integer(&mut self, tag: Tag, width: usize) -> (r: Result<i128, DecodeError>)
        requires
            old(self).wf(),
            1 <= width <= 16,
        ensures
            final(self).wf(),
            r.is_ok() == (primitive_spec(old(self)@, tag) matches Some((c, _)) && c.len() >= 1
                && fits_signed(signed_of(c), width as nat)),
            r matches Ok(v) ==> v == signed_of(primitive_spec(old(self)@, tag).unwrap().0)
                && final(self)@ == old(self)@.subrange(
                primitive_spec(old(self)@, tag).unwrap().1 as int,
                old(self)@.len() as int,
            ),
    {
        let rest = self.rest();
        let (v, n) = sized_integer_at(rest.as_slice(), tag, width)?;
        self.advance(n);
        Ok(v)
    }

    /// Reads an integer into any integer type; redundant leading sign bytes
    /// are no obstacle, a value the type cannot hold is refused.
    pub fn decode_integer_as<I: IntegerType>(&mut self, tag: Tag) -> (r: Result<I, DecodeError>)
        requires
            old(self).wf(),
        ensures
            final(self).wf(),
            r.is_ok() == (primitive_spec(old(self)@, tag) matches Some((c, _)) && c.len() >= 1
                && I::in_range(signed_of(c))),
            r matches Ok(v) ==> v.wf() && v.int_value() == signed_of(
                primitive_spec(old(self)@, tag).unwrap().0,
            ) && final(self)@ == old(self)@.subrange(
                primitive_spec(old(self)@, tag).unwrap().1 as int,
                old(self)@.len() as int,
            ),
    {
        let rest = self.rest();
        let (c, n) = primitive_at(rest.as_slice(), tag)?;
        let v = I::try_from_signed_bytes(c.as_slice())?;
        self.advance(n);
        Ok(v)
    }

    /// Reads an enumerated value as its discriminant.
    pub fn decode_enumerated(&mut self, tag: Tag) -> (r: Result<i128, DecodeError>)
        requires
            old(self).wf(),
        ensures
            final(self).wf(),
            r.is_ok() == (primitive_spec(old(self)@, tag) matches Some((c, _)) && c.len() >= 1
                && fits_signed(signed_of(c), 8)),
            r matches Ok(v) ==> v == signed_of(primitive_spec(old(self)@, tag).unwrap().0)
                && final(self)@ == old(self)@.subrange(
                primitive_spec(old(self)@, tag).unwrap().1 as int,
                old(self)@.len() as int,
            ),
    {
        self.decode_sized_integer(tag, 8)
    }

    /// Reads a null.
    pub fn decode_null(&mut self, tag: Tag) -> (r: Result<(), DecodeError>)
        requires
            old(self).wf(),
        ensures
            final(self).wf(),
            r.is_ok() == (primitive_spec(old(self)@, tag) matches Some((c, _)) && c.len() == 0),
            r.is_ok() ==> final(self)@ == old(self)@.subrange(
                primitive_spec(old(self)@, tag).unwrap().1 as int,
                old(self)@.len() as int,
            ),
    {
        let rest = self.rest();
        let n = null_at(rest.as_slice(), tag)?;
        self.advance(n);
        Ok(())
    }

    /// Reads an object identifier.
    pub fn decode_object_identifier(&mut self, tag: Tag) -> (r: Result<Vec<u32>, DecodeError>)
        requires
            old(self).wf(),
        ensures
            final(self).wf(),
            r.is_ok() == (primitive_spec(old(self)@, tag) matches Some((c, _)) && oid_arcs_spec(c) is Some),
            r matches Ok(v) ==> v@ == oid_arcs_spec(primitive_spec(old(self)@, tag).unwrap().0).unwrap()
                && final(self)@ == old(self)@.subrange(
                primitive_spec(old(self)@, tag).unwrap().1 as int,
                old(self)@.len() as int,
            ),
    {
        let rest = self.rest();
        let (v, n) = object_identifier_at(rest.as_slice(), tag)?;
        self.advance(n);
        Ok(v)
    }

    /// Reads an octet string, primitive or built from pieces.
    pub fn decode_octet_string(&mut self, tag: Tag) -> (r: Result<Vec<u8>, DecodeError>)
        requires
            old(self).wf(),
        ensures
            final(self).wf(),
            r is Ok ==> final(self)@.len() < old(self)@.len(),
            r is Err ==> final(self)@ == old(self)@,
            r.is_ok() == octets_spec(old(self)@, tag, old(self).rules() is Der).is_some(),
            header_spec(old(self)@) is Some && header_spec(old(self)@).unwrap().0.is_constructed
                && header_spec(old(self)@).unwrap().0.tag == tag && old(self).rules() is Der ==> r
                == Err::<Vec<u8>, DecodeError>(DecodeError::ConstructedEncodingNotAllowed),
            r matches Ok(c) ==> c@ == octets_spec(old(self)@, tag, old(self).rules() is Der).unwrap().0
                && final(self)@ == old(self)@.subrange(
                octets_spec(old(self)@, tag, old(self).rules() is Der).unwrap().1 as int,
                old(self)@.len() as int,
            ),
            header_spec(old(self)@) is Some && !header_spec(old(self)@).unwrap().0.is_constructed
                ==> r.is_ok() == primitive_spec(old(self)@, tag).is_some() && (r matches Ok(c) ==> c@
                == primitive_spec(old(self)@, tag).unwrap().0),
    {
        let rest = self.rest();
        let (v, n) = octet_string_at(rest.as_slice(), tag, self.config.encoding_rules)?;
        self.advance(n);
        Ok(v)
    }

    /// Reads a bit string, primitive or built from pieces.
    pub fn decode_bit_string(&mut self, tag: Tag) -> (r: Result<BitString, DecodeError>)
        requires
            old(self).wf(),
        ensures
            final(self).wf(),
            r.is_ok() == bits_spec(old(self)@, tag, old(self).rules() is Der).is_some(),
            r matches Ok(b) ==> b.wf() && b.bytes@ == bits_spec(
                old(self)@,
                tag,
                old(self).rules() is Der,
            ).unwrap().0 && b.bit_len == bits_spec(old(self)@, tag, old(self).rules() is Der).unwrap().1
                && final(self)@ == old(self)@.subrange(
                bits_spec(old(self)@, tag, old(self).rules() is Der).unwrap().2 as int,
                old(self)@.len() as int,
            ),
    {
        let rest = self.rest();
        let (v, n) = bit_string_at(rest.as_slice(), tag, self.config.encoding_rules)?;
        self.advance(n);
        Ok(v)
    }

    /// Reads a UTF-8 string, primitive or built from pieces.
    pub fn decode_utf8_string(&mut self, tag: Tag) -> (r: Result<String, DecodeError>)
        requires
            old(self).wf(),
        ensures
            final(self).wf(),
            r is Ok ==> final(self)@.len() < old(self)@.len(),
            r is Err ==> final(self)@ == old(self)@,
            r.is_ok() == (octets_spec(old(self)@, tag, old(self).rules() is Der) matches Some((c, _))
                && vstd::utf8::valid_utf8(c)),
            r matches Ok(v) ==> v@ == vstd::utf8::decode_utf8(
                octets_spec(old(self)@, tag, old(self).rules() is Der).unwrap().0,
            ),
    {
        let rest = self.rest();
        let (v, n) = utf8_string_at(rest.as_slice(), tag, self.config.encoding_rules)?;
        self.advance(n);
        Ok(v)
    }

    /// Reads a generalized time: any format the basic rules allow, or only the
    /// canonical one under the canonical and distinguished rules.
    pub fn decode_generalized_time(&mut self, tag: Tag) -> (r: Result<GeneralizedTime, DecodeError>)
        requires
            old(self).wf(),
        ensures
            final(self).wf(),
            r.is_ok() == (octets_spec(old(self)@, tag, old(self).rules() is Der) matches Some((c, _))
                && vstd::utf8::valid_utf8(c) && generalized_by_rules(c, old(self).rules() is Ber) is Some),
            r matches Ok(t) ==> t == generalized_by_rules(
                octets_spec(old(self)@, tag, old(self).rules() is Der).unwrap().0,
                old(self).rules() is Ber,
            ).unwrap(),
    {
        let ghost c = octets_spec(self@, tag, self.rules() is Der);
        let basic = self.config.encoding_rules.is_ber();
        let s = self.decode_utf8_string(tag)?;
        proof {
            vstd::utf8::decode_utf8_encode_utf8(c.unwrap().0);
        }
        if basic {
            parse_any_generalized_time_string(s.as_str())
        } else {
            parse_canonical_generalized_time_string(s.as_str())
        }
    }

    /// Reads a UTC time: any format the basic rules allow, or only the canonical
    /// one under the canonical and distinguished rules.
    pub fn decode_utc_time(&mut self, tag: Tag) -> (r: Result<UtcTime, DecodeError>)
        requires
            old(self).wf(),
        ensures
            final(self).wf(),
            r.is_ok() == (octets_spec(old(self)@, tag, old(self).rules() is Der) matches Some((c, _))
                && vstd::utf8::valid_utf8(c) && utc_by_rules(c, old(self).rules() is Ber) is Some),
            r matches Ok(t) ==> t == utc_by_rules(
                octets_spec(old(self)@, tag, old(self).rules() is Der).unwrap().0,
                old(self).rules() is Ber,
            ).unwrap(),
    {
        let ghost c = octets_spec(self@, tag, self.rules() is Der);
        let basic = self.config.encoding_rules.is_ber();
        let s = self.decode_utf8_string(tag)?;
        proof {
            vstd::utf8::decode_utf8_encode_utf8(c.unwrap().0);
        }
        if basic {
            parse_any_utc_time_string(s.as_str())
        } else {
            parse_canonical_utc_time_string(s.as_str())
        }
    }

    /// Reads a date written `YYYYMMDD`.
    pub fn decode_date(&mut self, tag: Tag) -> (r: Result<Date, DecodeError>)
        requires
            old(self).wf(),
        ensures
            final(self).wf(),
            r.is_ok() == (octets_spec(old(self)@, tag, old(self).rules() is Der) matches Some((c, _))
                && vstd::utf8::valid_utf8(c) && date_of(c, "%Y%m%d"@) is Some),
            r matches Ok(d) ==> date_of(
                octets_spec(old(self)@, tag, old(self).rules() is Der).unwrap().0,
                "%Y%m%d"@,
            ) == Some((d.year, d.month, d.day)),
    {
        let ghost c = octets_spec(self@, tag, self.rules() is Der);
        let s = self.decode_utf8_string(tag)?;
        proof {
            vstd::utf8::decode_utf8_encode_utf8(c.unwrap().0);
        }
        parse_date_string(s.as_str())
    }

    /// Reads a restricted character string: an octet string whose bytes the
    /// alphabet of `kind` admits.
    pub fn decode_restricted_string(&mut self, tag: Tag, kind: StringKind) -> (r: Result<
        Vec<u8>,
        DecodeError,
    >)
        requires
            old(self).wf(),
        ensures
            final(self).wf(),
            r.is_ok() == (octets_spec(old(self)@, tag, old(self).rules() is Der) matches Some((c, _))
                && fits_alphabet(kind, c)),
            r matches Ok(v) ==> v@ == octets_spec(old(self)@, tag, old(self).rules() is Der).unwrap().0
                && fits_alphabet(kind, v@) && final(self)@ == old(self)@.subrange(
                octets_spec(old(self)@, tag, old(self).rules() is Der).unwrap().1 as int,
                old(self)@.len() as int,
            ),
    {
        let rest = self.rest();
        let (v, n) = octet_string_at(rest.as_slice(), tag, self.config.encoding_rules)?;
        if !check_alphabet(kind, v.as_slice()) {
            return Err(DecodeError::PermittedAlphabet);
        }
        self.advance(n);
        Ok(v)
    }

    /// Reads a visible string.
    pub fn decode_visible_string(&mut self, tag: Tag) -> (r: Result<Vec<u8>, DecodeError>)
        requires
            old(self).wf(),
        ensures
            final(self).wf(),
            r.is_ok() == (octets_spec(old(self)@, tag, old(self).rules() is Der) matches Some((c, _))
                && fits_alphabet(StringKind::Visible, c)),
            r matches Ok(v) ==> fits_alphabet(StringKind::Visible, v@) && v@ == octets_spec(
                old(self)@,
                tag,
                old(self).rules() is Der,
            ).unwrap().0 && final(self)@ == old(self)@.subrange(
                octets_spec(old(self)@, tag, old(self).rules() is Der).unwrap().1 as int,
                old(self)@.len() as int,
            ),
    {
        self.decode_restricted_string(tag, StringKind::Visible)
    }

    /// Reads an IA5 string.
    pub fn decode_ia5_string(&mut self, tag: Tag) -> (r: Result<Vec<u8>, DecodeError>)
        requires
            old(self).wf(),
        ensures
            final(self).wf(),
            r.is_ok() == (octets_spec(old(self)@, tag, old(self).rules() is Der) matches Some((c, _))
                && fits_alphabet(StringKind::Ia5, c)),
            r matches Ok(v) ==> fits_alphabet(StringKind::Ia5, v@) && v@ == octets_spec(
                old(self)@,
                tag,
                old(self).rules() is Der,
            ).unwrap().0 && final(self)@ == old(self)@.subrange(
                octets_spec(old(self)@, tag, old(self).rules() is Der).unwrap().1 as int,
                old(self)@.len() as int,
            ),
    {
        self.decode_restricted_string(tag, StringKind::Ia5)
    }

    /// Reads a numeric string.
    pub fn decode_numeric_string(&mut self, tag: Tag) -> (r: Result<Vec<u8>, DecodeError>)
        requires
            old(self).wf(),
        ensures
            final(self).wf(),
            r.is_ok() == (octets_spec(old(self)@, tag, old(self).rules() is Der) matches Some((c, _))
                && fits_alphabet(StringKind::Numeric, c)),
            r matches Ok(v) ==> fits_alphabet(StringKind::Numeric, v@) && v@ == octets_spec(
                old(self)@,
                tag,
                old(self).rules() is Der,
            ).unwrap().0 && final(self)@ == old(self)@.subrange(
                octets_spec(old(self)@, tag, old(self).rules() is Der).unwrap().1 as int,
                old(self)@.len() as int,
            ),
    {
        self.decode_restricted_string(tag, StringKind::Numeric)
    }

    /// Reads a printable string.
    pub fn decode_printable_string(&mut self, tag: Tag) -> (r: Result<Vec<u8>, DecodeError>)
        requires
            old(self).wf(),
        ensures
            final(self).wf(),
            r.is_ok() == (octets_spec(old(self)@, tag, old(self).rules() is Der) matches Some((c, _))
                && fits_alphabet(StringKind::Printable, c)),
            r matches Ok(v) ==> fits_alphabet(StringKind::Printable, v@) && v@ == octets_spec(
                old(self)@,
                tag,
                old(self).rules() is Der,
            ).unwrap().0 && final(self)@ == old(self)@.subrange(
                octets_spec(old(self)@, tag, old(self).rules() is Der).unwrap().1 as int,
                old(self)@.len() as int,
            ),
    {
        self.decode_restricted_string(tag, StringKind::Printable)
    }

    /// Reads a BMP string: two bytes per character.
    pub fn decode_bmp_string(&mut self, tag: Tag) -> (r: Result<Vec<u8>, DecodeError>)
        requires
            old(self).wf(),
        ensures
            final(self).wf(),
            r.is_ok() == (octets_spec(old(self)@, tag, old(self).rules() is Der) matches Some((c, _))
                && fits_alphabet(StringKind::Bmp, c)),
            r matches Ok(v) ==> fits_alphabet(StringKind::Bmp, v@) && v@ == octets_spec(
                old(self)@,
                tag,
                old(self).rules() is Der,
            ).unwrap().0 && final(self)@ == old(self)@.subrange(
                octets_spec(old(self)@, tag, old(self).rules() is Der).unwrap().1 as int,
                old(self)@.len() as int,
            ),
    {
        self.decode_restricted_string(tag, StringKind::Bmp)
    }

    /// Reads any one value whole.
    pub fn decode_any(&mut self) -> (r: Result<Vec<u8>, DecodeError>)
        requires
            old(self).wf(),
        ensures
            final(self).wf(),
            r.is_ok() == value_len_spec(old(self)@).is_some(),
            r matches Ok(v) ==> v@.len() == value_len_spec(old(self)@).unwrap() && v@.len() >= 2
                && v@ == old(self)@.subrange(0, v@.len() as int) && final(self)@ == old(
                self,
            )@.subrange(v@.len() as int, old(self)@.len() as int),
    {
        let rest = self.rest();
        let (v, n) = any_at(rest.as_slice())?;
        self.advance(n);
        Ok(v)
    }

    /// Real numbers are not supported.
    pub fn decode_real(&mut self, tag: Tag) -> (r: Result<(), DecodeError>)
        ensures
            r == Err::<(), DecodeError>(DecodeError::RealNotSupported),
    {
        Err(DecodeError::RealNotSupported)
    }

    /// The identifier of the next value, without reading it.
    pub fn peek_identifier(&self) -> (r: Result<Identifier, DecodeError>)
        requires
            self.wf(),
        ensures
            r.is_ok() == identifier_spec(self@).is_some(),
            r matches Ok(id) ==> id == identifier_spec(self@).unwrap().0,
    {
        let rest = self.rest();
        let (id, _) = parse_identifier_octet(rest.as_slice())?;
        Ok(id)
    }

    /// Opens a constructed value with tag `tag`: a decoder over its contents,
    /// and whether its length is indefinite. Unless `check_identifier` is off
    /// (explicit prefixes), a primitive identifier is refused.
    pub fn parse_constructed_contents(&mut self, tag: Tag, check_identifier: bool) -> (r: Result<
        (Decoder, bool),
        DecodeError,
    >)
        requires
            old(self).wf(),
        ensures
            final(self).wf(),
            final(self).rules() == old(self).rules(),
            r.is_ok() == (header_spec(old(self)@) matches Some((id, len, h)) && id.tag == tag && !(
            check_identifier && !id.is_constructed) && (len matches Some(n) ==> h + n <= old(
                self,
            )@.len()) && !(len is None && old(self).rules() is Der)),
            r is Err ==> final(self)@ == old(self)@,
            r matches Ok((inner, _)) ==> inner.wf() && inner.rules() == old(self).rules(),
            r matches Ok((inner, streaming)) ==> header_spec(old(self)@) matches Some((id, len, h))
                && id.tag == tag && (streaming == len is None) && (streaming ==> inner@ == old(
                self,
            )@.subrange(h as int, old(self)@.len() as int) && final(self)@ == old(self)@) && (!streaming
                ==> h + len.unwrap() <= old(self)@.len() && inner@ == old(self)@.subrange(
                h as int,
                (h + len.unwrap()) as int,
            ) && final(self)@ == old(self)@.subrange(
                (h + len.unwrap()) as int,
                old(self)@.len() as int,
            )),
    {
        let rest = self.rest();
        let (id, len, h) = parse_header(rest.as_slice())?;
        if !id.tag.same(&tag) {
            return Err(DecodeError::MismatchedTag { expected: tag, actual: id.tag });
        }
        if check_identifier && id.is_primitive() {
            return Err(DecodeError::InvalidConstructedIdentifier);
        }
        match len {
            Some(n) => {
                if rest.len() - h < n {
                    return Err(DecodeError::Incomplete { needed: n - (rest.len() - h) });
                }
                let contents = copy_range(rest.as_slice(), h, h + n);
                self.advance(h + n);
                Ok((Decoder::new(contents.as_slice(), self.config), false))
            },
            None => {
                if self.config.encoding_rules.is_der() {
                    return Err(DecodeError::IndefiniteLengthNotAllowed);
                }
                let contents = copy_range(rest.as_slice(), h, rest.len());
                Ok((Decoder::new(contents.as_slice(), self.config), true))
            },
        }
    }

    /// Closes a constructed value opened by [`Self::parse_constructed_contents`]:
    /// a definite length must have been read to its end; after an indefinite one
    /// the end-of-contents marker follows what the inner decoder read.
    pub fn finish_constructed_contents(&mut self, inner: &Decoder, streaming: bool) -> (r: Result<
        (),
        DecodeError,
    >)
        requires
            old(self).wf(),
            inner.wf(),
        ensures
            final(self).wf(),
            final(self).rules() == old(self).rules(),
            !streaming ==> r.is_ok() == (inner@.len() == 0) && final(self)@ == old(self)@,
            !streaming && inner@.len() > 0 ==> r == Err::<(), DecodeError>(
                DecodeError::UnexpectedExtraData { length: inner@.len() as usize },
            ),
            streaming ==> r.is_ok() == (header_spec(old(self)@) matches Some((_, _, h)) && h
                + inner.consumed() + 2 <= old(self)@.len() && old(self)@[(h + inner.consumed()) as int] == 0
                && old(self)@[(h + inner.consumed() + 1) as int] == 0),
            streaming && r.is_ok() ==> final(self)@ == old(self)@.subrange(
                (header_spec(old(self)@).unwrap().2 + inner.consumed() + 2) as int,
                old(self)@.len() as int,
            ),
    {
        if !streaming {
            if inner.remaining_len() != 0 {
                return Err(DecodeError::UnexpectedExtraData { length: inner.remaining_len() });
            }
            return Ok(());
        }
        let rest = self.rest();
        let (_, _, h) = parse_header(rest.as_slice())?;
        let used = inner.decoded_len();
        if rest.len() - h < used {
            return Err(DecodeError::Incomplete { needed: used - (rest.len() - h) });
        }
        self.advance(h + used);
        self.parse_eoc()
    }

    /// A position to come back to.
    pub fn checkpoint(&self) -> (r: usize)
        requires
            self.wf(),
        ensures
            r == self.consumed(),
    {
        self.pos
    }

    /// Goes back to a position taken by [`Self::checkpoint`] on this input.
    pub fn rewind(&mut self, to: usize)
        requires
            old(self).wf(),
            to <= old(self).consumed(),
        ensures
            final(self).wf(),
            final(self).rules() == old(self).rules(),
            final(self).consumed() == to,
            old(self)@.len() <= final(self)@.len(),
            final(self)@.subrange(
                (final(self)@.len() - old(self)@.len()) as int,
                final(self)@.len() as int,
            ) == old(self)@,
    {
        let ghost before = self@;
        self.pos = to;
        proof {
            assert(self@.subrange((self@.len() - before.len()) as int, self@.len() as int)
                =~= before);
        }
    }

    /// Reads an optional octet string: where the value does not decode, it is
    /// absent and nothing is read.
    pub fn decode_optional_octet_string(&mut self, tag: Tag) -> (r: Option<Vec<u8>>)
        requires
            old(self).wf(),
        ensures
            final(self).wf(),
            r is None ==> final(self)@ == old(self)@,
            r.is_some() == octets_spec(old(self)@, tag, old(self).rules() is Der).is_some(),
            r matches Some(c) ==> c@ == octets_spec(old(self)@, tag, old(self).rules() is Der).unwrap().0,
            header_spec(old(self)@) is Some && !header_spec(old(self)@).unwrap().0.is_constructed
                ==> r.is_some() == primitive_spec(old(self)@, tag).is_some() && (r matches Some(c)
                ==> c@ == primitive_spec(old(self)@, tag).unwrap().0),
    {
        let rest = self.rest();
        match octet_string_at(rest.as_slice(), tag, self.config.encoding_rules) {
            Ok((v, n)) => {
                self.advance(n);
                Some(v)
            },
            Err(_) => None,
        }
    }

    /// How many bytes are left.
    pub fn remaining_len(&self) -> (r: usize)
        requires
            self.wf(),
        ensures
            r == self@.len(),
    {
        self.input.len() - self.pos
    }
}

} // verus!
