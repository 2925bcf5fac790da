//! What the decoder reads from the distinguished form of primitive values:
//! the low-tag-number or base-128 identifier, the shortest definite length,
//! and the contents.
use super::de::{bool_spec, header_spec, oid_arcs_spec, primitive_spec};
use super::{identifier_spec, lemma_b128_len, length_spec};
use crate::bytes::{
    lemma_min_signed_props, lemma_min_unsigned_props, min_signed, min_unsigned, pow256, signed_of,
};
use crate::oer::length_determinant;
use crate::oer::roundtrip::lemma_object_identifier_round_trip;
use crate::tag::{b128, class_bits, class_of_bits, lemma_b128, Identifier, Tag};
use vstd::prelude::*;

verus! {

/// An identifier written in the fewest bytes.
pub open spec fn identifier_encoding(id: Identifier) -> Seq<u8> {
    let first = class_bits(id.tag.class) * 64 + if id.is_constructed {
        32int
    } else {
        0int
    };
    if id.tag.value < 31 {
        seq![(first + id.tag.value) as u8]
    } else {
        seq![(first + 31) as u8] + b128(id.tag.value as nat)
    }
}

/// A primitive value: identifier, shortest definite length, contents.
pub open spec fn tlv_encoding(tag: Tag, contents: Seq<u8>) -> Seq<u8> {
    identifier_encoding(Identifier { tag, is_constructed: false }) + length_determinant(
        contents.len(),
    ) + contents
}

/// An identifier reads back as itself, whatever follows.
pub proof fn lemma_identifier_round_trip(id: Identifier, rest: Seq<u8>)
    ensures
        identifier_spec(identifier_encoding(id) + rest) == Some(
            (id, identifier_encoding(id).len()),
        ),
{
    let s = identifier_encoding(id) + rest;
    let c = class_bits(id.tag.class) as int;
    let k: int = if id.is_constructed {
        1
    } else {
        0
    };
    assert(class_of_bits(c as u8) == id.tag.class);
    if id.tag.value < 31 {
        let b = c * 64 + k * 32 + id.tag.value;
        assert(s[0] == b as u8);
        assert(b / 64 == c);
        assert((b / 32) % 2 == k);
        assert(b % 32 == id.tag.value);
    } else {
        let b = c * 64 + k * 32 + 31;
        let e = b128(id.tag.value as nat);
        lemma_b128(id.tag.value as nat);
        assert(s[0] == b as u8);
        assert(b / 64 == c);
        assert((b / 32) % 2 == k);
        assert(b % 32 == 31);
        let tail = s.drop_first();
        assert(tail =~= e + rest);
        assert forall|i: int| 0 <= i < e.len() - 1 implies #[trigger] tail[i] >= 128 by {
            assert(tail[i] == e[i]);
        }
        lemma_b128_len(tail, e.len() as int);
        assert(s.subrange(1, (1 + e.len()) as int) =~= e);
    }
}

/// The shortest definite length reads back as itself.
pub proof fn lemma_definite_length_round_trip(n: nat, rest: Seq<u8>)
    requires
        n <= usize::MAX,
    ensures
        length_spec(length_determinant(n) + rest) == Some((Some(n), length_determinant(n).len())),
{
    let s = length_determinant(n) + rest;
    if n >= 128 {
        lemma_min_unsigned_props(n);
        let m = min_unsigned(n);
        assert(pow256(8) == 0x1_0000_0000_0000_0000) by {
            reveal_with_fuel(pow256, 9);
        }
        crate::oer::lemma_min_unsigned_len(n, 8);
        assert(s[0] == 128 + m.len());
        assert(s.subrange(1, (1 + m.len()) as int) =~= m);
    }
}

/// A primitive value reads back as its contents, whatever follows.
pub proof fn lemma_primitive_round_trip(tag: Tag, contents: Seq<u8>, rest: Seq<u8>)
    requires
        contents.len() <= usize::MAX,
    ensures
        primitive_spec(tlv_encoding(tag, contents) + rest, tag) == Some(
            (contents, tlv_encoding(tag, contents).len()),
        ),
{
    let id = Identifier { tag, is_constructed: false };
    let ie = identifier_encoding(id);
    let le = length_determinant(contents.len());
    let s = tlv_encoding(tag, contents) + rest;
    assert(s =~= ie + (le + (contents + rest)));
    lemma_identifier_round_trip(id, le + (contents + rest));
    assert(s.subrange(ie.len() as int, s.len() as int) =~= le + (contents + rest));
    lemma_definite_length_round_trip(contents.len(), contents + rest);
    assert(header_spec(s) == Some((id, Some(contents.len()), ie.len() + le.len())));
    assert(s.subrange((ie.len() + le.len()) as int, (ie.len() + le.len() + contents.len()) as int)
        =~= contents);
}

/// A boolean reads back from its distinguished form under every rule set.
pub proof fn lemma_bool_round_trip(tag: Tag, v: bool, basic: bool, rest: Seq<u8>)
    ensures
        bool_spec(
            tlv_encoding(
                tag,
                seq![
                    if v {
                        0xffu8
                    } else {
                        0u8
                    },
                ],
            ) + rest,
            tag,
            basic,
        ) == Some(
            (
                v,
                tlv_encoding(
                    tag,
                    seq![
                        if v {
                            0xffu8
                        } else {
                            0u8
                        },
                    ],
                ).len(),
            ),
        ),
{
    let c = seq![
        if v {
            0xffu8
        } else {
            0u8
        },
    ];
    lemma_primitive_round_trip(tag, c, rest);
}

/// An integer reads back from its distinguished form: its minimal
/// two's-complement bytes.
pub proof fn lemma_integer_round_trip(tag: Tag, v: int, rest: Seq<u8>)
    requires
        min_signed(v).len() <= usize::MAX,
    ensures
        primitive_spec(tlv_encoding(tag, min_signed(v)) + rest, tag) matches Some((c, n)) && c.len()
            >= 1 && signed_of(c) == v && n == tlv_encoding(tag, min_signed(v)).len(),
{
    lemma_min_signed_props(v);
    lemma_primitive_round_trip(tag, min_signed(v), rest);
}

/// An object identifier reads back from its distinguished form.
pub proof fn lemma_object_identifier_round_trip_tlv(tag: Tag, arcs: Seq<u32>, rest: Seq<u8>)
    requires
        crate::oer::oid_valid(arcs),
        crate::oer::oid_content(arcs).len() <= usize::MAX,
    ensures
        primitive_spec(tlv_encoding(tag, crate::oer::oid_content(arcs)) + rest, tag) matches Some(
            (c, _),
        ) && oid_arcs_spec(c) == Some(arcs),
{
    lemma_object_identifier_round_trip(arcs, rest);
    lemma_primitive_round_trip(tag, crate::oer::oid_content(arcs), rest);
}

} // verus!
