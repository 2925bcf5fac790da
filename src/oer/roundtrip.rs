//! What the decoder reads back from what the encoder writes.
use super::de::{
    enumerated_decoding, fixed_value, integer_decoding, length_spec, octet_string_decoding,
};
use super::{
    enumerated_encoding, fixed_integer, integer_body, integer_encoding, lemma_min_signed_len,
    lemma_min_unsigned_len, length_determinant, octet_string_encoding, size_and_sign,
};
use crate::bytes::{
    is_minimal_signed, is_minimal_unsigned, lemma_min_signed_props, lemma_min_unsigned_props,
    lemma_signed_drop_redundant, lemma_signed_unsigned, lemma_unsigned_bound,
    lemma_unsigned_drop_zero, min_signed, min_unsigned, pow256, signed_of, unsigned_of,
};
use crate::constraints::{bounded_contains, size_contains, Bounded};
use crate::ber::de::{b128_numbers, oid_arcs_spec, split_root};
use crate::tag::{b128, b128_value, lemma_b128, lemma_b128_prefix_grows};
use super::{arcs_b128, bit_string_encoding, oid_content, oid_encoding, oid_valid};
use super::de::bit_string_decoding;
use crate::bits::{mask_last, unused_bits, BitString};
use vstd::prelude::*;

verus! {

/// Sign-extending minimal two's-complement bytes keeps their value.
pub proof fn lemma_sign_extend(body: Seq<u8>, k: nat)
    requires
        is_minimal_signed(body),
    ensures
        signed_of(
            Seq::new(
                k,
                |_i: int|
                    if signed_of(body) < 0 {
                        0xffu8
                    } else {
                        0u8
                    },
            ) + body,
        ) == signed_of(body),
    decreases k,
{
    let fill: u8 = if signed_of(body) < 0 {
        0xff
    } else {
        0
    };
    if k > 0 {
        lemma_sign_extend(body, (k - 1) as nat);
        let t = Seq::new(k, |_i: int| fill) + body;
        let u = Seq::new((k - 1) as nat, |_i: int| fill) + body;
        assert(t.drop_first() =~= u);
        if k == 1 {
            lemma_signed_unsigned(body);
            lemma_unsigned_bound(body);
            assert(u =~= body);
            assert(t[1] == body[0]);
        } else {
            assert(t[1] == fill);
        }
        lemma_signed_drop_redundant(t);
    } else {
        assert(Seq::new(0, |_i: int| fill) + body =~= body);
    }
}

/// Zero bytes in front keep an unsigned value.
pub proof fn lemma_zero_extend(body: Seq<u8>, k: nat)
    ensures
        unsigned_of(Seq::new(k, |_i: int| 0u8) + body) == unsigned_of(body),
    decreases k,
{
    if k > 0 {
        lemma_zero_extend(body, (k - 1) as nat);
        let t = Seq::new(k, |_i: int| 0u8) + body;
        assert(t.drop_first() =~= Seq::new((k - 1) as nat, |_i: int| 0u8) + body);
        lemma_unsigned_drop_zero(t);
    } else {
        assert(Seq::new(0, |_i: int| 0u8) + body =~= body);
    }
}

/// A length determinant reads back as its length, and takes exactly its bytes.
pub proof fn lemma_length_round_trip(n: nat, rest: Seq<u8>)
    requires
        n <= usize::MAX,
    ensures
        length_spec(length_determinant(n) + rest) == Some((n, length_determinant(n).len())),
{
    let s = length_determinant(n) + rest;
    if n >= 128 {
        lemma_min_unsigned_props(n);
        let m = min_unsigned(n);
        assert(pow256(8) == 0x1_0000_0000_0000_0000) by {
            reveal_with_fuel(pow256, 9);
        }
        lemma_min_unsigned_len(n, 8);
        assert(s[0] == 128 + m.len());
        assert(s.subrange(1, (1 + m.len()) as int) =~= m);
    }
}

/// Short form below 128, long form from 128 on, with the top bit set on the
/// first byte.
pub proof fn lemma_length_boundary(n: nat)
    requires
        n <= usize::MAX,
    ensures
        n < 128 ==> length_determinant(n).len() == 1,
        n >= 128 ==> length_determinant(n).len() >= 2 && length_determinant(n)[0] >= 128,
{
    if n >= 128 {
        lemma_min_unsigned_props(n);
        assert(pow256(8) == 0x1_0000_0000_0000_0000) by {
            reveal_with_fuel(pow256, 9);
        }
        lemma_min_unsigned_len(n, 8);
    }
}

/// The integer bytes the encoder writes are minimal: no redundant sign or zero
/// byte beyond what a fixed width asks for.
pub proof fn lemma_integer_bytes_minimal(v: int)
    ensures
        is_minimal_signed(integer_body(true, v)),
        signed_of(integer_body(true, v)) == v,
        v >= 0 ==> is_minimal_unsigned(integer_body(false, v)),
        v >= 0 ==> unsigned_of(integer_body(false, v)) == v,
{
    lemma_min_signed_props(v);
    if v >= 0 {
        lemma_min_unsigned_props(v as nat);
    }
}

/// A fixed-width integer reads back as its value.
pub proof fn lemma_fixed_integer_value(signed: bool, v: int, w: nat)
    requires
        signed || v >= 0,
        integer_body(signed, v).len() <= w,
    ensures
        fixed_integer(signed, v, w).len() == w,
        fixed_value(signed, fixed_integer(signed, v, w)) == v,
{
    let body = integer_body(signed, v);
    let k = (w - body.len()) as nat;
    if signed {
        lemma_min_signed_props(v);
        lemma_sign_extend(body, k);
    } else {
        lemma_min_unsigned_props(v as nat);
        lemma_zero_extend(body, k);
    }
}

/// A value within its visible bound reads back from its encoding, whatever follows.
pub proof fn lemma_integer_round_trip(b: Option<Bounded<i128>>, v: int, rest: Seq<u8>)
    requires
        b is None || bounded_contains(b.unwrap(), v),
        integer_encoding(b, v).len() <= usize::MAX,
    ensures
        integer_decoding(b, integer_encoding(b, v) + rest) == Some((v, integer_encoding(b, v).len())),
{
    let e = integer_encoding(b, v);
    let s = e + rest;
    let sw = match b {
        None => (true, None::<u8>),
        Some(bound) => size_and_sign(bound),
    };
    if b is Some {
        super::enc::lemma_size_fits(b.unwrap(), v);
    }
    match sw.1 {
        Some(w) => {
            lemma_fixed_integer_value(sw.0, v, w as nat);
            assert(s.subrange(0, w as int) =~= e);
        },
        None => {
            let body = integer_body(sw.0, v);
            if sw.0 {
                lemma_min_signed_props(v);
            } else {
                lemma_min_unsigned_props(v as nat);
            }
            assert(e == length_determinant(body.len()) + body);
            lemma_length_round_trip(body.len(), body + rest);
            assert(s =~= length_determinant(body.len()) + (body + rest));
            let c = length_determinant(body.len()).len();
            assert(s.subrange(c as int, (c + body.len()) as int) =~= body);
        },
    }
}

/// An octet string within its visible size reads back from its encoding.
pub proof fn lemma_octet_string_round_trip(sz: Option<Bounded<usize>>, v: Seq<u8>, rest: Seq<u8>)
    requires
        sz is None || size_contains(sz.unwrap(), v.len() as int),
        v.len() <= usize::MAX,
    ensures
        octet_string_decoding(sz, octet_string_encoding(sz, v) + rest) == Some(
            (v, octet_string_encoding(sz, v).len()),
        ),
{
    let e = octet_string_encoding(sz, v);
    let s = e + rest;
    match sz {
        Some(Bounded::Single(n)) => {
            assert(s.subrange(0, n as int) =~= v);
        },
        _ => {
            lemma_length_round_trip(v.len(), v + rest);
            assert(s =~= length_determinant(v.len()) + (v + rest));
            let c = length_determinant(v.len()).len();
            assert(s.subrange(c as int, (c + v.len()) as int) =~= v);
        },
    }
}

/// An enumerated value that fits a signed 64-bit word reads back from its encoding.
pub proof fn lemma_enumerated_round_trip(d: int, rest: Seq<u8>)
    requires
        i64::MIN <= d <= i64::MAX,
    ensures
        enumerated_decoding(enumerated_encoding(d) + rest) == Some((d, enumerated_encoding(d).len())),
{
    let e = enumerated_encoding(d);
    let s = e + rest;
    if !(0 <= d <= 127) {
        lemma_min_signed_props(d);
        assert(pow256(7) == 0x100000000000000) by {
            reveal_with_fuel(pow256, 8);
        }
        lemma_min_signed_len(d, 8);
        let m = min_signed(d);
        assert(e == seq![(128 + m.len()) as u8] + m);
        assert(s.subrange(1, (1 + m.len()) as int) =~= m);
    }
}

/// A boolean reads back from its canonical octet.
pub proof fn lemma_bool_round_trip(value: bool)
    ensures
        ((if value {
            0xffu8
        } else {
            0x00u8
        }) != 0) == value,
{
}

/// Reading the tail of a base-128 number that has reached its `k`-th byte ends
/// with the number, then reads on.
pub proof fn lemma_b128_numbers_step(n: nat, k: int, t: Seq<u8>)
    requires
        n <= u32::MAX,
        0 <= k < b128(n).len(),
    ensures
        b128_numbers(
            b128(n).subrange(k, b128(n).len() as int) + t,
            b128_value(b128(n).subrange(0, k)),
            k > 0,
        ) == (match b128_numbers(t, 0, false) {
            Some(r) => Some(seq![n as u32] + r),
            None => None,
        }),
    decreases b128(n).len() - k,
{
    let e = b128(n);
    let l = e.len() as int;
    lemma_b128(n);
    let s = e.subrange(k, l) + t;
    let pre = e.subrange(0, k + 1);
    assert(pre.drop_last() =~= e.subrange(0, k));
    assert(s[0] == e[k]);
    assert(s.drop_first() =~= e.subrange(k + 1, l) + t);
    lemma_b128_prefix_grows(e, k + 1, l);
    assert(e.subrange(0, l) =~= e);
    if k + 1 < l {
        lemma_b128_numbers_step(n, k + 1, t);
    } else {
        assert(e.subrange(k + 1, l) + t =~= t);
    }
}

/// A base-128 number in front of `t` is read first, then `t`.
pub proof fn lemma_b128_numbers_front(n: nat, t: Seq<u8>)
    requires
        n <= u32::MAX,
    ensures
        b128_numbers(b128(n) + t, 0, false) == (match b128_numbers(t, 0, false) {
            Some(r) => Some(seq![n as u32] + r),
            None => None,
        }),
{
    lemma_b128(n);
    lemma_b128_numbers_step(n, 0, t);
    assert(b128(n).subrange(0, b128(n).len() as int) =~= b128(n));
    assert(b128(n).subrange(0, 0).len() == 0);
}

/// The arcs' encodings, taken from the front.
pub proof fn lemma_arcs_b128_front(arcs: Seq<u32>)
    requires
        arcs.len() >= 1,
    ensures
        arcs_b128(arcs) == b128(arcs[0] as nat) + arcs_b128(arcs.drop_first()),
    decreases arcs.len(),
{
    if arcs.len() == 1 {
        assert(arcs.drop_last().len() == 0);
        assert(arcs.drop_first().len() == 0);
        assert(arcs_b128(arcs.drop_last()) =~= Seq::<u8>::empty());
        assert(arcs_b128(arcs.drop_first()) =~= Seq::<u8>::empty());
        assert(arcs_b128(arcs) =~= b128(arcs[0] as nat));
    } else {
        let t = arcs.drop_last();
        lemma_arcs_b128_front(t);
        assert(t.drop_first() =~= arcs.drop_first().drop_last());
        assert(arcs.drop_first().last() == arcs.last());
        assert(arcs_b128(arcs) =~= b128(arcs[0] as nat) + arcs_b128(arcs.drop_first()));
    }
}

/// The arcs' encodings read back as the arcs.
pub proof fn lemma_arcs_numbers(arcs: Seq<u32>)
    ensures
        b128_numbers(arcs_b128(arcs), 0, false) == Some(arcs),
    decreases arcs.len(),
{
    if arcs.len() == 0 {
        assert(arcs_b128(arcs).len() == 0);
        assert(arcs =~= Seq::<u32>::empty());
    } else {
        lemma_arcs_b128_front(arcs);
        lemma_arcs_numbers(arcs.drop_first());
        lemma_b128_numbers_front(arcs[0] as nat, arcs_b128(arcs.drop_first()));
        assert(seq![arcs[0]] + arcs.drop_first() =~= arcs);
    }
}

/// The contents of a valid object identifier read back as its arcs, and its
/// encoding as those contents.
pub proof fn lemma_object_identifier_round_trip(arcs: Seq<u32>, rest: Seq<u8>)
    requires
        oid_valid(arcs),
        oid_content(arcs).len() <= usize::MAX,
    ensures
        oid_arcs_spec(oid_content(arcs)) == Some(arcs),
        octet_string_decoding(None, oid_encoding(arcs) + rest) == Some(
            (oid_content(arcs), oid_encoding(arcs).len()),
        ),
{
    let root = (arcs[0] * 40 + arcs[1]) as nat;
    let tail = arcs.subrange(2, arcs.len() as int);
    lemma_arcs_numbers(tail);
    lemma_b128_numbers_front(root, arcs_b128(tail));
    let ns = seq![root as u32] + tail;
    assert(ns.drop_first() =~= tail);
    assert(split_root(root as u32) == (arcs[0], arcs[1]));
    assert(seq![arcs[0], arcs[1]] + tail =~= arcs);
    lemma_octet_string_round_trip(None, oid_content(arcs), rest);
}

/// Masking the unused bits of a well-formed bit string changes nothing.
pub proof fn lemma_mask_wf(b: BitString)
    requires
        b.wf(),
    ensures
        mask_last(b.bytes@, unused_bits(b.bit_len as nat)) == b.bytes@,
{
    let u = unused_bits(b.bit_len as nat);
    if b.bytes@.len() > 0 && u > 0 {
        let last = b.bytes@.last();
        assert((last - (last as nat) % crate::bits::pow2_spec(u)) as u8 == last);
        assert(b.bytes@.update(b.bytes@.len() - 1, last) =~= b.bytes@);
    }
}

/// A bit string within its visible size reads back from its encoding: the
/// same bytes and the same number of bits.
pub proof fn lemma_bit_string_round_trip(sz: Option<Bounded<usize>>, b: BitString, rest: Seq<u8>)
    requires
        b.wf(),
        sz is None || size_contains(sz.unwrap(), b.bit_len as int),
        b.bit_len + 16 <= usize::MAX,
    ensures
        bit_string_decoding(sz, bit_string_encoding(sz, b.bytes@, b.bit_len as nat) + rest) == Some(
            (b.bytes@, b.bit_len as nat, bit_string_encoding(sz, b.bytes@, b.bit_len as nat).len()),
        ),
{
    let n = b.bit_len as nat;
    let bytes = b.bytes@;
    let e = bit_string_encoding(sz, bytes, n);
    let s = e + rest;
    lemma_mask_wf(b);
    super::sequence::lemma_unused_fill(n);
    match sz {
        Some(Bounded::Single(m)) => {
            assert(m == n);
            assert(s.subrange(0, bytes.len() as int) =~= bytes);
        },
        _ => {
            let u = unused_bits(n) as u8;
            let l = bytes.len() + 1;
            let body = seq![u] + bytes + rest;
            assert(s =~= length_determinant(l) + body);
            lemma_length_round_trip(l, body);
            let c = length_determinant(l).len();
            assert(s.subrange(c as int, s.len() as int) =~= body);
            assert(s[c as int] == u);
            assert(s.subrange((c + 1) as int, (c + l) as int) =~= bytes);
            if l == 1 {
                assert(n == 0);
            }
        },
    }
}

} // verus!
