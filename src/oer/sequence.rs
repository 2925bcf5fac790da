//! Sequences: the preamble bitmap of optional fields and the extension
//! additions, each of which travels as a length-prefixed open type.
use super::de::{octet_string_decoding, Decoder};
use super::enc::Encoder;
use super::length_determinant;
use super::roundtrip::{lemma_length_round_trip, lemma_octet_string_round_trip};
use crate::bits::unused_bits;
use crate::error::DecodeError;
use vstd::prelude::*;

verus! {

/// Bit `i` of `bits` as `0` or `1`; past the end, `0`.
pub open spec fn bit_u8(bits: Seq<bool>, i: int) -> u8 {
    if 0 <= i < bits.len() && bits[i] {
        1u8
    } else {
        0u8
    }
}

/// The byte holding `bits[at..at + 8]`, most significant bit first.
pub open spec fn byte_of(bits: Seq<bool>, at: int) -> u8 {
    (bit_u8(bits, at) << 7u8) | (bit_u8(bits, at + 1) << 6u8) | (bit_u8(bits, at + 2) << 5u8) | (
    bit_u8(bits, at + 3) << 4u8) | (bit_u8(bits, at + 4) << 3u8) | (bit_u8(bits, at + 5) << 2u8)
        | (bit_u8(bits, at + 6) << 1u8) | bit_u8(bits, at + 7)
}

/// `bits` packed most significant bit first into bytes, the last padded with zeros.
#[verifier::opaque]
pub open spec fn pack_bits(bits: Seq<bool>) -> Seq<u8> {
    Seq::new(((bits.len() + 7) / 8) as nat, |k: int| byte_of(bits, 8 * k))
}

/// Bit `j` of `b`, counting from the most significant.
pub open spec fn bit_in_byte(b: u8, j: int) -> bool {
    ((b >> ((7 - j) as u8)) & 1u8) == 1u8
}

/// Bit `i` of the bytes `s`, most significant bit of each byte first.
pub open spec fn bit_at(s: Seq<u8>, i: int) -> bool {
    bit_in_byte(s[i / 8], i % 8)
}

/// The bits of a preamble: the extension bit where the type is extensible,
/// then one bit per optional or default field.
pub open spec fn preamble_bits(extensible: bool, extensions_present: bool, presence: Seq<bool>) -> Seq<
    bool,
> {
    (if extensible {
        seq![extensions_present]
    } else {
        Seq::empty()
    }) + presence
}

/// A preamble at the front of `s`: the extension bit (false where the type is
/// not extensible), the presence bits, and the bytes taken.
pub open spec fn preamble_decoding(extensible: bool, n: nat, s: Seq<u8>) -> Option<
    (bool, Seq<bool>, nat),
> {
    let off: int = if extensible {
        1
    } else {
        0
    };
    let nb = ((off + n + 7) / 8) as nat;
    if s.len() >= nb {
        Some((extensible && bit_at(s, 0), Seq::new(n, |i: int| bit_at(s, off + i)), nb))
    } else {
        None
    }
}

/// Which extension additions are present.
pub open spec fn presence_of(adds: Seq<Option<Seq<u8>>>) -> Seq<bool> {
    adds.map_values(|a: Option<Seq<u8>>| a is Some)
}

/// Each present addition as an open type: its length, then its bytes.
pub open spec fn open_types(adds: Seq<Option<Seq<u8>>>) -> Seq<u8>
    decreases adds.len(),
{
    if adds.len() == 0 {
        Seq::empty()
    } else {
        (match adds[0] {
            Some(a) => length_determinant(a.len()) + a,
            None => Seq::empty(),
        }) + open_types(adds.drop_first())
    }
}

/// Extension additions: the presence bitmap as a length-prefixed bit string
/// with its count of unused bits, then the open types.
pub open spec fn extension_encoding(adds: Seq<Option<Seq<u8>>>) -> Seq<u8> {
    let bits = presence_of(adds);
    length_determinant(pack_bits(bits).len() + 1) + seq![unused_bits(bits.len()) as u8] + pack_bits(
        bits,
    ) + open_types(adds)
}

/// Open types at the front of `s`, one for each set bit.
pub open spec fn open_types_decoding(bits: Seq<bool>, s: Seq<u8>) -> Option<
    (Seq<Option<Seq<u8>>>, nat),
>
    decreases bits.len(),
{
    if bits.len() == 0 {
        Some((Seq::empty(), 0))
    } else if bits[0] {
        match octet_string_decoding(None, s) {
            Some((v, c)) => match open_types_decoding(bits.drop_first(), s.subrange(c as int, s.len() as int)) {
                Some((r, c2)) => Some((seq![Some(v)] + r, c + c2)),
                None => None,
            },
            None => None,
        }
    } else {
        match open_types_decoding(bits.drop_first(), s) {
            Some((r, c2)) => Some((seq![None] + r, c2)),
            None => None,
        }
    }
}

/// Extension additions at the front of `s`, and the bytes they took.
pub open spec fn extension_decoding(s: Seq<u8>) -> Option<(Seq<Option<Seq<u8>>>, nat)> {
    match super::de::length_spec(s) {
        Some((len, c)) => if len >= 1 && s.len() >= c + len && s[c as int] <= 7 && (len == 1
            ==> s[c as int] == 0) && (len - 1) * 8 + 8 <= usize::MAX {
            let n = ((len - 1) * 8 - s[c as int]) as nat;
            let bytes = s.subrange((c + 1) as int, (c + len) as int);
            let bits = Seq::new(n, |i: int| bit_at(bytes, i));
            match open_types_decoding(bits, s.subrange((c + len) as int, s.len() as int)) {
                Some((adds, c2)) => Some((adds, c + len + c2)),
                None => None,
            }
        } else {
            None
        },
        None => None,
    }
}

/// The view of additions held in memory.
pub open spec fn adds_view(v: Seq<Option<Vec<u8>>>) -> Seq<Option<Seq<u8>>> {
    v.map_values(
        |a: Option<Vec<u8>>|
            match a {
                Some(x) => Some(x@),
                None => None,
            },
    )
}

/// Byte `k` of `ceil(len / 8)` starts within reach of `len + 7`.
pub proof fn lemma_byte_index(k: int, nb: int, len: int)
    requires
        0 <= k < nb,
        nb == (len + 7) / 8,
        len >= 0,
    ensures
        8 * k + 8 <= len + 7,
{
    vstd::arithmetic::div_mod::lemma_fundamental_div_mod(len + 7, 8);
    vstd::arithmetic::div_mod::lemma_mod_bound(len + 7, 8);
    assert(8 * k + 8 <= 8 * nb) by (nonlinear_arith)
        requires
            k < nb,
    ;
}

/// Bit `x` of `total` bits lies in the first `ceil(total / 8)` bytes.
pub proof fn lemma_bit_in_bytes(x: int, total: int)
    requires
        0 <= x < total,
    ensures
        x / 8 < (total + 7) / 8,
{
    vstd::arithmetic::div_mod::lemma_hoist_over_denominator(total - 1, 1, 8);
    vstd::arithmetic::div_mod::lemma_div_is_ordered(x, total - 1, 8);
}

/// `ceil(n / 8)` bytes less the unused bits are `n` bits.
pub proof fn lemma_unused_fill(n: nat)
    ensures
        8 * ((n + 7) / 8) - unused_bits(n) == n,
        8 * ((n + 7) / 8) <= n + 7,
{
    vstd::arithmetic::div_mod::lemma_fundamental_div_mod(n as int, 8);
    vstd::arithmetic::div_mod::lemma_mod_bound(n as int, 8);
    vstd::arithmetic::div_mod::lemma_fundamental_div_mod((n + 7) as int, 8);
    vstd::arithmetic::div_mod::lemma_mod_bound((n + 7) as int, 8);
    let q = n as int / 8;
    let r = n as int % 8;
    if r == 0 {
        vstd::arithmetic::div_mod::lemma_fundamental_div_mod_converse((n + 7) as int, 8, q, 7);
    } else {
        vstd::arithmetic::div_mod::lemma_fundamental_div_mod_converse((n + 7) as int, 8, q + 1, r - 1);
    }
}

/// Open types of a concatenation are the concatenation of the open types.
pub proof fn lemma_open_types_concat(a: Seq<Option<Seq<u8>>>, b: Seq<Option<Seq<u8>>>)
    ensures
        open_types(a + b) == open_types(a) + open_types(b),
    decreases a.len(),
{
    if a.len() == 0 {
        assert(a + b =~= b);
        assert(open_types(a) + open_types(b) =~= open_types(b));
    } else {
        lemma_open_types_concat(a.drop_first(), b);
        assert((a + b).drop_first() =~= a.drop_first() + b);
        assert((a + b)[0] == a[0]);
    }
}

/// A byte's bits come back out of it.
pub proof fn lemma_byte_bits(bits: Seq<bool>, at: int, j: int)
    requires
        0 <= j < 8,
    ensures
        bit_in_byte(byte_of(bits, at), j) == (bit_u8(bits, at + j) == 1),
{
    let c0 = bit_u8(bits, at);
    let c1 = bit_u8(bits, at + 1);
    let c2 = bit_u8(bits, at + 2);
    let c3 = bit_u8(bits, at + 3);
    let c4 = bit_u8(bits, at + 4);
    let c5 = bit_u8(bits, at + 5);
    let c6 = bit_u8(bits, at + 6);
    let c7 = bit_u8(bits, at + 7);
    let k = (7 - j) as u8;
    let v = (c0 << 7u8) | (c1 << 6u8) | (c2 << 5u8) | (c3 << 4u8) | (c4 << 3u8) | (c5 << 2u8) | (c6
        << 1u8) | c7;
    assert(((v >> k) & 1u8) == (if k == 7 {
        c0
    } else if k == 6 {
        c1
    } else if k == 5 {
        c2
    } else if k == 4 {
        c3
    } else if k == 3 {
        c4
    } else if k == 2 {
        c5
    } else if k == 1 {
        c6
    } else {
        c7
    })) by (bit_vector)
        requires
            c0 <= 1 && c1 <= 1 && c2 <= 1 && c3 <= 1 && c4 <= 1 && c5 <= 1 && c6 <= 1 && c7 <= 1,
            k <= 7,
            v == (c0 << 7u8) | (c1 << 6u8) | (c2 << 5u8) | (c3 << 4u8) | (c4 << 3u8) | (c5 << 2u8)
                | (c6 << 1u8) | c7,
    ;
}

/// Packed bits come back out, and the padding stays in the last byte.
pub proof fn lemma_pack_bits(bits: Seq<bool>, i: int)
    requires
        0 <= i < bits.len(),
    ensures
        i / 8 < pack_bits(bits).len(),
        bit_at(pack_bits(bits), i) == bits[i],
{
    reveal(pack_bits);
    let k = i / 8;
    let j = i % 8;
    assert(i == 8 * k + j);
    lemma_byte_bits(bits, 8 * k, j);
}

/// Packing takes `ceil(n / 8)` bytes.
pub proof fn lemma_pack_len(bits: Seq<bool>)
    ensures
        pack_bits(bits).len() == (bits.len() + 7) / 8,
{
    reveal(pack_bits);
}

/// Bit `j` of `b`, computed.
pub fn bit_of_byte(b: u8, j: u8) -> (r: bool)
    requires
        j < 8,
    ensures
        r == bit_in_byte(b, j as int),
{
    ((b >> (7 - j)) & 1u8) == 1u8
}

fn bit_at_exec(bits: &[bool], i: usize) -> (r: u8)
    ensures
        r == bit_u8(bits@, i as int),
{
    if i < bits.len() && bits[i] {
        1u8
    } else {
        0u8
    }
}

/// `bits` packed most significant bit first.
pub fn pack(bits: &[bool]) -> (r: Vec<u8>)
    requires
        bits@.len() + 8 <= usize::MAX,
    ensures
        r@ == pack_bits(bits@),
{
    let nb: usize = bits.len() / 8 + if bits.len() % 8 == 0 {
        0
    } else {
        1
    };
    let mut out: Vec<u8> = Vec::new();
    let mut k: usize = 0;
    while k < nb
        invariant
            bits@.len() + 8 <= usize::MAX,
            nb == (bits@.len() + 7) / 8,
            k <= nb,
            out@.len() == k,
            forall|m: int| 0 <= m < k ==> #[trigger] out@[m] == byte_of(bits@, 8 * m),
        decreases nb - k,
    {
        proof {
            lemma_byte_index(k as int, nb as int, bits@.len() as int);
        }
        let at = 8 * k;
        let byte = (bit_at_exec(bits, at) << 7u8) | (bit_at_exec(bits, at + 1) << 6u8) | (bit_at_exec(
            bits,
            at + 2,
        ) << 5u8) | (bit_at_exec(bits, at + 3) << 4u8) | (bit_at_exec(bits, at + 4) << 3u8) | (
        bit_at_exec(bits, at + 5) << 2u8) | (bit_at_exec(bits, at + 6) << 1u8) | bit_at_exec(
            bits,
            at + 7,
        );
        out.push(byte);
        k = k + 1;
    }
    proof {
        reveal(pack_bits);
        assert(out@ =~= pack_bits(bits@));
    }
    out
}

/// Bit `i` of the bytes `s`, computed.
pub fn bit_at_bytes(s: &[u8], i: usize) -> (r: bool)
    requires
        i / 8 < s@.len(),
    ensures
        r == bit_at(s@, i as int),
{
    bit_of_byte(s[i / 8], (i % 8) as u8)
}

impl Encoder {
    /// Writes the preamble of a sequence: the extension bit where the type is
    /// extensible, then one bit per optional field, padded to whole bytes.
    pub fn encode_sequence_preamble(
        &mut self,
        extensible: bool,
        extensions_present: bool,
        presence: &[bool],
    )
        requires
            presence@.len() + 16 <= usize::MAX,
        ensures
            final(self)@ == old(self)@ + pack_bits(
                preamble_bits(extensible, extensions_present, presence@),
            ),
    {
        let ghost head: Seq<bool> = if extensible {
            seq![extensions_present]
        } else {
            Seq::empty()
        };
        let mut bits: Vec<bool> = Vec::new();
        if extensible {
            bits.push(extensions_present);
        }
        proof {
            assert(bits@ =~= head + presence@.subrange(0, 0));
        }
        let mut i: usize = 0;
        while i < presence.len()
            invariant
                i <= presence@.len(),
                bits@ == head + presence@.subrange(0, i as int),
            decreases presence@.len() - i,
        {
            proof {
                assert(head + presence@.subrange(0, i + 1) =~= (head + presence@.subrange(
                    0,
                    i as int,
                )).push(presence@[i as int]));
            }
            bits.push(presence[i]);
            i = i + 1;
        }
        proof {
            assert(presence@.subrange(0, presence@.len() as int) =~= presence@);
        }
        let bytes = pack(bits.as_slice());
        self.write_bytes(bytes.as_slice());
    }

    /// Writes extension additions: which are present as a length-prefixed bit
    /// string, then each present one as a length-prefixed open type.
    pub fn encode_extension_additions(&mut self, additions: &Vec<Option<Vec<u8>>>)
        requires
            additions@.len() + 8 <= usize::MAX,
        ensures
            final(self)@ == old(self)@ + extension_encoding(adds_view(additions@)),
    {
        let ghost adds = adds_view(additions@);
        let mut bits: Vec<bool> = Vec::new();
        let mut i: usize = 0;
        while i < additions.len()
            invariant
                i <= additions@.len(),
                adds == adds_view(additions@),
                bits@ =~= presence_of(adds).subrange(0, i as int),
            decreases additions@.len() - i,
        {
            bits.push(additions[i].is_some());
            i = i + 1;
        }
        proof {
            assert(presence_of(adds).subrange(0, additions@.len() as int) =~= presence_of(adds));
        }
        let map = pack(bits.as_slice());
        proof {
            lemma_pack_len(bits@);
        }
        let n = bits.len();
        let unused: u8 = if n % 8 == 0 {
            0
        } else {
            (8 - n % 8) as u8
        };
        self.encode_length(map.len() + 1, false);
        self.write_bytes(&[unused]);
        self.write_bytes(map.as_slice());
        let ghost before = self@;
        let mut k: usize = 0;
        proof {
            assert(adds.subrange(0, 0) =~= Seq::<Option<Seq<u8>>>::empty());
            lemma_open_types_prefix(adds, 0);
        }
        while k < additions.len()
            invariant
                k <= additions@.len(),
                adds == adds_view(additions@),
                self@ == before + open_types(adds.subrange(0, k as int)),
            decreases additions@.len() - k,
        {
            proof {
                lemma_open_types_prefix(adds, k as int + 1);
                lemma_open_types_prefix(adds, k as int);
            }
            match &additions[k] {
                Some(a) => {
                    self.encode_length(a.len(), false);
                    self.write_bytes(a.as_slice());
                },
                None => {},
            }
            proof {
                assert(self@ =~= before + open_types(adds.subrange(0, k as int + 1)));
            }
            k = k + 1;
        }
        proof {
            assert(adds.subrange(0, additions@.len() as int) =~= adds);
            assert(self@ =~= old(self)@ + extension_encoding(adds));
        }
    }
}

/// The open types of a prefix grow by the next addition.
pub proof fn lemma_open_types_prefix(adds: Seq<Option<Seq<u8>>>, k: int)
    requires
        0 <= k <= adds.len(),
    ensures
        k < adds.len() ==> open_types(adds.subrange(0, k + 1)) == open_types(adds.subrange(0, k))
            + (match adds[k] {
            Some(a) => length_determinant(a.len()) + a,
            None => Seq::empty(),
        }),
{
    if k < adds.len() {
        let one = seq![adds[k]];
        assert(adds.subrange(0, k + 1) =~= adds.subrange(0, k) + one);
        lemma_open_types_concat(adds.subrange(0, k), one);
        assert(one.drop_first().len() == 0);
        assert(open_types(one.drop_first()) == Seq::<u8>::empty());
        assert(open_types(one) =~= (match adds[k] {
            Some(a) => length_determinant(a.len()) + a,
            None => Seq::empty(),
        }));
    }
}

impl Decoder {
    /// Reads a preamble: the extension bit where the type is extensible, then
    /// `n` presence bits.
    pub fn decode_sequence_preamble(&mut self, extensible: bool, n: usize) -> (r: Result<
        (bool, Vec<bool>),
        DecodeError,
    >)
        requires
            old(self).wf(),
            n + 8 <= usize::MAX,
        ensures
            final(self).wf(),
            r.is_ok() == preamble_decoding(extensible, n as nat, old(self)@).is_some(),
            r matches Ok((e, p)) ==> (e, p@, (old(self)@.len() - final(self)@.len()) as nat)
                == preamble_decoding(extensible, n as nat, old(self)@).unwrap(),
    {
        let off: usize = if extensible {
            1
        } else {
            0
        };
        let total = off + n;
        let nb: usize = total / 8 + if total % 8 == 0 {
            0
        } else {
            1
        };
        let ghost s = self@;
        let bytes = self.take(nb)?;
        let e = if extensible {
            bit_at_bytes(bytes.as_slice(), 0)
        } else {
            false
        };
        let mut p: Vec<bool> = Vec::new();
        let mut i: usize = 0;
        while i < n
            invariant
                i <= n,
                total == off + n,
                nb == (total + 7) / 8,
                nb <= s.len(),
                bytes@ == s.subrange(0, nb as int),
                p@.len() == i,
                forall|m: int| 0 <= m < i ==> #[trigger] p@[m] == bit_at(s, off + m),
            decreases n - i,
        {
            proof {
                lemma_bit_in_bytes((off + i) as int, total as int);
                assert(bytes@[(off + i) / 8] == s[(off + i) / 8]);
            }
            let b = bit_at_bytes(bytes.as_slice(), off + i);
            p.push(b);
            i = i + 1;
        }
        proof {
            assert(p@ =~= Seq::new(n as nat, |m: int| bit_at(s, off + m)));
        }
        Ok((e, p))
    }

    /// Reads extension additions: the presence bit string, then one open type
    /// per set bit. A decoder that knows none of them can read past them this way.
    pub fn decode_extension_additions(&mut self) -> (r: Result<Vec<Option<Vec<u8>>>, DecodeError>)
        requires
            old(self).wf(),
        ensures
            final(self).wf(),
            r.is_ok() == extension_decoding(old(self)@).is_some(),
            r matches Ok(v) ==> (adds_view(v@), (old(self)@.len() - final(self)@.len()) as nat)
                == extension_decoding(old(self)@).unwrap(),
    {
        let ghost s = self@;
        let len = self.decode_length()?;
        let ghost c = super::de::length_spec(s).unwrap().1;
        if len == 0 {
            return Err(DecodeError::UnexpectedEmptyInput);
        }
        let unused = self.parse_one_byte()?;
        if unused > 7 || (len == 1 && unused != 0) {
            return Err(DecodeError::InvalidBitString { bits: unused });
        }
        let bytes = self.take(len - 1)?;
        proof {
            assert(bytes@ =~= s.subrange((c + 1) as int, (c + len) as int));
        }
        if len - 1 > (usize::MAX - 8) / 8 {
            return Err(DecodeError::ExceedsMaxLength);
        }
        let n: usize = (len - 1) * 8 - unused as usize;
        let ghost bits = Seq::new(n as nat, |i: int| bit_at(bytes@, i));
        let ghost after = self@;
        proof {
            assert(after =~= s.subrange((c + len) as int, s.len() as int));
        }
        let mut out: Vec<Option<Vec<u8>>> = Vec::new();
        let mut i: usize = 0;
        let ghost head_len: nat = (c + len) as nat;
        proof {
            assert(s.len() - after.len() == head_len);
            assert(extension_decoding(s) == (match open_types_decoding(bits, after) {
                Some((adds, c2)) => Some((adds, head_len + c2)),
                None => None,
            }));
            assert(bits.subrange(0, n as int) =~= bits);
            assert(after.subrange(0, after.len() as int) =~= after);
            assert(adds_view(out@) =~= Seq::<Option<Seq<u8>>>::empty());
            match open_types_decoding(bits, after) {
                Some((r, c2)) => {
                    assert(adds_view(out@) + r =~= r);
                },
                None => {},
            }
        }
        while i < n
            invariant
                self.wf(),
                i <= n,
                n == bits.len(),
                forall|m: int| 0 <= m < n ==> #[trigger] bits[m] == bit_at(bytes@, m),
                n <= (len - 1) * 8,
                bytes@.len() == len - 1,
                after.len() >= self@.len(),
                self@ == after.subrange((after.len() - self@.len()) as int, after.len() as int),
                s == old(self)@,
                s.len() - after.len() == head_len,
                extension_decoding(s) == (match open_types_decoding(bits, after) {
                    Some((adds, c2)) => Some((adds, head_len + c2)),
                    None => None,
                }),
                open_types_decoding(bits, after) == (match open_types_decoding(
                    bits.subrange(i as int, n as int),
                    self@,
                ) {
                    Some((r, c2)) => Some((adds_view(out@) + r, ((after.len() - self@.len()) + c2) as nat)),
                    None => None,
                }),
            decreases n - i,
        {
            let present = bit_at_bytes(bytes.as_slice(), i);
            let ghost cur = self@;
            let ghost tail = bits.subrange(i as int, n as int);
            proof {
                assert(tail[0] == present);
                assert(tail.drop_first() =~= bits.subrange(i + 1, n as int));
            }
            if present {
                let m = match self.decode_length() {
                    Ok(m) => m,
                    Err(e) => {
                        proof {
                            assert(octet_string_decoding(None, cur) is None);
                            assert(open_types_decoding(tail, cur) is None);
                        }
                        return Err(e);
                    },
                };
                let v = match self.take(m) {
                    Ok(v) => v,
                    Err(e) => {
                        proof {
                            assert(octet_string_decoding(None, cur) is None);
                            assert(open_types_decoding(tail, cur) is None);
                        }
                        return Err(e);
                    },
                };
                proof {
                    let cc = super::de::length_spec(cur).unwrap().1;
                    assert(v@ =~= cur.subrange(cc as int, (cc + m) as int));
                    assert(self@ =~= cur.subrange((cc + m) as int, cur.len() as int));
                    assert(octet_string_decoding(None, cur) == Some((v@, (cc + m) as nat)));
                    assert(self@ =~= after.subrange((after.len() - self@.len()) as int, after.len() as int));
                    assert(adds_view(out@.push(Some(v))) =~= adds_view(out@) + seq![Some(v@)]);
                    match open_types_decoding(bits.subrange(i + 1, n as int), self@) {
                        Some((r, c2)) => {
                            assert(adds_view(out@) + (seq![Some(v@)] + r) =~= adds_view(
                                out@.push(Some(v)),
                            ) + r);
                        },
                        None => {},
                    }
                }
                out.push(Some(v));
            } else {
                proof {
                    assert(adds_view(out@.push(None)) =~= adds_view(out@) + seq![None]);
                    match open_types_decoding(bits.subrange(i + 1, n as int), self@) {
                        Some((r, c2)) => {
                            assert(adds_view(out@) + (seq![None] + r) =~= adds_view(
                                out@.push(None),
                            ) + r);
                        },
                        None => {},
                    }
                }
                out.push(None);
            }
            i = i + 1;
        }
        proof {
            assert(bits.subrange(n as int, n as int).len() == 0);
            assert(adds_view(out@) + Seq::<Option<Seq<u8>>>::empty() =~= adds_view(out@));
        }
        Ok(out)
    }
}

/// A preamble reads back as the extension bit and the presence bits it was
/// written from, and takes exactly its bytes.
pub proof fn lemma_preamble_round_trip(
    extensible: bool,
    extensions_present: bool,
    presence: Seq<bool>,
    rest: Seq<u8>,
)
    ensures
        preamble_decoding(
            extensible,
            presence.len(),
            pack_bits(preamble_bits(extensible, extensions_present, presence)) + rest,
        ) == Some(
            (
                extensible && extensions_present,
                presence,
                pack_bits(preamble_bits(extensible, extensions_present, presence)).len(),
            ),
        ),
{
    let bits = preamble_bits(extensible, extensions_present, presence);
    let packed = pack_bits(bits);
    lemma_pack_len(bits);
    let s = packed + rest;
    let off: int = if extensible {
        1
    } else {
        0
    };
    assert(bits.len() == off + presence.len());
    assert forall|i: int| 0 <= i < bits.len() implies #[trigger] bit_at(s, i) == bits[i] by {
        lemma_pack_bits(bits, i);
        assert(s[i / 8] == packed[i / 8]);
    }
    if extensible {
        assert(bit_at(s, 0) == bits[0]);
    }
    assert(Seq::new(presence.len(), |i: int| bit_at(s, off + i)) =~= presence) by {
        assert forall|i: int| 0 <= i < presence.len() implies bit_at(s, off + i) == presence[i] by {
            assert(bits[off + i] == presence[i]);
        }
    }
}

/// Open types read back, one per present addition.
pub proof fn lemma_open_types_round_trip(adds: Seq<Option<Seq<u8>>>, rest: Seq<u8>)
    requires
        forall|i: int| 0 <= i < adds.len() && (#[trigger] adds[i]) is Some ==> adds[i].unwrap().len()
            <= usize::MAX,
    ensures
        open_types_decoding(presence_of(adds), open_types(adds) + rest) == Some(
            (adds, open_types(adds).len()),
        ),
    decreases adds.len(),
{
    if adds.len() > 0 {
        let t = adds.drop_first();
        assert forall|i: int| 0 <= i < t.len() && (#[trigger] t[i]) is Some implies t[i].unwrap().len()
            <= usize::MAX by {
            assert(t[i] == adds[i + 1]);
        }
        lemma_open_types_round_trip(t, rest);
        assert(presence_of(adds).drop_first() =~= presence_of(t));
        let s = open_types(adds) + rest;
        match adds[0] {
            Some(a) => {
                let head = length_determinant(a.len()) + a;
                assert(s =~= head + (open_types(t) + rest));
                lemma_octet_string_round_trip(None, a, open_types(t) + rest);
                assert(s.subrange(head.len() as int, s.len() as int) =~= open_types(t) + rest);
                assert(seq![Some(a)] + t =~= adds);
            },
            None => {
                assert(s =~= open_types(t) + rest);
                assert(seq![None] + t =~= adds);
            },
        }
    }
}

/// All packed bits come back out.
pub proof fn lemma_pack_all(bits: Seq<bool>)
    ensures
        Seq::new(bits.len(), |i: int| bit_at(pack_bits(bits), i)) == bits,
{
    assert forall|i: int| 0 <= i < bits.len() implies #[trigger] bit_at(pack_bits(bits), i)
        == bits[i] by {
        lemma_pack_bits(bits, i);
    }
    assert(Seq::new(bits.len(), |i: int| bit_at(pack_bits(bits), i)) =~= bits);
}

/// The parts of an extension encoding, where the decoder finds them.
pub proof fn lemma_extension_parts(ld: Seq<u8>, u: u8, packed: Seq<u8>, tail: Seq<u8>)
    ensures
        ({
            let s = ld + (seq![u] + packed + tail);
            &&& s[ld.len() as int] == u
            &&& s.subrange((ld.len() + 1) as int, (ld.len() + 1 + packed.len()) as int) == packed
            &&& s.subrange((ld.len() + 1 + packed.len()) as int, s.len() as int) == tail
        }),
{
    let s = ld + (seq![u] + packed + tail);
    assert(s.subrange((ld.len() + 1) as int, (ld.len() + 1 + packed.len()) as int) =~= packed);
    assert(s.subrange((ld.len() + 1 + packed.len()) as int, s.len() as int) =~= tail);
}

/// What `extension_decoding` reads, given where the parts lie.
pub proof fn lemma_extension_decoding_at(
    s: Seq<u8>,
    len: nat,
    c: nat,
    u: u8,
    packed: Seq<u8>,
    tail: Seq<u8>,
    bits: Seq<bool>,
)
    requires
        super::de::length_spec(s) == Some((len, c)),
        len == packed.len() + 1,
        s.len() == c + len + tail.len(),
        s[c as int] == u,
        u <= 7,
        len == 1 ==> u == 0,
        (len - 1) * 8 + 8 <= usize::MAX,
        s.subrange((c + 1) as int, (c + len) as int) == packed,
        s.subrange((c + len) as int, s.len() as int) == tail,
        Seq::new(((len - 1) * 8 - u) as nat, |i: int| bit_at(packed, i)) == bits,
    ensures
        extension_decoding(s) == (match open_types_decoding(bits, tail) {
            Some((adds, c2)) => Some((adds, c + len + c2)),
            None => None,
        }),
{
}

/// Extension additions read back from their encoding, whatever follows; a
/// decoder that knows none of them reads past exactly their bytes.
pub proof fn lemma_extension_round_trip(adds: Seq<Option<Seq<u8>>>, rest: Seq<u8>)
    requires
        adds.len() + 16 <= usize::MAX,
        forall|i: int| 0 <= i < adds.len() && (#[trigger] adds[i]) is Some ==> adds[i].unwrap().len()
            <= usize::MAX,
    ensures
        extension_decoding(extension_encoding(adds) + rest) == Some(
            (adds, extension_encoding(adds).len()),
        ),
{
    let bits = presence_of(adds);
    let packed = pack_bits(bits);
    let n = bits.len();
    lemma_unused_fill(n);
    lemma_pack_len(bits);
    let len = packed.len() + 1;
    let u = unused_bits(n) as u8;
    let tail = open_types(adds) + rest;
    let body = seq![u] + packed + tail;
    let ld = length_determinant(len);
    let s = extension_encoding(adds) + rest;
    assert(s =~= ld + body);
    lemma_length_round_trip(len, body);
    lemma_extension_parts(ld, u, packed, tail);
    lemma_pack_all(bits);
    assert((len - 1) * 8 - u == n);
    lemma_extension_decoding_at(s, len, ld.len(), u, packed, tail, bits);
    lemma_open_types_round_trip(adds, rest);
}

/// Where the parts of `a + b + c + d` start.
pub proof fn lemma_four_parts(a: Seq<u8>, b: Seq<u8>, c: Seq<u8>, d: Seq<u8>)
    ensures
        a + b + c + d == a + (b + (c + d)),
        (a + b + c + d).subrange(a.len() as int, (a + b + c + d).len() as int) == b + (c + d),
        (a + b + c + d).subrange((a.len() + b.len()) as int, (a + b + c + d).len() as int) == c + d,
        (a + b + c + d).subrange((a.len() + b.len() + c.len()) as int, (a + b + c + d).len() as int)
            == d,
{
    let s = a + b + c + d;
    assert(s =~= a + (b + (c + d)));
    assert(s.subrange(a.len() as int, s.len() as int) =~= b + (c + d));
    assert(s.subrange((a.len() + b.len()) as int, s.len() as int) =~= c + d);
    assert(s.subrange((a.len() + b.len() + c.len()) as int, s.len() as int) =~= d);
}

/// A decoder that knows only the root of an extensible sequence (here one
/// field of any type, under its constraints `cs`) reads the preamble and the
/// field back as written, then reads past the extension additions it does not
/// know, landing exactly where what follows begins.
pub proof fn lemma_unknown_extensions_skipped<T: super::value::OerType>(
    presence: Seq<bool>,
    field: T,
    cs: Seq<crate::constraints::Constraint>,
    adds: Seq<Option<Seq<u8>>>,
    rest: Seq<u8>,
)
    requires
        field.wf(),
        field.admissible(cs),
        field.encoding(cs).len() <= usize::MAX,
        adds.len() + 16 <= usize::MAX,
        forall|i: int| 0 <= i < adds.len() && (#[trigger] adds[i]) is Some ==> adds[i].unwrap().len()
            <= usize::MAX,
    ensures
        ({
            let pre = pack_bits(preamble_bits(true, true, presence));
            let enc = field.encoding(cs);
            let ext = extension_encoding(adds);
            let s = pre + enc + ext + rest;
            &&& preamble_decoding(true, presence.len(), s) == Some((true, presence, pre.len()))
            &&& T::decoding(cs, s.subrange(pre.len() as int, s.len() as int)) == Some(
                (field.value_of(), enc.len()),
            )
            &&& extension_decoding(s.subrange((pre.len() + enc.len()) as int, s.len() as int))
                == Some((adds, ext.len()))
            &&& s.subrange((pre.len() + enc.len() + ext.len()) as int, s.len() as int) == rest
        }),
{
    let pre = pack_bits(preamble_bits(true, true, presence));
    let enc = field.encoding(cs);
    let ext = extension_encoding(adds);
    lemma_four_parts(pre, enc, ext, rest);
    lemma_preamble_round_trip(true, true, presence, enc + (ext + rest));
    field.lemma_round_trip(cs, ext + rest);
    lemma_extension_round_trip(adds, rest);
}

/// Whatever the root of an extensible sequence holds (`root`, the encodings
/// of its fields one after another), a decoder that knows only the root reads
/// the preamble back, finds the root right after it, and reads past the
/// extension additions it does not know, landing exactly where what follows
/// begins. Field by field, each root field reads back from its encoding
/// whatever follows it (`value::lemma_value_round_trip`).
pub proof fn lemma_extensions_after_root(
    presence: Seq<bool>,
    root: Seq<u8>,
    adds: Seq<Option<Seq<u8>>>,
    rest: Seq<u8>,
)
    requires
        adds.len() + 16 <= usize::MAX,
        forall|i: int| 0 <= i < adds.len() && (#[trigger] adds[i]) is Some ==> adds[i].unwrap().len()
            <= usize::MAX,
    ensures
        ({
            let pre = pack_bits(preamble_bits(true, true, presence));
            let ext = extension_encoding(adds);
            let s = pre + root + ext + rest;
            &&& preamble_decoding(true, presence.len(), s) == Some((true, presence, pre.len()))
            &&& s.subrange(pre.len() as int, s.len() as int) == root + (ext + rest)
            &&& extension_decoding(s.subrange((pre.len() + root.len()) as int, s.len() as int))
                == Some((adds, ext.len()))
            &&& s.subrange((pre.len() + root.len() + ext.len()) as int, s.len() as int) == rest
        }),
{
    let pre = pack_bits(preamble_bits(true, true, presence));
    let ext = extension_encoding(adds);
    lemma_four_parts(pre, root, ext, rest);
    lemma_preamble_round_trip(true, true, presence, root + (ext + rest));
    lemma_extension_round_trip(adds, rest);
}

} // verus!
