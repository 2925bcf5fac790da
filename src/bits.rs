//! Bit strings and the byte forms of integers.
use crate::bytes::{lemma_min_signed_unique, lemma_min_unsigned_unique, min_signed, min_unsigned};
use crate::integer::Integer;
use vstd::prelude::*;

verus! {

/// `2` raised to the power `k`.
pub open spec fn pow2_spec(k: nat) -> nat
    decreases k,
{
    if k == 0 {
        1
    } else {
        2 * pow2_spec((k - 1) as nat)
    }
}

/// `2^bit_length - 1`, the largest number `bit_length` bits hold.
pub fn range_from_len(bit_length: u32) -> (r: i128)
    requires
        bit_length < 127,
    ensures
        r == vstd::arithmetic::power2::pow2(bit_length as nat) - 1,
{
    proof {
        vstd::arithmetic::power2::lemma2_to64_rest();
        vstd::arithmetic::power2::lemma_pow2_adds(63, 63);
    }
    let mut p: i128 = 1;
    let mut i: u32 = 0;
    proof {
        vstd::arithmetic::power2::lemma_pow2(0);
        reveal(vstd::arithmetic::power::pow);
    }
    while i < bit_length
        invariant
            i <= bit_length < 127,
            p == vstd::arithmetic::power2::pow2(i as nat),
            vstd::arithmetic::power2::pow2(126) == 0x4000_0000_0000_0000_0000_0000_0000_0000,
        decreases bit_length - i,
    {
        proof {
            vstd::arithmetic::power2::lemma_pow2_unfold((i + 1) as nat);
            if i + 1 < 126 {
                vstd::arithmetic::power2::lemma_pow2_strictly_increases((i + 1) as nat, 126);
            }
        }
        p = p * 2;
        i = i + 1;
    }
    p - 1
}

/// The minimal bytes of `value`: two's complement where `signed`, unsigned
/// otherwise, and none for a negative value read unsigned.
pub fn integer_to_bytes(value: &Integer, signed: bool) -> (r: Option<Vec<u8>>)
    requires
        value.wf(),
    ensures
        signed ==> r.is_some() && r.unwrap()@ == min_signed(value@),
        !signed && value@ >= 0 ==> r.is_some() && r.unwrap()@ == min_unsigned(value@ as nat),
        !signed && value@ < 0 ==> r.is_none(),
{
    if signed {
        let b = value.to_signed_bytes_be();
        proof {
            lemma_min_signed_unique(b@);
        }
        Some(b)
    } else if !value.is_negative() {
        let b = value.to_unsigned_bytes_be();
        proof {
            lemma_min_unsigned_unique(b@);
        }
        Some(b)
    } else {
        None
    }
}

/// A string of bits, packed most significant bit first into bytes whose unused
/// trailing bits are zero.
#[derive(Debug, Clone, PartialEq, Eq, Hash)]
pub struct BitString {
    pub bytes: Vec<u8>,
    pub bit_len: usize,
}

/// `n` bits take `ceil(n / 8)` bytes.
pub open spec fn bytes_for_bits(n: nat) -> nat {
    (n + 7) / 8
}

/// How many trailing bits of the last byte `n` bits leave unused.
pub open spec fn unused_bits(n: nat) -> nat {
    if n % 8 == 0 {
        0
    } else {
        (8 - n % 8) as nat
    }
}

/// `2^k` for `k <= 7`.
pub fn pow2_small(k: u8) -> (r: u8)
    requires
        k <= 7,
    ensures
        r == pow2_spec(k as nat),
        r >= 1,
{
    proof {
        reveal_with_fuel(pow2_spec, 8);
    }
    if k == 0 {
        1
    } else if k == 1 {
        2
    } else if k == 2 {
        4
    } else if k == 3 {
        8
    } else if k == 4 {
        16
    } else if k == 5 {
        32
    } else if k == 6 {
        64
    } else {
        128
    }
}

/// `bytes` with the `unused` low bits of the last byte cleared.
pub open spec fn mask_last(bytes: Seq<u8>, unused: nat) -> Seq<u8> {
    if bytes.len() == 0 || unused == 0 {
        bytes
    } else {
        bytes.update(
            bytes.len() - 1,
            (bytes.last() - (bytes.last() as nat) % pow2_spec(unused)) as u8,
        )
    }
}

impl BitString {
    /// The bytes hold exactly the bits, and unused trailing bits are zero.
    pub open spec fn wf(&self) -> bool {
        &&& self.bytes@.len() == bytes_for_bits(self.bit_len as nat)
        &&& unused_bits(self.bit_len as nat) > 0 ==> (self.bytes@.last() as nat) % pow2_spec(
            unused_bits(self.bit_len as nat),
        ) == 0
    }

    pub open spec fn bytes_spec(&self) -> Seq<u8> {
        self.bytes@
    }

    pub open spec fn len_spec(&self) -> nat {
        self.bit_len as nat
    }

    /// All the bits of `bytes`.
    pub fn from_vec(bytes: Vec<u8>) -> (r: BitString)
        requires
            bytes@.len() * 8 <= usize::MAX,
        ensures
            r.wf(),
            r.bytes_spec() == bytes@,
            r.len_spec() == bytes@.len() * 8,
    {
        let n = bytes.len() * 8;
        proof {
            assert((n + 7) / 8 == bytes@.len());
        }
        BitString { bytes, bit_len: n }
    }

    /// The packed bytes; a trailing partial byte is padded with zero bits.
    pub fn as_bytes(&self) -> (r: &Vec<u8>)
        ensures
            r@ == self.bytes_spec(),
    {
        &self.bytes
    }

    /// The number of bits.
    pub fn len(&self) -> (r: usize)
        ensures
            r == self.len_spec(),
    {
        self.bit_len
    }

    /// Keeps the first `new_len` bits and zeroes the rest of the last byte.
    pub fn truncate(&mut self, new_len: usize)
        requires
            old(self).wf(),
            new_len <= old(self).len_spec(),
        ensures
            final(self).wf(),
            final(self).len_spec() == new_len,
            final(self).bytes_spec() == mask_last(
                old(self).bytes_spec().subrange(0, bytes_for_bits(new_len as nat) as int),
                unused_bits(new_len as nat),
            ),
    {
        let nbytes: usize = new_len / 8 + if new_len % 8 == 0 {
            0
        } else {
            1
        };
        proof {
            assert(nbytes == bytes_for_bits(new_len as nat));
            assert(nbytes <= self.bytes@.len());
        }
        self.bytes.truncate(nbytes);
        self.bit_len = new_len;
        if new_len % 8 != 0 {
            let unused: u8 = (8 - new_len % 8) as u8;
            let m = pow2_small(unused);
            let last = self.bytes[nbytes - 1];
            proof {
                vstd::arithmetic::div_mod::lemma_mod_bound(last as int, m as int);
                vstd::arithmetic::div_mod::lemma_mod_decreases(last as nat, m as nat);
            }
            let cleared: u8 = last - last % m;
            proof {
                vstd::arithmetic::div_mod::lemma_fundamental_div_mod(last as int, m as int);
                vstd::arithmetic::div_mod::lemma_mod_multiples_basic(last as int / m as int, m as int);
                assert(cleared == m * (last as int / m as int));
                assert((last as int / m as int) * m == m * (last as int / m as int)) by (nonlinear_arith);
            }
            self.bytes.set(nbytes - 1, cleared);
            proof {
                assert(self.bytes@ =~= mask_last(
                    old(self).bytes@.subrange(0, nbytes as int),
                    unused_bits(new_len as nat),
                ));
            }
        } else {
            proof {
                assert(self.bytes@ =~= mask_last(
                    old(self).bytes@.subrange(0, nbytes as int),
                    unused_bits(new_len as nat),
                ));
            }
        }
    }

    /// Reads the bits of `bytes` minus `unused` trailing bits, zeroing those.
    pub fn from_bytes_with_unused(bytes: Vec<u8>, unused: u8) -> (r: Option<BitString>)
        requires
            bytes@.len() * 8 <= usize::MAX,
        ensures
            r.is_some() == (unused <= 7 && (bytes@.len() == 0 ==> unused == 0)),
            r matches Some(b) ==> b.wf() && b.len_spec() == bytes@.len() * 8 - unused
                && b.bytes_spec() == mask_last(bytes@, unused as nat),
    {
        if unused > 7 || (bytes.len() == 0 && unused > 0) {
            return None;
        }
        let ghost all = bytes@;
        let mut b = BitString::from_vec(bytes);
        let n = b.len() - unused as usize;
        b.truncate(n);
        proof {
            assert(bytes_for_bits(n as nat) == all.len());
            assert(all.subrange(0, all.len() as int) =~= all);
            assert(unused_bits(n as nat) == unused as nat);
        }
        Some(b)
    }
}

} // verus!
