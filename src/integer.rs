//! An integer of any size: a machine word where the value fits one, and its
//! minimal two's-complement bytes otherwise.
use crate::bytes::{
    is_minimal_signed, is_minimal_unsigned, lemma_minimal_signed_large, lemma_pow256_mono,
    lemma_signed_unsigned, pow256, signed_bytes_i128, signed_of, signed_value_i128, strip_unsigned,
    unsigned_bytes_u128, unsigned_of,
};
use crate::constraints::{bounded_contains, Bounded};
use crate::error::DecodeError;
use vstd::prelude::*;

verus! {

/// A signed integer of any size. `Variable` holds the minimal two's-complement
/// big-endian bytes of a value; a value never moves back from it to `Primitive`.
#[derive(Debug, Clone, PartialEq, Eq, Hash)]
pub enum Integer {
    Primitive(i64),
    Variable(Vec<u8>),
}

impl View for Integer {
    type V = int;

    open spec fn view(&self) -> int {
        match self {
            Integer::Primitive(v) => *v as int,
            Integer::Variable(b) => signed_of(b@),
        }
    }
}

/// Relies on num_bigint's `BigInt::from_signed_bytes_be` reading two's-complement
/// big-endian bytes, on `BigInt + BigInt` being exact, and on
/// `BigInt::to_signed_bytes_be` writing the minimal two's-complement big-endian
/// bytes (a single zero byte for zero).
#[verifier::external_body]
fn big_add(a: &[u8], b: &[u8]) -> (r: Vec<u8>)
    ensures
        signed_of(r@) == signed_of(a@) + signed_of(b@),
        is_minimal_signed(r@),
{
    (num_bigint::BigInt::from_signed_bytes_be(a) + num_bigint::BigInt::from_signed_bytes_be(
        b,
    )).to_signed_bytes_be()
}

/// Relies on num_bigint's `BigInt::from_signed_bytes_be` reading two's-complement
/// big-endian bytes, on `BigInt - BigInt` being exact, and on
/// `BigInt::to_signed_bytes_be` writing the minimal two's-complement big-endian
/// bytes (a single zero byte for zero).
#[verifier::external_body]
fn big_sub(a: &[u8], b: &[u8]) -> (r: Vec<u8>)
    ensures
        signed_of(r@) == signed_of(a@) - signed_of(b@),
        is_minimal_signed(r@),
{
    (num_bigint::BigInt::from_signed_bytes_be(a) - num_bigint::BigInt::from_signed_bytes_be(
        b,
    )).to_signed_bytes_be()
}

/// Relies on num_bigint's `BigInt::from_signed_bytes_be` reading two's-complement
/// big-endian bytes, on `BigInt * BigInt` being exact, and on
/// `BigInt::to_signed_bytes_be` writing the minimal two's-complement big-endian
/// bytes (a single zero byte for zero).
#[verifier::external_body]
fn big_mul(a: &[u8], b: &[u8]) -> (r: Vec<u8>)
    ensures
        signed_of(r@) == signed_of(a@) * signed_of(b@),
        is_minimal_signed(r@),
{
    (num_bigint::BigInt::from_signed_bytes_be(a) * num_bigint::BigInt::from_signed_bytes_be(
        b,
    )).to_signed_bytes_be()
}

/// A copy of `s`.
pub fn copy_bytes(s: &[u8]) -> (r: Vec<u8>)
    ensures
        r@ == s@,
{
    let mut out: Vec<u8> = Vec::new();
    let mut i: usize = 0;
    while i < s.len()
        invariant
            i <= s@.len(),
            out@ =~= s@.subrange(0, i as int),
        decreases s@.len() - i,
    {
        out.push(s[i]);
        i = i + 1;
    }
    proof {
        assert(s@.subrange(0, s@.len() as int) =~= s@);
    }
    out
}

/// Whether `v` fits in a signed 128-bit word.
pub open spec fn fits_i128(v: int) -> bool {
    i128::MIN <= v <= i128::MAX
}

/// Conversion to a narrower type failed; the value is kept.
#[derive(Debug, Clone, PartialEq, Eq)]
pub struct TryFromIntegerError {
    pub original: Integer,
}

impl TryFromIntegerError {
    pub fn into_original(self) -> (r: Integer)
        ensures
            r == self.original,
    {
        self.original
    }
}

impl Integer {
    /// `Variable` holds minimal bytes.
    pub open spec fn wf(&self) -> bool {
        match self {
            Integer::Primitive(_) => true,
            Integer::Variable(b) => is_minimal_signed(b@),
        }
    }

    /// A copy holding the same value.
    pub fn duplicate(&self) -> (r: Integer)
        requires
            self.wf(),
        ensures
            r.wf(),
            r@ == self@,
    {
        match self {
            Integer::Primitive(v) => Integer::Primitive(*v),
            Integer::Variable(b) => Integer::Variable(copy_bytes(b.as_slice())),
        }
    }

    pub fn from_i64(v: i64) -> (r: Integer)
        ensures
            r.wf(),
            r@ == v,
            r == Integer::Primitive(v),
    {
        Integer::Primitive(v)
    }

    /// A word where the value fits one, bytes otherwise.
    pub fn from_i128(v: i128) -> (r: Integer)
        ensures
            r.wf(),
            r@ == v,
            (i64::MIN <= v <= i64::MAX) <==> r is Primitive,
    {
        if i64::MIN as i128 <= v && v <= i64::MAX as i128 {
            Integer::Primitive(v as i64)
        } else {
            Integer::Variable(signed_bytes_i128(v))
        }
    }

    pub fn from_u64(v: u64) -> (r: Integer)
        ensures
            r.wf(),
            r@ == v,
    {
        Self::from_i128(v as i128)
    }

    /// The value read from two's-complement big-endian bytes (zero for none);
    /// eight bytes or fewer, once redundant sign bytes are dropped, give a word.
    pub fn from_signed_bytes(input: &[u8]) -> (r: Integer)
        ensures
            r.wf(),
            r@ == signed_of(input@),
    {
        if input.len() == 0 {
            return Integer::Primitive(0);
        }
        let s = crate::bytes::strip_signed(copy_bytes(input));
        if s.len() <= 8 {
            proof {
                crate::bytes::lemma_signed_range(s@);
                lemma_pow256_mono((s@.len() - 1) as nat, 7);
                assert(pow256(7) == 0x100000000000000) by {
                    reveal_with_fuel(pow256, 8);
                }
            }
            let v = signed_value_i128(s.as_slice());
            Integer::Primitive(v as i64)
        } else {
            Integer::Variable(s)
        }
    }

    /// The value read from unsigned big-endian bytes.
    pub fn from_unsigned_bytes(input: &[u8]) -> (r: Integer)
        ensures
            r.wf(),
            r@ == unsigned_of(input@),
    {
        let mut s: Vec<u8> = Vec::new();
        s.push(0u8);
        let mut i: usize = 0;
        while i < input.len()
            invariant
                i <= input@.len(),
                s@ =~= seq![0u8] + input@.subrange(0, i as int),
            decreases input@.len() - i,
        {
            s.push(input[i]);
            i = i + 1;
        }
        proof {
            assert(input@.subrange(0, input@.len() as int) =~= input@);
            lemma_signed_unsigned(s@);
            crate::bytes::lemma_unsigned_drop_zero(s@);
            assert(s@.drop_first() =~= input@);
        }
        Self::from_signed_bytes(s.as_slice())
    }

    /// The minimal two's-complement big-endian bytes of the value.
    pub fn to_signed_bytes_be(&self) -> (r: Vec<u8>)
        requires
            self.wf(),
        ensures
            is_minimal_signed(r@),
            signed_of(r@) == self@,
    {
        match self {
            Integer::Primitive(v) => signed_bytes_i128(*v as i128),
            Integer::Variable(b) => copy_bytes(b.as_slice()),
        }
    }

    /// The minimal unsigned big-endian bytes of a value that is not negative.
    pub fn to_unsigned_bytes_be(&self) -> (r: Vec<u8>)
        requires
            self.wf(),
            self@ >= 0,
        ensures
            is_minimal_unsigned(r@),
            unsigned_of(r@) == self@,
    {
        match self {
            Integer::Primitive(v) => unsigned_bytes_u128(*v as u128),
            Integer::Variable(b) => {
                proof {
                    lemma_signed_unsigned(b@);
                    crate::bytes::lemma_unsigned_bound(b@);
                }
                strip_unsigned(copy_bytes(b.as_slice()))
            },
        }
    }

    /// How many bytes the minimal two's-complement form takes.
    pub fn signed_bytes_needed(&self) -> (r: usize)
        requires
            self.wf(),
        ensures
            exists|s: Seq<u8>| is_minimal_signed(s) && signed_of(s) == self@ && s.len() == r,
    {
        let b = self.to_signed_bytes_be();
        b.len()
    }

    /// How many bytes the minimal unsigned form of a value that is not negative takes.
    pub fn unsigned_bytes_needed(&self) -> (r: usize)
        requires
            self.wf(),
            self@ >= 0,
        ensures
            exists|s: Seq<u8>| is_minimal_unsigned(s) && unsigned_of(s) == self@ && s.len() == r,
    {
        let b = self.to_unsigned_bytes_be();
        b.len()
    }

    pub fn is_negative(&self) -> (r: bool)
        requires
            self.wf(),
        ensures
            r == (self@ < 0),
    {
        match self {
            Integer::Primitive(v) => *v < 0,
            Integer::Variable(b) => {
                proof {
                    lemma_signed_unsigned(b@);
                    crate::bytes::lemma_unsigned_front(b@);
                    crate::bytes::lemma_unsigned_bound(b@.drop_first());
                    crate::bytes::lemma_signed_range(b@);
                    let p = pow256((b@.len() - 1) as nat) as int;
                    let r = unsigned_of(b@.drop_first()) as int;
                    if b@[0] >= 128 {
                        assert(b@[0] * p + r < 256 * p) by (nonlinear_arith)
                            requires
                                b@[0] <= 255,
                                0 <= r < p,
                        ;
                    } else {
                        assert(b@[0] * p + r >= 0) by (nonlinear_arith)
                            requires
                                b@[0] >= 0,
                                r >= 0,
                                p >= 0,
                        ;
                    }
                }
                b[0] >= 128
            },
        }
    }

    /// The value as a 128-bit word, where it fits one.
    pub fn to_i128(&self) -> (r: Option<i128>)
        requires
            self.wf(),
        ensures
            r.is_some() == fits_i128(self@),
            r.is_some() ==> r.unwrap() == self@,
    {
        match self {
            Integer::Primitive(v) => Some(*v as i128),
            Integer::Variable(b) => {
                if b.len() <= 16 {
                    Some(signed_value_i128(b.as_slice()))
                } else {
                    proof {
                        lemma_minimal_signed_large(b@);
                        lemma_pow256_mono(15, (b@.len() - 2) as nat);
                        assert(pow256(15) == 0x1000000000000000000000000000000int) by {
                            reveal_with_fuel(pow256, 16);
                        }
                    }
                    None
                }
            },
        }
    }

    /// The value as a 64-bit word, where it fits one.
    pub fn to_i64(&self) -> (r: Option<i64>)
        requires
            self.wf(),
        ensures
            r.is_some() == (i64::MIN <= self@ <= i64::MAX),
            r.is_some() ==> r.unwrap() == self@,
    {
        match self.to_i128() {
            Some(v) => {
                if i64::MIN as i128 <= v && v <= i64::MAX as i128 {
                    Some(v as i64)
                } else {
                    None
                }
            },
            None => None,
        }
    }

    /// The value as an unsigned 64-bit word, where it fits one.
    pub fn to_u64(&self) -> (r: Option<u64>)
        requires
            self.wf(),
        ensures
            r.is_some() == (0 <= self@ <= u64::MAX),
            r.is_some() ==> r.unwrap() == self@,
    {
        match self.to_i128() {
            Some(v) => {
                if 0 <= v && v <= u64::MAX as i128 {
                    Some(v as u64)
                } else {
                    None
                }
            },
            None => None,
        }
    }

    /// The value as an unsigned byte, or the value back as the error.
    pub fn try_into_u8(self) -> (r: Result<u8, TryFromIntegerError>)
        requires
            self.wf(),
        ensures
            r.is_ok() == (0 <= self@ <= u8::MAX),
            r matches Ok(v) ==> v == self@,
            r matches Err(e) ==> e.original == self,
    {
        match self.to_i128() {
            Some(v) => {
                if 0 <= v && v <= u8::MAX as i128 {
                    return Ok(v as u8);
                }
            },
            None => {},
        }
        Err(TryFromIntegerError { original: self })
    }

    /// The value as an unsigned 16-bit word, or the value back as the error.
    pub fn try_into_u16(self) -> (r: Result<u16, TryFromIntegerError>)
        requires
            self.wf(),
        ensures
            r.is_ok() == (0 <= self@ <= u16::MAX),
            r matches Ok(v) ==> v == self@,
            r matches Err(e) ==> e.original == self,
    {
        match self.to_i128() {
            Some(v) => {
                if 0 <= v && v <= u16::MAX as i128 {
                    return Ok(v as u16);
                }
            },
            None => {},
        }
        Err(TryFromIntegerError { original: self })
    }

    /// The value as an unsigned 32-bit word, or the value back as the error.
    pub fn try_into_u32(self) -> (r: Result<u32, TryFromIntegerError>)
        requires
            self.wf(),
        ensures
            r.is_ok() == (0 <= self@ <= u32::MAX),
            r matches Ok(v) ==> v == self@,
            r matches Err(e) ==> e.original == self,
    {
        match self.to_i128() {
            Some(v) => {
                if 0 <= v && v <= u32::MAX as i128 {
                    return Ok(v as u32);
                }
            },
            None => {},
        }
        Err(TryFromIntegerError { original: self })
    }

    /// The exact sum; a sum that overflows the word moves to bytes.
    pub fn checked_add(&self, other: &Integer) -> (r: Integer)
        requires
            self.wf(),
            other.wf(),
        ensures
            r.wf(),
            r@ == self@ + other@,
    {
        match (self, other) {
            (Integer::Primitive(a), Integer::Primitive(b)) => {
                match a.checked_add(*b) {
                    Some(v) => return Integer::Primitive(v),
                    None => {},
                }
            },
            _ => {},
        }
        let a = self.to_signed_bytes_be();
        let b = other.to_signed_bytes_be();
        Integer::Variable(big_add(a.as_slice(), b.as_slice()))
    }

    /// The exact product; a product that overflows the word moves to bytes.
    pub fn checked_mul(&self, other: &Integer) -> (r: Integer)
        requires
            self.wf(),
            other.wf(),
        ensures
            r.wf(),
            r@ == self@ * other@,
    {
        match (self, other) {
            (Integer::Primitive(a), Integer::Primitive(b)) => {
                match a.checked_mul(*b) {
                    Some(v) => return Integer::Primitive(v),
                    None => {},
                }
            },
            _ => {},
        }
        let a = self.to_signed_bytes_be();
        let b = other.to_signed_bytes_be();
        Integer::Variable(big_mul(a.as_slice(), b.as_slice()))
    }

    /// The exact difference; a difference that overflows the word moves to bytes.
    pub fn checked_sub(&self, other: &Integer) -> (r: Integer)
        requires
            self.wf(),
            other.wf(),
        ensures
            r.wf(),
            r@ == self@ - other@,
    {
        match (self, other) {
            (Integer::Primitive(a), Integer::Primitive(b)) => {
                match a.checked_sub(*b) {
                    Some(v) => return Integer::Primitive(v),
                    None => {},
                }
            },
            _ => {},
        }
        let a = self.to_signed_bytes_be();
        let b = other.to_signed_bytes_be();
        Integer::Variable(big_sub(a.as_slice(), b.as_slice()))
    }
}

impl Bounded<i128> {
    /// Whether `element` lies within the bound, at any size.
    pub fn in_bound(&self, element: &Integer) -> (r: bool)
        requires
            element.wf(),
        ensures
            r == bounded_contains(*self, element@),
    {
        match element.to_i128() {
            Some(e) => self.contains(&e),
            None => {
                let negative = element.is_negative();
                match self {
                    Bounded::Single(_) => false,
                    Bounded::Range { start, end } => {
                        if negative {
                            start.is_none()
                        } else {
                            end.is_none()
                        }
                    },
                    Bounded::Unbounded => true,
                }
            },
        }
    }
}

/// A value as an encoding sees it: its offset from the lower bound, or the value
/// itself where there is no lower bound that is not negative.
#[derive(Debug, Clone, PartialEq, Eq)]
pub enum EffectiveValue<T> {
    Offset(T),
    Plain(T),
}

/// The lower bound of a range, where it is not negative.
pub open spec fn nonnegative_start(b: Bounded<i128>) -> Option<i128> {
    match b {
        Bounded::Range { start: Some(s), .. } => if s >= 0 {
            Some(s)
        } else {
            None
        },
        _ => None,
    }
}

impl Bounded<i128> {
    /// The offset of `value` from a lower bound that is not negative, or `value`
    /// itself.
    pub fn effective_value(&self, value: i128) -> (r: EffectiveValue<i128>)
        requires
            nonnegative_start(*self) is Some ==> value >= nonnegative_start(*self).unwrap(),
        ensures
            nonnegative_start(*self) is Some ==> r == EffectiveValue::Offset(
                (value - nonnegative_start(*self).unwrap()) as i128,
            ),
            nonnegative_start(*self) is None ==> r == EffectiveValue::Plain(value),
    {
        match self {
            Bounded::Range { start: Some(s), .. } => {
                if *s >= 0 {
                    EffectiveValue::Offset(value - *s)
                } else {
                    EffectiveValue::Plain(value)
                }
            },
            _ => EffectiveValue::Plain(value),
        }
    }

    /// The same as [`Self::effective_value`] for an integer of any size.
    pub fn effective_integer_value(&self, value: Integer) -> (r: EffectiveValue<Integer>)
        requires
            value.wf(),
        ensures
            nonnegative_start(*self) is Some ==> (r matches EffectiveValue::Offset(v) && v.wf() && v@
                == value@ - nonnegative_start(*self).unwrap()),
            nonnegative_start(*self) is None ==> r == EffectiveValue::Plain(value),
    {
        match self {
            Bounded::Range { start: Some(s), .. } => {
                if *s >= 0 {
                    let start = Integer::from_i128(*s);
                    EffectiveValue::Offset(value.checked_sub(&start))
                } else {
                    EffectiveValue::Plain(value)
                }
            },
            _ => EffectiveValue::Plain(value),
        }
    }
}

/// Integer types the codec reads and writes by their two's-complement bytes.
pub trait IntegerType: Sized {
    /// Values of the type that the methods accept.
    spec fn wf(&self) -> bool;

    /// The number a value stands for.
    spec fn int_value(&self) -> int;

    /// The numbers the type holds.
    spec fn in_range(v: int) -> bool;

    /// Width in bits; any width for an integer of any size.
    fn width() -> (r: u32);

    /// The minimal two's-complement big-endian bytes of the value.
    fn to_signed_bytes(&self) -> (r: Vec<u8>)
        requires
            self.wf(),
        ensures
            is_minimal_signed(r@),
            signed_of(r@) == self.int_value(),
    ;

    /// The value that two's-complement big-endian bytes spell, where the type
    /// holds it; empty input is refused.
    fn try_from_signed_bytes(input: &[u8]) -> (r: Result<Self, DecodeError>)
        ensures
            r.is_ok() == (input@.len() >= 1 && Self::in_range(signed_of(input@))),
            r matches Ok(v) ==> v.wf() && v.int_value() == signed_of(input@),
    ;
}

/// The number that `input` spells, where it lies within `[lo, hi]`.
pub fn signed_in_range(input: &[u8], lo: i128, hi: i128) -> (r: Result<i128, DecodeError>)
    ensures
        r.is_ok() == (input@.len() >= 1 && lo <= signed_of(input@) <= hi),
        r matches Ok(v) ==> v == signed_of(input@),
{
    if input.len() == 0 {
        return Err(DecodeError::UnexpectedEmptyInput);
    }
    let v = Integer::from_signed_bytes(input);
    match v.to_i128() {
        Some(x) => {
            if lo <= x && x <= hi {
                Ok(x)
            } else {
                Err(DecodeError::IntegerOverflow { max_width: 128 })
            }
        },
        None => Err(DecodeError::IntegerOverflow { max_width: 128 }),
    }
}

impl IntegerType for Integer {
    open spec fn wf(&self) -> bool {
        Integer::wf(self)
    }

    open spec fn int_value(&self) -> int {
        self@
    }

    open spec fn in_range(v: int) -> bool {
        true
    }

    fn width() -> (r: u32) {
        u32::MAX
    }

    fn to_signed_bytes(&self) -> (r: Vec<u8>) {
        self.to_signed_bytes_be()
    }

    fn try_from_signed_bytes(input: &[u8]) -> (r: Result<Self, DecodeError>) {
        if input.len() == 0 {
            return Err(DecodeError::UnexpectedEmptyInput);
        }
        Ok(Integer::from_signed_bytes(input))
    }
}

impl IntegerType for i32 {
    open spec fn wf(&self) -> bool {
        true
    }

    open spec fn int_value(&self) -> int {
        *self as int
    }

    open spec fn in_range(v: int) -> bool {
        i32::MIN <= v <= i32::MAX
    }

    fn width() -> (r: u32) {
        i32::BITS
    }

    fn to_signed_bytes(&self) -> (r: Vec<u8>) {
        signed_bytes_i128(*self as i128)
    }

    fn try_from_signed_bytes(input: &[u8]) -> (r: Result<Self, DecodeError>) {
        let v = signed_in_range(input, i32::MIN as i128, i32::MAX as i128)?;
        Ok(v as i32)
    }
}

impl IntegerType for i64 {
    open spec fn wf(&self) -> bool {
        true
    }

    open spec fn int_value(&self) -> int {
        *self as int
    }

    open spec fn in_range(v: int) -> bool {
        i64::MIN <= v <= i64::MAX
    }

    fn width() -> (r: u32) {
        i64::BITS
    }

    fn to_signed_bytes(&self) -> (r: Vec<u8>) {
        signed_bytes_i128(*self as i128)
    }

    fn try_from_signed_bytes(input: &[u8]) -> (r: Result<Self, DecodeError>) {
        let v = signed_in_range(input, i64::MIN as i128, i64::MAX as i128)?;
        Ok(v as i64)
    }
}

impl IntegerType for u32 {
    open spec fn wf(&self) -> bool {
        true
    }

    open spec fn int_value(&self) -> int {
        *self as int
    }

    open spec fn in_range(v: int) -> bool {
        0 <= v <= u32::MAX
    }

    fn width() -> (r: u32) {
        u32::BITS
    }

    fn to_signed_bytes(&self) -> (r: Vec<u8>) {
        signed_bytes_i128(*self as i128)
    }

    fn try_from_signed_bytes(input: &[u8]) -> (r: Result<Self, DecodeError>) {
        let v = signed_in_range(input, 0 as i128, u32::MAX as i128)?;
        Ok(v as u32)
    }
}

impl IntegerType for u64 {
    open spec fn wf(&self) -> bool {
        true
    }

    open spec fn int_value(&self) -> int {
        *self as int
    }

    open spec fn in_range(v: int) -> bool {
        0 <= v <= u64::MAX
    }

    fn width() -> (r: u32) {
        u64::BITS
    }

    fn to_signed_bytes(&self) -> (r: Vec<u8>) {
        signed_bytes_i128(*self as i128)
    }

    fn try_from_signed_bytes(input: &[u8]) -> (r: Result<Self, DecodeError>) {
        let v = signed_in_range(input, 0 as i128, u64::MAX as i128)?;
        Ok(v as u64)
    }
}

} // verus!
