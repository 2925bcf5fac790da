//! Tags, identifiers, and base-128 numbers.
use vstd::prelude::*;

verus! {

/// The class of a tag.
#[derive(Clone, Copy, Debug, PartialEq, Eq, Hash, PartialOrd, Ord)]
pub enum Class {
    Universal,
    Application,
    Context,
    Private,
}

/// A tag: its class and its number.
#[derive(Clone, Copy, Debug, PartialEq, Eq, Hash, PartialOrd, Ord)]
pub struct Tag {
    pub class: Class,
    pub value: u32,
}

pub const TAG_BOOL: u32 = 1;

pub const TAG_INTEGER: u32 = 2;

pub const TAG_BIT_STRING: u32 = 3;

pub const TAG_OCTET_STRING: u32 = 4;

pub const TAG_NULL: u32 = 5;

pub const TAG_OBJECT_IDENTIFIER: u32 = 6;

pub const TAG_UTF8_STRING: u32 = 12;

pub const TAG_SEQUENCE: u32 = 16;

pub const TAG_SET: u32 = 17;

pub const TAG_UTC_TIME: u32 = 23;

pub const TAG_GENERALIZED_TIME: u32 = 24;

pub const TAG_VISIBLE_STRING: u32 = 26;

pub open spec fn class_bits(c: Class) -> u8 {
    match c {
        Class::Universal => 0,
        Class::Application => 1,
        Class::Context => 2,
        Class::Private => 3,
    }
}

pub open spec fn class_of_bits(b: u8) -> Class {
    if b == 0 {
        Class::Universal
    } else if b == 1 {
        Class::Application
    } else if b == 2 {
        Class::Context
    } else {
        Class::Private
    }
}

pub fn class_from_bits(b: u8) -> (r: Class)
    ensures
        r == class_of_bits(b),
{
    if b == 0 {
        Class::Universal
    } else if b == 1 {
        Class::Application
    } else if b == 2 {
        Class::Context
    } else {
        Class::Private
    }
}

impl Tag {
    pub fn new(class: Class, value: u32) -> (r: Tag)
        ensures
            r.class == class,
            r.value == value,
    {
        Tag { class, value }
    }

    /// A tag of the universal class.
    pub fn universal(value: u32) -> (r: Tag)
        ensures
            r.class == Class::Universal,
            r.value == value,
    {
        Tag { class: Class::Universal, value }
    }

    pub fn same(&self, other: &Tag) -> (r: bool)
        ensures
            r == (*self == *other),
    {
        self.value == other.value && class_index(self.class) == class_index(other.class)
    }
}

pub fn class_index(c: Class) -> (r: u8)
    ensures
        r == class_bits(c),
        r <= 3,
{
    match c {
        Class::Universal => 0,
        Class::Application => 1,
        Class::Context => 2,
        Class::Private => 3,
    }
}

/// A decoded identifier: a tag and whether its contents are constructed.
#[derive(Clone, Copy, Debug, PartialEq, Eq)]
pub struct Identifier {
    pub tag: Tag,
    pub is_constructed: bool,
}

impl Identifier {
    pub fn is_primitive(&self) -> (r: bool)
        ensures
            r == !self.is_constructed,
    {
        !self.is_constructed
    }

    pub fn is_constructed(&self) -> (r: bool)
        ensures
            r == self.is_constructed,
    {
        self.is_constructed
    }
}

/// The base-128 digits of `n`, most significant first, without the
/// continuation bit.
pub open spec fn b128_digits(n: nat) -> Seq<u8>
    decreases n,
{
    if n < 128 {
        seq![n as u8]
    } else {
        b128_digits(n / 128).push((n % 128) as u8)
    }
}

/// Base-128 encoding of `n`: every byte but the last has its top bit set.
pub open spec fn b128(n: nat) -> Seq<u8> {
    let d = b128_digits(n);
    Seq::new(
        d.len(),
        |i: int|
            if i + 1 < d.len() {
                (d[i] + 128) as u8
            } else {
                d[i]
            },
    )
}

/// The number read from base-128 digits with their continuation bits.
pub open spec fn b128_value(s: Seq<u8>) -> nat
    decreases s.len(),
{
    if s.len() == 0 {
        0
    } else {
        (b128_value(s.drop_last()) * 128 + (s.last() % 128)) as nat
    }
}

pub proof fn lemma_b128_digits(n: nat)
    ensures
        b128_digits(n).len() >= 1,
        forall|i: int| 0 <= i < b128_digits(n).len() ==> #[trigger] b128_digits(n)[i] < 128,
        b128_digits(n).len() >= 2 ==> b128_digits(n)[0] != 0,
        b128_value(b128_digits(n)) == n,
    decreases n,
{
    if n >= 128 {
        lemma_b128_digits(n / 128);
        let t = b128_digits(n / 128);
        let s = t.push((n % 128) as u8);
        assert(b128_digits(n) == s);
        assert(s.drop_last() =~= t);
        vstd::arithmetic::div_mod::lemma_fundamental_div_mod(n as int, 128);
        vstd::arithmetic::div_mod::lemma_mod_bound(n as int, 128);
        assert(s.last() == n % 128);
        assert(s.last() % 128 == s.last());
        assert(b128_value(s) == b128_value(t) * 128 + s.last() % 128);
        assert(s[0] == t[0]);
        if t.len() == 1 {
            assert(t.drop_last().len() == 0);
            assert(b128_value(t.drop_last()) == 0);
            assert(t.last() == t[0]);
            assert(t[0] < 128);
            assert(t[0] % 128 == t[0]);
            assert(b128_value(t) == t[0]);
        }
    } else {
        let s = seq![n as u8];
        assert(b128_digits(n) == s);
        assert(s.drop_last().len() == 0);
        assert(b128_value(s.drop_last()) == 0);
        assert(s.last() == n as u8);
        assert(s.last() % 128 == s.last());
    }
}

pub proof fn lemma_b128_value_same(s: Seq<u8>, t: Seq<u8>)
    requires
        s.len() == t.len(),
        forall|i: int| 0 <= i < s.len() ==> #[trigger] (s[i] % 128) == t[i] % 128,
    ensures
        b128_value(s) == b128_value(t),
    decreases s.len(),
{
    if s.len() > 0 {
        lemma_b128_value_same(s.drop_last(), t.drop_last());
    }
}

/// `b128(n)` spells `n`, and only its last byte lacks the continuation bit.
pub proof fn lemma_b128(n: nat)
    ensures
        b128(n).len() >= 1,
        b128_value(b128(n)) == n,
        forall|i: int| 0 <= i < b128(n).len() - 1 ==> #[trigger] b128(n)[i] >= 128,
        b128(n)[b128(n).len() - 1] < 128,
        b128(n).len() >= 2 ==> b128(n)[0] != 128,
{
    lemma_b128_digits(n);
    let d = b128_digits(n);
    let e = b128(n);
    assert forall|i: int| 0 <= i < d.len() implies #[trigger] (e[i] % 128) == d[i] % 128 by {
        if i + 1 < d.len() {
            assert(e[i] == d[i] + 128);
        }
    }
    lemma_b128_value_same(e, d);
    lemma_b128_value_same(d, d);
    assert forall|i: int| 0 <= i < d.len() implies #[trigger] (d[i] % 128) == d[i] by {}
    assert(b128_value(d) == n);
}

/// The base-128 encoding of `n`.
pub fn encode_base128(n: u32) -> (r: Vec<u8>)
    ensures
        r@ == b128(n as nat),
{
    let mut digits: Vec<u8> = Vec::new();
    let mut m: u32 = n;
    proof {
        lemma_b128_digits(n as nat);
    }
    // digits holds the low digits, least significant first
    while m >= 128
        invariant
            b128_digits(n as nat) =~= b128_digits(m as nat) + digits@.reverse(),
        decreases m,
    {
        proof {
            assert(b128_digits(m as nat) == b128_digits((m / 128) as nat).push((m % 128) as u8));
            assert(b128_digits((m / 128) as nat) + digits@.push((m % 128) as u8).reverse()
                =~= b128_digits(m as nat) + digits@.reverse());
        }
        digits.push((m % 128) as u8);
        m = m / 128;
    }
    digits.push(m as u8);
    proof {
        assert(b128_digits(m as nat) == seq![m as u8]);
        assert(b128_digits(n as nat) =~= digits@.reverse());
    }
    let ghost d = b128_digits(n as nat);
    let mut out: Vec<u8> = Vec::new();
    let mut k: usize = digits.len();
    proof {
        lemma_b128_digits(n as nat);
    }
    while k > 0
        invariant
            k <= digits@.len(),
            d =~= digits@.reverse(),
            d == b128_digits(n as nat),
            forall|j: int| 0 <= j < d.len() ==> #[trigger] d[j] < 128,
            b128(n as nat).len() == digits@.len(),
            digits@.len() >= 1,
            out@.len() == digits@.len() - k,
            forall|i: int| 0 <= i < out@.len() ==> #[trigger] out@[i] == b128(n as nat)[i],
        decreases k,
    {
        k = k - 1;
        let digit = digits[k];
        let ghost idx = digits@.len() - 1 - k;
        proof {
            assert(digit == d[idx]);
            assert(digit < 128);
        }
        if k > 0 {
            out.push(digit + 128);
        } else {
            out.push(digit);
        }
        proof {
            assert(out@[idx] == b128(n as nat)[idx]);
        }
    }
    proof {
        assert(out@ =~= b128(n as nat));
    }
    out
}

/// Reads one base-128 number from the front of `input`: the number and how many
/// bytes it took; `None` where the input ends first or the number passes `u32`.
pub fn parse_base128(input: &[u8]) -> (r: Option<(u32, usize)>)
    ensures
        r matches Some((v, n)) ==> 1 <= n <= input@.len() && v == b128_value(input@.subrange(
            0,
            n as int,
        )) && input@[n - 1] < 128 && forall|i: int| 0 <= i < n - 1 ==> #[trigger] input@[i]
            >= 128,
        r is None ==> (forall|n: int|
            1 <= n <= input@.len() && input@[n - 1] < 128 && (forall|i: int|
                0 <= i < n - 1 ==> #[trigger] input@[i] >= 128) ==> b128_value(
                input@.subrange(0, n),
            ) > u32::MAX),
{
    let mut acc: u64 = 0;
    let mut i: usize = 0;
    proof {
        assert(input@.subrange(0, 0).len() == 0);
    }
    while i < input.len()
        invariant
            i <= input@.len(),
            acc == b128_value(input@.subrange(0, i as int)),
            acc <= u32::MAX,
            forall|j: int| 0 <= j < i ==> #[trigger] input@[j] >= 128,
        decreases input@.len() - i,
    {
        let b = input[i];
        proof {
            let t = input@.subrange(0, i as int + 1);
            assert(t.drop_last() =~= input@.subrange(0, i as int));
        }
        let next: u64 = acc * 128 + (b % 128) as u64;
        if next > u32::MAX as u64 {
            proof {
                assert forall|n: int|
                    1 <= n <= input@.len() && input@[n - 1] < 128 && (forall|k: int|
                        0 <= k < n - 1 ==> #[trigger] input@[k] >= 128) implies b128_value(
                    input@.subrange(0, n),
                ) > u32::MAX by {
                    if n < i + 1 {
                        assert(input@[n - 1] >= 128);
                    }
                    lemma_b128_prefix_grows(input@, i as int + 1, n);
                }
            }
            return None;
        }
        if b < 128 {
            return Some((next as u32, i + 1));
        }
        acc = next;
        i = i + 1;
    }
    proof {
        assert forall|n: int|
            1 <= n <= input@.len() && input@[n - 1] < 128 && (forall|k: int|
                0 <= k < n - 1 ==> #[trigger] input@[k] >= 128) implies b128_value(
            input@.subrange(0, n),
        ) > u32::MAX by {
            assert(input@[n - 1] >= 128);
        }
    }
    None
}

/// Reading more base-128 digits never makes the number smaller.
pub proof fn lemma_b128_prefix_grows(s: Seq<u8>, a: int, b: int)
    requires
        0 <= a <= b <= s.len(),
    ensures
        b128_value(s.subrange(0, a)) <= b128_value(s.subrange(0, b)),
    decreases b - a,
{
    if a < b {
        lemma_b128_prefix_grows(s, a, b - 1);
        let t = s.subrange(0, b);
        assert(t.drop_last() =~= s.subrange(0, b - 1));
    }
}

} // verus!
