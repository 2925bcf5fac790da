//! Big-endian byte strings read as unsigned or two's-complement numbers.
use vstd::prelude::*;

verus! {

/// `256` raised to the power `n`.
pub open spec fn pow256(n: nat) -> nat
    decreases n,
{
    if n == 0 {
        1
    } else {
        256 * pow256((n - 1) as nat)
    }
}

/// The unsigned number that the big-endian bytes `s` spell.
pub open spec fn unsigned_of(s: Seq<u8>) -> nat
    decreases s.len(),
{
    if s.len() == 0 {
        0
    } else {
        (unsigned_of(s.drop_last()) * 256 + s.last()) as nat
    }
}

/// The two's-complement number that the big-endian bytes `s` spell.
pub open spec fn signed_of(s: Seq<u8>) -> int
    decreases s.len(),
{
    if s.len() == 0 {
        0
    } else if s.len() == 1 {
        if s[0] >= 128 {
            s[0] - 256
        } else {
            s[0] as int
        }
    } else {
        signed_of(s.drop_last()) * 256 + s.last()
    }
}

/// At least one byte, and no leading byte that only repeats the sign of the next one.
pub open spec fn is_minimal_signed(s: Seq<u8>) -> bool {
    &&& s.len() >= 1
    &&& s.len() >= 2 ==> !(s[0] == 0 && s[1] < 128)
    &&& s.len() >= 2 ==> !(s[0] == 255 && s[1] >= 128)
}

/// At least one byte, and no leading zero byte unless the number is zero itself.
pub open spec fn is_minimal_unsigned(s: Seq<u8>) -> bool {
    &&& s.len() >= 1
    &&& s.len() >= 2 ==> s[0] != 0
}

pub proof fn lemma_pow256_pos(n: nat)
    ensures
        pow256(n) >= 1,
    decreases n,
{
    if n > 0 {
        lemma_pow256_pos((n - 1) as nat);
    }
}

pub proof fn lemma_pow256_mono(a: nat, b: nat)
    requires
        a <= b,
    ensures
        pow256(a) <= pow256(b),
    decreases b,
{
    if a < b {
        lemma_pow256_mono(a, (b - 1) as nat);
        lemma_pow256_pos((b - 1) as nat);
    }
}

pub proof fn lemma_unsigned_bound(s: Seq<u8>)
    ensures
        unsigned_of(s) < pow256(s.len()),
    decreases s.len(),
{
    if s.len() > 0 {
        lemma_unsigned_bound(s.drop_last());
        let p = pow256((s.len() - 1) as nat);
        assert(unsigned_of(s.drop_last()) + 1 <= p);
        assert((unsigned_of(s.drop_last()) + 1) * 256 <= p * 256) by (nonlinear_arith)
            requires
                unsigned_of(s.drop_last()) + 1 <= p,
        ;
    }
}

/// Splits off the leading byte: `s[0] * 256^(n-1) + rest`.
pub proof fn lemma_unsigned_front(s: Seq<u8>)
    requires
        s.len() >= 1,
    ensures
        unsigned_of(s) == s[0] * pow256((s.len() - 1) as nat) + unsigned_of(s.drop_first()),
    decreases s.len(),
{
    if s.len() == 1 {
        assert(s.drop_last().len() == 0);
        assert(s.drop_first().len() == 0);
        assert(unsigned_of(s.drop_last()) == 0);
        assert(unsigned_of(s.drop_first()) == 0);
        assert(s.last() == s[0]);
        assert(pow256(0) == 1);
        assert(unsigned_of(s) == s[0]);
    } else {
        let t = s.drop_last();
        let u = s.drop_first();
        lemma_unsigned_front(t);
        assert(t[0] == s[0]);
        assert(t.drop_first() =~= u.drop_last());
        assert(u.last() == s.last());
        assert(unsigned_of(s) == unsigned_of(t) * 256 + s.last());
        assert(unsigned_of(u) == unsigned_of(u.drop_last()) * 256 + u.last());
        let p = pow256((t.len() - 1) as nat) as int;
        assert(pow256((s.len() - 1) as nat) == 256 * p);
        let a = s[0] as int;
        let r = unsigned_of(t.drop_first()) as int;
        let l = s.last() as int;
        assert(unsigned_of(t) == a * p + r);
        assert((a * p + r) * 256 + l == a * (256 * p) + (r * 256 + l)) by (nonlinear_arith);
    }
}

/// The two readings differ by `256^n` exactly when the top bit is set.
pub proof fn lemma_signed_unsigned(s: Seq<u8>)
    requires
        s.len() >= 1,
    ensures
        signed_of(s) == unsigned_of(s) - (if s[0] >= 128 {
            pow256(s.len()) as int
        } else {
            0int
        }),
    decreases s.len(),
{
    if s.len() == 1 {
        assert(s.drop_last().len() == 0);
        assert(unsigned_of(s.drop_last()) == 0);
        assert(s.last() == s[0]);
        assert(unsigned_of(s) == s[0]);
        assert(pow256(1) == 256) by {
            reveal_with_fuel(pow256, 2);
        }
    } else {
        let t = s.drop_last();
        lemma_signed_unsigned(t);
        assert(t[0] == s[0]);
        assert(signed_of(s) == signed_of(t) * 256 + s.last());
        assert(unsigned_of(s) == unsigned_of(t) * 256 + s.last());
        assert(pow256(s.len()) == 256 * pow256(t.len()));
        let c: int = if s[0] >= 128 {
            pow256(t.len()) as int
        } else {
            0
        };
        assert(signed_of(t) == unsigned_of(t) - c);
        assert((unsigned_of(t) - c) * 256 == unsigned_of(t) * 256 - c * 256) by (nonlinear_arith);
    }
}

/// Drops a leading byte that only repeats the sign of the next one.
pub proof fn lemma_signed_drop_redundant(s: Seq<u8>)
    requires
        s.len() >= 2,
        (s[0] == 0 && s[1] < 128) || (s[0] == 255 && s[1] >= 128),
    ensures
        signed_of(s) == signed_of(s.drop_first()),
    decreases s.len(),
{
    let u = s.drop_first();
    if s.len() == 2 {
        assert(s.drop_last() =~= seq![s[0]]);
        assert(u =~= seq![s[1]]);
        assert(signed_of(s) == signed_of(s.drop_last()) * 256 + s.last());
        assert(s.last() == s[1]);
    } else {
        let t = s.drop_last();
        lemma_signed_drop_redundant(t);
        assert(t.drop_first() =~= u.drop_last());
        assert(signed_of(s) == signed_of(t) * 256 + s.last());
        assert(signed_of(u) == signed_of(u.drop_last()) * 256 + u.last());
    }
}

pub proof fn lemma_unsigned_drop_zero(s: Seq<u8>)
    requires
        s.len() >= 1,
        s[0] == 0,
    ensures
        unsigned_of(s) == unsigned_of(s.drop_first()),
{
    lemma_unsigned_front(s);
}

/// `n` bytes spell a two's-complement number in `[-128 * 256^(n-1), 128 * 256^(n-1))`.
pub proof fn lemma_signed_range(s: Seq<u8>)
    requires
        s.len() >= 1,
    ensures
        -128 * pow256((s.len() - 1) as nat) <= signed_of(s) < 128 * pow256((s.len() - 1) as nat),
{
    lemma_signed_unsigned(s);
    lemma_unsigned_front(s);
    lemma_unsigned_bound(s.drop_first());
    let p = pow256((s.len() - 1) as nat) as int;
    let r = unsigned_of(s.drop_first()) as int;
    let a = s[0] as int;
    assert(pow256(s.len()) == 256 * p);
    if a >= 128 {
        assert(a * p + r - 256 * p >= -128 * p) by (nonlinear_arith)
            requires
                a >= 128,
                r >= 0,
                p >= 0,
        ;
        assert(a * p + r - 256 * p < 128 * p) by (nonlinear_arith)
            requires
                0 <= a <= 255,
                0 <= r < p,
        ;
    } else {
        assert(a * p + r < 128 * p) by (nonlinear_arith)
            requires
                0 <= a <= 127,
                0 <= r < p,
        ;
        assert(a * p + r >= 0) by (nonlinear_arith)
            requires
                a >= 0,
                r >= 0,
                p >= 0,
        ;
    }
}

/// A minimal two's-complement string of `n >= 2` bytes spells a number that
/// does not fit in `n - 1` bytes.
pub proof fn lemma_minimal_signed_large(s: Seq<u8>)
    requires
        is_minimal_signed(s),
        s.len() >= 2,
    ensures
        signed_of(s) >= 128 * pow256((s.len() - 2) as nat) || signed_of(s) < -128 * pow256(
            (s.len() - 2) as nat,
        ),
{
    let t = s.drop_first();
    lemma_signed_unsigned(s);
    lemma_unsigned_front(s);
    lemma_unsigned_front(t);
    lemma_unsigned_bound(t.drop_first());
    lemma_pow256_pos((s.len() - 2) as nat);
    let q = pow256((s.len() - 2) as nat) as int;
    let p = pow256((s.len() - 1) as nat) as int;
    assert(p == 256 * q);
    assert(pow256(s.len()) == 256 * p);
    let a = s[0] as int;
    let b = s[1] as int;
    assert(t[0] == s[1]);
    assert(t.len() == s.len() - 1);
    assert(pow256((t.len() - 1) as nat) == q);
    let r = unsigned_of(t.drop_first()) as int;
    assert(unsigned_of(t) == t[0] * pow256((t.len() - 1) as nat) + r);
    assert(t[0] * pow256((t.len() - 1) as nat) == b * q);
    let v = signed_of(s);
    assert(unsigned_of(t) == b * q + r);
    assert(s[0] * pow256((s.len() - 1) as nat) == a * p);
    assert(unsigned_of(s) == a * p + b * q + r);
    if a == 0 {
        assert(a * p == 0) by (nonlinear_arith)
            requires
                a == 0,
        ;
        assert(v == b * q + r);
        assert(b * q >= 128 * q) by (nonlinear_arith)
            requires
                b >= 128,
                q >= 0,
        ;
        assert(v >= 128 * q);
    } else if a < 128 {
        assert(v == a * p + b * q + r);
        assert(a * p >= p) by (nonlinear_arith)
            requires
                a >= 1,
                p >= 0,
        ;
        assert(b * q >= 0) by (nonlinear_arith)
            requires
                b >= 0,
                q >= 0,
        ;
        assert(v >= 128 * q);
    } else if a == 255 {
        assert(v == a * p + b * q + r - 256 * p);
        assert(a * p == 255 * p) by (nonlinear_arith)
            requires
                a == 255,
        ;
        assert(b * q + r < 128 * q) by (nonlinear_arith)
            requires
                0 <= b <= 127,
                0 <= r < q,
        ;
        assert(v < -128 * q);
    } else {
        assert(v == a * p + b * q + r - 256 * p);
        assert(a * p <= 254 * p) by (nonlinear_arith)
            requires
                a <= 254,
                p >= 0,
        ;
        assert(b * q + r < 256 * q) by (nonlinear_arith)
            requires
                0 <= b <= 255,
                0 <= r < q,
        ;
        assert(v < -128 * q);
    }
}

/// The minimal unsigned big-endian bytes of `n`.
pub open spec fn min_unsigned(n: nat) -> Seq<u8>
    decreases n,
{
    if n < 256 {
        seq![n as u8]
    } else {
        min_unsigned(n / 256).push((n % 256) as u8)
    }
}

/// The minimal two's-complement big-endian bytes of `v`.
pub open spec fn min_signed(v: int) -> Seq<u8>
    decreases abs_int(v),
{
    if -128 <= v < 128 {
        seq![(v % 256) as u8]
    } else {
        min_signed(v / 256).push((v % 256) as u8)
    }
}

pub open spec fn abs_int(v: int) -> nat {
    if v < 0 {
        (-v) as nat
    } else {
        v as nat
    }
}

/// A minimal unsigned string is the one `min_unsigned` gives.
pub proof fn lemma_min_unsigned_unique(s: Seq<u8>)
    requires
        is_minimal_unsigned(s),
    ensures
        s == min_unsigned(unsigned_of(s)),
    decreases s.len(),
{
    if s.len() == 1 {
        assert(s.drop_last().len() == 0);
        assert(unsigned_of(s.drop_last()) == 0);
        assert(s.last() == s[0]);
        assert(unsigned_of(s) == s[0]);
        assert(s =~= seq![s[0]]);
    } else {
        let t = s.drop_last();
        let n = unsigned_of(s);
        lemma_unsigned_front(s);
        lemma_pow256_pos((s.len() - 2) as nat);
        assert(pow256((s.len() - 1) as nat) == 256 * pow256((s.len() - 2) as nat));
        assert(s[0] * pow256((s.len() - 1) as nat) >= 256) by (nonlinear_arith)
            requires
                s[0] >= 1,
                pow256((s.len() - 1) as nat) >= 256,
        ;
        assert(n == unsigned_of(t) * 256 + s.last());
        vstd::arithmetic::div_mod::lemma_fundamental_div_mod_converse(
            n as int,
            256,
            unsigned_of(t) as int,
            s.last() as int,
        );
        assert(t[0] == s[0]);
        lemma_min_unsigned_unique(t);
        assert(s =~= t.push(s.last()));
    }
}

/// A minimal two's-complement string is the one `min_signed` gives.
pub proof fn lemma_min_signed_unique(s: Seq<u8>)
    requires
        is_minimal_signed(s),
    ensures
        s == min_signed(signed_of(s)),
    decreases s.len(),
{
    let v = signed_of(s);
    if s.len() == 1 {
        assert(s =~= seq![s[0]]);
        assert(-128 <= v < 128);
        if s[0] >= 128 {
            vstd::arithmetic::div_mod::lemma_fundamental_div_mod_converse(v, 256, -1, s[0] as int);
        } else {
            vstd::arithmetic::div_mod::lemma_fundamental_div_mod_converse(v, 256, 0, s[0] as int);
        }
    } else {
        let t = s.drop_last();
        lemma_minimal_signed_large(s);
        lemma_pow256_pos((s.len() - 2) as nat);
        assert(!(-128 <= v < 128));
        assert(v == signed_of(t) * 256 + s.last());
        vstd::arithmetic::div_mod::lemma_fundamental_div_mod_converse(
            v,
            256,
            signed_of(t),
            s.last() as int,
        );
        assert(t[0] == s[0]);
        if t.len() >= 2 {
            assert(t[1] == s[1]);
        }
        lemma_min_signed_unique(t);
        assert(s =~= t.push(s.last()));
    }
}

/// The minimal unsigned bytes exist for every `n`.
pub proof fn lemma_min_unsigned_props(n: nat)
    ensures
        is_minimal_unsigned(min_unsigned(n)),
        unsigned_of(min_unsigned(n)) == n,
    decreases n,
{
    if n >= 256 {
        lemma_min_unsigned_props(n / 256);
        let t = min_unsigned(n / 256);
        let s = t.push((n % 256) as u8);
        assert(min_unsigned(n) == s);
        assert(s.drop_last() =~= t);
        assert(s.last() == (n % 256) as u8);
        assert(s[0] == t[0]);
        vstd::arithmetic::div_mod::lemma_fundamental_div_mod(n as int, 256);
        assert(unsigned_of(s) == unsigned_of(t) * 256 + s.last());
        assert(n / 256 >= 1);
        if t.len() == 1 {
            assert(t.drop_last().len() == 0);
            assert(unsigned_of(t.drop_last()) == 0);
            assert(t.last() == t[0]);
            assert(unsigned_of(t) == t[0]);
        }
    } else {
        let s = seq![n as u8];
        assert(min_unsigned(n) == s);
        assert(s.drop_last().len() == 0);
        assert(unsigned_of(s.drop_last()) == 0);
        assert(s.last() == n as u8);
    }
}

/// The minimal two's-complement bytes exist for every `v`.
pub proof fn lemma_min_signed_props(v: int)
    ensures
        is_minimal_signed(min_signed(v)),
        signed_of(min_signed(v)) == v,
    decreases abs_int(v),
{
    vstd::arithmetic::div_mod::lemma_fundamental_div_mod(v, 256);
    vstd::arithmetic::div_mod::lemma_mod_bound(v, 256);
    if -128 <= v < 128 {
        let s = seq![(v % 256) as u8];
        assert(min_signed(v) == s);
        if v >= 0 {
            vstd::arithmetic::div_mod::lemma_fundamental_div_mod_converse(v, 256, 0, v);
        } else {
            vstd::arithmetic::div_mod::lemma_fundamental_div_mod_converse(v, 256, -1, v + 256);
        }
    } else {
        let q = v / 256;
        let m = v % 256;
        lemma_min_signed_props(q);
        let t = min_signed(q);
        let s = t.push(m as u8);
        assert(min_signed(v) == s);
        assert(s.drop_last() =~= t);
        assert(s.last() == m as u8);
        assert(s[0] == t[0]);
        assert(signed_of(s) == signed_of(t) * 256 + s.last());
        if t.len() == 1 {
            assert(-128 <= q < 128);
            assert(t[0] == (q % 256) as u8);
            assert(s[1] == m as u8);
            if q == 0 {
                assert(m >= 128);
                vstd::arithmetic::div_mod::lemma_fundamental_div_mod_converse(q, 256, 0, 0);
            } else if q == -1 {
                assert(m < 128);
                vstd::arithmetic::div_mod::lemma_fundamental_div_mod_converse(q, 256, -1, 255);
            } else if q > 0 {
                vstd::arithmetic::div_mod::lemma_fundamental_div_mod_converse(q, 256, 0, q);
            } else {
                vstd::arithmetic::div_mod::lemma_fundamental_div_mod_converse(q, 256, -1, q + 256);
            }
        } else {
            assert(s[1] == t[1]);
        }
    }
}

/// The unsigned number that `s` spells, where it fits `usize`.
pub fn unsigned_usize(s: &[u8]) -> (r: Option<usize>)
    ensures
        r.is_some() == (unsigned_of(s@) <= usize::MAX),
        r matches Some(v) ==> v == unsigned_of(s@),
{
    let k = s.len();
    let mut z: usize = 0;
    proof {
        assert(s@.subrange(0, k as int) =~= s@);
    }
    while z < k && s[z] == 0
        invariant
            z <= k == s@.len(),
            unsigned_of(s@.subrange(z as int, k as int)) == unsigned_of(s@),
        decreases k - z,
    {
        proof {
            let t = s@.subrange(z as int, k as int);
            lemma_unsigned_drop_zero(t);
            assert(t.drop_first() =~= s@.subrange(z + 1, k as int));
        }
        z = z + 1;
    }
    if k - z > 8 {
        proof {
            let t = s@.subrange(z as int, k as int);
            lemma_unsigned_front(t);
            lemma_pow256_mono(8, (t.len() - 1) as nat);
            assert(pow256(8) == 0x1_0000_0000_0000_0000) by {
                reveal_with_fuel(pow256, 9);
            }
            assert(t[0] >= 1);
            assert(t[0] * pow256((t.len() - 1) as nat) >= pow256((t.len() - 1) as nat))
                by (nonlinear_arith)
                requires
                    t[0] >= 1,
            ;
        }
        return None;
    }
    let rest = copy_range(s, z, k);
    let v = unsigned_value_u128(rest.as_slice());
    if v > usize::MAX as u128 {
        return None;
    }
    Some(v as usize)
}

/// A copy of `s[start..end]`.
pub fn copy_range(s: &[u8], start: usize, end: usize) -> (r: Vec<u8>)
    requires
        start <= end <= s@.len(),
    ensures
        r@ == s@.subrange(start as int, end as int),
{
    let mut out: Vec<u8> = Vec::new();
    let mut i: usize = start;
    while i < end
        invariant
            start <= i <= end <= s@.len(),
            out@ =~= s@.subrange(start as int, i as int),
        decreases end - i,
    {
        out.push(s[i]);
        i = i + 1;
    }
    out
}

/// `256^k` for `k <= 15`.
pub fn pow256_u128(k: usize) -> (r: u128)
    requires
        k <= 15,
    ensures
        r == pow256(k as nat),
{
    let mut r: u128 = 1;
    let mut i: usize = 0;
    while i < k
        invariant
            i <= k <= 15,
            r == pow256(i as nat),
        decreases k - i,
    {
        proof {
            lemma_pow256_mono((i + 1) as nat, 15);
            assert(pow256(15) == 0x1000000000000000000000000000000u128) by {
                reveal_with_fuel(pow256, 16);
            }
        }
        r = r * 256;
        i = i + 1;
    }
    r
}

/// The `n` big-endian digits of `x` in base 256.
pub fn digits_be(x: u128, n: usize) -> (r: Vec<u8>)
    requires
        1 <= n <= 16,
        x < pow256(n as nat),
    ensures
        r@.len() == n,
        unsigned_of(r@) == x,
{
    let mut out: Vec<u8> = Vec::new();
    let mut i: usize = 0;
    proof {
        lemma_pow256_pos(n as nat);
        vstd::arithmetic::div_mod::lemma_basic_div(x as int, pow256(n as nat) as int);
        assert(unsigned_of(out@) == 0);
    }
    while i < n
        invariant
            i <= n <= 16,
            x < pow256(n as nat),
            out@.len() == i,
            unsigned_of(out@) == x as int / pow256((n - i) as nat) as int,
        decreases n - i,
    {
        let k: usize = n - 1 - i;
        let d = pow256_u128(k);
        proof {
            lemma_pow256_pos(k as nat);
            assert(pow256((n - i) as nat) == d * 256);
            vstd::arithmetic::div_mod::lemma_div_denominator(x as int, d as int, 256);
            vstd::arithmetic::div_mod::lemma_fundamental_div_mod(x as int / d as int, 256);
        }
        let b: u8 = ((x / d) % 256) as u8;
        proof {
            let y = x as int / d as int;
            assert(unsigned_of(out@.push(b)) == unsigned_of(out@) * 256 + b) by {
                assert(out@.push(b).drop_last() =~= out@);
            }
            assert(y == 256 * (y / 256) + y % 256);
        }
        out.push(b);
        i = i + 1;
    }
    proof {
        assert(pow256(0) == 1);
        vstd::arithmetic::div_mod::lemma_div_basics(x as int);
    }
    out
}

/// Drops redundant leading sign bytes.
pub fn strip_signed(v: Vec<u8>) -> (r: Vec<u8>)
    requires
        v@.len() >= 1,
    ensures
        is_minimal_signed(r@),
        signed_of(r@) == signed_of(v@),
{
    let mut start: usize = 0;
    proof {
        assert(v@.subrange(0, v@.len() as int) =~= v@);
    }
    while start < v.len() - 1 && ((v[start] == 0 && v[start + 1] < 128) || (v[start] == 255
        && v[start + 1] >= 128))
        invariant
            v@.len() >= 1,
            start < v@.len(),
            signed_of(v@.subrange(start as int, v@.len() as int)) == signed_of(v@),
        decreases v@.len() - start,
    {
        proof {
            let s = v@.subrange(start as int, v@.len() as int);
            lemma_signed_drop_redundant(s);
            assert(s.drop_first() =~= v@.subrange(start + 1, v@.len() as int));
        }
        start = start + 1;
    }
    let mut out: Vec<u8> = Vec::new();
    let mut j: usize = start;
    while j < v.len()
        invariant
            start <= j <= v@.len(),
            out@ =~= v@.subrange(start as int, j as int),
        decreases v@.len() - j,
    {
        out.push(v[j]);
        j = j + 1;
    }
    out
}

/// Drops redundant leading zero bytes.
pub fn strip_unsigned(v: Vec<u8>) -> (r: Vec<u8>)
    requires
        v@.len() >= 1,
    ensures
        is_minimal_unsigned(r@),
        unsigned_of(r@) == unsigned_of(v@),
{
    let mut start: usize = 0;
    proof {
        assert(v@.subrange(0, v@.len() as int) =~= v@);
    }
    while start < v.len() - 1 && v[start] == 0
        invariant
            v@.len() >= 1,
            start < v@.len(),
            unsigned_of(v@.subrange(start as int, v@.len() as int)) == unsigned_of(v@),
        decreases v@.len() - start,
    {
        proof {
            let s = v@.subrange(start as int, v@.len() as int);
            lemma_unsigned_drop_zero(s);
            assert(s.drop_first() =~= v@.subrange(start + 1, v@.len() as int));
        }
        start = start + 1;
    }
    let mut out: Vec<u8> = Vec::new();
    let mut j: usize = start;
    while j < v.len()
        invariant
            start <= j <= v@.len(),
            out@ =~= v@.subrange(start as int, j as int),
        decreases v@.len() - j,
    {
        out.push(v[j]);
        j = j + 1;
    }
    proof {
        assert(out@ =~= v@.subrange(start as int, v@.len() as int));
    }
    out
}

/// The minimal two's-complement bytes of `v`.
pub fn signed_bytes_i128(v: i128) -> (r: Vec<u8>)
    ensures
        is_minimal_signed(r@),
        signed_of(r@) == v,
{
    proof {
        assert(pow256(16) == 0x100000000000000000000000000000000int) by {
            reveal_with_fuel(pow256, 17);
        }
        assert(pow256(15) == 0x1000000000000000000000000000000int) by {
            reveal_with_fuel(pow256, 16);
        }
    }
    let x: u128 = if v >= 0 {
        v as u128
    } else {
        ((v + 0x7fff_ffff_ffff_ffff_ffff_ffff_ffff_ffffi128 + 1) as u128)
            + 0x8000_0000_0000_0000_0000_0000_0000_0000u128
    };
    let d = digits_be(x, 16);
    proof {
        let s = d@;
        lemma_signed_unsigned(s);
        lemma_unsigned_front(s);
        lemma_unsigned_bound(s.drop_first());
        let p = pow256(15) as int;
        let r = unsigned_of(s.drop_first()) as int;
        if s[0] >= 128 {
            assert(s[0] * p + r >= 128 * p) by (nonlinear_arith)
                requires
                    s[0] >= 128,
                    r >= 0,
                    p >= 0,
            ;
        } else {
            assert(s[0] * p + r < 128 * p) by (nonlinear_arith)
                requires
                    0 <= s[0] <= 127,
                    0 <= r < p,
            ;
        }
    }
    strip_signed(d)
}

/// The minimal unsigned bytes of `x`.
pub fn unsigned_bytes_u128(x: u128) -> (r: Vec<u8>)
    ensures
        is_minimal_unsigned(r@),
        unsigned_of(r@) == x,
{
    proof {
        assert(pow256(16) == 0x100000000000000000000000000000000int) by {
            reveal_with_fuel(pow256, 17);
        }
    }
    let d = digits_be(x, 16);
    strip_unsigned(d)
}

/// The two's-complement number spelled by at most sixteen bytes.
pub fn signed_value_i128(s: &[u8]) -> (r: i128)
    requires
        1 <= s@.len() <= 16,
    ensures
        r == signed_of(s@),
{
    proof {
        assert(pow256(15) == 0x1000000000000000000000000000000int) by {
            reveal_with_fuel(pow256, 16);
        }
    }
    let mut acc: i128 = if s[0] >= 128 {
        s[0] as i128 - 256
    } else {
        s[0] as i128
    };
    let mut i: usize = 1;
    proof {
        assert(s@.subrange(0, 1) =~= seq![s@[0]]);
    }
    while i < s.len()
        invariant
            1 <= i <= s@.len() <= 16,
            acc == signed_of(s@.subrange(0, i as int)),
            pow256(15) == 0x1000000000000000000000000000000int,
        decreases s@.len() - i,
    {
        proof {
            let t = s@.subrange(0, i as int + 1);
            assert(t.drop_last() =~= s@.subrange(0, i as int));
            lemma_signed_range(s@.subrange(0, i as int));
            lemma_pow256_mono(i as nat, 15);
            assert(pow256(i as nat) == 256 * pow256((i - 1) as nat));
        }
        acc = acc * 256 + s[i] as i128;
        i = i + 1;
    }
    proof {
        assert(s@.subrange(0, s@.len() as int) =~= s@);
    }
    acc
}

/// The unsigned number spelled by at most sixteen bytes.
pub fn unsigned_value_u128(s: &[u8]) -> (r: u128)
    requires
        s@.len() <= 16,
    ensures
        r == unsigned_of(s@),
{
    let mut acc: u128 = 0;
    let mut i: usize = 0;
    proof {
        assert(s@.subrange(0, 0) =~= Seq::<u8>::empty());
        assert(pow256(16) == 0x100000000000000000000000000000000int) by {
            reveal_with_fuel(pow256, 17);
        }
    }
    while i < s.len()
        invariant
            i <= s@.len() <= 16,
            acc == unsigned_of(s@.subrange(0, i as int)),
            pow256(16) == 0x100000000000000000000000000000000int,
        decreases s@.len() - i,
    {
        proof {
            let t = s@.subrange(0, i as int + 1);
            assert(t.drop_last() =~= s@.subrange(0, i as int));
            lemma_unsigned_bound(t);
            lemma_pow256_mono((i + 1) as nat, 16);
        }
        acc = acc * 256 + s[i] as u128;
        i = i + 1;
    }
    proof {
        assert(s@.subrange(0, s@.len() as int) =~= s@);
    }
    acc
}

} // verus!
