//! Twelve-limb (384-bit) unsigned integers, little-endian `u32` limbs.
use vstd::arithmetic::power2::{lemma_pow2_adds, lemma_pow2_pos, pow2};
use vstd::prelude::*;

verus! {

/// Number of `u32` limbs.
pub const INT_LENGTH: usize = 12;

/// The value of little-endian limbs `s`: limb `i` weighs `2^(32 i)`.
pub open spec fn value(s: Seq<u32>) -> nat
    decreases s.len(),
{
    if s.len() == 0 {
        0
    } else {
        value(s.drop_last()) + s.last() as nat * pow2((32 * (s.len() - 1)) as nat)
    }
}

/// `2^384`, one past the largest value of twelve limbs.
pub open spec fn modulus() -> nat {
    pow2(384)
}

/// Value of the first `i` limbs plus `limb` at position `i`.
proof fn lemma_value_push(s: Seq<u32>, i: int)
    requires
        0 <= i < s.len(),
    ensures
        value(s.subrange(0, i + 1)) == value(s.subrange(0, i)) + s[i] as nat * pow2(
            (32 * i) as nat,
        ),
        pow2((32 * (i + 1)) as nat) == pow2((32 * i) as nat) * pow2(32),
{
    assert(s.subrange(0, i + 1).drop_last() =~= s.subrange(0, i));
    lemma_pow2_adds((32 * i) as nat, 32);
}

/// A value of `n` limbs is below `2^(32 n)`.
pub proof fn lemma_value_bound(s: Seq<u32>)
    ensures
        value(s) < pow2((32 * s.len()) as nat),
    decreases s.len(),
{
    if s.len() == 0 {
        vstd::arithmetic::power2::lemma2_to64();
    } else {
        let n = (s.len() - 1) as int;
        lemma_value_bound(s.drop_last());
        lemma_pow2_adds((32 * n) as nat, 32);
        vstd::arithmetic::power2::lemma2_to64();
        let p = pow2((32 * n) as nat);
        assert(value(s.drop_last()) + s.last() as nat * p < p * pow2(32)) by (nonlinear_arith)
            requires
                value(s.drop_last()) < p,
                s.last() as nat <= pow2(32) - 1,
        ;
    }
}

/// Limbs that agree from index `i` on add the same amount above their first
/// `i` limbs.
proof fn lemma_value_tail(s: Seq<u32>, t: Seq<u32>, i: int)
    requires
        s.len() == t.len(),
        0 <= i <= s.len(),
        forall|j: int| i <= j < s.len() ==> s[j] == t[j],
    ensures
        value(s) - value(s.subrange(0, i)) == value(t) - value(t.subrange(0, i)),
    decreases s.len(),
{
    if s.len() == i {
        assert(s.subrange(0, i) =~= s);
        assert(t.subrange(0, i) =~= t);
    } else {
        lemma_value_tail(s.drop_last(), t.drop_last(), i);
        assert(s.drop_last().subrange(0, i) =~= s.subrange(0, i));
        assert(t.drop_last().subrange(0, i) =~= t.subrange(0, i));
    }
}

/// Subtracting `b` from `a` and adding `b` back modulo `2^384` gives `a`,
/// when `a` is at least `b`.
pub proof fn lemma_add_sub_inverse(a: Seq<u32>, b: Seq<u32>)
    requires
        a.len() == 12,
        value(a) >= value(b),
    ensures
        ((value(a) - value(b)) + value(b)) % (modulus() as int) == value(a),
{
    lemma_value_bound(a);
    vstd::arithmetic::div_mod::lemma_small_mod(value(a), modulus());
}

/// Adding `b` to `a` modulo `2^384` and subtracting `b` gives `a`, when the
/// sum does not wrap.
pub proof fn lemma_sub_add_inverse(a: Seq<u32>, b: Seq<u32>)
    requires
        a.len() == 12,
        value(a) + value(b) < modulus(),
    ensures
        (value(a) + value(b)) % modulus() - value(b) == value(a) as int,
{
    vstd::arithmetic::div_mod::lemma_small_mod(value(a) + value(b), modulus());
}

/// A limb put in front of `s` counts once; `s` moves up by `2^32`.
proof fn lemma_value_prepend(x: u32, s: Seq<u32>)
    ensures
        value(seq![x] + s) == x as nat + pow2(32) * value(s),
    decreases s.len(),
{
    vstd::arithmetic::power2::lemma2_to64();
    if s.len() == 0 {
        assert(seq![x] + s =~= seq![x]);
        assert(seq![x].drop_last() =~= Seq::<u32>::empty());
        assert(value(seq![x]) == value(Seq::<u32>::empty()) + x as nat * pow2(0));
    } else {
        let n = (s.len() - 1) as int;
        let xs = seq![x] + s;
        assert(xs.drop_last() =~= seq![x] + s.drop_last());
        assert(xs.last() == s.last());
        assert(xs.len() == n + 2);
        assert(value(xs) == value(xs.drop_last()) + xs.last() as nat * pow2((32 * (n + 1)) as nat));
        lemma_value_prepend(x, s.drop_last());
        lemma_pow2_adds(32, (32 * n) as nat);
        assert(32 + 32 * n == 32 * (n + 1));
        let p = pow2((32 * n) as nat);
        assert(pow2(32) * (value(s.drop_last()) + s.last() as nat * p) == pow2(32) * value(
            s.drop_last()) + s.last() as nat * (pow2(32) * p)) by (nonlinear_arith);
    }
}

/// Divides `base` by 3 from the most significant limb down; returns the
/// remainder.
pub fn bigint_div_radix(base: &mut [u32; INT_LENGTH]) -> (r: u32)
    ensures
        value(final(base)@) == value(old(base)@) / 3,
        r as nat == value(old(base)@) % 3,
{
    let ghost b0 = base@;
    let mut rem: u32 = 0;
    let mut j: usize = INT_LENGTH;
    proof {
        vstd::arithmetic::power2::lemma2_to64();
        assert(b0.subrange(12, 12) =~= Seq::<u32>::empty());
        assert(base@.subrange(12, 12) =~= Seq::<u32>::empty());
    }
    while j > 0
        invariant
            j <= 12,
            rem < 3,
            b0 == old(base)@,
            forall|k: int| 0 <= k < j ==> #[trigger] base@[k] == b0[k],
            value(b0.subrange(j as int, 12)) == 3 * value(base@.subrange(j as int, 12)) + rem,
            pow2(32) == 0x1_0000_0000nat,
        decreases j,
    {
        j -= 1;
        let ghost prev = base@;
        let limb = base[j];
        let lhs: u64 = rem as u64 * 0x1_0000_0000 + limb as u64;
        let q = lhs / 3;
        assert(q < 0x1_0000_0000) by (nonlinear_arith)
            requires q == lhs / 3, lhs < 3 * 0x1_0000_0000;
        base[j] = q as u32;
        let r = (lhs % 3) as u32;
        proof {
            assert(b0.subrange(j as int, 12) =~= seq![limb] + b0.subrange(j + 1, 12));
            assert(base@.subrange(j as int, 12) =~= seq![q as u32] + prev.subrange(j + 1, 12));
            assert(base@.subrange(j + 1, 12) =~= prev.subrange(j + 1, 12));
            lemma_value_prepend(limb, b0.subrange(j + 1, 12));
            lemma_value_prepend(q as u32, prev.subrange(j + 1, 12));
            let vb = value(prev.subrange(j + 1, 12));
            assert(lhs == 3 * q + r) by (nonlinear_arith)
                requires q == lhs / 3, r == lhs % 3;
            assert(limb as nat + pow2(32) * (3 * vb + rem as nat) == 3 * (q as nat + pow2(32) * vb)
                + r as nat) by (nonlinear_arith)
                requires
                    lhs == rem as nat * 0x1_0000_0000 + limb as nat,
                    lhs == 3 * q + r,
                    pow2(32) == 0x1_0000_0000nat,
            ;
        }
        rem = r;
    }
    proof {
        assert(b0.subrange(0, 12) =~= b0);
        assert(base@.subrange(0, 12) =~= base@);
        vstd::arithmetic::div_mod::lemma_fundamental_div_mod_converse(
            value(b0) as int, 3, value(base@) as int, rem as int);
    }
    rem
}

/// Adds two limbs and an incoming carry; gives the outgoing carry and the
/// low 32 bits of the sum.
pub fn full_add(lh: u32, rh: u32, carry: bool) -> (r: (bool, u32))
    ensures
        r.1 as nat + (if r.0 { 0x1_0000_0000nat } else { 0nat }) == lh as nat + rh as nat + (
        if carry {
            1nat
        } else {
            0nat
        }),
{
    let v: u64 = lh as u64 + rh as u64 + if carry {
        1u64
    } else {
        0u64
    };
    if v >= 0x1_0000_0000 {
        (true, (v - 0x1_0000_0000) as u32)
    } else {
        (false, v as u32)
    }
}

/// The complement of every limb of `s`.
pub open spec fn complement(s: Seq<u32>) -> Seq<u32> {
    Seq::new(s.len(), |j: int| !s[j])
}

/// Complementing the limbs of a value `x` of `n` limbs gives `2^(32 n) - 1 - x`.
pub proof fn lemma_value_complement(s: Seq<u32>)
    ensures
        value(complement(s)) == pow2((32 * s.len()) as nat) - 1 - value(s),
    decreases s.len(),
{
    vstd::arithmetic::power2::lemma2_to64();
    if s.len() > 0 {
        let n = (s.len() - 1) as int;
        assert(complement(s).drop_last() =~= complement(s.drop_last()));
        assert(complement(s).last() == !s.last());
        lemma_value_complement(s.drop_last());
        lemma_pow2_adds((32 * n) as nat, 32);
        vstd::arithmetic::power2::lemma2_to64();
        let x = s.last();
        assert(!x as nat == 0xFFFF_FFFF - x as nat) by (bit_vector);
        let p = pow2((32 * n) as nat);
        assert((0xFFFF_FFFF - x as nat) * p == p * pow2(32) - p - x as nat * p) by (nonlinear_arith)
            requires pow2(32) == 0x1_0000_0000nat;
    }
}

/// Replaces every limb by its bitwise complement.
pub fn bigint_not(base: &mut [u32; INT_LENGTH])
    ensures
        final(base)@ == complement(old(base)@),
        value(final(base)@) == modulus() - 1 - value(old(base)@),
{
    let mut i: usize = 0;
    while i < INT_LENGTH
        invariant
            i <= 12,
            forall|j: int| 0 <= j < i ==> #[trigger] base@[j] == !old(base)@[j],
            forall|j: int| i <= j < 12 ==> #[trigger] base@[j] == old(base)@[j],
        decreases 12 - i,
    {
        base[i] = !base[i];
        i += 1;
    }
    assert(base@ =~= complement(old(base)@));
    proof {
        lemma_value_complement(old(base)@);
    }
}

/// Multiplies `base` by the small factor `k`.
pub fn bigint_mul_small(base: &mut [u32; INT_LENGTH], k: u32)
    requires
        value(old(base)@) * k < modulus(),
    ensures
        value(final(base)@) == value(old(base)@) * k,
{
    let ghost b0 = base@;
    let mut carry: u32 = 0;
    let mut i: usize = 0;
    proof {
        assert(base@.subrange(0, 0) =~= Seq::<u32>::empty());
        assert(b0.subrange(0, 0) =~= Seq::<u32>::empty());
        assert(value(Seq::<u32>::empty()) == 0);
        assert(0 * k == 0);
        vstd::arithmetic::power2::lemma2_to64();
    }
    while i < INT_LENGTH
        invariant
            i <= 12,
            value(base@.subrange(0, i as int)) + carry as nat * pow2((32 * i) as nat)
                == value(b0.subrange(0, i as int)) * k,
            forall|j: int| i <= j < 12 ==> #[trigger] base@[j] == b0[j],
            b0 == old(base)@,
            value(b0) * k < modulus(),
            pow2(32) == 0x1_0000_0000nat,
        decreases 12 - i,
    {
        let ghost prev = base@;
        let a = base[i];
        let c0 = carry;
        assert((a as u64) * (k as u64) + (carry as u64) <= 0xFFFF_FFFF_FFFF_FFFFu64) by (nonlinear_arith)
            requires (a as nat) <= 0xFFFF_FFFF, (k as nat) <= 0xFFFF_FFFF, (carry as nat) <= 0xFFFF_FFFF;
        let v: u64 = (a as u64) * (k as u64) + (carry as u64);
        let hi = v / 0x1_0000_0000;
        let lo = v % 0x1_0000_0000;
        assert(hi <= 0xFFFF_FFFF) by (nonlinear_arith)
            requires hi == v / 0x1_0000_0000, v <= 0xFFFF_FFFF_FFFF_FFFFu64;
        base[i] = lo as u32;
        carry = hi as u32;
        proof {
            lemma_value_push(base@, i as int);
            lemma_value_push(b0, i as int);
            assert(base@.subrange(0, i as int) =~= prev.subrange(0, i as int));
            let p = pow2((32 * i) as nat);
            assert(lo as nat * p + hi as nat * (p * pow2(32)) == a as nat * k * p + c0 as nat * p)
                by (nonlinear_arith)
                requires
                    v == lo + hi * 0x1_0000_0000,
                    v as nat == a as nat * k as nat + c0 as nat,
                    pow2(32) == 0x1_0000_0000nat,
            ;
            let x = value(b0.subrange(0, i as int));
            assert((x + a as nat * p) * k == x * k + a as nat * k * p) by (nonlinear_arith);
        }
        i += 1;
    }
    proof {
        assert(base@.subrange(0, 12) =~= base@);
        assert(b0.subrange(0, 12) =~= b0);
        lemma_value_bound(base@);
        let m = modulus();
        if carry > 0 {
            assert(carry as nat * m >= m) by (nonlinear_arith)
                requires carry > 0;
        }
    }
}

/// Whether every limb is zero.
pub fn is_null(base: &[u32; INT_LENGTH]) -> (r: bool)
    ensures
        r == (forall|j: int| 0 <= j < 12 ==> #[trigger] base@[j] == 0),
{
    let mut i: usize = 0;
    while i < INT_LENGTH
        invariant
            i <= 12,
            forall|j: int| 0 <= j < i ==> #[trigger] base@[j] == 0,
        decreases 12 - i,
    {
        if base[i] != 0 {
            return false;
        }
        i += 1;
    }
    true
}

/// Adds `other` into `base`, carrying upward until the carry clears.
/// Returns one past the index of the highest limb written.
pub fn bigint_add_small(base: &mut [u32; INT_LENGTH], other: u32) -> (r: usize)
    requires
        value(old(base)@) + other < modulus(),
    ensures
        value(final(base)@) == value(old(base)@) + other,
        1 <= r <= 12,
        forall|j: int| r <= j < 12 ==> #[trigger] final(base)@[j] == old(base)@[j],
{
    let ghost b0 = base@;
    proof {
        lemma_value_push(b0, 0);
        vstd::arithmetic::power2::lemma2_to64();
        assert(b0.subrange(0, 0) =~= Seq::<u32>::empty());
    }
    let (mut carry, v) = full_add(base[0], other, false);
    base[0] = v;
    proof {
        assert(base@.subrange(0, 0) =~= Seq::<u32>::empty());
        lemma_value_push(base@, 0);
        assert(value(base@.subrange(0, 1)) == v);
        assert(value(b0.subrange(0, 1)) == b0[0]);
    }
    let mut i: usize = 1;
    while carry
        invariant
            1 <= i <= 12,
            value(base@.subrange(0, i as int)) + (if carry { pow2((32 * i) as nat) } else { 0 })
                == value(b0.subrange(0, i as int)) + other,
            forall|j: int| i <= j < 12 ==> #[trigger] base@[j] == b0[j],
            value(b0) + other < modulus(),
            b0 == old(base)@,
            pow2(32) == 0x1_0000_0000nat,
        decreases 12 - i,
    {
        if i == INT_LENGTH {
            proof {
                assert(base@.subrange(0, 12) =~= base@);
                assert(b0.subrange(0, 12) =~= b0);
            }
        }
        let ghost prev = base@;
        let (c, v) = full_add(base[i], 0, carry);
        base[i] = v;
        proof {
            lemma_value_push(base@, i as int);
            lemma_value_push(b0, i as int);
            assert(base@.subrange(0, i as int) =~= prev.subrange(0, i as int));
            let p = pow2((32 * i) as nat);
            assert(v as nat * p + (if c { p * pow2(32) } else { 0 }) == b0[i as int] as nat * p + p)
                by (nonlinear_arith)
                requires
                    v as nat + (if c { 0x1_0000_0000nat } else { 0nat }) == b0[i as int] as nat + 1,
                    pow2(32) == 0x1_0000_0000nat,
            ;
        }
        carry = c;
        i += 1;
    }
    proof {
        lemma_value_tail(base@, b0, i as int);
    }
    i
}

/// Adds `rh` into `base` modulo `2^384`.
pub fn bigint_add(base: &mut [u32; INT_LENGTH], rh: &[u32; INT_LENGTH])
    ensures
        value(final(base)@) == (value(old(base)@) + value(rh@)) % modulus(),
{
    let ghost b0 = base@;
    let mut carry = false;
    let mut i: usize = 0;
    proof {
        assert(base@.subrange(0, 0) =~= Seq::<u32>::empty());
        assert(rh@.subrange(0, 0) =~= Seq::<u32>::empty());
        vstd::arithmetic::power2::lemma2_to64();
    }
    while i < INT_LENGTH
        invariant
            i <= 12,
            value(base@.subrange(0, i as int)) + (if carry { pow2((32 * i) as nat) } else { 0 })
                == value(b0.subrange(0, i as int)) + value(rh@.subrange(0, i as int)),
            forall|j: int| i <= j < 12 ==> #[trigger] base@[j] == b0[j],
            b0 == old(base)@,
            pow2(32) == 0x1_0000_0000nat,
        decreases 12 - i,
    {
        let ghost prev = base@;
        let (c, v) = full_add(base[i], rh[i], carry);
        base[i] = v;
        proof {
            lemma_value_push(base@, i as int);
            lemma_value_push(b0, i as int);
            lemma_value_push(rh@, i as int);
            assert(base@.subrange(0, i as int) =~= prev.subrange(0, i as int));
            let p = pow2((32 * i) as nat);
            assert(v as nat * p + (if c { p * pow2(32) } else { 0 }) == b0[i as int] as nat * p
                + rh@[i as int] as nat * p + (if carry { p } else { 0 }))
                by (nonlinear_arith)
                requires
                    v as nat + (if c { 0x1_0000_0000nat } else { 0nat }) == b0[i as int] as nat
                        + rh@[i as int] as nat + (if carry { 1nat } else { 0nat }),
                    pow2(32) == 0x1_0000_0000nat,
            ;
        }
        carry = c;
        i += 1;
    }
    proof {
        assert(base@.subrange(0, 12) =~= base@);
        assert(b0.subrange(0, 12) =~= b0);
        assert(rh@.subrange(0, 12) =~= rh@);
        lemma_value_bound(base@);
        let s = value(base@);
        let m = modulus();
        if carry {
            vstd::arithmetic::div_mod::lemma_fundamental_div_mod_converse((s + m) as int, m as int, 1, s as int);
        } else {
            vstd::arithmetic::div_mod::lemma_fundamental_div_mod_converse(s as int, m as int, 0, s as int);
        }
    }
}

/// Subtracts `rh` from `base`, as `base + !rh + 1`.
pub fn bigint_sub(base: &mut [u32; INT_LENGTH], rh: &[u32; INT_LENGTH])
    requires
        value(old(base)@) >= value(rh@),
    ensures
        value(final(base)@) == value(old(base)@) - value(rh@),
{
    let ghost b0 = base@;
    let mut noborrow = true;
    let mut i: usize = 0;
    proof {
        assert(base@.subrange(0, 0) =~= Seq::<u32>::empty());
        assert(rh@.subrange(0, 0) =~= Seq::<u32>::empty());
        vstd::arithmetic::power2::lemma2_to64();
    }
    while i < INT_LENGTH
        invariant
            i <= 12,
            value(base@.subrange(0, i as int)) + (if noborrow { pow2((32 * i) as nat) } else { 0 })
                == value(b0.subrange(0, i as int)) + pow2((32 * i) as nat) - value(rh@.subrange(0, i as int)),
            forall|j: int| i <= j < 12 ==> #[trigger] base@[j] == b0[j],
            b0 == old(base)@,
            value(b0) >= value(rh@),
            pow2(32) == 0x1_0000_0000nat,
        decreases 12 - i,
    {
        let ghost prev = base@;
        let b = rh[i];
        assert(!b as nat == 0xFFFF_FFFF - b as nat) by (bit_vector);
        let (c, v) = full_add(base[i], !b, noborrow);
        base[i] = v;
        proof {
            lemma_value_push(base@, i as int);
            lemma_value_push(b0, i as int);
            lemma_value_push(rh@, i as int);
            assert(base@.subrange(0, i as int) =~= prev.subrange(0, i as int));
            let p = pow2((32 * i) as nat);
            assert(v as nat * p + (if c { p * pow2(32) } else { 0 }) == b0[i as int] as nat * p
                + p * pow2(32) - b as nat * p - p + (if noborrow { p } else { 0 }))
                by (nonlinear_arith)
                requires
                    v as nat + (if c { 0x1_0000_0000nat } else { 0nat }) == b0[i as int] as nat
                        + 0xFFFF_FFFF - b as nat + (if noborrow { 1nat } else { 0nat }),
                    pow2(32) == 0x1_0000_0000nat,
            ;
        }
        noborrow = c;
        i += 1;
    }
    proof {
        assert(base@.subrange(0, 12) =~= base@);
        assert(b0.subrange(0, 12) =~= b0);
        assert(rh@.subrange(0, 12) =~= rh@);
        lemma_value_bound(base@);
    }
}

/// Compares two values: -1, 0 or 1 as `lh` is below, equal to or above `rh`.
pub fn bigint_cmp(lh: &[u32; INT_LENGTH], rh: &[u32; INT_LENGTH]) -> (r: i8)
    ensures
        r == -1 <==> value(lh@) < value(rh@),
        r == 0 <==> value(lh@) == value(rh@),
        r == 1 <==> value(lh@) > value(rh@),
{
    let mut i: usize = INT_LENGTH;
    while i > 0
        invariant
            i <= 12,
            forall|j: int| i <= j < 12 ==> lh@[j] == rh@[j],
        decreases i,
    {
        let a = lh[i - 1];
        let b = rh[i - 1];
        if a != b {
            proof {
                let k = (i - 1) as int;
                lemma_value_tail(lh@, rh@, i as int);
                lemma_value_push(lh@, k);
                lemma_value_push(rh@, k);
                lemma_value_bound(lh@.subrange(0, k));
                lemma_value_bound(rh@.subrange(0, k));
                let p = pow2((32 * k) as nat);
                let x = value(lh@.subrange(0, k));
                let y = value(rh@.subrange(0, k));
                if a < b {
                    assert(x + a as nat * p < y + b as nat * p) by (nonlinear_arith)
                        requires x < p, (a as nat) < (b as nat);
                } else {
                    assert(x + a as nat * p > y + b as nat * p) by (nonlinear_arith)
                        requires y < p, (a as nat) > (b as nat);
                }
            }
            if a < b {
                return -1;
            } else {
                return 1;
            }
        }
        i -= 1;
    }
    proof {
        lemma_value_tail(lh@, rh@, 0);
        assert(lh@.subrange(0, 0) =~= Seq::<u32>::empty());
        assert(rh@.subrange(0, 0) =~= Seq::<u32>::empty());
    }
    0
}

} // verus!
