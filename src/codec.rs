//! Conversion between 243-trit chunks and 48-byte big-endian two's-complement
//! integers, centred on `HALF_3`.
use crate::bigint::{
    bigint_add, bigint_add_small, bigint_cmp, bigint_div_radix, bigint_mul_small, bigint_not,
    bigint_sub, is_null,
    lemma_value_bound, modulus, value, INT_LENGTH,
};
use crate::constants::{Trit, BYTE_LENGTH, HALF_3, TRIT_LENGTH};
use vstd::arithmetic::power2::{lemma_pow2_adds, pow2};
use vstd::prelude::*;

verus! {

/// Every entry is -1, 0 or 1.
pub open spec fn valid_trits(t: Seq<Trit>) -> bool {
    forall|i: int| 0 <= i < t.len() ==> -1 <= #[trigger] t[i] <= 1
}

/// `3^n`.
pub open spec fn pow3(n: nat) -> nat
    decreases n,
{
    if n == 0 {
        1
    } else {
        3 * pow3((n - 1) as nat)
    }
}

/// `sum over k <= i < 242 of (t[i] + 1) * 3^(i - k)`: the trits from `k` on,
/// shifted into unsigned digits 0, 1, 2.
pub open spec fn biased(t: Seq<Trit>, k: int) -> int
    decreases 242 - k,
{
    if k < 0 || k >= 242 {
        0
    } else {
        (t[k] + 1) + 3 * biased(t, k + 1)
    }
}

/// The value of `HALF_3`.
pub open spec fn half() -> nat {
    value(HALF_3@)
}

/// The 384-bit two's-complement pattern of `biased(t, 0) - HALF_3`: what a
/// chunk of trits encodes to.
pub open spec fn encoded_value(t: Seq<Trit>) -> nat {
    ((biased(t, 0) + modulus() - half()) % (modulus() as int)) as nat
}

/// The twelve little-endian limbs read from 48 big-endian bytes.
pub open spec fn be_limbs(b: Seq<u8>) -> Seq<u32> {
    Seq::new(
        12,
        |j: int|
            (b[47 - 4 * j] as u32) | ((b[46 - 4 * j] as u32) << 8) | ((b[45 - 4 * j] as u32) << 16)
                | ((b[44 - 4 * j] as u32) << 24),
    )
}

/// The bytes in reverse order.
pub open spec fn reversed(b: Seq<u8>) -> Seq<u8> {
    Seq::new(b.len(), |i: int| b[b.len() - 1 - i])
}

proof fn lemma_pow3_adds(a: nat, b: nat)
    ensures
        pow3(a + b) == pow3(a) * pow3(b),
    decreases a,
{
    if a > 0 {
        let a1 = (a - 1) as nat;
        lemma_pow3_adds(a1, b);
        assert(a1 + b + 1 == a + b);
        assert(pow3(a + b) == 3 * pow3(a1 + b));
        assert(pow3(a) == 3 * pow3(a1));
        assert(3 * pow3(a1 + b) == pow3(a) * pow3(b)) by (nonlinear_arith)
            requires
                pow3(a1 + b) == pow3(a1) * pow3(b),
                pow3(a) == 3 * pow3(a1),
        ;
    } else {
        assert(pow3(0) == 1);
        assert(a + b == b);
    }
}

proof fn lemma_pow2_384()
    ensures
        modulus() == 0x1_0000_0000_0000_0000_0000_0000_0000_0000_0000_0000_0000_0000_0000_0000_0000_0000_0000_0000_0000_0000_0000_0000_0000_0000nat,
{
    vstd::arithmetic::power2::lemma2_to64();
    vstd::arithmetic::power2::lemma2_to64_rest();
    let q = 0x1_0000_0000_0000_0000nat;
    assert(pow2(64) == q);
    lemma_pow2_adds(64, 64);
    assert(pow2(128) == q * q);
    lemma_pow2_adds(128, 64);
    assert(pow2(192) == q * q * q);
    lemma_pow2_adds(192, 64);
    assert(pow2(256) == q * q * q * q);
    lemma_pow2_adds(256, 64);
    assert(pow2(320) == q * q * q * q * q);
    lemma_pow2_adds(320, 64);
    assert(pow2(384) == q * q * q * q * q * q);
}

/// `3^242` fits in 384 bits.
proof fn lemma_pow3_242()
    ensures
        pow3(242) < modulus(),
{
    lemma_pow3_242_literal();
    lemma_pow2_384();
}

/// `2^383 < 3^242`.
proof fn lemma_pow3_242_above()
    ensures
        pow2(383) < pow3(242),
{
    lemma_pow3_242_literal();
    lemma_pow2_384();
    lemma_pow2_adds(383, 1);
    vstd::arithmetic::power2::lemma2_to64();
}

/// The value of `HALF_3`, limb by limb.
proof fn lemma_half_literal()
    ensures
        half() == 14531607080993493033818511764310128616160678734121958347587536572998494515620573323912591651138613852798509204277604nat,
{
    let s = HALF_3@;
    vstd::arithmetic::power2::lemma2_to64();
    lemma_pow2_adds(32, 32);
    lemma_pow2_adds(64, 32);
    lemma_pow2_adds(96, 32);
    lemma_pow2_adds(128, 32);
    lemma_pow2_adds(160, 32);
    lemma_pow2_adds(192, 32);
    lemma_pow2_adds(224, 32);
    lemma_pow2_adds(256, 32);
    lemma_pow2_adds(288, 32);
    lemma_pow2_adds(320, 32);
    assert(pow2(0) == 1);
    assert(pow2(32) == 4294967296nat);
    assert(pow2(64) == 18446744073709551616nat);
    assert(pow2(96) == 79228162514264337593543950336nat);
    assert(pow2(128) == 340282366920938463463374607431768211456nat);
    assert(pow2(160) == 1461501637330902918203684832716283019655932542976nat);
    assert(pow2(192) == 6277101735386680763835789423207666416102355444464034512896nat);
    assert(pow2(224) == 26959946667150639794667015087019630673637144422540572481103610249216nat);
    assert(pow2(256) == 115792089237316195423570985008687907853269984665640564039457584007913129639936nat);
    assert(pow2(288) == 497323236409786642155382248146820840100456150797347717440463976893159497012533375533056nat);
    assert(pow2(320) == 2135987035920910082395021706169552114602704522356652769947041607822219725780640550022962086936576nat);
    assert(pow2(352) == 9173994463960286046443283581208347763186259956673124494950355357547691504353939232280074212440502746218496nat);
    assert(s.subrange(0, 0) =~= Seq::<u32>::empty());
    assert(value(s.subrange(0, 0)) == 0);
    assert(s.subrange(0, 1).drop_last() =~= s.subrange(0, 0));
    assert(s[0] == 2781776228u32);
    assert(s.subrange(0, 1).last() == s[0]);
    assert(value(s.subrange(0, 1)) == 2781776228nat);
    assert(s.subrange(0, 2).drop_last() =~= s.subrange(0, 1));
    assert(s[1] == 2667607657u32);
    assert(s.subrange(0, 2).last() == s[1]);
    assert(value(s.subrange(0, 2)) == 11457287648155961700nat);
    assert(s.subrange(0, 3).drop_last() =~= s.subrange(0, 2));
    assert(s[2] == 344215631u32);
    assert(s.subrange(0, 3).last() == s[2]);
    assert(value(s.subrange(0, 3)) == 6349657662684731468384471396nat);
    assert(s.subrange(0, 4).drop_last() =~= s.subrange(0, 3));
    assert(s[3] == 987627737u32);
    assert(s.subrange(0, 4).last() == s[3]);
    assert(value(s.subrange(0, 4)) == 78247930856980775620000568948768541028nat);
    assert(s.subrange(0, 5).drop_last() =~= s.subrange(0, 4));
    assert(s[4] == 203704430u32);
    assert(s.subrange(0, 5).last() == s[4]);
    assert(value(s.subrange(0, 5)) == 69317025670928555621863325903362676355532491108nat);
    assert(s.subrange(0, 6).drop_last() =~= s.subrange(0, 5));
    assert(s[5] == 1352113495u32);
    assert(s.subrange(0, 6).last() == s[5]);
    assert(value(s.subrange(0, 6)) == 1976116086869026641909011976664367103019499324523049552228nat);
    assert(s.subrange(0, 7).drop_last() =~= s.subrange(0, 6));
    assert(s[6] == 2040841986u32);
    assert(s.subrange(0, 7).last() == s[6]);
    assert(value(s.subrange(0, 7)) == 12810572773946716134883656106245940395728200567577392225394264803684nat);
    assert(s.subrange(0, 8).drop_last() =~= s.subrange(0, 7));
    assert(s[7] == 1220259382u32);
    assert(s.subrange(0, 8).last() == s[7]);
    assert(value(s.subrange(0, 8)) == 32898127871620772190691694860754906853926645941022306413295090346071446948196nat);
    assert(s.subrange(0, 9).drop_last() =~= s.subrange(0, 8));
    assert(s[8] == 2851504267u32);
    assert(s.subrange(0, 9).last() == s[8]);
    assert(value(s.subrange(0, 9)) == 330181636577950034750139308320358296175657078031025282587822363577370341279673124555108nat);
    assert(s.subrange(0, 10).drop_last() =~= s.subrange(0, 9));
    assert(s[9] == 2852562949u32);
    assert(s.subrange(0, 10).last() == s[9]);
    assert(value(s.subrange(0, 10)) == 1418645838189506792985514936746084348931972949939327984271413936442441276302799236951171794897252nat);
    assert(s.subrange(0, 11).drop_last() =~= s.subrange(0, 10));
    assert(s[10] == 2826939359u32);
    assert(s.subrange(0, 11).last() == s[10]);
    assert(value(s.subrange(0, 11)) == 6038305823577213361211926639815554936918148411029290100798992251034689153997921047394119114276958225992036nat);
    assert(s.subrange(0, 12).drop_last() =~= s.subrange(0, 11));
    assert(s[11] == 1583999983u32);
    assert(s.subrange(0, 12).last() == s[11]);
    assert(value(s.subrange(0, 12)) == 14531607080993493033818511764310128616160678734121958347587536572998494515620573323912591651138613852798509204277604nat);
    assert(s.subrange(0, 12) =~= s);
    assert(half() == 14531607080993493033818511764310128616160678734121958347587536572998494515620573323912591651138613852798509204277604nat);
}

/// `3^242`, written out.
proof fn lemma_pow3_242_literal()
    ensures
        pow3(242) == 29063214161986986067637023528620257232321357468243916695175073145996989031241146647825183302277227705597018408555209nat,
{
    reveal_with_fuel(pow3, 42);
    assert(pow3(41) == 36472996377170786403nat);
    assert(pow3(37) == 450283905890997363nat);
    lemma_pow3_adds(41, 41);
    lemma_pow3_adds(82, 41);
    lemma_pow3_adds(123, 41);
    lemma_pow3_adds(164, 41);
    lemma_pow3_adds(205, 37);
    let x = 36472996377170786403nat;
    assert(pow3(242) == x * x * x * x * x * 450283905890997363nat);
}

/// `2 * HALF_3 + 1 == 3^242`.
proof fn lemma_half_value()
    ensures
        2 * half() + 1 == pow3(242),
{
    lemma_half_literal();
    lemma_pow3_242_literal();
}

/// A twelve-limb value is below `2^383` exactly when its top bit is clear.
proof fn lemma_top_bit(s: Seq<u32>)
    requires
        s.len() == 12,
    ensures
        value(s) < pow2(383) <==> s[11] < 0x8000_0000,
{
    let p = pow2(352);
    lemma_value_bound(s.drop_last());
    lemma_pow2_adds(352, 31);
    vstd::arithmetic::power2::lemma2_to64();
    assert(s.last() == s[11]);
    let d = value(s.drop_last());
    if s[11] < 0x8000_0000 {
        assert(d + s[11] as nat * p < p * pow2(31)) by (nonlinear_arith)
            requires d < p, (s[11] as nat) < 0x8000_0000, pow2(31) == 0x8000_0000nat;
    } else {
        assert(d + s[11] as nat * p >= p * pow2(31)) by (nonlinear_arith)
            requires (s[11] as nat) >= 0x8000_0000, pow2(31) == 0x8000_0000nat;
    }
}

/// Where `x` and `s + HALF_3` agree modulo `3^242`, the digits of `x` give
/// the decoded trits of `s`.
proof fn lemma_trit_direct(x: int, s: int, k: nat)
    requires
        0 <= x,
        x % (pow3(242) as int) == (s + half()) % (pow3(242) as int),
        k < 242,
    ensures
        digit(x, k) == digit((s + half()) % (pow3(242) as int), k),
{
    lemma_digit_mod(x, k, 242);
}

/// Where `x + s + HALF_3 + 1` is a multiple of `3^242`, the digits of `x`,
/// each flipped, give the decoded trits of `s`.
proof fn lemma_trit_flipped(x: int, s: int, k: nat)
    requires
        0 <= x,
        (x + s + half() + 1) % (pow3(242) as int) == 0,
        k < 242,
    ensures
        1 - digit(x, k) == digit((s + half()) % (pow3(242) as int), k) - 1,
{
    let m = pow3(242) as int;
    lemma_pow3_pos(242);
    let xm = x % m;
    vstd::arithmetic::div_mod::lemma_fundamental_div_mod(x, m);
    vstd::arithmetic::div_mod::lemma_mod_pos_bound(x, m);
    vstd::arithmetic::div_mod::lemma_fundamental_div_mod(x + s + half() + 1, m);
    let q = (x + s + half() + 1) / m;
    let a = s + half();
    assert(a == m * (q - x / m - 1) + (m - 1 - xm)) by (nonlinear_arith)
        requires
            x + a + 1 == m * q,
            x == m * (x / m) + xm,
    ;
    assert(a == (q - x / m - 1) * m + (m - 1 - xm)) by (nonlinear_arith)
        requires a == m * (q - x / m - 1) + (m - 1 - xm);
    vstd::arithmetic::div_mod::lemma_fundamental_div_mod_converse(a, m, q - x / m - 1, m - 1 - xm);
    lemma_digit_complement(xm, k, 242);
    lemma_digit_mod(x, k, 242);
}

proof fn lemma_pow3_mono(a: nat, b: nat)
    requires
        a <= b,
    ensures
        pow3(a) <= pow3(b),
    decreases b,
{
    if a < b {
        lemma_pow3_mono(a, (b - 1) as nat);
    }
}

/// Valid trits from `k` on give `0 <= biased(t, k) < 3^(242 - k)`.
proof fn lemma_biased_bound(t: Seq<Trit>, k: int)
    requires
        t.len() == 243,
        valid_trits(t),
        0 <= k <= 242,
    ensures
        0 <= biased(t, k) < pow3((242 - k) as nat),
    decreases 242 - k,
{
    if k < 242 {
        lemma_biased_bound(t, k + 1);
        assert(-1 <= t[k] <= 1);
    }
}

/// `biased(t, k)` is zero exactly when every trit from `k` on is -1.
proof fn lemma_biased_zero(t: Seq<Trit>, k: int)
    requires
        t.len() == 243,
        valid_trits(t),
        0 <= k <= 242,
    ensures
        biased(t, k) == 0 <==> (forall|i: int| k <= i < 242 ==> t[i] == -1),
    decreases 242 - k,
{
    if k < 242 {
        lemma_biased_zero(t, k + 1);
        lemma_biased_bound(t, k + 1);
        assert(-1 <= t[k] <= 1);
        if biased(t, k) == 0 {
            assert forall|i: int| k <= i < 242 implies t[i] == -1 by {
                if i > k {
                    assert(k + 1 <= i < 242);
                }
            }
        }
    }
}

/// All limbs zero means value zero.
proof fn lemma_value_zero(s: Seq<u32>)
    requires
        forall|j: int| 0 <= j < s.len() ==> s[j] == 0,
    ensures
        value(s) == 0,
    decreases s.len(),
{
    if s.len() > 0 {
        lemma_value_zero(s.drop_last());
    }
}

/// A value of zero means every limb is zero.
proof fn lemma_value_zero_limbs(s: Seq<u32>)
    requires
        value(s) == 0,
    ensures
        forall|j: int| 0 <= j < s.len() ==> s[j] == 0,
    decreases s.len(),
{
    if s.len() > 0 {
        let n = (s.len() - 1) as int;
        vstd::arithmetic::power2::lemma_pow2_pos((32 * n) as nat);
        let p = pow2((32 * n) as nat);
        assert(s.last() as nat * p == 0);
        assert(s.last() == 0) by (nonlinear_arith)
            requires s.last() as nat * p == 0, p > 0;
        lemma_value_zero_limbs(s.drop_last());
        assert forall|j: int| 0 <= j < s.len() implies s[j] == 0 by {
            if j < n {
                assert(s[j] == s.drop_last()[j]);
            }
        }
    }
}

/// `HALF_3` lies strictly between 0 and `2^383`.
proof fn lemma_half_range()
    ensures
        0 < half() < modulus() - 1,
        half() < pow2(383),
{
    lemma_half_literal();
    lemma_pow2_384();
    lemma_pow2_adds(383, 1);
    vstd::arithmetic::power2::lemma2_to64();
}

/// The 48 bytes whose big-endian value is `encoded_value(t)`.
pub open spec fn encoded_bytes(t: Seq<Trit>) -> Seq<u8> {
    choose|b: Seq<u8>| b.len() == 48 && value(be_limbs(b)) == encoded_value(t)
}

/// Limbs of equal length and equal value are equal.
proof fn lemma_value_injective(s: Seq<u32>, t: Seq<u32>)
    requires
        s.len() == t.len(),
        value(s) == value(t),
    ensures
        s == t,
    decreases s.len(),
{
    if s.len() > 0 {
        let n = (s.len() - 1) as int;
        let p = pow2((32 * n) as nat);
        vstd::arithmetic::power2::lemma_pow2_pos((32 * n) as nat);
        lemma_value_bound(s.drop_last());
        lemma_value_bound(t.drop_last());
        vstd::arithmetic::div_mod::lemma_fundamental_div_mod_converse(
            value(s) as int, p as int, s.last() as int, value(s.drop_last()) as int);
        vstd::arithmetic::div_mod::lemma_fundamental_div_mod_converse(
            value(t) as int, p as int, t.last() as int, value(t.drop_last()) as int);
        lemma_value_injective(s.drop_last(), t.drop_last());
        assert(s =~= s.drop_last().push(s.last()));
        assert(t =~= t.drop_last().push(t.last()));
    } else {
        assert(s =~= t);
    }
}

proof fn lemma_limb_bytes(a0: u8, a1: u8, a2: u8, a3: u8, b0: u8, b1: u8, b2: u8, b3: u8)
    requires
        (a0 as u32) | ((a1 as u32) << 8) | ((a2 as u32) << 16) | ((a3 as u32) << 24) == (b0 as u32)
            | ((b1 as u32) << 8) | ((b2 as u32) << 16) | ((b3 as u32) << 24),
    ensures
        a0 == b0 && a1 == b1 && a2 == b2 && a3 == b3,
{
    assert(a0 == b0 && a1 == b1 && a2 == b2 && a3 == b3) by (bit_vector)
        requires
            (a0 as u32) | ((a1 as u32) << 8) | ((a2 as u32) << 16) | ((a3 as u32) << 24) == (
            b0 as u32) | ((b1 as u32) << 8) | ((b2 as u32) << 16) | ((b3 as u32) << 24),
    ;
}

/// 48 bytes are determined by the limbs read from them.
proof fn lemma_be_limbs_injective(a: Seq<u8>, b: Seq<u8>)
    requires
        a.len() == 48,
        b.len() == 48,
        be_limbs(a) == be_limbs(b),
    ensures
        a == b,
{
    assert forall|i: int| 0 <= i < 48 implies a[i] == b[i] by {
        let j = (47 - i) / 4;
        assert(0 <= j < 12);
        assert(i == 47 - 4 * j || i == 46 - 4 * j || i == 45 - 4 * j || i == 44 - 4 * j);
        assert(be_limbs(a)[j] == be_limbs(b)[j]);
        assert(be_limbs(a)[j] == (a[47 - 4 * j] as u32) | ((a[46 - 4 * j] as u32) << 8) | ((a[45
            - 4 * j] as u32) << 16) | ((a[44 - 4 * j] as u32) << 24));
        assert(be_limbs(b)[j] == (b[47 - 4 * j] as u32) | ((b[46 - 4 * j] as u32) << 8) | ((b[45
            - 4 * j] as u32) << 16) | ((b[44 - 4 * j] as u32) << 24));
        lemma_limb_bytes(
            a[47 - 4 * j], a[46 - 4 * j], a[45 - 4 * j], a[44 - 4 * j],
            b[47 - 4 * j], b[46 - 4 * j], b[45 - 4 * j], b[44 - 4 * j],
        );
    }
    assert(a =~= b);
}

/// Writes limbs `l` into `bytes` most significant byte first.
fn store_be(l: &[u32; INT_LENGTH], bytes: &mut [u8; BYTE_LENGTH])
    ensures
        be_limbs(final(bytes)@) == l@,
{
    let mut j: usize = 0;
    while j < INT_LENGTH
        invariant
            j <= 12,
            forall|k: int| 0 <= k < j ==> #[trigger] be_limbs(bytes@)[k] == l@[k],
        decreases 12 - j,
    {
        let x = l[j];
        let ghost before = bytes@;
        bytes[47 - 4 * j] = (x & 0xff) as u8;
        bytes[46 - 4 * j] = ((x >> 8) & 0xff) as u8;
        bytes[45 - 4 * j] = ((x >> 16) & 0xff) as u8;
        bytes[44 - 4 * j] = ((x >> 24) & 0xff) as u8;
        proof {
            assert(((x & 0xff) as u8 as u32) | ((((x >> 8) & 0xff) as u8 as u32) << 8) | ((((x >> 16)
                & 0xff) as u8 as u32) << 16) | ((((x >> 24) & 0xff) as u8 as u32) << 24) == x)
                by (bit_vector);
            assert forall|k: int| 0 <= k < j + 1 implies #[trigger] be_limbs(bytes@)[k] == l@[k] by {
                if k < j {
                    assert(be_limbs(bytes@)[k] == be_limbs(before)[k]);
                }
            }
        }
        j += 1;
    }
    assert(be_limbs(bytes@) =~= l@);
}

/// Encodes a chunk of 243 trits (the last is ignored) as 48 big-endian
/// bytes of `sum t[i] * 3^i`, computed as `biased(t, 0) - HALF_3`.
pub fn trits_to_bytes(trits: &[Trit; TRIT_LENGTH], bytes: &mut [u8; BYTE_LENGTH])
    requires
        trits@.len() == TRIT_LENGTH,
        valid_trits(trits@),
    ensures
        value(be_limbs(final(bytes)@)) == encoded_value(trits@),
        final(bytes)@ == encoded_bytes(trits@),
        (forall|i: int| 0 <= i < 242 ==> trits@[i] == -1) ==> value(be_limbs(final(bytes)@))
            == modulus() - half(),
{
    let mut base: [u32; INT_LENGTH] = [0; INT_LENGTH];
    let ghost t = trits@;
    proof {
        lemma_half_range();
        lemma_pow3_242();
        lemma_biased_zero(t, 0);
        lemma_biased_bound(t, 0);
    }
    let mut all_minus_1 = true;
    let mut k: usize = 0;
    while all_minus_1 && k < TRIT_LENGTH - 1
        invariant
            k <= 242,
            t == trits@,
            t.len() == 243,
            forall|i: int| 0 <= i < k ==> t[i] == -1,
            !all_minus_1 ==> k < 242 && t[k as int] != -1,
        decreases 242 - k + if all_minus_1 { 1int } else { 0int },
    {
        if trits[k] != -1 {
            all_minus_1 = false;
        } else {
            k += 1;
        }
    }
    if all_minus_1 {
        base = HALF_3;
        bigint_not(&mut base);
        bigint_add_small(&mut base, 1);
        proof {
            vstd::arithmetic::div_mod::lemma_small_mod((modulus() - half()) as nat, modulus());
        }
    } else {
        proof {
            lemma_value_zero(base@);
        }
        let mut i: usize = TRIT_LENGTH - 1;
        while i > 0
            invariant
                i <= 242,
                t == trits@,
                t.len() == 243,
                valid_trits(t),
                value(base@) == biased(t, i as int),
                pow3(242) < modulus(),
            decreases i,
        {
            i -= 1;
            proof {
                lemma_biased_bound(t, i + 1 as int);
                lemma_pow3_mono((241 - i) as nat, 241);
                assert(-1 <= t[i as int] <= 1);
            }
            bigint_mul_small(&mut base, 3);
            let d = (trits[i] + 1) as u32;
            bigint_add_small(&mut base, d);
        }
        if !is_null(&base) {
            if bigint_cmp(&HALF_3, &base) <= 0 {
                bigint_sub(&mut base, &HALF_3);
                proof {
                    vstd::arithmetic::div_mod::lemma_mod_add_multiples_vanish(
                        biased(t, 0) - half(),
                        modulus() as int,
                    );
                    vstd::arithmetic::div_mod::lemma_small_mod((biased(t, 0) - half()) as nat, modulus());
                }
            } else {
                let mut tmp = HALF_3;
                bigint_sub(&mut tmp, &base);
                bigint_not(&mut tmp);
                bigint_add_small(&mut tmp, 1);
                base = tmp;
                proof {
                    vstd::arithmetic::div_mod::lemma_small_mod(
                        (biased(t, 0) + modulus() - half()) as nat,
                        modulus(),
                    );
                }
            }
        } else {
            proof {
                lemma_value_zero(base@);
            }
        }
    }
    store_be(&base, bytes);
    proof {
        let b = encoded_bytes(t);
        assert(bytes@.len() == 48 && value(be_limbs(bytes@)) == encoded_value(t));
        lemma_value_injective(be_limbs(b), be_limbs(bytes@));
        lemma_be_limbs_injective(b, bytes@);
    }
}

/// Digit `i` of `x` in base 3.
pub open spec fn digit(x: int, i: nat) -> int {
    (x / pow3(i) as int) % 3
}

/// The 384-bit two's-complement value of `b`, read big-endian.
pub open spec fn signed_value(b: Seq<u8>) -> int {
    let v = value(be_limbs(b));
    if v < pow2(383) {
        v as int
    } else {
        v - modulus()
    }
}

/// Trit `i` of the decoding of `b`: the balanced ternary digit of the signed
/// value of `b`, taken modulo `3^242` into the range centred on zero.
pub open spec fn decoded_trit(b: Seq<u8>, i: int) -> int {
    digit((signed_value(b) + half()) % (pow3(242) as int), i as nat) - 1
}

/// The 243 trits that 48 bytes decode to.
pub open spec fn decoded(b: Seq<u8>) -> Seq<Trit> {
    Seq::new(243, |i: int| if i < 242 { decoded_trit(b, i) as Trit } else { 0 })
}

/// The digits of `biased(t, 0)` are the trits of `t` shifted up by one.
proof fn lemma_biased_digits(t: Seq<Trit>, i: nat)
    requires
        t.len() == 243,
        valid_trits(t),
        i <= 242,
    ensures
        biased(t, 0) / (pow3(i) as int) == biased(t, i as int),
        i < 242 ==> digit(biased(t, 0), i) == t[i as int] + 1,
    decreases i,
{
    lemma_biased_bound(t, 0);
    if i > 0 {
        let j = (i - 1) as nat;
        lemma_biased_digits(t, j);
        lemma_pow3_pos(j);
        lemma_biased_bound(t, i as int);
        assert(-1 <= t[j as int] <= 1);
        vstd::arithmetic::div_mod::lemma_div_denominator(biased(t, 0), pow3(j) as int, 3);
        assert(pow3(i) == pow3(j) * 3);
        vstd::arithmetic::div_mod::lemma_fundamental_div_mod_converse(
            biased(t, j as int), 3, biased(t, i as int), t[j as int] + 1);
    } else {
        assert(pow3(0) == 1);
        assert(biased(t, 0) / 1 == biased(t, 0));
    }
    if i < 242 {
        lemma_biased_bound(t, i + 1 as int);
        assert(-1 <= t[i as int] <= 1);
        vstd::arithmetic::div_mod::lemma_fundamental_div_mod_converse(
            biased(t, i as int), 3, biased(t, i as int + 1), t[i as int] + 1);
    }
}

/// For all-zero trits, `2 * biased(z, k) + 1 == 3^(242 - k)`.
proof fn lemma_biased_zeros(z: Seq<Trit>, k: int)
    requires
        z.len() == 243,
        forall|i: int| 0 <= i < 243 ==> z[i] == 0,
        0 <= k <= 242,
    ensures
        2 * biased(z, k) + 1 == pow3((242 - k) as nat),
    decreases 242 - k,
{
    if k < 242 {
        lemma_biased_zeros(z, k + 1);
        assert(pow3((242 - k) as nat) == 3 * pow3((242 - k - 1) as nat));
    }
}

/// Every digit of `HALF_3` below position 242 is 1.
proof fn lemma_half_digits(i: nat)
    requires
        i < 242,
    ensures
        digit(half() as int, i) == 1,
{
    let z = Seq::new(243, |j: int| 0 as Trit);
    lemma_biased_zeros(z, 0);
    lemma_half_value();
    lemma_biased_digits(z, i);
}

/// Trits taken from the digits of `x < 3^242` rebuild `x`.
proof fn lemma_digits_rebuild(x: int, t: Seq<Trit>, k: int)
    requires
        0 <= x < pow3(242),
        t.len() == 243,
        forall|i: int| 0 <= i < 242 ==> t[i] == digit(x, i as nat) - 1,
        0 <= k <= 242,
    ensures
        biased(t, k) == x / (pow3(k as nat) as int),
    decreases 242 - k,
{
    lemma_pow3_pos(k as nat);
    if k == 242 {
        vstd::arithmetic::div_mod::lemma_basic_div(x, pow3(242) as int);
    } else {
        lemma_digits_rebuild(x, t, k + 1);
        let q = x / (pow3(k as nat) as int);
        vstd::arithmetic::div_mod::lemma_div_pos_is_pos(x, pow3(k as nat) as int);
        vstd::arithmetic::div_mod::lemma_div_denominator(x, pow3(k as nat) as int, 3);
        assert(pow3((k + 1) as nat) == pow3(k as nat) * 3);
        vstd::arithmetic::div_mod::lemma_fundamental_div_mod(q, 3);
    }
}

/// Decoding bytes that hold the encoding of `t` gives back the first 242
/// trits of `t`.
pub proof fn lemma_decode_encode(t: Seq<Trit>, b: Seq<u8>)
    requires
        t.len() == 243,
        valid_trits(t),
        b.len() == 48,
        value(be_limbs(b)) == encoded_value(t),
    ensures
        forall|i: int| 0 <= i < 242 ==> #[trigger] decoded(b)[i] == t[i],
{
    let bt = biased(t, 0);
    let h = half() as int;
    let m = modulus() as int;
    lemma_biased_bound(t, 0);
    lemma_half_value();
    lemma_half_range();
    lemma_pow2_384();
    lemma_pow2_adds(383, 1);
    vstd::arithmetic::power2::lemma2_to64();
    if bt >= h {
        vstd::arithmetic::div_mod::lemma_mod_add_multiples_vanish(bt - h, m);
        vstd::arithmetic::div_mod::lemma_small_mod((bt - h) as nat, m as nat);
    } else {
        vstd::arithmetic::div_mod::lemma_small_mod((bt + m - h) as nat, m as nat);
    }
    assert(signed_value(b) == bt - h);
    vstd::arithmetic::div_mod::lemma_small_mod(bt as nat, pow3(242));
    assert forall|i: int| 0 <= i < 242 implies #[trigger] decoded(b)[i] == t[i] by {
        lemma_biased_digits(t, i as nat);
    }
}

/// Encoding the trits that bytes decode to gives the bytes back, when their
/// signed value lies in `[-HALF_3, HALF_3]`.
pub proof fn lemma_encode_decode(b: Seq<u8>)
    requires
        b.len() == 48,
        -half() <= signed_value(b) <= half(),
    ensures
        valid_trits(decoded(b)),
        encoded_value(decoded(b)) == value(be_limbs(b)),
        encoded_bytes(decoded(b)) == b,
{
    let h = half() as int;
    let m = modulus() as int;
    let sv = signed_value(b);
    let x = sv + h;
    let t = decoded(b);
    lemma_half_value();
    lemma_half_range();
    lemma_pow3_pos(242);
    lemma_pow2_384();
    lemma_pow2_adds(383, 1);
    vstd::arithmetic::power2::lemma2_to64();
    vstd::arithmetic::div_mod::lemma_small_mod(x as nat, pow3(242));
    assert forall|i: int| 0 <= i < 242 implies t[i] == digit(x, i as nat) - 1 && -1 <= #[trigger] t[i] <= 1 by {
        lemma_pow3_pos(i as nat);
        vstd::arithmetic::div_mod::lemma_mod_pos_bound(x / (pow3(i as nat) as int), 3);
    }
    assert(valid_trits(t));
    lemma_digits_rebuild(x, t, 0);
    assert(pow3(0) == 1);
    assert(x / 1 == x);
    assert(biased(t, 0) == x);
    let v = value(be_limbs(b));
    if v < pow2(383) {
        vstd::arithmetic::div_mod::lemma_mod_add_multiples_vanish(v as int, m);
        vstd::arithmetic::div_mod::lemma_small_mod(v, m as nat);
    } else {
        lemma_value_bound(be_limbs(b));
        vstd::arithmetic::div_mod::lemma_small_mod(v, m as nat);
    }
    let e = encoded_bytes(t);
    assert(b.len() == 48 && value(be_limbs(b)) == encoded_value(t));
    lemma_value_injective(be_limbs(e), be_limbs(b));
    lemma_be_limbs_injective(e, b);
}

proof fn lemma_pow3_pos(n: nat)
    ensures
        pow3(n) > 0,
    decreases n,
{
    if n > 0 {
        lemma_pow3_pos((n - 1) as nat);
    }
}

/// `3^n = 3^i * 3 * 3^(n - i - 1)` for `i < n`.
proof fn lemma_pow3_split(i: nat, n: nat)
    requires
        i < n,
    ensures
        pow3(n) == pow3(i) * (3 * pow3((n - i - 1) as nat)),
{
    lemma_pow3_adds(i, (n - i) as nat);
    assert(pow3((n - i) as nat) == 3 * pow3((n - i - 1) as nat));
}

/// The digits of `x` below position `n` are those of `x mod 3^n`.
proof fn lemma_digit_mod(x: int, i: nat, n: nat)
    requires
        0 <= x,
        i < n,
    ensures
        digit(x, i) == digit(x % (pow3(n) as int), i),
{
    let p = pow3(i) as int;
    let r = pow3((n - i - 1) as nat) as int;
    lemma_pow3_pos(i);
    lemma_pow3_pos((n - i - 1) as nat);
    lemma_pow3_split(i, n);
    assert(pow3(n) as int == p * (3 * r));
    vstd::arithmetic::div_mod::lemma_mod_breakdown(x, p, 3 * r);
    let a = (x / p) % (3 * r);
    let y = x % (p * (3 * r));
    vstd::arithmetic::div_mod::lemma_mod_pos_bound(x, p);
    vstd::arithmetic::div_mod::lemma_fundamental_div_mod_converse(y, p, a, x % p);
    vstd::arithmetic::div_mod::lemma_mod_mod(x / p, 3, r);
}

/// Below position `n`, the digits of `3^n - 1 - x` are 2 minus those of `x`.
proof fn lemma_digit_complement(x: int, i: nat, n: nat)
    requires
        0 <= x < pow3(n),
        i < n,
    ensures
        digit(pow3(n) - 1 - x, i) == 2 - digit(x, i),
{
    let p = pow3(i) as int;
    let r = pow3((n - i - 1) as nat) as int;
    lemma_pow3_pos(i);
    lemma_pow3_split(i, n);
    let a = x / p;
    let m = x % p;
    vstd::arithmetic::div_mod::lemma_fundamental_div_mod(x, p);
    vstd::arithmetic::div_mod::lemma_mod_pos_bound(x, p);
    let y = pow3(n) - 1 - x;
    assert(y == p * (3 * r - 1 - a) + (p - 1 - m)) by (nonlinear_arith)
        requires
            y == pow3(n) - 1 - x,
            pow3(n) == p * (3 * r),
            x == p * a + m,
    ;
    assert(y == (3 * r - 1 - a) * p + (p - 1 - m)) by (nonlinear_arith)
        requires y == p * (3 * r - 1 - a) + (p - 1 - m);
    vstd::arithmetic::div_mod::lemma_fundamental_div_mod_converse(y, p, 3 * r - 1 - a, p - 1 - m);
    vstd::arithmetic::div_mod::lemma_mod_multiples_vanish(r, -1 - a, 3);
    let t = a % 3;
    vstd::arithmetic::div_mod::lemma_fundamental_div_mod(a, 3);
    vstd::arithmetic::div_mod::lemma_fundamental_div_mod_converse(-1 - a, 3, -(a / 3) - 1, 2 - t);
}

/// Reverses `bytes` in place.
fn reverse_bytes(bytes: &mut [u8; BYTE_LENGTH])
    ensures
        final(bytes)@ == reversed(old(bytes)@),
{
    let ghost b0 = bytes@;
    let mut i: usize = 0;
    while i < 24
        invariant
            i <= 24,
            b0 == old(bytes)@,
            forall|k: int| 0 <= k < i ==> #[trigger] bytes@[k] == b0[47 - k],
            forall|k: int| 48 - i <= k < 48 ==> #[trigger] bytes@[k] == b0[47 - k],
            forall|k: int| i <= k < 48 - i ==> #[trigger] bytes@[k] == b0[k],
        decreases 24 - i,
    {
        let x = bytes[i];
        bytes[i] = bytes[47 - i];
        bytes[47 - i] = x;
        i += 1;
    }
    assert(bytes@ =~= reversed(b0));
}

/// Decodes 48 big-endian bytes into 243 trits, the last of them 0. The
/// bytes are reversed in place, leaving them least significant first.
pub fn bytes_to_trits(bytes: &mut [u8; BYTE_LENGTH], trits: &mut [Trit; TRIT_LENGTH])
    ensures
        final(bytes)@ == reversed(old(bytes)@),
        valid_trits(final(trits)@),
        final(trits)@[242] == 0,
        value(be_limbs(old(bytes)@)) == 0 ==> final(trits)@ == seq![0i8; 243],
        final(trits)@ == decoded(old(bytes)@),
{
    let ghost b0 = bytes@;
    trits[TRIT_LENGTH - 1] = 0;
    reverse_bytes(bytes);
    let mut base: [u32; INT_LENGTH] = [0; INT_LENGTH];
    let mut j: usize = 0;
    while j < INT_LENGTH
        invariant
            j <= 12,
            bytes@ == reversed(b0),
            b0.len() == 48,
            forall|k: int| 0 <= k < j ==> #[trigger] base@[k] == be_limbs(b0)[k],
        decreases 12 - j,
    {
        assert(bytes@[4 * j as int] == b0[47 - 4 * j as int]);
        assert(bytes@[4 * j + 1] == b0[46 - 4 * j as int]);
        assert(bytes@[4 * j + 2] == b0[45 - 4 * j as int]);
        assert(bytes@[4 * j + 3] == b0[44 - 4 * j as int]);
        base[j] = (bytes[4 * j] as u32) | ((bytes[4 * j + 1] as u32) << 8) | ((bytes[4 * j + 2]
            as u32) << 16) | ((bytes[4 * j + 3] as u32) << 24);
        j += 1;
    }
    assert(base@ =~= be_limbs(b0));
    if is_null(&base) {
        proof {
            lemma_value_zero(base@);
        }
        let mut i: usize = 0;
        while i < TRIT_LENGTH
            invariant
                i <= 243,
                forall|k: int| 0 <= k < i ==> trits@[k] == 0,
            decreases 243 - i,
        {
            trits[i] = 0;
            i += 1;
        }
        assert(trits@ =~= seq![0i8; 243]);
        proof {
            lemma_half_value();
            lemma_half_range();
            lemma_pow3_pos(242);
            vstd::arithmetic::div_mod::lemma_small_mod(half(), pow3(242));
            assert(signed_value(b0) == 0);
            assert forall|k: int| 0 <= k < 242 implies decoded_trit(b0, k) == 0 by {
                lemma_half_digits(k as nat);
            }
            assert(trits@ =~= decoded(b0));
        }
        return;
    }
    proof {
        lemma_half_range();
        if value(be_limbs(b0)) == 0 {
            lemma_value_zero_limbs(base@);
        }
    }
    let ghost v = value(base@);
    let ghost sv = signed_value(b0);
    let ghost m3 = pow3(242) as int;
    let ghost start: int;
    let mut flip_trits = false;
    proof {
        lemma_half_range();
    }
    let top = base[INT_LENGTH - 1];
    proof {
        lemma_top_bit(base@);
        lemma_pow2_adds(383, 1);
        vstd::arithmetic::power2::lemma2_to64();
        assert((top >> 31 == 0) == (top < 0x8000_0000)) by (bit_vector);
        lemma_pow3_242_above();
    }
    if top >> 31 == 0 {
        bigint_add(&mut base, &HALF_3);
        proof {
            vstd::arithmetic::div_mod::lemma_small_mod(v + half(), modulus());
            start = (v + half()) as int;
            assert(sv == v);
            assert(start == sv + half());
        }
    } else {
        bigint_not(&mut base);
        let ghost w = value(base@);
        if bigint_cmp(&base, &HALF_3) > 0 {
            bigint_sub(&mut base, &HALF_3);
            flip_trits = true;
            proof {
                start = w - half() as int;
                assert(w == modulus() - 1 - v);
                assert(sv == v - modulus());
                assert(start + sv + half() + 1 == 0);
            }
        } else {
            bigint_add_small(&mut base, 1);
            if bigint_cmp(&HALF_3, &base) >= 0 {
                let mut tmp = HALF_3;
                bigint_sub(&mut tmp, &base);
                base = tmp;
                proof {
                    start = half() - w - 1;
                    assert(sv == v - modulus());
                    assert(start == sv + half());
                }
            } else {
                // Only -HALF_3 - 1 gets here; it is congruent to HALF_3
                // modulo 3^242, whose digits a zero base yields once flipped.
                base = [0; INT_LENGTH];
                flip_trits = true;
                proof {
                    lemma_value_zero(base@);
                    start = 0;
                    assert(w == half());
                    assert(sv == v - modulus());
                    assert(start + sv + half() + 1 == 0);
                }
            }
        }
    }
    proof {
        lemma_pow3_pos(242);
        assert forall|k: nat| k < 242 implies (if flip_trits {
            1 - digit(start, k)
        } else {
            digit(start, k) - 1
        }) == decoded_trit(b0, k as int) by {
            if flip_trits {
                assert(start + sv + half() + 1 == 0);
                assert(0int % m3 == 0);
                lemma_trit_flipped(start, sv, k);
            } else {
                lemma_trit_direct(start, sv, k);
            }
        }
    }
    let mut i: usize = 0;
    proof {
        assert(pow3(0) == 1);
        assert(start / 1 == start);
    }
    while i < TRIT_LENGTH - 1
        invariant
            i <= 242,
            trits@[242] == 0,
            start >= 0,
            value(base@) == start / pow3(i as nat) as int,
            forall|k: int| 0 <= k < i ==> -1 <= #[trigger] trits@[k] <= 1,
            forall|k: int| 0 <= k < i ==> #[trigger] trits@[k] == digit(start, k as nat) - 1,
        decreases 242 - i,
    {
        let rem = bigint_div_radix(&mut base);
        proof {
            lemma_pow3_pos(i as nat);
            vstd::arithmetic::div_mod::lemma_div_denominator(start, pow3(i as nat) as int, 3);
            assert(pow3((i + 1) as nat) == pow3(i as nat) * 3);
            vstd::arithmetic::div_mod::lemma_div_pos_is_pos(start, pow3(i as nat) as int);
        }
        trits[i] = rem as i8 - 1;
        i += 1;
    }
    if flip_trits {
        let mut k: usize = 0;
        let ghost before = trits@;
        while k < TRIT_LENGTH
            invariant
                k <= 243,
                before.len() == 243,
                trits@.len() == 243,
                trits@[242] == 0,
                forall|m: int| 0 <= m < 243 ==> -1 <= #[trigger] trits@[m] <= 1,
                forall|m: int| 0 <= m < k ==> #[trigger] trits@[m] == -before[m],
                forall|m: int| k <= m < 243 ==> #[trigger] trits@[m] == before[m],
            decreases 243 - k,
        {
            trits[k] = -trits[k];
            k += 1;
        }
    }
    assert(trits@ =~= decoded(b0));
}

} // verus!
