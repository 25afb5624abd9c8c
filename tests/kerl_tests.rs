use kerl::bigint::{
    bigint_add, bigint_add_small, bigint_cmp, bigint_mul_small, bigint_not, bigint_sub,
    full_add, is_null,
};
use kerl::codec::{bytes_to_trits, trits_to_bytes};
use kerl::constants::HALF_3;
use kerl::keccak::{keccak384, keccakf, Keccak};
use kerl::kerl::Kerl;

const NEG_HALF_3_BE: [u8; 48] = [
    0xa1, 0x96, 0x14, 0x10, 0x57, 0x80, 0x54, 0x20, 0x55, 0xf9, 0x57, 0xfa, 0x56, 0x09, 0x7f,
    0x74, 0xb7, 0x44, 0x51, 0xc9, 0x86, 0x5b, 0x38, 0xfd, 0xaf, 0x68, 0x62, 0xa8, 0xf3, 0xdb,
    0xb7, 0x91, 0xc5, 0x21, 0xff, 0x26, 0xeb, 0x7b, 0xaf, 0xb0, 0x60, 0xff, 0x89, 0x96, 0x5a,
    0x31, 0x76, 0x9c,
];

const HALF_3_BE: [u8; 48] = [
    0x5e, 0x69, 0xeb, 0xef, 0xa8, 0x7f, 0xab, 0xdf, 0xaa, 0x06, 0xa8, 0x05, 0xa9, 0xf6, 0x80,
    0x8b, 0x48, 0xbb, 0xae, 0x36, 0x79, 0xa4, 0xc7, 0x02, 0x50, 0x97, 0x9d, 0x57, 0x0c, 0x24,
    0x48, 0x6e, 0x3a, 0xde, 0x00, 0xd9, 0x14, 0x84, 0x50, 0x4f, 0x9f, 0x00, 0x76, 0x69, 0xa5,
    0xce, 0x89, 0x64,
];

/// A small linear congruential generator for reproducible trit vectors.
struct Lcg(u64);

impl Lcg {
    fn next(&mut self) -> u64 {
        self.0 = self.0.wrapping_mul(6364136223846793005).wrapping_add(1442695040888963407);
        self.0 >> 33
    }

    fn trits(&mut self, n: usize) -> Vec<i8> {
        let mut v: Vec<i8> = (0..n).map(|_| (self.next() % 3) as i8 - 1).collect();
        for c in 0..n / 243 {
            v[243 * c + 242] = 0;
        }
        v
    }
}

fn chunk(v: &[i8]) -> [i8; 243] {
    let mut a = [0i8; 243];
    a.copy_from_slice(v);
    a
}

fn squeeze_n(k: &mut Kerl, n: usize) -> Vec<i8> {
    let mut out = vec![0i8; n];
    k.squeeze(&mut out);
    out
}

#[test]
fn keccakf_zero_state_reference() {
    let mut a = [0u64; 25];
    keccakf(&mut a);
    assert_eq!(a[0], 0xF1258F7940E1DDE7);
}

#[test]
fn keccakf_changes_every_call() {
    let mut a = [0u64; 25];
    keccakf(&mut a);
    let first = a;
    keccakf(&mut a);
    assert_ne!(a, first);
}

#[test]
fn keccak384_empty_digest() {
    let k = Keccak::new_keccak384();
    let mut out = [0u8; 48];
    k.finalize(&mut out);
    let expected: [u8; 48] = [
        0x2c, 0x23, 0x14, 0x6a, 0x63, 0xa2, 0x9a, 0xcf, 0x99, 0xe7, 0x3b, 0x88, 0xf8, 0xc2,
        0x4e, 0xaa, 0x7d, 0xc6, 0x0a, 0xa7, 0x71, 0x78, 0x0c, 0xcc, 0x00, 0x6a, 0xfb, 0xfa,
        0x8f, 0xe2, 0x47, 0x9b, 0x2d, 0xd2, 0xb2, 0x13, 0x62, 0x33, 0x74, 0x41, 0xac, 0x12,
        0xb5, 0x15, 0x91, 0x19, 0x57, 0xff,
    ];
    assert_eq!(out, expected);
}

#[test]
fn keccak384_one_shot_matches_sponge() {
    let expected = {
        let mut out = [0u8; 48];
        Keccak::keccak384(b"", &mut out);
        out
    };
    assert_eq!(keccak384(b""), expected);
    assert_eq!(expected[0], 0x2c);
    assert_eq!(expected[47], 0xff);
    assert_ne!(keccak384(b"a"), expected);
}

#[test]
fn sponge_rate_boundary_state() {
    let data: Vec<u8> = (0..105u32).map(|i| (i * 13 + 1) as u8).collect();
    let mut one = Keccak::new_keccak384();
    one.absorb(&data);
    let mut two = Keccak::new_keccak384();
    two.absorb(&data[..104]);
    two.absorb(&data[104..]);
    assert_eq!(one.a_bytes(), two.a_bytes());
    assert_ne!(one.a_bytes(), Keccak::new_keccak384().a_bytes());
}

#[test]
fn sponge_absorb_writes_bytes_little_endian() {
    let mut k = Keccak::new(136, 0x06);
    k.absorb(&[0x11, 0x22, 0x33]);
    let bytes = k.a_bytes();
    assert_eq!(&bytes[..4], &[0x11, 0x22, 0x33, 0x00]);
    k.keccakf();
    assert_ne!(&k.a_bytes()[..3], &[0x11, 0x22, 0x33]);
}

#[test]
fn sponge_rate_boundary() {
    let data: Vec<u8> = (0..105u32).map(|i| (i * 7 + 3) as u8).collect();
    let mut one = Keccak::new_keccak384();
    one.absorb(&data);
    let mut two = Keccak::new_keccak384();
    two.absorb(&data[..104]);
    two.update(&data[104..]);
    let mut a = [0u8; 48];
    let mut b = [0u8; 48];
    one.finalize(&mut a);
    two.finalize(&mut b);
    assert_eq!(a, b);
}

#[test]
fn sponge_squeeze_longer_than_rate() {
    let mut k = Keccak::new_keccak384();
    k.absorb(b"abc");
    k.pad();
    k.fill_block();
    let mut short = [0u8; 48];
    let mut long = [0u8; 300];
    let mut k2 = k;
    k.squeeze(&mut short);
    k2.squeeze(&mut long);
    assert_eq!(&long[..48], &short[..]);
    assert_ne!(&long[104..152], &long[..48]);
}

#[test]
fn sponge_pad_same_byte() {
    let mut k = Keccak::new(8, 0x01);
    k.absorb(&[0u8; 7]);
    k.pad();
    let mut out = [0u8; 8];
    k.squeeze(&mut out);
    assert_eq!(out[7], 0x81);
}

#[test]
fn encode_all_minus_one() {
    let mut t = [-1i8; 243];
    t[242] = 0;
    let mut bytes = [0u8; 48];
    trits_to_bytes(&t, &mut bytes);
    assert_eq!(bytes, NEG_HALF_3_BE);
}

#[test]
fn encode_all_plus_one() {
    let mut t = [1i8; 243];
    t[242] = 0;
    let mut bytes = [0u8; 48];
    trits_to_bytes(&t, &mut bytes);
    assert_eq!(bytes, HALF_3_BE);
}

#[test]
fn encode_small_values() {
    let mut t = [0i8; 243];
    let mut bytes = [0u8; 48];
    trits_to_bytes(&t, &mut bytes);
    assert_eq!(bytes, [0u8; 48]);
    t[0] = 1;
    t[1] = 1;
    trits_to_bytes(&t, &mut bytes);
    let mut expected = [0u8; 48];
    expected[47] = 4;
    assert_eq!(bytes, expected);
    t[0] = -1;
    t[1] = 0;
    trits_to_bytes(&t, &mut bytes);
    assert_eq!(bytes, [0xffu8; 48]);
}

#[test]
fn decode_zero_bytes() {
    let mut bytes = [0u8; 48];
    let mut t = [5i8; 243];
    bytes_to_trits(&mut bytes, &mut t);
    assert_eq!(t, [0i8; 243]);
}

#[test]
fn decode_minus_half_is_all_minus_one() {
    let mut bytes = NEG_HALF_3_BE;
    let mut t = [0i8; 243];
    bytes_to_trits(&mut bytes, &mut t);
    let mut expected = [-1i8; 243];
    expected[242] = 0;
    assert_eq!(t, expected);
    let mut reversed = NEG_HALF_3_BE;
    reversed.reverse();
    assert_eq!(bytes, reversed);
}

#[test]
fn decode_below_minus_half_is_all_plus_one() {
    let mut bytes = HALF_3_BE;
    for b in bytes.iter_mut() {
        *b = !*b;
    }
    let mut t = [0i8; 243];
    bytes_to_trits(&mut bytes, &mut t);
    let mut expected = [1i8; 243];
    expected[242] = 0;
    assert_eq!(t, expected);
}

#[test]
fn decode_half_is_all_plus_one() {
    let mut bytes = HALF_3_BE;
    let mut t = [0i8; 243];
    bytes_to_trits(&mut bytes, &mut t);
    let mut expected = [1i8; 243];
    expected[242] = 0;
    assert_eq!(t, expected);
}

#[test]
fn round_trip_random_trits() {
    let mut rng = Lcg(42);
    for _ in 0..1000 {
        let t = chunk(&rng.trits(243));
        let mut bytes = [0u8; 48];
        trits_to_bytes(&t, &mut bytes);
        let mut back = [0i8; 243];
        bytes_to_trits(&mut bytes, &mut back);
        assert_eq!(back, t);
    }
}

#[test]
fn round_trip_bytes_in_range() {
    let mut rng = Lcg(7);
    for _ in 0..200 {
        let t = chunk(&rng.trits(243));
        let mut bytes = [0u8; 48];
        trits_to_bytes(&t, &mut bytes);
        let first = bytes;
        let mut decoded = [0i8; 243];
        bytes_to_trits(&mut bytes, &mut decoded);
        let mut again = [0u8; 48];
        trits_to_bytes(&decoded, &mut again);
        assert_eq!(again, first);
    }
}

#[test]
fn decode_out_of_range_gives_valid_trits() {
    let mut bytes = [0x7fu8; 48];
    let mut t = [0i8; 243];
    bytes_to_trits(&mut bytes, &mut t);
    assert!(t.iter().all(|x| (-1..=1).contains(x)));
    assert_eq!(t[242], 0);
    let mut bytes = [0x80u8; 48];
    bytes_to_trits(&mut bytes, &mut t);
    assert!(t.iter().all(|x| (-1..=1).contains(x)));
    assert_eq!(t[242], 0);
}

#[test]
fn kerl_squeeze_zero_chunk() {
    let mut k = Kerl::new();
    k.absorb(&[0i8; 243]);
    let out = squeeze_n(&mut k, 243);
    assert_eq!(out[242], 0);
    assert!(out.iter().all(|x| (-1..=1).contains(x)));
    assert!(out.iter().any(|x| *x != 0));
}

#[test]
fn kerl_absorb_empty_is_noop() {
    let mut rng = Lcg(3);
    let t = rng.trits(243);
    let mut a = Kerl::new();
    a.absorb(&t);
    let mut b = a;
    b.absorb(&[]);
    assert_eq!(squeeze_n(&mut a, 243), squeeze_n(&mut b, 243));
}

#[test]
fn kerl_squeeze_prefixes_agree() {
    let mut rng = Lcg(11);
    let t = rng.trits(486);
    let mut base = Kerl::new();
    base.absorb(&t);
    let (mut a, mut b, mut c) = (base, base, base);
    let o1 = squeeze_n(&mut a, 243);
    let o2 = squeeze_n(&mut b, 486);
    let o3 = squeeze_n(&mut c, 729);
    assert_eq!(&o2[..243], &o1[..]);
    assert_eq!(&o3[..486], &o2[..]);
    assert_eq!(o3[242], 0);
    assert_eq!(o3[485], 0);
    assert_eq!(o3[728], 0);
}

#[test]
fn kerl_split_absorb_matches_whole() {
    let mut rng = Lcg(5);
    let t = rng.trits(729);
    let mut whole = Kerl::new();
    whole.absorb(&t);
    let mut split = Kerl::new();
    split.absorb(&t[..243]);
    split.absorb(&t[243..]);
    assert_eq!(squeeze_n(&mut whole, 486), squeeze_n(&mut split, 486));
}

#[test]
fn kerl_is_deterministic() {
    let mut rng = Lcg(9);
    let t = rng.trits(486);
    let run = |t: &[i8]| {
        let mut k = Kerl::default();
        k.reset();
        k.absorb(t);
        let o1 = squeeze_n(&mut k, 243);
        let o2 = squeeze_n(&mut k, 243);
        (o1, o2)
    };
    assert_eq!(run(&t), run(&t));
}

#[test]
fn kerl_double_squeeze_reseeds() {
    let mut rng = Lcg(13);
    let t = rng.trits(243);
    let mut k = Kerl::new();
    k.absorb(&t);
    let o1 = squeeze_n(&mut k, 243);
    let o2 = squeeze_n(&mut k, 243);
    assert_ne!(o1, o2);
    let mut fresh = Kerl::new();
    fresh.reset();
    let f = squeeze_n(&mut fresh, 243);
    assert_ne!(o2, f);
    let mut both = Kerl::new();
    both.absorb(&t);
    let o12 = squeeze_n(&mut both, 486);
    assert_eq!(&o12[..243], &o1[..]);
    assert_eq!(&o12[243..], &o2[..]);
}

#[test]
fn kerl_reset_restores_fresh_state() {
    let mut rng = Lcg(17);
    let t = rng.trits(243);
    let mut k = Kerl::new();
    k.absorb(&t);
    k.reset();
    let mut fresh = Kerl::new();
    assert_eq!(squeeze_n(&mut k, 243), squeeze_n(&mut fresh, 243));
}

#[test]
fn full_add_carries() {
    assert_eq!(full_add(1, 2, false), (false, 3));
    assert_eq!(full_add(0xFFFF_FFFF, 1, false), (true, 0));
    assert_eq!(full_add(0xFFFF_FFFF, 0, true), (true, 0));
    assert_eq!(full_add(0xFFFF_FFFF, 0xFFFF_FFFF, true), (true, 0xFFFF_FFFF));
}

#[test]
fn bigint_add_small_reports_limbs() {
    let mut a = [0u32; 12];
    a[0] = 0xFFFF_FFFF;
    a[1] = 0xFFFF_FFFF;
    assert_eq!(bigint_add_small(&mut a, 1), 3);
    assert_eq!(a[0], 0);
    assert_eq!(a[1], 0);
    assert_eq!(a[2], 1);
    let mut b = [0u32; 12];
    assert_eq!(bigint_add_small(&mut b, 5), 1);
    assert_eq!(b[0], 5);
}

#[test]
fn bigint_add_sub_inverse() {
    let mut a = HALF_3;
    let b: [u32; 12] = [7, 0xFFFF_FFFF, 3, 0, 0, 0, 0, 0, 0, 0, 0, 1];
    bigint_sub(&mut a, &b);
    bigint_add(&mut a, &b);
    assert_eq!(a, HALF_3);
}

#[test]
fn bigint_add_wraps() {
    let mut a = [0xFFFF_FFFFu32; 12];
    let mut one = [0u32; 12];
    one[0] = 1;
    bigint_add(&mut a, &one);
    assert!(is_null(&a));
}

#[test]
fn bigint_cmp_orders() {
    let mut a = [0u32; 12];
    let mut b = [0u32; 12];
    assert_eq!(bigint_cmp(&a, &b), 0);
    a[0] = 0xFFFF_FFFF;
    b[1] = 1;
    assert_eq!(bigint_cmp(&a, &b), -1);
    assert_eq!(bigint_cmp(&b, &a), 1);
    assert_eq!(bigint_cmp(&HALF_3, &a), 1);
}

#[test]
fn bigint_not_and_mul() {
    let mut a = [0u32; 12];
    bigint_not(&mut a);
    assert_eq!(a, [0xFFFF_FFFFu32; 12]);
    let mut m = [0u32; 12];
    m[0] = 0x8000_0000;
    bigint_mul_small(&mut m, 3);
    assert_eq!(m[0], 0x8000_0000);
    assert_eq!(m[1], 1);
    assert!(!is_null(&m));
}
