//! The Keccak-f[1600] permutation and a byte-oriented sponge around it.
use vstd::prelude::*;

verus! {

/// Number of 64-bit lanes in the state.
pub const PLEN: usize = 25;

/// Round constants of the iota step.
pub const RC: [u64; 24] = [
    1u64,
    0x8082u64,
    0x8000_0000_0000_808au64,
    0x8000_0000_8000_8000u64,
    0x808bu64,
    0x8000_0001u64,
    0x8000_0000_8000_8081u64,
    0x8000_0000_0000_8009u64,
    0x8au64,
    0x88u64,
    0x8000_8009u64,
    0x8000_000au64,
    0x8000_808bu64,
    0x8000_0000_0000_008bu64,
    0x8000_0000_0000_8089u64,
    0x8000_0000_0000_8003u64,
    0x8000_0000_0000_8002u64,
    0x8000_0000_0000_0080u64,
    0x800au64,
    0x8000_0000_8000_000au64,
    0x8000_0000_8000_8081u64,
    0x8000_0000_0000_8080u64,
    0x8000_0001u64,
    0x8000_0000_8000_8008u64,
];

/// Left rotation of a lane by `n` bits, `0 < n < 64`.
pub open spec fn rotl(x: u64, n: u64) -> u64 {
    (x << n) | (x >> (64 - n) as u64)
}

fn rotate(x: u64, n: u64) -> (r: u64)
    requires
        0 < n < 64,
    ensures
        r == rotl(x, n),
{
    (x << n) | (x >> (64 - n))
}

/// Parity of column `x`: the XOR of the five lanes `a[x + 5y]`.
pub open spec fn column(a: Seq<u64>, x: int) -> u64 {
    a[x] ^ a[x + 5] ^ a[x + 10] ^ a[x + 15] ^ a[x + 20]
}

/// Theta: each lane is XORed with the parity of the column to its left and
/// the rotated parity of the column to its right.
pub open spec fn theta(a: Seq<u64>) -> Seq<u64> {
    Seq::new(
        25,
        |i: int| a[i] ^ (column(a, (i % 5 + 4) % 5) ^ rotl(column(a, (i % 5 + 1) % 5), 1)),
    )
}

/// For each destination lane of the combined rho and pi steps, the lane it
/// is taken from and the rotation applied to it.
pub open spec fn rho_pi_source(i: int) -> (int, u64) {
    if i == 1 { (6, 44) }
    else if i == 2 { (12, 43) }
    else if i == 3 { (18, 21) }
    else if i == 4 { (24, 14) }
    else if i == 5 { (3, 28) }
    else if i == 6 { (9, 20) }
    else if i == 7 { (10, 3) }
    else if i == 8 { (16, 45) }
    else if i == 9 { (22, 61) }
    else if i == 10 { (1, 1) }
    else if i == 11 { (7, 6) }
    else if i == 12 { (13, 25) }
    else if i == 13 { (19, 8) }
    else if i == 14 { (20, 18) }
    else if i == 15 { (4, 27) }
    else if i == 16 { (5, 36) }
    else if i == 17 { (11, 10) }
    else if i == 18 { (17, 15) }
    else if i == 19 { (23, 56) }
    else if i == 20 { (2, 62) }
    else if i == 21 { (8, 55) }
    else if i == 22 { (14, 39) }
    else if i == 23 { (15, 41) }
    else { (21, 2) }
}

/// Rho and pi: lane 0 stays; every other lane receives a rotated lane.
pub open spec fn rho_pi(a: Seq<u64>) -> Seq<u64> {
    Seq::new(
        25,
        |i: int|
            if i == 0 {
                a[0]
            } else {
                rotl(a[rho_pi_source(i).0], rho_pi_source(i).1)
            },
    )
}

/// Chi: the nonlinear row step `a ^ (!a[x+1] & a[x+2])` within each row.
pub open spec fn chi(a: Seq<u64>) -> Seq<u64> {
    Seq::new(
        25,
        |i: int|
            a[i] ^ (!a[i - i % 5 + (i % 5 + 1) % 5] & a[i - i % 5 + (i % 5 + 2) % 5]),
    )
}

/// Round `r` of the permutation: theta, rho, pi, chi, then iota.
pub open spec fn round(a: Seq<u64>, r: int) -> Seq<u64> {
    let b = chi(rho_pi(theta(a)));
    b.update(0, b[0] ^ RC@[r])
}

/// The first `n` rounds applied to `a`.
pub open spec fn rounds(a: Seq<u64>, n: nat) -> Seq<u64>
    decreases n,
{
    if n == 0 {
        a
    } else {
        round(rounds(a, (n - 1) as nat), n - 1)
    }
}

/// Keccak-f[1600]: all 24 rounds.
pub open spec fn keccak_f(a: Seq<u64>) -> Seq<u64> {
    rounds(a, 24)
}

fn theta_step(a: &mut [u64; PLEN])
    ensures
        final(a)@ == theta(old(a)@),
{
    let c0 = a[0] ^ a[5] ^ a[10] ^ a[15] ^ a[20];
    let c1 = a[1] ^ a[6] ^ a[11] ^ a[16] ^ a[21];
    let c2 = a[2] ^ a[7] ^ a[12] ^ a[17] ^ a[22];
    let c3 = a[3] ^ a[8] ^ a[13] ^ a[18] ^ a[23];
    let c4 = a[4] ^ a[9] ^ a[14] ^ a[19] ^ a[24];
    let d: [u64; 5] = [
        c4 ^ rotate(c1, 1),
        c0 ^ rotate(c2, 1),
        c1 ^ rotate(c3, 1),
        c2 ^ rotate(c4, 1),
        c3 ^ rotate(c0, 1),
    ];
    let ghost a0 = a@;
    let mut i: usize = 0;
    while i < 25
        invariant
            i <= 25,
            a@.len() == 25,
            forall|j: int| 0 <= j < 5 ==> d@[j] == (column(a0, (j + 4) % 5) ^ rotl(column(a0, (j + 1) % 5), 1)),
            forall|j: int| 0 <= j < i ==> a@[j] == theta(a0)[j],
            forall|j: int| i <= j < 25 ==> a@[j] == a0[j],
        decreases 25 - i,
    {
        a[i] = a[i] ^ d[i % 5];
        i += 1;
    }
    assert(a@ =~= theta(a0));
}

fn rho_pi_step(a: &mut [u64; PLEN])
    ensures
        final(a)@ == rho_pi(old(a)@),
{
    let b = *a;
    a[10] = rotate(b[1], 1);
    a[7] = rotate(b[10], 3);
    a[11] = rotate(b[7], 6);
    a[17] = rotate(b[11], 10);
    a[18] = rotate(b[17], 15);
    a[3] = rotate(b[18], 21);
    a[5] = rotate(b[3], 28);
    a[16] = rotate(b[5], 36);
    a[8] = rotate(b[16], 45);
    a[21] = rotate(b[8], 55);
    a[24] = rotate(b[21], 2);
    a[4] = rotate(b[24], 14);
    a[15] = rotate(b[4], 27);
    a[23] = rotate(b[15], 41);
    a[19] = rotate(b[23], 56);
    a[13] = rotate(b[19], 8);
    a[12] = rotate(b[13], 25);
    a[2] = rotate(b[12], 43);
    a[20] = rotate(b[2], 62);
    a[14] = rotate(b[20], 18);
    a[22] = rotate(b[14], 39);
    a[9] = rotate(b[22], 61);
    a[6] = rotate(b[9], 20);
    a[1] = rotate(b[6], 44);
    assert(a@ =~= rho_pi(b@));
}

fn chi_step(a: &mut [u64; PLEN])
    ensures
        final(a)@ == chi(old(a)@),
{
    let b = *a;
    let mut i: usize = 0;
    while i < 25
        invariant
            i <= 25,
            a@.len() == 25,
            b@.len() == 25,
            forall|j: int| 0 <= j < i ==> a@[j] == chi(b@)[j],
        decreases 25 - i,
    {
        let row = i - i % 5;
        a[i] = b[i] ^ (!b[row + (i % 5 + 1) % 5] & b[row + (i % 5 + 2) % 5]);
        i += 1;
    }
    assert(a@ =~= chi(b@));
}

/// Keccak-f[1600] on a state of 25 lanes, lane `x + 5y` at index `x + 5y`.
pub fn keccakf(a: &mut [u64; PLEN])
    ensures
        final(a)@ == keccak_f(old(a)@),
{
    let ghost a0 = a@;
    let mut r: usize = 0;
    while r < 24
        invariant
            r <= 24,
            a@ == rounds(a0, r as nat),
        decreases 24 - r,
    {
        theta_step(a);
        rho_pi_step(a);
        chi_step(a);
        a[0] = a[0] ^ RC[r];
        r += 1;
    }
}

/// Byte `i` of the state, lanes read little-endian.
pub open spec fn state_byte(a: Seq<u64>, i: int) -> u8 {
    ((a[i / 8] >> (8 * (i % 8)) as u64) & 0xff) as u8
}

/// The 200-byte view of the state.
pub open spec fn state_bytes(a: Seq<u64>) -> Seq<u8> {
    Seq::new(200, |i: int| state_byte(a, i))
}

/// The state with byte `i` XORed with `b`.
pub open spec fn xor_byte(a: Seq<u64>, i: int, b: u8) -> Seq<u64> {
    a.update(i / 8, a[i / 8] ^ ((b as u64) << (8 * (i % 8)) as u64))
}

proof fn lemma_xor_lane_byte(x: u64, b: u8, s: u64, t: u64)
    requires
        s < 64,
        t < 64,
        s & 7 == 0,
        t & 7 == 0,
    ensures
        s == t ==> (((x ^ ((b as u64) << s)) >> t) & 0xff) as u8 == (((x >> t) & 0xff) as u8) ^ b,
        s != t ==> (((x ^ ((b as u64) << s)) >> t) & 0xff) as u8 == ((x >> t) & 0xff) as u8,
{
    assert(s == t ==> (((x ^ ((b as u64) << s)) >> t) & 0xff) as u8 == (((x >> t) & 0xff) as u8) ^ b)
        by (bit_vector)
        requires s < 64, t < 64, s & 7 == 0, t & 7 == 0;
    assert(s != t ==> (((x ^ ((b as u64) << s)) >> t) & 0xff) as u8 == ((x >> t) & 0xff) as u8)
        by (bit_vector)
        requires s < 64, t < 64, s & 7 == 0, t & 7 == 0;
}

/// XORing `b` into byte `i` of the lanes changes byte `i` of the byte view,
/// and only that byte, by `b`.
pub proof fn lemma_xor_byte_view(a: Seq<u64>, i: int, b: u8)
    requires
        a.len() == 25,
        0 <= i < 200,
    ensures
        state_bytes(xor_byte(a, i, b)) == state_bytes(a).update(i, state_bytes(a)[i] ^ b),
{
    let n = xor_byte(a, i, b);
    assert forall|k: int| 0 <= k < 200 implies #[trigger] state_bytes(n)[k] == state_bytes(a).update(
        i,
        state_bytes(a)[i] ^ b,
    )[k] by {
        let s = (8 * (i % 8)) as u64;
        let t = (8 * (k % 8)) as u64;
        assert(s & 7 == 0) by (bit_vector)
            requires s == 8 * (s / 8);
        assert(t & 7 == 0) by (bit_vector)
            requires t == 8 * (t / 8);
        if k / 8 == i / 8 {
            lemma_xor_lane_byte(a[i / 8], b, s, t);
            if k != i {
                assert(k % 8 != i % 8);
            }
        }
    }
    assert(state_bytes(n) =~= state_bytes(a).update(i, state_bytes(a)[i] ^ b));
}

/// `k` applications of the permutation.
pub open spec fn permuted(a: Seq<u64>, k: nat) -> Seq<u64>
    decreases k,
{
    if k == 0 {
        a
    } else {
        keccak_f(permuted(a, (k - 1) as nat))
    }
}

/// Absorbing `input` byte by byte into lanes `a` at `offset`: each byte is
/// XORed in, and when a block of `rate` bytes is full the permutation runs
/// and the offset returns to 0. Gives the new lanes and offset.
pub open spec fn absorbed(a: Seq<u64>, offset: int, rate: int, input: Seq<u8>) -> (Seq<u64>, int)
    decreases input.len(),
{
    if input.len() == 0 {
        (a, offset)
    } else {
        let a1 = xor_byte(a, offset, input[0]);
        if offset + 1 == rate {
            absorbed(keccak_f(a1), 0, rate, input.drop_first())
        } else {
            absorbed(a1, offset + 1, rate, input.drop_first())
        }
    }
}

/// Absorbing nothing leaves the lanes and the offset as they were.
pub proof fn lemma_absorb_empty(a: Seq<u64>, offset: int, rate: int)
    ensures
        absorbed(a, offset, rate, Seq::empty()) == (a, offset),
{
}

/// Absorbing `x` and then `y` gives what absorbing `x + y` at once gives,
/// wherever the block boundaries fall.
pub proof fn lemma_absorb_append(a: Seq<u64>, offset: int, rate: int, x: Seq<u8>, y: Seq<u8>)
    ensures
        absorbed(a, offset, rate, x + y) == absorbed(
            absorbed(a, offset, rate, x).0,
            absorbed(a, offset, rate, x).1,
            rate,
            y,
        ),
    decreases x.len(),
{
    if x.len() == 0 {
        assert(x + y =~= y);
    } else {
        assert((x + y).drop_first() =~= x.drop_first() + y);
        assert((x + y)[0] == x[0]);
        let a1 = xor_byte(a, offset, x[0]);
        if offset + 1 == rate {
            lemma_absorb_append(keccak_f(a1), 0, rate, x.drop_first(), y);
        } else {
            lemma_absorb_append(a1, offset + 1, rate, x.drop_first(), y);
        }
    }
}

/// Byte `j` of a squeeze of lanes `a`: block `j / rate`, read after that
/// many permutations, at position `j % rate`.
pub open spec fn squeezed_byte(a: Seq<u64>, rate: int, j: int) -> u8 {
    state_byte(permuted(a, (j / rate) as nat), j % rate)
}

/// Lanes after absorbing `data` into a fresh Keccak-384 sponge, padding and
/// permuting: the state that output is read from.
pub open spec fn keccak384_state(data: Seq<u8>) -> Seq<u64> {
    let s = absorbed(seq![0u64; 25], 0, 104, data);
    keccak_f(xor_byte(xor_byte(s.0, s.1, 1), 103, 0x80))
}

/// The Keccak-384 hash of `data`.
pub fn keccak384(data: &[u8]) -> (r: [u8; 48])
    ensures
        forall|j: int| 0 <= j < 48 ==> #[trigger] r@[j] == state_byte(keccak384_state(data@), j),
{
    let mut result = [0u8; 48];
    Keccak::keccak384(data, &mut result);
    proof {
        assert forall|j: int| 0 <= j < 48 implies #[trigger] result@[j] == state_byte(
            keccak384_state(data@),
            j,
        ) by {
            assert(result@[j] == squeezed_byte(keccak384_state(data@), 104, j));
            assert(j / 104 == 0);
            assert(j % 104 == j);
        }
    }
    result
}

/// A Keccak sponge: 25 lanes of state, the position in the current block,
/// the rate in bytes and the padding delimiter.
#[derive(Clone, Copy)]
pub struct Keccak {
    a: [u64; PLEN],
    offset: usize,
    rate: usize,
    delim: u8,
}

impl Keccak {
    /// The 25 lanes of the state.
    pub closed spec fn lanes(&self) -> Seq<u64> {
        self.a@
    }

    /// How many bytes of the current block have been absorbed.
    pub closed spec fn offset(&self) -> int {
        self.offset as int
    }

    /// The rate in bytes.
    pub closed spec fn rate(&self) -> int {
        self.rate as int
    }

    /// The delimiter byte written by padding.
    pub closed spec fn delim(&self) -> u8 {
        self.delim
    }

    /// The rate fits in the state and the offset lies inside a block.
    pub closed spec fn wf(&self) -> bool {
        0 < self.rate <= 200 && self.offset < self.rate
    }

    /// A fresh sponge with all-zero state.
    pub fn new(rate: usize, delim: u8) -> (r: Keccak)
        requires
            0 < rate <= 200,
        ensures
            r.wf(),
            r.lanes() == seq![0u64; 25],
            r.offset() == 0,
            r.rate() == rate,
            r.delim() == delim,
    {
        let r = Keccak { a: [0; PLEN], offset: 0, rate, delim };
        assert(r.a@ =~= seq![0u64; 25]);
        r
    }

    /// A fresh Keccak-384 sponge: rate 104 bytes, delimiter 0x01.
    pub fn new_keccak384() -> (r: Keccak)
        ensures
            r.wf(),
            r.lanes() == seq![0u64; 25],
            r.offset() == 0,
            r.rate() == 104,
            r.delim() == 1,
    {
        Keccak::new(200 - 384 / 4, 0x01)
    }

    /// Hashes `data` with Keccak-384 into `result`, of any length.
    pub fn keccak384(data: &[u8], result: &mut [u8])
        ensures
            final(result)@.len() == old(result)@.len(),
            forall|j: int|
                0 <= j < old(result)@.len() ==> #[trigger] final(result)@[j] == squeezed_byte(
                    keccak384_state(data@),
                    104,
                    j,
                ),
    {
        let mut keccak = Keccak::new_keccak384();
        keccak.update(data);
        keccak.finalize(result);
    }

    /// The state as 200 bytes, lanes little-endian.
    pub fn a_bytes(&self) -> (r: [u8; 200])
        ensures
            r@ == state_bytes(self.lanes()),
    {
        let mut r = [0u8; 200];
        let mut i: usize = 0;
        while i < 200
            invariant
                i <= 200,
                forall|k: int| 0 <= k < i ==> #[trigger] r@[k] == state_byte(self.a@, k),
            decreases 200 - i,
        {
            r[i] = #[verifier::truncate] (((self.a[i / 8] >> (8 * (i % 8))) & 0xff) as u8);
            i += 1;
        }
        assert(r@ =~= state_bytes(self.a@));
        r
    }

    /// Absorbs `input` into the sponge.
    pub fn update(&mut self, input: &[u8])
        requires
            old(self).wf(),
        ensures
            final(self).wf(),
            (final(self).lanes(), final(self).offset())
                == absorbed(old(self).lanes(), old(self).offset(), old(self).rate(), input@),
            final(self).rate() == old(self).rate(),
            final(self).delim() == old(self).delim(),
    {
        self.absorb(input);
    }

    /// Runs the permutation on the state.
    pub fn keccakf(&mut self)
        ensures
            final(self).lanes() == keccak_f(old(self).lanes()),
            final(self).offset() == old(self).offset(),
            final(self).rate() == old(self).rate(),
            final(self).delim() == old(self).delim(),
    {
        keccakf(&mut self.a);
    }

    /// Pads, permutes and squeezes `output.len()` bytes.
    pub fn finalize(self, output: &mut [u8])
        requires
            self.wf(),
        ensures
            final(output)@.len() == old(output)@.len(),
            forall|j: int|
                0 <= j < old(output)@.len() ==> #[trigger] final(output)@[j] == squeezed_byte(
                    keccak_f(
                        xor_byte(
                            xor_byte(self.lanes(), self.offset(), self.delim()),
                            self.rate() - 1,
                            0x80,
                        ),
                    ),
                    self.rate(),
                    j,
                ),
    {
        let mut k = self;
        k.pad();
        keccakf(&mut k.a);
        k.squeeze(output);
    }

    /// XORs `input` into the state from the current offset, running the
    /// permutation after every full block of `rate` bytes.
    pub fn absorb(&mut self, input: &[u8])
        requires
            old(self).wf(),
        ensures
            final(self).wf(),
            (final(self).lanes(), final(self).offset())
                == absorbed(old(self).lanes(), old(self).offset(), old(self).rate(), input@),
            final(self).rate() == old(self).rate(),
            final(self).delim() == old(self).delim(),
    {
        let ghost a0 = self.a@;
        let ghost off0 = self.offset as int;
        let mut i: usize = 0;
        assert(input@.skip(0) =~= input@);
        while i < input.len()
            invariant
                self.wf(),
                i <= input@.len(),
                self.rate == old(self).rate,
                self.delim == old(self).delim,
                absorbed(self.a@, self.offset as int, self.rate as int, input@.skip(i as int))
                    == absorbed(a0, off0, self.rate as int, input@),
            decreases input.len() - i,
        {
            let off = self.offset;
            assert(input@.skip(i as int).drop_first() =~= input@.skip(i + 1));
            self.a[off / 8] = self.a[off / 8] ^ ((input[i] as u64) << (8 * (off % 8)));
            if off + 1 == self.rate {
                keccakf(&mut self.a);
                self.offset = 0;
            } else {
                self.offset = off + 1;
            }
            i += 1;
        }
        assert(input@.skip(i as int) =~= Seq::<u8>::empty());
    }

    /// XORs the delimiter in at the offset and 0x80 into the last byte of
    /// the block.
    pub fn pad(&mut self)
        requires
            old(self).wf(),
        ensures
            final(self).wf(),
            final(self).lanes() == xor_byte(
                xor_byte(old(self).lanes(), old(self).offset(), old(self).delim()),
                old(self).rate() - 1,
                0x80,
            ),
            final(self).offset() == old(self).offset(),
            final(self).rate() == old(self).rate(),
            final(self).delim() == old(self).delim(),
    {
        let offset = self.offset;
        let rate = self.rate;
        self.a[offset / 8] = self.a[offset / 8] ^ ((self.delim as u64) << (8 * (offset % 8)));
        self.a[(rate - 1) / 8] = self.a[(rate - 1) / 8] ^ ((0x80u8 as u64) << (8 * ((rate - 1) % 8)));
    }

    /// Runs the permutation and starts a new block.
    pub fn fill_block(&mut self)
        requires
            old(self).wf(),
        ensures
            final(self).wf(),
            final(self).lanes() == keccak_f(old(self).lanes()),
            final(self).offset() == 0,
            final(self).rate() == old(self).rate(),
            final(self).delim() == old(self).delim(),
    {
        self.keccakf();
        self.offset = 0;
    }

    /// Copies the state out into `output` one block of `rate` bytes at a
    /// time, running the permutation after each full block.
    pub fn squeeze(&mut self, output: &mut [u8])
        requires
            old(self).wf(),
        ensures
            final(self).wf(),
            final(output)@.len() == old(output)@.len(),
            forall|j: int|
                0 <= j < old(output)@.len() ==> #[trigger] final(output)@[j] == squeezed_byte(
                    old(self).lanes(),
                    old(self).rate(),
                    j,
                ),
            final(self).lanes() == permuted(
                old(self).lanes(),
                (old(output)@.len() as int / old(self).rate()) as nat,
            ),
            final(self).offset() == old(self).offset(),
            final(self).rate() == old(self).rate(),
            final(self).delim() == old(self).delim(),
    {
        let ghost a0 = self.a@;
        let ghost mut q: nat = 0;
        let rate = self.rate;
        let mut c: usize = 0;
        let mut j: usize = 0;
        while j < output.len()
            invariant
                self.wf(),
                self.rate == rate,
                self.offset == old(self).offset,
                self.delim == old(self).delim,
                a0 == old(self).a@,
                j <= output@.len(),
                output@.len() == old(output)@.len(),
                c < rate,
                j == q * rate + c,
                self.a@ == permuted(a0, q),
                forall|k: int| 0 <= k < j ==> #[trigger] output@[k] == squeezed_byte(a0, rate as int, k),
            decreases output.len() - j,
        {
            proof {
                vstd::arithmetic::div_mod::lemma_fundamental_div_mod_converse(j as int, rate as int, q as int, c as int);
            }
            output[j] = #[verifier::truncate] (((self.a[c / 8] >> (8 * (c % 8))) & 0xff) as u8);
            if c + 1 == rate {
                keccakf(&mut self.a);
                c = 0;
                proof {
                    q = q + 1;
                    assert(j + 1 == q * rate + c) by (nonlinear_arith)
                        requires
                            j == (q - 1) * rate + rate - 1,
                            c == 0,
                    ;
                }
            } else {
                c = c + 1;
            }
            j += 1;
        }
        proof {
            vstd::arithmetic::div_mod::lemma_fundamental_div_mod_converse(j as int, rate as int, q as int, c as int);
        }
    }
}

} // verus!
