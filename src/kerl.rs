//! Kerl: absorbs and squeezes trits in chunks of 243 through a Keccak-384
//! sponge, converting each chunk with the codec.
use crate::codec::{bytes_to_trits, decoded, encoded_bytes, reversed, trits_to_bytes, valid_trits};
use crate::constants::{Trit, BYTE_LENGTH, TRIT_LENGTH};
use crate::keccak::{absorbed, keccak_f, state_byte, xor_byte, Keccak};
use vstd::prelude::*;

verus! {

/// Absorbing the 243-trit chunks of `t` into lanes `a` at offset `off`: each
/// chunk is encoded to 48 bytes and absorbed at rate 104.
pub open spec fn kerl_absorbed(a: Seq<u64>, off: int, t: Seq<Trit>) -> (Seq<u64>, int)
    decreases t.len(),
{
    if t.len() < 243 {
        (a, off)
    } else {
        let s = absorbed(a, off, 104, encoded_bytes(t.take(243)));
        kerl_absorbed(s.0, s.1, t.skip(243))
    }
}

/// Absorbing no trits leaves the lanes and the offset as they were.
pub proof fn lemma_kerl_absorb_empty(a: Seq<u64>, off: int)
    ensures
        kerl_absorbed(a, off, Seq::empty()) == (a, off),
{
}

/// Absorbing `x` and then `y`, `x` a whole number of chunks, gives what
/// absorbing `x + y` at once gives.
pub proof fn lemma_kerl_absorb_append(a: Seq<u64>, off: int, x: Seq<Trit>, y: Seq<Trit>)
    requires
        x.len() % 243 == 0,
    ensures
        kerl_absorbed(a, off, x + y) == kerl_absorbed(
            kerl_absorbed(a, off, x).0,
            kerl_absorbed(a, off, x).1,
            y,
        ),
    decreases x.len(),
{
    if x.len() == 0 {
        assert(x + y =~= y);
    } else {
        assert((x + y).take(243) =~= x.take(243));
        assert((x + y).skip(243) =~= x.skip(243) + y);
        let s = absorbed(a, off, 104, encoded_bytes(x.take(243)));
        lemma_kerl_absorb_append(s.0, s.1, x.skip(243), y);
    }
}

/// Squeezing `m` chunks and then `n` more passes through the same states
/// as squeezing `m + n` at once.
pub proof fn lemma_kerl_squeeze_append(a: Seq<u64>, off: int, m: nat, n: nat)
    ensures
        kerl_squeezed(a, off, m + n) == kerl_squeezed(
            kerl_squeezed(a, off, m).0,
            kerl_squeezed(a, off, m).1,
            n,
        ),
    decreases n,
{
    if n > 0 {
        lemma_kerl_squeeze_append(a, off, m, (n - 1) as nat);
        assert((m + n - 1) as nat == m + (n - 1) as nat);
    }
}

/// The 48 bytes squeezed for one chunk: pad with delimiter 0x01, permute,
/// read the first 48 bytes of the state.
pub open spec fn squeeze_block(a: Seq<u64>, off: int) -> Seq<u8> {
    let f = keccak_f(xor_byte(xor_byte(a, off, 1), 103, 0x80));
    Seq::new(48, |j: int| state_byte(f, j))
}

/// The state that follows a squeezed block: a fresh sponge that has absorbed
/// the block reversed and with every bit inverted.
pub open spec fn reseeded(block: Seq<u8>) -> (Seq<u64>, int) {
    absorbed(seq![0u64; 25], 0, 104, Seq::new(48, |i: int| reversed(block)[i] ^ 0xff))
}

/// Lanes and offset after squeezing `n` chunks from lanes `a` at offset `off`.
pub open spec fn kerl_squeezed(a: Seq<u64>, off: int, n: nat) -> (Seq<u64>, int)
    decreases n,
{
    if n == 0 {
        (a, off)
    } else {
        let s = kerl_squeezed(a, off, (n - 1) as nat);
        reseeded(squeeze_block(s.0, s.1))
    }
}

/// The 48 bytes squeezed for chunk `c`, counting from lanes `a` at `off`.
pub open spec fn chunk_block(a: Seq<u64>, off: int, c: nat) -> Seq<u8> {
    let s = kerl_squeezed(a, off, c);
    squeeze_block(s.0, s.1)
}

/// Squeezing `m` chunks and then more gives, from the second call, the
/// chunks that one call would give from position `m` on.
pub proof fn lemma_chunk_block_append(a: Seq<u64>, off: int, m: nat, c: nat)
    ensures
        chunk_block(kerl_squeezed(a, off, m).0, kerl_squeezed(a, off, m).1, c) == chunk_block(
            a,
            off,
            m + c,
        ),
{
    lemma_kerl_squeeze_append(a, off, m, c);
}

/// The Kerl sponge.
#[derive(Clone, Copy)]
pub struct Kerl(Keccak);

impl Kerl {
    /// The underlying Keccak sponge.
    pub closed spec fn sponge(&self) -> Keccak {
        self.0
    }

    /// The lanes of the sponge state.
    pub open spec fn lanes(&self) -> Seq<u64> {
        self.sponge().lanes()
    }

    /// The offset in the current block.
    pub open spec fn offset(&self) -> int {
        self.sponge().offset()
    }

    /// The sponge is a well-formed Keccak-384 sponge.
    pub open spec fn wf(&self) -> bool {
        self.sponge().wf() && self.sponge().rate() == 104 && self.sponge().delim() == 1
    }

    /// A fresh Kerl: an all-zero Keccak-384 state at offset 0.
    pub fn new() -> (r: Kerl)
        ensures
            r.wf(),
            r.lanes() == seq![0u64; 25],
            r.offset() == 0,
    {
        Kerl(Keccak::new_keccak384())
    }

    /// Absorbs `trits`, 243 at a time.
    pub fn absorb(&mut self, trits: &[Trit])
        requires
            old(self).wf(),
            trits@.len() % 243 == 0,
            valid_trits(trits@),
        ensures
            final(self).wf(),
            (final(self).lanes(), final(self).offset()) == kerl_absorbed(
                old(self).lanes(),
                old(self).offset(),
                trits@,
            ),
    {
        let ghost t = trits@;
        let mut bytes: [u8; BYTE_LENGTH] = [0; BYTE_LENGTH];
        let mut chunk: [Trit; TRIT_LENGTH] = [0; TRIT_LENGTH];
        let mut c: usize = 0;
        let len = trits.len();
        assert(t.skip(0) =~= t);
        while c < len
            invariant
                self.wf(),
                t == trits@,
                len == t.len(),
                valid_trits(t),
                t.len() % 243 == 0,
                c <= t.len(),
                c % 243 == 0,
                kerl_absorbed(self.lanes(), self.offset(), t.skip(c as int)) == kerl_absorbed(
                    old(self).lanes(),
                    old(self).offset(),
                    t,
                ),
            decreases t.len() - c,
        {
            let mut i: usize = 0;
            while i < TRIT_LENGTH
                invariant
                    t == trits@,
                    c + 243 <= len,
                    len == t.len(),
                    i <= 243,
                    forall|k: int| 0 <= k < i ==> #[trigger] chunk@[k] == t[c + k],
                decreases 243 - i,
            {
                chunk[i] = trits[c + i];
                i += 1;
            }
            assert(chunk@ =~= t.skip(c as int).take(243));
            assert(t.skip(c as int).skip(243) =~= t.skip(c + 243));
            trits_to_bytes(&chunk, &mut bytes);
            self.0.update(&bytes);
            c += TRIT_LENGTH;
        }
        assert(t.skip(c as int) =~= Seq::<Trit>::empty());
    }

    /// Squeezes `out.len() / 243` chunks into `out`. After each chunk the
    /// sponge restarts from the chunk's bytes, reversed and inverted.
    pub fn squeeze(&mut self, out: &mut [Trit])
        requires
            old(self).wf(),
            old(out)@.len() % 243 == 0,
        ensures
            final(self).wf(),
            final(out)@.len() == old(out)@.len(),
            valid_trits(final(out)@),
            forall|c: int| 0 <= c < final(out)@.len() / 243 ==> #[trigger] final(out)@[243 * c + 242] == 0,
            forall|c: int, i: int|
                0 <= c < final(out)@.len() / 243 && 0 <= i < 243 ==> #[trigger] final(out)@[243 * c + i]
                    == decoded(chunk_block(old(self).lanes(), old(self).offset(), c as nat))[i],
            (final(self).lanes(), final(self).offset()) == kerl_squeezed(
                old(self).lanes(),
                old(self).offset(),
                (old(out)@.len() / 243) as nat,
            ),
    {
        let mut bytes: [u8; BYTE_LENGTH] = [0; BYTE_LENGTH];
        let mut chunk: [Trit; TRIT_LENGTH] = [0; TRIT_LENGTH];
        let n = out.len();
        let ghost mut nq: nat = 0;
        let mut c: usize = 0;
        while c < n
            invariant
                self.wf(),
                out@.len() == n,
                n % 243 == 0,
                c <= n,
                c == 243 * nq,
                forall|k: int| 0 <= k < c ==> -1 <= #[trigger] out@[k] <= 1,
                forall|q: int| 0 <= q < nq ==> #[trigger] out@[243 * q + 242] == 0,
                forall|q: int, j: int|
                    0 <= q < nq && 0 <= j < 243 ==> #[trigger] out@[243 * q + j] == decoded(
                        chunk_block(old(self).lanes(), old(self).offset(), q as nat),
                    )[j],
                (self.lanes(), self.offset()) == kerl_squeezed(
                    old(self).lanes(),
                    old(self).offset(),
                    nq,
                ),
            decreases n - c,
        {
            assert(c + 243 <= n) by {
                vstd::arithmetic::div_mod::lemma_fundamental_div_mod(n as int, 243);
                assert(n == 243 * (n / 243));
                assert(nq < n / 243) by (nonlinear_arith)
                    requires c == 243 * nq, c < n, n == 243 * (n / 243);
                assert(243 * nq + 243 <= 243 * (n / 243)) by (nonlinear_arith)
                    requires nq < n / 243;
            }
            let ghost before = (self.lanes(), self.offset());
            self.0.pad();
            self.0.fill_block();
            self.0.squeeze(&mut bytes);
            let ghost block = bytes@;
            assert(block =~= squeeze_block(before.0, before.1));
            assert(block == chunk_block(old(self).lanes(), old(self).offset(), nq));
            self.reset();
            bytes_to_trits(&mut bytes, &mut chunk);
            let mut i: usize = 0;
            while i < BYTE_LENGTH
                invariant
                    i <= 48,
                    block.len() == 48,
                    forall|k: int| 0 <= k < i ==> #[trigger] bytes@[k] == reversed(block)[k] ^ 0xff,
                    forall|k: int| i <= k < 48 ==> #[trigger] bytes@[k] == reversed(block)[k],
                decreases 48 - i,
            {
                bytes[i] = bytes[i] ^ 0xFF;
                i += 1;
            }
            assert(bytes@ =~= Seq::new(48, |k: int| reversed(block)[k] ^ 0xff));
            self.0.update(&bytes);
            let mut i: usize = 0;
            while i < TRIT_LENGTH
                invariant
                    out@.len() == n,
                    c + 243 <= n,
                    c == 243 * nq,
                    i <= 243,
                    valid_trits(chunk@),
                    chunk@[242] == 0,
                    forall|k: int| 0 <= k < c ==> -1 <= #[trigger] out@[k] <= 1,
                    forall|q: int| 0 <= q < nq ==> #[trigger] out@[243 * q + 242] == 0,
                    forall|q: int, j: int|
                        0 <= q < nq && 0 <= j < 243 ==> #[trigger] out@[243 * q + j] == decoded(
                            chunk_block(old(self).lanes(), old(self).offset(), q as nat),
                        )[j],
                    chunk@ == decoded(chunk_block(old(self).lanes(), old(self).offset(), nq)),
                    forall|k: int| 0 <= k < i ==> #[trigger] out@[c + k] == chunk@[k],
                decreases 243 - i,
            {
                out[c + i] = chunk[i];
                i += 1;
            }
            proof {
                assert forall|k: int| 0 <= k < c + 243 implies -1 <= #[trigger] out@[k] <= 1 by {
                    if k >= c {
                        assert(out@[c + (k - c)] == chunk@[k - c]);
                    }
                }
                assert(out@[c + 242] == chunk@[242]);
                assert forall|q: int, j: int| 0 <= q < nq + 1 && 0 <= j < 243 implies #[trigger] out@[243
                    * q + j] == decoded(chunk_block(old(self).lanes(), old(self).offset(), q as nat))[j] by {
                    if q == nq {
                        assert(243 * q + j == c + j);
                    } else {
                        assert(243 * q + j < c) by (nonlinear_arith)
                            requires q < nq, j < 243, c == 243 * nq;
                    }
                }
                assert forall|q: int| 0 <= q < nq + 1 implies #[trigger] out@[243 * q + 242] == 0 by {
                    if q == nq {
                        assert(243 * q + 242 == c + 242);
                    }
                }
                nq = nq + 1;
            }
            c += TRIT_LENGTH;
        }
        proof {
            vstd::arithmetic::div_mod::lemma_fundamental_div_mod_converse(n as int, 243, nq as int, 0);
        }
    }

    /// Returns the sponge to a fresh Keccak-384 state.
    pub fn reset(&mut self)
        ensures
            final(self).wf(),
            final(self).lanes() == seq![0u64; 25],
            final(self).offset() == 0,
    {
        self.0 = Keccak::new_keccak384();
    }
}

impl Default for Kerl {
    fn default() -> (r: Kerl)
        ensures
            r.wf(),
            r.lanes() == seq![0u64; 25],
            r.offset() == 0,
    {
        Kerl::new()
    }
}

} // verus!
