//! The sponge engine: a [`Keccak`] session that absorbs input bytes into a
//! 1600-bit state, pads with a configurable domain-separation suffix, and
//! squeezes an unbounded keystream.
//!
//! The state is addressed byte by byte through a little-endian decomposition
//! of each 64-bit lane. Every mutation is specified by a pure model over
//! `Seq<u64>` — [`absorb_bytes`], [`pad_lanes`], [`squeeze_bytes`] — and each
//! method's contract says that the session follows that model exactly.

use vstd::prelude::*;
use crate::permutation::keccak_f;
use crate::permutation::f1600;

verus! {

/// The all-zero 25-lane state of a fresh session.
pub open spec fn zero_lanes() -> Seq<u64> {
    Seq::new(25, |i: int| 0u64)
}

/// Byte `i` of the state under the little-endian lane decomposition:
/// byte `i` lives in lane `i / 8` at sub-byte offset `i % 8`.
pub open spec fn state_byte(s: Seq<u64>, i: int) -> u8
    recommends
        s.len() == 25,
        0 <= i < 200,
{
    (s[i / 8] >> (8 * (i % 8)) as u64) as u8
}

/// The state with byte `i` replaced by its XOR with `b`.
pub open spec fn xor_byte(s: Seq<u64>, i: int, b: u8) -> Seq<u64>
    recommends
        s.len() == 25,
        0 <= i < 200,
{
    s.update(i / 8, s[i / 8] ^ ((b as u64) << (8 * (i % 8)) as u64))
}

/// One absorbed byte: XOR it at offset `a`; when the rate block fills,
/// permute and reset the offset.
pub open spec fn absorb_one(s: Seq<u64>, a: int, rate: int, b: u8) -> (Seq<u64>, int)
    recommends
        s.len() == 25,
        0 <= a < rate <= 200,
{
    let s2 = xor_byte(s, a, b);
    if a + 1 == rate {
        (keccak_f(s2), 0)
    } else {
        (s2, a + 1)
    }
}

/// The state and absorb offset after absorbing `input`, front to back.
pub open spec fn absorb_bytes(s: Seq<u64>, a: int, rate: int, input: Seq<u8>) -> (Seq<u64>, int)
    recommends
        s.len() == 25,
        0 <= a < rate <= 200,
    decreases input.len(),
{
    if input.len() == 0 {
        (s, a)
    } else {
        let step = absorb_one(s, a, rate, input[0]);
        absorb_bytes(step.0, step.1, rate, input.drop_first())
    }
}

/// Absorbing `u` then one more byte `b` is absorbing `u.push(b)`.
pub proof fn lemma_absorb_bytes_snoc(s: Seq<u64>, a: int, rate: int, u: Seq<u8>, b: u8)
    ensures
        absorb_bytes(s, a, rate, u.push(b)) == {
            let mid = absorb_bytes(s, a, rate, u);
            absorb_one(mid.0, mid.1, rate, b)
        },
    decreases u.len(),
{
    let w = u.push(b);
    if u.len() == 0 {
        let step = absorb_one(s, a, rate, b);
        assert(w[0] == b);
        assert(w.drop_first() =~= Seq::<u8>::empty());
        assert(absorb_bytes(step.0, step.1, rate, w.drop_first()) =~= (step.0, step.1));
        assert(absorb_bytes(s, a, rate, u) =~= (s, a));
    } else {
        let step = absorb_one(s, a, rate, u[0]);
        assert(w[0] == u[0]);
        assert(w.drop_first() =~= u.drop_first().push(b));
        lemma_absorb_bytes_snoc(step.0, step.1, rate, u.drop_first(), b);
        assert(absorb_bytes(s, a, rate, w) =~= absorb_bytes(step.0, step.1, rate, w.drop_first()));
        assert(absorb_bytes(s, a, rate, u) =~= absorb_bytes(step.0, step.1, rate, u.drop_first()));
    }
}

/// The padded state: XOR the suffix at the current absorb offset, permute
/// early if the suffix's top bit lands on the last byte of the block, XOR
/// the multi-rate terminator `0x80` into the last byte, and permute.
pub open spec fn pad_lanes(s: Seq<u64>, a: int, rate: int, suffix: u8) -> Seq<u64>
    recommends
        s.len() == 25,
        0 <= a < rate <= 200,
{
    let s1 = xor_byte(s, a, suffix);
    let s2 = if (suffix & 0x80) != 0 && a == rate - 1 {
        keccak_f(s1)
    } else {
        s1
    };
    keccak_f(xor_byte(s2, rate - 1, 0x80))
}

/// One squeezed byte: read at offset `q`; when the rate block is exhausted,
/// permute and reset the offset.
pub open spec fn squeeze_one(s: Seq<u64>, q: int, rate: int) -> (u8, Seq<u64>, int)
    recommends
        s.len() == 25,
        0 <= q < rate <= 200,
{
    let b = state_byte(s, q);
    if q + 1 == rate {
        (b, keccak_f(s), 0)
    } else {
        (b, s, q + 1)
    }
}

/// The `n` squeezed bytes from state `s` at offset `q`, with the state and
/// offset they leave behind.
pub open spec fn squeeze_bytes(s: Seq<u64>, q: int, rate: int, n: nat) -> (Seq<u8>, Seq<u64>, int)
    recommends
        s.len() == 25,
        0 <= q < rate <= 200,
    decreases n,
{
    if n == 0 {
        (Seq::empty(), s, q)
    } else {
        let first = squeeze_one(s, q, rate);
        let rest = squeeze_bytes(first.1, first.2, rate, (n - 1) as nat);
        (seq![first.0] + rest.0, rest.1, rest.2)
    }
}

/// Squeezing `n + 1` bytes is squeezing `n`, then one more from where the
/// stream stood.
pub proof fn lemma_squeeze_bytes_snoc(s: Seq<u64>, q: int, rate: int, n: nat)
    ensures
        squeeze_bytes(s, q, rate, n + 1) == {
            let mid = squeeze_bytes(s, q, rate, n);
            let one = squeeze_one(mid.1, mid.2, rate);
            (mid.0.push(one.0), one.1, one.2)
        },
    decreases n,
{
    let first = squeeze_one(s, q, rate);
    if n == 0 {
        let rest = squeeze_bytes(first.1, first.2, rate, 0);
        assert(rest =~= (Seq::<u8>::empty(), first.1, first.2));
        assert(squeeze_bytes(s, q, rate, 1).0 =~= seq![first.0]);
        assert(squeeze_bytes(s, q, rate, 0) =~= (Seq::<u8>::empty(), s, q));
        assert(squeeze_bytes(s, q, rate, 0).0.push(first.0) =~= seq![first.0]);
    } else {
        lemma_squeeze_bytes_snoc(first.1, first.2, rate, (n - 1) as nat);
        let mid = squeeze_bytes(s, q, rate, n);
        let one = squeeze_one(mid.1, mid.2, rate);
        assert(squeeze_bytes(s, q, rate, n + 1).0 =~= mid.0.push(one.0));
    }
}

/// A Keccak sponge session: the 25-lane state plus the rate, the
/// domain-separation suffix, and the two block offsets.
pub struct Keccak {
    state: Vec<u64>,
    rate_in_bytes: usize,
    delimited_suffix: u8,
    absorbed: usize,
    squeezed: usize,
}

impl Keccak {
    /// Internal consistency: 25 lanes, a byte-aligned rate within the state,
    /// and both offsets inside the current block. `squeezed` equal to the
    /// rate is the sentinel of a session that has not yet squeezed.
    pub closed spec fn wf(&self) -> bool {
        &&& self.state@.len() == 25
        &&& 1 <= self.rate_in_bytes <= 200
        &&& self.absorbed < self.rate_in_bytes
        &&& self.squeezed <= self.rate_in_bytes
    }

    /// The 25 lanes of the state.
    pub closed spec fn lanes(&self) -> Seq<u64> {
        self.state@
    }

    /// The rate in bytes.
    pub closed spec fn rate(&self) -> int {
        self.rate_in_bytes as int
    }

    /// The domain-separation suffix byte.
    pub closed spec fn suffix(&self) -> u8 {
        self.delimited_suffix
    }

    /// Bytes absorbed into the current rate block.
    pub closed spec fn absorbed_count(&self) -> int {
        self.absorbed as int
    }

    /// Bytes squeezed from the current rate block.
    pub closed spec fn squeezed_count(&self) -> int {
        self.squeezed as int
    }

    /// True until the first squeeze: absorbing is still allowed.
    pub closed spec fn is_absorbing(&self) -> bool {
        self.squeezed == self.rate_in_bytes
    }

    /// Initializes a sponge session with the chosen parameters. The rate and
    /// capacity must split the 1600-bit state on a byte boundary, with a
    /// non-empty rate block.
    pub fn new(rate: usize, capacity: usize, delimited_suffix: u8) -> (k: Keccak)
        requires
            rate + capacity == 1600,
            rate % 8 == 0,
            rate >= 8,
        ensures
            k.wf(),
            k.is_absorbing(),
            k.lanes() == zero_lanes(),
            k.rate() == rate as int / 8,
            k.suffix() == delimited_suffix,
            k.absorbed_count() == 0,
    {
        let mut state: Vec<u64> = Vec::new();
        let mut i: usize = 0;
        while i < 25
            invariant
                i <= 25,
                state@.len() == i,
                forall|j: int| 0 <= j < i ==> state@[j] == 0u64,
            decreases 25 - i,
        {
            state.push(0u64);
            i += 1;
        }
        proof {
            assert(state@ =~= zero_lanes());
        }
        Keccak {
            state,
            rate_in_bytes: rate / 8,
            delimited_suffix,
            absorbed: 0,
            squeezed: rate / 8,
        }
    }

    /// XORs `to_xor` into byte `i` of the state, through the little-endian
    /// lane decomposition.
    fn xor_state_byte(&mut self, i: usize, to_xor: u8)
        requires
            old(self).wf(),
            i < 200,
        ensures
            final(self).wf(),
            final(self).lanes() == xor_byte(old(self).lanes(), i as int, to_xor),
            final(self).rate() == old(self).rate(),
            final(self).suffix() == old(self).suffix(),
            final(self).absorbed_count() == old(self).absorbed_count(),
            final(self).squeezed_count() == old(self).squeezed_count(),
    {
        let lane = self.state[i / 8];
        let shift = 8 * (i % 8);
        assert(shift < 64);
        self.state.set(i / 8, lane ^ ((to_xor as u64) << shift));
        proof {
            assert(final(self).lanes() =~= xor_byte(old(self).lanes(), i as int, to_xor));
        }
    }

    /// Absorbs input bytes into the state, permuting whenever the rate block
    /// fills. Only legal before the first squeeze.
    pub fn absorb(&mut self, input: &[u8])
        requires
            old(self).wf(),
            old(self).is_absorbing(),
        ensures
            final(self).wf(),
            final(self).is_absorbing(),
            final(self).rate() == old(self).rate(),
            final(self).suffix() == old(self).suffix(),
            ({
                let model = absorb_bytes(
                    old(self).lanes(),
                    old(self).absorbed_count(),
                    old(self).rate(),
                    input@,
                );
                final(self).lanes() == model.0 && final(self).absorbed_count() == model.1
            }),
    {
        let ghost s0 = old(self).lanes();
        let ghost a0 = old(self).absorbed_count();
        let ghost rate = old(self).rate();
        let mut i: usize = 0;
        while i < input.len()
            invariant
                self.wf(),
                self.is_absorbing(),
                self.rate() == rate,
                self.suffix() == old(self).suffix(),
                i <= input@.len(),
                ({
                    let model = absorb_bytes(s0, a0, rate, input@.take(i as int));
                    self.lanes() == model.0 && self.absorbed_count() == model.1
                }),
            decreases input@.len() - i,
        {
            let ghost taken = input@.take(i as int);
            self.xor_state_byte(self.absorbed, input[i]);
            self.absorbed = self.absorbed + 1;
            if self.absorbed == self.rate_in_bytes {
                f1600(&mut self.state);
                self.absorbed = 0;
            }
            proof {
                lemma_absorb_bytes_snoc(s0, a0, rate, taken, input@[i as int]);
                assert(input@.take(i + 1) =~= taken.push(input@[i as int]));
            }
            i += 1;
        }
        proof {
            assert(input@.take(input@.len() as int) =~= input@);
        }
    }

    /// Closes the absorb phase: XORs the suffix at the current offset, the
    /// terminator `0x80` into the last byte of the block, and permutes —
    /// twice when a set top bit of the suffix lands on that same last byte.
    fn pad(&mut self)
        requires
            old(self).wf(),
        ensures
            final(self).wf(),
            final(self).lanes() == pad_lanes(
                old(self).lanes(),
                old(self).absorbed_count(),
                old(self).rate(),
                old(self).suffix(),
            ),
            final(self).rate() == old(self).rate(),
            final(self).suffix() == old(self).suffix(),
            final(self).absorbed_count() == old(self).absorbed_count(),
            final(self).squeezed_count() == old(self).squeezed_count(),
    {
        let suffix = self.delimited_suffix;
        self.xor_state_byte(self.absorbed, suffix);
        if (suffix & 0x80) != 0 && self.absorbed == self.rate_in_bytes - 1 {
            f1600(&mut self.state);
        }
        let last = self.rate_in_bytes - 1;
        self.xor_state_byte(last, 0x80);
        f1600(&mut self.state);
    }

    /// Squeezes `n` keystream bytes. The first squeeze of a session pads
    /// first; after that the stream continues where it left off, permuting
    /// whenever the rate block is exhausted.
    pub fn squeeze(&mut self, n: usize) -> (out: Vec<u8>)
        requires
            old(self).wf(),
        ensures
            final(self).wf(),
            !final(self).is_absorbing(),
            out@.len() == n,
            final(self).rate() == old(self).rate(),
            final(self).suffix() == old(self).suffix(),
            ({
                let start_lanes = if old(self).is_absorbing() {
                    pad_lanes(
                        old(self).lanes(),
                        old(self).absorbed_count(),
                        old(self).rate(),
                        old(self).suffix(),
                    )
                } else {
                    old(self).lanes()
                };
                let start_q = if old(self).is_absorbing() {
                    0int
                } else {
                    old(self).squeezed_count()
                };
                let model = squeeze_bytes(start_lanes, start_q, old(self).rate(), n as nat);
                out@ == model.0 && final(self).lanes() == model.1
                    && final(self).squeezed_count() == model.2
            }),
    {
        if self.squeezed == self.rate_in_bytes {
            self.pad();
            self.squeezed = 0;
        }
        let ghost s0 = self.lanes();
        let ghost q0 = self.squeezed_count();
        let ghost rate = self.rate();
        let mut out: Vec<u8> = Vec::new();
        let mut i: usize = 0;
        while i < n
            invariant
                self.wf(),
                !self.is_absorbing(),
                self.rate() == rate,
                self.suffix() == old(self).suffix(),
                self.absorbed_count() == old(self).absorbed_count(),
                i <= n,
                out@.len() == i,
                ({
                    let model = squeeze_bytes(s0, q0, rate, i as nat);
                    out@ == model.0 && self.lanes() == model.1 && self.squeezed_count() == model.2
                }),
            decreases n - i,
        {
            proof {
                lemma_squeeze_bytes_snoc(s0, q0, rate, i as nat);
            }
            let q = self.squeezed;
            let b = (self.state[q / 8] >> (8 * (q % 8)) as u64) as u8;
            out.push(b);
            self.squeezed = self.squeezed + 1;
            if self.squeezed == self.rate_in_bytes {
                f1600(&mut self.state);
                self.squeezed = 0;
            }
            i += 1;
        }
        out
    }
}

/// The state with `input` XORed in byte by byte from offset `a`, with no
/// permutation anywhere.
pub open spec fn xor_block(s: Seq<u64>, a: int, input: Seq<u8>) -> Seq<u64>
    recommends
        s.len() == 25,
        0 <= a,
        a + input.len() <= 200,
    decreases input.len(),
{
    if input.len() == 0 {
        s
    } else {
        xor_block(xor_byte(s, a, input[0]), a + 1, input.drop_first())
    }
}

/// Rate-boundary law, below the boundary: absorbing too few bytes to fill the
/// block only XORs them in place and advances the offset — the permutation
/// does not run.
pub proof fn lemma_absorb_partial_block(s: Seq<u64>, a: int, rate: int, input: Seq<u8>)
    requires
        0 <= a,
        a + input.len() < rate,
    ensures
        absorb_bytes(s, a, rate, input) == (xor_block(s, a, input), a + input.len()),
    decreases input.len(),
{
    if input.len() == 0 {
        assert(absorb_bytes(s, a, rate, input) =~= (xor_block(s, a, input), a));
    } else {
        lemma_absorb_partial_block(xor_byte(s, a, input[0]), a + 1, rate, input.drop_first());
    }
}

/// Rate-boundary law, at the boundary: absorbing exactly the bytes that fill
/// the block runs the permutation exactly once — on the plainly-XORed block —
/// and resets the absorb offset to 0.
pub proof fn lemma_absorb_full_block(s: Seq<u64>, a: int, rate: int, input: Seq<u8>)
    requires
        0 <= a,
        a + input.len() == rate,
        1 <= input.len(),
    ensures
        absorb_bytes(s, a, rate, input) == (keccak_f(xor_block(s, a, input)), 0int),
    decreases input.len(),
{
    let s2 = xor_byte(s, a, input[0]);
    if input.len() == 1 {
        assert(absorb_bytes(keccak_f(s2), 0, rate, input.drop_first()) =~= (keccak_f(s2), 0int));
        assert(xor_block(s2, a + 1, input.drop_first()) =~= s2);
    } else {
        lemma_absorb_full_block(s2, a + 1, rate, input.drop_first());
    }
}

/// Rate-boundary law, past the boundary: absorbing one byte more than the
/// block holds runs the permutation exactly once mid-stream and leaves one
/// byte pending in the fresh block.
pub proof fn lemma_absorb_block_plus_one(s: Seq<u64>, rate: int, input: Seq<u8>)
    requires
        input.len() == rate + 1,
        2 <= rate,
    ensures
        absorb_bytes(s, 0, rate, input) == (
            xor_byte(keccak_f(xor_block(s, 0, input.take(rate))), 0, input[rate]),
            1int,
        ),
{
    lemma_absorb_bytes_snoc(s, 0, rate, input.take(rate), input[rate]);
    lemma_absorb_full_block(s, 0, rate, input.take(rate));
    assert(input.take(rate).push(input[rate]) =~= input);
    assert(absorb_bytes(s, 0, rate, input) =~= (
        xor_byte(keccak_f(xor_block(s, 0, input.take(rate))), 0, input[rate]),
        1int,
    ));
}

} // verus!
