//! A seeded generator of fractions in `[0, 1)`, driven by an ARC4 keystream
//! in the manner of the `seedrandom` JavaScript library.
use vstd::prelude::*;
use vstd::arithmetic::power2::{pow2, lemma_pow2_adds, lemma_pow2_unfold, lemma_pow2_pos, lemma2_to64, lemma2_to64_rest};
use vstd::arithmetic::div_mod::{lemma_fundamental_div_mod, lemma_fundamental_div_mod_converse};
use crate::cipher::{Arc4, Arc4State, keystream, scheduled, step};

verus! {

/// The most bytes that widening draws. Only a run of over a thousand zero
/// bytes in the keystream could reach it; the fraction is then below `2^-8000`.
pub const DRAW_LIMIT: u32 = 1024;

/// The fraction `numerator / 2^exponent`.
#[derive(Clone, Copy, Debug, PartialEq, Eq)]
pub struct Dyadic {
    pub numerator: u64,
    pub exponent: u32,
}

/// The key buffer after the first `k` bytes of `seed` have been written, each
/// at its index modulo 256, a later byte over an earlier one.
pub open spec fn mixed_prefix(seed: Seq<u8>, k: nat) -> Seq<u8>
    decreases k,
{
    if k == 0 {
        Seq::new(if seed.len() < 256 { seed.len() } else { 256 }, |p: int| 0u8)
    } else {
        mixed_prefix(seed, (k - 1) as nat).update((k - 1) % 256, seed[k - 1])
    }
}

/// The key mixed from `seed`: `min(len, 256)` bytes, byte `i` of the seed at
/// position `i % 256`.
pub open spec fn mixed_key(seed: Seq<u8>) -> Seq<u8> {
    mixed_prefix(seed, seed.len())
}

/// The cipher state right after seeding: the key schedule on the mixed key,
/// followed by 256 discarded keystream bytes.
pub open spec fn seeded_state(seed: Seq<u8>) -> Arc4State {
    keystream(scheduled(mixed_key(seed)), 256).0
}

/// `256^k`.
pub open spec fn pow256(k: nat) -> nat
    decreases k,
{
    if k == 0 {
        1
    } else {
        256 * pow256((k - 1) as nat)
    }
}

/// The big-endian value of `bytes`.
pub open spec fn be_value(bytes: Seq<u8>) -> nat
    decreases bytes.len(),
{
    if bytes.len() == 0 {
        0
    } else {
        be_value(bytes.drop_last()) * 256 + bytes.last() as nat
    }
}

/// Widening: while the numerator has fewer than 52 significant bits, move the
/// pending byte into it, scale numerator and denominator by 256 and draw a new
/// pending byte (at most `DRAW_LIMIT` draws in all).
pub open spec fn widen(s: Arc4State, num: nat, lsb: u8, exp: nat, draws: nat) -> (
    Arc4State,
    nat,
    u8,
    nat,
)
    decreases DRAW_LIMIT - draws,
{
    if num < 0x10_0000_0000_0000 && draws < DRAW_LIMIT {
        let (s1, b) = step(s);
        widen(s1, (num + lsb as nat) * 256, b, exp + 8, draws + 1)
    } else {
        (s, num, lsb, exp)
    }
}

/// Narrowing: while the numerator has more than 53 significant bits, halve
/// numerator, pending byte and denominator; then add the pending byte.
pub open spec fn narrow(num: nat, lsb: nat, exp: nat) -> (nat, nat)
    decreases num,
{
    if num >= 0x20_0000_0000_0000 && exp > 0 {
        narrow(num / 2, lsb / 2, (exp - 1) as nat)
    } else {
        (num + lsb, exp)
    }
}

/// The state after one fraction is drawn from `s`, and that fraction as
/// (numerator, exponent): six bytes big-endian over `2^48`, widened, then
/// narrowed.
#[verifier::opaque]
pub open spec fn next_fraction(s: Arc4State) -> (Arc4State, nat, nat) {
    let (s1, head) = keystream(s, 6);
    let (s2, num, lsb, exp) = widen(s1, be_value(head), 0u8, 48, 0);
    let (n, e) = narrow(num, lsb as nat, exp);
    (s2, n, e)
}

/// Byte `j` of the key written so far is the last byte of the seed written
/// at position `j`: that of index `j + 256 * ((k - 1 - j) / 256)`.
proof fn lemma_mixed_prefix_last(seed: Seq<u8>, k: nat)
    requires
        k <= seed.len(),
    ensures
        mixed_prefix(seed, k).len() == if seed.len() < 256 { seed.len() } else { 256 },
        forall|j: int|
            0 <= j < mixed_prefix(seed, k).len() && j < k ==> #[trigger] mixed_prefix(seed, k)[j]
                == seed[j + 256 * ((k - 1 - j) / 256)],
    decreases k,
{
    if k > 0 {
        let k1 = (k - 1) as nat;
        lemma_mixed_prefix_last(seed, k1);
        let prev = mixed_prefix(seed, k1);
        let cur = mixed_prefix(seed, k);
        let slot = k1 % 256;
        lemma_fundamental_div_mod(k1 as int, 256);
        assert forall|j: int| 0 <= j < cur.len() && j < k implies #[trigger] cur[j] == seed[j + 256
            * ((k - 1 - j) / 256)] by {
            let m = k1 - j;
            if j == slot {
                lemma_fundamental_div_mod_converse(m, 256, k1 as int / 256, 0);
            } else {
                assert(j < k1);
                lemma_fundamental_div_mod(m - 1, 256);
                let q = (m - 1) / 256;
                let r = (m - 1) % 256;
                if r == 255 {
                    lemma_fundamental_div_mod_converse(k1 as int, 256, q + 1, j);
                }
                assert(r != 255);
                lemma_fundamental_div_mod_converse(m, 256, q, r + 1);
                assert(cur[j] == prev[j]);
            }
        }
    }
}

/// Mixes a seed into a key of at most 256 bytes: byte `i` of the seed goes to
/// position `i % 256`, so that later bytes overwrite earlier ones.
pub fn mixkey(key: &[u8]) -> (r: Vec<u8>)
    ensures
        r@ == mixed_key(key@),
        r@.len() == if key@.len() < 256 { key@.len() } else { 256 },
        forall|j: int|
            0 <= j < r@.len() ==> #[trigger] r@[j] == key@[j + 256 * ((key@.len() - 1 - j) / 256)],
{
    let n: usize = if key.len() < 256 { key.len() } else { 256 };
    let mut out: Vec<u8> = Vec::new();
    while out.len() < n
        invariant
            out@.len() <= n,
            n == if key@.len() < 256 { key@.len() } else { 256 },
            forall|p: int| 0 <= p < out@.len() ==> out@[p] == 0u8,
        decreases n - out@.len(),
    {
        out.push(0);
    }
    assert(out@ =~= mixed_prefix(key@, 0));
    let mut i: usize = 0;
    while i < key.len()
        invariant
            i <= key@.len(),
            out@ == mixed_prefix(key@, i as nat),
            out@.len() == n,
            n == if key@.len() < 256 { key@.len() } else { 256 },
        decreases key@.len() - i,
    {
        out.set(i % 256, key[i]);
        i = i + 1;
    }
    proof {
        lemma_mixed_prefix_last(key@, key@.len());
    }
    out
}

/// A generator of fractions in `[0, 1)` over an ARC4 keystream.
pub struct Prng {
    cipher: Arc4,
}

impl Prng {
    /// The state of the underlying keystream.
    pub closed spec fn state(&self) -> Arc4State {
        self.cipher@
    }

    pub closed spec fn wf(&self) -> bool {
        self.cipher.wf()
    }

    /// Seeds the generator: mixes the seed into a key, schedules the cipher on
    /// it and discards the first 256 keystream bytes.
    pub fn with_seed(seed: &[u8]) -> (r: Self)
        requires
            0 < seed@.len(),
        ensures
            r.wf(),
            r.state() == seeded_state(seed@),
    {
        let key = mixkey(seed);
        let mut cipher = Arc4::with_key(key.as_slice());
        let _dropped = cipher.generate(256);
        Prng { cipher }
    }

    /// Draws a 48-bit integer from six keystream bytes, most significant first.
    pub fn rand48(&mut self) -> (r: u64)
        requires
            old(self).wf(),
        ensures
            final(self).wf(),
            final(self).state() == keystream(old(self).state(), 6).0,
            r as nat == be_value(keystream(old(self).state(), 6).1),
            r < 0x1_0000_0000_0000,
    {
        let bytes = self.cipher.generate(6);
        let mut r: u64 = 0;
        let mut k: usize = 0;
        while k < 6
            invariant
                k <= 6,
                bytes@.len() == 6,
                r as nat == be_value(bytes@.take(k as int)),
                r < pow256(k as nat),
            decreases 6 - k,
        {
            proof {
                assert(bytes@.take(k + 1).drop_last() =~= bytes@.take(k as int));
                reveal_with_fuel(pow256, 6);
                assert(pow256(k as nat) <= 0x100_0000_0000);
                assert(r * 256 + bytes@[k as int] < pow256(k as nat) * 256) by (nonlinear_arith)
                    requires r < pow256(k as nat), bytes@[k as int] < 256;
            }
            r = r * 256 + bytes[k] as u64;
            k = k + 1;
        }
        proof {
            reveal_with_fuel(pow256, 7);
            assert(bytes@.take(6) =~= bytes@);
        }
        r
    }

    /// Draws one keystream byte.
    pub fn rand8(&mut self) -> (r: u8)
        requires
            old(self).wf(),
        ensures
            final(self).wf(),
            (final(self).state(), r) == step(old(self).state()),
    {
        let bytes = self.cipher.generate(1);
        proof {
            reveal_with_fuel(keystream, 2);
        }
        bytes[0]
    }

    /// Draws a fraction in `[0, 1)`: six keystream bytes, most significant
    /// first, over `2^48`; widened by one byte at a time until the numerator
    /// has 52 significant bits; then narrowed to 53 bits, so that it converts
    /// exactly to a double. The numerator then has 53 significant bits, save
    /// where widening stopped at `DRAW_LIMIT` draws: that takes over a thousand
    /// zero keystream bytes in a row, where the loop would otherwise not end,
    /// and leaves the exponent at `48 + 8 * DRAW_LIMIT`.
    pub fn rand(&mut self) -> (r: Dyadic)
        requires
            old(self).wf(),
        ensures
            final(self).wf(),
            (final(self).state(), r.numerator as nat, r.exponent as nat) == next_fraction(
                old(self).state(),
            ),
            r.numerator < pow2(r.exponent as nat),
            r.numerator < 0x20_0000_0000_0000,
            r.numerator >= 0x10_0000_0000_0000 || r.exponent == 48 + 8 * DRAW_LIMIT,
    {
        let mut numerator: u64 = self.rand48();
        let ghost s1 = self.state();
        let ghost n0 = numerator as nat;
        let mut exponent: u32 = 48;
        let mut lsb: u8 = 0;
        let mut draws: u32 = 0;
        proof {
            lemma2_to64();
            lemma2_to64_rest();
        }
        while numerator < 0x10_0000_0000_0000 && draws < DRAW_LIMIT
            invariant
                self.wf(),
                draws <= DRAW_LIMIT,
                exponent == 48 + 8 * draws,
                numerator < 0x2000_0000_0000_0000,
                numerator + lsb < pow2(exponent as nat),
                draws > 0 ==> numerator % 256 == 0,
                draws == 0 ==> numerator < 0x10_0000_0000_0000,
                widen(self.state(), numerator as nat, lsb, exponent as nat, draws as nat) == widen(
                    s1, n0, 0u8, 48, 0),
            decreases DRAW_LIMIT - draws,
        {
            proof {
                lemma2_to64();
                lemma_pow2_adds(exponent as nat, 8);
                assert((numerator + lsb) * 256 + 255 < pow2(exponent as nat) * 256) by (nonlinear_arith)
                    requires numerator + lsb < pow2(exponent as nat);
            }
            numerator = (numerator + lsb as u64) * 256;
            exponent = exponent + 8;
            lsb = self.rand8();
            draws = draws + 1;
        }
        // The numerator is a multiple of `m = 2^k` and the pending byte is
        // below `m`, so that their sum stays below `2^53`.
        let ghost mut k: nat = 8;
        let ghost q: nat = (numerator / 256) as nat;
        proof {
            lemma_fundamental_div_mod(numerator as int, 256);
            lemma_pow2_adds(8, 45);
        }
        while numerator >= 0x20_0000_0000_0000 && exponent > 0
            invariant
                k <= 8,
                numerator == pow2(k) * q,
                lsb < pow2(k),
                numerator < pow2(k) * 0x20_0000_0000_0000,
                pow2(53) == pow2(k) * pow2((53 - k) as nat),
                numerator >= 0x10_0000_0000_0000 || exponent == 48 + 8 * DRAW_LIMIT,
                numerator + lsb < pow2(exponent as nat),
                narrow(numerator as nat, lsb as nat, exponent as nat) == narrow(
                    widen(s1, n0, 0u8, 48, 0).1, widen(s1, n0, 0u8, 48, 0).2 as nat,
                    widen(s1, n0, 0u8, 48, 0).3),
            decreases numerator,
        {
            proof {
                lemma_pow2_unfold(exponent as nat);
                lemma2_to64();
                if k == 0 {
                    assert(false);
                }
                lemma_pow2_unfold(k);
                lemma_pow2_adds((k - 1) as nat, (53 - k + 1) as nat);
                lemma_pow2_unfold((53 - k + 1) as nat);
                let m2 = pow2((k - 1) as nat);
                assert(numerator == 2 * (m2 * q)) by (nonlinear_arith)
                    requires numerator == (2 * m2) * q;
                k = (k - 1) as nat;
            }
            numerator = numerator / 2;
            lsb = lsb / 2;
            exponent = exponent - 1;
        }
        proof {
            lemma2_to64();
            let m = pow2(k);
            let p = pow2((53 - k) as nat);
            assert(m * q + m <= m * p) by (nonlinear_arith)
                requires m * q < m * p, m >= 1;
        }
        proof {
            reveal(next_fraction);
        }
        Dyadic { numerator: numerator + lsb as u64, exponent }
    }
}

} // verus!
