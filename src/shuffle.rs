//! A seeded shuffle of a sequence and its exact inverse.
use vstd::prelude::*;
use vstd::arithmetic::power2::{pow2, lemma_pow2_unfold};
use vstd::arithmetic::div_mod::{lemma_div_denominator, lemma_fundamental_div_mod};
use crate::cipher::Arc4State;
use crate::prng::{Dyadic, Prng, next_fraction, seeded_state};

verus! {

/// The weight of the last of 53 significant bits of `p`: `2^g` for the least
/// `g` with `p / 2^g < 2^53`.
pub open spec fn grain(p: nat) -> nat
    decreases p,
{
    if p < 0x20_0000_0000_0000 {
        1
    } else {
        2 * grain(p / 2)
    }
}

/// `p` rounded to a multiple of `d`: to the nearest, a tie to the even multiple.
pub open spec fn round_to(p: nat, d: nat) -> nat {
    let q = p / d;
    let r = p % d;
    if 2 * r > d || (2 * r == d && q % 2 == 1) {
        (q + 1) * d
    } else {
        q * d
    }
}

/// The index that a fraction `num / 2^exp` picks in a list of `len` items:
/// the floor of the fraction times `len`, the product rounded to 53
/// significant bits as a double product is. The bound at `len - 1` keeps the
/// definition total; `lemma_draw_index_in_range` shows that it never applies
/// to a fraction that `Prng::rand` draws.
pub open spec fn draw_index(num: nat, exp: nat, len: nat) -> nat {
    let p = num * len;
    let q = round_to(p, grain(p)) / pow2(exp);
    if q < len {
        q
    } else {
        (len - 1) as nat
    }
}

/// A grain above 1 is even and at most `p / 2^52`.
proof fn lemma_grain_bounds(p: nat)
    ensures
        grain(p) >= 1,
        grain(p) == 1 || (grain(p) % 2 == 0 && grain(p) * 0x10_0000_0000_0000 <= p),
    decreases p,
{
    if p >= 0x20_0000_0000_0000 {
        lemma_grain_bounds(p / 2);
    }
}

/// Rounding to the nearest multiple of `d` adds at most `d / 2`.
proof fn lemma_round_to_bound(p: nat, d: nat)
    requires
        d >= 1,
    ensures
        2 * round_to(p, d) <= 2 * p + d,
{
    lemma_fundamental_div_mod(p as int, d as int);
    let q = p / d;
    let r = p % d;
    assert((q + 1) * d == q * d + d && q * d + r == p) by (nonlinear_arith)
        requires p == d * q + r;
}

/// For a fraction below 1 with at most 53 significant bits, the rounded
/// product with `len` stays below `len`: the bound in `draw_index` never
/// applies to it.
pub proof fn lemma_draw_index_in_range(num: nat, exp: nat, len: nat)
    requires
        0 < len,
        num < pow2(exp),
        num < 0x20_0000_0000_0000,
    ensures
        round_to(num * len, grain(num * len)) / pow2(exp) < len,
        draw_index(num, exp, len) == round_to(num * len, grain(num * len)) / pow2(exp),
{
    let p = num * len;
    let g = grain(p);
    let d = pow2(exp);
    let x = round_to(p, g);
    lemma_grain_bounds(p);
    lemma_round_to_bound(p, g);
    assert(p + len <= len * d) by (nonlinear_arith)
        requires p == num * len, num + 1 <= d;
    assert(g < 2 * len) by (nonlinear_arith)
        requires
            g == 1 || g * 0x10_0000_0000_0000 <= p,
            p == num * len,
            num < 0x20_0000_0000_0000,
            len >= 1;
    assert(x < len * d);
    vstd::arithmetic::power2::lemma_pow2_pos(exp);
    lemma_fundamental_div_mod(x as int, d as int);
    assert(x / d < len) by (nonlinear_arith)
        requires x == d * (x / d) + x % d, x % d >= 0, x < len * d, d > 0;
}

/// The order in which a draw without replacement takes the items of `keys`,
/// with fractions drawn from the keystream state `s`.
pub open spec fn pick_order(s: Arc4State, keys: Seq<usize>) -> Seq<usize>
    decreases keys.len(),
{
    if keys.len() == 0 {
        Seq::empty()
    } else {
        let (s1, num, exp) = next_fraction(s);
        let i = draw_index(num, exp, keys.len()) as int;
        seq![keys[i]] + pick_order(s1, keys.remove(i))
    }
}

/// The indices `0..n` in order.
pub open spec fn index_range(n: nat) -> Seq<usize> {
    Seq::new(n, |k: int| k as usize)
}

/// The permutation of `0..n` that `seed` selects: entry `k` is the index of
/// the item that goes to position `k`.
pub open spec fn permutation(seed: Seq<u8>, n: nat) -> Seq<usize> {
    pick_order(seeded_state(seed), index_range(n))
}

/// The position at which `perm` holds `j`.
pub open spec fn position(perm: Seq<usize>, j: int) -> int {
    choose|k: int| 0 <= k < perm.len() && perm[k] == j
}

/// `x` shuffled with `seed`: item `permutation[k]` of `x` at position `k`.
pub open spec fn shuffled<T>(x: Seq<T>, seed: Seq<u8>) -> Seq<T> {
    Seq::new(x.len(), |k: int| x[permutation(seed, x.len())[k] as int])
}

/// `x` unshuffled with `seed`: item `k` of `x` at position `permutation[k]`.
pub open spec fn unshuffled<T>(x: Seq<T>, seed: Seq<u8>) -> Seq<T> {
    Seq::new(x.len(), |j: int| x[position(permutation(seed, x.len()), j)])
}

/// A draw without replacement takes every key once and nothing else.
pub proof fn lemma_pick_order_permutes(s: Arc4State, keys: Seq<usize>)
    ensures
        pick_order(s, keys).len() == keys.len(),
        forall|v: usize| pick_order(s, keys).contains(v) <==> keys.contains(v),
        keys.no_duplicates() ==> pick_order(s, keys).no_duplicates(),
    decreases keys.len(),
{
    if keys.len() > 0 {
        let (s1, num, exp) = next_fraction(s);
        let i = draw_index(num, exp, keys.len()) as int;
        let rest = keys.remove(i);
        lemma_pick_order_permutes(s1, rest);
        let tail = pick_order(s1, rest);
        let r = pick_order(s, keys);
        assert(r == seq![keys[i]] + tail);
        assert forall|v: usize| r.contains(v) <==> keys.contains(v) by {
            if keys.contains(v) {
                let j = choose|j: int| 0 <= j < keys.len() && keys[j] == v;
                if j == i {
                    assert(r[0] == v);
                } else {
                    let m = if j < i { j } else { j - 1 };
                    assert(rest[m] == v);
                    assert(rest.contains(v));
                    assert(tail.contains(v));
                    let t = choose|t: int| 0 <= t < tail.len() && tail[t] == v;
                    assert(r[t + 1] == v);
                }
            }
            if r.contains(v) {
                let t = choose|t: int| 0 <= t < r.len() && r[t] == v;
                if t == 0 {
                    assert(keys[i] == v);
                } else {
                    assert(tail[t - 1] == v);
                    assert(rest.contains(v));
                    let m = choose|m: int| 0 <= m < rest.len() && rest[m] == v;
                    if m < i {
                        assert(keys[m] == v);
                    } else {
                        assert(keys[m + 1] == v);
                    }
                }
            }
        }
        if keys.no_duplicates() {
            assert(rest.no_duplicates()) by {
                assert forall|a: int, b: int| 0 <= a < b < rest.len() implies rest[a] != rest[b] by {
                    let a2 = if a < i { a } else { a + 1 };
                    let b2 = if b < i { b } else { b + 1 };
                    assert(rest[a] == keys[a2] && rest[b] == keys[b2]);
                }
            }
            assert(!rest.contains(keys[i])) by {
                if rest.contains(keys[i]) {
                    let m = choose|m: int| 0 <= m < rest.len() && rest[m] == keys[i];
                    if m < i {
                        assert(keys[m] == keys[i]);
                    } else {
                        assert(keys[m + 1] == keys[i]);
                    }
                }
            }
            assert forall|a: int, b: int| 0 <= a < b < r.len() implies r[a] != r[b] by {
                if a == 0 {
                    assert(r[b] == tail[b - 1]);
                    assert(tail.contains(r[b]));
                } else {
                    assert(r[a] == tail[a - 1] && r[b] == tail[b - 1]);
                }
            }
        }
    }
}

/// The permutation that a seed selects holds each of `0..n` exactly once.
pub proof fn lemma_permutation_is_bijection(seed: Seq<u8>, n: nat)
    requires
        n <= usize::MAX,
    ensures
        permutation(seed, n).len() == n,
        permutation(seed, n).no_duplicates(),
        forall|k: int| 0 <= k < n ==> permutation(seed, n)[k] < n,
        forall|j: usize| j < n ==> #[trigger] permutation(seed, n).contains(j),
{
    let ids = index_range(n);
    assert forall|a: int, b: int| 0 <= a < b < ids.len() implies ids[a] != ids[b] by {}
    lemma_pick_order_permutes(seeded_state(seed), ids);
    let perm = permutation(seed, n);
    assert forall|k: int| 0 <= k < n implies perm[k] < n by {
        assert(perm.contains(perm[k]));
        assert(ids.contains(perm[k]));
    }
    assert forall|j: usize| j < n implies #[trigger] perm.contains(j) by {
        assert(ids[j as int] == j);
        assert(ids.contains(j));
    }
}

/// The index that the fraction `d` picks in a list of `len` items: the floor
/// of `d * len`, with the product rounded as a double product is.
pub fn scaled_index(d: Dyadic, len: usize) -> (r: usize)
    requires
        0 < len,
        d.numerator < 0x20_0000_0000_0000,
        d.numerator < pow2(d.exponent as nat),
    ensures
        r as nat == draw_index(d.numerator as nat, d.exponent as nat, len as nat),
        r < len,
{
    proof {
        assert(d.numerator * len < 0x200_0000_0000_0000_0000_0000_0000_0000) by (nonlinear_arith)
            requires d.numerator < 0x20_0000_0000_0000, len < 0x1_0000_0000_0000_0000;
    }
    let p: u128 = d.numerator as u128 * len as u128;
    let mut t: u128 = p;
    let mut g: u128 = 1;
    while t >= 0x20_0000_0000_0000
        invariant
            grain(t as nat) * g == grain(p as nat),
            t * g <= p,
            1 <= g,
            p > 0 ==> t > 0,
            p < 0x200_0000_0000_0000_0000_0000_0000_0000,
        decreases t,
    {
        proof {
            assert((t / 2) * (2 * g) <= t * g) by (nonlinear_arith)
                requires 1 <= g;
            assert(2 * g <= t * g) by (nonlinear_arith)
                requires t >= 2, 1 <= g;
            assert(grain((t / 2) as nat) * (2 * g) == (2 * grain((t / 2) as nat)) * g) by (nonlinear_arith);
        }
        t = t / 2;
        g = g * 2;
    }
    assert(grain(t as nat) == 1);
    assert(g == grain(p as nat)) by (nonlinear_arith)
        requires grain(t as nat) * g == grain(p as nat), grain(t as nat) == 1;
    let q: u128 = p / g;
    let rem: u128 = p % g;
    proof {
        assert(q * g <= p) by (nonlinear_arith)
            requires q == p / g, g >= 1;
        assert(g <= p || p == 0) by (nonlinear_arith)
            requires t * g <= p, p > 0 ==> t > 0, g >= 1;
        assert((q + 1) * g <= 2 * p || p == 0) by (nonlinear_arith)
            requires q * g <= p, g <= p || p == 0;
    }
    let rounded: u128 = if 2 * rem > g || (2 * rem == g && q % 2 == 1) {
        (q + 1) * g
    } else {
        q * g
    };
    assert(rounded as nat == round_to(p as nat, grain(p as nat)));
    let mut x: u128 = rounded;
    let mut k: u32 = 0;
    proof {
        vstd::arithmetic::power2::lemma2_to64();
    }
    while k < d.exponent
        invariant
            k <= d.exponent,
            x as nat == rounded as nat / pow2(k as nat),
        decreases d.exponent - k,
    {
        proof {
            lemma_pow2_unfold((k + 1) as nat);
            vstd::arithmetic::power2::lemma_pow2_pos(k as nat);
            lemma_div_denominator(rounded as int, pow2(k as nat) as int, 2);
        }
        x = x / 2;
        k = k + 1;
    }
    proof {
        lemma_draw_index_in_range(d.numerator as nat, d.exponent as nat, len as nat);
    }
    x as usize
}

/// Takes an item of `arr` out at the index that the generator's next fraction
/// picks, and returns it.
pub fn pop_rand(arr: &mut Vec<usize>, prng: &mut Prng) -> (r: usize)
    requires
        0 < old(arr)@.len(),
        old(prng).wf(),
    ensures
        final(prng).wf(),
        ({
            let (s1, num, exp) = next_fraction(old(prng).state());
            let i = draw_index(num, exp, old(arr)@.len()) as int;
            &&& final(prng).state() == s1
            &&& r == old(arr)@[i]
            &&& final(arr)@ == old(arr)@.remove(i)
        }),
{
    let d = prng.rand();
    let i = scaled_index(d, arr.len());
    arr.remove(i)
}

/// Unshuffling with a seed undoes shuffling with the same seed.
pub proof fn lemma_unshuffle_shuffle<T>(x: Seq<T>, seed: Seq<u8>)
    requires
        x.len() <= usize::MAX,
    ensures
        unshuffled(shuffled(x, seed), seed) == x,
{
    let n = x.len();
    lemma_permutation_is_bijection(seed, n);
    let p = permutation(seed, n);
    let y = shuffled(x, seed);
    assert forall|j: int| 0 <= j < n implies unshuffled(y, seed)[j] == x[j] by {
        assert(p.contains(j as usize));
        let k = position(p, j);
        assert(0 <= k < n && p[k] == j);
        assert(y[k] == x[p[k] as int]);
    }
    assert(unshuffled(y, seed) =~= x);
}

/// Shuffling with a seed undoes unshuffling with the same seed.
pub proof fn lemma_shuffle_unshuffle<T>(x: Seq<T>, seed: Seq<u8>)
    requires
        x.len() <= usize::MAX,
    ensures
        shuffled(unshuffled(x, seed), seed) == x,
{
    let n = x.len();
    lemma_permutation_is_bijection(seed, n);
    let p = permutation(seed, n);
    let u = unshuffled(x, seed);
    assert forall|k: int| 0 <= k < n implies shuffled(u, seed)[k] == x[k] by {
        let j = p[k] as int;
        assert(p.contains(j as usize));
        let k2 = position(p, j);
        assert(0 <= k2 < n && p[k2] == j);
        assert(k2 == k);
    }
    assert(shuffled(u, seed) =~= x);
}

/// A shuffle puts every item of its input at exactly one position: it is the
/// input reindexed by a bijection of `0..n`.
pub proof fn lemma_shuffle_is_permutation<T>(x: Seq<T>, seed: Seq<u8>)
    requires
        x.len() <= usize::MAX,
    ensures
        shuffled(x, seed).len() == x.len(),
        permutation(seed, x.len()).no_duplicates(),
        forall|k: int| 0 <= k < x.len() ==> permutation(seed, x.len())[k] < x.len(),
        forall|j: usize| j < x.len() ==> #[trigger] permutation(seed, x.len()).contains(j),
        forall|k: int|
            0 <= k < x.len() ==> #[trigger] shuffled(x, seed)[k] == x[permutation(
                seed,
                x.len(),
            )[k] as int],
{
    lemma_permutation_is_bijection(seed, x.len());
}

/// The list `0, 1, ..., n - 1`.
pub(crate) fn index_list(n: usize) -> (r: Vec<usize>)
    ensures
        r@ == index_range(n as nat),
{
    let mut r: Vec<usize> = Vec::new();
    while r.len() < n
        invariant
            r@.len() <= n,
            forall|m: int| 0 <= m < r@.len() ==> r@[m] == m as usize,
        decreases n - r@.len(),
    {
        r.push(r.len());
    }
    assert(r@ =~= index_range(n as nat));
    r
}

/// Items of `s.remove(i)` are items of `s`.
proof fn lemma_remove_below(s: Seq<usize>, i: int, n: nat)
    requires
        0 <= i < s.len(),
        forall|m: int| 0 <= m < s.len() ==> s[m] < n,
    ensures
        forall|m: int| 0 <= m < s.remove(i).len() ==> s.remove(i)[m] < n,
{
    assert forall|m: int| 0 <= m < s.remove(i).len() implies s.remove(i)[m] < n by {
        if m < i {
            assert(s.remove(i)[m] == s[m]);
        } else {
            assert(s.remove(i)[m] == s[m + 1]);
        }
    }
}

/// Shuffles `arr` with `seed`: draws the items one at a time, each at the
/// index that the generator picks among those left.
pub fn shuffle<T: Copy>(arr: &[T], seed: &[u8]) -> (r: Vec<T>)
    requires
        0 < seed@.len(),
    ensures
        r@ == shuffled(arr@, seed@),
{
    let n = arr.len();
    let mut prng = Prng::with_seed(seed);
    let mut keys = index_list(n);
    let ghost order = permutation(seed@, n as nat);
    let ghost mut picked: Seq<usize> = Seq::empty();
    let mut out: Vec<T> = Vec::new();
    assert(picked + pick_order(prng.state(), keys@) =~= order);
    while out.len() < n
        invariant
            n == arr@.len(),
            order == permutation(seed@, n as nat),
            prng.wf(),
            out@.len() + keys@.len() == n,
            picked.len() == out@.len(),
            picked + pick_order(prng.state(), keys@) == order,
            forall|m: int| 0 <= m < out@.len() ==> out@[m] == arr@[picked[m] as int],
            forall|m: int| 0 <= m < keys@.len() ==> keys@[m] < n,
        decreases n - out@.len(),
    {
        let ghost before = keys@;
        let ghost s0 = prng.state();
        let idx = pop_rand(&mut keys, &mut prng);
        proof {
            let (s1, num, exp) = next_fraction(s0);
            let i = draw_index(num, exp, before.len()) as int;
            lemma_remove_below(before, i, n as nat);
            assert(pick_order(s0, before) == seq![idx] + pick_order(prng.state(), keys@));
            assert(picked.push(idx) + pick_order(prng.state(), keys@) =~= picked + pick_order(
                s0,
                before,
            ));
            picked = picked.push(idx);
        }
        out.push(arr[idx]);
    }
    proof {
        assert(picked =~= order);
        assert(out@ =~= shuffled(arr@, seed@));
    }
    out
}

/// Unshuffles `arr` with `seed`: draws positions as `shuffle` draws items, and
/// puts the items of `arr`, in order, at the positions drawn.
pub fn unshuffle<T: Copy>(arr: &[T], seed: &[u8]) -> (r: Vec<T>)
    requires
        0 < seed@.len(),
    ensures
        r@ == unshuffled(arr@, seed@),
{
    let n = arr.len();
    let mut prng = Prng::with_seed(seed);
    let mut keys = index_list(n);
    let ghost order = permutation(seed@, n as nat);
    let ghost mut picked: Seq<usize> = Seq::empty();
    proof {
        lemma_permutation_is_bijection(seed@, n as nat);
    }
    let mut res: Vec<T> = Vec::new();
    while res.len() < n
        invariant
            n == arr@.len(),
            res@.len() <= n,
        decreases n - res@.len(),
    {
        res.push(arr[res.len()]);
    }
    let mut k: usize = 0;
    assert(picked + pick_order(prng.state(), keys@) =~= order);
    while k < n
        invariant
            n == arr@.len(),
            order == permutation(seed@, n as nat),
            order.len() == n,
            order.no_duplicates(),
            forall|m: int| 0 <= m < n ==> order[m] < n,
            prng.wf(),
            res@.len() == n,
            k + keys@.len() == n,
            picked.len() == k,
            picked + pick_order(prng.state(), keys@) == order,
            forall|m: int| 0 <= m < k ==> res@[picked[m] as int] == arr@[m],
            forall|m: int| 0 <= m < keys@.len() ==> keys@[m] < n,
        decreases n - k,
    {
        let ghost before = keys@;
        let ghost s0 = prng.state();
        let ghost res0 = res@;
        let idx = pop_rand(&mut keys, &mut prng);
        proof {
            let (s1, num, exp) = next_fraction(s0);
            let i = draw_index(num, exp, before.len()) as int;
            lemma_remove_below(before, i, n as nat);
            assert(pick_order(s0, before) == seq![idx] + pick_order(prng.state(), keys@));
            assert(picked.push(idx) + pick_order(prng.state(), keys@) =~= picked + pick_order(
                s0,
                before,
            ));
            assert(order[k as int] == idx);
            assert forall|m: int| 0 <= m < k implies picked[m] != idx by {
                assert(order[m] == picked[m]);
            }
            picked = picked.push(idx);
        }
        res.set(idx, arr[k]);
        proof {
            assert forall|m: int| 0 <= m < k + 1 implies res@[picked[m] as int] == arr@[m] by {
                assert(order[m] == picked[m]);
                if m < k {
                    assert(res@[picked[m] as int] == res0[picked[m] as int]);
                }
            }
        }
        k = k + 1;
    }
    proof {
        assert(picked =~= order);
        assert forall|j: int| 0 <= j < n implies res@[j] == unshuffled(arr@, seed@)[j] by {
            assert(order.contains(j as usize));
            let m = position(order, j);
            assert(0 <= m < n && order[m] == j);
        }
        assert(res@ =~= unshuffled(arr@, seed@));
    }
    res
}

} // verus!
