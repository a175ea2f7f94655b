//! Pseudo-random number generation, the Luby restart schedule, and shuffling.

use rand::RngExt;
use rand::seq::IndexedRandom;
use rand::SeedableRng;
use rand_xoshiro::Xoshiro256PlusPlus;
use vstd::prelude::*;
use vstd::arithmetic::power2::{lemma2_to64, lemma_pow2_pos, lemma_pow2_unfold, pow2};
use vstd::bits::{lemma_u64_low_bits_mask_is_mod, lemma_u64_pow2_no_overflow, lemma_u64_shl_is_mul};

verus! {

#[verifier::external_type_specification]
#[verifier::external_body]
pub struct ExXoshiro256PlusPlus(Xoshiro256PlusPlus);

/// PRNG type used throughout the solver.
pub type SolverRng = Xoshiro256PlusPlus;

/// Constructs a PRNG seeded with `seed` (`SeedableRng::seed_from_u64`).
/// Nothing is stated of the generator's internal state.
#[verifier::external_body]
pub fn make_rng(seed: u64) -> SolverRng {
    Xoshiro256PlusPlus::seed_from_u64(seed)
}

/// Draws a uniformly distributed index in `0..=hi` (`RngExt::random_range`
/// on an inclusive range). The contract claims only that the index lies in
/// the range; which index comes back depends on the generator's state.
#[verifier::external_body]
fn random_index(rng: &mut SolverRng, hi: usize) -> (j: usize)
    ensures
        j <= hi,
{
    rng.random_range(0..=hi)
}

/// Draws a uniformly distributed integer in `lo..=hi`
/// (`RngExt::random_range` on an inclusive range). The contract claims
/// only that it lies in the range.
#[verifier::external_body]
pub(crate) fn random_between(rng: &mut SolverRng, lo: usize, hi: usize) -> (r: usize)
    requires
        lo <= hi,
    ensures
        lo <= r <= hi,
{
    rng.random_range(lo..=hi)
}

/// Draws a uniformly distributed byte in `lo..=hi` (`RngExt::random_range`
/// on an inclusive `u8` range). The contract claims only that it lies in
/// the range.
#[verifier::external_body]
pub(crate) fn random_byte_between(rng: &mut SolverRng, lo: u8, hi: u8) -> (r: u8)
    requires
        lo <= hi,
    ensures
        lo <= r <= hi,
{
    rng.random_range(lo..=hi)
}

/// Draws a uniformly distributed integer in `0..n` (`RngExt::random_range`
/// on a half-open range, which panics when empty). The contract claims
/// only that it lies in the range.
#[verifier::external_body]
pub(crate) fn random_below(rng: &mut SolverRng, n: usize) -> (r: usize)
    requires
        n > 0,
    ensures
        r < n,
{
    rng.random_range(0..n)
}

/// Picks one element of a non-empty slice at random
/// (`IndexedRandom::choose`). The contract claims only that the result is
/// one of the slice's elements.
#[verifier::external_body]
pub(crate) fn choose_from<'a, T>(items: &'a [T], rng: &mut SolverRng) -> (r: &'a T)
    requires
        items@.len() > 0,
    ensures
        items@.contains(*r),
{
    items.choose(rng).unwrap()
}

/// Picks `amount` elements of a slice at random, without repetition, in
/// random order (`IndexedRandom::sample`). The contract claims that the
/// result has `amount` elements of the slice, and no element twice where
/// the slice has none twice; which ones, and their order, is not stated.
#[verifier::external_body]
pub(crate) fn sample_from<T: Copy>(items: &[T], rng: &mut SolverRng, amount: usize) -> (r: Vec<T>)
    requires
        amount <= items@.len(),
    ensures
        r@.len() == amount,
        forall|k: int| 0 <= k < r@.len() ==> items@.contains(#[trigger] r@[k]),
        items@.no_duplicates() ==> r@.no_duplicates(),
{
    items.sample(rng, amount).copied().collect()
}

/// Draws a `u64` from system entropy (`rand::random`).
/// Nothing is stated of the value.
#[verifier::external_body]
pub(crate) fn entropy_seed() -> u64 {
    rand::random::<u64>()
}

/// Swaps two slice elements (`<[T]>::swap`).
#[verifier::external_body]
pub(crate) fn slice_swap<T>(arr: &mut [T], i: usize, j: usize)
    requires
        i < old(arr)@.len(),
        j < old(arr)@.len(),
    ensures
        final(arr)@ == old(arr)@.update(i as int, old(arr)@[j as int]).update(
            j as int,
            old(arr)@[i as int],
        ),
{
    arr.swap(i, j)
}

/// `p` is a permutation of `0..n`.
pub open spec fn is_permutation(p: Seq<int>, n: int) -> bool {
    &&& p.len() == n
    &&& forall|k: int| 0 <= k < n ==> 0 <= #[trigger] p[k] < n
    &&& forall|a: int, b: int| 0 <= a < b < n ==> #[trigger] p[a] != #[trigger] p[b]
}

/// `after` is a rearrangement of `before`.
pub open spec fn is_rearrangement<T>(before: Seq<T>, after: Seq<T>) -> bool {
    exists|p: Seq<int>|
        is_permutation(p, before.len() as int) && after.len() == before.len() && forall|k: int|
            0 <= k < after.len() ==> after[k] == before[#[trigger] p[k]]
}

/// One step of the Luby state machine (Knuth's formulation): when `v`
/// has reached the lowest set bit of `u`, a new block starts with `u + 1`
/// and `v = 1`; otherwise `v` doubles.
pub open spec fn luby_step(u: int, v: int) -> (int, int) {
    if (u as u64) & 0u64.wrapping_sub(u as u64) == v {
        (u + 1, 1)
    } else {
        (u, 2 * v)
    }
}

/// The Luby state `(u, v)` after `n` steps from `(1, 1)`.
pub open spec fn luby_state(n: nat) -> (int, int)
    decreases n,
{
    if n == 0 {
        (1, 1)
    } else {
        let prev = luby_state((n - 1) as nat);
        luby_step(prev.0, prev.1)
    }
}

/// The `n`-th term (0-indexed) of the Luby sequence.
pub open spec fn luby_term(n: nat) -> int {
    luby_state(n).1
}

/// Every term of the Luby sequence is at least 1, and the sequence starts
/// with 1 from the state `(1, 1)`, moving to `(2, 1)`.
pub proof fn lemma_luby_positive(n: nat)
    ensures
        luby_term(n) >= 1,
        luby_term(0) == 1,
        luby_state(1) == (2int, 1int),
    decreases n,
{
    if n > 0 {
        lemma_luby_positive((n - 1) as nat);
    }
    assert(1u64 & 0u64.wrapping_sub(1u64) == 1u64) by (bit_vector);
}

/// For `u` whose lowest `k` bits are clear, `u & -u` (its lowest set
/// bit) is bit `k` exactly when bit `k` of `u` is set.
proof fn lemma_lowest_bit(u: u64, k: u64, k1: u64)
    by (bit_vector)
    requires
        u != 0,
        k < 63,
        k1 == k + 1,
        u & (((1u64 << k) - 1u64) as u64) == 0,
    ensures
        (u & 0u64.wrapping_sub(u)) == (1u64 << k) <==> u & (((1u64 << k1) - 1u64) as u64) != 0,
{
}

/// For `v == 2^k` with `k < 63`: `u` is divisible by `v`, and by `2 v`,
/// exactly when its low bits are clear.
proof fn lemma_pow2_divides(u: u64, k: nat)
    requires
        k < 63,
    ensures
        (1u64 << (k as u64)) == pow2(k),
        (1u64 << ((k + 1) as u64)) == 2 * pow2(k),
        (u & (((1u64 << (k as u64)) - 1u64) as u64) == 0) == (u as int % pow2(k) as int == 0),
        (u & (((1u64 << ((k + 1) as u64)) - 1u64) as u64) == 0) == (u as int % (2 * pow2(k)) as int == 0),
{
    lemma_pow2_unfold(k + 1);
    lemma_u64_pow2_no_overflow(k);
    lemma_u64_pow2_no_overflow(k + 1);
    lemma_u64_shl_is_mul(1u64, k as u64);
    lemma_u64_shl_is_mul(1u64, (k + 1) as u64);
    lemma_u64_low_bits_mask_is_mod(u, k);
    lemma_u64_low_bits_mask_is_mod(u, k + 1);
}

/// The Luby sequence comes in blocks: block `u` (for `u = 1, 2, 3, ...`)
/// is `1, 2, 4, ...` up to the largest power of two that divides `u`. In
/// terms of the state `(u, v)`, whose `v` is the current term: it starts
/// at `(1, 1)`; `v` is a power of two that divides `u`; the next state
/// doubles `v` while `2 v` still divides `u`, and otherwise starts block
/// `u + 1` at `1`.
pub proof fn lemma_luby_blocks(n: nat)
    requires
        n < 0x3fff_ffff_ffff_ffff,
    ensures
        luby_state(0) == (1int, 1int),
        luby_term(n) == luby_state(n).1,
        1 <= luby_state(n).0 <= n + 1,
        exists|k: nat| luby_state(n).1 == pow2(k),
        luby_state(n).0 % luby_state(n).1 == 0,
        luby_state(n + 1) == if luby_state(n).0 % (2 * luby_state(n).1) == 0 {
            (luby_state(n).0, 2 * luby_state(n).1)
        } else {
            (luby_state(n).0 + 1, 1int)
        },
    decreases n,
{
    if n == 0 {
        lemma2_to64();
        assert(luby_state(0).1 == pow2(0));
    } else {
        let m = (n - 1) as nat;
        lemma_luby_blocks(m);
        let pu = luby_state(m).0;
        let pv = luby_state(m).1;
        let pk = choose|k: nat| pv == pow2(k);
        assert(luby_state(m + 1) == luby_state(n));
        if pu % (2 * pv) == 0 {
            lemma_pow2_unfold(pk + 1);
            assert(luby_state(n).1 == pow2(pk + 1));
        } else {
            lemma2_to64();
            assert(luby_state(n).1 == pow2(0));
        }
    }
    let u = luby_state(n).0;
    let v = luby_state(n).1;
    let k = choose|k: nat| v == pow2(k);
    lemma_pow2_pos(k);
    // `v` divides `u`, so `v <= u < 2^62`, and `k < 62`.
    assert(u < 0x4000_0000_0000_0000);
    assert(v <= u) by {
        vstd::arithmetic::div_mod::lemma_mod_is_zero(u as nat, v as nat);
    }
    if k >= 62 {
        if k > 62 {
            vstd::arithmetic::power2::lemma_pow2_strictly_increases(62, k);
        }
        vstd::arithmetic::power2::lemma2_to64_rest();
        assert(false);
    }
    let uu = u as u64;
    assert(uu as int == u);
    lemma_pow2_divides(uu, k);
    assert(uu as int % pow2(k) as int == 0);
    lemma_lowest_bit(uu, k as u64, (k + 1) as u64);
    assert((uu & 0u64.wrapping_sub(uu)) == v <==> u % (2 * v) != 0);
}

/// Iterator over the Luby sequence, scaled by a base.
pub struct LubyIterator {
    base: u64,
    u: u64,
    v: u64,
    /// Number of terms emitted so far.
    emitted: Ghost<nat>,
}

impl LubyIterator {
    /// The scale factor.
    pub closed spec fn base(&self) -> u64 {
        self.base
    }

    /// Number of terms emitted so far.
    pub closed spec fn emitted(&self) -> nat {
        self.emitted@
    }

    /// The iterator's state is the Luby state after `emitted()` steps.
    pub closed spec fn wf(&self) -> bool {
        (self.u as int, self.v as int) == luby_state(self.emitted@)
    }

    /// Creates an iterator that emits `base * t_i`, where `t_i` is the
    /// `i`-th term of the Luby sequence.
    pub fn new(base: u64) -> (it: Self)
        requires
            base > 0,
        ensures
            it.wf(),
            it.base() == base,
            it.emitted() == 0,
    {
        Self { base, u: 1, v: 1, emitted: Ghost(0) }
    }

    /// Creates an iterator as [`LubyIterator::new`] does, or returns `None`
    /// when `base` is 0, for which no schedule exists.
    pub fn try_new(base: u64) -> (r: Option<Self>)
        ensures
            r is None <==> base == 0,
            r matches Some(it) ==> it.wf() && it.base() == base && it.emitted() == 0,
    {
        if base == 0 {
            None
        } else {
            Some(LubyIterator::new(base))
        }
    }

    /// Returns the next scaled term. `None` is returned only where the
    /// term times the base, or the next state, does not fit in a `u64`;
    /// then the iterator is left unchanged.
    pub fn next(&mut self) -> (r: Option<u64>)
        requires
            old(self).wf(),
        ensures
            final(self).wf(),
            final(self).base() == old(self).base(),
            r is Some ==> final(self).emitted() == old(self).emitted() + 1 && r->0 == luby_term(
                old(self).emitted(),
            ) * old(self).base(),
            r is None ==> *final(self) == *old(self) && (luby_term(old(self).emitted())
                * old(self).base() > u64::MAX || luby_state(old(self).emitted() + 1).0 > u64::MAX
                || luby_state(old(self).emitted() + 1).1 > u64::MAX),
    {
        let term = self.v;
        let scaled = match term.checked_mul(self.base) {
            Some(x) => x,
            None => {
                return None;
            },
        };
        if (self.u & 0u64.wrapping_sub(self.u)) == self.v {
            match self.u.checked_add(1) {
                Some(nu) => {
                    self.u = nu;
                    self.v = 1;
                },
                None => {
                    return None;
                },
            }
        } else {
            match self.v.checked_mul(2) {
                Some(nv) => {
                    self.v = nv;
                },
                None => {
                    return None;
                },
            }
        }
        self.emitted = Ghost((self.emitted@ + 1) as nat);
        Some(scaled)
    }
}

/// In-place Fisher-Yates shuffle of `arr` using `rng`: the result holds
/// the same elements, each as often, in another order.
pub fn shuffle<T>(arr: &mut [T], rng: &mut SolverRng)
    ensures
        is_rearrangement(old(arr)@, final(arr)@),
        is_rearrangement(final(arr)@, old(arr)@),
{
    let n = arr.len();
    let ghost mut p: Seq<int> = Seq::new(n as nat, |k: int| k);
    let ghost mut q: Seq<int> = Seq::new(n as nat, |k: int| k);
    assert forall|k: int| 0 <= k < n implies arr@[k] == old(arr)@[#[trigger] p[k]] by {}
    assert forall|k: int| 0 <= k < n implies arr@[#[trigger] q[k]] == old(arr)@[k] by {}
    let mut i: usize = if n < 2 {
        0
    } else {
        n - 1
    };
    assert(is_permutation(p, n as int));
    assert(is_permutation(q, n as int));
    while i >= 1
        invariant
            i < n || i == 0,
            arr@.len() == n,
            old(arr)@.len() == n,
            is_permutation(p, n as int),
            is_permutation(q, n as int),
            forall|k: int| 0 <= k < n ==> arr@[k] == old(arr)@[#[trigger] p[k]],
            forall|k: int| 0 <= k < n ==> arr@[#[trigger] q[k]] == old(arr)@[k],
        decreases i,
    {
        let j = random_index(rng, i);
        let ghost pre = arr@;
        slice_swap(arr, i, j);
        proof {
            let pi = p[i as int];
            let pj = p[j as int];
            let np = p.update(i as int, pj).update(j as int, pi);
            assert forall|a: int, b: int| 0 <= a < b < n implies #[trigger] np[a] != #[trigger] np[b]
                by {
                assert(p[a] != p[b]);
                if a == i || a == j || b == i || b == j {
                    if i != j {
                        assert(p[i as int] != p[j as int]);
                    }
                }
            }
            let nq = Seq::new(
                n as nat,
                |k: int|
                    if q[k] == i {
                        j as int
                    } else if q[k] == j {
                        i as int
                    } else {
                        q[k]
                    },
            );
            assert forall|a: int, b: int| 0 <= a < b < n implies #[trigger] nq[a] != #[trigger] nq[b]
                by {
                assert(q[a] != q[b]);
            }
            assert forall|k: int| 0 <= k < n implies arr@[#[trigger] nq[k]] == old(arr)@[k] by {
                assert(pre[q[k]] == old(arr)@[k]);
            }
            p = np;
            q = nq;
        }
        i = i - 1;
    }
    assert(is_rearrangement(old(arr)@, arr@));
    assert(is_rearrangement(arr@, old(arr)@)) by {
        assert(forall|k: int| 0 <= k < n ==> old(arr)@[k] == arr@[#[trigger] q[k]]);
    }
}

/// Every element of `before` is still in a rearrangement of it, and every
/// element of the rearrangement comes from `before`.
pub proof fn lemma_rearrangement_contains<T>(before: Seq<T>, after: Seq<T>)
    requires
        is_rearrangement(before, after),
    ensures
        forall|k: int| 0 <= k < after.len() ==> before.contains(#[trigger] after[k]),
        after.len() == before.len(),
{
    let p = choose|p: Seq<int>|
        is_permutation(p, before.len() as int) && after.len() == before.len() && forall|k: int|
            0 <= k < after.len() ==> after[k] == before[#[trigger] p[k]];
    assert forall|k: int| 0 <= k < after.len() implies before.contains(#[trigger] after[k]) by {
        assert(after[k] == before[p[k]]);
    }
}

} // verus!
