//! A deterministic multiplicative congruential generator:
//! `seed = seed * 16807 mod (2^31 - 1)`.
use vstd::prelude::*;

verus! {

/// The prime 2^31 - 1, the generator's modulus.
pub const MERSENNE_PRIME: u32 = 2147483647;

/// The generator's multiplier.
pub const MULTIPLIER: u64 = 16807;

/// The state a generator seeded with `s` starts from: the low 31 bits of
/// `s`, with 0 and the modulus (which would make the sequence constant)
/// replaced by 1.
pub open spec fn normalized_seed(s: u32) -> u32 {
    let x = s % 0x8000_0000;
    if x == 0 || x == MERSENNE_PRIME {
        1
    } else {
        x as u32
    }
}

/// The state after one step from `seed`.
pub open spec fn next_seed(seed: u32) -> u32 {
    ((seed as int * MULTIPLIER) % MERSENNE_PRIME as int) as u32
}

/// The state after `k` steps from `seed`.
pub open spec fn state_after(seed: u32, k: nat) -> u32
    decreases k,
{
    if k == 0 {
        seed
    } else {
        next_seed(state_after(seed, (k - 1) as nat))
    }
}

pub struct Random {
    seed: u32,
}

/// One step never reaches 0 from a state in `[1, 2^31 - 2]`: 16807 has an
/// inverse modulo the prime.
proof fn lemma_step_nonzero(seed: u32)
    requires
        0 < seed < MERSENNE_PRIME,
    ensures
        0 < next_seed(seed) < MERSENNE_PRIME,
{
    let m = MERSENNE_PRIME as int;
    let s = seed as int;
    let p = s * 16807;
    let q = p / m;
    let r = p % m;
    if r == 0 {
        // 16807 * 1407677000 == 1 + 11017 * m
        assert(16807 * 1407677000 == 1 + 11017 * m);
        assert(p == q * m);
        assert(p * 1407677000 == s + s * 11017 * m) by (nonlinear_arith)
            requires
                p == s * 16807,
                16807 * 1407677000 == 1 + 11017 * m,
        ;
        assert(s == m * (q * 1407677000 - s * 11017)) by (nonlinear_arith)
            requires
                p * 1407677000 == s + s * 11017 * m,
                p == q * m,
        ;
        assert(false) by (nonlinear_arith)
            requires
                s == m * (q * 1407677000 - s * 11017),
                0 < s < m,
        ;
    }
}

impl Random {
    /// The generator's state.
    pub closed spec fn state(&self) -> u32 {
        self.seed
    }

    /// The state lies in `[1, 2^31 - 2]`.
    pub closed spec fn wf(&self) -> bool {
        0 < self.seed < MERSENNE_PRIME
    }

    pub fn new(s: u32) -> (r: Self)
        ensures
            r.wf(),
            r.state() == normalized_seed(s),
    {
        let mut seed = s & 0x7fffffffu32;
        assert(s & 0x7fffffffu32 == s % 0x8000_0000) by (bit_vector);
        if seed == 0 || seed == MERSENNE_PRIME {
            seed = 1;
        }
        Random { seed }
    }

    /// The current state.
    pub fn seed(&self) -> (r: u32)
        ensures
            r == self.state(),
    {
        self.seed
    }

    /// Advance the state one step and return it.
    pub fn next(&mut self) -> (r: u32)
        requires
            old(self).wf(),
        ensures
            final(self).wf(),
            r == next_seed(old(self).state()),
            final(self).state() == r,
            0 < r < MERSENNE_PRIME,
    {
        let m: u32 = MERSENNE_PRIME;
        let product: u64 = self.seed as u64 * MULTIPLIER;
        let hi = (product >> 31) as u32;
        let lo = (product as u32) & m;
        proof {
            let p = product;
            assert(p < 0x8000_0000u64 * 16807u64);
            assert((p >> 31u64) == p / 0x8000_0000u64) by (bit_vector);
            assert(((p as u32) & 0x7fffffffu32) as u64 == p % 0x8000_0000u64) by (bit_vector);
            assert(p as int == hi as int * 0x8000_0000 + lo as int);
            assert(hi < 16807);
        }
        let mut seed = hi + lo;
        if seed > m {
            seed = seed - m;
        }
        proof {
            let mm = m as int;
            let p = product as int;
            assert((p - (hi + lo)) % mm == 0) by {
                assert(p - (hi + lo) == hi * mm);
                vstd::arithmetic::div_mod::lemma_mod_multiples_basic(hi as int, mm);
            }
            assert(seed as int % mm == p % mm) by {
                vstd::arithmetic::div_mod::lemma_mod_sub_multiples_vanish(seed as int, mm);
                vstd::arithmetic::div_mod::lemma_fundamental_div_mod(p - (hi + lo), mm);
                vstd::arithmetic::div_mod::lemma_mod_multiples_vanish((p - (hi + lo)) / mm, hi + lo, mm);
                vstd::arithmetic::div_mod::lemma_mod_multiples_vanish(-1, seed as int, mm);
            }
            lemma_step_nonzero(self.seed);
            assert(seed as int == p % mm);
        }
        self.seed = seed;
        seed
    }

    /// A value in `[0, n)`: the next state modulo `n`.
    pub fn uniform(&mut self, n: u32) -> (r: u32)
        requires
            old(self).wf(),
            n > 0,
        ensures
            final(self).wf(),
            final(self).state() == next_seed(old(self).state()),
            r == next_seed(old(self).state()) % n,
    {
        self.next() % n
    }

    /// True about one time in `n`: whether the next state is a multiple of `n`.
    pub fn one_in(&mut self, n: u32) -> (r: bool)
        requires
            old(self).wf(),
            n > 0,
        ensures
            final(self).wf(),
            final(self).state() == next_seed(old(self).state()),
            r == (next_seed(old(self).state()) % n == 0),
    {
        self.next() % n == 0
    }

    /// Pick `base` uniformly in `[0, max_log]`, then return `base` random
    /// bits: a value in `[0, 2^max_log)` biased towards small numbers.
    pub fn skewed(&mut self, max_log: u32) -> (r: u32)
        requires
            old(self).wf(),
            max_log < 32,
        ensures
            final(self).wf(),
            ({
                let s1 = next_seed(old(self).state());
                let s2 = next_seed(s1);
                let base = s1 % (max_log + 1) as u32;
                &&& final(self).state() == s2
                &&& r == s2 % (1u32 << base)
            }),
    {
        let base = self.uniform(max_log + 1);
        let bound: u32 = 1u32 << base;
        assert(base < 32 ==> (1u32 << base) > 0) by (bit_vector);
        self.uniform(bound)
    }
}

/// Seeding with 0 or with the modulus gives the state of seed 1, so all
/// three generators produce the same sequence: after any number of steps
/// their states, and so the values they return, agree.
pub proof fn lemma_seed_normalization(k: nat)
    ensures
        normalized_seed(0) == 1,
        normalized_seed(MERSENNE_PRIME) == 1,
        normalized_seed(1) == 1,
        state_after(normalized_seed(0), k) == state_after(normalized_seed(1), k),
        state_after(normalized_seed(MERSENNE_PRIME), k) == state_after(normalized_seed(1), k),
{
}

} // verus!
