//! Deterministic PRNG (SplitMix64) — keeps output reproducible. SplitMix64 has
//! no degenerate seed, so the seed is used as-is.

use vstd::prelude::*;

verus! {

/// The increment between successive states.
pub const GAMMA: u64 = 0x9E37_79B9_7F4A_7C15;

/// The state after `calls` steps from `seed`.
pub open spec fn state(seed: u64, calls: nat) -> u64
    decreases calls,
{
    if calls == 0 {
        seed
    } else {
        state(seed, (calls - 1) as nat).wrapping_add(GAMMA)
    }
}

/// The output that goes with a state.
pub open spec fn mixed(state: u64) -> u64 {
    let a = (state ^ (state >> 30)).wrapping_mul(0xBF58_476D_1CE4_E5B9);
    let b = (a ^ (a >> 27)).wrapping_mul(0x94D0_49BB_1331_11EB);
    b ^ (b >> 31)
}

/// The output of the call that `calls` calls came before.
pub open spec fn random(seed: u64, calls: nat) -> u64 {
    mixed(state(seed, calls + 1))
}

/// The generator; its field is the state.
pub struct SplitMix64(pub u64);

impl SplitMix64 {
    /// The generator has been started with `seed` and called `calls` times.
    pub open spec fn is_at(&self, seed: u64, calls: nat) -> bool {
        self.0 == state(seed, calls)
    }

    pub fn next_u64(&mut self) -> (r: u64)
        ensures
            final(self).0 == old(self).0.wrapping_add(GAMMA),
            r == mixed(final(self).0),
    {
        self.0 = self.0.wrapping_add(GAMMA);
        let z: u64 = self.0;
        let a: u64 = (z ^ (z >> 30)).wrapping_mul(0xBF58_476D_1CE4_E5B9);
        let b: u64 = (a ^ (a >> 27)).wrapping_mul(0x94D0_49BB_1331_11EB);
        b ^ (b >> 31)
    }

    /// The 24 bits of a uniform fraction in [0, 1).
    pub fn next_u24(&mut self) -> (r: u32)
        ensures
            final(self).0 == old(self).0.wrapping_add(GAMMA),
            r == mixed(final(self).0) >> 40,
            r < 0x100_0000,
    {
        let z: u64 = self.next_u64();
        assert(z >> 40 < 0x100_0000) by (bit_vector);
        (z >> 40) as u32
    }

    /// Uniform integer in [0, n). `n` must be > 0.
    pub fn below(&mut self, n: usize) -> (r: usize)
        requires
            n > 0,
        ensures
            final(self).0 == old(self).0.wrapping_add(GAMMA),
            r == mixed(final(self).0) as int % n as int,
            r < n,
    {
        (self.next_u64() % n as u64) as usize
    }
}

/// Numbers that differ by less than the modulus differ by a multiple of it only if they are equal,
/// also after multiplying with a factor that has an inverse: `factor * inverse` is one more than
/// `turns` times the modulus.
proof fn lemma_factor_cancels(a: int, b: int, factor: int, inverse: int, turns: int, q: int)
    requires
        -0x1_0000_0000_0000_0000 < a - b < 0x1_0000_0000_0000_0000,
        factor * inverse == 1 + 0x1_0000_0000_0000_0000 * turns,
        (a - b) * factor == 0x1_0000_0000_0000_0000 * q,
    ensures
        a == b,
{
    let d = a - b;
    let m = q * inverse - d * turns;
    assert(d == 0x1_0000_0000_0000_0000 * m) by (nonlinear_arith)
        requires
            factor * inverse == 1 + 0x1_0000_0000_0000_0000 * turns,
            d * factor == 0x1_0000_0000_0000_0000 * q,
            m == q * inverse - d * turns,
    {
        assert((d * factor) * inverse == d * (factor * inverse)) by (nonlinear_arith);
        assert(d * (1 + 0x1_0000_0000_0000_0000 * turns) == d + 0x1_0000_0000_0000_0000 * (d
            * turns)) by (nonlinear_arith);
        assert((0x1_0000_0000_0000_0000 * q) * inverse == 0x1_0000_0000_0000_0000 * (q * inverse))
            by (nonlinear_arith);
    }
}

/// Wrapping multiplication by a factor that has an inverse tells numbers apart.
proof fn lemma_product_tells_apart(a: u64, b: u64, factor: u64, inverse: int, turns: int)
    requires
        factor * inverse == 1 + 0x1_0000_0000_0000_0000 * turns,
        a.wrapping_mul(factor) == b.wrapping_mul(factor),
    ensures
        a == b,
{
    let q = (a * factor) / 0x1_0000_0000_0000_0000 - (b * factor) / 0x1_0000_0000_0000_0000;
    assert(a * factor - b * factor == 0x1_0000_0000_0000_0000 * q);
    assert((a - b) * factor == a * factor - b * factor) by (nonlinear_arith);
    lemma_factor_cancels(a as int, b as int, factor as int, inverse, turns, q);
}

/// Each step adds the increment, up to a multiple of the modulus.
proof fn lemma_state_advances(seed: u64, calls: nat) -> (q: int)
    ensures
        state(seed, calls) == seed + calls * GAMMA + 0x1_0000_0000_0000_0000 * q,
    decreases calls,
{
    if calls == 0 {
        0
    } else {
        let before = (calls - 1) as nat;
        let q = lemma_state_advances(seed, before);
        assert(calls * GAMMA == before * GAMMA + GAMMA) by (nonlinear_arith)
            requires
                calls == before + 1,
        ;
        if state(seed, before) + GAMMA > u64::MAX {
            q - 1
        } else {
            q
        }
    }
}

/// Different states have different outputs: mixing loses nothing of the state.
pub proof fn law_outputs_tell_states_apart(a: u64, b: u64)
    requires
        mixed(a) == mixed(b),
    ensures
        a == b,
{
    let (a0, b0) = (a ^ (a >> 30), b ^ (b >> 30));
    let (a1, b1) = (
        a0.wrapping_mul(0xBF58_476D_1CE4_E5B9),
        b0.wrapping_mul(0xBF58_476D_1CE4_E5B9),
    );
    let (a2, b2) = (a1 ^ (a1 >> 27), b1 ^ (b1 >> 27));
    let (a3, b3) = (
        a2.wrapping_mul(0x94D0_49BB_1331_11EB),
        b2.wrapping_mul(0x94D0_49BB_1331_11EB),
    );
    assert(a3 ^ (a3 >> 31) == b3 ^ (b3 >> 31) ==> a3 == b3) by (bit_vector);
    lemma_product_tells_apart(
        a2,
        b2,
        0x94D0_49BB_1331_11EB,
        0x3196_42B2_D24D_8EC3,
        2077064247507883091,
    );
    assert(a1 ^ (a1 >> 27) == b1 ^ (b1 >> 27) ==> a1 == b1) by (bit_vector);
    lemma_product_tells_apart(
        a0,
        b0,
        0xBF58_476D_1CE4_E5B9,
        0x96DE_1B17_3F11_9089,
        8125545580553827436,
    );
    assert(a ^ (a >> 30) == b ^ (b >> 30) ==> a == b) by (bit_vector);
}

/// No seed is degenerate: whatever the seed, no output comes twice before all of them have come.
pub proof fn law_outputs_do_not_repeat(seed: u64, i: nat, j: nat)
    requires
        i < j,
        j - i < 0x1_0000_0000_0000_0000,
    ensures
        random(seed, i) != random(seed, j),
{
    if random(seed, i) == random(seed, j) {
        law_outputs_tell_states_apart(state(seed, i + 1), state(seed, j + 1));
        let p = lemma_state_advances(seed, i + 1);
        let q = lemma_state_advances(seed, j + 1);
        assert((j - i) * GAMMA == (j + 1) * GAMMA - (i + 1) * GAMMA) by (nonlinear_arith);
        lemma_factor_cancels(
            j as int,
            i as int,
            GAMMA as int,
            0xF1DE_83E1_9937_733D,
            10771413168148108919,
            p - q,
        );
    }
}

/// Generators with different seeds differ at every call.
pub proof fn law_seeds_give_different_outputs(a: u64, b: u64, calls: nat)
    requires
        a != b,
    ensures
        random(a, calls) != random(b, calls),
{
    if random(a, calls) == random(b, calls) {
        law_outputs_tell_states_apart(state(a, calls + 1), state(b, calls + 1));
        let p = lemma_state_advances(a, calls + 1);
        let q = lemma_state_advances(b, calls + 1);
        assert(a - b == 0x1_0000_0000_0000_0000 * (q - p));
    }
}

} // verus!
