//! Seeded pseudo-random numbers.

use vstd::arithmetic::div_mod::{
    lemma_fundamental_div_mod, lemma_mod_bound, lemma_mod_multiples_vanish, lemma_small_mod,
};
use vstd::prelude::*;

verus! {

/// Step of the generator's counter.
pub const STEP: u64 = 0x9e37_79b9_7f4a_7c15;

/// First multiplier of the finalizer.
pub const MIX_FIRST: u64 = 0xbf58_476d_1ce4_e5b9;

/// Second multiplier of the finalizer.
pub const MIX_SECOND: u64 = 0x94d0_49bb_1331_11eb;

/// The residue of `x` that a 64-bit register keeps.
pub open spec fn wrapped(x: int) -> u64 {
    (x % 0x1_0000_0000_0000_0000) as u64
}

/// What a register keeps is congruent to what was put in, and nothing else that it can hold is.
pub proof fn wrapping_keeps_the_residue(x: int, kept: u64)
    requires
        (x - kept) % 0x1_0000_0000_0000_0000 == 0,
    ensures
        wrapped(x) == kept,
{
    let size: int = 0x1_0000_0000_0000_0000;
    let turns = (x - kept) / size;
    lemma_fundamental_div_mod(x - kept, size);
    lemma_mod_multiples_vanish(turns, kept as int, size);
    lemma_small_mod(kept as nat, size as nat);
}

/// The scrambled form of a counter value.
pub open spec fn mixed(value: u64) -> u64 {
    let a: u64 = wrapped(value + STEP);
    let b: u64 = wrapped((a ^ (a >> 30)) * MIX_FIRST);
    let c: u64 = wrapped((b ^ (b >> 27)) * MIX_SECOND);
    c ^ (c >> 31)
}

/// An odd factor that a register can undo loses nothing.
proof fn undoable_factors_lose_nothing(x: u64, y: u64, factor: u64, inverse: int, excess: int)
    requires
        factor * inverse == 1 + excess * 0x1_0000_0000_0000_0000,
        wrapped(x * factor) == wrapped(y * factor),
    ensures
        x == y,
{
    let size: int = 0x1_0000_0000_0000_0000;
    let a = (x * factor) as int;
    let b = (y * factor) as int;
    lemma_fundamental_div_mod(a, size);
    lemma_fundamental_div_mod(b, size);
    let turns = a / size - b / size;
    let rest = (x - y) * excess;
    assert(x - y == size * (turns * inverse - rest)) by (nonlinear_arith)
        requires
            a == x * factor,
            b == y * factor,
            a - b == size * turns,
            factor * inverse == 1 + excess * size,
            rest == (x - y) * excess,
    ;
    let m = turns * inverse - rest;
    assert(m == 0) by (nonlinear_arith)
        requires
            x - y == size * m,
            -size < x - y < size,
            size > 0,
    ;
}

/// Scrambling loses nothing: different counter values have different scrambled forms.
pub proof fn mixing_tells_apart(x: u64, y: u64)
    requires
        mixed(x) == mixed(y),
    ensures
        x == y,
{
    let size: int = 0x1_0000_0000_0000_0000;
    let a1: u64 = wrapped(x + STEP);
    let a2: u64 = wrapped(y + STEP);
    let p1: u64 = a1 ^ (a1 >> 30);
    let p2: u64 = a2 ^ (a2 >> 30);
    let b1: u64 = wrapped(p1 * MIX_FIRST);
    let b2: u64 = wrapped(p2 * MIX_FIRST);
    let q1: u64 = b1 ^ (b1 >> 27);
    let q2: u64 = b2 ^ (b2 >> 27);
    let c1: u64 = wrapped(q1 * MIX_SECOND);
    let c2: u64 = wrapped(q2 * MIX_SECOND);
    assert(c1 ^ (c1 >> 31) == c2 ^ (c2 >> 31) ==> c1 == c2) by (bit_vector);
    undoable_factors_lose_nothing(q1, q2, MIX_SECOND, 0x3196_42b2_d24d_8ec3, 0x1cd3_36ed_a85f_1453);
    assert(b1 ^ (b1 >> 27) == b2 ^ (b2 >> 27) ==> b1 == b2) by (bit_vector);
    undoable_factors_lose_nothing(p1, p2, MIX_FIRST, 0x96de_1b17_3f11_9089, 0x70c3_bca7_8f27_f46c);
    assert(a1 ^ (a1 >> 30) == a2 ^ (a2 >> 30) ==> a1 == a2) by (bit_vector);
    lemma_fundamental_div_mod(x + STEP, size);
    lemma_fundamental_div_mod(y + STEP, size);
}

/// Scramble a counter value.
pub fn mix64(value: u64) -> (r: u64)
    ensures
        r == mixed(value),
{
    let a: u64 = value.wrapping_add(STEP);
    let b: u64 = (a ^ (a >> 30)).wrapping_mul(MIX_FIRST);
    let c: u64 = (b ^ (b >> 27)).wrapping_mul(MIX_SECOND);
    c ^ (c >> 31)
}

/// A small counter-based generator: every draw scrambles the counter and steps it.
#[derive(Debug)]
pub struct FastRng {
    /// The counter.
    pub state: u64,
}

impl FastRng {
    /// The generator after one draw.
    pub open spec fn stepped(self) -> FastRng {
        FastRng { state: wrapped(self.state + STEP) }
    }

    /// The number that the next draw below `n` gives.
    pub open spec fn drawn(self, n: int) -> int {
        mixed(self.state) as int % n
    }

    /// The outcome of the next coin toss.
    pub open spec fn tossed(self) -> bool {
        mixed(self.state) % 2 == 1
    }

    /// Create a generator from a seed.
    pub fn new(seed: u64) -> (r: FastRng)
        ensures
            r.state == seed,
    {
        FastRng { state: seed }
    }

    /// Draw 64 bits.
    pub fn next_u64(&mut self) -> (r: u64)
        ensures
            r == mixed(old(self).state),
            *final(self) == old(self).stepped(),
    {
        let r: u64 = mix64(self.state);
        self.state = self.state.wrapping_add(STEP);
        r
    }

    /// Draw an index below `n`.
    pub fn next_index(&mut self, n: usize) -> (r: usize)
        requires
            n > 0,
        ensures
            r == old(self).drawn(n as int),
            r < n,
            *final(self) == old(self).stepped(),
    {
        let r: u64 = self.next_u64();
        (r % (n as u64)) as usize
    }

    /// Toss a coin.
    pub fn next_bool(&mut self) -> (r: bool)
        ensures
            r == old(self).tossed(),
            *final(self) == old(self).stepped(),
    {
        self.next_u64() % 2 == 1
    }

    /// The generator after `m` draws.
    pub open spec fn after(self, m: nat) -> FastRng
        decreases m,
    {
        if m == 0 {
            self
        } else {
            self.stepped().after((m - 1) as nat)
        }
    }

    /// One more draw after `m` draws makes `m + 1` draws.
    pub proof fn after_steps(self, m: nat)
        ensures
            self.after(m).stepped() == self.after(m + 1),
        decreases m,
    {
        if m > 0 {
            self.stepped().after_steps((m - 1) as nat);
        } else {
            assert(self.after(1) == self.stepped().after(0));
        }
    }

    /// Every draw moves the counter on by one step: after `m` draws it has gone `m` steps.
    pub proof fn after_is_a_multiple(self, m: nat)
        ensures
            self.after(m).state == wrapped(self.state + m * STEP),
        decreases m,
    {
        let size: int = 0x1_0000_0000_0000_0000;
        if m == 0 {
            lemma_small_mod(self.state as nat, size as nat);
        } else {
            let rest = (m - 1) as nat;
            self.stepped().after_is_a_multiple(rest);
            let carry = (self.state + STEP) / size;
            lemma_fundamental_div_mod(self.state + STEP, size);
            assert(self.stepped().state + rest * STEP == size * (-carry) + (self.state + m
                * STEP)) by (nonlinear_arith)
                requires
                    self.state + STEP == size * carry + self.stepped().state,
                    m == rest + 1,
            ;
            lemma_mod_multiples_vanish(-carry, self.state + m * STEP, size);
        }
    }

    /// Whatever two or more values are drawn from, some later draw differs from a given one.
    pub proof fn draws_vary(self, n: int, first: int)
        requires
            n >= 2,
        ensures
            exists|m: nat| #[trigger] self.after(m).drawn(n) != first,
    {
        let size: int = 0x1_0000_0000_0000_0000;
        // Two counter values, one that is scrambled to zero and one that is scrambled to one.
        let to_zero: u64 = 0x61c8_8646_80b5_83eb;
        let to_one: u64 = 0xf836_4607_e9c9_49bd;
        assert(mixed(to_zero) == 0) by {
            assert(wrapped(to_zero + STEP) == 0);
            assert(0u64 ^ (0u64 >> 30) == 0u64) by (bit_vector);
            assert(0u64 ^ (0u64 >> 27) == 0u64) by (bit_vector);
            assert(0u64 ^ (0u64 >> 31) == 0u64) by (bit_vector);
        }
        assert(mixed(to_one) == 1) by {
            let a: u64 = 0x966d_bfc1_6913_c5d2;
            let x: u64 = 0x966d_bfc3_30a5_3ad7;
            let b: u64 = 0x3196_42b4_e085_d85f;
            let y: u64 = 0x3196_42b2_d24d_8ec3;
            assert(wrapped(to_one + STEP) == a);
            assert(0x966d_bfc1_6913_c5d2u64 ^ (0x966d_bfc1_6913_c5d2u64 >> 30)
                == 0x966d_bfc3_30a5_3ad7u64) by (bit_vector);
            assert(wrapped(x * MIX_FIRST) == b);
            assert(0x3196_42b4_e085_d85fu64 ^ (0x3196_42b4_e085_d85fu64 >> 27)
                == 0x3196_42b2_d24d_8ec3u64) by (bit_vector);
            assert(wrapped(y * MIX_SECOND) == 1);
            assert(1u64 ^ (1u64 >> 31) == 1u64) by (bit_vector);
        }
        let target: u64 = if first == 0 {
            to_one
        } else {
            to_zero
        };
        // The multiplicative inverse of the step modulo 2^64.
        let inverse: int = 0xf1de_83e1_9937_733d;
        let excess: int = 0x957b_bf35_006e_d677;
        assert(inverse * STEP == 1 + excess * size);
        let far = (target - self.state) * inverse;
        let m = (far % size) as nat;
        let folds = far / size;
        lemma_fundamental_div_mod(far, size);
        lemma_mod_bound(far, size);
        let step: int = STEP as int;
        let turns = (target - self.state) * excess - folds * step;
        assert(self.state + m * step == size * turns + target) by (nonlinear_arith)
            requires
                far == (target - self.state) * inverse,
                far == size * folds + m,
                inverse * step == 1 + excess * size,
                turns == (target - self.state) * excess - folds * step,
        ;
        lemma_mod_multiples_vanish(turns, target as int, size);
        lemma_small_mod(target as nat, size as nat);
        self.after_is_a_multiple(m);
        assert(self.after(m).state == target);
        lemma_small_mod(0, n as nat);
        lemma_small_mod(1, n as nat);
        assert(self.after(m).drawn(n) != first);
    }
}

} // verus!
