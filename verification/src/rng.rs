//! A deterministic pseudo-random generator used for weight initialisation.
//!
//! The generator is a splitmix step: the state advances by a fixed odd
//! constant and each draw mixes the new state through two
//! xor-shift-multiply rounds. Every draw is an exact function of the seed,
//! so two generators built from equal seeds produce equal draw sequences;
//! seeded network construction is therefore reproducible.

use vstd::prelude::*;

verus! {

/// The state step: the state advances by a fixed odd constant, wrapping.
pub open spec fn next_state(s: u64) -> u64 {
    vstd::wrapping::u64_specs::wrapping_add(s, 0x9E37_79B9_7F4A_7C15)
}

/// The state reached after `n` steps from `s`.
pub open spec fn state_after(s: u64, n: nat) -> u64
    decreases n,
{
    if n == 0 {
        s
    } else {
        next_state(state_after(s, (n - 1) as nat))
    }
}

/// The output word produced from a state: two xor-shift-multiply rounds
/// followed by a final shift.
pub open spec fn mix(z: u64) -> u64 {
    let a = vstd::wrapping::u64_specs::wrapping_mul(z ^ (z >> 30u64), 0xBF58_476D_1CE4_E5B9);
    let b = vstd::wrapping::u64_specs::wrapping_mul(a ^ (a >> 27u64), 0x94D0_49BB_1331_11EB);
    b ^ (b >> 31u64)
}

/// The word returned by the `n`-th draw from seed `s`, counting from zero.
pub open spec fn nth_draw(s: u64, n: nat) -> u64 {
    mix(state_after(s, n + 1))
}

/// A seeded pseudo-random generator. The view is the current state.
pub struct Rng {
    state: u64,
}

impl View for Rng {
    type V = u64;

    closed spec fn view(&self) -> u64 {
        self.state
    }
}

impl Rng {
    /// Builds a generator whose state is exactly the seed.
    pub fn new(seed: u64) -> (r: Rng)
        ensures
            r@ == seed,
    {
        Rng { state: seed }
    }

    /// Draws the next word. The result and the new state are pure
    /// functions of the old state.
    pub fn next_u64(&mut self) -> (r: u64)
        ensures
            final(self)@ == next_state(old(self)@),
            r == mix(next_state(old(self)@)),
            r == nth_draw(old(self)@, 0),
    {
        proof {
            assert(state_after(self@, 0) == self@);
            assert(state_after(self@, 1) == next_state(self@));
        }
        self.state = self.state.wrapping_add(0x9E37_79B9_7F4A_7C15);
        let z = self.state;
        let a = (z ^ (z >> 30u64)).wrapping_mul(0xBF58_476D_1CE4_E5B9);
        let b = (a ^ (a >> 27u64)).wrapping_mul(0x94D0_49BB_1331_11EB);
        b ^ (b >> 31u64)
    }
}

/// One more step from the state after `n` steps lands on the state after
/// `n + 1` steps, and the word mixed from it is the `n`-th draw.
pub proof fn lemma_step_draw(s0: u64, n: nat)
    ensures
        next_state(state_after(s0, n)) == state_after(s0, n + 1),
        nth_draw(s0, n) == mix(state_after(s0, n + 1)),
{
    assert(state_after(s0, n + 1) == next_state(state_after(s0, (n + 1 - 1) as nat)));
}

/// Stepping `a` times and then `b` times is stepping `a + b` times.
pub proof fn lemma_state_compose(s: u64, a: nat, b: nat)
    ensures
        state_after(state_after(s, a), b) == state_after(s, a + b),
    decreases b,
{
    if b == 0 {
        assert(state_after(state_after(s, a), 0) == state_after(s, a));
    } else {
        lemma_state_compose(s, a, (b - 1) as nat);
        assert(state_after(state_after(s, a), b) == next_state(
            state_after(state_after(s, a), (b - 1) as nat),
        ));
        assert(state_after(s, a + b) == next_state(state_after(s, (a + b - 1) as nat)));
    }
}

} // verus!
