//! Deterministic pseudo-random sources of the network conditioner: the
//! 64-bit linear congruential generator shared by the loss and jitter
//! stages, and the per-pipeline jitter draw (the fraction of the maximum
//! delay that each delay takes).
use vstd::prelude::*;

verus! {

pub const LCG_MULTIPLIER: u64 = 6364136223846793005;

pub const LCG_INCREMENT: u64 = 1442695040888963407;

/// One LCG step: `state * a + c` modulo 2^64.
pub open spec fn lcg_next(state: u64) -> u64 {
    ((state * LCG_MULTIPLIER + LCG_INCREMENT) % 0x1_0000_0000_0000_0000) as u64
}

/// The 24-bit uniform draw taken from a state: its top 24 bits.
pub open spec fn unit_draw(state: u64) -> u32 {
    (state / 0x100_0000_0000) as u32
}

/// Advances an LCG state by one step.
pub fn lcg_step(state: u64) -> (next: u64)
    ensures
        next == lcg_next(state),
{
    let a: u128 = state as u128;
    assert(a * 6364136223846793005 <= 0xffff_ffff_ffff_ffff * 6364136223846793005) by (nonlinear_arith)
        requires
            a <= 0xffff_ffff_ffff_ffff,
    ;
    let p: u128 = a * 6364136223846793005u128 + 1442695040888963407u128;
    (p % 0x1_0000_0000_0000_0000) as u64
}

/// Advances `state` and returns the new state's 24-bit draw, a uniform
/// fraction `draw / 2^24` in `[0, 1)`.
pub fn next_unit_draw(state: &mut u64) -> (draw: u32)
    ensures
        *final(state) == lcg_next(*old(state)),
        draw == unit_draw(*final(state)),
        draw < 0x100_0000,
{
    *state = lcg_step(*state);
    (*state / 0x100_0000_0000) as u32
}

/// `state` advanced by `k` LCG steps.
pub open spec fn lcg_iter(state: u64, k: nat) -> u64
    decreases k,
{
    if k == 0 {
        state
    } else {
        lcg_next(lcg_iter(state, (k - 1) as nat))
    }
}

/// Draw number `k` (counting from zero) of a jitter source made with this
/// maximum and seed: a function of the three alone, so every pipeline's
/// sequence of delays is reproducible from its seed. A zero maximum draws
/// nothing (zero).
pub open spec fn nth_jitter_draw(max_nanos: u64, seed: u64, k: nat) -> u32 {
    if max_nanos == 0 {
        0
    } else {
        unit_draw(lcg_iter(seed, k + 1))
    }
}

/// Per-frame jitter source: draws an extra delay in `[0, max]`.
pub struct Jitter {
    rng: u64,
    max_nanos: u64,
    seed: Ghost<u64>,
    draws: Ghost<nat>,
}

impl Jitter {
    /// The generator has taken one step per draw since it was seeded (none
    /// at all with a zero maximum).
    #[verifier::type_invariant]
    spec fn seeded_run(self) -> bool {
        self.rng == lcg_iter(self.seed@, if self.max_nanos == 0 { 0 } else { self.draws@ })
    }

    pub closed spec fn rng_view(&self) -> u64 {
        self.rng
    }

    pub closed spec fn max_view(&self) -> u64 {
        self.max_nanos
    }

    /// The seed the source was made with.
    pub closed spec fn seed_view(&self) -> u64 {
        self.seed@
    }

    /// Delays drawn so far.
    pub closed spec fn draws_view(&self) -> nat {
        self.draws@
    }

    /// A distinct seed per pipeline keeps each independently deterministic.
    pub fn with_seed(max_nanos: u64, seed: u64) -> (j: Self)
        ensures
            j.rng_view() == seed,
            j.max_view() == max_nanos,
            j.seed_view() == seed,
            j.draws_view() == 0,
    {
        Jitter { rng: seed, max_nanos, seed: Ghost(seed), draws: Ghost(0) }
    }

    /// The next draw: the fraction `draw / 2^24` of the maximum that the
    /// next delay takes, draw number `draws_view()` of this source's seeded
    /// sequence. A zero maximum draws nothing and leaves the generator
    /// untouched.
    pub fn sample(&mut self) -> (draw: u32)
        ensures
            final(self).max_view() == old(self).max_view(),
            final(self).seed_view() == old(self).seed_view(),
            final(self).draws_view() == old(self).draws_view() + 1,
            draw == nth_jitter_draw(old(self).max_view(), old(self).seed_view(), old(self).draws_view()),
            old(self).max_view() == 0 ==> draw == 0 && final(self).rng_view() == old(self).rng_view(),
            old(self).max_view() > 0 ==> final(self).rng_view() == lcg_next(old(self).rng_view())
                && draw == unit_draw(final(self).rng_view()),
            draw < 0x100_0000,
    {
        proof {
            use_type_invariant(&*self);
        }
        let seed = self.seed;
        let next_draws: Ghost<nat> = Ghost((self.draws@ + 1) as nat);
        if self.max_nanos == 0 {
            *self = Jitter { rng: self.rng, max_nanos: 0, seed, draws: next_draws };
            return 0;
        }
        let mut rng = self.rng;
        let draw = next_unit_draw(&mut rng);
        let max_nanos = self.max_nanos;
        assert(rng == lcg_iter(seed@, next_draws@));
        *self = Jitter { rng, max_nanos, seed, draws: next_draws };
        draw
    }
}

/// Generator law: each step is Knuth's MMIX linear congruential step,
/// `state * 6364136223846793005 + 1442695040888963407` modulo 2^64, and a
/// draw is the top 24 bits of the state after the step, so draw `k` of a
/// source seeded with `seed` is the top 24 bits of the state `k + 1` steps
/// after the seed.
pub proof fn lemma_generator(state: u64, seed: u64, max_nanos: u64, k: nat)
    ensures
        lcg_next(state) == (state * 6364136223846793005 + 1442695040888963407) % 0x1_0000_0000_0000_0000,
        unit_draw(state) == state / 0x100_0000_0000,
        unit_draw(state) < 0x100_0000,
        max_nanos > 0 ==> nth_jitter_draw(max_nanos, seed, k) == lcg_iter(seed, k + 1) / 0x100_0000_0000,
        max_nanos == 0 ==> nth_jitter_draw(max_nanos, seed, k) == 0,
        lcg_iter(seed, k + 1) == lcg_next(lcg_iter(seed, k)),
{
}

} // verus!
