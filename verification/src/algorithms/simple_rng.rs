use vstd::prelude::*;

verus! {

/// Modulus of the generator.
pub const MODULUS: usize = 2684435399;

/// Multiplier of the generator.
pub const MULTIPLIER: usize = 31792125;

/// Increment of the generator.
pub const INCREMENT: usize = 9005;

/// The seed that follows `seed`: `(MULTIPLIER * seed + INCREMENT) mod MODULUS`,
/// computed over the integers.
pub open spec fn next_seed(seed: nat) -> nat {
    (MULTIPLIER as nat * seed + INCREMENT as nat) % (MODULUS as nat)
}

/// A linear congruential generator.
pub struct SimpleRng {
    m: usize,
    a: usize,
    c: usize,
    seed: usize,
}

impl SimpleRng {
    /// The seed that the next draw starts from.
    pub closed spec fn seed(&self) -> nat {
        self.seed as nat
    }

    /// The generator carries the three constants of the recurrence.
    #[verifier::type_invariant]
    spec fn wf(&self) -> bool {
        self.m == MODULUS && self.a == MULTIPLIER && self.c == INCREMENT
    }

    pub fn new(seed: usize) -> (rng: SimpleRng)
        ensures
            rng.seed() == seed,
    {
        let m: usize = MODULUS;
        let a: usize = MULTIPLIER;
        let c: usize = INCREMENT;

        SimpleRng { m, a, c, seed }
    }

    /// Advances the seed by one step of the recurrence and returns it.
    pub fn usize(&mut self) -> (value: usize)
        ensures
            final(self).seed() == next_seed(old(self).seed()),
            value == final(self).seed(),
            value < MODULUS,
    {
        proof {
            use_type_invariant(&*self);
        }
        let a: u128 = self.a as u128;
        let seed: u128 = self.seed as u128;
        assert(a * seed <= 31792125 * 0xffff_ffff_ffff_ffff) by (nonlinear_arith)
            requires
                a == 31792125,
                seed <= 0xffff_ffff_ffff_ffff,
        ;
        let wide: u128 = a * seed + (self.c as u128);
        let next: u128 = wide % (self.m as u128);
        self.seed = next as usize;
        self.seed
    }

    /// Draws a value from `[lower, upper)`: the next seed, reduced modulo the
    /// width of the interval and shifted by `lower`.
    pub fn roll(&mut self, lower: usize, upper: usize) -> (value: usize)
        requires
            lower < upper,
        ensures
            final(self).seed() == next_seed(old(self).seed()),
            value == next_seed(old(self).seed()) % ((upper - lower) as nat) + lower,
            lower <= value < upper,
    {
        let value: usize = self.usize();
        value % (upper - lower) + lower
    }
}

} // verus!
