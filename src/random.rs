//! The pseudo-random source that the solver draws from: a linear
//! congruential generator over the residues modulo 2^31.

use vstd::prelude::*;

verus! {

/// The seed that the solver's driver starts from.
pub const DEFAULT_SEED: u64 = 123456789;

/// The modulus of the generator.
pub const MODULUS: u64 = 0x8000_0000;

/// The state that follows `s`.
pub open spec fn lcg_next(s: int) -> int {
    (1103515245 * s + 12345) % (MODULUS as int)
}

/// The state after `k` steps from `s`.
pub open spec fn lcg_iter(s: int, k: nat) -> int
    decreases k,
{
    if k == 0 { s } else { lcg_next(lcg_iter(s, (k - 1) as nat)) }
}

/// A linear congruential generator; each draw is the new state.
pub struct Lcg {
    state: u64,
}

impl View for Lcg {
    type V = int;

    closed spec fn view(&self) -> int {
        self.state as int
    }
}

impl Lcg {
    #[verifier::type_invariant]
    spec fn inv(&self) -> bool {
        self.state < MODULUS
    }

    /// A generator whose state is `seed` reduced modulo 2^31.
    pub fn new(seed: u64) -> (r: Lcg)
        ensures
            r@ == seed as int % (MODULUS as int),
    {
        Lcg { state: seed % MODULUS }
    }

    /// Advances the state and returns it.
    pub fn next_random(&mut self) -> (r: usize)
        ensures
            final(self)@ == lcg_next(old(self)@),
            r as int == final(self)@,
    {
        proof {
            use_type_invariant(&*self);
        }
        let s = self.state;
        assert(1103515245 * s + 12345 <= u64::MAX) by (nonlinear_arith)
            requires s < MODULUS;
        let n = (1103515245 * s + 12345) % MODULUS;
        self.state = n;
        n as usize
    }
}

} // verus!
