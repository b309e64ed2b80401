use vstd::prelude::*;

verus! {

/// `x` modulo 2^32, as a `u32`.
pub open spec fn wrap32(x: int) -> u32 {
    (x % 0x1_0000_0000) as u32
}

/// The state a sampler seeded with `seed` at pixel (`x`, `y`) starts from.
pub open spec fn seeded_state(seed: u32, x: u32, y: u32) -> u32 {
    seed ^ wrap32(48619 * x) ^ wrap32(95461 * y)
}

/// The state after `s`: one step of the linear congruential generator.
pub open spec fn next_state(s: u32) -> u32 {
    wrap32(s * 747796405 + 2891336453)
}

/// The number drawn from state `s`: the state permuted by a random xorshift
/// and a multiplication (the PCG "RXS-M-XS" output function).
pub open spec fn permuted(s: u32) -> u32 {
    let word = wrap32(xorshifted(s) * 277803737);
    (word >> 22u32) ^ word
}

/// `s` xored with itself shifted right by 4 to 19 bits, chosen by its top
/// four bits.
pub open spec fn xorshifted(s: u32) -> u32 {
    (s >> (((s >> 28u32) + 4u32) as u32)) ^ s
}

/// A small pseudo-random number generator, seeded per pixel.
#[derive(Clone, Copy, Debug)]
pub struct Noise {
    pub state: u32,
}

proof fn lemma_mul_add_mod(a: u32, m: u32, c: u32)
    ensures
        vstd::wrapping::u32_specs::wrapping_add(vstd::wrapping::u32_specs::wrapping_mul(a, m), c)
            == wrap32(a * m + c),
{
    let p = a as int * m as int;
    let q = p % 0x1_0000_0000;
    assert(0 <= q < 0x1_0000_0000);
    assert((q + c) % 0x1_0000_0000 == (p + c) % 0x1_0000_0000) by (nonlinear_arith)
        requires
            q == p % 0x1_0000_0000,
            p >= 0,
            c >= 0,
    {
        vstd::arithmetic::div_mod::lemma_add_mod_noop(p, c as int, 0x1_0000_0000);
        vstd::arithmetic::div_mod::lemma_mod_twice(p, 0x1_0000_0000);
        vstd::arithmetic::div_mod::lemma_small_mod(c as nat, 0x1_0000_0000nat);
    }
    if q + c >= 0x1_0000_0000 {
        assert((q + c) % 0x1_0000_0000 == q + c - 0x1_0000_0000) by (nonlinear_arith)
            requires
                0x1_0000_0000 <= q + c < 2 * 0x1_0000_0000,
        ;
    } else {
        assert((q + c) % 0x1_0000_0000 == q + c) by (nonlinear_arith)
            requires
                0 <= q + c < 0x1_0000_0000,
        ;
    }
}

impl Noise {
    /// A generator for pixel (`x`, `y`) under `seed`.
    pub fn new(seed: u32, x: u32, y: u32) -> (r: Self)
        ensures
            r.state == seeded_state(seed, x, y),
    {
        Self { state: seed ^ 48619u32.wrapping_mul(x) ^ 95461u32.wrapping_mul(y) }
    }

    /// Draws a number, stepping the state.
    pub fn sample_int(&mut self) -> (r: u32)
        ensures
            r == permuted(old(self).state),
            final(self).state == next_state(old(self).state),
    {
        let state = self.state;
        proof {
            lemma_mul_add_mod(state, 747796405, 2891336453);
        }
        self.state = self.state.wrapping_mul(747796405).wrapping_add(2891336453);
        assert(state >> 28u32 <= 15) by (bit_vector);
        let shift = (state >> 28) + 4;
        let shifted = (state >> shift) ^ state;
        proof {
            assert(shifted == xorshifted(state));
            lemma_mul_add_mod(shifted, 277803737, 0);
        }
        let word = shifted.wrapping_mul(277803737);

        (word >> 22) ^ word
    }
}

} // verus!
