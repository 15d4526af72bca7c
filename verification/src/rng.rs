//! Seeded pseudo-random generators, bit for bit, so that a seed always
//! gives the same pattern.
use vstd::prelude::*;

verus! {

/// Addition modulo 2^32.
pub open spec fn add32(a: u32, b: u32) -> u32 {
    ((a as int + b as int) % 0x1_0000_0000) as u32
}

/// Multiplication modulo 2^32.
pub open spec fn mul32(a: u32, b: u32) -> u32 {
    ((a as int * b as int) % 0x1_0000_0000) as u32
}

/// The state reached from `s` by one Mulberry32 step.
pub open spec fn mulberry_state(s: u32) -> u32 {
    add32(s, 0x6D2B79F5)
}

/// The 32-bit output that Mulberry32 draws on entering state `s`.
pub open spec fn mulberry_output(s: u32) -> u32 {
    let t0 = mul32(s ^ (s >> 15u32), s | 1u32);
    let t1 = t0 ^ add32(t0, mul32(t0 ^ (t0 >> 7u32), t0 | 61u32));
    t1 ^ (t1 >> 14u32)
}

/// The state after `n` steps from `seed`.
pub open spec fn mulberry_after(seed: u32, n: nat) -> u32 {
    ((seed as int + n * 0x6D2B79F5) % 0x1_0000_0000) as u32
}

/// The `n`-th (from 0) 32-bit draw of a generator seeded with `seed`.
pub open spec fn mulberry_draw(seed: u32, n: nat) -> u32 {
    mulberry_output(mulberry_after(seed, n + 1))
}

/// `floor(u / 2^32 * k)`: a draw scaled to `0..k`.
pub open spec fn scaled_draw(u: u32, k: nat) -> nat {
    (u as nat * k) / 0x1_0000_0000
}

pub proof fn lemma_mulberry_after_step(seed: u32, n: nat)
    ensures
        mulberry_state(mulberry_after(seed, n)) == mulberry_after(seed, n + 1),
{
    let x = seed as int + n * 0x6D2B79F5;
    vstd::arithmetic::div_mod::lemma_add_mod_noop_right(0x6D2B79F5, x, 0x1_0000_0000);
    assert(seed as int + (n + 1) * 0x6D2B79F5 == x + 0x6D2B79F5) by (nonlinear_arith)
        requires
            x == seed as int + n * 0x6D2B79F5,
    ;
}

/// Mulberry32: the seeded generator behind every seeded variation.
pub struct Mulberry(pub u32);

impl Mulberry {
    /// Advances the state and returns the next 32 raw bits (the unit value
    /// is these bits divided by 2^32).
    pub fn next_u32(&mut self) -> (r: u32)
        ensures
            final(self).0 == mulberry_state(old(self).0),
            r == mulberry_output(mulberry_state(old(self).0)),
    {
        self.0 = self.0.wrapping_add(0x6D2B79F5);
        let s = self.0;
        let mut t = (s ^ (s >> 15)).wrapping_mul(s | 1);
        t ^= t.wrapping_add((t ^ (t >> 7)).wrapping_mul(t | 61));
        t ^ (t >> 14)
    }

    /// The next draw scaled to `0..k`, exactly `floor(unit * k)` of the
    /// unit value (the raw bits divided by 2^32).
    pub fn below(&mut self, k: u32) -> (r: u32)
        requires
            k > 0,
        ensures
            final(self).0 == mulberry_state(old(self).0),
            r == scaled_draw(mulberry_output(mulberry_state(old(self).0)), k as nat),
            r < k,
    {
        let u = self.next_u32();
        assert((u as int) * (k as int) < 0x1_0000_0000 * 0x1_0000_0000) by (nonlinear_arith)
            requires
                u < 0x1_0000_0000,
                k < 0x1_0000_0000,
        ;
        let wide = (u as u64) * (k as u64);
        let q = wide / 0x1_0000_0000u64;
        assert(q < k) by (nonlinear_arith)
            requires
                wide == u as int * k as int,
                q == wide / 0x1_0000_0000,
                u < 0x1_0000_0000,
                k > 0,
        ;
        q as u32
    }
}

/// The state after one step of the linear congruential generator.
pub open spec fn lcg_state(s: u32) -> u32 {
    add32(mul32(s, 1664525), 1013904223)
}

/// The linear congruential generator behind the composed growth families.
pub struct Lcg(pub u32);

impl Lcg {
    /// Advances the state and returns it: the next 32 raw bits.
    pub fn next_u32(&mut self) -> (r: u32)
        ensures
            final(self).0 == lcg_state(old(self).0),
            r == final(self).0,
    {
        self.0 = self.0.wrapping_mul(1664525).wrapping_add(1013904223);
        self.0
    }
}

} // verus!
