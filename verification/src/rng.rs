//! The per-worker pseudo-random number generator: a 64-bit mixer in the
//! wyhash style.  It is deterministic from its seed; seeding itself is the
//! caller's affair.

use vstd::prelude::*;

verus! {

/// One step of the generator: add the increment, wrapping.
pub open spec fn wy_step(s: u64) -> u64 {
    (((s as int) + 0xa0761d6478bd642f) % 0x1_0000_0000_0000_0000) as u64
}

/// The output for a state: the two halves of a 128-bit product, folded
/// together.
pub open spec fn wy_mix(s: u64) -> u64 {
    let t = (s as int) * ((s ^ 0xe7037ed1a0b428db) as int);
    ((t / 0x1_0000_0000_0000_0000) as u64) ^ ((t % 0x1_0000_0000_0000_0000) as u64)
}

/// A seeded non-cryptographic 64-bit generator.
pub struct Rng {
    pub state: u64,
}

impl Rng {
    pub fn new(seed: u64) -> (r: Rng)
        ensures
            r.state == seed,
    {
        Rng { state: seed }
    }

    /// The next 64-bit value.
    pub fn gen(&mut self) -> (r: u64)
        ensures
            final(self).state == wy_step(old(self).state),
            r == wy_mix(final(self).state),
    {
        let s128 = (self.state as u128) + 0xa0761d6478bd642f;
        let masked = s128 & 0xffff_ffff_ffff_ffff;
        proof {
            assert(s128 & 0xffff_ffff_ffff_ffff == s128 % 0x1_0000_0000_0000_0000)
                by (bit_vector);
            assert(s128 & 0xffff_ffff_ffff_ffff <= 0xffff_ffff_ffff_ffff) by (bit_vector);
        }
        let s = masked as u64;
        self.state = s;
        let a = s as u128;
        let b = (s ^ 0xe7037ed1a0b428db) as u128;
        proof {
            assert(a * b <= 0xffff_ffff_ffff_ffff * 0xffff_ffff_ffff_ffff) by (nonlinear_arith)
                requires
                    0 <= a <= 0xffff_ffff_ffff_ffff,
                    0 <= b <= 0xffff_ffff_ffff_ffff,
            ;
        }
        let t = a * b;
        let hi128 = t >> 64;
        let lo128 = t & 0xffff_ffff_ffff_ffff;
        proof {
            assert(t >> 64 == t / 0x1_0000_0000_0000_0000) by (bit_vector);
            assert(t >> 64 <= 0xffff_ffff_ffff_ffff) by (bit_vector);
            assert(t & 0xffff_ffff_ffff_ffff == t % 0x1_0000_0000_0000_0000) by (bit_vector);
            assert(t & 0xffff_ffff_ffff_ffff <= 0xffff_ffff_ffff_ffff) by (bit_vector);
        }
        let hi = hi128 as u64;
        let lo = lo128 as u64;
        hi ^ lo
    }
}

} // verus!
