//! Six-bit values.
use vstd::prelude::*;

verus! {

/// An unsigned 6-bit integer: only values from 0 to 63 can be represented.
#[derive(Debug, Clone, Copy)]
pub struct U6(u8);

impl U6 {
    #[verifier::type_invariant]
    spec fn fits(self) -> bool {
        self.0 < 64
    }

    pub closed spec fn view(self) -> int {
        self.0 as int
    }

    /// The low six bits of `x`.
    pub fn from_low_six_bits(x: u8) -> (r: U6)
        ensures
            r@ == x as int % 64,
    {
        let v = x & 0x3f;
        assert(x & 0x3f == x % 64 && x % 64 < 64) by (bit_vector);
        U6(v)
    }

    /// The value, in `0..64`.
    pub fn get(self) -> (r: u8)
        ensures
            r as int == self@,
            r < 64,
    {
        proof {
            use_type_invariant(&self);
        }
        self.0
    }
}

} // verus!
