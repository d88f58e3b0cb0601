use vstd::prelude::*;

verus! {

/// A colour packed as 0xRRGGBB.
#[derive(Debug, Clone, Copy, PartialEq, Eq, Structural)]
pub struct Color(pub u32);

impl Color {
    pub fn new(r: u8, g: u8, b: u8) -> (c: Self)
        ensures
            c.0 == b + 256 * g + 65536 * r,
    {
        proof {
            assert((b as u32) | ((g as u32) << 8u32) | ((r as u32) << 16u32) == b + 256 * g + 65536 * r)
                by (bit_vector);
        }
        Color((b as u32) | ((g as u32) << 8u32) | ((r as u32) << 16u32))
    }
}

} // verus!
