use vstd::prelude::*;

verus! {

/// A gamma-encoded sRGB colour with one byte per channel.
#[derive(Clone, Copy, PartialEq, Eq, Structural, Hash, Debug)]
pub struct RGB255 {
    pub r: u8,
    pub g: u8,
    pub b: u8,
}

impl RGB255 {
    pub fn new(r: u8, g: u8, b: u8) -> (c: Self)
        ensures
            c.r == r,
            c.g == g,
            c.b == b,
    {
        RGB255 { r, g, b }
    }
}

} // verus!
