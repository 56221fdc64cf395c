use vstd::prelude::*;

verus! {

/// A colour, expressed in the RGB, CMYK or grey colour spaces. Each component
/// ranges from 0 (none) to 255 (full intensity).
#[derive(Clone, Copy, Debug, PartialEq, Eq, Structural)]
pub enum Colour {
    /// DeviceRGB colour.
    RGB { r: u8, g: u8, b: u8 },
    /// DeviceCMYK colour.
    CMYK { c: u8, m: u8, y: u8, k: u8 },
    /// DeviceGray colour.
    Grey { g: u8 },
}

impl Colour {
    /// Create a new colour in the RGB space; r, g and b range from 0 to 255.
    pub fn new_rgb_bytes(r: u8, g: u8, b: u8) -> (c: Colour)
        ensures
            c == (Colour::RGB { r, g, b }),
    {
        Colour::RGB { r, g, b }
    }

    /// Create a new colour in the CMYK space; c, m, y and k range from 0 to 255.
    pub fn new_cmyk_bytes(c: u8, m: u8, y: u8, k: u8) -> (col: Colour)
        ensures
            col == (Colour::CMYK { c, m, y, k }),
    {
        Colour::CMYK { c, m, y, k }
    }

    /// Create a new colour in the grey space; g ranges from 0 (black) to 255 (white).
    pub fn new_grey_bytes(g: u8) -> (c: Colour)
        ensures
            c == (Colour::Grey { g }),
    {
        Colour::Grey { g }
    }

    /// Black, the default text colour.
    pub fn black() -> (c: Colour)
        ensures
            c == (Colour::Grey { g: 0 }),
    {
        Colour::Grey { g: 0 }
    }
}

} // verus!
