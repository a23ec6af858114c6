use vstd::prelude::*;

verus! {

/// One colour of the two-band gradient, chosen from the escape-time quotient.
/// `Bright` and `Dark` carry the quotient scaled to `0..=255`.
#[derive(Clone, Copy, Debug, PartialEq, Eq, Structural)]
pub enum Shade {
    /// The point did not escape: it is presumed to lie in the set.
    InSet,
    /// The quotient is above one half: the white-green highlight band.
    Bright(u8),
    /// The quotient is at most one half: the dark green band.
    Dark(u8),
}

/// The red, green and blue channels of a shade.
pub open spec fn shade_channels(s: Shade) -> (u8, u8, u8) {
    match s {
        Shade::InSet => (0u8, 0u8, 0u8),
        Shade::Bright(level) => (level, 255u8, level),
        Shade::Dark(level) => (0u8, level, 0u8),
    }
}

/// The pixel colour of a shade.
pub fn shade_rgb(s: Shade) -> (r: (u8, u8, u8))
    ensures
        r == shade_channels(s),
{
    match s {
        Shade::InSet => (0, 0, 0),
        Shade::Bright(level) => (level, 255, level),
        Shade::Dark(level) => (0, level, 0),
    }
}

} // verus!
