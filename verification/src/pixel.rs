//! Four-channel pixels.

use vstd::prelude::*;

verus! {

/// One pixel: red, green, blue and alpha, eight bits each.
#[derive(Copy, Clone, Debug, PartialEq, Eq)]
pub struct BarePixel {
    r: u8,
    g: u8,
    b: u8,
    a: u8,
}

impl BarePixel {
    /// The red channel.
    pub closed spec fn red(self) -> u8 {
        self.r
    }

    /// The green channel.
    pub closed spec fn green(self) -> u8 {
        self.g
    }

    /// The blue channel.
    pub closed spec fn blue(self) -> u8 {
        self.b
    }

    /// The alpha channel.
    pub closed spec fn alpha(self) -> u8 {
        self.a
    }

    /// A pixel is what its four channels are.
    pub proof fn lemma_channels_make_the_pixel(self, other: BarePixel)
        requires
            self.red() == other.red(),
            self.green() == other.green(),
            self.blue() == other.blue(),
            self.alpha() == other.alpha(),
        ensures
            self == other,
    {
    }

    /// Builds a pixel from its channels in the order red, green, blue, alpha.
    pub fn new(arr: [u8; 4]) -> (p: Self)
        ensures
            p.red() == arr[0],
            p.green() == arr[1],
            p.blue() == arr[2],
            p.alpha() == arr[3],
    {
        BarePixel { r: arr[0], g: arr[1], b: arr[2], a: arr[3] }
    }

    /// The channels in the order red, green, blue, alpha.
    pub fn extract(self) -> (arr: [u8; 4])
        ensures
            arr[0] == self.red(),
            arr[1] == self.green(),
            arr[2] == self.blue(),
            arr[3] == self.alpha(),
    {
        [self.r, self.g, self.b, self.a]
    }
}

} // verus!
