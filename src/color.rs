use vstd::prelude::*;

verus! {

/// An opaque RGB color, one byte per channel.
#[derive(Clone, Copy, Debug, PartialEq, Eq, Structural)]
pub struct Color {
    pub r: u8,
    pub g: u8,
    pub b: u8,
}

impl Color {
    /// The channels as a plain triple (red, green, blue).
    pub open spec fn rgb(self) -> (u8, u8, u8) {
        (self.r, self.g, self.b)
    }

    pub fn new(r: u8, g: u8, b: u8) -> (c: Color)
        ensures
            c.r == r && c.g == g && c.b == b,
    {
        Color { r, g, b }
    }
}

/// Why a color list was rejected.
#[derive(Clone, Debug, PartialEq, Eq)]
pub enum ColorError {
    /// A token, once trimmed and stripped of its `#`, is not six characters long.
    InvalidFormat,
    /// A six-character token holds a character that is not a hex digit; carries
    /// the trimmed token as it was written.
    InvalidHexDigit(String),
}

/// What a `ColorError` says, with its token as a character sequence.
pub enum ColorFault {
    InvalidFormat,
    InvalidHexDigit(Seq<char>),
}

impl View for ColorError {
    type V = ColorFault;

    open spec fn view(&self) -> ColorFault {
        match self {
            ColorError::InvalidFormat => ColorFault::InvalidFormat,
            ColorError::InvalidHexDigit(t) => ColorFault::InvalidHexDigit(t@),
        }
    }
}

} // verus!
