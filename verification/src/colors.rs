use vstd::prelude::*;

verus! {

/// A colour as stored in the framebuffer.
///
/// Each channel is measured in thousandths: `1000` stands for full intensity
/// on the usual `[0, 1]` scale, and values outside that range are legal and
/// are only clamped when an image is encoded.
#[derive(Debug, Clone, Copy, PartialEq, Eq, Structural)]
pub struct Color {
    pub red: i32,
    pub green: i32,
    pub blue: i32,
}

/// The colour with the given channel values, in thousandths.
pub open spec fn rgb(red: i32, green: i32, blue: i32) -> Color {
    Color { red, green, blue }
}

impl Color {
    pub fn new(red: i32, green: i32, blue: i32) -> (c: Color)
        ensures
            c == rgb(red, green, blue),
    {
        Color { red, green, blue }
    }
}

} // verus!
