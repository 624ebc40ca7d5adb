use vstd::prelude::*;
use crate::geometry::CanvasSize;

verus! {

/// Channel layout of a texture's pixels.
#[derive(Clone, Copy, Debug, PartialEq, Eq, Structural)]
pub enum Format {
    Grayscale,
    RGB,
    RGBA,
}

impl Format {
    pub open spec fn bytes(self) -> nat {
        match self {
            Format::Grayscale => 1,
            Format::RGB => 3,
            Format::RGBA => 4,
        }
    }

    /// Number of bytes that one pixel takes in this format.
    pub fn bytes_for_format(format: Format) -> (r: u8)
        ensures
            r == format.bytes(),
    {
        match format {
            Format::Grayscale => 1,
            Format::RGB => 3,
            Format::RGBA => 4,
        }
    }
}

/// A pixel buffer, row-major from the top row down.
pub struct Texture {
    pub size: CanvasSize,
    pub format: Format,
    pub pixels: Vec<u8>,
}

impl Texture {
    /// The buffer holds exactly one pixel per position of the canvas.
    pub open spec fn wf(&self) -> bool {
        self.pixels@.len() == self.size.width * self.size.height * self.format.bytes()
    }

    pub fn new(size: CanvasSize, format: Format, pixels: Vec<u8>) -> (r: Texture)
        requires
            pixels@.len() == size.width * size.height * format.bytes(),
        ensures
            r.wf(),
            r.size == size,
            r.format == format,
            r.pixels@ == pixels@,
    {
        Texture { size, format, pixels }
    }
}

} // verus!
