use vstd::prelude::*;

verus! {

/// The pixel size of one glyph's bitmap, keyed by its character.
#[derive(Clone, Copy, Debug, PartialEq, Eq, Structural)]
pub struct GlyphBox {
    pub character: char,
    pub width: u32,
    pub height: u32,
}

/// A box placed on the canvas: its top-left corner and its size.
#[derive(Clone, Copy, Debug, PartialEq, Eq, Structural)]
pub struct Placement {
    pub character: char,
    pub x: u32,
    pub y: u32,
    pub width: u32,
    pub height: u32,
}

/// Width and height of a canvas, in pixels.
#[derive(Clone, Copy, Debug, PartialEq, Eq, Structural)]
pub struct CanvasSize {
    pub width: u32,
    pub height: u32,
}

/// The order in which boxes are packed: taller first, then by character,
/// then narrower first.
pub open spec fn box_precedes(a: GlyphBox, b: GlyphBox) -> bool {
    ||| a.height > b.height
    ||| (a.height == b.height && a.character < b.character)
    ||| (a.height == b.height && a.character == b.character && a.width <= b.width)
}

/// Executable form of `box_precedes`.
pub fn precedes(a: &GlyphBox, b: &GlyphBox) -> (r: bool)
    ensures
        r == box_precedes(*a, *b),
{
    a.height > b.height || (a.height == b.height && a.character < b.character) || (a.height
        == b.height && a.character == b.character && a.width <= b.width)
}

pub proof fn lemma_precedes_order(a: GlyphBox, b: GlyphBox, c: GlyphBox)
    ensures
        box_precedes(a, b) || box_precedes(b, a),
        box_precedes(a, b) && box_precedes(b, a) ==> a == b,
        box_precedes(a, b) && box_precedes(b, c) ==> box_precedes(a, c),
{
}

} // verus!
