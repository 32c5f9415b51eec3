//! Where each image goes on the canvas.
use vstd::prelude::*;
use std::path::PathBuf;

verus! {

/// Pixel coordinates and size for one image on the canvas.
pub struct Placement {
    /// The image file.
    pub path: PathBuf,
    /// Left edge.
    pub x: u32,
    /// Top edge.
    pub y: u32,
    /// Width.
    pub w: u32,
    /// Height.
    pub h: u32,
}

impl Placement {
    /// Whether the placement covers any pixel; one of zero width or height is
    /// skipped when drawing.
    pub fn has_area(&self) -> (r: bool)
        ensures
            r == (self.w > 0 && self.h > 0),
    {
        self.w != 0 && self.h != 0
    }
}

} // verus!
