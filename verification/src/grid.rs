use vstd::prelude::*;

verus! {

/// A rectangular grid of monochrome pixels, stored row-major,
/// top row first and columns left to right within a row.
/// A pixel value of zero is black; any non-zero value is white.
pub struct PixelGrid {
    pub width: usize,
    pub height: usize,
    pub pixels: Vec<u8>,
}

impl PixelGrid {
    /// The grid holds exactly `width * height` pixel values.
    pub open spec fn wf(&self) -> bool {
        self.pixels@.len() == self.width * self.height
    }

    /// The pixel in column `x` of row `y`.
    pub open spec fn pixel(&self, x: int, y: int) -> u8 {
        self.pixels@[y * self.width + x]
    }

    /// Builds a grid after checking that the pixel count matches the
    /// dimensions; rejects a mismatched pixel vector.
    pub fn new(width: usize, height: usize, pixels: Vec<u8>) -> (r: Option<PixelGrid>)
        ensures
            r is Some <==> pixels@.len() == width * height,
            r matches Some(g) ==> g.wf() && g.width == width && g.height == height
                && g.pixels@ == pixels@,
    {
        let len = pixels.len();
        match width.checked_mul(height) {
            Some(n) => {
                if n == len {
                    Some(PixelGrid { width, height, pixels })
                } else {
                    None
                }
            },
            None => None,
        }
    }
}

} // verus!
