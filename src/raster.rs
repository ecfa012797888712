//! An RGBA raster held as plain bytes: four channel bytes per pixel, pixels
//! in row-major order.
use vstd::prelude::*;

verus! {

/// A `width` by `height` RGBA image, 8 bits per channel.
pub struct RasterImage {
    pub width: u32,
    pub height: u32,
    pub pixels: Vec<u8>,
}

/// Where channel `t.2` of pixel `(t.0, t.1)` sits in the bytes of an image
/// `width` pixels wide.
pub open spec fn offset(width: u32, t: (u32, u32, u8)) -> int {
    (t.1 * width + t.0) * 4 + t.2
}

impl RasterImage {
    /// The bytes are exactly four per pixel.
    pub open spec fn wf(&self) -> bool {
        self.pixels@.len() == self.width * self.height * 4
    }

    /// The image of the given size with these RGBA bytes, or `None` when
    /// their number is not four per pixel.
    pub fn from_rgba(width: u32, height: u32, pixels: Vec<u8>) -> (r: Option<RasterImage>)
        ensures
            r is Some <==> pixels@.len() == width * height * 4,
            r matches Some(img) ==> img.wf() && img.width == width && img.height == height
                && img.pixels@ == pixels@,
    {
        assert((width as u128) * (height as u128) * 4 < 0x1_0000_0000_0000_0000_0000) by (nonlinear_arith);
        if (width as u128) * (height as u128) * 4 == pixels.len() as u128 {
            Some(RasterImage { width, height, pixels })
        } else {
            None
        }
    }

    /// The image of the given size with every pixel set to `rgba`.
    pub fn filled(width: u32, height: u32, rgba: [u8; 4]) -> (r: RasterImage)
        requires
            width * height * 4 <= usize::MAX,
        ensures
            r.wf(),
            r.width == width,
            r.height == height,
            forall|k: int| 0 <= k < r.pixels@.len() ==> #[trigger] r.pixels@[k] == rgba@[k % 4],
    {
        let len: usize = width as usize * height as usize * 4;
        let mut pixels: Vec<u8> = Vec::with_capacity(len);
        let mut k: usize = 0;
        while k < len
            invariant
                k <= len,
                pixels@.len() == k,
                forall|j: int| 0 <= j < k ==> #[trigger] pixels@[j] == rgba@[j % 4],
            decreases len - k,
        {
            pixels.push(rgba[k % 4]);
            k = k + 1;
        }
        RasterImage { width, height, pixels }
    }
}

} // verus!
