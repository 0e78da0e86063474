use vstd::prelude::*;

use crate::ppm::Rgb;

verus! {

/// An image held as plain bytes: `height` rows of `width` pixels, top row
/// first, three bytes (red, green, blue) per pixel.
#[derive(Clone, Debug)]
pub struct Image {
    pub width: u32,
    pub height: u32,
    pub data: Vec<u8>,
}

/// The place of the first byte of pixel `(x, y)`.
pub open spec fn byte_index(width: int, x: int, y: int) -> int {
    3 * (y * width + x)
}

impl Image {
    /// The bytes hold exactly the pixels.
    pub open spec fn wf(&self) -> bool {
        self.data@.len() == 3 * self.width * self.height
    }

    /// The pixel in column `x` of row `y`.
    pub open spec fn pixel_spec(&self, x: int, y: int) -> Rgb {
        let at = byte_index(self.width as int, x, y);
        Rgb { r: self.data@[at], g: self.data@[at + 1], b: self.data@[at + 2] }
    }

    /// The image of the given size over `data`; none when `data` does not
    /// hold three bytes for each pixel.
    pub fn new(width: u32, height: u32, data: Vec<u8>) -> (r: Option<Image>)
        ensures
            r is Some <==> data@.len() == 3 * width * height,
            r matches Some(img) ==> img.wf() && img.width == width && img.height == height
                && img.data@ == data@,
    {
        let w = width as u64;
        let h = height as u64;
        assert(w * h <= 0xffff_ffff_ffff_ffff) by (nonlinear_arith)
            requires
                w <= 0xffff_ffff,
                h <= 0xffff_ffff,
        ;
        let pixels: u64 = w * h;
        let len = data.len() as u64;
        assert(3 * width * height == 3 * (w * h)) by (nonlinear_arith)
            requires
                w == width,
                h == height,
        ;
        if pixels > len / 3 {
            assert(3 * pixels > len) by (nonlinear_arith)
                requires
                    pixels > len / 3,
            ;
            return None;
        }
        assert(3 * pixels <= len) by (nonlinear_arith)
            requires
                pixels <= len / 3,
        ;
        if 3 * pixels != len {
            return None;
        }
        Some(Image { width, height, data })
    }

    /// The pixel in column `x` of row `y`.
    pub fn pixel(&self, x: u32, y: u32) -> (r: Rgb)
        requires
            self.wf(),
            x < self.width,
            y < self.height,
        ensures
            r == self.pixel_spec(x as int, y as int),
    {
        let w = self.width as usize;
        // The length of the bytes is a machine number, which bounds the index below.
        let _bytes = self.data.len();
        proof {
            let (wi, hi, xi, yi) = (self.width as int, self.height as int, x as int, y as int);
            assert(yi * wi + xi < hi * wi) by (nonlinear_arith)
                requires
                    xi < wi,
                    yi < hi,
                    0 <= xi,
                    0 <= yi,
            ;
            assert(hi * wi == wi * hi) by (nonlinear_arith);
            assert(0 <= yi * wi) by (nonlinear_arith)
                requires
                    0 <= yi,
                    0 <= wi,
            ;
            assert(3 * wi * hi == 3 * (hi * wi)) by (nonlinear_arith);
            assert(3 * (yi * wi + xi) + 2 < self.data@.len());
            assert(yi * wi <= usize::MAX);
            assert(3 * (yi * wi + xi) <= usize::MAX);
        }
        let row: usize = (y as usize) * w;
        assert(row == y as int * self.width as int);
        let at: usize = 3 * (row + (x as usize));
        Rgb { r: self.data[at], g: self.data[at + 1], b: self.data[at + 2] }
    }

    /// The pixel in column `x` of row `y`, each taken no further than the
    /// last column or row; none for an image without pixels.
    pub fn texel_clamped(&self, x: u32, y: u32) -> (r: Option<Rgb>)
        requires
            self.wf(),
        ensures
            r is None <==> (self.width == 0 || self.height == 0),
            r matches Some(c) ==> c == self.pixel_spec(
                if x < self.width { x as int } else { self.width - 1 },
                if y < self.height { y as int } else { self.height - 1 },
            ),
    {
        if self.width == 0 || self.height == 0 {
            return None;
        }
        let cx = if x < self.width { x } else { self.width - 1 };
        let cy = if y < self.height { y } else { self.height - 1 };
        Some(self.pixel(cx, cy))
    }
}

} // verus!
