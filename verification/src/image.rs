use vstd::prelude::*;

use crate::bitmap::Bitmap;

verus! {

/// Tag naming the container an image was decoded from; the decoded headers
/// ride along so the image can be re-encoded in the same shape.
#[derive(Debug, Clone, Copy, PartialEq, Eq, Structural)]
pub enum ImageFormat {
    BMP(Bitmap),
}

/// A raster image: `width * height` pixels, each three 8-bit channels stored
/// interleaved in row-major order (so the buffer holds exactly
/// `width * height * 3` bytes).
#[derive(Debug, Clone)]
pub struct Image {
    pub width: u32,
    pub height: u32,
    pub pixels: Vec<u8>,
    pub format: ImageFormat,
}

/// Channel `c` of pixel number `p` in an interleaved 3-channel buffer.
pub open spec fn chan(pixels: Seq<u8>, p: int, c: int) -> u8 {
    pixels[3 * p + c]
}

/// Flat pixel number of the pixel at column `x`, row `y`.
pub open spec fn pix(width: int, x: int, y: int) -> int {
    y * width + x
}

/// Integer luma of a blue/green/red sample, rounded to nearest
/// (weights 114/1000, 587/1000, 299/1000).
pub open spec fn luma(b: int, g: int, r: int) -> int {
    (114 * b + 587 * g + 299 * r + 500) / 1000
}

/// Luma of pixel number `p` of a buffer.
pub open spec fn luma_of(pixels: Seq<u8>, p: int) -> int {
    luma(chan(pixels, p, 0) as int, chan(pixels, p, 1) as int, chan(pixels, p, 2) as int)
}

impl Image {
    /// Well-formed: positive dimensions and a buffer of exactly
    /// `width * height` interleaved 3-byte samples.
    /// Number of pixels.
    pub open spec fn npix(self) -> int {
        (self.width as int) * (self.height as int)
    }

    pub open spec fn wf(self) -> bool {
        &&& self.width >= 1
        &&& self.height >= 1
        &&& self.pixels@.len() == 3 * self.npix()
    }

    /// Replaces every pixel by its luma, replicated across all three
    /// channels; dimensions and format tag are kept.
    pub fn to_grayscale(&self) -> (out: Image)
        requires
            self.wf(),
        ensures
            out.wf(),
            out.width == self.width,
            out.height == self.height,
            out.format == self.format,
            forall|p: int, c: int|
                0 <= p < self.npix() && 0 <= c < 3
                    ==> chan(out.pixels@, p, c) as int == luma_of(self.pixels@, p),
    {
        let len = self.pixels.len();
        proof {
            assert(0 <= (self.width as int) * (self.height as int)) by (nonlinear_arith);
        }
        let size = (self.width as usize) * (self.height as usize);
        let mut grayscale_pixels: Vec<u8> = Vec::new();
        for i in 0..size
            invariant
                self.wf(),
                size == self.npix(),
                self.pixels@.len() <= usize::MAX,
                grayscale_pixels@.len() == 3 * i,
                forall|p: int, c: int|
                    0 <= p < i && 0 <= c < 3
                        ==> chan(grayscale_pixels@, p, c) as int == luma_of(self.pixels@, p),
        {
            assert(3 * i + 2 < self.pixels@.len());
            let b = self.pixels[3 * i] as u32;
            let g = self.pixels[3 * i + 1] as u32;
            let r = self.pixels[3 * i + 2] as u32;

            let weighted: u32 = 114 * b + 587 * g + 299 * r + 500;
            assert(weighted / 1000 <= 255);
            let gray = (weighted / 1000) as u8;

            let ghost prev = grayscale_pixels@;
            grayscale_pixels.push(gray);
            grayscale_pixels.push(gray);
            grayscale_pixels.push(gray);
            proof {
                assert forall|p: int, c: int| 0 <= p < i + 1 && 0 <= c < 3 implies chan(
                    grayscale_pixels@,
                    p,
                    c,
                ) as int == luma_of(self.pixels@, p) by {
                    if p < i {
                        assert(chan(prev, p, c) as int == luma_of(self.pixels@, p));
                        assert(grayscale_pixels@[3 * p + c] == prev[3 * p + c]);
                    } else {
                        assert(grayscale_pixels@[3 * p + c] == gray);
                    }
                }
            }
        }

        Image {
            width: self.width,
            height: self.height,
            pixels: grayscale_pixels,
            format: self.format,
        }
    }
}

} // verus!
