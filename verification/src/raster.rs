//! A grayscale raster held as plain bytes, row major.
//!
//! The planner reads its target through this type and darkens its working
//! canvas in it; both are bounded buffers whose every pixel is a visible,
//! specified value.
use vstd::prelude::*;

use vstd::pervasive::VecAdditionalExecFns;

verus! {

/// A row-major 8-bit grayscale buffer of `width * height` pixels.
pub struct GrayRaster {
    width: u32,
    height: u32,
    data: Vec<u8>,
}

/// The pixel at column `x`, row `y` sits at index `y * width + x` of a
/// row-major buffer, within bounds.
pub proof fn lemma_row_major(x: int, y: int, w: int, h: int)
    by (nonlinear_arith)
    requires
        0 <= x < w,
        0 <= y < h,
    ensures
        0 <= y * w + x < w * h,
{
}

impl GrayRaster {
    /// The raster's width in pixels.
    pub closed spec fn spec_width(&self) -> int {
        self.width as int
    }

    /// The raster's height in pixels.
    pub closed spec fn spec_height(&self) -> int {
        self.height as int
    }

    /// The raster's pixels, row major.
    pub closed spec fn pixels(&self) -> Seq<u8> {
        self.data@
    }

    /// The buffer holds exactly one byte per pixel, and the dimensions are
    /// machine-sized.
    pub open spec fn wf(&self) -> bool {
        &&& self.pixels().len() == self.spec_width() * self.spec_height()
        &&& 0 <= self.spec_width() < 0x1_0000_0000
        &&& 0 <= self.spec_height() < 0x1_0000_0000
    }

    /// The pixel at column `x`, row `y`.
    pub open spec fn pix(&self, x: int, y: int) -> u8 {
        self.pixels()[y * self.spec_width() + x]
    }

    /// A raster with every pixel zero.
    pub fn filled(width: u32, height: u32, value: u8) -> (r: GrayRaster)
        requires
            width * height <= usize::MAX,
        ensures
            r.wf(),
            r.spec_width() == width,
            r.spec_height() == height,
            r.pixels() =~= Seq::new((width * height) as nat, |i: int| value),
    {
        proof {
            crate::math::lemma_mul_le(
                width as int,
                height as int,
                width as int,
                height as int,
            );
        }
        let n: usize = (width as usize) * (height as usize);
        let mut data: Vec<u8> = Vec::new();
        let mut i: usize = 0;
        while i < n
            invariant
                i <= n,
                data@.len() == i,
                forall|j: int| 0 <= j < i ==> data@[j] == value,
            decreases n - i,
        {
            data.push(value);
            i = i + 1;
        }
        GrayRaster { width, height, data }
    }

    /// Wraps an existing row-major buffer; the length must match.
    pub fn from_data(width: u32, height: u32, data: Vec<u8>) -> (r: Option<GrayRaster>)
        ensures
            (data@.len() == width * height) <==> r is Some,
            r is Some ==> {
                let g = r->Some_0;
                &&& g.wf()
                &&& g.spec_width() == width
                &&& g.spec_height() == height
                &&& g.pixels() == data@
            },
    {
        proof {
            crate::math::lemma_mul_le(
                width as int,
                height as int,
                0xFFFF_FFFF,
                0xFFFF_FFFF,
            );
        }
        let n: u64 = (width as u64) * (height as u64);
        if data.len() as u64 == n {
            Some(GrayRaster { width, height, data })
        } else {
            None
        }
    }

    /// The width as a machine value.
    pub fn width(&self) -> (r: u32)
        ensures
            r == self.spec_width(),
    {
        self.width
    }

    /// The height as a machine value.
    pub fn height(&self) -> (r: u32)
        ensures
            r == self.spec_height(),
    {
        self.height
    }

    /// Reads one pixel.
    pub fn get_pixel(&self, x: u32, y: u32) -> (r: u8)
        requires
            self.wf(),
            x < self.spec_width(),
            y < self.spec_height(),
        ensures
            r == self.pix(x as int, y as int),
    {
        proof {
            lemma_row_major(x as int, y as int, self.spec_width(), self.spec_height());
        }
        let n: usize = self.data.len();
        let idx: usize = (y as usize) * (self.width as usize) + (x as usize);
        self.data[idx]
    }

    /// Writes one pixel.
    pub fn set_pixel(&mut self, x: u32, y: u32, value: u8)
        requires
            old(self).wf(),
            x < old(self).spec_width(),
            y < old(self).spec_height(),
        ensures
            final(self).wf(),
            final(self).spec_width() == old(self).spec_width(),
            final(self).spec_height() == old(self).spec_height(),
            final(self).pixels() == old(self).pixels().update(
                y * old(self).spec_width() + x,
                value,
            ),
    {
        proof {
            lemma_row_major(x as int, y as int, self.spec_width(), self.spec_height());
        }
        let n: usize = self.data.len();
        let idx: usize = (y as usize) * (self.width as usize) + (x as usize);
        self.data.set(idx, value);
    }

    /// Wraps a row-major buffer whose length is known to match.
    pub fn from_data_exact(width: u32, height: u32, data: Vec<u8>) -> (r: GrayRaster)
        requires
            data@.len() == width * height,
        ensures
            r.wf(),
            r.spec_width() == width,
            r.spec_height() == height,
            r.pixels() == data@,
    {
        GrayRaster { width, height, data }
    }

    /// Reads the pixel at a row-major index.
    pub fn get_index(&self, i: usize) -> (r: u8)
        requires
            i < self.pixels().len(),
        ensures
            r == self.pixels()[i as int],
    {
        self.data[i]
    }

    /// An independent copy with the same dimensions and pixels.
    pub fn duplicate(&self) -> (r: GrayRaster)
        ensures
            r.spec_width() == self.spec_width(),
            r.spec_height() == self.spec_height(),
            r.pixels() == self.pixels(),
            r.wf() <==> self.wf(),
    {
        let data = self.data.clone();
        proof {
            assert(data@ =~= self.data@);
        }
        GrayRaster { width: self.width, height: self.height, data }
    }

    /// The number of pixels in the buffer.
    pub fn len(&self) -> (n: usize)
        ensures
            n == self.pixels().len(),
    {
        self.data.len()
    }

    /// Hands back the raw row-major bytes.
    pub fn into_data(self) -> (r: Vec<u8>)
        ensures
            r@ == self.pixels(),
    {
        self.data
    }
}

} // verus!
