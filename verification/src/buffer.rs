//! The framebuffer: one frame of pixels, four bytes each, written one
//! pixel at a time as rays are traced.

use vstd::prelude::*;
use crate::color::Color;
use crate::resolution::area;
use crate::resolution::Resolution;

verus! {

/// Position of pixel `(x, y)`'s first byte in the frame's byte run.
pub open spec fn pixel_index(res: Resolution, x: int, y: int) -> int {
    4 * (x + y * res.0)
}

/// A frame of pixels in row-major order, four bytes per pixel.
pub struct Buffer {
    resolution: Resolution,
    pixels: Vec<u8>,
}

impl Buffer {
    /// The frame's resolution.
    pub closed spec fn spec_res(&self) -> Resolution {
        self.resolution
    }

    /// The frame's bytes, row by row.
    pub closed spec fn bytes(&self) -> Seq<u8> {
        self.pixels@
    }

    /// The byte run holds exactly four bytes per pixel of the resolution.
    pub open spec fn wf(&self) -> bool {
        &&& 0 <= self.spec_res().0
        &&& 0 <= self.spec_res().1
        &&& self.bytes().len() == 4 * (self.spec_res().0 * self.spec_res().1)
    }

    /// Allocates a zeroed frame for the given resolution.
    pub fn new(resolution: Resolution) -> (b: Buffer)
        requires
            0 <= resolution.0,
            0 <= resolution.1,
            resolution.0 * resolution.1 <= i32::MAX,
            4 * (resolution.0 * resolution.1) <= usize::MAX,
        ensures
            b.wf(),
            b.spec_res() == resolution,
            forall|i: int| 0 <= i < b.bytes().len() ==> b.bytes()[i] == 0u8,
    {
        let n = area(resolution);
        Buffer { resolution, pixels: vec![0u8; n * 4] }
    }

    /// The frame's width in pixels.
    pub fn width(&self) -> (w: i32)
        ensures
            w == self.spec_res().0,
    {
        self.resolution.0
    }

    /// The frame's height in pixels.
    pub fn height(&self) -> (h: i32)
        ensures
            h == self.spec_res().1,
    {
        self.resolution.1
    }

    /// The frame's bytes, for handing the finished frame on.
    pub fn data(&self) -> (d: &Vec<u8>)
        ensures
            d@ == self.bytes(),
    {
        &self.pixels
    }
}

/// Writes one pixel's color into the frame, leaving every other byte as
/// it was.
pub fn pixel(target: &mut Buffer, x: i32, y: i32, color: &Color)
    requires
        old(target).wf(),
        0 <= x < old(target).spec_res().0,
        0 <= y < old(target).spec_res().1,
        4 * (old(target).spec_res().0 * old(target).spec_res().1) <= i32::MAX,
    ensures
        final(target).wf(),
        final(target).spec_res() == old(target).spec_res(),
        final(target).bytes() == ({
            let idx = pixel_index(old(target).spec_res(), x as int, y as int);
            old(target).bytes().update(idx, color@[0]).update(idx + 1, color@[1]).update(
                idx + 2,
                color@[2],
            ).update(idx + 3, color@[3])
        }),
{
    let (stride, height) = target.resolution;
    proof {
        assert(0 <= (y as int) * (stride as int) && (x as int) + (y as int) * (stride as int)
            <= (stride as int) * (height as int) - 1) by (nonlinear_arith)
            requires
                0 <= (x as int) < (stride as int),
                0 <= (y as int) < (height as int),
        ;
    }
    let index = ((x + y * stride) * 4) as usize;
    target.pixels[index] = color[0];
    target.pixels[index + 1] = color[1];
    target.pixels[index + 2] = color[2];
    target.pixels[index + 3] = color[3];
}

} // verus!
