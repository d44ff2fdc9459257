//! The luminance grid: `width * height` 8-bit samples in row-major order.
use vstd::prelude::*;

verus! {

/// A grid seen abstractly: its dimensions and its samples, row after row.
pub struct GridView {
    pub width: u32,
    pub height: u32,
    pub pixels: Seq<u8>,
}

impl GridView {
    /// The samples fill the grid exactly.
    pub open spec fn wf(self) -> bool {
        self.pixels.len() == self.width as nat * self.height as nat
    }
}

/// A grayscale image: one 8-bit luminance sample per pixel, row-major.
pub struct Image {
    width: u32,
    height: u32,
    pixels: Vec<u8>,
}

impl View for Image {
    type V = GridView;

    closed spec fn view(&self) -> GridView {
        GridView { width: self.width, height: self.height, pixels: self.pixels@ }
    }
}

impl Image {
    #[verifier::type_invariant]
    closed spec fn inv(&self) -> bool {
        self@.wf()
    }

    /// The grid of the given dimensions over `pixels`, or `None` when
    /// `pixels` does not hold exactly `width * height` samples.
    pub fn from_raw(width: u32, height: u32, pixels: Vec<u8>) -> (r: Option<Image>)
        ensures
            r is Some <==> pixels@.len() == width as nat * height as nat,
            r matches Some(img) ==> img@ == (GridView { width, height, pixels: pixels@ }),
    {
        assert(width as nat * height as nat <= 0xffff_ffff * 0xffff_ffff) by (nonlinear_arith)
            requires
                width <= 0xffff_ffff,
                height <= 0xffff_ffff,
        ;
        let n: u64 = width as u64 * height as u64;
        if pixels.len() as u64 == n {
            Some(Image { width, height, pixels })
        } else {
            None
        }
    }

    pub fn width(&self) -> (r: u32)
        ensures
            r == self@.width,
    {
        self.width
    }

    pub fn height(&self) -> (r: u32)
        ensures
            r == self@.height,
    {
        self.height
    }

    /// The samples, row after row.
    pub fn as_raw(&self) -> (r: &Vec<u8>)
        ensures
            r@ == self@.pixels,
            self@.wf(),
    {
        proof {
            use_type_invariant(self);
        }
        &self.pixels
    }
}

} // verus!
