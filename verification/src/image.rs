use vstd::prelude::*;

verus! {

/// Mathematical view of a decoded image: the header fields as plain
/// integers and the raster as a sequence of bytes.
#[verifier::ext_equal]
pub struct ImageView {
    pub width: u32,
    pub height: u32,
    pub max_value: u16,
    pub raster: Seq<u8>,
}

impl ImageView {
    /// Bytes per channel sample: 1 when `max_value < 256`, else 2.
    pub open spec fn sample_width(self) -> int {
        if self.max_value < 256 {
            1
        } else {
            2
        }
    }

    /// Expected raster length: three channels per pixel, row-major,
    /// `sample_width` bytes per channel.
    pub open spec fn raster_len(self) -> int {
        self.width * self.height * 3 * self.sample_width()
    }

    /// Invariant of every decoded image: the maximum sample value is in
    /// range and the raster holds exactly the expected number of bytes.
    pub open spec fn wf(self) -> bool {
        &&& 1 <= self.max_value
        &&& self.raster.len() == self.raster_len()
    }
}

/// A fully materialized P6 image: header fields plus the raw raster
/// bytes, immutable after construction.
pub struct PpmImage {
    width: u32,
    height: u32,
    maxval: u16,
    raster: Vec<u8>,
}

impl View for PpmImage {
    type V = ImageView;

    closed spec fn view(&self) -> ImageView {
        ImageView {
            width: self.width,
            height: self.height,
            max_value: self.maxval,
            raster: self.raster@,
        }
    }
}

impl PpmImage {
    /// Assembles an image from already-validated parts.
    pub fn new(width: u32, height: u32, maxval: u16, raster: Vec<u8>) -> (img: PpmImage)
        requires
            1 <= maxval,
            raster@.len() == width * height * 3 * (if maxval < 256 {
                1int
            } else {
                2int
            }),
        ensures
            img@ == (ImageView { width, height, max_value: maxval, raster: raster@ }),
            img@.wf(),
    {
        PpmImage { width, height, maxval, raster }
    }

    pub fn width(&self) -> (w: u32)
        ensures
            w == self@.width,
    {
        self.width
    }

    pub fn height(&self) -> (h: u32)
        ensures
            h == self@.height,
    {
        self.height
    }

    pub fn max_value(&self) -> (m: u16)
        ensures
            m == self@.max_value,
    {
        self.maxval
    }

    pub fn raster(&self) -> (r: &Vec<u8>)
        ensures
            r@ == self@.raster,
    {
        &self.raster
    }
}

} // verus!
