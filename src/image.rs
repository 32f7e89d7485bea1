//! Buffers exchanged with the image codec that carries frames.
use vstd::prelude::*;

verus! {

/// An image of `width` by `height` pixels and the raw bits it is made from,
/// as handed to the image codec.
pub struct ImageBuffer {
    width: u16,
    height: u16,
    data: Vec<u8>,
}

impl ImageBuffer {
    /// The width in pixels.
    pub closed spec fn width_spec(&self) -> u16 {
        self.width
    }

    /// The height in pixels.
    pub closed spec fn height_spec(&self) -> u16 {
        self.height
    }

    /// The raw bits.
    pub closed spec fn data_spec(&self) -> Seq<u8> {
        self.data@
    }

    /// A buffer of the given size over the given raw bits.
    pub fn create_image_buffer(width: u16, height: u16, data: Vec<u8>) -> (r: Self)
        ensures
            r.width_spec() == width,
            r.height_spec() == height,
            r.data_spec() == data@,
    {
        ImageBuffer { width, height, data }
    }

    /// The width in pixels.
    pub fn width(&self) -> (r: u16)
        ensures
            r == self.width_spec(),
    {
        self.width
    }

    /// The height in pixels.
    pub fn height(&self) -> (r: u16)
        ensures
            r == self.height_spec(),
    {
        self.height
    }

    /// The number of pixels, `width * height`.
    pub fn pixel_count(&self) -> (r: u32)
        ensures
            r == self.width_spec() as int * self.height_spec() as int,
    {
        assert(self.width as int * self.height as int <= 65535 * 65535) by (nonlinear_arith)
            requires
                self.width <= 65535,
                self.height <= 65535,
        ;
        self.width as u32 * self.height as u32
    }

    /// The raw bits.
    pub fn data(&self) -> (r: &Vec<u8>)
        ensures
            r@ == self.data_spec(),
    {
        &self.data
    }
}

} // verus!
