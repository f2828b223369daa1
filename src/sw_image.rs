//! A 32-bit RGBA image held in RAM, manipulated on the CPU.
use vstd::prelude::*;

verus! {

/// One RGBA pixel.
#[derive(Clone, Copy, Debug, PartialEq, Eq, Structural)]
pub struct Pixel {
    pub r: u8,
    pub g: u8,
    pub b: u8,
    pub a: u8,
}

/// A 32-bit RGBA image held in RAM, manipulated on the CPU. (I.e., not an image on the GPU.)
/// Pixels are stored row by row.
#[derive(Clone, Debug)]
pub struct SwImage {
    width: u32,
    height: u32,
    pixels: Vec<Pixel>,
}

impl View for SwImage {
    type V = Seq<Pixel>;

    /// The pixels, row by row.
    closed spec fn view(&self) -> Seq<Pixel> {
        self.pixels@
    }
}

impl SwImage {
    /// The width in pixels.
    pub closed spec fn spec_width(&self) -> u32 {
        self.width
    }

    /// The height in pixels.
    pub closed spec fn spec_height(&self) -> u32 {
        self.height
    }

    /// There is one pixel per place of the image.
    pub open spec fn wf(&self) -> bool {
        self@.len() == self.spec_width() * self.spec_height()
    }

    /// A fully transparent black image of `width` × `height` pixels. The pixel count must fit
    /// in a `usize`.
    pub fn new(width: u32, height: u32) -> (r: SwImage)
        requires
            width * height <= usize::MAX,
        ensures
            r.wf(),
            r.spec_width() == width,
            r.spec_height() == height,
            forall|i: int| 0 <= i < r@.len() ==> #[trigger] r@[i] == (Pixel { r: 0, g: 0, b: 0, a: 0 }),
    {
        let pixel_count = (width as usize) * (height as usize);
        let mut pixels: Vec<Pixel> = Vec::with_capacity(pixel_count);
        let default_pixel = Pixel { r: 0, g: 0, b: 0, a: 0 };
        let mut i: usize = 0;
        while i < pixel_count
            invariant
                0 <= i <= pixel_count,
                pixels@.len() == i,
                forall|j: int| 0 <= j < i ==> #[trigger] pixels@[j] == default_pixel,
            decreases pixel_count - i,
        {
            pixels.push(default_pixel);
            i = i + 1;
        }
        SwImage { width, height, pixels }
    }

    /// The pixels, row by row.
    pub fn pixels(&self) -> (r: &[Pixel])
        ensures
            r@ == self@,
    {
        self.pixels.as_slice()
    }

    /// The place of the pixel at `(x, y)` in the row-by-row order.
    fn index_for(&self, x: u32, y: u32) -> (r: usize)
        requires
            self.wf(),
            x < self.spec_width(),
            y < self.spec_height(),
        ensures
            r == y * self.spec_width() + x,
            r < self@.len(),
    {
        let pixel_count = self.pixels.len();
        proof {
            assert(y * self.width + x < self.width * self.height) by (nonlinear_arith)
                requires
                    x < self.width,
                    y < self.height,
            ;
        }
        assert(y * self.width + x < pixel_count);
        (y as usize) * (self.width as usize) + (x as usize)
    }

    /// The pixel at `(x, y)`, which must lie inside the image.
    pub fn pixel(&self, x: u32, y: u32) -> (r: Pixel)
        requires
            self.wf(),
            x < self.spec_width(),
            y < self.spec_height(),
        ensures
            r == self@[y * self.spec_width() + x],
    {
        let index = self.index_for(x, y);
        self.pixels[index]
    }

    /// Replace the pixel at `(x, y)`, which must lie inside the image, by `value`.
    pub fn set_pixel(&mut self, x: u32, y: u32, value: Pixel)
        requires
            old(self).wf(),
            x < old(self).spec_width(),
            y < old(self).spec_height(),
        ensures
            final(self).wf(),
            final(self).spec_width() == old(self).spec_width(),
            final(self).spec_height() == old(self).spec_height(),
            final(self)@ == old(self)@.update(y * old(self).spec_width() + x, value),
    {
        let index = self.index_for(x, y);
        self.pixels.set(index, value);
    }

    /// The width in pixels.
    pub fn width(&self) -> (r: u32)
        ensures
            r == self.spec_width(),
    {
        self.width
    }

    /// The height in pixels.
    pub fn height(&self) -> (r: u32)
        ensures
            r == self.spec_height(),
    {
        self.height
    }
}

} // verus!
