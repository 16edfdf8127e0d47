//! The pixel grid that every other module works on.

use vstd::prelude::*;

verus! {

/// One colour sample: three unsigned 8-bit channels.
#[derive(Clone, Copy, Debug, PartialEq, Eq, Structural)]
pub struct Pixel {
    pub r: u8,
    pub g: u8,
    pub b: u8,
}

/// The mathematical content of an [`Image`]: its dimensions and its pixels
/// in row-major order.
pub struct ImageView {
    pub width: nat,
    pub height: nat,
    pub pixels: Seq<Pixel>,
}

impl ImageView {
    /// There is exactly one pixel for every coordinate of the grid.
    pub open spec fn wf(self) -> bool {
        self.pixels.len() == self.width * self.height
    }

    /// Width and height agree.
    pub open spec fn is_square(self) -> bool {
        self.width == self.height
    }

    /// The pixel in column `x` of row `y`.
    pub open spec fn pixel(self, x: int, y: int) -> Pixel
        recommends
            0 <= x < self.width,
            0 <= y < self.height,
    {
        self.pixels[y * self.width + x]
    }
}

/// An owned grid of pixels, stored row by row.
#[derive(Debug, PartialEq, Eq)]
pub struct Image {
    width: usize,
    height: usize,
    pixels: Vec<Pixel>,
}

impl View for Image {
    type V = ImageView;

    closed spec fn view(&self) -> ImageView {
        ImageView {
            width: self.width as nat,
            height: self.height as nat,
            pixels: self.pixels@,
        }
    }
}

impl Image {
    #[verifier::type_invariant]
    spec fn inv(self) -> bool {
        self.pixels@.len() == self.width * self.height
    }

    /// The image without any pixel.
    pub fn empty() -> (image: Image)
        ensures
            image@.width == 0,
            image@.height == 0,
            image@.pixels == Seq::<Pixel>::empty(),
    {
        Image { width: 0, height: 0, pixels: Vec::new() }
    }

    /// Builds an image from its dimensions and its pixels in row-major
    /// order; `None` when the number of pixels is not `width * height`.
    pub fn from_pixels(width: usize, height: usize, pixels: Vec<Pixel>) -> (image: Option<Image>)
        ensures
            image is Some <==> pixels@.len() == width * height,
            image matches Some(img) ==> img@ == (ImageView {
                width: width as nat,
                height: height as nat,
                pixels: pixels@,
            }),
    {
        let len: usize = pixels.len();
        match width.checked_mul(height) {
            Some(count) => {
                if len == count {
                    Some(Image { width, height, pixels })
                } else {
                    None
                }
            },
            None => None,
        }
    }

    /// An image of the given dimensions with every pixel set to `fill`;
    /// `None` when `width * height` does not fit in `usize`.
    pub fn filled(width: usize, height: usize, fill: Pixel) -> (image: Option<Image>)
        ensures
            image is Some <==> width * height <= usize::MAX,
            image matches Some(img) ==> img@ == (ImageView {
                width: width as nat,
                height: height as nat,
                pixels: Seq::new((width * height) as nat, |i: int| fill),
            }),
    {
        match width.checked_mul(height) {
            Some(count) => {
                let mut pixels: Vec<Pixel> = Vec::with_capacity(count);
                let mut i: usize = 0;
                while i < count
                    invariant
                        i <= count,
                        pixels@.len() == i,
                        forall|j: int| 0 <= j < i ==> pixels@[j] == fill,
                    decreases count - i,
                {
                    pixels.push(fill);
                    i += 1;
                }
                assert(pixels@ =~= Seq::new((width * height) as nat, |i: int| fill));
                Some(Image { width, height, pixels })
            },
            None => None,
        }
    }

    /// Number of columns.
    pub fn width(&self) -> (w: usize)
        ensures
            w == self@.width,
            self@.wf(),
            self@.pixels.len() <= usize::MAX,
    {
        proof {
            use_type_invariant(self);
            assert(self.pixels.len() == self.width * self.height);
        }
        self.width
    }

    /// Number of rows.
    pub fn height(&self) -> (h: usize)
        ensures
            h == self@.height,
            self@.wf(),
            self@.pixels.len() <= usize::MAX,
    {
        proof {
            use_type_invariant(self);
            assert(self.pixels.len() == self.width * self.height);
        }
        self.height
    }

    /// The pixels in row-major order.
    pub fn pixels(&self) -> (pixels: &Vec<Pixel>)
        ensures
            pixels@ == self@.pixels,
            self@.wf(),
    {
        proof {
            use_type_invariant(self);
        }
        &self.pixels
    }

    /// Gives up the image for its pixels in row-major order.
    pub fn into_pixels(self) -> (pixels: Vec<Pixel>)
        ensures
            pixels@ == self@.pixels,
            self@.wf(),
    {
        proof {
            use_type_invariant(&self);
        }
        self.pixels
    }

    /// The pixel in column `x` of row `y`.
    pub fn get_pixel(&self, x: usize, y: usize) -> (pixel: Pixel)
        requires
            x < self@.width,
            y < self@.height,
        ensures
            pixel == self@.pixel(x as int, y as int),
    {
        proof {
            use_type_invariant(self);
            lemma_cell_in_grid(self.width as int, self.height as int, x as int, y as int);
            assert(self.pixels.len() == self.width * self.height);
        }
        self.pixels[y * self.width + x]
    }

    /// Overwrites the pixel in column `x` of row `y`.
    pub fn put_pixel(&mut self, x: usize, y: usize, pixel: Pixel)
        requires
            x < old(self)@.width,
            y < old(self)@.height,
        ensures
            final(self)@ == (ImageView {
                pixels: old(self)@.pixels.update(y * old(self)@.width + x, pixel),
                ..old(self)@
            }),
    {
        proof {
            use_type_invariant(&*self);
            lemma_cell_in_grid(self.width as int, self.height as int, x as int, y as int);
            assert(self.pixels.len() == self.width * self.height);
        }
        let at: usize = y * self.width + x;
        self.pixels[at] = pixel;
    }
}

impl Clone for Image {
    fn clone(&self) -> (copy: Self)
        ensures
            copy@ == self@,
    {
        proof {
            use_type_invariant(self);
        }
        let pixels: Vec<Pixel> = self.pixels.clone();
        assert(pixels@ =~= self.pixels@);
        Image { width: self.width, height: self.height, pixels }
    }
}

/// A cell of a `width` by `height` grid has a row-major index below
/// `width * height`.
pub proof fn lemma_cell_in_grid(width: int, height: int, x: int, y: int)
    requires
        0 <= x < width,
        0 <= y < height,
    ensures
        0 <= y * width + x < width * height,
        0 <= y * width <= y * width + x,
{
    assert(y * width + x < width * height) by (nonlinear_arith)
        requires
            0 <= x < width,
            0 <= y < height,
    {
        assert((y + 1) * width <= height * width);
    }
    assert(0 <= y * width) by (nonlinear_arith)
        requires
            0 <= width,
            0 <= y,
    ;
}

} // verus!
