//! The pixel buffer that a rendering fills.

use vstd::prelude::*;

verus! {

/// A colour with 8 bits for each of red, green, blue and alpha.
#[derive(Clone, Copy, Debug, PartialEq, Eq)]
pub struct ColorRGBA {
    pub r: u8,
    pub g: u8,
    pub b: u8,
    pub a: u8,
}

impl ColorRGBA {
    /// The colour with the given channels.
    pub fn new_rgba(r: u8, g: u8, b: u8, a: u8) -> (c: ColorRGBA)
        ensures
            c == (ColorRGBA { r, g, b, a }),
    {
        ColorRGBA { r, g, b, a }
    }

    /// The opaque colour with the given channels.
    pub fn new_rgb(r: u8, g: u8, b: u8) -> (c: ColorRGBA)
        ensures
            c == (ColorRGBA { r, g, b, a: 255 }),
    {
        ColorRGBA { r, g, b, a: 255 }
    }

    /// Opaque black.
    pub fn black() -> (c: ColorRGBA)
        ensures
            c == (ColorRGBA { r: 0, g: 0, b: 0, a: 255 }),
    {
        ColorRGBA::new_rgb(0, 0, 0)
    }

    /// Opaque white.
    pub fn white() -> (c: ColorRGBA)
        ensures
            c == (ColorRGBA { r: 255, g: 255, b: 255, a: 255 }),
    {
        ColorRGBA::new_rgb(255, 255, 255)
    }
}

/// A `width` by `height` image. The pixel at column `x` of row `y` stands at
/// index `y * width + x` of `buffer`.
#[derive(Clone, Debug, PartialEq, Eq)]
pub struct Surface {
    pub width: usize,
    pub height: usize,
    pub buffer: Vec<ColorRGBA>,
}

impl Surface {
    /// The buffer holds one colour for each pixel.
    pub open spec fn well_formed(&self) -> bool {
        self.buffer@.len() == self.width * self.height
    }

    /// Where the pixel at column `x` of row `y` stands in the buffer.
    pub open spec fn index_of(&self, x: int, y: int) -> int {
        y * self.width + x
    }

    /// The colour at column `x` of row `y`.
    pub open spec fn pixel(&self, x: int, y: int) -> ColorRGBA {
        self.buffer@[self.index_of(x, y)]
    }

    /// Rows lie one after another: a pixel inside the image has an index
    /// inside the buffer, and two different pixels have different indices.
    pub proof fn lemma_index_of(&self, x: int, y: int)
        requires
            self.well_formed(),
            0 <= x < self.width,
            0 <= y < self.height,
        ensures
            0 <= self.index_of(x, y) < self.buffer@.len(),
            self.index_of(x, y) % (self.width as int) == x,
            self.index_of(x, y) / (self.width as int) == y,
    {
        let w = self.width as int;
        let h = self.height as int;
        assert(0 <= y * w) by (nonlinear_arith)
            requires
                0 <= y,
                0 <= w,
        ;
        assert(y * w + x < h * w) by (nonlinear_arith)
            requires
                0 <= x < w,
                0 <= y < h,
        ;
        vstd::arithmetic::div_mod::lemma_fundamental_div_mod_converse(y * w + x, w, y, x);
    }

    /// An image of one colour.
    pub fn new(width: usize, height: usize, background: ColorRGBA) -> (s: Surface)
        requires
            width * height <= usize::MAX,
        ensures
            s.well_formed(),
            s.width == width,
            s.height == height,
            forall|i: int| 0 <= i < s.buffer@.len() ==> s.buffer@[i] == background,
    {
        let count: usize = width * height;
        let mut buffer: Vec<ColorRGBA> = Vec::new();
        let mut i: usize = 0;
        while i < count
            invariant
                i <= count,
                buffer@.len() == i,
                forall|k: int| 0 <= k < i ==> buffer@[k] == background,
            decreases count - i,
        {
            buffer.push(background);
            i = i + 1;
        }
        Surface { width, height, buffer }
    }

    /// An image of one colour, or `None` when it would have more pixels than
    /// a buffer can hold.
    pub fn try_new(width: usize, height: usize, background: ColorRGBA) -> (r: Option<Surface>)
        ensures
            r.is_some() == (width * height <= usize::MAX),
            r matches Some(s) ==> {
                &&& s.well_formed()
                &&& s.width == width
                &&& s.height == height
                &&& forall|i: int| 0 <= i < s.buffer@.len() ==> s.buffer@[i] == background
            },
    {
        match width.checked_mul(height) {
            None => None,
            Some(_) => Some(Surface::new(width, height, background)),
        }
    }

    /// The colour at column `x` of row `y`.
    pub fn get(&self, x: usize, y: usize) -> (c: ColorRGBA)
        requires
            self.well_formed(),
            x < self.width,
            y < self.height,
        ensures
            c == self.pixel(x as int, y as int),
    {
        let count: usize = self.buffer.len();
        proof {
            self.lemma_index_of(x as int, y as int);
            assert(y * self.width + x < count);
        }
        self.buffer[y * self.width + x]
    }

    /// Sets the colour at column `x` of row `y` and leaves every other pixel
    /// as it was.
    pub fn set(&mut self, x: usize, y: usize, color: ColorRGBA)
        requires
            old(self).well_formed(),
            x < old(self).width,
            y < old(self).height,
        ensures
            final(self).width == old(self).width,
            final(self).height == old(self).height,
            final(self).buffer@ == old(self).buffer@.update(
                old(self).index_of(x as int, y as int),
                color,
            ),
            final(self).well_formed(),
    {
        let count: usize = self.buffer.len();
        proof {
            self.lemma_index_of(x as int, y as int);
            assert(y * self.width + x < count);
        }
        let i: usize = y * self.width + x;
        self.buffer.set(i, color);
    }
}

} // verus!
