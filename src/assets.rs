//! Small value types the game layer builds from archive files: font
//! selectors, decoded images and image strips, animation frames, materials.
use vstd::prelude::*;
use vstd::slice::slice_subrange;

verus! {

/// Point size of one of the game's bitmap fonts.
#[derive(Debug, Clone, Copy, PartialEq, Eq, Structural)]
pub enum FontSize {
    Size16,
    Size24,
    Size30,
    Size42,
}

impl FontSize {
    pub open spec fn spec_points(self) -> i32 {
        match self {
            FontSize::Size16 => 16,
            FontSize::Size24 => 24,
            FontSize::Size30 => 30,
            FontSize::Size42 => 42,
        }
    }

    /// The size in points, as it appears in the font's file names.
    pub fn points(self) -> (r: i32)
        ensures
            r == self.spec_points(),
    {
        match self {
            FontSize::Size16 => 16,
            FontSize::Size24 => 24,
            FontSize::Size30 => 30,
            FontSize::Size42 => 42,
        }
    }
}

/// Colour variant of a bitmap font.
#[derive(Debug, Clone, Copy, PartialEq, Eq, Structural)]
pub enum FontColor {
    Grey,
    Silver,
    Yellow,
}

impl FontColor {
    pub open spec fn spec_suffix(self) -> char {
        match self {
            FontColor::Grey => 'g',
            FontColor::Silver => 's',
            FontColor::Yellow => 'y',
        }
    }

    /// The letter that marks the colour in the font's image file name.
    pub fn suffix(self) -> (r: char)
        ensures
            r == self.spec_suffix(),
    {
        match self {
            FontColor::Grey => 'g',
            FontColor::Silver => 's',
            FontColor::Yellow => 'y',
        }
    }
}

/// Bytes per pixel of a decoded image (RGBA).
pub const BYTES_PER_PIXEL: usize = 4;

/// A decoded RGBA image, rows top to bottom.
#[derive(Debug)]
pub struct Image {
    pub width: usize,
    pub height: usize,
    pub pixels: Vec<u8>,
}

impl Image {
    pub fn dimensions(&self) -> (r: (usize, usize))
        ensures
            r == (self.width, self.height),
    {
        (self.width, self.height)
    }
}

/// An image cut into `count` frames of equal height, stacked top to bottom.
#[derive(Debug)]
pub struct ImageArray {
    width: usize,
    height: usize,
    count: usize,
    image: Image,
}

impl ImageArray {
    #[verifier::type_invariant]
    spec fn frames_fit(&self) -> bool {
        &&& self.width == self.image.width
        &&& self.count * self.height <= self.image.height
        &&& self.image.width * self.image.height * BYTES_PER_PIXEL <= self.image.pixels@.len()
    }

    pub closed spec fn spec_width(&self) -> usize {
        self.width
    }

    pub closed spec fn spec_height(&self) -> usize {
        self.height
    }

    pub closed spec fn spec_count(&self) -> usize {
        self.count
    }

    pub closed spec fn spec_pixels(&self) -> Seq<u8> {
        self.image.pixels@
    }

    /// Cut `image` into `count` frames, each `height / count` rows high.
    /// `None` when `count` is zero or the image holds fewer pixel bytes than
    /// its dimensions call for.
    pub fn from_image(image: Image, count: usize) -> (r: Option<ImageArray>)
        ensures
            match r {
                Some(a) => {
                    &&& count > 0
                    &&& image.width * image.height * BYTES_PER_PIXEL <= image.pixels@.len()
                    &&& a.spec_width() == image.width
                    &&& a.spec_height() == image.height / count
                    &&& a.spec_count() == count
                    &&& a.spec_pixels() == image.pixels@
                },
                None => count == 0 || image.width * image.height * BYTES_PER_PIXEL > image.pixels@.len(),
            },
    {
        if count == 0 {
            return None;
        }
        let len = image.pixels.len();
        let area = match image.width.checked_mul(image.height) {
            Some(a) => a,
            None => {
                assert(image.width * image.height * BYTES_PER_PIXEL > len) by (nonlinear_arith)
                    requires
                        image.width * image.height > usize::MAX,
                        len <= usize::MAX;
                return None;
            },
        };
        if area > image.pixels.len() / BYTES_PER_PIXEL {
            return None;
        }
        let width = image.width;
        let height = image.height / count;
        assert(count * height <= image.height) by (nonlinear_arith)
            requires
                count > 0,
                height == image.height / count;
        Some(ImageArray { width, height, count, image })
    }

    pub fn dimensions(&self) -> (r: (usize, usize))
        ensures
            r == (self.spec_width(), self.spec_height()),
    {
        (self.width, self.height)
    }

    /// The pixel bytes of frame `index`, or `None` past the last frame.
    pub fn get(&self, index: usize) -> (r: Option<&[u8]>)
        ensures
            match r {
                Some(frame) => {
                    let pitch = self.spec_width() * BYTES_PER_PIXEL;
                    let size = self.spec_height() * pitch;
                    &&& index < self.spec_count()
                    &&& frame@ == self.spec_pixels().subrange(index * size, (index + 1) * size)
                },
                None => index >= self.spec_count(),
            },
    {
        proof {
            use_type_invariant(self);
        }
        if index >= self.count {
            return None;
        }
        let total = self.image.pixels.len();
        let w = self.width;
        let h = self.height;
        let n = self.count;
        let full_h = self.image.height;
        assert((index + 1) * h * w * BYTES_PER_PIXEL <= total) by (nonlinear_arith)
            requires
                index < n,
                n * h <= full_h,
                w * full_h * BYTES_PER_PIXEL <= total;
        assert(index * (h * (w * BYTES_PER_PIXEL)) <= (index + 1) * (h * (w * BYTES_PER_PIXEL))
            == (index + 1) * h * w * BYTES_PER_PIXEL) by (nonlinear_arith);
        if h == 0 || w == 0 {
            assert(h * (w * BYTES_PER_PIXEL) == 0 && index * (h * (w * BYTES_PER_PIXEL)) == 0 && (index
                + 1) * (h * (w * BYTES_PER_PIXEL)) == 0) by (nonlinear_arith)
                requires
                    h == 0 || w == 0;
            return Some(slice_subrange(self.image.pixels.as_slice(), 0, 0));
        }
        assert(w * BYTES_PER_PIXEL <= h * (w * BYTES_PER_PIXEL) <= (index + 1) * (h * (w * BYTES_PER_PIXEL))) by (nonlinear_arith)
            requires h >= 1, w >= 1, index >= 0;
        let pitch = w * BYTES_PER_PIXEL;
        let size = h * pitch;
        let offset = index * size;
        let limit = (index + 1) * size;
        Some(slice_subrange(self.image.pixels.as_slice(), offset, limit))
    }
}

/// Whether an animation starts over when it reaches its end.
#[derive(Debug, Clone, Copy, PartialEq, Eq, Structural)]
pub enum Looping {
    Loop,
    OneShot,
}

/// One frame of a sprite animation with discrete frames.
#[derive(Debug, Clone, Copy, PartialEq, Eq, Structural)]
pub struct Frame(pub usize);

impl From<usize> for Frame {
    fn from(value: usize) -> (r: Frame)
        ensures
            r == Frame(value),
    {
        Frame(value)
    }
}

impl vstd::std_specs::convert::FromSpecImpl<usize> for Frame {
    open spec fn obeys_from_spec() -> bool {
        true
    }

    open spec fn from_spec(v: usize) -> Frame {
        Frame(v)
    }
}

impl Frame {
    /// The frame's index.
    pub fn index(self) -> (r: usize)
        ensures
            r == self.0,
    {
        self.0
    }
}

/// How a piece of geometry is shaded.
#[derive(Debug, Clone, Copy, PartialEq, Eq, Structural)]
pub enum Material {
    /// Coloured, untextured geometry.
    Color,
    /// Textured geometry.
    Textured,
    /// Geometry textured from a layer of a texture array.
    LayeredTexture,
}

} // verus!
