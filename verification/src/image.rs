//! Rectangular pixel buffers.

use vstd::prelude::*;

verus! {

/// An 8-bit sRGB pixel.
#[derive(Clone, Copy, Debug, PartialEq, Eq, Structural)]
pub struct Rgb8 {
    pub r: u8,
    pub g: u8,
    pub b: u8,
}

/// The pixel that blanked-out positions are filled with.
pub open spec fn spec_black() -> Rgb8 {
    Rgb8 { r: 0, g: 0, b: 0 }
}

/// A `width` by `height` grid of pixels, stored row by row.
#[derive(Clone, Debug)]
pub struct Image<P> {
    pub width: u32,
    pub height: u32,
    pub pixels: Vec<P>,
}

/// Position of pixel `(x, y)` in a row-major buffer `width` pixels wide.
pub open spec fn offset(width: int, x: int, y: int) -> int {
    y * width + x
}

/// A position inside a `width` by `height` grid has its offset below `width * height`,
/// and the offset gives the position back.
pub proof fn lemma_offset_in_bounds(width: int, height: int, x: int, y: int)
    requires
        0 <= x < width,
        0 <= y < height,
    ensures
        0 <= offset(width, x, y) < width * height,
        offset(width, x, y) % width == x,
        offset(width, x, y) / width == y,
{
    assert(0 <= y * width + x < width * height) by (nonlinear_arith)
        requires
            0 <= x < width,
            0 <= y < height,
    {
        assert(y * width + width == (y + 1) * width);
        assert((y + 1) * width <= height * width);
    }
    vstd::arithmetic::div_mod::lemma_fundamental_div_mod_converse(y * width + x, width, y, x);
}

/// An offset below `width * height` names a position inside the grid.
pub proof fn lemma_position_in_bounds(width: int, height: int, i: int)
    requires
        0 <= i < width * height,
        0 < width,
    ensures
        0 <= i % width < width,
        0 <= i / width < height,
        offset(width, i % width, i / width) == i,
{
    vstd::arithmetic::div_mod::lemma_fundamental_div_mod(i, width);
    let q = i / width;
    assert(0 <= q < height) by (nonlinear_arith)
        requires
            0 <= i < width * height,
            0 < width,
            i == width * q + i % width,
            0 <= i % width < width,
    {
        if q >= height {
            assert(width * q >= width * height);
        }
        if q < 0 {
            assert(width * q <= -width);
        }
    }
    assert(q * width == width * q) by (nonlinear_arith);
}

/// The pixel count of any image fits in 64 bits.
pub proof fn lemma_area_fits(width: u32, height: u32)
    ensures
        0 <= width * height <= u64::MAX,
{
    assert(0 <= width * height <= 0xffff_ffff * 0xffff_ffff) by (nonlinear_arith)
        requires
            0 <= width <= 0xffff_ffff,
            0 <= height <= 0xffff_ffff,
    ;
}

impl<P: Copy> Image<P> {
    /// The buffer holds exactly `width * height` pixels.
    pub open spec fn wf(&self) -> bool {
        self.pixels@.len() == self.width * self.height
    }

    /// `(x, y)` lies inside the image.
    pub open spec fn contains(&self, x: int, y: int) -> bool {
        0 <= x < self.width && 0 <= y < self.height
    }

    /// The pixel at `(x, y)`.
    pub open spec fn at(&self, x: int, y: int) -> P
        recommends
            self.contains(x, y),
    {
        self.pixels@[offset(self.width as int, x, y)]
    }

    /// An image of the given size with every pixel set to `fill`; `None` when
    /// `width * height` pixels cannot be addressed on this machine.
    pub fn filled(width: u32, height: u32, fill: P) -> (r: Option<Self>)
        ensures
            r is Some <==> width * height <= usize::MAX,
            r matches Some(img) ==> {
                &&& img.wf()
                &&& img.width == width
                &&& img.height == height
                &&& forall|i: int| 0 <= i < img.pixels@.len() ==> img.pixels@[i] == fill
            },
    {
        proof {
            lemma_area_fits(width, height);
        }
        let total: u64 = (width as u64) * (height as u64);
        if total > usize::MAX as u64 {
            return None;
        }
        let n = total as usize;
        let mut pixels: Vec<P> = Vec::new();
        let mut i: usize = 0;
        while i < n
            invariant
                i <= n,
                pixels@.len() == i,
                forall|k: int| 0 <= k < i ==> pixels@[k] == fill,
            decreases n - i,
        {
            pixels.push(fill);
            i += 1;
        }
        Some(Image { width, height, pixels })
    }

    /// Wraps a row-major buffer; `None` unless it holds `width * height` pixels.
    pub fn from_pixels(width: u32, height: u32, pixels: Vec<P>) -> (r: Option<Self>)
        ensures
            r is Some <==> pixels@.len() == width * height,
            r matches Some(img) ==> img.wf() && img.width == width && img.height == height
                && img.pixels@ == pixels@,
    {
        proof {
            lemma_area_fits(width, height);
        }
        let total: u64 = (width as u64) * (height as u64);
        if pixels.len() as u64 == total {
            Some(Image { width, height, pixels })
        } else {
            None
        }
    }

    /// Offset of `(x, y)` in the buffer.
    pub fn index_of(&self, x: u32, y: u32) -> (i: usize)
        requires
            self.wf(),
            self.contains(x as int, y as int),
        ensures
            i == offset(self.width as int, x as int, y as int),
            i < self.pixels@.len(),
    {
        proof {
            lemma_offset_in_bounds(self.width as int, self.height as int, x as int, y as int);
            assert(0 <= y * self.width) by (nonlinear_arith)
                requires
                    0 <= y,
                    0 <= self.width,
            ;
            assert(self.pixels.len() <= usize::MAX);
        }
        (y as usize) * (self.width as usize) + (x as usize)
    }

    /// The pixel at `(x, y)`.
    pub fn get_pixel(&self, x: u32, y: u32) -> (p: P)
        requires
            self.wf(),
            self.contains(x as int, y as int),
        ensures
            p == self.at(x as int, y as int),
    {
        let i = self.index_of(x, y);
        self.pixels[i]
    }

    /// Overwrites the pixel at `(x, y)`.
    pub fn put_pixel(&mut self, x: u32, y: u32, p: P)
        requires
            old(self).wf(),
            old(self).contains(x as int, y as int),
        ensures
            final(self).wf(),
            final(self).width == old(self).width,
            final(self).height == old(self).height,
            final(self).pixels@ == old(self).pixels@.update(
                offset(old(self).width as int, x as int, y as int),
                p,
            ),
    {
        let i = self.index_of(x, y);
        self.pixels.set(i, p);
    }

    /// The position of the pixel stored at offset `i`.
    pub fn position_of(&self, i: usize) -> (r: (u32, u32))
        requires
            self.wf(),
            i < self.pixels@.len(),
        ensures
            r.0 == i as int % self.width as int,
            r.1 == i as int / self.width as int,
            self.contains(r.0 as int, r.1 as int),
            offset(self.width as int, r.0 as int, r.1 as int) == i,
    {
        proof {
            assert(self.width > 0) by (nonlinear_arith)
                requires
                    i < self.width * self.height,
                    i >= 0,
                    self.width >= 0,
            ;
            lemma_position_in_bounds(self.width as int, self.height as int, i as int);
        }
        let w = self.width as usize;
        ((i % w) as u32, (i / w) as u32)
    }
}

/// The size an image is scaled to so that its longer side measures
/// `biggest_dimension` and its proportions are kept; the shorter side is
/// rounded down. A side that is not shorter than the other counts as the
/// longer one, height before width.
pub open spec fn spec_resized_dimensions(width: u32, height: u32, biggest_dimension: u32) -> (
    u32,
    u32,
) {
    if width > height {
        (biggest_dimension, ((biggest_dimension * height) / (width as int)) as u32)
    } else if height == 0 {
        (0, biggest_dimension)
    } else {
        (((biggest_dimension * width) / (height as int)) as u32, biggest_dimension)
    }
}

/// The shorter side after scaling: `biggest * short / long`, rounded down.
fn scaled_side(biggest: u32, short: u32, long: u32) -> (r: u32)
    requires
        short <= long,
        long > 0,
    ensures
        r == (biggest * short) / (long as int),
        r <= biggest,
{
    proof {
        lemma_area_fits(biggest, short);
        let n = biggest * short;
        let d = long as int;
        assert(n / d <= biggest) by (nonlinear_arith)
            requires
                n == biggest * short,
                0 <= short <= d,
                0 < d,
                0 <= biggest,
        {
            assert(n <= biggest * d);
            assert((n / d) * d <= n);
            if n / d > biggest {
                assert((n / d) * d >= (biggest + 1) * d);
            }
        }
    }
    (((biggest as u64) * (short as u64)) / (long as u64)) as u32
}

/// The size to scale a `width` by `height` image to so that its longer side
/// measures `biggest_dimension`.
pub fn resized_dimensions(width: u32, height: u32, biggest_dimension: u32) -> (r: (u32, u32))
    ensures
        r == spec_resized_dimensions(width, height, biggest_dimension),
{
    if width > height {
        (biggest_dimension, scaled_side(biggest_dimension, height, width))
    } else if height == 0 {
        (0, biggest_dimension)
    } else {
        (scaled_side(biggest_dimension, width, height), biggest_dimension)
    }
}

/// The pixel at `(x, y)` of an image with colour bars down its left side.
///
/// The leftmost `colour_width` columns are divided from the top into one
/// bar per colour, each `height / colours.len()` rows high; rows below the
/// last bar are black. The image itself follows to the right of the bars.
pub open spec fn spec_bar_pixel(
    img: Image<Rgb8>,
    colours: Seq<Rgb8>,
    colour_width: int,
    x: int,
    y: int,
) -> Rgb8 {
    let bar_height = (img.height as int) / (colours.len() as int);
    if x >= colour_width {
        img.at(x - colour_width, y)
    } else if bar_height > 0 && y / bar_height < colours.len() {
        colours[y / bar_height]
    } else {
        spec_black()
    }
}

/// Puts `img` on a wider canvas with one bar per colour down the left side.
pub fn colour_bars(img: &Image<Rgb8>, colours: &[Rgb8], colour_width: u32) -> (canvas: Image<
    Rgb8,
>)
    requires
        img.wf(),
        colours@.len() > 0,
        img.width + colour_width <= u32::MAX,
        (img.width + colour_width) * img.height <= usize::MAX,
    ensures
        canvas.wf(),
        canvas.width == img.width + colour_width,
        canvas.height == img.height,
        forall|x: int, y: int|
            canvas.contains(x, y) ==> #[trigger] canvas.at(x, y) == spec_bar_pixel(
                *img,
                colours@,
                colour_width as int,
                x,
                y,
            ),
{
    let width = img.width + colour_width;
    let height = img.height;
    let bar_height = height as usize / colours.len();
    proof {
        lemma_area_fits(width, height);
    }
    let total = ((width as u64) * (height as u64)) as usize;
    let mut pixels: Vec<Rgb8> = Vec::new();
    let mut i: usize = 0;
    while i < total
        invariant
            i <= total,
            total == width * height,
            img.wf(),
            height == img.height,
            width == img.width + colour_width,
            colours@.len() > 0,
            bar_height == (img.height as int) / (colours@.len() as int),
            pixels@.len() == i,
            forall|j: int|
                0 <= j < i ==> #[trigger] pixels@[j] == spec_bar_pixel(
                    *img,
                    colours@,
                    colour_width as int,
                    j % (width as int),
                    j / (width as int),
                ),
        decreases total - i,
    {
        proof {
            assert(width > 0) by (nonlinear_arith)
                requires
                    i < width * height,
                    0 <= i,
                    0 <= width,
            ;
            lemma_position_in_bounds(width as int, height as int, i as int);
        }
        let x = (i % (width as usize)) as u32;
        let y = (i / (width as usize)) as u32;
        let pixel = if x >= colour_width {
            img.get_pixel(x - colour_width, y)
        } else if bar_height > 0 && (y as usize) / bar_height < colours.len() {
            colours[(y as usize) / bar_height]
        } else {
            Rgb8 { r: 0, g: 0, b: 0 }
        };
        pixels.push(pixel);
        i += 1;
    }
    let canvas = Image { width, height, pixels };
    proof {
        assert forall|px: int, py: int| canvas.contains(px, py) implies #[trigger] canvas.at(
            px,
            py,
        ) == spec_bar_pixel(*img, colours@, colour_width as int, px, py) by {
            lemma_offset_in_bounds(width as int, height as int, px, py);
        }
    }
    canvas
}

} // verus!
