//! Error-diffusion dithering in linear light.
//!
//! A [`Ditherer`] walks an image in raster order. Each pixel is replaced by
//! a palette colour and the difference between what the pixel held and what
//! it now holds is handed on to the neighbours that have not been visited
//! yet. The palette colour is chosen by perceptual distance, so each step is
//! fed the perceptual coordinates of the pixel it is about to replace.

use vstd::prelude::*;
use crate::colour::{is_nearest, nearest, spec_nearest, Lab};
use crate::fixed::div_trunc;
use crate::image::{lemma_position_in_bounds, offset, Image, Rgb8};
use crate::transfer::{spec_pixel_to_linear, spec_pixel_to_srgb, to_linear, to_srgb};

verus! {

/// The error-diffusion kernels on offer.
#[derive(Clone, Copy, Debug, PartialEq, Eq, Structural)]
pub enum DitherPattern {
    FloydSteinberg,
}

/// The weights of a two-row kernel, as numerators over their common sum:
/// one neighbour to the right on the current row and three on the next row.
#[derive(Clone, Copy, Debug, PartialEq, Eq, Structural)]
pub struct DitherMatrix {
    pub right: u8,
    pub below_left: u8,
    pub below: u8,
    pub below_right: u8,
}

impl DitherMatrix {
    /// The sum of the four weights, which together stand for `1`.
    pub open spec fn denominator(&self) -> int {
        self.right + self.below_left + self.below + self.below_right
    }

    /// The weights of a usable kernel do not all vanish.
    pub open spec fn wf(&self) -> bool {
        self.denominator() > 0
    }
}

/// The kernel that a pattern names.
pub open spec fn spec_dither_matrix(pattern: DitherPattern) -> DitherMatrix {
    match pattern {
        DitherPattern::FloydSteinberg => DitherMatrix {
            right: 7,
            below_left: 3,
            below: 5,
            below_right: 1,
        },
    }
}

/// The kernel that a pattern names. Floyd-Steinberg gives 7/16 to the
/// right, 3/16 below left, 5/16 below and 1/16 below right.
pub fn get_dither_matrix(pattern: DitherPattern) -> (matrix: DitherMatrix)
    ensures
        matrix == spec_dither_matrix(pattern),
        matrix.wf(),
        matrix.denominator() == 16,
{
    match pattern {
        DitherPattern::FloydSteinberg => DitherMatrix {
            right: 7,
            below_left: 3,
            below: 5,
            below_right: 1,
        },
    }
}

/// A linear-light colour, in millionths of full intensity.
#[derive(Clone, Copy, Debug, PartialEq, Eq, Structural)]
pub struct LinearRgb {
    pub r: i32,
    pub g: i32,
    pub b: i32,
}

/// A linear-light colour with room for the error that diffusion piles up.
#[derive(Clone, Copy, Debug, PartialEq, Eq, Structural)]
pub struct WideRgb {
    pub r: i128,
    pub g: i128,
    pub b: i128,
}

/// A palette colour, given both in perceptual space, where the nearest
/// match is looked up, and in linear light, where the error is computed.
#[derive(Clone, Copy, Debug, PartialEq, Eq, Structural)]
pub struct PaletteEntry {
    pub lab: Lab,
    pub linear: LinearRgb,
}

/// The four parts that a residual `e` of one channel is split into.
pub struct Shares {
    pub right: int,
    pub below_left: int,
    pub below: int,
    pub below_right: int,
}

/// Splits the residual `e` by the kernel weights. The first three parts are
/// the weighted residual rounded towards zero; the part below right is what
/// is left, so that the four parts add up to `e`.
pub open spec fn spec_shares(matrix: DitherMatrix, e: int) -> Shares {
    let d = matrix.denominator();
    let right = div_trunc(e * matrix.right, d);
    let below_left = div_trunc(e * matrix.below_left, d);
    let below = div_trunc(e * matrix.below, d);
    Shares { right, below_left, below, below_right: e - right - below_left - below }
}

/// Absolute value.
pub open spec fn magnitude(x: int) -> int {
    if x < 0 {
        -x
    } else {
        x
    }
}

/// A weighted part of `e`, rounded towards zero, has the sign of `e` and,
/// scaled back up, does not exceed the weighted residual.
pub proof fn lemma_part(e: int, w: int, d: int)
    requires
        0 <= w <= d,
        0 < d,
    ensures
        e >= 0 ==> 0 <= div_trunc(e * w, d) && div_trunc(e * w, d) * d <= e * w,
        e <= 0 ==> div_trunc(e * w, d) <= 0 && div_trunc(e * w, d) * d >= e * w,
{
    if e >= 0 {
        assert(e * w >= 0) by (nonlinear_arith)
            requires
                e >= 0,
                w >= 0,
        ;
        let n = e * w;
        assert(0 <= n / d && (n / d) * d <= n) by (nonlinear_arith)
            requires
                n >= 0,
                d > 0,
        ;
    } else {
        assert(e * w <= 0 && -(e * w) == (-e) * w) by (nonlinear_arith)
            requires
                e < 0,
                w >= 0,
        ;
        let n = -(e * w);
        assert(0 <= n / d && (n / d) * d <= n) by (nonlinear_arith)
            requires
                n >= 0,
                d > 0,
        ;
        if e * w == 0 {
        } else {
            assert((-(n / d)) * d == -((n / d) * d)) by (nonlinear_arith);
        }
    }
}

/// The four parts of a residual add up to it, and none of them points the
/// other way: their magnitudes add up to the magnitude of the residual.
pub proof fn lemma_shares(matrix: DitherMatrix, e: int)
    requires
        matrix.wf(),
    ensures
        ({
            let s = spec_shares(matrix, e);
            &&& s.right + s.below_left + s.below + s.below_right == e
            &&& magnitude(s.right) + magnitude(s.below_left) + magnitude(s.below) + magnitude(
                s.below_right,
            ) == magnitude(e)
            &&& e >= 0 ==> s.right >= 0 && s.below_left >= 0 && s.below >= 0 && s.below_right >= 0
            &&& e <= 0 ==> s.right <= 0 && s.below_left <= 0 && s.below <= 0 && s.below_right <= 0
        }),
{
    let d = matrix.denominator();
    let s = spec_shares(matrix, e);
    let w1 = matrix.right as int;
    let w2 = matrix.below_left as int;
    let w3 = matrix.below as int;
    lemma_part(e, w1, d);
    lemma_part(e, w2, d);
    lemma_part(e, w3, d);
    let t1 = s.right;
    let t2 = s.below_left;
    let t3 = s.below;
    if e >= 0 {
        assert(t1 + t2 + t3 <= e) by (nonlinear_arith)
            requires
                t1 * d <= e * w1,
                t2 * d <= e * w2,
                t3 * d <= e * w3,
                w1 + w2 + w3 <= d,
                w1 >= 0,
                w2 >= 0,
                w3 >= 0,
                e >= 0,
                d > 0,
        {
            assert((t1 + t2 + t3) * d <= e * (w1 + w2 + w3));
            assert(e * (w1 + w2 + w3) <= e * d);
            if t1 + t2 + t3 > e {
                assert((t1 + t2 + t3) * d >= (e + 1) * d);
            }
        }
    }
    if e <= 0 {
        assert(t1 + t2 + t3 >= e) by (nonlinear_arith)
            requires
                t1 * d >= e * w1,
                t2 * d >= e * w2,
                t3 * d >= e * w3,
                w1 + w2 + w3 <= d,
                w1 >= 0,
                w2 >= 0,
                w3 >= 0,
                e <= 0,
                d > 0,
        {
            assert((t1 + t2 + t3) * d >= e * (w1 + w2 + w3));
            assert(e * (w1 + w2 + w3) >= e * d);
            if t1 + t2 + t3 < e {
                assert((t1 + t2 + t3) * d <= (e - 1) * d);
            }
        }
    }
}

/// A linear-light colour as three unbounded integers.
pub struct Tone {
    pub r: int,
    pub g: int,
    pub b: int,
}

impl Tone {
    /// One channel: `0` is red, `1` is green, anything else is blue.
    pub open spec fn channel(self, c: int) -> int {
        if c == 0 {
            self.r
        } else if c == 1 {
            self.g
        } else {
            self.b
        }
    }

    /// Channel-wise sum.
    pub open spec fn plus(self, other: Tone) -> Tone {
        Tone { r: self.r + other.r, g: self.g + other.g, b: self.b + other.b }
    }

    /// Channel-wise difference.
    pub open spec fn minus(self, other: Tone) -> Tone {
        Tone { r: self.r - other.r, g: self.g - other.g, b: self.b - other.b }
    }

    /// Every channel has magnitude at most `bound`.
    pub open spec fn within(self, bound: int) -> bool {
        &&& -bound <= self.r <= bound
        &&& -bound <= self.g <= bound
        &&& -bound <= self.b <= bound
    }
}

impl View for LinearRgb {
    type V = Tone;

    open spec fn view(&self) -> Tone {
        Tone { r: self.r as int, g: self.g as int, b: self.b as int }
    }
}

impl View for WideRgb {
    type V = Tone;

    open spec fn view(&self) -> Tone {
        Tone { r: self.r as int, g: self.g as int, b: self.b as int }
    }
}

/// The tones of a buffer of wide colours.
pub open spec fn tones(buffer: Seq<WideRgb>) -> Seq<Tone> {
    Seq::new(buffer.len(), |i: int| buffer[i]@)
}

/// The perceptual coordinates of the palette entries.
pub open spec fn palette_labs(palette: Seq<PaletteEntry>) -> Seq<Lab> {
    Seq::new(palette.len(), |i: int| palette[i].lab)
}

/// The part of a residual that each of the four neighbours receives.
pub struct Parts {
    pub right: Tone,
    pub below_left: Tone,
    pub below: Tone,
    pub below_right: Tone,
}

/// Splits a residual channel by channel, as [`spec_shares`] describes.
pub open spec fn spec_parts(matrix: DitherMatrix, e: Tone) -> Parts {
    let r = spec_shares(matrix, e.r);
    let g = spec_shares(matrix, e.g);
    let b = spec_shares(matrix, e.b);
    Parts {
        right: Tone { r: r.right, g: g.right, b: b.right },
        below_left: Tone { r: r.below_left, g: g.below_left, b: b.below_left },
        below: Tone { r: r.below, g: g.below, b: b.below },
        below_right: Tone { r: r.below_right, g: g.below_right, b: b.below_right },
    }
}

/// `buffer` with `amount` added to the pixel at `(x, y)`; unchanged when
/// `(x, y)` lies outside the `width` by `height` grid.
pub open spec fn deposit(
    buffer: Seq<Tone>,
    width: int,
    height: int,
    x: int,
    y: int,
    amount: Tone,
) -> Seq<Tone> {
    if 0 <= x < width && 0 <= y < height {
        let i = offset(width, x, y);
        buffer.update(i, buffer[i].plus(amount))
    } else {
        buffer
    }
}

/// `c` is the linear-light colour of some palette entry.
pub open spec fn from_palette(c: LinearRgb, palette: Seq<PaletteEntry>) -> bool {
    exists|p: int| 0 <= p < palette.len() && (#[trigger] palette[p]).linear == c
}

/// `buffer` after the pixel at offset `cursor`, which is the pixel at
/// `(x, y)`, has been set to `quantized` and the four parts have been added
/// to its neighbours.
pub open spec fn diffuse(
    buffer: Seq<Tone>,
    width: int,
    height: int,
    cursor: int,
    x: int,
    y: int,
    quantized: Tone,
    parts: Parts,
) -> Seq<Tone> {
    let b0 = buffer.update(cursor, quantized);
    let b1 = deposit(b0, width, height, x + 1, y, parts.right);
    let b2 = deposit(b1, width, height, x - 1, y + 1, parts.below_left);
    let b3 = deposit(b2, width, height, x, y + 1, parts.below);
    deposit(b3, width, height, x + 1, y + 1, parts.below_right)
}

/// The sum over channel `c` of the parts whose neighbour lies outside the grid.
pub open spec fn clipped(width: int, height: int, x: int, y: int, parts: Parts, c: int) -> int {
    (if 0 <= x + 1 < width && 0 <= y < height {
        0
    } else {
        parts.right.channel(c)
    }) + (if 0 <= x - 1 < width && 0 <= y + 1 < height {
        0
    } else {
        parts.below_left.channel(c)
    }) + (if 0 <= x < width && 0 <= y + 1 < height {
        0
    } else {
        parts.below.channel(c)
    }) + (if 0 <= x + 1 < width && 0 <= y + 1 < height {
        0
    } else {
        parts.below_right.channel(c)
    })
}

/// What a [`Ditherer`] stands for: the working buffer, how far the scan has
/// come, and the palette and kernel it works with.
pub struct DitherView {
    pub width: int,
    pub height: int,
    pub buffer: Seq<Tone>,
    pub cursor: int,
    pub palette: Seq<PaletteEntry>,
    pub matrix: DitherMatrix,
}

/// Largest magnitude of a channel of an input pixel or a palette colour.
pub open spec fn channel_limit() -> int {
    0x8000_0000
}

/// Sum of channel `c` over a buffer.
pub open spec fn channel_total(buffer: Seq<Tone>, c: int) -> int
    decreases buffer.len(),
{
    if buffer.len() == 0 {
        0
    } else {
        channel_total(buffer.drop_last(), c) + buffer.last().channel(c)
    }
}

/// Sum of the magnitudes of channel `c` over a buffer.
pub open spec fn channel_mass(buffer: Seq<Tone>, c: int) -> int
    decreases buffer.len(),
{
    if buffer.len() == 0 {
        0
    } else {
        channel_mass(buffer.drop_last(), c) + magnitude(buffer.last().channel(c))
    }
}

impl DitherView {
    /// The scan has visited every pixel.
    pub open spec fn done(self) -> bool {
        self.cursor == self.buffer.len()
    }

    /// Column of the pixel under the cursor.
    pub open spec fn x(self) -> int {
        self.cursor % self.width
    }

    /// Row of the pixel under the cursor.
    pub open spec fn y(self) -> int {
        self.cursor / self.width
    }

    /// The pixel under the cursor, with all the error it has received.
    pub open spec fn current(self) -> Tone {
        self.buffer[self.cursor]
    }

    /// The pixel at offset `j` holds a palette colour.
    pub open spec fn quantized(self, j: int) -> bool {
        exists|p: int| 0 <= p < self.palette.len() && self.buffer[j] == (#[trigger] self.palette[p]).linear@
    }

    /// What holds of every state a scan passes through: the buffer fills
    /// the grid, the cursor is inside it or just past its end, every visited
    /// pixel holds a palette colour, and the buffer as a whole has gained no
    /// more than two channel limits of magnitude per visited pixel.
    pub open spec fn inv(self) -> bool {
        &&& 0 <= self.width <= u32::MAX
        &&& 0 <= self.height <= u32::MAX
        &&& self.buffer.len() == self.width * self.height
        &&& self.buffer.len() <= usize::MAX
        &&& 0 <= self.cursor <= self.buffer.len()
        &&& self.palette.len() > 0
        &&& self.matrix.wf()
        &&& forall|j: int| 0 <= j < self.cursor ==> #[trigger] self.quantized(j)
        &&& forall|c: int|
            0 <= c < 3 ==> #[trigger] channel_mass(self.buffer, c) <= (self.buffer.len() + 2
                * self.cursor) * channel_limit()
    }

    /// The state after the pixel under the cursor, whose perceptual
    /// coordinates are `lab`, has been quantized and its residual diffused.
    pub open spec fn step(self, lab: Lab) -> DitherView {
        let chosen = spec_nearest(lab, palette_labs(self.palette));
        let quantized = self.palette[chosen].linear@;
        let parts = spec_parts(self.matrix, self.current().minus(quantized));
        DitherView {
            buffer: diffuse(
                self.buffer,
                self.width,
                self.height,
                self.cursor,
                self.x(),
                self.y(),
                quantized,
                parts,
            ),
            cursor: self.cursor + 1,
            ..self
        }
    }

    /// The pixel under the cursor has all four neighbours that the kernel
    /// reaches.
    pub open spec fn interior(self) -> bool {
        &&& 1 <= self.x()
        &&& self.x() + 1 < self.width
        &&& self.y() + 1 < self.height
    }
}

/// Overwriting one pixel changes a channel total by the difference of the
/// two values, and the mass by the difference of their magnitudes.
pub proof fn lemma_update_sums(buffer: Seq<Tone>, i: int, v: Tone, c: int)
    requires
        0 <= i < buffer.len(),
    ensures
        channel_total(buffer.update(i, v), c) == channel_total(buffer, c) - buffer[i].channel(c)
            + v.channel(c),
        channel_mass(buffer.update(i, v), c) == channel_mass(buffer, c) - magnitude(
            buffer[i].channel(c),
        ) + magnitude(v.channel(c)),
    decreases buffer.len(),
{
    let updated = buffer.update(i, v);
    if i == buffer.len() - 1 {
        assert(updated.drop_last() =~= buffer.drop_last());
    } else {
        assert(updated.drop_last() =~= buffer.drop_last().update(i, v));
        lemma_update_sums(buffer.drop_last(), i, v, c);
    }
}

/// No pixel has a channel larger in magnitude than the mass of that channel.
pub proof fn lemma_entry_within_mass(buffer: Seq<Tone>, i: int, c: int)
    requires
        0 <= i < buffer.len(),
    ensures
        magnitude(buffer[i].channel(c)) <= channel_mass(buffer, c),
        channel_mass(buffer, c) >= 0,
    decreases buffer.len(),
{
    lemma_mass_nonnegative(buffer.drop_last(), c);
    if i < buffer.len() - 1 {
        lemma_entry_within_mass(buffer.drop_last(), i, c);
    }
}

/// Mass is never negative.
pub proof fn lemma_mass_nonnegative(buffer: Seq<Tone>, c: int)
    ensures
        channel_mass(buffer, c) >= 0,
    decreases buffer.len(),
{
    if buffer.len() > 0 {
        lemma_mass_nonnegative(buffer.drop_last(), c);
    }
}

/// A buffer whose channels all stay within `bound` has mass at most `bound`
/// per pixel.
pub proof fn lemma_mass_of_bounded(buffer: Seq<Tone>, bound: int, c: int)
    requires
        forall|i: int| 0 <= i < buffer.len() ==> (#[trigger] buffer[i]).within(bound),
    ensures
        channel_mass(buffer, c) <= buffer.len() * bound,
    decreases buffer.len(),
{
    if buffer.len() > 0 {
        let head = buffer.drop_last();
        lemma_mass_of_bounded(head, bound, c);
        assert(buffer.last().within(bound));
        assert(head.len() * bound + bound == buffer.len() * bound) by (nonlinear_arith)
            requires
                head.len() + 1 == buffer.len(),
        ;
    }
}

/// A deposit changes a channel total by the amount deposited when it lands
/// inside the grid, and the mass by no more than the magnitude of the amount.
pub proof fn lemma_deposit_sums(
    buffer: Seq<Tone>,
    width: int,
    height: int,
    x: int,
    y: int,
    amount: Tone,
    c: int,
)
    requires
        buffer.len() == width * height,
    ensures
        deposit(buffer, width, height, x, y, amount).len() == buffer.len(),
        channel_total(deposit(buffer, width, height, x, y, amount), c) == channel_total(buffer, c)
            + (if 0 <= x < width && 0 <= y < height {
            amount.channel(c)
        } else {
            0
        }),
        channel_mass(deposit(buffer, width, height, x, y, amount), c) <= channel_mass(buffer, c)
            + magnitude(amount.channel(c)),
{
    if 0 <= x < width && 0 <= y < height {
        crate::image::lemma_offset_in_bounds(width, height, x, y);
        let i = offset(width, x, y);
        lemma_update_sums(buffer, i, buffer[i].plus(amount), c);
    }
}

/// The four neighbours that a step diffuses to all lie after the cursor.
pub proof fn lemma_targets_ahead(s: DitherView, dx: int, dy: int)
    requires
        s.inv(),
        !s.done(),
        (dx == 1 && dy == 0) || (-1 <= dx <= 1 && dy == 1),
        0 <= s.x() + dx < s.width,
        0 <= s.y() + dy < s.height,
    ensures
        s.cursor < offset(s.width, s.x() + dx, s.y() + dy) < s.buffer.len(),
        0 < s.width,
        offset(s.width, s.x(), s.y()) == s.cursor,
{
    let w = s.width;
    assert(w > 0) by (nonlinear_arith)
        requires
            s.cursor < w * s.height,
            0 <= s.cursor,
            0 <= w,
    ;
    lemma_position_in_bounds(w, s.height, s.cursor);
    crate::image::lemma_offset_in_bounds(w, s.height, s.x() + dx, s.y() + dy);
    let y = s.y();
    assert((y + 1) * w == y * w + w) by (nonlinear_arith);
}

/// A step fixes the pixel under the cursor to the chosen palette colour and
/// leaves every pixel before the cursor as it was.
pub proof fn lemma_step_frame(s: DitherView, lab: Lab, j: int)
    requires
        s.inv(),
        !s.done(),
        0 <= j <= s.cursor,
    ensures
        s.step(lab).buffer.len() == s.buffer.len(),
        0 <= spec_nearest(lab, palette_labs(s.palette)) < s.palette.len(),
        j < s.cursor ==> s.step(lab).buffer[j] == s.buffer[j],
        s.step(lab).buffer[s.cursor] == s.palette[spec_nearest(
            lab,
            palette_labs(s.palette),
        )].linear@,
{
    crate::colour::lemma_nearest_exists(lab, palette_labs(s.palette));
    let chosen = spec_nearest(lab, palette_labs(s.palette));
    let quantized = s.palette[chosen].linear@;
    let parts = spec_parts(s.matrix, s.current().minus(quantized));
    let (w, h, x, y) = (s.width, s.height, s.x(), s.y());
    let b0 = s.buffer.update(s.cursor, quantized);
    let b1 = deposit(b0, w, h, x + 1, y, parts.right);
    let b2 = deposit(b1, w, h, x - 1, y + 1, parts.below_left);
    let b3 = deposit(b2, w, h, x, y + 1, parts.below);
    let b4 = deposit(b3, w, h, x + 1, y + 1, parts.below_right);
    if 0 <= x + 1 < w && 0 <= y < h {
        lemma_targets_ahead(s, 1, 0);
    }
    if 0 <= x - 1 < w && 0 <= y + 1 < h {
        lemma_targets_ahead(s, -1, 1);
    }
    if 0 <= x < w && 0 <= y + 1 < h {
        lemma_targets_ahead(s, 0, 1);
    }
    if 0 <= x + 1 < w && 0 <= y + 1 < h {
        lemma_targets_ahead(s, 1, 1);
    }
    assert(b1[j] == b0[j]);
    assert(b2[j] == b1[j]);
    assert(b3[j] == b2[j]);
    assert(b4[j] == b3[j]);
    assert(b1[s.cursor] == b0[s.cursor]);
    assert(b2[s.cursor] == b1[s.cursor]);
    assert(b3[s.cursor] == b2[s.cursor]);
    assert(b4[s.cursor] == b3[s.cursor]);
}

/// How diffusion changes the sums of one channel: the total moves by what
/// the visited pixel and its neighbours inside the grid gain, and the mass
/// grows by no more than the magnitudes involved.
pub proof fn lemma_diffuse_sums(
    buffer: Seq<Tone>,
    width: int,
    height: int,
    cursor: int,
    x: int,
    y: int,
    quantized: Tone,
    parts: Parts,
    c: int,
)
    requires
        buffer.len() == width * height,
        0 <= cursor < buffer.len(),
    ensures
        diffuse(buffer, width, height, cursor, x, y, quantized, parts).len() == buffer.len(),
        channel_total(diffuse(buffer, width, height, cursor, x, y, quantized, parts), c)
            == channel_total(buffer, c) - buffer[cursor].channel(c) + quantized.channel(c)
            + parts.right.channel(c) + parts.below_left.channel(c) + parts.below.channel(c)
            + parts.below_right.channel(c) - clipped(width, height, x, y, parts, c),
        channel_mass(diffuse(buffer, width, height, cursor, x, y, quantized, parts), c)
            <= channel_mass(buffer, c) - magnitude(buffer[cursor].channel(c)) + magnitude(
            quantized.channel(c),
        ) + magnitude(parts.right.channel(c)) + magnitude(parts.below_left.channel(c))
            + magnitude(parts.below.channel(c)) + magnitude(parts.below_right.channel(c)),
{
    let b0 = buffer.update(cursor, quantized);
    let b1 = deposit(b0, width, height, x + 1, y, parts.right);
    let b2 = deposit(b1, width, height, x - 1, y + 1, parts.below_left);
    let b3 = deposit(b2, width, height, x, y + 1, parts.below);
    lemma_update_sums(buffer, cursor, quantized, c);
    lemma_deposit_sums(b0, width, height, x + 1, y, parts.right, c);
    lemma_deposit_sums(b1, width, height, x - 1, y + 1, parts.below_left, c);
    lemma_deposit_sums(b2, width, height, x, y + 1, parts.below, c);
    lemma_deposit_sums(b3, width, height, x + 1, y + 1, parts.below_right, c);
}

/// The four parts of a residual add up to it in every channel, and so do
/// their magnitudes.
pub proof fn lemma_parts(matrix: DitherMatrix, e: Tone, c: int)
    requires
        matrix.wf(),
    ensures
        ({
            let p = spec_parts(matrix, e);
            &&& p.right.channel(c) + p.below_left.channel(c) + p.below.channel(c)
                + p.below_right.channel(c) == e.channel(c)
            &&& magnitude(p.right.channel(c)) + magnitude(p.below_left.channel(c)) + magnitude(
                p.below.channel(c),
            ) + magnitude(p.below_right.channel(c)) == magnitude(e.channel(c))
        }),
{
    lemma_shares(matrix, e.channel(c));
}

/// The part of the residual of channel `c` that a step loses because the
/// neighbour it was meant for lies outside the grid.
pub open spec fn spec_dropped(s: DitherView, lab: Lab, c: int) -> int {
    let chosen = spec_nearest(lab, palette_labs(s.palette));
    let parts = spec_parts(s.matrix, s.current().minus(s.palette[chosen].linear@));
    clipped(s.width, s.height, s.x(), s.y(), parts, c)
}

/// How a step changes the sum of one channel over the buffer: the total
/// drops by the parts of the residual whose neighbour lies outside the grid,
/// and the mass grows by at most twice the magnitude of the chosen colour.
pub proof fn lemma_step_sums(s: DitherView, lab: Lab, c: int)
    requires
        s.inv(),
        !s.done(),
        0 <= c < 3,
    ensures
        channel_total(s.step(lab).buffer, c) == channel_total(s.buffer, c) - spec_dropped(
            s,
            lab,
            c,
        ),
        channel_mass(s.step(lab).buffer, c) <= channel_mass(s.buffer, c) + 2 * channel_limit(),
{
    crate::colour::lemma_nearest_exists(lab, palette_labs(s.palette));
    let chosen = spec_nearest(lab, palette_labs(s.palette));
    let quantized = s.palette[chosen].linear@;
    let e = s.current().minus(quantized);
    let parts = spec_parts(s.matrix, e);
    lemma_diffuse_sums(s.buffer, s.width, s.height, s.cursor, s.x(), s.y(), quantized, parts, c);
    lemma_parts(s.matrix, e, c);
    assert(e.channel(c) == s.current().channel(c) - quantized.channel(c));
    assert(magnitude(quantized.channel(c)) <= channel_limit());
}

/// A step away from the right, left and bottom edges conserves the sum of
/// every channel over the buffer: what the visited pixel loses by being
/// quantized is exactly what its four neighbours gain.
pub proof fn lemma_interior_step_conserves_total(s: DitherView, lab: Lab, c: int)
    requires
        s.inv(),
        !s.done(),
        s.interior(),
        0 <= c < 3,
    ensures
        channel_total(s.step(lab).buffer, c) == channel_total(s.buffer, c),
{
    lemma_step_sums(s, lab, c);
    lemma_targets_ahead(s, 0, 1);
}

/// A step keeps the scan invariant.
pub proof fn lemma_step_keeps_inv(s: DitherView, lab: Lab)
    requires
        s.inv(),
        !s.done(),
    ensures
        s.step(lab).inv(),
{
    let t = s.step(lab);
    lemma_step_frame(s, lab, 0);
    let chosen = spec_nearest(lab, palette_labs(s.palette));
    assert forall|j: int| 0 <= j < t.cursor implies #[trigger] t.quantized(j) by {
        lemma_step_frame(s, lab, j);
        if j < s.cursor {
            assert(s.quantized(j));
            let p = choose|p: int|
                0 <= p < s.palette.len() && s.buffer[j] == (#[trigger] s.palette[p]).linear@;
            assert(t.buffer[j] == t.palette[p].linear@);
        } else {
            assert(t.buffer[j] == t.palette[chosen].linear@);
        }
    }
    assert forall|c: int| 0 <= c < 3 implies #[trigger] channel_mass(t.buffer, c) <= (
    t.buffer.len() + 2 * t.cursor) * channel_limit() by {
        lemma_step_sums(s, lab, c);
        assert(channel_mass(s.buffer, c) <= (s.buffer.len() + 2 * s.cursor) * channel_limit());
        assert((s.buffer.len() + 2 * s.cursor) * channel_limit() + 2 * channel_limit() == (
        s.buffer.len() + 2 * (s.cursor + 1)) * channel_limit()) by (nonlinear_arith);
    }
}

/// `c` with every channel widened.
pub fn widen(c: LinearRgb) -> (w: WideRgb)
    ensures
        w@ == c@,
{
    WideRgb { r: c.r as i128, g: c.g as i128, b: c.b as i128 }
}

/// Largest channel magnitude that [`select_colour_rgb`] and the scan take in
/// their stride: far above anything a scan can accumulate.
pub open spec fn wide_limit() -> int {
    0x1_0000_0000_0000_0000_0000_0000_0000
}

/// One part of a residual: `e * weight / denominator`, rounded towards zero.
fn part(e: i128, weight: u8, denominator: u16) -> (t: i128)
    requires
        -wide_limit() <= e <= wide_limit(),
        0 < denominator,
        weight <= denominator,
    ensures
        t == div_trunc(e * weight, denominator as int),
        -wide_limit() <= t <= wide_limit(),
{
    proof {
        lemma_part(e as int, weight as int, denominator as int);
        assert(-wide_limit() * 255 <= e * weight <= wide_limit() * 255) by (nonlinear_arith)
            requires
                -wide_limit() <= e <= wide_limit(),
                0 <= weight <= 255,
        ;
        let t = div_trunc(e * weight, denominator as int);
        let d = denominator as int;
        let w = weight as int;
        let ee = e as int;
        assert(-wide_limit() <= t <= wide_limit()) by (nonlinear_arith)
            requires
                ee >= 0 ==> 0 <= t && t * d <= ee * w,
                ee <= 0 ==> t <= 0 && t * d >= ee * w,
                0 <= w <= d,
                0 < d,
                -wide_limit() <= ee <= wide_limit(),
        {
            if ee >= 0 {
                assert(ee * w <= ee * d);
                if t > ee {
                    assert(t * d >= (ee + 1) * d);
                }
            } else {
                assert(ee * w >= ee * d);
                if t < ee {
                    assert(t * d <= (ee - 1) * d);
                }
            }
        }
    }
    (e * (weight as i128)) / (denominator as i128)
}

/// The four parts of one channel of a residual.
fn shares(matrix: &DitherMatrix, e: i128) -> (s: (i128, i128, i128, i128))
    requires
        matrix.wf(),
        -wide_limit() <= e <= wide_limit(),
    ensures
        s.0 == spec_shares(*matrix, e as int).right,
        s.1 == spec_shares(*matrix, e as int).below_left,
        s.2 == spec_shares(*matrix, e as int).below,
        s.3 == spec_shares(*matrix, e as int).below_right,
        -wide_limit() <= s.0 <= wide_limit(),
        -wide_limit() <= s.1 <= wide_limit(),
        -wide_limit() <= s.2 <= wide_limit(),
        -wide_limit() <= s.3 <= wide_limit(),
{
    let denominator: u16 = matrix.right as u16 + matrix.below_left as u16 + matrix.below as u16
        + matrix.below_right as u16;
    let right = part(e, matrix.right, denominator);
    let below_left = part(e, matrix.below_left, denominator);
    let below = part(e, matrix.below, denominator);
    proof {
        lemma_shares(*matrix, e as int);
    }
    (right, below_left, below, e - right - below_left - below)
}

/// Splits a residual into the parts its four neighbours receive.
fn parts_of(matrix: &DitherMatrix, e: &WideRgb) -> (p: (WideRgb, WideRgb, WideRgb, WideRgb))
    requires
        matrix.wf(),
        e@.within(wide_limit()),
    ensures
        p.0@ == spec_parts(*matrix, e@).right,
        p.1@ == spec_parts(*matrix, e@).below_left,
        p.2@ == spec_parts(*matrix, e@).below,
        p.3@ == spec_parts(*matrix, e@).below_right,
        p.0@.within(wide_limit()),
        p.1@.within(wide_limit()),
        p.2@.within(wide_limit()),
        p.3@.within(wide_limit()),
{
    let r = shares(matrix, e.r);
    let g = shares(matrix, e.g);
    let b = shares(matrix, e.b);
    (
        WideRgb { r: r.0, g: g.0, b: b.0 },
        WideRgb { r: r.1, g: g.1, b: b.1 },
        WideRgb { r: r.2, g: g.2, b: b.2 },
        WideRgb { r: r.3, g: g.3, b: b.3 },
    )
}

/// The palette entry nearest to a colour, and what is left of the colour
/// once that entry is taken away.
///
/// `lab` is the colour in perceptual space, where the nearest entry is
/// looked up; `colour` is the same colour in linear light, where the
/// residual is computed.
pub fn select_colour_rgb(colour: &WideRgb, lab: &Lab, palette: &[PaletteEntry]) -> (r: (
    LinearRgb,
    WideRgb,
))
    requires
        palette@.len() > 0,
        colour@.within(wide_limit()),
    ensures
        r.0 == palette@[spec_nearest(*lab, palette_labs(palette@))].linear,
        r.1@ == colour@.minus(r.0@),
{
    let chosen = nearest_entry(lab, palette);
    let quantized = palette[chosen].linear;
    (
        quantized,
        WideRgb {
            r: colour.r - quantized.r as i128,
            g: colour.g - quantized.g as i128,
            b: colour.b - quantized.b as i128,
        },
    )
}

/// Index of the palette entry perceptually nearest to `lab`; of several at
/// the same distance, the first.
pub fn nearest_entry(lab: &Lab, palette: &[PaletteEntry]) -> (chosen: usize)
    requires
        palette@.len() > 0,
    ensures
        chosen as int == spec_nearest(*lab, palette_labs(palette@)),
        is_nearest(*lab, palette_labs(palette@), chosen as int),
        chosen < palette@.len(),
{
    let mut labs: Vec<Lab> = Vec::new();
    let mut i: usize = 0;
    while i < palette.len()
        invariant
            i <= palette@.len(),
            labs@.len() == i,
            forall|j: int| 0 <= j < i ==> #[trigger] labs@[j] == palette@[j].lab,
        decreases palette.len() - i,
    {
        labs.push(palette[i].lab);
        i += 1;
    }
    assert(labs@ =~= palette_labs(palette@));
    nearest(lab, labs.as_slice())
}

/// The state a scan of `img` starts in: the buffer holds the image and the
/// cursor is on its first pixel.
pub open spec fn spec_start(
    width: u32,
    height: u32,
    pixels: Seq<LinearRgb>,
    palette: Seq<PaletteEntry>,
    pattern: DitherPattern,
) -> DitherView {
    DitherView {
        width: width as int,
        height: height as int,
        buffer: Seq::new(pixels.len(), |i: int| pixels[i]@),
        cursor: 0,
        palette,
        matrix: spec_dither_matrix(pattern),
    }
}

/// The state reached from `s` by one step for each element of `labs`.
pub open spec fn spec_run(s: DitherView, labs: Seq<Lab>) -> DitherView
    decreases labs.len(),
{
    if labs.len() == 0 {
        s
    } else {
        spec_run(s, labs.drop_last()).step(labs.last())
    }
}

/// What a run of steps loses of channel `c` at the edges of the grid, all
/// steps together.
pub open spec fn spec_run_dropped(s: DitherView, labs: Seq<Lab>, c: int) -> int
    decreases labs.len(),
{
    if labs.len() == 0 {
        0
    } else {
        spec_run_dropped(s, labs.drop_last(), c) + spec_dropped(
            spec_run(s, labs.drop_last()),
            labs.last(),
            c,
        )
    }
}

/// A run of steps that does not overrun the buffer keeps the scan invariant
/// and moves the cursor by one pixel per step.
pub proof fn lemma_run_keeps_inv(s: DitherView, labs: Seq<Lab>)
    requires
        s.inv(),
        s.cursor + labs.len() <= s.buffer.len(),
    ensures
        spec_run(s, labs).inv(),
        spec_run(s, labs).cursor == s.cursor + labs.len(),
        spec_run(s, labs).buffer.len() == s.buffer.len(),
    decreases labs.len(),
{
    if labs.len() > 0 {
        lemma_run_keeps_inv(s, labs.drop_last());
        let before = spec_run(s, labs.drop_last());
        lemma_step_keeps_inv(before, labs.last());
        lemma_step_frame(before, labs.last(), 0);
    }
}

/// Over any run of steps the sum of a channel over the buffer changes by
/// exactly what was dropped at the edges of the grid: diffusion itself
/// neither adds nor removes anything.
pub proof fn lemma_run_conserves_total(s: DitherView, labs: Seq<Lab>, c: int)
    requires
        s.inv(),
        s.cursor + labs.len() <= s.buffer.len(),
        0 <= c < 3,
    ensures
        channel_total(spec_run(s, labs).buffer, c) + spec_run_dropped(s, labs, c) == channel_total(
            s.buffer,
            c,
        ),
    decreases labs.len(),
{
    if labs.len() > 0 {
        lemma_run_conserves_total(s, labs.drop_last(), c);
        lemma_run_keeps_inv(s, labs.drop_last());
        lemma_step_sums(spec_run(s, labs.drop_last()), labs.last(), c);
    }
}

/// The wide colour with the channels of `t`.
pub open spec fn spec_wide(t: Tone) -> WideRgb {
    WideRgb { r: t.r as i128, g: t.g as i128, b: t.b as i128 }
}

/// Each element of `labs` is what `to_perceptual` may return for the pixel
/// that was under the cursor when that element was used.
pub open spec fn follows<F: Fn(WideRgb) -> Lab>(
    to_perceptual: F,
    start: DitherView,
    labs: Seq<Lab>,
) -> bool {
    forall|i: int|
        0 <= i < labs.len() ==> to_perceptual.ensures(
            (spec_wide(spec_run(start, labs.take(i)).current()),),
            #[trigger] labs[i],
        )
}

/// A raster scan in progress.
pub struct Ditherer {
    width: u32,
    height: u32,
    buffer: Vec<WideRgb>,
    cursor: usize,
    palette: Vec<PaletteEntry>,
    matrix: DitherMatrix,
}

impl View for Ditherer {
    type V = DitherView;

    closed spec fn view(&self) -> DitherView {
        DitherView {
            width: self.width as int,
            height: self.height as int,
            buffer: tones(self.buffer@),
            cursor: self.cursor as int,
            palette: self.palette@,
            matrix: self.matrix,
        }
    }
}

impl Ditherer {
    /// The scan is in a state that it can be continued from.
    pub closed spec fn wf(&self) -> bool {
        self@.inv()
    }

    /// What [`Ditherer::wf`] guarantees about the state.
    pub proof fn lemma_wf(&self)
        requires
            self.wf(),
        ensures
            self@.inv(),
    {
    }

    /// Starts a scan of `img` at its top left pixel.
    pub fn new(img: &Image<LinearRgb>, palette: &[PaletteEntry], pattern: DitherPattern) -> (d:
        Self)
        requires
            img.wf(),
            palette@.len() > 0,
        ensures
            d.wf(),
            d@ == spec_start(img.width, img.height, img.pixels@, palette@, pattern),
    {
        let mut buffer: Vec<WideRgb> = Vec::new();
        let mut i: usize = 0;
        while i < img.pixels.len()
            invariant
                i <= img.pixels@.len(),
                buffer@.len() == i,
                forall|j: int| 0 <= j < i ==> (#[trigger] buffer@[j])@ == img.pixels@[j]@,
            decreases img.pixels.len() - i,
        {
            buffer.push(widen(img.pixels[i]));
            i += 1;
        }
        let mut entries: Vec<PaletteEntry> = Vec::new();
        let mut k: usize = 0;
        while k < palette.len()
            invariant
                k <= palette@.len(),
                entries@ == palette@.take(k as int),
            decreases palette.len() - k,
        {
            entries.push(palette[k]);
            assert(entries@ =~= palette@.take(k + 1));
            k += 1;
        }
        assert(palette@.take(k as int) == palette@);
        let d = Ditherer {
            width: img.width,
            height: img.height,
            buffer,
            cursor: 0,
            palette: entries,
            matrix: get_dither_matrix(pattern),
        };
        proof {
            assert(d@.buffer =~= spec_start(
                img.width,
                img.height,
                img.pixels@,
                palette@,
                pattern,
            ).buffer);
            assert forall|c: int| 0 <= c < 3 implies #[trigger] channel_mass(d@.buffer, c) <= (
            d@.buffer.len() + 2 * d@.cursor) * channel_limit() by {
                assert forall|j: int| 0 <= j < d@.buffer.len() implies (
                #[trigger] d@.buffer[j]).within(channel_limit()) by {
                    assert(d@.buffer[j] == img.pixels@[j]@);
                }
                lemma_mass_of_bounded(d@.buffer, channel_limit(), c);
            }
        }
        d
    }

    /// Number of pixels visited so far, which is the offset of the pixel
    /// under the cursor.
    pub fn position(&self) -> (cursor: usize)
        ensures
            cursor == self@.cursor,
    {
        self.cursor
    }

    /// Number of pixels in the buffer.
    pub fn len(&self) -> (n: usize)
        ensures
            n == self@.buffer.len(),
    {
        self.buffer.len()
    }

    /// The pixel at offset `i` as it stands now: a palette colour if it has
    /// been visited, else what the image held there plus the error diffused to it.
    pub fn pixel(&self, i: usize) -> (colour: WideRgb)
        requires
            i < self@.buffer.len(),
        ensures
            colour@ == self@.buffer[i as int],
    {
        self.buffer[i]
    }

    /// Whether every pixel has been visited.
    pub fn is_done(&self) -> (done: bool)
        requires
            self.wf(),
        ensures
            done == self@.done(),
    {
        self.cursor >= self.buffer.len()
    }

    /// The pixel the next step will quantize, with all the error it has
    /// received so far.
    pub fn current(&self) -> (colour: WideRgb)
        requires
            self.wf(),
            !self@.done(),
        ensures
            colour@ == self@.current(),
            colour@.within(wide_limit()),
    {
        proof {
            self.lemma_entry_bound(self.cursor as int);
        }
        self.buffer[self.cursor]
    }

    /// Quantizes the pixel under the cursor and diffuses what is lost.
    ///
    /// `lab` holds the perceptual coordinates of [`Ditherer::current`]. The
    /// palette entry nearest to `lab` replaces the pixel and is returned. The
    /// difference between the old and the new value is split by the kernel
    /// weights and added to the right, below-left, below and below-right
    /// neighbours; a part whose neighbour lies outside the image is dropped.
    pub fn step(&mut self, lab: &Lab) -> (quantized: LinearRgb)
        requires
            old(self).wf(),
            !old(self)@.done(),
        ensures
            final(self).wf(),
            final(self)@ == old(self)@.step(*lab),
            final(self)@.cursor == old(self)@.cursor + 1,
            final(self)@.buffer.len() == old(self)@.buffer.len(),
            quantized == old(self)@.palette[spec_nearest(
                *lab,
                palette_labs(old(self)@.palette),
            )].linear,
    {
        let ghost s = self@;
        let n = self.cursor;
        proof {
            lemma_step_keeps_inv(s, *lab);
            self.lemma_entry_bound(n as int);
            assert(self.width > 0) by (nonlinear_arith)
                requires
                    n < self.width * self.height,
                    0 <= n,
                    0 <= self.width,
            ;
            lemma_position_in_bounds(s.width, s.height, n as int);
        }
        let w = self.width as usize;
        let h = self.height as usize;
        let x = n % w;
        let y = n / w;
        let current = self.buffer[n];
        let (quantized, residual) = select_colour_rgb(&current, lab, self.palette.as_slice());
        let (right, below_left, below, below_right) = parts_of(&self.matrix, &residual);
        let ghost parts = spec_parts(s.matrix, s.current().minus(quantized@));
        let ghost b0 = s.buffer.update(n as int, quantized@);
        let ghost b1 = deposit(b0, s.width, s.height, x + 1, y as int, parts.right);
        let ghost b2 = deposit(b1, s.width, s.height, x - 1, y + 1, parts.below_left);
        let ghost b3 = deposit(b2, s.width, s.height, x as int, y + 1, parts.below);
        let ghost b4 = deposit(b3, s.width, s.height, x + 1, y + 1, parts.below_right);
        proof {
            lemma_step_bounds(s, *lab);
        }
        self.buffer.set(n, widen(quantized));
        assert(tones(self.buffer@) =~= b0);
        if x + 1 < w {
            proof {
                lemma_targets_ahead(s, 1, 0);
            }
            add_at(&mut self.buffer, n + 1, &right);
        }
        assert(tones(self.buffer@) == b1);
        if y + 1 < h {
            proof {
                lemma_targets_ahead(s, 0, 1);
                assert((y + 1) * w == y * w + w) by (nonlinear_arith);
            }
            if x >= 1 {
                proof {
                    lemma_targets_ahead(s, -1, 1);
                }
                add_at(&mut self.buffer, n + w - 1, &below_left);
            }
            assert(tones(self.buffer@) == b2);
            add_at(&mut self.buffer, n + w, &below);
            assert(tones(self.buffer@) == b3);
            if x + 1 < w {
                proof {
                    lemma_targets_ahead(s, 1, 1);
                }
                add_at(&mut self.buffer, n + w + 1, &below_right);
            }
        }
        assert(tones(self.buffer@) == b4);
        self.cursor = n + 1;
        assert(self@ == s.step(*lab));
        quantized
    }

    /// The finished image: every pixel holds the palette colour chosen for it.
    pub fn finish(self) -> (out: Image<LinearRgb>)
        requires
            self.wf(),
            self@.done(),
        ensures
            out.wf(),
            out.width == self@.width,
            out.height == self@.height,
            out.pixels@.len() == self@.buffer.len(),
            forall|i: int| 0 <= i < out.pixels@.len() ==> (#[trigger] out.pixels@[i])@ == self@.buffer[i],
            forall|i: int|
                0 <= i < out.pixels@.len() ==> from_palette(
                    #[trigger] out.pixels@[i],
                    self@.palette,
                ),
    {
        let mut pixels: Vec<LinearRgb> = Vec::new();
        let mut i: usize = 0;
        while i < self.buffer.len()
            invariant
                self.wf(),
                self@.done(),
                i <= self.buffer@.len(),
                pixels@.len() == i,
                forall|j: int| 0 <= j < i ==> (#[trigger] pixels@[j])@ == self@.buffer[j],
            decreases self.buffer.len() - i,
        {
            let wide = self.buffer[i];
            proof {
                assert(self@.quantized(i as int));
            }
            pixels.push(LinearRgb { r: wide.r as i32, g: wide.g as i32, b: wide.b as i32 });
            i += 1;
        }
        proof {
            assert forall|i: int| 0 <= i < pixels@.len() implies from_palette(
                #[trigger] pixels@[i],
                self@.palette,
            ) by {
                assert(self@.quantized(i));
                let p = choose|p: int|
                    0 <= p < self@.palette.len() && self@.buffer[i] == (
                    #[trigger] self@.palette[p]).linear@;
                assert(pixels@[i]@ == self@.palette[p].linear@);
                assert(pixels@[i] == self@.palette[p].linear);
            }
        }
        Image { width: self.width, height: self.height, pixels }
    }

    /// No pixel of a scan in progress comes anywhere near the wide limit.
    proof fn lemma_entry_bound(&self, i: int)
        requires
            self.wf(),
            0 <= i < self@.buffer.len(),
        ensures
            self@.buffer[i].within(0x2_0000_0000_0000_0000_0000_0000),
    {
        lemma_buffer_within(self@);
    }
}

/// Adds `amount` to the pixel at offset `i`.
fn add_at(buffer: &mut Vec<WideRgb>, i: usize, amount: &WideRgb)
    requires
        i < old(buffer)@.len(),
        old(buffer)@[i as int]@.within(wide_limit()),
        amount@.within(wide_limit()),
    ensures
        final(buffer)@.len() == old(buffer)@.len(),
        tones(final(buffer)@) == tones(old(buffer)@).update(
            i as int,
            old(buffer)@[i as int]@.plus(amount@),
        ),
{
    let p = buffer[i];
    buffer.set(i, WideRgb { r: p.r + amount.r, g: p.g + amount.g, b: p.b + amount.b });
    assert(tones(buffer@) =~= tones(old(buffer)@).update(
        i as int,
        old(buffer)@[i as int]@.plus(amount@),
    ));
}

/// A deposit keeps every pixel within the bound of the buffer plus the
/// bound of the amount.
pub proof fn lemma_deposit_within(
    buffer: Seq<Tone>,
    width: int,
    height: int,
    x: int,
    y: int,
    amount: Tone,
    bound: int,
    extra: int,
)
    requires
        buffer.len() == width * height,
        0 <= extra,
        amount.within(extra),
        forall|i: int| 0 <= i < buffer.len() ==> (#[trigger] buffer[i]).within(bound),
    ensures
        deposit(buffer, width, height, x, y, amount).len() == buffer.len(),
        forall|i: int|
            0 <= i < buffer.len() ==> (#[trigger] deposit(
                buffer,
                width,
                height,
                x,
                y,
                amount,
            )[i]).within(bound + extra),
{
    let after = deposit(buffer, width, height, x, y, amount);
    if 0 <= x < width && 0 <= y < height {
        crate::image::lemma_offset_in_bounds(width, height, x, y);
    }
    assert forall|i: int| 0 <= i < buffer.len() implies (#[trigger] after[i]).within(
        bound + extra,
    ) by {
        assert(buffer[i].within(bound));
        if 0 <= x < width && 0 <= y < height {
            let target = offset(width, x, y);
            assert(buffer[target].within(bound));
        }
    }
}

/// Every pixel of a scan in progress stays far inside the wide range.
pub proof fn lemma_buffer_within(s: DitherView)
    requires
        s.inv(),
    ensures
        forall|i: int|
            0 <= i < s.buffer.len() ==> (#[trigger] s.buffer[i]).within(
                0x2_0000_0000_0000_0000_0000_0000,
            ),
{
    let big = 0x2_0000_0000_0000_0000_0000_0000int;
    assert forall|c: int| 0 <= c < 3 implies #[trigger] channel_mass(s.buffer, c) <= big by {
        assert(channel_mass(s.buffer, c) <= (s.buffer.len() + 2 * s.cursor) * channel_limit());
        assert((s.buffer.len() + 2 * s.cursor) * channel_limit() <= big) by (nonlinear_arith)
            requires
                0 <= s.cursor <= s.buffer.len() <= 0xffff_ffff_ffff_ffff,
                channel_limit() == 0x8000_0000,
                big == 0x2_0000_0000_0000_0000_0000_0000,
        ;
    }
    assert forall|i: int| 0 <= i < s.buffer.len() implies (#[trigger] s.buffer[i]).within(big) by {
        lemma_entry_within_mass(s.buffer, i, 0);
        lemma_entry_within_mass(s.buffer, i, 1);
        lemma_entry_within_mass(s.buffer, i, 2);
        assert(channel_mass(s.buffer, 0) <= big);
        assert(channel_mass(s.buffer, 1) <= big);
        assert(channel_mass(s.buffer, 2) <= big);
    }
}

/// No part of a residual is larger in magnitude than the residual.
pub proof fn lemma_parts_within(matrix: DitherMatrix, e: Tone, bound: int)
    requires
        matrix.wf(),
        e.within(bound),
    ensures
        spec_parts(matrix, e).right.within(bound),
        spec_parts(matrix, e).below_left.within(bound),
        spec_parts(matrix, e).below.within(bound),
        spec_parts(matrix, e).below_right.within(bound),
{
    lemma_shares(matrix, e.r);
    lemma_shares(matrix, e.g);
    lemma_shares(matrix, e.b);
}

/// While a step is under way no pixel leaves the wide range.
pub proof fn lemma_step_bounds(s: DitherView, lab: Lab)
    requires
        s.inv(),
        !s.done(),
    ensures
        ({
            let chosen = spec_nearest(lab, palette_labs(s.palette));
            let quantized = s.palette[chosen].linear@;
            let residual = s.current().minus(quantized);
            let parts = spec_parts(s.matrix, residual);
            let (w, h, x, y) = (s.width, s.height, s.x(), s.y());
            let b0 = s.buffer.update(s.cursor, quantized);
            let b1 = deposit(b0, w, h, x + 1, y, parts.right);
            let b2 = deposit(b1, w, h, x - 1, y + 1, parts.below_left);
            let b3 = deposit(b2, w, h, x, y + 1, parts.below);
            &&& 0 <= chosen < s.palette.len()
            &&& residual.within(wide_limit())
            &&& forall|i: int| 0 <= i < b0.len() ==> (#[trigger] b0[i]).within(wide_limit())
            &&& forall|i: int| 0 <= i < b1.len() ==> (#[trigger] b1[i]).within(wide_limit())
            &&& forall|i: int| 0 <= i < b2.len() ==> (#[trigger] b2[i]).within(wide_limit())
            &&& forall|i: int| 0 <= i < b3.len() ==> (#[trigger] b3[i]).within(wide_limit())
        }),
{
    crate::colour::lemma_nearest_exists(lab, palette_labs(s.palette));
    let chosen = spec_nearest(lab, palette_labs(s.palette));
    let quantized = s.palette[chosen].linear@;
    let residual = s.current().minus(quantized);
    let parts = spec_parts(s.matrix, residual);
    let (w, h, x, y) = (s.width, s.height, s.x(), s.y());
    let b0 = s.buffer.update(s.cursor, quantized);
    let b1 = deposit(b0, w, h, x + 1, y, parts.right);
    let b2 = deposit(b1, w, h, x - 1, y + 1, parts.below_left);
    let b3 = deposit(b2, w, h, x, y + 1, parts.below);
    let big = 0x2_0000_0000_0000_0000_0000_0000int;
    lemma_buffer_within(s);
    assert(s.current().within(big));
    assert(quantized.within(big));
    assert(residual.within(2 * big));
    lemma_parts_within(s.matrix, residual, 2 * big);
    assert forall|i: int| 0 <= i < b0.len() implies (#[trigger] b0[i]).within(big) by {
        if i != s.cursor {
            assert(s.buffer[i].within(big));
        }
    }
    lemma_deposit_within(b0, w, h, x + 1, y, parts.right, big, 2 * big);
    lemma_deposit_within(b1, w, h, x - 1, y + 1, parts.below_left, 3 * big, 2 * big);
    lemma_deposit_within(b2, w, h, x, y + 1, parts.below, 5 * big, 2 * big);
    assert forall|i: int| 0 <= i < b0.len() implies (#[trigger] b0[i]).within(wide_limit()) by {
        assert(b0[i].within(big));
    }
    assert forall|i: int| 0 <= i < b1.len() implies (#[trigger] b1[i]).within(wide_limit()) by {
        assert(b1[i].within(big + 2 * big));
    }
    assert forall|i: int| 0 <= i < b2.len() implies (#[trigger] b2[i]).within(wide_limit()) by {
        assert(b2[i].within(3 * big + 2 * big));
    }
    assert forall|i: int| 0 <= i < b3.len() implies (#[trigger] b3[i]).within(wide_limit()) by {
        assert(b3[i].within(5 * big + 2 * big));
    }
}

/// `out` is what a scan of `pixels` leaves behind when each step is fed
/// what `to_perceptual` may return for the pixel under the cursor.
pub open spec fn dithered<F: Fn(WideRgb) -> Lab>(
    to_perceptual: F,
    start: DitherView,
    out: Seq<LinearRgb>,
) -> bool {
    exists|labs: Seq<Lab>|
        {
            &&& labs.len() == start.buffer.len()
            &&& follows(to_perceptual, start, labs)
            &&& #[trigger] spec_run(start, labs).buffer == Seq::new(out.len(), |i: int| out[i]@)
        }
}

/// Dithers a linear-light image to `palette`.
///
/// The pixels are visited row by row, left to right. Each is handed to
/// `to_perceptual`, replaced by the palette entry nearest to what comes back,
/// and its residual is diffused as [`Ditherer::step`] describes. The result
/// holds nothing but palette colours.
pub fn dither_linear<F: Fn(WideRgb) -> Lab>(
    img: &Image<LinearRgb>,
    palette: &[PaletteEntry],
    pattern: DitherPattern,
    to_perceptual: &F,
) -> (out: Image<LinearRgb>)
    requires
        img.wf(),
        palette@.len() > 0,
        forall|c: WideRgb| to_perceptual.requires((c,)),
    ensures
        out.wf(),
        out.width == img.width,
        out.height == img.height,
        forall|i: int|
            0 <= i < out.pixels@.len() ==> from_palette(#[trigger] out.pixels@[i], palette@),
        dithered(
            *to_perceptual,
            spec_start(img.width, img.height, img.pixels@, palette@, pattern),
            out.pixels@,
        ),
{
    let ghost start = spec_start(img.width, img.height, img.pixels@, palette@, pattern);
    let mut scan = Ditherer::new(img, palette, pattern);
    let ghost mut labs: Seq<Lab> = Seq::empty();
    while !scan.is_done()
        invariant
            scan.wf(),
            scan@ == spec_run(start, labs),
            labs.len() == scan@.cursor,
            scan@.buffer.len() == start.buffer.len(),
            scan@.palette == start.palette,
            scan@.width == start.width,
            scan@.height == start.height,
            follows(*to_perceptual, start, labs),
            forall|c: WideRgb| to_perceptual.requires((c,)),
        decreases scan@.buffer.len() - scan@.cursor,
    {
        let colour = scan.current();
        let lab = to_perceptual(colour);
        let ghost before = labs;
        scan.step(&lab);
        proof {
            labs = before.push(lab);
            assert(labs.drop_last() =~= before);
            assert(colour == spec_wide(spec_run(start, before).current()));
            assert forall|i: int| 0 <= i < labs.len() implies to_perceptual.ensures(
                (spec_wide(spec_run(start, labs.take(i)).current()),),
                #[trigger] labs[i],
            ) by {
                if i < before.len() {
                    assert(labs.take(i) =~= before.take(i));
                    assert(labs[i] == before[i]);
                } else {
                    assert(labs.take(i) =~= before);
                }
            }
        }
    }
    let ghost last = scan@;
    let out = scan.finish();
    proof {
        assert(last.buffer =~= Seq::new(out.pixels@.len(), |i: int| out.pixels@[i]@));
    }
    out
}

/// The linear-light pixels of an 8-bit sRGB buffer.
pub open spec fn spec_to_linear(pixels: Seq<Rgb8>) -> Seq<LinearRgb> {
    Seq::new(pixels.len(), |i: int| spec_pixel_to_linear(pixels[i]))
}

/// Dithers an 8-bit sRGB image to `palette`.
///
/// The image is decoded to linear light, dithered there as
/// [`dither_linear`] describes, and encoded again. `to_perceptual` gives the
/// perceptual coordinates of a linear-light colour.
pub fn dither<F: Fn(WideRgb) -> Lab>(
    img: &Image<Rgb8>,
    palette: &[PaletteEntry],
    pattern: DitherPattern,
    to_perceptual: &F,
) -> (out: Image<Rgb8>)
    requires
        img.wf(),
        palette@.len() > 0,
        forall|c: WideRgb| to_perceptual.requires((c,)),
    ensures
        out.wf(),
        out.width == img.width,
        out.height == img.height,
        exists|linear: Seq<LinearRgb>|
            {
                &&& linear.len() == out.pixels@.len()
                &&& #[trigger] dithered(
                    *to_perceptual,
                    spec_start(
                        img.width,
                        img.height,
                        spec_to_linear(img.pixels@),
                        palette@,
                        pattern,
                    ),
                    linear,
                )
                &&& forall|i: int|
                    0 <= i < linear.len() ==> from_palette(#[trigger] linear[i], palette@)
                        && out.pixels@[i] == spec_pixel_to_srgb(linear[i])
            },
{
    let linear = to_linear(img);
    assert(linear.pixels@ =~= spec_to_linear(img.pixels@));
    let quantized = dither_linear(&linear, palette, pattern, to_perceptual);
    to_srgb(&quantized)
}

} // verus!
