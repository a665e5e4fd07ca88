//! Flat row-major pixel buffers and the mean color of their pixels.

use crate::color::Color;
use vstd::prelude::*;

verus! {

/// An image as a row-major sequence of colors: the pixel at column `x` of row
/// `y` stands at index `y * width + x`.
#[derive(Debug, PartialEq, Eq)]
pub struct PixelBuffer {
    width: u32,
    height: u32,
    pixels: Vec<Color>,
}

/// One channel of a color: 0 for red, 1 for green, anything else for blue.
pub open spec fn channel(c: Color, ch: int) -> nat {
    if ch == 0 {
        c.r as nat
    } else if ch == 1 {
        c.g as nat
    } else {
        c.b as nat
    }
}

/// Sum of one channel over all of `pixels`.
pub open spec fn channel_total(pixels: Seq<Color>, ch: int) -> nat
    decreases pixels.len(),
{
    if pixels.len() == 0 {
        0
    } else {
        channel_total(pixels.drop_last(), ch) + channel(pixels.last(), ch)
    }
}

/// Channel by channel, the sum over `pixels` divided by their number, with
/// the remainder dropped.
pub open spec fn mean_of(pixels: Seq<Color>) -> Color {
    Color {
        r: (channel_total(pixels, 0) / pixels.len()) as u8,
        g: (channel_total(pixels, 1) / pixels.len()) as u8,
        b: (channel_total(pixels, 2) / pixels.len()) as u8,
    }
}

/// A channel sums to at most 255 per pixel.
pub proof fn lemma_channel_total_bound(pixels: Seq<Color>, ch: int)
    ensures
        channel_total(pixels, ch) <= 255 * pixels.len(),
    decreases pixels.len(),
{
    if pixels.len() > 0 {
        lemma_channel_total_bound(pixels.drop_last(), ch);
    }
}

/// Appending a pixel adds its channel value to the sum.
pub proof fn lemma_channel_total_push(pixels: Seq<Color>, p: Color, ch: int)
    ensures
        channel_total(pixels.push(p), ch) == channel_total(pixels, ch) + channel(p, ch),
{
    assert(pixels.push(p).drop_last() =~= pixels);
}

/// The mean of a channel over at least one pixel is a channel value.
pub proof fn lemma_mean_fits(total: nat, count: nat)
    requires
        count > 0,
        total <= 255 * count,
    ensures
        total / count <= 255,
{
    assert(total / count <= 255) by (nonlinear_arith)
        requires
            count > 0,
            total <= 255 * count,
    ;
}

/// `total / count`, which the bound on `total` keeps within a channel.
pub(crate) fn mean_channel(total: u128, count: u64) -> (m: u8)
    requires
        count > 0,
        total <= 255 * count,
    ensures
        m == total as nat / count as nat,
        m == ((total as nat / count as nat) as u8),
{
    proof {
        lemma_mean_fits(total as nat, count as nat);
    }
    (total / count as u128) as u8
}

/// The three channel sums of `pixels`.
pub(crate) fn channel_sums(pixels: &Vec<Color>) -> (sums: (u128, u128, u128))
    ensures
        sums.0 == channel_total(pixels@, 0),
        sums.1 == channel_total(pixels@, 1),
        sums.2 == channel_total(pixels@, 2),
{
    let mut red: u128 = 0;
    let mut green: u128 = 0;
    let mut blue: u128 = 0;
    let mut i: usize = 0;
    while i < pixels.len()
        invariant
            i <= pixels.len(),
            red == channel_total(pixels@.take(i as int), 0),
            green == channel_total(pixels@.take(i as int), 1),
            blue == channel_total(pixels@.take(i as int), 2),
        decreases pixels.len() - i,
    {
        let p = pixels[i];
        proof {
            let done = pixels@.take(i as int);
            assert(done.push(p) =~= pixels@.take(i + 1));
            lemma_channel_total_push(done, p, 0);
            lemma_channel_total_push(done, p, 1);
            lemma_channel_total_push(done, p, 2);
            lemma_channel_total_bound(done, 0);
            lemma_channel_total_bound(done, 1);
            lemma_channel_total_bound(done, 2);
        }
        red = red + p.r as u128;
        green = green + p.g as u128;
        blue = blue + p.b as u128;
        i = i + 1;
    }
    proof {
        assert(pixels@.take(i as int) =~= pixels@);
    }
    (red, green, blue)
}

/// The mean color of `pixels`: per channel the sum divided by the number of
/// pixels, truncated. There is none of no pixels.
pub fn mean_color(pixels: &Vec<Color>) -> (mean: Option<Color>)
    ensures
        pixels@.len() == 0 <==> mean is None,
        mean matches Some(m) ==> {
            &&& m == mean_of(pixels@)
            &&& m.r == channel_total(pixels@, 0) / pixels@.len()
            &&& m.g == channel_total(pixels@, 1) / pixels@.len()
            &&& m.b == channel_total(pixels@, 2) / pixels@.len()
        },
{
    if pixels.len() == 0 {
        return None;
    }
    let sums = channel_sums(pixels);
    let count: u64 = pixels.len() as u64;
    proof {
        lemma_channel_total_bound(pixels@, 0);
        lemma_channel_total_bound(pixels@, 1);
        lemma_channel_total_bound(pixels@, 2);
    }
    Some(
        Color {
            r: mean_channel(sums.0, count),
            g: mean_channel(sums.1, count),
            b: mean_channel(sums.2, count),
        },
    )
}

impl Clone for PixelBuffer {
    /// A buffer of the same size with the same pixels.
    fn clone(&self) -> (copy: Self)
        ensures
            copy@ == self@,
            copy.cols() == self.cols(),
            copy.rows() == self.rows(),
    {
        proof {
            use_type_invariant(self);
        }
        let mut pixels: Vec<Color> = Vec::new();
        let mut i: usize = 0;
        while i < self.pixels.len()
            invariant
                i <= self.pixels.len(),
                pixels@ == self.pixels@.take(i as int),
            decreases self.pixels.len() - i,
        {
            pixels.push(self.pixels[i]);
            proof {
                assert(self.pixels@.take(i as int).push(self.pixels@[i as int])
                    =~= self.pixels@.take(i + 1));
            }
            i = i + 1;
        }
        proof {
            assert(self.pixels@.take(i as int) =~= self.pixels@);
        }
        PixelBuffer { width: self.width, height: self.height, pixels }
    }
}

impl PixelBuffer {
    #[verifier::type_invariant]
    spec fn well_formed(self) -> bool {
        self.pixels@.len() == self.width * self.height
    }

    /// The pixels, row after row.
    pub closed spec fn view(&self) -> Seq<Color> {
        self.pixels@
    }

    /// Number of columns.
    pub closed spec fn cols(&self) -> nat {
        self.width as nat
    }

    /// Number of rows.
    pub closed spec fn rows(&self) -> nat {
        self.height as nat
    }

    /// The pixel at column `x` of row `y`.
    pub open spec fn at(&self, x: int, y: int) -> Color {
        self@[y * self.cols() + x]
    }

    /// A buffer of `width` by `height` over `pixels`, where they are as many
    /// as the grid has places.
    pub fn new(width: u32, height: u32, pixels: Vec<Color>) -> (img: Option<PixelBuffer>)
        ensures
            img is Some <==> pixels@.len() == width * height,
            img matches Some(b) ==> b@ == pixels@ && b.cols() == width && b.rows() == height,
    {
        assert(width * height <= 0xffff_ffff * 0xffff_ffff) by (nonlinear_arith)
            requires
                width <= 0xffff_ffff,
                height <= 0xffff_ffff,
        ;
        let places: u64 = width as u64 * height as u64;
        if pixels.len() as u64 == places {
            Some(PixelBuffer { width, height, pixels })
        } else {
            None
        }
    }

    /// A buffer of `width` by `height` with every pixel of one color, where
    /// the machine can address as many pixels.
    pub fn filled(width: u32, height: u32, color: Color) -> (img: Option<PixelBuffer>)
        ensures
            img is Some <==> width * height <= usize::MAX,
            img matches Some(b) ==> {
                &&& b.cols() == width
                &&& b.rows() == height
                &&& b@.len() == width * height
                &&& forall|i: int| 0 <= i < b@.len() ==> b@[i] == color
            },
    {
        assert(width * height <= 0xffff_ffff * 0xffff_ffff) by (nonlinear_arith)
            requires
                width <= 0xffff_ffff,
                height <= 0xffff_ffff,
        ;
        let places: u64 = width as u64 * height as u64;
        if places > usize::MAX as u64 {
            return None;
        }
        let mut pixels: Vec<Color> = Vec::new();
        let mut i: usize = 0;
        while i < places as usize
            invariant
                i <= places,
                places <= usize::MAX,
                pixels@.len() == i,
                forall|j: int| 0 <= j < i ==> pixels@[j] == color,
            decreases places - i,
        {
            pixels.push(color);
            i = i + 1;
        }
        Some(PixelBuffer { width, height, pixels })
    }

    /// Gives the pixel at column `x` of row `y` the color `color`.
    pub fn set(&mut self, x: u32, y: u32, color: Color)
        requires
            x < old(self).cols(),
            y < old(self).rows(),
        ensures
            final(self).cols() == old(self).cols(),
            final(self).rows() == old(self).rows(),
            final(self)@ == old(self)@.update(y * old(self).cols() + x, color),
            final(self)@.len() == old(self)@.len(),
            forall|a: int, b: int|
                0 <= a < old(self).cols() && 0 <= b < old(self).rows() ==> #[trigger] final(self).at(
                    a,
                    b,
                ) == if a == x && b == y {
                    color
                } else {
                    old(self).at(a, b)
                },
    {
        proof {
            use_type_invariant(&*self);
        }
        let places: usize = self.pixels.len();
        proof {
            lemma_place_in_grid(x as int, y as int, self.width as int, self.height as int);
            assert(y * self.width + x < places);
        }
        let at: usize = y as usize * self.width as usize + x as usize;
        self.pixels[at] = color;
        proof {
            let width = self.width as int;
            assert forall|a: int, b: int|
                0 <= a < old(self).cols() && 0 <= b < old(self).rows() implies #[trigger] self.at(
                a,
                b,
            ) == if a == x && b == y {
                color
            } else {
                old(self).at(a, b)
            } by {
                lemma_place_in_grid(a, b, width, self.height as int);
                if b * width + a == y * width + x {
                    lemma_place_unique(a, b, x as int, y as int, width);
                }
            }
        }
    }

    /// Number of columns.
    pub fn width(&self) -> (w: u32)
        ensures
            w == self.cols(),
    {
        self.width
    }

    /// Number of rows.
    pub fn height(&self) -> (h: u32)
        ensures
            h == self.rows(),
    {
        self.height
    }

    /// The pixels, row after row: one for each place of the grid.
    pub fn pixels(&self) -> (p: &Vec<Color>)
        ensures
            p@ == self@,
            p@.len() == self.cols() * self.rows(),
    {
        proof {
            use_type_invariant(self);
        }
        &self.pixels
    }

    /// The pixel at column `x` of row `y`, if the buffer has one there.
    pub fn get(&self, x: u32, y: u32) -> (p: Option<Color>)
        ensures
            p == if x < self.cols() && y < self.rows() {
                Some(self.at(x as int, y as int))
            } else {
                None::<Color>
            },
    {
        proof {
            use_type_invariant(self);
        }
        if x < self.width && y < self.height {
            let places: usize = self.pixels.len();
            proof {
                lemma_place_in_grid(x as int, y as int, self.width as int, self.height as int);
                assert(y * self.width + x < places);
            }
            let at: usize = y as usize * self.width as usize + x as usize;
            Some(self.pixels[at])
        } else {
            None
        }
    }
}

/// A place of a grid has its index within the grid.
pub proof fn lemma_place_in_grid(x: int, y: int, width: int, height: int)
    requires
        0 <= x < width,
        0 <= y < height,
    ensures
        0 <= y * width <= y * width + x < width * height,
{
    assert(0 <= y * width && y * width + x < width * height) by (nonlinear_arith)
        requires
            0 <= x < width,
            0 <= y < height,
    ;
}

/// Two places of a grid with one index are one place.
pub proof fn lemma_place_unique(x1: int, y1: int, x2: int, y2: int, width: int)
    requires
        0 <= x1 < width,
        0 <= x2 < width,
        0 <= y1,
        0 <= y2,
        y1 * width + x1 == y2 * width + x2,
    ensures
        x1 == x2,
        y1 == y2,
{
    assert(y1 == y2) by (nonlinear_arith)
        requires
            0 <= x1 < width,
            0 <= x2 < width,
            0 <= y1,
            0 <= y2,
            y1 * width + x1 == y2 * width + x2,
    ;
    assert(x1 == x2);
}

} // verus!
