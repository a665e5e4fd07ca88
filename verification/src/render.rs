//! What is rendered from the palettes: the image quantized against the
//! groups, the image quantized against the centroids, and the chart that
//! shows both palettes as rows of blocks.

use crate::color::{
    color_distance, lemma_distance_to_self, lemma_distance_zero_iff_equal, Color,
};
use crate::group::{
    find_match, first_match, grouped, is_separated, lemma_first_entries_separated,
    lemma_first_match, lemma_groups_are_apart, lemma_ranked_separated,
};
use crate::lloyd::{lemma_nearest_among, nearest_center, nearest_index};
use crate::palette::{first_entries, ranked, total_weight, PaletteEntry};
use crate::pixels::PixelBuffer;
use vstd::prelude::*;

verus! {

/// Width of a block of the chart, unless another is asked for.
pub const COLOR_BLOCK_WIDTH: u32 = 25;

/// Height of a block of the chart, unless another is asked for.
pub const COLOR_BLOCK_HEIGHT: u32 = 50;

/// The size of the blocks of a chart, and its color where no block is drawn.
#[derive(Clone, Copy, Debug, PartialEq, Eq, Structural)]
pub struct ChartLayout {
    pub block_width: u32,
    pub block_height: u32,
    pub background: Color,
}

impl ChartLayout {
    /// Blocks of `COLOR_BLOCK_WIDTH` by `COLOR_BLOCK_HEIGHT` on black.
    pub fn standard() -> (layout: ChartLayout)
        ensures
            layout.block_width == COLOR_BLOCK_WIDTH,
            layout.block_height == COLOR_BLOCK_HEIGHT,
            layout.background == (Color { r: 0, g: 0, b: 0 }),
    {
        ChartLayout {
            block_width: COLOR_BLOCK_WIDTH,
            block_height: COLOR_BLOCK_HEIGHT,
            background: Color { r: 0, g: 0, b: 0 },
        }
    }
}

/// The colors of a palette, in its order.
pub open spec fn colors_of(palette: Seq<PaletteEntry>) -> Seq<Color> {
    Seq::new(palette.len(), |i: int| palette[i].color)
}

/// The color that `p` gets against the groups: that of the first entry of
/// `palette` that is nearer to it than `d`, and its own where there is none.
pub open spec fn recolored(palette: Seq<PaletteEntry>, d: nat, p: Color) -> Color {
    let at = first_match(palette, p, d);
    if at < palette.len() {
        palette[at].color
    } else {
        p
    }
}

/// The color that `p` gets against the centroids: that of the nearest entry
/// of `palette`, the first of several nearest, and its own where the palette
/// is empty.
pub open spec fn snapped(palette: Seq<PaletteEntry>, p: Color) -> Color {
    if palette.len() == 0 {
        p
    } else {
        palette[nearest_index(colors_of(palette), p, false)].color
    }
}

/// Every pixel recolored against the groups.
pub open spec fn recolored_all(pixels: Seq<Color>, palette: Seq<PaletteEntry>, d: nat) -> Seq<
    Color,
> {
    Seq::new(pixels.len(), |i: int| recolored(palette, d, pixels[i]))
}

/// Every pixel recolored against the centroids.
pub open spec fn snapped_all(pixels: Seq<Color>, palette: Seq<PaletteEntry>) -> Seq<Color> {
    Seq::new(pixels.len(), |i: int| snapped(palette, pixels[i]))
}

/// Every color of `palette` keeps its color against the groups.
pub open spec fn keeps_own_colors(palette: Seq<PaletteEntry>, d: nat) -> bool {
    forall|i: int|
        0 <= i < palette.len() ==> recolored(palette, d, (#[trigger] palette[i]).color)
            == palette[i].color
}

/// The block of a row in which column `x` lies.
pub open spec fn block_at(x: int, block_width: u32) -> int {
    x / (block_width as int)
}

/// The color of the chart at column `x` of row `y`: the rows of blocks show
/// `top` and `bottom`, block after block, and the background where a palette
/// has no color left for a block.
pub open spec fn chart_color(
    top: Seq<PaletteEntry>,
    bottom: Seq<PaletteEntry>,
    layout: ChartLayout,
    x: int,
    y: int,
) -> Color {
    let row = if y < layout.block_height {
        top
    } else {
        bottom
    };
    let block = block_at(x, layout.block_width);
    if block < row.len() {
        row[block].color
    } else {
        layout.background
    }
}

/// A palette whose colors are apart by the threshold or more keeps its own
/// colors: such are the palettes that the grouper makes with that threshold.
pub proof fn lemma_separated_keeps_own_colors(palette: Seq<PaletteEntry>, d: nat)
    requires
        is_separated(palette, d),
    ensures
        keeps_own_colors(palette, d),
{
    assert forall|i: int| 0 <= i < palette.len() implies recolored(
        palette,
        d,
        (#[trigger] palette[i]).color,
    ) == palette[i].color by {
        let c = palette[i].color;
        lemma_first_match(palette, c, d, 0);
        let at = first_match(palette, c, d);
        if at < i {
            assert(color_distance(palette[i].color, palette[at].color) >= d);
        }
        if at < palette.len() && at > i {
            lemma_distance_to_self(c);
            assert(color_distance(c, palette[i].color) >= d);
        }
    }
}

/// The palettes that the grouper makes keep their own colors against the
/// threshold that they were made with.
pub proof fn lemma_grouped_palette_keeps_own_colors(hist: Seq<PaletteEntry>, d: nat, results: nat)
    requires
        total_weight(hist) <= u64::MAX,
    ensures
        keeps_own_colors(first_entries(ranked(grouped(hist, d)), results), d),
{
    lemma_groups_are_apart(hist, d);
    lemma_ranked_separated(grouped(hist, d), d);
    lemma_first_entries_separated(ranked(grouped(hist, d)), d, results);
    lemma_separated_keeps_own_colors(first_entries(ranked(grouped(hist, d)), results), d);
}

/// A pixel that was recolored against the groups keeps its color when it is
/// recolored again, where the palette keeps its own colors.
pub proof fn lemma_recolored_idempotent(palette: Seq<PaletteEntry>, d: nat, p: Color)
    requires
        keeps_own_colors(palette, d),
    ensures
        recolored(palette, d, recolored(palette, d, p)) == recolored(palette, d, p),
{
    lemma_first_match(palette, p, d, 0);
}

/// A pixel that was recolored against the centroids keeps its color when it
/// is recolored again.
pub proof fn lemma_snapped_idempotent(palette: Seq<PaletteEntry>, p: Color)
    ensures
        snapped(palette, snapped(palette, p)) == snapped(palette, p),
{
    if palette.len() > 0 {
        let colors = colors_of(palette);
        let n = colors.len() as int;
        lemma_nearest_among(colors, p, n, false);
        let q = snapped(palette, p);
        let i = nearest_index(colors, p, false);
        assert(colors[i] == q);
        lemma_nearest_among(colors, q, n, false);
        let j = nearest_index(colors, q, false);
        lemma_distance_to_self(q);
        assert(color_distance(colors[j], q) <= color_distance(colors[i], q));
        lemma_distance_zero_iff_equal(colors[j], q);
    }
}

/// An image that was quantized against the groups is unchanged when it is
/// quantized again, where the palette keeps its own colors.
pub proof fn lemma_quantize_grouped_idempotent(
    pixels: Seq<Color>,
    palette: Seq<PaletteEntry>,
    d: nat,
)
    requires
        keeps_own_colors(palette, d),
    ensures
        recolored_all(recolored_all(pixels, palette, d), palette, d) == recolored_all(
            pixels,
            palette,
            d,
        ),
{
    let once = recolored_all(pixels, palette, d);
    assert forall|i: int| 0 <= i < pixels.len() implies recolored(palette, d, once[i])
        == once[i] by {
        lemma_recolored_idempotent(palette, d, pixels[i]);
    }
    assert(recolored_all(once, palette, d) =~= once);
}

/// An image that was quantized against the centroids is unchanged when it is
/// quantized again.
pub proof fn lemma_quantize_nearest_idempotent(pixels: Seq<Color>, palette: Seq<PaletteEntry>)
    ensures
        snapped_all(snapped_all(pixels, palette), palette) == snapped_all(pixels, palette),
{
    let once = snapped_all(pixels, palette);
    assert forall|i: int| 0 <= i < pixels.len() implies snapped(palette, once[i]) == once[i] by {
        lemma_snapped_idempotent(palette, pixels[i]);
    }
    assert(snapped_all(once, palette) =~= once);
}

/// The image with every pixel recolored to the first color, in the order
/// of `palette`, that is nearer to it than `d`; a pixel that no color is
/// that near to keeps its color.
pub fn quantize_grouped(img: &PixelBuffer, palette: &Vec<PaletteEntry>, d: u64) -> (out:
    PixelBuffer)
    ensures
        out.cols() == img.cols(),
        out.rows() == img.rows(),
        out@ == recolored_all(img@, palette@, d as nat),
{
    let pixels: &Vec<Color> = img.pixels();
    let mut recolor: Vec<Color> = Vec::new();
    let mut i: usize = 0;
    while i < pixels.len()
        invariant
            i <= pixels@.len(),
            recolor@.len() == i,
            forall|j: int| 0 <= j < i ==> recolor@[j] == recolored(palette@, d as nat, pixels@[j]),
        decreases pixels@.len() - i,
    {
        let p: Color = pixels[i];
        match find_match(palette, &p, d) {
            Some(at) => {
                recolor.push(palette[at].color);
            },
            None => {
                recolor.push(p);
            },
        }
        i = i + 1;
    }
    proof {
        assert(recolor@ =~= recolored_all(img@, palette@, d as nat));
    }
    PixelBuffer::new(img.width(), img.height(), recolor).unwrap()
}

/// The colors of a palette, in its order.
pub fn palette_colors(palette: &Vec<PaletteEntry>) -> (colors: Vec<Color>)
    ensures
        colors@ == colors_of(palette@),
{
    let mut colors: Vec<Color> = Vec::new();
    let mut i: usize = 0;
    while i < palette.len()
        invariant
            i <= palette@.len(),
            colors@.len() == i,
            forall|j: int| 0 <= j < i ==> colors@[j] == palette@[j].color,
        decreases palette@.len() - i,
    {
        colors.push(palette[i].color);
        i = i + 1;
    }
    proof {
        assert(colors@ =~= colors_of(palette@));
    }
    colors
}

/// The image with every pixel recolored to the nearest color of `palette`,
/// the first of several nearest. Against an empty palette the pixels keep
/// their colors.
pub fn quantize_nearest(img: &PixelBuffer, palette: &Vec<PaletteEntry>) -> (out: PixelBuffer)
    ensures
        out.cols() == img.cols(),
        out.rows() == img.rows(),
        out@ == snapped_all(img@, palette@),
{
    let pixels: &Vec<Color> = img.pixels();
    let colors: Vec<Color> = palette_colors(palette);
    let mut recolor: Vec<Color> = Vec::new();
    let mut i: usize = 0;
    while i < pixels.len()
        invariant
            i <= pixels@.len(),
            colors@ == colors_of(palette@),
            recolor@.len() == i,
            forall|j: int| 0 <= j < i ==> recolor@[j] == snapped(palette@, pixels@[j]),
        decreases pixels@.len() - i,
    {
        let p: Color = pixels[i];
        match nearest_center(&colors, &p, false) {
            Some(at) => {
                recolor.push(colors[at]);
            },
            None => {
                recolor.push(p);
            },
        }
        i = i + 1;
    }
    proof {
        assert(recolor@ =~= snapped_all(img@, palette@));
    }
    PixelBuffer::new(img.width(), img.height(), recolor).unwrap()
}

/// Fills the rectangle of the columns from `x1` to `x2` and the rows from
/// `y1` to `y2`, the lower ends included and the upper ends not, with
/// `color`. A rectangle that is not empty has to lie within the buffer.
pub fn draw_rect(buf: &mut PixelBuffer, color: &Color, x1: u32, y1: u32, x2: u32, y2: u32)
    requires
        x1 < x2 && y1 < y2 ==> x2 <= old(buf).cols() && y2 <= old(buf).rows(),
    ensures
        final(buf).cols() == old(buf).cols(),
        final(buf).rows() == old(buf).rows(),
        final(buf)@.len() == old(buf)@.len(),
        forall|x: int, y: int|
            0 <= x < old(buf).cols() && 0 <= y < old(buf).rows() ==> #[trigger] final(buf).at(x, y)
                == if x1 <= x < x2 && y1 <= y < y2 {
                *color
            } else {
                old(buf).at(x, y)
            },
{
    if x1 >= x2 || y1 >= y2 {
        return ;
    }
    let ghost before = *buf;
    let mut x: u32 = x1;
    while x < x2
        invariant
            x1 <= x <= x2 <= before.cols(),
            y1 < y2 <= before.rows(),
            buf.cols() == before.cols(),
            buf.rows() == before.rows(),
            buf@.len() == before@.len(),
            forall|a: int, b: int|
                0 <= a < before.cols() && 0 <= b < before.rows() ==> #[trigger] buf.at(a, b) == if x1
                    <= a < x && y1 <= b < y2 {
                    *color
                } else {
                    before.at(a, b)
                },
        decreases x2 - x,
    {
        let mut y: u32 = y1;
        while y < y2
            invariant
                x1 <= x < x2 <= before.cols(),
                y1 <= y <= y2 <= before.rows(),
                buf.cols() == before.cols(),
                buf.rows() == before.rows(),
                buf@.len() == before@.len(),
                forall|a: int, b: int|
                    0 <= a < before.cols() && 0 <= b < before.rows() ==> #[trigger] buf.at(a, b)
                        == if (x1 <= a < x && y1 <= b < y2) || (a == x && y1 <= b < y) {
                        *color
                    } else {
                        before.at(a, b)
                    },
            decreases y2 - y,
        {
            buf.set(x, y, *color);
            y = y + 1;
        }
        x = x + 1;
    }
}

/// A column lies in one of the first `m` blocks exactly where it lies in
/// front of the end of the `m`-th block.
pub proof fn lemma_block_of(x: int, block_width: int, m: int)
    requires
        0 <= x,
        0 < block_width,
    ensures
        x / block_width < m <==> x < m * block_width,
        0 <= x / block_width,
{
    vstd::arithmetic::div_mod::lemma_fundamental_div_mod(x, block_width);
    let q = x / block_width;
    let r = x % block_width;
    assert(0 <= r < block_width);
    assert(0 <= q && (q < m <==> x < m * block_width)) by (nonlinear_arith)
        requires
            x == block_width * q + r,
            0 <= r < block_width,
            0 <= x,
    ;
}

/// One row of blocks: block `i` gets the color of entry `i` of `palette`,
/// for as many blocks as the chart is wide and the palette has colors.
fn draw_row(
    chart: &mut PixelBuffer,
    palette: &Vec<PaletteEntry>,
    results: usize,
    layout: &ChartLayout,
    y1: u32,
)
    requires
        layout.block_width > 0,
        old(chart).cols() == results * layout.block_width,
        y1 + layout.block_height <= old(chart).rows(),
    ensures
        final(chart).cols() == old(chart).cols(),
        final(chart).rows() == old(chart).rows(),
        final(chart)@.len() == old(chart)@.len(),
        forall|x: int, y: int|
            0 <= x < old(chart).cols() && 0 <= y < old(chart).rows() ==> #[trigger] final(chart).at(
                x,
                y,
            ) == if y1 <= y < y1 + layout.block_height && block_at(x, layout.block_width)
                < palette@.len() {
                palette@[block_at(x, layout.block_width)].color
            } else {
                old(chart).at(x, y)
            },
{
    let ghost before = *chart;
    let block_width: u32 = layout.block_width;
    let width: u32 = chart.width();
    let height: u32 = chart.height();
    let shown: usize = if results <= palette.len() {
        results
    } else {
        palette.len()
    };
    let mut i: usize = 0;
    while i < shown
        invariant
            i <= shown,
            shown <= results,
            shown <= palette@.len(),
            shown == results || shown == palette@.len(),
            block_width == layout.block_width,
            block_width > 0,
            before.cols() == results * block_width,
            before.cols() == width,
            before.rows() == height,
            y1 + layout.block_height <= before.rows(),
            chart.cols() == before.cols(),
            chart.rows() == before.rows(),
            chart@.len() == before@.len(),
            forall|x: int, y: int|
                0 <= x < before.cols() && 0 <= y < before.rows() ==> #[trigger] chart.at(x, y) == if y1
                    <= y < y1 + layout.block_height && x < i * block_width {
                    palette@[block_at(x, block_width)].color
                } else {
                    before.at(x, y)
                },
        decreases shown - i,
    {
        proof {
            assert(i * block_width + block_width == (i + 1) * block_width && (i + 1) * block_width
                <= results * block_width) by (nonlinear_arith)
                requires
                    0 <= i,
                    i + 1 <= results,
                    0 < block_width,
            ;
            assert(i <= i * block_width) by (nonlinear_arith)
                requires
                    0 <= i,
                    0 < block_width,
            ;
        }
        let x1: u32 = i as u32 * block_width;
        let x2: u32 = x1 + block_width;
        let ghost prior = *chart;
        draw_rect(chart, &palette[i].color, x1, y1, x2, y1 + layout.block_height);
        proof {
            assert forall|x: int, y: int|
                0 <= x < before.cols() && 0 <= y < before.rows() implies #[trigger] chart.at(x, y)
                == if y1 <= y < y1 + layout.block_height && x < (i + 1) * block_width {
                palette@[block_at(x, block_width)].color
            } else {
                before.at(x, y)
            } by {
                lemma_block_of(x, block_width as int, i as int);
                lemma_block_of(x, block_width as int, i + 1);
                assert(chart.at(x, y) == if x1 <= x < x2 && y1 <= y < y1 + layout.block_height {
                    palette@[i as int].color
                } else {
                    prior.at(x, y)
                });
            }
        }
        i = i + 1;
    }
    proof {
        assert forall|x: int, y: int|
            0 <= x < before.cols() && 0 <= y < before.rows() implies #[trigger] chart.at(x, y)
            == if y1 <= y < y1 + layout.block_height && block_at(x, block_width) < palette@.len() {
            palette@[block_at(x, block_width)].color
        } else {
            before.at(x, y)
        } by {
            lemma_block_of(x, block_width as int, shown as int);
            lemma_block_of(x, block_width as int, results as int);
        }
    }
}

/// The chart of two palettes: a row of blocks for `top` above a row of
/// blocks for `bottom`, each `results` blocks wide, block `i` of a row in
/// the color of entry `i` of its palette. The chart is `results` times the
/// width of a block wide and two blocks high, whatever image the palettes
/// were made from. There is none where a side does not fit the type of a
/// side, or the pixels are more than the machine can address.
pub fn swatch_chart(
    top: &Vec<PaletteEntry>,
    bottom: &Vec<PaletteEntry>,
    results: usize,
    layout: &ChartLayout,
) -> (chart: Option<PixelBuffer>)
    ensures
        chart is Some <==> results * layout.block_width <= u32::MAX && 2 * layout.block_height
            <= u32::MAX && (results * layout.block_width) * (2 * layout.block_height)
            <= usize::MAX,
        chart matches Some(c) ==> {
            &&& c.cols() == results * layout.block_width
            &&& c.rows() == 2 * layout.block_height
            &&& forall|x: int, y: int|
                0 <= x < c.cols() && 0 <= y < c.rows() ==> #[trigger] c.at(x, y) == chart_color(
                    top@,
                    bottom@,
                    *layout,
                    x,
                    y,
                )
        },
{
    proof {
        assert(results * layout.block_width <= 0xffff_ffff_ffff_ffff * 0xffff_ffff)
            by (nonlinear_arith)
            requires
                results <= 0xffff_ffff_ffff_ffff,
                layout.block_width <= 0xffff_ffff,
        ;
    }
    let wide: u128 = results as u128 * layout.block_width as u128;
    let high: u64 = 2 * layout.block_height as u64;
    if wide > u32::MAX as u128 || high > u32::MAX as u64 {
        return None;
    }
    let width: u32 = wide as u32;
    let height: u32 = high as u32;
    let mut chart: PixelBuffer = match PixelBuffer::filled(width, height, layout.background) {
        Some(blank) => blank,
        None => {
            return None;
        },
    };
    if layout.block_width == 0 {
        return Some(chart);
    }
    proof {
        assert forall|x: int, y: int|
            0 <= x < chart.cols() && 0 <= y < chart.rows() implies #[trigger] chart.at(x, y)
            == layout.background by {
            crate::pixels::lemma_place_in_grid(x, y, chart.cols() as int, chart.rows() as int);
        }
    }
    draw_row(&mut chart, top, results, layout, 0);
    draw_row(&mut chart, bottom, results, layout, layout.block_height);
    Some(chart)
}

} // verus!
