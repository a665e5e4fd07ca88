use theme_palette::color::Color;
use theme_palette::group::group_colors;
use theme_palette::histogram::histogram;
use theme_palette::palette::{rank, top, PaletteEntry};
use theme_palette::pixels::PixelBuffer;
use theme_palette::render::{
    draw_rect, palette_colors, quantize_grouped, quantize_nearest, swatch_chart, ChartLayout,
    COLOR_BLOCK_HEIGHT, COLOR_BLOCK_WIDTH,
};

fn co(r: u8, g: u8, b: u8) -> Color {
    Color { r, g, b }
}

fn pe(r: u8, g: u8, b: u8, weight: u64) -> PaletteEntry {
    PaletteEntry { color: co(r, g, b), weight }
}

fn varied(width: u32, height: u32) -> PixelBuffer {
    let mut pixels = Vec::new();
    for i in 0..(width * height) {
        pixels.push(co((i * 37 % 256) as u8, (i * 11 % 256) as u8, (i * 101 % 256) as u8));
    }
    PixelBuffer::new(width, height, pixels).unwrap()
}

#[test]
fn quantize_grouped_takes_the_first_color_in_reach() {
    let img = PixelBuffer::new(3, 1, vec![co(4, 0, 0), co(60, 0, 0), co(3, 0, 0)]).unwrap();
    let palette = vec![pe(100, 0, 0, 9), pe(0, 0, 0, 5), pe(3, 0, 0, 1)];
    let out = quantize_grouped(&img, &palette, 5);
    // (4,0,0) is nearer to (3,0,0), but (0,0,0) comes first; (60,0,0) has no
    // color within 5 and stays
    assert_eq!(out.pixels(), &vec![co(0, 0, 0), co(60, 0, 0), co(0, 0, 0)]);
    assert_eq!(out.width(), 3);
    assert_eq!(out.height(), 1);
}

#[test]
fn quantize_grouped_without_threshold_changes_nothing() {
    let img = varied(4, 3);
    let palette = vec![pe(0, 0, 0, 1), pe(37, 11, 101, 1)];
    assert_eq!(quantize_grouped(&img, &palette, 0), img);
}

#[test]
fn quantize_grouped_against_an_empty_palette_changes_nothing() {
    let img = varied(4, 3);
    assert_eq!(quantize_grouped(&img, &Vec::new(), 500), img);
}

#[test]
fn quantize_grouped_twice_is_once_for_the_groups_of_an_image() {
    let img = varied(16, 9);
    for d in [0u64, 1, 16, 64, 300] {
        let groups = rank(&group_colors(&histogram(img.pixels()), d));
        let palette = top(&groups, 8);
        let once = quantize_grouped(&img, &palette, d);
        let twice = quantize_grouped(&once, &palette, d);
        assert_eq!(twice, once);
    }
}

#[test]
fn quantize_grouped_twice_may_differ_where_palette_colors_are_near() {
    let img = PixelBuffer::new(1, 1, vec![co(8, 0, 0)]).unwrap();
    // (8,0,0) is within 5 of (5,0,0) only, which is within 5 of (1,0,0)
    let palette = vec![pe(1, 0, 0, 1), pe(5, 0, 0, 1)];
    let once = quantize_grouped(&img, &palette, 5);
    assert_eq!(once.pixels(), &vec![co(5, 0, 0)]);
    let twice = quantize_grouped(&once, &palette, 5);
    assert_eq!(twice.pixels(), &vec![co(1, 0, 0)]);
}

#[test]
fn quantize_nearest_takes_the_nearest_color() {
    let img = PixelBuffer::new(2, 2, vec![co(4, 0, 0), co(60, 0, 0), co(1, 0, 0), co(90, 0, 0)])
        .unwrap();
    let palette = vec![pe(100, 0, 0, 9), pe(0, 0, 0, 5), pe(3, 0, 0, 1)];
    let out = quantize_nearest(&img, &palette);
    assert_eq!(out.pixels(), &vec![co(3, 0, 0), co(100, 0, 0), co(0, 0, 0), co(100, 0, 0)]);
    assert_eq!(out.width(), 2);
    assert_eq!(out.height(), 2);
}

#[test]
fn quantize_nearest_takes_the_first_of_equally_near_colors() {
    let img = PixelBuffer::new(1, 1, vec![co(1, 0, 0)]).unwrap();
    let out = quantize_nearest(&img, &vec![pe(0, 0, 0, 1), pe(2, 0, 0, 1)]);
    assert_eq!(out.pixels(), &vec![co(0, 0, 0)]);
    let out = quantize_nearest(&img, &vec![pe(2, 0, 0, 1), pe(0, 0, 0, 1)]);
    assert_eq!(out.pixels(), &vec![co(2, 0, 0)]);
}

#[test]
fn quantize_nearest_against_an_empty_palette_changes_nothing() {
    let img = varied(5, 2);
    assert_eq!(quantize_nearest(&img, &Vec::new()), img);
}

#[test]
fn quantize_nearest_twice_is_once() {
    let img = varied(16, 9);
    let palette = vec![
        pe(10, 10, 10, 3),
        pe(200, 30, 40, 2),
        pe(10, 10, 11, 2),
        pe(90, 90, 200, 1),
        pe(200, 30, 40, 1),
    ];
    let once = quantize_nearest(&img, &palette);
    let twice = quantize_nearest(&once, &palette);
    assert_eq!(twice, once);
    for p in once.pixels().iter() {
        assert!(palette.iter().any(|e| e.color == *p));
    }
}

#[test]
fn palette_colors_drops_the_weights() {
    assert_eq!(
        palette_colors(&vec![pe(1, 2, 3, 9), pe(4, 5, 6, 1)]),
        vec![co(1, 2, 3), co(4, 5, 6)]
    );
}

#[test]
fn draw_rect_fills_the_rectangle_and_nothing_else() {
    let mut img = PixelBuffer::filled(5, 4, co(0, 0, 0)).unwrap();
    draw_rect(&mut img, &co(9, 9, 9), 1, 1, 4, 3);
    for y in 0..4 {
        for x in 0..5 {
            let inside = 1 <= x && x < 4 && 1 <= y && y < 3;
            let expected = if inside { co(9, 9, 9) } else { co(0, 0, 0) };
            assert_eq!(img.get(x, y), Some(expected));
        }
    }
}

#[test]
fn draw_rect_can_fill_the_whole_buffer() {
    let mut img = varied(3, 3);
    draw_rect(&mut img, &co(1, 2, 3), 0, 0, 3, 3);
    assert_eq!(img, PixelBuffer::filled(3, 3, co(1, 2, 3)).unwrap());
}

#[test]
fn draw_rect_of_an_empty_rectangle_draws_nothing() {
    let mut img = varied(3, 3);
    draw_rect(&mut img, &co(1, 2, 3), 2, 0, 2, 3);
    draw_rect(&mut img, &co(1, 2, 3), 0, 1, 3, 1);
    draw_rect(&mut img, &co(1, 2, 3), 9, 9, 4, 4);
    assert_eq!(img, varied(3, 3));
}

#[test]
fn swatch_chart_has_the_size_of_its_blocks() {
    for results in [0usize, 1, 3, 8] {
        let chart = swatch_chart(&Vec::new(), &Vec::new(), results, &ChartLayout::standard())
            .unwrap();
        assert_eq!(chart.width(), results as u32 * 25);
        assert_eq!(chart.height(), 100);
        assert_eq!(chart.pixels().len(), results * 25 * 100);
    }
    assert_eq!(COLOR_BLOCK_WIDTH, 25);
    assert_eq!(COLOR_BLOCK_HEIGHT, 50);
}

#[test]
fn swatch_chart_does_not_depend_on_the_image() {
    let layout = ChartLayout::standard();
    for (width, height) in [(1u32, 1u32), (16, 9), (40, 30)] {
        let img = varied(width, height);
        let groups = top(&rank(&group_colors(&histogram(img.pixels()), 16)), 8);
        let chart = swatch_chart(&groups, &groups, 8, &layout).unwrap();
        assert_eq!(chart.width(), 200);
        assert_eq!(chart.height(), 100);
    }
}

#[test]
fn swatch_chart_shows_one_palette_above_the_other() {
    let top_row = vec![pe(1, 1, 1, 5), pe(2, 2, 2, 4), pe(3, 3, 3, 3)];
    let bottom_row = vec![pe(7, 7, 7, 9), pe(8, 8, 8, 1)];
    let layout = ChartLayout { block_width: 2, block_height: 3, background: co(0, 0, 0) };
    let chart = swatch_chart(&top_row, &bottom_row, 3, &layout).unwrap();
    assert_eq!(chart.width(), 6);
    assert_eq!(chart.height(), 6);
    let a = co(1, 1, 1);
    let b = co(2, 2, 2);
    let c = co(3, 3, 3);
    let d = co(7, 7, 7);
    let e = co(8, 8, 8);
    let o = co(0, 0, 0);
    assert_eq!(
        chart.pixels(),
        &vec![
            a, a, b, b, c, c, //
            a, a, b, b, c, c, //
            a, a, b, b, c, c, //
            d, d, e, e, o, o, //
            d, d, e, e, o, o, //
            d, d, e, e, o, o, //
        ]
    );
}

#[test]
fn swatch_chart_shows_no_more_blocks_than_asked_for() {
    let row = vec![pe(1, 1, 1, 5), pe(2, 2, 2, 4), pe(3, 3, 3, 3)];
    let layout = ChartLayout { block_width: 1, block_height: 1, background: co(0, 0, 0) };
    let chart = swatch_chart(&row, &row, 2, &layout).unwrap();
    assert_eq!(
        chart.pixels(),
        &vec![co(1, 1, 1), co(2, 2, 2), co(1, 1, 1), co(2, 2, 2)]
    );
}

#[test]
fn swatch_chart_uses_the_background_of_its_layout() {
    let layout = ChartLayout { block_width: 1, block_height: 1, background: co(50, 60, 70) };
    let chart = swatch_chart(&vec![pe(1, 1, 1, 5)], &Vec::new(), 2, &layout).unwrap();
    assert_eq!(
        chart.pixels(),
        &vec![co(1, 1, 1), co(50, 60, 70), co(50, 60, 70), co(50, 60, 70)]
    );
}

#[test]
fn swatch_chart_with_blocks_of_no_size_is_empty() {
    let row = vec![pe(1, 1, 1, 5)];
    let layout = ChartLayout { block_width: 0, block_height: 4, background: co(0, 0, 0) };
    let chart = swatch_chart(&row, &row, 3, &layout).unwrap();
    assert_eq!(chart.width(), 0);
    assert_eq!(chart.height(), 8);
    assert_eq!(chart.pixels().len(), 0);
    let layout = ChartLayout { block_width: 4, block_height: 0, background: co(0, 0, 0) };
    let chart = swatch_chart(&row, &row, 3, &layout).unwrap();
    assert_eq!(chart.width(), 12);
    assert_eq!(chart.height(), 0);
}

#[test]
fn swatch_chart_is_none_where_a_side_does_not_fit() {
    let layout = ChartLayout::standard();
    assert!(swatch_chart(&Vec::new(), &Vec::new(), 171_798_692, &layout).is_none());
    let layout = ChartLayout { block_width: 0, block_height: u32::MAX, background: co(0, 0, 0) };
    assert!(swatch_chart(&Vec::new(), &Vec::new(), 1, &layout).is_none());
}
