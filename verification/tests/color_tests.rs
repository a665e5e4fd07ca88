use theme_palette::color::{dist, Color, MAX_DISTANCE};
use theme_palette::pixels::{mean_color, PixelBuffer};

fn rgb(r: u8, g: u8, b: u8) -> Color {
    Color { r, g, b }
}

#[test]
fn dist_of_black_and_white_is_the_largest() {
    assert_eq!(dist(&rgb(0, 0, 0), &rgb(255, 255, 255)), 441);
    assert_eq!(MAX_DISTANCE, 441);
}

#[test]
fn dist_truncates_and_does_not_round() {
    // sqrt(2) = 1.41.., sqrt(3) = 1.73.., sqrt(300) = 17.32.., sqrt(8) = 2.83..
    assert_eq!(dist(&rgb(0, 0, 0), &rgb(1, 1, 0)), 1);
    assert_eq!(dist(&rgb(0, 0, 0), &rgb(1, 1, 1)), 1);
    assert_eq!(dist(&rgb(0, 0, 0), &rgb(10, 10, 10)), 17);
    assert_eq!(dist(&rgb(7, 7, 7), &rgb(9, 9, 7)), 2);
}

#[test]
fn dist_is_exact_on_squares() {
    assert_eq!(dist(&rgb(0, 0, 0), &rgb(3, 4, 0)), 5);
    assert_eq!(dist(&rgb(10, 20, 30), &rgb(12, 23, 36)), 7);
    assert_eq!(dist(&rgb(0, 0, 0), &rgb(0, 0, 255)), 255);
}

#[test]
fn dist_just_below_a_square_stays_below() {
    // 3 * 147 * 147 = 64827 = 255 * 255 - 198
    assert_eq!(dist(&rgb(0, 0, 0), &rgb(147, 147, 147)), 254);
    // 15 * 15 + 1 = 226 < 256
    assert_eq!(dist(&rgb(0, 0, 0), &rgb(15, 1, 0)), 15);
}

#[test]
fn dist_is_symmetric() {
    let colors = [rgb(0, 0, 0), rgb(255, 0, 17), rgb(3, 200, 99), rgb(128, 128, 128)];
    for a in colors.iter() {
        for b in colors.iter() {
            assert_eq!(dist(a, b), dist(b, a));
        }
    }
}

#[test]
fn dist_to_itself_is_zero() {
    assert_eq!(dist(&rgb(0, 0, 0), &rgb(0, 0, 0)), 0);
    assert_eq!(dist(&rgb(12, 200, 255), &rgb(12, 200, 255)), 0);
}

#[test]
fn dist_of_different_colors_is_positive() {
    assert_eq!(dist(&rgb(0, 0, 0), &rgb(0, 0, 1)), 1);
    assert_eq!(dist(&rgb(255, 255, 255), &rgb(255, 254, 255)), 1);
}

#[test]
fn dist_takes_channels_in_either_order() {
    assert_eq!(dist(&rgb(200, 10, 0), &rgb(10, 200, 0)), 268);
    assert_eq!(dist(&rgb(10, 200, 0), &rgb(200, 10, 0)), 268);
}

#[test]
fn mean_color_divides_each_channel_sum() {
    let pixels = vec![rgb(0, 10, 255), rgb(1, 20, 255), rgb(2, 30, 254)];
    // sums 3, 60, 764
    assert_eq!(mean_color(&pixels), Some(rgb(1, 20, 254)));
}

#[test]
fn mean_color_truncates() {
    let pixels = vec![rgb(0, 0, 0), rgb(1, 2, 3)];
    assert_eq!(mean_color(&pixels), Some(rgb(0, 1, 1)));
    let pixels = vec![rgb(255, 255, 255), rgb(254, 0, 1), rgb(255, 0, 1)];
    assert_eq!(mean_color(&pixels), Some(rgb(254, 85, 85)));
}

#[test]
fn mean_color_of_one_pixel_is_the_pixel() {
    assert_eq!(mean_color(&vec![rgb(9, 8, 7)]), Some(rgb(9, 8, 7)));
}

#[test]
fn mean_color_of_no_pixels_is_none() {
    assert_eq!(mean_color(&Vec::new()), None);
}

#[test]
fn pixel_buffer_wants_one_pixel_per_place() {
    assert!(PixelBuffer::new(2, 2, vec![rgb(0, 0, 0); 4]).is_some());
    assert!(PixelBuffer::new(2, 2, vec![rgb(0, 0, 0); 3]).is_none());
    assert!(PixelBuffer::new(0, 5, Vec::new()).is_some());
    assert!(PixelBuffer::new(0, 5, vec![rgb(0, 0, 0)]).is_none());
}

#[test]
fn pixel_buffer_is_row_major() {
    let img = PixelBuffer::new(
        3,
        2,
        vec![rgb(0, 0, 0), rgb(1, 0, 0), rgb(2, 0, 0), rgb(0, 1, 0), rgb(1, 1, 0), rgb(2, 1, 0)],
    )
    .unwrap();
    assert_eq!(img.width(), 3);
    assert_eq!(img.height(), 2);
    assert_eq!(img.get(2, 0), Some(rgb(2, 0, 0)));
    assert_eq!(img.get(0, 1), Some(rgb(0, 1, 0)));
    assert_eq!(img.get(2, 1), Some(rgb(2, 1, 0)));
    assert_eq!(img.get(3, 0), None);
    assert_eq!(img.get(0, 2), None);
    assert_eq!(img.pixels().len(), 6);
}

#[test]
fn pixel_buffer_set_changes_one_pixel() {
    let mut img = PixelBuffer::filled(3, 2, rgb(9, 9, 9)).unwrap();
    img.set(1, 1, rgb(1, 2, 3));
    for y in 0..2 {
        for x in 0..3 {
            let expected = if x == 1 && y == 1 { rgb(1, 2, 3) } else { rgb(9, 9, 9) };
            assert_eq!(img.get(x, y), Some(expected));
        }
    }
    assert_eq!(img.pixels()[4], rgb(1, 2, 3));
}

#[test]
fn pixel_buffer_clone_is_equal() {
    let img = PixelBuffer::new(2, 1, vec![rgb(1, 2, 3), rgb(4, 5, 6)]).unwrap();
    let copy = img.clone();
    assert_eq!(copy, img);
    assert_eq!(copy.pixels(), img.pixels());
}

#[test]
fn pixel_buffer_filled_has_one_color() {
    let img = PixelBuffer::filled(4, 3, rgb(7, 8, 9)).unwrap();
    assert_eq!(img.width(), 4);
    assert_eq!(img.height(), 3);
    assert_eq!(img.pixels(), &vec![rgb(7, 8, 9); 12]);
    let none = PixelBuffer::filled(0, 3, rgb(7, 8, 9)).unwrap();
    assert_eq!(none.pixels().len(), 0);
}
