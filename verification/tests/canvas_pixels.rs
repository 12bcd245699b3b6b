use pathtracer::canvas::{to_byte, Canvas, BRIGHTEST_RAW};
use pathtracer::fixed::Fixed;
use pathtracer::vec3::Color;

fn fx(x: f64) -> Fixed {
    Fixed::from_raw((x * 1e9).round() as i64)
}

#[test]
fn channel_to_byte_takes_the_root_and_limits_it() {
    assert_eq!(BRIGHTEST_RAW, 999_000_000);
    assert_eq!(to_byte(fx(0.0)), 0);
    assert_eq!(to_byte(fx(0.25)), 128);
    assert_eq!(to_byte(fx(0.5)), 181);
    assert_eq!(to_byte(fx(0.01)), 25);
    assert_eq!(to_byte(fx(1.0)), 255);
    assert_eq!(to_byte(fx(2.0)), 255);
    assert_eq!(to_byte(Fixed::largest()), 255);
    assert_eq!(to_byte(fx(-1.0)), 0);
    assert_eq!(to_byte(Fixed::from_raw(i64::MIN)), 0);
}

#[test]
fn colour_to_pixel() {
    assert_eq!(Canvas::to_rgb(&Color::new(fx(0.25), fx(1.0), fx(0.0))), (128, 255, 0));
    assert_eq!(Canvas::to_rgb(&Color::white()), (255, 255, 255));
    assert_eq!(Canvas::to_rgb(&Color::black()), (0, 0, 0));
}

#[test]
fn new_canvas_is_black() {
    let c = Canvas::new(3, 2);
    assert_eq!((c.width(), c.height()), (3, 2));
    for x in 0..3 {
        for y in 0..2 {
            assert_eq!(c.get(x, y), Some((0, 0, 0)));
        }
    }
    assert_eq!(c.get(3, 0), None);
    assert_eq!(c.get(0, 2), None);
    assert_eq!(c.into_raw(), vec![0u8; 18]);
}

#[test]
fn canvas_without_pixels() {
    let c = Canvas::new(0, 5);
    assert_eq!((c.width(), c.height()), (0, 5));
    assert_eq!(c.get(0, 0), None);
    assert_eq!(c.into_raw().len(), 0);
}

#[test]
fn draw_sets_one_pixel_and_counts_rows_from_the_bottom() {
    let mut c = Canvas::new(3, 2);
    c.draw(0, 0, &Color::white());
    c.draw(2, 1, &Color::new(fx(0.25), fx(0.0), fx(1.0)));
    assert_eq!(c.get(0, 0), Some((255, 255, 255)));
    assert_eq!(c.get(2, 1), Some((128, 0, 255)));
    assert_eq!(c.get(1, 0), Some((0, 0, 0)));
    assert_eq!(c.get(0, 1), Some((0, 0, 0)));
    let bytes = c.into_raw();
    assert_eq!(
        bytes,
        vec![
            0, 0, 0, 0, 0, 0, 128, 0, 255, /* top row */
            255, 255, 255, 0, 0, 0, 0, 0, 0, /* bottom row */
        ]
    );
}

#[test]
fn drawing_twice_keeps_the_last_colour() {
    let mut c = Canvas::new(1, 1);
    c.draw(0, 0, &Color::white());
    c.draw(0, 0, &Color::new(fx(0.25), fx(0.25), fx(0.25)));
    assert_eq!(c.get(0, 0), Some((128, 128, 128)));
}
