use pathtracer::fixed::Fixed;
use pathtracer::texture::{channel_color, on_first_field, ImageTexture, Texture};
use pathtracer::vec3::{Color, Point};
use std::sync::Arc;

fn fx(x: f64) -> Fixed {
    Fixed::from_raw((x * 1e9).round() as i64)
}

fn raw(r: i64) -> Fixed {
    Fixed::from_raw(r)
}

fn p(x: f64, y: f64, z: f64) -> Point {
    Point::new(fx(x), fx(y), fx(z))
}

fn two_by_two() -> Vec<u8> {
    vec![
        255, 0, 0, /* top left */ 0, 255, 0, /* top right */
        0, 0, 255, /* bottom left */ 255, 255, 255, /* bottom right */
    ]
}

#[test]
fn plain_colour_is_the_same_everywhere() {
    let c = Color::new(fx(0.2), fx(0.3), fx(0.1));
    let t = Texture::Color(c);
    assert_eq!(t.value(fx(0.0), fx(0.0), p(0.0, 0.0, 0.0)), c);
    assert_eq!(t.value(fx(0.9), fx(0.1), p(5.0, -3.0, 100.0)), c);
}

#[test]
fn channels_are_divided_by_255() {
    assert_eq!(channel_color((255, 128, 1)), Color::new(fx(1.0), raw(501_960_784), raw(3_921_568)));
    assert_eq!(channel_color((0, 0, 0)), Color::black());
}

#[test]
fn fields_of_the_checkerboard() {
    assert!(!on_first_field(p(0.1, 0.1, 0.1)));
    assert!(on_first_field(p(0.1, 0.1, -0.1)));
    assert!(on_first_field(p(0.4, 0.1, 0.1)));
    assert!(!on_first_field(p(0.4, 0.1, -0.1)));
    assert!(!on_first_field(p(0.0, 0.1, 0.1)));
}

#[test]
fn checkerboard_alternates_between_its_two_textures() {
    let green = Color::new(fx(0.2), fx(0.3), fx(0.1));
    let grey = Color::new(fx(0.9), fx(0.9), fx(0.9));
    let t = Texture::Checkers(Arc::new(Texture::Color(green)), Arc::new(Texture::Color(grey)));
    assert_eq!(t.value(fx(0.0), fx(0.0), p(0.1, 0.1, 0.1)), grey);
    assert_eq!(t.value(fx(0.0), fx(0.0), p(0.1, 0.1, -0.1)), green);
    assert_eq!(t.value(fx(0.5), fx(0.5), p(0.4, 0.1, 0.1)), green);
    assert_eq!(t.value(fx(0.5), fx(0.5), p(0.4, 0.4, 0.1)), grey);
}

#[test]
fn checkerboard_of_checkerboards() {
    let red = Texture::Color(Color::new(fx(1.0), fx(0.0), fx(0.0)));
    let blue = Texture::Color(Color::new(fx(0.0), fx(0.0), fx(1.0)));
    let inner = Texture::Checkers(Arc::new(red), Arc::new(blue));
    let t = Texture::Checkers(Arc::new(inner), Arc::new(Texture::Color(Color::white())));
    assert_eq!(t.value(fx(0.0), fx(0.0), p(0.1, 0.1, 0.1)), Color::white());
    assert_eq!(t.value(fx(0.0), fx(0.0), p(0.1, 0.1, -0.1)), Color::new(fx(1.0), fx(0.0), fx(0.0)));
}

#[test]
fn image_is_looked_up_with_v_running_upward() {
    let img = ImageTexture::from_raw(2, 2, two_by_two()).unwrap();
    assert_eq!(img.lookup(fx(0.0), fx(1.0)), Color::new(fx(1.0), fx(0.0), fx(0.0)));
    assert_eq!(img.lookup(fx(0.9), fx(1.0)), Color::new(fx(0.0), fx(1.0), fx(0.0)));
    assert_eq!(img.lookup(fx(0.0), fx(0.0)), Color::new(fx(0.0), fx(0.0), fx(1.0)));
    assert_eq!(img.lookup(fx(1.0), fx(0.0)), Color::white());
    assert_eq!(img.lookup(fx(0.49), fx(0.51)), Color::new(fx(1.0), fx(0.0), fx(0.0)));
    assert_eq!(img.lookup(fx(0.5), fx(0.5)), Color::white());
    assert_eq!(img.lookup(fx(0.5), fx(0.500000001)), Color::new(fx(0.0), fx(1.0), fx(0.0)));
}

#[test]
fn coordinates_beyond_the_image_are_brought_to_its_edge() {
    let img = ImageTexture::from_raw(2, 2, two_by_two()).unwrap();
    assert_eq!(img.lookup(fx(-3.0), fx(7.0)), Color::new(fx(1.0), fx(0.0), fx(0.0)));
    assert_eq!(img.lookup(fx(5.0), fx(-2.0)), Color::white());
    let t = Texture::Image(ImageTexture::from_raw(2, 2, two_by_two()).unwrap());
    assert_eq!(t.value(fx(0.0), fx(0.0), p(9.0, 9.0, 9.0)), Color::new(fx(0.0), fx(0.0), fx(1.0)));
}

#[test]
fn wide_image() {
    let mut data = Vec::new();
    for k in 0..5u8 {
        data.extend_from_slice(&[k * 51, 0, 255 - k * 51]);
    }
    let img = ImageTexture::from_raw(5, 1, data).unwrap();
    assert_eq!(img.lookup(fx(0.0), fx(0.5)), channel_color((0, 0, 255)));
    assert_eq!(img.lookup(fx(0.2), fx(0.5)), channel_color((51, 0, 204)));
    assert_eq!(img.lookup(fx(0.399999999), fx(0.5)), channel_color((51, 0, 204)));
    assert_eq!(img.lookup(fx(0.99), fx(0.5)), channel_color((204, 0, 51)));
    assert_eq!(img.lookup(fx(1.0), fx(0.5)), channel_color((204, 0, 51)));
}

#[test]
fn image_needs_a_size_and_enough_bytes() {
    assert!(ImageTexture::from_raw(2, 2, vec![0; 11]).is_none());
    assert!(ImageTexture::from_raw(2, 2, vec![0; 12]).is_some());
    assert!(ImageTexture::from_raw(2, 2, vec![0; 40]).is_some());
    assert!(ImageTexture::from_raw(0, 2, vec![0; 12]).is_none());
    assert!(ImageTexture::from_raw(2, 0, vec![0; 12]).is_none());
    assert!(ImageTexture::from_raw(0, 0, Vec::new()).is_none());
    assert!(ImageTexture::from_raw(u32::MAX, u32::MAX, vec![0; 12]).is_none());
}
