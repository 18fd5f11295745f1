use hs_hackathon::bounding_box::BoundingBox;
use hs_hackathon::colors::Color;
use hs_hackathon::error::Error;
use hs_hackathon::led_detector::Led;
use hs_hackathon::raster::{ColorImage, Pixel};
use hs_hackathon::utils::{draw_bounding_box, draw_bounding_boxes, draw_on_image};

const BLACK: Pixel = Pixel { r: 0, g: 0, b: 0, a: 255 };
const WHITE: Pixel = Pixel { r: 255, g: 255, b: 255, a: 255 };

#[test]
fn draw_paints_the_outline_only() {
    let mut img = ColorImage::new_filled(10, 10, BLACK);
    let bbox = BoundingBox::new(2, 2, 5, 5).unwrap();
    draw_bounding_box(&mut img, bbox, WHITE);
    // corners and edges
    assert_eq!(img.get(2, 2), WHITE);
    assert_eq!(img.get(5, 5), WHITE);
    assert_eq!(img.get(3, 2), WHITE);
    assert_eq!(img.get(3, 5), WHITE);
    assert_eq!(img.get(2, 4), WHITE);
    assert_eq!(img.get(5, 4), WHITE);
    // interior and exterior untouched
    assert_eq!(img.get(3, 3), BLACK);
    assert_eq!(img.get(4, 4), BLACK);
    assert_eq!(img.get(0, 0), BLACK);
    assert_eq!(img.get(6, 5), BLACK);
}

#[test]
fn draw_single_pixel_box_paints_nothing() {
    let mut img = ColorImage::new_filled(4, 4, BLACK);
    let bbox = BoundingBox::new(1, 1, 1, 1).unwrap();
    draw_bounding_box(&mut img, bbox, WHITE);
    assert!(img.pixels.iter().all(|p| *p == BLACK));
}

#[test]
fn draw_several_boxes() {
    let mut img = ColorImage::new_filled(12, 12, BLACK);
    let boxes = vec![
        BoundingBox::new(0, 0, 2, 2).unwrap(),
        BoundingBox::new(8, 8, 10, 10).unwrap(),
    ];
    draw_bounding_boxes(&mut img, boxes, WHITE);
    assert_eq!(img.get(0, 0), WHITE);
    assert_eq!(img.get(9, 8), WHITE);
    assert_eq!(img.get(5, 5), BLACK);
}

#[test]
fn draw_led_uses_its_detected_color() {
    let mut img = ColorImage::new_filled(8, 8, BLACK);
    let led = Led { bbox: BoundingBox::new(1, 1, 4, 4).unwrap(), color: Color::Green };
    draw_on_image(&mut img, led).unwrap();
    assert_eq!(img.get(1, 1), Pixel { r: 0, g: 255, b: 0, a: 255 });
    assert_eq!(img.get(2, 2), BLACK);
}

#[test]
fn draw_led_rejects_unsupported_colors() {
    let mut img = ColorImage::new_filled(8, 8, BLACK);
    let led = Led { bbox: BoundingBox::new(1, 1, 4, 4).unwrap(), color: Color::White };
    assert_eq!(draw_on_image(&mut img, led), Err(Error::UnsupportedColor));
    assert!(img.pixels.iter().all(|p| *p == BLACK));
}

#[test]
fn error_messages_name_the_failure() {
    assert_eq!(Error::InvalidRange.message(), "bounding box bounds are out of order");
    assert_eq!(Error::DimensionMismatch.message(), "rasters differ in dimensions");
    assert_eq!(Error::EmptyRegion.message(), "region holds no pixels");
    assert_eq!(Error::UnsupportedColor.message(), "color has no reference point");
}
