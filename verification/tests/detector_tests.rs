use hs_hackathon::bounding_box::BoundingBox;
use hs_hackathon::colors::{detect_color, Color};
use hs_hackathon::error::Error;
use hs_hackathon::led_detector::{find_leds_areas, get_leds, LedDetectionConfig};
use hs_hackathon::preprocessor::{extract_bright_areas, subtract, threshold, FilterKind};
use hs_hackathon::raster::{ColorImage, GrayImage, MetricsImage, Pixel, PixelMetrics};

use palette::color_difference::EuclideanDistance;
use palette::{FromColor, Hsv, Lab, Srgb};

/// The same per-pixel color metrics the application layer computes with
/// palette: the HSV whiteness test on linear RGB, and squared Lab distances
/// to the three reference colors.
fn metrics_for(p: Pixel) -> PixelMetrics {
    let srgb = Srgb::new(p.r as f32 / 255.0, p.g as f32 / 255.0, p.b as f32 / 255.0);
    let hsv = Hsv::from_color(srgb.into_linear());
    let hsv_white = hsv.saturation <= 0.35 && hsv.value >= 0.09;
    let lab: Lab = Lab::from_color(srgb);
    let dist = |c: (f32, f32, f32)| lab.distance_squared(Lab::from_components(c)) as i32;
    PixelMetrics {
        hsv_white,
        d_red: dist((53.24, 80.09, 67.20)),
        d_blue: dist((32.30, 79.19, -107.86)),
        d_green: dist((87.73, -86.18, 83.18)),
    }
}

fn metrics_plane(img: &ColorImage) -> MetricsImage {
    let cells = img.pixels.iter().map(|p| metrics_for(*p)).collect();
    MetricsImage { width: img.width, height: img.height, cells }
}

fn uniform_classification(r: u8, g: u8, b: u8) -> Color {
    let img = ColorImage::new_filled(8, 8, Pixel { r, g, b, a: 255 });
    let metrics = metrics_plane(&img);
    let bbox = BoundingBox::new(1, 1, 6, 6).unwrap();
    detect_color(&img, &metrics, &bbox).unwrap()
}

#[test]
fn classify_uniform_red_patch() {
    assert_eq!(uniform_classification(250, 0, 0), Color::Red);
}

#[test]
fn classify_uniform_green_patch() {
    assert_eq!(uniform_classification(0, 250, 0), Color::Green);
}

#[test]
fn classify_uniform_blue_patch() {
    assert_eq!(uniform_classification(0, 0, 250), Color::Blue);
}

#[test]
fn classify_uniform_white_patch() {
    assert_eq!(uniform_classification(255, 255, 255), Color::White);
}

#[test]
fn classify_overbright_channel_counts_as_white() {
    // one raw channel above the brightness threshold makes the pixel white,
    // whatever its hue
    assert_eq!(uniform_classification(255, 0, 0), Color::White);
}

#[test]
fn classify_empty_region_fails() {
    let img = ColorImage::new_filled(8, 8, Pixel { r: 0, g: 0, b: 0, a: 255 });
    let metrics = metrics_plane(&img);
    let bbox = BoundingBox::new(3, 3, 3, 7).unwrap();
    assert_eq!(detect_color(&img, &metrics, &bbox), Err(Error::EmptyRegion));
}

#[test]
fn extractor_finds_single_square() {
    // one 10 by 10 foreground square on an otherwise background mask
    let mut mask = GrayImage::new_filled(40, 40, 255);
    for x in 5..=14 {
        for y in 5..=14 {
            mask.set(x, y, 0);
        }
    }
    let boxes = find_leds_areas(&mask);
    assert_eq!(boxes.len(), 1);
    assert_eq!(boxes[0].x_min(), 5);
    assert_eq!(boxes[0].y_min(), 5);
    assert_eq!(boxes[0].x_max(), 14);
    assert_eq!(boxes[0].y_max(), 14);
}

#[test]
fn extractor_finds_two_separate_squares() {
    let mut mask = GrayImage::new_filled(40, 40, 255);
    for x in 2..=6 {
        for y in 2..=6 {
            mask.set(x, y, 0);
        }
    }
    for x in 20..=27 {
        for y in 10..=14 {
            mask.set(x, y, 0);
        }
    }
    let boxes = find_leds_areas(&mask);
    assert_eq!(boxes.len(), 2);
    assert_eq!(boxes[0].x_min(), 2);
    assert_eq!(boxes[0].y_max(), 6);
    assert_eq!(boxes[1].x_min(), 20);
    assert_eq!(boxes[1].x_max(), 27);
}

#[test]
fn extractor_on_blank_mask_finds_nothing() {
    let mask = GrayImage::new_filled(30, 20, 255);
    assert_eq!(find_leds_areas(&mask).len(), 0);
}

#[test]
fn subtract_clamps_at_zero_and_forces_alpha() {
    let a = ColorImage::new_filled(1, 1, Pixel { r: 100, g: 50, b: 10, a: 7 });
    let b = ColorImage::new_filled(1, 1, Pixel { r: 30, g: 60, b: 5, a: 3 });
    let d = subtract(&a, &b).unwrap();
    assert_eq!(d.pixels[0], Pixel { r: 70, g: 0, b: 5, a: 255 });
}

#[test]
fn subtract_rejects_mismatched_dimensions() {
    let a = ColorImage::new_filled(1, 1, Pixel { r: 0, g: 0, b: 0, a: 255 });
    let b = ColorImage::new_filled(2, 1, Pixel { r: 0, g: 0, b: 0, a: 255 });
    assert_eq!(subtract(&a, &b).unwrap_err(), Error::DimensionMismatch);
}

#[test]
fn threshold_uses_inverted_encoding() {
    let mut img = ColorImage::new_filled(2, 1, Pixel { r: 100, g: 100, b: 100, a: 255 });
    img.set(1, 0, Pixel { r: 10, g: 10, b: 10, a: 255 });
    let mask = threshold(&img, 50);
    // bright pixel becomes foreground (0), dark pixel background (255)
    assert_eq!(mask.pixels[0], 0);
    assert_eq!(mask.pixels[1], 255);
}

#[test]
fn threshold_intensity_uses_luma_weights() {
    // luma of (1, 2, 3) is (2126 + 14304 + 2166) / 10000 = 1
    let img = ColorImage::new_filled(1, 1, Pixel { r: 1, g: 2, b: 3, a: 255 });
    assert_eq!(threshold(&img, 1).pixels[0], 255);
    assert_eq!(threshold(&img, 0).pixels[0], 0);
}

fn square_image(fill: Pixel, square: Pixel) -> ColorImage {
    let mut img = ColorImage::new_filled(40, 40, fill);
    for x in 15..25 {
        for y in 15..25 {
            img.set(x, y, square);
        }
    }
    img
}

#[test]
fn equal_radii_give_blank_mask_and_no_regions() {
    let img = square_image(
        Pixel { r: 0, g: 0, b: 0, a: 255 },
        Pixel { r: 255, g: 255, b: 255, a: 255 },
    );
    let config = LedDetectionConfig {
        width: 40,
        height: 40,
        filter: FilterKind::Gaussian,
        radius_1: 3,
        radius_2: 3,
        threshold_value: 10,
        min_size: (1, 1),
        max_size: (40, 40),
    };
    let ba = extract_bright_areas(&img, &config).unwrap();
    assert!(ba.thresholded.pixels.iter().all(|p| *p == 255));
    assert_eq!(find_leds_areas(&ba.thresholded).len(), 0);
}

#[test]
fn distinct_radii_highlight_the_bright_square() {
    let img = square_image(
        Pixel { r: 0, g: 0, b: 0, a: 255 },
        Pixel { r: 255, g: 255, b: 255, a: 255 },
    );
    let config = LedDetectionConfig {
        width: 40,
        height: 40,
        filter: FilterKind::Gaussian,
        radius_1: 1,
        radius_2: 6,
        threshold_value: 5,
        min_size: (1, 1),
        max_size: (40, 40),
    };
    let ba = extract_bright_areas(&img, &config).unwrap();
    assert!(find_leds_areas(&ba.thresholded).len() > 0);
}

#[test]
fn resize_step_reaches_the_target_size() {
    let img = square_image(
        Pixel { r: 0, g: 0, b: 0, a: 255 },
        Pixel { r: 255, g: 255, b: 255, a: 255 },
    );
    let config = LedDetectionConfig {
        width: 20,
        height: 20,
        filter: FilterKind::Gaussian,
        radius_1: 1,
        radius_2: 4,
        threshold_value: 10,
        min_size: (1, 1),
        max_size: (20, 20),
    };
    let ba = extract_bright_areas(&img, &config).unwrap();
    assert_eq!(ba.resized.width, 20);
    assert_eq!(ba.resized.height, 20);
    assert_eq!(ba.thresholded.width, 20);
    assert_eq!(ba.thresholded.height, 20);
}

#[test]
fn get_leds_classifies_and_rescales_the_detected_square() {
    // a red square on the (already resized) frame, with a matching mask
    let mut resized = ColorImage::new_filled(40, 40, Pixel { r: 0, g: 0, b: 0, a: 255 });
    let mut mask = GrayImage::new_filled(40, 40, 255);
    for x in 5..=14 {
        for y in 5..=14 {
            resized.set(x, y, Pixel { r: 250, g: 0, b: 0, a: 255 });
            mask.set(x, y, 0);
        }
    }
    let metrics = metrics_plane(&resized);
    let config = LedDetectionConfig {
        width: 40,
        height: 40,
        filter: FilterKind::Gaussian,
        radius_1: 4,
        radius_2: 8,
        threshold_value: 10,
        min_size: (4, 4),
        max_size: (20, 20),
    };
    let leds = get_leds(&resized, &mask, &metrics, (80, 80), &config).unwrap();
    assert_eq!(leds.len(), 1);
    assert_eq!(leds[0].color, Color::Red);
    // the box is mapped back into the 80 by 80 original space
    assert_eq!(leds[0].bbox.x_min(), 10);
    assert_eq!(leds[0].bbox.y_min(), 10);
    assert_eq!(leds[0].bbox.x_max(), 28);
    assert_eq!(leds[0].bbox.y_max(), 28);
}

#[test]
fn get_leds_applies_the_size_filter() {
    // the square's spans are 9 by 9: rejected once min_size asks for 10
    let mut resized = ColorImage::new_filled(40, 40, Pixel { r: 0, g: 0, b: 0, a: 255 });
    let mut mask = GrayImage::new_filled(40, 40, 255);
    for x in 5..=14 {
        for y in 5..=14 {
            resized.set(x, y, Pixel { r: 250, g: 0, b: 0, a: 255 });
            mask.set(x, y, 0);
        }
    }
    let metrics = metrics_plane(&resized);
    let config = LedDetectionConfig {
        width: 40,
        height: 40,
        filter: FilterKind::Gaussian,
        radius_1: 4,
        radius_2: 8,
        threshold_value: 10,
        min_size: (10, 10),
        max_size: (20, 20),
    };
    let leds = get_leds(&resized, &mask, &metrics, (80, 80), &config).unwrap();
    assert_eq!(leds.len(), 0);
}

#[test]
fn default_config_matches_the_drone_tuning() {
    let config = LedDetectionConfig::default();
    assert_eq!(config.width, 800);
    assert_eq!(config.height, 800);
    assert_eq!(config.filter, FilterKind::Gaussian);
    assert_eq!(config.radius_1, 4);
    assert_eq!(config.radius_2, 8);
    assert_eq!(config.threshold_value, 10);
    assert_eq!(config.min_size, (7, 7));
    assert_eq!(config.max_size, (20, 20));
}

#[test]
fn get_leds_reports_empty_region_for_degenerate_candidates() {
    // a single-pixel island yields a box whose half-open iteration is empty;
    // with a zero minimum size it reaches the classifier and fails there
    let resized = ColorImage::new_filled(10, 10, Pixel { r: 0, g: 0, b: 0, a: 255 });
    let mut mask = GrayImage::new_filled(10, 10, 255);
    mask.set(4, 4, 0);
    let metrics = metrics_plane(&resized);
    let config = LedDetectionConfig {
        width: 10,
        height: 10,
        filter: FilterKind::Gaussian,
        radius_1: 1,
        radius_2: 2,
        threshold_value: 10,
        min_size: (0, 0),
        max_size: (20, 20),
    };
    let r = get_leds(&resized, &mask, &metrics, (10, 10), &config);
    assert_eq!(r.unwrap_err(), Error::EmptyRegion);
}

#[test]
fn equal_radii_detection_is_empty_even_with_zero_min_size() {
    // with no bright region at all, detection succeeds with an empty list
    // whatever the size bounds say
    let img = square_image(
        Pixel { r: 0, g: 0, b: 0, a: 255 },
        Pixel { r: 255, g: 255, b: 255, a: 255 },
    );
    let config = LedDetectionConfig {
        width: 40,
        height: 40,
        filter: FilterKind::Gaussian,
        radius_1: 3,
        radius_2: 3,
        threshold_value: 10,
        min_size: (0, 0),
        max_size: (40, 40),
    };
    let ba = extract_bright_areas(&img, &config).unwrap();
    let metrics = metrics_plane(&ba.resized);
    let leds = get_leds(&ba.resized, &ba.thresholded, &metrics, (40, 40), &config).unwrap();
    assert!(leds.is_empty());
}
