use hs_hackathon::bounding_box::BoundingBox;
use hs_hackathon::colors::Color;
use hs_hackathon::distance::{centroid, centroid_distance, distance};
use hs_hackathon::led_detector::Led;
use hs_hackathon::math::{isqrt, isqrt_round};

#[test]
fn test() {
    let bbox_1 = BoundingBox::new(0, 0, 100, 100).unwrap();
    let bbox_2 = BoundingBox::new(100, 100, 200, 200).unwrap();
    assert_eq!(centroid(bbox_1), (50, 50));
    assert_eq!(centroid(bbox_2), (150, 150));
    assert_eq!(centroid_distance(bbox_1, bbox_2), 141);
}

#[test]
fn centroid_floors_odd_midpoints() {
    let b = BoundingBox::new(0, 0, 5, 7).unwrap();
    assert_eq!(centroid(b), (2, 3));
}

#[test]
fn centroid_distance_is_symmetric() {
    let a = BoundingBox::new(3, 9, 41, 27).unwrap();
    let b = BoundingBox::new(100, 54, 220, 310).unwrap();
    assert_eq!(centroid_distance(a, b), centroid_distance(b, a));
}

#[test]
fn centroid_distance_to_itself_is_zero() {
    let a = BoundingBox::new(17, 23, 99, 131).unwrap();
    assert_eq!(centroid_distance(a, a), 0);
}

#[test]
fn centroid_distance_rounds_to_nearest() {
    // centroids (0,0) and (1,1): distance sqrt(2) = 1.41.. rounds to 1
    let a = BoundingBox::new(0, 0, 0, 0).unwrap();
    let b = BoundingBox::new(1, 1, 1, 1).unwrap();
    assert_eq!(centroid_distance(a, b), 1);
    // centroids (0,0) and (1,2): sqrt(5) = 2.23.. rounds to 2
    let c = BoundingBox::new(1, 2, 1, 2).unwrap();
    assert_eq!(centroid_distance(a, c), 2);
}

#[test]
fn led_distance_uses_centroids() {
    let led_1 = Led { bbox: BoundingBox::new(0, 0, 100, 100).unwrap(), color: Color::Red };
    let led_2 = Led { bbox: BoundingBox::new(100, 100, 200, 200).unwrap(), color: Color::Blue };
    assert_eq!(distance(&led_1, &led_2), 141);
}

#[test]
fn isqrt_floors() {
    assert_eq!(isqrt(0), 0);
    assert_eq!(isqrt(1), 1);
    assert_eq!(isqrt(15), 3);
    assert_eq!(isqrt(16), 4);
    assert_eq!(isqrt(1_000_000), 1000);
}

#[test]
fn isqrt_round_rounds_to_nearest() {
    assert_eq!(isqrt_round(2), 1);
    assert_eq!(isqrt_round(3), 2);
    assert_eq!(isqrt_round(20000), 141);
}
