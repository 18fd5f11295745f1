use hs_hackathon::angles::Vector;
use hs_hackathon::bounding_box::BoundingBox;
use hs_hackathon::cheats::{
    approach_hint, find_team_boxes, idle_should_recalibrate, Hint, TeamColors,
};
use hs_hackathon::colors::Color;
use hs_hackathon::led_detector::Led;
use hs_hackathon::positioning::{distance, Position};

#[test]
fn dot_product() {
    let vector_a = Vector(2, 3);
    let vector_b = Vector(-1, 2);
    assert_eq!(vector_a.dotproduct(vector_b), 4);
}

#[test]
fn magnitude() {
    let vector = Vector(3, 4);
    assert_eq!(vector.magnitude(), 5);
}

#[test]
fn magnitude_truncates() {
    let vector = Vector(1, 1);
    assert_eq!(vector.magnitude(), 1);
}

#[test]
fn position_distance_truncates() {
    let a = Position { x: 0, y: 0 };
    let b = Position { x: 3, y: 4 };
    assert_eq!(a.distance(&b), 5);
    let c = Position { x: 1, y: 1 };
    assert_eq!(a.distance(&c), 1);
}

#[test]
fn position_from_box_is_its_centroid() {
    let b = BoundingBox::new(0, 0, 100, 50).unwrap();
    assert_eq!(Position::from(b), Position { x: 50, y: 25 });
}

#[test]
fn box_distance_uses_centroids() {
    let a = BoundingBox::new(0, 0, 100, 100).unwrap();
    let b = BoundingBox::new(100, 100, 200, 200).unwrap();
    // sqrt(100^2 + 100^2) = 141.42.., truncated
    assert_eq!(distance(&a, &b), 141);
}

fn led(color: Color, x: u32) -> Led {
    Led { bbox: BoundingBox::new(x, 0, x + 10, 10).unwrap(), color }
}

#[test]
fn find_team_boxes_picks_first_of_each_color() {
    let leds = vec![
        led(Color::Green, 0),
        led(Color::Red, 20),
        led(Color::Red, 40),
        led(Color::Blue, 60),
    ];
    let colors = TeamColors { car: Color::Red, target: Color::Blue };
    let (car, target) = find_team_boxes(&leds, &colors).unwrap();
    assert_eq!(car.x_min(), 20);
    assert_eq!(target.x_min(), 60);
}

#[test]
fn find_team_boxes_misses_absent_color() {
    let leds = vec![led(Color::Red, 0)];
    let colors = TeamColors { car: Color::Red, target: Color::Blue };
    assert!(find_team_boxes(&leds, &colors).is_none());
}

#[test]
fn approach_reports_hit_within_threshold() {
    assert_eq!(approach_hint(500, 100), Some(Hint::TargetWasHit));
}

#[test]
fn approach_reports_bad_orientation_when_not_closing_in() {
    assert_eq!(approach_hint(150, 200), Some(Hint::OrientationIsOff));
}

#[test]
fn approach_continues_while_closing_in() {
    assert_eq!(approach_hint(300, 200), None);
}

#[test]
fn idling_recalibrates_when_drifting() {
    assert!(idle_should_recalibrate(50, 60));
    assert!(idle_should_recalibrate(200, 150));
    assert!(!idle_should_recalibrate(90, 80));
}
