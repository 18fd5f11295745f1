use vstd::prelude::*;
use crate::bounding_box::BoundingBox;
use crate::colors::Color;
use crate::led_detector::Led;

verus! {

/// Holds your team's car and target color.
#[derive(Debug, Clone, Copy, PartialEq, Eq, Structural)]
pub struct TeamColors {
    /// The color of the car.
    pub car: Color,
    /// The color of the target.
    pub target: Color,
}

/// A hint given to you by the approach routine.
#[derive(Debug, Clone, Copy, PartialEq, Eq, Structural)]
pub enum Hint {
    /// Indicates that we are not on track anymore and we should repair the
    /// orientation.
    OrientationIsOff,
    /// Indicates that the target was hit and we are in reasonable proximity.
    TargetWasHit,
}

/// Distance at or below which the car counts as being on the target.
pub const SUCCESS_THRESHOLD: u32 = 100;

/// Some detection in the list has this color.
pub open spec fn has_color(leds: Seq<Led>, c: Color) -> bool {
    exists|i: int| 0 <= i < leds.len() && leds[i].color == c
}

/// `leds[i]` is the first detection of color `c`.
pub open spec fn first_of_color(leds: Seq<Led>, c: Color, i: int) -> bool {
    &&& 0 <= i < leds.len()
    &&& leds[i].color == c
    &&& forall|j: int| 0 <= j < i ==> leds[j].color != c
}

/// Picks the boxes of the first detection of the car color and the first of
/// the target color, or nothing if either color is missing from the list.
pub fn find_team_boxes(leds: &Vec<Led>, colors: &TeamColors) -> (r: Option<(
    BoundingBox,
    BoundingBox,
)>)
    ensures
        r is Some <==> has_color(leds@, colors.car) && has_color(leds@, colors.target),
        r matches Some(p) ==> exists|i: int|
            #[trigger] first_of_color(leds@, colors.car, i) && p.0 == leds@[i].bbox,
        r matches Some(p) ==> exists|i: int|
            #[trigger] first_of_color(leds@, colors.target, i) && p.1 == leds@[i].bbox,
{
    let car = find_first_of_color(leds, colors.car);
    let target = find_first_of_color(leds, colors.target);
    match (car, target) {
        (Some(c), Some(t)) => Some((c, t)),
        _ => None,
    }
}

/// The box of the first detection with the given color.
fn find_first_of_color(leds: &Vec<Led>, c: Color) -> (r: Option<BoundingBox>)
    ensures
        r is Some <==> has_color(leds@, c),
        r matches Some(b) ==> exists|i: int| #[trigger] first_of_color(leds@, c, i) && b
            == leds@[i].bbox,
{
    let n: usize = leds.len();
    let mut i: usize = 0;
    while i < n
        invariant
            n == leds@.len(),
            i <= n,
            forall|j: int| 0 <= j < i ==> leds@[j].color != c,
        decreases n - i,
    {
        if leds[i].color == c {
            proof {
                assert(first_of_color(leds@, c, i as int));
            }
            return Some(leds[i].bbox);
        }
        i = i + 1;
    }
    None
}

/// One approach step's verdict from the distances measured before and after
/// a forward move: the target counts as hit at or below the success
/// threshold; failing that, not having come closer means the orientation is
/// off; otherwise the approach continues.
pub fn approach_hint(pre: u32, current: u32) -> (r: Option<Hint>)
    ensures
        current <= SUCCESS_THRESHOLD ==> r == Some(Hint::TargetWasHit),
        current > SUCCESS_THRESHOLD && pre <= current ==> r == Some(Hint::OrientationIsOff),
        current > SUCCESS_THRESHOLD && pre > current ==> r == None::<Hint>,
{
    if current <= SUCCESS_THRESHOLD {
        Some(Hint::TargetWasHit)
    } else if pre <= current {
        Some(Hint::OrientationIsOff)
    } else {
        None
    }
}

/// One idle step's verdict from the distances measured across a pause: the
/// idle loop hands control back as soon as the car stopped getting closer or
/// drifted off the target.
pub fn idle_should_recalibrate(pre: u32, current: u32) -> (r: bool)
    ensures
        r <==> (pre <= current || current > SUCCESS_THRESHOLD),
{
    pre <= current || current > SUCCESS_THRESHOLD
}

} // verus!
