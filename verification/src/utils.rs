use vstd::prelude::*;
use crate::bounding_box::BoundingBox;
use crate::colors::Color;
use crate::error::Error;
use crate::led_detector::Led;
use crate::math::{scale_round, lemma_scale_round_range, lemma_scale_round_ordered};
use crate::raster::{ColorImage, Pixel, lemma_row_major_index, lemma_row_major_injective};

verus! {

/// The box `b`, with every coordinate scaled from `resized`-space to
/// `original`-space and rounded to the nearest integer, each axis
/// independently.
pub open spec fn scaled_box(b: BoundingBox, original: (u32, u32), resized: (u32, u32)) -> BoundingBox {
    BoundingBox {
        x_min: scale_round(b.x_min as int, original.0 as int, resized.0 as int) as u32,
        y_min: scale_round(b.y_min as int, original.1 as int, resized.1 as int) as u32,
        x_max: scale_round(b.x_max as int, original.0 as int, resized.0 as int) as u32,
        y_max: scale_round(b.y_max as int, original.1 as int, resized.1 as int) as u32,
    }
}

/// `v * num / den`, rounded to the nearest integer.
fn scale_coord(v: u32, num: u32, den: u32) -> (r: u32)
    requires
        den >= 1,
        v <= den,
    ensures
        r == scale_round(v as int, num as int, den as int),
        r <= num,
{
    proof {
        vstd::arithmetic::mul::lemma_mul_upper_bound(
            2 * (v as int),
            0x1_ffff_fffe,
            num as int,
            0xffff_ffff,
        );
        lemma_scale_round_range(v as int, num as int, den as int);
    }
    let q: u128 = (2 * (v as u128) * (num as u128) + (den as u128)) / (2 * (den as u128));
    q as u32
}

/// Maps a box expressed in resized-image coordinates back to the original
/// image's coordinate space: each bound is scaled by `original / resized` on
/// its axis and rounded to the nearest integer. Scaling is monotone, so a
/// valid box always maps to a valid box and the result is always `Ok`.
pub fn bbox_resize(bbox: &BoundingBox, original_size: &(u32, u32), resized_size: &(u32, u32)) -> (r:
    Result<BoundingBox, Error>)
    requires
        bbox.wf(),
        resized_size.0 >= 1,
        resized_size.1 >= 1,
        bbox.x_max <= resized_size.0,
        bbox.y_max <= resized_size.1,
    ensures
        r == Ok::<BoundingBox, Error>(scaled_box(*bbox, *original_size, *resized_size)),
{
    let x_min = scale_coord(bbox.x_min, original_size.0, resized_size.0);
    let y_min = scale_coord(bbox.y_min, original_size.1, resized_size.1);
    let x_max = scale_coord(bbox.x_max, original_size.0, resized_size.0);
    let y_max = scale_coord(bbox.y_max, original_size.1, resized_size.1);
    proof {
        lemma_scale_round_ordered(
            bbox.x_min as int,
            bbox.x_max as int,
            original_size.0 as int,
            resized_size.0 as int,
        );
        lemma_scale_round_ordered(
            bbox.y_min as int,
            bbox.y_max as int,
            original_size.1 as int,
            resized_size.1 as int,
        );
    }
    BoundingBox::new(x_min, y_min, x_max, y_max)
}

/// Scaling a box up to a larger space and back moves each coordinate by at
/// most one pixel: the round trip stays within rounding tolerance.
pub proof fn lemma_bbox_resize_round_trip(b: BoundingBox, d1: (u32, u32), d2: (u32, u32))
    requires
        b.wf(),
        1 <= d1.0 <= d2.0,
        1 <= d1.1 <= d2.1,
        b.x_max <= d1.0,
        b.y_max <= d1.1,
    ensures
        scaled_box(scaled_box(b, d2, d1), d1, d2).x_min - b.x_min <= 1,
        b.x_min - scaled_box(scaled_box(b, d2, d1), d1, d2).x_min <= 1,
        scaled_box(scaled_box(b, d2, d1), d1, d2).y_min - b.y_min <= 1,
        b.y_min - scaled_box(scaled_box(b, d2, d1), d1, d2).y_min <= 1,
        scaled_box(scaled_box(b, d2, d1), d1, d2).x_max - b.x_max <= 1,
        b.x_max - scaled_box(scaled_box(b, d2, d1), d1, d2).x_max <= 1,
        scaled_box(scaled_box(b, d2, d1), d1, d2).y_max - b.y_max <= 1,
        b.y_max - scaled_box(scaled_box(b, d2, d1), d1, d2).y_max <= 1,
{
    crate::math::lemma_scale_round_trip(b.x_min as int, d1.0 as int, d2.0 as int);
    crate::math::lemma_scale_round_trip(b.y_min as int, d1.1 as int, d2.1 as int);
    crate::math::lemma_scale_round_trip(b.x_max as int, d1.0 as int, d2.0 as int);
    crate::math::lemma_scale_round_trip(b.y_max as int, d1.1 as int, d2.1 as int);
    crate::math::lemma_scale_round_range(b.x_min as int, d2.0 as int, d1.0 as int);
    crate::math::lemma_scale_round_range(b.y_min as int, d2.1 as int, d1.1 as int);
    crate::math::lemma_scale_round_range(b.x_max as int, d2.0 as int, d1.0 as int);
    crate::math::lemma_scale_round_range(b.y_max as int, d2.1 as int, d1.1 as int);
    crate::math::lemma_scale_round_range(
        scale_round(b.x_min as int, d2.0 as int, d1.0 as int),
        d1.0 as int,
        d2.0 as int,
    );
    crate::math::lemma_scale_round_range(
        scale_round(b.y_min as int, d2.1 as int, d1.1 as int),
        d1.1 as int,
        d2.1 as int,
    );
    crate::math::lemma_scale_round_range(
        scale_round(b.x_max as int, d2.0 as int, d1.0 as int),
        d1.0 as int,
        d2.0 as int,
    );
    crate::math::lemma_scale_round_range(
        scale_round(b.y_max as int, d2.1 as int, d1.1 as int),
        d1.1 as int,
        d2.1 as int,
    );
}

/// Whether `(x, y)` lies on the border painted when drawing the box: the
/// top and bottom rows are painted only when the box has positive width,
/// the left and right columns only when it has positive height. A
/// single-pixel box paints nothing.
pub open spec fn on_border(b: BoundingBox, x: int, y: int) -> bool {
    (b.x_max > b.x_min && (y == b.y_min || y == b.y_max) && b.x_min <= x <= b.x_max) || (b.y_max
        > b.y_min && (x == b.x_min || x == b.x_max) && b.y_min <= y <= b.y_max)
}

/// Some box of the first `k` has `(x, y)` on its border.
pub open spec fn any_border(boxes: Seq<BoundingBox>, k: int, x: int, y: int) -> bool {
    exists|j: int| 0 <= j < k && #[trigger] on_border(boxes[j], x, y)
}

/// Sets one pixel, stated pointwise over coordinates.
fn paint(img: &mut ColorImage, x: u32, y: u32, c: Pixel)
    requires
        old(img).wf(),
        x < old(img).width,
        y < old(img).height,
    ensures
        final(img).wf(),
        final(img).width == old(img).width,
        final(img).height == old(img).height,
        forall|a: int, b: int|
            0 <= a < old(img).width && 0 <= b < old(img).height ==> #[trigger] final(img).pixel_at(a, b) == (if a == x && b == y {
                c
            } else {
                old(img).pixel_at(a, b)
            }),
{
    let ghost img0 = *img;
    img.set(x, y, c);
    proof {
        assert forall|a: int, b: int| 0 <= a < img0.width && 0 <= b < img0.height implies #[trigger] img.pixel_at(
            a,
            b,
        ) == (if a == x && b == y {
            c
        } else {
            img0.pixel_at(a, b)
        }) by {
            lemma_row_major_index(a, b, img0.width as int, img0.height as int);
            lemma_row_major_index(x as int, y as int, img0.width as int, img0.height as int);
            if b * img0.width + a == y * img0.width + x {
                lemma_row_major_injective(a, b, x as int, y as int, img0.width as int);
            }
        }
    }
}

/// Draws the box's outline onto the image in the given color: the top and
/// bottom rows across the box's full width, and the left and right columns
/// across its full height. Every other pixel is left unchanged.
pub fn draw_bounding_box(img: &mut ColorImage, bbox: BoundingBox, border_color: Pixel)
    requires
        old(img).wf(),
        bbox.wf(),
        bbox.x_max < old(img).width,
        bbox.y_max < old(img).height,
    ensures
        final(img).wf(),
        final(img).width == old(img).width,
        final(img).height == old(img).height,
        forall|a: int, b: int|
            0 <= a < old(img).width && 0 <= b < old(img).height ==> #[trigger] final(img).pixel_at(a, b) == (if on_border(bbox, a, b) {
                border_color
            } else {
                old(img).pixel_at(a, b)
            }),
{
    let ghost img0 = *img;
    if bbox.x_max > bbox.x_min {
        let mut x: u32 = bbox.x_min;
        while x <= bbox.x_max
            invariant
                img.wf(),
                img.width == img0.width,
                img.height == img0.height,
                img0.wf(),
                bbox.wf(),
                bbox.x_max < img0.width,
                bbox.y_max < img0.height,
                bbox.x_max > bbox.x_min,
                bbox.x_min <= x <= bbox.x_max + 1,
                forall|a: int, b: int|
                    0 <= a < img0.width && 0 <= b < img0.height ==> #[trigger] img.pixel_at(a, b)
                        == (if (b == bbox.y_min || b == bbox.y_max) && bbox.x_min <= a < x {
                        border_color
                    } else {
                        img0.pixel_at(a, b)
                    }),
            decreases bbox.x_max + 1 - x,
        {
            paint(img, x, bbox.y_min, border_color);
            paint(img, x, bbox.y_max, border_color);
            x = x + 1;
        }
    }
    let ghost img1 = *img;
    if bbox.y_max > bbox.y_min {
        let mut y: u32 = bbox.y_min;
        while y <= bbox.y_max
            invariant
                img.wf(),
                img.width == img0.width,
                img.height == img0.height,
                img0.wf(),
                bbox.wf(),
                bbox.x_max < img0.width,
                bbox.y_max < img0.height,
                bbox.y_max > bbox.y_min,
                bbox.y_min <= y <= bbox.y_max + 1,
                forall|a: int, b: int|
                    0 <= a < img0.width && 0 <= b < img0.height ==> #[trigger] img.pixel_at(a, b)
                        == (if (a == bbox.x_min || a == bbox.x_max) && bbox.y_min <= b < y {
                        border_color
                    } else {
                        img1.pixel_at(a, b)
                    }),
                forall|a: int, b: int|
                    0 <= a < img0.width && 0 <= b < img0.height ==> #[trigger] img1.pixel_at(a, b)
                        == (if bbox.x_max > bbox.x_min && (b == bbox.y_min || b == bbox.y_max)
                        && bbox.x_min <= a <= bbox.x_max {
                        border_color
                    } else {
                        img0.pixel_at(a, b)
                    }),
            decreases bbox.y_max + 1 - y,
        {
            paint(img, bbox.x_min, y, border_color);
            paint(img, bbox.x_max, y, border_color);
            y = y + 1;
        }
    }
}

/// Draws every box of the list onto the image in the given color; pixels on
/// no box's border are left unchanged.
pub fn draw_bounding_boxes(img: &mut ColorImage, bboxes: Vec<BoundingBox>, border_color: Pixel)
    requires
        old(img).wf(),
        forall|i: int|
            0 <= i < bboxes@.len() ==> (#[trigger] bboxes@[i]).wf() && bboxes@[i].x_max < old(
                img,
            ).width && bboxes@[i].y_max < old(img).height,
    ensures
        final(img).wf(),
        final(img).width == old(img).width,
        final(img).height == old(img).height,
        forall|a: int, b: int|
            0 <= a < old(img).width && 0 <= b < old(img).height ==> #[trigger] final(img).pixel_at(a, b) == (if any_border(bboxes@, bboxes@.len() as int, a, b) {
                border_color
            } else {
                old(img).pixel_at(a, b)
            }),
{
    let ghost img0 = *img;
    let n: usize = bboxes.len();
    let mut i: usize = 0;
    while i < n
        invariant
            img.wf(),
            img.width == img0.width,
            img.height == img0.height,
            img0.wf(),
            n == bboxes@.len(),
            i <= n,
            forall|k: int|
                0 <= k < n ==> (#[trigger] bboxes@[k]).wf() && bboxes@[k].x_max < img0.width
                    && bboxes@[k].y_max < img0.height,
            forall|a: int, b: int|
                0 <= a < img0.width && 0 <= b < img0.height ==> #[trigger] img.pixel_at(a, b) == (
                if any_border(bboxes@, i as int, a, b) {
                    border_color
                } else {
                    img0.pixel_at(a, b)
                }),
        decreases n - i,
    {
        let ghost prev = *img;
        draw_bounding_box(img, bboxes[i], border_color);
        proof {
            assert forall|a: int, b: int| 0 <= a < img0.width && 0 <= b < img0.height implies #[trigger] img.pixel_at(
                a,
                b,
            ) == (if any_border(bboxes@, i + 1, a, b) {
                border_color
            } else {
                img0.pixel_at(a, b)
            }) by {
                if on_border(bboxes@[i as int], a, b) {
                    assert(any_border(bboxes@, i + 1, a, b));
                } else if any_border(bboxes@, i as int, a, b) {
                    let j = choose|j: int| 0 <= j < i && #[trigger] on_border(bboxes@[j], a, b);
                    assert(any_border(bboxes@, i + 1, a, b));
                } else {
                    assert(!any_border(bboxes@, i + 1, a, b));
                }
            }
        }
        i = i + 1;
    }
}

/// Draws the LED's box onto the image in the color that was detected for
/// it. Only the three reference colors can be drawn; a white or unknown LED
/// is rejected and the image is left unchanged.
pub fn draw_on_image(image: &mut ColorImage, led: Led) -> (r: Result<(), Error>)
    requires
        old(image).wf(),
        led.bbox.wf(),
        led.bbox.x_max < old(image).width,
        led.bbox.y_max < old(image).height,
    ensures
        final(image).wf(),
        final(image).width == old(image).width,
        final(image).height == old(image).height,
        led.color == Color::Red || led.color == Color::Green || led.color == Color::Blue ==> r
            == Ok::<(), Error>(()),
        !(led.color == Color::Red || led.color == Color::Green || led.color == Color::Blue) ==> r
            == Err::<(), Error>(Error::UnsupportedColor) && *final(image) == *old(image),
        r is Ok ==> forall|a: int, b: int|
            0 <= a < old(image).width && 0 <= b < old(image).height ==> #[trigger] final(image).pixel_at(a, b) == (if on_border(led.bbox, a, b) {
                border_pixel_of(led.color)
            } else {
                old(image).pixel_at(a, b)
            }),
{
    let color = match led.color {
        Color::Red => (Pixel { r: 255, g: 0, b: 0, a: 255 }),
        Color::Green => (Pixel { r: 0, g: 255, b: 0, a: 255 }),
        Color::Blue => (Pixel { r: 0, g: 0, b: 255, a: 255 }),
        _ => {
            return Err(Error::UnsupportedColor);
        },
    };
    draw_bounding_box(image, led.bbox, color);
    Ok(())
}

/// The overlay color used to draw an LED of the given reference color.
pub open spec fn border_pixel_of(c: Color) -> Pixel {
    match c {
        Color::Red => Pixel { r: 255, g: 0, b: 0, a: 255 },
        Color::Green => Pixel { r: 0, g: 255, b: 0, a: 255 },
        Color::Blue => Pixel { r: 0, g: 0, b: 255, a: 255 },
        _ => Pixel { r: 255, g: 255, b: 255, a: 255 },
    }
}

} // verus!
