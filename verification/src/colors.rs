use vstd::prelude::*;
use crate::bounding_box::BoundingBox;
use crate::error::Error;
use crate::raster::{ColorImage, MetricsImage, Pixel, PixelMetrics};

verus! {

/// Raw 8-bit channel value above which a pixel counts as white regardless of
/// its hue.
pub const WHITE_BRIGHTNESS_THRESHOLD: u8 = 250;

/// The closed set of colors a detection can report. `Unknown` is a valid
/// detection category but has no reference point in color space.
#[derive(PartialEq, Clone, Copy, Eq, Hash, Debug, Structural)]
pub enum Color {
    Red,
    Blue,
    Green,
    White,
    Unknown,
}

/// The ordered reference set used for nearest-color voting: Red, then Blue,
/// then Green. White is handled by a separate whiteness test and Unknown has
/// no reference point.
pub fn colors() -> (r: Vec<Color>)
    ensures
        r@ == seq![Color::Red, Color::Blue, Color::Green],
{
    let mut v: Vec<Color> = Vec::new();
    v.push(Color::Red);
    v.push(Color::Blue);
    v.push(Color::Green);
    proof {
        assert(v@ =~= seq![Color::Red, Color::Blue, Color::Green]);
    }
    v
}

/// Whether the pixel counts as white: either the HSV test flagged it
/// (low saturation and high value), or its brightest raw channel exceeds the
/// fixed brightness threshold.
pub open spec fn spec_is_white(p: Pixel, m: PixelMetrics) -> bool {
    m.hsv_white || p.r > WHITE_BRIGHTNESS_THRESHOLD || p.g > WHITE_BRIGHTNESS_THRESHOLD || p.b
        > WHITE_BRIGHTNESS_THRESHOLD
}

/// The color a single pixel votes for: white if the whiteness test passes,
/// otherwise the reference color at the smallest squared Lab distance, ties
/// broken by the reference order Red, Blue, Green.
pub open spec fn spec_pixel_color(p: Pixel, m: PixelMetrics) -> Color {
    if spec_is_white(p, m) {
        Color::White
    } else if m.d_red <= m.d_blue && m.d_red <= m.d_green {
        Color::Red
    } else if m.d_blue <= m.d_green {
        Color::Blue
    } else {
        Color::Green
    }
}

/// Decides a single pixel's vote from its raw channels and its precomputed
/// color metrics.
pub fn pixel_color(p: Pixel, m: PixelMetrics) -> (c: Color)
    ensures
        c == spec_pixel_color(p, m),
{
    let max_channel = if p.r >= p.g && p.r >= p.b {
        p.r
    } else if p.g >= p.b {
        p.g
    } else {
        p.b
    };
    if m.hsv_white || max_channel > WHITE_BRIGHTNESS_THRESHOLD {
        Color::White
    } else if m.d_red <= m.d_blue && m.d_red <= m.d_green {
        Color::Red
    } else if m.d_blue <= m.d_green {
        Color::Blue
    } else {
        Color::Green
    }
}

/// The vote cast by the pixel at coordinate `c` of the image.
pub open spec fn vote_at(img: ColorImage, m: MetricsImage, c: (u32, u32)) -> Color {
    spec_pixel_color(img.pixel_at(c.0 as int, c.1 as int), m.cell_at(c.0 as int, c.1 as int))
}

/// How many of the coordinates vote for `color`.
pub open spec fn vote_count(
    img: ColorImage,
    m: MetricsImage,
    coords: Seq<(u32, u32)>,
    color: Color,
) -> nat
    decreases coords.len(),
{
    if coords.len() == 0 {
        0
    } else {
        vote_count(img, m, coords.drop_last(), color) + if vote_at(img, m, coords.last())
            == color {
            1nat
        } else {
            0nat
        }
    }
}

/// The color with the highest vote count. Ties resolve to the earliest
/// color in the fixed scan order Red, Blue, Green, White; the aggregation
/// order is fixed deliberately so that tie-breaking is deterministic.
pub open spec fn spec_winner(cr: nat, cb: nat, cg: nat, cw: nat) -> Color {
    if cr >= cb && cr >= cg && cr >= cw {
        Color::Red
    } else if cb >= cg && cb >= cw {
        Color::Blue
    } else if cg >= cw {
        Color::Green
    } else {
        Color::White
    }
}

/// The color of a box: the winner of the per-pixel vote over the box's
/// iterated coordinates.
pub open spec fn spec_detect_color(img: ColorImage, m: MetricsImage, b: BoundingBox) -> Color {
    spec_winner(
        vote_count(img, m, b.coords(), Color::Red),
        vote_count(img, m, b.coords(), Color::Blue),
        vote_count(img, m, b.coords(), Color::Green),
        vote_count(img, m, b.coords(), Color::White),
    )
}

/// Classifies the candidate box on the resized color image: every pixel of
/// the box votes independently (white test first, then nearest reference
/// color in Lab space), and the box's color is the one with the highest
/// count, ties resolving to the earliest color in the order Red, Blue,
/// Green, White. A box with zero iterated pixels yields
/// [`Error::EmptyRegion`].
pub fn detect_color(img: &ColorImage, metrics: &MetricsImage, bbox: &BoundingBox) -> (r: Result<
    Color,
    Error,
>)
    requires
        img.wf(),
        metrics.wf(),
        metrics.width == img.width,
        metrics.height == img.height,
        bbox.wf(),
        bbox.x_max <= img.width,
        bbox.y_max <= img.height,
    ensures
        bbox.coords().len() == 0 ==> r == Err::<Color, Error>(Error::EmptyRegion),
        bbox.coords().len() > 0 ==> r == Ok::<Color, Error>(
            spec_detect_color(*img, *metrics, *bbox),
        ),
        r matches Ok(c) ==> c != Color::Unknown,
{
    let coords = bbox.iter();
    let n: usize = coords.len();
    if n == 0 {
        return Err(Error::EmptyRegion);
    }
    let mut cr: usize = 0;
    let mut cb: usize = 0;
    let mut cg: usize = 0;
    let mut cw: usize = 0;
    let mut i: usize = 0;
    while i < n
        invariant
            img.wf(),
            metrics.wf(),
            metrics.width == img.width,
            metrics.height == img.height,
            bbox.wf(),
            bbox.x_max <= img.width,
            bbox.y_max <= img.height,
            coords@ == bbox.coords(),
            n == coords@.len(),
            i <= n,
            cr <= i && cb <= i && cg <= i && cw <= i,
            cr == vote_count(*img, *metrics, coords@.take(i as int), Color::Red),
            cb == vote_count(*img, *metrics, coords@.take(i as int), Color::Blue),
            cg == vote_count(*img, *metrics, coords@.take(i as int), Color::Green),
            cw == vote_count(*img, *metrics, coords@.take(i as int), Color::White),
        decreases n - i,
    {
        proof {
            bbox.lemma_coords_in_box(i as int);
        }
        let c = coords[i];
        let p = img.get(c.0, c.1);
        let m = metrics.get(c.0, c.1);
        let v = pixel_color(p, m);
        proof {
            assert(coords@.take(i + 1).drop_last() =~= coords@.take(i as int));
            assert(coords@.take(i + 1).last() == c);
            assert(vote_at(*img, *metrics, c) == v);
        }
        match v {
            Color::Red => {
                cr = cr + 1;
            },
            Color::Blue => {
                cb = cb + 1;
            },
            Color::Green => {
                cg = cg + 1;
            },
            Color::White => {
                cw = cw + 1;
            },
            Color::Unknown => {
                proof {
                    assert(false);
                }
            },
        }
        i = i + 1;
    }
    proof {
        assert(coords@.take(n as int) =~= coords@);
    }
    if cr >= cb && cr >= cg && cr >= cw {
        Ok(Color::Red)
    } else if cb >= cg && cb >= cw {
        Ok(Color::Blue)
    } else if cg >= cw {
        Ok(Color::Green)
    } else {
        Ok(Color::White)
    }
}

} // verus!
