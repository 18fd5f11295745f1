use vstd::prelude::*;
use crate::error::Error;
use crate::led_detector::LedDetectionConfig;
use crate::raster::{ColorImage, GrayImage, Pixel, to_bytes, from_bytes};
use image::imageops::FilterType;

verus! {

/// The filter kernel used for the resize step.
#[derive(Debug, Clone, Copy, PartialEq, Eq, Structural)]
pub enum FilterKind {
    Nearest,
    Triangle,
    CatmullRom,
    Gaussian,
    Lanczos3,
}

/// What `DynamicImage::resize` returns for a given raster and target size:
/// the resized width, height, and pixel rows. The result depends only on the
/// arguments; its exact value is not axiomatized here.
pub uninterp spec fn resized_frame(
    pixels: Seq<Pixel>,
    w: int,
    h: int,
    target_w: int,
    target_h: int,
    kind: FilterKind,
) -> (int, int, Seq<Pixel>);

/// What `DynamicImage::blur` returns for a given raster and blur radius.
/// The result depends only on the arguments; its exact value is not
/// axiomatized here. Two caveats of the underlying crate: it treats a radius
/// of zero as one, so the values of this function at radii 0 and 1
/// coincide, and its floating-point kernels fix the result only per build
/// of the library.
pub uninterp spec fn blurred_pixels(pixels: Seq<Pixel>, w: int, h: int, radius: int) -> Seq<Pixel>;

/// Relies on image's `DynamicImage::resize`: scales the frame to fit within
/// the target size, keeping aspect ratio; the result's dimensions are at
/// least one and at most the respective targets.
#[verifier::external_body]
fn resize_raster(img: &ColorImage, target_w: u32, target_h: u32, kind: FilterKind) -> (r:
    ColorImage)
    requires
        img.wf(),
        img.width >= 1,
        img.height >= 1,
        target_w >= 1,
        target_h >= 1,
    ensures
        r.wf(),
        1 <= r.width <= target_w,
        1 <= r.height <= target_h,
        r.width as int == resized_frame(
            img.pixels@,
            img.width as int,
            img.height as int,
            target_w as int,
            target_h as int,
            kind,
        ).0,
        r.height as int == resized_frame(
            img.pixels@,
            img.width as int,
            img.height as int,
            target_w as int,
            target_h as int,
            kind,
        ).1,
        r.pixels@ == resized_frame(
            img.pixels@,
            img.width as int,
            img.height as int,
            target_w as int,
            target_h as int,
            kind,
        ).2,
{
    let filter = match kind {
        FilterKind::Nearest => FilterType::Nearest,
        FilterKind::Triangle => FilterType::Triangle,
        FilterKind::CatmullRom => FilterType::CatmullRom,
        FilterKind::Gaussian => FilterType::Gaussian,
        FilterKind::Lanczos3 => FilterType::Lanczos3,
    };
    let buf = image::RgbaImage::from_raw(img.width, img.height, to_bytes(img)).unwrap();
    let out = image::DynamicImage::ImageRgba8(buf).resize(target_w, target_h, filter).into_rgba8();
    let (w, h) = out.dimensions();
    from_bytes(w, h, &out.into_raw())
}

/// Relies on image's `DynamicImage::blur`: a Gaussian blur that keeps the
/// image's dimensions.
#[verifier::external_body]
fn blur_raster(img: &ColorImage, radius: u16) -> (r: ColorImage)
    requires
        img.wf(),
    ensures
        r.wf(),
        r.width == img.width,
        r.height == img.height,
        r.pixels@ == blurred_pixels(img.pixels@, img.width as int, img.height as int, radius as int),
{
    let buf = image::RgbaImage::from_raw(img.width, img.height, to_bytes(img)).unwrap();
    let out = image::DynamicImage::ImageRgba8(buf).blur(radius.into()).into_rgba8();
    from_bytes(img.width, img.height, &out.into_raw())
}

/// Subtraction clamped at zero.
pub open spec fn sat_sub(a: u8, b: u8) -> u8 {
    if a >= b {
        (a - b) as u8
    } else {
        0
    }
}

/// Channel-wise clamped subtraction of two pixels, with the alpha channel
/// forced fully opaque.
pub open spec fn subtracted_pixel(p: Pixel, q: Pixel) -> Pixel {
    Pixel { r: sat_sub(p.r, q.r), g: sat_sub(p.g, q.g), b: sat_sub(p.b, q.b), a: 255 }
}

/// The intensity of a pixel: the fixed-weight sRGB luma used by 8-bit
/// grayscale conversion, `(2126 r + 7152 g + 722 b) / 10000`.
pub open spec fn luma_of(p: Pixel) -> int {
    (2126 * p.r + 7152 * p.g + 722 * p.b) / 10000
}

/// A mask sample: foreground (bright) is encoded as the minimum channel
/// value 0, background as the maximum value 255. A pixel is foreground when
/// its intensity strictly exceeds the threshold.
pub open spec fn threshold_of(p: Pixel, t: u8) -> u8 {
    if luma_of(p) > t {
        0
    } else {
        255
    }
}

/// The band-pass response at index `i`: the blur at the first radius minus
/// the blur at the second, clamped at zero.
pub open spec fn dog_pixel(p: Seq<Pixel>, w: int, h: int, r1: int, r2: int, i: int) -> Pixel {
    subtracted_pixel(
        blurred_pixels(p, w, h, r1)[i],
        blurred_pixels(p, w, h, r2)[i],
    )
}

fn sat_sub_u8(a: u8, b: u8) -> (r: u8)
    ensures
        r == sat_sub(a, b),
{
    if a >= b {
        a - b
    } else {
        0
    }
}

/// Channel-wise clamped subtraction of two rasters of identical dimensions;
/// differing dimensions are rejected.
pub fn subtract(img1: &ColorImage, img2: &ColorImage) -> (r: Result<ColorImage, Error>)
    requires
        img1.wf(),
        img2.wf(),
    ensures
        img1.width == img2.width && img1.height == img2.height ==> (r matches Ok(out)
            && out.wf() && out.width == img1.width && out.height == img1.height
            && out.pixels@.len() == img1.pixels@.len() && (forall|i: int|
            0 <= i < out.pixels@.len() ==> out.pixels@[i] == subtracted_pixel(
                img1.pixels@[i],
                img2.pixels@[i],
            ))),
        !(img1.width == img2.width && img1.height == img2.height) ==> r == Err::<
            ColorImage,
            Error,
        >(Error::DimensionMismatch),
{
    if img1.width != img2.width || img1.height != img2.height {
        return Err(Error::DimensionMismatch);
    }
    let n: usize = img1.pixels.len();
    let n2: usize = img2.pixels.len();
    let mut pixels: Vec<Pixel> = Vec::new();
    let mut i: usize = 0;
    while i < n
        invariant
            n == img1.pixels@.len(),
            n == img2.pixels@.len(),
            i <= n,
            pixels@.len() == i,
            forall|k: int|
                0 <= k < i ==> pixels@[k] == subtracted_pixel(img1.pixels@[k], img2.pixels@[k]),
        decreases n - i,
    {
        let p = img1.pixels[i];
        let q = img2.pixels[i];
        pixels.push(
            Pixel {
                r: sat_sub_u8(p.r, q.r),
                g: sat_sub_u8(p.g, q.g),
                b: sat_sub_u8(p.b, q.b),
                a: 255,
            },
        );
        i = i + 1;
    }
    Ok(ColorImage { width: img1.width, height: img1.height, pixels })
}

/// The fixed-weight intensity of a pixel.
fn luma(p: Pixel) -> (r: u8)
    ensures
        r == luma_of(p),
{
    ((2126 * (p.r as u32) + 7152 * (p.g as u32) + 722 * (p.b as u32)) / 10000) as u8
}

/// Converts a color raster to a binary mask: pixels whose intensity exceeds
/// the threshold become foreground (0), all others background (255).
pub fn threshold(img: &ColorImage, threshold_value: u8) -> (r: GrayImage)
    requires
        img.wf(),
    ensures
        r.wf(),
        r.width == img.width,
        r.height == img.height,
        r.pixels@.len() == img.pixels@.len(),
        forall|i: int|
            0 <= i < r.pixels@.len() ==> r.pixels@[i] == threshold_of(img.pixels@[i], threshold_value),
{
    let n: usize = img.pixels.len();
    let mut pixels: Vec<u8> = Vec::new();
    let mut i: usize = 0;
    while i < n
        invariant
            n == img.pixels@.len(),
            i <= n,
            pixels@.len() == i,
            forall|k: int|
                0 <= k < i ==> pixels@[k] == threshold_of(img.pixels@[k], threshold_value),
        decreases n - i,
    {
        let l = luma(img.pixels[i]);
        if l > threshold_value {
            pixels.push(0);
        } else {
            pixels.push(255);
        }
        i = i + 1;
    }
    GrayImage { width: img.width, height: img.height, pixels }
}

/// Blurs the raster at both radii and subtracts the second blur from the
/// first, channel-wise and clamped at zero: a band-pass filter that
/// highlights blobs at a spatial scale between the radii. The blurs keep the
/// dimensions, so the subtraction cannot fail.
pub fn difference_of_gaussians(img: &ColorImage, radius1: u16, radius2: u16) -> (r: Result<
    ColorImage,
    Error,
>)
    requires
        img.wf(),
    ensures
        r matches Ok(out) && out.wf() && out.width == img.width && out.height == img.height
            && out.pixels@.len() == img.pixels@.len() && (forall|i: int|
            0 <= i < out.pixels@.len() ==> out.pixels@[i] == dog_pixel(
                img.pixels@,
                img.width as int,
                img.height as int,
                radius1 as int,
                radius2 as int,
                i,
            )),
{
    let b1 = blur_raster(img, radius1);
    let b2 = blur_raster(img, radius2);
    subtract(&b1, &b2)
}

/// The preprocessing result: the binary bright-area mask, and the resized
/// color frame it was computed from.
#[derive(Debug, Clone)]
pub struct BrightArea {
    pub thresholded: GrayImage,
    pub resized: ColorImage,
}

/// Resizes the frame to the configured size, computes the
/// difference-of-Gaussians response at the two configured radii, and
/// thresholds it into a binary bright-area mask. The mask and the resized
/// frame share dimensions.
pub fn extract_bright_areas(image: &ColorImage, config: &LedDetectionConfig) -> (r: Result<
    BrightArea,
    Error,
>)
    requires
        image.wf(),
        image.width >= 1,
        image.height >= 1,
        config.width >= 1,
        config.height >= 1,
    ensures
        r matches Ok(ba) && ({
            let t = resized_frame(
                image.pixels@,
                image.width as int,
                image.height as int,
                config.width as int,
                config.height as int,
                config.filter,
            );
            &&& ba.resized.wf()
            &&& ba.resized.width as int == t.0
            &&& ba.resized.height as int == t.1
            &&& ba.resized.pixels@ == t.2
            &&& 1 <= ba.resized.width <= config.width
            &&& 1 <= ba.resized.height <= config.height
            &&& ba.thresholded.wf()
            &&& ba.thresholded.width == ba.resized.width
            &&& ba.thresholded.height == ba.resized.height
            &&& forall|i: int|
                0 <= i < ba.thresholded.pixels@.len() ==> ba.thresholded.pixels@[i] == threshold_of(
                    dog_pixel(
                        ba.resized.pixels@,
                        ba.resized.width as int,
                        ba.resized.height as int,
                        config.radius_1 as int,
                        config.radius_2 as int,
                        i,
                    ),
                    config.threshold_value,
                )
        }),
{
    let resized = resize_raster(image, config.width, config.height, config.filter);
    let bright_areas = match difference_of_gaussians(&resized, config.radius_1, config.radius_2) {
        Ok(d) => d,
        Err(e) => {
            return Err(e);
        },
    };
    let thresholded = threshold(&bright_areas, config.threshold_value);
    Ok(BrightArea { thresholded, resized })
}

/// With equal blur radii the band-pass response subtracts a blurred pixel
/// from itself, so every mask sample is background.
pub proof fn lemma_equal_radii_background(p: Seq<Pixel>, w: int, h: int, radius: int, t: u8, i: int)
    ensures
        threshold_of(dog_pixel(p, w, h, radius, radius, i), t) == 255,
{
    let b = blurred_pixels(p, w, h, radius)[i];
    assert(subtracted_pixel(b, b) == (Pixel { r: 0u8, g: 0u8, b: 0u8, a: 255u8 }));
    assert(luma_of(Pixel { r: 0u8, g: 0u8, b: 0u8, a: 255u8 }) == 0);
}

} // verus!
