use vstd::prelude::*;

verus! {

/// One RGBA pixel, eight bits per channel.
#[derive(Debug, Clone, Copy, PartialEq, Eq, Structural)]
pub struct Pixel {
    pub r: u8,
    pub g: u8,
    pub b: u8,
    pub a: u8,
}

/// A row-major index is in range whenever the coordinates are.
pub proof fn lemma_row_major_index(x: int, y: int, w: int, h: int)
    requires
        0 <= x < w,
        0 <= y < h,
    ensures
        0 <= y * w + x < w * h,
{
    assert(y * w + x < w * h) by (nonlinear_arith)
        requires
            0 <= x < w,
            0 <= y < h,
    ;
    assert(0 <= y * w) by (nonlinear_arith)
        requires
            0 <= y,
            0 <= w,
    ;
}

/// Distinct coordinates have distinct row-major indices.
pub proof fn lemma_row_major_injective(x1: int, y1: int, x2: int, y2: int, w: int)
    requires
        0 <= x1 < w,
        0 <= x2 < w,
        0 <= y1,
        0 <= y2,
        y1 * w + x1 == y2 * w + x2,
    ensures
        x1 == x2,
        y1 == y2,
{
    vstd::arithmetic::div_mod::lemma_fundamental_div_mod_converse(y1 * w + x1, w, y1, x1);
    vstd::arithmetic::div_mod::lemma_fundamental_div_mod_converse(y2 * w + x2, w, y2, x2);
}

/// An RGBA raster stored row-major: the pixel at `(x, y)` sits at index
/// `y * width + x`.
#[derive(Debug, Clone)]
pub struct ColorImage {
    pub width: u32,
    pub height: u32,
    pub pixels: Vec<Pixel>,
}

impl ColorImage {
    /// The storage holds exactly one pixel per coordinate.
    pub open spec fn wf(self) -> bool {
        self.pixels@.len() == (self.width as int) * (self.height as int)
    }

    /// The pixel at `(x, y)`.
    pub open spec fn pixel_at(self, x: int, y: int) -> Pixel {
        self.pixels@[y * self.width + x]
    }

    pub fn get(&self, x: u32, y: u32) -> (r: Pixel)
        requires
            self.wf(),
            x < self.width,
            y < self.height,
        ensures
            r == self.pixel_at(x as int, y as int),
    {
        proof {
            lemma_row_major_index(x as int, y as int, self.width as int, self.height as int);
        }
        let len: usize = self.pixels.len();
        let i: usize = (y as usize) * (self.width as usize) + (x as usize);
        assert(i < len);
        self.pixels[i]
    }

    pub fn set(&mut self, x: u32, y: u32, p: Pixel)
        requires
            old(self).wf(),
            x < old(self).width,
            y < old(self).height,
        ensures
            final(self).wf(),
            final(self).width == old(self).width,
            final(self).height == old(self).height,
            final(self).pixels@ == old(self).pixels@.update(
                y * old(self).width + x,
                p,
            ),
    {
        proof {
            lemma_row_major_index(x as int, y as int, self.width as int, self.height as int);
        }
        let len: usize = self.pixels.len();
        let i: usize = (y as usize) * (self.width as usize) + (x as usize);
        assert(i < len);
        self.pixels.set(i, p);
    }

    /// A raster of the given dimensions with every pixel equal to `fill`.
    pub fn new_filled(width: u32, height: u32, fill: Pixel) -> (r: Self)
        requires
            (width as int) * (height as int) <= usize::MAX,
        ensures
            r.wf(),
            r.width == width,
            r.height == height,
            forall|i: int| 0 <= i < r.pixels@.len() ==> r.pixels@[i] == fill,
    {
        let n: usize = (width as usize) * (height as usize);
        let mut pixels: Vec<Pixel> = Vec::new();
        let mut i: usize = 0;
        while i < n
            invariant
                i <= n,
                pixels@.len() == i,
                forall|k: int| 0 <= k < i ==> pixels@[k] == fill,
            decreases n - i,
        {
            pixels.push(fill);
            i = i + 1;
        }
        ColorImage { width, height, pixels }
    }
}

/// A single-channel raster stored row-major, used for intensity images and
/// binary masks.
#[derive(Debug, Clone)]
pub struct GrayImage {
    pub width: u32,
    pub height: u32,
    pub pixels: Vec<u8>,
}

impl GrayImage {
    pub open spec fn wf(self) -> bool {
        self.pixels@.len() == (self.width as int) * (self.height as int)
    }

    pub open spec fn pixel_at(self, x: int, y: int) -> u8 {
        self.pixels@[y * self.width + x]
    }

    pub fn get(&self, x: u32, y: u32) -> (r: u8)
        requires
            self.wf(),
            x < self.width,
            y < self.height,
        ensures
            r == self.pixel_at(x as int, y as int),
    {
        proof {
            lemma_row_major_index(x as int, y as int, self.width as int, self.height as int);
        }
        let len: usize = self.pixels.len();
        let i: usize = (y as usize) * (self.width as usize) + (x as usize);
        assert(i < len);
        self.pixels[i]
    }

    /// A raster of the given dimensions with every sample equal to `fill`.
    pub fn new_filled(width: u32, height: u32, fill: u8) -> (r: Self)
        requires
            (width as int) * (height as int) <= usize::MAX,
        ensures
            r.wf(),
            r.width == width,
            r.height == height,
            forall|i: int| 0 <= i < r.pixels@.len() ==> r.pixels@[i] == fill,
    {
        let n: usize = (width as usize) * (height as usize);
        let mut pixels: Vec<u8> = Vec::new();
        let mut i: usize = 0;
        while i < n
            invariant
                i <= n,
                pixels@.len() == i,
                forall|k: int| 0 <= k < i ==> pixels@[k] == fill,
            decreases n - i,
        {
            pixels.push(fill);
            i = i + 1;
        }
        GrayImage { width, height, pixels }
    }

    pub fn set(&mut self, x: u32, y: u32, v: u8)
        requires
            old(self).wf(),
            x < old(self).width,
            y < old(self).height,
        ensures
            final(self).wf(),
            final(self).width == old(self).width,
            final(self).height == old(self).height,
            final(self).pixels@ == old(self).pixels@.update(
                y * old(self).width + x,
                v,
            ),
    {
        proof {
            lemma_row_major_index(x as int, y as int, self.width as int, self.height as int);
        }
        let len: usize = self.pixels.len();
        let i: usize = (y as usize) * (self.width as usize) + (x as usize);
        assert(i < len);
        self.pixels.set(i, v);
    }
}

/// Per-pixel facts that the color classifier consumes: whether the pixel
/// looked white under the HSV test, and its squared distances to the three
/// reference colors in Lab space. The conversions that produce these values
/// live outside the verified core; the classifier is verified for every
/// value they may take.
#[derive(Debug, Clone, Copy, PartialEq, Eq, Structural)]
pub struct PixelMetrics {
    pub hsv_white: bool,
    pub d_red: i32,
    pub d_blue: i32,
    pub d_green: i32,
}

/// A row-major plane of per-pixel classification metrics, aligned with a
/// `ColorImage` of the same dimensions.
#[derive(Debug, Clone)]
pub struct MetricsImage {
    pub width: u32,
    pub height: u32,
    pub cells: Vec<PixelMetrics>,
}

impl MetricsImage {
    pub open spec fn wf(self) -> bool {
        self.cells@.len() == (self.width as int) * (self.height as int)
    }

    pub open spec fn cell_at(self, x: int, y: int) -> PixelMetrics {
        self.cells@[y * self.width + x]
    }

    pub fn get(&self, x: u32, y: u32) -> (r: PixelMetrics)
        requires
            self.wf(),
            x < self.width,
            y < self.height,
        ensures
            r == self.cell_at(x as int, y as int),
    {
        proof {
            lemma_row_major_index(x as int, y as int, self.width as int, self.height as int);
        }
        let len: usize = self.cells.len();
        let i: usize = (y as usize) * (self.width as usize) + (x as usize);
        assert(i < len);
        self.cells[i]
    }

    /// A metrics plane of the given dimensions with every cell equal to
    /// `fill`.
    pub fn new_filled(width: u32, height: u32, fill: PixelMetrics) -> (r: Self)
        requires
            (width as int) * (height as int) <= usize::MAX,
        ensures
            r.wf(),
            r.width == width,
            r.height == height,
            forall|i: int| 0 <= i < r.cells@.len() ==> r.cells@[i] == fill,
    {
        let n: usize = (width as usize) * (height as usize);
        let mut cells: Vec<PixelMetrics> = Vec::new();
        let mut i: usize = 0;
        while i < n
            invariant
                i <= n,
                cells@.len() == i,
                forall|k: int| 0 <= k < i ==> cells@[k] == fill,
            decreases n - i,
        {
            cells.push(fill);
            i = i + 1;
        }
        MetricsImage { width, height, cells }
    }
}

/// The raster's samples as interleaved RGBA bytes, row-major.
pub fn to_bytes(img: &ColorImage) -> (r: Vec<u8>)
    ensures
        r@.len() == 4 * img.pixels@.len(),
        forall|i: int|
            0 <= i < img.pixels@.len() ==> r@[4 * i] == (#[trigger] img.pixels@[i]).r && r@[4 * i
                + 1] == img.pixels@[i].g && r@[4 * i + 2] == img.pixels@[i].b && r@[4 * i + 3]
                == img.pixels@[i].a,
{
    let n: usize = img.pixels.len();
    let mut out: Vec<u8> = Vec::new();
    let mut i: usize = 0;
    while i < n
        invariant
            n == img.pixels@.len(),
            i <= n,
            out@.len() == 4 * i,
            forall|k: int|
                0 <= k < i ==> out@[4 * k] == (#[trigger] img.pixels@[k]).r && out@[4 * k + 1]
                    == img.pixels@[k].g && out@[4 * k + 2] == img.pixels@[k].b && out@[4 * k + 3]
                    == img.pixels@[k].a,
        decreases n - i,
    {
        let p = img.pixels[i];
        out.push(p.r);
        out.push(p.g);
        out.push(p.b);
        out.push(p.a);
        i = i + 1;
    }
    out
}

/// A raster from interleaved RGBA bytes, row-major.
pub fn from_bytes(width: u32, height: u32, bytes: &Vec<u8>) -> (r: ColorImage)
    requires
        bytes@.len() == 4 * ((width as int) * (height as int)),
    ensures
        r.wf(),
        r.width == width,
        r.height == height,
        forall|i: int|
            0 <= i < r.pixels@.len() ==> #[trigger] r.pixels@[i] == (Pixel {
                r: bytes@[4 * i],
                g: bytes@[4 * i + 1],
                b: bytes@[4 * i + 2],
                a: bytes@[4 * i + 3],
            }),
{
    let total: usize = bytes.len();
    let n: usize = total / 4;
    let mut pixels: Vec<Pixel> = Vec::new();
    let mut i: usize = 0;
    while i < n
        invariant
            total == bytes@.len(),
            total == 4 * n,
            i <= n,
            pixels@.len() == i,
            forall|k: int|
                0 <= k < i ==> #[trigger] pixels@[k] == (Pixel {
                    r: bytes@[4 * k],
                    g: bytes@[4 * k + 1],
                    b: bytes@[4 * k + 2],
                    a: bytes@[4 * k + 3],
                }),
        decreases n - i,
    {
        pixels.push(
            Pixel {
                r: bytes[4 * i],
                g: bytes[4 * i + 1],
                b: bytes[4 * i + 2],
                a: bytes[4 * i + 3],
            },
        );
        i = i + 1;
    }
    ColorImage { width, height, pixels }
}

} // verus!
