use vstd::prelude::*;
use crate::bounding_box::BoundingBox;
use crate::colors::Color;
use crate::preprocessor::FilterKind;
use crate::error::Error;
use crate::raster::{ColorImage, GrayImage, MetricsImage, lemma_row_major_index, lemma_row_major_injective};

verus! {

/// A detected LED: a bounding box in original-image coordinates paired with
/// the classified color.
#[derive(Debug, Clone)]
pub struct Led {
    pub bbox: BoundingBox,
    pub color: Color,
}

/// Configuration of one detection call: the target resize dimensions and
/// filter, the two Gaussian blur radii of the band-pass filter, the
/// brightness threshold of the mask, and the inclusive per-axis size bounds
/// for accepted boxes.
#[derive(Debug, Clone, Copy)]
pub struct LedDetectionConfig {
    pub width: u32,
    pub height: u32,
    pub filter: FilterKind,
    pub radius_1: u16,
    pub radius_2: u16,
    pub threshold_value: u8,
    pub min_size: (u32, u32),
    pub max_size: (u32, u32),
}

impl Default for LedDetectionConfig {
    /// The configuration tuned for the reference drone pictures.
    fn default() -> (r: Self)
        ensures
            r == (LedDetectionConfig {
                width: 800,
                height: 800,
                filter: FilterKind::Gaussian,
                radius_1: 4,
                radius_2: 8,
                threshold_value: 10,
                min_size: (7, 7),
                max_size: (20, 20),
            }),
    {
        LedDetectionConfig {
            width: 800,
            height: 800,
            filter: FilterKind::Gaussian,
            radius_1: 4,
            radius_2: 8,
            threshold_value: 10,
            min_size: (7, 7),
            max_size: (20, 20),
        }
    }
}

/// Foreground test on a thresholded mask: bright areas are encoded as the
/// minimum channel value.
pub open spec fn is_fg(mask: GrayImage, x: int, y: int) -> bool {
    mask.pixel_at(x, y) == 0
}

/// `(x, y)` lies within the box, bounds inclusive.
pub open spec fn in_box(b: BoundingBox, x: int, y: int) -> bool {
    b.x_min <= x <= b.x_max && b.y_min <= y <= b.y_max
}

/// Some box of the sequence contains `(x, y)`.
pub open spec fn covered(boxes: Seq<BoundingBox>, x: int, y: int) -> bool {
    exists|i: int| 0 <= i < boxes.len() && in_box(boxes[i], x, y)
}

/// The box is valid and lies within a `w` by `h` raster.
pub open spec fn box_in_bounds(b: BoundingBox, w: int, h: int) -> bool {
    b.wf() && b.x_max < w && b.y_max < h
}

/// The box contains at least one foreground pixel of the mask.
pub open spec fn box_holds_fg(b: BoundingBox, mask: GrayImage) -> bool {
    exists|x: int, y: int|
        0 <= x < mask.width && 0 <= y < mask.height && is_fg(mask, x, y) && in_box(b, x, y)
}

/// Two coordinates are 4-adjacent: one step apart along exactly one axis.
pub open spec fn adjacent(p: (int, int), q: (int, int)) -> bool {
    (p.0 == q.0 && (p.1 == q.1 + 1 || p.1 + 1 == q.1)) || (p.1 == q.1 && (p.0 == q.0 + 1 || p.0
        + 1 == q.0))
}

/// The coordinate lies on the mask and holds a foreground sample.
pub open spec fn fg_at(mask: GrayImage, p: (int, int)) -> bool {
    0 <= p.0 < mask.width && 0 <= p.1 < mask.height && is_fg(mask, p.0, p.1)
}

/// A walk over foreground pixels taking 4-connected steps.
pub open spec fn is_fg_path(mask: GrayImage, path: Seq<(int, int)>) -> bool {
    &&& path.len() > 0
    &&& (forall|i: int| 0 <= i < path.len() ==> fg_at(mask, #[trigger] path[i]))
    &&& (forall|i: int| 0 <= i < path.len() - 1 ==> adjacent(#[trigger] path[i], path[i + 1]))
}

/// `p` and `q` lie in the same 4-connected foreground region of the mask.
pub open spec fn connected(mask: GrayImage, p: (int, int), q: (int, int)) -> bool {
    exists|path: Seq<(int, int)>|
        #[trigger] is_fg_path(mask, path) && path.first() == p && path.last() == q
}

/// A pair equals the pair of its components.
pub proof fn lemma_pair_eta(p: (int, int))
    ensures
        p == (p.0, p.1),
{
}

pub proof fn lemma_connected_ends(mask: GrayImage, p: (int, int), q: (int, int))
    requires
        connected(mask, p, q),
    ensures
        fg_at(mask, p),
        fg_at(mask, q),
{
    let path = choose|path: Seq<(int, int)>|
        is_fg_path(mask, path) && path.first() == p && path.last() == q;
    assert(fg_at(mask, path[0]));
    assert(fg_at(mask, path[path.len() - 1]));
}

pub proof fn lemma_connected_refl(mask: GrayImage, p: (int, int))
    requires
        fg_at(mask, p),
    ensures
        connected(mask, p, p),
{
    let path = seq![p];
    assert(fg_at(mask, path[0]));
    assert(is_fg_path(mask, path));
    assert(path.first() == p && path.last() == p);
}

/// Connectivity extends along one adjacent foreground step.
pub proof fn lemma_connected_step(mask: GrayImage, p: (int, int), q: (int, int), r: (int, int))
    requires
        connected(mask, p, q),
        adjacent(q, r),
        fg_at(mask, r),
    ensures
        connected(mask, p, r),
{
    let path = choose|path: Seq<(int, int)>|
        is_fg_path(mask, path) && path.first() == p && path.last() == q;
    let ext = path.push(r);
    assert(is_fg_path(mask, ext)) by {
        assert forall|i: int| 0 <= i < ext.len() implies fg_at(mask, #[trigger] ext[i]) by {
            if i < path.len() {
                assert(ext[i] == path[i]);
            } else {
                assert(ext[i] == r);
            }
        }
        assert forall|i: int| 0 <= i < ext.len() - 1 implies adjacent(
            #[trigger] ext[i],
            ext[i + 1],
        ) by {
            if i < path.len() - 1 {
                assert(ext[i] == path[i] && ext[i + 1] == path[i + 1]);
            } else {
                assert(ext[i] == path.last() && ext[i + 1] == r);
            }
        }
    }
    assert(ext.first() == p && ext.last() == r);
}

pub proof fn lemma_connected_sym(mask: GrayImage, p: (int, int), q: (int, int))
    requires
        connected(mask, p, q),
    ensures
        connected(mask, q, p),
{
    let path = choose|path: Seq<(int, int)>|
        is_fg_path(mask, path) && path.first() == p && path.last() == q;
    let n = path.len() as int;
    let rev = Seq::new(path.len(), |i: int| path[n - 1 - i]);
    assert(is_fg_path(mask, rev)) by {
        assert forall|i: int| 0 <= i < rev.len() implies fg_at(mask, #[trigger] rev[i]) by {
            assert(rev[i] == path[n - 1 - i]);
            assert(fg_at(mask, path[n - 1 - i]));
        }
        assert forall|i: int| 0 <= i < rev.len() - 1 implies adjacent(
            #[trigger] rev[i],
            rev[i + 1],
        ) by {
            assert(rev[i] == path[n - 1 - i] && rev[i + 1] == path[n - 2 - i]);
            assert(adjacent(path[n - 2 - i], path[n - 1 - i]));
        }
    }
    assert(rev.first() == q && rev.last() == p);
}

pub proof fn lemma_connected_trans(mask: GrayImage, p: (int, int), q: (int, int), r: (int, int))
    requires
        connected(mask, p, q),
        connected(mask, q, r),
    ensures
        connected(mask, p, r),
{
    let p1 = choose|path: Seq<(int, int)>|
        is_fg_path(mask, path) && path.first() == p && path.last() == q;
    let p2 = choose|path: Seq<(int, int)>|
        is_fg_path(mask, path) && path.first() == q && path.last() == r;
    let n1 = p1.len() as int;
    let n2 = p2.len() as int;
    let comb = p1 + p2.subrange(1, n2);
    assert(comb.len() == n1 + n2 - 1);
    assert(is_fg_path(mask, comb)) by {
        assert forall|i: int| 0 <= i < comb.len() implies fg_at(mask, #[trigger] comb[i]) by {
            if i < n1 {
                assert(comb[i] == p1[i]);
            } else {
                assert(comb[i] == p2[i - n1 + 1]);
                assert(fg_at(mask, p2[i - n1 + 1]));
            }
        }
        assert forall|i: int| 0 <= i < comb.len() - 1 implies adjacent(
            #[trigger] comb[i],
            comb[i + 1],
        ) by {
            if i < n1 - 1 {
                assert(comb[i] == p1[i] && comb[i + 1] == p1[i + 1]);
            } else if i == n1 - 1 {
                assert(comb[i] == p1[n1 - 1] && p1[n1 - 1] == q && q == p2[0]);
                assert(comb[i + 1] == p2[1]);
                assert(adjacent(p2[0], p2[1]));
            } else {
                assert(comb[i] == p2[i - n1 + 1] && comb[i + 1] == p2[i - n1 + 2]);
                assert(adjacent(p2[i - n1 + 1], p2[i - n1 + 2]));
            }
        }
    }
    assert(comb.first() == p);
    assert(comb.last() == if n2 == 1 {
        p1.last()
    } else {
        p2.last()
    });
    assert(comb.last() == r);
}

/// `p` comes before `q` in raster (row-major) scan order.
pub open spec fn precedes(p: (int, int), q: (int, int)) -> bool {
    p.1 < q.1 || (p.1 == q.1 && p.0 < q.0)
}

/// Raster order agrees with the order of row-major positions.
pub proof fn lemma_precedes_row_major(p: (int, int), q: (int, int), w: int)
    requires
        0 <= p.0 < w,
        0 <= q.0 < w,
        0 <= p.1,
        0 <= q.1,
    ensures
        precedes(p, q) <==> p.1 * w + p.0 < q.1 * w + q.0,
{
    if p.1 < q.1 {
        assert(p.1 * w + p.0 < q.1 * w + q.0) by (nonlinear_arith)
            requires
                p.1 < q.1,
                0 <= p.0 < w,
                0 <= q.0,
        ;
    } else if q.1 < p.1 {
        assert(q.1 * w + q.0 < p.1 * w + p.0) by (nonlinear_arith)
            requires
                q.1 < p.1,
                0 <= q.0 < w,
                0 <= p.0,
        ;
    }
}

/// `p` is the first pixel of its bright region that the raster scan meets.
pub open spec fn is_seed(mask: GrayImage, p: (int, int)) -> bool {
    fg_at(mask, p) && (forall|q: (int, int)| #[trigger] connected(mask, q, p) ==> !precedes(q, p))
}

/// `b` is the tight bounding box (hull) of the region connected to `s`:
/// it contains every pixel of the region, and each of its four bounds is
/// attained by some pixel of the region.
pub open spec fn is_component_box(mask: GrayImage, s: (int, int), b: BoundingBox) -> bool {
    &&& (forall|q: (int, int)| #[trigger] connected(mask, s, q) ==> in_box(b, q.0, q.1))
    &&& (exists|q: (int, int)| #[trigger] connected(mask, s, q) && q.0 == b.x_min)
    &&& (exists|q: (int, int)| #[trigger] connected(mask, s, q) && q.1 == b.y_min)
    &&& (exists|q: (int, int)| #[trigger] connected(mask, s, q) && q.0 == b.x_max)
    &&& (exists|q: (int, int)| #[trigger] connected(mask, s, q) && q.1 == b.y_max)
}

/// The tight bounding box of the region connected to `s`.
pub open spec fn component_box(mask: GrayImage, s: (int, int)) -> BoundingBox {
    choose|b: BoundingBox| is_component_box(mask, s, b)
}

/// A region has at most one tight bounding box.
pub proof fn lemma_component_box_unique(
    mask: GrayImage,
    s: (int, int),
    b1: BoundingBox,
    b2: BoundingBox,
)
    requires
        is_component_box(mask, s, b1),
        is_component_box(mask, s, b2),
    ensures
        b1 == b2,
{
    let q1 = choose|q: (int, int)| connected(mask, s, q) && q.0 == b1.x_min;
    let q2 = choose|q: (int, int)| connected(mask, s, q) && q.0 == b2.x_min;
    assert(in_box(b2, q1.0, q1.1) && in_box(b1, q2.0, q2.1));
    let r1 = choose|q: (int, int)| connected(mask, s, q) && q.1 == b1.y_min;
    let r2 = choose|q: (int, int)| connected(mask, s, q) && q.1 == b2.y_min;
    assert(in_box(b2, r1.0, r1.1) && in_box(b1, r2.0, r2.1));
    let u1 = choose|q: (int, int)| connected(mask, s, q) && q.0 == b1.x_max;
    let u2 = choose|q: (int, int)| connected(mask, s, q) && q.0 == b2.x_max;
    assert(in_box(b2, u1.0, u1.1) && in_box(b1, u2.0, u2.1));
    let v1 = choose|q: (int, int)| connected(mask, s, q) && q.1 == b1.y_max;
    let v2 = choose|q: (int, int)| connected(mask, s, q) && q.1 == b2.y_max;
    assert(in_box(b2, v1.0, v1.1) && in_box(b1, v2.0, v2.1));
}

/// The seeds among the first `k` raster positions, in scan order.
pub open spec fn seeds_upto(mask: GrayImage, k: int) -> Seq<(int, int)>
    decreases k,
{
    if k <= 0 {
        Seq::empty()
    } else if is_seed(mask, (((k - 1) % (mask.width as int)), ((k - 1) / (mask.width as int)))) {
        seeds_upto(mask, k - 1).push(
            (((k - 1) % (mask.width as int)), ((k - 1) / (mask.width as int))),
        )
    } else {
        seeds_upto(mask, k - 1)
    }
}

/// One tight bounding box per maximal 4-connected bright region of the
/// mask, ordered by the raster position of each region's first pixel.
pub open spec fn components_of(mask: GrayImage) -> Seq<BoundingBox> {
    seeds_upto(mask, (mask.width as int) * (mask.height as int)).map_values(
        |s: (int, int)| component_box(mask, s),
    )
}

/// Scanning one more position appends that position's seed, if it is one.
pub proof fn lemma_seeds_upto_step(mask: GrayImage, x: int, y: int)
    requires
        0 <= x < mask.width,
        0 <= y < mask.height,
    ensures
        seeds_upto(mask, y * (mask.width as int) + x + 1) == if is_seed(mask, (x, y)) {
            seeds_upto(mask, y * (mask.width as int) + x).push((x, y))
        } else {
            seeds_upto(mask, y * (mask.width as int) + x)
        },
{
    let w = mask.width as int;
    lemma_row_major_index(x, y, w, mask.height as int);
    vstd::arithmetic::div_mod::lemma_fundamental_div_mod_converse(y * w + x, w, y, x);
    assert((y * w + x + 1) - 1 == y * w + x);
}

/// The pixel was visited by the current island, not before it.
pub open spec fn island_visited(
    visited: Seq<bool>,
    ov: Seq<bool>,
    w: int,
    h: int,
    a: int,
    b: int,
) -> bool {
    0 <= a < w && 0 <= b < h && visited[b * w + a] && !ov[b * w + a]
}

/// The coordinate is on the pending stack.
pub open spec fn in_stack(stack: Seq<(u32, u32)>, a: int, b: int) -> bool {
    exists|k: int| 0 <= k < stack.len() && (#[trigger] stack[k]).0 == a && stack[k].1 == b
}

/// A coordinate on the stack stays on it when the stack only grows at the
/// end.
pub proof fn lemma_in_stack_grow(s_old: Seq<(u32, u32)>, s_new: Seq<(u32, u32)>, a: int, b: int)
    requires
        in_stack(s_old, a, b),
        s_old.len() <= s_new.len(),
        forall|k: int| 0 <= k < s_old.len() ==> #[trigger] s_new[k] == s_old[k],
    ensures
        in_stack(s_new, a, b),
{
    let k = choose|k: int| 0 <= k < s_old.len() && (#[trigger] s_old[k]).0 == a && s_old[k].1 == b;
    assert(s_new[k] == s_old[k]);
    assert(0 <= k < s_new.len() && (s_new[k]).0 == a && s_new[k].1 == b);
}

/// If the island's visited set is closed under foreground adjacency and
/// free of previously visited pixels, it contains the endpoint of every
/// foreground path leaving the seed.
proof fn lemma_island_complete(
    mask: GrayImage,
    visited: Seq<bool>,
    ov: Seq<bool>,
    sd: (int, int),
    path: Seq<(int, int)>,
)
    requires
        island_visited(visited, ov, mask.width as int, mask.height as int, sd.0, sd.1),
        forall|p: (int, int), q: (int, int)|
            island_visited(visited, ov, mask.width as int, mask.height as int, p.0, p.1)
                && #[trigger] adjacent(p, q) && fg_at(mask, q) ==> visited[q.1 * mask.width + q.0],
        forall|q: (int, int)| #[trigger] connected(mask, sd, q) ==> !ov[q.1 * mask.width + q.0],
        is_fg_path(mask, path),
        path.first() == sd,
    ensures
        island_visited(
            visited,
            ov,
            mask.width as int,
            mask.height as int,
            path.last().0,
            path.last().1,
        ),
    decreases path.len(),
{
    if path.len() == 1 {
        assert(path.last() == sd);
        assert(island_visited(
            visited,
            ov,
            mask.width as int,
            mask.height as int,
            path.last().0,
            path.last().1,
        ));
    } else {
        let pre = path.drop_last();
        assert(is_fg_path(mask, pre)) by {
            assert forall|i: int| 0 <= i < pre.len() implies fg_at(mask, #[trigger] pre[i]) by {
                assert(pre[i] == path[i]);
            }
            assert forall|i: int| 0 <= i < pre.len() - 1 implies adjacent(
                #[trigger] pre[i],
                pre[i + 1],
            ) by {
                assert(pre[i] == path[i] && pre[i + 1] == path[i + 1]);
            }
        }
        assert(pre.first() == sd);
        lemma_island_complete(mask, visited, ov, sd, pre);
        let p = pre.last();
        let q = path.last();
        assert(p == path[path.len() - 2] && q == path[path.len() - 1]);
        assert(adjacent(p, q));
        assert(fg_at(mask, q));
        assert(visited[q.1 * mask.width + q.0]);
        assert(connected(mask, sd, q)) by {
            assert(is_fg_path(mask, path) && path.first() == sd && path.last() == q);
        }
        assert(!ov[q.1 * mask.width + q.0]);
    }
}

/// How many entries of the visited array are still false.
spec fn count_unvisited(s: Seq<bool>) -> nat
    decreases s.len(),
{
    if s.len() == 0 {
        0
    } else {
        count_unvisited(s.drop_last()) + if s.last() {
            0nat
        } else {
            1nat
        }
    }
}

proof fn lemma_count_unvisited_update(s: Seq<bool>, i: int)
    requires
        0 <= i < s.len(),
        !s[i],
    ensures
        count_unvisited(s.update(i, true)) + 1 == count_unvisited(s),
    decreases s.len(),
{
    let t = s.update(i, true);
    if i == s.len() - 1 {
        assert(t.drop_last() =~= s.drop_last());
    } else {
        assert(t.drop_last() =~= s.drop_last().update(i, true));
        lemma_count_unvisited_update(s.drop_last(), i);
    }
}

/// What the extractor promises of its result: every box is valid and lies
/// within the mask, every box bounds at least one foreground pixel, and
/// every foreground pixel of the mask lies within some box.
pub open spec fn extraction_ok(mask: GrayImage, boxes: Seq<BoundingBox>) -> bool {
    &&& forall|i: int|
        0 <= i < boxes.len() ==> box_in_bounds(#[trigger] boxes[i], mask.width as int, mask.height as int)
    &&& forall|i: int| 0 <= i < boxes.len() ==> box_holds_fg(#[trigger] boxes[i], mask)
    &&& forall|x: int, y: int|
        0 <= x < mask.width && 0 <= y < mask.height && #[trigger] is_fg(mask, x, y) ==> covered(
            boxes,
            x,
            y,
        )
}

/// One bounding box per bright area of the mask discovered by the
/// raster-order scan, each grown by an iterative 4-connected flood fill.
/// The result is exactly one tight bounding box per maximal 4-connected
/// foreground region, ordered by each region's first pixel in raster order.
#[verifier::rlimit(100)]
pub fn find_leds_areas(mask: &GrayImage) -> (r: Vec<BoundingBox>)
    requires
        mask.wf(),
    ensures
        r@ == components_of(*mask),
        extraction_ok(*mask, r@),
{
    let w = mask.width;
    let h = mask.height;
    let n: usize = mask.pixels.len();
    let mut visited: Vec<bool> = Vec::new();
    let mut i: usize = 0;
    while i < n
        invariant
            i <= n,
            visited@.len() == i,
            forall|k: int| 0 <= k < i ==> !visited@[k],
        decreases n - i,
    {
        visited.push(false);
        i = i + 1;
    }
    let mut boxes: Vec<BoundingBox> = Vec::new();
    let ghost mut seeds: Seq<(int, int)> = Seq::empty();
    proof {
        assert forall|a: int, b: int| 0 <= a < w && 0 <= b < h implies !(#[trigger] visited@[b * w
            + a]) by {
            lemma_row_major_index(a, b, w as int, h as int);
        }
        assert(seeds_upto(*mask, 0) =~= seeds);
    }
    let mut y: u32 = 0;
    while y < h
        invariant
            mask.wf(),
            w == mask.width,
            h == mask.height,
            n == visited@.len(),
            n == mask.pixels@.len(),
            y <= h,
            boxes@.len() == seeds.len(),
            seeds == seeds_upto(*mask, y * w),
            forall|i: int|
                0 <= i < seeds.len() ==> is_component_box(*mask, #[trigger] seeds[i], boxes@[i])
                    && boxes@[i] == component_box(*mask, seeds[i]),
            forall|i: int|
                0 <= i < seeds.len() ==> fg_at(*mask, #[trigger] seeds[i]) && seeds[i].1 * w
                    + seeds[i].0 < y * w,
            forall|a: int, b: int|
                0 <= a < w && 0 <= b < h ==> ((#[trigger] visited@[b * w + a]) <==> exists|i: int|
                    0 <= i < seeds.len() && #[trigger] connected(*mask, seeds[i], (a, b))),
            forall|a: int, b: int|
                0 <= a < w && 0 <= b < h && b * w + a < y * w && #[trigger] is_fg(*mask, a, b)
                    ==> visited@[b * w + a],
        decreases h - y,
    {
        let mut x: u32 = 0;
        while x < w
            invariant
                mask.wf(),
                w == mask.width,
                h == mask.height,
                n == visited@.len(),
                n == mask.pixels@.len(),
                y < h,
                x <= w,
                boxes@.len() == seeds.len(),
                seeds == seeds_upto(*mask, y * w + x),
                forall|i: int|
                    0 <= i < seeds.len() ==> is_component_box(*mask, #[trigger] seeds[i], boxes@[i])
                        && boxes@[i] == component_box(*mask, seeds[i]),
                forall|i: int|
                    0 <= i < seeds.len() ==> fg_at(*mask, #[trigger] seeds[i]) && seeds[i].1 * w
                        + seeds[i].0 < y * w + x,
                forall|a: int, b: int|
                    0 <= a < w && 0 <= b < h ==> ((#[trigger] visited@[b * w + a]) <==> exists|i: int|
                        0 <= i < seeds.len() && #[trigger] connected(*mask, seeds[i], (a, b))),
                forall|a: int, b: int|
                    0 <= a < w && 0 <= b < h && b * w + a < y * w + x && #[trigger] is_fg(*mask, a, b)
                        ==> visited@[b * w + a],
            decreases w - x,
        {
            proof {
                lemma_row_major_index(x as int, y as int, w as int, h as int);
            }
            let idx: usize = (y as usize) * (w as usize) + (x as usize);
            if mask.get(x, y) == 0 && !visited[idx] {
                let ghost sd = (x as int, y as int);
                let ghost ov = visited@;
                proof {
                    assert(fg_at(*mask, sd));
                    assert(!ov[sd.1 * w + sd.0]);
                    // the scan reached sd unvisited, so nothing before it in
                    // raster order is connected to it: sd is its region's seed
                    assert forall|q: (int, int)| #[trigger] connected(*mask, q, sd) implies !precedes(
                        q,
                        sd,
                    ) by {
                        if precedes(q, sd) {
                            lemma_connected_ends(*mask, q, sd);
                            lemma_precedes_row_major(q, sd, w as int);
                            assert(is_fg(*mask, q.0, q.1));
                            assert(visited@[q.1 * w + q.0]);
                            let i0 = choose|i0: int|
                                0 <= i0 < seeds.len() && connected(*mask, seeds[i0], (q.0, q.1));
                            lemma_pair_eta(q);
                            lemma_connected_trans(*mask, seeds[i0], q, sd);
                            assert(0 <= i0 < seeds.len() && connected(*mask, seeds[i0], (sd.0, sd.1)));
                            assert(visited@[sd.1 * w + sd.0]);
                            assert(false);
                        }
                    }
                    assert(is_seed(*mask, sd));
                }
                let mut stack: Vec<(u32, u32)> = Vec::new();
                stack.push((x, y));
                let mut bbox = BoundingBox { x_min: x, y_min: y, x_max: x, y_max: y };
                proof {
                    lemma_connected_refl(*mask, sd);
                    assert(in_stack(stack@, sd.0, sd.1)) by {
                        assert(stack@[0] == (x, y));
                    }
                    assert(in_box(bbox, sd.0, sd.1));
                }
                while stack.len() > 0
                    invariant
                        mask.wf(),
                        w == mask.width,
                        h == mask.height,
                        n == visited@.len(),
                        n == mask.pixels@.len(),
                        n == ov.len(),
                        fg_at(*mask, sd),
                        box_in_bounds(bbox, w as int, h as int),
                        in_box(bbox, sd.0, sd.1),
                        forall|j: int| 0 <= j < n && #[trigger] ov[j] ==> visited@[j],
                        forall|a: int, b: int|
                            0 <= a < w && 0 <= b < h && #[trigger] visited@[b * w + a] ==> ov[b * w
                                + a] || (is_fg(*mask, a, b) && connected(*mask, sd, (a, b))),
                        forall|k: int|
                            0 <= k < stack@.len() && fg_at(
                                *mask,
                                (((#[trigger] stack@[k]).0) as int, ((stack@[k]).1) as int),
                            ) ==> connected(
                                *mask,
                                sd,
                                (((stack@[k]).0) as int, ((stack@[k]).1) as int),
                            ),
                        forall|p: (int, int), q: (int, int)|
                            island_visited(visited@, ov, w as int, h as int, p.0, p.1)
                                && #[trigger] adjacent(p, q) && fg_at(*mask, q) ==> visited@[q.1 * w
                                + q.0] || in_stack(stack@, q.0, q.1),
                        visited@[sd.1 * w + sd.0] || in_stack(stack@, sd.0, sd.1),
                        forall|a: int, b: int|
                            #[trigger] island_visited(visited@, ov, w as int, h as int, a, b)
                                ==> in_box(bbox, a, b),
                        bbox.x_min == sd.0 || (exists|a: int, b: int|
                            #[trigger] island_visited(visited@, ov, w as int, h as int, a, b) && a
                                == bbox.x_min),
                        bbox.y_min == sd.1 || (exists|a: int, b: int|
                            #[trigger] island_visited(visited@, ov, w as int, h as int, a, b) && b
                                == bbox.y_min),
                        bbox.x_max == sd.0 || (exists|a: int, b: int|
                            #[trigger] island_visited(visited@, ov, w as int, h as int, a, b) && a
                                == bbox.x_max),
                        bbox.y_max == sd.1 || (exists|a: int, b: int|
                            #[trigger] island_visited(visited@, ov, w as int, h as int, a, b) && b
                                == bbox.y_max),
                    decreases count_unvisited(visited@), stack@.len(),
                {
                    let ghost stack0 = stack@;
                    let top = stack.pop().unwrap();
                    let cx = top.0;
                    let cy = top.1;
                    let ghost c = (cx as int, cy as int);
                    proof {
                        assert(stack@ == stack0.drop_last());
                        assert(stack0[stack0.len() - 1] == top);
                    }
                    if cx < w && cy < h {
                        proof {
                            lemma_row_major_index(c.0, c.1, w as int, h as int);
                        }
                        let cidx: usize = (cy as usize) * (w as usize) + (cx as usize);
                        if mask.get(cx, cy) == 0 && !visited[cidx] {
                            proof {
                                assert(fg_at(*mask, c));
                                assert(((((stack0[stack0.len() - 1]).0) as int), (((
                                stack0[stack0.len() - 1]).1) as int)) == c);
                                assert(connected(*mask, sd, c));
                            }
                            let ghost vis0 = visited@;
                            let ghost bbox0 = bbox;
                            let x_min = if bbox.x_min < cx {
                                bbox.x_min
                            } else {
                                cx
                            };
                            let y_min = if bbox.y_min < cy {
                                bbox.y_min
                            } else {
                                cy
                            };
                            let x_max = if bbox.x_max > cx {
                                bbox.x_max
                            } else {
                                cx
                            };
                            let y_max = if bbox.y_max > cy {
                                bbox.y_max
                            } else {
                                cy
                            };
                            match bbox.set_coordinates(x_min, y_min, x_max, y_max) {
                                Ok(_) => {},
                                Err(_) => {
                                    proof {
                                        assert(false);
                                    }
                                },
                            }
                            if cx > 0 {
                                stack.push((cx - 1, cy));
                                proof {
                                    assert(in_stack(stack@, c.0 - 1, c.1)) by {
                                        assert((stack@[stack@.len() - 1]).0 == cx - 1 && (stack@[stack@.len() - 1]).1 == cy);
                                    }
                                }
                            }
                            if cx + 1 < w {
                                let ghost sb = stack@;
                                stack.push((cx + 1, cy));
                                proof {
                                    if c.0 >= 1 {
                                        lemma_in_stack_grow(sb, stack@, c.0 - 1, c.1);
                                    }
                                    assert(in_stack(stack@, c.0 + 1, c.1)) by {
                                        assert((stack@[stack@.len() - 1]).0 == cx + 1 && (stack@[stack@.len() - 1]).1 == cy);
                                    }
                                }
                            }
                            if cy > 0 {
                                let ghost sb = stack@;
                                stack.push((cx, cy - 1));
                                proof {
                                    if c.0 >= 1 {
                                        lemma_in_stack_grow(sb, stack@, c.0 - 1, c.1);
                                    }
                                    if c.0 + 1 < w {
                                        lemma_in_stack_grow(sb, stack@, c.0 + 1, c.1);
                                    }
                                    assert(in_stack(stack@, c.0, c.1 - 1)) by {
                                        assert((stack@[stack@.len() - 1]).0 == cx && (stack@[stack@.len() - 1]).1 == cy - 1);
                                    }
                                }
                            }
                            if cy + 1 < h {
                                let ghost sb = stack@;
                                stack.push((cx, cy + 1));
                                proof {
                                    if c.0 >= 1 {
                                        lemma_in_stack_grow(sb, stack@, c.0 - 1, c.1);
                                    }
                                    if c.0 + 1 < w {
                                        lemma_in_stack_grow(sb, stack@, c.0 + 1, c.1);
                                    }
                                    if c.1 >= 1 {
                                        lemma_in_stack_grow(sb, stack@, c.0, c.1 - 1);
                                    }
                                    assert(in_stack(stack@, c.0, c.1 + 1)) by {
                                        assert((stack@[stack@.len() - 1]).0 == cx && (stack@[stack@.len() - 1]).1 == cy + 1);
                                    }
                                }
                            }
                            proof {
                                lemma_count_unvisited_update(visited@, cidx as int);
                            }
                            visited.set(cidx, true);
                            proof {
                                let ghost wi = w as int;
                                let ghost hi = h as int;
                                assert(visited@ == vis0.update(cidx as int, true));
                                assert(c.1 * w + c.0 == cidx as int);
                                assert(!ov[cidx as int]);
                                assert(island_visited(visited@, ov, wi, hi, c.0, c.1));
                                // newly visited pixels stay sound
                                assert forall|a: int, b: int|
                                    0 <= a < w && 0 <= b < h && #[trigger] visited@[b * w + a] implies ov[
                                    b * w + a] || (is_fg(*mask, a, b) && connected(
                                    *mask,
                                    sd,
                                    (a, b),
                                )) by {
                                    lemma_row_major_index(a, b, wi, hi);
                                    if b * w + a == cidx as int {
                                        lemma_row_major_injective(a, b, c.0, c.1, wi);
                                    } else {
                                        assert(vis0[b * w + a]);
                                    }
                                }
                                // stack entries stay connected to the seed
                                assert forall|k: int|
                                    0 <= k < stack@.len() && fg_at(
                                        *mask,
                                        (((#[trigger] stack@[k]).0) as int, ((stack@[k]).1) as int),
                                    ) implies connected(
                                    *mask,
                                    sd,
                                    (((stack@[k]).0) as int, ((stack@[k]).1) as int),
                                ) by {
                                    if k < stack0.len() - 1 {
                                        assert(stack@[k] == stack0[k]);
                                    } else {
                                        let e = stack@[k];
                                        assert(adjacent(c, (((e.0) as int), ((e.1) as int))));
                                        lemma_connected_step(
                                            *mask,
                                            sd,
                                            c,
                                            (((e.0) as int), ((e.1) as int)),
                                        );
                                    }
                                }
                                // closure: every island pixel's foreground
                                // neighbors are visited or pending
                                assert forall|p: (int, int), q: (int, int)|
                                    island_visited(visited@, ov, wi, hi, p.0, p.1)
                                        && #[trigger] adjacent(p, q) && fg_at(*mask, q) implies visited@[q.1
                                    * w + q.0] || in_stack(stack@, q.0, q.1) by {
                                    lemma_row_major_index(q.0, q.1, wi, hi);
                                    lemma_row_major_index(p.0, p.1, wi, hi);
                                    if p.1 * w + p.0 == cidx as int {
                                        lemma_row_major_injective(p.0, p.1, c.0, c.1, wi);
                                        if !(visited@[q.1 * w + q.0]) {
                                            assert(q.0 == c.0 - 1 || q.0 == c.0 + 1 || q.1 == c.1
                                                - 1 || q.1 == c.1 + 1);
                                            assert(in_stack(stack@, q.0, q.1));
                                        }
                                    } else {
                                        assert(island_visited(vis0, ov, wi, hi, p.0, p.1));
                                        if vis0[q.1 * w + q.0] {
                                            assert(visited@[q.1 * w + q.0]);
                                        } else if in_stack(stack0, q.0, q.1) {
                                            let k = choose|k: int|
                                                0 <= k < stack0.len() && (#[trigger] stack0[k]).0
                                                    == q.0 && stack0[k].1 == q.1;
                                            if k < stack0.len() - 1 {
                                                assert(stack@[k] == stack0[k]);
                                                assert(in_stack(stack@, q.0, q.1));
                                            } else {
                                                assert(visited@[q.1 * w + q.0]);
                                            }
                                        }
                                    }
                                }
                                // the seed stays reached or pending
                                assert(visited@[sd.1 * w + sd.0] || in_stack(stack@, sd.0, sd.1))
                                    by {
                                    lemma_row_major_index(sd.0, sd.1, wi, hi);
                                    if vis0[sd.1 * w + sd.0] {
                                        assert(visited@[sd.1 * w + sd.0]);
                                    } else if in_stack(stack0, sd.0, sd.1) {
                                        let k = choose|k: int|
                                            0 <= k < stack0.len() && (#[trigger] stack0[k]).0
                                                == sd.0 && stack0[k].1 == sd.1;
                                        if k < stack0.len() - 1 {
                                            assert(stack@[k] == stack0[k]);
                                            assert(in_stack(stack@, sd.0, sd.1));
                                        } else {
                                            assert(sd.0 == c.0 && sd.1 == c.1);
                                            assert(visited@[sd.1 * w + sd.0]);
                                        }
                                    }
                                }
                                // the box still bounds every island pixel
                                assert forall|a: int, b: int|
                                    #[trigger] island_visited(visited@, ov, wi, hi, a, b) implies in_box(
                                    bbox,
                                    a,
                                    b,
                                ) by {
                                    lemma_row_major_index(a, b, wi, hi);
                                    if b * w + a == cidx as int {
                                        lemma_row_major_injective(a, b, c.0, c.1, wi);
                                    } else {
                                        assert(island_visited(vis0, ov, wi, hi, a, b));
                                        assert(in_box(bbox0, a, b));
                                    }
                                }
                                // each bound keeps a witness
                                assert(bbox.x_min == sd.0 || (exists|a: int, b: int|
                                    #[trigger] island_visited(visited@, ov, wi, hi, a, b) && a
                                        == bbox.x_min)) by {
                                    if bbox.x_min == bbox0.x_min {
                                        if bbox0.x_min != sd.0 {
                                            let (a0, b0) = choose|a0: int, b0: int|
                                                #[trigger] island_visited(vis0, ov, wi, hi, a0, b0)
                                                    && a0 == bbox0.x_min;
                                            lemma_row_major_index(a0, b0, wi, hi);
                                            assert(visited@[b0 * w + a0]);
                                            assert(island_visited(visited@, ov, wi, hi, a0, b0)
                                                && a0 == bbox.x_min);
                                        }
                                    } else {
                                        assert(island_visited(visited@, ov, wi, hi, c.0, c.1)
                                            && c.0 == bbox.x_min);
                                    }
                                }
                                assert(bbox.y_min == sd.1 || (exists|a: int, b: int|
                                    #[trigger] island_visited(visited@, ov, wi, hi, a, b) && b
                                        == bbox.y_min)) by {
                                    if bbox.y_min == bbox0.y_min {
                                        if bbox0.y_min != sd.1 {
                                            let (a0, b0) = choose|a0: int, b0: int|
                                                #[trigger] island_visited(vis0, ov, wi, hi, a0, b0)
                                                    && b0 == bbox0.y_min;
                                            lemma_row_major_index(a0, b0, wi, hi);
                                            assert(visited@[b0 * w + a0]);
                                            assert(island_visited(visited@, ov, wi, hi, a0, b0)
                                                && b0 == bbox.y_min);
                                        }
                                    } else {
                                        assert(island_visited(visited@, ov, wi, hi, c.0, c.1)
                                            && c.1 == bbox.y_min);
                                    }
                                }
                                assert(bbox.x_max == sd.0 || (exists|a: int, b: int|
                                    #[trigger] island_visited(visited@, ov, wi, hi, a, b) && a
                                        == bbox.x_max)) by {
                                    if bbox.x_max == bbox0.x_max {
                                        if bbox0.x_max != sd.0 {
                                            let (a0, b0) = choose|a0: int, b0: int|
                                                #[trigger] island_visited(vis0, ov, wi, hi, a0, b0)
                                                    && a0 == bbox0.x_max;
                                            lemma_row_major_index(a0, b0, wi, hi);
                                            assert(visited@[b0 * w + a0]);
                                            assert(island_visited(visited@, ov, wi, hi, a0, b0)
                                                && a0 == bbox.x_max);
                                        }
                                    } else {
                                        assert(island_visited(visited@, ov, wi, hi, c.0, c.1)
                                            && c.0 == bbox.x_max);
                                    }
                                }
                                assert(bbox.y_max == sd.1 || (exists|a: int, b: int|
                                    #[trigger] island_visited(visited@, ov, wi, hi, a, b) && b
                                        == bbox.y_max)) by {
                                    if bbox.y_max == bbox0.y_max {
                                        if bbox0.y_max != sd.1 {
                                            let (a0, b0) = choose|a0: int, b0: int|
                                                #[trigger] island_visited(vis0, ov, wi, hi, a0, b0)
                                                    && b0 == bbox0.y_max;
                                            lemma_row_major_index(a0, b0, wi, hi);
                                            assert(visited@[b0 * w + a0]);
                                            assert(island_visited(visited@, ov, wi, hi, a0, b0)
                                                && b0 == bbox.y_max);
                                        }
                                    } else {
                                        assert(island_visited(visited@, ov, wi, hi, c.0, c.1)
                                            && c.1 == bbox.y_max);
                                    }
                                }
                            }
                        } else {
                            proof {
                                // the popped coordinate is background or
                                // already visited; dropping it keeps every
                                // invariant
                                restore_after_skip(
                                    *mask, visited@, ov, stack0, stack@, sd, c, w as int, h as int,
                                );
                            }
                        }
                    } else {
                        proof {
                            // the popped coordinate lies outside the mask
                            restore_after_skip(
                                *mask, visited@, ov, stack0, stack@, sd, c, w as int, h as int,
                            );
                        }
                    }
                }
                proof {
                    let ghost wi = w as int;
                    let ghost hi = h as int;
                    // the seed itself was reached
                    assert(visited@[sd.1 * w + sd.0]);
                    assert(island_visited(visited@, ov, wi, hi, sd.0, sd.1));
                    // nothing connected to the seed was visited before this
                    // island: its region was untouched
                    assert forall|q: (int, int)| #[trigger] connected(*mask, sd, q) implies !ov[q.1
                        * w + q.0] by {
                        lemma_connected_ends(*mask, sd, q);
                        lemma_row_major_index(q.0, q.1, wi, hi);
                        if ov[q.1 * w + q.0] {
                            let i0 = choose|i0: int|
                                0 <= i0 < seeds.len() && connected(*mask, seeds[i0], (q.0, q.1));
                            lemma_pair_eta(q);
                            lemma_connected_sym(*mask, sd, q);
                            lemma_connected_trans(*mask, seeds[i0], q, sd);
                            assert(0 <= i0 < seeds.len() && connected(*mask, seeds[i0], (sd.0, sd.1)));
                            assert(ov[sd.1 * w + sd.0]);
                            assert(false);
                        }
                    }
                    // completeness: the island visited the seed's whole region
                    assert forall|q: (int, int)| #[trigger] connected(*mask, sd, q) implies island_visited(
                        visited@,
                        ov,
                        wi,
                        hi,
                        q.0,
                        q.1,
                    ) by {
                        let path = choose|path: Seq<(int, int)>|
                            is_fg_path(*mask, path) && path.first() == sd && path.last() == q;
                        lemma_island_complete(*mask, visited@, ov, sd, path);
                        assert(path.last() == q);
                    }
                    // the box is exactly the region's hull
                    assert(is_component_box(*mask, sd, bbox)) by {
                        assert forall|q: (int, int)| #[trigger] connected(*mask, sd, q) implies in_box(
                            bbox,
                            q.0,
                            q.1,
                        ) by {
                            assert(island_visited(visited@, ov, wi, hi, q.0, q.1));
                        }
                        assert(connected(*mask, sd, (sd.0, sd.1)));
                        if bbox.x_min != sd.0 {
                            let (a0, b0) = choose|a0: int, b0: int|
                                #[trigger] island_visited(visited@, ov, wi, hi, a0, b0) && a0
                                    == bbox.x_min;
                            lemma_row_major_index(a0, b0, wi, hi);
                            assert(connected(*mask, sd, (a0, b0)) && (a0, b0).0 == bbox.x_min);
                        }
                        if bbox.y_min != sd.1 {
                            let (a0, b0) = choose|a0: int, b0: int|
                                #[trigger] island_visited(visited@, ov, wi, hi, a0, b0) && b0
                                    == bbox.y_min;
                            lemma_row_major_index(a0, b0, wi, hi);
                            assert(connected(*mask, sd, (a0, b0)) && (a0, b0).1 == bbox.y_min);
                        }
                        if bbox.x_max != sd.0 {
                            let (a0, b0) = choose|a0: int, b0: int|
                                #[trigger] island_visited(visited@, ov, wi, hi, a0, b0) && a0
                                    == bbox.x_max;
                            lemma_row_major_index(a0, b0, wi, hi);
                            assert(connected(*mask, sd, (a0, b0)) && (a0, b0).0 == bbox.x_max);
                        }
                        if bbox.y_max != sd.1 {
                            let (a0, b0) = choose|a0: int, b0: int|
                                #[trigger] island_visited(visited@, ov, wi, hi, a0, b0) && b0
                                    == bbox.y_max;
                            lemma_row_major_index(a0, b0, wi, hi);
                            assert(connected(*mask, sd, (a0, b0)) && (a0, b0).1 == bbox.y_max);
                        }
                    }
                    assert(is_component_box(*mask, sd, component_box(*mask, sd)));
                    lemma_component_box_unique(*mask, sd, bbox, component_box(*mask, sd));
                }
                let ghost prev_seeds = seeds;
                boxes.push(bbox);
                proof {
                    let ghost wi = w as int;
                    let ghost hi = h as int;
                    seeds = seeds.push(sd);
                    lemma_seeds_upto_step(*mask, x as int, y as int);
                    assert(seeds == seeds_upto(*mask, y * w + x + 1));
                    assert(seeds[seeds.len() - 1] == sd);
                    assert forall|i: int|
                        0 <= i < seeds.len() implies is_component_box(
                        *mask,
                        #[trigger] seeds[i],
                        boxes@[i],
                    ) && boxes@[i] == component_box(*mask, seeds[i]) by {
                        if i < prev_seeds.len() {
                            assert(seeds[i] == prev_seeds[i]);
                        }
                    }
                    assert forall|i: int|
                        0 <= i < seeds.len() implies fg_at(*mask, #[trigger] seeds[i])
                            && seeds[i].1 * w + seeds[i].0 < y * w + x + 1 by {
                        if i < prev_seeds.len() {
                            assert(seeds[i] == prev_seeds[i]);
                        }
                    }
                    assert forall|a: int, b: int| 0 <= a < w && 0 <= b < h implies ((
                    #[trigger] visited@[b * w + a]) <==> exists|i: int|
                        0 <= i < seeds.len() && #[trigger] connected(*mask, seeds[i], (a, b))) by {
                        lemma_row_major_index(a, b, wi, hi);
                        if visited@[b * w + a] {
                            if ov[b * w + a] {
                                let i0 = choose|i0: int|
                                    0 <= i0 < prev_seeds.len() && connected(
                                        *mask,
                                        prev_seeds[i0],
                                        (a, b),
                                    );
                                assert(seeds[i0] == prev_seeds[i0]);
                                assert(0 <= i0 < seeds.len() && connected(*mask, seeds[i0], (a, b)));
                            } else {
                                assert(connected(*mask, sd, (a, b)));
                                assert(0 <= seeds.len() - 1 < seeds.len() && connected(
                                    *mask,
                                    seeds[seeds.len() - 1],
                                    (a, b),
                                ));
                            }
                        }
                        if exists|i: int|
                            0 <= i < seeds.len() && #[trigger] connected(*mask, seeds[i], (a, b)) {
                            let i0 = choose|i0: int|
                                0 <= i0 < seeds.len() && #[trigger] connected(
                                    *mask,
                                    seeds[i0],
                                    (a, b),
                                );
                            if i0 < prev_seeds.len() {
                                assert(seeds[i0] == prev_seeds[i0]);
                                assert(ov[b * w + a]);
                                assert(visited@[b * w + a]);
                            } else {
                                assert(seeds[i0] == sd);
                                assert(island_visited(visited@, ov, wi, hi, a, b));
                            }
                        }
                    }
                    assert forall|a: int, b: int|
                        0 <= a < w && 0 <= b < h && b * w + a < y * w + x + 1 && #[trigger] is_fg(
                            *mask,
                            a,
                            b,
                        ) implies visited@[b * w + a] by {
                        lemma_row_major_index(a, b, wi, hi);
                        if b * w + a < y * w + x {
                            assert(ov[b * w + a]);
                        } else {
                            lemma_row_major_injective(a, b, sd.0, sd.1, wi);
                        }
                    }
                }
            } else {
                proof {
                    lemma_seeds_upto_step(*mask, x as int, y as int);
                    if is_fg(*mask, x as int, y as int) {
                        assert(visited@[y * w + x]);
                        let i0 = choose|i0: int|
                            0 <= i0 < seeds.len() && connected(
                                *mask,
                                seeds[i0],
                                (x as int, y as int),
                            );
                        lemma_precedes_row_major(seeds[i0], (x as int, y as int), w as int);
                        assert(precedes(seeds[i0], (x as int, y as int)));
                        assert(!is_seed(*mask, (x as int, y as int)));
                    } else {
                        assert(!fg_at(*mask, (x as int, y as int)));
                        assert(!is_seed(*mask, (x as int, y as int)));
                    }
                    assert(seeds == seeds_upto(*mask, y * w + x + 1));
                }
            }
            x = x + 1;
        }
        proof {
            assert((y + 1) * w == y * w + w) by (nonlinear_arith);
        }
        y = y + 1;
    }
    proof {
        assert(w * h == (w as int) * (h as int));
        assert(h * w == w * h) by (nonlinear_arith);
        assert(seeds == seeds_upto(*mask, (mask.width as int) * (mask.height as int)));
        assert forall|i: int| 0 <= i < boxes@.len() implies boxes@[i] == components_of(*mask)[i] by {
            assert(components_of(*mask)[i] == component_box(*mask, seeds[i]));
        }
        assert(boxes@ =~= components_of(*mask));
        assert forall|i: int|
            0 <= i < boxes@.len() implies box_in_bounds(
            #[trigger] boxes@[i],
            mask.width as int,
            mask.height as int,
        ) && box_holds_fg(boxes@[i], *mask) by {
            let bx = boxes@[i];
            assert(is_component_box(*mask, seeds[i], bx));
            let q1 = choose|q: (int, int)| connected(*mask, seeds[i], q) && q.0 == bx.x_min;
            let q2 = choose|q: (int, int)| connected(*mask, seeds[i], q) && q.1 == bx.y_min;
            let q3 = choose|q: (int, int)| connected(*mask, seeds[i], q) && q.0 == bx.x_max;
            let q4 = choose|q: (int, int)| connected(*mask, seeds[i], q) && q.1 == bx.y_max;
            lemma_connected_ends(*mask, seeds[i], q1);
            lemma_connected_ends(*mask, seeds[i], q2);
            lemma_connected_ends(*mask, seeds[i], q3);
            lemma_connected_ends(*mask, seeds[i], q4);
            assert(in_box(bx, q1.0, q1.1) && in_box(bx, q3.0, q3.1));
            assert(in_box(bx, q2.0, q2.1) && in_box(bx, q4.0, q4.1));
            assert(box_holds_fg(bx, *mask)) by {
                assert(0 <= q1.0 < mask.width && 0 <= q1.1 < mask.height && is_fg(
                    *mask,
                    q1.0,
                    q1.1,
                ) && in_box(bx, q1.0, q1.1));
            }
        }
        assert forall|a: int, b: int|
            0 <= a < mask.width && 0 <= b < mask.height && #[trigger] is_fg(*mask, a, b) implies covered(
            boxes@,
            a,
            b,
        ) by {
            lemma_row_major_index(a, b, w as int, h as int);
            assert(b * w + a < h * w);
            assert(visited@[b * w + a]);
            let i0 = choose|i0: int| 0 <= i0 < seeds.len() && connected(*mask, seeds[i0], (a, b));
            assert(in_box(boxes@[i0], a, b));
            assert(0 <= i0 < boxes@.len() && in_box(boxes@[i0], a, b));
        }
        assert(extraction_ok(*mask, boxes@));
    }
    boxes
}

/// Dropping a pending entry that is out of bounds, background, or already
/// visited keeps every island invariant: its only uses either were vacuous
/// or are satisfied by the visited set.
proof fn restore_after_skip(
    mask: GrayImage,
    visited: Seq<bool>,
    ov: Seq<bool>,
    stack0: Seq<(u32, u32)>,
    stack: Seq<(u32, u32)>,
    sd: (int, int),
    c: (int, int),
    w: int,
    h: int,
)
    requires
        w == mask.width,
        h == mask.height,
        mask.wf(),
        visited.len() == w * h,
        stack0.len() > 0,
        stack == stack0.drop_last(),
        c == (((stack0[stack0.len() - 1]).0) as int, ((stack0[stack0.len() - 1]).1) as int),
        !(0 <= c.0 < w && 0 <= c.1 < h) || !is_fg(mask, c.0, c.1) || visited[c.1 * w + c.0],
        fg_at(mask, sd),
        forall|p: (int, int), q: (int, int)|
            island_visited(visited, ov, w, h, p.0, p.1) && #[trigger] adjacent(p, q) && fg_at(
                mask,
                q,
            ) ==> visited[q.1 * w + q.0] || in_stack(stack0, q.0, q.1),
        visited[sd.1 * w + sd.0] || in_stack(stack0, sd.0, sd.1),
    ensures
        forall|p: (int, int), q: (int, int)|
            island_visited(visited, ov, w, h, p.0, p.1) && #[trigger] adjacent(p, q) && fg_at(
                mask,
                q,
            ) ==> visited[q.1 * w + q.0] || in_stack(stack, q.0, q.1),
        visited[sd.1 * w + sd.0] || in_stack(stack, sd.0, sd.1),
{
    assert forall|p: (int, int), q: (int, int)|
        island_visited(visited, ov, w, h, p.0, p.1) && #[trigger] adjacent(p, q) && fg_at(mask, q)
            implies visited[q.1 * w + q.0] || in_stack(stack, q.0, q.1) by {
        lemma_row_major_index(q.0, q.1, w, h);
        if !visited[q.1 * w + q.0] && in_stack(stack0, q.0, q.1) {
            let k = choose|k: int|
                0 <= k < stack0.len() && (#[trigger] stack0[k]).0 == q.0 && stack0[k].1 == q.1;
            if k < stack0.len() - 1 {
                assert(stack[k] == stack0[k]);
                assert(in_stack(stack, q.0, q.1));
            } else {
                assert(q == c);
                assert(false);
            }
        }
    }
    if !visited[sd.1 * w + sd.0] && in_stack(stack0, sd.0, sd.1) {
        let k = choose|k: int|
            0 <= k < stack0.len() && (#[trigger] stack0[k]).0 == sd.0 && stack0[k].1 == sd.1;
        lemma_row_major_index(sd.0, sd.1, w, h);
        if k < stack0.len() - 1 {
            assert(stack[k] == stack0[k]);
            assert(in_stack(stack, sd.0, sd.1));
        } else {
            assert(sd == c);
            assert(false);
        }
    }
}

/// Whether the box's iterated width and height both lie within the
/// configured inclusive size bounds.
pub open spec fn accepted(b: BoundingBox, config: LedDetectionConfig) -> bool {
    config.min_size.0 <= b.span_x() <= config.max_size.0 && config.min_size.1 <= b.span_y()
        <= config.max_size.1
}

/// The detection produced for one accepted candidate box: the box mapped
/// back to original-image coordinates, paired with the color its pixels
/// voted for on the resized frame.
pub open spec fn led_of(
    b: BoundingBox,
    resized: ColorImage,
    metrics: MetricsImage,
    original_dims: (u32, u32),
) -> Led {
    Led {
        bbox: crate::utils::scaled_box(b, original_dims, (resized.width, resized.height)),
        color: crate::colors::spec_detect_color(resized, metrics, b),
    }
}

/// The detections for a sequence of candidate boxes: each box that passes
/// the size filter contributes one detection, in order.
pub open spec fn leds_of(
    boxes: Seq<BoundingBox>,
    resized: ColorImage,
    metrics: MetricsImage,
    original_dims: (u32, u32),
    config: LedDetectionConfig,
) -> Seq<Led>
    decreases boxes.len(),
{
    if boxes.len() == 0 {
        Seq::empty()
    } else {
        let rest = leds_of(boxes.drop_last(), resized, metrics, original_dims, config);
        if accepted(boxes.last(), config) {
            rest.push(led_of(boxes.last(), resized, metrics, original_dims))
        } else {
            rest
        }
    }
}

/// Runs detection on a preprocessed frame: extracts the bright areas of the
/// mask, drops candidates outside the configured size bounds, classifies
/// each remaining box's color on the resized frame, and maps the box back
/// to the original image's coordinate space. On success the result is the
/// per-box processing of an extraction of the mask; with positive minimum
/// size bounds it always succeeds, and the only possible failure is an
/// empty candidate region.
pub fn get_leds(
    resized: &ColorImage,
    thresholded: &GrayImage,
    metrics: &MetricsImage,
    original_dims: (u32, u32),
    config: &LedDetectionConfig,
) -> (r: Result<Vec<Led>, Error>)
    requires
        resized.wf(),
        thresholded.wf(),
        metrics.wf(),
        thresholded.width == resized.width,
        thresholded.height == resized.height,
        metrics.width == resized.width,
        metrics.height == resized.height,
        resized.width >= 1,
        resized.height >= 1,
    ensures
        r matches Ok(leds) ==> leds@ == leds_of(
            components_of(*thresholded),
            *resized,
            *metrics,
            original_dims,
            *config,
        ),
        r matches Ok(leds) ==> forall|i: int|
            0 <= i < components_of(*thresholded).len() && accepted(
                #[trigger] components_of(*thresholded)[i],
                *config,
            ) ==> components_of(*thresholded)[i].coords().len() > 0,
        r matches Err(e) ==> e == Error::EmptyRegion && exists|i: int|
            0 <= i < components_of(*thresholded).len() && accepted(
                #[trigger] components_of(*thresholded)[i],
                *config,
            ) && components_of(*thresholded)[i].coords().len() == 0,
        config.min_size.0 >= 1 && config.min_size.1 >= 1 ==> r matches Ok(leds),
{
    let areas = find_leds_areas(thresholded);
    let resized_dims = (resized.width, resized.height);
    let n: usize = areas.len();
    let mut leds: Vec<Led> = Vec::new();
    let mut i: usize = 0;
    while i < n
        invariant
            resized.wf(),
            thresholded.wf(),
            metrics.wf(),
            thresholded.width == resized.width,
            thresholded.height == resized.height,
            metrics.width == resized.width,
            metrics.height == resized.height,
            resized.width >= 1,
            resized.height >= 1,
            resized_dims == (resized.width, resized.height),
            extraction_ok(*thresholded, areas@),
            areas@ == components_of(*thresholded),
            n == areas@.len(),
            i <= n,
            leds@ == leds_of(areas@.take(i as int), *resized, *metrics, original_dims, *config),
            forall|j: int|
                0 <= j < i && accepted(#[trigger] areas@[j], *config) ==> areas@[j].coords().len()
                    > 0,
        decreases n - i,
    {
        let b = areas[i];
        proof {
            assert(box_in_bounds(areas@[i as int], thresholded.width as int, thresholded.height as int));
        }
        if b.is_within_size_bounds(config.min_size, config.max_size) {
            let color = match crate::colors::detect_color(resized, metrics, &b) {
                Ok(c) => c,
                Err(e) => {
                    proof {
                        assert(b.coords().len() == 0);
                        assert(0 <= i < components_of(*thresholded).len() && accepted(
                            components_of(*thresholded)[i as int],
                            *config,
                        ) && components_of(*thresholded)[i as int].coords().len() == 0);
                        if config.min_size.0 >= 1 && config.min_size.1 >= 1 {
                            assert(b.span_x() * b.span_y() >= 1) by (nonlinear_arith)
                                requires
                                    b.span_x() >= 1,
                                    b.span_y() >= 1,
                            ;
                            assert(false);
                        }
                    }
                    return Err(e);
                },
            };
            let bbox_on_original = match crate::utils::bbox_resize(
                &b,
                &original_dims,
                &resized_dims,
            ) {
                Ok(bb) => bb,
                Err(_) => {
                    proof {
                        assert(false);
                    }
                    return Err(Error::InvalidRange);
                },
            };
            leds.push(Led { bbox: bbox_on_original, color });
        }
        proof {
            assert(areas@.take(i + 1).drop_last() =~= areas@.take(i as int));
            assert(areas@.take(i + 1).last() == areas@[i as int]);
        }
        i = i + 1;
    }
    proof {
        assert(areas@.take(n as int) =~= areas@);
        assert(leds@ == leds_of(
            components_of(*thresholded),
            *resized,
            *metrics,
            original_dims,
            *config,
        ));
    }
    Ok(leds)
}

/// No raster position of an all-background mask is a seed.
proof fn lemma_blank_mask_no_seeds(mask: GrayImage, k: int)
    requires
        mask.wf(),
        k <= mask.pixels@.len(),
        forall|i: int| 0 <= i < mask.pixels@.len() ==> mask.pixels@[i] == 255,
    ensures
        seeds_upto(mask, k).len() == 0,
    decreases k,
{
    if k > 0 {
        lemma_blank_mask_no_seeds(mask, k - 1);
        let w = mask.width as int;
        assert(w >= 1) by (nonlinear_arith)
            requires
                w * mask.height >= k,
                k > 0,
                w >= 0,
                mask.height >= 0,
        ;
        let p = (((k - 1) % w), ((k - 1) / w));
        if is_seed(mask, p) {
            // a seed is a foreground pixel, but every sample is background
            assert(fg_at(mask, p));
            vstd::arithmetic::div_mod::lemma_fundamental_div_mod(k - 1, w);
            assert(p.1 * w + p.0 == k - 1) by (nonlinear_arith)
                requires
                    k - 1 == w * ((k - 1) / w) + (k - 1) % w,
                    p.0 == (k - 1) % w,
                    p.1 == (k - 1) / w,
            ;
            assert(mask.pixels@[p.1 * w + p.0] == 255);
            assert(false);
        }
    }
}

/// A mask with no foreground pixel has no bright region at all.
pub proof fn lemma_blank_mask_no_components(mask: GrayImage)
    requires
        mask.wf(),
        forall|i: int| 0 <= i < mask.pixels@.len() ==> mask.pixels@[i] == 255,
    ensures
        components_of(mask).len() == 0,
{
    lemma_blank_mask_no_seeds(mask, (mask.width as int) * (mask.height as int));
}

/// Preprocessing with two equal blur radii yields an all-background mask,
/// which has no bright region: detection on such a mask returns the
/// detections of an empty component list, which is the empty list.
pub proof fn lemma_equal_radii_no_detections(
    resized: ColorImage,
    mask: GrayImage,
    radius: int,
    t: u8,
)
    requires
        mask.wf(),
        forall|i: int|
            0 <= i < mask.pixels@.len() ==> mask.pixels@[i] == crate::preprocessor::threshold_of(
                crate::preprocessor::dog_pixel(
                    resized.pixels@,
                    resized.width as int,
                    resized.height as int,
                    radius,
                    radius,
                    i,
                ),
                t,
            ),
    ensures
        components_of(mask).len() == 0,
{
    assert forall|i: int| 0 <= i < mask.pixels@.len() implies mask.pixels@[i] == 255 by {
        crate::preprocessor::lemma_equal_radii_background(
            resized.pixels@,
            resized.width as int,
            resized.height as int,
            radius,
            t,
            i,
        );
    }
    lemma_blank_mask_no_components(mask);
}

} // verus!
