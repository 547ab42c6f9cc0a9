use vstd::prelude::*;
use vstd::arithmetic::div_mod::{
    lemma_div_is_ordered, lemma_div_plus_one, lemma_div_pos_is_pos, lemma_fundamental_div_mod,
};
use vstd::arithmetic::mul::{lemma_mul_inequality, lemma_mul_is_commutative};
use crate::geometry::{lemma_corner_points, pixel_to_point, point_im, point_re, ImageBounds,
    Viewport};
use crate::render::{is_render_of, pixel_intensity, render_rows};

verus! {

/// One horizontal slice of the output image, assigned to one rendering
/// task: the rows [top, top + height) of the full image, with its own
/// bounds and the sub-viewport obtained by mapping its corner pixels
/// through the full-image geometry.
#[derive(Clone, Copy, PartialEq, Eq, Structural, Debug)]
pub struct Band {
    pub top: usize,
    pub height: usize,
    pub bounds: ImageBounds,
    pub viewport: Viewport,
}

/// Ceiling division for positive `b`.
pub open spec fn div_ceil_spec(a: int, b: int) -> int {
    (a + b - 1) / b
}

/// Rows given to each band: the height split evenly over the workers,
/// rounded up.
pub open spec fn rows_per_band_spec(height: int, workers: int) -> int {
    div_ceil_spec(height, workers)
}

/// Number of non-empty bands that result.
pub open spec fn band_count_spec(height: int, workers: int) -> int {
    div_ceil_spec(height, rows_per_band_spec(height, workers))
}

/// The bands split `bounds` into contiguous row slices of rows_per_band
/// rows each (the last possibly shorter), in order, covering every row
/// exactly once, each carrying its own bounds and the sub-viewport mapped
/// from its corner pixels through the full-image geometry.
pub open spec fn is_band_partition(
    bands: Seq<Band>,
    bounds: ImageBounds,
    vp: Viewport,
    workers: int,
) -> bool {
    let rpb = rows_per_band_spec(bounds.height as int, workers);
    &&& bands.len() == band_count_spec(bounds.height as int, workers)
    &&& bands.len() > 0
    &&& forall|i: int|
        0 <= i < bands.len() ==> {
            let b = #[trigger] bands[i];
            &&& b.top == i * rpb
            &&& b.height == (if b.top + rpb <= bounds.height {
                rpb
            } else {
                bounds.height - b.top
            })
            &&& 0 < b.height
            &&& b.top + b.height <= bounds.height
            &&& b.bounds == (ImageBounds { width: bounds.width, height: b.height })
            &&& b.viewport.upper_left.re.units == point_re(bounds, 0, vp)
            &&& b.viewport.upper_left.im.units == point_im(bounds, b.top as int, vp)
            &&& b.viewport.lower_right.re.units == point_re(bounds, bounds.width as int, vp)
            &&& b.viewport.lower_right.im.units == point_im(
                bounds,
                b.top + b.height,
                vp,
            )
        }
    &&& bands[bands.len() - 1].top + bands[bands.len() - 1].height == bounds.height
}

/// Splits the image into the bands that `is_band_partition` describes: one
/// per worker of ceil(height / workers) rows, except that a shorter tail
/// row count makes a shorter last band and worker counts above the height
/// produce fewer, single-row bands.
pub fn make_bands(bounds: ImageBounds, viewport: Viewport, workers: usize) -> (r: Vec<Band>)
    requires
        bounds.valid(),
        viewport.valid(),
        workers >= 1,
    ensures
        is_band_partition(r@, bounds, viewport, workers as int),
{
    let h = bounds.height;
    let rpb: usize = (h - 1) / workers + 1;
    let n: usize = (h - 1) / rpb + 1;
    proof {
        lemma_div_plus_one(h - 1, workers as int);
        lemma_div_pos_is_pos(h - 1, workers as int);
        assert((h - 1) / (workers as int) <= h - 1) by {
            lemma_div_is_ordered_by_denominator_helper(h - 1, workers as int);
        }
        lemma_div_plus_one(h - 1, rpb as int);
        lemma_div_pos_is_pos(h - 1, rpb as int);
        assert((h - 1) / (rpb as int) <= h - 1) by {
            lemma_div_is_ordered_by_denominator_helper(h - 1, rpb as int);
        }
    }
    let mut bands: Vec<Band> = Vec::new();
    let mut i: usize = 0;
    while i < n
        invariant
            bounds.valid(),
            viewport.valid(),
            1 <= rpb <= h,
            h == bounds.height,
            rpb == rows_per_band_spec(bounds.height as int, workers as int),
            n == band_count_spec(bounds.height as int, workers as int),
            n <= h,
            i <= n,
            bands@.len() == i,
            forall|j: int|
                0 <= j < i ==> {
                    let b = #[trigger] bands@[j];
                    &&& b.top == j * rpb
                    &&& b.height == (if b.top + rpb <= bounds.height {
                        rpb as int
                    } else {
                        bounds.height - b.top
                    })
                    &&& 0 < b.height
                    &&& b.top + b.height <= bounds.height
                    &&& b.bounds == (ImageBounds { width: bounds.width, height: b.height })
                    &&& b.viewport.upper_left.re.units == point_re(bounds, 0, viewport)
                    &&& b.viewport.upper_left.im.units == point_im(bounds, b.top as int, viewport)
                    &&& b.viewport.lower_right.re.units == point_re(
                        bounds,
                        bounds.width as int,
                        viewport,
                    )
                    &&& b.viewport.lower_right.im.units == point_im(
                        bounds,
                        b.top + b.height,
                        viewport,
                    )
                },
        decreases n - i,
    {
        proof {
            assert(i * rpb <= (n - 1) * rpb) by {
                lemma_mul_inequality(i as int, n - 1, rpb as int);
            }
            assert((n - 1) * rpb <= h - 1) by {
                lemma_div_plus_one(h - 1, rpb as int);
                lemma_fundamental_div_mod(h - 1, rpb as int);
                lemma_mul_is_commutative(n - 1, rpb as int);
            }
            assert(0 <= i * rpb) by { lemma_mul_inequality(0, i as int, rpb as int) }
        }
        let top: usize = i * rpb;
        let bh: usize = if top + rpb <= h {
            rpb
        } else {
            h - top
        };
        let ul = pixel_to_point(bounds, (0, top), viewport);
        let lr = pixel_to_point(bounds, (bounds.width, top + bh), viewport);
        let band = Band {
            top,
            height: bh,
            bounds: ImageBounds { width: bounds.width, height: bh },
            viewport: Viewport { upper_left: ul, lower_right: lr },
        };
        bands.push(band);
        i = i + 1;
    }
    proof {
        let last = bands@[bands@.len() - 1];
        assert(last.top + last.height == bounds.height) by {
            lemma_div_plus_one(h - 1, rpb as int);
            lemma_fundamental_div_mod(h - 1, rpb as int);
            lemma_mul_is_commutative(n - 1, rpb as int);
        }
    }
    bands
}

/// Dividing a non-negative number by a positive divisor never increases it.
proof fn lemma_div_is_ordered_by_denominator_helper(x: int, d: int)
    requires
        0 <= x,
        1 <= d,
    ensures
        x / d <= x,
{
    vstd::arithmetic::div_mod::lemma_div_nonincreasing(x, d);
}

/// The band width is at least one row.
proof fn lemma_rpb_positive(bounds: ImageBounds, workers: int)
    requires
        bounds.valid(),
        workers >= 1,
    ensures
        1 <= rows_per_band_spec(bounds.height as int, workers) <= bounds.height,
{
    let h = bounds.height as int;
    lemma_div_is_ordered(workers, h + workers - 1, workers);
    vstd::arithmetic::div_mod::lemma_div_by_self(workers);
    lemma_div_plus_one(h - 1, workers);
    lemma_div_pos_is_pos(h - 1, workers);
    lemma_div_is_ordered_by_denominator_helper(h - 1, workers);
}

/// Law: every pixel row of the image belongs to at least one band (with
/// `lemma_bands_disjoint`, to exactly one): the bands cover [0, height)
/// with no gap.
pub proof fn lemma_bands_cover(
    bands: Seq<Band>,
    bounds: ImageBounds,
    vp: Viewport,
    workers: int,
    row: int,
)
    requires
        bounds.valid(),
        workers >= 1,
        is_band_partition(bands, bounds, vp, workers),
        0 <= row < bounds.height,
    ensures
        exists|i: int|
            0 <= i < bands.len() && ((#[trigger] bands[i]).top <= row < bands[i].top
                + bands[i].height),
{
    let h = bounds.height as int;
    let rpb = rows_per_band_spec(h, workers);
    lemma_rpb_positive(bounds, workers);
    let i = row / rpb;
    lemma_div_pos_is_pos(row, rpb);
    lemma_div_is_ordered(row, h - 1, rpb);
    lemma_div_plus_one(h - 1, rpb);
    lemma_fundamental_div_mod(row, rpb);
    lemma_mul_is_commutative(i, rpb);
    assert(bands[i].top <= row < bands[i].top + bands[i].height);
}

/// Law: two distinct bands never overlap: the earlier one ends at or
/// before the later one begins, both as row ranges and as byte ranges of
/// the row-major buffer, so concurrent renderers of distinct bands never
/// write to a common offset.
pub proof fn lemma_bands_disjoint(
    bands: Seq<Band>,
    bounds: ImageBounds,
    vp: Viewport,
    workers: int,
    i: int,
    j: int,
)
    requires
        bounds.valid(),
        workers >= 1,
        is_band_partition(bands, bounds, vp, workers),
        0 <= i < j < bands.len(),
    ensures
        bands[i].top + bands[i].height <= bands[j].top,
        (bands[i].top + bands[i].height) * bounds.width <= bands[j].top * bounds.width,
{
    let rpb = rows_per_band_spec(bounds.height as int, workers);
    lemma_rpb_positive(bounds, workers);
    assert((i + 1) * rpb == i * rpb + rpb) by (nonlinear_arith);
    lemma_mul_inequality(i + 1, j, rpb);
    lemma_mul_inequality(bands[i].top + bands[i].height, bands[j].top as int, bounds.width as int);
}

/// Law: mapping a band's own corner pixels through its own geometry gives
/// back exactly its viewport corners, which are in turn exactly the
/// full-image mapping of the same global pixels: bands compose with no
/// seam or drift.
pub proof fn lemma_band_corners(
    bands: Seq<Band>,
    bounds: ImageBounds,
    vp: Viewport,
    workers: int,
    i: int,
)
    requires
        bounds.valid(),
        is_band_partition(bands, bounds, vp, workers),
        0 <= i < bands.len(),
    ensures
        point_re(bands[i].bounds, 0, bands[i].viewport) == point_re(bounds, 0, vp),
        point_im(bands[i].bounds, 0, bands[i].viewport) == point_im(bounds, bands[i].top as int, vp),
        point_re(bands[i].bounds, bands[i].bounds.width as int, bands[i].viewport) == point_re(
            bounds,
            bounds.width as int,
            vp,
        ),
        point_im(bands[i].bounds, bands[i].bounds.height as int, bands[i].viewport) == point_im(
            bounds,
            bands[i].top + bands[i].height,
            vp,
        ),
{
    lemma_corner_points(bands[i].bounds, bands[i].viewport);
}

/// Allocates the output buffer and renders every band into its own slice
/// of it, in band order: the parallel dispatcher's plan, whose result is
/// the one rendering `is_render_of` pins down, whatever the worker count.
pub fn render_image(bounds: ImageBounds, viewport: Viewport, workers: usize) -> (r: Vec<u8>)
    requires
        bounds.valid(),
        viewport.valid(),
        workers >= 1,
    ensures
        is_render_of(r@, bounds, viewport),
{
    let bands = make_bands(bounds, viewport, workers);
    let mut buf: Vec<u8> = Vec::new();
    let mut k: usize = 0;
    while k < bands.len()
        invariant
            bounds.valid(),
            viewport.valid(),
            workers >= 1,
            is_band_partition(bands@, bounds, viewport, workers as int),
            k <= bands@.len(),
            buf@.len() == (if k < bands@.len() {
                bands@[k as int].top as int
            } else {
                bounds.height as int
            }) * bounds.width,
            forall|row: int, col: int|
                0 <= row && row < (if k < bands@.len() {
                    bands@[k as int].top as int
                } else {
                    bounds.height as int
                }) && 0 <= col < bounds.width ==> buf@[row * bounds.width + col]
                    == #[trigger] pixel_intensity(bounds, viewport, col, row),
        decreases bands@.len() - k,
    {
        let band = bands[k];
        let ghost t = band.top as int;
        let ghost hh = band.height as int;
        let ghost w = bounds.width as int;
        let ghost prev = buf@;
        let mut part = render_rows(bounds, viewport, band.top, band.height);
        let ghost partview = part@;
        buf.append(&mut part);
        proof {
            let next: int = if k + 1 < bands@.len() {
                bands@[k + 1].top as int
            } else {
                bounds.height as int
            };
            let rpb = rows_per_band_spec(bounds.height as int, workers as int);
            lemma_rpb_positive(bounds, workers as int);
            if k + 1 < bands@.len() {
                assert((k + 1) * rpb == k * rpb + rpb) by (nonlinear_arith);
                assert((k + 2) * rpb == (k + 1) * rpb + rpb) by (nonlinear_arith);
                assert((k + 2) * rpb <= bands@.len() * rpb) by {
                    lemma_mul_inequality(k + 2, bands@.len() as int, rpb);
                }
                assert((bands@.len() - 1) * rpb <= bounds.height - 1) by {
                    lemma_div_plus_one(bounds.height - 1, rpb);
                    lemma_fundamental_div_mod(bounds.height - 1, rpb);
                    lemma_mul_is_commutative(bands@.len() - 1, rpb);
                }
                assert(bands@.len() * rpb == (bands@.len() - 1) * rpb + rpb) by (nonlinear_arith);
            }
            assert(t + hh == next);
            assert((t + hh) * w == t * w + hh * w) by (nonlinear_arith);
            assert(buf@.len() == next * w);
            assert forall|row: int, col: int|
                0 <= row < next && 0 <= col < w implies buf@[row * w + col]
                == #[trigger] pixel_intensity(bounds, viewport, col, row) by {
                if row < t {
                    assert(row * w + col < t * w) by (nonlinear_arith)
                        requires
                            0 <= row <= t - 1,
                            0 <= col < w,
                    ;
                    assert(buf@[row * w + col] == prev[row * w + col]);
                } else {
                    assert(row * w + col == t * w + ((row - t) * w + col)) by (nonlinear_arith);
                    assert(0 <= (row - t) * w + col < hh * w) by (nonlinear_arith)
                        requires
                            0 <= row - t <= hh - 1,
                            0 <= col < w,
                    ;
                    assert(buf@[row * w + col] == partview[(row - t) * w + col]);
                }
            }
        }
        k = k + 1;
    }
    proof {
        lemma_mul_is_commutative(bounds.height as int, bounds.width as int);
    }
    buf
}

} // verus!
