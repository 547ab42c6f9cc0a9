use vstd::prelude::*;
use vstd::arithmetic::div_mod::lemma_div_by_multiple;
use vstd::arithmetic::div_mod::lemma_div_is_ordered;
use vstd::arithmetic::div_mod::lemma_div_pos_is_pos;
use vstd::arithmetic::mul::lemma_mul_inequality;
use vstd::arithmetic::mul::lemma_mul_upper_bound;
use crate::fixed::{ComplexPoint, Fixed};

verus! {

/// Output image size in pixels.
#[derive(Clone, Copy, PartialEq, Eq, Structural, Debug)]
pub struct ImageBounds {
    pub width: usize,
    pub height: usize,
}

/// Largest pixel extent accepted on each axis (2^15): keeps the buffer
/// length and every row offset within `usize` on every machine.
pub const MAX_DIM: usize = 32768;

/// Largest coordinate magnitude accepted, in fixed-point units: 8.0, that is
/// 8 * SCALE = 2^27. The Mandelbrot set lies well inside this square, and the
/// bound keeps every intermediate product of the pixel mapping and of the
/// escape iteration inside `i64`.
pub const COORD_LIMIT: i64 = 134217728;

impl ImageBounds {
    /// Both extents positive and small enough that `row * width + col` and
    /// every product taken during the pixel mapping fit the machine types.
    pub open spec fn valid(self) -> bool {
        0 < self.width <= MAX_DIM && 0 < self.height <= MAX_DIM
    }

    /// Accepts exactly the sizes `valid` allows.
    pub fn new(width: usize, height: usize) -> (r: Option<ImageBounds>)
        ensures
            match r {
                Some(b) => b == (ImageBounds { width, height }) && b.valid(),
                None => !(ImageBounds { width, height }).valid(),
            },
    {
        if 0 < width && width <= MAX_DIM && 0 < height && height <= MAX_DIM {
            Some(ImageBounds { width, height })
        } else {
            None
        }
    }
}

/// The rectangle of the complex plane mapped onto the image. `re` grows
/// rightward and `im` shrinks downward, as on the image.
#[derive(Clone, Copy, PartialEq, Eq, Structural, Debug)]
pub struct Viewport {
    pub upper_left: ComplexPoint,
    pub lower_right: ComplexPoint,
}

impl Viewport {
    /// Horizontal extent in fixed-point units.
    pub open spec fn width_units(self) -> int {
        self.lower_right.re.units - self.upper_left.re.units
    }

    /// Vertical extent in fixed-point units.
    pub open spec fn height_units(self) -> int {
        self.upper_left.im.units - self.lower_right.im.units
    }

    /// Corners bounded and properly ordered.
    pub open spec fn valid(self) -> bool {
        &&& -COORD_LIMIT <= self.upper_left.re.units <= COORD_LIMIT
        &&& -COORD_LIMIT <= self.upper_left.im.units <= COORD_LIMIT
        &&& -COORD_LIMIT <= self.lower_right.re.units <= COORD_LIMIT
        &&& -COORD_LIMIT <= self.lower_right.im.units <= COORD_LIMIT
        &&& self.upper_left.re.units < self.lower_right.re.units
        &&& self.upper_left.im.units > self.lower_right.im.units
    }

    /// Accepts exactly the corner pairs `valid` allows.
    pub fn new(upper_left: ComplexPoint, lower_right: ComplexPoint) -> (r: Option<Viewport>)
        ensures
            match r {
                Some(v) => v == (Viewport { upper_left, lower_right }) && v.valid(),
                None => !(Viewport { upper_left, lower_right }).valid(),
            },
    {
        let v = Viewport { upper_left, lower_right };
        if -COORD_LIMIT <= upper_left.re.units && upper_left.re.units <= COORD_LIMIT
            && -COORD_LIMIT <= upper_left.im.units && upper_left.im.units <= COORD_LIMIT
            && -COORD_LIMIT <= lower_right.re.units && lower_right.re.units <= COORD_LIMIT
            && -COORD_LIMIT <= lower_right.im.units && lower_right.im.units <= COORD_LIMIT
            && upper_left.re.units < lower_right.re.units
            && upper_left.im.units > lower_right.im.units {
            Some(v)
        } else {
            None
        }
    }
}

/// Real part of the plane point of pixel column `col`:
/// upper_left.re + col * width / bounds.width, in units, rounding down.
pub open spec fn point_re(bounds: ImageBounds, col: int, vp: Viewport) -> int {
    vp.upper_left.re.units + (col * vp.width_units()) / (bounds.width as int)
}

/// Imaginary part of the plane point of pixel row `row`:
/// upper_left.im - row * height / bounds.height, in units, rounding toward
/// the upper edge.
pub open spec fn point_im(bounds: ImageBounds, row: int, vp: Viewport) -> int {
    vp.upper_left.im.units - (row * vp.height_units()) / (bounds.height as int)
}

/// Maps a pixel coordinate to the point of the complex plane at its upper
/// left corner, by the affine map that sends pixel (0, 0) to the viewport's
/// upper left corner and pixel (width, height) to its lower right corner.
pub fn pixel_to_point(bounds: ImageBounds, pixel: (usize, usize), viewport: Viewport) -> (r:
    ComplexPoint)
    requires
        bounds.valid(),
        viewport.valid(),
        pixel.0 <= bounds.width,
        pixel.1 <= bounds.height,
    ensures
        r.re.units == point_re(bounds, pixel.0 as int, viewport),
        r.im.units == point_im(bounds, pixel.1 as int, viewport),
        viewport.upper_left.re.units <= r.re.units <= viewport.lower_right.re.units,
        viewport.lower_right.im.units <= r.im.units <= viewport.upper_left.im.units,
{
    let w_units: i64 = viewport.lower_right.re.units - viewport.upper_left.re.units;
    let h_units: i64 = viewport.upper_left.im.units - viewport.lower_right.im.units;
    proof {
        lemma_mul_inequality(pixel.0 as int, bounds.width as int, w_units as int);
        lemma_div_is_ordered(
            pixel.0 * w_units,
            (bounds.width as int) * (w_units as int),
            bounds.width as int,
        );
        lemma_div_by_multiple(w_units as int, bounds.width as int);
        lemma_div_pos_is_pos(pixel.0 * w_units, bounds.width as int);
        lemma_mul_inequality(pixel.1 as int, bounds.height as int, h_units as int);
        lemma_div_is_ordered(
            pixel.1 * h_units,
            (bounds.height as int) * (h_units as int),
            bounds.height as int,
        );
        lemma_div_by_multiple(h_units as int, bounds.height as int);
        lemma_div_pos_is_pos(pixel.1 * h_units, bounds.height as int);
        lemma_mul_upper_bound(
            pixel.0 as int,
            MAX_DIM as int,
            w_units as int,
            2 * (COORD_LIMIT as int),
        );
        lemma_mul_upper_bound(
            pixel.1 as int,
            MAX_DIM as int,
            h_units as int,
            2 * (COORD_LIMIT as int),
        );
    }
    let col_off: u64 = (pixel.0 as u64) * (w_units as u64) / (bounds.width as u64);
    let row_off: u64 = (pixel.1 as u64) * (h_units as u64) / (bounds.height as u64);
    ComplexPoint {
        re: Fixed { units: viewport.upper_left.re.units + (col_off as i64) },
        im: Fixed { units: viewport.upper_left.im.units - (row_off as i64) },
    }
}

/// The map is exact at the corners: pixel (0, 0) lands on the upper left
/// corner of the viewport and pixel (width, height) on the lower right one.
pub proof fn lemma_corner_points(bounds: ImageBounds, vp: Viewport)
    requires
        bounds.width > 0,
        bounds.height > 0,
    ensures
        point_re(bounds, 0, vp) == vp.upper_left.re.units,
        point_im(bounds, 0, vp) == vp.upper_left.im.units,
        point_re(bounds, bounds.width as int, vp) == vp.lower_right.re.units,
        point_im(bounds, bounds.height as int, vp) == vp.lower_right.im.units,
{
    let w = bounds.width as int;
    let h = bounds.height as int;
    assert((0int * vp.width_units()) / w == 0) by {
        lemma_div_pos_is_pos(0int * vp.width_units(), w);
        lemma_div_is_ordered(0int * vp.width_units(), 0, w);
        lemma_div_pos_is_pos(0, w);
        lemma_div_is_ordered(0, 0int * vp.width_units(), w);
    }
    assert((0int * vp.height_units()) / h == 0) by {
        lemma_div_pos_is_pos(0int * vp.height_units(), h);
        lemma_div_is_ordered(0int * vp.height_units(), 0, h);
        lemma_div_pos_is_pos(0, h);
        lemma_div_is_ordered(0, 0int * vp.height_units(), h);
    }
    assert((w * vp.width_units()) / w == vp.width_units()) by {
        vstd::arithmetic::div_mod::lemma_div_multiples_vanish(vp.width_units(), w);
    }
    assert((h * vp.height_units()) / h == vp.height_units()) by {
        vstd::arithmetic::div_mod::lemma_div_multiples_vanish(vp.height_units(), h);
    }
}

/// The map is monotone: moving right never decreases `re`, moving down never
/// increases `im`.
pub proof fn lemma_map_monotone(bounds: ImageBounds, vp: Viewport, a: int, b: int)
    requires
        bounds.valid(),
        vp.valid(),
        0 <= a <= b,
    ensures
        point_re(bounds, a, vp) <= point_re(bounds, b, vp),
        point_im(bounds, a, vp) >= point_im(bounds, b, vp),
{
    lemma_mul_inequality(a, b, vp.width_units());
    lemma_div_is_ordered(a * vp.width_units(), b * vp.width_units(), bounds.width as int);
    lemma_mul_inequality(a, b, vp.height_units());
    lemma_div_is_ordered(a * vp.height_units(), b * vp.height_units(), bounds.height as int);
}

} // verus!
