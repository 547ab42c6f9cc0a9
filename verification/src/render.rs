use vstd::prelude::*;
use vstd::arithmetic::div_mod::{
    lemma_div_pos_is_pos, lemma_fundamental_div_mod, lemma_multiply_divide_lt,
};
use vstd::arithmetic::mul::lemma_mul_is_commutative;
use crate::escape::{escape_spec, escape_time};
use crate::geometry::{pixel_to_point, point_im, point_re, ImageBounds, Viewport};

verus! {

/// Iteration bound used for rendering: escape counts then fit a byte.
pub const ITERATION_LIMIT: usize = 255;

/// The grayscale byte of one pixel: 0 for a point that never escapes within
/// ITERATION_LIMIT updates (treated as inside the set, rendered black), and
/// 255 - count for one that escapes after surviving `count` updates.
pub open spec fn pixel_intensity(bounds: ImageBounds, vp: Viewport, col: int, row: int) -> u8 {
    match escape_spec(
        (point_re(bounds, col, vp), point_im(bounds, row, vp)),
        ITERATION_LIMIT as nat,
    ) {
        None => 0u8,
        Some(i) => (255 - i) as u8,
    }
}

/// The buffer is exactly the row-major grayscale rendering of `vp` onto
/// `bounds`: one byte per pixel, each pinned by `pixel_intensity`.
pub open spec fn is_render_of(buf: Seq<u8>, bounds: ImageBounds, vp: Viewport) -> bool {
    &&& buf.len() == bounds.width * bounds.height
    &&& forall|row: int, col: int|
        0 <= row < bounds.height && 0 <= col < bounds.width ==> buf[row * bounds.width + col]
            == #[trigger] pixel_intensity(bounds, vp, col, row)
}

/// Fills the horizontal band of rows [top, top + height_rows) of the image,
/// mapping each pixel through the full-image geometry, so that a band
/// rendering is byte-for-byte the matching slice of the whole rendering.
pub fn render_rows(bounds: ImageBounds, viewport: Viewport, top: usize, height_rows: usize) -> (r:
    Vec<u8>)
    requires
        bounds.valid(),
        viewport.valid(),
        top + height_rows <= bounds.height,
    ensures
        r@.len() == height_rows * bounds.width,
        forall|row: int, col: int|
            top <= row < top + height_rows && 0 <= col < bounds.width ==> r@[(row - top)
                * bounds.width + col] == #[trigger] pixel_intensity(bounds, viewport, col, row),
{
    let mut buf: Vec<u8> = Vec::new();
    let mut row: usize = 0;
    while row < height_rows
        invariant
            bounds.valid(),
            viewport.valid(),
            top + height_rows <= bounds.height,
            row <= height_rows,
            buf@.len() == row * bounds.width,
            forall|r2: int, col: int|
                top <= r2 < top + row && 0 <= col < bounds.width ==> buf@[(r2 - top) * bounds.width
                    + col] == #[trigger] pixel_intensity(bounds, viewport, col, r2),
        decreases height_rows - row,
    {
        let mut col: usize = 0;
        while col < bounds.width
            invariant
                bounds.valid(),
                viewport.valid(),
                top + height_rows <= bounds.height,
                row < height_rows,
                col <= bounds.width,
                buf@.len() == row * bounds.width + col,
                forall|r2: int, c2: int|
                    top <= r2 < top + row && 0 <= c2 < bounds.width ==> buf@[(r2 - top)
                        * bounds.width + c2] == #[trigger] pixel_intensity(bounds, viewport, c2, r2),
                forall|c2: int|
                    0 <= c2 < col ==> buf@[row * bounds.width + c2] == #[trigger] pixel_intensity(
                        bounds,
                        viewport,
                        c2,
                        top + row,
                    ),
            decreases bounds.width - col,
        {
            let point = pixel_to_point(bounds, (col, top + row), viewport);
            let value: u8 = match escape_time(point, ITERATION_LIMIT) {
                None => 0,
                Some(count) => (255 - count) as u8,
            };
            assert(value == pixel_intensity(bounds, viewport, col as int, top + row));
            buf.push(value);
            proof {
                assert forall|r2: int, c2: int|
                    top <= r2 < top + row && 0 <= c2 < bounds.width implies buf@[(r2 - top)
                    * bounds.width + c2] == #[trigger] pixel_intensity(
                    bounds,
                    viewport,
                    c2,
                    r2,
                ) by {
                    assert((r2 - top) * bounds.width + c2 < row * bounds.width)
                        by (nonlinear_arith)
                        requires
                            0 <= r2 - top <= row - 1,
                            0 <= c2 < bounds.width,
                    ;
                }
            }
            col = col + 1;
        }
        row = row + 1;
        proof {
            assert((row - 1) * bounds.width + bounds.width == row * bounds.width)
                by (nonlinear_arith);
            assert forall|r2: int, c2: int|
                top <= r2 < top + row && 0 <= c2 < bounds.width implies buf@[(r2 - top)
                * bounds.width + c2] == #[trigger] pixel_intensity(
                bounds,
                viewport,
                c2,
                r2,
            ) by {
                if r2 == top + row - 1 {
                    assert((r2 - top) * bounds.width == (row - 1) * bounds.width);
                }
            }
        }
    }
    buf
}

/// Renders the whole image: one byte per pixel, row-major, exactly the
/// rendering that `is_render_of` pins down.
pub fn render(bounds: ImageBounds, viewport: Viewport) -> (r: Vec<u8>)
    requires
        bounds.valid(),
        viewport.valid(),
    ensures
        is_render_of(r@, bounds, viewport),
{
    let buf = render_rows(bounds, viewport, 0, bounds.height);
    proof {
        lemma_mul_is_commutative(bounds.height as int, bounds.width as int);
        assert forall|row: int, col: int|
            0 <= row < bounds.height && 0 <= col < bounds.width implies buf@[row * bounds.width
            + col] == #[trigger] pixel_intensity(bounds, viewport, col, row) by {
            assert((row - 0) * bounds.width == row * bounds.width);
        }
    }
    buf
}

/// Law: the rendering is a function of bounds and viewport alone. Any two
/// buffers that satisfy `is_render_of` for the same inputs are
/// byte-identical, so worker count and band layout never change the
/// output.
pub proof fn lemma_render_deterministic(
    b1: Seq<u8>,
    b2: Seq<u8>,
    bounds: ImageBounds,
    vp: Viewport,
)
    requires
        bounds.valid(),
        is_render_of(b1, bounds, vp),
        is_render_of(b2, bounds, vp),
    ensures
        b1 == b2,
{
    let w = bounds.width as int;
    assert forall|n2: int| 0 <= n2 < b1.len() implies b1[n2] == b2[n2] by {
        let row = n2 / w;
        let col = n2 % w;
        lemma_fundamental_div_mod(n2, w);
        lemma_mul_is_commutative(w, row);
        lemma_div_pos_is_pos(n2, w);
        lemma_mul_is_commutative(w, bounds.height as int);
        lemma_multiply_divide_lt(n2, w, bounds.height as int);
        assert(b1[row * w + col] == pixel_intensity(bounds, vp, col, row));
        assert(b2[row * w + col] == pixel_intensity(bounds, vp, col, row));
    }
    assert(b1 =~= b2);
}

} // verus!
