use mandel::bands::{make_bands, render_image};
use mandel::escape::escape_time;
use mandel::fixed::{ComplexPoint, Fixed};
use mandel::geometry::{pixel_to_point, ImageBounds, Viewport};
use mandel::parse::parse_complex;
use mandel::render::render;
use mandel::SCALE;

fn point(re: i64, im: i64) -> ComplexPoint {
    ComplexPoint {
        re: Fixed { units: re },
        im: Fixed { units: im },
    }
}

fn example_viewport() -> Viewport {
    let upper_left = parse_complex("-1.20,0.35").unwrap();
    let lower_right = parse_complex("-1,0.20").unwrap();
    Viewport::new(upper_left, lower_right).unwrap()
}

#[test]
fn corners_map_exactly() {
    let bounds = ImageBounds::new(100, 75).unwrap();
    let vp = example_viewport();
    assert_eq!(pixel_to_point(bounds, (0, 0), vp), vp.upper_left);
    assert_eq!(pixel_to_point(bounds, (100, 75), vp), vp.lower_right);
}

#[test]
fn mapping_is_monotone() {
    let bounds = ImageBounds::new(64, 64).unwrap();
    let vp = example_viewport();
    for i in 1..=64usize {
        let prev = pixel_to_point(bounds, (i - 1, i - 1), vp);
        let here = pixel_to_point(bounds, (i, i), vp);
        assert!(prev.re.units <= here.re.units);
        assert!(prev.im.units >= here.im.units);
    }
}

#[test]
fn escape_origin_never_escapes() {
    for limit in [1usize, 2, 10, 255, 1000] {
        assert_eq!(escape_time(point(0, 0), limit), None);
    }
}

#[test]
fn escape_far_point_escapes_at_zero() {
    // |c| > 2 diverges on the very first update.
    assert_eq!(escape_time(point(3 * SCALE, 0), 255), Some(0));
    assert_eq!(escape_time(point(0, -3 * SCALE), 255), Some(0));
    assert_eq!(escape_time(point(2 * SCALE, 2 * SCALE), 17), Some(0));
}

#[test]
fn escape_boundary_and_zero_limit() {
    // c = -2 + 0i cycles on the boundary: |z| reaches exactly 2, never more.
    assert_eq!(escape_time(point(-2 * SCALE, 0), 255), None);
    // A zero iteration bound can never report an escape.
    assert_eq!(escape_time(point(3 * SCALE, 0), 0), None);
}

#[test]
fn escape_count_below_limit() {
    // A point just outside the set escapes, and the count stays below the bound.
    let r = escape_time(point(SCALE / 4, SCALE), 255);
    match r {
        Some(i) => assert!(i < 255),
        None => panic!("expected an escape"),
    }
}

#[test]
fn bands_partition_rows_exactly() {
    let bounds = ImageBounds::new(100, 75).unwrap();
    let vp = example_viewport();
    let bands = make_bands(bounds, vp, 8);
    assert_eq!(bands.len(), 8);
    let mut next_top = 0usize;
    for band in &bands {
        assert_eq!(band.top, next_top);
        assert!(band.height > 0);
        next_top = band.top + band.height;
    }
    assert_eq!(next_top, 75);
    assert_eq!(bands[0].height, 10);
    assert_eq!(bands[7].height, 5);
}

#[test]
fn bands_carry_exact_sub_viewports() {
    let bounds = ImageBounds::new(100, 75).unwrap();
    let vp = example_viewport();
    for workers in [1usize, 3, 8, 100] {
        let bands = make_bands(bounds, vp, workers);
        for band in &bands {
            assert_eq!(
                band.viewport.upper_left,
                pixel_to_point(bounds, (0, band.top), vp)
            );
            assert_eq!(
                band.viewport.lower_right,
                pixel_to_point(bounds, (100, band.top + band.height), vp)
            );
            assert_eq!(band.bounds.width, 100);
            assert_eq!(band.bounds.height, band.height);
        }
    }
}

#[test]
fn more_workers_than_rows_make_single_row_bands() {
    let bounds = ImageBounds::new(10, 3).unwrap();
    let vp = example_viewport();
    let bands = make_bands(bounds, vp, 8);
    assert_eq!(bands.len(), 3);
    for (i, band) in bands.iter().enumerate() {
        assert_eq!(band.top, i);
        assert_eq!(band.height, 1);
    }
}

#[test]
fn end_to_end_hundred_by_seventy_five() {
    let bounds = ImageBounds::new(100, 75).unwrap();
    let vp = example_viewport();
    let one = render_image(bounds, vp, 1);
    let eight = render_image(bounds, vp, 8);
    assert_eq!(one.len(), 7500);
    assert_eq!(one, eight);
    let whole = render(bounds, vp);
    assert_eq!(whole, one);
    let expected = match escape_time(vp.upper_left, 255) {
        None => 0u8,
        Some(count) => (255 - count) as u8,
    };
    assert_eq!(one[0], expected);
}

#[test]
fn band_render_matches_full_slice() {
    let bounds = ImageBounds::new(32, 20).unwrap();
    let vp = example_viewport();
    let full = render(bounds, vp);
    for band in &make_bands(bounds, vp, 4) {
        let part = mandel::render::render_rows(bounds, vp, band.top, band.height);
        let lo = band.top * 32;
        let hi = (band.top + band.height) * 32;
        assert_eq!(part.as_slice(), &full[lo..hi]);
    }
}

#[test]
fn rendering_writes_nonzero_detail() {
    // The example viewport crosses the set's border, so the image holds both
    // black (inside) and bright (escaping) pixels.
    let bounds = ImageBounds::new(40, 30).unwrap();
    let vp = Viewport::new(point(-2 * SCALE, SCALE), point(SCALE / 2, -SCALE)).unwrap();
    let buf = render(bounds, vp);
    assert!(buf.iter().any(|&b| b == 0));
    assert!(buf.iter().any(|&b| b > 128));
}
