use vstd::prelude::*;
use crate::image_buf::{
    average_value, avg_channel_spec, col_total, lemma_avg_channel_bounds,
    lemma_col_total_bounds, lemma_region_total_bounds, lemma_uniform_average, region_total,
    rect_in_image, RGBAImage, Rgba,
};
use crate::math::{weighted_error, weighted_error_spec, lemma_uniform_weighted_error_zero, MAX_CANDIDATE_ERROR};
use crate::rect::Rectangle;

verus! {

/// The square of an integer.
pub open spec fn sq(d: int) -> int {
    d * d
}

/// Squared deviation of channel `c` from the region's average, as a
/// function of the pixel position.
pub open spec fn dev_sq_fn(im: RGBAImage, r: Rectangle, c: int) -> spec_fn(int, int) -> int {
    |x: int, y: int| sq(im.channel(x, y, c) as int - avg_channel_spec(im, r, c))
}

/// Sum over the region `r` of the squared deviation of channel `c` from the
/// region's average.
pub open spec fn ssd_channel_spec(im: RGBAImage, r: Rectangle, c: int) -> int {
    region_total(
        dev_sq_fn(im, r, c),
        r.top_left.x as int,
        r.bottom_right.x as int,
        r.top_left.y as int,
        r.bottom_right.y as int,
    )
}

/// The weighted error of region `r` of `im`: the luminance-weighted mean of
/// the per-channel root-mean-square deviations from the average color,
/// biased by the quartic root of the area.
pub open spec fn error_spec(im: RGBAImage, r: Rectangle) -> int {
    weighted_error_spec(
        ssd_channel_spec(im, r, 0),
        ssd_channel_spec(im, r, 1),
        ssd_channel_spec(im, r, 2),
        r.area_spec(),
        r.area_spec(),
    )
}

/// A region whose pixels all equal one color has weighted error zero.
pub proof fn lemma_uniform_error_zero(im: RGBAImage, r: Rectangle, col: Rgba)
    requires
        r.non_degenerate(),
        forall|x: int, y: int| #[trigger] r.contains(x, y) ==> im.pixel_spec(x, y) == col,
    ensures
        error_spec(im, r) == 0,
{
    let x0 = r.top_left.x as int;
    let x1 = r.bottom_right.x as int;
    let y0 = r.top_left.y as int;
    let y1 = r.bottom_right.y as int;
    let area = r.area_spec();
    assert(area >= 1) by (nonlinear_arith)
        requires x1 - x0 >= 1, y1 - y0 >= 1, area == (x1 - x0) * (y1 - y0),
    ;
    lemma_uniform_average(im, r, col);
    let chans = seq![col.r as int, col.g as int, col.b as int];
    assert forall|c: int| 0 <= c < 3 implies ssd_channel_spec(im, r, c) == 0 by {
        lemma_avg_channel_bounds(im, r, c);
        let f = dev_sq_fn(im, r, c);
        assert forall|x: int, y: int| x0 <= x < x1 && y0 <= y < y1 implies 0 <= #[trigger] f(x, y)
            <= 0 by {
            assert(r.contains(x, y));
            assert(im.pixel_spec(x, y) == col);
            assert(im.channel(x, y, c) as int == avg_channel_spec(im, r, c));
            assert(f(x, y) == sq(0));
        }
        lemma_region_total_bounds(f, x0, x1, y0, y1, 0, 0);
        assert(0 * ((x1 - x0) * (y1 - y0)) == 0) by (nonlinear_arith);
    }
    assert(ssd_channel_spec(im, r, 0) == 0);
    assert(ssd_channel_spec(im, r, 1) == 0);
    assert(ssd_channel_spec(im, r, 2) == 0);
    lemma_uniform_weighted_error_zero(area, area);
}

/// Weighted error of the region `r` of `im`.
pub fn error_image(r: &Rectangle, im: &RGBAImage) -> (e: u64)
    requires
        im.wf(),
        r.non_degenerate(),
        rect_in_image(*r, *im),
    ensures
        e == error_spec(*im, *r),
        e <= MAX_CANDIDATE_ERROR,
{
    let avg = average_value(r, im);
    proof {
        im.lemma_dims_bounds();
        lemma_avg_channel_bounds(*im, *r, 0);
        lemma_avg_channel_bounds(*im, *r, 1);
        lemma_avg_channel_bounds(*im, *r, 2);
    }
    let ghost f0 = dev_sq_fn(*im, *r, 0);
    let ghost f1 = dev_sq_fn(*im, *r, 1);
    let ghost f2 = dev_sq_fn(*im, *r, 2);
    let x0 = r.top_left.x;
    let x1 = r.bottom_right.x;
    let y0 = r.top_left.y;
    let y1 = r.bottom_right.y;
    let ghost gx0 = x0 as int;
    let ghost gx1 = x1 as int;
    let ghost gy0 = y0 as int;
    let ghost gy1 = y1 as int;
    proof {
        assert forall|x: int, y: int| #![trigger f0(x, y)] #![trigger f1(x, y)] #![trigger f2(x, y)]
            gx0 <= x < gx1 && gy0 <= y < gy1 implies 0 <= f0(x, y) <= 65025 && 0 <= f1(x, y)
            <= 65025 && 0 <= f2(x, y) <= 65025 by {
            lemma_dev_sq_bounds(im.channel(x, y, 0) as int, avg_channel_spec(*im, *r, 0));
            lemma_dev_sq_bounds(im.channel(x, y, 1) as int, avg_channel_spec(*im, *r, 1));
            lemma_dev_sq_bounds(im.channel(x, y, 2) as int, avg_channel_spec(*im, *r, 2));
        }
    }
    let mut ssd_r: u128 = 0;
    let mut ssd_g: u128 = 0;
    let mut ssd_b: u128 = 0;
    let mut x = x0;
    while x < x1
        invariant
            im.wf(),
            rect_in_image(*r, *im),
            x0 <= x <= x1,
            y0 < y1,
            x0 == r.top_left.x && x1 == r.bottom_right.x,
            y0 == r.top_left.y && y1 == r.bottom_right.y,
            gx0 == x0 as int && gx1 == x1 as int && gy0 == y0 as int && gy1 == y1 as int,
            f0 == dev_sq_fn(*im, *r, 0) && f1 == dev_sq_fn(*im, *r, 1) && f2 == dev_sq_fn(*im, *r, 2),
            avg == crate::image_buf::average_spec(*im, *r),
            forall|xx: int, yy: int|
                #![trigger f0(xx, yy)]
                #![trigger f1(xx, yy)]
                #![trigger f2(xx, yy)]
                gx0 <= xx < gx1 && gy0 <= yy < gy1 ==> 0 <= f0(xx, yy) <= 65025 && 0 <= f1(
                    xx,
                    yy,
                ) <= 65025 && 0 <= f2(xx, yy) <= 65025,
            ssd_r == region_total(f0, gx0, x as int, gy0, gy1),
            ssd_g == region_total(f1, gx0, x as int, gy0, gy1),
            ssd_b == region_total(f2, gx0, x as int, gy0, gy1),
        decreases x1 - x,
    {
        let mut y = y0;
        while y < y1
            invariant
                im.wf(),
                rect_in_image(*r, *im),
                x0 <= x < x1,
                y0 <= y <= y1,
                x0 == r.top_left.x && x1 == r.bottom_right.x,
                y0 == r.top_left.y && y1 == r.bottom_right.y,
                gx0 == x0 as int && gx1 == x1 as int && gy0 == y0 as int && gy1 == y1 as int,
                f0 == dev_sq_fn(*im, *r, 0) && f1 == dev_sq_fn(*im, *r, 1) && f2 == dev_sq_fn(*im, *r, 2),
                avg == crate::image_buf::average_spec(*im, *r),
                forall|xx: int, yy: int|
                    #![trigger f0(xx, yy)]
                    #![trigger f1(xx, yy)]
                    #![trigger f2(xx, yy)]
                    gx0 <= xx < gx1 && gy0 <= yy < gy1 ==> 0 <= f0(xx, yy) <= 65025 && 0 <= f1(
                        xx,
                        yy,
                    ) <= 65025 && 0 <= f2(xx, yy) <= 65025,
                ssd_r == region_total(f0, gx0, x as int, gy0, gy1) + col_total(f0, x as int, gy0, y as int),
                ssd_g == region_total(f1, gx0, x as int, gy0, gy1) + col_total(f1, x as int, gy0, y as int),
                ssd_b == region_total(f2, gx0, x as int, gy0, gy1) + col_total(f2, x as int, gy0, y as int),
            decreases y1 - y,
        {
            proof {
                lemma_region_total_bounds(f0, gx0, x as int, gy0, gy1, 0, 65025);
                lemma_region_total_bounds(f1, gx0, x as int, gy0, gy1, 0, 65025);
                lemma_region_total_bounds(f2, gx0, x as int, gy0, gy1, 0, 65025);
                lemma_col_total_bounds(f0, x as int, gy0, y as int, 0, 65025);
                lemma_col_total_bounds(f1, x as int, gy0, y as int, 0, 65025);
                lemma_col_total_bounds(f2, x as int, gy0, y as int, 0, 65025);
                assert((x as int - gx0) * (gy1 - gy0) <= im.width_spec() * im.height_spec())
                    by (nonlinear_arith)
                    requires
                        0 <= x as int - gx0 <= im.width_spec(),
                        0 <= gy1 - gy0 <= im.height_spec(),
                        im.width_spec() >= 0,
                        im.height_spec() >= 0,
                ;
                im.lemma_dims_bounds();
                assert(im.width_spec() * im.height_spec() <= 18446744073709551616)
                    by (nonlinear_arith)
                    requires
                        0 <= im.width_spec() < 4294967296,
                        0 <= im.height_spec() < 4294967296,
                ;
            }
            proof {
                lemma_avg_channel_bounds(*im, *r, 0);
                lemma_avg_channel_bounds(*im, *r, 1);
                lemma_avg_channel_bounds(*im, *r, 2);
            }
            let p = im.get_pixel(x, y);
            let dr = abs_diff(p.r, avg.r);
            let dg = abs_diff(p.g, avg.g);
            let db = abs_diff(p.b, avg.b);
            proof {
                lemma_abs_diff_sq(p.r as int, avg.r as int, dr as int);
                lemma_abs_diff_sq(p.g as int, avg.g as int, dg as int);
                lemma_abs_diff_sq(p.b as int, avg.b as int, db as int);
            }
            ssd_r = ssd_r + (dr as u128) * (dr as u128);
            ssd_g = ssd_g + (dg as u128) * (dg as u128);
            ssd_b = ssd_b + (db as u128) * (db as u128);
            y = y + 1;
        }
        x = x + 1;
    }
    let count = r.area();
    proof {
        assert(count as int >= 1) by (nonlinear_arith)
            requires
                count as int == (gx1 - gx0) * (gy1 - gy0),
                gx1 - gx0 >= 1,
                gy1 - gy0 >= 1,
        ;
        lemma_region_total_bounds(f0, gx0, gx1, gy0, gy1, 0, 65025);
        lemma_region_total_bounds(f1, gx0, gx1, gy0, gy1, 0, 65025);
        lemma_region_total_bounds(f2, gx0, gx1, gy0, gy1, 0, 65025);
    }
    weighted_error(ssd_r, ssd_g, ssd_b, count, count)
}

/// Absolute difference of two channel values.
fn abs_diff(a: u8, b: u8) -> (d: u8)
    ensures
        d as int == if a >= b { a - b } else { b - a },
{
    if a >= b {
        a - b
    } else {
        b - a
    }
}

/// The square of the absolute difference is the squared difference.
proof fn lemma_abs_diff_sq(a: int, b: int, d: int)
    requires
        d == if a >= b { a - b } else { b - a },
        0 <= d <= 255,
    ensures
        d * d == sq(a - b),
        0 <= d * d <= 65025,
{
    assert(d * d == (a - b) * (a - b)) by (nonlinear_arith)
        requires d == a - b || d == b - a,
    ;
    assert(d * d <= 65025) by (nonlinear_arith)
        requires 0 <= d <= 255,
    ;
    assert(d * d >= 0) by (nonlinear_arith);
}

/// The squared deviation of a channel from an average in range lies between
/// 0 and 65025.
proof fn lemma_dev_sq_bounds(ch: int, avg: int)
    requires
        0 <= ch <= 255,
        0 <= avg <= 255,
    ensures
        0 <= sq(ch - avg) <= 65025,
{
    assert(0 <= (ch - avg) * (ch - avg) <= 65025) by (nonlinear_arith)
        requires -255 <= ch - avg <= 255,
    ;
}

} // verus!
