use vstd::prelude::*;
use vstd::arithmetic::div_mod::{
    lemma_div_is_ordered, lemma_div_multiples_vanish, lemma_div_pos_is_pos,
};
use crate::rect::Rectangle;

verus! {

/// One pixel: red, green, blue and alpha channels.
#[derive(Debug, Clone, Copy, PartialEq, Eq, Structural)]
pub struct Rgba {
    pub r: u8,
    pub g: u8,
    pub b: u8,
    pub a: u8,
}

/// Why a pixel buffer could not be built.
#[derive(Debug, Clone, Copy, PartialEq, Eq, Structural)]
pub enum QuadsError {
    /// The byte length does not match the claimed dimensions.
    SizeMismatch,
}

/// A row-major RGBA byte buffer together with its dimensions.
#[derive(Debug, Clone)]
pub struct RGBAImage {
    data: Vec<u8>,
    width: u32,
    height: u32,
}

/// Sum of `f(x, y)` over `y` in `[y0, y1)` at column `x`.
pub open spec fn col_total(f: spec_fn(int, int) -> int, x: int, y0: int, y1: int) -> int
    decreases y1 - y0,
{
    if y1 <= y0 {
        0
    } else {
        col_total(f, x, y0, y1 - 1) + f(x, y1 - 1)
    }
}

/// Sum of `f(x, y)` over the half-open region `[x0, x1) x [y0, y1)`.
pub open spec fn region_total(f: spec_fn(int, int) -> int, x0: int, x1: int, y0: int, y1: int) -> int
    decreases x1 - x0,
{
    if x1 <= x0 {
        0
    } else {
        region_total(f, x0, x1 - 1, y0, y1) + col_total(f, x1 - 1, y0, y1)
    }
}

/// A column sum of values between `lo` and `hi` lies between `lo` and `hi`
/// times the number of summands.
pub proof fn lemma_col_total_bounds(
    f: spec_fn(int, int) -> int,
    x: int,
    y0: int,
    y1: int,
    lo: int,
    hi: int,
)
    requires
        y0 <= y1,
        forall|y: int| y0 <= y < y1 ==> lo <= #[trigger] f(x, y) <= hi,
    ensures
        lo * (y1 - y0) <= col_total(f, x, y0, y1) <= hi * (y1 - y0),
    decreases y1 - y0,
{
    if y1 > y0 {
        lemma_col_total_bounds(f, x, y0, y1 - 1, lo, hi);
        assert(lo * (y1 - y0) == lo * (y1 - 1 - y0) + lo) by (nonlinear_arith);
        assert(hi * (y1 - y0) == hi * (y1 - 1 - y0) + hi) by (nonlinear_arith);
        assert(lo <= f(x, y1 - 1) <= hi);
    } else {
        assert(lo * (y1 - y0) == 0) by (nonlinear_arith)
            requires y1 == y0,
        ;
        assert(hi * (y1 - y0) == 0) by (nonlinear_arith)
            requires y1 == y0,
        ;
    }
}

/// A region sum of values between `lo` and `hi` lies between `lo` and `hi`
/// times the pixel count of the region.
pub proof fn lemma_region_total_bounds(
    f: spec_fn(int, int) -> int,
    x0: int,
    x1: int,
    y0: int,
    y1: int,
    lo: int,
    hi: int,
)
    requires
        x0 <= x1,
        y0 <= y1,
        forall|x: int, y: int| x0 <= x < x1 && y0 <= y < y1 ==> lo <= #[trigger] f(x, y) <= hi,
    ensures
        lo * ((x1 - x0) * (y1 - y0)) <= region_total(f, x0, x1, y0, y1) <= hi * ((x1 - x0) * (y1
            - y0)),
    decreases x1 - x0,
{
    if x1 > x0 {
        lemma_region_total_bounds(f, x0, x1 - 1, y0, y1, lo, hi);
        lemma_col_total_bounds(f, x1 - 1, y0, y1, lo, hi);
        let h = y1 - y0;
        assert(lo * ((x1 - x0) * h) == lo * ((x1 - 1 - x0) * h) + lo * h) by (nonlinear_arith);
        assert(hi * ((x1 - x0) * h) == hi * ((x1 - 1 - x0) * h) + hi * h) by (nonlinear_arith);
    } else {
        let h = y1 - y0;
        assert(lo * ((x1 - x0) * h) == 0) by (nonlinear_arith)
            requires x1 == x0,
        ;
        assert(hi * ((x1 - x0) * h) == 0) by (nonlinear_arith)
            requires x1 == x0,
        ;
    }
}

/// Channel `c` of `im` as a function of the pixel position.
pub open spec fn channel_fn(im: RGBAImage, c: int) -> spec_fn(int, int) -> int {
    |x: int, y: int| im.channel(x, y, c) as int
}

/// Whether the rectangle lies inside the image.
pub open spec fn rect_in_image(r: Rectangle, im: RGBAImage) -> bool {
    r.bottom_right.x <= im.width_spec() && r.bottom_right.y <= im.height_spec()
}

/// Channel `c` of the average color of region `r` of `im`: the
/// integer-truncated mean of that channel over all pixels inside.
pub open spec fn avg_channel_spec(im: RGBAImage, r: Rectangle, c: int) -> int {
    region_total(
        channel_fn(im, c),
        r.top_left.x as int,
        r.bottom_right.x as int,
        r.top_left.y as int,
        r.bottom_right.y as int,
    ) / r.area_spec()
}

/// The average color of region `r` of `im`, channel by channel.
pub open spec fn average_spec(im: RGBAImage, r: Rectangle) -> Rgba {
    Rgba {
        r: avg_channel_spec(im, r, 0) as u8,
        g: avg_channel_spec(im, r, 1) as u8,
        b: avg_channel_spec(im, r, 2) as u8,
        a: avg_channel_spec(im, r, 3) as u8,
    }
}

/// Each channel of an average color lies between 0 and 255.
pub proof fn lemma_avg_channel_bounds(im: RGBAImage, r: Rectangle, c: int)
    requires
        r.non_degenerate(),
    ensures
        0 <= avg_channel_spec(im, r, c) <= 255,
{
    let x0 = r.top_left.x as int;
    let x1 = r.bottom_right.x as int;
    let y0 = r.top_left.y as int;
    let y1 = r.bottom_right.y as int;
    let f = channel_fn(im, c);
    lemma_region_total_bounds(f, x0, x1, y0, y1, 0, 255);
    let total = region_total(f, x0, x1, y0, y1);
    let area = r.area_spec();
    assert(area >= 1) by (nonlinear_arith)
        requires x1 - x0 >= 1, y1 - y0 >= 1, area == (x1 - x0) * (y1 - y0),
    ;
    lemma_div_pos_is_pos(total, area);
    lemma_div_is_ordered(total, 255 * area, area);
    lemma_div_multiples_vanish(255, area);
}

/// The average color of a region whose pixels all equal `col` is `col`.
pub proof fn lemma_uniform_average(im: RGBAImage, r: Rectangle, col: Rgba)
    requires
        r.non_degenerate(),
        forall|x: int, y: int| #[trigger] r.contains(x, y) ==> im.pixel_spec(x, y) == col,
    ensures
        average_spec(im, r) == col,
{
    let x0 = r.top_left.x as int;
    let x1 = r.bottom_right.x as int;
    let y0 = r.top_left.y as int;
    let y1 = r.bottom_right.y as int;
    let area = r.area_spec();
    assert(area >= 1) by (nonlinear_arith)
        requires x1 - x0 >= 1, y1 - y0 >= 1, area == (x1 - x0) * (y1 - y0),
    ;
    let chans = seq![col.r as int, col.g as int, col.b as int, col.a as int];
    assert forall|c: int| 0 <= c < 4 implies avg_channel_spec(im, r, c) == chans[c] by {
        let f = channel_fn(im, c);
        let v = chans[c];
        assert forall|x: int, y: int| x0 <= x < x1 && y0 <= y < y1 implies v <= #[trigger] f(x, y)
            <= v by {
            assert(r.contains(x, y));
            assert(im.pixel_spec(x, y) == col);
        }
        lemma_region_total_bounds(f, x0, x1, y0, y1, v, v);
        assert(region_total(f, x0, x1, y0, y1) == v * area);
        lemma_div_multiples_vanish(v, area);
        assert((area * v) / area == v);
        assert(v * area == area * v) by (nonlinear_arith);
    }
    assert(avg_channel_spec(im, r, 0) == col.r as int);
    assert(avg_channel_spec(im, r, 1) == col.g as int);
    assert(avg_channel_spec(im, r, 2) == col.b as int);
    assert(avg_channel_spec(im, r, 3) == col.a as int);
}

impl RGBAImage {
    /// The raw bytes, four per pixel, rows first.
    pub closed spec fn bytes(self) -> Seq<u8> {
        self.data@
    }

    /// Width in pixels.
    pub closed spec fn width_spec(self) -> int {
        self.width as int
    }

    /// Height in pixels.
    pub closed spec fn height_spec(self) -> int {
        self.height as int
    }

    /// The byte length matches the dimensions.
    pub open spec fn wf(self) -> bool {
        self.bytes().len() == self.width_spec() * self.height_spec() * 4
    }

    /// Whether `(x, y)` names a pixel of the image.
    pub open spec fn in_bounds(self, x: int, y: int) -> bool {
        0 <= x < self.width_spec() && 0 <= y < self.height_spec()
    }

    /// Index of the first byte of the pixel at `(x, y)`.
    pub open spec fn pix_off(self, x: int, y: int) -> int {
        (y * self.width_spec() + x) * 4
    }

    /// One channel of the pixel at `(x, y)`: channels 0 to 3 are red,
    /// green, blue and alpha.
    pub open spec fn channel(self, x: int, y: int, c: int) -> u8 {
        self.bytes()[self.pix_off(x, y) + c]
    }

    /// The pixel at `(x, y)`.
    pub open spec fn pixel_spec(self, x: int, y: int) -> Rgba {
        Rgba {
            r: self.channel(x, y, 0),
            g: self.channel(x, y, 1),
            b: self.channel(x, y, 2),
            a: self.channel(x, y, 3),
        }
    }

    /// Dimensions fit in 32 bits.
    pub proof fn lemma_dims_bounds(self)
        ensures
            0 <= self.width_spec() <= u32::MAX,
            0 <= self.height_spec() <= u32::MAX,
    {
    }

    /// A pixel's four bytes lie inside the buffer.
    pub proof fn lemma_pix_off_in_range(self, x: int, y: int)
        requires
            self.wf(),
            self.in_bounds(x, y),
        ensures
            0 <= y * self.width_spec(),
            0 <= self.pix_off(x, y),
            self.pix_off(x, y) + 4 <= self.bytes().len(),
    {
        let w = self.width_spec();
        let h = self.height_spec();
        assert(0 <= y * w && 0 <= (y * w + x) * 4 && (y * w + x) * 4 + 4 <= w * h * 4)
            by (nonlinear_arith)
            requires 0 <= x < w, 0 <= y < h,
        ;
    }

    /// Distinct pixels occupy disjoint byte ranges.
    pub proof fn lemma_pix_off_distinct(self, x1: int, y1: int, x2: int, y2: int)
        requires
            self.in_bounds(x1, y1),
            self.in_bounds(x2, y2),
            !(x1 == x2 && y1 == y2),
        ensures
            self.pix_off(x1, y1) + 4 <= self.pix_off(x2, y2) || self.pix_off(x2, y2) + 4
                <= self.pix_off(x1, y1),
    {
        let w = self.width_spec();
        assert((y1 * w + x1) + 1 <= (y2 * w + x2) || (y2 * w + x2) + 1 <= (y1 * w + x1))
            by (nonlinear_arith)
            requires 0 <= x1 < w, 0 <= x2 < w, 0 <= y1, 0 <= y2, !(x1 == x2 && y1 == y2),
        ;
    }

    /// Build a buffer from raw bytes.  Fails with a size mismatch exactly
    /// when the byte length does not equal `width * height * 4`.
    pub fn constructor(data: &[u8], width: u32, height: u32) -> (res: Result<RGBAImage, QuadsError>)
        ensures
            match res {
                Ok(im) => im.wf() && im.bytes() == data@ && im.width_spec() == width
                    && im.height_spec() == height,
                Err(e) => e == QuadsError::SizeMismatch && data@.len() != width * height * 4,
            },
            data@.len() == width * height * 4 ==> res is Ok,
    {
        proof {
            assert((width as int) * (height as int) * 4 <= 73786976294838206464)
                by (nonlinear_arith)
                requires 0 <= (width as int) < 4294967296, 0 <= (height as int) < 4294967296,
            ;
        }
        let expected = (width as u128) * (height as u128) * 4;
        if (data.len() as u128) != expected {
            return Err(QuadsError::SizeMismatch);
        }
        let mut bytes: Vec<u8> = Vec::new();
        let mut k: usize = 0;
        while k < data.len()
            invariant
                k <= data@.len(),
                bytes@ == data@.subrange(0, k as int),
            decreases data@.len() - k,
        {
            bytes.push(data[k]);
            k = k + 1;
            proof {
                assert(bytes@ =~= data@.subrange(0, k as int));
            }
        }
        proof {
            assert(bytes@ =~= data@);
        }
        Ok(RGBAImage { data: bytes, width, height })
    }

    /// Read access to the raw bytes.
    pub fn data(&self) -> (d: &Vec<u8>)
        ensures
            d@ == self.bytes(),
    {
        &self.data
    }

    /// Width in pixels.
    pub fn width(&self) -> (w: u32)
        ensures
            w == self.width_spec(),
    {
        self.width
    }

    /// Height in pixels.
    pub fn height(&self) -> (h: u32)
        ensures
            h == self.height_spec(),
    {
        self.height
    }

    /// An identical, independently owned copy of the buffer.
    pub fn duplicate(&self) -> (r: RGBAImage)
        ensures
            r.bytes() == self.bytes(),
            r.width_spec() == self.width_spec(),
            r.height_spec() == self.height_spec(),
    {
        let mut bytes: Vec<u8> = Vec::new();
        let mut k: usize = 0;
        while k < self.data.len()
            invariant
                k <= self.data@.len(),
                bytes@ == self.data@.subrange(0, k as int),
            decreases self.data@.len() - k,
        {
            bytes.push(self.data[k]);
            k = k + 1;
            proof {
                assert(bytes@ =~= self.data@.subrange(0, k as int));
            }
        }
        proof {
            assert(bytes@ =~= self.data@);
        }
        RGBAImage { data: bytes, width: self.width, height: self.height }
    }

    /// Byte offset of the pixel at `(i, j)`.
    pub fn get_pix_offset(&self, i: usize, j: usize) -> (off: usize)
        requires
            self.wf(),
            self.in_bounds(i as int, j as int),
        ensures
            off == self.pix_off(i as int, j as int),
    {
        proof {
            self.lemma_pix_off_in_range(i as int, j as int);
        }
        // Reading the length as a machine integer bounds the index
        // arithmetic below by the address space.
        let n = self.data.len();
        (j * (self.width as usize) + i) * 4
    }

    /// The pixel at `(i, j)`.
    pub fn get_pixel(&self, i: usize, j: usize) -> (p: Rgba)
        requires
            self.wf(),
            self.in_bounds(i as int, j as int),
        ensures
            p == self.pixel_spec(i as int, j as int),
    {
        proof {
            self.lemma_pix_off_in_range(i as int, j as int);
        }
        let off = self.get_pix_offset(i, j);
        Rgba {
            r: self.data[off],
            g: self.data[off + 1],
            b: self.data[off + 2],
            a: self.data[off + 3],
        }
    }

    /// Overwrite the pixel at `(i, j)`; every other pixel is untouched.
    pub fn put_pixel(&mut self, i: usize, j: usize, c: Rgba)
        requires
            old(self).wf(),
            old(self).in_bounds(i as int, j as int),
        ensures
            final(self).wf(),
            final(self).width_spec() == old(self).width_spec(),
            final(self).height_spec() == old(self).height_spec(),
            final(self).bytes().len() == old(self).bytes().len(),
            final(self).pixel_spec(i as int, j as int) == c,
            forall|x: int, y: int|
                old(self).in_bounds(x, y) && !(x == i as int && y == j as int)
                    ==> final(self).pixel_spec(x, y) == old(self).pixel_spec(x, y),
    {
        proof {
            self.lemma_pix_off_in_range(i as int, j as int);
        }
        let off = self.get_pix_offset(i, j);
        self.data[off] = c.r;
        self.data[off + 1] = c.g;
        self.data[off + 2] = c.b;
        self.data[off + 3] = c.a;
        proof {
            assert forall|x: int, y: int|
                old(self).in_bounds(x, y) && !(x == i as int && y == j as int) implies self
                .pixel_spec(x, y) == old(self).pixel_spec(x, y) by {
                old(self).lemma_pix_off_in_range(x, y);
                old(self).lemma_pix_off_distinct(x, y, i as int, j as int);
            }
        }
    }
}

/// Average color of the region `r` of `im`: the channel-wise
/// integer-truncated mean over all pixels inside the region.
pub fn average_value(r: &Rectangle, im: &RGBAImage) -> (avg: Rgba)
    requires
        im.wf(),
        r.non_degenerate(),
        rect_in_image(*r, *im),
    ensures
        avg == average_spec(*im, *r),
{
    let ghost f0 = channel_fn(*im, 0);
    let ghost f1 = channel_fn(*im, 1);
    let ghost f2 = channel_fn(*im, 2);
    let ghost f3 = channel_fn(*im, 3);
    let x0 = r.top_left.x;
    let x1 = r.bottom_right.x;
    let y0 = r.top_left.y;
    let y1 = r.bottom_right.y;
    let ghost gx0 = x0 as int;
    let ghost gx1 = x1 as int;
    let ghost gy0 = y0 as int;
    let ghost gy1 = y1 as int;
    let mut sum_r: u128 = 0;
    let mut sum_g: u128 = 0;
    let mut sum_b: u128 = 0;
    let mut sum_a: u128 = 0;
    let mut x = x0;
    while x < x1
        invariant
            im.wf(),
            rect_in_image(*r, *im),
            x0 <= x <= x1,
            y0 < y1,
            x0 == r.top_left.x && x1 == r.bottom_right.x,
            y0 == r.top_left.y && y1 == r.bottom_right.y,
            gx0 == x0 as int && gx1 == x1 as int && gy0 == y0 as int && gy1 == y1 as int,
            f0 == channel_fn(*im, 0) && f1 == channel_fn(*im, 1) && f2 == channel_fn(*im, 2)
                && f3 == channel_fn(*im, 3),
            sum_r == region_total(f0, gx0, x as int, gy0, gy1),
            sum_g == region_total(f1, gx0, x as int, gy0, gy1),
            sum_b == region_total(f2, gx0, x as int, gy0, gy1),
            sum_a == region_total(f3, gx0, x as int, gy0, gy1),
        decreases x1 - x,
    {
        let mut y = y0;
        while y < y1
            invariant
                im.wf(),
                rect_in_image(*r, *im),
                x0 <= x < x1,
                y0 <= y <= y1,
                x0 == r.top_left.x && x1 == r.bottom_right.x,
                y0 == r.top_left.y && y1 == r.bottom_right.y,
                gx0 == x0 as int && gx1 == x1 as int && gy0 == y0 as int && gy1 == y1 as int,
                f0 == channel_fn(*im, 0) && f1 == channel_fn(*im, 1) && f2 == channel_fn(*im, 2)
                    && f3 == channel_fn(*im, 3),
                sum_r == region_total(f0, gx0, x as int, gy0, gy1) + col_total(f0, x as int, gy0, y as int),
                sum_g == region_total(f1, gx0, x as int, gy0, gy1) + col_total(f1, x as int, gy0, y as int),
                sum_b == region_total(f2, gx0, x as int, gy0, gy1) + col_total(f2, x as int, gy0, y as int),
                sum_a == region_total(f3, gx0, x as int, gy0, gy1) + col_total(f3, x as int, gy0, y as int),
            decreases y1 - y,
        {
            proof {
                lemma_region_total_bounds(f0, gx0, x as int, gy0, gy1, 0, 255);
                lemma_region_total_bounds(f1, gx0, x as int, gy0, gy1, 0, 255);
                lemma_region_total_bounds(f2, gx0, x as int, gy0, gy1, 0, 255);
                lemma_region_total_bounds(f3, gx0, x as int, gy0, gy1, 0, 255);
                lemma_col_total_bounds(f0, x as int, gy0, y as int, 0, 255);
                lemma_col_total_bounds(f1, x as int, gy0, y as int, 0, 255);
                lemma_col_total_bounds(f2, x as int, gy0, y as int, 0, 255);
                lemma_col_total_bounds(f3, x as int, gy0, y as int, 0, 255);
                assert((x as int - gx0) * (gy1 - gy0) <= im.width_spec() * im.height_spec())
                    by (nonlinear_arith)
                    requires
                        0 <= x as int - gx0 <= im.width_spec(),
                        0 <= gy1 - gy0 <= im.height_spec(),
                        im.width_spec() >= 0,
                        im.height_spec() >= 0,
                ;
                assert(im.width_spec() * im.height_spec() <= 18446744073709551616)
                    by (nonlinear_arith)
                    requires
                        0 <= im.width_spec() < 4294967296,
                        0 <= im.height_spec() < 4294967296,
                ;
            }
            let p = im.get_pixel(x, y);
            sum_r = sum_r + p.r as u128;
            sum_g = sum_g + p.g as u128;
            sum_b = sum_b + p.b as u128;
            sum_a = sum_a + p.a as u128;
            y = y + 1;
        }
        x = x + 1;
    }
    let count = r.area();
    proof {
        assert(count as int >= 1) by (nonlinear_arith)
            requires
                count as int == (gx1 - gx0) * (gy1 - gy0),
                gx1 - gx0 >= 1,
                gy1 - gy0 >= 1,
        ;
        lemma_avg_channel_bounds(*im, *r, 0);
        lemma_avg_channel_bounds(*im, *r, 1);
        lemma_avg_channel_bounds(*im, *r, 2);
        lemma_avg_channel_bounds(*im, *r, 3);
    }
    let avg_r = (sum_r / count as u128) as u8;
    let avg_g = (sum_g / count as u128) as u8;
    let avg_b = (sum_b / count as u128) as u8;
    let avg_a = (sum_a / count as u128) as u8;
    Rgba { r: avg_r, g: avg_g, b: avg_b, a: avg_a }
}

/// Fill every pixel of the region `r` in `out` with `color`; every pixel
/// outside the region keeps its value.
pub fn fill_rect(out: &mut RGBAImage, r: &Rectangle, color: Rgba)
    requires
        old(out).wf(),
        r.top_left.x <= r.bottom_right.x,
        r.top_left.y <= r.bottom_right.y,
        rect_in_image(*r, *old(out)),
    ensures
        final(out).wf(),
        final(out).width_spec() == old(out).width_spec(),
        final(out).height_spec() == old(out).height_spec(),
        final(out).bytes().len() == old(out).bytes().len(),
        forall|x: int, y: int|
            #[trigger] r.contains(x, y) ==> final(out).pixel_spec(x, y) == color,
        forall|x: int, y: int|
            old(out).in_bounds(x, y) && !r.contains(x, y)
                ==> final(out).pixel_spec(x, y) == old(out).pixel_spec(x, y),
{
    let x0 = r.top_left.x;
    let x1 = r.bottom_right.x;
    let y0 = r.top_left.y;
    let y1 = r.bottom_right.y;
    let mut x = x0;
    while x < x1
        invariant
            out.wf(),
            out.width_spec() == old(out).width_spec(),
            out.height_spec() == old(out).height_spec(),
            out.bytes().len() == old(out).bytes().len(),
            x0 <= x <= x1,
            y0 <= y1,
            x0 == r.top_left.x && x1 == r.bottom_right.x,
            y0 == r.top_left.y && y1 == r.bottom_right.y,
            rect_in_image(*r, *old(out)),
            forall|px: int, py: int|
                #[trigger] r.contains(px, py) && px < x as int ==> out.pixel_spec(px, py) == color,
            forall|px: int, py: int|
                #![trigger old(out).pixel_spec(px, py)]
                old(out).in_bounds(px, py) && !(r.contains(px, py) && px < x as int)
                    ==> out.pixel_spec(px, py) == old(out).pixel_spec(px, py),
        decreases x1 - x,
    {
        let mut y = y0;
        while y < y1
            invariant
                out.wf(),
                out.width_spec() == old(out).width_spec(),
                out.height_spec() == old(out).height_spec(),
                out.bytes().len() == old(out).bytes().len(),
                x0 <= x < x1,
                y0 <= y <= y1,
                x0 == r.top_left.x && x1 == r.bottom_right.x,
                y0 == r.top_left.y && y1 == r.bottom_right.y,
                rect_in_image(*r, *old(out)),
                forall|px: int, py: int|
                    #[trigger] r.contains(px, py) && (px < x as int || (px == x as int && py < y
                        as int)) ==> out.pixel_spec(px, py) == color,
                forall|px: int, py: int|
                    #![trigger old(out).pixel_spec(px, py)]
                    old(out).in_bounds(px, py) && !(r.contains(px, py) && (px < x as int || (px
                        == x as int && py < y as int)))
                        ==> out.pixel_spec(px, py) == old(out).pixel_spec(px, py),
            decreases y1 - y,
        {
            let ghost prev = *out;
            out.put_pixel(x, y, color);
            y = y + 1;
            proof {
                assert forall|px: int, py: int|
                    #![trigger old(out).pixel_spec(px, py)]
                    old(out).in_bounds(px, py) && !(r.contains(px, py) && (px < x as int || (px
                        == x as int && py < y as int)))
                        implies out.pixel_spec(px, py) == old(out).pixel_spec(px, py) by {
                    assert(!(px == x as int && py == y as int - 1));
                    assert(prev.in_bounds(px, py));
                    assert(out.pixel_spec(px, py) == prev.pixel_spec(px, py));
                    assert(prev.pixel_spec(px, py) == old(out).pixel_spec(px, py));
                }
            }
        }
        proof {
            assert(y == y1);
            assert forall|px: int, py: int|
                #![trigger old(out).pixel_spec(px, py)]
                old(out).in_bounds(px, py) && !(r.contains(px, py) && px < x as int + 1)
                    implies out.pixel_spec(px, py) == old(out).pixel_spec(px, py) by {
                if r.contains(px, py) {
                    assert(px >= x as int + 1);
                    assert(!(px < x as int || (px == x as int && py < y as int)));
                } else {
                    assert(!(r.contains(px, py) && (px < x as int || (px == x as int && py < y
                        as int))));
                }
            }
        }
        x = x + 1;
    }
}

/// Fill each rectangle of `rs` in `output` with its average color measured
/// on `im`.  The rectangles must be pairwise disjoint: each pixel covered
/// by one of them receives that rectangle's average color, and every other
/// pixel keeps its value.
pub fn draw_rectangles(output: &mut RGBAImage, im: &RGBAImage, rs: &Vec<Rectangle>)
    requires
        old(output).wf(),
        im.wf(),
        old(output).width_spec() == im.width_spec(),
        old(output).height_spec() == im.height_spec(),
        forall|k: int|
            0 <= k < rs@.len() ==> (#[trigger] rs@[k]).non_degenerate() && rect_in_image(
                rs@[k],
                *im,
            ),
        forall|k1: int, k2: int, x: int, y: int|
            #![trigger rs@[k1].contains(x, y), rs@[k2].contains(x, y)]
            0 <= k1 < rs@.len() && 0 <= k2 < rs@.len() && k1 != k2 && rs@[k1].contains(x, y)
                ==> !rs@[k2].contains(x, y),
    ensures
        final(output).wf(),
        final(output).width_spec() == old(output).width_spec(),
        final(output).height_spec() == old(output).height_spec(),
        final(output).bytes().len() == old(output).bytes().len(),
        forall|k: int, x: int, y: int|
            0 <= k < rs@.len() && (#[trigger] rs@[k].contains(x, y)) ==> final(output).pixel_spec(
                x,
                y,
            ) == average_spec(*im, rs@[k]),
        forall|x: int, y: int|
            #![trigger old(output).pixel_spec(x, y)]
            old(output).in_bounds(x, y) && (forall|k: int|
                0 <= k < rs@.len() ==> !(#[trigger] rs@[k].contains(x, y)))
                ==> final(output).pixel_spec(x, y) == old(output).pixel_spec(x, y),
{
    let n = rs.len();
    let mut k: usize = 0;
    while k < n
        invariant
            output.wf(),
            im.wf(),
            output.width_spec() == old(output).width_spec(),
            output.height_spec() == old(output).height_spec(),
            output.bytes().len() == old(output).bytes().len(),
            output.width_spec() == im.width_spec(),
            output.height_spec() == im.height_spec(),
            k <= n,
            n == rs@.len(),
            forall|j: int|
                0 <= j < rs@.len() ==> (#[trigger] rs@[j]).non_degenerate() && rect_in_image(
                    rs@[j],
                    *im,
                ),
            forall|k1: int, k2: int, x: int, y: int|
                #![trigger rs@[k1].contains(x, y), rs@[k2].contains(x, y)]
                0 <= k1 < rs@.len() && 0 <= k2 < rs@.len() && k1 != k2 && rs@[k1].contains(x, y)
                    ==> !rs@[k2].contains(x, y),
            forall|j: int, x: int, y: int|
                0 <= j < k as int && (#[trigger] rs@[j].contains(x, y)) ==> output.pixel_spec(x, y)
                    == average_spec(*im, rs@[j]),
            forall|x: int, y: int|
                #![trigger old(output).pixel_spec(x, y)]
                old(output).in_bounds(x, y) && (forall|j: int|
                    0 <= j < k as int ==> !(#[trigger] rs@[j].contains(x, y))) ==> output
                    .pixel_spec(x, y) == old(output).pixel_spec(x, y),
        decreases n - k,
    {
        let rect = rs[k];
        let avg = average_value(&rect, im);
        let ghost prev = *output;
        fill_rect(output, &rect, avg);
        proof {
            assert forall|j: int, x: int, y: int|
                0 <= j < k as int + 1 && (#[trigger] rs@[j].contains(x, y)) implies output
                .pixel_spec(x, y) == average_spec(*im, rs@[j]) by {
                if j < k as int {
                    assert(!rs@[k as int].contains(x, y));
                    assert(output.pixel_spec(x, y) == prev.pixel_spec(x, y));
                }
            }
            assert forall|x: int, y: int|
                #![trigger old(output).pixel_spec(x, y)]
                old(output).in_bounds(x, y) && (forall|j: int|
                    0 <= j < k as int + 1 ==> !(#[trigger] rs@[j].contains(x, y))) implies output
                .pixel_spec(x, y) == old(output).pixel_spec(x, y) by {
                assert(!rs@[k as int].contains(x, y));
                assert(output.pixel_spec(x, y) == prev.pixel_spec(x, y));
            }
        }
        k = k + 1;
    }
}

} // verus!
