use vstd::prelude::*;

verus! {

/// Floor of the square root of a non-negative integer, defined by counting
/// up: it grows by one exactly when the next perfect square is reached.
pub open spec fn isqrt_spec(n: int) -> int
    decreases n,
{
    if n <= 0 {
        0
    } else {
        let r = isqrt_spec(n - 1);
        if (r + 1) * (r + 1) <= n {
            r + 1
        } else {
            r
        }
    }
}

/// `isqrt_spec(n)` is the unique integer whose square is at most `n` while
/// the next square exceeds it.
pub proof fn lemma_isqrt_bounds(n: int)
    requires
        n >= 0,
    ensures
        0 <= isqrt_spec(n),
        isqrt_spec(n) * isqrt_spec(n) <= n,
        n < (isqrt_spec(n) + 1) * (isqrt_spec(n) + 1),
    decreases n,
{
    if n == 0 {
    } else {
        lemma_isqrt_bounds(n - 1);
        let r = isqrt_spec(n - 1);
        if (r + 1) * (r + 1) <= n {
            assert((r + 2) * (r + 2) > n) by (nonlinear_arith)
                requires r >= 0, n - 1 < (r + 1) * (r + 1),
            ;
        }
    }
}

/// Any integer satisfying the square-root bounds equals `isqrt_spec(n)`.
pub proof fn lemma_isqrt_unique(n: int, r: int)
    requires
        n >= 0,
        0 <= r,
        r * r <= n,
        n < (r + 1) * (r + 1),
    ensures
        r == isqrt_spec(n),
{
    lemma_isqrt_bounds(n);
    let s = isqrt_spec(n);
    assert(r == s) by (nonlinear_arith)
        requires
            0 <= r, 0 <= s,
            r * r <= n, n < (r + 1) * (r + 1),
            s * s <= n, n < (s + 1) * (s + 1),
    ;
}

/// The square root never exceeds a bound whose square is beyond the input.
pub proof fn lemma_isqrt_le(n: int, b: int)
    requires
        n >= 0,
        b >= 0,
        n < (b + 1) * (b + 1),
    ensures
        isqrt_spec(n) <= b,
{
    lemma_isqrt_bounds(n);
    let s = isqrt_spec(n);
    assert(s <= b) by (nonlinear_arith)
        requires 0 <= s, 0 <= b, s * s <= n, n < (b + 1) * (b + 1),
    ;
}

/// Floor of the square root of a 64-bit integer, by bisection.
pub fn isqrt64(n: u64) -> (r: u64)
    ensures
        r == isqrt_spec(n as int),
        r * r <= n,
{
    let mut lo: u64 = 0;
    let mut hi: u64 = 4294967296;
    while lo + 1 < hi
        invariant
            0 <= lo < hi <= 4294967296,
            (lo as int) * (lo as int) <= n as int,
            (hi as int) * (hi as int) > n as int,
        decreases hi - lo,
    {
        let mid = lo + (hi - lo) / 2;
        proof {
            assert((mid as int) * (mid as int) <= 18446744073709551616) by (nonlinear_arith)
                requires 0 <= (mid as int) <= 4294967296,
            ;
        }
        let sq = (mid as u128) * (mid as u128);
        if sq <= n as u128 {
            lo = mid;
        } else {
            hi = mid;
        }
    }
    proof {
        lemma_isqrt_unique(n as int, lo as int);
        assert((lo as int) * (lo as int) <= u64::MAX) by (nonlinear_arith)
            requires (lo as int) * (lo as int) <= n as int, n as int <= u64::MAX,
        ;
    }
    lo
}

/// Fixed-point weight of the red channel, in ten-thousandths.
pub const WEIGHT_R: u64 = 2989;

/// Fixed-point weight of the green channel, in ten-thousandths.
pub const WEIGHT_G: u64 = 5870;

/// Fixed-point weight of the blue channel, in ten-thousandths.
pub const WEIGHT_B: u64 = 1140;

/// Scale of the per-channel deviation: the root-mean-square deviation of a
/// channel is carried in thousandths.
pub const RMS_SCALE_SQ: u64 = 1000000;

/// No weighted error exceeds this bound: the per-channel deviation is at
/// most 255000 thousandths, the weights sum to 9999 ten-thousandths, and
/// the quartic root of a 64-bit area is below 65536.
pub const MAX_CANDIDATE_ERROR: u64 = 167100088320000;

/// Root-mean-square deviation of one channel, in thousandths: the square
/// root of the summed squared deviations scaled and divided by the pixel
/// count.
pub open spec fn channel_rms_spec(ssd: int, count: int) -> int {
    isqrt_spec(ssd * 1000000 / count)
}

/// The weighted error of a region from its summed squared channel
/// deviations: the luminance-weighted sum of the per-channel
/// root-mean-square deviations, biased by the quartic root of the area.
/// The value is carried in ten-millionths of the real error: deviations
/// are in thousandths and the weights in ten-thousandths, and the two
/// scales are kept multiplied out rather than divided away, so that only
/// the square roots truncate.  A region whose deviations all round below
/// one thousandth per channel still scores zero, so the engine can stop
/// on a faintly varying region that an unbounded-precision error would
/// keep refining.
pub open spec fn weighted_error_spec(ssd_r: int, ssd_g: int, ssd_b: int, count: int, area: int) -> int {
    (channel_rms_spec(ssd_r, count) * 2989 + channel_rms_spec(ssd_g, count) * 5870
        + channel_rms_spec(ssd_b, count) * 1140) * isqrt_spec(isqrt_spec(area))
}

/// A region whose pixels do not deviate from their average at all has
/// weighted error zero, whatever its area.
pub proof fn lemma_uniform_weighted_error_zero(count: int, area: int)
    requires
        count > 0,
    ensures
        weighted_error_spec(0, 0, 0, count, area) == 0,
{
    assert((0int) * 1000000 / count == 0) by (nonlinear_arith)
        requires count > 0,
    ;
}

/// Compute the weighted error of a region from its summed squared channel
/// deviations, its pixel count and its area.
pub fn weighted_error(ssd_r: u128, ssd_g: u128, ssd_b: u128, count: u64, area: u64) -> (e: u64)
    requires
        count > 0,
        ssd_r <= 65025 * count,
        ssd_g <= 65025 * count,
        ssd_b <= 65025 * count,
    ensures
        e == weighted_error_spec(ssd_r as int, ssd_g as int, ssd_b as int, count as int, area as int),
        e <= MAX_CANDIDATE_ERROR,
{
    let rms_r = channel_rms(ssd_r, count);
    let rms_g = channel_rms(ssd_g, count);
    let rms_b = channel_rms(ssd_b, count);
    let weighted = rms_r * WEIGHT_R + rms_g * WEIGHT_G + rms_b * WEIGHT_B;
    let root = isqrt64(area);
    let quartic = isqrt64(root);
    proof {
        lemma_isqrt_le(area as int, 4294967295);
        lemma_isqrt_le(root as int, 65535);
        assert(weighted <= 2549745000);
        assert(weighted * quartic <= 2549745000 * 65536) by (nonlinear_arith)
            requires 0 <= (weighted as int) <= 2549745000, 0 <= (quartic as int) <= 65535,
        ;
    }
    weighted * quartic
}

/// Root-mean-square deviation of one channel, in thousandths.
fn channel_rms(ssd: u128, count: u64) -> (r: u64)
    requires
        count > 0,
        ssd <= 65025 * count,
    ensures
        r == channel_rms_spec(ssd as int, count as int),
        r <= 255000,
{
    let scaled = ssd * (RMS_SCALE_SQ as u128);
    let q = scaled / (count as u128);
    proof {
        assert(ssd * 1000000 / (count as int) <= 65025000000) by (nonlinear_arith)
            requires count > 0, 0 <= (ssd as int) <= 65025 * (count as int),
        ;
    }
    let q64 = q as u64;
    let r = isqrt64(q64);
    proof {
        lemma_isqrt_le(q64 as int, 255000);
    }
    r
}

} // verus!
