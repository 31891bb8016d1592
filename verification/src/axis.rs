//! Automatic y-axis range and tick placement.
//!
//! Given the minimum and maximum of the live data (in millionths of a unit)
//! and the chart height in terminal rows, the algorithm pads the range a
//! little, derives a target tick count of about one tick per seven rows,
//! snaps the resulting increment to a readable power-of-ten multiple of 1, 2
//! or 5, rounds the bounds out to multiples of that increment, and finally
//! collapses to just two ticks when the rounded layout would cram its ticks
//! closer than 30% of the seven-row target.

use vstd::arithmetic::div_mod::{
    lemma_fundamental_div_mod, lemma_fundamental_div_mod_converse_div,
    lemma_div_is_ordered, lemma_div_is_ordered_by_denominator, lemma_mod_multiples_basic,
};
use vstd::arithmetic::mul::{lemma_mul_inequality, lemma_mul_upper_bound};
use vstd::prelude::*;

use crate::BOUND_LIMIT;
use crate::SCALE;
use crate::VALUE_LIMIT;

verus! {

/// Largest magnitude the rounding helpers accept; every intermediate of the
/// axis computation stays far below it.
const ROUND_LIMIT: i64 = 100000000000000000;

/// Log-scale midpoint between 1 and 2: the millionths of 10 to the 1/6.
pub const SNAP_EDGE_TWO: i64 = 1467799;

/// Log-scale midpoint between 2 and 5: the millionths of 10 to the 1/2.
pub const SNAP_EDGE_FIVE: i64 = 3162278;

/// Log-scale midpoint between 5 and 10: the millionths of 10 to the 5/6.
pub const SNAP_EDGE_TEN: i64 = 6812921;

/// Per-side range padding in tenths of a percent: grows with chart height,
/// floored at 0 for short charts and capped at 5%.
pub open spec fn spec_padding_tenths(h: int) -> int {
    if h - 20 < 0 {
        0
    } else if h - 20 > 50 {
        50
    } else {
        h - 20
    }
}

/// The data range widened by the padding on both sides; a zero range is
/// replaced by a fixed fallback of two units.
pub open spec fn spec_buffered_range(range: int, h: int) -> int {
    if range == 0 {
        2 * SCALE
    } else {
        range + range * spec_padding_tenths(h) / 500
    }
}

/// Increment candidate before snapping: the buffered range divided by the
/// target tick count, which is one tick per seven rows but never below two.
pub open spec fn spec_raw_increment(range: int, h: int) -> int {
    if h >= 15 {
        spec_buffered_range(range, h) * 7 / (h - 1)
    } else {
        spec_buffered_range(range, h) / 2
    }
}

/// Largest power of ten that does not exceed `x` (1 when `x < 10`).
pub open spec fn pow10_below(x: int) -> int
    decreases x,
{
    if x < 10 {
        1
    } else {
        10 * pow10_below(x / 10)
    }
}

/// Snaps a positive increment candidate to the nearest power-of-ten multiple
/// of 1, 2 or 5 on the log scale; candidates below one millionth snap to one
/// millionth, the finest increment the fixed-point values can express.
pub open spec fn spec_snap_increment(x: int) -> int {
    if x <= 1 {
        1
    } else {
        let p = pow10_below(x);
        if SCALE * x < SNAP_EDGE_TWO * p {
            p
        } else if SCALE * x < SNAP_EDGE_FIVE * p {
            2 * p
        } else if SCALE * x < SNAP_EDGE_TEN * p {
            5 * p
        } else {
            10 * p
        }
    }
}

/// The absolute padding added to each side of the range before rounding; a
/// zero range gets one unit of padding.
pub open spec fn spec_padding(range: int, h: int) -> int {
    if range > 0 {
        spec_padding_tenths(h) * range / 1000
    } else {
        SCALE as int
    }
}

/// `a` rounded down to a multiple of `b`.
pub open spec fn spec_floor_multiple(a: int, b: int) -> int {
    (a / b) * b
}

/// `a` rounded up to a multiple of `b`.
pub open spec fn spec_ceil_multiple(a: int, b: int) -> int {
    -((-a / b) * b)
}

/// The snapped increment the axis uses for data range `[minv, maxv]`.
pub open spec fn spec_axis_increment(minv: int, maxv: int, h: int) -> int {
    spec_snap_increment(spec_raw_increment(maxv - minv, h))
}

/// Lower axis bound: data minimum, padded, rounded down to the increment.
pub open spec fn spec_axis_min(minv: int, maxv: int, h: int) -> int {
    spec_floor_multiple(
        minv - spec_padding(maxv - minv, h),
        spec_axis_increment(minv, maxv, h),
    )
}

/// Upper axis bound: data maximum, padded, rounded up to the increment.
pub open spec fn spec_axis_max(minv: int, maxv: int, h: int) -> int {
    spec_ceil_multiple(
        maxv + spec_padding(maxv - minv, h),
        spec_axis_increment(minv, maxv, h),
    )
}

/// Tick count implied by the rounded bounds and the increment.
pub open spec fn spec_axis_raw_ticks(minv: int, maxv: int, h: int) -> int {
    (spec_axis_max(minv, maxv, h) - spec_axis_min(minv, maxv, h))
        / spec_axis_increment(minv, maxv, h) + 1
}

/// Whether the implied ticks would sit closer than 30% of the seven-row
/// target, in which case the axis keeps only its two end ticks.
pub open spec fn spec_ticks_cramped(minv: int, maxv: int, h: int) -> bool {
    10 * (h - 1) < 21 * spec_axis_raw_ticks(minv, maxv, h)
}

/// Final tick count of the automatic axis.
pub open spec fn spec_axis_ticks(minv: int, maxv: int, h: int) -> int {
    if spec_ticks_cramped(minv, maxv, h) {
        2
    } else {
        spec_axis_raw_ticks(minv, maxv, h)
    }
}

/// Largest power of ten that does not exceed `x`.
pub(crate) fn pow10_below_exec(x: i64) -> (p: i64)
    requires
        1 <= x,
    ensures
        p == pow10_below(x as int),
        1 <= p <= x,
{
    let mut p: i64 = 1;
    let mut y: i64 = x;
    while y >= 10
        invariant
            1 <= y,
            1 <= p,
            pow10_below(x as int) == p * pow10_below(y as int),
            p * y <= x,
        decreases y,
    {
        proof {
            assert(10 * p <= p * y) by (nonlinear_arith)
                requires
                    1 <= p,
                    10 <= y,
            ;
            lemma_fundamental_div_mod(y as int, 10);
            assert((10 * p) * (y as int / 10) <= p * y) by (nonlinear_arith)
                requires
                    1 <= p,
                    10 <= y,
                    10 * (y as int / 10) <= y,
                    1 <= y as int / 10,
            ;
            assert(p * pow10_below(y as int) == (10 * p) * pow10_below(y as int / 10))
                by (nonlinear_arith)
                requires
                    pow10_below(y as int) == 10 * pow10_below(y as int / 10),
            ;
        }
        p = 10 * p;
        y = y / 10;
    }
    proof {
        assert(p * 1 <= p * y) by (nonlinear_arith)
            requires
                1 <= p,
                1 <= y,
        ;
    }
    p
}

/// Snaps a raw increment candidate to the nearest "nice" increment: a power
/// of ten times 1, 2 or 5, nearest on the log-10 scale.
pub fn snap_increment(raw: i64) -> (r: i64)
    requires
        raw <= 2 * VALUE_LIMIT,
    ensures
        r == spec_snap_increment(raw as int),
        1 <= r,
        1 <= raw ==> r <= 10 * raw,
{
    if raw <= 1 {
        1
    } else {
        let p = pow10_below_exec(raw);
        proof {
            lemma_mul_upper_bound(SCALE as int, SCALE as int, raw as int, 2 * VALUE_LIMIT as int);
            lemma_mul_upper_bound(SNAP_EDGE_TEN as int, SNAP_EDGE_TEN as int, p as int, 2
                * VALUE_LIMIT as int);
            lemma_mul_inequality(0, SCALE as int, raw as int);
            lemma_mul_inequality(0, SNAP_EDGE_TWO as int, p as int);
            lemma_mul_inequality(0, SNAP_EDGE_FIVE as int, p as int);
            lemma_mul_inequality(0, SNAP_EDGE_TEN as int, p as int);
        }
        let lhs: i128 = (SCALE as i128) * (raw as i128);
        if lhs < (SNAP_EDGE_TWO as i128) * (p as i128) {
            p
        } else if lhs < (SNAP_EDGE_FIVE as i128) * (p as i128) {
            2 * p
        } else if lhs < (SNAP_EDGE_TEN as i128) * (p as i128) {
            5 * p
        } else {
            10 * p
        }
    }
}

/// Floor division: rounds toward negative infinity, matching the
/// mathematical quotient for a positive divisor.
fn div_floor(a: i64, b: i64) -> (q: i64)
    requires
        -ROUND_LIMIT <= a <= ROUND_LIMIT,
        1 <= b <= ROUND_LIMIT,
    ensures
        q == a as int / b as int,
        a >= 0 ==> 0 <= q <= a,
        a < 0 ==> a <= q <= 0,
{
    if a >= 0 {
        proof {
            lemma_fundamental_div_mod(a as int, b as int);
            assert(a as int / b as int <= a) by (nonlinear_arith)
                requires
                    0 <= a,
                    1 <= b,
            ;
        }
        a / b
    } else {
        let m = -a;
        let q0 = (m + b - 1) / b;
        proof {
            lemma_fundamental_div_mod((m + b - 1) as int, b as int);
            let r0 = (m + b - 1) as int % (b as int);
            // b * q0 lies in [m, m + b - 1], so -q0 is the floor quotient of a.
            assert((b as int) * (q0 as int) == (m + b - 1) - r0);
            assert((-(q0 as int)) * (b as int) == -((b as int) * (q0 as int))) by (nonlinear_arith);
            lemma_fundamental_div_mod_converse_div(
                a as int,
                b as int,
                -(q0 as int),
                (b as int) * (q0 as int) - m,
            );
            assert(q0 <= m) by (nonlinear_arith)
                requires
                    1 <= b,
                    1 <= m,
                    (b as int) * (q0 as int) <= m + b - 1,
                    0 <= q0,
            ;
        }
        -q0
    }
}

/// Ceiling division for a positive divisor.
fn div_ceil(a: i64, b: i64) -> (q: i64)
    requires
        -ROUND_LIMIT <= a <= ROUND_LIMIT,
        1 <= b <= ROUND_LIMIT,
    ensures
        q == -(-(a as int) / b as int),
        a >= 0 ==> 0 <= q <= a + 1,
        a < 0 ==> a <= q <= 0,
{
    let f = div_floor(-a, b);
    proof {
        if a > 0 {
            assert(-(a as int) <= f <= 0);
        }
    }
    -f
}

/// `a` rounded down to a multiple of `b`; the result is within `b` of `a`.
fn floor_to_multiple(a: i64, b: i64) -> (r: i64)
    requires
        -ROUND_LIMIT / 2 <= a <= ROUND_LIMIT / 2,
        1 <= b <= ROUND_LIMIT / 2,
    ensures
        r == spec_floor_multiple(a as int, b as int),
        a - b < r <= a,
        r == (a as int / b as int) * (b as int),
{
    let q = div_floor(a, b);
    proof {
        lemma_fundamental_div_mod(a as int, b as int);
        assert((q as int) * (b as int) == (b as int) * (a as int / b as int)) by (nonlinear_arith)
            requires
                q == a as int / b as int,
        ;
    }
    q * b
}

/// `a` rounded up to a multiple of `b`; the result is within `b` of `a`.
fn ceil_to_multiple(a: i64, b: i64) -> (r: i64)
    requires
        -ROUND_LIMIT / 2 <= a <= ROUND_LIMIT / 2,
        1 <= b <= ROUND_LIMIT / 2,
    ensures
        r == spec_ceil_multiple(a as int, b as int),
        a <= r < a + b,
        r == -((-(a as int) / b as int) * (b as int)),
{
    let q = div_ceil(a, b);
    proof {
        lemma_fundamental_div_mod(-(a as int), b as int);
        let qm = -(a as int) / b as int;
        assert((q as int) * (b as int) == -((b as int) * qm)) by (nonlinear_arith)
            requires
                q == -qm,
        ;
        assert((-qm) * (b as int) == -(qm * (b as int))) by (nonlinear_arith);
        assert(qm * (b as int) == (b as int) * qm) by (nonlinear_arith);
    }
    q * b
}

/// Automatic axis bounds and tick count for data spanning
/// `[min_value, max_value]` on a chart `chart_height` rows tall.
///
/// The returned bounds always enclose the data, the lower bound is strictly
/// below the upper one, and at least two ticks are produced; when the
/// implied tick spacing would fall under 30% of the seven-row target, the
/// tick count collapses to exactly two.
pub fn nice_axis(min_value: i64, max_value: i64, chart_height: i32) -> (r: ([i64; 2], i32))
    requires
        -VALUE_LIMIT <= min_value <= max_value <= VALUE_LIMIT,
    ensures
        r.0[0] == spec_axis_min(min_value as int, max_value as int, chart_height as int),
        r.0[1] == spec_axis_max(min_value as int, max_value as int, chart_height as int),
        r.1 == spec_axis_ticks(min_value as int, max_value as int, chart_height as int),
        r.0[0] <= min_value,
        max_value <= r.0[1],
        r.0[0] < r.0[1],
        2 <= r.1,
        spec_ticks_cramped(min_value as int, max_value as int, chart_height as int) ==> r.1 == 2,
        -BOUND_LIMIT <= r.0[0],
        r.0[1] <= BOUND_LIMIT,
        r.0[0] as int % spec_axis_increment(
            min_value as int,
            max_value as int,
            chart_height as int,
        ) == 0,
        r.0[1] as int % spec_axis_increment(
            min_value as int,
            max_value as int,
            chart_height as int,
        ) == 0,
{
    let h: i64 = chart_height as i64;
    let range: i64 = max_value - min_value;

    // Padding that grows with available height, capped at 5% per side.
    let pad_tenths: i64 = if h - 20 < 0 {
        0
    } else if h - 20 > 50 {
        50
    } else {
        h - 20
    };
    assert(pad_tenths == spec_padding_tenths(h as int));

    proof {
        lemma_mul_upper_bound(range as int, 2 * VALUE_LIMIT as int, pad_tenths as int, 50);
        lemma_mul_inequality(0, range as int, pad_tenths as int);
    }
    let buffered: i64 = if range != 0 {
        range + (range * pad_tenths) / 500
    } else {
        2 * SCALE
    };
    assert(buffered == spec_buffered_range(range as int, h as int));

    let raw: i64 = if h >= 15 {
        proof {
            lemma_div_is_ordered_by_denominator((buffered * 7) as int, 14, (h - 1) as int);
        }
        (buffered * 7) / (h - 1)
    } else {
        buffered / 2
    };
    assert(raw == spec_raw_increment(range as int, h as int));
    assert(raw <= 2 * VALUE_LIMIT);

    let inc: i64 = snap_increment(raw);
    assert(inc <= 20 * VALUE_LIMIT + 10);

    let pad: i64 = if range > 0 {
        (pad_tenths * range) / 1000
    } else {
        SCALE
    };
    proof {
        lemma_mul_upper_bound(pad_tenths as int, 50, range as int, 2 * VALUE_LIMIT as int);
        lemma_mul_inequality(0, pad_tenths as int, range as int);
    }
    assert(pad == spec_padding(range as int, h as int));

    proof {
        if range > 0 {
            lemma_div_is_ordered(
                (pad_tenths * range) as int,
                100000000000000000,
                1000,
            );
        }
    }
    let low = floor_to_multiple(min_value - pad, inc);
    let high = ceil_to_multiple(max_value + pad, inc);
    assert(low < high);
    assert(-BOUND_LIMIT <= low && high <= BOUND_LIMIT);

    let span: i64 = high - low;
    let ghost qf = (min_value - pad) as int / inc as int;
    let ghost qc = -(-((max_value + pad) as int) / inc as int);
    proof {
        let qm = -((max_value + pad) as int) / (inc as int);
        assert(qc * (inc as int) == -(qm * (inc as int))) by (nonlinear_arith)
            requires
                qc == -qm,
        ;
        assert(span == (qc - qf) * inc) by (nonlinear_arith)
            requires
                low == qf * (inc as int),
                high == qc * (inc as int),
                span == high - low,
        ;
        assert(1 <= qc - qf && qc - qf <= span) by (nonlinear_arith)
            requires
                span == (qc - qf) * inc,
                1 <= inc,
                0 < span,
        ;
        lemma_fundamental_div_mod_converse_div(span as int, inc as int, qc - qf, 0);
        assert((qc - qf) * (inc as int) == (inc as int) * (qc - qf)) by (nonlinear_arith);
        lemma_mod_multiples_basic(qf, inc as int);
        lemma_mod_multiples_basic(qc, inc as int);
        assert(qf * (inc as int) == (inc as int) * qf) by (nonlinear_arith);
        assert(qc * (inc as int) == (inc as int) * qc) by (nonlinear_arith);
    }
    let pre_ticks: i64 = span / inc + 1;
    assert(pre_ticks == spec_axis_raw_ticks(min_value as int, max_value as int, h as int));

    let ticks: i64 = if 10 * (h - 1) < 21 * pre_ticks {
        2
    } else {
        pre_ticks
    };
    assert(2 <= ticks <= 0x7fffffff);

    ([low, high], ticks as i32)
}

} // verus!
