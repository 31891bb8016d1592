//! User-supplied y-axis ranges.
//!
//! A manual range is written `"min,max"` or `"min,max,increment"` with plain
//! decimal numbers.  It is validated before the run loop starts: anything
//! malformed is a fatal configuration error, never a recoverable one.  The
//! numbers are read into fixed-point millionths; fraction digits beyond the
//! sixth are ignored, and exponent notation is not accepted.

use vstd::prelude::*;

use vstd::arithmetic::div_mod::lemma_fundamental_div_mod;
use vstd::string::StringSliceAdditionalSpecFns;

use crate::{SCALE, VALUE_LIMIT};

verus! {

/// Why a manual range string was rejected.
#[derive(Clone, Copy, Debug, PartialEq, Eq, Structural)]
pub enum RangeError {
    /// Not exactly 2 or 3 comma-separated fields.
    FieldCount,
    /// A field is not a plain decimal number the fixed-point range can hold.
    Number,
    /// The minimum does not lie strictly below the maximum.
    MinNotBelowMax,
    /// The increment is not positive.
    Increment,
}

impl RangeError {
    /// A short description of the rejection.
    pub fn message(&self) -> (r: String)
        ensures
            r@ == spec_message(*self),
    {
        match self {
            RangeError::FieldCount => "expected 'min,max' or 'min,max,increment'".to_owned(),
            RangeError::Number => "not a decimal number in range".to_owned(),
            RangeError::MinNotBelowMax => "min must be less than max".to_owned(),
            RangeError::Increment => "increment must be positive".to_owned(),
        }
    }
}

/// The description [`RangeError::message`] returns.
pub open spec fn spec_message(e: RangeError) -> Seq<char> {
    match e {
        RangeError::FieldCount => "expected 'min,max' or 'min,max,increment'"@,
        RangeError::Number => "not a decimal number in range"@,
        RangeError::MinNotBelowMax => "min must be less than max"@,
        RangeError::Increment => "increment must be positive"@,
    }
}

/// An ASCII decimal digit.
pub open spec fn is_digit_byte(b: u8) -> bool {
    48 <= b <= 57
}

/// Every byte of `s` is a decimal digit.
pub open spec fn all_digits(s: Seq<u8>) -> bool {
    forall|i: int| 0 <= i < s.len() ==> is_digit_byte(#[trigger] s[i])
}

/// The number an all-digit string denotes (0 when empty).
pub open spec fn digits_value(s: Seq<u8>) -> int
    decreases s.len(),
{
    if s.len() == 0 {
        0
    } else {
        digits_value(s.drop_last()) * 10 + (s.last() - 48)
    }
}

/// Ten to the power `e` (1 for `e <= 0`).
pub open spec fn ten_to(e: int) -> int
    decreases e,
{
    if e <= 0 {
        1
    } else {
        10 * ten_to(e - 1)
    }
}

/// Index of the first occurrence of `b` in `s`, or `s.len()` if absent.
pub open spec fn first_index_of(s: Seq<u8>, b: u8) -> int
    decreases s.len(),
{
    if s.len() == 0 {
        0
    } else if s[0] == b {
        0
    } else {
        1 + first_index_of(s.drop_first(), b)
    }
}

/// The comma-separated fields of `s` (one empty field for an empty string).
pub open spec fn split_commas(s: Seq<u8>) -> Seq<Seq<u8>>
    decreases s.len(),
    via split_commas_decreases
{
    let c = first_index_of(s, 44);
    if c >= s.len() {
        seq![s]
    } else {
        seq![s.subrange(0, c)] + split_commas(s.subrange(c + 1, s.len() as int))
    }
}

#[via_fn]
proof fn split_commas_decreases(s: Seq<u8>) {
    lemma_first_index_range(s, 44);
}

proof fn lemma_first_index_range(s: Seq<u8>, b: u8)
    ensures
        0 <= first_index_of(s, b) <= s.len(),
    decreases s.len(),
{
    if s.len() > 0 && s[0] != b {
        lemma_first_index_range(s.drop_first(), b);
    }
}

/// Whether `s` is a plain decimal number: an optional minus sign, then
/// digits with at most one dot, and at least one digit.
pub open spec fn valid_number(s: Seq<u8>) -> bool {
    let t = if s.len() > 0 && s[0] == 45 {
        s.drop_first()
    } else {
        s
    };
    let dot = first_index_of(t, 46);
    let ip = t.subrange(0, dot);
    let fp = if dot < t.len() {
        t.subrange(dot + 1, t.len() as int)
    } else {
        Seq::empty()
    };
    &&& t.len() > 0
    &&& ip.len() + fp.len() > 0
    &&& all_digits(ip)
    &&& all_digits(fp)
}

/// The value of a valid number in millionths, fraction digits beyond the
/// sixth ignored.
pub open spec fn number_micro(s: Seq<u8>) -> int {
    let neg = s.len() > 0 && s[0] == 45;
    let t = if neg {
        s.drop_first()
    } else {
        s
    };
    let dot = first_index_of(t, 46);
    let ip = t.subrange(0, dot);
    let fp = if dot < t.len() {
        t.subrange(dot + 1, t.len() as int)
    } else {
        Seq::empty()
    };
    let fp6 = if fp.len() <= 6 {
        fp
    } else {
        fp.subrange(0, 6)
    };
    let mag = digits_value(ip) * (SCALE as int) + digits_value(fp6) * ten_to(6 - fp6.len());
    if neg {
        -mag
    } else {
        mag
    }
}

/// Whether `s` denotes a number the store can hold.
pub open spec fn number_in_range(s: Seq<u8>) -> bool {
    &&& valid_number(s)
    &&& -VALUE_LIMIT <= number_micro(s) <= VALUE_LIMIT
}

proof fn lemma_first_index_of(s: Seq<u8>, b: u8, i: int)
    requires
        0 <= i <= s.len(),
        forall|j: int| 0 <= j < i ==> s[j] != b,
        i < s.len() ==> s[i] == b,
    ensures
        first_index_of(s, b) == i,
    decreases i,
{
    if s.len() == 0 {
    } else if i == 0 {
    } else {
        assert(s[0] != b);
        lemma_first_index_of(s.drop_first(), b, i - 1);
    }
}

proof fn lemma_digits_value_step(s: Seq<u8>, k: int)
    requires
        0 <= k < s.len(),
    ensures
        digits_value(s.subrange(0, k + 1)) == digits_value(s.subrange(0, k)) * 10 + (s[k] - 48),
{
    assert(s.subrange(0, k + 1).drop_last() =~= s.subrange(0, k));
    assert(s.subrange(0, k + 1).last() == s[k]);
}

proof fn lemma_digits_bound(s: Seq<u8>)
    requires
        all_digits(s),
    ensures
        0 <= digits_value(s),
        digits_value(s) < ten_to(s.len() as int),
    decreases s.len(),
{
    if s.len() > 0 {
        assert(all_digits(s.drop_last())) by {
            assert(forall|i: int| 0 <= i < s.len() - 1 ==> s.drop_last()[i] == #[trigger] s[i]);
        }
        lemma_digits_bound(s.drop_last());
        assert(is_digit_byte(s.last()));
        assert(ten_to(s.len() as int) == 10 * ten_to(s.len() - 1));
    }
}

proof fn lemma_ten_to_values()
    ensures
        ten_to(0) == 1,
        ten_to(1) == 10,
        ten_to(2) == 100,
        ten_to(3) == 1000,
        ten_to(4) == 10000,
        ten_to(5) == 100000,
        ten_to(6) == 1000000,
{
    assert(ten_to(0) == 1);
    assert(ten_to(1) == 10);
    assert(ten_to(2) == 100);
    assert(ten_to(3) == 1000);
    assert(ten_to(4) == 10000);
    assert(ten_to(5) == 100000);
    assert(ten_to(6) == 1000000);
}

proof fn lemma_ten_to_monotone(a: int, b: int)
    requires
        a <= b,
    ensures
        1 <= ten_to(a) <= ten_to(b),
    decreases b,
{
    if b > 0 && a < b {
        lemma_ten_to_monotone(a, b - 1);
    } else if b > 0 {
        lemma_ten_to_monotone(a - 1, b - 1);
    }
}

proof fn lemma_ten_to_add(a: int, b: int)
    requires
        0 <= a,
        0 <= b,
    ensures
        ten_to(a) * ten_to(b) == ten_to(a + b),
    decreases a,
{
    if a == 0 {
        assert(ten_to(0) * ten_to(b) == ten_to(b)) by (nonlinear_arith)
            requires
                ten_to(0) == 1,
        ;
    } else {
        lemma_ten_to_add(a - 1, b);
        assert(ten_to(a) == 10 * ten_to(a - 1));
        assert(ten_to(a + b) == 10 * ten_to(a + b - 1));
        assert((10 * ten_to(a - 1)) * ten_to(b) == 10 * (ten_to(a - 1) * ten_to(b)))
            by (nonlinear_arith);
    }
}

proof fn lemma_mul_below(acc: int, tp: int, ca: int, ct: int)
    by (nonlinear_arith)
    requires
        0 <= acc < ca,
        1 <= tp <= ct,
    ensures
        0 <= acc * tp,
        acc * tp < ca * ct,
{
}

/// Saturation ceiling while reading the units part of a number: anything
/// above it is already out of range.
const WHOLE_CAP: i64 = 2000000000;

/// Reads an all-digit slice as a number, reporting `None` when some byte is
/// not a digit; values above [`WHOLE_CAP`] come back as `WHOLE_CAP + 1`.
fn read_digits_capped(bytes: &[u8], from: usize, to: usize) -> (r: Option<i64>)
    requires
        from <= to <= bytes@.len(),
    ensures
        r is Some <==> all_digits(bytes@.subrange(from as int, to as int)),
        r matches Some(acc) ==> {
            let dv = digits_value(bytes@.subrange(from as int, to as int));
            &&& (dv <= WHOLE_CAP ==> acc == dv)
            &&& (dv > WHOLE_CAP ==> acc == WHOLE_CAP + 1)
            &&& 0 <= acc <= WHOLE_CAP + 1
        },
{
    let ghost whole = bytes@.subrange(from as int, to as int);
    let mut acc: i64 = 0;
    let mut i: usize = from;
    proof {
        assert(whole.subrange(0, 0) =~= Seq::<u8>::empty());
    }
    while i < to
        invariant
            from <= i <= to <= bytes@.len(),
            whole == bytes@.subrange(from as int, to as int),
            all_digits(whole.subrange(0, i - from)),
            0 <= acc <= WHOLE_CAP + 1,
            digits_value(whole.subrange(0, i - from)) >= 0,
            digits_value(whole.subrange(0, i - from)) <= WHOLE_CAP ==> acc == digits_value(
                whole.subrange(0, i - from),
            ),
            digits_value(whole.subrange(0, i - from)) > WHOLE_CAP ==> acc == WHOLE_CAP + 1,
        decreases to - i,
    {
        let b = bytes[i];
        if b < 48 || b > 57 {
            proof {
                assert(whole[i - from] == b);
            }
            return None;
        }
        proof {
            lemma_digits_value_step(whole, i - from);
            assert(whole[i - from] == b);
            assert(whole.subrange(0, i - from).push(b) =~= whole.subrange(0, i - from + 1));
        }
        let d: i64 = (b - 48) as i64;
        if acc <= WHOLE_CAP {
            let t: i64 = acc * 10 + d;
            acc = if t > WHOLE_CAP {
                WHOLE_CAP + 1
            } else {
                t
            };
        }
        i += 1;
    }
    proof {
        assert(whole.subrange(0, (to - from) as int) =~= whole);
    }
    Some(acc)
}

/// Reads the fraction part: its first six digits, scaled to millionths;
/// every byte, also past the sixth, must be a digit.
fn read_fraction(bytes: &[u8], from: usize, to: usize) -> (r: Option<i64>)
    requires
        from <= to <= bytes@.len(),
    ensures
        r is Some <==> all_digits(bytes@.subrange(from as int, to as int)),
        r matches Some(v) ==> {
            let fp = bytes@.subrange(from as int, to as int);
            let fp6 = if fp.len() <= 6 {
                fp
            } else {
                fp.subrange(0, 6)
            };
            v == digits_value(fp6) * ten_to(6 - fp6.len()) && 0 <= v < SCALE
        },
{
    let ghost fp = bytes@.subrange(from as int, to as int);
    let mut i: usize = from;
    let mut acc: i64 = 0;
    let mut count: usize = 0;
    proof {
        assert(fp.subrange(0, 0) =~= Seq::<u8>::empty());
        lemma_ten_to_values();
    }
    while i < to
        invariant
            from <= i <= to <= bytes@.len(),
            fp == bytes@.subrange(from as int, to as int),
            count == if i - from <= 6 {
                i - from
            } else {
                6int
            },
            all_digits(fp.subrange(0, i - from)),
            acc == digits_value(fp.subrange(0, count as int)),
            0 <= acc,
            acc < ten_to(count as int),
        decreases to - i,
    {
        let b = bytes[i];
        if b < 48 || b > 57 {
            proof {
                assert(fp[i - from] == b);
            }
            return None;
        }
        proof {
            assert(fp[i - from] == b);
            assert(fp.subrange(0, i - from).push(b) =~= fp.subrange(0, i - from + 1));
            lemma_ten_to_values();
        }
        if count < 6 {
            proof {
                lemma_ten_to_monotone(count as int, 5);
                lemma_digits_value_step(fp, count as int);
                assert(ten_to(count + 1) == 10 * ten_to(count as int));
            }
            acc = acc * 10 + ((b - 48) as i64);
            count += 1;
        } else {
            proof {
                assert(fp.subrange(0, 6) =~= fp.subrange(0, 6));
            }
        }
        i += 1;
    }
    // Scale what was read up to six decimal places.
    let mut tp: i64 = 1;
    let mut e: usize = count;
    proof {
        lemma_ten_to_values();
    }
    while e < 6
        invariant
            count <= e <= 6,
            1 <= tp,
            tp == ten_to((e - count) as int),
        decreases 6 - e,
    {
        proof {
            lemma_ten_to_values();
            lemma_ten_to_monotone((e - count) as int, 5);
            assert(ten_to(e + 1 - count) == 10 * ten_to((e - count) as int));
        }
        tp = tp * 10;
        e += 1;
    }
    proof {
        assert(fp.subrange(0, (to - from) as int) =~= fp);
        let fp6 = if fp.len() <= 6 {
            fp
        } else {
            fp.subrange(0, 6)
        };
        assert(fp6 =~= fp.subrange(0, count as int));
        assert(all_digits(fp6));
        lemma_digits_bound(fp6);
        lemma_ten_to_monotone((6 - count) as int, 6);
        lemma_mul_below(acc as int, tp as int, ten_to(count as int), ten_to((6 - count) as int));
        lemma_ten_to_add(count as int, (6 - count) as int);
        lemma_ten_to_values();
    }
    Some(acc * tp)
}

proof fn lemma_split_commas_len(s: Seq<u8>)
    ensures
        split_commas(s).len() >= 1,
{
    lemma_first_index_range(s, 44);
}

proof fn lemma_units_too_big(dv: int)
    by (nonlinear_arith)
    requires
        dv > 1000000000,
    ensures
        dv * 1000000 > 1000000000000000,
{
}

/// Reads one field as a fixed-point number in millionths; `None` when it is
/// not a plain decimal number or does not fit the fixed-point range.
fn parse_micro(bytes: &[u8], from: usize, to: usize) -> (r: Option<i64>)
    requires
        from <= to <= bytes@.len(),
    ensures
        r is Some <==> number_in_range(bytes@.subrange(from as int, to as int)),
        r matches Some(v) ==> v == number_micro(bytes@.subrange(from as int, to as int)),
{
    let ghost field = bytes@.subrange(from as int, to as int);
    let mut start = from;
    let neg = from < to && bytes[from] == 45;
    if neg {
        start = from + 1;
    }
    let ghost t = if neg {
        field.drop_first()
    } else {
        field
    };
    proof {
        assert(t =~= bytes@.subrange(start as int, to as int));
    }
    if start == to {
        // Nothing after the sign.
        return None;
    }
    // Locate the first dot.
    let mut dot = start;
    while dot < to && bytes[dot] != 46
        invariant
            start <= dot <= to <= bytes@.len(),
            forall|j: int| start <= j < dot ==> bytes@[j] != 46,
        decreases to - dot,
    {
        dot += 1;
    }
    proof {
        assert(forall|j: int| 0 <= j < t.len() ==> t[j] == #[trigger] bytes@[start + j]);
        lemma_first_index_of(t, 46, dot - start);
        assert(t.subrange(0, dot - start) =~= bytes@.subrange(start as int, dot as int));
        if dot < to {
            assert(t.subrange(dot - start + 1, t.len() as int) =~= bytes@.subrange(
                dot + 1,
                to as int,
            ));
        }
    }
    let whole = match read_digits_capped(bytes, start, dot) {
        Some(w) => w,
        None => {
            return None;
        },
    };
    let frac = if dot < to {
        match read_fraction(bytes, dot + 1, to) {
            Some(f) => f,
            None => {
                return None;
            },
        }
    } else {
        0
    };
    // An empty units part together with an empty fraction is no number.
    if start == dot && dot + 1 >= to {
        return None;
    }
    proof {
        lemma_digits_bound(t.subrange(0, dot - start));
    }
    if whole > VALUE_LIMIT / SCALE {
        // Units beyond a billion cannot fit the fixed-point range.
        proof {
            lemma_units_too_big(digits_value(t.subrange(0, dot - start)));
        }
        return None;
    }
    let mag: i64 = whole * SCALE + frac;
    if mag > VALUE_LIMIT {
        return None;
    }
    if neg {
        Some(-mag)
    } else {
        Some(mag)
    }
}

/// A user-supplied y-axis: validated bounds, the tick increment, and the
/// tick count they imply.
#[derive(Clone, Copy, Debug, PartialEq, Eq, Structural)]
pub struct ManualAxis {
    /// Lower bound, in millionths.
    pub min: i64,
    /// Upper bound, in millionths.
    pub max: i64,
    /// Tick spacing, in millionths.
    pub increment: i64,
    /// Number of ticks, end ticks included.
    pub ticks: i64,
}

/// The increment a manual range uses: the explicit one when given, else
/// about one tick per six rows (or a quarter of the range when the chart is
/// too short to tell), never below one millionth and never above the range.
pub open spec fn spec_manual_increment(minv: int, maxv: int, explicit: Option<int>, h: int) -> int {
    let range = maxv - minv;
    let raw = match explicit {
        Some(i) => i,
        None => if h >= 2 {
            let d = range * 6 / (h - 1);
            if d < 1 {
                1
            } else {
                d
            }
        } else {
            let d = range / 4;
            if d < 1 {
                1
            } else {
                d
            }
        },
    };
    if raw > range {
        range
    } else {
        raw
    }
}

/// Tick count of a manual range: the range over the increment, rounded half
/// away, plus one for the closing tick.
pub open spec fn spec_manual_ticks(range: int, inc: int) -> int {
    (2 * range + inc) / (2 * inc) + 1
}

/// Finds the first comma at or after `from`.
fn find_comma(bytes: &[u8], from: usize) -> (c: usize)
    requires
        from <= bytes@.len(),
    ensures
        from <= c <= bytes@.len(),
        forall|j: int| from <= j < c ==> bytes@[j] != 44,
        c < bytes@.len() ==> bytes@[c as int] == 44,
{
    let mut c = from;
    while c < bytes.len() && bytes[c] != 44
        invariant
            from <= c <= bytes@.len(),
            forall|j: int| from <= j < c ==> bytes@[j] != 44,
        decreases bytes@.len() - c,
    {
        c += 1;
    }
    c
}

/// Validates a manual range string against the chart height and computes
/// its axis: exactly two or three comma-separated decimal numbers, the
/// first strictly below the second, and a positive increment if one is
/// given.  Errors are reported in that order.
pub fn parse_manual_range(s: &str, chart_height: i32) -> (r: Result<ManualAxis, RangeError>)
    ensures
        ({
            let fields = split_commas(s.spec_bytes());
            let counts_ok = fields.len() == 2 || fields.len() == 3;
            let nums_ok = forall|i: int| 0 <= i < fields.len() ==> number_in_range(#[trigger] fields[i]);
            let ordered = counts_ok && nums_ok && number_micro(fields[0]) < number_micro(fields[1]);
            let inc_ok = counts_ok && nums_ok && (fields.len() == 2 || number_micro(fields[2]) > 0);
            &&& (r == Result::<ManualAxis, RangeError>::Err(RangeError::FieldCount) <==> !counts_ok)
            &&& (r == Result::<ManualAxis, RangeError>::Err(RangeError::Number) <==> counts_ok
                && !nums_ok)
            &&& (r == Result::<ManualAxis, RangeError>::Err(RangeError::MinNotBelowMax) <==>
                counts_ok && nums_ok && !ordered)
            &&& (r == Result::<ManualAxis, RangeError>::Err(RangeError::Increment) <==> ordered
                && !inc_ok)
            &&& (r is Ok <==> ordered && inc_ok)
            &&& (match r {
                Ok(m) => {
                    let explicit = if fields.len() == 3 {
                        Some(number_micro(fields[2]))
                    } else {
                        None
                    };
                    &&& m.min == number_micro(fields[0])
                    &&& m.max == number_micro(fields[1])
                    &&& m.increment == spec_manual_increment(
                        m.min as int,
                        m.max as int,
                        explicit,
                        chart_height as int,
                    )
                    &&& m.ticks == spec_manual_ticks((m.max - m.min) as int, m.increment as int)
                    &&& 1 <= m.increment <= m.max - m.min
                    &&& 2 <= m.ticks
                },
                Err(_) => true,
            })
        }),
{
    let bytes = s.as_bytes();
    let ghost whole = s.spec_bytes();
    let c1 = find_comma(bytes, 0);
    proof {
        lemma_first_index_of(whole, 44, c1 as int);
    }
    if c1 == bytes.len() {
        // A single field.
        return Err(RangeError::FieldCount);
    }
    let c2 = find_comma(bytes, c1 + 1);
    let ghost t1 = whole.subrange(c1 + 1, whole.len() as int);
    proof {
        assert(forall|j: int| 0 <= j < t1.len() ==> t1[j] == #[trigger] whole[c1 + 1 + j]);
        lemma_first_index_of(t1, 44, c2 - c1 - 1);
    }
    if c2 == bytes.len() {
        // Two fields.
        proof {
            assert(split_commas(whole) == seq![whole.subrange(0, c1 as int)] + split_commas(t1));
            assert(split_commas(t1) == seq![t1]);
            assert(split_commas(whole) =~= seq![
                whole.subrange(0, c1 as int),
                whole.subrange(c1 + 1, whole.len() as int),
            ]);
        }
        let minv = match parse_micro(bytes, 0, c1) {
            Some(v) => v,
            None => {
                return Err(RangeError::Number);
            },
        };
        let maxv = match parse_micro(bytes, c1 + 1, bytes.len()) {
            Some(v) => v,
            None => {
                return Err(RangeError::Number);
            },
        };
        if minv >= maxv {
            return Err(RangeError::MinNotBelowMax);
        }
        return Ok(finish_axis(minv, maxv, None, chart_height));
    }
    let c3 = find_comma(bytes, c2 + 1);
    let ghost t2 = whole.subrange(c2 + 1, whole.len() as int);
    proof {
        assert(forall|j: int| 0 <= j < t2.len() ==> t2[j] == #[trigger] whole[c2 + 1 + j]);
        lemma_first_index_of(t2, 44, c3 - c2 - 1);
        assert(t1.subrange(0, c2 - c1 - 1) =~= whole.subrange(c1 + 1, c2 as int));
        assert(t1.subrange(c2 - c1 - 1 + 1, t1.len() as int) =~= t2);
    }
    proof {
        assert(split_commas(whole) == seq![whole.subrange(0, c1 as int)] + split_commas(t1));
        assert(t1.subrange(0, c2 - c1 - 1) == whole.subrange(c1 + 1, c2 as int));
        assert(split_commas(t1) == seq![whole.subrange(c1 + 1, c2 as int)] + split_commas(t2));
    }
    if c3 < bytes.len() {
        // Four or more fields.
        proof {
            let t3 = t2.subrange(c3 - c2 - 1 + 1, t2.len() as int);
            lemma_split_commas_len(t3);
            assert(t2.subrange(0, c3 - c2 - 1) =~= whole.subrange(c2 + 1, c3 as int));
            assert(split_commas(t2) == seq![whole.subrange(c2 + 1, c3 as int)] + split_commas(t3));
            assert(split_commas(whole).len() == 2 + split_commas(t2).len());
        }
        return Err(RangeError::FieldCount);
    }
    // Exactly three fields.
    proof {
        assert(split_commas(t2) == seq![t2]);
        assert(split_commas(whole) =~= seq![
            whole.subrange(0, c1 as int),
            whole.subrange(c1 + 1, c2 as int),
            whole.subrange(c2 + 1, whole.len() as int),
        ]);
    }
    let minv = match parse_micro(bytes, 0, c1) {
        Some(v) => v,
        None => {
            return Err(RangeError::Number);
        },
    };
    let maxv = match parse_micro(bytes, c1 + 1, c2) {
        Some(v) => v,
        None => {
            return Err(RangeError::Number);
        },
    };
    let incv = match parse_micro(bytes, c2 + 1, bytes.len()) {
        Some(v) => v,
        None => {
            return Err(RangeError::Number);
        },
    };
    if minv >= maxv {
        return Err(RangeError::MinNotBelowMax);
    }
    if incv <= 0 {
        return Err(RangeError::Increment);
    }
    Ok(finish_axis(minv, maxv, Some(incv), chart_height))
}

/// Clamps the increment and counts the ticks of a validated manual range.
fn finish_axis(minv: i64, maxv: i64, explicit: Option<i64>, chart_height: i32) -> (m: ManualAxis)
    requires
        -VALUE_LIMIT <= minv < maxv <= VALUE_LIMIT,
        match explicit {
            Some(i) => 1 <= i,
            None => true,
        },
    ensures
        m.min == minv,
        m.max == maxv,
        m.increment == spec_manual_increment(
            minv as int,
            maxv as int,
            match explicit {
                Some(i) => Some(i as int),
                None => None,
            },
            chart_height as int,
        ),
        m.ticks == spec_manual_ticks((maxv - minv) as int, m.increment as int),
        1 <= m.increment <= maxv - minv,
        2 <= m.ticks,
{
    let range: i64 = maxv - minv;
    let h: i64 = chart_height as i64;
    let raw: i64 = match explicit {
        Some(i) => i,
        None => {
            if h >= 2 {
                let d = (range * 6) / (h - 1);
                if d < 1 {
                    1
                } else {
                    d
                }
            } else {
                let d = range / 4;
                if d < 1 {
                    1
                } else {
                    d
                }
            }
        },
    };
    let increment: i64 = if raw > range {
        range
    } else {
        raw
    };
    proof {
        vstd::arithmetic::div_mod::lemma_div_by_self((2 * increment) as int);
        vstd::arithmetic::div_mod::lemma_div_is_ordered(
            (2 * increment) as int,
            (2 * range + increment) as int,
            (2 * increment) as int,
        );
        lemma_fundamental_div_mod((2 * range + increment) as int, (2 * increment) as int);
    }
    let ticks: i64 = (2 * range + increment) / (2 * increment) + 1;
    ManualAxis { min: minv, max: maxv, increment, ticks }
}

} // verus!
