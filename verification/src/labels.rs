//! Tick label text.
//!
//! A tick label shows its value with just enough decimal places to tell
//! neighbouring ticks apart: none when the tick increment is at least one
//! unit, and otherwise one place per decade the increment lies below one
//! unit.  Values are fixed-point integers in millionths, so the text is
//! produced by exact integer arithmetic, rounding half away from zero.

use vstd::prelude::*;

use crate::axis::{pow10_below, pow10_below_exec};
use crate::{BOUND_LIMIT, SCALE};

verus! {

/// Relies on `String::push`: appends the given character to the end of the
/// string.
pub assume_specification[ String::push ](s: &mut String, ch: char)
    ensures
        final(s)@ == old(s)@.push(ch),
;

/// Relies on `String::push_str`: appends the given string slice to the end
/// of the string.
pub assume_specification[ String::push_str ](s: &mut String, other: &str)
    ensures
        final(s)@ == old(s)@ + other@,
;

/// The character for one decimal digit.
pub open spec fn digit_char(d: int) -> char {
    ((d + 48) as u8) as char
}

/// Decimal digits of a non-negative number, most significant first.
pub open spec fn dec_digits(n: int) -> Seq<char>
    decreases n,
{
    if n < 10 {
        seq![digit_char(n)]
    } else {
        dec_digits(n / 10).push(digit_char(n % 10))
    }
}

/// The fractional digits of `n` under divisor `tp`: one digit per decade of
/// `tp`, zero-padded, most significant first.
pub open spec fn frac_digits(n: int, tp: int) -> Seq<char>
    decreases tp,
{
    if tp <= 1 {
        Seq::empty()
    } else {
        frac_digits(n / 10, tp / 10).push(digit_char(n % 10))
    }
}

/// The label text for `v` when ticks are `inc` apart: rounded half away
/// from zero to the precision `inc` calls for, with a leading minus for
/// negative values.
pub open spec fn spec_format_tick(inc: int, v: int) -> Seq<char> {
    let d = if inc >= SCALE {
        SCALE as int
    } else {
        pow10_below(inc)
    };
    let m = if v < 0 {
        -v
    } else {
        v
    };
    let sc = (m + d / 2) / d;
    let tp = (SCALE as int) / d;
    let digits = dec_digits(sc / tp) + if tp > 1 {
        seq!['.'] + frac_digits(sc % tp, tp)
    } else {
        Seq::empty()
    };
    if v < 0 {
        seq!['-'] + digits
    } else {
        digits
    }
}

/// Appends the decimal digits of `n`.
fn push_digits(s: &mut String, n: u64)
    ensures
        final(s)@ == old(s)@ + dec_digits(n as int),
    decreases n,
{
    if n < 10 {
        let d: u8 = 48 + (n as u8);
        s.push(d as char);
        proof {
            assert(s@ =~= old(s)@ + dec_digits(n as int));
        }
    } else {
        push_digits(s, n / 10);
        let d: u8 = 48 + ((n % 10) as u8);
        s.push(d as char);
        proof {
            assert(s@ =~= old(s)@ + dec_digits(n as int));
        }
    }
}

/// Appends one digit of `n` per decade of `tp`, zero-padded.
fn push_frac_digits(s: &mut String, n: u64, tp: u64)
    ensures
        final(s)@ == old(s)@ + frac_digits(n as int, tp as int),
    decreases tp,
{
    if tp <= 1 {
        proof {
            assert(s@ =~= old(s)@ + frac_digits(n as int, tp as int));
        }
    } else {
        push_frac_digits(s, n / 10, tp / 10);
        let d: u8 = 48 + ((n % 10) as u8);
        s.push(d as char);
        proof {
            assert(s@ =~= old(s)@ + frac_digits(n as int, tp as int));
        }
    }
}

/// Renders one tick value as text, choosing the decimal precision from the
/// tick increment's magnitude.
pub fn format_tick(increment: i64, value: i64) -> (r: String)
    requires
        1 <= increment,
        -BOUND_LIMIT <= value <= BOUND_LIMIT,
    ensures
        r@ == spec_format_tick(increment as int, value as int),
{
    let d: i64 = if increment >= SCALE {
        SCALE
    } else {
        pow10_below_exec(increment)
    };
    let m: i64 = if value < 0 {
        -value
    } else {
        value
    };
    let sc: i64 = (m + d / 2) / d;
    proof {
        vstd::arithmetic::div_mod::lemma_div_is_ordered(
            (m + d / 2) as int,
            (BOUND_LIMIT + SCALE) as int,
            d as int,
        );
        vstd::arithmetic::div_mod::lemma_div_pos_is_pos((m + d / 2) as int, d as int);
        vstd::arithmetic::div_mod::lemma_div_by_self(d as int);
        vstd::arithmetic::div_mod::lemma_div_is_ordered(d as int, SCALE as int, d as int);
    }
    let tp: i64 = SCALE / d;
    proof {
        vstd::arithmetic::div_mod::lemma_div_pos_is_pos(sc as int, tp as int);
    }
    let whole: i64 = sc / tp;
    let frac: i64 = sc % tp;
    let mut out = String::new();
    if value < 0 {
        out.push('-');
    }
    push_digits(&mut out, whole as u64);
    if tp > 1 {
        out.push('.');
        push_frac_digits(&mut out, frac as u64, tp as u64);
    }
    proof {
        assert(out@ =~= spec_format_tick(increment as int, value as int));
    }
    out
}

/// The text appended after every tick value: a space, then the unit label
/// and another space when a label is configured.
pub open spec fn spec_suffix(label: Seq<char>) -> Seq<char> {
    if label.len() == 0 {
        seq![' ']
    } else {
        seq![' '] + label + seq![' ']
    }
}

/// One full axis label: the formatted tick value followed by the suffix.
pub open spec fn spec_tick_label(inc: int, v: int, label: Seq<char>) -> Seq<char> {
    spec_format_tick(inc, v) + spec_suffix(label)
}

/// Renders one tick value and appends the unit suffix.
pub fn tick_label(increment: i64, value: i64, label: &str) -> (r: String)
    requires
        1 <= increment,
        -BOUND_LIMIT <= value <= BOUND_LIMIT,
    ensures
        r@ == spec_tick_label(increment as int, value as int, label@),
{
    let mut out = format_tick(increment, value);
    out.push(' ');
    if !label.is_empty() {
        out.push_str(label);
        out.push(' ');
    }
    proof {
        assert(out@ =~= spec_tick_label(increment as int, value as int, label@));
    }
    out
}

} // verus!
