//! The civil month of a timestamp, in the proleptic Gregorian calendar.

use crate::text::push_char;
use vstd::prelude::*;
use vstd::string::*;

verus! {

/// Milliseconds of a day.
pub const DAY_MS: u64 = 86_400_000;

/// A year with a 29th of February.
pub open spec fn is_leap(y: int) -> bool {
    y % 4 == 0 && (y % 100 != 0 || y % 400 == 0)
}

/// Days of a month.
pub open spec fn month_len(y: int, m: int) -> int {
    if m == 2 {
        if is_leap(y) {
            29
        } else {
            28
        }
    } else if m == 4 || m == 6 || m == 9 || m == 11 {
        30
    } else {
        31
    }
}

/// Days from the start of year 0 to the start of year `y`.
pub open spec fn year_start(y: int) -> int
    decreases y,
{
    if y <= 0 {
        0
    } else {
        year_start(y - 1) + if is_leap(y - 1) {
            366int
        } else {
            365
        }
    }
}

/// Days from the start of a year to the start of its month `m`.
pub open spec fn month_offset(y: int, m: int) -> int
    decreases m,
{
    if m <= 1 {
        0
    } else {
        month_offset(y, m - 1) + month_len(y, m - 1)
    }
}

/// Days from 1970-01-01 to the first day of a month: year 0 starts 719528
/// days before.
pub open spec fn month_start(y: int, m: int) -> int {
    year_start(y) + month_offset(y, m) - 719528
}

/// A day, counted from 1970-01-01, falls in a month.
pub open spec fn falls_in(day: int, y: int, m: int) -> bool {
    y >= 0 && 1 <= m <= 12 && month_start(y, m) <= day < month_start(y, m) + month_len(y, m)
}

/// The year and month of a day.
pub open spec fn civil(day: int) -> (int, int) {
    choose|y: int, m: int| #[trigger] falls_in(day, y, m)
}

/// The decimal digits of a number.
pub open spec fn decimal(n: nat) -> Seq<char>
    decreases n,
{
    if n < 10 {
        seq![digit(n)]
    } else {
        decimal(n / 10).push(digit(n % 10))
    }
}

/// A digit.
pub open spec fn digit(n: nat) -> char {
    ('0' as int + n as int) as char
}

/// A number with at least `width` digits.
pub open spec fn padded(n: nat, width: nat) -> Seq<char>
    decreases width,
{
    if decimal(n).len() >= width || width == 0 {
        decimal(n)
    } else if n < 10 {
        Seq::new((width - 1) as nat, |i: int| '0') + decimal(n)
    } else {
        padded(n / 10, (width - 1) as nat).push(digit(n % 10))
    }
}

/// `year-month` of a timestamp, in unix milliseconds.
pub open spec fn year_month(ms: u64) -> Seq<char> {
    let (y, m) = civil((ms / DAY_MS) as int);
    padded(y as nat, 4).push('-') + padded(m as nat, 2)
}

/// The number of leap years before `y` in closed form.
proof fn lemma_year_start(y: int)
    requires
        y >= 0,
    ensures
        year_start(y) == 365 * y + (y + 3) / 4 - (y + 99) / 100 + (y + 399) / 400,
    decreases y,
{
    if y > 0 {
        lemma_year_start(y - 1);
    }
}

proof fn lemma_offsets(y: int)
    ensures
        month_offset(y, 1) == 0,
        month_offset(y, 2) == 31,
        month_offset(y, 3) == 31 + month_len(y, 2),
        month_offset(y, 4) == 62 + month_len(y, 2),
        month_offset(y, 5) == 92 + month_len(y, 2),
        month_offset(y, 6) == 123 + month_len(y, 2),
        month_offset(y, 7) == 153 + month_len(y, 2),
        month_offset(y, 8) == 184 + month_len(y, 2),
        month_offset(y, 9) == 215 + month_len(y, 2),
        month_offset(y, 10) == 245 + month_len(y, 2),
        month_offset(y, 11) == 276 + month_len(y, 2),
        month_offset(y, 12) == 306 + month_len(y, 2),
        month_offset(y, 13) == 337 + month_len(y, 2),
{
    reveal_with_fuel(month_offset, 14);
}

proof fn lemma_years_rise(a: int, b: int)
    requires
        0 <= a < b,
    ensures
        year_start(a) + month_offset(a, 13) <= year_start(b),
    decreases b,
{
    lemma_offsets(a);
    if a < b - 1 {
        lemma_years_rise(a, b - 1);
    }
}

proof fn lemma_months_rise(y: int, a: int, b: int)
    requires
        1 <= a < b,
    ensures
        month_offset(y, a) + month_len(y, a) <= month_offset(y, b),
    decreases b,
{
    if a < b - 1 {
        lemma_months_rise(y, a, b - 1);
    }
}

/// A day falls in one month only.
pub proof fn month_is_unique(day: int, y: int, m: int)
    requires
        falls_in(day, y, m),
    ensures
        civil(day) == (y, m),
{
    let (y2, m2) = civil(day);
    assert(falls_in(day, y2, m2));
    if y != y2 {
        let (a, am, b, bm) = if y < y2 {
            (y, m, y2, m2)
        } else {
            (y2, m2, y, m)
        };
        lemma_years_rise(a, b);
        lemma_months_rise(a, am, 13);
        if bm > 1 {
            lemma_months_rise(b, 1, bm);
        }
    } else if m < m2 {
        lemma_months_rise(y, m, m2);
    } else if m2 < m {
        lemma_months_rise(y, m2, m);
    }
}

/// A year that starts in March: its first day, counted from the first of March
/// of year 0.
spec fn march(y: int) -> int {
    365 * y + y / 4 - y / 100 + y / 400
}

/// The twelve months of a year that starts in March.
proof fn lemma_march_month(day: int, y: int, doy: int, mp: int)
    requires
        y >= 0,
        day + 719468 == march(y) + doy,
        0 <= doy,
        doy < march(y + 1) - march(y),
        mp == (5 * doy + 2) / 153,
    ensures
        0 <= mp <= 11,
        mp < 10 ==> falls_in(day, y, mp + 3),
        mp >= 10 ==> falls_in(day, y + 1, mp - 9),
{
    lemma_year_start(y);
    lemma_year_start(y + 1);
    lemma_offsets(y);
    lemma_offsets(y + 1);
    assert(doy <= 365);
    assert(year_start(y) + month_len(y, 2) + 31 - 719528 == march(y) - 719468);
    assert(year_start(y + 1) - 719528 == march(y) + 306 - 719468);
    assert(march(y + 1) - march(y) == 337 + month_len(y + 1, 2));
}

/// The quotients of a year that is given by its parts.
proof fn lemma_parts(era: int, century: int, cycle: int, year: int, y: int)
    requires
        0 <= century <= 3,
        0 <= cycle <= 24,
        0 <= year <= 3,
        y == 400 * era + 100 * century + 4 * cycle + year,
    ensures
        y / 4 == 100 * era + 25 * century + cycle,
        y / 100 == 4 * era + century,
        y / 400 == era,
{
}

/// The parts of a day count add up, and the day lies within its year.
proof fn lemma_split(era: int, century: int, cycle: int, year: int, doy: int)
    requires
        0 <= century <= 3,
        0 <= cycle <= 24,
        0 <= year <= 3,
        0 <= doy <= 365,
        year < 3 ==> doy <= 364,
        cycle == 24 && year == 3 && century < 3 ==> doy <= 364,
    ensures
        ({
            let y = 400 * era + 100 * century + 4 * cycle + year;
            &&& march(y) == 146_097 * era + 36_524 * century + 1461 * cycle + 365 * year
            &&& doy < march(y + 1) - march(y)
        }),
{
    let y = 400 * era + 100 * century + 4 * cycle + year;
    lemma_parts(era, century, cycle, year, y);
    if year < 3 {
        lemma_parts(era, century, cycle, year + 1, y + 1);
    } else if cycle < 24 {
        lemma_parts(era, century, cycle + 1, 0, y + 1);
    } else if century < 3 {
        lemma_parts(era, century + 1, 0, 0, y + 1);
    } else {
        lemma_parts(era + 1, 0, 0, 0, y + 1);
    }
}

/// Splits a count of days into centuries, four-year cycles and years.
fn split_days(z: u64) -> (r: (u64, u64))
    requires
        z <= 0xffff_ffff_ffff,
    ensures
        z == march(r.0 as int) + r.1,
        r.1 < march(r.0 + 1) - march(r.0 as int),
        r.0 <= z,
{
    let era: u64 = z / 146_097;
    let doe: u64 = z % 146_097;
    let century: u64 = if doe / 36_524 > 3 {
        3
    } else {
        doe / 36_524
    };
    let doc: u64 = doe - 36_524 * century;
    let cycle: u64 = doc / 1461;
    let doq: u64 = doc % 1461;
    let year: u64 = if doq / 365 > 3 {
        3
    } else {
        doq / 365
    };
    let doy: u64 = doq - 365 * year;
    let y: u64 = 400 * era + 100 * century + 4 * cycle + year;
    proof {
        lemma_split(era as int, century as int, cycle as int, year as int, doy as int);
    }
    (y, doy)
}

/// The year and month of a day counted from 1970-01-01.
fn civil_month(day: u64) -> (r: (u64, u64))
    requires
        day <= 0xffff_ffff_ff,
    ensures
        (r.0 as int, r.1 as int) == civil(day as int),
        r.0 <= 0xffff_ffff_ffff,
        1 <= r.1 <= 12,
{
    let (y, doy): (u64, u64) = split_days(day + 719_468);
    assert(doy <= 366);
    let mp: u64 = (5 * doy + 2) / 153;
    proof {
        lemma_march_month(day as int, y as int, doy as int, mp as int);
    }
    if mp < 10 {
        proof {
            month_is_unique(day as int, y as int, mp + 3);
        }
        (y, mp + 3)
    } else {
        proof {
            month_is_unique(day as int, y + 1, mp - 9);
        }
        (y + 1, mp - 9)
    }
}

/// Appends a number with at least `width` digits.
pub(crate) fn push_number(out: &mut String, n: u64, width: usize)
    ensures
        final(out)@ == old(out)@ + padded(n as nat, width as nat),
    decreases n, width,
{
    if n < 10 {
        let ghost start = out@;
        let mut i: usize = 1;
        assert(start + Seq::new(0, |i: int| '0') =~= start);
        while i < width
            invariant
                1 <= i,
                width > 0 ==> i <= width,
                width == 0 ==> i == 1,
                out@ == start + Seq::new((i - 1) as nat, |i: int| '0'),
            decreases width - i,
        {
            push_char(out, '0');
            i = i + 1;
            assert(out@ =~= start + Seq::new((i - 1) as nat, |i: int| '0'));
        }
        push_char(out, digit_char(n));
        proof {
            assert(decimal(n as nat) =~= seq![digit(n as nat)]);
            if width <= 1 {
                assert(padded(n as nat, width as nat) == decimal(n as nat));
            }
            assert(out@ =~= start + padded(n as nat, width as nat));
        }
    } else {
        let ghost start = out@;
        let rest: usize = if width > 0 {
            width - 1
        } else {
            0
        };
        push_number(out, n / 10, rest);
        push_char(out, digit_char(n % 10));
        proof {
            lemma_padded(n as nat, width as nat);
            assert(out@ =~= start + padded(n as nat, width as nat));
        }
    }
}

proof fn lemma_padded(n: nat, width: nat)
    requires
        n >= 10,
    ensures
        padded(n, width) == padded(
            n / 10,
            if width > 0 {
                (width - 1) as nat
            } else {
                0
            },
        ).push(digit(n % 10)),
{
}

fn digit_char(n: u64) -> (r: char)
    requires
        n < 10,
    ensures
        r == digit(n as nat),
{
    let b: u8 = 48 + n as u8;
    b as char
}

/// Appends `year-month` of a unix-millisecond timestamp.
pub(crate) fn render_ym(out: &mut String, ms: u64)
    ensures
        final(out)@ == old(out)@ + year_month(ms),
{
    let ghost start = out@;
    let (y, m): (u64, u64) = civil_month(ms / DAY_MS);
    push_number(out, y, 4);
    push_char(out, '-');
    push_number(out, m, 2);
    assert(out@ =~= start + year_month(ms));
}

} // verus!
