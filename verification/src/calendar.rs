//! Civil dates of the Gregorian calendar, from days and seconds since the start of 1970.

use vstd::prelude::*;
use crate::order;
use crate::text;

verus! {

/// A civil date.
#[derive(Clone, Copy, Debug, PartialEq, Eq, Structural)]
pub struct Date {
    pub year: u64,
    pub month: u64,
    pub day: u64,
}

/// Whether a year has a leap day.
pub open spec fn is_leap(y: int) -> bool {
    y % 4 == 0 && (y % 100 != 0 || y % 400 == 0)
}

/// The days of a month.
pub open spec fn month_days(y: int, m: int) -> int {
    if m == 2 {
        if is_leap(y) {
            29
        } else {
            28
        }
    } else if m == 4 || m == 6 || m == 9 || m == 11 {
        30
    } else {
        31
    }
}

/// The days of a year before a month of it.
pub open spec fn days_before_month(y: int, m: int) -> int
    decreases m,
{
    if m <= 1 {
        0
    } else {
        days_before_month(y, m - 1) + month_days(y, m - 1)
    }
}

/// The days from the start of 1970 to the start of a year.
pub open spec fn days_before_year(y: int) -> int
    decreases y,
{
    if y <= 1970 {
        0
    } else {
        days_before_year(y - 1) + (if is_leap(y - 1) {
            366int
        } else {
            365
        })
    }
}

/// Whether a date is one of the calendar, in 1970 or later.
pub open spec fn is_date(d: Date) -> bool {
    1970 <= d.year && 1 <= d.month <= 12 && 1 <= d.day <= month_days(d.year as int, d.month as int)
}

/// The days from the start of 1970 to a date.
pub open spec fn day_number(d: Date) -> int {
    days_before_year(d.year as int) + days_before_month(d.year as int, d.month as int) + d.day - 1
}

proof fn lemma_year_start(y: int)
    requires
        1970 <= y,
    ensures
        days_before_year(y) == 365 * (y - 1970) + (y - 1) / 4 - (y - 1) / 100 + (y - 1) / 400 - 477,
    decreases y,
{
    if y > 1970 {
        lemma_year_start(y - 1);
    }
}

proof fn lemma_month_starts(y: int)
    ensures
        days_before_month(y, 1) == 0,
        days_before_month(y, 2) == 31,
        days_before_month(y, 3) == 31 + month_days(y, 2),
        days_before_month(y, 4) == 62 + month_days(y, 2),
        days_before_month(y, 5) == 92 + month_days(y, 2),
        days_before_month(y, 6) == 123 + month_days(y, 2),
        days_before_month(y, 7) == 153 + month_days(y, 2),
        days_before_month(y, 8) == 184 + month_days(y, 2),
        days_before_month(y, 9) == 215 + month_days(y, 2),
        days_before_month(y, 10) == 245 + month_days(y, 2),
        days_before_month(y, 11) == 276 + month_days(y, 2),
        days_before_month(y, 12) == 306 + month_days(y, 2),
        days_before_month(y, 13) == 337 + month_days(y, 2),
{
    reveal_with_fuel(days_before_month, 14);
}

proof fn lemma_years_grow(a: int, b: int)
    requires
        1970 <= a < b,
    ensures
        days_before_year(a) + (if is_leap(a) {
            366int
        } else {
            365
        }) <= days_before_year(b),
    decreases b - a,
{
    if b > a + 1 {
        lemma_years_grow(a, b - 1);
    }
}

/// A day has one date: two dates that are as many days from the start of 1970 are the same.
pub proof fn dates_are_unique(a: Date, b: Date)
    requires
        is_date(a),
        is_date(b),
        day_number(a) == day_number(b),
    ensures
        a == b,
{
    lemma_month_starts(a.year as int);
    lemma_month_starts(b.year as int);
    if a.year < b.year {
        lemma_years_grow(a.year as int, b.year as int);
    } else if b.year < a.year {
        lemma_years_grow(b.year as int, a.year as int);
    }
}

/// Counts a day of a four-century era in centuries, leap cycles and years.
proof fn lemma_cycles(doe: int) -> (r: (int, int, int, int))
    requires
        0 <= doe < 146097,
    ensures
        0 <= r.0 <= 3,
        0 <= r.1 <= 24,
        0 <= r.2 <= 3,
        0 <= r.3 <= 365,
        r.3 == 365 ==> r.2 == 3 && (r.1 == 24 ==> r.0 == 3),
        doe == 36524 * r.0 + 1461 * r.1 + 365 * r.2 + r.3,
{
    let c = if doe == 146096 {
        3
    } else {
        doe / 36524
    };
    let rest = doe - 36524 * c;
    let q = rest / 1461;
    let s = rest - 1461 * q;
    let k = if s == 1460 {
        3
    } else {
        s / 365
    };
    (c, q, k, s - 365 * k)
}

/// The day of a four-century era that begins in March lies in the year that the division gives.
proof fn lemma_year_of_era(doe: int, yoe: int)
    requires
        0 <= doe < 146097,
        yoe == (doe - doe / 1460 + doe / 36524 - doe / 146096) / 365,
    ensures
        0 <= yoe < 400,
        0 <= doe - (365 * yoe + yoe / 4 - yoe / 100) < 366,
        doe - (365 * yoe + yoe / 4 - yoe / 100) == 365 ==> is_leap(yoe + 1),
{
    let (c, q, k, t) = lemma_cycles(doe);
    let y = 100 * c + 4 * q + k;
    let part = 24 * c + q + 365 * k + t;
    let e: int = if part >= 1460 {
        1
    } else {
        0
    };
    assert(doe == 1460 * (25 * c + q) + part);
    assert(doe / 1460 == 25 * c + q + e);
    assert(doe / 36524 - doe / 146096 == c);
    assert(yoe == (365 * y + t - e) / 365);
    assert(yoe == y);
    assert(y / 4 == 25 * c + q);
    assert(y / 100 == c);
}

/// Where a year that begins in March starts its months, by the rule of fifths.
proof fn lemma_march_month(doy: int, mp: int)
    requires
        0 <= doy < 366,
        mp == (5 * doy + 2) / 153,
    ensures
        0 <= mp <= 11,
        0 <= doy - (153 * mp + 2) / 5 < 31,
        mp == 1 || mp == 3 || mp == 6 || mp == 8 ==> doy - (153 * mp + 2) / 5 < 30,
        mp == 11 ==> doy - (153 * mp + 2) / 5 < 29,
        mp == 11 && doy - (153 * mp + 2) / 5 == 28 ==> doy == 365,
{
}

/// The date of a day that is `doy` days after the first of March of year `march`.
proof fn lemma_date(days: int, march: int, doy: int, mp: int, date: Date)
    requires
        days >= 0,
        march >= 0,
        0 <= doy < 366,
        doy == 365 ==> is_leap(march + 1),
        days == 365 * march + march / 4 - march / 100 + march / 400 + doy - 719468,
        mp == (5 * doy + 2) / 153,
        date.day == doy - (153 * mp + 2) / 5 + 1,
        date.month == (if mp < 10 {
            mp + 3
        } else {
            mp - 9
        }),
        date.year == (if date.month <= 2 {
            march + 1
        } else {
            march
        }),
    ensures
        is_date(date),
        day_number(date) == days,
{
    lemma_march_month(doy, mp);
    lemma_month_starts(date.year as int);
    if date.month <= 2 {
        assert(march >= 1969);
        lemma_year_start(march + 1);
    } else {
        assert(doy < 306);
        assert(march >= 1970);
        lemma_year_start(march);
        lemma_year_start(march + 1);
    }
}

/// Counts the leap years before a year from its place in its era.
proof fn lemma_march_year(era: int, yoe: int)
    requires
        0 <= era,
        0 <= yoe < 400,
    ensures
        ({
            let march = yoe + era * 400;
            &&& march / 4 == 100 * era + yoe / 4
            &&& march / 100 == 4 * era + yoe / 100
            &&& march / 400 == era
            &&& is_leap(yoe + 1) ==> is_leap(march + 1)
        }),
{
}

/// The parts of the day of an era are in range.
proof fn lemma_parts(doe: int)
    requires
        0 <= doe < 146097,
    ensures
        0 <= doe / 1460 <= doe,
        0 <= doe / 36524 <= 4,
        0 <= doe / 146096 <= 1,
        doe / 146096 <= doe / 36524,
{
}

/// The civil date of a day, counted from the start of 1970.
pub fn civil_date(days: u64) -> (r: Date)
    requires
        days <= u64::MAX / 86400,
    ensures
        is_date(r),
        day_number(r) == days,
{
    let z: u64 = days + 719_468;
    let era: u64 = z / 146_097;
    let doe: u64 = z % 146_097;
    proof {
        lemma_parts(doe as int);
    }
    let yoe: u64 = (doe - doe / 1460 + doe / 36_524 - doe / 146_096) / 365;
    proof {
        lemma_year_of_era(doe as int, yoe as int);
    }
    let doy: u64 = doe - (365 * yoe + yoe / 4 - yoe / 100);
    let mp: u64 = (5 * doy + 2) / 153;
    proof {
        lemma_march_month(doy as int, mp as int);
    }
    let d: u64 = doy - (153 * mp + 2) / 5 + 1;
    let m: u64 = if mp < 10 {
        mp + 3
    } else {
        mp - 9
    };
    let march: u64 = yoe + era * 400;
    let y: u64 = if m <= 2 {
        march + 1
    } else {
        march
    };
    let date = Date { year: y, month: m, day: d };
    proof {
        lemma_march_year(era as int, yoe as int);
        lemma_date(days as int, march as int, doy as int, mp as int, date);
    }
    date
}

/// A number in at least `width` digits.
pub open spec fn digits(n: nat, width: nat) -> Seq<char> {
    let d = text::decimal(n);
    if d.len() >= width {
        d
    } else {
        Seq::new((width - d.len()) as nat, |i: int| '0') + d
    }
}

fn push_digits(out: &mut String, n: u64, width: usize)
    ensures
        final(out)@ == old(out)@ + digits(n as nat, width as nat),
{
    let d = text::decimal_text(n);
    let mut k: usize = d.as_str().unicode_len();
    let ghost before = out@;
    let ghost from = k;
    while k < width
        invariant
            from <= k,
            k <= width || k == from,
            out@ == before + Seq::new((k - from) as nat, |i: int| '0'),
        decreases width - k,
    {
        out.push('0');
        k = k + 1;
        assert(out@ =~= before + Seq::new((k - from) as nat, |i: int| '0'));
    }
    out.append(d.as_str());
    assert(final(out)@ =~= before + digits(n as nat, width as nat));
}

/// A date and the seconds of its day, as `YYYY-MM-DD HH:MM`.
pub open spec fn stamp(d: Date, secs: nat) -> Seq<char> {
    digits(d.year as nat, 4) + "-"@ + digits(d.month as nat, 2) + "-"@ + digits(d.day as nat, 2)
        + " "@ + digits(secs / 3600, 2) + ":"@ + digits((secs % 3600) / 60, 2)
}

/// Whether a text is the stamp of an instant.
pub open spec fn is_stamp_of(ts: u64, s: Seq<char>) -> bool {
    exists|d: Date| #[trigger]
        is_date(d) && day_number(d) == ts / 86400 && s == stamp(d, (ts % 86400) as nat)
}

/// Unix seconds -> "YYYY-MM-DD HH:MM" (UTC).
pub fn utc(ts: u64) -> (r: String)
    ensures
        is_stamp_of(ts, r@),
{
    let days: u64 = ts / 86400;
    let secs: u64 = ts % 86400;
    let d = civil_date(days);
    let mut out = String::new();
    push_digits(&mut out, d.year, 4);
    assert(out@ =~= digits(d.year as nat, 4));
    out.append("-");
    push_digits(&mut out, d.month, 2);
    out.append("-");
    push_digits(&mut out, d.day, 2);
    out.append(" ");
    push_digits(&mut out, secs / 3600, 2);
    out.append(":");
    push_digits(&mut out, (secs % 3600) / 60, 2);
    assert(is_date(d) && day_number(d) == ts / 86400 && out@ == stamp(d, (ts % 86400) as nat));
    out
}

/// The last `width` decimal digits of a number.
spec fn padded(n: nat, width: nat) -> Seq<char>
    decreases width,
{
    if width == 0 {
        seq![]
    } else {
        padded(n / 10, (width - 1) as nat).push(text::digit_char(n % 10))
    }
}

/// Ten to the power of `width`.
spec fn ten_to(width: nat) -> nat
    decreases width,
{
    if width == 0 {
        1
    } else {
        10 * ten_to((width - 1) as nat)
    }
}

proof fn lemma_padded_zero(width: nat)
    ensures
        padded(0, width) == Seq::new(width, |i: int| '0'),
    decreases width,
{
    if width > 0 {
        lemma_padded_zero((width - 1) as nat);
        assert(text::digit_char(0) == '0');
    }
    assert(padded(0, width) =~= Seq::new(width, |i: int| '0'));
}

proof fn lemma_digits_padded(n: nat, width: nat)
    requires
        width > 0,
        n < ten_to(width),
    ensures
        digits(n, width) == padded(n, width),
        padded(n, width).len() == width,
    decreases width,
{
    let less = (width - 1) as nat;
    if n < 10 {
        lemma_padded_zero(less);
        assert(digits(n, width) =~= padded(n, width));
    } else {
        assert(ten_to(1) == 10) by {
            assert(ten_to(0) == 1);
        }
        assert(width > 1);
        lemma_digits_padded(n / 10, less);
        assert(text::decimal(n) == text::decimal(n / 10).push(text::digit_char(n % 10)));
        assert(digits(n, width) =~= digits(n / 10, less).push(text::digit_char(n % 10)));
    }
}

/// Texts of one length order what follows them only where they are the same.
proof fn lemma_text_le_concat(a: Seq<char>, b: Seq<char>, c: Seq<char>, d: Seq<char>)
    requires
        a.len() == b.len(),
    ensures
        order::text_le(a + c, b + d) == (if a == b {
            order::text_le(c, d)
        } else {
            order::text_le(a, b)
        }),
    decreases a.len(),
{
    if a.len() == 0 {
        assert(a + c =~= c && b + d =~= d && a =~= b);
    } else {
        assert((a + c).skip(1) =~= a.skip(1) + c);
        assert((b + d).skip(1) =~= b.skip(1) + d);
        lemma_text_le_concat(a.skip(1), b.skip(1), c, d);
        assert(a =~= seq![a[0]] + a.skip(1));
        assert(b =~= seq![b[0]] + b.skip(1));
    }
}

proof fn lemma_padded_order(m: nat, n: nat, width: nat)
    requires
        m <= n < ten_to(width),
    ensures
        order::text_le(padded(m, width), padded(n, width)),
        padded(m, width) == padded(n, width) ==> m == n,
        padded(m, width).len() == width,
        padded(n, width).len() == width,
    decreases width,
{
    if width > 0 {
        let less = (width - 1) as nat;
        lemma_padded_order(m / 10, n / 10, less);
        let (a, b) = (padded(m / 10, less), padded(n / 10, less));
        let (c, d) = (seq![text::digit_char(m % 10)], seq![text::digit_char(n % 10)]);
        lemma_text_le_concat(a, b, c, d);
        assert(padded(m, width) =~= a + c && padded(n, width) =~= b + d);
        assert(c.skip(1).len() == 0);
        assert(order::text_le(c.skip(1), d.skip(1)));
        if a == b {
            assert(m % 10 <= n % 10);
            assert(c[0] <= d[0]);
            assert(order::text_le(c, d));
        }
        if padded(m, width) == padded(n, width) {
            assert(a =~= (a + c).drop_last() && b =~= (b + d).drop_last());
            assert((a + c).last() == c[0] && (b + d).last() == d[0]);
        }
    }
}

/// A field of fixed width, what is before it being the same, orders two texts.
proof fn lemma_field(m: nat, n: nat, width: nat, c: Seq<char>, d: Seq<char>)
    requires
        width > 0,
        m <= n < ten_to(width),
        m == n ==> order::text_le(c, d),
    ensures
        order::text_le(digits(m, width) + c, digits(n, width) + d),
        digits(m, width).len() == width,
        digits(n, width).len() == width,
        digits(m, width) == digits(n, width) ==> m == n,
{
    lemma_digits_padded(m, width);
    lemma_digits_padded(n, width);
    lemma_padded_order(m, n, width);
    lemma_text_le_concat(digits(m, width), digits(n, width), c, d);
}

proof fn lemma_dates_order(a: Date, b: Date)
    requires
        is_date(a),
        is_date(b),
        day_number(a) <= day_number(b),
    ensures
        a.year <= b.year,
        a.year == b.year ==> a.month <= b.month,
        a.year == b.year && a.month == b.month ==> a.day <= b.day,
{
    lemma_month_starts(a.year as int);
    lemma_month_starts(b.year as int);
    if b.year < a.year {
        lemma_years_grow(b.year as int, a.year as int);
    }
}

proof fn lemma_four_digits(d: Date)
    requires
        is_date(d),
        day_number(d) < 2932897,
    ensures
        d.year < 10000,
{
    lemma_month_starts(d.year as int);
    lemma_year_start(10000);
    assert(days_before_year(10000) == 2932897);
    if d.year > 10000 {
        lemma_years_grow(10000, d.year as int);
    }
    assert(days_before_month(d.year as int, d.month as int) >= 0);
}

/// The tail of a stamp from the day on.
spec fn day_and_time(day: nat, secs: nat) -> Seq<char> {
    digits(day, 2) + (" "@ + (digits(secs / 3600, 2) + (":"@ + digits((secs % 3600) / 60, 2))))
}

proof fn lemma_stamp_parts(d: Date, secs: nat)
    ensures
        stamp(d, secs) == digits(d.year as nat, 4) + ("-"@ + (digits(d.month as nat, 2) + ("-"@
            + day_and_time(d.day as nat, secs)))),
{
    lemma_nested(
        digits(d.year as nat, 4),
        "-"@,
        digits(d.month as nat, 2),
        digits(d.day as nat, 2),
        " "@,
        digits(secs / 3600, 2),
        ":"@,
        digits((secs % 3600) / 60, 2),
    );
}

proof fn lemma_assoc(a: Seq<char>, b: Seq<char>, c: Seq<char>)
    ensures
        a + b + c == a + (b + c),
{
    assert(a + b + c =~= a + (b + c));
}

/// Five fields with separators between them, joined from the left and from the right.
proof fn lemma_nested(
    y: Seq<char>,
    dash: Seq<char>,
    m: Seq<char>,
    d: Seq<char>,
    gap: Seq<char>,
    h: Seq<char>,
    colon: Seq<char>,
    n: Seq<char>,
)
    ensures
        y + dash + m + dash + d + gap + h + colon + n == y + (dash + (m + (dash + (d + (gap + (h + (
        colon + n))))))),
{
    lemma_assoc(y + dash + m + dash + d + gap + h, colon, n);
    lemma_assoc(y + dash + m + dash + d + gap, h, colon + n);
    lemma_assoc(y + dash + m + dash + d, gap, h + (colon + n));
    lemma_assoc(y + dash + m + dash, d, gap + (h + (colon + n)));
    lemma_assoc(y + dash + m, dash, d + (gap + (h + (colon + n))));
    lemma_assoc(y + dash, m, dash + (d + (gap + (h + (colon + n)))));
    lemma_assoc(y, dash, m + (dash + (d + (gap + (h + (colon + n))))));
}

proof fn lemma_powers()
    ensures
        ten_to(2) == 100,
        ten_to(4) == 10000,
{
    reveal_with_fuel(ten_to, 5);
}

proof fn lemma_times_order(d: nat, e: nat, x: nat, y: nat)
    requires
        d <= e < 100,
        x < 86400,
        y < 86400,
        d == e ==> x <= y,
    ensures
        order::text_le(day_and_time(d, x), day_and_time(e, y)),
        day_and_time(d, x).len() == 8,
        day_and_time(d, x) == day_and_time(e, y) ==> d == e && x / 60 == y / 60,
{
    lemma_powers();
    reveal_strlit(" ");
    reveal_strlit(":");
    let (hx, hy) = (x / 3600, y / 3600);
    let (mx, my) = ((x % 3600) / 60, (y % 3600) / 60);
    let (nx, ny) = (digits(mx, 2), digits(my, 2));
    lemma_digits_padded(mx, 2);
    lemma_digits_padded(my, 2);
    lemma_digits_padded(hx, 2);
    lemma_digits_padded(hy, 2);
    lemma_digits_padded(d, 2);
    lemma_digits_padded(e, 2);
    let (tx, ty) = (digits(hx, 2) + (":"@ + nx), digits(hy, 2) + (":"@ + ny));
    if d == e {
        assert(hx <= hy);
        if hx == hy {
            assert(mx <= my);
            lemma_field(mx, my, 2, seq![], seq![]);
            assert(nx + Seq::<char>::empty() =~= nx && ny + Seq::<char>::empty() =~= ny);
            lemma_text_le_concat(":"@, ":"@, nx, ny);
        }
        lemma_field(hx, hy, 2, ":"@ + nx, ":"@ + ny);
        lemma_text_le_concat(" "@, " "@, tx, ty);
    }
    lemma_field(d, e, 2, " "@ + tx, " "@ + ty);
    let (p, q) = (day_and_time(d, x), day_and_time(e, y));
    if p == q {
        assert(digits(d, 2) =~= p.take(2) && digits(e, 2) =~= q.take(2));
        assert(digits(hx, 2) =~= p.subrange(3, 5) && digits(hy, 2) =~= q.subrange(3, 5));
        assert(nx =~= p.skip(6) && ny =~= q.skip(6));
        if hx <= hy {
            lemma_padded_order(hx, hy, 2);
        } else {
            lemma_padded_order(hy, hx, 2);
        }
        if mx <= my {
            lemma_padded_order(mx, my, 2);
        } else {
            lemma_padded_order(my, mx, 2);
        }
    }
}

/// Before the year 10000 a stamp has sixteen characters, stamps come in the order of time, and two
/// instants have the same stamp exactly where they are of the same minute.
pub proof fn stamps_follow_time(a: u64, b: u64, s: Seq<char>, t: Seq<char>)
    requires
        a <= b < 253402300800,
        is_stamp_of(a, s),
        is_stamp_of(b, t),
    ensures
        s.len() == 16,
        t.len() == 16,
        order::text_le(s, t),
        s == t <==> a / 60 == b / 60,
{
    let d = choose|d: Date| #[trigger]
        is_date(d) && day_number(d) == a / 86400 && s == stamp(d, (a % 86400) as nat);
    let e = choose|e: Date| #[trigger]
        is_date(e) && day_number(e) == b / 86400 && t == stamp(e, (b % 86400) as nat);
    let (x, y) = ((a % 86400) as nat, (b % 86400) as nat);
    lemma_four_digits(d);
    lemma_four_digits(e);
    lemma_dates_order(d, e);
    lemma_stamp_parts(d, x);
    lemma_stamp_parts(e, y);
    lemma_powers();
    reveal_strlit("-");
    let (ds, es) = (day_and_time(d.day as nat, x), day_and_time(e.day as nat, y));
    lemma_times_order(d.day as nat, d.day as nat, x, x);
    lemma_times_order(e.day as nat, e.day as nat, y, y);
    lemma_digits_padded(d.month as nat, 2);
    lemma_digits_padded(e.month as nat, 2);
    lemma_digits_padded(d.year as nat, 4);
    lemma_digits_padded(e.year as nat, 4);
    let (dm, em) = (digits(d.month as nat, 2) + ("-"@ + ds), digits(e.month as nat, 2) + ("-"@ + es));
    if d.year == e.year {
        if d.month == e.month {
            if d.day == e.day {
                assert(a / 86400 == b / 86400);
            }
            lemma_times_order(d.day as nat, e.day as nat, x, y);
            lemma_text_le_concat("-"@, "-"@, ds, es);
        }
        lemma_field(d.month as nat, e.month as nat, 2, "-"@ + ds, "-"@ + es);
        lemma_text_le_concat("-"@, "-"@, dm, em);
    }
    lemma_field(d.year as nat, e.year as nat, 4, "-"@ + dm, "-"@ + em);
    if s == t {
        assert(digits(d.year as nat, 4) =~= s.take(4) && digits(e.year as nat, 4) =~= t.take(4));
        assert(digits(d.month as nat, 2) =~= s.subrange(5, 7) && digits(e.month as nat, 2)
            =~= t.subrange(5, 7));
        assert(ds =~= s.skip(8) && es =~= t.skip(8));
        assert(d.year == e.year);
        lemma_field(d.month as nat, e.month as nat, 2, "-"@ + ds, "-"@ + es);
        assert(d.month == e.month);
        lemma_times_order(d.day as nat, e.day as nat, x, y);
        assert(a / 86400 == b / 86400);
        lemma_minutes(a, b);
    }
    if a / 60 == b / 60 {
        lemma_minutes(a, b);
        dates_are_unique(d, e);
        assert(x / 3600 == y / 3600 && (x % 3600) / 60 == (y % 3600) / 60);
    }
}

proof fn lemma_minutes(a: u64, b: u64)
    ensures
        a / 60 == b / 60 <==> a / 86400 == b / 86400 && (a % 86400) / 60 == (b % 86400) / 60,
        a / 60 == b / 60 ==> (a % 86400) / 3600 == (b % 86400) / 3600 && ((a % 86400) % 3600) / 60
            == ((b % 86400) % 3600) / 60,
{
    assert(a / 60 == 1440 * (a / 86400) + (a % 86400) / 60);
    assert(b / 60 == 1440 * (b / 86400) + (b % 86400) / 60);
    assert((a % 86400) / 60 < 1440);
    assert((b % 86400) / 60 < 1440);
    assert((a % 86400) / 60 == 60 * ((a % 86400) / 3600) + ((a % 86400) % 3600) / 60);
    assert((b % 86400) / 60 == 60 * ((b % 86400) / 3600) + ((b % 86400) % 3600) / 60);
}

/// A year has 366 days where four divides it and a hundred does not, or four hundred does, and else
/// 365; its months have the days that they have.
pub proof fn years_and_months_have_their_days(y: int, m: int)
    requires
        y >= 1970,
        1 <= m <= 12,
    ensures
        ({
            let leap = y % 4 == 0 && y % 100 != 0 || y % 400 == 0;
            &&& days_before_year(y + 1) - days_before_year(y) == if leap {
                366int
            } else {
                365
            }
            &&& days_before_month(y, m + 1) - days_before_month(y, m) == if m == 2 && leap {
                29int
            } else {
                seq![31int, 28, 31, 30, 31, 30, 31, 31, 30, 31, 30, 31][m - 1]
            }
            &&& days_before_year(1970) == 0 && days_before_month(y, 1) == 0
        }),
{
}

/// A date's number counts the days of the years before its own, of the months before its own, and
/// of its month before it.
pub proof fn day_numbers_add_up(d: Date)
    ensures
        day_number(d) == days_before_year(d.year as int) + days_before_month(d.year as int, d.month as int)
            + d.day - 1,
        d.year == 1970 && d.month == 1 && d.day == 1 ==> day_number(d) == 0,
{
}

/// A number is filled up with zeros on its left to the width asked for, and no further.
pub proof fn digits_fill_up_with_zeros(n: nat, width: nat)
    ensures
        ({
            let (s, d) = (digits(n, width), text::decimal(n));
            &&& s.len() == if d.len() > width {
                d.len()
            } else {
                width
            }
            &&& s.skip(s.len() - d.len()) == d
            &&& forall|i: int| 0 <= i < s.len() - d.len() ==> #[trigger] s[i] == '0'
        }),
{
    let (s, d) = (digits(n, width), text::decimal(n));
    assert(s.skip(s.len() - d.len()) =~= d);
}

/// A stamp tells the date of its day and the hour and the minute of its second: there are 86400
/// seconds in a day, 3600 in an hour and sixty in a minute.
pub proof fn stamps_tell_the_time(d: Date, h: nat, m: nat, s: nat, ts: u64)
    requires
        h < 24,
        m < 60,
        s < 60,
        is_date(d),
        ts == 86400 * day_number(d) + 3600 * h + 60 * m + s,
    ensures
        is_stamp_of(
            ts,
            digits(d.year as nat, 4) + "-"@ + digits(d.month as nat, 2) + "-"@ + digits(d.day as nat, 2)
                + " "@ + digits(h, 2) + ":"@ + digits(m, 2),
        ),
{
    let secs = 3600 * h + 60 * m + s;
    assert(ts / 86400 == day_number(d) && ts % 86400 == secs);
    assert(secs / 3600 == h && (secs % 3600) / 60 == m);
    assert(stamp(d, secs) == digits(d.year as nat, 4) + "-"@ + digits(d.month as nat, 2) + "-"@ + digits(
        d.day as nat,
        2,
    ) + " "@ + digits(h, 2) + ":"@ + digits(m, 2));
    assert(is_date(d));
}

} // verus!
