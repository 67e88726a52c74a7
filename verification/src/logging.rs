//! Log lines and log files.

use vstd::prelude::*;
use vstd::string::*;

use crate::paths::{join, joined, text_order};
use crate::text::{decimal, digit_char, padded, padded_text};

verus! {

/// A log file that has grown beyond this is put aside before the next line.
pub const MAX_BYTES: u64 = 5_242_880;

/// The directory of the logs below the support directory.
pub fn dir_for(support: &str) -> (r: String)
    ensures
        r@ == joined(support@, "logs"@),
{
    join(support, "logs")
}

/// The text, with blanks behind it up to the width.
pub open spec fn padded_right(s: Seq<char>, width: nat) -> Seq<char> {
    if s.len() >= width {
        s
    } else {
        s + Seq::new((width - s.len()) as nat, |k: int| ' ')
    }
}

/// A line of the log: the time, the level in five columns, the target in brackets, the message.
pub open spec fn line_of(
    epoch: u64,
    level: Seq<char>,
    target: Seq<char>,
    message: Seq<char>,
) -> Seq<char> {
    timestamp(epoch) + " "@ + padded_right(level, 5) + " ["@ + target + "] "@ + message + "\n"@
}

/// A line of the log, written at `epoch` seconds.
pub fn log_line(epoch: u64, level: &str, target: &str, message: &str) -> (r: String)
    ensures
        r@ == line_of(epoch, level@, target@, message@),
{
    let mut s = iso8601_utc(epoch);
    s.append(" ");
    let ghost front = s@;
    s.append(level);
    let len: usize = level.unicode_len();
    let mut k: usize = len;
    while k < 5
        invariant
            len == level@.len(),
            len <= k,
            k <= 5 || k == len,
            s@ == front + (level@ + Seq::new((k - len) as nat, |j: int| ' ')),
        decreases 5 - k,
    {
        let ghost had = s@;
        s.append(" ");
        proof {
            reveal_strlit(" ");
            assert(s@ =~= had.push(' '));
            assert(Seq::new((k + 1 - len) as nat, |j: int| ' ') =~= Seq::new(
                (k - len) as nat,
                |j: int| ' ',
            ).push(' '));
        }
        k = k + 1;
        assert(s@ =~= front + (level@ + Seq::new((k - len) as nat, |j: int| ' ')));
    }
    assert(s@ =~= front + padded_right(level@, 5));
    s.append(" [");
    s.append(target);
    s.append("] ");
    s.append(message);
    s.append("\n");
    s
}

/// Whether the file is put aside before the next line.
pub fn rotates(written: u64) -> (r: bool)
    ensures
        r == (written > MAX_BYTES),
{
    written > MAX_BYTES
}

// ---------------------------------------------------------------------------
// The calendar

pub open spec fn is_leap(y: int) -> bool {
    y % 4 == 0 && (y % 100 != 0 || y % 400 == 0)
}

pub open spec fn days_in_month(y: int, m: int) -> int {
    if m == 2 {
        if is_leap(y) {
            29
        } else {
            28
        }
    } else if m == 4 || m == 6 || m == 9 || m == 11 {
        30
    } else {
        31
    }
}

/// The days of all months of year `y` before month `m`.
pub open spec fn days_before_month(y: int, m: int) -> int
    decreases m,
{
    if m <= 1 {
        0
    } else {
        days_before_month(y, m - 1) + days_in_month(y, m - 1)
    }
}

/// The days of all years from year 0 on before year `y`.
pub open spec fn days_before_year(y: int) -> int
    decreases y,
{
    if y <= 0 {
        0
    } else {
        days_before_year(y - 1) + if is_leap(y - 1) {
            366
        } else {
            365int
        }
    }
}

pub struct Date {
    pub year: int,
    pub month: int,
    pub day: int,
}

/// A date of the Gregorian calendar.
pub open spec fn is_date(t: Date) -> bool {
    t.year >= 0 && 1 <= t.month <= 12 && 1 <= t.day <= days_in_month(t.year, t.month)
}

/// The days from the first of January of year 0 to a date.
pub open spec fn day_number(t: Date) -> int {
    days_before_year(t.year) + days_before_month(t.year, t.month) + t.day - 1
}

/// The days from the first of January of year 0 to that of 1970.
pub open spec fn epoch_day() -> int {
    day_number(Date { year: 1970, month: 1, day: 1 })
}

/// The date that comes so many days after the first of January 1970.
pub open spec fn date_after(days: int) -> Date {
    choose|t: Date| is_date(t) && #[trigger] day_number(t) == epoch_day() + days
}

/// The time, as `YYYY-MM-DDTHH:MM:SSZ`.
pub open spec fn timestamp(epoch: u64) -> Seq<char> {
    let t = date_after(epoch as int / 86_400);
    let (h, m, s) = (epoch as nat % 86_400 / 3600, epoch as nat % 3600 / 60, epoch as nat % 60);
    padded(t.year as nat, 4) + "-"@ + padded(t.month as nat, 2) + "-"@ + padded(t.day as nat, 2)
        + "T"@ + padded(h, 2) + ":"@ + padded(m, 2) + ":"@ + padded(s, 2) + "Z"@
}

proof fn lemma_years(y: int)
    requires
        y >= 0,
    ensures
        days_before_year(y) == 365 * y + (y + 3) / 4 - (y + 99) / 100 + (y + 399) / 400,
    decreases y,
{
    if y > 0 {
        lemma_years(y - 1);
    }
}

proof fn lemma_months(y: int)
    ensures
        days_before_month(y, 1) == 0,
        days_before_month(y, 2) == 31,
        days_before_month(y, 3) == 31 + days_in_month(y, 2),
        days_before_month(y, 4) == 62 + days_in_month(y, 2),
        days_before_month(y, 5) == 92 + days_in_month(y, 2),
        days_before_month(y, 6) == 123 + days_in_month(y, 2),
        days_before_month(y, 7) == 153 + days_in_month(y, 2),
        days_before_month(y, 8) == 184 + days_in_month(y, 2),
        days_before_month(y, 9) == 215 + days_in_month(y, 2),
        days_before_month(y, 10) == 245 + days_in_month(y, 2),
        days_before_month(y, 11) == 276 + days_in_month(y, 2),
        days_before_month(y, 12) == 306 + days_in_month(y, 2),
{
    reveal_with_fuel(days_before_month, 13);
}

proof fn lemma_year_is_over(t: Date)
    requires
        is_date(t),
    ensures
        days_before_year(t.year) <= day_number(t) < days_before_year(t.year + 1),
{
    lemma_months(t.year);
}

proof fn lemma_years_ascend(a: int, b: int)
    requires
        a <= b,
    ensures
        days_before_year(a) <= days_before_year(b),
    decreases b - a,
{
    if a < b {
        lemma_years_ascend(a, b - 1);
    }
}

proof fn lemma_months_ascend(y: int, a: int, b: int)
    requires
        1 <= a <= b,
    ensures
        days_before_month(y, a) <= days_before_month(y, b),
    decreases b - a,
{
    if a < b {
        lemma_months_ascend(y, a, b - 1);
    }
}

/// Two dates are one where their days are: every date has a day of its own.
pub proof fn law_dates_have_days_of_their_own(a: Date, b: Date)
    requires
        is_date(a),
        is_date(b),
        day_number(a) == day_number(b),
    ensures
        a == b,
{
    lemma_year_is_over(a);
    lemma_year_is_over(b);
    if a.year < b.year {
        lemma_years_ascend(a.year + 1, b.year);
    } else if b.year < a.year {
        lemma_years_ascend(b.year + 1, a.year);
    } else if a.month < b.month {
        lemma_months_ascend(a.year, a.month + 1, b.month);
    } else if b.month < a.month {
        lemma_months_ascend(a.year, b.month + 1, a.month);
    }
}

/// The year of the era, and the day of that year, where years begin in March.
proof fn lemma_year_of_era(doe: int, yoe: int, doy: int)
    requires
        0 <= doe < 146_097,
        yoe == (doe - doe / 1460 + doe / 36_524 - doe / 146_096) / 365,
        doy == doe - (365 * yoe + yoe / 4 - yoe / 100),
    ensures
        0 <= yoe < 400,
        0 <= doy <= 365,
        doy == 365 ==> (yoe + 1) % 4 == 0 && ((yoe + 1) % 100 != 0 || yoe == 399),
{
}

/// The month of a year that begins in March, and the day of that month.
proof fn lemma_month_of_year(doy: int, mp: int, d: int)
    requires
        0 <= doy <= 365,
        mp == (5 * doy + 2) / 153,
        d == doy - (153 * mp + 2) / 5 + 1,
    ensures
        0 <= mp <= 11,
        1 <= d <= 31,
        mp == 1 || mp == 3 || mp == 6 || mp == 8 ==> d <= 30,
        mp == 11 ==> d <= 29 && (d == 29 ==> doy == 365),
{
}

/// The days up to a year that begins in March.
#[verifier::opaque]
spec fn days_before_march(y: int) -> int {
    365 * y + y / 4 - y / 100 + y / 400
}

proof fn lemma_era(days: int, era: int, doe: int, yoe: int, doy: int)
    requires
        0 <= days,
        era == (days + 719_468) / 146_097,
        doe == (days + 719_468) % 146_097,
        0 <= yoe < 400,
        doy == doe - (365 * yoe + yoe / 4 - yoe / 100),
    ensures
        era >= 0,
        days + 719_468 == days_before_march(yoe + era * 400) + doy,
{
    reveal(days_before_march);
    let y = yoe + era * 400;
    assert(y / 4 == yoe / 4 + era * 100);
    assert(y / 100 == yoe / 100 + era * 4);
    assert(y / 400 == era);
}

proof fn lemma_march(y: int)
    requires
        y >= 0,
    ensures
        days_before_year(y + 1) == days_before_march(y) + 366,
{
    reveal(days_before_march);
    lemma_years(y + 1);
    lemma_quotients(y);
}

proof fn lemma_quotients(y: int)
    ensures
        (y + 1 + 3) / 4 == y / 4 + 1,
        (y + 1 + 99) / 100 == y / 100 + 1,
        (y + 1 + 399) / 400 == y / 400 + 1,
{
}

proof fn lemma_leap_in_era(yoe: int, era: int)
    requires
        0 <= yoe < 400,
        (yoe + 1) % 4 == 0 && ((yoe + 1) % 100 != 0 || yoe == 399),
    ensures
        is_leap(yoe + era * 400 + 1),
{
    let (x, y) = (yoe + 1, yoe + era * 400 + 1);
    assert(y % 4 == x % 4);
    assert(y % 100 == x % 100);
    assert(y % 400 == x % 400);
}

proof fn lemma_date_after(t: Date, days: int)
    requires
        is_date(t),
        day_number(t) == epoch_day() + days,
    ensures
        t == date_after(days),
{
    law_dates_have_days_of_their_own(t, date_after(days));
}

proof fn lemma_epoch()
    ensures
        epoch_day() == 719_528,
{
    lemma_years(1970);
    lemma_months(1970);
}

/// The day of a date, by the year that began in March.
proof fn lemma_date(y: int, f: int, doy: int, mp: int, t: Date)
    requires
        y >= 0,
        days_before_year(y + 1) == f + 366,
        doy == 365 ==> is_leap(y + 1),
        0 <= doy <= 365,
        mp == (5 * doy + 2) / 153,
        0 <= mp <= 11,
        t.day == doy - (153 * mp + 2) / 5 + 1,
        1 <= t.day <= 31,
        mp == 1 || mp == 3 || mp == 6 || mp == 8 ==> t.day <= 30,
        mp == 11 ==> t.day <= 29 && (t.day == 29 ==> doy == 365),
        t.month == (if mp < 10 {
            mp + 3
        } else {
            mp - 9
        }),
        t.year == y + if mp < 10 {
            0int
        } else {
            1
        },
    ensures
        is_date(t),
        day_number(t) == f + doy + 60,
{
    lemma_months(t.year);
    assert(days_before_year(y + 1) == days_before_year(y) + if is_leap(y) {
        366
    } else {
        365int
    });
    if mp < 10 {
        assert(days_before_year(y) + days_in_month(y, 2) == f + 29);
        assert(days_before_month(y, t.month) - days_in_month(y, 2) - 31 == (153 * mp + 2) / 5);
    } else if mp == 10 {
        assert((153 * mp + 2) / 5 == 306);
    } else {
        assert((153 * mp + 2) / 5 == 337);
    }
}

/// The date that is computed is the one that comes so many days after the first of January 1970.
proof fn lemma_civil(days: int, era: int, doe: int, yoe: int, doy: int, mp: int, t: Date)
    requires
        0 <= days,
        era == (days + 719_468) / 146_097,
        doe == (days + 719_468) % 146_097,
        yoe == (doe - doe / 1460 + doe / 36_524 - doe / 146_096) / 365,
        doy == doe - (365 * yoe + yoe / 4 - yoe / 100),
        mp == (5 * doy + 2) / 153,
        t.day == doy - (153 * mp + 2) / 5 + 1,
        t.month == (if mp < 10 {
            mp + 3
        } else {
            mp - 9
        }),
        t.year == yoe + era * 400 + if mp < 10 {
            0int
        } else {
            1
        },
    ensures
        t == date_after(days),
        is_date(t),
        day_number(t) == epoch_day() + days,
{
    lemma_year_of_era(doe, yoe, doy);
    lemma_month_of_year(doy, mp, t.day);
    lemma_era(days, era, doe, yoe, doy);
    let y = yoe + era * 400;
    lemma_march(y);
    if doy == 365 {
        lemma_leap_in_era(yoe, era);
    }
    lemma_date(y, days_before_march(y), doy, mp, t);
    lemma_epoch();
    lemma_date_after(t, days);
}

/// Every day from the first of January 1970 on has a date.
pub proof fn law_every_day_has_a_date(days: int)
    requires
        days >= 0,
    ensures
        is_date(date_after(days)),
        day_number(date_after(days)) == epoch_day() + days,
{
    let era = (days + 719_468) / 146_097;
    let doe = (days + 719_468) % 146_097;
    let yoe = (doe - doe / 1460 + doe / 36_524 - doe / 146_096) / 365;
    let doy = doe - (365 * yoe + yoe / 4 - yoe / 100);
    let mp = (5 * doy + 2) / 153;
    let day = doy - (153 * mp + 2) / 5 + 1;
    let t = if mp < 10 {
        Date { year: yoe + era * 400, month: mp + 3, day }
    } else {
        Date { year: yoe + era * 400 + 1, month: mp - 9, day }
    };
    lemma_civil(days, era, doe, yoe, doy, mp, t);
}

/// The characters of a time of a year before the ten-thousandth.
spec fn stamp(t: Date, h: int, m: int, s: int) -> Seq<char> {
    seq![
        digit_char(t.year / 1000),
        digit_char(t.year / 100 % 10),
        digit_char(t.year / 10 % 10),
        digit_char(t.year % 10),
        '-',
        digit_char(t.month / 10),
        digit_char(t.month % 10),
        '-',
        digit_char(t.day / 10),
        digit_char(t.day % 10),
        'T',
        digit_char(h / 10),
        digit_char(h % 10),
        ':',
        digit_char(m / 10),
        digit_char(m % 10),
        ':',
        digit_char(s / 10),
        digit_char(s % 10),
        'Z',
    ]
}

/// The two digits of a number below a hundred.
spec fn two_digits(n: int) -> Seq<char> {
    seq![digit_char(n / 10), digit_char(n % 10)]
}

/// The four digits of a number below ten thousand.
spec fn four_digits(n: int) -> Seq<char> {
    seq![
        digit_char(n / 1000),
        digit_char(n / 100 % 10),
        digit_char(n / 10 % 10),
        digit_char(n % 10),
    ]
}

#[verifier::spinoff_prover]
proof fn lemma_two_padded(n: nat)
    requires
        n < 100,
    ensures
        padded(n, 2) == two_digits(n as int),
{
    reveal_with_fuel(decimal, 2);
    assert(padded(n, 2) =~= two_digits(n as int));
}

#[verifier::spinoff_prover]
proof fn lemma_four_padded(n: nat)
    requires
        n < 10_000,
    ensures
        padded(n, 4) == four_digits(n as int),
{
    let (a, b, c) = (n / 10, n / 100, n / 1000);
    assert(a / 10 == b && b / 10 == c);
    reveal_with_fuel(decimal, 4);
    assert(padded(n, 4) =~= four_digits(n as int));
}

/// How the parts of a time are laid out.
#[verifier::spinoff_prover]
proof fn lemma_layout(
    y: Seq<char>,
    mo: Seq<char>,
    d: Seq<char>,
    h: Seq<char>,
    m: Seq<char>,
    s: Seq<char>,
)
    requires
        y.len() == 4,
        mo.len() == 2 && d.len() == 2 && h.len() == 2 && m.len() == 2 && s.len() == 2,
    ensures
        y + "-"@ + mo + "-"@ + d + "T"@ + h + ":"@ + m + ":"@ + s + "Z"@ == seq![
            y[0],
            y[1],
            y[2],
            y[3],
            '-',
            mo[0],
            mo[1],
            '-',
            d[0],
            d[1],
            'T',
            h[0],
            h[1],
            ':',
            m[0],
            m[1],
            ':',
            s[0],
            s[1],
            'Z',
        ],
{
    reveal_strlit("-");
    reveal_strlit("T");
    reveal_strlit(":");
    reveal_strlit("Z");
    let date = y + "-"@ + mo + "-"@ + d;
    assert(date =~= seq![y[0], y[1], y[2], y[3], '-', mo[0], mo[1], '-', d[0], d[1]]);
    let clock = date + "T"@ + h + ":"@ + m + ":"@ + s + "Z"@;
    assert(clock =~= date + seq!['T', h[0], h[1], ':', m[0], m[1], ':', s[0], s[1], 'Z']);
}

/// The date of a day before the ten-thousandth year.
proof fn lemma_early(days: int)
    requires
        0 <= days < 2_932_897,
    ensures
        is_date(date_after(days)),
        day_number(date_after(days)) == epoch_day() + days,
        date_after(days).year < 10_000,
{
    let t = date_after(days);
    law_every_day_has_a_date(days);
    lemma_epoch();
    lemma_years(10_000);
    lemma_year_is_over(t);
    if t.year >= 10_000 {
        lemma_years_ascend(10_000, t.year);
    }
}

#[verifier::spinoff_prover]
proof fn lemma_stamp(epoch: u64)
    requires
        epoch < 253_402_300_800,
    ensures
        timestamp(epoch) == stamp(
            date_after(epoch as int / 86_400),
            epoch as int % 86_400 / 3600,
            epoch as int % 3600 / 60,
            epoch as int % 60,
        ),
{
    let t = date_after(epoch as int / 86_400);
    let (h, m, s) = (epoch as nat % 86_400 / 3600, epoch as nat % 3600 / 60, epoch as nat % 60);
    lemma_early(epoch as int / 86_400);
    lemma_clock_bounds(epoch as nat);
    lemma_four_padded(t.year as nat);
    lemma_two_padded(t.month as nat);
    lemma_two_padded(t.day as nat);
    lemma_two_padded(h);
    lemma_two_padded(m);
    lemma_two_padded(s);
    lemma_layout(
        four_digits(t.year),
        two_digits(t.month),
        two_digits(t.day),
        two_digits(h as int),
        two_digits(m as int),
        two_digits(s as int),
    );
}

proof fn lemma_clock_bounds(epoch: nat)
    ensures
        epoch % 86_400 / 3600 < 24,
        epoch % 3600 / 60 < 60,
        epoch % 60 < 60,
{
}

/// A text that has the smaller character at the first difference comes first.
proof fn lemma_first_difference(a: Seq<char>, b: Seq<char>, k: int)
    requires
        0 <= k < a.len(),
        k < b.len(),
        forall|i: int| 0 <= i < k ==> a[i] == b[i],
        a[k] < b[k],
    ensures
        text_order(a, b) == -1,
    decreases k,
{
    if k > 0 {
        let (p, q) = (a.drop_first(), b.drop_first());
        assert forall|i: int| 0 <= i < k - 1 implies p[i] == q[i] by {
            assert(a[i + 1] == b[i + 1]);
        }
        lemma_first_difference(p, q, k - 1);
    }
}

/// The earlier date has the smaller number first.
proof fn lemma_dates_ascend(a: Date, b: Date)
    requires
        is_date(a),
        is_date(b),
        day_number(a) < day_number(b),
    ensures
        a.year < b.year || (a.year == b.year && (a.month < b.month || (a.month == b.month && a.day
            < b.day))),
{
    lemma_year_is_over(a);
    lemma_year_is_over(b);
    if b.year < a.year {
        lemma_years_ascend(b.year + 1, a.year);
    } else if a.year == b.year && b.month < a.month {
        lemma_months_ascend(a.year, b.month + 1, a.month);
    }
}

/// The order of two numbers of two digits is that of their digits.
proof fn lemma_two_digits(a: Seq<char>, b: Seq<char>, k: int, x: int, y: int)
    requires
        0 <= x < y < 100,
        0 <= k,
        k + 2 <= a.len(),
        k + 2 <= b.len(),
        forall|i: int| 0 <= i < k ==> a[i] == b[i],
        a[k] == digit_char(x / 10),
        a[k + 1] == digit_char(x % 10),
        b[k] == digit_char(y / 10),
        b[k + 1] == digit_char(y % 10),
    ensures
        text_order(a, b) == -1,
{
    if x / 10 < y / 10 {
        lemma_first_difference(a, b, k);
    } else {
        lemma_first_difference(a, b, k + 1);
    }
}

#[verifier::spinoff_prover]
proof fn lemma_years_in_order(x: Seq<char>, y: Seq<char>, a: int, b: int)
    requires
        0 <= a < b < 10_000,
        x.len() >= 4,
        y.len() >= 4,
        x[0] == digit_char(a / 1000),
        x[1] == digit_char(a / 100 % 10),
        x[2] == digit_char(a / 10 % 10),
        x[3] == digit_char(a % 10),
        y[0] == digit_char(b / 1000),
        y[1] == digit_char(b / 100 % 10),
        y[2] == digit_char(b / 10 % 10),
        y[3] == digit_char(b % 10),
    ensures
        text_order(x, y) == -1,
{
    lemma_digits_in_order(a, b);
    if a / 1000 < b / 1000 {
        lemma_first_difference(x, y, 0);
    } else if a / 100 % 10 < b / 100 % 10 {
        lemma_first_difference(x, y, 1);
    } else if a / 10 % 10 < b / 10 % 10 {
        lemma_first_difference(x, y, 2);
    } else {
        lemma_first_difference(x, y, 3);
    }
}

#[verifier::spinoff_prover]
proof fn lemma_digits_in_order(a: int, b: int)
    requires
        0 <= a < b < 10_000,
    ensures
        0 <= a / 1000 <= b / 1000 < 10,
        0 <= a / 100 % 10 < 10 && 0 <= a / 10 % 10 < 10 && 0 <= a % 10 < 10,
        0 <= b / 100 % 10 < 10 && 0 <= b / 10 % 10 < 10 && 0 <= b % 10 < 10,
        a / 1000 == b / 1000 ==> a / 100 % 10 <= b / 100 % 10,
        a / 1000 == b / 1000 && a / 100 % 10 == b / 100 % 10 ==> a / 10 % 10 <= b / 10 % 10,
        a / 1000 == b / 1000 && a / 100 % 10 == b / 100 % 10 && a / 10 % 10 == b / 10 % 10
            ==> a % 10 < b % 10,
{
    let (c, d) = (a / 10, b / 10);
    let (e, f) = (a / 100, b / 100);
    assert(c / 10 == e && d / 10 == f);
    assert(a / 1000 == e / 10 && b / 1000 == f / 10);
}

proof fn lemma_stamps_by_date(a: Date, b: Date, p: (int, int, int), q: (int, int, int))
    requires
        is_date(a),
        is_date(b),
        a.year < 10_000,
        b.year < 10_000,
        day_number(a) < day_number(b),
    ensures
        text_order(stamp(a, p.0, p.1, p.2), stamp(b, q.0, q.1, q.2)) == -1,
{
    let (x, y) = (stamp(a, p.0, p.1, p.2), stamp(b, q.0, q.1, q.2));
    lemma_dates_ascend(a, b);
    if a.year < b.year {
        lemma_years_in_order(x, y, a.year, b.year);
    } else if a.month < b.month {
        lemma_two_digits(x, y, 5, a.month, b.month);
    } else {
        lemma_two_digits(x, y, 8, a.day, b.day);
    }
}

proof fn lemma_stamps_by_clock(t: Date, p: (int, int, int), q: (int, int, int))
    requires
        0 <= p.0 < 100 && 0 <= p.1 < 100 && 0 <= p.2 < 100,
        0 <= q.0 < 100 && 0 <= q.1 < 100 && 0 <= q.2 < 100,
        p.0 < q.0 || (p.0 == q.0 && (p.1 < q.1 || (p.1 == q.1 && p.2 < q.2))),
    ensures
        text_order(stamp(t, p.0, p.1, p.2), stamp(t, q.0, q.1, q.2)) == -1,
{
    let (x, y) = (stamp(t, p.0, p.1, p.2), stamp(t, q.0, q.1, q.2));
    if p.0 < q.0 {
        lemma_two_digits(x, y, 11, p.0, q.0);
    } else if p.1 < q.1 {
        lemma_two_digits(x, y, 14, p.1, q.1);
    } else {
        lemma_two_digits(x, y, 17, p.2, q.2);
    }
}

/// The hour, the minute and the second of a time.
spec fn clock(epoch: int) -> (int, int, int) {
    (epoch % 86_400 / 3600, epoch % 3600 / 60, epoch % 60)
}

#[verifier::spinoff_prover]
proof fn lemma_clock_of_day(days: int, x: int)
    requires
        0 <= x < 86_400,
    ensures
        clock(86_400 * days + x) == (x / 3600, x % 3600 / 60, x % 60),
{
    let a = 86_400 * days + x;
    lemma_rest(a, 86_400, days, x);
    lemma_rest(a, 3600, 24 * days + x / 3600, x % 3600);
    lemma_rest(a, 60, 1440 * days + x / 60, x % 60);
}

/// What a division leaves.
proof fn lemma_rest(a: int, d: int, q: int, r: int)
    requires
        0 <= r < d,
        a == q * d + r,
    ensures
        a % d == r,
{
    vstd::arithmetic::div_mod::lemma_fundamental_div_mod_converse(a, d, q, r);
}

#[verifier::spinoff_prover]
proof fn lemma_later_in_the_day(x: int, y: int)
    requires
        0 <= x < y,
    ensures
        x / 3600 <= y / 3600,
        x / 3600 == y / 3600 ==> x % 3600 / 60 <= y % 3600 / 60,
        x / 3600 == y / 3600 && x % 3600 / 60 == y % 3600 / 60 ==> x % 60 < y % 60,
{
    let (u, v) = (x % 3600, y % 3600);
    lemma_rest(x, 60, 60 * (x / 3600) + u / 60, u % 60);
    lemma_rest(y, 60, 60 * (y / 3600) + v / 60, v % 60);
}

proof fn lemma_clock(a: int, b: int)
    requires
        0 <= a < b,
        a / 86_400 == b / 86_400,
    ensures
        ({
            let (p, q) = (clock(a), clock(b));
            p.0 < q.0 || (p.0 == q.0 && (p.1 < q.1 || (p.1 == q.1 && p.2 < q.2)))
        }),
{
    let d = a / 86_400;
    let (x, y) = (a - 86_400 * d, b - 86_400 * d);
    lemma_clock_of_day(d, x);
    lemma_clock_of_day(d, y);
    lemma_later_in_the_day(x, y);
}

#[verifier::spinoff_prover]
proof fn lemma_length_and_bytes(t: Date, p: (int, int, int))
    requires
        is_date(t),
        t.year < 10_000,
        0 <= p.0 < 100 && 0 <= p.1 < 100 && 0 <= p.2 < 100,
    ensures
        stamp(t, p.0, p.1, p.2).len() == 20,
        forall|k: int| 0 <= k < 20 ==> (#[trigger] stamp(t, p.0, p.1, p.2)[k]) < '\u{80}',
{
    let x = stamp(t, p.0, p.1, p.2);
    assert(0 <= t.year / 1000 < 10);
    assert forall|k: int| 0 <= k < 20 implies (#[trigger] x[k]) < '\u{80}' by {
    }
}

proof fn lemma_stamp_in_order(a: int, b: int)
    requires
        0 <= a < b < 253_402_300_800,
    ensures
        ({
            let (p, q) = (clock(a), clock(b));
            text_order(
                stamp(date_after(a / 86_400), p.0, p.1, p.2),
                stamp(date_after(b / 86_400), q.0, q.1, q.2),
            ) == -1
        }),
{
    let (da, db) = (a / 86_400, b / 86_400);
    lemma_early(da);
    lemma_early(db);
    let (p, q) = (clock(a), clock(b));
    if da < db {
        lemma_stamps_by_date(date_after(da), date_after(db), p, q);
    } else {
        lemma_clock(a, b);
        lemma_stamps_by_clock(date_after(da), p, q);
    }
}

/// Up to the year 9999 a time has twenty characters, all of one byte, and the texts of two times
/// are in the order of the times: so two seconds never read the same.
pub proof fn law_timestamps_are_in_the_order_of_time(a: u64, b: u64)
    requires
        a < b < 253_402_300_800,
    ensures
        text_order(timestamp(a), timestamp(b)) == -1,
        timestamp(a).len() == 20,
        timestamp(b).len() == 20,
        forall|k: int| 0 <= k < 20 ==> (#[trigger] timestamp(a)[k]) < '\u{80}',
        forall|k: int| 0 <= k < 20 ==> (#[trigger] timestamp(b)[k]) < '\u{80}',
{
    lemma_stamp(a);
    lemma_stamp(b);
    lemma_stamp_in_order(a as int, b as int);
    lemma_early(a as int / 86_400);
    lemma_early(b as int / 86_400);
    lemma_length_and_bytes(date_after(a as int / 86_400), clock(a as int));
    lemma_length_and_bytes(date_after(b as int / 86_400), clock(b as int));
}

/// The time that is `epoch` seconds after the first of January 1970, as `YYYY-MM-DDTHH:MM:SSZ`.
pub fn iso8601_utc(epoch: u64) -> (r: String)
    ensures
        r@ == timestamp(epoch),
{
    let days: u64 = epoch / 86_400;
    let h: u64 = (epoch % 86_400) / 3600;
    let m: u64 = (epoch % 3600) / 60;
    let sec: u64 = epoch % 60;
    let z: u64 = days + 719_468;
    let era: u64 = z / 146_097;
    let doe: u64 = z % 146_097;
    let yoe: u64 = (doe - doe / 1460 + doe / 36_524 - doe / 146_096) / 365;
    proof {
        lemma_year_of_era(
            doe as int,
            yoe as int,
            doe - (365 * yoe + yoe / 4 - yoe / 100),
        );
    }
    let y: u64 = yoe + era * 400;
    let doy: u64 = doe - (365 * yoe + yoe / 4 - yoe / 100);
    let mp: u64 = (5 * doy + 2) / 153;
    let d: u64 = doy - (153 * mp + 2) / 5 + 1;
    let mo: u64 = if mp < 10 {
        mp + 3
    } else {
        mp - 9
    };
    let year: u64 = if mo <= 2 {
        y + 1
    } else {
        y
    };
    proof {
        lemma_month_of_year(doy as int, mp as int, d as int);
        lemma_civil(
            days as int,
            era as int,
            doe as int,
            yoe as int,
            doy as int,
            mp as int,
            Date { year: year as int, month: mo as int, day: d as int },
        );
    }
    let mut s = padded_text(year, 4);
    s.append("-");
    s.append(padded_text(mo, 2).as_str());
    s.append("-");
    s.append(padded_text(d, 2).as_str());
    s.append("T");
    s.append(padded_text(h, 2).as_str());
    s.append(":");
    s.append(padded_text(m, 2).as_str());
    s.append(":");
    s.append(padded_text(sec, 2).as_str());
    s.append("Z");
    s
}

} // verus!
