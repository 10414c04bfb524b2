use vstd::prelude::*;

verus! {

/// A calendar date in the Gregorian calendar, without a timezone.
///
/// Validity starts at the Unix epoch (1970-01-01), because the store's
/// key encoding is the date's big-endian timestamp and an earlier date
/// would need a negative timestamp, whose two's-complement bytes do not
/// sort lexicographically.  Four-digit years keep the ISO-8601 text form
/// fixed-width, so validity ends at 9999-12-31.
#[derive(Clone, Copy, Debug, PartialEq, Eq, Structural)]
pub struct CalendarDate {
    pub year: u16,
    pub month: u8,
    pub day: u8,
}

pub open spec fn is_leap_year(y: int) -> bool {
    y % 4 == 0 && (y % 100 != 0 || y % 400 == 0)
}

pub open spec fn days_in_month(y: int, m: int) -> int {
    if m == 2 {
        if is_leap_year(y) {
            29
        } else {
            28
        }
    } else if m == 4 || m == 6 || m == 9 || m == 11 {
        30
    } else {
        31
    }
}

pub open spec fn days_in_year(y: int) -> int {
    if is_leap_year(y) {
        366
    } else {
        365
    }
}

/// Days from 1970-01-01 up to the first day of year `y`.
pub open spec fn days_before_year(y: int) -> int
    decreases y,
{
    if y <= 1970 {
        0
    } else {
        days_before_year(y - 1) + days_in_year(y - 1)
    }
}

/// Days from the first day of year `y` up to the first day of its month `m`.
pub open spec fn days_before_month(y: int, m: int) -> int
    decreases m,
{
    if m <= 1 {
        0
    } else {
        days_before_month(y, m - 1) + days_in_month(y, m - 1)
    }
}

/// The number of days from 1970-01-01 to `d`; the key codec multiplies
/// this by the seconds of a day to obtain the timestamp key.
pub open spec fn day_number(d: CalendarDate) -> int {
    days_before_year(d.year as int) + days_before_month(d.year as int, d.month as int) + d.day - 1
}

/// Calendar order: by year, then month, then day.
pub open spec fn date_lt(a: CalendarDate, b: CalendarDate) -> bool {
    a.year < b.year || (a.year == b.year && (a.month < b.month || (a.month == b.month
        && a.day < b.day)))
}

pub open spec fn date_le(a: CalendarDate, b: CalendarDate) -> bool {
    date_lt(a, b) || a == b
}

impl CalendarDate {
    pub open spec fn valid(self) -> bool {
        1970 <= self.year <= 9999 && 1 <= self.month <= 12 && 1 <= self.day <= days_in_month(
            self.year as int,
            self.month as int,
        )
    }
}

pub fn leap_year(y: u16) -> (r: bool)
    ensures
        r == is_leap_year(y as int),
{
    y % 4 == 0 && (y % 100 != 0 || y % 400 == 0)
}

pub fn month_length(y: u16, m: u8) -> (r: u8)
    ensures
        r as int == days_in_month(y as int, m as int),
{
    if m == 2 {
        if leap_year(y) {
            29
        } else {
            28
        }
    } else if m == 4 || m == 6 || m == 9 || m == 11 {
        30
    } else {
        31
    }
}

pub fn year_length(y: u16) -> (r: u16)
    ensures
        r as int == days_in_year(y as int),
{
    if leap_year(y) {
        366
    } else {
        365
    }
}

impl CalendarDate {
    pub fn is_valid(&self) -> (r: bool)
        ensures
            r == self.valid(),
    {
        1970 <= self.year && self.year <= 9999 && 1 <= self.month && self.month <= 12
            && 1 <= self.day && self.day <= month_length(self.year, self.month)
    }

    /// Comparison in calendar order.
    pub fn before(&self, other: &CalendarDate) -> (r: bool)
        ensures
            r == date_lt(*self, *other),
    {
        self.year < other.year || (self.year == other.year && (self.month < other.month
            || (self.month == other.month && self.day < other.day)))
    }
}

/// `days_before_year` grows by at most 366 per year.
pub proof fn lemma_days_before_year_bound(y: int)
    requires
        1970 <= y,
    ensures
        365 * (y - 1970) <= days_before_year(y) <= 366 * (y - 1970),
    decreases y,
{
    if y > 1970 {
        lemma_days_before_year_bound(y - 1);
    }
}

proof fn lemma_days_before_year_mono(y1: int, y2: int)
    requires
        1970 <= y1 <= y2,
    ensures
        days_before_year(y1) <= days_before_year(y2),
    decreases y2,
{
    if y1 < y2 {
        lemma_days_before_year_mono(y1, y2 - 1);
    }
}

proof fn lemma_days_before_month_mono(y: int, m1: int, m2: int)
    requires
        1 <= m1 <= m2,
    ensures
        days_before_month(y, m1) <= days_before_month(y, m2),
    decreases m2,
{
    if m1 < m2 {
        lemma_days_before_month_mono(y, m1, m2 - 1);
    }
}

/// The twelve months of year `y` sum to its length.
proof fn lemma_months_fill_year(y: int)
    ensures
        days_before_month(y, 13) == days_in_year(y),
{
    reveal_with_fuel(days_before_month, 13);
}

/// Every date of year `y` has a day number inside that year's day range.
proof fn lemma_day_number_in_year(d: CalendarDate)
    requires
        d.valid(),
    ensures
        days_before_year(d.year as int) <= day_number(d),
        day_number(d) < days_before_year(d.year as int) + days_in_year(d.year as int),
{
    let y = d.year as int;
    let m = d.month as int;
    lemma_days_before_month_mono(y, 1, m);
    lemma_days_before_month_mono(y, m + 1, 13);
    lemma_months_fill_year(y);
}

/// Day numbers grow strictly with calendar order, so the timestamp key
/// encoding preserves that order.
pub proof fn lemma_day_number_strict_mono(a: CalendarDate, b: CalendarDate)
    requires
        a.valid(),
        b.valid(),
        date_lt(a, b),
    ensures
        day_number(a) < day_number(b),
{
    if a.year < b.year {
        lemma_day_number_in_year(a);
        lemma_day_number_in_year(b);
        lemma_days_before_year_mono(a.year as int + 1, b.year as int);
        assert(days_before_year(a.year as int + 1) == days_before_year(a.year as int)
            + days_in_year(a.year as int));
    } else if a.month < b.month {
        let y = a.year as int;
        lemma_days_before_month_mono(y, a.month as int + 1, b.month as int);
        assert(days_before_month(y, a.month as int + 1) == days_before_month(y, a.month as int)
            + days_in_month(y, a.month as int));
    }
}

/// Two valid dates with the same day number are the same date.
pub proof fn lemma_day_number_injective(a: CalendarDate, b: CalendarDate)
    requires
        a.valid(),
        b.valid(),
        day_number(a) == day_number(b),
    ensures
        a == b,
{
    if date_lt(a, b) {
        lemma_day_number_strict_mono(a, b);
    } else if date_lt(b, a) {
        lemma_day_number_strict_mono(b, a);
    }
}

/// No valid date's day number reaches `days_before_year(10000)`.
pub proof fn lemma_day_number_limit(d: CalendarDate)
    requires
        d.valid(),
    ensures
        0 <= day_number(d) < days_before_year(10000),
{
    lemma_day_number_in_year(d);
    lemma_days_before_year_mono(d.year as int + 1, 10000);
    lemma_days_before_year_mono(1970, d.year as int);
}

impl CalendarDate {
    /// Days since 1970-01-01.
    pub fn day_index(&self) -> (n: u32)
        requires
            self.valid(),
        ensures
            n as int == day_number(*self),
    {
        let mut y: u16 = 1970;
        let mut acc: u32 = 0;
        while y < self.year
            invariant
                1970 <= y <= self.year,
                self.year <= 9999,
                acc as int == days_before_year(y as int),
                acc <= 366 * (y - 1970),
            decreases self.year - y,
        {
            acc = acc + year_length(y) as u32;
            y = y + 1;
        }
        let mut m: u8 = 1;
        while m < self.month
            invariant
                1 <= m <= self.month,
                self.valid(),
                y == self.year,
                acc as int == days_before_year(y as int) + days_before_month(
                    y as int,
                    m as int,
                ),
                acc <= 366 * 8029 + 31 * (m - 1),
            decreases self.month - m,
        {
            proof {
                lemma_days_before_year_bound(y as int);
            }
            acc = acc + month_length(y, m) as u32;
            m = m + 1;
        }
        proof {
            lemma_days_before_year_bound(y as int);
        }
        acc + (self.day - 1) as u32
    }
}

/// Recovers the date a given number of days after 1970-01-01, or `None`
/// when the count lies beyond 9999-12-31.
pub fn date_from_day_index(n: u32) -> (r: Option<CalendarDate>)
    ensures
        match r {
            Some(d) => d.valid() && day_number(d) == n as int,
            None => forall|d: CalendarDate| d.valid() ==> day_number(d) != n as int,
        },
{
    let mut y: u16 = 1970;
    let mut rem: u32 = n;
    while y < 9999 && rem >= year_length(y) as u32
        invariant
            1970 <= y <= 9999,
            n as int == days_before_year(y as int) + rem,
        decreases 9999 - y,
    {
        rem = rem - year_length(y) as u32;
        y = y + 1;
    }
    if rem >= year_length(y) as u32 {
        // Beyond the last representable year.
        proof {
            assert forall|d: CalendarDate| d.valid() implies day_number(d) != n as int by {
                lemma_day_number_limit(d);
                assert(days_before_year(10000) == days_before_year(9999) + days_in_year(9999));
            }
        }
        return None;
    }
    let mut m: u8 = 1;
    while rem >= month_length(y, m) as u32
        invariant
            1 <= m <= 12,
            1970 <= y <= 9999,
            n as int == days_before_year(y as int) + days_before_month(y as int, m as int) + rem,
            days_before_month(y as int, m as int) + rem < days_in_year(y as int),
        decreases 12 - m,
    {
        proof {
            lemma_months_fill_year(y as int);
            if m == 12 {
                // cannot happen: the remainder would overrun the year
                lemma_days_before_month_mono(y as int, 13, 13);
            }
            lemma_days_before_month_mono(y as int, m as int + 1, 13);
        }
        rem = rem - month_length(y, m) as u32;
        m = m + 1;
    }
    let d = CalendarDate { year: y, month: m, day: (rem + 1) as u8 };
    proof {
        lemma_months_fill_year(y as int);
        lemma_days_before_month_mono(y as int, m as int + 1, 13);
    }
    Some(d)
}

pub open spec fn digit_char(k: int) -> char {
    if k == 0 {
        '0'
    } else if k == 1 {
        '1'
    } else if k == 2 {
        '2'
    } else if k == 3 {
        '3'
    } else if k == 4 {
        '4'
    } else if k == 5 {
        '5'
    } else if k == 6 {
        '6'
    } else if k == 7 {
        '7'
    } else if k == 8 {
        '8'
    } else {
        '9'
    }
}

/// The canonical ISO-8601 text of a date: `YYYY-MM-DD`, zero padded.
pub open spec fn iso_chars(d: CalendarDate) -> Seq<char> {
    seq![
        digit_char(d.year as int / 1000),
        digit_char((d.year as int / 100) % 10),
        digit_char((d.year as int / 10) % 10),
        digit_char(d.year as int % 10),
        '-',
        digit_char(d.month as int / 10),
        digit_char(d.month as int % 10),
        '-',
        digit_char(d.day as int / 10),
        digit_char(d.day as int % 10),
    ]
}

fn digit_str(k: u8) -> (r: &'static str)
    requires
        k < 10,
    ensures
        r@ =~= seq![digit_char(k as int)],
{
    proof {
        reveal_strlit("0");
        reveal_strlit("1");
        reveal_strlit("2");
        reveal_strlit("3");
        reveal_strlit("4");
        reveal_strlit("5");
        reveal_strlit("6");
        reveal_strlit("7");
        reveal_strlit("8");
        reveal_strlit("9");
    }
    match k {
        0 => "0",
        1 => "1",
        2 => "2",
        3 => "3",
        4 => "4",
        5 => "5",
        6 => "6",
        7 => "7",
        8 => "8",
        _ => "9",
    }
}

/// Decomposing a number below 10000 into decimal digits matches the
/// division-based digits of `iso_chars`.
pub proof fn lemma_decimal_digits(a: int, b: int, c: int, e: int)
    requires
        0 <= a < 10,
        0 <= b < 10,
        0 <= c < 10,
        0 <= e < 10,
    ensures
        (a * 1000 + b * 100 + c * 10 + e) / 1000 == a,
        ((a * 1000 + b * 100 + c * 10 + e) / 100) % 10 == b,
        ((a * 1000 + b * 100 + c * 10 + e) / 10) % 10 == c,
        (a * 1000 + b * 100 + c * 10 + e) % 10 == e,
{
    let v = a * 1000 + b * 100 + c * 10 + e;
    assert(v / 1000 == a && (v / 100) % 10 == b && (v / 10) % 10 == c && v % 10 == e)
        by (nonlinear_arith)
        requires
            0 <= a < 10 && 0 <= b < 10 && 0 <= c < 10 && 0 <= e < 10 && v == a * 1000 + b * 100 + c
                * 10 + e,
    ;
}

impl CalendarDate {
    /// Renders the date as `YYYY-MM-DD`.
    pub fn to_string(&self) -> (r: String)
        requires
            self.valid(),
        ensures
            r@ == iso_chars(*self),
    {
        let mut r = String::new();
        r.append(digit_str((self.year / 1000) as u8));
        r.append(digit_str(((self.year / 100) % 10) as u8));
        r.append(digit_str(((self.year / 10) % 10) as u8));
        r.append(digit_str((self.year % 10) as u8));
        r.append("-");
        r.append(digit_str(self.month / 10));
        r.append(digit_str(self.month % 10));
        r.append("-");
        r.append(digit_str(self.day / 10));
        r.append(digit_str(self.day % 10));
        proof {
            reveal_strlit("-");
            assert(r@ =~= iso_chars(*self));
        }
        r
    }
}

/// The code point of each decimal digit character.
pub proof fn lemma_digit_char_code(k: int)
    requires
        0 <= k < 10,
    ensures
        digit_char(k) as int == 48 + k,
{
}

/// A number below 10000 is recombined from its decimal digits.
pub proof fn lemma_decimal_recompose(v: int)
    requires
        0 <= v < 10000,
    ensures
        v == (v / 1000) * 1000 + ((v / 100) % 10) * 100 + ((v / 10) % 10) * 10 + v % 10,
        0 <= v / 1000 < 10,
        0 <= (v / 100) % 10 < 10,
        0 <= (v / 10) % 10 < 10,
        0 <= v % 10 < 10,
{
    assert(v == (v / 1000) * 1000 + ((v / 100) % 10) * 100 + ((v / 10) % 10) * 10 + v % 10 && 0 <= v
        / 1000 < 10 && 0 <= (v / 100) % 10 < 10 && 0 <= (v / 10) % 10 < 10 && 0 <= v % 10 < 10)
        by (nonlinear_arith)
        requires
            0 <= v < 10000,
    ;
}

/// What the ISO text of a valid date looks like, and how it determines
/// the date's fields.
pub proof fn lemma_iso_inverse(s: Seq<char>, d: CalendarDate)
    requires
        d.valid(),
        s == iso_chars(d),
    ensures
        s.len() == 10,
        s[4] == '-' && s[7] == '-',
        48 <= s[0] as int <= 57 && 48 <= s[1] as int <= 57 && 48 <= s[2] as int <= 57 && 48 <= s[3]
            as int <= 57,
        48 <= s[5] as int <= 57 && 48 <= s[6] as int <= 57 && 48 <= s[8] as int <= 57 && 48 <= s[9]
            as int <= 57,
        d.year as int == (s[0] as int - 48) * 1000 + (s[1] as int - 48) * 100 + (s[2] as int - 48)
            * 10 + (s[3] as int - 48),
        d.month as int == (s[5] as int - 48) * 10 + (s[6] as int - 48),
        d.day as int == (s[8] as int - 48) * 10 + (s[9] as int - 48),
{
    let y = d.year as int;
    let m = d.month as int;
    let dd = d.day as int;
    lemma_decimal_recompose(y);
    lemma_decimal_recompose(m);
    lemma_decimal_recompose(dd);
    lemma_digit_char_code(y / 1000);
    lemma_digit_char_code((y / 100) % 10);
    lemma_digit_char_code((y / 10) % 10);
    lemma_digit_char_code(y % 10);
    lemma_digit_char_code(m / 10);
    lemma_digit_char_code(m % 10);
    lemma_digit_char_code(dd / 10);
    lemma_digit_char_code(dd % 10);
}

/// Two valid dates with the same ISO text are the same date.
pub proof fn lemma_iso_chars_injective(a: CalendarDate, b: CalendarDate)
    requires
        a.valid(),
        b.valid(),
        iso_chars(a) == iso_chars(b),
    ensures
        a == b,
{
    lemma_iso_inverse(iso_chars(a), a);
    lemma_iso_inverse(iso_chars(b), b);
}

/// Reads `YYYY-MM-DD` into a date; `None` exactly when the text is not
/// the canonical form of any date this crate accepts.
pub fn parse_iso_date(s: &str) -> (r: Option<CalendarDate>)
    ensures
        match r {
            Some(d) => d.valid() && s@ == iso_chars(d),
            None => forall|d: CalendarDate| d.valid() ==> s@ != iso_chars(d),
        },
{
    if !s.is_ascii() {
        proof {
            assert forall|d: CalendarDate| d.valid() implies s@ != iso_chars(d) by {
                lemma_iso_chars_ascii(d);
            }
        }
        return None;
    }
    if s.unicode_len() != 10 {
        return None;
    }
    let b0 = s.get_ascii(0);
    let b1 = s.get_ascii(1);
    let b2 = s.get_ascii(2);
    let b3 = s.get_ascii(3);
    let b4 = s.get_ascii(4);
    let b5 = s.get_ascii(5);
    let b6 = s.get_ascii(6);
    let b7 = s.get_ascii(7);
    let b8 = s.get_ascii(8);
    let b9 = s.get_ascii(9);
    if b4 != 45 || b7 != 45 {
        proof {
            assert forall|d: CalendarDate| d.valid() implies s@ != iso_chars(d) by {
                if s@ == iso_chars(d) {
                    lemma_iso_inverse(s@, d);
                }
            }
        }
        return None;
    }
    if !(digit(b0) && digit(b1) && digit(b2) && digit(b3) && digit(b5) && digit(b6) && digit(b8)
        && digit(b9)) {
        proof {
            assert forall|d: CalendarDate| d.valid() implies s@ != iso_chars(d) by {
                if s@ == iso_chars(d) {
                    lemma_iso_inverse(s@, d);
                }
            }
        }
        return None;
    }
    let year: u16 = (b0 - 48) as u16 * 1000 + (b1 - 48) as u16 * 100 + (b2 - 48) as u16 * 10 + (b3
        - 48) as u16;
    let month: u8 = (b5 - 48) * 10 + (b6 - 48);
    let day: u8 = (b8 - 48) * 10 + (b9 - 48);
    let d = CalendarDate { year, month, day };
    if d.is_valid() {
        proof {
            lemma_decimal_digits(
                (b0 - 48) as int,
                (b1 - 48) as int,
                (b2 - 48) as int,
                (b3 - 48) as int,
            );
            lemma_decimal_digits(0, 0, (b5 - 48) as int, (b6 - 48) as int);
            lemma_decimal_digits(0, 0, (b8 - 48) as int, (b9 - 48) as int);
            lemma_digit_char_code((b0 - 48) as int);
            lemma_digit_char_code((b1 - 48) as int);
            lemma_digit_char_code((b2 - 48) as int);
            lemma_digit_char_code((b3 - 48) as int);
            lemma_digit_char_code((b5 - 48) as int);
            lemma_digit_char_code((b6 - 48) as int);
            lemma_digit_char_code((b8 - 48) as int);
            lemma_digit_char_code((b9 - 48) as int);
            assert(s@ =~= iso_chars(d));
        }
        Some(d)
    } else {
        proof {
            assert forall|dv: CalendarDate| dv.valid() implies s@ != iso_chars(dv) by {
                if s@ == iso_chars(dv) {
                    lemma_iso_inverse(s@, dv);
                }
            }
        }
        None
    }
}

fn digit(b: u8) -> (r: bool)
    ensures
        r == (48 <= b <= 57),
{
    48 <= b && b <= 57
}

/// The ISO text of a date is pure ASCII.
pub proof fn lemma_iso_chars_ascii(d: CalendarDate)
    ensures
        vstd::utf8::is_ascii_chars(iso_chars(d)),
{
    assert forall|i: int| 0 <= i < iso_chars(d).len() implies (iso_chars(d)[i] as nat) < 128 by {
    }
}

} // verus!

