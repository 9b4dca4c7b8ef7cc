//! A calendar timestamp at minute precision: the resolution of the text
//! format this library reads and writes.  Dates carry midnight as their
//! time of day.

use vstd::prelude::*;

use crate::text;

verus! {

#[derive(Debug, Clone, Copy, PartialEq, Eq, Structural)]
pub struct DateTime {
    pub year: u32,
    pub month: u32,
    pub day: u32,
    pub hour: u32,
    pub minute: u32,
}

pub open spec fn is_leap_year(y: int) -> bool {
    y % 4 == 0 && (y % 100 != 0 || y % 400 == 0)
}

pub open spec fn days_in_month(y: int, m: int) -> int {
    if m == 1 || m == 3 || m == 5 || m == 7 || m == 8 || m == 10 || m == 12 {
        31
    } else if m == 4 || m == 6 || m == 9 || m == 11 {
        30
    } else if is_leap_year(y) {
        29
    } else {
        28
    }
}

impl DateTime {
    /// A calendar-valid timestamp that the text format can carry: a four
    /// digit year, a real month and day, a time of day.
    pub open spec fn well_formed(self) -> bool {
        self.year <= 9999 && 1 <= self.month <= 12 && 1 <= self.day <= days_in_month(
            self.year as int,
            self.month as int,
        ) && self.hour < 24 && self.minute < 60
    }

    /// True when the time of day is midnight, the precision of date-only
    /// fields.
    pub open spec fn is_midnight(self) -> bool {
        self.hour == 0 && self.minute == 0
    }

    /// Lexicographic order on (year, month, day, hour, minute).
    pub open spec fn spec_lt(self, other: DateTime) -> bool {
        self.year < other.year || (self.year == other.year && (self.month < other.month || (
        self.month == other.month && (self.day < other.day || (self.day == other.day && (self.hour
            < other.hour || (self.hour == other.hour && self.minute < other.minute)))))))
    }

    pub open spec fn spec_le(self, other: DateTime) -> bool {
        !other.spec_lt(self)
    }

    pub fn new(year: u32, month: u32, day: u32, hour: u32, minute: u32) -> (r: DateTime)
        ensures
            r == (DateTime { year, month, day, hour, minute }),
    {
        DateTime { year, month, day, hour, minute }
    }

    /// Builds a calendar-checked timestamp, or nothing if no calendar day
    /// matches.
    pub fn checked(year: u32, month: u32, day: u32, hour: u32, minute: u32) -> (r: Option<
        DateTime,
    >)
        ensures
            r matches Some(dt) ==> dt == (DateTime { year, month, day, hour, minute })
                && dt.well_formed(),
            r is None ==> !(DateTime { year, month, day, hour, minute }).well_formed(),
    {
        let dt = DateTime { year, month, day, hour, minute };
        if year <= 9999 && 1 <= month && month <= 12 && 1 <= day && day <= days_in_month_x(
            year,
            month,
        ) && hour < 24 && minute < 60 {
            Some(dt)
        } else {
            None
        }
    }

    pub fn lt(&self, other: &DateTime) -> (r: bool)
        ensures
            r == self.spec_lt(*other),
    {
        if self.year != other.year {
            return self.year < other.year;
        }
        if self.month != other.month {
            return self.month < other.month;
        }
        if self.day != other.day {
            return self.day < other.day;
        }
        if self.hour != other.hour {
            return self.hour < other.hour;
        }
        self.minute < other.minute
    }

    pub fn le(&self, other: &DateTime) -> (r: bool)
        ensures
            r == self.spec_le(*other),
    {
        !other.lt(self)
    }

    /// The date part, `YYYY-MM-DD`, zero-padded.
    pub open spec fn spec_date_chars(self) -> Seq<char> {
        text::spec_pad_digits(self.year as int, 4) + seq!['-'] + text::spec_pad_digits(
            self.month as int,
            2,
        ) + seq!['-'] + text::spec_pad_digits(self.day as int, 2)
    }

    /// The minute form, `YYYY-MM-DD HH:MM`, zero-padded.
    pub open spec fn spec_datetime_chars(self) -> Seq<char> {
        self.spec_date_chars() + seq![' '] + text::spec_pad_digits(self.hour as int, 2)
            + seq![':'] + text::spec_pad_digits(self.minute as int, 2)
    }

    /// Writes the date part, `YYYY-MM-DD`.
    pub fn push_date_chars(&self, out: &mut Vec<char>)
        ensures
            final(out)@ == old(out)@ + self.spec_date_chars(),
    {
        let y = text::u32_padded(self.year, 4);
        text::push_all(out, &y);
        out.push('-');
        let m = text::u32_padded(self.month, 2);
        text::push_all(out, &m);
        out.push('-');
        let d = text::u32_padded(self.day, 2);
        text::push_all(out, &d);
        proof {
            assert(out@ =~= old(out)@ + self.spec_date_chars());
        }
    }

    /// Writes the minute form, `YYYY-MM-DD HH:MM`.
    pub fn push_datetime_chars(&self, out: &mut Vec<char>)
        ensures
            final(out)@ == old(out)@ + self.spec_datetime_chars(),
    {
        self.push_date_chars(out);
        out.push(' ');
        let h = text::u32_padded(self.hour, 2);
        text::push_all(out, &h);
        out.push(':');
        let mi = text::u32_padded(self.minute, 2);
        text::push_all(out, &mi);
        proof {
            assert(out@ =~= old(out)@ + self.spec_datetime_chars());
        }
    }

    /// What parsing a `YYYY-MM-DD` date yields: three dash-separated decimal
    /// groups naming a calendar-valid day, at midnight.
    pub open spec fn spec_parse_date(s: Seq<char>) -> Option<DateTime> {
        let parts = text::spec_split(s, '-');
        if parts.len() != 3 {
            None
        } else {
            match (text::spec_parse_u32(parts[0]), text::spec_parse_u32(parts[1]),
            text::spec_parse_u32(parts[2])) {
                (Some(y), Some(m), Some(d)) => {
                    let dt = DateTime { year: y, month: m, day: d, hour: 0, minute: 0 };
                    if dt.well_formed() {
                        Some(dt)
                    } else {
                        None
                    }
                },
                _ => None,
            }
        }
    }

    /// What parsing a `YYYY-MM-DD HH:MM` timestamp yields.
    pub open spec fn spec_parse_datetime(s: Seq<char>) -> Option<DateTime> {
        let outer = text::spec_split(s, ' ');
        if outer.len() != 2 {
            None
        } else {
            match Self::spec_parse_date(outer[0]) {
                None => None,
                Some(date) => {
                    let tparts = text::spec_split(outer[1], ':');
                    if tparts.len() != 2 {
                        None
                    } else {
                        match (text::spec_parse_u32(tparts[0]), text::spec_parse_u32(tparts[1])) {
                            (Some(h), Some(mi)) => if h < 24 && mi < 60 {
                                Some(DateTime { hour: h, minute: mi, ..date })
                            } else {
                                None
                            },
                            _ => None,
                        }
                    }
                },
            }
        }
    }

    /// Parses a `YYYY-MM-DD` date.
    pub fn parse_date(v: &Vec<char>) -> (r: Option<DateTime>)
        ensures
            r == Self::spec_parse_date(v@),
            r matches Some(dt) ==> dt.well_formed() && dt.is_midnight(),
    {
        let parts = text::split_char(v, '-');
        if parts.len() != 3 {
            return None;
        }
        proof {
            assert(parts@[0]@ == parts.deep_view()[0]);
            assert(parts@[1]@ == parts.deep_view()[1]);
            assert(parts@[2]@ == parts.deep_view()[2]);
        }
        let y = match text::parse_u32(&parts[0]) {
            Some(y) => y,
            None => {
                return None;
            },
        };
        let m = match text::parse_u32(&parts[1]) {
            Some(m) => m,
            None => {
                return None;
            },
        };
        let d = match text::parse_u32(&parts[2]) {
            Some(d) => d,
            None => {
                return None;
            },
        };
        DateTime::checked(y, m, d, 0, 0)
    }

    /// Parses a `YYYY-MM-DD HH:MM` timestamp.
    pub fn parse_datetime(v: &Vec<char>) -> (r: Option<DateTime>)
        ensures
            r == Self::spec_parse_datetime(v@),
            r matches Some(dt) ==> dt.well_formed(),
    {
        let outer = text::split_char(v, ' ');
        if outer.len() != 2 {
            return None;
        }
        proof {
            assert(outer@[0]@ == outer.deep_view()[0]);
            assert(outer@[1]@ == outer.deep_view()[1]);
        }
        let date = match Self::parse_date(&outer[0]) {
            Some(dt) => dt,
            None => {
                return None;
            },
        };
        let tparts = text::split_char(&outer[1], ':');
        if tparts.len() != 2 {
            return None;
        }
        proof {
            assert(tparts@[0]@ == tparts.deep_view()[0]);
            assert(tparts@[1]@ == tparts.deep_view()[1]);
        }
        let h = match text::parse_u32(&tparts[0]) {
            Some(h) => h,
            None => {
                return None;
            },
        };
        let mi = match text::parse_u32(&tparts[1]) {
            Some(mi) => mi,
            None => {
                return None;
            },
        };
        if h < 24 && mi < 60 {
            Some(DateTime { year: date.year, month: date.month, day: date.day, hour: h, minute: mi })
        } else {
            None
        }
    }

    /// Days since 1970-01-01 of the date part, by the civil-calendar
    /// formula.
    pub open spec fn spec_days_from_civil(self) -> int {
        let y = if self.month <= 2 {
            self.year - 1
        } else {
            self.year as int
        };
        let mp = if self.month > 2 {
            self.month - 3
        } else {
            self.month + 9
        };
        let doy = (153 * mp + 2) / 5 + self.day - 1;
        y * 365 + y / 4 - y / 100 + y / 400 + doy - 719468
    }

    /// Seconds since the Unix epoch, at minute precision.
    pub open spec fn spec_unix_seconds(self) -> int {
        self.spec_days_from_civil() * 86400 + self.hour * 3600 + self.minute * 60
    }

    /// Seconds since the Unix epoch of this timestamp.
    pub fn unix_seconds(&self) -> (r: i64)
        requires
            self.well_formed(),
            self.year >= 1,
        ensures
            r == self.spec_unix_seconds(),
    {
        let y: i64 = if self.month <= 2 {
            self.year as i64 - 1
        } else {
            self.year as i64
        };
        let mp: i64 = if self.month > 2 {
            self.month as i64 - 3
        } else {
            self.month as i64 + 9
        };
        let doy: i64 = (153 * mp + 2) / 5 + self.day as i64 - 1;
        let days: i64 = y * 365 + y / 4 - y / 100 + y / 400 + doy - 719468;
        days * 86400 + self.hour as i64 * 3600 + self.minute as i64 * 60
    }
}

pub fn days_in_month_x(y: u32, m: u32) -> (r: u32)
    ensures
        r == days_in_month(y as int, m as int),
{
    if m == 1 || m == 3 || m == 5 || m == 7 || m == 8 || m == 10 || m == 12 {
        31
    } else if m == 4 || m == 6 || m == 9 || m == 11 {
        30
    } else if y % 4 == 0 && (y % 100 != 0 || y % 400 == 0) {
        29
    } else {
        28
    }
}

/// A well-formed date's text parses back to the same day at midnight.
pub proof fn lemma_date_chars_parse(dt: DateTime)
    requires
        dt.well_formed(),
    ensures
        DateTime::spec_parse_date(dt.spec_date_chars()) == Some(
            DateTime { hour: 0, minute: 0, ..dt },
        ),
{
    let p1 = text::spec_pad_digits(dt.year as int, 4);
    let p2 = text::spec_pad_digits(dt.month as int, 2);
    let p3 = text::spec_pad_digits(dt.day as int, 2);
    text::lemma_parse_of_padded(dt.year, 4);
    text::lemma_parse_of_padded(dt.month, 2);
    text::lemma_parse_of_padded(dt.day, 2);
    lemma_digits_no_char(p1, '-');
    lemma_digits_no_char(p2, '-');
    lemma_digits_no_char(p3, '-');
    let s = dt.spec_date_chars();
    assert(s =~= p1 + seq!['-'] + (p2 + seq!['-'] + p3));
    text::lemma_split_concat(p1, p2 + seq!['-'] + p3, '-');
    text::lemma_split_concat(p2, p3, '-');
    text::lemma_split_single(p3, '-');
    assert(text::spec_split(s, '-') =~= seq![p1, p2, p3]);
}

/// A well-formed timestamp's text parses back to the same timestamp.
pub proof fn lemma_datetime_chars_parse(dt: DateTime)
    requires
        dt.well_formed(),
    ensures
        DateTime::spec_parse_datetime(dt.spec_datetime_chars()) == Some(dt),
{
    let date = dt.spec_date_chars();
    let p4 = text::spec_pad_digits(dt.hour as int, 2);
    let p5 = text::spec_pad_digits(dt.minute as int, 2);
    text::lemma_parse_of_padded(dt.hour, 2);
    text::lemma_parse_of_padded(dt.minute, 2);
    lemma_date_chars_no_space(dt);
    let tpart = p4 + seq![':'] + p5;
    let s = dt.spec_datetime_chars();
    assert(s =~= date + seq![' '] + tpart);
    assert(forall|i: int| 0 <= i < tpart.len() ==> #[trigger] tpart[i] != ' ') by {
        lemma_digits_no_char(p4, ' ');
        lemma_digits_no_char(p5, ' ');
        assert(forall|i: int| 0 <= i < p4.len() ==> tpart[i] == #[trigger] p4[i]);
        assert(tpart[p4.len() as int] == ':');
        assert(forall|i: int|
            p4.len() + 1 <= i < tpart.len() ==> tpart[i] == #[trigger] p5[i - p4.len() - 1]);
    }
    text::lemma_split_concat(date, tpart, ' ');
    text::lemma_split_single(tpart, ' ');
    assert(text::spec_split(s, ' ') =~= seq![date, tpart]);
    lemma_date_chars_parse(dt);
    lemma_digits_no_char(p4, ':');
    lemma_digits_no_char(p5, ':');
    text::lemma_split_concat(p4, p5, ':');
    text::lemma_split_single(p5, ':');
    assert(text::spec_split(tpart, ':') =~= seq![p4, p5]);
}

/// A digit string holds no separator and no whitespace.
proof fn lemma_digits_no_char(d: Seq<char>, c: char)
    requires
        text::all_digits(d),
        !text::is_digit(c),
    ensures
        text::no_char(d, c),
        forall|i: int| 0 <= i < d.len() ==> !text::is_space(#[trigger] d[i]),
{
    assert forall|i: int| 0 <= i < d.len() implies #[trigger] d[i] != c by {
        assert(text::is_digit(d[i]));
    }
    assert forall|i: int| 0 <= i < d.len() implies !text::is_space(#[trigger] d[i]) by {
        assert(text::is_digit(d[i]));
    }
}

/// The date text has no whitespace and no newline in it.
pub proof fn lemma_date_chars_no_space(dt: DateTime)
    ensures
        forall|i: int|
            0 <= i < dt.spec_date_chars().len() ==> !text::is_space(
                #[trigger] dt.spec_date_chars()[i],
            ) && dt.spec_date_chars()[i] != ' ',
        dt.spec_date_chars().len() > 0,
{
    let p1 = text::spec_pad_digits(dt.year as int, 4);
    let p2 = text::spec_pad_digits(dt.month as int, 2);
    let p3 = text::spec_pad_digits(dt.day as int, 2);
    text::lemma_parse_of_padded(dt.year, 4);
    text::lemma_parse_of_padded(dt.month, 2);
    text::lemma_parse_of_padded(dt.day, 2);
    lemma_digits_no_char(p1, ' ');
    lemma_digits_no_char(p2, ' ');
    lemma_digits_no_char(p3, ' ');
    let s = dt.spec_date_chars();
    assert forall|i: int| 0 <= i < s.len() implies !text::is_space(#[trigger] s[i]) by {
        if i < p1.len() {
            assert(s[i] == p1[i]);
        } else if i == p1.len() {
            assert(s[i] == '-');
        } else if i < p1.len() + 1 + p2.len() {
            assert(s[i] == p2[i - p1.len() - 1]);
        } else if i == p1.len() + 1 + p2.len() {
            assert(s[i] == '-');
        } else {
            assert(s[i] == p3[i - p1.len() - p2.len() - 2]);
        }
    }
}

/// Each character of the date text is a digit or a dash.
pub proof fn lemma_date_chars_shape(dt: DateTime, i: int)
    requires
        0 <= i < dt.spec_date_chars().len(),
    ensures
        text::is_digit(dt.spec_date_chars()[i]) || dt.spec_date_chars()[i] == '-',
{
    let p1 = text::spec_pad_digits(dt.year as int, 4);
    let p2 = text::spec_pad_digits(dt.month as int, 2);
    let p3 = text::spec_pad_digits(dt.day as int, 2);
    text::lemma_parse_of_padded(dt.year, 4);
    text::lemma_parse_of_padded(dt.month, 2);
    text::lemma_parse_of_padded(dt.day, 2);
    let s = dt.spec_date_chars();
    if i < p1.len() {
        assert(s[i] == p1[i]);
    } else if i == p1.len() {
        assert(s[i] == '-');
    } else if i < p1.len() + 1 + p2.len() {
        assert(s[i] == p2[i - p1.len() - 1]);
    } else if i == p1.len() + 1 + p2.len() {
        assert(s[i] == '-');
    } else {
        assert(s[i] == p3[i - p1.len() - p2.len() - 2]);
    }
}

/// The minute-form text has no newline in it.
pub proof fn lemma_datetime_chars_no_newline(dt: DateTime)
    ensures
        text::no_char(dt.spec_datetime_chars(), '\n'),
        dt.spec_datetime_chars().len() > 0,
{
    let date = dt.spec_date_chars();
    let p4 = text::spec_pad_digits(dt.hour as int, 2);
    let p5 = text::spec_pad_digits(dt.minute as int, 2);
    text::lemma_parse_of_padded(dt.hour, 2);
    text::lemma_parse_of_padded(dt.minute, 2);
    lemma_date_chars_no_space(dt);
    lemma_digits_no_char(p4, '\n');
    lemma_digits_no_char(p5, '\n');
    let s = dt.spec_datetime_chars();
    assert forall|i: int| 0 <= i < s.len() implies #[trigger] s[i] != '\n' by {
        if i < date.len() {
            assert(s[i] == date[i]);
            assert(!text::is_space(date[i]));
        } else if i == date.len() {
            assert(s[i] == ' ');
        } else if i < date.len() + 1 + p4.len() {
            assert(s[i] == p4[i - date.len() - 1]);
        } else if i == date.len() + 1 + p4.len() {
            assert(s[i] == ':');
        } else {
            assert(s[i] == p5[i - date.len() - p4.len() - 2]);
        }
    }
}

} // verus!
