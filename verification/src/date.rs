//! A possibly-partial calendar date: a signed year (negative years are BCE),
//! an optional month and an optional day, where 0 stands for "not specified".

use crate::text::{
    dec_str, digits_end, digits_run, digits_val, digits_value, is_digit, is_space, is_space_char,
    pad_to_4, pow10, skip_spaces, skip_ws, two_digits, u32_to_dec4,
};
use vstd::prelude::*;

verus! {

/// A failure of date validation or of the date grammar.
#[derive(Clone, Copy, Debug, PartialEq, Eq, Structural)]
pub enum WlError {
    /// The month lies outside 0..=12.
    InvalidMonth(u8),
    /// The day exceeds the length of its (fixed, non-leap) month.
    InvalidDay(u8),
    /// The text does not match the date grammar.
    DateFormat,
}

/// A calendar date of year, optional month, optional day. A month of 0 means
/// year-only precision; a day of 0 means year-month precision.
#[derive(Clone, Copy, Debug, PartialEq, Eq, Structural)]
pub struct Date {
    pub year: i32,
    pub month: u8,
    pub day: u8,
}

/// The fixed month lengths; leap years are not modeled, so February has 28 days.
pub open spec fn days_in_month(m: int) -> int {
    if m == 2 {
        28
    } else if m == 4 || m == 6 || m == 9 || m == 11 {
        30
    } else {
        31
    }
}

fn month_len(m: u8) -> (r: u8)
    requires
        1 <= m <= 12,
    ensures
        r as int == days_in_month(m as int),
{
    if m == 2 {
        28
    } else if m == 4 || m == 6 || m == 9 || m == 11 {
        30
    } else {
        31
    }
}

impl Date {
    /// What the validating constructor accepts.
    pub open spec fn valid(self) -> bool {
        self.month <= 12 && (self.month != 0 ==> self.day as int <= days_in_month(
            self.month as int,
        ))
    }

    /// A valid date whose day is only specified when its month is.
    pub open spec fn well_formed(self) -> bool {
        self.valid() && (self.month == 0 ==> self.day == 0)
    }

    /// Precision level: 0 for year-only, 1 for year-month, 2 for a full date.
    pub open spec fn precision(self) -> int {
        if self.month == 0 {
            0
        } else if self.day == 0 {
            1
        } else {
            2
        }
    }

    /// Strict lexicographic order on (year, month, day).
    pub open spec fn lt_spec(self, o: Date) -> bool {
        self.year < o.year || (self.year == o.year && (self.month < o.month || (self.month
            == o.month && self.day < o.day)))
    }

    pub open spec fn le_spec(self, o: Date) -> bool {
        self.lt_spec(o) || self == o
    }

    /// Strict lexicographic comparison of two dates.
    pub fn before(&self, o: &Date) -> (r: bool)
        ensures
            r == self.lt_spec(*o),
    {
        self.year < o.year || (self.year == o.year && (self.month < o.month || (self.month
            == o.month && self.day < o.day)))
    }

    pub open spec fn new_spec(year: i32, month: u8, day: u8) -> Result<Date, WlError> {
        if month > 12 {
            Err(WlError::InvalidMonth(month))
        } else if month != 0 && day as int > days_in_month(month as int) {
            Err(WlError::InvalidDay(day))
        } else {
            Ok(Date { year, month, day })
        }
    }

    /// Construct a new date from year, month and day; a month or day of 0
    /// means that it is not specified.
    pub fn new(year: i32, month: u8, day: u8) -> (r: Result<Date, WlError>)
        ensures
            r == Date::new_spec(year, month, day),
            (r matches Ok(d) ==> d.year == year && d.month == month && d.day == day && d.valid()),
            r is Ok <==> month <= 12 && (month != 0 ==> day as int <= days_in_month(month as int)),
    {
        if month > 12 {
            Err(WlError::InvalidMonth(month))
        } else if month != 0 && day > month_len(month) {
            Err(WlError::InvalidDay(day))
        } else {
            Ok(Date { year, month, day })
        }
    }

    pub open spec fn next_spec(self) -> Date {
        if self.day != 0 && (self.day as int) < days_in_month(self.month as int) {
            Date { year: self.year, month: self.month, day: (self.day + 1) as u8 }
        } else if self.month != 0 && self.month < 12 {
            Date { year: self.year, month: (self.month + 1) as u8, day: 0 }
        } else {
            Date { year: (self.year + 1) as i32, month: 0, day: 0 }
        }
    }

    /// The date one unit of the finest specified precision later: the next
    /// day, else the start of the next month, else the next year.
    pub fn next(&self) -> (r: Date)
        requires
            self.well_formed(),
            self.year < i32::MAX,
        ensures
            r == self.next_spec(),
            r.well_formed(),
    {
        if self.day != 0 && self.day < month_len(self.month) {
            Date { year: self.year, month: self.month, day: self.day + 1 }
        } else if self.month != 0 && self.month < 12 {
            Date { year: self.year, month: self.month + 1, day: 0 }
        } else {
            Date { year: self.year + 1, month: 0, day: 0 }
        }
    }

    /// The absolute value of the year, as printed.
    pub open spec fn abs_year(self) -> int {
        if self.year < 0 {
            -(self.year as int)
        } else {
            self.year as int
        }
    }

    /// The era prefix printed in front of a date: "BCE " or " CE ".
    pub open spec fn era_prefix(self) -> Seq<char> {
        if self.year < 0 {
            seq!['B', 'C', 'E', ' ']
        } else {
            seq![' ', 'C', 'E', ' ']
        }
    }

    /// The fixed-width rendering: a four-digit year, then month and day
    /// columns that hold two-digit numbers or padding spaces.
    pub open spec fn format_spec(self, display_era: bool) -> Seq<char> {
        let pre = if display_era {
            self.era_prefix()
        } else {
            Seq::<char>::empty()
        };
        let y4 = pad_to_4(dec_str(self.abs_year() as nat));
        if self.month == 0 {
            pre + y4 + seq![' ', ' ', ' ', ' ', ' ', ' ']
        } else if self.day == 0 {
            pre + y4 + seq!['-'] + two_digits(self.month as int) + seq![' ', ' ', ' ']
        } else {
            pre + y4 + seq!['-'] + two_digits(self.month as int) + seq!['-'] + two_digits(
                self.day as int,
            )
        }
    }

    /// Render the date in fixed-width file form; the year is printed as its
    /// absolute value, with the sign conveyed only by the era prefix.
    pub fn format(&self, display_era: bool) -> (r: String)
        requires
            self.valid(),
        ensures
            r@ == self.format_spec(display_era),
    {
        proof {
            reveal_strlit("BCE ");
            reveal_strlit(" CE ");
            reveal_strlit("      ");
            reveal_strlit("-");
            reveal_strlit("   ");
        }
        let mut s = String::new();
        if display_era {
            if self.year < 0 {
                s.append("BCE ");
                proof {
                    assert(s@ =~= self.era_prefix());
                }
            } else {
                s.append(" CE ");
                proof {
                    assert(s@ =~= self.era_prefix());
                }
            }
        }
        let yabs: u32 = if self.year >= 0 {
            self.year as u32
        } else {
            (-(self.year as i64)) as u32
        };
        proof {
            assert(yabs as int == self.abs_year());
        }
        let y4 = u32_to_dec4(yabs);
        s.append(y4.as_str());
        if self.month == 0 {
            s.append("      ");
            proof {
                assert(s@ =~= self.format_spec(display_era));
            }
        } else {
            s.append("-");
            let m2 = crate::text::two_digit_str(self.month);
            s.append(m2.as_str());
            if self.day == 0 {
                s.append("   ");
                proof {
                    assert(s@ =~= self.format_spec(display_era));
                }
            } else {
                s.append("-");
                let d2 = crate::text::two_digit_str(self.day);
                s.append(d2.as_str());
                proof {
                    assert(s@ =~= self.format_spec(display_era));
                }
            }
        }
        s
    }
}

/// The raw numbers read off a date prefix before range validation: the signed
/// year, month and day (0 where absent), and the count of characters consumed.
pub ghost struct RawScan {
    pub year: int,
    pub month: int,
    pub day: int,
    pub end: int,
}

pub open spec fn era_b(c: char) -> bool {
    c == 'B' || c == 'b'
}

pub open spec fn era_c(c: char) -> bool {
    c == 'C' || c == 'c'
}

pub open spec fn era_e(c: char) -> bool {
    c == 'E' || c == 'e'
}

pub open spec fn era_a(c: char) -> bool {
    c == 'A' || c == 'a'
}

pub open spec fn era_d(c: char) -> bool {
    c == 'D' || c == 'd'
}

/// The era token at position `i`, if any: the position after it and whether it
/// marks a BCE year. The longer token "BCE" is preferred over "BC".
pub open spec fn era_at(s: Seq<char>, i: int) -> Option<(int, bool)> {
    if 0 <= i && i + 3 <= s.len() && era_b(s[i]) && era_c(s[i + 1]) && era_e(s[i + 2]) {
        Some((i + 3, true))
    } else if 0 <= i && i + 2 <= s.len() && era_b(s[i]) && era_c(s[i + 1]) {
        Some((i + 2, true))
    } else if 0 <= i && i + 2 <= s.len() && era_c(s[i]) && era_e(s[i + 1]) {
        Some((i + 2, false))
    } else if 0 <= i && i + 2 <= s.len() && era_a(s[i]) && era_d(s[i + 1]) {
        Some((i + 2, false))
    } else {
        None
    }
}

/// A month or day group starts at `i`: a separator immediately followed by a digit.
pub open spec fn group_present(s: Seq<char>, i: int) -> bool {
    0 <= i && i + 1 < s.len() && s[i] == '-' && is_digit(s[i + 1])
}

/// A present group runs past two digits, which the grammar rejects.
pub open spec fn group_overlong(s: Seq<char>, i: int) -> bool {
    group_present(s, i) && digits_end(s, i + 1) > i + 3
}

/// The position after the one or two digits of a present group.
pub open spec fn group_end(s: Seq<char>, i: int) -> int {
    digits_end(s, i + 1)
}

/// The number the one or two digits of a present group denote.
pub open spec fn group_value(s: Seq<char>, i: int) -> int {
    digits_val(s.subrange(i + 1, group_end(s, i)))
}

/// The date grammar, applied at the start of `s`: optional whitespace, an
/// optional case-insensitive era token (BCE, BC, CE, AD), optional whitespace,
/// a year of up to four digits with an optional leading minus, then optional
/// "-month" and "-day" groups of up to two digits each, and finally either the
/// end of the text or at least one whitespace character, which is consumed.
/// An era token starting with B, like a leading minus, makes the year negative.
pub open spec fn scan_date(s: Seq<char>) -> Option<RawScan> {
    let i0 = skip_ws(s, 0);
    let (i1, force_bce) = match era_at(s, i0) {
        Some(p) => p,
        None => (i0, false),
    };
    let i2 = skip_ws(s, i1);
    let neg = i2 < s.len() && s[i2] == '-';
    let i3 = if neg {
        i2 + 1
    } else {
        i2
    };
    let de = digits_end(s, i3);
    if de == i3 || de > i3 + 4 {
        None
    } else {
        let yabs = digits_val(s.subrange(i3, de));
        let year = if force_bce || neg {
            -yabs
        } else {
            yabs
        };
        if group_overlong(s, de) {
            None
        } else {
            let month = if group_present(s, de) {
                group_value(s, de)
            } else {
                0
            };
            let after_month = if group_present(s, de) {
                group_end(s, de)
            } else {
                de
            };
            if group_overlong(s, after_month) {
                None
            } else {
                let day = if group_present(s, after_month) {
                    group_value(s, after_month)
                } else {
                    0
                };
                let after_day = if group_present(s, after_month) {
                    group_end(s, after_month)
                } else {
                    after_month
                };
                if after_day == s.len() {
                    Some(RawScan { year, month, day, end: after_day })
                } else if is_space(s[after_day]) {
                    Some(RawScan { year, month, day, end: skip_ws(s, after_day) })
                } else {
                    None
                }
            }
        }
    }
}

/// What parsing returns: the scanned numbers validated as a date, and the
/// count of characters consumed, or the error the text deserves.
pub open spec fn parse_spec(s: Seq<char>) -> Result<(Date, int), WlError> {
    match scan_date(s) {
        None => Err(WlError::DateFormat),
        Some(r) => {
            if r.month > 12 {
                Err(WlError::InvalidMonth(r.month as u8))
            } else if r.month != 0 && r.day > days_in_month(r.month) {
                Err(WlError::InvalidDay(r.day as u8))
            } else {
                Ok((Date { year: r.year as i32, month: r.month as u8, day: r.day as u8 }, r.end))
            }
        },
    }
}

/// The outcome of scanning one "-number" group.
enum GroupScan {
    Absent,
    Overlong,
    Part(u8, usize),
}

fn era_scan(s: &str, at: usize) -> (r: Option<(usize, bool)>)
    requires
        at <= s@.len(),
    ensures
        (match (r, era_at(s@, at as int)) {
            (Option::None, Option::None) => true,
            (Option::Some(e), Option::Some(g)) => e.0 as int == g.0 && e.1 == g.1,
            _ => false,
        }),
{
    let n = s.unicode_len();
    if n - at >= 3 {
        let c0 = s.get_char(at);
        let c1 = s.get_char(at + 1);
        let c2 = s.get_char(at + 2);
        if (c0 == 'B' || c0 == 'b') && (c1 == 'C' || c1 == 'c') && (c2 == 'E' || c2 == 'e') {
            return Some((at + 3, true));
        }
    }
    if n - at >= 2 {
        let c0 = s.get_char(at);
        let c1 = s.get_char(at + 1);
        if (c0 == 'B' || c0 == 'b') && (c1 == 'C' || c1 == 'c') {
            return Some((at + 2, true));
        }
        if (c0 == 'C' || c0 == 'c') && (c1 == 'E' || c1 == 'e') {
            return Some((at + 2, false));
        }
        if (c0 == 'A' || c0 == 'a') && (c1 == 'D' || c1 == 'd') {
            return Some((at + 2, false));
        }
    }
    None
}

fn group_scan(s: &str, at: usize) -> (r: GroupScan)
    requires
        at <= s@.len(),
    ensures
        (match r {
            GroupScan::Absent => !group_present(s@, at as int),
            GroupScan::Overlong => group_overlong(s@, at as int),
            GroupScan::Part(v, e) => group_present(s@, at as int) && !group_overlong(
                s@,
                at as int,
            ) && v as int == group_value(s@, at as int) && e as int == group_end(s@, at as int)
                && at < e <= s@.len(),
        }),
{
    let n = s.unicode_len();
    if at < n && s.get_char(at) == '-' && at + 1 < n {
        let re = digits_run(s, at + 1);
        if re == at + 1 {
            proof {
                assert(digits_end(s@, at + 1) == at + 1);
                assert(!is_digit(s@[at + 1]));
            }
            GroupScan::Absent
        } else if re - (at + 1) > 2 {
            GroupScan::Overlong
        } else {
            let v = digits_value(s, at + 1, re);
            proof {
                let digits = s@.subrange(at + 1, re as int);
                crate::text::lemma_digits_val_bounds(digits);
                crate::text::lemma_pow10_mono(digits.len(), 2);
                assert(pow10(0) == 1);
                assert(pow10(1) == 10);
                assert(pow10(2) == 100);
            }
            GroupScan::Part(v as u8, re)
        }
    } else {
        GroupScan::Absent
    }
}

impl Date {
    /// Parse a date at the start of `date_string`, returning it and the index
    /// of the first character that was not consumed (the grammar consumes the
    /// whitespace that ends the date). Fails with `DateFormat` when the
    /// grammar does not match, and with `InvalidMonth` or `InvalidDay` when
    /// the matched numbers lie outside their ranges.
    pub fn parse(date_string: &str) -> (r: Result<(Date, usize), WlError>)
        ensures
            (match parse_spec(date_string@) {
                Ok(p) => r matches Ok(q) && q.0 == p.0 && q.1 as int == p.1 && q.1
                    <= date_string@.len(),
                Err(e) => r matches Err(e2) && e2 == e,
            }),
            (r matches Ok(q) ==> q.0.valid()),
    {
        let ghost sv = date_string@;
        let n = date_string.unicode_len();
        let i0 = skip_spaces(date_string, 0);
        let (i1, force_bce) = match era_scan(date_string, i0) {
            Some(p) => p,
            None => (i0, false),
        };
        proof {
            assert(i1 <= sv.len());
        }
        let i2 = skip_spaces(date_string, i1);
        let neg = i2 < n && date_string.get_char(i2) == '-';
        let i3 = if neg {
            i2 + 1
        } else {
            i2
        };
        let re = digits_run(date_string, i3);
        if re == i3 || re - i3 > 4 {
            return Err(WlError::DateFormat);
        }
        let yabs = digits_value(date_string, i3, re);
        let year: i32 = if force_bce || neg {
            -(yabs as i32)
        } else {
            yabs as i32
        };
        let (month_v, after_month) = match group_scan(date_string, re) {
            GroupScan::Overlong => {
                return Err(WlError::DateFormat);
            },
            GroupScan::Part(v, e) => (v, e),
            GroupScan::Absent => (0u8, re),
        };
        let (day_v, after_day) = match group_scan(date_string, after_month) {
            GroupScan::Overlong => {
                return Err(WlError::DateFormat);
            },
            GroupScan::Part(v, e) => (v, e),
            GroupScan::Absent => (0u8, after_month),
        };
        let end = if after_day == n {
            after_day
        } else {
            let c = date_string.get_char(after_day);
            if is_space_char(c) {
                skip_spaces(date_string, after_day)
            } else {
                return Err(WlError::DateFormat);
            }
        };
        proof {
            assert(scan_date(sv) == Some(
                RawScan { year: year as int, month: month_v as int, day: day_v as int, end: end as int },
            ));
        }
        if month_v > 12 {
            return Err(WlError::InvalidMonth(month_v));
        }
        if month_v != 0 && day_v > month_len(month_v) {
            return Err(WlError::InvalidDay(day_v));
        }
        Ok((Date { year, month: month_v, day: day_v }, end))
    }
}

/// The successor is strictly later; on a year-only date it moves to the next
/// year alone, and from December 31 it rolls over to the next year alone.
pub proof fn lemma_next_gt(d: Date)
    requires
        d.well_formed(),
        d.year < i32::MAX,
    ensures
        d.lt_spec(d.next_spec()),
        (d.month == 0 ==> d.next_spec() == (Date { year: (d.year + 1) as i32, month: 0, day: 0 })),
        (d.month == 12 && d.day == 31 ==> d.next_spec() == (Date {
            year: (d.year + 1) as i32,
            month: 0,
            day: 0,
        })),
{
}

/// For two well-formed dates of equal precision, lying before the successor
/// of `b` is the same as lying at or before `b`: the successor is the exact
/// exclusive upper bound for the whole period of `b`.
pub proof fn lemma_next_tight(d: Date, b: Date)
    requires
        d.well_formed(),
        b.well_formed(),
        d.precision() == b.precision(),
        b.year < i32::MAX,
    ensures
        d.lt_spec(b.next_spec()) <==> d.le_spec(b),
{
    assert(days_in_month(d.month as int) <= 31);
    assert(days_in_month(b.month as int) <= 31);
}

/// Round trip: formatting a well-formed date with its era prefix and parsing
/// the result gives back the same date, consuming the whole text.
#[verifier::rlimit(50)]
pub proof fn lemma_parse_format(d: Date)
    requires
        d.well_formed(),
        -9999 <= d.year <= 9999,
    ensures
        parse_spec(d.format_spec(true)) == Ok::<(Date, int), WlError>((
            d,
            d.format_spec(true).len() as int,
        )),
{
    let s = d.format_spec(true);
    let pre = d.era_prefix();
    let ab = d.abs_year() as nat;
    let y4 = pad_to_4(dec_str(ab));
    lemma_format_width(d);
    crate::text::lemma_dec_str_digits(ab);
    assert(pow10(0) == 1);
    assert(pow10(1) == 10);
    assert(pow10(2) == 100);
    assert(pow10(3) == 1000);
    assert(pow10(4) == 10000);
    crate::text::lemma_dec_str_len(ab, 4);
    crate::text::lemma_pad_to_4_val(dec_str(ab));
    crate::text::lemma_dec_str_val(ab);
    assert(y4.len() == 4);
    assert(crate::text::all_digits(y4));
    assert(digits_val(y4) == ab);
    assert(s.subrange(0, 4) =~= pre);
    assert(s.subrange(4, 8) =~= y4);
    assert(s[1] == 'C' && s[2] == 'E' && s[3] == ' ');
    assert(s[4] == y4[0] && s[5] == y4[1] && s[6] == y4[2] && s[7] == y4[3]);
    assert(is_digit(s[4]) && is_digit(s[5]) && is_digit(s[6]) && is_digit(s[7]));

    // scanning the era prefix and the year column
    if d.year < 0 {
        assert(s[0] == 'B');
        assert(skip_ws(s, 0) == 0);
        assert(era_at(s, 0) == Some((3int, true)));
    } else {
        assert(s[0] == ' ');
        assert(skip_ws(s, 1) == 1);
        assert(skip_ws(s, 0) == 1);
        assert(era_at(s, 1) == Some((3int, false)));
    }
    assert(skip_ws(s, 4) == 4);
    assert(skip_ws(s, 3) == 4);
    assert(s[4] != '-');
    assert(s.subrange(4, 8) =~= y4);
    assert(digits_val(s.subrange(4, 8)) == ab);

    if d.month == 0 {
        assert(forall|j: int| 8 <= j < 14 ==> #[trigger] s[j] == ' ');
        crate::text::lemma_digits_end_run(s, 4, 8);
        assert(!group_present(s, 8));
        crate::text::lemma_skip_ws_all(s, 8);
        assert(scan_date(s) == Some(
            RawScan { year: d.year as int, month: 0, day: 0, end: 14 },
        ));
    } else {
        assert(s[8] == '-');
        crate::text::lemma_digits_end_run(s, 4, 8);
        crate::text::lemma_two_digits_val(d.month as int);
        assert(s.subrange(9, 11) =~= two_digits(d.month as int));
        assert(s[9] == two_digits(d.month as int)[0] && s[10] == two_digits(d.month as int)[1]);
        assert(is_digit(s[9]) && is_digit(s[10]));
        assert(group_present(s, 8));
        if d.day == 0 {
            assert(s[11] == ' ' && s[12] == ' ' && s[13] == ' ');
            crate::text::lemma_digits_end_run(s, 9, 11);
            assert(group_end(s, 8) == 11);
            assert(!group_overlong(s, 8));
            assert(group_value(s, 8) == d.month as int);
            assert(!group_present(s, 11));
            assert(is_space(s[11]));
            crate::text::lemma_skip_ws_all(s, 11);
            assert(scan_date(s) == Some(
                RawScan { year: d.year as int, month: d.month as int, day: 0, end: 14 },
            ));
        } else {
            assert(s[11] == '-');
            crate::text::lemma_digits_end_run(s, 9, 11);
            assert(group_end(s, 8) == 11);
            assert(!group_overlong(s, 8));
            assert(group_value(s, 8) == d.month as int);
            crate::text::lemma_two_digits_val(d.day as int);
            assert(s.subrange(12, 14) =~= two_digits(d.day as int));
            assert(s[12] == two_digits(d.day as int)[0] && s[13] == two_digits(d.day as int)[1]);
            assert(is_digit(s[12]) && is_digit(s[13]));
            crate::text::lemma_digits_end_run(s, 12, 14);
            assert(group_present(s, 11));
            assert(group_end(s, 11) == 14);
            assert(!group_overlong(s, 11));
            assert(group_value(s, 11) == d.day as int);
            assert(scan_date(s) == Some(
                RawScan { year: d.year as int, month: d.month as int, day: d.day as int, end: 14 },
            ));
        }
    }
    assert(d.month as int <= 12);
}

/// Serialized dates are fixed-width: the date field is 10 characters, and 14
/// with the era prefix, for every year the file format covers.
pub proof fn lemma_format_width(d: Date)
    requires
        -9999 <= d.year <= 9999,
    ensures
        d.format_spec(false).len() == 10,
        d.format_spec(true).len() == 14,
{
    assert(pow10(0) == 1);
    assert(pow10(1) == 10);
    assert(pow10(2) == 100);
    assert(pow10(3) == 1000);
    assert(pow10(4) == 10000);
    crate::text::lemma_dec_str_len(d.abs_year() as nat, 4);
    crate::text::lemma_pad_to_4_val(dec_str(d.abs_year() as nat));
}

} // verus!
