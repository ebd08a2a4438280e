//! Calendar dates of the proleptic Gregorian calendar, without a time of day.

use crate::text::{digits, padded, push_digits, push_padded};
use vstd::prelude::*;

verus! {

/// The earliest year a date can have.
pub const MIN_YEAR: i32 = -262143;

/// The latest year a date can have.
pub const MAX_YEAR: i32 = 262142;

/// A calendar date given by its year, month (1 to 12) and day of the month.
#[derive(Clone, Copy, Debug, PartialEq, Eq, Structural)]
pub struct Date {
    pub year: i32,
    pub month: u32,
    pub day: u32,
}

/// Whether `year` has a 29th of February.
pub open spec fn is_leap_year(year: int) -> bool {
    year % 4 == 0 && (year % 100 != 0 || year % 400 == 0)
}

/// The number of days of `month` in `year`; 0 where `month` is no month.
pub open spec fn days_in_month(year: int, month: int) -> int {
    if month == 2 {
        if is_leap_year(year) {
            29
        } else {
            28
        }
    } else if month == 4 || month == 6 || month == 9 || month == 11 {
        30
    } else if 1 <= month <= 12 {
        31
    } else {
        0
    }
}

/// Whether year, month and day name a day of the calendar.
pub open spec fn valid_ymd(year: int, month: int, day: int) -> bool {
    &&& MIN_YEAR <= year <= MAX_YEAR
    &&& 1 <= month <= 12
    &&& 1 <= day <= days_in_month(year, month)
}

/// Whether `c` is one of the ten ASCII digits.
pub open spec fn is_digit(c: char) -> bool {
    0x30 <= c as u32 <= 0x39
}

/// The value of the ASCII digit `c`.
pub open spec fn digit_value(c: char) -> int {
    c as u32 - 0x30
}

/// Whether `text` is four digits, a hyphen, two digits, a hyphen and two
/// digits, and nothing else.
pub open spec fn is_date_shape(text: Seq<char>) -> bool {
    &&& text.len() == 10
    &&& is_digit(text[0])
    &&& is_digit(text[1])
    &&& is_digit(text[2])
    &&& is_digit(text[3])
    &&& text[4] == '-'
    &&& is_digit(text[5])
    &&& is_digit(text[6])
    &&& text[7] == '-'
    &&& is_digit(text[8])
    &&& is_digit(text[9])
}

/// What a text of the date shape reads as: its three numbers, where they
/// name a day of the calendar.
pub open spec fn shaped_ymd(text: Seq<char>) -> Option<(int, int, int)> {
    let year = digit_value(text[0]) * 1000 + digit_value(text[1]) * 100 + digit_value(text[2]) * 10
        + digit_value(text[3]);
    let month = digit_value(text[5]) * 10 + digit_value(text[6]);
    let day = digit_value(text[8]) * 10 + digit_value(text[9]);
    if valid_ymd(year, month, day) {
        Some((year, month, day))
    } else {
        None
    }
}

/// A year as a date shows it.
pub open spec fn year_text(year: int) -> Seq<char> {
    if 0 <= year <= 9999 {
        padded(year as nat, 4)
    } else if year < 0 {
        seq!['-'] + (if -year < 1000 {
            padded((-year) as nat, 4)
        } else {
            digits((-year) as nat)
        })
    } else {
        seq!['+'] + digits(year as nat)
    }
}

/// Year, month and day that `chrono` reads from `text` under the format
/// `%Y-%m-%d`, or `None` where it rejects the text.
pub uninterp spec fn chrono_ymd(text: Seq<char>) -> Option<(int, int, int)>;

/// The error with which `chrono` rejects a text.
#[verifier::external_type_specification]
#[verifier::external_body]
pub struct ExParseError(chrono::ParseError);

impl Date {
    /// Whether the date names a day of the calendar.
    pub open spec fn wf(self) -> bool {
        valid_ymd(self.year as int, self.month as int, self.day as int)
    }

    /// Year, month and day as mathematical integers.
    pub open spec fn ymd(self) -> (int, int, int) {
        (self.year as int, self.month as int, self.day as int)
    }

    /// The date of the given year, month and day, where they name a day of
    /// the calendar.
    pub fn new(year: i32, month: u32, day: u32) -> (r: Option<Date>)
        ensures
            r == (if valid_ymd(year as int, month as int, day as int) {
                Some(Date { year, month, day })
            } else {
                None
            }),
    {
        let date = Date { year, month, day };
        if date.is_valid() {
            Some(date)
        } else {
            None
        }
    }

    /// Tests whether the date names a day of the calendar.
    pub fn is_valid(&self) -> (r: bool)
        ensures
            r == self.wf(),
    {
        if self.year < MIN_YEAR || self.year > MAX_YEAR || self.month < 1 || self.month > 12
            || self.day < 1 {
            return false;
        }
        let leap: bool = self.year % 4 == 0 && (self.year % 100 != 0 || self.year % 400 == 0);
        let days: u32 = if self.month == 2 {
            if leap {
                29
            } else {
                28
            }
        } else if self.month == 4 || self.month == 6 || self.month == 9 || self.month == 11 {
            30
        } else {
            31
        };
        self.day <= days
    }

    /// The date as `YYYY-MM-DD`. A year beyond four digits is written in
    /// full behind a plus sign, a year before the year 0 behind a minus sign
    /// with at least four digits.
    pub open spec fn text(self) -> Seq<char> {
        year_text(self.year as int) + seq!['-'] + padded(self.month as nat, 2) + seq!['-'] + padded(
            self.day as nat,
            2,
        )
    }

    /// Writes the date as `YYYY-MM-DD`.
    pub fn to_text(&self) -> (r: String)
        ensures
            r@ == self.text(),
    {
        proof {
            reveal_strlit("-");
            reveal_strlit("+");
            assert("-"@ =~= seq!['-']);
            assert("+"@ =~= seq!['+']);
        }
        let mut out: String = String::new();
        let year: i32 = self.year;
        if 0 <= year && year <= 9999 {
            push_padded(&mut out, year as u128, 4);
        } else if year < 0 {
            let positive: u128 = (-(year as i64)) as u128;
            out.append("-");
            if positive < 1000 {
                push_padded(&mut out, positive, 4);
            } else {
                push_digits(&mut out, positive);
            }
        } else {
            out.append("+");
            push_digits(&mut out, year as u128);
        }
        proof {
            assert(out@ =~= year_text(self.year as int));
        }
        out.append("-");
        push_padded(&mut out, self.month as u128, 2);
        out.append("-");
        push_padded(&mut out, self.day as u128, 2);
        out
    }

    /// Whether `self` is a strictly earlier day than `other`.
    pub open spec fn before(self, other: Date) -> bool {
        ||| self.year < other.year
        ||| self.year == other.year && self.month < other.month
        ||| self.year == other.year && self.month == other.month && self.day < other.day
    }

    /// Whether `self` is a strictly earlier day than `other`.
    pub fn is_before(&self, other: &Date) -> (r: bool)
        ensures
            r == self.before(*other),
    {
        if self.year != other.year {
            self.year < other.year
        } else if self.month != other.month {
            self.month < other.month
        } else {
            self.day < other.day
        }
    }
}

/// Reads a date written as year, month and day with hyphens between them.
///
/// Calls `chrono::NaiveDate::parse_from_str` with the format `%Y-%m-%d` and
/// hands back the year, month and day of the date it read. Trusted: the
/// outcome is the one named by [`chrono_ymd`]; a date that `chrono` accepts is
/// a day of the calendar; and on a text of the date shape `chrono` reads the
/// three numbers and accepts them exactly when they name such a day.
#[verifier::external_body]
pub fn parse_date(date_str: &str) -> (r: Result<Date, chrono::ParseError>)
    ensures
        r matches Ok(d) ==> chrono_ymd(date_str@) == Some(d.ymd()) && d.wf(),
        r is Err ==> chrono_ymd(date_str@) is None,
        is_date_shape(date_str@) ==> (match r {
            Ok(d) => shaped_ymd(date_str@) == Some(d.ymd()),
            Err(_) => shaped_ymd(date_str@) is None,
        }),
{
    let date = chrono::NaiveDate::parse_from_str(date_str, "%Y-%m-%d")?;
    Ok(Date {
        year: chrono::Datelike::year(&date),
        month: chrono::Datelike::month(&date),
        day: chrono::Datelike::day(&date),
    })
}

} // verus!
