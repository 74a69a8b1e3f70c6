//! Wall-clock timestamps of log events: parsing, order, and the half-day
//! bucket an event falls into.

use crate::text::to_chars;
use chrono::{Datelike, Timelike};
use vstd::prelude::*;
use vstd::string::StringExecFns;

verus! {

/// A calendar date and time of day without a time zone.
///
/// A leap second is held as second 59 with a nanosecond of at least
/// 1,000,000,000.
#[derive(Clone, Copy, Debug, PartialEq, Eq, Structural)]
pub struct Timestamp {
    pub year: i32,
    pub month: u32,
    pub day: u32,
    pub hour: u32,
    pub minute: u32,
    pub second: u32,
    pub nanosecond: u32,
}

impl Timestamp {
    /// `self` is strictly later than `other`: the fields are compared from
    /// the year down to the nanosecond.
    pub open spec fn is_after(self, other: Timestamp) -> bool {
        if self.year != other.year {
            self.year > other.year
        } else if self.month != other.month {
            self.month > other.month
        } else if self.day != other.day {
            self.day > other.day
        } else if self.hour != other.hour {
            self.hour > other.hour
        } else if self.minute != other.minute {
            self.minute > other.minute
        } else if self.second != other.second {
            self.second > other.second
        } else {
            self.nanosecond > other.nanosecond
        }
    }

    /// The half of the day: morning up to and excluding noon.
    pub open spec fn is_morning(self) -> bool {
        self.hour < 12
    }

    /// The key under which an event at this time is counted: the date as
    /// `YYYY-MM-DD`, a space, and `AM` or `PM`.
    pub open spec fn bucket_label(self) -> Seq<char> {
        date_text(self.year as int, self.month as nat, self.day as nat) + seq![' '] + (
        if self.is_morning() {
            seq!['A', 'M']
        } else {
            seq!['P', 'M']
        })
    }

    /// Whether this timestamp is strictly later than `other`.
    pub fn later_than(&self, other: &Timestamp) -> (r: bool)
        ensures
            r == self.is_after(*other),
    {
        if self.year != other.year {
            self.year > other.year
        } else if self.month != other.month {
            self.month > other.month
        } else if self.day != other.day {
            self.day > other.day
        } else if self.hour != other.hour {
            self.hour > other.hour
        } else if self.minute != other.minute {
            self.minute > other.minute
        } else if self.second != other.second {
            self.second > other.second
        } else {
            self.nanosecond > other.nanosecond
        }
    }

    /// Renders [`Timestamp::bucket_label`].
    pub fn bucket(&self) -> (r: String)
        ensures
            r@ == self.bucket_label(),
    {
        let mut out = String::new();
        if self.year < 0 {
            out.append("-");
        } else if self.year > 9999 {
            out.append("+");
        }
        let magnitude: u64 = if self.year < 0 {
            (-(self.year as i64)) as u64
        } else {
            self.year as u64
        };
        append_decimal(&mut out, magnitude, 4);
        out.append("-");
        append_decimal(&mut out, self.month as u64, 2);
        out.append("-");
        append_decimal(&mut out, self.day as u64, 2);
        if self.hour < 12 {
            out.append(" AM");
        } else {
            out.append(" PM");
        }
        proof {
            reveal_strlit("-");
            reveal_strlit("+");
            reveal_strlit(" AM");
            reveal_strlit(" PM");
            assert(out@ =~= self.bucket_label());
        }
        out
    }
}

/// The character of a decimal digit.
pub open spec fn digit(d: int) -> char {
    if d == 0 {
        '0'
    } else if d == 1 {
        '1'
    } else if d == 2 {
        '2'
    } else if d == 3 {
        '3'
    } else if d == 4 {
        '4'
    } else if d == 5 {
        '5'
    } else if d == 6 {
        '6'
    } else if d == 7 {
        '7'
    } else if d == 8 {
        '8'
    } else {
        '9'
    }
}

/// `n` in decimal, with zeros in front up to `width` digits.
pub open spec fn padded_decimal(n: nat, width: nat) -> Seq<char>
    decreases n, width,
{
    if n < 10 && width <= 1 {
        seq![digit(n as int)]
    } else {
        padded_decimal(
            n / 10,
            if width > 0 {
                (width - 1) as nat
            } else {
                0
            },
        ) + seq![digit((n % 10) as int)]
    }
}

/// A year as a calendar date shows it: four digits from 0 to 9999, and a
/// sign before at least four digits outside that range.
pub open spec fn year_text(year: int) -> Seq<char> {
    if year < 0 {
        seq!['-'] + padded_decimal((-year) as nat, 4)
    } else if year > 9999 {
        seq!['+'] + padded_decimal(year as nat, 4)
    } else {
        padded_decimal(year as nat, 4)
    }
}

/// A date as `YYYY-MM-DD`.
pub open spec fn date_text(year: int, month: nat, day: nat) -> Seq<char> {
    year_text(year) + seq!['-'] + padded_decimal(month, 2) + seq!['-'] + padded_decimal(day, 2)
}

fn digit_text(d: u64) -> (r: &'static str)
    requires
        d < 10,
    ensures
        r@ == seq![digit(d as int)],
{
    proof {
        reveal_strlit("0");
        reveal_strlit("1");
        reveal_strlit("2");
        reveal_strlit("3");
        reveal_strlit("4");
        reveal_strlit("5");
        reveal_strlit("6");
        reveal_strlit("7");
        reveal_strlit("8");
        reveal_strlit("9");
    }
    let r = if d == 0 {
        "0"
    } else if d == 1 {
        "1"
    } else if d == 2 {
        "2"
    } else if d == 3 {
        "3"
    } else if d == 4 {
        "4"
    } else if d == 5 {
        "5"
    } else if d == 6 {
        "6"
    } else if d == 7 {
        "7"
    } else if d == 8 {
        "8"
    } else {
        "9"
    };
    assert(r@ =~= seq![digit(d as int)]);
    r
}

fn append_decimal(out: &mut String, n: u64, width: u32)
    ensures
        final(out)@ == old(out)@ + padded_decimal(n as nat, width as nat),
    decreases n, width,
{
    if n < 10 && width <= 1 {
        out.append(digit_text(n));
    } else {
        append_decimal(out, n / 10, if width > 0 { width - 1 } else { 0 });
        out.append(digit_text(n % 10));
    }
    assert(out@ =~= old(out)@ + padded_decimal(n as nat, width as nat));
}

/// The layout of an event's time in a log row: `YYYY/MM/DD HH:MM:SS` on a
/// 24-hour clock.
pub open spec fn event_time_format() -> Seq<char> {
    "%Y/%m/%d %H:%M:%S"@
}

/// What `chrono` reads out of `text` under the strftime pattern `format`:
/// the date and time when the text matches the pattern, nothing when it does
/// not.
pub uninterp spec fn parsed_datetime(text: Seq<char>, format: Seq<char>) -> Option<Timestamp>;

/// Calls `chrono::NaiveDateTime::parse_from_str` and copies the fields of
/// what it returns.
///
/// Believed, not proved: the outcome is a function of the two texts alone;
/// an error comes back as `None`.
#[verifier::external_body]
pub(crate) fn parse_datetime(text: &str, format: &str) -> (r: Option<Timestamp>)
    requires
        format@ == event_time_format(),
    ensures
        r == parsed_datetime(text@, format@),
{
    chrono::NaiveDateTime::parse_from_str(text, format).ok().map(
        |t| Timestamp {
            year: t.year(),
            month: t.month(),
            day: t.day(),
            hour: t.hour(),
            minute: t.minute(),
            second: t.second(),
            nanosecond: t.nanosecond(),
        },
    )
}

/// What may stand at position `i` of an event's time: a digit, but for the
/// two slashes, the space and the two colons.
pub open spec fn fits_layout(i: int, c: char) -> bool {
    if i == 4 || i == 7 {
        c == '/'
    } else if i == 10 {
        c == ' '
    } else if i == 13 || i == 16 {
        c == ':'
    } else {
        '0' <= c <= '9'
    }
}

/// `text` has exactly the shape `YYYY/MM/DD HH:MM:SS`: nineteen characters,
/// digits and separators each in their place.
pub open spec fn has_event_time_layout(text: Seq<char>) -> bool {
    &&& text.len() == 19
    &&& forall|i: int| 0 <= i < 19 ==> fits_layout(i, #[trigger] text[i])
}

/// The time of an event as its text gives it: nothing unless the text has
/// the exact layout and names a date and time that exist.
pub open spec fn event_time(text: Seq<char>) -> Option<Timestamp> {
    if has_event_time_layout(text) {
        parsed_datetime(text, event_time_format())
    } else {
        None
    }
}

/// Decides [`has_event_time_layout`].
pub fn check_event_time_layout(text: &str) -> (r: bool)
    ensures
        r == has_event_time_layout(text@),
{
    let chars = to_chars(text);
    if chars.len() != 19 {
        return false;
    }
    let mut i: usize = 0;
    while i < 19
        invariant
            i <= 19,
            chars@ == text@,
            chars@.len() == 19,
            forall|j: int| 0 <= j < i ==> fits_layout(j, #[trigger] chars@[j]),
        decreases 19 - i,
    {
        let c = chars[i];
        let fits = if i == 4 || i == 7 {
            c == '/'
        } else if i == 10 {
            c == ' '
        } else if i == 13 || i == 16 {
            c == ':'
        } else {
            '0' <= c && c <= '9'
        };
        if !fits {
            assert(!fits_layout(i as int, text@[i as int]));
            return false;
        }
        i += 1;
    }
    true
}

/// Reads the time of an event from a field of a log row.
pub fn parse_event_time(text: &str) -> (r: Option<Timestamp>)
    ensures
        r == event_time(text@),
{
    if check_event_time_layout(text) {
        parse_datetime(text, "%Y/%m/%d %H:%M:%S")
    } else {
        None
    }
}

} // verus!
