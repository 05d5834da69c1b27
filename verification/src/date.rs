//! Calendar dates, held as Julian day numbers. The calendar is that of the
//! `time` crate, which reads and writes the dates.

use vstd::prelude::*;
use vstd::string::StringExecFns;
use crate::decimal::{is_digit, str_eq, to_chars};
use crate::error::{parse_failure, CommandError, ErrorKind, ErrorView};

verus! {

/// The format of a date, in the notation of `time`'s format descriptions:
/// year, month and day, with hyphens between them.
pub const DATE_FORMAT: &'static str = "[year]-[month]-[day]";

/// The Julian day of the date that `time` reads from `text` under the format
/// description `format`; `None` where `time` rejects either of them.
pub uninterp spec fn time_parse_date(format: Seq<char>, text: Seq<char>) -> Option<int>;

/// The text that `time` writes for the date with the Julian day `julian_day`
/// under the format description `format`; `None` where `time` has no such
/// date, rejects the format, or cannot write the date under it.
pub uninterp spec fn time_format_date(format: Seq<char>, julian_day: int) -> Option<Seq<char>>;

/// Reads a date with `time::Date::parse`, under a format description that
/// `time::format_description::parse_owned` made from `format`, and hands back
/// the date's Julian day. `None` stands for an error of either call.
#[verifier::external_body]
fn parse_julian_day(format: &str, text: &str) -> (r: Option<i32>)
    ensures
        time_parse_date(format@, text@) == match r {
            Some(day) => Some(day as int),
            None => None,
        },
{
    let description = time::format_description::parse_owned::<2>(format).ok()?;
    let date = time::Date::parse(text, &description).ok()?;
    Some(date.to_julian_day())
}

/// Writes the date that `time::Date::from_julian_day` gives for `julian_day`
/// with `time::Date::format`, under a format description that
/// `time::format_description::parse_owned` made from `format`. `None` stands
/// for an error of any of the three calls.
#[verifier::external_body]
fn format_julian_day(format: &str, julian_day: i32) -> (r: Option<String>)
    ensures
        time_format_date(format@, julian_day as int) == match r {
            Some(text) => Some(text@),
            None => None,
        },
{
    let description = time::format_description::parse_owned::<2>(format).ok()?;
    let date = time::Date::from_julian_day(julian_day).ok()?;
    date.format(&description).ok()
}

/// A calendar date of the years 0000 to 9999. Dates are ordered as their days
/// are, and the days from one date to another are the difference of their
/// Julian day numbers.
#[derive(Clone, Copy, Debug, PartialEq, Eq, PartialOrd, Ord, Structural)]
pub struct Date {
    julian_day: i32,
}

impl View for Date {
    type V = int;

    /// The Julian day number of the date.
    closed spec fn view(&self) -> int {
        self.julian_day as int
    }
}

/// The date with the Julian day `julian_day`.
pub closed spec fn date_of(julian_day: int) -> Date {
    Date { julian_day: julian_day as i32 }
}

/// A date is the date of its Julian day.
pub proof fn lemma_date_of(date: Date)
    ensures
        date_of(date@) == date,
{
}

/// The date of a day number that fits 32 bits has that day number.
pub proof fn lemma_date_of_day(julian_day: int)
    requires
        i32::MIN <= julian_day <= i32::MAX,
    ensures
        date_of(julian_day)@ == julian_day,
{
}

/// The form of a date in text: four digits of the year, a hyphen, two digits
/// of the month, a hyphen, two digits of the day.
pub open spec fn is_date_shape(s: Seq<char>) -> bool {
    &&& s.len() == 10
    &&& s[4] == '-'
    &&& s[7] == '-'
    &&& forall|i: int| 0 <= i < 10 && i != 4 && i != 7 ==> is_digit(#[trigger] s[i])
}

/// Whether `text` is the text of the date with the Julian day `julian_day`:
/// it has the form of a date, `time` writes it for the day, and reads the
/// day from it.
pub open spec fn is_text_of(text: Seq<char>, julian_day: int) -> bool {
    &&& is_date_shape(text)
    &&& time_format_date(DATE_FORMAT@, julian_day) == Some(text)
    &&& time_parse_date(DATE_FORMAT@, text) == Some(julian_day)
}

/// Whether `julian_day` is the day of a date: a day that has a text.
pub open spec fn is_date(julian_day: int) -> bool {
    &&& i32::MIN <= julian_day <= i32::MAX
    &&& time_format_date(DATE_FORMAT@, julian_day) matches Some(text) && is_text_of(
        text,
        julian_day,
    )
}

/// The text of the date with the Julian day `julian_day`.
pub open spec fn date_text(julian_day: int) -> Seq<char> {
    time_format_date(DATE_FORMAT@, julian_day)->0
}

/// The message for text that is no date.
pub open spec fn invalid_date_message(s: Seq<char>) -> Seq<char> {
    "Invalid date '"@ + s + "'"@
}

/// Reads a date: the Julian day of the date of which `s` is the text.
pub open spec fn parse_date(s: Seq<char>) -> Result<int, ErrorView> {
    match time_parse_date(DATE_FORMAT@, s) {
        Some(day) if i32::MIN <= day <= i32::MAX && is_text_of(s, day) => Ok(day),
        _ => Err(parse_failure(invalid_date_message(s))),
    }
}

/// The nights from `start` to `end` as an unsigned 64-bit number: their
/// difference in days, which wraps around where `end` is before `start`.
pub open spec fn nights_between(start: int, end: int) -> nat {
    if end >= start {
        (end - start) as nat
    } else {
        (0x1_0000_0000_0000_0000 + (end - start)) as nat
    }
}

/// Reading the text of a date gives the date.
pub proof fn law_date_round_trip(julian_day: int)
    requires
        is_date(julian_day),
    ensures
        is_date_shape(date_text(julian_day)),
        parse_date(date_text(julian_day)) == Ok::<int, ErrorView>(julian_day),
{
}

/// A text that is read as a date is the text of that date, and has the form
/// of a date.
pub proof fn law_date_text(s: Seq<char>)
    ensures
        parse_date(s) matches Ok(day) ==> is_date(day) && date_text(day) == s && is_date_shape(s),
{
}

/// Whether the text has the form of a date.
pub fn has_date_shape(s: &str) -> (r: bool)
    ensures
        r == is_date_shape(s@),
{
    let chars = to_chars(s);
    if chars.len() != 10 {
        return false;
    }
    let mut i: usize = 0;
    while i < 10
        invariant
            i <= 10,
            chars@ == s@,
            chars@.len() == 10,
            forall|j: int|
                0 <= j < i ==> if j == 4 || j == 7 {
                    chars@[j] == '-'
                } else {
                    is_digit(chars@[j])
                },
        decreases 10 - i,
    {
        let c = chars[i];
        if i == 4 || i == 7 {
            if c != '-' {
                return false;
            }
        } else if !(c >= '0' && c <= '9') {
            assert(!is_digit(s@[i as int]));
            return false;
        }
        i += 1;
    }
    true
}

impl Date {
    #[verifier::type_invariant]
    spec fn has_text(self) -> bool {
        is_date(self.julian_day as int)
    }

    /// The date with the Julian day `julian_day`, if there is one.
    pub fn from_julian_day(julian_day: i32) -> (r: Option<Date>)
        ensures
            r is Some <==> is_date(julian_day as int),
            r matches Some(date) ==> date@ == julian_day,
    {
        let text = match format_julian_day(DATE_FORMAT, julian_day) {
            Some(text) => text,
            None => {
                return None;
            },
        };
        if !has_date_shape(text.as_str()) {
            return None;
        }
        match parse_julian_day(DATE_FORMAT, text.as_str()) {
            Some(day) => if day == julian_day {
                Some(Date { julian_day })
            } else {
                None
            },
            None => None,
        }
    }

    fn invalid(s: &str) -> (r: CommandError)
        ensures
            r@ == parse_failure(invalid_date_message(s@)),
    {
        let mut message = String::from_str("Invalid date '");
        message.append(s);
        message.append("'");
        CommandError::new(ErrorKind::Parse, message)
    }

    /// Reads a date from its text, of the form `YYYY-MM-DD`.
    pub fn from_str(s: &str) -> (r: Result<Date, CommandError>)
        ensures
            match parse_date(s@) {
                Ok(day) => r matches Ok(date) && date@ == day,
                Err(e) => r matches Err(err) && err@ == e,
            },
    {
        if !has_date_shape(s) {
            return Err(Self::invalid(s));
        }
        let julian_day = match parse_julian_day(DATE_FORMAT, s) {
            Some(day) => day,
            None => {
                return Err(Self::invalid(s));
            },
        };
        match format_julian_day(DATE_FORMAT, julian_day) {
            Some(text) => if str_eq(text.as_str(), s) {
                Ok(Date { julian_day })
            } else {
                Err(Self::invalid(s))
            },
            None => Err(Self::invalid(s)),
        }
    }

    /// The text of the date, of the form `YYYY-MM-DD`.
    pub fn to_string(&self) -> (r: String)
        ensures
            r@ == date_text(self@),
            is_date(self@),
    {
        proof {
            use_type_invariant(self);
        }
        match format_julian_day(DATE_FORMAT, self.julian_day) {
            Some(text) => text,
            None => String::new(),
        }
    }

    /// The Julian day number of the date.
    pub fn into_inner(self) -> (r: i32)
        ensures
            r == self@,
            is_date(self@),
    {
        proof {
            use_type_invariant(&self);
        }
        self.julian_day
    }

    /// Whether this date is before the other.
    pub fn is_before(&self, other: &Date) -> (r: bool)
        ensures
            r == (self@ < other@),
    {
        self.julian_day < other.julian_day
    }

    /// The days from this date to `end`; negative where `end` is earlier.
    pub fn days_until(&self, end: &Date) -> (r: i64)
        ensures
            r == end@ - self@,
    {
        end.julian_day as i64 - self.julian_day as i64
    }

    /// The nights from this date to `end`, as an unsigned number.
    pub fn nights_until(&self, end: &Date) -> (r: u64)
        ensures
            r == nights_between(self@, end@),
    {
        let days = self.days_until(end);
        if days >= 0 {
            days as u64
        } else {
            u64::MAX - ((-(days + 1)) as u64)
        }
    }
}

} // verus!
