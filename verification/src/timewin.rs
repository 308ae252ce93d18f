use crate::errors::ParseError;
use vstd::prelude::*;

verus! {

/// A wall-clock time of day, counted in minutes after midnight.
///
/// Times are validated once, at construction (`parse_time`); the window
/// evaluator below always receives already-validated values.
#[derive(Clone, Copy, Debug, PartialEq, Eq, Structural)]
pub struct TimeOfDay {
    pub minutes: u16,
}

impl TimeOfDay {
    /// A time of day lies strictly within one day.
    pub open spec fn wf(self) -> bool {
        self.minutes < 1440
    }
}

/// Whether the instant `now` lies inside the window `[start, end]`, both
/// endpoints inclusive. A window whose start lies after its end wraps past
/// midnight: it covers the evening from `start` and the morning up to `end`.
pub open spec fn in_window_spec(now: int, start: int, end: int) -> bool {
    if start <= end {
        start <= now <= end
    } else {
        now >= start || now <= end
    }
}

/// Decides whether `now` falls inside the window `[start, end]`.
pub fn in_window(now: TimeOfDay, start: TimeOfDay, end: TimeOfDay) -> (r: bool)
    ensures
        r == in_window_spec(now.minutes as int, start.minutes as int, end.minutes as int),
{
    if start.minutes <= end.minutes {
        start.minutes <= now.minutes && now.minutes <= end.minutes
    } else {
        now.minutes >= start.minutes || now.minutes <= end.minutes
    }
}

/// A window and its exact complement (the window with start and end
/// exchanged) are never both active at the same instant, except at the two
/// shared boundary points.
pub proof fn lemma_window_complement(now: int, start: int, end: int)
    ensures
        in_window_spec(now, start, end) && in_window_spec(now, end, start) ==> now == start
            || now == end,
{
}

/// An ASCII decimal digit.
pub open spec fn is_digit(c: char) -> bool {
    '0' <= c && c <= '9'
}

/// The numeric value of an ASCII decimal digit.
pub open spec fn digit_val(c: char) -> int {
    c as int - '0' as int
}

/// The exact grammar of a time string: five characters `HH:MM`, both parts
/// zero padded, with `HH < 24` and `MM < 60`.
pub open spec fn valid_time_str(s: Seq<char>) -> bool {
    &&& s.len() == 5
    &&& is_digit(s[0])
    &&& is_digit(s[1])
    &&& s[2] == ':'
    &&& is_digit(s[3])
    &&& is_digit(s[4])
    &&& digit_val(s[0]) * 10 + digit_val(s[1]) < 24
    &&& digit_val(s[3]) * 10 + digit_val(s[4]) < 60
}

/// The minutes after midnight that a valid time string denotes.
pub open spec fn time_str_minutes(s: Seq<char>) -> int {
    (digit_val(s[0]) * 10 + digit_val(s[1])) * 60 + digit_val(s[3]) * 10 + digit_val(s[4])
}

/// Reads an `HH:MM` string into a time of day. Succeeds exactly on strings
/// that match the grammar above; anything else is a `ParseError`.
pub fn parse_time(s: &str) -> (r: Result<TimeOfDay, ParseError>)
    ensures
        r is Ok <==> valid_time_str(s@),
        r is Ok ==> r->Ok_0.wf() && r->Ok_0.minutes as int == time_str_minutes(s@),
{
    if s.unicode_len() != 5 {
        return Err(ParseError);
    }
    let c0 = s.get_char(0);
    let c1 = s.get_char(1);
    let c2 = s.get_char(2);
    let c3 = s.get_char(3);
    let c4 = s.get_char(4);
    if c2 != ':' {
        return Err(ParseError);
    }
    let d0 = digit_of(c0);
    let d1 = digit_of(c1);
    let d3 = digit_of(c3);
    let d4 = digit_of(c4);
    match (d0, d1, d3, d4) {
        (Some(h1), Some(h0), Some(m1), Some(m0)) => {
            let hours: u16 = h1 as u16 * 10 + h0 as u16;
            let mins: u16 = m1 as u16 * 10 + m0 as u16;
            if hours < 24 && mins < 60 {
                Ok(TimeOfDay { minutes: hours * 60 + mins })
            } else {
                Err(ParseError)
            }
        },
        _ => Err(ParseError),
    }
}

/// The numeric value of an ASCII digit, or `None` for any other character.
fn digit_of(c: char) -> (r: Option<u8>)
    ensures
        r is Some <==> is_digit(c),
        r is Some ==> r->0 as int == digit_val(c) && r->0 < 10,
{
    let v = c as u32;
    if 48 <= v && v <= 57 {
        Some((v - 48) as u8)
    } else {
        None
    }
}

} // verus!
