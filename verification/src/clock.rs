//! The stamp that tells sessions apart: the local date and time of their start.

use crate::engine;
use crate::text;
use vstd::prelude::*;

verus! {

/// A date and a time of day.
#[derive(Clone, Copy, Debug, PartialEq, Eq, Structural)]
pub struct Moment {
    pub year: i32,
    pub month: u32,
    pub day: u32,
    pub hour: u32,
    pub minute: u32,
    pub second: u32,
}

/// Whether the year has a 29th of February.
pub open spec fn is_leap(year: int) -> bool {
    year % 4 == 0 && (year % 100 != 0 || year % 400 == 0)
}

/// The days of a month, or none where there is no such month.
pub open spec fn days_in(year: int, month: int) -> int {
    if month == 2 {
        if is_leap(year) {
            29
        } else {
            28
        }
    } else if month == 4 || month == 6 || month == 9 || month == 11 {
        30
    } else if 1 <= month <= 12 {
        31
    } else {
        0
    }
}

impl Moment {
    /// The date is in the calendar, as far as it is kept, and the time is on the clock.
    pub open spec fn is_real(self) -> bool {
        &&& -262_143 <= self.year <= 262_142
        &&& 1 <= self.day <= days_in(self.year as int, self.month as int)
        &&& self.hour < 24
        &&& self.minute < 60
        &&& self.second < 60
    }
}

/// `n` in decimal, with zeros in front up to `width` characters.
pub open spec fn padded(n: nat, width: nat) -> Seq<char> {
    Seq::new(
        if text::decimal(n).len() < width {
            (width - text::decimal(n).len()) as nat
        } else {
            0
        },
        |i: int| '0',
    ) + text::decimal(n)
}

/// A year: four digits, and a sign where they do not do.
pub open spec fn year_text(year: int) -> Seq<char> {
    if 0 <= year <= 9999 {
        padded(year as nat, 4)
    } else if year < 0 {
        seq!['-'] + padded((-year) as nat, 4)
    } else {
        seq!['+'] + padded(year as nat, 4)
    }
}

/// The stamp of a moment: year, month, day, a dash, hour, minute, second.
pub open spec fn stamp_text(t: Moment) -> Seq<char> {
    year_text(t.year as int) + padded(t.month as nat, 2) + padded(t.day as nat, 2) + seq!['-']
        + padded(t.hour as nat, 2) + padded(t.minute as nat, 2) + padded(t.second as nat, 2)
}

/// Formats a moment with `chrono::NaiveDateTime::format` and the pattern `%Y%m%d-%H%M%S`. The moment is
/// built with `NaiveDate::from_ymd_opt` and `NaiveDate::and_hms_opt`, which refuse dates and times that
/// do not exist; the pattern writes the year in four digits, signed outside 0 to 9999, and every other
/// field in two.
#[verifier::external_body]
fn format_moment(t: Moment) -> (r: Option<String>)
    ensures
        match r {
            Some(s) => t.is_real() && s@ == stamp_text(t),
            None => !t.is_real(),
        },
{
    let date = chrono::NaiveDate::from_ymd_opt(t.year, t.month, t.day)?;
    let moment = date.and_hms_opt(t.hour, t.minute, t.second)?;
    Some(moment.format("%Y%m%d-%H%M%S").to_string())
}

/// The stamp of a moment, or `None` where there is no such moment.
pub fn stamp(t: Moment) -> (r: Option<String>)
    ensures
        match r {
            Some(s) => t.is_real() && s@ == stamp_text(t),
            None => !t.is_real(),
        },
{
    format_moment(t)
}

/// `c` can stand in a stamp.
pub open spec fn is_stamp_char(c: char) -> bool {
    '0' <= c <= '9' || c == '-' || c == '+'
}

/// All characters can stand in a stamp.
pub open spec fn all_stamp_chars(s: Seq<char>) -> bool {
    forall|i: int| 0 <= i < s.len() ==> is_stamp_char(#[trigger] s[i])
}

/// A number with zeros in front is all digits.
proof fn lemma_padded_is_digits(n: nat, width: nat)
    ensures
        all_stamp_chars(padded(n, width)),
{
    text::law_decimal_reads_back(n, n);
    let s = padded(n, width);
    let zeros = s.len() - text::decimal(n).len();
    assert forall|i: int| 0 <= i < s.len() implies is_stamp_char(#[trigger] s[i]) by {
        if i >= zeros {
            assert(s[i] == text::decimal(n)[i - zeros]);
        }
    }
}

/// The files of a session are named after its start: the transcript is `transcript-<stamp>.txt`, and its
/// summary `summary-<stamp>.txt`.
pub proof fn law_session_files(t: Moment)
    ensures
        engine::summary_name("transcript-"@ + stamp_text(t) + ".txt"@) == "summary-"@ + stamp_text(t)
            + ".txt"@,
{
    lemma_padded_is_digits(t.year as nat, 4);
    lemma_padded_is_digits((-t.year) as nat, 4);
    lemma_padded_is_digits(t.month as nat, 2);
    lemma_padded_is_digits(t.day as nat, 2);
    lemma_padded_is_digits(t.hour as nat, 2);
    lemma_padded_is_digits(t.minute as nat, 2);
    lemma_padded_is_digits(t.second as nat, 2);
    let s = stamp_text(t);
    assert(all_stamp_chars(year_text(t.year as int)));
    assert(all_stamp_chars(s));
    reveal_strlit("transcript");
    assert forall|at: int| !text::occurs_at(s, "transcript"@, at) by {
        if text::occurs_at(s, "transcript"@, at) {
            assert(s.subrange(at, at + 10)[0] == 't');
            assert(is_stamp_char(s[at]));
        }
    }
    engine::law_summary_stands_beside(s);
}

/// A number below a hundred, written in two digits, says which number it is.
proof fn lemma_two_digits(a: nat)
    requires
        a < 100,
    ensures
        padded(a, 2).len() == 2,
        padded(a, 2)[0] as nat == '0' as nat + a / 10,
        padded(a, 2)[1] as nat == '0' as nat + a % 10,
{
    reveal_with_fuel(text::decimal, 2);
    assert(text::decimal(a).len() == if a < 10 {
        1nat
    } else {
        2nat
    });
}

/// A year of four digits or fewer, written in four digits, says which year it is.
proof fn lemma_four_digits(a: nat)
    requires
        a <= 9999,
    ensures
        padded(a, 4).len() == 4,
        padded(a, 4)[0] as nat == '0' as nat + a / 1000,
        padded(a, 4)[1] as nat == '0' as nat + a / 100 % 10,
        padded(a, 4)[2] as nat == '0' as nat + a / 10 % 10,
        padded(a, 4)[3] as nat == '0' as nat + a % 10,
{
    reveal_with_fuel(text::decimal, 4);
    assert(a / 10 / 10 == a / 100);
    assert(a / 10 / 10 / 10 == a / 1000);
}

/// A stamp tells sessions apart: year, month, day, a dash, hour, minute and second stand at their places,
/// and two moments with the same stamp are the same, for the years of four digits or fewer.
pub proof fn law_stamps_tell_moments_apart(a: Moment, b: Moment)
    requires
        a.is_real(),
        b.is_real(),
        0 <= a.year <= 9999,
        0 <= b.year <= 9999,
    ensures
        stamp_text(a).len() == 15,
        stamp_text(a)[8] == '-',
        stamp_text(a) == stamp_text(b) ==> a == b,
{
    let x = stamp_text(a);
    let y = stamp_text(b);
    lemma_four_digits(a.year as nat);
    lemma_four_digits(b.year as nat);
    lemma_two_digits(a.month as nat);
    lemma_two_digits(b.month as nat);
    lemma_two_digits(a.day as nat);
    lemma_two_digits(b.day as nat);
    lemma_two_digits(a.hour as nat);
    lemma_two_digits(b.hour as nat);
    lemma_two_digits(a.minute as nat);
    lemma_two_digits(b.minute as nat);
    lemma_two_digits(a.second as nat);
    lemma_two_digits(b.second as nat);
    if x == y {
        assert(x[0] == padded(a.year as nat, 4)[0] && y[0] == padded(b.year as nat, 4)[0]);
        assert(x[1] == padded(a.year as nat, 4)[1] && y[1] == padded(b.year as nat, 4)[1]);
        assert(x[2] == padded(a.year as nat, 4)[2] && y[2] == padded(b.year as nat, 4)[2]);
        assert(x[3] == padded(a.year as nat, 4)[3] && y[3] == padded(b.year as nat, 4)[3]);
        assert(x[4] == padded(a.month as nat, 2)[0] && y[4] == padded(b.month as nat, 2)[0]);
        assert(x[5] == padded(a.month as nat, 2)[1] && y[5] == padded(b.month as nat, 2)[1]);
        assert(x[6] == padded(a.day as nat, 2)[0] && y[6] == padded(b.day as nat, 2)[0]);
        assert(x[7] == padded(a.day as nat, 2)[1] && y[7] == padded(b.day as nat, 2)[1]);
        assert(x[9] == padded(a.hour as nat, 2)[0] && y[9] == padded(b.hour as nat, 2)[0]);
        assert(x[10] == padded(a.hour as nat, 2)[1] && y[10] == padded(b.hour as nat, 2)[1]);
        assert(x[11] == padded(a.minute as nat, 2)[0] && y[11] == padded(b.minute as nat, 2)[0]);
        assert(x[12] == padded(a.minute as nat, 2)[1] && y[12] == padded(b.minute as nat, 2)[1]);
        assert(x[13] == padded(a.second as nat, 2)[0] && y[13] == padded(b.second as nat, 2)[0]);
        assert(x[14] == padded(a.second as nat, 2)[1] && y[14] == padded(b.second as nat, 2)[1]);
        assert(a.year == b.year);
        assert(a.month == b.month && a.day == b.day);
        assert(a.hour == b.hour && a.minute == b.minute && a.second == b.second);
    }
}

} // verus!
