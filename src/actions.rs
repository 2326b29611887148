//! Partial calendar dates: recognising them in free text and rendering them as archive paths.
use vstd::prelude::*;

use crate::text::{decimal, digit_value, is_digit, render_int, render_integer};

verus! {

/// The error returned when a piece of text is not a recognised date.
#[derive(Debug, Clone, Copy, PartialEq, Eq, Structural)]
pub struct InvalidDateError;

impl InvalidDateError {
    /// The message shown to the user.
    pub fn to_string(&self) -> (r: String)
        ensures
            r@ == "Invalid date format"@,
    {
        String::from_str("Invalid date format")
    }
}

/// A partial calendar date: a year, optionally a month, and optionally a day within that month.
/// Month and day are not checked against the calendar.
#[derive(Debug, Clone, Copy, PartialEq, Eq, Structural)]
pub struct NoteDate {
    pub year: i16,
    pub month: Option<i8>,
    pub day: Option<i8>,
}

/// The folder name used where the date leaves a component open.
pub open spec fn unclassified() -> Seq<char> {
    seq!['u', 'n', 'c', 'l', 'a', 's', 's', 'i', 'f', 'i', 'e', 'd']
}

/// The archive path of a date, relative to the archive root, with `/` between segments:
/// the year, then the two-digit month or `unclassified`, and, where a month is given, the
/// two-digit day or `unclassified`.
pub open spec fn date_path(d: NoteDate) -> Seq<char> {
    let year = render_int(d.year as int, 1);
    match d.month {
        Some(m) => match d.day {
            Some(dd) => year + seq!['/'] + render_int(m as int, 2) + seq!['/'] + render_int(
                dd as int,
                2,
            ),
            None => year + seq!['/'] + render_int(m as int, 2) + seq!['/'] + unclassified(),
        },
        None => year + seq!['/'] + unclassified(),
    }
}

/// The characters at `start .. start + n` of `s` are all ASCII digits.
pub open spec fn digits_at(s: Seq<char>, start: int, n: int) -> bool {
    forall|j: int| start <= j < start + n ==> is_digit(#[trigger] s[j])
}

/// The decimal value of the `n` characters of `s` from `start`.
pub open spec fn number_at(s: Seq<char>, start: int, n: nat) -> int
    decreases n,
{
    if n == 0 {
        0
    } else {
        number_at(s, start, (n - 1) as nat) * 10 + digit_value(s[start + n - 1])
    }
}

/// A separator between date components: any character but an ASCII digit.
pub open spec fn is_separator(c: char) -> bool {
    !is_digit(c)
}

/// `YYYY?MM?DD` over the whole text, where `?` is a separator.
pub open spec fn full_date_form(s: Seq<char>) -> bool {
    &&& s.len() == 10
    &&& digits_at(s, 0, 4)
    &&& is_separator(s[4])
    &&& digits_at(s, 5, 2)
    &&& is_separator(s[7])
    &&& digits_at(s, 8, 2)
}

/// `YYYY?MM` at the end of the text; the text may hold anything before it.
pub open spec fn year_month_form(s: Seq<char>) -> bool {
    let o = s.len() - 7;
    &&& s.len() >= 7
    &&& digits_at(s, o, 4)
    &&& is_separator(s[o + 4])
    &&& digits_at(s, o + 5, 2)
}

/// `YYYY` as the whole text.
pub open spec fn year_form(s: Seq<char>) -> bool {
    s.len() == 4 && digits_at(s, 0, 4)
}

/// The date that a text denotes, trying the full date first, then year and month, then the
/// year alone.
pub open spec fn parse_date(s: Seq<char>) -> Option<NoteDate> {
    if full_date_form(s) {
        Some(
            NoteDate {
                year: number_at(s, 0, 4) as i16,
                month: Some(number_at(s, 5, 2) as i8),
                day: Some(number_at(s, 8, 2) as i8),
            },
        )
    } else if year_month_form(s) {
        let o = s.len() - 7;
        Some(
            NoteDate {
                year: number_at(s, o, 4) as i16,
                month: Some(number_at(s, o + 5, 2) as i8),
                day: None,
            },
        )
    } else if year_form(s) {
        Some(NoteDate { year: number_at(s, 0, 4) as i16, month: None, day: None })
    } else {
        None
    }
}

/// Powers of ten.
pub open spec fn pow10(n: nat) -> nat
    decreases n,
{
    if n == 0 {
        1
    } else {
        10 * pow10((n - 1) as nat)
    }
}

pub(crate) proof fn lemma_pow10_values()
    ensures
        pow10(2) == 100,
        pow10(3) == 1000,
        pow10(4) == 10000,
{
    assert(pow10(0) == 1);
    assert(pow10(1) == 10);
    assert(pow10(2) == 100);
    assert(pow10(3) == 1000);
    assert(pow10(4) == 10000);
}

/// The value of `n` decimal digits never reaches `10^n`.
pub(crate) proof fn lemma_number_at_bound(s: Seq<char>, start: int, n: nat)
    requires
        digits_at(s, start, n as int),
    ensures
        0 <= number_at(s, start, n) < pow10(n),
    decreases n,
{
    if n > 0 {
        lemma_number_at_bound(s, start, (n - 1) as nat);
        let v = number_at(s, start, (n - 1) as nat);
        let d = digit_value(s[start + n - 1]);
        let p = pow10((n - 1) as nat);
        assert(0 <= d <= 9);
        assert(v * 10 + d < 10 * p) by (nonlinear_arith)
            requires
                0 <= v < p,
                0 <= d <= 9,
        ;
        assert(0 <= v * 10 + d) by (nonlinear_arith)
            requires
                0 <= v,
                0 <= d,
        ;
    }
}

/// Reading more digits never gives a smaller value.
pub(crate) proof fn lemma_number_at_mono(s: Seq<char>, start: int, k: nat, n: nat)
    requires
        digits_at(s, start, n as int),
        k <= n,
    ensures
        number_at(s, start, k) <= number_at(s, start, n),
    decreases n,
{
    if k < n {
        lemma_number_at_mono(s, start, k, (n - 1) as nat);
        lemma_number_at_bound(s, start, (n - 1) as nat);
        assert(0 <= digit_value(s[start + n - 1]));
    }
}

/// The value of the `n` characters of `s` from `start`, if they are all digits.
fn read_digits(s: &str, start: usize, n: usize) -> (r: Option<u32>)
    requires
        start + n <= s@.len() <= usize::MAX,
        n <= 4,
    ensures
        r is Some <==> digits_at(s@, start as int, n as int),
        r is Some ==> r->0 as int == number_at(s@, start as int, n as nat),
{
    let mut v: u32 = 0;
    let mut k: usize = 0;
    while k < n
        invariant
            k <= n,
            n <= 4,
            start + n <= s@.len() <= usize::MAX,
            digits_at(s@, start as int, k as int),
            v as int == number_at(s@, start as int, k as nat),
            v < pow10(k as nat),
        decreases n - k,
    {
        let c = s.get_char(start + k);
        if !('0' <= c && c <= '9') {
            return None;
        }
        let ghost p = pow10(k as nat);
        proof {
            lemma_pow10_values();
        }
        assert(p <= pow10(3)) by {
            if k == 0 {
            } else if k == 1 {
            } else if k == 2 {
            } else {
                assert(k == 3);
            }
        }
        let d = (c as u32) - ('0' as u32);
        assert(v * 10 + d < 10 * p) by (nonlinear_arith)
            requires
                v < p,
                d <= 9,
        ;
        v = v * 10 + d;
        k = k + 1;
    }
    Some(v)
}

/// Four digits alone are read as a year with neither month nor day; the date's path is that
/// year followed by the `unclassified` folder.
pub proof fn lemma_year_text(s: Seq<char>)
    requires
        s.len() == 4,
        digits_at(s, 0, 4),
    ensures
        parse_date(s) == Some(NoteDate { year: number_at(s, 0, 4) as i16, month: None, day: None }),
        date_path(parse_date(s)->0) == render_int(number_at(s, 0, 4), 1) + seq!['/']
            + unclassified(),
{
    lemma_pow10_values();
    lemma_number_at_bound(s, 0, 4);
}

/// Four digits, a separator and two digits are read as year and month; the date's path is
/// `{year}/{month:02}/unclassified`.
pub proof fn lemma_year_month_text(s: Seq<char>)
    requires
        s.len() == 7,
        digits_at(s, 0, 4),
        is_separator(s[4]),
        digits_at(s, 5, 2),
    ensures
        parse_date(s) == Some(
            NoteDate {
                year: number_at(s, 0, 4) as i16,
                month: Some(number_at(s, 5, 2) as i8),
                day: None,
            },
        ),
        date_path(parse_date(s)->0) == render_int(number_at(s, 0, 4), 1) + seq!['/'] + render_int(
            number_at(s, 5, 2),
            2,
        ) + seq!['/'] + unclassified(),
{
    lemma_pow10_values();
    lemma_number_at_bound(s, 0, 4);
    lemma_number_at_bound(s, 5, 2);
}

/// Year, month and day with separators are read as a full date; the date's path is
/// `{year}/{month:02}/{day:02}`.
pub proof fn lemma_full_date_text(s: Seq<char>)
    requires
        full_date_form(s),
    ensures
        parse_date(s) == Some(
            NoteDate {
                year: number_at(s, 0, 4) as i16,
                month: Some(number_at(s, 5, 2) as i8),
                day: Some(number_at(s, 8, 2) as i8),
            },
        ),
        date_path(parse_date(s)->0) == render_int(number_at(s, 0, 4), 1) + seq!['/'] + render_int(
            number_at(s, 5, 2),
            2,
        ) + seq!['/'] + render_int(number_at(s, 8, 2), 2),
{
    lemma_pow10_values();
    lemma_number_at_bound(s, 0, 4);
    lemma_number_at_bound(s, 5, 2);
    lemma_number_at_bound(s, 8, 2);
}

/// The path of a date depends on the date alone: equal dates are filed under the same path.
pub proof fn lemma_path_deterministic(a: NoteDate, b: NoteDate)
    requires
        a == b,
    ensures
        date_path(a) == date_path(b),
{
}

impl NoteDate {
    /// A date that gives the year alone.
    pub fn year_only(year: i16) -> (r: NoteDate)
        ensures
            r == (NoteDate { year, month: None, day: None }),
    {
        NoteDate { year, month: None, day: None }
    }

    /// A date that gives year and month.
    pub fn year_month(year: i16, month: i8) -> (r: NoteDate)
        ensures
            r == (NoteDate { year, month: Some(month), day: None }),
    {
        NoteDate { year, month: Some(month), day: None }
    }

    /// A date that gives year, month and day.
    pub fn full_date(year: i16, month: i8, day: i8) -> (r: NoteDate)
        ensures
            r == (NoteDate { year, month: Some(month), day: Some(day) }),
    {
        NoteDate { year, month: Some(month), day: Some(day) }
    }

    /// The archive path of this date, relative to the archive root.
    pub fn to_path(&self) -> (r: String)
        ensures
            r@ == date_path(*self),
    {
        proof {
            reveal_strlit("/");
            reveal_strlit("unclassified");
        }
        assert("unclassified"@ =~= unclassified());
        let mut path = render_integer(self.year as i64, 1);
        path = path.concat("/");
        match self.month {
            Some(month) => {
                path = path.concat(render_integer(month as i64, 2).as_str());
                path = path.concat("/");
                match self.day {
                    Some(day) => {
                        path = path.concat(render_integer(day as i64, 2).as_str());
                    },
                    None => {
                        path = path.concat("unclassified");
                    },
                }
            },
            None => {
                path = path.concat("unclassified");
            },
        }
        assert(path@ =~= date_path(*self));
        path
    }

    /// Recognises a date in `date`: `YYYY?MM?DD` as the whole text, else `YYYY?MM` at its end,
    /// else `YYYY` as the whole text, where `?` is any character but a digit.
    pub fn validate(date: &str) -> (r: Result<NoteDate, InvalidDateError>)
        ensures
            r == match parse_date(date@) {
                Some(d) => Ok(d),
                None => Err(InvalidDateError),
            },
    {
        let len = date.unicode_len();
        let ghost s = date@;
        if len == 10 {
            let y = read_digits(date, 0, 4);
            let m = read_digits(date, 5, 2);
            let d = read_digits(date, 8, 2);
            let c1 = date.get_char(4);
            let c2 = date.get_char(7);
            if let (Some(y), Some(m), Some(d)) = (y, m, d) {
                if !('0' <= c1 && c1 <= '9') && !('0' <= c2 && c2 <= '9') {
                    proof {
                        lemma_pow10_values();
                        lemma_number_at_bound(s, 0, 4);
                        lemma_number_at_bound(s, 5, 2);
                        lemma_number_at_bound(s, 8, 2);
                    }
                    return Ok(NoteDate::full_date(y as i16, m as i8, d as i8));
                }
            }
        }
        if len >= 7 {
            let o = len - 7;
            let y = read_digits(date, o, 4);
            let m = read_digits(date, o + 5, 2);
            let c = date.get_char(o + 4);
            if let (Some(y), Some(m)) = (y, m) {
                if !('0' <= c && c <= '9') {
                    proof {
                        lemma_pow10_values();
                        lemma_number_at_bound(s, o as int, 4);
                        lemma_number_at_bound(s, o + 5, 2);
                    }
                    return Ok(NoteDate::year_month(y as i16, m as i8));
                }
            }
        }
        if len == 4 {
            if let Some(y) = read_digits(date, 0, 4) {
                proof {
                    lemma_pow10_values();
                    lemma_number_at_bound(s, 0, 4);
                }
                return Ok(NoteDate::year_only(y as i16));
            }
        }
        Err(InvalidDateError)
    }
}

} // verus!
