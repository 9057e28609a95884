use vstd::prelude::*;

verus! {

/// The earliest year that chrono's `NaiveDate` can represent.
pub const MIN_YEAR: i32 = -262143;

/// The latest year that chrono's `NaiveDate` can represent.
pub const MAX_YEAR: i32 = 262142;

/// The byte `0`; the other digits follow it.
pub const ZERO: u8 = 48;

/// The byte `/`, between month, day and year.
pub const SLASH: u8 = 47;

/// The byte `+`, in front of a year past 9999.
pub const PLUS: u8 = 43;

/// The byte `-`, in front of a year before 0.
pub const MINUS: u8 = 45;

/// A day of the proleptic Gregorian calendar, as plain numbers.
#[derive(Clone, Copy, Debug, PartialEq, Eq, Structural)]
pub struct CalendarDate {
    pub year: i32,
    pub month: u32,
    pub day: u32,
}

pub open spec fn is_leap_year(year: int) -> bool {
    (year % 4 == 0 && year % 100 != 0) || year % 400 == 0
}

pub open spec fn days_in_month(year: int, month: int) -> int {
    if month == 2 {
        if is_leap_year(year) {
            29
        } else {
            28
        }
    } else if month == 4 || month == 6 || month == 9 || month == 11 {
        30
    } else {
        31
    }
}

impl CalendarDate {
    /// The date exists in the calendar and lies in the range that chrono handles.
    pub open spec fn wf(self) -> bool {
        &&& MIN_YEAR <= self.year <= MAX_YEAR
        &&& 1 <= self.month <= 12
        &&& 1 <= self.day <= days_in_month(self.year as int, self.month as int)
    }

    /// The date with the given fields, if it is one that `wf` admits.
    pub fn new(year: i32, month: u32, day: u32) -> (r: Option<CalendarDate>)
        ensures
            r matches Some(d) ==> d.year == year && d.month == month && d.day == day,
            r is Some <==> (CalendarDate { year, month, day }).wf(),
    {
        if year < MIN_YEAR || year > MAX_YEAR || month < 1 || month > 12 || day < 1 {
            return None;
        }
        let leap = (year % 4 == 0 && year % 100 != 0) || year % 400 == 0;
        let last: u32 = if month == 2 {
            if leap {
                29
            } else {
                28
            }
        } else if month == 4 || month == 6 || month == 9 || month == 11 {
            30
        } else {
            31
        };
        if day > last {
            None
        } else {
            Some(CalendarDate { year, month, day })
        }
    }
}

/// The ASCII digit for `n`, which is below ten.
pub open spec fn digit(n: nat) -> u8 {
    (ZERO + n) as u8
}

/// `n`, below one hundred, as exactly two digits.
pub open spec fn two_digits(n: nat) -> Seq<u8> {
    seq![digit(n / 10), digit(n % 10)]
}

/// `n` in decimal, without leading zeros.
pub open spec fn decimal(n: nat) -> Seq<u8>
    decreases n,
{
    if n < 10 {
        seq![digit(n)]
    } else {
        decimal(n / 10).push(digit(n % 10))
    }
}

/// `n` in decimal, padded with zeros to at least four digits.
pub open spec fn four_digits(n: nat) -> Seq<u8> {
    if n < 10000 {
        seq![digit(n / 1000), digit(n / 100 % 10), digit(n / 10 % 10), digit(n % 10)]
    } else {
        decimal(n)
    }
}

/// A year as chrono's `%Y` writes it: four digits for the years 0 to 9999, and
/// otherwise a sign followed by at least four digits.
pub open spec fn year_text(year: int) -> Seq<u8> {
    if 0 <= year <= 9999 {
        four_digits(year as nat)
    } else if year < 0 {
        seq![MINUS] + four_digits((-year) as nat)
    } else {
        seq![PLUS] + four_digits(year as nat)
    }
}

/// The date header of `d`: `MM/DD/YYYY`.
pub open spec fn stamp_of(d: CalendarDate) -> Seq<u8> {
    two_digits(d.month as nat) + seq![SLASH] + two_digits(d.day as nat) + seq![SLASH] + year_text(
        d.year as int,
    )
}

/// A byte that a date header may hold: a digit, `/`, `+` or `-`.
pub open spec fn is_stamp_byte(b: u8) -> bool {
    (ZERO <= b <= ZERO + 9) || b == SLASH || b == PLUS || b == MINUS
}

proof fn lemma_decimal_bytes(n: nat)
    ensures
        forall|i: int| 0 <= i < decimal(n).len() ==> is_stamp_byte(#[trigger] decimal(n)[i]),
    decreases n,
{
    if n >= 10 {
        lemma_decimal_bytes(n / 10);
        let s = decimal(n);
        assert(n % 10 < 10);
        assert forall|i: int| 0 <= i < s.len() implies is_stamp_byte(#[trigger] s[i]) by {
            if i < s.len() - 1 {
                assert(s[i] == decimal(n / 10)[i]);
            }
        }
    } else {
        assert(decimal(n)[0] == digit(n));
    }
}

/// Every byte of a date header is a digit, a slash or a sign, and the header
/// is not empty.
pub proof fn lemma_stamp_bytes(d: CalendarDate)
    requires
        d.wf(),
    ensures
        stamp_of(d).len() > 0,
        forall|i: int| 0 <= i < stamp_of(d).len() ==> is_stamp_byte(#[trigger] stamp_of(d)[i]),
{
    let y = d.year as int;
    let n: nat = if y < 0 {
        (-y) as nat
    } else {
        y as nat
    };
    lemma_decimal_bytes(n);
    assert(n >= 10000 ==> four_digits(n) == decimal(n));
    assert forall|i: int| 0 <= i < year_text(y).len() implies is_stamp_byte(
        #[trigger] year_text(y)[i],
    ) by {
        if 0 <= y <= 9999 {
        } else if y < 0 {
            assert(i > 0 ==> year_text(y)[i] == four_digits(n)[i - 1]);
        } else {
            assert(i > 0 ==> year_text(y)[i] == four_digits(n)[i - 1]);
        }
    }
    let s = stamp_of(d);
    assert forall|i: int| 0 <= i < s.len() implies is_stamp_byte(#[trigger] s[i]) by {
        if i >= 6 {
            assert(s[i] == year_text(y)[i - 6]);
        }
    }
}

/// Relies on chrono's `Local::now` and `DateTime::date_naive`: today's date in
/// the machine's time zone, as year, month and day. Month and day are those of a
/// `NaiveDate`, so they lie in their calendar ranges.
#[verifier::external_body]
fn local_today() -> (r: (i32, u32, u32))
    ensures
        1 <= r.1 <= 12,
        1 <= r.2 <= 31,
{
    let d = chrono::Local::now().date_naive();
    (chrono::Datelike::year(&d), chrono::Datelike::month(&d), chrono::Datelike::day(&d))
}

/// Relies on chrono's `NaiveDate::from_ymd_opt`, which accepts every date that
/// `wf` admits, and on its `format("%m/%d/%Y")`: month and day as two digits
/// each, the year as `%Y` writes it (`year_text`).
#[verifier::external_body]
fn format_mdy(d: CalendarDate) -> (r: Vec<u8>)
    requires
        d.wf(),
    ensures
        r@ == stamp_of(d),
{
    let n = chrono::NaiveDate::from_ymd_opt(d.year, d.month, d.day).unwrap();
    n.format("%m/%d/%Y").to_string().into_bytes()
}

/// The date header of `d`, as bytes.
pub fn date_stamp(d: CalendarDate) -> (r: Vec<u8>)
    requires
        d.wf(),
    ensures
        r@ == stamp_of(d),
{
    format_mdy(d)
}

/// Today's date header in the local time zone. `None` only where the clock
/// reports a day that chrono cannot rebuild as a calendar date.
pub fn today_stamp() -> (r: Option<Vec<u8>>)
    ensures
        r matches Some(s) ==> exists|d: CalendarDate| d.wf() && s@ == stamp_of(d),
{
    let (y, m, dd) = local_today();
    match CalendarDate::new(y, m, dd) {
        Some(d) => Some(date_stamp(d)),
        None => None,
    }
}

} // verus!
