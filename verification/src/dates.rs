//! Calendar dates, as day counts.

use vstd::prelude::*;
use crate::text::padded;

verus! {

/// The years that a date can have.
pub const FIRST_YEAR: i32 = -262143;
pub const LAST_YEAR: i32 = 262142;

/// Whether a year of the Gregorian calendar is a leap year.
pub open spec fn leap_year(year: int) -> bool {
    year % 4 == 0 && (year % 100 != 0 || year % 400 == 0)
}

/// The number of days of a month.
pub open spec fn month_length(year: int, month: int) -> int {
    if month == 2 {
        if leap_year(year) {
            29
        } else {
            28
        }
    } else if month == 4 || month == 6 || month == 9 || month == 11 {
        30
    } else {
        31
    }
}

/// The number of days of a year before a month.
pub open spec fn days_before_month(year: int, month: int) -> int
    decreases month,
{
    if month <= 1 {
        0
    } else {
        days_before_month(year, month - 1) + month_length(year, month - 1)
    }
}

/// The days from the first day of year 1 to the first day of a year.
pub open spec fn days_before_year(year: int) -> int {
    365 * (year - 1) + (year - 1) / 4 - (year - 1) / 100 + (year - 1) / 400
}

/// Whether a year, month and day name a date.
pub open spec fn is_date(year: int, month: int, day: int) -> bool {
    FIRST_YEAR <= year <= LAST_YEAR && 1 <= month <= 12 && 1 <= day <= month_length(year, month)
}

/// The number of a date: days since the first of January 1970.
pub open spec fn day_number(year: int, month: int, day: int) -> int {
    days_before_year(year) + days_before_month(year, month) + day - 719_163
}

/// The day counts that stand for a date.
pub const FIRST_DAY: i32 = -96_465_292;
pub const LAST_DAY: i32 = 95_026_236;

/// Whether a day count stands for a date.
pub open spec fn is_day(days: int) -> bool {
    FIRST_DAY <= days <= LAST_DAY
}

/// Whether one year, month and day come before another.
pub open spec fn earlier(a: (int, int, int), b: (int, int, int)) -> bool {
    a.0 < b.0 || (a.0 == b.0 && (a.1 < b.1 || (a.1 == b.1 && a.2 < b.2)))
}

proof fn lemma_quotient_step(year: int, d: int)
    requires
        d == 4 || d == 100 || d == 400,
    ensures
        year / d == (year - 1) / d + if year % d == 0 {
            1int
        } else {
            0int
        },
{
    let q = (year - 1) / d;
    let r = (year - 1) % d;
    assert(year - 1 == d * q + r && 0 <= r < d) by (nonlinear_arith)
        requires
            d > 0,
            q == (year - 1) / d,
            r == (year - 1) % d,
    ;
    if r + 1 < d {
        vstd::arithmetic::div_mod::lemma_fundamental_div_mod_converse(year, d, q, r + 1);
    } else {
        assert(d * q + d == d * (q + 1)) by (nonlinear_arith);
        vstd::arithmetic::div_mod::lemma_fundamental_div_mod_converse(year, d, q + 1, 0);
    }
}

proof fn lemma_year_step(year: int)
    ensures
        days_before_year(year + 1) == days_before_year(year) + if leap_year(year) {
            366int
        } else {
            365int
        },
{
    lemma_quotient_step(year, 4);
    lemma_quotient_step(year, 100);
    lemma_quotient_step(year, 400);
    assert(year % 400 == 0 ==> year % 100 == 0);
    assert(year % 100 == 0 ==> year % 4 == 0);
}

proof fn lemma_years_increase(a: int, b: int)
    requires
        a <= b,
    ensures
        days_before_year(b) >= days_before_year(a) + 365 * (b - a),
    decreases b - a,
{
    if a < b {
        lemma_years_increase(a, b - 1);
        lemma_year_step(b - 1);
    }
}

proof fn lemma_months_increase(year: int, a: int, b: int)
    requires
        1 <= a < b,
    ensures
        days_before_month(year, b) >= days_before_month(year, a) + month_length(year, a),
    decreases b - a,
{
    if a + 1 < b {
        lemma_months_increase(year, a, b - 1);
    }
}

proof fn lemma_year_length(year: int)
    ensures
        days_before_month(year, 12) + 31 == if leap_year(year) {
            366int
        } else {
            365int
        },
{
    reveal_with_fuel(days_before_month, 13);
}

proof fn lemma_day_of_year(year: int, month: int, day: int)
    requires
        is_date(year, month, day),
    ensures
        1 <= days_before_month(year, month) + day,
        days_before_year(year) + days_before_month(year, month) + day <= days_before_year(year + 1),
{
    lemma_year_step(year);
    lemma_year_length(year);
    if month < 12 {
        lemma_months_increase(year, month, 12);
    }
    if month > 1 {
        lemma_months_increase(year, 1, month);
    }
}

/// Day counts follow the calendar: an earlier date has a smaller count.
pub proof fn day_numbers_follow_the_calendar(a: (int, int, int), b: (int, int, int))
    requires
        is_date(a.0, a.1, a.2),
        is_date(b.0, b.1, b.2),
        earlier(a, b),
    ensures
        day_number(a.0, a.1, a.2) < day_number(b.0, b.1, b.2),
{
    if a.0 < b.0 {
        lemma_day_of_year(a.0, a.1, a.2);
        lemma_day_of_year(b.0, b.1, b.2);
        lemma_years_increase(a.0 + 1, b.0);
    } else if a.1 < b.1 {
        lemma_months_increase(a.0, a.1, b.1);
    }
}

pub proof fn lemma_day_range(year: int, month: int, day: int)
    requires
        is_date(year, month, day),
    ensures
        is_day(day_number(year, month, day)),
{
    reveal_with_fuel(days_before_month, 13);
    let first = (FIRST_YEAR as int, 1int, 1int);
    let last = (LAST_YEAR as int, 12int, 31int);
    assert(day_number(first.0, first.1, first.2) == FIRST_DAY);
    assert(day_number(last.0, last.1, last.2) == LAST_DAY);
    let it = (year, month, day);
    if it != first {
        day_numbers_follow_the_calendar(first, it);
    }
    if it != last {
        day_numbers_follow_the_calendar(it, last);
    }
}

/// The day before the first of a month is the last day of the month before.
pub proof fn lemma_month_end(year: int, month: int)
    requires
        1 <= month <= 12,
    ensures
        day_number(year, month, month_length(year, month)) + 1 == if month == 12 {
            day_number(year + 1, 1, 1)
        } else {
            day_number(year, month + 1, 1)
        },
{
    lemma_year_step(year);
    lemma_year_length(year);
}

/// The year, month and day that a day count stands for.
pub open spec fn civil(days: int) -> (int, int, int) {
    choose|c: (int, int, int)| #[trigger] is_date(c.0, c.1, c.2) && day_number(c.0, c.1, c.2) == days
}

/// Each date has its own count, so a count gives the date back.
pub proof fn a_day_number_names_one_date(year: int, month: int, day: int)
    requires
        is_date(year, month, day),
    ensures
        civil(day_number(year, month, day)) == (year, month, day),
{
    let it = (year, month, day);
    let days = day_number(year, month, day);
    assert(is_date(it.0, it.1, it.2));
    let c = civil(days);
    assert(is_date(c.0, c.1, c.2) && day_number(c.0, c.1, c.2) == days);
    if c != it {
        if earlier(c, it) {
            day_numbers_follow_the_calendar(c, it);
        } else {
            day_numbers_follow_the_calendar(it, c);
        }
    }
}

proof fn lemma_date_of(days: int) -> (c: (int, int, int))
    requires
        is_day(days),
    ensures
        is_date(c.0, c.1, c.2),
        day_number(c.0, c.1, c.2) == days,
    decreases days - FIRST_DAY,
{
    if days == FIRST_DAY {
        reveal_with_fuel(days_before_month, 13);
        (FIRST_YEAR as int, 1int, 1int)
    } else {
        let c = lemma_date_of(days - 1);
        if c.2 < month_length(c.0, c.1) {
            (c.0, c.1, c.2 + 1)
        } else if c.1 < 12 {
            (c.0, c.1 + 1, 1)
        } else {
            lemma_year_step(c.0);
            lemma_year_length(c.0);
            if c.0 == LAST_YEAR {
                reveal_with_fuel(days_before_month, 13);
                assert(day_number(c.0, c.1, c.2) == LAST_DAY);
            }
            (c.0 + 1, 1, 1)
        }
    }
}

/// Every day count in range stands for a date.
pub proof fn lemma_civil(days: int)
    requires
        is_day(days),
    ensures
        is_date(civil(days).0, civil(days).1, civil(days).2),
        day_number(civil(days).0, civil(days).1, civil(days).2) == days,
{
    let c = lemma_date_of(days);
    assert(is_date(c.0, c.1, c.2) && day_number(c.0, c.1, c.2) == days);
}

/// A date as text: year, month and day with hyphens. A year outside 0 to 9999
/// has a sign and at least four digits.
pub open spec fn date_text(year: int, month: int, day: int) -> Seq<char> {
    let years = if 0 <= year <= 9999 {
        padded(year as nat, 4)
    } else if year < 0 {
        seq!['-'] + padded((-year) as nat, 4)
    } else {
        seq!['+'] + padded(year as nat, 4)
    };
    years.push('-') + padded(month as nat, 2).push('-') + padded(day as nat, 2)
}

/// What `NaiveDate::parse_from_str` of chrono reads from a text by the pattern
/// `%Y-%m-%d`: a day count, or the message of the error.
pub uninterp spec fn date_read(text: Seq<char>) -> Result<i32, Seq<char>>;

/// What polars makes of a text where it casts a column of texts to dates: a day count,
/// or nothing.
pub uninterp spec fn day_cast(text: Seq<char>) -> Option<i32>;

/// Whether a text that [`date_text`] gives for a date of the years 0 to 9999 was cast
/// to that date.
pub open spec fn casts_written_dates(text: Seq<char>, cast: Option<i32>) -> bool {
    forall|year: int, month: int, day: int|
        0 <= year <= 9999 && is_date(year, month, day) && text == #[trigger] date_text(
            year,
            month,
            day,
        ) ==> (cast matches Some(days) && days == day_number(year, month, day))
}

/// `utf8_to_naive_date_scalar` of polars_compute, which polars casts each text of a
/// column to a date with: a function of the text alone. A text that [`date_text`]
/// gives for a date of the years 0 to 9999 is cast to that date.
#[verifier::external_body]
pub(crate) fn cast_day(text: &str) -> (r: Option<i32>)
    ensures
        r == day_cast(text@),
        casts_written_dates(text@, r),
{
    polars::polars_compute::cast::temporal::utf8_to_naive_date_scalar(text)
}

/// `NaiveDate::from_ymd_opt` of chrono, the date turned into a day count by
/// `NaiveDate::to_epoch_days`: a year, month and day that name a date give its
/// count, and others give nothing.
#[verifier::external_body]
fn from_ymd_opt(year: i32, month: u32, day: u32) -> (r: Option<i32>)
    ensures
        match r {
            Some(days) => is_date(year as int, month as int, day as int) && days == day_number(
                year as int,
                month as int,
                day as int,
            ),
            None => !is_date(year as int, month as int, day as int),
        },
{
    chrono::NaiveDate::from_ymd_opt(year, month, day).map(|d| d.to_epoch_days())
}

/// `NaiveDate::from_epoch_days` of chrono, the date turned into its year, month
/// and day: a count in range stands for a date, which has that count.
#[verifier::external_body]
fn from_epoch_days(days: i32) -> (r: Option<(i32, u32, u32)>)
    ensures
        match r {
            Some(c) => is_day(days as int) && is_date(c.0 as int, c.1 as int, c.2 as int)
                && day_number(c.0 as int, c.1 as int, c.2 as int) == days,
            None => !is_day(days as int),
        },
{
    chrono::NaiveDate::from_epoch_days(days).map(
        |d| (chrono::Datelike::year(&d), chrono::Datelike::month(&d), chrono::Datelike::day(&d)),
    )
}

/// `NaiveDate::format` of chrono with the pattern `%Y-%m-%d`, on the date that
/// `NaiveDate::from_epoch_days` makes of a day count in range.
#[verifier::external_body]
fn format_days(days: i32) -> (r: String)
    requires
        is_day(days as int),
    ensures
        r@ == date_text(civil(days as int).0, civil(days as int).1, civil(days as int).2),
{
    chrono::NaiveDate::from_epoch_days(days).unwrap().format("%Y-%m-%d").to_string()
}

/// Whether a text that [`date_text`] gives for a date of the years 0 to 9999 was
/// read as that date.
pub open spec fn reads_written_dates(text: Seq<char>, read: Result<i32, String>) -> bool {
    forall|year: int, month: int, day: int|
        0 <= year <= 9999 && is_date(year, month, day) && text == #[trigger] date_text(
            year,
            month,
            day,
        ) ==> (read matches Ok(days) && days == day_number(year, month, day))
}

/// `NaiveDate::parse_from_str` of chrono with the pattern `%Y-%m-%d`, the date
/// turned into a day count: a function of the text alone. A text that
/// [`date_text`] gives for a date of the years 0 to 9999 is read as that date.
#[verifier::external_body]
fn parse_from_str(text: &str) -> (r: Result<i32, String>)
    ensures
        match r {
            Ok(days) => date_read(text@) == Ok::<i32, Seq<char>>(days) && is_day(days as int),
            Err(message) => date_read(text@) == Err::<i32, Seq<char>>(message@),
        },
        reads_written_dates(text@, r),
{
    chrono::NaiveDate::parse_from_str(text, "%Y-%m-%d").map(|d| d.to_epoch_days()).map_err(
        |e| e.to_string(),
    )
}

/// A calendar date.
#[derive(Clone, Copy, Debug, PartialEq, Eq, PartialOrd, Ord, Hash, Structural)]
pub struct Date {
    days: i32,
}

impl View for Date {
    type V = int;

    closed spec fn view(&self) -> int {
        self.days as int
    }
}

impl Date {
    /// Every date is within the years that dates can have.
    #[verifier::type_invariant]
    closed spec fn in_range(self) -> bool {
        is_day(self.days as int)
    }

    /// The date of a year, month and day, if they name one.
    pub fn from_ymd(year: i32, month: u32, day: u32) -> (r: Option<Date>)
        ensures
            match r {
                Some(date) => is_date(year as int, month as int, day as int) && date@ == day_number(
                    year as int,
                    month as int,
                    day as int,
                ),
                None => !is_date(year as int, month as int, day as int),
            },
    {
        match from_ymd_opt(year, month, day) {
            Some(days) => {
                proof {
                    lemma_day_range(year as int, month as int, day as int);
                }
                Some(Date { days })
            },
            None => None,
        }
    }

    /// The date with a day count, if the count is in range.
    pub fn from_days(days: i32) -> (r: Option<Date>)
        ensures
            match r {
                Some(date) => is_day(days as int) && date@ == days,
                None => !is_day(days as int),
            },
    {
        if FIRST_DAY <= days && days <= LAST_DAY {
            Some(Date { days })
        } else {
            None
        }
    }

    /// The day before.
    pub fn day_before(&self) -> (r: Date)
        requires
            is_day(self@ - 1),
        ensures
            r@ == self@ - 1,
    {
        Date { days: self.days - 1 }
    }

    /// The day count.
    pub fn days(&self) -> (r: i32)
        ensures
            r == self@,
            is_day(r as int),
    {
        proof {
            use_type_invariant(self);
        }
        self.days
    }

    /// The year, month and day.
    pub fn ymd(&self) -> (r: (i32, u32, u32))
        ensures
            (r.0 as int, r.1 as int, r.2 as int) == civil(self@),
            is_date(r.0 as int, r.1 as int, r.2 as int),
            day_number(r.0 as int, r.1 as int, r.2 as int) == self@,
    {
        proof {
            use_type_invariant(self);
        }
        match from_epoch_days(self.days) {
            Some(c) => {
                proof {
                    a_day_number_names_one_date(c.0 as int, c.1 as int, c.2 as int);
                }
                c
            },
            None => (0, 0, 0),
        }
    }

    /// The date as text, such as `2026-03-15`.
    pub fn text(&self) -> (r: String)
        ensures
            r@ == text_of(self@),
    {
        proof {
            use_type_invariant(self);
        }
        format_days(self.days)
    }

    /// The date that a text names, or what is wrong with it.
    pub fn read(text: &str) -> (r: Result<Date, String>)
        ensures
            match r {
                Ok(date) => date_read(text@) == Ok::<i32, Seq<char>>(date@ as i32)
                    && is_day(date@),
                Err(message) => date_read(text@) == Err::<i32, Seq<char>>(message@),
            },
            forall|days: int|
                is_day(days) && 0 <= civil(days).0 <= 9999 && text@ == #[trigger] text_of(days)
                    ==> (r matches Ok(date) && date@ == days),
    {
        let r = parse_from_str(text);
        proof {
            assert forall|days: int|
                is_day(days) && 0 <= civil(days).0 <= 9999 && text@ == #[trigger] text_of(
                    days,
                ) implies (r matches Ok(n) && n == days) by {
                lemma_civil(days);
                let c = civil(days);
                assert(text@ == date_text(c.0, c.1, c.2));
            }
        }
        match r {
            Ok(days) => Ok(Date { days }),
            Err(message) => Err(message),
        }
    }
}

/// The text of a date.
pub open spec fn text_of(days: int) -> Seq<char> {
    date_text(civil(days).0, civil(days).1, civil(days).2)
}

/// What the dates of a list say.
pub open spec fn days_of(list: Seq<Date>) -> Seq<int> {
    Seq::new(list.len(), |i: int| list[i]@)
}

/// Whether dates stand in strictly increasing order, so that none occurs twice.
pub open spec fn days_increase(list: Seq<int>) -> bool {
    forall|i: int, j: int| 0 <= i < j < list.len() ==> (#[trigger] list[i]) < (#[trigger] list[j])
}

/// Put a date into a sorted list without repetitions, unless it is there.
pub fn insert_date(list: &mut Vec<Date>, date: Date)
    requires
        days_increase(days_of(old(list)@)),
    ensures
        days_increase(days_of(final(list)@)),
        forall|d: int| #[trigger]
            days_of(final(list)@).contains(d) <==> days_of(old(list)@).contains(d) || d == date@,
{
    let ghost before = days_of(list@);
    let mut i: usize = list.len();
    while i > 0 && date.days() < list[i - 1].days()
        invariant
            i <= list.len(),
            before == days_of(list@),
            forall|k: int| i <= k < before.len() ==> date@ < #[trigger] before[k],
        decreases i,
    {
        assert(before[i - 1] == list@[i - 1]@);
        i = i - 1;
    }
    if i > 0 && list[i - 1].days() == date.days() {
        assert(before[i - 1] == list@[i - 1]@);
        return ;
    }
    list.insert(i, date);
    proof {
        let after = days_of(list@);
        if i > 0 {
            assert(before[i - 1] < date@);
        }
        assert(after =~= before.insert(i as int, date@));
        assert forall|a: int, b: int| 0 <= a < b < after.len() implies (#[trigger] after[a]) < (
        #[trigger] after[b]) by {
            if a < i && b > i {
                assert(before[a] < before[b - 1]);
            } else if b < i {
                assert(before[a] < before[b]);
            } else if a > i {
                assert(before[a - 1] < before[b - 1]);
            } else if b == i {
                if a < i - 1 {
                    assert(before[a] < before[i - 1]);
                }
            }
        }
        assert forall|d: int| #[trigger] after.contains(d) <==> before.contains(d) || d == date@ by {
            if after.contains(d) {
                let k = choose|k: int| 0 <= k < after.len() && after[k] == d;
                if k < i {
                    assert(before[k] == d);
                } else if k > i {
                    assert(before[k - 1] == d);
                }
            }
            if before.contains(d) {
                let k = choose|k: int| 0 <= k < before.len() && before[k] == d;
                if k < i {
                    assert(after[k] == d);
                } else {
                    assert(after[k + 1] == d);
                }
            }
            assert(after[i as int] == date@);
        }
    }
}

} // verus!
