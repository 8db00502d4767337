//! Rates for every month of a year.
//!
//! A month that is over keeps the rate of its last day. The month in progress and
//! every later one share one rate: that of the last day of the month before, or
//! the newest there is.

use vstd::prelude::*;
use crate::dates::{
    civil, days_increase, days_of, insert_date, is_date, text_of, Date, FIRST_YEAR, LAST_YEAR,
};
use crate::error::{Error, ErrorView};
use crate::fx::{
    alias_for, cached_day, cached_rate_for, code, code_of, cross_to_reference, day_rate,
    earlier_day, keep_day, last_day_of_month, may_alias, month_end, nearest_earlier, with_day,
    year_month_error, CacheView, DayRates, DayView, Rate, RateCache, ResolvedRate, ResolvedView,
};
use crate::text::{padded, push_padded, same_text, texts, texts_increase};
use crate::text_map::{Duplicate, TextMap};

verus! {

/// What the month in progress is converted with.
#[derive(Clone, Copy, Debug, PartialEq, Eq, Structural)]
pub enum CurrentMonthRateMode {
    /// The rate of the last day of the month before.
    PreviousMonthEnd,
    /// The newest rate there is.
    Live,
}

/// The days that back the rates of a year.
pub struct YearRateDates {
    /// Each month that is over, with its last day.
    pub completed: Vec<(u32, Date)>,
    /// The last day of the month before this one, where it backs the month in
    /// progress.
    pub previous_month_end: Option<Date>,
}

/// What [`YearRateDates`] say.
#[verifier::ext_equal]
pub struct YearDatesView {
    pub completed: Seq<(int, int)>,
    pub previous_month_end: Option<int>,
}

impl View for YearRateDates {
    type V = YearDatesView;

    open spec fn view(&self) -> YearDatesView {
        YearDatesView {
            completed: Seq::new(
                self.completed@.len(),
                |i: int| (self.completed@[i].0 as int, self.completed@[i].1@),
            ),
            previous_month_end: match self.previous_month_end {
                Some(date) => Some(date@),
                None => None,
            },
        }
    }
}

/// The number of months of a year that are over.
pub open spec fn months_over(today: int, year: int) -> int {
    let c = civil(today);
    if year < c.0 {
        12
    } else if year == c.0 {
        c.1 - 1
    } else {
        0
    }
}

/// The year and month before a month.
pub open spec fn month_before(year: int, month: int) -> (int, int) {
    if month == 1 {
        (year - 1, 12)
    } else {
        (year, month - 1)
    }
}

/// The days that back the rates of a year.
pub open spec fn year_dates(today: int, year: int, mode: CurrentMonthRateMode) -> YearDatesView {
    let c = civil(today);
    let before = month_before(c.0, c.1);
    YearDatesView {
        completed: Seq::new(
            months_over(today, year) as nat,
            |i: int| (i + 1, month_end(year, i + 1)),
        ),
        previous_month_end: if months_over(today, year) < 12 && mode is PreviousMonthEnd {
            Some(month_end(before.0, before.1))
        } else {
            None
        },
    }
}

/// The days that back the rates of a year. A year before the first that dates can
/// have is an error.
pub fn year_rate_dates(today: Date, year: i32, mode: CurrentMonthRateMode) -> (r: Result<
    YearRateDates,
    Error,
>)
    requires
        months_over(today@, year as int) < 12 && mode is PreviousMonthEnd ==> !(civil(today@).0
            == FIRST_YEAR && civil(today@).1 == 1),
    ensures
        match r {
            Ok(dates) => year >= FIRST_YEAR && dates@ == year_dates(today@, year as int, mode),
            Err(e) => year < FIRST_YEAR && e@ == year_month_error(year as int, 1),
        },
{
    let (today_year, today_month, _) = today.ymd();
    let over: u32 = if year < today_year {
        12
    } else if year == today_year {
        today_month - 1
    } else {
        0
    };
    let mut completed: Vec<(u32, Date)> = Vec::new();
    let mut month: u32 = 1;
    while month <= over
        invariant
            1 <= month <= over + 1,
            over <= 12,
            over == months_over(today@, year as int),
            is_date(today_year as int, today_month as int, 1),
            over > 0 ==> year <= today_year,
            today_year <= LAST_YEAR,
            year == today_year ==> over < today_month <= 12,
            year < FIRST_YEAR ==> month == 1,
            completed@.len() == month - 1,
            forall|i: int|
                0 <= i < completed@.len() ==> (#[trigger] completed@[i]).0 == i + 1
                    && completed@[i].1@ == month_end(year as int, i + 1),
        decreases over + 1 - month,
    {
        let last = last_day_of_month(year, month)?;
        completed.push((month, last));
        month = month + 1;
    }
    let previous_month_end = if over < 12 {
        match mode {
            CurrentMonthRateMode::PreviousMonthEnd => {
                let (before_year, before_month) = if today_month == 1 {
                    (today_year - 1, 12)
                } else {
                    (today_year, today_month - 1)
                };
                match last_day_of_month(before_year, before_month) {
                    Ok(last) => Some(last),
                    Err(e) => {
                        assert(is_date(today_year as int, today_month as int, 1));
                        return Err(e);
                    },
                }
            },
            CurrentMonthRateMode::Live => None,
        }
    } else {
        None
    };
    let r = YearRateDates { completed, previous_month_end };
    assert(r@.completed =~= year_dates(today@, year as int, mode).completed);
    Ok(r)
}

impl YearRateDates {
    /// Every day whose rate a year needs, sorted, each once.
    pub fn prewarm_dates(&self) -> (r: Vec<Date>)
        ensures
            days_increase(days_of(r@)),
            forall|d: int| #[trigger]
                days_of(r@).contains(d) <==> self@.previous_month_end == Some(d) || exists|i: int|
                    0 <= i < self@.completed.len() && (#[trigger] self@.completed[i]).1 == d,
    {
        let mut dates: Vec<Date> = Vec::new();
        let mut i: usize = 0;
        let ghost all = self@.completed;
        while i < self.completed.len()
            invariant
                i <= self.completed.len(),
                all == self@.completed,
                days_increase(days_of(dates@)),
                forall|d: int| #[trigger]
                    days_of(dates@).contains(d) <==> exists|k: int|
                        0 <= k < i && (#[trigger] all[k]).1 == d,
            decreases self.completed.len() - i,
        {
            let ghost before = days_of(dates@);
            assert(all[i as int].1 == self.completed@[i as int].1@);
            insert_date(&mut dates, self.completed[i].1);
            proof {
                assert forall|d: int| #[trigger] days_of(dates@).contains(d) <==> exists|k: int|
                    0 <= k < i + 1 && (#[trigger] all[k]).1 == d by {
                    assert(before.contains(d) <==> exists|k: int|
                        0 <= k < i && (#[trigger] all[k]).1 == d);
                }
            }
            i = i + 1;
        }
        if let Some(date) = self.previous_month_end {
            insert_date(&mut dates, date);
        }
        dates
    }
}

/// One question about a rate: on a day, or the newest.
#[derive(Clone, Copy, Debug, PartialEq, Eq)]
pub enum RateRequest {
    On(Date),
    Live,
}

/// What a [`RateRequest`] asks.
pub enum RequestView {
    On(int),
    Live,
}

impl View for RateRequest {
    type V = RequestView;

    open spec fn view(&self) -> RequestView {
        match self {
            RateRequest::On(date) => RequestView::On(date@),
            RateRequest::Live => RequestView::Live,
        }
    }
}

/// What a year asks of each currency: the rate of the month in progress, where
/// the year reaches it, then that of each month that is over.
pub open spec fn year_requests(dates: YearDatesView) -> Seq<RequestView> {
    let now = if dates.completed.len() < 12 {
        match dates.previous_month_end {
            Some(date) => seq![RequestView::On(date)],
            None => seq![RequestView::Live],
        }
    } else {
        Seq::empty()
    };
    now + Seq::new(dates.completed.len(), |i: int| RequestView::On(dates.completed[i].1))
}

/// What a year asks of each currency, in order.
pub fn requests_of(dates: &YearRateDates) -> (r: Vec<RateRequest>)
    ensures
        Seq::new(r@.len(), |i: int| r@[i]@) == year_requests(dates@),
{
    let mut asked: Vec<RateRequest> = Vec::new();
    if dates.completed.len() < 12 {
        match dates.previous_month_end {
            Some(date) => asked.push(RateRequest::On(date)),
            None => asked.push(RateRequest::Live),
        }
    }
    let ghost now = Seq::new(asked@.len(), |i: int| asked@[i]@);
    let ghost days = Seq::new(
        dates@.completed.len(),
        |i: int| RequestView::On(dates@.completed[i].1),
    );
    let mut i: usize = 0;
    assert(now + days.take(0) =~= now);
    while i < dates.completed.len()
        invariant
            i <= dates.completed.len(),
            days == Seq::new(
                dates@.completed.len(),
                |i: int| RequestView::On(dates@.completed[i].1),
            ),
            Seq::new(asked@.len(), |k: int| asked@[k]@) == now + days.take(i as int),
        decreases dates.completed.len() - i,
    {
        let ghost before = Seq::new(asked@.len(), |k: int| asked@[k]@);
        asked.push(RateRequest::On(dates.completed[i].1));
        proof {
            assert(days[i as int] == RequestView::On(dates.completed@[i as int].1@));
            assert(Seq::new(asked@.len(), |k: int| asked@[k]@) =~= before.push(days[i as int]));
            assert(now + days.take(i + 1) =~= before.push(days[i as int]));
        }
        i = i + 1;
    }
    proof {
        assert(days.take(i as int) =~= days);
        assert(now + days =~= year_requests(dates@));
    }
    asked
}

impl View for Rate {
    type V = Rate;

    open spec fn view(&self) -> Rate {
        *self
    }
}

impl Duplicate for Rate {
    fn duplicate(&self) -> (r: Self) {
        *self
    }
}

/// Rates into the reference currency for the twelve months of a year.
#[derive(Debug, PartialEq, Eq)]
pub struct MonthlyRates {
    reference_currency: String,
    months: Vec<TextMap<Rate>>,
}

/// What [`MonthlyRates`] hold.
#[verifier::ext_equal]
pub struct MonthlyView {
    pub reference: Seq<char>,
    pub months: Seq<Map<Seq<char>, Rate>>,
}

impl View for MonthlyRates {
    type V = MonthlyView;

    closed spec fn view(&self) -> MonthlyView {
        MonthlyView {
            reference: self.reference_currency@,
            months: Seq::new(self.months@.len(), |i: int| self.months@[i]@),
        }
    }
}

/// A rate that was not asked for when the rates of a year were resolved.
pub open spec fn unresolved_error(currency: Seq<char>, month: nat) -> ErrorView {
    ErrorView::NotFound(
        "no resolved FX rate for '"@ + currency + "' in month "@ + padded(month, 2)
            + "; it was not included in the currencies passed to monthly_rates"@,
    )
}

/// The rate of a month, as the rates of a year give it.
pub open spec fn monthly_rate(rates: MonthlyView, month: int, currency: Seq<char>) -> Result<
    Rate,
    ErrorView,
> {
    let it = code_of(currency);
    if it == rates.reference {
        Ok(Rate::One)
    } else if 1 <= month <= 12 && rates.months[month - 1].contains_key(it) {
        Ok(rates.months[month - 1][it])
    } else {
        Err(unresolved_error(it, month as nat))
    }
}

/// The rates of a year with those of one more currency.
pub open spec fn with_currency(
    rates: MonthlyView,
    currency: Seq<char>,
    year: Seq<Rate>,
) -> MonthlyView {
    MonthlyView {
        reference: rates.reference,
        months: Seq::new(
            rates.months.len(),
            |i: int| rates.months[i].insert(currency, year[i]),
        ),
    }
}

impl MonthlyRates {
    /// There is a table of rates for each of the twelve months.
    #[verifier::type_invariant]
    pub open spec fn has_twelve_months(self) -> bool {
        self@.months.len() == 12
    }

    /// No rates yet. `reference` is the code of the reference currency.
    pub fn new(reference: &str) -> (r: Self)
        ensures
            r@ == (MonthlyView {
                reference: reference@,
                months: Seq::new(12, |i: int| Map::<Seq<char>, Rate>::empty()),
            }),
    {
        let mut months: Vec<TextMap<Rate>> = Vec::new();
        let mut i: usize = 0;
        while i < 12
            invariant
                i <= 12,
                months@.len() == i,
                forall|k: int|
                    0 <= k < i ==> (#[trigger] months@[k])@ == Map::<Seq<char>, Rate>::empty(),
            decreases 12 - i,
        {
            months.push(TextMap::new());
            i = i + 1;
        }
        assert(Seq::new(months@.len(), |k: int| months@[k]@) =~= Seq::new(
            12,
            |i: int| Map::<Seq<char>, Rate>::empty(),
        ));
        MonthlyRates { reference_currency: reference.to_owned(), months }
    }

    /// The rate of a currency in a month. The reference currency always converts
    /// at one; a currency that was not resolved is an error, never one.
    pub fn rate(&self, month: u32, currency: &str) -> (r: Result<Rate, Error>)
        ensures
            match r {
                Ok(rate) => monthly_rate(self@, month as int, currency@) == Ok::<Rate, ErrorView>(
                    rate,
                ),
                Err(e) => monthly_rate(self@, month as int, currency@) == Err::<Rate, ErrorView>(
                    e@,
                ),
            },
    {
        proof {
            use_type_invariant(self);
        }
        let it = code(currency);
        if same_text(it.as_str(), self.reference_currency.as_str()) {
            return Ok(Rate::One);
        }
        if 1 <= month && month <= 12 {
            assert(self@.months[month - 1] == self.months@[month - 1]@);
            if let Some(rate) = self.months[(month - 1) as usize].get(it.as_str()) {
                return Ok(*rate);
            }
        }
        let mut message = "no resolved FX rate for '".to_owned().concat(it.as_str()).concat(
            "' in month ",
        );
        push_padded(&mut message, month as u64, 2);
        message.append("; it was not included in the currencies passed to monthly_rates");
        Err(Error::NotFound(message))
    }

    /// Add the rates of a currency for the twelve months.
    pub fn add_currency(&mut self, currency: &str, year: &Vec<Rate>)
        requires
            year@.len() == 12,
        ensures
            final(self)@ == with_currency(old(self)@, currency@, year@),
    {
        proof {
            use_type_invariant(&*self);
        }
        let ghost before = self@;
        let ghost reference = self.reference_currency@;
        let mut months: Vec<TextMap<Rate>> = Vec::new();
        let mut i: usize = 0;
        while i < 12
            invariant
                i <= 12,
                year@.len() == 12,
                before == self@,
                self.months@.len() == 12,
                months@.len() == i,
                forall|k: int|
                    0 <= k < i ==> (#[trigger] months@[k])@ == before.months[k].insert(
                        currency@,
                        year@[k],
                    ),
            decreases 12 - i,
        {
            let mut month = self.months[i].clone();
            assert(month@ == before.months[i as int]);
            month.insert(currency.to_owned(), year[i]);
            months.push(month);
            i = i + 1;
        }
        let ghost shown = Seq::new(months@.len(), |k: int| months@[k]@);
        assert(shown =~= with_currency(before, currency@, year@).months);
        self.months = months;
    }
}

/// The rates of the twelve months, made of what a currency was answered: each
/// month that is over has its own, and the others share the first. Nothing, where
/// an answer is missing: a currency resolves for the whole year or not at all.
pub open spec fn year_of(dates: YearDatesView, answers: Seq<Rate>) -> Option<Seq<Rate>> {
    let over = dates.completed.len() as int;
    let first = if over < 12 {
        1int
    } else {
        0
    };
    if answers.len() < over + first {
        None
    } else {
        Some(
            Seq::new(
                12,
                |i: int|
                    if i < over {
                        answers[first + i]
                    } else {
                        answers[0]
                    },
            ),
        )
    }
}

/// The rates of the twelve months, made of what a currency was answered, in the
/// order of the questions, up to the first failure.
pub fn year_of_rates(dates: &YearRateDates, answers: &Vec<Rate>) -> (r: Option<Vec<Rate>>)
    requires
        dates@.completed.len() <= 12,
    ensures
        match r {
            Some(year) => year_of(dates@, answers@) == Some(year@) && year@.len() == 12,
            None => year_of(dates@, answers@) is None,
        },
{
    let over: usize = dates.completed.len();
    let first: usize = if over < 12 {
        1
    } else {
        0
    };
    if answers.len() < over + first {
        return None;
    }
    let mut year: Vec<Rate> = Vec::new();
    let mut i: usize = 0;
    while i < 12
        invariant
            i <= 12,
            over <= 12,
            first == if over < 12 {
                1int
            } else {
                0
            },
            answers@.len() >= over + first,
            year@.len() == i,
            forall|k: int|
                0 <= k < i ==> #[trigger] year@[k] == if k < over {
                    answers@[first + k]
                } else {
                    answers@[0]
                },
        decreases 12 - i,
    {
        if i < over {
            year.push(answers[first + i]);
        } else {
            year.push(answers[0]);
        }
        i = i + 1;
    }
    assert(year@ =~= year_of(dates@, answers@)->0);
    Some(year)
}

/// Add what a currency was answered to the rates of a year, or name the currency
/// as unavailable.
pub fn settle_currency(
    rates: &mut MonthlyRates,
    unavailable: &mut Vec<String>,
    dates: &YearRateDates,
    currency: &str,
    answers: &Vec<Rate>,
)
    requires
        dates@.completed.len() <= 12,
    ensures
        match year_of(dates@, answers@) {
            Some(year) => final(rates)@ == with_currency(old(rates)@, currency@, year) && texts(
                final(unavailable)@,
            ) == texts(old(unavailable)@),
            None => final(rates)@ == old(rates)@ && texts(final(unavailable)@) == texts(
                old(unavailable)@,
            ).push(currency@),
        },
{
    match year_of_rates(dates, answers) {
        Some(year) => rates.add_currency(currency, &year),
        None => {
            let ghost before = texts(unavailable@);
            unavailable.push(currency.to_owned());
            assert(texts(unavailable@) =~= before.push(currency@));
        },
    }
}

/// The rates of a year for some currencies, given what each of them answers to
/// each question of the year.
pub open spec fn year_table(
    reference: Seq<char>,
    currencies: Seq<Seq<char>>,
    dates: YearDatesView,
    answers: spec_fn(Seq<char>) -> Seq<Rate>,
    n: int,
) -> MonthlyView
    decreases n,
{
    if n <= 0 {
        MonthlyView {
            reference,
            months: Seq::new(12, |i: int| Map::<Seq<char>, Rate>::empty()),
        }
    } else {
        let before = year_table(reference, currencies, dates, answers, n - 1);
        match year_of(dates, answers(currencies[n - 1])) {
            Some(year) => with_currency(before, currencies[n - 1], year),
            None => before,
        }
    }
}

/// One question about the rate of one currency.
pub struct CurrencyRequest {
    /// Which currency, by its place in the list.
    pub currency: usize,
    pub request: RateRequest,
}

/// Every question about some currencies, all currencies for one question before
/// the next question: the order in which a whole table is resolved that has to be
/// complete.
pub fn table_requests(dates: &YearRateDates, currencies: usize) -> (r: Vec<CurrencyRequest>)
    requires
        13 * currencies <= usize::MAX,
        dates@.completed.len() <= 12,
    ensures
        r@.len() == year_requests(dates@).len() * currencies,
        forall|q: int, k: int|
            #![trigger r@[q * currencies + k]]
            0 <= q < year_requests(dates@).len() && 0 <= k < currencies ==> {
                let it = r@[q * currencies + k];
                it.currency == k && it.request@ == year_requests(dates@)[q]
            },
{
    let questions = requests_of(dates);
    let ghost asked = year_requests(dates@);
    assert(Seq::new(questions@.len(), |i: int| questions@[i]@) == asked);
    let mut all: Vec<CurrencyRequest> = Vec::new();
    let mut q: usize = 0;
    while q < questions.len()
        invariant
            q <= questions.len(),
            questions@.len() == asked.len(),
            forall|i: int| 0 <= i < asked.len() ==> (#[trigger] questions@[i])@ == asked[i],
            all@.len() == q * currencies,
            forall|p: int, k: int|
                #![trigger all@[p * currencies + k]]
                0 <= p < q && 0 <= k < currencies ==> {
                    let it = all@[p * currencies + k];
                    it.currency == k && it.request@ == asked[p]
                },
        decreases questions.len() - q,
    {
        let mut k: usize = 0;
        let ghost start = all@.len() as int;
        assert(start == q * currencies);
        while k < currencies
            invariant
                k <= currencies,
                q < questions.len(),
                questions@.len() == asked.len(),
                start == q * currencies,
                forall|i: int| 0 <= i < asked.len() ==> (#[trigger] questions@[i])@ == asked[i],
                all@.len() == start + k,
                forall|p: int, j: int|
                    #![trigger all@[p * currencies + j]]
                    0 <= p < q && 0 <= j < currencies ==> {
                        let it = all@[p * currencies + j];
                        it.currency == j && it.request@ == asked[p]
                    },
                forall|j: int|
                    #![trigger all@[start + j]]
                    0 <= j < k ==> all@[start + j].currency == j && all@[start + j].request@
                        == asked[q as int],
            decreases currencies - k,
        {
            let ghost before = all@;
            all.push(CurrencyRequest { currency: k, request: questions[q] });
            proof {
                assert forall|p: int, j: int|
                    #![trigger all@[p * currencies + j]]
                    0 <= p < q && 0 <= j < currencies implies {
                    let it = all@[p * currencies + j];
                    it.currency == j && it.request@ == asked[p]
                } by {
                    assert(p * currencies + j < q * currencies) by (nonlinear_arith)
                        requires
                            0 <= p < q,
                            0 <= j < currencies,
                    ;
                    assert(p * currencies + j >= 0) by (nonlinear_arith)
                        requires
                            0 <= p,
                            0 <= j,
                            currencies >= 0,
                    ;
                    assert(all@[p * currencies + j] == before[p * currencies + j]);
                }
            }
            k = k + 1;
        }
        proof {
            assert((q + 1) * currencies == q * currencies + currencies) by (nonlinear_arith);
            assert forall|p: int, j: int|
                #![trigger all@[p * currencies + j]]
                0 <= p < q + 1 && 0 <= j < currencies implies {
                let it = all@[p * currencies + j];
                it.currency == j && it.request@ == asked[p]
            } by {
                if p == q {
                    assert(p * currencies + j == start + j);
                }
            }
        }
        q = q + 1;
    }
    all
}

/// What one currency was answered, out of the answers to all questions about all
/// currencies.
pub open spec fn column_of(answers: Seq<Rate>, currencies: int, questions: int, k: int) -> Seq<Rate> {
    Seq::new(questions as nat, |q: int| answers[q * currencies + k])
}

/// Put a whole table of rates together from the answers to every question, in the
/// order of [`table_requests`].
pub fn complete_table(
    reference: &str,
    currencies: &Vec<String>,
    dates: &YearRateDates,
    answers: &Vec<Rate>,
) -> (r: MonthlyRates)
    requires
        dates@.completed.len() <= 12,
        13 * currencies@.len() <= usize::MAX,
        answers@.len() == year_requests(dates@).len() * currencies@.len(),
        texts_increase(texts(currencies@)),
    ensures
        r@ == complete_view(
            reference@,
            texts(currencies@),
            dates@,
            answers@,
            currencies@.len() as int,
        ),
{
    let mut table = MonthlyRates::new(reference);
    let n: usize = currencies.len();
    let over: usize = dates.completed.len();
    let questions: usize = if over < 12 {
        over + 1
    } else {
        over
    };
    assert(questions == year_requests(dates@).len());
    let mut k: usize = 0;
    while k < n
        invariant
            k <= n,
            n == currencies@.len(),
            13 * n <= usize::MAX,
            over <= 12,
            over == dates@.completed.len(),
            questions == if over < 12 {
                over + 1
            } else {
                over as int
            },
            questions == year_requests(dates@).len(),
            answers@.len() == questions * n,
            table@ == complete_view(reference@, texts(currencies@), dates@, answers@, k as int),
        decreases n - k,
    {
        let mut mine: Vec<Rate> = Vec::new();
        let mut q: usize = 0;
        while q < questions
            invariant
                q <= questions <= 13,
                k < n,
                13 * n <= usize::MAX,
                answers@.len() == questions * n,
                mine@.len() == q,
                forall|j: int| 0 <= j < q ==> #[trigger] mine@[j] == answers@[j * n + k],
            decreases questions - q,
        {
            assert(q * n + k < questions * n) by (nonlinear_arith)
                requires
                    q < questions,
                    k < n,
            ;
            assert(questions * n <= 13 * n) by (nonlinear_arith)
                requires
                    questions <= 13,
                    n >= 0,
            ;
            assert(q * n <= q * n + k);
            mine.push(answers[q * n + k]);
            q = q + 1;
        }
        assert(mine@ =~= column_of(answers@, n as int, questions as int, k as int));
        assert(texts(currencies@)[k as int] == currencies@[k as int]@);
        match year_of_rates(dates, &mine) {
            Some(year) => table.add_currency(currencies[k].as_str(), &year),
            None => {},
        }
        k = k + 1;
    }
    table
}

/// A whole table of rates, put together from the answers to every question.
pub open spec fn complete_view(
    reference: Seq<char>,
    currencies: Seq<Seq<char>>,
    dates: YearDatesView,
    answers: Seq<Rate>,
    n: int,
) -> MonthlyView
    decreases n,
{
    if n <= 0 {
        MonthlyView {
            reference,
            months: Seq::new(12, |i: int| Map::<Seq<char>, Rate>::empty()),
        }
    } else {
        let before = complete_view(reference, currencies, dates, answers, n - 1);
        let mine = column_of(
            answers,
            currencies.len() as int,
            year_requests(dates).len() as int,
            n - 1,
        );
        match year_of(dates, mine) {
            Some(year) => with_currency(before, currencies[n - 1], year),
            None => before,
        }
    }
}

/// One batch's view of the cache: loaded once, and kept up to date with what is
/// fetched on the way.
pub struct SnapBatch {
    pub cache: RateCache,
}

/// What to do for a rate of a batch: it is settled, as a rate or as unavailable,
/// or a day has to be fetched.
pub enum BatchStep {
    Done(Option<ResolvedRate>),
    Fetch,
}

/// The rate that a day of quotes gives, where there is one.
pub open spec fn rate_of_day(currency: Seq<char>, reference: Seq<char>, day: Option<DayView>) -> Option<
    ResolvedView,
> {
    match day {
        Some(day) => day_rate(currency, reference, day),
        None => None,
    }
}

/// The day that stands in for a day without the network.
pub open spec fn earlier_or_none(cache: CacheView, date: int) -> Option<DayView> {
    match earlier_day(cache, text_of(date)) {
        Ok(Some(day)) => Some(day),
        _ => None,
    }
}

/// Whether a rate was settled as a value says.
pub open spec fn settled_as(rate: Option<ResolvedRate>, want: Option<ResolvedView>) -> bool {
    match rate {
        Some(resolved) => want == Some(resolved@),
        None => want is None,
    }
}

/// What a [`BatchStep`] says.
pub enum BatchView {
    Done(Option<ResolvedView>),
    Fetch,
}

/// What a step of a batch says.
pub open spec fn batch_view(step: BatchStep) -> BatchView {
    match step {
        BatchStep::Done(Some(rate)) => BatchView::Done(Some(rate@)),
        BatchStep::Done(None) => BatchView::Done(None),
        BatchStep::Fetch => BatchView::Fetch,
    }
}

/// How a batch begins on a rate between two currency codes.
pub open spec fn batch_step(
    cache: CacheView,
    date: int,
    from: Seq<char>,
    into: Seq<char>,
    may_fetch: bool,
) -> BatchView {
    if from == into {
        BatchView::Done(Some(ResolvedView { rate: Rate::One, rate_date: None }))
    } else {
        match cached_day(cache, date) {
            Ok(Some(day)) => BatchView::Done(day_rate(from, into, day)),
            Err(_) => BatchView::Done(None),
            Ok(None) => if may_fetch {
                BatchView::Fetch
            } else {
                BatchView::Done(rate_of_day(from, into, earlier_or_none(cache, date)))
            },
        }
    }
}

/// The cache of a batch after a day was fetched for another.
pub open spec fn batch_cache(
    cache: CacheView,
    date: int,
    day: DayView,
    today: int,
    stored: bool,
) -> CacheView {
    if stored {
        with_day(
            cache,
            day.date,
            day.rates,
            if may_alias(date, day.date, today) {
                Some(date)
            } else {
                None
            },
        )
    } else {
        cache
    }
}

/// The rate that a batch takes from a day that was fetched.
pub open spec fn batch_rate(
    from: Seq<char>,
    into: Seq<char>,
    day: DayView,
    stored: bool,
) -> Option<ResolvedView> {
    if stored {
        day_rate(from, into, day)
    } else {
        None
    }
}

impl SnapBatch {
    /// A batch on a cache.
    pub fn new(cache: RateCache) -> (r: Self)
        ensures
            r.cache@ == cache@,
    {
        SnapBatch { cache }
    }

    /// Begin on a rate: the reference currency converts at one; what the cache
    /// holds for the day decides, even where it lacks the currency; else the day
    /// is fetched, where the network may be used, or the nearest earlier day that
    /// is cached stands in.
    pub fn begin(
        &self,
        date: Date,
        currency: &str,
        reference_currency: &str,
        may_fetch: bool,
    ) -> (r: BatchStep)
        ensures
            batch_view(r) == batch_step(
                self.cache@,
                date@,
                code_of(currency@),
                code_of(reference_currency@),
                may_fetch,
            ),
            ({
                let from = code_of(currency@);
                let into = code_of(reference_currency@);
                if from == into {
                    r matches BatchStep::Done(Some(resolved)) && resolved@ == (ResolvedView {
                        rate: Rate::One,
                        rate_date: None,
                    })
                } else {
                    match cached_day(self.cache@, date@) {
                        Ok(Some(day)) => r matches BatchStep::Done(rate) && settled_as(
                            rate,
                            day_rate(from, into, day),
                        ),
                        Err(_) => r matches BatchStep::Done(None),
                        Ok(None) => if may_fetch {
                            r is Fetch
                        } else {
                            r matches BatchStep::Done(rate) && settled_as(
                                rate,
                                rate_of_day(from, into, earlier_or_none(self.cache@, date@)),
                            )
                        },
                    }
                }
            }),
    {
        let from = code(currency);
        let into = code(reference_currency);
        if same_text(from.as_str(), into.as_str()) {
            return BatchStep::Done(Some(ResolvedRate { rate: Rate::One, rate_date: None }));
        }
        match cached_rate_for(&self.cache, date) {
            Ok(Some(day)) => BatchStep::Done(
                cross_to_reference(&day, from.as_str(), into.as_str()),
            ),
            Err(_) => BatchStep::Done(None),
            Ok(None) => if may_fetch {
                BatchStep::Fetch
            } else {
                BatchStep::Done(self.after_failed_fetch(date, currency, reference_currency))
            },
        }
    }

    /// End on a rate whose day could not be fetched: the nearest earlier day that
    /// is cached stands in.
    pub fn after_failed_fetch(&self, date: Date, currency: &str, reference_currency: &str) -> (r:
        Option<ResolvedRate>)
        ensures
            settled_as(
                r,
                rate_of_day(
                    code_of(currency@),
                    code_of(reference_currency@),
                    earlier_or_none(self.cache@, date@),
                ),
            ),
    {
        match nearest_earlier(&self.cache, date.text().as_str()) {
            Ok(Some(day)) => cross_to_reference(
                &day,
                code(currency).as_str(),
                code(reference_currency).as_str(),
            ),
            _ => None,
        }
    }

    /// End on a rate whose day was fetched. Where the day could be written to the
    /// cache on disk, it is kept in the batch too, so that later rates find it;
    /// where it could not, the rate is unavailable.
    pub fn after_fetch(
        &mut self,
        date: Date,
        currency: &str,
        reference_currency: &str,
        day: &DayRates,
        today: Date,
        stored: bool,
    ) -> (r: Option<ResolvedRate>)
        ensures
            settled_as(
                r,
                batch_rate(code_of(currency@), code_of(reference_currency@), day@, stored),
            ),
            final(self).cache@ == batch_cache(old(self).cache@, date@, day@, today@, stored),
            if stored {
                &&& settled_as(
                    r,
                    day_rate(code_of(currency@), code_of(reference_currency@), day@),
                )
                &&& final(self).cache@ == with_day(
                    old(self).cache@,
                    day@.date,
                    day@.rates,
                    if may_alias(date@, day@.date, today@) {
                        Some(date@)
                    } else {
                        None
                    },
                )
            } else {
                r is None && final(self).cache@ == old(self).cache@
            },
    {
        if !stored {
            return None;
        }
        keep_day(&mut self.cache, day, alias_for(date, day.date, today));
        cross_to_reference(day, code(currency).as_str(), code(reference_currency).as_str())
    }
}

/// A currency has a rate for every month of a year or for none.
pub proof fn a_currency_resolves_for_the_whole_year(
    rates: MonthlyView,
    currency: Seq<char>,
    dates: YearDatesView,
    answers: Seq<Rate>,
    month: int,
)
    requires
        rates.months.len() == 12,
        1 <= month <= 12,
        dates.completed.len() <= 12,
        year_of(dates, answers) is Some,
    ensures
        with_currency(rates, currency, year_of(dates, answers)->0).months[month
            - 1].contains_key(currency),
        with_currency(rates, currency, year_of(dates, answers)->0).months[month - 1][currency]
            == if month <= dates.completed.len() {
            answers[month - 1 + if dates.completed.len() < 12 {
                1int
            } else {
                0
            }]
        } else {
            answers[0]
        },
{
}

/// A table that is resolved as a whole and one that is resolved currency by
/// currency agree, where every question gets the same answer.
pub proof fn both_ways_give_the_same_table(
    reference: Seq<char>,
    currencies: Seq<Seq<char>>,
    dates: YearDatesView,
    answers: Seq<Rate>,
    by_currency: spec_fn(Seq<char>) -> Seq<Rate>,
    n: int,
)
    requires
        0 <= n <= currencies.len(),
        forall|k: int|
            0 <= k < currencies.len() ==> by_currency(#[trigger] currencies[k]) == column_of(
                answers,
                currencies.len() as int,
                year_requests(dates).len() as int,
                k,
            ),
    ensures
        complete_view(reference, currencies, dates, answers, n) == year_table(
            reference,
            currencies,
            dates,
            by_currency,
            n,
        ),
    decreases n,
{
    if n > 0 {
        both_ways_give_the_same_table(reference, currencies, dates, answers, by_currency, n - 1);
        assert(by_currency(currencies[n - 1]) == column_of(
            answers,
            currencies.len() as int,
            year_requests(dates).len() as int,
            n - 1,
        ));
    }
}

} // verus!
