//! From the day that a rate is asked for to the month it stands for.

use vstd::prelude::*;
use crate::dates::{
    a_day_number_names_one_date, civil, day_number, is_date, is_day, lemma_civil, lemma_month_end,
    month_length, FIRST_YEAR,
};
use crate::error::ErrorView;
use crate::fx::{code_of, month_end, Rate};
use crate::fx_monthly::{
    column_of, complete_view, monthly_rate, months_over, with_currency, year_dates, year_of,
    year_requests, year_table, CurrentMonthRateMode, MonthlyView, RequestView, YearDatesView,
};
use crate::fx_runs::{
    a_run_resolves_each_currency_by_itself, answered, carried_out, left_out, no_rates, whole_year,
    YearRunView,
};
use crate::text::texts_increase;

verus! {

/// Whether a day is the last of a month: it lies in the month, and the month has no
/// day after it.
pub open spec fn is_last_day(day: int, year: int, month: int) -> bool {
    let c = civil(day);
    c.0 == year && c.1 == month && is_date(year, month, c.2) && !is_date(year, month, c.2 + 1)
}

/// Whether a month is over on a day: it comes before the month of that day.
pub open spec fn is_over(today: int, year: int, month: int) -> bool {
    year < civil(today).0 || (year == civil(today).0 && month < civil(today).1)
}

/// Whether a request is the one for the rate of a month. The rate of a month that is
/// over is that of its last day. The rate of any other month is the newest one, or
/// that of the day before the first of the month in progress.
pub open spec fn is_request_for(
    request: RequestView,
    today: int,
    year: int,
    month: int,
    mode: CurrentMonthRateMode,
) -> bool {
    if is_over(today, year, month) {
        request matches RequestView::On(day) && is_last_day(day, year, month)
    } else if mode is PreviousMonthEnd {
        request matches RequestView::On(day) && day + 1 == day_number(
            civil(today).0,
            civil(today).1,
            1,
        )
    } else {
        request is Live
    }
}

/// The end of a month is its last day.
pub proof fn the_end_of_a_month_is_its_last_day(year: int, month: int)
    requires
        is_date(year, month, 1),
    ensures
        is_last_day(month_end(year, month), year, month),
{
    let last = month_length(year, month);
    assert(is_date(year, month, last));
    a_day_number_names_one_date(year, month, last);
}

/// Whether the rates of a year can be dated: the year is one that dates have, and so
/// is the month before the one in progress where its end is used.
pub open spec fn can_be_dated(today: int, year: int, mode: CurrentMonthRateMode) -> bool {
    &&& is_day(today)
    &&& year >= FIRST_YEAR
    &&& months_over(today, year) < 12 && mode is PreviousMonthEnd ==> !(civil(today).0 == FIRST_YEAR
        && civil(today).1 == 1)
}

/// Where the rate of a month stands among the answers to the questions of a year.
spec fn place_of(dates: YearDatesView, month: int) -> int {
    if month <= dates.completed.len() {
        if dates.completed.len() < 12 {
            month
        } else {
            month - 1
        }
    } else {
        0
    }
}

proof fn lemma_request_of_month(
    today: int,
    year: int,
    mode: CurrentMonthRateMode,
    month: int,
)
    requires
        can_be_dated(today, year, mode),
        1 <= month <= 12,
    ensures
        ({
            let dates = year_dates(today, year, mode);
            let place = place_of(dates, month);
            &&& dates.completed.len() <= 12
            &&& 0 <= place < year_requests(dates).len()
            &&& is_request_for(year_requests(dates)[place], today, year, month, mode)
        }),
{
    let dates = year_dates(today, year, mode);
    let c = civil(today);
    lemma_civil(today);
    let over = months_over(today, year);
    assert(dates.completed.len() == over);
    assert(is_over(today, year, month) <==> month <= over);
    if month <= over {
        assert(dates.completed[month - 1] == (month, month_end(year, month)));
        assert(is_date(year, month, 1));
        the_end_of_a_month_is_its_last_day(year, month);
    } else if mode is PreviousMonthEnd {
        if c.1 == 1 {
            lemma_month_end(c.0 - 1, 12);
        } else {
            lemma_month_end(c.0, c.1 - 1);
        }
    }
}

proof fn lemma_request_has_a_month(
    today: int,
    year: int,
    mode: CurrentMonthRateMode,
    q: int,
) -> (month: int)
    requires
        can_be_dated(today, year, mode),
        0 <= q < year_requests(year_dates(today, year, mode)).len(),
    ensures
        1 <= month <= 12,
        place_of(year_dates(today, year, mode), month) == q,
{
    let dates = year_dates(today, year, mode);
    let over = dates.completed.len() as int;
    lemma_civil(today);
    if over == 12 {
        q + 1
    } else if q == 0 {
        over + 1
    } else {
        q
    }
}

/// Whether a request is the one for some month of a year.
pub open spec fn is_for_some_month(
    request: RequestView,
    today: int,
    year: int,
    mode: CurrentMonthRateMode,
) -> bool {
    exists|month: int|
        1 <= month <= 12 && #[trigger] is_request_for(request, today, year, month, mode)
}

/// The questions of a year are those for its months: one of them is for a given month,
/// and none is asked that is for no month.
pub proof fn the_questions_of_a_year_are_for_its_months(
    today: int,
    year: int,
    mode: CurrentMonthRateMode,
    month: int,
)
    requires
        can_be_dated(today, year, mode),
        1 <= month <= 12,
    ensures
        ({
            let asked = year_requests(year_dates(today, year, mode));
            &&& exists|q: int|
                0 <= q < asked.len() && #[trigger] is_request_for(
                    asked[q],
                    today,
                    year,
                    month,
                    mode,
                )
            &&& forall|q: int|
                0 <= q < asked.len() ==> is_for_some_month(#[trigger] asked[q], today, year, mode)
        }),
{
    let dates = year_dates(today, year, mode);
    let asked = year_requests(dates);
    lemma_request_of_month(today, year, mode, month);
    assert(is_request_for(asked[place_of(dates, month)], today, year, month, mode));
    assert forall|q: int| 0 <= q < asked.len() implies is_for_some_month(
        #[trigger] asked[q],
        today,
        year,
        mode,
    ) by {
        let m = lemma_request_has_a_month(today, year, mode, q);
        lemma_request_of_month(today, year, mode, m);
        assert(is_request_for(asked[q], today, year, m, mode));
    }
}

proof fn lemma_year_of(
    today: int,
    year: int,
    mode: CurrentMonthRateMode,
    answers: Seq<Rate>,
    month: int,
)
    requires
        can_be_dated(today, year, mode),
        1 <= month <= 12,
    ensures
        ({
            let dates = year_dates(today, year, mode);
            &&& year_of(dates, answers) is Some <==> answers.len() >= year_requests(dates).len()
            &&& year_of(dates, answers) matches Some(rates) ==> rates.len() == 12 && rates[month - 1]
                == answers[place_of(dates, month)]
        }),
{
    lemma_civil(today);
}

proof fn lemma_year_table(
    reference: Seq<char>,
    currencies: Seq<Seq<char>>,
    dates: YearDatesView,
    answers: spec_fn(Seq<char>) -> Seq<Rate>,
    n: int,
    k: int,
    i: int,
)
    requires
        texts_increase(currencies),
        0 <= n <= currencies.len(),
        0 <= k < currencies.len(),
        0 <= i < 12,
    ensures
        ({
            let table = year_table(reference, currencies, dates, answers, n);
            let rates = year_of(dates, answers(currencies[k]));
            &&& table.reference == reference
            &&& table.months.len() == 12
            &&& table.months[i].contains_key(currencies[k]) <==> k < n && rates is Some
            &&& k < n && rates is Some ==> table.months[i][currencies[k]] == rates->0[i]
        }),
    decreases n,
{
    crate::text::text_order_is_total();
    if n > 0 {
        lemma_year_table(reference, currencies, dates, answers, n - 1, k, i);
        if k < n - 1 {
            assert(currencies[k] != currencies[n - 1]);
        } else if k > n - 1 {
            assert(currencies[n - 1] != currencies[k]);
        }
    }
}

proof fn lemma_answered(
    answers: spec_fn(Seq<char>, int) -> Option<Rate>,
    currency: Seq<char>,
    n: int,
)
    requires
        0 <= n,
    ensures
        answered(answers, currency, n).len() <= n,
        answered(answers, currency, n).len() == n <==> forall|q: int|
            0 <= q < n ==> #[trigger] answers(currency, q) is Some,
        forall|q: int|
            0 <= q < answered(answers, currency, n).len() ==> answers(currency, q) == Some(
                #[trigger] answered(answers, currency, n)[q],
            ),
    decreases n,
{
    if n > 0 {
        lemma_answered(answers, currency, n - 1);
        let before = answered(answers, currency, n - 1);
        if before.len() == n - 1 && answers(currency, n - 1) is Some {
            assert forall|q: int| 0 <= q < n implies #[trigger] answers(currency, q) is Some by {
                if q < n - 1 {
                    assert(answers(currency, q) is Some);
                }
            }
        } else if before.len() == n - 1 {
            assert(!(answers(currency, n - 1) is Some));
        } else {
            let q = choose|q: int| 0 <= q < n - 1 && !(#[trigger] answers(currency, q) is Some);
            assert(!(answers(currency, q) is Some));
        }
    }
}

proof fn lemma_left_out(
    currencies: Seq<Seq<char>>,
    dates: YearDatesView,
    answers: spec_fn(Seq<char>) -> Seq<Rate>,
    n: int,
    k: int,
)
    requires
        texts_increase(currencies),
        0 <= n <= currencies.len(),
        0 <= k < currencies.len(),
    ensures
        left_out(currencies, dates, answers, n).contains(currencies[k]) <==> k < n && year_of(
            dates,
            answers(currencies[k]),
        ) is None,
    decreases n,
{
    crate::text::text_order_is_total();
    if n > 0 {
        lemma_left_out(currencies, dates, answers, n - 1, k);
        let before = left_out(currencies, dates, answers, n - 1);
        let after = left_out(currencies, dates, answers, n);
        if k < n - 1 {
            assert(currencies[k] != currencies[n - 1]);
        } else if k > n - 1 {
            assert(currencies[n - 1] != currencies[k]);
        }
        if before.contains(currencies[k]) {
            let j = choose|j: int| 0 <= j < before.len() && before[j] == currencies[k];
            assert(after[j] == currencies[k]);
        }
        if after.len() > before.len() {
            assert(after[before.len() as int] == currencies[n - 1]);
        }
        if after.contains(currencies[k]) && k != n - 1 {
            let j = choose|j: int| 0 <= j < after.len() && after[j] == currencies[k];
            if j < before.len() {
                assert(before[j] == currencies[k]);
            }
        }
    }
}

/// Whether a currency has a rate for the request of a month, and which.
pub open spec fn is_rate_of_month(
    asked: spec_fn(Seq<char>, RequestView) -> Option<Rate>,
    currency: Seq<char>,
    today: int,
    year: int,
    month: int,
    mode: CurrentMonthRateMode,
    rate: Rate,
) -> bool {
    exists|request: RequestView| #[trigger]
        is_request_for(request, today, year, month, mode) && asked(currency, request) == Some(rate)
}

/// The request for a month is one and the same, whoever asks.
pub proof fn a_month_has_one_request(
    one: RequestView,
    other: RequestView,
    today: int,
    year: int,
    month: int,
    mode: CurrentMonthRateMode,
)
    requires
        is_request_for(one, today, year, month, mode),
        is_request_for(other, today, year, month, mode),
        one matches RequestView::On(day) ==> is_day(day),
        other matches RequestView::On(day) ==> is_day(day),
    ensures
        one == other,
{
    if is_over(today, year, month) {
        let a = one->On_0;
        let b = other->On_0;
        lemma_civil(a);
        lemma_civil(b);
        let x = civil(a).2;
        let y = civil(b).2;
        assert(x == month_length(year, month));
        assert(y == month_length(year, month));
    }
}

/// The rates of a year, from the questions to the table. Where every currency is asked
/// what the year asks, one question after the other, the table at the end gives for a
/// currency in each month the answer to the request for that month: for a month that is
/// over, the rate of the last day of that month, and for any other month the newest
/// rate or that of the last day before the month in progress. A currency that lacks
/// one of these answers has no rate in any month and is named as unavailable, and a
/// currency that has them all is not.
pub proof fn the_rates_of_a_year_are_those_of_its_months(
    run: YearRunView,
    asked: spec_fn(Seq<char>, RequestView) -> Option<Rate>,
    reference: Seq<char>,
    today: int,
    year: int,
    mode: CurrentMonthRateMode,
    k: int,
    month: int,
    currency: Seq<char>,
)
    requires
        can_be_dated(today, year, mode),
        run.dates == year_dates(today, year, mode),
        run.wf(),
        run.current == 0,
        run.answers.len() == 0,
        run.unavailable.len() == 0,
        run.rates == no_rates(reference),
        texts_increase(run.needed),
        0 <= k < run.needed.len(),
        1 <= month <= 12,
        code_of(currency) == run.needed[k],
        run.needed[k] != reference,
    ensures
        ({
            let questions = year_requests(run.dates);
            let end = carried_out(run, |c: Seq<char>, q: int| asked(c, questions[q]));
            &&& end.is_done()
            &&& !end.unavailable.contains(run.needed[k]) ==> {
                &&& monthly_rate(end.rates, month, currency) matches Ok(rate)
                &&& is_rate_of_month(asked, run.needed[k], today, year, month, mode, rate)
            }
            &&& end.unavailable.contains(run.needed[k]) ==> monthly_rate(
                end.rates,
                month,
                currency,
            ) is Err
            &&& end.unavailable.contains(run.needed[k]) <==> exists|q: int|
                0 <= q < questions.len() && asked(run.needed[k], #[trigger] questions[q]) is None
        }),
{
    let questions = year_requests(run.dates);
    let answers = |c: Seq<char>, q: int| asked(c, questions[q]);
    let end = carried_out(run, answers);
    let name = run.needed[k];
    let n = run.needed.len() as int;
    let said = whole_year(answers, run.dates);
    a_run_resolves_each_currency_by_itself(run, answers, reference);
    lemma_year_table(reference, run.needed, run.dates, said, n, k, month - 1);
    lemma_left_out(run.needed, run.dates, said, n, k);
    lemma_answered(answers, name, questions.len() as int);
    let mine = answered(answers, name, questions.len() as int);
    assert(said(name) == mine);
    lemma_year_of(today, year, mode, mine, month);
    lemma_request_of_month(today, year, mode, month);
    if mine.len() == questions.len() {
        let place = place_of(run.dates, month);
        assert(answers(name, place) == Some(mine[place]));
        assert(is_request_for(questions[place], today, year, month, mode));
        assert forall|q: int| 0 <= q < questions.len() implies asked(
            name,
            #[trigger] questions[q],
        ) is Some by {
            assert(answers(name, q) is Some);
        }
    } else {
        let q = choose|q: int| 0 <= q < questions.len() && !(#[trigger] answers(name, q) is Some);
        assert(asked(name, questions[q]) is None);
    }
}

proof fn lemma_complete_view(
    reference: Seq<char>,
    currencies: Seq<Seq<char>>,
    dates: YearDatesView,
    answers: Seq<Rate>,
    n: int,
    k: int,
    i: int,
)
    requires
        texts_increase(currencies),
        0 <= n <= currencies.len(),
        0 <= k < currencies.len(),
        0 <= i < 12,
    ensures
        ({
            let table = complete_view(reference, currencies, dates, answers, n);
            let mine = column_of(
                answers,
                currencies.len() as int,
                year_requests(dates).len() as int,
                k,
            );
            let rates = year_of(dates, mine);
            &&& table.reference == reference
            &&& table.months.len() == 12
            &&& k < n && rates is Some ==> table.months[i].contains_key(currencies[k])
                && table.months[i][currencies[k]] == rates->0[i]
        }),
    decreases n,
{
    crate::text::text_order_is_total();
    if n > 0 {
        lemma_complete_view(reference, currencies, dates, answers, n - 1, k, i);
        if k < n - 1 {
            assert(currencies[k] != currencies[n - 1]);
        }
    }
}

/// A table that is resolved as a whole gives for a currency in each month the answer
/// to the request for that month, too. The answers come in the order in which the
/// questions about all currencies are listed: all currencies for one question before
/// the next question.
pub proof fn the_rates_of_a_whole_table_are_those_of_its_months(
    reference: Seq<char>,
    currencies: Seq<Seq<char>>,
    answers: Seq<Rate>,
    asked: spec_fn(Seq<char>, RequestView) -> Option<Rate>,
    today: int,
    year: int,
    mode: CurrentMonthRateMode,
    k: int,
    month: int,
    currency: Seq<char>,
)
    requires
        can_be_dated(today, year, mode),
        texts_increase(currencies),
        0 <= k < currencies.len(),
        1 <= month <= 12,
        code_of(currency) == currencies[k],
        currencies[k] != reference,
        ({
            let questions = year_requests(year_dates(today, year, mode));
            forall|q: int, c: int|
                0 <= q < questions.len() && 0 <= c < currencies.len() ==> asked(
                    currencies[c],
                    questions[q],
                ) == Some(#[trigger] answers[q * currencies.len() + c])
        }),
    ensures
        ({
            let table = complete_view(
                reference,
                currencies,
                year_dates(today, year, mode),
                answers,
                currencies.len() as int,
            );
            &&& monthly_rate(table, month, currency) matches Ok(rate)
            &&& is_rate_of_month(asked, currencies[k], today, year, month, mode, rate)
        }),
{
    let dates = year_dates(today, year, mode);
    let questions = year_requests(dates);
    let n = currencies.len() as int;
    let mine = column_of(answers, n, questions.len() as int, k);
    lemma_complete_view(reference, currencies, dates, answers, n, k, month - 1);
    lemma_year_of(today, year, mode, mine, month);
    lemma_request_of_month(today, year, mode, month);
    let place = place_of(dates, month);
    assert(mine[place] == answers[place * currencies.len() + k]);
    assert(is_request_for(questions[place], today, year, month, mode));
}

/// The rates of the other currencies stay as they are when those of one more are
/// added, and in every month the new currency has the rate of that month.
pub proof fn a_currency_is_added_beside_the_others(
    rates: MonthlyView,
    code: Seq<char>,
    year: Seq<Rate>,
    month: int,
    currency: Seq<char>,
)
    requires
        rates.months.len() == 12,
        1 <= month <= 12,
        code_of(currency) != rates.reference,
    ensures
        code_of(currency) == code ==> monthly_rate(with_currency(rates, code, year), month, currency)
            == Ok::<Rate, ErrorView>(year[month - 1]),
        code_of(currency) != code ==> monthly_rate(with_currency(rates, code, year), month, currency)
            == monthly_rate(rates, month, currency),
{
}

} // verus!
