//! What the quotes that are kept make of a rate: which day answers, and which way a
//! rate goes.

use vstd::prelude::*;
use crate::dates::{day_number, text_of, Date};
use crate::error::ErrorView;
use crate::fx::{
    cached_day, day_rate, earlier_day, fresh_latest, key_day, may_alias, rate_between, with_day,
    CacheView, DayView, Quote, Rate, ResolvedView,
};
use crate::fx_batch::{
    largest, open_days, prewarm_of, smallest, stand_in, with_days, with_stand_ins,
};
use crate::fx_keys::{asked, fallback, rates_are, settled_rate, MissingView};

verus! {

/// Whether a quote is what one euro costs in a currency on a day of quotes.
pub open spec fn is_quote(quote: Quote, currency: Seq<char>, rates: Map<Seq<char>, u64>) -> bool {
    match quote {
        Quote::Euro => currency == "EUR"@,
        Quote::Published(bits) => currency != "EUR"@ && rates.contains_key(currency)
            && rates[currency] == bits,
    }
}

/// A rate from one currency into another is one where they are the same, and else the
/// quote of the other divided by the quote of the one. There is none exactly where one
/// of the two quotes is not published.
pub proof fn a_rate_divides_the_quotes(
    currency: Seq<char>,
    reference: Seq<char>,
    rates: Map<Seq<char>, u64>,
)
    ensures
        currency == reference ==> rate_between(currency, reference, rates) == Ok::<Rate, ErrorView>(
            Rate::One,
        ),
        currency != reference ==> (rate_between(currency, reference, rates) is Ok <==> (currency
            == "EUR"@ || rates.contains_key(currency)) && (reference == "EUR"@
            || rates.contains_key(reference))),
        rate_between(currency, reference, rates) matches Ok(Rate::Cross {
            reference: above,
            currency: below,
        }) ==> currency != reference && is_quote(above, reference, rates) && is_quote(
            below,
            currency,
            rates,
        ),
        currency != reference ==> !(rate_between(currency, reference, rates) matches Ok(
            Rate::One,
        )),
        rate_between(currency, reference, rates) matches Err(e) ==> e is NotFound,
{
}

/// The rate back is the rate there turned over.
pub proof fn the_rate_back_is_turned_over(
    one: Seq<char>,
    other: Seq<char>,
    rates: Map<Seq<char>, u64>,
)
    ensures
        rate_between(one, other, rates) matches Ok(Rate::Cross { reference, currency })
            ==> rate_between(other, one, rates) == Ok::<Rate, ErrorView>(
            Rate::Cross { reference: currency, currency: reference },
        ),
{
}

/// What a day of quotes gives for a currency is the rate of its quotes, under the day
/// they were published for.
pub proof fn a_day_gives_its_own_rate(currency: Seq<char>, reference: Seq<char>, day: DayView)
    ensures
        day_rate(currency, reference, day) matches Some(found) ==> found.rate_date == Some(day.date)
            && rate_between(currency, reference, day.rates) == Ok::<Rate, ErrorView>(found.rate),
        day_rate(currency, reference, day) is None <==> rate_between(
            currency,
            reference,
            day.rates,
        ) is Err,
{
}

/// The newest quotes that were kept are fresh for an hour: asked for within it they are
/// the answer, and later, or at an earlier time, there is none.
pub proof fn the_newest_quotes_are_fresh_for_an_hour(
    cache: CacheView,
    date: int,
    rates: Map<Seq<char>, u64>,
    kept_at: i64,
    now: int,
)
    requires
        key_day(text_of(date)) == Ok::<int, ErrorView>(date),
    ensures
        ({
            let after = CacheView {
                latest_date: Some(text_of(date)),
                latest_fetched_at: Some(kept_at),
                ..with_day(cache, date, rates, None)
            };
            fresh_latest(after, now) == Ok::<Option<DayView>, ErrorView>(
                if kept_at <= now && now < kept_at + 60 * 60 {
                    Some(DayView { date, rates })
                } else {
                    None
                },
            )
        }),
{
}

/// Another day stands in for good only for a day that is a week old.
pub proof fn a_day_is_frozen_after_a_week(requested: int, returned: int, today: int)
    ensures
        may_alias(requested, returned, today) <==> requested != returned && requested + 7 <= today,
{
}

/// Keeping a day of quotes leaves what the cache holds for every other day as it is,
/// but for the day it stands in for, and for the days that it stood in for already.
pub proof fn keeping_a_day_leaves_the_others(
    cache: CacheView,
    returned: int,
    rates: Map<Seq<char>, u64>,
    alias_for: Option<int>,
    date: int,
)
    requires
        text_of(date) != text_of(returned),
        alias_for matches Some(requested) ==> text_of(date) != text_of(requested),
        cache.aliases.contains_key(text_of(date)) ==> cache.aliases[text_of(date)] != text_of(
            returned,
        ),
    ensures
        cached_day(with_day(cache, returned, rates, alias_for), date) == cached_day(cache, date),
        with_day(cache, returned, rates, alias_for).base == cache.base,
        with_day(cache, returned, rates, alias_for).latest_date == cache.latest_date,
        with_day(cache, returned, rates, alias_for).latest_fetched_at == cache.latest_fetched_at,
{
}

/// Every day of a list that was kept is found, with the quotes that the last entry of
/// its date has.
pub proof fn every_kept_day_is_found(cache: CacheView, days: Seq<DayView>, n: int, i: int)
    requires
        0 <= i < n <= days.len(),
        forall|k: int| i < k < n ==> text_of((#[trigger] days[k]).date) != text_of(days[i].date),
    ensures
        cached_day(with_days(cache, days, n), days[i].date) == Ok::<Option<DayView>, ErrorView>(
            Some(days[i]),
        ),
    decreases n,
{
    if i < n - 1 {
        every_kept_day_is_found(cache, days, n - 1, i);
        lemma_quotes_found(cache, days, n - 1, i);
        assert(text_of(days[n - 1].date) != text_of(days[i].date));
    }
}

proof fn lemma_quotes_found(cache: CacheView, days: Seq<DayView>, n: int, i: int)
    requires
        0 <= i < n <= days.len(),
    ensures
        with_days(cache, days, n).rates.contains_key(text_of(days[i].date)),
    decreases n,
{
    if i < n - 1 {
        lemma_quotes_found(cache, days, n - 1, i);
    }
}

/// Whether a day may stand in for another, by its keys: quotes are kept for it, it is
/// an earlier day by its text, it is not before a bound, and the other is a week old.
pub open spec fn may_stand_in(
    cache: CacheView,
    published: int,
    date: int,
    min: int,
    today: int,
) -> bool {
    &&& min <= published
    &&& published != date
    &&& date + 7 <= today
    &&& earlier_day(cache, text_of(date)) matches Ok(Some(day)) && day.date == published
}

/// A day gets another to stand in for it where it has neither quotes nor another day
/// yet, and where the last day before it may.
pub proof fn a_stand_in_is_the_last_day_before(
    cache: CacheView,
    date: int,
    min: int,
    today: int,
)
    ensures
        match stand_in(cache, date, min, today) {
            Some(published) => may_stand_in(cache, published, date, min, today)
                && !cache.rates.contains_key(text_of(date)) && !cache.aliases.contains_key(
                text_of(date),
            ),
            None => cache.rates.contains_key(text_of(date)) || cache.aliases.contains_key(
                text_of(date),
            ) || forall|published: int|
                !#[trigger] may_stand_in(cache, published, date, min, today),
        },
{
}

/// Merging a range gives stand-ins to days of the range alone, and quotes to none.
pub proof fn stand_ins_are_for_the_days_of_the_range(
    cache: CacheView,
    dates: Seq<int>,
    min: int,
    today: int,
    n: int,
    key: Seq<char>,
)
    requires
        0 <= n <= dates.len(),
        with_stand_ins(cache, dates, min, today, n).aliases.contains_key(key),
        !cache.aliases.contains_key(key),
    ensures
        with_stand_ins(cache, dates, min, today, n).rates == cache.rates,
        exists|k: int|
            0 <= k < n && key == text_of(#[trigger] dates[k]) && dates[k] + 7 <= today && exists|
                published: int,
            |
                min <= published && published != dates[k] && with_stand_ins(
                    cache,
                    dates,
                    min,
                    today,
                    n,
                ).aliases[key] == #[trigger] text_of(published),
    decreases n,
{
    lemma_rates_stay(cache, dates, min, today, n);
    if n > 0 {
        let before = with_stand_ins(cache, dates, min, today, n - 1);
        let after = with_stand_ins(cache, dates, min, today, n);
        if before.aliases.contains_key(key) {
            stand_ins_are_for_the_days_of_the_range(cache, dates, min, today, n - 1, key);
            crate::fx_laws::recorded_stand_ins_stay(before, seq![dates[n - 1]], min, today, 1, key);
            assert(after.aliases[key] == before.aliases[key]);
            let k = choose|k: int|
                0 <= k < n - 1 && key == text_of(#[trigger] dates[k]) && dates[k] + 7 <= today
                    && exists|published: int|
                    min <= published && published != dates[k] && before.aliases[key]
                        == #[trigger] text_of(published);
            assert(key == text_of(dates[k]));
        } else {
            let published = stand_in(before, dates[n - 1], min, today)->0;
            assert(after.aliases[key] == text_of(published));
            assert(key == text_of(dates[n - 1]));
        }
    }
}

proof fn lemma_rates_stay(cache: CacheView, dates: Seq<int>, min: int, today: int, n: int)
    ensures
        with_stand_ins(cache, dates, min, today, n).rates == cache.rates,
    decreases n,
{
    if n > 0 {
        lemma_rates_stay(cache, dates, min, today, n - 1);
    }
}

proof fn lemma_open_days(cache: CacheView, dates: Seq<int>, n: int)
    requires
        0 <= n <= dates.len(),
    ensures
        open_days(cache, dates, n) matches Some(open) ==> (forall|d: int| #[trigger]
            open.contains(d) <==> (cached_day(cache, d) matches Ok(None)) && exists|i: int|
                0 <= i < n && #[trigger] dates[i] == d),
        open_days(cache, dates, n) is None <==> exists|i: int|
            0 <= i < n && cached_day(cache, #[trigger] dates[i]) is Err,
    decreases n,
{
    if n > 0 {
        lemma_open_days(cache, dates, n - 1);
        let last = dates[n - 1];
        if exists|i: int| 0 <= i < n - 1 && cached_day(cache, #[trigger] dates[i]) is Err {
            let i = choose|i: int| 0 <= i < n - 1 && cached_day(cache, #[trigger] dates[i]) is Err;
            assert(0 <= i < n && cached_day(cache, dates[i]) is Err);
        }
        if let (Some(before), Some(open)) = (
            open_days(cache, dates, n - 1),
            open_days(cache, dates, n),
        ) {
            assert forall|d: int| #[trigger] open.contains(d) <==> (cached_day(cache, d) matches Ok(
                None,
            )) && exists|i: int| 0 <= i < n && #[trigger] dates[i] == d by {
                assert(before.contains(d) <==> (cached_day(cache, d) matches Ok(None)) && exists|
                    i: int,
                |
                    0 <= i < n - 1 && #[trigger] dates[i] == d);
                if open.contains(d) {
                    let j = choose|j: int| 0 <= j < open.len() && open[j] == d;
                    if j < before.len() {
                        assert(before[j] == d);
                    }
                }
                if before.contains(d) {
                    let j = choose|j: int| 0 <= j < before.len() && before[j] == d;
                    assert(open[j] == d);
                }
                if open.len() > before.len() {
                    assert(open[before.len() as int] == last);
                }
            }
        }
    }
}

proof fn lemma_bounds(dates: Seq<int>, d: int)
    requires
        dates.contains(d),
    ensures
        smallest(dates) <= d <= largest(dates),
    decreases dates.len(),
{
    let i = choose|i: int| 0 <= i < dates.len() && dates[i] == d;
    if dates.len() > 1 {
        if i < dates.len() - 1 {
            assert(dates.drop_last()[i] == d);
            lemma_bounds(dates.drop_last(), d);
        } else {
            assert(dates.drop_last().contains(dates.drop_last()[0]));
            lemma_bounds(dates.drop_last(), dates.drop_last()[0]);
        }
    }
}

/// A range that is fetched covers what is open: every day that is asked for and that
/// the cache does not answer lies in the range, or is named as outside it. The range
/// begins no earlier than the first published day, the fourth of January 1999, and
/// ends no later than today. No day is named in both lists, and none that the cache
/// answers.
pub proof fn a_range_covers_what_is_open(
    cache: CacheView,
    dates: Seq<int>,
    offline: bool,
    today: int,
    d: int,
)
    requires
        prewarm_of(cache, dates, offline, today) is Fetch,
    ensures
        ({
            let plan = prewarm_of(cache, dates, offline, today);
            let min = plan->min;
            let max = plan->max;
            let older = plan->older;
            let in_range = plan->in_range;
            &&& !offline
            &&& day_number(1999, 1, 4) <= min
            &&& max <= today
            &&& in_range.len() > 0
            &&& dates.contains(d) && (cached_day(cache, d) matches Ok(None)) <==> (
            in_range.contains(d) || older.contains(d))
            &&& in_range.contains(d) ==> min <= d <= max && !older.contains(d)
            &&& older.contains(d) ==> d < min || today < d
        }),
{
    let open = open_days(cache, dates, dates.len() as int)->0;
    let plan = prewarm_of(cache, dates, offline, today);
    lemma_open_days(cache, dates, dates.len() as int);
    open.filter_lemma(crate::fx_batch::within(plan->min, today));
    open.filter_lemma(crate::fx_batch::outside(plan->min, today));
    assert(open.contains(d) <==> (cached_day(cache, d) matches Ok(None)) && exists|i: int|
        0 <= i < dates.len() && #[trigger] dates[i] == d);
    if open.contains(d) {
        lemma_bounds(open, d);
        let i = choose|i: int| 0 <= i < open.len() && open[i] == d;
        if crate::fx_batch::within(plan->min, today)(d) {
            assert(plan->in_range.contains(open[i]));
        } else {
            assert(crate::fx_batch::outside(plan->min, today)(open[i]));
            assert(plan->older.contains(open[i]));
        }
    }
    lemma_filtered(open, crate::fx_batch::within(plan->min, today), d);
    lemma_filtered(open, crate::fx_batch::outside(plan->min, today), d);
}

proof fn lemma_filtered(list: Seq<int>, pred: spec_fn(int) -> bool, d: int)
    ensures
        list.filter(pred).contains(d) ==> list.contains(d) && pred(d),
    decreases list.len(),
{
    reveal(Seq::filter);
    if list.len() > 0 {
        let rest = list.drop_last();
        lemma_filtered(rest, pred, d);
        if list.filter(pred).contains(d) {
            let i = choose|i: int| 0 <= i < list.filter(pred).len() && list.filter(pred)[i] == d;
            if i < rest.filter(pred).len() {
                assert(rest.filter(pred)[i] == d);
                let j = choose|j: int| 0 <= j < rest.len() && rest[j] == d;
                assert(list[j] == d);
            } else {
                assert(list[list.len() - 1] == d);
            }
        }
    }
}

/// No range is fetched where nothing is asked for, where the network may not be used,
/// and where the cache answers every day.
pub proof fn no_range_is_fetched_without_need(
    cache: CacheView,
    dates: Seq<int>,
    offline: bool,
    today: int,
)
    requires
        dates.len() == 0 || offline || forall|i: int|
            0 <= i < dates.len() ==> (cached_day(cache, #[trigger] dates[i]) matches Ok(Some(_))),
    ensures
        prewarm_of(cache, dates, offline, today) is Skip,
{
    lemma_open_days(cache, dates, dates.len() as int);
    if let Some(open) = open_days(cache, dates, dates.len() as int) {
        if open.len() > 0 {
            assert(open.contains(open[0]));
        }
    }
}

/// A rate that was looked up is that of the day that answers for its own date: the
/// quotes that the cache holds for the date decide, with the day they were published
/// for. No other quotes come in, and no rate is given that was not asked for.
pub proof fn a_looked_up_rate_is_that_of_its_day(
    rates: Map<(int, Seq<char>), ResolvedView>,
    keys: Seq<(Date, String)>,
    cache: CacheView,
    outcomes: Seq<(int, MissingView)>,
    reference: Seq<char>,
    date: int,
    currency: Seq<char>,
    day: DayView,
)
    requires
        rates_are(rates, keys, cache, outcomes, reference),
        cached_day(cache, date) == Ok::<Option<DayView>, ErrorView>(Some(day)),
    ensures
        rates.contains_key((date, currency)) ==> {
            &&& asked(keys, reference, date, currency)
            &&& rates[(date, currency)].rate_date == Some(day.date)
            &&& rate_between(currency, reference, day.rates) == Ok::<Rate, ErrorView>(
                rates[(date, currency)].rate,
            )
        },
        asked(keys, reference, date, currency) && rate_between(
            currency,
            reference,
            day.rates,
        ) is Ok ==> rates.contains_key((date, currency)),
{
    assert(settled_rate(cache, outcomes, reference, date, currency) == Some(
        day_rate(currency, reference, day),
    ));
}

/// A day without quotes that cannot be fetched is answered by the last day before it,
/// or not at all.
pub proof fn a_failed_day_falls_back(cache: CacheView, date: int)
    ensures
        fallback(cache, date) matches MissingView::Fallback(day) ==> earlier_day(
            cache,
            text_of(date),
        ) == Ok::<Option<DayView>, ErrorView>(Some(day)),
        !(fallback(cache, date) is Fallback) ==> fallback(cache, date) is Failed && !(earlier_day(
            cache,
            text_of(date),
        ) matches Ok(Some(_))),
{
}

} // verus!
