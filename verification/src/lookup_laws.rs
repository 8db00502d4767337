//! How quotes are looked up: what is asked of the network, what stands in for it, and
//! what an answer gives.

use vstd::prelude::*;
use crate::dates::{a_day_number_names_one_date, civil, day_number, text_of};
use crate::error::ErrorView;
use crate::facts::{needs_key, rate_key_before, rate_keys_increase, FactView, RateKey};
use crate::fx::{
    cached_day, code_of, day_rate, earlier_day, fresh_latest, key_day, latest_of, lookup_of,
    newest_day, or_failure, series_start, CacheView, DayView, LookupView, Rate, ResolvedView,
};
use crate::fx_batch::{clamped, dated, stand_in, stand_in_count, with_stand_ins};
use crate::fx_keys::{fallback, fetched_as, step_of, MissingView, StepView};
use crate::fx_monthly::{
    batch_cache, batch_rate, batch_step, earlier_or_none, rate_of_day, BatchView,
};
use crate::text::{
    text_before, text_order_is_total, trimmed, upper_case, white_space,
    white_space_around_does_not_matter,
};
use crate::text_map::{is_first, is_last, is_last_before};

verus! {

/// Quotes are published from 4 January 1999 on.
pub proof fn the_series_begins_in_january_1999()
    ensures
        series_start() == day_number(1999, 1, 4),
        civil(series_start()) == (1999int, 1int, 4int),
{
    a_day_number_names_one_date(1999, 1, 4);
}

/// A range never begins before the day it was asked from. It begins later only where the
/// cache begins later, and then on the first day that is kept.
pub proof fn a_range_begins_no_earlier_than_the_cache(min: int, cache: CacheView, first: Seq<char>)
    ensures
        clamped(min, cache) >= min,
        cache.rates.dom() == Set::<Seq<char>>::empty() ==> clamped(min, cache) == min,
        is_first(cache.rates.dom(), first) ==> match key_day(first) {
            Ok(day) => {
                &&& day > min ==> clamped(min, cache) == day
                &&& day <= min ==> clamped(min, cache) == min
            },
            Err(_) => clamped(min, cache) == min,
        },
{
    let keys = cache.rates.dom();
    text_order_is_total();
    if is_first(keys, first) {
        let other = choose|key: Seq<char>| is_first(keys, key);
        assert(is_first(keys, other));
        assert(keys.contains(first) && keys.contains(other));
        assert(other == first);
    }
}

/// Whether no later day of an answer is the day at a position once more.
pub open spec fn is_last_word(
    response: Seq<(Seq<char>, Map<Seq<char>, u64>)>,
    n: int,
    i: int,
) -> bool {
    forall|j: int| i < j < n ==> key_day((#[trigger] response[j]).0) != key_day(response[i].0)
}

/// Each day that an answer names has the quotes that stand beside it there.
pub proof fn the_days_of_an_answer_have_their_quotes(
    response: Seq<(Seq<char>, Map<Seq<char>, u64>)>,
    n: int,
    days: Map<int, Map<Seq<char>, u64>>,
    i: int,
)
    requires
        0 <= i < n <= response.len(),
        dated(response, n) == Ok::<Map<int, Map<Seq<char>, u64>>, ErrorView>(days),
    ensures
        key_day(response[i].0) is Ok,
        days.contains_key(key_day(response[i].0)->Ok_0),
        is_last_word(response, n, i) ==> days[key_day(response[i].0)->Ok_0] == response[i].1,
    decreases n,
{
    if i < n - 1 {
        let before = dated(response, n - 1)->Ok_0;
        the_days_of_an_answer_have_their_quotes(response, n - 1, before, i);
        if is_last_word(response, n, i) {
            assert(is_last_word(response, n - 1, i));
            assert(key_day(response[n - 1].0) != key_day(response[i].0));
        }
    }
}

/// An answer gives no other days than those it names.
pub proof fn an_answer_gives_the_days_it_names(
    response: Seq<(Seq<char>, Map<Seq<char>, u64>)>,
    n: int,
    days: Map<int, Map<Seq<char>, u64>>,
    day: int,
) -> (i: int)
    requires
        0 <= n <= response.len(),
        dated(response, n) == Ok::<Map<int, Map<Seq<char>, u64>>, ErrorView>(days),
        days.contains_key(day),
    ensures
        0 <= i < n,
        key_day(response[i].0) == Ok::<int, ErrorView>(day),
    decreases n,
{
    if key_day(response[n - 1].0) == Ok::<int, ErrorView>(day) {
        n - 1
    } else {
        let before = dated(response, n - 1)->Ok_0;
        an_answer_gives_the_days_it_names(response, n - 1, before, day)
    }
}

/// An answer whose names are all days is never refused.
pub proof fn an_answer_of_days_is_taken(response: Seq<(Seq<char>, Map<Seq<char>, u64>)>, n: int)
    requires
        0 <= n <= response.len(),
        forall|i: int| 0 <= i < n ==> key_day((#[trigger] response[i]).0) is Ok,
    ensures
        dated(response, n) is Ok,
    decreases n,
{
    if n > 0 {
        an_answer_of_days_is_taken(response, n - 1);
    }
}

/// The keys of the rates to look up stand in the order of their days, and those of one
/// day in the order of their currencies.
pub proof fn keys_stand_in_the_order_of_their_days(keys: Seq<RateKey>, i: int, j: int)
    requires
        rate_keys_increase(keys),
        0 <= i < j < keys.len(),
    ensures
        keys[i].0 <= keys[j].0,
        keys[i].0 == keys[j].0 ==> text_before(keys[i].1, keys[j].1),
{
    assert(rate_key_before(keys[i], keys[j]));
}

/// Where the last key before a day is known, its quotes stand in for the day, under the
/// date that the key names: offline, after a failed fetch, and for a rate of a batch.
pub proof fn the_last_day_before_stands_in(cache: CacheView, date: int, key: Seq<char>, day: int)
    requires
        cache.rates.contains_key(key),
        text_before(key, text_of(date)),
        forall|k: Seq<char>| #[trigger]
            cache.rates.contains_key(k) && text_before(k, text_of(date)) ==> k == key
                || text_before(k, key),
        key_day(key) == Ok::<int, ErrorView>(day),
    ensures
        ({
            let found = DayView { date: day, rates: cache.rates[key] };
            &&& earlier_day(cache, text_of(date)) == Ok::<Option<DayView>, ErrorView>(Some(found))
            &&& earlier_or_none(cache, date) == Some(found)
            &&& fallback(cache, date) == MissingView::Fallback(found)
            &&& forall|currency: Seq<char>, reference: Seq<char>| #[trigger]
                rate_of_day(currency, reference, earlier_or_none(cache, date)) == day_rate(
                    currency,
                    reference,
                    found,
                )
            &&& forall|failure: ErrorView|
                #[trigger] or_failure(earlier_day(cache, text_of(date)), failure) == Ok::<
                    DayView,
                    ErrorView,
                >(found)
        }),
{
    let keys = cache.rates.dom();
    let bound = text_of(date);
    text_order_is_total();
    assert(is_last_before(keys, bound, key));
    let chosen = choose|k: Seq<char>| is_last_before(keys, bound, k);
    assert(is_last_before(keys, bound, chosen));
    assert(keys.contains(chosen) && keys.contains(key));
    assert(chosen == key);
}

/// Where no key lies before a day, nothing stands in for it, and the failure is answered.
pub proof fn nothing_stands_in_where_nothing_is_kept_before(cache: CacheView, date: int)
    requires
        forall|k: Seq<char>| #[trigger]
            cache.rates.contains_key(k) ==> !text_before(k, text_of(date)),
    ensures
        earlier_or_none(cache, date) is None,
        fallback(cache, date) is Failed,
        forall|failure: ErrorView| #[trigger]
            or_failure(earlier_day(cache, text_of(date)), failure) == Err::<DayView, ErrorView>(
                failure,
            ),
{
    let keys = cache.rates.dom();
    let bound = text_of(date);
    if exists|key: Seq<char>| is_last_before(keys, bound, key) {
        let key = choose|key: Seq<char>| is_last_before(keys, bound, key);
        assert(is_last_before(keys, bound, key));
        assert(cache.rates.contains_key(key));
    }
}

/// The newest quotes that are kept are those under the last key.
pub proof fn the_newest_quotes_are_under_the_last_key(cache: CacheView, key: Seq<char>, day: int)
    requires
        is_last(cache.rates.dom(), key),
        key_day(key) == Ok::<int, ErrorView>(day),
    ensures
        newest_day(cache) == Ok::<Option<DayView>, ErrorView>(
            Some(DayView { date: day, rates: cache.rates[key] }),
        ),
{
    let keys = cache.rates.dom();
    text_order_is_total();
    let chosen = choose|k: Seq<char>| is_last(keys, k);
    assert(is_last(keys, chosen));
    assert(keys.contains(chosen) && keys.contains(key));
    assert(chosen == key);
}

/// A lookup goes to the network only where nothing is kept and the network may be used.
/// What is kept is found without it, and where it may not be used what stands in is found,
/// or it is told that nothing does.
pub proof fn the_network_is_asked_last(cache: CacheView, date: int, now: int, offline: bool)
    ensures
        lookup_of(cache, date, offline) == Ok::<LookupView, ErrorView>(LookupView::Fetch) <==> (
        cached_day(cache, date) matches Ok(None)) && !offline,
        latest_of(cache, now, offline) == Ok::<LookupView, ErrorView>(LookupView::Fetch) <==> (
        fresh_latest(cache, now) matches Ok(None)) && !offline,
        cached_day(cache, date) matches Ok(Some(day)) ==> lookup_of(cache, date, offline) == Ok::<
            LookupView,
            ErrorView,
        >(LookupView::Found(day)),
        fresh_latest(cache, now) matches Ok(Some(day)) ==> latest_of(cache, now, offline) == Ok::<
            LookupView,
            ErrorView,
        >(LookupView::Found(day)),
        offline && (cached_day(cache, date) matches Ok(None)) ==> (earlier_day(
            cache,
            text_of(date),
        ) matches Ok(Some(day)) ==> lookup_of(cache, date, offline) == Ok::<LookupView, ErrorView>(
            LookupView::Found(day),
        )),
        offline && (fresh_latest(cache, now) matches Ok(None)) ==> (newest_day(cache) matches Ok(
            Some(day),
        ) ==> latest_of(cache, now, offline) == Ok::<LookupView, ErrorView>(
            LookupView::Found(day),
        )),
        offline && (cached_day(cache, date) matches Ok(None)) && (earlier_day(
            cache,
            text_of(date),
        ) matches Ok(None)) ==> (lookup_of(cache, date, offline) matches Err(e) && e.status()
            == 404),
        offline && (fresh_latest(cache, now) matches Ok(None)) && (newest_day(cache) matches Ok(
            None,
        )) ==> (latest_of(cache, now, offline) matches Err(e) && e.status() == 404),
{
}

/// A missing day is fetched only where the cache lacks it, the network may be used, and
/// quotes can be published for it: from 4 January 1999 to today. What is kept answers
/// first, and what was fetched counts only once it is stored.
pub proof fn a_missing_day_is_fetched_where_it_can_be(
    cache: CacheView,
    date: int,
    may_fetch: bool,
    today: int,
    day: DayView,
    stored: bool,
)
    ensures
        step_of(cache, date, may_fetch, today) is Fetch <==> may_fetch && day_number(1999, 1, 4)
            <= date <= today && !(cached_day(cache, date) matches Ok(Some(_))),
        cached_day(cache, date) matches Ok(Some(kept)) ==> step_of(cache, date, may_fetch, today)
            == StepView::Settled(MissingView::Hit(kept)),
        step_of(cache, date, may_fetch, today) matches StepView::Settled(outcome) ==> !(
        cached_day(cache, date) matches Ok(Some(_))) ==> outcome == fallback(cache, date),
        fetched_as(cache, date, Some(day), true) == MissingView::Fetched(day),
        fetched_as(cache, date, Some(day), false).day() is None,
        fetched_as(cache, date, None, stored) == fallback(cache, date),
{
}

/// A batch asks the network only for a rate between two currencies whose day it does not
/// keep. A rate whose day was fetched and stored is that of the day, which is then found
/// without the network; one whose day could not be stored is unavailable, and nothing is
/// kept of it.
pub proof fn a_batch_fetches_a_day_once(
    cache: CacheView,
    date: int,
    from: Seq<char>,
    into: Seq<char>,
    may_fetch: bool,
    rates: Map<Seq<char>, u64>,
    today: int,
)
    ensures
        batch_step(cache, date, from, into, may_fetch) is Fetch <==> from != into && may_fetch && (
        cached_day(cache, date) matches Ok(None)),
        from == into ==> batch_step(cache, date, from, into, may_fetch) == BatchView::Done(
            Some(ResolvedView { rate: Rate::One, rate_date: None }),
        ),
        ({
            let day = DayView { date, rates };
            let after = batch_cache(cache, date, day, today, true);
            &&& batch_rate(from, into, day, true) == day_rate(from, into, day)
            &&& from != into ==> batch_step(after, date, from, into, may_fetch) == BatchView::Done(
                day_rate(from, into, day),
            )
            &&& batch_rate(from, into, day, false) is None
            &&& batch_cache(cache, date, day, today, false) == cache
        }),
{
}

/// The number that is told of the days that got a stand-in is how many days have one more
/// than before.
pub proof fn the_days_that_got_a_stand_in_are_counted(
    cache: CacheView,
    dates: Seq<int>,
    min: int,
    today: int,
    n: int,
)
    requires
        0 <= n <= dates.len(),
        cache.aliases.dom().finite(),
    ensures
        with_stand_ins(cache, dates, min, today, n).aliases.dom().finite(),
        with_stand_ins(cache, dates, min, today, n).aliases.dom().len() == cache.aliases.dom().len()
            + stand_in_count(cache, dates, min, today, n),
    decreases n,
{
    if n > 0 {
        the_days_that_got_a_stand_in_are_counted(cache, dates, min, today, n - 1);
        let before = with_stand_ins(cache, dates, min, today, n - 1);
        if let Some(published) = stand_in(before, dates[n - 1], min, today) {
            let key = text_of(dates[n - 1]);
            assert(!before.aliases.contains_key(key));
            assert(before.aliases.insert(key, text_of(published)).dom()
                =~= before.aliases.dom().insert(key));
        }
    }
}

/// A rate is looked up for every fact in another currency, for its own day, and for
/// nothing else: never for the reference currency.
pub proof fn a_rate_is_looked_up_for_every_fact(
    facts: Seq<FactView>,
    reference: Seq<char>,
    i: int,
    key: RateKey,
)
    requires
        0 <= i < facts.len(),
    ensures
        code_of(facts[i].currency) != code_of(reference) ==> needs_key(
            facts,
            reference,
            (facts[i].date, code_of(facts[i].currency)),
        ),
        needs_key(facts, reference, key) ==> key.1 != code_of(reference) && exists|k: int|
            0 <= k < facts.len() && (#[trigger] facts[k]).date == key.0 && code_of(
                facts[k].currency,
            ) == key.1,
{
}

/// The code of a currency is its name in upper case; white space around it does not
/// matter.
pub proof fn a_code_is_in_upper_case(before: Seq<char>, name: Seq<char>, after: Seq<char>)
    requires
        forall|i: int| 0 <= i < before.len() ==> white_space(#[trigger] before[i]),
        forall|i: int| 0 <= i < after.len() ==> white_space(#[trigger] after[i]),
        name.len() > 0,
        !white_space(name[0]),
        !white_space(name.last()),
    ensures
        code_of(before + name + after) == upper_case(name),
{
    white_space_around_does_not_matter(before, name, after);
    assert(trimmed(name) == name);
}

} // verus!
