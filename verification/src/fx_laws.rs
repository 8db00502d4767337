//! What holds of the cache of exchange rates.

use vstd::prelude::*;
use crate::date_laws::date_texts_sort_like_dates;
use crate::dates::{civil, is_day, text_of};
use crate::error::ErrorView;
use crate::fx::{
    cached_day, key_day, rate_between, with_day, CacheView, DayView, Rate, ALIAS_MIN_AGE_DAYS,
};
use crate::fx_batch::with_stand_ins;
use crate::text::text_order_is_total;
use crate::text_map::{is_last_before, last_before};

verus! {

/// A day of quotes that was kept is found again, under its own date.
pub proof fn a_kept_day_is_found(
    cache: CacheView,
    returned: int,
    rates: Map<Seq<char>, u64>,
    alias_for: Option<int>,
)
    ensures
        cached_day(with_day(cache, returned, rates, alias_for), returned) == Ok::<
            Option<DayView>,
            ErrorView,
        >(Some(DayView { date: returned, rates })),
{
}

/// A day recorded as standing in for another is found for that other day too, and
/// the answer names the day the quotes were published for.
pub proof fn a_stand_in_is_found(
    cache: CacheView,
    requested: int,
    returned: int,
    rates: Map<Seq<char>, u64>,
)
    requires
        !cache.rates.contains_key(text_of(requested)),
        text_of(requested) != text_of(returned),
        key_day(text_of(returned)) == Ok::<int, ErrorView>(returned),
    ensures
        cached_day(with_day(cache, returned, rates, Some(requested)), requested) == Ok::<
            Option<DayView>,
            ErrorView,
        >(Some(DayView { date: returned, rates })),
{
}

/// A day that is not old enough is never frozen: merging a range records no
/// stand-in for it.
pub proof fn a_recent_day_is_never_frozen(
    cache: CacheView,
    dates: Seq<int>,
    min: int,
    today: int,
    n: int,
    date: int,
)
    requires
        0 <= n <= dates.len(),
        forall|i: int| 0 <= i < dates.len() ==> is_day(#[trigger] dates[i]),
        forall|i: int| 0 <= i < dates.len() ==> 0 <= civil(#[trigger] dates[i]).0 <= 9999,
        is_day(date),
        0 <= civil(date).0 <= 9999,
        today - date < ALIAS_MIN_AGE_DAYS,
        !cache.aliases.contains_key(text_of(date)),
    ensures
        !with_stand_ins(cache, dates, min, today, n).aliases.contains_key(text_of(date)),
    decreases n,
{
    if n > 0 {
        a_recent_day_is_never_frozen(cache, dates, min, today, n - 1, date);
        let other = dates[n - 1];
        if text_of(other) == text_of(date) {
            date_texts_sort_like_dates(other, date);
            date_texts_sort_like_dates(date, other);
            text_order_is_total();
            assert(other == date);
        }
    }
}

/// Merging a range never removes or changes what stands in for a day already.
pub proof fn recorded_stand_ins_stay(
    cache: CacheView,
    dates: Seq<int>,
    min: int,
    today: int,
    n: int,
    key: Seq<char>,
)
    requires
        cache.aliases.contains_key(key),
    ensures
        with_stand_ins(cache, dates, min, today, n).aliases.contains_key(key),
        with_stand_ins(cache, dates, min, today, n).aliases[key] == cache.aliases[key],
        with_stand_ins(cache, dates, min, today, n).rates == cache.rates,
    decreases n,
{
    if n > 0 {
        recorded_stand_ins_stay(cache, dates, min, today, n - 1, key);
    }
}

/// The nearest earlier day is the latest of the cached days before a date, where
/// the keys of the cache are dates of the years 0 to 9999.
pub proof fn the_nearest_earlier_day_is_the_latest_before(
    cache: CacheView,
    date: int,
    found: int,
    other: int,
)
    requires
        is_day(date) && 0 <= civil(date).0 <= 9999,
        is_day(found) && 0 <= civil(found).0 <= 9999,
        is_day(other) && 0 <= civil(other).0 <= 9999,
        last_before(cache.rates.dom(), text_of(date)) == Some(text_of(found)),
        cache.rates.contains_key(text_of(other)),
        other < date,
    ensures
        found < date,
        other <= found,
{
    let key = text_of(found);
    let keys = cache.rates.dom();
    let chosen = choose|k: Seq<char>| is_last_before(keys, text_of(date), k);
    assert(is_last_before(keys, text_of(date), chosen));
    assert(chosen == key);
    date_texts_sort_like_dates(found, date);
    date_texts_sort_like_dates(other, date);
    date_texts_sort_like_dates(other, found);
    date_texts_sort_like_dates(found, other);
    assert(keys.contains(text_of(other)));
    text_order_is_total();
}

/// The reference currency always converts at one, whatever quotes there are.
pub proof fn the_reference_currency_converts_at_one(
    currency: Seq<char>,
    rates: Map<Seq<char>, u64>,
)
    ensures
        rate_between(currency, currency, rates) == Ok::<Rate, ErrorView>(Rate::One),
{
}

} // verus!
