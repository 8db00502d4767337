//! Many rates at once: one range fetch for a span of days, single fetches for
//! what it leaves, and the cache for the rest. A rate that cannot be had is
//! reported by its currency and takes no other rate with it.

use vstd::prelude::*;
use crate::dates::{days_before_month, days_of, is_date, text_of, Date};
use crate::error::{Error, ErrorView};
use crate::fx::{
    cached_day, cached_rate_for, earlier_day, keep_day, key_day, may_alias, nearest_earlier,
    parse_date, series_start, should_alias_as, with_day, CacheView, DayRates, DayView, RateCache,
    RateTable,
};
use crate::text_map::{first_key, TextMap};

verus! {

/// What the days of a list say.
pub open spec fn day_views(days: Seq<DayRates>) -> Seq<DayView> {
    Seq::new(days.len(), |i: int| days[i]@)
}

/// The cache with the first `n` of some days of quotes kept.
pub open spec fn with_days(cache: CacheView, days: Seq<DayView>, n: int) -> CacheView
    decreases n,
{
    if n <= 0 {
        cache
    } else {
        with_day(with_days(cache, days, n - 1), days[n - 1].date, days[n - 1].rates, None)
    }
}

/// The day that may stand in for a day for good: the last day cached before it,
/// where the fetched range proves it and the day is old enough.
pub open spec fn stand_in(cache: CacheView, date: int, min: int, today: int) -> Option<int> {
    let key = text_of(date);
    if cache.rates.contains_key(key) || cache.aliases.contains_key(key) {
        None
    } else {
        match earlier_day(cache, key) {
            Ok(Some(day)) => if day.date >= min && may_alias(date, day.date, today) {
                Some(day.date)
            } else {
                None
            },
            _ => None,
        }
    }
}

/// The cache with stand-ins recorded for the first `n` of some days.
pub open spec fn with_stand_ins(
    cache: CacheView,
    dates: Seq<int>,
    min: int,
    today: int,
    n: int,
) -> CacheView
    decreases n,
{
    if n <= 0 {
        cache
    } else {
        let before = with_stand_ins(cache, dates, min, today, n - 1);
        match stand_in(before, dates[n - 1], min, today) {
            Some(published) => CacheView {
                aliases: before.aliases.insert(text_of(dates[n - 1]), text_of(published)),
                ..before
            },
            None => before,
        }
    }
}

/// The number of stand-ins recorded for the first `n` of some days.
pub open spec fn stand_in_count(
    cache: CacheView,
    dates: Seq<int>,
    min: int,
    today: int,
    n: int,
) -> nat
    decreases n,
{
    if n <= 0 {
        0
    } else {
        stand_in_count(cache, dates, min, today, n - 1) + if stand_in(
            with_stand_ins(cache, dates, min, today, n - 1),
            dates[n - 1],
            min,
            today,
        ) is Some {
            1nat
        } else {
            0
        }
    }
}

/// Keep the days of a range fetch, and record stand-ins for the days it left
/// open. `min` is the first day of the range: before it the fetch proves nothing,
/// so no day before it is taken as a stand-in.
///
/// Gives the number of days kept and of stand-ins recorded.
pub fn merge_range_into_cache(
    cache: &mut RateCache,
    days: &Vec<DayRates>,
    key_dates: &Vec<Date>,
    min: Date,
    today: Date,
) -> (r: (usize, usize))
    ensures
        ({
            let kept = with_days(old(cache)@, day_views(days@), days@.len() as int);
            let dates = days_of(key_dates@);
            &&& final(cache)@ == with_stand_ins(kept, dates, min@, today@, dates.len() as int)
            &&& r.0 == days@.len()
            &&& r.1 == stand_in_count(kept, dates, min@, today@, dates.len() as int)
        }),
{
    let ghost start = cache@;
    let ghost shown = day_views(days@);
    let mut i: usize = 0;
    while i < days.len()
        invariant
            i <= days.len(),
            shown == day_views(days@),
            cache@ == with_days(start, shown, i as int),
        decreases days.len() - i,
    {
        assert(shown[i as int] == days@[i as int]@);
        keep_day(cache, &days[i], None);
        i = i + 1;
    }
    let ghost kept = cache@;
    let ghost dates = days_of(key_dates@);
    let mut count: usize = 0;
    let mut k: usize = 0;
    while k < key_dates.len()
        invariant
            k <= key_dates.len(),
            dates == days_of(key_dates@),
            cache@ == with_stand_ins(kept, dates, min@, today@, k as int),
            count == stand_in_count(kept, dates, min@, today@, k as int),
            count <= k,
        decreases key_dates.len() - k,
    {
        let date = key_dates[k];
        assert(dates[k as int] == date@);
        let key = date.text();
        if !cache.rates.contains_key(key.as_str()) && !cache.aliases.contains_key(key.as_str()) {
            if let Ok(Some(day)) = nearest_earlier(cache, key.as_str()) {
                if day.date.days() >= min.days() && should_alias_as(date, day.date, today) {
                    cache.aliases.insert(key, day.date.text());
                    count = count + 1;
                }
            }
        }
        k = k + 1;
    }
    (days.len(), count)
}

/// The first day of a range fetch: not before the first day cached, where its key
/// names a day.
pub open spec fn clamped(min: int, cache: CacheView) -> int {
    match first_key(cache.rates.dom()) {
        Some(key) => match key_day(key) {
            Ok(first) => if min < first {
                first
            } else {
                min
            },
            Err(_) => min,
        },
        None => min,
    }
}

/// The first day of a range fetch: not before the first day cached.
pub fn clamp_range_min(min: Date, cache: &RateCache) -> (r: Date)
    ensures
        r@ == clamped(min@, cache@),
{
    match cache.rates.first() {
        Some(key) => match parse_date(key) {
            Ok(first) => if min.days() < first.days() {
                first
            } else {
                min
            },
            Err(_) => min,
        },
        None => min,
    }
}

/// The days, among the first `n`, that the cache has no answer for; or nothing
/// where a key of the cache names no day.
pub open spec fn open_days(cache: CacheView, dates: Seq<int>, n: int) -> Option<Seq<int>>
    decreases n,
{
    if n <= 0 {
        Some(Seq::empty())
    } else {
        match open_days(cache, dates, n - 1) {
            None => None,
            Some(rest) => match cached_day(cache, dates[n - 1]) {
                Err(_) => None,
                Ok(Some(_)) => Some(rest),
                Ok(None) => Some(rest.push(dates[n - 1])),
            },
        }
    }
}

/// The smallest of some days.
pub open spec fn smallest(dates: Seq<int>) -> int
    recommends
        dates.len() > 0,
    decreases dates.len(),
{
    if dates.len() <= 1 {
        dates[0]
    } else {
        let rest = smallest(dates.drop_last());
        if dates.last() < rest {
            dates.last()
        } else {
            rest
        }
    }
}

/// The largest of some days.
pub open spec fn largest(dates: Seq<int>) -> int
    recommends
        dates.len() > 0,
    decreases dates.len(),
{
    if dates.len() <= 1 {
        dates[0]
    } else {
        let rest = largest(dates.drop_last());
        if dates.last() > rest {
            dates.last()
        } else {
            rest
        }
    }
}

/// Picks the days outside a span.
pub open spec fn outside(min: int, max: int) -> spec_fn(int) -> bool {
    |d: int| d < min || d > max
}

/// Picks the days of a span.
pub open spec fn within(min: int, max: int) -> spec_fn(int) -> bool {
    |d: int| !(d < min || d > max)
}

/// What to do before a batch: nothing, with the days that stay open, or one range
/// fetch.
pub enum Prewarm {
    Skip { still_missing: Vec<Date> },
    Fetch { min: Date, max: Date, older: Vec<Date>, in_range: Vec<Date> },
}

/// What a [`Prewarm`] says.
#[verifier::ext_equal]
pub enum PrewarmView {
    Skip(Seq<int>),
    Fetch { min: int, max: int, older: Seq<int>, in_range: Seq<int> },
}

impl View for Prewarm {
    type V = PrewarmView;

    open spec fn view(&self) -> PrewarmView {
        match self {
            Prewarm::Skip { still_missing } => PrewarmView::Skip(days_of(still_missing@)),
            Prewarm::Fetch { min, max, older, in_range } => PrewarmView::Fetch {
                min: min@,
                max: max@,
                older: days_of(older@),
                in_range: days_of(in_range@),
            },
        }
    }
}

/// What to do before a batch that asks for some days.
pub open spec fn prewarm_of(
    cache: CacheView,
    dates: Seq<int>,
    offline: bool,
    today: int,
) -> PrewarmView {
    if dates.len() == 0 {
        PrewarmView::Skip(Seq::empty())
    } else if offline {
        PrewarmView::Skip(dates)
    } else {
        match open_days(cache, dates, dates.len() as int) {
            None => PrewarmView::Skip(dates),
            Some(unresolved) => if unresolved.len() == 0 {
                PrewarmView::Skip(Seq::empty())
            } else {
                let from_cache = clamped(smallest(unresolved), cache);
                let min = if from_cache < series_start() {
                    series_start()
                } else {
                    from_cache
                };
                let max = if today < largest(unresolved) {
                    today
                } else {
                    largest(unresolved)
                };
                let in_range = unresolved.filter(within(min, today));
                let older = unresolved.filter(outside(min, today));
                if in_range.len() == 0 {
                    PrewarmView::Skip(older)
                } else {
                    PrewarmView::Fetch { min, max, older, in_range }
                }
            },
        }
    }
}

/// A second list of the same dates.
fn copy_dates(dates: &Vec<Date>) -> (r: Vec<Date>)
    ensures
        days_of(r@) == days_of(dates@),
{
    let mut copied: Vec<Date> = Vec::new();
    let mut i: usize = 0;
    while i < dates.len()
        invariant
            i <= dates.len(),
            copied@.len() == i,
            forall|k: int| 0 <= k < i ==> (#[trigger] copied@[k])@ == dates@[k]@,
        decreases dates.len() - i,
    {
        copied.push(dates[i]);
        i = i + 1;
    }
    assert(days_of(copied@) =~= days_of(dates@));
    copied
}

/// The days that the cache has no answer for.
fn unresolved_dates(cache: &RateCache, dates: &Vec<Date>) -> (r: Option<Vec<Date>>)
    ensures
        match r {
            Some(found) => open_days(cache@, days_of(dates@), dates@.len() as int) == Some(
                days_of(found@),
            ),
            None => open_days(cache@, days_of(dates@), dates@.len() as int) is None,
        },
{
    let ghost all = days_of(dates@);
    let mut found: Vec<Date> = Vec::new();
    let mut i: usize = 0;
    assert(days_of(found@) =~= Seq::empty());
    while i < dates.len()
        invariant
            i <= dates.len(),
            all == days_of(dates@),
            open_days(cache@, all, i as int) == Some(days_of(found@)),
        decreases dates.len() - i,
    {
        let date = dates[i];
        assert(all[i as int] == date@);
        match cached_rate_for(cache, date) {
            Ok(None) => {
                let ghost before = days_of(found@);
                found.push(date);
                assert(days_of(found@) =~= before.push(date@));
            },
            Ok(Some(_)) => {},
            Err(_) => {
                proof {
                    lemma_open_days_stop(cache@, all, i + 1, all.len() as int);
                }
                return None;
            },
        }
        i = i + 1;
    }
    Some(found)
}

proof fn lemma_open_days_stop(cache: CacheView, dates: Seq<int>, k: int, n: int)
    requires
        0 <= k <= n,
        open_days(cache, dates, k) is None,
    ensures
        open_days(cache, dates, n) is None,
    decreases n,
{
    if k < n {
        lemma_open_days_stop(cache, dates, k, n - 1);
    }
}

fn smallest_date(dates: &Vec<Date>) -> (r: Date)
    requires
        dates@.len() > 0,
    ensures
        r@ == smallest(days_of(dates@)),
{
    let ghost all = days_of(dates@);
    let mut best = dates[0];
    let mut i: usize = 1;
    assert(all.take(1)[0] == best@);
    while i < dates.len()
        invariant
            1 <= i <= dates.len(),
            all == days_of(dates@),
            best@ == smallest(all.take(i as int)),
        decreases dates.len() - i,
    {
        assert(all.take(i + 1).drop_last() =~= all.take(i as int));
        assert(all.take(i + 1).last() == dates@[i as int]@);
        if dates[i].days() < best.days() {
            best = dates[i];
        }
        i = i + 1;
    }
    assert(all.take(i as int) =~= all);
    best
}

fn largest_date(dates: &Vec<Date>) -> (r: Date)
    requires
        dates@.len() > 0,
    ensures
        r@ == largest(days_of(dates@)),
{
    let ghost all = days_of(dates@);
    let mut best = dates[0];
    let mut i: usize = 1;
    assert(all.take(1)[0] == best@);
    while i < dates.len()
        invariant
            1 <= i <= dates.len(),
            all == days_of(dates@),
            best@ == largest(all.take(i as int)),
        decreases dates.len() - i,
    {
        assert(all.take(i + 1).drop_last() =~= all.take(i as int));
        assert(all.take(i + 1).last() == dates@[i as int]@);
        if dates[i].days() > best.days() {
            best = dates[i];
        }
        i = i + 1;
    }
    assert(all.take(i as int) =~= all);
    best
}

/// Decide what to do before a batch: which single range fetch would serve the
/// days it asks for, and which days no range can serve.
pub fn plan_prewarm(
    cache: &RateCache,
    key_dates: &Vec<Date>,
    offline: bool,
    today: Date,
) -> (r: Prewarm)
    ensures
        r@ == prewarm_of(cache@, days_of(key_dates@), offline, today@),
{
    let ghost all = days_of(key_dates@);
    if key_dates.len() == 0 {
        let none: Vec<Date> = Vec::new();
        assert(days_of(none@) =~= Seq::empty());
        return Prewarm::Skip { still_missing: none };
    }
    if offline {
        return Prewarm::Skip { still_missing: copy_dates(key_dates) };
    }
    let unresolved = match unresolved_dates(cache, key_dates) {
        Some(found) => found,
        None => {
            return Prewarm::Skip { still_missing: copy_dates(key_dates) };
        },
    };
    if unresolved.len() == 0 {
        let none: Vec<Date> = Vec::new();
        assert(days_of(none@) =~= Seq::empty());
        return Prewarm::Skip { still_missing: none };
    }
    let ghost open = days_of(unresolved@);
    let from_cache = clamp_range_min(smallest_date(&unresolved), cache);
    proof {
        reveal_with_fuel(days_before_month, 3);
        assert(series_start() == 10595);
    }
    let min = if from_cache.days() < 10595 {
        match Date::from_ymd(1999, 1, 4) {
            Some(start) => start,
            None => {
                assert(is_date(1999, 1, 4));
                from_cache
            },
        }
    } else {
        from_cache
    };
    let last = largest_date(&unresolved);
    let max = if today.days() < last.days() {
        today
    } else {
        last
    };
    let mut older: Vec<Date> = Vec::new();
    let mut in_range: Vec<Date> = Vec::new();
    let mut i: usize = 0;
    proof {
        reveal(Seq::filter);
        assert(open.take(0) =~= Seq::empty());
        assert(days_of(older@) =~= open.take(0).filter(outside(min@, today@)));
        assert(days_of(in_range@) =~= open.take(0).filter(within(min@, today@)));
    }
    while i < unresolved.len()
        invariant
            i <= unresolved.len(),
            open == days_of(unresolved@),
            days_of(older@) == open.take(i as int).filter(outside(min@, today@)),
            days_of(in_range@) == open.take(i as int).filter(within(min@, today@)),
        decreases unresolved.len() - i,
    {
        let date = unresolved[i];
        proof {
            assert(open[i as int] == date@);
            assert(open.take(i + 1) =~= open.take(i as int).push(date@));
            open.take(i as int).lemma_filter_push(date@, outside(min@, today@));
            open.take(i as int).lemma_filter_push(date@, within(min@, today@));
        }
        if date.days() < min.days() || date.days() > today.days() {
            let ghost before = days_of(older@);
            older.push(date);
            assert(days_of(older@) =~= before.push(date@));
        } else {
            let ghost before = days_of(in_range@);
            in_range.push(date);
            assert(days_of(in_range@) =~= before.push(date@));
        }
        i = i + 1;
    }
    assert(open.take(i as int) =~= open);
    if in_range.len() == 0 {
        Prewarm::Skip { still_missing: older }
    } else {
        Prewarm::Fetch { min, max, older, in_range }
    }
}

/// Picks the days that the cache gives no answer for.
pub open spec fn not_cached(cache: CacheView) -> spec_fn(int) -> bool {
    |d: int| !(cached_day(cache, d) matches Ok(Some(_)))
}

/// Keep what a range fetch returned, and say which days stay open. A fetch that
/// failed or returned nothing leaves the cache and every day as they were.
pub fn after_range(
    cache: &mut RateCache,
    min: Date,
    older: &Vec<Date>,
    in_range: &Vec<Date>,
    days: Option<&Vec<DayRates>>,
    today: Date,
) -> (r: Vec<Date>)
    ensures
        match days {
            Some(days) => if days@.len() > 0 {
                let kept = with_days(old(cache)@, day_views(days@), days@.len() as int);
                let open = days_of(in_range@);
                let merged = with_stand_ins(kept, open, min@, today@, open.len() as int);
                &&& final(cache)@ == merged
                &&& days_of(r@) == days_of(older@) + open.filter(not_cached(merged))
            } else {
                final(cache)@ == old(cache)@ && days_of(r@) == days_of(older@) + days_of(in_range@)
            },
            None => final(cache)@ == old(cache)@ && days_of(r@) == days_of(older@) + days_of(
                in_range@,
            ),
        },
{
    let mut left = copy_dates(older);
    let ghost first = days_of(older@);
    let ghost open = days_of(in_range@);
    let fetched = match days {
        Some(days) => if days.len() > 0 {
            merge_range_into_cache(cache, days, in_range, min, today);
            true
        } else {
            false
        },
        None => false,
    };
    let ghost merged = cache@;
    let mut i: usize = 0;
    proof {
        reveal(Seq::filter);
        assert(open.take(0) =~= Seq::empty());
        assert(first + open.take(0).filter(not_cached(merged)) =~= first);
        assert(first + open.take(0) =~= first);
    }
    while i < in_range.len()
        invariant
            i <= in_range.len(),
            open == days_of(in_range@),
            merged == cache@,
            fetched ==> days_of(left@) == first + open.take(i as int).filter(not_cached(merged)),
            !fetched ==> days_of(left@) == first + open.take(i as int),
        decreases in_range.len() - i,
    {
        let date = in_range[i];
        let ghost before = days_of(left@);
        proof {
            assert(open[i as int] == date@);
            assert(open.take(i + 1) =~= open.take(i as int).push(date@));
            open.take(i as int).lemma_filter_push(date@, not_cached(merged));
        }
        let cached = match cached_rate_for(cache, date) {
            Ok(Some(_)) => true,
            _ => false,
        };
        if !fetched || !cached {
            left.push(date);
            proof {
                assert(days_of(left@) =~= before.push(date@));
                if fetched {
                    assert(days_of(left@) =~= first + open.take(i + 1).filter(not_cached(merged)));
                } else {
                    assert(days_of(left@) =~= first + open.take(i + 1));
                }
            }
        }
        i = i + 1;
    }
    assert(open.take(i as int) =~= open);
    left
}

/// The address that published rates are fetched from.
pub const FRANKFURTER_BASE_URL: &'static str = "https://api.frankfurter.app";

/// The address of the rates of a day.
pub fn historical_url(date: Date) -> (r: String)
    ensures
        r@ == FRANKFURTER_BASE_URL@ + "/"@ + text_of(date@) + "?base=EUR"@,
{
    FRANKFURTER_BASE_URL.to_owned().concat("/").concat(date.text().as_str()).concat("?base=EUR")
}

/// The address of the rates of a span of days.
pub fn range_url(min: Date, max: Date) -> (r: String)
    ensures
        r@ == FRANKFURTER_BASE_URL@ + "/"@ + text_of(min@) + ".."@ + text_of(max@) + "?base=EUR"@,
{
    FRANKFURTER_BASE_URL.to_owned().concat("/").concat(min.text().as_str()).concat("..").concat(
        max.text().as_str(),
    ).concat("?base=EUR")
}

/// The address of the newest rates.
pub fn latest_url() -> (r: String)
    ensures
        r@ == FRANKFURTER_BASE_URL@ + "/latest?base=EUR"@,
{
    FRANKFURTER_BASE_URL.to_owned().concat("/latest?base=EUR")
}

/// The days of a range response, by date; or what is wrong with the first key
/// that names no day. A later key for the same day wins.
pub open spec fn dated(
    response: Seq<(Seq<char>, Map<Seq<char>, u64>)>,
    n: int,
) -> Result<Map<int, Map<Seq<char>, u64>>, ErrorView>
    decreases n,
{
    if n <= 0 {
        Ok(Map::empty())
    } else {
        match dated(response, n - 1) {
            Err(e) => Err(e),
            Ok(days) => match key_day(response[n - 1].0) {
                Err(e) => Err(e),
                Ok(date) => Ok(days.insert(date, response[n - 1].1)),
            },
        }
    }
}

/// Whether a list of days spells out a map from dates, in the order of the dates.
pub open spec fn spells_days(list: Seq<DayView>, days: Map<int, Map<Seq<char>, u64>>) -> bool {
    &&& forall|i: int, j: int|
        0 <= i < j < list.len() ==> (#[trigger] list[i]).date < (#[trigger] list[j]).date
    &&& forall|i: int|
        0 <= i < list.len() ==> days.contains_key((#[trigger] list[i]).date)
            && days[list[i].date] == list[i].rates
    &&& forall|d: int| #[trigger]
        days.contains_key(d) ==> exists|i: int| 0 <= i < list.len() && (#[trigger] list[i]).date
            == d
}

proof fn lemma_dated_stops(response: Seq<(Seq<char>, Map<Seq<char>, u64>)>, k: int, n: int)
    requires
        0 <= k <= n,
        dated(response, k) is Err,
    ensures
        dated(response, n) == dated(response, k),
    decreases n,
{
    if k < n {
        lemma_dated_stops(response, k, n - 1);
    }
}

/// The days of a range response, in the order of the dates.
pub fn dated_days(response: &TextMap<RateTable>) -> (r: Result<Vec<DayRates>, Error>)
    ensures
        match r {
            Ok(days) => dated(response.pairs(), response.pairs().len() as int) matches Ok(map)
                && spells_days(day_views(days@), map),
            Err(e) => dated(response.pairs(), response.pairs().len() as int) == Err::<
                Map<int, Map<Seq<char>, u64>>,
                ErrorView,
            >(e@),
        },
{
    let ghost all = response.pairs();
    let mut days: Vec<DayRates> = Vec::new();
    let ghost mut map: Map<int, Map<Seq<char>, u64>> = Map::empty();
    let mut i: usize = 0;
    while i < response.len()
        invariant
            i <= all.len(),
            all == response.pairs(),
            dated(all, i as int) == Ok::<Map<int, Map<Seq<char>, u64>>, ErrorView>(map),
            spells_days(day_views(days@), map),
        decreases all.len() - i,
    {
        match parse_date(response.key_at(i)) {
            Err(e) => {
                proof {
                    lemma_dated_stops(all, i + 1, all.len() as int);
                }
                return Err(e);
            },
            Ok(date) => {
                put_day(&mut days, Ghost(map), date, response.value_at(i).clone());
                proof {
                    map = map.insert(date@, all[i as int].1);
                }
            },
        }
        i = i + 1;
    }
    Ok(days)
}

/// Put a day into a list in the order of the dates, in place of what was there
/// for that date.
fn put_day(
    days: &mut Vec<DayRates>,
    Ghost(map): Ghost<Map<int, Map<Seq<char>, u64>>>,
    date: Date,
    rates: RateTable,
)
    requires
        spells_days(day_views(old(days)@), map),
    ensures
        spells_days(day_views(final(days)@), map.insert(date@, rates@)),
{
    let ghost before = day_views(days@);
    let ghost table = rates@;
    let ghost after_map = map.insert(date@, table);
    let mut i: usize = days.len();
    while i > 0 && date.days() < days[i - 1].date.days()
        invariant
            i <= days.len(),
            before == day_views(days@),
            forall|k: int| i <= k < before.len() ==> date@ < (#[trigger] before[k]).date,
        decreases i,
    {
        assert(before[i - 1] == days@[i - 1]@);
        i = i - 1;
    }
    let there = i > 0 && days[i - 1].date.days() == date.days();
    if i > 0 {
        assert(before[i - 1] == days@[i - 1]@);
    }
    if there {
        days.set(i - 1, DayRates { date, rates });
    } else {
        days.insert(i, DayRates { date, rates });
    }
    proof {
        let put = DayView { date: date@, rates: table };
        let after = day_views(days@);
        if there {
            let p = i - 1;
            assert(after =~= before.update(p, put));
            assert forall|a: int, b: int| 0 <= a < b < after.len() implies (
            #[trigger] after[a]).date < (#[trigger] after[b]).date by {
                assert(before[a].date < before[b].date);
            }
            assert forall|a: int| 0 <= a < after.len() implies after_map.contains_key(
                (#[trigger] after[a]).date,
            ) && after_map[after[a].date] == after[a].rates by {
                if a < p {
                    assert(before[a].date < before[p].date);
                } else if a > p {
                    assert(before[p].date < before[a].date);
                }
            }
            assert forall|d: int| #[trigger] after_map.contains_key(d) implies exists|a: int|
                0 <= a < after.len() && (#[trigger] after[a]).date == d by {
                if d == date@ {
                    assert(after[p].date == d);
                } else {
                    let a = choose|a: int| 0 <= a < before.len() && (#[trigger] before[a]).date
                        == d;
                    assert(after[a].date == d);
                }
            }
        } else {
            let p = i as int;
            assert(after =~= before.insert(p, put));
            assert forall|k: int| 0 <= k < p implies (#[trigger] before[k]).date < date@ by {
                if k < p - 1 {
                    assert(before[k].date < before[p - 1].date);
                }
            }
            assert forall|a: int, b: int| 0 <= a < b < after.len() implies (
            #[trigger] after[a]).date < (#[trigger] after[b]).date by {
                if a < p && b > p {
                    assert(before[a].date < before[b - 1].date);
                } else if b < p {
                    assert(before[a].date < before[b].date);
                } else if a > p {
                    assert(before[a - 1].date < before[b - 1].date);
                } else if a == p {
                    assert(date@ < before[b - 1].date);
                } else {
                    assert(before[a].date < date@);
                }
            }
            assert forall|a: int| 0 <= a < after.len() implies after_map.contains_key(
                (#[trigger] after[a]).date,
            ) && after_map[after[a].date] == after[a].rates by {
                if a < p {
                    assert(after[a] == before[a]);
                } else if a > p {
                    assert(after[a] == before[a - 1]);
                }
            }
            assert forall|d: int| #[trigger] after_map.contains_key(d) implies exists|a: int|
                0 <= a < after.len() && (#[trigger] after[a]).date == d by {
                if d == date@ {
                    assert(after[p].date == d);
                } else {
                    let a = choose|a: int| 0 <= a < before.len() && (#[trigger] before[a]).date
                        == d;
                    if a < p {
                        assert(after[a].date == d);
                    } else {
                        assert(after[a + 1].date == d);
                    }
                }
            }
        }
    }
}

} // verus!
