//! Exchange rates: the cache of published rates, and what it answers.
//!
//! Rates are always kept against the euro, as they are published, keyed by the
//! day they were published for. A rate between two other currencies is a quotient
//! of two such quotes. Nothing is published on weekends and holidays, so every
//! answer names the day its rate actually came from.
//!
//! A quote is held by the bits of its double precision form. A rate is therefore
//! handed out as the quotes it is made of, and divided by the caller.

use vstd::prelude::*;
use crate::dates::{
    civil, date_read, day_number, days_before_month, is_date, is_day, lemma_day_range,
    lemma_month_end, month_length, text_of, Date, FIRST_YEAR,
};
use crate::error::{Error, ErrorView};
use crate::paths::{check_month, month_error};
use crate::text::{
    insert_text, padded, push_padded, push_signed, same_text, signed_decimal, texts,
    texts_increase, to_uppercase, trim, trimmed, upper_case,
};
use crate::text_map::{last_before, last_key, TextMap};

verus! {

/// One day of quotes against the euro: the bits of each quote, by currency code.
pub type RateTable = TextMap<u64>;

/// The cache of published rates.
#[derive(Debug, PartialEq, Eq)]
pub struct RateCache {
    pub base: String,
    /// The quotes of each published day.
    pub rates: TextMap<RateTable>,
    /// For a day nothing was published for, the earlier day that stands in.
    pub aliases: TextMap<String>,
    /// The day the newest fetch of the latest rates returned.
    pub latest_date: Option<String>,
    /// When that fetch was made, in seconds since 1970.
    pub latest_fetched_at: Option<i64>,
}

/// What a [`RateCache`] holds.
#[verifier::ext_equal]
pub struct CacheView {
    pub base: Seq<char>,
    pub rates: Map<Seq<char>, Map<Seq<char>, u64>>,
    pub aliases: Map<Seq<char>, Seq<char>>,
    pub latest_date: Option<Seq<char>>,
    pub latest_fetched_at: Option<i64>,
}

impl View for RateCache {
    type V = CacheView;

    open spec fn view(&self) -> CacheView {
        CacheView {
            base: self.base@,
            rates: self.rates@,
            aliases: self.aliases@,
            latest_date: match self.latest_date {
                Some(date) => Some(date@),
                None => None,
            },
            latest_fetched_at: self.latest_fetched_at,
        }
    }
}

impl Clone for RateCache {
    fn clone(&self) -> (r: Self)
        ensures
            r@ == self@,
    {
        RateCache {
            base: self.base.clone(),
            rates: self.rates.clone(),
            aliases: self.aliases.clone(),
            latest_date: match &self.latest_date {
                Some(date) => Some(date.clone()),
                None => None,
            },
            latest_fetched_at: self.latest_fetched_at,
        }
    }
}

impl Default for RateCache {
    fn default() -> (r: Self)
        ensures
            r@ == (CacheView {
                base: "EUR"@,
                rates: Map::empty(),
                aliases: Map::empty(),
                latest_date: None,
                latest_fetched_at: None,
            }),
    {
        RateCache {
            base: "EUR".to_owned(),
            rates: TextMap::new(),
            aliases: TextMap::new(),
            latest_date: None,
            latest_fetched_at: None,
        }
    }
}

/// A currency code as rates are keyed: without white space around it, in upper
/// case.
pub open spec fn code_of(currency: Seq<char>) -> Seq<char> {
    upper_case(trimmed(currency))
}

/// A currency code as rates are keyed.
pub fn code(currency: &str) -> (r: String)
    ensures
        r@ == code_of(currency@),
{
    to_uppercase(trim(currency).as_str())
}

/// The day that a key of the cache names, or what is wrong with the key.
pub open spec fn key_day(key: Seq<char>) -> Result<int, ErrorView> {
    match date_read(key) {
        Ok(days) => Ok(days as int),
        Err(message) => Err(
            ErrorView::Network(
                "cached FX rate key '"@ + key + "' is not a valid date: "@ + message,
            ),
        ),
    }
}

/// The day that a key of the cache names, or what is wrong with the key.
pub fn parse_date(key: &str) -> (r: Result<Date, Error>)
    ensures
        match r {
            Ok(date) => key_day(key@) == Ok::<int, ErrorView>(date@),
            Err(e) => key_day(key@) == Err::<int, ErrorView>(e@),
        },
        forall|days: int|
            is_day(days) && 0 <= civil(days).0 <= 9999 && key@ == #[trigger] text_of(days) ==> (
            r matches Ok(date) && date@ == days),
{
    match Date::read(key) {
        Ok(date) => Ok(date),
        Err(message) => Err(
            Error::Network(
                "cached FX rate key '".to_owned().concat(key).concat(
                    "' is not a valid date: ",
                ).concat(message.as_str()),
            ),
        ),
    }
}

/// A day of quotes and the day it was published for.
#[derive(Debug, PartialEq, Eq)]
pub struct DayRates {
    pub date: Date,
    pub rates: RateTable,
}

/// What a [`DayRates`] says.
pub struct DayView {
    pub date: int,
    pub rates: Map<Seq<char>, u64>,
}

impl View for DayRates {
    type V = DayView;

    open spec fn view(&self) -> DayView {
        DayView { date: self.date@, rates: self.rates@ }
    }
}

/// What a lookup in the cache gives: a day of quotes, nothing, or a key that
/// names no day.
pub open spec fn day_at(cache: CacheView, key: Option<Seq<char>>) -> Result<
    Option<DayView>,
    ErrorView,
> {
    match key {
        None => Ok(None),
        Some(key) => match key_day(key) {
            Ok(date) => Ok(Some(DayView { date, rates: cache.rates[key] })),
            Err(e) => Err(e),
        },
    }
}

/// The quotes of the last day cached before a key.
pub open spec fn earlier_day(cache: CacheView, key: Seq<char>) -> Result<
    Option<DayView>,
    ErrorView,
> {
    day_at(cache, last_before(cache.rates.dom(), key))
}

/// The quotes of the last day cached.
pub open spec fn newest_day(cache: CacheView) -> Result<Option<DayView>, ErrorView> {
    day_at(cache, last_key(cache.rates.dom()))
}

fn day_of(cache: &RateCache, i: usize) -> (r: Result<DayRates, Error>)
    requires
        i < cache.rates.pairs().len(),
    ensures
        match r {
            Ok(day) => key_day(cache.rates.pairs()[i as int].0) == Ok::<int, ErrorView>(
                day@.date,
            ) && day@.rates == cache.rates.pairs()[i as int].1,
            Err(e) => key_day(cache.rates.pairs()[i as int].0) == Err::<int, ErrorView>(e@),
        },
{
    let date = parse_date(cache.rates.key_at(i))?;
    Ok(DayRates { date, rates: cache.rates.value_at(i).clone() })
}

/// The quotes of the last day cached strictly before a day, if any.
pub fn nearest_earlier(cache: &RateCache, date_str: &str) -> (r: Result<Option<DayRates>, Error>)
    ensures
        match r {
            Ok(Some(day)) => earlier_day(cache@, date_str@) == Ok::<Option<DayView>, ErrorView>(
                Some(day@),
            ),
            Ok(None) => earlier_day(cache@, date_str@) == Ok::<Option<DayView>, ErrorView>(None),
            Err(e) => earlier_day(cache@, date_str@) == Err::<Option<DayView>, ErrorView>(e@),
        },
{
    match cache.rates.last_before(date_str) {
        Some(i) => {
            let day = day_of(cache, i)?;
            Ok(Some(day))
        },
        None => Ok(None),
    }
}

/// The quotes of the last day cached, if any.
pub fn newest_cached(cache: &RateCache) -> (r: Result<Option<DayRates>, Error>)
    ensures
        match r {
            Ok(Some(day)) => newest_day(cache@) == Ok::<Option<DayView>, ErrorView>(Some(day@)),
            Ok(None) => newest_day(cache@) == Ok::<Option<DayView>, ErrorView>(None),
            Err(e) => newest_day(cache@) == Err::<Option<DayView>, ErrorView>(e@),
        },
{
    match cache.rates.last() {
        Some(i) => {
            let day = day_of(cache, i)?;
            Ok(Some(day))
        },
        None => Ok(None),
    }
}

/// What the cache holds for a day: the quotes of that day, or those of the day
/// that stands in for it.
pub open spec fn cached_day(cache: CacheView, date: int) -> Result<Option<DayView>, ErrorView> {
    let key = text_of(date);
    if cache.rates.contains_key(key) {
        Ok(Some(DayView { date, rates: cache.rates[key] }))
    } else if cache.aliases.contains_key(key) && cache.rates.contains_key(cache.aliases[key]) {
        day_at(cache, Some(cache.aliases[key]))
    } else {
        Ok(None)
    }
}

/// Look a day up in the cache, without any network access: the day itself first,
/// then the earlier day recorded as standing in for it. The answer names the day
/// its quotes were published for.
pub fn cached_rate_for(cache: &RateCache, date: Date) -> (r: Result<Option<DayRates>, Error>)
    ensures
        match r {
            Ok(Some(day)) => cached_day(cache@, date@) == Ok::<Option<DayView>, ErrorView>(
                Some(day@),
            ),
            Ok(None) => cached_day(cache@, date@) == Ok::<Option<DayView>, ErrorView>(None),
            Err(e) => cached_day(cache@, date@) == Err::<Option<DayView>, ErrorView>(e@),
        },
{
    let key = date.text();
    if let Some(rates) = cache.rates.get(key.as_str()) {
        return Ok(Some(DayRates { date, rates: rates.clone() }));
    }
    if let Some(published) = cache.aliases.get(key.as_str()) {
        if let Some(rates) = cache.rates.get(published.as_str()) {
            let published_date = parse_date(published.as_str())?;
            return Ok(Some(DayRates { date: published_date, rates: rates.clone() }));
        }
    }
    Ok(None)
}

/// How old a day has to be, in days, before another day may stand in for it for
/// good. A younger day may still get its own quotes.
pub const ALIAS_MIN_AGE_DAYS: i64 = 7;

/// Whether an earlier day may stand in for a requested one for good: another day
/// was returned, and the requested one is old enough.
pub open spec fn may_alias(requested: int, returned: int, today: int) -> bool {
    returned != requested && today - requested >= ALIAS_MIN_AGE_DAYS
}

/// Whether an earlier day may stand in for a requested one for good.
pub fn should_alias_as(requested: Date, returned: Date, today: Date) -> (r: bool)
    ensures
        r == may_alias(requested@, returned@, today@),
{
    returned.days() != requested.days() && today.days() as i64 - requested.days() as i64
        >= ALIAS_MIN_AGE_DAYS
}

/// The cache after a day of quotes was fetched, and possibly recorded as standing
/// in for the day that was asked for.
pub open spec fn with_day(
    cache: CacheView,
    returned: int,
    rates: Map<Seq<char>, u64>,
    alias_for: Option<int>,
) -> CacheView {
    CacheView {
        rates: cache.rates.insert(text_of(returned), rates),
        aliases: match alias_for {
            Some(requested) => cache.aliases.insert(text_of(requested), text_of(returned)),
            None => cache.aliases,
        },
        ..cache
    }
}

/// Keep a fetched day of quotes, and record it as standing in for another day
/// where one is given.
pub fn keep_day(cache: &mut RateCache, day: &DayRates, alias_for: Option<Date>)
    ensures
        final(cache)@ == with_day(
            old(cache)@,
            day@.date,
            day@.rates,
            match alias_for {
                Some(date) => Some(date@),
                None => None,
            },
        ),
{
    let key = day.date.text();
    cache.rates.insert(key.clone(), day.rates.clone());
    if let Some(requested) = alias_for {
        cache.aliases.insert(requested.text(), key);
    }
}

/// Keep the newest rates, and note when they were fetched.
pub fn keep_latest(cache: &mut RateCache, day: &DayRates, now: i64)
    ensures
        final(cache)@ == (CacheView {
            latest_date: Some(text_of(day@.date)),
            latest_fetched_at: Some(now),
            ..with_day(old(cache)@, day@.date, day@.rates, None)
        }),
{
    let key = day.date.text();
    cache.rates.insert(key.clone(), day.rates.clone());
    cache.latest_date = Some(key);
    cache.latest_fetched_at = Some(now);
}

/// How long the newest rates stay fresh, in seconds.
pub const LATEST_STALENESS_THRESHOLD_SECS: i64 = 3600;

/// The newest rates, if they were fetched less than an hour ago. A fetch in the
/// future counts as stale.
pub open spec fn fresh_latest(cache: CacheView, now: int) -> Result<Option<DayView>, ErrorView> {
    match (cache.latest_fetched_at, cache.latest_date) {
        (Some(fetched_at), Some(key)) => if 0 <= now - fetched_at < LATEST_STALENESS_THRESHOLD_SECS
            && cache.rates.contains_key(key) {
            day_at(cache, Some(key))
        } else {
            Ok(None)
        },
        _ => Ok(None),
    }
}

/// The newest rates, if they were fetched less than an hour ago.
pub fn fresh_latest_from_cache(cache: &RateCache, now: i64) -> (r: Result<
    Option<DayRates>,
    Error,
>)
    requires
        cache.latest_fetched_at matches Some(at) ==> i64::MIN <= now - at <= i64::MAX,
    ensures
        match r {
            Ok(Some(day)) => fresh_latest(cache@, now as int) == Ok::<Option<DayView>, ErrorView>(
                Some(day@),
            ),
            Ok(None) => fresh_latest(cache@, now as int) == Ok::<Option<DayView>, ErrorView>(None),
            Err(e) => fresh_latest(cache@, now as int) == Err::<Option<DayView>, ErrorView>(e@),
        },
{
    if let (Some(fetched_at), Some(key)) = (&cache.latest_fetched_at, &cache.latest_date) {
        let age: i64 = now - *fetched_at;
        if !(0 <= age && age < LATEST_STALENESS_THRESHOLD_SECS) {
            return Ok(None);
        }
        return match cache.rates.get(key.as_str()) {
            Some(rates) => {
                let date = parse_date(key.as_str())?;
                Ok(Some(DayRates { date, rates: rates.clone() }))
            },
            None => Ok(None),
        };
    }
    Ok(None)
}

/// What one euro costs in a currency: one for the euro itself, else the bits of
/// the published quote.
#[derive(Clone, Copy, Debug, PartialEq, Eq, Structural)]
pub enum Quote {
    Euro,
    Published(u64),
}

/// A rate into the reference currency: one, or the quote of the reference
/// currency divided by the quote of the currency.
#[derive(Clone, Copy, Debug, PartialEq, Eq, Structural)]
pub enum Rate {
    One,
    Cross { reference: Quote, currency: Quote },
}

/// A rate into the reference currency and the day it was published for, which is
/// none for the reference currency itself.
#[derive(Clone, Copy, Debug, PartialEq, Eq)]
pub struct ResolvedRate {
    pub rate: Rate,
    pub rate_date: Option<Date>,
}

/// What a [`ResolvedRate`] says.
pub struct ResolvedView {
    pub rate: Rate,
    pub rate_date: Option<int>,
}

impl View for ResolvedRate {
    type V = ResolvedView;

    open spec fn view(&self) -> ResolvedView {
        ResolvedView {
            rate: self.rate,
            rate_date: match self.rate_date {
                Some(date) => Some(date@),
                None => None,
            },
        }
    }
}

/// The quote of a currency, or that none is published.
pub open spec fn quote_of(currency: Seq<char>, rates: Map<Seq<char>, u64>) -> Result<
    Quote,
    ErrorView,
> {
    if currency == "EUR"@ {
        Ok(Quote::Euro)
    } else if rates.contains_key(currency) {
        Ok(Quote::Published(rates[currency]))
    } else {
        Err(
            ErrorView::NotFound("no published EUR-based rate for currency '"@ + currency + "'"@),
        )
    }
}

/// The quote of a currency.
pub fn eur_rate_of(currency: &str, eur_rates: &RateTable) -> (r: Result<Quote, Error>)
    ensures
        match r {
            Ok(quote) => quote_of(currency@, eur_rates@) == Ok::<Quote, ErrorView>(quote),
            Err(e) => quote_of(currency@, eur_rates@) == Err::<Quote, ErrorView>(e@),
        },
{
    if same_text(currency, "EUR") {
        return Ok(Quote::Euro);
    }
    match eur_rates.get(currency) {
        Some(bits) => Ok(Quote::Published(*bits)),
        None => Err(
            Error::NotFound(
                "no published EUR-based rate for currency '".to_owned().concat(currency).concat("'"),
            ),
        ),
    }
}

/// The rate from a currency into the reference currency.
pub open spec fn rate_between(
    currency: Seq<char>,
    reference: Seq<char>,
    rates: Map<Seq<char>, u64>,
) -> Result<Rate, ErrorView> {
    if currency == reference {
        Ok(Rate::One)
    } else {
        match quote_of(currency, rates) {
            Err(e) => Err(e),
            Ok(of_currency) => match quote_of(reference, rates) {
                Err(e) => Err(e),
                Ok(of_reference) => Ok(
                    Rate::Cross { reference: of_reference, currency: of_currency },
                ),
            },
        }
    }
}

/// The rate from a currency into the reference currency: the quotient of their
/// quotes.
pub fn cross_rate(currency: &str, reference_currency: &str, eur_rates: &RateTable) -> (r: Result<
    Rate,
    Error,
>)
    ensures
        match r {
            Ok(rate) => rate_between(currency@, reference_currency@, eur_rates@) == Ok::<
                Rate,
                ErrorView,
            >(rate),
            Err(e) => rate_between(currency@, reference_currency@, eur_rates@) == Err::<
                Rate,
                ErrorView,
            >(e@),
        },
{
    if same_text(currency, reference_currency) {
        return Ok(Rate::One);
    }
    let of_currency = eur_rate_of(currency, eur_rates)?;
    let of_reference = eur_rate_of(reference_currency, eur_rates)?;
    Ok(Rate::Cross { reference: of_reference, currency: of_currency })
}

/// What a day of quotes gives for a currency.
pub open spec fn day_rate(currency: Seq<char>, reference: Seq<char>, day: DayView) -> Option<
    ResolvedView,
> {
    match rate_between(currency, reference, day.rates) {
        Ok(rate) => Some(ResolvedView { rate, rate_date: Some(day.date) }),
        Err(_) => None,
    }
}

/// What a day of quotes gives for a currency, or `None` when the day lacks one of
/// the two quotes.
pub fn cross_to_reference(day: &DayRates, currency: &str, reference_currency: &str) -> (r: Option<
    ResolvedRate,
>)
    ensures
        match r {
            Some(resolved) => day_rate(currency@, reference_currency@, day@) == Some(resolved@),
            None => day_rate(currency@, reference_currency@, day@) is None,
        },
{
    match cross_rate(currency, reference_currency, &day.rates) {
        Ok(rate) => Some(ResolvedRate { rate, rate_date: Some(day.date) }),
        Err(_) => None,
    }
}

/// The first day rates are published for.
pub open spec fn series_start() -> int {
    day_number(1999, 1, 4)
}

/// Whether a day is one that a rate can be fetched for: from the first published
/// day to today.
pub fn is_fetchable_date(date: Date, today: Date) -> (r: bool)
    ensures
        r == (series_start() <= date@ <= today@),
{
    proof {
        reveal_with_fuel(days_before_month, 3);
        assert(series_start() == 10595);
    }
    10595 <= date.days() && date.days() <= today.days()
}

/// The last day of a month.
pub open spec fn month_end(year: int, month: int) -> int {
    day_number(year, month, month_length(year, month))
}

/// What is wrong with a year and month that have no last day.
pub open spec fn year_month_error(year: int, month: nat) -> ErrorView {
    ErrorView::InvalidArgument(
        "'"@ + signed_decimal(year) + "-"@ + padded(month, 2) + "' is not a valid year/month"@,
    )
}

/// The year and month after a month.
pub open spec fn month_after(year: int, month: int) -> (int, int) {
    if month == 12 {
        (year + 1, 1)
    } else {
        (year, month + 1)
    }
}

/// The last day of a month: the day before the first of the next one.
pub fn last_day_of_month(year: i32, month: u32) -> (r: Result<Date, Error>)
    requires
        !(year == FIRST_YEAR - 1 && month == 12),
    ensures
        ({
            let next = month_after(year as int, month as int);
            match r {
                Ok(date) => 1 <= month <= 12 && is_date(next.0, next.1, 1) && date@ == month_end(
                    year as int,
                    month as int,
                ),
                Err(e) => if 1 <= month <= 12 {
                    !is_date(next.0, next.1, 1) && e@ == year_month_error(year as int, month as nat)
                } else {
                    e@ == month_error(month as nat)
                },
            }
        }),
{
    check_month(month)?;
    let first_of_next = if month == 12 {
        if year == i32::MAX {
            None
        } else {
            Date::from_ymd(year + 1, 1, 1)
        }
    } else {
        Date::from_ymd(year, month + 1, 1)
    };
    match first_of_next {
        Some(date) => {
            proof {
                lemma_month_end(year as int, month as int);
                lemma_day_range(
                    year as int,
                    month as int,
                    month_length(year as int, month as int),
                );
            }
            Ok(date.day_before())
        },
        None => {
            let mut message = "'".to_owned();
            push_signed(&mut message, year as i64);
            message.append("-");
            push_padded(&mut message, month as u64, 2);
            message.append("' is not a valid year/month");
            Err(Error::InvalidArgument(message))
        },
    }
}

/// The next thing to do in a lookup: take a day of quotes, or fetch it.
#[derive(Debug, PartialEq, Eq)]
pub enum Lookup {
    Found(DayRates),
    Fetch,
}

/// No quotes are cached on or before a day, and the network may not be used.
pub open spec fn offline_error(date: int) -> ErrorView {
    ErrorView::NotFound(
        "no cached FX rate on or before "@ + text_of(date)
            + ", and FINGUARD_FX_OFFLINE disables the network"@,
    )
}

/// What a [`Lookup`] says.
pub enum LookupView {
    Found(DayView),
    Fetch,
}

/// What the begin of a lookup says.
pub open spec fn lookup_view(r: Result<Lookup, Error>) -> Result<LookupView, ErrorView> {
    match r {
        Ok(Lookup::Found(day)) => Ok(LookupView::Found(day@)),
        Ok(Lookup::Fetch) => Ok(LookupView::Fetch),
        Err(e) => Err(e@),
    }
}

/// What the end of a lookup says.
pub open spec fn day_outcome(r: Result<DayRates, Error>) -> Result<DayView, ErrorView> {
    match r {
        Ok(day) => Ok(day@),
        Err(e) => Err(e@),
    }
}

/// The quotes that stand in where there are no others, or the failure that is answered
/// where none do.
pub open spec fn or_failure(
    stand_in: Result<Option<DayView>, ErrorView>,
    failure: ErrorView,
) -> Result<DayView, ErrorView> {
    match stand_in {
        Err(e) => Err(e),
        Ok(Some(day)) => Ok(day),
        Ok(None) => Err(failure),
    }
}

/// How a lookup begins: with what is kept, else with the network, else with what stands
/// in.
pub open spec fn begun(
    kept: Result<Option<DayView>, ErrorView>,
    offline: bool,
    otherwise: Result<DayView, ErrorView>,
) -> Result<LookupView, ErrorView> {
    match kept {
        Err(e) => Err(e),
        Ok(Some(day)) => Ok(LookupView::Found(day)),
        Ok(None) => if !offline {
            Ok(LookupView::Fetch)
        } else {
            match otherwise {
                Err(e) => Err(e),
                Ok(day) => Ok(LookupView::Found(day)),
            }
        },
    }
}

/// How the lookup of a day begins.
pub open spec fn lookup_of(cache: CacheView, date: int, offline: bool) -> Result<
    LookupView,
    ErrorView,
> {
    begun(
        cached_day(cache, date),
        offline,
        or_failure(earlier_day(cache, text_of(date)), offline_error(date)),
    )
}

/// That no quotes are kept at all, and the network may not be used.
pub open spec fn no_quotes_error() -> ErrorView {
    ErrorView::NotFound(
        "no cached FX rate is available, and FINGUARD_FX_OFFLINE disables the network"@,
    )
}

/// That no quotes are kept at all, and the network failed.
pub open spec fn no_network_error(failure: ErrorView) -> ErrorView {
    ErrorView::NotFound(
        "no cached FX rate is available, and the network failed: "@ + failure.message(),
    )
}

/// How the lookup of the newest quotes begins.
pub open spec fn latest_of(cache: CacheView, now: int, offline: bool) -> Result<
    LookupView,
    ErrorView,
> {
    begun(fresh_latest(cache, now), offline, or_failure(newest_day(cache), no_quotes_error()))
}

/// Begin the lookup of the quotes of a day: what the cache holds for it first,
/// then the network, unless it may not be used; offline, the nearest earlier day
/// that is cached.
pub fn start_lookup(cache: &RateCache, date: Date, offline: bool) -> (r: Result<Lookup, Error>)
    ensures
        lookup_view(r) == lookup_of(cache@, date@, offline),
        match cached_day(cache@, date@) {
            Err(e) => r matches Err(error) && error@ == e,
            Ok(Some(day)) => r matches Ok(Lookup::Found(found)) && found@ == day,
            Ok(None) => if !offline {
                r matches Ok(Lookup::Fetch)
            } else {
                match earlier_day(cache@, text_of(date@)) {
                    Err(e) => r matches Err(error) && error@ == e,
                    Ok(Some(day)) => r matches Ok(Lookup::Found(found)) && found@ == day,
                    Ok(None) => r matches Err(error) && error@ == offline_error(date@),
                }
            },
        },
{
    if let Some(day) = cached_rate_for(cache, date)? {
        return Ok(Lookup::Found(day));
    }
    if !offline {
        return Ok(Lookup::Fetch);
    }
    let key = date.text();
    match nearest_earlier(cache, key.as_str())? {
        Some(day) => Ok(Lookup::Found(day)),
        None => Err(
            Error::NotFound(
                "no cached FX rate on or before ".to_owned().concat(key.as_str()).concat(
                    ", and FINGUARD_FX_OFFLINE disables the network",
                ),
            ),
        ),
    }
}

/// The day that a fetched day may stand in for, if it is not the day itself and
/// old enough.
pub fn alias_for(requested: Date, returned: Date, today: Date) -> (r: Option<Date>)
    ensures
        match r {
            Some(date) => date@ == requested@ && may_alias(requested@, returned@, today@),
            None => !may_alias(requested@, returned@, today@),
        },
{
    if should_alias_as(requested, returned, today) {
        Some(requested)
    } else {
        None
    }
}

/// No quotes are cached on or before a day, and the network failed.
pub open spec fn unreachable_error(date: int, failure: ErrorView) -> ErrorView {
    ErrorView::NotFound(
        "no cached FX rate on or before "@ + text_of(date) + ", and the network failed: "@
            + failure.message(),
    )
}

/// End a lookup whose fetch failed: the nearest earlier day that is cached, or
/// that there is none.
pub fn after_failed_fetch(cache: &RateCache, date: Date, failure: Error) -> (r: Result<
    DayRates,
    Error,
>)
    ensures
        day_outcome(r) == or_failure(
            earlier_day(cache@, text_of(date@)),
            unreachable_error(date@, failure@),
        ),
        match earlier_day(cache@, text_of(date@)) {
            Err(e) => r matches Err(error) && error@ == e,
            Ok(Some(day)) => r matches Ok(found) && found@ == day,
            Ok(None) => r matches Err(error) && error@ == unreachable_error(date@, failure@),
        },
{
    let key = date.text();
    match nearest_earlier(cache, key.as_str())? {
        Some(day) => Ok(day),
        None => Err(
            Error::NotFound(
                "no cached FX rate on or before ".to_owned().concat(key.as_str()).concat(
                    ", and the network failed: ",
                ).concat(failure.message().as_str()),
            ),
        ),
    }
}

/// Begin the lookup of the newest quotes: those fetched less than an hour ago
/// first, then the network, unless it may not be used; offline, the newest day
/// that is cached.
pub fn start_latest(cache: &RateCache, now: i64, offline: bool) -> (r: Result<Lookup, Error>)
    requires
        cache.latest_fetched_at matches Some(at) ==> i64::MIN <= now - at <= i64::MAX,
    ensures
        lookup_view(r) == latest_of(cache@, now as int, offline),
        match fresh_latest(cache@, now as int) {
            Err(e) => r matches Err(error) && error@ == e,
            Ok(Some(day)) => r matches Ok(Lookup::Found(found)) && found@ == day,
            Ok(None) => if !offline {
                r matches Ok(Lookup::Fetch)
            } else {
                match newest_day(cache@) {
                    Err(e) => r matches Err(error) && error@ == e,
                    Ok(Some(day)) => r matches Ok(Lookup::Found(found)) && found@ == day,
                    Ok(None) => r matches Err(error) && error@ == ErrorView::NotFound(
                        "no cached FX rate is available, and FINGUARD_FX_OFFLINE disables the network"@,
                    ),
                }
            },
        },
{
    if let Some(day) = fresh_latest_from_cache(cache, now)? {
        return Ok(Lookup::Found(day));
    }
    if !offline {
        return Ok(Lookup::Fetch);
    }
    match newest_cached(cache)? {
        Some(day) => Ok(Lookup::Found(day)),
        None => Err(
            Error::NotFound(
                "no cached FX rate is available, and FINGUARD_FX_OFFLINE disables the network".to_owned(),
            ),
        ),
    }
}

/// End the lookup of the newest quotes when its fetch failed: the newest day that
/// is cached, or that there is none.
pub fn after_failed_latest(cache: &RateCache, failure: Error) -> (r: Result<DayRates, Error>)
    ensures
        day_outcome(r) == or_failure(newest_day(cache@), no_network_error(failure@)),
        match newest_day(cache@) {
            Err(e) => r matches Err(error) && error@ == e,
            Ok(Some(day)) => r matches Ok(found) && found@ == day,
            Ok(None) => r matches Err(error) && error@ == ErrorView::NotFound(
                "no cached FX rate is available, and the network failed: "@ + failure@.message(),
            ),
        },
{
    match newest_cached(cache)? {
        Some(day) => Ok(day),
        None => Err(
            Error::NotFound(
                "no cached FX rate is available, and the network failed: ".to_owned().concat(
                    failure.message().as_str(),
                ),
            ),
        ),
    }
}

/// Whether a currency is the reference currency, which needs no lookup.
pub fn is_reference(currency: &str, reference_currency: &str) -> (r: bool)
    ensures
        r == (code_of(currency@) == code_of(reference_currency@)),
{
    same_text(code(currency).as_str(), code(reference_currency).as_str())
}

/// The rate of a currency into the reference currency: one for the reference
/// currency itself, else what a day of quotes gives.
pub fn resolve(currency: &str, reference_currency: &str, day: &DayRates) -> (r: Result<
    ResolvedRate,
    Error,
>)
    ensures
        ({
            let from = code_of(currency@);
            let into = code_of(reference_currency@);
            if from == into {
                r matches Ok(resolved) && resolved@ == (ResolvedView {
                    rate: Rate::One,
                    rate_date: None,
                })
            } else {
                match rate_between(from, into, day@.rates) {
                    Ok(rate) => r matches Ok(resolved) && resolved@ == (ResolvedView {
                        rate,
                        rate_date: Some(day@.date),
                    }),
                    Err(e) => r matches Err(error) && error@ == e,
                }
            }
        }),
{
    let from = code(currency);
    let into = code(reference_currency);
    if same_text(from.as_str(), into.as_str()) {
        return Ok(ResolvedRate { rate: Rate::One, rate_date: None });
    }
    let rate = cross_rate(from.as_str(), into.as_str(), &day.rates)?;
    Ok(ResolvedRate { rate, rate_date: Some(day.date) })
}

/// The currencies that need rates: their codes without the reference currency,
/// sorted, each once.
pub fn needed_currencies(currencies: &[String], reference: &str) -> (r: Vec<String>)
    ensures
        texts_increase(texts(r@)),
        forall|c: Seq<char>| #[trigger]
            texts(r@).contains(c) <==> c != reference@ && exists|i: int|
                0 <= i < currencies@.len() && c == code_of((#[trigger] currencies@[i])@),
{
    let mut needed: Vec<String> = Vec::new();
    let mut i: usize = 0;
    while i < currencies.len()
        invariant
            i <= currencies.len(),
            texts_increase(texts(needed@)),
            forall|c: Seq<char>| #[trigger]
                texts(needed@).contains(c) <==> c != reference@ && exists|k: int|
                    0 <= k < i && c == code_of((#[trigger] currencies@[k])@),
        decreases currencies.len() - i,
    {
        let it = code(currencies[i].as_str());
        let ghost before = texts(needed@);
        let ghost word = it@;
        if !same_text(it.as_str(), reference) {
            insert_text(&mut needed, it);
        }
        proof {
            assert forall|c: Seq<char>| #[trigger]
                texts(needed@).contains(c) <==> c != reference@ && exists|k: int|
                    0 <= k < i + 1 && c == code_of((#[trigger] currencies@[k])@) by {
                assert(before.contains(c) <==> c != reference@ && exists|k: int|
                    0 <= k < i && c == code_of((#[trigger] currencies@[k])@));
                if c == word {
                    assert(c == code_of(currencies@[i as int]@));
                }
            }
        }
        i = i + 1;
    }
    needed
}

} // verus!
