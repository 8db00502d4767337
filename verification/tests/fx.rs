//! Exchange rates: the cache, single lookups, batches and the rates of a year.
//! Nothing here reaches the network: what would be fetched is either absent or
//! handed in.

use finguard::dates::Date;
use finguard::error::Error;
use finguard::fx::{
    after_failed_fetch, after_failed_latest, cached_rate_for, fresh_latest_from_cache,
    is_fetchable_date, is_reference, keep_day, keep_latest, last_day_of_month, needed_currencies,
    resolve, should_alias_as, start_latest, start_lookup, DayRates, Lookup, Quote, Rate, RateCache,
    RateTable, ResolvedRate, ALIAS_MIN_AGE_DAYS, LATEST_STALENESS_THRESHOLD_SECS,
};
use finguard::fx_batch::{
    after_range, clamp_range_min, dated_days, historical_url, latest_url, merge_range_into_cache,
    plan_prewarm, range_url, Prewarm,
};
use finguard::fx_keys::{
    after_missing_fetch, key_dates, missing_step, reconcile, MissingOutcome, MissingStep, RateMap,
};
use finguard::fx_monthly::{
    complete_table, table_requests, year_rate_dates, BatchStep, CurrentMonthRateMode, MonthlyRates,
    RateRequest, SnapBatch,
};
use finguard::fx_runs::{start_keys, KeyStep, YearRun};
use finguard::text_map::TextMap;

const NOW: i64 = 1_789_000_000;

fn day(year: i32, month: u32, day: u32) -> Date {
    Date::from_ymd(year, month, day).unwrap()
}

fn series_start() -> Date {
    day(1999, 1, 4)
}

fn shifted(date: Date, days: i64) -> Date {
    Date::from_days((date.days() as i64 + days) as i32).unwrap()
}

fn table(pairs: &[(&str, f64)]) -> RateTable {
    let mut quotes = TextMap::new();
    for (currency, rate) in pairs {
        quotes.insert(currency.to_string(), rate.to_bits());
    }
    quotes
}

fn cache_of(days: &[(&str, &[(&str, f64)])]) -> RateCache {
    let mut cache = RateCache::default();
    for (key, pairs) in days {
        cache.rates.insert(key.to_string(), table(pairs));
    }
    cache
}

fn quoted(rates: &RateTable, currency: &str) -> f64 {
    f64::from_bits(*rates.get(currency).unwrap())
}

fn quote(quote: Quote) -> f64 {
    match quote {
        Quote::Euro => 1.0,
        Quote::Published(bits) => f64::from_bits(bits),
    }
}

fn value(rate: Rate) -> f64 {
    match rate {
        Rate::One => 1.0,
        Rate::Cross { reference, currency } => quote(reference) / quote(currency),
    }
}

/// What a lookup without the network gives.
fn rate_on(
    cache: &RateCache,
    date: Date,
    currency: &str,
    reference: &str,
) -> Result<ResolvedRate, Error> {
    if is_reference(currency, reference) {
        return Ok(ResolvedRate { rate: Rate::One, rate_date: None });
    }
    match start_lookup(cache, date, true)? {
        Lookup::Found(found) => resolve(currency, reference, &found),
        Lookup::Fetch => panic!("offline"),
    }
}

fn live_rate(cache: &RateCache, currency: &str, reference: &str) -> Result<ResolvedRate, Error> {
    match start_latest(cache, NOW, true)? {
        Lookup::Found(found) => resolve(currency, reference, &found),
        Lookup::Fetch => panic!("offline"),
    }
}

fn answer(
    cache: &RateCache,
    request: RateRequest,
    currency: &str,
    reference: &str,
) -> Result<ResolvedRate, Error> {
    match request {
        RateRequest::On(date) => rate_on(cache, date, currency, reference),
        RateRequest::Live => live_rate(cache, currency, reference),
    }
}

/// The rates of a year for currencies that all have to resolve.
fn monthly_rates(
    cache: &RateCache,
    today: Date,
    year: i32,
    currencies: &[String],
    reference: &str,
    mode: CurrentMonthRateMode,
) -> Result<MonthlyRates, Error> {
    let needed = needed_currencies(currencies, reference);
    let dates = year_rate_dates(today, year, mode)?;
    let mut answers = Vec::new();
    for asked in table_requests(&dates, needed.len()) {
        answers.push(answer(cache, asked.request, &needed[asked.currency], reference)?.rate);
    }
    Ok(complete_table(reference, &needed, &dates, &answers))
}

/// The rates of a year for the currencies that resolve, and the others.
fn monthly_rates_lenient(
    cache: &RateCache,
    today: Date,
    year: i32,
    currencies: &[String],
    reference: &str,
    mode: CurrentMonthRateMode,
) -> (MonthlyRates, Vec<String>) {
    let dates = year_rate_dates(today, year, mode).ok();
    let mut run = YearRun::start(currencies, reference, dates);
    while let Some((currency, request)) = run.next() {
        let answer = answer(cache, request, currency, reference).ok().map(|found| found.rate);
        run = run.answer(answer);
    }
    run.finish()
}

/// The rates of a batch of keys, without the network.
fn rates_for_keys(
    cache: &RateCache,
    keys: &[(Date, String)],
    reference: &str,
    today: Date,
) -> (RateMap, Vec<String>) {
    match start_keys(keys.to_vec(), reference, Some(cache.clone()), true, today) {
        KeyStep::Done { rates, unavailable } => (rates, unavailable),
        KeyStep::FetchRange { .. } => panic!("offline"),
        KeyStep::SettleDays { batch, dates } => {
            let mut outcomes = Vec::new();
            for date in &dates {
                match missing_step(&batch.cache, *date, false, today) {
                    MissingStep::Settled(outcome) => outcomes.push((*date, outcome)),
                    MissingStep::Fetch => panic!("offline"),
                }
            }
            batch.after_days(&dates, outcomes)
        }
    }
}

fn key(date: Date, currency: &str) -> (Date, String) {
    (date, currency.to_string())
}

fn rate_at(rates: &RateMap, date: Date, currency: &str) -> Option<f64> {
    rates.get(date, currency).map(|resolved| value(resolved.rate))
}

#[test]
fn reference_currency_is_always_1_0_with_no_lookup() {
    let cache = RateCache::default();
    let resolved = rate_on(&cache, day(2026, 9, 4), "EUR", "EUR").unwrap();
    assert_eq!(value(resolved.rate), 1.0);
    assert_eq!(resolved.rate_date, None);
    assert!(is_reference(" eur ", "EUR"));
    assert!(!is_reference("USD", "EUR"));
}

#[test]
fn exact_cache_hit_is_used_without_a_fallback() {
    let cache = cache_of(&[("2026-09-04", &[("USD", 1.1622)])]);
    let resolved = rate_on(&cache, day(2026, 9, 4), "USD", "EUR").unwrap();
    assert_eq!(value(resolved.rate), 1.0 / 1.1622);
    assert_eq!(resolved.rate_date, Some(day(2026, 9, 4)));
}

#[test]
fn missing_date_falls_back_to_nearest_earlier_cached_date() {
    let cache = cache_of(&[("2026-09-04", &[("USD", 1.1622)])]);
    let resolved = rate_on(&cache, day(2026, 9, 6), "USD", "EUR").unwrap();
    assert_eq!(value(resolved.rate), 1.0 / 1.1622);
    assert_eq!(resolved.rate_date, Some(day(2026, 9, 4)));
}

#[test]
fn nothing_cached_and_offline_is_a_hard_error() {
    let cache = RateCache::default();
    let err = rate_on(&cache, day(2026, 9, 4), "USD", "EUR").unwrap_err();
    assert!(matches!(err, Error::NotFound(_)));
    assert_eq!(
        err.message(),
        "no cached FX rate on or before 2026-09-04, and FINGUARD_FX_OFFLINE disables the network"
    );
}

#[test]
fn non_eur_reference_currency_uses_a_cross_rate() {
    let cache = cache_of(&[("2026-09-04", &[("USD", 1.1622), ("GBP", 0.85898)])]);
    let resolved = rate_on(&cache, day(2026, 9, 4), "USD", "GBP").unwrap();
    assert_eq!(value(resolved.rate), 0.85898 / 1.1622);
    assert_eq!(resolved.rate_date, Some(day(2026, 9, 4)));
}

#[test]
fn month_end_rate_uses_the_last_calendar_day() {
    let cache = cache_of(&[("2026-09-29", &[("USD", 1.16)])]);
    let end = last_day_of_month(2026, 9).unwrap();
    let resolved = rate_on(&cache, end, "USD", "EUR").unwrap();
    assert_eq!(value(resolved.rate), 1.0 / 1.16);
    assert_eq!(resolved.rate_date, Some(day(2026, 9, 29)));
}

#[test]
fn live_rate_offline_uses_the_newest_cached_date() {
    let cache = cache_of(&[("2026-09-02", &[("USD", 1.15)]), ("2026-09-04", &[("USD", 1.1622)])]);
    let resolved = live_rate(&cache, "USD", "EUR").unwrap();
    assert_eq!(value(resolved.rate), 1.0 / 1.1622);
    assert_eq!(resolved.rate_date, Some(day(2026, 9, 4)));
}

#[test]
fn nothing_cached_at_all_is_an_error_for_the_newest_rate() {
    let err = live_rate(&RateCache::default(), "USD", "EUR").unwrap_err();
    assert_eq!(
        err.message(),
        "no cached FX rate is available, and FINGUARD_FX_OFFLINE disables the network"
    );
}

#[test]
fn a_failed_fetch_falls_back_or_is_reported() {
    let cache = cache_of(&[("2026-09-04", &[("USD", 1.1622)])]);
    let date = day(2026, 9, 6);
    assert!(matches!(start_lookup(&cache, date, false), Ok(Lookup::Fetch)));
    let found = after_failed_fetch(&cache, date, Error::Network("down".to_string())).unwrap();
    assert_eq!(found.date, day(2026, 9, 4));
    let old = day(2026, 1, 5);
    let err = after_failed_fetch(&cache, old, Error::Network("down".to_string())).unwrap_err();
    assert!(matches!(err, Error::NotFound(_)));
    assert_eq!(
        err.message(),
        "no cached FX rate on or before 2026-01-05, and the network failed: down"
    );

    assert!(matches!(start_latest(&cache, NOW, false), Ok(Lookup::Fetch)));
    let newest = after_failed_latest(&cache, Error::Network("down".to_string())).unwrap();
    assert_eq!(newest.date, day(2026, 9, 4));
    let none = RateCache::default();
    let err = after_failed_latest(&none, Error::Network("down".to_string())).unwrap_err();
    assert!(matches!(err, Error::NotFound(_)));
    assert_eq!(err.message(), "no cached FX rate is available, and the network failed: down");
}

#[test]
fn a_key_that_is_no_date_is_a_network_error() {
    let cache = cache_of(&[("2026-13-99", &[("USD", 1.0)])]);
    let err = live_rate(&cache, "USD", "EUR").unwrap_err();
    assert!(matches!(err, Error::Network(_)));
    assert!(err.message().contains("cached FX rate key '2026-13-99' is not a valid date: "));
}

fn completed_2026_months() -> RateCache {
    cache_of(&[
        ("2026-01-31", &[("USD", 1.00)]),
        ("2026-02-28", &[("USD", 1.00)]),
        ("2026-03-31", &[("USD", 1.00)]),
        ("2026-04-30", &[("USD", 1.00)]),
        ("2026-05-31", &[("USD", 1.00)]),
        ("2026-06-30", &[("USD", 1.10)]),
        ("2026-07-31", &[("USD", 1.00)]),
        ("2026-08-31", &[("USD", 1.20)]),
    ])
}

fn usd() -> Vec<String> {
    vec!["USD".to_string()]
}

#[test]
fn monthly_rates_completed_month_uses_its_own_month_end_rate() {
    let mode = CurrentMonthRateMode::PreviousMonthEnd;
    let cache = completed_2026_months();
    let rates = monthly_rates(&cache, day(2026, 9, 15), 2026, &usd(), "EUR", mode).unwrap();
    assert_eq!(value(rates.rate(6, "USD").unwrap()), 1.0 / 1.10);
}

#[test]
fn monthly_rates_in_progress_month_previous_month_end_uses_preceding_month() {
    let mode = CurrentMonthRateMode::PreviousMonthEnd;
    let cache = completed_2026_months();
    let rates = monthly_rates(&cache, day(2026, 9, 15), 2026, &usd(), "EUR", mode).unwrap();
    assert_eq!(value(rates.rate(9, "USD").unwrap()), 1.0 / 1.20);
}

#[test]
fn monthly_rates_january_previous_month_end_reaches_back_a_year() {
    let mode = CurrentMonthRateMode::PreviousMonthEnd;
    let cache = cache_of(&[("2026-12-31", &[("USD", 1.15)])]);
    let rates = monthly_rates(&cache, day(2027, 1, 10), 2027, &usd(), "EUR", mode).unwrap();
    assert_eq!(value(rates.rate(1, "USD").unwrap()), 1.0 / 1.15);
}

#[test]
fn monthly_rates_in_progress_month_live_mode_uses_live_rate() {
    let mode = CurrentMonthRateMode::Live;
    let mut cache = completed_2026_months();
    cache.rates.insert("2026-09-10".to_string(), table(&[("USD", 1.18)]));
    let rates = monthly_rates(&cache, day(2026, 9, 15), 2026, &usd(), "EUR", mode).unwrap();
    assert_eq!(value(rates.rate(9, "USD").unwrap()), 1.0 / 1.18);
}

#[test]
fn monthly_rates_future_month_matches_the_in_progress_month() {
    let mode = CurrentMonthRateMode::PreviousMonthEnd;
    let cache = completed_2026_months();
    let rates = monthly_rates(&cache, day(2026, 9, 15), 2026, &usd(), "EUR", mode).unwrap();
    assert_eq!(rates.rate(9, "USD").unwrap(), rates.rate(12, "USD").unwrap());
}

#[test]
fn monthly_rates_reference_currency_is_never_looked_up() {
    let mode = CurrentMonthRateMode::PreviousMonthEnd;
    let eur = vec!["EUR".to_string()];
    let cache = RateCache::default();
    let rates = monthly_rates(&cache, day(2026, 9, 15), 2026, &eur, "EUR", mode).unwrap();
    assert_eq!(value(rates.rate(1, "EUR").unwrap()), 1.0);
    assert_eq!(value(rates.rate(9, "EUR").unwrap()), 1.0);
    assert_eq!(rates, MonthlyRates::new("EUR"));
}

#[test]
fn monthly_rates_lenient_reports_one_failure_without_sinking_the_other() {
    let mode = CurrentMonthRateMode::PreviousMonthEnd;
    let cache = cache_of(&[("2000-01-31", &[("GBP", 0.70)])]);
    let currencies = vec!["GBP".to_string(), "USD".to_string()];
    let (rates, unavailable) =
        monthly_rates_lenient(&cache, day(2026, 9, 15), 2000, &currencies, "EUR", mode);
    assert_eq!(unavailable, vec!["USD".to_string()]);
    assert_eq!(value(rates.rate(1, "GBP").unwrap()), 1.0 / 0.70);
    let err = rates.rate(1, "USD").unwrap_err();
    assert_eq!(
        err.message(),
        "no resolved FX rate for 'USD' in month 01; it was not included in the currencies passed to monthly_rates"
    );
}

#[test]
fn monthly_rates_lenient_reference_currency_only_needs_no_lookup() {
    let mode = CurrentMonthRateMode::PreviousMonthEnd;
    let eur = vec!["EUR".to_string()];
    let (rates, unavailable) =
        monthly_rates_lenient(&RateCache::default(), day(2026, 9, 15), 2026, &eur, "EUR", mode);
    assert!(unavailable.is_empty());
    assert_eq!(value(rates.rate(1, "EUR").unwrap()), 1.0);
}

#[test]
fn year_rate_dates_fully_completed_past_year_returns_twelve_month_ends() {
    let mode = CurrentMonthRateMode::PreviousMonthEnd;
    let dates = year_rate_dates(day(2026, 9, 15), 2024, mode).unwrap();
    assert_eq!(dates.completed.len(), 12);
    assert_eq!(dates.completed[0], (1, day(2024, 1, 31)));
    assert_eq!(dates.completed[11], (12, day(2024, 12, 31)));
    assert_eq!(dates.previous_month_end, None);
    assert_eq!(dates.prewarm_dates().len(), 12);
}

#[test]
fn year_rate_dates_current_year_excludes_in_progress_month_and_adds_previous_month_end() {
    let mode = CurrentMonthRateMode::PreviousMonthEnd;
    let dates = year_rate_dates(day(2026, 9, 15), 2026, mode).unwrap();
    assert_eq!(dates.completed.len(), 8);
    assert_eq!(dates.completed[7], (8, day(2026, 8, 31)));
    assert_eq!(dates.previous_month_end, Some(day(2026, 8, 31)));
    let prewarm = dates.prewarm_dates();
    assert_eq!(prewarm.len(), 8);
    assert!(!prewarm.contains(&day(2026, 9, 30)));
}

#[test]
fn year_rate_dates_live_mode_never_includes_a_current_period_date() {
    let dates = year_rate_dates(day(2026, 9, 15), 2026, CurrentMonthRateMode::Live).unwrap();
    assert_eq!(dates.completed.len(), 8);
    assert_eq!(dates.previous_month_end, None);
    let prewarm = dates.prewarm_dates();
    assert_eq!(prewarm.len(), 8);
    assert!(!prewarm.contains(&day(2026, 9, 30)));
    assert!(!prewarm.contains(&day(2026, 12, 31)));
}

#[test]
fn year_rate_dates_future_year_holds_only_the_previous_month_end() {
    let mode = CurrentMonthRateMode::PreviousMonthEnd;
    let dates = year_rate_dates(day(2026, 9, 15), 2027, mode).unwrap();
    assert!(dates.completed.is_empty());
    assert_eq!(dates.previous_month_end, Some(day(2026, 8, 31)));
    assert_eq!(dates.prewarm_dates(), vec![day(2026, 8, 31)]);
}

#[test]
fn year_rate_dates_january_previous_month_end_reaches_back_a_year() {
    let mode = CurrentMonthRateMode::PreviousMonthEnd;
    let dates = year_rate_dates(day(2027, 1, 10), 2027, mode).unwrap();
    assert!(dates.completed.is_empty());
    assert_eq!(dates.previous_month_end, Some(day(2026, 12, 31)));
}

#[test]
fn a_year_before_all_dates_has_no_month_ends() {
    let mode = CurrentMonthRateMode::PreviousMonthEnd;
    assert!(matches!(
        year_rate_dates(day(2026, 9, 15), -262_144, mode),
        Err(Error::InvalidArgument(_))
    ));
    let err = match year_rate_dates(day(2026, 9, 15), -300_000, mode) {
        Err(e) => e,
        Ok(_) => panic!("no such year"),
    };
    assert_eq!(err.message(), "'-300000-01' is not a valid year/month");
}

#[test]
fn monthly_rates_lenient_resolves_several_currencies_from_a_seeded_cache() {
    let mode = CurrentMonthRateMode::PreviousMonthEnd;
    let cache = cache_of(&[("2000-01-31", &[("USD", 1.20), ("GBP", 0.60)])]);
    let currencies = vec!["EUR".to_string(), "GBP".to_string()];
    let (rates, unavailable) =
        monthly_rates_lenient(&cache, day(2026, 9, 15), 2000, &currencies, "USD", mode);
    assert!(unavailable.is_empty());
    assert_eq!(value(rates.rate(1, "EUR").unwrap()), 1.20);
    assert_eq!(value(rates.rate(6, "EUR").unwrap()), 1.20);
    assert_eq!(value(rates.rate(1, "GBP").unwrap()), 2.0);
    assert_eq!(value(rates.rate(12, "GBP").unwrap()), 2.0);
}

#[test]
fn both_ways_to_resolve_a_year_agree() {
    let mode = CurrentMonthRateMode::PreviousMonthEnd;
    let cache = completed_2026_months();
    let today = day(2026, 9, 15);
    let whole = monthly_rates(&cache, today, 2026, &usd(), "EUR", mode).unwrap();
    let (each, unavailable) = monthly_rates_lenient(&cache, today, 2026, &usd(), "EUR", mode);
    assert!(unavailable.is_empty());
    assert_eq!(whole, each);
}

fn settled(step: BatchStep) -> Option<ResolvedRate> {
    match step {
        BatchStep::Done(rate) => rate,
        BatchStep::Fetch => panic!("offline"),
    }
}

#[test]
fn snap_batch_resolve_matches_rate_on_from_a_seeded_cache() {
    let cache = cache_of(&[("2026-09-04", &[("USD", 1.1622)])]);
    let batch = SnapBatch::new(cache.clone());
    let friday = day(2026, 9, 4);
    let sunday = day(2026, 9, 6);
    let far = day(2026, 1, 5);

    let resolved = settled(batch.begin(friday, "USD", "EUR", false)).unwrap();
    let direct = rate_on(&cache, friday, "USD", "EUR").unwrap();
    assert_eq!(resolved.rate, direct.rate);
    assert_eq!(resolved.rate_date, direct.rate_date);

    let resolved = settled(batch.begin(sunday, "USD", "EUR", false)).unwrap();
    assert_eq!(value(resolved.rate), 1.0 / 1.1622);
    assert_eq!(resolved.rate_date, Some(day(2026, 9, 4)));

    assert!(settled(batch.begin(far, "USD", "EUR", false)).is_none());
    assert!(settled(batch.begin(friday, "GBP", "EUR", false)).is_none());
    assert!(rate_on(&cache, friday, "GBP", "EUR").is_err());

    let identity = settled(batch.begin(far, "EUR", "EUR", false)).unwrap();
    assert_eq!(value(identity.rate), 1.0);
    assert_eq!(identity.rate_date, None);
}

#[test]
fn snap_batch_zero_budget_attempts_no_network() {
    let batch = SnapBatch::new(RateCache::default());
    let friday = day(2026, 9, 4);
    assert!(matches!(batch.begin(friday, "USD", "EUR", false), BatchStep::Done(None)));
    assert!(matches!(batch.begin(friday, "USD", "EUR", true), BatchStep::Fetch));
}

#[test]
fn a_fetched_day_serves_the_rest_of_the_batch() {
    let mut batch = SnapBatch::new(RateCache::default());
    let sunday = day(2026, 8, 23);
    let friday = DayRates { date: day(2026, 8, 21), rates: table(&[("USD", 1.25)]) };
    let today = day(2026, 9, 10);
    assert!(matches!(batch.begin(sunday, "USD", "EUR", true), BatchStep::Fetch));
    let lost = batch.after_fetch(sunday, "USD", "EUR", &friday, today, false);
    assert!(lost.is_none());
    assert!(batch.after_failed_fetch(sunday, "USD", "EUR").is_none());
    let rate = batch.after_fetch(sunday, "USD", "EUR", &friday, today, true).unwrap();
    assert_eq!(value(rate.rate), 1.0 / 1.25);
    assert_eq!(rate.rate_date, Some(day(2026, 8, 21)));
    let again = settled(batch.begin(sunday, "USD", "EUR", true)).unwrap();
    assert_eq!(again, rate);
}

#[test]
fn rates_for_keys_lenient_unreadable_cache_reports_everything_unavailable() {
    let friday = day(2026, 9, 4);
    let keys = vec![key(friday, "USD"), key(friday, "EUR"), key(friday, "GBP")];
    match start_keys(keys.clone(), "EUR", None, true, day(2026, 9, 20)) {
        KeyStep::Done { rates, unavailable } => {
            for (date, currency) in &keys {
                assert!(rates.get(*date, currency).is_none());
            }
            assert_eq!(unavailable, vec!["GBP".to_string(), "USD".to_string()]);
        }
        _ => panic!("nothing can be looked up"),
    }
}

#[test]
fn rates_for_keys_lenient_falls_back_to_the_cached_friday_for_a_weekend() {
    let cache = cache_of(&[("2026-09-04", &[("USD", 1.1622)])]);
    let keys: Vec<(Date, String)> = ["2026-09-04", "2026-09-05", "2026-09-06", "2026-09-07"]
        .iter()
        .map(|text| key(Date::read(text).unwrap(), "USD"))
        .collect();
    let (rates, unavailable) = rates_for_keys(&cache, &keys, "EUR", day(2026, 9, 20));
    assert!(unavailable.is_empty());
    for (date, _) in &keys {
        let resolved = rates.get(*date, "USD").unwrap();
        assert_eq!(value(resolved.rate), 1.0 / 1.1622);
        assert_eq!(resolved.rate_date, Some(day(2026, 9, 4)));
    }
}

#[test]
fn clamp_range_min_lifts_to_the_earliest_cached_day() {
    let cache = cache_of(&[("2020-01-31", &[]), ("2026-09-04", &[])]);
    let ancient = day(1970, 1, 1);
    let recent = day(2026, 9, 6);
    assert_eq!(clamp_range_min(ancient, &cache), day(2020, 1, 31));
    assert_eq!(clamp_range_min(recent, &cache), recent);
    assert_eq!(clamp_range_min(ancient, &RateCache::default()), ancient);
}

#[test]
fn is_fetchable_date_at_the_window_boundaries() {
    let today = day(2026, 9, 20);
    assert!(!is_fetchable_date(shifted(series_start(), -1), today));
    assert!(is_fetchable_date(series_start(), today));
    assert!(is_fetchable_date(day(2020, 6, 15), today));
    assert!(is_fetchable_date(today, today));
    assert!(!is_fetchable_date(shifted(today, 1), today));
}

#[test]
fn ensure_range_cached_bounds_clamp_to_the_publishable_window() {
    let today = day(2026, 9, 20);
    let cache = RateCache::default();
    let before_window = day(1970, 1, 1);
    let inside = day(2020, 6, 15);
    let after_today = shifted(today, 5);
    match plan_prewarm(&cache, &vec![before_window, inside, after_today], false, today) {
        Prewarm::Fetch { min, max, older, in_range } => {
            assert_eq!(min, series_start());
            assert_eq!(max, today);
            assert_eq!(older, vec![before_window, after_today]);
            assert_eq!(in_range, vec![inside]);
        }
        Prewarm::Skip { .. } => panic!("the range is open"),
    }
}

#[test]
fn no_range_is_fetched_offline_or_for_nothing() {
    let today = day(2026, 9, 20);
    let cache = cache_of(&[("2026-09-04", &[("USD", 1.0)])]);
    let friday = day(2026, 9, 4);
    let monday = day(2026, 9, 7);
    match plan_prewarm(&cache, &vec![friday], false, today) {
        Prewarm::Skip { still_missing } => assert!(still_missing.is_empty()),
        Prewarm::Fetch { .. } => panic!("the day is cached"),
    }
    match plan_prewarm(&cache, &vec![friday, monday], true, today) {
        Prewarm::Skip { still_missing } => assert_eq!(still_missing, vec![friday, monday]),
        Prewarm::Fetch { .. } => panic!("offline"),
    }
}

#[test]
fn a_range_fetch_leaves_only_what_it_did_not_cover() {
    let today = day(2026, 9, 20);
    let mut cache = RateCache::default();
    let (first, second) = (day(2026, 8, 3), day(2026, 8, 2));
    let fetched = vec![DayRates { date: first, rates: table(&[("USD", 1.15)]) }];
    let left = after_range(&mut cache, second, &vec![], &vec![second, first], Some(&fetched), today);
    assert_eq!(left, vec![second]);
    assert!(cache.rates.contains_key("2026-08-03"));
    let left = after_range(&mut cache, second, &vec![first], &vec![second], None, today);
    assert_eq!(left, vec![first, second]);
}

#[test]
fn rates_for_keys_lenient_leaves_resolution_unchanged_across_the_window_boundaries() {
    let cache = cache_of(&[("2026-09-04", &[("USD", 1.1622)])]);
    let cached = day(2026, 9, 4);
    let before_window = day(1970, 1, 1);
    let today = day(2026, 9, 20);
    let future = shifted(today, 30);
    let keys = [key(cached, "USD"), key(future, "USD"), key(before_window, "JPY")];
    let (rates, unavailable) = rates_for_keys(&cache, &keys, "EUR", today);
    assert_eq!(rate_at(&rates, cached, "USD"), Some(1.0 / 1.1622));
    assert_eq!(rate_at(&rates, future, "USD"), Some(1.0 / 1.1622));
    assert_eq!(rate_at(&rates, before_window, "JPY"), None);
    assert_eq!(unavailable, vec!["JPY".to_string()]);
}

#[test]
fn rates_for_keys_lenient_resolves_mixed_dates_through_one_batch() {
    let cache = cache_of(&[("2026-09-04", &[("USD", 1.1622)])]);
    let friday = day(2026, 9, 4);
    let sunday = day(2026, 9, 6);
    let ancient = day(2000, 1, 5);
    let keys = [key(friday, "USD"), key(sunday, "USD"), key(ancient, "USD"), key(friday, "GBP")];
    let (rates, unavailable) = rates_for_keys(&cache, &keys, "EUR", day(2026, 9, 20));
    assert_eq!(rates.len(), 2);
    assert_eq!(rate_at(&rates, friday, "USD"), Some(1.0 / 1.1622));
    assert_eq!(rate_at(&rates, sunday, "USD"), Some(1.0 / 1.1622));
    assert_eq!(rate_at(&rates, ancient, "USD"), None);
    assert_eq!(rate_at(&rates, friday, "GBP"), None);
    assert_eq!(unavailable, vec!["GBP".to_string(), "USD".to_string()]);
    assert_eq!(key_dates(&keys, "EUR"), vec![ancient, friday, sunday]);
}

#[test]
fn monthly_rates_lenient_live_mode_uses_live_rate_for_current_months() {
    let today = day(2026, 9, 15);
    let mut cache = RateCache::default();
    for month in 1..=12u32 {
        let last = last_day_of_month(2026, month).unwrap();
        let rate = if month == 12 { 1.50 } else { 1.00 };
        cache.rates.insert(last.text(), table(&[("USD", rate)]));
    }
    let mode = CurrentMonthRateMode::Live;
    let (rates, unavailable) = monthly_rates_lenient(&cache, today, 2026, &usd(), "EUR", mode);
    assert!(unavailable.is_empty());
    assert_eq!(value(rates.rate(9, "USD").unwrap()), 1.0 / 1.50);
    assert_eq!(value(rates.rate(1, "USD").unwrap()), 1.0 / 1.00);
}

#[test]
fn a_batch_fetches_a_range_and_then_the_days_it_left_open() {
    let today = day(2026, 9, 20);
    let (old, sunday, monday) = (day(1990, 1, 1), day(2026, 8, 2), day(2026, 8, 3));
    let keys = vec![key(monday, "USD"), key(sunday, "USD"), key(old, "JPY")];
    let (batch, min, max, older, in_range) =
        match start_keys(keys, "eur", Some(RateCache::default()), false, today) {
            KeyStep::FetchRange { batch, min, max, older, in_range } => {
                (batch, min, max, older, in_range)
            }
            _ => panic!("nothing is cached"),
        };
    assert_eq!((min, max), (series_start(), monday));
    assert_eq!(older, vec![old]);
    assert_eq!(in_range, vec![sunday, monday]);
    let fetched = vec![DayRates { date: monday, rates: table(&[("USD", 1.25)]) }];
    let (batch, dates) = match batch.after_range(min, &older, &in_range, Some(&fetched), today) {
        KeyStep::SettleDays { batch, dates } => (batch, dates),
        _ => panic!("two days are open"),
    };
    assert_eq!(dates, vec![old, sunday]);
    assert!(matches!(missing_step(&batch.cache, sunday, true, today), MissingStep::Fetch));
    let friday = DayRates { date: day(2026, 7, 31), rates: table(&[("USD", 1.2)]) };
    let came = after_missing_fetch(&batch.cache, sunday, Some(friday), true);
    let (rates, unavailable) = batch.after_days(&dates, vec![(sunday, came)]);
    assert_eq!(rate_at(&rates, monday, "USD"), Some(1.0 / 1.25));
    assert_eq!(rate_at(&rates, sunday, "USD"), Some(1.0 / 1.2));
    assert_eq!(unavailable, vec!["JPY".to_string()]);
}

#[test]
fn a_year_without_its_days_resolves_nothing() {
    let currencies = vec!["usd ".to_string(), "EUR".to_string(), "GBP".to_string()];
    let run = YearRun::start(&currencies, "eur", None);
    assert!(run.next().is_none());
    let (rates, unavailable) = run.finish();
    assert_eq!(unavailable, vec!["GBP".to_string(), "USD".to_string()]);
    assert_eq!(rates, MonthlyRates::new("EUR"));
}

#[test]
fn rates_for_keys_lenient_reports_one_failure_without_sinking_the_other() {
    let cache = cache_of(&[("2026-09-04", &[("GBP", 0.70)])]);
    let date = day(2026, 9, 4);
    let keys = [key(date, "GBP"), key(date, "USD")];
    let (rates, unavailable) = rates_for_keys(&cache, &keys, "EUR", day(2026, 9, 20));
    assert_eq!(unavailable, vec!["USD".to_string()]);
    assert_eq!(rate_at(&rates, date, "GBP"), Some(1.0 / 0.70));
    assert_eq!(rate_at(&rates, date, "USD"), None);
}

#[test]
fn rates_for_keys_lenient_names_an_unavailable_currency_once() {
    let keys = [key(day(2026, 9, 4), "USD"), key(day(2026, 9, 5), "USD")];
    let (rates, unavailable) =
        rates_for_keys(&RateCache::default(), &keys, "EUR", day(2026, 9, 20));
    assert_eq!(unavailable, vec!["USD".to_string()]);
    assert!(rates.get(day(2026, 9, 4), "USD").is_none());
    assert!(rates.get(day(2026, 9, 5), "USD").is_none());
}

#[test]
fn rates_for_keys_lenient_skips_the_reference_currency() {
    let keys = [key(day(2026, 9, 4), "EUR")];
    let (rates, unavailable) =
        rates_for_keys(&RateCache::default(), &keys, "EUR", day(2026, 9, 20));
    assert!(unavailable.is_empty());
    assert!(rates.get(day(2026, 9, 4), "EUR").is_none());
}

#[test]
fn a_day_whose_work_was_lost_fails() {
    let dates = vec![day(2026, 9, 4), day(2026, 9, 5)];
    let mut outcomes = vec![(day(2026, 9, 5), MissingOutcome::Failed)];
    reconcile(&mut outcomes, &dates);
    assert_eq!(outcomes.len(), 2);
    assert_eq!(outcomes[1].0, day(2026, 9, 4));
    assert!(matches!(outcomes[1].1, MissingOutcome::Failed));
}

#[test]
fn a_missing_day_is_fetched_where_it_can_be() {
    let cache = cache_of(&[("2026-09-04", &[("USD", 1.1622)])]);
    let today = day(2026, 9, 20);
    let monday = day(2026, 9, 7);
    assert!(matches!(missing_step(&cache, monday, true, today), MissingStep::Fetch));
    assert!(matches!(
        missing_step(&cache, shifted(today, 1), true, today),
        MissingStep::Settled(MissingOutcome::Fallback(_))
    ));
    assert!(matches!(
        missing_step(&cache, day(2026, 9, 4), true, today),
        MissingStep::Settled(MissingOutcome::Hit(_))
    ));
    let fetched = || Some(DayRates { date: monday, rates: table(&[("USD", 1.17)]) });
    assert!(matches!(
        after_missing_fetch(&cache, monday, fetched(), true),
        MissingOutcome::Fetched(_)
    ));
    assert!(matches!(
        after_missing_fetch(&cache, monday, fetched(), false),
        MissingOutcome::Failed
    ));
    assert!(matches!(
        after_missing_fetch(&cache, monday, None, false),
        MissingOutcome::Fallback(_)
    ));
}

/// A span of published days; the weekend inside it has none.
fn sample_range() -> TextMap<RateTable> {
    let mut days = TextMap::new();
    days.insert("2026-07-31".to_string(), table(&[("USD", 1.1485), ("GBP", 0.85573)]));
    days.insert("2026-08-03".to_string(), table(&[("USD", 1.1535), ("GBP", 0.85633)]));
    days.insert("2026-08-04".to_string(), table(&[("USD", 1.1515), ("GBP", 0.85639)]));
    days.insert("2026-08-05".to_string(), table(&[("USD", 1.1554), ("GBP", 0.8572)]));
    days
}

fn sample_range_in_key_span() -> TextMap<RateTable> {
    let mut days = TextMap::new();
    days.insert("2026-08-03".to_string(), table(&[("USD", 1.1535), ("GBP", 0.85633)]));
    days.insert("2026-08-04".to_string(), table(&[("USD", 1.1515), ("GBP", 0.85639)]));
    days.insert("2026-08-05".to_string(), table(&[("USD", 1.1554), ("GBP", 0.8572)]));
    days.insert("2026-08-06".to_string(), table(&[("USD", 1.1525), ("GBP", 0.8568)]));
    days.insert("2026-08-07".to_string(), table(&[("USD", 1.1562), ("GBP", 0.8576)]));
    days
}

fn published(days: &[DayRates], date: Date) -> Option<&RateTable> {
    days.iter().find(|day| day.date == date).map(|day| &day.rates)
}

#[test]
fn parse_range_response_parses_one_table_per_published_day() {
    let days = dated_days(&sample_range()).unwrap();
    assert_eq!(days.len(), 4);
    assert_eq!(quoted(published(&days, day(2026, 8, 4)).unwrap(), "USD"), 1.1515);
    assert_eq!(quoted(published(&days, day(2026, 7, 31)).unwrap(), "GBP"), 0.85573);
    assert!(published(&days, day(2026, 8, 1)).is_none());
    assert!(published(&days, day(2026, 8, 2)).is_none());
}

#[test]
fn a_range_key_that_names_no_day_is_refused() {
    let mut flat = TextMap::new();
    flat.insert("USD".to_string(), table(&[]));
    let err = match dated_days(&flat) {
        Err(e) => e,
        Ok(_) => panic!("no day is named"),
    };
    assert!(err.message().contains("cached FX rate key 'USD' is not a valid date: "));
}

#[test]
fn merge_range_into_cache_aliases_an_old_weekend_key_date() {
    let mut cache = RateCache::default();
    let days = dated_days(&sample_range_in_key_span()).unwrap();
    let keys = vec![day(2026, 8, 3), day(2026, 8, 5), day(2026, 8, 8)];
    let counts =
        merge_range_into_cache(&mut cache, &days, &keys, day(2026, 8, 3), day(2026, 9, 10));
    assert_eq!(counts, (5, 1));
    assert_eq!(cache.rates.len(), 5);
    assert_eq!(cache.aliases.get("2026-08-08"), Some(&"2026-08-07".to_string()));
    assert!(!cache.aliases.contains_key("2026-08-03"));
    assert!(!cache.aliases.contains_key("2026-08-05"));
}

#[test]
fn merge_range_into_cache_does_not_alias_a_key_date_to_a_pre_min_target() {
    let mut cache = cache_of(&[("2026-06-30", &[("USD", 1.14)])]);
    let days = vec![DayRates { date: day(2026, 8, 3), rates: table(&[("USD", 1.1535)]) }];
    let keys = vec![day(2026, 8, 1), day(2026, 8, 3)];
    merge_range_into_cache(&mut cache, &days, &keys, day(2026, 8, 1), day(2026, 9, 10));
    assert_eq!(cache.aliases.len(), 0);
    assert!(!cache.aliases.contains_key("2026-08-01"));
    assert!(!cache.aliases.contains_key("2026-08-02"));
    assert!(cache.rates.contains_key("2026-08-03"));
    assert!(!cache.aliases.contains_key("2026-08-03"));
}

#[test]
fn merge_range_into_cache_leaves_a_recent_weekend_without_alias() {
    let mut cache = RateCache::default();
    let days = dated_days(&sample_range()).unwrap();
    let keys = vec![day(2026, 7, 31), day(2026, 8, 1)];
    merge_range_into_cache(&mut cache, &days, &keys, day(2026, 7, 31), day(2026, 8, 5));
    assert_eq!(cache.rates.len(), 4);
    assert_eq!(cache.aliases.len(), 0);
}

#[test]
fn merge_range_into_cache_leaves_a_key_date_with_no_earlier_day_unaliased() {
    let mut cache = RateCache::default();
    let days = dated_days(&sample_range()).unwrap();
    let keys = vec![day(2026, 7, 30)];
    merge_range_into_cache(&mut cache, &days, &keys, day(2026, 7, 30), day(2026, 9, 10));
    assert_eq!(cache.rates.len(), 4);
    assert_eq!(cache.aliases.len(), 0);
}

#[test]
fn last_day_of_month_handles_december_and_leap_years() {
    assert_eq!(last_day_of_month(2026, 9).unwrap(), day(2026, 9, 30));
    assert_eq!(last_day_of_month(2026, 12).unwrap(), day(2026, 12, 31));
    assert_eq!(last_day_of_month(2024, 2).unwrap(), day(2024, 2, 29));
}

#[test]
fn last_day_of_month_rejects_out_of_range_month() {
    let err = last_day_of_month(2026, 13).unwrap_err();
    assert!(matches!(err, Error::InvalidArgument(_)));
    assert_eq!(err.message(), "month must be between 1 and 12, got 13");
}

#[test]
fn cached_rate_for_exact_hit_reports_the_requested_date() {
    let cache = cache_of(&[("2026-09-04", &[("USD", 1.1622)])]);
    let found = cached_rate_for(&cache, day(2026, 9, 4)).unwrap().unwrap();
    assert_eq!(quoted(&found.rates, "USD"), 1.1622);
    assert_eq!(found.date, day(2026, 9, 4));
}

#[test]
fn cached_rate_for_alias_hit_reports_the_true_published_date() {
    let mut cache = cache_of(&[("2026-09-04", &[("USD", 1.1622)])]);
    cache.aliases.insert("2026-09-06".to_string(), "2026-09-04".to_string());
    let found = cached_rate_for(&cache, day(2026, 9, 6)).unwrap().unwrap();
    assert_eq!(quoted(&found.rates, "USD"), 1.1622);
    assert_eq!(found.date, day(2026, 9, 4));
}

#[test]
fn cached_rate_for_misses_when_neither_exact_nor_alias_is_cached() {
    let cache = RateCache::default();
    assert!(cached_rate_for(&cache, day(2026, 9, 6)).unwrap().is_none());
}

#[test]
fn should_alias_as_true_for_an_old_enough_date_frankfurter_substituted() {
    assert!(should_alias_as(day(2026, 8, 23), day(2026, 8, 21), day(2026, 9, 10)));
}

#[test]
fn should_alias_as_false_when_the_returned_date_matches_the_request() {
    let date = day(2026, 8, 21);
    assert!(!should_alias_as(date, date, day(2026, 9, 10)));
}

#[test]
fn should_alias_as_false_for_todays_own_request_even_when_substituted() {
    let today = day(2026, 9, 10);
    assert!(!should_alias_as(today, day(2026, 9, 9), today));
}

#[test]
fn should_alias_as_false_for_a_recent_past_date_within_the_min_age_window() {
    assert!(!should_alias_as(day(2026, 9, 6), day(2026, 9, 4), day(2026, 9, 10)));
}

#[test]
fn should_alias_as_true_for_a_date_exactly_alias_min_age_days_old() {
    let today = day(2026, 9, 10);
    let requested = shifted(today, -ALIAS_MIN_AGE_DAYS);
    assert!(should_alias_as(requested, shifted(requested, -1), today));
}

#[test]
fn should_alias_as_false_for_a_date_one_day_younger_than_alias_min_age() {
    let today = day(2026, 9, 10);
    let requested = shifted(today, -(ALIAS_MIN_AGE_DAYS - 1));
    assert!(!should_alias_as(requested, shifted(requested, -1), today));
}

#[test]
fn repeat_weekend_lookup_uses_the_cached_alias_without_erroring() {
    let mut cache = cache_of(&[("2026-09-04", &[("USD", 1.1622)])]);
    cache.aliases.insert("2026-09-06".to_string(), "2026-09-04".to_string());
    let resolved = rate_on(&cache, day(2026, 9, 6), "USD", "EUR").unwrap();
    assert_eq!(value(resolved.rate), 1.0 / 1.1622);
    assert_eq!(resolved.rate_date, Some(day(2026, 9, 4)));
}

fn fetched_latest(at: i64) -> RateCache {
    let mut cache = cache_of(&[("2026-09-10", &[("USD", 1.18)])]);
    cache.latest_date = Some("2026-09-10".to_string());
    cache.latest_fetched_at = Some(at);
    cache
}

#[test]
fn fresh_latest_from_cache_hits_within_the_staleness_threshold() {
    let found = fresh_latest_from_cache(&fetched_latest(NOW - 60), NOW).unwrap().unwrap();
    assert_eq!(quoted(&found.rates, "USD"), 1.18);
    assert_eq!(found.date, day(2026, 9, 10));
}

#[test]
fn fresh_latest_from_cache_misses_once_the_threshold_has_passed() {
    let cache = fetched_latest(NOW - LATEST_STALENESS_THRESHOLD_SECS - 1);
    assert!(fresh_latest_from_cache(&cache, NOW).unwrap().is_none());
}

#[test]
fn fresh_latest_from_cache_treats_a_future_timestamp_as_stale() {
    assert!(fresh_latest_from_cache(&fetched_latest(NOW + 120), NOW).unwrap().is_none());
}

#[test]
fn fresh_latest_from_cache_treats_a_pre_change_cache_file_as_stale() {
    assert!(fresh_latest_from_cache(&RateCache::default(), NOW).unwrap().is_none());
}

#[test]
fn resolve_latest_eur_rates_uses_latest_date_not_simply_the_newest_cached_key() {
    let mut cache = cache_of(&[("2026-09-08", &[("USD", 1.10)]), ("2099-01-01", &[("USD", 9.99)])]);
    cache.latest_date = Some("2026-09-08".to_string());
    cache.latest_fetched_at = Some(NOW - 5);
    let resolved = live_rate(&cache, "USD", "EUR").unwrap();
    assert_eq!(value(resolved.rate), 1.0 / 1.10);
    assert_eq!(resolved.rate_date, Some(day(2026, 9, 8)));
}

#[test]
fn resolve_latest_eur_rates_falls_back_once_the_freshness_threshold_has_passed() {
    let mut cache = cache_of(&[("2026-09-08", &[("USD", 1.10)])]);
    cache.latest_date = Some("2026-09-08".to_string());
    cache.latest_fetched_at = Some(NOW - LATEST_STALENESS_THRESHOLD_SECS - 1);
    let resolved = live_rate(&cache, "USD", "EUR").unwrap();
    assert_eq!(resolved.rate_date, Some(day(2026, 9, 8)));
}

#[test]
fn kept_days_and_stand_ins_are_found_again() {
    let mut cache = RateCache::default();
    let friday = DayRates { date: day(2026, 9, 4), rates: table(&[("USD", 1.1622)]) };
    keep_day(&mut cache, &friday, Some(day(2026, 9, 6)));
    assert_eq!(cached_rate_for(&cache, day(2026, 9, 4)).unwrap().unwrap().date, day(2026, 9, 4));
    assert_eq!(cached_rate_for(&cache, day(2026, 9, 6)).unwrap().unwrap().date, day(2026, 9, 4));
    keep_latest(&mut cache, &friday, NOW);
    assert_eq!(cache.latest_date, Some("2026-09-04".to_string()));
    assert_eq!(fresh_latest_from_cache(&cache, NOW).unwrap().unwrap().date, day(2026, 9, 4));
    assert_eq!(quoted(cache.rates.get("2026-09-04").unwrap(), "USD"), 1.1622);
}

#[test]
fn the_addresses_name_the_days() {
    let base = "https://api.frankfurter.app";
    assert_eq!(historical_url(day(2026, 9, 4)), format!("{base}/2026-09-04?base=EUR"));
    assert_eq!(
        range_url(day(2026, 8, 3), day(2026, 8, 8)),
        format!("{base}/2026-08-03..2026-08-08?base=EUR")
    );
    assert_eq!(latest_url(), format!("{base}/latest?base=EUR"));
}

#[test]
fn a_key_counts_once_however_often_it_gets_a_rate() {
    let mut rates = RateMap::new();
    assert_eq!(rates.len(), 0);
    let one = ResolvedRate { rate: Rate::One, rate_date: None };
    rates.insert(day(2026, 9, 4), "USD".to_string(), one);
    rates.insert(day(2026, 9, 4), "USD".to_string(), one);
    rates.insert(day(2026, 9, 4), "GBP".to_string(), one);
    rates.insert(day(2026, 9, 5), "USD".to_string(), one);
    assert_eq!(rates.len(), 3);
}
