//! Rates for a list of days and currencies, where one that cannot be had does not
//! sink the rest.

use vstd::prelude::*;
use crate::dates::{days_increase, days_of, insert_date, text_of, Date};
use crate::fx::{
    cached_day, cached_rate_for, code, code_of, cross_to_reference, day_rate, earlier_day,
    is_fetchable_date, nearest_earlier, series_start, CacheView, DayRates, DayView, RateCache,
    ResolvedRate, ResolvedView,
};
use crate::text::{insert_text, same_text, texts, texts_increase};

verus! {

/// How a day that the cache did not answer was settled.
pub enum MissingOutcome {
    /// The cache covers it after all.
    Hit(DayRates),
    /// A single fetch brought it.
    Fetched(DayRates),
    /// The nearest earlier day that is cached stands in.
    Fallback(DayRates),
    /// Nothing covers it.
    Failed,
}

/// What a [`MissingOutcome`] says.
pub enum MissingView {
    Hit(DayView),
    Fetched(DayView),
    Fallback(DayView),
    Failed,
}

impl View for MissingOutcome {
    type V = MissingView;

    open spec fn view(&self) -> MissingView {
        match self {
            MissingOutcome::Hit(day) => MissingView::Hit(day@),
            MissingOutcome::Fetched(day) => MissingView::Fetched(day@),
            MissingOutcome::Fallback(day) => MissingView::Fallback(day@),
            MissingOutcome::Failed => MissingView::Failed,
        }
    }
}

impl MissingView {
    /// The quotes that cover the day, if any.
    pub open spec fn day(self) -> Option<DayView> {
        match self {
            MissingView::Hit(day) => Some(day),
            MissingView::Fetched(day) => Some(day),
            MissingView::Fallback(day) => Some(day),
            MissingView::Failed => None,
        }
    }
}

/// How a day is settled without the network: by the nearest earlier day that is
/// cached, or not at all.
pub open spec fn fallback(cache: CacheView, date: int) -> MissingView {
    match earlier_day(cache, text_of(date)) {
        Ok(Some(day)) => MissingView::Fallback(day),
        _ => MissingView::Failed,
    }
}

/// Settle a day without the network.
pub fn fallback_from(snap: &RateCache, date: Date) -> (r: MissingOutcome)
    ensures
        r@ == fallback(snap@, date@),
{
    match nearest_earlier(snap, date.text().as_str()) {
        Ok(Some(day)) => MissingOutcome::Fallback(day),
        _ => MissingOutcome::Failed,
    }
}

/// What to do for a day that is missing: it is settled, or has to be fetched.
pub enum MissingStep {
    Settled(MissingOutcome),
    Fetch,
}

/// What a [`MissingStep`] says.
pub enum StepView {
    Settled(MissingView),
    Fetch,
}

/// What a step says.
pub open spec fn step_view(step: MissingStep) -> StepView {
    match step {
        MissingStep::Settled(outcome) => StepView::Settled(outcome@),
        MissingStep::Fetch => StepView::Fetch,
    }
}

/// What to do for a day that is missing.
pub open spec fn step_of(cache: CacheView, date: int, may_fetch: bool, today: int) -> StepView {
    match cached_day(cache, date) {
        Ok(Some(day)) => StepView::Settled(MissingView::Hit(day)),
        _ => if may_fetch && series_start() <= date <= today {
            StepView::Fetch
        } else {
            StepView::Settled(fallback(cache, date))
        },
    }
}

/// How a day is settled after its fetch.
pub open spec fn fetched_as(
    cache: CacheView,
    date: int,
    fetched: Option<DayView>,
    stored: bool,
) -> MissingView {
    match fetched {
        Some(day) => if stored {
            MissingView::Fetched(day)
        } else {
            MissingView::Failed
        },
        None => fallback(cache, date),
    }
}

/// What a day that was fetched says.
pub open spec fn fetched_view(fetched: Option<DayRates>) -> Option<DayView> {
    match fetched {
        Some(day) => Some(day@),
        None => None,
    }
}

/// Decide what to do for a day that is missing. The cache is asked once more,
/// since a range fetch may have covered the day; then a single fetch follows,
/// where the network may be used and the day can be fetched at all; else the
/// cache has to do.
pub fn missing_step(snap: &RateCache, date: Date, may_fetch: bool, today: Date) -> (r: MissingStep)
    ensures
        step_view(r) == step_of(snap@, date@, may_fetch, today@),
        match cached_day(snap@, date@) {
            Ok(Some(day)) => r matches MissingStep::Settled(outcome) && outcome@
                == MissingView::Hit(day),
            _ => if may_fetch && series_start() <= date@ <= today@ {
                r is Fetch
            } else {
                r matches MissingStep::Settled(outcome) && outcome@ == fallback(snap@, date@)
            },
        },
{
    if let Ok(Some(day)) = cached_rate_for(snap, date) {
        return MissingStep::Settled(MissingOutcome::Hit(day));
    }
    if may_fetch && is_fetchable_date(date, today) {
        return MissingStep::Fetch;
    }
    MissingStep::Settled(fallback_from(snap, date))
}

/// Settle a day after its fetch. `stored` says whether what was fetched could be
/// written to the cache: a day that could not is lost.
pub fn after_missing_fetch(
    snap: &RateCache,
    date: Date,
    fetched: Option<DayRates>,
    stored: bool,
) -> (r: MissingOutcome)
    ensures
        r@ == fetched_as(snap@, date@, fetched_view(fetched), stored),
        r@ == match fetched {
            Some(day) => if stored {
                MissingView::Fetched(day@)
            } else {
                MissingView::Failed
            },
            None => fallback(snap@, date@),
        },
{
    match fetched {
        Some(day) => if stored {
            MissingOutcome::Fetched(day)
        } else {
            MissingOutcome::Failed
        },
        None => fallback_from(snap, date),
    }
}

/// What the outcomes of a list say.
pub open spec fn outcome_views(outcomes: Seq<(Date, MissingOutcome)>) -> Seq<(int, MissingView)> {
    Seq::new(outcomes.len(), |i: int| (outcomes[i].0@, outcomes[i].1@))
}

/// The first outcome for a day.
pub open spec fn first_outcome(outcomes: Seq<(int, MissingView)>, date: int) -> Option<MissingView>
    decreases outcomes.len(),
{
    if outcomes.len() == 0 {
        None
    } else {
        match first_outcome(outcomes.drop_last(), date) {
            Some(outcome) => Some(outcome),
            None => if outcomes.last().0 == date {
                Some(outcomes.last().1)
            } else {
                None
            },
        }
    }
}

/// A list of outcomes with a failure for each of some days that has none.
pub open spec fn reconciled(outcomes: Seq<(int, MissingView)>, dates: Seq<int>, n: int) -> Seq<
    (int, MissingView),
>
    decreases n,
{
    if n <= 0 {
        outcomes
    } else {
        let rest = reconciled(outcomes, dates, n - 1);
        if first_outcome(outcomes, dates[n - 1]) is None {
            rest.push((dates[n - 1], MissingView::Failed))
        } else {
            rest
        }
    }
}

/// Whether a list of outcomes has one for a day.
fn has_outcome(outcomes: &Vec<(Date, MissingOutcome)>, date: Date, n: usize) -> (r: bool)
    requires
        n <= outcomes@.len(),
    ensures
        r == (first_outcome(outcome_views(outcomes@).take(n as int), date@) is Some),
{
    let ghost all = outcome_views(outcomes@);
    let mut i: usize = 0;
    assert(all.take(0) =~= Seq::empty());
    while i < n
        invariant
            i <= n <= outcomes@.len(),
            all == outcome_views(outcomes@),
            first_outcome(all.take(i as int), date@) is None,
        decreases n - i,
    {
        assert(all.take(i + 1).drop_last() =~= all.take(i as int));
        assert(all.take(i + 1).last() == all[i as int]);
        if outcomes[i].0.days() == date.days() {
            proof {
                lemma_first_outcome_stays(all, date@, i + 1, n as int);
            }
            return true;
        }
        i = i + 1;
    }
    false
}

proof fn lemma_first_outcome_stays(
    outcomes: Seq<(int, MissingView)>,
    date: int,
    k: int,
    n: int,
)
    requires
        0 <= k <= n <= outcomes.len(),
        first_outcome(outcomes.take(k), date) is Some,
    ensures
        first_outcome(outcomes.take(n), date) == first_outcome(outcomes.take(k), date),
    decreases n,
{
    if k < n {
        lemma_first_outcome_stays(outcomes, date, k, n - 1);
        assert(outcomes.take(n).drop_last() =~= outcomes.take(n - 1));
    }
}

/// Give each day that has no outcome, because the work on it was lost, a failure,
/// so that no day vanishes from the batch.
pub fn reconcile(outcomes: &mut Vec<(Date, MissingOutcome)>, dates: &Vec<Date>)
    ensures
        outcome_views(final(outcomes)@) == reconciled(
            outcome_views(old(outcomes)@),
            days_of(dates@),
            dates@.len() as int,
        ),
{
    let ghost before = outcome_views(outcomes@);
    let ghost all = days_of(dates@);
    let n: usize = outcomes.len();
    let mut i: usize = 0;
    while i < dates.len()
        invariant
            i <= dates.len(),
            all == days_of(dates@),
            n == before.len(),
            n <= outcomes@.len(),
            outcome_views(outcomes@).take(n as int) == before,
            outcome_views(outcomes@) == reconciled(before, all, i as int),
        decreases dates.len() - i,
    {
        let date = dates[i];
        assert(all[i as int] == date@);
        if !has_outcome(outcomes, date, n) {
            let ghost so_far = outcome_views(outcomes@);
            outcomes.push((date, MissingOutcome::Failed));
            assert(outcome_views(outcomes@) =~= so_far.push((date@, MissingView::Failed)));
            assert(outcome_views(outcomes@).take(n as int) =~= before);
        }
        i = i + 1;
    }
}

/// After that every day has an outcome: the first it had, or a failure.
pub proof fn every_day_gets_an_outcome(
    outcomes: Seq<(int, MissingView)>,
    dates: Seq<int>,
    i: int,
)
    requires
        0 <= i < dates.len(),
    ensures
        first_outcome(reconciled(outcomes, dates, dates.len() as int), dates[i]) == match first_outcome(
            outcomes,
            dates[i],
        ) {
            Some(outcome) => Some(outcome),
            None => Some(MissingView::Failed),
        },
{
    lemma_reconciled(outcomes, dates, dates.len() as int, dates[i]);
}

proof fn lemma_reconciled(
    outcomes: Seq<(int, MissingView)>,
    dates: Seq<int>,
    n: int,
    date: int,
)
    requires
        0 <= n <= dates.len(),
    ensures
        first_outcome(reconciled(outcomes, dates, n), date) == match first_outcome(outcomes, date) {
            Some(outcome) => Some(outcome),
            None => if exists|k: int| 0 <= k < n && #[trigger] dates[k] == date {
                Some(MissingView::Failed)
            } else {
                None
            },
        },
    decreases n,
{
    if n > 0 {
        lemma_reconciled(outcomes, dates, n - 1, date);
        let rest = reconciled(outcomes, dates, n - 1);
        let last = dates[n - 1];
        if first_outcome(outcomes, last) is None {
            let all = rest.push((last, MissingView::Failed));
            assert(all.drop_last() =~= rest);
        }
        if exists|k: int| 0 <= k < n && #[trigger] dates[k] == date {
            let k = choose|k: int| 0 <= k < n && #[trigger] dates[k] == date;
            if k < n - 1 {
                assert(dates[k] == date);
            }
        }
    }
}

/// Whether a rate is asked for: the keys hold the day with the currency, which is
/// not the reference currency.
pub open spec fn asked(
    keys: Seq<(Date, String)>,
    reference: Seq<char>,
    date: int,
    currency: Seq<char>,
) -> bool {
    currency != reference && exists|i: int|
        0 <= i < keys.len() && (#[trigger] keys[i]).0@ == date && code_of(keys[i].1@) == currency
}

/// The days that some keys ask for, sorted, each once.
pub fn key_dates(keys: &[(Date, String)], reference: &str) -> (r: Vec<Date>)
    ensures
        days_increase(days_of(r@)),
        forall|d: int| #[trigger]
            days_of(r@).contains(d) <==> exists|c: Seq<char>| asked(keys@, reference@, d, c),
{
    let mut dates: Vec<Date> = Vec::new();
    let mut i: usize = 0;
    while i < keys.len()
        invariant
            i <= keys.len(),
            days_increase(days_of(dates@)),
            forall|d: int| #[trigger]
                days_of(dates@).contains(d) <==> exists|k: int|
                    0 <= k < i && (#[trigger] keys@[k]).0@ == d && code_of(keys@[k].1@)
                        != reference@,
        decreases keys.len() - i,
    {
        let ghost before = days_of(dates@);
        let it = code(keys[i].1.as_str());
        if !same_text(it.as_str(), reference) {
            insert_date(&mut dates, keys[i].0);
        }
        proof {
            assert forall|d: int| #[trigger] days_of(dates@).contains(d) <==> exists|k: int|
                0 <= k < i + 1 && (#[trigger] keys@[k]).0@ == d && code_of(keys@[k].1@)
                    != reference@ by {
                assert(before.contains(d) <==> exists|k: int|
                    0 <= k < i && (#[trigger] keys@[k]).0@ == d && code_of(keys@[k].1@)
                        != reference@);
                if keys@[i as int].0@ == d && code_of(keys@[i as int].1@) != reference@ {
                    assert(days_of(dates@).contains(d));
                }
            }
        }
        i = i + 1;
    }
    proof {
        assert forall|d: int| #[trigger] days_of(dates@).contains(d) <==> exists|c: Seq<char>|
            asked(keys@, reference@, d, c) by {
            if days_of(dates@).contains(d) {
                let k = choose|k: int|
                    0 <= k < i && (#[trigger] keys@[k]).0@ == d && code_of(keys@[k].1@)
                        != reference@;
                assert(asked(keys@, reference@, d, code_of(keys@[k].1@)));
            }
            if exists|c: Seq<char>| asked(keys@, reference@, d, c) {
                let c = choose|c: Seq<char>| asked(keys@, reference@, d, c);
                let k = choose|k: int|
                    0 <= k < keys@.len() && (#[trigger] keys@[k]).0@ == d && code_of(keys@[k].1@)
                        == c;
                assert(keys@[k].0@ == d && code_of(keys@[k].1@) != reference@);
            }
        }
    }
    dates
}

/// The currencies that some keys ask for, sorted, each once: what is unavailable
/// when the cache cannot be read.
pub fn key_currencies(keys: &[(Date, String)], reference: &str) -> (r: Vec<String>)
    ensures
        texts_increase(texts(r@)),
        forall|c: Seq<char>| #[trigger]
            texts(r@).contains(c) <==> exists|d: int| asked(keys@, reference@, d, c),
{
    let mut found: Vec<String> = Vec::new();
    let mut i: usize = 0;
    while i < keys.len()
        invariant
            i <= keys.len(),
            texts_increase(texts(found@)),
            forall|c: Seq<char>| #[trigger]
                texts(found@).contains(c) <==> c != reference@ && exists|k: int|
                    0 <= k < i && code_of((#[trigger] keys@[k]).1@) == c,
        decreases keys.len() - i,
    {
        let ghost before = texts(found@);
        let it = code(keys[i].1.as_str());
        let ghost word = it@;
        if !same_text(it.as_str(), reference) {
            insert_text(&mut found, it);
        }
        proof {
            assert forall|c: Seq<char>| #[trigger]
                texts(found@).contains(c) <==> c != reference@ && exists|k: int|
                    0 <= k < i + 1 && code_of((#[trigger] keys@[k]).1@) == c by {
                assert(before.contains(c) <==> c != reference@ && exists|k: int|
                    0 <= k < i && code_of((#[trigger] keys@[k]).1@) == c);
                if c == word {
                    assert(code_of(keys@[i as int].1@) == c);
                }
            }
        }
        i = i + 1;
    }
    proof {
        assert forall|c: Seq<char>| #[trigger] texts(found@).contains(c) <==> exists|d: int|
            asked(keys@, reference@, d, c) by {
            if texts(found@).contains(c) {
                let k = choose|k: int| 0 <= k < i && code_of((#[trigger] keys@[k]).1@) == c;
                assert(asked(keys@, reference@, keys@[k].0@, c));
            }
            if exists|d: int| asked(keys@, reference@, d, c) {
                let d = choose|d: int| asked(keys@, reference@, d, c);
                let k = choose|k: int|
                    0 <= k < keys@.len() && (#[trigger] keys@[k]).0@ == d && code_of(keys@[k].1@)
                        == c;
                assert(code_of(keys@[k].1@) == c);
            }
        }
    }
    found
}

/// The days that some keys ask for and the cache does not answer, sorted, each
/// once. A key of the cache that names no day is an answer too: none can be had.
pub fn missing_dates(keys: &[(Date, String)], cache: &RateCache, reference: &str) -> (r: Vec<Date>)
    ensures
        days_increase(days_of(r@)),
        forall|d: int| #[trigger]
            days_of(r@).contains(d) <==> (cached_day(cache@, d) matches Ok(None)) && exists|
                c: Seq<char>,
            | asked(keys@, reference@, d, c),
{
    let all = key_dates(keys, reference);
    let ghost asked_days = days_of(all@);
    let mut dates: Vec<Date> = Vec::new();
    let mut i: usize = 0;
    while i < all.len()
        invariant
            i <= all.len(),
            asked_days == days_of(all@),
            days_increase(days_of(dates@)),
            forall|d: int| #[trigger]
                days_of(dates@).contains(d) <==> (cached_day(cache@, d) matches Ok(None))
                    && exists|k: int| 0 <= k < i && #[trigger] asked_days[k] == d,
        decreases all.len() - i,
    {
        let date = all[i];
        let ghost before = days_of(dates@);
        assert(asked_days[i as int] == date@);
        if let Ok(None) = cached_rate_for(cache, date) {
            insert_date(&mut dates, date);
        }
        proof {
            assert forall|d: int| #[trigger]
                days_of(dates@).contains(d) <==> (cached_day(cache@, d) matches Ok(None))
                    && exists|k: int| 0 <= k < i + 1 && #[trigger] asked_days[k] == d by {
                assert(before.contains(d) <==> (cached_day(cache@, d) matches Ok(None))
                    && exists|k: int| 0 <= k < i && #[trigger] asked_days[k] == d);
            }
        }
        i = i + 1;
    }
    proof {
        assert forall|d: int| #[trigger] days_of(dates@).contains(d) <==> (cached_day(cache@, d)
            matches Ok(None)) && exists|c: Seq<char>| asked(keys@, reference@, d, c) by {
            assert(asked_days.contains(d) <==> exists|c: Seq<char>|
                asked(keys@, reference@, d, c));
            if asked_days.contains(d) {
                let k = choose|k: int| 0 <= k < asked_days.len() && asked_days[k] == d;
                assert(asked_days[k] == d);
            }
            if exists|k: int| 0 <= k < i && #[trigger] asked_days[k] == d {
                assert(asked_days.contains(d));
            }
        }
    }
    dates
}

/// The quotes that settle a day: what the cache holds for it, or else its first
/// outcome. The outer `None` stands for a day that was not settled at all.
pub open spec fn settled_day(
    cache: CacheView,
    outcomes: Seq<(int, MissingView)>,
    date: int,
) -> Option<Option<DayView>> {
    match cached_day(cache, date) {
        Ok(Some(day)) => Some(Some(day)),
        Err(_) => Some(None),
        Ok(None) => match first_outcome(outcomes, date) {
            Some(outcome) => Some(outcome.day()),
            None => None,
        },
    }
}

/// The rate that settles a key: a rate, or that none can be had. The outer `None`
/// stands for a key that was not settled at all.
pub open spec fn settled_rate(
    cache: CacheView,
    outcomes: Seq<(int, MissingView)>,
    reference: Seq<char>,
    date: int,
    currency: Seq<char>,
) -> Option<Option<ResolvedView>> {
    match settled_day(cache, outcomes, date) {
        Some(Some(day)) => Some(day_rate(currency, reference, day)),
        Some(None) => Some(None),
        None => None,
    }
}

/// Rates by day and currency code.
pub struct RateMap {
    entries: Vec<(Date, String, ResolvedRate)>,
}

/// The map that a list of rates spells out; a later entry wins.
pub open spec fn rates_listed(entries: Seq<(Date, String, ResolvedRate)>) -> Map<
    (int, Seq<char>),
    ResolvedView,
>
    decreases entries.len(),
{
    if entries.len() == 0 {
        Map::empty()
    } else {
        rates_listed(entries.drop_last()).insert(
            (entries.last().0@, entries.last().1@),
            entries.last().2@,
        )
    }
}

impl View for RateMap {
    type V = Map<(int, Seq<char>), ResolvedView>;

    closed spec fn view(&self) -> Map<(int, Seq<char>), ResolvedView> {
        rates_listed(self.entries@)
    }
}

impl RateMap {
    /// No rates.
    pub fn new() -> (r: Self)
        ensures
            r@ == Map::<(int, Seq<char>), ResolvedView>::empty(),
    {
        RateMap { entries: Vec::new() }
    }

    /// The rate of a currency on a day.
    pub fn get(&self, date: Date, currency: &str) -> (r: Option<ResolvedRate>)
        ensures
            match r {
                Some(rate) => self@.contains_key((date@, currency@)) && self@[(date@, currency@)]
                    == rate@,
                None => !self@.contains_key((date@, currency@)),
            },
    {
        let ghost all = self.entries@;
        let mut i: usize = self.entries.len();
        assert(all.take(i as int) =~= all);
        while i > 0
            invariant
                i <= self.entries.len(),
                all == self.entries@,
                rates_listed(all).contains_key((date@, currency@)) == rates_listed(
                    all.take(i as int),
                ).contains_key((date@, currency@)),
                rates_listed(all).contains_key((date@, currency@)) ==> rates_listed(
                    all,
                )[(date@, currency@)] == rates_listed(all.take(i as int))[(date@, currency@)],
            decreases i,
        {
            let ghost now = all.take(i as int);
            assert(now.drop_last() =~= all.take(i - 1));
            assert(now.last() == all[i - 1]);
            let entry = &self.entries[i - 1];
            if entry.0.days() == date.days() && same_text(entry.1.as_str(), currency) {
                return Some(entry.2);
            }
            i = i - 1;
        }
        assert(all.take(0) =~= Seq::empty());
        None
    }

    /// How many rates there are.
    pub fn len(&self) -> (n: usize)
        ensures
            n == self@.len(),
            self@.dom().finite(),
    {
        let ghost all = self.entries@;
        let mut n: usize = 0;
        let mut i: usize = 0;
        assert(all.take(0) =~= Seq::empty());
        while i < self.entries.len()
            invariant
                i <= self.entries.len(),
                all == self.entries@,
                n <= i,
                rates_listed(all.take(i as int)).dom().finite(),
                n == rates_listed(all.take(i as int)).dom().len(),
            decreases self.entries.len() - i,
        {
            let ghost now = all.take(i as int);
            assert(all.take(i + 1).drop_last() =~= now);
            assert(all.take(i + 1).last() == all[i as int]);
            let (date, currency) = (self.entries[i].0, self.entries[i].1.as_str());
            let mut known = false;
            let mut k: usize = 0;
            assert(all.take(0) =~= Seq::empty());
            while k < i
                invariant
                    k <= i < self.entries.len(),
                    all == self.entries@,
                    known == rates_listed(all.take(k as int)).contains_key((date@, currency@)),
                decreases i - k,
            {
                assert(all.take(k + 1).drop_last() =~= all.take(k as int));
                assert(all.take(k + 1).last() == all[k as int]);
                let entry = &self.entries[k];
                if entry.0.days() == date.days() && same_text(entry.1.as_str(), currency) {
                    known = true;
                }
                k = k + 1;
            }
            if !known {
                n = n + 1;
            }
            i = i + 1;
        }
        assert(all.take(i as int) =~= all);
        n
    }

    /// Give a currency a rate on a day.
    pub fn insert(&mut self, date: Date, currency: String, rate: ResolvedRate)
        ensures
            final(self)@ == old(self)@.insert((date@, currency@), rate@),
    {
        let ghost before = self.entries@;
        self.entries.push((date, currency, rate));
        assert(self.entries@.drop_last() =~= before);
    }
}

/// The first outcome for a day.
fn find_outcome<'a>(outcomes: &'a Vec<(Date, MissingOutcome)>, date: Date) -> (r: Option<
    &'a MissingOutcome,
>)
    ensures
        match r {
            Some(outcome) => first_outcome(outcome_views(outcomes@), date@) == Some(outcome@),
            None => first_outcome(outcome_views(outcomes@), date@) is None,
        },
{
    let ghost all = outcome_views(outcomes@);
    let mut i: usize = 0;
    assert(all.take(0) =~= Seq::empty());
    while i < outcomes.len()
        invariant
            i <= outcomes.len(),
            all == outcome_views(outcomes@),
            first_outcome(all.take(i as int), date@) is None,
        decreases outcomes.len() - i,
    {
        assert(all.take(i + 1).drop_last() =~= all.take(i as int));
        assert(all.take(i + 1).last() == all[i as int]);
        if outcomes[i].0.days() == date.days() {
            proof {
                lemma_first_outcome_stays(all, date@, i + 1, all.len() as int);
                assert(all.take(all.len() as int) =~= all);
            }
            return Some(&outcomes[i].1);
        }
        i = i + 1;
    }
    assert(all.take(i as int) =~= all);
    None
}

/// Settle one key.
fn settle_key(
    cache: &RateCache,
    outcomes: &Vec<(Date, MissingOutcome)>,
    reference: &str,
    date: Date,
    currency: &str,
) -> (r: Option<Option<ResolvedRate>>)
    ensures
        match r {
            Some(Some(rate)) => settled_rate(
                cache@,
                outcome_views(outcomes@),
                reference@,
                date@,
                currency@,
            ) == Some(Some(rate@)),
            Some(None) => settled_rate(
                cache@,
                outcome_views(outcomes@),
                reference@,
                date@,
                currency@,
            ) == Some(None::<ResolvedView>),
            None => settled_rate(
                cache@,
                outcome_views(outcomes@),
                reference@,
                date@,
                currency@,
            ) is None,
        },
{
    match cached_rate_for(cache, date) {
        Ok(Some(day)) => Some(cross_to_reference(&day, currency, reference)),
        Err(_) => Some(None),
        Ok(None) => match find_outcome(outcomes, date) {
            None => None,
            Some(MissingOutcome::Hit(day))
            | Some(MissingOutcome::Fetched(day))
            | Some(MissingOutcome::Fallback(day)) => Some(
                cross_to_reference(day, currency, reference),
            ),
            Some(MissingOutcome::Failed) => Some(None),
        },
    }
}

/// Whether the rates are exactly those that can be had of what was asked for.
pub open spec fn rates_are(
    rates: Map<(int, Seq<char>), ResolvedView>,
    keys: Seq<(Date, String)>,
    cache: CacheView,
    outcomes: Seq<(int, MissingView)>,
    reference: Seq<char>,
) -> bool {
    &&& forall|d: int, c: Seq<char>| #[trigger]
        rates.contains_key((d, c)) <==> asked(keys, reference, d, c) && (settled_rate(
            cache,
            outcomes,
            reference,
            d,
            c,
        ) matches Some(Some(_)))
    &&& forall|d: int, c: Seq<char>| #[trigger]
        rates.contains_key((d, c)) ==> settled_rate(cache, outcomes, reference, d, c) == Some(
            Some(rates[(d, c)]),
        )
}

/// Whether the currencies are exactly those of which a rate was asked for that
/// cannot be had.
pub open spec fn unavailable_are(
    unavailable: Seq<Seq<char>>,
    keys: Seq<(Date, String)>,
    cache: CacheView,
    outcomes: Seq<(int, MissingView)>,
    reference: Seq<char>,
) -> bool {
    forall|c: Seq<char>| #[trigger]
        unavailable.contains(c) <==> exists|d: int|
            asked(keys, reference, d, c) && #[trigger] settled_rate(
                cache,
                outcomes,
                reference,
                d,
                c,
            ) == Some(None::<ResolvedView>)
}

/// Settle every key: what the cache holds, and the outcomes of the days it does
/// not, give the rates that can be had; the currencies of the others are named,
/// sorted, each once. The reference currency is never looked up and never named.
pub fn settle_keys(
    keys: &[(Date, String)],
    cache: &RateCache,
    reference: &str,
    outcomes: &Vec<(Date, MissingOutcome)>,
) -> (r: (RateMap, Vec<String>))
    ensures
        rates_are(r.0@, keys@, cache@, outcome_views(outcomes@), reference@),
        texts_increase(texts(r.1@)),
        unavailable_are(texts(r.1@), keys@, cache@, outcome_views(outcomes@), reference@),
{
    let mut rates = RateMap::new();
    let mut unavailable: Vec<String> = Vec::new();
    let ghost known = outcome_views(outcomes@);
    let ghost snap = cache@;
    let ghost all = keys@;
    let mut i: usize = 0;
    proof {
        assert(all.take(0) =~= Seq::empty());
        assert(rates_are(rates@, all.take(0), snap, known, reference@));
        assert(unavailable_are(texts(unavailable@), all.take(0), snap, known, reference@));
    }
    while i < keys.len()
        invariant
            i <= keys.len(),
            all == keys@,
            snap == cache@,
            known == outcome_views(outcomes@),
            rates_are(rates@, all.take(i as int), snap, known, reference@),
            texts_increase(texts(unavailable@)),
            unavailable_are(texts(unavailable@), all.take(i as int), snap, known, reference@),
        decreases keys.len() - i,
    {
        let date = keys[i].0;
        let currency = code(keys[i].1.as_str());
        let ghost c0 = currency@;
        let ghost rates_before = rates@;
        let ghost named_before = texts(unavailable@);
        let ghost seen = all.take(i as int);
        let ghost next = all.take(i + 1);
        proof {
            lemma_asked_step(all, i as int, reference@);
        }
        if !same_text(currency.as_str(), reference) {
            match settle_key(cache, outcomes, reference, date, currency.as_str()) {
                Some(Some(rate)) => {
                    rates.insert(date, currency, rate);
                },
                Some(None) => {
                    insert_text(&mut unavailable, currency);
                },
                None => {},
            }
        }
        proof {
            lemma_settle_step(
                rates_before,
                rates@,
                named_before,
                texts(unavailable@),
                all,
                i as int,
                snap,
                known,
                reference@,
            );
        }
        i = i + 1;
    }
    assert(all.take(i as int) =~= all);
    (rates, unavailable)
}

/// One more key asks for one more rate at most.
proof fn lemma_asked_step(keys: Seq<(Date, String)>, i: int, reference: Seq<char>)
    requires
        0 <= i < keys.len(),
    ensures
        forall|d: int, c: Seq<char>| #[trigger]
            asked(keys.take(i + 1), reference, d, c) <==> asked(keys.take(i), reference, d, c) || (
            c != reference && d == keys[i].0@ && c == code_of(keys[i].1@)),
{
    let seen = keys.take(i);
    let next = keys.take(i + 1);
    assert forall|d: int, c: Seq<char>| #[trigger] asked(next, reference, d, c) <==> asked(
        seen,
        reference,
        d,
        c,
    ) || (c != reference && d == keys[i].0@ && c == code_of(keys[i].1@)) by {
        if asked(next, reference, d, c) {
            let k = choose|k: int|
                0 <= k < next.len() && (#[trigger] next[k]).0@ == d && code_of(next[k].1@) == c;
            if k < i {
                assert(seen[k] == next[k]);
            }
        }
        if asked(seen, reference, d, c) {
            let k = choose|k: int|
                0 <= k < seen.len() && (#[trigger] seen[k]).0@ == d && code_of(seen[k].1@) == c;
            assert(next[k] == seen[k]);
        }
        if c != reference && d == keys[i].0@ && c == code_of(keys[i].1@) {
            assert(next[i] == keys[i]);
        }
    }
}

proof fn lemma_settle_step(
    rates_before: Map<(int, Seq<char>), ResolvedView>,
    rates: Map<(int, Seq<char>), ResolvedView>,
    named_before: Seq<Seq<char>>,
    named: Seq<Seq<char>>,
    keys: Seq<(Date, String)>,
    i: int,
    cache: CacheView,
    outcomes: Seq<(int, MissingView)>,
    reference: Seq<char>,
)
    requires
        0 <= i < keys.len(),
        rates_are(rates_before, keys.take(i), cache, outcomes, reference),
        unavailable_are(named_before, keys.take(i), cache, outcomes, reference),
        ({
            let d = keys[i].0@;
            let c = code_of(keys[i].1@);
            if c == reference {
                rates == rates_before && named == named_before
            } else {
                match settled_rate(cache, outcomes, reference, d, c) {
                    Some(Some(rate)) => rates == rates_before.insert((d, c), rate) && named
                        == named_before,
                    Some(None) => rates == rates_before && (forall|t: Seq<char>| #[trigger]
                        named.contains(t) <==> named_before.contains(t) || t == c),
                    None => rates == rates_before && named == named_before,
                }
            }
        }),
    ensures
        rates_are(rates, keys.take(i + 1), cache, outcomes, reference),
        unavailable_are(named, keys.take(i + 1), cache, outcomes, reference),
{
    lemma_asked_step(keys, i, reference);
    let d0 = keys[i].0@;
    let c0 = code_of(keys[i].1@);
    let next = keys.take(i + 1);
    assert forall|d: int, c: Seq<char>| #[trigger] rates.contains_key((d, c)) <==> asked(
        next,
        reference,
        d,
        c,
    ) && (settled_rate(cache, outcomes, reference, d, c) matches Some(Some(_))) by {
        assert(rates_before.contains_key((d, c)) <==> asked(keys.take(i), reference, d, c) && (
        settled_rate(cache, outcomes, reference, d, c) matches Some(Some(_))));
    }
    assert forall|d: int, c: Seq<char>| #[trigger] rates.contains_key((d, c)) implies settled_rate(
        cache,
        outcomes,
        reference,
        d,
        c,
    ) == Some(Some(rates[(d, c)])) by {
        if rates_before.contains_key((d, c)) {
        }
    }
    assert forall|c: Seq<char>| #[trigger] named.contains(c) <==> exists|d: int|
        asked(next, reference, d, c) && #[trigger] settled_rate(cache, outcomes, reference, d, c)
            == Some(None::<ResolvedView>) by {
        assert(named_before.contains(c) <==> exists|d: int|
            asked(keys.take(i), reference, d, c) && #[trigger] settled_rate(
                cache,
                outcomes,
                reference,
                d,
                c,
            ) == Some(None::<ResolvedView>));
        if named_before.contains(c) {
            let d = choose|d: int|
                asked(keys.take(i), reference, d, c) && #[trigger] settled_rate(
                    cache,
                    outcomes,
                    reference,
                    d,
                    c,
                ) == Some(None::<ResolvedView>);
            assert(asked(next, reference, d, c));
            assert(settled_rate(cache, outcomes, reference, d, c) == Some(None::<ResolvedView>));
        }
        if named.contains(c) && !named_before.contains(c) {
            assert(c == c0);
            assert(asked(next, reference, d0, c0));
            assert(settled_rate(cache, outcomes, reference, d0, c0) == Some(
                None::<ResolvedView>,
            ));
        }
        if exists|d: int|
            asked(next, reference, d, c) && #[trigger] settled_rate(
                cache,
                outcomes,
                reference,
                d,
                c,
            ) == Some(None::<ResolvedView>) {
            let d = choose|d: int|
                asked(next, reference, d, c) && #[trigger] settled_rate(
                    cache,
                    outcomes,
                    reference,
                    d,
                    c,
                ) == Some(None::<ResolvedView>);
            if asked(keys.take(i), reference, d, c) {
                assert(settled_rate(cache, outcomes, reference, d, c) == Some(
                    None::<ResolvedView>,
                ));
                assert(named_before.contains(c));
            } else {
                assert(d == d0 && c == c0);
            }
        }
    }
}

/// Every rate that was asked for is either given or its currency is named, where
/// each missing day has an outcome.
pub proof fn every_key_is_answered(
    rates: Map<(int, Seq<char>), ResolvedView>,
    unavailable: Seq<Seq<char>>,
    keys: Seq<(Date, String)>,
    cache: CacheView,
    outcomes: Seq<(int, MissingView)>,
    reference: Seq<char>,
    date: int,
    currency: Seq<char>,
)
    requires
        rates_are(rates, keys, cache, outcomes, reference),
        unavailable_are(unavailable, keys, cache, outcomes, reference),
        asked(keys, reference, date, currency),
        (cached_day(cache, date) matches Ok(None)) ==> first_outcome(outcomes, date) is Some,
    ensures
        rates.contains_key((date, currency)) || unavailable.contains(currency),
        !unavailable.contains(reference),
{
    let settled = settled_rate(cache, outcomes, reference, date, currency);
    assert(settled is Some);
    if settled == Some(None::<ResolvedView>) {
        assert(unavailable.contains(currency));
    }
}

} // verus!
