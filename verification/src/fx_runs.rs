//! The course of a lookup of many rates: what to fetch next, and what the fetched
//! quotes make of the result. The fetching itself is left to the caller, who hands
//! back what came of it.

use vstd::prelude::*;
use crate::dates::{days_increase, days_of, Date};
use crate::fx::{
    cached_day, code, code_of, needed_currencies, CacheView, DayRates, DayView, Rate, RateCache,
    ResolvedView,
};
use crate::fx_batch::{
    after_range, day_views, plan_prewarm, prewarm_of, with_days, with_stand_ins, Prewarm,
    PrewarmView,
};
use crate::fx_keys::{
    asked, every_day_gets_an_outcome, every_key_is_answered, key_currencies, key_dates,
    missing_dates, outcome_views, rates_are, reconcile, reconciled, settle_keys, unavailable_are,
    MissingOutcome, MissingView, RateMap,
};
use crate::fx_monthly::{
    requests_of, settle_currency, with_currency, year_of, year_requests, year_table, MonthlyRates,
    MonthlyView, RateRequest, YearDatesView, YearRateDates,
};
use crate::text::{texts, texts_increase};

verus! {

/// Whether a list names the days that some keys ask for, sorted, each once.
pub open spec fn asked_days(keys: Seq<(Date, String)>, reference: Seq<char>, dates: Seq<int>) -> bool {
    &&& days_increase(dates)
    &&& forall|d: int| #[trigger]
        dates.contains(d) <==> exists|c: Seq<char>| asked(keys, reference, d, c)
}

/// Whether a list names the days that some keys ask for and a cache does not
/// answer, sorted, each once.
pub open spec fn open_key_days(
    keys: Seq<(Date, String)>,
    reference: Seq<char>,
    cache: CacheView,
    dates: Seq<int>,
) -> bool {
    &&& days_increase(dates)
    &&& forall|d: int| #[trigger]
        dates.contains(d) <==> (cached_day(cache, d) matches Ok(None)) && exists|c: Seq<char>|
            asked(keys, reference, d, c)
}

/// The rates that some keys asked for, and the currencies of those that cannot be
/// had, given a cache and the outcomes of the days it does not answer.
pub open spec fn answers_keys(
    rates: Map<(int, Seq<char>), ResolvedView>,
    unavailable: Seq<Seq<char>>,
    keys: Seq<(Date, String)>,
    cache: CacheView,
    outcomes: Seq<(int, MissingView)>,
    reference: Seq<char>,
) -> bool {
    &&& rates_are(rates, keys, cache, outcomes, reference)
    &&& texts_increase(unavailable)
    &&& unavailable_are(unavailable, keys, cache, outcomes, reference)
}

/// The rates that are asked for, and the cache as far as it is known.
pub struct KeyBatch {
    pub keys: Vec<(Date, String)>,
    /// The code of the reference currency.
    pub reference: String,
    pub cache: RateCache,
}

/// What to do next for a batch of keys.
pub enum KeyStep {
    /// Fetch the days of a span, and go on with [`KeyBatch::after_range`].
    FetchRange { batch: KeyBatch, min: Date, max: Date, older: Vec<Date>, in_range: Vec<Date> },
    /// Settle these days one by one, and go on with [`KeyBatch::after_days`].
    SettleDays { batch: KeyBatch, dates: Vec<Date> },
    /// Nothing: these are the rates, and the currencies that have none.
    Done { rates: RateMap, unavailable: Vec<String> },
}

/// Whether a step is the one that follows when no range is fetched (any more):
/// the days that are still open are settled one by one, or all is done.
pub open spec fn settles(
    step: KeyStep,
    keys: Seq<(Date, String)>,
    reference: Seq<char>,
    cache: CacheView,
    open: Seq<int>,
) -> bool {
    if open.len() == 0 {
        step matches KeyStep::Done { rates, unavailable } && answers_keys(
            rates@,
            texts(unavailable@),
            keys,
            cache,
            Seq::empty(),
            reference,
        )
    } else {
        step matches KeyStep::SettleDays { batch, dates } && batch.keys@ == keys
            && batch.reference@ == reference && batch.cache@ == cache && days_of(dates@) == open
    }
}

/// Begin with a batch of keys. Without a cache that can be read nothing resolves,
/// and every currency that was asked for is named.
pub fn start_keys(
    keys: Vec<(Date, String)>,
    reference_currency: &str,
    cache: Option<RateCache>,
    offline: bool,
    today: Date,
) -> (r: KeyStep)
    ensures
        ({
            let reference = code_of(reference_currency@);
            match cache {
                None => r matches KeyStep::Done { rates, unavailable } && rates@ == Map::<
                    (int, Seq<char>),
                    ResolvedView,
                >::empty() && texts_increase(texts(unavailable@)) && forall|c: Seq<char>|
                    #[trigger]
                    texts(unavailable@).contains(c) <==> exists|d: int|
                        asked(keys@, reference, d, c),
                Some(cache) => exists|dates: Seq<int>|
                    #![trigger asked_days(keys@, reference, dates)]
                    asked_days(keys@, reference, dates) && match prewarm_of(
                        cache@,
                        dates,
                        offline,
                        today@,
                    ) {
                        PrewarmView::Fetch { min, max, older, in_range } => r
                            matches KeyStep::FetchRange {
                            batch,
                            min: first,
                            max: last,
                            older: o,
                            in_range: i,
                        } && batch.keys@ == keys@ && batch.reference@ == reference
                            && batch.cache@ == cache@ && first@ == min && last@ == max && days_of(
                            o@,
                        ) == older && days_of(i@) == in_range,
                        PrewarmView::Skip(_) => exists|open: Seq<int>|
                            #![trigger open_key_days(keys@, reference, cache@, open)]
                            open_key_days(keys@, reference, cache@, open) && settles(
                                r,
                                keys@,
                                reference,
                                cache@,
                                open,
                            ),
                    },
            }
        }),
{
    let reference = code(reference_currency);
    match cache {
        None => {
            let unavailable = key_currencies(keys.as_slice(), reference.as_str());
            KeyStep::Done { rates: RateMap::new(), unavailable }
        },
        Some(cache) => {
            let dates = key_dates(keys.as_slice(), reference.as_str());
            let plan = plan_prewarm(&cache, &dates, offline, today);
            assert(asked_days(keys@, reference@, days_of(dates@)));
            let batch = KeyBatch { keys, reference, cache };
            match plan {
                Prewarm::Fetch { min, max, older, in_range } => KeyStep::FetchRange {
                    batch,
                    min,
                    max,
                    older,
                    in_range,
                },
                Prewarm::Skip { still_missing: _ } => batch.settle_rest(),
            }
        },
    }
}

/// A cache after a range fetch: with the days that came and the stand-ins they
/// prove, or as it was.
pub open spec fn cache_after_range(
    cache: CacheView,
    min: int,
    in_range: Seq<int>,
    days: Option<Seq<DayView>>,
    today: int,
) -> CacheView {
    match days {
        Some(days) => if days.len() > 0 {
            with_stand_ins(
                with_days(cache, days, days.len() as int),
                in_range,
                min,
                today,
                in_range.len() as int,
            )
        } else {
            cache
        },
        None => cache,
    }
}

/// The days that a range fetch brought, if it did not fail.
pub open spec fn fetched_days(days: Option<&Vec<DayRates>>) -> Option<Seq<DayView>> {
    match days {
        Some(days) => Some(day_views(days@)),
        None => None,
    }
}

impl KeyBatch {
    /// Settle what needs no range fetch (any more).
    fn settle_rest(self) -> (r: KeyStep)
        ensures
            exists|open: Seq<int>|
                #![trigger open_key_days(self.keys@, self.reference@, self.cache@, open)]
                open_key_days(self.keys@, self.reference@, self.cache@, open) && settles(
                    r,
                    self.keys@,
                    self.reference@,
                    self.cache@,
                    open,
                ),
    {
        let dates = missing_dates(self.keys.as_slice(), &self.cache, self.reference.as_str());
        assert(open_key_days(self.keys@, self.reference@, self.cache@, days_of(dates@)));
        if dates.len() == 0 {
            let none: Vec<(Date, MissingOutcome)> = Vec::new();
            assert(outcome_views(none@) =~= Seq::empty());
            let (rates, unavailable) = settle_keys(
                self.keys.as_slice(),
                &self.cache,
                self.reference.as_str(),
                &none,
            );
            KeyStep::Done { rates, unavailable }
        } else {
            KeyStep::SettleDays { batch: self, dates }
        }
    }

    /// Go on after a range fetch: with the days it brought, or without any where
    /// it failed.
    pub fn after_range(
        self,
        min: Date,
        older: &Vec<Date>,
        in_range: &Vec<Date>,
        days: Option<&Vec<DayRates>>,
        today: Date,
    ) -> (r: KeyStep)
        ensures
            ({
                let cache = cache_after_range(
                    self.cache@,
                    min@,
                    days_of(in_range@),
                    fetched_days(days),
                    today@,
                );
                exists|open: Seq<int>|
                    #![trigger open_key_days(self.keys@, self.reference@, cache, open)]
                    open_key_days(self.keys@, self.reference@, cache, open) && settles(
                        r,
                        self.keys@,
                        self.reference@,
                        cache,
                        open,
                    )
            }),
    {
        let KeyBatch { keys, reference, cache } = self;
        let mut cache = cache;
        let _left = after_range(&mut cache, min, older, in_range, days, today);
        assert(cache@ == cache_after_range(
            self.cache@,
            min@,
            days_of(in_range@),
            fetched_days(days),
            today@,
        ));
        (KeyBatch { keys, reference, cache }).settle_rest()
    }

    /// End with what came of the days that were settled one by one. A day without
    /// an outcome fails.
    pub fn after_days(self, dates: &Vec<Date>, outcomes: Vec<(Date, MissingOutcome)>) -> (r: (
        RateMap,
        Vec<String>,
    ))
        ensures
            answers_keys(
                r.0@,
                texts(r.1@),
                self.keys@,
                self.cache@,
                reconciled(outcome_views(outcomes@), days_of(dates@), dates@.len() as int),
                self.reference@,
            ),
    {
        let mut outcomes = outcomes;
        reconcile(&mut outcomes, dates);
        settle_keys(self.keys.as_slice(), &self.cache, self.reference.as_str(), &outcomes)
    }
}

proof fn lemma_one_order(a: Seq<int>, b: Seq<int>)
    requires
        days_increase(a),
        days_increase(b),
        forall|d: int| #[trigger] a.contains(d) <==> b.contains(d),
    ensures
        a == b,
    decreases a.len(),
{
    if a.len() == 0 {
        if b.len() > 0 {
            assert(b.contains(b[0]));
            assert(a.contains(b[0]));
        }
        assert(a =~= b);
    } else {
        assert(a.contains(a.last()));
        let j = choose|j: int| 0 <= j < b.len() && b[j] == a.last();
        assert(b.contains(b.last()));
        assert(a.contains(b.last()));
        let i = choose|i: int| 0 <= i < a.len() && a[i] == b.last();
        assert(a.last() == b.last());
        let front = a.drop_last();
        let other = b.drop_last();
        assert forall|d: int| #[trigger] front.contains(d) <==> other.contains(d) by {
            if front.contains(d) {
                let k = choose|k: int| 0 <= k < front.len() && front[k] == d;
                assert(a[k] == d);
                assert(a.contains(d));
                let l = choose|l: int| 0 <= l < b.len() && b[l] == d;
                assert(other[l] == d);
            }
            if other.contains(d) {
                let k = choose|k: int| 0 <= k < other.len() && other[k] == d;
                assert(b[k] == d);
                assert(b.contains(d));
                assert(a.contains(d));
                let l = choose|l: int| 0 <= l < a.len() && a[l] == d;
                assert(front[l] == d);
            }
        }
        lemma_one_order(front, other);
        assert(a =~= front.push(a.last()));
        assert(b =~= other.push(b.last()));
    }
}

/// The days that a batch asks for, and those that stay open, each make up one list.
pub proof fn the_days_of_a_batch_have_one_list(
    keys: Seq<(Date, String)>,
    reference: Seq<char>,
    cache: CacheView,
    one: Seq<int>,
    other: Seq<int>,
)
    ensures
        asked_days(keys, reference, one) && asked_days(keys, reference, other) ==> one == other,
        open_key_days(keys, reference, cache, one) && open_key_days(keys, reference, cache, other)
            ==> one == other,
{
    if asked_days(keys, reference, one) && asked_days(keys, reference, other) {
        lemma_one_order(one, other);
    }
    if open_key_days(keys, reference, cache, one) && open_key_days(keys, reference, cache, other) {
        lemma_one_order(one, other);
    }
}

/// Offline no range of days is ever fetched.
pub proof fn offline_no_range_is_fetched(cache: CacheView, dates: Seq<int>, today: int)
    ensures
        prewarm_of(cache, dates, true, today) is Skip,
{
}

/// Whatever came of the fetches, each rate that was asked for is given or its
/// currency is named, and the reference currency is never named.
pub proof fn no_key_is_lost(
    rates: Map<(int, Seq<char>), ResolvedView>,
    unavailable: Seq<Seq<char>>,
    keys: Seq<(Date, String)>,
    cache: CacheView,
    open: Seq<int>,
    outcomes: Seq<(int, MissingView)>,
    reference: Seq<char>,
    date: int,
    currency: Seq<char>,
)
    requires
        open_key_days(keys, reference, cache, open),
        answers_keys(
            rates,
            unavailable,
            keys,
            cache,
            reconciled(outcomes, open, open.len() as int),
            reference,
        ),
        asked(keys, reference, date, currency),
    ensures
        rates.contains_key((date, currency)) || unavailable.contains(currency),
        !unavailable.contains(reference),
{
    let all = reconciled(outcomes, open, open.len() as int);
    if cached_day(cache, date) matches Ok(None) {
        assert(open.contains(date));
        let k = choose|k: int| 0 <= k < open.len() && open[k] == date;
        every_day_gets_an_outcome(outcomes, open, k);
    }
    every_key_is_answered(
        rates,
        unavailable,
        keys,
        cache,
        all,
        reference,
        date,
        currency,
    );
}

/// The rates of a year for some currencies, as far as they are resolved.
pub struct YearRun {
    rates: MonthlyRates,
    unavailable: Vec<String>,
    needed: Vec<String>,
    dates: YearRateDates,
    requests: Vec<RateRequest>,
    current: usize,
    answers: Vec<Rate>,
}

/// What a [`YearRun`] holds.
#[verifier::ext_equal]
pub struct YearRunView {
    /// The rates of the currencies that resolved.
    pub rates: MonthlyView,
    /// The currencies that did not.
    pub unavailable: Seq<Seq<char>>,
    /// All currencies, in the order they are resolved.
    pub needed: Seq<Seq<char>>,
    pub dates: YearDatesView,
    /// The number of currencies that are settled.
    pub current: int,
    /// What the next currency was answered so far.
    pub answers: Seq<Rate>,
}

impl View for YearRun {
    type V = YearRunView;

    closed spec fn view(&self) -> YearRunView {
        YearRunView {
            rates: self.rates@,
            unavailable: texts(self.unavailable@),
            needed: texts(self.needed@),
            dates: self.dates@,
            current: self.current as int,
            answers: self.answers@,
        }
    }
}

impl YearRunView {
    /// Whether every currency is settled.
    pub open spec fn is_done(self) -> bool {
        self.current >= self.needed.len()
    }

    /// Whether the answers of the next currency are not complete yet.
    pub open spec fn wf(self) -> bool {
        &&& 0 <= self.current <= self.needed.len()
        &&& self.dates.completed.len() <= 12
        &&& self.answers.len() < year_requests(self.dates).len()
    }

    /// The run after the next question was answered. A failure drops the currency
    /// for the whole year; the last answer settles it.
    pub open spec fn after(self, answer: Option<Rate>) -> YearRunView {
        let currency = self.needed[self.current];
        match answer {
            None => YearRunView {
                unavailable: self.unavailable.push(currency),
                current: self.current + 1,
                answers: Seq::empty(),
                ..self
            },
            Some(rate) => {
                let answers = self.answers.push(rate);
                if answers.len() < year_requests(self.dates).len() {
                    YearRunView { answers, ..self }
                } else {
                    YearRunView {
                        rates: with_currency(self.rates, currency, year_of(self.dates, answers)->0),
                        current: self.current + 1,
                        answers: Seq::empty(),
                        ..self
                    }
                }
            },
        }
    }
}

/// The rates of a year before any currency is resolved.
pub open spec fn no_rates(reference: Seq<char>) -> MonthlyView {
    MonthlyView { reference, months: Seq::new(12, |i: int| Map::<Seq<char>, Rate>::empty()) }
}

impl YearRun {
    #[verifier::type_invariant]
    closed spec fn inv(self) -> bool {
        &&& self@.wf()
        &&& Seq::new(self.requests@.len(), |i: int| self.requests@[i]@) == year_requests(self.dates@)
    }

    /// Begin with the rates of a year. Where the days of the year could not be had,
    /// or the cache cannot be read, no currency resolves: the caller passes none.
    pub fn start(
        currencies: &[String],
        reference_currency: &str,
        dates: Option<YearRateDates>,
    ) -> (r: Self)
        requires
            dates matches Some(days) ==> days@.completed.len() <= 12,
        ensures
            r@.rates == no_rates(code_of(reference_currency@)),
            texts_increase(r@.needed),
            forall|c: Seq<char>| #[trigger]
                r@.needed.contains(c) <==> c != code_of(reference_currency@) && exists|i: int|
                    0 <= i < currencies@.len() && c == code_of((#[trigger] currencies@[i])@),
            r@.answers == Seq::<Rate>::empty(),
            match dates {
                Some(days) => r@.dates == days@ && r@.current == 0 && r@.unavailable == Seq::<
                    Seq<char>,
                >::empty(),
                None => r@.is_done() && r@.unavailable == r@.needed,
            },
    {
        let reference = code(reference_currency);
        let needed = needed_currencies(currencies, reference.as_str());
        let rates = MonthlyRates::new(reference.as_str());
        let answers: Vec<Rate> = Vec::new();
        match dates {
            Some(dates) => {
                let requests = requests_of(&dates);
                let unavailable: Vec<String> = Vec::new();
                assert(texts(unavailable@) =~= Seq::empty());
                YearRun { rates, unavailable, needed, dates, requests, current: 0, answers }
            },
            None => {
                let unavailable = needed.clone();
                assert(texts(unavailable@) =~= texts(needed@));
                let dates = YearRateDates { completed: Vec::new(), previous_month_end: None };
                let requests = requests_of(&dates);
                let current: usize = needed.len();
                YearRun { rates, unavailable, needed, dates, requests, current, answers }
            },
        }
    }

    /// The next question: a currency, and which rate of it is asked for. None when
    /// all currencies are settled.
    pub fn next(&self) -> (r: Option<(&str, RateRequest)>)
        ensures
            match r {
                Some((currency, request)) => !self@.is_done() && currency@
                    == self@.needed[self@.current] && request@ == year_requests(
                    self@.dates,
                )[self@.answers.len() as int],
                None => self@.is_done(),
            },
    {
        proof {
            use_type_invariant(self);
        }
        if self.current >= self.needed.len() {
            return None;
        }
        let at: usize = self.answers.len();
        assert(year_requests(self.dates@)[at as int] == self.requests@[at as int]@);
        Some((self.needed[self.current].as_str(), self.requests[at]))
    }

    /// The run after the next question was answered.
    pub fn answer(self, answer: Option<Rate>) -> (r: Self)
        requires
            !self@.is_done(),
        ensures
            r@ == self@.after(answer),
    {
        proof {
            use_type_invariant(&self);
        }
        let ghost before = self@;
        let YearRun { rates, unavailable, needed, dates, requests, current, answers } = self;
        let mut rates = rates;
        let mut unavailable = unavailable;
        let mut answers = answers;
        assert(current < needed.len());
        if let Some(rate) = answer {
            answers.push(rate);
            if answers.len() < requests.len() {
                return YearRun { rates, unavailable, needed, dates, requests, current, answers };
            }
        }
        settle_currency(
            &mut rates,
            &mut unavailable,
            &dates,
            needed[current].as_str(),
            &answers,
        );
        YearRun {
            rates,
            unavailable,
            needed,
            dates,
            requests,
            current: current + 1,
            answers: Vec::new(),
        }
    }

    /// The rates of the currencies that resolved, and the others, sorted.
    pub fn finish(self) -> (r: (MonthlyRates, Vec<String>))
        ensures
            r.0@ == self@.rates,
            texts(r.1@) == self@.unavailable,
    {
        let YearRun { rates, unavailable, .. } = self;
        (rates, unavailable)
    }
}

/// What a currency is answered to the first questions of a year, up to the first
/// failure.
pub open spec fn answered(
    answers: spec_fn(Seq<char>, int) -> Option<Rate>,
    currency: Seq<char>,
    n: int,
) -> Seq<Rate>
    decreases n,
{
    if n <= 0 {
        Seq::empty()
    } else {
        let before = answered(answers, currency, n - 1);
        match answers(currency, n - 1) {
            Some(rate) if before.len() == n - 1 => before.push(rate),
            _ => before,
        }
    }
}

/// A run carried to its end, given what each currency is answered to each
/// question.
pub open spec fn carried_out(
    run: YearRunView,
    answers: spec_fn(Seq<char>, int) -> Option<Rate>,
) -> YearRunView
    decreases run.needed.len() - run.current, year_requests(run.dates).len() - run.answers.len(),
{
    if run.is_done() || !run.wf() {
        run
    } else {
        carried_out(
            run.after(answers(run.needed[run.current], run.answers.len() as int)),
            answers,
        )
    }
}

/// The currencies that were not answered every question.
pub open spec fn left_out(
    currencies: Seq<Seq<char>>,
    dates: YearDatesView,
    answers: spec_fn(Seq<char>) -> Seq<Rate>,
    n: int,
) -> Seq<Seq<char>>
    decreases n,
{
    if n <= 0 {
        Seq::empty()
    } else {
        let before = left_out(currencies, dates, answers, n - 1);
        if year_of(dates, answers(currencies[n - 1])) is None {
            before.push(currencies[n - 1])
        } else {
            before
        }
    }
}

/// What each currency is answered in a whole year.
pub open spec fn whole_year(
    answers: spec_fn(Seq<char>, int) -> Option<Rate>,
    dates: YearDatesView,
) -> spec_fn(Seq<char>) -> Seq<Rate> {
    |c: Seq<char>| answered(answers, c, year_requests(dates).len() as int)
}

proof fn lemma_answers_stop(
    answers: spec_fn(Seq<char>, int) -> Option<Rate>,
    currency: Seq<char>,
    k: int,
    n: int,
)
    requires
        0 <= k < n,
        answers(currency, k) is None,
    ensures
        answered(answers, currency, n).len() <= k,
    decreases n,
{
    lemma_answers_fit(answers, currency, n - 1);
    if k < n - 1 {
        lemma_answers_stop(answers, currency, k, n - 1);
    }
}

proof fn lemma_answers_fit(
    answers: spec_fn(Seq<char>, int) -> Option<Rate>,
    currency: Seq<char>,
    n: int,
)
    requires
        0 <= n,
    ensures
        answered(answers, currency, n).len() <= n,
    decreases n,
{
    if n > 0 {
        lemma_answers_fit(answers, currency, n - 1);
    }
}

proof fn lemma_carried_out(
    run: YearRunView,
    answers: spec_fn(Seq<char>, int) -> Option<Rate>,
    reference: Seq<char>,
)
    requires
        run.wf(),
        run.rates == year_table(
            reference,
            run.needed,
            run.dates,
            whole_year(answers, run.dates),
            run.current,
        ),
        run.unavailable == left_out(
            run.needed,
            run.dates,
            whole_year(answers, run.dates),
            run.current,
        ),
        !run.is_done() ==> run.answers == answered(
            answers,
            run.needed[run.current],
            run.answers.len() as int,
        ),
    ensures
        carried_out(run, answers).rates == year_table(
            reference,
            run.needed,
            run.dates,
            whole_year(answers, run.dates),
            run.needed.len() as int,
        ),
        carried_out(run, answers).unavailable == left_out(
            run.needed,
            run.dates,
            whole_year(answers, run.dates),
            run.needed.len() as int,
        ),
        carried_out(run, answers).is_done(),
    decreases run.needed.len() - run.current, year_requests(run.dates).len() - run.answers.len(),
{
    if !run.is_done() {
        let currency = run.needed[run.current];
        let at = run.answers.len() as int;
        let questions = year_requests(run.dates).len() as int;
        let said = whole_year(answers, run.dates)(currency);
        let given = answers(currency, at);
        let next = run.after(given);
        if given is None {
            lemma_answers_stop(answers, currency, at, questions);
            assert(year_of(run.dates, said) is None);
        } else {
            let more = run.answers.push(given->0);
            assert(answered(answers, currency, at + 1) == more);
            if at + 1 == questions {
                assert(said == more);
                assert(year_of(run.dates, said) is Some);
            }
        }
        assert(next.answers.len() == 0 ==> next.answers =~= Seq::empty());
        lemma_carried_out(next, answers, reference);
    }
}

/// A run ends with the table that resolving each currency by itself gives, and
/// names exactly the currencies that lack an answer.
pub proof fn a_run_resolves_each_currency_by_itself(
    run: YearRunView,
    answers: spec_fn(Seq<char>, int) -> Option<Rate>,
    reference: Seq<char>,
)
    requires
        run.wf(),
        run.current == 0,
        run.answers.len() == 0,
        run.unavailable.len() == 0,
        run.rates == no_rates(reference),
    ensures
        carried_out(run, answers).is_done(),
        carried_out(run, answers).rates == year_table(
            reference,
            run.needed,
            run.dates,
            whole_year(answers, run.dates),
            run.needed.len() as int,
        ),
        carried_out(run, answers).unavailable == left_out(
            run.needed,
            run.dates,
            whole_year(answers, run.dates),
            run.needed.len() as int,
        ),
{
    assert(run.unavailable =~= Seq::empty());
    assert(run.answers =~= Seq::empty());
    lemma_carried_out(run, answers, reference);
}

} // verus!
