//! What an expense is worth in the reference currency: the facts a row stores,
//! and the rates they need.

use vstd::prelude::*;
use crate::dates::{is_day, text_of, Date};
use crate::error::{outcome, Error, ErrorView};
use crate::expenses::DetailedExpenses;
use crate::frames::{
    cell_text, find_texts, find_typed, has_texts, has_typed, no_column, no_texts,
    target_column_error, text_in,
};
use crate::fx::{code, code_of, Rate, ResolvedView};
use crate::fx_keys::RateMap;
use crate::merge_apply::key_column_error;
use crate::numbers::FloatBits;
use crate::table::{counted_day, Cell, CellView, DataType, DataTypeView, Table, TableView};
use crate::text::{rank, same_text, text_before, text_order_is_total, Rank};

verus! {

/// Whether a table has a column of a name that holds days.
pub open spec fn has_days(df: TableView, name: Seq<char>) -> bool {
    df.has_column(name) && {
        let dtype = df.columns[df.column_of(name)].dtype;
        dtype is Date || dtype is Int64 || dtype is Int32
    }
}

/// The day of a cell, if it has one.
pub open spec fn day_in(cell: CellView) -> Option<int> {
    match counted_day(cell) {
        CellView::Date(days) => Some(days as int),
        _ => None,
    }
}

/// Whether every day of a column is a day of the calendar.
pub open spec fn column_days_exist(df: TableView, name: Seq<char>) -> bool {
    has_days(df, name) ==> forall|i: int|
        0 <= i < df.rows.len() ==> {
            day_in((#[trigger] df.rows[i])[df.column_of(name)]) matches Some(day) ==> is_day(day)
        }
}

/// The days of a column, or that there is no such column.
pub open spec fn days_in(df: TableView, name: Seq<char>) -> Result<Seq<Option<int>>, ErrorView> {
    if has_days(df, name) {
        Ok(Seq::new(df.rows.len(), |i: int| day_in(df.rows[i][df.column_of(name)])))
    } else {
        Err(target_column_error(name))
    }
}

/// What optional dates say.
pub open spec fn day_views(list: Seq<Option<Date>>) -> Seq<Option<int>> {
    Seq::new(
        list.len(),
        |i: int|
            match list[i] {
                Some(date) => Some(date@),
                None => None,
            },
    )
}

fn find_days(df: &Table, name: &str) -> (r: Option<usize>)
    ensures
        match r {
            Some(c) => has_days(df@, name@) && c == df@.column_of(name@) && c < df@.columns.len(),
            None => !has_days(df@, name@),
        },
{
    match df.find_column(name) {
        Some(c) => match &df.column_at(c).dtype {
            DataType::Date => {
                assert(df@.columns[c as int].dtype is Date);
                Some(c)
            },
            DataType::Int64 => {
                assert(df@.columns[c as int].dtype is Int64);
                Some(c)
            },
            DataType::Int32 => {
                assert(df@.columns[c as int].dtype is Int32);
                Some(c)
            },
            _ => {
                assert(!(df@.columns[c as int].dtype is Date));
                assert(!(df@.columns[c as int].dtype is Int64));
                assert(!(df@.columns[c as int].dtype is Int32));
                None
            },
        },
        None => None,
    }
}

/// The dates of a column. An empty cell stays empty: no date is made up for it.
pub fn date_col_to_vec(df: &Table, name: &str) -> (r: Result<Vec<Option<Date>>, Error>)
    requires
        column_days_exist(df@, name@),
    ensures
        match r {
            Ok(list) => days_in(df@, name@) == Ok::<Seq<Option<int>>, ErrorView>(day_views(list@)),
            Err(e) => days_in(df@, name@) == Err::<Seq<Option<int>>, ErrorView>(e@),
        },
{
    let c = match find_days(df, name) {
        Some(c) => c,
        None => return Err(no_column(name)),
    };
    let mut list: Vec<Option<Date>> = Vec::new();
    let mut i: usize = 0;
    while i < df.height()
        invariant
            i <= df@.rows.len(),
            c < df@.columns.len(),
            c == df@.column_of(name@),
            has_days(df@, name@),
            column_days_exist(df@, name@),
            list@.len() == i,
            forall|k: int|
                0 <= k < i ==> (#[trigger] day_views(list@)[k]) == day_in(df@.rows[k][c as int]),
        decreases df@.rows.len() - i,
    {
        let ghost before = list@;
        assert(day_in(df@.rows[i as int][c as int]) matches Some(day) ==> is_day(day));
        let day: Option<Date> = match df.cell_at(i, c) {
            Cell::Date(days) => Date::from_days(*days),
            Cell::Int(n) => if -0x8000_0000 <= *n && *n <= 0x7fff_ffff {
                Date::from_days(*n as i32)
            } else {
                None
            },
            _ => None,
        };
        list.push(day);
        assert forall|k: int| 0 <= k < i + 1 implies (#[trigger] day_views(list@)[k]) == day_in(
            df@.rows[k][c as int],
        ) by {
            if k < i {
                assert(day_views(list@)[k] == day_views(before)[k]);
            }
        }
        i = i + 1;
    }
    assert(day_views(list@) =~= days_in(df@, name@)->Ok_0);
    Ok(list)
}

/// What one expense stores: its own amount and currency.
#[derive(Debug, PartialEq, Eq)]
pub struct ExpenseFact {
    /// The day of the expense.
    pub expense_date: Date,
    /// The currency, as it is stored.
    pub currency: String,
    /// The amount, in that currency.
    pub expense_amount: FloatBits,
    pub primary_category: String,
    pub secondary_category: String,
}

/// What an [`ExpenseFact`] says.
pub struct FactView {
    pub date: int,
    pub currency: Seq<char>,
    pub amount: FloatBits,
    pub primary: Seq<char>,
    pub secondary: Seq<char>,
}

impl View for ExpenseFact {
    type V = FactView;

    open spec fn view(&self) -> FactView {
        FactView {
            date: self.expense_date@,
            currency: self.currency@,
            amount: self.expense_amount,
            primary: self.primary_category@,
            secondary: self.secondary_category@,
        }
    }
}

/// What the facts of a list say.
pub open spec fn fact_views(facts: Seq<ExpenseFact>) -> Seq<FactView> {
    Seq::new(facts.len(), |i: int| facts[i]@)
}

/// The number of a cell; an empty cell is zero.
pub open spec fn cell_amount(cell: CellView) -> FloatBits {
    match cell {
        CellView::Float(number) => number,
        _ => 0,
    }
}

/// The number of a cell; an empty cell is zero.
pub fn amount_in(cell: &Cell) -> (r: FloatBits)
    ensures
        r == cell_amount(cell@),
{
    match cell {
        Cell::Float(number) => *number,
        _ => 0,
    }
}

/// The facts of the first `n` rows that have a date.
pub open spec fn facts_among(df: TableView, n: int) -> Seq<FactView>
    decreases n,
{
    if n <= 0 {
        Seq::empty()
    } else {
        let rest = facts_among(df, n - 1);
        let row = df.rows[n - 1];
        match day_in(row[df.column_of("expense_date"@)]) {
            Some(date) => rest.push(
                FactView {
                    date,
                    currency: cell_text(row[df.column_of("currency"@)]),
                    amount: cell_amount(row[df.column_of("expense_amount"@)]),
                    primary: cell_text(row[df.column_of("primary_category"@)]),
                    secondary: cell_text(row[df.column_of("secondary_category"@)]),
                },
            ),
            None => rest,
        }
    }
}

/// The facts of a table, or which column it lacks.
pub open spec fn facts_in(df: TableView) -> Result<Seq<FactView>, ErrorView> {
    if !has_days(df, "expense_date"@) {
        Err(target_column_error("expense_date"@))
    } else if !has_texts(df, "currency"@) {
        Err(key_column_error("currency"@))
    } else if !has_typed(df, "expense_amount"@, DataTypeView::Float64) {
        Err(target_column_error("expense_amount"@))
    } else if !has_texts(df, "primary_category"@) {
        Err(key_column_error("primary_category"@))
    } else if !has_texts(df, "secondary_category"@) {
        Err(key_column_error("secondary_category"@))
    } else {
        Ok(facts_among(df, df.rows.len() as int))
    }
}

/// The facts of every row that has a date. A row without one has no rate and no
/// day to show, so it counts nowhere.
pub fn facts_from_df(df: &Table) -> (r: Result<Vec<ExpenseFact>, Error>)
    requires
        column_days_exist(df@, "expense_date"@),
    ensures
        match r {
            Ok(facts) => facts_in(df@) == Ok::<Seq<FactView>, ErrorView>(fact_views(facts@)),
            Err(e) => facts_in(df@) == Err::<Seq<FactView>, ErrorView>(e@),
        },
{
    let dates = match date_col_to_vec(df, "expense_date") {
        Ok(dates) => dates,
        Err(e) => return Err(e),
    };
    let currency = match find_texts(df, "currency") {
        Some(c) => c,
        None => return Err(no_texts("currency")),
    };
    let amount = match find_typed(df, "expense_amount", &DataType::Float64) {
        Some(c) => c,
        None => return Err(no_column("expense_amount")),
    };
    let primary = match find_texts(df, "primary_category") {
        Some(c) => c,
        None => return Err(no_texts("primary_category")),
    };
    let secondary = match find_texts(df, "secondary_category") {
        Some(c) => c,
        None => return Err(no_texts("secondary_category")),
    };
    let ghost days = day_views(dates@);
    let mut facts: Vec<ExpenseFact> = Vec::new();
    let mut i: usize = 0;
    assert(fact_views(facts@) =~= Seq::empty());
    assert(days.len() == dates@.len());
    while i < df.height()
        invariant
            i <= df@.rows.len(),
            days == day_views(dates@),
            days.len() == df@.rows.len(),
            dates@.len() == df@.rows.len(),
            forall|k: int|
                0 <= k < days.len() ==> (#[trigger] days[k]) == day_in(
                    df@.rows[k][df@.column_of("expense_date"@)],
                ),
            currency < df@.columns.len(),
            amount < df@.columns.len(),
            primary < df@.columns.len(),
            secondary < df@.columns.len(),
            currency == df@.column_of("currency"@),
            amount == df@.column_of("expense_amount"@),
            primary == df@.column_of("primary_category"@),
            secondary == df@.column_of("secondary_category"@),
            fact_views(facts@) == facts_among(df@, i as int),
        decreases df@.rows.len() - i,
    {
        assert(days[i as int] == day_in(df@.rows[i as int][df@.column_of("expense_date"@)]));
        if let Some(date) = dates[i] {
            let ghost before = fact_views(facts@);
            facts.push(
                ExpenseFact {
                    expense_date: date,
                    currency: text_in(df.cell_at(i, currency)),
                    expense_amount: amount_in(df.cell_at(i, amount)),
                    primary_category: text_in(df.cell_at(i, primary)),
                    secondary_category: text_in(df.cell_at(i, secondary)),
                },
            );
            assert(fact_views(facts@) =~= before.push(facts@.last()@));
        }
        i = i + 1;
    }
    Ok(facts)
}

impl DetailedExpenses {
    /// The facts of every expense of the month that has a date.
    pub fn expense_facts(&self) -> (r: Result<Vec<ExpenseFact>, Error>)
        requires
            column_days_exist(self@.df, "expense_date"@),
        ensures
            match r {
                Ok(facts) => facts_in(self@.df) == Ok::<Seq<FactView>, ErrorView>(
                    fact_views(facts@),
                ),
                Err(e) => facts_in(self@.df) == Err::<Seq<FactView>, ErrorView>(e@),
            },
    {
        facts_from_df(&self.expense_df)
    }
}

/// Add the facts of a year to those of the years before. A year that cannot be
/// read adds nothing, with one exception: a year that only waits for its row ids
/// ends the scan, since leaving it out would understate the totals.
pub fn add_year(facts: &mut Vec<ExpenseFact>, year: Result<Vec<ExpenseFact>, Error>) -> (r: Result<
    (),
    Error,
>)
    ensures
        match year {
            Ok(added) => outcome(r) == Ok::<(), ErrorView>(()) && fact_views(final(facts)@)
                == fact_views(old(facts)@) + fact_views(added@),
            Err(e) => fact_views(final(facts)@) == fact_views(old(facts)@) && outcome(r) == if e@
                is RowIdsMissing {
                Err::<(), ErrorView>(e@)
            } else {
                Ok(())
            },
        },
{
    match year {
        Ok(mut added) => {
            let ghost before = facts@;
            let ghost more = added@;
            facts.append(&mut added);
            assert(fact_views(facts@) =~= fact_views(before) + fact_views(more));
            Ok(())
        },
        Err(e) => match e {
            Error::RowIdsMissing(message) => Err(Error::RowIdsMissing(message)),
            _ => Ok(()),
        },
    }
}

/// The facts of a scan over all years. A scan that stopped early still counts
/// what it found, unless it met a year that waits for its row ids.
pub fn all_facts(facts: Vec<ExpenseFact>, scan: Result<(), Error>) -> (r: Result<
    Vec<ExpenseFact>,
    Error,
>)
    ensures
        match r {
            Ok(found) => !(scan matches Err(e) && e@ is RowIdsMissing) && fact_views(found@)
                == fact_views(facts@),
            Err(e) => scan matches Err(met) && met@ is RowIdsMissing && e@ == met@,
        },
{
    match scan {
        Err(Error::RowIdsMissing(message)) => Err(Error::RowIdsMissing(message)),
        _ => Ok(facts),
    }
}

/// A day and a currency code.
pub type RateKey = (int, Seq<char>);

/// Order of keys: by day, then by code.
pub open spec fn rate_key_before(a: RateKey, b: RateKey) -> bool {
    a.0 < b.0 || (a.0 == b.0 && text_before(a.1, b.1))
}

/// What the keys of a list say.
pub open spec fn rate_keys(keys: Seq<(Date, String)>) -> Seq<RateKey> {
    Seq::new(keys.len(), |i: int| (keys[i].0@, keys[i].1@))
}

/// Whether keys stand in strictly increasing order, so that none occurs twice.
pub open spec fn rate_keys_increase(keys: Seq<RateKey>) -> bool {
    forall|i: int, j: int|
        0 <= i < j < keys.len() ==> rate_key_before(#[trigger] keys[i], #[trigger] keys[j])
}

/// Whether some fact needs the rate of a key.
pub open spec fn needs_key(facts: Seq<FactView>, reference: Seq<char>, key: RateKey) -> bool {
    key.1 != code_of(reference) && exists|i: int|
        0 <= i < facts.len() && (#[trigger] facts[i]).date == key.0 && code_of(facts[i].currency)
            == key.1
}

proof fn lemma_inserted_key(keys: Seq<RateKey>, key: RateKey, i: int)
    requires
        rate_keys_increase(keys),
        0 <= i <= keys.len(),
        forall|k: int| 0 <= k < i ==> rate_key_before(#[trigger] keys[k], key),
        i < keys.len() ==> rate_key_before(key, keys[i]),
    ensures
        rate_keys_increase(keys.insert(i, key)),
        forall|k: RateKey| #[trigger]
            keys.insert(i, key).contains(k) <==> keys.contains(k) || k == key,
{
    text_order_is_total();
    let after = keys.insert(i, key);
    assert forall|a: int, b: int| 0 <= a < b < after.len() implies rate_key_before(
        #[trigger] after[a],
        #[trigger] after[b],
    ) by {
        if a < i && b > i {
            assert(rate_key_before(keys[a], keys[b - 1]));
        } else if b < i {
            assert(rate_key_before(keys[a], keys[b]));
        } else if a > i {
            assert(rate_key_before(keys[a - 1], keys[b - 1]));
        } else if a == i {
            if b - 1 > i {
                assert(rate_key_before(keys[i], keys[b - 1]));
            }
            assert(rate_key_before(key, keys[b - 1]));
        } else {
            assert(rate_key_before(keys[a], key));
        }
    }
    assert forall|k: RateKey| #[trigger] after.contains(k) <==> keys.contains(k) || k == key by {
        if after.contains(k) {
            let n = choose|n: int| 0 <= n < after.len() && after[n] == k;
            if n < i {
                assert(keys[n] == k);
            } else if n > i {
                assert(keys[n - 1] == k);
            }
        }
        if keys.contains(k) {
            let n = choose|n: int| 0 <= n < keys.len() && keys[n] == k;
            if n < i {
                assert(after[n] == k);
            } else {
                assert(after[n + 1] == k);
            }
        }
        assert(after[i] == key);
    }
}

fn insert_key(keys: &mut Vec<(Date, String)>, date: Date, currency: String)
    requires
        rate_keys_increase(rate_keys(old(keys)@)),
    ensures
        rate_keys_increase(rate_keys(final(keys)@)),
        forall|k: RateKey| #[trigger]
            rate_keys(final(keys)@).contains(k) <==> rate_keys(old(keys)@).contains(k) || k == (
                date@,
                currency@,
            ),
{
    let ghost before = rate_keys(keys@);
    let ghost key = (date@, currency@);
    proof {
        text_order_is_total();
    }
    let mut i: usize = 0;
    while i < keys.len()
        invariant
            i <= keys.len(),
            before == rate_keys(keys@),
            before == rate_keys(old(keys)@),
            key == (date@, currency@),
            rate_keys_increase(before),
            forall|k: int| 0 <= k < i ==> rate_key_before(#[trigger] before[k], key),
        decreases keys.len() - i,
    {
        assert(before[i as int] == (keys@[i as int].0@, keys@[i as int].1@));
        let here = keys[i].0.days();
        let there = date.days();
        let place = rank(keys[i].1.as_str(), currency.as_str());
        proof {
            text_order_is_total();
        }
        if here == there && place == Rank::Same {
            assert(before.contains(key));
            return ;
        }
        if here > there || (here == there && place == Rank::After) {
            keys.insert(i, (date, currency));
            proof {
                lemma_inserted_key(before, key, i as int);
                assert(rate_keys(keys@) =~= before.insert(i as int, key));
            }
            return ;
        }
        i = i + 1;
    }
    keys.push((date, currency));
    proof {
        lemma_inserted_key(before, key, i as int);
        assert(rate_keys(keys@) =~= before.insert(i as int, key));
    }
}

/// Every day and currency code whose rate the facts need, each once, in order.
/// The reference currency needs none.
pub fn distinct_rate_keys(facts: &[ExpenseFact], reference_currency: &str) -> (r: Vec<
    (Date, String),
>)
    ensures
        rate_keys_increase(rate_keys(r@)),
        forall|key: RateKey| #[trigger]
            rate_keys(r@).contains(key) <==> needs_key(
                fact_views(facts@),
                reference_currency@,
                key,
            ),
{
    let reference = code(reference_currency);
    let ghost all = fact_views(facts@);
    let mut keys: Vec<(Date, String)> = Vec::new();
    let mut i: usize = 0;
    assert(rate_keys(keys@) =~= Seq::empty());
    while i < facts.len()
        invariant
            i <= facts@.len(),
            all == fact_views(facts@),
            reference@ == code_of(reference_currency@),
            rate_keys_increase(rate_keys(keys@)),
            forall|key: RateKey| #[trigger]
                rate_keys(keys@).contains(key) <==> needs_key(
                    all.take(i as int),
                    reference_currency@,
                    key,
                ),
        decreases facts@.len() - i,
    {
        let currency = code(facts[i].currency.as_str());
        let ghost before = rate_keys(keys@);
        let ghost new = (facts@[i as int].expense_date@, currency@);
        assert(all[i as int] == facts@[i as int]@);
        if !same_text(currency.as_str(), reference.as_str()) {
            insert_key(&mut keys, facts[i].expense_date, currency);
        }
        proof {
            let fewer = all.take(i as int);
            let more = all.take(i + 1);
            assert forall|key: RateKey| #[trigger]
                rate_keys(keys@).contains(key) <==> needs_key(
                    more,
                    reference_currency@,
                    key,
                ) by {
                assert(before.contains(key) <==> needs_key(fewer, reference_currency@, key));
                if needs_key(fewer, reference_currency@, key) {
                    let k = choose|k: int|
                        0 <= k < fewer.len() && (#[trigger] fewer[k]).date == key.0 && code_of(
                            fewer[k].currency,
                        ) == key.1;
                    assert(more[k] == fewer[k]);
                }
                if needs_key(more, reference_currency@, key) {
                    let k = choose|k: int|
                        0 <= k < more.len() && (#[trigger] more[k]).date == key.0 && code_of(
                            more[k].currency,
                        ) == key.1;
                    if k < i {
                        assert(fewer[k] == more[k]);
                    } else {
                        assert(key == new);
                    }
                }
                if key == new && new.1 != code_of(reference_currency@) {
                    assert(more[i as int].date == key.0);
                }
            }
        }
        i = i + 1;
    }
    assert(all.take(all.len() as int) =~= all);
    keys
}

/// A rate that was not looked up.
pub open spec fn missing_rate_error(currency: Seq<char>, date: int) -> ErrorView {
    ErrorView::NotFound(
        "no resolved FX rate for '"@ + currency + "' on "@ + text_of(date)
            + "; it was not included in the rates passed to resolve_fact"@,
    )
}

/// The rate of a fact into the reference currency and the day it was published
/// for, or that it was not looked up.
pub open spec fn fact_rate(
    fact: FactView,
    reference: Seq<char>,
    rates: Map<RateKey, ResolvedView>,
) -> Result<(Rate, int), ErrorView> {
    let currency = code_of(fact.currency);
    if currency == code_of(reference) {
        Ok((Rate::One, fact.date))
    } else if rates.contains_key((fact.date, currency)) {
        let found = rates[(fact.date, currency)];
        Ok(
            (
                found.rate,
                match found.rate_date {
                    Some(day) => day,
                    None => fact.date,
                },
            ),
        )
    } else {
        Err(missing_rate_error(currency, fact.date))
    }
}

/// The rate of a fact into the reference currency and the day it was published
/// for. The reference currency converts at one on the day of the expense; a pair
/// that was not looked up is an error, never a rate of one.
pub fn resolve_fact(fact: &ExpenseFact, reference_currency: &str, rates: &RateMap) -> (r: Result<
    (Rate, Date),
    Error,
>)
    ensures
        match r {
            Ok(pair) => fact_rate(fact@, reference_currency@, rates@) == Ok::<
                (Rate, int),
                ErrorView,
            >((pair.0, pair.1@)),
            Err(e) => fact_rate(fact@, reference_currency@, rates@) == Err::<
                (Rate, int),
                ErrorView,
            >(e@),
        },
{
    let currency = code(fact.currency.as_str());
    let reference = code(reference_currency);
    if same_text(currency.as_str(), reference.as_str()) {
        return Ok((Rate::One, fact.expense_date));
    }
    match rates.get(fact.expense_date, currency.as_str()) {
        Some(found) => {
            let day = match found.rate_date {
                Some(day) => day,
                None => fact.expense_date,
            };
            Ok((found.rate, day))
        },
        None => Err(
            Error::NotFound(
                "no resolved FX rate for '".to_owned().concat(currency.as_str()).concat(
                    "' on ",
                ).concat(fact.expense_date.text().as_str()).concat(
                    "; it was not included in the rates passed to resolve_fact",
                ),
            ),
        ),
    }
}

/// Facts whose every needed rate was looked up all resolve.
pub proof fn looked_up_facts_resolve(
    facts: Seq<FactView>,
    reference: Seq<char>,
    rates: Map<RateKey, ResolvedView>,
    i: int,
)
    requires
        0 <= i < facts.len(),
        forall|key: RateKey| #[trigger]
            needs_key(facts, reference, key) ==> rates.contains_key(key),
    ensures
        fact_rate(facts[i], reference, rates) is Ok,
{
    let key = (facts[i].date, code_of(facts[i].currency));
    if key.1 != code_of(reference) {
        assert(facts[i].date == key.0);
        assert(needs_key(facts, reference, key));
    }
}

} // verus!
