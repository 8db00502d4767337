//! What is entered of an expense is what the month holds, what is recorded of it,
//! and what its facts say.

use vstd::prelude::*;
use crate::append::types_clash;
use crate::categories::normalized;
use crate::change_laws::lemma_logged_row;
use crate::changes::{logged_cell, logged_row};
use crate::config::MappingView;
use crate::dates::{a_day_number_names_one_date, civil, is_date, lemma_day_range, text_of};
use crate::error::ErrorView;
use crate::expense_laws::{
    grows, lemma_appended_grows, lemma_appended_types, lemma_grown_column,
};
use crate::expenses::{
    chosen_categories, dated, expense_added, expense_cells, expense_columns, ExpenseInput,
    ExpensesView,
};
use crate::facts::{fact_rate, facts_among, facts_in, FactView, RateKey};
use crate::frames::holds_row_id;
use crate::fx::{code_of, Rate, ResolvedView};
use crate::merge_apply::{lemma_matching_rows, ROW_ID_COLUMN};
use crate::numbers::{float_finite, FloatBits};
use crate::rows::{Number, ValueView};
use crate::sync::{ChangeTable, OpView, OriginView};
use crate::table::{matching_rows, row_fits, CellView, TableView};

verus! {

/// Whether a category is the one of a new expense: the one given, spelled as
/// categories are, else the one that is mapped to its name, and else an empty one.
pub open spec fn is_category_of(
    category: Seq<char>,
    given: Option<Seq<char>>,
    mapped: Option<Seq<char>>,
) -> bool {
    match (given, mapped) {
        (Some(text), _) => category == normalized(text),
        (None, Some(text)) => category == normalized(text),
        (None, None) => category == normalized(""@),
    }
}

/// The primary category that a mapping gives.
pub open spec fn mapped_primary(mapping: Option<MappingView>) -> Option<Seq<char>> {
    match mapping {
        Some(mapping) => Some(mapping.primary),
        None => None,
    }
}

/// The secondary category that a mapping gives.
pub open spec fn mapped_secondary(mapping: Option<MappingView>) -> Option<Seq<char>> {
    match mapping {
        Some(mapping) => Some(mapping.secondary),
        None => None,
    }
}

/// Whether a row of a table is that of an expense: its name, the day of its date, its
/// amount and currency, its two categories and its id, each in its own column.
pub open spec fn is_expense_row(
    df: TableView,
    r: int,
    row_id: Seq<char>,
    name: Seq<char>,
    date: (int, int, int),
    amount: FloatBits,
    currency: Seq<char>,
    primary: Seq<char>,
    secondary: Seq<char>,
) -> bool {
    &&& df.has_column("expense_name"@)
    &&& df.has_column("expense_date"@)
    &&& df.has_column("expense_amount"@)
    &&& df.has_column("currency"@)
    &&& df.has_column("primary_category"@)
    &&& df.has_column("secondary_category"@)
    &&& df.has_column("row_id"@)
    &&& df.at(r, "expense_name"@) == CellView::Text(name)
    &&& df.at(r, "expense_date"@) matches CellView::Date(days) && civil(days as int) == date
    &&& df.at(r, "expense_amount"@) == CellView::Float(amount)
    &&& df.at(r, "currency"@) == CellView::Text(currency)
    &&& df.at(r, "primary_category"@) == CellView::Text(primary)
    &&& df.at(r, "secondary_category"@) == CellView::Text(secondary)
    &&& df.at(r, "row_id"@) == CellView::Text(row_id)
}

/// An expense is added exactly where its primary category is given or mapped, its
/// month has the day, and no column of the month is of another type than an expense
/// has there.
pub proof fn an_expense_is_added_where_it_can_be(
    month: ExpensesView,
    row_id: Seq<char>,
    input: ExpenseInput,
    mapping: Option<MappingView>,
    origin: Option<OriginView>,
)
    ensures
        expense_added(month, row_id, input, mapping, origin) is Ok <==> {
            &&& input.primary is Some || mapping is Some
            &&& is_date(month.year as int, month.month as int, input.day as int)
            &&& !types_clash(month.df, expense_columns())
        },
{
}

/// An expense that was added is the last row of the month, and holds what was given:
/// the name, the day in this month, the amount, the currency and the id as they are,
/// and the categories given or mapped, as categories are spelled. All that the month
/// held before it holds still. One change is recorded, of this row of this month.
pub proof fn an_added_expense_holds_what_was_given(
    month: ExpensesView,
    row_id: Seq<char>,
    input: ExpenseInput,
    mapping: Option<MappingView>,
    origin: Option<OriginView>,
) -> (categories: (Seq<char>, Seq<char>))
    requires
        month.df.wf(),
        expense_added(month, row_id, input, mapping, origin) is Ok,
    ensures
        ({
            let after = expense_added(month, row_id, input, mapping, origin)->Ok_0;
            &&& grows(month.df, after.df)
            &&& after.df.rows.len() == month.df.rows.len() + 1
            &&& is_category_of(categories.0, input.primary, mapped_primary(mapping))
            &&& is_category_of(categories.1, input.secondary, mapped_secondary(mapping))
            &&& is_expense_row(
                after.df,
                month.df.rows.len() as int,
                row_id,
                input.name,
                (month.year as int, month.month as int, input.day as int),
                input.amount,
                input.currency,
                categories.0,
                categories.1,
            )
            &&& after.year == month.year
            &&& after.month == month.month
            &&& after.path == month.path
            &&& after.changes.len() == month.changes.len() + 1
            &&& after.changes.drop_last() == month.changes
            &&& after.changes.last().table == (ChangeTable::Expenses {
                year: month.year,
                month: month.month,
            })
            &&& after.changes.last().row_id == row_id
            &&& after.changes.last().origin == origin
        }),
{
    let after = expense_added(month, row_id, input, mapping, origin)->Ok_0;
    let (p, s) = chosen_categories(input.name, input.primary, input.secondary, mapping)->Ok_0;
    let day = dated(month.year, month.month, input.day)->Ok_0;
    let columns = expense_columns();
    let cells = expense_cells(row_id, input, day, p, s);
    crate::expenses::lemma_expense_columns();
    assert(row_fits(columns, cells));
    a_day_number_names_one_date(month.year as int, month.month as int, input.day as int);
    lemma_day_range(month.year as int, month.month as int, input.day as int);
    assert(columns[0].name == "expense_name"@);
    assert(columns[1].name == "expense_date"@);
    assert(columns[2].name == "expense_amount"@);
    assert(columns[3].name == "currency"@);
    assert(columns[4].name == "primary_category"@);
    assert(columns[5].name == "secondary_category"@);
    assert(columns[6].name == "row_id"@);
    lemma_appended_grows(month.df, columns, cells, 0);
    lemma_appended_grows(month.df, columns, cells, 1);
    lemma_appended_grows(month.df, columns, cells, 2);
    lemma_appended_grows(month.df, columns, cells, 3);
    lemma_appended_grows(month.df, columns, cells, 4);
    lemma_appended_grows(month.df, columns, cells, 5);
    lemma_appended_grows(month.df, columns, cells, 6);
    assert(after.changes.drop_last() =~= month.changes);
    (normalized(p), normalized(s))
}

/// A row is recorded where each of its cells can be.
pub proof fn lemma_row_is_logged(df: TableView, i: int, n: int)
    requires
        0 <= n <= df.columns.len(),
        forall|c: int|
            0 <= c < df.columns.len() ==> logged_cell(#[trigger] df.columns[c], df.rows[i][c]) is Ok,
    ensures
        logged_row(df, i, n) is Ok,
    decreases n,
{
    if n > 0 {
        lemma_row_is_logged(df, i, n - 1);
        assert(logged_cell(df.columns[n - 1], df.rows[i][n - 1]) is Ok);
    }
}

/// What is recorded of an expense that was added under a new id is the expense: its
/// name, the text of its date, its amount, its currency, its categories and its id,
/// each under its own column. It can be recorded wherever the amount is finite.
pub proof fn an_added_expense_is_recorded_whole(
    month: ExpensesView,
    row_id: Seq<char>,
    input: ExpenseInput,
    mapping: Option<MappingView>,
    origin: Option<OriginView>,
) -> (categories: (Seq<char>, Seq<char>))
    requires
        month.df.wf(),
        holds_row_id(month.df, row_id) == Ok::<bool, ErrorView>(false),
        expense_added(month, row_id, input, mapping, origin) is Ok,
    ensures
        ({
            let after = expense_added(month, row_id, input, mapping, origin)->Ok_0;
            &&& is_category_of(categories.0, input.primary, mapped_primary(mapping))
            &&& is_category_of(categories.1, input.secondary, mapped_secondary(mapping))
            &&& float_finite(input.amount) ==> after.changes.last().op is Ok
            &&& after.changes.last().op matches Ok(op) ==> {
                &&& op matches OpView::Upsert(row)
                &&& row.dom().contains("expense_name"@)
                &&& row.dom().contains("expense_date"@)
                &&& row.dom().contains("expense_amount"@)
                &&& row.dom().contains("currency"@)
                &&& row.dom().contains("primary_category"@)
                &&& row.dom().contains("secondary_category"@)
                &&& row.dom().contains("row_id"@)
                &&& row["expense_name"@] == ValueView::Text(input.name)
                &&& row["expense_date"@] matches ValueView::Text(text) && exists|days: int|
                    text == #[trigger] text_of(days) && civil(days) == (
                        month.year as int,
                        month.month as int,
                        input.day as int,
                    )
                &&& row["expense_amount"@] == ValueView::Number(Number::Float(input.amount))
                &&& row["currency"@] == ValueView::Text(input.currency)
                &&& row["primary_category"@] == ValueView::Text(categories.0)
                &&& row["secondary_category"@] == ValueView::Text(categories.1)
                &&& row["row_id"@] == ValueView::Text(row_id)
            }
        }),
{
    let after = expense_added(month, row_id, input, mapping, origin)->Ok_0;
    let df = after.df;
    let n = month.df.rows.len() as int;
    let categories = an_added_expense_holds_what_was_given(month, row_id, input, mapping, origin);
    lemma_grown_column(month.df, df, ROW_ID_COLUMN@);
    let c = df.column_of(ROW_ID_COLUMN@);
    lemma_matching_rows(month.df.rows, c, row_id, n);
    lemma_matching_rows(df.rows, c, row_id, n + 1);
    let found = matching_rows(df.rows, c, row_id, n + 1);
    assert(df.columns[c] == month.df.columns[c]);
    assert(df.rows[n][c] == CellView::Text(row_id));
    assert(found.contains(n));
    if found[0] < n {
        let r = found[0];
        assert(df.rows[r][c] == month.df.rows[r][c]);
        assert(month.df.rows[r][c] == CellView::Text(row_id));
        assert(matching_rows(month.df.rows, c, row_id, n).contains(r));
    }
    assert(found[0] == n);
    if float_finite(input.amount) {
        let (p, s) = chosen_categories(input.name, input.primary, input.secondary, mapping)->Ok_0;
        let day = dated(month.year, month.month, input.day)->Ok_0;
        let cells = expense_cells(row_id, input, day, p, s);
        crate::expenses::lemma_expense_columns();
        assert(row_fits(expense_columns(), cells));
        lemma_day_range(month.year as int, month.month as int, input.day as int);
        assert forall|d: int| 0 <= d < df.columns.len() implies logged_cell(
            #[trigger] df.columns[d],
            df.rows[n][d],
        ) is Ok by {
            lemma_appended_types(month.df, expense_columns(), cells, 0, d);
            if cells.contains(df.rows[n][d]) {
                let e = choose|e: int| 0 <= e < cells.len() && cells[e] == df.rows[n][d];
                assert(logged_cell(df.columns[d], cells[e]) is Ok);
            }
        }
        lemma_row_is_logged(df, n, df.columns.len() as int);
    }
    if after.changes.last().op is Ok {
        lemma_logged_row(df, n, df.columns.len() as int);
        assert(row_fits(df.columns, df.rows[n]));
        assert(df.columns[df.column_of("expense_name"@)].name == "expense_name"@);
        assert(df.columns[df.column_of("expense_date"@)].name == "expense_date"@);
        assert(df.columns[df.column_of("expense_amount"@)].name == "expense_amount"@);
        assert(df.columns[df.column_of("currency"@)].name == "currency"@);
        assert(df.columns[df.column_of("primary_category"@)].name == "primary_category"@);
        assert(df.columns[df.column_of("secondary_category"@)].name == "secondary_category"@);
        assert(df.columns[df.column_of("row_id"@)].name == "row_id"@);
    }
    categories
}

/// Whether a cell gives a day: a date itself, or a count of days.
pub open spec fn gives_day(cell: CellView, day: int) -> bool {
    match cell {
        CellView::Date(days) => days == day,
        CellView::Int(n) => n == day && i32::MIN <= n <= i32::MAX,
        _ => false,
    }
}

/// Whether a text is that of a cell, which is empty where the cell is.
pub open spec fn is_text_of(cell: CellView, text: Seq<char>) -> bool {
    match cell {
        CellView::Text(it) => it == text,
        _ => text == ""@,
    }
}

/// Whether a number is that of a cell, which is zero where the cell is empty.
pub open spec fn is_number_of(cell: CellView, number: FloatBits) -> bool {
    match cell {
        CellView::Float(it) => it == number,
        _ => number == 0,
    }
}

/// Whether a fact says what a row holds: the day, the currency, the amount and the
/// two categories, each from its own column.
pub open spec fn is_fact_of_row(fact: FactView, df: TableView, r: int) -> bool {
    &&& gives_day(df.at(r, "expense_date"@), fact.date)
    &&& is_text_of(df.at(r, "currency"@), fact.currency)
    &&& is_number_of(df.at(r, "expense_amount"@), fact.amount)
    &&& is_text_of(df.at(r, "primary_category"@), fact.primary)
    &&& is_text_of(df.at(r, "secondary_category"@), fact.secondary)
}

proof fn lemma_facts_of_rows(df: TableView, n: int) -> (rows: Seq<int>)
    requires
        0 <= n <= df.rows.len(),
    ensures
        rows.len() == facts_among(df, n).len(),
        forall|k: int| 0 <= k < rows.len() ==> 0 <= #[trigger] rows[k] < n,
        forall|k: int, l: int| 0 <= k < l < rows.len() ==> #[trigger] rows[k] < #[trigger] rows[l],
        forall|k: int|
            0 <= k < rows.len() ==> is_fact_of_row(facts_among(df, n)[k], df, #[trigger] rows[k]),
        forall|r: int, day: int|
            0 <= r < n && #[trigger] gives_day(df.at(r, "expense_date"@), day) ==> rows.contains(r),
    decreases n,
{
    reveal_strlit("");
    assert(""@ =~= Seq::<char>::empty());
    if n <= 0 {
        Seq::empty()
    } else {
        let before = lemma_facts_of_rows(df, n - 1);
        let row = df.rows[n - 1];
        if facts_among(df, n).len() > facts_among(df, n - 1).len() {
            let rows = before.push(n - 1);
            assert forall|r: int, day: int|
                0 <= r < n && #[trigger] gives_day(
                    df.at(r, "expense_date"@),
                    day,
                ) implies rows.contains(r) by {
                if r < n - 1 {
                    assert(before.contains(r));
                    let k = choose|k: int| 0 <= k < before.len() && before[k] == r;
                    assert(rows[k] == r);
                } else {
                    assert(rows[before.len() as int] == r);
                }
            }
            assert forall|k: int| 0 <= k < rows.len() implies is_fact_of_row(
                facts_among(df, n)[k],
                df,
                #[trigger] rows[k],
            ) by {
                if k < before.len() {
                    assert(rows[k] == before[k]);
                }
            }
            rows
        } else {
            assert(facts_among(df, n) == facts_among(df, n - 1));
            before
        }
    }
}

/// The facts of a table are those of its dated rows, in their order, one for each:
/// every fact says what its row holds, and every row that has a day has a fact.
pub proof fn the_facts_are_those_of_the_dated_rows(df: TableView) -> (rows: Seq<int>)
    requires
        facts_in(df) is Ok,
    ensures
        rows.len() == facts_in(df)->Ok_0.len(),
        forall|k: int| 0 <= k < rows.len() ==> 0 <= #[trigger] rows[k] < df.rows.len(),
        forall|k: int, l: int| 0 <= k < l < rows.len() ==> #[trigger] rows[k] < #[trigger] rows[l],
        forall|k: int|
            0 <= k < rows.len() ==> is_fact_of_row(facts_in(df)->Ok_0[k], df, #[trigger] rows[k]),
        forall|r: int, day: int|
            0 <= r < df.rows.len() && #[trigger] gives_day(df.at(r, "expense_date"@), day)
                ==> rows.contains(r),
{
    lemma_facts_of_rows(df, df.rows.len() as int)
}

proof fn lemma_facts_kept(df: TableView, after: TableView, n: int)
    requires
        df.wf(),
        grows(df, after),
        facts_in(df) is Ok,
        0 <= n <= df.rows.len(),
    ensures
        facts_among(after, n) == facts_among(df, n),
    decreases n,
{
    if n > 0 {
        lemma_facts_kept(df, after, n - 1);
        lemma_grown_column(df, after, "expense_date"@);
        lemma_grown_column(df, after, "currency"@);
        lemma_grown_column(df, after, "expense_amount"@);
        lemma_grown_column(df, after, "primary_category"@);
        lemma_grown_column(df, after, "secondary_category"@);
        let r = n - 1;
        assert(after.rows[r][df.column_of("expense_date"@)] == df.rows[r][df.column_of(
            "expense_date"@,
        )]);
        assert(after.rows[r][df.column_of("currency"@)] == df.rows[r][df.column_of("currency"@)]);
        assert(after.rows[r][df.column_of("expense_amount"@)] == df.rows[r][df.column_of(
            "expense_amount"@,
        )]);
        assert(after.rows[r][df.column_of("primary_category"@)] == df.rows[r][df.column_of(
            "primary_category"@,
        )]);
        assert(after.rows[r][df.column_of("secondary_category"@)] == df.rows[r][df.column_of(
            "secondary_category"@,
        )]);
    }
}

/// An expense that was added is read back as a fact: one more than before, at the
/// end, with the day in this month, the amount and the currency that were given, and
/// with the primary category as its primary and the secondary one as its secondary
/// category, spelled as categories are. The facts before it stay as they are.
pub proof fn an_added_expense_is_read_as_a_fact(
    month: ExpensesView,
    row_id: Seq<char>,
    input: ExpenseInput,
    mapping: Option<MappingView>,
    origin: Option<OriginView>,
)
    requires
        month.df.wf(),
        facts_in(month.df) is Ok,
        expense_added(month, row_id, input, mapping, origin) is Ok,
    ensures
        ({
            let after = expense_added(month, row_id, input, mapping, origin)->Ok_0;
            &&& facts_in(after.df) matches Ok(facts)
            &&& facts.len() == facts_in(month.df)->Ok_0.len() + 1
            &&& facts.drop_last() == facts_in(month.df)->Ok_0
            &&& civil(facts.last().date) == (
                month.year as int,
                month.month as int,
                input.day as int,
            )
            &&& facts.last().amount == input.amount
            &&& facts.last().currency == input.currency
            &&& is_category_of(facts.last().primary, input.primary, mapped_primary(mapping))
            &&& is_category_of(facts.last().secondary, input.secondary, mapped_secondary(mapping))
        }),
{
    let after = expense_added(month, row_id, input, mapping, origin)->Ok_0;
    let n = month.df.rows.len() as int;
    let df = after.df;
    let categories = an_added_expense_holds_what_was_given(month, row_id, input, mapping, origin);
    lemma_facts_kept(month.df, df, n);
    lemma_grown_column(month.df, df, "expense_date"@);
    lemma_grown_column(month.df, df, "currency"@);
    lemma_grown_column(month.df, df, "expense_amount"@);
    lemma_grown_column(month.df, df, "primary_category"@);
    lemma_grown_column(month.df, df, "secondary_category"@);
    assert(df.columns[df.column_of("expense_date"@)] == month.df.columns[df.column_of(
        "expense_date"@,
    )]);
    assert(df.columns[df.column_of("currency"@)] == month.df.columns[df.column_of("currency"@)]);
    assert(df.columns[df.column_of("expense_amount"@)] == month.df.columns[df.column_of(
        "expense_amount"@,
    )]);
    assert(df.columns[df.column_of("primary_category"@)] == month.df.columns[df.column_of(
        "primary_category"@,
    )]);
    assert(df.columns[df.column_of("secondary_category"@)] == month.df.columns[df.column_of(
        "secondary_category"@,
    )]);
    assert(facts_in(df) is Ok);
    let facts = facts_in(df)->Ok_0;
    assert(facts == facts_among(df, n + 1));
    assert(facts.drop_last() =~= facts_among(df, n));
}

/// A fact takes the rate that was looked up for its own day and currency: once one
/// is there, it is that one, with the day it was published for, whatever other rates
/// are known. A rate of another day or currency changes nothing, and the reference
/// currency takes a rate of one on its own day.
pub proof fn a_fact_takes_the_rate_of_its_day_and_currency(
    fact: FactView,
    reference: Seq<char>,
    rates: Map<RateKey, ResolvedView>,
    key: RateKey,
    found: ResolvedView,
)
    ensures
        code_of(fact.currency) == code_of(reference) ==> fact_rate(fact, reference, rates) == Ok::<
            (Rate, int),
            ErrorView,
        >((Rate::One, fact.date)),
        code_of(fact.currency) != code_of(reference) && key == (fact.date, code_of(fact.currency))
            ==> fact_rate(fact, reference, rates.insert(key, found)) == Ok::<
            (Rate, int),
            ErrorView,
        >(
            (
                found.rate,
                match found.rate_date {
                    Some(day) => day,
                    None => fact.date,
                },
            ),
        ),
        key != (fact.date, code_of(fact.currency)) ==> fact_rate(
            fact,
            reference,
            rates.insert(key, found),
        ) == fact_rate(fact, reference, rates),
        code_of(fact.currency) != code_of(reference) && !rates.contains_key(
            (fact.date, code_of(fact.currency)),
        ) ==> fact_rate(fact, reference, rates) is Err,
{
}

} // verus!
