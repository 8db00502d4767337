//! What is entered of a template is what its rows are, in every month.

use vstd::prelude::*;
use crate::append::types_clash;
use crate::categories::normalized;
use crate::dates::{civil, is_day};
use crate::error::ErrorView;
use crate::expense_laws::{
    grows, lemma_appended_grows, lemma_appended_types, lemma_grown_column,
};
use crate::expenses::{expense_added, ExpensesView};
use crate::fact_laws::{
    an_added_expense_holds_what_was_given, is_expense_row, is_number_of, is_text_of,
};
use crate::frames::holds_row_id;
use crate::merge_apply::{lemma_matching_rows, ROW_ID_COLUMN};
use crate::numbers::FloatBits;
use crate::recurring::{
    derived_id, generated_rows, has_generated, of_template, pending_input, recurring_columns,
    reinstated, rows_inserted, stands_for, template_added, template_cells, PendingView,
    RecurringView,
};
use crate::recurring_laws::{inserted_rows_are_there, lemma_grows_on};
use crate::sync::{ChangeTable, OriginView};
use crate::table::{matching_rows, row_fits, CellView, TableView};

verus! {

/// A template is added exactly where its day is one that every month has and no
/// column of the templates is of another type than a template has there.
pub proof fn a_template_is_added_where_it_can_be(
    templates: RecurringView,
    row_id: Seq<char>,
    name: Seq<char>,
    day: i64,
    amount: FloatBits,
    currency: Seq<char>,
    primary: Seq<char>,
    secondary: Seq<char>,
)
    ensures
        template_added(templates, row_id, name, day, amount, currency, primary, secondary) is Ok
            <==> 1 <= day <= 28 && !types_clash(templates.df, recurring_columns()),
{
}

/// Whether a day is that of a cell, which is zero where the cell is empty. Of a count
/// that no day of a month has, nothing is said.
pub open spec fn is_day_of(cell: CellView, day: u32) -> bool {
    match cell {
        CellView::Int(n) => 0 <= n <= u32::MAX ==> day == n,
        _ => day == 0,
    }
}

/// Whether a generated row is what a template holds: its name, day, amount, currency
/// and categories, each from its own column, under the id made of the template's id
/// and the month.
pub open spec fn is_row_of_template(
    row: PendingView,
    df: TableView,
    i: int,
    year: int,
    month: nat,
) -> bool {
    &&& is_text_of(df.at(i, "row_id"@), row.template)
    &&& row.row_id == derived_id(row.template, year, month)
    &&& is_text_of(df.at(i, "expense_name"@), row.name)
    &&& is_day_of(df.at(i, "expense_day"@), row.day)
    &&& is_number_of(df.at(i, "expense_amount"@), row.amount)
    &&& is_text_of(df.at(i, "currency"@), row.currency)
    &&& is_text_of(df.at(i, "primary_category"@), row.primary)
    &&& is_text_of(df.at(i, "secondary_category"@), row.secondary)
}

/// Every template generates one row in a month, in the order of the templates, and
/// the row is what the template holds.
pub proof fn every_template_generates_its_row(df: TableView, year: int, month: nat)
    requires
        generated_rows(df, year, month) is Ok,
    ensures
        ({
            let rows = generated_rows(df, year, month)->Ok_0;
            &&& rows.len() == df.rows.len()
            &&& forall|i: int|
                0 <= i < rows.len() ==> is_row_of_template(#[trigger] rows[i], df, i, year, month)
        }),
{
    reveal_strlit("");
    assert(""@ =~= Seq::<char>::empty());
}

/// A template that was added with a name, a day, an amount, a currency and categories
/// generates, in any month, one row more than the templates before it did, with that
/// name, day, amount and currency, and with those categories as categories are
/// spelled. The rows of the other templates stay as they are. One change is recorded,
/// of this template of this year.
pub proof fn a_template_generates_what_was_given(
    templates: RecurringView,
    row_id: Seq<char>,
    name: Seq<char>,
    day: i64,
    amount: FloatBits,
    currency: Seq<char>,
    primary: Seq<char>,
    secondary: Seq<char>,
    year: int,
    month: nat,
)
    requires
        templates.df.wf(),
        template_added(templates, row_id, name, day, amount, currency, primary, secondary) is Ok,
    ensures
        ({
            let after = template_added(
                templates,
                row_id,
                name,
                day,
                amount,
                currency,
                primary,
                secondary,
            )->Ok_0;
            let n = templates.df.rows.len() as int;
            &&& after.year == templates.year
            &&& grows(templates.df, after.df)
            &&& after.df.rows.len() == n + 1
            &&& after.df.at(n, "row_id"@) == CellView::Text(row_id)
            &&& after.changes.len() == templates.changes.len() + 1
            &&& after.changes.drop_last() == templates.changes
            &&& after.changes.last().table == (ChangeTable::Recurring { year: templates.year })
            &&& after.changes.last().row_id == row_id
            &&& after.changes.last().origin is None
            &&& generated_rows(after.df, year, month) matches Ok(rows)
            &&& rows.len() == n + 1
            &&& rows[n].template == row_id
            &&& rows[n].row_id == derived_id(row_id, year, month)
            &&& rows[n].name == name
            &&& rows[n].day == day
            &&& rows[n].amount == amount
            &&& rows[n].currency == currency
            &&& rows[n].primary == normalized(primary)
            &&& rows[n].secondary == normalized(secondary)
            &&& generated_rows(templates.df, year, month) matches Ok(before) ==> forall|i: int|
                0 <= i < n ==> #[trigger] rows[i] == before[i]
        }),
{
    let after = template_added(
        templates,
        row_id,
        name,
        day,
        amount,
        currency,
        primary,
        secondary,
    )->Ok_0;
    let df = templates.df;
    let n = df.rows.len() as int;
    let columns = recurring_columns();
    let cells = template_cells(row_id, name, day, amount, currency, primary, secondary);
    crate::recurring::lemma_recurring_columns();
    assert(row_fits(columns, cells));
    assert(columns[0].name == "expense_name"@);
    assert(columns[1].name == "expense_day"@);
    assert(columns[2].name == "expense_amount"@);
    assert(columns[3].name == "currency"@);
    assert(columns[4].name == "primary_category"@);
    assert(columns[5].name == "secondary_category"@);
    assert(columns[6].name == "row_id"@);
    lemma_appended_grows(df, columns, cells, 0);
    lemma_appended_grows(df, columns, cells, 1);
    lemma_appended_grows(df, columns, cells, 2);
    lemma_appended_grows(df, columns, cells, 3);
    lemma_appended_grows(df, columns, cells, 4);
    lemma_appended_grows(df, columns, cells, 5);
    lemma_appended_grows(df, columns, cells, 6);
    lemma_appended_types(df, columns, cells, 0, 0);
    lemma_appended_types(df, columns, cells, 1, 0);
    lemma_appended_types(df, columns, cells, 2, 0);
    lemma_appended_types(df, columns, cells, 3, 0);
    lemma_appended_types(df, columns, cells, 4, 0);
    lemma_appended_types(df, columns, cells, 5, 0);
    lemma_appended_types(df, columns, cells, 6, 0);
    assert(after.changes.drop_last() =~= templates.changes);
    assert(generated_rows(after.df, year, month) is Ok);
    let rows = generated_rows(after.df, year, month)->Ok_0;
    if let Ok(before) = generated_rows(df, year, month) {
        lemma_grown_column(df, after.df, "expense_name"@);
        lemma_grown_column(df, after.df, "expense_day"@);
        lemma_grown_column(df, after.df, "expense_amount"@);
        lemma_grown_column(df, after.df, "currency"@);
        lemma_grown_column(df, after.df, "primary_category"@);
        lemma_grown_column(df, after.df, "secondary_category"@);
        lemma_grown_column(df, after.df, "row_id"@);
        assert forall|i: int| 0 <= i < n implies #[trigger] rows[i] == before[i] by {
            let was = df.rows[i];
            let row = after.df.rows[i];
            assert(row[df.column_of("expense_name"@)] == was[df.column_of("expense_name"@)]);
            assert(row[df.column_of("expense_day"@)] == was[df.column_of("expense_day"@)]);
            assert(row[df.column_of("expense_amount"@)] == was[df.column_of("expense_amount"@)]);
            assert(row[df.column_of("currency"@)] == was[df.column_of("currency"@)]);
            assert(row[df.column_of("primary_category"@)] == was[df.column_of(
                "primary_category"@,
            )]);
            assert(row[df.column_of("secondary_category"@)] == was[df.column_of(
                "secondary_category"@,
            )]);
            assert(row[df.column_of("row_id"@)] == was[df.column_of("row_id"@)]);
        }
    }
}

/// Whether a row of a month is a generated one: every column holds what the generated
/// row says, on its day of this month, with the categories as categories are spelled.
pub open spec fn is_inserted(month: ExpensesView, df: TableView, r: int, row: PendingView) -> bool {
    is_expense_row(
        df,
        r,
        row.row_id,
        row.name,
        (month.year as int, month.month as int, row.day as int),
        row.amount,
        row.currency,
        normalized(row.primary),
        normalized(row.secondary),
    )
}

proof fn lemma_added_row(month: ExpensesView, row: PendingView, origin: Option<OriginView>)
    requires
        month.df.wf(),
        expense_added(month, row.row_id, pending_input(row), None, origin) is Ok,
    ensures
        ({
            let after = expense_added(month, row.row_id, pending_input(row), None, origin)->Ok_0;
            &&& is_inserted(month, after.df, month.df.rows.len() as int, row)
            &&& grows(month.df, after.df)
            &&& after.df.rows.len() == month.df.rows.len() + 1
            &&& after.year == month.year
            &&& after.month == month.month
            &&& after.changes.last().origin == origin
            &&& after.changes.last().row_id == row.row_id
        }),
{
    an_added_expense_holds_what_was_given(month, row.row_id, pending_input(row), None, origin);
}

proof fn lemma_still_inserted(
    month: ExpensesView,
    before: TableView,
    after: TableView,
    r: int,
    row: PendingView,
)
    requires
        before.wf(),
        grows(before, after),
        0 <= r < before.rows.len(),
        is_inserted(month, before, r, row),
    ensures
        is_inserted(month, after, r, row),
{
    lemma_grown_column(before, after, "expense_name"@);
    lemma_grown_column(before, after, "expense_date"@);
    lemma_grown_column(before, after, "expense_amount"@);
    lemma_grown_column(before, after, "currency"@);
    lemma_grown_column(before, after, "primary_category"@);
    lemma_grown_column(before, after, "secondary_category"@);
    lemma_grown_column(before, after, "row_id"@);
    assert(after.rows[r][before.column_of("expense_name"@)] == before.rows[r][before.column_of(
        "expense_name"@,
    )]);
    assert(after.rows[r][before.column_of("expense_date"@)] == before.rows[r][before.column_of(
        "expense_date"@,
    )]);
    assert(after.rows[r][before.column_of("expense_amount"@)] == before.rows[r][before.column_of(
        "expense_amount"@,
    )]);
    assert(after.rows[r][before.column_of("currency"@)] == before.rows[r][before.column_of(
        "currency"@,
    )]);
    assert(after.rows[r][before.column_of("primary_category"@)] == before.rows[r][before.column_of(
        "primary_category"@,
    )]);
    assert(after.rows[r][before.column_of("secondary_category"@)]
        == before.rows[r][before.column_of("secondary_category"@)]);
    assert(after.rows[r][before.column_of("row_id"@)] == before.rows[r][before.column_of(
        "row_id"@,
    )]);
}

/// Rows that were inserted into a month hold what was generated: each of them whose id
/// the month had not, nor an earlier one of them, is a row of the month, with its
/// name, its day, its amount, its currency, its categories and its id in their
/// columns. What the month held before it holds still, in its place, and it has one
/// row more for each name that is reported.
pub proof fn inserted_rows_hold_what_was_generated(
    month: ExpensesView,
    rows: Seq<PendingView>,
    n: int,
)
    requires
        month.df.wf(),
        0 <= n <= rows.len(),
        rows_inserted(month, rows, n).failure is None,
    ensures
        ({
            let after = rows_inserted(month, rows, n);
            &&& grows(month.df, after.month.df)
            &&& after.month.year == month.year
            &&& after.month.month == month.month
            &&& after.month.df.rows.len() == month.df.rows.len() + after.names.len()
            &&& forall|i: int|
                0 <= i < n && holds_row_id(month.df, (#[trigger] rows[i]).row_id) == Ok::<
                    bool,
                    ErrorView,
                >(false) && (forall|k: int|
                    0 <= k < i ==> (#[trigger] rows[k]).row_id != rows[i].row_id) ==> exists|r: int|
                    month.df.rows.len() <= r < after.month.df.rows.len() && #[trigger] is_inserted(
                        month,
                        after.month.df,
                        r,
                        rows[i],
                    )
        }),
    decreases n,
{
    if n > 0 {
        let before = rows_inserted(month, rows, n - 1);
        let after = rows_inserted(month, rows, n);
        assert(before.failure is None);
        inserted_rows_hold_what_was_generated(month, rows, n - 1);
        let row = rows[n - 1];
        let first = month.df.rows.len() as int;
        let last = before.month.df.rows.len() as int;
        let added = holds_row_id(before.month.df, row.row_id) == Ok::<bool, ErrorView>(false);
        if added {
            lemma_added_row(before.month, row, Some(OriginView::RecurringApply));
            lemma_grows_on(month.df, before.month.df, after.month.df);
            assert(is_inserted(month, after.month.df, last, row));
        }
        assert forall|i: int|
            0 <= i < n && holds_row_id(month.df, (#[trigger] rows[i]).row_id) == Ok::<
                bool,
                ErrorView,
            >(false) && (forall|k: int|
                0 <= k < i ==> (#[trigger] rows[k]).row_id != rows[i].row_id) implies exists|r: int|
            first <= r < after.month.df.rows.len() && #[trigger] is_inserted(
                month,
                after.month.df,
                r,
                rows[i],
            ) by {
            if i < n - 1 {
                let r = choose|r: int|
                    first <= r < last && #[trigger] is_inserted(
                        month,
                        before.month.df,
                        r,
                        rows[i],
                    );
                if added {
                    lemma_still_inserted(month, before.month.df, after.month.df, r, rows[i]);
                }
                assert(is_inserted(month, after.month.df, r, rows[i]));
            } else if !added {
                lemma_held_was_inserted(month, rows, n - 1, row.row_id);
            }
        }
    }
}

proof fn lemma_held_was_inserted(
    month: ExpensesView,
    rows: Seq<PendingView>,
    n: int,
    row_id: Seq<char>,
)
    requires
        month.df.wf(),
        0 <= n <= rows.len(),
        rows_inserted(month, rows, n).failure is None,
        holds_row_id(month.df, row_id) == Ok::<bool, ErrorView>(false),
        forall|k: int| 0 <= k < n ==> (#[trigger] rows[k]).row_id != row_id,
    ensures
        holds_row_id(rows_inserted(month, rows, n).month.df, row_id) == Ok::<bool, ErrorView>(
            false,
        ),
    decreases n,
{
    if n > 0 {
        let before = rows_inserted(month, rows, n - 1);
        let after = rows_inserted(month, rows, n);
        lemma_held_was_inserted(month, rows, n - 1, row_id);
        inserted_rows_are_there(month, rows, n - 1);
        let row = rows[n - 1];
        if holds_row_id(before.month.df, row.row_id) == Ok::<bool, ErrorView>(false) {
            lemma_added_row(before.month, row, Some(OriginView::RecurringApply));
            let b = before.month.df;
            let a = after.month.df;
            lemma_grown_column(b, a, ROW_ID_COLUMN@);
            let c = b.column_of(ROW_ID_COLUMN@);
            let m = b.rows.len() as int;
            lemma_matching_rows(b.rows, c, row_id, m);
            lemma_matching_rows(a.rows, c, row_id, m + 1);
            assert(a.columns[c] == b.columns[c]);
            let found = matching_rows(a.rows, c, row_id, m + 1);
            if found.len() > 0 {
                let r = found[0];
                if r < m {
                    assert(a.rows[r][c] == b.rows[r][c]);
                    assert(b.rows[r][c] == CellView::Text(row_id));
                    assert(matching_rows(b.rows, c, row_id, m).contains(r));
                } else {
                    assert(a.at(m, "row_id"@) == CellView::Text(row.row_id));
                    assert(row.row_id != row_id);
                }
            }
        }
    }
}

proof fn lemma_first_of_template(rows: Seq<PendingView>, template: Seq<char>, i: int, n: int)
    requires
        0 <= i < n <= rows.len(),
        rows[i].template == template,
        forall|k: int| 0 <= k < i ==> (#[trigger] rows[k]).template != template,
    ensures
        of_template(rows, template, i) is None,
        of_template(rows, template, n) == Some(rows[i]),
    decreases n,
{
    if n == i + 1 {
        lemma_none_of_template(rows, template, i);
    } else {
        lemma_first_of_template(rows, template, i, n - 1);
    }
}

proof fn lemma_none_of_template(rows: Seq<PendingView>, template: Seq<char>, n: int)
    requires
        0 <= n <= rows.len(),
        forall|k: int| 0 <= k < n ==> (#[trigger] rows[k]).template != template,
    ensures
        of_template(rows, template, n) is None,
    decreases n,
{
    if n > 0 {
        lemma_none_of_template(rows, template, n - 1);
    }
}

/// A row that is asked back comes from its template: where the month has no row of
/// that id yet, the last row of the month is then what the template holds, on its day
/// of this month. Where it has one, the month stays as it is.
pub proof fn a_row_asked_back_is_that_of_its_template(
    templates: RecurringView,
    month: ExpensesView,
    template: Seq<char>,
    i: int,
)
    requires
        month.df.wf(),
        reinstated(templates, month, template) is Ok,
        0 <= i < templates.df.rows.len(),
        template.len() > 0,
        templates.df.at(i, "row_id"@) == CellView::Text(template),
        forall|k: int|
            0 <= k < i ==> #[trigger] templates.df.at(k, "row_id"@) != CellView::Text(template),
    ensures
        ({
            let (after, row_id, created) = reinstated(templates, month, template)->Ok_0;
            let row = generated_rows(
                templates.df,
                month.year as int,
                month.month as nat,
            )->Ok_0[i];
            &&& generated_rows(templates.df, month.year as int, month.month as nat) is Ok
            &&& is_row_of_template(row, templates.df, i, month.year as int, month.month as nat)
            &&& row.template == template
            &&& row_id == derived_id(template, month.year as int, month.month as nat)
            &&& holds_row_id(month.df, row_id) == Ok::<bool, ErrorView>(!created)
            &&& !created ==> after == month
            &&& created ==> {
                &&& grows(month.df, after.df)
                &&& after.df.rows.len() == month.df.rows.len() + 1
                &&& is_inserted(month, after.df, month.df.rows.len() as int, row)
                &&& after.changes.last().row_id == row_id
                &&& after.changes.last().origin is None
            }
        }),
{
    let rows = generated_rows(templates.df, month.year as int, month.month as nat)->Ok_0;
    every_template_generates_its_row(templates.df, month.year as int, month.month as nat);
    assert(is_row_of_template(rows[i], templates.df, i, month.year as int, month.month as nat));
    reveal_strlit("");
    assert forall|k: int| 0 <= k < i implies (#[trigger] rows[k]).template != template by {
        assert(is_row_of_template(rows[k], templates.df, k, month.year as int, month.month as nat));
        assert(templates.df.at(k, "row_id"@) != CellView::Text(template));
    }
    lemma_first_of_template(rows, template, i, rows.len() as int);
    let (after, row_id, created) = reinstated(templates, month, template)->Ok_0;
    if created {
        lemma_added_row(month, rows[i], None);
    }
}

/// A template added under a new id with a name, a day, an amount, a currency and
/// categories, and asked for in a month that lacks its row: the month then ends with a
/// row of that name on that day, with that amount and currency, and with those
/// categories as categories are spelled.
pub proof fn an_added_template_reaches_the_month(
    templates: RecurringView,
    row_id: Seq<char>,
    name: Seq<char>,
    day: i64,
    amount: FloatBits,
    currency: Seq<char>,
    primary: Seq<char>,
    secondary: Seq<char>,
    month: ExpensesView,
)
    requires
        templates.df.wf(),
        month.df.wf(),
        row_id.len() > 0,
        holds_row_id(templates.df, row_id) == Ok::<bool, ErrorView>(false),
        template_added(templates, row_id, name, day, amount, currency, primary, secondary) is Ok,
        ({
            let after = template_added(
                templates,
                row_id,
                name,
                day,
                amount,
                currency,
                primary,
                secondary,
            )->Ok_0;
            reinstated(after, month, row_id) matches Ok((_, _, created)) && created
        }),
    ensures
        ({
            let after = template_added(
                templates,
                row_id,
                name,
                day,
                amount,
                currency,
                primary,
                secondary,
            )->Ok_0;
            let (filled, id, _) = reinstated(after, month, row_id)->Ok_0;
            &&& id == derived_id(row_id, month.year as int, month.month as nat)
            &&& filled.df.rows.len() == month.df.rows.len() + 1
            &&& is_expense_row(
                filled.df,
                month.df.rows.len() as int,
                id,
                name,
                (month.year as int, month.month as int, day as int),
                amount,
                currency,
                normalized(normalized(primary)),
                normalized(normalized(secondary)),
            )
        }),
{
    let after = template_added(
        templates,
        row_id,
        name,
        day,
        amount,
        currency,
        primary,
        secondary,
    )->Ok_0;
    a_template_generates_what_was_given(
        templates,
        row_id,
        name,
        day,
        amount,
        currency,
        primary,
        secondary,
        month.year as int,
        month.month as nat,
    );
    let n = templates.df.rows.len() as int;
    lemma_grown_column(templates.df, after.df, ROW_ID_COLUMN@);
    let c = templates.df.column_of(ROW_ID_COLUMN@);
    lemma_matching_rows(templates.df.rows, c, row_id, n);
    assert forall|k: int| 0 <= k < n implies #[trigger] after.df.at(k, "row_id"@)
        != CellView::Text(row_id) by {
        assert(after.df.rows[k][c] == templates.df.rows[k][c]);
        if templates.df.rows[k][c] == CellView::Text(row_id) {
            assert(matching_rows(templates.df.rows, c, row_id, n).contains(k));
        }
    }
    a_row_asked_back_is_that_of_its_template(after, month, row_id, n);
}

/// A month has a generated row exactly where one of its rows has the id, or has the
/// name and stands on the day.
pub proof fn a_generated_row_is_known_by_its_id_or_name_and_day(df: TableView, row: PendingView)
    ensures
        has_generated(df, row) <==> exists|r: int|
            0 <= r < df.rows.len() && (#[trigger] df.at(r, "row_id"@) == CellView::Text(row.row_id)
                || (df.at(r, "expense_name"@) == CellView::Text(row.name) && (df.at(
                r,
                "expense_date"@,
            ) matches CellView::Date(days) && is_day(days as int) && civil(days as int).2
                == row.day))),
{
    if has_generated(df, row) {
        let r = choose|r: int| 0 <= r < df.rows.len() && stands_for(df, #[trigger] df.rows[r], row);
        assert(df.at(r, "row_id"@) == df.rows[r][df.column_of("row_id"@)]);
    }
    if exists|r: int|
        0 <= r < df.rows.len() && (#[trigger] df.at(r, "row_id"@) == CellView::Text(row.row_id) || (
        df.at(r, "expense_name"@) == CellView::Text(row.name) && (df.at(
            r,
            "expense_date"@,
        ) matches CellView::Date(days) && is_day(days as int) && civil(days as int).2 == row.day))) {
        let r = choose|r: int|
            0 <= r < df.rows.len() && (#[trigger] df.at(r, "row_id"@) == CellView::Text(row.row_id)
                || (df.at(r, "expense_name"@) == CellView::Text(row.name) && (df.at(
                r,
                "expense_date"@,
            ) matches CellView::Date(days) && is_day(days as int) && civil(days as int).2
                == row.day)));
        assert(stands_for(df, df.rows[r], row));
    }
}

/// What is told of an application is what was inserted: the names are those of the rows
/// that were recorded, in their order, and each of them is recorded as generated, under
/// its own id.
pub proof fn the_names_told_are_those_of_the_rows_inserted(
    month: ExpensesView,
    rows: Seq<PendingView>,
    n: int,
) -> (places: Seq<int>)
    requires
        0 <= n <= rows.len(),
    ensures
        ({
            let done = rows_inserted(month, rows, n);
            let base = month.changes.len() as int;
            &&& places.len() == done.names.len()
            &&& done.month.changes.len() == base + places.len()
            &&& done.month.changes.take(base) == month.changes
            &&& forall|k: int|
                0 <= k < places.len() ==> {
                    &&& 0 <= #[trigger] places[k] < n
                    &&& done.names[k] == rows[places[k]].name
                    &&& done.month.changes[base + k].row_id == rows[places[k]].row_id
                    &&& done.month.changes[base + k].origin == Some(OriginView::RecurringApply)
                    &&& done.month.changes[base + k].table == (ChangeTable::Expenses {
                        year: month.year,
                        month: month.month,
                    })
                }
            &&& forall|k: int, l: int|
                0 <= k < l < places.len() ==> #[trigger] places[k] < #[trigger] places[l]
            &&& done.month.year == month.year
            &&& done.month.month == month.month
        }),
    decreases n,
{
    let base = month.changes.len() as int;
    if n <= 0 {
        assert(month.changes.take(base) =~= month.changes);
        Seq::empty()
    } else {
        let before = rows_inserted(month, rows, n - 1);
        let done = rows_inserted(month, rows, n);
        let front = the_names_told_are_those_of_the_rows_inserted(month, rows, n - 1);
        if done.names.len() == before.names.len() {
            assert(done.month == before.month);
            front
        } else {
            let places = front.push(n - 1);
            assert(done.month.changes.take(base) =~= before.month.changes.take(base));
            assert forall|k: int| 0 <= k < places.len() implies {
                &&& 0 <= #[trigger] places[k] < n
                &&& done.names[k] == rows[places[k]].name
                &&& done.month.changes[base + k].row_id == rows[places[k]].row_id
                &&& done.month.changes[base + k].origin == Some(OriginView::RecurringApply)
                &&& done.month.changes[base + k].table == (ChangeTable::Expenses {
                    year: month.year,
                    month: month.month,
                })
            } by {
                if k < front.len() {
                    assert(places[k] == front[k]);
                    assert(done.names[k] == before.names[k]);
                    assert(done.month.changes[base + k] == before.month.changes[base + k]);
                }
            }
            places
        }
    }
}

} // verus!
