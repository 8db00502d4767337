//! What holds of generated rows whatever the month and the log.

use vstd::prelude::*;
use crate::error::ErrorView;
use crate::expense_laws::{
    an_added_expense_is_there, grows, lemma_found_in_grown, lemma_grown_column,
};
use crate::expenses::{month_table, ExpensesView};
use crate::frames::holds_row_id;
use crate::merge::stays_deleted;
use crate::merge_apply::{lemma_matching_rows, ROW_ID_COLUMN};
use crate::recurring::{
    apply_plan, derived_id, generated_rows, has_generated, lacks_columns, of_template,
    pending_input, reinstated, rows_inserted, split, stands_for, PendingView, RecurringView,
};
use crate::sync::{ChangeTable, EntryView, OriginView};
use crate::table::{matching_rows, TableView};
use crate::text::{decimal, decimal_digits_spell_their_number, padded};

verus! {

/// Every row that the templates generate is in the month already, or to be
/// generated, or deleted by the user: what is to be generated is neither there nor
/// deleted, and what is skipped is not there and deleted.
pub proof fn every_row_is_there_or_pending_or_skipped(
    rows: Seq<PendingView>,
    n: int,
    df: TableView,
    log: Seq<EntryView>,
    table: ChangeTable,
)
    requires
        0 <= n <= rows.len(),
    ensures
        ({
            let plan = split(rows, n, df, log, table);
            &&& forall|i: int|
                0 <= i < n ==> has_generated(df, #[trigger] rows[i]) || plan.pending.contains(
                    rows[i],
                ) || plan.skipped.contains(rows[i])
            &&& forall|k: int|
                0 <= k < plan.pending.len() ==> !has_generated(df, #[trigger] plan.pending[k])
                    && !stays_deleted(log, table, plan.pending[k].row_id) && rows.contains(
                    plan.pending[k],
                )
            &&& forall|k: int|
                0 <= k < plan.skipped.len() ==> !has_generated(df, #[trigger] plan.skipped[k])
                    && stays_deleted(log, table, plan.skipped[k].row_id) && rows.contains(
                    plan.skipped[k],
                )
        }),
    decreases n,
{
    if n > 0 {
        every_row_is_there_or_pending_or_skipped(rows, n - 1, df, log, table);
        let before = split(rows, n - 1, df, log, table);
        let plan = split(rows, n, df, log, table);
        let row = rows[n - 1];
        assert(rows.contains(row));
        if !has_generated(df, row) {
            if stays_deleted(log, table, row.row_id) {
                assert(plan.skipped[before.skipped.len() as int] == row);
            } else {
                assert(plan.pending[before.pending.len() as int] == row);
            }
        }
        assert forall|i: int| 0 <= i < n implies has_generated(df, #[trigger] rows[i])
            || plan.pending.contains(rows[i]) || plan.skipped.contains(rows[i]) by {
            if i < n - 1 {
                if before.pending.contains(rows[i]) {
                    let k = choose|k: int| 0 <= k < before.pending.len() && before.pending[k] == rows[i];
                    assert(plan.pending[k] == rows[i]);
                }
                if before.skipped.contains(rows[i]) {
                    let k = choose|k: int| 0 <= k < before.skipped.len() && before.skipped[k] == rows[i];
                    assert(plan.skipped[k] == rows[i]);
                }
            }
        }
        assert forall|k: int| 0 <= k < plan.pending.len() implies !has_generated(
            df,
            #[trigger] plan.pending[k],
        ) && !stays_deleted(log, table, plan.pending[k].row_id) && rows.contains(
            plan.pending[k],
        ) by {
            if k < before.pending.len() {
                assert(plan.pending[k] == before.pending[k]);
            }
        }
        assert forall|k: int| 0 <= k < plan.skipped.len() implies !has_generated(
            df,
            #[trigger] plan.skipped[k],
        ) && stays_deleted(log, table, plan.skipped[k].row_id) && rows.contains(
            plan.skipped[k],
        ) by {
            if k < before.skipped.len() {
                assert(plan.skipped[k] == before.skipped[k]);
            }
        }
    }
}

/// Inserting rows keeps what the month has, and puts every one of them there under
/// its id.
pub proof fn inserted_rows_are_there(month: ExpensesView, rows: Seq<PendingView>, n: int)
    requires
        month.df.wf(),
        0 <= n <= rows.len(),
        rows_inserted(month, rows, n).failure is None,
    ensures
        grows(month.df, rows_inserted(month, rows, n).month.df),
        rows_inserted(month, rows, n).month.year == month.year,
        rows_inserted(month, rows, n).month.month == month.month,
        forall|i: int|
            0 <= i < n ==> holds_row_id(
                rows_inserted(month, rows, n).month.df,
                (#[trigger] rows[i]).row_id,
            ) == Ok::<bool, ErrorView>(true),
    decreases n,
{
    if n > 0 {
        let before = rows_inserted(month, rows, n - 1);
        let after = rows_inserted(month, rows, n);
        assert(before.failure is None);
        inserted_rows_are_there(month, rows, n - 1);
        let row = rows[n - 1];
        if holds_row_id(before.month.df, row.row_id) == Ok::<bool, ErrorView>(false) {
            an_added_expense_is_there(
                before.month,
                row.row_id,
                pending_input(row),
                None,
                Some(OriginView::RecurringApply),
            );
            lemma_grows_on(month.df, before.month.df, after.month.df);
            assert forall|i: int| 0 <= i < n implies holds_row_id(
                after.month.df,
                (#[trigger] rows[i]).row_id,
            ) == Ok::<bool, ErrorView>(true) by {
                if i < n - 1 {
                    lemma_found_in_grown(before.month.df, after.month.df, rows[i].row_id);
                }
            }
        }
    }
}

/// What a table that grew twice holds.
pub proof fn lemma_grows_on(a: TableView, b: TableView, c: TableView)
    requires
        grows(a, b),
        grows(b, c),
    ensures
        grows(a, c),
{
    assert forall|i: int| 0 <= i < a.columns.len() implies (#[trigger] c.columns[i])
        == a.columns[i] by {
        assert(b.columns[i] == a.columns[i]);
    }
    assert forall|r: int, i: int|
        #![trigger c.rows[r][i]]
        0 <= r < a.rows.len() && 0 <= i < a.columns.len() implies c.rows[r][i] == a.rows[r][i] by {
        assert(b.rows[r][i] == a.rows[r][i]);
    }
}

/// A month that has grown still has the rows it had.
proof fn lemma_still_generated(before: TableView, after: TableView, row: PendingView)
    requires
        before.wf(),
        grows(before, after),
        lacks_columns(before) is None,
        has_generated(before, row),
    ensures
        has_generated(after, row),
{
    lemma_grown_column(before, after, ROW_ID_COLUMN@);
    lemma_grown_column(before, after, "expense_name"@);
    lemma_grown_column(before, after, "expense_date"@);
    let i = choose|i: int|
        0 <= i < before.rows.len() && stands_for(before, #[trigger] before.rows[i], row);
    let c = before.column_of(ROW_ID_COLUMN@);
    let d = before.column_of("expense_name"@);
    let e = before.column_of("expense_date"@);
    assert(after.rows[i][c] == before.rows[i][c]);
    assert(after.rows[i][d] == before.rows[i][d]);
    assert(after.rows[i][e] == before.rows[i][e]);
    assert(stands_for(after, after.rows[i], row));
}

/// A row whose id a month has is there.
proof fn lemma_held_is_generated(df: TableView, row: PendingView)
    requires
        holds_row_id(df, row.row_id) == Ok::<bool, ErrorView>(true),
    ensures
        has_generated(df, row),
{
    let c = df.column_of(ROW_ID_COLUMN@);
    let n = df.rows.len() as int;
    lemma_matching_rows(df.rows, c, row.row_id, n);
    let i = matching_rows(df.rows, c, row.row_id, n)[0];
    assert(stands_for(df, df.rows[i], row));
}

proof fn lemma_nothing_pending(
    rows: Seq<PendingView>,
    n: int,
    df: TableView,
    log: Seq<EntryView>,
    table: ChangeTable,
)
    requires
        0 <= n <= rows.len(),
        forall|i: int|
            0 <= i < n ==> has_generated(df, #[trigger] rows[i]) || stays_deleted(
                log,
                table,
                rows[i].row_id,
            ),
    ensures
        split(rows, n, df, log, table).pending.len() == 0,
    decreases n,
{
    if n > 0 {
        lemma_nothing_pending(rows, n - 1, df, log, table);
    }
}

/// Once what a month still needed has been put there, it needs nothing more.
pub proof fn applying_again_adds_nothing(
    templates: TableView,
    month: ExpensesView,
    log: Seq<EntryView>,
)
    requires
        month.df.wf(),
        apply_plan(templates, month, log) is Ok,
        ({
            let pending = apply_plan(templates, month, log)->Ok_0.pending;
            rows_inserted(month, pending, pending.len() as int).failure is None
        }),
    ensures
        ({
            let pending = apply_plan(templates, month, log)->Ok_0.pending;
            let after = rows_inserted(month, pending, pending.len() as int).month;
            apply_plan(templates, after, log) matches Ok(plan) && plan.pending.len() == 0
        }),
{
    let plan = apply_plan(templates, month, log)->Ok_0;
    let pending = plan.pending;
    let after = rows_inserted(month, pending, pending.len() as int).month;
    let rows = generated_rows(templates, month.year as int, month.month as nat)->Ok_0;
    let n = rows.len() as int;
    let table = month_table(month.year, month.month);
    inserted_rows_are_there(month, pending, pending.len() as int);
    every_row_is_there_or_pending_or_skipped(rows, n, month.df, log, table);
    if n > 0 {
        assert(lacks_columns(month.df) is None);
        lemma_grown_column(month.df, after.df, ROW_ID_COLUMN@);
        lemma_grown_column(month.df, after.df, "expense_name"@);
        lemma_grown_column(month.df, after.df, "expense_date"@);
        assert(after.df.columns[month.df.column_of(ROW_ID_COLUMN@)]
            == month.df.columns[month.df.column_of(ROW_ID_COLUMN@)]);
        assert(after.df.columns[month.df.column_of("expense_name"@)] == month.df.columns[month.df.column_of("expense_name"@)]);
        assert(after.df.columns[month.df.column_of("expense_date"@)] == month.df.columns[month.df.column_of("expense_date"@)]);
        assert(lacks_columns(after.df) is None);
        assert forall|i: int| 0 <= i < n implies has_generated(after.df, #[trigger] rows[i])
            || stays_deleted(log, table, rows[i].row_id) by {
            if has_generated(month.df, rows[i]) {
                lemma_still_generated(month.df, after.df, rows[i]);
            } else if pending.contains(rows[i]) {
                let k = choose|k: int| 0 <= k < pending.len() && pending[k] == rows[i];
                assert(holds_row_id(after.df, pending[k].row_id) == Ok::<bool, ErrorView>(true));
                lemma_held_is_generated(after.df, rows[i]);
            } else {
                let k = choose|k: int| 0 <= k < plan.skipped.len() && plan.skipped[k] == rows[i];
                assert(stays_deleted(log, table, plan.skipped[k].row_id));
            }
        }
        lemma_nothing_pending(rows, n, after.df, log, table);
    }
}

/// Asking a row back twice creates it once: the second time the month stays as it
/// is.
pub proof fn reinstating_twice_creates_one_row(
    templates: RecurringView,
    month: ExpensesView,
    template: Seq<char>,
)
    requires
        month.df.wf(),
        reinstated(templates, month, template) is Ok,
    ensures
        ({
            let (after, row_id, created) = reinstated(templates, month, template)->Ok_0;
            reinstated(templates, after, template) == Ok::<
                (ExpensesView, Seq<char>, bool),
                ErrorView,
            >((after, row_id, false))
        }),
{
    let (after, row_id, created) = reinstated(templates, month, template)->Ok_0;
    let rows = generated_rows(templates.df, month.year as int, month.month as nat)->Ok_0;
    let row = of_template(rows, template, rows.len() as int)->Some_0;
    if created {
        an_added_expense_is_there(month, row.row_id, pending_input(row), None, None);
    }
}

proof fn lemma_digits(n: nat, width: int)
    requires
        (width == 2 && n <= 99) || (width == 4 && n <= 9999),
    ensures
        padded(n, width).len() == width,
{
    reveal_with_fuel(decimal, 6);
}

/// The id of a generated row names its template, its year and its month.
pub proof fn a_derived_id_names_its_template_and_month(
    one: Seq<char>,
    year: int,
    month: nat,
    other: Seq<char>,
    other_year: int,
    other_month: nat,
)
    requires
        0 <= year <= 9999,
        0 <= other_year <= 9999,
        1 <= month <= 12,
        1 <= other_month <= 12,
        derived_id(one, year, month) == derived_id(other, other_year, other_month),
    ensures
        one == other,
        year == other_year,
        month == other_month,
{
    reveal_strlit(":");
    reveal_strlit("-");
    let a = derived_id(one, year, month);
    let b = derived_id(other, other_year, other_month);
    lemma_digits(year as nat, 4);
    lemma_digits(other_year as nat, 4);
    lemma_digits(month, 2);
    lemma_digits(other_month, 2);
    let n = one.len() as int;
    assert(a.len() == n + 8);
    assert(b.len() == other.len() + 8);
    assert(a.take(n) =~= one);
    assert(b.take(n) =~= other);
    assert(a.subrange(n + 1, n + 5) =~= padded(year as nat, 4));
    assert(b.subrange(n + 1, n + 5) =~= padded(other_year as nat, 4));
    assert(a.subrange(n + 6, n + 8) =~= padded(month, 2));
    assert(b.subrange(n + 6, n + 8) =~= padded(other_month, 2));
    decimal_digits_spell_their_number(year as nat, 4);
    decimal_digits_spell_their_number(other_year as nat, 4);
    decimal_digits_spell_their_number(month, 2);
    decimal_digits_spell_their_number(other_month, 2);
}

} // verus!
