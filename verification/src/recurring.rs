//! Expenses that come back every month, and the rows they generate.
//!
//! A generated row has an id made of its template and its month, so that two
//! devices generate the same row. A generated row that the user deleted is not
//! generated again; the user can ask for it back.

use vstd::prelude::*;
use crate::append::{append_row, appended, is_random_id, new_row_id};
use crate::categories::{normalize_category_value, normalized};
use crate::changes::{
    change_views, record, typed, upsert_op, upsert_row, Change, ChangeView,
};
use crate::dates::{civil, is_day, Date};
use crate::error::{outcome, Error, ErrorView};
use crate::expenses::{
    expense_added, month_table, stored_view, DetailedExpenses, ExpenseInput, ExpensesView,
};
use crate::facts::{amount_in, cell_amount};
use crate::frames::{
    cell_text, euro_spelled, find_texts, find_typed, has_row_id, has_texts, has_typed, holds_row_id,
    lacks_row_ids, no_column, no_row_error, no_texts, normalize_currency_column, remove_where,
    require_row_ids, require_single_row, row_ids_error, single_row, target_column_error, text_in,
    without_matches,
};
use crate::merge::{generated_row_stays_deleted, stays_deleted};
use crate::merge_apply::{key_column_error, ROW_ID_COLUMN};
use crate::paths::{get_year_summary_path, year_path, RECURRING_EXPENSES_FILENAME};
use crate::numbers::FloatBits;
use crate::sync::{
    views, ChangeEntry, ChangeOp, ChangeOrigin, ChangeTable, EntryView, OpView, OriginView,
};
use crate::table::{
    cell_views, column_views, names_differ, row_fits, Cell, CellView, Column, ColumnView, DataType,
    DataTypeView, Table, TableView,
};
use crate::text::{padded, push_padded, push_signed, same_text, signed_decimal, texts};

verus! {

/// The columns of the templates of a year.
pub open spec fn recurring_columns() -> Seq<ColumnView> {
    seq![
        ColumnView { name: "expense_name"@, dtype: DataTypeView::Text },
        ColumnView { name: "expense_day"@, dtype: DataTypeView::Int64 },
        ColumnView { name: "expense_amount"@, dtype: DataTypeView::Float64 },
        ColumnView { name: "currency"@, dtype: DataTypeView::Text },
        ColumnView { name: "primary_category"@, dtype: DataTypeView::Text },
        ColumnView { name: "secondary_category"@, dtype: DataTypeView::Text },
        ColumnView { name: ROW_ID_COLUMN@, dtype: DataTypeView::Text },
    ]
}

/// The columns of the templates have different names.
pub proof fn lemma_recurring_columns()
    ensures
        names_differ(recurring_columns()),
{
    reveal_strlit("expense_name");
    reveal_strlit("expense_day");
    reveal_strlit("expense_amount");
    reveal_strlit("currency");
    reveal_strlit("primary_category");
    reveal_strlit("secondary_category");
    reveal_strlit("row_id");
    let all = recurring_columns();
    assert(all[0].name.len() == 12);
    assert(all[1].name.len() == 11);
    assert(all[2].name.len() == 14);
    assert(all[3].name.len() == 8);
    assert(all[4].name.len() == 16);
    assert(all[5].name.len() == 18);
    assert(all[6].name.len() == 6);
    assert forall|i: int, j: int| 0 <= i < j < all.len() implies (#[trigger] all[i]).name != (
    #[trigger] all[j]).name by {
        assert(all[i].name.len() != all[j].name.len());
    }
}

fn columns_of_templates() -> (r: Vec<Column>)
    ensures
        column_views(r@) == recurring_columns(),
        names_differ(recurring_columns()),
{
    let mut columns: Vec<Column> = Vec::new();
    columns.push(Column::of("expense_name", DataType::Text));
    columns.push(Column::of("expense_day", DataType::Int64));
    columns.push(Column::of("expense_amount", DataType::Float64));
    columns.push(Column::of("currency", DataType::Text));
    columns.push(Column::of("primary_category", DataType::Text));
    columns.push(Column::of("secondary_category", DataType::Text));
    columns.push(Column::of(ROW_ID_COLUMN, DataType::Text));
    proof {
        lemma_recurring_columns();
        assert(column_views(columns@) =~= recurring_columns());
    }
    columns
}

/// No templates.
pub fn empty_recurring_df() -> (r: Table)
    ensures
        r@ == (TableView { columns: recurring_columns(), rows: Seq::empty() }),
{
    Table::with_columns(columns_of_templates())
}

/// A row that a template generates in a month.
#[derive(Debug, PartialEq, Eq)]
pub struct PendingRecurringRow {
    /// The id of the row: that of the template and the month.
    pub row_id: String,
    /// The id of the template.
    pub template_row_id: String,
    pub expense_name: String,
    /// The day of the month the row lands on.
    pub expense_day: u32,
    /// The amount, in `currency`.
    pub expense_amount: FloatBits,
    pub currency: String,
    pub primary_category: String,
    pub secondary_category: String,
}

/// What a [`PendingRecurringRow`] says.
pub struct PendingView {
    pub row_id: Seq<char>,
    pub template: Seq<char>,
    pub name: Seq<char>,
    pub day: u32,
    pub amount: FloatBits,
    pub currency: Seq<char>,
    pub primary: Seq<char>,
    pub secondary: Seq<char>,
}

impl View for PendingRecurringRow {
    type V = PendingView;

    open spec fn view(&self) -> PendingView {
        PendingView {
            row_id: self.row_id@,
            template: self.template_row_id@,
            name: self.expense_name@,
            day: self.expense_day,
            amount: self.expense_amount,
            currency: self.currency@,
            primary: self.primary_category@,
            secondary: self.secondary_category@,
        }
    }
}

impl Clone for PendingRecurringRow {
    fn clone(&self) -> (r: Self)
        ensures
            r@ == self@,
    {
        PendingRecurringRow {
            row_id: self.row_id.clone(),
            template_row_id: self.template_row_id.clone(),
            expense_name: self.expense_name.clone(),
            expense_day: self.expense_day,
            expense_amount: self.expense_amount,
            currency: self.currency.clone(),
            primary_category: self.primary_category.clone(),
            secondary_category: self.secondary_category.clone(),
        }
    }
}

/// What the rows of a list say.
pub open spec fn pending_views(rows: Seq<PendingRecurringRow>) -> Seq<PendingView> {
    Seq::new(rows.len(), |i: int| rows[i]@)
}

/// What is generated for a month, and what is not.
#[derive(Debug, PartialEq, Eq)]
pub struct RecurringApplyPlan {
    /// The rows to generate.
    pub pending: Vec<PendingRecurringRow>,
    /// The rows that the user deleted, and that are not generated for that.
    pub skipped: Vec<PendingRecurringRow>,
}

/// What a [`RecurringApplyPlan`] says.
#[verifier::ext_equal]
pub struct ApplyView {
    pub pending: Seq<PendingView>,
    pub skipped: Seq<PendingView>,
}

impl View for RecurringApplyPlan {
    type V = ApplyView;

    open spec fn view(&self) -> ApplyView {
        ApplyView {
            pending: pending_views(self.pending@),
            skipped: pending_views(self.skipped@),
        }
    }
}

impl Default for RecurringApplyPlan {
    /// Nothing to generate and nothing skipped.
    fn default() -> (r: Self)
        ensures
            r@ == (ApplyView { pending: Seq::empty(), skipped: Seq::empty() }),
    {
        let r = RecurringApplyPlan { pending: Vec::new(), skipped: Vec::new() };
        assert(pending_views(r.pending@) =~= Seq::empty());
        assert(pending_views(r.skipped@) =~= Seq::empty());
        r
    }
}

/// What asking a row back did.
#[derive(Debug, PartialEq, Eq)]
pub struct ReinstatedRow {
    /// The id of the row in the month.
    pub row_id: String,
    /// False when the month had the row already and nothing was written.
    pub created: bool,
}

/// A year in four digits at least, its sign counted.
pub open spec fn year_digits(year: int) -> Seq<char> {
    if year < 0 {
        "-"@ + padded((-year) as nat, 3)
    } else {
        padded(year as nat, 4)
    }
}

/// The id of the row that a template generates in a month.
pub open spec fn derived_id(template: Seq<char>, year: int, month: nat) -> Seq<char> {
    template + ":"@ + year_digits(year) + "-"@ + padded(month, 2)
}

/// The id of the row that a template generates in a month.
pub fn derived_recurring_row_id(template_row_id: &str, year: i32, month: u32) -> (r: String)
    ensures
        r@ == derived_id(template_row_id@, year as int, month as nat),
{
    let id = template_row_id.to_owned().concat(":");
    let mut id = if year < 0 {
        let mut id = id.concat("-");
        push_padded(&mut id, (-(year as i64)) as u64, 3);
        id
    } else {
        let mut id = id;
        push_padded(&mut id, year as u64, 4);
        id
    };
    assert(id@ =~= template_row_id@ + ":"@ + year_digits(year as int));
    let mut id = id.concat("-");
    push_padded(&mut id, month as u64, 2);
    id
}

/// The templates of a year, and what to record of the changes to them.
pub struct RecurringExpenses {
    /// The year of the templates.
    pub year: i32,
    /// The templates.
    pub df: Table,
    /// The changes to record, once the templates are saved.
    pub changes: Vec<Change>,
}

/// What [`RecurringExpenses`] hold.
#[verifier::ext_equal]
pub struct RecurringView {
    pub year: i32,
    pub df: TableView,
    pub changes: Seq<ChangeView>,
}

impl View for RecurringExpenses {
    type V = RecurringView;

    open spec fn view(&self) -> RecurringView {
        RecurringView { year: self.year, df: self.df@, changes: change_views(self.changes@) }
    }
}

/// The templates a year starts out with: those of its file, or none.
pub open spec fn first_templates(stored: Option<TableView>, path: Seq<char>) -> Result<
    TableView,
    ErrorView,
> {
    match stored {
        Some(df) => if lacks_row_ids(df) {
            Err(row_ids_error(path))
        } else {
            euro_spelled(df)
        },
        None => Ok(TableView { columns: recurring_columns(), rows: Seq::empty() }),
    }
}

/// A day that not every month has.
pub open spec fn day_error(day: i64) -> ErrorView {
    ErrorView::InvalidArgument(
        "expense_day must be between 1 and 28, got "@ + signed_decimal(day as int),
    )
}

/// The cells of a new template, in the order of the columns.
pub open spec fn template_cells(
    row_id: Seq<char>,
    name: Seq<char>,
    day: i64,
    amount: FloatBits,
    currency: Seq<char>,
    primary: Seq<char>,
    secondary: Seq<char>,
) -> Seq<CellView> {
    seq![
        CellView::Text(name),
        CellView::Int(day),
        CellView::Float(amount),
        CellView::Text(currency),
        CellView::Text(normalized(primary)),
        CellView::Text(normalized(secondary)),
        CellView::Text(row_id),
    ]
}

/// The templates with one more, and the whole row to record.
pub open spec fn template_added(
    templates: RecurringView,
    row_id: Seq<char>,
    name: Seq<char>,
    day: i64,
    amount: FloatBits,
    currency: Seq<char>,
    primary: Seq<char>,
    secondary: Seq<char>,
) -> Result<RecurringView, ErrorView> {
    if !(1 <= day <= 28) {
        Err(day_error(day))
    } else {
        match appended(
            templates.df,
            recurring_columns(),
            template_cells(row_id, name, day, amount, currency, primary, secondary),
        ) {
            Err(e) => Err(e),
            Ok(df) => Ok(
                RecurringView {
                    df,
                    changes: templates.changes.push(
                        typed(
                            ChangeTable::Recurring { year: templates.year },
                            row_id,
                            upsert_op(df, row_id),
                        ),
                    ),
                    ..templates
                },
            ),
        }
    }
}

/// The templates without one, and its deletion to record.
pub open spec fn template_removed(templates: RecurringView, row_id: Seq<char>) -> Result<
    RecurringView,
    ErrorView,
> {
    match single_row(
        templates.df,
        row_id,
        "recurring expense"@,
        signed_decimal(templates.year as int),
    ) {
        Err(e) => Err(e),
        Ok(()) => match without_matches(templates.df, ROW_ID_COLUMN@, row_id) {
            Err(e) => Err(e),
            Ok(df) => Ok(
                RecurringView {
                    df,
                    changes: templates.changes.push(
                        typed(
                            ChangeTable::Recurring { year: templates.year },
                            row_id,
                            Ok(OpView::Delete),
                        ),
                    ),
                    ..templates
                },
            ),
        },
    }
}

/// The day of a template; an empty cell is zero, and of a number too large only
/// the low thirty two bits count.
pub open spec fn template_day(cell: CellView) -> u32 {
    match cell {
        CellView::Int(day) => (day as int % 0x1_0000_0000) as u32,
        _ => 0,
    }
}

fn day_of(cell: &Cell) -> (r: u32)
    ensures
        r == template_day(cell@),
{
    match cell {
        Cell::Int(day) => {
            let wrapped: u64 = *day as u64;
            let low: u64 = wrapped % 0x1_0000_0000;
            proof {
                let n = *day;
                assert(wrapped == n as u64);
                assert((n as u64) as int == n as int || (n as u64) as int == n as int
                    + 0x1_0000_0000_0000_0000) by {
                    if n >= 0 {
                        assert(n >= 0 ==> (n as u64) as int == n as int) by (bit_vector);
                    } else {
                        assert(n < 0 ==> (n as u64) as int == n as int + 0x1_0000_0000_0000_0000)
                            by (bit_vector);
                    }
                }
                assert(low as int == n as int % 0x1_0000_0000) by {
                    if (n as u64) as int != n as int {
                        vstd::arithmetic::div_mod::lemma_mod_multiples_vanish(
                            0x1_0000_0000,
                            n as int,
                            0x1_0000_0000,
                        );
                    }
                }
            }
            low as u32
        },
        _ => 0,
    }
}

/// The row that a template generates in a month.
pub open spec fn generated(df: TableView, i: int, year: int, month: nat) -> PendingView {
    let row = df.rows[i];
    let template = cell_text(row[df.column_of(ROW_ID_COLUMN@)]);
    PendingView {
        row_id: derived_id(template, year, month),
        template,
        name: cell_text(row[df.column_of("expense_name"@)]),
        day: template_day(row[df.column_of("expense_day"@)]),
        amount: cell_amount(row[df.column_of("expense_amount"@)]),
        currency: cell_text(row[df.column_of("currency"@)]),
        primary: cell_text(row[df.column_of("primary_category"@)]),
        secondary: cell_text(row[df.column_of("secondary_category"@)]),
    }
}

/// The rows that the templates generate in a month, or which column they lack.
pub open spec fn generated_rows(df: TableView, year: int, month: nat) -> Result<
    Seq<PendingView>,
    ErrorView,
> {
    if !has_texts(df, "expense_name"@) {
        Err(key_column_error("expense_name"@))
    } else if !has_typed(df, "expense_day"@, DataTypeView::Int64) {
        Err(target_column_error("expense_day"@))
    } else if !has_typed(df, "expense_amount"@, DataTypeView::Float64) {
        Err(target_column_error("expense_amount"@))
    } else if !has_texts(df, "currency"@) {
        Err(key_column_error("currency"@))
    } else if !has_texts(df, "primary_category"@) {
        Err(key_column_error("primary_category"@))
    } else if !has_texts(df, "secondary_category"@) {
        Err(key_column_error("secondary_category"@))
    } else if !has_texts(df, ROW_ID_COLUMN@) {
        Err(key_column_error(ROW_ID_COLUMN@))
    } else {
        Ok(Seq::new(df.rows.len(), |i: int| generated(df, i, year, month)))
    }
}

/// Whether a row of a month stands for a generated one: it has its id, or its name
/// and its day. A date outside the calendar stands on no day.
pub open spec fn stands_for(df: TableView, row: Seq<CellView>, pending: PendingView) -> bool {
    ||| row[df.column_of(ROW_ID_COLUMN@)] == CellView::Text(pending.row_id)
    ||| {
        &&& row[df.column_of("expense_name"@)] == CellView::Text(pending.name)
        &&& row[df.column_of("expense_date"@)] matches CellView::Date(days) && is_day(
            days as int,
        ) && civil(days as int).2 == pending.day
    }
}

/// Whether a month has a generated row already.
pub open spec fn has_generated(df: TableView, pending: PendingView) -> bool {
    exists|i: int| 0 <= i < df.rows.len() && stands_for(df, #[trigger] df.rows[i], pending)
}

/// Which column a month lacks to tell which rows it has.
pub open spec fn lacks_columns(df: TableView) -> Option<ErrorView> {
    if !has_texts(df, "expense_name"@) {
        Some(key_column_error("expense_name"@))
    } else if !has_typed(df, "expense_date"@, DataTypeView::Date) {
        Some(target_column_error("expense_date"@))
    } else if !has_texts(df, ROW_ID_COLUMN@) {
        Some(key_column_error(ROW_ID_COLUMN@))
    } else {
        None
    }
}

/// What of the first `n` rows is to be generated, and what the user has deleted.
/// A row that the month has is neither.
pub open spec fn split(
    rows: Seq<PendingView>,
    n: int,
    df: TableView,
    log: Seq<EntryView>,
    table: ChangeTable,
) -> ApplyView
    decreases n,
{
    if n <= 0 {
        ApplyView { pending: Seq::empty(), skipped: Seq::empty() }
    } else {
        let plan = split(rows, n - 1, df, log, table);
        let row = rows[n - 1];
        if has_generated(df, row) {
            plan
        } else if stays_deleted(log, table, row.row_id) {
            ApplyView { skipped: plan.skipped.push(row), ..plan }
        } else {
            ApplyView { pending: plan.pending.push(row), ..plan }
        }
    }
}

/// What is to be generated in a month.
pub open spec fn apply_plan(
    templates: TableView,
    month: ExpensesView,
    log: Seq<EntryView>,
) -> Result<ApplyView, ErrorView> {
    match generated_rows(templates, month.year as int, month.month as nat) {
        Err(e) => Err(e),
        Ok(rows) => match lacks_columns(month.df) {
            Some(e) if rows.len() > 0 => Err(e),
            _ => Ok(
                split(
                    rows,
                    rows.len() as int,
                    month.df,
                    log,
                    month_table(month.year, month.month),
                ),
            ),
        },
    }
}

/// The expense that a generated row is.
pub open spec fn pending_input(row: PendingView) -> ExpenseInput {
    ExpenseInput {
        name: row.name,
        day: row.day,
        amount: row.amount,
        primary: Some(row.primary),
        currency: row.currency,
        secondary: Some(row.secondary),
    }
}

/// How far inserting rows came: the month, the names that were inserted, and what
/// stopped it.
pub struct Insertion {
    pub month: ExpensesView,
    pub names: Seq<Seq<char>>,
    pub failure: Option<ErrorView>,
}

/// A month with the first `n` rows inserted, those whose id it has left out. It
/// stops at the first that cannot be inserted.
pub open spec fn rows_inserted(month: ExpensesView, rows: Seq<PendingView>, n: int) -> Insertion
    decreases n,
{
    if n <= 0 {
        Insertion { month, names: Seq::empty(), failure: None }
    } else {
        let before = rows_inserted(month, rows, n - 1);
        let row = rows[n - 1];
        if before.failure is Some {
            before
        } else {
            match holds_row_id(before.month.df, row.row_id) {
                Err(e) => Insertion { failure: Some(e), ..before },
                Ok(true) => before,
                Ok(false) => match expense_added(
                    before.month,
                    row.row_id,
                    pending_input(row),
                    None,
                    Some(OriginView::RecurringApply),
                ) {
                    Err(e) => Insertion { failure: Some(e), ..before },
                    Ok(after) => Insertion {
                        month: after,
                        names: before.names.push(row.name),
                        failure: None,
                    },
                },
            }
        }
    }
}

proof fn lemma_insertion_stops(month: ExpensesView, rows: Seq<PendingView>, n: int, m: int)
    requires
        n <= m,
        rows_inserted(month, rows, n).failure is Some,
    ensures
        rows_inserted(month, rows, m) == rows_inserted(month, rows, n),
    decreases m - n,
{
    if n < m {
        lemma_insertion_stops(month, rows, n, m - 1);
    }
}

/// The first row of a template among the first `n`.
pub open spec fn of_template(rows: Seq<PendingView>, template: Seq<char>, n: int) -> Option<
    PendingView,
>
    decreases n,
{
    if n <= 0 {
        None
    } else {
        match of_template(rows, template, n - 1) {
            Some(row) => Some(row),
            None => if rows[n - 1].template == template {
                Some(rows[n - 1])
            } else {
                None
            },
        }
    }
}

/// A month with a row asked back: the month, the id of the row, and whether it was
/// created.
pub open spec fn reinstated(
    templates: RecurringView,
    month: ExpensesView,
    template: Seq<char>,
) -> Result<(ExpensesView, Seq<char>, bool), ErrorView> {
    let place = signed_decimal(templates.year as int);
    match single_row(templates.df, template, "recurring expense"@, place) {
        Err(e) => Err(e),
        Ok(()) => match generated_rows(templates.df, month.year as int, month.month as nat) {
            Err(e) => Err(e),
            Ok(rows) => match of_template(rows, template, rows.len() as int) {
                None => Err(no_row_error("recurring expense"@, template, place)),
                Some(row) => match holds_row_id(month.df, row.row_id) {
                    Err(e) => Err(e),
                    Ok(true) => Ok((month, row.row_id, false)),
                    Ok(false) => match expense_added(
                        month,
                        row.row_id,
                        pending_input(row),
                        None,
                        None,
                    ) {
                        Err(e) => Err(e),
                        Ok(after) => Ok((after, row.row_id, true)),
                    },
                },
            },
        },
    }
}

proof fn lemma_of_template_stays(rows: Seq<PendingView>, template: Seq<char>, n: int, m: int)
    requires
        n <= m,
        of_template(rows, template, n) is Some,
    ensures
        of_template(rows, template, m) == of_template(rows, template, n),
    decreases m - n,
{
    if n < m {
        lemma_of_template_stays(rows, template, n, m - 1);
    }
}

/// Where the columns of a month stand that tell which rows it has.
struct MonthColumns {
    name: usize,
    date: usize,
    id: usize,
}

fn month_columns(df: &Table) -> (r: Result<MonthColumns, Error>)
    ensures
        match r {
            Ok(c) => lacks_columns(df@) is None && c.name < df@.columns.len() && c.name
                == df@.column_of("expense_name"@) && c.date < df@.columns.len() && c.date
                == df@.column_of("expense_date"@) && c.id < df@.columns.len() && c.id
                == df@.column_of(ROW_ID_COLUMN@),
            Err(e) => lacks_columns(df@) == Some(e@),
        },
{
    let name = match find_texts(df, "expense_name") {
        Some(c) => c,
        None => return Err(no_texts("expense_name")),
    };
    let date = match find_typed(df, "expense_date", &DataType::Date) {
        Some(c) => c,
        None => return Err(no_column("expense_date")),
    };
    let id = match find_texts(df, ROW_ID_COLUMN) {
        Some(c) => c,
        None => return Err(no_texts(ROW_ID_COLUMN)),
    };
    Ok(MonthColumns { name, date, id })
}

fn month_has(df: &Table, columns: &MonthColumns, row: &PendingRecurringRow) -> (r: bool)
    requires
        columns.name < df@.columns.len(),
        columns.name == df@.column_of("expense_name"@),
        columns.date < df@.columns.len(),
        columns.date == df@.column_of("expense_date"@),
        columns.id < df@.columns.len(),
        columns.id == df@.column_of(ROW_ID_COLUMN@),
    ensures
        r == has_generated(df@, row@),
{
    let mut i: usize = 0;
    while i < df.height()
        invariant
            i <= df@.rows.len(),
            columns.name < df@.columns.len(),
            columns.name == df@.column_of("expense_name"@),
            columns.date < df@.columns.len(),
            columns.date == df@.column_of("expense_date"@),
            columns.id < df@.columns.len(),
            columns.id == df@.column_of(ROW_ID_COLUMN@),
            forall|k: int| 0 <= k < i ==> !stands_for(df@, #[trigger] df@.rows[k], row@),
        decreases df@.rows.len() - i,
    {
        let same_id = df.cell_at(i, columns.id).is_text(row.row_id.as_str());
        let same_name = df.cell_at(i, columns.name).is_text(row.expense_name.as_str());
        let same_day = match df.cell_at(i, columns.date) {
            Cell::Date(days) => {
                assert(df@.rows[i as int][columns.date as int] == CellView::Date(*days));
                match Date::from_days(*days) {
                    Some(date) => date.ymd().2 == row.expense_day,
                    None => false,
                }
            },
            _ => false,
        };
        if same_id || (same_name && same_day) {
            assert(stands_for(df@, df@.rows[i as int], row@));
            return true;
        }
        i = i + 1;
    }
    false
}

impl RecurringExpenses {
    /// The templates of a year, from what its file holds, or none if there is no
    /// file. Fails for a file whose rows have no ids.
    pub fn new(year: i32, stored: Option<Table>) -> (r: Result<Self, Error>)
        ensures
            ({
                let path = year_path(year as int, RECURRING_EXPENSES_FILENAME@);
                match r {
                    Ok(templates) => templates@.year == year && templates@.changes == Seq::<
                        ChangeView,
                    >::empty() && first_templates(stored_view(stored), path) == Ok::<
                        TableView,
                        ErrorView,
                    >(templates@.df),
                    Err(e) => first_templates(stored_view(stored), path) == Err::<
                        TableView,
                        ErrorView,
                    >(e@),
                }
            }),
    {
        let path = get_year_summary_path(year, RECURRING_EXPENSES_FILENAME);
        Self::load(year, path.as_str(), stored)
    }

    /// The templates of a year that are stored at `path`.
    pub fn load(year: i32, path: &str, stored: Option<Table>) -> (r: Result<Self, Error>)
        ensures
            match r {
                Ok(templates) => templates@.year == year && templates@.changes == Seq::<
                    ChangeView,
                >::empty() && first_templates(stored_view(stored), path@) == Ok::<
                    TableView,
                    ErrorView,
                >(templates@.df),
                Err(e) => first_templates(stored_view(stored), path@) == Err::<
                    TableView,
                    ErrorView,
                >(e@),
            },
    {
        let df = match stored {
            Some(mut df) => {
                match require_row_ids(&df, path) {
                    Ok(()) => {},
                    Err(e) => return Err(e),
                }
                match normalize_currency_column(&mut df) {
                    Ok(()) => {},
                    Err(e) => return Err(e),
                }
                df
            },
            None => empty_recurring_df(),
        };
        let changes: Vec<Change> = Vec::new();
        assert(change_views(changes@) =~= Seq::empty());
        Ok(RecurringExpenses { year, df, changes })
    }

    /// Add a template under a fresh row id, which is handed back. The day has to be
    /// one that every month has.
    pub fn add(
        &mut self,
        expense_name: &str,
        expense_day: i64,
        expense_amount: FloatBits,
        currency: &str,
        primary_category: &str,
        secondary_category: &str,
    ) -> (r: Result<String, Error>)
        ensures
            match r {
                Ok(row_id) => is_random_id(row_id@) && template_added(
                    old(self)@,
                    row_id@,
                    expense_name@,
                    expense_day,
                    expense_amount,
                    currency@,
                    primary_category@,
                    secondary_category@,
                ) == Ok::<RecurringView, ErrorView>(final(self)@),
                Err(e) => final(self)@ == old(self)@ && exists|row_id: Seq<char>|
                    is_random_id(row_id) && #[trigger] template_added(
                        old(self)@,
                        row_id,
                        expense_name@,
                        expense_day,
                        expense_amount,
                        currency@,
                        primary_category@,
                        secondary_category@,
                    ) == Err::<RecurringView, ErrorView>(e@),
            },
    {
        let row_id = new_row_id();
        match self.add_with_id(
            row_id.as_str(),
            expense_name,
            expense_day,
            expense_amount,
            currency,
            primary_category,
            secondary_category,
        ) {
            Ok(()) => Ok(row_id),
            Err(e) => Err(e),
        }
    }

    /// Add a template under a given row id.
    pub fn add_with_id(
        &mut self,
        row_id: &str,
        expense_name: &str,
        expense_day: i64,
        expense_amount: FloatBits,
        currency: &str,
        primary_category: &str,
        secondary_category: &str,
    ) -> (r: Result<(), Error>)
        ensures
            match r {
                Ok(()) => template_added(
                    old(self)@,
                    row_id@,
                    expense_name@,
                    expense_day,
                    expense_amount,
                    currency@,
                    primary_category@,
                    secondary_category@,
                ) == Ok::<RecurringView, ErrorView>(final(self)@),
                Err(e) => final(self)@ == old(self)@ && template_added(
                    old(self)@,
                    row_id@,
                    expense_name@,
                    expense_day,
                    expense_amount,
                    currency@,
                    primary_category@,
                    secondary_category@,
                ) == Err::<RecurringView, ErrorView>(e@),
            },
    {
        if expense_day < 1 || expense_day > 28 {
            let mut message = "expense_day must be between 1 and 28, got ".to_owned();
            push_signed(&mut message, expense_day);
            return Err(Error::InvalidArgument(message));
        }
        let columns = columns_of_templates();
        let mut cells: Vec<Cell> = Vec::new();
        cells.push(Cell::Text(expense_name.to_owned()));
        cells.push(Cell::Int(expense_day));
        cells.push(Cell::Float(expense_amount));
        cells.push(Cell::Text(currency.to_owned()));
        cells.push(Cell::Text(normalize_category_value(primary_category)));
        cells.push(Cell::Text(normalize_category_value(secondary_category)));
        cells.push(Cell::Text(row_id.to_owned()));
        let ghost put = template_cells(
            row_id@,
            expense_name@,
            expense_day,
            expense_amount,
            currency@,
            primary_category@,
            secondary_category@,
        );
        proof {
            use_type_invariant(&self.df);
            assert(cell_views(cells@) =~= put);
            assert(row_fits(recurring_columns(), put));
        }
        match append_row(&mut self.df, &columns, &cells) {
            Ok(()) => {},
            Err(e) => return Err(e),
        }
        let op = upsert_row(&self.df, row_id);
        let table = self.change_table();
        record(&mut self.changes, table, row_id, op);
        Ok(())
    }

    /// Where these rows are in the change log.
    pub fn change_table(&self) -> (r: ChangeTable)
        ensures
            r == (ChangeTable::Recurring { year: self@.year }),
    {
        ChangeTable::Recurring { year: self.year }
    }

    fn require_template(&self, row_id: &str) -> (r: Result<(), Error>)
        ensures
            outcome(r) == single_row(
                self@.df,
                row_id@,
                "recurring expense"@,
                signed_decimal(self@.year as int),
            ),
    {
        let mut place = String::new();
        push_signed(&mut place, self.year as i64);
        assert(place@ =~= signed_decimal(self.year as int));
        require_single_row(&self.df, row_id, "recurring expense", place.as_str())
    }

    /// Remove the template with this row id. No template, or several, with the id
    /// is an error, and nothing changes.
    pub fn remove(&mut self, row_id: &str) -> (r: Result<(), Error>)
        ensures
            match r {
                Ok(()) => template_removed(old(self)@, row_id@) == Ok::<RecurringView, ErrorView>(
                    final(self)@,
                ),
                Err(e) => final(self)@ == old(self)@ && template_removed(old(self)@, row_id@)
                    == Err::<RecurringView, ErrorView>(e@),
            },
    {
        match self.require_template(row_id) {
            Ok(()) => {},
            Err(e) => return Err(e),
        }
        match remove_where(&mut self.df, ROW_ID_COLUMN, row_id) {
            Ok(()) => {},
            Err(e) => return Err(e),
        }
        let table = self.change_table();
        record(&mut self.changes, table, row_id, Ok(ChangeOp::Delete));
        Ok(())
    }

    /// The row that every template would generate in a month, in the order of the
    /// templates, whatever the month has.
    pub fn rows_for_month(&self, year: i32, month: u32) -> (r: Result<
        Vec<PendingRecurringRow>,
        Error,
    >)
        ensures
            match r {
                Ok(rows) => generated_rows(self@.df, year as int, month as nat) == Ok::<
                    Seq<PendingView>,
                    ErrorView,
                >(pending_views(rows@)),
                Err(e) => generated_rows(self@.df, year as int, month as nat) == Err::<
                    Seq<PendingView>,
                    ErrorView,
                >(e@),
            },
    {
        let df = &self.df;
        let name = match find_texts(df, "expense_name") {
            Some(c) => c,
            None => return Err(no_texts("expense_name")),
        };
        let day = match find_typed(df, "expense_day", &DataType::Int64) {
            Some(c) => c,
            None => return Err(no_column("expense_day")),
        };
        let amount = match find_typed(df, "expense_amount", &DataType::Float64) {
            Some(c) => c,
            None => return Err(no_column("expense_amount")),
        };
        let currency = match find_texts(df, "currency") {
            Some(c) => c,
            None => return Err(no_texts("currency")),
        };
        let primary = match find_texts(df, "primary_category") {
            Some(c) => c,
            None => return Err(no_texts("primary_category")),
        };
        let secondary = match find_texts(df, "secondary_category") {
            Some(c) => c,
            None => return Err(no_texts("secondary_category")),
        };
        let id = match find_texts(df, ROW_ID_COLUMN) {
            Some(c) => c,
            None => return Err(no_texts(ROW_ID_COLUMN)),
        };
        let mut rows: Vec<PendingRecurringRow> = Vec::new();
        let mut i: usize = 0;
        while i < df.height()
            invariant
                i <= df@.rows.len(),
                name < df@.columns.len(),
                day < df@.columns.len(),
                amount < df@.columns.len(),
                currency < df@.columns.len(),
                primary < df@.columns.len(),
                secondary < df@.columns.len(),
                id < df@.columns.len(),
                name == df@.column_of("expense_name"@),
                day == df@.column_of("expense_day"@),
                amount == df@.column_of("expense_amount"@),
                currency == df@.column_of("currency"@),
                primary == df@.column_of("primary_category"@),
                secondary == df@.column_of("secondary_category"@),
                id == df@.column_of(ROW_ID_COLUMN@),
                rows@.len() == i,
                forall|k: int|
                    0 <= k < i ==> (#[trigger] rows@[k])@ == generated(
                        df@,
                        k,
                        year as int,
                        month as nat,
                    ),
            decreases df@.rows.len() - i,
        {
            let template = text_in(df.cell_at(i, id));
            rows.push(
                PendingRecurringRow {
                    row_id: derived_recurring_row_id(template.as_str(), year, month),
                    template_row_id: template,
                    expense_name: text_in(df.cell_at(i, name)),
                    expense_day: day_of(df.cell_at(i, day)),
                    expense_amount: amount_in(df.cell_at(i, amount)),
                    currency: text_in(df.cell_at(i, currency)),
                    primary_category: text_in(df.cell_at(i, primary)),
                    secondary_category: text_in(df.cell_at(i, secondary)),
                },
            );
            i = i + 1;
        }
        assert(pending_views(rows@) =~= Seq::new(
            df@.rows.len(),
            |i: int| generated(df@, i, year as int, month as nat),
        ));
        Ok(rows)
    }

    /// Which rows a month still needs, and which are not generated because the user
    /// deleted them. A row that the month has, by its id or by name and day, is
    /// neither.
    pub fn plan_for_month(&self, de: &DetailedExpenses, log: &[ChangeEntry]) -> (r: Result<
        RecurringApplyPlan,
        Error,
    >)
        ensures
            match r {
                Ok(plan) => apply_plan(self@.df, de@, views(log@)) == Ok::<ApplyView, ErrorView>(
                    plan@,
                ),
                Err(e) => apply_plan(self@.df, de@, views(log@)) == Err::<ApplyView, ErrorView>(e@),
            },
    {
        let rows = match self.rows_for_month(de.year, de.month) {
            Ok(rows) => rows,
            Err(e) => return Err(e),
        };
        let ghost all = pending_views(rows@);
        let table = de.change_table();
        let mut plan = RecurringApplyPlan::default();
        if rows.len() == 0 {
            return Ok(plan);
        }
        let columns = match month_columns(&de.expense_df) {
            Ok(columns) => columns,
            Err(e) => return Err(e),
        };
        let mut i: usize = 0;
        while i < rows.len()
            invariant
                i <= rows.len(),
                all == pending_views(rows@),
                columns.name < de@.df.columns.len(),
                columns.name == de@.df.column_of("expense_name"@),
                columns.date < de@.df.columns.len(),
                columns.date == de@.df.column_of("expense_date"@),
                columns.id < de@.df.columns.len(),
                columns.id == de@.df.column_of(ROW_ID_COLUMN@),
                table == month_table(de@.year, de@.month),
                plan@ == split(all, i as int, de@.df, views(log@), table),
            decreases rows.len() - i,
        {
            let row = rows[i].clone();
            assert(all[i as int] == row@);
            if !month_has(&de.expense_df, &columns, &row) {
                if generated_row_stays_deleted(log, &table, row.row_id.as_str()) {
                    let ghost before = pending_views(plan.skipped@);
                    let ghost added = row@;
                    plan.skipped.push(row);
                    assert(pending_views(plan.skipped@) =~= before.push(added));
                } else {
                    let ghost before = pending_views(plan.pending@);
                    let ghost added = row@;
                    plan.pending.push(row);
                    assert(pending_views(plan.pending@) =~= before.push(added));
                }
            }
            i = i + 1;
        }
        Ok(plan)
    }

    /// The rows a month still needs.
    pub fn pending_for_month(&self, de: &DetailedExpenses, log: &[ChangeEntry]) -> (r: Result<
        Vec<PendingRecurringRow>,
        Error,
    >)
        ensures
            match r {
                Ok(rows) => apply_plan(self@.df, de@, views(log@)) matches Ok(plan) && plan.pending
                    == pending_views(rows@),
                Err(e) => apply_plan(self@.df, de@, views(log@)) == Err::<ApplyView, ErrorView>(e@),
            },
    {
        match self.plan_for_month(de, log) {
            Ok(plan) => Ok(plan.pending),
            Err(e) => Err(e),
        }
    }

    /// Put the row of a template into a month, because the user asked it back. It is
    /// recorded as typed by the user, so it stands against the earlier deletion. A
    /// month that has the row stays as it is.
    pub fn reinstate_for_month(&self, de: &mut DetailedExpenses, template_row_id: &str) -> (r:
        Result<ReinstatedRow, Error>)
        ensures
            match r {
                Ok(row) => reinstated(self@, old(de)@, template_row_id@) == Ok::<
                    (ExpensesView, Seq<char>, bool),
                    ErrorView,
                >((final(de)@, row.row_id@, row.created)),
                Err(e) => final(de)@ == old(de)@ && reinstated(self@, old(de)@, template_row_id@)
                    == Err::<(ExpensesView, Seq<char>, bool), ErrorView>(e@),
            },
    {
        match self.require_template(template_row_id) {
            Ok(()) => {},
            Err(e) => return Err(e),
        }
        let rows = match self.rows_for_month(de.year, de.month) {
            Ok(rows) => rows,
            Err(e) => return Err(e),
        };
        let ghost all = pending_views(rows@);
        let mut i: usize = 0;
        while i < rows.len()
            invariant
                i <= rows.len(),
                all == pending_views(rows@),
                *de == *old(de),
                single_row(
                    self@.df,
                    template_row_id@,
                    "recurring expense"@,
                    signed_decimal(self@.year as int),
                ) is Ok,
                generated_rows(self@.df, de@.year as int, de@.month as nat) == Ok::<
                    Seq<PendingView>,
                    ErrorView,
                >(all),
                of_template(all, template_row_id@, i as int) is None,
            decreases rows.len() - i,
        {
            assert(all[i as int] == rows@[i as int]@);
            if same_text(rows[i].template_row_id.as_str(), template_row_id) {
                proof {
                    lemma_of_template_stays(all, template_row_id@, i + 1, all.len() as int);
                }
                let row = &rows[i];
                match has_row_id(&de.expense_df, row.row_id.as_str()) {
                    Err(e) => return Err(e),
                    Ok(true) => return Ok(
                        ReinstatedRow { row_id: row.row_id.clone(), created: false },
                    ),
                    Ok(false) => {},
                }
                return match insert_pending(de, row, None) {
                    Ok(()) => Ok(ReinstatedRow { row_id: row.row_id.clone(), created: true }),
                    Err(e) => Err(e),
                };
            }
            i = i + 1;
        }
        let mut place = String::new();
        push_signed(&mut place, self.year as i64);
        assert(place@ =~= signed_decimal(self.year as int));
        Err(
            Error::NotFound(
                "No ".to_owned().concat("recurring expense").concat(" with id '").concat(
                    template_row_id,
                ).concat("' in ").concat(place.as_str()).concat("."),
            ),
        )
    }

    /// Put generated rows into a month and hand back their names. A row whose id
    /// the month has is left out, so two templates with one id give one row. The
    /// rows are recorded as generated.
    pub fn insert_resolved(&self, de: &mut DetailedExpenses, rows: &[PendingRecurringRow]) -> (r:
        Result<Vec<String>, Error>)
        ensures
            ({
                let end = rows_inserted(old(de)@, pending_views(rows@), rows@.len() as int);
                final(de)@ == end.month && match r {
                    Ok(names) => end.failure is None && texts(names@) == end.names,
                    Err(e) => end.failure == Some(e@),
                }
            }),
    {
        let ghost all = pending_views(rows@);
        let mut names: Vec<String> = Vec::new();
        let mut i: usize = 0;
        assert(texts(names@) =~= Seq::empty());
        while i < rows.len()
            invariant
                i <= rows@.len(),
                all == pending_views(rows@),
                rows_inserted(old(de)@, all, i as int) == (Insertion {
                    month: de@,
                    names: texts(names@),
                    failure: None,
                }),
            decreases rows@.len() - i,
        {
            let row = &rows[i];
            assert(all[i as int] == row@);
            match has_row_id(&de.expense_df, row.row_id.as_str()) {
                Err(e) => {
                    proof {
                        lemma_insertion_stops(old(de)@, all, i + 1, all.len() as int);
                    }
                    return Err(e);
                },
                Ok(true) => {},
                Ok(false) => {
                    match insert_pending(de, row, Some(ChangeOrigin::RecurringApply)) {
                        Err(e) => {
                            proof {
                                lemma_insertion_stops(old(de)@, all, i + 1, all.len() as int);
                            }
                            return Err(e);
                        },
                        Ok(()) => {
                            let ghost before = texts(names@);
                            names.push(row.expense_name.clone());
                            assert(texts(names@) =~= before.push(row@.name));
                        },
                    }
                },
            }
            i = i + 1;
        }
        Ok(names)
    }
}

fn insert_pending(
    de: &mut DetailedExpenses,
    row: &PendingRecurringRow,
    origin: Option<ChangeOrigin>,
) -> (r: Result<(), Error>)
    ensures
        crate::expenses::month_outcome(
            expense_added(
                old(de)@,
                row@.row_id,
                pending_input(row@),
                None,
                crate::changes::origin_view(origin),
            ),
            old(de)@,
            final(de)@,
            r,
        ),
{
    de.add_row_with_id(
        row.row_id.as_str(),
        row.expense_name.as_str(),
        row.expense_day,
        row.expense_amount,
        Some(row.primary_category.as_str()),
        row.currency.as_str(),
        Some(row.secondary_category.as_str()),
        None,
        origin,
    )
}

} // verus!
