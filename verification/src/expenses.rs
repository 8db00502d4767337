//! The expenses of one month.
//!
//! A month stores only the facts of an expense: its own amount and currency. An
//! amount in the reference currency is worked out when it is asked for.

use vstd::prelude::*;
use crate::append::{append_row, appended, is_random_id, new_row_id};
use crate::categories::{
    existing_categories, existing_category_set, known_view, normalize_category_value, normalized,
    resolve_category, resolved,
};
use crate::changes::{
    change_views, origin_view, record, record_with_origin, typed, upsert_op, upsert_row,
    Change, ChangeView,
};
use crate::config::{CategoryMapping, KnownCategories, KnownView, MappingView};
use crate::dates::{day_number, is_date, Date};
use crate::error::{outcome, Error, ErrorView};
use crate::frames::{
    euro_spelled, lacks_row_ids, no_column, normalize_currency_column,
    remove_where, require_row_ids, require_single_row, row_ids_error, set_cell_where, set_where,
    single_row, target_column_error, without_matches,
};
use crate::merge_apply::ROW_ID_COLUMN;
use crate::paths::{
    get_monthly_parquet_path, month_error, month_file, month_in_path, year_in_path,
    year_month_from_parquet_path,
    year_path,
};
use crate::numbers::FloatBits;
use crate::sync::{ChangeOp, ChangeOrigin, ChangeTable, OpView, OriginView};
use crate::table::{
    cast_cell, cell_views, column_views, names_differ, row_fits, Cell, CellView, Column,
    ColumnView, DataType, DataTypeView, Table, TableView,
};
use crate::text::{padded, push_padded, push_signed, signed_decimal};

verus! {

/// The columns of a month.
pub open spec fn expense_columns() -> Seq<ColumnView> {
    seq![
        ColumnView { name: "expense_name"@, dtype: DataTypeView::Text },
        ColumnView { name: "expense_date"@, dtype: DataTypeView::Date },
        ColumnView { name: "expense_amount"@, dtype: DataTypeView::Float64 },
        ColumnView { name: "currency"@, dtype: DataTypeView::Text },
        ColumnView { name: "primary_category"@, dtype: DataTypeView::Text },
        ColumnView { name: "secondary_category"@, dtype: DataTypeView::Text },
        ColumnView { name: ROW_ID_COLUMN@, dtype: DataTypeView::Text },
    ]
}

/// The columns of a month have different names.
pub proof fn lemma_expense_columns()
    ensures
        names_differ(expense_columns()),
{
    reveal_strlit("expense_name");
    reveal_strlit("expense_date");
    reveal_strlit("expense_amount");
    reveal_strlit("currency");
    reveal_strlit("primary_category");
    reveal_strlit("secondary_category");
    reveal_strlit("row_id");
    let columns = expense_columns();
    assert("expense_name"@[8] != "expense_date"@[8]);
    assert(columns[0].name.len() == 12 && columns[1].name.len() == 12);
    assert(columns[2].name.len() == 14);
    assert(columns[3].name.len() == 8);
    assert(columns[4].name.len() == 16);
    assert(columns[5].name.len() == 18);
    assert(columns[6].name.len() == 6);
    assert forall|i: int, j: int| 0 <= i < j < columns.len() implies (#[trigger] columns[i]).name
        != (#[trigger] columns[j]).name by {
        if i == 0 && j == 1 {
        } else {
            assert(columns[i].name.len() != columns[j].name.len());
        }
    }
}

fn columns_of_a_month() -> (r: Vec<Column>)
    ensures
        column_views(r@) == expense_columns(),
        names_differ(expense_columns()),
{
    let mut columns: Vec<Column> = Vec::new();
    columns.push(Column::of("expense_name", DataType::Text));
    columns.push(Column::of("expense_date", DataType::Date));
    columns.push(Column::of("expense_amount", DataType::Float64));
    columns.push(Column::of("currency", DataType::Text));
    columns.push(Column::of("primary_category", DataType::Text));
    columns.push(Column::of("secondary_category", DataType::Text));
    columns.push(Column::of(ROW_ID_COLUMN, DataType::Text));
    proof {
        lemma_expense_columns();
        assert(column_views(columns@) =~= expense_columns());
    }
    columns
}

/// A month without expenses.
pub fn empty_expenses_df() -> (r: Table)
    ensures
        r@ == (TableView { columns: expense_columns(), rows: Seq::empty() }),
{
    Table::with_columns(columns_of_a_month())
}

/// The expenses of one month, and what to record of the changes made to them
/// since they were read.
pub struct DetailedExpenses {
    /// The year of the month.
    pub year: i32,
    /// The month, from 1 to 12.
    pub month: u32,
    /// Where the month is stored.
    pub expense_df_path: String,
    /// The expenses.
    pub expense_df: Table,
    /// The changes to record, once the expenses are saved.
    pub changes: Vec<Change>,
}

/// What [`DetailedExpenses`] hold.
#[verifier::ext_equal]
pub struct ExpensesView {
    pub year: i32,
    pub month: u32,
    pub path: Seq<char>,
    pub df: TableView,
    pub changes: Seq<ChangeView>,
}

impl View for DetailedExpenses {
    type V = ExpensesView;

    open spec fn view(&self) -> ExpensesView {
        ExpensesView {
            year: self.year,
            month: self.month,
            path: self.expense_df_path@,
            df: self.expense_df@,
            changes: change_views(self.changes@),
        }
    }
}

/// A table with its expense dates as dates. Older files hold day counts. A column of a
/// type that is only carried along is an error.
pub open spec fn dates_cast(df: TableView) -> Result<TableView, ErrorView> {
    if !df.has_column("expense_date"@) {
        Ok(df)
    } else {
        let c = df.column_of("expense_date"@);
        match df.columns[c].dtype {
            DataTypeView::Date => Ok(df),
            DataTypeView::Other(_) => Err(target_column_error("expense_date"@)),
            _ => Ok(df.with_column_as(c, DataTypeView::Date, |cell: CellView| cast_cell(cell))),
        }
    }
}

fn cast_dates(df: &mut Table) -> (r: Result<(), Error>)
    ensures
        match r {
            Ok(()) => dates_cast(old(df)@) == Ok::<TableView, ErrorView>(final(df)@),
            Err(e) => dates_cast(old(df)@) == Err::<TableView, ErrorView>(e@),
        },
{
    let c = match df.find_column("expense_date") {
        Some(c) => c,
        None => return Ok(()),
    };
    let ghost dtype = df@.columns[c as int].dtype;
    assert(dtype == df@.columns[c as int].dtype);
    match &df.column_at(c).dtype {
        DataType::Date => {
            assert(dtype is Date);
            return Ok(());
        },
        DataType::Other(_) => {
            assert(dtype is Other);
            return Err(no_column("expense_date"));
        },
        _ => {},
    }
    df.cast_to_dates(c);
    Ok(())
}

/// A table without a column, if it has it.
pub open spec fn dropped(df: TableView, name: Seq<char>) -> TableView {
    if df.has_column(name) {
        df.without_column(df.column_of(name))
    } else {
        df
    }
}

/// Remove a column, if the table has it.
pub fn drop_named(df: &mut Table, name: &str)
    ensures
        final(df)@ == dropped(old(df)@, name@),
{
    if let Some(c) = df.find_column(name) {
        df.drop_column(c);
    }
}

/// What the expenses of a file are once they are loaded. Columns that older
/// versions stored and that are worked out now are dropped, and dates and the
/// code of the euro are brought to their present form.
pub open spec fn loaded_expenses(df: TableView, path: Seq<char>) -> Result<TableView, ErrorView> {
    if lacks_row_ids(df) {
        Err(row_ids_error(path))
    } else {
        match dates_cast(df) {
            Err(e) => Err(e),
            Ok(df) => euro_spelled(
                dropped(
                    dropped(dropped(df, "expense_in_ref_currency"@), "fx_rate"@),
                    "rate_date"@,
                ),
            ),
        }
    }
}

/// The expenses a month starts out with: those of its file, or none.
pub open spec fn first_expenses(stored: Option<TableView>, path: Seq<char>) -> Result<
    TableView,
    ErrorView,
> {
    match stored {
        Some(df) => loaded_expenses(df, path),
        None => Ok(TableView { columns: expense_columns(), rows: Seq::empty() }),
    }
}

/// What an optional table holds.
pub open spec fn stored_view(stored: Option<Table>) -> Option<TableView> {
    match stored {
        Some(df) => Some(df@),
        None => None,
    }
}

/// What an optional text says.
pub open spec fn said(text: Option<&str>) -> Option<Seq<char>> {
    match text {
        Some(text) => Some(text@),
        None => None,
    }
}

/// An expense to add.
pub struct ExpenseInput {
    pub name: Seq<char>,
    pub day: u32,
    pub amount: FloatBits,
    pub primary: Option<Seq<char>>,
    pub currency: Seq<char>,
    pub secondary: Option<Seq<char>>,
}

/// An expense name that no category is known for.
pub open spec fn no_category_error(name: Seq<char>) -> ErrorView {
    ErrorView::InvalidArgument(
        "No category mapping found for '"@ + name
            + "' and no primary_category was provided. Either add a mapping via config.add_mapping() or pass primary_category explicitly."@,
    )
}

/// The categories of a new expense: those given, else those that are mapped to
/// its name. A secondary category that neither gives is empty.
pub open spec fn chosen_categories(
    name: Seq<char>,
    primary: Option<Seq<char>>,
    secondary: Option<Seq<char>>,
    mapping: Option<MappingView>,
) -> Result<(Seq<char>, Seq<char>), ErrorView> {
    match (primary, secondary, mapping) {
        (Some(p), Some(s), _) => Ok((p, s)),
        (Some(p), None, Some(m)) => Ok((p, m.secondary)),
        (None, Some(s), Some(m)) => Ok((m.primary, s)),
        (None, None, Some(m)) => Ok((m.primary, m.secondary)),
        (Some(p), None, None) => Ok((p, ""@)),
        (None, _, None) => Err(no_category_error(name)),
    }
}

/// What an optional mapping says.
pub open spec fn mapping_view(mapping: Option<&CategoryMapping>) -> Option<MappingView> {
    match mapping {
        Some(mapping) => Some(mapping@),
        None => None,
    }
}

/// Whether the mapping of an expense name is needed to add the expense.
pub fn needs_mapping(primary_category: Option<&str>, secondary_category: Option<&str>) -> (r: bool)
    ensures
        r == (primary_category is None || secondary_category is None),
{
    primary_category.is_none() || secondary_category.is_none()
}

fn choose_categories(
    expense_name: &str,
    primary_category: Option<&str>,
    secondary_category: Option<&str>,
    mapping: Option<&CategoryMapping>,
) -> (r: Result<(String, String), Error>)
    ensures
        match r {
            Ok(pair) => chosen_categories(
                expense_name@,
                said(primary_category),
                said(secondary_category),
                mapping_view(mapping),
            ) == Ok::<(Seq<char>, Seq<char>), ErrorView>((pair.0@, pair.1@)),
            Err(e) => chosen_categories(
                expense_name@,
                said(primary_category),
                said(secondary_category),
                mapping_view(mapping),
            ) == Err::<(Seq<char>, Seq<char>), ErrorView>(e@),
        },
{
    let primary: String = match (primary_category, mapping) {
        (Some(p), _) => p.to_owned(),
        (None, Some(m)) => m.primary_category.clone(),
        (None, None) => return Err(
            Error::InvalidArgument(
                "No category mapping found for '".to_owned().concat(expense_name).concat(
                    "' and no primary_category was provided. Either add a mapping via config.add_mapping() or pass primary_category explicitly.",
                ),
            ),
        ),
    };
    let secondary: String = match (secondary_category, mapping) {
        (Some(s), _) => s.to_owned(),
        (None, Some(m)) => m.secondary_category.clone(),
        (None, None) => "".to_owned(),
    };
    Ok((primary, secondary))
}

/// A day that the month does not have.
pub open spec fn date_error(year: i32, month: u32, day: u32) -> ErrorView {
    ErrorView::InvalidArgument(
        "invalid date "@ + signed_decimal(year as int) + "-"@ + padded(month as nat, 2) + "-"@
            + padded(day as nat, 2),
    )
}

/// The day of a month, or that there is no such day.
pub open spec fn dated(year: i32, month: u32, day: u32) -> Result<int, ErrorView> {
    if is_date(year as int, month as int, day as int) {
        Ok(day_number(year as int, month as int, day as int))
    } else {
        Err(date_error(year, month, day))
    }
}

fn date_of(year: i32, month: u32, day: u32) -> (r: Result<Date, Error>)
    ensures
        match r {
            Ok(date) => dated(year, month, day) == Ok::<int, ErrorView>(date@),
            Err(e) => dated(year, month, day) == Err::<int, ErrorView>(e@),
        },
{
    match Date::from_ymd(year, month, day) {
        Some(date) => Ok(date),
        None => {
            let mut message = "invalid date ".to_owned();
            push_signed(&mut message, year as i64);
            let mut message = message.concat("-");
            push_padded(&mut message, month as u64, 2);
            let mut message = message.concat("-");
            push_padded(&mut message, day as u64, 2);
            Err(Error::InvalidArgument(message))
        },
    }
}

/// The cells of a new expense, in the order of the columns of a month.
pub open spec fn expense_cells(
    row_id: Seq<char>,
    input: ExpenseInput,
    day: int,
    primary: Seq<char>,
    secondary: Seq<char>,
) -> Seq<CellView> {
    seq![
        CellView::Text(input.name),
        CellView::Date(day as i32),
        CellView::Float(input.amount),
        CellView::Text(input.currency),
        CellView::Text(normalized(primary)),
        CellView::Text(normalized(secondary)),
        CellView::Text(row_id),
    ]
}

/// The table of a month in the change log.
pub open spec fn month_table(year: i32, month: u32) -> ChangeTable {
    ChangeTable::Expenses { year, month }
}

/// A month with one more expense, and the whole row to record.
pub open spec fn expense_added(
    month: ExpensesView,
    row_id: Seq<char>,
    input: ExpenseInput,
    mapping: Option<MappingView>,
    origin: Option<OriginView>,
) -> Result<ExpensesView, ErrorView> {
    match chosen_categories(input.name, input.primary, input.secondary, mapping) {
        Err(e) => Err(e),
        Ok((primary, secondary)) => match dated(month.year, month.month, input.day) {
            Err(e) => Err(e),
            Ok(day) => match appended(
                month.df,
                expense_columns(),
                expense_cells(row_id, input, day, primary, secondary),
            ) {
                Err(e) => Err(e),
                Ok(df) => Ok(
                    ExpensesView {
                        df,
                        changes: month.changes.push(
                            ChangeView {
                                table: month_table(month.year, month.month),
                                row_id,
                                op: upsert_op(df, row_id),
                                origin,
                            },
                        ),
                        ..month
                    },
                ),
            },
        },
    }
}

/// Whether a change either succeeded as described, or failed and left the month
/// as it was.
pub open spec fn month_outcome(
    expected: Result<ExpensesView, ErrorView>,
    before: ExpensesView,
    after: ExpensesView,
    r: Result<(), Error>,
) -> bool {
    match r {
        Ok(()) => expected == Ok::<ExpensesView, ErrorView>(after),
        Err(e) => expected == Err::<ExpensesView, ErrorView>(e@) && after == before,
    }
}

/// The name of a month in messages.
pub open spec fn month_place(year: i32, month: u32) -> Seq<char> {
    signed_decimal(year as int) + "-"@ + padded(month as nat, 2)
}

/// What to change of an expense; nothing where nothing is given.
pub struct ExpenseEdit {
    pub name: Option<Seq<char>>,
    pub day: Option<u32>,
    pub amount: Option<FloatBits>,
    pub currency: Option<Seq<char>>,
    pub primary: Option<Seq<char>>,
    pub secondary: Option<Seq<char>>,
}

/// A table with a column of one row set, if there is a cell to set it to.
pub open spec fn maybe_set(
    df: Result<TableView, ErrorView>,
    row_id: Seq<char>,
    target: Seq<char>,
    dtype: DataTypeView,
    cell: Option<CellView>,
) -> Result<TableView, ErrorView> {
    match (df, cell) {
        (Ok(df), Some(cell)) => set_where(df, ROW_ID_COLUMN@, row_id, target, dtype, cell),
        _ => df,
    }
}

/// A text to set a cell to.
pub open spec fn text_to_set(text: Option<Seq<char>>) -> Option<CellView> {
    match text {
        Some(text) => Some(CellView::Text(text)),
        None => None,
    }
}

/// A category to set a cell to, spelled as the month and the known categories
/// spell it.
pub open spec fn category_to_set(
    df: TableView,
    column: Seq<char>,
    category: Option<Seq<char>>,
    known: Option<KnownView>,
) -> Option<CellView> {
    match category {
        Some(category) => Some(
            CellView::Text(resolved(category, existing_categories(df, column, known))),
        ),
        None => None,
    }
}

/// A day to set a cell to, or that the month has no such day.
pub open spec fn day_to_set(year: i32, month: u32, day: Option<u32>) -> Result<
    Option<CellView>,
    ErrorView,
> {
    match day {
        None => Ok(None),
        Some(day) => match dated(year, month, day) {
            Ok(day) => Ok(Some(CellView::Date(day as i32))),
            Err(e) => Err(e),
        },
    }
}

/// The expenses of a month with one of them edited.
pub open spec fn edited_df(
    df: TableView,
    row_id: Seq<char>,
    edit: ExpenseEdit,
    day: Option<CellView>,
    known: Option<KnownView>,
) -> Result<TableView, ErrorView> {
    let amount = match edit.amount {
        Some(amount) => Some(CellView::Float(amount)),
        None => None,
    };
    let primary = category_to_set(df, "primary_category"@, edit.primary, known);
    let secondary = category_to_set(df, "secondary_category"@, edit.secondary, known);
    let r = maybe_set(
        Ok(df),
        row_id,
        "expense_name"@,
        DataTypeView::Text,
        text_to_set(edit.name),
    );
    let r = maybe_set(r, row_id, "expense_date"@, DataTypeView::Date, day);
    let r = maybe_set(r, row_id, "expense_amount"@, DataTypeView::Float64, amount);
    let r = maybe_set(
        r,
        row_id,
        "currency"@,
        DataTypeView::Text,
        text_to_set(edit.currency),
    );
    let r = maybe_set(r, row_id, "primary_category"@, DataTypeView::Text, primary);
    maybe_set(r, row_id, "secondary_category"@, DataTypeView::Text, secondary)
}

/// A month with one expense edited, and the whole row to record.
pub open spec fn expense_edited(
    month: ExpensesView,
    row_id: Seq<char>,
    edit: ExpenseEdit,
    known: Option<KnownView>,
) -> Result<ExpensesView, ErrorView> {
    match single_row(month.df, row_id, "expense"@, month_place(month.year, month.month)) {
        Err(e) => Err(e),
        Ok(()) => match day_to_set(month.year, month.month, edit.day) {
            Err(e) => Err(e),
            Ok(day) => match edited_df(month.df, row_id, edit, day, known) {
                Err(e) => Err(e),
                Ok(df) => Ok(
                    ExpensesView {
                        df,
                        changes: month.changes.push(
                            typed(
                                month_table(month.year, month.month),
                                row_id,
                                upsert_op(df, row_id),
                            ),
                        ),
                        ..month
                    },
                ),
            },
        },
    }
}

/// A month without one expense, and its deletion to record.
pub open spec fn expense_deleted(month: ExpensesView, row_id: Seq<char>) -> Result<
    ExpensesView,
    ErrorView,
> {
    match single_row(month.df, row_id, "expense"@, month_place(month.year, month.month)) {
        Err(e) => Err(e),
        Ok(()) => match without_matches(month.df, ROW_ID_COLUMN@, row_id) {
            Err(e) => Err(e),
            Ok(df) => Ok(
                ExpensesView {
                    df,
                    changes: month.changes.push(
                        typed(month_table(month.year, month.month), row_id, Ok(OpView::Delete)),
                    ),
                    ..month
                },
            ),
        },
    }
}

fn set_if(df: &mut Table, row_id: &str, target: &str, dtype: &DataType, cell: &Option<Cell>) -> (r:
    Result<(), Error>)
    requires
        cell matches Some(cell) ==> crate::table::fits(dtype@, cell@),
    ensures
        ({
            let expected = maybe_set(
                Ok(old(df)@),
                row_id@,
                target@,
                dtype@,
                match *cell {
                    Some(cell) => Some(cell@),
                    None => None,
                },
            );
            match r {
                Ok(()) => expected == Ok::<TableView, ErrorView>(final(df)@),
                Err(e) => expected == Err::<TableView, ErrorView>(e@),
            }
        }),
{
    match cell {
        Some(cell) => {
            set_cell_where(df, ROW_ID_COLUMN, row_id, target, dtype, cell)
        },
        None => Ok(()),
    }
}

fn text_cell_of(text: Option<&str>) -> (r: Option<Cell>)
    ensures
        match r {
            Some(cell) => text_to_set(said(text)) == Some(cell@) && cell@ is Text,
            None => text_to_set(said(text)) is None,
        },
{
    match text {
        Some(text) => Some(Cell::Text(text.to_owned())),
        None => None,
    }
}

fn category_cell(
    df: &Table,
    column: &str,
    category: Option<&str>,
    known: Option<&KnownCategories>,
) -> (r: Option<Cell>)
    ensures
        match r {
            Some(cell) => category_to_set(df@, column@, said(category), known_view(known)) == Some(
                cell@,
            ) && cell@ is Text,
            None => category_to_set(df@, column@, said(category), known_view(known)) is None,
        },
{
    match category {
        Some(category) => {
            let existing = existing_category_set(df, column, known);
            Some(Cell::Text(resolve_category(category, existing.as_slice())))
        },
        None => None,
    }
}

impl DetailedExpenses {
    /// The expenses of a month, from what its file holds, or none if there is no
    /// file. Fails for a month there is not, and for a file whose rows have no
    /// ids.
    pub fn new(year: i32, month: u32, stored: Option<Table>) -> (r: Result<Self, Error>)
        ensures
            ({
                let path = year_path(year as int, month_file(month as nat));
                match r {
                    Ok(expenses) => 1 <= month <= 12 && expenses@.year == year && expenses@.month
                        == month && expenses@.path == path && expenses@.changes == Seq::<
                        ChangeView,
                    >::empty() && first_expenses(stored_view(stored), path) == Ok::<
                        TableView,
                        ErrorView,
                    >(expenses@.df),
                    Err(e) => if 1 <= month <= 12 {
                        first_expenses(stored_view(stored), path) == Err::<TableView, ErrorView>(
                            e@,
                        )
                    } else {
                        e@ == month_error(month as nat)
                    },
                }
            }),
    {
        let path = match get_monthly_parquet_path(year, month) {
            Ok(path) => path,
            Err(e) => return Err(e),
        };
        Self::load(year, month, path, stored)
    }

    /// The expenses of the month that a path names.
    pub fn from_path(path: &str, stored: Option<Table>) -> (r: Result<Self, Error>)
        ensures
            match (year_in_path(path@), month_in_path(path@)) {
                (Ok(year), Ok(month)) => match r {
                    Ok(expenses) => expenses@.year == year && expenses@.month == month
                        && expenses@.path == path@ && expenses@.changes == Seq::<
                        ChangeView,
                    >::empty() && first_expenses(stored_view(stored), path@) == Ok::<
                        TableView,
                        ErrorView,
                    >(expenses@.df),
                    Err(e) => first_expenses(stored_view(stored), path@) == Err::<
                        TableView,
                        ErrorView,
                    >(e@),
                },
                (Err(year_error), _) => outcome(r) == Err::<Self, ErrorView>(year_error),
                (Ok(_), Err(month_error)) => outcome(r) == Err::<Self, ErrorView>(month_error),
            },
    {
        let (year, month) = match year_month_from_parquet_path(path) {
            Ok(pair) => pair,
            Err(e) => return Err(e),
        };
        Self::load(year, month, path.to_owned(), stored)
    }

    /// The expenses of a month that is stored at `path`.
    pub fn load(year: i32, month: u32, path: String, stored: Option<Table>) -> (r: Result<
        Self,
        Error,
    >)
        ensures
            match r {
                Ok(expenses) => expenses@.year == year && expenses@.month == month && expenses@.path
                    == path@ && expenses@.changes == Seq::<ChangeView>::empty() && first_expenses(
                    stored_view(stored),
                    path@,
                ) == Ok::<TableView, ErrorView>(expenses@.df),
                Err(e) => first_expenses(stored_view(stored), path@) == Err::<TableView, ErrorView>(
                    e@,
                ),
            },
    {
        let expense_df = match stored {
            Some(mut df) => {
                match require_row_ids(&df, path.as_str()) {
                    Ok(()) => {},
                    Err(e) => return Err(e),
                }
                match cast_dates(&mut df) {
                    Ok(()) => {},
                    Err(e) => return Err(e),
                }
                drop_named(&mut df, "expense_in_ref_currency");
                drop_named(&mut df, "fx_rate");
                drop_named(&mut df, "rate_date");
                match normalize_currency_column(&mut df) {
                    Ok(()) => {},
                    Err(e) => return Err(e),
                }
                df
            },
            None => empty_expenses_df(),
        };
        let changes: Vec<Change> = Vec::new();
        assert(change_views(changes@) =~= Seq::empty());
        Ok(DetailedExpenses { year, month, expense_df_path: path, expense_df, changes })
    }

    /// Where this month's rows are in the change log.
    pub fn change_table(&self) -> (r: ChangeTable)
        ensures
            r == month_table(self@.year, self@.month),
    {
        ChangeTable::Expenses { year: self.year, month: self.month }
    }

    /// Add an expense under a fresh row id, which is handed back. Categories that
    /// are not given come from the mapping of the name.
    pub fn add_row(
        &mut self,
        expense_name: &str,
        expense_day: u32,
        expense_amount: FloatBits,
        primary_category: Option<&str>,
        currency: &str,
        secondary_category: Option<&str>,
        mapping: Option<&CategoryMapping>,
    ) -> (r: Result<String, Error>)
        ensures
            ({
                let input = ExpenseInput {
                    name: expense_name@,
                    day: expense_day,
                    amount: expense_amount,
                    primary: said(primary_category),
                    currency: currency@,
                    secondary: said(secondary_category),
                };
                match r {
                    Ok(row_id) => is_random_id(row_id@) && expense_added(
                        old(self)@,
                        row_id@,
                        input,
                        mapping_view(mapping),
                        None,
                    ) == Ok::<ExpensesView, ErrorView>(final(self)@),
                    Err(e) => final(self)@ == old(self)@ && exists|row_id: Seq<char>|
                        is_random_id(row_id) && #[trigger] expense_added(
                            old(self)@,
                            row_id,
                            input,
                            mapping_view(mapping),
                            None,
                        ) == Err::<ExpensesView, ErrorView>(e@),
                }
            }),
    {
        let row_id = new_row_id();
        match self.add_row_with_id(
            row_id.as_str(),
            expense_name,
            expense_day,
            expense_amount,
            primary_category,
            currency,
            secondary_category,
            mapping,
            None,
        ) {
            Ok(()) => Ok(row_id),
            Err(e) => Err(e),
        }
    }

    /// Add an expense under a given row id, to be recorded with its origin. The
    /// caller answers for the id: it is not checked whether a row has it.
    pub fn add_row_with_id(
        &mut self,
        row_id: &str,
        expense_name: &str,
        expense_day: u32,
        expense_amount: FloatBits,
        primary_category: Option<&str>,
        currency: &str,
        secondary_category: Option<&str>,
        mapping: Option<&CategoryMapping>,
        origin: Option<ChangeOrigin>,
    ) -> (r: Result<(), Error>)
        ensures
            month_outcome(
                expense_added(
                    old(self)@,
                    row_id@,
                    ExpenseInput {
                        name: expense_name@,
                        day: expense_day,
                        amount: expense_amount,
                        primary: said(primary_category),
                        currency: currency@,
                        secondary: said(secondary_category),
                    },
                    mapping_view(mapping),
                    origin_view(origin),
                ),
                old(self)@,
                final(self)@,
                r,
            ),
    {
        let (primary, secondary) = match choose_categories(
            expense_name,
            primary_category,
            secondary_category,
            mapping,
        ) {
            Ok(pair) => pair,
            Err(e) => return Err(e),
        };
        let date = match date_of(self.year, self.month, expense_day) {
            Ok(date) => date,
            Err(e) => return Err(e),
        };
        let ghost input = ExpenseInput {
            name: expense_name@,
            day: expense_day,
            amount: expense_amount,
            primary: said(primary_category),
            currency: currency@,
            secondary: said(secondary_category),
        };
        let columns = columns_of_a_month();
        let mut cells: Vec<Cell> = Vec::new();
        cells.push(Cell::Text(expense_name.to_owned()));
        cells.push(Cell::Date(date.days()));
        cells.push(Cell::Float(expense_amount));
        cells.push(Cell::Text(currency.to_owned()));
        cells.push(Cell::Text(normalize_category_value(primary.as_str())));
        cells.push(Cell::Text(normalize_category_value(secondary.as_str())));
        cells.push(Cell::Text(row_id.to_owned()));
        let ghost put = expense_cells(row_id@, input, date@, primary@, secondary@);
        proof {
            use_type_invariant(&self.expense_df);
            assert(cell_views(cells@) =~= put);
            assert(row_fits(expense_columns(), put));
        }
        match append_row(&mut self.expense_df, &columns, &cells) {
            Ok(()) => {},
            Err(e) => return Err(e),
        }
        let op = upsert_row(&self.expense_df, row_id);
        let table = self.change_table();
        record_with_origin(&mut self.changes, table, row_id, op, origin);
        Ok(())
    }

    /// Remove the expense with this row id. No row, or several rows, with the id
    /// is an error, and nothing changes.
    pub fn delete_row(&mut self, row_id: &str) -> (r: Result<(), Error>)
        ensures
            month_outcome(expense_deleted(old(self)@, row_id@), old(self)@, final(self)@, r),
    {
        match self.require_row(row_id) {
            Ok(()) => {},
            Err(e) => return Err(e),
        }
        match remove_where(&mut self.expense_df, ROW_ID_COLUMN, row_id) {
            Ok(()) => {},
            Err(e) => return Err(e),
        }
        let table = self.change_table();
        record(&mut self.changes, table, row_id, Ok(ChangeOp::Delete));
        Ok(())
    }

    fn require_row(&self, row_id: &str) -> (r: Result<(), Error>)
        ensures
            outcome(r) == single_row(
                self@.df,
                row_id@,
                "expense"@,
                month_place(self@.year, self@.month),
            ),
    {
        let mut place = String::new();
        push_signed(&mut place, self.year as i64);
        assert(place@ =~= signed_decimal(self.year as int));
        let mut place = place.concat("-");
        push_padded(&mut place, self.month as u64, 2);
        require_single_row(&self.expense_df, row_id, "expense", place.as_str())
    }

    /// Change the expense with this row id; what is not given stays, and so does
    /// the id. A new category is spelled as the month or the known categories
    /// spell it. On any error nothing changes.
    pub fn edit_row(
        &mut self,
        row_id: &str,
        expense_name: Option<&str>,
        expense_day: Option<u32>,
        expense_amount: Option<FloatBits>,
        currency: Option<&str>,
        primary_category: Option<&str>,
        secondary_category: Option<&str>,
        known: Option<&KnownCategories>,
    ) -> (r: Result<(), Error>)
        ensures
            month_outcome(
                expense_edited(
                    old(self)@,
                    row_id@,
                    ExpenseEdit {
                        name: said(expense_name),
                        day: expense_day,
                        amount: expense_amount,
                        currency: said(currency),
                        primary: said(primary_category),
                        secondary: said(secondary_category),
                    },
                    known_view(known),
                ),
                old(self)@,
                final(self)@,
                r,
            ),
    {
        match self.require_row(row_id) {
            Ok(()) => {},
            Err(e) => return Err(e),
        }
        let name = text_cell_of(expense_name);
        let day: Option<Cell> = match expense_day {
            Some(day) => match date_of(self.year, self.month, day) {
                Ok(date) => Some(Cell::Date(date.days())),
                Err(e) => return Err(e),
            },
            None => None,
        };
        let amount: Option<Cell> = match expense_amount {
            Some(amount) => Some(Cell::Float(amount)),
            None => None,
        };
        let money = text_cell_of(currency);
        let primary = category_cell(&self.expense_df, "primary_category", primary_category, known);
        let secondary = category_cell(
            &self.expense_df,
            "secondary_category",
            secondary_category,
            known,
        );
        let mut df = self.expense_df.clone();
        match set_if(&mut df, row_id, "expense_name", &DataType::Text, &name) {
            Ok(()) => {},
            Err(e) => return Err(e),
        }
        match set_if(&mut df, row_id, "expense_date", &DataType::Date, &day) {
            Ok(()) => {},
            Err(e) => return Err(e),
        }
        match set_if(&mut df, row_id, "expense_amount", &DataType::Float64, &amount) {
            Ok(()) => {},
            Err(e) => return Err(e),
        }
        match set_if(&mut df, row_id, "currency", &DataType::Text, &money) {
            Ok(()) => {},
            Err(e) => return Err(e),
        }
        match set_if(&mut df, row_id, "primary_category", &DataType::Text, &primary) {
            Ok(()) => {},
            Err(e) => return Err(e),
        }
        match set_if(&mut df, row_id, "secondary_category", &DataType::Text, &secondary) {
            Ok(()) => {},
            Err(e) => return Err(e),
        }
        self.expense_df = df;
        let op = upsert_row(&self.expense_df, row_id);
        let table = self.change_table();
        record(&mut self.changes, table, row_id, op);
        Ok(())
    }
}

} // verus!
