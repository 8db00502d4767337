//! Carrying a merge plan out on tables in memory.
//!
//! A column that a table lacks rejects the batch: the table is never grown to
//! fit, and an unknown column is never dropped. A column that a row lacks gets
//! the value a new row of that table has there, or null. Each value is converted
//! to the type of its column, and a value that does not fit rejects the batch.
//! No message holds a value of a row.

use vstd::prelude::*;
use crate::dates::{date_read, Date};
use crate::error::{Error, ErrorView};
use crate::merge::{cell_pairs, CellValue, RowAction};
use crate::doubles::{double_of, single_of, to_double, to_single};
use crate::numbers::{whole, whole_number};
use crate::paths::{
    month_file, month_file_name, CASHFLOW_FILENAME, CREDITS_DEBTS_FILENAME, INVESTMENTS_FILENAME,
    INVESTMENTS_PRICES_FILENAME, LIQUIDITY_FILENAME, RECURRING_EXPENSES_FILENAME,
};
use crate::rows::{Number, Row, Value, ValueView};
use crate::sync::ChangeTable;
use crate::table::{
    cell_views, fits, matching_rows, row_fits, Cell, CellView, DataType, DataTypeView, Table,
    TableView,
};
use crate::text::{
    decimal, padded, push_decimal, push_padded, push_signed, same_text, signed_decimal,
};

verus! {

/// The column that names each row.
pub const ROW_ID_COLUMN: &'static str = "row_id";

/// The label of a month column.
pub open spec fn month_label(month: nat) -> Seq<char> {
    padded(month, 2)
}

/// Whether a column is one of the twelve month columns.
pub open spec fn is_month_column(column: Seq<char>) -> bool {
    exists|month: nat| 1 <= month <= 12 && column == #[trigger] month_label(month)
}

/// The labels of the twelve month columns, from `01` to `12`.
pub fn month_labels() -> (r: Vec<String>)
    ensures
        r@.len() == 12,
        forall|i: int| 0 <= i < 12 ==> (#[trigger] r@[i])@ == month_label((i + 1) as nat),
{
    let mut labels: Vec<String> = Vec::new();
    let mut month: u32 = 1;
    while month <= 12
        invariant
            1 <= month <= 13,
            labels@.len() == month - 1,
            forall|i: int| 0 <= i < month - 1 ==> (#[trigger] labels@[i])@ == month_label(
                (i + 1) as nat,
            ),
        decreases 13 - month,
    {
        let mut label = String::new();
        push_padded(&mut label, month as u64, 2);
        assert(label@ =~= month_label(month as nat));
        labels.push(label);
        month = month + 1;
    }
    labels
}

/// Whether a column is one of the twelve month columns.
pub fn is_month(column: &str) -> (r: bool)
    ensures
        r == is_month_column(column@),
{
    let labels = month_labels();
    let mut i: usize = 0;
    while i < labels.len()
        invariant
            i <= labels.len(),
            labels@.len() == 12,
            forall|k: int| 0 <= k < 12 ==> (#[trigger] labels@[k])@ == month_label((k + 1) as nat),
            forall|k: int| 0 <= k < i ==> (#[trigger] labels@[k])@ != column@,
        decreases labels.len() - i,
    {
        if same_text(labels[i].as_str(), column) {
            assert(column@ == month_label((i + 1) as nat));
            return true;
        }
        i = i + 1;
    }
    assert(!is_month_column(column@)) by {
        if is_month_column(column@) {
            let month = choose|month: nat| 1 <= month <= 12 && column@ == #[trigger] month_label(
                month,
            );
            assert(labels@[month - 1]@ == column@);
        }
    }
    false
}

/// One file, or for investments the pair of files that belong together.
#[derive(Clone, Copy, Debug, PartialEq, Eq, Hash, Structural)]
pub enum FileKey {
    Expenses(i32, u32),
    Recurring(i32),
    Investments(i32),
    Liquidity(i32),
    CreditsDebts(i32),
    Cashflow(i32),
}

/// Whether the rows of a table lie in a table file, and not in the settings.
pub open spec fn in_a_file(table: ChangeTable) -> bool {
    file_key(table) is Some
}

/// The file that a table lies in.
pub open spec fn file_key(table: ChangeTable) -> Option<FileKey> {
    match table {
        ChangeTable::Expenses { year, month } => Some(FileKey::Expenses(year, month)),
        ChangeTable::Recurring { year } => Some(FileKey::Recurring(year)),
        ChangeTable::Investments { year } => Some(FileKey::Investments(year)),
        ChangeTable::InvestmentsPrices { year } => Some(FileKey::Investments(year)),
        ChangeTable::Liquidity { year } => Some(FileKey::Liquidity(year)),
        ChangeTable::CreditsDebts { year } => Some(FileKey::CreditsDebts(year)),
        ChangeTable::CashflowIncome { year } => Some(FileKey::Cashflow(year)),
        _ => None,
    }
}

impl FileKey {
    /// The file that a table lies in; none for the settings.
    pub fn of(table: &ChangeTable) -> (r: Option<FileKey>)
        ensures
            r == file_key(*table),
    {
        match *table {
            ChangeTable::Expenses { year, month } => Some(FileKey::Expenses(year, month)),
            ChangeTable::Recurring { year } => Some(FileKey::Recurring(year)),
            ChangeTable::Investments { year } | ChangeTable::InvestmentsPrices { year } => Some(
                FileKey::Investments(year),
            ),
            ChangeTable::Liquidity { year } => Some(FileKey::Liquidity(year)),
            ChangeTable::CreditsDebts { year } => Some(FileKey::CreditsDebts(year)),
            ChangeTable::CashflowIncome { year } => Some(FileKey::Cashflow(year)),
            ChangeTable::CurrencySettings
            | ChangeTable::CategoryMappings
            | ChangeTable::KnownCategories => None,
        }
    }

    /// The year of the file.
    pub open spec fn spec_year(self) -> i32 {
        match self {
            FileKey::Expenses(year, _) => year,
            FileKey::Recurring(year) => year,
            FileKey::Investments(year) => year,
            FileKey::Liquidity(year) => year,
            FileKey::CreditsDebts(year) => year,
            FileKey::Cashflow(year) => year,
        }
    }

    /// The year of the file.
    pub fn year(&self) -> (r: i32)
        ensures
            r == self.spec_year(),
    {
        match *self {
            FileKey::Expenses(year, _)
            | FileKey::Recurring(year)
            | FileKey::Investments(year)
            | FileKey::Liquidity(year)
            | FileKey::CreditsDebts(year)
            | FileKey::Cashflow(year) => year,
        }
    }
}

/// The file of a table, for messages: a file name and a year.
pub open spec fn description(table: ChangeTable) -> Seq<char> {
    match table {
        ChangeTable::Expenses { year, month } => month_file(month as nat) + " of "@
            + signed_decimal(year as int),
        ChangeTable::Recurring { year } => RECURRING_EXPENSES_FILENAME@ + " of "@ + signed_decimal(
            year as int,
        ),
        ChangeTable::Investments { year } => INVESTMENTS_FILENAME@ + " of "@ + signed_decimal(
            year as int,
        ),
        ChangeTable::InvestmentsPrices { year } => INVESTMENTS_PRICES_FILENAME@ + " of "@
            + signed_decimal(year as int),
        ChangeTable::Liquidity { year } => LIQUIDITY_FILENAME@ + " of "@ + signed_decimal(
            year as int,
        ),
        ChangeTable::CreditsDebts { year } => CREDITS_DEBTS_FILENAME@ + " of "@ + signed_decimal(
            year as int,
        ),
        ChangeTable::CashflowIncome { year } => CASHFLOW_FILENAME@ + " of "@ + signed_decimal(
            year as int,
        ),
        _ => Seq::empty(),
    }
}

/// The file of a table, for messages.
pub fn describe(table: &ChangeTable) -> (r: String)
    requires
        in_a_file(*table),
    ensures
        r@ == description(*table),
{
    let (file, year) = match *table {
        ChangeTable::Expenses { year, month } => (month_file_name(month), year),
        ChangeTable::Recurring { year } => (RECURRING_EXPENSES_FILENAME.to_owned(), year),
        ChangeTable::Investments { year } => (INVESTMENTS_FILENAME.to_owned(), year),
        ChangeTable::InvestmentsPrices { year } => (INVESTMENTS_PRICES_FILENAME.to_owned(), year),
        ChangeTable::Liquidity { year } => (LIQUIDITY_FILENAME.to_owned(), year),
        ChangeTable::CreditsDebts { year } => (CREDITS_DEBTS_FILENAME.to_owned(), year),
        ChangeTable::CashflowIncome { year } => (CASHFLOW_FILENAME.to_owned(), year),
        _ => (String::new(), 0),
    };
    let mut text = file.concat(" of ");
    push_signed(&mut text, year as i64);
    text
}

/// The value a column gets when a row does not carry it.
pub open spec fn default_of(table: ChangeTable, column: Seq<char>) -> ValueView {
    let zeroed = table is Investments || table is InvestmentsPrices || table is Liquidity
        || table is CreditsDebts;
    if table is Expenses && column == "secondary_category"@ {
        ValueView::Text(""@)
    } else if (table is Investments || table is InvestmentsPrices) && column == "link"@ {
        ValueView::Text(""@)
    } else if zeroed && is_month_column(column) {
        ValueView::Number(Number::Float(0))
    } else {
        ValueView::Null
    }
}

/// The value a column gets when an upserted row does not carry it: what a new
/// row of this table has there, or null.
pub fn default_value(table: &ChangeTable, column: &str) -> (r: Value)
    ensures
        r@ == default_of(*table, column@),
{
    match table {
        ChangeTable::Expenses { .. } => if same_text(column, "secondary_category") {
            Value::text("")
        } else {
            Value::Null
        },
        ChangeTable::Investments { .. } | ChangeTable::InvestmentsPrices { .. } => if same_text(
            column,
            "link",
        ) {
            Value::text("")
        } else if is_month(column) {
            Value::Number(Number::Float(0))
        } else {
            Value::Null
        },
        ChangeTable::Liquidity { .. } | ChangeTable::CreditsDebts { .. } => if is_month(column) {
            Value::Number(Number::Float(0))
        } else {
            Value::Null
        },
        _ => Value::Null,
    }
}

/// A value of the wrong kind for its column.
pub open spec fn mismatch_error(
    column: Seq<char>,
    table: ChangeTable,
    expected: Seq<char>,
) -> ErrorView {
    ErrorView::MergeRejected(
        "the '"@ + column + "' column of "@ + description(table) + " holds "@ + expected
            + ", and the batch from the other device has a value of another kind for it, so the batch was not applied"@,
    )
}

fn mismatch(column: &str, table: &ChangeTable, expected: &str) -> (e: Error)
    requires
        in_a_file(*table),
    ensures
        e@ == mismatch_error(column@, *table, expected@),
{
    Error::MergeRejected(
        "the '".to_owned().concat(column).concat("' column of ").concat(
            describe(table).as_str(),
        ).concat(" holds ").concat(expected).concat(
            ", and the batch from the other device has a value of another kind for it, so the batch was not applied",
        ),
    )
}

/// A whole number that a value stands for.
pub open spec fn whole_value(value: ValueView) -> Option<i64> {
    match value {
        ValueView::Number(number) => whole(number),
        _ => None,
    }
}

fn whole_of(value: &Value) -> (r: Option<i64>)
    ensures
        r == whole_value(value@),
{
    match value {
        Value::Number(number) => whole_number(*number),
        _ => None,
    }
}

/// What a value is in a date column: a day, or nothing for a null. A text has to
/// name a date, and a number has to be a whole day count.
pub open spec fn day_value(value: ValueView) -> Option<Option<i32>> {
    match value {
        ValueView::Null => Some(None),
        ValueView::Text(text) => match date_read(text) {
            Ok(days) => Some(Some(days)),
            Err(_) => None,
        },
        _ => match whole_value(value) {
            Some(n) => if i32::MIN <= n <= i32::MAX {
                Some(Some(n as i32))
            } else {
                None
            },
            None => None,
        },
    }
}

/// What a value is in a date column: a day, or nothing for a null.
pub fn date_days(value: &Value) -> (r: Option<Option<i32>>)
    ensures
        r == day_value(value@),
{
    match value {
        Value::Null => Some(None),
        Value::Text(text) => match Date::read(text.as_str()) {
            Ok(date) => Some(Some(date.days())),
            Err(_) => None,
        },
        _ => match whole_of(value) {
            Some(n) => if -0x8000_0000 <= n && n <= 0x7fff_ffff {
                Some(Some(n as i32))
            } else {
                None
            },
            None => None,
        },
    }
}

/// A value converted to the type of its column, or why it cannot be.
pub open spec fn converted(
    column: Seq<char>,
    dtype: DataTypeView,
    value: ValueView,
    table: ChangeTable,
) -> Result<CellView, ErrorView> {
    match dtype {
        DataTypeView::Text => match value {
            ValueView::Null => Ok(CellView::Null),
            ValueView::Text(text) => Ok(CellView::Text(text)),
            _ => Err(mismatch_error(column, table, "text"@)),
        },
        DataTypeView::Float64 => match value {
            ValueView::Null => Ok(CellView::Null),
            ValueView::Number(number) => Ok(CellView::Float(double_of(number))),
            _ => Err(mismatch_error(column, table, "numbers"@)),
        },
        DataTypeView::Float32 => match value {
            ValueView::Null => Ok(CellView::Null),
            ValueView::Number(number) => Ok(CellView::Float(single_of(double_of(number)))),
            _ => Err(mismatch_error(column, table, "numbers"@)),
        },
        DataTypeView::Int64 => if value is Null {
            Ok(CellView::Null)
        } else {
            match whole_value(value) {
                Some(n) => Ok(CellView::Int(n)),
                None => Err(mismatch_error(column, table, "whole numbers"@)),
            }
        },
        DataTypeView::Int32 => if value is Null {
            Ok(CellView::Null)
        } else {
            match whole_value(value) {
                Some(n) => if i32::MIN <= n <= i32::MAX {
                    Ok(CellView::Int(n))
                } else {
                    Err(mismatch_error(column, table, "whole numbers"@))
                },
                None => Err(mismatch_error(column, table, "whole numbers"@)),
            }
        },
        DataTypeView::Date => match day_value(value) {
            Some(Some(days)) => Ok(CellView::Date(days)),
            Some(None) => Ok(CellView::Null),
            None => Err(mismatch_error(column, table, "dates"@)),
        },
        DataTypeView::Boolean => match value {
            ValueView::Null => Ok(CellView::Null),
            ValueView::Bool(flag) => Ok(CellView::Bool(flag)),
            _ => Err(mismatch_error(column, table, "true or false"@)),
        },
        DataTypeView::Other(name) => Err(
            ErrorView::MergeRejected(
                "the '"@ + column + "' column of "@ + description(table) + " holds "@ + name
                    + " values, which a merge cannot write, so the batch was not applied"@,
            ),
        ),
    }
}

/// A value converted to the type of its column. A date column takes both a day
/// as text and a day count; a whole number column takes whole numbers only.
pub fn one_value(
    column: &str,
    dtype: &DataType,
    value: &Value,
    table: &ChangeTable,
) -> (r: Result<Cell, Error>)
    requires
        in_a_file(*table),
    ensures
        match r {
            Ok(cell) => converted(column@, dtype@, value@, *table) == Ok::<CellView, ErrorView>(
                cell@,
            ) && fits(dtype@, cell@),
            Err(e) => converted(column@, dtype@, value@, *table) == Err::<CellView, ErrorView>(e@),
        },
{
    match dtype {
        DataType::Text => match value {
            Value::Null => Ok(Cell::Null),
            Value::Text(text) => Ok(Cell::Text(text.clone())),
            _ => Err(mismatch(column, table, "text")),
        },
        DataType::Float64 => match value {
            Value::Null => Ok(Cell::Null),
            Value::Number(number) => Ok(Cell::Float(to_double(*number))),
            _ => Err(mismatch(column, table, "numbers")),
        },
        DataType::Float32 => match value {
            Value::Null => Ok(Cell::Null),
            Value::Number(number) => Ok(Cell::Float(to_single(to_double(*number)))),
            _ => Err(mismatch(column, table, "numbers")),
        },
        DataType::Int64 => match value {
            Value::Null => Ok(Cell::Null),
            _ => match whole_of(value) {
                Some(n) => Ok(Cell::Int(n)),
                None => Err(mismatch(column, table, "whole numbers")),
            },
        },
        DataType::Int32 => match value {
            Value::Null => Ok(Cell::Null),
            _ => match whole_of(value) {
                Some(n) => if -0x8000_0000 <= n && n <= 0x7fff_ffff {
                    Ok(Cell::Int(n))
                } else {
                    Err(mismatch(column, table, "whole numbers"))
                },
                None => Err(mismatch(column, table, "whole numbers")),
            },
        },
        DataType::Date => match date_days(value) {
            Some(Some(days)) => Ok(Cell::Date(days)),
            Some(None) => Ok(Cell::Null),
            None => Err(mismatch(column, table, "dates")),
        },
        DataType::Boolean => match value {
            Value::Null => Ok(Cell::Null),
            Value::Bool(flag) => Ok(Cell::Bool(*flag)),
            _ => Err(mismatch(column, table, "true or false")),
        },
        DataType::Other(name) => Err(
            Error::MergeRejected(
                "the '".to_owned().concat(column).concat("' column of ").concat(
                    describe(table).as_str(),
                ).concat(" holds ").concat(name.as_str()).concat(
                    " values, which a merge cannot write, so the batch was not applied",
                ),
            ),
        ),
    }
}

/// Several rows share one id.
pub open spec fn shared_id_error(found: nat, table: ChangeTable, row_id: Seq<char>) -> ErrorView {
    ErrorView::AlreadyExists(
        decimal(found) + " rows of "@ + description(table) + " share the id '"@ + row_id
            + "', so the merge changed nothing. Each row ID must be unique; the data file needs repair."@,
    )
}

/// A column that a table lacks.
pub open spec fn missing_column_error(table: ChangeTable, column: Seq<char>) -> ErrorView {
    ErrorView::MergeRejected(
        description(table) + " has no column '"@ + column
            + "', so the batch from the other device was not applied. The two devices store this table with different columns."@,
    )
}

/// A table without the column that its rows are found by.
pub open spec fn key_column_error(column: Seq<char>) -> ErrorView {
    ErrorView::Polars("no text column '"@ + column + "'"@)
}

/// The positions of the rows whose `key_column` equals `key`.
pub open spec fn found_rows(
    table: TableView,
    key_column: Seq<char>,
    key: Seq<char>,
) -> Result<Seq<int>, ErrorView> {
    if table.has_column(key_column) && table.columns[table.column_of(key_column)].dtype is Text {
        Ok(matching_rows(table.rows, table.column_of(key_column), key, table.rows.len() as int))
    } else {
        Err(key_column_error(key_column))
    }
}

/// The positions of the rows whose `key_column` equals `key`.
pub fn positions(df: &Table, key_column: &str, key: &str) -> (r: Result<Vec<usize>, Error>)
    ensures
        match r {
            Ok(found) => found_rows(df@, key_column@, key@) == Ok::<Seq<int>, ErrorView>(
                found@.map_values(|i: usize| i as int),
            ),
            Err(e) => found_rows(df@, key_column@, key@) == Err::<Seq<int>, ErrorView>(e@),
        },
{
    match df.find_column(key_column) {
        Some(c) => {
            if let DataType::Text = &df.column_at(c).dtype {
                assert(df@.columns[c as int].dtype is Text);
                return Ok(df.rows_with_text(c, key));
            }
            assert(!(df@.columns[c as int].dtype is Text));
        },
        None => {},
    }
    Err(Error::Polars("no text column '".to_owned().concat(key_column).concat("'")))
}

/// The one row found, if any; several rows are an error.
pub open spec fn single(
    found: Seq<int>,
    table: ChangeTable,
    row_id: Seq<char>,
) -> Result<Option<int>, ErrorView> {
    if found.len() == 0 {
        Ok(None)
    } else if found.len() == 1 {
        Ok(Some(found[0]))
    } else {
        Err(shared_id_error(found.len(), table, row_id))
    }
}

/// Fail when several rows share `row_id`: writing one of them, or all of them,
/// would each be a guess.
pub fn at_most_one(found: &Vec<usize>, table: &ChangeTable, row_id: &str) -> (r: Result<
    Option<usize>,
    Error,
>)
    requires
        in_a_file(*table),
    ensures
        match r {
            Ok(Some(i)) => single(found@.map_values(|i: usize| i as int), *table, row_id@) == Ok::<
                Option<int>,
                ErrorView,
            >(Some(i as int)) && found@.len() == 1 && found@[0] == i,
            Ok(None) => single(found@.map_values(|i: usize| i as int), *table, row_id@) == Ok::<
                Option<int>,
                ErrorView,
            >(None),
            Err(e) => single(found@.map_values(|i: usize| i as int), *table, row_id@) == Err::<
                Option<int>,
                ErrorView,
            >(e@),
        },
{
    if found.len() == 0 {
        Ok(None)
    } else if found.len() == 1 {
        assert(found@.map_values(|i: usize| i as int)[0] == found@[0]);
        Ok(Some(found[0]))
    } else {
        let mut message = String::new();
        push_decimal(&mut message, found.len() as u64);
        assert(message@ =~= decimal(found.len() as nat));
        Err(
            Error::AlreadyExists(
                message.concat(" rows of ").concat(describe(table).as_str()).concat(
                    " share the id '",
                ).concat(row_id).concat(
                    "', so the merge changed nothing. Each row ID must be unique; the data file needs repair.",
                ),
            ),
        )
    }
}

/// Fail naming the table and the column when there is no such column.
pub fn require_column(df: &Table, table: &ChangeTable, column: &str) -> (r: Result<(), Error>)
    requires
        in_a_file(*table),
    ensures
        match r {
            Ok(()) => df@.has_column(column@),
            Err(e) => !df@.has_column(column@) && e@ == missing_column_error(*table, column@),
        },
{
    if df.has_column(column) {
        Ok(())
    } else {
        Err(missing_column(table, column))
    }
}

fn missing_column(table: &ChangeTable, column: &str) -> (e: Error)
    requires
        in_a_file(*table),
    ensures
        e@ == missing_column_error(*table, column@),
{
    Error::MergeRejected(
        describe(table).concat(" has no column '").concat(column).concat(
            "', so the batch from the other device was not applied. The two devices store this table with different columns.",
        ),
    )
}

/// The first column of some cells that a table lacks.
pub open spec fn first_missing(
    df: TableView,
    cells: Seq<(Seq<char>, ValueView)>,
    n: int,
) -> Option<Seq<char>>
    decreases n,
{
    if n <= 0 {
        None
    } else {
        match first_missing(df, cells, n - 1) {
            Some(column) => Some(column),
            None => if df.has_column(cells[n - 1].0) {
                None
            } else {
                Some(cells[n - 1].0)
            },
        }
    }
}

/// The value that an upserted row gives a column.
pub open spec fn value_for(
    table: ChangeTable,
    row_id: Seq<char>,
    row: Map<Seq<char>, ValueView>,
    column: Seq<char>,
) -> ValueView {
    if column == ROW_ID_COLUMN@ {
        ValueView::Text(row_id)
    } else if row.contains_key(column) {
        row[column]
    } else {
        default_of(table, column)
    }
}

/// The first `n` cells of an upserted row, converted to the types of the
/// columns, or what is wrong with the first that cannot be.
pub open spec fn converted_row(
    df: TableView,
    table: ChangeTable,
    row_id: Seq<char>,
    row: Map<Seq<char>, ValueView>,
    n: int,
) -> Result<Seq<CellView>, ErrorView>
    decreases n,
{
    if n <= 0 {
        Ok(Seq::empty())
    } else {
        let column = df.columns[n - 1];
        match converted_row(df, table, row_id, row, n - 1) {
            Err(e) => Err(e),
            Ok(cells) => match converted(
                column.name,
                column.dtype,
                value_for(table, row_id, row, column.name),
                table,
            ) {
                Ok(cell) => Ok(cells.push(cell)),
                Err(e) => Err(e),
            },
        }
    }
}

/// A row that carries another id than the change that holds it.
pub open spec fn carried_id_error(table: ChangeTable) -> ErrorView {
    ErrorView::MergeRejected(
        "a row for "@ + description(table) + " carries a '"@ + ROW_ID_COLUMN@
            + "' that is not the id of the change holding it, so the batch was not applied"@,
    )
}

/// Whether a row carries no id, or the id of the change that holds it.
pub open spec fn carries_its_id(row: Map<Seq<char>, ValueView>, row_id: Seq<char>) -> bool {
    row.contains_key(ROW_ID_COLUMN@) ==> row[ROW_ID_COLUMN@] is Null || row[ROW_ID_COLUMN@]
        == ValueView::Text(row_id)
}

/// A table after an upsert, or why the row does not fit.
pub open spec fn upserted(
    df: TableView,
    table: ChangeTable,
    row_id: Seq<char>,
    cells: Seq<(Seq<char>, ValueView)>,
    row: Map<Seq<char>, ValueView>,
    found: Option<int>,
) -> Result<TableView, ErrorView> {
    match first_missing(df, cells, cells.len() as int) {
        Some(column) => Err(missing_column_error(table, column)),
        None => if !carries_its_id(row, row_id) {
            Err(carried_id_error(table))
        } else {
            match converted_row(df, table, row_id, row, df.columns.len() as int) {
                Err(e) => Err(e),
                Ok(new_row) => match found {
                    Some(i) => Ok(df.with_row(i, new_row)),
                    None => Ok(df.with_new_row(new_row)),
                },
            }
        },
    }
}

/// Replace the row at `found`, or append it when there is none, with exactly the
/// columns of the table: the row's own values, and the table's defaults for the
/// columns it lacks. On an error the table stays as it is.
pub fn upsert(
    df: &mut Table,
    table: &ChangeTable,
    row_id: &str,
    row: &Row,
    found: Option<usize>,
) -> (r: Result<(), Error>)
    requires
        in_a_file(*table),
        found matches Some(i) ==> i < old(df)@.rows.len(),
    ensures
        ({
            let want = upserted(
                old(df)@,
                *table,
                row_id@,
                row.pairs(),
                row@,
                match found {
                    Some(i) => Some(i as int),
                    None => None,
                },
            );
            match r {
                Ok(()) => want == Ok::<TableView, ErrorView>(final(df)@),
                Err(e) => want == Err::<TableView, ErrorView>(e@) && final(df)@ == old(df)@,
            }
        }),
{
    let ghost before = df@;
    let ghost cells = row.pairs();
    let mut k: usize = 0;
    while k < row.len()
        invariant
            k <= cells.len(),
            cells == row.pairs(),
            before == df@,
            in_a_file(*table),
            first_missing(before, cells, k as int) is None,
        decreases cells.len() - k,
    {
        if !df.has_column(row.key_at(k)) {
            proof {
                lemma_first_missing(before, cells, k + 1, cells.len() as int);
            }
            return Err(missing_column(table, row.key_at(k)));
        }
        k = k + 1;
    }
    let carried_fits = match row.get(ROW_ID_COLUMN) {
        None => true,
        Some(Value::Null) => true,
        Some(Value::Text(carried)) => same_text(carried.as_str(), row_id),
        Some(_) => false,
    };
    if !carried_fits {
        return Err(
            Error::MergeRejected(
                "a row for ".to_owned().concat(describe(table).as_str()).concat(
                    " carries a '",
                ).concat(ROW_ID_COLUMN).concat(
                    "' that is not the id of the change holding it, so the batch was not applied",
                ),
            ),
        );
    }
    let mut new_row: Vec<Cell> = Vec::new();
    let mut c: usize = 0;
    assert(cell_views(new_row@) =~= Seq::empty());
    while c < df.width()
        invariant
            c <= before.columns.len(),
            before == df@,
            in_a_file(*table),
            cells == row.pairs(),
            first_missing(before, cells, cells.len() as int) is None,
            carries_its_id(row@, row_id@),
            new_row@.len() == c,
            converted_row(before, *table, row_id@, row@, c as int) == Ok::<
                Seq<CellView>,
                ErrorView,
            >(cell_views(new_row@)),
            forall|j: int|
                0 <= j < c ==> fits(before.columns[j].dtype, (#[trigger] new_row@[j])@),
        decreases before.columns.len() - c,
    {
        let column = df.column_at(c);
        let name = column.name.as_str();
        let value = if same_text(name, ROW_ID_COLUMN) {
            Value::text(row_id)
        } else {
            match row.get(name) {
                Some(value) => value.clone(),
                None => default_value(table, name),
            }
        };
        assert(value@ == value_for(*table, row_id@, row@, before.columns[c as int].name));
        match one_value(name, &column.dtype, &value, table) {
            Ok(cell) => {
                let ghost so_far = cell_views(new_row@);
                new_row.push(cell);
                assert(cell_views(new_row@) =~= so_far.push(cell@));
            },
            Err(e) => {
                proof {
                    lemma_converted_row(
                        before,
                        *table,
                        row_id@,
                        row@,
                        c + 1,
                        before.columns.len() as int,
                    );
                }
                return Err(e);
            },
        }
        c = c + 1;
    }
    assert(row_fits(before.columns, cell_views(new_row@)));
    match found {
        Some(i) => df.set_row(i, new_row),
        None => df.push_row(new_row),
    }
    Ok(())
}

proof fn lemma_first_missing(df: TableView, cells: Seq<(Seq<char>, ValueView)>, k: int, n: int)
    requires
        0 <= k <= n,
        first_missing(df, cells, k) is Some,
    ensures
        first_missing(df, cells, n) == first_missing(df, cells, k),
    decreases n,
{
    if k < n {
        lemma_first_missing(df, cells, k, n - 1);
    }
}

proof fn lemma_converted_row(
    df: TableView,
    table: ChangeTable,
    row_id: Seq<char>,
    row: Map<Seq<char>, ValueView>,
    k: int,
    n: int,
)
    requires
        0 <= k <= n,
        converted_row(df, table, row_id, row, k) is Err,
    ensures
        converted_row(df, table, row_id, row, n) == converted_row(df, table, row_id, row, k),
    decreases n,
{
    if k < n {
        lemma_converted_row(df, table, row_id, row, k, n - 1);
    }
}

/// A cell change that names the column of the row ids.
pub open spec fn id_cell_error(table: ChangeTable) -> ErrorView {
    ErrorView::MergeRejected(
        "a cell change for "@ + description(table) + " names the '"@ + ROW_ID_COLUMN@
            + "' column, which only a whole row may set, so the batch was not applied"@,
    )
}

/// A table after the first `n` of some cells of a row are set, or what is wrong
/// with the first that does not fit.
pub open spec fn cells_set(
    df: TableView,
    table: ChangeTable,
    row: int,
    cells: Seq<(Seq<char>, ValueView)>,
    n: int,
) -> Result<TableView, ErrorView>
    decreases n,
{
    if n <= 0 {
        Ok(df)
    } else {
        let column = cells[n - 1].0;
        let c = df.column_of(column);
        match cells_set(df, table, row, cells, n - 1) {
            Err(e) => Err(e),
            Ok(before) => if !df.has_column(column) {
                Err(missing_column_error(table, column))
            } else if column == ROW_ID_COLUMN@ {
                Err(id_cell_error(table))
            } else {
                match converted(column, df.columns[c].dtype, cells[n - 1].1, table) {
                    Err(e) => Err(e),
                    Ok(cell) => Ok(before.with_cell(row, c, cell)),
                }
            },
        }
    }
}

proof fn lemma_cells_set_stops(
    df: TableView,
    table: ChangeTable,
    row: int,
    cells: Seq<(Seq<char>, ValueView)>,
    k: int,
    n: int,
)
    requires
        0 <= k <= n,
        cells_set(df, table, row, cells, k) is Err,
    ensures
        cells_set(df, table, row, cells, n) == cells_set(df, table, row, cells, k),
    decreases n,
{
    if k < n {
        lemma_cells_set_stops(df, table, row, cells, k, n - 1);
    }
}

/// Set cells of the row at `index`, leaving every other column alone. On an
/// error the table stays as it is.
pub fn set_cells(
    df: &mut Table,
    table: &ChangeTable,
    index: usize,
    cells: &Vec<CellValue>,
) -> (r: Result<(), Error>)
    requires
        in_a_file(*table),
        index < old(df)@.rows.len(),
    ensures
        ({
            let want = cells_set(
                old(df)@,
                *table,
                index as int,
                cell_pairs(cells@),
                cells@.len() as int,
            );
            match r {
                Ok(()) => want == Ok::<TableView, ErrorView>(final(df)@),
                Err(e) => want == Err::<TableView, ErrorView>(e@) && final(df)@ == old(df)@,
            }
        }),
{
    let ghost before = df@;
    let ghost pairs = cell_pairs(cells@);
    let mut next = df.clone();
    let mut k: usize = 0;
    while k < cells.len()
        invariant
            k <= cells.len(),
            pairs == cell_pairs(cells@),
            before == df@,
            in_a_file(*table),
            index < before.rows.len(),
            next@.columns == before.columns,
            next@.rows.len() == before.rows.len(),
            cells_set(before, *table, index as int, pairs, k as int) == Ok::<TableView, ErrorView>(
                next@,
            ),
        decreases cells.len() - k,
    {
        let cell = &cells[k];
        assert(pairs[k as int] == (cell.column@, cell.value@));
        let name = cell.column.as_str();
        match df.find_column(name) {
            None => {
                proof {
                    lemma_cells_set_stops(
                        before,
                        *table,
                        index as int,
                        pairs,
                        k + 1,
                        pairs.len() as int,
                    );
                }
                return Err(missing_column(table, name));
            },
            Some(c) => {
                if same_text(name, ROW_ID_COLUMN) {
                    proof {
                        lemma_cells_set_stops(
                            before,
                            *table,
                            index as int,
                            pairs,
                            k + 1,
                            pairs.len() as int,
                        );
                    }
                    return Err(
                        Error::MergeRejected(
                            "a cell change for ".to_owned().concat(
                                describe(table).as_str(),
                            ).concat(" names the '").concat(ROW_ID_COLUMN).concat(
                                "' column, which only a whole row may set, so the batch was not applied",
                            ),
                        ),
                    );
                }
                match one_value(name, &df.column_at(c).dtype, &cell.value, table) {
                    Err(e) => {
                        proof {
                            lemma_cells_set_stops(
                                before,
                                *table,
                                index as int,
                                pairs,
                                k + 1,
                                pairs.len() as int,
                            );
                        }
                        return Err(e);
                    },
                    Ok(converted_cell) => {
                        next.set_cell(index, c, converted_cell);
                    },
                }
            },
        }
        k = k + 1;
    }
    *df = next;
    Ok(())
}

/// A write as its cells are listed, in the order of the columns.
pub enum WriteView {
    Upsert(Seq<(Seq<char>, ValueView)>, Map<Seq<char>, ValueView>),
    Delete,
    SetCells(Seq<(Seq<char>, ValueView)>),
}

/// The cells of a write, listed.
pub open spec fn listed(action: RowAction) -> WriteView {
    match action {
        RowAction::Upsert { row } => WriteView::Upsert(row.pairs(), row@),
        RowAction::Delete => WriteView::Delete,
        RowAction::SetCells { cells } => WriteView::SetCells(cell_pairs(cells@)),
    }
}

/// A cell change of a row that is not there.
pub open spec fn absent_row_error(table: ChangeTable, row_id: Seq<char>) -> ErrorView {
    ErrorView::NotFound(
        "No row with id '"@ + row_id + "' in "@ + description(table)
            + ", so the merge cannot set cells of it."@,
    )
}

/// A table after a write on the row found, if any, with whether it changed; or
/// why the write does not fit.
pub open spec fn written_at(
    df: TableView,
    table: ChangeTable,
    row_id: Seq<char>,
    write: WriteView,
    found: Option<int>,
) -> Result<(TableView, bool), ErrorView> {
    match write {
        WriteView::Upsert(cells, row) => match upserted(df, table, row_id, cells, row, found) {
            Ok(after) => Ok((after, true)),
            Err(e) => Err(e),
        },
        WriteView::Delete => match found {
            Some(i) => Ok((df.without_row(i), true)),
            None => Ok((df, false)),
        },
        WriteView::SetCells(cells) => match found {
            None => Err(absent_row_error(table, row_id)),
            Some(i) => match cells_set(df, table, i, cells, cells.len() as int) {
                Ok(after) => Ok((after, true)),
                Err(e) => Err(e),
            },
        },
    }
}

/// A table after a write on the row with an id, with whether it changed; or why
/// the write does not fit.
pub open spec fn written(
    df: TableView,
    table: ChangeTable,
    row_id: Seq<char>,
    write: WriteView,
) -> Result<(TableView, bool), ErrorView> {
    match found_rows(df, ROW_ID_COLUMN@, row_id) {
        Err(e) => Err(e),
        Ok(found) => match single(found, table, row_id) {
            Err(e) => Err(e),
            Ok(at) => written_at(df, table, row_id, write, at),
        },
    }
}

pub proof fn lemma_matching_rows(rows: Seq<Seq<CellView>>, column: int, text: Seq<char>, n: int)
    requires
        0 <= n <= rows.len(),
    ensures
        forall|k: int|
            0 <= k < matching_rows(rows, column, text, n).len() ==> {
                let i = #[trigger] matching_rows(rows, column, text, n)[k];
                0 <= i < n && rows[i][column] == CellView::Text(text)
            },
        forall|i: int|
            0 <= i < n && (#[trigger] rows[i])[column] == CellView::Text(text) ==> matching_rows(
                rows,
                column,
                text,
                n,
            ).contains(i),
        forall|k: int, l: int|
            0 <= k < l < matching_rows(rows, column, text, n).len() ==> (#[trigger] matching_rows(
                rows,
                column,
                text,
                n,
            )[k]) < (#[trigger] matching_rows(rows, column, text, n)[l]),
    decreases n,
{
    if n > 0 {
        lemma_matching_rows(rows, column, text, n - 1);
        let rest = matching_rows(rows, column, text, n - 1);
        let all = matching_rows(rows, column, text, n);
        assert forall|i: int|
            0 <= i < n && (#[trigger] rows[i])[column] == CellView::Text(text) implies all.contains(
            i,
        ) by {
            if i < n - 1 {
                let k = choose|k: int| 0 <= k < rest.len() && rest[k] == i;
                assert(all[k] == i);
            } else {
                assert(all[rest.len() as int] == i);
            }
        }
    }
}

/// Apply one write to a table whose rows are named by their id, and say whether
/// the table changed. Only a delete of a row that is not there leaves it
/// unchanged. On an error the table stays as it is.
pub fn apply_row_action(
    df: &mut Table,
    table: &ChangeTable,
    row_id: &str,
    action: &RowAction,
) -> (r: Result<bool, Error>)
    requires
        in_a_file(*table),
    ensures
        match r {
            Ok(changed) => written(old(df)@, *table, row_id@, listed(*action)) == Ok::<
                (TableView, bool),
                ErrorView,
            >((final(df)@, changed)),
            Err(e) => written(old(df)@, *table, row_id@, listed(*action)) == Err::<
                (TableView, bool),
                ErrorView,
            >(e@) && final(df)@ == old(df)@,
        },
{
    let ghost before = df@;
    let rows = positions(df, ROW_ID_COLUMN, row_id)?;
    let found = at_most_one(&rows, table, row_id)?;
    proof {
        lemma_matching_rows(
            before.rows,
            before.column_of(ROW_ID_COLUMN@),
            row_id@,
            before.rows.len() as int,
        );
        if found is Some {
            assert(rows@.map_values(|i: usize| i as int)[0] == found->0);
        }
    }
    match action {
        RowAction::Upsert { row } => {
            upsert(df, table, row_id, row, found)?;
            Ok(true)
        },
        RowAction::Delete => match found {
            Some(i) => {
                df.remove_row(i);
                Ok(true)
            },
            None => Ok(false),
        },
        RowAction::SetCells { cells } => match found {
            Some(i) => {
                set_cells(df, table, i, cells)?;
                Ok(true)
            },
            None => Err(
                Error::NotFound(
                    "No row with id '".to_owned().concat(row_id).concat("' in ").concat(
                        describe(table).as_str(),
                    ).concat(", so the merge cannot set cells of it."),
                ),
            ),
        },
    }
}

/// Whether a name is one of the income categories.
pub open spec fn income_category(name: Seq<char>) -> bool {
    name == "Salary"@ || name == "Interests Bank account"@ || name == "Dividendi e Cedole"@ || name
        == "Other"@
}

/// Whether a name is one of the income categories.
pub fn is_income_category(name: &str) -> (r: bool)
    ensures
        r == income_category(name@),
{
    same_text(name, "Salary") || same_text(name, "Interests Bank account") || same_text(
        name,
        "Dividendi e Cedole",
    ) || same_text(name, "Other")
}

/// The first cell, among the first `n`, that is not of a month column.
pub open spec fn first_other_column(cells: Seq<(Seq<char>, ValueView)>, n: int) -> Option<Seq<char>>
    decreases n,
{
    if n <= 0 {
        None
    } else {
        match first_other_column(cells, n - 1) {
            Some(column) => Some(column),
            None => if is_month_column(cells[n - 1].0) {
                None
            } else {
                Some(cells[n - 1].0)
            },
        }
    }
}

/// A cashflow change of a whole row.
pub open spec fn whole_income_row_error(table: ChangeTable) -> ErrorView {
    ErrorView::MergeRejected(
        "a change for "@ + description(table)
            + " adds or removes a whole row, but only income cells of that table are synced, so the batch was not applied"@,
    )
}

/// A cashflow change of a row that is not an income category.
pub open spec fn not_income_error(table: ChangeTable) -> ErrorView {
    ErrorView::MergeRejected(
        "a change for "@ + description(table)
            + " names a row that is not an income category, so the batch was not applied"@,
    )
}

/// A cashflow change of a column that is not a month.
pub open spec fn not_month_error(table: ChangeTable, column: Seq<char>) -> ErrorView {
    ErrorView::MergeRejected(
        "a change for "@ + description(table) + " sets the '"@ + column
            + "' column, but only month columns of income rows are synced, so the batch was not applied"@,
    )
}

/// A cashflow table without a row of an income category.
pub open spec fn no_income_row_error(table: ChangeTable) -> ErrorView {
    ErrorView::NotFound(
        description(table)
            + " has no row for an income category the batch changes, so the merge changed nothing"@,
    )
}

/// Several rows of one income category.
pub open spec fn shared_income_error(found: nat, table: ChangeTable) -> ErrorView {
    ErrorView::AlreadyExists(
        decimal(found) + " rows of "@ + description(table)
            + " hold the same income category, so the merge changed nothing. The data file needs repair."@,
    )
}

/// A cashflow table after a write of income cells, with whether it changed; or
/// why the write does not fit.
pub open spec fn income_written(
    df: TableView,
    table: ChangeTable,
    row_id: Seq<char>,
    write: WriteView,
) -> Result<(TableView, bool), ErrorView> {
    match write {
        WriteView::SetCells(cells) => if !income_category(row_id) {
            Err(not_income_error(table))
        } else {
            match found_rows(df, "category"@, row_id) {
                Err(e) => Err(e),
                Ok(found) => if found.len() == 0 {
                    Err(no_income_row_error(table))
                } else if found.len() > 1 {
                    Err(shared_income_error(found.len(), table))
                } else {
                    match first_other_column(cells, cells.len() as int) {
                        Some(column) => if !df.has_column(column) {
                            Err(missing_column_error(table, column))
                        } else {
                            Err(not_month_error(table, column))
                        },
                        None => match cells_set(df, table, found[0], cells, cells.len() as int) {
                            Ok(after) => Ok((after, cells.len() > 0)),
                            Err(e) => Err(e),
                        },
                    }
                },
            }
        },
        _ => Err(whole_income_row_error(table)),
    }
}

proof fn lemma_first_other_column(cells: Seq<(Seq<char>, ValueView)>, k: int, n: int)
    requires
        0 <= k <= n,
        first_other_column(cells, k) is Some,
    ensures
        first_other_column(cells, n) == first_other_column(cells, k),
    decreases n,
{
    if k < n {
        lemma_first_other_column(cells, k, n - 1);
    }
}

/// Apply one write to a cashflow table, and say whether it changed. Its rows are
/// the fixed income categories, and only their month cells are ever changed by
/// hand. On an error the table stays as it is.
pub fn apply_income_action(
    df: &mut Table,
    table: &ChangeTable,
    row_id: &str,
    action: &RowAction,
) -> (r: Result<bool, Error>)
    requires
        in_a_file(*table),
    ensures
        match r {
            Ok(changed) => income_written(old(df)@, *table, row_id@, listed(*action)) == Ok::<
                (TableView, bool),
                ErrorView,
            >((final(df)@, changed)),
            Err(e) => income_written(old(df)@, *table, row_id@, listed(*action)) == Err::<
                (TableView, bool),
                ErrorView,
            >(e@) && final(df)@ == old(df)@,
        },
{
    let ghost before = df@;
    let cells = match action {
        RowAction::SetCells { cells } => cells,
        _ => {
            return Err(
                Error::MergeRejected(
                    "a change for ".to_owned().concat(describe(table).as_str()).concat(
                        " adds or removes a whole row, but only income cells of that table are synced, so the batch was not applied",
                    ),
                ),
            );
        },
    };
    if !is_income_category(row_id) {
        return Err(
            Error::MergeRejected(
                "a change for ".to_owned().concat(describe(table).as_str()).concat(
                    " names a row that is not an income category, so the batch was not applied",
                ),
            ),
        );
    }
    let found = positions(df, "category", row_id)?;
    let ghost places = found@.map_values(|i: usize| i as int);
    if found.len() == 0 {
        return Err(
            Error::NotFound(
                describe(table).concat(
                    " has no row for an income category the batch changes, so the merge changed nothing",
                ),
            ),
        );
    }
    if found.len() > 1 {
        let mut message = String::new();
        push_decimal(&mut message, found.len() as u64);
        assert(message@ =~= decimal(found.len() as nat));
        return Err(
            Error::AlreadyExists(
                message.concat(" rows of ").concat(describe(table).as_str()).concat(
                    " hold the same income category, so the merge changed nothing. The data file needs repair.",
                ),
            ),
        );
    }
    let index: usize = found[0];
    assert(places[0] == index);
    let ghost pairs = cell_pairs(cells@);
    let mut k: usize = 0;
    while k < cells.len()
        invariant
            k <= cells.len(),
            pairs == cell_pairs(cells@),
            before == df@,
            in_a_file(*table),
            listed(*action) == WriteView::SetCells(pairs),
            income_category(row_id@),
            found_rows(before, "category"@, row_id@) == Ok::<Seq<int>, ErrorView>(places),
            places.len() == 1,
            first_other_column(pairs, k as int) is None,
        decreases cells.len() - k,
    {
        let column = cells[k].column.as_str();
        assert(pairs[k as int].0 == column@);
        if !is_month(column) {
            proof {
                lemma_first_other_column(pairs, k + 1, pairs.len() as int);
            }
            require_column(df, table, column)?;
            return Err(
                Error::MergeRejected(
                    "a change for ".to_owned().concat(describe(table).as_str()).concat(
                        " sets the '",
                    ).concat(column).concat(
                        "' column, but only month columns of income rows are synced, so the batch was not applied",
                    ),
                ),
            );
        }
        k = k + 1;
    }
    proof {
        lemma_matching_rows(
            before.rows,
            before.column_of("category"@),
            row_id@,
            before.rows.len() as int,
        );
    }
    set_cells(df, table, index, cells)?;
    Ok(cells.len() > 0)
}

} // verus!
