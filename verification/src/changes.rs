//! What a table change leaves for the change log.
//!
//! Every function that changes a table also says what to record of it: an
//! expense or a recurring template as a whole row, a figure of a yearly table as
//! one cell. The record is made after the table has been saved, so a change that
//! cannot be recorded is kept here with the reason and never undone.

use vstd::prelude::*;
use crate::dates::{is_day, text_of, Date};
use crate::error::{Error, ErrorView};
use crate::merge_apply::{found_rows, positions, ROW_ID_COLUMN};
use crate::numbers::{float_finite, is_finite, FloatBits};
use crate::rows::{Number, Row, Value, ValueView};
use crate::sync::{ChangeOp, ChangeOrigin, ChangeTable, OpView, OriginView};
use crate::table::{
    fits, Cell, CellView, Column, ColumnView, DataType, DataTypeView, Table, TableView,
};

verus! {

/// One change to record, once the table it was made on is saved.
#[derive(Debug, PartialEq, Eq)]
pub struct Change {
    pub table: ChangeTable,
    pub row_id: String,
    /// What was changed, or why the log cannot carry it.
    pub op: Result<ChangeOp, Error>,
    pub origin: Option<ChangeOrigin>,
}

/// What a [`Change`] says.
pub struct ChangeView {
    pub table: ChangeTable,
    pub row_id: Seq<char>,
    pub op: Result<OpView, ErrorView>,
    pub origin: Option<OriginView>,
}

/// What an optional origin says.
pub open spec fn origin_view(origin: Option<ChangeOrigin>) -> Option<OriginView> {
    match origin {
        Some(o) => Some(o@),
        None => None,
    }
}

/// What an operation to record says.
pub open spec fn op_view(op: Result<ChangeOp, Error>) -> Result<OpView, ErrorView> {
    match op {
        Ok(op) => Ok(op@),
        Err(e) => Err(e@),
    }
}

impl View for Change {
    type V = ChangeView;

    open spec fn view(&self) -> ChangeView {
        ChangeView {
            table: self.table,
            row_id: self.row_id@,
            op: op_view(self.op),
            origin: origin_view(self.origin),
        }
    }
}

/// What the changes of a list say.
pub open spec fn change_views(changes: Seq<Change>) -> Seq<ChangeView> {
    Seq::new(changes.len(), |i: int| changes[i]@)
}

/// A change the user made directly.
pub open spec fn typed(
    table: ChangeTable,
    row_id: Seq<char>,
    op: Result<OpView, ErrorView>,
) -> ChangeView {
    ChangeView { table, row_id, op, origin: None }
}

/// Add a change to those to record.
pub fn record_with_origin(
    changes: &mut Vec<Change>,
    table: ChangeTable,
    row_id: &str,
    op: Result<ChangeOp, Error>,
    origin: Option<ChangeOrigin>,
)
    ensures
        change_views(final(changes)@) == change_views(old(changes)@).push(
            ChangeView { table, row_id: row_id@, op: op_view(op), origin: origin_view(origin) },
        ),
{
    let ghost before = change_views(changes@);
    changes.push(Change { table, row_id: row_id.to_owned(), op, origin });
    assert(change_views(changes@) =~= before.push(changes@.last()@));
}

/// Add a change the user made directly.
pub fn record(
    changes: &mut Vec<Change>,
    table: ChangeTable,
    row_id: &str,
    op: Result<ChangeOp, Error>,
)
    ensures
        change_views(final(changes)@) == change_views(old(changes)@).push(
            typed(table, row_id@, op_view(op)),
        ),
{
    record_with_origin(changes, table, row_id, op, None);
}

/// A number that is not finite.
pub open spec fn not_finite_error() -> ErrorView {
    ErrorView::InvalidArgument("the change log cannot carry a number that is not finite"@)
}

/// What a number is in the log.
pub open spec fn logged_number(number: FloatBits) -> Result<ValueView, ErrorView> {
    if float_finite(number) {
        Ok(ValueView::Number(Number::Float(number)))
    } else {
        Err(not_finite_error())
    }
}

/// A number for the log. A NaN or an infinity is refused, since it would reach
/// the log as an empty cell.
pub fn cell_number(number: FloatBits) -> (r: Result<Value, Error>)
    ensures
        match r {
            Ok(value) => logged_number(number) == Ok::<ValueView, ErrorView>(value@),
            Err(e) => logged_number(number) == Err::<ValueView, ErrorView>(e@),
        },
{
    if is_finite(number) {
        Ok(Value::Number(Number::Float(number)))
    } else {
        Err(
            Error::InvalidArgument(
                "the change log cannot carry a number that is not finite".to_owned(),
            ),
        )
    }
}

/// One column set to a text.
pub open spec fn text_cell_op(column: Seq<char>, value: Seq<char>) -> Result<OpView, ErrorView> {
    Ok(OpView::Cell(column, ValueView::Text(value)))
}

/// One column set to a text, such as a new name.
pub fn text_cell(column: &str, value: &str) -> (r: ChangeOp)
    ensures
        Ok::<OpView, ErrorView>(r@) == text_cell_op(column@, value@),
{
    ChangeOp::Cell { column: column.to_owned(), value: Value::text(value) }
}

/// One column set to a number, or why the log cannot carry the number.
pub open spec fn number_cell_op(column: Seq<char>, number: FloatBits) -> Result<OpView, ErrorView> {
    match logged_number(number) {
        Ok(value) => Ok(OpView::Cell(column, value)),
        Err(e) => Err(e),
    }
}

/// One column set to a number, or why the log cannot carry the number.
pub fn number_cell(column: &str, number: FloatBits) -> (r: Result<ChangeOp, Error>)
    ensures
        op_view(r) == number_cell_op(column@, number),
{
    match cell_number(number) {
        Ok(value) => Ok(ChangeOp::Cell { column: column.to_owned(), value }),
        Err(e) => Err(e),
    }
}

/// A value the log has no form for.
pub open spec fn uncarried_error(column: Seq<char>, dtype: Seq<char>) -> ErrorView {
    ErrorView::InvalidArgument(
        "the '"@ + column + "' column holds "@ + dtype
            + " values, which the change log cannot carry"@,
    )
}

/// A day count that no day of the calendar has.
pub open spec fn no_day_error(column: Seq<char>) -> ErrorView {
    ErrorView::InvalidArgument(
        "the '"@ + column
            + "' column holds a date outside the calendar, which the change log cannot carry"@,
    )
}

/// A cell as the log carries it: a text as text, a number as a number, a date as
/// the day it names, an empty cell as null.
pub open spec fn logged_cell(column: ColumnView, cell: CellView) -> Result<ValueView, ErrorView> {
    match cell {
        CellView::Null => Ok(ValueView::Null),
        CellView::Text(text) => Ok(ValueView::Text(text)),
        CellView::Bool(flag) => Ok(ValueView::Bool(flag)),
        CellView::Float(number) => logged_number(number),
        CellView::Int(n) => Ok(ValueView::Number(Number::Int(n))),
        CellView::Date(days) => if is_day(days as int) {
            Ok(ValueView::Text(text_of(days as int)))
        } else {
            Err(no_day_error(column.name))
        },
        CellView::Opaque(_) => Err(
            uncarried_error(
                column.name,
                match column.dtype {
                    DataTypeView::Other(name) => name,
                    _ => Seq::empty(),
                },
            ),
        ),
    }
}

fn json_cell(column: &Column, cell: &Cell) -> (r: Result<Value, Error>)
    requires
        fits(column@.dtype, cell@),
    ensures
        match r {
            Ok(value) => logged_cell(column@, cell@) == Ok::<ValueView, ErrorView>(value@),
            Err(e) => logged_cell(column@, cell@) == Err::<ValueView, ErrorView>(e@),
        },
{
    match cell {
        Cell::Null => Ok(Value::Null),
        Cell::Text(text) => Ok(Value::text(text.as_str())),
        Cell::Bool(flag) => Ok(Value::Bool(*flag)),
        Cell::Float(number) => cell_number(*number),
        Cell::Int(n) => Ok(Value::Number(Number::Int(*n))),
        Cell::Date(days) => match Date::from_days(*days) {
            Some(date) => Ok(Value::Text(date.text())),
            None => Err(
                Error::InvalidArgument(
                    "the '".to_owned().concat(column.name.as_str()).concat(
                        "' column holds a date outside the calendar, which the change log cannot carry",
                    ),
                ),
            ),
        },
        Cell::Opaque(_) => {
            let name: String = match &column.dtype {
                DataType::Other(name) => name.clone(),
                _ => String::new(),
            };
            assert(column@.dtype is Other);
            Err(
                Error::InvalidArgument(
                    "the '".to_owned().concat(column.name.as_str()).concat(
                        "' column holds ",
                    ).concat(name.as_str()).concat(
                        " values, which the change log cannot carry",
                    ),
                ),
            )
        },
    }
}

/// The first `n` columns of a row as the log carries them, or why one of them
/// cannot be carried.
pub open spec fn logged_row(df: TableView, index: int, n: int) -> Result<
    Map<Seq<char>, ValueView>,
    ErrorView,
>
    decreases n,
{
    if n <= 0 {
        Ok(Map::empty())
    } else {
        match logged_row(df, index, n - 1) {
            Err(e) => Err(e),
            Ok(row) => match logged_cell(df.columns[n - 1], df.rows[index][n - 1]) {
                Err(e) => Err(e),
                Ok(value) => Ok(row.insert(df.columns[n - 1].name, value)),
            },
        }
    }
}

/// Every column of a row as one object. The other device applies it to the same
/// columns, so each value keeps the meaning it has in the table.
pub fn row_json(df: &Table, index: usize) -> (r: Result<Row, Error>)
    requires
        index < df@.rows.len(),
    ensures
        match r {
            Ok(row) => logged_row(df@, index as int, df@.columns.len() as int) == Ok::<
                Map<Seq<char>, ValueView>,
                ErrorView,
            >(row@),
            Err(e) => logged_row(df@, index as int, df@.columns.len() as int) == Err::<
                Map<Seq<char>, ValueView>,
                ErrorView,
            >(e@),
        },
{
    let mut row: Row = Row::new();
    let mut c: usize = 0;
    while c < df.width()
        invariant
            c <= df@.columns.len(),
            index < df@.rows.len(),
            logged_row(df@, index as int, c as int) == Ok::<Map<Seq<char>, ValueView>, ErrorView>(
                row@,
            ),
        decreases df@.columns.len() - c,
    {
        let column = df.column_at(c);
        match json_cell(column, df.cell_at(index, c)) {
            Ok(value) => {
                row.insert(column.name.clone(), value);
            },
            Err(e) => {
                proof {
                    lemma_logged_row_error(df@, index as int, c + 1, df@.columns.len() as int);
                }
                return Err(e);
            },
        }
        c = c + 1;
    }
    Ok(row)
}

proof fn lemma_logged_row_error(df: TableView, index: int, n: int, m: int)
    requires
        n <= m,
        logged_row(df, index, n) is Err,
    ensures
        logged_row(df, index, m) == logged_row(df, index, n),
    decreases m - n,
{
    if n < m {
        lemma_logged_row_error(df, index, n, m - 1);
    }
}

/// A row that should be in the table and is not.
pub open spec fn unsaved_row_error(row_id: Seq<char>) -> ErrorView {
    ErrorView::NotFound(
        "the row with id '"@ + row_id
            + "' is not in the table it was just saved to, so the change log has no row to record"@,
    )
}

/// The row of an id as a whole, or why it cannot be recorded.
pub open spec fn upsert_op(df: TableView, row_id: Seq<char>) -> Result<OpView, ErrorView> {
    match found_rows(df, ROW_ID_COLUMN@, row_id) {
        Err(e) => Err(e),
        Ok(found) => if found.len() == 0 {
            Err(unsaved_row_error(row_id))
        } else {
            match logged_row(df, found[0], df.columns.len() as int) {
                Err(e) => Err(e),
                Ok(row) => Ok(OpView::Upsert(row)),
            }
        },
    }
}

/// The row of an id as a whole: the first row that has the id.
pub fn upsert_row(df: &Table, row_id: &str) -> (r: Result<ChangeOp, Error>)
    ensures
        op_view(r) == upsert_op(df@, row_id@),
{
    let found = match positions(df, ROW_ID_COLUMN, row_id) {
        Ok(found) => found,
        Err(e) => return Err(e),
    };
    let ghost places = found@.map_values(|i: usize| i as int);
    if found.len() == 0 {
        return Err(
            Error::NotFound(
                "the row with id '".to_owned().concat(row_id).concat(
                    "' is not in the table it was just saved to, so the change log has no row to record",
                ),
            ),
        );
    }
    proof {
        crate::merge_apply::lemma_matching_rows(
            df@.rows,
            df@.column_of(ROW_ID_COLUMN@),
            row_id@,
            df@.rows.len() as int,
        );
        assert(places[0] == found@[0] as int);
    }
    match row_json(df, found[0]) {
        Ok(row) => Ok(ChangeOp::Upsert { row }),
        Err(e) => Err(e),
    }
}

} // verus!
