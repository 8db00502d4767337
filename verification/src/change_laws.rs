//! What is recorded of a row brings the same row to another device.

use vstd::prelude::*;
use crate::changes::{logged_cell, logged_row};
use crate::dates::{date_read, text_of};
use crate::doubles::single_of;
use crate::error::ErrorView;
use crate::merge_apply::{
    carries_its_id, converted, converted_row, first_missing, upserted, value_for, ROW_ID_COLUMN,
};
use crate::rows::ValueView;
use crate::sync::ChangeTable;
use crate::table::{fits, row_fits, CellView, ColumnView, TableView};
use crate::text_map::{keys_increase, pairs_map};

verus! {

/// Whether the dates of a row are read from the text they are written as.
pub open spec fn dates_read_back(row: Seq<CellView>) -> bool {
    forall|c: int|
        0 <= c < row.len() ==> {
            (#[trigger] row[c]) matches CellView::Date(days) ==> date_read(text_of(days as int))
                == Ok::<i32, Seq<char>>(days)
        }
}

/// Whether the numbers of single precision columns are of single precision.
pub open spec fn singles_are_single(columns: Seq<ColumnView>, row: Seq<CellView>) -> bool {
    forall|c: int|
        0 <= c < columns.len() && (#[trigger] columns[c]).dtype is Float32 ==> {
            row[c] matches CellView::Float(bits) ==> single_of(bits) == bits
        }
}

/// Whether every column is of a type that a change can carry.
pub open spec fn columns_are_carried(columns: Seq<ColumnView>) -> bool {
    forall|c: int| 0 <= c < columns.len() ==> !((#[trigger] columns[c]).dtype is Other)
}

proof fn lemma_cell_arrives(column: ColumnView, cell: CellView, table: ChangeTable)
    requires
        fits(column.dtype, cell),
        !(column.dtype is Other),
        logged_cell(column, cell) is Ok,
        cell matches CellView::Date(days) ==> date_read(text_of(days as int)) == Ok::<
            i32,
            Seq<char>,
        >(days),
        column.dtype is Float32 ==> (cell matches CellView::Float(bits) ==> single_of(bits)
            == bits),
    ensures
        converted(column.name, column.dtype, logged_cell(column, cell)->Ok_0, table) == Ok::<
            CellView,
            ErrorView,
        >(cell),
{
}

/// What is recorded of a row holds each of its cells under the name of its column.
pub proof fn lemma_logged_row(df: TableView, i: int, n: int)
    requires
        df.wf(),
        0 <= i < df.rows.len(),
        0 <= n <= df.columns.len(),
        logged_row(df, i, n) is Ok,
    ensures
        forall|c: int|
            0 <= c < n ==> logged_cell(#[trigger] df.columns[c], df.rows[i][c]) is Ok
                && logged_row(df, i, n)->Ok_0.contains_key(df.columns[c].name) && logged_row(
                df,
                i,
                n,
            )->Ok_0[df.columns[c].name] == logged_cell(df.columns[c], df.rows[i][c])->Ok_0,
        forall|name: Seq<char>| #[trigger]
            logged_row(df, i, n)->Ok_0.contains_key(name) ==> df.has_column(name),
    decreases n,
{
    if n > 0 {
        lemma_logged_row(df, i, n - 1);
        let before = logged_row(df, i, n - 1)->Ok_0;
        let row = logged_row(df, i, n)->Ok_0;
        let last = df.columns[n - 1];
        assert forall|c: int| 0 <= c < n implies logged_cell(
            #[trigger] df.columns[c],
            df.rows[i][c],
        ) is Ok && row.contains_key(df.columns[c].name) && row[df.columns[c].name] == logged_cell(
            df.columns[c],
            df.rows[i][c],
        )->Ok_0 by {
            if c < n - 1 {
                assert(df.columns[c].name != df.columns[n - 1].name);
            }
        }
        assert forall|name: Seq<char>| #[trigger] row.contains_key(name) implies df.has_column(
            name,
        ) by {
            if name == last.name {
                assert(df.columns[n - 1].name == name);
            } else {
                assert(before.contains_key(name));
            }
        }
    }
}

proof fn lemma_row_arrives(
    df: TableView,
    i: int,
    table: ChangeTable,
    row_id: Seq<char>,
    row: Map<Seq<char>, ValueView>,
    n: int,
)
    requires
        df.wf(),
        0 <= i < df.rows.len(),
        0 <= n <= df.columns.len(),
        columns_are_carried(df.columns),
        dates_read_back(df.rows[i]),
        singles_are_single(df.columns, df.rows[i]),
        df.has_column(ROW_ID_COLUMN@) ==> df.at(i, ROW_ID_COLUMN@) == CellView::Text(row_id),
        logged_row(df, i, df.columns.len() as int) == Ok::<Map<Seq<char>, ValueView>, ErrorView>(
            row,
        ),
    ensures
        converted_row(df, table, row_id, row, n) == Ok::<Seq<CellView>, ErrorView>(
            df.rows[i].take(n),
        ),
    decreases n,
{
    let cells = df.rows[i];
    assert(row_fits(df.columns, cells));
    if n > 0 {
        lemma_row_arrives(df, i, table, row_id, row, n - 1);
        lemma_logged_row(df, i, df.columns.len() as int);
        let column = df.columns[n - 1];
        assert(logged_cell(column, cells[n - 1]) is Ok);
        assert(fits(column.dtype, cells[n - 1]));
        lemma_cell_arrives(column, cells[n - 1], table);
        if column.name == ROW_ID_COLUMN@ {
            crate::table::lemma_column_of(df, n - 1);
            assert(cells[n - 1] == CellView::Text(row_id));
        }
        assert(value_for(table, row_id, row, column.name) == logged_cell(
            column,
            cells[n - 1],
        )->Ok_0);
        assert(cells.take(n) =~= cells.take(n - 1).push(cells[n - 1]));
    } else {
        assert(cells.take(0) =~= Seq::empty());
    }
}

proof fn lemma_no_column_missing(df: TableView, cells: Seq<(Seq<char>, ValueView)>, n: int)
    requires
        0 <= n <= cells.len(),
        forall|k: int| 0 <= k < cells.len() ==> df.has_column((#[trigger] cells[k]).0),
    ensures
        first_missing(df, cells, n) is None,
    decreases n,
{
    if n > 0 {
        lemma_no_column_missing(df, cells, n - 1);
        assert(df.has_column(cells[n - 1].0));
    }
}

/// A row that is recorded as a whole and applied to a table with the same columns
/// gives exactly that row: in the place of the row with its id, or at the end.
/// `cells` are the columns and values of the record.
pub proof fn a_recorded_row_arrives_unchanged(
    df: TableView,
    i: int,
    row_id: Seq<char>,
    cells: Seq<(Seq<char>, ValueView)>,
    other: TableView,
    table: ChangeTable,
    found: Option<int>,
)
    requires
        df.wf(),
        0 <= i < df.rows.len(),
        columns_are_carried(df.columns),
        dates_read_back(df.rows[i]),
        singles_are_single(df.columns, df.rows[i]),
        df.has_column(ROW_ID_COLUMN@),
        df.at(i, ROW_ID_COLUMN@) == CellView::Text(row_id),
        logged_row(df, i, df.columns.len() as int) == Ok::<Map<Seq<char>, ValueView>, ErrorView>(
            pairs_map(cells),
        ),
        keys_increase(cells),
        other.columns == df.columns,
    ensures
        upserted(other, table, row_id, cells, pairs_map(cells), found) == Ok::<
            TableView,
            ErrorView,
        >(
            match found {
                Some(at) => other.with_row(at, df.rows[i]),
                None => other.with_new_row(df.rows[i]),
            },
        ),
{
    let row = pairs_map(cells);
    let n = df.columns.len() as int;
    lemma_logged_row(df, i, n);
    lemma_row_arrives(df, i, table, row_id, row, n);
    assert(row_fits(df.columns, df.rows[i]));
    assert(df.rows[i].take(n) =~= df.rows[i]);
    crate::text_map::lemma_pairs_map(cells);
    assert forall|k: int| 0 <= k < cells.len() implies other.has_column((#[trigger] cells[k]).0) by {
        assert(row.contains_key(cells[k].0));
        assert(df.has_column(cells[k].0));
        let c = df.column_of(cells[k].0);
        assert(other.columns[c].name == cells[k].0);
    }
    lemma_no_column_missing(other, cells, cells.len() as int);
    lemma_same_columns(df, other, table, row_id, row, n);
    let c = df.column_of(ROW_ID_COLUMN@);
    assert(df.columns[c].name == ROW_ID_COLUMN@);
    assert(row[ROW_ID_COLUMN@] == ValueView::Text(row_id));
    assert(carries_its_id(row, row_id));
}

proof fn lemma_same_columns(
    df: TableView,
    other: TableView,
    table: ChangeTable,
    row_id: Seq<char>,
    row: Map<Seq<char>, ValueView>,
    n: int,
)
    requires
        other.columns == df.columns,
    ensures
        converted_row(other, table, row_id, row, n) == converted_row(df, table, row_id, row, n),
    decreases n,
{
    if n > 0 {
        lemma_same_columns(df, other, table, row_id, row, n - 1);
    }
}

} // verus!
