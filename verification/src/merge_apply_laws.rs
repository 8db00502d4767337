//! What holds of every write that a merge makes.

use vstd::prelude::*;
use crate::dates::date_read;
use crate::doubles::{double_of, single_of};
use crate::error::ErrorView;
use crate::merge_apply::{
    cells_set, converted, converted_row, file_key, first_missing, found_rows, is_month_column,
    lemma_matching_rows, upserted, value_for, written, WriteView, ROW_ID_COLUMN,
};
use crate::numbers::whole;
use crate::rows::{Number, ValueView};
use crate::sync::ChangeTable;
use crate::table::{matching_rows, row_fits, CellView, DataTypeView, TableView};
use crate::text::text_order_is_total;
use crate::text_map::keys_increase;

verus! {

/// A converted row has one cell per column: the value of the column, converted.
proof fn lemma_converted_cells(
    df: TableView,
    table: ChangeTable,
    row_id: Seq<char>,
    row: Map<Seq<char>, ValueView>,
    n: int,
)
    requires
        0 <= n <= df.columns.len(),
        converted_row(df, table, row_id, row, n) is Ok,
    ensures
        converted_row(df, table, row_id, row, n)->Ok_0.len() == n,
        forall|c: int|
            0 <= c < n ==> converted(
                df.columns[c].name,
                df.columns[c].dtype,
                value_for(table, row_id, row, df.columns[c].name),
                table,
            ) == Ok::<CellView, ErrorView>(
                #[trigger] converted_row(df, table, row_id, row, n)->Ok_0[c],
            ),
    decreases n,
{
    if n > 0 {
        lemma_converted_cells(df, table, row_id, row, n - 1);
    }
}

/// Whether exactly one row of a table has an id, and where.
pub open spec fn only_row(df: TableView, row_id: Seq<char>, i: int) -> bool {
    &&& 0 <= i < df.rows.len()
    &&& df.at(i, ROW_ID_COLUMN@) == CellView::Text(row_id)
    &&& forall|k: int|
        0 <= k < df.rows.len() && k != i ==> (#[trigger] df.rows[k])[df.column_of(ROW_ID_COLUMN@)]
            != CellView::Text(row_id)
}

proof fn lemma_only_row(df: TableView, table: ChangeTable, row_id: Seq<char>, i: int)
    requires
        found_rows(df, ROW_ID_COLUMN@, row_id) is Ok,
        only_row(df, row_id, i),
    ensures
        found_rows(df, ROW_ID_COLUMN@, row_id)->Ok_0 == seq![i],
{
    let column = df.column_of(ROW_ID_COLUMN@);
    let n = df.rows.len() as int;
    lemma_matching_rows(df.rows, column, row_id, n);
    let found = matching_rows(df.rows, column, row_id, n);
    assert(found.contains(i)) by {
        assert(df.rows[i][column] == CellView::Text(row_id));
    }
    assert forall|k: int| 0 <= k < found.len() implies #[trigger] found[k] == i by {
        assert(df.rows[found[k]][column] == CellView::Text(row_id));
    }
    if found.len() > 1 {
        assert(found[0] < found[1]);
    }
    assert(found =~= seq![i]);
}

proof fn lemma_found_is_only(df: TableView, row_id: Seq<char>)
    requires
        found_rows(df, ROW_ID_COLUMN@, row_id) is Ok,
    ensures
        found_rows(df, ROW_ID_COLUMN@, row_id)->Ok_0.len() == 1 ==> only_row(
            df,
            row_id,
            found_rows(df, ROW_ID_COLUMN@, row_id)->Ok_0[0],
        ),
        found_rows(df, ROW_ID_COLUMN@, row_id)->Ok_0.len() == 0 ==> forall|k: int|
            0 <= k < df.rows.len() ==> (#[trigger] df.rows[k])[df.column_of(ROW_ID_COLUMN@)]
                != CellView::Text(row_id),
{
    let column = df.column_of(ROW_ID_COLUMN@);
    let n = df.rows.len() as int;
    lemma_matching_rows(df.rows, column, row_id, n);
    let found = matching_rows(df.rows, column, row_id, n);
    if found.len() <= 1 {
        assert forall|k: int|
            0 <= k < df.rows.len() && (#[trigger] df.rows[k])[column] == CellView::Text(
                row_id,
            ) implies found.len() == 1 && k == found[0] by {
            let p = choose|p: int| 0 <= p < found.len() && found[p] == k;
            assert(found[p] == k);
        }
        if found.len() == 1 {
            assert(df.rows[found[0]][column] == CellView::Text(row_id));
        }
    }
}

/// An upserted row is there afterwards, once, under its id, and each of its
/// columns holds the value it was given, converted to the column's type.
pub proof fn an_upserted_row_is_there(
    df: TableView,
    table: ChangeTable,
    row_id: Seq<char>,
    cells: Seq<(Seq<char>, ValueView)>,
    row: Map<Seq<char>, ValueView>,
) -> (i: int)
    requires
        df.wf(),
        written(df, table, row_id, WriteView::Upsert(cells, row)) is Ok,
    ensures
        ({
            let after = written(df, table, row_id, WriteView::Upsert(cells, row))->Ok_0.0;
            &&& after.columns == df.columns
            &&& only_row(after, row_id, i)
            &&& converted_row(df, table, row_id, row, df.columns.len() as int) == Ok::<
                Seq<CellView>,
                ErrorView,
            >(after.rows[i])
        }),
{
    let column = df.column_of(ROW_ID_COLUMN@);
    let found = found_rows(df, ROW_ID_COLUMN@, row_id)->Ok_0;
    let n = df.columns.len() as int;
    let after = written(df, table, row_id, WriteView::Upsert(cells, row))->Ok_0.0;
    let new_row = converted_row(df, table, row_id, row, n)->Ok_0;
    lemma_converted_cells(df, table, row_id, row, n);
    lemma_found_is_only(df, row_id);
    assert(new_row[column] == CellView::Text(row_id));
    if found.len() == 1 {
        let i = found[0];
        assert(after == df.with_row(i, new_row));
        assert forall|k: int| 0 <= k < after.rows.len() && k != i implies (
        #[trigger] after.rows[k])[column] != CellView::Text(row_id) by {
            assert(after.rows[k] == df.rows[k]);
        }
        i
    } else {
        let i = df.rows.len() as int;
        assert(after == df.with_new_row(new_row));
        assert forall|k: int| 0 <= k < after.rows.len() && k != i implies (
        #[trigger] after.rows[k])[column] != CellView::Text(row_id) by {
            assert(after.rows[k] == df.rows[k]);
        }
        i
    }
}

/// Whether a cell of a column holds a value: a text as it is, a number by its own bits
/// in double precision, a whole number as it is, a truth value as it is, a date that
/// the text of a value names, and nothing for a null.
pub open spec fn holds_value(cell: CellView, dtype: DataTypeView, value: ValueView) -> bool {
    match (dtype, value) {
        (_, ValueView::Null) => cell is Null,
        (DataTypeView::Text, ValueView::Text(text)) => cell == CellView::Text(text),
        (DataTypeView::Float64, ValueView::Number(Number::Float(bits))) => cell == CellView::Float(
            bits,
        ),
        (DataTypeView::Float64, ValueView::Number(number)) => cell == CellView::Float(
            double_of(number),
        ),
        (DataTypeView::Float32, ValueView::Number(number)) => cell == CellView::Float(
            single_of(double_of(number)),
        ),
        (DataTypeView::Int64, ValueView::Number(Number::Int(n))) => cell == CellView::Int(n),
        (DataTypeView::Int32, ValueView::Number(Number::Int(n))) => cell == CellView::Int(n),
        (DataTypeView::Int64, ValueView::Number(_)) => cell is Int,
        (DataTypeView::Int32, ValueView::Number(_)) => cell is Int,
        (DataTypeView::Date, ValueView::Text(text)) => cell matches CellView::Date(days)
            && date_read(text) == Ok::<i32, Seq<char>>(days),
        (DataTypeView::Date, ValueView::Number(Number::Int(n))) => cell matches CellView::Date(days)
            && days == n,
        (DataTypeView::Date, ValueView::Number(_)) => cell is Date,
        (DataTypeView::Boolean, ValueView::Bool(flag)) => cell == CellView::Bool(flag),
        _ => false,
    }
}

/// A value that is converted to the type of a column is held by the cell it becomes.
pub proof fn a_converted_value_is_held(
    column: Seq<char>,
    dtype: DataTypeView,
    value: ValueView,
    table: ChangeTable,
)
    ensures
        converted(column, dtype, value, table) matches Ok(cell) ==> holds_value(cell, dtype, value),
        dtype is Text && value is Text ==> converted(column, dtype, value, table) is Ok,
        dtype is Float64 && value is Number ==> converted(column, dtype, value, table) is Ok,
        dtype is Boolean && value is Bool ==> converted(column, dtype, value, table) is Ok,
        value is Null && !(dtype is Other) ==> converted(column, dtype, value, table) is Ok,
        dtype is Text && !(value is Text) && !(value is Null) ==> converted(
            column,
            dtype,
            value,
            table,
        ) is Err,
        dtype is Float64 && !(value is Number) && !(value is Null) ==> converted(
            column,
            dtype,
            value,
            table,
        ) is Err,
        dtype is Other ==> converted(column, dtype, value, table) is Err,
{
    if let ValueView::Number(Number::Int(n)) = value {
        assert(crate::numbers::whole(Number::Int(n)) == Some(n));
    }
}

/// Whether a table is one of those whose rows have a number for each month.
pub open spec fn is_yearly(table: ChangeTable) -> bool {
    table is Investments || table is InvestmentsPrices || table is Liquidity || table
        is CreditsDebts
}

/// Whether a column of a table holds an empty text where a new row gives nothing: the
/// secondary category of an expense, and the link of an investment.
pub open spec fn is_blank_by_default(table: ChangeTable, column: Seq<char>) -> bool {
    (table is Expenses && column == "secondary_category"@) || ((table is Investments || table
        is InvestmentsPrices) && column == "link"@)
}

/// An upserted row holds every value it was sent with, each in its own column, and its
/// id. A column that it was not sent with is filled as a new row has it: the months of
/// a yearly table are zero, the link of an investment and the secondary category of an
/// expense are empty texts, and everything else is empty. No other row changes, and one
/// is added exactly where none had the id.
pub proof fn an_upserted_row_holds_what_was_sent(
    df: TableView,
    table: ChangeTable,
    row_id: Seq<char>,
    cells: Seq<(Seq<char>, ValueView)>,
    row: Map<Seq<char>, ValueView>,
) -> (i: int)
    requires
        df.wf(),
        written(df, table, row_id, WriteView::Upsert(cells, row)) is Ok,
    ensures
        ({
            let after = written(df, table, row_id, WriteView::Upsert(cells, row))->Ok_0.0;
            &&& written(df, table, row_id, WriteView::Upsert(cells, row))->Ok_0.1
            &&& after.columns == df.columns
            &&& 0 <= i < after.rows.len()
            &&& after.rows[i].len() == df.columns.len()
            &&& if i < df.rows.len() {
                &&& df.at(i, "row_id"@) == CellView::Text(row_id)
                &&& after.rows.len() == df.rows.len()
            } else {
                &&& i == df.rows.len()
                &&& after.rows.len() == df.rows.len() + 1
                &&& forall|k: int|
                    0 <= k < df.rows.len() ==> #[trigger] df.at(k, "row_id"@) != CellView::Text(
                        row_id,
                    )
            }
            &&& forall|k: int|
                0 <= k < df.rows.len() && k != i ==> #[trigger] after.rows[k] == df.rows[k]
            &&& forall|c: int|
                0 <= c < df.columns.len() ==> {
                    let name = df.columns[c].name;
                    let cell = #[trigger] after.rows[i][c];
                    if name == "row_id"@ {
                        cell == CellView::Text(row_id)
                    } else if row.contains_key(name) {
                        holds_value(cell, df.columns[c].dtype, row[name])
                    } else if is_yearly(table) && is_month_column(name) && df.columns[c].dtype
                        is Float64 {
                        cell == CellView::Float(0)
                    } else if is_blank_by_default(table, name) && df.columns[c].dtype is Text {
                        cell == CellView::Text(""@)
                    } else {
                        is_yearly(table) && is_month_column(name) || is_blank_by_default(table, name)
                            || cell is Null
                    }
                }
        }),
{
    let i = an_upserted_row_is_there(df, table, row_id, cells, row);
    let n = df.columns.len() as int;
    let after = written(df, table, row_id, WriteView::Upsert(cells, row))->Ok_0.0;
    lemma_converted_cells(df, table, row_id, row, n);
    lemma_found_is_only(df, row_id);
    let found = found_rows(df, ROW_ID_COLUMN@, row_id)->Ok_0;
    let k = df.column_of(ROW_ID_COLUMN@);
    if found.len() == 1 {
        if found[0] != i {
            assert(after.rows[found[0]][k] == CellView::Text(row_id));
            assert(after.rows[i] == df.rows[i]);
        }
    } else if i != df.rows.len() {
        assert(after.rows[i] == df.rows[i]);
    }
    assert forall|c: int| 0 <= c < n implies {
        let name = df.columns[c].name;
        let cell = #[trigger] after.rows[i][c];
        if name == "row_id"@ {
            cell == CellView::Text(row_id)
        } else if row.contains_key(name) {
            holds_value(cell, df.columns[c].dtype, row[name])
        } else if is_yearly(table) && is_month_column(name) && df.columns[c].dtype is Float64 {
            cell == CellView::Float(0)
        } else if is_blank_by_default(table, name) && df.columns[c].dtype is Text {
            cell == CellView::Text(""@)
        } else {
            is_yearly(table) && is_month_column(name) || is_blank_by_default(table, name) || cell
                is Null
        }
    } by {
        let column = df.columns[c];
        let value = value_for(table, row_id, row, column.name);
        a_converted_value_is_held(column.name, column.dtype, value, table);
        reveal_strlit("link");
        assert("link"@.len() == 4);
        if is_month_column(column.name) {
            let month = choose|month: nat|
                1 <= month <= 12 && column.name == #[trigger] crate::merge_apply::month_label(month);
            reveal_with_fuel(crate::text::decimal, 3);
            assert(column.name.len() == 2);
        }
        crate::table::lemma_column_of(df, c);
    }
    i
}

/// Two tables lie in one file exactly where they are the same, or are the holdings and
/// the prices of one year. The settings lie in none.
pub proof fn tables_share_a_file_where_they_belong_together(one: ChangeTable, other: ChangeTable)
    requires
        file_key(one) is Some,
        file_key(one) == file_key(other),
    ensures
        one == other || (one matches ChangeTable::Investments { year } && other
            == (ChangeTable::InvestmentsPrices { year })) || (one
            matches ChangeTable::InvestmentsPrices { year } && other == (ChangeTable::Investments {
            year,
        })),
{
}

proof fn lemma_same_columns(df: TableView, after: TableView)
    requires
        df.columns == after.columns,
    ensures
        forall|name: Seq<char>| #[trigger] df.has_column(name) == after.has_column(name),
        forall|name: Seq<char>| #[trigger] df.column_of(name) == after.column_of(name),
{
}

proof fn lemma_first_missing_same(
    df: TableView,
    after: TableView,
    cells: Seq<(Seq<char>, ValueView)>,
    n: int,
)
    requires
        df.columns == after.columns,
    ensures
        crate::merge_apply::first_missing(df, cells, n) == crate::merge_apply::first_missing(
            after,
            cells,
            n,
        ),
    decreases n,
{
    lemma_same_columns(df, after);
    if n > 0 {
        lemma_first_missing_same(df, after, cells, n - 1);
    }
}

proof fn lemma_converted_row_same(
    df: TableView,
    after: TableView,
    table: ChangeTable,
    row_id: Seq<char>,
    row: Map<Seq<char>, ValueView>,
    n: int,
)
    requires
        df.columns == after.columns,
    ensures
        converted_row(df, table, row_id, row, n) == converted_row(after, table, row_id, row, n),
    decreases n,
{
    if n > 0 {
        lemma_converted_row_same(df, after, table, row_id, row, n - 1);
    }
}

/// What setting cells of a row leaves: the columns, the other rows, and the
/// other cells of the row stay; each cell set holds its converted value.
proof fn lemma_cells_set(
    df: TableView,
    table: ChangeTable,
    i: int,
    cells: Seq<(Seq<char>, ValueView)>,
    n: int,
)
    requires
        df.wf(),
        0 <= i < df.rows.len(),
        0 <= n <= cells.len(),
        keys_increase(cells),
        cells_set(df, table, i, cells, n) is Ok,
    ensures
        ({
            let after = cells_set(df, table, i, cells, n)->Ok_0;
            &&& after.columns == df.columns
            &&& after.rows.len() == df.rows.len()
            &&& after.rows[i].len() == df.columns.len()
            &&& forall|k: int|
                0 <= k < df.rows.len() && k != i ==> #[trigger] after.rows[k] == df.rows[k]
            &&& forall|c: int|
                0 <= c < df.columns.len() && (forall|j: int|
                    0 <= j < n ==> (#[trigger] cells[j]).0 != df.columns[c].name) ==> (
                #[trigger] after.rows[i][c]) == df.rows[i][c]
            &&& forall|j: int|
                0 <= j < n ==> {
                    let c = df.column_of((#[trigger] cells[j]).0);
                    &&& df.has_column(cells[j].0)
                    &&& cells[j].0 != ROW_ID_COLUMN@
                    &&& converted(cells[j].0, df.columns[c].dtype, cells[j].1, table) == Ok::<
                        CellView,
                        ErrorView,
                    >(after.rows[i][c])
                }
        }),
    decreases n,
{
    assert(row_fits(df.columns, df.rows[i]));
    if n > 0 {
        lemma_cells_set(df, table, i, cells, n - 1);
        text_order_is_total();
        let before = cells_set(df, table, i, cells, n - 1)->Ok_0;
        let after = cells_set(df, table, i, cells, n)->Ok_0;
        let name = cells[n - 1].0;
        let c = df.column_of(name);
        assert(df.columns[c].name == name);
        assert forall|j: int| 0 <= j < n implies {
            let d = df.column_of((#[trigger] cells[j]).0);
            &&& df.has_column(cells[j].0)
            &&& cells[j].0 != ROW_ID_COLUMN@
            &&& converted(cells[j].0, df.columns[d].dtype, cells[j].1, table) == Ok::<
                CellView,
                ErrorView,
            >(after.rows[i][d])
        } by {
            if j < n - 1 {
                assert(cells[j].0 != cells[n - 1].0);
                let d = df.column_of(cells[j].0);
                assert(df.columns[d].name == cells[j].0);
                assert(d != c);
            }
        }
        assert forall|d: int|
            0 <= d < df.columns.len() && (forall|j: int|
                0 <= j < n ==> (#[trigger] cells[j]).0 != df.columns[d].name) implies (
        #[trigger] after.rows[i][d]) == df.rows[i][d] by {
            assert(cells[n - 1].0 != df.columns[d].name);
            assert(d != c);
            assert(before.rows[i][d] == df.rows[i][d]);
        }
    }
}

proof fn lemma_cells_set_again(
    df: TableView,
    after: TableView,
    table: ChangeTable,
    i: int,
    cells: Seq<(Seq<char>, ValueView)>,
    n: int,
)
    requires
        df.wf(),
        0 <= i < df.rows.len(),
        0 <= n <= cells.len(),
        keys_increase(cells),
        cells_set(df, table, i, cells, cells.len() as int) == Ok::<TableView, ErrorView>(after),
    ensures
        cells_set(after, table, i, cells, n) == Ok::<TableView, ErrorView>(after),
    decreases n,
{
    lemma_cells_set(df, table, i, cells, cells.len() as int);
    lemma_same_columns(df, after);
    if n > 0 {
        lemma_cells_set_again(df, after, table, i, cells, n - 1);
        let name = cells[n - 1].0;
        let c = df.column_of(name);
        assert(df.has_column(name));
        assert(after.has_column(name) && after.column_of(name) == c);
        let cell = after.rows[i][c];
        assert(converted(name, df.columns[c].dtype, cells[n - 1].1, table) == Ok::<
            CellView,
            ErrorView,
        >(cell));
        assert(after.with_cell(i, c, cell) =~= after) by {
            assert(after.rows[i].update(c, cell) =~= after.rows[i]);
            assert(after.rows.update(i, after.rows[i]) =~= after.rows);
        }
    }
}

/// Setting cells leaves every other column of the row alone, and every other
/// row.
pub proof fn setting_cells_leaves_the_rest_alone(
    df: TableView,
    table: ChangeTable,
    i: int,
    cells: Seq<(Seq<char>, ValueView)>,
)
    requires
        df.wf(),
        0 <= i < df.rows.len(),
        keys_increase(cells),
        cells_set(df, table, i, cells, cells.len() as int) is Ok,
    ensures
        ({
            let after = cells_set(df, table, i, cells, cells.len() as int)->Ok_0;
            &&& after.columns == df.columns
            &&& after.rows.len() == df.rows.len()
            &&& forall|k: int|
                0 <= k < df.rows.len() && k != i ==> #[trigger] after.rows[k] == df.rows[k]
            &&& forall|c: int|
                0 <= c < df.columns.len() && (forall|j: int|
                    0 <= j < cells.len() ==> (#[trigger] cells[j]).0 != df.columns[c].name) ==> (
                #[trigger] after.rows[i][c]) == df.rows[i][c]
        }),
{
    lemma_cells_set(df, table, i, cells, cells.len() as int);
}

/// A write that was carried out may be carried out again: the second time
/// leaves the table as it is. So running a batch again after a failure repairs
/// it.
pub proof fn a_write_done_twice_is_done_once(
    df: TableView,
    table: ChangeTable,
    row_id: Seq<char>,
    write: WriteView,
)
    requires
        df.wf(),
        write matches WriteView::SetCells(cells) ==> keys_increase(cells),
        written(df, table, row_id, write) is Ok,
    ensures
        ({
            let after = written(df, table, row_id, write)->Ok_0.0;
            written(after, table, row_id, write) matches Ok((again, _)) && again == after
        }),
{
    let column = df.column_of(ROW_ID_COLUMN@);
    let after = written(df, table, row_id, write)->Ok_0.0;
    let found = found_rows(df, ROW_ID_COLUMN@, row_id)->Ok_0;
    lemma_found_is_only(df, row_id);
    match write {
        WriteView::Upsert(cells, row) => {
            let i = an_upserted_row_is_there(df, table, row_id, cells, row);
            lemma_same_columns(df, after);
            lemma_only_row(after, table, row_id, i);
            lemma_first_missing_same(df, after, cells, cells.len() as int);
            lemma_converted_row_same(df, after, table, row_id, row, df.columns.len() as int);
            assert(after.with_row(i, after.rows[i]) =~= after) by {
                assert(after.rows.update(i, after.rows[i]) =~= after.rows);
            }
        },
        WriteView::Delete => {
            lemma_same_columns(df, after);
            if found.len() == 1 {
                let i = found[0];
                assert forall|k: int| 0 <= k < after.rows.len() implies (
                #[trigger] after.rows[k])[column] != CellView::Text(row_id) by {
                    if k < i {
                        assert(after.rows[k] == df.rows[k]);
                    } else {
                        assert(after.rows[k] == df.rows[k + 1]);
                    }
                }
            }
            lemma_matching_rows(after.rows, column, row_id, after.rows.len() as int);
            let left = matching_rows(after.rows, column, row_id, after.rows.len() as int);
            if left.len() > 0 {
                assert(after.rows[left[0]][column] == CellView::Text(row_id));
            }
        },
        WriteView::SetCells(cells) => {
            let i = found[0];
            lemma_cells_set(df, table, i, cells, cells.len() as int);
            lemma_same_columns(df, after);
            assert(df.columns[column].name == ROW_ID_COLUMN@);
            assert(after.rows[i][column] == df.rows[i][column]);
            assert forall|k: int| 0 <= k < after.rows.len() && k != i implies (
            #[trigger] after.rows[k])[column] != CellView::Text(row_id) by {
                assert(after.rows[k] == df.rows[k]);
            }
            lemma_only_row(after, table, row_id, i);
            lemma_cells_set_again(df, after, table, i, cells, cells.len() as int);
        },
    }
}

/// A deleted row is gone: no row has its id afterwards.
pub proof fn a_deleted_row_is_gone(df: TableView, table: ChangeTable, row_id: Seq<char>)
    requires
        df.wf(),
        written(df, table, row_id, WriteView::Delete) is Ok,
    ensures
        ({
            let after = written(df, table, row_id, WriteView::Delete)->Ok_0.0;
            forall|k: int| #![trigger after.rows[k]]
                0 <= k < after.rows.len() ==> after.at(k, ROW_ID_COLUMN@) != CellView::Text(row_id)
        }),
{
    let after = written(df, table, row_id, WriteView::Delete)->Ok_0.0;
    let column = df.column_of(ROW_ID_COLUMN@);
    let found = found_rows(df, ROW_ID_COLUMN@, row_id)->Ok_0;
    lemma_found_is_only(df, row_id);
    lemma_same_columns(df, after);
    assert forall|k: int| #![trigger after.rows[k]]
        0 <= k < after.rows.len() implies after.at(k, ROW_ID_COLUMN@) != CellView::Text(row_id) by {
        assert(after.at(k, ROW_ID_COLUMN@) == after.rows[k][column]);
        if found.len() == 1 {
            let i = found[0];
            if k < i {
                assert(after.rows[k] == df.rows[k]);
            } else {
                assert(after.rows[k] == df.rows[k + 1]);
            }
        }
    }
}

/// What a refused value is answered does not depend on the value: a message names
/// the table, the column and the type it needed, and holds nothing of a row.
pub proof fn a_refusal_reveals_no_value(
    column: Seq<char>,
    dtype: DataTypeView,
    table: ChangeTable,
    one: ValueView,
    other: ValueView,
)
    requires
        converted(column, dtype, one, table) is Err,
        converted(column, dtype, other, table) is Err,
    ensures
        converted(column, dtype, one, table) == converted(column, dtype, other, table),
{
}

/// Whether a column of a type takes a value that another device sent. Nothing is always
/// taken; else a text goes into texts and dates, a number into numbers, and into whole
/// numbers and dates where it is whole, and a truth value into truth values.
pub open spec fn takes(dtype: DataTypeView, value: ValueView) -> bool {
    match dtype {
        DataTypeView::Text => value is Null || value is Text,
        DataTypeView::Float64 => value is Null || value is Number,
        DataTypeView::Float32 => value is Null || value is Number,
        DataTypeView::Int64 => value is Null || (value matches ValueView::Number(number) && whole(
            number,
        ) is Some),
        DataTypeView::Int32 => value is Null || (value matches ValueView::Number(number) && (whole(
            number,
        ) matches Some(n) && i32::MIN <= n <= i32::MAX)),
        DataTypeView::Date => value is Null || (value matches ValueView::Text(text) && date_read(
            text,
        ) is Ok) || (value matches ValueView::Number(number) && (whole(number) matches Some(n)
            && i32::MIN <= n <= i32::MAX)),
        DataTypeView::Boolean => value is Null || value is Bool,
        DataTypeView::Other(_) => false,
    }
}

/// A value is converted exactly where its column takes it. Any other does not fit.
pub proof fn a_value_is_converted_where_it_is_taken(
    column: Seq<char>,
    dtype: DataTypeView,
    value: ValueView,
    table: ChangeTable,
)
    ensures
        converted(column, dtype, value, table) is Ok <==> takes(dtype, value),
        converted(column, dtype, value, table) matches Err(e) ==> e.status() == 422,
{
}

/// A row from another device is taken exactly where the table has all its columns, it
/// carries no other id than that of the change, and each column takes its value. It is
/// refused as one that does not fit.
pub proof fn a_row_is_taken_where_it_fits(
    df: TableView,
    table: ChangeTable,
    row_id: Seq<char>,
    cells: Seq<(Seq<char>, ValueView)>,
    row: Map<Seq<char>, ValueView>,
    found: Option<int>,
)
    ensures
        upserted(df, table, row_id, cells, row, found) is Ok <==> {
            &&& forall|k: int| 0 <= k < cells.len() ==> df.has_column((#[trigger] cells[k]).0)
            &&& !row.contains_key("row_id"@) || row["row_id"@] is Null || row["row_id"@]
                == ValueView::Text(row_id)
            &&& forall|c: int|
                0 <= c < df.columns.len() ==> takes(
                    (#[trigger] df.columns[c]).dtype,
                    value_for(table, row_id, row, df.columns[c].name),
                )
        },
        upserted(df, table, row_id, cells, row, found) matches Err(e) ==> e.status() == 422,
{
    lemma_first_missing(df, cells, cells.len() as int);
    lemma_row_converts(df, table, row_id, row, df.columns.len() as int);
}

proof fn lemma_first_missing(df: TableView, cells: Seq<(Seq<char>, ValueView)>, n: int)
    requires
        0 <= n <= cells.len(),
    ensures
        first_missing(df, cells, n) is None <==> forall|k: int|
            0 <= k < n ==> df.has_column((#[trigger] cells[k]).0),
    decreases n,
{
    if n > 0 {
        lemma_first_missing(df, cells, n - 1);
    }
}

proof fn lemma_row_converts(
    df: TableView,
    table: ChangeTable,
    row_id: Seq<char>,
    row: Map<Seq<char>, ValueView>,
    n: int,
)
    requires
        0 <= n <= df.columns.len(),
    ensures
        converted_row(df, table, row_id, row, n) is Ok <==> forall|c: int|
            0 <= c < n ==> takes(
                (#[trigger] df.columns[c]).dtype,
                value_for(table, row_id, row, df.columns[c].name),
            ),
        converted_row(df, table, row_id, row, n) matches Err(e) ==> e.status() == 422,
    decreases n,
{
    if n > 0 {
        lemma_row_converts(df, table, row_id, row, n - 1);
        let column = df.columns[n - 1];
        a_value_is_converted_where_it_is_taken(
            column.name,
            column.dtype,
            value_for(table, row_id, row, column.name),
            table,
        );
    }
}

/// Cells from another device are set exactly where the table has their columns, none of
/// them is that of the ids, and each column takes its value. They are refused as ones
/// that do not fit.
pub proof fn cells_are_set_where_they_fit(
    df: TableView,
    table: ChangeTable,
    row: int,
    cells: Seq<(Seq<char>, ValueView)>,
    n: int,
)
    requires
        0 <= n <= cells.len(),
    ensures
        cells_set(df, table, row, cells, n) is Ok <==> forall|k: int|
            0 <= k < n ==> {
                let column = (#[trigger] cells[k]).0;
                &&& df.has_column(column)
                &&& column != "row_id"@
                &&& takes(df.columns[df.column_of(column)].dtype, cells[k].1)
            },
        cells_set(df, table, row, cells, n) matches Err(e) ==> e.status() == 422,
    decreases n,
{
    if n > 0 {
        cells_are_set_where_they_fit(df, table, row, cells, n - 1);
        let column = cells[n - 1].0;
        a_value_is_converted_where_it_is_taken(
            column,
            df.columns[df.column_of(column)].dtype,
            cells[n - 1].1,
            table,
        );
    }
}

} // verus!
