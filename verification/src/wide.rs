//! Yearly tables with one column per month, shared by everything that has a value
//! each month.

use vstd::prelude::*;
use crate::append::{append_row, appended};
use crate::changes::{
    change_views, number_cell, number_cell_op, record, text_cell, text_cell_op, typed,
    upsert_op, upsert_row, Change, ChangeView,
};
use crate::error::{outcome, Error, ErrorView};
use crate::frames::{
    column_has, has_text, ids_where, remove_where, row_ids_where, set_f64_where, set_str_where,
    set_where, table_outcome, without_matches,
};
use crate::merge_apply::{month_label, month_labels, ROW_ID_COLUMN};
use crate::paths::{check_month, month_error};
use crate::numbers::FloatBits;
use crate::sync::{ChangeOp, ChangeTable, OpView};
use crate::table::{
    cell_views, column_views, names_differ, row_fits, Cell, CellView, Column, ColumnView, DataType,
    DataTypeView, Table, TableView,
};
use crate::text::{decimal_digits_spell_their_number, push_padded, same_text, decimal, texts};

verus! {

/// A text column of a name.
pub open spec fn text_column(name: Seq<char>) -> ColumnView {
    ColumnView { name, dtype: DataTypeView::Text }
}

/// The columns of a yearly table: what a row is, then the twelve months, then the
/// row id.
pub open spec fn wide_columns(meta: Seq<Seq<char>>) -> Seq<ColumnView> {
    Seq::new(
        meta.len() + 13,
        |c: int|
            if c < meta.len() {
                text_column(meta[c])
            } else if c < meta.len() + 12 {
                ColumnView {
                    name: month_label((c - meta.len() + 1) as nat),
                    dtype: DataTypeView::Float64,
                }
            } else {
                text_column(ROW_ID_COLUMN@)
            },
    )
}

/// A new row of a yearly table: what it is, zero in every month, its id.
pub open spec fn wide_cells(values: Seq<Seq<char>>, row_id: Seq<char>) -> Seq<CellView> {
    Seq::new(
        values.len() + 13,
        |c: int|
            if c < values.len() {
                CellView::Text(values[c])
            } else if c < values.len() + 12 {
                CellView::Float(0)
            } else {
                CellView::Text(row_id)
            },
    )
}

/// Whether names can head a yearly table: none occurs twice, and none could be a
/// month or the row id.
pub open spec fn heads(meta: Seq<Seq<char>>) -> bool {
    &&& forall|i: int, j: int| 0 <= i < j < meta.len() ==> (#[trigger] meta[i]) != (#[trigger] meta[j])
    &&& forall|i: int| 0 <= i < meta.len() ==> (#[trigger] meta[i]).len() > 2 && meta[i] != ROW_ID_COLUMN@
}

/// The columns of a yearly table have different names.
pub proof fn lemma_wide_columns(meta: Seq<Seq<char>>)
    requires
        heads(meta),
    ensures
        names_differ(wide_columns(meta)),
{
    let columns = wide_columns(meta);
    let m = meta.len() as int;
    reveal_strlit("row_id");
    assert(ROW_ID_COLUMN@.len() == 6);
    assert forall|k: nat| 1 <= k <= 12 implies (#[trigger] month_label(k)).len() == 2 by {
        lemma_label_length(k);
    }
    assert forall|i: int, j: int| 0 <= i < j < columns.len() implies (#[trigger] columns[i]).name
        != (#[trigger] columns[j]).name by {
        if j < m {
            assert(meta[i] != meta[j]);
        } else if i < m {
            assert(meta[i].len() > 2 && meta[i] != ROW_ID_COLUMN@);
            if j < m + 12 {
                assert(month_label((j - m + 1) as nat).len() == 2);
            }
        } else {
            assert(month_label((i - m + 1) as nat).len() == 2);
            if j < m + 12 {
                decimal_digits_spell_their_number((i - m + 1) as nat, 2);
                decimal_digits_spell_their_number((j - m + 1) as nat, 2);
            }
        }
    }
}

proof fn lemma_label_length(month: nat)
    requires
        1 <= month <= 12,
    ensures
        month_label(month).len() == 2,
{
    reveal_with_fuel(decimal, 3);
}

/// The names and values that say what a row is.
pub open spec fn names_of(meta: Seq<(&str, &str)>) -> Seq<Seq<char>> {
    Seq::new(meta.len(), |i: int| meta[i].0@)
}

/// The values that say what a row is.
pub open spec fn values_of(meta: Seq<(&str, &str)>) -> Seq<Seq<char>> {
    Seq::new(meta.len(), |i: int| meta[i].1@)
}

fn wide_heads(meta: &Vec<(&str, &str)>) -> (r: Vec<Column>)
    ensures
        column_views(r@) == wide_columns(names_of(meta@)),
{
    let mut columns: Vec<Column> = Vec::new();
    let ghost expected = wide_columns(names_of(meta@));
    let mut i: usize = 0;
    while i < meta.len()
        invariant
            i <= meta.len(),
            expected == wide_columns(names_of(meta@)),
            columns@.len() == i,
            forall|k: int| 0 <= k < i ==> (#[trigger] columns@[k])@ == expected[k],
        decreases meta.len() - i,
    {
        columns.push(Column::of(meta[i].0, DataType::Text));
        i = i + 1;
    }
    let labels = month_labels();
    let mut m: usize = 0;
    while m < labels.len()
        invariant
            m <= labels.len(),
            labels@.len() == 12,
            forall|k: int| 0 <= k < 12 ==> (#[trigger] labels@[k])@ == month_label((k + 1) as nat),
            expected == wide_columns(names_of(meta@)),
            columns@.len() == meta@.len() + m,
            forall|k: int| 0 <= k < columns@.len() ==> (#[trigger] columns@[k])@ == expected[k],
        decreases labels.len() - m,
    {
        columns.push(Column::of(labels[m].as_str(), DataType::Float64));
        m = m + 1;
    }
    columns.push(Column::of(ROW_ID_COLUMN, DataType::Text));
    assert(column_views(columns@) =~= expected);
    columns
}

/// A yearly table without rows. Only the names of `meta` matter.
pub fn empty_wide_df(meta: &Vec<(&str, &str)>) -> (r: Table)
    requires
        heads(names_of(meta@)),
    ensures
        r@ == (TableView { columns: wide_columns(names_of(meta@)), rows: Seq::empty() }),
{
    proof {
        lemma_wide_columns(names_of(meta@));
    }
    Table::with_columns(wide_heads(meta))
}

/// A yearly table with a new row at its end.
pub open spec fn wide_appended(
    df: TableView,
    names: Seq<Seq<char>>,
    values: Seq<Seq<char>>,
    row_id: Seq<char>,
) -> Result<TableView, ErrorView> {
    appended(df, wide_columns(names), wide_cells(values, row_id))
}

/// Add a row to a yearly table, zero in every month.
pub fn append_wide_row(df: &mut Table, meta: &Vec<(&str, &str)>, row_id: &str) -> (r: Result<
    (),
    Error,
>)
    requires
        heads(names_of(meta@)),
    ensures
        table_outcome(
            wide_appended(old(df)@, names_of(meta@), values_of(meta@), row_id@),
            old(df)@,
            final(df)@,
            r,
        ),
{
    let columns = wide_heads(meta);
    let ghost expected = wide_cells(values_of(meta@), row_id@);
    let mut cells: Vec<Cell> = Vec::new();
    let mut i: usize = 0;
    while i < meta.len()
        invariant
            i <= meta.len(),
            expected == wide_cells(values_of(meta@), row_id@),
            cells@.len() == i,
            forall|k: int| 0 <= k < i ==> (#[trigger] cells@[k])@ == expected[k],
        decreases meta.len() - i,
    {
        cells.push(Cell::Text(meta[i].1.to_owned()));
        i = i + 1;
    }
    let mut m: usize = 0;
    while m < 12
        invariant
            m <= 12,
            expected == wide_cells(values_of(meta@), row_id@),
            cells@.len() == meta@.len() + m,
            forall|k: int| 0 <= k < cells@.len() ==> (#[trigger] cells@[k])@ == expected[k],
        decreases 12 - m,
    {
        cells.push(Cell::Float(0));
        m = m + 1;
    }
    cells.push(Cell::Text(row_id.to_owned()));
    proof {
        use_type_invariant(&*df);
        lemma_wide_columns(names_of(meta@));
        assert(cell_views(cells@) =~= expected);
        assert(row_fits(wide_columns(names_of(meta@)), expected));
    }
    append_row(df, &columns, &cells)
}

/// Changes to record for several rows, all the same.
pub open spec fn recorded(
    changes: Seq<ChangeView>,
    table: ChangeTable,
    ids: Seq<Seq<char>>,
    op: Result<OpView, ErrorView>,
) -> Seq<ChangeView> {
    changes + Seq::new(ids.len(), |i: int| typed(table, ids[i], op))
}

/// Record the same change for several rows.
pub fn record_rows(changes: &mut Vec<Change>, table: ChangeTable, ids: &Vec<String>, op: &ChangeOp)
    ensures
        change_views(final(changes)@) == recorded(
            change_views(old(changes)@),
            table,
            texts(ids@),
            Ok(op@),
        ),
{
    let ghost before = change_views(changes@);
    let ghost all = recorded(before, table, texts(ids@), Ok(op@));
    let mut i: usize = 0;
    assert(before =~= all.take(before.len() as int));
    while i < ids.len()
        invariant
            i <= ids.len(),
            all == recorded(before, table, texts(ids@), Ok(op@)),
            change_views(changes@) == all.take(before.len() + i),
        decreases ids.len() - i,
    {
        record(changes, table, ids[i].as_str(), Ok(op.clone()));
        assert(all.take(before.len() + i + 1) =~= all.take(before.len() + i).push(
            all[before.len() + i],
        ));
        i = i + 1;
    }
    assert(all.take(all.len() as int) =~= all);
}

/// Record a number set in the same column of several rows.
pub fn record_numbers(
    changes: &mut Vec<Change>,
    table: ChangeTable,
    ids: &Vec<String>,
    column: &str,
    number: FloatBits,
)
    ensures
        change_views(final(changes)@) == recorded(
            change_views(old(changes)@),
            table,
            texts(ids@),
            number_cell_op(column@, number),
        ),
{
    let ghost before = change_views(changes@);
    let ghost all = recorded(before, table, texts(ids@), number_cell_op(column@, number));
    let mut i: usize = 0;
    assert(before =~= all.take(before.len() as int));
    while i < ids.len()
        invariant
            i <= ids.len(),
            all == recorded(before, table, texts(ids@), number_cell_op(column@, number)),
            change_views(changes@) == all.take(before.len() + i),
        decreases ids.len() - i,
    {
        record(changes, table, ids[i].as_str(), number_cell(column, number));
        assert(all.take(before.len() + i + 1) =~= all.take(before.len() + i).push(
            all[before.len() + i],
        ));
        i = i + 1;
    }
    assert(all.take(all.len() as int) =~= all);
}

/// A yearly table and the changes to record of it.
#[verifier::ext_equal]
pub struct SheetView {
    pub df: TableView,
    pub changes: Seq<ChangeView>,
}

/// Whether a change either succeeded as described, or failed and left the table
/// and its record as they were.
pub open spec fn sheet_outcome(
    expected: Result<SheetView, ErrorView>,
    before: SheetView,
    after: SheetView,
    r: Result<(), Error>,
) -> bool {
    match r {
        Ok(()) => expected == Ok::<SheetView, ErrorView>(after),
        Err(e) => expected == Err::<SheetView, ErrorView>(e@) && after == before,
    }
}

/// A table with a new row, and the whole row to record.
pub open spec fn row_added(
    sheet: SheetView,
    table: ChangeTable,
    names: Seq<Seq<char>>,
    values: Seq<Seq<char>>,
    row_id: Seq<char>,
) -> Result<SheetView, ErrorView> {
    match wide_appended(sheet.df, names, values, row_id) {
        Err(e) => Err(e),
        Ok(df) => Ok(
            SheetView {
                df,
                changes: sheet.changes.push(typed(table, row_id, upsert_op(df, row_id))),
            },
        ),
    }
}

/// Add a row to a yearly table, to be recorded as a whole.
pub fn add_wide_row(
    df: &mut Table,
    changes: &mut Vec<Change>,
    table: ChangeTable,
    meta: &Vec<(&str, &str)>,
    row_id: &str,
) -> (r: Result<(), Error>)
    requires
        heads(names_of(meta@)),
    ensures
        sheet_outcome(
            row_added(
                SheetView { df: old(df)@, changes: change_views(old(changes)@) },
                table,
                names_of(meta@),
                values_of(meta@),
                row_id@,
            ),
            SheetView { df: old(df)@, changes: change_views(old(changes)@) },
            SheetView { df: final(df)@, changes: change_views(final(changes)@) },
            r,
        ),
{
    match append_wide_row(df, meta, row_id) {
        Ok(()) => {},
        Err(e) => return Err(e),
    }
    let op = upsert_row(df, row_id);
    record(changes, table, row_id, op);
    Ok(())
}

/// A table without the rows of a name, and their deletions to record.
pub open spec fn rows_removed(
    sheet: SheetView,
    table: ChangeTable,
    key: Seq<char>,
    name: Seq<char>,
) -> Result<SheetView, ErrorView> {
    match ids_where(sheet.df, key, name) {
        Err(e) => Err(e),
        Ok(ids) => match without_matches(sheet.df, key, name) {
            Err(e) => Err(e),
            Ok(df) => Ok(
                SheetView {
                    df,
                    changes: recorded(sheet.changes, table, ids, Ok(OpView::Delete)),
                },
            ),
        },
    }
}

/// Remove the rows of a name.
pub fn remove_wide_rows(
    df: &mut Table,
    changes: &mut Vec<Change>,
    table: ChangeTable,
    key: &str,
    name: &str,
) -> (r: Result<(), Error>)
    ensures
        sheet_outcome(
            rows_removed(
                SheetView { df: old(df)@, changes: change_views(old(changes)@) },
                table,
                key@,
                name@,
            ),
            SheetView { df: old(df)@, changes: change_views(old(changes)@) },
            SheetView { df: final(df)@, changes: change_views(final(changes)@) },
            r,
        ),
{
    let ids = match row_ids_where(df, key, name) {
        Ok(ids) => ids,
        Err(e) => return Err(e),
    };
    match remove_where(df, key, name) {
        Ok(()) => {},
        Err(e) => return Err(e),
    }
    record_rows(changes, table, &ids, &ChangeOp::Delete);
    Ok(())
}

/// A table with a text set in the rows of a name, and the cells to record.
pub open spec fn text_put(
    sheet: SheetView,
    table: ChangeTable,
    key: Seq<char>,
    name: Seq<char>,
    column: Seq<char>,
    value: Seq<char>,
) -> Result<SheetView, ErrorView> {
    match ids_where(sheet.df, key, name) {
        Err(e) => Err(e),
        Ok(ids) => match set_where(
            sheet.df,
            key,
            name,
            column,
            DataTypeView::Text,
            CellView::Text(value),
        ) {
            Err(e) => Err(e),
            Ok(df) => Ok(
                SheetView {
                    df,
                    changes: recorded(sheet.changes, table, ids, text_cell_op(column, value)),
                },
            ),
        },
    }
}

/// Set a text in the rows of a name.
pub fn put_text(
    df: &mut Table,
    changes: &mut Vec<Change>,
    table: ChangeTable,
    key: &str,
    name: &str,
    column: &str,
    value: &str,
) -> (r: Result<(), Error>)
    ensures
        sheet_outcome(
            text_put(
                SheetView { df: old(df)@, changes: change_views(old(changes)@) },
                table,
                key@,
                name@,
                column@,
                value@,
            ),
            SheetView { df: old(df)@, changes: change_views(old(changes)@) },
            SheetView { df: final(df)@, changes: change_views(final(changes)@) },
            r,
        ),
{
    let ids = match row_ids_where(df, key, name) {
        Ok(ids) => ids,
        Err(e) => return Err(e),
    };
    match set_str_where(df, key, name, column, value) {
        Ok(()) => {},
        Err(e) => return Err(e),
    }
    let op = text_cell(column, value);
    record_rows(changes, table, &ids, &op);
    Ok(())
}

/// A table with a number set in the rows of a name, and the cells to record.
pub open spec fn number_put(
    sheet: SheetView,
    table: ChangeTable,
    key: Seq<char>,
    name: Seq<char>,
    column: Seq<char>,
    number: FloatBits,
) -> Result<SheetView, ErrorView> {
    match ids_where(sheet.df, key, name) {
        Err(e) => Err(e),
        Ok(ids) => match set_where(
            sheet.df,
            key,
            name,
            column,
            DataTypeView::Float64,
            CellView::Float(number),
        ) {
            Err(e) => Err(e),
            Ok(df) => Ok(
                SheetView {
                    df,
                    changes: recorded(sheet.changes, table, ids, number_cell_op(column, number)),
                },
            ),
        },
    }
}

/// Set a number in the rows of a name.
pub fn put_number(
    df: &mut Table,
    changes: &mut Vec<Change>,
    table: ChangeTable,
    key: &str,
    name: &str,
    column: &str,
    number: FloatBits,
) -> (r: Result<(), Error>)
    ensures
        sheet_outcome(
            number_put(
                SheetView { df: old(df)@, changes: change_views(old(changes)@) },
                table,
                key@,
                name@,
                column@,
                number,
            ),
            SheetView { df: old(df)@, changes: change_views(old(changes)@) },
            SheetView { df: final(df)@, changes: change_views(final(changes)@) },
            r,
        ),
{
    let ids = match row_ids_where(df, key, name) {
        Ok(ids) => ids,
        Err(e) => return Err(e),
    };
    match set_f64_where(df, key, name, column, number) {
        Ok(()) => {},
        Err(e) => return Err(e),
    }
    record_numbers(changes, table, &ids, column, number);
    Ok(())
}

/// The label of a month, or that there is no such month.
pub open spec fn label_of(month: u32) -> Result<Seq<char>, ErrorView> {
    if 1 <= month <= 12 {
        Ok(month_label(month as nat))
    } else {
        Err(month_error(month as nat))
    }
}

/// The label of a month.
pub fn month_column(month: u32) -> (r: Result<String, Error>)
    ensures
        match r {
            Ok(label) => label_of(month) == Ok::<Seq<char>, ErrorView>(label@),
            Err(e) => label_of(month) == Err::<Seq<char>, ErrorView>(e@),
        },
{
    match check_month(month) {
        Ok(()) => {},
        Err(e) => return Err(e),
    }
    let mut label = String::new();
    push_padded(&mut label, month as u64, 2);
    assert(label@ =~= month_label(month as nat));
    Ok(label)
}

/// A name that no row has.
pub open spec fn unnamed_error(kind: Seq<char>, name: Seq<char>) -> ErrorView {
    ErrorView::NotFound(kind + " '"@ + name + "' not found."@)
}

/// A name that a row has already.
pub open spec fn taken_error(kind: Seq<char>, name: Seq<char>) -> ErrorView {
    ErrorView::AlreadyExists(kind + " '"@ + name + "' already exists."@)
}

/// That a row has a name, or what is wrong.
pub open spec fn is_named(df: TableView, key: Seq<char>, kind: Seq<char>, name: Seq<char>) -> Result<
    (),
    ErrorView,
> {
    match has_text(df, key, name) {
        Err(e) => Err(e),
        Ok(true) => Ok(()),
        Ok(false) => Err(unnamed_error(kind, name)),
    }
}

/// Succeed when a row has the name. `kind` says what the rows are in messages.
pub fn require_name(df: &Table, key: &str, kind: &str, name: &str) -> (r: Result<(), Error>)
    ensures
        outcome(r) == is_named(df@, key@, kind@, name@),
{
    match column_has(df, key, name) {
        Err(e) => Err(e),
        Ok(true) => Ok(()),
        Ok(false) => Err(
            Error::NotFound(kind.to_owned().concat(" '").concat(name).concat("' not found.")),
        ),
    }
}

/// That no row has a name, or what is wrong.
pub open spec fn is_free(df: TableView, key: Seq<char>, kind: Seq<char>, name: Seq<char>) -> Result<
    (),
    ErrorView,
> {
    match has_text(df, key, name) {
        Err(e) => Err(e),
        Ok(false) => Ok(()),
        Ok(true) => Err(taken_error(kind, name)),
    }
}

/// Succeed when no row has the name.
pub fn require_free(df: &Table, key: &str, kind: &str, name: &str) -> (r: Result<(), Error>)
    ensures
        outcome(r) == is_free(df@, key@, kind@, name@),
{
    match column_has(df, key, name) {
        Err(e) => Err(e),
        Ok(false) => Ok(()),
        Ok(true) => Err(
            Error::AlreadyExists(
                kind.to_owned().concat(" '").concat(name).concat("' already exists."),
            ),
        ),
    }
}

/// That a row can be renamed, or what is wrong: its name has to be there and the
/// new one, if it is another, has to be free.
pub open spec fn can_rename(
    df: TableView,
    key: Seq<char>,
    kind: Seq<char>,
    old_name: Seq<char>,
    new_name: Seq<char>,
) -> Result<(), ErrorView> {
    match is_named(df, key, kind, old_name) {
        Err(e) => Err(e),
        Ok(()) => if new_name != old_name {
            is_free(df, key, kind, new_name)
        } else {
            Ok(())
        },
    }
}

/// Succeed when a row can be renamed.
pub fn require_renamable(df: &Table, key: &str, kind: &str, old_name: &str, new_name: &str) -> (r:
    Result<(), Error>)
    ensures
        outcome(r) == can_rename(df@, key@, kind@, old_name@, new_name@),
{
    match require_name(df, key, kind, old_name) {
        Ok(()) => {},
        Err(e) => return Err(e),
    }
    if same_text(new_name, old_name) {
        Ok(())
    } else {
        require_free(df, key, kind, new_name)
    }
}

/// A table with the rows of a name renamed, and the cells to record.
pub open spec fn rows_renamed(
    sheet: SheetView,
    table: ChangeTable,
    key: Seq<char>,
    kind: Seq<char>,
    old_name: Seq<char>,
    new_name: Seq<char>,
) -> Result<SheetView, ErrorView> {
    match can_rename(sheet.df, key, kind, old_name, new_name) {
        Err(e) => Err(e),
        Ok(()) => text_put(sheet, table, key, old_name, key, new_name),
    }
}

/// Rename the rows of a name.
pub fn rename_rows(
    df: &mut Table,
    changes: &mut Vec<Change>,
    table: ChangeTable,
    key: &str,
    kind: &str,
    old_name: &str,
    new_name: &str,
) -> (r: Result<(), Error>)
    ensures
        sheet_outcome(
            rows_renamed(
                SheetView { df: old(df)@, changes: change_views(old(changes)@) },
                table,
                key@,
                kind@,
                old_name@,
                new_name@,
            ),
            SheetView { df: old(df)@, changes: change_views(old(changes)@) },
            SheetView { df: final(df)@, changes: change_views(final(changes)@) },
            r,
        ),
{
    match require_renamable(df, key, kind, old_name, new_name) {
        Ok(()) => {},
        Err(e) => return Err(e),
    }
    put_text(df, changes, table, key, old_name, key, new_name)
}

/// A table with a text set in the rows of a name that has to be there.
pub open spec fn named_text_put(
    sheet: SheetView,
    table: ChangeTable,
    key: Seq<char>,
    kind: Seq<char>,
    name: Seq<char>,
    column: Seq<char>,
    value: Seq<char>,
) -> Result<SheetView, ErrorView> {
    match is_named(sheet.df, key, kind, name) {
        Err(e) => Err(e),
        Ok(()) => text_put(sheet, table, key, name, column, value),
    }
}

/// Set a text in the rows of a name that has to be there.
pub fn put_named_text(
    df: &mut Table,
    changes: &mut Vec<Change>,
    table: ChangeTable,
    key: &str,
    kind: &str,
    name: &str,
    column: &str,
    value: &str,
) -> (r: Result<(), Error>)
    ensures
        sheet_outcome(
            named_text_put(
                SheetView { df: old(df)@, changes: change_views(old(changes)@) },
                table,
                key@,
                kind@,
                name@,
                column@,
                value@,
            ),
            SheetView { df: old(df)@, changes: change_views(old(changes)@) },
            SheetView { df: final(df)@, changes: change_views(final(changes)@) },
            r,
        ),
{
    match require_name(df, key, kind, name) {
        Ok(()) => {},
        Err(e) => return Err(e),
    }
    put_text(df, changes, table, key, name, column, value)
}

/// A table with the value of a month set in the rows of a name, which has to be
/// there.
pub open spec fn month_put(
    sheet: SheetView,
    table: ChangeTable,
    key: Seq<char>,
    kind: Seq<char>,
    name: Seq<char>,
    month: u32,
    number: FloatBits,
) -> Result<SheetView, ErrorView> {
    match label_of(month) {
        Err(e) => Err(e),
        Ok(label) => match is_named(sheet.df, key, kind, name) {
            Err(e) => Err(e),
            Ok(()) => number_put(sheet, table, key, name, label, number),
        },
    }
}

/// Set the value of a month in the rows of a name, which has to be there.
pub fn put_month(
    df: &mut Table,
    changes: &mut Vec<Change>,
    table: ChangeTable,
    key: &str,
    kind: &str,
    name: &str,
    month: u32,
    number: FloatBits,
) -> (r: Result<(), Error>)
    ensures
        sheet_outcome(
            month_put(
                SheetView { df: old(df)@, changes: change_views(old(changes)@) },
                table,
                key@,
                kind@,
                name@,
                month,
                number,
            ),
            SheetView { df: old(df)@, changes: change_views(old(changes)@) },
            SheetView { df: final(df)@, changes: change_views(final(changes)@) },
            r,
        ),
{
    let label = match month_column(month) {
        Ok(label) => label,
        Err(e) => return Err(e),
    };
    match require_name(df, key, kind, name) {
        Ok(()) => {},
        Err(e) => return Err(e),
    }
    put_number(df, changes, table, key, name, label.as_str(), number)
}

/// A table with a text column, filled with one value where the table lacked it.
pub open spec fn with_default(df: TableView, column: Seq<char>, value: Seq<char>) -> TableView {
    if df.has_column(column) {
        df
    } else {
        df.with_column(text_column(column), CellView::Text(value))
    }
}

/// Add a text column filled with one value, unless the table has it.
pub fn ensure_column(df: &mut Table, column: &str, value: &str)
    ensures
        final(df)@ == with_default(old(df)@, column@, value@),
{
    if !df.has_column(column) {
        df.add_column(Column::of(column, DataType::Text), Cell::Text(value.to_owned()));
    }
}

} // verus!
