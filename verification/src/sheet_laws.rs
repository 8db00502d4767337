//! What is entered in a yearly table is what it holds and what is recorded of it.

use vstd::prelude::*;
use crate::changes::{not_finite_error, ChangeView};
use crate::doubles::double_of;
use crate::error::ErrorView;
use crate::expense_laws::{grows, lemma_appended_grows};
use crate::fact_laws::is_text_of;
use crate::frame_laws::setting_sets_the_matches;
use crate::frames::{has_texts, ids_at, ids_where, others, without_matches};
use crate::holdings::{
    asset_added, asset_category_set, asset_link_set, asset_removed, asset_renamed, figure_set,
    holding_heads, pairs_among, price_heads, priced, HoldingsView,
};
use crate::merge_apply::{lemma_matching_rows, month_label, ROW_ID_COLUMN};
use crate::net_worth::{entry_added, liquid_asset_added, liquid_category_set};
use crate::numbers::{float_finite, FloatBits};
use crate::rows::{Number, ValueView};
use crate::sync::{ChangeTable, OpView};
use crate::table::{kept, matching_rows, row_fits, CellView, TableView};
use crate::wide::{
    heads, is_free, is_named, lemma_wide_columns, month_put, named_text_put, number_put, row_added,
    rows_removed, rows_renamed, text_put, wide_appended, wide_cells, wide_columns, SheetView,
};

verus! {

/// Whether a cell was kept: it is as it was, or a whole number became the double
/// precision number nearest to it.
pub open spec fn is_kept(before: CellView, after: CellView) -> bool {
    after == before || (before matches CellView::Int(n) && after == CellView::Float(
        double_of(Number::Int(n)),
    ))
}

/// Whether a table is another with a cell set in one column of the rows of a name,
/// and with everything else kept.
pub open spec fn is_set(
    before: TableView,
    after: TableView,
    key: Seq<char>,
    name: Seq<char>,
    column: Seq<char>,
    cell: CellView,
) -> bool {
    &&& after.wf()
    &&& after.rows.len() == before.rows.len()
    &&& after.columns.len() == before.columns.len()
    &&& forall|it: Seq<char>| #[trigger] after.has_column(it) == before.has_column(it)
    &&& forall|r: int, it: Seq<char>|
        0 <= r < before.rows.len() && before.has_column(it) && it != column ==> #[trigger] after.at(
            r,
            it,
        ) == before.at(r, it)
    &&& forall|r: int|
        0 <= r < before.rows.len() ==> {
            if before.at(r, key) == CellView::Text(name) {
                #[trigger] after.at(r, column) == cell
            } else {
                is_kept(before.at(r, column), after.at(r, column))
            }
        }
}

/// Whether the changes of a list are those of another and one more for each row of a
/// name that has an id, in the order of the rows, all saying the same of that row.
pub open spec fn is_recorded(
    before: Seq<ChangeView>,
    after: Seq<ChangeView>,
    df: TableView,
    key: Seq<char>,
    name: Seq<char>,
    table: ChangeTable,
    op: Result<OpView, ErrorView>,
    rows: Seq<int>,
) -> bool {
    &&& after.len() == before.len() + rows.len()
    &&& forall|k: int| 0 <= k < before.len() ==> #[trigger] after[k] == before[k]
    &&& are_rows_with_ids(df, key, name, rows)
    &&& forall|j: int|
        0 <= j < rows.len() ==> {
            let change = after[before.len() + j];
            &&& change.table == table
            &&& df.at(#[trigger] rows[j], "row_id"@) == CellView::Text(change.row_id)
            &&& change.op == op
            &&& change.origin is None
        }
}

/// Whether rows are those of a name that have an id, in order.
pub open spec fn are_rows_with_ids(
    df: TableView,
    key: Seq<char>,
    name: Seq<char>,
    rows: Seq<int>,
) -> bool {
    &&& forall|j: int|
        0 <= j < rows.len() ==> 0 <= #[trigger] rows[j] < df.rows.len() && df.at(rows[j], key)
            == CellView::Text(name) && df.at(rows[j], "row_id"@) is Text
    &&& forall|i: int, j: int| 0 <= i < j < rows.len() ==> #[trigger] rows[i] < #[trigger] rows[j]
    &&& forall|r: int|
        0 <= r < df.rows.len() && #[trigger] df.at(r, key) == CellView::Text(name) && df.at(
            r,
            "row_id"@,
        ) is Text ==> rows.contains(r)
}

proof fn lemma_ids_at(
    rows: Seq<Seq<CellView>>,
    key_column: int,
    key: Seq<char>,
    ids: int,
    n: int,
) -> (places: Seq<int>)
    requires
        0 <= n <= rows.len(),
    ensures
        places.len() == ids_at(rows, key_column, key, ids, n).len(),
        forall|j: int|
            0 <= j < places.len() ==> 0 <= #[trigger] places[j] < n
                && rows[places[j]][key_column] == CellView::Text(key) && rows[places[j]][ids]
                == CellView::Text(ids_at(rows, key_column, key, ids, n)[j]),
        forall|i: int, j: int|
            0 <= i < j < places.len() ==> #[trigger] places[i] < #[trigger] places[j],
        forall|r: int|
            0 <= r < n && (#[trigger] rows[r])[key_column] == CellView::Text(key) && rows[r][ids]
                is Text ==> places.contains(r),
    decreases n,
{
    if n <= 0 {
        Seq::empty()
    } else {
        let before = lemma_ids_at(rows, key_column, key, ids, n - 1);
        if rows[n - 1][key_column] == CellView::Text(key) && rows[n - 1][ids] is Text {
            let places = before.push(n - 1);
            assert forall|r: int|
                0 <= r < n && (#[trigger] rows[r])[key_column] == CellView::Text(key)
                    && rows[r][ids] is Text implies places.contains(r) by {
                if r < n - 1 {
                    let j = choose|j: int| 0 <= j < before.len() && before[j] == r;
                    assert(places[j] == r);
                } else {
                    assert(places[before.len() as int] == r);
                }
            }
            places
        } else {
            before
        }
    }
}

proof fn lemma_ids(df: TableView, key: Seq<char>, name: Seq<char>) -> (rows: Seq<int>)
    requires
        ids_where(df, key, name) is Ok,
    ensures
        are_rows_with_ids(df, key, name, rows),
        rows.len() == ids_where(df, key, name)->Ok_0.len(),
        forall|j: int|
            0 <= j < rows.len() ==> df.at(#[trigger] rows[j], "row_id"@) == CellView::Text(
                ids_where(df, key, name)->Ok_0[j],
            ),
{
    let rows = lemma_ids_at(
        df.rows,
        df.column_of(key),
        name,
        df.column_of(ROW_ID_COLUMN@),
        df.rows.len() as int,
    );
    assert forall|r: int|
        0 <= r < df.rows.len() && #[trigger] df.at(r, key) == CellView::Text(name) && df.at(
            r,
            "row_id"@,
        ) is Text implies rows.contains(r) by {
        assert(df.rows[r][df.column_of(key)] == CellView::Text(name));
    }
    rows
}

proof fn lemma_is_set(
    df: TableView,
    after: TableView,
    key: Seq<char>,
    name: Seq<char>,
    column: Seq<char>,
    dtype: crate::table::DataTypeView,
    cell: CellView,
)
    requires
        df.wf(),
        crate::table::fits(dtype, cell),
        crate::frames::set_where(df, key, name, column, dtype, cell) == Ok::<TableView, ErrorView>(
            after,
        ),
    ensures
        is_set(df, after, key, name, column, cell),
{
    setting_sets_the_matches(df, key, name, column, dtype, cell);
}

/// A text that was put into a column of the rows of a name is there, every other cell
/// is kept, and one change is recorded for each of those rows: this text in this
/// column.
pub proof fn a_text_that_was_put_is_there(
    sheet: SheetView,
    table: ChangeTable,
    key: Seq<char>,
    name: Seq<char>,
    column: Seq<char>,
    value: Seq<char>,
) -> (rows: Seq<int>)
    requires
        sheet.df.wf(),
        text_put(sheet, table, key, name, column, value) is Ok,
    ensures
        ({
            let after = text_put(sheet, table, key, name, column, value)->Ok_0;
            &&& is_set(sheet.df, after.df, key, name, column, CellView::Text(value))
            &&& is_recorded(
                sheet.changes,
                after.changes,
                sheet.df,
                key,
                name,
                table,
                Ok(OpView::Cell(column, ValueView::Text(value))),
                rows,
            )
        }),
{
    let after = text_put(sheet, table, key, name, column, value)->Ok_0;
    lemma_is_set(
        sheet.df,
        after.df,
        key,
        name,
        column,
        crate::table::DataTypeView::Text,
        CellView::Text(value),
    );
    lemma_ids(sheet.df, key, name)
}

/// What is recorded of a number in a column: the number itself, or that the log cannot
/// carry one that is not finite.
pub open spec fn number_change(column: Seq<char>, number: FloatBits) -> Result<OpView, ErrorView> {
    if float_finite(number) {
        Ok(OpView::Cell(column, ValueView::Number(Number::Float(number))))
    } else {
        Err(not_finite_error())
    }
}

/// A number that was put into a column of the rows of a name is there, every other
/// cell is kept, and one change is recorded for each of those rows: this number in
/// this column.
pub proof fn a_number_that_was_put_is_there(
    sheet: SheetView,
    table: ChangeTable,
    key: Seq<char>,
    name: Seq<char>,
    column: Seq<char>,
    number: FloatBits,
) -> (rows: Seq<int>)
    requires
        sheet.df.wf(),
        number_put(sheet, table, key, name, column, number) is Ok,
    ensures
        ({
            let after = number_put(sheet, table, key, name, column, number)->Ok_0;
            &&& is_set(sheet.df, after.df, key, name, column, CellView::Float(number))
            &&& is_recorded(
                sheet.changes,
                after.changes,
                sheet.df,
                key,
                name,
                table,
                number_change(column, number),
                rows,
            )
        }),
{
    let after = number_put(sheet, table, key, name, column, number)->Ok_0;
    lemma_is_set(
        sheet.df,
        after.df,
        key,
        name,
        column,
        crate::table::DataTypeView::Float64,
        CellView::Float(number),
    );
    lemma_ids(sheet.df, key, name)
}

/// Whether some row has a name. A row without one has an empty name.
pub open spec fn some_row_is(df: TableView, key: Seq<char>, name: Seq<char>) -> bool {
    exists|r: int| 0 <= r < df.rows.len() && is_text_of(#[trigger] df.at(r, key), name)
}

/// A name is there, or free, exactly as the rows of the table have it.
pub proof fn a_name_is_there_or_free(
    df: TableView,
    key: Seq<char>,
    kind: Seq<char>,
    name: Seq<char>,
)
    requires
        has_texts(df, key),
    ensures
        is_named(df, key, kind, name) is Ok <==> some_row_is(df, key, name),
        is_free(df, key, kind, name) is Ok <==> !some_row_is(df, key, name),
        is_named(df, key, kind, name) matches Err(e) ==> e is NotFound,
        is_free(df, key, kind, name) matches Err(e) ==> e is AlreadyExists,
{
    reveal_strlit("");
    assert(""@ =~= Seq::<char>::empty());
    let list = crate::frames::texts_in(df, key)->Ok_0;
    if list.contains(name) {
        let r = choose|r: int| 0 <= r < list.len() && list[r] == name;
        assert(is_text_of(df.at(r, key), name));
    }
    if some_row_is(df, key, name) {
        let r = choose|r: int|
            0 <= r < df.rows.len() && is_text_of(#[trigger] df.at(r, key), name);
        assert(list[r] == name);
    }
}

/// The value of a month that was set stands in the column of that month, for every
/// row of the name, which has to be there. Every other cell is kept, and the cells
/// are recorded.
pub proof fn a_month_that_was_put_is_there(
    sheet: SheetView,
    table: ChangeTable,
    key: Seq<char>,
    kind: Seq<char>,
    name: Seq<char>,
    month: u32,
    number: FloatBits,
) -> (rows: Seq<int>)
    requires
        sheet.df.wf(),
        month_put(sheet, table, key, kind, name, month, number) is Ok,
    ensures
        ({
            let after = month_put(sheet, table, key, kind, name, month, number)->Ok_0;
            let label = month_label(month as nat);
            &&& 1 <= month <= 12
            &&& some_row_is(sheet.df, key, name)
            &&& is_set(sheet.df, after.df, key, name, label, CellView::Float(number))
            &&& is_recorded(
                sheet.changes,
                after.changes,
                sheet.df,
                key,
                name,
                table,
                number_change(label, number),
                rows,
            )
        }),
{
    a_name_is_there_or_free(sheet.df, key, kind, name);
    a_number_that_was_put_is_there(sheet, table, key, name, month_label(month as nat), number)
}

/// A text that was set for a name, which has to be there, is there, and is recorded.
pub proof fn a_text_of_a_name_is_there(
    sheet: SheetView,
    table: ChangeTable,
    key: Seq<char>,
    kind: Seq<char>,
    name: Seq<char>,
    column: Seq<char>,
    value: Seq<char>,
) -> (rows: Seq<int>)
    requires
        sheet.df.wf(),
        named_text_put(sheet, table, key, kind, name, column, value) is Ok,
    ensures
        ({
            let after = named_text_put(sheet, table, key, kind, name, column, value)->Ok_0;
            &&& some_row_is(sheet.df, key, name)
            &&& is_set(sheet.df, after.df, key, name, column, CellView::Text(value))
            &&& is_recorded(
                sheet.changes,
                after.changes,
                sheet.df,
                key,
                name,
                table,
                Ok(OpView::Cell(column, ValueView::Text(value))),
                rows,
            )
        }),
{
    a_name_is_there_or_free(sheet.df, key, kind, name);
    a_text_that_was_put_is_there(sheet, table, key, name, column, value)
}

/// Rows that were renamed have the new name, which none had before unless it is the
/// old one. No other cell changes, and the new name is recorded for each of them.
pub proof fn renamed_rows_have_the_new_name(
    sheet: SheetView,
    table: ChangeTable,
    key: Seq<char>,
    kind: Seq<char>,
    old_name: Seq<char>,
    new_name: Seq<char>,
) -> (rows: Seq<int>)
    requires
        sheet.df.wf(),
        rows_renamed(sheet, table, key, kind, old_name, new_name) is Ok,
    ensures
        ({
            let after = rows_renamed(sheet, table, key, kind, old_name, new_name)->Ok_0;
            &&& some_row_is(sheet.df, key, old_name)
            &&& new_name != old_name ==> !some_row_is(sheet.df, key, new_name)
            &&& is_set(sheet.df, after.df, key, old_name, key, CellView::Text(new_name))
            &&& is_recorded(
                sheet.changes,
                after.changes,
                sheet.df,
                key,
                old_name,
                table,
                Ok(OpView::Cell(key, ValueView::Text(new_name))),
                rows,
            )
        }),
{
    a_name_is_there_or_free(sheet.df, key, kind, old_name);
    a_name_is_there_or_free(sheet.df, key, kind, new_name);
    a_text_that_was_put_is_there(sheet, table, key, old_name, key, new_name)
}

/// Whether a table is another without the rows of a name: the other rows stay as they
/// are, in their order, at the places given.
pub open spec fn is_without(
    before: TableView,
    after: TableView,
    key: Seq<char>,
    name: Seq<char>,
    places: Seq<int>,
) -> bool {
    &&& after.columns == before.columns
    &&& after.rows.len() == places.len()
    &&& forall|k: int|
        0 <= k < places.len() ==> 0 <= #[trigger] places[k] < before.rows.len() && after.rows[k]
            == before.rows[places[k]] && before.at(places[k], key) != CellView::Text(name)
    &&& forall|i: int, j: int|
        0 <= i < j < places.len() ==> #[trigger] places[i] < #[trigger] places[j]
    &&& forall|r: int|
        0 <= r < before.rows.len() && #[trigger] before.at(r, key) != CellView::Text(name)
            ==> places.contains(r)
}

/// Those of the first `n` rows that are flagged, by their places.
pub proof fn lemma_kept_places(rows: Seq<Seq<CellView>>, keep: Seq<bool>, n: int) -> (places: Seq<
    int,
>)
    requires
        0 <= n <= rows.len(),
    ensures
        places.len() == kept(rows, keep, n).len(),
        forall|k: int|
            0 <= k < places.len() ==> 0 <= #[trigger] places[k] < n && keep[places[k]] && kept(
                rows,
                keep,
                n,
            )[k] == rows[places[k]],
        forall|i: int, j: int|
            0 <= i < j < places.len() ==> #[trigger] places[i] < #[trigger] places[j],
        forall|r: int| 0 <= r < n && #[trigger] keep[r] ==> places.contains(r),
    decreases n,
{
    if n <= 0 {
        Seq::empty()
    } else {
        let before = lemma_kept_places(rows, keep, n - 1);
        if keep[n - 1] {
            let places = before.push(n - 1);
            assert forall|r: int| 0 <= r < n && #[trigger] keep[r] implies places.contains(r) by {
                if r < n - 1 {
                    let k = choose|k: int| 0 <= k < before.len() && before[k] == r;
                    assert(places[k] == r);
                } else {
                    assert(places[before.len() as int] == r);
                }
            }
            places
        } else {
            before
        }
    }
}

/// Removing the rows that match a key leaves the others, in their order, as they are.
pub proof fn removing_leaves_the_others(
    df: TableView,
    key: Seq<char>,
    name: Seq<char>,
) -> (places: Seq<int>)
    requires
        without_matches(df, key, name) is Ok,
    ensures
        is_without(df, without_matches(df, key, name)->Ok_0, key, name, places),
{
    let keep = others(df.rows, df.column_of(key), name);
    let places = lemma_kept_places(df.rows, keep, df.rows.len() as int);
    assert forall|r: int|
        0 <= r < df.rows.len() && #[trigger] df.at(r, key) != CellView::Text(
            name,
        ) implies places.contains(r) by {
        assert(keep[r]);
    }
    assert forall|k: int| 0 <= k < places.len() implies 0 <= #[trigger] places[k] < df.rows.len()
        && df.at(places[k], key) != CellView::Text(name) by {
        assert(keep[places[k]]);
    }
    places
}

/// Rows that were removed are gone, the others stay, and the removal of each that had
/// an id is recorded.
pub proof fn removed_rows_are_gone(
    sheet: SheetView,
    table: ChangeTable,
    key: Seq<char>,
    name: Seq<char>,
) -> (places: (Seq<int>, Seq<int>))
    requires
        rows_removed(sheet, table, key, name) is Ok,
    ensures
        ({
            let after = rows_removed(sheet, table, key, name)->Ok_0;
            &&& is_without(sheet.df, after.df, key, name, places.0)
            &&& is_recorded(
                sheet.changes,
                after.changes,
                sheet.df,
                key,
                name,
                table,
                Ok(OpView::Delete),
                places.1,
            )
        }),
{
    (removing_leaves_the_others(sheet.df, key, name), lemma_ids(sheet.df, key, name))
}

/// Whether a table is another with one row more at its end: what the row is in the
/// columns of its names, zero in every month, and its id.
pub open spec fn has_new_row(
    before: TableView,
    after: TableView,
    names: Seq<Seq<char>>,
    values: Seq<Seq<char>>,
    row_id: Seq<char>,
) -> bool {
    let n = before.rows.len() as int;
    &&& grows(before, after)
    &&& after.rows.len() == n + 1
    &&& forall|i: int|
        0 <= i < names.len() ==> after.has_column(#[trigger] names[i]) && after.at(n, names[i])
            == CellView::Text(values[i])
    &&& forall|month: nat|
        1 <= month <= 12 ==> after.has_column(#[trigger] month_label(month)) && after.at(
            n,
            month_label(month),
        ) == CellView::Float(0)
    &&& after.has_column("row_id"@)
    &&& after.at(n, "row_id"@) == CellView::Text(row_id)
}

proof fn lemma_new_row(
    df: TableView,
    names: Seq<Seq<char>>,
    values: Seq<Seq<char>>,
    row_id: Seq<char>,
)
    requires
        df.wf(),
        heads(names),
        names.len() == values.len(),
        wide_appended(df, names, values, row_id) is Ok,
    ensures
        has_new_row(df, wide_appended(df, names, values, row_id)->Ok_0, names, values, row_id),
{
    let columns = wide_columns(names);
    let cells = wide_cells(values, row_id);
    let after = wide_appended(df, names, values, row_id)->Ok_0;
    let n = df.rows.len() as int;
    let m = names.len() as int;
    lemma_wide_columns(names);
    assert(row_fits(columns, cells));
    lemma_appended_grows(df, columns, cells, m + 12);
    assert forall|i: int| 0 <= i < m implies after.has_column(#[trigger] names[i]) && after.at(
        n,
        names[i],
    ) == CellView::Text(values[i]) by {
        lemma_appended_grows(df, columns, cells, i);
    }
    assert forall|month: nat| 1 <= month <= 12 implies after.has_column(
        #[trigger] month_label(month),
    ) && after.at(n, month_label(month)) == CellView::Float(0) by {
        lemma_appended_grows(df, columns, cells, m + month - 1);
    }
}

/// A row that was added to a yearly table is its last: it has the values given, in
/// the columns of their names, zero in every month, and its id. One change is
/// recorded, of this row of this table.
pub proof fn an_added_row_holds_what_was_given(
    sheet: SheetView,
    table: ChangeTable,
    names: Seq<Seq<char>>,
    values: Seq<Seq<char>>,
    row_id: Seq<char>,
)
    requires
        sheet.df.wf(),
        heads(names),
        names.len() == values.len(),
        row_added(sheet, table, names, values, row_id) is Ok,
    ensures
        ({
            let after = row_added(sheet, table, names, values, row_id)->Ok_0;
            &&& has_new_row(sheet.df, after.df, names, values, row_id)
            &&& after.changes.drop_last() == sheet.changes
            &&& after.changes.len() == sheet.changes.len() + 1
            &&& after.changes.last().table == table
            &&& after.changes.last().row_id == row_id
            &&& after.changes.last().origin is None
        }),
{
    lemma_new_row(sheet.df, names, values, row_id);
    assert(row_added(sheet, table, names, values, row_id)->Ok_0.changes.drop_last()
        =~= sheet.changes);
}

/// A liquid asset that was added has its name, one of the three categories and its
/// currency, zero in every month, and its id. No asset had the name before.
pub proof fn an_added_liquid_asset_is_there(
    sheet: SheetView,
    year: i32,
    name: Seq<char>,
    category: Seq<char>,
    currency: Seq<char>,
    row_id: Seq<char>,
)
    requires
        sheet.df.wf(),
        liquid_asset_added(sheet, year, name, category, currency, row_id) is Ok,
    ensures
        ({
            let after = liquid_asset_added(sheet, year, name, category, currency, row_id)->Ok_0;
            &&& category == "Bank/Broker account"@ || category == "Cash"@ || category == "Other"@
            &&& !some_row_is(sheet.df, "asset_name"@, name)
            &&& has_new_row(
                sheet.df,
                after.df,
                seq!["asset_name"@, "category"@, "currency"@],
                seq![name, category, currency],
                row_id,
            )
            &&& after.changes.drop_last() == sheet.changes
            &&& after.changes.len() == sheet.changes.len() + 1
            &&& after.changes.last().table == (ChangeTable::Liquidity { year })
            &&& after.changes.last().row_id == row_id
        }),
{
    crate::net_worth::lemma_liquidity_heads();
    a_name_is_there_or_free(sheet.df, "asset_name"@, "Asset"@, name);
    an_added_row_holds_what_was_given(
        sheet,
        ChangeTable::Liquidity { year },
        seq!["asset_name"@, "category"@, "currency"@],
        seq![name, category, currency],
        row_id,
    );
}

/// A liquid asset that got another category, one of the three, has it.
pub proof fn a_liquid_asset_has_its_new_category(
    sheet: SheetView,
    year: i32,
    name: Seq<char>,
    category: Seq<char>,
) -> (rows: Seq<int>)
    requires
        sheet.df.wf(),
        liquid_category_set(sheet, year, name, category) is Ok,
    ensures
        ({
            let after = liquid_category_set(sheet, year, name, category)->Ok_0;
            &&& category == "Bank/Broker account"@ || category == "Cash"@ || category == "Other"@
            &&& some_row_is(sheet.df, "asset_name"@, name)
            &&& is_set(
                sheet.df,
                after.df,
                "asset_name"@,
                name,
                "category"@,
                CellView::Text(category),
            )
            &&& is_recorded(
                sheet.changes,
                after.changes,
                sheet.df,
                "asset_name"@,
                name,
                ChangeTable::Liquidity { year },
                Ok(OpView::Cell("category"@, ValueView::Text(category))),
                rows,
            )
        }),
{
    a_name_is_there_or_free(sheet.df, "asset_name"@, "Asset"@, name);
    a_text_that_was_put_is_there(
        sheet,
        ChangeTable::Liquidity { year },
        "asset_name"@,
        name,
        "category"@,
        category,
    )
}

/// A credit or debt that was added has its name and its currency, zero in every
/// month, and its id. None had the name before.
pub proof fn an_added_entry_is_there(
    sheet: SheetView,
    year: i32,
    name: Seq<char>,
    currency: Seq<char>,
    row_id: Seq<char>,
)
    requires
        sheet.df.wf(),
        entry_added(sheet, year, name, currency, row_id) is Ok,
    ensures
        ({
            let after = entry_added(sheet, year, name, currency, row_id)->Ok_0;
            &&& !some_row_is(sheet.df, "name"@, name)
            &&& has_new_row(
                sheet.df,
                after.df,
                seq!["name"@, "currency"@],
                seq![name, currency],
                row_id,
            )
            &&& after.changes.drop_last() == sheet.changes
            &&& after.changes.len() == sheet.changes.len() + 1
            &&& after.changes.last().table == (ChangeTable::CreditsDebts { year })
            &&& after.changes.last().row_id == row_id
        }),
{
    crate::net_worth::lemma_credits_heads();
    a_name_is_there_or_free(sheet.df, "name"@, "Entry"@, name);
    an_added_row_holds_what_was_given(
        sheet,
        ChangeTable::CreditsDebts { year },
        seq!["name"@, "currency"@],
        seq![name, currency],
        row_id,
    );
}

/// An investment that was added is in both tables under one id: its name, one of the
/// three categories and its link in both, its currency with the holdings, and zero in
/// every month. No asset had the name before. Two changes are recorded, of the row of
/// the holdings and then of the row of the prices.
pub proof fn an_added_investment_is_there(
    holdings: HoldingsView,
    name: Seq<char>,
    category: Seq<char>,
    link: Seq<char>,
    currency: Seq<char>,
    row_id: Seq<char>,
)
    requires
        holdings.df.wf(),
        holdings.prices.wf(),
        asset_added(holdings, name, category, link, currency, row_id).1 is Ok,
    ensures
        ({
            let after = asset_added(holdings, name, category, link, currency, row_id).0;
            let n = holdings.changes.len() as int;
            &&& category == "Stocks/ETF"@ || category == "Commodities"@ || category == "Bonds"@
            &&& !some_row_is(holdings.df, "asset_name"@, name)
            &&& has_new_row(
                holdings.df,
                after.df,
                seq!["asset_name"@, "category"@, "link"@, "currency"@],
                seq![name, category, link, currency],
                row_id,
            )
            &&& has_new_row(
                holdings.prices,
                after.prices,
                seq!["asset_name"@, "category"@, "link"@],
                seq![name, category, link],
                row_id,
            )
            &&& after.year == holdings.year
            &&& after.changes.len() == n + 2
            &&& after.changes.take(n) == holdings.changes
            &&& after.changes[n].table == (ChangeTable::Investments { year: holdings.year })
            &&& after.changes[n].row_id == row_id
            &&& after.changes[n].origin is None
            &&& after.changes[n + 1].table == (ChangeTable::InvestmentsPrices {
                year: holdings.year,
            })
            &&& after.changes[n + 1].row_id == row_id
            &&& after.changes[n + 1].origin is None
        }),
{
    let after = asset_added(holdings, name, category, link, currency, row_id).0;
    crate::holdings::lemma_heads();
    a_name_is_there_or_free(holdings.df, "asset_name"@, "Asset"@, name);
    lemma_new_row(
        holdings.df,
        holding_heads(),
        seq![name, category, link, currency],
        row_id,
    );
    lemma_new_row(holdings.prices, price_heads(), seq![name, category, link], row_id);
    assert(after.changes.take(holdings.changes.len() as int) =~= holdings.changes);
}

/// Whether both tables of the investments have a text set in a column of the rows of
/// an asset, with everything else kept, and the cells recorded: those of the holdings
/// first, then those of the prices.
pub open spec fn is_set_in_both(
    before: HoldingsView,
    after: HoldingsView,
    name: Seq<char>,
    column: Seq<char>,
    value: Seq<char>,
    rows: (Seq<int>, Seq<int>),
) -> bool {
    let n = before.changes.len() + rows.0.len();
    &&& after.year == before.year
    &&& is_set(before.df, after.df, "asset_name"@, name, column, CellView::Text(value))
    &&& is_set(before.prices, after.prices, "asset_name"@, name, column, CellView::Text(value))
    &&& n <= after.changes.len()
    &&& is_recorded(
        before.changes,
        after.changes.take(n as int),
        before.df,
        "asset_name"@,
        name,
        ChangeTable::Investments { year: before.year },
        Ok(OpView::Cell(column, ValueView::Text(value))),
        rows.0,
    )
    &&& is_recorded(
        after.changes.take(n as int),
        after.changes,
        before.prices,
        "asset_name"@,
        name,
        ChangeTable::InvestmentsPrices { year: before.year },
        Ok(OpView::Cell(column, ValueView::Text(value))),
        rows.1,
    )
}

proof fn lemma_both_set(
    holdings: HoldingsView,
    name: Seq<char>,
    column: Seq<char>,
    value: Seq<char>,
) -> (rows: (Seq<int>, Seq<int>))
    requires
        holdings.df.wf(),
        holdings.prices.wf(),
        crate::holdings::both_set(holdings, name, column, value).1 is Ok,
    ensures
        is_set_in_both(
            holdings,
            crate::holdings::both_set(holdings, name, column, value).0,
            name,
            column,
            value,
            rows,
        ),
{
    let after = crate::holdings::both_set(holdings, name, column, value).0;
    let cell = CellView::Text(value);
    let text = crate::table::DataTypeView::Text;
    lemma_is_set(holdings.df, after.df, "asset_name"@, name, column, text, cell);
    lemma_is_set(holdings.prices, after.prices, "asset_name"@, name, column, text, cell);
    let rows = (
        lemma_ids(holdings.df, "asset_name"@, name),
        lemma_ids(holdings.prices, "asset_name"@, name),
    );
    rows
}

/// An investment that was renamed has the new name in both tables, which no asset had
/// before unless it is the old one.
pub proof fn a_renamed_investment_has_the_new_name(
    holdings: HoldingsView,
    old_name: Seq<char>,
    new_name: Seq<char>,
) -> (rows: (Seq<int>, Seq<int>))
    requires
        holdings.df.wf(),
        holdings.prices.wf(),
        asset_renamed(holdings, old_name, new_name).1 is Ok,
    ensures
        some_row_is(holdings.df, "asset_name"@, old_name),
        new_name != old_name ==> !some_row_is(holdings.df, "asset_name"@, new_name),
        is_set_in_both(
            holdings,
            asset_renamed(holdings, old_name, new_name).0,
            old_name,
            "asset_name"@,
            new_name,
            rows,
        ),
{
    a_name_is_there_or_free(holdings.df, "asset_name"@, "Asset"@, old_name);
    a_name_is_there_or_free(holdings.df, "asset_name"@, "Asset"@, new_name);
    lemma_both_set(holdings, old_name, "asset_name"@, new_name)
}

/// An investment that got another category, one of the three, has it in both tables.
pub proof fn an_investment_has_its_new_category(
    holdings: HoldingsView,
    name: Seq<char>,
    category: Seq<char>,
) -> (rows: (Seq<int>, Seq<int>))
    requires
        holdings.df.wf(),
        holdings.prices.wf(),
        asset_category_set(holdings, name, category).1 is Ok,
    ensures
        category == "Stocks/ETF"@ || category == "Commodities"@ || category == "Bonds"@,
        some_row_is(holdings.df, "asset_name"@, name),
        is_set_in_both(
            holdings,
            asset_category_set(holdings, name, category).0,
            name,
            "category"@,
            category,
            rows,
        ),
{
    a_name_is_there_or_free(holdings.df, "asset_name"@, "Asset"@, name);
    lemma_both_set(holdings, name, "category"@, category)
}

/// An investment that got another link has it in both tables.
pub proof fn an_investment_has_its_new_link(
    holdings: HoldingsView,
    name: Seq<char>,
    link: Seq<char>,
) -> (rows: (Seq<int>, Seq<int>))
    requires
        holdings.df.wf(),
        holdings.prices.wf(),
        asset_link_set(holdings, name, link).1 is Ok,
    ensures
        some_row_is(holdings.df, "asset_name"@, name),
        is_set_in_both(
            holdings,
            asset_link_set(holdings, name, link).0,
            name,
            "link"@,
            link,
            rows,
        ),
{
    a_name_is_there_or_free(holdings.df, "asset_name"@, "Asset"@, name);
    lemma_both_set(holdings, name, "link"@, link)
}

/// An investment that was removed is in neither table, the other rows of both stay as
/// they are, and each removal is recorded for its own table.
pub proof fn a_removed_investment_is_in_neither_table(
    holdings: HoldingsView,
    name: Seq<char>,
) -> (places: (Seq<int>, Seq<int>, Seq<int>, Seq<int>))
    requires
        asset_removed(holdings, name).1 is Ok,
    ensures
        ({
            let after = asset_removed(holdings, name).0;
            let n = holdings.changes.len() + places.2.len();
            &&& after.year == holdings.year
            &&& is_without(holdings.df, after.df, "asset_name"@, name, places.0)
            &&& is_without(holdings.prices, after.prices, "asset_name"@, name, places.1)
            &&& n <= after.changes.len()
            &&& is_recorded(
                holdings.changes,
                after.changes.take(n as int),
                holdings.df,
                "asset_name"@,
                name,
                ChangeTable::Investments { year: holdings.year },
                Ok(OpView::Delete),
                places.2,
            )
            &&& is_recorded(
                after.changes.take(n as int),
                after.changes,
                holdings.prices,
                "asset_name"@,
                name,
                ChangeTable::InvestmentsPrices { year: holdings.year },
                Ok(OpView::Delete),
                places.3,
            )
        }),
{
    (
        removing_leaves_the_others(holdings.df, "asset_name"@, name),
        removing_leaves_the_others(holdings.prices, "asset_name"@, name),
        lemma_ids(holdings.df, "asset_name"@, name),
        lemma_ids(holdings.prices, "asset_name"@, name),
    )
}

/// A quantity that was set stands in the holdings, and a price in the prices, in the
/// column of its month, for the asset, which has to be there. The other table stays as
/// it is, every other cell is kept, and the number is recorded for its own table. Any
/// other word than these two is refused.
pub proof fn a_quantity_or_price_that_was_set_is_there(
    holdings: HoldingsView,
    name: Seq<char>,
    month: u32,
    value: FloatBits,
    which: Seq<char>,
) -> (rows: Seq<int>)
    requires
        holdings.df.wf(),
        holdings.prices.wf(),
        figure_set(holdings, name, month, value, which).1 is Ok,
    ensures
        ({
            let after = figure_set(holdings, name, month, value, which).0;
            let label = month_label(month as nat);
            &&& 1 <= month <= 12
            &&& which == "quantity"@ || which == "price"@
            &&& some_row_is(holdings.df, "asset_name"@, name)
            &&& after.year == holdings.year
            &&& which == "quantity"@ ==> after.prices == holdings.prices && is_set(
                holdings.df,
                after.df,
                "asset_name"@,
                name,
                label,
                CellView::Float(value),
            ) && is_recorded(
                holdings.changes,
                after.changes,
                holdings.df,
                "asset_name"@,
                name,
                ChangeTable::Investments { year: holdings.year },
                number_change(label, value),
                rows,
            )
            &&& which == "price"@ ==> after.df == holdings.df && is_set(
                holdings.prices,
                after.prices,
                "asset_name"@,
                name,
                label,
                CellView::Float(value),
            ) && is_recorded(
                holdings.changes,
                after.changes,
                holdings.prices,
                "asset_name"@,
                name,
                ChangeTable::InvestmentsPrices { year: holdings.year },
                number_change(label, value),
                rows,
            )
        }),
{
    reveal_strlit("quantity");
    reveal_strlit("price");
    assert("quantity"@.len() != "price"@.len());
    a_name_is_there_or_free(holdings.df, "asset_name"@, "Asset"@, name);
    let label = month_label(month as nat);
    if which == "quantity"@ {
        a_number_that_was_put_is_there(
            SheetView { df: holdings.df, changes: holdings.changes },
            ChangeTable::Investments { year: holdings.year },
            "asset_name"@,
            name,
            label,
            value,
        )
    } else {
        a_number_that_was_put_is_there(
            SheetView { df: holdings.prices, changes: holdings.changes },
            ChangeTable::InvestmentsPrices { year: holdings.year },
            "asset_name"@,
            name,
            label,
            value,
        )
    }
}

/// Whether a pair is a holding and a price of the same asset, or a holding that has no
/// price.
pub open spec fn is_pair(df: TableView, prices: TableView, pair: (int, Option<int>)) -> bool {
    &&& 0 <= pair.0 < df.rows.len()
    &&& match pair.1 {
        Some(p) => 0 <= p < prices.rows.len() && df.at(pair.0, "asset_name"@) is Text && df.at(
            pair.0,
            "asset_name"@,
        ) == prices.at(p, "asset_name"@),
        None => forall|p: int|
            0 <= p < prices.rows.len() && df.at(pair.0, "asset_name"@) is Text
                ==> #[trigger] prices.at(p, "asset_name"@) != df.at(pair.0, "asset_name"@),
    }
}

/// Whether a pair comes before another: its holding does, or its price of the same
/// holding.
pub open spec fn comes_before(one: (int, Option<int>), other: (int, Option<int>)) -> bool {
    one.0 < other.0 || (one.0 == other.0 && one.1 is Some && other.1 is Some && one.1->0
        < other.1->0)
}

proof fn lemma_pairs(df: TableView, prices: TableView, n: int)
    requires
        0 <= n <= df.rows.len(),
    ensures
        ({
            let c = df.column_of("asset_name"@);
            let d = prices.column_of("asset_name"@);
            let pairs = pairs_among(df.rows, c, prices.rows, d, n);
            &&& forall|k: int|
                0 <= k < pairs.len() ==> is_pair(df, prices, #[trigger] pairs[k]) && pairs[k].0 < n
            &&& forall|i: int, j: int|
                0 <= i < j < pairs.len() ==> comes_before(#[trigger] pairs[i], #[trigger] pairs[j])
            &&& forall|r: int, p: int|
                0 <= r < n && 0 <= p < prices.rows.len() && df.at(r, "asset_name"@) is Text && df.at(
                    r,
                    "asset_name"@,
                ) == prices.at(p, "asset_name"@) ==> #[trigger] pairs.contains((r, Some(p)))
            &&& forall|r: int|
                0 <= r < n && (forall|p: int|
                    0 <= p < prices.rows.len() && df.at(r, "asset_name"@) is Text
                        ==> #[trigger] prices.at(p, "asset_name"@) != df.at(r, "asset_name"@))
                    ==> pairs.contains((r, #[trigger] nothing_for(r)))
        }),
    decreases n,
{
    let c = df.column_of("asset_name"@);
    let d = prices.column_of("asset_name"@);
    if n > 0 {
        lemma_pairs(df, prices, n - 1);
        let before = pairs_among(df.rows, c, prices.rows, d, n - 1);
        let pairs = pairs_among(df.rows, c, prices.rows, d, n);
        let cell = df.rows[n - 1][c];
        let found = match cell {
            CellView::Text(name) => matching_rows(prices.rows, d, name, prices.rows.len() as int),
            _ => Seq::empty(),
        };
        if let CellView::Text(name) = cell {
            lemma_matching_rows(prices.rows, d, name, prices.rows.len() as int);
        }
        let m = before.len() as int;
        assert forall|k: int| 0 <= k < m implies pairs[k] == before[k] by {}
        assert forall|k: int| 0 <= k < pairs.len() implies is_pair(df, prices, #[trigger] pairs[k])
            && pairs[k].0 < n by {
            if k < m {
                assert(pairs[k] == before[k]);
            } else if found.len() == 0 {
                assert(pairs[k] == (n - 1, None::<int>));
                assert forall|p: int|
                    0 <= p < prices.rows.len() && df.at(n - 1, "asset_name"@)
                        is Text implies #[trigger] prices.at(p, "asset_name"@) != df.at(
                    n - 1,
                    "asset_name"@,
                ) by {
                    if prices.rows[p][d] == cell {
                        assert(found.contains(p));
                    }
                }
            } else {
                assert(pairs[k] == (n - 1, Some(found[k - m])));
            }
        }
        assert forall|i: int, j: int| 0 <= i < j < pairs.len() implies comes_before(
            #[trigger] pairs[i],
            #[trigger] pairs[j],
        ) by {
            if j < m {
                assert(comes_before(before[i], before[j]));
            } else if i < m {
                assert(before[i].0 < n - 1);
                assert(pairs[i] == before[i]);
                if found.len() == 0 {
                    assert(pairs[j] == (n - 1, None::<int>));
                } else {
                    assert(pairs[j] == (n - 1, Some(found[j - m])));
                }
            } else {
                assert(found.len() > 0);
                assert(pairs[i] == (n - 1, Some(found[i - m])));
                assert(pairs[j] == (n - 1, Some(found[j - m])));
                assert(found[i - m] < found[j - m]);
            }
        }
        assert forall|r: int, p: int|
            0 <= r < n && 0 <= p < prices.rows.len() && df.at(r, "asset_name"@) is Text && df.at(
                r,
                "asset_name"@,
            ) == prices.at(p, "asset_name"@) implies #[trigger] pairs.contains((r, Some(p))) by {
            if r < n - 1 {
                assert(before.contains((r, Some(p))));
                let k = choose|k: int| 0 <= k < m && before[k] == (r, Some(p));
                assert(pairs[k] == (r, Some(p)));
            } else {
                assert(prices.rows[p][d] == cell);
                assert(found.contains(p));
                let k = choose|k: int| 0 <= k < found.len() && found[k] == p;
                assert(pairs[m + k] == (r, Some(p)));
            }
        }
        assert forall|r: int|
            0 <= r < n && (forall|p: int|
                0 <= p < prices.rows.len() && df.at(r, "asset_name"@) is Text
                    ==> #[trigger] prices.at(p, "asset_name"@) != df.at(
                    r,
                    "asset_name"@,
                )) implies pairs.contains((r, #[trigger] nothing_for(r))) by {
            if r < n - 1 {
                assert(before.contains((r, nothing_for(r))));
                let k = choose|k: int| 0 <= k < m && before[k] == (r, nothing_for(r));
                assert(pairs[k] == (r, nothing_for(r)));
            } else {
                if found.len() > 0 {
                    let p = found[0];
                    assert(prices.at(p, "asset_name"@) == cell);
                }
                assert(pairs[m] == (r, nothing_for(r)));
            }
        }
    }
}

/// No price of a holding.
pub open spec fn nothing_for(r: int) -> Option<int> {
    None
}

/// The holdings are paired with their prices by name: every pair is a holding with a
/// price of the same asset or a holding that has none, in the order of the holdings,
/// and no such pair is missing.
pub proof fn holdings_are_paired_with_their_prices(df: TableView, prices: TableView)
    requires
        priced(df, prices) is Ok,
    ensures
        ({
            let pairs = priced(df, prices)->Ok_0;
            &&& forall|k: int| 0 <= k < pairs.len() ==> is_pair(df, prices, #[trigger] pairs[k])
            &&& forall|i: int, j: int|
                0 <= i < j < pairs.len() ==> comes_before(#[trigger] pairs[i], #[trigger] pairs[j])
            &&& forall|r: int, p: int|
                0 <= r < df.rows.len() && 0 <= p < prices.rows.len() && df.at(r, "asset_name"@)
                    is Text && df.at(r, "asset_name"@) == prices.at(p, "asset_name"@)
                    ==> #[trigger] pairs.contains((r, Some(p)))
            &&& forall|r: int|
                0 <= r < df.rows.len() && (forall|p: int|
                    0 <= p < prices.rows.len() && df.at(r, "asset_name"@) is Text
                        ==> #[trigger] prices.at(p, "asset_name"@) != df.at(r, "asset_name"@))
                    ==> pairs.contains((r, #[trigger] nothing_for(r)))
        }),
{
    lemma_pairs(df, prices, df.rows.len() as int);
}

} // verus!
