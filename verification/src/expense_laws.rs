//! What holds of the expenses of a month whatever is done to them.

use vstd::prelude::*;
use crate::append::{appended, cell_under, lemma_widened_same, widened};
use crate::config::{KnownView, MappingView};
use crate::error::ErrorView;
use crate::expenses::{
    category_to_set, chosen_categories, dated, day_to_set, edited_df, expense_added, expense_cells,
    expense_columns, expense_deleted, expense_edited, maybe_set, text_to_set, ExpenseEdit,
    ExpenseInput, ExpensesView,
};
use crate::frames::{has_texts, has_typed, holds_row_id, lemma_readied, others, readied};
use crate::merge_apply::{lemma_matching_rows, ROW_ID_COLUMN};
use crate::sync::OriginView;
use crate::table::{
    kept, lemma_column_of, lemma_kept, matching_rows, row_fits, CellView, ColumnView, DataTypeView,
    TableView,
};

verus! {

/// Whether a table holds all of another, in the same places: its columns come
/// first, and its rows come first, each with its cells.
pub open spec fn grows(before: TableView, after: TableView) -> bool {
    &&& after.wf()
    &&& before.columns.len() <= after.columns.len()
    &&& before.rows.len() <= after.rows.len()
    &&& forall|c: int|
        0 <= c < before.columns.len() ==> (#[trigger] after.columns[c]) == before.columns[c]
    &&& forall|r: int, c: int|
        #![trigger after.rows[r][c]]
        0 <= r < before.rows.len() && 0 <= c < before.columns.len() ==> after.rows[r][c]
            == before.rows[r][c]
}

/// In a table that has grown a column stands where it stood.
pub proof fn lemma_grown_column(before: TableView, after: TableView, name: Seq<char>)
    requires
        before.wf(),
        grows(before, after),
        before.has_column(name),
    ensures
        after.has_column(name),
        after.column_of(name) == before.column_of(name),
        0 <= before.column_of(name) < before.columns.len(),
{
    let c = before.column_of(name);
    assert(after.columns[c] == before.columns[c]);
    lemma_column_of(after, c);
}

proof fn lemma_widened_grows(df: TableView, columns: Seq<ColumnView>, n: int)
    requires
        df.wf(),
        n <= columns.len(),
    ensures
        grows(df, widened(df, columns, n)),
        widened(df, columns, n).rows.len() == df.rows.len(),
        forall|i: int|
            0 <= i < n ==> widened(df, columns, n).has_column((#[trigger] columns[i]).name),
        forall|c: int|
            df.columns.len() <= c < widened(df, columns, n).columns.len() ==> exists|k: int|
                0 <= k < n && #[trigger] columns[k] == #[trigger] widened(df, columns, n).columns[c],
    decreases n,
{
    if n > 0 {
        lemma_widened_grows(df, columns, n - 1);
        let wide = widened(df, columns, n - 1);
        let wider = widened(df, columns, n);
        let column = columns[n - 1];
        if !wide.has_column(column.name) {
            assert(wider == wide.with_column(column, CellView::Null));
            assert forall|a: int, b: int| 0 <= a < b < wider.columns.len() implies (
            #[trigger] wider.columns[a]).name != (#[trigger] wider.columns[b]).name by {
                assert(wider.columns[a] == wide.columns[a]);
                if b < wide.columns.len() {
                    assert(wider.columns[b] == wide.columns[b]);
                }
            }
            assert forall|r: int| 0 <= r < wider.rows.len() implies row_fits(
                wider.columns,
                #[trigger] wider.rows[r],
            ) by {
                assert(row_fits(wide.columns, wide.rows[r]));
            }
            assert forall|r: int, c: int|
                #![trigger wider.rows[r][c]]
                0 <= r < df.rows.len() && 0 <= c < df.columns.len() implies wider.rows[r][c]
                == df.rows[r][c] by {
                assert(row_fits(wide.columns, wide.rows[r]));
                assert(wide.rows[r][c] == df.rows[r][c]);
                assert(wider.rows[r][c] == wide.rows[r][c]);
            }
            assert forall|i: int| 0 <= i < n implies wider.has_column(
                (#[trigger] columns[i]).name,
            ) by {
                if i < n - 1 {
                    assert(wide.has_column(columns[i].name));
                    let c = wide.column_of(columns[i].name);
                    assert(wider.columns[c] == wide.columns[c]);
                } else {
                    assert(wider.columns[wide.columns.len() as int] == column);
                }
            }
            assert forall|c: int| df.columns.len() <= c < wider.columns.len() implies exists|k: int|
                0 <= k < n && #[trigger] columns[k] == #[trigger] wider.columns[c] by {
                if c < wide.columns.len() {
                    assert(wider.columns[c] == wide.columns[c]);
                    let k = choose|k: int|
                        0 <= k < n - 1 && #[trigger] columns[k] == wide.columns[c];
                    assert(columns[k] == wider.columns[c]);
                } else {
                    assert(columns[n - 1] == wider.columns[c]);
                }
            }
        } else {
            assert forall|c: int| df.columns.len() <= c < wider.columns.len() implies exists|k: int|
                0 <= k < n && #[trigger] columns[k] == #[trigger] wider.columns[c] by {
                let k = choose|k: int| 0 <= k < n - 1 && #[trigger] columns[k] == wide.columns[c];
                assert(columns[k] == wider.columns[c]);
            }
        }
    }
}

/// Adding a row keeps what a table holds, and puts each cell of the row under its
/// column.
pub proof fn lemma_appended_grows(
    df: TableView,
    columns: Seq<ColumnView>,
    cells: Seq<CellView>,
    i: int,
)
    requires
        df.wf(),
        crate::table::names_differ(columns),
        row_fits(columns, cells),
        0 <= i < columns.len(),
    ensures
        appended(df, columns, cells) matches Ok(after) ==> grows(df, after) && after.rows.len()
            == df.rows.len() + 1 && after.has_column(columns[i].name) && after.at(
            df.rows.len() as int,
            columns[i].name,
        ) == cells[i],
{
    if let Ok(after) = appended(df, columns, cells) {
        let n = columns.len() as int;
        let wide = widened(df, columns, n);
        lemma_widened_grows(df, columns, n);
        let row = Seq::new(
            wide.columns.len(),
            |c: int| cell_under(columns, cells, wide.columns[c].name),
        );
        let one = TableView { columns, rows: seq![cells] };
        assert(after == wide.with_new_row(row));
        assert(row_fits(after.columns, row)) by {
            assert forall|c: int| 0 <= c < after.columns.len() implies crate::table::fits(
                after.columns[c].dtype,
                #[trigger] row[c],
            ) by {
                let name = wide.columns[c].name;
                if one.has_column(name) {
                    let d = one.column_of(name);
                    assert(crate::table::fits(columns[d].dtype, cells[d]));
                    if c < df.columns.len() {
                        assert(wide.columns[c] == df.columns[c]);
                        lemma_column_of(df, c);
                        assert(df.has_column(columns[d].name));
                        assert(df.columns[df.column_of(columns[d].name)].dtype == columns[d].dtype);
                    } else {
                        let k = choose|k: int| 0 <= k < n && #[trigger] columns[k] == wide.columns[c];
                        assert(columns[k].name == columns[d].name);
                        assert(k == d) by {
                            if k < d {
                                assert(columns[k].name != columns[d].name);
                            } else if d < k {
                                assert(columns[d].name != columns[k].name);
                            }
                        }
                    }
                }
            }
        }
        assert forall|r: int| 0 <= r < after.rows.len() implies row_fits(
            after.columns,
            #[trigger] after.rows[r],
        ) by {
            if r < wide.rows.len() {
                assert(after.rows[r] == wide.rows[r]);
                assert(row_fits(wide.columns, wide.rows[r]));
            }
        }
        assert forall|r: int, c: int|
            #![trigger after.rows[r][c]]
            0 <= r < df.rows.len() && 0 <= c < df.columns.len() implies after.rows[r][c]
            == df.rows[r][c] by {
            assert(after.rows[r] == wide.rows[r]);
            assert(wide.rows[r][c] == df.rows[r][c]);
        }
        let name = columns[i].name;
        assert(wide.has_column(name));
        let c = wide.column_of(name);
        lemma_column_of(one, i);
        assert(after.columns[c].name == name);
        lemma_column_of(after, c);
        assert(after.rows[df.rows.len() as int] == row);
        assert(one.rows[0] == cells);
    }
}

/// Adding a row gives each of its columns the type it has in the row, and puts
/// nothing into the row but its cells.
pub proof fn lemma_appended_types(
    df: TableView,
    columns: Seq<ColumnView>,
    cells: Seq<CellView>,
    i: int,
    c: int,
)
    requires
        df.wf(),
        crate::table::names_differ(columns),
        row_fits(columns, cells),
        0 <= i < columns.len(),
    ensures
        appended(df, columns, cells) matches Ok(after) ==> {
            &&& after.columns[after.column_of(columns[i].name)].dtype == columns[i].dtype
            &&& 0 <= c < after.columns.len() ==> after.rows[df.rows.len() as int][c] is Null
                || cells.contains(after.rows[df.rows.len() as int][c])
        },
{
    if let Ok(after) = appended(df, columns, cells) {
        let n = columns.len() as int;
        let wide = widened(df, columns, n);
        lemma_widened_grows(df, columns, n);
        lemma_appended_grows(df, columns, cells, i);
        let one = TableView { columns, rows: seq![cells] };
        assert(after.columns == wide.columns);
        let d = after.column_of(columns[i].name);
        if d < df.columns.len() {
            assert(wide.columns[d] == df.columns[d]);
            lemma_column_of(df, d);
            assert(df.has_column(columns[i].name));
        } else {
            let k = choose|k: int| 0 <= k < n && #[trigger] columns[k] == wide.columns[d];
            assert(columns[k].name == columns[i].name);
            if k < i {
                assert(columns[k].name != columns[i].name);
            } else if i < k {
                assert(columns[i].name != columns[k].name);
            }
        }
        if 0 <= c < after.columns.len() {
            let cell = after.rows[df.rows.len() as int][c];
            assert(cell == cell_under(columns, cells, wide.columns[c].name));
            if one.has_column(wide.columns[c].name) {
                let e = one.column_of(wide.columns[c].name);
                assert(one.rows[0] == cells);
                assert(cells[e] == cell);
            }
        }
    }
}

/// A row that a table has under an id, it has once it has grown.
pub proof fn lemma_found_in_grown(before: TableView, after: TableView, row_id: Seq<char>)
    requires
        before.wf(),
        grows(before, after),
        holds_row_id(before, row_id) == Ok::<bool, ErrorView>(true),
    ensures
        holds_row_id(after, row_id) == Ok::<bool, ErrorView>(true),
{
    lemma_grown_column(before, after, ROW_ID_COLUMN@);
    let c = before.column_of(ROW_ID_COLUMN@);
    assert(after.columns[c] == before.columns[c]);
    lemma_matching_rows(before.rows, c, row_id, before.rows.len() as int);
    lemma_matching_rows(after.rows, c, row_id, after.rows.len() as int);
    let found = matching_rows(before.rows, c, row_id, before.rows.len() as int);
    let r = found[0];
    assert(after.rows[r][c] == before.rows[r][c]);
    assert(matching_rows(after.rows, c, row_id, after.rows.len() as int).contains(r));
}

/// The columns and cells of an expense fit together.
proof fn lemma_expense_row(row_id: Seq<char>, input: ExpenseInput, day: int, p: Seq<char>, s: Seq<char>)
    ensures
        crate::table::names_differ(expense_columns()),
        row_fits(expense_columns(), expense_cells(row_id, input, day, p, s)),
        expense_columns().len() == 7,
        expense_columns()[6].name == ROW_ID_COLUMN@,
        expense_cells(row_id, input, day, p, s)[6] == CellView::Text(row_id),
{
    crate::expenses::lemma_expense_columns();
}

/// An expense that was added is in the month under its id, and everything that was
/// there before is there still.
pub proof fn an_added_expense_is_there(
    month: ExpensesView,
    row_id: Seq<char>,
    input: ExpenseInput,
    mapping: Option<MappingView>,
    origin: Option<OriginView>,
)
    requires
        month.df.wf(),
    ensures
        expense_added(month, row_id, input, mapping, origin) matches Ok(after) ==> grows(
            month.df,
            after.df,
        ) && holds_row_id(after.df, row_id) == Ok::<bool, ErrorView>(true) && after.year
            == month.year && after.month == month.month,
{
    if let Ok(after) = expense_added(month, row_id, input, mapping, origin) {
        let (p, s) = chosen_categories(input.name, input.primary, input.secondary, mapping)->Ok_0;
        let day = dated(month.year, month.month, input.day)->Ok_0;
        let cells = expense_cells(row_id, input, day, p, s);
        lemma_expense_row(row_id, input, day, p, s);
        lemma_appended_grows(month.df, expense_columns(), cells, 6);
        let c = after.df.column_of(ROW_ID_COLUMN@);
        let n = month.df.rows.len() as int;
        assert(after.df.rows[n][c] == CellView::Text(row_id));
        assert(row_fits(after.df.columns, after.df.rows[n]));
        assert(crate::table::fits(after.df.columns[c].dtype, after.df.rows[n][c]));
        lemma_matching_rows(after.df.rows, c, row_id, after.df.rows.len() as int);
        assert(matching_rows(after.df.rows, c, row_id, after.df.rows.len() as int).contains(n));
    }
}

/// Whether a table has every column of an expense.
pub open spec fn has_expense_columns(df: TableView) -> bool {
    forall|i: int|
        0 <= i < expense_columns().len() ==> df.has_column((#[trigger] expense_columns()[i]).name)
}

proof fn lemma_matching_prefix(
    rows: Seq<Seq<CellView>>,
    more: Seq<Seq<CellView>>,
    c: int,
    text: Seq<char>,
    n: int,
)
    requires
        0 <= n <= rows.len(),
        n <= more.len(),
        forall|i: int| 0 <= i < n ==> (#[trigger] rows[i]) == more[i],
    ensures
        matching_rows(rows, c, text, n) == matching_rows(more, c, text, n),
    decreases n,
{
    if n > 0 {
        lemma_matching_prefix(rows, more, c, text, n - 1);
        assert(rows[n - 1] == more[n - 1]);
    }
}

proof fn lemma_kept_prefix(rows: Seq<Seq<CellView>>, more: Seq<Seq<CellView>>, keep: Seq<bool>, n: int)
    requires
        0 <= n <= rows.len(),
        n <= more.len(),
        forall|i: int| 0 <= i < n ==> (#[trigger] rows[i]) == more[i],
    ensures
        kept(rows, keep, n) == kept(more, keep, n),
    decreases n,
{
    if n > 0 {
        lemma_kept_prefix(rows, more, keep, n - 1);
        assert(rows[n - 1] == more[n - 1]);
    }
}

/// Adding an expense under a new id and deleting it gives the expenses of the
/// month back.
pub proof fn an_added_expense_can_be_deleted(
    month: ExpensesView,
    row_id: Seq<char>,
    input: ExpenseInput,
    mapping: Option<MappingView>,
    origin: Option<OriginView>,
)
    requires
        month.df.wf(),
        has_expense_columns(month.df),
        holds_row_id(month.df, row_id) == Ok::<bool, ErrorView>(false),
        expense_added(month, row_id, input, mapping, origin) is Ok,
    ensures
        ({
            let after = expense_added(month, row_id, input, mapping, origin)->Ok_0;
            expense_deleted(after, row_id) matches Ok(back) && back.df == month.df
        }),
{
    let after = expense_added(month, row_id, input, mapping, origin)->Ok_0;
    let (p, s) = chosen_categories(input.name, input.primary, input.secondary, mapping)->Ok_0;
    let day = dated(month.year, month.month, input.day)->Ok_0;
    let columns = expense_columns();
    let cells = expense_cells(row_id, input, day, p, s);
    lemma_expense_row(row_id, input, day, p, s);
    lemma_widened_same(month.df, columns, columns.len() as int);
    lemma_appended_grows(month.df, columns, cells, 6);
    lemma_grown_column(month.df, after.df, ROW_ID_COLUMN@);
    let n = month.df.rows.len() as int;
    let c = month.df.column_of(ROW_ID_COLUMN@);
    let rows = after.df.rows;
    assert(after.df.columns =~= month.df.columns);
    assert(rows.drop_last() =~= month.df.rows);
    assert(rows[n][c] == CellView::Text(row_id));
    assert(rows.len() == n + 1);
    lemma_matching_prefix(month.df.rows, rows, c, row_id, n);
    lemma_matching_rows(month.df.rows, c, row_id, n);
    assert(matching_rows(rows, c, row_id, n + 1) == matching_rows(rows, c, row_id, n).push(n));
    assert(matching_rows(rows, c, row_id, n + 1).len() == 1);
    let keep = others(rows, c, row_id);
    assert forall|i: int| 0 <= i < n implies #[trigger] keep[i] by {
        assert(rows[i] == month.df.rows[i]);
        if rows[i][c] == CellView::Text(row_id) {
            assert(matching_rows(month.df.rows, c, row_id, n).contains(i));
        }
    }
    lemma_kept_prefix(month.df.rows, rows, keep, n);
    lemma_kept(month.df.rows, keep, n);
    assert(month.df.rows.take(n) =~= month.df.rows);
    assert(!keep[n]);
    assert(kept(rows, keep, n + 1) == kept(rows, keep, n));
    let back = expense_deleted(after, row_id)->Ok_0;
    assert(back.df =~= month.df);
}

/// Whether one table is another with some cells set in the rows of an id, the id
/// itself left alone.
pub open spec fn edits(before: TableView, after: TableView, row_id: Seq<char>) -> bool {
    let ids = before.column_of(ROW_ID_COLUMN@);
    &&& after.columns == before.columns
    &&& after.rows.len() == before.rows.len()
    &&& forall|r: int|
        0 <= r < before.rows.len() ==> (#[trigger] after.rows[r]).len() == before.rows[r].len()
            && after.rows[r][ids] == before.rows[r][ids] && (before.rows[r][ids] != CellView::Text(
            row_id,
        ) ==> after.rows[r] == before.rows[r])
}

proof fn lemma_maybe_set(
    df: TableView,
    now: Result<TableView, ErrorView>,
    row_id: Seq<char>,
    target: Seq<char>,
    dtype: DataTypeView,
    cell: Option<CellView>,
)
    requires
        df.wf(),
        has_texts(df, ROW_ID_COLUMN@),
        now matches Ok(t) ==> edits(df, t, row_id),
        target != ROW_ID_COLUMN@,
    ensures
        maybe_set(now, row_id, target, dtype, cell) matches Ok(t) ==> edits(
            if cell is Some {
                readied(df, target, dtype)
            } else {
                df
            },
            t,
            row_id,
        ),
        ({
            let after = maybe_set(now, row_id, target, dtype, cell);
            now is Ok && after is Ok ==> forall|r: int, name: Seq<char>|
                #![trigger after->Ok_0.at(r, name)]
                0 <= r < df.rows.len() && df.has_column(name) && df.rows[r][df.column_of(
                    ROW_ID_COLUMN@,
                )] == CellView::Text(row_id) ==> after->Ok_0.at(r, name) == if name == target
                    && cell is Some {
                    cell->Some_0
                } else {
                    now->Ok_0.at(r, name)
                }
        }),
{
    if now is Ok && cell is Some {
        let t = now->Ok_0;
        let after = maybe_set(now, row_id, target, dtype, cell);
        if after is Ok {
            let new = after->Ok_0;
            let ids = df.column_of(ROW_ID_COLUMN@);
            let c = t.column_of(target);
            let base = readied(df, target, dtype);
            let ready = readied(t, target, dtype);
            assert(t.columns == df.columns);
            assert(t.column_of(ROW_ID_COLUMN@) == ids);
            lemma_readied(df, target, dtype);
            lemma_readied(t, target, dtype);
            assert(base.columns =~= ready.columns);
            assert(base.column_of(ROW_ID_COLUMN@) == ids) by {
                assert(df.has_column(ROW_ID_COLUMN@));
                assert(base.has_column(ROW_ID_COLUMN@));
            }
            assert(c != ids) by {
                assert(t.columns[c].name == target);
                assert(t.columns[ids].name == ROW_ID_COLUMN@);
            }
            assert forall|r: int| 0 <= r < df.rows.len() implies (#[trigger] new.rows[r]).len()
                == base.rows[r].len() && new.rows[r][ids] == base.rows[r][ids] && (base.rows[r][ids]
                != CellView::Text(row_id) ==> new.rows[r] == base.rows[r]) by {
                assert(t.rows[r][ids] == df.rows[r][ids]);
                assert(t.rows[r].len() == df.rows[r].len());
                assert(row_fits(df.columns, df.rows[r]));
                if df.rows[r][ids] != CellView::Text(row_id) {
                    assert(t.rows[r] == df.rows[r]);
                    assert(ready.rows[r] =~= base.rows[r]);
                }
            }
            assert forall|r: int, name: Seq<char>|
                #![trigger new.at(r, name)]
                0 <= r < df.rows.len() && df.has_column(name) && df.rows[r][ids]
                    == CellView::Text(row_id) implies new.at(r, name) == if name == target {
                cell->Some_0
            } else {
                t.at(r, name)
            } by {
                let d = df.column_of(name);
                assert(t.rows[r][ids] == df.rows[r][ids]);
                assert(row_fits(df.columns, df.rows[r]));
                assert(t.rows[r].len() == df.rows[r].len());
                assert(t.has_column(name) && ready.has_column(name)) by {
                    assert(t.columns[d].name == name);
                }
                assert(new.column_of(name) == d && t.column_of(name) == d);
                assert(df.columns[d].name == name);
                if name != target {
                    assert(t.columns[c].name == target);
                    assert(d != c);
                }
            }
        }
    }
}

/// What an edit sets a column of the edited expense to, if anything.
pub open spec fn cell_set(
    df: TableView,
    edit: ExpenseEdit,
    day: Option<CellView>,
    known: Option<KnownView>,
    name: Seq<char>,
) -> Option<CellView> {
    if name == "expense_name"@ {
        text_to_set(edit.name)
    } else if name == "expense_date"@ {
        day
    } else if name == "expense_amount"@ {
        match edit.amount {
            Some(amount) => Some(CellView::Float(amount)),
            None => None,
        }
    } else if name == "currency"@ {
        text_to_set(edit.currency)
    } else if name == "primary_category"@ {
        category_to_set(df, "primary_category"@, edit.primary, known)
    } else if name == "secondary_category"@ {
        category_to_set(df, "secondary_category"@, edit.secondary, known)
    } else {
        None
    }
}

/// A table ready for an edit: amounts in double precision, if one is to be set.
pub open spec fn with_amounts(df: TableView, edit: ExpenseEdit) -> TableView {
    if edit.amount is Some {
        readied(df, "expense_amount"@, DataTypeView::Float64)
    } else {
        df
    }
}

proof fn lemma_edited_df(
    df: TableView,
    row_id: Seq<char>,
    edit: ExpenseEdit,
    day: Option<CellView>,
    known: Option<KnownView>,
)
    requires
        df.wf(),
        has_texts(df, ROW_ID_COLUMN@),
    ensures
        edited_df(df, row_id, edit, day, known) matches Ok(t) ==> edits(
            with_amounts(df, edit),
            t,
            row_id,
        ),
        ({
            let after = edited_df(df, row_id, edit, day, known);
            after is Ok ==> forall|r: int, name: Seq<char>|
                #![trigger after->Ok_0.at(r, name)]
                0 <= r < df.rows.len() && df.has_column(name) && df.rows[r][df.column_of(
                    ROW_ID_COLUMN@,
                )] == CellView::Text(row_id) ==> after->Ok_0.at(r, name) == match cell_set(
                    df,
                    edit,
                    day,
                    known,
                    name,
                ) {
                    Some(cell) => cell,
                    None => df.at(r, name),
                }
        }),
{
    crate::expenses::lemma_expense_columns();
    let columns = expense_columns();
    assert(columns[0].name == "expense_name"@ && columns[1].name == "expense_date"@
        && columns[2].name == "expense_amount"@ && columns[3].name == "currency"@ && columns[4].name
        == "primary_category"@ && columns[5].name == "secondary_category"@ && columns[6].name
        == ROW_ID_COLUMN@);
    let amount = match edit.amount {
        Some(amount) => Some(CellView::Float(amount)),
        None => None,
    };
    let primary = category_to_set(df, "primary_category"@, edit.primary, known);
    let secondary = category_to_set(df, "secondary_category"@, edit.secondary, known);
    let r0: Result<TableView, ErrorView> = Ok(df);
    let name = text_to_set(edit.name);
    let r1 = maybe_set(r0, row_id, "expense_name"@, DataTypeView::Text, name);
    lemma_maybe_set(df, r0, row_id, "expense_name"@, DataTypeView::Text, name);
    let r2 = maybe_set(r1, row_id, "expense_date"@, DataTypeView::Date, day);
    lemma_maybe_set(df, r1, row_id, "expense_date"@, DataTypeView::Date, day);
    let r3 = maybe_set(r2, row_id, "expense_amount"@, DataTypeView::Float64, amount);
    lemma_maybe_set(df, r2, row_id, "expense_amount"@, DataTypeView::Float64, amount);
    let money = text_to_set(edit.currency);
    let r4 = maybe_set(r3, row_id, "currency"@, DataTypeView::Text, money);
    let base = with_amounts(df, edit);
    lemma_readied(df, "expense_amount"@, DataTypeView::Float64);
    assert(df.has_column(ROW_ID_COLUMN@) && base.has_column(ROW_ID_COLUMN@));
    assert(has_texts(base, ROW_ID_COLUMN@));
    lemma_maybe_set(base, r3, row_id, "currency"@, DataTypeView::Text, money);
    let r5 = maybe_set(r4, row_id, "primary_category"@, DataTypeView::Text, primary);
    lemma_maybe_set(base, r4, row_id, "primary_category"@, DataTypeView::Text, primary);
    let r6 = maybe_set(r5, row_id, "secondary_category"@, DataTypeView::Text, secondary);
    lemma_maybe_set(base, r5, row_id, "secondary_category"@, DataTypeView::Text, secondary);
    let after = edited_df(df, row_id, edit, day, known);
    assert(after == r6);
    if after is Ok {
        assert forall|r: int, name: Seq<char>|
            #![trigger after->Ok_0.at(r, name)]
            0 <= r < df.rows.len() && df.has_column(name) && df.rows[r][df.column_of(
                ROW_ID_COLUMN@,
            )] == CellView::Text(row_id) implies after->Ok_0.at(r, name) == match cell_set(
            df,
            edit,
            day,
            known,
            name,
        ) {
            Some(cell) => cell,
            None => df.at(r, name),
        } by {
            let v6 = r6->Ok_0.at(r, name);
            let v5 = r5->Ok_0.at(r, name);
            let v4 = r4->Ok_0.at(r, name);
            let v3 = r3->Ok_0.at(r, name);
            let v2 = r2->Ok_0.at(r, name);
            let v1 = r1->Ok_0.at(r, name);
            assert(base.has_column(name));
            assert(row_fits(df.columns, df.rows[r]));
            assert(v1 == r1->Ok_0.at(r, name));
        }
    }
}

/// An edit changes the expense with the id and no other, it keeps every id, and of
/// the expense it changes exactly what is given. Where an amount is given and the
/// amounts are no double precision numbers yet, they become such first.
pub proof fn an_edit_changes_what_it_names(
    month: ExpensesView,
    row_id: Seq<char>,
    edit: ExpenseEdit,
    known: Option<KnownView>,
    r: int,
    name: Seq<char>,
)
    requires
        month.df.wf(),
        expense_edited(month, row_id, edit, known) is Ok,
        0 <= r < month.df.rows.len(),
        month.df.has_column(name),
    ensures
        ({
            let after = expense_edited(month, row_id, edit, known)->Ok_0;
            let day = day_to_set(month.year, month.month, edit.day)->Ok_0;
            let ids = month.df.column_of(ROW_ID_COLUMN@);
            let ready = with_amounts(month.df, edit);
            &&& has_typed(month.df, "expense_amount"@, DataTypeView::Float64) ==> ready == month.df
            &&& after.df.columns == ready.columns
            &&& after.df.rows.len() == month.df.rows.len()
            &&& after.df.rows[r][ids] == month.df.rows[r][ids]
            &&& month.df.rows[r][ids] != CellView::Text(row_id) ==> after.df.rows[r]
                == ready.rows[r]
            &&& month.df.rows[r][ids] == CellView::Text(row_id) ==> after.df.at(r, name)
                == match cell_set(month.df, edit, day, known, name) {
                Some(cell) => cell,
                None => month.df.at(r, name),
            }
        }),
{
    let day = day_to_set(month.year, month.month, edit.day)->Ok_0;
    lemma_edited_df(month.df, row_id, edit, day, known);
    lemma_readied(month.df, "expense_amount"@, DataTypeView::Float64);
    assert(row_fits(month.df.columns, month.df.rows[r]));
    assert(with_amounts(month.df, edit).has_column(ROW_ID_COLUMN@));
}

/// An id that several expenses share is never edited or deleted.
pub proof fn a_shared_id_changes_nothing(
    month: ExpensesView,
    row_id: Seq<char>,
    edit: ExpenseEdit,
    known: Option<KnownView>,
    i: int,
    j: int,
)
    requires
        has_texts(month.df, ROW_ID_COLUMN@),
        0 <= i < j < month.df.rows.len(),
        month.df.rows[i][month.df.column_of(ROW_ID_COLUMN@)] == CellView::Text(row_id),
        month.df.rows[j][month.df.column_of(ROW_ID_COLUMN@)] == CellView::Text(row_id),
    ensures
        expense_edited(month, row_id, edit, known) matches Err(e) && e is AlreadyExists,
        expense_deleted(month, row_id) matches Err(e) && e is AlreadyExists,
{
    let c = month.df.column_of(ROW_ID_COLUMN@);
    let n = month.df.rows.len() as int;
    lemma_matching_rows(month.df.rows, c, row_id, n);
    let found = matching_rows(month.df.rows, c, row_id, n);
    assert(found.contains(i) && found.contains(j));
    let a = choose|a: int| 0 <= a < found.len() && found[a] == i;
    let b = choose|b: int| 0 <= b < found.len() && found[b] == j;
    assert(found.len() >= 2);
}

} // verus!
