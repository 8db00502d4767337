//! Adding a row whose columns need not be those of the table.

use vstd::prelude::*;
use crate::error::{Error, ErrorView};
use crate::frames::table_outcome;
use crate::table::{
    cell_views, column_views, fits, lemma_column_of, names_differ, row_fits, Cell, CellView, Column,
    ColumnView, Table, TableView,
};
use crate::text::same_text;

verus! {

/// The columns of a list that a table lacks, added at its end with empty cells.
pub open spec fn widened(df: TableView, columns: Seq<ColumnView>, n: int) -> TableView
    decreases n,
{
    if n <= 0 {
        df
    } else {
        let wide = widened(df, columns, n - 1);
        if wide.has_column(columns[n - 1].name) {
            wide
        } else {
            wide.with_column(columns[n - 1], CellView::Null)
        }
    }
}

/// Whether a column of a list has another type in the table.
pub open spec fn types_clash(df: TableView, columns: Seq<ColumnView>) -> bool {
    exists|i: int|
        0 <= i < columns.len() && df.has_column((#[trigger] columns[i]).name)
            && df.columns[df.column_of(columns[i].name)].dtype != columns[i].dtype
}

/// The cell of a row under a column name, empty where the row has no such column.
pub open spec fn cell_under(columns: Seq<ColumnView>, cells: Seq<CellView>, name: Seq<char>) -> CellView {
    let row = TableView { columns, rows: seq![cells] };
    if row.has_column(name) {
        row.at(0, name)
    } else {
        CellView::Null
    }
}

/// Two tables that do not fit together.
pub open spec fn clash_error() -> ErrorView {
    ErrorView::Polars("a column has another type in the table"@)
}

/// A table with a row at its end. Columns that only the row has are empty in the
/// rows before it, and columns that only the table has are empty in the row.
pub open spec fn appended(df: TableView, columns: Seq<ColumnView>, cells: Seq<CellView>) -> Result<
    TableView,
    ErrorView,
> {
    if types_clash(df, columns) {
        Err(clash_error())
    } else {
        let wide = widened(df, columns, columns.len() as int);
        Ok(
            wide.with_new_row(
                Seq::new(
                    wide.columns.len(),
                    |c: int| cell_under(columns, cells, wide.columns[c].name),
                ),
            ),
        )
    }
}

/// A table that has all the columns of a row keeps its columns, and so does the
/// row's every cell.
pub proof fn lemma_widened_same(df: TableView, columns: Seq<ColumnView>, n: int)
    requires
        0 <= n <= columns.len(),
        forall|i: int| 0 <= i < columns.len() ==> df.has_column((#[trigger] columns[i]).name),
    ensures
        widened(df, columns, n) == df,
    decreases n,
{
    if n > 0 {
        lemma_widened_same(df, columns, n - 1);
        assert(df.has_column(columns[n - 1].name));
    }
}

fn clashes(df: &Table, columns: &Vec<Column>) -> (r: bool)
    ensures
        r == types_clash(df@, column_views(columns@)),
{
    let ghost all = column_views(columns@);
    let mut i: usize = 0;
    while i < columns.len()
        invariant
            i <= columns.len(),
            all == column_views(columns@),
            forall|k: int|
                0 <= k < i && df@.has_column((#[trigger] all[k]).name) ==> df@.columns[df@.column_of(
                    all[k].name,
                )].dtype == all[k].dtype,
        decreases columns.len() - i,
    {
        assert(all[i as int] == columns@[i as int]@);
        if let Some(c) = df.find_column(columns[i].name.as_str()) {
            if !df.column_at(c).dtype.same(&columns[i].dtype) {
                return true;
            }
        }
        i = i + 1;
    }
    false
}

fn cell_named(columns: &Vec<Column>, cells: &Vec<Cell>, name: &str) -> (r: Cell)
    requires
        names_differ(column_views(columns@)),
        columns@.len() == cells@.len(),
    ensures
        r@ == cell_under(column_views(columns@), cell_views(cells@), name@),
{
    let ghost row = TableView { columns: column_views(columns@), rows: seq![cell_views(cells@)] };
    let mut i: usize = 0;
    while i < columns.len()
        invariant
            i <= columns.len(),
            columns@.len() == cells@.len(),
            names_differ(row.columns),
            row == (TableView {
                columns: column_views(columns@),
                rows: seq![cell_views(cells@)],
            }),
            forall|k: int| 0 <= k < i ==> (#[trigger] row.columns[k]).name != name@,
        decreases columns.len() - i,
    {
        assert(row.columns[i as int] == columns@[i as int]@);
        if same_text(columns[i].name.as_str(), name) {
            proof {
                lemma_column_of(row, i as int);
            }
            return cells[i].clone();
        }
        i = i + 1;
    }
    Cell::Null
}

/// Add a row at the end of a table. Columns that only the row has are added,
/// empty in the rows before it; a column of another type is an error, and the
/// table stays as it is.
pub fn append_row(df: &mut Table, columns: &Vec<Column>, cells: &Vec<Cell>) -> (r: Result<
    (),
    Error,
>)
    requires
        names_differ(column_views(columns@)),
        row_fits(column_views(columns@), cell_views(cells@)),
    ensures
        table_outcome(
            appended(old(df)@, column_views(columns@), cell_views(cells@)),
            old(df)@,
            final(df)@,
            r,
        ),
{
    if clashes(df, columns) {
        return Err(Error::Polars("a column has another type in the table".to_owned()));
    }
    let ghost before = df@;
    let ghost added = column_views(columns@);
    let ghost put = cell_views(cells@);
    proof {
        use_type_invariant(&*df);
    }
    let mut i: usize = 0;
    while i < columns.len()
        invariant
            i <= columns.len(),
            added == column_views(columns@),
            before.wf(),
            df@ == widened(before, added, i as int),
            df@.columns.len() >= before.columns.len(),
            forall|c: int|
                0 <= c < before.columns.len() ==> (#[trigger] df@.columns[c]) == before.columns[c],
            forall|c: int|
                before.columns.len() <= c < df@.columns.len() ==> exists|k: int|
                    0 <= k < i && #[trigger] added[k] == #[trigger] df@.columns[c],
        decreases columns.len() - i,
    {
        assert(added[i as int] == columns@[i as int]@);
        if !df.has_column(columns[i].name.as_str()) {
            let ghost now = df@;
            df.add_column(columns[i].clone(), Cell::Null);
            proof {
                assert forall|c: int| before.columns.len() <= c < df@.columns.len() implies exists|
                    k: int,
                | 0 <= k < i + 1 && #[trigger] added[k] == #[trigger] df@.columns[c] by {
                    if c < now.columns.len() {
                        assert(df@.columns[c] == now.columns[c]);
                        let k = choose|k: int| 0 <= k < i && #[trigger] added[k] == now.columns[c];
                        assert(added[k] == df@.columns[c]);
                    } else {
                        assert(added[i as int] == df@.columns[c]);
                    }
                }
            }
        }
        i = i + 1;
    }
    let ghost wide = df@;
    proof {
        use_type_invariant(&*df);
    }
    let mut row: Vec<Cell> = Vec::new();
    let mut c: usize = 0;
    while c < df.width()
        invariant
            c <= df@.columns.len(),
            df@ == wide,
            added == column_views(columns@),
            put == cell_views(cells@),
            names_differ(added),
            columns@.len() == cells@.len(),
            row@.len() == c,
            forall|k: int|
                0 <= k < c ==> (#[trigger] row@[k])@ == cell_under(
                    added,
                    put,
                    wide.columns[k].name,
                ),
        decreases df@.columns.len() - c,
    {
        row.push(cell_named(columns, cells, df.column_at(c).name.as_str()));
        c = c + 1;
    }
    proof {
        let arranged = cell_views(row@);
        assert(arranged =~= Seq::new(
            wide.columns.len(),
            |c: int| cell_under(added, put, wide.columns[c].name),
        ));
        assert forall|c: int| 0 <= c < wide.columns.len() implies fits(
            wide.columns[c].dtype,
            #[trigger] arranged[c],
        ) by {
            let one = TableView { columns: added, rows: seq![put] };
            let name = wide.columns[c].name;
            if one.has_column(name) {
                let d = one.column_of(name);
                assert(fits(added[d].dtype, put[d]));
                if c < before.columns.len() {
                    lemma_column_of(before, c);
                    assert(before.columns[c] == wide.columns[c]);
                    assert(before.has_column(added[d].name));
                    assert(before.columns[before.column_of(added[d].name)].dtype == added[d].dtype);
                } else {
                    let k = choose|k: int| 0 <= k < added.len() && #[trigger] added[k] == wide.columns[c];
                    assert(added[k].name == added[d].name);
                    assert(k == d) by {
                        if k < d {
                            assert(added[k].name != added[d].name);
                        } else if d < k {
                            assert(added[d].name != added[k].name);
                        }
                    }
                }
            }
        }
    }
    df.push_row(row);
    Ok(())
}

/// Whether a text is a random row id: thirty two lower case hexadecimal digits in
/// five groups, with the marks of a random identifier in the third and fourth.
pub open spec fn is_random_id(id: Seq<char>) -> bool {
    &&& id.len() == 36
    &&& forall|i: int|
        0 <= i < 36 ==> if i == 8 || i == 13 || i == 18 || i == 23 {
            (#[trigger] id[i]) == '-'
        } else {
            ('0' <= id[i] && id[i] <= '9') || ('a' <= id[i] && id[i] <= 'f')
        }
    &&& id[14] == '4'
    &&& (id[19] == '8' || id[19] == '9' || id[19] == 'a' || id[19] == 'b')
}

/// `uuid::Uuid::new_v4` written with `to_string`: a random identifier of
/// version 4 in its hyphenated lower case form. Which one is left to chance.
#[verifier::external_body]
pub fn new_row_id() -> (r: String)
    ensures
        is_random_id(r@),
{
    uuid::Uuid::new_v4().to_string()
}

} // verus!
