//! Reading and changing tables by the names of their columns.

use vstd::prelude::*;
use crate::error::{outcome, Error, ErrorView};
use crate::merge_apply::{found_rows, key_column_error, positions, ROW_ID_COLUMN};
use crate::numbers::FloatBits;
use crate::table::{
    double_cell, fits, is_number, kept, lemma_column_of, names_differ, row_fits, Cell, CellView,
    DataType, DataTypeView, Table, TableView,
};
use crate::text::{decimal, push_decimal, same_text, texts};

verus! {

/// Whether a table has a text column of a name.
pub open spec fn has_texts(df: TableView, name: Seq<char>) -> bool {
    df.has_column(name) && df.columns[df.column_of(name)].dtype is Text
}

/// Where the text column of a name stands.
pub fn find_texts(df: &Table, name: &str) -> (r: Option<usize>)
    ensures
        match r {
            Some(c) => has_texts(df@, name@) && c == df@.column_of(name@) && c < df@.columns.len(),
            None => !has_texts(df@, name@),
        },
{
    match df.find_column(name) {
        Some(c) => match &df.column_at(c).dtype {
            DataType::Text => {
                assert(df@.columns[c as int].dtype is Text);
                Some(c)
            },
            _ => {
                assert(!(df@.columns[c as int].dtype is Text));
                None
            },
        },
        None => None,
    }
}

/// The error for a table without a text column of a name.
pub fn no_texts(name: &str) -> (e: Error)
    ensures
        e@ == key_column_error(name@),
{
    Error::Polars("no text column '".to_owned().concat(name).concat("'"))
}

/// What a text cell reads as: an empty cell is the empty text.
pub open spec fn cell_text(cell: CellView) -> Seq<char> {
    match cell {
        CellView::Text(text) => text,
        _ => Seq::empty(),
    }
}

/// What a text cell reads as.
pub fn text_in(cell: &Cell) -> (r: String)
    ensures
        r@ == cell_text(cell@),
{
    match cell {
        Cell::Text(text) => text.clone(),
        _ => {
            let empty = String::new();
            assert(empty@ =~= Seq::empty());
            empty
        },
    }
}

/// The texts of a column.
pub open spec fn texts_in(df: TableView, name: Seq<char>) -> Result<Seq<Seq<char>>, ErrorView> {
    if has_texts(df, name) {
        Ok(Seq::new(df.rows.len(), |i: int| cell_text(df.rows[i][df.column_of(name)])))
    } else {
        Err(key_column_error(name))
    }
}

/// The texts of a column; an empty cell gives an empty text.
pub fn str_col_to_vec(df: &Table, name: &str) -> (r: Result<Vec<String>, Error>)
    ensures
        match r {
            Ok(list) => texts_in(df@, name@) == Ok::<Seq<Seq<char>>, ErrorView>(texts(list@)),
            Err(e) => texts_in(df@, name@) == Err::<Seq<Seq<char>>, ErrorView>(e@),
        },
{
    let c = match find_texts(df, name) {
        Some(c) => c,
        None => return Err(no_texts(name)),
    };
    let mut list: Vec<String> = Vec::new();
    let mut i: usize = 0;
    while i < df.height()
        invariant
            i <= df@.rows.len(),
            c < df@.columns.len(),
            list@.len() == i,
            forall|k: int| 0 <= k < i ==> (#[trigger] list@[k])@ == cell_text(df@.rows[k][c as int]),
        decreases df@.rows.len() - i,
    {
        list.push(text_in(df.cell_at(i, c)));
        i = i + 1;
    }
    assert(texts(list@) =~= texts_in(df@, name@)->Ok_0);
    Ok(list)
}

/// Whether some row of a column reads as a text.
pub open spec fn has_text(df: TableView, name: Seq<char>, text: Seq<char>) -> Result<
    bool,
    ErrorView,
> {
    match texts_in(df, name) {
        Ok(list) => Ok(list.contains(text)),
        Err(e) => Err(e),
    }
}

/// Whether some row of a column reads as a text.
pub fn column_has(df: &Table, name: &str, text: &str) -> (r: Result<bool, Error>)
    ensures
        outcome(r) == has_text(df@, name@, text@),
{
    let list = match str_col_to_vec(df, name) {
        Ok(list) => list,
        Err(e) => return Err(e),
    };
    let ghost all = texts(list@);
    let mut i: usize = 0;
    while i < list.len()
        invariant
            i <= list.len(),
            all == texts(list@),
            texts_in(df@, name@) == Ok::<Seq<Seq<char>>, ErrorView>(all),
            forall|k: int| 0 <= k < i ==> (#[trigger] all[k]) != text@,
        decreases list.len() - i,
    {
        assert(all[i as int] == list@[i as int]@);
        if same_text(list[i].as_str(), text) {
            assert(all.contains(text@));
            return Ok(true);
        }
        i = i + 1;
    }
    assert(!all.contains(text@));
    Ok(false)
}

/// Whether a row of a table has no row id, or an empty one.
pub open spec fn lacks_row_ids(df: TableView) -> bool {
    !has_texts(df, ROW_ID_COLUMN@) || exists|i: int|
        0 <= i < df.rows.len() && cell_text(
            (#[trigger] df.rows[i])[df.column_of(ROW_ID_COLUMN@)],
        ).len() == 0
}

/// Whether a table still needs row ids: it has no text column for them, or a row
/// has none there.
pub fn needs_row_ids(df: &Table) -> (r: bool)
    ensures
        r == lacks_row_ids(df@),
{
    let c = match find_texts(df, ROW_ID_COLUMN) {
        Some(c) => c,
        None => return true,
    };
    let mut i: usize = 0;
    while i < df.height()
        invariant
            i <= df@.rows.len(),
            c < df@.columns.len(),
            c == df@.column_of(ROW_ID_COLUMN@),
            forall|k: int|
                0 <= k < i ==> cell_text((#[trigger] df@.rows[k])[c as int]).len() != 0,
        decreases df@.rows.len() - i,
    {
        let id = text_in(df.cell_at(i, c));
        if id.as_str().unicode_len() == 0 {
            return true;
        }
        i = i + 1;
    }
    false
}

/// A file whose rows have no ids yet.
pub open spec fn row_ids_error(path: Seq<char>) -> ErrorView {
    ErrorView::RowIdsMissing(
        path
            + " has rows without a row ID. Restart the finguard backend: at startup it backs up the data folder and assigns the missing row IDs."@,
    )
}

/// Fail when a table, just read from `path`, still needs row ids.
pub fn require_row_ids(df: &Table, path: &str) -> (r: Result<(), Error>)
    ensures
        outcome(r) == if lacks_row_ids(df@) {
            Err::<(), ErrorView>(row_ids_error(path@))
        } else {
            Ok(())
        },
{
    if needs_row_ids(df) {
        return Err(
            Error::RowIdsMissing(
                path.to_owned().concat(
                    " has rows without a row ID. Restart the finguard backend: at startup it backs up the data folder and assigns the missing row IDs.",
                ),
            ),
        );
    }
    Ok(())
}

/// No row has the id.
pub open spec fn no_row_error(kind: Seq<char>, row_id: Seq<char>, place: Seq<char>) -> ErrorView {
    ErrorView::NotFound(
        "No "@ + kind + " with id '"@ + row_id + "' in "@ + place + "."@,
    )
}

/// Several rows have the id.
pub open spec fn shared_row_error(
    found: nat,
    kind: Seq<char>,
    row_id: Seq<char>,
    place: Seq<char>,
) -> ErrorView {
    ErrorView::AlreadyExists(
        decimal(found) + " "@ + kind + " rows in "@ + place + " share the id '"@ + row_id
            + "', so nothing was changed. Each row ID must be unique; the data file needs repair."@,
    )
}

/// Whether exactly one row has an id, or what is wrong.
pub open spec fn single_row(
    df: TableView,
    row_id: Seq<char>,
    kind: Seq<char>,
    place: Seq<char>,
) -> Result<(), ErrorView> {
    match found_rows(df, ROW_ID_COLUMN@, row_id) {
        Err(e) => Err(e),
        Ok(found) => if found.len() == 1 {
            Ok(())
        } else if found.len() == 0 {
            Err(no_row_error(kind, row_id, place))
        } else {
            Err(shared_row_error(found.len(), kind, row_id, place))
        },
    }
}

/// Succeed when exactly one row has the id, so that an edit or a delete touches
/// one row. `kind` names the row and `place` the table in the message.
pub fn require_single_row(df: &Table, row_id: &str, kind: &str, place: &str) -> (r: Result<
    (),
    Error,
>)
    ensures
        outcome(r) == single_row(df@, row_id@, kind@, place@),
{
    let found = match positions(df, ROW_ID_COLUMN, row_id) {
        Ok(found) => found,
        Err(e) => return Err(e),
    };
    if found.len() == 1 {
        Ok(())
    } else if found.len() == 0 {
        Err(
            Error::NotFound(
                "No ".to_owned().concat(kind).concat(" with id '").concat(row_id).concat(
                    "' in ",
                ).concat(place).concat("."),
            ),
        )
    } else {
        let mut message = String::new();
        push_decimal(&mut message, found.len() as u64);
        assert(message@ =~= decimal(found.len() as nat));
        Err(
            Error::AlreadyExists(
                message.concat(" ").concat(kind).concat(" rows in ").concat(place).concat(
                    " share the id '",
                ).concat(row_id).concat(
                    "', so nothing was changed. Each row ID must be unique; the data file needs repair.",
                ),
            ),
        )
    }
}

/// Whether some row has an id.
pub open spec fn holds_row_id(df: TableView, row_id: Seq<char>) -> Result<bool, ErrorView> {
    match found_rows(df, ROW_ID_COLUMN@, row_id) {
        Err(e) => Err(e),
        Ok(found) => Ok(found.len() > 0),
    }
}

/// Whether some row has the id.
pub fn has_row_id(df: &Table, row_id: &str) -> (r: Result<bool, Error>)
    ensures
        outcome(r) == holds_row_id(df@, row_id@),
{
    match positions(df, ROW_ID_COLUMN, row_id) {
        Ok(found) => Ok(found.len() > 0),
        Err(e) => Err(e),
    }
}

/// A table without a column of a name and type.
pub open spec fn target_column_error(name: Seq<char>) -> ErrorView {
    ErrorView::Polars("no column '"@ + name + "' that takes such a value"@)
}

/// Whether a table has a column of a name and type.
pub open spec fn has_typed(df: TableView, name: Seq<char>, dtype: DataTypeView) -> bool {
    df.has_column(name) && df.columns[df.column_of(name)].dtype == dtype
}

/// Where the column of a name and type stands.
pub fn find_typed(df: &Table, name: &str, dtype: &DataType) -> (r: Option<usize>)
    ensures
        match r {
            Some(c) => has_typed(df@, name@, dtype@) && c == df@.column_of(name@) && c
                < df@.columns.len(),
            None => !has_typed(df@, name@, dtype@),
        },
{
    match df.find_column(name) {
        Some(c) => if df.column_at(c).dtype.same(dtype) {
            Some(c)
        } else {
            None
        },
        None => None,
    }
}

/// The error for a table without a column of a name and type.
pub fn no_column(name: &str) -> (e: Error)
    ensures
        e@ == target_column_error(name@),
{
    Error::Polars("no column '".to_owned().concat(name).concat("' that takes such a value"))
}

/// A table with one cell set in every row that matches a key.
pub open spec fn with_matches_set(
    df: TableView,
    key_column: int,
    key: Seq<char>,
    target: int,
    cell: CellView,
) -> TableView {
    TableView {
        columns: df.columns,
        rows: df.rows.map_values(
            |row: Seq<CellView>|
                if row[key_column] == CellView::Text(key) {
                    row.update(target, cell)
                } else {
                    row
                },
        ),
    }
}

/// A table whose column of a name takes values of a type: a column of numbers that
/// is to take double precision numbers becomes one of these. Any other column stays
/// as it is.
pub open spec fn readied(df: TableView, target: Seq<char>, dtype: DataTypeView) -> TableView {
    let c = df.column_of(target);
    if df.has_column(target) && dtype is Float64 && is_number(df.columns[c].dtype)
        && df.columns[c].dtype != dtype {
        df.with_column_as(c, DataTypeView::Float64, |cell: CellView| double_cell(cell))
    } else {
        df
    }
}

/// Readying a column keeps the place of every column, the types and cells of the
/// others, and the whole table where it does not help.
pub proof fn lemma_readied(df: TableView, target: Seq<char>, dtype: DataTypeView)
    requires
        names_differ(df.columns),
    ensures
        ({
            let after = readied(df, target, dtype);
            &&& names_differ(after.columns)
            &&& df.wf() ==> after.wf()
            &&& forall|name: Seq<char>|
                df.has_column(name) ==> #[trigger] after.has_column(name) && after.column_of(name)
                    == df.column_of(name)
            &&& after.rows.len() == df.rows.len()
            &&& has_typed(after, target, dtype) || after == df
        }),
{
    let after = readied(df, target, dtype);
    if after != df {
        assert forall|c: int| 0 <= c < df.columns.len() implies (#[trigger] after.columns[c]).name
            == df.columns[c].name by {}
        assert forall|name: Seq<char>| df.has_column(name) implies #[trigger] after.has_column(name)
            && after.column_of(name) == df.column_of(name) by {
            assert(after.columns[df.column_of(name)].name == name);
            lemma_column_of(after, df.column_of(name));
        }
        assert(after.has_column(target));
        assert forall|r: int| df.wf() && 0 <= r < after.rows.len() implies row_fits(
            after.columns,
            #[trigger] after.rows[r],
        ) by {
            assert(row_fits(df.columns, df.rows[r]));
            assert forall|c: int| 0 <= c < after.columns.len() implies fits(
                after.columns[c].dtype,
                #[trigger] after.rows[r][c],
            ) by {
                assert(fits(df.columns[c].dtype, df.rows[r][c]));
            }
        }
    }
}

fn ready(df: &mut Table, target: &str, dtype: &DataType)
    ensures
        final(df)@ == readied(old(df)@, target@, dtype@),
{
    let wide = match dtype {
        DataType::Float64 => true,
        _ => false,
    };
    if let Some(c) = df.find_column(target) {
        let number = match df.column_at(c).dtype {
            DataType::Float32 | DataType::Int64 | DataType::Int32 => true,
            _ => false,
        };
        if wide && number {
            df.cast_to_doubles(c);
        }
    }
}

/// A table with a column set wherever a key matches, or what is missing for it. A
/// column of other numbers takes double precision numbers by becoming one of these.
pub open spec fn set_where(
    df: TableView,
    key_column: Seq<char>,
    key: Seq<char>,
    target: Seq<char>,
    dtype: DataTypeView,
    cell: CellView,
) -> Result<TableView, ErrorView> {
    if !has_texts(df, key_column) {
        Err(key_column_error(key_column))
    } else if !has_typed(readied(df, target, dtype), target, dtype) {
        Err(target_column_error(target))
    } else {
        Ok(
            with_matches_set(
                readied(df, target, dtype),
                df.column_of(key_column),
                key,
                df.column_of(target),
                cell,
            ),
        )
    }
}

/// Whether a change either succeeded as described, or failed and left the table
/// as it was.
pub open spec fn table_outcome(
    expected: Result<TableView, ErrorView>,
    before: TableView,
    after: TableView,
    r: Result<(), Error>,
) -> bool {
    match r {
        Ok(()) => expected == Ok::<TableView, ErrorView>(after),
        Err(e) => expected == Err::<TableView, ErrorView>(e@) && after == before,
    }
}

/// Set a column in every row whose key column holds the key. The other rows,
/// and those with an empty key, stay as they are.
pub fn set_cell_where(
    df: &mut Table,
    key_column: &str,
    key: &str,
    target: &str,
    dtype: &DataType,
    cell: &Cell,
) -> (r: Result<(), Error>)
    requires
        fits(dtype@, cell@),
    ensures
        table_outcome(
            set_where(old(df)@, key_column@, key@, target@, dtype@, cell@),
            old(df)@,
            final(df)@,
            r,
        ),
{
    let k = match find_texts(df, key_column) {
        Some(k) => k,
        None => return Err(no_texts(key_column)),
    };
    proof {
        use_type_invariant(&*df);
        lemma_readied(df@, target@, dtype@);
    }
    ready(df, target, dtype);
    let ghost before = df@;
    let t = match find_typed(df, target, dtype) {
        Some(t) => t,
        None => return Err(no_column(target)),
    };
    let ghost expected = with_matches_set(before, k as int, key@, t as int, cell@);
    let mut i: usize = 0;
    while i < df.height()
        invariant
            i <= df@.rows.len(),
            df@.columns == before.columns,
            df@.rows.len() == before.rows.len(),
            k < before.columns.len(),
            t < before.columns.len(),
            fits(before.columns[t as int].dtype, cell@),
            expected == with_matches_set(before, k as int, key@, t as int, cell@),
            forall|j: int| 0 <= j < i ==> (#[trigger] df@.rows[j]) == expected.rows[j],
            forall|j: int| i <= j < before.rows.len() ==> (#[trigger] df@.rows[j]) == before.rows[j],
        decreases df@.rows.len() - i,
    {
        if df.cell_at(i, k).is_text(key) {
            df.set_cell(i, t, cell.clone());
        }
        i = i + 1;
    }
    assert(df@.rows =~= expected.rows);
    Ok(())
}

/// Set a text column in every row whose key column holds the key.
pub fn set_str_where(
    df: &mut Table,
    key_column: &str,
    key: &str,
    target: &str,
    value: &str,
) -> (r: Result<(), Error>)
    ensures
        table_outcome(
            set_where(
                old(df)@,
                key_column@,
                key@,
                target@,
                DataTypeView::Text,
                CellView::Text(value@),
            ),
            old(df)@,
            final(df)@,
            r,
        ),
{
    let cell = Cell::Text(value.to_owned());
    set_cell_where(df, key_column, key, target, &DataType::Text, &cell)
}

/// Set a number column in every row whose key column holds the key.
pub fn set_f64_where(
    df: &mut Table,
    key_column: &str,
    key: &str,
    target: &str,
    value: FloatBits,
) -> (r: Result<(), Error>)
    ensures
        table_outcome(
            set_where(
                old(df)@,
                key_column@,
                key@,
                target@,
                DataTypeView::Float64,
                CellView::Float(value),
            ),
            old(df)@,
            final(df)@,
            r,
        ),
{
    let cell = Cell::Float(value);
    set_cell_where(df, key_column, key, target, &DataType::Float64, &cell)
}

/// Which rows do not hold a key. A row with an empty cell does not.
pub open spec fn others(rows: Seq<Seq<CellView>>, column: int, key: Seq<char>) -> Seq<bool> {
    rows.map_values(|row: Seq<CellView>| row[column] != CellView::Text(key))
}

/// A table without the rows that match a key.
pub open spec fn without_matches(df: TableView, key_column: Seq<char>, key: Seq<char>) -> Result<
    TableView,
    ErrorView,
> {
    if has_texts(df, key_column) {
        Ok(
            TableView {
                columns: df.columns,
                rows: kept(
                    df.rows,
                    others(df.rows, df.column_of(key_column), key),
                    df.rows.len() as int,
                ),
            },
        )
    } else {
        Err(key_column_error(key_column))
    }
}

/// Keep the rows whose key column does not hold the key. A row with an empty key
/// stays.
pub fn remove_where(df: &mut Table, key_column: &str, key: &str) -> (r: Result<(), Error>)
    ensures
        table_outcome(
            without_matches(old(df)@, key_column@, key@),
            old(df)@,
            final(df)@,
            r,
        ),
{
    let k = match find_texts(df, key_column) {
        Some(k) => k,
        None => return Err(no_texts(key_column)),
    };
    let ghost expected = others(df@.rows, k as int, key@);
    let mut keep: Vec<bool> = Vec::new();
    let mut i: usize = 0;
    while i < df.height()
        invariant
            i <= df@.rows.len(),
            k < df@.columns.len(),
            df@.columns[k as int].dtype is Text,
            expected == others(df@.rows, k as int, key@),
            keep@.len() == i,
            forall|j: int| 0 <= j < i ==> (#[trigger] keep@[j]) == expected[j],
        decreases df@.rows.len() - i,
    {
        keep.push(!df.cell_at(i, k).is_text(key));
        i = i + 1;
    }
    assert(keep@ =~= expected);
    df.keep_rows(&keep);
    Ok(())
}

/// The ids of the rows that match a key, as far as they have one.
pub open spec fn ids_at(rows: Seq<Seq<CellView>>, key_column: int, key: Seq<char>, ids: int, n: int) -> Seq<
    Seq<char>,
>
    decreases n,
{
    if n <= 0 {
        Seq::empty()
    } else {
        let rest = ids_at(rows, key_column, key, ids, n - 1);
        if rows[n - 1][key_column] == CellView::Text(key) && rows[n - 1][ids] is Text {
            rest.push(cell_text(rows[n - 1][ids]))
        } else {
            rest
        }
    }
}

/// The ids of the rows that match a key, or what is missing to find them.
pub open spec fn ids_where(df: TableView, key_column: Seq<char>, key: Seq<char>) -> Result<
    Seq<Seq<char>>,
    ErrorView,
> {
    if !has_texts(df, key_column) {
        Err(key_column_error(key_column))
    } else if !has_texts(df, ROW_ID_COLUMN@) {
        Err(key_column_error(ROW_ID_COLUMN@))
    } else {
        Ok(
            ids_at(
                df.rows,
                df.column_of(key_column),
                key,
                df.column_of(ROW_ID_COLUMN@),
                df.rows.len() as int,
            ),
        )
    }
}

/// The row id of every row whose key column holds the key. A change to a name
/// that two rows share is two changes, so it has to be taken before the change.
pub fn row_ids_where(df: &Table, key_column: &str, key: &str) -> (r: Result<Vec<String>, Error>)
    ensures
        match r {
            Ok(ids) => ids_where(df@, key_column@, key@) == Ok::<Seq<Seq<char>>, ErrorView>(
                texts(ids@),
            ),
            Err(e) => ids_where(df@, key_column@, key@) == Err::<Seq<Seq<char>>, ErrorView>(e@),
        },
{
    let k = match find_texts(df, key_column) {
        Some(k) => k,
        None => return Err(no_texts(key_column)),
    };
    let c = match find_texts(df, ROW_ID_COLUMN) {
        Some(c) => c,
        None => return Err(no_texts(ROW_ID_COLUMN)),
    };
    let mut ids: Vec<String> = Vec::new();
    let mut i: usize = 0;
    assert(texts(ids@) =~= Seq::empty());
    while i < df.height()
        invariant
            i <= df@.rows.len(),
            k < df@.columns.len(),
            c < df@.columns.len(),
            texts(ids@) == ids_at(df@.rows, k as int, key@, c as int, i as int),
        decreases df@.rows.len() - i,
    {
        if df.cell_at(i, k).is_text(key) {
            if let Cell::Text(id) = df.cell_at(i, c) {
                let ghost before = texts(ids@);
                ids.push(id.clone());
                assert(texts(ids@) =~= before.push(id@));
            }
        }
        i = i + 1;
    }
    Ok(ids)
}

/// A table with the old short code of the euro written out.
pub open spec fn euro_spelled(df: TableView) -> Result<TableView, ErrorView> {
    if !df.has_column("currency"@) || df.rows.len() == 0 {
        Ok(df)
    } else {
        set_where(
            df,
            "currency"@,
            "E"@,
            "currency"@,
            DataTypeView::Text,
            CellView::Text("EUR"@),
        )
    }
}

/// Write the old code `E` of the euro as `EUR`. A table without a currency
/// column, or without rows, stays as it is.
pub fn normalize_currency_column(df: &mut Table) -> (r: Result<(), Error>)
    ensures
        table_outcome(euro_spelled(old(df)@), old(df)@, final(df)@, r),
{
    if !df.has_column("currency") || df.height() == 0 {
        return Ok(());
    }
    set_str_where(df, "currency", "E", "currency", "EUR")
}

} // verus!
