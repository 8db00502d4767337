//! What holds of tables whatever is changed in them.

use vstd::prelude::*;
use crate::doubles::double_of;
use crate::error::ErrorView;
use crate::expense_laws::{grows, lemma_appended_grows};
use crate::frames::{
    euro_spelled, has_text, has_typed, holds_row_id, lemma_readied, others, readied, set_where,
    texts_in, with_matches_set, without_matches,
};
use crate::holdings::{asset_added, holding_heads, price_heads, HoldingsView};
use crate::merge_apply::{lemma_matching_rows, ROW_ID_COLUMN};
use crate::rows::Number;
use crate::table::{
    kept, matching_rows, row_fits, CellView, DataTypeView, TableView,
};
use crate::wide::{heads, lemma_wide_columns, wide_appended, wide_cells, wide_columns};

verus! {

/// Setting a column where a key matches leaves every other row and every other
/// column alone, and leaves the table as regular as it was. A column of numbers that
/// has to become one of double precision numbers first does so in every row.
pub proof fn setting_touches_only_matches(
    df: TableView,
    key_column: Seq<char>,
    key: Seq<char>,
    target: Seq<char>,
    dtype: DataTypeView,
    cell: CellView,
    r: int,
    c: int,
)
    requires
        df.wf(),
        crate::table::fits(dtype, cell),
        set_where(df, key_column, key, target, dtype, cell) is Ok,
        0 <= r < df.rows.len(),
        0 <= c < df.columns.len(),
    ensures
        ({
            let after = set_where(df, key_column, key, target, dtype, cell)->Ok_0;
            let ready = readied(df, target, dtype);
            let matches = df.rows[r][df.column_of(key_column)] == CellView::Text(key);
            &&& after.wf()
            &&& after.columns == ready.columns
            &&& has_typed(df, target, dtype) ==> ready == df
            &&& after.rows.len() == df.rows.len()
            &&& after.rows[r][c] == if c != df.column_of(target) {
                df.rows[r][c]
            } else if matches {
                cell
            } else {
                ready.rows[r][c]
            }
        }),
{
    let after = set_where(df, key_column, key, target, dtype, cell)->Ok_0;
    let ready = readied(df, target, dtype);
    lemma_readied(df, target, dtype);
    assert forall|i: int| 0 <= i < after.rows.len() implies row_fits(
        after.columns,
        #[trigger] after.rows[i],
    ) by {
        assert(row_fits(ready.columns, ready.rows[i]));
    }
    assert(row_fits(df.columns, df.rows[r]));
}

/// Setting a column where a key matches: the rows with the key hold the new cell in
/// that column. Every other cell of the table is as it was, but that a whole number
/// of the column becomes the double precision number nearest to it where the column
/// held whole numbers before. No row and no column is added or removed.
pub proof fn setting_sets_the_matches(
    df: TableView,
    key_column: Seq<char>,
    key: Seq<char>,
    target: Seq<char>,
    dtype: DataTypeView,
    cell: CellView,
)
    requires
        df.wf(),
        crate::table::fits(dtype, cell),
        set_where(df, key_column, key, target, dtype, cell) is Ok,
    ensures
        ({
            let after = set_where(df, key_column, key, target, dtype, cell)->Ok_0;
            &&& after.wf()
            &&& after.rows.len() == df.rows.len()
            &&& after.columns.len() == df.columns.len()
            &&& df.has_column(key_column)
            &&& df.has_column(target)
            &&& after.columns[after.column_of(target)].dtype == dtype
            &&& df.columns[df.column_of(target)].dtype == dtype ==> after.columns == df.columns
            &&& forall|name: Seq<char>| #[trigger]
                after.has_column(name) == df.has_column(name)
            &&& forall|name: Seq<char>| #[trigger]
                df.has_column(name) ==> after.column_of(name) == df.column_of(name)
            &&& forall|name: Seq<char>|
                df.has_column(name) && name != target ==> #[trigger] after.columns[after.column_of(
                    name,
                )] == df.columns[df.column_of(name)]
            &&& forall|r: int, name: Seq<char>|
                0 <= r < df.rows.len() && df.has_column(name) && name != target ==> #[trigger]
                after.at(r, name) == df.at(r, name)
            &&& forall|r: int|
                0 <= r < df.rows.len() ==> #[trigger] after.at(r, target) == if df.at(
                    r,
                    key_column,
                ) == CellView::Text(key) {
                    cell
                } else {
                    match df.at(r, target) {
                        CellView::Int(n) => if df.columns[df.column_of(target)].dtype == dtype {
                            CellView::Int(n)
                        } else {
                            CellView::Float(double_of(Number::Int(n)))
                        },
                        other => other,
                    }
                }
        }),
{
    let after = set_where(df, key_column, key, target, dtype, cell)->Ok_0;
    let ready = readied(df, target, dtype);
    let t = df.column_of(target);
    lemma_readied(df, target, dtype);
    assert(df.has_column(target)) by {
        if ready != df {
            assert(df.has_column(target));
        }
    }
    assert(df.columns[t].name == target);
    assert forall|i: int| 0 <= i < after.rows.len() implies row_fits(
        after.columns,
        #[trigger] after.rows[i],
    ) by {
        assert(row_fits(ready.columns, ready.rows[i]));
    }
    assert forall|c: int| 0 <= c < df.columns.len() implies (#[trigger] after.columns[c]).name
        == df.columns[c].name by {}
    assert forall|name: Seq<char>| #[trigger] after.has_column(name) == df.has_column(name) by {
        if after.has_column(name) {
            let c = after.column_of(name);
            assert(after.columns[c].name == name);
            assert(df.columns[c].name == name);
        }
        if df.has_column(name) {
            assert(ready.has_column(name));
            assert(after.columns == ready.columns);
        }
    }
    assert forall|name: Seq<char>| #[trigger] df.has_column(name) implies after.column_of(name)
        == df.column_of(name) by {
        assert(ready.has_column(name));
        assert(after.columns == ready.columns);
    }
    assert forall|name: Seq<char>|
        df.has_column(name) && name != target implies #[trigger] after.columns[after.column_of(
        name,
    )] == df.columns[df.column_of(name)] by {
        assert(df.columns[df.column_of(name)].name == name);
    }
    assert forall|r: int, name: Seq<char>|
        0 <= r < df.rows.len() && df.has_column(name) && name != target implies #[trigger] after.at(
        r,
        name,
    ) == df.at(r, name) by {
        assert(df.columns[df.column_of(name)].name == name);
        assert(row_fits(df.columns, df.rows[r]));
        setting_touches_only_matches(
            df,
            key_column,
            key,
            target,
            dtype,
            cell,
            r,
            df.column_of(name),
        );
    }
    assert forall|r: int| 0 <= r < df.rows.len() implies #[trigger] after.at(r, target) == (
    if df.at(r, key_column) == CellView::Text(key) {
        cell
    } else {
        match df.at(r, target) {
            CellView::Int(n) => if df.columns[t].dtype == dtype {
                CellView::Int(n)
            } else {
                CellView::Float(double_of(Number::Int(n)))
            },
            other => other,
        }
    }) by {
        assert(row_fits(df.columns, df.rows[r]));
        assert(crate::table::fits(df.columns[t].dtype, df.rows[r][t]));
        setting_touches_only_matches(df, key_column, key, target, dtype, cell, r, t);
    }
}

proof fn lemma_kept_rows(rows: Seq<Seq<CellView>>, keep: Seq<bool>, n: int, k: int)
    requires
        0 <= n <= rows.len(),
        0 <= k < kept(rows, keep, n).len(),
    ensures
        exists|i: int| 0 <= i < n && keep[i] && #[trigger] rows[i] == kept(rows, keep, n)[k],
    decreases n,
{
    if n > 0 {
        let rest = kept(rows, keep, n - 1);
        if k < rest.len() {
            lemma_kept_rows(rows, keep, n - 1, k);
            let i = choose|i: int| 0 <= i < n - 1 && keep[i] && #[trigger] rows[i] == rest[k];
            assert(rows[i] == kept(rows, keep, n)[k]);
        } else {
            assert(rows[n - 1] == kept(rows, keep, n)[k]);
        }
    }
}

/// A name that was removed is not in the table any more. An empty name is another
/// matter: a row without a name reads as one with an empty name, and stays.
pub proof fn a_removed_name_is_gone(df: TableView, key_column: Seq<char>, name: Seq<char>)
    requires
        name.len() > 0,
        without_matches(df, key_column, name) is Ok,
    ensures
        has_text(without_matches(df, key_column, name)->Ok_0, key_column, name) == Ok::<
            bool,
            ErrorView,
        >(false),
{
    let after = without_matches(df, key_column, name)->Ok_0;
    let c = df.column_of(key_column);
    let keep = others(df.rows, c, name);
    assert(after.column_of(key_column) == c);
    assert(after.has_column(key_column)) by {
        assert(df.columns[c].name == key_column);
        assert(after.columns[c].name == key_column);
    }
    let list = texts_in(after, key_column)->Ok_0;
    if list.contains(name) {
        let k = choose|k: int| 0 <= k < list.len() && list[k] == name;
        lemma_kept_rows(df.rows, keep, df.rows.len() as int, k);
        let i = choose|i: int|
            0 <= i < df.rows.len() && keep[i] && #[trigger] df.rows[i] == after.rows[k];
        assert(keep[i]);
    }
}

/// Writing the code of the euro out leaves no old code behind, and doing it again
/// changes nothing.
pub proof fn the_euro_is_spelled_once(df: TableView)
    requires
        df.wf(),
        euro_spelled(df) is Ok,
    ensures
        euro_spelled(euro_spelled(df)->Ok_0) == euro_spelled(df),
        forall|r: int|
            0 <= r < euro_spelled(df)->Ok_0.rows.len() && df.has_column("currency"@)
                ==> (#[trigger] euro_spelled(df)->Ok_0.rows[r])[df.column_of("currency"@)]
                != CellView::Text("E"@),
{
    reveal_strlit("E");
    reveal_strlit("EUR");
    assert("E"@ != "EUR"@) by {
        assert("E"@.len() == 1 && "EUR"@.len() == 3);
    }
    let once = euro_spelled(df)->Ok_0;
    if df.has_column("currency"@) && df.rows.len() > 0 {
        let c = df.column_of("currency"@);
        assert(once.columns == df.columns);
        assert forall|r: int| 0 <= r < once.rows.len() implies (#[trigger] once.rows[r])[c]
            != CellView::Text("E"@) by {
            assert(row_fits(df.columns, df.rows[r]));
        }
        assert(once.has_column("currency"@)) by {
            assert(df.columns[c].name == "currency"@);
            assert(once.columns[c].name == "currency"@);
        }
        assert(once.column_of("currency"@) == c);
        let twice = with_matches_set(once, c, "E"@, c, CellView::Text("EUR"@));
        assert(twice.rows =~= once.rows) by {
            assert forall|r: int| 0 <= r < once.rows.len() implies twice.rows[r] == once.rows[r] by {
                assert(once.rows[r][c] != CellView::Text("E"@));
            }
        }
        assert(twice =~= once);
    }
}

proof fn lemma_wide_row_is_there(
    df: TableView,
    names: Seq<Seq<char>>,
    values: Seq<Seq<char>>,
    row_id: Seq<char>,
)
    requires
        df.wf(),
        heads(names),
        names.len() == values.len(),
        wide_appended(df, names, values, row_id) is Ok,
    ensures
        grows(df, wide_appended(df, names, values, row_id)->Ok_0),
        holds_row_id(wide_appended(df, names, values, row_id)->Ok_0, row_id) == Ok::<
            bool,
            ErrorView,
        >(true),
{
    let columns = wide_columns(names);
    let cells = wide_cells(values, row_id);
    let after = wide_appended(df, names, values, row_id)->Ok_0;
    lemma_wide_columns(names);
    assert(row_fits(columns, cells));
    let last = names.len() as int + 12;
    assert(columns[last].name == ROW_ID_COLUMN@);
    assert(cells[last] == CellView::Text(row_id));
    lemma_appended_grows(df, columns, cells, last);
    let c = after.column_of(ROW_ID_COLUMN@);
    let n = df.rows.len() as int;
    assert(after.rows[n][c] == CellView::Text(row_id));
    assert(row_fits(after.columns, after.rows[n]));
    assert(crate::table::fits(after.columns[c].dtype, after.rows[n][c]));
    lemma_matching_rows(after.rows, c, row_id, after.rows.len() as int);
    assert(matching_rows(after.rows, c, row_id, after.rows.len() as int).contains(n));
}

/// A new asset is in the holdings and in the prices under one id, and everything
/// that was there before is there still.
pub proof fn an_asset_has_one_id(
    holdings: HoldingsView,
    name: Seq<char>,
    category: Seq<char>,
    link: Seq<char>,
    currency: Seq<char>,
    row_id: Seq<char>,
)
    requires
        holdings.df.wf(),
        holdings.prices.wf(),
        asset_added(holdings, name, category, link, currency, row_id).1 is Ok,
    ensures
        ({
            let after = asset_added(holdings, name, category, link, currency, row_id).0;
            &&& grows(holdings.df, after.df)
            &&& grows(holdings.prices, after.prices)
            &&& holds_row_id(after.df, row_id) == Ok::<bool, ErrorView>(true)
            &&& holds_row_id(after.prices, row_id) == Ok::<bool, ErrorView>(true)
        }),
{
    crate::holdings::lemma_heads();
    lemma_wide_row_is_there(
        holdings.df,
        holding_heads(),
        seq![name, category, link, currency],
        row_id,
    );
    lemma_wide_row_is_there(holdings.prices, price_heads(), seq![name, category, link], row_id);
}

} // verus!
