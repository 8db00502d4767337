//! What a file held is what is loaded from it, brought to the form of today.

use vstd::prelude::*;
use crate::dates::day_cast;
use crate::error::ErrorView;
use crate::expenses::{dates_cast, dropped, loaded_expenses};
use crate::frame_laws::setting_sets_the_matches;
use crate::frames::{euro_spelled, has_texts, lacks_row_ids};
use crate::holdings::{first_holdings, first_prices};
use crate::merge_apply::ROW_ID_COLUMN;
use crate::net_worth::{first_credits, first_liquidity, loaded_sheet};
use crate::numbers::{float_finite, float_truncated};
use crate::recurring::first_templates;
use crate::sheet_laws::is_without;
use crate::summaries::summary_without;
use crate::table::{lemma_column_of, row_fits, CellView, DataTypeView, TableView};
use crate::wide::with_default;

verus! {

/// Whether a cell is another with the old code of the euro written out.
pub open spec fn is_spelled_out(before: CellView, after: CellView) -> bool {
    after == if before == CellView::Text("E"@) {
        CellView::Text("EUR"@)
    } else {
        before
    }
}

/// Whether a table has the rows and columns of another, each cell as it was, but that
/// the old code of the euro is written out in the column of the currencies.
pub open spec fn has_euro_spelled(before: TableView, after: TableView) -> bool {
    &&& after.wf()
    &&& after.columns == before.columns
    &&& after.rows.len() == before.rows.len()
    &&& forall|r: int, name: Seq<char>|
        0 <= r < before.rows.len() && before.has_column(name) ==> {
            if name == "currency"@ {
                is_spelled_out(before.at(r, name), #[trigger] after.at(r, name))
            } else {
                after.at(r, name) == before.at(r, name)
            }
        }
}

/// Writing the code of the euro out changes nothing but the cells of the currencies
/// that hold the old code.
pub proof fn only_the_old_code_of_the_euro_changes(df: TableView)
    requires
        df.wf(),
        euro_spelled(df) is Ok,
    ensures
        has_euro_spelled(df, euro_spelled(df)->Ok_0),
{
    let after = euro_spelled(df)->Ok_0;
    if df.has_column("currency"@) && df.rows.len() > 0 {
        setting_sets_the_matches(
            df,
            "currency"@,
            "E"@,
            "currency"@,
            DataTypeView::Text,
            CellView::Text("EUR"@),
        );
        assert forall|r: int, name: Seq<char>|
            0 <= r < df.rows.len() && df.has_column(name) implies {
            if name == "currency"@ {
                is_spelled_out(df.at(r, name), #[trigger] after.at(r, name))
            } else {
                after.at(r, name) == df.at(r, name)
            }
        } by {
            assert(row_fits(df.columns, df.rows[r]));
            let c = df.column_of("currency"@);
            assert(crate::table::fits(df.columns[c].dtype, df.rows[r][c]));
        }
    }
}

/// A column that a table lacked is there, the value in every row, and the rest of the
/// table is as it was. A column that it had stays.
pub proof fn a_default_fills_what_was_lacking(df: TableView, column: Seq<char>, value: Seq<char>)
    requires
        df.wf(),
    ensures
        ({
            let after = with_default(df, column, value);
            &&& after.wf()
            &&& after.has_column(column)
            &&& after.rows.len() == df.rows.len()
            &&& df.has_column(column) ==> after == df
            &&& forall|r: int, name: Seq<char>|
                0 <= r < df.rows.len() && df.has_column(name) ==> #[trigger] after.at(r, name)
                    == df.at(r, name)
            &&& forall|r: int|
                0 <= r < df.rows.len() && !df.has_column(column) ==> #[trigger] after.at(r, column)
                    == CellView::Text(value)
        }),
{
    let after = with_default(df, column, value);
    if !df.has_column(column) {
        let n = df.columns.len() as int;
        assert forall|a: int, b: int| 0 <= a < b < after.columns.len() implies (
        #[trigger] after.columns[a]).name != (#[trigger] after.columns[b]).name by {
            assert(after.columns[a] == df.columns[a]);
            if b < n {
                assert(after.columns[b] == df.columns[b]);
            }
        }
        assert(after.columns[n].name == column);
        lemma_column_of(after, n);
        assert forall|r: int| 0 <= r < after.rows.len() implies row_fits(
            after.columns,
            #[trigger] after.rows[r],
        ) by {
            assert(row_fits(df.columns, df.rows[r]));
        }
        assert forall|r: int, name: Seq<char>|
            0 <= r < df.rows.len() && df.has_column(name) implies #[trigger] after.at(r, name)
            == df.at(r, name) by {
            let c = df.column_of(name);
            assert(after.columns[c].name == name);
            lemma_column_of(after, c);
            assert(row_fits(df.columns, df.rows[r]));
        }
        assert forall|r: int| 0 <= r < df.rows.len() implies #[trigger] after.at(r, column)
            == CellView::Text(value) by {
            assert(row_fits(df.columns, df.rows[r]));
        }
    }
}

/// A column that is dropped is gone, and the rest of the table is as it was.
pub proof fn dropping_leaves_the_other_columns(df: TableView, dropped_name: Seq<char>)
    requires
        df.wf(),
    ensures
        ({
            let after = dropped(df, dropped_name);
            &&& after.wf()
            &&& after.rows.len() == df.rows.len()
            &&& forall|name: Seq<char>| #[trigger]
                after.has_column(name) <==> df.has_column(name) && name != dropped_name
            &&& forall|r: int, name: Seq<char>|
                0 <= r < df.rows.len() && df.has_column(name) && name != dropped_name
                    ==> #[trigger] after.at(r, name) == df.at(r, name)
            &&& forall|name: Seq<char>|
                df.has_column(name) && name != dropped_name ==> #[trigger] after.columns[after.column_of(
                    name,
                )] == df.columns[df.column_of(name)]
        }),
{
    let after = dropped(df, dropped_name);
    if df.has_column(dropped_name) {
        let d = df.column_of(dropped_name);
        assert(df.columns[d].name == dropped_name);
        assert forall|a: int, b: int| 0 <= a < b < after.columns.len() implies (
        #[trigger] after.columns[a]).name != (#[trigger] after.columns[b]).name by {
            let x = if a < d {
                a
            } else {
                a + 1
            };
            let y = if b < d {
                b
            } else {
                b + 1
            };
            assert(df.columns[x].name != df.columns[y].name);
        }
        assert forall|r: int| 0 <= r < after.rows.len() implies row_fits(
            after.columns,
            #[trigger] after.rows[r],
        ) by {
            assert(row_fits(df.columns, df.rows[r]));
            assert forall|c: int| 0 <= c < after.columns.len() implies crate::table::fits(
                after.columns[c].dtype,
                #[trigger] after.rows[r][c],
            ) by {
                let x = if c < d {
                    c
                } else {
                    c + 1
                };
                assert(crate::table::fits(df.columns[x].dtype, df.rows[r][x]));
            }
        }
        assert forall|name: Seq<char>| #[trigger] after.has_column(name) <==> df.has_column(name)
            && name != dropped_name by {
            if after.has_column(name) {
                let c = after.column_of(name);
                let x = if c < d {
                    c
                } else {
                    c + 1
                };
                assert(df.columns[x].name == name);
                assert(df.columns[x].name != dropped_name) by {
                    lemma_column_of(df, x);
                }
            }
            if df.has_column(name) && name != dropped_name {
                lemma_place_after(df, d, name);
            }
        }
        assert forall|r: int, name: Seq<char>|
            0 <= r < df.rows.len() && df.has_column(name) && name
                != dropped_name implies #[trigger] after.at(r, name) == df.at(r, name) by {
            lemma_place_after(df, d, name);
            assert(row_fits(df.columns, df.rows[r]));
        }
        assert forall|name: Seq<char>|
            df.has_column(name) && name != dropped_name implies #[trigger] after.columns[after.column_of(
        name)] == df.columns[df.column_of(name)] by {
            lemma_place_after(df, d, name);
        }
    }
}

proof fn lemma_place_after(df: TableView, d: int, name: Seq<char>)
    requires
        df.wf(),
        0 <= d < df.columns.len(),
        df.has_column(name),
        df.columns[d].name != name,
        crate::table::names_differ(df.without_column(d).columns),
    ensures
        df.without_column(d).has_column(name),
        df.without_column(d).column_of(name) == if df.column_of(name) < d {
            df.column_of(name)
        } else {
            df.column_of(name) - 1
        },
        df.column_of(name) != d,
        df.columns[df.column_of(name)].name == name,
        0 <= df.column_of(name) < df.columns.len(),
{
    let after = df.without_column(d);
    let c = df.column_of(name);
    assert(df.columns[c].name == name);
    let x = if c < d {
        c
    } else {
        c - 1
    };
    assert(after.columns[x].name == name);
    lemma_column_of(after, x);
}

/// Whether a cell of the dates is another brought to a date: a date as it is, a count
/// of days as that day, a number without what is behind its point, one or no day for a
/// truth value, and the date that a text is cast to. What gives no day is empty.
pub open spec fn is_dated(before: CellView, after: CellView) -> bool {
    match before {
        CellView::Date(days) => after == CellView::Date(days),
        CellView::Int(n) => if i32::MIN <= n <= i32::MAX {
            after matches CellView::Date(days) && days == n
        } else {
            after is Null
        },
        CellView::Bool(flag) => after == CellView::Date(
            if flag {
                1
            } else {
                0
            },
        ),
        CellView::Text(text) => match day_cast(text) {
            Some(days) => after == CellView::Date(days),
            None => after is Null,
        },
        CellView::Float(bits) => if float_finite(bits) && i32::MIN <= float_truncated(bits)
            <= i32::MAX {
            after matches CellView::Date(days) && days == float_truncated(bits)
        } else {
            after is Null
        },
        _ => after is Null,
    }
}

/// Casting the dates of a table makes a date of each of them, and leaves the rest of
/// the table as it was.
pub proof fn casting_touches_only_the_dates(df: TableView)
    requires
        df.wf(),
        dates_cast(df) is Ok,
    ensures
        ({
            let after = dates_cast(df)->Ok_0;
            &&& after.wf()
            &&& after.rows.len() == df.rows.len()
            &&& forall|name: Seq<char>| #[trigger] after.has_column(name) <==> df.has_column(name)
            &&& df.has_column("expense_date"@) ==> after.columns[after.column_of(
                "expense_date"@,
            )].dtype is Date
            &&& forall|r: int, name: Seq<char>|
                0 <= r < df.rows.len() && df.has_column(name) ==> {
                    if name == "expense_date"@ {
                        is_dated(df.at(r, name), #[trigger] after.at(r, name))
                    } else {
                        after.at(r, name) == df.at(r, name)
                    }
                }
            &&& forall|name: Seq<char>|
                df.has_column(name) && name != "expense_date"@
                    ==> #[trigger] after.columns[after.column_of(name)]
                    == df.columns[df.column_of(name)]
        }),
{
    let after = dates_cast(df)->Ok_0;
    if df.has_column("expense_date"@) {
        let d = df.column_of("expense_date"@);
        assert(df.columns[d].name == "expense_date"@);
        assert forall|c: int| 0 <= c < df.columns.len() implies (#[trigger] after.columns[c]).name
            == df.columns[c].name by {}
        assert forall|r: int| 0 <= r < after.rows.len() implies row_fits(
            after.columns,
            #[trigger] after.rows[r],
        ) by {
            assert(row_fits(df.columns, df.rows[r]));
            assert forall|c: int| 0 <= c < after.columns.len() implies crate::table::fits(
                after.columns[c].dtype,
                #[trigger] after.rows[r][c],
            ) by {
                assert(crate::table::fits(df.columns[c].dtype, df.rows[r][c]));
            }
        }
        assert(crate::table::names_differ(after.columns)) by {
            assert forall|a: int, b: int| 0 <= a < b < after.columns.len() implies (
            #[trigger] after.columns[a]).name != (#[trigger] after.columns[b]).name by {
                assert(df.columns[a].name != df.columns[b].name);
            }
        }
        assert forall|name: Seq<char>| #[trigger] after.has_column(name) <==> df.has_column(
            name,
        ) by {
            if after.has_column(name) {
                let c = after.column_of(name);
                assert(df.columns[c].name == name);
            }
            if df.has_column(name) {
                assert(after.columns[df.column_of(name)].name == name);
            }
        }
        assert forall|name: Seq<char>| df.has_column(name) implies #[trigger] after.column_of(name)
            == df.column_of(name) by {
            assert(df.columns[df.column_of(name)].name == name);
            lemma_column_of(after, df.column_of(name));
        }
        assert forall|r: int, name: Seq<char>|
            0 <= r < df.rows.len() && df.has_column(name) implies {
            if name == "expense_date"@ {
                is_dated(df.at(r, name), #[trigger] after.at(r, name))
            } else {
                after.at(r, name) == df.at(r, name)
            }
        } by {
            assert(row_fits(df.columns, df.rows[r]));
            assert(crate::table::fits(df.columns[d].dtype, df.rows[r][d]));
            assert(df.columns[df.column_of(name)].name == name);
            assert(after.column_of(name) == df.column_of(name));
        }
        assert forall|name: Seq<char>|
            df.has_column(name) && name != "expense_date"@ implies #[trigger] after.columns[after.column_of(
        name)] == df.columns[df.column_of(name)] by {
            assert(df.columns[df.column_of(name)].name == name);
            assert(after.column_of(name) == df.column_of(name));
        }
    }
}

/// The expenses of a file are loaded row by row: every cell is as it was stored, but
/// that the dates are dates and the old code of the euro is written out. The three
/// columns that are worked out now are gone, and no other column.
pub proof fn the_expenses_of_a_file_are_loaded(df: TableView, path: Seq<char>)
    requires
        df.wf(),
        loaded_expenses(df, path) is Ok,
    ensures
        ({
            let after = loaded_expenses(df, path)->Ok_0;
            &&& after.wf()
            &&& after.rows.len() == df.rows.len()
            &&& forall|name: Seq<char>| #[trigger]
                after.has_column(name) <==> df.has_column(name) && name
                    != "expense_in_ref_currency"@ && name != "fx_rate"@ && name != "rate_date"@
            &&& forall|r: int, name: Seq<char>|
                0 <= r < df.rows.len() && df.has_column(name) && name != "expense_in_ref_currency"@
                    && name != "fx_rate"@ && name != "rate_date"@ ==> {
                    if name == "expense_date"@ {
                        is_dated(df.at(r, name), #[trigger] after.at(r, name))
                    } else if name == "currency"@ {
                        is_spelled_out(df.at(r, name), after.at(r, name))
                    } else {
                        after.at(r, name) == df.at(r, name)
                    }
                }
        }),
{
    let cast = dates_cast(df)->Ok_0;
    casting_touches_only_the_dates(df);
    let one = dropped(cast, "expense_in_ref_currency"@);
    dropping_leaves_the_other_columns(cast, "expense_in_ref_currency"@);
    let two = dropped(one, "fx_rate"@);
    dropping_leaves_the_other_columns(one, "fx_rate"@);
    let three = dropped(two, "rate_date"@);
    dropping_leaves_the_other_columns(two, "rate_date"@);
    only_the_old_code_of_the_euro_changes(three);
    let after = euro_spelled(three)->Ok_0;
    reveal_strlit("expense_date");
    reveal_strlit("currency");
    assert("expense_date"@.len() != "currency"@.len());
    assert forall|name: Seq<char>| #[trigger] after.has_column(name) <==> df.has_column(name)
        && name != "expense_in_ref_currency"@ && name != "fx_rate"@ && name != "rate_date"@ by {
        assert(after.has_column(name) <==> three.has_column(name)) by {
            assert(after.columns == three.columns);
            if after.has_column(name) {
                assert(three.columns[after.column_of(name)].name == name);
            }
            if three.has_column(name) {
                assert(after.columns[three.column_of(name)].name == name);
            }
        }
        assert(three.has_column(name) <==> two.has_column(name) && name != "rate_date"@);
        assert(two.has_column(name) <==> one.has_column(name) && name != "fx_rate"@);
        assert(one.has_column(name) <==> cast.has_column(name) && name
            != "expense_in_ref_currency"@);
        assert(cast.has_column(name) <==> df.has_column(name));
    }
    assert forall|r: int, name: Seq<char>|
        0 <= r < df.rows.len() && df.has_column(name) && name != "expense_in_ref_currency"@ && name
            != "fx_rate"@ && name != "rate_date"@ implies {
        if name == "expense_date"@ {
            is_dated(df.at(r, name), #[trigger] after.at(r, name))
        } else if name == "currency"@ {
            is_spelled_out(df.at(r, name), after.at(r, name))
        } else {
            after.at(r, name) == df.at(r, name)
        }
    } by {
        assert(cast.has_column(name));
        assert(one.has_column(name));
        assert(two.has_column(name));
        assert(three.has_column(name));
        let a = after.at(r, name);
        let b = three.at(r, name);
        let c = two.at(r, name);
        let d = one.at(r, name);
        let e = cast.at(r, name);
        assert(b == c && c == d && d == e);
    }
}

/// A yearly table without a column of currencies is in one currency throughout, and in
/// one that has the column only the old code of the euro is written out. Everything else
/// is as it was stored.
pub open spec fn is_loaded_in(before: TableView, after: TableView, currency: Seq<char>) -> bool {
    &&& after.wf()
    &&& after.rows.len() == before.rows.len()
    &&& after.has_column("currency"@)
    &&& forall|r: int, name: Seq<char>|
        0 <= r < before.rows.len() && before.has_column(name) ==> {
            if name == "currency"@ {
                is_spelled_out(before.at(r, name), #[trigger] after.at(r, name))
            } else {
                after.at(r, name) == before.at(r, name)
            }
        }
    &&& !before.has_column("currency"@) ==> forall|r: int|
        0 <= r < before.rows.len() ==> is_spelled_out(
            CellView::Text(currency),
            #[trigger] after.at(r, "currency"@),
        )
}

proof fn lemma_loaded_in(df: TableView, currency: Seq<char>)
    requires
        df.wf(),
        euro_spelled(with_default(df, "currency"@, currency)) is Ok,
    ensures
        is_loaded_in(df, euro_spelled(with_default(df, "currency"@, currency))->Ok_0, currency),
{
    let filled = with_default(df, "currency"@, currency);
    let after = euro_spelled(filled)->Ok_0;
    a_default_fills_what_was_lacking(df, "currency"@, currency);
    only_the_old_code_of_the_euro_changes(filled);
    assert(after.has_column("currency"@)) by {
        assert(after.columns[filled.column_of("currency"@)].name == "currency"@);
    }
    assert forall|r: int, name: Seq<char>| 0 <= r < df.rows.len() && df.has_column(name) implies {
        if name == "currency"@ {
            is_spelled_out(df.at(r, name), #[trigger] after.at(r, name))
        } else {
            after.at(r, name) == df.at(r, name)
        }
    } by {
        assert(filled.at(r, name) == df.at(r, name));
        lemma_has(df, filled, name);
    }
    if !df.has_column("currency"@) {
        assert forall|r: int| 0 <= r < df.rows.len() implies is_spelled_out(
            CellView::Text(currency),
            #[trigger] after.at(r, "currency"@),
        ) by {
            assert(filled.at(r, "currency"@) == CellView::Text(currency));
        }
    }
}

proof fn lemma_has(df: TableView, filled: TableView, name: Seq<char>)
    requires
        df.has_column(name),
        df.columns.len() <= filled.columns.len(),
        forall|c: int| 0 <= c < df.columns.len() ==> #[trigger] filled.columns[c] == df.columns[c],
    ensures
        filled.has_column(name),
{
    assert(filled.columns[df.column_of(name)].name == name);
}

/// Values that were stored without a currency are in euro, and those that were stored
/// with one keep it.
pub proof fn stored_values_keep_their_currency(df: TableView, path: Seq<char>)
    requires
        df.wf(),
        loaded_sheet(df, path) is Ok,
    ensures
        is_loaded_in(df, loaded_sheet(df, path)->Ok_0, "EUR"@),
        first_liquidity(Some(df), path) == loaded_sheet(df, path),
{
    lemma_loaded_in(df, "EUR"@);
}

/// The credits and debts of a file are loaded as they were stored, in euro where no
/// currency was, and without the column of the types.
pub proof fn the_credits_of_a_file_are_loaded(df: TableView, path: Seq<char>)
    requires
        df.wf(),
        first_credits(Some(df), path) is Ok,
    ensures
        ({
            let after = first_credits(Some(df), path)->Ok_0;
            &&& after.wf()
            &&& after.rows.len() == df.rows.len()
            &&& !after.has_column("type"@)
            &&& forall|r: int, name: Seq<char>|
                0 <= r < df.rows.len() && df.has_column(name) && name != "type"@ ==> {
                    if name == "currency"@ {
                        is_spelled_out(df.at(r, name), #[trigger] after.at(r, name))
                    } else {
                        after.at(r, name) == df.at(r, name)
                    }
                }
            &&& !df.has_column("currency"@) ==> forall|r: int|
                0 <= r < df.rows.len() ==> #[trigger] after.at(r, "currency"@) == CellView::Text(
                    "EUR"@,
                )
        }),
{
    let loaded = loaded_sheet(df, path)->Ok_0;
    lemma_loaded_in(df, "EUR"@);
    dropping_leaves_the_other_columns(loaded, "type"@);
    let filled = with_default(df, "currency"@, "EUR"@);
    let after = first_credits(Some(df), path)->Ok_0;
    reveal_strlit("currency");
    reveal_strlit("type");
    reveal_strlit("E");
    reveal_strlit("EUR");
    assert("currency"@.len() == 8 && "type"@.len() == 4);
    assert("EUR"@.len() == 3 && "E"@.len() == 1);
    a_default_fills_what_was_lacking(df, "currency"@, "EUR"@);
    only_the_old_code_of_the_euro_changes(filled);
    assert forall|r: int, name: Seq<char>|
        0 <= r < df.rows.len() && df.has_column(name) && name != "type"@ implies {
        if name == "currency"@ {
            is_spelled_out(df.at(r, name), #[trigger] after.at(r, name))
        } else {
            after.at(r, name) == df.at(r, name)
        }
    } by {
        lemma_has(df, filled, name);
        assert(loaded.has_column(name)) by {
            assert(loaded.columns == filled.columns);
            assert(loaded.columns[filled.column_of(name)].name == name);
        }
        assert(after.at(r, name) == loaded.at(r, name));
    }
    if !df.has_column("currency"@) {
        assert forall|r: int| 0 <= r < df.rows.len() implies #[trigger] after.at(r, "currency"@)
            == CellView::Text("EUR"@) by {
            assert(is_spelled_out(CellView::Text("EUR"@), loaded.at(r, "currency"@)));
            assert(after.at(r, "currency"@) == loaded.at(r, "currency"@));
        }
    }
}

/// The holdings of a file are loaded as they were stored: without links where none were,
/// and in the reference currency where no currency was.
pub proof fn the_holdings_of_a_file_are_loaded(
    df: TableView,
    path: Seq<char>,
    reference: Seq<char>,
)
    requires
        df.wf(),
        first_holdings(Some(df), path, reference) is Ok,
    ensures
        ({
            let after = first_holdings(Some(df), path, reference)->Ok_0;
            &&& after.wf()
            &&& after.rows.len() == df.rows.len()
            &&& forall|r: int, name: Seq<char>|
                0 <= r < df.rows.len() && df.has_column(name) ==> {
                    if name == "currency"@ {
                        is_spelled_out(df.at(r, name), #[trigger] after.at(r, name))
                    } else {
                        after.at(r, name) == df.at(r, name)
                    }
                }
            &&& !df.has_column("currency"@) ==> forall|r: int|
                0 <= r < df.rows.len() ==> is_spelled_out(
                    CellView::Text(reference),
                    #[trigger] after.at(r, "currency"@),
                )
            &&& !df.has_column("link"@) ==> forall|r: int|
                0 <= r < df.rows.len() ==> #[trigger] after.at(r, "link"@) == CellView::Text(""@)
        }),
{
    let linked = with_default(df, "link"@, ""@);
    a_default_fills_what_was_lacking(df, "link"@, ""@);
    lemma_loaded_in(linked, reference);
    let after = first_holdings(Some(df), path, reference)->Ok_0;
    reveal_strlit("currency");
    reveal_strlit("link");
    assert("currency"@.len() == 8 && "link"@.len() == 4);
    assert(linked.has_column("currency"@) == df.has_column("currency"@)) by {
        if linked.has_column("currency"@) {
            let c = linked.column_of("currency"@);
            assert(linked.columns[c].name == "currency"@);
            if c < df.columns.len() {
                assert(df.columns[c].name == "currency"@);
            }
        }
        if df.has_column("currency"@) {
            lemma_has(df, linked, "currency"@);
        }
    }
    assert forall|r: int, name: Seq<char>| 0 <= r < df.rows.len() && df.has_column(name) implies {
        if name == "currency"@ {
            is_spelled_out(df.at(r, name), #[trigger] after.at(r, name))
        } else {
            after.at(r, name) == df.at(r, name)
        }
    } by {
        lemma_has(df, linked, name);
        assert(linked.at(r, name) == df.at(r, name));
    }
    if !df.has_column("link"@) {
        assert forall|r: int| 0 <= r < df.rows.len() implies #[trigger] after.at(r, "link"@)
            == CellView::Text(""@) by {
            assert(linked.has_column("link"@));
            assert(linked.at(r, "link"@) == CellView::Text(""@));
        }
    }
}

/// The prices of a file are loaded as they were stored, without links where none were.
pub proof fn the_prices_of_a_file_are_loaded(df: TableView, path: Seq<char>)
    requires
        df.wf(),
        first_prices(Some(df), path) is Ok,
    ensures
        ({
            let after = first_prices(Some(df), path)->Ok_0;
            &&& after.wf()
            &&& after.rows.len() == df.rows.len()
            &&& forall|r: int, name: Seq<char>|
                0 <= r < df.rows.len() && df.has_column(name) ==> #[trigger] after.at(r, name)
                    == df.at(r, name)
            &&& !df.has_column("link"@) ==> forall|r: int|
                0 <= r < df.rows.len() ==> #[trigger] after.at(r, "link"@) == CellView::Text(""@)
        }),
{
    a_default_fills_what_was_lacking(df, "link"@, ""@);
}

/// The templates of a file are loaded as they were stored, the old code of the euro
/// written out.
pub proof fn the_templates_of_a_file_are_loaded(df: TableView, path: Seq<char>)
    requires
        df.wf(),
        first_templates(Some(df), path) is Ok,
    ensures
        has_euro_spelled(df, first_templates(Some(df), path)->Ok_0),
{
    only_the_old_code_of_the_euro_changes(df);
}

/// A file is refused exactly where a row has no id, and nothing of it is loaded.
pub proof fn a_file_without_ids_is_refused(df: TableView, path: Seq<char>, reference: Seq<char>)
    requires
        !has_texts(df, ROW_ID_COLUMN@) || exists|r: int|
            0 <= r < df.rows.len() && (#[trigger] df.at(r, "row_id"@) == CellView::Text(
                Seq::empty(),
            ) || !(df.at(r, "row_id"@) is Text)),
    ensures
        lacks_row_ids(df),
        loaded_expenses(df, path) matches Err(ErrorView::RowIdsMissing(_)),
        first_templates(Some(df), path) matches Err(ErrorView::RowIdsMissing(_)),
        first_liquidity(Some(df), path) matches Err(ErrorView::RowIdsMissing(_)),
        first_credits(Some(df), path) matches Err(ErrorView::RowIdsMissing(_)),
        first_prices(Some(df), path) matches Err(ErrorView::RowIdsMissing(_)),
        first_holdings(Some(df), path, reference) matches Err(ErrorView::RowIdsMissing(_)),
{
    if has_texts(df, ROW_ID_COLUMN@) {
        let r = choose|r: int|
            0 <= r < df.rows.len() && (#[trigger] df.at(r, "row_id"@) == CellView::Text(
                Seq::empty(),
            ) || !(df.at(r, "row_id"@) is Text));
        assert(df.rows[r][df.column_of(ROW_ID_COLUMN@)] == df.at(r, "row_id"@));
    }
}

/// A summary loses exactly the rows of a category of its kind, and is rewritten only
/// where it had one: the primary ones are in one column and the secondary ones in the
/// other.
pub proof fn a_category_leaves_the_summaries_of_its_kind(
    df: TableView,
    kind: Seq<char>,
    name: Seq<char>,
) -> (places: Seq<int>)
    requires
        summary_without(df, kind, name) is Ok,
        kind == "primary"@ || kind == "secondary"@,
    ensures
        ({
            let column = if kind == "primary"@ {
                "primary_category"@
            } else {
                "secondary_category"@
            };
            match summary_without(df, kind, name)->Ok_0 {
                Some(after) => df.has_column(column) && is_without(df, after, column, name, places)
                    && after.rows.len() < df.rows.len(),
                None => !df.has_column(column) || forall|r: int|
                    0 <= r < df.rows.len() ==> #[trigger] df.at(r, column) != CellView::Text(name),
            }
        }),
{
    reveal_strlit("primary");
    reveal_strlit("secondary");
    reveal_strlit("_category");
    reveal_strlit("primary_category");
    reveal_strlit("secondary_category");
    assert("primary"@ + "_category"@ =~= "primary_category"@);
    assert("secondary"@ + "_category"@ =~= "secondary_category"@);
    let column = if kind == "primary"@ {
        "primary_category"@
    } else {
        "secondary_category"@
    };
    assert(crate::summaries::category_column(kind) == column);
    if df.has_column(column) {
        let places = crate::sheet_laws::removing_leaves_the_others(df, column, name);
        lemma_increasing(places, df.rows.len() as int);
        if places.len() == df.rows.len() {
            assert forall|r: int| 0 <= r < df.rows.len() implies #[trigger] df.at(r, column)
                != CellView::Text(name) by {
                assert(places[r] == r);
            }
        }
        places
    } else {
        Seq::empty()
    }
}

proof fn lemma_increasing(places: Seq<int>, n: int)
    requires
        forall|k: int| 0 <= k < places.len() ==> 0 <= #[trigger] places[k] < n,
        forall|i: int, j: int|
            0 <= i < j < places.len() ==> #[trigger] places[i] < #[trigger] places[j],
    ensures
        places.len() <= n || n < 0,
        places.len() == n ==> forall|k: int| 0 <= k < n ==> #[trigger] places[k] == k,
    decreases places.len(),
{
    if places.len() > 0 {
        let last = places.last();
        let rest = places.drop_last();
        assert(places[places.len() - 1] == last);
        assert forall|k: int| 0 <= k < rest.len() implies 0 <= #[trigger] rest[k] < last by {
            assert(rest[k] == places[k]);
        }
        lemma_increasing(rest, last);
        if places.len() == n {
            lemma_increasing(rest, n - 1);
            assert forall|k: int| 0 <= k < n implies #[trigger] places[k] == k by {
                if k < n - 1 {
                    assert(rest[k] == places[k]);
                }
            }
        }
    }
}

} // verus!
