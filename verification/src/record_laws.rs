//! What is recorded of a row that was added is that row.

use vstd::prelude::*;
use crate::changes::upsert_op;
use crate::edit_laws::{a_row_is_recorded_whole, can_be_recorded, is_recorded};
use crate::error::ErrorView;
use crate::expense_laws::{grows, lemma_grown_column};
use crate::frames::{has_texts, holds_row_id};
use crate::holdings::{asset_added, HoldingsView};
use crate::merge_apply::{lemma_matching_rows, ROW_ID_COLUMN};
use crate::numbers::FloatBits;
use crate::recurring::{template_added, RecurringView};
use crate::sheet_laws::{an_added_investment_is_there, an_added_row_holds_what_was_given};
use crate::sync::{ChangeTable, OpView};
use crate::table::{matching_rows, CellView, TableView};
use crate::template_laws::a_template_generates_what_was_given;
use crate::wide::{heads, row_added, SheetView};

verus! {

/// Whether what is recorded is the last row of a table, each cell under its own column;
/// it is recorded wherever the log can carry the cells.
pub open spec fn records_last_row(
    df: TableView,
    op: Result<OpView, ErrorView>,
    name: Seq<char>,
) -> bool {
    let n = df.rows.len() - 1;
    &&& op is Ok <==> forall|c: int|
        0 <= c < df.columns.len() ==> can_be_recorded(#[trigger] df.rows[n][c])
    &&& op matches Ok(change) ==> {
        &&& change matches OpView::Upsert(row)
        &&& row.contains_key(name) <==> df.has_column(name)
        &&& df.has_column(name) ==> is_recorded(df.at(n, name), row[name])
    }
}

proof fn lemma_last_row(before: TableView, after: TableView, row_id: Seq<char>, name: Seq<char>)
    requires
        before.wf(),
        holds_row_id(before, row_id) == Ok::<bool, ErrorView>(false),
        grows(before, after),
        after.rows.len() == before.rows.len() + 1,
        after.at(before.rows.len() as int, "row_id"@) == CellView::Text(row_id),
    ensures
        records_last_row(after, upsert_op(after, row_id), name),
{
    let n = before.rows.len() as int;
    assert(has_texts(before, ROW_ID_COLUMN@));
    lemma_grown_column(before, after, ROW_ID_COLUMN@);
    let c = before.column_of(ROW_ID_COLUMN@);
    assert(after.columns[c] == before.columns[c]);
    lemma_matching_rows(before.rows, c, row_id, n);
    assert forall|k: int| 0 <= k < after.rows.len() && k != n implies #[trigger] after.at(
        k,
        "row_id"@,
    ) != CellView::Text(row_id) by {
        assert(after.rows[k][c] == before.rows[k][c]);
        if before.rows[k][c] == CellView::Text(row_id) {
            assert(matching_rows(before.rows, c, row_id, n).contains(k));
        }
    }
    a_row_is_recorded_whole(after, row_id, n, name);
}

/// What is recorded of a template that was added under a new id is the template.
pub proof fn an_added_template_is_recorded_whole(
    templates: RecurringView,
    row_id: Seq<char>,
    name: Seq<char>,
    day: i64,
    amount: FloatBits,
    currency: Seq<char>,
    primary: Seq<char>,
    secondary: Seq<char>,
    column: Seq<char>,
)
    requires
        templates.df.wf(),
        holds_row_id(templates.df, row_id) == Ok::<bool, ErrorView>(false),
        template_added(templates, row_id, name, day, amount, currency, primary, secondary) is Ok,
    ensures
        ({
            let after = template_added(
                templates,
                row_id,
                name,
                day,
                amount,
                currency,
                primary,
                secondary,
            )->Ok_0;
            records_last_row(after.df, after.changes.last().op, column)
        }),
{
    a_template_generates_what_was_given(
        templates,
        row_id,
        name,
        day,
        amount,
        currency,
        primary,
        secondary,
        2000,
        1,
    );
    let after = template_added(
        templates,
        row_id,
        name,
        day,
        amount,
        currency,
        primary,
        secondary,
    )->Ok_0;
    lemma_last_row(templates.df, after.df, row_id, column);
}

/// What is recorded of a row that was added to a yearly table under a new id is the row.
pub proof fn an_added_row_is_recorded_whole(
    sheet: SheetView,
    table: ChangeTable,
    names: Seq<Seq<char>>,
    values: Seq<Seq<char>>,
    row_id: Seq<char>,
    column: Seq<char>,
)
    requires
        sheet.df.wf(),
        heads(names),
        names.len() == values.len(),
        holds_row_id(sheet.df, row_id) == Ok::<bool, ErrorView>(false),
        row_added(sheet, table, names, values, row_id) is Ok,
    ensures
        ({
            let after = row_added(sheet, table, names, values, row_id)->Ok_0;
            records_last_row(after.df, after.changes.last().op, column)
        }),
{
    an_added_row_holds_what_was_given(sheet, table, names, values, row_id);
    let after = row_added(sheet, table, names, values, row_id)->Ok_0;
    lemma_last_row(sheet.df, after.df, row_id, column);
}

/// What is recorded of an investment that was added under a new id is its row in each of
/// the two tables.
pub proof fn an_added_investment_is_recorded_whole(
    holdings: HoldingsView,
    name: Seq<char>,
    category: Seq<char>,
    link: Seq<char>,
    currency: Seq<char>,
    row_id: Seq<char>,
    column: Seq<char>,
)
    requires
        holdings.df.wf(),
        holdings.prices.wf(),
        holds_row_id(holdings.df, row_id) == Ok::<bool, ErrorView>(false),
        holds_row_id(holdings.prices, row_id) == Ok::<bool, ErrorView>(false),
        asset_added(holdings, name, category, link, currency, row_id).1 is Ok,
    ensures
        ({
            let after = asset_added(holdings, name, category, link, currency, row_id).0;
            let n = holdings.changes.len() as int;
            &&& records_last_row(after.df, after.changes[n].op, column)
            &&& records_last_row(after.prices, after.changes[n + 1].op, column)
        }),
{
    an_added_investment_is_there(holdings, name, category, link, currency, row_id);
    let after = asset_added(holdings, name, category, link, currency, row_id).0;
    lemma_last_row(holdings.df, after.df, row_id, column);
    lemma_last_row(holdings.prices, after.prices, row_id, column);
}

} // verus!
