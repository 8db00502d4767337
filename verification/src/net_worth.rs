//! What the user owns and owes besides the investments: liquid assets, credits
//! and debts, one value each month.

use vstd::prelude::*;
use crate::append::{is_random_id, new_row_id};
use crate::changes::{change_views, Change, ChangeView};
use crate::error::{outcome, Error, ErrorView};
use crate::expenses::{drop_named, dropped, stored_view};
use crate::frames::{
    euro_spelled, lacks_row_ids, normalize_currency_column, require_row_ids, row_ids_error,
};
use crate::paths::{
    get_year_summary_path, year_path, CREDITS_DEBTS_FILENAME, LIQUIDITY_FILENAME,
};
use crate::numbers::FloatBits;
use crate::sync::ChangeTable;
use crate::table::{Table, TableView};
use crate::text::same_text;
use crate::wide::{
    add_wide_row, empty_wide_df, ensure_column, heads, is_free, is_named, month_put, named_text_put,
    names_of, put_month, put_named_text, put_text, remove_wide_rows, rename_rows, require_free,
    require_name, row_added, rows_removed, rows_renamed, sheet_outcome, text_put, values_of,
    wide_columns, with_default, SheetView,
};

verus! {

/// Whether a liquid asset can have a category.
pub open spec fn liquidity_category(category: Seq<char>) -> bool {
    category == "Bank/Broker account"@ || category == "Cash"@ || category == "Other"@
}

/// A category that liquid assets do not have.
pub open spec fn liquidity_category_error(category: Seq<char>) -> ErrorView {
    ErrorView::InvalidArgument(
        "'"@ + category
            + "' is not a valid category. Choose from: [\"Bank/Broker account\", \"Cash\", \"Other\"]"@,
    )
}

fn require_liquidity_category(category: &str) -> (r: Result<(), Error>)
    ensures
        outcome(r) == if liquidity_category(category@) {
            Ok::<(), ErrorView>(())
        } else {
            Err(liquidity_category_error(category@))
        },
{
    if same_text(category, "Bank/Broker account") || same_text(category, "Cash") || same_text(
        category,
        "Other",
    ) {
        Ok(())
    } else {
        Err(
            Error::InvalidArgument(
                "'".to_owned().concat(category).concat(
                    "' is not a valid category. Choose from: [\"Bank/Broker account\", \"Cash\", \"Other\"]",
                ),
            ),
        )
    }
}

/// What says which liquid asset a row is.
pub open spec fn liquidity_heads() -> Seq<Seq<char>> {
    seq!["asset_name"@, "category"@, "currency"@]
}

/// The columns of a liquid asset can head a yearly table.
pub proof fn lemma_liquidity_heads()
    ensures
        heads(liquidity_heads()),
{
    reveal_strlit("asset_name");
    reveal_strlit("category");
    reveal_strlit("currency");
    reveal_strlit("row_id");
    let meta = liquidity_heads();
    assert("category"@[1] != "currency"@[1]);
    assert(meta[0].len() == 10 && meta[1].len() == 8 && meta[2].len() == 8);
    assert(meta[0] != meta[1] && meta[0] != meta[2] && meta[1] != meta[2]);
}

/// The liquid assets of a year, and what to record of the changes to them.
pub struct Liquidity {
    /// The year of the table.
    pub year: i32,
    /// The assets, with a value each month.
    pub df: Table,
    /// The changes to record, once the table is saved.
    pub changes: Vec<Change>,
}

/// A table of values in some currency, once it is loaded: where the currency was
/// not stored it is the euro, and the old code of the euro is written out.
pub open spec fn loaded_sheet(df: TableView, path: Seq<char>) -> Result<TableView, ErrorView> {
    if lacks_row_ids(df) {
        Err(row_ids_error(path))
    } else {
        euro_spelled(with_default(df, "currency"@, "EUR"@))
    }
}

fn load_sheet(df: &mut Table, path: &str) -> (r: Result<(), Error>)
    ensures
        match r {
            Ok(()) => loaded_sheet(old(df)@, path@) == Ok::<TableView, ErrorView>(final(df)@),
            Err(e) => loaded_sheet(old(df)@, path@) == Err::<TableView, ErrorView>(e@),
        },
{
    match require_row_ids(df, path) {
        Ok(()) => {},
        Err(e) => return Err(e),
    }
    ensure_column(df, "currency", "EUR");
    normalize_currency_column(df)
}

/// The liquid assets a year starts out with: those of its file, or none.
pub open spec fn first_liquidity(stored: Option<TableView>, path: Seq<char>) -> Result<
    TableView,
    ErrorView,
> {
    match stored {
        Some(df) => loaded_sheet(df, path),
        None => Ok(TableView { columns: wide_columns(liquidity_heads()), rows: Seq::empty() }),
    }
}

/// The table of liquid assets in the change log.
pub open spec fn liquidity_table(year: i32) -> ChangeTable {
    ChangeTable::Liquidity { year }
}

/// A table with a new liquid asset, or what is wrong with it.
pub open spec fn liquid_asset_added(
    sheet: SheetView,
    year: i32,
    name: Seq<char>,
    category: Seq<char>,
    currency: Seq<char>,
    row_id: Seq<char>,
) -> Result<SheetView, ErrorView> {
    if !liquidity_category(category) {
        Err(liquidity_category_error(category))
    } else {
        match is_free(sheet.df, "asset_name"@, "Asset"@, name) {
            Err(e) => Err(e),
            Ok(()) => row_added(
                sheet,
                liquidity_table(year),
                liquidity_heads(),
                seq![name, category, currency],
                row_id,
            ),
        }
    }
}

/// A table with another category for a liquid asset, or what is wrong with it.
pub open spec fn liquid_category_set(
    sheet: SheetView,
    year: i32,
    name: Seq<char>,
    category: Seq<char>,
) -> Result<SheetView, ErrorView> {
    match is_named(sheet.df, "asset_name"@, "Asset"@, name) {
        Err(e) => Err(e),
        Ok(()) => if liquidity_category(category) {
            text_put(sheet, liquidity_table(year), "asset_name"@, name, "category"@, category)
        } else {
            Err(liquidity_category_error(category))
        },
    }
}

impl Liquidity {
    /// The table and the changes to record of it.
    pub open spec fn sheet(self) -> SheetView {
        SheetView { df: self.df@, changes: change_views(self.changes@) }
    }

    /// The liquid assets of a year, from what its file holds, or none if there is
    /// no file. Fails for a file whose rows have no ids.
    pub fn new(year: i32, stored: Option<Table>) -> (r: Result<Self, Error>)
        ensures
            ({
                let path = year_path(year as int, LIQUIDITY_FILENAME@);
                match r {
                    Ok(table) => table.year == year && table.sheet().changes == Seq::<
                        ChangeView,
                    >::empty() && first_liquidity(stored_view(stored), path) == Ok::<
                        TableView,
                        ErrorView,
                    >(table.sheet().df),
                    Err(e) => first_liquidity(stored_view(stored), path) == Err::<
                        TableView,
                        ErrorView,
                    >(e@),
                }
            }),
    {
        let path = get_year_summary_path(year, LIQUIDITY_FILENAME);
        Self::load(year, path.as_str(), stored)
    }

    /// The liquid assets of a year that are stored at `path`.
    pub fn load(year: i32, path: &str, stored: Option<Table>) -> (r: Result<Self, Error>)
        ensures
            match r {
                Ok(table) => table.year == year && table.sheet().changes == Seq::<
                    ChangeView,
                >::empty() && first_liquidity(stored_view(stored), path@) == Ok::<
                    TableView,
                    ErrorView,
                >(table.sheet().df),
                Err(e) => first_liquidity(stored_view(stored), path@) == Err::<
                    TableView,
                    ErrorView,
                >(e@),
            },
    {
        let changes: Vec<Change> = Vec::new();
        assert(change_views(changes@) =~= Seq::empty());
        match stored {
            Some(mut df) => match load_sheet(&mut df, path) {
                Ok(()) => Ok(Liquidity { year, df, changes }),
                Err(e) => Err(e),
            },
            None => {
                let meta: Vec<(&str, &str)> = vec![
                    ("asset_name", ""),
                    ("category", ""),
                    ("currency", ""),
                ];
                proof {
                    lemma_liquidity_heads();
                    assert(names_of(meta@) =~= liquidity_heads());
                }
                Ok(Liquidity { year, df: empty_wide_df(&meta), changes })
            },
        }
    }

    /// Where these rows are in the change log.
    pub fn change_table(&self) -> (r: ChangeTable)
        ensures
            r == liquidity_table(self.year),
    {
        ChangeTable::Liquidity { year: self.year }
    }

    /// Add an asset under a fresh row id, zero in every month.
    pub fn add_asset(&mut self, asset_name: &str, category: &str, currency: &str) -> (r: Result<
        (),
        Error,
    >)
        ensures
            final(self).year == old(self).year,
            exists|row_id: Seq<char>|
                is_random_id(row_id) && sheet_outcome(
                    #[trigger] liquid_asset_added(
                        old(self).sheet(),
                        old(self).year,
                        asset_name@,
                        category@,
                        currency@,
                        row_id,
                    ),
                    old(self).sheet(),
                    final(self).sheet(),
                    r,
                ),
    {
        let row_id = new_row_id();
        self.add_asset_with_id(row_id.as_str(), asset_name, category, currency)
    }

    /// Add an asset under a given row id, zero in every month.
    pub fn add_asset_with_id(
        &mut self,
        row_id: &str,
        asset_name: &str,
        category: &str,
        currency: &str,
    ) -> (r: Result<(), Error>)
        ensures
            final(self).year == old(self).year,
            sheet_outcome(
                liquid_asset_added(
                    old(self).sheet(),
                    old(self).year,
                    asset_name@,
                    category@,
                    currency@,
                    row_id@,
                ),
                old(self).sheet(),
                final(self).sheet(),
                r,
            ),
    {
        match require_liquidity_category(category) {
            Ok(()) => {},
            Err(e) => return Err(e),
        }
        match require_free(&self.df, "asset_name", "Asset", asset_name) {
            Ok(()) => {},
            Err(e) => return Err(e),
        }
        let meta: Vec<(&str, &str)> = vec![
            ("asset_name", asset_name),
            ("category", category),
            ("currency", currency),
        ];
        proof {
            lemma_liquidity_heads();
            assert(names_of(meta@) =~= liquidity_heads());
            assert(values_of(meta@) =~= seq![asset_name@, category@, currency@]);
        }
        let table = self.change_table();
        add_wide_row(&mut self.df, &mut self.changes, table, &meta, row_id)
    }

    /// Remove an asset. A name that no row has is no error.
    pub fn remove_asset(&mut self, asset_name: &str) -> (r: Result<(), Error>)
        ensures
            final(self).year == old(self).year,
            sheet_outcome(
                rows_removed(
                    old(self).sheet(),
                    liquidity_table(old(self).year),
                    "asset_name"@,
                    asset_name@,
                ),
                old(self).sheet(),
                final(self).sheet(),
                r,
            ),
    {
        let table = self.change_table();
        remove_wide_rows(&mut self.df, &mut self.changes, table, "asset_name", asset_name)
    }

    /// Rename an asset.
    pub fn rename_asset(&mut self, old_name: &str, new_name: &str) -> (r: Result<(), Error>)
        ensures
            final(self).year == old(self).year,
            sheet_outcome(
                rows_renamed(
                    old(self).sheet(),
                    liquidity_table(old(self).year),
                    "asset_name"@,
                    "Asset"@,
                    old_name@,
                    new_name@,
                ),
                old(self).sheet(),
                final(self).sheet(),
                r,
            ),
    {
        let table = self.change_table();
        rename_rows(
            &mut self.df,
            &mut self.changes,
            table,
            "asset_name",
            "Asset",
            old_name,
            new_name,
        )
    }

    /// Give an asset another category.
    pub fn set_category(&mut self, asset_name: &str, category: &str) -> (r: Result<(), Error>)
        ensures
            final(self).year == old(self).year,
            sheet_outcome(
                liquid_category_set(old(self).sheet(), old(self).year, asset_name@, category@),
                old(self).sheet(),
                final(self).sheet(),
                r,
            ),
    {
        match require_name(&self.df, "asset_name", "Asset", asset_name) {
            Ok(()) => {},
            Err(e) => return Err(e),
        }
        match require_liquidity_category(category) {
            Ok(()) => {},
            Err(e) => return Err(e),
        }
        let table = self.change_table();
        put_text(
            &mut self.df,
            &mut self.changes,
            table,
            "asset_name",
            asset_name,
            "category",
            category,
        )
    }

    /// Give an asset another currency.
    pub fn set_currency(&mut self, asset_name: &str, currency: &str) -> (r: Result<(), Error>)
        ensures
            final(self).year == old(self).year,
            sheet_outcome(
                named_text_put(
                    old(self).sheet(),
                    liquidity_table(old(self).year),
                    "asset_name"@,
                    "Asset"@,
                    asset_name@,
                    "currency"@,
                    currency@,
                ),
                old(self).sheet(),
                final(self).sheet(),
                r,
            ),
    {
        let table = self.change_table();
        put_named_text(
            &mut self.df,
            &mut self.changes,
            table,
            "asset_name",
            "Asset",
            asset_name,
            "currency",
            currency,
        )
    }

    /// Set the value of an asset in a month.
    pub fn set_value(&mut self, asset_name: &str, month: u32, value: FloatBits) -> (r: Result<
        (),
        Error,
    >)
        ensures
            final(self).year == old(self).year,
            sheet_outcome(
                month_put(
                    old(self).sheet(),
                    liquidity_table(old(self).year),
                    "asset_name"@,
                    "Asset"@,
                    asset_name@,
                    month,
                    value,
                ),
                old(self).sheet(),
                final(self).sheet(),
                r,
            ),
    {
        let table = self.change_table();
        put_month(
            &mut self.df,
            &mut self.changes,
            table,
            "asset_name",
            "Asset",
            asset_name,
            month,
            value,
        )
    }
}

/// What says which credit or debt a row is.
pub open spec fn credits_heads() -> Seq<Seq<char>> {
    seq!["name"@, "currency"@]
}

/// The columns of a credit or debt can head a yearly table.
pub proof fn lemma_credits_heads()
    ensures
        heads(credits_heads()),
{
    reveal_strlit("name");
    reveal_strlit("currency");
    reveal_strlit("row_id");
    let meta = credits_heads();
    assert(meta[0].len() == 4 && meta[1].len() == 8);
}

/// The credits and debts of a year: a credit has positive values, a debt negative
/// ones.
pub struct CreditsDebts {
    /// The year of the table.
    pub year: i32,
    /// The credits and debts, with a value each month.
    pub df: Table,
    /// The changes to record, once the table is saved.
    pub changes: Vec<Change>,
}

/// The credits and debts a year starts out with: those of its file, or none.
pub open spec fn first_credits(stored: Option<TableView>, path: Seq<char>) -> Result<
    TableView,
    ErrorView,
> {
    match stored {
        Some(df) => match loaded_sheet(df, path) {
            Ok(df) => Ok(dropped(df, "type"@)),
            Err(e) => Err(e),
        },
        None => Ok(TableView { columns: wide_columns(credits_heads()), rows: Seq::empty() }),
    }
}

/// The table of credits and debts in the change log.
pub open spec fn credits_table(year: i32) -> ChangeTable {
    ChangeTable::CreditsDebts { year }
}

/// A table with a new credit or debt, or what is wrong with it.
pub open spec fn entry_added(
    sheet: SheetView,
    year: i32,
    name: Seq<char>,
    currency: Seq<char>,
    row_id: Seq<char>,
) -> Result<SheetView, ErrorView> {
    match is_free(sheet.df, "name"@, "Entry"@, name) {
        Err(e) => Err(e),
        Ok(()) => row_added(
            sheet,
            credits_table(year),
            credits_heads(),
            seq![name, currency],
            row_id,
        ),
    }
}

impl CreditsDebts {
    /// The table and the changes to record of it.
    pub open spec fn sheet(self) -> SheetView {
        SheetView { df: self.df@, changes: change_views(self.changes@) }
    }

    /// The credits and debts of a year, from what its file holds, or none if there
    /// is no file. Fails for a file whose rows have no ids.
    pub fn new(year: i32, stored: Option<Table>) -> (r: Result<Self, Error>)
        ensures
            ({
                let path = year_path(year as int, CREDITS_DEBTS_FILENAME@);
                match r {
                    Ok(table) => table.year == year && table.sheet().changes == Seq::<
                        ChangeView,
                    >::empty() && first_credits(stored_view(stored), path) == Ok::<
                        TableView,
                        ErrorView,
                    >(table.sheet().df),
                    Err(e) => first_credits(stored_view(stored), path) == Err::<
                        TableView,
                        ErrorView,
                    >(e@),
                }
            }),
    {
        let path = get_year_summary_path(year, CREDITS_DEBTS_FILENAME);
        Self::load(year, path.as_str(), stored)
    }

    /// The credits and debts of a year that are stored at `path`.
    pub fn load(year: i32, path: &str, stored: Option<Table>) -> (r: Result<Self, Error>)
        ensures
            match r {
                Ok(table) => table.year == year && table.sheet().changes == Seq::<
                    ChangeView,
                >::empty() && first_credits(stored_view(stored), path@) == Ok::<
                    TableView,
                    ErrorView,
                >(table.sheet().df),
                Err(e) => first_credits(stored_view(stored), path@) == Err::<TableView, ErrorView>(
                    e@,
                ),
            },
    {
        let changes: Vec<Change> = Vec::new();
        assert(change_views(changes@) =~= Seq::empty());
        match stored {
            Some(mut df) => match load_sheet(&mut df, path) {
                Ok(()) => {
                    drop_named(&mut df, "type");
                    Ok(CreditsDebts { year, df, changes })
                },
                Err(e) => Err(e),
            },
            None => {
                let meta: Vec<(&str, &str)> = vec![("name", ""), ("currency", "")];
                proof {
                    lemma_credits_heads();
                    assert(names_of(meta@) =~= credits_heads());
                }
                Ok(CreditsDebts { year, df: empty_wide_df(&meta), changes })
            },
        }
    }

    /// Where these rows are in the change log.
    pub fn change_table(&self) -> (r: ChangeTable)
        ensures
            r == credits_table(self.year),
    {
        ChangeTable::CreditsDebts { year: self.year }
    }

    /// Add a credit or debt under a fresh row id, zero in every month.
    pub fn add_entry(&mut self, name: &str, currency: &str) -> (r: Result<(), Error>)
        ensures
            final(self).year == old(self).year,
            exists|row_id: Seq<char>|
                is_random_id(row_id) && sheet_outcome(
                    #[trigger] entry_added(
                        old(self).sheet(),
                        old(self).year,
                        name@,
                        currency@,
                        row_id,
                    ),
                    old(self).sheet(),
                    final(self).sheet(),
                    r,
                ),
    {
        let row_id = new_row_id();
        self.add_entry_with_id(row_id.as_str(), name, currency)
    }

    /// Add a credit or debt under a given row id, zero in every month.
    pub fn add_entry_with_id(&mut self, row_id: &str, name: &str, currency: &str) -> (r: Result<
        (),
        Error,
    >)
        ensures
            final(self).year == old(self).year,
            sheet_outcome(
                entry_added(old(self).sheet(), old(self).year, name@, currency@, row_id@),
                old(self).sheet(),
                final(self).sheet(),
                r,
            ),
    {
        match require_free(&self.df, "name", "Entry", name) {
            Ok(()) => {},
            Err(e) => return Err(e),
        }
        let meta: Vec<(&str, &str)> = vec![("name", name), ("currency", currency)];
        proof {
            lemma_credits_heads();
            assert(names_of(meta@) =~= credits_heads());
            assert(values_of(meta@) =~= seq![name@, currency@]);
        }
        let table = self.change_table();
        add_wide_row(&mut self.df, &mut self.changes, table, &meta, row_id)
    }

    /// Remove a credit or debt. A name that no row has is no error.
    pub fn remove_entry(&mut self, name: &str) -> (r: Result<(), Error>)
        ensures
            final(self).year == old(self).year,
            sheet_outcome(
                rows_removed(old(self).sheet(), credits_table(old(self).year), "name"@, name@),
                old(self).sheet(),
                final(self).sheet(),
                r,
            ),
    {
        let table = self.change_table();
        remove_wide_rows(&mut self.df, &mut self.changes, table, "name", name)
    }

    /// Rename a credit or debt.
    pub fn rename_entry(&mut self, old_name: &str, new_name: &str) -> (r: Result<(), Error>)
        ensures
            final(self).year == old(self).year,
            sheet_outcome(
                rows_renamed(
                    old(self).sheet(),
                    credits_table(old(self).year),
                    "name"@,
                    "Entry"@,
                    old_name@,
                    new_name@,
                ),
                old(self).sheet(),
                final(self).sheet(),
                r,
            ),
    {
        let table = self.change_table();
        rename_rows(
            &mut self.df,
            &mut self.changes,
            table,
            "name",
            "Entry",
            old_name,
            new_name,
        )
    }

    /// Give a credit or debt another currency.
    pub fn set_currency(&mut self, name: &str, currency: &str) -> (r: Result<(), Error>)
        ensures
            final(self).year == old(self).year,
            sheet_outcome(
                named_text_put(
                    old(self).sheet(),
                    credits_table(old(self).year),
                    "name"@,
                    "Entry"@,
                    name@,
                    "currency"@,
                    currency@,
                ),
                old(self).sheet(),
                final(self).sheet(),
                r,
            ),
    {
        let table = self.change_table();
        put_named_text(
            &mut self.df,
            &mut self.changes,
            table,
            "name",
            "Entry",
            name,
            "currency",
            currency,
        )
    }

    /// Set the outstanding amount of a credit or debt in a month.
    pub fn set_value(&mut self, name: &str, month: u32, value: FloatBits) -> (r: Result<(), Error>)
        ensures
            final(self).year == old(self).year,
            sheet_outcome(
                month_put(
                    old(self).sheet(),
                    credits_table(old(self).year),
                    "name"@,
                    "Entry"@,
                    name@,
                    month,
                    value,
                ),
                old(self).sheet(),
                final(self).sheet(),
                r,
            ),
    {
        let table = self.change_table();
        put_month(&mut self.df, &mut self.changes, table, "name", "Entry", name, month, value)
    }
}

} // verus!
