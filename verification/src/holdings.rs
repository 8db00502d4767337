//! Investments: how many of each asset there are, and what one of them costs, each
//! month.

use vstd::prelude::*;
use crate::append::{is_random_id, new_row_id};
use crate::changes::{
    change_views, record, text_cell, text_cell_op, typed, upsert_op, upsert_row, Change,
    ChangeView,
};
use crate::error::{outcome, Error, ErrorView};
use crate::expenses::stored_view;
use crate::frames::{
    euro_spelled, find_texts, has_texts, ids_where, lacks_row_ids, no_texts,
    normalize_currency_column, remove_where, require_row_ids, row_ids_error, row_ids_where,
    set_str_where, set_where, without_matches,
};
use crate::merge_apply::key_column_error;
use crate::paths::{
    get_year_summary_path, year_path, INVESTMENTS_FILENAME, INVESTMENTS_PRICES_FILENAME,
};
use crate::numbers::FloatBits;
use crate::sync::{ChangeOp, ChangeTable, OpView};
use crate::table::{matching_rows, Cell, CellView, DataTypeView, Table, TableView};
use crate::text::{same_text, texts};
use crate::wide::{
    append_wide_row, can_rename, empty_wide_df, ensure_column, heads, is_free, is_named, label_of,
    month_column, named_text_put, names_of, number_put, put_named_text, put_number, record_rows,
    recorded, require_free, require_name, require_renamable, values_of, wide_appended, wide_columns,
    with_default, SheetView,
};

verus! {

/// Whether an investment can have a category.
pub open spec fn investment_category(category: Seq<char>) -> bool {
    category == "Stocks/ETF"@ || category == "Commodities"@ || category == "Bonds"@
}

/// A category that investments do not have.
pub open spec fn investment_category_error(category: Seq<char>) -> ErrorView {
    ErrorView::InvalidArgument(
        "'"@ + category
            + "' is not a valid category. Choose from: [\"Stocks/ETF\", \"Commodities\", \"Bonds\"]"@,
    )
}

fn require_investment_category(category: &str) -> (r: Result<(), Error>)
    ensures
        outcome(r) == if investment_category(category@) {
            Ok::<(), ErrorView>(())
        } else {
            Err(investment_category_error(category@))
        },
{
    if same_text(category, "Stocks/ETF") || same_text(category, "Commodities") || same_text(
        category,
        "Bonds",
    ) {
        Ok(())
    } else {
        Err(
            Error::InvalidArgument(
                "'".to_owned().concat(category).concat(
                    "' is not a valid category. Choose from: [\"Stocks/ETF\", \"Commodities\", \"Bonds\"]",
                ),
            ),
        )
    }
}

/// What says which holding a row is.
pub open spec fn holding_heads() -> Seq<Seq<char>> {
    seq!["asset_name"@, "category"@, "link"@, "currency"@]
}

/// What says which price a row is. The currency of an asset is kept with the
/// holdings only.
pub open spec fn price_heads() -> Seq<Seq<char>> {
    seq!["asset_name"@, "category"@, "link"@]
}

/// The names that head the two tables differ.
pub proof fn lemma_heads()
    ensures
        heads(holding_heads()),
        heads(price_heads()),
{
    reveal_strlit("asset_name");
    reveal_strlit("category");
    reveal_strlit("link");
    reveal_strlit("currency");
    reveal_strlit("row_id");
    let meta = holding_heads();
    assert("category"@[1] != "currency"@[1]);
    assert(meta[0].len() == 10 && meta[1].len() == 8 && meta[2].len() == 4 && meta[3].len() == 8);
    assert(meta[1] != meta[3]);
    assert forall|i: int, j: int| 0 <= i < j < meta.len() implies (#[trigger] meta[i]) != (
    #[trigger] meta[j]) by {
        if !(i == 1 && j == 3) {
            assert(meta[i].len() != meta[j].len());
        }
    }
    let prices = price_heads();
    assert(prices[0].len() == 10 && prices[1].len() == 8 && prices[2].len() == 4);
}

/// The investments of a year, and what to record of the changes to them. The row
/// of an asset has the same id in both tables.
pub struct InvestmentHoldings {
    /// The year of the tables.
    pub year: i32,
    /// How many of each asset there are each month.
    pub df: Table,
    /// What one of each asset costs each month.
    pub df_prices: Table,
    /// The changes to record, once the tables are saved.
    pub changes: Vec<Change>,
}

/// What [`InvestmentHoldings`] hold.
#[verifier::ext_equal]
pub struct HoldingsView {
    pub year: i32,
    pub df: TableView,
    pub prices: TableView,
    pub changes: Seq<ChangeView>,
}

impl View for InvestmentHoldings {
    type V = HoldingsView;

    open spec fn view(&self) -> HoldingsView {
        HoldingsView {
            year: self.year,
            df: self.df@,
            prices: self.df_prices@,
            changes: change_views(self.changes@),
        }
    }
}

/// A table of investments once it is loaded: with a column for links.
pub open spec fn loaded_frame(df: TableView, path: Seq<char>) -> Result<TableView, ErrorView> {
    if lacks_row_ids(df) {
        Err(row_ids_error(path))
    } else {
        Ok(with_default(df, "link"@, ""@))
    }
}

/// The holdings a year starts out with. Holdings stored without a currency are
/// in the reference currency.
pub open spec fn first_holdings(
    stored: Option<TableView>,
    path: Seq<char>,
    reference: Seq<char>,
) -> Result<TableView, ErrorView> {
    let loaded = match stored {
        Some(df) => loaded_frame(df, path),
        None => Ok(TableView { columns: wide_columns(holding_heads()), rows: Seq::empty() }),
    };
    match loaded {
        Err(e) => Err(e),
        Ok(df) => euro_spelled(with_default(df, "currency"@, reference)),
    }
}

/// The prices a year starts out with.
pub open spec fn first_prices(stored: Option<TableView>, path: Seq<char>) -> Result<
    TableView,
    ErrorView,
> {
    match stored {
        Some(df) => loaded_frame(df, path),
        None => Ok(TableView { columns: wide_columns(price_heads()), rows: Seq::empty() }),
    }
}

fn load_frame(stored: Option<Table>, path: &str, empty: Table) -> (r: Result<Table, Error>)
    ensures
        ({
            let expected = match stored {
                Some(df) => loaded_frame(df@, path@),
                None => Ok(empty@),
            };
            match r {
                Ok(df) => expected == Ok::<TableView, ErrorView>(df@),
                Err(e) => expected == Err::<TableView, ErrorView>(e@),
            }
        }),
{
    match stored {
        Some(mut df) => {
            match require_row_ids(&df, path) {
                Ok(()) => {},
                Err(e) => return Err(e),
            }
            ensure_column(&mut df, "link", "");
            Ok(df)
        },
        None => Ok(empty),
    }
}

/// The tables of investments in the change log.
pub open spec fn holdings_table(year: i32) -> ChangeTable {
    ChangeTable::Investments { year }
}

/// The tables of prices in the change log.
pub open spec fn prices_table(year: i32) -> ChangeTable {
    ChangeTable::InvestmentsPrices { year }
}

/// A step of a change to both tables: what they are now, and how it went.
pub type Step = (HoldingsView, Result<(), ErrorView>);

/// The same change recorded for the rows of an asset in both tables.
pub open spec fn both_recorded(
    holdings: HoldingsView,
    ids: Seq<Seq<char>>,
    price_ids: Seq<Seq<char>>,
    op: Result<OpView, ErrorView>,
) -> Seq<ChangeView> {
    recorded(
        recorded(holdings.changes, holdings_table(holdings.year), ids, op),
        prices_table(holdings.year),
        price_ids,
        op,
    )
}

/// Both tables after a text was set for an asset. The ids of its rows are taken
/// from both tables first; then the holdings are changed, then the prices.
pub open spec fn both_set(
    holdings: HoldingsView,
    name: Seq<char>,
    column: Seq<char>,
    value: Seq<char>,
) -> Step {
    match (
        ids_where(holdings.df, "asset_name"@, name),
        ids_where(holdings.prices, "asset_name"@, name),
    ) {
        (Err(e), _) => (holdings, Err(e)),
        (Ok(_), Err(e)) => (holdings, Err(e)),
        (Ok(ids), Ok(price_ids)) => match set_where(
            holdings.df,
            "asset_name"@,
            name,
            column,
            DataTypeView::Text,
            CellView::Text(value),
        ) {
            Err(e) => (holdings, Err(e)),
            Ok(df) => match set_where(
                holdings.prices,
                "asset_name"@,
                name,
                column,
                DataTypeView::Text,
                CellView::Text(value),
            ) {
                Err(e) => (HoldingsView { df, ..holdings }, Err(e)),
                Ok(prices) => (
                    HoldingsView {
                        df,
                        prices,
                        changes: both_recorded(
                            holdings,
                            ids,
                            price_ids,
                            text_cell_op(column, value),
                        ),
                        ..holdings
                    },
                    Ok(()),
                ),
            },
        },
    }
}

/// Both tables after an asset was removed.
pub open spec fn asset_removed(holdings: HoldingsView, name: Seq<char>) -> Step {
    match (
        ids_where(holdings.df, "asset_name"@, name),
        ids_where(holdings.prices, "asset_name"@, name),
    ) {
        (Err(e), _) => (holdings, Err(e)),
        (Ok(_), Err(e)) => (holdings, Err(e)),
        (Ok(ids), Ok(price_ids)) => match (
            without_matches(holdings.df, "asset_name"@, name),
            without_matches(holdings.prices, "asset_name"@, name),
        ) {
            (Ok(df), Ok(prices)) => (
                HoldingsView {
                    df,
                    prices,
                    changes: both_recorded(holdings, ids, price_ids, Ok(OpView::Delete)),
                    ..holdings
                },
                Ok(()),
            ),
            (Err(e), _) => (holdings, Err(e)),
            (_, Err(e)) => (holdings, Err(e)),
        },
    }
}

/// Both tables after an asset was added under a row id.
pub open spec fn asset_added(
    holdings: HoldingsView,
    name: Seq<char>,
    category: Seq<char>,
    link: Seq<char>,
    currency: Seq<char>,
    row_id: Seq<char>,
) -> Step {
    if !investment_category(category) {
        (holdings, Err(investment_category_error(category)))
    } else {
        match is_free(holdings.df, "asset_name"@, "Asset"@, name) {
            Err(e) => (holdings, Err(e)),
            Ok(()) => match wide_appended(
                holdings.df,
                holding_heads(),
                seq![name, category, link, currency],
                row_id,
            ) {
                Err(e) => (holdings, Err(e)),
                Ok(df) => match wide_appended(
                    holdings.prices,
                    price_heads(),
                    seq![name, category, link],
                    row_id,
                ) {
                    Err(e) => (HoldingsView { df, ..holdings }, Err(e)),
                    Ok(prices) => (
                        HoldingsView {
                            df,
                            prices,
                            changes: holdings.changes.push(
                                typed(
                                    holdings_table(holdings.year),
                                    row_id,
                                    upsert_op(df, row_id),
                                ),
                            ).push(
                                typed(
                                    prices_table(holdings.year),
                                    row_id,
                                    upsert_op(prices, row_id),
                                ),
                            ),
                            ..holdings
                        },
                        Ok(()),
                    ),
                },
            },
        }
    }
}

/// Both tables after an asset was renamed.
pub open spec fn asset_renamed(
    holdings: HoldingsView,
    old_name: Seq<char>,
    new_name: Seq<char>,
) -> Step {
    match can_rename(holdings.df, "asset_name"@, "Asset"@, old_name, new_name) {
        Err(e) => (holdings, Err(e)),
        Ok(()) => both_set(holdings, old_name, "asset_name"@, new_name),
    }
}

/// Both tables after an asset got another category.
pub open spec fn asset_category_set(
    holdings: HoldingsView,
    name: Seq<char>,
    category: Seq<char>,
) -> Step {
    match is_named(holdings.df, "asset_name"@, "Asset"@, name) {
        Err(e) => (holdings, Err(e)),
        Ok(()) => if investment_category(category) {
            both_set(holdings, name, "category"@, category)
        } else {
            (holdings, Err(investment_category_error(category)))
        },
    }
}

/// Both tables after an asset got another link.
pub open spec fn asset_link_set(holdings: HoldingsView, name: Seq<char>, link: Seq<char>) -> Step {
    match is_named(holdings.df, "asset_name"@, "Asset"@, name) {
        Err(e) => (holdings, Err(e)),
        Ok(()) => both_set(holdings, name, "link"@, link),
    }
}

/// A change to the holdings alone.
pub open spec fn in_holdings(holdings: HoldingsView, r: Result<SheetView, ErrorView>) -> Step {
    match r {
        Err(e) => (holdings, Err(e)),
        Ok(sheet) => (
            HoldingsView { df: sheet.df, changes: sheet.changes, ..holdings },
            Ok(()),
        ),
    }
}

/// A change to the prices alone.
pub open spec fn in_prices(holdings: HoldingsView, r: Result<SheetView, ErrorView>) -> Step {
    match r {
        Err(e) => (holdings, Err(e)),
        Ok(sheet) => (
            HoldingsView { prices: sheet.df, changes: sheet.changes, ..holdings },
            Ok(()),
        ),
    }
}

/// A word that is neither for a quantity nor for a price.
pub open spec fn which_error(which: Seq<char>) -> ErrorView {
    ErrorView::InvalidArgument(
        "quant_or_price must be 'quantity' or 'price', got '"@ + which + "'"@,
    )
}

/// Both tables after a quantity or a price was set.
pub open spec fn figure_set(
    holdings: HoldingsView,
    name: Seq<char>,
    month: u32,
    value: FloatBits,
    which: Seq<char>,
) -> Step {
    match label_of(month) {
        Err(e) => (holdings, Err(e)),
        Ok(label) => match is_named(holdings.df, "asset_name"@, "Asset"@, name) {
            Err(e) => (holdings, Err(e)),
            Ok(()) => if which == "quantity"@ {
                in_holdings(
                    holdings,
                    number_put(
                        SheetView { df: holdings.df, changes: holdings.changes },
                        holdings_table(holdings.year),
                        "asset_name"@,
                        name,
                        label,
                        value,
                    ),
                )
            } else if which == "price"@ {
                in_prices(
                    holdings,
                    number_put(
                        SheetView { df: holdings.prices, changes: holdings.changes },
                        prices_table(holdings.year),
                        "asset_name"@,
                        name,
                        label,
                        value,
                    ),
                )
            } else {
                (holdings, Err(which_error(which)))
            },
        },
    }
}

/// The pairs of a holding and one of its prices for the first `n` holdings, in
/// order; a holding without a price has none.
pub open spec fn pairs_among(
    rows: Seq<Seq<CellView>>,
    column: int,
    prices: Seq<Seq<CellView>>,
    price_column: int,
    n: int,
) -> Seq<(int, Option<int>)>
    decreases n,
{
    if n <= 0 {
        Seq::empty()
    } else {
        let rest = pairs_among(rows, column, prices, price_column, n - 1);
        let found = match rows[n - 1][column] {
            CellView::Text(name) => matching_rows(
                prices,
                price_column,
                name,
                prices.len() as int,
            ),
            _ => Seq::empty(),
        };
        if found.len() == 0 {
            rest.push((n - 1, None))
        } else {
            rest + found.map_values(|i: int| (n - 1, Some(i)))
        }
    }
}

/// Every holding with each of its prices, or which column is missing to pair them.
pub open spec fn priced(df: TableView, prices: TableView) -> Result<
    Seq<(int, Option<int>)>,
    ErrorView,
> {
    if !has_texts(df, "asset_name"@) || !has_texts(prices, "asset_name"@) {
        Err(key_column_error("asset_name"@))
    } else {
        Ok(
            pairs_among(
                df.rows,
                df.column_of("asset_name"@),
                prices.rows,
                prices.column_of("asset_name"@),
                df.rows.len() as int,
            ),
        )
    }
}

/// What pairs of rows say.
pub open spec fn pair_views(pairs: Seq<(usize, Option<usize>)>) -> Seq<(int, Option<int>)> {
    Seq::new(
        pairs.len(),
        |i: int|
            (
                pairs[i].0 as int,
                match pairs[i].1 {
                    Some(p) => Some(p as int),
                    None => None,
                },
            ),
    )
}

impl InvestmentHoldings {
    /// The investments of a year, from what its two files hold. Holdings stored
    /// without a currency get the reference currency. Fails for a file whose rows
    /// have no ids.
    pub fn new(
        year: i32,
        stored: Option<Table>,
        stored_prices: Option<Table>,
        reference_currency: &str,
    ) -> (r: Result<Self, Error>)
        ensures
            ({
                let path = year_path(year as int, INVESTMENTS_FILENAME@);
                let price_path = year_path(year as int, INVESTMENTS_PRICES_FILENAME@);
                match r {
                    Ok(holdings) => holdings@.year == year && holdings@.changes == Seq::<
                        ChangeView,
                    >::empty() && first_holdings(stored_view(stored), path, reference_currency@)
                        == Ok::<TableView, ErrorView>(holdings@.df) && first_prices(
                        stored_view(stored_prices),
                        price_path,
                    ) == Ok::<TableView, ErrorView>(holdings@.prices),
                    Err(e) => first_holdings(stored_view(stored), path, reference_currency@) == Err::<
                        TableView,
                        ErrorView,
                    >(e@) || (first_holdings(
                        stored_view(stored),
                        path,
                        reference_currency@,
                    ) is Ok && first_prices(stored_view(stored_prices), price_path) == Err::<
                        TableView,
                        ErrorView,
                    >(e@)),
                }
            }),
    {
        let path = get_year_summary_path(year, INVESTMENTS_FILENAME);
        let price_path = get_year_summary_path(year, INVESTMENTS_PRICES_FILENAME);
        Self::load(
            year,
            path.as_str(),
            price_path.as_str(),
            stored,
            stored_prices,
            reference_currency,
        )
    }

    /// The investments of a year that are stored at two paths.
    pub fn load(
        year: i32,
        path: &str,
        price_path: &str,
        stored: Option<Table>,
        stored_prices: Option<Table>,
        reference_currency: &str,
    ) -> (r: Result<Self, Error>)
        ensures
            match r {
                Ok(holdings) => holdings@.year == year && holdings@.changes == Seq::<
                    ChangeView,
                >::empty() && first_holdings(stored_view(stored), path@, reference_currency@)
                    == Ok::<TableView, ErrorView>(holdings@.df) && first_prices(
                    stored_view(stored_prices),
                    price_path@,
                ) == Ok::<TableView, ErrorView>(holdings@.prices),
                Err(e) => first_holdings(stored_view(stored), path@, reference_currency@) == Err::<
                    TableView,
                    ErrorView,
                >(e@) || (first_holdings(stored_view(stored), path@, reference_currency@) is Ok
                    && first_prices(stored_view(stored_prices), price_path@) == Err::<
                    TableView,
                    ErrorView,
                >(e@)),
            },
    {
        let meta: Vec<(&str, &str)> = vec![
            ("asset_name", ""),
            ("category", ""),
            ("link", ""),
            ("currency", ""),
        ];
        let price_meta: Vec<(&str, &str)> = vec![
            ("asset_name", ""),
            ("category", ""),
            ("link", ""),
        ];
        proof {
            lemma_heads();
            assert(names_of(meta@) =~= holding_heads());
            assert(names_of(price_meta@) =~= price_heads());
        }
        let mut df = match load_frame(stored, path, empty_wide_df(&meta)) {
            Ok(df) => df,
            Err(e) => return Err(e),
        };
        ensure_column(&mut df, "currency", reference_currency);
        match normalize_currency_column(&mut df) {
            Ok(()) => {},
            Err(e) => return Err(e),
        }
        let df_prices = match load_frame(stored_prices, price_path, empty_wide_df(&price_meta)) {
            Ok(df) => df,
            Err(e) => return Err(e),
        };
        let changes: Vec<Change> = Vec::new();
        assert(change_views(changes@) =~= Seq::empty());
        Ok(InvestmentHoldings { year, df, df_prices, changes })
    }

    /// Where the holdings are in the change log.
    pub fn holdings_table(&self) -> (r: ChangeTable)
        ensures
            r == holdings_table(self@.year),
    {
        ChangeTable::Investments { year: self.year }
    }

    /// Where the prices are in the change log.
    pub fn prices_table(&self) -> (r: ChangeTable)
        ensures
            r == prices_table(self@.year),
    {
        ChangeTable::InvestmentsPrices { year: self.year }
    }

    fn asset_ids(&self, asset_name: &str) -> (r: Result<(Vec<String>, Vec<String>), Error>)
        ensures
            match r {
                Ok(ids) => ids_where(self@.df, "asset_name"@, asset_name@) == Ok::<
                    Seq<Seq<char>>,
                    ErrorView,
                >(texts(ids.0@)) && ids_where(self@.prices, "asset_name"@, asset_name@) == Ok::<
                    Seq<Seq<char>>,
                    ErrorView,
                >(texts(ids.1@)),
                Err(e) => ids_where(self@.df, "asset_name"@, asset_name@) == Err::<
                    Seq<Seq<char>>,
                    ErrorView,
                >(e@) || (ids_where(self@.df, "asset_name"@, asset_name@) is Ok && ids_where(
                    self@.prices,
                    "asset_name"@,
                    asset_name@,
                ) == Err::<Seq<Seq<char>>, ErrorView>(e@)),
            },
    {
        let ids = match row_ids_where(&self.df, "asset_name", asset_name) {
            Ok(ids) => ids,
            Err(e) => return Err(e),
        };
        let price_ids = match row_ids_where(&self.df_prices, "asset_name", asset_name) {
            Ok(ids) => ids,
            Err(e) => return Err(e),
        };
        Ok((ids, price_ids))
    }

    fn record_asset(&mut self, ids: &(Vec<String>, Vec<String>), op: &ChangeOp)
        ensures
            final(self)@ == (HoldingsView {
                changes: both_recorded(old(self)@, texts(ids.0@), texts(ids.1@), Ok(op@)),
                ..old(self)@
            }),
    {
        let holdings = self.holdings_table();
        let prices = self.prices_table();
        record_rows(&mut self.changes, holdings, &ids.0, op);
        record_rows(&mut self.changes, prices, &ids.1, op);
    }

    /// Add an asset under a fresh row id, zero in every month.
    pub fn add_asset(
        &mut self,
        asset_name: &str,
        category: &str,
        link: &str,
        currency: &str,
    ) -> (r: Result<(), Error>)
        ensures
            exists|row_id: Seq<char>|
                is_random_id(row_id) && (final(self)@, outcome(r)) == #[trigger] asset_added(
                    old(self)@,
                    asset_name@,
                    category@,
                    link@,
                    currency@,
                    row_id,
                ),
    {
        let row_id = new_row_id();
        self.add_asset_with_id(row_id.as_str(), asset_name, category, link, currency)
    }

    /// Add an asset under a given row id, zero in every month. Both tables get a
    /// row; the currency is kept with the holdings only.
    pub fn add_asset_with_id(
        &mut self,
        row_id: &str,
        asset_name: &str,
        category: &str,
        link: &str,
        currency: &str,
    ) -> (r: Result<(), Error>)
        ensures
            (final(self)@, outcome(r)) == asset_added(
                old(self)@,
                asset_name@,
                category@,
                link@,
                currency@,
                row_id@,
            ),
    {
        match require_investment_category(category) {
            Ok(()) => {},
            Err(e) => return Err(e),
        }
        match require_free(&self.df, "asset_name", "Asset", asset_name) {
            Ok(()) => {},
            Err(e) => return Err(e),
        }
        let meta: Vec<(&str, &str)> = vec![
            ("asset_name", asset_name),
            ("category", category),
            ("link", link),
            ("currency", currency),
        ];
        let price_meta: Vec<(&str, &str)> = vec![
            ("asset_name", asset_name),
            ("category", category),
            ("link", link),
        ];
        proof {
            lemma_heads();
            assert(names_of(meta@) =~= holding_heads());
            assert(values_of(meta@) =~= seq![asset_name@, category@, link@, currency@]);
            assert(names_of(price_meta@) =~= price_heads());
            assert(values_of(price_meta@) =~= seq![asset_name@, category@, link@]);
        }
        match append_wide_row(&mut self.df, &meta, row_id) {
            Ok(()) => {},
            Err(e) => return Err(e),
        }
        match append_wide_row(&mut self.df_prices, &price_meta, row_id) {
            Ok(()) => {},
            Err(e) => return Err(e),
        }
        let op = upsert_row(&self.df, row_id);
        let price_op = upsert_row(&self.df_prices, row_id);
        let holdings = self.holdings_table();
        let prices = self.prices_table();
        record(&mut self.changes, holdings, row_id, op);
        record(&mut self.changes, prices, row_id, price_op);
        Ok(())
    }

    /// Remove an asset from both tables. A name that no row has is no error.
    pub fn remove_asset(&mut self, asset_name: &str) -> (r: Result<(), Error>)
        ensures
            (final(self)@, outcome(r)) == asset_removed(old(self)@, asset_name@),
    {
        let ids = match self.asset_ids(asset_name) {
            Ok(ids) => ids,
            Err(e) => return Err(e),
        };
        match remove_where(&mut self.df, "asset_name", asset_name) {
            Ok(()) => {},
            Err(e) => return Err(e),
        }
        match remove_where(&mut self.df_prices, "asset_name", asset_name) {
            Ok(()) => {},
            Err(e) => return Err(e),
        }
        self.record_asset(&ids, &ChangeOp::Delete);
        Ok(())
    }

    fn set_in_both(&mut self, asset_name: &str, column: &str, value: &str) -> (r: Result<
        (),
        Error,
    >)
        ensures
            (final(self)@, outcome(r)) == both_set(old(self)@, asset_name@, column@, value@),
    {
        let ids = match self.asset_ids(asset_name) {
            Ok(ids) => ids,
            Err(e) => return Err(e),
        };
        match set_str_where(&mut self.df, "asset_name", asset_name, column, value) {
            Ok(()) => {},
            Err(e) => return Err(e),
        }
        match set_str_where(&mut self.df_prices, "asset_name", asset_name, column, value) {
            Ok(()) => {},
            Err(e) => return Err(e),
        }
        let op = text_cell(column, value);
        self.record_asset(&ids, &op);
        Ok(())
    }

    /// Rename an asset in both tables.
    pub fn rename_asset(&mut self, old_name: &str, new_name: &str) -> (r: Result<(), Error>)
        ensures
            (final(self)@, outcome(r)) == asset_renamed(old(self)@, old_name@, new_name@),
    {
        match require_renamable(&self.df, "asset_name", "Asset", old_name, new_name) {
            Ok(()) => {},
            Err(e) => return Err(e),
        }
        self.set_in_both(old_name, "asset_name", new_name)
    }

    /// Give an asset another category in both tables.
    pub fn set_category(&mut self, asset_name: &str, category: &str) -> (r: Result<(), Error>)
        ensures
            (final(self)@, outcome(r)) == asset_category_set(old(self)@, asset_name@, category@),
    {
        match require_name(&self.df, "asset_name", "Asset", asset_name) {
            Ok(()) => {},
            Err(e) => return Err(e),
        }
        match require_investment_category(category) {
            Ok(()) => {},
            Err(e) => return Err(e),
        }
        self.set_in_both(asset_name, "category", category)
    }

    /// Give an asset another link in both tables.
    pub fn set_link(&mut self, asset_name: &str, link: &str) -> (r: Result<(), Error>)
        ensures
            (final(self)@, outcome(r)) == asset_link_set(old(self)@, asset_name@, link@),
    {
        match require_name(&self.df, "asset_name", "Asset", asset_name) {
            Ok(()) => {},
            Err(e) => return Err(e),
        }
        self.set_in_both(asset_name, "link", link)
    }

    /// Give an asset another currency, which is kept with the holdings only.
    pub fn set_currency(&mut self, asset_name: &str, currency: &str) -> (r: Result<(), Error>)
        ensures
            (final(self)@, outcome(r)) == in_holdings(
                old(self)@,
                named_text_put(
                    SheetView { df: old(self)@.df, changes: old(self)@.changes },
                    holdings_table(old(self)@.year),
                    "asset_name"@,
                    "Asset"@,
                    asset_name@,
                    "currency"@,
                    currency@,
                ),
            ),
    {
        let table = self.holdings_table();
        put_named_text(
            &mut self.df,
            &mut self.changes,
            table,
            "asset_name",
            "Asset",
            asset_name,
            "currency",
            currency,
        )
    }

    /// Set the quantity or the unit price of an asset in a month: `quant_or_price`
    /// is `quantity` or `price`.
    pub fn set_quantity_or_price(
        &mut self,
        asset_name: &str,
        month: u32,
        value: FloatBits,
        quant_or_price: &str,
    ) -> (r: Result<(), Error>)
        ensures
            (final(self)@, outcome(r)) == figure_set(
                old(self)@,
                asset_name@,
                month,
                value,
                quant_or_price@,
            ),
    {
        let label = match month_column(month) {
            Ok(label) => label,
            Err(e) => return Err(e),
        };
        match require_name(&self.df, "asset_name", "Asset", asset_name) {
            Ok(()) => {},
            Err(e) => return Err(e),
        }
        if same_text(quant_or_price, "quantity") {
            let table = self.holdings_table();
            put_number(
                &mut self.df,
                &mut self.changes,
                table,
                "asset_name",
                asset_name,
                label.as_str(),
                value,
            )
        } else if same_text(quant_or_price, "price") {
            let table = self.prices_table();
            put_number(
                &mut self.df_prices,
                &mut self.changes,
                table,
                "asset_name",
                asset_name,
                label.as_str(),
                value,
            )
        } else {
            Err(
                Error::InvalidArgument(
                    "quant_or_price must be 'quantity' or 'price', got '".to_owned().concat(
                        quant_or_price,
                    ).concat("'"),
                ),
            )
        }
    }

    /// Set the quantity of an asset in a month.
    pub fn set_quantity(&mut self, asset_name: &str, month: u32, quantity: FloatBits) -> (r: Result<
        (),
        Error,
    >)
        ensures
            (final(self)@, outcome(r)) == figure_set(
                old(self)@,
                asset_name@,
                month,
                quantity,
                "quantity"@,
            ),
    {
        self.set_quantity_or_price(asset_name, month, quantity, "quantity")
    }

    /// Set the unit price of an asset in a month.
    pub fn set_price(&mut self, asset_name: &str, month: u32, price: FloatBits) -> (r: Result<
        (),
        Error,
    >)
        ensures
            (final(self)@, outcome(r)) == figure_set(
                old(self)@,
                asset_name@,
                month,
                price,
                "price"@,
            ),
    {
        self.set_quantity_or_price(asset_name, month, price, "price")
    }

    /// Which price belongs to which holding, by position: a holding stands once for
    /// each price of its name, and once without a price if there is none. The value
    /// of a holding in a month is the product of the two figures.
    pub fn priced_rows(&self) -> (r: Result<Vec<(usize, Option<usize>)>, Error>)
        ensures
            match r {
                Ok(pairs) => priced(self@.df, self@.prices) == Ok::<
                    Seq<(int, Option<int>)>,
                    ErrorView,
                >(pair_views(pairs@)),
                Err(e) => priced(self@.df, self@.prices) == Err::<
                    Seq<(int, Option<int>)>,
                    ErrorView,
                >(e@),
            },
    {
        let c = match find_texts(&self.df, "asset_name") {
            Some(c) => c,
            None => return Err(no_texts("asset_name")),
        };
        let p = match find_texts(&self.df_prices, "asset_name") {
            Some(p) => p,
            None => return Err(no_texts("asset_name")),
        };
        let ghost rows = self@.df.rows;
        let ghost prices = self@.prices.rows;
        let mut pairs: Vec<(usize, Option<usize>)> = Vec::new();
        let mut i: usize = 0;
        assert(pair_views(pairs@) =~= Seq::empty());
        while i < self.df.height()
            invariant
                i <= self.df@.rows.len(),
                rows == self.df@.rows,
                prices == self.df_prices@.rows,
                c < self.df@.columns.len(),
                p < self.df_prices@.columns.len(),
                pair_views(pairs@) == pairs_among(rows, c as int, prices, p as int, i as int),
            decreases self.df@.rows.len() - i,
        {
            let found: Vec<usize> = match self.df.cell_at(i, c) {
                Cell::Text(name) => self.df_prices.rows_with_text(p, name.as_str()),
                _ => Vec::new(),
            };
            let ghost places = match rows[i as int][c as int] {
                CellView::Text(name) => matching_rows(
                    prices,
                    p as int,
                    name,
                    prices.len() as int,
                ),
                _ => Seq::empty(),
            };
            assert(found@.map_values(|i: usize| i as int) =~= places);
            let ghost before = pair_views(pairs@);
            if found.len() == 0 {
                pairs.push((i, None));
                assert(pair_views(pairs@) =~= before.push((i as int, None)));
            } else {
                let ghost all = before + places.map_values(|k: int| (i as int, Some(k)));
                let mut k: usize = 0;
                assert(all.take(before.len() as int) =~= before);
                while k < found.len()
                    invariant
                        k <= found.len(),
                        found@.map_values(|i: usize| i as int) == places,
                        all == before + places.map_values(|k: int| (i as int, Some(k))),
                        pair_views(pairs@) == all.take(before.len() + k),
                    decreases found.len() - k,
                {
                    assert(places[k as int] == found@[k as int] as int);
                    let ghost now = pair_views(pairs@);
                    let ghost next = all[before.len() + k];
                    pairs.push((i, Some(found[k])));
                    assert(next == (i as int, Some(found@[k as int] as int)));
                    assert(pair_views(pairs@) =~= now.push(next));
                    assert(all.take(before.len() + k + 1) =~= all.take(before.len() + k).push(
                        next,
                    ));
                    k = k + 1;
                }
                assert(all.take(all.len() as int) =~= all);
            }
            i = i + 1;
        }
        Ok(pairs)
    }
}

} // verus!
