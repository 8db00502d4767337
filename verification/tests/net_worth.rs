//! Investments, liquid assets, credits and debts, and the cashflow.

use finguard::cashflow::Cashflow;
use finguard::changes::Change;
use finguard::error::Error;
use finguard::frames::{normalize_currency_column, str_col_to_vec};
use finguard::holdings::InvestmentHoldings;
use finguard::merge_apply::{month_labels, ROW_ID_COLUMN};
use finguard::net_worth::{CreditsDebts, Liquidity};
use finguard::rows::{Number, Row, Value};
use finguard::summaries::{remove_category, summary_file};
use finguard::sync::{ChangeOp, ChangeTable};
use finguard::table::{Cell, Column, DataType, Table};

fn float(value: f64) -> u64 {
    value.to_bits()
}

fn value_of(bits: u64) -> f64 {
    f64::from_bits(bits)
}

fn text(value: &str) -> Value {
    Value::text(value)
}

fn number(value: f64) -> Value {
    Value::Number(Number::Float(float(value)))
}

fn number_at(df: &Table, column: &str, row: usize) -> Option<f64> {
    let c = df.find_column(column).expect("the column is there");
    match df.cell_at(row, c) {
        Cell::Float(number) => Some(value_of(*number)),
        _ => None,
    }
}

fn no_holdings() -> InvestmentHoldings {
    InvestmentHoldings::new(2026, None, None, "EUR").expect("no holdings yet")
}

fn only_row_id(df: &Table) -> String {
    let ids = str_col_to_vec(df, ROW_ID_COLUMN).expect("read the row ids");
    assert_eq!(ids.len(), 1, "this helper expects a single row");
    ids[0].clone()
}

fn op(change: &Change) -> &ChangeOp {
    change.op.as_ref().expect("a change the log can carry")
}

fn upserted_row(change: &Change) -> &Row {
    match op(change) {
        ChangeOp::Upsert { row } => row,
        other => panic!("expected an upsert, got {other:?}"),
    }
}

fn cell(column: &str, value: Value) -> ChangeOp {
    ChangeOp::Cell { column: column.to_string(), value }
}

/// Sum the income up as the program around the library does.
fn recompute(cashflow: &mut Cashflow) {
    let mut totals = Vec::new();
    for label in month_labels() {
        let mut income = 0.0;
        for term in cashflow.income_terms(&label).expect("the figures of a month") {
            income += value_of(term);
        }
        totals.push(float(income));
    }
    cashflow.recompute_income(&totals).expect("put the totals in");
}

fn set_income(cashflow: &mut Cashflow, month: u32, category: &str, value: f64) {
    cashflow
        .set_income(month, category, float(value))
        .expect("set the income");
    recompute(cashflow);
}

fn figure(cashflow: &Cashflow, category: &str, column: &str) -> f64 {
    value_of(cashflow.get_value(category, column).expect("read a figure"))
}

#[test]
fn set_quantity_or_price_accepts_only_quantity_and_price() {
    let mut holdings = no_holdings();
    holdings
        .add_asset("Test Asset", "Stocks/ETF", "", "EUR")
        .expect("add asset");

    holdings
        .set_quantity_or_price("Test Asset", 1, float(10.0), "quantity")
        .expect("'quantity' must be accepted");
    assert_eq!(number_at(&holdings.df, "01", 0), Some(10.0));

    holdings
        .set_quantity_or_price("Test Asset", 1, float(25.5), "price")
        .expect("'price' must be accepted");
    assert_eq!(number_at(&holdings.df_prices, "01", 0), Some(25.5));

    let qty_err = holdings
        .set_quantity_or_price("Test Asset", 1, float(1.0), "qty")
        .expect_err("'qty' must be rejected, not silently accepted");
    assert!(matches!(qty_err, Error::InvalidArgument(_)));

    let other_err = holdings
        .set_quantity_or_price("Test Asset", 1, float(1.0), "bogus")
        .expect_err("unrecognized field must be rejected");
    assert!(matches!(other_err, Error::InvalidArgument(_)));
}

#[test]
fn investment_holdings_backfill_uses_configured_reference_currency() {
    let mut columns = vec![
        Column::of("asset_name", DataType::Text),
        Column::of("category", DataType::Text),
        Column::of("link", DataType::Text),
    ];
    let mut row = vec![
        Cell::Text("Legacy Holding".to_string()),
        Cell::Text("Stocks/ETF".to_string()),
        Cell::Text(String::new()),
    ];
    for label in month_labels() {
        columns.push(Column::of(&label, DataType::Float64));
        row.push(Cell::Float(float(0.0)));
    }
    columns.push(Column::of(ROW_ID_COLUMN, DataType::Text));
    row.push(Cell::Text("legacy-id".to_string()));
    let stored = Table::of(columns, vec![row]).expect("a legacy file without a currency");

    let holdings =
        InvestmentHoldings::new(2026, Some(stored), None, "GBP").expect("load holdings");
    assert_eq!(
        str_col_to_vec(&holdings.df, "currency").expect("read currency column"),
        vec!["GBP"]
    );
}

#[test]
fn investment_holdings_load_normalizes_legacy_currency() {
    let mut holdings = no_holdings();
    holdings
        .add_asset("Legacy Asset", "Stocks/ETF", "", "E")
        .expect("add legacy asset");
    holdings
        .add_asset("Modern Asset", "Stocks/ETF", "", "USD")
        .expect("add modern asset");

    let reloaded = InvestmentHoldings::new(
        2026,
        Some(holdings.df.clone()),
        Some(holdings.df_prices.clone()),
        "EUR",
    )
    .expect("reload holdings");
    assert_eq!(
        str_col_to_vec(&reloaded.df, "currency").expect("read currency column"),
        vec!["EUR", "USD"]
    );
}

#[test]
fn cashflow_recompute_updates_income_only() {
    let mut cf = Cashflow::new(2026, None);
    set_income(&mut cf, 3, "Salary", 1000.0);
    set_income(&mut cf, 3, "Other", 200.0);

    assert_eq!(figure(&cf, "Income", "03"), 1200.0);
    assert_eq!(figure(&cf, "Spending", "03"), 0.0);
    assert_eq!(figure(&cf, "Saving", "03"), 0.0);
    assert_eq!(figure(&cf, "Saving %", "03"), 0.0);
}

#[test]
fn cashflow_recompute_preserves_legacy_derived_rows() {
    let categories = [
        "Salary",
        "Interests Bank account",
        "Dividendi e Cedole",
        "Other",
        "Income",
        "Spending",
        "Saving",
        "Saving %",
    ];
    let mut columns = vec![Column::of("category", DataType::Text)];
    for label in month_labels() {
        columns.push(Column::of(&label, DataType::Float64));
    }
    let mut rows = Vec::new();
    for category in categories {
        let mut row = vec![Cell::Text(category.to_string())];
        for label in month_labels() {
            let value = match category {
                "Salary" if label == "03" => 1000.0,
                "Spending" if label == "03" => 400.0,
                "Saving" if label == "03" => 600.0,
                "Saving %" if label == "03" => 60.0,
                "Income" if label == "03" => 1000.0,
                _ => 0.0,
            };
            row.push(Cell::Float(float(value)));
        }
        rows.push(row);
    }
    let stored = Table::of(columns, rows).expect("a legacy cashflow table");

    // Editing an unrelated month must not disturb the legacy row.
    let mut cf = Cashflow::new(2026, Some(stored));
    set_income(&mut cf, 4, "Salary", 50.0);
    assert_eq!(figure(&cf, "Spending", "03"), 400.0);
    assert_eq!(figure(&cf, "Saving", "03"), 600.0);
    assert_eq!(figure(&cf, "Saving %", "03"), 60.0);

    let reloaded = Cashflow::new(2026, Some(cf.df.clone()));
    assert_eq!(figure(&reloaded, "Spending", "03"), 400.0);
    assert_eq!(figure(&reloaded, "Saving", "03"), 600.0);
    assert_eq!(figure(&reloaded, "Saving %", "03"), 60.0);
    assert_eq!(figure(&reloaded, "Income", "04"), 50.0);
}

#[test]
fn investment_holdings_add_asset_stores_currency_on_df_only() {
    let mut holdings = no_holdings();
    holdings
        .add_asset("Test Asset", "Stocks/ETF", "", "USD")
        .expect("add asset");

    assert_eq!(
        str_col_to_vec(&holdings.df, "currency").expect("read currency column"),
        vec!["USD"]
    );
    assert!(
        !holdings.df_prices.has_column("currency"),
        "currency belongs on df only, not df_prices"
    );
}

#[test]
fn investment_holdings_df_value_unaffected_by_currency_column() {
    let mut holdings = no_holdings();
    holdings
        .add_asset("Test Asset", "Stocks/ETF", "", "USD")
        .expect("add asset");
    holdings
        .set_quantity("Test Asset", 1, float(10.0))
        .expect("set quantity");
    holdings
        .set_price("Test Asset", 1, float(25.0))
        .expect("set price");

    let pairs = holdings.priced_rows().expect("pair holdings and prices");
    assert_eq!(pairs, vec![(0, Some(0))]);
    let (row, price) = pairs[0];
    let quantity = number_at(&holdings.df, "01", row).unwrap();
    let unit = number_at(&holdings.df_prices, "01", price.unwrap()).unwrap();
    assert_eq!(Some(quantity * unit), Some(250.0));
}

#[test]
fn a_holding_stands_once_for_each_of_its_prices() {
    let mut holdings = no_holdings();
    holdings.add_asset("A", "Bonds", "", "EUR").unwrap();
    holdings.add_asset("B", "Bonds", "", "EUR").unwrap();
    // A second price row for B, and no price row for A.
    let mut prices = holdings.df_prices.clone();
    prices.remove_row(0);
    let copy: Vec<Cell> = (0..prices.width()).map(|c| prices.cell_at(0, c).clone()).collect();
    prices.push_row(copy);
    holdings.df_prices = prices;
    assert_eq!(
        holdings.priced_rows().unwrap(),
        vec![(0, None), (1, Some(0)), (1, Some(1))]
    );
}

#[test]
fn normalize_currency_column_maps_legacy_e_to_eur() {
    let rows = ["E", "USD", "E"]
        .iter()
        .map(|code| vec![Cell::Text(code.to_string())])
        .collect();
    let mut df = Table::of(vec![Column::of("currency", DataType::Text)], rows).unwrap();

    normalize_currency_column(&mut df).expect("normalize currency column");

    assert_eq!(
        str_col_to_vec(&df, "currency").expect("read currency column"),
        vec!["EUR", "USD", "EUR"]
    );
}

#[test]
fn normalize_currency_column_is_noop_without_currency_column() {
    let df = Table::of(
        vec![Column::of("asset_name", DataType::Text)],
        vec![vec![Cell::Text("Test".to_string())]],
    )
    .unwrap();
    let mut normalized = df.clone();

    normalize_currency_column(&mut normalized).expect("normalize currency column");

    assert_eq!(normalized, df);
}

#[test]
fn liquidity_load_normalizes_legacy_currency() {
    let mut liq = Liquidity::new(2026, None).expect("load liquidity");
    liq.add_asset("Legacy Account", "Cash", "E").expect("add legacy asset");
    liq.add_asset("Modern Account", "Cash", "USD").expect("add modern asset");

    let reloaded = Liquidity::new(2026, Some(liq.df.clone())).expect("reload liquidity");
    assert_eq!(
        str_col_to_vec(&reloaded.df, "currency").expect("read currency column"),
        vec!["EUR", "USD"]
    );
}

#[test]
fn credits_debts_load_normalizes_legacy_currency() {
    let mut cd = CreditsDebts::new(2026, None).expect("load credits/debts");
    cd.add_entry("Legacy Loan", "E").expect("add legacy entry");
    cd.add_entry("Modern Loan", "USD").expect("add modern entry");

    let reloaded = CreditsDebts::new(2026, Some(cd.df.clone())).expect("reload credits/debts");
    assert_eq!(
        str_col_to_vec(&reloaded.df, "currency").expect("read currency column"),
        vec!["EUR", "USD"]
    );
}

#[test]
fn a_liquidity_row_records_a_cell_per_edit() {
    let mut liquidity = Liquidity::new(2026, None).expect("load liquidity");
    liquidity.add_asset("Main", "Cash", "EUR").expect("add the account");
    let row_id = only_row_id(&liquidity.df);
    liquidity.set_value("Main", 3, float(120.5)).expect("set the march value");
    liquidity.set_category("Main", "Other").expect("set the category");
    liquidity.set_currency("Main", "USD").expect("set the currency");
    liquidity.rename_asset("Main", "Wallet").expect("rename the account");
    liquidity.remove_asset("Wallet").expect("remove the account");

    let changes = &liquidity.changes;
    assert_eq!(changes.len(), 6, "one entry per change");
    for change in changes {
        assert_eq!(change.table, ChangeTable::Liquidity { year: 2026 });
        assert_eq!(change.row_id, row_id);
        assert_eq!(change.origin, None);
    }

    let created = upserted_row(&changes[0]);
    assert_eq!(created.get("asset_name"), Some(&text("Main")));
    assert_eq!(created.get("currency"), Some(&text("EUR")));
    assert_eq!(created.get("01"), Some(&number(0.0)));
    assert_eq!(created.get("row_id"), Some(&text(&row_id)));

    assert_eq!(op(&changes[1]), &cell("03", number(120.5)));
    assert_eq!(op(&changes[2]), &cell("category", text("Other")));
    assert_eq!(op(&changes[3]), &cell("currency", text("USD")));
    assert_eq!(op(&changes[4]), &cell("asset_name", text("Wallet")));
    assert_eq!(op(&changes[5]), &ChangeOp::Delete);
    assert_eq!(liquidity.df.height(), 0);
}

#[test]
fn a_credit_or_debt_row_records_a_cell_per_edit() {
    let mut credits_debts = CreditsDebts::new(2026, None).expect("load credits and debts");
    credits_debts.add_entry("Mortgage", "EUR").expect("add the entry");
    let row_id = only_row_id(&credits_debts.df);
    credits_debts
        .set_value("Mortgage", 12, float(-40_600.0))
        .expect("set the december value");
    credits_debts
        .rename_entry("Mortgage", "House loan")
        .expect("rename the entry");
    credits_debts
        .set_currency("House loan", "USD")
        .expect("set the currency");
    credits_debts.remove_entry("House loan").expect("remove the entry");

    let changes = &credits_debts.changes;
    assert_eq!(changes.len(), 5);
    for change in changes {
        assert_eq!(change.table, ChangeTable::CreditsDebts { year: 2026 });
        assert_eq!(change.row_id, row_id);
    }
    assert_eq!(op(&changes[1]), &cell("12", number(-40_600.0)));
    assert_eq!(op(&changes[2]), &cell("name", text("House loan")));
    assert_eq!(op(&changes[4]), &ChangeOp::Delete);
}

#[test]
fn an_investment_change_names_the_file_it_changed() {
    let holdings_table = ChangeTable::Investments { year: 2026 };
    let prices_table = ChangeTable::InvestmentsPrices { year: 2026 };

    let mut holdings = no_holdings();
    holdings
        .add_asset("VWCE", "Stocks/ETF", "https://example.invalid/vwce", "EUR")
        .expect("add the asset");
    let row_id = only_row_id(&holdings.df);
    assert_eq!(
        only_row_id(&holdings.df_prices),
        row_id,
        "one asset, one row ID in both files"
    );
    holdings.set_quantity("VWCE", 1, float(10.0)).expect("set the quantity");
    holdings.set_price("VWCE", 1, float(25.5)).expect("set the price");
    holdings.set_currency("VWCE", "USD").expect("set the currency");
    holdings
        .set_link("VWCE", "https://example.invalid/new")
        .expect("set the link");
    holdings.remove_asset("VWCE").expect("remove the asset");

    let changes = &holdings.changes;
    assert!(
        changes.iter().all(|change| change.row_id == row_id),
        "every entry belongs to the one asset"
    );
    let tables: Vec<ChangeTable> = changes.iter().map(|change| change.table).collect();
    assert_eq!(
        tables,
        vec![
            holdings_table, // the new holdings row
            prices_table,   // the new prices row
            holdings_table, // the quantity
            prices_table,   // the price
            holdings_table, // the currency, which lives on holdings only
            holdings_table, // the link, on both files
            prices_table,
            holdings_table, // the delete, on both files
            prices_table,
        ]
    );
    assert_eq!(op(&changes[2]), &cell("01", number(10.0)));
    assert_eq!(op(&changes[3]), &cell("01", number(25.5)));
    assert_eq!(op(&changes[4]), &cell("currency", text("USD")));
    assert_eq!(op(&changes[7]), &ChangeOp::Delete);
    assert_eq!(op(&changes[8]), &ChangeOp::Delete);
}

#[test]
fn an_income_edit_records_one_cell_and_nothing_derived() {
    let mut cashflow = Cashflow::new(2026, None);
    set_income(&mut cashflow, 3, "Salary", 1_000.0);
    set_income(&mut cashflow, 3, "Other", 200.0);
    assert_eq!(
        figure(&cashflow, "Income", "03"),
        1_200.0,
        "the derived row is still computed, it is just not recorded"
    );

    let changes = &cashflow.changes;
    assert_eq!(changes.len(), 2);
    for change in changes {
        assert_eq!(change.table, ChangeTable::CashflowIncome { year: 2026 });
    }
    assert_eq!(changes[0].row_id, "Salary");
    assert_eq!(op(&changes[0]), &cell("03", number(1_000.0)));
    assert_eq!(changes[1].row_id, "Other");
    assert!(
        changes.iter().all(|change| change.row_id != "Income"),
        "the derived row must record nothing"
    );
}

#[test]
fn an_income_edit_is_checked() {
    let mut cashflow = Cashflow::new(2026, None);
    let before = cashflow.df.clone();
    assert_eq!(
        cashflow.set_income(3, "Income", float(1.0)).unwrap_err().message(),
        "'Income' is not a valid income category. Choose from: [\"Salary\", \"Interests Bank account\", \"Dividendi e Cedole\", \"Other\"]"
    );
    assert_eq!(
        cashflow.set_income(13, "Salary", float(1.0)).unwrap_err().message(),
        "month must be between 1 and 12, got 13"
    );
    assert_eq!(cashflow.df, before);
    assert!(cashflow.changes.is_empty());
}

#[test]
fn an_absent_row_reads_as_zero() {
    let cashflow = Cashflow::new(2026, None);
    assert_eq!(figure(&cashflow, "No such row", "03"), 0.0);
    assert!(matches!(
        cashflow.get_value("Salary", "no such column"),
        Err(Error::Polars(_))
    ));
    // A column that is not there matters only once a row is.
    assert_eq!(
        cashflow.get_value("No such row", "no such column").unwrap(),
        float(0.0)
    );
}

#[test]
fn a_number_the_log_cannot_carry_is_set_and_not_recorded() {
    let mut liquidity = Liquidity::new(2026, None).unwrap();
    liquidity.add_asset("Main", "Cash", "EUR").unwrap();
    liquidity.set_value("Main", 1, float(f64::INFINITY)).expect("the value is set");
    assert_eq!(number_at(&liquidity.df, "01", 0), Some(f64::INFINITY));
    assert!(matches!(liquidity.changes[1].op, Err(Error::InvalidArgument(_))));
}

#[test]
fn names_are_checked() {
    let mut liquidity = Liquidity::new(2026, None).unwrap();
    assert_eq!(
        liquidity.add_asset("Main", "Gold", "EUR").unwrap_err().message(),
        "'Gold' is not a valid category. Choose from: [\"Bank/Broker account\", \"Cash\", \"Other\"]"
    );
    liquidity.add_asset("Main", "Cash", "EUR").unwrap();
    liquidity.add_asset("Rest", "Other", "EUR").unwrap();
    assert_eq!(
        liquidity.add_asset("Main", "Cash", "EUR").unwrap_err().message(),
        "Asset 'Main' already exists."
    );
    assert_eq!(
        liquidity.rename_asset("None", "Other").unwrap_err().message(),
        "Asset 'None' not found."
    );
    assert_eq!(
        liquidity.rename_asset("Main", "Rest").unwrap_err().message(),
        "Asset 'Rest' already exists."
    );
    liquidity.rename_asset("Main", "Main").expect("a name may stay as it is");
    // What is asked for first is reported first.
    assert_eq!(
        liquidity.set_category("None", "Gold").unwrap_err().message(),
        "Asset 'None' not found."
    );
    assert_eq!(
        liquidity.set_value("None", 0, float(1.0)).unwrap_err().message(),
        "month must be between 1 and 12, got 0"
    );
    liquidity.remove_asset("None").expect("removing what is not there changes nothing");
    assert_eq!(liquidity.df.height(), 2);

    let mut credits = CreditsDebts::new(2026, None).unwrap();
    credits.add_entry("Loan", "EUR").unwrap();
    assert_eq!(
        credits.add_entry("Loan", "EUR").unwrap_err().message(),
        "Entry 'Loan' already exists."
    );
    assert_eq!(
        credits.set_currency("None", "USD").unwrap_err().message(),
        "Entry 'None' not found."
    );

    let mut holdings = no_holdings();
    assert_eq!(
        holdings.add_asset("A", "Cash", "", "EUR").unwrap_err().message(),
        "'Cash' is not a valid category. Choose from: [\"Stocks/ETF\", \"Commodities\", \"Bonds\"]"
    );
    holdings.add_asset("A", "Bonds", "", "EUR").unwrap();
    assert_eq!(
        holdings
            .set_quantity_or_price("A", 1, float(1.0), "qty")
            .unwrap_err()
            .message(),
        "quant_or_price must be 'quantity' or 'price', got 'qty'"
    );
}

#[test]
fn an_edit_of_one_month_leaves_the_others_alone() {
    let mut liquidity = Liquidity::new(2026, None).unwrap();
    liquidity.add_asset("Main", "Cash", "EUR").unwrap();
    liquidity.add_asset("Rest", "Cash", "EUR").unwrap();
    liquidity.set_value("Rest", 5, float(7.0)).unwrap();
    for label in month_labels() {
        let expected = if label == "05" { 7.0 } else { 0.0 };
        assert_eq!(number_at(&liquidity.df, &label, 0), Some(0.0));
        assert_eq!(number_at(&liquidity.df, &label, 1), Some(expected));
    }
}

#[test]
fn a_removed_asset_is_gone_from_both_files() {
    let mut holdings = no_holdings();
    holdings.add_asset("A", "Bonds", "", "EUR").unwrap();
    holdings.add_asset("B", "Bonds", "", "EUR").unwrap();
    holdings.remove_asset("A").unwrap();
    assert_eq!(str_col_to_vec(&holdings.df, "asset_name").unwrap(), vec!["B"]);
    assert_eq!(str_col_to_vec(&holdings.df_prices, "asset_name").unwrap(), vec!["B"]);
}

#[test]
fn a_file_without_row_ids_is_refused() {
    let stored = Table::of(
        vec![
            Column::of("name", DataType::Text),
            Column::of(ROW_ID_COLUMN, DataType::Text),
        ],
        vec![vec![Cell::Text("Loan".to_string()), Cell::Null]],
    )
    .unwrap();
    let err = CreditsDebts::new(2026, Some(stored)).err().expect("refused");
    assert!(matches!(err, Error::RowIdsMissing(_)));
    assert_eq!(
        err.message(),
        "2026/credits_debts.parquet has rows without a row ID. Restart the finguard backend: at startup it backs up the data folder and assigns the missing row IDs."
    );
}

#[test]
fn the_type_of_a_credit_is_dropped_on_load() {
    let stored = Table::of(
        vec![
            Column::of("name", DataType::Text),
            Column::of("type", DataType::Text),
            Column::of(ROW_ID_COLUMN, DataType::Text),
        ],
        vec![vec![
            Cell::Text("Loan".to_string()),
            Cell::Text("debt".to_string()),
            Cell::Text("id".to_string()),
        ]],
    )
    .unwrap();
    let credits = CreditsDebts::new(2026, Some(stored)).unwrap();
    assert!(!credits.df.has_column("type"));
    assert_eq!(str_col_to_vec(&credits.df, "currency").unwrap(), vec!["EUR"]);
}

#[test]
fn a_category_is_taken_out_of_a_summary() {
    assert_eq!(summary_file("primary").unwrap(), "primaries.parquet");
    assert_eq!(summary_file("secondary").unwrap(), "secondaries.parquet");
    assert_eq!(
        summary_file("third").unwrap_err().message(),
        "kind must be 'primary' or 'secondary', got 'third'"
    );

    let column = Column::of("primary_category", DataType::Text);
    let rows = vec![
        vec![Cell::Text("Housing".to_string())],
        vec![Cell::Text("Out".to_string())],
    ];
    let mut df = Table::of(vec![column], rows).unwrap();
    let before = df.clone();
    assert!(!remove_category(&mut df, "primary", "Gifts").unwrap());
    assert_eq!(df, before);
    assert!(!remove_category(&mut df, "secondary", "Out").unwrap());
    assert_eq!(df, before);
    assert!(remove_category(&mut df, "primary", "Out").unwrap());
    assert_eq!(str_col_to_vec(&df, "primary_category").unwrap(), vec!["Housing"]);
}
