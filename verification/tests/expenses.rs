//! The expenses of a month: adding, editing, deleting, finding, and what they are
//! worth in the reference currency.

use finguard::categories::{normalize_category_value, resolve_category, spell};
use finguard::changes::Change;
use finguard::config::{CategoryMapping, KnownCategories};
use finguard::dates::Date;
use finguard::error::Error;
use finguard::expenses::{empty_expenses_df, needs_mapping, DetailedExpenses};
use finguard::facts::{
    add_year, all_facts, date_col_to_vec, distinct_rate_keys, facts_from_df, resolve_fact,
    ExpenseFact,
};
use finguard::filters::{filter_by, flags_of, rank_of, regex_escape};
use finguard::frames::{needs_row_ids, remove_where, set_f64_where, str_col_to_vec};
use finguard::fx::{Quote, Rate, ResolvedRate};
use finguard::fx_keys::RateMap;
use finguard::merge_apply::ROW_ID_COLUMN;
use finguard::recurring::RecurringExpenses;
use finguard::rows::{Number, Row, Value};
use finguard::sync::{ChangeOp, ChangeTable};
use finguard::table::{Cell, Column, DataType, Table};

fn float(value: f64) -> u64 {
    value.to_bits()
}

fn value_of(bits: u64) -> f64 {
    f64::from_bits(bits)
}

fn quoted(quote: Quote) -> f64 {
    match quote {
        Quote::Euro => 1.0,
        Quote::Published(bits) => f64::from_bits(bits),
    }
}

fn rate_value(rate: Rate) -> f64 {
    match rate {
        Rate::One => 1.0,
        Rate::Cross { reference, currency } => quoted(reference) / quoted(currency),
    }
}

fn day(year: i32, month: u32, day: u32) -> Date {
    Date::from_ymd(year, month, day).expect("a date")
}

fn text(value: &str) -> Value {
    Value::text(value)
}

fn number(value: f64) -> Value {
    Value::Number(Number::Float(float(value)))
}

fn words(values: &[&str]) -> Vec<Cell> {
    values.iter().map(|value| Cell::Text(value.to_string())).collect()
}

fn amounts(values: &[f64]) -> Vec<Cell> {
    values.iter().map(|value| Cell::Float(float(*value))).collect()
}

/// A table from its columns.
fn table(columns: Vec<(&str, DataType, Vec<Cell>)>) -> Table {
    let height = columns[0].2.len();
    let rows = (0..height)
        .map(|row| columns.iter().map(|column| column.2[row].clone()).collect())
        .collect();
    let heads = columns
        .iter()
        .map(|(name, dtype, _)| Column::of(name, dtype.clone()))
        .collect();
    Table::of(heads, rows).expect("a regular table")
}

fn number_at(df: &Table, column: &str, row: usize) -> Option<f64> {
    let c = df.find_column(column).expect("the column is there");
    match df.cell_at(row, c) {
        Cell::Float(number) => Some(value_of(*number)),
        _ => None,
    }
}

fn march() -> DetailedExpenses {
    DetailedExpenses::new(2026, 3, None).expect("an empty month")
}

fn op(change: &Change) -> &ChangeOp {
    change.op.as_ref().expect("a change the log can carry")
}

fn upserted_row(change: &Change) -> &Row {
    match op(change) {
        ChangeOp::Upsert { row } => row,
        other => panic!("expected an upsert, got {other:?}"),
    }
}

#[test]
fn detailed_expenses_load_normalizes_legacy_currency() {
    let mut de = DetailedExpenses::new(2026, 1, None).expect("load detailed expenses");
    de.add_row("Legacy Purchase", 1, float(10.0), Some("Housing"), "E", Some("Rent"), None)
        .expect("add legacy expense row");
    de.add_row("Modern Purchase", 1, float(10.0), Some("Housing"), "USD", Some("Rent"), None)
        .expect("add modern expense row");

    let reloaded =
        DetailedExpenses::new(2026, 1, Some(de.expense_df.clone())).expect("reload expenses");
    assert_eq!(
        str_col_to_vec(&reloaded.expense_df, "currency").expect("read currency column"),
        vec!["EUR", "USD"]
    );
}

#[test]
fn load_drops_stale_fx_columns_but_keeps_facts() {
    let date = day(2026, 9, 4).days();
    let stored = table(vec![
        ("expense_name", DataType::Text, words(&["Old Rent"])),
        ("expense_date", DataType::Date, vec![Cell::Date(date)]),
        ("expense_amount", DataType::Float64, amounts(&[1_200.0])),
        ("currency", DataType::Text, words(&["EUR"])),
        ("expense_in_ref_currency", DataType::Float64, amounts(&[1_200.0])),
        ("fx_rate", DataType::Float64, amounts(&[1.0])),
        ("rate_date", DataType::Date, vec![Cell::Date(date)]),
        ("primary_category", DataType::Text, words(&["Housing"])),
        ("secondary_category", DataType::Text, words(&["Rent"])),
        (ROW_ID_COLUMN, DataType::Text, words(&["old-rent-id"])),
    ]);

    let de = DetailedExpenses::new(2026, 9, Some(stored)).expect("load and drop stale columns");

    for stale_column in ["expense_in_ref_currency", "fx_rate", "rate_date"] {
        assert!(
            !de.expense_df.has_column(stale_column),
            "'{stale_column}' must be dropped on load"
        );
    }
    assert_eq!(
        number_at(&de.expense_df, "expense_amount", 0),
        Some(1_200.0),
        "the stored amount must survive dropping the stale columns"
    );
    assert_eq!(str_col_to_vec(&de.expense_df, "currency").unwrap(), vec!["EUR"]);
}

#[test]
fn a_column_of_day_counts_is_read_as_dates() {
    let stored = table(vec![
        (
            "expense_date",
            DataType::Int64,
            vec![Cell::Int(20_000), Cell::Null, Cell::Int(1 << 40)],
        ),
        (ROW_ID_COLUMN, DataType::Text, words(&["a", "b", "c"])),
    ]);
    let de = DetailedExpenses::new(2026, 9, Some(stored)).unwrap();
    let c = de.expense_df.find_column("expense_date").unwrap();
    assert_eq!(de.expense_df.column_at(c).dtype, DataType::Date);
    assert_eq!(de.expense_df.cell_at(0, c), &Cell::Date(20_000));
    assert_eq!(de.expense_df.cell_at(1, c), &Cell::Null);
    assert_eq!(de.expense_df.cell_at(2, c), &Cell::Null);
}

/// A month whose dates are of a type.
fn dated(dtype: DataType, cells: Vec<Cell>) -> Result<DetailedExpenses, Error> {
    let ids: Vec<String> = (0..cells.len()).map(|row| row.to_string()).collect();
    let ids: Vec<&str> = ids.iter().map(String::as_str).collect();
    let stored = table(vec![
        ("expense_date", dtype, cells),
        (ROW_ID_COLUMN, DataType::Text, words(&ids)),
    ]);
    DetailedExpenses::new(2026, 9, Some(stored))
}

fn date_cells(de: &DetailedExpenses) -> Vec<Cell> {
    let c = de.expense_df.find_column("expense_date").unwrap();
    assert_eq!(de.expense_df.column_at(c).dtype, DataType::Date);
    (0..de.expense_df.height()).map(|row| de.expense_df.cell_at(row, c).clone()).collect()
}

#[test]
fn a_column_of_texts_is_read_as_dates() {
    let texts = ["2024-10-04", "1969-12-31", "2024-13-01", "soon", ""];
    let de = dated(DataType::Text, words(&texts)).unwrap();
    assert_eq!(
        date_cells(&de),
        vec![Cell::Date(20_000), Cell::Date(-1), Cell::Null, Cell::Null, Cell::Null]
    );
}

#[test]
fn a_column_of_floats_is_read_as_day_counts() {
    let days = [20_000.9, -1.9, 0.4, 2_147_483_647.5, 2_147_483_648.0, -2_147_483_648.9, f64::NAN];
    let mut cells: Vec<Cell> = days.iter().map(|day| Cell::Float(day.to_bits())).collect();
    cells.push(Cell::Null);
    let de = dated(DataType::Float64, cells).unwrap();
    assert_eq!(
        date_cells(&de),
        vec![
            Cell::Date(20_000),
            Cell::Date(-1),
            Cell::Date(0),
            Cell::Date(i32::MAX),
            Cell::Null,
            Cell::Date(i32::MIN),
            Cell::Null,
            Cell::Null,
        ]
    );
}

#[test]
fn a_column_of_truth_values_counts_one_day_or_none() {
    let flags = vec![Cell::Bool(true), Cell::Bool(false), Cell::Null];
    let de = dated(DataType::Boolean, flags).unwrap();
    assert_eq!(date_cells(&de), vec![Cell::Date(1), Cell::Date(0), Cell::Null]);
}

#[test]
fn dates_of_a_type_that_is_only_carried_along_are_refused() {
    let other = DataType::Other("datetime".to_string());
    assert!(matches!(dated(other, vec![Cell::Opaque(0)]), Err(Error::Polars(_))));
}

#[test]
fn a_month_has_to_exist_and_to_have_row_ids() {
    let err = DetailedExpenses::new(2026, 13, None).err().expect("refused");
    assert_eq!(err.message(), "month must be between 1 and 12, got 13");

    let stored = table(vec![("expense_name", DataType::Text, words(&["Rent"]))]);
    assert!(needs_row_ids(&stored));
    let err = DetailedExpenses::new(2026, 9, Some(stored)).err().expect("refused");
    assert!(matches!(err, Error::RowIdsMissing(_)));
    assert_eq!(
        err.message(),
        "2026/09_detailed_expenses.parquet has rows without a row ID. Restart the finguard backend: at startup it backs up the data folder and assigns the missing row IDs."
    );

    let de = DetailedExpenses::from_path("dbs/2025/07_detailed_expenses.parquet", None).unwrap();
    assert_eq!((de.year, de.month), (2025, 7));
    assert_eq!(de.expense_df, empty_expenses_df());
    assert!(DetailedExpenses::from_path("dbs/july.parquet", None).is_err());
}

#[test]
fn resolve_fact_identity_for_reference_currency() {
    let expense_date = day(2026, 9, 4);
    let fact = ExpenseFact {
        expense_date,
        currency: "EUR".to_string(),
        expense_amount: float(100.0),
        primary_category: "Housing".to_string(),
        secondary_category: "Rent".to_string(),
    };

    let (rate, rate_date) = resolve_fact(&fact, "EUR", &RateMap::new()).unwrap();
    assert_eq!(rate_value(rate), 1.0);
    assert_eq!(rate_date, expense_date);
}

#[test]
fn resolve_fact_uses_the_pre_resolved_rate_for_its_own_date() {
    let expense_date = day(2026, 9, 4);
    let published_date = day(2026, 9, 3);
    let fact = ExpenseFact {
        expense_date,
        currency: "usd".to_string(),
        expense_amount: float(100.0),
        primary_category: "Groceries".to_string(),
        secondary_category: "OtherGroceries".to_string(),
    };
    let mut rates = RateMap::new();
    rates.insert(
        expense_date,
        "USD".to_string(),
        ResolvedRate {
            rate: Rate::Cross {
                reference: Quote::Published(0.86_f64.to_bits()),
                currency: Quote::Euro,
            },
            rate_date: Some(published_date),
        },
    );

    let (rate, rate_date) = resolve_fact(&fact, "EUR", &rates).unwrap();
    assert_eq!(rate_value(rate), 0.86);
    assert_eq!(rate_date, published_date);
}

#[test]
fn resolve_fact_errors_when_the_pair_was_not_resolved() {
    let fact = ExpenseFact {
        expense_date: day(2026, 9, 4),
        currency: "USD".to_string(),
        expense_amount: float(100.0),
        primary_category: "Groceries".to_string(),
        secondary_category: "OtherGroceries".to_string(),
    };

    let err = resolve_fact(&fact, "EUR", &RateMap::new()).unwrap_err();
    assert!(matches!(err, Error::NotFound(_)));
    assert_eq!(
        err.message(),
        "no resolved FX rate for 'USD' on 2026-09-04; it was not included in the rates passed to resolve_fact"
    );
}

#[test]
fn date_col_to_vec_preserves_nulls_instead_of_inventing_epoch() {
    let df = table(vec![(
        "expense_date",
        DataType::Date,
        vec![Cell::Date(20700), Cell::Null],
    )]);

    let dates = date_col_to_vec(&df, "expense_date").expect("read dates");

    assert_eq!(dates.len(), 2);
    assert_eq!(dates[0], Date::from_days(20700));
    assert_eq!(dates[1], None);
}

#[test]
fn facts_from_df_skips_rows_without_a_date() {
    let df = table(vec![
        ("expense_date", DataType::Date, vec![Cell::Date(20700), Cell::Null]),
        ("currency", DataType::Text, words(&["EUR", "USD"])),
        ("expense_amount", DataType::Float64, amounts(&[10.0, 20.0])),
        ("primary_category", DataType::Text, words(&["A", "B"])),
        ("secondary_category", DataType::Text, words(&["a", "b"])),
    ]);

    let facts = facts_from_df(&df).expect("read facts");

    assert_eq!(facts.len(), 1);
    assert_eq!(facts[0].currency, "EUR");
    assert_eq!(value_of(facts[0].expense_amount), 10.0);
}

fn fact(date: Date, currency: &str, amount: f64) -> ExpenseFact {
    ExpenseFact {
        expense_date: date,
        currency: currency.to_string(),
        expense_amount: float(amount),
        primary_category: String::new(),
        secondary_category: String::new(),
    }
}

#[test]
fn distinct_rate_keys_dedupes_and_excludes_the_reference_currency() {
    let date = day(2026, 9, 4);
    let facts = vec![
        fact(date, "usd", 10.0),
        fact(date, "USD", 20.0),
        fact(date, "EUR", 30.0),
    ];

    assert_eq!(distinct_rate_keys(&facts, "eur"), vec![(date, "USD".to_string())]);
}

#[test]
fn rate_keys_come_by_day_and_then_by_code() {
    let facts = vec![
        fact(day(2026, 9, 5), "usd", 1.0),
        fact(day(2026, 9, 4), " usd ", 1.0),
        fact(day(2026, 9, 4), "GBP", 1.0),
        fact(day(2026, 9, 5), "USD", 1.0),
    ];
    assert_eq!(
        distinct_rate_keys(&facts, "EUR"),
        vec![
            (day(2026, 9, 4), "GBP".to_string()),
            (day(2026, 9, 4), "USD".to_string()),
            (day(2026, 9, 5), "USD".to_string()),
        ]
    );
}

#[test]
fn a_year_that_cannot_be_read_adds_nothing_unless_it_waits_for_row_ids() {
    let mut facts = Vec::new();
    add_year(&mut facts, Ok(vec![fact(day(2026, 1, 1), "EUR", 1.0)])).unwrap();
    add_year(&mut facts, Err(Error::Io("gone".to_string()))).unwrap();
    assert_eq!(facts.len(), 1);
    let waiting = add_year(&mut facts, Err(Error::RowIdsMissing("wait".to_string())));
    assert_eq!(waiting, Err(Error::RowIdsMissing("wait".to_string())));

    let kept = all_facts(facts, Err(Error::Io("gone".to_string()))).unwrap();
    assert_eq!(kept.len(), 1);
    assert!(all_facts(kept, waiting).is_err());
}

#[test]
fn duplicate_row_id_changes_nothing() {
    let date = day(2026, 9, 4).days();
    let expenses = table(vec![
        ("expense_name", DataType::Text, words(&["Rent", "Tea", "Bus"])),
        ("expense_date", DataType::Date, vec![Cell::Date(date), Cell::Date(date), Cell::Date(date)]),
        ("expense_amount", DataType::Float64, amounts(&[900.0, 3.0, 2.0])),
        ("currency", DataType::Text, words(&["EUR", "EUR", "EUR"])),
        ("primary_category", DataType::Text, words(&["Housing", "Out", "Transport"])),
        ("secondary_category", DataType::Text, words(&["Rent", "Cafe", "Bus"])),
        (ROW_ID_COLUMN, DataType::Text, words(&["twin", "twin", "single"])),
    ]);

    let mut de = DetailedExpenses::new(2026, 9, Some(expenses.clone())).unwrap();
    let err = de.delete_row("twin").expect_err("delete must refuse");
    assert!(matches!(err, Error::AlreadyExists(_)), "{err:?}");
    assert!(err.message().contains("nothing was changed"), "{err:?}");
    assert_eq!(
        err.message(),
        "2 expense rows in 2026-09 share the id 'twin', so nothing was changed. Each row ID must be unique; the data file needs repair."
    );
    let err = de
        .edit_row("twin", Some("Changed"), None, None, None, None, None, None)
        .expect_err("edit must refuse");
    assert!(matches!(err, Error::AlreadyExists(_)), "{err:?}");
    assert_eq!(de.expense_df, expenses);
    assert!(de.changes.is_empty());
    assert_eq!(de.expense_df.height(), 3);

    // The unique row is still editable and deletable.
    de.delete_row("single").expect("a unique row_id still deletes");
    assert_eq!(de.expense_df.height(), 2);

    let recurring = table(vec![
        ("expense_name", DataType::Text, words(&["Gym", "Gym"])),
        ("expense_day", DataType::Int64, vec![Cell::Int(5), Cell::Int(5)]),
        ("expense_amount", DataType::Float64, amounts(&[40.0, 40.0])),
        ("currency", DataType::Text, words(&["EUR", "EUR"])),
        ("primary_category", DataType::Text, words(&["Leisure", "Leisure"])),
        ("secondary_category", DataType::Text, words(&["Gym", "Gym"])),
        (ROW_ID_COLUMN, DataType::Text, words(&["twin", "twin"])),
    ]);
    let mut rec = RecurringExpenses::new(2026, Some(recurring.clone())).unwrap();
    let err = rec.remove("twin").expect_err("remove must refuse");
    assert!(matches!(err, Error::AlreadyExists(_)), "{err:?}");
    assert_eq!(rec.df, recurring);
    assert_eq!(rec.df.height(), 2);
}

#[test]
fn an_expense_records_its_create_edit_and_delete() {
    let mut de = march();
    let row_id = de
        .add_row("Rent", 4, float(1_000.0), Some("Housing"), "EUR", Some("Rent"), None)
        .expect("add the row");
    de.edit_row(&row_id, Some("Rent March"), None, Some(float(1_100.0)), None, None, None, None)
        .expect("edit the row");
    de.delete_row(&row_id).expect("delete the row");

    let changes = &de.changes;
    assert_eq!(changes.len(), 3, "one entry per change");
    for change in changes {
        assert_eq!(change.row_id, row_id);
        assert_eq!(change.table, ChangeTable::Expenses { year: 2026, month: 3 });
        assert_eq!(change.origin, None, "a typed row carries no origin");
    }

    let created = upserted_row(&changes[0]);
    assert_eq!(created.get("expense_name"), Some(&text("Rent")));
    assert_eq!(created.get("expense_amount"), Some(&number(1_000.0)));
    assert_eq!(created.get("currency"), Some(&text("EUR")));
    assert_eq!(created.get("row_id"), Some(&text(&row_id)));
    // A date is carried as the day it names, not as a day count.
    assert_eq!(created.get("expense_date"), Some(&text("2026-03-04")));

    let edited = upserted_row(&changes[1]);
    assert_eq!(edited.get("expense_name"), Some(&text("Rent March")));
    assert_eq!(edited.get("expense_amount"), Some(&number(1_100.0)));
    assert_eq!(edited.get("row_id"), Some(&text(&row_id)));

    assert_eq!(op(&changes[2]), &ChangeOp::Delete);
    assert_eq!(de.expense_df, empty_expenses_df());
}

#[test]
fn a_change_the_log_cannot_record_is_still_saved() {
    let mut de = march();
    let row_id = de
        .add_row("Rent", 4, float(f64::NAN), Some("Housing"), "EUR", Some("Rent"), None)
        .expect("the row is added even though it cannot be recorded");
    assert!(matches!(de.changes[0].op, Err(Error::InvalidArgument(_))));

    let mut reloaded =
        DetailedExpenses::new(2026, 3, Some(de.expense_df.clone())).expect("reload march");
    assert_eq!(reloaded.expense_df.height(), 1, "the row is in the table");
    assert_eq!(
        str_col_to_vec(&reloaded.expense_df, ROW_ID_COLUMN).expect("read the row ids"),
        vec![row_id.clone()]
    );
    // Editing and deleting stay usable too.
    reloaded
        .edit_row(&row_id, Some("Rent March"), None, None, None, None, None, None)
        .expect("an edit still succeeds");
    reloaded.delete_row(&row_id).expect("a delete still succeeds");
    assert_eq!(reloaded.expense_df.height(), 0);
}

#[test]
fn a_column_the_log_has_no_form_for_is_named() {
    let stored = table(vec![
        ("expense_name", DataType::Text, words(&["Rent"])),
        ("extra", DataType::Other("list[i64]".to_string()), vec![Cell::Opaque(7)]),
        (ROW_ID_COLUMN, DataType::Text, words(&["a"])),
    ]);
    let mut de = DetailedExpenses::new(2026, 3, Some(stored)).unwrap();
    de.edit_row("a", Some("Flat"), None, None, None, None, None, None).unwrap();
    let err = de.changes[0].op.as_ref().unwrap_err();
    assert_eq!(
        err.message(),
        "the 'extra' column holds list[i64] values, which the change log cannot carry"
    );
}

#[test]
fn categories_come_from_the_mapping_where_none_are_given() {
    assert!(needs_mapping(None, Some("a")) && needs_mapping(Some("a"), None));
    assert!(!needs_mapping(Some("a"), Some("b")));

    let mapping = CategoryMapping {
        primary_category: "groceries".to_string(),
        secondary_category: "othergroceries".to_string(),
    };
    let mut de = march();
    de.add_row("Lidl", 1, float(1.0), None, "EUR", None, Some(&mapping)).unwrap();
    de.add_row("Lidl", 2, float(1.0), Some("food"), "EUR", None, Some(&mapping)).unwrap();
    de.add_row("Lidl", 3, float(1.0), Some("food"), "EUR", None, None).unwrap();
    let err = de.add_row("Lidl", 4, float(1.0), None, "EUR", Some("x"), None).unwrap_err();
    assert_eq!(
        err.message(),
        "No category mapping found for 'Lidl' and no primary_category was provided. Either add a mapping via config.add_mapping() or pass primary_category explicitly."
    );
    assert_eq!(
        str_col_to_vec(&de.expense_df, "primary_category").unwrap(),
        vec!["Groceries", "Food", "Food"]
    );
    assert_eq!(
        str_col_to_vec(&de.expense_df, "secondary_category").unwrap(),
        vec!["OtherGroceries", "OtherGroceries", ""]
    );
}

#[test]
fn a_day_has_to_be_in_the_month() {
    let mut de = DetailedExpenses::new(2026, 2, None).unwrap();
    let err = de
        .add_row("Tea", 30, float(1.0), Some("Out"), "EUR", Some("Cafe"), None)
        .unwrap_err();
    assert_eq!(err.message(), "invalid date 2026-02-30");
    assert!(de.changes.is_empty());
    let row_id = de
        .add_row("Tea", 28, float(1.0), Some("Out"), "EUR", Some("Cafe"), None)
        .unwrap();
    let before = de.expense_df.clone();
    let err = de
        .edit_row(&row_id, Some("Coffee"), Some(29), None, None, None, None, None)
        .unwrap_err();
    assert_eq!(err.message(), "invalid date 2026-02-29");
    assert_eq!(de.expense_df, before);
}

#[test]
fn an_edit_changes_what_it_names_and_keeps_the_rest() {
    let mut de = march();
    let tea = de
        .add_row("Tea", 1, float(1.0), Some("Out"), "EUR", Some("Cafe"), None)
        .unwrap();
    let bus = de
        .add_row("Bus", 2, float(2.0), Some("Transport"), "EUR", Some("Bus"), None)
        .unwrap();
    let known = KnownCategories {
        primary: vec!["LEISURE".to_string()],
        secondary: vec!["Film".to_string()],
    };
    de.edit_row(
        &bus,
        None,
        Some(9),
        None,
        Some("USD"),
        Some("leisure"),
        Some("cAFE"),
        Some(&known),
    )
    .unwrap();
    assert_eq!(str_col_to_vec(&de.expense_df, "expense_name").unwrap(), vec!["Tea", "Bus"]);
    assert_eq!(str_col_to_vec(&de.expense_df, "currency").unwrap(), vec!["EUR", "USD"]);
    assert_eq!(str_col_to_vec(&de.expense_df, "primary_category").unwrap(), vec!["Out", "LEISURE"]);
    assert_eq!(str_col_to_vec(&de.expense_df, "secondary_category").unwrap(), vec!["Cafe", "Cafe"]);
    assert_eq!(str_col_to_vec(&de.expense_df, ROW_ID_COLUMN).unwrap(), vec![tea, bus]);
    let c = de.expense_df.find_column("expense_date").unwrap();
    assert_eq!(de.expense_df.cell_at(0, c), &Cell::Date(day(2026, 3, 1).days()));
    assert_eq!(de.expense_df.cell_at(1, c), &Cell::Date(day(2026, 3, 9).days()));
    assert_eq!(number_at(&de.expense_df, "expense_amount", 1), Some(2.0));

    let err = de
        .edit_row("gone", Some("x"), None, None, None, None, None, None)
        .unwrap_err();
    assert_eq!(err.message(), "No expense with id 'gone' in 2026-03.");
}

#[test]
fn an_added_expense_can_be_deleted_again() {
    let mut de = march();
    de.add_row("Tea", 1, float(1.0), Some("Out"), "EUR", Some("Cafe"), None).unwrap();
    let before = de.expense_df.clone();
    let bus = de
        .add_row("Bus", 2, float(2.0), Some("Transport"), "EUR", Some("Bus"), None)
        .unwrap();
    de.delete_row(&bus).unwrap();
    assert_eq!(de.expense_df, before);
}

#[test]
fn a_row_may_bring_columns_and_lack_columns() {
    let stored = table(vec![
        ("expense_name", DataType::Text, words(&["Rent"])),
        ("note", DataType::Text, words(&["paid"])),
        (ROW_ID_COLUMN, DataType::Text, words(&["a"])),
    ]);
    let mut de = DetailedExpenses::new(2026, 3, Some(stored)).unwrap();
    de.add_row_with_id(
        "b",
        "Tea",
        1,
        float(1.0),
        Some("Out"),
        "EUR",
        Some("Cafe"),
        None,
        None,
    )
    .unwrap();
    let df = &de.expense_df;
    let names: Vec<&str> = (0..df.width()).map(|c| df.column_at(c).name.as_str()).collect();
    assert_eq!(
        names,
        vec![
            "expense_name",
            "note",
            "row_id",
            "expense_date",
            "expense_amount",
            "currency",
            "primary_category",
            "secondary_category"
        ]
    );
    assert_eq!(df.cell_at(0, 5), &Cell::Null);
    assert_eq!(df.cell_at(1, 1), &Cell::Null);
    assert_eq!(df.cell_at(1, 5), &Cell::Text("EUR".to_string()));

    let clash = table(vec![
        ("expense_amount", DataType::Text, words(&["1"])),
        (ROW_ID_COLUMN, DataType::Text, words(&["a"])),
    ]);
    let mut de = DetailedExpenses::new(2026, 3, Some(clash.clone())).unwrap();
    let err = de
        .add_row("Tea", 1, float(1.0), Some("Out"), "EUR", Some("Cafe"), None)
        .unwrap_err();
    assert!(matches!(err, Error::Polars(_)));
    assert_eq!(de.expense_df, clash);
}

fn names(df: &Table) -> Vec<String> {
    str_col_to_vec(df, "expense_name").unwrap()
}

fn shopping() -> DetailedExpenses {
    let mut de = march();
    for (name, day, amount, primary, secondary) in [
        ("Supermarket", 3, 85.5, "groceries", "othergroceries"),
        ("Cafe (bar)", 6, 13.5, "lunchbreak", "cafe"),
        ("Bus", 7, -2.0, "transport", "bus"),
        ("Refund", 8, 0.0, "out", "cafe"),
    ] {
        de.add_row(name, day, float(amount), Some(primary), "EUR", Some(secondary), None)
            .unwrap();
    }
    de
}

#[test]
fn expenses_are_found_by_a_part_of_their_name_whatever_its_case() {
    let de = shopping();
    let found = de.filter_expenses(Some("MARKET"), None, None, None).unwrap();
    assert_eq!(names(&found), vec!["Supermarket"]);
    // What would mean something in a regular expression stands for itself.
    let found = de.filter_expenses(Some("e (b"), None, None, None).unwrap();
    assert_eq!(names(&found), vec!["Cafe (bar)"]);
    let found = de.filter_expenses(Some("."), None, None, None).unwrap();
    assert!(names(&found).is_empty());
    let found = de.filter_expenses(Some(""), Some(""), None, None).unwrap();
    assert_eq!(found, de.expense_df);
}

#[test]
fn expenses_are_found_by_either_category() {
    let de = shopping();
    let found = de.filter_expenses(None, Some("CAFE"), None, None).unwrap();
    assert_eq!(names(&found), vec!["Cafe (bar)", "Refund"]);
    let found = de.filter_expenses(None, Some("trans"), None, None).unwrap();
    assert_eq!(names(&found), vec!["Bus"]);
    let found = de.filter_expenses(Some("refund"), Some("cafe"), None, None).unwrap();
    assert_eq!(names(&found), vec!["Refund"]);
}

#[test]
fn expenses_are_found_by_their_amount() {
    let de = shopping();
    let bits = |value: f64| Some(value.to_bits());
    let found = de.filter_expenses(None, None, bits(0.0), None).unwrap();
    assert_eq!(names(&found), vec!["Supermarket", "Cafe (bar)", "Refund"]);
    let found = de.filter_expenses(None, None, bits(-0.0), bits(13.5)).unwrap();
    assert_eq!(names(&found), vec!["Cafe (bar)", "Refund"]);
    let found = de.filter_expenses(None, None, None, bits(-1.0)).unwrap();
    assert_eq!(names(&found), vec!["Bus"]);
    // Nothing is larger than a NaN.
    let found = de.filter_expenses(None, None, bits(f64::NAN), None).unwrap();
    assert!(names(&found).is_empty());
    let found = de.filter_expenses(None, None, None, bits(f64::NAN)).unwrap();
    assert_eq!(found.height(), 4);
}

#[test]
fn the_order_of_floats_is_that_of_their_values() {
    let ascending = [
        f64::NEG_INFINITY,
        -1e300,
        -2.0,
        -f64::MIN_POSITIVE,
        0.0,
        5e-324,
        1.0,
        1e300,
        f64::INFINITY,
        f64::NAN,
    ];
    for pair in ascending.windows(2) {
        assert!(rank_of(pair[0].to_bits()) < rank_of(pair[1].to_bits()), "{pair:?}");
    }
    assert_eq!(rank_of((-0.0_f64).to_bits()), rank_of(0.0_f64.to_bits()));
    assert_eq!(rank_of((-f64::NAN).to_bits()), rank_of(f64::NAN.to_bits()));
}

#[test]
fn rows_are_kept_by_what_was_found_in_them() {
    let de = shopping();
    let kept = filter_by(
        &de.expense_df,
        Some(vec![true, false, true, true]),
        Some((vec![false, true, false, true], vec![true, true, false, false])),
        None,
        None,
    )
    .unwrap();
    assert_eq!(names(&kept), vec!["Supermarket", "Refund"]);
}

#[test]
fn no_answer_finds_nothing() {
    assert_eq!(flags_of(&vec![Some(true), None, Some(false)]), vec![true, false, false]);
}

#[test]
fn bounds_on_amounts_hold_for_numbers_of_any_kind() {
    let bounds = (Some(float(2.5)), Some(float(9.0)));
    for (dtype, cells) in [
        (DataType::Int64, vec![Cell::Int(2), Cell::Int(3), Cell::Int(9), Cell::Int(10)]),
        (DataType::Int32, vec![Cell::Int(-3), Cell::Int(4), Cell::Int(5), Cell::Null]),
        (
            DataType::Float32,
            [2.25, 2.5, 9.0, 9.5].iter().map(|number| Cell::Float(float(*number))).collect(),
        ),
    ] {
        let df = table(vec![
            ("expense_name", DataType::Text, words(&["a", "b", "c", "d"])),
            ("expense_amount", dtype, cells),
        ]);
        let kept = filter_by(&df, None, None, bounds.0, bounds.1).unwrap();
        assert_eq!(names(&kept), vec!["b", "c"]);
    }
    let texts = table(vec![("expense_amount", DataType::Text, words(&["3"]))]);
    assert!(matches!(filter_by(&texts, None, None, bounds.0, None), Err(Error::Polars(_))));
    assert_eq!(filter_by(&texts, None, None, None, None).unwrap().height(), 1);
}

#[test]
fn a_text_is_escaped_for_a_regular_expression() {
    assert_eq!(regex_escape("a_b c.d"), "a_b\\ c\\.d");
    assert_eq!(regex_escape("\u{e9}1"), "\u{e9}1");
    assert_eq!(regex_escape("5\u{20ac} <b>!"), "5\u{20ac}\\ <b>\\!");
}

#[test]
fn categories_are_spelled_in_one_way() {
    assert_eq!(normalize_category_value("hOUSING"), "Housing");
    assert_eq!(normalize_category_value("TV"), "TV");
    assert_eq!(normalize_category_value("tv"), "TV");
    assert_eq!(normalize_category_value("mrstuff"), "MrStuff");
    assert_eq!(normalize_category_value("PATREON-LIKE"), "Patreon-Like");
    assert_eq!(normalize_category_value(""), "");
    assert_eq!(normalize_category_value("\u{df}a"), "SSa");
    assert_eq!(spell("abc"), "Abc");

    let existing = vec!["hoUSE".to_string(), "House".to_string()];
    assert_eq!(resolve_category("HOUSE", &existing), "hoUSE");
    assert_eq!(resolve_category("other", &existing), "Other");
    assert_eq!(resolve_category("", &existing), "");
}

/// A month whose first expense has a date that no calendar has.
fn with_a_stray_date() -> DetailedExpenses {
    let mut de = shopping();
    de.changes.clear();
    let date = de.expense_df.find_column("expense_date").expect("a date column");
    de.expense_df.set_cell(0, date, Cell::Date(i32::MAX));
    de
}

#[test]
fn a_date_outside_the_calendar_stops_no_other_row() {
    let mut de = with_a_stray_date();
    let id = str_col_to_vec(&de.expense_df, ROW_ID_COLUMN).unwrap()[1].clone();
    de.edit_row(&id, Some("Bar"), None, None, None, None, None, None).unwrap();
    assert!(matches!(op(&de.changes[0]), ChangeOp::Upsert { .. }));
    de.add_row("Tram", 9, float(2.5), Some("transport"), "EUR", Some("bus"), None).unwrap();
    assert!(matches!(op(&de.changes[1]), ChangeOp::Upsert { .. }));
    assert_eq!(names(&de.expense_df)[1], "Bar");
}

#[test]
fn a_row_with_a_date_outside_the_calendar_is_edited_but_not_recorded() {
    let mut de = with_a_stray_date();
    let id = str_col_to_vec(&de.expense_df, ROW_ID_COLUMN).unwrap()[0].clone();
    de.edit_row(&id, Some("Market"), None, None, None, None, None, None).unwrap();
    assert_eq!(names(&de.expense_df)[0], "Market");
    let error = de.changes[0].op.as_ref().unwrap_err();
    assert!(matches!(error, Error::InvalidArgument(_)));
    assert_eq!(
        error.message(),
        "the 'expense_date' column holds a date outside the calendar, which the change log cannot carry"
    );
}

#[test]
fn a_search_takes_every_character_for_itself() {
    let mut de = march();
    for name in ["Menu 5\u{20ac}", "<b>", "a b"] {
        de.add_row(name, 3, float(1.0), Some("out"), "EUR", Some("cafe"), None).unwrap();
    }
    let found = de.filter_expenses(Some("5\u{20ac}"), None, None, None).unwrap();
    assert_eq!(names(&found), vec!["Menu 5\u{20ac}"]);
    let found = de.filter_expenses(Some("<"), None, None, None).unwrap();
    assert_eq!(names(&found), vec!["<b>"]);
    let found = de.filter_expenses(Some("b>"), None, None, None).unwrap();
    assert_eq!(names(&found), vec!["<b>"]);
}

#[test]
fn a_number_column_becomes_one_of_doubles_to_take_one() {
    let texts = vec![Cell::Text("a".to_string()), Cell::Text("b".to_string()), Cell::Null];
    let mut df = table(vec![
        ("name", DataType::Text, texts),
        ("01", DataType::Int64, vec![Cell::Int(3), Cell::Int(-7), Cell::Null]),
        ("02", DataType::Text, vec![Cell::Null, Cell::Null, Cell::Null]),
    ]);
    set_f64_where(&mut df, "name", "a", "01", float(2.5)).unwrap();
    assert!(matches!(df.column_at(1).dtype, DataType::Float64));
    assert_eq!(number_at(&df, "01", 0), Some(2.5));
    assert_eq!(number_at(&df, "01", 1), Some(-7.0));
    assert!(matches!(df.cell_at(2, 1), Cell::Null));
    assert!(matches!(set_f64_where(&mut df, "name", "a", "02", 0), Err(Error::Polars(_))));
    assert!(matches!(df.column_at(2).dtype, DataType::Text));
}

#[test]
fn an_edit_turns_whole_amounts_into_doubles() {
    let mut de = march();
    de.add_row("Bus", 3, float(2.0), Some("transport"), "EUR", Some("bus"), None).unwrap();
    de.add_row("Taxi", 4, float(9.0), Some("transport"), "EUR", Some("taxi"), None).unwrap();
    let amount = de.expense_df.find_column("expense_amount").expect("an amount column");
    let heads = (0..de.expense_df.width())
        .map(|c| {
            let head = de.expense_df.column_at(c);
            let dtype = if c == amount { DataType::Int64 } else { head.dtype.clone() };
            Column::of(&head.name, dtype)
        })
        .collect();
    let rows = (0..2)
        .map(|row| {
            (0..de.expense_df.width())
                .map(|c| match de.expense_df.cell_at(row, c) {
                    Cell::Float(bits) => Cell::Int(value_of(*bits) as i64),
                    cell => cell.clone(),
                })
                .collect()
        })
        .collect();
    de.expense_df = Table::of(heads, rows).expect("a regular table");
    let id = str_col_to_vec(&de.expense_df, ROW_ID_COLUMN).unwrap()[0].clone();
    de.edit_row(&id, None, None, Some(float(2.5)), None, None, None, None).unwrap();
    assert_eq!(number_at(&de.expense_df, "expense_amount", 0), Some(2.5));
    assert_eq!(number_at(&de.expense_df, "expense_amount", 1), Some(9.0));
}

#[test]
fn a_row_without_a_name_outlives_the_removal_of_a_name() {
    let texts = vec![Cell::Text("a".to_string()), Cell::Null, Cell::Text("b".to_string())];
    let mut df = table(vec![("name", DataType::Text, texts)]);
    remove_where(&mut df, "name", "a").unwrap();
    assert_eq!(df.height(), 2);
    assert!(matches!(df.cell_at(0, 0), Cell::Null));
    assert!(df.cell_at(1, 0).is_text("b"));
}
