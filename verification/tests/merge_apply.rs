//! Carrying a merge out on the tables of a device.

use finguard::cashflow::Cashflow;
use finguard::changes::{row_json, Change};
use finguard::dates::Date;
use finguard::error::Error;
use finguard::expenses::DetailedExpenses;
use finguard::frames::str_col_to_vec;
use finguard::holdings::InvestmentHoldings;
use finguard::merge::{CellValue, MergeAction, RowAction};
use finguard::merge_apply::{
    default_value, describe, is_month, month_labels, one_value, positions, FileKey, ROW_ID_COLUMN,
};
use finguard::merge_files::{MergeReport, Prepared, PreparedFiles};
use finguard::merge_run::{PrepareStep, Preparing, SumStep};
use finguard::net_worth::{CreditsDebts, Liquidity};
use finguard::paths::LIQUIDITY_FILENAME;
use finguard::recurring::RecurringExpenses;
use finguard::rows::{Number, Row, Value};
use finguard::sync::{ChangeEntry, ChangeOp, ChangeTable, Hlc};
use finguard::table::{Cell, Column, DataType, Table};

fn float(value: f64) -> u64 {
    value.to_bits()
}

fn value_of(bits: u64) -> f64 {
    f64::from_bits(bits)
}

fn text(value: &str) -> Value {
    Value::text(value)
}

fn number(value: f64) -> Value {
    Value::Number(Number::Float(float(value)))
}

fn whole(value: i64) -> Value {
    Value::Number(Number::Int(value))
}

fn none() -> Table {
    Table::with_columns(vec![])
}

/// Sum the income up as the program around the library does.
fn recompute(cashflow: &mut Cashflow) {
    let mut totals = Vec::new();
    for label in month_labels() {
        let mut income = 0.0;
        for term in cashflow.income_terms(&label).unwrap() {
            income += value_of(term);
        }
        totals.push(float(income));
    }
    cashflow.recompute_income(&totals).unwrap();
}

/// The tables and the change log of a device.
struct Device {
    name: String,
    clock: i64,
    files: Vec<(FileKey, Table, Table)>,
    log: Vec<ChangeEntry>,
    fail_on_write: Option<FileKey>,
}

impl Device {
    fn new(name: &str) -> Device {
        Device {
            name: name.to_string(),
            clock: 1_000,
            files: vec![],
            log: vec![],
            fail_on_write: None,
        }
    }

    fn stored(&self, key: FileKey) -> (Option<Table>, Option<Table>) {
        match self.files.iter().find(|file| file.0 == key) {
            Some((_, main, prices)) => (Some(main.clone()), Some(prices.clone())),
            None => (None, None),
        }
    }

    fn has_file(&self, key: FileKey) -> bool {
        self.files.iter().any(|file| file.0 == key)
    }

    fn write(&mut self, key: FileKey, main: Table, prices: Table) {
        self.files.retain(|file| file.0 != key);
        self.files.push((key, main, prices));
    }

    fn record(&mut self, changes: &[Change]) {
        for change in changes {
            self.clock += 1;
            self.log.push(ChangeEntry {
                stamp: Hlc { ms: self.clock, counter: 0 },
                device_id: self.name.clone(),
                table: change.table,
                row_id: change.row_id.clone(),
                origin: None,
                op: change.op.as_ref().unwrap().clone(),
            });
        }
    }

    fn expenses(&self, month: u32) -> DetailedExpenses {
        DetailedExpenses::new(2026, month, self.stored(FileKey::Expenses(2026, month)).0).unwrap()
    }

    fn recurring(&self) -> RecurringExpenses {
        RecurringExpenses::new(2026, self.stored(FileKey::Recurring(2026)).0).unwrap()
    }

    fn liquidity(&self) -> Liquidity {
        Liquidity::new(2026, self.stored(FileKey::Liquidity(2026)).0).unwrap()
    }

    fn cashflow(&self) -> Cashflow {
        Cashflow::new(2026, self.stored(FileKey::Cashflow(2026)).0)
    }

    fn investments(&self) -> InvestmentHoldings {
        let (main, prices) = self.stored(FileKey::Investments(2026));
        InvestmentHoldings::new(2026, main, prices, "EUR").unwrap()
    }

    fn save_expenses(&mut self, de: DetailedExpenses) {
        self.record(&de.changes);
        self.write(FileKey::Expenses(de.year, de.month), de.expense_df, none());
    }

    fn save_recurring(&mut self, rec: RecurringExpenses) {
        self.record(&rec.changes);
        self.write(FileKey::Recurring(rec.year), rec.df, none());
    }

    fn save_liquidity(&mut self, liq: Liquidity) {
        self.record(&liq.changes);
        self.write(FileKey::Liquidity(liq.year), liq.df, none());
    }

    fn save_cashflow(&mut self, cf: Cashflow) {
        self.record(&cf.changes);
        self.write(FileKey::Cashflow(cf.year), cf.df, none());
    }

    fn save_investments(&mut self, inv: InvestmentHoldings) {
        self.record(&inv.changes);
        self.write(FileKey::Investments(inv.year), inv.df, inv.df_prices);
    }

    fn load(&self, key: FileKey) -> Result<Prepared, Error> {
        let (main, prices) = self.stored(key);
        Ok(match key {
            FileKey::Expenses(year, month) => {
                Prepared::new(key, DetailedExpenses::new(year, month, main)?.expense_df, none())
            }
            FileKey::Recurring(year) => {
                Prepared::new(key, RecurringExpenses::new(year, main)?.df, none())
            }
            FileKey::Investments(year) => {
                let inv = InvestmentHoldings::new(year, main, prices, "EUR")?;
                Prepared::new(key, inv.df, inv.df_prices)
            }
            FileKey::Liquidity(year) => Prepared::new(key, Liquidity::new(year, main)?.df, none()),
            FileKey::CreditsDebts(year) => {
                Prepared::new(key, CreditsDebts::new(year, main)?.df, none())
            }
            FileKey::Cashflow(year) => Prepared::new(key, Cashflow::new(year, main).df, none()),
        })
    }

    fn apply(&mut self, remote: &[ChangeEntry]) -> Result<MergeReport, Error> {
        let mut preparing = Preparing::start(&self.log, remote);
        if let Some(stamp) = preparing.plan_ref().summary.max_remote_stamp {
            self.clock = self.clock.max(stamp.ms);
        }
        let mut summing = loop {
            match preparing.go_on()? {
                PrepareStep::Ready { run } => break run,
                PrepareStep::Load { run, key } => preparing = run.loaded(self.load(key)?),
            }
        };
        let mut writing = loop {
            match summing.go_on() {
                SumStep::Ready { run } => break run,
                SumStep::Sum { run, file } => {
                    let loaded = run.file_at(file);
                    let mut cf = Cashflow::new(loaded.key.year(), Some(loaded.main.clone()));
                    recompute(&mut cf);
                    summing = run.summed(cf.df);
                }
            }
        };
        while let Some(write) = writing.next() {
            let file = writing.file_at(write.file);
            if self.fail_on_write == Some(file.key) {
                return Err(Error::Io("the disk is full".to_string()));
            }
            // One table of the file is written, the other stays as it is on disk.
            let (main, prices) = match self.stored(file.key) {
                (Some(main), Some(prices)) => (main, prices),
                _ => (file.main.clone(), file.prices.clone()),
            };
            if write.prices {
                self.write(file.key, main, file.prices.clone());
            } else {
                self.write(file.key, file.main.clone(), prices);
            }
            writing = writing.wrote();
        }
        let (plan, files_written) = writing.finish();
        let stored: Vec<ChangeEntry> = plan.entries_to_store().into_iter().cloned().collect();
        let entries_stored = stored.len();
        self.log.extend(stored);
        Ok(MergeReport {
            summary: plan.summary.clone(),
            files_written,
            entries_stored,
            local_corrupt_lines: 0,
            local_oversized_lines: 0,
            local_unfinished_tail: false,
            clock_ahead_of_wall_by: None,
        })
    }
}

/// Later than anything a device of these tests records.
const LATER: i64 = 4_000_000_000_000;

fn remote(ms: i64, table: ChangeTable, row_id: &str, op: ChangeOp) -> ChangeEntry {
    ChangeEntry {
        stamp: Hlc { ms, counter: 0 },
        device_id: "phone".to_string(),
        table,
        row_id: row_id.to_string(),
        origin: None,
        op,
    }
}

fn march() -> ChangeTable {
    ChangeTable::Expenses { year: 2026, month: 3 }
}

fn row_of(pairs: &[(&str, Value)]) -> ChangeOp {
    let mut row = Row::new();
    for (column, value) in pairs {
        row.insert(column.to_string(), value.clone());
    }
    ChangeOp::Upsert { row }
}

fn expense_row(row_id: &str, name: &str, date: Value, amount: f64) -> ChangeOp {
    row_of(&[
        ("expense_name", text(name)),
        ("expense_date", date),
        ("expense_amount", number(amount)),
        ("currency", text("EUR")),
        ("primary_category", text("Housing")),
        ("secondary_category", text("Rent")),
        (ROW_ID_COLUMN, text(row_id)),
    ])
}

fn recurring_row(row_id: &str, amount: f64) -> ChangeOp {
    row_of(&[
        ("expense_name", text("Gym")),
        ("expense_day", whole(5)),
        ("expense_amount", number(amount)),
        ("currency", text("EUR")),
        ("primary_category", text("Health")),
        ("secondary_category", text("Gym")),
        (ROW_ID_COLUMN, text(row_id)),
    ])
}

fn bank_upsert() -> ChangeOp {
    row_of(&[
        ("asset_name", text("Bank")),
        ("category", text("Cash")),
        ("currency", text("EUR")),
        ("03", number(1200.0)),
        (ROW_ID_COLUMN, text("bank")),
    ])
}

fn cell(column: &str, value: f64) -> ChangeOp {
    ChangeOp::Cell { column: column.to_string(), value: number(value) }
}

fn number_at(df: &Table, column: &str, row: usize) -> Option<f64> {
    match df.cell_at(row, df.find_column(column).unwrap()) {
        Cell::Float(number) => Some(value_of(*number)),
        _ => None,
    }
}

fn amounts(df: &Table) -> Vec<f64> {
    (0..df.height()).map(|row| number_at(df, "expense_amount", row).unwrap()).collect()
}

fn f64_at(df: &Table, key_column: &str, key: &str, column: &str) -> Option<f64> {
    number_at(df, column, positions(df, key_column, key).unwrap()[0])
}

fn ids(df: &Table) -> Vec<String> {
    str_col_to_vec(df, ROW_ID_COLUMN).unwrap()
}

/// The rows of a table by their ids, so that two devices which hold them in
/// another order compare equal.
fn sorted(df: &Table) -> Vec<(String, Row)> {
    let mut rows: Vec<(String, Row)> =
        ids(df).into_iter().enumerate().map(|(i, id)| (id, row_json(df, i).unwrap())).collect();
    rows.sort_by(|a, b| a.0.cmp(&b.0));
    rows
}

#[test]
fn a_first_sync_fills_an_empty_data_folder() {
    let batch = vec![
        remote(1, march(), "rent", expense_row("rent", "Rent", text("2026-03-01"), 900.0)),
        remote(2, ChangeTable::Recurring { year: 2026 }, "gym", recurring_row("gym", 30.0)),
        remote(3, ChangeTable::Liquidity { year: 2026 }, "bank", bank_upsert()),
        remote(4, ChangeTable::CashflowIncome { year: 2026 }, "Salary", cell("03", 2500.0)),
    ];
    let mut device = Device::new("desktop");
    let report = device.apply(&batch).unwrap();

    assert_eq!(report.summary.applied, 4);
    assert_eq!(report.files_written, 4);
    assert_eq!(report.entries_stored, 4);
    assert_eq!(amounts(&device.expenses(3).expense_df), vec![900.0]);
    assert_eq!(device.recurring().df.height(), 1);
    let liquidity = device.liquidity().df;
    assert_eq!(f64_at(&liquidity, ROW_ID_COLUMN, "bank", "03"), Some(1200.0));
    assert_eq!(
        f64_at(&liquidity, ROW_ID_COLUMN, "bank", "04"),
        Some(0.0),
        "a month the row does not carry gets the new row default"
    );
    let cashflow = device.cashflow().df;
    assert_eq!(f64_at(&cashflow, "category", "Salary", "03"), Some(2500.0));
    assert_eq!(f64_at(&cashflow, "category", "Income", "03"), Some(2500.0));
    assert_eq!(device.log, batch);
    assert_eq!(
        report.text(),
        "Merge: 4 remote changes, 4 applied, 0 already known, 0 skipped, 0 unplaceable; 4 rows and 4 files written, 4 changes stored."
    );
}

#[test]
fn whole_rows_are_upserted_and_deleted() {
    let mut device = Device::new("desktop");
    let mut de = device.expenses(3);
    let rent = de
        .add_row("Rent", 1, float(900.0), Some("Housing"), "EUR", Some("Rent"), None)
        .unwrap();
    let tea = de.add_row("Tea", 2, float(3.0), Some("Out"), "EUR", Some("Cafe"), None).unwrap();
    device.save_expenses(de);
    let mut rec = device.recurring();
    let gym = rec.add("Gym", 5, float(30.0), "EUR", "Health", "Gym").unwrap();
    device.save_recurring(rec);
    let templates = ChangeTable::Recurring { year: 2026 };

    device
        .apply(&[
            remote(LATER, march(), &rent, expense_row(&rent, "Rent", text("2026-03-01"), 950.0)),
            remote(LATER + 1, march(), &tea, ChangeOp::Delete),
            remote(LATER + 2, march(), "never-here", ChangeOp::Delete),
            remote(LATER + 3, templates, &gym, recurring_row(&gym, 35.0)),
            remote(LATER + 4, templates, "new-template", recurring_row("new-template", 10.0)),
        ])
        .unwrap();

    let expenses = device.expenses(3).expense_df;
    assert_eq!(ids(&expenses), vec![rent]);
    assert_eq!(amounts(&expenses), vec![950.0]);
    let recurring = device.recurring().df;
    assert_eq!(
        ids(&recurring),
        vec![gym.clone(), "new-template".to_string()],
        "the replaced row keeps its place and the new one is appended"
    );
    assert_eq!(f64_at(&recurring, ROW_ID_COLUMN, &gym, "expense_amount"), Some(35.0));

    device.apply(&[remote(LATER + 5, templates, &gym, ChangeOp::Delete)]).unwrap();
    assert_eq!(ids(&device.recurring().df), vec!["new-template".to_string()]);
}

#[test]
fn net_worth_cells_merge_per_cell() {
    let mut device = Device::new("desktop");
    let mut liq = device.liquidity();
    liq.add_asset("Bank", "Cash", "EUR").unwrap();
    liq.set_value("Bank", 1, float(100.0)).unwrap();
    liq.set_value("Bank", 2, float(200.0)).unwrap();
    let id = ids(&liq.df)[0].clone();
    device.save_liquidity(liq);
    let table = ChangeTable::Liquidity { year: 2026 };

    let report = device
        .apply(&[
            remote(LATER, table, &id, cell("02", 250.0)),
            remote(LATER + 1, table, &id, cell("03", 300.0)),
        ])
        .unwrap();

    assert_eq!(report.files_written, 1);
    let df = device.liquidity().df;
    assert_eq!(f64_at(&df, ROW_ID_COLUMN, &id, "01"), Some(100.0));
    assert_eq!(f64_at(&df, ROW_ID_COLUMN, &id, "02"), Some(250.0));
    assert_eq!(f64_at(&df, ROW_ID_COLUMN, &id, "03"), Some(300.0));
    assert_eq!(str_col_to_vec(&df, "asset_name").unwrap(), vec!["Bank"]);

    let before = device.log.len();
    let report = device.apply(&[remote(5, table, &id, cell("01", 1.0))]).unwrap();
    assert_eq!(report.summary.skipped, 1);
    assert_eq!(report.files_written, 0);
    assert_eq!(device.log.len(), before + 1, "a skipped entry is still stored");
    assert_eq!(f64_at(&device.liquidity().df, ROW_ID_COLUMN, &id, "01"), Some(100.0));
}

#[test]
fn a_price_change_writes_only_the_prices_file() {
    let mut device = Device::new("desktop");
    let mut inv = device.investments();
    inv.add_asset("Fund", "Stocks/ETF", "", "EUR").unwrap();
    let id = ids(&inv.df)[0].clone();
    let holdings_before = inv.df.clone();
    device.save_investments(inv);

    let report = device
        .apply(&[remote(
            LATER,
            ChangeTable::InvestmentsPrices { year: 2026 },
            &id,
            cell("04", 12.5),
        )])
        .unwrap();

    assert_eq!(report.files_written, 1);
    let inv = device.investments();
    assert_eq!(inv.df, holdings_before);
    assert_eq!(f64_at(&inv.df_prices, ROW_ID_COLUMN, &id, "04"), Some(12.5));
}

#[test]
fn income_cells_merge_and_income_is_recomputed() {
    let mut device = Device::new("desktop");
    let mut cf = device.cashflow();
    cf.set_income(3, "Salary", float(2000.0)).unwrap();
    recompute(&mut cf);
    device.save_cashflow(cf);
    let table = ChangeTable::CashflowIncome { year: 2026 };

    device
        .apply(&[
            remote(LATER, table, "Other", cell("03", 150.0)),
            remote(LATER + 1, table, "Salary", cell("04", 2100.0)),
        ])
        .unwrap();

    let df = device.cashflow().df;
    assert_eq!(f64_at(&df, "category", "Salary", "03"), Some(2000.0));
    assert_eq!(f64_at(&df, "category", "Other", "03"), Some(150.0));
    assert_eq!(f64_at(&df, "category", "Income", "03"), Some(2150.0));
    assert_eq!(f64_at(&df, "category", "Income", "04"), Some(2100.0));

    let err = device.apply(&[remote(LATER + 2, table, "Income", cell("05", 1.0))]).unwrap_err();
    assert!(matches!(err, Error::MergeRejected(_)));
}

#[test]
fn an_unknown_column_rejects_the_whole_batch() {
    let mut device = Device::new("desktop");
    let mut liq = device.liquidity();
    liq.add_asset("Bank", "Cash", "EUR").unwrap();
    let id = ids(&liq.df)[0].clone();
    device.save_liquidity(liq);
    let liquidity_before = device.liquidity().df;
    let log_before = device.log.clone();

    let batch = vec![
        remote(
            LATER,
            ChangeTable::Expenses { year: 2031, month: 1 },
            "rent",
            expense_row("rent", "Rent", text("2031-01-01"), 900.0),
        ),
        remote(
            LATER + 1,
            ChangeTable::Liquidity { year: 2026 },
            &id,
            row_of(&[
                ("asset_name", text("SecretBank")),
                ("category", text("Cash")),
                ("currency", text("EUR")),
                ("bogus", number(4242.5)),
            ]),
        ),
    ];

    let err = device.apply(&batch).unwrap_err();

    let message = err.message();
    assert!(matches!(err, Error::MergeRejected(_)), "{message}");
    assert!(message.contains("'bogus'"), "{message}");
    assert!(message.contains(LIQUIDITY_FILENAME), "{message}");
    assert!(!message.contains("SecretBank") && !message.contains("4242"));
    assert_eq!(device.liquidity().df, liquidity_before);
    assert!(!device.has_file(FileKey::Expenses(2031, 1)));
    assert_eq!(device.log, log_before);
}

#[test]
fn a_value_of_the_wrong_type_rejects_the_batch() {
    let mut device = Device::new("desktop");
    let mut op = expense_row("rent", "Rent", text("2026-03-01"), 0.0);
    if let ChangeOp::Upsert { row } = &mut op {
        row.insert("expense_amount".to_string(), text("nine hundred"));
    }

    let err = device.apply(&[remote(1, march(), "rent", op)]).unwrap_err();

    let message = err.message();
    assert!(message.contains("'expense_amount'"), "{message}");
    assert!(message.contains("numbers"), "{message}");
    assert!(!message.contains("nine hundred"));
    assert!(!device.has_file(FileKey::Expenses(2026, 3)));
    assert!(device.log.is_empty());
}

fn day(d: u32) -> i32 {
    Date::from_ymd(2026, 3, d).unwrap().days()
}

fn stored_month(dtype: DataType, date: Cell) -> Table {
    Table::of(
        vec![
            Column::of("expense_name", DataType::Text),
            Column::of("expense_date", dtype),
            Column::of("expense_amount", DataType::Float64),
            Column::of("currency", DataType::Text),
            Column::of("primary_category", DataType::Text),
            Column::of("secondary_category", DataType::Text),
            Column::of(ROW_ID_COLUMN, DataType::Text),
        ],
        vec![vec![
            Cell::Text("Rent".to_string()),
            date,
            Cell::Float(float(900.0)),
            Cell::Text("EUR".to_string()),
            Cell::Text("Housing".to_string()),
            Cell::Text("Rent".to_string()),
            Cell::Text("rent".to_string()),
        ]],
    )
    .unwrap()
}

#[test]
fn both_date_encodings_fit_int32_and_date_files() {
    let columns =
        [(DataType::Int32, Cell::Int(day(1) as i64)), (DataType::Date, Cell::Date(day(1)))];
    for (dtype, date) in columns {
        let mut device = Device::new("desktop");
        device.write(FileKey::Expenses(2026, 3), stored_month(dtype, date), none());

        device
            .apply(&[
                remote(
                    1,
                    march(),
                    "by-text",
                    expense_row("by-text", "A", text("2026-03-07"), 1.0),
                ),
                remote(
                    2,
                    march(),
                    "by-number",
                    expense_row("by-number", "B", whole(day(9) as i64), 2.0),
                ),
            ])
            .unwrap();

        let on_disk = device.stored(FileKey::Expenses(2026, 3)).0.unwrap();
        let column = on_disk.find_column("expense_date").unwrap();
        assert_eq!(on_disk.column_at(column).dtype, DataType::Date);
        let dates: Vec<Cell> =
            (0..on_disk.height()).map(|row| on_disk.cell_at(row, column).clone()).collect();
        assert_eq!(dates, vec![Cell::Date(day(1)), Cell::Date(day(7)), Cell::Date(day(9))]);
    }
}

#[test]
fn a_date_column_takes_both_encodings_and_an_int32_column_only_numbers() {
    let table = march();
    let days = day(7);

    let by_text = one_value("d", &DataType::Date, &text("2026-03-07"), &table).unwrap();
    let by_number = one_value("d", &DataType::Date, &whole(days as i64), &table).unwrap();
    assert_eq!(by_text, Cell::Date(days));
    assert_eq!(by_text, by_number);
    assert_eq!(one_value("d", &DataType::Date, &Value::Null, &table).unwrap(), Cell::Null);
    assert!(one_value("d", &DataType::Date, &text("7 March"), &table).is_err());

    let number_cell = one_value("n", &DataType::Int32, &whole(days as i64), &table).unwrap();
    assert_eq!(number_cell, Cell::Int(days as i64));
    let whole_float = one_value("n", &DataType::Int32, &number(5.0), &table).unwrap();
    assert_eq!(whole_float, Cell::Int(5));
    assert_eq!(one_value("n", &DataType::Int32, &Value::Null, &table).unwrap(), Cell::Null);
    for refused in [text("2026-03-07"), number(5.5), whole(i64::from(i32::MAX) + 1)] {
        let err = one_value("n", &DataType::Int32, &refused, &table).unwrap_err();
        let message = err.message();
        assert!(matches!(err, Error::MergeRejected(_)), "{message}");
        assert!(message.contains("'n'") && message.contains("whole numbers"));
        assert!(!message.contains("2026-03-07"), "{message}");
    }
}

#[test]
fn a_delete_of_an_absent_row_writes_nothing() {
    let mut device = Device::new("desktop");
    let mut de = device.expenses(3);
    de.add_row("Rent", 1, float(900.0), Some("Housing"), "EUR", Some("Rent"), None).unwrap();
    device.save_expenses(de);
    let march_before = device.expenses(3).expense_df;
    let january = ChangeTable::Expenses { year: 2031, month: 1 };

    let report = device
        .apply(&[
            remote(LATER, march(), "ghost", ChangeOp::Delete),
            remote(LATER + 1, january, "ghost", ChangeOp::Delete),
        ])
        .unwrap();

    assert_eq!(report.summary.rows_changed, 2);
    assert_eq!(report.files_written, 0);
    assert_eq!(report.entries_stored, 2);
    assert_eq!(device.expenses(3).expense_df, march_before);
    assert!(!device.has_file(FileKey::Expenses(2031, 1)));
}

#[test]
fn a_failed_write_stores_nothing_and_a_retry_completes() {
    let batch = vec![
        remote(LATER, march(), "rent", expense_row("rent", "Rent", text("2026-03-01"), 900.0)),
        remote(LATER + 1, ChangeTable::Liquidity { year: 2026 }, "bank", bank_upsert()),
    ];
    let state = |device: &Device| {
        let phone: Vec<ChangeEntry> =
            device.log.iter().filter(|entry| entry.device_id == "phone").cloned().collect();
        (device.expenses(3).expense_df, device.liquidity().df, phone)
    };

    let mut failing = Device::new("desktop");
    failing.fail_on_write = Some(FileKey::Liquidity(2026));
    let err = failing.apply(&batch).unwrap_err();
    assert!(matches!(err, Error::Io(_)));
    assert_eq!(amounts(&failing.expenses(3).expense_df), vec![900.0]);
    assert!(!failing.has_file(FileKey::Liquidity(2026)));
    assert!(failing.log.is_empty(), "no entry is stored after a failure");

    let mut loans = CreditsDebts::new(2026, None).unwrap();
    loans.add_entry("Loan", "EUR").unwrap();
    failing.record(&loans.changes);
    let local_edit = failing.log.last().unwrap().stamp;
    assert!(batch[1].stamp.is_before(&local_edit), "the local edit ranks above the batch");

    failing.fail_on_write = None;
    let report = failing.apply(&batch).unwrap();
    assert_eq!(report.entries_stored, 2);

    let mut clean = Device::new("desktop");
    clean.apply(&batch).unwrap();
    assert_eq!(state(&clean), state(&failing));
}

#[test]
fn investments_in_real_file_shapes_take_a_merge() {
    let file = |with_currency: bool| {
        let mut columns = vec![
            Column::of("asset_name", DataType::Text),
            Column::of("category", DataType::Text),
        ];
        let mut row = vec![Cell::Text("Fund".to_string()), Cell::Text("Stocks/ETF".to_string())];
        if with_currency {
            columns.push(Column::of("currency", DataType::Text));
            row.push(Cell::Text("EUR".to_string()));
        }
        for month in month_labels() {
            columns.push(Column::of(&month, DataType::Float64));
            row.push(Cell::Float(float(1.0)));
        }
        columns.push(Column::of("link", DataType::Text));
        row.push(Cell::Text(String::new()));
        columns.push(Column::of(ROW_ID_COLUMN, DataType::Text));
        row.push(Cell::Text("fund".to_string()));
        Table::of(columns, vec![row]).unwrap()
    };
    let fund_row = |with_currency: bool, march: f64| {
        let mut row = row_json(&file(with_currency), 0).unwrap();
        row.insert("03".to_string(), number(march));
        ChangeOp::Upsert { row }
    };
    let mut device = Device::new("desktop");
    device.write(FileKey::Investments(2026), file(false), file(false));
    let holdings = ChangeTable::Investments { year: 2026 };
    let prices = ChangeTable::InvestmentsPrices { year: 2026 };

    let report = device
        .apply(&[
            remote(LATER, holdings, "fund", fund_row(true, 7.0)),
            remote(LATER + 1, prices, "fund", fund_row(false, 20.0)),
            remote(LATER + 2, prices, "fund", cell("04", 21.0)),
        ])
        .unwrap();

    assert_eq!(report.files_written, 2);
    let inv = device.investments();
    assert_eq!(f64_at(&inv.df, ROW_ID_COLUMN, "fund", "03"), Some(7.0));
    assert_eq!(f64_at(&inv.df, ROW_ID_COLUMN, "fund", "01"), Some(1.0));
    assert_eq!(str_col_to_vec(&inv.df, "currency").unwrap(), vec!["EUR"]);
    assert_eq!(f64_at(&inv.df_prices, ROW_ID_COLUMN, "fund", "03"), Some(20.0));
    assert_eq!(f64_at(&inv.df_prices, ROW_ID_COLUMN, "fund", "04"), Some(21.0));
    assert!(!inv.df_prices.has_column("currency"));
    let on_disk = device.stored(FileKey::Investments(2026)).1.unwrap();
    assert_eq!(on_disk.find_column("link"), Some(14));
}

#[test]
fn a_batch_is_stored_verbatim_and_applies_once() {
    let stamp = Hlc { ms: LATER, counter: 7 };
    let mut entry =
        remote(0, march(), "rent", expense_row("rent", "Rent", text("2026-03-01"), 900.0));
    entry.stamp = stamp;
    let batch = vec![entry];
    let mut device = Device::new("desktop");

    device.apply(&batch).unwrap();
    let file_after_first = device.expenses(3).expense_df;

    let report = device.apply(&batch).unwrap();

    assert_eq!(report.summary.already_known, 1);
    assert_eq!(report.files_written, 0);
    assert_eq!(report.entries_stored, 0);
    assert_eq!(device.expenses(3).expense_df, file_after_first);
    assert_eq!(device.log, batch, "stored with its own stamp and device id");
    assert_eq!(device.log[0].device_id, "phone");

    let mut de = device.expenses(3);
    de.add_row("Tea", 2, float(3.0), Some("Out"), "EUR", Some("Cafe"), None).unwrap();
    device.save_expenses(de);
    let newest = device.log.last().unwrap();
    assert!(stamp.is_before(&newest.stamp), "the local clock passed the remote stamp");
    assert_ne!(newest.device_id, "phone");
}

fn snapshot(device: &Device) -> (Vec<Vec<(String, Row)>>, Table) {
    (
        vec![
            sorted(&device.expenses(3).expense_df),
            sorted(&device.recurring().df),
            sorted(&device.liquidity().df),
        ],
        device.cashflow().df,
    )
}

#[test]
fn a_desktop_and_a_phone_converge() {
    let mut desktop = Device::new("desktop");
    let mut phone = Device::new("phone");

    let mut de = desktop.expenses(3);
    let rent = de
        .add_row("Rent", 1, float(900.0), Some("Housing"), "EUR", Some("Rent"), None)
        .unwrap();
    let tea = de.add_row("Tea", 2, float(3.0), Some("Out"), "EUR", Some("Cafe"), None).unwrap();
    desktop.save_expenses(de);
    let mut rec = desktop.recurring();
    rec.add("Gym", 5, float(30.0), "EUR", "Health", "Gym").unwrap();
    desktop.save_recurring(rec);
    let mut liq = desktop.liquidity();
    liq.add_asset("Bank", "Cash", "EUR").unwrap();
    liq.set_value("Bank", 1, float(100.0)).unwrap();
    desktop.save_liquidity(liq);
    let mut cf = desktop.cashflow();
    cf.set_income(1, "Salary", float(2000.0)).unwrap();
    recompute(&mut cf);
    desktop.save_cashflow(cf);

    phone.apply(&desktop.log.clone()).unwrap();
    assert_eq!(snapshot(&phone), snapshot(&desktop));

    let mut de = desktop.expenses(3);
    de.edit_row(&rent, None, None, Some(float(950.0)), None, None, None, None).unwrap();
    desktop.save_expenses(de);
    let mut liq = desktop.liquidity();
    liq.set_value("Bank", 3, float(300.0)).unwrap();
    desktop.save_liquidity(liq);

    let mut de = phone.expenses(3);
    de.delete_row(&tea).unwrap();
    phone.save_expenses(de);
    let mut liq = phone.liquidity();
    liq.set_value("Bank", 5, float(500.0)).unwrap();
    phone.save_liquidity(liq);
    let mut cf = phone.cashflow();
    cf.set_income(2, "Other", float(40.0)).unwrap();
    recompute(&mut cf);
    phone.save_cashflow(cf);
    let mut de = phone.expenses(4);
    de.add_row("Book", 3, float(12.0), Some("Culture"), "EUR", Some("Books"), None).unwrap();
    phone.save_expenses(de);

    let phone_history = phone.log.clone();
    let desktop_history = desktop.log.clone();
    desktop.apply(&phone_history).unwrap();
    phone.apply(&desktop_history).unwrap();

    assert_eq!(snapshot(&phone), snapshot(&desktop));
    assert_eq!(phone.expenses(4).expense_df, desktop.expenses(4).expense_df);
    assert_eq!(amounts(&phone.expenses(3).expense_df), vec![950.0]);
    let liquidity = phone.liquidity().df;
    let bank = ids(&liquidity)[0].clone();
    for (month, value) in [("01", 100.0), ("03", 300.0), ("05", 500.0)] {
        assert_eq!(f64_at(&liquidity, ROW_ID_COLUMN, &bank, month), Some(value));
    }
    assert_eq!(f64_at(&phone.cashflow().df, "category", "Income", "02"), Some(40.0));

    let report = desktop.apply(&phone.log.clone()).unwrap();
    assert_eq!(report.files_written, 0);
    assert_eq!(report.entries_stored, 0);
    let report = phone.apply(&desktop.log.clone()).unwrap();
    assert_eq!(report.files_written, 0);
    assert_eq!(report.entries_stored, 0);
}

#[test]
fn a_cell_for_a_row_that_is_not_there_is_not_found() {
    let mut files = PreparedFiles::new();
    files.add(Device::new("desktop").load(FileKey::Liquidity(2026)).unwrap());
    let action = MergeAction {
        table: ChangeTable::Liquidity { year: 2026 },
        row_id: "nobody".to_string(),
        action: RowAction::SetCells {
            cells: vec![CellValue { column: "03".to_string(), value: number(1.0) }],
        },
    };
    assert_eq!(files.missing(&action), None);
    assert!(matches!(files.carry_out(&action), Err(Error::NotFound(_))));
    assert_eq!(files.files_to_write(), 0);
}

#[test]
fn a_change_to_the_settings_is_no_change_to_a_table() {
    let mut device = Device::new("desktop");
    let op = row_of(&[("primary_category", text("housing"))]);
    let err = device.apply(&[remote(1, ChangeTable::CategoryMappings, "rent", op)]).unwrap_err();
    assert!(matches!(err, Error::MergeRejected(_)));
    assert!(device.log.is_empty());
}

#[test]
fn messages_name_the_file_and_the_year() {
    assert_eq!(describe(&march()), "03_detailed_expenses.parquet of 2026");
    assert_eq!(describe(&ChangeTable::Recurring { year: -5 }), "recurring_expenses.parquet of -5");
    assert!(is_month("09") && !is_month("13") && !is_month("9"));
}

#[test]
fn new_rows_get_the_defaults_of_their_table() {
    assert_eq!(default_value(&march(), "secondary_category"), text(""));
    assert_eq!(default_value(&march(), "03"), Value::Null);
    assert_eq!(default_value(&ChangeTable::Liquidity { year: 2026 }, "03"), number(0.0));
    assert_eq!(default_value(&ChangeTable::InvestmentsPrices { year: 2026 }, "link"), text(""));
}
