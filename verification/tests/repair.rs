//! Repair of expense dates that do not belong to their month.

use finguard::changes::upsert_row;
use finguard::dates::Date;
use finguard::error::Error;
use finguard::expense_date_repair::{
    all_dates_exist, classify, plural, DayPolicy, ExpenseDateRepairReport, FileRepairCounts,
};
use finguard::merge_apply::ROW_ID_COLUMN;
use finguard::repair_run::{month_files, sorted_years, RepairRun};
use finguard::sync::{ChangeOp, ChangeTable};
use finguard::table::{Cell, Column, DataType, Table};

const MARCH: &str = "2026/03_detailed_expenses.parquet";
const APRIL: &str = "2026/04_detailed_expenses.parquet";

fn days(year: i32, month: u32, day: u32) -> i32 {
    Date::from_ymd(year, month, day).unwrap().days()
}

fn month_of(rows: &[(&str, Cell, f64, &str)]) -> Table {
    let columns = vec![
        Column::of("expense_name", DataType::Text),
        Column::of("expense_date", DataType::Date),
        Column::of("expense_amount", DataType::Float64),
        Column::of("currency", DataType::Text),
        Column::of("primary_category", DataType::Text),
        Column::of("secondary_category", DataType::Text),
        Column::of(ROW_ID_COLUMN, DataType::Text),
    ];
    let cells = rows
        .iter()
        .map(|(name, date, amount, id)| {
            vec![
                Cell::Text(name.to_string()),
                date.clone(),
                Cell::Float(amount.to_bits()),
                Cell::Text("EUR".to_string()),
                Cell::Text("Housing".to_string()),
                Cell::Text("Rent".to_string()),
                Cell::Text(id.to_string()),
            ]
        })
        .collect();
    Table::of(columns, cells).unwrap()
}

/// A row without a date, one dated outside the month, and two inside it.
fn march() -> Table {
    month_of(&[
        ("A", Cell::Null, 10.0, "id-a"),
        ("B", Cell::Date(days(1970, 1, 1)), 20.0, "id-b"),
        ("C", Cell::Date(days(2026, 3, 15)), 30.0, "id-c"),
        ("D", Cell::Date(days(2026, 3, 31)), 40.0, "id-d"),
    ])
}

fn april() -> Table {
    month_of(&[("Gym", Cell::Date(days(2026, 4, 5)), 40.0, "id-gym")])
}

fn run(apply: bool, day: Option<DayPolicy>, files: &[(&str, u32, Table)]) -> RepairRun {
    let mut run = RepairRun::start(apply, day).unwrap();
    for (path, month, df) in files {
        assert!(all_dates_exist(df));
        run.scan(path.to_string(), 2026, *month, df, day).unwrap();
    }
    run
}

#[test]
fn selects_only_null_and_out_of_month_rows() {
    let run = run(false, None, &[(MARCH, 3, march())]);
    let report = &run.report;
    assert_eq!(report.files.len(), 1);
    let file = &report.files[0];
    assert_eq!(file.path, MARCH);
    assert_eq!(file.total_rows, 4);
    assert_eq!(file.class_a, 1);
    assert_eq!(file.class_b, 1);
    assert!(report.skipped_paths.is_empty());
}

#[test]
fn dry_run_writes_nothing() {
    let run = run(false, None, &[(MARCH, 3, march())]);
    assert!(!run.report.applied);
    assert_eq!(run.report.backup_dir, None);
    assert_eq!(run.report.rows_repaired, 0);
    assert!(run.planned.is_empty());
    assert!(!run.needs_backup());
}

#[test]
fn apply_without_day_policy_refuses() {
    let err = match RepairRun::start(true, None) {
        Err(e) => e,
        Ok(_) => panic!("must refuse"),
    };
    assert!(matches!(err, Error::InvalidArgument(_)));
}

#[test]
fn apply_repairs_only_the_bad_rows_and_logs_them() {
    let policy = Some(DayPolicy::FirstOfMonth);
    let before = march();
    let mut run = run(true, policy, &[(MARCH, 3, march()), (APRIL, 4, april())]);

    assert!(run.report.applied);
    assert!(run.needs_backup());
    run.backed_up("backups/before".to_string());
    assert_eq!(run.planned.len(), 1, "the clean file is not written");
    run.wrote(0);
    assert_eq!(run.report.rows_repaired, 2);
    assert_eq!(run.report.backup_dir, Some("backups/before".to_string()));

    let planned = &run.planned[0];
    assert_eq!(planned.path, MARCH);
    assert_eq!(planned.table, ChangeTable::Expenses { year: 2026, month: 3 });
    let after = &planned.df;
    let date = after.find_column("expense_date").unwrap();
    let repaired = Cell::Date(days(2026, 3, 1));
    assert_eq!(after.cell_at(0, date), &repaired, "class A row repaired");
    assert_eq!(after.cell_at(1, date), &repaired, "class B row repaired");
    assert_eq!(after.cell_at(2, date), &Cell::Date(days(2026, 3, 15)));
    assert_eq!(after.cell_at(3, date), &Cell::Date(days(2026, 3, 31)));
    for row in 0..before.height() {
        for column in 0..before.width() {
            if column != date {
                assert_eq!(after.cell_at(row, column), before.cell_at(row, column));
            }
        }
    }
    let changed: Vec<&str> = planned.changed.iter().map(|(_, id)| id.as_str()).collect();
    assert_eq!(changed, vec!["id-a", "id-b"]);
    let recorded = planned.changes();
    assert_eq!(recorded.len(), 2);
    for (change, id) in recorded.iter().zip(changed) {
        assert_eq!(change.table, ChangeTable::Expenses { year: 2026, month: 3 });
        assert_eq!(change.row_id, id);
        assert_eq!(change.op, upsert_row(after, id));
        assert!(matches!(change.op, Ok(ChangeOp::Upsert { .. })));
    }

    let mut second = RepairRun::start(false, None).unwrap();
    second.scan(MARCH.to_string(), 2026, 3, after, None).unwrap();
    assert!(second.report.files.is_empty());
}

#[test]
fn day_policy_parse_rejects_unknown_values() {
    assert_eq!(DayPolicy::parse("first-of-month"), Some(DayPolicy::FirstOfMonth));
    assert_eq!(DayPolicy::parse("last-of-month"), None);
    assert_eq!(DayPolicy::parse(""), None);
    assert_eq!(DayPolicy::FirstOfMonth.day(), 1);
}

#[test]
fn a_month_without_dates_cannot_be_classified() {
    let df = Table::of(vec![Column::of("expense_name", DataType::Text)], vec![]).unwrap();
    assert!(classify(&df, 2026, 3).is_err());
}

#[test]
fn files_are_visited_in_the_order_of_years_and_months() {
    let folders: Vec<String> =
        ["2027", "notes", "2026", "999"].iter().map(|name| name.to_string()).collect();
    let years: Vec<i32> = sorted_years(&folders).iter().map(|folder| folder.year).collect();
    assert_eq!(years, vec![999, 2026, 2027]);
    let paths = month_files(&folders);
    assert_eq!(paths.len(), 36);
    assert_eq!(paths[0], "999/01_detailed_expenses.parquet");
    assert_eq!(paths[35], "2027/12_detailed_expenses.parquet");
}

#[test]
fn a_report_reads_as_text() {
    let report = ExpenseDateRepairReport {
        files: vec![FileRepairCounts {
            path: MARCH.to_string(),
            total_rows: 4,
            class_a: 1,
            class_b: 1,
        }],
        rows_repaired: 2,
        backup_dir: Some("backups/before".to_string()),
        skipped_paths: vec!["2026/05_detailed_expenses.parquet".to_string()],
        applied: true,
    };
    assert_eq!(
        report.text(),
        "Expense date repair: 1 file affected, 1 null-date row (class A), 1 out-of-month row (class B).\n  2026/03_detailed_expenses.parquet: 4 rows total, 1 class A, 1 class B\nRepaired 2 rows across 1 file. Backup: backups/before Skipped 1 unreadable path, named in the warnings above."
    );
    let nothing = ExpenseDateRepairReport {
        files: vec![],
        rows_repaired: 0,
        backup_dir: None,
        skipped_paths: vec![],
        applied: false,
    };
    assert_eq!(
        nothing.text(),
        "Expense date repair: no file has a class A or class B row.\nDry run: nothing was written."
    );
    assert_eq!(plural(1), "");
    assert_eq!(plural(2), "s");
}
