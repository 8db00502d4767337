//! Texts, numbers, dates, paths and errors.

use finguard::categories::{existing_category_set, normalize_category_value, resolve_category};
use finguard::changes::cell_number;
use finguard::doubles::{to_double, to_single};
use finguard::dates::{insert_date, Date, LAST_YEAR};
use finguard::error::Error;
use finguard::numbers::{is_finite, whole_number};
use finguard::paths::{
    get_monthly_parquet_path, get_year_summary_path, month_from_parquet_path,
    year_from_parquet_path, year_month_from_parquet_path, LIQUIDITY_FILENAME,
};
use finguard::rows::{Number, Value};
use finguard::table::{Cell, Column, DataType, Table};
use finguard::text::{
    insert_text, parse_i32, parse_u32, push_decimal, push_padded, push_signed, rank, same_text,
    trim, Rank,
};
use finguard::text_map::TextMap;

fn float(value: f64) -> u64 {
    value.to_bits()
}

#[test]
fn texts_are_ordered_by_their_characters() {
    assert!(matches!(rank("abc", "abd"), Rank::Before));
    assert!(matches!(rank("ab", "abc"), Rank::Before));
    assert!(matches!(rank("b", "abc"), Rank::After));
    assert!(matches!(rank("a", "a"), Rank::Same));
    assert!(same_text("Miete", "Miete") && !same_text("Miete", "miete"));
}

#[test]
fn white_space_around_a_text_goes() {
    assert_eq!(trim("  a b\t\n"), "a b");
    assert_eq!(trim("\u{2003}x\u{00a0}"), "x");
    assert_eq!(trim("   "), "");
}

#[test]
fn numbers_are_written_in_decimal() {
    let mut out = String::new();
    push_decimal(&mut out, 0);
    push_decimal(&mut out, u64::MAX);
    push_signed(&mut out, -12);
    push_signed(&mut out, i64::MIN);
    push_padded(&mut out, 7, 2);
    push_padded(&mut out, 123, 2);
    assert_eq!(out, "018446744073709551615-12-922337203685477580807123");
}

#[test]
fn numbers_are_read_within_their_range() {
    assert_eq!(parse_u32("4294967295"), Some(u32::MAX));
    assert_eq!(parse_u32("4294967296"), None);
    assert_eq!(parse_u32("+7"), Some(7));
    assert_eq!(parse_u32(""), None);
    assert_eq!(parse_u32("-1"), None);
    assert_eq!(parse_i32("-2147483648"), Some(i32::MIN));
    assert_eq!(parse_i32("2147483648"), None);
    assert_eq!(parse_i32("7a"), None);
}

#[test]
fn a_list_of_texts_stays_sorted_without_repeats() {
    let mut list = Vec::new();
    for text in ["b", "a", "c", "a"] {
        insert_text(&mut list, text.to_string());
    }
    assert_eq!(list, vec!["a", "b", "c"]);
}

#[test]
fn a_text_map_keeps_its_keys_in_order() {
    let mut map = TextMap::new();
    map.insert("2026-09-04".to_string(), 1u64);
    map.insert("2026-01-31".to_string(), 2u64);
    map.insert("2026-09-04".to_string(), 3u64);
    assert_eq!(map.len(), 2);
    assert_eq!(map.key_at(0), "2026-01-31");
    assert_eq!(map.get("2026-09-04"), Some(&3));
    assert_eq!(map.get("2026-09-05"), None);
    assert_eq!(map.first(), Some("2026-01-31"));
    assert_eq!(map.last(), Some(1));
    assert_eq!(map.last_before("2026-09-04"), Some(0));
    assert_eq!(map.last_before("2026-01-31"), None);
    assert!(map.contains_key("2026-01-31"));
}

#[test]
fn a_float_without_a_fraction_is_a_whole_number() {
    assert_eq!(whole_number(Number::Float(float(5.0))), Some(5));
    assert_eq!(whole_number(Number::Float(float(-3.0))), Some(-3));
    assert_eq!(whole_number(Number::Float(float(5.5))), None);
    assert_eq!(whole_number(Number::Float(float(9.3e18))), None);
    assert_eq!(whole_number(Number::Float(float(-9223372036854775808.0))), Some(i64::MIN));
    assert_eq!(whole_number(Number::Float(float(f64::NAN))), None);
    assert_eq!(whole_number(Number::Float(float(f64::INFINITY))), None);
    assert_eq!(whole_number(Number::Int(-7)), Some(-7));
    assert_eq!(whole_number(Number::UInt(u64::MAX)), None);
}

#[test]
fn a_whole_number_becomes_the_nearest_double() {
    let wholes = [
        0, 1, -1, 3, 1200, 1 << 52, (1 << 53) - 1, 1 << 53, (1 << 53) + 1, (1 << 53) + 3,
        -((1 << 54) + 2), -((1 << 54) + 6), i64::MAX, i64::MIN, i64::MAX - 511, i64::MAX - 512,
    ];
    for n in wholes {
        assert_eq!(to_double(Number::Int(n)), (n as f64).to_bits(), "{n}");
    }
    for n in [0, 7, u64::MAX, u64::MAX - 1023, u64::MAX - 1024, (1 << 63) + 1024] {
        assert_eq!(to_double(Number::UInt(n)), (n as f64).to_bits(), "{n}");
    }
    assert_eq!(to_double(Number::Float(float(0.1))), float(0.1));
}

#[test]
fn a_double_is_rounded_to_single_precision() {
    let values = [
        0.0, -0.0, 1.0, 0.1, -0.1, 1.0e-40, 3.0e-45, 7.0e-46, 7.1e-46, 1.5e-45, 2.0e-38, 1.0e-300,
        5e-324, 3.4e38, 3.4028235677973366e38, 3.4028235677973362e38, 1e300, -1e39, 16777217.0,
        16777219.0, 123456789.0, f64::INFINITY, f64::MAX, f64::MIN_POSITIVE,
    ];
    for value in values {
        assert_eq!(to_single(float(value)), float(f64::from(value as f32)), "{value:e}");
    }
}

#[test]
fn a_change_carries_finite_numbers_only() {
    assert!(is_finite(float(1.5)) && is_finite(float(-0.0)));
    assert!(!is_finite(float(f64::NAN)) && !is_finite(float(f64::NEG_INFINITY)));
    assert_eq!(cell_number(float(1.5)).unwrap(), Value::Number(Number::Float(float(1.5))));
    assert!(matches!(cell_number(float(f64::NAN)), Err(Error::InvalidArgument(_))));
}

#[test]
fn dates_follow_the_calendar() {
    assert_eq!(Date::from_ymd(1970, 1, 1).unwrap().days(), 0);
    assert_eq!(Date::from_ymd(2026, 9, 4).unwrap().days(), 20700);
    assert_eq!(Date::from_ymd(1969, 12, 31).unwrap().days(), -1);
    assert!(Date::from_ymd(2024, 2, 29).is_some());
    assert!(Date::from_ymd(2026, 2, 29).is_none());
    assert!(Date::from_ymd(1900, 2, 29).is_none());
    assert!(Date::from_ymd(2000, 2, 29).is_some());
    assert!(Date::from_ymd(2026, 0, 1).is_none());
    assert!(Date::from_ymd(LAST_YEAR + 1, 1, 1).is_none());
    for days in [-800_000, -1, 0, 59, 60, 11_016, 20_700, 1_000_000] {
        let (year, month, day) = Date::from_days(days).unwrap().ymd();
        assert_eq!(Date::from_ymd(year, month, day).unwrap().days(), days);
    }
    assert!(Date::from_days(i32::MAX).is_none());
    let march = Date::from_ymd(2024, 3, 1).unwrap();
    assert_eq!(march.day_before().ymd(), (2024, 2, 29));
}

#[test]
fn dates_are_written_and_read() {
    let date = Date::from_ymd(2026, 3, 7).unwrap();
    assert_eq!(date.text(), "2026-03-07");
    assert_eq!(Date::read("2026-03-07"), Ok(date));
    assert!(Date::read("7 March").is_err());
    assert!(Date::read("2026-02-30").is_err());
    assert_eq!(Date::from_ymd(12345, 1, 2).unwrap().text(), "+12345-01-02");
    let mut list = Vec::new();
    for days in [5, 3, 5, 4] {
        insert_date(&mut list, Date::from_days(days).unwrap());
    }
    let days: Vec<i32> = list.iter().map(|date| date.days()).collect();
    assert_eq!(days, vec![3, 4, 5]);
}

#[test]
fn a_month_has_a_path_and_a_path_its_month() {
    let path = get_monthly_parquet_path(2026, 3).unwrap();
    assert_eq!(path, "2026/03_detailed_expenses.parquet");
    assert_eq!(year_month_from_parquet_path(&path), Ok((2026, 3)));
    assert_eq!(month_from_parquet_path("/data/2026/12_detailed_expenses.parquet"), Ok(12));
    assert_eq!(year_from_parquet_path("/data/2026/12_detailed_expenses.parquet"), Ok(2026));
    assert_eq!(get_year_summary_path(2026, LIQUIDITY_FILENAME), "2026/liquidity.parquet");
    assert_eq!(
        get_monthly_parquet_path(2026, 13).unwrap_err().message(),
        "month must be between 1 and 12, got 13"
    );
    assert!(month_from_parquet_path("2026/xx_detailed_expenses.parquet").is_err());
    assert!(month_from_parquet_path("2026/13_detailed_expenses.parquet").is_err());
    assert!(month_from_parquet_path("2026/00_detailed_expenses.parquet").is_err());
    for shown in ["3", "003", "+3", " 3", ""] {
        let path = format!("2026/{shown}_detailed_expenses.parquet");
        assert!(matches!(month_from_parquet_path(&path), Err(Error::InvalidArgument(_))));
    }
    assert!(year_from_parquet_path("march/03_detailed_expenses.parquet").is_err());
}

#[test]
fn every_error_has_a_status_a_name_and_a_message() {
    let text = || "why".to_string();
    let errors = [
        (Error::Io(text()), 500, "Io", "I/O error: why"),
        (Error::Json(text()), 500, "Json", "JSON error: why"),
        (Error::Polars(text()), 500, "Polars", "polars error: why"),
        (Error::InvalidArgument(text()), 400, "InvalidArgument", "why"),
        (Error::NotFound(text()), 404, "NotFound", "why"),
        (Error::AlreadyExists(text()), 409, "AlreadyExists", "why"),
        (Error::NoHomeDir, 500, "NoHomeDir", "could not determine home directory"),
        (Error::Network(text()), 503, "Network", "why"),
        (Error::RowIdsMissing(text()), 500, "RowIdsMissing", "why"),
        (
            Error::SyncLogLocked { path: text() },
            503,
            "SyncLogLocked",
            "the sync change log at why is already open: another process, or another handle in this one, holds it. Only one writer at a time may append, because two would issue the same stamps.",
        ),
        (Error::MergeRejected(text()), 422, "MergeRejected", "why"),
        (
            Error::RowIdMigration { path: text(), source: "disk".to_string() },
            500,
            "RowIdMigration",
            "row ID migration failed for why: disk",
        ),
        (Error::SyncResetBackup(text()), 500, "SyncResetBackup", "why"),
        (Error::SyncProtocol(text()), 400, "SyncProtocol", "why"),
        (Error::SyncRefused(text()), 409, "SyncRefused", "why"),
    ];
    for (error, status, name, message) in errors {
        assert_eq!(error.status(), status);
        assert_eq!(error.variant(), name);
        assert_eq!(error.message(), message);
    }
}

#[test]
fn categories_are_spelled_one_way() {
    assert_eq!(normalize_category_value("fOOD"), "Food");
    let existing = vec!["iPhone".to_string()];
    assert_eq!(resolve_category("IPHONE", &existing), "iPhone");
    assert_eq!(resolve_category("rent", &existing), "Rent");
    let df = Table::of(
        vec![Column::of("primary_category", DataType::Text)],
        vec![vec![Cell::Text("Food".to_string())], vec![Cell::Null]],
    )
    .unwrap();
    assert!(existing_category_set(&df, "primary_category", None).contains(&"Food".to_string()));
}
