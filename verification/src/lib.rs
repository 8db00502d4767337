//! The rules of a personal finance tracker: monthly and yearly tables, the change
//! log that keeps two devices in step, exchange rates, settings, and the small
//! arithmetic of its input fields.
//!
//! The library works on tables and logs in memory. Reading and writing files,
//! asking for exchange rates and serving requests is left to the program around
//! it, and so is arithmetic on floating point numbers: here such a number is only
//! carried along, by its bits.

pub mod append;
pub mod backup;
pub mod cashflow;
pub mod categories;
pub mod change_laws;
pub mod changes;
pub mod config;
pub mod config_laws;
pub mod date_laws;
pub mod dates;
pub mod deletion_laws;
pub mod doubles;
pub mod edit_laws;
pub mod error;
pub mod expense_date_repair;
pub mod expense_laws;
pub mod expenses;
pub mod expr;
pub mod expr_forms;
pub mod expr_laws;
pub mod expr_trees;
pub mod fact_laws;
pub mod facts;
pub mod filter_laws;
pub mod filters;
pub mod frame_laws;
pub mod frames;
pub mod fx;
pub mod fx_batch;
pub mod fx_keys;
pub mod fx_laws;
pub mod fx_monthly;
pub mod fx_runs;
pub mod holdings;
pub mod income_laws;
pub mod loading_laws;
pub mod log_laws;
pub mod lookup_laws;
pub mod merge;
pub mod merge_apply;
pub mod merge_apply_laws;
pub mod merge_convergence;
pub mod merge_file_laws;
pub mod merge_files;
pub mod merge_laws;
pub mod merge_row;
pub mod merge_run;
pub mod net_worth;
pub mod number_laws;
pub mod numbers;
pub mod paths;
pub mod quote_laws;
pub mod rate_laws;
pub mod record_laws;
pub mod recurring;
pub mod recurring_laws;
pub mod refusal_laws;
pub mod repair_laws;
pub mod repair_run;
pub mod rows;
pub mod sheet_laws;
pub mod storage_laws;
pub mod summaries;
pub mod sync;
pub mod table;
pub mod template_laws;
pub mod text;
pub mod text_map;
pub mod wide;
