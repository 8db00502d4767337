//! Expenses that come back every month, and the rows they generate.

use finguard::append::append_row;
use finguard::changes::Change;
use finguard::error::Error;
use finguard::expenses::DetailedExpenses;
use finguard::frames::str_col_to_vec;
use finguard::merge::{plan_merge, MergeOutcome, RowAction, SkipReason};
use finguard::merge_apply::ROW_ID_COLUMN;
use finguard::recurring::{derived_recurring_row_id, RecurringExpenses};
use finguard::sync::{ChangeEntry, ChangeOp, ChangeOrigin, ChangeTable, Hlc};
use finguard::table::{Cell, Column, DataType, Table};

fn float(value: f64) -> u64 {
    value.to_bits()
}

fn templates() -> RecurringExpenses {
    RecurringExpenses::new(2026, None).expect("no templates yet")
}

fn month(number: u32) -> DetailedExpenses {
    DetailedExpenses::new(2026, number, None).expect("an empty month")
}

fn add_rent(recurring: &mut RecurringExpenses) -> String {
    recurring
        .add("Rent", 1, float(1_000.0), "EUR", "Housing", "Rent")
        .expect("add the template")
}

fn row_ids(df: &Table) -> Vec<String> {
    str_col_to_vec(df, ROW_ID_COLUMN).expect("read the row ids")
}

/// The changes as log entries, stamped in the order they were made.
fn log_of(lists: &[&[Change]]) -> Vec<ChangeEntry> {
    let mut entries = Vec::new();
    for change in lists.iter().flat_map(|list| list.iter()) {
        entries.push(ChangeEntry {
            stamp: Hlc { ms: 100 + entries.len() as i64, counter: 0 },
            device_id: "desktop".to_string(),
            table: change.table,
            row_id: change.row_id.clone(),
            origin: change.origin.clone(),
            op: change.op.as_ref().expect("a change the log can carry").clone(),
        });
    }
    entries
}

/// A second template that has the id of the first.
fn add_twin(recurring: &mut RecurringExpenses, row_id: &str) {
    let columns = vec![
        Column::of("expense_name", DataType::Text),
        Column::of("expense_day", DataType::Int64),
        Column::of("expense_amount", DataType::Float64),
        Column::of("currency", DataType::Text),
        Column::of("primary_category", DataType::Text),
        Column::of("secondary_category", DataType::Text),
        Column::of(ROW_ID_COLUMN, DataType::Text),
    ];
    let cells = vec![
        Cell::Text("Internet".to_string()),
        Cell::Int(5),
        Cell::Float(float(40.0)),
        Cell::Text("EUR".to_string()),
        Cell::Text("Housing".to_string()),
        Cell::Text("Internet".to_string()),
        Cell::Text(row_id.to_string()),
    ];
    append_row(&mut recurring.df, &columns, &cells).expect("append the template");
}

#[test]
fn recurring_expenses_load_normalizes_legacy_currency() {
    let mut recurring = templates();
    recurring
        .add("Legacy Rent", 1, float(1_000.0), "E", "Housing", "Rent")
        .expect("add legacy recurring expense");
    recurring
        .add("Modern Rent", 1, float(1_000.0), "USD", "Housing", "Rent")
        .expect("add modern recurring expense");

    let reloaded = RecurringExpenses::new(2026, Some(recurring.df.clone())).expect("reload");
    assert_eq!(
        str_col_to_vec(&reloaded.df, "currency").expect("read currency column"),
        vec!["EUR", "USD"]
    );
}

#[test]
fn apply_recurring_gives_generated_rows_derived_ids() {
    let mut recurring = templates();
    let template_id = add_rent(&mut recurring);

    let mut de = month(3);
    let log = log_of(&[&recurring.changes]);
    let pending = recurring.pending_for_month(&de, &log).expect("compute pending rows");
    recurring.insert_resolved(&mut de, &pending).expect("insert pending rows");

    assert_eq!(row_ids(&de.expense_df), vec![format!("{template_id}:2026-03")]);
}

#[test]
fn apply_recurring_twice_adds_nothing_second_time() {
    let mut recurring = templates();
    add_rent(&mut recurring);

    let mut de = month(3);
    let log = log_of(&[&recurring.changes]);
    let first_pending = recurring.pending_for_month(&de, &log).expect("compute pending rows");
    let first_added = recurring
        .insert_resolved(&mut de, &first_pending)
        .expect("insert pending rows");
    assert_eq!(first_added.len(), 1);

    let log = log_of(&[&recurring.changes, &de.changes]);
    let second_pending = recurring
        .pending_for_month(&de, &log)
        .expect("compute pending rows again");
    assert!(second_pending.is_empty(), "a second apply must find nothing pending");
    assert_eq!(de.expense_df.height(), 1, "the row count must not change");
}

#[test]
fn apply_recurring_skips_legacy_row_with_random_id() {
    let mut recurring = templates();
    add_rent(&mut recurring);

    let mut de = month(3);
    de.add_row("Rent", 1, float(1_000.0), Some("Housing"), "EUR", Some("Rent"), None)
        .expect("add a legacy row with a random row_id");

    let pending = recurring.pending_for_month(&de, &[]).expect("compute pending rows");
    assert!(pending.is_empty(), "the name-and-day match must still skip the template");
}

#[test]
fn pending_for_month_derives_same_id_across_instances() {
    let mut recurring = templates();
    let template_id = add_rent(&mut recurring);

    let de_a = month(3);
    let de_b = month(3);
    let pending_a = recurring.pending_for_month(&de_a, &[]).expect("pending rows (a)");
    let pending_b = recurring.pending_for_month(&de_b, &[]).expect("pending rows (b)");

    assert_eq!(pending_a.len(), 1);
    assert_eq!(pending_b.len(), 1);
    assert_eq!(pending_a[0].row_id, pending_b[0].row_id);
    assert_eq!(pending_a[0].row_id, format!("{template_id}:2026-03"));
}

#[test]
fn pending_for_month_skips_generated_row_after_it_is_renamed() {
    let mut recurring = templates();
    add_rent(&mut recurring);

    let mut de = month(3);
    let pending = recurring.pending_for_month(&de, &[]).expect("compute pending rows");
    let row_id = pending[0].row_id.clone();
    recurring.insert_resolved(&mut de, &pending).expect("insert pending rows");

    de.edit_row(&row_id, Some("No Longer Rent"), None, None, None, None, None, None)
        .expect("rename the generated row, keeping its row_id");

    let log = log_of(&[&recurring.changes, &de.changes]);
    let second_pending = recurring
        .pending_for_month(&de, &log)
        .expect("compute pending rows after the rename");
    assert!(
        second_pending.is_empty(),
        "the derived-ID check must still skip the renamed row"
    );
}

#[test]
fn insert_resolved_skips_a_second_template_sharing_a_row_id() {
    let mut recurring = templates();
    let template_id = add_rent(&mut recurring);
    add_twin(&mut recurring, &template_id);

    let mut de = month(3);
    let pending = recurring.pending_for_month(&de, &[]).expect("compute pending rows");
    assert_eq!(pending.len(), 2, "both templates derive the same ID and are both pending");

    let added = recurring.insert_resolved(&mut de, &pending).expect("insert pending rows");
    assert_eq!(
        added,
        vec!["Rent".to_string()],
        "the second template must be skipped, and not counted as added"
    );
    assert_eq!(
        de.expense_df.height(),
        1,
        "only one row may land in the month under the shared id"
    );
}

/// A template, its row generated into March, and that row deleted by the user.
fn march_rent_generated_then_deleted() -> (RecurringExpenses, DetailedExpenses, String) {
    let mut recurring = templates();
    let template_id = add_rent(&mut recurring);

    let mut de = month(3);
    let log = log_of(&[&recurring.changes]);
    let plan = recurring.plan_for_month(&de, &log).expect("plan march");
    recurring
        .insert_resolved(&mut de, &plan.pending)
        .expect("insert pending rows");
    de.delete_row(&format!("{template_id}:2026-03"))
        .expect("delete the generated row");

    (recurring, de, template_id)
}

#[test]
fn plan_for_month_skips_a_generated_row_the_user_deleted() {
    let (recurring, de, template_id) = march_rent_generated_then_deleted();

    let log = log_of(&[&recurring.changes, &de.changes]);
    let plan = recurring.plan_for_month(&de, &log).expect("plan march again");
    assert!(plan.pending.is_empty(), "a deleted generated row must not be pending again");
    assert_eq!(plan.skipped.len(), 1);
    assert_eq!(plan.skipped[0].row_id, format!("{template_id}:2026-03"));
    assert_eq!(plan.skipped[0].template_row_id, template_id);
    assert_eq!(plan.skipped[0].expense_name, "Rent");
    assert_eq!(plan.skipped[0].expense_day, 1);
    assert_eq!(de.expense_df.height(), 0, "the month must stay empty");
}

#[test]
fn plan_for_month_reports_a_deleted_and_a_due_template_together() {
    let (mut recurring, mut de, deleted_template) = march_rent_generated_then_deleted();

    let due_template = recurring
        .add("Internet", 5, float(40.0), "EUR", "Housing", "Internet")
        .expect("add a second template");

    let log = log_of(&[&recurring.changes, &de.changes]);
    let plan = recurring.plan_for_month(&de, &log).expect("plan march again");
    assert_eq!(plan.pending.len(), 1);
    assert_eq!(plan.pending[0].template_row_id, due_template);
    assert_eq!(plan.pending[0].row_id, format!("{due_template}:2026-03"));
    assert_eq!(plan.skipped.len(), 1);
    assert_eq!(plan.skipped[0].template_row_id, deleted_template);
    assert_eq!(plan.skipped[0].row_id, format!("{deleted_template}:2026-03"));

    let added = recurring
        .insert_resolved(&mut de, &plan.pending)
        .expect("insert pending rows");
    assert_eq!(added, vec!["Internet".to_string()]);
    assert_eq!(
        row_ids(&de.expense_df),
        vec![format!("{due_template}:2026-03")],
        "only the due template's row may land in the month"
    );
}

#[test]
fn a_reinstated_row_beats_the_older_delete_at_the_next_merge() {
    let (recurring, mut de, template_id) = march_rent_generated_then_deleted();
    let row_id = format!("{template_id}:2026-03");
    recurring
        .reinstate_for_month(&mut de, &template_id)
        .expect("reinstate the deleted row");

    // The other device's log stops at the delete; the reinstate is the one entry
    // this device has to send it.
    let entries = log_of(&[&recurring.changes, &de.changes]);
    let (local, remote) = entries.split_at(entries.len() - 1);
    assert_eq!(remote[0].row_id, row_id);
    assert_eq!(remote[0].origin, None);
    assert!(
        local
            .iter()
            .any(|entry| entry.row_id == row_id && entry.op == ChangeOp::Delete),
        "the other device must still hold the delete this reinstate has to beat"
    );

    let plan = plan_merge(local, remote);
    assert_eq!(plan.decisions.len(), 1);
    assert_eq!(plan.decisions[0].outcome, MergeOutcome::Applied);
    assert_eq!(plan.actions.len(), 1);
    assert_eq!(plan.actions[0].row_id, row_id);
    assert!(
        matches!(plan.actions[0].action, RowAction::Upsert { .. }),
        "the reinstated row must be written back"
    );

    let mut as_generated = remote[0].clone();
    as_generated.origin = Some(ChangeOrigin::RecurringApply);
    let held_back = plan_merge(local, &[as_generated]);
    assert!(
        matches!(
            held_back.decisions[0].outcome,
            MergeOutcome::Skipped(SkipReason::GeneratedRowStaysDeleted(_))
        ),
        "the same entry marked generated must lose to the delete: {:?}",
        held_back.decisions[0].outcome
    );
    assert!(
        !held_back
            .actions
            .iter()
            .any(|action| matches!(action.action, RowAction::Upsert { .. })),
        "a generated upsert must not write the row back"
    );
}

#[test]
fn plan_for_month_reports_an_untouched_template_as_pending() {
    let mut recurring = templates();
    let template_id = add_rent(&mut recurring);

    let de = month(3);
    let log = log_of(&[&recurring.changes]);
    let plan = recurring.plan_for_month(&de, &log).expect("plan march");
    assert_eq!(plan.pending.len(), 1);
    assert_eq!(plan.pending[0].row_id, format!("{template_id}:2026-03"));
    assert!(plan.skipped.is_empty());
}

#[test]
fn deleting_a_generated_row_leaves_another_month_due() {
    let (recurring, march, template_id) = march_rent_generated_then_deleted();

    let april = month(4);
    let log = log_of(&[&recurring.changes, &march.changes]);
    let plan = recurring.plan_for_month(&april, &log).expect("plan april");
    assert_eq!(plan.pending.len(), 1, "april is untouched and still due");
    assert_eq!(plan.pending[0].row_id, format!("{template_id}:2026-04"));
    assert!(plan.skipped.is_empty());
}

#[test]
fn reinstating_a_skipped_row_records_an_ordinary_upsert() {
    let (recurring, mut de, template_id) = march_rent_generated_then_deleted();
    let row_id = format!("{template_id}:2026-03");

    let reinstated = recurring
        .reinstate_for_month(&mut de, &template_id)
        .expect("reinstate the deleted row");
    assert!(reinstated.created);
    assert_eq!(reinstated.row_id, row_id);
    assert_eq!(de.expense_df.height(), 1);
    assert_eq!(row_ids(&de.expense_df), vec![row_id.clone()]);

    let entries = log_of(&[&recurring.changes, &de.changes]);
    let last = entries
        .iter()
        .rev()
        .find(|entry| entry.row_id == row_id)
        .expect("the reinstated row is recorded");
    assert_eq!(last.origin, None, "a confirmed reinstate is a user action");
    assert!(
        matches!(last.op, ChangeOp::Upsert { .. }),
        "the reinstate must record the whole row"
    );
}

#[test]
fn applying_after_a_reinstate_adds_nothing_and_skips_nothing() {
    let (recurring, mut de, template_id) = march_rent_generated_then_deleted();
    recurring
        .reinstate_for_month(&mut de, &template_id)
        .expect("reinstate the deleted row");

    let log = log_of(&[&recurring.changes, &de.changes]);
    let plan = recurring.plan_for_month(&de, &log).expect("plan march again");
    assert!(plan.pending.is_empty());
    assert!(plan.skipped.is_empty());

    let added = recurring
        .insert_resolved(&mut de, &plan.pending)
        .expect("insert pending rows");
    assert!(added.is_empty());
    assert_eq!(de.expense_df.height(), 1, "the row must not be duplicated");
}

#[test]
fn reinstating_twice_creates_one_row() {
    let (recurring, mut de, template_id) = march_rent_generated_then_deleted();

    recurring
        .reinstate_for_month(&mut de, &template_id)
        .expect("reinstate the deleted row");
    let changes_after_first = de.changes.len();

    let second = recurring
        .reinstate_for_month(&mut de, &template_id)
        .expect("a second reinstate succeeds");
    assert!(!second.created, "the second call must write nothing");
    assert_eq!(de.expense_df.height(), 1);
    assert_eq!(
        de.changes.len(),
        changes_after_first,
        "a call that writes nothing records nothing"
    );
}

#[test]
fn reinstate_refuses_an_unknown_or_duplicated_template() {
    let mut recurring = templates();
    let template_id = add_rent(&mut recurring);
    let mut de = month(3);

    let unknown = recurring
        .reinstate_for_month(&mut de, "no-such-template")
        .expect_err("an unknown template must be refused");
    assert!(matches!(unknown, Error::NotFound(_)), "{unknown:?}");
    assert_eq!(
        unknown.message(),
        "No recurring expense with id 'no-such-template' in 2026."
    );

    add_twin(&mut recurring, &template_id);
    let ambiguous = recurring
        .reinstate_for_month(&mut de, &template_id)
        .expect_err("a shared template id must be refused");
    assert!(matches!(ambiguous, Error::AlreadyExists(_)), "{ambiguous:?}");
    assert_eq!(de.expense_df.height(), 0, "nothing may be written");
}

#[test]
fn only_an_applied_recurring_row_is_marked_generated() {
    let mut recurring = templates();
    let template_id = add_rent(&mut recurring);
    let mut de = month(3);
    let pending = recurring.pending_for_month(&de, &[]).expect("compute pending rows");
    recurring
        .insert_resolved(&mut de, &pending)
        .expect("insert the generated row");
    de.add_row("Tea", 2, float(3.0), Some("Out"), "EUR", Some("Cafe"), None)
        .expect("add a typed row");

    let entries = log_of(&[&recurring.changes, &de.changes]);
    assert_eq!(entries.len(), 3);

    assert_eq!(entries[0].table, ChangeTable::Recurring { year: 2026 });
    assert_eq!(entries[0].row_id, template_id);
    assert_eq!(entries[0].origin, None, "adding a template is a user action");

    assert_eq!(entries[1].table, ChangeTable::Expenses { year: 2026, month: 3 });
    assert_eq!(entries[1].row_id, format!("{template_id}:2026-03"));
    assert_eq!(entries[1].origin, Some(ChangeOrigin::RecurringApply));

    assert_eq!(entries[2].origin, None, "a typed row carries no origin");
}

#[test]
fn removing_a_recurring_template_records_a_delete() {
    let mut recurring = templates();
    let template_id = add_rent(&mut recurring);
    recurring.remove(&template_id).expect("remove the template");

    let entries = log_of(&[&recurring.changes]);
    assert_eq!(entries.len(), 2);
    assert_eq!(entries[1].table, ChangeTable::Recurring { year: 2026 });
    assert_eq!(entries[1].row_id, template_id);
    assert_eq!(entries[1].op, ChangeOp::Delete);
}

#[test]
fn a_template_needs_a_day_that_every_month_has() {
    let mut recurring = templates();
    for day in [0, 29, -1] {
        let err = recurring
            .add("Rent", day, float(1.0), "EUR", "Housing", "Rent")
            .expect_err("a day outside 1..=28 is refused");
        assert_eq!(
            err.message(),
            format!("expense_day must be between 1 and 28, got {day}")
        );
    }
    assert_eq!(recurring.df.height(), 0);
    assert!(recurring.changes.is_empty());
    recurring
        .add("Rent", 28, float(1.0), "EUR", "housing", "TV")
        .expect("the last day is accepted");
    assert_eq!(str_col_to_vec(&recurring.df, "primary_category").unwrap(), vec!["Housing"]);
    assert_eq!(str_col_to_vec(&recurring.df, "secondary_category").unwrap(), vec!["TV"]);
}

#[test]
fn a_derived_id_holds_the_template_the_year_and_the_month() {
    assert_eq!(derived_recurring_row_id("t", 2026, 3), "t:2026-03");
    assert_eq!(derived_recurring_row_id("a:b", 987, 12), "a:b:0987-12");
    assert_eq!(derived_recurring_row_id("t", -5, 1), "t:-005-01");
}

#[test]
fn a_fresh_template_id_is_a_random_identifier() {
    let mut recurring = templates();
    let one = add_rent(&mut recurring);
    let other = add_rent(&mut recurring);
    assert_ne!(one, other);
    for id in [one, other] {
        let parsed = uuid::Uuid::parse_str(&id).expect("an identifier");
        assert_eq!(parsed.get_version_num(), 4);
        assert_eq!(parsed.to_string(), id);
    }
}

#[test]
fn a_template_stands_for_its_own_day_alone() {
    // Day counts that no caller can enter, from a damaged file.
    let mut recurring = templates();
    let template_id = add_rent(&mut recurring);
    let day = recurring.df.find_column("expense_day").expect("a day column");
    recurring.df.set_cell(0, day, Cell::Int(256 + 1));
    let mut de = month(3);
    de.add_row("Rent", 1, float(1.0), Some("Housing"), "EUR", Some("Rent"), None).unwrap();
    assert_eq!(recurring.pending_for_month(&de, &[]).unwrap().len(), 1);
    assert_eq!(recurring.rows_for_month(2026, 3).unwrap()[0].expense_day, 257);

    recurring.df.set_cell(0, day, Cell::Int(-1));
    let rows = recurring.rows_for_month(2026, 3).unwrap();
    assert_eq!(rows[0].expense_day, u32::MAX);
    assert_eq!(rows[0].template_row_id, template_id);
    assert_eq!(recurring.pending_for_month(&de, &[]).unwrap().len(), 1);

    recurring.df.set_cell(0, day, Cell::Int(1));
    assert!(recurring.pending_for_month(&de, &[]).unwrap().is_empty());
}

#[test]
fn a_date_outside_the_calendar_stands_on_no_day() {
    let mut recurring = templates();
    add_rent(&mut recurring);
    let mut de = month(3);
    de.add_row("Rent", 1, float(1.0), Some("Housing"), "EUR", Some("Rent"), None).unwrap();
    let date = de.expense_df.find_column("expense_date").expect("a date column");
    de.expense_df.set_cell(0, date, Cell::Date(i32::MIN));
    let plan = recurring.plan_for_month(&de, &[]).unwrap();
    assert_eq!(plan.pending.len(), 1);
    assert!(plan.skipped.is_empty());
}
