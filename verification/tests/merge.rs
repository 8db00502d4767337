//! Merging two change logs.

use finguard::merge::{
    generated_row_stays_deleted, plan_merge, CellValue, EntryId, MergeAction, MergeOutcome,
    MergePlan, MergeSummary, RowAction, SkipReason,
};
use finguard::rows::{Number, Row, Value};
use finguard::sync::{ChangeEntry, ChangeOp, ChangeOrigin, ChangeTable, Hlc};

fn text(value: &str) -> Value {
    Value::text(value)
}

fn number(value: f64) -> Value {
    Value::Number(Number::Float(value.to_bits()))
}

const HERE: &str = "desktop";
const THERE: &str = "phone";

fn stamp(ms: i64) -> Hlc {
    Hlc { ms, counter: 0 }
}

fn entry(ms: i64, device: &str, table: ChangeTable, row_id: &str, op: ChangeOp) -> ChangeEntry {
    ChangeEntry {
        stamp: stamp(ms),
        device_id: device.to_string(),
        table,
        row_id: row_id.to_string(),
        origin: None,
        op,
    }
}

fn expenses() -> ChangeTable {
    ChangeTable::Expenses {
        year: 2026,
        month: 3,
    }
}

fn liquidity() -> ChangeTable {
    ChangeTable::Liquidity { year: 2026 }
}

/// A whole expense row, as a month records one.
fn expense_row(row_id: &str, name: &str, amount: f64) -> Row {
    let mut row = Row::new();
    row.insert("row_id".to_string(), text(row_id));
    row.insert("expense_name".to_string(), text(name));
    row.insert("expense_amount".to_string(), number(amount));
    row
}

fn upsert(row: Row) -> ChangeOp {
    ChangeOp::Upsert { row }
}

fn cell(column: &str, value: f64) -> ChangeOp {
    ChangeOp::Cell {
        column: column.to_string(),
        value: number(value),
    }
}

/// A net worth row: one asset, one value per month.
fn asset_row(row_id: &str, march: f64) -> Row {
    let mut row = Row::new();
    row.insert("row_id".to_string(), text(row_id));
    row.insert("name".to_string(), text("Broker"));
    row.insert("03".to_string(), number(march));
    row.insert("04".to_string(), Value::Null);
    row
}

fn id(entry: &ChangeEntry) -> EntryId {
    EntryId::of(entry)
}

/// One entry as a whole log or a whole batch, left where the test can
/// still name it afterwards.
fn one(entry: &ChangeEntry) -> &[ChangeEntry] {
    std::slice::from_ref(entry)
}

fn outcomes(plan: &MergePlan) -> Vec<MergeOutcome> {
    plan.decisions
        .iter()
        .map(|decision| decision.outcome.clone())
        .collect()
}

fn stored(plan: &MergePlan) -> Vec<ChangeEntry> {
    plan.entries_to_store().into_iter().cloned().collect()
}

/// The decisions as the pairs that identify them in these tests, in the
/// order the plan puts them.
fn decision_order(plan: &MergePlan) -> Vec<(i64, &str)> {
    plan.decisions
        .iter()
        .map(|decision| (decision.entry.stamp.ms, decision.entry.row_id.as_str()))
        .collect()
}

fn action_order(plan: &MergePlan) -> Vec<&str> {
    plan.actions
        .iter()
        .map(|action| action.row_id.as_str())
        .collect()
}

/// The other device's newer version of an expense replaces this device's.
#[test]
fn a_newer_remote_expense_replaces_the_local_row() {
    let mine = entry(
        100,
        HERE,
        expenses(),
        "row-1",
        upsert(expense_row("row-1", "Tea", 3.0)),
    );
    let theirs = entry(
        200,
        THERE,
        expenses(),
        "row-1",
        upsert(expense_row("row-1", "Coffee", 4.0)),
    );

    let plan = plan_merge(&[mine], one(&theirs));

    assert_eq!(outcomes(&plan), vec![MergeOutcome::Applied]);
    assert_eq!(
        plan.actions,
        vec![MergeAction {
            table: expenses(),
            row_id: "row-1".to_string(),
            action: RowAction::Upsert {
                row: expense_row("row-1", "Coffee", 4.0)
            },
        }]
    );
    assert_eq!(stored(&plan), vec![theirs]);
}

/// The same two versions the other way round: this device's edit is the
/// newer one, so nothing is written and the loser is still stored.
#[test]
fn an_older_remote_expense_is_stored_but_not_applied() {
    let theirs = entry(
        100,
        THERE,
        expenses(),
        "row-1",
        upsert(expense_row("row-1", "Coffee", 4.0)),
    );
    let mine = entry(
        200,
        HERE,
        expenses(),
        "row-1",
        upsert(expense_row("row-1", "Tea", 3.0)),
    );

    let plan = plan_merge(one(&mine), one(&theirs));

    assert_eq!(
        outcomes(&plan),
        vec![MergeOutcome::Skipped(SkipReason::SupersededByRow(id(
            &mine
        )))]
    );
    assert!(plan.actions.is_empty());
    assert_eq!(stored(&plan), vec![theirs]);
}

/// Two devices stamping the same millisecond are separated by device id,
/// not by which side the entry came from.
#[test]
fn a_tie_on_the_stamp_is_broken_by_device_id() {
    let mine = entry(
        100,
        "aaa",
        expenses(),
        "row-1",
        upsert(expense_row("row-1", "Tea", 3.0)),
    );
    let theirs = entry(
        100,
        "zzz",
        expenses(),
        "row-1",
        upsert(expense_row("row-1", "Coffee", 4.0)),
    );

    let remote_wins = plan_merge(one(&mine), one(&theirs));
    assert_eq!(outcomes(&remote_wins), vec![MergeOutcome::Applied]);
    assert_eq!(remote_wins.actions.len(), 1);

    // Swap the ids and the same stamps go the other way.
    let mut mine = mine;
    mine.device_id = "zzz".to_string();
    let mut theirs = theirs;
    theirs.device_id = "aaa".to_string();
    let local_wins = plan_merge(one(&mine), &[theirs]);
    assert_eq!(
        outcomes(&local_wins),
        vec![MergeOutcome::Skipped(SkipReason::SupersededByRow(id(
            &mine
        )))]
    );
    assert!(local_wins.actions.is_empty());
}

/// A delete made after this device's edit removes the row.
#[test]
fn a_remote_delete_after_a_local_edit_removes_the_row() {
    let mine = entry(
        100,
        HERE,
        expenses(),
        "row-1",
        upsert(expense_row("row-1", "Tea", 3.0)),
    );
    let theirs = entry(200, THERE, expenses(), "row-1", ChangeOp::Delete);

    let plan = plan_merge(&[mine], &[theirs]);

    assert_eq!(outcomes(&plan), vec![MergeOutcome::Applied]);
    assert_eq!(
        plan.actions,
        vec![MergeAction {
            table: expenses(),
            row_id: "row-1".to_string(),
            action: RowAction::Delete,
        }]
    );
}

/// An edit made after this device's delete brings the row back. Nothing
/// but the generated row rule changes that.
#[test]
fn a_remote_edit_after_a_local_delete_brings_the_row_back() {
    let mine = entry(100, HERE, expenses(), "row-1", ChangeOp::Delete);
    let theirs = entry(
        200,
        THERE,
        expenses(),
        "row-1",
        upsert(expense_row("row-1", "Tea", 3.0)),
    );

    let plan = plan_merge(&[mine], &[theirs]);

    assert_eq!(outcomes(&plan), vec![MergeOutcome::Applied]);
    assert_eq!(
        plan.actions,
        vec![MergeAction {
            table: expenses(),
            row_id: "row-1".to_string(),
            action: RowAction::Upsert {
                row: expense_row("row-1", "Tea", 3.0)
            },
        }]
    );
}

/// The one exception: a row `/api/recurring/apply` regenerated does not
/// override a delete, however much newer its stamp is. Without this the
/// row the user deleted comes back every month.
#[test]
fn a_generated_row_does_not_come_back_after_a_delete() {
    let deleted = entry(100, HERE, expenses(), "tpl-1:2026-03", ChangeOp::Delete);
    let mut regenerated = entry(
        900,
        THERE,
        expenses(),
        "tpl-1:2026-03",
        upsert(expense_row("tpl-1:2026-03", "Rent", 1000.0)),
    );
    regenerated.origin = Some(ChangeOrigin::RecurringApply);

    let plan = plan_merge(one(&deleted), one(&regenerated));

    assert_eq!(
        outcomes(&plan),
        vec![MergeOutcome::Skipped(SkipReason::GeneratedRowStaysDeleted(
            id(&deleted)
        ))]
    );
    assert!(plan.actions.is_empty());
    // Held back, not dropped: a third device still gets the entry.
    assert_eq!(stored(&plan), vec![regenerated]);
}

/// The same batch without the mark is an ordinary re-creation and wins on
/// stamp. This and the test above fail together if the rule is deleted or
/// applied to everything.
#[test]
fn an_ordinary_upsert_after_a_delete_is_not_held_back() {
    let deleted = entry(100, HERE, expenses(), "tpl-1:2026-03", ChangeOp::Delete);
    let typed = entry(
        900,
        THERE,
        expenses(),
        "tpl-1:2026-03",
        upsert(expense_row("tpl-1:2026-03", "Rent", 1000.0)),
    );

    let plan = plan_merge(&[deleted], &[typed]);

    assert_eq!(outcomes(&plan), vec![MergeOutcome::Applied]);
    assert_eq!(
        plan.actions,
        vec![MergeAction {
            table: expenses(),
            row_id: "tpl-1:2026-03".to_string(),
            action: RowAction::Upsert {
                row: expense_row("tpl-1:2026-03", "Rent", 1000.0)
            },
        }]
    );
}

/// An origin from a newer version is an ordinary change here. Only
/// `recurring_apply` holds an upsert back.
#[test]
fn an_unknown_origin_merges_on_stamp() {
    let deleted = entry(100, HERE, expenses(), "row-1", ChangeOp::Delete);
    let mut theirs = entry(
        900,
        THERE,
        expenses(),
        "row-1",
        upsert(expense_row("row-1", "Tea", 3.0)),
    );
    theirs.origin = Some(ChangeOrigin::Unknown("imported_from_bank".to_string()));

    let plan = plan_merge(&[deleted], one(&theirs));

    assert_eq!(outcomes(&plan), vec![MergeOutcome::Applied]);
    assert_eq!(plan.actions.len(), 1);
    assert_eq!(stored(&plan), vec![theirs]);
}

/// The user deletes a generated row, types it again by hand, and the next
/// apply regenerates it. The hand typed row is what survives: the rule
/// holds back the generated upsert alone.
#[test]
fn a_hand_typed_row_survives_a_later_generated_upsert() {
    let deleted = entry(100, HERE, expenses(), "tpl-1:2026-03", ChangeOp::Delete);
    let typed = entry(
        200,
        THERE,
        expenses(),
        "tpl-1:2026-03",
        upsert(expense_row("tpl-1:2026-03", "Rent, corrected", 950.0)),
    );
    let mut regenerated = entry(
        300,
        THERE,
        expenses(),
        "tpl-1:2026-03",
        upsert(expense_row("tpl-1:2026-03", "Rent", 1000.0)),
    );
    regenerated.origin = Some(ChangeOrigin::RecurringApply);

    let plan = plan_merge(one(&deleted), &[typed.clone(), regenerated]);

    assert_eq!(
        outcomes(&plan),
        vec![
            MergeOutcome::Applied,
            MergeOutcome::Skipped(SkipReason::GeneratedRowStaysDeleted(id(&deleted))),
        ]
    );
    assert_eq!(
        plan.actions,
        vec![MergeAction {
            table: expenses(),
            row_id: "tpl-1:2026-03".to_string(),
            action: RowAction::Upsert {
                row: expense_row("tpl-1:2026-03", "Rent, corrected", 950.0)
            },
        }]
    );
}

/// A generated upsert older than the delete is an ordinary loser, not a
/// held back one. It is the apply that came after the delete that must not
/// win.
#[test]
fn a_generated_upsert_below_the_delete_loses_on_stamp() {
    let mut generated = entry(
        100,
        THERE,
        expenses(),
        "tpl-1:2026-03",
        upsert(expense_row("tpl-1:2026-03", "Rent", 1000.0)),
    );
    generated.origin = Some(ChangeOrigin::RecurringApply);
    let deleted = entry(200, HERE, expenses(), "tpl-1:2026-03", ChangeOp::Delete);

    let plan = plan_merge(one(&deleted), &[generated]);

    assert_eq!(
        outcomes(&plan),
        vec![MergeOutcome::Skipped(SkipReason::SupersededByRow(id(
            &deleted
        )))]
    );
    assert!(plan.actions.is_empty());
}

/// Two applies around a hand typed row: delete, regenerate, type by hand,
/// regenerate again. The hand typed row is what stands, and both generated
/// upserts are held back by the same delete, including the one that ranks
/// above the hand typed row. This is the shape a later change is most
/// likely to break, because each rule looks right on a pair of entries.
#[test]
fn two_generated_upserts_around_a_hand_typed_row_both_lose_to_it() {
    let deleted = entry(100, HERE, expenses(), "tpl-1:2026-03", ChangeOp::Delete);
    let mut first_apply = entry(
        200,
        THERE,
        expenses(),
        "tpl-1:2026-03",
        upsert(expense_row("tpl-1:2026-03", "Rent", 1000.0)),
    );
    first_apply.origin = Some(ChangeOrigin::RecurringApply);
    let typed = entry(
        300,
        THERE,
        expenses(),
        "tpl-1:2026-03",
        upsert(expense_row("tpl-1:2026-03", "Rent, corrected", 950.0)),
    );
    let mut second_apply = entry(
        400,
        THERE,
        expenses(),
        "tpl-1:2026-03",
        upsert(expense_row("tpl-1:2026-03", "Rent", 1000.0)),
    );
    second_apply.origin = Some(ChangeOrigin::RecurringApply);

    let plan = plan_merge(one(&deleted), &[first_apply, typed, second_apply]);

    assert_eq!(
        outcomes(&plan),
        vec![
            MergeOutcome::Skipped(SkipReason::GeneratedRowStaysDeleted(id(&deleted))),
            MergeOutcome::Applied,
            MergeOutcome::Skipped(SkipReason::GeneratedRowStaysDeleted(id(&deleted))),
        ]
    );
    assert_eq!(
        plan.actions,
        vec![MergeAction {
            table: expenses(),
            row_id: "tpl-1:2026-03".to_string(),
            action: RowAction::Upsert {
                row: expense_row("tpl-1:2026-03", "Rent, corrected", 950.0)
            },
        }]
    );
    // The row exists again, so the next apply has nothing to skip.
    let mut log = vec![deleted];
    log.extend(plan.entries_to_store().into_iter().cloned());
    assert!(!generated_row_stays_deleted(
        &log,
        &expenses(),
        "tpl-1:2026-03"
    ));
}

/// Applying the same month twice after a delete: neither generated upsert
/// revives the row, so it stays deleted however many times apply runs.
#[test]
fn repeated_applies_after_a_delete_leave_the_row_deleted() {
    let deleted = entry(100, HERE, expenses(), "tpl-1:2026-03", ChangeOp::Delete);
    let generated = |ms: i64| {
        let mut it = entry(
            ms,
            THERE,
            expenses(),
            "tpl-1:2026-03",
            upsert(expense_row("tpl-1:2026-03", "Rent", 1000.0)),
        );
        it.origin = Some(ChangeOrigin::RecurringApply);
        it
    };

    let plan = plan_merge(one(&deleted), &[generated(200), generated(300)]);

    assert_eq!(
        outcomes(&plan),
        vec![
            MergeOutcome::Skipped(SkipReason::GeneratedRowStaysDeleted(id(&deleted))),
            MergeOutcome::Skipped(SkipReason::GeneratedRowStaysDeleted(id(&deleted))),
        ]
    );
    assert!(plan.actions.is_empty());
    let mut log = vec![deleted];
    log.extend(plan.entries_to_store().into_iter().cloned());
    assert!(generated_row_stays_deleted(
        &log,
        &expenses(),
        "tpl-1:2026-03"
    ));
}

/// The predicate `/api/recurring/apply` asks before regenerating a row:
/// does the user's deletion of it still stand? A deleted row is absent
/// from the month's dataframe, so the dataframe cannot answer this and the
/// log has to.
#[test]
fn the_deletion_predicate_answers_for_the_apply_path() {
    let created = entry(
        100,
        HERE,
        expenses(),
        "tpl-1:2026-03",
        upsert(expense_row("tpl-1:2026-03", "Rent", 1000.0)),
    );
    let deleted = entry(200, HERE, expenses(), "tpl-1:2026-03", ChangeOp::Delete);

    // Nothing recorded: there is no deletion to stand.
    assert!(!generated_row_stays_deleted(
        &[],
        &expenses(),
        "tpl-1:2026-03"
    ));
    // The row exists.
    assert!(!generated_row_stays_deleted(
        one(&created),
        &expenses(),
        "tpl-1:2026-03"
    ));
    // The user deleted it: apply must not put it back.
    let log = vec![created.clone(), deleted.clone()];
    assert!(generated_row_stays_deleted(
        &log,
        &expenses(),
        "tpl-1:2026-03"
    ));
    // An earlier apply that already regenerated it does not make the row
    // look legitimate: the deletion still stands.
    let mut regenerated = entry(
        300,
        THERE,
        expenses(),
        "tpl-1:2026-03",
        upsert(expense_row("tpl-1:2026-03", "Rent", 1000.0)),
    );
    regenerated.origin = Some(ChangeOrigin::RecurringApply);
    let mut with_apply = log.clone();
    with_apply.push(regenerated);
    assert!(generated_row_stays_deleted(
        &with_apply,
        &expenses(),
        "tpl-1:2026-03"
    ));
    // The user typing the row again by hand does revive it.
    let mut with_typed = log.clone();
    with_typed.push(entry(
        400,
        HERE,
        expenses(),
        "tpl-1:2026-03",
        upsert(expense_row("tpl-1:2026-03", "Rent", 950.0)),
    ));
    assert!(!generated_row_stays_deleted(
        &with_typed,
        &expenses(),
        "tpl-1:2026-03"
    ));
    // Another row and another month are other rows.
    assert!(!generated_row_stays_deleted(
        &log,
        &expenses(),
        "tpl-2:2026-03"
    ));
    assert!(!generated_row_stays_deleted(
        &log,
        &ChangeTable::Expenses {
            year: 2026,
            month: 4
        },
        "tpl-1:2026-03"
    ));
}

/// Two devices filling different months of one asset is ordinary use. Both
/// months survive, and only the other device's column is written.
#[test]
fn two_devices_fill_different_months_of_one_row() {
    let created = entry(
        100,
        HERE,
        liquidity(),
        "asset-1",
        upsert(asset_row("asset-1", 10.0)),
    );
    let march = entry(200, HERE, liquidity(), "asset-1", cell("03", 11.0));
    let april = entry(300, THERE, liquidity(), "asset-1", cell("04", 20.0));

    let plan = plan_merge(&[created, march], &[april]);

    assert_eq!(outcomes(&plan), vec![MergeOutcome::Applied]);
    assert_eq!(
        plan.actions,
        vec![MergeAction {
            table: liquidity(),
            row_id: "asset-1".to_string(),
            action: RowAction::SetCells {
                cells: vec![CellValue {
                    column: "04".to_string(),
                    value: number(20.0),
                }],
            },
        }]
    );
}

/// A cashflow income row has no row level entry at all, because its rows
/// are fixed categories written cell by cell. It still merges per column.
#[test]
fn income_cells_merge_without_any_row_level_entry() {
    let table = ChangeTable::CashflowIncome { year: 2026 };
    let mine = entry(100, HERE, table.clone(), "Salary", cell("03", 2000.0));
    let theirs = entry(200, THERE, table.clone(), "Salary", cell("04", 2100.0));

    let plan = plan_merge(&[mine], &[theirs]);

    assert_eq!(outcomes(&plan), vec![MergeOutcome::Applied]);
    assert_eq!(
        plan.actions,
        vec![MergeAction {
            table,
            row_id: "Salary".to_string(),
            action: RowAction::SetCells {
                cells: vec![CellValue {
                    column: "04".to_string(),
                    value: number(2100.0),
                }],
            },
        }]
    );
    // The income categories are fixed rows, so a cell with no upsert
    // behind it is ordinary here and not a hole in the history.
    assert_eq!(plan.summary.unplaceable, 0);
}

/// A cell edit of a row no entry on either side creates cannot be placed:
/// the change that would say whether the row exists reached neither log.
/// The plan will not guess the row into existence from one column, and it
/// says so apart from the ordinary losers, because it is no conflict.
#[test]
fn a_cell_for_a_row_nothing_creates_cannot_be_placed() {
    let theirs = entry(200, THERE, liquidity(), "ghost", cell("03", 20.0));

    let plan = plan_merge(&[], one(&theirs));

    assert_eq!(outcomes(&plan), vec![MergeOutcome::Unplaceable]);
    assert!(plan.actions.is_empty());
    assert_eq!(plan.summary.unplaceable, 1);
    assert_eq!(plan.summary.skipped, 0);
    assert_eq!(plan.summary.applied, 0);
    // Stored anyway: the entry is history, and a re-seed may place it.
    assert_eq!(stored(&plan), vec![theirs]);
}

/// The same cell is placeable as soon as any entry on either side settles
/// whether the row exists, wherever that entry ranks.
#[test]
fn a_cell_is_placeable_once_an_upsert_exists_on_either_side() {
    let edit = entry(200, THERE, liquidity(), "asset-1", cell("03", 20.0));

    let created_here = entry(
        100,
        HERE,
        liquidity(),
        "asset-1",
        upsert(asset_row("asset-1", 10.0)),
    );
    let local = plan_merge(one(&created_here), one(&edit));
    assert_eq!(outcomes(&local), vec![MergeOutcome::Applied]);
    assert_eq!(local.summary.unplaceable, 0);

    // The creating upsert arriving in the same batch settles it too.
    let created_there = entry(
        100,
        THERE,
        liquidity(),
        "asset-1",
        upsert(asset_row("asset-1", 10.0)),
    );
    let remote = plan_merge(&[], &[created_there, edit]);
    assert_eq!(
        outcomes(&remote),
        vec![MergeOutcome::Applied, MergeOutcome::Applied]
    );
    assert_eq!(remote.summary.unplaceable, 0);
    assert_eq!(remote.actions.len(), 1);
}

/// A cell edit of a row that was deleted later has nothing to edit, and a
/// cell cannot bring the row back.
#[test]
fn a_cell_below_a_newer_delete_is_dropped() {
    let created = entry(
        100,
        HERE,
        liquidity(),
        "asset-1",
        upsert(asset_row("asset-1", 10.0)),
    );
    let removed = entry(300, HERE, liquidity(), "asset-1", ChangeOp::Delete);
    let edit = entry(200, THERE, liquidity(), "asset-1", cell("04", 20.0));

    let plan = plan_merge(&[created, removed.clone()], one(&edit));

    assert_eq!(
        outcomes(&plan),
        vec![MergeOutcome::Skipped(SkipReason::RowIsDeleted(id(
            &removed
        )))]
    );
    assert!(plan.actions.is_empty());
    assert_eq!(stored(&plan), vec![edit]);
}

/// The same holds for a cell stamped after the delete: a cell says nothing
/// about whether the row exists, so it cannot recreate one.
#[test]
fn a_cell_above_the_newest_delete_is_still_dropped() {
    let removed = entry(100, HERE, liquidity(), "asset-1", ChangeOp::Delete);
    let edit = entry(200, THERE, liquidity(), "asset-1", cell("04", 20.0));

    let plan = plan_merge(one(&removed), &[edit]);

    assert_eq!(
        outcomes(&plan),
        vec![MergeOutcome::Skipped(SkipReason::RowIsDeleted(id(
            &removed
        )))]
    );
    assert!(plan.actions.is_empty());
}

/// A remote delete newer than everything removes the row, and the cell
/// edits under it go nowhere.
#[test]
fn a_remote_delete_wins_over_older_cells() {
    let created = entry(
        100,
        HERE,
        liquidity(),
        "asset-1",
        upsert(asset_row("asset-1", 10.0)),
    );
    let mine = entry(200, HERE, liquidity(), "asset-1", cell("03", 11.0));
    let theirs = entry(300, THERE, liquidity(), "asset-1", cell("04", 20.0));
    let removed = entry(400, THERE, liquidity(), "asset-1", ChangeOp::Delete);

    let plan = plan_merge(&[created, mine], &[theirs, removed.clone()]);

    assert_eq!(
        outcomes(&plan),
        vec![
            MergeOutcome::Skipped(SkipReason::RowIsDeleted(id(&removed))),
            MergeOutcome::Applied,
        ]
    );
    assert_eq!(
        plan.actions,
        vec![MergeAction {
            table: liquidity(),
            row_id: "asset-1".to_string(),
            action: RowAction::Delete,
        }]
    );
}

/// A cell newer than the winning upsert decides its own column, and the
/// merged row carries both: the upsert's other columns and the cell's
/// value. The cell here is this device's, so applying the remote upsert on
/// its own would undo a local edit.
#[test]
fn a_newer_cell_overrides_the_upserts_value_for_its_column() {
    let mine = entry(300, HERE, liquidity(), "asset-1", cell("03", 99.0));
    let theirs = entry(
        200,
        THERE,
        liquidity(),
        "asset-1",
        upsert(asset_row("asset-1", 10.0)),
    );

    let plan = plan_merge(&[mine], &[theirs]);

    let mut expected = asset_row("asset-1", 10.0);
    expected.insert("03".to_string(), number(99.0));
    assert_eq!(outcomes(&plan), vec![MergeOutcome::Applied]);
    assert_eq!(
        plan.actions,
        vec![MergeAction {
            table: liquidity(),
            row_id: "asset-1".to_string(),
            action: RowAction::Upsert { row: expected },
        }]
    );
}

/// A cell older than the winning upsert loses to it: the upsert carries a
/// value for that column too, and it is the newer one.
#[test]
fn a_cell_older_than_the_winning_upsert_loses_to_it() {
    let theirs_cell = entry(100, THERE, liquidity(), "asset-1", cell("03", 99.0));
    let theirs_row = entry(
        200,
        THERE,
        liquidity(),
        "asset-1",
        upsert(asset_row("asset-1", 10.0)),
    );

    let plan = plan_merge(&[], &[theirs_cell, theirs_row.clone()]);

    assert_eq!(
        outcomes(&plan),
        vec![
            MergeOutcome::Skipped(SkipReason::SupersededByRow(id(&theirs_row))),
            MergeOutcome::Applied,
        ]
    );
    assert_eq!(
        plan.actions,
        vec![MergeAction {
            table: liquidity(),
            row_id: "asset-1".to_string(),
            action: RowAction::Upsert {
                row: asset_row("asset-1", 10.0)
            },
        }]
    );
}

/// A row edited three times on the phone arrives as three entries. Only
/// the last one is written, and all three are stored.
#[test]
fn several_entries_for_one_row_write_only_the_last() {
    let first = entry(
        100,
        THERE,
        expenses(),
        "row-1",
        upsert(expense_row("row-1", "Tea", 3.0)),
    );
    let second = entry(
        200,
        THERE,
        expenses(),
        "row-1",
        upsert(expense_row("row-1", "Tea", 3.5)),
    );
    let third = entry(
        300,
        THERE,
        expenses(),
        "row-1",
        upsert(expense_row("row-1", "Tea, large", 4.0)),
    );

    let plan = plan_merge(&[], &[first.clone(), second.clone(), third.clone()]);

    assert_eq!(
        outcomes(&plan),
        vec![
            MergeOutcome::Skipped(SkipReason::SupersededByRow(id(&third))),
            MergeOutcome::Skipped(SkipReason::SupersededByRow(id(&third))),
            MergeOutcome::Applied,
        ]
    );
    assert_eq!(
        plan.actions,
        vec![MergeAction {
            table: expenses(),
            row_id: "row-1".to_string(),
            action: RowAction::Upsert {
                row: expense_row("row-1", "Tea, large", 4.0)
            },
        }]
    );
    assert_eq!(stored(&plan), vec![first, second, third]);
}

/// Several cells for one column in one batch: the newest decides, the
/// others are stored and not applied.
#[test]
fn several_cells_for_one_column_keep_only_the_newest() {
    let created = entry(
        100,
        HERE,
        liquidity(),
        "asset-1",
        upsert(asset_row("asset-1", 10.0)),
    );
    let older = entry(200, THERE, liquidity(), "asset-1", cell("04", 20.0));
    let newer = entry(300, THERE, liquidity(), "asset-1", cell("04", 25.0));

    let plan = plan_merge(&[created], &[newer.clone(), older]);

    assert_eq!(
        outcomes(&plan),
        vec![
            MergeOutcome::Skipped(SkipReason::SupersededByCell(id(&newer))),
            MergeOutcome::Applied,
        ]
    );
    assert_eq!(
        plan.actions,
        vec![MergeAction {
            table: liquidity(),
            row_id: "asset-1".to_string(),
            action: RowAction::SetCells {
                cells: vec![CellValue {
                    column: "04".to_string(),
                    value: number(25.0),
                }],
            },
        }]
    );
}

/// The same batch arriving again, after the first one was stored, writes
/// nothing at all. This is the ordinary case, not an error.
#[test]
fn a_batch_that_arrives_twice_applies_nothing_the_second_time() {
    let mine = entry(
        100,
        HERE,
        liquidity(),
        "asset-1",
        upsert(asset_row("asset-1", 10.0)),
    );
    let batch = vec![
        entry(200, THERE, liquidity(), "asset-1", cell("04", 20.0)),
        entry(300, THERE, expenses(), "row-1", ChangeOp::Delete),
    ];

    let first = plan_merge(one(&mine), &batch);
    assert_eq!(first.summary.applied, 2);
    assert_eq!(first.actions.len(), 2);

    let mut log = vec![mine];
    log.extend(first.entries_to_store().into_iter().cloned());
    let second = plan_merge(&log, &batch);

    assert_eq!(
        outcomes(&second),
        vec![MergeOutcome::AlreadyKnown, MergeOutcome::AlreadyKnown]
    );
    assert!(second.actions.is_empty());
    assert!(second.entries_to_store().is_empty());
    assert!(second.changes_nothing());
}

/// One batch holding the same entry twice counts it once: the first copy
/// decides, the repeat is already accounted for.
#[test]
fn a_repeat_inside_one_batch_is_counted_once() {
    let theirs = entry(
        200,
        THERE,
        expenses(),
        "row-1",
        upsert(expense_row("row-1", "Tea", 3.0)),
    );

    let plan = plan_merge(&[], &[theirs.clone(), theirs.clone()]);

    assert_eq!(
        outcomes(&plan),
        vec![MergeOutcome::Applied, MergeOutcome::AlreadyKnown]
    );
    assert_eq!(stored(&plan), vec![theirs]);
    assert_eq!(plan.actions.len(), 1);
}

/// A cell edit on a table this version merges as whole rows is stored and
/// not applied, rather than folded into a row the user never typed.
#[test]
fn a_cell_on_a_whole_row_table_is_stored_but_not_applied() {
    let mine = entry(
        100,
        HERE,
        expenses(),
        "row-1",
        upsert(expense_row("row-1", "Tea", 3.0)),
    );
    let theirs = entry(
        200,
        THERE,
        expenses(),
        "row-1",
        ChangeOp::Cell {
            column: "expense_amount".to_string(),
            value: number(9.0),
        },
    );

    let plan = plan_merge(&[mine], one(&theirs));

    assert_eq!(
        outcomes(&plan),
        vec![MergeOutcome::Skipped(SkipReason::CellOnWholeRowTable)]
    );
    assert!(plan.actions.is_empty());
    assert_eq!(stored(&plan), vec![theirs]);
}

/// The same row id in two different months is two rows in two files, and
/// neither decides the other.
#[test]
fn the_same_row_id_in_another_month_is_another_row() {
    let march = ChangeTable::Expenses {
        year: 2026,
        month: 3,
    };
    let april = ChangeTable::Expenses {
        year: 2026,
        month: 4,
    };
    let mine = entry(900, HERE, march.clone(), "row-1", ChangeOp::Delete);
    let theirs = entry(
        100,
        THERE,
        april.clone(),
        "row-1",
        upsert(expense_row("row-1", "Tea", 3.0)),
    );

    let plan = plan_merge(&[mine], &[theirs]);

    assert_eq!(outcomes(&plan), vec![MergeOutcome::Applied]);
    assert_eq!(plan.actions[0].table, april);
}

/// The plan depends on the batch's contents, not on the order the entries
/// arrive in.
#[test]
fn the_plan_does_not_depend_on_the_batch_order() {
    let local = vec![
        entry(
            100,
            HERE,
            liquidity(),
            "asset-1",
            upsert(asset_row("asset-1", 10.0)),
        ),
        entry(150, HERE, expenses(), "row-1", ChangeOp::Delete),
    ];
    let mut batch = vec![
        entry(200, THERE, liquidity(), "asset-1", cell("04", 20.0)),
        entry(300, THERE, liquidity(), "asset-1", cell("03", 30.0)),
        entry(
            400,
            THERE,
            expenses(),
            "row-1",
            upsert(expense_row("row-1", "Tea", 3.0)),
        ),
        entry(500, THERE, liquidity(), "asset-2", ChangeOp::Delete),
    ];

    let forwards = plan_merge(&local, &batch);
    batch.reverse();
    let backwards = plan_merge(&local, &batch);

    assert_eq!(forwards, backwards);
    assert_eq!(forwards.summary.applied, 4);
    // Actions follow the order the winning changes were made.
    let rows: Vec<&str> = forwards
        .actions
        .iter()
        .map(|action| action.row_id.as_str())
        .collect();
    assert_eq!(rows, vec!["asset-1", "row-1", "asset-2"]);
}

/// The literal order of the output, over four rows whose entries
/// interleave. Comparing two plans is not enough on its own: both are
/// built by the same process, so two hash maps iterate alike and a plan
/// that followed group order would still equal itself.
///
/// The decisions here cannot come out in any group order, because the two
/// entries for `row-1` sit at the ends of the expected list with three
/// other rows between them. So this pins both sorts: drop the sort of the
/// batch and the order becomes the order of arrival, drop the sort of the
/// output and entries for one row clump together.
#[test]
fn decisions_and_actions_come_out_in_one_fixed_order() {
    let local = vec![
        entry(
            50,
            HERE,
            liquidity(),
            "asset-1",
            upsert(asset_row("asset-1", 10.0)),
        ),
        entry(
            60,
            HERE,
            liquidity(),
            "asset-2",
            upsert(asset_row("asset-2", 20.0)),
        ),
    ];
    // Given in an order that is neither the stamp order nor grouped by row.
    let batch = vec![
        entry(150, THERE, liquidity(), "asset-2", cell("04", 21.0)),
        entry(
            400,
            THERE,
            expenses(),
            "row-1",
            upsert(expense_row("row-1", "Tea, large", 4.0)),
        ),
        entry(200, THERE, expenses(), "row-2", ChangeOp::Delete),
        entry(300, THERE, liquidity(), "asset-1", cell("03", 11.0)),
        entry(
            100,
            THERE,
            expenses(),
            "row-1",
            upsert(expense_row("row-1", "Tea", 3.0)),
        ),
    ];

    let plan = plan_merge(&local, &batch);

    assert_eq!(
        decision_order(&plan),
        vec![
            (100, "row-1"),
            (150, "asset-2"),
            (200, "row-2"),
            (300, "asset-1"),
            (400, "row-1"),
        ]
    );
    assert_eq!(
        outcomes(&plan),
        vec![
            MergeOutcome::Skipped(SkipReason::SupersededByRow(id(&batch[1]))),
            MergeOutcome::Applied,
            MergeOutcome::Applied,
            MergeOutcome::Applied,
            MergeOutcome::Applied,
        ]
    );
    // Each row is written where its own winning change falls in that order.
    assert_eq!(
        action_order(&plan),
        vec!["asset-2", "row-2", "asset-1", "row-1"]
    );
    // The entries to store keep the same order, since they are appended as
    // one run.
    assert_eq!(
        stored(&plan)
            .iter()
            .map(|entry| entry.stamp.ms)
            .collect::<Vec<i64>>(),
        vec![100, 150, 200, 300, 400]
    );

    let mut shuffled = batch.clone();
    shuffled.rotate_left(3);
    shuffled.reverse();
    assert_eq!(plan_merge(&local, &shuffled), plan);
}

/// The summary counts what the decisions say, and reports the largest
/// stamp in the batch, which the caller hands to the local clock.
#[test]
fn the_summary_matches_the_decisions() {
    let mine = entry(
        400,
        HERE,
        expenses(),
        "row-1",
        upsert(expense_row("row-1", "Tea", 3.0)),
    );
    let known = entry(100, THERE, expenses(), "row-2", ChangeOp::Delete);
    let batch = vec![
        known.clone(),
        entry(
            200,
            THERE,
            expenses(),
            "row-1",
            upsert(expense_row("row-1", "Coffee", 4.0)),
        ),
        entry(
            300,
            THERE,
            expenses(),
            "row-3",
            upsert(expense_row("row-3", "Bus", 2.0)),
        ),
    ];

    let plan = plan_merge(&[mine, known], &batch);

    assert_eq!(
        plan.summary,
        MergeSummary {
            remote_entries: 3,
            applied: 1,
            already_known: 1,
            skipped: 1,
            unplaceable: 0,
            rows_changed: 1,
            max_remote_stamp: Some(stamp(300)),
        }
    );
    assert!(!plan.changes_nothing());
}

/// An empty batch decides nothing and asks for nothing.
#[test]
fn an_empty_batch_plans_nothing() {
    let mine = entry(
        100,
        HERE,
        expenses(),
        "row-1",
        upsert(expense_row("row-1", "Tea", 3.0)),
    );

    let plan = plan_merge(&[mine], &[]);

    assert_eq!(plan, MergePlan::default());
    assert!(plan.changes_nothing());
}

#[test]
fn settings_newest_mapping_and_category_entries_win_per_item() {
    let mapping = ChangeTable::CategoryMappings;
    let category = ChangeTable::KnownCategories;
    let mut old_row = Row::new();
    old_row.insert("primary_category".into(), text("old"));
    old_row.insert("secondary_category".into(), text("old"));
    let mut new_row = Row::new();
    new_row.insert("primary_category".into(), text("new"));
    new_row.insert("secondary_category".into(), text("new"));
    let mapping_plan = plan_merge(
        &[entry(100, HERE, mapping.clone(), "coffee", upsert(old_row))],
        &[entry(
            200,
            THERE,
            mapping,
            "coffee",
            upsert(new_row.clone()),
        )],
    );
    assert_eq!(mapping_plan.summary.applied, 1);
    assert!(
        matches!(mapping_plan.actions[0].action, RowAction::Upsert { ref row } if row == &new_row)
    );
    let category_plan = plan_merge(
        &[entry(
            100,
            HERE,
            category.clone(),
            "primary:Food",
            ChangeOp::Upsert { row: Row::new() },
        )],
        &[entry(
            200,
            THERE,
            category,
            "primary:Food",
            ChangeOp::Delete,
        )],
    );
    assert_eq!(category_plan.summary.applied, 1);
    assert!(matches!(category_plan.actions[0].action, RowAction::Delete));
}

#[test]
fn currency_settings_merge_newest_value_per_field() {
    let table = ChangeTable::CurrencySettings;
    let mut reference = Row::new();
    reference.insert("value".into(), text("EUR"));
    let mut mode = Row::new();
    mode.insert("value".into(), text("previous_month_end"));
    let local = vec![
        entry(
            100,
            HERE,
            table.clone(),
            "reference_currency",
            upsert(reference),
        ),
        entry(
            100,
            HERE,
            table.clone(),
            "current_month_rate_mode",
            upsert(mode),
        ),
    ];
    let remote = vec![
        entry(
            200,
            THERE,
            table.clone(),
            "reference_currency",
            ChangeOp::Cell {
                column: "value".into(),
                value: text("USD"),
            },
        ),
        entry(
            50,
            THERE,
            table,
            "current_month_rate_mode",
            ChangeOp::Cell {
                column: "value".into(),
                value: text("live"),
            },
        ),
    ];
    let plan = plan_merge(&local, &remote);
    assert_eq!(plan.summary.applied, 1);
    assert_eq!(plan.summary.skipped, 1);
    assert!(
        matches!(plan.actions[0].action, RowAction::SetCells { ref cells } if cells[0].value == text("USD"))
    );
}

/// A remote delete that holds back the generated row of this device, above a row that
/// was typed before, is stored and writes nothing.
#[test]
fn a_skipped_delete_writes_nothing() {
    let row = "tpl-1:2026-03";
    let deleted = entry(200, THERE, expenses(), row, ChangeOp::Delete);
    let typed = entry(
        250,
        HERE,
        expenses(),
        row,
        upsert(expense_row(row, "Rent, corrected", 950.0)),
    );
    let mut generated =
        entry(300, HERE, expenses(), row, upsert(expense_row(row, "Rent", 1000.0)));
    generated.origin = Some(ChangeOrigin::RecurringApply);

    let plan = plan_merge(&[typed.clone(), generated], one(&deleted));
    assert_eq!(
        outcomes(&plan),
        vec![MergeOutcome::Skipped(SkipReason::SupersededByRow(id(&typed)))]
    );
    assert!(plan.actions.is_empty());
    assert_eq!(plan.summary.applied, 0);
    assert_eq!(stored(&plan), vec![deleted]);
}

/// A row has a write exactly where one of its entries is applied.
#[test]
fn writes_stand_beside_applied_entries() {
    let local = [entry(300, HERE, liquidity(), "a", upsert(asset_row("a", 1.0)))];
    let remote = [
        entry(100, THERE, liquidity(), "a", cell("04", 1.0)),
        entry(350, THERE, liquidity(), "b", upsert(asset_row("b", 2.0))),
        entry(400, THERE, liquidity(), "a", cell("04", 5.0)),
        entry(450, THERE, liquidity(), "c", cell("04", 5.0)),
    ];
    let plan = plan_merge(&local, &remote);
    assert_eq!(action_order(&plan), vec!["b", "a"]);
    assert!(matches!(&plan.actions[1].action, RowAction::SetCells { cells } if cells.len() == 1));
    let applied: Vec<i64> = plan
        .decisions
        .iter()
        .filter(|decision| decision.outcome == MergeOutcome::Applied)
        .map(|decision| decision.entry.stamp.ms)
        .collect();
    assert_eq!(applied, vec![350, 400]);
}

#[test]
fn cells_generated_rows_and_other_rows_leave_a_deletion_alone() {
    let row = "tpl-1:2026-03";
    let typed = entry(100, HERE, expenses(), row, upsert(expense_row(row, "Rent", 1000.0)));
    let deleted = entry(200, HERE, expenses(), row, ChangeOp::Delete);
    let mut generated = entry(300, THERE, expenses(), row, upsert(expense_row(row, "Rent", 1.0)));
    generated.origin = Some(ChangeOrigin::RecurringApply);
    let mut early = generated.clone();
    early.stamp = stamp(150);
    let others = [
        entry(400, THERE, expenses(), row, cell("expense_amount", 5.0)),
        generated,
        early,
        entry(500, THERE, expenses(), "tpl-2:2026-03", ChangeOp::Delete),
        entry(600, THERE, liquidity(), row, upsert(asset_row(row, 1.0))),
    ];
    for log in [vec![], vec![typed.clone()], vec![typed, deleted]] {
        let before = generated_row_stays_deleted(&log, &expenses(), row);
        for other in &others {
            for place in 0..=log.len() {
                let mut more = log.clone();
                more.insert(place, other.clone());
                assert_eq!(generated_row_stays_deleted(&more, &expenses(), row), before);
            }
        }
    }
}
