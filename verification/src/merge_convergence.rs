//! What a merge does to the data: applying a plan brings each row to the state
//! that both logs together describe, so two devices that exchange their logs
//! hold the same rows. One corner is left out: a remote delete that holds back a
//! generated row of this device, above a row that was typed here before, writes
//! nothing, and the generated row stays.

use vstd::prelude::*;
use crate::merge::{
    action_at, decisions_of, fresh, holds_key, last_applied, lemma_local_candidates,
    lemma_row_candidates, local_candidates, outcome_at, plan_of, row_candidates, row_state, sorted,
    sorted_batch_is_ordered, ActionView, RowActionView,
};
use crate::merge_laws::{
    generated, has_entry, lemma_actions_upto, lemma_cell_winner, lemma_fresh_key_is_its_own,
    lemma_resolved, lemma_stored_entries, one_change_per_key, one_entry_per_key, same_entries,
    same_state,
    the_row_state_depends_on_the_entries_alone, what_is_new_is_stored,
};
use crate::merge_row::{cell_winner, holder, resolved, sets_column, CandidateView, RowStateView};
use crate::rows::ValueView;
use crate::sync::{key_before, key_order_is_total, ChangeTable, EntryView, OpView};

verus! {

/// The row that a merged state describes: its columns and values, or `None`
/// where there is no such row.
pub open spec fn row_value(state: RowStateView) -> Option<Map<Seq<char>, ValueView>> {
    if !state.per_cell {
        match state.base_upsert() {
            Some(upsert) => Some(upsert.entry.op->Upsert_0),
            None => None,
        }
    } else if state.deleted() is Some || state.unplaceable {
        None
    } else {
        match state.base_upsert() {
            Some(upsert) => Some(
                upsert.entry.op->Upsert_0.union_prefer_right(state.cell_values()),
            ),
            None => Some(state.cell_values()),
        }
    }
}

/// The row that a log describes.
pub open spec fn row_in_log(
    log: Seq<EntryView>,
    table: ChangeTable,
    row_id: Seq<char>,
) -> Option<Map<Seq<char>, ValueView>> {
    row_value(resolved(table, local_candidates(log, table, row_id)))
}

/// A row after a write, if there is one to do.
pub open spec fn row_after(
    row: Option<Map<Seq<char>, ValueView>>,
    write: Option<RowActionView>,
) -> Option<Map<Seq<char>, ValueView>> {
    match write {
        None => row,
        Some(RowActionView::Upsert(columns)) => Some(columns),
        Some(RowActionView::Delete) => None,
        Some(RowActionView::SetCells(cells)) => match row {
            Some(columns) => Some(columns.union_prefer_right(cells)),
            None => None,
        },
    }
}

/// The write that a plan holds for a row.
pub open spec fn write_for(
    actions: Seq<ActionView>,
    table: ChangeTable,
    row_id: Seq<char>,
) -> Option<RowActionView> {
    if exists|i: int|
        0 <= i < actions.len() && (#[trigger] actions[i]).table == table && actions[i].row_id
            == row_id {
        let i = choose|i: int|
            0 <= i < actions.len() && (#[trigger] actions[i]).table == table && actions[i].row_id
                == row_id;
        Some(actions[i].action)
    } else {
        None
    }
}

/// A row that needs a write has an entry in the batch that is applied.
proof fn lemma_write_has_winner(
    local: Seq<EntryView>,
    batch: Seq<EntryView>,
    table: ChangeTable,
    row_id: Seq<char>,
) -> (i: int)
    requires
        row_state(local, batch, table, row_id).action() is Some,
    ensures
        0 <= i < batch.len(),
        batch[i].on_row(table, row_id),
        outcome_at(local, batch, i) is Applied,
{
    key_order_is_total();
    let c = row_candidates(local, batch, table, row_id);
    let s = row_state(local, batch, table, row_id);
    lemma_row_candidates(local, batch, table, row_id);
    lemma_resolved(table, c);
    let remote_winner = s.row_winner is Some && s.row_winner->0.remote();
    if remote_winner {
        let w = s.row_winner->0;
        let p = choose|p: int| 0 <= p < c.len() && c[p] == w;
        assert(c[p] == w);
        w.order_index->0
    } else {
        assert(s.per_cell);
        let column = choose|column: Seq<char>| #[trigger]
            s.remote_cell_values().contains_key(column);
        assert(s.remote_cell_values().contains_key(column));
        let w = s.cells[column];
        lemma_cell_winner(c, column, s.base_upsert());
        let p = choose|p: int| 0 <= p < c.len() && c[p] == w;
        assert(c[p] == w);
        w.order_index->0
    }
}

proof fn lemma_last_applied(
    local: Seq<EntryView>,
    batch: Seq<EntryView>,
    table: ChangeTable,
    row_id: Seq<char>,
    i: int,
) -> (k: int)
    requires
        0 <= i < batch.len(),
        batch[i].on_row(table, row_id),
        outcome_at(local, batch, i) is Applied,
    ensures
        i <= k < batch.len(),
        batch[k].on_row(table, row_id),
        last_applied(local, batch, k),
    decreases batch.len() - i,
{
    if exists|j: int|
        i < j < batch.len() && (#[trigger] batch[j]).on_row(table, row_id) && outcome_at(
            local,
            batch,
            j,
        ) is Applied {
        let j = choose|j: int|
            i < j < batch.len() && (#[trigger] batch[j]).on_row(table, row_id) && outcome_at(
                local,
                batch,
                j,
            ) is Applied;
        lemma_last_applied(local, batch, table, row_id, j)
    } else {
        i
    }
}

/// The plan holds, for every row, exactly the write that the merged state of
/// that row needs.
pub proof fn the_plan_writes_what_each_row_needs(
    local: Seq<EntryView>,
    remote: Seq<EntryView>,
    table: ChangeTable,
    row_id: Seq<char>,
)
    ensures
        write_for(plan_of(local, remote).actions, table, row_id) == row_state(
            local,
            sorted(remote),
            table,
            row_id,
        ).action(),
{
    let batch = sorted(remote);
    let actions = plan_of(local, remote).actions;
    let s = row_state(local, batch, table, row_id);
    let from = lemma_actions_upto(local, batch, batch.len() as int);
    assert forall|k: int|
        0 <= k < actions.len() && (#[trigger] actions[k]).table == table && actions[k].row_id
            == row_id implies s.action() == Some(actions[k].action) by {
        assert(action_at(local, batch, from[k]) == Some(actions[k]));
    }
    if s.action() is Some {
        let i = lemma_write_has_winner(local, batch, table, row_id);
        let k = lemma_last_applied(local, batch, table, row_id, i);
        let want = ActionView { table, row_id, action: s.action()->0 };
        assert(action_at(local, batch, k) == Some(want));
        let j = choose|j: int| 0 <= j < actions.len() && actions[j] == want;
        assert(actions[j].table == table && actions[j].row_id == row_id);
    }
}

/// A row is written exactly where an entry of it in the batch is applied.
pub proof fn a_row_is_written_where_an_entry_is_applied(
    local: Seq<EntryView>,
    remote: Seq<EntryView>,
    table: ChangeTable,
    row_id: Seq<char>,
)
    ensures
        write_for(plan_of(local, remote).actions, table, row_id) is Some <==> exists|i: int|
            0 <= i < plan_of(local, remote).decisions.len() && (
            #[trigger] plan_of(local, remote).decisions[i]).outcome is Applied
                && plan_of(local, remote).decisions[i].entry.on_row(table, row_id),
{
    let batch = sorted(remote);
    let decisions = plan_of(local, remote).decisions;
    let s = row_state(local, batch, table, row_id);
    assert(decisions == decisions_of(local, batch));
    the_plan_writes_what_each_row_needs(local, remote, table, row_id);
    if s.action() is Some {
        let i = lemma_write_has_winner(local, batch, table, row_id);
        assert(decisions[i].outcome is Applied && decisions[i].entry.on_row(table, row_id));
    }
    if exists|i: int|
        0 <= i < decisions.len() && (#[trigger] decisions[i]).outcome is Applied
            && decisions[i].entry.on_row(table, row_id) {
        let i = choose|i: int|
            0 <= i < decisions.len() && (#[trigger] decisions[i]).outcome is Applied
                && decisions[i].entry.on_row(table, row_id);
        lemma_applied_is_written(local, batch, table, row_id, i);
    }
}

proof fn lemma_applied_is_written(
    local: Seq<EntryView>,
    batch: Seq<EntryView>,
    table: ChangeTable,
    row_id: Seq<char>,
    i: int,
)
    requires
        0 <= i < batch.len(),
        batch[i].on_row(table, row_id),
        outcome_at(local, batch, i) is Applied,
    ensures
        row_state(local, batch, table, row_id).action() is Some,
{
    let c = row_candidates(local, batch, table, row_id);
    let s = row_state(local, batch, table, row_id);
    let me = CandidateView { entry: batch[i], order_index: Some(i) };
    assert(fresh(local, batch, i));
    lemma_row_candidates(local, batch, table, row_id);
    lemma_resolved(table, c);
    assert(c.contains(me));
    let p = choose|p: int| 0 <= p < c.len() && c[p] == me;
    match batch[i].op {
        OpView::Cell(column, _) => {
            lemma_cell_winner(c, column, s.base_upsert());
            assert(sets_column(c[p], column, s.base_upsert()));
            assert(s.cells.contains_key(column));
            lemma_fresh_key_is_its_own(local, batch, i, s.cells[column]);
            assert(s.remote_cell_values().contains_key(column));
        },
        _ => {
            assert(holder(c[p], s.newest_delete) is None);
            let w = s.row_winner->0;
            lemma_fresh_key_is_its_own(local, batch, i, w);
        },
    }
}

/// The union log holds, for a row, exactly the entries that compete for it.
proof fn lemma_union_candidates(
    local: Seq<EntryView>,
    remote: Seq<EntryView>,
    table: ChangeTable,
    row_id: Seq<char>,
)
    requires
        one_change_per_key(local + remote),
    ensures
        same_entries(
            row_candidates(local, sorted(remote), table, row_id),
            local_candidates(local + plan_of(local, remote).to_store(), table, row_id),
        ),
        one_entry_per_key(row_candidates(local, sorted(remote), table, row_id)),
{
    broadcast use vstd::seq_lib::group_to_multiset_ensures;

    let batch = sorted(remote);
    let kept = plan_of(local, remote).to_store();
    let log = local + kept;
    let a = row_candidates(local, batch, table, row_id);
    let b = local_candidates(log, table, row_id);
    let both = local + remote;
    sorted_batch_is_ordered(remote);
    lemma_row_candidates(local, batch, table, row_id);
    lemma_local_candidates(log, table, row_id);
    let decisions = decisions_of(local, batch);
    lemma_stored_entries(decisions);
    assert forall|entry: EntryView| #[trigger] has_entry(a, entry) <==> has_entry(b, entry) by {
        if has_entry(a, entry) {
            let p = choose|p: int| 0 <= p < a.len() && (#[trigger] a[p]).entry == entry;
            match a[p].order_index {
                Some(k) => {
                    assert(fresh(local, batch, k));
                    assert(!(decisions[k].outcome is AlreadyKnown));
                    assert(decisions[k].entry == entry);
                    let m = choose|m: int| 0 <= m < kept.len() && kept[m] == entry;
                    assert(log[local.len() + m] == entry);
                    assert(log[local.len() + m].on_row(table, row_id));
                },
                None => {
                    let m = choose|m: int| 0 <= m < local.len() && local[m] == entry;
                    assert(log[m] == entry);
                    assert(log[m].on_row(table, row_id));
                },
            }
            let want = CandidateView { entry, order_index: None };
            assert(b.contains(want));
            let q = choose|q: int| 0 <= q < b.len() && b[q] == want;
            assert(b[q].entry == entry);
        }
        if has_entry(b, entry) {
            let q = choose|q: int| 0 <= q < b.len() && (#[trigger] b[q]).entry == entry;
            let m = choose|m: int| 0 <= m < log.len() && log[m] == entry;
            let found = if m < local.len() {
                assert(local[m] == entry);
                assert(local[m].on_row(table, row_id));
                CandidateView { entry, order_index: None }
            } else {
                assert(kept[m - local.len()] == entry);
                let i = choose|i: int|
                    0 <= i < decisions.len() && (#[trigger] decisions[i]).entry == kept[m
                        - local.len()] && !(decisions[i].outcome is AlreadyKnown);
                assert(fresh(local, batch, i));
                assert(batch[i].on_row(table, row_id));
                CandidateView { entry, order_index: Some(i) }
            };
            assert(a.contains(found));
            let p = choose|p: int| 0 <= p < a.len() && a[p] == found;
            assert(a[p].entry == entry);
        }
    }
    assert forall|p: int, q: int|
        0 <= p < a.len() && 0 <= q < a.len() && (#[trigger] a[p]).key() == (
        #[trigger] a[q]).key() implies a[p].entry == a[q].entry by {
        lemma_in_both(local, remote, a[p], table, row_id);
        lemma_in_both(local, remote, a[q], table, row_id);
        let i = choose|i: int| 0 <= i < both.len() && both[i] == a[p].entry;
        let j = choose|j: int| 0 <= j < both.len() && both[j] == a[q].entry;
        assert(both[i].key() == both[j].key());
    }
}

proof fn lemma_in_both(
    local: Seq<EntryView>,
    remote: Seq<EntryView>,
    c: CandidateView,
    table: ChangeTable,
    row_id: Seq<char>,
)
    requires
        row_candidates(local, sorted(remote), table, row_id).contains(c),
    ensures
        (local + remote).contains(c.entry),
{
    broadcast use vstd::seq_lib::group_to_multiset_ensures;

    let batch = sorted(remote);
    sorted_batch_is_ordered(remote);
    let a = row_candidates(local, batch, table, row_id);
    lemma_row_candidates(local, batch, table, row_id);
    let p = choose|p: int| 0 <= p < a.len() && a[p] == c;
    assert(a[p] == c);
    match c.order_index {
        Some(k) => {
            assert(batch.contains(c.entry));
            assert(remote.to_multiset().count(c.entry) > 0);
            assert(remote.contains(c.entry));
            let m = choose|m: int| 0 <= m < remote.len() && remote[m] == c.entry;
            assert((local + remote)[local.len() + m] == c.entry);
        },
        None => {
            let m = choose|m: int| 0 <= m < local.len() && local[m] == c.entry;
            assert((local + remote)[m] == c.entry);
        },
    }
}

/// States that make the same choices describe the same row.
proof fn lemma_same_row(a: RowStateView, b: RowStateView)
    requires
        same_state(a, b),
    ensures
        row_value(a) == row_value(b),
{
    assert(a.cell_values() =~= b.cell_values());
}

/// Whether the deciding entry of a row is this device's own but another one
/// than before the merge, and the row it describes differs from the one this
/// device holds. That happens when a remote delete holds back the generated
/// upsert that decided the row so far, above an older upsert of this device.
pub open spec fn falls_back_to_an_older_row(
    local: Seq<EntryView>,
    remote: Seq<EntryView>,
    table: ChangeTable,
    row_id: Seq<char>,
) -> bool {
    let merged = row_state(local, sorted(remote), table, row_id);
    let held = resolved(table, local_candidates(local, table, row_id));
    &&& merged.row_winner is Some
    &&& !merged.row_winner->0.remote()
    &&& merged.row_winner != held.row_winner
    &&& row_value(merged) != row_value(held)
}

/// A plan falls back to an older row only where a remote delete holds back a
/// generated upsert of this device, above an upsert of this device that was typed.
pub proof fn only_a_held_back_row_falls_back(
    local: Seq<EntryView>,
    remote: Seq<EntryView>,
    table: ChangeTable,
    row_id: Seq<char>,
)
    requires
        one_change_per_key(local + remote),
        falls_back_to_an_older_row(local, remote, table, row_id),
    ensures
        ({
            let merged = row_state(local, sorted(remote), table, row_id);
            let held = resolved(table, local_candidates(local, table, row_id));
            &&& held.row_winner matches Some(shown) && !shown.remote() && generated(shown.entry)
                && holder(shown, merged.newest_delete) is Some
            &&& merged.newest_delete matches Some(delete) && delete.remote()
            &&& merged.row_winner matches Some(typed) && !typed.remote() && typed.entry.op is Upsert
                && !generated(typed.entry) && key_before(typed.key(), held.row_winner->0.key())
        }),
{
    key_order_is_total();
    let batch = sorted(remote);
    let own = local_candidates(local, table, row_id);
    let c = row_candidates(local, batch, table, row_id);
    let merged = row_state(local, batch, table, row_id);
    let held = resolved(table, own);
    lemma_resolved(table, c);
    lemma_resolved(table, own);
    lemma_local_in_candidates(local, batch, table, row_id);
    let w = merged.row_winner->0;
    assert(own.contains(w));
    let p = choose|p: int| 0 <= p < own.len() && own[p] == w;
    if let Some(dl) = held.newest_delete {
        assert(c.contains(dl));
        let q = choose|q: int| 0 <= q < c.len() && c[q] == dl;
        assert(c[q].entry.op is Delete);
        let d = merged.newest_delete->0;
        let m = choose|m: int| 0 <= m < c.len() && c[m] == d;
        assert(holder(c[m], merged.newest_delete) is None);
        assert(!key_before(d.key(), dl.key()));
        assert(!key_before(w.key(), d.key()));
        if w.entry.op is Upsert {
            lemma_same_key(local, remote, w, d, table, row_id);
        }
        let k = choose|k: int| 0 <= k < own.len() && own[k] == dl;
        assert(holder(own[k], held.newest_delete) is None);
    }
    assert(holder(own[p], held.newest_delete) is None);
    let h = held.row_winner->0;
    assert(!key_before(h.key(), w.key()));
    assert(own.contains(h));
    assert(c.contains(h));
    lemma_same_key(local, remote, h, w, table, row_id);
    assert(key_before(w.key(), h.key()));
    let n = choose|n: int| 0 <= n < c.len() && c[n] == h;
    assert(holder(c[n], merged.newest_delete) is Some);
    let d = merged.newest_delete->0;
    let m = choose|m: int| 0 <= m < c.len() && c[m] == d;
    assert(holder(c[m], merged.newest_delete) is None);
    assert(!key_before(w.key(), d.key()));
    if !d.remote() {
        assert(own.contains(d));
        let k = choose|k: int| 0 <= k < own.len() && own[k] == d;
        assert(own[k].entry.op is Delete);
    }
    if w.entry.op is Delete {
        assert(own[p].entry.op is Delete);
        let dl = held.newest_delete->0;
        let k = choose|k: int| 0 <= k < own.len() && own[k] == dl;
        assert(!key_before(h.key(), own[k].key()));
        assert(c.contains(dl));
        lemma_same_key(local, remote, h, dl, table, row_id);
    } else {
        lemma_same_key(local, remote, w, d, table, row_id);
    }
}

/// Candidates with one key are of one entry.
proof fn lemma_same_key(
    local: Seq<EntryView>,
    remote: Seq<EntryView>,
    a: CandidateView,
    b: CandidateView,
    table: ChangeTable,
    row_id: Seq<char>,
)
    requires
        one_change_per_key(local + remote),
        row_candidates(local, sorted(remote), table, row_id).contains(a),
        row_candidates(local, sorted(remote), table, row_id).contains(b),
    ensures
        a.key() == b.key() ==> a.entry == b.entry,
{
    let both = local + remote;
    lemma_in_both(local, remote, a, table, row_id);
    lemma_in_both(local, remote, b, table, row_id);
    let i = choose|i: int| 0 <= i < both.len() && both[i] == a.entry;
    let j = choose|j: int| 0 <= j < both.len() && both[j] == b.entry;
    if a.key() == b.key() {
        assert(both[i].key() == both[j].key());
    }
}

/// Applying the plan brings a row from what this device's log describes to what
/// the log describes once the new entries are stored.
pub proof fn applying_the_plan_gives_the_merged_row(
    local: Seq<EntryView>,
    remote: Seq<EntryView>,
    table: ChangeTable,
    row_id: Seq<char>,
)
    requires
        one_change_per_key(local + remote),
        !falls_back_to_an_older_row(local, remote, table, row_id),
    ensures
        ({
            let plan = plan_of(local, remote);
            row_after(
                row_in_log(local, table, row_id),
                write_for(plan.actions, table, row_id),
            ) == row_in_log(local + plan.to_store(), table, row_id)
        }),
{
    let batch = sorted(remote);
    let plan = plan_of(local, remote);
    let log = local + plan.to_store();
    the_plan_writes_what_each_row_needs(local, remote, table, row_id);
    lemma_union_candidates(local, remote, table, row_id);
    let c = row_candidates(local, batch, table, row_id);
    the_row_state_depends_on_the_entries_alone(
        table,
        c,
        local_candidates(log, table, row_id),
    );
    let merged = row_state(local, batch, table, row_id);
    let held = resolved(table, local_candidates(local, table, row_id));
    lemma_same_row(merged, resolved(table, local_candidates(log, table, row_id)));
    lemma_resolved(table, c);
    lemma_resolved(table, local_candidates(local, table, row_id));
    lemma_local_in_candidates(local, batch, table, row_id);
    if merged.row_winner is Some && merged.row_winner->0.remote() {
    } else if merged.row_winner is Some && merged.row_winner != held.row_winner {
        assert(row_value(merged) == row_value(held));
        if merged.per_cell && merged.deleted() is None && !merged.unplaceable {
            let columns = row_value(merged)->0;
            assert(columns.union_prefer_right(merged.remote_cell_values()) =~= columns);
        }
    } else {
        if merged.row_winner is None {
            lemma_no_row_level_entry(local, batch, table, row_id);
        }
        assert(merged.row_winner == held.row_winner);
        if merged.per_cell && merged.deleted() is None && !merged.unplaceable {
            lemma_cells_compose(local, batch, table, row_id);
            match row_value(held) {
                Some(columns) => {
                    assert(columns.union_prefer_right(merged.remote_cell_values())
                        =~= row_value(merged)->0);
                    if merged.action() is None {
                        assert forall|column: Seq<char>|
                            !(#[trigger] merged.remote_cell_values().contains_key(column)) by {}
                        assert(columns.union_prefer_right(merged.remote_cell_values())
                            =~= columns);
                    }
                },
                None => {},
            }
        }
    }
}

/// The candidates of the log alone are candidates of the merge.
proof fn lemma_local_in_candidates(
    local: Seq<EntryView>,
    batch: Seq<EntryView>,
    table: ChangeTable,
    row_id: Seq<char>,
)
    ensures
        forall|x: CandidateView| #[trigger]
            local_candidates(local, table, row_id).contains(x) <==> row_candidates(
                local,
                batch,
                table,
                row_id,
            ).contains(x) && x.order_index is None,
{
    let a = local_candidates(local, table, row_id);
    let c = row_candidates(local, batch, table, row_id);
    lemma_local_candidates(local, table, row_id);
    lemma_row_candidates(local, batch, table, row_id);
    assert forall|x: CandidateView| #[trigger] a.contains(x) <==> c.contains(x)
        && x.order_index is None by {
        if a.contains(x) {
            let p = choose|p: int| 0 <= p < a.len() && a[p] == x;
            assert(a[p] == x);
            let k = choose|k: int| 0 <= k < local.len() && local[k] == x.entry;
            assert(local[k].on_row(table, row_id));
        }
        if c.contains(x) && x.order_index is None {
            let p = choose|p: int| 0 <= p < c.len() && c[p] == x;
            assert(c[p] == x);
            let k = choose|k: int| 0 <= k < local.len() && local[k] == x.entry;
            assert(local[k].on_row(table, row_id));
        }
    }
}

proof fn lemma_no_row_level_entry(
    local: Seq<EntryView>,
    batch: Seq<EntryView>,
    table: ChangeTable,
    row_id: Seq<char>,
)
    requires
        row_state(local, batch, table, row_id).row_winner is None,
    ensures
        resolved(table, local_candidates(local, table, row_id)).row_winner is None,
{
    let a = local_candidates(local, table, row_id);
    let c = row_candidates(local, batch, table, row_id);
    let merged = resolved(table, c);
    let held = resolved(table, a);
    lemma_local_in_candidates(local, batch, table, row_id);
    lemma_resolved(table, a);
    lemma_resolved(table, c);
    if held.row_winner is Some {
        let w = held.row_winner->0;
        assert(a.contains(w));
        assert(c.contains(w));
        let p = choose|p: int| 0 <= p < c.len() && c[p] == w;
        assert(holder(c[p], merged.newest_delete) is Some);
        let d = merged.newest_delete->0;
        let q = choose|q: int| 0 <= q < c.len() && c[q] == d;
        assert(holder(c[q], merged.newest_delete) is None);
    }
}

/// Where the same entry decides the row before and after the merge, the columns
/// decided after it are those decided before, with the remote ones laid over.
proof fn lemma_cells_compose(
    local: Seq<EntryView>,
    batch: Seq<EntryView>,
    table: ChangeTable,
    row_id: Seq<char>,
)
    requires
        one_entry_per_key(row_candidates(local, batch, table, row_id)),
        ({
            let merged = row_state(local, batch, table, row_id);
            let held = resolved(table, local_candidates(local, table, row_id));
            &&& merged.row_winner == held.row_winner
            &&& merged.per_cell
            &&& merged.deleted() is None
        }),
    ensures
        ({
            let merged = row_state(local, batch, table, row_id);
            let held = resolved(table, local_candidates(local, table, row_id));
            &&& held.cell_values().union_prefer_right(merged.remote_cell_values())
                == merged.cell_values()
        }),
{
    key_order_is_total();
    let a = local_candidates(local, table, row_id);
    let c = row_candidates(local, batch, table, row_id);
    let merged = row_state(local, batch, table, row_id);
    let held = resolved(table, a);
    let base = merged.base_upsert();
    lemma_local_in_candidates(local, batch, table, row_id);
    let left = held.cell_values().union_prefer_right(merged.remote_cell_values());
    let right = merged.cell_values();
    assert forall|column: Seq<char>|
        #![trigger left.contains_key(column)]
        (left.contains_key(column) <==> right.contains_key(column)) && (left.contains_key(column)
            ==> left[column] == right[column]) by {
        lemma_cell_winner(a, column, base);
        lemma_cell_winner(c, column, base);
        assert(merged.cells.contains_key(column) <==> cell_winner(c, column, base) is Some);
        assert(held.cells.contains_key(column) <==> cell_winner(a, column, base) is Some);
        if cell_winner(a, column, base) is Some {
            let y = cell_winner(a, column, base)->0;
            assert(a.contains(y));
            assert(c.contains(y));
            let p = choose|p: int| 0 <= p < c.len() && c[p] == y;
            assert(sets_column(c[p], column, base));
            let x = cell_winner(c, column, base)->0;
            assert(!key_before(x.key(), y.key()));
            if x.order_index is None {
                assert(a.contains(x));
                let q = choose|q: int| 0 <= q < a.len() && a[q] == x;
                assert(sets_column(a[q], column, base));
                let r = choose|r: int| 0 <= r < c.len() && c[r] == x;
                assert(c[p].key() == c[r].key());
                assert(x.entry == y.entry);
            }
        }
        if cell_winner(c, column, base) is Some {
            let x = cell_winner(c, column, base)->0;
            if x.order_index is None {
                assert(a.contains(x));
                let q = choose|q: int| 0 <= q < a.len() && a[q] == x;
                assert(sets_column(a[q], column, base));
            }
        }
    }
    assert(left =~= right);
}

/// Two devices that merge one another's log describe the same rows afterwards.
pub proof fn two_devices_converge(
    here: Seq<EntryView>,
    there: Seq<EntryView>,
    table: ChangeTable,
    row_id: Seq<char>,
)
    requires
        one_change_per_key(here + there),
    ensures
        row_in_log(here + plan_of(here, there).to_store(), table, row_id) == row_in_log(
            there + plan_of(there, here).to_store(),
            table,
            row_id,
        ),
{
    let a = here + plan_of(here, there).to_store();
    let b = there + plan_of(there, here).to_store();
    lemma_union_entries(here, there);
    lemma_swapped_keys(here, there);
    lemma_union_entries(there, here);
    let ca = local_candidates(a, table, row_id);
    let cb = local_candidates(b, table, row_id);
    lemma_local_candidates(a, table, row_id);
    lemma_local_candidates(b, table, row_id);
    let both = here + there;
    let swapped = there + here;
    assert forall|entry: EntryView| both.contains(entry) == #[trigger] swapped.contains(entry) by {
        lemma_concat_contains(here, there, entry);
        lemma_concat_contains(there, here, entry);
    }
    assert forall|entry: EntryView| #[trigger] has_entry(ca, entry) <==> has_entry(cb, entry) by {
        if has_entry(ca, entry) {
            lemma_carries(a, b, table, row_id, entry);
        }
        if has_entry(cb, entry) {
            lemma_carries(b, a, table, row_id, entry);
        }
    }
    assert forall|p: int, q: int|
        0 <= p < ca.len() && 0 <= q < ca.len() && (#[trigger] ca[p]).key() == (
        #[trigger] ca[q]).key() implies ca[p].entry == ca[q].entry by {
        assert(a.contains(ca[p].entry) && a.contains(ca[q].entry));
        assert(both.contains(ca[p].entry) && both.contains(ca[q].entry));
        let i = choose|i: int| 0 <= i < both.len() && both[i] == ca[p].entry;
        let j = choose|j: int| 0 <= j < both.len() && both[j] == ca[q].entry;
        assert(both[i].key() == both[j].key());
    }
    the_row_state_depends_on_the_entries_alone(table, ca, cb);
    lemma_same_row(resolved(table, ca), resolved(table, cb));
}

/// Two devices that carry out the plan for one another's log hold the same rows
/// afterwards, where neither plan falls back to an older row.
pub proof fn two_devices_hold_the_same_rows(
    here: Seq<EntryView>,
    there: Seq<EntryView>,
    table: ChangeTable,
    row_id: Seq<char>,
)
    requires
        one_change_per_key(here + there),
        !falls_back_to_an_older_row(here, there, table, row_id),
        !falls_back_to_an_older_row(there, here, table, row_id),
    ensures
        row_after(
            row_in_log(here, table, row_id),
            write_for(plan_of(here, there).actions, table, row_id),
        ) == row_after(
            row_in_log(there, table, row_id),
            write_for(plan_of(there, here).actions, table, row_id),
        ),
{
    lemma_swapped_keys(here, there);
    applying_the_plan_gives_the_merged_row(here, there, table, row_id);
    applying_the_plan_gives_the_merged_row(there, here, table, row_id);
    two_devices_converge(here, there, table, row_id);
}

proof fn lemma_concat_contains(a: Seq<EntryView>, b: Seq<EntryView>, entry: EntryView)
    ensures
        (a + b).contains(entry) <==> a.contains(entry) || b.contains(entry),
{
    if (a + b).contains(entry) {
        let i = choose|i: int| 0 <= i < (a + b).len() && (a + b)[i] == entry;
        if i < a.len() {
            assert(a[i] == entry);
        } else {
            assert(b[i - a.len()] == entry);
        }
    }
    if a.contains(entry) {
        let i = choose|i: int| 0 <= i < a.len() && a[i] == entry;
        assert((a + b)[i] == entry);
    }
    if b.contains(entry) {
        let i = choose|i: int| 0 <= i < b.len() && b[i] == entry;
        assert((a + b)[a.len() + i] == entry);
    }
}

proof fn lemma_swapped_keys(a: Seq<EntryView>, b: Seq<EntryView>)
    requires
        one_change_per_key(a + b),
    ensures
        one_change_per_key(b + a),
{
    let both = a + b;
    let swapped = b + a;
    assert forall|i: int, j: int|
        0 <= i < swapped.len() && 0 <= j < swapped.len() && (#[trigger] swapped[i]).key() == (
        #[trigger] swapped[j]).key() implies swapped[i] == swapped[j] by {
        let p = if i < b.len() {
            a.len() + i
        } else {
            i - b.len()
        };
        let q = if j < b.len() {
            a.len() + j
        } else {
            j - b.len()
        };
        assert(both[p] == swapped[i] && both[q] == swapped[j]);
    }
}

/// A log with the new entries of a batch stored holds exactly what the log and
/// the batch held.
proof fn lemma_union_entries(local: Seq<EntryView>, remote: Seq<EntryView>)
    requires
        one_change_per_key(local + remote),
    ensures
        forall|entry: EntryView| #[trigger]
            (local + plan_of(local, remote).to_store()).contains(entry) <==> (local
                + remote).contains(entry),
{
    let kept = plan_of(local, remote).to_store();
    let both = local + remote;
    assert(one_change_per_key(remote)) by {
        assert forall|i: int, j: int|
            0 <= i < remote.len() && 0 <= j < remote.len() && (#[trigger] remote[i]).key() == (
            #[trigger] remote[j]).key() implies remote[i] == remote[j] by {
            assert(both[local.len() + i] == remote[i] && both[local.len() + j] == remote[j]);
        }
    }
    assert forall|entry: EntryView| #[trigger] (local + kept).contains(entry) <==> both.contains(
        entry,
    ) by {
        lemma_concat_contains(local, kept, entry);
        lemma_concat_contains(local, remote, entry);
        what_is_new_is_stored(local, remote, entry);
        if remote.contains(entry) && holds_key(local, entry.key()) {
            let i = choose|i: int| 0 <= i < local.len() && (#[trigger] local[i]).key()
                == entry.key();
            let j = choose|j: int| 0 <= j < remote.len() && remote[j] == entry;
            assert(both[i] == local[i] && both[local.len() + j] == entry);
            assert(local[i] == entry);
        }
    }
}

proof fn lemma_carries(
    a: Seq<EntryView>,
    b: Seq<EntryView>,
    table: ChangeTable,
    row_id: Seq<char>,
    entry: EntryView,
)
    requires
        forall|e: EntryView| #[trigger] a.contains(e) ==> b.contains(e),
        has_entry(local_candidates(a, table, row_id), entry),
    ensures
        has_entry(local_candidates(b, table, row_id), entry),
{
    let ca = local_candidates(a, table, row_id);
    let cb = local_candidates(b, table, row_id);
    lemma_local_candidates(a, table, row_id);
    lemma_local_candidates(b, table, row_id);
    let p = choose|p: int| 0 <= p < ca.len() && (#[trigger] ca[p]).entry == entry;
    assert(a.contains(entry));
    assert(b.contains(entry));
    let k = choose|k: int| 0 <= k < b.len() && b[k] == entry;
    assert(b[k].on_row(table, row_id));
    let want = CandidateView { entry, order_index: None };
    let q = choose|q: int| 0 <= q < cb.len() && cb[q] == want;
    assert(cb[q].entry == entry);
}

} // verus!
