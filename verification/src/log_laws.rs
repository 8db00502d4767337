//! What one more change makes of the row that a log describes.

use vstd::prelude::*;
use crate::merge::{local_candidates, stays_deleted, OutcomeView, SkipView};
use crate::merge_convergence::row_in_log;
use crate::merge_laws::{lemma_cell_winner, lemma_resolved};
use crate::merge_row::{
    cell_winner, holder, is_delete, may_decide, newest_of, resolved, sets_column, CandidateView,
};
use crate::rows::ValueView;
use crate::sync::{
    key_before, key_order_is_total, ChangeTable, EntryView, KeyView, OpView, OriginView,
};
use crate::text::text_before;

verus! {

/// Changes are ordered by their time, then by the counter of changes of the same
/// millisecond, and then by the device they were made on.
pub proof fn changes_are_ordered_by_time_counter_and_device(a: KeyView, b: KeyView)
    ensures
        a.stamp.ms < b.stamp.ms ==> key_before(a, b),
        a.stamp.ms > b.stamp.ms ==> !key_before(a, b),
        a.stamp.ms == b.stamp.ms && a.stamp.counter < b.stamp.counter ==> key_before(a, b),
        a.stamp.ms == b.stamp.ms && a.stamp.counter > b.stamp.counter ==> !key_before(a, b),
        a.stamp.ms == b.stamp.ms && a.stamp.counter == b.stamp.counter ==> (key_before(a, b)
            <==> text_before(a.device, b.device)),
{
}

/// Whether a change is newer than every change of a log.
pub open spec fn is_newest(log: Seq<EntryView>, entry: EntryView) -> bool {
    forall|i: int| 0 <= i < log.len() ==> key_before((#[trigger] log[i]).key(), entry.key())
}

/// Whether a table is one whose rows are changed cell by cell: those with a number for
/// each month, and the settings of the currencies. The expenses, the templates, the
/// mappings and the known categories are changed row by row.
pub open spec fn changes_by_cell(table: ChangeTable) -> bool {
    table is Investments || table is InvestmentsPrices || table is Liquidity || table
        is CreditsDebts || table is CashflowIncome || table is CurrencySettings
}

proof fn lemma_one_more(log: Seq<EntryView>, entry: EntryView, table: ChangeTable, row_id: Seq<char>)
    ensures
        local_candidates(log.push(entry), table, row_id) == if entry.table == table && entry.row_id
            == row_id {
            local_candidates(log, table, row_id).push(
                CandidateView { entry, order_index: None },
            )
        } else {
            local_candidates(log, table, row_id)
        },
{
    assert(log.push(entry).drop_last() =~= log);
}

proof fn lemma_from_log(log: Seq<EntryView>, table: ChangeTable, row_id: Seq<char>, p: int)
    requires
        0 <= p < local_candidates(log, table, row_id).len(),
    ensures
        log.contains(local_candidates(log, table, row_id)[p].entry),
        local_candidates(log, table, row_id)[p].entry.table == table,
        local_candidates(log, table, row_id)[p].entry.row_id == row_id,
    decreases log.len(),
{
    let rest = local_candidates(log.drop_last(), table, row_id);
    if p < rest.len() {
        lemma_from_log(log.drop_last(), table, row_id, p);
        let e = local_candidates(log, table, row_id)[p].entry;
        let i = choose|i: int| 0 <= i < log.drop_last().len() && log.drop_last()[i] == e;
        assert(log[i] == e);
    } else {
        assert(log[log.len() - 1] == log.last());
    }
}

proof fn lemma_filter_push(
    c: Seq<CandidateView>,
    x: CandidateView,
    pick: spec_fn(CandidateView) -> bool,
)
    ensures
        c.push(x).filter(pick) == if pick(x) {
            c.filter(pick).push(x)
        } else {
            c.filter(pick)
        },
{
    reveal(Seq::filter);
    assert(c.push(x).drop_last() =~= c);
}

proof fn lemma_newest_push(c: Seq<CandidateView>, x: CandidateView)
    requires
        forall|p: int| 0 <= p < c.len() ==> key_before((#[trigger] c[p]).key(), x.key()),
    ensures
        newest_of(c.push(x)) == Some(x),
{
    key_order_is_total();
    assert(c.push(x).drop_last() =~= c);
    lemma_newest_among(c);
    if let Some(best) = newest_of(c) {
        let p = choose|p: int| 0 <= p < c.len() && c[p] == best;
        assert(key_before(c[p].key(), x.key()));
    }
}

proof fn lemma_newest_among(c: Seq<CandidateView>)
    ensures
        newest_of(c) matches Some(best) ==> c.contains(best),
    decreases c.len(),
{
    if c.len() > 0 {
        let front = c.drop_last();
        lemma_newest_among(front);
        if let Some(best) = newest_of(front) {
            let p = choose|p: int| 0 <= p < front.len() && front[p] == best;
            assert(c[p] == best);
        }
        assert(c[c.len() - 1] == c.last());
    }
}

proof fn lemma_filter_older(
    c: Seq<CandidateView>,
    x: CandidateView,
    pick: spec_fn(CandidateView) -> bool,
)
    requires
        forall|p: int| 0 <= p < c.len() ==> key_before((#[trigger] c[p]).key(), x.key()),
    ensures
        forall|p: int|
            0 <= p < c.filter(pick).len() ==> key_before(
                (#[trigger] c.filter(pick)[p]).key(),
                x.key(),
            ),
    decreases c.len(),
{
    reveal(Seq::filter);
    if c.len() > 0 {
        let front = c.drop_last();
        assert forall|p: int| 0 <= p < front.len() implies key_before(
            (#[trigger] front[p]).key(),
            x.key(),
        ) by {
            assert(c[p] == front[p]);
        }
        lemma_filter_older(front, x, pick);
        assert(key_before(c[c.len() - 1].key(), x.key()));
        assert forall|p: int| 0 <= p < c.filter(pick).len() implies key_before(
            (#[trigger] c.filter(pick)[p]).key(),
            x.key(),
        ) by {
            if p < front.filter(pick).len() {
                assert(front.filter(pick)[p] == c.filter(pick)[p]);
            }
        }
    }
}

proof fn lemma_no_newer_cells(c: Seq<CandidateView>, column: Seq<char>, base: CandidateView)
    requires
        forall|p: int| 0 <= p < c.len() ==> !key_before(base.key(), (#[trigger] c[p]).key()),
    ensures
        cell_winner(c, column, Some(base)) is None,
    decreases c.len(),
{
    if c.len() > 0 {
        let front = c.drop_last();
        assert forall|p: int| 0 <= p < front.len() implies !key_before(
            base.key(),
            (#[trigger] front[p]).key(),
        ) by {
            assert(c[p] == front[p]);
        }
        lemma_no_newer_cells(front, column, base);
        assert(!key_before(base.key(), c[c.len() - 1].key()));
    }
}

proof fn lemma_cell_winner_among(
    c: Seq<CandidateView>,
    column: Seq<char>,
    base: Option<CandidateView>,
)
    ensures
        cell_winner(c, column, base) matches Some(best) ==> c.contains(best),
    decreases c.len(),
{
    if c.len() > 0 {
        let front = c.drop_last();
        lemma_cell_winner_among(front, column, base);
        if let Some(best) = cell_winner(front, column, base) {
            let p = choose|p: int| 0 <= p < front.len() && front[p] == best;
            assert(c[p] == best);
        }
        assert(c[c.len() - 1] == c.last());
    }
}

proof fn lemma_older(log: Seq<EntryView>, entry: EntryView, table: ChangeTable, row_id: Seq<char>)
    requires
        is_newest(log, entry),
    ensures
        forall|p: int|
            0 <= p < local_candidates(log, table, row_id).len() ==> key_before(
                (#[trigger] local_candidates(log, table, row_id)[p]).key(),
                entry.key(),
            ),
{
    let c = local_candidates(log, table, row_id);
    assert forall|p: int| 0 <= p < c.len() implies key_before((#[trigger] c[p]).key(), entry.key()) by {
        lemma_from_log(log, table, row_id, p);
        let i = choose|i: int| 0 <= i < log.len() && log[i] == c[p].entry;
        assert(key_before(log[i].key(), entry.key()));
    }
}

/// A row that was recorded last, by hand, is the row: whatever the log said before, it
/// then describes exactly what was recorded.
pub proof fn the_row_recorded_last_is_the_row(
    log: Seq<EntryView>,
    entry: EntryView,
    row: Map<Seq<char>, ValueView>,
)
    requires
        is_newest(log, entry),
        entry.op == OpView::Upsert(row),
        entry.origin != Some(OriginView::RecurringApply),
    ensures
        row_in_log(log.push(entry), entry.table, entry.row_id) == Some(row),
        !stays_deleted(log.push(entry), entry.table, entry.row_id),
{
    key_order_is_total();
    let table = entry.table;
    let row_id = entry.row_id;
    let c = local_candidates(log, table, row_id);
    let x = CandidateView { entry, order_index: None };
    lemma_one_more(log, entry, table, row_id);
    lemma_older(log, entry, table, row_id);
    let s = resolved(table, c.push(x));
    lemma_filter_push(c, x, may_decide(s.newest_delete));
    lemma_filter_older(c, x, may_decide(s.newest_delete));
    assert(may_decide(s.newest_delete)(x));
    lemma_newest_push(c.filter(may_decide(s.newest_delete)), x);
    assert(s.row_winner == Some(x));
    assert forall|column: Seq<char>| cell_winner(c.push(x), column, Some(x)) is None by {
        assert forall|p: int| 0 <= p < c.push(x).len() implies !key_before(
            x.key(),
            (#[trigger] c.push(x)[p]).key(),
        ) by {
            if p < c.len() {
                assert(key_before(c[p].key(), x.key()));
            }
        }
        lemma_no_newer_cells(c.push(x), column, x);
    }
    assert(s.cell_values() =~= Map::empty());
    assert(row.union_prefer_right(s.cell_values()) =~= row);
}

/// A row that was deleted last is gone.
pub proof fn the_row_deleted_last_is_gone(log: Seq<EntryView>, entry: EntryView)
    requires
        is_newest(log, entry),
        entry.op is Delete,
    ensures
        row_in_log(log.push(entry), entry.table, entry.row_id) is None,
        stays_deleted(log.push(entry), entry.table, entry.row_id),
{
    key_order_is_total();
    let table = entry.table;
    let row_id = entry.row_id;
    let c = local_candidates(log, table, row_id);
    let x = CandidateView { entry, order_index: None };
    lemma_one_more(log, entry, table, row_id);
    lemma_older(log, entry, table, row_id);
    let s = resolved(table, c.push(x));
    lemma_filter_push(c, x, may_decide(s.newest_delete));
    lemma_filter_older(c, x, may_decide(s.newest_delete));
    assert(may_decide(s.newest_delete)(x));
    lemma_newest_push(c.filter(may_decide(s.newest_delete)), x);
    assert(s.row_winner == Some(x));
}

/// A generated row that was recorded last over a deletion that no row recorded by hand
/// undid stays deleted, and one over no deletion at all is the row.
pub proof fn a_generated_row_does_not_undo_a_deletion(
    log: Seq<EntryView>,
    entry: EntryView,
    row: Map<Seq<char>, ValueView>,
)
    requires
        is_newest(log, entry),
        entry.op == OpView::Upsert(row),
        entry.origin == Some(OriginView::RecurringApply),
    ensures
        stays_deleted(log, entry.table, entry.row_id) ==> row_in_log(
            log.push(entry),
            entry.table,
            entry.row_id,
        ) is None,
        (forall|i: int|
            0 <= i < log.len() && (#[trigger] log[i]).table == entry.table && log[i].row_id
                == entry.row_id ==> !(log[i].op is Delete)) ==> row_in_log(
            log.push(entry),
            entry.table,
            entry.row_id,
        ) == Some(row),
{
    key_order_is_total();
    let table = entry.table;
    let row_id = entry.row_id;
    let c = local_candidates(log, table, row_id);
    let x = CandidateView { entry, order_index: None };
    lemma_one_more(log, entry, table, row_id);
    lemma_older(log, entry, table, row_id);
    let before = resolved(table, c);
    let s = resolved(table, c.push(x));
    lemma_filter_push(c, x, is_delete());
    assert(s.newest_delete == before.newest_delete);
    lemma_filter_push(c, x, may_decide(s.newest_delete));
    lemma_newest_among(c.filter(is_delete()));
    if let Some(delete) = s.newest_delete {
        lemma_delete_in(c, delete);
        let p = choose|p: int| 0 <= p < c.len() && c[p] == delete;
        assert(key_before(c[p].key(), x.key()));
        assert(holder(x, s.newest_delete) is Some);
        assert(s.row_winner == before.row_winner);
        lemma_from_log(log, table, row_id, p);
        let i = choose|i: int| 0 <= i < log.len() && log[i] == c[p].entry;
        assert(log[i].op is Delete);
    } else {
        lemma_filter_older(c, x, may_decide(s.newest_delete));
        lemma_newest_push(c.filter(may_decide(s.newest_delete)), x);
        assert(s.row_winner == Some(x));
        assert forall|column: Seq<char>| cell_winner(c.push(x), column, Some(x)) is None by {
            assert forall|p: int| 0 <= p < c.push(x).len() implies !key_before(
                x.key(),
                (#[trigger] c.push(x)[p]).key(),
            ) by {
                if p < c.len() {
                    assert(key_before(c[p].key(), x.key()));
                }
            }
            lemma_no_newer_cells(c.push(x), column, x);
        }
        assert(s.cell_values() =~= Map::empty());
        assert(row.union_prefer_right(s.cell_values()) =~= row);
        if before.row_winner is Some {
            lemma_winner_is_no_delete(c, before.row_winner->0);
        }
    }
}

proof fn lemma_delete_in(c: Seq<CandidateView>, delete: CandidateView)
    requires
        c.filter(is_delete()).contains(delete),
    ensures
        c.contains(delete),
        delete.entry.op is Delete,
{
    let p = choose|p: int| 0 <= p < c.filter(is_delete()).len() && c.filter(is_delete())[p] == delete;
    c.lemma_filter_pred(is_delete(), p);
    c.lemma_filter_contains_rev(is_delete(), delete);
}

proof fn lemma_winner_is_no_delete(c: Seq<CandidateView>, w: CandidateView)
    requires
        newest_of(c.filter(is_delete())) is None,
        newest_of(c.filter(may_decide(None))) == Some(w),
    ensures
        !(w.entry.op is Delete),
{
    lemma_newest_among(c.filter(may_decide(None)));
    c.lemma_filter_contains_rev(may_decide(None), w);
    if w.entry.op is Delete {
        let p = choose|p: int| 0 <= p < c.len() && c[p] == w;
        assert(is_delete()(c[p]));
        c.lemma_filter_contains(is_delete(), p);
        assert(c.filter(is_delete()).len() > 0);
    }
}

proof fn lemma_cell_pushed(
    c: Seq<CandidateView>,
    x: CandidateView,
    column: Seq<char>,
    base: Option<CandidateView>,
)
    requires
        x.entry.op is Cell,
        forall|p: int| 0 <= p < c.len() ==> key_before((#[trigger] c[p]).key(), x.key()),
        base matches Some(b) ==> key_before(b.key(), x.key()),
    ensures
        cell_winner(c.push(x), column, base) == if x.entry.op->Cell_0 == column {
            Some(x)
        } else {
            cell_winner(c, column, base)
        },
{
    assert(c.push(x).drop_last() =~= c);
    lemma_cell_winner_among(c, column, base);
    if let Some(best) = cell_winner(c, column, base) {
        let p = choose|p: int| 0 <= p < c.len() && c[p] == best;
        assert(key_before(c[p].key(), x.key()));
    }
    assert(sets_column(x, column, base) <==> x.entry.op->Cell_0 == column);
}

/// A cell that was recorded last changes that one cell of the row, in the tables that
/// are changed cell by cell, where the log describes the row. In the other tables it
/// changes nothing.
pub proof fn the_cell_recorded_last_is_the_cell(
    log: Seq<EntryView>,
    entry: EntryView,
    column: Seq<char>,
    value: ValueView,
)
    requires
        is_newest(log, entry),
        entry.op == OpView::Cell(column, value),
    ensures
        ({
            let before = row_in_log(log, entry.table, entry.row_id);
            let after = row_in_log(log.push(entry), entry.table, entry.row_id);
            &&& changes_by_cell(entry.table) ==> match before {
                Some(columns) => after == Some(columns.insert(column, value)),
                None => after is None,
            }
            &&& !changes_by_cell(entry.table) ==> after == before
        }),
{
    key_order_is_total();
    let table = entry.table;
    let row_id = entry.row_id;
    let c = local_candidates(log, table, row_id);
    let x = CandidateView { entry, order_index: None };
    lemma_one_more(log, entry, table, row_id);
    lemma_older(log, entry, table, row_id);
    let before = resolved(table, c);
    let s = resolved(table, c.push(x));
    lemma_filter_push(c, x, is_delete());
    assert(s.newest_delete == before.newest_delete);
    lemma_filter_push(c, x, may_decide(s.newest_delete));
    assert(s.row_winner == before.row_winner);
    lemma_newest_among(c.filter(may_decide(s.newest_delete)));
    if let Some(w) = s.row_winner {
        c.lemma_filter_contains_rev(may_decide(s.newest_delete), w);
        let p = choose|p: int| 0 <= p < c.len() && c[p] == w;
        assert(key_before(c[p].key(), x.key()));
    }
    let base = s.base_upsert();
    assert(before.base_upsert() == base);
    if s.per_cell && s.deleted() is None {
        assert forall|other: Seq<char>| #[trigger] cell_winner(c.push(x), other, base) == (
        if other == column {
            Some(x)
        } else {
            cell_winner(c, other, base)
        }) by {
            lemma_cell_pushed(c, x, other, base);
        }
        assert(s.cell_values() =~= before.cell_values().insert(column, value));
        if let Some(b) = base {
            let row = b.entry.op->Upsert_0;
            assert(row.union_prefer_right(s.cell_values()) =~= row.union_prefer_right(
                before.cell_values(),
            ).insert(column, value));
        }
    }
}

/// A change of one row says nothing of another.
pub proof fn a_change_of_one_row_leaves_the_others(
    log: Seq<EntryView>,
    entry: EntryView,
    table: ChangeTable,
    row_id: Seq<char>,
)
    requires
        table != entry.table || row_id != entry.row_id,
    ensures
        row_in_log(log.push(entry), table, row_id) == row_in_log(log, table, row_id),
        stays_deleted(log.push(entry), table, row_id) == stays_deleted(log, table, row_id),
{
    lemma_one_more(log, entry, table, row_id);
}

/// The rows of income are there from the start, and no other row is before one was
/// recorded.
pub proof fn only_the_rows_of_income_are_there_from_the_start(table: ChangeTable, row_id: Seq<char>)
    ensures
        table is CashflowIncome ==> row_in_log(Seq::empty(), table, row_id) == Some(
            Map::<Seq<char>, ValueView>::empty(),
        ),
        !(table is CashflowIncome) ==> row_in_log(Seq::empty(), table, row_id) is None,
{
    let c = local_candidates(Seq::empty(), table, row_id);
    reveal(Seq::filter);
    let s = resolved(table, c);
    assert(c.filter(is_delete()) =~= Seq::empty());
    assert(c.filter(may_decide(s.newest_delete)) =~= Seq::empty());
    assert(s.cell_values() =~= Map::empty());
}

/// Whether some competing change is one of the whole row under a key.
pub open spec fn names_a_row_change(c: Seq<CandidateView>, key: KeyView) -> bool {
    exists|p: int|
        0 <= p < c.len() && (#[trigger] c[p]).key() == key && !(c[p].entry.op is Cell)
}

/// Whether some competing change deletes the row under a key.
pub open spec fn names_a_deletion(c: Seq<CandidateView>, key: KeyView) -> bool {
    exists|p: int| 0 <= p < c.len() && (#[trigger] c[p]).key() == key && c[p].entry.op is Delete
}

/// Whether some competing change sets a column under a key.
pub open spec fn names_a_cell(c: Seq<CandidateView>, key: KeyView, column: Seq<char>) -> bool {
    exists|p: int|
        0 <= p < c.len() && (#[trigger] c[p]).key() == key && (c[p].entry.op matches OpView::Cell(
            other,
            _,
        ) && other == column)
}

/// A change that is skipped names the change it gave way to. One superseded by a row, or
/// by a cell, names a newer row, or a newer cell of its own column; a cell of a deleted
/// row names the deletion; and a generated row that stays deleted names the deletion
/// before it. Only a cell is skipped for its table, which is then one that is changed
/// row by row.
pub proof fn a_skipped_change_names_what_it_gave_way_to(
    table: ChangeTable,
    c: Seq<CandidateView>,
    at: int,
)
    requires
        0 <= at < c.len(),
        forall|p: int, q: int|
            0 <= p < q < c.len() ==> (#[trigger] c[p]).key() != (#[trigger] c[q]).key(),
    ensures
        match resolved(table, c).outcome_for(c[at]) {
            OutcomeView::Skipped(reason) => match reason {
                SkipView::SupersededByRow(key) => key_before(c[at].key(), key)
                    && names_a_row_change(c, key),
                SkipView::SupersededByCell(key) => key_before(c[at].key(), key) && (
                c[at].entry.op matches OpView::Cell(column, _) && names_a_cell(c, key, column)),
                SkipView::RowIsDeleted(key) => c[at].entry.op is Cell && names_a_deletion(c, key),
                SkipView::GeneratedRowStaysDeleted(key) => key_before(key, c[at].key())
                    && names_a_deletion(c, key) && c[at].entry.op is Upsert && c[at].entry.origin
                    == Some(OriginView::RecurringApply),
                SkipView::CellOnWholeRowTable => c[at].entry.op is Cell && !changes_by_cell(table),
            },
            OutcomeView::Unplaceable => c[at].entry.op is Cell && changes_by_cell(table) && !(table
                is CashflowIncome),
            _ => true,
        },
{
    key_order_is_total();
    lemma_resolved(table, c);
    let s = resolved(table, c);
    if let Some(w) = s.row_winner {
        let p = choose|p: int| 0 <= p < c.len() && c[p] == w;
        assert(c[p].key() == w.key() && !(c[p].entry.op is Cell));
        assert(names_a_row_change(c, w.key()));
        if w.entry.op is Delete {
            assert(names_a_deletion(c, w.key()));
        }
        if p != at {
            assert(c[p].key() != c[at].key());
        }
    }
    if let Some(d) = s.newest_delete {
        let p = choose|p: int| 0 <= p < c.len() && c[p] == d;
        assert(c[p].key() == d.key());
        assert(names_a_deletion(c, d.key()));
    }
    if let OpView::Cell(column, _) = c[at].entry.op {
        let base = s.base_upsert();
        lemma_cell_winner(c, column, base);
        if s.cells.contains_key(column) {
            let w = cell_winner(c, column, base)->0;
            let p = choose|p: int| 0 <= p < c.len() && c[p] == w;
            assert(c[p].key() == w.key());
            assert(names_a_cell(c, w.key(), column));
            if p != at {
                assert(c[p].key() != c[at].key());
            }
        }
    }
}

} // verus!
