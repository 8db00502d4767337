//! What a merge does to the files it loads: which table a change reaches, which files
//! stay as they are, and what is told of it afterwards.

use vstd::prelude::*;
use crate::error::ErrorView;
use crate::merge::MergeAction;
use crate::merge_apply::{file_key, income_written, listed, written, FileKey, WriteView};
use crate::merge_files::{is_loaded, keys_differ, slot_of, MergeReport, PreparedView};
use crate::merge_run::{applied, next_sum, Progress};
use crate::refusal_laws::{lemma_occurs, occurs_in};
use crate::sync::ChangeTable;
use crate::text::decimal;

verus! {

/// A write for one table of a file reaches that table and leaves the other one alone. A
/// table that is not as it was is marked as changed, and a mark is never taken back.
pub proof fn a_write_reaches_its_table(
    file: PreparedView,
    table: ChangeTable,
    row_id: Seq<char>,
    write: WriteView,
    after: PreparedView,
)
    requires
        file_key(table) == Some(file.key),
        file.after(table, row_id, write) == Ok::<PreparedView, ErrorView>(after),
    ensures
        after.key == file.key,
        table is InvestmentsPrices ==> {
            &&& after.main == file.main
            &&& after.changed == file.changed
            &&& written(file.prices, table, row_id, write) matches Ok(pair) && pair.0 == after.prices
        },
        !(table is InvestmentsPrices) ==> {
            &&& after.prices == file.prices
            &&& after.prices_changed == file.prices_changed
        },
        table is CashflowIncome ==> (income_written(file.main, table, row_id, write) matches Ok(pair)
            && pair.0 == after.main),
        !(table is InvestmentsPrices) && !(table is CashflowIncome) ==> (written(
            file.main,
            table,
            row_id,
            write,
        ) matches Ok(pair) && pair.0 == after.main),
        after.main != file.main ==> after.changed,
        after.prices != file.prices ==> after.prices_changed,
        file.changed ==> after.changed,
        file.prices_changed ==> after.prices_changed,
{
}

/// A write fits a file exactly where it fits the table it is for.
pub proof fn a_write_fits_where_its_table_takes_it(
    file: PreparedView,
    table: ChangeTable,
    row_id: Seq<char>,
    write: WriteView,
)
    requires
        file_key(table) == Some(file.key),
    ensures
        table is InvestmentsPrices ==> (file.after(table, row_id, write) is Ok <==> written(
            file.prices,
            table,
            row_id,
            write,
        ) is Ok),
        table is CashflowIncome ==> (file.after(table, row_id, write) is Ok <==> income_written(
            file.main,
            table,
            row_id,
            write,
        ) is Ok),
        !(table is InvestmentsPrices) && !(table is CashflowIncome) ==> (file.after(
            table,
            row_id,
            write,
        ) is Ok <==> written(file.main, table, row_id, write) is Ok),
{
}

/// Whether a change is for a file.
pub open spec fn is_for(action: MergeAction, key: FileKey) -> bool {
    file_key(action.table) == Some(key)
}

/// Once every change is applied, the same files are loaded, and one that no change was
/// for is as it was.
pub proof fn a_file_nothing_was_for_stays(
    files: Seq<PreparedView>,
    actions: Seq<MergeAction>,
    at: int,
    after: Seq<PreparedView>,
    i: int,
)
    requires
        applied(files, actions, at) == Progress::Ready(after),
        0 <= at,
        0 <= i < files.len(),
    ensures
        after.len() == files.len(),
        after[i].key == files[i].key,
        (forall|k: int| at <= k < actions.len() ==> !is_for(#[trigger] actions[k], files[i].key))
            ==> after[i] == files[i],
    decreases actions.len() - at,
{
    if at < actions.len() {
        let action = actions[at];
        let key = file_key(action.table)->0;
        let slot = slot_of(files, key);
        assert(files[slot].key == key);
        let file = files[slot].after(action.table, action.row_id@, listed(action.action))->Ok_0;
        a_file_nothing_was_for_stays(files.update(slot, file), actions, at + 1, after, i);
        if forall|k: int| at <= k < actions.len() ==> !is_for(#[trigger] actions[k], files[i].key) {
            assert(!is_for(actions[at], files[i].key));
        }
    }
}

/// One more change at the end of a plan is applied to what the others left, to the one
/// file that it is for, and to no other file.
pub proof fn the_last_change_is_applied_to_what_the_others_left(
    files: Seq<PreparedView>,
    actions: Seq<MergeAction>,
    at: int,
    action: MergeAction,
    left: Seq<PreparedView>,
    slot: int,
)
    requires
        keys_differ(files),
        0 <= at <= actions.len(),
        applied(files, actions, at) == Progress::Ready(left),
        0 <= slot < left.len(),
        is_for(action, left[slot].key),
    ensures
        match left[slot].after(action.table, action.row_id@, listed(action.action)) {
            Ok(file) => applied(files, actions.push(action), at) matches Progress::Ready(after)
                && after.len() == left.len() && after[slot] == file && (forall|i: int|
                0 <= i < left.len() && i != slot ==> #[trigger] after[i] == left[i]),
            Err(e) => applied(files, actions.push(action), at) == Progress::Failed(e),
        },
    decreases actions.len() - at,
{
    let all = actions.push(action);
    if at < actions.len() {
        let first = actions[at];
        assert(all[at] == first);
        let key = file_key(first.table)->0;
        let place = slot_of(files, key);
        assert(files[place].key == key);
        let file = files[place].after(first.table, first.row_id@, listed(first.action))->Ok_0;
        let next = files.update(place, file);
        assert forall|i: int, j: int| 0 <= i < j < next.len() implies (#[trigger] next[i]).key != (
        #[trigger] next[j]).key by {
            assert(files[i].key != files[j].key);
        }
        the_last_change_is_applied_to_what_the_others_left(
            next,
            actions,
            at + 1,
            action,
            left,
            slot,
        );
    } else {
        let key = left[slot].key;
        assert(all[at] == action);
        assert(is_loaded(files, key));
        let place = slot_of(files, key);
        assert(files[place].key == key);
        assert(place == slot);
        if let Ok(file) = left[slot].after(action.table, action.row_id@, listed(action.action)) {
            assert(applied(files.update(slot, file), all, at + 1) == Progress::Ready(
                files.update(slot, file),
            ));
        }
    }
}

/// A file is asked for where it is needed: it is that of the next change, it is not
/// loaded, and every change before that one is applied.
pub proof fn a_file_is_asked_for_where_it_is_needed(
    files: Seq<PreparedView>,
    actions: Seq<MergeAction>,
    at: int,
    so_far: Seq<PreparedView>,
    next: int,
    key: FileKey,
)
    requires
        0 <= at,
        applied(files, actions, at) == (Progress::Needs { files: so_far, at: next, key }),
    ensures
        at <= next < actions.len(),
        is_for(actions[next], key),
        !is_loaded(so_far, key),
        applied(files, actions.take(next), at) == Progress::Ready(so_far),
    decreases actions.len() - at,
{
    if at < actions.len() {
        let action = actions[at];
        let own = file_key(action.table)->0;
        if is_loaded(files, own) {
            let slot = slot_of(files, own);
            let file = files[slot].after(action.table, action.row_id@, listed(action.action))->Ok_0;
            a_file_is_asked_for_where_it_is_needed(
                files.update(slot, file),
                actions,
                at + 1,
                so_far,
                next,
                key,
            );
            assert(actions.take(next)[at] == action);
        }
    }
}

/// A plan that cannot be carried out fails: a change to the settings is no change to a
/// table, and a change that does not fit its file stops the merge with that reason.
pub proof fn a_change_that_does_not_fit_stops_the_merge(
    files: Seq<PreparedView>,
    actions: Seq<MergeAction>,
    at: int,
    slot: int,
)
    requires
        keys_differ(files),
        0 <= at < actions.len(),
        0 <= slot < files.len(),
    ensures
        actions[at].table is CurrencySettings || actions[at].table is CategoryMappings
            || actions[at].table is KnownCategories ==> (applied(files, actions, at)
            matches Progress::Failed(e) && e.status() == 422),
        is_for(actions[at], files[slot].key) ==> (files[slot].after(
            actions[at].table,
            actions[at].row_id@,
            listed(actions[at].action),
        ) matches Err(e) ==> applied(files, actions, at) == Progress::Failed(e)),
{
    let key = files[slot].key;
    if is_for(actions[at], key) {
        assert(is_loaded(files, key));
        let place = slot_of(files, key);
        assert(files[place].key == key);
        assert(place == slot);
    }
}

/// Income is added up again for every cashflow file that changed, in their order, and
/// for no other file.
pub proof fn income_is_added_up_where_it_changed(files: Seq<PreparedView>, at: int)
    requires
        0 <= at <= files.len(),
    ensures
        match next_sum(files, at) {
            Some(i) => {
                &&& at <= i < files.len()
                &&& files[i].key is Cashflow
                &&& files[i].changed
                &&& forall|k: int|
                    at <= k < i ==> !((#[trigger] files[k]).key is Cashflow && files[k].changed)
            },
            None => forall|k: int|
                at <= k < files.len() ==> !((#[trigger] files[k]).key is Cashflow
                    && files[k].changed),
        },
    decreases files.len() - at,
{
    if at < files.len() {
        income_is_added_up_where_it_changed(files, at + 1);
    }
}

proof fn lemma_still_told(told: Seq<char>, more: Seq<char>)
    ensures
        forall|part: Seq<char>|
            occurs_in(part, told) ==> #[trigger] occurs_in(part, told + more),
{
    assert forall|part: Seq<char>| occurs_in(part, told) implies #[trigger] occurs_in(
        part,
        told + more,
    ) by {
        let (before, after) = choose|before: Seq<char>, after: Seq<char>| #[trigger]
            (before + part + after) == told;
        lemma_occurs(before, part, after + more, told + more);
    }
}

proof fn lemma_told(told: Seq<char>, count: Seq<char>, what: Seq<char>) -> (all: Seq<char>)
    ensures
        all == told + count + what,
        occurs_in(count + what, all),
        forall|part: Seq<char>| occurs_in(part, told) ==> #[trigger] occurs_in(part, all),
{
    let all = told + count + what;
    lemma_still_told(told, count + what);
    assert(told + (count + what) =~= all);
    lemma_occurs(told, count + what, Seq::empty(), all);
    all
}

/// The report tells each count beside what it counts.
pub proof fn the_report_tells_its_counts(report: MergeReport)
    ensures
        ({
            let text = report.spec_text();
            let s = report.summary;
            &&& occurs_in(decimal(s.remote_entries as nat) + " remote changes, "@, text)
            &&& occurs_in(decimal(s.applied as nat) + " applied, "@, text)
            &&& occurs_in(decimal(s.already_known as nat) + " already known, "@, text)
            &&& occurs_in(decimal(s.skipped as nat) + " skipped, "@, text)
            &&& occurs_in(decimal(s.unplaceable as nat) + " unplaceable; "@, text)
            &&& occurs_in(decimal(s.rows_changed as nat) + " rows and "@, text)
            &&& occurs_in(decimal(report.files_written as nat) + " files written, "@, text)
            &&& occurs_in(decimal(report.entries_stored as nat) + " changes stored."@, text)
            &&& report.local_corrupt_lines > 0 ==> occurs_in(
                decimal(report.local_corrupt_lines as nat) + " unreadable lines."@,
                text,
            )
        }),
{
    let s = report.summary;
    let t0 = "Merge: "@;
    let t1 = lemma_told(t0, decimal(s.remote_entries as nat), " remote changes, "@);
    let t2 = lemma_told(t1, decimal(s.applied as nat), " applied, "@);
    let t3 = lemma_told(t2, decimal(s.already_known as nat), " already known, "@);
    let t4 = lemma_told(t3, decimal(s.skipped as nat), " skipped, "@);
    let t5 = lemma_told(t4, decimal(s.unplaceable as nat), " unplaceable; "@);
    let t6 = lemma_told(t5, decimal(s.rows_changed as nat), " rows and "@);
    let t7 = lemma_told(t6, decimal(report.files_written as nat), " files written, "@);
    let t8 = lemma_told(t7, decimal(report.entries_stored as nat), " changes stored."@);
    let told = t8 + " The local change log has "@;
    lemma_still_told(t8, " The local change log has "@);
    let t9 = lemma_told(told, decimal(report.local_corrupt_lines as nat), " unreadable lines."@);
    assert(report.spec_text() == if report.local_corrupt_lines > 0 {
        t9
    } else {
        t8
    });
}

} // verus!
