//! What holds of every merge.

use vstd::prelude::*;
use crate::merge::{
    action_at, actions_upto, already_known, applied, decisions_of, fresh, holds_key,
    in_change_order, last_applied, latest_stamp, lemma_local_candidates, lemma_row_candidates,
    local_candidates, outcome_at, plan_of, row_candidates, row_state, skipped, sorted,
    sorted_batch_is_ordered, stored_entries, unplaceable, DecisionView,
};
use crate::merge_row::{
    cell_winner, holder, is_delete, may_decide, newest_of, resolved, sets_column, CandidateView,
    RowStateView,
};
use crate::sync::{key_before, key_order_is_total, ChangeTable, EntryView, KeyView, OriginView};

verus! {

/// Whether a stamp and a device name one change: entries with one key are the
/// same entry.
pub open spec fn one_change_per_key(log: Seq<EntryView>) -> bool {
    forall|i: int, j: int|
        0 <= i < log.len() && 0 <= j < log.len() && (#[trigger] log[i]).key() == (
        #[trigger] log[j]).key() ==> log[i] == log[j]
}

pub proof fn lemma_first_of_key(batch: Seq<EntryView>, i: int) -> (k: int)
    requires
        0 <= i < batch.len(),
    ensures
        0 <= k <= i,
        batch[k].key() == batch[i].key(),
        forall|j: int| 0 <= j < k ==> (#[trigger] batch[j]).key() != batch[k].key(),
    decreases i,
{
    if exists|j: int| 0 <= j < i && (#[trigger] batch[j]).key() == batch[i].key() {
        let j = choose|j: int| 0 <= j < i && (#[trigger] batch[j]).key() == batch[i].key();
        lemma_first_of_key(batch, j)
    } else {
        i
    }
}

/// The stored entries are exactly those whose decision is not "already known".
pub proof fn lemma_stored_entries(decisions: Seq<DecisionView>)
    ensures
        forall|i: int|
            0 <= i < decisions.len() && !((#[trigger] decisions[i]).outcome is AlreadyKnown)
                ==> stored_entries(decisions).contains(decisions[i].entry),
        forall|k: int|
            0 <= k < stored_entries(decisions).len() ==> exists|i: int|
                0 <= i < decisions.len() && (#[trigger] decisions[i]).entry
                    == #[trigger] stored_entries(decisions)[k] && !(
                decisions[i].outcome is AlreadyKnown),
    decreases decisions.len(),
{
    if decisions.len() > 0 {
        let front = decisions.drop_last();
        let n = decisions.len() - 1;
        lemma_stored_entries(front);
        let rest = stored_entries(front);
        let all = stored_entries(decisions);
        assert forall|i: int|
            0 <= i < decisions.len() && !((#[trigger] decisions[i]).outcome is AlreadyKnown) implies
            all.contains(decisions[i].entry) by {
            if i < n {
                assert(front[i] == decisions[i]);
                let k = choose|k: int| 0 <= k < rest.len() && rest[k] == decisions[i].entry;
                assert(all[k] == decisions[i].entry);
            } else {
                assert(all[rest.len() as int] == decisions[i].entry);
            }
        }
        assert forall|k: int| 0 <= k < all.len() implies exists|i: int|
            0 <= i < decisions.len() && (#[trigger] decisions[i]).entry == #[trigger] all[k] && !(
            decisions[i].outcome is AlreadyKnown) by {
            if k < rest.len() {
                assert(all[k] == rest[k]);
                let i = choose|i: int|
                    0 <= i < front.len() && (#[trigger] front[i]).entry == rest[k] && !(
                    front[i].outcome is AlreadyKnown);
                assert(decisions[i] == front[i]);
            } else {
                assert(decisions[n].entry == all[k]);
            }
        }
    }
}

proof fn lemma_no_actions(local: Seq<EntryView>, batch: Seq<EntryView>, n: int)
    requires
        0 <= n <= batch.len(),
        forall|i: int| 0 <= i < batch.len() ==> !(#[trigger] fresh(local, batch, i)),
    ensures
        actions_upto(local, batch, n).len() == 0,
    decreases n,
{
    if n > 0 {
        lemma_no_actions(local, batch, n - 1);
        assert(!fresh(local, batch, n - 1));
        assert(outcome_at(local, batch, n - 1) is AlreadyKnown);
    }
}

proof fn lemma_nothing_stored(decisions: Seq<DecisionView>)
    requires
        forall|i: int|
            0 <= i < decisions.len() ==> (#[trigger] decisions[i]).outcome is AlreadyKnown,
    ensures
        stored_entries(decisions).len() == 0,
{
    lemma_stored_entries(decisions);
    if stored_entries(decisions).len() > 0 {
        let e = stored_entries(decisions)[0];
        let i = choose|i: int|
            0 <= i < decisions.len() && (#[trigger] decisions[i]).entry == e && !(
            decisions[i].outcome is AlreadyKnown);
        assert(decisions[i].outcome is AlreadyKnown);
    }
}

/// A batch that arrives twice changes nothing the second time: once the entries
/// of the first plan are stored, every entry is already known, no row is
/// written and nothing more is stored.
pub proof fn a_batch_that_arrives_twice_changes_nothing(
    local: Seq<EntryView>,
    remote: Seq<EntryView>,
)
    ensures
        ({
            let log = local + plan_of(local, remote).to_store();
            let again = plan_of(log, remote);
            &&& again.actions.len() == 0
            &&& again.to_store().len() == 0
            &&& forall|i: int|
                0 <= i < again.decisions.len() ==> (
                #[trigger] again.decisions[i]).outcome is AlreadyKnown
        }),
{
    let batch = sorted(remote);
    let first = decisions_of(local, batch);
    let kept = stored_entries(first);
    let log = local + kept;
    lemma_stored_entries(first);
    assert forall|i: int| 0 <= i < batch.len() implies !(#[trigger] fresh(log, batch, i)) by {
        let k = lemma_first_of_key(batch, i);
        if holds_key(local, batch[k].key()) {
            let j = choose|j: int| 0 <= j < local.len() && (#[trigger] local[j]).key()
                == batch[k].key();
            assert(log[j].key() == batch[i].key());
        } else {
            assert(fresh(local, batch, k));
            assert(!(first[k].outcome is AlreadyKnown));
            let j = choose|j: int| 0 <= j < kept.len() && kept[j] == first[k].entry;
            assert(log[local.len() + j].key() == batch[i].key());
        }
        assert(holds_key(log, batch[i].key()));
    }
    lemma_no_actions(log, batch, batch.len() as int);
    let again = decisions_of(log, batch);
    assert forall|i: int| 0 <= i < again.len() implies (
    #[trigger] again[i]).outcome is AlreadyKnown by {
        assert(!fresh(log, batch, i));
    }
    lemma_nothing_stored(again);
}

/// Every entry of a batch that is not in the log is stored, as it arrived, and
/// nothing else is.
pub proof fn what_is_new_is_stored(local: Seq<EntryView>, remote: Seq<EntryView>, entry: EntryView)
    ensures
        plan_of(local, remote).to_store().contains(entry) ==> remote.contains(entry) && !holds_key(
            local,
            entry.key(),
        ),
        one_change_per_key(remote) && remote.contains(entry) && !holds_key(local, entry.key())
            ==> plan_of(local, remote).to_store().contains(entry),
{
    broadcast use vstd::seq_lib::group_to_multiset_ensures;

    let batch = sorted(remote);
    let decisions = decisions_of(local, batch);
    sorted_batch_is_ordered(remote);
    lemma_stored_entries(decisions);
    let kept = stored_entries(decisions);
    if kept.contains(entry) {
        let k = choose|k: int| 0 <= k < kept.len() && kept[k] == entry;
        let i = choose|i: int|
            0 <= i < decisions.len() && (#[trigger] decisions[i]).entry == kept[k] && !(
            decisions[i].outcome is AlreadyKnown);
        assert(fresh(local, batch, i));
        assert(batch.contains(entry));
        assert(batch.to_multiset().count(entry) > 0);
        assert(remote.to_multiset().count(entry) > 0);
    }
    if one_change_per_key(remote) && remote.contains(entry) && !holds_key(local, entry.key()) {
        assert(remote.to_multiset().count(entry) > 0);
        assert(batch.to_multiset().count(entry) > 0);
        assert(batch.contains(entry));
        let i = choose|i: int| 0 <= i < batch.len() && batch[i] == entry;
        let k = lemma_first_of_key(batch, i);
        assert(fresh(local, batch, k));
        assert(batch.contains(batch[k]));
        assert(batch.to_multiset().count(batch[k]) > 0);
        assert(remote.to_multiset().count(batch[k]) > 0);
        assert(remote.contains(batch[k]));
        let a = choose|a: int| 0 <= a < remote.len() && remote[a] == batch[k];
        let b = choose|b: int| 0 <= b < remote.len() && remote[b] == entry;
        assert(remote[a].key() == remote[b].key());
        assert(!(decisions[k].outcome is AlreadyKnown));
        assert(decisions[k].entry == entry);
    }
}

pub proof fn lemma_actions_upto(local: Seq<EntryView>, batch: Seq<EntryView>, n: int) -> (from: Seq<int>)
    requires
        0 <= n <= batch.len(),
    ensures
        from.len() == actions_upto(local, batch, n).len(),
        forall|k: int|
            0 <= k < from.len() ==> 0 <= (#[trigger] from[k]) < n && action_at(
                local,
                batch,
                from[k],
            ) == Some(actions_upto(local, batch, n)[k]),
        forall|k: int, l: int|
            0 <= k < l < from.len() ==> (#[trigger] from[k]) < (#[trigger] from[l]),
        forall|i: int|
            0 <= i < n && (#[trigger] action_at(local, batch, i)) is Some ==> actions_upto(
                local,
                batch,
                n,
            ).contains(action_at(local, batch, i)->0),
    decreases n,
{
    if n <= 0 {
        Seq::empty()
    } else {
        let rest = lemma_actions_upto(local, batch, n - 1);
        let before = actions_upto(local, batch, n - 1);
        let after = actions_upto(local, batch, n);
        match action_at(local, batch, n - 1) {
            Some(action) => {
                let from = rest.push(n - 1);
                assert forall|i: int|
                    0 <= i < n && (#[trigger] action_at(local, batch, i)) is Some implies after.contains(
                    action_at(local, batch, i)->0,
                ) by {
                    if i < n - 1 {
                        let k = choose|k: int|
                            0 <= k < before.len() && before[k] == action_at(local, batch, i)->0;
                        assert(after[k] == before[k]);
                    } else {
                        assert(after[before.len() as int] == action);
                    }
                }
                assert forall|k: int| 0 <= k < from.len() implies 0 <= (#[trigger] from[k]) < n
                    && action_at(local, batch, from[k]) == Some(after[k]) by {
                    if k < rest.len() {
                        assert(from[k] == rest[k]);
                    }
                }
                from
            },
            None => rest,
        }
    }
}

/// Each row is written at most once.
pub proof fn each_row_is_written_at_most_once(
    local: Seq<EntryView>,
    remote: Seq<EntryView>,
    i: int,
    j: int,
)
    requires
        0 <= i < j < plan_of(local, remote).actions.len(),
    ensures
        plan_of(local, remote).actions[i].table != plan_of(local, remote).actions[j].table
            || plan_of(local, remote).actions[i].row_id != plan_of(local, remote).actions[j].row_id,
{
    let batch = sorted(remote);
    let from = lemma_actions_upto(local, batch, batch.len() as int);
    assert(from[i] < from[j]);
    let a = action_at(local, batch, from[i]);
    let b = action_at(local, batch, from[j]);
    if a->0.table == b->0.table && a->0.row_id == b->0.row_id {
        assert(batch[from[j]].on_row(batch[from[i]].table, batch[from[i]].row_id));
    }
}

/// The writes stand in the order of the newest applied entries of their rows.
pub proof fn writes_follow_the_applied_entries(
    local: Seq<EntryView>,
    remote: Seq<EntryView>,
    i: int,
    j: int,
    p: int,
    q: int,
)
    requires
        0 <= i < j < plan_of(local, remote).actions.len(),
        last_applied(local, sorted(remote), p),
        last_applied(local, sorted(remote), q),
        sorted(remote)[p].on_row(
            plan_of(local, remote).actions[i].table,
            plan_of(local, remote).actions[i].row_id,
        ),
        sorted(remote)[q].on_row(
            plan_of(local, remote).actions[j].table,
            plan_of(local, remote).actions[j].row_id,
        ),
    ensures
        p < q,
{
    let batch = sorted(remote);
    let from = lemma_actions_upto(local, batch, batch.len() as int);
    assert(from[i] < from[j]);
    let a = action_at(local, batch, from[i]);
    let b = action_at(local, batch, from[j]);
    assert(batch[from[i]].on_row(batch[p].table, batch[p].row_id));
    assert(batch[p].on_row(batch[from[i]].table, batch[from[i]].row_id));
    assert(batch[from[j]].on_row(batch[q].table, batch[q].row_id));
    assert(batch[q].on_row(batch[from[j]].table, batch[from[j]].row_id));
    assert(p == from[i] && q == from[j]);
}

/// There is one decision per remote entry, in the order of changes, and the
/// four kinds of outcome add up to their number.
pub proof fn every_entry_gets_one_decision(local: Seq<EntryView>, remote: Seq<EntryView>)
    ensures
        ({
            let plan = plan_of(local, remote);
            let entries = plan.decisions.map_values(|d: DecisionView| d.entry);
            &&& plan.decisions.len() == remote.len()
            &&& entries.to_multiset() == remote.to_multiset()
            &&& in_change_order(entries)
            &&& plan.summary.remote_entries == remote.len()
            &&& plan.summary.applied + plan.summary.already_known + plan.summary.skipped
                + plan.summary.unplaceable == remote.len()
        }),
{
    sorted_batch_is_ordered(remote);
    let plan = plan_of(local, remote);
    assert(plan.decisions.map_values(|d: DecisionView| d.entry) =~= sorted(remote));
    lemma_kinds_add_up(plan.decisions);
}

proof fn lemma_kinds_add_up(decisions: Seq<DecisionView>)
    ensures
        decisions.filter(applied()).len() + decisions.filter(already_known()).len()
            + decisions.filter(skipped()).len() + decisions.filter(unplaceable()).len()
            == decisions.len(),
    decreases decisions.len(),
{
    reveal(Seq::filter);
    if decisions.len() > 0 {
        lemma_kinds_add_up(decisions.drop_last());
    }
}

/// The stamp a plan reports is the latest of the batch: it belongs to an entry
/// and no entry has a later one. An empty batch has none.
pub proof fn the_reported_stamp_is_the_latest(local: Seq<EntryView>, remote: Seq<EntryView>)
    ensures
        match plan_of(local, remote).summary.max_remote_stamp {
            Some(stamp) => (exists|i: int|
                0 <= i < remote.len() && (#[trigger] remote[i]).stamp == stamp) && forall|i: int|
                0 <= i < remote.len() ==> !stamp.before((#[trigger] remote[i]).stamp),
            None => remote.len() == 0,
        },
{
    broadcast use vstd::seq_lib::group_to_multiset_ensures;

    let batch = sorted(remote);
    sorted_batch_is_ordered(remote);
    lemma_latest_stamp(batch);
    if remote.len() > 0 {
        let stamp = latest_stamp(batch)->0;
        let k = choose|k: int| 0 <= k < batch.len() && (#[trigger] batch[k]).stamp == stamp;
        assert(batch.contains(batch[k]));
        assert(remote.to_multiset().count(batch[k]) > 0);
        assert(remote.contains(batch[k]));
        let i = choose|i: int| 0 <= i < remote.len() && remote[i] == batch[k];
        assert(remote[i].stamp == stamp);
        assert forall|i: int| 0 <= i < remote.len() implies !stamp.before(
            (#[trigger] remote[i]).stamp,
        ) by {
            assert(remote.contains(remote[i]));
            assert(batch.to_multiset().count(remote[i]) > 0);
            assert(batch.contains(remote[i]));
            let j = choose|j: int| 0 <= j < batch.len() && batch[j] == remote[i];
            assert(!stamp.before(batch[j].stamp));
        }
    }
}

proof fn lemma_latest_stamp(entries: Seq<EntryView>)
    ensures
        match latest_stamp(entries) {
            Some(stamp) => (exists|i: int|
                0 <= i < entries.len() && (#[trigger] entries[i]).stamp == stamp) && forall|i: int|
                0 <= i < entries.len() ==> !stamp.before((#[trigger] entries[i]).stamp),
            None => entries.len() == 0,
        },
    decreases entries.len(),
{
    if entries.len() > 0 {
        let front = entries.drop_last();
        lemma_latest_stamp(front);
        let n = entries.len() - 1;
        assert(entries[n].stamp == entries.last().stamp);
        let stamp = latest_stamp(entries)->0;
        if front.len() > 0 {
            let old_stamp = latest_stamp(front)->0;
            let k = choose|k: int| 0 <= k < front.len() && (#[trigger] front[k]).stamp == old_stamp;
            assert(entries[k].stamp == old_stamp);
        }
        assert forall|i: int| 0 <= i < entries.len() implies !stamp.before(
            (#[trigger] entries[i]).stamp,
        ) by {
            if i < n {
                assert(front[i] == entries[i]);
            }
        }
    }
}

/// Whether some candidate carries this entry.
pub open spec fn has_entry(candidates: Seq<CandidateView>, entry: EntryView) -> bool {
    exists|p: int| 0 <= p < candidates.len() && (#[trigger] candidates[p]).entry == entry
}

/// Whether two lists of candidates carry the same entries.
pub open spec fn same_entries(a: Seq<CandidateView>, b: Seq<CandidateView>) -> bool {
    forall|entry: EntryView| #[trigger] has_entry(a, entry) <==> has_entry(b, entry)
}

/// Whether candidates with one key carry the same entry.
pub open spec fn one_entry_per_key(candidates: Seq<CandidateView>) -> bool {
    forall|p: int, q: int|
        0 <= p < candidates.len() && 0 <= q < candidates.len() && (#[trigger] candidates[p]).key()
            == (#[trigger] candidates[q]).key() ==> candidates[p].entry == candidates[q].entry
}

pub proof fn lemma_newest(candidates: Seq<CandidateView>)
    ensures
        match newest_of(candidates) {
            Some(best) => candidates.contains(best) && forall|p: int|
                0 <= p < candidates.len() ==> !key_before(
                    best.key(),
                    (#[trigger] candidates[p]).key(),
                ),
            None => candidates.len() == 0,
        },
    decreases candidates.len(),
{
    key_order_is_total();
    if candidates.len() > 0 {
        let front = candidates.drop_last();
        let n = candidates.len() - 1;
        lemma_newest(front);
        let best = newest_of(candidates)->0;
        if front.len() > 0 {
            let old_best = newest_of(front)->0;
            let k = choose|k: int| 0 <= k < front.len() && front[k] == old_best;
            assert(candidates[k] == old_best);
        }
        assert(candidates[n] == candidates.last());
        assert forall|p: int| 0 <= p < candidates.len() implies !key_before(
            best.key(),
            (#[trigger] candidates[p]).key(),
        ) by {
            if p < n {
                assert(front[p] == candidates[p]);
            }
        }
    }
}

pub proof fn lemma_cell_winner(
    candidates: Seq<CandidateView>,
    column: Seq<char>,
    base: Option<CandidateView>,
)
    ensures
        match cell_winner(candidates, column, base) {
            Some(best) => candidates.contains(best) && sets_column(best, column, base) && forall|
                p: int,
            |
                0 <= p < candidates.len() && sets_column(#[trigger] candidates[p], column, base)
                    ==> !key_before(best.key(), candidates[p].key()),
            None => forall|p: int|
                0 <= p < candidates.len() ==> !sets_column(#[trigger] candidates[p], column, base),
        },
    decreases candidates.len(),
{
    key_order_is_total();
    if candidates.len() > 0 {
        let front = candidates.drop_last();
        let n = candidates.len() - 1;
        lemma_cell_winner(front, column, base);
        assert(candidates[n] == candidates.last());
        assert(forall|p: int| 0 <= p < n ==> front[p] == #[trigger] candidates[p]);
        if cell_winner(front, column, base) is Some {
            let old_best = cell_winner(front, column, base)->0;
            let k = choose|k: int| 0 <= k < front.len() && front[k] == old_best;
            assert(candidates[k] == old_best);
        }
    }
}

/// Two picks that look at the entries alone pick the same entries.
proof fn lemma_filter_same(
    a: Seq<CandidateView>,
    b: Seq<CandidateView>,
    pick_a: spec_fn(CandidateView) -> bool,
    pick_b: spec_fn(CandidateView) -> bool,
)
    requires
        same_entries(a, b),
        one_entry_per_key(a),
        forall|x: CandidateView, y: CandidateView|
            x.entry == y.entry ==> #[trigger] pick_a(x) == #[trigger] pick_b(y),
    ensures
        same_entries(a.filter(pick_a), b.filter(pick_b)),
        one_entry_per_key(a.filter(pick_a)),
{
    assert forall|entry: EntryView| #[trigger]
        has_entry(a.filter(pick_a), entry) <==> has_entry(b.filter(pick_b), entry) by {
        if has_entry(a.filter(pick_a), entry) {
            lemma_filter_one_way(a, b, pick_a, pick_b, entry);
        }
        if has_entry(b.filter(pick_b), entry) {
            lemma_filter_one_way(b, a, pick_b, pick_a, entry);
        }
    }
    let kept = a.filter(pick_a);
    assert forall|p: int, q: int|
        0 <= p < kept.len() && 0 <= q < kept.len() && (#[trigger] kept[p]).key() == (
        #[trigger] kept[q]).key() implies kept[p].entry == kept[q].entry by {
        a.lemma_filter_contains_rev(pick_a, kept[p]);
        a.lemma_filter_contains_rev(pick_a, kept[q]);
        let i = choose|i: int| 0 <= i < a.len() && a[i] == kept[p];
        let j = choose|j: int| 0 <= j < a.len() && a[j] == kept[q];
        assert(a[i].key() == a[j].key());
    }
}

proof fn lemma_filter_one_way(
    a: Seq<CandidateView>,
    b: Seq<CandidateView>,
    pick_a: spec_fn(CandidateView) -> bool,
    pick_b: spec_fn(CandidateView) -> bool,
    entry: EntryView,
)
    requires
        same_entries(a, b),
        forall|x: CandidateView, y: CandidateView|
            x.entry == y.entry ==> #[trigger] pick_a(x) == #[trigger] pick_b(y),
        has_entry(a.filter(pick_a), entry),
    ensures
        has_entry(b.filter(pick_b), entry),
{
    let kept = a.filter(pick_a);
    let p = choose|p: int| 0 <= p < kept.len() && (#[trigger] kept[p]).entry == entry;
    a.lemma_filter_pred(pick_a, p);
    a.lemma_filter_contains_rev(pick_a, kept[p]);
    let i = choose|i: int| 0 <= i < a.len() && a[i] == kept[p];
    assert(a[i].entry == entry);
    assert(has_entry(a, entry));
    let j = choose|j: int| 0 <= j < b.len() && (#[trigger] b[j]).entry == entry;
    assert(pick_a(a[i]) == pick_b(b[j]));
    b.lemma_filter_contains(pick_b, j);
    let q = choose|q: int| 0 <= q < b.filter(pick_b).len() && b.filter(pick_b)[q] == b[j];
    assert(b.filter(pick_b)[q].entry == entry);
}

/// Whether two optional candidates carry the same entry.
pub open spec fn same_choice(a: Option<CandidateView>, b: Option<CandidateView>) -> bool {
    match (a, b) {
        (Some(x), Some(y)) => x.entry == y.entry,
        (None, None) => true,
        _ => false,
    }
}

proof fn lemma_newest_same(a: Seq<CandidateView>, b: Seq<CandidateView>)
    requires
        same_entries(a, b),
        one_entry_per_key(a),
    ensures
        same_choice(newest_of(a), newest_of(b)),
{
    key_order_is_total();
    lemma_newest(a);
    lemma_newest(b);
    if a.len() > 0 {
        assert(has_entry(a, a[0].entry));
        assert(has_entry(b, a[0].entry));
    }
    if b.len() > 0 {
        assert(has_entry(b, b[0].entry));
        assert(has_entry(a, b[0].entry));
    }
    if a.len() > 0 && b.len() > 0 {
        let x = newest_of(a)->0;
        let y = newest_of(b)->0;
        let i = choose|i: int| 0 <= i < a.len() && a[i] == x;
        let j = choose|j: int| 0 <= j < b.len() && b[j] == y;
        assert(a[i].entry == x.entry && b[j].entry == y.entry);
        assert(has_entry(a, x.entry) && has_entry(b, y.entry));
        assert(has_entry(a, y.entry) && has_entry(b, x.entry));
        let i2 = choose|i2: int| 0 <= i2 < a.len() && (#[trigger] a[i2]).entry == y.entry;
        let j2 = choose|j2: int| 0 <= j2 < b.len() && (#[trigger] b[j2]).entry == x.entry;
        assert(!key_before(x.key(), a[i2].key()));
        assert(!key_before(y.key(), b[j2].key()));
        assert(a[i].key() == a[i2].key());
    }
}

/// Whether two row states make the same choices, wherever the entries came
/// from.
pub open spec fn same_state(a: RowStateView, b: RowStateView) -> bool {
    &&& a.per_cell == b.per_cell
    &&& a.unplaceable == b.unplaceable
    &&& same_choice(a.newest_delete, b.newest_delete)
    &&& same_choice(a.row_winner, b.row_winner)
    &&& forall|column: Seq<char>| #[trigger]
        a.cells.contains_key(column) <==> b.cells.contains_key(column)
    &&& forall|column: Seq<char>| #[trigger]
        a.cells.contains_key(column) ==> a.cells[column].entry == b.cells[column].entry
}

proof fn lemma_cell_winner_same(
    a: Seq<CandidateView>,
    b: Seq<CandidateView>,
    column: Seq<char>,
    base_a: Option<CandidateView>,
    base_b: Option<CandidateView>,
)
    requires
        same_entries(a, b),
        one_entry_per_key(a),
        same_choice(base_a, base_b),
    ensures
        same_choice(cell_winner(a, column, base_a), cell_winner(b, column, base_b)),
{
    key_order_is_total();
    lemma_cell_winner(a, column, base_a);
    lemma_cell_winner(b, column, base_b);
    if cell_winner(a, column, base_a) is Some {
        let x = cell_winner(a, column, base_a)->0;
        let i = choose|i: int| 0 <= i < a.len() && a[i] == x;
        assert(a[i].entry == x.entry);
        assert(has_entry(a, x.entry));
        let j = choose|j: int| 0 <= j < b.len() && (#[trigger] b[j]).entry == x.entry;
        assert(sets_column(b[j], column, base_b));
    }
    if cell_winner(b, column, base_b) is Some {
        let y = cell_winner(b, column, base_b)->0;
        let j = choose|j: int| 0 <= j < b.len() && b[j] == y;
        assert(b[j].entry == y.entry);
        assert(has_entry(b, y.entry));
        assert(has_entry(a, y.entry));
        let i = choose|i: int| 0 <= i < a.len() && (#[trigger] a[i]).entry == y.entry;
        assert(sets_column(a[i], column, base_a));
        let x = cell_winner(a, column, base_a)->0;
        assert(!key_before(x.key(), y.key()));
        let k = choose|k: int| 0 <= k < a.len() && a[k] == x;
        assert(a[k].entry == x.entry);
        assert(has_entry(a, x.entry));
        assert(has_entry(b, x.entry));
        let l = choose|l: int| 0 <= l < b.len() && (#[trigger] b[l]).entry == x.entry;
        assert(sets_column(b[l], column, base_b));
        assert(!key_before(y.key(), b[l].key()));
        assert(a[k].key() == a[i].key());
    }
}

/// The state of a row depends on the entries that compete for it, not on their
/// order, nor on which device they came from.
pub proof fn the_row_state_depends_on_the_entries_alone(
    table: ChangeTable,
    a: Seq<CandidateView>,
    b: Seq<CandidateView>,
)
    requires
        same_entries(a, b),
        one_entry_per_key(a),
    ensures
        same_state(resolved(table, a), resolved(table, b)),
{
    let sa = resolved(table, a);
    let sb = resolved(table, b);
    lemma_filter_same(a, b, is_delete(), is_delete());
    lemma_newest_same(a.filter(is_delete()), b.filter(is_delete()));
    lemma_filter_same(a, b, may_decide(sa.newest_delete), may_decide(sb.newest_delete));
    lemma_newest_same(
        a.filter(may_decide(sa.newest_delete)),
        b.filter(may_decide(sb.newest_delete)),
    );
    if sa.per_cell && sa.deleted() is None {
        assert forall|column: Seq<char>| #[trigger]
            sa.cells.contains_key(column) <==> sb.cells.contains_key(column) by {
            lemma_cell_winner_same(a, b, column, sa.base_upsert(), sb.base_upsert());
        }
        assert forall|column: Seq<char>| #[trigger] sa.cells.contains_key(column) implies
            sa.cells[column].entry == sb.cells[column].entry by {
            lemma_cell_winner_same(a, b, column, sa.base_upsert(), sb.base_upsert());
        }
    }
}

proof fn lemma_same_sorted(a: Seq<EntryView>, b: Seq<EntryView>)
    requires
        a.to_multiset() == b.to_multiset(),
        in_change_order(a),
        in_change_order(b),
        one_change_per_key(a),
    ensures
        a == b,
    decreases a.len(),
{
    broadcast use vstd::seq_lib::group_to_multiset_ensures;

    key_order_is_total();
    assert(a.len() == a.to_multiset().len());
    assert(b.len() == b.to_multiset().len());
    if a.len() > 0 {
        let n = a.len() - 1;
        let x = a[n];
        let y = b[n];
        assert(a.contains(x) && b.contains(y));
        assert(b.to_multiset().count(x) > 0 && a.to_multiset().count(y) > 0);
        assert(b.contains(x) && a.contains(y));
        let i = choose|i: int| 0 <= i < a.len() && a[i] == y;
        let j = choose|j: int| 0 <= j < b.len() && b[j] == x;
        if i < n {
            assert(!key_before(a[n].key(), a[i].key()));
        }
        if j < n {
            assert(!key_before(b[n].key(), b[j].key()));
        }
        assert(a[n].key() == a[i].key());
        assert(x == y);
        let fa = a.drop_last();
        let fb = b.drop_last();
        assert(a =~= fa.push(x));
        assert(b =~= fb.push(x));
        assert(fa.to_multiset() =~= a.to_multiset().remove(x));
        assert(fb.to_multiset() =~= b.to_multiset().remove(x));
        assert forall|p: int, q: int| 0 <= p < q < fa.len() implies !key_before(
            (#[trigger] fa[q]).key(),
            (#[trigger] fa[p]).key(),
        ) by {
            assert(!key_before(a[q].key(), a[p].key()));
        }
        assert forall|p: int, q: int| 0 <= p < q < fb.len() implies !key_before(
            (#[trigger] fb[q]).key(),
            (#[trigger] fb[p]).key(),
        ) by {
            assert(!key_before(b[q].key(), b[p].key()));
        }
        assert forall|p: int, q: int|
            0 <= p < fa.len() && 0 <= q < fa.len() && (#[trigger] fa[p]).key() == (
            #[trigger] fa[q]).key() implies fa[p] == fa[q] by {
            assert(a[p] == fa[p] && a[q] == fa[q]);
        }
        lemma_same_sorted(fa, fb);
    } else {
        assert(a =~= b);
    }
}

proof fn lemma_permuted_keys(a: Seq<EntryView>, b: Seq<EntryView>)
    requires
        a.to_multiset() == b.to_multiset(),
        one_change_per_key(a),
    ensures
        one_change_per_key(b),
        forall|key: KeyView| holds_key(a, key) == #[trigger] holds_key(b, key),
        forall|entry: EntryView| a.contains(entry) == #[trigger] b.contains(entry),
{
    broadcast use vstd::seq_lib::group_to_multiset_ensures;

    assert forall|entry: EntryView| a.contains(entry) == #[trigger] b.contains(entry) by {
        assert(a.contains(entry) <==> a.to_multiset().count(entry) > 0);
        assert(b.contains(entry) <==> b.to_multiset().count(entry) > 0);
    }
    assert forall|key: KeyView| holds_key(a, key) == #[trigger] holds_key(b, key) by {
        if holds_key(a, key) {
            let i = choose|i: int| 0 <= i < a.len() && (#[trigger] a[i]).key() == key;
            assert(a.contains(a[i]));
            assert(b.contains(a[i]));
            let j = choose|j: int| 0 <= j < b.len() && b[j] == a[i];
            assert(b[j].key() == key);
        }
        if holds_key(b, key) {
            let i = choose|i: int| 0 <= i < b.len() && (#[trigger] b[i]).key() == key;
            assert(b.contains(b[i]));
            assert(a.contains(b[i]));
            let j = choose|j: int| 0 <= j < a.len() && a[j] == b[i];
            assert(a[j].key() == key);
        }
    }
    assert forall|i: int, j: int|
        0 <= i < b.len() && 0 <= j < b.len() && (#[trigger] b[i]).key() == (
        #[trigger] b[j]).key() implies b[i] == b[j] by {
        assert(b.contains(b[i]) && b.contains(b[j]));
        assert(a.contains(b[i]) && a.contains(b[j]));
        let p = choose|p: int| 0 <= p < a.len() && a[p] == b[i];
        let q = choose|q: int| 0 <= q < a.len() && a[q] == b[j];
        assert(a[p].key() == a[q].key());
    }
}

/// The plan depends on the contents of the batch and not on the order in which
/// its entries arrived.
pub proof fn the_order_of_the_batch_does_not_matter(
    local: Seq<EntryView>,
    remote: Seq<EntryView>,
    shuffled: Seq<EntryView>,
)
    requires
        remote.to_multiset() == shuffled.to_multiset(),
        one_change_per_key(remote),
    ensures
        plan_of(local, remote) == plan_of(local, shuffled),
{
    sorted_batch_is_ordered(remote);
    sorted_batch_is_ordered(shuffled);
    lemma_permuted_keys(remote, sorted(remote));
    lemma_same_sorted(sorted(remote), sorted(shuffled));
}

/// What the candidates of two logs that hold the same entries have in common.
proof fn lemma_shuffled_log_state(
    local: Seq<EntryView>,
    shuffled: Seq<EntryView>,
    batch: Seq<EntryView>,
    table: ChangeTable,
    row_id: Seq<char>,
)
    requires
        local.to_multiset() == shuffled.to_multiset(),
        one_change_per_key(local),
    ensures
        row_state(local, batch, table, row_id) == row_state(shuffled, batch, table, row_id),
{
    lemma_permuted_keys(local, shuffled);
    lemma_row_candidates(local, batch, table, row_id);
    lemma_row_candidates(shuffled, batch, table, row_id);
    let a = row_candidates(local, batch, table, row_id);
    let b = row_candidates(shuffled, batch, table, row_id);
    assert forall|i: int| #[trigger] fresh(local, batch, i) == fresh(shuffled, batch, i) by {}
    assert forall|c: CandidateView| #[trigger] a.contains(c) == b.contains(c) by {
        if a.contains(c) {
            let p = choose|p: int| 0 <= p < a.len() && a[p] == c;
            match c.order_index {
                Some(k) => {
                    assert(fresh(local, batch, k));
                    assert(fresh(shuffled, batch, k));
                    assert(batch[k].on_row(table, row_id));
                },
                None => {
                    assert(local.contains(c.entry));
                    assert(shuffled.contains(c.entry));
                    let k = choose|k: int| 0 <= k < shuffled.len() && shuffled[k] == c.entry;
                    assert(shuffled[k].on_row(table, row_id));
                },
            }
        }
        if b.contains(c) {
            let p = choose|p: int| 0 <= p < b.len() && b[p] == c;
            match c.order_index {
                Some(k) => {
                    assert(fresh(shuffled, batch, k));
                    assert(fresh(local, batch, k));
                    assert(batch[k].on_row(table, row_id));
                },
                None => {
                    assert(shuffled.contains(c.entry));
                    assert(local.contains(c.entry));
                    let k = choose|k: int| 0 <= k < local.len() && local[k] == c.entry;
                    assert(local[k].on_row(table, row_id));
                },
            }
        }
    }
    lemma_one_candidate_per_key(local, batch, table, row_id);
    lemma_resolved_by_set(table, a, b);
}

/// Candidates with one key are one candidate, when the log names each change
/// once.
proof fn lemma_one_candidate_per_key(
    local: Seq<EntryView>,
    batch: Seq<EntryView>,
    table: ChangeTable,
    row_id: Seq<char>,
)
    requires
        one_change_per_key(local),
    ensures
        forall|p: int, q: int|
            0 <= p < row_candidates(local, batch, table, row_id).len() && 0 <= q < row_candidates(
                local,
                batch,
                table,
                row_id,
            ).len() && (#[trigger] row_candidates(local, batch, table, row_id)[p]).key() == (
            #[trigger] row_candidates(local, batch, table, row_id)[q]).key() ==> row_candidates(
                local,
                batch,
                table,
                row_id,
            )[p] == row_candidates(local, batch, table, row_id)[q],
{
    lemma_row_candidates(local, batch, table, row_id);
    let a = row_candidates(local, batch, table, row_id);
    assert forall|p: int, q: int|
        0 <= p < a.len() && 0 <= q < a.len() && (#[trigger] a[p]).key() == (
        #[trigger] a[q]).key() implies a[p] == a[q] by {
        match (a[p].order_index, a[q].order_index) {
            (Some(i), Some(j)) => {
                assert(fresh(local, batch, i) && fresh(local, batch, j));
                assert(batch[i].key() == batch[j].key());
            },
            (Some(i), None) => {
                let k = choose|k: int| 0 <= k < local.len() && local[k] == a[q].entry;
                assert(local[k].key() == batch[i].key());
            },
            (None, Some(j)) => {
                let k = choose|k: int| 0 <= k < local.len() && local[k] == a[p].entry;
                assert(local[k].key() == batch[j].key());
            },
            (None, None) => {
                let i = choose|i: int| 0 <= i < local.len() && local[i] == a[p].entry;
                let j = choose|j: int| 0 <= j < local.len() && local[j] == a[q].entry;
                assert(local[i].key() == local[j].key());
            },
        }
    }
}

/// Whether candidates with one key are the same candidate.
spec fn one_candidate_per_key(a: Seq<CandidateView>) -> bool {
    forall|p: int, q: int|
        0 <= p < a.len() && 0 <= q < a.len() && (#[trigger] a[p]).key() == (
        #[trigger] a[q]).key() ==> a[p] == a[q]
}

proof fn lemma_newest_by_set(a: Seq<CandidateView>, b: Seq<CandidateView>)
    requires
        forall|c: CandidateView| #[trigger] a.contains(c) == b.contains(c),
        one_candidate_per_key(a),
    ensures
        newest_of(a) == newest_of(b),
{
    key_order_is_total();
    lemma_newest(a);
    lemma_newest(b);
    if a.len() > 0 {
        assert(a.contains(a[0]));
    }
    if b.len() > 0 {
        assert(b.contains(b[0]));
        assert(a.contains(b[0]));
    }
    if a.len() > 0 && b.len() > 0 {
        let x = newest_of(a)->0;
        let y = newest_of(b)->0;
        assert(a.contains(x) && b.contains(x) && b.contains(y) && a.contains(y));
        let i = choose|i: int| 0 <= i < a.len() && a[i] == x;
        let j = choose|j: int| 0 <= j < a.len() && a[j] == y;
        let k = choose|k: int| 0 <= k < b.len() && b[k] == x;
        assert(!key_before(x.key(), a[j].key()));
        assert(!key_before(y.key(), b[k].key()));
        assert(a[i].key() == a[j].key());
    }
}

proof fn lemma_filter_by_set(
    a: Seq<CandidateView>,
    b: Seq<CandidateView>,
    pick: spec_fn(CandidateView) -> bool,
)
    requires
        forall|c: CandidateView| #[trigger] a.contains(c) == b.contains(c),
        one_candidate_per_key(a),
    ensures
        forall|c: CandidateView| #[trigger] a.filter(pick).contains(c) == b.filter(pick).contains(c),
        one_candidate_per_key(a.filter(pick)),
{
    assert forall|c: CandidateView| #[trigger] a.filter(pick).contains(c) == b.filter(pick).contains(
        c,
    ) by {
        if a.filter(pick).contains(c) {
            let p = choose|p: int| 0 <= p < a.filter(pick).len() && a.filter(pick)[p] == c;
            a.lemma_filter_pred(pick, p);
            a.lemma_filter_contains_rev(pick, c);
            assert(a.contains(c));
            let j = choose|j: int| 0 <= j < b.len() && b[j] == c;
            b.lemma_filter_contains(pick, j);
        }
        if b.filter(pick).contains(c) {
            let p = choose|p: int| 0 <= p < b.filter(pick).len() && b.filter(pick)[p] == c;
            b.lemma_filter_pred(pick, p);
            b.lemma_filter_contains_rev(pick, c);
            assert(a.contains(c));
            let j = choose|j: int| 0 <= j < a.len() && a[j] == c;
            a.lemma_filter_contains(pick, j);
        }
    }
    let kept = a.filter(pick);
    assert forall|p: int, q: int|
        0 <= p < kept.len() && 0 <= q < kept.len() && (#[trigger] kept[p]).key() == (
        #[trigger] kept[q]).key() implies kept[p] == kept[q] by {
        a.lemma_filter_contains_rev(pick, kept[p]);
        a.lemma_filter_contains_rev(pick, kept[q]);
        let i = choose|i: int| 0 <= i < a.len() && a[i] == kept[p];
        let j = choose|j: int| 0 <= j < a.len() && a[j] == kept[q];
        assert(a[i].key() == a[j].key());
    }
}

proof fn lemma_cell_winner_by_set(
    a: Seq<CandidateView>,
    b: Seq<CandidateView>,
    column: Seq<char>,
    base: Option<CandidateView>,
)
    requires
        forall|c: CandidateView| #[trigger] a.contains(c) == b.contains(c),
        one_candidate_per_key(a),
    ensures
        cell_winner(a, column, base) == cell_winner(b, column, base),
{
    key_order_is_total();
    lemma_cell_winner(a, column, base);
    lemma_cell_winner(b, column, base);
    if cell_winner(a, column, base) is Some {
        let x = cell_winner(a, column, base)->0;
        assert(a.contains(x));
        assert(b.contains(x));
        let j = choose|j: int| 0 <= j < b.len() && b[j] == x;
        assert(sets_column(b[j], column, base));
    }
    if cell_winner(b, column, base) is Some {
        let y = cell_winner(b, column, base)->0;
        assert(b.contains(y));
        assert(a.contains(y));
        let i = choose|i: int| 0 <= i < a.len() && a[i] == y;
        assert(sets_column(a[i], column, base));
        let x = cell_winner(a, column, base)->0;
        assert(a.contains(x));
        assert(b.contains(x));
        let k = choose|k: int| 0 <= k < a.len() && a[k] == x;
        let l = choose|l: int| 0 <= l < b.len() && b[l] == x;
        assert(sets_column(b[l], column, base));
        assert(a[i].key() == a[k].key());
    }
}

proof fn lemma_resolved_by_set(
    table: ChangeTable,
    a: Seq<CandidateView>,
    b: Seq<CandidateView>,
)
    requires
        forall|c: CandidateView| #[trigger] a.contains(c) == b.contains(c),
        one_candidate_per_key(a),
    ensures
        resolved(table, a) == resolved(table, b),
{
    let sa = resolved(table, a);
    let sb = resolved(table, b);
    lemma_filter_by_set(a, b, is_delete());
    lemma_newest_by_set(a.filter(is_delete()), b.filter(is_delete()));
    lemma_filter_by_set(a, b, may_decide(sa.newest_delete));
    lemma_newest_by_set(
        a.filter(may_decide(sa.newest_delete)),
        b.filter(may_decide(sa.newest_delete)),
    );
    assert(sa.row_winner == sb.row_winner);
    if sa.per_cell && sa.deleted() is None {
        assert forall|column: Seq<char>| #[trigger]
            sa.cells.contains_key(column) <==> sb.cells.contains_key(column) by {
            lemma_cell_winner_by_set(a, b, column, sa.base_upsert());
        }
        assert forall|column: Seq<char>| #[trigger] sa.cells.contains_key(column) implies
            sa.cells[column] == sb.cells[column] by {
            lemma_cell_winner_by_set(a, b, column, sa.base_upsert());
        }
    }
    assert(sa.cells =~= sb.cells);
}

/// The plan depends on what this device's log holds and not on the order in
/// which it holds it.
pub proof fn the_order_of_the_log_does_not_matter(
    local: Seq<EntryView>,
    shuffled: Seq<EntryView>,
    remote: Seq<EntryView>,
)
    requires
        local.to_multiset() == shuffled.to_multiset(),
        one_change_per_key(local),
    ensures
        plan_of(local, remote) == plan_of(shuffled, remote),
{
    let batch = sorted(remote);
    lemma_permuted_keys(local, shuffled);
    assert forall|i: int| #[trigger] fresh(local, batch, i) == fresh(shuffled, batch, i) by {}
    assert forall|i: int|
        0 <= i < batch.len() implies #[trigger] outcome_at(local, batch, i) == outcome_at(
        shuffled,
        batch,
        i,
    ) by {
        lemma_shuffled_log_state(local, shuffled, batch, batch[i].table, batch[i].row_id);
        assert(fresh(local, batch, i) == fresh(shuffled, batch, i));
    }
    assert(decisions_of(local, batch) =~= decisions_of(shuffled, batch));
    lemma_shuffled_log_actions(local, shuffled, batch, batch.len() as int);
}

proof fn lemma_shuffled_log_actions(
    local: Seq<EntryView>,
    shuffled: Seq<EntryView>,
    batch: Seq<EntryView>,
    n: int,
)
    requires
        0 <= n <= batch.len(),
        local.to_multiset() == shuffled.to_multiset(),
        one_change_per_key(local),
        forall|i: int|
            0 <= i < batch.len() ==> #[trigger] outcome_at(local, batch, i) == outcome_at(
                shuffled,
                batch,
                i,
            ),
    ensures
        actions_upto(local, batch, n) == actions_upto(shuffled, batch, n),
    decreases n,
{
    if n > 0 {
        lemma_shuffled_log_actions(local, shuffled, batch, n - 1);
        let i = n - 1;
        lemma_shuffled_log_state(local, shuffled, batch, batch[i].table, batch[i].row_id);
        assert(outcome_at(local, batch, i) == outcome_at(shuffled, batch, i));
        assert(last_applied(local, batch, i) == last_applied(shuffled, batch, i)) by {
            assert(forall|j: int|
                0 <= j < batch.len() ==> #[trigger] outcome_at(local, batch, j) == outcome_at(
                    shuffled,
                    batch,
                    j,
                ));
            assert(forall|j: int|
                0 <= j < batch.len() ==> #[trigger] outcome_at(shuffled, batch, j) == outcome_at(
                    local,
                    batch,
                    j,
                ));
        }
    }
}

/// What the deciding entries of a row state are.
pub proof fn lemma_resolved(table: ChangeTable, c: Seq<CandidateView>)
    ensures
        match resolved(table, c).newest_delete {
            Some(d) => c.contains(d) && d.entry.op is Delete && forall|p: int|
                0 <= p < c.len() && (#[trigger] c[p]).entry.op is Delete ==> !key_before(
                    d.key(),
                    c[p].key(),
                ),
            None => forall|p: int| 0 <= p < c.len() ==> !((#[trigger] c[p]).entry.op is Delete),
        },
        match resolved(table, c).row_winner {
            Some(w) => c.contains(w) && !(w.entry.op is Cell) && holder(
                w,
                resolved(table, c).newest_delete,
            ) is None && forall|p: int|
                0 <= p < c.len() && !((#[trigger] c[p]).entry.op is Cell) && holder(
                    c[p],
                    resolved(table, c).newest_delete,
                ) is None ==> !key_before(w.key(), c[p].key()),
            None => forall|p: int|
                0 <= p < c.len() ==> (#[trigger] c[p]).entry.op is Cell || holder(
                    c[p],
                    resolved(table, c).newest_delete,
                ) is Some,
        },
{
    let s = resolved(table, c);
    let deletes = c.filter(is_delete());
    lemma_newest(deletes);
    lemma_picked(c, is_delete());
    let deciding = c.filter(may_decide(s.newest_delete));
    lemma_newest(deciding);
    lemma_picked(c, may_decide(s.newest_delete));
    assert forall|p: int| 0 <= p < c.len() && (#[trigger] c[p]).entry.op is Delete implies (
    s.newest_delete is Some && !key_before(s.newest_delete->0.key(), c[p].key())) by {
        assert(is_delete()(c[p]));
        let k = choose|k: int| 0 <= k < deletes.len() && deletes[k] == c[p];
        assert(deletes[k] == c[p]);
    }
    assert forall|p: int|
        0 <= p < c.len() && !((#[trigger] c[p]).entry.op is Cell) && holder(
            c[p],
            s.newest_delete,
        ) is None implies (s.row_winner is Some && !key_before(s.row_winner->0.key(), c[p].key()))
        by {
        assert(may_decide(s.newest_delete)(c[p]));
        let k = choose|k: int| 0 <= k < deciding.len() && deciding[k] == c[p];
        assert(deciding[k] == c[p]);
    }
}

proof fn lemma_picked(c: Seq<CandidateView>, pick: spec_fn(CandidateView) -> bool)
    ensures
        forall|x: CandidateView| #[trigger]
            c.filter(pick).contains(x) ==> c.contains(x) && pick(x),
        forall|p: int| 0 <= p < c.len() && pick(#[trigger] c[p]) ==> c.filter(pick).contains(c[p]),
{
    assert forall|x: CandidateView| #[trigger] c.filter(pick).contains(x) implies c.contains(x)
        && pick(x) by {
        let p = choose|p: int| 0 <= p < c.filter(pick).len() && c.filter(pick)[p] == x;
        c.lemma_filter_pred(pick, p);
        c.lemma_filter_contains_rev(pick, x);
    }
    assert forall|p: int| 0 <= p < c.len() && pick(#[trigger] c[p]) implies c.filter(
        pick,
    ).contains(c[p]) by {
        c.lemma_filter_contains(pick, p);
    }
}

/// Whether an entry is an upsert generated from a recurring template.
pub open spec fn generated(entry: EntryView) -> bool {
    entry.op is Upsert && entry.origin == Some(OriginView::RecurringApply)
}

/// A generated upsert is never applied over an older delete of the same row,
/// whether the delete is in this device's log or came with the batch.
pub proof fn a_generated_upsert_never_overrides_a_delete(
    local: Seq<EntryView>,
    remote: Seq<EntryView>,
    i: int,
    delete: EntryView,
)
    requires
        0 <= i < remote.len(),
        generated(sorted(remote)[i]),
        delete.op is Delete,
        delete.on_row(sorted(remote)[i].table, sorted(remote)[i].row_id),
        key_before(delete.key(), sorted(remote)[i].key()),
        local.contains(delete) || exists|j: int|
            fresh(local, sorted(remote), j) && #[trigger] sorted(remote)[j] == delete,
    ensures
        !(plan_of(local, remote).decisions[i].outcome is Applied),
{
    let batch = sorted(remote);
    sorted_batch_is_ordered(remote);
    let table = batch[i].table;
    let row_id = batch[i].row_id;
    if fresh(local, batch, i) {
        key_order_is_total();
        lemma_row_candidates(local, batch, table, row_id);
        let c = row_candidates(local, batch, table, row_id);
        lemma_resolved(table, c);
        let s = row_state(local, batch, table, row_id);
        let me = CandidateView { entry: batch[i], order_index: Some(i) };
        let d = if local.contains(delete) {
            CandidateView { entry: delete, order_index: None }
        } else {
            let j = choose|j: int| fresh(local, batch, j) && #[trigger] batch[j] == delete;
            CandidateView { entry: delete, order_index: Some(j) }
        };
        assert(c.contains(d)) by {
            if local.contains(delete) {
                let k = choose|k: int| 0 <= k < local.len() && local[k] == delete;
                assert(local[k].on_row(table, row_id));
            } else {
                let j = d.order_index->0;
                assert(batch[j].on_row(table, row_id));
            }
        }
        let p = choose|p: int| 0 <= p < c.len() && c[p] == d;
        assert(c[p].entry.op is Delete);
        let n = s.newest_delete->0;
        assert(!key_before(n.key(), d.key()));
        if holder(me, s.newest_delete) is None {
            assert(!key_before(n.key(), me.key()));
            let q = choose|q: int| 0 <= q < c.len() && c[q] == n;
            assert(holder(c[q], s.newest_delete) is None);
            assert(c[q].entry.op is Delete);
            let w = s.row_winner->0;
            assert(!key_before(w.key(), n.key()));
            if w.key() == me.key() {
                assert(n.key() == me.key());
                lemma_fresh_key_is_its_own(local, batch, i, n);
            }
        }
    }
}

/// No other candidate shares the key of a new entry of the batch.
pub proof fn lemma_fresh_key_is_its_own(
    local: Seq<EntryView>,
    batch: Seq<EntryView>,
    i: int,
    c: CandidateView,
)
    requires
        fresh(local, batch, i),
        row_candidates(local, batch, batch[i].table, batch[i].row_id).contains(c),
        c.key() == batch[i].key(),
    ensures
        c == (CandidateView { entry: batch[i], order_index: Some(i) }),
{
    let all = row_candidates(local, batch, batch[i].table, batch[i].row_id);
    lemma_row_candidates(local, batch, batch[i].table, batch[i].row_id);
    let p = choose|p: int| 0 <= p < all.len() && all[p] == c;
    assert(all[p] == c);
    match c.order_index {
        Some(j) => {
            assert(fresh(local, batch, j));
            assert(batch[j].key() == batch[i].key());
        },
        None => {
            let k = choose|k: int| 0 <= k < local.len() && local[k] == c.entry;
            assert(local[k].key() == batch[i].key());
        },
    }
}

/// Whether an entry competes for a row: it is in this device's log, or new in
/// the batch, and concerns the row.
pub open spec fn competes(
    local: Seq<EntryView>,
    batch: Seq<EntryView>,
    table: ChangeTable,
    row_id: Seq<char>,
    entry: EntryView,
) -> bool {
    has_entry(row_candidates(local, batch, table, row_id), entry)
}

/// Whether a competing entry is a generated upsert with an older delete of the
/// row among its rivals.
pub open spec fn regenerates_a_deleted_row(
    local: Seq<EntryView>,
    batch: Seq<EntryView>,
    table: ChangeTable,
    row_id: Seq<char>,
    entry: EntryView,
) -> bool {
    generated(entry) && exists|d: EntryView| #[trigger]
        competes(local, batch, table, row_id, d) && d.op is Delete && key_before(
            d.key(),
            entry.key(),
        )
}

/// A new upsert or delete wins on its stamp: it is applied when every newer
/// rival for its row is a cell edit or regenerates a deleted row. So a row
/// typed by hand after its deletion stands, even below a generated upsert.
pub proof fn the_newest_change_wins(local: Seq<EntryView>, remote: Seq<EntryView>, i: int)
    requires
        fresh(local, sorted(remote), i),
        !(sorted(remote)[i].op is Cell),
        !regenerates_a_deleted_row(
            local,
            sorted(remote),
            sorted(remote)[i].table,
            sorted(remote)[i].row_id,
            sorted(remote)[i],
        ),
        forall|other: EntryView| #[trigger]
            competes(
                local,
                sorted(remote),
                sorted(remote)[i].table,
                sorted(remote)[i].row_id,
                other,
            ) && key_before(sorted(remote)[i].key(), other.key()) ==> other.op is Cell
                || regenerates_a_deleted_row(
                local,
                sorted(remote),
                sorted(remote)[i].table,
                sorted(remote)[i].row_id,
                other,
            ),
    ensures
        plan_of(local, remote).decisions[i].outcome is Applied,
{
    key_order_is_total();
    let batch = sorted(remote);
    let table = batch[i].table;
    let row_id = batch[i].row_id;
    lemma_row_candidates(local, batch, table, row_id);
    let c = row_candidates(local, batch, table, row_id);
    lemma_resolved(table, c);
    let s = row_state(local, batch, table, row_id);
    let me = CandidateView { entry: batch[i], order_index: Some(i) };
    assert(batch[i].on_row(table, row_id));
    assert(c.contains(me));
    let p = choose|p: int| 0 <= p < c.len() && c[p] == me;
    assert(c[p].entry == me.entry);
    if s.newest_delete is Some {
        let n = s.newest_delete->0;
        let a = choose|a: int| 0 <= a < c.len() && c[a] == n;
        assert(c[a].entry == n.entry);
        assert(competes(local, batch, table, row_id, n.entry));
        assert(holder(c[a], s.newest_delete) is None);
    }
    assert(holder(c[p], s.newest_delete) is None);
    let w = s.row_winner->0;
    assert(!key_before(w.key(), me.key()));
    let q = choose|q: int| 0 <= q < c.len() && c[q] == w;
    assert(c[q].entry == w.entry);
    assert(competes(local, batch, table, row_id, w.entry));
    if w.key() != me.key() {
        assert(key_before(me.key(), w.key()));
        assert(regenerates_a_deleted_row(local, batch, table, row_id, w.entry));
        let d = choose|d: EntryView| #[trigger]
            competes(local, batch, table, row_id, d) && d.op is Delete && key_before(
                d.key(),
                w.key(),
            );
        let b = choose|b: int| 0 <= b < c.len() && (#[trigger] c[b]).entry == d;
        let n = s.newest_delete->0;
        assert(!key_before(n.key(), c[b].key()));
        assert(!key_before(n.key(), w.key()));
        assert(n.key() != w.key() ==> key_before(me.key(), n.key()));
        assert(!key_before(w.key(), n.key()));
        assert(n.key() == w.key());
        assert(key_before(me.key(), n.key()));
    }
}

/// A cell edit never brings a deleted row back: while the deciding entry of a
/// row is a delete, no cell edit of it is applied, and the only write is the
/// delete itself.
pub proof fn a_cell_never_brings_a_row_back(
    local: Seq<EntryView>,
    batch: Seq<EntryView>,
    table: ChangeTable,
    row_id: Seq<char>,
    candidate: CandidateView,
)
    requires
        row_state(local, batch, table, row_id).deleted() is Some,
    ensures
        candidate.entry.op is Cell ==> !(row_state(local, batch, table, row_id).outcome_for(
            candidate,
        ) is Applied),
        row_state(local, batch, table, row_id).action() matches Some(action) ==> action is Delete,
{
}

/// A deletion stands, for a row that would be generated again, exactly when
/// some delete of the row has no ordinary upsert above it.
pub proof fn a_deletion_stands_until_the_row_is_typed_again(
    log: Seq<EntryView>,
    table: ChangeTable,
    row_id: Seq<char>,
)
    requires
        one_change_per_key(log),
    ensures
        resolved(table, local_candidates(log, table, row_id)).deleted() is Some <==> exists|i: int|
            0 <= i < log.len() && (#[trigger] log[i]).op is Delete && log[i].on_row(table, row_id)
                && forall|j: int|
                0 <= j < log.len() && (#[trigger] log[j]).op is Upsert && log[j].on_row(
                    table,
                    row_id,
                ) && !generated(log[j]) ==> !key_before(log[i].key(), log[j].key()),
{
    key_order_is_total();
    let c = local_candidates(log, table, row_id);
    lemma_local_candidates(log, table, row_id);
    lemma_resolved(table, c);
    let s = resolved(table, c);
    if s.deleted() is Some {
        let w = s.deleted()->0;
        let p = choose|p: int| 0 <= p < c.len() && c[p] == w;
        assert(c[p] == w);
        let i = choose|i: int| 0 <= i < log.len() && log[i] == w.entry;
        assert forall|j: int|
            0 <= j < log.len() && (#[trigger] log[j]).op is Upsert && log[j].on_row(table, row_id)
                && !generated(log[j]) implies !key_before(log[i].key(), log[j].key()) by {
            let x = CandidateView { entry: log[j], order_index: None };
            let q = choose|q: int| 0 <= q < c.len() && c[q] == x;
            assert(holder(c[q], s.newest_delete) is None);
        }
        assert(log[i].op is Delete && log[i].on_row(table, row_id));
    }
    if exists|i: int|
        0 <= i < log.len() && (#[trigger] log[i]).op is Delete && log[i].on_row(table, row_id)
            && forall|j: int|
            0 <= j < log.len() && (#[trigger] log[j]).op is Upsert && log[j].on_row(table, row_id)
                && !generated(log[j]) ==> !key_before(log[i].key(), log[j].key()) {
        let i = choose|i: int|
            0 <= i < log.len() && (#[trigger] log[i]).op is Delete && log[i].on_row(table, row_id)
                && forall|j: int|
                0 <= j < log.len() && (#[trigger] log[j]).op is Upsert && log[j].on_row(
                    table,
                    row_id,
                ) && !generated(log[j]) ==> !key_before(log[i].key(), log[j].key());
        let d = CandidateView { entry: log[i], order_index: None };
        let p = choose|p: int| 0 <= p < c.len() && c[p] == d;
        assert(c[p].entry.op is Delete);
        let n = s.newest_delete->0;
        assert(!key_before(n.key(), d.key()));
        let a = choose|a: int| 0 <= a < c.len() && c[a] == n;
        assert(holder(c[a], s.newest_delete) is None);
        let w = s.row_winner->0;
        assert(!key_before(w.key(), n.key()));
        let b = choose|b: int| 0 <= b < c.len() && c[b] == w;
        assert(c[b] == w);
        if w.entry.op is Upsert {
            let k = choose|k: int| 0 <= k < log.len() && log[k] == w.entry;
            let m = choose|m: int| 0 <= m < log.len() && log[m] == n.entry;
            assert(c[a] == n);
            if generated(w.entry) {
                assert(!key_before(n.key(), w.key()));
                assert(log[k].key() == log[m].key());
            } else {
                assert(!key_before(log[i].key(), log[k].key()));
                assert(log[k].key() == log[m].key());
            }
        }
    }
}

} // verus!
