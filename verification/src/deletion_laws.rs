//! What leaves a deleted row deleted.

use vstd::prelude::*;
use crate::merge::{holds_key, local_candidates, stays_deleted};
use crate::merge_laws::{generated, lemma_newest, lemma_resolved};
use crate::merge_row::{holder, is_delete, may_decide, newest_of, resolved, CandidateView};
use crate::sync::{key_before, key_order_is_total, ChangeTable, EntryView};

verus! {

/// One more entry in a log is one more candidate of its row, and none of another.
proof fn lemma_candidates_with(
    log: Seq<EntryView>,
    p: int,
    e: EntryView,
    table: ChangeTable,
    row_id: Seq<char>,
) -> (q: int)
    requires
        0 <= p <= log.len(),
    ensures
        ({
            let before = local_candidates(log, table, row_id);
            let after = local_candidates(log.insert(p, e), table, row_id);
            &&& 0 <= q <= before.len()
            &&& after == if e.on_row(table, row_id) {
                before.insert(q, CandidateView { entry: e, order_index: None })
            } else {
                before
            }
        }),
    decreases log.len(),
{
    let before = local_candidates(log, table, row_id);
    let more = log.insert(p, e);
    if p == log.len() {
        assert(more.drop_last() =~= log);
        let c = CandidateView { entry: e, order_index: None };
        assert(before.insert(before.len() as int, c) =~= before.push(c));
        before.len() as int
    } else {
        let front = log.drop_last();
        assert(more.drop_last() =~= front.insert(p, e));
        assert(more.last() == log.last());
        let q = lemma_candidates_with(front, p, e, table, row_id);
        let rest = local_candidates(front, table, row_id);
        let c = CandidateView { entry: e, order_index: None };
        let last = CandidateView { entry: log.last(), order_index: None };
        assert(rest.insert(q, c).push(last) =~= rest.push(last).insert(q, c));
        q
    }
}

/// One more candidate is one more of those that are picked, or none.
proof fn lemma_filter_with(
    c: Seq<CandidateView>,
    q: int,
    x: CandidateView,
    pick: spec_fn(CandidateView) -> bool,
) -> (k: int)
    requires
        0 <= q <= c.len(),
    ensures
        0 <= k <= c.filter(pick).len(),
        c.insert(q, x).filter(pick) == if pick(x) {
            c.filter(pick).insert(k, x)
        } else {
            c.filter(pick)
        },
{
    let a = c.take(q);
    let b = c.skip(q);
    let one = seq![x];
    assert(a + b =~= c);
    assert((a + one) + b =~= c.insert(q, x));
    Seq::filter_distributes_over_add(a, b, pick);
    Seq::filter_distributes_over_add(a + one, b, pick);
    Seq::filter_distributes_over_add(a, one, pick);
    assert(one.filter(pick) == if pick(x) {
        one
    } else {
        Seq::empty()
    }) by {
        reveal(Seq::filter);
        let none = one.drop_last();
        assert(none =~= Seq::empty());
        assert(none.filter(pick) =~= Seq::empty());
        assert(one.last() == x);
        assert(Seq::<CandidateView>::empty().push(x) =~= one);
    }
    let fa = a.filter(pick);
    let fb = b.filter(pick);
    assert((fa + one) + fb =~= (fa + fb).insert(fa.len() as int, x));
    assert((fa + Seq::<CandidateView>::empty()) + fb =~= fa + fb);
    fa.len() as int
}

/// A candidate that is older than the newest of some does not change it.
proof fn lemma_newest_with(c: Seq<CandidateView>, q: int, x: CandidateView)
    requires
        0 <= q <= c.len(),
        newest_of(c) is Some,
        key_before(x.key(), newest_of(c)->0.key()),
    ensures
        newest_of(c.insert(q, x)) == newest_of(c),
    decreases c.len(),
{
    key_order_is_total();
    let more = c.insert(q, x);
    if q == c.len() {
        assert(more.drop_last() =~= c);
    } else {
        let front = c.drop_last();
        let last = c.last();
        let with = front.insert(q, x);
        assert(more.drop_last() =~= with);
        assert(more.last() == last);
        lemma_newest(front);
        lemma_newest(with);
        if newest_of(front) is Some && key_before(x.key(), newest_of(front)->0.key()) {
            lemma_newest_with(front, q, x);
        } else {
            let best = newest_of(with)->0;
            let k = choose|k: int| 0 <= k < with.len() && with[k] == best;
            if k < q {
                assert(with[k] == front[k]);
            } else if k > q {
                assert(with[k] == front[k - 1]);
            }
            assert(!key_before(last.key(), best.key()));
        }
    }
}

/// An entry with a key of its own leaves as it is what a log says of a deleted row,
/// wherever in the log it stands, if it is a cell, a generated upsert, or an entry
/// of another row.
pub proof fn only_typed_rows_and_deletes_settle_a_deletion(
    log: Seq<EntryView>,
    p: int,
    e: EntryView,
    table: ChangeTable,
    row_id: Seq<char>,
)
    requires
        0 <= p <= log.len(),
        !holds_key(log, e.key()),
        e.op is Cell || generated(e) || !e.on_row(table, row_id),
    ensures
        stays_deleted(log.insert(p, e), table, row_id) == stays_deleted(log, table, row_id),
{
    key_order_is_total();
    let q = lemma_candidates_with(log, p, e, table, row_id);
    if e.on_row(table, row_id) {
        let c = local_candidates(log, table, row_id);
        let x = CandidateView { entry: e, order_index: None };
        let more = c.insert(q, x);
        let before = resolved(table, c);
        let after = resolved(table, more);
        let a = lemma_filter_with(c, q, x, is_delete());
        assert(before.newest_delete == after.newest_delete);
        let pick = may_decide(before.newest_delete);
        let k = lemma_filter_with(c, q, x, pick);
        lemma_resolved(table, c);
        lemma_resolved(table, more);
        if pick(x) {
            assert(generated(e));
            match before.newest_delete {
                Some(d) => {
                    let m = choose|m: int| 0 <= m < c.len() && c[m] == d;
                    crate::merge::lemma_local_candidates(log, table, row_id);
                    let n = choose|n: int| 0 <= n < log.len() && log[n] == c[m].entry;
                    assert(log[n].key() != e.key());
                    assert(key_before(x.key(), d.key()));
                    assert(holder(c[m], before.newest_delete) is None);
                    let w = before.row_winner->0;
                    assert(!key_before(w.key(), d.key()));
                    lemma_newest_with(c.filter(pick), k, x);
                },
                None => {
                    if after.deleted() is Some {
                        let w = after.row_winner->0;
                        let m = choose|m: int| 0 <= m < more.len() && more[m] == w;
                        assert(more[m].entry.op is Delete);
                    }
                    if before.deleted() is Some {
                        let w = before.row_winner->0;
                        let m = choose|m: int| 0 <= m < c.len() && c[m] == w;
                        assert(c[m].entry.op is Delete);
                    }
                },
            }
        }
    }
}

} // verus!
