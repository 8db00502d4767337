//! One row of a merge: who decides whether it exists, who decides each of its
//! columns, and the write that follows.

use vstd::prelude::*;
use crate::merge::{
    cell_pairs, fixed_row_table, has_fixed_rows, merges_per_cell, per_cell_table, CellValue,
    EntryId, MergeOutcome, OutcomeView, RowAction, RowActionView, SkipReason, SkipView,
};
use crate::rows::{Row, ValueView};
use crate::sync::{
    key_before, key_order_is_total, ChangeEntry, ChangeOp, ChangeOrigin, ChangeTable, EntryView,
    KeyView, OpView, OriginView,
};
use crate::text::{rank, text_before, text_order_is_total, Rank};
use crate::text_map::{pairs_map, keys_increase, lemma_pairs_map};

verus! {

/// One entry competing for a row: an entry of this device's log, or one of the
/// batch with its position in the sorted batch.
pub struct CandidateView {
    pub entry: EntryView,
    pub order_index: Option<int>,
}

impl CandidateView {
    pub open spec fn key(self) -> KeyView {
        self.entry.key()
    }

    /// Whether the entry came from the other device.
    pub open spec fn remote(self) -> bool {
        self.order_index is Some
    }
}

/// The newest of some candidates; among equals, the last.
pub open spec fn newest_of(candidates: Seq<CandidateView>) -> Option<CandidateView>
    decreases candidates.len(),
{
    if candidates.len() == 0 {
        None
    } else {
        let last = candidates.last();
        match newest_of(candidates.drop_last()) {
            Some(best) => if key_before(last.key(), best.key()) {
                Some(best)
            } else {
                Some(last)
            },
            None => Some(last),
        }
    }
}

/// The delete that a generated upsert must not override, if there is one.
pub open spec fn holder(
    candidate: CandidateView,
    newest_delete: Option<CandidateView>,
) -> Option<CandidateView> {
    match newest_delete {
        Some(delete) => if candidate.entry.op is Upsert && candidate.entry.origin == Some(
            OriginView::RecurringApply,
        ) && key_before(delete.key(), candidate.key()) {
            Some(delete)
        } else {
            None
        },
        None => None,
    }
}

/// Picks the deletes.
pub open spec fn is_delete() -> spec_fn(CandidateView) -> bool {
    |c: CandidateView| c.entry.op is Delete
}

/// Picks the entries that may decide the row: upserts and deletes, without the
/// generated upserts that a delete holds back.
pub open spec fn may_decide(newest_delete: Option<CandidateView>) -> spec_fn(CandidateView) -> bool {
    |c: CandidateView| !(c.entry.op is Cell) && holder(c, newest_delete) is None
}

/// Whether a candidate sets `column` and ranks above `base`, if there is one.
pub open spec fn sets_column(
    candidate: CandidateView,
    column: Seq<char>,
    base: Option<CandidateView>,
) -> bool {
    &&& candidate.entry.op is Cell
    &&& candidate.entry.op->Cell_0 == column
    &&& base is Some ==> key_before(base->0.key(), candidate.key())
}

/// The newest candidate that sets `column` above `base`; among equals, the
/// first.
pub open spec fn cell_winner(
    candidates: Seq<CandidateView>,
    column: Seq<char>,
    base: Option<CandidateView>,
) -> Option<CandidateView>
    decreases candidates.len(),
{
    if candidates.len() == 0 {
        None
    } else {
        let last = candidates.last();
        let rest = cell_winner(candidates.drop_last(), column, base);
        if !sets_column(last, column, base) {
            rest
        } else {
            match rest {
                Some(best) => if key_before(best.key(), last.key()) {
                    Some(last)
                } else {
                    Some(best)
                },
                None => Some(last),
            }
        }
    }
}

/// One row after every entry from both devices has been weighed.
pub struct RowStateView {
    pub per_cell: bool,
    /// The newest delete of the row.
    pub newest_delete: Option<CandidateView>,
    /// The newest entry that may decide whether the row exists.
    pub row_winner: Option<CandidateView>,
    /// Which entry decides each column above the deciding upsert.
    pub cells: Map<Seq<char>, CandidateView>,
    /// Whether nothing on either side says that the row exists.
    pub unplaceable: bool,
}

impl RowStateView {
    /// The entry that decides the row, when it is a delete.
    pub open spec fn deleted(self) -> Option<CandidateView> {
        match self.row_winner {
            Some(w) => if w.entry.op is Delete {
                Some(w)
            } else {
                None
            },
            None => None,
        }
    }

    /// The entry that decides the row, when it is an upsert.
    pub open spec fn base_upsert(self) -> Option<CandidateView> {
        match self.row_winner {
            Some(w) => if w.entry.op is Upsert {
                Some(w)
            } else {
                None
            },
            None => None,
        }
    }

    /// What one remote entry does to this row.
    pub open spec fn outcome_for(self, candidate: CandidateView) -> OutcomeView {
        match candidate.entry.op {
            OpView::Cell(column, _) => if !self.per_cell {
                OutcomeView::Skipped(SkipView::CellOnWholeRowTable)
            } else if self.unplaceable {
                OutcomeView::Unplaceable
            } else if self.deleted() is Some {
                OutcomeView::Skipped(SkipView::RowIsDeleted(self.deleted()->0.key()))
            } else if self.base_upsert() is Some && !key_before(
                self.base_upsert()->0.key(),
                candidate.key(),
            ) {
                OutcomeView::Skipped(SkipView::SupersededByRow(self.base_upsert()->0.key()))
            } else if self.cells.contains_key(column) && self.cells[column].key()
                != candidate.key() {
                OutcomeView::Skipped(SkipView::SupersededByCell(self.cells[column].key()))
            } else {
                OutcomeView::Applied
            },
            _ => if holder(candidate, self.newest_delete) is Some {
                OutcomeView::Skipped(
                    SkipView::GeneratedRowStaysDeleted(
                        holder(candidate, self.newest_delete)->0.key(),
                    ),
                )
            } else if self.row_winner is Some && self.row_winner->0.key() != candidate.key() {
                OutcomeView::Skipped(SkipView::SupersededByRow(self.row_winner->0.key()))
            } else {
                OutcomeView::Applied
            },
        }
    }

    /// The value of every column a cell decides.
    pub open spec fn cell_values(self) -> Map<Seq<char>, ValueView> {
        Map::new(
            |column: Seq<char>| self.cells.contains_key(column),
            |column: Seq<char>| self.cells[column].entry.op->Cell_1,
        )
    }

    /// The value of every column a cell of the other device decides.
    pub open spec fn remote_cell_values(self) -> Map<Seq<char>, ValueView> {
        Map::new(
            |column: Seq<char>| self.cells.contains_key(column) && self.cells[column].remote(),
            |column: Seq<char>| self.cells[column].entry.op->Cell_1,
        )
    }

    /// The write that the remote entries of this row ask for, or `None` where
    /// entries of this device decide all of it.
    pub open spec fn action(self) -> Option<RowActionView> {
        if !self.per_cell {
            match self.row_winner {
                Some(w) => if !w.remote() {
                    None
                } else {
                    match w.entry.op {
                        OpView::Upsert(row) => Some(RowActionView::Upsert(row)),
                        OpView::Delete => Some(RowActionView::Delete),
                        OpView::Cell(_, _) => None,
                    }
                },
                None => None,
            }
        } else if self.deleted() is Some {
            if self.deleted()->0.remote() {
                Some(RowActionView::Delete)
            } else {
                None
            }
        } else if self.unplaceable {
            None
        } else if self.base_upsert() is Some && self.base_upsert()->0.remote() {
            Some(
                RowActionView::Upsert(
                    self.base_upsert()->0.entry.op->Upsert_0.union_prefer_right(
                        self.cell_values(),
                    ),
                ),
            )
        } else if exists|column: Seq<char>| #[trigger]
            self.remote_cell_values().contains_key(column) {
            Some(RowActionView::SetCells(self.remote_cell_values()))
        } else {
            None
        }
    }
}

/// The state of a row of `table` for which these candidates compete.
pub open spec fn resolved(table: ChangeTable, candidates: Seq<CandidateView>) -> RowStateView {
    let newest_delete = newest_of(candidates.filter(is_delete()));
    let row_winner = newest_of(candidates.filter(may_decide(newest_delete)));
    let bare = RowStateView {
        per_cell: per_cell_table(table),
        newest_delete,
        row_winner,
        cells: Map::empty(),
        unplaceable: per_cell_table(table) && !fixed_row_table(table) && row_winner is None,
    };
    RowStateView {
        cells: if bare.per_cell && bare.deleted() is None {
            Map::new(
                |column: Seq<char>| cell_winner(candidates, column, bare.base_upsert()) is Some,
                |column: Seq<char>| cell_winner(candidates, column, bare.base_upsert())->0,
            )
        } else {
            Map::empty()
        },
        ..bare
    }
}

/// One entry competing for a row, from either side.
#[derive(Clone, Copy)]
pub struct Candidate<'a> {
    pub entry: &'a ChangeEntry,
    /// Position in the sorted batch, or `None` for an entry of this device's
    /// log.
    pub order_index: Option<usize>,
}

impl<'a> View for Candidate<'a> {
    type V = CandidateView;

    open spec fn view(&self) -> CandidateView {
        CandidateView {
            entry: self.entry@,
            order_index: match self.order_index {
                Some(i) => Some(i as int),
                None => None,
            },
        }
    }
}

/// What the candidates say.
pub open spec fn candidate_views(candidates: Seq<Candidate>) -> Seq<CandidateView> {
    Seq::new(candidates.len(), |i: int| candidates[i]@)
}

impl<'a> Candidate<'a> {
    /// Where this candidate stands relative to another in the order of changes.
    pub(crate) fn rank_against(&self, other: &Candidate) -> (r: Rank)
        ensures
            r == Rank::Before <==> key_before(self@.key(), other@.key()),
            r == Rank::Same <==> self@.key() == other@.key(),
            r == Rank::After <==> key_before(other@.key(), self@.key()),
    {
        self.entry.rank_against(other.entry)
    }

    /// Whether the entry came from the other device.
    pub(crate) fn is_remote(&self) -> (r: bool)
        ensures
            r == self@.remote(),
    {
        self.order_index.is_some()
    }

    /// The name of the entry.
    pub(crate) fn id(&self) -> (r: EntryId)
        ensures
            r@ == self@.key(),
    {
        EntryId::of(self.entry)
    }
}

/// The newest of some candidates; among equals, the last.
pub(crate) fn newest<'a>(candidates: &Vec<Candidate<'a>>) -> (r: Option<Candidate<'a>>)
    ensures
        match r {
            Some(c) => newest_of(candidate_views(candidates@)) == Some(c@),
            None => newest_of(candidate_views(candidates@)) is None,
        },
{
    let mut best: Option<Candidate<'a>> = None;
    let mut i: usize = 0;
    let ghost all = candidate_views(candidates@);
    assert(all.take(0) =~= Seq::empty());
    while i < candidates.len()
        invariant
            i <= candidates.len(),
            all == candidate_views(candidates@),
            match best {
                Some(c) => newest_of(all.take(i as int)) == Some(c@),
                None => newest_of(all.take(i as int)) is None,
            },
        decreases candidates.len() - i,
    {
        assert(all.take(i + 1).drop_last() =~= all.take(i as int));
        assert(all.take(i + 1).last() == candidates@[i as int]@);
        let candidate = candidates[i];
        let keeps = match best {
            Some(b) => candidate.rank_against(&b) == Rank::Before,
            None => false,
        };
        if !keeps {
            best = Some(candidate);
        }
        i = i + 1;
    }
    assert(all.take(i as int) =~= all);
    best
}

/// The delete that a generated upsert must not override, if there is one.
pub(crate) fn held_back_by<'a>(
    candidate: Candidate<'_>,
    newest_delete: Option<Candidate<'a>>,
) -> (r: Option<Candidate<'a>>)
    ensures
        match (r, newest_delete) {
            (Some(c), Some(d)) => c == d && holder(candidate@, Some(d@)) == Some(c@),
            (Some(c), None) => false,
            (None, Some(d)) => holder(candidate@, Some(d@)) is None,
            (None, None) => true,
        },
{
    let generated = match (&candidate.entry.op, &candidate.entry.origin) {
        (ChangeOp::Upsert { .. }, Some(ChangeOrigin::RecurringApply)) => true,
        _ => false,
    };
    if !generated {
        return None;
    }
    match newest_delete {
        Some(delete) => if delete.rank_against(&candidate) == Rank::Before {
            Some(delete)
        } else {
            None
        },
        None => None,
    }
}

/// What an optional candidate says.
pub open spec fn option_view(candidate: Option<Candidate>) -> Option<CandidateView> {
    match candidate {
        Some(c) => Some(c@),
        None => None,
    }
}

/// The deletes among some candidates.
fn only_deletes<'a>(candidates: &Vec<Candidate<'a>>) -> (r: Vec<Candidate<'a>>)
    ensures
        candidate_views(r@) == candidate_views(candidates@).filter(is_delete()),
{
    let mut kept: Vec<Candidate<'a>> = Vec::new();
    let mut i: usize = 0;
    let ghost all = candidate_views(candidates@);
    proof {
        reveal(Seq::filter);
        assert(all.take(0) =~= Seq::empty());
        assert(candidate_views(kept@) =~= all.take(0).filter(is_delete()));
    }
    while i < candidates.len()
        invariant
            i <= candidates.len(),
            all == candidate_views(candidates@),
            candidate_views(kept@) == all.take(i as int).filter(is_delete()),
        decreases candidates.len() - i,
    {
        let candidate = candidates[i];
        proof {
            assert(all.take(i + 1) =~= all.take(i as int).push(candidate@));
            all.take(i as int).lemma_filter_push(candidate@, is_delete());
        }
        if let ChangeOp::Delete = &candidate.entry.op {
            let ghost before = candidate_views(kept@);
            kept.push(candidate);
            assert(candidate_views(kept@) =~= before.push(candidate@));
        }
        i = i + 1;
    }
    assert(all.take(i as int) =~= all);
    kept
}

/// The candidates that may decide the row.
fn deciders<'a>(
    candidates: &Vec<Candidate<'a>>,
    newest_delete: Option<Candidate<'a>>,
) -> (r: Vec<Candidate<'a>>)
    ensures
        candidate_views(r@) == candidate_views(candidates@).filter(
            may_decide(option_view(newest_delete)),
        ),
{
    let ghost wanted = may_decide(option_view(newest_delete));
    let mut kept: Vec<Candidate<'a>> = Vec::new();
    let mut i: usize = 0;
    let ghost all = candidate_views(candidates@);
    proof {
        reveal(Seq::filter);
        assert(all.take(0) =~= Seq::empty());
        assert(candidate_views(kept@) =~= all.take(0).filter(wanted));
    }
    while i < candidates.len()
        invariant
            i <= candidates.len(),
            all == candidate_views(candidates@),
            wanted == may_decide(option_view(newest_delete)),
            candidate_views(kept@) == all.take(i as int).filter(wanted),
        decreases candidates.len() - i,
    {
        let candidate = candidates[i];
        proof {
            assert(all.take(i + 1) =~= all.take(i as int).push(candidate@));
            all.take(i as int).lemma_filter_push(candidate@, wanted);
        }
        let row_level = match &candidate.entry.op {
            ChangeOp::Upsert { .. } | ChangeOp::Delete => true,
            ChangeOp::Cell { .. } => false,
        };
        if row_level && held_back_by(candidate, newest_delete).is_none() {
            let ghost before = candidate_views(kept@);
            kept.push(candidate);
            assert(candidate_views(kept@) =~= before.push(candidate@));
        }
        i = i + 1;
    }
    assert(all.take(i as int) =~= all);
    kept
}

/// Whether `winners` lists, in the order of the columns, the winner of every
/// column that has one.
pub open spec fn lists_cell_winners(
    winners: Seq<CandidateView>,
    candidates: Seq<CandidateView>,
    base: Option<CandidateView>,
) -> bool {
    &&& forall|i: int|
        0 <= i < winners.len() ==> (#[trigger] winners[i]).entry.op is Cell && cell_winner(
            candidates,
            winners[i].entry.op->Cell_0,
            base,
        ) == Some(winners[i])
    &&& forall|column: Seq<char>| #[trigger]
        cell_winner(candidates, column, base) is Some ==> exists|i: int|
            0 <= i < winners.len() && (#[trigger] winners[i]).entry.op->Cell_0 == column
    &&& forall|i: int, j: int|
        0 <= i < j < winners.len() ==> text_before(
            (#[trigger] winners[i]).entry.op->Cell_0,
            (#[trigger] winners[j]).entry.op->Cell_0,
        )
}

/// Where the winner of `column` stands or would stand, and whether it is there.
fn find_column(winners: &Vec<Candidate<'_>>, column: &str) -> (r: (usize, bool))
    requires
        forall|i: int| 0 <= i < winners@.len() ==> (#[trigger] winners@[i])@.entry.op is Cell,
        forall|i: int, j: int|
            0 <= i < j < winners@.len() ==> text_before(
                (#[trigger] winners@[i])@.entry.op->Cell_0,
                (#[trigger] winners@[j])@.entry.op->Cell_0,
            ),
    ensures
        r.0 <= winners@.len(),
        r.1 <==> r.0 < winners@.len() && winners@[r.0 as int]@.entry.op->Cell_0 == column@,
        forall|j: int|
            0 <= j < r.0 ==> text_before((#[trigger] winners@[j])@.entry.op->Cell_0, column@),
        !r.1 ==> forall|j: int|
            r.0 <= j < winners@.len() ==> text_before(
                column@,
                (#[trigger] winners@[j])@.entry.op->Cell_0,
            ),
{
    proof {
        text_order_is_total();
    }
    let mut i: usize = 0;
    while i < winners.len()
        invariant
            i <= winners.len(),
            forall|i: int| 0 <= i < winners@.len() ==> (#[trigger] winners@[i])@.entry.op is Cell,
            forall|i: int, j: int|
                0 <= i < j < winners@.len() ==> text_before(
                    (#[trigger] winners@[i])@.entry.op->Cell_0,
                    (#[trigger] winners@[j])@.entry.op->Cell_0,
                ),
            forall|j: int|
                0 <= j < i ==> text_before((#[trigger] winners@[j])@.entry.op->Cell_0, column@),
        decreases winners.len() - i,
    {
        proof {
            text_order_is_total();
        }
        assert(winners@[i as int]@.entry.op is Cell);
        if let ChangeOp::Cell { column: name, .. } = &winners[i].entry.op {
            let place = rank(name.as_str(), column);
            if place == Rank::Same {
                return (i, true);
            }
            if place == Rank::After {
                assert forall|j: int| i <= j < winners@.len() implies text_before(
                    column@,
                    (#[trigger] winners@[j])@.entry.op->Cell_0,
                ) by {
                    assert(text_before(column@, winners@[i as int]@.entry.op->Cell_0));
                    if j > i {
                        assert(text_before(
                            winners@[i as int]@.entry.op->Cell_0,
                            winners@[j]@.entry.op->Cell_0,
                        ));
                    }
                }
                return (i, false);
            }
        }
        i = i + 1;
    }
    (i, false)
}

/// The winner of every column that a cell above `base` sets.
fn winning_cells<'a>(
    candidates: &Vec<Candidate<'a>>,
    base: Option<Candidate<'a>>,
) -> (r: Vec<Candidate<'a>>)
    ensures
        lists_cell_winners(
            candidate_views(r@),
            candidate_views(candidates@),
            option_view(base),
        ),
{
    let mut winners: Vec<Candidate<'a>> = Vec::new();
    let mut k: usize = 0;
    let ghost all = candidate_views(candidates@);
    let ghost floor = option_view(base);
    assert(all.take(0) =~= Seq::empty());
    while k < candidates.len()
        invariant
            k <= candidates.len(),
            all == candidate_views(candidates@),
            floor == option_view(base),
            lists_cell_winners(candidate_views(winners@), all.take(k as int), floor),
        decreases candidates.len() - k,
    {
        let candidate = candidates[k];
        let ghost seen = all.take(k as int);
        let ghost next = all.take(k + 1);
        let ghost listed = candidate_views(winners@);
        proof {
            key_order_is_total();
            assert(next.drop_last() =~= seen);
            assert(next.last() == candidate@);
            assert(forall|i: int| 0 <= i < listed.len() ==> (#[trigger] listed[i]) == winners@[i]@);
            assert forall|i: int| 0 <= i < winners@.len() implies (
            #[trigger] winners@[i])@.entry.op is Cell by {
                assert(listed[i].entry.op is Cell);
            }
            assert forall|i: int, j: int| 0 <= i < j < winners@.len() implies text_before(
                (#[trigger] winners@[i])@.entry.op->Cell_0,
                (#[trigger] winners@[j])@.entry.op->Cell_0,
            ) by {
                assert(text_before(listed[i].entry.op->Cell_0, listed[j].entry.op->Cell_0));
            }
        }
        if let ChangeOp::Cell { column, .. } = &candidate.entry.op {
            let above = match base {
                Some(upsert) => upsert.rank_against(&candidate) == Rank::Before,
                None => true,
            };
            if above {
                let (i, found) = find_column(&winners, column.as_str());
                proof {
                    text_order_is_total();
                    assert(sets_column(candidate@, column@, floor));
                }
                if found {
                    assert(listed[i as int].entry.op->Cell_0 == column@);
                    if winners[i].rank_against(&candidate) == Rank::Before {
                        winners.set(i, candidate);
                        proof {
                            lemma_replace_winner(listed, seen, next, floor, i as int);
                            assert(candidate_views(winners@) =~= listed.update(
                                i as int,
                                candidate@,
                            ));
                        }
                    } else {
                        proof {
                            lemma_keep_winner(listed, seen, next, floor, i as int);
                        }
                    }
                } else {
                    winners.insert(i, candidate);
                    proof {
                        assert forall|j: int| 0 <= j < i implies text_before(
                            (#[trigger] listed[j]).entry.op->Cell_0,
                            column@,
                        ) by {}
                        assert forall|j: int| i <= j < listed.len() implies text_before(
                            column@,
                            (#[trigger] listed[j]).entry.op->Cell_0,
                        ) by {}
                        lemma_new_winner(listed, seen, next, floor, i as int);
                        assert(candidate_views(winners@) =~= listed.insert(i as int, candidate@));
                    }
                }
            } else {
                proof {
                    lemma_no_winner(listed, seen, next, floor);
                }
            }
        } else {
            proof {
                lemma_no_winner(listed, seen, next, floor);
            }
        }
        k = k + 1;
    }
    assert(all.take(k as int) =~= all);
    winners
}

proof fn lemma_no_winner(
    listed: Seq<CandidateView>,
    seen: Seq<CandidateView>,
    next: Seq<CandidateView>,
    base: Option<CandidateView>,
)
    requires
        next.len() > 0,
        next.drop_last() == seen,
        lists_cell_winners(listed, seen, base),
        forall|column: Seq<char>| !sets_column(next.last(), column, base),
    ensures
        lists_cell_winners(listed, next, base),
{
    assert forall|column: Seq<char>| #[trigger]
        cell_winner(next, column, base) == cell_winner(seen, column, base) by {
        assert(!sets_column(next.last(), column, base));
    }
}

proof fn lemma_other_columns(
    seen: Seq<CandidateView>,
    next: Seq<CandidateView>,
    base: Option<CandidateView>,
)
    requires
        next.len() > 0,
        next.drop_last() == seen,
        next.last().entry.op is Cell,
    ensures
        forall|column: Seq<char>|
            column != next.last().entry.op->Cell_0 ==> #[trigger] cell_winner(next, column, base)
                == cell_winner(seen, column, base),
{
}

proof fn lemma_keep_winner(
    listed: Seq<CandidateView>,
    seen: Seq<CandidateView>,
    next: Seq<CandidateView>,
    base: Option<CandidateView>,
    i: int,
)
    requires
        next.len() > 0,
        next.drop_last() == seen,
        lists_cell_winners(listed, seen, base),
        next.last().entry.op is Cell,
        0 <= i < listed.len(),
        listed[i].entry.op->Cell_0 == next.last().entry.op->Cell_0,
        !key_before(listed[i].key(), next.last().key()),
    ensures
        lists_cell_winners(listed, next, base),
{
    lemma_other_columns(seen, next, base);
    let column = next.last().entry.op->Cell_0;
    assert(cell_winner(seen, column, base) == Some(listed[i]));
    assert(cell_winner(next, column, base) == Some(listed[i]));
    assert forall|j: int| 0 <= j < listed.len() implies (#[trigger] listed[j]).entry.op is Cell
        && cell_winner(next, listed[j].entry.op->Cell_0, base) == Some(listed[j]) by {
        assert(cell_winner(seen, listed[j].entry.op->Cell_0, base) == Some(listed[j]));
    }
    assert forall|c: Seq<char>| #[trigger] cell_winner(next, c, base) is Some implies exists|j: int|
        0 <= j < listed.len() && (#[trigger] listed[j]).entry.op->Cell_0 == c by {
        assert(cell_winner(seen, c, base) is Some);
    }
}

proof fn lemma_replace_winner(
    listed: Seq<CandidateView>,
    seen: Seq<CandidateView>,
    next: Seq<CandidateView>,
    base: Option<CandidateView>,
    i: int,
)
    requires
        next.len() > 0,
        next.drop_last() == seen,
        lists_cell_winners(listed, seen, base),
        0 <= i < listed.len(),
        next.last().entry.op is Cell,
        sets_column(next.last(), next.last().entry.op->Cell_0, base),
        listed[i].entry.op->Cell_0 == next.last().entry.op->Cell_0,
        key_before(listed[i].key(), next.last().key()),
    ensures
        lists_cell_winners(listed.update(i, next.last()), next, base),
{
    text_order_is_total();
    lemma_other_columns(seen, next, base);
    let column = next.last().entry.op->Cell_0;
    let after = listed.update(i, next.last());
    assert(cell_winner(seen, column, base) == Some(listed[i]));
    assert(cell_winner(next, column, base) == Some(next.last()));
    assert forall|j: int| 0 <= j < after.len() implies (#[trigger] after[j]).entry.op is Cell
        && cell_winner(next, after[j].entry.op->Cell_0, base) == Some(after[j]) by {
        if j != i {
            assert(after[j] == listed[j]);
            assert(cell_winner(seen, listed[j].entry.op->Cell_0, base) == Some(listed[j]));
            if j < i {
                assert(text_before(listed[j].entry.op->Cell_0, listed[i].entry.op->Cell_0));
            } else {
                assert(text_before(listed[i].entry.op->Cell_0, listed[j].entry.op->Cell_0));
            }
        }
    }
    assert forall|c: Seq<char>| #[trigger] cell_winner(next, c, base) is Some implies exists|j: int|
        0 <= j < after.len() && (#[trigger] after[j]).entry.op->Cell_0 == c by {
        if c == column {
            assert(after[i].entry.op->Cell_0 == c);
        } else {
            assert(cell_winner(seen, c, base) is Some);
            let j = choose|j: int|
                0 <= j < listed.len() && (#[trigger] listed[j]).entry.op->Cell_0 == c;
            assert(after[j].entry.op->Cell_0 == c);
        }
    }
    assert forall|a: int, b: int| 0 <= a < b < after.len() implies text_before(
        (#[trigger] after[a]).entry.op->Cell_0,
        (#[trigger] after[b]).entry.op->Cell_0,
    ) by {
        assert(text_before(listed[a].entry.op->Cell_0, listed[b].entry.op->Cell_0));
    }
}

proof fn lemma_new_winner(
    listed: Seq<CandidateView>,
    seen: Seq<CandidateView>,
    next: Seq<CandidateView>,
    base: Option<CandidateView>,
    i: int,
)
    requires
        next.len() > 0,
        next.drop_last() == seen,
        lists_cell_winners(listed, seen, base),
        0 <= i <= listed.len(),
        next.last().entry.op is Cell,
        sets_column(next.last(), next.last().entry.op->Cell_0, base),
        forall|j: int|
            0 <= j < i ==> text_before(
                (#[trigger] listed[j]).entry.op->Cell_0,
                next.last().entry.op->Cell_0,
            ),
        forall|j: int|
            i <= j < listed.len() ==> text_before(
                next.last().entry.op->Cell_0,
                (#[trigger] listed[j]).entry.op->Cell_0,
            ),
    ensures
        lists_cell_winners(listed.insert(i, next.last()), next, base),
{
    text_order_is_total();
    lemma_other_columns(seen, next, base);
    let column = next.last().entry.op->Cell_0;
    let after = listed.insert(i, next.last());
    assert(cell_winner(seen, column, base) is None) by {
        if cell_winner(seen, column, base) is Some {
            let j = choose|j: int|
                0 <= j < listed.len() && (#[trigger] listed[j]).entry.op->Cell_0 == column;
            assert(listed[j].entry.op->Cell_0 == column);
        }
    }
    assert(cell_winner(next, column, base) == Some(next.last()));
    assert forall|j: int| 0 <= j < after.len() implies (#[trigger] after[j]).entry.op is Cell
        && cell_winner(next, after[j].entry.op->Cell_0, base) == Some(after[j]) by {
        if j < i {
            assert(after[j] == listed[j]);
            assert(cell_winner(seen, listed[j].entry.op->Cell_0, base) == Some(listed[j]));
        } else if j > i {
            assert(after[j] == listed[j - 1]);
            assert(cell_winner(seen, listed[j - 1].entry.op->Cell_0, base) == Some(listed[j - 1]));
        }
    }
    assert forall|c: Seq<char>| #[trigger] cell_winner(next, c, base) is Some implies exists|j: int|
        0 <= j < after.len() && (#[trigger] after[j]).entry.op->Cell_0 == c by {
        if c == column {
            assert(after[i].entry.op->Cell_0 == c);
        } else {
            assert(cell_winner(seen, c, base) is Some);
            let j = choose|j: int|
                0 <= j < listed.len() && (#[trigger] listed[j]).entry.op->Cell_0 == c;
            if j < i {
                assert(after[j].entry.op->Cell_0 == c);
            } else {
                assert(after[j + 1].entry.op->Cell_0 == c);
            }
        }
    }
    assert forall|a: int, b: int| 0 <= a < b < after.len() implies text_before(
        (#[trigger] after[a]).entry.op->Cell_0,
        (#[trigger] after[b]).entry.op->Cell_0,
    ) by {
        if a < i && b > i {
            assert(text_before(listed[a].entry.op->Cell_0, listed[b - 1].entry.op->Cell_0));
        } else if b < i {
            assert(text_before(listed[a].entry.op->Cell_0, listed[b].entry.op->Cell_0));
        } else if a > i {
            assert(text_before(listed[a - 1].entry.op->Cell_0, listed[b - 1].entry.op->Cell_0));
        } else if a == i {
            assert(text_before(column, listed[b - 1].entry.op->Cell_0));
        } else {
            assert(text_before(listed[a].entry.op->Cell_0, column));
        }
    }
}

/// One row after every entry from both devices has been weighed: who decides
/// whether it exists, and who decides each of its columns.
pub struct RowState<'a> {
    pub per_cell: bool,
    pub newest_delete: Option<Candidate<'a>>,
    pub row_winner: Option<Candidate<'a>>,
    /// `row_winner` when it is a delete.
    pub deleted: Option<Candidate<'a>>,
    /// `row_winner` when it is an upsert.
    pub base_upsert: Option<Candidate<'a>>,
    /// The winner of each column, in the order of the columns.
    pub cell_winners: Vec<Candidate<'a>>,
    pub unplaceable: bool,
}

/// The candidate of a list that decides `column`.
pub open spec fn column_map(winners: Seq<CandidateView>) -> Map<Seq<char>, CandidateView> {
    Map::new(
        |column: Seq<char>|
            exists|i: int|
                0 <= i < winners.len() && (#[trigger] winners[i]).entry.op->Cell_0 == column,
        |column: Seq<char>|
            winners[choose|i: int|
                0 <= i < winners.len() && (#[trigger] winners[i]).entry.op->Cell_0 == column],
    )
}

impl<'a> View for RowState<'a> {
    type V = RowStateView;

    open spec fn view(&self) -> RowStateView {
        RowStateView {
            per_cell: self.per_cell,
            newest_delete: option_view(self.newest_delete),
            row_winner: option_view(self.row_winner),
            cells: column_map(candidate_views(self.cell_winners@)),
            unplaceable: self.unplaceable,
        }
    }
}

/// The columns of a list of cell winners increase, so each occurs once.
pub open spec fn winners_increase(winners: Seq<CandidateView>) -> bool {
    &&& forall|i: int| 0 <= i < winners.len() ==> (#[trigger] winners[i]).entry.op is Cell
    &&& forall|i: int, j: int|
        0 <= i < j < winners.len() ==> text_before(
            (#[trigger] winners[i]).entry.op->Cell_0,
            (#[trigger] winners[j]).entry.op->Cell_0,
        )
}

proof fn lemma_column_map(winners: Seq<CandidateView>)
    requires
        winners_increase(winners),
    ensures
        forall|i: int|
            0 <= i < winners.len() ==> column_map(winners).contains_key(
                (#[trigger] winners[i]).entry.op->Cell_0,
            ) && column_map(winners)[winners[i].entry.op->Cell_0] == winners[i],
{
    text_order_is_total();
    assert forall|i: int| 0 <= i < winners.len() implies column_map(winners).contains_key(
        (#[trigger] winners[i]).entry.op->Cell_0,
    ) && column_map(winners)[winners[i].entry.op->Cell_0] == winners[i] by {
        let column = winners[i].entry.op->Cell_0;
        let j = choose|j: int|
            0 <= j < winners.len() && (#[trigger] winners[j]).entry.op->Cell_0 == column;
        if j < i {
            assert(text_before(winners[j].entry.op->Cell_0, winners[i].entry.op->Cell_0));
        } else if i < j {
            assert(text_before(winners[i].entry.op->Cell_0, winners[j].entry.op->Cell_0));
        }
    }
}

impl<'a> RowState<'a> {
    /// Whether the parts of the state agree with one another.
    pub open spec fn wf(&self) -> bool {
        &&& option_view(self.deleted) == self@.deleted()
        &&& option_view(self.base_upsert) == self@.base_upsert()
        &&& winners_increase(candidate_views(self.cell_winners@))
    }

    /// Weigh the candidates for one row of `table`.
    pub(crate) fn resolve(table: &ChangeTable, candidates: &Vec<Candidate<'a>>) -> (r: Self)
        ensures
            r.wf(),
            r@ == resolved(*table, candidate_views(candidates@)),
    {
        let per_cell = merges_per_cell(table);
        let deletes = only_deletes(candidates);
        let newest_delete = newest(&deletes);
        let deciding = deciders(candidates, newest_delete);
        let row_winner = newest(&deciding);
        let mut deleted: Option<Candidate<'a>> = None;
        let mut base_upsert: Option<Candidate<'a>> = None;
        if let Some(winner) = row_winner {
            match &winner.entry.op {
                ChangeOp::Delete => {
                    deleted = Some(winner);
                },
                ChangeOp::Upsert { .. } => {
                    base_upsert = Some(winner);
                },
                ChangeOp::Cell { .. } => {},
            }
        }
        let cell_winners = if per_cell && deleted.is_none() {
            winning_cells(candidates, base_upsert)
        } else {
            Vec::new()
        };
        let r = RowState {
            per_cell,
            newest_delete,
            row_winner,
            deleted,
            base_upsert,
            cell_winners,
            unplaceable: per_cell && !has_fixed_rows(table) && row_winner.is_none(),
        };
        proof {
            let all = candidate_views(candidates@);
            let want = resolved(*table, all);
            let listed = candidate_views(cell_winners@);
            assert(r@.newest_delete == want.newest_delete);
            assert(r@.row_winner == want.row_winner);
            assert(option_view(base_upsert) == want.base_upsert());
            assert(winners_increase(listed));
            lemma_column_map(listed);
            if per_cell && deleted.is_none() {
                assert forall|column: Seq<char>|
                    #![trigger r@.cells.contains_key(column)]
                    (r@.cells.contains_key(column) <==> want.cells.contains_key(column)) && (
                    r@.cells.contains_key(column) ==> r@.cells[column] == want.cells[column]) by {
                    if r@.cells.contains_key(column) {
                        let i = choose|i: int|
                            0 <= i < listed.len() && (#[trigger] listed[i]).entry.op->Cell_0
                                == column;
                        assert(cell_winner(all, listed[i].entry.op->Cell_0, want.base_upsert())
                            == Some(listed[i]));
                    }
                    if cell_winner(all, column, want.base_upsert()) is Some {
                        assert(exists|i: int|
                            0 <= i < listed.len() && (#[trigger] listed[i]).entry.op->Cell_0
                                == column);
                    }
                }
                assert(r@.cells =~= want.cells);
            } else {
                assert(listed.len() == 0);
                assert(r@.cells =~= want.cells);
            }
        }
        r
    }

    /// What one remote entry does to this row.
    pub(crate) fn outcome_for(&self, candidate: Candidate<'_>) -> (r: MergeOutcome)
        requires
            self.wf(),
        ensures
            r@ == self@.outcome_for(candidate@),
    {
        proof {
            key_order_is_total();
        }
        match &candidate.entry.op {
            ChangeOp::Cell { column, .. } => {
                if !self.per_cell {
                    return MergeOutcome::Skipped(SkipReason::CellOnWholeRowTable);
                }
                if self.unplaceable {
                    return MergeOutcome::Unplaceable;
                }
                if let Some(delete) = &self.deleted {
                    return MergeOutcome::Skipped(SkipReason::RowIsDeleted(delete.id()));
                }
                if let Some(upsert) = &self.base_upsert {
                    if upsert.rank_against(&candidate) != Rank::Before {
                        return MergeOutcome::Skipped(SkipReason::SupersededByRow(upsert.id()));
                    }
                }
                proof {
                    let listed = candidate_views(self.cell_winners@);
                    lemma_column_map(listed);
                    assert forall|i: int, j: int| 0 <= i < j < self.cell_winners@.len() implies
                        text_before(
                        (#[trigger] self.cell_winners@[i])@.entry.op->Cell_0,
                        (#[trigger] self.cell_winners@[j])@.entry.op->Cell_0,
                    ) by {
                        assert(text_before(
                            listed[i].entry.op->Cell_0,
                            listed[j].entry.op->Cell_0,
                        ));
                    }
                    assert forall|i: int| 0 <= i < self.cell_winners@.len() implies (
                    #[trigger] self.cell_winners@[i])@.entry.op is Cell by {
                        assert(listed[i].entry.op is Cell);
                    }
                }
                let (i, found) = find_column(&self.cell_winners, column.as_str());
                if found {
                    assert(candidate_views(self.cell_winners@)[i as int]
                        == self.cell_winners@[i as int]@);
                    if self.cell_winners[i].rank_against(&candidate) != Rank::Same {
                        return MergeOutcome::Skipped(
                            SkipReason::SupersededByCell(self.cell_winners[i].id()),
                        );
                    }
                } else {
                    proof {
                        text_order_is_total();
                        let listed = candidate_views(self.cell_winners@);
                        assert(!self@.cells.contains_key(column@)) by {
                            if self@.cells.contains_key(column@) {
                                let j = choose|j: int|
                                    0 <= j < listed.len() && (
                                    #[trigger] listed[j]).entry.op->Cell_0 == column@;
                                assert(self.cell_winners@[j]@ == listed[j]);
                            }
                        }
                    }
                }
                MergeOutcome::Applied
            },
            ChangeOp::Upsert { .. } | ChangeOp::Delete => {
                if let Some(delete) = held_back_by(candidate, self.newest_delete) {
                    return MergeOutcome::Skipped(
                        SkipReason::GeneratedRowStaysDeleted(delete.id()),
                    );
                }
                if let Some(winner) = &self.row_winner {
                    if winner.rank_against(&candidate) != Rank::Same {
                        return MergeOutcome::Skipped(SkipReason::SupersededByRow(winner.id()));
                    }
                }
                MergeOutcome::Applied
            },
        }
    }

    /// The write that the remote entries of this row ask for, or `None` where
    /// entries of this device decide all of it.
    pub(crate) fn action(&self) -> (r: Option<RowAction>)
        requires
            self.wf(),
        ensures
            match r {
                Some(a) => self@.action() == Some(a@) && a.in_order(),
                None => self@.action() is None,
            },
    {
        if !self.per_cell {
            return match &self.row_winner {
                Some(winner) => if !winner.is_remote() {
                    None
                } else {
                    match &winner.entry.op {
                        ChangeOp::Upsert { row } => Some(RowAction::Upsert { row: row.clone() }),
                        ChangeOp::Delete => Some(RowAction::Delete),
                        ChangeOp::Cell { .. } => None,
                    }
                },
                None => None,
            };
        }
        if let Some(delete) = &self.deleted {
            return if delete.is_remote() {
                Some(RowAction::Delete)
            } else {
                None
            };
        }
        if self.unplaceable {
            return None;
        }
        if let Some(upsert) = &self.base_upsert {
            if upsert.is_remote() {
                if let ChangeOp::Upsert { row } = &upsert.entry.op {
                    let merged = self.lay_over(row);
                    return Some(RowAction::Upsert { row: merged });
                }
                return None;
            }
        }
        let cells = self.remote_cells();
        if cells.len() > 0 {
            assert(cell_pairs(cells@)[0].0 == cells@[0].column@);
            proof {
                lemma_pairs_map(cell_pairs(cells@));
                assert(self@.remote_cell_values().contains_key(cells@[0].column@));
            }
            Some(RowAction::SetCells { cells })
        } else {
            assert(pairs_map(cell_pairs(cells@)) =~= Map::<Seq<char>, ValueView>::empty());
            assert(forall|column: Seq<char>|
                !(#[trigger] self@.remote_cell_values().contains_key(column)));
            None
        }
    }

    /// A row with the value of every cell winner laid over it.
    fn lay_over(&self, row: &Row) -> (r: Row)
        requires
            self.wf(),
        ensures
            r@ == row@.union_prefer_right(self@.cell_values()),
    {
        let ghost listed = candidate_views(self.cell_winners@);
        proof {
            lemma_column_map(listed);
            text_order_is_total();
        }
        let mut merged = row.clone();
        let mut i: usize = 0;
        while i < self.cell_winners.len()
            invariant
                i <= self.cell_winners.len(),
                self.wf(),
                listed == candidate_views(self.cell_winners@),
                forall|column: Seq<char>|
                    #![trigger merged@.contains_key(column)]
                    merged@.contains_key(column) <==> row@.contains_key(column) || exists|j: int|
                        0 <= j < i && (#[trigger] listed[j]).entry.op->Cell_0 == column,
                forall|j: int|
                    0 <= j < i ==> merged@.contains_key((#[trigger] listed[j]).entry.op->Cell_0)
                        && merged@[listed[j].entry.op->Cell_0] == listed[j].entry.op->Cell_1,
                forall|column: Seq<char>|
                    #![trigger merged@[column]]
                    row@.contains_key(column) && (forall|j: int|
                        0 <= j < i ==> (#[trigger] listed[j]).entry.op->Cell_0 != column)
                        ==> merged@[column] == row@[column],
            decreases self.cell_winners.len() - i,
        {
            let winner = self.cell_winners[i];
            assert(listed[i as int] == winner@ && listed[i as int].entry.op is Cell);
            if let ChangeOp::Cell { column, value } = &winner.entry.op {
                let ghost before = merged@;
                merged.insert(column.clone(), value.clone());
                proof {
                    text_order_is_total();
                    assert forall|j: int| 0 <= j < i implies merged@.contains_key(
                        (#[trigger] listed[j]).entry.op->Cell_0,
                    ) && merged@[listed[j].entry.op->Cell_0] == listed[j].entry.op->Cell_1 by {
                        assert(text_before(
                            listed[j].entry.op->Cell_0,
                            listed[i as int].entry.op->Cell_0,
                        ));
                    }
                    assert forall|c: Seq<char>|
                        #![trigger merged@.contains_key(c)]
                        merged@.contains_key(c) <==> row@.contains_key(c) || exists|j: int|
                            0 <= j < i + 1 && (#[trigger] listed[j]).entry.op->Cell_0 == c by {
                        assert(merged@.contains_key(c) <==> before.contains_key(c) || c
                            == column@);
                        if before.contains_key(c) && !row@.contains_key(c) {
                            let j = choose|j: int|
                                0 <= j < i && (#[trigger] listed[j]).entry.op->Cell_0 == c;
                            assert(0 <= j < i + 1 && listed[j].entry.op->Cell_0 == c);
                        }
                        if c == column@ {
                            assert(listed[i as int].entry.op->Cell_0 == c);
                        }
                    }
                    assert forall|c: Seq<char>|
                        #![trigger merged@[c]]
                        row@.contains_key(c) && (forall|j: int|
                            0 <= j < i + 1 ==> (#[trigger] listed[j]).entry.op->Cell_0 != c)
                            implies merged@[c] == row@[c] by {
                        assert(listed[i as int].entry.op->Cell_0 != c);
                        assert(before[c] == row@[c]);
                    }
                }
            }
            i = i + 1;
        }
        proof {
            let want = row@.union_prefer_right(self@.cell_values());
            assert forall|c: Seq<char>|
                #![trigger merged@.contains_key(c)]
                (merged@.contains_key(c) <==> want.contains_key(c)) && (merged@.contains_key(c)
                    ==> merged@[c] == want[c]) by {
                if self@.cells.contains_key(c) {
                    let j = choose|j: int|
                        0 <= j < listed.len() && (#[trigger] listed[j]).entry.op->Cell_0 == c;
                    assert(listed[j].entry.op->Cell_0 == c);
                } else {
                    assert(forall|j: int|
                        0 <= j < i ==> (#[trigger] listed[j]).entry.op->Cell_0 != c);
                }
            }
            assert(merged@ =~= want);
        }
        merged
    }

    /// The columns that a cell of the other device decides, with their values.
    fn remote_cells(&self) -> (r: Vec<CellValue>)
        requires
            self.wf(),
        ensures
            keys_increase(cell_pairs(r@)),
            pairs_map(cell_pairs(r@)) == self@.remote_cell_values(),
    {
        let ghost listed = candidate_views(self.cell_winners@);
        proof {
            lemma_column_map(listed);
            text_order_is_total();
        }
        let mut cells: Vec<CellValue> = Vec::new();
        // Which winner each cell came from, and which cell each winner became.
        let ghost mut source: Seq<int> = Seq::empty();
        let ghost mut target: Seq<int> = Seq::empty();
        let mut i: usize = 0;
        while i < self.cell_winners.len()
            invariant
                i <= self.cell_winners.len(),
                self.wf(),
                listed == candidate_views(self.cell_winners@),
                source.len() == cells@.len(),
                target.len() == i,
                forall|k: int|
                    0 <= k < source.len() ==> 0 <= (#[trigger] source[k]) < i
                        && listed[source[k]].remote() && listed[source[k]].entry.op->Cell_0
                        == cells@[k].column@ && listed[source[k]].entry.op->Cell_1
                        == cells@[k].value@,
                forall|k: int, l: int|
                    0 <= k < l < source.len() ==> (#[trigger] source[k]) < (#[trigger] source[l]),
                forall|j: int|
                    0 <= j < i && listed[j].remote() ==> 0 <= (#[trigger] target[j]) < source.len()
                        && source[target[j]] == j,
            decreases self.cell_winners.len() - i,
        {
            let winner = self.cell_winners[i];
            assert(listed[i as int] == winner@ && listed[i as int].entry.op is Cell);
            let ghost place = cells@.len() as int;
            if winner.is_remote() {
                if let ChangeOp::Cell { column, value } = &winner.entry.op {
                    cells.push(CellValue { column: column.clone(), value: value.clone() });
                    proof {
                        source = source.push(i as int);
                    }
                }
            }
            proof {
                target = target.push(place);
            }
            i = i + 1;
        }
        proof {
            let pairs = cell_pairs(cells@);
            assert forall|a: int, b: int| 0 <= a < b < pairs.len() implies text_before(
                (#[trigger] pairs[a]).0,
                (#[trigger] pairs[b]).0,
            ) by {
                assert(source[a] < source[b]);
                assert(text_before(
                    listed[source[a]].entry.op->Cell_0,
                    listed[source[b]].entry.op->Cell_0,
                ));
            }
            let got = pairs_map(pairs);
            let want = self@.remote_cell_values();
            lemma_pairs_map(pairs);
            assert forall|c: Seq<char>|
                #![trigger got.contains_key(c)]
                (got.contains_key(c) <==> want.contains_key(c)) && (got.contains_key(c) ==> got[c]
                    == want[c]) by {
                if got.contains_key(c) {
                    let k = choose|k: int| 0 <= k < pairs.len() && (#[trigger] pairs[k]).0 == c;
                    assert(listed[source[k]].entry.op->Cell_0 == c);
                }
                if want.contains_key(c) {
                    let j = choose|j: int|
                        0 <= j < listed.len() && (#[trigger] listed[j]).entry.op->Cell_0 == c;
                    assert(self@.cells[c] == listed[j]);
                    let k = target[j];
                    assert(source[k] == j);
                    assert(pairs[k].0 == c);
                }
            }
            assert(got =~= want);
        }
        cells
    }
}

} // verus!
