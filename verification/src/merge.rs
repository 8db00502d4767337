//! The merge of two change logs: what a batch of changes from another device
//! does to this device's data.
//!
//! The order of changes is the stamp, then the device id. A row is named by
//! its table and its row id.
//!
//! * In a table that merges whole rows, the newest upsert or delete of a row
//!   decides the row.
//! * In a table that merges per cell, the newest upsert or delete decides
//!   whether the row exists, and each column takes the newest value above that
//!   upsert. A cell never brings a deleted row back.
//! * An upsert generated from a recurring template never overrides a delete of
//!   the same row, however new it is.
//! * A cell of a row that no entry creates is stored, and changes nothing.

use vstd::prelude::*;
use crate::merge_row::{
    candidate_views, resolved, Candidate, CandidateView, RowState, RowStateView,
};
use crate::rows::{Row, Value, ValueView};
use crate::sync::{
    key_before, key_order_is_total, views, ChangeEntry, ChangeTable, EntryView, Hlc, KeyView,
};
use crate::text::Rank;
use crate::text_map::{pairs_map, keys_increase};

verus! {

/// Names one change for good: its stamp and the device that issued it.
#[derive(Debug, PartialEq, Eq)]
pub struct EntryId {
    pub stamp: Hlc,
    pub device_id: String,
}

/// Why a remote entry changes nothing on this device.
#[derive(Debug, PartialEq, Eq)]
pub enum SkipReason {
    /// A newer upsert or delete of the row won.
    SupersededByRow(EntryId),
    /// A newer cell edit of the same column won.
    SupersededByCell(EntryId),
    /// The row is deleted, so the cell edit has nothing to edit.
    RowIsDeleted(EntryId),
    /// The upsert was generated, and this older delete of the row stands.
    GeneratedRowStaysDeleted(EntryId),
    /// A cell edit on a table that merges whole rows.
    CellOnWholeRowTable,
}

/// What a plan does with one remote entry.
#[derive(Debug, PartialEq, Eq)]
pub enum MergeOutcome {
    /// The entry decides part of the row's final state.
    Applied,
    /// The log holds this change already, or it came earlier in the batch.
    AlreadyKnown,
    /// The entry is stored and changes no data.
    Skipped(SkipReason),
    /// The entry edits a cell of a row that no entry on either side creates.
    Unplaceable,
}

/// One remote entry and what the plan does with it.
#[derive(Clone, Debug, PartialEq, Eq)]
pub struct MergeDecision {
    pub entry: ChangeEntry,
    pub outcome: MergeOutcome,
}

/// One column of a row and the value it takes.
#[derive(Debug, PartialEq, Eq)]
pub struct CellValue {
    pub column: String,
    pub value: Value,
}

/// The write one row needs.
#[derive(Debug, PartialEq, Eq)]
pub enum RowAction {
    /// Replace the row with exactly these columns, or add it.
    Upsert { row: Row },
    /// Remove the row, if it is there.
    Delete,
    /// Set these columns of an existing row, sorted by column name.
    SetCells { cells: Vec<CellValue> },
}

/// One row to write, with the table that names its file.
#[derive(Clone, Debug, PartialEq, Eq)]
pub struct MergeAction {
    pub table: ChangeTable,
    pub row_id: String,
    pub action: RowAction,
}

/// Counts from one plan, and the stamp the local clock has to absorb.
#[derive(Clone, Debug, PartialEq, Eq)]
pub struct MergeSummary {
    pub remote_entries: usize,
    pub applied: usize,
    pub already_known: usize,
    pub skipped: usize,
    pub unplaceable: usize,
    pub rows_changed: usize,
    pub max_remote_stamp: Option<Hlc>,
}

/// What a batch of remote changes does to this device.
#[derive(Clone, Debug, PartialEq, Eq)]
pub struct MergePlan {
    /// One decision per remote entry, in the order of changes.
    pub decisions: Vec<MergeDecision>,
    /// The writes to perform, in the order the winning changes were made.
    pub actions: Vec<MergeAction>,
    pub summary: MergeSummary,
}

/// What a [`SkipReason`] says.
pub enum SkipView {
    SupersededByRow(KeyView),
    SupersededByCell(KeyView),
    RowIsDeleted(KeyView),
    GeneratedRowStaysDeleted(KeyView),
    CellOnWholeRowTable,
}

/// What a [`MergeOutcome`] says.
pub enum OutcomeView {
    Applied,
    AlreadyKnown,
    Skipped(SkipView),
    Unplaceable,
}

/// What a [`MergeDecision`] says.
pub struct DecisionView {
    pub entry: EntryView,
    pub outcome: OutcomeView,
}

/// What a [`RowAction`] says.
pub enum RowActionView {
    Upsert(Map<Seq<char>, ValueView>),
    Delete,
    SetCells(Map<Seq<char>, ValueView>),
}

/// What a [`MergeAction`] says.
pub struct ActionView {
    pub table: ChangeTable,
    pub row_id: Seq<char>,
    pub action: RowActionView,
}

/// The counts a [`MergeSummary`] gives.
pub struct SummaryView {
    pub remote_entries: nat,
    pub applied: nat,
    pub already_known: nat,
    pub skipped: nat,
    pub unplaceable: nat,
    pub rows_changed: nat,
    pub max_remote_stamp: Option<Hlc>,
}

/// What a [`MergePlan`] says.
pub struct PlanView {
    pub decisions: Seq<DecisionView>,
    pub actions: Seq<ActionView>,
    pub summary: SummaryView,
}

impl View for EntryId {
    type V = KeyView;

    open spec fn view(&self) -> KeyView {
        KeyView { stamp: self.stamp, device: self.device_id@ }
    }
}

impl View for SkipReason {
    type V = SkipView;

    open spec fn view(&self) -> SkipView {
        match self {
            SkipReason::SupersededByRow(id) => SkipView::SupersededByRow(id@),
            SkipReason::SupersededByCell(id) => SkipView::SupersededByCell(id@),
            SkipReason::RowIsDeleted(id) => SkipView::RowIsDeleted(id@),
            SkipReason::GeneratedRowStaysDeleted(id) => SkipView::GeneratedRowStaysDeleted(id@),
            SkipReason::CellOnWholeRowTable => SkipView::CellOnWholeRowTable,
        }
    }
}

impl View for MergeOutcome {
    type V = OutcomeView;

    open spec fn view(&self) -> OutcomeView {
        match self {
            MergeOutcome::Applied => OutcomeView::Applied,
            MergeOutcome::AlreadyKnown => OutcomeView::AlreadyKnown,
            MergeOutcome::Skipped(reason) => OutcomeView::Skipped(reason@),
            MergeOutcome::Unplaceable => OutcomeView::Unplaceable,
        }
    }
}

impl View for MergeDecision {
    type V = DecisionView;

    open spec fn view(&self) -> DecisionView {
        DecisionView { entry: self.entry@, outcome: self.outcome@ }
    }
}

/// The cells as plain pairs.
pub open spec fn cell_pairs(cells: Seq<CellValue>) -> Seq<(Seq<char>, ValueView)> {
    Seq::new(cells.len(), |i: int| (cells[i].column@, cells[i].value@))
}

impl View for RowAction {
    type V = RowActionView;

    open spec fn view(&self) -> RowActionView {
        match self {
            RowAction::Upsert { row } => RowActionView::Upsert(row@),
            RowAction::Delete => RowActionView::Delete,
            RowAction::SetCells { cells } => RowActionView::SetCells(pairs_map(cell_pairs(cells@))),
        }
    }
}

impl RowAction {
    /// Whether the cells to set, if any, stand in the order of their columns.
    pub open spec fn in_order(&self) -> bool {
        match self {
            RowAction::SetCells { cells } => keys_increase(cell_pairs(cells@)),
            _ => true,
        }
    }
}

impl View for MergeAction {
    type V = ActionView;

    open spec fn view(&self) -> ActionView {
        ActionView { table: self.table, row_id: self.row_id@, action: self.action@ }
    }
}

impl View for MergeSummary {
    type V = SummaryView;

    open spec fn view(&self) -> SummaryView {
        SummaryView {
            remote_entries: self.remote_entries as nat,
            applied: self.applied as nat,
            already_known: self.already_known as nat,
            skipped: self.skipped as nat,
            unplaceable: self.unplaceable as nat,
            rows_changed: self.rows_changed as nat,
            max_remote_stamp: self.max_remote_stamp,
        }
    }
}

impl View for MergePlan {
    type V = PlanView;

    open spec fn view(&self) -> PlanView {
        PlanView {
            decisions: Seq::new(self.decisions@.len(), |i: int| self.decisions@[i]@),
            actions: Seq::new(self.actions@.len(), |i: int| self.actions@[i]@),
            summary: self.summary@,
        }
    }
}

impl Default for MergeSummary {
    /// The counts of an empty batch.
    fn default() -> (r: Self)
        ensures
            r@ == (SummaryView {
                remote_entries: 0,
                applied: 0,
                already_known: 0,
                skipped: 0,
                unplaceable: 0,
                rows_changed: 0,
                max_remote_stamp: None,
            }),
    {
        MergeSummary {
            remote_entries: 0,
            applied: 0,
            already_known: 0,
            skipped: 0,
            unplaceable: 0,
            rows_changed: 0,
            max_remote_stamp: None,
        }
    }
}

impl Default for MergePlan {
    /// The plan of an empty batch.
    fn default() -> (r: Self)
        ensures
            r@.decisions.len() == 0,
            r@.actions.len() == 0,
            r@.summary.remote_entries == 0,
            r@.summary.applied == 0,
            r@.summary.already_known == 0,
            r@.summary.skipped == 0,
            r@.summary.unplaceable == 0,
            r@.summary.rows_changed == 0,
            r@.summary.max_remote_stamp is None,
    {
        MergePlan { decisions: Vec::new(), actions: Vec::new(), summary: MergeSummary::default() }
    }
}

impl EntryId {
    /// The name of this change.
    pub fn of(entry: &ChangeEntry) -> (r: Self)
        ensures
            r@ == entry@.key(),
    {
        EntryId { stamp: entry.stamp, device_id: entry.device_id.clone() }
    }
}

impl Clone for EntryId {
    fn clone(&self) -> (r: Self)
        ensures
            r@ == self@,
    {
        EntryId { stamp: self.stamp, device_id: self.device_id.clone() }
    }
}

impl Clone for SkipReason {
    fn clone(&self) -> (r: Self)
        ensures
            r@ == self@,
    {
        match self {
            SkipReason::SupersededByRow(id) => SkipReason::SupersededByRow(id.clone()),
            SkipReason::SupersededByCell(id) => SkipReason::SupersededByCell(id.clone()),
            SkipReason::RowIsDeleted(id) => SkipReason::RowIsDeleted(id.clone()),
            SkipReason::GeneratedRowStaysDeleted(id) => {
                SkipReason::GeneratedRowStaysDeleted(id.clone())
            },
            SkipReason::CellOnWholeRowTable => SkipReason::CellOnWholeRowTable,
        }
    }
}

impl Clone for MergeOutcome {
    fn clone(&self) -> (r: Self)
        ensures
            r@ == self@,
    {
        match self {
            MergeOutcome::Applied => MergeOutcome::Applied,
            MergeOutcome::AlreadyKnown => MergeOutcome::AlreadyKnown,
            MergeOutcome::Skipped(reason) => MergeOutcome::Skipped(reason.clone()),
            MergeOutcome::Unplaceable => MergeOutcome::Unplaceable,
        }
    }
}

impl Clone for CellValue {
    fn clone(&self) -> (r: Self)
        ensures
            r.column@ == self.column@,
            r.value@ == self.value@,
    {
        CellValue { column: self.column.clone(), value: self.value.clone() }
    }
}

impl Clone for RowAction {
    fn clone(&self) -> (r: Self)
        ensures
            r@ == self@,
            r.in_order() == self.in_order(),
    {
        match self {
            RowAction::Upsert { row } => RowAction::Upsert { row: row.clone() },
            RowAction::Delete => RowAction::Delete,
            RowAction::SetCells { cells } => {
                let mut copied: Vec<CellValue> = Vec::new();
                let mut i: usize = 0;
                while i < cells.len()
                    invariant
                        i <= cells.len(),
                        copied@.len() == i,
                        forall|j: int|
                            0 <= j < i ==> (#[trigger] copied@[j]).column@ == cells@[j].column@
                                && copied@[j].value@ == cells@[j].value@,
                    decreases cells.len() - i,
                {
                    copied.push(cells[i].clone());
                    i = i + 1;
                }
                assert(cell_pairs(copied@) =~= cell_pairs(cells@));
                RowAction::SetCells { cells: copied }
            },
        }
    }
}

/// Whether the table merges one column at a time rather than as a whole row.
pub open spec fn per_cell_table(table: ChangeTable) -> bool {
    match table {
        ChangeTable::Expenses { .. } => false,
        ChangeTable::Recurring { .. } => false,
        ChangeTable::CategoryMappings => false,
        ChangeTable::KnownCategories => false,
        _ => true,
    }
}

/// Whether the table's rows exist without any entry saying so.
pub open spec fn fixed_row_table(table: ChangeTable) -> bool {
    table is CashflowIncome
}

/// Whether the table merges one column at a time rather than as a whole row.
pub fn merges_per_cell(table: &ChangeTable) -> (r: bool)
    ensures
        r == per_cell_table(*table),
{
    match table {
        ChangeTable::Expenses { .. } | ChangeTable::Recurring { .. } => false,
        ChangeTable::Investments { .. }
        | ChangeTable::InvestmentsPrices { .. }
        | ChangeTable::Liquidity { .. }
        | ChangeTable::CreditsDebts { .. }
        | ChangeTable::CashflowIncome { .. }
        | ChangeTable::CurrencySettings => true,
        ChangeTable::CategoryMappings | ChangeTable::KnownCategories => false,
    }
}

/// Whether the table's rows exist without any entry saying so: the fixed
/// income categories.
pub fn has_fixed_rows(table: &ChangeTable) -> (r: bool)
    ensures
        r == fixed_row_table(*table),
{
    match table {
        ChangeTable::CashflowIncome { .. } => true,
        ChangeTable::CategoryMappings
        | ChangeTable::KnownCategories
        | ChangeTable::CurrencySettings => false,
        ChangeTable::Expenses { .. }
        | ChangeTable::Recurring { .. }
        | ChangeTable::Investments { .. }
        | ChangeTable::InvestmentsPrices { .. }
        | ChangeTable::Liquidity { .. }
        | ChangeTable::CreditsDebts { .. } => false,
    }
}

/// A sorted batch with one more entry, behind every entry that is not newer.
pub open spec fn inserted(batch: Seq<EntryView>, entry: EntryView) -> Seq<EntryView>
    decreases batch.len(),
{
    if batch.len() == 0 || !key_before(entry.key(), batch.last().key()) {
        batch.push(entry)
    } else {
        inserted(batch.drop_last(), entry).push(batch.last())
    }
}

/// The entries in the order of changes; entries with one key keep their order.
pub open spec fn sorted(entries: Seq<EntryView>) -> Seq<EntryView>
    decreases entries.len(),
{
    if entries.len() == 0 {
        Seq::empty()
    } else {
        inserted(sorted(entries.drop_last()), entries.last())
    }
}

/// Whether a log holds a change with this stamp and device.
pub open spec fn holds_key(log: Seq<EntryView>, key: KeyView) -> bool {
    exists|i: int| 0 <= i < log.len() && (#[trigger] log[i]).key() == key
}

/// Whether the entry at a position of the batch is new: neither in the log nor
/// earlier in the batch.
pub open spec fn fresh(local: Seq<EntryView>, batch: Seq<EntryView>, i: int) -> bool {
    &&& 0 <= i < batch.len()
    &&& !holds_key(local, batch[i].key())
    &&& forall|j: int| 0 <= j < i ==> (#[trigger] batch[j]).key() != batch[i].key()
}

/// The new entries among the first `n` of the batch that concern one row.
pub open spec fn remote_candidates(
    local: Seq<EntryView>,
    batch: Seq<EntryView>,
    n: int,
    table: ChangeTable,
    row_id: Seq<char>,
) -> Seq<CandidateView>
    decreases n,
{
    if n <= 0 {
        Seq::empty()
    } else {
        let rest = remote_candidates(local, batch, n - 1, table, row_id);
        if fresh(local, batch, n - 1) && batch[n - 1].on_row(table, row_id) {
            rest.push(CandidateView { entry: batch[n - 1], order_index: Some(n - 1) })
        } else {
            rest
        }
    }
}

/// The entries of a log that concern one row.
pub open spec fn local_candidates(
    local: Seq<EntryView>,
    table: ChangeTable,
    row_id: Seq<char>,
) -> Seq<CandidateView>
    decreases local.len(),
{
    if local.len() == 0 {
        Seq::empty()
    } else {
        let rest = local_candidates(local.drop_last(), table, row_id);
        if local.last().on_row(table, row_id) {
            rest.push(CandidateView { entry: local.last(), order_index: None })
        } else {
            rest
        }
    }
}

/// Everything that competes for one row.
pub open spec fn row_candidates(
    local: Seq<EntryView>,
    batch: Seq<EntryView>,
    table: ChangeTable,
    row_id: Seq<char>,
) -> Seq<CandidateView> {
    remote_candidates(local, batch, batch.len() as int, table, row_id) + local_candidates(
        local,
        table,
        row_id,
    )
}

/// The merged state of one row.
pub open spec fn row_state(
    local: Seq<EntryView>,
    batch: Seq<EntryView>,
    table: ChangeTable,
    row_id: Seq<char>,
) -> RowStateView {
    resolved(table, row_candidates(local, batch, table, row_id))
}

/// What the plan does with the entry at a position of the sorted batch.
pub open spec fn outcome_at(local: Seq<EntryView>, batch: Seq<EntryView>, i: int) -> OutcomeView {
    if !fresh(local, batch, i) {
        OutcomeView::AlreadyKnown
    } else {
        row_state(local, batch, batch[i].table, batch[i].row_id).outcome_for(
            CandidateView { entry: batch[i], order_index: Some(i) },
        )
    }
}

/// Whether the entry at a position is the newest of its row that is applied.
pub open spec fn last_applied(local: Seq<EntryView>, batch: Seq<EntryView>, i: int) -> bool {
    &&& 0 <= i < batch.len()
    &&& outcome_at(local, batch, i) is Applied
    &&& forall|j: int|
        i < j < batch.len() && (#[trigger] batch[j]).on_row(batch[i].table, batch[i].row_id)
            ==> !(outcome_at(local, batch, j) is Applied)
}

/// The write that follows from the entry at a position: the write of its row,
/// if it is the newest of that row that is applied.
pub open spec fn action_at(
    local: Seq<EntryView>,
    batch: Seq<EntryView>,
    i: int,
) -> Option<ActionView> {
    let table = batch[i].table;
    let row_id = batch[i].row_id;
    match row_state(local, batch, table, row_id).action() {
        Some(action) => if last_applied(local, batch, i) {
            Some(ActionView { table, row_id, action })
        } else {
            None
        },
        None => None,
    }
}

/// The writes that follow from the first `n` entries of the sorted batch.
pub open spec fn actions_upto(local: Seq<EntryView>, batch: Seq<EntryView>, n: int) -> Seq<
    ActionView,
>
    decreases n,
{
    if n <= 0 {
        Seq::empty()
    } else {
        let rest = actions_upto(local, batch, n - 1);
        match action_at(local, batch, n - 1) {
            Some(action) => rest.push(action),
            None => rest,
        }
    }
}

/// The decision on every entry of the sorted batch.
pub open spec fn decisions_of(local: Seq<EntryView>, batch: Seq<EntryView>) -> Seq<DecisionView> {
    Seq::new(
        batch.len(),
        |i: int| DecisionView { entry: batch[i], outcome: outcome_at(local, batch, i) },
    )
}

/// Picks the applied entries.
pub open spec fn applied() -> spec_fn(DecisionView) -> bool {
    |d: DecisionView| d.outcome is Applied
}

/// Picks the entries this device had.
pub open spec fn already_known() -> spec_fn(DecisionView) -> bool {
    |d: DecisionView| d.outcome is AlreadyKnown
}

/// Picks the skipped entries.
pub open spec fn skipped() -> spec_fn(DecisionView) -> bool {
    |d: DecisionView| d.outcome is Skipped
}

/// Picks the entries that could not be placed.
pub open spec fn unplaceable() -> spec_fn(DecisionView) -> bool {
    |d: DecisionView| d.outcome is Unplaceable
}

/// The latest stamp of some entries.
pub open spec fn latest_stamp(entries: Seq<EntryView>) -> Option<Hlc>
    decreases entries.len(),
{
    if entries.len() == 0 {
        None
    } else {
        let last = entries.last().stamp;
        match latest_stamp(entries.drop_last()) {
            Some(stamp) => if stamp.before(last) {
                Some(last)
            } else {
                Some(stamp)
            },
            None => Some(last),
        }
    }
}

/// What merging a batch into a log amounts to.
pub open spec fn plan_of(local: Seq<EntryView>, remote: Seq<EntryView>) -> PlanView {
    let batch = sorted(remote);
    let decisions = decisions_of(local, batch);
    let actions = actions_upto(local, batch, batch.len() as int);
    PlanView {
        decisions,
        actions,
        summary: SummaryView {
            remote_entries: batch.len(),
            applied: decisions.filter(applied()).len(),
            already_known: decisions.filter(already_known()).len(),
            skipped: decisions.filter(skipped()).len(),
            unplaceable: decisions.filter(unplaceable()).len(),
            rows_changed: actions.len(),
            max_remote_stamp: latest_stamp(batch),
        },
    }
}

/// What some entries say.
pub open spec fn ref_views(entries: Seq<&ChangeEntry>) -> Seq<EntryView> {
    Seq::new(entries.len(), |i: int| entries[i]@)
}

proof fn lemma_inserted(batch: Seq<EntryView>, entry: EntryView, p: int)
    requires
        0 <= p <= batch.len(),
        forall|j: int| p <= j < batch.len() ==> key_before(entry.key(), (#[trigger] batch[j]).key()),
        p > 0 ==> !key_before(entry.key(), batch[p - 1].key()),
    ensures
        inserted(batch, entry) == batch.insert(p, entry),
    decreases batch.len(),
{
    if p == batch.len() {
        assert(batch.insert(p, entry) =~= batch.push(entry));
    } else {
        let front = batch.drop_last();
        assert(key_before(entry.key(), batch[batch.len() - 1].key()));
        assert forall|j: int| p <= j < front.len() implies key_before(
            entry.key(),
            (#[trigger] front[j]).key(),
        ) by {
            assert(front[j] == batch[j]);
        }
        if p > 0 {
            assert(front[p - 1] == batch[p - 1]);
        }
        lemma_inserted(front, entry, p);
        assert(batch.insert(p, entry) =~= front.insert(p, entry).push(batch.last()));
    }
}

/// The entries of a batch, borrowed, in the order of changes.
fn sort_batch<'a>(remote: &'a [ChangeEntry]) -> (r: Vec<&'a ChangeEntry>)
    ensures
        ref_views(r@) == sorted(views(remote@)),
{
    let mut batch: Vec<&'a ChangeEntry> = Vec::new();
    let ghost all = views(remote@);
    let mut i: usize = 0;
    assert(all.take(0) =~= Seq::empty());
    assert(ref_views(batch@) =~= Seq::empty());
    while i < remote.len()
        invariant
            i <= remote.len(),
            all == views(remote@),
            ref_views(batch@) == sorted(all.take(i as int)),
        decreases remote.len() - i,
    {
        let entry = &remote[i];
        let ghost before = ref_views(batch@);
        let mut p: usize = batch.len();
        while p > 0 && entry.rank_against(batch[p - 1]) == Rank::Before
            invariant
                p <= batch.len(),
                before == ref_views(batch@),
                forall|j: int|
                    p <= j < before.len() ==> key_before(entry@.key(), (#[trigger] before[j]).key()),
            decreases p,
        {
            assert(before[p - 1] == batch@[p - 1]@);
            p = p - 1;
        }
        proof {
            if p > 0 {
                assert(before[p - 1] == batch@[p - 1]@);
            }
            lemma_inserted(before, entry@, p as int);
            assert(all.take(i + 1).drop_last() =~= all.take(i as int));
            assert(all.take(i + 1).last() == entry@);
        }
        batch.insert(p, entry);
        assert(ref_views(batch@) =~= before.insert(p as int, entry@));
        i = i + 1;
    }
    assert(all.take(i as int) =~= all);
    batch
}

/// Whether a batch stands in the order of changes.
pub open spec fn in_change_order(batch: Seq<EntryView>) -> bool {
    forall|i: int, j: int|
        0 <= i < j < batch.len() ==> !key_before(
            (#[trigger] batch[j]).key(),
            (#[trigger] batch[i]).key(),
        )
}

proof fn lemma_inserted_keeps_order(batch: Seq<EntryView>, entry: EntryView)
    requires
        in_change_order(batch),
    ensures
        in_change_order(inserted(batch, entry)),
        inserted(batch, entry).to_multiset() == batch.to_multiset().insert(entry),
        inserted(batch, entry).len() == batch.len() + 1,
    decreases batch.len(),
{
    key_order_is_total();
    broadcast use vstd::seq_lib::group_to_multiset_ensures;

    if batch.len() == 0 || !key_before(entry.key(), batch.last().key()) {
        let after = batch.push(entry);
        assert forall|i: int, j: int| 0 <= i < j < after.len() implies !key_before(
            (#[trigger] after[j]).key(),
            (#[trigger] after[i]).key(),
        ) by {
            if j == batch.len() {
                let last = batch.len() - 1;
                if i < last {
                    assert(!key_before(batch[last].key(), batch[i].key()));
                    if key_before(entry.key(), batch[i].key()) {
                        assert(batch[i].key() == batch[last].key() || key_before(
                            batch[i].key(),
                            batch[last].key(),
                        ));
                    }
                }
            } else {
                assert(!key_before(batch[j].key(), batch[i].key()));
            }
        }
    } else {
        let front = batch.drop_last();
        assert forall|i: int, j: int| 0 <= i < j < front.len() implies !key_before(
            (#[trigger] front[j]).key(),
            (#[trigger] front[i]).key(),
        ) by {
            assert(!key_before(batch[j].key(), batch[i].key()));
        }
        lemma_inserted_keeps_order(front, entry);
        let rest = inserted(front, entry);
        let after = rest.push(batch.last());
        assert(batch =~= front.push(batch.last()));
        assert forall|i: int, j: int| 0 <= i < j < after.len() implies !key_before(
            (#[trigger] after[j]).key(),
            (#[trigger] after[i]).key(),
        ) by {
            if j == rest.len() {
                assert(rest.to_multiset().contains(rest[i]));
                if rest[i] != entry {
                    assert(front.to_multiset().contains(rest[i]));
                    assert(front.contains(rest[i]));
                    let k = choose|k: int| 0 <= k < front.len() && front[k] == rest[i];
                    assert(!key_before(batch[batch.len() - 1].key(), batch[k].key()));
                }
            } else {
                assert(!key_before(rest[j].key(), rest[i].key()));
            }
        }
    }
}

/// A sorted batch holds the same entries, in the order of changes.
pub proof fn sorted_batch_is_ordered(entries: Seq<EntryView>)
    ensures
        in_change_order(sorted(entries)),
        sorted(entries).to_multiset() == entries.to_multiset(),
        sorted(entries).len() == entries.len(),
    decreases entries.len(),
{
    broadcast use vstd::seq_lib::group_to_multiset_ensures;

    if entries.len() > 0 {
        sorted_batch_is_ordered(entries.drop_last());
        lemma_inserted_keeps_order(sorted(entries.drop_last()), entries.last());
        assert(entries =~= entries.drop_last().push(entries.last()));
    } else {
        assert(entries =~= Seq::empty());
    }
}

/// Whether a log holds a change with the key of this entry.
fn is_known(local: &[ChangeEntry], entry: &ChangeEntry) -> (r: bool)
    ensures
        r == holds_key(views(local@), entry@.key()),
{
    let ghost log = views(local@);
    let mut i: usize = 0;
    while i < local.len()
        invariant
            i <= local.len(),
            log == views(local@),
            forall|j: int| 0 <= j < i ==> (#[trigger] log[j]).key() != entry@.key(),
        decreases local.len() - i,
    {
        assert(log[i as int] == local@[i as int]@);
        if local[i].rank_against(entry) == Rank::Same {
            return true;
        }
        i = i + 1;
    }
    false
}

/// For every entry of the sorted batch, whether it is new.
fn fresh_entries(local: &[ChangeEntry], batch: &Vec<&ChangeEntry>) -> (r: Vec<bool>)
    requires
        in_change_order(ref_views(batch@)),
    ensures
        r@.len() == batch@.len(),
        forall|i: int|
            0 <= i < r@.len() ==> (#[trigger] r@[i]) == fresh(
                views(local@),
                ref_views(batch@),
                i,
            ),
{
    let ghost log = views(local@);
    let ghost all = ref_views(batch@);
    let mut flags: Vec<bool> = Vec::new();
    let mut i: usize = 0;
    while i < batch.len()
        invariant
            i <= batch.len(),
            log == views(local@),
            all == ref_views(batch@),
            in_change_order(all),
            flags@.len() == i,
            forall|k: int| 0 <= k < i ==> (#[trigger] flags@[k]) == fresh(log, all, k),
        decreases batch.len() - i,
    {
        assert(all[i as int] == batch@[i as int]@);
        let repeats = i > 0 && batch[i - 1].rank_against(batch[i]) == Rank::Same;
        proof {
            key_order_is_total();
            if i > 0 {
                assert(all[i - 1] == batch@[i - 1]@);
                assert forall|j: int| 0 <= j < i && (#[trigger] all[j]).key() == all[i as int].key() implies
                    all[i - 1].key() == all[i as int].key() by {
                    if j < i - 1 {
                        assert(!key_before(all[i - 1].key(), all[j].key()));
                        assert(!key_before(all[i as int].key(), all[i - 1].key()));
                    }
                }
            }
        }
        flags.push(!repeats && !is_known(local, batch[i]));
        i = i + 1;
    }
    flags
}

/// Everything that competes for one row.
fn gather<'a>(
    local: &'a [ChangeEntry],
    batch: &Vec<&'a ChangeEntry>,
    flags: &Vec<bool>,
    table: &ChangeTable,
    row_id: &str,
) -> (r: Vec<Candidate<'a>>)
    requires
        flags@.len() == batch@.len(),
        forall|i: int|
            0 <= i < flags@.len() ==> (#[trigger] flags@[i]) == fresh(
                views(local@),
                ref_views(batch@),
                i,
            ),
    ensures
        candidate_views(r@) == row_candidates(
            views(local@),
            ref_views(batch@),
            *table,
            row_id@,
        ),
{
    let ghost log = views(local@);
    let ghost all = ref_views(batch@);
    let mut found: Vec<Candidate<'a>> = Vec::new();
    let mut i: usize = 0;
    assert(candidate_views(found@) =~= Seq::empty());
    while i < batch.len()
        invariant
            i <= batch.len(),
            log == views(local@),
            all == ref_views(batch@),
            flags@.len() == batch@.len(),
            forall|k: int| 0 <= k < flags@.len() ==> (#[trigger] flags@[k]) == fresh(log, all, k),
            candidate_views(found@) == remote_candidates(log, all, i as int, *table, row_id@),
        decreases batch.len() - i,
    {
        assert(all[i as int] == batch@[i as int]@);
        if flags[i] && batch[i].is_on_row(table, row_id) {
            let ghost before = candidate_views(found@);
            let candidate = Candidate { entry: batch[i], order_index: Some(i) };
            found.push(candidate);
            assert(candidate_views(found@) =~= before.push(candidate@));
        }
        i = i + 1;
    }
    let ghost remote_part = candidate_views(found@);
    let mut k: usize = 0;
    assert(log.take(0) =~= Seq::empty());
    assert(candidate_views(found@) =~= remote_part + local_candidates(
        log.take(0),
        *table,
        row_id@,
    ));
    while k < local.len()
        invariant
            k <= local.len(),
            log == views(local@),
            candidate_views(found@) == remote_part + local_candidates(
                log.take(k as int),
                *table,
                row_id@,
            ),
        decreases local.len() - k,
    {
        assert(log.take(k + 1).drop_last() =~= log.take(k as int));
        assert(log.take(k + 1).last() == local@[k as int]@);
        if local[k].is_on_row(table, row_id) {
            let ghost before = candidate_views(found@);
            let candidate = Candidate { entry: &local[k], order_index: None };
            found.push(candidate);
            assert(candidate_views(found@) =~= before.push(candidate@));
            assert(candidate_views(found@) =~= remote_part + local_candidates(
                log.take(k + 1),
                *table,
                row_id@,
            ));
        }
        k = k + 1;
    }
    assert(log.take(k as int) =~= log);
    found
}

/// Whether a log leaves a row deleted.
pub open spec fn stays_deleted(
    log: Seq<EntryView>,
    table: ChangeTable,
    row_id: Seq<char>,
) -> bool {
    resolved(table, local_candidates(log, table, row_id)).deleted() is Some
}

/// Whether `entries` leave this row deleted, so that generating it from a
/// recurring template would bring back a row the user removed.
///
/// A generated upsert above the delete does not revive the row; an ordinary
/// upsert above it does.
pub fn generated_row_stays_deleted(
    entries: &[ChangeEntry],
    table: &ChangeTable,
    row_id: &str,
) -> (r: bool)
    ensures
        r == stays_deleted(views(entries@), *table, row_id@),
{
    let none: Vec<&ChangeEntry> = Vec::new();
    let flags: Vec<bool> = Vec::new();
    let candidates = gather(entries, &none, &flags, table, row_id);
    assert(candidate_views(candidates@) =~= local_candidates(views(entries@), *table, row_id@));
    let state = RowState::resolve(table, &candidates);
    state.deleted.is_some()
}

proof fn lemma_remote_candidates(
    local: Seq<EntryView>,
    batch: Seq<EntryView>,
    n: int,
    table: ChangeTable,
    row_id: Seq<char>,
)
    requires
        0 <= n <= batch.len(),
    ensures
        forall|p: int|
            0 <= p < remote_candidates(local, batch, n, table, row_id).len() ==> {
                let c = #[trigger] remote_candidates(local, batch, n, table, row_id)[p];
                &&& c.order_index is Some
                &&& 0 <= c.order_index->0 < n
                &&& fresh(local, batch, c.order_index->0)
                &&& c.entry == batch[c.order_index->0]
                &&& c.entry.on_row(table, row_id)
            },
        forall|k: int|
            0 <= k < n && fresh(local, batch, k) && (#[trigger] batch[k]).on_row(table, row_id)
                ==> remote_candidates(local, batch, n, table, row_id).contains(
                CandidateView { entry: batch[k], order_index: Some(k) },
            ),
    decreases n,
{
    if n > 0 {
        lemma_remote_candidates(local, batch, n - 1, table, row_id);
        let rest = remote_candidates(local, batch, n - 1, table, row_id);
        let all = remote_candidates(local, batch, n, table, row_id);
        assert forall|p: int| 0 <= p < all.len() implies {
            let c = #[trigger] all[p];
            &&& c.order_index is Some
            &&& 0 <= c.order_index->0 < n
            &&& fresh(local, batch, c.order_index->0)
            &&& c.entry == batch[c.order_index->0]
            &&& c.entry.on_row(table, row_id)
        } by {
            if p < rest.len() {
                assert(all[p] == rest[p]);
            }
        }
        assert forall|k: int|
            0 <= k < n && fresh(local, batch, k) && (#[trigger] batch[k]).on_row(
                table,
                row_id,
            ) implies all.contains(CandidateView { entry: batch[k], order_index: Some(k) }) by {
            let c = CandidateView { entry: batch[k], order_index: Some(k) };
            if k < n - 1 {
                assert(rest.contains(c));
                let p = choose|p: int| 0 <= p < rest.len() && rest[p] == c;
                assert(all[p] == c);
            } else {
                assert(all[rest.len() as int] == c);
            }
        }
    }
}

pub proof fn lemma_local_candidates(local: Seq<EntryView>, table: ChangeTable, row_id: Seq<char>)
    ensures
        forall|p: int|
            0 <= p < local_candidates(local, table, row_id).len() ==> {
                let c = #[trigger] local_candidates(local, table, row_id)[p];
                &&& c.order_index is None
                &&& c.entry.on_row(table, row_id)
                &&& local.contains(c.entry)
            },
        forall|k: int|
            0 <= k < local.len() && (#[trigger] local[k]).on_row(table, row_id)
                ==> local_candidates(local, table, row_id).contains(
                CandidateView { entry: local[k], order_index: None },
            ),
    decreases local.len(),
{
    if local.len() > 0 {
        let front = local.drop_last();
        lemma_local_candidates(front, table, row_id);
        let rest = local_candidates(front, table, row_id);
        let all = local_candidates(local, table, row_id);
        let n = local.len() - 1;
        assert forall|p: int| 0 <= p < all.len() implies {
            let c = #[trigger] all[p];
            &&& c.order_index is None
            &&& c.entry.on_row(table, row_id)
            &&& local.contains(c.entry)
        } by {
            if p < rest.len() {
                assert(all[p] == rest[p]);
                let k = choose|k: int| 0 <= k < front.len() && front[k] == rest[p].entry;
                assert(local[k] == rest[p].entry);
            } else {
                assert(local[n] == all[p].entry);
            }
        }
        assert forall|k: int|
            0 <= k < local.len() && (#[trigger] local[k]).on_row(table, row_id) implies all.contains(
            CandidateView { entry: local[k], order_index: None },
        ) by {
            let c = CandidateView { entry: local[k], order_index: None };
            if k < n {
                assert(front[k] == local[k]);
                let p = choose|p: int| 0 <= p < rest.len() && rest[p] == c;
                assert(all[p] == c);
            } else {
                assert(all[rest.len() as int] == c);
            }
        }
    }
}

/// Every candidate for a row either comes from the batch, where it is new and
/// concerns the row, or from the log; and every such entry is a candidate.
pub proof fn lemma_row_candidates(
    local: Seq<EntryView>,
    batch: Seq<EntryView>,
    table: ChangeTable,
    row_id: Seq<char>,
)
    ensures
        forall|p: int|
            0 <= p < row_candidates(local, batch, table, row_id).len() ==> {
                let c = #[trigger] row_candidates(local, batch, table, row_id)[p];
                &&& c.entry.on_row(table, row_id)
                &&& c.order_index is Some ==> {
                    &&& 0 <= c.order_index->0 < batch.len()
                    &&& fresh(local, batch, c.order_index->0)
                    &&& c.entry == batch[c.order_index->0]
                }
                &&& c.order_index is None ==> local.contains(c.entry)
            },
        forall|k: int|
            0 <= k < batch.len() && fresh(local, batch, k) && (#[trigger] batch[k]).on_row(
                table,
                row_id,
            ) ==> row_candidates(local, batch, table, row_id).contains(
                CandidateView { entry: batch[k], order_index: Some(k) },
            ),
        forall|k: int|
            0 <= k < local.len() && (#[trigger] local[k]).on_row(table, row_id) ==> row_candidates(
                local,
                batch,
                table,
                row_id,
            ).contains(CandidateView { entry: local[k], order_index: None }),
{
    lemma_remote_candidates(local, batch, batch.len() as int, table, row_id);
    lemma_local_candidates(local, table, row_id);
    let a = remote_candidates(local, batch, batch.len() as int, table, row_id);
    let b = local_candidates(local, table, row_id);
    let all = row_candidates(local, batch, table, row_id);
    assert forall|k: int|
        0 <= k < batch.len() && fresh(local, batch, k) && (#[trigger] batch[k]).on_row(
            table,
            row_id,
        ) implies all.contains(CandidateView { entry: batch[k], order_index: Some(k) }) by {
        let c = CandidateView { entry: batch[k], order_index: Some(k) };
        let p = choose|p: int| 0 <= p < a.len() && a[p] == c;
        assert(all[p] == c);
    }
    assert forall|k: int|
        0 <= k < local.len() && (#[trigger] local[k]).on_row(table, row_id) implies all.contains(
        CandidateView { entry: local[k], order_index: None },
    ) by {
        let c = CandidateView { entry: local[k], order_index: None };
        let p = choose|p: int| 0 <= p < b.len() && b[p] == c;
        assert(all[a.len() + p] == c);
    }
    assert forall|p: int| 0 <= p < all.len() implies {
        let c = #[trigger] all[p];
        &&& c.entry.on_row(table, row_id)
        &&& c.order_index is Some ==> {
            &&& 0 <= c.order_index->0 < batch.len()
            &&& fresh(local, batch, c.order_index->0)
            &&& c.entry == batch[c.order_index->0]
        }
        &&& c.order_index is None ==> local.contains(c.entry)
    } by {
        if p < a.len() {
            assert(all[p] == a[p]);
        } else {
            assert(all[p] == b[p - a.len()]);
        }
    }
}

/// Whether the outcomes and writes noted so far are those of the plan: nothing
/// is noted for an entry that is not new, nor a write without an outcome.
spec fn notes_agree(
    local: Seq<EntryView>,
    batch: Seq<EntryView>,
    outcomes: Seq<Option<MergeOutcome>>,
    writes: Seq<Option<RowAction>>,
) -> bool {
    &&& outcomes.len() == batch.len()
    &&& writes.len() == batch.len()
    &&& forall|k: int|
        0 <= k < outcomes.len() && (#[trigger] outcomes[k]) is Some ==> fresh(local, batch, k)
            && outcomes[k]->0@ == outcome_at(local, batch, k)
    &&& forall|k: int|
        0 <= k < writes.len() ==> match #[trigger] writes[k] {
            Some(action) => outcomes[k] is Some && action.in_order() && action_at(local, batch, k)
                == Some(
                ActionView { table: batch[k].table, row_id: batch[k].row_id, action: action@ },
            ),
            None => outcomes[k] is Some ==> action_at(local, batch, k) is None,
        }
}

/// Decide one row: note an outcome for every remote entry touching it, and the
/// write it needs, if any.
fn plan_row(
    Ghost(local): Ghost<Seq<EntryView>>,
    Ghost(batch): Ghost<Seq<EntryView>>,
    table: &ChangeTable,
    Ghost(row_id): Ghost<Seq<char>>,
    candidates: &Vec<Candidate<'_>>,
    outcomes: &mut Vec<Option<MergeOutcome>>,
    writes: &mut Vec<Option<RowAction>>,
)
    requires
        notes_agree(local, batch, old(outcomes)@, old(writes)@),
        candidate_views(candidates@) == row_candidates(local, batch, *table, row_id),
    ensures
        notes_agree(local, batch, final(outcomes)@, final(writes)@),
        forall|k: int|
            0 <= k < batch.len() && (#[trigger] old(outcomes)@[k]) is Some
                ==> final(outcomes)@[k] is Some,
        forall|k: int|
            0 <= k < batch.len() && fresh(local, batch, k) && (#[trigger] batch[k]).on_row(
                *table,
                row_id,
            ) ==> final(outcomes)@[k] is Some,
{
    let ghost all = candidate_views(candidates@);
    let ghost noted = outcomes@;
    proof {
        lemma_row_candidates(local, batch, *table, row_id);
    }
    let state = RowState::resolve(table, candidates);
    let action = state.action();
    let mut applied_index: Option<usize> = None;
    let mut p: usize = 0;
    while p < candidates.len()
        invariant
            p <= candidates.len(),
            all == candidate_views(candidates@),
            all == row_candidates(local, batch, *table, row_id),
            state.wf(),
            state@ == row_state(local, batch, *table, row_id),
            outcomes@.len() == batch.len(),
            noted.len() == batch.len(),
            forall|q: int|
                0 <= q < all.len() ==> {
                    let c = #[trigger] all[q];
                    &&& c.entry.on_row(*table, row_id)
                    &&& c.order_index is Some ==> {
                        &&& 0 <= c.order_index->0 < batch.len()
                        &&& fresh(local, batch, c.order_index->0)
                        &&& c.entry == batch[c.order_index->0]
                    }
                },
            forall|k: int|
                0 <= k < noted.len() && (#[trigger] noted[k]) is Some ==> fresh(local, batch, k)
                    && noted[k]->0@ == outcome_at(local, batch, k),
            forall|k: int|
                0 <= k < outcomes@.len() ==> {
                    ||| (#[trigger] outcomes@[k]) == noted[k]
                    ||| outcomes@[k] is Some && fresh(local, batch, k) && outcomes@[k]->0@
                        == outcome_at(local, batch, k) && batch[k].on_row(*table, row_id)
                },
            forall|k: int| #![trigger outcomes@[k]]
                0 <= k < outcomes@.len() && noted[k] is Some ==> outcomes@[k] is Some,
            forall|q: int|
                0 <= q < p && (#[trigger] all[q]).order_index is Some
                    ==> outcomes@[all[q].order_index->0] is Some,
            match applied_index {
                Some(i) => 0 <= i < batch.len() && fresh(local, batch, i as int) && batch[i as int].on_row(
                    *table,
                    row_id,
                ) && outcome_at(local, batch, i as int) is Applied && outcomes@[i as int] is Some,
                None => true,
            },
            forall|q: int|
                0 <= q < p && (#[trigger] all[q]).order_index is Some && outcome_at(
                    local,
                    batch,
                    all[q].order_index->0,
                ) is Applied ==> applied_index is Some && all[q].order_index->0
                    <= applied_index->0,
        decreases candidates.len() - p,
    {
        let candidate = candidates[p];
        assert(all[p as int] == candidate@);
        if let Some(index) = candidate.order_index {
            let outcome = state.outcome_for(candidate);
            assert(outcome@ == outcome_at(local, batch, index as int));
            if let MergeOutcome::Applied = &outcome {
                let later = match applied_index {
                    Some(i) => i < index,
                    None => true,
                };
                if later {
                    applied_index = Some(index);
                }
            }
            outcomes.set(index, Some(outcome));
        }
        p = p + 1;
    }
    proof {
        assert forall|k: int|
            0 <= k < batch.len() && fresh(local, batch, k) && (#[trigger] batch[k]).on_row(
                *table,
                row_id,
            ) implies outcomes@[k] is Some && (outcome_at(local, batch, k) is Applied
            ==> applied_index is Some && k <= applied_index->0) by {
            let c = CandidateView { entry: batch[k], order_index: Some(k) };
            let q = choose|q: int| 0 <= q < all.len() && all[q] == c;
            assert(all[q].order_index == Some(k));
        }
        assert forall|k: int|
            0 <= k < batch.len() && fresh(local, batch, k) && (#[trigger] batch[k]).on_row(
                *table,
                row_id,
            ) implies (last_applied(local, batch, k) <==> applied_index == Some(k as usize)) by {
            if applied_index == Some(k as usize) {
                assert forall|j: int|
                    k < j < batch.len() && (#[trigger] batch[j]).on_row(
                        batch[k].table,
                        batch[k].row_id,
                    ) implies !(outcome_at(local, batch, j) is Applied) by {
                    if fresh(local, batch, j) {
                        assert(batch[j].on_row(*table, row_id));
                    }
                }
            } else if last_applied(local, batch, k) {
                assert(batch[applied_index->0 as int].on_row(batch[k].table, batch[k].row_id));
            }
        }
    }
    let ghost written = writes@;
    if let (Some(index), Some(action)) = (applied_index, action) {
        writes.set(index, Some(action));
    }
    proof {
        assert forall|k: int| 0 <= k < writes@.len() implies match #[trigger] writes@[k] {
            Some(action) => outcomes@[k] is Some && action.in_order() && action_at(local, batch, k)
                == Some(
                ActionView { table: batch[k].table, row_id: batch[k].row_id, action: action@ },
            ),
            None => outcomes@[k] is Some ==> action_at(local, batch, k) is None,
        } by {
            if fresh(local, batch, k) && batch[k].on_row(*table, row_id) {
                assert(last_applied(local, batch, k) <==> applied_index == Some(k as usize));
                if applied_index != Some(k as usize) {
                    assert(writes@[k] == written[k]);
                }
            } else {
                assert(writes@[k] == written[k]);
                assert(outcomes@[k] == noted[k]);
            }
        }
    }
}

/// Merge `remote`, a batch of changes from another device, against `local`,
/// this device's change log.
pub fn plan_merge(local: &[ChangeEntry], remote: &[ChangeEntry]) -> (r: MergePlan)
    ensures
        r@ == plan_of(views(local@), views(remote@)),
        forall|i: int| 0 <= i < r.actions@.len() ==> (#[trigger] r.actions@[i]).action.in_order(),
{
    let batch = sort_batch(remote);
    let ghost log = views(local@);
    let ghost all = ref_views(batch@);
    proof {
        sorted_batch_is_ordered(views(remote@));
    }
    let flags = fresh_entries(local, &batch);
    let mut outcomes: Vec<Option<MergeOutcome>> = Vec::new();
    let mut writes: Vec<Option<RowAction>> = Vec::new();
    let mut n: usize = 0;
    while n < batch.len()
        invariant
            n <= batch.len(),
            outcomes@.len() == n,
            writes@.len() == n,
            forall|k: int| 0 <= k < n ==> (#[trigger] outcomes@[k]) is None,
            forall|k: int| 0 <= k < n ==> (#[trigger] writes@[k]) is None,
        decreases batch.len() - n,
    {
        outcomes.push(None);
        writes.push(None);
        n = n + 1;
    }
    let mut i: usize = 0;
    while i < batch.len()
        invariant
            i <= batch.len(),
            log == views(local@),
            all == ref_views(batch@),
            flags@.len() == batch@.len(),
            forall|k: int| 0 <= k < flags@.len() ==> (#[trigger] flags@[k]) == fresh(log, all, k),
            notes_agree(log, all, outcomes@, writes@),
            forall|k: int|
                0 <= k < i && fresh(log, all, k) ==> (#[trigger] outcomes@[k]) is Some,
        decreases batch.len() - i,
    {
        assert(all[i as int] == batch@[i as int]@);
        if flags[i] && outcomes[i].is_none() {
            let entry = batch[i];
            let candidates = gather(local, &batch, &flags, &entry.table, entry.row_id.as_str());
            let ghost before = outcomes@;
            plan_row(
                Ghost(log),
                Ghost(all),
                &entry.table,
                Ghost(entry.row_id@),
                &candidates,
                &mut outcomes,
                &mut writes,
            );
            proof {
                assert(all[i as int].on_row(entry.table, entry.row_id@));
                assert forall|k: int| 0 <= k < i + 1 && fresh(log, all, k) implies (
                #[trigger] outcomes@[k]) is Some by {
                    if k < i {
                        assert(before[k] is Some);
                    }
                }
            }
        }
        i = i + 1;
    }
    finish_plan(Ghost(log), &batch, &flags, &outcomes, &writes)
}

/// Put the decisions, the writes and the counts together.
fn finish_plan(
    Ghost(log): Ghost<Seq<EntryView>>,
    batch: &Vec<&ChangeEntry>,
    flags: &Vec<bool>,
    outcomes: &Vec<Option<MergeOutcome>>,
    writes: &Vec<Option<RowAction>>,
) -> (r: MergePlan)
    requires
        flags@.len() == batch@.len(),
        forall|k: int|
            0 <= k < flags@.len() ==> (#[trigger] flags@[k]) == fresh(log, ref_views(batch@), k),
        notes_agree(log, ref_views(batch@), outcomes@, writes@),
        forall|k: int|
            0 <= k < batch@.len() && fresh(log, ref_views(batch@), k)
                ==> (#[trigger] outcomes@[k]) is Some,
    ensures
        r@.decisions == decisions_of(log, ref_views(batch@)),
        r@.actions == actions_upto(log, ref_views(batch@), batch@.len() as int),
        r@.summary == (SummaryView {
            remote_entries: batch@.len(),
            applied: r@.decisions.filter(applied()).len(),
            already_known: r@.decisions.filter(already_known()).len(),
            skipped: r@.decisions.filter(skipped()).len(),
            unplaceable: r@.decisions.filter(unplaceable()).len(),
            rows_changed: r@.actions.len(),
            max_remote_stamp: latest_stamp(ref_views(batch@)),
        }),
        forall|i: int| 0 <= i < r.actions@.len() ==> (#[trigger] r.actions@[i]).action.in_order(),
{
    let ghost all = ref_views(batch@);
    let ghost want = decisions_of(log, all);
    let mut decisions: Vec<MergeDecision> = Vec::new();
    let mut actions: Vec<MergeAction> = Vec::new();
    let mut applied_count: usize = 0;
    let mut known_count: usize = 0;
    let mut skipped_count: usize = 0;
    let mut unplaceable_count: usize = 0;
    let mut max_remote_stamp: Option<Hlc> = None;
    let mut i: usize = 0;
    proof {
        reveal(Seq::filter);
        assert(want.take(0) =~= Seq::empty());
        assert(all.take(0) =~= Seq::empty());
        assert(Seq::new(actions@.len(), |k: int| actions@[k]@) =~= Seq::empty());
    }
    while i < batch.len()
        invariant
            i <= batch.len(),
            all == ref_views(batch@),
            want == decisions_of(log, all),
            flags@.len() == batch@.len(),
            forall|k: int| 0 <= k < flags@.len() ==> (#[trigger] flags@[k]) == fresh(log, all, k),
            notes_agree(log, all, outcomes@, writes@),
            forall|k: int|
                0 <= k < batch@.len() && fresh(log, all, k) ==> (#[trigger] outcomes@[k]) is Some,
            decisions@.len() == i,
            forall|k: int| 0 <= k < i ==> (#[trigger] decisions@[k])@ == want[k],
            actions@.len() <= i,
            Seq::new(actions@.len(), |k: int| actions@[k]@) == actions_upto(log, all, i as int),
            forall|k: int| 0 <= k < actions@.len() ==> (#[trigger] actions@[k]).action.in_order(),
            applied_count == want.take(i as int).filter(applied()).len(),
            known_count == want.take(i as int).filter(already_known()).len(),
            skipped_count == want.take(i as int).filter(skipped()).len(),
            unplaceable_count == want.take(i as int).filter(unplaceable()).len(),
            applied_count <= i,
            known_count <= i,
            skipped_count <= i,
            unplaceable_count <= i,
            max_remote_stamp == latest_stamp(all.take(i as int)),
        decreases batch.len() - i,
    {
        assert(all[i as int] == batch@[i as int]@);
        proof {
            assert(want.take(i + 1) =~= want.take(i as int).push(want[i as int]));
            want.take(i as int).lemma_filter_len_push(applied(), want[i as int]);
            want.take(i as int).lemma_filter_len_push(already_known(), want[i as int]);
            want.take(i as int).lemma_filter_len_push(skipped(), want[i as int]);
            want.take(i as int).lemma_filter_len_push(unplaceable(), want[i as int]);
            assert(all.take(i + 1).drop_last() =~= all.take(i as int));
            assert(all.take(i + 1).last() == all[i as int]);
        }
        let outcome = match (flags[i], &outcomes[i]) {
            (true, Some(outcome)) => outcome.clone(),
            _ => MergeOutcome::AlreadyKnown,
        };
        assert(outcome@ == outcome_at(log, all, i as int));
        match &outcome {
            MergeOutcome::Applied => {
                applied_count = applied_count + 1;
            },
            MergeOutcome::AlreadyKnown => {
                known_count = known_count + 1;
            },
            MergeOutcome::Skipped(_) => {
                skipped_count = skipped_count + 1;
            },
            MergeOutcome::Unplaceable => {
                unplaceable_count = unplaceable_count + 1;
            },
        }
        let stamp = batch[i].stamp;
        let later = match max_remote_stamp {
            Some(latest) => latest.is_before(&stamp),
            None => true,
        };
        if later {
            max_remote_stamp = Some(stamp);
        }
        decisions.push(MergeDecision { entry: batch[i].clone(), outcome });
        let ghost before = Seq::new(actions@.len(), |k: int| actions@[k]@);
        match &writes[i] {
            Some(action) => {
                actions.push(
                    MergeAction {
                        table: batch[i].table,
                        row_id: batch[i].row_id.clone(),
                        action: action.clone(),
                    },
                );
                assert(Seq::new(actions@.len(), |k: int| actions@[k]@) =~= before.push(
                    actions@.last()@,
                ));
            },
            None => {
                assert(action_at(log, all, i as int) is None);
            },
        }
        i = i + 1;
    }
    proof {
        assert(want.take(i as int) =~= want);
        assert(all.take(i as int) =~= all);
    }
    let summary = MergeSummary {
        remote_entries: decisions.len(),
        applied: applied_count,
        already_known: known_count,
        skipped: skipped_count,
        unplaceable: unplaceable_count,
        rows_changed: actions.len(),
        max_remote_stamp,
    };
    let r = MergePlan { decisions, actions, summary };
    assert(r@.decisions =~= want);
    r
}

impl PlanView {
    /// The entries to append to this device's log: every entry it did not have.
    pub open spec fn to_store(self) -> Seq<EntryView> {
        stored_entries(self.decisions)
    }
}

/// The entries of the decisions that are not already known, in order.
pub open spec fn stored_entries(decisions: Seq<DecisionView>) -> Seq<EntryView>
    decreases decisions.len(),
{
    if decisions.len() == 0 {
        Seq::empty()
    } else {
        let rest = stored_entries(decisions.drop_last());
        if decisions.last().outcome is AlreadyKnown {
            rest
        } else {
            rest.push(decisions.last().entry)
        }
    }
}

impl MergePlan {
    /// The entries to append to this device's log, verbatim and in order: every
    /// entry the device did not have, whether it was applied or skipped.
    pub fn entries_to_store(&self) -> (r: Vec<&ChangeEntry>)
        ensures
            ref_views(r@) == self@.to_store(),
    {
        let mut kept: Vec<&ChangeEntry> = Vec::new();
        let ghost all = self@.decisions;
        let mut i: usize = 0;
        assert(all.take(0) =~= Seq::empty());
        assert(ref_views(kept@) =~= Seq::empty());
        while i < self.decisions.len()
            invariant
                i <= self.decisions.len(),
                all == self@.decisions,
                ref_views(kept@) == stored_entries(all.take(i as int)),
            decreases self.decisions.len() - i,
        {
            assert(all.take(i + 1).drop_last() =~= all.take(i as int));
            assert(all.take(i + 1).last() == self.decisions@[i as int]@);
            let known = match &self.decisions[i].outcome {
                MergeOutcome::AlreadyKnown => true,
                _ => false,
            };
            if !known {
                let ghost before = ref_views(kept@);
                kept.push(&self.decisions[i].entry);
                assert(ref_views(kept@) =~= before.push(self.decisions@[i as int].entry@));
            }
            i = i + 1;
        }
        assert(all.take(i as int) =~= all);
        kept
    }

    /// Whether carrying out this plan would write nothing at all, to the data
    /// or to the log.
    pub fn changes_nothing(&self) -> (r: bool)
        ensures
            r == (self@.actions.len() == 0 && self@.to_store().len() == 0),
    {
        self.actions.len() == 0 && self.entries_to_store().len() == 0
    }
}

} // verus!
