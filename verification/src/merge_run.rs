//! A merge from start to end, in stages that follow one another: every change is
//! applied in memory, then every table that changed is written, and only then are
//! the entries of the other device stored. Loading, adding up, writing and storing
//! are left to the caller.

use vstd::prelude::*;
use crate::error::{Error, ErrorView};
use crate::merge::{plan_merge, plan_of, MergeAction, MergePlan};
use crate::merge_apply::{file_key, listed, FileKey};
use crate::merge_files::{is_loaded, slot_of, total_to_write, Prepared, PreparedFiles, PreparedView};
use crate::sync::{views, ChangeEntry};
use crate::table::Table;

verus! {

/// How far the changes of a plan can be applied.
pub enum Progress {
    /// A file has to be loaded before the change at a position.
    Needs { files: Seq<PreparedView>, at: int, key: FileKey },
    /// A change does not fit.
    Failed(ErrorView),
    /// Every change is applied.
    Ready(Seq<PreparedView>),
}

/// A change to the settings among changes to tables.
pub open spec fn settings_error() -> ErrorView {
    ErrorView::MergeRejected(
        "a change to the settings cannot be applied to a table, so the batch was not applied"@,
    )
}

/// How far the changes from a position on can be applied to the files loaded.
pub open spec fn applied(files: Seq<PreparedView>, actions: Seq<MergeAction>, at: int) -> Progress
    decreases actions.len() - at,
{
    if !(0 <= at < actions.len()) {
        Progress::Ready(files)
    } else {
        let action = actions[at];
        match file_key(action.table) {
            None => Progress::Failed(settings_error()),
            Some(key) => if !is_loaded(files, key) {
                Progress::Needs { files, at, key }
            } else {
                let slot = slot_of(files, key);
                match files[slot].after(action.table, action.row_id@, listed(action.action)) {
                    Err(e) => Progress::Failed(e),
                    Ok(file) => applied(files.update(slot, file), actions, at + 1),
                }
            },
        }
    }
}

/// The first stage: the changes of a plan are applied in memory.
pub struct Preparing {
    plan: MergePlan,
    files: PreparedFiles,
    at: usize,
}

/// What the first stage waits for.
pub enum PrepareStep {
    /// A file has to be loaded; the stage goes on with [`Preparing::loaded`].
    Load { run: Preparing, key: FileKey },
    /// Every change is applied.
    Ready { run: Summing },
}

impl Preparing {
    /// The plan that is carried out.
    pub closed spec fn plan(self) -> MergePlan {
        self.plan
    }

    /// The files loaded so far.
    pub closed spec fn files(self) -> Seq<PreparedView> {
        self.files@
    }

    /// The position of the next change.
    pub closed spec fn at(self) -> int {
        self.at as int
    }

    /// Begin to merge a batch of changes from another device.
    pub fn start(local: &[ChangeEntry], remote: &[ChangeEntry]) -> (r: Self)
        ensures
            r.plan()@ == plan_of(views(local@), views(remote@)),
            r.files() == Seq::<PreparedView>::empty(),
            r.at() == 0,
    {
        Preparing { plan: plan_merge(local, remote), files: PreparedFiles::new(), at: 0 }
    }

    /// What the merge does.
    pub fn plan_ref(&self) -> (r: &MergePlan)
        ensures
            *r == self.plan(),
    {
        &self.plan
    }

    /// Apply changes until a file is missing or all are applied. On an error nothing
    /// has been written.
    pub fn go_on(self) -> (r: Result<PrepareStep, Error>)
        ensures
            match applied(self.files(), self.plan().actions@, self.at()) {
                Progress::Failed(e) => r matches Err(error) && error@ == e,
                Progress::Needs { files, at, key } => r matches Ok(
                    PrepareStep::Load { run, key: wanted },
                ) && run.plan() == self.plan() && run.files() == files && run.at() == at && wanted
                    == key && !is_loaded(files, key),
                Progress::Ready(files) => r matches Ok(PrepareStep::Ready { run }) && run.plan()
                    == self.plan() && run.files() == files && run.at() == 0,
            },
    {
        let Preparing { plan, files, at } = self;
        let mut files = files;
        let mut at: usize = at;
        while at < plan.actions.len()
            invariant
                plan == self.plan(),
                applied(files@, plan.actions@, at as int) == applied(
                    self.files(),
                    self.plan().actions@,
                    self.at(),
                ),
            decreases plan.actions.len() - at,
        {
            let action = &plan.actions[at];
            if FileKey::of(&action.table).is_none() {
                return Err(
                    Error::MergeRejected(
                        "a change to the settings cannot be applied to a table, so the batch was not applied".to_owned(),
                    ),
                );
            }
            if let Some(key) = files.missing(action) {
                return Ok(PrepareStep::Load { run: Preparing { plan, files, at }, key });
            }
            match files.carry_out(action) {
                Ok(()) => {},
                Err(e) => return Err(e),
            }
            at = at + 1;
        }
        Ok(PrepareStep::Ready { run: Summing { plan, files, at: 0 } })
    }

    /// Add a file that was missing.
    pub fn loaded(self, file: Prepared) -> (r: Self)
        requires
            !is_loaded(self.files(), file@.key),
        ensures
            r.plan() == self.plan(),
            r.files() == self.files().push(file@),
            r.at() == self.at(),
    {
        let Preparing { plan, files, at } = self;
        let mut files = files;
        files.add(file);
        Preparing { plan, files, at }
    }
}

/// The first file from a position on whose income has to be added up again.
pub open spec fn next_sum(files: Seq<PreparedView>, at: int) -> Option<int>
    decreases files.len() - at,
{
    if !(0 <= at < files.len()) {
        None
    } else if files[at].key is Cashflow && files[at].changed {
        Some(at)
    } else {
        next_sum(files, at + 1)
    }
}

/// The second stage: the income of the cashflow tables that changed is added up.
pub struct Summing {
    plan: MergePlan,
    files: PreparedFiles,
    at: usize,
}

/// What the second stage waits for.
pub enum SumStep {
    /// The income of a file has to be added up; the stage goes on with
    /// [`Summing::summed`].
    Sum { run: Summing, file: usize },
    /// Nothing is left to add up.
    Ready { run: Writing },
}

impl Summing {
    /// The plan that is carried out.
    pub closed spec fn plan(self) -> MergePlan {
        self.plan
    }

    /// The files that were loaded.
    pub closed spec fn files(self) -> Seq<PreparedView> {
        self.files@
    }

    /// The position of the next file.
    pub closed spec fn at(self) -> int {
        self.at as int
    }

    /// A file that was loaded.
    pub fn file_at(&self, i: usize) -> (r: &Prepared)
        requires
            i < self.files().len(),
        ensures
            r@ == self.files()[i as int],
    {
        self.files.file_at(i)
    }

    /// Find the next income to add up, or go over to writing.
    pub fn go_on(self) -> (r: SumStep)
        requires
            0 <= self.at() <= self.files().len(),
            2 * self.files().len() <= usize::MAX,
        ensures
            match next_sum(self.files(), self.at()) {
                Some(i) => r matches SumStep::Sum { run, file } && run.plan() == self.plan()
                    && run.files() == self.files() && run.at() == i && file == i && i
                    < self.files().len(),
                None => r matches SumStep::Ready { run } && run.plan() == self.plan()
                    && run.files() == self.files() && run.writes() == writes_of(
                    self.files(),
                    self.files().len() as int,
                ) && run.done() == 0,
            },
    {
        let Summing { plan, files, at } = self;
        let mut at: usize = at;
        while at < files.len()
            invariant
                at <= files@.len(),
                plan == self.plan(),
                files@ == self.files(),
                next_sum(files@, at as int) == next_sum(self.files(), self.at()),
            decreases files@.len() - at,
        {
            if files.file_at(at).needs_income() {
                return SumStep::Sum { run: Summing { plan, files, at }, file: at };
            }
            at = at + 1;
        }
        let writes = list_writes(&files);
        SumStep::Ready { run: Writing { plan, files, writes, done: 0 } }
    }

    /// Give a file its table with the income added up.
    pub fn summed(self, main: Table) -> (r: Self)
        requires
            0 <= self.at() < self.files().len(),
        ensures
            r.plan() == self.plan(),
            r.files() == self.files().update(
                self.at(),
                PreparedView { main: main@, ..self.files()[self.at()] },
            ),
            r.at() == self.at() + 1,
    {
        let Summing { plan, files, at } = self;
        let mut files = files;
        files.replace_main(at, main);
        let len: usize = files.len();
        assert(at < len);
        Summing { plan, files, at: at + 1 }
    }
}

/// One table to write: the main table of a file, or its prices.
#[derive(Clone, Copy, Debug, PartialEq, Eq, Structural)]
pub struct FileWrite {
    pub file: usize,
    pub prices: bool,
}

/// The tables of one file to write.
pub open spec fn file_writes(file: PreparedView, i: int) -> Seq<(int, bool)> {
    (if file.changed {
        seq![(i, false)]
    } else {
        Seq::empty()
    }) + (if file.prices_changed && file.key is Investments {
        seq![(i, true)]
    } else {
        Seq::empty()
    })
}

/// The tables of the first `n` files to write, in order.
pub open spec fn writes_of(files: Seq<PreparedView>, n: int) -> Seq<(int, bool)>
    decreases n,
{
    if n <= 0 {
        Seq::empty()
    } else {
        writes_of(files, n - 1) + file_writes(files[n - 1], n - 1)
    }
}

/// What a list of writes says.
pub open spec fn write_views(writes: Seq<FileWrite>) -> Seq<(int, bool)> {
    Seq::new(writes.len(), |k: int| (writes[k].file as int, writes[k].prices))
}

fn list_writes(files: &PreparedFiles) -> (r: Vec<FileWrite>)
    requires
        2 * files@.len() <= usize::MAX,
    ensures
        write_views(r@) == writes_of(files@, files@.len() as int),
{
    let mut writes: Vec<FileWrite> = Vec::new();
    let mut i: usize = 0;
    assert(write_views(writes@) =~= Seq::empty());
    while i < files.len()
        invariant
            i <= files@.len(),
            write_views(writes@) == writes_of(files@, i as int),
        decreases files@.len() - i,
    {
        let ghost before = write_views(writes@);
        let file = files.file_at(i);
        if file.changed {
            writes.push(FileWrite { file: i, prices: false });
        }
        if file.prices_changed && matches!(file.key, FileKey::Investments(_)) {
            writes.push(FileWrite { file: i, prices: true });
        }
        assert(write_views(writes@) =~= before + file_writes(files@[i as int], i as int));
        i = i + 1;
    }
    writes
}

/// The last stage: the tables that changed are written, one after the other.
pub struct Writing {
    plan: MergePlan,
    files: PreparedFiles,
    writes: Vec<FileWrite>,
    done: usize,
}

impl Writing {
    /// The plan that is carried out.
    pub closed spec fn plan(self) -> MergePlan {
        self.plan
    }

    /// The files as they are written.
    pub closed spec fn files(self) -> Seq<PreparedView> {
        self.files@
    }

    /// The tables to write, in order.
    pub closed spec fn writes(self) -> Seq<(int, bool)> {
        write_views(self.writes@)
    }

    /// How many of them are written.
    pub closed spec fn done(self) -> int {
        self.done as int
    }

    /// A file that was loaded.
    pub fn file_at(&self, i: usize) -> (r: &Prepared)
        requires
            i < self.files().len(),
        ensures
            r@ == self.files()[i as int],
    {
        self.files.file_at(i)
    }

    /// The next table to write. None once all are written: then the entries of the
    /// plan may be stored.
    pub fn next(&self) -> (r: Option<FileWrite>)
        ensures
            match r {
                Some(write) => self.done() < self.writes().len() && (write.file as int, write.prices)
                    == self.writes()[self.done()],
                None => self.done() >= self.writes().len(),
            },
    {
        if self.done < self.writes.len() {
            Some(self.writes[self.done])
        } else {
            None
        }
    }

    /// Note that the next table was written.
    pub fn wrote(self) -> (r: Self)
        requires
            self.done() < self.writes().len(),
        ensures
            r.plan() == self.plan(),
            r.files() == self.files(),
            r.writes() == self.writes(),
            r.done() == self.done() + 1,
    {
        let Writing { plan, files, writes, done } = self;
        let len: usize = writes.len();
        assert(done < len);
        Writing { plan, files, writes, done: done + 1 }
    }

    /// End the merge: the plan, whose entries are to be stored now, and the number of
    /// tables that were written.
    pub fn finish(self) -> (r: (MergePlan, usize))
        requires
            self.done() == self.writes().len(),
        ensures
            r.0 == self.plan(),
            r.1 == self.writes().len(),
    {
        let Writing { plan, writes, .. } = self;
        let written: usize = writes.len();
        (plan, written)
    }
}

proof fn lemma_writes(files: Seq<PreparedView>, n: int)
    requires
        0 <= n <= files.len(),
    ensures
        writes_of(files, n).len() == total_to_write(files, n),
        forall|k: int|
            0 <= k < writes_of(files, n).len() ==> 0 <= (#[trigger] writes_of(files, n)[k]).0 < n,
        forall|i: int|
            0 <= i < n && (#[trigger] files[i]).changed ==> writes_of(files, n).contains((i, false)),
        forall|i: int|
            0 <= i < n && (#[trigger] files[i]).prices_changed && files[i].key is Investments
                ==> writes_of(files, n).contains((i, true)),
        writes_of(files, n).no_duplicates(),
    decreases n,
{
    if n > 0 {
        lemma_writes(files, n - 1);
        let before = writes_of(files, n - 1);
        let added = file_writes(files[n - 1], n - 1);
        let all = before + added;
        assert forall|i: int| 0 <= i < n && (#[trigger] files[i]).changed implies all.contains(
            (i, false),
        ) by {
            if i < n - 1 {
                let k = choose|k: int| 0 <= k < before.len() && before[k] == (i, false);
                assert(all[k] == (i, false));
            } else {
                assert(all[before.len() as int] == (i, false));
            }
        }
        assert forall|i: int|
            0 <= i < n && (#[trigger] files[i]).prices_changed
                && files[i].key is Investments implies all.contains((i, true)) by {
            if i < n - 1 {
                let k = choose|k: int| 0 <= k < before.len() && before[k] == (i, true);
                assert(all[k] == (i, true));
            } else {
                assert(all[all.len() - 1] == (i, true));
            }
        }
    }
}

/// Every table that changed is written, each once, and no other: when the entries of
/// a plan are stored, the files hold all that they claim.
pub proof fn what_changed_is_written_once(files: Seq<PreparedView>)
    ensures
        ({
            let writes = writes_of(files, files.len() as int);
            &&& writes.no_duplicates()
            &&& writes.len() == total_to_write(files, files.len() as int)
            &&& forall|i: int|
                0 <= i < files.len() && (#[trigger] files[i]).changed ==> writes.contains(
                    (i, false),
                )
            &&& forall|i: int|
                0 <= i < files.len() && (#[trigger] files[i]).prices_changed
                    && files[i].key is Investments ==> writes.contains((i, true))
            &&& forall|i: int| #[trigger]
                writes.contains((i, false)) ==> 0 <= i < files.len() && files[i].changed
            &&& forall|i: int| #[trigger]
                writes.contains((i, true)) ==> 0 <= i < files.len() && files[i].prices_changed
                    && files[i].key is Investments
        }),
{
    let n = files.len() as int;
    lemma_writes(files, n);
    lemma_only_changes(files, n);
}

proof fn lemma_only_changes(files: Seq<PreparedView>, n: int)
    requires
        0 <= n <= files.len(),
    ensures
        forall|k: int|
            0 <= k < writes_of(files, n).len() ==> {
                let write = #[trigger] writes_of(files, n)[k];
                &&& 0 <= write.0 < n
                &&& !write.1 ==> files[write.0].changed
                &&& write.1 ==> files[write.0].prices_changed && files[write.0].key is Investments
            },
    decreases n,
{
    if n > 0 {
        lemma_only_changes(files, n - 1);
    }
}

} // verus!
