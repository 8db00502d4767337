//! A run of the expense date repair: every file is classified first, a backup is
//! taken only if something has to be written, and only then are files written.

use vstd::prelude::*;
use crate::changes::{
    change_views, logged_row, record, row_json, typed, Change, ChangeView,
};
use crate::error::{Error, ErrorView};
use crate::expense_date_repair::{
    classify, count_misdated, count_undated, date_column_error, dates_exist, has_dates,
    marked_ids, needs_repair, redated, repair_dates, repaired_date_error, DayPolicy,
    ExpenseDateRepairReport, FileRepairCounts, DATE_COLUMN,
};
use crate::dates::{day_number, is_date};
use crate::merge_apply::{key_column_error, ROW_ID_COLUMN};
use crate::paths::{month_file, month_file_name};
use crate::sync::{ChangeOp, ChangeTable, OpView};
use crate::table::{Table, TableView};
use crate::text::{parse_i32, rank, spelled_within, text_before, texts, Rank};

verus! {

/// The repaired table of one file, to be written once the backup exists.
pub struct PlannedWrite {
    pub path: String,
    pub table: ChangeTable,
    pub df: Table,
    /// The rows this write changes, with their ids.
    pub changed: Vec<(usize, String)>,
}

/// What a [`PlannedWrite`] holds.
pub struct PlannedView {
    pub path: Seq<char>,
    pub table: ChangeTable,
    pub df: TableView,
    pub changed: Seq<(int, Seq<char>)>,
}

impl View for PlannedWrite {
    type V = PlannedView;

    open spec fn view(&self) -> PlannedView {
        PlannedView {
            path: self.path@,
            table: self.table,
            df: self.df@,
            changed: Seq::new(
                self.changed@.len(),
                |k: int| (self.changed@[k].0 as int, self.changed@[k].1@),
            ),
        }
    }
}

/// What is recorded of one repaired row: the whole row, as it was written.
pub open spec fn repaired_row(write: PlannedView, k: int) -> ChangeView {
    typed(
        write.table,
        write.changed[k].1,
        match logged_row(write.df, write.changed[k].0, write.df.columns.len() as int) {
            Ok(row) => Ok(OpView::Upsert(row)),
            Err(e) => Err(e),
        },
    )
}

impl PlannedWrite {
    /// What to record once the table is written: each row that changed, as a whole.
    pub fn changes(&self) -> (r: Vec<Change>)
        requires
            forall|k: int|
                0 <= k < self@.changed.len() ==> 0 <= (#[trigger] self@.changed[k]).0
                    < self@.df.rows.len(),
        ensures
            change_views(r@) == Seq::new(
                self@.changed.len(),
                |k: int| repaired_row(self@, k),
            ),
    {
        let ghost want = Seq::new(self@.changed.len(), |k: int| repaired_row(self@, k));
        let mut list: Vec<Change> = Vec::new();
        let mut k: usize = 0;
        assert(change_views(list@) =~= want.take(0));
        while k < self.changed.len()
            invariant
                k <= self.changed@.len(),
                self@.changed.len() == self.changed@.len(),
                forall|k: int|
                    0 <= k < self@.changed.len() ==> 0 <= (#[trigger] self@.changed[k]).0
                        < self@.df.rows.len(),
                want == Seq::new(self@.changed.len(), |k: int| repaired_row(self@, k)),
                change_views(list@) == want.take(k as int),
            decreases self.changed.len() - k,
        {
            assert(self@.changed[k as int] == (
                self.changed@[k as int].0 as int,
                self.changed@[k as int].1@,
            ));
            let op = match row_json(&self.df, self.changed[k].0) {
                Ok(row) => Ok(ChangeOp::Upsert { row }),
                Err(e) => Err(e),
            };
            let ghost before = change_views(list@);
            record(&mut list, self.table, self.changed[k].1.as_str(), op);
            assert(change_views(list@) =~= before.push(want[k as int]));
            assert(want.take(k + 1) =~= want.take(k as int).push(want[k as int]));
            k = k + 1;
        }
        assert(want.take(k as int) =~= want);
        list
    }
}

/// The counts of one file, as they say.
pub struct CountsView {
    pub path: Seq<char>,
    pub total_rows: nat,
    pub class_a: nat,
    pub class_b: nat,
}

/// A run so far.
pub struct RepairRun {
    pub report: ExpenseDateRepairReport,
    pub planned: Vec<PlannedWrite>,
}

/// What a [`RepairRun`] holds.
#[verifier::ext_equal]
pub struct RunView {
    pub files: Seq<CountsView>,
    pub planned: Seq<PlannedView>,
    pub skipped: Seq<Seq<char>>,
    pub rows_repaired: nat,
    pub backup_dir: Option<Seq<char>>,
    pub applied: bool,
}

impl View for RepairRun {
    type V = RunView;

    open spec fn view(&self) -> RunView {
        RunView {
            files: Seq::new(
                self.report.files@.len(),
                |i: int|
                    CountsView {
                        path: self.report.files@[i].path@,
                        total_rows: self.report.files@[i].total_rows as nat,
                        class_a: self.report.files@[i].class_a as nat,
                        class_b: self.report.files@[i].class_b as nat,
                    },
            ),
            planned: Seq::new(self.planned@.len(), |i: int| self.planned@[i]@),
            skipped: texts(self.report.skipped_paths@),
            rows_repaired: self.report.rows_repaired as nat,
            backup_dir: match self.report.backup_dir {
                Some(dir) => Some(dir@),
                None => None,
            },
            applied: self.report.applied,
        }
    }
}

/// A run that may write but was given no policy for the day.
pub open spec fn no_policy_error() -> ErrorView {
    ErrorView::InvalidArgument(
        "--apply requires an explicit --day policy, for example --day=first-of-month. Refusing to run so no day is invented by accident."@,
    )
}

/// What the rows of a file have to say about their dates.
pub open spec fn file_counts(path: Seq<char>, df: TableView, year: int, month: int) -> CountsView {
    let c = df.column_of(DATE_COLUMN@);
    let n = df.rows.len() as int;
    CountsView {
        path,
        total_rows: df.rows.len(),
        class_a: count_undated(df.rows, c, n),
        class_b: count_misdated(df.rows, c, year, month, n),
    }
}

/// For each row of a file, whether its date has to be repaired.
pub open spec fn repair_flags(df: TableView, year: int, month: int) -> Seq<bool> {
    Seq::new(
        df.rows.len(),
        |i: int| needs_repair(df.rows[i][df.column_of(DATE_COLUMN@)], year, month),
    )
}

/// The write that repairs a file.
pub open spec fn planned_for(
    path: Seq<char>,
    df: TableView,
    year: i32,
    month: u32,
    day: int,
) -> PlannedView {
    let flags = repair_flags(df, year as int, month as int);
    PlannedView {
        path,
        table: ChangeTable::Expenses { year, month },
        df: redated(df, flags, day_number(year as int, month as int, day) as i32),
        changed: marked_ids(df, flags, flags.len() as int),
    }
}

/// A run after one more file was read, or why the file stops the run.
pub open spec fn scanned(
    run: RunView,
    path: Seq<char>,
    year: i32,
    month: u32,
    df: TableView,
    day: Option<DayPolicy>,
) -> Result<RunView, ErrorView> {
    let counts = file_counts(path, df, year as int, month as int);
    let named = df.has_column(ROW_ID_COLUMN@) && df.columns[df.column_of(
        ROW_ID_COLUMN@,
    )].dtype is Text;
    if !has_dates(df) {
        Err(date_column_error())
    } else if counts.class_a == 0 && counts.class_b == 0 {
        Ok(run)
    } else {
        match day {
            None => Ok(RunView { files: run.files.push(counts), ..run }),
            Some(_) => if !is_date(year as int, month as int, 1) {
                Err(repaired_date_error(year as int, month as nat, 1))
            } else if !named {
                Err(key_column_error(ROW_ID_COLUMN@))
            } else {
                Ok(
                    RunView {
                        files: run.files.push(counts),
                        planned: run.planned.push(planned_for(path, df, year, month, 1)),
                        ..run
                    },
                )
            },
        }
    }
}

impl RepairRun {
    /// Begin a run. One that may write needs a policy for the day.
    pub fn start(apply: bool, day: Option<DayPolicy>) -> (r: Result<RepairRun, Error>)
        ensures
            match r {
                Ok(run) => !(apply && day is None) && run@ == (RunView {
                    files: Seq::empty(),
                    planned: Seq::empty(),
                    skipped: Seq::empty(),
                    rows_repaired: 0,
                    backup_dir: None,
                    applied: apply,
                }),
                Err(e) => apply && day is None && e@ == no_policy_error(),
            },
    {
        if apply && day.is_none() {
            return Err(
                Error::InvalidArgument(
                    "--apply requires an explicit --day policy, for example --day=first-of-month. Refusing to run so no day is invented by accident.".to_owned(),
                ),
            );
        }
        let run = RepairRun {
            report: ExpenseDateRepairReport {
                files: Vec::new(),
                rows_repaired: 0,
                backup_dir: None,
                skipped_paths: Vec::new(),
                applied: apply,
            },
            planned: Vec::new(),
        };
        proof {
            assert(run@.files =~= Seq::empty());
            assert(run@.planned =~= Seq::empty());
            assert(run@.skipped =~= Seq::empty());
        }
        Ok(run)
    }

    /// Note a file that could not be read.
    pub fn skip(&mut self, path: String)
        ensures
            final(self)@ == (RunView { skipped: old(self)@.skipped.push(path@), ..old(self)@ }),
    {
        let ghost before = self@;
        self.report.skipped_paths.push(path);
        assert(self@.skipped =~= before.skipped.push(path@));
        assert(self@.files =~= before.files);
        assert(self@.planned =~= before.planned);
    }

    /// Classify the rows of a file, and plan its repair where one is needed and a
    /// policy for the day is given.
    pub fn scan(
        &mut self,
        path: String,
        year: i32,
        month: u32,
        df: &Table,
        day: Option<DayPolicy>,
    ) -> (r: Result<(), Error>)
        requires
            dates_exist(df@),
        ensures
            match r {
                Ok(()) => scanned(old(self)@, path@, year, month, df@, day) == Ok::<
                    RunView,
                    ErrorView,
                >(final(self)@),
                Err(e) => scanned(old(self)@, path@, year, month, df@, day) == Err::<
                    RunView,
                    ErrorView,
                >(e@) && final(self)@ == old(self)@,
            },
    {
        let ghost before = self@;
        let class = classify(df, year, month)?;
        if class.class_a == 0 && class.class_b == 0 {
            return Ok(());
        }
        let ghost counts = file_counts(path@, df@, year as int, month as int);
        let ghost flags = repair_flags(df@, year as int, month as int);
        assert(class.needs_repair@ =~= flags);
        let counted = FileRepairCounts {
            path: path.clone(),
            total_rows: df.height(),
            class_a: class.class_a,
            class_b: class.class_b,
        };
        if let Some(policy) = day {
            let (repaired, changed) = repair_dates(
                df,
                year,
                month,
                policy.day(),
                &class.needs_repair,
            )?;
            self.planned.push(
                PlannedWrite {
                    path,
                    table: ChangeTable::Expenses { year, month },
                    df: repaired,
                    changed,
                },
            );
            assert(self@.planned =~= before.planned.push(
                planned_for(path@, df@, year, month, 1),
            ));
        }
        self.report.files.push(counted);
        proof {
            assert(self@.files =~= before.files.push(counts));
            if day is None {
                assert(self@.planned =~= before.planned);
            }
        }
        Ok(())
    }

    /// Whether a backup has to be taken, because something will be written. A dry
    /// run writes nothing.
    pub fn needs_backup(&self) -> (r: bool)
        ensures
            r == (self@.applied && self@.planned.len() > 0),
    {
        self.report.applied && self.planned.len() > 0
    }

    /// Note where the backup was written.
    pub fn backed_up(&mut self, dir: String)
        ensures
            final(self)@ == (RunView { backup_dir: Some(dir@), ..old(self)@ }),
    {
        let ghost before = self@;
        self.report.backup_dir = Some(dir);
        assert(self@.files =~= before.files);
        assert(self@.planned =~= before.planned);
        assert(self@.skipped =~= before.skipped);
    }

    /// Note that a planned write was carried out.
    pub fn wrote(&mut self, i: usize)
        requires
            i < old(self)@.planned.len(),
            old(self)@.rows_repaired + old(self)@.planned[i as int].changed.len() <= usize::MAX,
        ensures
            final(self)@ == (RunView {
                rows_repaired: old(self)@.rows_repaired + old(
                    self,
                )@.planned[i as int].changed.len(),
                ..old(self)@
            }),
    {
        let ghost before = self@;
        assert(before.planned[i as int].changed.len() == self.planned@[i as int].changed@.len());
        self.report.rows_repaired = self.report.rows_repaired + self.planned[i].changed.len();
        assert(self@.files =~= before.files);
        assert(self@.planned =~= before.planned);
        assert(self@.skipped =~= before.skipped);
    }
}

/// A folder of a year: its name, and the year the name spells.
pub struct YearFolder {
    pub year: i32,
    pub name: String,
}

/// Whether a folder comes after another: by year, then by name.
pub open spec fn folder_before(a: (int, Seq<char>), b: (int, Seq<char>)) -> bool {
    a.0 < b.0 || (a.0 == b.0 && text_before(a.1, b.1))
}

/// A sorted list of folders with one more, behind every one that does not come
/// after it.
pub open spec fn placed(folders: Seq<(int, Seq<char>)>, folder: (int, Seq<char>)) -> Seq<
    (int, Seq<char>),
>
    decreases folders.len(),
{
    if folders.len() == 0 || !folder_before(folder, folders.last()) {
        folders.push(folder)
    } else {
        placed(folders.drop_last(), folder).push(folders.last())
    }
}

/// The folders, among the first `n` names, that are named after a year, in the
/// order of the years.
pub open spec fn year_folders(names: Seq<Seq<char>>, n: int) -> Seq<(int, Seq<char>)>
    decreases n,
{
    if n <= 0 {
        Seq::empty()
    } else {
        let rest = year_folders(names, n - 1);
        match spelled_within(names[n - 1], i32::MIN as int, i32::MAX as int) {
            Some(year) => placed(rest, (year, names[n - 1])),
            None => rest,
        }
    }
}

/// The paths of the twelve monthly files of each folder.
pub open spec fn monthly_paths(folders: Seq<(int, Seq<char>)>) -> Seq<Seq<char>> {
    Seq::new(
        12 * folders.len(),
        |i: int| folders[i / 12].1.push('/') + month_file((i % 12 + 1) as nat),
    )
}

/// What the folders of a list say.
pub open spec fn folder_views(folders: Seq<YearFolder>) -> Seq<(int, Seq<char>)> {
    Seq::new(folders.len(), |i: int| (folders[i].year as int, folders[i].name@))
}

proof fn lemma_placed(folders: Seq<(int, Seq<char>)>, folder: (int, Seq<char>), p: int)
    requires
        0 <= p <= folders.len(),
        forall|j: int| p <= j < folders.len() ==> folder_before(folder, #[trigger] folders[j]),
        p > 0 ==> !folder_before(folder, folders[p - 1]),
    ensures
        placed(folders, folder) == folders.insert(p, folder),
    decreases folders.len(),
{
    if p == folders.len() {
        assert(folders.insert(p, folder) =~= folders.push(folder));
    } else {
        let front = folders.drop_last();
        assert(folder_before(folder, folders[folders.len() - 1]));
        assert forall|j: int| p <= j < front.len() implies folder_before(
            folder,
            #[trigger] front[j],
        ) by {
            assert(front[j] == folders[j]);
        }
        if p > 0 {
            assert(front[p - 1] == folders[p - 1]);
        }
        lemma_placed(front, folder, p);
        assert(folders.insert(p, folder) =~= front.insert(p, folder).push(folders.last()));
    }
}

/// The folders that are named after a year, in the order of the years.
pub fn sorted_years(names: &Vec<String>) -> (r: Vec<YearFolder>)
    ensures
        folder_views(r@) == year_folders(texts(names@), names@.len() as int),
{
    let ghost all = texts(names@);
    let mut folders: Vec<YearFolder> = Vec::new();
    let mut i: usize = 0;
    assert(folder_views(folders@) =~= Seq::empty());
    while i < names.len()
        invariant
            i <= names.len(),
            all == texts(names@),
            folder_views(folders@) == year_folders(all, i as int),
        decreases names.len() - i,
    {
        assert(all[i as int] == names@[i as int]@);
        if let Some(year) = parse_i32(names[i].as_str()) {
            let folder = YearFolder { year, name: names[i].clone() };
            let ghost it = (year as int, names@[i as int]@);
            let ghost before = folder_views(folders@);
            let mut p: usize = folders.len();
            while p > 0 && (folder.year < folders[p - 1].year || (folder.year == folders[p - 1].year
                && rank(folder.name.as_str(), folders[p - 1].name.as_str()) == Rank::Before))
                invariant
                    p <= folders.len(),
                    before == folder_views(folders@),
                    it == (folder.year as int, folder.name@),
                    forall|j: int|
                        p <= j < before.len() ==> folder_before(it, #[trigger] before[j]),
                decreases p,
            {
                assert(before[p - 1] == (folders@[p - 1].year as int, folders@[p - 1].name@));
                p = p - 1;
            }
            proof {
                if p > 0 {
                    assert(before[p - 1] == (folders@[p - 1].year as int, folders@[p - 1].name@));
                }
                lemma_placed(before, it, p as int);
            }
            folders.insert(p, folder);
            assert(folder_views(folders@) =~= before.insert(p as int, it));
        }
        i = i + 1;
    }
    folders
}

/// The paths where monthly files can lie, by year and then by month. Names that
/// are not those of a year are passed over.
pub fn month_files(names: &Vec<String>) -> (r: Vec<String>)
    requires
        12 * names@.len() <= usize::MAX,
    ensures
        texts(r@) == monthly_paths(year_folders(texts(names@), names@.len() as int)),
{
    let folders = sorted_years(names);
    let ghost all = folder_views(folders@);
    let mut paths: Vec<String> = Vec::new();
    let mut i: usize = 0;
    while i < folders.len()
        invariant
            i <= folders.len(),
            all == folder_views(folders@),
            paths@.len() == 12 * i,
            forall|k: int|
                0 <= k < 12 * i ==> (#[trigger] paths@[k])@ == monthly_paths(all)[k],
        decreases folders.len() - i,
    {
        assert(all[i as int] == (folders@[i as int].year as int, folders@[i as int].name@));
        let mut month: u32 = 1;
        while month <= 12
            invariant
                1 <= month <= 13,
                i < folders.len(),
                all == folder_views(folders@),
                all[i as int].1 == folders@[i as int].name@,
                paths@.len() == 12 * i + month - 1,
                forall|k: int|
                    0 <= k < 12 * i + month - 1 ==> (#[trigger] paths@[k])@ == monthly_paths(
                        all,
                    )[k],
            decreases 13 - month,
        {
            let mut path = folders[i].name.clone();
            path.push('/');
            let file = month_file_name(month);
            path.append(file.as_str());
            proof {
                let k = 12 * i + month - 1;
                assert(k / 12 == i && k % 12 == month - 1);
                assert(path@ == monthly_paths(all)[k]);
            }
            paths.push(path);
            month = month + 1;
        }
        i = i + 1;
    }
    assert(texts(paths@) =~= monthly_paths(all));
    paths
}

} // verus!
